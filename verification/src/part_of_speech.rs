use vstd::prelude::*;
use crate::error::DecodeError;

verus! {

/// Grammatical category of a dictionary entry.
///
/// Each category has its own index/data file pair on disk.
/// `AdjectiveSatellite` shares a display abbreviation with `Adjective`
/// but is a distinct category for record decoding.
#[derive(Debug, PartialEq, Eq, Structural, Clone, Copy)]
pub enum PartOfSpeech {
    /// A substantive
    Noun,
    /// A word that describes a noun
    Adjective,
    /// A word that describes a noun, clustered around a head adjective
    AdjectiveSatellite,
    /// A word that describes an action
    Verb,
    /// A word that describes a verb
    Adverb,
}

/// The short dictionary-like label for a category.
pub open spec fn short_spec(p: PartOfSpeech) -> Seq<char> {
    match p {
        PartOfSpeech::Noun => "n"@,
        PartOfSpeech::Adjective => "adj"@,
        PartOfSpeech::AdjectiveSatellite => "adj"@,
        PartOfSpeech::Verb => "v"@,
        PartOfSpeech::Adverb => "adv"@,
    }
}

impl PartOfSpeech {
    /// Returns a short dictionary-like label:
    ///
    /// * n
    /// * adj
    /// * v
    /// * adv
    pub fn short(&self) -> (r: &'static str)
        ensures
            r@ == short_spec(*self),
    {
        match *self {
            PartOfSpeech::Noun => "n",
            PartOfSpeech::Adjective => "adj",
            PartOfSpeech::AdjectiveSatellite => "adj",
            PartOfSpeech::Verb => "v",
            PartOfSpeech::Adverb => "adv",
        }
    }
}

/// What decoding a one-byte category code yields: the five known codes
/// map to their categories, anything else is an error.
pub open spec fn part_of_speech_code_spec(code: Seq<u8>) -> Result<PartOfSpeech, DecodeError> {
    if code.len() == 1 {
        if code[0] == 110u8 {
            Ok(PartOfSpeech::Noun)
        } else if code[0] == 118u8 {
            Ok(PartOfSpeech::Verb)
        } else if code[0] == 97u8 {
            Ok(PartOfSpeech::Adjective)
        } else if code[0] == 115u8 {
            Ok(PartOfSpeech::AdjectiveSatellite)
        } else if code[0] == 114u8 {
            Ok(PartOfSpeech::Adverb)
        } else {
            Err(DecodeError::BadPartOfSpeech)
        }
    } else {
        Err(DecodeError::BadPartOfSpeech)
    }
}

/// The canonical code for a category; decoding it gives the category back.
pub open spec fn part_of_speech_code_of(p: PartOfSpeech) -> Seq<u8> {
    match p {
        PartOfSpeech::Noun => seq![110u8],
        PartOfSpeech::Verb => seq![118u8],
        PartOfSpeech::Adjective => seq![97u8],
        PartOfSpeech::AdjectiveSatellite => seq![115u8],
        PartOfSpeech::Adverb => seq![114u8],
    }
}

/// Every category's canonical code decodes back to that category.
pub proof fn lemma_part_of_speech_code_round_trip(p: PartOfSpeech)
    ensures
        part_of_speech_code_spec(part_of_speech_code_of(p)) == Ok::<PartOfSpeech, DecodeError>(p),
{
}

/// Decode a category code field, as it appears both in data lines and in
/// cross-reference fields.
pub fn part_of_speech_code_to_part_of_speech(code: &[u8]) -> (r: Result<
    PartOfSpeech,
    DecodeError,
>)
    ensures
        r == part_of_speech_code_spec(code@),
{
    if code.len() == 1 {
        let b = code[0];
        if b == 110u8 {
            Ok(PartOfSpeech::Noun)
        } else if b == 118u8 {
            Ok(PartOfSpeech::Verb)
        } else if b == 97u8 {
            Ok(PartOfSpeech::Adjective)
        } else if b == 115u8 {
            Ok(PartOfSpeech::AdjectiveSatellite)
        } else if b == 114u8 {
            Ok(PartOfSpeech::Adverb)
        } else {
            Err(DecodeError::BadPartOfSpeech)
        }
    } else {
        Err(DecodeError::BadPartOfSpeech)
    }
}

} // verus!
