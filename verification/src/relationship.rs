use vstd::prelude::*;
use crate::error::DecodeError;

verus! {

/// Relates one word to another semantically.
#[derive(Debug, PartialEq, Eq, Structural, Clone, Copy)]
pub enum Relationship {
    /// an opposite word
    Antonym,
    /// broader forms of this word (a *structure* is a hypernym of a *building*)
    Hypernym,
    /// broader forms of this word of which this word is a specific instance
    /// (*The Enlightenment* is a specific instance of a *historic period*)
    InstanceHypernym,
    /// more specific versions of this word (a *courthouse* is a hyponym of a *house*)
    Hyponym,
    /// more specific versions of this word that are specific instances of it
    InstanceHyponym,
    /// this word is a member of (the *world* is a hyponym of the *solar system*)
    MemberHolonym,
    /// this word is made with (*tin* is a substance holonym of *cassiterite*)
    SubstanceHolonym,
    /// this word is a part of (*land* is a part holonym of the *world*)
    PartHolonym,
    /// reverse of MemberHolonym (an *air bag* is a member meronym of *car*)
    MemberMeronym,
    /// reverse of SubstanceHolonym (*cassiterite* is a substance meronym of *tin*)
    SubstanceMeronym,
    /// reverse of PartHolonym (a *car* is a part holonym of an *air bag*)
    PartMeronym,
    /// *scientific* is an attribute of *scientific knowledge*
    Attribute,
    /// the word is related to (the adjective *outward* is related to *outwardness*)
    DerivationallyRelated,
    ///
    DomainOfTopic,
    ///
    MemberOfTopic,
    ///
    DomainOfRegion,
    ///
    MemberOfRegion,
    ///
    DomainOfUsage,
    ///
    MemberOfUsage,
    /// A verb requires an action to be completed first (to *eat* requires one to *chew*)
    Entailment,
    /// A verb causes another action (to *retire* causes one to *yield*)
    Cause,
    ///
    AlsoSee,
    ///
    VerbGroup,
    ///
    SimilarTo,
    ///
    VerbParticiple,
    /// relates an adjective to the noun it pertains to, or an adverb to
    /// the adjective it derives from
    PertainymOrDerivedFromAdjective,
}

/// What decoding a relationship code yields: each known one- or two-byte
/// code maps to its relationship, anything else is an error.
pub open spec fn relationship_code_spec(code: Seq<u8>) -> Result<Relationship, DecodeError> {
    if code.len() == 1 {
        if code[0] == 33u8 {  // !
            Ok(Relationship::Antonym)
        } else if code[0] == 64u8 {  // @
            Ok(Relationship::Hypernym)
        } else if code[0] == 126u8 {  // ~
            Ok(Relationship::Hyponym)
        } else if code[0] == 61u8 {  // =
            Ok(Relationship::Attribute)
        } else if code[0] == 43u8 {  // +
            Ok(Relationship::DerivationallyRelated)
        } else if code[0] == 42u8 {  // *
            Ok(Relationship::Entailment)
        } else if code[0] == 62u8 {  // >
            Ok(Relationship::Cause)
        } else if code[0] == 94u8 {  // ^
            Ok(Relationship::AlsoSee)
        } else if code[0] == 36u8 {  // $
            Ok(Relationship::VerbGroup)
        } else if code[0] == 38u8 {  // &
            Ok(Relationship::SimilarTo)
        } else if code[0] == 60u8 {  // <
            Ok(Relationship::VerbParticiple)
        } else if code[0] == 92u8 {  // backslash
            Ok(Relationship::PertainymOrDerivedFromAdjective)
        } else {
            Err(DecodeError::BadRelationship)
        }
    } else if code.len() == 2 {
        if code[0] == 64u8 && code[1] == 105u8 {  // @i
            Ok(Relationship::InstanceHypernym)
        } else if code[0] == 126u8 && code[1] == 105u8 {  // ~i
            Ok(Relationship::InstanceHyponym)
        } else if code[0] == 35u8 && code[1] == 109u8 {  // #m
            Ok(Relationship::MemberHolonym)
        } else if code[0] == 35u8 && code[1] == 115u8 {  // #s
            Ok(Relationship::SubstanceHolonym)
        } else if code[0] == 35u8 && code[1] == 112u8 {  // #p
            Ok(Relationship::PartHolonym)
        } else if code[0] == 37u8 && code[1] == 109u8 {  // %m
            Ok(Relationship::MemberMeronym)
        } else if code[0] == 37u8 && code[1] == 115u8 {  // %s
            Ok(Relationship::SubstanceMeronym)
        } else if code[0] == 37u8 && code[1] == 112u8 {  // %p
            Ok(Relationship::PartMeronym)
        } else if code[0] == 59u8 && code[1] == 99u8 {  // ;c
            Ok(Relationship::DomainOfTopic)
        } else if code[0] == 45u8 && code[1] == 99u8 {  // -c
            Ok(Relationship::MemberOfTopic)
        } else if code[0] == 59u8 && code[1] == 114u8 {  // ;r
            Ok(Relationship::DomainOfRegion)
        } else if code[0] == 45u8 && code[1] == 114u8 {  // -r
            Ok(Relationship::MemberOfRegion)
        } else if code[0] == 59u8 && code[1] == 117u8 {  // ;u
            Ok(Relationship::DomainOfUsage)
        } else if code[0] == 45u8 && code[1] == 117u8 {  // -u
            Ok(Relationship::MemberOfUsage)
        } else {
            Err(DecodeError::BadRelationship)
        }
    } else {
        Err(DecodeError::BadRelationship)
    }
}

/// The canonical code for a relationship; decoding it gives the
/// relationship back.
pub open spec fn relationship_code_of(r: Relationship) -> Seq<u8> {
    match r {
        Relationship::Antonym => seq![33u8],
        Relationship::Hypernym => seq![64u8],
        Relationship::InstanceHypernym => seq![64u8, 105u8],
        Relationship::Hyponym => seq![126u8],
        Relationship::InstanceHyponym => seq![126u8, 105u8],
        Relationship::MemberHolonym => seq![35u8, 109u8],
        Relationship::SubstanceHolonym => seq![35u8, 115u8],
        Relationship::PartHolonym => seq![35u8, 112u8],
        Relationship::MemberMeronym => seq![37u8, 109u8],
        Relationship::SubstanceMeronym => seq![37u8, 115u8],
        Relationship::PartMeronym => seq![37u8, 112u8],
        Relationship::Attribute => seq![61u8],
        Relationship::DerivationallyRelated => seq![43u8],
        Relationship::DomainOfTopic => seq![59u8, 99u8],
        Relationship::MemberOfTopic => seq![45u8, 99u8],
        Relationship::DomainOfRegion => seq![59u8, 114u8],
        Relationship::MemberOfRegion => seq![45u8, 114u8],
        Relationship::DomainOfUsage => seq![59u8, 117u8],
        Relationship::MemberOfUsage => seq![45u8, 117u8],
        Relationship::Entailment => seq![42u8],
        Relationship::Cause => seq![62u8],
        Relationship::AlsoSee => seq![94u8],
        Relationship::VerbGroup => seq![36u8],
        Relationship::SimilarTo => seq![38u8],
        Relationship::VerbParticiple => seq![60u8],
        Relationship::PertainymOrDerivedFromAdjective => seq![92u8],
    }
}

/// Every relationship's canonical code decodes back to that relationship.
pub proof fn lemma_relationship_code_round_trip(r: Relationship)
    ensures
        relationship_code_spec(relationship_code_of(r)) == Ok::<Relationship, DecodeError>(r),
{
}

/// Decode the relationship code on a cross-reference field.
pub fn relationship_code_to_relationship(code: &[u8]) -> (r: Result<Relationship, DecodeError>)
    ensures
        r == relationship_code_spec(code@),
{
    if code.len() == 1 {
        let b = code[0];
        if b == 33u8 {
            Ok(Relationship::Antonym)
        } else if b == 64u8 {
            Ok(Relationship::Hypernym)
        } else if b == 126u8 {
            Ok(Relationship::Hyponym)
        } else if b == 61u8 {
            Ok(Relationship::Attribute)
        } else if b == 43u8 {
            Ok(Relationship::DerivationallyRelated)
        } else if b == 42u8 {
            Ok(Relationship::Entailment)
        } else if b == 62u8 {
            Ok(Relationship::Cause)
        } else if b == 94u8 {
            Ok(Relationship::AlsoSee)
        } else if b == 36u8 {
            Ok(Relationship::VerbGroup)
        } else if b == 38u8 {
            Ok(Relationship::SimilarTo)
        } else if b == 60u8 {
            Ok(Relationship::VerbParticiple)
        } else if b == 92u8 {
            Ok(Relationship::PertainymOrDerivedFromAdjective)
        } else {
            Err(DecodeError::BadRelationship)
        }
    } else if code.len() == 2 {
        let b0 = code[0];
        let b1 = code[1];
        if b0 == 64u8 && b1 == 105u8 {
            Ok(Relationship::InstanceHypernym)
        } else if b0 == 126u8 && b1 == 105u8 {
            Ok(Relationship::InstanceHyponym)
        } else if b0 == 35u8 && b1 == 109u8 {
            Ok(Relationship::MemberHolonym)
        } else if b0 == 35u8 && b1 == 115u8 {
            Ok(Relationship::SubstanceHolonym)
        } else if b0 == 35u8 && b1 == 112u8 {
            Ok(Relationship::PartHolonym)
        } else if b0 == 37u8 && b1 == 109u8 {
            Ok(Relationship::MemberMeronym)
        } else if b0 == 37u8 && b1 == 115u8 {
            Ok(Relationship::SubstanceMeronym)
        } else if b0 == 37u8 && b1 == 112u8 {
            Ok(Relationship::PartMeronym)
        } else if b0 == 59u8 && b1 == 99u8 {
            Ok(Relationship::DomainOfTopic)
        } else if b0 == 45u8 && b1 == 99u8 {
            Ok(Relationship::MemberOfTopic)
        } else if b0 == 59u8 && b1 == 114u8 {
            Ok(Relationship::DomainOfRegion)
        } else if b0 == 45u8 && b1 == 114u8 {
            Ok(Relationship::MemberOfRegion)
        } else if b0 == 59u8 && b1 == 117u8 {
            Ok(Relationship::DomainOfUsage)
        } else if b0 == 45u8 && b1 == 117u8 {
            Ok(Relationship::MemberOfUsage)
        } else {
            Err(DecodeError::BadRelationship)
        }
    } else {
        Err(DecodeError::BadRelationship)
    }
}

} // verus!
