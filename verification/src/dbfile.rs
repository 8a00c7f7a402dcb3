use vstd::prelude::*;
use crate::database::Database;
use crate::database::PointerRef;
use crate::database::Sense;
use crate::decode::IndexData;
use crate::decode::SenseData;
use crate::decode::decode_index;
use crate::decode::decode_sense;
use crate::decode::parse_index;
use crate::decode::parse_sense;
use crate::error::DecodeError;
use crate::part_of_speech::PartOfSpeech;
use crate::search::find_from;
use crate::search::find_position_in;
use crate::search::lemma_find_from_props;
use crate::search::start_from;
use crate::search::lemma_word_cmp_found;
use crate::search::word_entry;
use crate::text::is_line_start;
use crate::text::line_at;
use crate::text::read_line_at;

verus! {

/// The contents of one category's file pair.
#[verifier::ext_equal]
pub ghost struct DBFileData {
    pub part_of_speech: PartOfSpeech,
    pub index: Seq<u8>,
    pub data: Seq<u8>,
}

/// What reading the sense record at a byte offset of a data file
/// yields: the decoded record of the line starting there, or an error
/// for an offset past the end of the file.
pub open spec fn sense_at(data: Seq<u8>, offset: u64) -> Result<SenseData, DecodeError> {
    if offset > data.len() {
        Err(DecodeError::OffsetOutOfRange)
    } else {
        parse_sense(line_at(data, offset as int))
    }
}

/// Reading a sense touches only its own line: two data files that
/// agree on the line starting at the offset yield the same record,
/// whatever either file holds where the record's cross-references
/// point. Following a cross-reference is a separate, later read
/// through `PointerRef::read`.
pub proof fn lemma_sense_read_locality(data1: Seq<u8>, data2: Seq<u8>, offset: u64)
    requires
        offset <= data1.len(),
        offset <= data2.len(),
        line_at(data1, offset as int) == line_at(data2, offset as int),
    ensures
        sense_at(data1, offset) == sense_at(data2, offset),
{
}

/// What resolving a list of sense offsets against a data file yields,
/// from the `i`th offset on: the decoded records in offset order, or
/// the first decode error met.
pub open spec fn senses_at_offsets(data: Seq<u8>, offsets: Seq<u64>, i: int) -> Result<
    Seq<SenseData>,
    DecodeError,
>
    decreases offsets.len() - i,
{
    if i < 0 || i >= offsets.len() {
        Ok(Seq::empty())
    } else {
        match sense_at(data, offsets[i]) {
            Err(e) => Err(e),
            Ok(s) => match senses_at_offsets(data, offsets, i + 1) {
                Err(e) => Err(e),
                Ok(rest) => Ok(seq![s] + rest),
            },
        }
    }
}

/// What looking a normalized word up in one category yields: nothing
/// when the index has no line for it; otherwise the senses listed on
/// its index line, resolved in order, or the first error met.
pub open spec fn file_senses(f: DBFileData, word: Seq<u8>) -> Result<
    Option<Seq<SenseData>>,
    DecodeError,
> {
    match find_from(f.index, 0, word) {
        None => Ok(None),
        Some(p) => match parse_index(line_at(f.index, p)) {
            Err(e) => Err(e),
            Ok(entry) => match senses_at_offsets(f.data, entry.offsets, 0) {
                Err(e) => Err(e),
                Ok(s) => Ok(Some(s)),
            },
        },
    }
}

/// One grammatical category's index and data file, held as bytes.
#[derive(Debug)]
pub struct DBFile {
    pub(crate) part_of_speech: PartOfSpeech,
    pub(crate) index: Vec<u8>,
    pub(crate) data: Vec<u8>,
}

impl View for DBFile {
    type V = DBFileData;

    closed spec fn view(&self) -> DBFileData {
        DBFileData {
            part_of_speech: self.part_of_speech,
            index: self.index@,
            data: self.data@,
        }
    }
}

impl DeepView for DBFile {
    type V = DBFileData;

    open spec fn deep_view(&self) -> DBFileData {
        self.view()
    }
}

impl DBFile {
    /// Pair the byte contents of one category's index and data files.
    pub fn new(part_of_speech: PartOfSpeech, index: Vec<u8>, data: Vec<u8>) -> (r: DBFile)
        ensures
            r@ == (DBFileData { part_of_speech, index: index@, data: data@ }),
    {
        DBFile { part_of_speech, index, data }
    }

    /// The category this file pair belongs to.
    pub fn part_of_speech(&self) -> (r: PartOfSpeech)
        ensures
            r == self@.part_of_speech,
    {
        self.part_of_speech
    }

    /// Search the index for a word, given in its normalized form, and
    /// return the byte offset of its index line.
    ///
    /// The offset returned is that of the first line whose word field
    /// equals the query byte for byte; absence of any such line yields
    /// `None`, never an error.
    pub fn find_position(&self, word: &[u8]) -> (r: Option<u64>)
        ensures
            match r {
                Some(off) => {
                    &&& is_line_start(self@.index, off as int)
                    &&& word_entry(self@.index.skip(off as int), word@)
                    &&& forall|s: int|
                        is_line_start(self@.index, s) && s < off ==> !word_entry(
                            self@.index.skip(s),
                            word@,
                        )
                },
                None => forall|s: int|
                    is_line_start(self@.index, s) ==> !word_entry(self@.index.skip(s), word@),
            },
    {
        let r = find_position_in(self.index.as_slice(), word);
        proof {
            lemma_find_from_props(self@.index, 0, word@);
            match find_from(self@.index, 0, word@) {
                Some(pp) => {
                    lemma_word_cmp_found(self@.index.skip(pp), word@);
                    assert forall|s: int|
                        is_line_start(self@.index, s) && s < pp implies !word_entry(
                        self@.index.skip(s),
                        word@,
                    ) by {
                        assert(start_from(self@.index, 0, s));
                        lemma_word_cmp_found(self@.index.skip(s), word@);
                    }
                },
                None => {
                    assert forall|s: int| is_line_start(self@.index, s) implies !word_entry(
                        self@.index.skip(s),
                        word@,
                    ) by {
                        assert(start_from(self@.index, 0, s));
                        lemma_word_cmp_found(self@.index.skip(s), word@);
                    }
                },
            }
        }
        match r {
            Some(p) => {
                proof {
                    assert((p as u64) as int == p as int);
                }
                Some(p as u64)
            },
            None => None,
        }
    }

    /// Read and decode the sense record at a byte offset of this
    /// category's data file, tying its cross-references to `database`
    /// so they can be resolved later.
    pub fn read_sense<'db>(&self, database: &'db Database, offset: u64) -> (r: Result<
        Sense<'db>,
        DecodeError,
    >)
        ensures
            match r {
                Ok(s) => sense_at(self@.data, offset) == Ok::<SenseData, DecodeError>(s@),
                Err(e) => sense_at(self@.data, offset) == Err::<SenseData, DecodeError>(e),
            },
    {
        if offset > self.data.len() as u64 {
            return Err(DecodeError::OffsetOutOfRange);
        }
        let line = read_line_at(self.data.as_slice(), offset as usize);
        let rec = match decode_sense(line.as_slice()) {
            Ok(rec) => rec,
            Err(e) => {
                return Err(e);
            },
        };
        let mut pointers: Vec<PointerRef<'db>> = Vec::new();
        let n = rec.pointers.len();
        let mut i: usize = 0;
        while i < n
            invariant
                0 <= i <= n,
                n == rec.pointers@.len(),
                pointers.deep_view() == rec.pointers.deep_view().take(i as int),
            decreases n - i,
        {
            let p = &rec.pointers[i];
            let ghost before = pointers.deep_view();
            let pr = PointerRef::new(database, p.relationship, p.part_of_speech, p.offset);
            pointers.push(pr);
            proof {
                assert(pointers.deep_view() =~~= before.push(rec.pointers@[i as int]@));
                assert(rec.pointers.deep_view().take(i + 1 as int) =~~= rec.pointers.deep_view().take(
                    i as int,
                ).push(rec.pointers.deep_view()[i as int]));
            }
            i = i + 1;
        }
        proof {
            assert(pointers.deep_view() =~~= rec.pointers.deep_view());
        }
        let sense = Sense {
            part_of_speech: rec.part_of_speech,
            gloss: rec.gloss,
            synonyms: rec.synonyms,
            pointers,
        };
        proof {
            assert(sense@ =~~= rec@);
        }
        Ok(sense)
    }

    /// Search this category for a normalized word and resolve every
    /// sense its index line lists.
    ///
    /// A word absent from this category yields `Ok(None)`; a malformed
    /// index or data line yields the error instead of a partial result.
    pub fn senses<'db>(&self, database: &'db Database, word: &[u8]) -> (r: Result<
        Option<Vec<Sense<'db>>>,
        DecodeError,
    >)
        ensures
            match r {
                Ok(opt) => match opt {
                    None => file_senses(self@, word@) == Ok::<Option<Seq<SenseData>>, DecodeError>(
                        None,
                    ),
                    Some(v) => file_senses(self@, word@) == Ok::<
                        Option<Seq<SenseData>>,
                        DecodeError,
                    >(Some(v.deep_view())),
                },
                Err(e) => file_senses(self@, word@) == Err::<Option<Seq<SenseData>>, DecodeError>(
                    e,
                ),
            },
    {
        let p = match find_position_in(self.index.as_slice(), word) {
            None => {
                return Ok(None);
            },
            Some(p) => p,
        };
        proof {
            lemma_find_from_props(self@.index, 0, word@);
        }
        let line = read_line_at(self.index.as_slice(), p);
        let entry = match decode_index(line.as_slice()) {
            Ok(e) => e,
            Err(e) => {
                return Err(e);
            },
        };
        let mut out: Vec<Sense<'db>> = Vec::new();
        let n = entry.offsets.len();
        let mut i: usize = 0;
        while i < n
            invariant
                0 <= i <= n,
                n == entry.offsets@.len(),
                find_from(self@.index, 0, word@) == Some(p as int),
                parse_index(line_at(self@.index, p as int)) == Ok::<IndexData, DecodeError>(
                    entry@,
                ),
                out.deep_view().len() == i,
                match senses_at_offsets(self@.data, entry@.offsets, i as int) {
                    Ok(rest) => senses_at_offsets(self@.data, entry@.offsets, 0) == Ok::<
                        Seq<SenseData>,
                        DecodeError,
                    >(out.deep_view() + rest),
                    Err(e) => senses_at_offsets(self@.data, entry@.offsets, 0) == Err::<
                        Seq<SenseData>,
                        DecodeError,
                    >(e),
                },
            decreases n - i,
        {
            let off = entry.offsets[i];
            match self.read_sense(database, off) {
                Ok(s) => {
                    let ghost before = out.deep_view();
                    let ghost sv = s@;
                    out.push(s);
                    proof {
                        assert(out.deep_view() =~~= before.push(sv));
                        let rest1 = senses_at_offsets(self@.data, entry@.offsets, i + 1 as int);
                        match rest1 {
                            Ok(r1) => {
                                assert(before + (seq![sv] + r1) =~~= (before.push(sv)) + r1);
                            },
                            Err(_) => {},
                        }
                    }
                },
                Err(e) => {
                    return Err(e);
                },
            }
            i = i + 1;
        }
        proof {
            assert(senses_at_offsets(self@.data, entry@.offsets, n as int) == Ok::<
                Seq<SenseData>,
                DecodeError,
            >(Seq::empty()));
            assert(out.deep_view() + Seq::<SenseData>::empty() =~~= out.deep_view());
        }
        Ok(Some(out))
    }
}

} // verus!
