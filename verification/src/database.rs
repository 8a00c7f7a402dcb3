use vstd::prelude::*;
use vstd::string::StringSliceAdditionalSpecFns;
use crate::dbfile::DBFile;
use crate::dbfile::DBFileData;
use crate::dbfile::file_senses;
use crate::decode::PointerData;
use crate::decode::SenseData;
use crate::decode::SenseRef;
use crate::error::DecodeError;
use crate::part_of_speech::PartOfSpeech;
use crate::relationship::Relationship;
use crate::text::normalize;
use crate::text::normalize_word;
use crate::dbfile::sense_at;

verus! {

/// A dictionary database: one file pair per grammatical category, in
/// the fixed order the categories were discovered.
#[derive(Debug)]
pub struct Database {
    pub(crate) db_files: Vec<DBFile>,
}

impl View for Database {
    type V = Seq<DBFileData>;

    closed spec fn view(&self) -> Seq<DBFileData> {
        self.db_files.deep_view()
    }
}

/// The first category file at or after position `i` that belongs to
/// the given category.
pub open spec fn find_file_from(files: Seq<DBFileData>, i: int, p: PartOfSpeech) -> Option<int>
    decreases files.len() - i,
{
    if i < 0 || i >= files.len() {
        None
    } else if files[i].part_of_speech == p {
        Some(i)
    } else {
        find_file_from(files, i + 1, p)
    }
}

/// What a fan-out lookup yields, over the category files from the
/// `i`th on: each category's senses for the word in turn, concatenated
/// in file order; a category without the word contributes nothing; the
/// first error met is the result instead.
pub open spec fn db_senses_from(files: Seq<DBFileData>, i: int, word: Seq<u8>) -> Result<
    Seq<SenseData>,
    DecodeError,
>
    decreases files.len() - i,
{
    if i < 0 || i >= files.len() {
        Ok(Seq::empty())
    } else {
        match file_senses(files[i], word) {
            Err(e) => Err(e),
            Ok(None) => db_senses_from(files, i + 1, word),
            Ok(Some(s)) => match db_senses_from(files, i + 1, word) {
                Err(e) => Err(e),
                Ok(rest) => Ok(s + rest),
            },
        }
    }
}

/// One category's contribution to a successful fan-out lookup.
pub open spec fn file_contribution(f: DBFileData, word: Seq<u8>) -> Seq<SenseData> {
    match file_senses(f, word) {
        Ok(Some(s)) => s,
        _ => Seq::empty(),
    }
}

/// The concatenation of the per-category results, in category order.
pub open spec fn fanout_concat(files: Seq<DBFileData>, i: int, word: Seq<u8>) -> Seq<SenseData>
    decreases files.len() - i,
{
    if i < 0 || i >= files.len() {
        Seq::empty()
    } else {
        file_contribution(files[i], word) + fanout_concat(files, i + 1, word)
    }
}

/// The sum of the per-category result counts.
pub open spec fn fanout_count(files: Seq<DBFileData>, i: int, word: Seq<u8>) -> int
    decreases files.len() - i,
{
    if i < 0 || i >= files.len() {
        0
    } else {
        file_contribution(files[i], word).len() + fanout_count(files, i + 1, word)
    }
}

/// A successful fan-out lookup returns exactly the concatenation, in
/// fixed category order, of each category's independent result, and
/// its total count is the sum of the per-category counts.
pub proof fn lemma_fanout_concatenation(files: Seq<DBFileData>, i: int, word: Seq<u8>)
    requires
        0 <= i <= files.len(),
    ensures
        match db_senses_from(files, i, word) {
            Ok(v) => {
                &&& v.len() == fanout_count(files, i, word)
                &&& (forall|j: int|
                    i <= j < files.len() ==> #[trigger] file_senses(files[j], word) matches Ok(_))
                &&& v =~= fanout_concat(files, i, word)
            },
            Err(_) => true,
        },
    decreases files.len() - i,
{
    if i < files.len() {
        lemma_fanout_concatenation(files, i + 1, word);
    }
}

/// Senses are different definitions or etymologies for a word.
///
/// The senses are also arranged by part of speech. For example,
/// "bank" has many senses, one is a verb that means "to count on
/// something", another is a noun that refers to the financial
/// institution.
///
/// A list of these can be accessed by `senses()`.
#[derive(Debug)]
pub struct Sense<'db> {
    /// The part of speech that this sense has
    pub part_of_speech: PartOfSpeech,
    /// A short dictionary-like text written in prose that describes
    /// the word
    pub gloss: Vec<u8>,
    /// Ways to write this sense, one of which is probably the word
    /// you passed to `Database::senses()`
    pub synonyms: Vec<SenseRef>,
    /// Words that are somehow related to this sense.
    pub pointers: Vec<PointerRef<'db>>,
}

impl<'db> View for Sense<'db> {
    type V = SenseData;

    open spec fn view(&self) -> SenseData {
        SenseData {
            part_of_speech: self.part_of_speech,
            gloss: self.gloss@,
            synonyms: self.synonyms.deep_view(),
            pointers: self.pointers.deep_view(),
        }
    }
}

impl<'db> DeepView for Sense<'db> {
    type V = SenseData;

    open spec fn deep_view(&self) -> SenseData {
        self.view()
    }
}

/// Connects a Sense to the senses it is related to.
///
/// A PointerRef has not been loaded from the database yet: it is a
/// lazy handle holding only the target's category and byte offset, so
/// that the cyclic reference graph between senses is never followed
/// eagerly. You can call `read()` to load the target.
#[derive(Debug)]
pub struct PointerRef<'db> {
    pub(crate) db: &'db Database,
    /// The relationship this pointer has from the original word to
    /// the sense you can read with `read()`
    pub relationship: Relationship,
    /// The part of the speech that the target sense has.
    pub part_of_speech: PartOfSpeech,
    /// The byte offset of the target sense in its category's data file.
    pub offset: u64,
}

impl<'db> View for PointerRef<'db> {
    type V = PointerData;

    closed spec fn view(&self) -> PointerData {
        PointerData {
            relationship: self.relationship,
            part_of_speech: self.part_of_speech,
            offset: self.offset,
        }
    }
}

impl<'db> DeepView for PointerRef<'db> {
    type V = PointerData;

    open spec fn deep_view(&self) -> PointerData {
        self.view()
    }
}

impl<'db> PointerRef<'db> {
    /// Tie a decoded cross-reference to the database that resolves it.
    pub(crate) fn new(
        db: &'db Database,
        relationship: Relationship,
        part_of_speech: PartOfSpeech,
        offset: u64,
    ) -> (r: PointerRef<'db>)
        ensures
            r@ == (PointerData { relationship, part_of_speech, offset }),
            r.db == db,
            r.relationship == relationship,
            r.part_of_speech == part_of_speech,
            r.offset == offset,
    {
        PointerRef { db, relationship, part_of_speech, offset }
    }

    /// What resolving this handle yields: the record at its target
    /// offset in its target category's data file, or an error when
    /// the database holds no file for that category.
    pub closed spec fn resolution(&self) -> Result<SenseData, DecodeError> {
        match find_file_from(self.db@, 0, self.part_of_speech) {
            None => Err(DecodeError::NoCategoryFile),
            Some(i) => sense_at(self.db@[i].data, self.offset),
        }
    }

    /// Read this pointer's target sense from the database files.
    ///
    /// This performs a fresh read and decode on every call; nothing is
    /// cached. It might lead to a Sense that you have already seen, so
    /// be careful not to recurse indefinitely: reference chains between
    /// senses are cyclic, and bounding the traversal is the caller's
    /// responsibility. If you only look at `relationship`, then
    /// everything should be ok.
    pub fn read(&self) -> (r: Result<Sense<'db>, DecodeError>)
        ensures
            match r {
                Ok(s) => self.resolution() == Ok::<SenseData, DecodeError>(s@),
                Err(e) => self.resolution() == Err::<SenseData, DecodeError>(e),
            },
    {
        match self.db.dbfile_for_part_of_speech(&self.part_of_speech) {
            None => Err(DecodeError::NoCategoryFile),
            Some(f) => f.read_sense(self.db, self.offset),
        }
    }
}

impl Database {
    /// Assemble a database from its category file pairs, which keep
    /// the order given here for every fan-out lookup.
    pub fn new(db_files: Vec<DBFile>) -> (r: Database)
        ensures
            r@ == db_files.deep_view(),
    {
        Database { db_files }
    }

    /// The file pair serving a category, if the database has one.
    fn dbfile_for_part_of_speech(&self, part_of_speech: &PartOfSpeech) -> (r: Option<&DBFile>)
        ensures
            match r {
                Some(f) => find_file_from(self@, 0, *part_of_speech) matches Some(i) && f@
                    == self@[i],
                None => find_file_from(self@, 0, *part_of_speech) is None,
            },
    {
        let n = self.db_files.len();
        let mut k: usize = 0;
        while k < n
            invariant
                0 <= k <= n,
                n == self.db_files@.len(),
                find_file_from(self@, 0, *part_of_speech) == find_file_from(
                    self@,
                    k as int,
                    *part_of_speech,
                ),
            decreases n - k,
        {
            proof {
                assert(self@[k as int] == self.db_files@[k as int]@);
            }
            if self.db_files[k].part_of_speech() == *part_of_speech {
                return Some(&self.db_files[k]);
            }
            k = k + 1;
        }
        None
    }

    /// Find all senses of a word, across every grammatical category.
    ///
    /// The search is case-insensitive: the word is normalized once
    /// (lowercased, spaces joined by underscores) and then looked up
    /// in each category file in their fixed order; the categories'
    /// results are concatenated. A word found nowhere yields an empty
    /// list, not an error; a malformed database line yields its
    /// decode error.
    pub fn senses<'db>(&'db self, word: &str) -> (r: Result<Vec<Sense<'db>>, DecodeError>)
        ensures
            match r {
                Ok(v) => db_senses_from(self@, 0, normalize_word(word.spec_bytes())) == Ok::<
                    Seq<SenseData>,
                    DecodeError,
                >(v.deep_view()),
                Err(e) => db_senses_from(self@, 0, normalize_word(word.spec_bytes())) == Err::<
                    Seq<SenseData>,
                    DecodeError,
                >(e),
            },
    {
        let w = normalize(word.as_bytes());
        let ghost nw = normalize_word(word.spec_bytes());
        let mut all: Vec<Sense<'db>> = Vec::new();
        let n = self.db_files.len();
        let mut i: usize = 0;
        while i < n
            invariant
                0 <= i <= n,
                n == self.db_files@.len(),
                w@ == nw,
                nw == normalize_word(word.spec_bytes()),
                match db_senses_from(self@, i as int, nw) {
                    Ok(rest) => db_senses_from(self@, 0, nw) == Ok::<Seq<SenseData>, DecodeError>(
                        all.deep_view() + rest,
                    ),
                    Err(e) => db_senses_from(self@, 0, nw) == Err::<Seq<SenseData>, DecodeError>(
                        e,
                    ),
                },
            decreases n - i,
        {
            proof {
                assert(self@[i as int] == self.db_files@[i as int]@);
            }
            match self.db_files[i].senses(self, w.as_slice()) {
                Err(e) => {
                    proof {
                        assert(file_senses(self@[i as int], nw) == Err::<
                            Option<Seq<SenseData>>,
                            DecodeError,
                        >(e));
                        assert(db_senses_from(self@, i as int, nw) == Err::<
                            Seq<SenseData>,
                            DecodeError,
                        >(e));
                    }
                    return Err(e);
                },
                Ok(None) => {
                    proof {
                        assert(db_senses_from(self@, i as int, nw) == db_senses_from(
                            self@,
                            i + 1 as int,
                            nw,
                        ));
                    }
                },
                Ok(Some(mut v)) => {
                    let ghost before = all.deep_view();
                    let ghost vv = v.deep_view();
                    all.append(&mut v);
                    proof {
                        assert(all.deep_view() =~~= before + vv);
                        assert(file_senses(self@[i as int], nw) == Ok::<
                            Option<Seq<SenseData>>,
                            DecodeError,
                        >(Some(vv)));
                        let cur = db_senses_from(self@, i as int, nw);
                        match db_senses_from(self@, i + 1 as int, nw) {
                            Ok(r1) => {
                                assert(cur == Ok::<Seq<SenseData>, DecodeError>(vv + r1));
                                assert(before + (vv + r1) =~~= (before + vv) + r1);
                            },
                            Err(e1) => {
                                assert(cur == Err::<Seq<SenseData>, DecodeError>(e1));
                            },
                        }
                    }
                },
            }
            i = i + 1;
        }
        proof {
            assert(db_senses_from(self@, n as int, nw) == Ok::<Seq<SenseData>, DecodeError>(
                Seq::empty(),
            ));
            assert(all.deep_view() + Seq::<SenseData>::empty() =~~= all.deep_view());
        }
        Ok(all)
    }
}

} // verus!
