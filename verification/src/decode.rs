use vstd::prelude::*;
use crate::error::DecodeError;
use crate::num::valid_number;
use crate::num::number_value;
use crate::num::parse_u64;
use crate::num::parse_u32;
use crate::num::digits_of;
use crate::num::lemma_digits_of_value;
use crate::num::digit_value;
use crate::num::is_digit;
use crate::part_of_speech::PartOfSpeech;
use crate::part_of_speech::part_of_speech_code_spec;
use crate::part_of_speech::part_of_speech_code_to_part_of_speech;
use crate::part_of_speech::part_of_speech_code_of;
use crate::part_of_speech::lemma_part_of_speech_code_round_trip;
use crate::relationship::Relationship;
use crate::relationship::relationship_code_spec;
use crate::relationship::relationship_code_to_relationship;
use crate::relationship::relationship_code_of;
use crate::relationship::lemma_relationship_code_round_trip;
use crate::text::copy_range;
use crate::text::despace;
use crate::text::find_byte;
use crate::text::lemma_find_byte_props;
use crate::text::scan_byte;
use crate::text::split_from;
use crate::text::split_line;
use crate::text::join_fields;
use crate::text::lemma_split_join;
use crate::text::lemma_find_byte_at;
use crate::text::no_space;
use crate::text::underscores_to_spaces;

verus! {

/// A decoded synonym entry: one surface form of a sense, with its
/// lexical disambiguation id.
#[verifier::ext_equal]
pub ghost struct SynonymData {
    pub word: Seq<u8>,
    pub lex_id: u32,
}

/// A decoded cross-reference: relationship kind, target category and
/// target byte offset into that category's data file.
#[verifier::ext_equal]
pub ghost struct PointerData {
    pub relationship: Relationship,
    pub part_of_speech: PartOfSpeech,
    pub offset: u64,
}

/// A decoded sense record.
#[verifier::ext_equal]
pub ghost struct SenseData {
    pub part_of_speech: PartOfSpeech,
    pub gloss: Seq<u8>,
    pub synonyms: Seq<SynonymData>,
    pub pointers: Seq<PointerData>,
}

/// A decoded index line: the indexed word, its category, and the data
/// file offsets of its senses.
#[verifier::ext_equal]
pub ghost struct IndexData {
    pub word: Seq<u8>,
    pub part_of_speech: PartOfSpeech,
    pub offsets: Seq<u64>,
}

/// A decimal field whose value fits a `u64`.
pub open spec fn dec_u64_ok(s: Seq<u8>) -> bool {
    valid_number(s, 10) && number_value(s, 10) <= u64::MAX
}

/// A hexadecimal field whose value fits a `u64`.
pub open spec fn hex_u64_ok(s: Seq<u8>) -> bool {
    valid_number(s, 16) && number_value(s, 16) <= u64::MAX
}

/// A hexadecimal field whose value fits a `u32`.
pub open spec fn hex_u32_ok(s: Seq<u8>) -> bool {
    valid_number(s, 16) && number_value(s, 16) <= u32::MAX
}

/// Decode `k` synonym entries of two fields each, starting at field `i`:
/// a surface form (underscores standing for spaces) and a hexadecimal
/// lexical id.
pub open spec fn parse_synonym_fields(fields: Seq<Seq<u8>>, i: int, k: nat) -> Result<
    Seq<SynonymData>,
    DecodeError,
>
    recommends
        i + 2 * k <= fields.len(),
        0 <= i,
    decreases k,
{
    if k == 0 {
        Ok(Seq::empty())
    } else if !hex_u32_ok(fields[i + 1]) {
        Err(DecodeError::BadNumber)
    } else {
        let item = SynonymData {
            word: underscores_to_spaces(fields[i]),
            lex_id: number_value(fields[i + 1], 16) as u32,
        };
        match parse_synonym_fields(fields, i + 2, (k - 1) as nat) {
            Ok(rest) => Ok(seq![item] + rest),
            Err(e) => Err(e),
        }
    }
}

/// Decode `k` cross-references of four fields each, starting at field
/// `i`: relationship code, decimal target offset, target category code,
/// and a hexadecimal source/target field that the engine does not use.
pub open spec fn parse_pointer_fields(fields: Seq<Seq<u8>>, i: int, k: nat) -> Result<
    Seq<PointerData>,
    DecodeError,
>
    recommends
        i + 4 * k <= fields.len(),
        0 <= i,
    decreases k,
{
    if k == 0 {
        Ok(Seq::empty())
    } else {
        match relationship_code_spec(fields[i]) {
            Err(e) => Err(e),
            Ok(rel) => {
                if !dec_u64_ok(fields[i + 1]) {
                    Err(DecodeError::BadNumber)
                } else {
                    match part_of_speech_code_spec(fields[i + 2]) {
                        Err(e) => Err(e),
                        Ok(p) => {
                            if !hex_u64_ok(fields[i + 3]) {
                                Err(DecodeError::BadNumber)
                            } else {
                                let item = PointerData {
                                    relationship: rel,
                                    part_of_speech: p,
                                    offset: number_value(fields[i + 1], 10) as u64,
                                };
                                match parse_pointer_fields(fields, i + 4, (k - 1) as nat) {
                                    Ok(rest) => Ok(seq![item] + rest),
                                    Err(e) => Err(e),
                                }
                            }
                        },
                    }
                }
            },
        }
    }
}

/// Decode the fields of a sense record that precede the gloss
/// delimiter. The declared synonym and pointer counts (and, on verb
/// lines, the frame count) must account for every field present.
pub open spec fn parse_sense_fields(fields: Seq<Seq<u8>>) -> Result<
    (PartOfSpeech, Seq<SynonymData>, Seq<PointerData>),
    DecodeError,
> {
    if fields.len() < 5 {
        Err(DecodeError::CountMismatch)
    } else if !dec_u64_ok(fields[0]) {
        // the record's own byte offset
        Err(DecodeError::BadNumber)
    } else if !dec_u64_ok(fields[1]) {
        // the lexicographer file number
        Err(DecodeError::BadNumber)
    } else {
        match part_of_speech_code_spec(fields[2]) {
            Err(e) => Err(e),
            Ok(pos) => {
                if !hex_u64_ok(fields[3]) {
                    Err(DecodeError::BadNumber)
                } else {
                    let syn_cnt = number_value(fields[3], 16);
                    if syn_cnt > (fields.len() - 5) / 2 {
                        Err(DecodeError::CountMismatch)
                    } else {
                        match parse_synonym_fields(fields, 4, syn_cnt as nat) {
                            Err(e) => Err(e),
                            Ok(syns) => {
                                let pi = 4 + 2 * syn_cnt;
                                if !dec_u64_ok(fields[pi]) {
                                    Err(DecodeError::BadNumber)
                                } else {
                                    let ptr_cnt = number_value(fields[pi], 10);
                                    if ptr_cnt > (fields.len() - pi - 1) / 4 {
                                        Err(DecodeError::CountMismatch)
                                    } else {
                                        match parse_pointer_fields(fields, pi + 1, ptr_cnt as nat) {
                                            Err(e) => Err(e),
                                            Ok(ptrs) => {
                                                let fi = pi + 1 + 4 * ptr_cnt;
                                                if pos == PartOfSpeech::Verb {
                                                    if fi >= fields.len() {
                                                        Err(DecodeError::CountMismatch)
                                                    } else if !dec_u64_ok(fields[fi]) {
                                                        Err(DecodeError::BadNumber)
                                                    } else if fi + 1 + number_value(fields[fi], 10)
                                                        != fields.len() {
                                                        Err(DecodeError::CountMismatch)
                                                    } else {
                                                        Ok((pos, syns, ptrs))
                                                    }
                                                } else {
                                                    if fi != fields.len() {
                                                        Err(DecodeError::CountMismatch)
                                                    } else {
                                                        Ok((pos, syns, ptrs))
                                                    }
                                                }
                                            },
                                        }
                                    }
                                }
                            },
                        }
                    }
                }
            },
        }
    }
}

/// Where the gloss delimiter `"| "` sits on a well-formed sense line:
/// the first `|` byte, with a space on either side and the gloss after.
pub open spec fn gloss_delimiter_ok(line: Seq<u8>) -> bool {
    let bar = find_byte(line, 0, 124);
    &&& 1 <= bar
    &&& bar + 1 < line.len()
    &&& line[bar - 1] == 32
    &&& line[bar + 1] == 32
}

/// Decode one sense record line: fields before the first `"| "`, the
/// gloss verbatim after it.
pub open spec fn parse_sense(line: Seq<u8>) -> Result<SenseData, DecodeError> {
    if !gloss_delimiter_ok(line) {
        Err(DecodeError::MissingGloss)
    } else {
        let bar = find_byte(line, 0, 124);
        let gloss = line.subrange(bar + 2, line.len() as int);
        let fields = split_from(line.subrange(0, bar - 1), 0);
        match parse_sense_fields(fields) {
            Err(e) => Err(e),
            Ok((pos, syns, ptrs)) => Ok(
                SenseData { part_of_speech: pos, gloss, synonyms: syns, pointers: ptrs },
            ),
        }
    }
}

/// Decode `k` decimal sense offsets starting at field `i`.
pub open spec fn parse_offset_fields(fields: Seq<Seq<u8>>, i: int, k: nat) -> Result<
    Seq<u64>,
    DecodeError,
>
    recommends
        i + k <= fields.len(),
        0 <= i,
    decreases k,
{
    if k == 0 {
        Ok(Seq::empty())
    } else if !dec_u64_ok(fields[i]) {
        Err(DecodeError::BadNumber)
    } else {
        match parse_offset_fields(fields, i + 1, (k - 1) as nat) {
            Ok(rest) => Ok(seq![number_value(fields[i], 10) as u64] + rest),
            Err(e) => Err(e),
        }
    }
}

/// Decode the fields of one index line: the word, its category, the
/// counts, and the trailing sense offsets, whose number must equal the
/// declared synset count and exhaust the line.
pub open spec fn parse_index_fields(fields: Seq<Seq<u8>>) -> Result<IndexData, DecodeError> {
    if fields.len() < 6 {
        Err(DecodeError::CountMismatch)
    } else {
        match part_of_speech_code_spec(fields[1]) {
            Err(e) => Err(e),
            Ok(pos) => {
                if !dec_u64_ok(fields[2]) {
                    Err(DecodeError::BadNumber)
                } else if !dec_u64_ok(fields[3]) {
                    Err(DecodeError::BadNumber)
                } else {
                    let syn_cnt = number_value(fields[2], 10);
                    let psym_cnt = number_value(fields[3], 10);
                    if psym_cnt > fields.len() - 6 {
                        Err(DecodeError::CountMismatch)
                    } else {
                        let idx = 4 + psym_cnt;
                        if !dec_u64_ok(fields[idx]) {
                            // the sense count
                            Err(DecodeError::BadNumber)
                        } else if !dec_u64_ok(fields[idx + 1]) {
                            // the tagsense count
                            Err(DecodeError::BadNumber)
                        } else if syn_cnt != fields.len() - idx - 2 {
                            Err(DecodeError::CountMismatch)
                        } else {
                            match parse_offset_fields(fields, idx + 2, syn_cnt as nat) {
                                Err(e) => Err(e),
                                Ok(offsets) => Ok(
                                    IndexData { word: fields[0], part_of_speech: pos, offsets },
                                ),
                            }
                        }
                    }
                }
            },
        }
    }
}

/// Decode one index line.
pub open spec fn parse_index(line: Seq<u8>) -> Result<IndexData, DecodeError> {
    parse_index_fields(split_from(line, 0))
}

/// The canonical line fields of a list of sense offsets.
pub open spec fn offset_fields_of(offsets: Seq<u64>) -> Seq<Seq<u8>>
    decreases offsets.len(),
{
    if offsets.len() == 0 {
        Seq::empty()
    } else {
        seq![digits_of(offsets[0] as int, 10)] + offset_fields_of(offsets.skip(1))
    }
}

proof fn lemma_offset_fields_len(offsets: Seq<u64>)
    ensures
        offset_fields_of(offsets).len() == offsets.len(),
    decreases offsets.len(),
{
    if offsets.len() > 0 {
        lemma_offset_fields_len(offsets.skip(1));
    }
}

proof fn lemma_parse_offsets_inverse(fields: Seq<Seq<u8>>, i: int, offsets: Seq<u64>)
    requires
        0 <= i,
        i + offsets.len() <= fields.len(),
        forall|j: int| 0 <= j < offsets.len() ==> fields[i + j] == offset_fields_of(offsets)[j],
    ensures
        parse_offset_fields(fields, i, offsets.len()) == Ok::<Seq<u64>, DecodeError>(offsets),
    decreases offsets.len(),
{
    if offsets.len() > 0 {
        let of = offset_fields_of(offsets);
        lemma_offset_fields_len(offsets);
        lemma_offset_fields_len(offsets.skip(1));
        assert(fields[i + 0] == of[0]);
        assert(of[0] == digits_of(offsets[0] as int, 10));
        lemma_digits_of_value(offsets[0] as int, 10);
        let rest = offsets.skip(1);
        let head = seq![digits_of(offsets[0] as int, 10)];
        assert(of == head + offset_fields_of(rest));
        assert forall|j: int| 0 <= j < rest.len() implies fields[(i + 1) + j] == offset_fields_of(
            rest,
        )[j] by {
            assert((head + offset_fields_of(rest))[j + 1] == offset_fields_of(rest)[j]);
            assert(offset_fields_of(offsets)[j + 1] == offset_fields_of(rest)[j]);
            assert(fields[i + (j + 1)] == offset_fields_of(offsets)[j + 1]);
            assert(fields[(i + 1) + j] == fields[i + (j + 1)]);
        }
        lemma_parse_offsets_inverse(fields, i + 1, rest);
        assert(seq![number_value(fields[i], 10) as u64] + rest =~= offsets);
    } else {
        assert(offsets =~= Seq::<u64>::empty());
    }
}

/// The canonical line fields of a whole index entry: the word, its
/// category code, the synset count, an empty pointer-symbol list, the
/// sense count, a zero tagsense count, and the sense offsets.
pub open spec fn index_fields_of(d: IndexData) -> Seq<Seq<u8>> {
    seq![
        d.word,
        part_of_speech_code_of(d.part_of_speech),
        digits_of(d.offsets.len() as int, 10),
        zero_field(),
        digits_of(d.offsets.len() as int, 10),
        zero_field(),
    ] + offset_fields_of(d.offsets)
}

/// Round trip of the index grammar: the canonical line fields of any
/// index entry whose offset list fits its count field decode back to
/// exactly that entry - the same word, category, and offsets in the
/// same order.
pub proof fn lemma_index_fields_round_trip(d: IndexData)
    requires
        d.offsets.len() <= u64::MAX,
    ensures
        parse_index_fields(index_fields_of(d)) == Ok::<IndexData, DecodeError>(d),
{
    let ff = index_fields_of(d);
    let n = d.offsets.len() as int;
    let a6 = seq![
        d.word,
        part_of_speech_code_of(d.part_of_speech),
        digits_of(n, 10),
        zero_field(),
        digits_of(n, 10),
        zero_field(),
    ];
    let of = offset_fields_of(d.offsets);
    assert(ff == a6 + of);
    lemma_offset_fields_len(d.offsets);
    assert(ff.len() == 6 + n);
    assert forall|k: int| 0 <= k < 6 implies ff[k] == a6[k] by {
        assert((a6 + of)[k] == a6[k]);
    }
    lemma_part_of_speech_code_round_trip(d.part_of_speech);
    lemma_digits_of_value(n, 10);
    lemma_zero_field();
    assert forall|j: int| 0 <= j < n implies ff[6 + j] == offset_fields_of(d.offsets)[j] by {
        assert((a6 + of)[6 + j] == of[j]);
    }
    lemma_parse_offsets_inverse(ff, 6, d.offsets);
    assert(parse_index_fields(ff) matches Ok(v) && v =~~= d);
}

/// A field with no gloss-delimiter byte in it.
pub open spec fn no_bar(f: Seq<u8>) -> bool {
    forall|q: int| 0 <= q < f.len() ==> f[q] != 124
}

proof fn lemma_digits_clean(n: int, base: int)
    requires
        base == 10 || base == 16,
        0 <= n,
    ensures
        no_space(digits_of(n, base)),
        no_bar(digits_of(n, base)),
{
    lemma_digits_of_value(n, base);
    assert forall|q: int| 0 <= q < digits_of(n, base).len() implies digits_of(n, base)[q] != 32
        && digits_of(n, base)[q] != 124 by {
        assert(is_digit(digits_of(n, base)[q], base));
    }
}

proof fn lemma_pos_code_clean(p: PartOfSpeech)
    ensures
        no_space(part_of_speech_code_of(p)),
        no_bar(part_of_speech_code_of(p)),
{
}

proof fn lemma_relationship_code_clean(r: Relationship)
    ensures
        no_space(relationship_code_of(r)),
        no_bar(relationship_code_of(r)),
{
}

proof fn lemma_zero_field_clean()
    ensures
        no_space(zero_field()),
        no_bar(zero_field()),
{
}

/// No synonym surface form carries a gloss-delimiter byte.
pub open spec fn bar_free_words(syns: Seq<SynonymData>) -> bool {
    forall|k: int, i: int|
        0 <= k < syns.len() && 0 <= i < syns[k].word.len() ==> #[trigger] syns[k].word[i] != 124
}

proof fn lemma_synonym_fields_clean(syns: Seq<SynonymData>)
    requires
        bar_free_words(syns),
    ensures
        forall|k: int|
            0 <= k < synonym_fields_of(syns).len() ==> no_space(#[trigger] synonym_fields_of(syns)[k])
                && no_bar(synonym_fields_of(syns)[k]),
    decreases syns.len(),
{
    if syns.len() > 0 {
        let rest = syns.skip(1);
        assert(bar_free_words(rest)) by {
            assert(forall|k: int, q: int|
                0 <= k < rest.len() && 0 <= q < rest[k].word.len() ==> rest[k] == syns[k + 1]
                    && #[trigger] rest[k].word[q] == syns[k + 1].word[q]);
        }
        lemma_synonym_fields_clean(rest);
        lemma_digits_clean(syns[0].lex_id as int, 16);
        let head = seq![spaces_to_underscores(syns[0].word), digits_of(syns[0].lex_id as int, 16)];
        assert(no_space(head[0]) && no_bar(head[0])) by {
            assert(forall|q: int|
                0 <= q < syns[0].word.len() ==> #[trigger] syns[0].word[q] != 124);
        }
        assert forall|k: int| 0 <= k < synonym_fields_of(syns).len() implies no_space(
            #[trigger] synonym_fields_of(syns)[k],
        ) && no_bar(synonym_fields_of(syns)[k]) by {
            if k < 2 {
                assert(synonym_fields_of(syns)[k] == head[k]);
            } else {
                assert(synonym_fields_of(syns)[k] == (head + synonym_fields_of(rest))[k]);
                assert((head + synonym_fields_of(rest))[k] == synonym_fields_of(rest)[k - 2]);
            }
        }
    }
}

proof fn lemma_pointer_fields_clean(ptrs: Seq<PointerData>)
    ensures
        forall|k: int|
            0 <= k < pointer_fields_of(ptrs).len() ==> no_space(#[trigger] pointer_fields_of(ptrs)[k])
                && no_bar(pointer_fields_of(ptrs)[k]),
    decreases ptrs.len(),
{
    if ptrs.len() > 0 {
        let rest = ptrs.skip(1);
        lemma_pointer_fields_clean(rest);
        lemma_relationship_code_clean(ptrs[0].relationship);
        lemma_digits_clean(ptrs[0].offset as int, 10);
        lemma_pos_code_clean(ptrs[0].part_of_speech);
        lemma_zero_field_clean();
        let head = seq![
            relationship_code_of(ptrs[0].relationship),
            digits_of(ptrs[0].offset as int, 10),
            part_of_speech_code_of(ptrs[0].part_of_speech),
            zero_field(),
        ];
        assert forall|k: int| 0 <= k < pointer_fields_of(ptrs).len() implies no_space(
            #[trigger] pointer_fields_of(ptrs)[k],
        ) && no_bar(pointer_fields_of(ptrs)[k]) by {
            if k < 4 {
                assert(pointer_fields_of(ptrs)[k] == head[k]);
            } else {
                assert(pointer_fields_of(ptrs)[k] == (head + pointer_fields_of(rest))[k]);
                assert((head + pointer_fields_of(rest))[k] == pointer_fields_of(rest)[k - 4]);
            }
        }
    }
}

/// One surface form of a sense.
///
/// Refers to the actual text of a word: underscores of the stored form
/// have been turned back into spaces.
#[derive(Debug)]
pub struct SenseRef {
    /// the word
    pub word: Vec<u8>,
    /// which sense-group within a synonym cluster the word belongs to
    pub lex_id: u32,
}

impl View for SenseRef {
    type V = SynonymData;

    open spec fn view(&self) -> SynonymData {
        SynonymData { word: self.word@, lex_id: self.lex_id }
    }
}

impl DeepView for SenseRef {
    type V = SynonymData;

    open spec fn deep_view(&self) -> SynonymData {
        self.view()
    }
}

/// A decoded cross-reference, before it is tied to the database that
/// can resolve it.
#[derive(Debug)]
pub struct PointerRecord {
    pub relationship: Relationship,
    pub part_of_speech: PartOfSpeech,
    pub offset: u64,
}

impl View for PointerRecord {
    type V = PointerData;

    open spec fn view(&self) -> PointerData {
        PointerData {
            relationship: self.relationship,
            part_of_speech: self.part_of_speech,
            offset: self.offset,
        }
    }
}

impl DeepView for PointerRecord {
    type V = PointerData;

    open spec fn deep_view(&self) -> PointerData {
        self.view()
    }
}

/// A decoded sense record, before its cross-references are tied to the
/// database that can resolve them.
#[derive(Debug)]
pub struct SenseRecord {
    pub part_of_speech: PartOfSpeech,
    pub gloss: Vec<u8>,
    pub synonyms: Vec<SenseRef>,
    pub pointers: Vec<PointerRecord>,
}

impl View for SenseRecord {
    type V = SenseData;

    open spec fn view(&self) -> SenseData {
        SenseData {
            part_of_speech: self.part_of_speech,
            gloss: self.gloss@,
            synonyms: self.synonyms.deep_view(),
            pointers: self.pointers.deep_view(),
        }
    }
}

/// A decoded index line.
#[derive(Debug)]
pub struct IndexEntry {
    pub word: Vec<u8>,
    pub part_of_speech: PartOfSpeech,
    pub offsets: Vec<u64>,
}

impl View for IndexEntry {
    type V = IndexData;

    open spec fn view(&self) -> IndexData {
        IndexData {
            word: self.word@,
            part_of_speech: self.part_of_speech,
            offsets: self.offsets@,
        }
    }
}

proof fn lemma_parse_synonym_len(fields: Seq<Seq<u8>>, i: int, k: nat)
    ensures
        parse_synonym_fields(fields, i, k) matches Ok(v) ==> v.len() == k,
    decreases k,
{
    if k > 0 {
        lemma_parse_synonym_len(fields, i + 2, (k - 1) as nat);
    }
}

proof fn lemma_parse_pointer_len(fields: Seq<Seq<u8>>, i: int, k: nat)
    ensures
        parse_pointer_fields(fields, i, k) matches Ok(v) ==> v.len() == k,
    decreases k,
{
    if k > 0 {
        lemma_parse_pointer_len(fields, i + 4, (k - 1) as nat);
    }
}

proof fn lemma_parse_offset_len(fields: Seq<Seq<u8>>, i: int, k: nat)
    ensures
        parse_offset_fields(fields, i, k) matches Ok(v) ==> v.len() == k,
    decreases k,
{
    if k > 0 {
        lemma_parse_offset_len(fields, i + 1, (k - 1) as nat);
    }
}

/// Decoding a sense record succeeds only when its declared counts
/// account for the line's fields exactly: the result carries as many
/// synonyms and cross-references as the declared counts say, and those
/// counts (with the frame count, on verb lines) consume every field.
/// A declared count that disagrees with the fields present yields an
/// error instead, never a partial record.
pub proof fn lemma_count_consistency(fields: Seq<Seq<u8>>)
    ensures
        match parse_sense_fields(fields) {
            Ok(t) => {
                let syn_cnt = number_value(fields[3], 16);
                let pi = 4 + 2 * syn_cnt;
                let ptr_cnt = number_value(fields[pi], 10);
                let fi = pi + 1 + 4 * ptr_cnt;
                &&& t.1.len() == syn_cnt
                &&& t.2.len() == ptr_cnt
                &&& fi <= fields.len()
                &&& (t.0 != PartOfSpeech::Verb ==> fields.len() == fi)
                &&& (t.0 == PartOfSpeech::Verb ==> fields.len() == fi + 1 + number_value(
                    fields[fi],
                    10,
                ))
            },
            Err(_) => true,
        },
{
    match parse_sense_fields(fields) {
        Ok(t) => {
            let syn_cnt = number_value(fields[3], 16);
            assert(hex_u64_ok(fields[3]));
            crate::num::lemma_number_value_nonneg(fields[3], 16);
            let pi = 4 + 2 * syn_cnt;
            let ptr_cnt = number_value(fields[pi], 10);
            assert(dec_u64_ok(fields[pi]));
            crate::num::lemma_number_value_nonneg(fields[pi], 10);
            lemma_parse_synonym_len(fields, 4, syn_cnt as nat);
            lemma_parse_pointer_len(fields, pi + 1, ptr_cnt as nat);
            assert(2 * ((fields.len() - 5) as int / 2) <= fields.len() - 5) by (nonlinear_arith)
                requires
                    fields.len() >= 5,
            ;
            assert(4 * ((fields.len() - pi - 1) as int / 4) <= fields.len() - pi - 1) by (nonlinear_arith)
                requires
                    fields.len() >= pi + 1,
            ;
        },
        Err(_) => {},
    }
}

/// An index line decodes only when its trailing offset list exactly
/// matches its declared synset count: the result carries that many
/// offsets and they exhaust the line.
pub proof fn lemma_index_count_consistency(line: Seq<u8>)
    ensures
        match parse_index(line) {
            Ok(entry) => {
                let fields = split_from(line, 0);
                let syn_cnt = number_value(fields[2], 10);
                let idx = 4 + number_value(fields[3], 10);
                &&& entry.offsets.len() == syn_cnt
                &&& fields.len() == idx + 2 + syn_cnt
            },
            Err(_) => true,
        },
{
    match parse_index(line) {
        Ok(entry) => {
            let fields = split_from(line, 0);
            let syn_cnt = number_value(fields[2], 10);
            let idx = 4 + number_value(fields[3], 10);
            assert(dec_u64_ok(fields[2]) && dec_u64_ok(fields[3]));
            crate::num::lemma_number_value_nonneg(fields[2], 10);
            crate::num::lemma_number_value_nonneg(fields[3], 10);
            lemma_parse_offset_len(fields, idx + 2, syn_cnt as nat);
        },
        Err(_) => {},
    }
}

/// The underscore join character written for each space, as a surface
/// form is stored on disk.
pub open spec fn spaces_to_underscores(w: Seq<u8>) -> Seq<u8> {
    w.map_values(|b: u8| if b == 32 { 95u8 } else { b })
}

/// Storing a surface form and presenting it again returns it
/// unchanged, as long as it carries no literal underscore (decoded
/// surface forms never do).
pub proof fn lemma_word_round_trip(w: Seq<u8>)
    requires
        forall|i: int| 0 <= i < w.len() ==> w[i] != 95,
    ensures
        underscores_to_spaces(spaces_to_underscores(w)) == w,
{
    assert(underscores_to_spaces(spaces_to_underscores(w)) =~= w);
}

/// The single field `"0"`, as written for the record fields whose
/// values the engine does not keep.
pub open spec fn zero_field() -> Seq<u8> {
    seq![48u8]
}

proof fn lemma_zero_field()
    ensures
        dec_u64_ok(zero_field()),
        hex_u64_ok(zero_field()),
        number_value(zero_field(), 10) == 0,
        number_value(zero_field(), 16) == 0,
{
    assert(zero_field().drop_last() =~= Seq::<u8>::empty());
    assert(digit_value(48) == 0);
    assert(number_value(zero_field(), 10) == number_value(Seq::<u8>::empty(), 10) * 10 + 0);
    assert(number_value(zero_field(), 16) == number_value(Seq::<u8>::empty(), 16) * 16 + 0);
}

/// The canonical line fields of a list of synonym entries.
pub open spec fn synonym_fields_of(syns: Seq<SynonymData>) -> Seq<Seq<u8>>
    decreases syns.len(),
{
    if syns.len() == 0 {
        Seq::empty()
    } else {
        seq![spaces_to_underscores(syns[0].word), digits_of(syns[0].lex_id as int, 16)]
            + synonym_fields_of(syns.skip(1))
    }
}

proof fn lemma_synonym_fields_len(syns: Seq<SynonymData>)
    ensures
        synonym_fields_of(syns).len() == 2 * syns.len(),
    decreases syns.len(),
{
    if syns.len() > 0 {
        lemma_synonym_fields_len(syns.skip(1));
    }
}

/// No synonym surface form carries a literal underscore.
pub open spec fn underscore_free_words(syns: Seq<SynonymData>) -> bool {
    forall|k: int, i: int|
        0 <= k < syns.len() && 0 <= i < syns[k].word.len() ==> #[trigger] syns[k].word[i] != 95
}

proof fn lemma_parse_synonyms_inverse(fields: Seq<Seq<u8>>, i: int, syns: Seq<SynonymData>)
    requires
        0 <= i,
        i + 2 * syns.len() <= fields.len(),
        underscore_free_words(syns),
        forall|j: int| 0 <= j < 2 * syns.len() ==> fields[i + j] == synonym_fields_of(syns)[j],
    ensures
        parse_synonym_fields(fields, i, syns.len()) == Ok::<Seq<SynonymData>, DecodeError>(syns),
    decreases syns.len(),
{
    if syns.len() > 0 {
        let sf = synonym_fields_of(syns);
        lemma_synonym_fields_len(syns);
        lemma_synonym_fields_len(syns.skip(1));
        assert(fields[i + 0] == sf[0]);
        assert(fields[i + 1] == sf[1]);
        assert(sf[0] == spaces_to_underscores(syns[0].word));
        assert(sf[1] == digits_of(syns[0].lex_id as int, 16));
        lemma_digits_of_value(syns[0].lex_id as int, 16);
        assert(hex_u32_ok(fields[i + 1]));
        assert(forall|q: int| 0 <= q < syns[0].word.len() ==> #[trigger] syns[0].word[q] != 95);
        lemma_word_round_trip(syns[0].word);
        let item = SynonymData {
            word: underscores_to_spaces(fields[i]),
            lex_id: number_value(fields[i + 1], 16) as u32,
        };
        assert(item == syns[0]);
        let rest = syns.skip(1);
        let head = seq![spaces_to_underscores(syns[0].word), digits_of(syns[0].lex_id as int, 16)];
        assert(sf == head + synonym_fields_of(rest));
        assert forall|j: int| 0 <= j < 2 * rest.len() implies fields[(i + 2) + j]
            == synonym_fields_of(rest)[j] by {
            assert((head + synonym_fields_of(rest))[j + 2] == synonym_fields_of(rest)[j]);
            assert(synonym_fields_of(syns)[j + 2] == synonym_fields_of(rest)[j]);
            assert(fields[i + (j + 2)] == synonym_fields_of(syns)[j + 2]);
            assert(fields[(i + 2) + j] == fields[i + (j + 2)]);
        }
        assert(underscore_free_words(rest)) by {
            assert(forall|k: int, q: int|
                0 <= k < rest.len() && 0 <= q < rest[k].word.len() ==> rest[k] == syns[k + 1]
                    && #[trigger] rest[k].word[q] == syns[k + 1].word[q]);
        }
        lemma_parse_synonyms_inverse(fields, i + 2, rest);
        assert(parse_synonym_fields(fields, i + 2, (syns.len() - 1) as nat) == Ok::<
            Seq<SynonymData>,
            DecodeError,
        >(rest));
        assert(parse_synonym_fields(fields, i, syns.len()) == Ok::<Seq<SynonymData>, DecodeError>(
            seq![item] + rest,
        ));
        assert(seq![item] + rest =~= syns);
    } else {
        assert(syns =~= Seq::<SynonymData>::empty());
    }
}

/// The canonical line fields of a list of cross-references. The
/// source/target field the engine does not keep is written `"0"`.
pub open spec fn pointer_fields_of(ptrs: Seq<PointerData>) -> Seq<Seq<u8>>
    decreases ptrs.len(),
{
    if ptrs.len() == 0 {
        Seq::empty()
    } else {
        seq![
            relationship_code_of(ptrs[0].relationship),
            digits_of(ptrs[0].offset as int, 10),
            part_of_speech_code_of(ptrs[0].part_of_speech),
            zero_field(),
        ] + pointer_fields_of(ptrs.skip(1))
    }
}

proof fn lemma_pointer_fields_len(ptrs: Seq<PointerData>)
    ensures
        pointer_fields_of(ptrs).len() == 4 * ptrs.len(),
    decreases ptrs.len(),
{
    if ptrs.len() > 0 {
        lemma_pointer_fields_len(ptrs.skip(1));
    }
}

proof fn lemma_parse_pointers_inverse(fields: Seq<Seq<u8>>, i: int, ptrs: Seq<PointerData>)
    requires
        0 <= i,
        i + 4 * ptrs.len() <= fields.len(),
        forall|j: int| 0 <= j < 4 * ptrs.len() ==> fields[i + j] == pointer_fields_of(ptrs)[j],
    ensures
        parse_pointer_fields(fields, i, ptrs.len()) == Ok::<Seq<PointerData>, DecodeError>(ptrs),
    decreases ptrs.len(),
{
    if ptrs.len() > 0 {
        let pf = pointer_fields_of(ptrs);
        lemma_pointer_fields_len(ptrs);
        lemma_pointer_fields_len(ptrs.skip(1));
        assert(fields[i + 0] == pf[0]);
        assert(fields[i + 1] == pf[1]);
        assert(fields[i + 2] == pf[2]);
        assert(fields[i + 3] == pf[3]);
        lemma_relationship_code_round_trip(ptrs[0].relationship);
        lemma_digits_of_value(ptrs[0].offset as int, 10);
        lemma_part_of_speech_code_round_trip(ptrs[0].part_of_speech);
        lemma_zero_field();
        let item = PointerData {
            relationship: ptrs[0].relationship,
            part_of_speech: ptrs[0].part_of_speech,
            offset: number_value(fields[i + 1], 10) as u64,
        };
        assert(item == ptrs[0]);
        let rest = ptrs.skip(1);
        let head = seq![
            relationship_code_of(ptrs[0].relationship),
            digits_of(ptrs[0].offset as int, 10),
            part_of_speech_code_of(ptrs[0].part_of_speech),
            zero_field(),
        ];
        assert(pf == head + pointer_fields_of(rest));
        assert forall|j: int| 0 <= j < 4 * rest.len() implies fields[(i + 4) + j]
            == pointer_fields_of(rest)[j] by {
            assert((head + pointer_fields_of(rest))[j + 4] == pointer_fields_of(rest)[j]);
            assert(pointer_fields_of(ptrs)[j + 4] == pointer_fields_of(rest)[j]);
            assert(fields[i + (j + 4)] == pointer_fields_of(ptrs)[j + 4]);
            assert(fields[(i + 4) + j] == fields[i + (j + 4)]);
        }
        lemma_parse_pointers_inverse(fields, i + 4, rest);
        assert(parse_pointer_fields(fields, i + 4, (ptrs.len() - 1) as nat) == Ok::<
            Seq<PointerData>,
            DecodeError,
        >(rest));
        assert(parse_pointer_fields(fields, i, ptrs.len()) == Ok::<Seq<PointerData>, DecodeError>(
            seq![item] + rest,
        ));
        assert(seq![item] + rest =~= ptrs);
    } else {
        assert(ptrs =~= Seq::<PointerData>::empty());
    }
}

/// The canonical line fields of a whole sense record, before the
/// gloss delimiter: the record offset and lexicographer file number
/// (which the engine does not keep) written `"0"`, the category code,
/// the synonym count and entries, the pointer count and entries, and
/// on verb lines an empty frame list.
pub open spec fn sense_fields_of(d: SenseData) -> Seq<Seq<u8>> {
    seq![
        zero_field(),
        zero_field(),
        part_of_speech_code_of(d.part_of_speech),
        digits_of(d.synonyms.len() as int, 16),
    ] + synonym_fields_of(d.synonyms) + seq![digits_of(d.pointers.len() as int, 10)]
        + pointer_fields_of(d.pointers) + (if d.part_of_speech == PartOfSpeech::Verb {
        seq![zero_field()]
    } else {
        Seq::<Seq<u8>>::empty()
    })
}

/// A record that can be written back as a line: its synonym words
/// carry no literal underscore (decoded records never do) and its
/// counts fit the count fields.
pub open spec fn wf_sense_record(d: SenseData) -> bool {
    &&& underscore_free_words(d.synonyms)
    &&& d.synonyms.len() <= u64::MAX
    &&& d.pointers.len() <= u64::MAX
}

/// Round trip of the record grammar: the canonical line fields of any
/// well-formed sense record decode back to exactly that record - the
/// same category, the same synonyms in the same order, and the same
/// cross-references in the same order.
pub proof fn lemma_sense_fields_round_trip(d: SenseData)
    requires
        wf_sense_record(d),
    ensures
        parse_sense_fields(sense_fields_of(d)) == Ok::<
            (PartOfSpeech, Seq<SynonymData>, Seq<PointerData>),
            DecodeError,
        >((d.part_of_speech, d.synonyms, d.pointers)),
{
    let ff = sense_fields_of(d);
    let ns = d.synonyms.len() as int;
    let np = d.pointers.len() as int;
    let verb = d.part_of_speech == PartOfSpeech::Verb;
    let a4 = seq![
        zero_field(),
        zero_field(),
        part_of_speech_code_of(d.part_of_speech),
        digits_of(ns, 16),
    ];
    let s1 = synonym_fields_of(d.synonyms);
    let b1 = seq![digits_of(np, 10)];
    let p1 = pointer_fields_of(d.pointers);
    let v1: Seq<Seq<u8>> = if verb {
        seq![zero_field()]
    } else {
        Seq::<Seq<u8>>::empty()
    };
    assert(ff == a4 + s1 + b1 + p1 + v1);
    lemma_synonym_fields_len(d.synonyms);
    lemma_pointer_fields_len(d.pointers);
    assert(ff.len() == 4 + 2 * ns + 1 + 4 * np + (if verb {
        1int
    } else {
        0int
    }));
    let pi = 4 + 2 * ns;
    let fi = pi + 1 + 4 * np;
    assert forall|k: int| 0 <= k < 4 implies ff[k] == a4[k] by {
        assert((a4 + s1)[k] == a4[k]);
        assert((a4 + s1 + b1)[k] == (a4 + s1)[k]);
        assert((a4 + s1 + b1 + p1)[k] == (a4 + s1 + b1)[k]);
        assert((a4 + s1 + b1 + p1 + v1)[k] == (a4 + s1 + b1 + p1)[k]);
    }
    assert(ff[0] == zero_field());
    assert(ff[1] == zero_field());
    assert(ff[2] == part_of_speech_code_of(d.part_of_speech));
    assert(ff[3] == digits_of(ns, 16));
    lemma_zero_field();
    lemma_part_of_speech_code_round_trip(d.part_of_speech);
    lemma_digits_of_value(ns, 16);
    lemma_digits_of_value(np, 10);
    assert(2 * ns <= ff.len() - 5);
    assert(ns <= (ff.len() - 5) as int / 2) by (nonlinear_arith)
        requires
            2 * ns <= ff.len() - 5,
            ns >= 0,
    ;
    assert forall|j: int| 0 <= j < 2 * ns implies ff[4 + j] == synonym_fields_of(d.synonyms)[j] by {
        assert((a4 + s1)[4 + j] == s1[j]);
        assert((a4 + s1 + b1)[4 + j] == (a4 + s1)[4 + j]);
        assert((a4 + s1 + b1 + p1)[4 + j] == (a4 + s1 + b1)[4 + j]);
        assert((a4 + s1 + b1 + p1 + v1)[4 + j] == (a4 + s1 + b1 + p1)[4 + j]);
    }
    lemma_parse_synonyms_inverse(ff, 4, d.synonyms);
    assert(ff[pi] == digits_of(np, 10)) by {
        assert((a4 + s1 + b1)[pi] == b1[0]);
        assert((a4 + s1 + b1 + p1)[pi] == (a4 + s1 + b1)[pi]);
        assert((a4 + s1 + b1 + p1 + v1)[pi] == (a4 + s1 + b1 + p1)[pi]);
    }
    assert(4 * np <= ff.len() - pi - 1);
    assert(np <= (ff.len() - pi - 1) as int / 4) by (nonlinear_arith)
        requires
            4 * np <= ff.len() - pi - 1,
            np >= 0,
    ;
    assert forall|j: int| 0 <= j < 4 * np implies ff[pi + 1 + j] == pointer_fields_of(d.pointers)[j]
        by {
        assert((a4 + s1 + b1 + p1)[pi + 1 + j] == p1[j]);
        assert((a4 + s1 + b1 + p1 + v1)[pi + 1 + j] == (a4 + s1 + b1 + p1)[pi + 1 + j]);
    }
    lemma_parse_pointers_inverse(ff, pi + 1, d.pointers);
    if verb {
        assert(ff[fi] == zero_field()) by {
            assert((a4 + s1 + b1 + p1 + v1)[fi] == v1[0]);
        }
        assert(fi + 1 + number_value(ff[fi], 10) == ff.len());
    } else {
        assert(fi == ff.len());
    }
}

proof fn lemma_join_clean(fields: Seq<Seq<u8>>)
    requires
        forall|k: int| 0 <= k < fields.len() ==> no_bar(#[trigger] fields[k]),
    ensures
        forall|q: int| 0 <= q < join_fields(fields).len() ==> join_fields(fields)[q] != 124,
    decreases fields.len(),
{
    if fields.len() <= 1 {
    } else {
        let rest = fields.skip(1);
        assert(forall|k: int| 0 <= k < rest.len() ==> rest[k] == #[trigger] fields[k + 1]);
        lemma_join_clean(rest);
        let f0 = fields[0];
        let j = join_fields(fields);
        assert(j == f0 + seq![32u8] + join_fields(rest));
        assert forall|q: int| 0 <= q < j.len() implies j[q] != 124 by {
            if q < f0.len() {
                assert(j[q] == f0[q]);
            } else if q == f0.len() {
                assert(j[q] == 32);
            } else {
                assert(j[q] == join_fields(rest)[q - f0.len() - 1]);
            }
        }
    }
}

/// A record that can be written back as one whole line: well formed as
/// a record, and no synonym surface form carries the gloss delimiter
/// byte itself.
pub open spec fn wf_sense_line(d: SenseData) -> bool {
    &&& wf_sense_record(d)
    &&& bar_free_words(d.synonyms)
}

/// The canonical sense line of a record: its fields joined by spaces,
/// the gloss delimiter, and the gloss verbatim.
pub open spec fn sense_line_of(d: SenseData) -> Seq<u8> {
    join_fields(sense_fields_of(d)) + seq![32u8, 124u8, 32u8] + d.gloss
}

/// Round trip of the whole sense line grammar: the canonical line of
/// any well-formed sense record decodes back to exactly that record,
/// gloss included.
pub proof fn lemma_sense_line_round_trip(d: SenseData)
    requires
        wf_sense_line(d),
    ensures
        parse_sense(sense_line_of(d)) == Ok::<SenseData, DecodeError>(d),
{
    let ff = sense_fields_of(d);
    let j = join_fields(ff);
    let m = seq![32u8, 124u8, 32u8];
    let line = sense_line_of(d);
    assert(line == j + m + d.gloss);
    assert(line.len() == j.len() + 3 + d.gloss.len());
    lemma_synonym_fields_len(d.synonyms);
    lemma_pointer_fields_len(d.pointers);
    let a4 = seq![
        zero_field(),
        zero_field(),
        part_of_speech_code_of(d.part_of_speech),
        digits_of(d.synonyms.len() as int, 16),
    ];
    let s1 = synonym_fields_of(d.synonyms);
    let b1 = seq![digits_of(d.pointers.len() as int, 10)];
    let p1 = pointer_fields_of(d.pointers);
    assert(ff.len() >= 5);
    // every field is free of spaces and of the delimiter byte
    lemma_zero_field_clean();
    lemma_pos_code_clean(d.part_of_speech);
    lemma_digits_clean(d.synonyms.len() as int, 16);
    lemma_digits_clean(d.pointers.len() as int, 10);
    lemma_synonym_fields_clean(d.synonyms);
    lemma_pointer_fields_clean(d.pointers);
    assert forall|k: int| 0 <= k < ff.len() implies no_space(#[trigger] ff[k]) && no_bar(ff[k]) by {
        let v1: Seq<Seq<u8>> = if d.part_of_speech == PartOfSpeech::Verb {
            seq![zero_field()]
        } else {
            Seq::<Seq<u8>>::empty()
        };
        assert(ff == a4 + s1 + b1 + p1 + v1);
        if k < 4 {
            assert(ff[k] == ((((a4 + s1) + b1) + p1) + v1)[k]);
            assert(ff[k] == a4[k]);
        } else if k < 4 + s1.len() {
            assert(ff[k] == ((((a4 + s1) + b1) + p1) + v1)[k]);
            assert(ff[k] == s1[k - 4]);
        } else if k < 4 + s1.len() + 1 {
            assert(ff[k] == ((((a4 + s1) + b1) + p1) + v1)[k]);
            assert(ff[k] == b1[0]);
        } else if k < 4 + s1.len() + 1 + p1.len() {
            assert(ff[k] == ((((a4 + s1) + b1) + p1) + v1)[k]);
            assert(ff[k] == p1[k - 4 - s1.len() - 1]);
        } else {
            assert(ff[k] == ((((a4 + s1) + b1) + p1) + v1)[k]);
            assert(ff[k] == v1[0]);
        }
    }
    lemma_join_clean(ff);
    lemma_split_join(ff);
    // the delimiter is the first `|` byte of the line
    assert forall|q: int| 0 <= q < j.len() as int + 1 implies line[q] != 124 by {
        if q < j.len() {
            assert(line[q] == j[q]);
        } else {
            assert(line[q] == m[0]);
        }
    }
    assert(line[j.len() as int + 1] == m[1]);
    lemma_find_byte_at(line, 0, 124, j.len() as int + 1);
    let bar = j.len() as int + 1;
    assert(line[bar - 1] == m[0]);
    assert(line[bar + 1] == m[2]);
    assert(gloss_delimiter_ok(line));
    assert(line.subrange(0, bar - 1) =~= j);
    assert(line.subrange(bar + 2, line.len() as int) =~= d.gloss);
    lemma_sense_fields_round_trip(d);
    assert(parse_sense(line) matches Ok(v) && v =~~= d);
}

/// The canonical index line of an entry: its fields joined by spaces.
pub open spec fn index_line_of(d: IndexData) -> Seq<u8> {
    join_fields(index_fields_of(d))
}

/// Round trip of the whole index line grammar: the canonical line of
/// any index entry whose word carries no space decodes back to exactly
/// that entry.
pub proof fn lemma_index_line_round_trip(d: IndexData)
    requires
        d.offsets.len() <= u64::MAX,
        no_space(d.word),
    ensures
        parse_index(index_line_of(d)) == Ok::<IndexData, DecodeError>(d),
{
    let ff = index_fields_of(d);
    let a6 = seq![
        d.word,
        part_of_speech_code_of(d.part_of_speech),
        digits_of(d.offsets.len() as int, 10),
        zero_field(),
        digits_of(d.offsets.len() as int, 10),
        zero_field(),
    ];
    let of = offset_fields_of(d.offsets);
    assert(ff == a6 + of);
    lemma_offset_fields_len(d.offsets);
    lemma_pos_code_clean(d.part_of_speech);
    lemma_digits_clean(d.offsets.len() as int, 10);
    lemma_zero_field_clean();
    lemma_offset_fields_clean(d.offsets);
    assert forall|k: int| 0 <= k < ff.len() implies no_space(#[trigger] ff[k]) by {
        if k < 6 {
            assert(ff[k] == (a6 + of)[k]);
            assert(ff[k] == a6[k]);
        } else {
            assert(ff[k] == (a6 + of)[k]);
            assert(ff[k] == of[k - 6]);
        }
    }
    lemma_split_join(ff);
    lemma_index_fields_round_trip(d);
}

proof fn lemma_offset_fields_clean(offsets: Seq<u64>)
    ensures
        forall|k: int|
            0 <= k < offset_fields_of(offsets).len() ==> no_space(
                #[trigger] offset_fields_of(offsets)[k],
            ),
    decreases offsets.len(),
{
    if offsets.len() > 0 {
        let rest = offsets.skip(1);
        lemma_offset_fields_clean(rest);
        lemma_digits_clean(offsets[0] as int, 10);
        let head = seq![digits_of(offsets[0] as int, 10)];
        assert forall|k: int| 0 <= k < offset_fields_of(offsets).len() implies no_space(
            #[trigger] offset_fields_of(offsets)[k],
        ) by {
            if k < 1 {
                assert(offset_fields_of(offsets)[k] == head[0]);
            } else {
                assert(offset_fields_of(offsets)[k] == (head + offset_fields_of(rest))[k]);
                assert((head + offset_fields_of(rest))[k] == offset_fields_of(rest)[k - 1]);
            }
        }
    }
}

/// Decode `n` two-field synonym entries starting at field `start`.
fn decode_synonyms(fields: &Vec<Vec<u8>>, start: usize, n: usize) -> (r: Result<
    Vec<SenseRef>,
    DecodeError,
>)
    requires
        start + 2 * n <= fields@.len(),
    ensures
        match r {
            Ok(v) => parse_synonym_fields(fields.deep_view(), start as int, n as nat) == Ok::<
                Seq<SynonymData>,
                DecodeError,
            >(v.deep_view()),
            Err(e) => parse_synonym_fields(fields.deep_view(), start as int, n as nat) == Err::<
                Seq<SynonymData>,
                DecodeError,
            >(e),
        },
{
    let ghost ff = fields.deep_view();
    let flen = fields.len();
    let mut out: Vec<SenseRef> = Vec::new();
    let mut k: usize = 0;
    while k < n
        invariant
            0 <= k <= n,
            start + 2 * n <= flen,
            flen == fields@.len(),
            ff == fields.deep_view(),
            out.deep_view().len() == k,
            match parse_synonym_fields(ff, start + 2 * k, (n - k) as nat) {
                Ok(rest) => parse_synonym_fields(ff, start as int, n as nat) == Ok::<
                    Seq<SynonymData>,
                    DecodeError,
                >(out.deep_view() + rest),
                Err(e) => parse_synonym_fields(ff, start as int, n as nat) == Err::<
                    Seq<SynonymData>,
                    DecodeError,
                >(e),
            },
        decreases n - k,
    {
        let i = start + 2 * k;
        proof {
            assert(fields@[i as int]@ == ff[i as int]);
            assert(fields@[i + 1 as int]@ == ff[i + 1 as int]);
        }
        let word = despace(fields[i].as_slice());
        let lex: u32 = match parse_u32(fields[i + 1].as_slice(), 16) {
            Some(x) => x,
            None => {
                return Err(DecodeError::BadNumber);
            },
        };
        let ghost before = out.deep_view();
        let ghost item = SynonymData { word: underscores_to_spaces(ff[i as int]), lex_id: lex };
        out.push(SenseRef { word, lex_id: lex });
        proof {
            assert(out.deep_view() =~~= before.push(item));
            let rest0 = parse_synonym_fields(ff, i as int, (n - k) as nat);
            let rest1 = parse_synonym_fields(ff, i + 2 as int, (n - k - 1) as nat);
            assert(number_value(ff[i + 1 as int], 16) as u32 == lex);
            match rest1 {
                Ok(r1) => {
                    assert(rest0 == Ok::<Seq<SynonymData>, DecodeError>(seq![item] + r1));
                    assert(before + (seq![item] + r1) =~~= (before.push(item)) + r1);
                },
                Err(_) => {},
            }
        }
        k = k + 1;
    }
    proof {
        assert(parse_synonym_fields(ff, start + 2 * n, 0) == Ok::<Seq<SynonymData>, DecodeError>(
            Seq::empty(),
        ));
        assert(out.deep_view() + Seq::<SynonymData>::empty() =~~= out.deep_view());
    }
    Ok(out)
}

/// Decode `n` four-field cross-references starting at field `start`.
fn decode_pointers(fields: &Vec<Vec<u8>>, start: usize, n: usize) -> (r: Result<
    Vec<PointerRecord>,
    DecodeError,
>)
    requires
        start + 4 * n <= fields@.len(),
    ensures
        match r {
            Ok(v) => parse_pointer_fields(fields.deep_view(), start as int, n as nat) == Ok::<
                Seq<PointerData>,
                DecodeError,
            >(v.deep_view()),
            Err(e) => parse_pointer_fields(fields.deep_view(), start as int, n as nat) == Err::<
                Seq<PointerData>,
                DecodeError,
            >(e),
        },
{
    let ghost ff = fields.deep_view();
    let flen = fields.len();
    let mut out: Vec<PointerRecord> = Vec::new();
    let mut k: usize = 0;
    while k < n
        invariant
            0 <= k <= n,
            start + 4 * n <= flen,
            flen == fields@.len(),
            ff == fields.deep_view(),
            out.deep_view().len() == k,
            match parse_pointer_fields(ff, start + 4 * k, (n - k) as nat) {
                Ok(rest) => parse_pointer_fields(ff, start as int, n as nat) == Ok::<
                    Seq<PointerData>,
                    DecodeError,
                >(out.deep_view() + rest),
                Err(e) => parse_pointer_fields(ff, start as int, n as nat) == Err::<
                    Seq<PointerData>,
                    DecodeError,
                >(e),
            },
        decreases n - k,
    {
        let i = start + 4 * k;
        proof {
            assert(fields@[i as int]@ == ff[i as int]);
            assert(fields@[i + 1 as int]@ == ff[i + 1 as int]);
            assert(fields@[i + 2 as int]@ == ff[i + 2 as int]);
            assert(fields@[i + 3 as int]@ == ff[i + 3 as int]);
        }
        let rel = match relationship_code_to_relationship(fields[i].as_slice()) {
            Ok(x) => x,
            Err(e) => {
                return Err(e);
            },
        };
        let off: u64 = match parse_u64(fields[i + 1].as_slice(), 10) {
            Some(x) => x,
            None => {
                return Err(DecodeError::BadNumber);
            },
        };
        let tpos = match part_of_speech_code_to_part_of_speech(fields[i + 2].as_slice()) {
            Ok(x) => x,
            Err(e) => {
                return Err(e);
            },
        };
        if parse_u64(fields[i + 3].as_slice(), 16).is_none() {
            return Err(DecodeError::BadNumber);
        }
        let ghost before = out.deep_view();
        let ghost item = PointerData { relationship: rel, part_of_speech: tpos, offset: off };
        out.push(PointerRecord { relationship: rel, part_of_speech: tpos, offset: off });
        proof {
            assert(out.deep_view() =~~= before.push(item));
            let rest0 = parse_pointer_fields(ff, i as int, (n - k) as nat);
            let rest1 = parse_pointer_fields(ff, i + 4 as int, (n - k - 1) as nat);
            assert(number_value(ff[i + 1 as int], 10) as u64 == off);
            match rest1 {
                Ok(r1) => {
                    assert(rest0 == Ok::<Seq<PointerData>, DecodeError>(seq![item] + r1));
                    assert(before + (seq![item] + r1) =~~= (before.push(item)) + r1);
                },
                Err(_) => {},
            }
        }
        k = k + 1;
    }
    proof {
        assert(parse_pointer_fields(ff, start + 4 * n, 0) == Ok::<Seq<PointerData>, DecodeError>(
            Seq::empty(),
        ));
        assert(out.deep_view() + Seq::<PointerData>::empty() =~~= out.deep_view());
    }
    Ok(out)
}

/// Decode `n` decimal offset fields starting at field `start`.
fn decode_offsets(fields: &Vec<Vec<u8>>, start: usize, n: usize) -> (r: Result<
    Vec<u64>,
    DecodeError,
>)
    requires
        start + n <= fields@.len(),
    ensures
        match r {
            Ok(v) => parse_offset_fields(fields.deep_view(), start as int, n as nat) == Ok::<
                Seq<u64>,
                DecodeError,
            >(v@),
            Err(e) => parse_offset_fields(fields.deep_view(), start as int, n as nat) == Err::<
                Seq<u64>,
                DecodeError,
            >(e),
        },
{
    let ghost ff = fields.deep_view();
    let flen = fields.len();
    let mut out: Vec<u64> = Vec::new();
    let mut k: usize = 0;
    while k < n
        invariant
            0 <= k <= n,
            start + n <= flen,
            flen == fields@.len(),
            ff == fields.deep_view(),
            out@.len() == k,
            match parse_offset_fields(ff, start + k, (n - k) as nat) {
                Ok(rest) => parse_offset_fields(ff, start as int, n as nat) == Ok::<
                    Seq<u64>,
                    DecodeError,
                >(out@ + rest),
                Err(e) => parse_offset_fields(ff, start as int, n as nat) == Err::<
                    Seq<u64>,
                    DecodeError,
                >(e),
            },
        decreases n - k,
    {
        let i = start + k;
        proof {
            assert(fields@[i as int]@ == ff[i as int]);
        }
        let off: u64 = match parse_u64(fields[i].as_slice(), 10) {
            Some(x) => x,
            None => {
                return Err(DecodeError::BadNumber);
            },
        };
        let ghost before = out@;
        out.push(off);
        proof {
            let rest0 = parse_offset_fields(ff, i as int, (n - k) as nat);
            let rest1 = parse_offset_fields(ff, i + 1 as int, (n - k - 1) as nat);
            match rest1 {
                Ok(r1) => {
                    assert(rest0 == Ok::<Seq<u64>, DecodeError>(seq![off] + r1));
                    assert(before + (seq![off] + r1) =~= (before.push(off)) + r1);
                },
                Err(_) => {},
            }
        }
        k = k + 1;
    }
    proof {
        assert(parse_offset_fields(ff, start + n, 0) == Ok::<Seq<u64>, DecodeError>(Seq::empty()));
        assert(out@ + Seq::<u64>::empty() =~= out@);
    }
    Ok(out)
}

/// Decode a sense record line.
#[verifier::rlimit(60)]
pub fn decode_sense(line: &[u8]) -> (r: Result<SenseRecord, DecodeError>)
    ensures
        match r {
            Ok(sr) => parse_sense(line@) == Ok::<SenseData, DecodeError>(sr@),
            Err(e) => parse_sense(line@) == Err::<SenseData, DecodeError>(e),
        },
{
    let len = line.len();
    let bar = scan_byte(line, 0, 124);
    proof {
        lemma_find_byte_props(line@, 0, 124);
    }
    if bar < 1 {
        return Err(DecodeError::MissingGloss);
    }
    if bar >= len {
        return Err(DecodeError::MissingGloss);
    }
    if bar + 1 >= len {
        return Err(DecodeError::MissingGloss);
    }
    if line[bar - 1] != 32 || line[bar + 1] != 32 {
        return Err(DecodeError::MissingGloss);
    }
    let gloss = copy_range(line, bar + 2, len);
    let head = copy_range(line, 0, bar - 1);
    let fields = split_line(head.as_slice());
    let ghost ff = split_from(line@.subrange(0, bar - 1), 0);
    proof {
        assert(fields.deep_view() == ff);
        assert(forall|i: int|
            0 <= i < fields@.len() ==> fields@[i]@ == #[trigger] fields.deep_view()[i]);
    }
    let nf = fields.len();
    proof {
        assert(nf == ff.len());
    }
    if nf < 5 {
        return Err(DecodeError::CountMismatch);
    }
    if parse_u64(fields[0].as_slice(), 10).is_none() {
        return Err(DecodeError::BadNumber);
    }
    if parse_u64(fields[1].as_slice(), 10).is_none() {
        return Err(DecodeError::BadNumber);
    }
    let pos = match part_of_speech_code_to_part_of_speech(fields[2].as_slice()) {
        Ok(p) => p,
        Err(e) => {
            return Err(e);
        },
    };
    let syn_cnt: u64 = match parse_u64(fields[3].as_slice(), 16) {
        Some(n) => n,
        None => {
            return Err(DecodeError::BadNumber);
        },
    };
    if syn_cnt > ((nf - 5) / 2) as u64 {
        return Err(DecodeError::CountMismatch);
    }
    proof {
        assert(2 * ((nf - 5) as int / 2) <= nf - 5) by (nonlinear_arith)
            requires
                nf >= 5,
        ;
    }
    let syn_n = syn_cnt as usize;
    let syns = match decode_synonyms(&fields, 4, syn_n) {
        Ok(v) => v,
        Err(e) => {
            return Err(e);
        },
    };
    let pi = 4 + 2 * syn_n;
    let ptr_cnt: u64 = match parse_u64(fields[pi].as_slice(), 10) {
        Some(n) => n,
        None => {
            return Err(DecodeError::BadNumber);
        },
    };
    if ptr_cnt > ((nf - pi - 1) / 4) as u64 {
        return Err(DecodeError::CountMismatch);
    }
    proof {
        assert(4 * ((nf - pi - 1) as int / 4) <= nf - pi - 1) by (nonlinear_arith)
            requires
                nf >= pi + 1,
        ;
    }
    let ptr_n = ptr_cnt as usize;
    let ptrs = match decode_pointers(&fields, pi + 1, ptr_n) {
        Ok(v) => v,
        Err(e) => {
            return Err(e);
        },
    };
    let fi = pi + 1 + 4 * ptr_n;
    if matches!(pos, PartOfSpeech::Verb) {
        if fi >= nf {
            return Err(DecodeError::CountMismatch);
        }
        let frame_cnt: u64 = match parse_u64(fields[fi].as_slice(), 10) {
            Some(n) => n,
            None => {
                return Err(DecodeError::BadNumber);
            },
        };
        if frame_cnt != (nf - fi - 1) as u64 {
            return Err(DecodeError::CountMismatch);
        }
    } else {
        if fi != nf {
            return Err(DecodeError::CountMismatch);
        }
    }
    let record = SenseRecord { part_of_speech: pos, gloss, synonyms: syns, pointers: ptrs };
    proof {
        let d = parse_sense(line@);
        assert(d matches Ok(v) && v =~~= record@);
    }
    Ok(record)
}

/// Decode an index line.
#[verifier::rlimit(60)]
pub fn decode_index(line: &[u8]) -> (r: Result<IndexEntry, DecodeError>)
    ensures
        match r {
            Ok(e) => parse_index(line@) == Ok::<IndexData, DecodeError>(e@),
            Err(e) => parse_index(line@) == Err::<IndexData, DecodeError>(e),
        },
{
    let fields = split_line(line);
    let ghost ff = split_from(line@, 0);
    proof {
        assert(fields.deep_view() == ff);
        assert(forall|i: int|
            0 <= i < fields@.len() ==> fields@[i]@ == #[trigger] fields.deep_view()[i]);
    }
    let nf = fields.len();
    proof {
        assert(nf == ff.len());
    }
    if nf < 6 {
        return Err(DecodeError::CountMismatch);
    }
    let pos = match part_of_speech_code_to_part_of_speech(fields[1].as_slice()) {
        Ok(p) => p,
        Err(e) => {
            return Err(e);
        },
    };
    let syn_cnt: u64 = match parse_u64(fields[2].as_slice(), 10) {
        Some(n) => n,
        None => {
            return Err(DecodeError::BadNumber);
        },
    };
    let psym_cnt: u64 = match parse_u64(fields[3].as_slice(), 10) {
        Some(n) => n,
        None => {
            return Err(DecodeError::BadNumber);
        },
    };
    if psym_cnt > (nf - 6) as u64 {
        return Err(DecodeError::CountMismatch);
    }
    let idx = 4 + (psym_cnt as usize);
    if parse_u64(fields[idx].as_slice(), 10).is_none() {
        return Err(DecodeError::BadNumber);
    }
    if parse_u64(fields[idx + 1].as_slice(), 10).is_none() {
        return Err(DecodeError::BadNumber);
    }
    if syn_cnt != (nf - idx - 2) as u64 {
        return Err(DecodeError::CountMismatch);
    }
    let syn_n = syn_cnt as usize;
    let offsets = match decode_offsets(&fields, idx + 2, syn_n) {
        Ok(v) => v,
        Err(e) => {
            return Err(e);
        },
    };
    let word = copy_range(fields[0].as_slice(), 0, fields[0].len());
    let entry = IndexEntry { word, part_of_speech: pos, offsets };
    proof {
        assert(fields@[0]@.subrange(0, fields@[0]@.len() as int) =~= ff[0]);
        let d = parse_index(line@);
        assert(d matches Ok(v) && v =~~= entry@);
    }
    Ok(entry)
}

} // verus!
