use vstd::prelude::*;
use crate::text::find_byte;
use crate::text::lemma_find_byte_props;
use crate::text::scan_byte;

verus! {

/// How a query word compares against the candidate index line that
/// starts at some byte position.
#[derive(Debug, PartialEq, Eq, Structural, Clone, Copy)]
pub enum WordCmp {
    /// The candidate line's word field equals the query.
    Found,
    /// The query sorts before the candidate line's word.
    WordBefore,
    /// The query sorts after the candidate line's word.
    WordAfter,
}

/// Byte-by-byte comparison of a query word against the file contents
/// from some position on. The query matches when the stream carries the
/// whole word followed by the space that ends an index line's word
/// field; otherwise the first differing byte decides the order. A
/// stream that ends first sorts before the query.
pub open spec fn word_cmp(stream: Seq<u8>, word: Seq<u8>) -> WordCmp
    decreases stream.len(),
{
    if stream.len() == 0 {
        WordCmp::WordAfter
    } else if word.len() == 0 {
        if stream[0] == 32 {
            WordCmp::Found
        } else {
            WordCmp::WordBefore
        }
    } else if stream[0] > word[0] {
        WordCmp::WordBefore
    } else if stream[0] < word[0] {
        WordCmp::WordAfter
    } else {
        word_cmp(stream.skip(1), word.skip(1))
    }
}

/// The line starting where the stream does carries `word` as its word
/// field: the word's bytes, then the field-ending space.
pub open spec fn word_entry(stream: Seq<u8>, word: Seq<u8>) -> bool {
    &&& stream.len() > word.len()
    &&& stream.subrange(0, word.len() as int) == word
    &&& stream[word.len() as int] == 32
}

/// The comparison reports `Found` exactly on a word entry.
pub proof fn lemma_word_cmp_found(stream: Seq<u8>, word: Seq<u8>)
    ensures
        word_cmp(stream, word) == WordCmp::Found <==> word_entry(stream, word),
    decreases word.len(),
{
    if stream.len() == 0 {
    } else if word.len() == 0 {
        assert(stream.subrange(0, 0) =~= word);
    } else if stream[0] > word[0] || stream[0] < word[0] {
        if word_entry(stream, word) {
            assert(stream.subrange(0, word.len() as int)[0] == stream[0]);
            assert(false);
        }
    } else {
        lemma_word_cmp_found(stream.skip(1), word.skip(1));
        let wl = word.len() as int;
        if stream.len() > wl {
            assert(stream.skip(1).subrange(0, wl - 1) =~= stream.subrange(1, wl));
            if stream.subrange(0, wl) == word {
                assert(stream.subrange(1, wl) =~= word.skip(1));
            }
            if stream.skip(1).subrange(0, wl - 1) == word.skip(1) && stream[0] == word[0] {
                assert forall|i: int| 0 <= i < wl implies stream.subrange(0, wl)[i] == word[i] by {
                    if i >= 1 {
                        assert(stream.subrange(1, wl)[i - 1] == stream[i]);
                        assert(word.skip(1)[i - 1] == word[i]);
                    }
                }
                assert(stream.subrange(0, wl) =~= word);
            }
            assert(stream.skip(1)[wl - 1] == stream[wl]);
        }
    }
}

/// Compare the query word, from byte `from` on, against the file
/// contents at `pos`. This is the decision step of the index search.
pub fn is_found_here(file: &[u8], pos: usize, word: &[u8], from: usize) -> (r: WordCmp)
    requires
        pos <= file@.len(),
        from <= word@.len(),
    ensures
        r == word_cmp(file@.skip(pos as int), word@.skip(from as int)),
    decreases word@.len() - from,
{
    proof {
        assert(file@.skip(pos as int).len() == file@.len() - pos);
        if pos < file@.len() {
            assert(file@.skip(pos as int)[0] == file@[pos as int]);
        }
        if from < word@.len() {
            assert(word@.skip(from as int)[0] == word@[from as int]);
        }
    }
    if pos >= file.len() {
        WordCmp::WordAfter
    } else if from >= word.len() {
        if file[pos] == 32 {
            WordCmp::Found
        } else {
            WordCmp::WordBefore
        }
    } else if file[pos] > word[from] {
        WordCmp::WordBefore
    } else if file[pos] < word[from] {
        WordCmp::WordAfter
    } else {
        proof {
            assert(file@.skip(pos as int).skip(1) =~= file@.skip(pos + 1 as int));
            assert(word@.skip(from as int).skip(1) =~= word@.skip(from + 1 as int));
        }
        is_found_here(file, pos + 1, word, from + 1)
    }
}

/// The search's result, walking the index line by line from `pos`: the
/// first line start at or after `pos` whose word field equals the query.
pub open spec fn find_from(file: Seq<u8>, pos: int, word: Seq<u8>) -> Option<int>
    recommends
        0 <= pos <= file.len(),
    decreases file.len() - pos via find_from_decreases
{
    if word_cmp(file.skip(pos), word) == WordCmp::Found {
        Some(pos)
    } else {
        let e = find_byte(file, pos, 10);
        if e >= file.len() {
            None
        } else {
            find_from(file, e + 1, word)
        }
    }
}

#[via_fn]
proof fn find_from_decreases(file: Seq<u8>, pos: int, word: Seq<u8>) {
    if find_byte(file, pos, 10) < file.len() {
        if 0 <= pos <= file.len() {
            lemma_find_byte_props(file, pos, 10);
        }
    }
}

/// A line start at or after `pos`: `pos` itself, or any later position
/// just after a newline.
pub open spec fn start_from(file: Seq<u8>, pos: int, s: int) -> bool {
    pos <= s <= file.len() && (s == pos || (s >= 1 && file[s - 1] == 10))
}

/// What the line-by-line search finds: the first candidate start whose
/// word field matches, and nothing when no candidate matches.
pub proof fn lemma_find_from_props(file: Seq<u8>, pos: int, word: Seq<u8>)
    requires
        0 <= pos <= file.len(),
    ensures
        match find_from(file, pos, word) {
            Some(p) => {
                &&& start_from(file, pos, p)
                &&& word_cmp(file.skip(p), word) == WordCmp::Found
                &&& forall|s: int|
                    start_from(file, pos, s) && s < p ==> word_cmp(file.skip(s), word)
                        != WordCmp::Found
            },
            None => forall|s: int|
                start_from(file, pos, s) ==> word_cmp(file.skip(s), word) != WordCmp::Found,
        },
    decreases file.len() - pos,
{
    if word_cmp(file.skip(pos), word) == WordCmp::Found {
    } else {
        let e = find_byte(file, pos, 10);
        lemma_find_byte_props(file, pos, 10);
        if e >= file.len() {
            assert forall|s: int| start_from(file, pos, s) implies word_cmp(file.skip(s), word)
                != WordCmp::Found by {
                if s != pos {
                    assert(file[s - 1] != 10);
                }
            }
        } else {
            lemma_find_from_props(file, e + 1, word);
            assert forall|s: int| start_from(file, pos, s) && s < e + 1 implies word_cmp(
                file.skip(s),
                word,
            ) != WordCmp::Found by {
                if s != pos {
                    assert(pos <= s - 1 < e);
                    assert(file[s - 1] != 10);
                }
            }
            match find_from(file, e + 1, word) {
                Some(p) => {
                    assert(start_from(file, pos, p));
                    assert forall|s: int| start_from(file, pos, s) && s < p implies word_cmp(
                        file.skip(s),
                        word,
                    ) != WordCmp::Found by {
                        if s >= e + 1 {
                            assert(start_from(file, e + 1, s));
                        }
                    }
                },
                None => {
                    assert forall|s: int| start_from(file, pos, s) implies word_cmp(
                        file.skip(s),
                        word,
                    ) != WordCmp::Found by {
                        if s >= e + 1 {
                            assert(start_from(file, e + 1, s));
                        }
                    }
                },
            }
        }
    }
}

/// A query at least as long as the whole index file can match no line,
/// and in particular the empty index yields nothing for every query:
/// a match needs the word and a space after it to fit in the file.
pub proof fn lemma_search_boundary(index: Seq<u8>, word: Seq<u8>)
    requires
        word.len() >= index.len(),
    ensures
        find_from(index, 0, word) is None,
{
    lemma_find_from_props(index, 0, word);
    match find_from(index, 0, word) {
        Some(p) => {
            lemma_word_cmp_found(index.skip(p), word);
            assert(index.skip(p).len() <= index.len());
            assert(false);
        },
        None => {},
    }
}

/// Walk the index line by line and report the byte position of the
/// first line whose word field equals the query, if any.
pub fn find_position_in(file: &[u8], word: &[u8]) -> (r: Option<usize>)
    ensures
        match r {
            Some(p) => find_from(file@, 0, word@) == Some(p as int),
            None => find_from(file@, 0, word@) is None,
        },
{
    let mut pos: usize = 0;
    loop
        invariant
            pos <= file@.len(),
            find_from(file@, 0, word@) == find_from(file@, pos as int, word@),
        decreases file@.len() - pos,
    {
        proof {
            assert(word@.skip(0) =~= word@);
        }
        let c = is_found_here(file, pos, word, 0);
        if matches!(c, WordCmp::Found) {
            return Some(pos);
        }
        let e = scan_byte(file, pos, 10);
        proof {
            lemma_find_byte_props(file@, pos as int, 10);
        }
        if e >= file.len() {
            return None;
        }
        pos = e + 1;
    }
}

} // verus!
