use vstd::prelude::*;

verus! {

/// Index of the first occurrence of byte `b` in `s` at or after `from`,
/// or `s.len()` where there is none.
pub open spec fn find_byte(s: Seq<u8>, from: int, b: u8) -> int
    decreases s.len() - from,
{
    if from < 0 || from >= s.len() {
        s.len() as int
    } else if s[from] == b {
        from
    } else {
        find_byte(s, from + 1, b)
    }
}

pub proof fn lemma_find_byte_props(s: Seq<u8>, from: int, b: u8)
    requires
        0 <= from <= s.len(),
    ensures
        from <= find_byte(s, from, b) <= s.len(),
        find_byte(s, from, b) < s.len() ==> s[find_byte(s, from, b)] == b,
        forall|i: int| from <= i < find_byte(s, from, b) ==> s[i] != b,
    decreases s.len() - from,
{
    if from < s.len() && s[from] != b {
        lemma_find_byte_props(s, from + 1, b);
    }
}

/// A position that looks like the first hit from `from` is the first hit.
pub proof fn lemma_find_byte_at(s: Seq<u8>, from: int, b: u8, r: int)
    requires
        0 <= from <= r <= s.len(),
        r < s.len() ==> s[r] == b,
        forall|i: int| from <= i < r ==> s[i] != b,
    ensures
        find_byte(s, from, b) == r,
    decreases r - from,
{
    if from < r {
        lemma_find_byte_at(s, from + 1, b, r);
    }
}

/// Scan for the next occurrence of a byte.
pub fn scan_byte(s: &[u8], from: usize, b: u8) -> (r: usize)
    requires
        from <= s@.len(),
    ensures
        r == find_byte(s@, from as int, b),
{
    let mut i: usize = from;
    while i < s.len()
        invariant
            from <= i <= s@.len(),
            forall|j: int| from <= j < i ==> s@[j] != b,
        decreases s@.len() - i,
    {
        if s[i] == b {
            proof {
                lemma_find_byte_at(s@, from as int, b, i as int);
            }
            return i;
        }
        i = i + 1;
    }
    proof {
        lemma_find_byte_at(s@, from as int, b, s@.len() as int);
    }
    i
}

/// The line starting at `pos`: the bytes up to, not including, the next
/// newline, or up to the end of the file where no newline follows.
pub open spec fn line_at(file: Seq<u8>, pos: int) -> Seq<u8> {
    file.subrange(pos, find_byte(file, pos, 10))
}

/// A line start: the start of the file, or any position just after a
/// newline byte.
pub open spec fn is_line_start(file: Seq<u8>, pos: int) -> bool {
    0 <= pos <= file.len() && (pos == 0 || file[pos - 1] == 10)
}

/// Copy a range of a byte slice.
pub fn copy_range(s: &[u8], from: usize, to: usize) -> (r: Vec<u8>)
    requires
        from <= to <= s@.len(),
    ensures
        r@ == s@.subrange(from as int, to as int),
{
    let mut v: Vec<u8> = Vec::new();
    let mut i: usize = from;
    while i < to
        invariant
            from <= i <= to <= s@.len(),
            v@ == s@.subrange(from as int, i as int),
        decreases to - i,
    {
        v.push(s[i]);
        proof {
            assert(s@.subrange(from as int, i + 1 as int) =~= s@.subrange(
                from as int,
                i as int,
            ).push(s@[i as int]));
        }
        i = i + 1;
    }
    v
}

/// Read one line of a file, given the byte position of its start.
pub fn read_line_at(file: &[u8], pos: usize) -> (r: Vec<u8>)
    requires
        pos <= file@.len(),
    ensures
        r@ == line_at(file@, pos as int),
{
    let e = scan_byte(file, pos, 10);
    proof {
        lemma_find_byte_props(file@, pos as int, 10);
    }
    copy_range(file, pos, e)
}

/// The whitespace-delimited fields of the part of a line from `from` on:
/// the runs of bytes between single space bytes.
pub open spec fn split_from(s: Seq<u8>, from: int) -> Seq<Seq<u8>>
    recommends
        0 <= from <= s.len(),
    decreases s.len() - from via split_from_decreases
{
    let e = find_byte(s, from, 32);
    if e >= s.len() {
        seq![s.subrange(from, s.len() as int)]
    } else {
        seq![s.subrange(from, e)] + split_from(s, e + 1)
    }
}

#[via_fn]
proof fn split_from_decreases(s: Seq<u8>, from: int) {
    if find_byte(s, from, 32) < s.len() {
        if 0 <= from <= s.len() {
            lemma_find_byte_props(s, from, 32);
        }
    }
}

/// Finding a byte beyond a skipped prefix finds it at the shifted
/// position.
pub proof fn lemma_find_byte_shift(s: Seq<u8>, from: int, d: int, b: u8)
    requires
        0 <= from <= s.len(),
        0 <= d,
    ensures
        find_byte(s, from + d, b) == from + find_byte(s.skip(from), d, b),
    decreases s.len() - from - d,
{
    if from + d >= s.len() {
        assert(find_byte(s, from + d, b) == s.len());
        assert(find_byte(s.skip(from), d, b) == s.len() - from);
    } else {
        assert(s.skip(from)[d] == s[from + d]);
        if s[from + d] != b {
            lemma_find_byte_shift(s, from, d + 1, b);
        }
    }
}

/// Splitting from a position is splitting the remaining suffix.
pub proof fn lemma_split_shift(s: Seq<u8>, from: int)
    requires
        0 <= from <= s.len(),
    ensures
        split_from(s, from) == split_from(s.skip(from), 0),
    decreases s.len() - from,
{
    let e = find_byte(s, from, 32);
    lemma_find_byte_props(s, from, 32);
    lemma_find_byte_shift(s, from, 0, 32);
    let t = s.skip(from);
    let e2 = find_byte(t, 0, 32);
    assert(e == from + e2);
    if e >= s.len() {
        assert(s.subrange(from, s.len() as int) =~= t.subrange(0, t.len() as int));
        assert(split_from(s, from) =~~= split_from(t, 0));
    } else {
        assert(s.subrange(from, e) =~= t.subrange(0, e2));
        lemma_split_shift(s, e + 1);
        lemma_split_shift(t, e2 + 1);
        assert(s.skip(e + 1) =~= t.skip(e2 + 1));
        assert(split_from(s, from) =~~= split_from(t, 0));
    }
}

/// A field with no space byte in it.
pub open spec fn no_space(f: Seq<u8>) -> bool {
    forall|q: int| 0 <= q < f.len() ==> f[q] != 32
}

/// The single line that carries the given fields: the fields joined by
/// single spaces.
pub open spec fn join_fields(fields: Seq<Seq<u8>>) -> Seq<u8>
    decreases fields.len(),
{
    if fields.len() == 0 {
        Seq::empty()
    } else if fields.len() == 1 {
        fields[0]
    } else {
        fields[0] + seq![32u8] + join_fields(fields.skip(1))
    }
}

/// Splitting a joined line gives the fields back, as long as no field
/// carries a space of its own.
pub proof fn lemma_split_join(fields: Seq<Seq<u8>>)
    requires
        fields.len() > 0,
        forall|k: int| 0 <= k < fields.len() ==> no_space(#[trigger] fields[k]),
    ensures
        split_from(join_fields(fields), 0) == fields,
    decreases fields.len(),
{
    let j = join_fields(fields);
    let f0 = fields[0];
    if fields.len() == 1 {
        lemma_find_byte_at(j, 0, 32, j.len() as int);
        assert(j.subrange(0, j.len() as int) =~= f0);
        assert(split_from(j, 0) =~~= seq![f0]);
    } else {
        let rest = fields.skip(1);
        let jr = join_fields(rest);
        assert(j == f0 + seq![32u8] + jr);
        assert(j.len() == f0.len() + 1 + jr.len());
        assert forall|q: int| 0 <= q < f0.len() implies j[q] != 32 by {
            assert(j[q] == f0[q]);
        }
        assert(j[f0.len() as int] == 32);
        lemma_find_byte_at(j, 0, 32, f0.len() as int);
        let e = f0.len() as int;
        assert(j.subrange(0, e) =~= f0);
        lemma_split_shift(j, e + 1);
        assert(j.skip(e + 1) =~= jr);
        assert(forall|k: int| 0 <= k < rest.len() ==> rest[k] == #[trigger] fields[k + 1]);
        lemma_split_join(rest);
        assert(split_from(j, 0) =~~= seq![f0] + rest);
        assert(seq![f0] + rest =~= fields);
    }
}

/// The fields of a whole line.
pub open spec fn fields_of(s: Seq<u8>) -> Seq<Seq<u8>> {
    split_from(s, 0)
}

/// Split a line into its space-delimited fields.
pub fn split_line(s: &[u8]) -> (r: Vec<Vec<u8>>)
    ensures
        r.deep_view() == fields_of(s@),
{
    let ghost whole = split_from(s@, 0);
    let mut fields: Vec<Vec<u8>> = Vec::new();
    let mut start: usize = 0;
    loop
        invariant_except_break
            start <= s@.len(),
            whole == fields.deep_view() + split_from(s@, start as int),
        ensures
            fields.deep_view() == whole,
        decreases s@.len() - start,
    {
        let e = scan_byte(s, start, 32);
        proof {
            lemma_find_byte_props(s@, start as int, 32);
        }
        let field = copy_range(s, start, e);
        let ghost before = fields.deep_view();
        fields.push(field);
        proof {
            assert(fields.deep_view() =~~= before.push(field@));
        }
        if e >= s.len() {
            proof {
                assert(split_from(s@, start as int) =~~= seq![field@]);
                assert(fields.deep_view() =~~= whole);
            }
            break;
        }
        proof {
            assert(split_from(s@, start as int) =~~= seq![field@] + split_from(s@, e + 1 as int));
            assert(fields.deep_view() + split_from(s@, e + 1 as int) =~~= whole);
        }
        start = e + 1;
    }
    fields
}

/// Case folding and separator normalization applied to a query word
/// before the index is searched: uppercase ASCII letters are lowered and
/// spaces become the underscore join character used by index lines.
pub open spec fn normalize_byte(b: u8) -> u8 {
    if 65 <= b <= 90 {  // 'A'..'Z'
        (b + 32) as u8
    } else if b == 32 {  // ' '
        95u8  // '_'
    } else {
        b
    }
}

pub open spec fn normalize_word(w: Seq<u8>) -> Seq<u8> {
    w.map_values(|b: u8| normalize_byte(b))
}

/// Normalize a query word.
pub fn normalize(word: &[u8]) -> (r: Vec<u8>)
    ensures
        r@ == normalize_word(word@),
{
    let mut v: Vec<u8> = Vec::new();
    let mut i: usize = 0;
    while i < word.len()
        invariant
            0 <= i <= word@.len(),
            v@.len() == i,
            forall|j: int| 0 <= j < i ==> v@[j] == normalize_byte(word@[j]),
        decreases word@.len() - i,
    {
        let b = word[i];
        if 65 <= b && b <= 90 {
            v.push(b + 32);
        } else if b == 32 {
            v.push(95);
        } else {
            v.push(b);
        }
        i = i + 1;
    }
    proof {
        assert(v@ =~= normalize_word(word@));
    }
    v
}

/// The underscore join character written back to a space, as synonym
/// fields are presented to the caller.
pub open spec fn underscores_to_spaces(w: Seq<u8>) -> Seq<u8> {
    w.map_values(|b: u8| if b == 95 { 32u8 } else { b })
}

/// Turn the underscore join characters of a stored surface form back
/// into spaces.
pub fn despace(word: &[u8]) -> (r: Vec<u8>)
    ensures
        r@ == underscores_to_spaces(word@),
{
    let mut v: Vec<u8> = Vec::new();
    let mut i: usize = 0;
    while i < word.len()
        invariant
            0 <= i <= word@.len(),
            v@.len() == i,
            forall|j: int| 0 <= j < i ==> v@[j] == (if word@[j] == 95 { 32u8 } else { word@[j] }),
        decreases word@.len() - i,
    {
        let b = word[i];
        if b == 95 {
            v.push(32);
        } else {
            v.push(b);
        }
        i = i + 1;
    }
    proof {
        assert(v@ =~= underscores_to_spaces(word@));
    }
    v
}

} // verus!
