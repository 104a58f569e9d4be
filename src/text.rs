//! Character-level helpers shared by the parsers.
use vstd::prelude::*;

verus! {

/// Whitespace as markup and style sheets understand it.
pub open spec fn is_ws(c: char) -> bool {
    c == ' ' || c == '\t' || c == '\n' || c == '\r' || c == '\x0C'
}

pub fn is_ws_exec(c: char) -> (r: bool)
    ensures
        r == is_ws(c),
{
    c == ' ' || c == '\t' || c == '\n' || c == '\r' || c == '\x0C'
}

/// Every character of `t` is whitespace.
pub open spec fn all_ws(t: Seq<char>) -> bool {
    forall|i: int| 0 <= i < t.len() ==> is_ws(#[trigger] t[i])
}

/// A character that `str::trim` removes: one with the Unicode White_Space
/// property.
pub open spec fn is_blank(c: char) -> bool {
    c == ' ' || ('\t' <= c && c <= '\r') || c == '\u{85}' || c == '\u{A0}' || c == '\u{1680}' || (
    '\u{2000}' <= c && c <= '\u{200A}') || c == '\u{2028}' || c == '\u{2029}' || c == '\u{202F}' || c
        == '\u{205F}' || c == '\u{3000}'
}

pub fn is_blank_exec(c: char) -> (r: bool)
    ensures
        r == is_blank(c),
{
    c == ' ' || ('\t' <= c && c <= '\r') || c == '\u{85}' || c == '\u{A0}' || c == '\u{1680}' || (
    '\u{2000}' <= c && c <= '\u{200A}') || c == '\u{2028}' || c == '\u{2029}' || c == '\u{202F}' || c
        == '\u{205F}' || c == '\u{3000}'
}

/// `t` is empty once trimmed: every character is blank.
pub open spec fn all_blank(t: Seq<char>) -> bool {
    forall|i: int| 0 <= i < t.len() ==> is_blank(#[trigger] t[i])
}

/// First position at or after `i` (before `end`) that is not blank.
pub open spec fn blank_end(s: Seq<char>, i: int, end: int) -> int
    decreases end - i,
{
    if i >= end || !is_blank(s[i]) {
        i
    } else {
        blank_end(s, i + 1, end)
    }
}

/// `z` moved back over trailing blanks, not before `a`.
pub open spec fn blank_back(s: Seq<char>, a: int, z: int) -> int
    decreases z - a,
{
    if z <= a || !is_blank(s[z - 1]) {
        z
    } else {
        blank_back(s, a, z - 1)
    }
}

/// `t` with leading and trailing blanks removed, as `str::trim` does.
pub open spec fn trimmed(t: Seq<char>) -> Seq<char> {
    let lo = blank_end(t, 0, t.len() as int);
    t.subrange(lo, blank_back(t, lo, t.len() as int))
}

pub fn blank_end_exec(s: &Vec<char>, i: usize, end: usize) -> (r: usize)
    requires
        i <= end <= s@.len(),
    ensures
        r == blank_end(s@, i as int, end as int),
        i <= r <= end,
{
    let mut k = i;
    while k < end && is_blank_exec(s[k])
        invariant
            i <= k <= end <= s@.len(),
            blank_end(s@, k as int, end as int) == blank_end(s@, i as int, end as int),
        decreases end - k,
    {
        k += 1;
    }
    k
}

pub fn blank_back_exec(s: &Vec<char>, a: usize, z: usize) -> (r: usize)
    requires
        a <= z <= s@.len(),
    ensures
        r == blank_back(s@, a as int, z as int),
        a <= r <= z,
{
    let mut k = z;
    while k > a && is_blank_exec(s[k - 1])
        invariant
            a <= k <= z <= s@.len(),
            blank_back(s@, a as int, k as int) == blank_back(s@, a as int, z as int),
        decreases k,
    {
        k -= 1;
    }
    k
}

pub fn all_blank_exec(s: &Vec<char>, from: usize, to: usize) -> (r: bool)
    requires
        from <= to <= s@.len(),
    ensures
        r == all_blank(s@.subrange(from as int, to as int)),
{
    let k = blank_end_exec(s, from, to);
    proof { lemma_blank_end(s@, from as int, to as int); }
    if k < to {
        assert(s@.subrange(from as int, to as int)[k - from] == s@[k as int]);
        false
    } else {
        assert forall|i: int| 0 <= i < to - from implies is_blank(#[trigger] s@.subrange(from as int, to as int)[i]) by {
            assert(s@.subrange(from as int, to as int)[i] == s@[from + i]);
        }
        true
    }
}

pub proof fn lemma_blank_end(s: Seq<char>, i: int, end: int)
    requires
        i <= end,
    ensures
        forall|k: int| i <= k < blank_end(s, i, end) ==> is_blank(#[trigger] s[k]),
        blank_end(s, i, end) < end ==> !is_blank(s[blank_end(s, i, end)]),
    decreases end - i,
{
    if i < end && is_blank(s[i]) {
        lemma_blank_end(s, i + 1, end);
    }
}

/// The text `t` trimmed as `str::trim` does.
pub fn trim_exec(t: &String) -> (r: String)
    ensures
        r@ == trimmed(t@),
{
    let cs = chars_of(t.as_str());
    let lo = blank_end_exec(&cs, 0, cs.len());
    let hi = blank_back_exec(&cs, lo, cs.len());
    string_of(t.as_str(), lo, hi)
}

/// First index in `[from, end)` holding `c`, or `end` when there is none.
pub open spec fn find_in(s: Seq<char>, from: int, end: int, c: char) -> int
    decreases end - from,
{
    if from >= end {
        end
    } else if s[from] == c {
        from
    } else {
        find_in(s, from + 1, end, c)
    }
}

pub proof fn lemma_find_in_bounds(s: Seq<char>, from: int, end: int, c: char)
    requires
        from <= end,
    ensures
        from <= find_in(s, from, end, c) <= end,
        find_in(s, from, end, c) < end ==> s[find_in(s, from, end, c)] == c,
        forall|k: int| from <= k < find_in(s, from, end, c) ==> s[k] != c,
    decreases end - from,
{
    if from < end && s[from] != c {
        lemma_find_in_bounds(s, from + 1, end, c);
    }
}

/// Characters of the whole input, one per element.
pub fn chars_of(src: &str) -> (r: Vec<char>)
    ensures
        r@ == src@,
{
    broadcast use vstd::string::group_string_axioms;

    let mut out: Vec<char> = Vec::new();
    for c in it: src.chars()
        invariant
            out@ == it.seq().subrange(0, it.index() as int),
            it.seq() == src@,
    {
        out.push(c);
    }
    assert(out@ =~= src@);
    out
}

pub fn find_in_exec(s: &Vec<char>, from: usize, end: usize, c: char) -> (r: usize)
    requires
        from <= end <= s@.len(),
    ensures
        r == find_in(s@, from as int, end as int, c),
        from <= r <= end,
{
    proof { lemma_find_in_bounds(s@, from as int, end as int, c); }
    let mut k = from;
    while k < end && s[k] != c
        invariant
            from <= k <= end <= s@.len(),
            find_in(s@, k as int, end as int, c) == find_in(s@, from as int, end as int, c),
        decreases end - k,
    {
        k += 1;
    }
    k
}

/// The text `src[from..to]` as an owned string.
pub fn string_of(src: &str, from: usize, to: usize) -> (r: String)
    requires
        from <= to <= src@.len(),
    ensures
        r@ == src@.subrange(from as int, to as int),
{
    String::from_str(src.substring_char(from, to))
}

pub fn all_ws_exec(s: &Vec<char>, from: usize, to: usize) -> (r: bool)
    requires
        from <= to <= s@.len(),
    ensures
        r == all_ws(s@.subrange(from as int, to as int)),
{
    let mut k = from;
    while k < to
        invariant
            from <= k <= to <= s@.len(),
            forall|j: int| from <= j < k ==> is_ws(s@[j]),
        decreases to - k,
    {
        if !is_ws_exec(s[k]) {
            assert(s@.subrange(from as int, to as int)[k - from] == s@[k as int]);
            return false;
        }
        k += 1;
    }
    assert forall|i: int| 0 <= i < to - from implies is_ws(#[trigger] s@.subrange(from as int, to as int)[i]) by {
        assert(s@.subrange(from as int, to as int)[i] == s@[from + i]);
    }
    true
}

} // verus!
