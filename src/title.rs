//! Page title: the text between the first `<title>` and the `</title>` after
//! it, read from the raw markup.
use vstd::prelude::*;
use crate::text::{blank_end, blank_back};
use crate::text::chars_of;

verus! {

/// `pat` occurs in `s` at position `i`.
pub open spec fn occurs_at(s: Seq<char>, i: int, pat: Seq<char>) -> bool {
    0 <= i && i + pat.len() <= s.len() && s.subrange(i, i + pat.len()) == pat
}

/// First position at or after `from` where `pat` occurs; `-1` when none.
pub open spec fn find_from(s: Seq<char>, from: int, pat: Seq<char>) -> int
    decreases s.len() + 1 - from,
{
    if from < 0 || from + pat.len() > s.len() {
        -1
    } else if occurs_at(s, from, pat) {
        from
    } else {
        find_from(s, from + 1, pat)
    }
}

/// The title of markup `s`, trimmed as `str::trim` does; `None`
/// when there is no `<title>` followed by a `</title>`.
pub open spec fn title_of(s: Seq<char>) -> Option<Seq<char>> {
    let open = "<title>"@;
    let a = find_from(s, 0, open);
    if a < 0 {
        None
    } else {
        let start = a + open.len();
        let b = find_from(s, start, "</title>"@);
        if b < 0 {
            None
        } else {
            let lo = blank_end(s, start, b);
            Some(s.subrange(lo, blank_back(s, lo, b)))
        }
    }
}

fn find_from_exec(s: &Vec<char>, from: usize, pat: &Vec<char>) -> (r: Option<usize>)
    ensures
        match r {
            Some(i) => find_from(s@, from as int, pat@) == i as int && from <= i && i + pat@.len() <= s@.len(),
            None => find_from(s@, from as int, pat@) == -1,
        },
{
    let n = s.len();
    let m = pat.len();
    if m > n {
        return None;
    }
    if m == 0 {
        if from <= n {
            assert(s@.subrange(from as int, from as int) =~= pat@);
            return Some(from);
        }
        return None;
    }
    let mut i = from;
    while i <= n - m
        invariant
            n == s@.len(),
            m == pat@.len(),
            1 <= m <= n,
            from <= i,
            find_from(s@, i as int, pat@) == find_from(s@, from as int, pat@),
        decreases n - i,
    {
        if crate::style::equal_at(s, i, pat) {
            return Some(i);
        }
        i += 1;
    }
    None
}

/// The page title found in raw markup `html`.
pub fn extract_title(html: &str) -> (r: Option<String>)
    ensures
        crate::css::opt_view(r) == title_of(html@),
{
    proof {
        reveal_strlit("<title>");
        reveal_strlit("</title>");
    }
    let s = chars_of(html);
    let open = chars_of("<title>");
    let close = chars_of("</title>");
    match find_from_exec(&s, 0, &open) {
        None => None,
        Some(a) => {
            let n = s.len();
            assert(a + open@.len() <= n);
            let start = a + open.len();
            match find_from_exec(&s, start, &close) {
                None => None,
                Some(b) => {
                    let lo = crate::text::blank_end_exec(&s, start, b);
                    let hi = crate::text::blank_back_exec(&s, lo, b);
                    Some(crate::text::string_of(html, lo, hi))
                },
            }
        },
    }
}

} // verus!
