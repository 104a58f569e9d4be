//! Laws of the style sheet parser: what a part of the text parses to does
//! not depend on where that part stands, so a broken leading rule leaves the
//! parse of what follows it untouched.
use vstd::prelude::*;
use crate::text::{is_ws, find_in};
use crate::css::{
    CSSParseError, RuleModel, SelModel, comment_end, skip_trivia, ident_end, ws_end, trim_back,
    parse_compound, parse_simple, parse_group, norm_from, normalize_ws, parse_decls, parse_sheet,
    strip_from, strip_comments, parse_css,
};

verus! {

/// `s1` from `o1` and `s2` from `o2` hold the same `len` characters.
pub open spec fn window(s1: Seq<char>, o1: int, s2: Seq<char>, o2: int, len: int) -> bool {
    &&& 0 <= o1
    &&& 0 <= o2
    &&& 0 <= len
    &&& o1 + len <= s1.len()
    &&& o2 + len <= s2.len()
    &&& forall|k: int| 0 <= k < len ==> #[trigger] s1[o1 + k] == s2[o2 + k]
}

proof fn lemma_w_at(s1: Seq<char>, o1: int, s2: Seq<char>, o2: int, len: int, k: int)
    requires
        window(s1, o1, s2, o2, len),
        0 <= k < len,
    ensures
        s1[o1 + k] == s2[o2 + k],
{
}

proof fn lemma_w_sub(s1: Seq<char>, o1: int, s2: Seq<char>, o2: int, len: int, a: int, b: int)
    requires
        window(s1, o1, s2, o2, len),
        0 <= a <= b <= len,
    ensures
        s1.subrange(o1 + a, o1 + b) == s2.subrange(o2 + a, o2 + b),
{
    assert forall|k: int| 0 <= k < b - a implies #[trigger] s1.subrange(o1 + a, o1 + b)[k] == s2.subrange(o2 + a, o2 + b)[k] by {
        lemma_w_at(s1, o1, s2, o2, len, a + k);
    }
    assert(s1.subrange(o1 + a, o1 + b) =~= s2.subrange(o2 + a, o2 + b));
}

proof fn lemma_w_find(s1: Seq<char>, o1: int, s2: Seq<char>, o2: int, len: int, i: int, e: int, c: char)
    requires
        window(s1, o1, s2, o2, len),
        0 <= i <= e <= len,
    ensures
        find_in(s1, o1 + i, o1 + e, c) - o1 == find_in(s2, o2 + i, o2 + e, c) - o2,
    decreases e - i,
{
    if i < e {
        lemma_w_at(s1, o1, s2, o2, len, i);
        lemma_w_find(s1, o1, s2, o2, len, i + 1, e, c);
    }
}

proof fn lemma_w_ident_end(s1: Seq<char>, o1: int, s2: Seq<char>, o2: int, len: int, i: int, e: int)
    requires
        window(s1, o1, s2, o2, len),
        0 <= i <= e <= len,
    ensures
        ident_end(s1, o1 + i, o1 + e) - o1 == ident_end(s2, o2 + i, o2 + e) - o2,
    decreases e - i,
{
    if i < e {
        lemma_w_at(s1, o1, s2, o2, len, i);
        lemma_w_ident_end(s1, o1, s2, o2, len, i + 1, e);
    }
}

proof fn lemma_w_ws_end(s1: Seq<char>, o1: int, s2: Seq<char>, o2: int, len: int, i: int, e: int)
    requires
        window(s1, o1, s2, o2, len),
        0 <= i <= e <= len,
    ensures
        ws_end(s1, o1 + i, o1 + e) - o1 == ws_end(s2, o2 + i, o2 + e) - o2,
    decreases e - i,
{
    if i < e {
        lemma_w_at(s1, o1, s2, o2, len, i);
        lemma_w_ws_end(s1, o1, s2, o2, len, i + 1, e);
    }
}

proof fn lemma_w_trim_back(s1: Seq<char>, o1: int, s2: Seq<char>, o2: int, len: int, a: int, z: int)
    requires
        window(s1, o1, s2, o2, len),
        0 <= a <= z <= len,
    ensures
        trim_back(s1, o1 + a, o1 + z) - o1 == trim_back(s2, o2 + a, o2 + z) - o2,
    decreases z - a,
{
    if a < z {
        lemma_w_at(s1, o1, s2, o2, len, z - 1);
        lemma_w_trim_back(s1, o1, s2, o2, len, a, z - 1);
    }
}

proof fn lemma_bounds(s: Seq<char>, i: int, e: int)
    requires
        i <= e,
    ensures
        i <= ident_end(s, i, e) <= e,
        i <= ws_end(s, i, e) <= e,
        i <= trim_back(s, i, e) <= e,
    decreases e - i,
{
    if i < e {
        lemma_bounds(s, i + 1, e);
        lemma_trim_bounds(s, i, e);
    }
}

proof fn lemma_trim_bounds(s: Seq<char>, a: int, z: int)
    requires
        a <= z,
    ensures
        a <= trim_back(s, a, z) <= z,
    decreases z - a,
{
    if a < z {
        lemma_trim_bounds(s, a, z - 1);
    }
}

proof fn lemma_w_compound(s1: Seq<char>, o1: int, s2: Seq<char>, o2: int, len: int, p: int, z: int, sel: SelModel)
    requires
        window(s1, o1, s2, o2, len),
        0 <= p <= z <= len,
    ensures
        parse_compound(s1, o1 + p, o1 + z, sel) == parse_compound(s2, o2 + p, o2 + z, sel),
    decreases z - p,
{
    if p < z {
        lemma_w_at(s1, o1, s2, o2, len, p);
        lemma_w_ident_end(s1, o1, s2, o2, len, p + 1, z);
        lemma_w_ident_end(s1, o1, s2, o2, len, p, z);
        lemma_bounds(s2, o2 + p + 1, o2 + z);
        lemma_bounds(s2, o2 + p, o2 + z);
        let e1 = ident_end(s2, o2 + p + 1, o2 + z) - o2;
        let e2 = ident_end(s2, o2 + p, o2 + z) - o2;
        lemma_w_sub(s1, o1, s2, o2, len, p + 1, e1);
        lemma_w_sub(s1, o1, s2, o2, len, p, e2);
        lemma_w_compound(s1, o1, s2, o2, len, e1, z, SelModel { id: Some(s2.subrange(o2 + p + 1, o2 + e1)), ..sel });
        lemma_w_compound(s1, o1, s2, o2, len, e1, z, SelModel { classes: sel.classes.push(s2.subrange(o2 + p + 1, o2 + e1)), ..sel });
        if e2 > p {
            lemma_w_compound(s1, o1, s2, o2, len, e2, z, SelModel { tag: Some(s2.subrange(o2 + p, o2 + e2)), ..sel });
        }
    }
}

proof fn lemma_w_simple(s1: Seq<char>, o1: int, s2: Seq<char>, o2: int, len: int, a: int, z: int)
    requires
        window(s1, o1, s2, o2, len),
        0 <= a <= z <= len,
    ensures
        parse_simple(s1, o1 + a, o1 + z) == parse_simple(s2, o2 + a, o2 + z),
{
    lemma_w_ws_end(s1, o1, s2, o2, len, a, z);
    lemma_bounds(s2, o2 + a, o2 + z);
    let a2 = ws_end(s2, o2 + a, o2 + z) - o2;
    lemma_w_trim_back(s1, o1, s2, o2, len, a2, z);
    lemma_trim_bounds(s2, o2 + a2, o2 + z);
    let z2 = trim_back(s2, o2 + a2, o2 + z) - o2;
    lemma_w_compound(s1, o1, s2, o2, len, a2, z2, crate::css::empty_sel());
}

proof fn lemma_w_group(s1: Seq<char>, o1: int, s2: Seq<char>, o2: int, len: int, p: int, z: int, acc: Seq<SelModel>)
    requires
        window(s1, o1, s2, o2, len),
        0 <= p <= z <= len,
    ensures
        parse_group(s1, o1 + p, o1 + z, acc) == parse_group(s2, o2 + p, o2 + z, acc),
    decreases z - p,
{
    lemma_w_find(s1, o1, s2, o2, len, p, z, ',');
    crate::text::lemma_find_in_bounds(s2, o2 + p, o2 + z, ',');
    let k = find_in(s2, o2 + p, o2 + z, ',') - o2;
    lemma_w_simple(s1, o1, s2, o2, len, p, k);
    if k < z {
        match parse_simple(s2, o2 + p, o2 + k) {
            Some(sel) => lemma_w_group(s1, o1, s2, o2, len, k + 1, z, acc.push(sel)),
            None => {},
        }
    }
}

proof fn lemma_w_norm(s1: Seq<char>, o1: int, s2: Seq<char>, o2: int, len: int, i: int, e: int, acc: Seq<char>, pending: bool)
    requires
        window(s1, o1, s2, o2, len),
        0 <= i <= e <= len,
    ensures
        norm_from(s1, o1 + i, o1 + e, acc, pending) == norm_from(s2, o2 + i, o2 + e, acc, pending),
    decreases e - i,
{
    if i < e {
        lemma_w_at(s1, o1, s2, o2, len, i);
        let c = s2[o2 + i];
        lemma_w_norm(s1, o1, s2, o2, len, i + 1, e, acc, acc.len() > 0);
        lemma_w_norm(s1, o1, s2, o2, len, i + 1, e, acc.push(' ').push(c), false);
        lemma_w_norm(s1, o1, s2, o2, len, i + 1, e, acc.push(c), false);
    }
}

proof fn lemma_w_decls(
    s1: Seq<char>,
    o1: int,
    s2: Seq<char>,
    o2: int,
    len: int,
    p: int,
    e: int,
    decls: Seq<(Seq<char>, Seq<char>)>,
    errs: Seq<CSSParseError>,
)
    requires
        window(s1, o1, s2, o2, len),
        0 <= p <= e <= len,
    ensures
        parse_decls(s1, o1 + p, o1 + e, decls, errs) == parse_decls(s2, o2 + p, o2 + e, decls, errs),
    decreases e - p,
{
    if p < e {
        lemma_w_find(s1, o1, s2, o2, len, p, e, ';');
        crate::text::lemma_find_in_bounds(s2, o2 + p, o2 + e, ';');
        let k = find_in(s2, o2 + p, o2 + e, ';') - o2;
        let next = if k < e { k + 1 } else { e };
        lemma_w_sub(s1, o1, s2, o2, len, p, k);
        lemma_w_find(s1, o1, s2, o2, len, p, k, ':');
        crate::text::lemma_find_in_bounds(s2, o2 + p, o2 + k, ':');
        let c = find_in(s2, o2 + p, o2 + k, ':') - o2;
        lemma_w_ws_end(s1, o1, s2, o2, len, p, c);
        lemma_bounds(s2, o2 + p, o2 + c);
        let a = ws_end(s2, o2 + p, o2 + c) - o2;
        lemma_w_trim_back(s1, o1, s2, o2, len, a, c);
        lemma_trim_bounds(s2, o2 + a, o2 + c);
        let z = trim_back(s2, o2 + a, o2 + c) - o2;
        lemma_w_ident_end(s1, o1, s2, o2, len, a, z);
        lemma_w_sub(s1, o1, s2, o2, len, a, z);
        if c < k {
            lemma_w_norm(s1, o1, s2, o2, len, c + 1, k, Seq::empty(), false);
        }
        lemma_w_decls(s1, o1, s2, o2, len, next, e, decls, errs);
        lemma_w_decls(s1, o1, s2, o2, len, next, e, decls, errs.push(CSSParseError::UnterminatedDeclaration));
        if c < k {
            lemma_w_decls(s1, o1, s2, o2, len, next, e, decls.push((s2.subrange(o2 + a, o2 + z), normalize_ws(s2, o2 + c + 1, o2 + k))), errs);
        }
    }
}

proof fn lemma_shift_window(x: Seq<char>, y: Seq<char>, i: int)
    requires
        0 <= i <= y.len(),
    ensures
        window(x + y, x.len() + i, y, i, y.len() - i),
{
    assert forall|k: int| 0 <= k < y.len() - i implies #[trigger] (x + y)[x.len() + i + k] == y[i + k] by {}
}

proof fn lemma_shift_comment_end(x: Seq<char>, y: Seq<char>, k: int)
    requires
        0 <= k,
    ensures
        comment_end(x + y, x.len() + k) == comment_end(y, k) + x.len(),
    decreases y.len() - k,
{
    let s = x + y;
    if k + 1 < y.len() {
        assert(s[x.len() + k] == y[k]);
        assert(s[x.len() + k + 1] == y[k + 1]);
        lemma_shift_comment_end(x, y, k + 1);
    }
}

proof fn lemma_shift_skip(x: Seq<char>, y: Seq<char>, i: int)
    requires
        0 <= i,
    ensures
        skip_trivia(x + y, x.len() + i) == skip_trivia(y, i) + x.len(),
    decreases y.len() - i,
{
    let s = x + y;
    if i < y.len() {
        assert(s[x.len() + i] == y[i]);
        if i + 1 < y.len() {
            assert(s[x.len() + i + 1] == y[i + 1]);
        }
        lemma_shift_comment_end(x, y, i + 2);
        let e = comment_end(y, i + 2);
        lemma_shift_skip(x, y, i + 1);
        if e > i && e <= y.len() {
            lemma_shift_skip(x, y, e);
        }
    }
}

proof fn lemma_shift_sheet(x: Seq<char>, y: Seq<char>, i: int, rules: Seq<RuleModel>, errs: Seq<CSSParseError>)
    requires
        0 <= i,
    ensures
        parse_sheet(x + y, x.len() + i, rules, errs) == parse_sheet(y, i, rules, errs),
    decreases y.len() - i,
{
    let s = x + y;
    let xl = x.len() as int;
    let n = y.len() as int;
    lemma_shift_skip(x, y, i);
    let p = skip_trivia(y, i);
    if !(p < i || p >= n) {
        lemma_shift_window(x, y, 0);
        assert(window(s, xl, y, 0, n));
        lemma_w_find(s, xl, y, 0, n, p, n, '{');
        crate::text::lemma_find_in_bounds(y, p, n, '{');
        let b = find_in(y, p, n, '{');
        if b < n {
            lemma_w_find(s, xl, y, 0, n, b + 1, n, '}');
            crate::text::lemma_find_in_bounds(y, b + 1, n, '}');
            let e = find_in(y, b + 1, n, '}');
            let next = if e < n { e + 1 } else { n };
            lemma_w_group(s, xl, y, 0, n, p, b, Seq::empty());
            lemma_w_decls(s, xl, y, 0, n, b + 1, e, Seq::empty(), Seq::empty());
            if next > i {
                match parse_group(y, p, b, Seq::empty()) {
                    None => lemma_shift_sheet(x, y, next, rules, errs.push(CSSParseError::UnterminatedSelector)),
                    Some(sels) => {
                        let (ds, des) = parse_decls(y, b + 1, e, Seq::empty(), Seq::empty());
                        lemma_shift_sheet(x, y, next, rules.push(RuleModel { selectors: sels, declarations: ds }), errs + des);
                    },
                }
            }
        }
    }
}

proof fn lemma_strip_acc(y: Seq<char>, i: int, acc: Seq<char>)
    ensures
        strip_from(y, i, acc) == acc + strip_from(y, i, Seq::empty()),
    decreases y.len() - i,
{
    let e0 = Seq::<char>::empty();
    if i < 0 || i >= y.len() {
        assert(acc + e0 =~= acc);
    } else if y[i] == '/' && i + 1 < y.len() && y[i + 1] == '*' {
        let e = comment_end(y, i + 2);
        if e <= i || e > y.len() {
            assert(acc + e0 =~= acc);
        } else {
            lemma_strip_acc(y, e, acc);
        }
    } else {
        lemma_strip_acc(y, i + 1, acc.push(y[i]));
        lemma_strip_acc(y, i + 1, e0.push(y[i]));
        assert(acc.push(y[i]) + strip_from(y, i + 1, e0) =~= acc + (e0.push(y[i]) + strip_from(y, i + 1, e0)));
    }
}

proof fn lemma_strip_shift(x: Seq<char>, y: Seq<char>, i: int, acc: Seq<char>)
    requires
        0 <= i,
    ensures
        strip_from(x + y, x.len() + i, acc) == strip_from(y, i, acc),
    decreases y.len() - i,
{
    let s = x + y;
    if i < y.len() {
        assert(s[x.len() + i] == y[i]);
        if i + 1 < y.len() {
            assert(s[x.len() + i + 1] == y[i + 1]);
        }
        lemma_shift_comment_end(x, y, i + 2);
        let e = comment_end(y, i + 2);
        lemma_strip_shift(x, y, i + 1, acc.push(y[i]));
        if e > i && e <= y.len() {
            lemma_strip_shift(x, y, e, acc);
        }
    }
}

proof fn lemma_strip_plain(s: Seq<char>, i: int, j: int, acc: Seq<char>)
    requires
        0 <= i <= j <= s.len(),
        forall|k: int| i <= k < j ==> s[k] != '/',
    ensures
        strip_from(s, i, acc) == strip_from(s, j, acc + s.subrange(i, j)),
    decreases j - i,
{
    if i == j {
        assert(acc + s.subrange(i, j) =~= acc);
    } else {
        lemma_strip_plain(s, i + 1, j, acc.push(s[i]));
        assert(acc.push(s[i]) + s.subrange(i + 1, j) =~= acc + s.subrange(i, j));
    }
}

proof fn lemma_skip_prefix(b: Seq<char>, z: Seq<char>, i: int)
    requires
        0 <= i,
        forall|k: int| 0 <= k < b.len() ==> b[k] != '/',
        skip_trivia(b, i) < b.len(),
    ensures
        skip_trivia(b + z, i) == skip_trivia(b, i),
    decreases b.len() - i,
{
    if i < b.len() {
        assert((b + z)[i] == b[i]);
        if is_ws(b[i]) {
            lemma_skip_prefix(b, z, i + 1);
        }
    }
}

proof fn lemma_find_extend(s: Seq<char>, i: int, e: int, e2: int, c: char)
    requires
        i <= e <= e2,
        find_in(s, i, e, c) < e,
    ensures
        find_in(s, i, e2, c) == find_in(s, i, e, c),
    decreases e - i,
{
    if i < e && s[i] != c {
        lemma_find_extend(s, i + 1, e, e2, c);
    }
}

proof fn lemma_ws_step(t: Seq<char>, i: int, rules: Seq<RuleModel>, errs: Seq<CSSParseError>)
    requires
        0 <= i < t.len(),
        is_ws(t[i]),
    ensures
        parse_sheet(t, i, rules, errs) == parse_sheet(t, i + 1, rules, errs),
{
    let n = t.len() as int;
    crate::css::lemma_skip_trivia_ge(t, i + 1);
    assert(skip_trivia(t, i) == skip_trivia(t, i + 1));
    let p = skip_trivia(t, i + 1);
    if p < n {
        crate::text::lemma_find_in_bounds(t, p, n, '{');
        let bb = find_in(t, p, n, '{');
        if bb < n {
            crate::text::lemma_find_in_bounds(t, bb + 1, n, '}');
        }
    }
}

/// A rule without comments whose body is closed by its last character and
/// whose selectors are invalid.
pub open spec fn broken_rule(b: Seq<char>) -> bool {
    let n = b.len() as int;
    let p = skip_trivia(b, 0);
    let ob = find_in(b, p, n, '{');
    &&& forall|k: int| 0 <= k < n ==> b[k] != '/'
    &&& p < n
    &&& ob < n
    &&& find_in(b, ob + 1, n, '}') == n - 1
    &&& parse_group(b, p, ob, Seq::empty()) is None
}

proof fn lemma_strip_concat(b: Seq<char>, r: Seq<char>)
    requires
        forall|k: int| 0 <= k < b.len() ==> b[k] != '/',
    ensures
        strip_comments(b + seq![' '] + r) == b + seq![' '] + strip_comments(r),
{
    let x = b + seq![' '];
    let t0 = x + r;
    let xl = x.len() as int;
    let bl = b.len() as int;
    assert forall|k: int| 0 <= k < xl implies t0[k] != '/' by {
        if k < bl {
            assert(t0[k] == b[k]);
        } else {
            assert(t0[k] == ' ');
        }
    }
    lemma_strip_plain(t0, 0, xl, Seq::empty());
    assert(Seq::<char>::empty() + t0.subrange(0, xl) =~= x);
    lemma_strip_shift(x, r, 0, x);
    lemma_strip_acc(r, 0, x);
}

/// In `t`, which begins with the broken rule `b`, the rule is skipped with
/// one error and reading goes on where `b` ends.
proof fn lemma_skip_broken(b: Seq<char>, y: Seq<char>)
    requires
        broken_rule(b),
    ensures
        parse_sheet(b + seq![' '] + y, 0, Seq::empty(), Seq::empty()) == parse_sheet(
            b + seq![' '] + y,
            b.len() as int,
            Seq::empty(),
            seq![CSSParseError::UnterminatedSelector],
        ),
{
    let t = b + seq![' '] + y;
    let n = t.len() as int;
    let bl = b.len() as int;
    let p = skip_trivia(b, 0);
    let ob = find_in(b, p, bl, '{');
    lemma_skip_prefix(b, seq![' '] + y, 0);
    assert(b + (seq![' '] + y) =~= t);
    crate::css::lemma_skip_trivia_ge(b, 0);
    assert(window(t, 0, b, 0, bl)) by {
        assert forall|k: int| 0 <= k < bl implies #[trigger] t[0 + k] == b[0 + k] by {}
    }
    crate::text::lemma_find_in_bounds(b, p, bl, '{');
    lemma_w_find(t, 0, b, 0, bl, p, bl, '{');
    lemma_find_extend(t, p, bl, n, '{');
    lemma_w_find(t, 0, b, 0, bl, ob + 1, bl, '}');
    lemma_find_extend(t, ob + 1, bl, n, '}');
    lemma_w_group(t, 0, b, 0, bl, p, ob, Seq::empty());
    assert(Seq::<CSSParseError>::empty().push(CSSParseError::UnterminatedSelector) == seq![
        CSSParseError::UnterminatedSelector,
    ]);
}

/// A broken rule in front of a style sheet `r` costs exactly one error and
/// changes nothing else: the rules are those of `r`, and the errors are one
/// selector error followed by those of `r`.
pub proof fn lemma_broken_rule_skipped(b: Seq<char>, r: Seq<char>)
    requires
        broken_rule(b),
    ensures
        parse_css(b + seq![' '] + r) == (parse_css(r).0, seq![CSSParseError::UnterminatedSelector] + parse_css(r).1),
{
    let x = b + seq![' '];
    let bl = b.len() as int;
    lemma_strip_concat(b, r);
    let y = strip_comments(r);
    let t = x + y;
    let err = seq![CSSParseError::UnterminatedSelector];
    lemma_skip_broken(b, y);
    crate::css::lemma_parse_sheet_acc(t, bl, Seq::empty(), err);
    assert(t[bl] == ' ');
    lemma_ws_step(t, bl, Seq::empty(), Seq::empty());
    lemma_shift_sheet(x, y, 0, Seq::empty(), Seq::empty());
    let rest = parse_css(r);
    assert(Seq::<RuleModel>::empty() + rest.0 =~= rest.0);
}

} // verus!
