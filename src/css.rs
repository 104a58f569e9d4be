//! Style sheet parser: `selector-group { declarations }` rules, with
//! recovery from malformed rules.
use vstd::prelude::*;
use crate::text::{
    trimmed,
    is_ws, is_ws_exec, all_ws, find_in, lemma_find_in_bounds, find_in_exec, string_of,
    all_ws_exec,
};

verus! {

/// A simple selector: optional tag name, optional id, and class names that
/// must all be present.
pub struct Selector {
    pub tag_name: Option<String>,
    pub id: Option<String>,
    pub classes: Vec<String>,
}

pub struct Declaration {
    pub name: String,
    pub value: String,
}

pub struct Rule {
    pub selectors: Vec<Selector>,
    pub declarations: Vec<Declaration>,
}

pub struct StyleSheet {
    pub rules: Vec<Rule>,
}

/// A recoverable error: the offending rule or declaration was skipped.
#[derive(Clone, Copy, Debug, PartialEq, Eq, Structural)]
pub enum CSSParseError {
    UnterminatedSelector,
    UnterminatedDeclaration,
}

pub struct SelModel {
    pub tag: Option<Seq<char>>,
    pub id: Option<Seq<char>>,
    pub classes: Seq<Seq<char>>,
}

pub struct RuleModel {
    pub selectors: Seq<SelModel>,
    pub declarations: Seq<(Seq<char>, Seq<char>)>,
}

pub open spec fn opt_view(o: Option<String>) -> Option<Seq<char>> {
    match o {
        Some(s) => Some(s@),
        None => None,
    }
}

pub open spec fn strings_view(v: Seq<String>) -> Seq<Seq<char>> {
    v.map_values(|s: String| s@)
}

impl View for Selector {
    type V = SelModel;

    open spec fn view(&self) -> SelModel {
        SelModel { tag: opt_view(self.tag_name), id: opt_view(self.id), classes: strings_view(self.classes@) }
    }
}

impl View for Declaration {
    type V = (Seq<char>, Seq<char>);

    open spec fn view(&self) -> (Seq<char>, Seq<char>) {
        (self.name@, self.value@)
    }
}

pub open spec fn sels_view(v: Seq<Selector>) -> Seq<SelModel> {
    v.map_values(|s: Selector| s@)
}

pub open spec fn decls_view(v: Seq<Declaration>) -> Seq<(Seq<char>, Seq<char>)> {
    v.map_values(|d: Declaration| d@)
}

impl View for Rule {
    type V = RuleModel;

    open spec fn view(&self) -> RuleModel {
        RuleModel { selectors: sels_view(self.selectors@), declarations: decls_view(self.declarations@) }
    }
}

pub open spec fn rules_view(v: Seq<Rule>) -> Seq<RuleModel> {
    v.map_values(|r: Rule| r@)
}

impl View for StyleSheet {
    type V = Seq<RuleModel>;

    open spec fn view(&self) -> Seq<RuleModel> {
        rules_view(self.rules@)
    }
}

/// Position after the comment whose text starts at `k` (after `/*`).
pub open spec fn comment_end(s: Seq<char>, k: int) -> int
    decreases s.len() - k,
{
    if k + 1 >= s.len() {
        s.len() as int
    } else if s[k] == '*' && s[k + 1] == '/' {
        k + 2
    } else {
        comment_end(s, k + 1)
    }
}

/// First position at or after `i` that is neither whitespace nor a comment.
pub open spec fn skip_trivia(s: Seq<char>, i: int) -> int
    decreases s.len() - i,
{
    if i < 0 || i >= s.len() {
        i
    } else if is_ws(s[i]) {
        skip_trivia(s, i + 1)
    } else if s[i] == '/' && i + 1 < s.len() && s[i + 1] == '*' {
        let e = comment_end(s, i + 2);
        if e <= i || e > s.len() {
            i
        } else {
            skip_trivia(s, e)
        }
    } else {
        i
    }
}

/// A character of an identifier: ASCII letters and digits, `-`, `_`, and any
/// non-ASCII character.
pub open spec fn is_ident_char(c: char) -> bool {
    ('a' <= c && c <= 'z') || ('A' <= c && c <= 'Z') || ('0' <= c && c <= '9') || c == '-' || c == '_'
        || (c as u32) >= 128
}

pub open spec fn ident_end(s: Seq<char>, i: int, end: int) -> int
    decreases end - i,
{
    if i >= end || !is_ident_char(s[i]) {
        i
    } else {
        ident_end(s, i + 1, end)
    }
}

/// First position at or after `i` (before `end`) that is not whitespace.
pub open spec fn ws_end(s: Seq<char>, i: int, end: int) -> int
    decreases end - i,
{
    if i >= end || !is_ws(s[i]) {
        i
    } else {
        ws_end(s, i + 1, end)
    }
}

/// `z` moved back over trailing whitespace, not before `a`.
pub open spec fn trim_back(s: Seq<char>, a: int, z: int) -> int
    decreases z - a,
{
    if z <= a || !is_ws(s[z - 1]) {
        z
    } else {
        trim_back(s, a, z - 1)
    }
}

pub open spec fn empty_sel() -> SelModel {
    SelModel { tag: None, id: None, classes: Seq::empty() }
}

/// The components of a simple selector in `s[p..z]` added to `sel`: an
/// identifier sets the tag, `#name` the id, `.name` adds a class. Anything
/// else makes the selector invalid.
pub open spec fn parse_compound(s: Seq<char>, p: int, z: int, sel: SelModel) -> Option<SelModel>
    decreases z - p,
{
    if p >= z {
        Some(sel)
    } else if s[p] == '#' || s[p] == '.' {
        let e = ident_end(s, p + 1, z);
        if e <= p + 1 || e > z {
            None
        } else if s[p] == '#' {
            parse_compound(s, e, z, SelModel { id: Some(s.subrange(p + 1, e)), ..sel })
        } else {
            parse_compound(s, e, z, SelModel { classes: sel.classes.push(s.subrange(p + 1, e)), ..sel })
        }
    } else if is_ident_char(s[p]) {
        let e = ident_end(s, p, z);
        if e <= p || e > z {
            None
        } else {
            parse_compound(s, e, z, SelModel { tag: Some(s.subrange(p, e)), ..sel })
        }
    } else {
        None
    }
}

/// The simple selector in `s[a..z]`, surrounding whitespace ignored; an empty
/// one is invalid.
pub open spec fn parse_simple(s: Seq<char>, a: int, z: int) -> Option<SelModel> {
    let a2 = ws_end(s, a, z);
    let z2 = trim_back(s, a2, z);
    if a2 >= z2 {
        None
    } else {
        parse_compound(s, a2, z2, empty_sel())
    }
}

/// The comma-separated selectors of `s[p..z]` after `acc`; `None` when one of
/// them is invalid.
pub open spec fn parse_group(s: Seq<char>, p: int, z: int, acc: Seq<SelModel>) -> Option<Seq<SelModel>>
    decreases z - p,
{
    let k = find_in(s, p, z, ',');
    match parse_simple(s, p, k) {
        None => None,
        Some(sel) => if k >= z || k < p {
            Some(acc.push(sel))
        } else {
            parse_group(s, k + 1, z, acc.push(sel))
        },
    }
}

/// `s[i..end]` with runs of whitespace turned into one space and whitespace
/// at both ends dropped, appended to `acc`; `pending` says that a space is
/// owed before the next other character.
pub open spec fn norm_from(s: Seq<char>, i: int, end: int, acc: Seq<char>, pending: bool) -> Seq<char>
    decreases end - i,
{
    if i >= end {
        acc
    } else if is_ws(s[i]) {
        norm_from(s, i + 1, end, acc, acc.len() > 0)
    } else if pending {
        norm_from(s, i + 1, end, acc.push(' ').push(s[i]), false)
    } else {
        norm_from(s, i + 1, end, acc.push(s[i]), false)
    }
}

/// A declaration value: its whitespace runs collapsed, then trimmed as
/// `str::trim` does.
pub open spec fn normalize_ws(s: Seq<char>, i: int, end: int) -> Seq<char> {
    trimmed(norm_from(s, i, end, Seq::empty(), false))
}

/// The declarations of the rule body `s[p..e]`, after `decls` and `errs`:
/// `name: value` separated by `;`. One without `:`, or whose name is not an
/// identifier, is skipped and recorded as an error.
pub open spec fn parse_decls(
    s: Seq<char>,
    p: int,
    e: int,
    decls: Seq<(Seq<char>, Seq<char>)>,
    errs: Seq<CSSParseError>,
) -> (Seq<(Seq<char>, Seq<char>)>, Seq<CSSParseError>)
    decreases e - p,
{
    if p >= e {
        (decls, errs)
    } else {
        let k = find_in(s, p, e, ';');
        let next = if k < e {
            k + 1
        } else {
            e
        };
        if k < p || k > e {
            (decls, errs)
        } else if all_ws(s.subrange(p, k)) {
            parse_decls(s, next, e, decls, errs)
        } else {
            let c = find_in(s, p, k, ':');
            let a = ws_end(s, p, c);
            let z = trim_back(s, a, c);
            if c >= k || a >= z || ident_end(s, a, z) != z {
                parse_decls(s, next, e, decls, errs.push(CSSParseError::UnterminatedDeclaration))
            } else {
                parse_decls(s, next, e, decls.push((s.subrange(a, z), normalize_ws(s, c + 1, k))), errs)
            }
        }
    }
}

/// The rules of `s` from position `i`, after `rules` and `errs`. A rule with
/// an invalid selector is skipped with its body and recorded as an error;
/// text with no body left is recorded as an error too.
pub open spec fn parse_sheet(s: Seq<char>, i: int, rules: Seq<RuleModel>, errs: Seq<CSSParseError>) -> (
    Seq<RuleModel>,
    Seq<CSSParseError>,
)
    decreases s.len() - i,
{
    let n = s.len() as int;
    let p = skip_trivia(s, i);
    if i < 0 || p < i || p >= n {
        (rules, errs)
    } else {
        let b = find_in(s, p, n, '{');
        if b >= n || b < p {
            (rules, errs.push(CSSParseError::UnterminatedSelector))
        } else {
            let e = find_in(s, b + 1, n, '}');
            let next = if e < n {
                e + 1
            } else {
                n
            };
            if next <= i || next > n {
                (rules, errs)
            } else {
                match parse_group(s, p, b, Seq::empty()) {
                    None => parse_sheet(s, next, rules, errs.push(CSSParseError::UnterminatedSelector)),
                    Some(sels) => {
                        let (ds, des) = parse_decls(s, b + 1, e, Seq::empty(), Seq::empty());
                        parse_sheet(s, next, rules.push(RuleModel { selectors: sels, declarations: ds }), errs + des)
                    },
                }
            }
        }
    }
}

/// First position at or after `i` where a comment starts; the length of
/// `s` when none does.
pub open spec fn comment_start(s: Seq<char>, i: int) -> int
    decreases s.len() - i,
{
    if i < 0 || i >= s.len() {
        s.len() as int
    } else if s[i] == '/' && i + 1 < s.len() && s[i + 1] == '*' {
        i
    } else {
        comment_start(s, i + 1)
    }
}

/// `s[i..]` with its comments removed, appended to `acc`. A comment that is
/// not closed runs to the end of the text.
pub open spec fn strip_from(s: Seq<char>, i: int, acc: Seq<char>) -> Seq<char>
    decreases s.len() - i,
{
    if i < 0 || i >= s.len() {
        acc
    } else if s[i] == '/' && i + 1 < s.len() && s[i + 1] == '*' {
        let e = comment_end(s, i + 2);
        if e <= i || e > s.len() {
            acc
        } else {
            strip_from(s, e, acc)
        }
    } else {
        strip_from(s, i + 1, acc.push(s[i]))
    }
}

pub open spec fn strip_comments(s: Seq<char>) -> Seq<char> {
    strip_from(s, 0, Seq::empty())
}

/// The rules and the errors of style sheet text `s`. Comments are skipped
/// wherever they stand.
pub open spec fn parse_css(s: Seq<char>) -> (Seq<RuleModel>, Seq<CSSParseError>) {
    parse_sheet(strip_comments(s), 0, Seq::empty(), Seq::empty())
}

pub proof fn lemma_skip_trivia_ge(s: Seq<char>, i: int)
    requires
        0 <= i,
    ensures
        i <= skip_trivia(s, i),
    decreases s.len() - i,
{
    if i < s.len() {
        if is_ws(s[i]) {
            lemma_skip_trivia_ge(s, i + 1);
        } else if s[i] == '/' && i + 1 < s.len() && s[i + 1] == '*' {
            let e = comment_end(s, i + 2);
            if !(e <= i || e > s.len()) {
                lemma_skip_trivia_ge(s, e);
            }
        }
    }
}

/// The rules and errors found from `i` on come after those already held.
pub proof fn lemma_parse_sheet_acc(s: Seq<char>, i: int, rules: Seq<RuleModel>, errs: Seq<CSSParseError>)
    ensures
        parse_sheet(s, i, rules, errs) == (rules + parse_sheet(s, i, Seq::empty(), Seq::empty()).0, errs
            + parse_sheet(s, i, Seq::empty(), Seq::empty()).1),
    decreases s.len() - i,
{
    let n = s.len() as int;
    let p = skip_trivia(s, i);
    let e0 = Seq::<RuleModel>::empty();
    let f0 = Seq::<CSSParseError>::empty();
    if i < 0 || p < i || p >= n {
        assert(rules + e0 =~= rules);
        assert(errs + f0 =~= errs);
    } else {
        let b = find_in(s, p, n, '{');
        if b >= n || b < p {
            assert(errs.push(CSSParseError::UnterminatedSelector) =~= errs + f0.push(CSSParseError::UnterminatedSelector));
            assert(rules + e0 =~= rules);
        } else {
            let e = find_in(s, b + 1, n, '}');
            let next = if e < n { e + 1 } else { n };
            if next <= i || next > n {
                assert(rules + e0 =~= rules);
                assert(errs + f0 =~= errs);
            } else {
                let rest = parse_sheet(s, next, e0, f0);
                match parse_group(s, p, b, Seq::empty()) {
                    None => {
                        lemma_parse_sheet_acc(s, next, rules, errs.push(CSSParseError::UnterminatedSelector));
                        lemma_parse_sheet_acc(s, next, e0, f0.push(CSSParseError::UnterminatedSelector));
                        assert(e0 + rest.0 =~= rest.0);
                        assert(errs.push(CSSParseError::UnterminatedSelector) + rest.1 =~= errs + (f0.push(
                            CSSParseError::UnterminatedSelector) + rest.1));
                    },
                    Some(sels) => {
                        let (ds, des) = parse_decls(s, b + 1, e, Seq::empty(), Seq::empty());
                        let r = RuleModel { selectors: sels, declarations: ds };
                        lemma_parse_sheet_acc(s, next, rules.push(r), errs + des);
                        lemma_parse_sheet_acc(s, next, e0.push(r), f0 + des);
                        assert(rules.push(r) + rest.0 =~= rules + (e0.push(r) + rest.0));
                        assert(errs + des + rest.1 =~= errs + (f0 + des + rest.1));
                    },
                }
            }
        }
    }
}

/// The leading rule of `s` has a body closed by `}` but invalid selectors.
pub open spec fn broken_leading_rule(s: Seq<char>) -> bool {
    let n = s.len() as int;
    let p = skip_trivia(s, 0);
    let b = find_in(s, p, n, '{');
    &&& p < n
    &&& b < n
    &&& find_in(s, b + 1, n, '}') < n
    &&& parse_group(s, p, b, Seq::empty()) is None
}

/// Position just after the closing brace of the leading rule.
pub open spec fn after_leading_rule(s: Seq<char>) -> int {
    let n = s.len() as int;
    find_in(s, find_in(s, skip_trivia(s, 0), n, '{') + 1, n, '}') + 1
}

/// A syntactically broken leading rule is skipped with its body and costs
/// exactly one error: the rules are those read after its closing brace, and
/// the errors are one selector error followed by those read there.
pub proof fn lemma_broken_rule_recovery(s: Seq<char>)
    requires
        broken_leading_rule(s),
    ensures
        parse_sheet(s, 0, Seq::empty(), Seq::empty()) == (parse_sheet(s, after_leading_rule(s), Seq::empty(), Seq::empty()).0, seq![
            CSSParseError::UnterminatedSelector,
        ] + parse_sheet(s, after_leading_rule(s), Seq::empty(), Seq::empty()).1),
{
    let n = s.len() as int;
    let p = skip_trivia(s, 0);
    lemma_skip_trivia_ge(s, 0);
    let b = find_in(s, p, n, '{');
    lemma_find_in_bounds(s, p, n, '{');
    lemma_find_in_bounds(s, b + 1, n, '}');
    let e = after_leading_rule(s);
    let err = Seq::<CSSParseError>::empty().push(CSSParseError::UnterminatedSelector);
    assert(parse_sheet(s, 0, Seq::empty(), Seq::empty()) == parse_sheet(s, e, Seq::empty(), err));
    lemma_parse_sheet_acc(s, e, Seq::empty(), err);
    assert(Seq::<RuleModel>::empty() + parse_sheet(s, e, Seq::empty(), Seq::empty()).0 =~= parse_sheet(
        s,
        e,
        Seq::empty(),
        Seq::empty(),
    ).0);
    assert(err =~= seq![CSSParseError::UnterminatedSelector]);
}

pub open spec fn opt_sel_view(o: Option<Selector>) -> Option<SelModel> {
    match o {
        Some(s) => Some(s@),
        None => None,
    }
}

pub open spec fn opt_sels_view(o: Option<Vec<Selector>>) -> Option<Seq<SelModel>> {
    match o {
        Some(v) => Some(sels_view(v@)),
        None => None,
    }
}

fn is_ident_char_exec(c: char) -> (r: bool)
    ensures
        r == is_ident_char(c),
{
    ('a' <= c && c <= 'z') || ('A' <= c && c <= 'Z') || ('0' <= c && c <= '9') || c == '-' || c == '_'
        || (c as u32) >= 128
}

fn comment_end_exec(cs: &Vec<char>, k: usize) -> (r: usize)
    requires
        k <= cs@.len(),
    ensures
        r == comment_end(cs@, k as int),
        k <= r <= cs@.len(),
{
    let n = cs.len();
    let mut j = k;
    while n - j > 1 && !(cs[j] == '*' && cs[j + 1] == '/')
        invariant
            k <= j <= n,
            n == cs@.len(),
            comment_end(cs@, j as int) == comment_end(cs@, k as int),
        decreases n - j,
    {
        j += 1;
    }
    if n - j <= 1 {
        n
    } else {
        j + 2
    }
}

fn skip_trivia_exec(cs: &Vec<char>, i: usize) -> (r: usize)
    requires
        i <= cs@.len(),
    ensures
        r == skip_trivia(cs@, i as int),
        i <= r <= cs@.len(),
{
    let n = cs.len();
    let mut j = i;
    loop
        invariant
            i <= j <= n,
            n == cs@.len(),
            skip_trivia(cs@, j as int) == skip_trivia(cs@, i as int),
        decreases n - j,
    {
        if j >= n {
            return j;
        } else if is_ws_exec(cs[j]) {
            j += 1;
        } else if cs[j] == '/' && j + 1 < n && cs[j + 1] == '*' {
            let e = comment_end_exec(cs, j + 2);
            if e <= j || e > n {
                return j;
            }
            j = e;
        } else {
            return j;
        }
    }
}

fn ident_end_exec(cs: &Vec<char>, i: usize, end: usize) -> (r: usize)
    requires
        i <= end <= cs@.len(),
    ensures
        r == ident_end(cs@, i as int, end as int),
        i <= r <= end,
{
    let mut k = i;
    while k < end && is_ident_char_exec(cs[k])
        invariant
            i <= k <= end <= cs@.len(),
            ident_end(cs@, k as int, end as int) == ident_end(cs@, i as int, end as int),
        decreases end - k,
    {
        k += 1;
    }
    k
}

pub(crate) fn ws_end_exec(cs: &Vec<char>, i: usize, end: usize) -> (r: usize)
    requires
        i <= end <= cs@.len(),
    ensures
        r == ws_end(cs@, i as int, end as int),
        i <= r <= end,
{
    let mut k = i;
    while k < end && is_ws_exec(cs[k])
        invariant
            i <= k <= end <= cs@.len(),
            ws_end(cs@, k as int, end as int) == ws_end(cs@, i as int, end as int),
        decreases end - k,
    {
        k += 1;
    }
    k
}

pub(crate) fn trim_back_exec(cs: &Vec<char>, a: usize, z: usize) -> (r: usize)
    requires
        a <= z <= cs@.len(),
    ensures
        r == trim_back(cs@, a as int, z as int),
        a <= r <= z,
{
    let mut k = z;
    while k > a && is_ws_exec(cs[k - 1])
        invariant
            a <= k <= z <= cs@.len(),
            trim_back(cs@, a as int, k as int) == trim_back(cs@, a as int, z as int),
        decreases k,
    {
        k -= 1;
    }
    k
}

fn parse_compound_exec(source: &str, cs: &Vec<char>, p: usize, z: usize) -> (r: Option<Selector>)
    requires
        cs@ == source@,
        p <= z <= cs@.len(),
    ensures
        opt_sel_view(r) == parse_compound(cs@, p as int, z as int, empty_sel()),
{
    let mut sel = Selector { tag_name: None, id: None, classes: Vec::new() };
    proof { assert(sel@.classes =~= Seq::<Seq<char>>::empty()); }
    let ghost target = parse_compound(cs@, p as int, z as int, empty_sel());
    let mut q = p;
    let mut ok = true;
    while ok && q < z
        invariant
            cs@ == source@,
            q <= z <= cs@.len(),
            ok ==> parse_compound(cs@, q as int, z as int, sel@) == target,
            !ok ==> target is None,
        decreases z - q, (if ok { 1int } else { 0int }),
    {
        if cs[q] == '#' || cs[q] == '.' {
            let e = ident_end_exec(cs, q + 1, z);
            if e <= q + 1 || e > z {
                ok = false;
            } else if cs[q] == '#' {
                sel.id = Some(string_of(source, q + 1, e));
                q = e;
            } else {
                let ghost old_sel = sel@;
                sel.classes.push(string_of(source, q + 1, e));
                proof {
                    assert(sel@.classes =~= old_sel.classes.push(cs@.subrange(q + 1, e as int)));
                }
                q = e;
            }
        } else if is_ident_char_exec(cs[q]) {
            let e = ident_end_exec(cs, q, z);
            if e <= q || e > z {
                ok = false;
            } else {
                sel.tag_name = Some(string_of(source, q, e));
                q = e;
            }
        } else {
            ok = false;
        }
    }
    if ok {
        Some(sel)
    } else {
        None
    }
}

fn parse_simple_exec(source: &str, cs: &Vec<char>, a: usize, z: usize) -> (r: Option<Selector>)
    requires
        cs@ == source@,
        a <= z <= cs@.len(),
    ensures
        opt_sel_view(r) == parse_simple(cs@, a as int, z as int),
{
    let a2 = ws_end_exec(cs, a, z);
    let z2 = trim_back_exec(cs, a2, z);
    if a2 >= z2 {
        None
    } else {
        parse_compound_exec(source, cs, a2, z2)
    }
}

fn parse_group_exec(source: &str, cs: &Vec<char>, p: usize, z: usize) -> (r: Option<Vec<Selector>>)
    requires
        cs@ == source@,
        p <= z <= cs@.len(),
    ensures
        opt_sels_view(r) == parse_group(cs@, p as int, z as int, Seq::empty()),
{
    let mut acc: Vec<Selector> = Vec::new();
    let ghost target = parse_group(cs@, p as int, z as int, Seq::empty());
    let mut q = p;
    proof { assert(sels_view(acc@) =~= Seq::<SelModel>::empty()); }
    let mut state: u8 = 0;
    while state == 0
        invariant
            cs@ == source@,
            q <= z <= cs@.len(),
            state <= 2,
            state == 0 ==> parse_group(cs@, q as int, z as int, sels_view(acc@)) == target,
            state == 1 ==> target is None,
            state == 2 ==> target == Some(sels_view(acc@)),
        decreases z - q, (if state == 0 { 1int } else { 0int }),
    {
        let k = find_in_exec(cs, q, z, ',');
        let simple = parse_simple_exec(source, cs, q, k);
        match simple {
            None => {
                state = 1;
            },
            Some(sel) => {
                let ghost old_acc = sels_view(acc@);
                acc.push(sel);
                proof {
                    assert(sels_view(acc@) =~= old_acc.push(sel@));
                }
                if k >= z || k < q {
                    state = 2;
                } else {
                    q = k + 1;
                }
            },
        }
    }
    if state == 1 {
        None
    } else {
        Some(acc)
    }
}

fn normalize_exec(source: &str, cs: &Vec<char>, i: usize, end: usize) -> (r: String)
    requires
        cs@ == source@,
        i <= end <= cs@.len(),
    ensures
        r@ == normalize_ws(cs@, i as int, end as int),
{
    let mut out = String::new();
    let mut pending = false;
    let mut started = false;
    let mut k = i;
    while k < end
        invariant
            cs@ == source@,
            i <= k <= end <= cs@.len(),
            started == (out@.len() > 0),
            norm_from(cs@, k as int, end as int, out@, pending) == norm_from(cs@, i as int, end as int, Seq::empty(), false),
        decreases end - k,
    {
        if is_ws_exec(cs[k]) {
            pending = started;
        } else {
            let ghost before = out@;
            if pending {
                proof {
                    reveal_strlit(" ");
                }
                out.append(" ");
            }
            let ghost mid = out@;
            out.append(source.substring_char(k, k + 1));
            proof {
                assert(cs@.subrange(k as int, k + 1) =~= seq![cs@[k as int]]);
                assert(out@ =~= mid.push(cs@[k as int]));
                if pending {
                    assert(mid =~= before.push(' '));
                } else {
                    assert(mid =~= before);
                }
            }
            pending = false;
            started = true;
        }
        k += 1;
    }
    crate::text::trim_exec(&out)
}

fn parse_decls_exec(
    source: &str,
    cs: &Vec<char>,
    p: usize,
    e: usize,
    decls: &mut Vec<Declaration>,
    errs: &mut Vec<CSSParseError>,
)
    requires
        cs@ == source@,
        p <= e <= cs@.len(),
    ensures
        (decls_view(final(decls)@), final(errs)@) == parse_decls(cs@, p as int, e as int, decls_view(old(decls)@), old(errs)@),
{
    let ghost p0 = p as int;
    let mut p = p;
    while p < e
        invariant
            cs@ == source@,
            p <= e <= cs@.len(),
            parse_decls(cs@, p as int, e as int, decls_view(decls@), errs@) == parse_decls(cs@, p0, e as int, decls_view(old(decls)@), old(errs)@),
        decreases e - p,
    {
        let k = find_in_exec(cs, p, e, ';');
        let next = if k < e {
            k + 1
        } else {
            e
        };
        if all_ws_exec(cs, p, k) {
        } else {
            let c = find_in_exec(cs, p, k, ':');
            let a = ws_end_exec(cs, p, c);
            let z = trim_back_exec(cs, a, c);
            if c >= k || a >= z || ident_end_exec(cs, a, z) != z {
                errs.push(CSSParseError::UnterminatedDeclaration);
            } else {
                let name = string_of(source, a, z);
                let value = normalize_exec(source, cs, c + 1, k);
                let ghost old_d = decls_view(decls@);
                decls.push(Declaration { name, value });
                proof {
                    assert(decls_view(decls@) =~= old_d.push((cs@.subrange(a as int, z as int), normalize_ws(cs@, c + 1, k as int))));
                }
            }
        }
        p = next;
    }
}

fn comment_start_exec(cs: &Vec<char>, i: usize) -> (r: usize)
    requires
        i <= cs@.len(),
    ensures
        r == comment_start(cs@, i as int),
        i <= r <= cs@.len(),
        r < cs@.len() ==> r + 1 < cs@.len() && cs@[r as int] == '/' && cs@[r + 1] == '*',
{
    let n = cs.len();
    let mut k = i;
    while k < n && !(cs[k] == '/' && n - k > 1 && cs[k + 1] == '*')
        invariant
            i <= k <= n,
            n == cs@.len(),
            comment_start(cs@, k as int) == comment_start(cs@, i as int),
        decreases n - k,
    {
        k += 1;
    }
    k
}

proof fn lemma_strip_run(s: Seq<char>, i: int, acc: Seq<char>)
    requires
        0 <= i <= s.len(),
    ensures
        i <= comment_start(s, i) <= s.len(),
        strip_from(s, i, acc) == strip_from(s, comment_start(s, i), acc + s.subrange(i, comment_start(s, i))),
    decreases s.len() - i,
{
    let k = comment_start(s, i);
    if i >= s.len() || (s[i] == '/' && i + 1 < s.len() && s[i + 1] == '*') {
        assert(acc + s.subrange(i, k) =~= acc);
    } else {
        lemma_strip_run(s, i + 1, acc.push(s[i]));
        assert(acc.push(s[i]) + s.subrange(i + 1, k) =~= acc + s.subrange(i, k));
    }
}

/// The text of `source` with its comments removed.
fn strip_comments_exec(source: &str, cs: &Vec<char>) -> (r: String)
    requires
        cs@ == source@,
    ensures
        r@ == strip_comments(source@),
{
    let n = cs.len();
    let mut out = String::new();
    let mut i: usize = 0;
    loop
        invariant
            cs@ == source@,
            n == cs@.len(),
            i <= n,
            strip_from(cs@, i as int, out@) == strip_comments(source@),
        decreases n - i,
    {
        proof { lemma_strip_run(cs@, i as int, out@); }
        let k = comment_start_exec(cs, i);
        out.append(source.substring_char(i, k));
        if k >= n {
            return out;
        }
        let e = comment_end_exec(cs, k + 2);
        i = e;
    }
}

pub struct CSSParser;

impl CSSParser {
    /// Parses style sheet text into its rules and the recoverable errors met
    /// on the way.
    pub fn parse(text: &str) -> (r: (StyleSheet, Vec<CSSParseError>))
        ensures
            (r.0@, r.1@) == parse_css(text@),
    {
        let raw = crate::text::chars_of(text);
        let clean = strip_comments_exec(text, &raw);
        let source = clean.as_str();
        let cs = crate::text::chars_of(source);
        let n = cs.len();
        let mut rules: Vec<Rule> = Vec::new();
        let mut errs: Vec<CSSParseError> = Vec::new();
        let mut i: usize = 0;
        proof { assert(rules_view(rules@) =~= Seq::<RuleModel>::empty()); }
        loop
            invariant_except_break
                parse_sheet(cs@, i as int, rules_view(rules@), errs@) == parse_css(text@),
            invariant
                cs@ == source@,
                source@ == strip_comments(text@),
                n == cs@.len(),
                i <= n,
            ensures
                (rules_view(rules@), errs@) == parse_css(text@),
            decreases n - i,
        {
            let p = skip_trivia_exec(&cs, i);
            if p >= n {
                break;
            }
            let b = find_in_exec(&cs, p, n, '{');
            if b >= n {
                errs.push(CSSParseError::UnterminatedSelector);
                break;
            }
            let e = find_in_exec(&cs, b + 1, n, '}');
            let next = if e < n {
                e + 1
            } else {
                n
            };
            if next <= i {
                break;
            }
            let group = parse_group_exec(source, &cs, p, b);
            match group {
                None => {
                    errs.push(CSSParseError::UnterminatedSelector);
                },
                Some(selectors) => {
                    let mut declarations: Vec<Declaration> = Vec::new();
                    let mut des: Vec<CSSParseError> = Vec::new();
                    proof { assert(decls_view(declarations@) =~= Seq::<(Seq<char>, Seq<char>)>::empty()); }
                    parse_decls_exec(source, &cs, b + 1, e, &mut declarations, &mut des);
                    let ghost old_r = rules_view(rules@);
                    let rule = Rule { selectors, declarations };
                    rules.push(rule);
                    errs.append(&mut des);
                    proof {
                        assert(rules_view(rules@) =~= old_r.push(rule@));
                    }
                },
            }
            i = next;
        }
        (StyleSheet { rules }, errs)
    }
}

} // verus!
