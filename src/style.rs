//! Cascade: for every node, the declarations of the matching rules applied
//! in order of specificity and then source order, plus the inherited values
//! of the parent. A property that is neither set nor inherited is absent;
//! its reader takes the initial value (zero for lengths, the tag's default
//! for `display`).
use vstd::prelude::*;
use crate::dom::{Node, NodeType, DomNode, DomKind, attr_get, attr_index, attr_index_from, attrs_view, lemma_attr_index_from};
use crate::css::{Selector, Rule, StyleSheet, SelModel, RuleModel, Declaration};
use crate::text::{is_ws, is_ws_exec, chars_of};

verus! {

/// Selector precedence, compared as (ids, classes, tags).
#[derive(Clone, Copy, Debug, PartialEq, Eq, Structural)]
pub struct Specificity {
    pub ids: u64,
    pub classes: u64,
    pub tags: u64,
}

pub open spec fn spec_le(a: Specificity, b: Specificity) -> bool {
    a.ids < b.ids || (a.ids == b.ids && (a.classes < b.classes || (a.classes == b.classes && a.tags <= b.tags)))
}

/// The resolved properties of one node, names unique.
pub struct ComputedStyle {
    pub properties: Vec<(String, String)>,
}

/// Computed styles laid out as the document tree is: one per node, children
/// in the same order.
pub struct StyleTree {
    pub style: ComputedStyle,
    pub children: Vec<StyleTree>,
}

pub struct StyleModel {
    pub props: Seq<(Seq<char>, Seq<char>)>,
    pub children: Seq<StyleModel>,
}

pub open spec fn empty_style() -> StyleModel {
    StyleModel { props: Seq::empty(), children: Seq::empty() }
}

impl View for StyleTree {
    type V = StyleModel;

    open spec fn view(&self) -> StyleModel
        decreases self,
    {
        StyleModel {
            props: attrs_view(self.style.properties@),
            children: Seq::new(
                self.children@.len(),
                |i: int|
                    if 0 <= i < self.children@.len() {
                        self.children@[i].view()
                    } else {
                        empty_style()
                    },
            ),
        }
    }
}

/// `c` stands in `t` as a whole whitespace-separated word starting at `a`.
pub open spec fn word_at(t: Seq<char>, a: int, c: Seq<char>) -> bool {
    &&& c.len() > 0
    &&& 0 <= a
    &&& a + c.len() <= t.len()
    &&& t.subrange(a, a + c.len()) == c
    &&& (a == 0 || is_ws(t[a - 1]))
    &&& (a + c.len() == t.len() || is_ws(t[a + c.len()]))
}

pub open spec fn has_class(cls: Option<Seq<char>>, c: Seq<char>) -> bool {
    cls is Some && exists|a: int| word_at(cls->0, a, c)
}

/// A simple selector matches an element by its own tag, id and classes.
pub open spec fn sel_matches(sel: SelModel, tag: Seq<char>, attrs: Seq<(Seq<char>, Seq<char>)>) -> bool {
    &&& (sel.tag is None || sel.tag == Some(tag))
    &&& (sel.id is None || attr_get(attrs, "id"@) == sel.id)
    &&& forall|i: int| 0 <= i < sel.classes.len() ==> has_class(attr_get(attrs, "class"@), #[trigger] sel.classes[i])
}

pub open spec fn sel_spec(sel: SelModel) -> Specificity {
    Specificity {
        ids: if sel.id is Some { 1 } else { 0 },
        classes: sel.classes.len() as u64,
        tags: if sel.tag is Some { 1 } else { 0 },
    }
}

/// The highest specificity among the selectors from `k` on that match,
/// starting from `best`.
pub open spec fn best_from(sels: Seq<SelModel>, k: int, tag: Seq<char>, attrs: Seq<(Seq<char>, Seq<char>)>, best: Option<Specificity>) -> Option<Specificity>
    decreases sels.len() - k,
{
    if k < 0 || k >= sels.len() {
        best
    } else if sel_matches(sels[k], tag, attrs) {
        let sp = sel_spec(sels[k]);
        let nb = match best {
            Some(b) => if spec_le(b, sp) { sp } else { b },
            None => sp,
        };
        best_from(sels, k + 1, tag, attrs, Some(nb))
    } else {
        best_from(sels, k + 1, tag, attrs, best)
    }
}

/// The specificity with which a rule applies to an element; `None` when no
/// selector of the rule matches.
pub open spec fn rule_spec(rule: RuleModel, tag: Seq<char>, attrs: Seq<(Seq<char>, Seq<char>)>) -> Option<Specificity> {
    best_from(rule.selectors, 0, tag, attrs, None)
}

pub type Entry = (Seq<char>, Seq<char>, Specificity);

pub open spec fn entry_index_from(acc: Seq<Entry>, name: Seq<char>, i: int) -> int
    decreases acc.len() - i,
{
    if i < 0 || i >= acc.len() {
        -1
    } else if acc[i].0 == name {
        i
    } else {
        entry_index_from(acc, name, i + 1)
    }
}

/// One declaration applied: it replaces the current value of its property
/// unless that value came with a higher specificity.
pub open spec fn apply_one(acc: Seq<Entry>, d: (Seq<char>, Seq<char>), sp: Specificity) -> Seq<Entry> {
    let idx = entry_index_from(acc, d.0, 0);
    if idx < 0 {
        acc.push((d.0, d.1, sp))
    } else if spec_le(acc[idx].2, sp) {
        acc.update(idx, (d.0, d.1, sp))
    } else {
        acc
    }
}

pub open spec fn apply_decls(ds: Seq<(Seq<char>, Seq<char>)>, k: int, sp: Specificity, acc: Seq<Entry>) -> Seq<Entry>
    decreases ds.len() - k,
{
    if k < 0 || k >= ds.len() {
        acc
    } else {
        apply_decls(ds, k + 1, sp, apply_one(acc, ds[k], sp))
    }
}

/// The declarations of rules from `r` on that match the element, applied in
/// source order to `acc`.
pub open spec fn cascade_from(rules: Seq<RuleModel>, r: int, tag: Seq<char>, attrs: Seq<(Seq<char>, Seq<char>)>, acc: Seq<Entry>) -> Seq<Entry>
    decreases rules.len() - r,
{
    if r < 0 || r >= rules.len() {
        acc
    } else {
        match rule_spec(rules[r], tag, attrs) {
            None => cascade_from(rules, r + 1, tag, attrs, acc),
            Some(sp) => cascade_from(rules, r + 1, tag, attrs, apply_decls(rules[r].declarations, 0, sp, acc)),
        }
    }
}

/// The value and specificity held for property `p`, if any.
pub open spec fn lookup(acc: Seq<Entry>, p: Seq<char>) -> Option<(Seq<char>, Specificity)> {
    let i = entry_index_from(acc, p, 0);
    if 0 <= i < acc.len() {
        Some((acc[i].1, acc[i].2))
    } else {
        None
    }
}

proof fn lemma_entry_index(a: Seq<Entry>, p: Seq<char>, i: int)
    requires
        0 <= i,
    ensures
        entry_index_from(a, p, i) == -1 || (i <= entry_index_from(a, p, i) < a.len() && a[entry_index_from(a, p, i)].0 == p),
        entry_index_from(a, p, i) == -1 ==> forall|j: int| i <= j < a.len() ==> a[j].0 != p,
        forall|j: int| i <= j < entry_index_from(a, p, i) ==> a[j].0 != p,
    decreases a.len() - i,
{
    if i < a.len() && a[i].0 != p {
        lemma_entry_index(a, p, i + 1);
    }
}

/// Index `j` is where `p` first occurs in `a`, or `-1` when `p` is absent.
proof fn lemma_entry_index_is(a: Seq<Entry>, p: Seq<char>, j: int)
    requires
        j == -1 ==> forall|k: int| 0 <= k < a.len() ==> a[k].0 != p,
        j != -1 ==> 0 <= j < a.len() && a[j].0 == p && forall|k: int| 0 <= k < j ==> a[k].0 != p,
    ensures
        entry_index_from(a, p, 0) == j,
{
    lemma_entry_index(a, p, 0);
    let r = entry_index_from(a, p, 0);
    if r != j {
        if r == -1 {
            assert(a[j].0 != p);
        } else if j == -1 {
            assert(a[r].0 != p);
        } else if r < j {
            assert(a[r].0 != p);
        } else {
            assert(a[j].0 != p);
        }
    }
}

/// What one declaration does to the value held for `p`.
proof fn lemma_apply_one(acc: Seq<Entry>, d: (Seq<char>, Seq<char>), sp: Specificity, p: Seq<char>)
    ensures
        lookup(apply_one(acc, d, sp), p) == if d.0 != p {
            lookup(acc, p)
        } else {
            match lookup(acc, p) {
                None => Some((d.1, sp)),
                Some(old) => if spec_le(old.1, sp) { Some((d.1, sp)) } else { Some(old) },
            }
        },
{
    lemma_entry_index(acc, d.0, 0);
    lemma_entry_index(acc, p, 0);
    let idx = entry_index_from(acc, d.0, 0);
    let ip = entry_index_from(acc, p, 0);
    let b = apply_one(acc, d, sp);
    if idx < 0 {
        if d.0 == p {
            lemma_entry_index_is(b, p, acc.len() as int);
        } else {
            assert forall|k: int| 0 <= k < b.len() && k != acc.len() implies b[k] == acc[k] by {}
            if ip == -1 {
                lemma_entry_index_is(b, p, -1);
            } else {
                lemma_entry_index_is(b, p, ip);
            }
        }
    } else if spec_le(acc[idx].2, sp) {
        assert forall|k: int| 0 <= k < b.len() implies b[k].0 == acc[k].0 by {}
        if ip == -1 {
            lemma_entry_index_is(b, p, -1);
        } else {
            lemma_entry_index_is(b, p, ip);
            if d.0 != p {
                assert(ip != idx);
            }
        }
    }
}

/// Declaration `d` of rule `r` sets `p` and the rule applies to the element.
pub open spec fn applies(rules: Seq<RuleModel>, tag: Seq<char>, attrs: Seq<(Seq<char>, Seq<char>)>, p: Seq<char>, r: int, d: int) -> bool {
    &&& 0 <= r < rules.len()
    &&& rule_spec(rules[r], tag, attrs) is Some
    &&& 0 <= d < rules[r].declarations.len()
    &&& rules[r].declarations[d].0 == p
}

/// Declaration (`r1`, `d1`) is applied no later than (`r2`, `d2`): lower
/// specificity first, then earlier in the source.
pub open spec fn cascade_le(rules: Seq<RuleModel>, tag: Seq<char>, attrs: Seq<(Seq<char>, Seq<char>)>, r1: int, d1: int, r2: int, d2: int) -> bool {
    let s1 = rule_spec(rules[r1], tag, attrs)->0;
    let s2 = rule_spec(rules[r2], tag, attrs)->0;
    (spec_le(s1, s2) && s1 != s2) || (s1 == s2 && (r1 < r2 || (r1 == r2 && d1 <= d2)))
}

/// (`r`, `d`) comes before position (`rr`, `dd`) in the source.
pub open spec fn before(r: int, d: int, rr: int, dd: int) -> bool {
    r < rr || (r == rr && d < dd)
}

/// (`r`, `d`) is the declaration of `p` applied last among those before
/// (`rr`, `dd`).
pub open spec fn is_last(rules: Seq<RuleModel>, tag: Seq<char>, attrs: Seq<(Seq<char>, Seq<char>)>, p: Seq<char>, rr: int, dd: int, r: int, d: int) -> bool {
    &&& before(r, d, rr, dd)
    &&& applies(rules, tag, attrs, p, r, d)
    &&& forall|r2: int, d2: int|
        before(r2, d2, rr, dd) && #[trigger] applies(rules, tag, attrs, p, r2, d2) ==> cascade_le(
            rules,
            tag,
            attrs,
            r2,
            d2,
            r,
            d,
        )
}

/// `res` is what the declarations before (`rr`, `dd`) leave for `p`: nothing
/// when none of them sets it, else the value and specificity of the one
/// applied last.
pub open spec fn cascaded(rules: Seq<RuleModel>, tag: Seq<char>, attrs: Seq<(Seq<char>, Seq<char>)>, p: Seq<char>, rr: int, dd: int, res: Option<(Seq<char>, Specificity)>) -> bool {
    match res {
        None => forall|r: int, d: int| before(r, d, rr, dd) ==> !#[trigger] applies(rules, tag, attrs, p, r, d),
        Some(e) => exists|r: int, d: int|
            #[trigger] is_last(rules, tag, attrs, p, rr, dd, r, d) && e.0 == rules[r].declarations[d].1 && e.1
                == rule_spec(rules[r], tag, attrs)->0,
    }
}

proof fn lemma_cascade_decls(
    rules: Seq<RuleModel>,
    tag: Seq<char>,
    attrs: Seq<(Seq<char>, Seq<char>)>,
    p: Seq<char>,
    rr: int,
    k: int,
    acc: Seq<Entry>,
)
    requires
        0 <= rr < rules.len(),
        rule_spec(rules[rr], tag, attrs) is Some,
        0 <= k <= rules[rr].declarations.len(),
        cascaded(rules, tag, attrs, p, rr, k, lookup(acc, p)),
    ensures
        cascaded(
            rules,
            tag,
            attrs,
            p,
            rr + 1,
            0,
            lookup(apply_decls(rules[rr].declarations, k, rule_spec(rules[rr], tag, attrs)->0, acc), p),
        ),
    decreases rules[rr].declarations.len() - k,
{
    let ds = rules[rr].declarations;
    let sp = rule_spec(rules[rr], tag, attrs)->0;
    if k >= ds.len() {
        match lookup(acc, p) {
            None => {
                assert forall|r: int, d: int| before(r, d, rr + 1, 0) implies !#[trigger] applies(rules, tag, attrs, p, r, d) by {
                    if applies(rules, tag, attrs, p, r, d) {
                        assert(before(r, d, rr, k));
                    }
                }
            },
            Some(e) => {
                let (r, d) = choose|r: int, d: int|
                    #[trigger] is_last(rules, tag, attrs, p, rr, k, r, d) && e.0 == rules[r].declarations[d].1
                        && e.1 == rule_spec(rules[r], tag, attrs)->0;
                assert forall|r2: int, d2: int|
                    before(r2, d2, rr + 1, 0) && #[trigger] applies(rules, tag, attrs, p, r2, d2) implies cascade_le(
                        rules,
                        tag,
                        attrs,
                        r2,
                        d2,
                        r,
                        d,
                    ) by {
                    assert(before(r2, d2, rr, k));
                }
                assert(is_last(rules, tag, attrs, p, rr + 1, 0, r, d));
            },
        }
    } else {
        let acc2 = apply_one(acc, ds[k], sp);
        lemma_apply_one(acc, ds[k], sp, p);
        if ds[k].0 != p {
            match lookup(acc, p) {
                None => {
                    assert forall|r: int, d: int| before(r, d, rr, k + 1) implies !#[trigger] applies(rules, tag, attrs, p, r, d) by {
                        if r == rr && d == k {
                        } else {
                            assert(before(r, d, rr, k));
                        }
                    }
                },
                Some(e) => {
                    let (r, d) = choose|r: int, d: int|
                        #[trigger] is_last(rules, tag, attrs, p, rr, k, r, d) && e.0 == rules[r].declarations[d].1
                            && e.1 == rule_spec(rules[r], tag, attrs)->0;
                    assert forall|r2: int, d2: int|
                        before(r2, d2, rr, k + 1) && #[trigger] applies(rules, tag, attrs, p, r2, d2) implies cascade_le(
                            rules,
                            tag,
                            attrs,
                            r2,
                            d2,
                            r,
                            d,
                        ) by {
                        if !(r2 == rr && d2 == k) {
                            assert(before(r2, d2, rr, k));
                        }
                    }
                    assert(is_last(rules, tag, attrs, p, rr, k + 1, r, d));
                },
            }
        } else {
            assert(applies(rules, tag, attrs, p, rr, k));
            match lookup(acc, p) {
                None => {
                    assert forall|r2: int, d2: int|
                        before(r2, d2, rr, k + 1) && #[trigger] applies(rules, tag, attrs, p, r2, d2) implies cascade_le(
                            rules,
                            tag,
                            attrs,
                            r2,
                            d2,
                            rr,
                            k,
                        ) by {
                        if !(r2 == rr && d2 == k) {
                            assert(before(r2, d2, rr, k));
                        }
                    }
                    assert(is_last(rules, tag, attrs, p, rr, k + 1, rr, k));
                },
                Some(e) => {
                    let (r, d) = choose|r: int, d: int|
                        #[trigger] is_last(rules, tag, attrs, p, rr, k, r, d) && e.0 == rules[r].declarations[d].1
                            && e.1 == rule_spec(rules[r], tag, attrs)->0;
                    if spec_le(e.1, sp) {
                        assert forall|r2: int, d2: int|
                            before(r2, d2, rr, k + 1) && #[trigger] applies(rules, tag, attrs, p, r2, d2) implies cascade_le(
                                rules,
                                tag,
                                attrs,
                                r2,
                                d2,
                                rr,
                                k,
                            ) by {
                            if !(r2 == rr && d2 == k) {
                                assert(before(r2, d2, rr, k));
                                assert(cascade_le(rules, tag, attrs, r2, d2, r, d));
                            }
                        }
                        assert(is_last(rules, tag, attrs, p, rr, k + 1, rr, k));
                    } else {
                        assert forall|r2: int, d2: int|
                            before(r2, d2, rr, k + 1) && #[trigger] applies(rules, tag, attrs, p, r2, d2) implies cascade_le(
                                rules,
                                tag,
                                attrs,
                                r2,
                                d2,
                                r,
                                d,
                            ) by {
                            if !(r2 == rr && d2 == k) {
                                assert(before(r2, d2, rr, k));
                            }
                        }
                        assert(is_last(rules, tag, attrs, p, rr, k + 1, r, d));
                    }
                },
            }
        }
        lemma_cascade_decls(rules, tag, attrs, p, rr, k + 1, acc2);
    }
}

proof fn lemma_cascade_rules(
    rules: Seq<RuleModel>,
    tag: Seq<char>,
    attrs: Seq<(Seq<char>, Seq<char>)>,
    p: Seq<char>,
    rr: int,
    acc: Seq<Entry>,
)
    requires
        0 <= rr <= rules.len(),
        cascaded(rules, tag, attrs, p, rr, 0, lookup(acc, p)),
    ensures
        cascaded(rules, tag, attrs, p, rules.len() as int, 0, lookup(cascade_from(rules, rr, tag, attrs, acc), p)),
    decreases rules.len() - rr,
{
    if rr < rules.len() {
        match rule_spec(rules[rr], tag, attrs) {
            None => {
                match lookup(acc, p) {
                    None => {
                        assert forall|r: int, d: int| before(r, d, rr + 1, 0) implies !#[trigger] applies(rules, tag, attrs, p, r, d) by {
                            if r < rr {
                                assert(before(r, d, rr, 0));
                            }
                        }
                    },
                    Some(e) => {
                        let (r, d) = choose|r: int, d: int|
                            #[trigger] is_last(rules, tag, attrs, p, rr, 0, r, d) && e.0 == rules[r].declarations[d].1
                                && e.1 == rule_spec(rules[r], tag, attrs)->0;
                        assert forall|r2: int, d2: int|
                            before(r2, d2, rr + 1, 0) && #[trigger] applies(rules, tag, attrs, p, r2, d2) implies cascade_le(
                                rules,
                                tag,
                                attrs,
                                r2,
                                d2,
                                r,
                                d,
                            ) by {
                            assert(before(r2, d2, rr, 0));
                        }
                        assert(is_last(rules, tag, attrs, p, rr + 1, 0, r, d));
                    },
                }
                lemma_cascade_rules(rules, tag, attrs, p, rr + 1, acc);
            },
            Some(sp) => {
                lemma_cascade_decls(rules, tag, attrs, p, rr, 0, acc);
                lemma_cascade_rules(rules, tag, attrs, p, rr + 1, apply_decls(rules[rr].declarations, 0, sp, acc));
            },
        }
    }
}

/// The cascade: the value an element gets for property `p` is that of the
/// matching declaration with the greatest specificity, the latest in source
/// order among equals; no value when no matching rule sets `p`.
pub proof fn lemma_cascade_picks_greatest(
    rules: Seq<RuleModel>,
    tag: Seq<char>,
    attrs: Seq<(Seq<char>, Seq<char>)>,
    p: Seq<char>,
)
    ensures
        cascaded(rules, tag, attrs, p, rules.len() as int, 0, lookup(cascade_from(rules, 0, tag, attrs, Seq::empty()), p)),
{
    let e = Seq::<Entry>::empty();
    assert(lookup(e, p) is None);
    assert forall|r: int, d: int| before(r, d, 0, 0) implies !#[trigger] applies(rules, tag, attrs, p, r, d) by {}
    lemma_cascade_rules(rules, tag, attrs, p, 0, e);
}

pub open spec fn strip(acc: Seq<Entry>) -> Seq<(Seq<char>, Seq<char>)> {
    acc.map_values(|e: Entry| (e.0, e.1))
}

/// Properties that a node takes from its parent when no rule sets them.
pub open spec fn is_inherited(name: Seq<char>) -> bool {
    name == "color"@ || name == "font-family"@ || name == "font-size"@ || name == "font-style"@
        || name == "font-weight"@ || name == "line-height"@ || name == "text-align"@
}

/// The parent's inherited properties from `k` on that `own` does not set,
/// appended to `own`.
pub open spec fn inherit_from(parent: Seq<(Seq<char>, Seq<char>)>, k: int, own: Seq<(Seq<char>, Seq<char>)>) -> Seq<(Seq<char>, Seq<char>)>
    decreases parent.len() - k,
{
    if k < 0 || k >= parent.len() {
        own
    } else if is_inherited(parent[k].0) && attr_index(own, parent[k].0) < 0 {
        inherit_from(parent, k + 1, own.push(parent[k]))
    } else {
        inherit_from(parent, k + 1, own)
    }
}

/// The computed properties of a node whose parent has `parent` properties.
pub open spec fn node_props(n: DomNode, rules: Seq<RuleModel>, parent: Seq<(Seq<char>, Seq<char>)>) -> Seq<(Seq<char>, Seq<char>)> {
    let own = match n.kind {
        DomKind::Element(tag) => strip(cascade_from(rules, 0, tag, n.attrs, Seq::empty())),
        _ => Seq::empty(),
    };
    inherit_from(parent, 0, own)
}

/// The style tree of the subtree `n`.
pub open spec fn style_tree(n: DomNode, rules: Seq<RuleModel>, parent: Seq<(Seq<char>, Seq<char>)>) -> StyleModel
    decreases n,
{
    let props = node_props(n, rules, parent);
    StyleModel {
        props,
        children: Seq::new(
            n.children.len(),
            |i: int|
                if 0 <= i < n.children.len() {
                    style_tree(n.children[i], rules, props)
                } else {
                    empty_style()
                },
        ),
    }
}

pub open spec fn entries_view(v: Seq<(String, String, Specificity)>) -> Seq<Entry> {
    v.map_values(|e: (String, String, Specificity)| (e.0@, e.1@, e.2))
}

fn le_exec(a: Specificity, b: Specificity) -> (r: bool)
    ensures
        r == spec_le(a, b),
{
    a.ids < b.ids || (a.ids == b.ids && (a.classes < b.classes || (a.classes == b.classes && a.tags <= b.tags)))
}

/// Whether `t[a..a + c.len()]` equals `c`.
pub(crate) fn equal_at(t: &Vec<char>, a: usize, c: &Vec<char>) -> (r: bool)
    requires
        a + c@.len() <= t@.len(),
    ensures
        r == (t@.subrange(a as int, a + c@.len()) == c@),
{
    let tl = t.len();
    let mut k: usize = 0;
    while k < c.len()
        invariant
            tl == t@.len(),
            a + c@.len() <= t@.len(),
            k <= c@.len(),
            forall|j: int| 0 <= j < k ==> t@[a + j] == c@[j],
        decreases c@.len() - k,
    {
        if t[a + k] != c[k] {
            assert(t@.subrange(a as int, a + c@.len())[k as int] != c@[k as int]);
            return false;
        }
        k += 1;
    }
    assert(t@.subrange(a as int, a + c@.len()) =~= c@);
    true
}

fn has_class_exec(cls: &Option<String>, c: &String) -> (r: bool)
    ensures
        r == has_class(crate::css::opt_view(*cls), c@),
{
    match cls {
        None => false,
        Some(s) => {
            let t = chars_of(s.as_str());
            let cc = chars_of(c.as_str());
            if cc.len() == 0 || cc.len() > t.len() {
                return false;
            }
            let tl = t.len();
            let last = tl - cc.len();
            let mut a: usize = 0;
            while a <= last
                invariant
                    tl == t@.len(),
                    crate::css::opt_view(*cls) == Some(s@),
                    t@ == s@,
                    cc@ == c@,
                    cc@.len() > 0,
                    last == t@.len() - cc@.len(),
                    forall|b: int| 0 <= b < a ==> !word_at(t@, b, cc@),
                decreases last + 1 - a,
            {
                if equal_at(&t, a, &cc) && (a == 0 || is_ws_exec(t[a - 1])) && (a + cc.len() == t.len()
                    || is_ws_exec(t[a + cc.len()])) {
                    assert(word_at(s@, a as int, c@));
                    assert(crate::css::opt_view(*cls) == Some(s@));
                    let ghost w = a as int;
                    assert(word_at(crate::css::opt_view(*cls)->0, w, c@));
                    return true;
                }
                a += 1;
            }
            assert forall|b: int| !word_at(t@, b, cc@) by {
                if 0 <= b < a {
                }
            }
            false
        },
    }
}

fn sel_matches_exec(sel: &Selector, tag: &String, node: &Node) -> (r: bool)
    ensures
        r == sel_matches(sel@, tag@, node@.attrs),
{
    let tag_ok = match &sel.tag_name {
        None => true,
        Some(t) => *t == *tag,
    };
    let id_ok = match &sel.id {
        None => true,
        Some(i) => match node.get_attribute("id") {
            None => false,
            Some(v) => v == *i,
        },
    };
    if !tag_ok || !id_ok {
        return false;
    }
    let cls = node.get_attribute("class");
    assert(crate::css::opt_view(cls) == attr_get(node@.attrs, "class"@));
    let n = sel.classes.len();
    let mut k: usize = 0;
    while k < n
        invariant
            n == sel.classes@.len(),
            k <= n,
            crate::css::opt_view(cls) == attr_get(node@.attrs, "class"@),
            forall|j: int| 0 <= j < k ==> has_class(attr_get(node@.attrs, "class"@), #[trigger] sel@.classes[j]),
        decreases n - k,
    {
        if !has_class_exec(&cls, &sel.classes[k]) {
            assert(!has_class(attr_get(node@.attrs, "class"@), sel@.classes[k as int]));
            return false;
        }
        k += 1;
    }
    true
}

fn rule_spec_exec(rule: &Rule, tag: &String, node: &Node) -> (r: Option<Specificity>)
    ensures
        r == rule_spec(rule@, tag@, node@.attrs),
{
    let ghost sels = rule@.selectors;
    let n = rule.selectors.len();
    let mut best: Option<Specificity> = None;
    let mut k: usize = 0;
    while k < n
        invariant
            n == sels.len(),
            sels == rule@.selectors,
            k <= n,
            best_from(sels, k as int, tag@, node@.attrs, best) == rule_spec(rule@, tag@, node@.attrs),
        decreases n - k,
    {
        let sel = &rule.selectors[k];
        assert(sels[k as int] == sel@);
        if sel_matches_exec(sel, tag, node) {
            let sp = Specificity {
                ids: if sel.id.is_some() { 1 } else { 0 },
                classes: sel.classes.len() as u64,
                tags: if sel.tag_name.is_some() { 1 } else { 0 },
            };
            best = match best {
                Some(b) => if le_exec(b, sp) { Some(sp) } else { Some(b) },
                None => Some(sp),
            };
        }
        k += 1;
    }
    best
}

fn apply_one_exec(acc: &mut Vec<(String, String, Specificity)>, d: &Declaration, sp: Specificity)
    ensures
        entries_view(final(acc)@) == apply_one(entries_view(old(acc)@), d@, sp),
{
    let ghost v = entries_view(acc@);
    let n = acc.len();
    let mut i: usize = 0;
    while i < n && !(acc[i].0 == d.name)
        invariant
            n == acc@.len(),
            v == entries_view(acc@),
            v.len() == n,
            acc@ == old(acc)@,
            i <= n,
            entry_index_from(v, d@.0, i as int) == entry_index_from(v, d@.0, 0),
        decreases n - i,
    {
        assert(v[i as int].0 == acc@[i as int].0@);
        i += 1;
    }
    if i < n {
        assert(v[i as int] == (acc@[i as int].0@, acc@[i as int].1@, acc@[i as int].2));
        if le_exec(acc[i].2, sp) {
            acc.set(i, (d.name.clone(), d.value.clone(), sp));
            proof {
                assert(entries_view(acc@) =~= v.update(i as int, (d@.0, d@.1, sp)));
            }
        }
    } else {
        acc.push((d.name.clone(), d.value.clone(), sp));
        proof {
            assert(entries_view(acc@) =~= v.push((d@.0, d@.1, sp)));
        }
    }
}

fn cascade_exec(sheet: &StyleSheet, tag: &String, node: &Node) -> (r: Vec<(String, String, Specificity)>)
    ensures
        entries_view(r@) == cascade_from(sheet@, 0, tag@, node@.attrs, Seq::empty()),
{
    let ghost rules = sheet@;
    let mut acc: Vec<(String, String, Specificity)> = Vec::new();
    proof { assert(entries_view(acc@) =~= Seq::<Entry>::empty()); }
    let n = sheet.rules.len();
    let mut r: usize = 0;
    while r < n
        invariant
            rules == sheet@,
            n == rules.len(),
            r <= n,
            cascade_from(rules, r as int, tag@, node@.attrs, entries_view(acc@)) == cascade_from(rules, 0, tag@, node@.attrs, Seq::empty()),
        decreases n - r,
    {
        let rule = &sheet.rules[r];
        assert(rules[r as int] == rule@);
        match rule_spec_exec(rule, tag, node) {
            None => {},
            Some(sp) => {
                let ghost ds = rule@.declarations;
                let m = rule.declarations.len();
                let mut k: usize = 0;
                let ghost start = entries_view(acc@);
                while k < m
                    invariant
                        ds == rule@.declarations,
                        m == ds.len(),
                        k <= m,
                        apply_decls(ds, k as int, sp, entries_view(acc@)) == apply_decls(ds, 0, sp, start),
                    decreases m - k,
                {
                    assert(ds[k as int] == rule.declarations@[k as int]@);
                    apply_one_exec(&mut acc, &rule.declarations[k], sp);
                    k += 1;
                }
            },
        }
        r += 1;
    }
    acc
}

fn is_inherited_exec(name: &String) -> (r: bool)
    ensures
        r == is_inherited(name@),
{
    *name == String::from_str("color") || *name == String::from_str("font-family") || *name
        == String::from_str("font-size") || *name == String::from_str("font-style") || *name
        == String::from_str("font-weight") || *name == String::from_str("line-height") || *name
        == String::from_str("text-align")
}

/// Whether a property named `name` is in `v`.
fn has_prop(v: &Vec<(String, String)>, name: &String) -> (r: bool)
    ensures
        r == (attr_index(attrs_view(v@), name@) >= 0),
{
    let ghost a = attrs_view(v@);
    let n = v.len();
    let mut i: usize = 0;
    proof { lemma_attr_index_from(a, name@, 0); }
    while i < n && !(v[i].0 == *name)
        invariant
            n == v@.len(),
            a == attrs_view(v@),
            a.len() == n,
            i <= n,
            attr_index_from(a, name@, i as int) == attr_index(a, name@),
        decreases n - i,
    {
        assert(a[i as int].0 == v@[i as int].0@);
        i += 1;
    }
    if i < n {
        assert(a[i as int].0 == v@[i as int].0@);
    }
    i < n
}

fn node_props_exec(node: &Node, sheet: &StyleSheet, parent: &Vec<(String, String)>) -> (r: Vec<(String, String)>)
    ensures
        attrs_view(r@) == node_props(node@, sheet@, attrs_view(parent@)),
{
    let mut own: Vec<(String, String)> = Vec::new();
    match &node.node_type {
        NodeType::Element(tag) => {
            let entries = cascade_exec(sheet, tag, node);
            let m = entries.len();
            let mut k: usize = 0;
            while k < m
                invariant
                    m == entries@.len(),
                    k <= m,
                    own@.len() == k,
                    attrs_view(own@) == strip(entries_view(entries@)).subrange(0, k as int),
                decreases m - k,
            {
                let ghost before = attrs_view(own@);
                own.push((entries[k].0.clone(), entries[k].1.clone()));
                assert(strip(entries_view(entries@))[k as int] == (entries@[k as int].0@, entries@[k as int].1@));
                assert(attrs_view(own@) =~= before.push((entries@[k as int].0@, entries@[k as int].1@)));
                assert(attrs_view(own@) =~= strip(entries_view(entries@)).subrange(0, k + 1));
                k += 1;
            }
            assert(attrs_view(own@) =~= strip(entries_view(entries@)));
        },
        _ => {
            assert(attrs_view(own@) =~= Seq::<(Seq<char>, Seq<char>)>::empty());
        },
    }
    let ghost pa = attrs_view(parent@);
    let ghost start = attrs_view(own@);
    let n = parent.len();
    let mut k: usize = 0;
    while k < n
        invariant
            pa == attrs_view(parent@),
            n == pa.len(),
            k <= n,
            inherit_from(pa, k as int, attrs_view(own@)) == inherit_from(pa, 0, start),
        decreases n - k,
    {
        assert(pa[k as int] == (parent@[k as int].0@, parent@[k as int].1@));
        if is_inherited_exec(&parent[k].0) && !has_prop(&own, &parent[k].0) {
            let ghost before = attrs_view(own@);
            own.push((parent[k].0.clone(), parent[k].1.clone()));
            assert(attrs_view(own@) =~= before.push(pa[k as int]));
        }
        k += 1;
    }
    own
}

fn style_tree_exec(node: &Node, sheet: &StyleSheet, parent: &Vec<(String, String)>) -> (r: StyleTree)
    ensures
        r@ == style_tree(node@, sheet@, attrs_view(parent@)),
    decreases node,
{
    let props = node_props_exec(node, sheet, parent);
    let mut children: Vec<StyleTree> = Vec::new();
    let n = node.children.len();
    let mut i: usize = 0;
    while i < n
        invariant
            n == node.children@.len(),
            i <= n,
            children@.len() == i,
            forall|j: int| 0 <= j < i ==> (#[trigger] children@[j])@ == style_tree(node@.children[j], sheet@, attrs_view(props@)),
        decreases n - i,
    {
        let c = style_tree_exec(&node.children[i], sheet, &props);
        children.push(c);
        i += 1;
    }
    let r = StyleTree { style: ComputedStyle { properties: props }, children };
    proof {
        assert(r@.children =~= style_tree(node@, sheet@, attrs_view(parent@)).children);
    }
    r
}

/// Resolves the computed style of every node of the tree `root` under
/// `sheet`. The result has the shape of the tree.
pub fn resolve(root: &Node, sheet: &StyleSheet) -> (r: StyleTree)
    ensures
        r@ == style_tree(root@, sheet@, Seq::empty()),
{
    let none: Vec<(String, String)> = Vec::new();
    proof { assert(attrs_view(none@) =~= Seq::<(Seq<char>, Seq<char>)>::empty()); }
    style_tree_exec(root, sheet, &none)
}

impl ComputedStyle {
    /// The value of property `name`, if set.
    pub fn get(&self, name: &str) -> (r: Option<String>)
        ensures
            crate::css::opt_view(r) == attr_get(attrs_view(self.properties@), name@),
    {
        let ghost a = attrs_view(self.properties@);
        let k = String::from_str(name);
        let n = self.properties.len();
        let mut i: usize = 0;
        proof { lemma_attr_index_from(a, name@, 0); }
        while i < n && !(self.properties[i].0 == k)
            invariant
                n == self.properties@.len(),
                a == attrs_view(self.properties@),
                a.len() == n,
                k@ == name@,
                i <= n,
                attr_index_from(a, name@, i as int) == attr_index(a, name@),
            decreases n - i,
        {
            assert(a[i as int].0 == self.properties@[i as int].0@);
            i += 1;
        }
        if i < n {
            assert(a[i as int] == (self.properties@[i as int].0@, self.properties@[i as int].1@));
            Some(self.properties[i].1.clone())
        } else {
            None
        }
    }
}

} // verus!
