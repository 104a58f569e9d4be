//! Tolerant markup parser: tags drive a stack of open elements; unmatched
//! closing tags are ignored and open elements are closed at end of input.
use vstd::prelude::*;
use crate::dom::{
    Node, NodeType, DomNode, DomKind, attr_set, attr_index, nodes_view, dom_wf, keys_unique, lemma_attr_set,
    lemma_attr_index_from,
};
use crate::text::{
    is_ws, is_ws_exec, all_blank, find_in, lemma_find_in_bounds, find_in_exec, string_of,
    all_blank_exec,
};

verus! {

/// A character that may stand in a tag or attribute name.
pub open spec fn is_name_char(c: char) -> bool {
    !is_ws(c) && c != '/' && c != '=' && c != '>' && c != '<'
}

/// End of the run of name characters that starts at `i`, before `end`.
pub open spec fn name_end(s: Seq<char>, i: int, end: int) -> int
    decreases end - i,
{
    if i >= end || !is_name_char(s[i]) {
        i
    } else {
        name_end(s, i + 1, end)
    }
}

/// End of the run of non-whitespace characters that starts at `i`, before `end`.
pub open spec fn word_end(s: Seq<char>, i: int, end: int) -> int
    decreases end - i,
{
    if i >= end || is_ws(s[i]) {
        i
    } else {
        word_end(s, i + 1, end)
    }
}

pub proof fn lemma_name_end(s: Seq<char>, i: int, end: int)
    requires
        i <= end,
    ensures
        i <= name_end(s, i, end) <= end,
    decreases end - i,
{
    if i < end && is_name_char(s[i]) {
        lemma_name_end(s, i + 1, end);
    }
}

pub proof fn lemma_word_end(s: Seq<char>, i: int, end: int)
    requires
        i <= end,
    ensures
        i <= word_end(s, i, end) <= end,
    decreases end - i,
{
    if i < end && !is_ws(s[i]) {
        lemma_word_end(s, i + 1, end);
    }
}

/// Attributes of a tag whose text after the name is `s[p..end]`, applied in
/// order to `acc`: `name`, `name=value`, `name="value"` or `name='value'`,
/// separated by whitespace; a later duplicate replaces an earlier value.
pub open spec fn scan_attrs(s: Seq<char>, p: int, end: int, acc: Seq<(Seq<char>, Seq<char>)>) -> Seq<
    (Seq<char>, Seq<char>),
>
    decreases end - p,
{
    if p >= end {
        acc
    } else if !is_name_char(s[p]) {
        scan_attrs(s, p + 1, end, acc)
    } else {
        let ne = name_end(s, p, end);
        let name = s.subrange(p, ne);
        if ne <= p || ne > end {
            acc
        } else if ne < end && s[ne] == '=' {
            let v = ne + 1;
            if v < end && (s[v] == '"' || s[v] == '\'') {
                let close = find_in(s, v + 1, end, s[v]);
                let next = if close < end {
                    close + 1
                } else {
                    end
                };
                if close < v + 1 {
                    acc
                } else {
                    scan_attrs(s, next, end, attr_set(acc, name, s.subrange(v + 1, close)))
                }
            } else {
                let ve = word_end(s, v, end);
                if ve < v || ve > end {
                    acc
                } else {
                    scan_attrs(s, ve, end, attr_set(acc, name, s.subrange(v, ve)))
                }
            }
        } else {
            scan_attrs(s, ne, end, attr_set(acc, name, Seq::empty()))
        }
    }
}

/// Tags that never hold content and so are never left open.
pub open spec fn is_void(name: Seq<char>) -> bool {
    name == "br"@ || name == "img"@ || name == "hr"@ || name == "input"@ || name == "meta"@
        || name == "link"@ || name == "area"@ || name == "base"@ || name == "col"@ || name
        == "embed"@ || name == "source"@ || name == "track"@ || name == "wbr"@
}

/// `child` appended to the children of the top of the stack.
pub open spec fn append_top(st: Seq<DomNode>, child: DomNode) -> Seq<DomNode> {
    st.update(st.len() - 1, DomNode { children: st.last().children.push(child), ..st.last() })
}

/// The top of the stack closed: it becomes the last child of the node below.
pub open spec fn pop_into_parent(st: Seq<DomNode>) -> Seq<DomNode> {
    append_top(st.drop_last(), st.last())
}

/// Close open nodes until the stack holds `k` of them (never the root).
pub open spec fn close_to(st: Seq<DomNode>, k: int) -> Seq<DomNode>
    decreases st.len(),
{
    if st.len() > k && st.len() >= 2 {
        close_to(pop_into_parent(st), k)
    } else {
        st
    }
}

/// Position of the nearest open element named `name` at or below `k`; `0`
/// when there is none (position 0 is the document).
pub open spec fn open_index(st: Seq<DomNode>, name: Seq<char>, k: int) -> int
    decreases k,
{
    if k < 1 {
        0
    } else if st[k].kind == DomKind::Element(name) {
        k
    } else {
        open_index(st, name, k - 1)
    }
}

/// A closing tag closes the nearest open element of that name and all
/// elements opened after it; without such an element it is ignored.
pub open spec fn close_tag(st: Seq<DomNode>, name: Seq<char>) -> Seq<DomNode> {
    let k = open_index(st, name, st.len() - 1);
    if k >= 1 {
        close_to(st, k)
    } else {
        st
    }
}

pub open spec fn elem_node(name: Seq<char>, attrs: Seq<(Seq<char>, Seq<char>)>) -> DomNode {
    DomNode { kind: DomKind::Element(name), attrs, children: Seq::empty() }
}

pub open spec fn text_node(t: Seq<char>) -> DomNode {
    DomNode { kind: DomKind::Text(t), attrs: Seq::empty(), children: Seq::empty() }
}

/// Text `t` added to the stack, unless trimming leaves nothing of it (every
/// character has the Unicode White_Space property).
pub open spec fn add_text(st: Seq<DomNode>, t: Seq<char>) -> Seq<DomNode> {
    if all_blank(t) {
        st
    } else {
        append_top(st, text_node(t))
    }
}

/// Position after the `-->` that closes a comment whose text starts at `k`;
/// the end of the input when the comment is not closed.
pub open spec fn comment_close(s: Seq<char>, k: int) -> int
    decreases s.len() - k,
{
    if k + 2 >= s.len() {
        s.len() as int
    } else if s[k] == '-' && s[k + 1] == '-' && s[k + 2] == '>' {
        k + 3
    } else {
        comment_close(s, k + 1)
    }
}

pub proof fn lemma_comment_close(s: Seq<char>, k: int)
    requires
        0 <= k <= s.len(),
    ensures
        k <= comment_close(s, k) <= s.len(),
    decreases s.len() - k,
{
    if k + 2 < s.len() && !(s[k] == '-' && s[k + 1] == '-' && s[k + 2] == '>') {
        lemma_comment_close(s, k + 1);
    }
}

/// One step of the parser at position `i`: the new stack and the next position.
pub open spec fn step(s: Seq<char>, i: int, st: Seq<DomNode>) -> (Seq<DomNode>, int) {
    let n = s.len() as int;
    if s[i] != '<' {
        let k = find_in(s, i, n, '<');
        (add_text(st, s.subrange(i, k)), k)
    } else if i + 3 < n && s[i + 1] == '!' && s[i + 2] == '-' && s[i + 3] == '-' {
        (st, comment_close(s, i + 4))
    } else {
        let j = find_in(s, i + 1, n, '>');
        if j >= n {
            (add_text(st, s.subrange(i, n)), n)
        } else if i + 1 < j && s[i + 1] == '/' {
            (close_tag(st, s.subrange(i + 2, name_end(s, i + 2, j))), j + 1)
        } else if i + 1 < j && (s[i + 1] == '!' || s[i + 1] == '?') {
            (st, j + 1)
        } else {
            let ne = name_end(s, i + 1, j);
            if ne <= i + 1 {
                (st, j + 1)
            } else {
                let name = s.subrange(i + 1, ne);
                let e = elem_node(name, scan_attrs(s, ne, j, Seq::empty()));
                if s[j - 1] == '/' || is_void(name) {
                    (append_top(st, e), j + 1)
                } else {
                    (st.push(e), j + 1)
                }
            }
        }
    }
}

pub proof fn lemma_step_advances(s: Seq<char>, i: int, st: Seq<DomNode>)
    requires
        0 <= i < s.len(),
    ensures
        i < step(s, i, st).1 <= s.len(),
{
    let n = s.len() as int;
    lemma_find_in_bounds(s, i, n, '<');
    lemma_find_in_bounds(s, i + 1, n, '>');
    if i + 4 <= n {
        lemma_comment_close(s, i + 4);
    }
}

/// The parse of `s` from position `i` with open nodes `st`.
pub open spec fn parse_from(s: Seq<char>, i: int, st: Seq<DomNode>) -> DomNode
    decreases s.len() - i,
{
    if i < 0 || i >= s.len() {
        close_to(st, 1)[0]
    } else {
        let (st2, i2) = step(s, i, st);
        if i2 <= i || i2 > s.len() {
            close_to(st, 1)[0]
        } else {
            parse_from(s, i2, st2)
        }
    }
}

/// The document tree of markup text `s`.
pub open spec fn parse_html(s: Seq<char>) -> DomNode {
    parse_from(s, 0, seq![DomNode { kind: DomKind::Document, attrs: Seq::empty(), children: Seq::empty() }])
}

pub proof fn lemma_open_index(st: Seq<DomNode>, name: Seq<char>, k: int)
    requires
        k < st.len(),
    ensures
        0 <= open_index(st, name, k) <= if k < 0 { 0 } else { k },
    decreases k,
{
    if k >= 1 && st[k].kind != DomKind::Element(name) {
        lemma_open_index(st, name, k - 1);
    }
}

/// No text node of the subtree `n` is empty once trimmed.
pub open spec fn no_blank_text(n: DomNode) -> bool
    decreases n,
{
    &&& (n.kind is Text ==> !all_blank(n.kind->Text_0))
    &&& forall|i: int| 0 <= i < n.children.len() ==> no_blank_text(#[trigger] n.children[i])
}

pub open spec fn stack_ok(st: Seq<DomNode>) -> bool {
    forall|i: int| 0 <= i < st.len() ==> no_blank_text(#[trigger] st[i])
}

proof fn lemma_append_top_ok(st: Seq<DomNode>, child: DomNode)
    requires
        st.len() >= 1,
        stack_ok(st),
        no_blank_text(child),
    ensures
        stack_ok(append_top(st, child)),
        append_top(st, child).len() == st.len(),
{
    let top = st.last();
    let nt = DomNode { children: top.children.push(child), ..top };
    assert(no_blank_text(top));
    assert forall|i: int| 0 <= i < nt.children.len() implies no_blank_text(#[trigger] nt.children[i]) by {
        if i < top.children.len() {
            assert(nt.children[i] == top.children[i]);
        }
    }
    assert(no_blank_text(nt));
    let r = append_top(st, child);
    assert forall|i: int| 0 <= i < r.len() implies no_blank_text(#[trigger] r[i]) by {
        if i < st.len() - 1 {
            assert(r[i] == st[i]);
        }
    }
}

proof fn lemma_close_to_ok(st: Seq<DomNode>, k: int)
    requires
        st.len() >= 1,
        stack_ok(st),
    ensures
        stack_ok(close_to(st, k)),
        close_to(st, k).len() >= 1,
    decreases st.len(),
{
    if st.len() > k && st.len() >= 2 {
        let d = st.drop_last();
        assert(no_blank_text(st[st.len() - 1]));
        assert forall|i: int| 0 <= i < d.len() implies no_blank_text(#[trigger] d[i]) by {
            assert(d[i] == st[i]);
        }
        lemma_append_top_ok(d, st.last());
        lemma_close_to_ok(pop_into_parent(st), k);
    }
}

proof fn lemma_step_ok(s: Seq<char>, i: int, st: Seq<DomNode>)
    requires
        0 <= i < s.len(),
        st.len() >= 1,
        stack_ok(st),
    ensures
        stack_ok(step(s, i, st).0),
        step(s, i, st).0.len() >= 1,
{
    let n = s.len() as int;
    if s[i] != '<' {
        let k = find_in(s, i, n, '<');
        let t = s.subrange(i, k);
        if !all_blank(t) {
            assert(no_blank_text(text_node(t)));
            lemma_append_top_ok(st, text_node(t));
        }
    } else {
        let j = find_in(s, i + 1, n, '>');
        if j >= n {
            let t = s.subrange(i, n);
            if !all_blank(t) {
                assert(no_blank_text(text_node(t)));
                lemma_append_top_ok(st, text_node(t));
            }
        } else if i + 1 < j && s[i + 1] == '/' {
            let name = s.subrange(i + 2, name_end(s, i + 2, j));
            let k = open_index(st, name, st.len() - 1);
            if k >= 1 {
                lemma_close_to_ok(st, k);
            }
        } else if i + 1 < j && (s[i + 1] == '!' || s[i + 1] == '?') {
        } else {
            let ne = name_end(s, i + 1, j);
            if ne > i + 1 {
                let name = s.subrange(i + 1, ne);
                let e = elem_node(name, scan_attrs(s, ne, j, Seq::empty()));
                assert(no_blank_text(e));
                if s[j - 1] == '/' || is_void(name) {
                    lemma_append_top_ok(st, e);
                } else {
                    let r = st.push(e);
                    assert forall|q: int| 0 <= q < r.len() implies no_blank_text(#[trigger] r[q]) by {
                        if q < st.len() {
                            assert(r[q] == st[q]);
                        }
                    }
                }
            }
        }
    }
}

proof fn lemma_parse_from_ok(s: Seq<char>, i: int, st: Seq<DomNode>)
    requires
        st.len() >= 1,
        stack_ok(st),
    ensures
        no_blank_text(parse_from(s, i, st)),
    decreases s.len() - i,
{
    if i < 0 || i >= s.len() {
        lemma_close_to_ok(st, 1);
    } else {
        let (st2, i2) = step(s, i, st);
        if i2 <= i || i2 > s.len() {
            lemma_close_to_ok(st, 1);
        } else {
            lemma_step_ok(s, i, st);
            lemma_parse_from_ok(s, i2, st2);
        }
    }
}

/// Whitespace-only text never becomes a text node: every text node of a
/// parsed document holds a character that trimming keeps.
pub proof fn lemma_no_whitespace_text(s: Seq<char>)
    ensures
        no_blank_text(parse_html(s)),
{
    let root = DomNode { kind: DomKind::Document, attrs: Seq::empty(), children: Seq::empty() };
    let st = seq![root];
    assert(no_blank_text(root));
    assert(stack_ok(st));
    lemma_parse_from_ok(s, 0, st);
}

/// Every open node is well formed and can hold children.
pub open spec fn stack_wf(st: Seq<DomNode>) -> bool {
    forall|i: int| 0 <= i < st.len() ==> dom_wf(#[trigger] st[i]) && !(st[i].kind is Text)
}

proof fn lemma_scan_attrs_unique(s: Seq<char>, p: int, end: int, acc: Seq<(Seq<char>, Seq<char>)>)
    requires
        keys_unique(acc),
    ensures
        keys_unique(scan_attrs(s, p, end, acc)),
    decreases end - p,
{
    if p < end {
        if !is_name_char(s[p]) {
            lemma_scan_attrs_unique(s, p + 1, end, acc);
        } else {
            let ne = name_end(s, p, end);
            let name = s.subrange(p, ne);
            if !(ne <= p || ne > end) {
                if ne < end && s[ne] == '=' {
                    let v = ne + 1;
                    if v < end && (s[v] == '"' || s[v] == '\'') {
                        let close = find_in(s, v + 1, end, s[v]);
                        let next = if close < end { close + 1 } else { end };
                        if close >= v + 1 {
                            lemma_attr_set(acc, name, s.subrange(v + 1, close), name);
                            lemma_scan_attrs_unique(s, next, end, attr_set(acc, name, s.subrange(v + 1, close)));
                        }
                    } else {
                        let ve = word_end(s, v, end);
                        if !(ve < v || ve > end) {
                            lemma_attr_set(acc, name, s.subrange(v, ve), name);
                            lemma_scan_attrs_unique(s, ve, end, attr_set(acc, name, s.subrange(v, ve)));
                        }
                    }
                } else {
                    lemma_attr_set(acc, name, Seq::empty(), name);
                    lemma_scan_attrs_unique(s, ne, end, attr_set(acc, name, Seq::empty()));
                }
            }
        }
    }
}

proof fn lemma_append_top_wf(st: Seq<DomNode>, child: DomNode)
    requires
        st.len() >= 1,
        stack_wf(st),
        dom_wf(child),
    ensures
        stack_wf(append_top(st, child)),
{
    let top = st.last();
    let nt = DomNode { children: top.children.push(child), ..top };
    assert(dom_wf(top) && !(top.kind is Text));
    assert forall|i: int| 0 <= i < nt.children.len() implies dom_wf(#[trigger] nt.children[i]) by {
        if i < top.children.len() {
            assert(nt.children[i] == top.children[i]);
        }
    }
    assert(dom_wf(nt));
    let r = append_top(st, child);
    assert forall|i: int| 0 <= i < r.len() implies dom_wf(#[trigger] r[i]) && !(r[i].kind is Text) by {
        if i < st.len() - 1 {
            assert(r[i] == st[i]);
        }
    }
}

proof fn lemma_close_to_wf(st: Seq<DomNode>, k: int)
    requires
        st.len() >= 1,
        stack_wf(st),
    ensures
        stack_wf(close_to(st, k)),
        close_to(st, k).len() >= 1,
    decreases st.len(),
{
    if st.len() > k && st.len() >= 2 {
        let d = st.drop_last();
        assert(dom_wf(st[st.len() - 1]));
        assert forall|i: int| 0 <= i < d.len() implies dom_wf(#[trigger] d[i]) && !(d[i].kind is Text) by {
            assert(d[i] == st[i]);
        }
        lemma_append_top_wf(d, st.last());
        lemma_close_to_wf(pop_into_parent(st), k);
    }
}

proof fn lemma_step_wf(s: Seq<char>, i: int, st: Seq<DomNode>)
    requires
        0 <= i < s.len(),
        st.len() >= 1,
        stack_wf(st),
    ensures
        stack_wf(step(s, i, st).0),
        step(s, i, st).0.len() >= 1,
{
    let n = s.len() as int;
    if s[i] != '<' {
        let k = find_in(s, i, n, '<');
        let t = s.subrange(i, k);
        if !all_blank(t) {
            assert(dom_wf(text_node(t)));
            lemma_append_top_wf(st, text_node(t));
        }
    } else {
        let j = find_in(s, i + 1, n, '>');
        if j >= n {
            let t = s.subrange(i, n);
            if !all_blank(t) {
                assert(dom_wf(text_node(t)));
                lemma_append_top_wf(st, text_node(t));
            }
        } else if i + 1 < j && s[i + 1] == '/' {
            let name = s.subrange(i + 2, name_end(s, i + 2, j));
            let k = open_index(st, name, st.len() - 1);
            if k >= 1 {
                lemma_close_to_wf(st, k);
            }
        } else if i + 1 < j && (s[i + 1] == '!' || s[i + 1] == '?') {
        } else {
            let ne = name_end(s, i + 1, j);
            if ne > i + 1 {
                let name = s.subrange(i + 1, ne);
                lemma_scan_attrs_unique(s, ne, j, Seq::empty());
                let e = elem_node(name, scan_attrs(s, ne, j, Seq::empty()));
                assert(dom_wf(e));
                if s[j - 1] == '/' || is_void(name) {
                    lemma_append_top_wf(st, e);
                } else {
                    let r = st.push(e);
                    assert forall|q: int| 0 <= q < r.len() implies dom_wf(#[trigger] r[q]) && !(r[q].kind is Text) by {
                        if q < st.len() {
                            assert(r[q] == st[q]);
                        }
                    }
                }
            }
        }
    }
}

proof fn lemma_parse_from_wf(s: Seq<char>, i: int, st: Seq<DomNode>)
    requires
        st.len() >= 1,
        stack_wf(st),
    ensures
        dom_wf(parse_from(s, i, st)),
    decreases s.len() - i,
{
    if i < 0 || i >= s.len() {
        lemma_close_to_wf(st, 1);
    } else {
        let (st2, i2) = step(s, i, st);
        if i2 <= i || i2 > s.len() {
            lemma_close_to_wf(st, 1);
        } else {
            lemma_step_wf(s, i, st);
            lemma_parse_from_wf(s, i2, st2);
        }
    }
}

/// A parsed document is well formed: attribute names are unique on every
/// element and text nodes are leaves.
pub proof fn lemma_parse_wf(s: Seq<char>)
    ensures
        dom_wf(parse_html(s)),
{
    let root = DomNode { kind: DomKind::Document, attrs: Seq::empty(), children: Seq::empty() };
    let st = seq![root];
    assert(dom_wf(root));
    assert(stack_wf(st));
    lemma_parse_from_wf(s, 0, st);
}

/// A tag name that serializes and parses back unchanged: name characters
/// only, not starting like a comment or declaration, and not a void tag.
pub open spec fn valid_tag(name: Seq<char>) -> bool {
    &&& name.len() > 0
    &&& forall|k: int| 0 <= k < name.len() ==> is_name_char(#[trigger] name[k])
    &&& name[0] != '!'
    &&& name[0] != '?'
    &&& !is_void(name)
}

/// A text leaf that serializes and parses back unchanged: not whitespace
/// only, and without `<`.
pub open spec fn text_leaf(x: DomNode) -> bool {
    &&& x.kind is Text
    &&& !all_blank(x.kind->Text_0)
    &&& forall|k: int| 0 <= k < x.kind->Text_0.len() ==> #[trigger] x.kind->Text_0[k] != '<'
    &&& x.attrs == Seq::<(Seq<char>, Seq<char>)>::empty()
    &&& x.children == Seq::<DomNode>::empty()
}

/// An element tree with valid tag names and attributes, whose leaves
/// may be text; two text nodes are never siblings side by side (they would
/// read back as one).
pub open spec fn tag_tree(t: DomNode) -> bool
    decreases t,
{
    &&& t.kind is Element
    &&& valid_tag(t.kind->Element_0)
    &&& keys_unique(t.attrs)
    &&& forall|i: int| 0 <= i < t.attrs.len() ==> valid_attr(#[trigger] t.attrs[i])
    &&& forall|i: int| 0 <= i < t.children.len() ==> text_leaf(#[trigger] t.children[i]) || tag_tree(t.children[i])
    &&& forall|i: int| 0 <= i < t.children.len() - 1 ==> !(#[trigger] t.children[i].kind is Text && t.children[i + 1].kind is Text)
}

/// An attribute that is written `name="value"` and reads back unchanged:
/// a name of name characters, a value without `"` or `>`.
pub open spec fn valid_attr(a: (Seq<char>, Seq<char>)) -> bool {
    &&& a.0.len() > 0
    &&& forall|k: int| 0 <= k < a.0.len() ==> is_name_char(#[trigger] a.0[k])
    &&& forall|k: int| 0 <= k < a.1.len() ==> #[trigger] a.1[k] != '"' && a.1[k] != '>'
}

pub open spec fn attr_text(a: (Seq<char>, Seq<char>)) -> Seq<char> {
    seq![' '] + a.0 + seq!['=', '"'] + a.1 + seq!['"']
}

/// The first `k` attributes as they stand in a tag.
pub open spec fn attrs_text(attrs: Seq<(Seq<char>, Seq<char>)>, k: int) -> Seq<char>
    decreases k,
{
    if k <= 0 || k > attrs.len() {
        Seq::empty()
    } else {
        attrs_text(attrs, k - 1) + attr_text(attrs[k - 1])
    }
}

pub open spec fn open_text(name: Seq<char>, attrs: Seq<(Seq<char>, Seq<char>)>) -> Seq<char> {
    seq!['<'] + name + attrs_text(attrs, attrs.len() as int) + seq!['>']
}

pub open spec fn close_text(name: Seq<char>) -> Seq<char> {
    seq!['<', '/'] + name + seq!['>']
}

/// The markup of an element tree: its opening tag, its children, its
/// closing tag.
pub open spec fn serialize(t: DomNode) -> Seq<char>
    decreases t, 1int, 0int,
{
    match t.kind {
        DomKind::Element(name) => open_text(name, t.attrs) + serialize_kids(t, t.children.len() as int) + close_text(name),
        DomKind::Text(x) => x,
        DomKind::Document => Seq::empty(),
    }
}

/// The markup of the first `k` children of `t`.
pub open spec fn serialize_kids(t: DomNode, k: int) -> Seq<char>
    decreases t, 0int, k,
{
    if k <= 0 || k > t.children.len() {
        Seq::empty()
    } else {
        serialize_kids(t, k - 1) + serialize(t.children[k - 1])
    }
}

/// `kids` appended to the children of the top of the stack.
pub open spec fn add_kids(st: Seq<DomNode>, kids: Seq<DomNode>) -> Seq<DomNode> {
    st.update(st.len() - 1, DomNode { children: st.last().children + kids, ..st.last() })
}

proof fn lemma_split(s: Seq<char>, i: int, a: Seq<char>, b: Seq<char>)
    requires
        0 <= i,
        i + a.len() + b.len() <= s.len(),
        s.subrange(i, i + a.len() + b.len()) == a + b,
    ensures
        s.subrange(i, i + a.len()) == a,
        s.subrange(i + a.len(), i + a.len() + b.len()) == b,
{
    assert(s.subrange(i, i + a.len()) =~= (a + b).subrange(0, a.len() as int));
    assert(s.subrange(i + a.len(), i + a.len() + b.len()) =~= (a + b).subrange(a.len() as int, (a.len() + b.len()) as int));
}

proof fn lemma_find_at(s: Seq<char>, from: int, end: int, c: char, at: int)
    requires
        from <= at < end,
        s[at] == c,
        forall|k: int| from <= k < at ==> s[k] != c,
    ensures
        find_in(s, from, end, c) == at,
    decreases at - from,
{
    if from < at {
        lemma_find_at(s, from + 1, end, c, at);
    }
}

proof fn lemma_name_run(s: Seq<char>, from: int, end: int)
    requires
        from <= end,
        forall|k: int| from <= k < end ==> is_name_char(#[trigger] s[k]),
    ensures
        name_end(s, from, end) == end,
    decreases end - from,
{
    if from < end {
        lemma_name_run(s, from + 1, end);
    }
}

proof fn lemma_attrs_text_chars(attrs: Seq<(Seq<char>, Seq<char>)>, k: int)
    requires
        0 <= k <= attrs.len(),
        forall|i: int| 0 <= i < attrs.len() ==> valid_attr(#[trigger] attrs[i]),
    ensures
        forall|x: int| 0 <= x < attrs_text(attrs, k).len() ==> #[trigger] attrs_text(attrs, k)[x] != '>',
        k > 0 ==> attrs_text(attrs, k)[0] == ' ' && attrs_text(attrs, k).last() == '"',
    decreases k,
{
    if k > 0 {
        lemma_attrs_text_chars(attrs, k - 1);
        let a = attrs[k - 1];
        assert(valid_attr(a));
        let pre = attrs_text(attrs, k - 1);
        let t = attr_text(a);
        assert forall|x: int| 0 <= x < t.len() implies #[trigger] t[x] != '>' by {
            if 1 <= x < 1 + a.0.len() {
                assert(t[x] == a.0[x - 1]);
            } else if 3 + a.0.len() <= x < 3 + a.0.len() + a.1.len() {
                assert(t[x] == a.1[x - 3 - a.0.len()]);
            }
        }
        assert forall|x: int| 0 <= x < (pre + t).len() implies #[trigger] (pre + t)[x] != '>' by {
            if x < pre.len() {
                assert((pre + t)[x] == pre[x]);
            } else {
                assert((pre + t)[x] == t[x - pre.len()]);
            }
        }
        assert((pre + t)[0] == ' ') by {
            if pre.len() == 0 {
                assert((pre + t)[0] == t[0]);
            } else {
                assert((pre + t)[0] == pre[0]);
            }
        }
    }
}

proof fn lemma_name_stop(s: Seq<char>, a: int, b: int, end: int)
    requires
        a <= b < end,
        forall|k: int| a <= k < b ==> is_name_char(#[trigger] s[k]),
        !is_name_char(s[b]),
    ensures
        name_end(s, a, end) == b,
    decreases b - a,
{
    if a < b {
        lemma_name_stop(s, a + 1, b, end);
    }
}

/// Reading one written attribute at `q`.
proof fn lemma_scan_one(s: Seq<char>, q: int, end: int, acc: Seq<(Seq<char>, Seq<char>)>, a: (Seq<char>, Seq<char>))
    requires
        valid_attr(a),
        0 <= q,
        q + attr_text(a).len() <= end <= s.len(),
        s.subrange(q, q + attr_text(a).len()) == attr_text(a),
    ensures
        scan_attrs(s, q, end, acc) == scan_attrs(s, q + attr_text(a).len(), end, attr_set(acc, a.0, a.1)),
{
    let t = attr_text(a);
    let m = a.0.len() as int;
    let w = a.1.len() as int;
    assert forall|x: int| 0 <= x < t.len() implies s[q + x] == #[trigger] t[x] by {
        assert(s.subrange(q, q + t.len())[x] == s[q + x]);
    }
    assert(s[q] == ' ') by { assert(t[0] == ' '); assert(s[q + 0] == t[0]); }
    let ne = q + 1 + m;
    assert forall|k: int| q + 1 <= k < ne implies is_name_char(#[trigger] s[k]) by {
        assert(t[k - q] == a.0[k - q - 1]);
        assert(s[q + (k - q)] == t[k - q]);
    }
    assert(s[ne] == '=') by { assert(t[1 + m] == '='); assert(s[q + (1 + m)] == t[1 + m]); }
    lemma_name_stop(s, q + 1, ne, end);
    assert(s.subrange(q + 1, ne) =~= a.0) by {
        assert forall|k: int| 0 <= k < m implies s.subrange(q + 1, ne)[k] == a.0[k] by {
            assert(t[k + 1] == a.0[k]);
            assert(s[q + (k + 1)] == t[k + 1]);
        }
    }
    let v = ne + 1;
    assert(s[v] == '"') by { assert(t[2 + m] == '"'); assert(s[q + (2 + m)] == t[2 + m]); }
    let close = v + 1 + w;
    assert(s[close] == '"') by { assert(t[3 + m + w] == '"'); assert(s[q + (3 + m + w)] == t[3 + m + w]); }
    assert forall|k: int| v + 1 <= k < close implies s[k] != '"' by {
        assert(t[k - q] == a.1[k - q - 3 - m]);
        assert(s[q + (k - q)] == t[k - q]);
    }
    lemma_find_at(s, v + 1, end, '"', close);
    assert(s.subrange(v + 1, close) =~= a.1) by {
        assert forall|k: int| 0 <= k < w implies s.subrange(v + 1, close)[k] == a.1[k] by {
            assert(t[k + 3 + m] == a.1[k]);
            assert(s[q + (k + 3 + m)] == t[k + 3 + m]);
        }
    }
    assert(scan_attrs(s, q, end, acc) == scan_attrs(s, q + 1, end, acc));
}

/// Reading the first `k` written attributes at `p` gives them back in order.
proof fn lemma_scan_text(s: Seq<char>, p: int, end: int, attrs: Seq<(Seq<char>, Seq<char>)>, k: int)
    requires
        0 <= k <= attrs.len(),
        keys_unique(attrs),
        forall|i: int| 0 <= i < attrs.len() ==> valid_attr(#[trigger] attrs[i]),
        0 <= p,
        p + attrs_text(attrs, k).len() <= end <= s.len(),
        s.subrange(p, p + attrs_text(attrs, k).len()) == attrs_text(attrs, k),
    ensures
        scan_attrs(s, p, end, Seq::empty()) == scan_attrs(s, p + attrs_text(attrs, k).len(), end, attrs.subrange(0, k)),
    decreases k,
{
    if k == 0 {
        assert(attrs.subrange(0, 0) =~= Seq::<(Seq<char>, Seq<char>)>::empty());
    } else {
        let pre = attrs_text(attrs, k - 1);
        let a = attrs[k - 1];
        lemma_split(s, p, pre, attr_text(a));
        lemma_scan_text(s, p, end, attrs, k - 1);
        let acc = attrs.subrange(0, k - 1);
        lemma_scan_one(s, p + pre.len(), end, acc, a);
        lemma_attr_index_from(acc, a.0, 0);
        if attr_index(acc, a.0) >= 0 {
            assert(acc[attr_index(acc, a.0)] == attrs[attr_index(acc, a.0)]);
        }
        assert(attr_set(acc, a.0, a.1) =~= attrs.subrange(0, k));
    }
}

/// Parsing a text leaf found at `i`, with a tag after it, adds it to the
/// top of the stack.
proof fn lemma_parse_text(s: Seq<char>, i: int, st: Seq<DomNode>, x: DomNode)
    requires
        text_leaf(x),
        st.len() >= 1,
        0 <= i,
        i + serialize(x).len() <= s.len(),
        s.subrange(i, i + serialize(x).len()) == serialize(x),
        i + serialize(x).len() < s.len() ==> s[i + serialize(x).len()] == '<',
    ensures
        parse_from(s, i, st) == parse_from(s, i + serialize(x).len(), append_top(st, x)),
{
    let t = x.kind->Text_0;
    let n = s.len() as int;
    let e = i + t.len();
    assert(serialize(x) == t);
    assert forall|k: int| i <= k < e implies s[k] != '<' by {
        assert(s.subrange(i, e)[k - i] == s[k]);
        assert(t[k - i] != '<');
    }
    assert(t.len() > 0) by {
        if t.len() == 0 {
            assert(all_blank(t));
        }
    }
    assert(s[i] != '<');
    if e < n {
        lemma_find_at(s, i, n, '<', e);
    } else {
        lemma_find_in_bounds(s, i, n, '<');
    }
    assert(x == text_node(t));
    assert(step(s, i, st) == (append_top(st, x), e));
}

/// The opening tag of element `t` written at `i` opens the element, with
/// its attributes, on top of the stack.
proof fn lemma_open_tag(s: Seq<char>, i: int, st: Seq<DomNode>, t: DomNode)
    requires
        t.kind is Element,
        valid_tag(t.kind->Element_0),
        keys_unique(t.attrs),
        forall|x: int| 0 <= x < t.attrs.len() ==> valid_attr(#[trigger] t.attrs[x]),
        0 <= i,
        i + open_text(t.kind->Element_0, t.attrs).len() <= s.len(),
        s.subrange(i, i + open_text(t.kind->Element_0, t.attrs).len()) == open_text(t.kind->Element_0, t.attrs),
    ensures
        step(s, i, st) == (st.push(elem_node(t.kind->Element_0, t.attrs)), i + open_text(t.kind->Element_0, t.attrs).len()),
{
    let name = t.kind->Element_0;
    let m = name.len() as int;
    let at = attrs_text(t.attrs, t.attrs.len() as int);
    let o = open_text(name, t.attrs);
    let n = s.len() as int;
    let ne = i + 1 + m;
    let j = ne + at.len();
    assert forall|k: int| 0 <= k < o.len() implies s[i + k] == #[trigger] o[k] by {
        assert(s.subrange(i, i + o.len())[k] == s[i + k]);
    }
    lemma_attrs_text_chars(t.attrs, t.attrs.len() as int);
    assert(s[i] == '<') by { assert(o[0] == '<'); }
    assert forall|k: int| i + 1 <= k < ne implies is_name_char(#[trigger] s[k]) by {
        assert(o[k - i] == name[k - i - 1]);
        assert(s[i + (k - i)] == o[k - i]);
    }
    assert forall|k: int| ne <= k < j implies #[trigger] s[k] == at[k - ne] by {
        assert(o[k - i] == at[k - ne]);
        assert(s[i + (k - i)] == o[k - i]);
    }
    assert(s[j] == '>') by { assert(o[m + 1 + at.len()] == '>'); assert(s[i + (m + 1 + at.len())] == o[m + 1 + at.len()]); }
    assert forall|k: int| i + 1 <= k < j implies s[k] != '>' by {
        if k < ne {
            assert(is_name_char(s[k]));
        } else {
            assert(at[k - ne] != '>');
        }
    }
    lemma_find_at(s, i + 1, n, '>', j);
    if at.len() == 0 {
        lemma_name_run(s, i + 1, j);
    } else {
        assert(s[ne] == ' ');
        lemma_name_stop(s, i + 1, ne, j);
    }
    assert(s[i + 1] == name[0]) by { assert(o[1] == name[0]); assert(s[i + 1] == o[1]); }
    assert(s[j - 1] != '/') by {
        if at.len() == 0 {
            assert(o[m] == name[m - 1]);
            assert(s[i + m] == o[m]);
        } else {
            assert(s[j - 1] == at[at.len() - 1]);
        }
    }
    assert(s.subrange(i + 1, ne) =~= name) by {
        assert forall|k: int| 0 <= k < m implies s.subrange(i + 1, ne)[k] == name[k] by {
            assert(o[k + 1] == name[k]);
            assert(s[i + (k + 1)] == o[k + 1]);
        }
    }
    assert(s.subrange(ne, j) =~= at);
    lemma_scan_text(s, ne, j, t.attrs, t.attrs.len() as int);
    assert(t.attrs.subrange(0, t.attrs.len() as int) =~= t.attrs);
    let e0 = elem_node(name, t.attrs);
    assert(step(s, i, st) == (st.push(e0), j + 1));
}

/// Parsing an element's markup found at `i` adds the element to the top of
/// the stack.
proof fn lemma_parse_tree(s: Seq<char>, i: int, st: Seq<DomNode>, t: DomNode)
    requires
        tag_tree(t),
        st.len() >= 1,
        0 <= i,
        i + serialize(t).len() <= s.len(),
        s.subrange(i, i + serialize(t).len()) == serialize(t),
    ensures
        parse_from(s, i, st) == parse_from(s, i + serialize(t).len(), append_top(st, t)),
    decreases t, 1int, 0int,
{
    let name = t.kind->Element_0;
    let m = name.len() as int;
    let at = attrs_text(t.attrs, t.attrs.len() as int);
    let o = open_text(name, t.attrs);
    let kids = serialize_kids(t, t.children.len() as int);
    let c = close_text(name);
    let n = s.len() as int;
    assert(serialize(t) == o + kids + c);
    lemma_split(s, i, o + kids, c);
    lemma_split(s, i, o, kids);
    // the opening tag
    lemma_open_tag(s, i, st, t);
    let j = i + o.len() - 1;
    let e0 = elem_node(name, t.attrs);
    let st1 = st.push(e0);
    assert(parse_from(s, i, st) == parse_from(s, j + 1, st1));
    // the closing tag
    let q = j + 1 + kids.len();
    assert(q == i + o.len() + kids.len());
    assert forall|k: int| 0 <= k < c.len() implies s[q + k] == #[trigger] c[k] by {
        assert(s.subrange(q, q + c.len())[k] == s[q + k]);
    }
    let j2 = q + 2 + m;
    assert(s[q] == '<') by { assert(c[0] == '<'); assert(s[q + 0] == c[0]); }
    assert(s[q + 1] == '/') by { assert(c[1] == '/'); }
    assert forall|k: int| q + 2 <= k < j2 implies is_name_char(#[trigger] s[k]) by {
        assert(c[k - q] == name[k - q - 2]);
        assert(s[q + (k - q)] == c[k - q]);
    }
    assert(s[j2] == '>') by { assert(c[m + 2] == '>'); assert(s[q + (m + 2)] == c[m + 2]); }
    // the children
    lemma_parse_kids(s, j + 1, st1, t, t.children.len() as int);
    let st2 = add_kids(st1, t.children.subrange(0, t.children.len() as int));
    let full = DomNode { kind: DomKind::Element(name), attrs: t.attrs, children: t.children };
    assert(full == t);
    assert(st2 =~= st.push(t)) by {
        assert(e0.children + t.children.subrange(0, t.children.len() as int) =~= t.children);
    }
    lemma_find_at(s, q + 1, n, '>', j2);
    lemma_name_run(s, q + 2, j2);
    assert(s.subrange(q + 2, j2) =~= name) by {
        assert forall|k: int| 0 <= k < m implies s.subrange(q + 2, j2)[k] == name[k] by {
            assert(c[k + 2] == name[k]);
            assert(s[q + (k + 2)] == c[k + 2]);
        }
    }
    let st3 = st.push(t);
    assert(open_index(st3, name, st3.len() - 1) == st3.len() - 1);
    assert(pop_into_parent(st3).len() == st.len());
    assert(st3.drop_last() =~= st);
    assert(close_to(pop_into_parent(st3), st3.len() - 1) == pop_into_parent(st3));
    assert(close_tag(st3, name) == append_top(st, t));
    assert(step(s, q, st3) == (append_top(st, t), j2 + 1));
    assert(parse_from(s, q, st3) == parse_from(s, j2 + 1, append_top(st, t)));
    assert(j2 + 1 == i + serialize(t).len());
}

/// Parsing the markup of the first `k` children of `t`, found at `i`, adds
/// them to the top of the stack.
proof fn lemma_parse_kids(s: Seq<char>, i: int, st: Seq<DomNode>, t: DomNode, k: int)
    requires
        forall|j: int| 0 <= j < t.children.len() ==> text_leaf(#[trigger] t.children[j]) || tag_tree(t.children[j]),
        forall|j: int| 0 <= j < t.children.len() - 1 ==> !(#[trigger] t.children[j].kind is Text && t.children[j + 1].kind is Text),
        st.len() >= 1,
        0 <= k <= t.children.len(),
        0 <= i,
        i + serialize_kids(t, k).len() <= s.len(),
        s.subrange(i, i + serialize_kids(t, k).len()) == serialize_kids(t, k),
        k > 0 && t.children[k - 1].kind is Text && i + serialize_kids(t, k).len() < s.len() ==> s[i
            + serialize_kids(t, k).len()] == '<',
    ensures
        parse_from(s, i, st) == parse_from(s, i + serialize_kids(t, k).len(), add_kids(st, t.children.subrange(0, k))),
    decreases t, 0int, k,
{
    if k == 0 {
        assert(add_kids(st, t.children.subrange(0, 0)) =~= st) by {
            assert(st.last().children + t.children.subrange(0, 0) =~= st.last().children);
        }
    } else {
        let a = serialize_kids(t, k - 1);
        let b = serialize(t.children[k - 1]);
        assert(serialize_kids(t, k) == a + b);
        lemma_split(s, i, a, b);
        let child = t.children[k - 1];
        assert(text_leaf(child) || tag_tree(child));
        if child.kind is Element {
            let cn = child.kind->Element_0;
            assert(b == open_text(cn, child.attrs) + serialize_kids(child, child.children.len() as int) + close_text(cn));
            assert(b[0] == '<');
            assert(s.subrange(i + a.len(), i + a.len() + b.len())[0] == s[i + a.len()]);
        }
        if k - 1 > 0 && t.children[k - 2].kind is Text {
            assert(!(t.children[k - 2].kind is Text && t.children[k - 1].kind is Text));
        }
        lemma_parse_kids(s, i, st, t, k - 1);
        let st1 = add_kids(st, t.children.subrange(0, k - 1));
        if text_leaf(child) {
            lemma_parse_text(s, i + a.len(), st1, child);
        } else {
            lemma_parse_tree(s, i + a.len(), st1, child);
        }
        assert(append_top(st1, t.children[k - 1]) =~= add_kids(st, t.children.subrange(0, k))) by {
            assert(st1.last().children.push(t.children[k - 1]) =~= st.last().children + t.children.subrange(0, k));
        }
    }
}

/// Markup written from an element tree parses back to that tree, as the
/// only child of the document.
pub proof fn lemma_round_trip(t: DomNode)
    requires
        tag_tree(t),
    ensures
        parse_html(serialize(t)) == (DomNode { kind: DomKind::Document, attrs: Seq::empty(), children: seq![t] }),
{
    let s = serialize(t);
    let root = DomNode { kind: DomKind::Document, attrs: Seq::empty(), children: Seq::empty() };
    assert(s.subrange(0, s.len() as int) =~= s);
    lemma_parse_tree(s, 0, seq![root], t);
    let st = append_top(seq![root], t);
    assert(st =~= seq![DomNode { kind: DomKind::Document, attrs: Seq::empty(), children: seq![t] }]) by {
        assert(root.children.push(t) =~= seq![t]);
    }
}

/// Markup written from a document whose top-level nodes are element trees
/// and text leaves (no two text nodes side by side) parses back to that
/// document.
pub proof fn lemma_round_trip_document(doc: DomNode)
    requires
        doc.kind == DomKind::Document,
        doc.attrs == Seq::<(Seq<char>, Seq<char>)>::empty(),
        forall|j: int| 0 <= j < doc.children.len() ==> text_leaf(#[trigger] doc.children[j]) || tag_tree(doc.children[j]),
        forall|j: int| 0 <= j < doc.children.len() - 1 ==> !(#[trigger] doc.children[j].kind is Text && doc.children[j + 1].kind is Text),
    ensures
        parse_html(serialize_kids(doc, doc.children.len() as int)) == doc,
{
    let s = serialize_kids(doc, doc.children.len() as int);
    let root = DomNode { kind: DomKind::Document, attrs: Seq::empty(), children: Seq::empty() };
    assert(s.subrange(0, s.len() as int) =~= s);
    lemma_parse_kids(s, 0, seq![root], doc, doc.children.len() as int);
    let st = add_kids(seq![root], doc.children.subrange(0, doc.children.len() as int));
    assert(st =~= seq![doc]) by {
        assert(root.children + doc.children.subrange(0, doc.children.len() as int) =~= doc.children);
    }
}

pub struct HTMLParser;

impl HTMLParser {
    /// Parses markup text into a document tree. Never fails: malformed
    /// markup is repaired.
    pub fn parse(source: &str) -> (r: Node)
        ensures
            r@ == parse_html(source@),
            r.wf(),
    {
        proof { lemma_parse_wf(source@); }
        let cs = crate::text::chars_of(source);
        let n = cs.len();
        let mut stack: Vec<Node> = Vec::new();
        stack.push(Node::new_document());
        let ghost st0 = nodes_view(stack@);
        proof {
            assert(st0 =~= seq![DomNode { kind: DomKind::Document, attrs: Seq::empty(), children: Seq::empty() }]);
        }
        let mut i: usize = 0;
        while i < n
            invariant
                cs@ == source@,
                n == cs@.len(),
                i <= n,
                stack@.len() >= 1,
                parse_from(cs@, i as int, nodes_view(stack@)) == parse_html(source@),
            decreases n - i,
        {
            let ghost old_st = nodes_view(stack@);
            let ni = Self::step_exec(source, &cs, i, &mut stack);
            proof {
                lemma_step_advances(cs@, i as int, old_st);
            }
            i = ni;
        }
        Self::close_all(&mut stack);
        let r = stack.pop().unwrap();
        r
    }

    /// Closes every open node but the root.
    fn close_all(stack: &mut Vec<Node>)
        requires
            old(stack)@.len() >= 1,
        ensures
            final(stack)@.len() == 1,
            nodes_view(final(stack)@) == close_to(nodes_view(old(stack)@), 1),
    {
        while stack.len() > 1
            invariant
                stack@.len() >= 1,
                close_to(nodes_view(stack@), 1) == close_to(nodes_view(old(stack)@), 1),
            decreases stack@.len(),
        {
            Self::pop_exec(stack);
        }
        proof { assert(close_to(nodes_view(stack@), 1) == nodes_view(stack@)); }
    }

    fn append_top_exec(stack: &mut Vec<Node>, child: Node)
        requires
            old(stack)@.len() >= 1,
        ensures
            final(stack)@.len() == old(stack)@.len(),
            nodes_view(final(stack)@) == append_top(nodes_view(old(stack)@), child@),
    {
        let mut top = stack.pop().unwrap();
        top.add_child(child);
        stack.push(top);
        proof {
            assert(nodes_view(stack@) =~= append_top(nodes_view(old(stack)@), child@));
        }
    }

    fn pop_exec(stack: &mut Vec<Node>)
        requires
            old(stack)@.len() >= 2,
        ensures
            final(stack)@.len() == old(stack)@.len() - 1,
            nodes_view(final(stack)@) == pop_into_parent(nodes_view(old(stack)@)),
    {
        let top = stack.pop().unwrap();
        proof {
            assert(nodes_view(stack@) =~= nodes_view(old(stack)@).drop_last());
        }
        Self::append_top_exec(stack, top);
    }

    fn close_tag_exec(stack: &mut Vec<Node>, name: &String)
        requires
            old(stack)@.len() >= 1,
        ensures
            final(stack)@.len() >= 1,
            nodes_view(final(stack)@) == close_tag(nodes_view(old(stack)@), name@),
    {
        let ghost st = nodes_view(stack@);
        let mut k: usize = stack.len() - 1;
        while k >= 1 && !Self::is_element_named(&stack[k], name)
            invariant
                1 <= stack@.len(),
                k < stack@.len(),
                st == nodes_view(stack@),
                open_index(st, name@, k as int) == open_index(st, name@, st.len() - 1),
            decreases k,
        {
            k -= 1;
        }
        proof {
            lemma_open_index(st, name@, st.len() - 1);
        }
        if k >= 1 {
            while stack.len() > k
                invariant
                    k >= 1,
                    stack@.len() >= k,
                    close_to(nodes_view(stack@), k as int) == close_to(st, k as int),
                decreases stack@.len(),
            {
                Self::pop_exec(stack);
            }
            proof { assert(close_to(nodes_view(stack@), k as int) == nodes_view(stack@)); }
        }
    }

    fn is_element_named(n: &Node, name: &String) -> (r: bool)
        ensures
            r == (n@.kind == DomKind::Element(name@)),
    {
        match &n.node_type {
            NodeType::Element(t) => *t == *name,
            _ => false,
        }
    }

    fn text_exec(source: &str, cs: &Vec<char>, from: usize, to: usize, stack: &mut Vec<Node>)
        requires
            cs@ == source@,
            from <= to <= cs@.len(),
            old(stack)@.len() >= 1,
        ensures
            final(stack)@.len() == old(stack)@.len(),
            nodes_view(final(stack)@) == add_text(nodes_view(old(stack)@), cs@.subrange(from as int, to as int)),
    {
        if !all_blank_exec(cs, from, to) {
            let t = string_of(source, from, to);
            let node = Node::new_text(t.as_str());
            Self::append_top_exec(stack, node);
        }
    }

    fn name_end_exec(cs: &Vec<char>, i: usize, end: usize) -> (r: usize)
        requires
            i <= end <= cs@.len(),
        ensures
            r == name_end(cs@, i as int, end as int),
            i <= r <= end,
    {
        proof { lemma_name_end(cs@, i as int, end as int); }
        let mut k = i;
        while k < end && !is_ws_exec(cs[k]) && cs[k] != '/' && cs[k] != '=' && cs[k] != '>' && cs[k] != '<'
            invariant
                i <= k <= end <= cs@.len(),
                name_end(cs@, k as int, end as int) == name_end(cs@, i as int, end as int),
            decreases end - k,
        {
            k += 1;
        }
        k
    }

    fn word_end_exec(cs: &Vec<char>, i: usize, end: usize) -> (r: usize)
        requires
            i <= end <= cs@.len(),
        ensures
            r == word_end(cs@, i as int, end as int),
            i <= r <= end,
    {
        proof { lemma_word_end(cs@, i as int, end as int); }
        let mut k = i;
        while k < end && !is_ws_exec(cs[k])
            invariant
                i <= k <= end <= cs@.len(),
                word_end(cs@, k as int, end as int) == word_end(cs@, i as int, end as int),
            decreases end - k,
        {
            k += 1;
        }
        k
    }

    fn is_void_exec(name: &String) -> (r: bool)
        ensures
            r == is_void(name@),
    {
        *name == String::from_str("br") || *name == String::from_str("img") || *name
            == String::from_str("hr") || *name == String::from_str("input") || *name
            == String::from_str("meta") || *name == String::from_str("link") || *name
            == String::from_str("area") || *name == String::from_str("base") || *name
            == String::from_str("col") || *name == String::from_str("embed") || *name
            == String::from_str("source") || *name == String::from_str("track") || *name
            == String::from_str("wbr")
    }

    fn is_name_char_exec(c: char) -> (r: bool)
        ensures
            r == is_name_char(c),
    {
        !is_ws_exec(c) && c != '/' && c != '=' && c != '>' && c != '<'
    }

    /// Applies the attributes in `cs[p..end]` to `node`.
    fn scan_attrs_exec(source: &str, cs: &Vec<char>, p: usize, end: usize, node: &mut Node)
        requires
            cs@ == source@,
            p <= end <= cs@.len(),
        ensures
            final(node)@ == (DomNode { attrs: scan_attrs(cs@, p as int, end as int, old(node)@.attrs), ..old(node)@ }),
    {
        let ghost s = cs@;
        let ghost p0 = p as int;
        let mut p = p;
        while p < end
            invariant
                cs@ == source@,
                s == cs@,
                p <= end <= cs@.len(),
                node@.kind == old(node)@.kind,
                node@.children == old(node)@.children,
                scan_attrs(s, p as int, end as int, node@.attrs) == scan_attrs(s, p0, end as int, old(node)@.attrs),
            decreases end - p,
        {
            if !Self::is_name_char_exec(cs[p]) {
                p += 1;
            } else {
                proof { lemma_name_end(cs@, p + 1, end as int); }
                let ne = Self::name_end_exec(cs, p, end);
                let name = string_of(source, p, ne);
                if ne < end && cs[ne] == '=' {
                    let v = ne + 1;
                    if v < end && (cs[v] == '"' || cs[v] == '\'') {
                        let q = cs[v];
                        let close = find_in_exec(cs, v + 1, end, q);
                        let val = string_of(source, v + 1, close);
                        node.set_attribute(name.as_str(), val.as_str());
                        p = if close < end {
                            close + 1
                        } else {
                            end
                        };
                    } else {
                        let ve = Self::word_end_exec(cs, v, end);
                        let val = string_of(source, v, ve);
                        node.set_attribute(name.as_str(), val.as_str());
                        p = ve;
                    }
                } else {
                    proof { reveal_strlit(""); }
                    node.set_attribute(name.as_str(), "");
                    assert(""@ =~= Seq::<char>::empty());
                    p = ne;
                }
            }
        }
    }

    fn comment_close_exec(cs: &Vec<char>, k: usize) -> (r: usize)
        requires
            k <= cs@.len(),
        ensures
            r == comment_close(cs@, k as int),
    {
        let n = cs.len();
        let mut j = k;
        while n - j > 2 && !(cs[j] == '-' && cs[j + 1] == '-' && cs[j + 2] == '>')
            invariant
                k <= j <= n,
                n == cs@.len(),
                comment_close(cs@, j as int) == comment_close(cs@, k as int),
            decreases n - j,
        {
            j += 1;
        }
        if n - j <= 2 {
            n
        } else {
            j + 3
        }
    }

    /// One parser step at position `i`; returns the next position.
    fn step_exec(source: &str, cs: &Vec<char>, i: usize, stack: &mut Vec<Node>) -> (r: usize)
        requires
            cs@ == source@,
            i < cs@.len(),
            old(stack)@.len() >= 1,
        ensures
            final(stack)@.len() >= 1,
            nodes_view(final(stack)@) == step(cs@, i as int, nodes_view(old(stack)@)).0,
            r == step(cs@, i as int, nodes_view(old(stack)@)).1,
    {
        let n = cs.len();
        if cs[i] != '<' {
            let k = find_in_exec(cs, i, n, '<');
            Self::text_exec(source, cs, i, k, stack);
            k
        } else if n - i > 3 && cs[i + 1] == '!' && cs[i + 2] == '-' && cs[i + 3] == '-' {
            Self::comment_close_exec(cs, i + 4)
        } else {
            let j = find_in_exec(cs, i + 1, n, '>');
            if j >= n {
                Self::text_exec(source, cs, i, n, stack);
                n
            } else if i + 1 < j && cs[i + 1] == '/' {
                let ne = Self::name_end_exec(cs, i + 2, j);
                let name = string_of(source, i + 2, ne);
                Self::close_tag_exec(stack, &name);
                j + 1
            } else if i + 1 < j && (cs[i + 1] == '!' || cs[i + 1] == '?') {
                j + 1
            } else {
                let ne = Self::name_end_exec(cs, i + 1, j);
                if ne <= i + 1 {
                    j + 1
                } else {
                    let name = string_of(source, i + 1, ne);
                    let mut e = Node::new_element(name.as_str());
                    Self::scan_attrs_exec(source, cs, ne, j, &mut e);
                    proof {
                        assert(e@ == elem_node(name@, scan_attrs(cs@, ne as int, j as int, Seq::empty())));
                    }
                    if cs[j - 1] == '/' || Self::is_void_exec(&name) {
                        Self::append_top_exec(stack, e);
                    } else {
                        stack.push(e);
                        proof {
                            assert(nodes_view(stack@) =~= nodes_view(old(stack)@).push(e@));
                        }
                    }
                    j + 1
                }
            }
        }
    }
}

} // verus!
