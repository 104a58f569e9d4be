//! Block layout: widths flow down from the available width, heights are the
//! stacked heights of the children. Inline boxes are stacked the same way:
//! there is no line breaking.
use vstd::prelude::*;
use crate::dom::{Node, NodeType, DomNode, DomKind, attr_get};
use crate::style::{StyleTree, StyleModel, ComputedStyle, empty_style};

verus! {

#[derive(Clone, Copy, Debug, PartialEq, Eq, Structural)]
pub struct Rect {
    pub x: u64,
    pub y: u64,
    pub width: u64,
    pub height: u64,
}

#[derive(Clone, Copy, Debug, PartialEq, Eq, Structural)]
pub struct EdgeSizes {
    pub top: u64,
    pub right: u64,
    pub bottom: u64,
    pub left: u64,
}

#[derive(Clone, Copy, Debug, PartialEq, Eq, Structural)]
pub struct Dimensions {
    pub content: Rect,
    pub padding: EdgeSizes,
    pub border: EdgeSizes,
    pub margin: EdgeSizes,
}

#[derive(Clone, Copy, Debug, PartialEq, Eq, Structural)]
pub enum BoxType {
    Block,
    Inline,
    Anonymous,
}

/// A box of the layout tree. Positions are relative to the content box of
/// the parent; a text box carries its text.
pub struct LayoutBox {
    pub dimensions: Dimensions,
    pub box_type: BoxType,
    pub text: Option<String>,
    pub children: Vec<LayoutBox>,
}

pub struct BoxModel {
    pub dims: Dimensions,
    pub box_type: BoxType,
    pub text: Option<Seq<char>>,
    pub children: Seq<BoxModel>,
}

pub open spec fn zero_edges() -> EdgeSizes {
    EdgeSizes { top: 0, right: 0, bottom: 0, left: 0 }
}

pub open spec fn empty_box() -> BoxModel {
    BoxModel {
        dims: Dimensions {
            content: Rect { x: 0, y: 0, width: 0, height: 0 },
            padding: zero_edges(),
            border: zero_edges(),
            margin: zero_edges(),
        },
        box_type: BoxType::Block,
        text: None,
        children: Seq::empty(),
    }
}

impl View for LayoutBox {
    type V = BoxModel;

    open spec fn view(&self) -> BoxModel
        decreases self,
    {
        BoxModel {
            dims: self.dimensions,
            box_type: self.box_type,
            text: crate::css::opt_view(self.text),
            children: Seq::new(
                self.children@.len(),
                |i: int|
                    if 0 <= i < self.children@.len() {
                        self.children@[i].view()
                    } else {
                        empty_box()
                    },
            ),
        }
    }
}

/// How the view of a box relates to its children.
pub proof fn lemma_box_view(b: LayoutBox)
    ensures
        b@.children.len() == b.children@.len(),
        forall|i: int| 0 <= i < b.children@.len() ==> #[trigger] b@.children[i] == b.children@[i]@,
{
    reveal_with_fuel(<LayoutBox as View>::view, 2);
}

/// Lengths are clamped to this many pixels.
pub const MAX_LENGTH: u64 = 1_000_000_000;

pub open spec fn is_digit(c: char) -> bool {
    '0' <= c && c <= '9'
}

/// The number formed by the leading digits of `v[k..]`, after `acc`,
/// clamped to `MAX_LENGTH`; a unit after the digits is ignored.
pub open spec fn px_from(v: Seq<char>, k: int, acc: int) -> int
    decreases v.len() - k,
{
    if k < 0 || k >= v.len() || !is_digit(v[k]) {
        acc
    } else {
        let next = acc * 10 + (v[k] as u32 - '0' as u32);
        px_from(v, k + 1, if next > MAX_LENGTH { MAX_LENGTH as int } else { next })
    }
}

/// The length a property gives, `0` when it is not set.
pub open spec fn length_of(props: Seq<(Seq<char>, Seq<char>)>, name: Seq<char>) -> int {
    match attr_get(props, name) {
        Some(v) => px_from(v, 0, 0),
        None => 0,
    }
}

pub open spec fn edges_of(props: Seq<(Seq<char>, Seq<char>)>, top: Seq<char>, right: Seq<char>, bottom: Seq<char>, left: Seq<char>) -> EdgeSizes {
    EdgeSizes {
        top: length_of(props, top) as u64,
        right: length_of(props, right) as u64,
        bottom: length_of(props, bottom) as u64,
        left: length_of(props, left) as u64,
    }
}

pub open spec fn margin_of(props: Seq<(Seq<char>, Seq<char>)>) -> EdgeSizes {
    edges_of(props, "margin-top"@, "margin-right"@, "margin-bottom"@, "margin-left"@)
}

pub open spec fn padding_of(props: Seq<(Seq<char>, Seq<char>)>) -> EdgeSizes {
    edges_of(props, "padding-top"@, "padding-right"@, "padding-bottom"@, "padding-left"@)
}

pub open spec fn border_of(props: Seq<(Seq<char>, Seq<char>)>) -> EdgeSizes {
    edges_of(props, "border-top-width"@, "border-right-width"@, "border-bottom-width"@, "border-left-width"@)
}

/// Tags laid out as inline boxes when no `display` is given.
pub open spec fn is_inline_tag(tag: Seq<char>) -> bool {
    tag == "a"@ || tag == "span"@ || tag == "b"@ || tag == "i"@ || tag == "em"@ || tag == "strong"@
        || tag == "code"@ || tag == "img"@ || tag == "small"@ || tag == "label"@ || tag == "abbr"@
        || tag == "br"@ || tag == "sub"@ || tag == "sup"@ || tag == "u"@
}

/// The kind of box a node produces: text is inline, `display: block` and
/// `display: inline` decide for an element, and otherwise its tag does.
pub open spec fn box_type_of(n: DomNode, props: Seq<(Seq<char>, Seq<char>)>) -> BoxType {
    match n.kind {
        DomKind::Text(_) => BoxType::Inline,
        DomKind::Document => BoxType::Block,
        DomKind::Element(tag) => {
            let d = attr_get(props, "display"@);
            if d == Some("block"@) {
                BoxType::Block
            } else if d == Some("inline"@) {
                BoxType::Inline
            } else if is_inline_tag(tag) {
                BoxType::Inline
            } else {
                BoxType::Block
            }
        },
    }
}

pub open spec fn text_of(n: DomNode) -> Option<Seq<char>> {
    match n.kind {
        DomKind::Text(t) => Some(t),
        _ => None,
    }
}

pub open spec fn sat(x: int) -> int {
    if x > u64::MAX { u64::MAX as int } else { x }
}

/// Height of a box with its padding, border and margin, clamped to `u64`.
pub open spec fn outer_height(b: BoxModel) -> int {
    let d = b.dims;
    sat(d.content.height + d.padding.top + d.padding.bottom + d.border.top + d.border.bottom + d.margin.top
        + d.margin.bottom)
}

/// Sum of the outer heights of the first `i` boxes, clamped to `u64`.
pub open spec fn stacked(boxes: Seq<BoxModel>, i: int) -> int
    decreases i,
{
    if i <= 0 {
        0
    } else {
        sat(stacked(boxes, i - 1) + outer_height(boxes[i - 1]))
    }
}

pub open spec fn child_style(st: StyleModel, i: int) -> StyleModel {
    if 0 <= i < st.children.len() {
        st.children[i]
    } else {
        empty_style()
    }
}

pub open spec fn horizontal(m: EdgeSizes, p: EdgeSizes, b: EdgeSizes) -> int {
    m.left + m.right + p.left + p.right + b.left + b.right
}

/// The boxes of the children of `n` laid out in width `cw`, before they are
/// stacked.
pub open spec fn unplaced(n: DomNode, st: StyleModel, cw: int) -> Seq<BoxModel>
    decreases n, 0int,
{
    Seq::new(
        n.children.len(),
        |i: int|
            if 0 <= i < n.children.len() {
                layout_box(n.children[i], child_style(st, i), cw)
            } else {
                empty_box()
            },
    )
}

pub open spec fn with_y(b: BoxModel, y: int) -> BoxModel {
    BoxModel { dims: Dimensions { content: Rect { y: y as u64, ..b.dims.content }, ..b.dims }, ..b }
}

/// The box tree of node `n` with style `st` in `avail` pixels of width.
pub open spec fn layout_box(n: DomNode, st: StyleModel, avail: int) -> BoxModel
    decreases n, 1int,
{
    let m = margin_of(st.props);
    let p = padding_of(st.props);
    let b = border_of(st.props);
    let h = horizontal(m, p, b);
    let cw = if avail > h { avail - h } else { 0 };
    let raw = unplaced(n, st, cw);
    BoxModel {
        dims: Dimensions {
            content: Rect { x: 0, y: 0, width: cw as u64, height: stacked(raw, raw.len() as int) as u64 },
            padding: p,
            border: b,
            margin: m,
        },
        box_type: box_type_of(n, st.props),
        text: text_of(n),
        children: Seq::new(raw.len(), |i: int| with_y(raw[i], stacked(raw, i))),
    }
}

pub proof fn lemma_px_bounds(v: Seq<char>, k: int, acc: int)
    requires
        0 <= acc <= MAX_LENGTH,
    ensures
        0 <= px_from(v, k, acc) <= MAX_LENGTH,
    decreases v.len() - k,
{
    if !(k < 0 || k >= v.len() || !is_digit(v[k])) {
        let next = acc * 10 + (v[k] as u32 - '0' as u32);
        lemma_px_bounds(v, k + 1, if next > MAX_LENGTH { MAX_LENGTH as int } else { next });
    }
}

fn px_exec(v: &String) -> (r: u64)
    ensures
        r == px_from(v@, 0, 0),
        r <= MAX_LENGTH,
{
    let cs = crate::text::chars_of(v.as_str());
    let n = cs.len();
    let mut acc: u64 = 0;
    let mut k: usize = 0;
    while k < n && '0' <= cs[k] && cs[k] <= '9'
        invariant
            cs@ == v@,
            n == cs@.len(),
            k <= n,
            acc <= MAX_LENGTH,
            px_from(v@, k as int, acc as int) == px_from(v@, 0, 0),
        decreases n - k,
    {
        let next = acc * 10 + (cs[k] as u32 - '0' as u32) as u64;
        acc = if next > MAX_LENGTH {
            MAX_LENGTH
        } else {
            next
        };
        k += 1;
    }
    proof { lemma_px_bounds(v@, 0, 0); }
    acc
}

fn length_exec(style: &ComputedStyle, name: &str) -> (r: u64)
    ensures
        r == length_of(crate::dom::attrs_view(style.properties@), name@),
        r <= MAX_LENGTH,
{
    match style.get(name) {
        Some(v) => px_exec(&v),
        None => 0,
    }
}

fn is_inline_tag_exec(tag: &String) -> (r: bool)
    ensures
        r == is_inline_tag(tag@),
{
    *tag == String::from_str("a") || *tag == String::from_str("span") || *tag == String::from_str("b")
        || *tag == String::from_str("i") || *tag == String::from_str("em") || *tag == String::from_str(
        "strong",
    ) || *tag == String::from_str("code") || *tag == String::from_str("img") || *tag
        == String::from_str("small") || *tag == String::from_str("label") || *tag == String::from_str(
        "abbr",
    ) || *tag == String::from_str("br") || *tag == String::from_str("sub") || *tag
        == String::from_str("sup") || *tag == String::from_str("u")
}

fn box_type_exec(node: &Node, style: &ComputedStyle) -> (r: BoxType)
    ensures
        r == box_type_of(node@, crate::dom::attrs_view(style.properties@)),
{
    match &node.node_type {
        NodeType::Text(_) => BoxType::Inline,
        NodeType::Document => BoxType::Block,
        NodeType::Element(tag) => {
            let d = style.get("display");
            let is_block = match &d {
                Some(v) => *v == String::from_str("block"),
                None => false,
            };
            let is_inline = match &d {
                Some(v) => *v == String::from_str("inline"),
                None => false,
            };
            if is_block {
                BoxType::Block
            } else if is_inline {
                BoxType::Inline
            } else if is_inline_tag_exec(tag) {
                BoxType::Inline
            } else {
                BoxType::Block
            }
        },
    }
}

fn outer_height_exec(b: &LayoutBox) -> (r: u64)
    ensures
        r == outer_height(b@),
{
    let d = &b.dimensions;
    let total: u128 = d.content.height as u128 + d.padding.top as u128 + d.padding.bottom as u128
        + d.border.top as u128 + d.border.bottom as u128 + d.margin.top as u128 + d.margin.bottom as u128;
    if total > u64::MAX as u128 {
        u64::MAX
    } else {
        total as u64
    }
}

fn empty_style_tree() -> (r: StyleTree)
    ensures
        r@ == empty_style(),
{
    let r = StyleTree { style: ComputedStyle { properties: Vec::new() }, children: Vec::new() };
    proof {
        assert(r@.props =~= Seq::<(Seq<char>, Seq<char>)>::empty());
        assert(r@.children =~= Seq::<StyleModel>::empty());
    }
    r
}

fn layout_exec(node: &Node, st: &StyleTree, avail: i64) -> (r: LayoutBox)
    ensures
        r@ == layout_box(node@, st@, avail as int),
    decreases node,
{
    let style = &st.style;
    let m = EdgeSizes {
        top: length_exec(style, "margin-top"),
        right: length_exec(style, "margin-right"),
        bottom: length_exec(style, "margin-bottom"),
        left: length_exec(style, "margin-left"),
    };
    let p = EdgeSizes {
        top: length_exec(style, "padding-top"),
        right: length_exec(style, "padding-right"),
        bottom: length_exec(style, "padding-bottom"),
        left: length_exec(style, "padding-left"),
    };
    let b = EdgeSizes {
        top: length_exec(style, "border-top-width"),
        right: length_exec(style, "border-right-width"),
        bottom: length_exec(style, "border-bottom-width"),
        left: length_exec(style, "border-left-width"),
    };
    let h: u64 = m.left + m.right + p.left + p.right + b.left + b.right;
    let cw: u64 = if avail > 0 && avail as u64 > h {
        avail as u64 - h
    } else {
        0
    };
    let ghost raw = unplaced(node@, st@, cw as int);
    let empty = empty_style_tree();
    let n = node.children.len();
    let mut children: Vec<LayoutBox> = Vec::new();
    let mut cursor: u64 = 0;
    let mut i: usize = 0;
    while i < n
        invariant
            n == node.children@.len(),
            raw == unplaced(node@, st@, cw as int),
            raw.len() == n,
            empty@ == empty_style(),
            cw <= i64::MAX,
            i <= n,
            children@.len() == i,
            cursor == stacked(raw, i as int),
            forall|j: int| 0 <= j < i ==> (#[trigger] children@[j])@ == with_y(raw[j], stacked(raw, j)),
        decreases n - i,
    {
        let child_st = if i < st.children.len() {
            &st.children[i]
        } else {
            &empty
        };
        assert(child_st@ == child_style(st@, i as int));
        let mut cb = layout_exec(&node.children[i], child_st, cw as i64);
        assert(cb@ == raw[i as int]);
        let oh = outer_height_exec(&cb);
        let ghost before = cb@;
        cb.dimensions.content.y = cursor;
        assert(cb@.children =~= before.children);
        assert(cb@ == with_y(raw[i as int], stacked(raw, i as int)));
        children.push(cb);
        let sum: u128 = cursor as u128 + oh as u128;
        cursor = if sum > u64::MAX as u128 {
            u64::MAX
        } else {
            sum as u64
        };
        i += 1;
    }
    let text = match &node.node_type {
        NodeType::Text(t) => Some(t.clone()),
        _ => None,
    };
    let r = LayoutBox {
        dimensions: Dimensions {
            content: Rect { x: 0, y: 0, width: cw, height: cursor },
            padding: p,
            border: b,
            margin: m,
        },
        box_type: box_type_exec(node, style),
        text,
        children,
    };
    proof {
        let want = layout_box(node@, st@, avail as int);
        assert(r@.children =~= want.children);
        assert(r@.dims == want.dims);
    }
    r
}

pub struct LayoutEngine;

impl LayoutEngine {
    /// Lays out the tree `node`, styled by `styles`, in `available_width`
    /// pixels. A width at or below zero gives boxes of zero width.
    pub fn layout(node: &Node, styles: &StyleTree, available_width: i64) -> (r: LayoutBox)
        ensures
            r@ == layout_box(node@, styles@, available_width as int),
    {
        layout_exec(node, styles, available_width)
    }
}

/// Layout is a function of its inputs: two runs on the same tree, styles and
/// width give the same box tree.
pub proof fn lemma_layout_deterministic(
    node: Node,
    styles: StyleTree,
    available_width: i64,
    first: LayoutBox,
    second: LayoutBox,
)
    requires
        first@ == layout_box(node@, styles@, available_width as int),
        second@ == layout_box(node@, styles@, available_width as int),
    ensures
        first@ == second@,
{
}

} // verus!
