//! Paint walker: flattens a box tree into drawing commands, parents before
//! children.
use vstd::prelude::*;
use crate::layout::{LayoutBox, BoxModel, Rect, sat};

verus! {

#[derive(Clone, Copy, Debug, PartialEq, Eq, Structural)]
pub struct Color {
    pub r: u8,
    pub g: u8,
    pub b: u8,
}

pub open spec fn white() -> Color {
    Color { r: 255, g: 255, b: 255 }
}

pub open spec fn black() -> Color {
    Color { r: 0, g: 0, b: 0 }
}

/// A drawing instruction in absolute coordinates.
pub enum PaintCommand {
    FillRect(Rect, Color),
    StrokeRect(Rect, Color, u64),
    DrawText(u64, u64, String),
}

pub enum CommandModel {
    FillRect(Rect, Color),
    StrokeRect(Rect, Color, u64),
    DrawText(u64, u64, Seq<char>),
}

impl View for PaintCommand {
    type V = CommandModel;

    open spec fn view(&self) -> CommandModel {
        match self {
            PaintCommand::FillRect(r, c) => CommandModel::FillRect(*r, *c),
            PaintCommand::StrokeRect(r, c, w) => CommandModel::StrokeRect(*r, *c, *w),
            PaintCommand::DrawText(x, y, t) => CommandModel::DrawText(*x, *y, t@),
        }
    }
}

pub open spec fn commands_view(v: Seq<PaintCommand>) -> Seq<CommandModel> {
    v.map_values(|c: PaintCommand| c@)
}

/// The commands of box `b` alone, whose parent's content box is at
/// (`ox`, `oy`): a text box draws its text, any other box fills its content
/// rectangle in white and outlines it in black.
pub open spec fn own_commands(b: BoxModel, ox: int, oy: int) -> Seq<CommandModel> {
    let ax = sat(ox + b.dims.content.x) as u64;
    let ay = sat(oy + b.dims.content.y) as u64;
    let rect = Rect { x: ax, y: ay, ..b.dims.content };
    match b.text {
        Some(t) => seq![CommandModel::DrawText(ax, ay, t)],
        None => seq![CommandModel::FillRect(rect, white()), CommandModel::StrokeRect(rect, black(), 1)],
    }
}

/// The commands of the tree `b` in pre-order.
pub open spec fn paint_box(b: BoxModel, ox: int, oy: int) -> Seq<CommandModel>
    decreases b, 1int, 0int,
{
    own_commands(b, ox, oy) + paint_kids(
        b,
        sat(ox + b.dims.content.x),
        sat(oy + b.dims.content.y),
        b.children.len() as int,
    )
}

/// The commands of the first `k` children of `b`, in order, inside the
/// content box of `b` at (`ax`, `ay`).
pub open spec fn paint_kids(b: BoxModel, ax: int, ay: int, k: int) -> Seq<CommandModel>
    decreases b, 0int, k,
{
    if k <= 0 || k > b.children.len() {
        Seq::empty()
    } else {
        paint_kids(b, ax, ay, k - 1) + paint_box(b.children[k - 1], ax, ay)
    }
}

fn sat_add(a: u64, b: u64) -> (r: u64)
    ensures
        r == sat(a + b),
{
    a.saturating_add(b)
}

fn paint_exec(b: &LayoutBox, ox: u64, oy: u64, out: &mut Vec<PaintCommand>)
    ensures
        commands_view(final(out)@) == commands_view(old(out)@) + paint_box(b@, ox as int, oy as int),
    decreases b,
{
    let ax = sat_add(ox, b.dimensions.content.x);
    let ay = sat_add(oy, b.dimensions.content.y);
    let rect = Rect { x: ax, y: ay, ..b.dimensions.content };
    let ghost start = commands_view(out@);
    match &b.text {
        Some(t) => {
            out.push(PaintCommand::DrawText(ax, ay, t.clone()));
        },
        None => {
            out.push(PaintCommand::FillRect(rect, Color { r: 255, g: 255, b: 255 }));
            out.push(PaintCommand::StrokeRect(rect, Color { r: 0, g: 0, b: 0 }, 1));
        },
    }
    let ghost own = own_commands(b@, ox as int, oy as int);
    proof {
        assert(commands_view(out@) =~= start + own);
    }
    let n = b.children.len();
    proof { crate::layout::lemma_box_view(*b); }
    let mut i: usize = 0;
    while i < n
        invariant
            n == b.children@.len(),
            n == b@.children.len(),
            forall|j: int| 0 <= j < n ==> #[trigger] b@.children[j] == b.children@[j]@,
            i <= n,
            commands_view(out@) == start + own + paint_kids(b@, ax as int, ay as int, i as int),
        decreases n - i,
    {
        let ghost before = commands_view(out@);
        paint_exec(&b.children[i], ax, ay, out);
        proof {
            assert(paint_kids(b@, ax as int, ay as int, i + 1) == paint_kids(b@, ax as int, ay as int, i as int)
                + paint_box(b@.children[i as int], ax as int, ay as int));
            assert(commands_view(out@) =~= start + own + paint_kids(b@, ax as int, ay as int, i + 1));
        }
        i += 1;
    }
}

/// The paint commands of the box tree `root`, parents before children.
pub fn paint(root: &LayoutBox) -> (r: Vec<PaintCommand>)
    ensures
        commands_view(r@) == paint_box(root@, 0, 0),
{
    let mut out: Vec<PaintCommand> = Vec::new();
    proof { assert(commands_view(out@) =~= Seq::<CommandModel>::empty()); }
    paint_exec(root, 0, 0, &mut out);
    proof { assert(commands_view(out@) =~= paint_box(root@, 0, 0)); }
    out
}

} // verus!
