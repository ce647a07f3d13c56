//! Chain simulation over the plain `Field`: the canonical 6 x 13 layout is
//! handed to the bit-board engine and the surviving cells written back.

use vstd::prelude::*;
use crate::core_field::CoreField;
use crate::core_field::PlainField;
use crate::core_field::PuyoColor;
use crate::field::Field;
use crate::field::Puyo;
use crate::model::cell;
use crate::model::lemma_cidx;
use crate::model::settled;
use crate::model::sim_rec;
use crate::model::xof;
use crate::model::yof;

verus! {

/// Result of a chain simulation over a plain `Field`.
#[derive(Debug, Default, PartialEq, Eq, Structural)]
pub struct ChainResult {
    pub chains: u32,
    pub score: u32,
}

/// The engine color a plain cell stands for.
pub open spec fn engine_color(p: Option<Puyo>) -> PuyoColor {
    match p {
        None => PuyoColor::Empty,
        Some(Puyo::Red) => PuyoColor::Red,
        Some(Puyo::Green) => PuyoColor::Green,
        Some(Puyo::Blue) => PuyoColor::Blue,
        Some(Puyo::Yellow) => PuyoColor::Yellow,
        Some(Puyo::Purple) => PuyoColor::Purple,
        Some(Puyo::Ojama) => PuyoColor::Ojama,
    }
}

/// The plain cell an engine color stands for.
pub open spec fn plain_cell(c: PuyoColor) -> Option<Puyo> {
    match c {
        PuyoColor::Empty => None,
        PuyoColor::Red => Some(Puyo::Red),
        PuyoColor::Green => Some(Puyo::Green),
        PuyoColor::Blue => Some(Puyo::Blue),
        PuyoColor::Yellow => Some(Puyo::Yellow),
        PuyoColor::Purple => Some(Puyo::Purple),
        PuyoColor::Ojama => Some(Puyo::Ojama),
    }
}

/// A 6 x 13 field as the engine's column-major grid.
pub open spec fn field_grid(f: Field) -> Seq<PuyoColor> {
    Seq::new(78, |i: int| engine_color(f.cell_at(xof(i), yof(i))))
}

/// The field has the engine's canonical 6 x 13 layout.
pub open spec fn canonical_layout(f: Field) -> bool {
    f.width == 6 && f.height == 13 && f.wf()
}

/// Converts one plain cell for the engine.
fn to_engine_color(p: Option<Puyo>) -> (r: PuyoColor)
    ensures
        r == engine_color(p),
{
    match p {
        None => PuyoColor::Empty,
        Some(Puyo::Red) => PuyoColor::Red,
        Some(Puyo::Green) => PuyoColor::Green,
        Some(Puyo::Blue) => PuyoColor::Blue,
        Some(Puyo::Yellow) => PuyoColor::Yellow,
        Some(Puyo::Purple) => PuyoColor::Purple,
        Some(Puyo::Ojama) => PuyoColor::Ojama,
    }
}

/// Converts one engine color back to a plain cell.
fn to_plain_cell(c: PuyoColor) -> (r: Option<Puyo>)
    ensures
        r == plain_cell(c),
{
    match c {
        PuyoColor::Empty => None,
        PuyoColor::Red => Some(Puyo::Red),
        PuyoColor::Green => Some(Puyo::Green),
        PuyoColor::Blue => Some(Puyo::Blue),
        PuyoColor::Yellow => Some(Puyo::Yellow),
        PuyoColor::Purple => Some(Puyo::Purple),
        PuyoColor::Ojama => Some(Puyo::Ojama),
    }
}

/// Simulate chains on the given field.
///
/// On the canonical 6 x 13 layout the field's floating cells settle first,
/// then rounds of vanish-and-settle run to the terminal state, scored from
/// chain index 1; the surviving cells are written back. A field of any other
/// shape is left untouched and reports no chains.
pub fn simulate_chains(field: &mut Field) -> (r: ChainResult)
    ensures
        final(field).width == old(field).width,
        final(field).height == old(field).height,
        canonical_layout(*old(field)) ==> r.chains == sim_rec(
            settled(field_grid(*old(field))), 1, 78,
        ).1 && r.score == sim_rec(settled(field_grid(*old(field))), 1, 78).2 && final(field).wf()
            && forall|x: int, y: int|
            0 <= x < 6 && 0 <= y < 13 ==> final(field).cell_at(x, y) == plain_cell(
                cell(sim_rec(settled(field_grid(*old(field))), 1, 78).0, x, y),
            ),
        !canonical_layout(*old(field)) ==> r.chains == 0 && r.score == 0 && *final(field)
            == *old(field),
{
    if !(field.width == 6 && field.height == 13 && field.cells.len() == 78) {
        return ChainResult { chains: 0, score: 0 };
    }
    let ghost g0 = field_grid(*field);
    let mut cells: Vec<PuyoColor> = Vec::new();
    let mut x: usize = 0;
    while x < 6
        invariant
            field.wf(),
            field.width == 6,
            field.height == 13,
            g0 == field_grid(*field),
            x <= 6,
            cells@.len() == 13 * x,
            forall|j: int| 0 <= j < cells@.len() ==> cells@[j] == g0[j],
        decreases 6 - x,
    {
        let mut y: usize = 0;
        while y < 13
            invariant
                field.wf(),
                field.width == 6,
                field.height == 13,
                g0 == field_grid(*field),
                x < 6,
                y <= 13,
                cells@.len() == 13 * x + y,
                forall|j: int| 0 <= j < cells@.len() ==> cells@[j] == g0[j],
            decreases 13 - y,
        {
            proof {
                lemma_cidx(x as int, y as int);
            }
            cells.push(to_engine_color(field.get(x, y)));
            y = y + 1;
        }
        x = x + 1;
    }
    let pf = PlainField { cells };
    proof {
        assert(pf.grid() =~= g0);
    }
    let mut cf = CoreField::from_plain_field_with_drop(&pf);
    let res = cf.simulate(1);
    let ghost gfinal = cf.grid();
    proof {
        crate::model::lemma_sim_score_bound(settled(g0), 1, 78);
        assert(res.score < 0x1_0000_0000);
    }
    let score32 = res.score as u32;
    let mut x2: usize = 0;
    while x2 < 6
        invariant
            field.wf(),
            field.width == 6,
            field.height == 13,
            cf.wf(),
            gfinal == cf.grid(),
            x2 <= 6,
            forall|xa: int, ya: int|
                0 <= xa < 6 && 0 <= ya < 13 && (xa < x2) ==> field.cell_at(xa, ya) == plain_cell(
                    cell(gfinal, xa, ya),
                ),
        decreases 6 - x2,
    {
        let mut y2: usize = 0;
        while y2 < 13
            invariant
                field.wf(),
                field.width == 6,
                field.height == 13,
                cf.wf(),
                gfinal == cf.grid(),
                x2 < 6,
                y2 <= 13,
                forall|xa: int, ya: int|
                    0 <= xa < 6 && 0 <= ya < 13 && (xa < x2 || (xa == x2 && ya < y2))
                        ==> field.cell_at(xa, ya) == plain_cell(cell(gfinal, xa, ya)),
            decreases 13 - y2,
        {
            let c = cf.color(x2 as i32, y2 as i32);
            field.set(x2, y2, to_plain_cell(c));
            y2 = y2 + 1;
        }
        x2 = x2 + 1;
    }
    ChainResult { chains: res.chains, score: score32 }
}

} // verus!
