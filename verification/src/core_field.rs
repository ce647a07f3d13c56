//! The bit-board engine: a 6x13 packed field, connected-group detection,
//! gravity, move application and the chain simulator.

use vstd::prelude::*;
use crate::model::adj;
use crate::model::cell;
use crate::model::cidx;
use crate::model::colseq;
use crate::model::col_occ;
use crate::model::conn_mask;
use crate::model::conn_to;
use crate::model::connected_idx;
use crate::model::has_erasable_color_upto;
use crate::model::connected;
use crate::model::count_true;
use crate::model::csize;
use crate::model::erasable_at;
use crate::model::erasable_idx;
use crate::model::erase_mask;
use crate::model::erased_count;
use crate::model::has_erasable;
use crate::model::group_bonus_total;
use crate::model::group_bonus_upto;
use crate::model::is_rep;
use crate::model::multiplier;
use crate::model::num_colors;
use crate::model::occupied;
use crate::model::occupied_upto;
use crate::model::ojama_cleared_at;
use crate::model::round_score_spec;
use crate::model::settled;
use crate::model::sim_rec;
use crate::model::vanish_at;
use crate::model::vanish_col_mask;
use crate::model::vanish_count;
use crate::model::vanish_count_upto;
use crate::model::vanished;
use crate::model::grid_wf;
use crate::model::in_bounds;
use crate::model::is_normal;
use crate::model::kept;
use crate::model::lemma_cidx;
use crate::model::lemma_closed_contains;
use crate::model::lemma_connected_step;
use crate::model::lemma_count_true_congruence;
use crate::model::lemma_count_true_le;
use crate::model::lemma_count_true_pos;
use crate::model::lemma_count_true_update;
use crate::model::xof;
use crate::model::yof;

verus! {

/// Colors used in the field.
#[derive(Clone, Copy, Debug, PartialEq, Eq, Hash, Structural)]
pub enum PuyoColor {
    Empty,
    Ojama,
    Red,
    Green,
    Blue,
    Yellow,
    Purple,
}

/// Position on the field; column `x` from 0, row `y` from 0 at the bottom.
#[derive(Clone, Copy, Debug, PartialEq, Eq, Structural)]
pub struct Position {
    pub x: i32,
    pub y: i32,
}

/// Bit mask over the field cells, used for marking cells.
#[derive(Clone, Debug)]
pub struct FieldBits {
    bits: Vec<bool>,
}

impl FieldBits {
    /// The mask as a column-major sequence of 78 bits.
    pub closed spec fn mask(&self) -> Seq<bool> {
        self.bits@
    }

    /// A mask holds exactly one bit per cell.
    pub closed spec fn wf(&self) -> bool {
        self.bits@.len() == 78
    }

    /// An all-clear mask.
    pub fn new() -> (r: FieldBits)
        ensures
            r.wf(),
            forall|i: int| 0 <= i < 78 ==> !r.mask()[i],
    {
        FieldBits { bits: vec![false; 78] }
    }

    /// Reads the bit of cell (`x`, `y`).
    pub fn get(&self, x: usize, y: usize) -> (r: bool)
        requires
            self.wf(),
            x < 6,
            y < 13,
        ensures
            r == self.mask()[cidx(x as int, y as int)],
    {
        proof {
            lemma_cidx(x as int, y as int);
        }
        self.bits[x * 13 + y]
    }

    /// Sets the bit of cell (`x`, `y`).
    pub fn set(&mut self, x: usize, y: usize, b: bool)
        requires
            old(self).wf(),
            x < 6,
            y < 13,
        ensures
            final(self).wf(),
            final(self).mask() == old(self).mask().update(cidx(x as int, y as int), b),
    {
        proof {
            lemma_cidx(x as int, y as int);
        }
        self.bits[x * 13 + y] = b;
    }
}

/// Bit-based packed field: 78 cells in column-major order.
#[derive(Clone, Debug, PartialEq, Eq)]
pub struct BitField {
    cells: Vec<PuyoColor>,
}

impl BitField {
    /// The grid as a column-major sequence of 78 cells.
    pub closed spec fn grid(&self) -> Seq<PuyoColor> {
        self.cells@
    }

    /// The grid holds exactly one color per cell.
    pub closed spec fn wf(&self) -> bool {
        grid_wf(self.grid())
    }

    /// An all-empty field.
    pub fn new() -> (r: BitField)
        ensures
            r.wf(),
            forall|i: int| 0 <= i < 78 ==> r.grid()[i] == PuyoColor::Empty,
    {
        BitField { cells: vec![PuyoColor::Empty; 78] }
    }

    /// Reads the color of cell (`x`, `y`).
    pub fn get(&self, x: usize, y: usize) -> (r: PuyoColor)
        requires
            self.wf(),
            x < 6,
            y < 13,
        ensures
            r == cell(self.grid(), x as int, y as int),
    {
        proof {
            lemma_cidx(x as int, y as int);
        }
        self.cells[x * 13 + y]
    }

    /// Writes the color of cell (`x`, `y`), leaving every other cell unchanged.
    pub fn set(&mut self, x: usize, y: usize, c: PuyoColor)
        requires
            old(self).wf(),
            x < 6,
            y < 13,
        ensures
            final(self).wf(),
            final(self).grid() == old(self).grid().update(cidx(x as int, y as int), c),
    {
        proof {
            lemma_cidx(x as int, y as int);
        }
        self.cells[x * 13 + y] = c;
    }
}

/// `p` names a cell on the field.
pub open spec fn pos_valid(p: Position) -> bool {
    0 <= p.x < 6 && 0 <= p.y < 13
}

/// Flat index of the cell `p` names.
pub open spec fn pos_idx(p: Position) -> int {
    cidx(p.x as int, p.y as int)
}

/// Some entry of the work list names the cell of flat index `i`.
pub open spec fn stack_has(s: Seq<Position>, i: int) -> bool {
    exists|k: int| 0 <= k < s.len() && pos_idx(s[k]) == i
}

/// Every same-color neighbor of the cell of flat index `i` is marked in `m`.
pub open spec fn neighbors_done(g: Seq<PuyoColor>, c: PuyoColor, m: Seq<bool>, i: int) -> bool {
    forall|qx: int, qy: int|
        in_bounds(qx, qy) && adj(xof(i), yof(i), qx, qy) && cell(g, qx, qy) == c ==> m[cidx(
            qx, qy,
        )]
}

/// Marks and records the neighbor (`qx`, `qy`) of the component cell
/// (`px`, `py`) when it lies on the field, has the component's color, and is
/// not yet visited; otherwise changes nothing.
#[allow(unused_variables)]
fn try_visit(
    bf: &BitField,
    c: PuyoColor,
    Ghost(sx): Ghost<int>,
    Ghost(sy): Ghost<int>,
    px: usize,
    py: usize,
    qx: i32,
    qy: i32,
    visited: &mut FieldBits,
    work: &mut Vec<Position>,
    out: &mut Vec<Position>,
)
    requires
        bf.wf(),
        old(visited).wf(),
        in_bounds(sx, sy),
        px < 6,
        py < 13,
        adj(px as int, py as int, qx as int, qy as int),
        connected(bf.grid(), c, sx, sy, px as int, py as int),
        forall|i: int|
            0 <= i < 78 && old(visited).mask()[i] ==> connected(
                bf.grid(), c, sx, sy, xof(i), yof(i),
            ),
        forall|k: int|
            0 <= k < old(work)@.len() ==> pos_valid(old(work)@[k]) && old(visited).mask()[pos_idx(
                old(work)@[k],
            )],
        old(out)@.len() == count_true(old(visited).mask(), 78),
        forall|k: int|
            0 <= k < old(out)@.len() ==> pos_valid(old(out)@[k]) && old(visited).mask()[pos_idx(
                old(out)@[k],
            )],
        forall|k1: int, k2: int|
            0 <= k1 < k2 < old(out)@.len() ==> pos_idx(old(out)@[k1]) != pos_idx(old(out)@[k2]),
    ensures
        final(visited).wf(),
        forall|i: int|
            0 <= i < 78 ==> final(visited).mask()[i] == (old(visited).mask()[i] || (in_bounds(
                qx as int, qy as int,
            ) && i == cidx(qx as int, qy as int) && cell(bf.grid(), qx as int, qy as int) == c)),
        in_bounds(qx as int, qy as int) && cell(bf.grid(), qx as int, qy as int) == c ==> final(visited).mask()[cidx(qx as int, qy as int)],
        forall|i: int|
            0 <= i < 78 && final(visited).mask()[i] ==> connected(
                bf.grid(), c, sx, sy, xof(i), yof(i),
            ),
        forall|k: int|
            0 <= k < final(work)@.len() ==> pos_valid(final(work)@[k]) && final(visited).mask()[pos_idx(final(work)@[k])],
        final(work)@.len() >= old(work)@.len(),
        forall|k: int| 0 <= k < old(work)@.len() ==> final(work)@[k] == old(work)@[k],
        forall|k: int|
            old(work)@.len() <= k < final(work)@.len() ==> final(visited).mask()[pos_idx(
                final(work)@[k],
            )] && !old(visited).mask()[pos_idx(final(work)@[k])],
        forall|i: int|
            0 <= i < 78 && final(visited).mask()[i] && !old(visited).mask()[i] ==> stack_has(
                final(work)@, i,
            ),
        final(work)@.len() + count_true(old(visited).mask(), 78) == old(work)@.len() + count_true(
            final(visited).mask(), 78,
        ),
        final(out)@.len() == count_true(final(visited).mask(), 78),
        forall|k: int|
            0 <= k < final(out)@.len() ==> pos_valid(final(out)@[k]) && final(visited).mask()[pos_idx(final(out)@[k])],
        forall|k1: int, k2: int|
            0 <= k1 < k2 < final(out)@.len() ==> pos_idx(final(out)@[k1]) != pos_idx(
                final(out)@[k2],
            ),
{
    if qx >= 0 && qx < 6 && qy >= 0 && qy < 13 {
        let ux = qx as usize;
        let uy = qy as usize;
        proof {
            lemma_cidx(qx as int, qy as int);
        }
        if !visited.get(ux, uy) {
            let qc = bf.get(ux, uy);
            if qc == c {
                proof {
                    lemma_connected_step(
                        bf.grid(), c, sx, sy, px as int, py as int, qx as int, qy as int,
                    );
                    lemma_count_true_update(visited.mask(), cidx(qx as int, qy as int), 78);
                }
                visited.set(ux, uy, true);
                let q = Position { x: qx, y: qy };
                work.push(q);
                out.push(q);
                proof {
                    assert(pos_idx(work@[work@.len() - 1]) == cidx(qx as int, qy as int));
                    assert forall|i: int| 0 <= i < 78 && visited.mask()[i] implies connected(
                        bf.grid(), c, sx, sy, xof(i), yof(i),
                    ) by {
                        if i != cidx(qx as int, qy as int) {
                            assert(old(visited).mask()[i]);
                        } else {
                            lemma_cidx(qx as int, qy as int);
                        }
                    }
                }
            }
        }
    }
}

/// Work-list flood fill: computes the same-color 4-connected component
/// seeded at (`sx`, `sy`), as a visit mask and as the list of its cells.
fn flood(bf: &BitField, sx: usize, sy: usize) -> (r: (FieldBits, Vec<Position>))
    requires
        bf.wf(),
        sx < 6,
        sy < 13,
    ensures
        r.0.wf(),
        forall|i: int|
            0 <= i < 78 ==> r.0.mask()[i] == connected(
                bf.grid(), cell(bf.grid(), sx as int, sy as int), sx as int, sy as int, xof(i),
                yof(i),
            ),
        r.1@.len() == csize(bf.grid(), sx as int, sy as int),
        forall|k: int|
            0 <= k < r.1@.len() ==> pos_valid(r.1@[k]) && connected(
                bf.grid(), cell(bf.grid(), sx as int, sy as int), sx as int, sy as int,
                r.1@[k].x as int, r.1@[k].y as int,
            ),
        forall|k1: int, k2: int| 0 <= k1 < k2 < r.1@.len() ==> pos_idx(r.1@[k1]) != pos_idx(
            r.1@[k2],
        ),
{
    let ghost g = bf.grid();
    let ghost sxi = sx as int;
    let ghost syi = sy as int;
    let c = bf.get(sx, sy);
    let mut visited = FieldBits::new();
    proof {
        lemma_cidx(sxi, syi);
        assert(conn_to(g, c, sxi, syi, sxi, syi, 0nat));
        crate::model::lemma_count_true_zero(visited.mask(), 78);
        lemma_count_true_update(visited.mask(), cidx(sxi, syi), 78);
    }
    visited.set(sx, sy, true);
    let seed = Position { x: sx as i32, y: sy as i32 };
    let mut work: Vec<Position> = Vec::new();
    work.push(seed);
    let mut out: Vec<Position> = Vec::new();
    out.push(seed);
    proof {
        lemma_count_true_le(visited.mask(), 78);
        assert(pos_idx(work@[0]) == cidx(sxi, syi));
        assert(stack_has(work@, cidx(sxi, syi)));
    }
    loop
        invariant
            bf.wf(),
            visited.wf(),
            g == bf.grid(),
            c == cell(g, sxi, syi),
            sxi == sx as int,
            syi == sy as int,
            sx < 6,
            sy < 13,
            visited.mask()[cidx(sxi, syi)],
            count_true(visited.mask(), 78) <= 78,
            forall|i: int|
                0 <= i < 78 && visited.mask()[i] ==> connected(g, c, sxi, syi, xof(i), yof(i)),
            forall|k: int|
                0 <= k < work@.len() ==> pos_valid(work@[k]) && visited.mask()[pos_idx(work@[k])],
            forall|i: int|
                0 <= i < 78 && visited.mask()[i] && !stack_has(work@, i) ==> neighbors_done(
                    g, c, visited.mask(), i,
                ),
            out@.len() == count_true(visited.mask(), 78),
            forall|k: int|
                0 <= k < out@.len() ==> pos_valid(out@[k]) && visited.mask()[pos_idx(out@[k])],
            forall|k1: int, k2: int|
                0 <= k1 < k2 < out@.len() ==> pos_idx(out@[k1]) != pos_idx(out@[k2]),
        ensures
            visited.wf(),
            work@.len() == 0,
            visited.mask()[cidx(sxi, syi)],
            forall|i: int|
                0 <= i < 78 && visited.mask()[i] ==> connected(g, c, sxi, syi, xof(i), yof(i)),
            forall|i: int|
                0 <= i < 78 && visited.mask()[i] ==> neighbors_done(g, c, visited.mask(), i),
            out@.len() == count_true(visited.mask(), 78),
            forall|k: int|
                0 <= k < out@.len() ==> pos_valid(out@[k]) && visited.mask()[pos_idx(out@[k])],
            forall|k1: int, k2: int|
                0 <= k1 < k2 < out@.len() ==> pos_idx(out@[k1]) != pos_idx(out@[k2]),
        decreases 2 * (78 - count_true(visited.mask(), 78)) + work@.len(),
    {
        if work.len() == 0 {
            break;
        }
        let ghost pre_work = work@;
        let ghost pre_mask = visited.mask();
        let p = work.pop().unwrap();
        let px = p.x as usize;
        let py = p.y as usize;
        proof {
            lemma_cidx(px as int, py as int);
        }
        try_visit(
            bf, c, Ghost(sxi), Ghost(syi), px, py, p.x + 1, p.y, &mut visited, &mut work,
            &mut out,
        );
        try_visit(
            bf, c, Ghost(sxi), Ghost(syi), px, py, p.x - 1, p.y, &mut visited, &mut work,
            &mut out,
        );
        try_visit(
            bf, c, Ghost(sxi), Ghost(syi), px, py, p.x, p.y + 1, &mut visited, &mut work,
            &mut out,
        );
        try_visit(
            bf, c, Ghost(sxi), Ghost(syi), px, py, p.x, p.y - 1, &mut visited, &mut work,
            &mut out,
        );
        proof {
            lemma_count_true_le(visited.mask(), 78);
            assert forall|i: int|
                0 <= i < 78 && visited.mask()[i] && !stack_has(work@, i)
                    implies neighbors_done(g, c, visited.mask(), i) by {
                crate::model::lemma_idx_split(i);
                if i == pos_idx(p) {
                    assert forall|qx: int, qy: int|
                        in_bounds(qx, qy) && adj(xof(i), yof(i), qx, qy) && cell(g, qx, qy)
                            == c implies visited.mask()[cidx(qx, qy)] by {
                        lemma_cidx(qx, qy);
                    }
                } else if pre_mask[i] {
                    if stack_has(pre_work, i) {
                        let k = choose|k: int| 0 <= k < pre_work.len() && pos_idx(pre_work[k])
                            == i;
                        assert(pre_work[k] == pre_work.drop_last()[k]);
                        assert(stack_has(work@, i));
                    }
                }
            }
        }
    }
    proof {
        let m = visited.mask();
        assert forall|ax: int, ay: int, qx: int, qy: int|
            in_bounds(ax, ay) && in_bounds(qx, qy) && m[cidx(ax, ay)] && adj(ax, ay, qx, qy)
                && cell(g, qx, qy) == c implies m[cidx(qx, qy)] by {
            lemma_cidx(ax, ay);
            assert(neighbors_done(g, c, m, cidx(ax, ay)));
        }
        assert forall|i: int| 0 <= i < 78 implies m[i] == connected(
            g, c, sxi, syi, xof(i), yof(i),
        ) by {
            crate::model::lemma_idx_split(i);
            if !m[i] && connected(g, c, sxi, syi, xof(i), yof(i)) {
                let n = choose|n: nat| conn_to(g, c, sxi, syi, xof(i), yof(i), n);
                lemma_closed_contains(g, c, sxi, syi, m, xof(i), yof(i), n);
            }
        }
        lemma_count_true_congruence(m, conn_mask(g, sxi, syi), 78);
        assert forall|k: int| 0 <= k < out@.len() implies pos_valid(out@[k]) && connected(
            g, c, sxi, syi, out@[k].x as int, out@[k].y as int,
        ) by {
            lemma_cidx(out@[k].x as int, out@[k].y as int);
        }
    }
    (visited, out)
}

impl Default for BitField {
    /// Same as `new`: an all-empty field.
    fn default() -> (r: Self)
        ensures
            r.wf(),
            forall|i: int| 0 <= i < 78 ==> r.grid()[i] == PuyoColor::Empty,
    {
        BitField::new()
    }
}

/// Whether the cell at (`x`, `y`) belongs to an erasable group.
fn cell_erasable(bf: &BitField, x: usize, y: usize) -> (r: bool)
    requires
        bf.wf(),
        x < 6,
        y < 13,
    ensures
        r == erasable_at(bf.grid(), x as int, y as int),
{
    let c = bf.get(x, y);
    if c == PuyoColor::Empty || c == PuyoColor::Ojama {
        false
    } else {
        let fl = flood(bf, x, y);
        fl.1.len() >= 4
    }
}

/// Whether the cell at (`x`, `y`) vanishes this round: it is erasable, or it
/// is garbage beside an erasable cell.
fn cell_vanishes(bf: &BitField, x: usize, y: usize) -> (r: bool)
    requires
        bf.wf(),
        x < 6,
        y < 13,
    ensures
        r == vanish_at(bf.grid(), x as int, y as int),
{
    let ghost g = bf.grid();
    let ghost xi = x as int;
    let ghost yi = y as int;
    let c = bf.get(x, y);
    if c == PuyoColor::Empty {
        proof {
            assert(!erasable_at(g, xi, yi));
            assert(!ojama_cleared_at(g, xi, yi));
        }
        false
    } else if c == PuyoColor::Ojama {
        let mut found = false;
        if x + 1 < 6 && cell_erasable(bf, x + 1, y) {
            found = true;
            proof {
                assert(adj(xi, yi, xi + 1, yi));
            }
        }
        if !found && x > 0 && cell_erasable(bf, x - 1, y) {
            found = true;
            proof {
                assert(adj(xi, yi, xi - 1, yi));
            }
        }
        if !found && y + 1 < 13 && cell_erasable(bf, x, y + 1) {
            found = true;
            proof {
                assert(adj(xi, yi, xi, yi + 1));
            }
        }
        if !found && y > 0 && cell_erasable(bf, x, y - 1) {
            found = true;
            proof {
                assert(adj(xi, yi, xi, yi - 1));
            }
        }
        proof {
            if !found {
                assert forall|qx: int, qy: int| !(adj(xi, yi, qx, qy) && erasable_at(
                    g, qx, qy,
                )) by {
                    if adj(xi, yi, qx, qy) && erasable_at(g, qx, qy) {
                        assert(in_bounds(qx, qy));
                        assert(false);
                    }
                }
            }
            assert(!erasable_at(g, xi, yi));
        }
        found
    } else {
        proof {
            assert(!ojama_cleared_at(g, xi, yi));
        }
        cell_erasable(bf, x, y)
    }
}

/// One pass over the field: counts the erasable cells and flags each normal
/// color that erases this round.
fn count_erasable_and_colors(bf: &BitField) -> (r: (u64, u64))
    requires
        bf.wf(),
    ensures
        r.0 == erased_count(bf.grid()),
        r.0 <= 78,
        r.1 == num_colors(bf.grid()),
{
    let ghost g = bf.grid();
    let mut count: u64 = 0;
    let mut red = false;
    let mut green = false;
    let mut blue = false;
    let mut yellow = false;
    let mut purple = false;
    let mut x: usize = 0;
    while x < 6
        invariant
            bf.wf(),
            g == bf.grid(),
            x <= 6,
            count == count_true(erase_mask(g), 13 * x),
            red == has_erasable_color_upto(g, PuyoColor::Red, 13 * x),
            green == has_erasable_color_upto(g, PuyoColor::Green, 13 * x),
            blue == has_erasable_color_upto(g, PuyoColor::Blue, 13 * x),
            yellow == has_erasable_color_upto(g, PuyoColor::Yellow, 13 * x),
            purple == has_erasable_color_upto(g, PuyoColor::Purple, 13 * x),
        decreases 6 - x,
    {
        let mut y: usize = 0;
        while y < 13
            invariant
                bf.wf(),
                g == bf.grid(),
                x < 6,
                y <= 13,
                count == count_true(erase_mask(g), 13 * x + y),
                red == has_erasable_color_upto(g, PuyoColor::Red, 13 * x + y),
                green == has_erasable_color_upto(g, PuyoColor::Green, 13 * x + y),
                blue == has_erasable_color_upto(g, PuyoColor::Blue, 13 * x + y),
                yellow == has_erasable_color_upto(g, PuyoColor::Yellow, 13 * x + y),
                purple == has_erasable_color_upto(g, PuyoColor::Purple, 13 * x + y),
            decreases 13 - y,
        {
            let ghost i = 13 * (x as int) + y;
            proof {
                lemma_cidx(x as int, y as int);
                assert(i == cidx(x as int, y as int));
                assert(erase_mask(g)[i] == erasable_at(g, x as int, y as int));
            }
            if cell_erasable(bf, x, y) {
                proof {
                    lemma_count_true_le(erase_mask(g), 13 * (x as int) + y);
                }
                count = count + 1;
                let c = bf.get(x, y);
                proof {
                    assert(erasable_idx(g, i) && g[i] == c);
                }
                if c == PuyoColor::Red {
                    red = true;
                } else if c == PuyoColor::Green {
                    green = true;
                } else if c == PuyoColor::Blue {
                    blue = true;
                } else if c == PuyoColor::Yellow {
                    yellow = true;
                } else if c == PuyoColor::Purple {
                    purple = true;
                }
            }
            y = y + 1;
        }
        x = x + 1;
    }
    proof {
        lemma_count_true_le(erase_mask(g), 78);
    }
    let mut colors: u64 = 0;
    if red {
        colors = colors + 1;
    }
    if green {
        colors = colors + 1;
    }
    if blue {
        colors = colors + 1;
    }
    if yellow {
        colors = colors + 1;
    }
    if purple {
        colors = colors + 1;
    }
    (count, colors)
}

/// One pass over the field: sums the group bonus over the erasing groups and
/// collects each group's cells and color, in canonical seed order.
fn collect_groups(bf: &BitField) -> (r: (u64, Vec<Vec<Position>>, Vec<PuyoColor>))
    requires
        bf.wf(),
    ensures
        r.0 == group_bonus_total(bf.grid()),
        r.0 <= 780,
        r.1@.len() == r.2@.len(),
        forall|k: int| 0 <= k < r.1@.len() ==> r.1@[k]@.len() >= 4,
    {
    let ghost g = bf.grid();
    let mut bonus: u64 = 0;
    let mut group_cells: Vec<Vec<Position>> = Vec::new();
    let mut group_colors: Vec<PuyoColor> = Vec::new();
    let mut x: usize = 0;
    while x < 6
        invariant
            bf.wf(),
            g == bf.grid(),
            x <= 6,
            bonus == group_bonus_upto(g, 13 * x),
            group_cells@.len() == group_colors@.len(),
            forall|k: int| 0 <= k < group_cells@.len() ==> group_cells@[k]@.len() >= 4,
        decreases 6 - x,
    {
        let mut y: usize = 0;
        while y < 13
            invariant
                bf.wf(),
                g == bf.grid(),
                x < 6,
                y <= 13,
                bonus == group_bonus_upto(g, 13 * x + y),
                group_cells@.len() == group_colors@.len(),
                forall|k: int| 0 <= k < group_cells@.len() ==> group_cells@[k]@.len() >= 4,
            decreases 13 - y,
        {
            let ghost i = 13 * (x as int) + y;
            proof {
                lemma_cidx(x as int, y as int);
            }
            let c = bf.get(x, y);
            if c != PuyoColor::Empty && c != PuyoColor::Ojama {
                let fl = flood(bf, x, y);
                if fl.1.len() >= 4 {
                    let mut earlier = false;
                    let mut j: usize = 0;
                    while j < 78
                        invariant
                            fl.0.wf(),
                            x < 6,
                            y < 13,
                            i == 13 * x + y,
                            j <= 78,
                            earlier == exists|jj: int| 0 <= jj < j && jj < i && fl.0.mask()[jj],
                        decreases 78 - j,
                    {
                        if j < x * 13 + y {
                            proof {
                                crate::model::lemma_idx_split(j as int);
                            }
                            if fl.0.get(j / 13, j % 13) {
                                earlier = true;
                            }
                        }
                        j = j + 1;
                    }
                    proof {
                        assert forall|jj: int| 0 <= jj < 78 implies fl.0.mask()[jj]
                            == connected_idx(g, i, jj) by {
                            crate::model::lemma_idx_split(jj);
                        }
                        if earlier {
                            assert(exists|jj: int| 0 <= jj < 78 && jj < i && fl.0.mask()[jj]);
                            let jj = choose|jj: int| 0 <= jj < 78 && jj < i && fl.0.mask()[jj];
                            assert(connected_idx(g, i, jj) && jj < i);
                            assert(!is_rep(g, i));
                        } else {
                            assert forall|jj: int|
                                0 <= jj < 78 && connected_idx(g, i, jj) implies jj >= i by {
                                assert(fl.0.mask()[jj]);
                            }
                            assert(is_rep(g, i));
                        }
                    }
                    if !earlier {
                        let b = crate::score::group_bonus(fl.1.len() as u64);
                        proof {
                            crate::model::lemma_group_bonus_upto_bound(g, i);
                        }
                        bonus = bonus + b;
                        group_cells.push(fl.1);
                        group_colors.push(c);
                    }
                } else {
                    proof {
                        assert(!is_rep(g, i));
                    }
                }
            } else {
                proof {
                    assert(!erasable_idx(g, i));
                    assert(!is_rep(g, i));
                }
            }
            proof {
                crate::model::lemma_group_bonus_upto_bound(g, i + 1);
            }
            y = y + 1;
        }
        x = x + 1;
    }
    proof {
        crate::model::lemma_group_bonus_upto_bound(g, 78);
    }
    (bonus, group_cells, group_colors)
}

/// One pass over the field: the mask of the cells that vanish this round,
/// and their number.
fn compute_vanish_mask(bf: &BitField) -> (r: (FieldBits, u32))
    requires
        bf.wf(),
    ensures
        r.0.wf(),
        forall|i: int|
            0 <= i < 78 ==> r.0.mask()[i] == vanish_at(bf.grid(), xof(i), yof(i)),
        r.1 == vanish_count(bf.grid()),
        r.1 <= 78,
{
    let ghost g = bf.grid();
    let mut m = FieldBits::new();
    let mut n: u32 = 0;
    let mut x: usize = 0;
    while x < 6
        invariant
            bf.wf(),
            g == bf.grid(),
            m.wf(),
            x <= 6,
            forall|i: int|
                0 <= i < 78 ==> m.mask()[i] == (i < 13 * x && vanish_at(g, xof(i), yof(i))),
            n == vanish_count_upto(g, x as int),
            n <= 13 * x,
        decreases 6 - x,
    {
        let mut y: usize = 0;
        while y < 13
            invariant
                bf.wf(),
                g == bf.grid(),
                m.wf(),
                x < 6,
                y <= 13,
                forall|i: int|
                    0 <= i < 78 ==> m.mask()[i] == ((i < 13 * x + y && vanish_at(
                        g, xof(i), yof(i),
                    )) || (13 * x <= i < 13 * x + y && vanish_at(g, xof(i), yof(i)))),
                n == vanish_count_upto(g, x as int) + count_true(
                    vanish_col_mask(g, x as int), y as int,
                ),
                n <= 13 * x + y,
            decreases 13 - y,
        {
            let v = cell_vanishes(bf, x, y);
            proof {
                lemma_cidx(x as int, y as int);
            }
            if v {
                m.set(x, y, true);
                n = n + 1;
            }
            proof {
                assert(vanish_col_mask(g, x as int)[y as int] == vanish_at(
                    g, x as int, y as int,
                ));
                assert forall|i: int| 0 <= i < 78 implies m.mask()[i] == ((i < 13 * (
                x as int) + y + 1 && vanish_at(g, xof(i), yof(i))) || (13 * (x as int) <= i < 13
                    * (x as int) + y + 1 && vanish_at(g, xof(i), yof(i)))) by {
                    crate::model::lemma_idx_split(i);
                }
            }
            y = y + 1;
        }
        x = x + 1;
    }
    (m, n)
}

/// Empties every cell the mask names, realizing this round's vanish step.
fn apply_vanish(bf: &mut BitField, m: &FieldBits)
    requires
        old(bf).wf(),
        m.wf(),
        forall|i: int|
            0 <= i < 78 ==> m.mask()[i] == vanish_at(old(bf).grid(), xof(i), yof(i)),
    ensures
        final(bf).wf(),
        final(bf).grid() == vanished(old(bf).grid()),
{
    let ghost g0 = old(bf).grid();
    let mut x: usize = 0;
    while x < 6
        invariant
            bf.wf(),
            m.wf(),
            g0.len() == 78,
            x <= 6,
            forall|i: int| 0 <= i < 78 ==> m.mask()[i] == vanish_at(g0, xof(i), yof(i)),
            forall|i: int|
                0 <= i < 78 ==> bf.grid()[i] == (if i < 13 * x && vanish_at(g0, xof(i), yof(i)) {
                    PuyoColor::Empty
                } else {
                    g0[i]
                }),
        decreases 6 - x,
    {
        let mut y: usize = 0;
        while y < 13
            invariant
                bf.wf(),
                m.wf(),
                g0.len() == 78,
                x < 6,
                y <= 13,
                forall|i: int| 0 <= i < 78 ==> m.mask()[i] == vanish_at(g0, xof(i), yof(i)),
                forall|i: int|
                    0 <= i < 78 ==> bf.grid()[i] == (if i < 13 * x + y && vanish_at(
                        g0, xof(i), yof(i),
                    ) {
                        PuyoColor::Empty
                    } else {
                        g0[i]
                    }),
            decreases 13 - y,
        {
            proof {
                lemma_cidx(x as int, y as int);
            }
            if m.get(x, y) {
                bf.set(x, y, PuyoColor::Empty);
            }
            proof {
                assert forall|i: int| 0 <= i < 78 implies bf.grid()[i] == (if i < 13 * (
                x as int) + y + 1 && vanish_at(g0, xof(i), yof(i)) {
                    PuyoColor::Empty
                } else {
                    g0[i]
                }) by {
                    crate::model::lemma_idx_split(i);
                }
            }
            y = y + 1;
        }
        x = x + 1;
    }
    proof {
        assert forall|i: int| 0 <= i < 78 implies bf.grid()[i] == vanished(g0)[i] by {
            crate::model::lemma_idx_split(i);
        }
        assert(bf.grid() =~= vanished(g0));
    }
}

/// Plain field used for conversions: the same 78 cells, column-major.
#[derive(Clone, Debug, PartialEq, Eq)]
pub struct PlainField {
    pub cells: Vec<PuyoColor>,
}

impl PlainField {
    /// The grid as a column-major sequence of 78 cells.
    pub open spec fn grid(&self) -> Seq<PuyoColor> {
        self.cells@
    }

    /// The grid holds exactly one color per cell.
    pub open spec fn wf(&self) -> bool {
        grid_wf(self.grid())
    }
}

/// List of puyos to drop, one column each, in order.
#[derive(Clone, Debug, PartialEq, Eq)]
pub struct ColumnPuyoList {
    pub entries: Vec<(usize, PuyoColor)>,
}

impl ColumnPuyoList {
    /// Every entry names a column and a non-empty color.
    pub open spec fn wf(&self) -> bool {
        forall|k: int|
            0 <= k < self.entries@.len() ==> self.entries@[k].0 < 6 && self.entries@[k].1
                != PuyoColor::Empty
    }
}

/// Decision of where to place a Kumipuyo: the axis column `x` and the
/// rotation `r` (0: child above, 1: child right, 2: child below, 3: child
/// left).
#[derive(Clone, Copy, Debug, PartialEq, Eq, Structural)]
pub struct Decision {
    pub x: usize,
    pub r: usize,
}

impl Decision {
    /// The decision names columns on the field.
    pub open spec fn wf(&self) -> bool {
        self.x < 6 && self.r < 4 && (self.r == 1 ==> self.x < 5) && (self.r == 3 ==> self.x
            >= 1)
    }

    /// The column the child puyo lands in.
    pub open spec fn child_x(&self) -> int {
        if self.r == 1 {
            self.x + 1
        } else if self.r == 3 {
            self.x - 1
        } else {
            self.x as int
        }
    }

    /// The pair spans two columns.
    pub open spec fn is_horizontal(&self) -> bool {
        self.r == 1 || self.r == 3
    }
}

/// Pair of puyos: the axis puyo and the child puyo.
#[derive(Clone, Copy, Debug, PartialEq, Eq, Structural)]
pub struct Kumipuyo {
    pub axis: PuyoColor,
    pub child: PuyoColor,
}

/// Result of chain simulation: rounds that erased, total score, frames spent.
#[derive(Clone, Copy, Debug, Default, PartialEq, Eq, Structural)]
pub struct RensaResult {
    pub chains: u32,
    pub score: u64,
    pub frames: u32,
}

/// Result of one chain step: whether anything vanished, how many cells were
/// erased for score, the round score and the frames spent.
#[derive(Clone, Copy, Debug, Default, PartialEq, Eq, Structural)]
pub struct RensaStepResult {
    pub vanished: bool,
    pub num_erased: u32,
    pub score: u64,
    pub frames: u32,
}

/// Context for continuing a chain already in progress: the next 1-based
/// chain index and the score accumulated so far.
#[derive(Clone, Copy, Debug, PartialEq, Eq, Structural)]
pub struct SimulationContext {
    pub chain: i32,
    pub score: u64,
}

impl SimulationContext {
    /// The chain index is 1-based and the score leaves room for one call's
    /// worth of additional score.
    pub open spec fn wf(&self) -> bool {
        1 <= self.chain <= 0x7FFF_FF00 && self.score <= 0xFF00_0000_0000_0000u64
    }

    /// A fresh chain: index 1, nothing scored yet.
    pub fn new() -> (r: SimulationContext)
        ensures
            r.wf(),
            r.chain == 1,
            r.score == 0,
    {
        SimulationContext { chain: 1, score: 0 }
    }
}

impl Default for SimulationContext {
    /// Same as `new`: a fresh chain.
    fn default() -> (r: Self)
        ensures
            r.wf(),
            r.chain == 1,
            r.score == 0,
    {
        SimulationContext::new()
    }
}

/// Observer of simulation steps: notified once per erased group and once per
/// gravity settle, in round order.
pub trait Tracker {
    /// One erasing group, with its cells and color, before removal.
    fn on_group_erased(&mut self, cells: &Vec<Position>, color: PuyoColor);

    /// One gravity settle, with each cell's movement as (from, to).
    fn on_gravity(&mut self, moves: &Vec<(Position, Position)>);
}

/// A tracker that ignores every notification.
pub struct RensaNonTracker;

impl Tracker for RensaNonTracker {
    fn on_group_erased(&mut self, cells: &Vec<Position>, color: PuyoColor) {
    }

    fn on_gravity(&mut self, moves: &Vec<(Position, Position)>) {
    }
}

pub const MAP_WIDTH: usize = 6;

/// Frames one dropped row costs.
pub const FRAMES_PER_DROP_ROW: i32 = 2;

/// Frames the landing of a piece costs.
pub const FRAMES_GROUNDING: i32 = 2;

/// Frames one vanishing round costs.
pub const FRAMES_VANISH_ANIMATION: u32 = 30;

/// Frames a drop of the next pair costs, from the two landing columns'
/// heights: a split pair (chigiri) grounds twice and falls to the lower
/// column.
pub open spec fn drop_frames_spec(h1: int, h2: int) -> int {
    if h1 == h2 {
        (13 - h1) * 2 + 2
    } else if h1 < h2 {
        (13 - h1) * 2 + 4
    } else {
        (13 - h2) * 2 + 4
    }
}

/// A split drop always costs strictly more frames than landing the pair flat
/// on either of its columns.
pub proof fn lemma_chigiri_frames(h1: int, h2: int, h: int)
    requires
        h1 != h2,
        0 <= h1 <= 13,
        0 <= h2 <= 13,
        h1 <= h || h2 <= h,
        h <= 13,
    ensures
        drop_frames_spec(h1, h2) > drop_frames_spec(h, h),
{
}

/// The grid after placing the pair `kp` as decision `d` asks, given the two
/// landing columns' prior heights.
pub open spec fn kumi_grid(
    g: Seq<PuyoColor>,
    hx: int,
    hcx: int,
    d: Decision,
    kp: Kumipuyo,
) -> Seq<PuyoColor> {
    if d.r == 0 {
        g.update(cidx(d.x as int, hx), kp.axis).update(cidx(d.x as int, hx + 1), kp.child)
    } else if d.r == 2 {
        g.update(cidx(d.x as int, hx), kp.child).update(cidx(d.x as int, hx + 1), kp.axis)
    } else {
        g.update(cidx(d.x as int, hx), kp.axis).update(cidx(d.child_x(), hcx), kp.child)
    }
}

/// CoreField represents a field: the packed grid and a per-column height
/// cache, kept free of floating gaps.
#[derive(Clone, Debug, PartialEq, Eq)]
pub struct CoreField {
    heights: Vec<i32>,
    bit_field: BitField,
}

impl CoreField {
    /// The grid as a column-major sequence of 78 cells.
    pub closed spec fn grid(&self) -> Seq<PuyoColor> {
        self.bit_field.grid()
    }

    /// The cached height of column `x`.
    pub closed spec fn height_of(&self, x: int) -> int {
        self.heights@[x] as int
    }

    /// Each column is occupied exactly up to its cached height, with no gaps.
    pub closed spec fn wf(&self) -> bool {
        &&& self.bit_field.wf()
        &&& self.heights@.len() == 6
        &&& forall|x: int| 0 <= x < 6 ==> 0 <= #[trigger] self.height_of(x) <= 13
        &&& forall|x: int, y: int|
            in_bounds(x, y) ==> ((cell(self.grid(), x, y) != PuyoColor::Empty) <==> y
                < self.height_of(x))
    }

    /// A well-formed field's grid holds one entry per cell. The invariant
    /// itself is closed; this states its shape for callers outside this
    /// module that reason about the grid sequence.
    pub proof fn lemma_wf_grid(&self)
        requires
            self.wf(),
        ensures
            grid_wf(self.grid()),
            self.grid().len() == 78,
    {
    }

    /// Constructs an empty CoreField.
    pub fn new() -> (r: Self)
        ensures
            r.wf(),
            forall|x: int, y: int| in_bounds(x, y) ==> cell(r.grid(), x, y) == PuyoColor::Empty,
            forall|x: int| 0 <= x < 6 ==> r.height_of(x) == 0,
    {
        let r = CoreField { heights: vec![0i32; 6], bit_field: BitField::new() };
        proof {
            assert forall|x: int, y: int| in_bounds(x, y) implies cell(r.grid(), x, y)
                == PuyoColor::Empty by {
                lemma_cidx(x, y);
            }
        }
        r
    }

    /// Gets the color of the puyo at (`x`, `y`).
    pub fn color(&self, x: i32, y: i32) -> (r: PuyoColor)
        requires
            self.wf(),
            in_bounds(x as int, y as int),
        ensures
            r == cell(self.grid(), x as int, y as int),
    {
        self.bit_field.get(x as usize, y as usize)
    }

    /// Returns true if the puyo at (`x`, `y`) is `c`.
    pub fn is_color(&self, x: i32, y: i32, c: PuyoColor) -> (r: bool)
        requires
            self.wf(),
            in_bounds(x as int, y as int),
        ensures
            r == (cell(self.grid(), x as int, y as int) == c),
    {
        self.color(x, y) == c
    }

    /// Returns true if the cell at (`x`, `y`) is empty.
    pub fn is_empty(&self, x: i32, y: i32) -> (r: bool)
        requires
            self.wf(),
            in_bounds(x as int, y as int),
        ensures
            r == (cell(self.grid(), x as int, y as int) == PuyoColor::Empty),
    {
        self.is_color(x, y, PuyoColor::Empty)
    }

    /// Returns true if the puyo at (`x`, `y`) has a normal (matchable) color.
    pub fn is_normal_color(&self, x: i32, y: i32) -> (r: bool)
        requires
            self.wf(),
            in_bounds(x as int, y as int),
        ensures
            r == is_normal(cell(self.grid(), x as int, y as int)),
    {
        let c = self.color(x, y);
        c != PuyoColor::Empty && c != PuyoColor::Ojama
    }

    /// Returns the height of the specified column.
    pub fn height(&self, x: usize) -> (r: i32)
        requires
            self.wf(),
            x < 6,
        ensures
            r == self.height_of(x as int),
            0 <= r <= 13,
    {
        proof {
            assert(0 <= self.height_of(x as int) <= 13);
        }
        self.heights[x]
    }

    /// Returns the internal bit field representation.
    pub fn bit_field(&self) -> (r: &BitField)
        ensures
            r.grid() == self.grid(),
    {
        &self.bit_field
    }

    /// Returns true if the field holds no puyo at all.
    pub fn is_zenkeshi(&self) -> (r: bool)
        requires
            self.wf(),
        ensures
            r == forall|x: int, y: int| in_bounds(x, y) ==> cell(self.grid(), x, y)
                == PuyoColor::Empty,
    {
        let mut x: usize = 0;
        let mut all_zero = true;
        while x < 6
            invariant
                self.wf(),
                x <= 6,
                all_zero ==> forall|x2: int| 0 <= x2 < x ==> self.height_of(x2) == 0,
                !all_zero ==> exists|x2: int| 0 <= x2 < x && self.height_of(x2) != 0,
            decreases 6 - x,
        {
            if self.heights[x] != 0 {
                proof {
                    assert(self.height_of(x as int) != 0);
                }
                all_zero = false;
            }
            x = x + 1;
        }
        proof {
            if all_zero {
                assert forall|x2: int, y2: int| in_bounds(x2, y2) implies cell(
                    self.grid(), x2, y2,
                ) == PuyoColor::Empty by {
                    assert(self.height_of(x2) == 0);
                }
            } else {
                assert(exists|x2: int| 0 <= x2 < 6 && self.height_of(x2) != 0);
                let xw = choose|x2: int| 0 <= x2 < 6 && self.height_of(x2) != 0;
                assert(0 <= self.height_of(xw) <= 13);
                assert(in_bounds(xw, 0));
                assert(cell(self.grid(), xw, 0) != PuyoColor::Empty);
                assert(!(forall|x2: int, y2: int|
                    in_bounds(x2, y2) ==> cell(self.grid(), x2, y2) == PuyoColor::Empty));
            }
        }
        all_zero
    }

    /// Places a puyo on top of column `x` unless the column already reaches
    /// `max_height`; returns whether it was placed.
    pub fn drop_puyo_on_with_max_height(&mut self, x: i32, pc: PuyoColor, max_height: i32) -> (r:
        bool)
        requires
            old(self).wf(),
            0 <= x < 6,
            pc != PuyoColor::Empty,
            0 <= max_height <= 13,
        ensures
            final(self).wf(),
            r == (old(self).height_of(x as int) < max_height),
            r ==> final(self).grid() == old(self).grid().update(
                cidx(x as int, old(self).height_of(x as int)), pc,
            ) && final(self).height_of(x as int) == old(self).height_of(x as int) + 1,
            !r ==> *final(self) == *old(self),
            forall|x2: int| 0 <= x2 < 6 && x2 != x as int ==> final(self).height_of(x2) == old(
                self,
            ).height_of(x2),
    {
        let ux = x as usize;
        let h = self.heights[ux];
        proof {
            assert(0 <= self.height_of(x as int) <= 13);
        }
        if h < max_height {
            let uy = h as usize;
            proof {
                assert(in_bounds(x as int, h as int));
                assert(cell(self.grid(), x as int, h as int) == PuyoColor::Empty);
            }
            self.bit_field.set(ux, uy, pc);
            self.heights[ux] = h + 1;
            proof {
                lemma_cidx(x as int, h as int);
                assert forall|x2: int| 0 <= x2 < 6 implies 0 <= #[trigger] self.height_of(x2)
                    <= 13 by {
                    assert(0 <= old(self).height_of(x2) <= 13);
                }
                assert forall|x2: int, y2: int| in_bounds(x2, y2) implies ((cell(
                    self.grid(), x2, y2,
                ) != PuyoColor::Empty) <==> y2 < self.height_of(x2)) by {
                    lemma_cidx(x2, y2);
                    assert(0 <= old(self).height_of(x2) <= 13);
                }
            }
            true
        } else {
            false
        }
    }

    /// Places a puyo on top of column `x`; fails once the column holds 13.
    pub fn drop_puyo_on(&mut self, x: i32, pc: PuyoColor) -> (r: bool)
        requires
            old(self).wf(),
            0 <= x < 6,
            pc != PuyoColor::Empty,
        ensures
            final(self).wf(),
            r == (old(self).height_of(x as int) < 13),
            r ==> final(self).grid() == old(self).grid().update(
                cidx(x as int, old(self).height_of(x as int)), pc,
            ) && final(self).height_of(x as int) == old(self).height_of(x as int) + 1,
            !r ==> *final(self) == *old(self),
            forall|x2: int| 0 <= x2 < 6 && x2 != x as int ==> final(self).height_of(x2) == old(
                self,
            ).height_of(x2),
    {
        self.drop_puyo_on_with_max_height(x, pc, 13)
    }

    /// Removes the puyo from the top of column `x`.
    pub fn remove_puyo_from(&mut self, x: i32)
        requires
            old(self).wf(),
            0 <= x < 6,
            old(self).height_of(x as int) >= 1,
        ensures
            final(self).wf(),
            final(self).grid() == old(self).grid().update(
                cidx(x as int, old(self).height_of(x as int) - 1), PuyoColor::Empty,
            ),
            final(self).height_of(x as int) == old(self).height_of(x as int) - 1,
            forall|x2: int| 0 <= x2 < 6 && x2 != x as int ==> final(self).height_of(x2) == old(
                self,
            ).height_of(x2),
    {
        let ux = x as usize;
        let h = self.heights[ux];
        proof {
            assert(0 <= self.height_of(x as int) <= 13);
        }
        let uy = (h - 1) as usize;
        self.bit_field.set(ux, uy, PuyoColor::Empty);
        self.heights[ux] = h - 1;
        proof {
            lemma_cidx(x as int, h - 1);
            assert forall|x2: int| 0 <= x2 < 6 implies 0 <= #[trigger] self.height_of(x2)
                <= 13 by {
                assert(0 <= old(self).height_of(x2) <= 13);
            }
            assert forall|x2: int, y2: int| in_bounds(x2, y2) implies ((cell(
                self.grid(), x2, y2,
            ) != PuyoColor::Empty) <==> y2 < self.height_of(x2)) by {
                lemma_cidx(x2, y2);
                assert(0 <= old(self).height_of(x2) <= 13);
            }
        }
    }

    /// Writes one cell at the top of its column, adjusting the cached height:
    /// a non-empty color is pushed at the column's height, emptying removes
    /// the topmost puyo.
    pub fn set_puyo_and_height(&mut self, x: i32, y: i32, c: PuyoColor)
        requires
            old(self).wf(),
            in_bounds(x as int, y as int),
            c != PuyoColor::Empty ==> y == old(self).height_of(x as int),
            c == PuyoColor::Empty ==> y == old(self).height_of(x as int) - 1,
        ensures
            final(self).wf(),
            final(self).grid() == old(self).grid().update(cidx(x as int, y as int), c),
            final(self).height_of(x as int) == (if c == PuyoColor::Empty {
                old(self).height_of(x as int) - 1
            } else {
                old(self).height_of(x as int) + 1
            }),
            forall|x2: int| 0 <= x2 < 6 && x2 != x as int ==> final(self).height_of(x2) == old(
                self,
            ).height_of(x2),
    {
        if c == PuyoColor::Empty {
            self.remove_puyo_from(x);
        } else {
            let _ = self.drop_puyo_on(x, c);
        }
    }

    /// Drops a kumipuyo as the decision asks; fails, changing nothing, when a
    /// landing column has no room.
    pub fn drop_kumipuyo(&mut self, decision: &Decision, kp: &Kumipuyo) -> (r: bool)
        requires
            old(self).wf(),
            decision.wf(),
            is_normal(kp.axis),
            is_normal(kp.child),
        ensures
            final(self).wf(),
            r == (if decision.is_horizontal() {
                old(self).height_of(decision.x as int) < 13 && old(self).height_of(
                    decision.child_x(),
                ) < 13
            } else {
                old(self).height_of(decision.x as int) <= 11
            }),
            r ==> final(self).grid() == kumi_grid(
                old(self).grid(), old(self).height_of(decision.x as int), old(self).height_of(
                    decision.child_x(),
                ), *decision, *kp,
            ),
            !r ==> *final(self) == *old(self),
    {
        let x = decision.x as i32;
        if decision.r == 1 || decision.r == 3 {
            let cx: i32 = if decision.r == 1 {
                x + 1
            } else {
                x - 1
            };
            let hx = self.heights[decision.x];
            let hcx = self.heights[cx as usize];
            if hx < 13 && hcx < 13 {
                let _ = self.drop_puyo_on(x, kp.axis);
                let _ = self.drop_puyo_on(cx, kp.child);
                true
            } else {
                false
            }
        } else {
            let hx = self.heights[decision.x];
            if hx <= 11 {
                if decision.r == 0 {
                    let _ = self.drop_puyo_on(x, kp.axis);
                    let _ = self.drop_puyo_on(x, kp.child);
                } else {
                    let _ = self.drop_puyo_on(x, kp.child);
                    let _ = self.drop_puyo_on(x, kp.axis);
                }
                true
            } else {
                false
            }
        }
    }

    /// Applies a move, reporting the frames the drop costs, or `ColumnFull`
    /// without touching the field when a landing column has no room.
    pub fn apply_move(&mut self, decision: &Decision, kp: &Kumipuyo) -> (r: Result<i32, PuyoError>)
        requires
            old(self).wf(),
            decision.wf(),
            is_normal(kp.axis),
            is_normal(kp.child),
        ensures
            final(self).wf(),
            r is Ok <==> (if decision.is_horizontal() {
                old(self).height_of(decision.x as int) < 13 && old(self).height_of(
                    decision.child_x(),
                ) < 13
            } else {
                old(self).height_of(decision.x as int) <= 11
            }),
            r is Ok ==> r->Ok_0 == drop_frames_spec(
                old(self).height_of(decision.x as int), old(self).height_of(decision.child_x()),
            ) && final(self).grid() == kumi_grid(
                old(self).grid(), old(self).height_of(decision.x as int), old(self).height_of(
                    decision.child_x(),
                ), *decision, *kp,
            ),
            r is Err ==> r->Err_0 == PuyoError::ColumnFull && *final(self) == *old(self),
    {
        let frames = self.frames_to_drop_next(decision);
        if self.drop_kumipuyo(decision, kp) {
            Ok(frames)
        } else {
            Err(PuyoError::ColumnFull)
        }
    }

    /// Returns the frames dropping the next kumipuyo would cost; the field is
    /// not changed.
    pub fn frames_to_drop_next(&self, decision: &Decision) -> (r: i32)
        requires
            self.wf(),
            decision.wf(),
        ensures
            r == drop_frames_spec(
                self.height_of(decision.x as int), self.height_of(decision.child_x()),
            ),
            2 <= r <= 30,
    {
        let h1 = self.heights[decision.x];
        let cx: usize = if decision.r == 1 {
            decision.x + 1
        } else if decision.r == 3 {
            decision.x - 1
        } else {
            decision.x
        };
        let h2 = self.heights[cx];
        proof {
            assert(0 <= self.height_of(decision.x as int) <= 13);
            assert(0 <= self.height_of(cx as int) <= 13);
        }
        if h1 == h2 {
            (13 - h1) * 2 + 2
        } else if h1 < h2 {
            (13 - h1) * 2 + 4
        } else {
            (13 - h2) * 2 + 4
        }
    }

    /// Returns true if the decision lands the pair's halves at different
    /// heights, splitting the drop.
    pub fn is_chigiri_decision(&self, decision: &Decision) -> (r: bool)
        requires
            self.wf(),
            decision.wf(),
        ensures
            r == (decision.is_horizontal() && self.height_of(decision.x as int) != self.height_of(
                decision.child_x(),
            )),
    {
        if decision.r == 1 {
            self.heights[decision.x] != self.heights[decision.x + 1]
        } else if decision.r == 3 {
            self.heights[decision.x] != self.heights[decision.x - 1]
        } else {
            false
        }
    }

    /// Compacts every column downward and refreshes the height cache,
    /// reporting each cell's movement as a (from, to) pair.
    #[verifier::loop_isolation(false)]
    fn settle_now(&mut self) -> (moves: Vec<(Position, Position)>)
        requires
            old(self).bit_field.wf(),
            old(self).heights@.len() == 6,
        ensures
            final(self).wf(),
            final(self).grid() == settled(old(self).grid()),
            forall|k: int|
                0 <= k < moves@.len() ==> pos_valid(moves@[k].0) && pos_valid(moves@[k].1)
                    && moves@[k].0.x == moves@[k].1.x && moves@[k].1.y <= moves@[k].0.y,
    {
        let ghost g0 = self.grid();
        let mut moves: Vec<(Position, Position)> = Vec::new();
        let mut x: usize = 0;
        while x < 6
            invariant
                self.bit_field.wf(),
                self.heights@.len() == 6,
                g0.len() == 78,
                x <= 6,
                forall|x2: int, y2: int|
                    in_bounds(x2, y2) && x2 >= x ==> #[trigger] cell(self.grid(), x2, y2) == cell(
                        g0, x2, y2,
                    ),
                forall|x2: int, y2: int|
                    in_bounds(x2, y2) && x2 < x ==> #[trigger] cell(self.grid(), x2, y2) == cell(
                        settled(g0), x2, y2,
                    ),
                forall|x2: int| 0 <= x2 < x ==> self.heights@[x2] == col_occ(g0, x2),
                forall|k: int|
                    0 <= k < moves@.len() ==> pos_valid(moves@[k].0) && pos_valid(moves@[k].1)
                        && moves@[k].0.x == moves@[k].1.x && moves@[k].1.y <= moves@[k].0.y,
            decreases 6 - x,
        {
            let ghost colsq = colseq(g0, x as int);
            let mut col: Vec<PuyoColor> = Vec::new();
            let mut src: Vec<i32> = Vec::new();
            let mut y: usize = 0;
            while y < 13
                invariant
                    self.bit_field.wf(),
                    self.heights@.len() == 6,
                    forall|x2: int| 0 <= x2 < x ==> self.heights@[x2] == col_occ(g0, x2),
                    g0.len() == 78,
                    x < 6,
                    y <= 13,
                    colsq == colseq(g0, x as int),
                    forall|x2: int, y2: int|
                        in_bounds(x2, y2) && x2 >= x ==> #[trigger] cell(self.grid(), x2, y2)
                            == cell(g0, x2, y2),
                    col@ == kept(colsq.take(y as int)),
                    col@.len() == src@.len(),
                    col@.len() <= y,
                    forall|k: int| 0 <= k < src@.len() ==> k <= #[trigger] src@[k] < 13,
                decreases 13 - y,
            {
                let c = self.bit_field.get(x, y);
                proof {
                    assert(cell(self.grid(), x as int, y as int) == cell(g0, x as int, y as int));
                    assert(colsq.take(y + 1).drop_last() =~= colsq.take(y as int));
                    assert(colsq.take(y + 1).last() == cell(g0, x as int, y as int));
                }
                if c != PuyoColor::Empty {
                    col.push(c);
                    src.push(y as i32);
                    proof {
                        assert(col@ == kept(colsq.take(y + 1)));
                    }
                } else {
                    proof {
                        assert(col@ == kept(colsq.take(y + 1)));
                    }
                }
                y = y + 1;
            }
            proof {
                assert(colsq.take(13) =~= colsq);
                crate::model::lemma_kept_len_le(colsq);
                crate::model::lemma_kept_nonempty(colsq);
                crate::model::lemma_settled_col(g0, x as int);
            }
            let kl = col.len();
            let mut yw: usize = 0;
            while yw < 13
                invariant
                    self.bit_field.wf(),
                    self.heights@.len() == 6,
                    forall|x2: int| 0 <= x2 < x ==> self.heights@[x2] == col_occ(g0, x2),
                    g0.len() == 78,
                    x < 6,
                    yw <= 13,
                    col@ == kept(colseq(g0, x as int)),
                    kl == col@.len(),
                    kl <= 13,
                    forall|x2: int, y2: int|
                        in_bounds(x2, y2) && x2 > x ==> #[trigger] cell(self.grid(), x2, y2)
                            == cell(g0, x2, y2),
                    forall|x2: int, y2: int|
                        in_bounds(x2, y2) && x2 < x ==> #[trigger] cell(self.grid(), x2, y2)
                            == cell(settled(g0), x2, y2),
                    forall|y2: int|
                        0 <= y2 < yw ==> #[trigger] cell(self.grid(), x as int, y2) == (if y2
                            < kl {
                            col@[y2]
                        } else {
                            PuyoColor::Empty
                        }),
                    forall|y2: int|
                        yw <= y2 < 13 ==> #[trigger] cell(self.grid(), x as int, y2) == cell(
                            g0, x as int, y2,
                        ),
                decreases 13 - yw,
            {
                let c2 = if yw < kl {
                    col[yw]
                } else {
                    PuyoColor::Empty
                };
                let ghost gprev = self.grid();
                self.bit_field.set(x, yw, c2);
                proof {
                    lemma_cidx(x as int, yw as int);
                    assert forall|x2: int, y2: int|
                        in_bounds(x2, y2) && !(x2 == x as int && y2 == yw as int) implies cell(
                        self.grid(), x2, y2,
                    ) == cell(gprev, x2, y2) by {
                        lemma_cidx(x2, y2);
                    }
                    assert(cell(self.grid(), x as int, yw as int) == c2);
                    assert forall|y2: int| 0 <= y2 < yw + 1 implies #[trigger] cell(
                        self.grid(), x as int, y2,
                    ) == (if y2 < kl {
                        col@[y2]
                    } else {
                        PuyoColor::Empty
                    }) by {
                        if y2 != yw as int {
                            assert(cell(self.grid(), x as int, y2) == cell(gprev, x as int, y2));
                        }
                    }
                    assert forall|y2: int| yw + 1 <= y2 < 13 implies #[trigger] cell(
                        self.grid(), x as int, y2,
                    ) == cell(g0, x as int, y2) by {
                        assert(cell(self.grid(), x as int, y2) == cell(gprev, x as int, y2));
                    }
                    assert forall|x2: int, y2: int|
                        in_bounds(x2, y2) && x2 > x implies #[trigger] cell(self.grid(), x2, y2)
                        == cell(g0, x2, y2) by {
                        assert(cell(self.grid(), x2, y2) == cell(gprev, x2, y2));
                    }
                    assert forall|x2: int, y2: int|
                        in_bounds(x2, y2) && x2 < x implies #[trigger] cell(self.grid(), x2, y2)
                        == cell(settled(g0), x2, y2) by {
                        assert(cell(self.grid(), x2, y2) == cell(gprev, x2, y2));
                    }
                }
                yw = yw + 1;
            }
            self.heights[x] = kl as i32;
            proof {
                crate::model::lemma_settled_col(g0, x as int);
                assert forall|x2: int, y2: int|
                    in_bounds(x2, y2) && x2 < x + 1 implies #[trigger] cell(self.grid(), x2, y2)
                    == cell(settled(g0), x2, y2) by {
                    if x2 == x as int {
                        assert(cell(self.grid(), x2, y2) == (if y2 < kl {
                            col@[y2]
                        } else {
                            PuyoColor::Empty
                        }));
                    }
                }
                assert(self.heights@[x as int] == col_occ(g0, x as int));
            }
            let mut k: usize = 0;
            while k < kl
                invariant
                    x < 6,
                    kl == col@.len(),
                    kl <= 13,
                    kl == src@.len(),
                    k <= kl,
                    forall|k2: int| 0 <= k2 < src@.len() ==> k2 <= #[trigger] src@[k2] < 13,
                    forall|k2: int|
                        0 <= k2 < moves@.len() ==> pos_valid(moves@[k2].0) && pos_valid(
                            moves@[k2].1,
                        ) && moves@[k2].0.x == moves@[k2].1.x && moves@[k2].1.y <= moves@[k2].0.y,
                decreases kl - k,
            {
                let sy = src[k];
                if sy != k as i32 {
                    moves.push(
                        (
                            Position { x: x as i32, y: sy },
                            Position { x: x as i32, y: k as i32 },
                        ),
                    );
                }
                k = k + 1;
            }
            x = x + 1;
        }
        proof {
            assert forall|i: int| 0 <= i < 78 implies self.grid()[i] == settled(g0)[i] by {
                crate::model::lemma_idx_split(i);
                assert(cell(self.grid(), xof(i), yof(i)) == cell(settled(g0), xof(i), yof(i)));
            }
            assert(self.grid() =~= settled(g0));
            assert forall|x2: int, y2: int| in_bounds(x2, y2) implies ((cell(
                self.grid(), x2, y2,
            ) != PuyoColor::Empty) <==> y2 < self.height_of(x2)) by {
                assert(self.heights@[x2] == col_occ(g0, x2));
                crate::model::lemma_settled_col(g0, x2);
                crate::model::lemma_kept_nonempty(colseq(g0, x2));
                crate::model::lemma_kept_len_le(colseq(g0, x2));
                assert(cell(self.grid(), x2, y2) == cell(settled(g0), x2, y2));
            }
            assert forall|x2: int| 0 <= x2 < 6 implies 0 <= #[trigger] self.height_of(x2)
                <= 13 by {
                assert(self.heights@[x2] == col_occ(g0, x2));
                crate::model::lemma_kept_len_le(colseq(g0, x2));
            }
        }
        moves
    }
}

impl CoreField {
    /// One round of the chain: detects the erasing groups, notifies the
    /// tracker, removes them with adjacent garbage, settles the columns, and
    /// scores the round at the given 1-based chain index.
    #[verifier::loop_isolation(false)]
    fn simulate_round<T: Tracker>(&mut self, chain: u64, tracker: &mut T) -> (r: (bool, u64, u32))
        requires
            old(self).wf(),
            1 <= chain <= 0x8000_0100,
        ensures
            final(self).wf(),
            r.0 == has_erasable(old(self).grid()),
            r.0 ==> final(self).grid() == settled(vanished(old(self).grid())) && r.1
                == round_score_spec(old(self).grid(), chain as nat) && r.2 == erased_count(
                old(self).grid(),
            ),
            !r.0 ==> *final(self) == *old(self) && r.1 == 0 && r.2 == 0,
    {
        let ghost g = self.grid();
        let (erased, colors) = count_erasable_and_colors(&self.bit_field);
        if erased == 0 {
            proof {
                assert forall|x: int, y: int| !erasable_at(g, x, y) by {
                    if erasable_at(g, x, y) {
                        lemma_cidx(x, y);
                        assert(erase_mask(g)[cidx(x, y)]);
                        lemma_count_true_pos(erase_mask(g), cidx(x, y), 78);
                    }
                }
            }
            return (false, 0, 0);
        }
        proof {
            crate::model::lemma_count_true_nonzero(erase_mask(g), 78);
            let j = choose|j: int| 0 <= j < 78 && j < erase_mask(g).len() && erase_mask(g)[j];
            crate::model::lemma_idx_split(j);
            assert(erasable_at(g, xof(j), yof(j)));
        }
        let (gbonus, group_cells, group_colors) = collect_groups(&self.bit_field);
        let mut k: usize = 0;
        while k < group_cells.len()
            invariant
                k <= group_cells@.len(),
            decreases group_cells@.len() - k,
        {
            tracker.on_group_erased(&group_cells[k], group_colors[k]);
            k = k + 1;
        }
        let power = crate::score::chain_power(chain);
        let cb = crate::score::color_bonus(colors);
        proof {
            crate::score::lemma_chain_power_bound(chain as nat);
        }
        let mut mult = power + cb + gbonus;
        if mult == 0 {
            mult = 1;
        }
        proof {
            assert(mult == multiplier(g, chain as nat));
            assert(mult <= 0x40_0000_0000);
            assert(erased * 10 * mult <= 780 * 0x40_0000_0000) by (nonlinear_arith)
                requires
                    0 <= erased <= 78,
                    0 <= mult <= 0x40_0000_0000,
            ;
        }
        let score = erased * 10 * mult;
        let vm = compute_vanish_mask(&self.bit_field);
        apply_vanish(&mut self.bit_field, &vm.0);
        let moves = self.settle_now();
        tracker.on_gravity(&moves);
        (true, score, erased as u32)
    }

    /// Runs the chain to its terminal state: rounds of vanish-and-settle
    /// until nothing erases, scoring each round at consecutive chain indices
    /// starting from `initial_chain`.
    #[verifier::rlimit(60)]
    fn simulate_core<T: Tracker>(&mut self, initial_chain: u64, tracker: &mut T) -> (r: (
        u32,
        u64,
    ))
        requires
            old(self).wf(),
            1 <= initial_chain <= 0x8000_0000,
        ensures
            final(self).wf(),
            final(self).grid() == sim_rec(old(self).grid(), initial_chain as nat, 78).0,
            r.0 == sim_rec(old(self).grid(), initial_chain as nat, 78).1,
            r.1 == sim_rec(old(self).grid(), initial_chain as nat, 78).2,
            r.0 <= 78,
            r.1 <= 0x20_0000_0000_0000,
            !has_erasable(final(self).grid()),
    {
        let ghost g0 = self.grid();
        let ghost c0 = initial_chain as nat;
        let ghost total = sim_rec(g0, c0, 78);
        let mut chains: u32 = 0;
        let mut score: u64 = 0;
        let mut chain: u64 = initial_chain;
        let ghost mut fuel: int = 78;
        proof {
            crate::model::lemma_occupied_le(g0);
            crate::model::lemma_sim_score_bound(g0, c0, 78);
            assert(total.2 <= 0x20_0000_0000_0000);
        }
        loop
            invariant
                self.wf(),
                0 <= fuel <= 78,
                chains == 78 - fuel,
                chain == initial_chain + chains,
                1 <= initial_chain <= 0x8000_0000,
                occupied(self.grid()) <= fuel,
                total.2 <= 0x20_0000_0000_0000,
                score <= total.2,
                total.0 == sim_rec(self.grid(), chain as nat, fuel as nat).0,
                total.1 == chains + sim_rec(self.grid(), chain as nat, fuel as nat).1,
                total.2 == score + sim_rec(self.grid(), chain as nat, fuel as nat).2,
            ensures
                self.wf(),
                !has_erasable(self.grid()),
                self.grid() == total.0,
                chains == total.1,
                score == total.2,
            decreases fuel,
        {
            let ghost gcur = self.grid();
            let step = self.simulate_round(chain, tracker);
            if !step.0 {
                proof {
                    assert(sim_rec(gcur, chain as nat, fuel as nat) == (gcur, 0nat, 0nat));
                }
                break;
            }
            proof {
                let (ex, ey) = choose|x: int, y: int| erasable_at(gcur, x, y);
                crate::model::lemma_occupied_pos(gcur, ex, ey);
                crate::model::lemma_vanish_progress(gcur);
                assert(fuel >= 1);
                assert(sim_rec(gcur, chain as nat, fuel as nat).2 == round_score_spec(
                    gcur, chain as nat,
                ) + sim_rec(self.grid(), (chain + 1) as nat, (fuel - 1) as nat).2);
                assert(score + step.1 <= total.2);
                fuel = fuel - 1;
            }
            chains = chains + 1;
            score = score + step.1;
            chain = chain + 1;
        }
        proof {
            crate::model::lemma_sim_rec_rounds(g0, c0, 78);
        }
        (chains, score)
    }

    /// Simulates the whole chain, scoring from the given 1-based chain index;
    /// returns the rounds, the score, and the frames spent.
    pub fn simulate(&mut self, initial_chain: i32) -> (r: RensaResult)
        requires
            old(self).wf(),
            initial_chain >= 1,
        ensures
            final(self).wf(),
            final(self).grid() == sim_rec(old(self).grid(), initial_chain as nat, 78).0,
            r.chains == sim_rec(old(self).grid(), initial_chain as nat, 78).1,
            r.score == sim_rec(old(self).grid(), initial_chain as nat, 78).2,
            r.frames == r.chains * FRAMES_VANISH_ANIMATION,
            !has_erasable(final(self).grid()),
    {
        let mut t = RensaNonTracker;
        self.simulate_with_tracker_from(initial_chain, &mut t)
    }

    /// Simulates the whole chain, reporting each group erase and each settle
    /// to the tracker; scoring starts at chain index 1.
    pub fn simulate_with_tracker<T: Tracker>(&mut self, tracker: &mut T) -> (r: RensaResult)
        requires
            old(self).wf(),
        ensures
            final(self).wf(),
            final(self).grid() == sim_rec(old(self).grid(), 1, 78).0,
            r.chains == sim_rec(old(self).grid(), 1, 78).1,
            r.score == sim_rec(old(self).grid(), 1, 78).2,
            r.frames == r.chains * FRAMES_VANISH_ANIMATION,
            !has_erasable(final(self).grid()),
    {
        self.simulate_with_tracker_from(1, tracker)
    }

    /// Simulates the whole chain with a tracker, scoring from the given
    /// 1-based chain index.
    pub fn simulate_with_tracker_from<T: Tracker>(&mut self, initial_chain: i32, tracker: &mut T)
        -> (r: RensaResult)
        requires
            old(self).wf(),
            initial_chain >= 1,
        ensures
            final(self).wf(),
            final(self).grid() == sim_rec(old(self).grid(), initial_chain as nat, 78).0,
            r.chains == sim_rec(old(self).grid(), initial_chain as nat, 78).1,
            r.score == sim_rec(old(self).grid(), initial_chain as nat, 78).2,
            r.frames == r.chains * FRAMES_VANISH_ANIMATION,
            !has_erasable(final(self).grid()),
    {
        let c = self.simulate_core(initial_chain as u64, tracker);
        RensaResult { chains: c.0, score: c.1, frames: c.0 * FRAMES_VANISH_ANIMATION }
    }

    /// Simulates the whole chain, continuing additively from the context: the
    /// chain index starts where the context says and the score accumulates
    /// onto the context's score; the context is advanced in step.
    pub fn simulate_with_context(&mut self, context: &mut SimulationContext) -> (r: RensaResult)
        requires
            old(self).wf(),
            old(context).wf(),
        ensures
            final(self).wf(),
            final(self).grid() == sim_rec(old(self).grid(), old(context).chain as nat, 78).0,
            r.chains == sim_rec(old(self).grid(), old(context).chain as nat, 78).1,
            r.score == old(context).score + sim_rec(
                old(self).grid(), old(context).chain as nat, 78,
            ).2,
            r.frames == r.chains * FRAMES_VANISH_ANIMATION,
            final(context).chain == old(context).chain + r.chains,
            final(context).score == r.score,
            !has_erasable(final(self).grid()),
    {
        let mut t = RensaNonTracker;
        self.simulate_full(context, &mut t)
    }

    /// Simulates the whole chain with both a context and a tracker.
    pub fn simulate_full<T: Tracker>(
        &mut self,
        context: &mut SimulationContext,
        tracker: &mut T,
    ) -> (r: RensaResult)
        requires
            old(self).wf(),
            old(context).wf(),
        ensures
            final(self).wf(),
            final(self).grid() == sim_rec(old(self).grid(), old(context).chain as nat, 78).0,
            r.chains == sim_rec(old(self).grid(), old(context).chain as nat, 78).1,
            r.score == old(context).score + sim_rec(
                old(self).grid(), old(context).chain as nat, 78,
            ).2,
            r.frames == r.chains * FRAMES_VANISH_ANIMATION,
            final(context).chain == old(context).chain + r.chains,
            final(context).score == r.score,
            !has_erasable(final(self).grid()),
    {
        let c = self.simulate_core(context.chain as u64, tracker);
        let score = context.score + c.1;
        context.chain = context.chain + (c.0 as i32);
        context.score = score;
        RensaResult { chains: c.0, score, frames: c.0 * FRAMES_VANISH_ANIMATION }
    }

    /// Simulates the whole chain and returns only the number of rounds.
    pub fn simulate_fast(&mut self) -> (r: i32)
        requires
            old(self).wf(),
        ensures
            final(self).wf(),
            final(self).grid() == sim_rec(old(self).grid(), 1, 78).0,
            r == sim_rec(old(self).grid(), 1, 78).1,
            !has_erasable(final(self).grid()),
    {
        let mut t = RensaNonTracker;
        let c = self.simulate_core(1, &mut t);
        c.0 as i32
    }

    /// Simulates the whole chain with a tracker and returns only the number
    /// of rounds.
    pub fn simulate_fast_with_tracker<T: Tracker>(&mut self, tracker: &mut T) -> (r: i32)
        requires
            old(self).wf(),
        ensures
            final(self).wf(),
            final(self).grid() == sim_rec(old(self).grid(), 1, 78).0,
            r == sim_rec(old(self).grid(), 1, 78).1,
            !has_erasable(final(self).grid()),
    {
        let c = self.simulate_core(1, tracker);
        c.0 as i32
    }
}

impl CoreField {
    /// One vanish-and-settle step at the given 1-based chain index.
    fn vanish_round_at<T: Tracker>(&mut self, chain: u64, tracker: &mut T) -> (r: RensaStepResult)
        requires
            old(self).wf(),
            1 <= chain <= 0x8000_0100,
        ensures
            final(self).wf(),
            r.vanished == has_erasable(old(self).grid()),
            r.vanished ==> final(self).grid() == settled(vanished(old(self).grid())) && r.score
                == round_score_spec(old(self).grid(), chain as nat) && r.num_erased
                == erased_count(old(self).grid()) && r.frames == FRAMES_VANISH_ANIMATION,
            !r.vanished ==> *final(self) == *old(self) && r.score == 0 && r.num_erased == 0
                && r.frames == 0,
            r.score <= 0x20_0000_0000_0000,
    {
        let ghost g = self.grid();
        let s = self.simulate_round(chain, tracker);
        proof {
            crate::model::lemma_round_score_bound(g, chain as nat);
        }
        if s.0 {
            RensaStepResult {
                vanished: true,
                num_erased: s.2,
                score: s.1,
                frames: FRAMES_VANISH_ANIMATION,
            }
        } else {
            RensaStepResult { vanished: false, num_erased: 0, score: 0, frames: 0 }
        }
    }

    /// One vanish-and-settle step at chain index 1.
    pub fn vanish_drop(&mut self) -> (r: RensaStepResult)
        requires
            old(self).wf(),
        ensures
            final(self).wf(),
            r.vanished == has_erasable(old(self).grid()),
            r.vanished ==> final(self).grid() == settled(vanished(old(self).grid())) && r.score
                == round_score_spec(old(self).grid(), 1) && r.num_erased == erased_count(
                old(self).grid(),
            ) && r.frames == FRAMES_VANISH_ANIMATION,
            !r.vanished ==> *final(self) == *old(self) && r.score == 0 && r.num_erased == 0
                && r.frames == 0,
    {
        let mut t = RensaNonTracker;
        self.vanish_round_at(1, &mut t)
    }

    /// One vanish-and-settle step reported to a tracker; chain index 1.
    pub fn vanish_drop_with_tracker<T: Tracker>(&mut self, tracker: &mut T) -> (r: RensaStepResult)
        requires
            old(self).wf(),
        ensures
            final(self).wf(),
            r.vanished == has_erasable(old(self).grid()),
            r.vanished ==> final(self).grid() == settled(vanished(old(self).grid())) && r.score
                == round_score_spec(old(self).grid(), 1) && r.num_erased == erased_count(
                old(self).grid(),
            ) && r.frames == FRAMES_VANISH_ANIMATION,
            !r.vanished ==> *final(self) == *old(self) && r.score == 0 && r.num_erased == 0
                && r.frames == 0,
    {
        self.vanish_round_at(1, tracker)
    }

    /// One vanish-and-settle step at the context's chain index; when the step
    /// erases, the context advances one chain and absorbs the step's score.
    pub fn vanish_drop_with_context(&mut self, context: &mut SimulationContext) -> (r:
        RensaStepResult)
        requires
            old(self).wf(),
            old(context).wf(),
        ensures
            final(self).wf(),
            r.vanished == has_erasable(old(self).grid()),
            r.vanished ==> final(self).grid() == settled(vanished(old(self).grid())) && r.score
                == round_score_spec(old(self).grid(), old(context).chain as nat) && final(context).chain == old(context).chain + 1 && final(context).score == old(context).score
                + r.score,
            !r.vanished ==> *final(self) == *old(self) && r.score == 0 && r.num_erased == 0
                && r.frames == 0 && *final(context) == *old(context),
    {
        let mut t = RensaNonTracker;
        self.vanish_drop_full(context, &mut t)
    }

    /// One vanish-and-settle step with both a context and a tracker.
    pub fn vanish_drop_full<T: Tracker>(
        &mut self,
        context: &mut SimulationContext,
        tracker: &mut T,
    ) -> (r: RensaStepResult)
        requires
            old(self).wf(),
            old(context).wf(),
        ensures
            final(self).wf(),
            r.vanished == has_erasable(old(self).grid()),
            r.vanished ==> final(self).grid() == settled(vanished(old(self).grid())) && r.score
                == round_score_spec(old(self).grid(), old(context).chain as nat) && final(context).chain == old(context).chain + 1 && final(context).score == old(context).score
                + r.score,
            !r.vanished ==> *final(self) == *old(self) && r.score == 0 && r.num_erased == 0
                && r.frames == 0 && *final(context) == *old(context),
    {
        let s = self.vanish_round_at(context.chain as u64, tracker);
        if s.vanished {
            context.chain = context.chain + 1;
            context.score = context.score + s.score;
        }
        s
    }

    /// One vanish-and-settle step; returns whether anything erased.
    pub fn vanish_drop_fast(&mut self) -> (r: bool)
        requires
            old(self).wf(),
        ensures
            final(self).wf(),
            r == has_erasable(old(self).grid()),
            r ==> final(self).grid() == settled(vanished(old(self).grid())),
            !r ==> *final(self) == *old(self),
    {
        let mut t = RensaNonTracker;
        let s = self.vanish_round_at(1, &mut t);
        s.vanished
    }

    /// Like `vanish_drop_fast`, advancing the context when the step erases.
    pub fn vanish_drop_fast_with_context(&mut self, context: &mut SimulationContext) -> (r: bool)
        requires
            old(self).wf(),
            old(context).wf(),
        ensures
            final(self).wf(),
            r == has_erasable(old(self).grid()),
            r ==> final(self).grid() == settled(vanished(old(self).grid())) && final(context).chain == old(context).chain + 1,
            !r ==> *final(self) == *old(self) && *final(context) == *old(context),
    {
        let mut t = RensaNonTracker;
        let s = self.vanish_drop_full(context, &mut t);
        s.vanished
    }

    /// Like `vanish_drop_fast`, reporting the step to a tracker.
    pub fn vanish_drop_fast_with_tracker<T: Tracker>(&mut self, tracker: &mut T) -> (r: bool)
        requires
            old(self).wf(),
        ensures
            final(self).wf(),
            r == has_erasable(old(self).grid()),
            r ==> final(self).grid() == settled(vanished(old(self).grid())),
            !r ==> *final(self) == *old(self),
    {
        let s = self.vanish_round_at(1, tracker);
        s.vanished
    }

    /// Like `vanish_drop_fast`, with both a context and a tracker.
    pub fn vanish_drop_fast_full<T: Tracker>(
        &mut self,
        context: &mut SimulationContext,
        tracker: &mut T,
    ) -> (r: bool)
        requires
            old(self).wf(),
            old(context).wf(),
        ensures
            final(self).wf(),
            r == has_erasable(old(self).grid()),
            r ==> final(self).grid() == settled(vanished(old(self).grid())) && final(context).chain == old(context).chain + 1,
            !r ==> *final(self) == *old(self) && *final(context) == *old(context),
    {
        let s = self.vanish_drop_full(context, tracker);
        s.vanished
    }

    /// Returns true if a chain would start on this field as it stands.
    pub fn rensa_will_occur(&self) -> (r: bool)
        requires
            self.wf(),
        ensures
            r == has_erasable(self.grid()),
    {
        let ghost g = self.grid();
        let (erased, _colors) = count_erasable_and_colors(&self.bit_field);
        proof {
            if erased == 0 {
                assert forall|x: int, y: int| !erasable_at(g, x, y) by {
                    if erasable_at(g, x, y) {
                        lemma_cidx(x, y);
                        assert(erase_mask(g)[cidx(x, y)]);
                        lemma_count_true_pos(erase_mask(g), cidx(x, y), 78);
                    }
                }
            } else {
                crate::model::lemma_count_true_nonzero(erase_mask(g), 78);
                let j = choose|j: int| 0 <= j < 78 && j < erase_mask(g).len() && erase_mask(g)[j];
                crate::model::lemma_idx_split(j);
                assert(erasable_at(g, xof(j), yof(j)));
            }
        }
        erased > 0
    }

    /// Counts all puyos on the field, garbage included.
    pub fn count_puyos(&self) -> (r: i32)
        requires
            self.wf(),
        ensures
            r == occupied(self.grid()),
            0 <= r <= 78,
    {
        let ghost g = self.grid();
        let mut acc: i32 = 0;
        let mut x: usize = 0;
        while x < 6
            invariant
                self.wf(),
                g == self.grid(),
                x <= 6,
                acc == occupied_upto(g, x as int),
                0 <= acc <= 13 * x,
            decreases 6 - x,
        {
            let h = self.height(x);
            proof {
                let s = colseq(g, x as int);
                let hi = self.height_of(x as int);
                assert(0 <= hi <= 13);
                assert forall|j: int| 0 <= j < hi implies s[j] != PuyoColor::Empty by {
                    assert(in_bounds(x as int, j));
                    assert(s[j] == cell(self.grid(), x as int, j));
                    assert((cell(self.grid(), x as int, j) != PuyoColor::Empty) <==> j
                        < self.height_of(x as int));
                }
                assert forall|j: int| hi <= j < 13 implies s[j] == PuyoColor::Empty by {
                    assert(in_bounds(x as int, j));
                    assert(s[j] == cell(self.grid(), x as int, j));
                    assert((cell(self.grid(), x as int, j) != PuyoColor::Empty) <==> j
                        < self.height_of(x as int));
                }
                crate::model::lemma_kept_of_column(s, hi);
            }
            acc = acc + h;
            x = x + 1;
        }
        acc
    }

    /// Counts the puyos of normal (matchable) colors.
    pub fn count_color_puyos(&self) -> (r: i32)
        requires
            self.wf(),
        ensures
            r == crate::model::normal_count(self.grid()),
            0 <= r <= 78,
    {
        let ghost g = self.grid();
        let ghost m = crate::model::normal_mask(g);
        let mut acc: i32 = 0;
        let mut x: usize = 0;
        while x < 6
            invariant
                self.wf(),
                g == self.grid(),
                m == crate::model::normal_mask(g),
                x <= 6,
                acc == count_true(m, 13 * x),
                0 <= acc <= 13 * x,
            decreases 6 - x,
        {
            let mut y: usize = 0;
            while y < 13
                invariant
                    self.wf(),
                    g == self.grid(),
                    m == crate::model::normal_mask(g),
                    x < 6,
                    y <= 13,
                    acc == count_true(m, 13 * x + y),
                    0 <= acc <= 13 * x + y,
                decreases 13 - y,
            {
                proof {
                    lemma_cidx(x as int, y as int);
                }
                if self.is_normal_color(x as i32, y as i32) {
                    acc = acc + 1;
                }
                y = y + 1;
            }
            x = x + 1;
        }
        acc
    }

    /// Counts the cells holding exactly color `c`.
    pub fn count_color(&self, c: PuyoColor) -> (r: i32)
        requires
            self.wf(),
        ensures
            r == crate::model::color_count(self.grid(), c),
            0 <= r <= 78,
    {
        let ghost g = self.grid();
        let ghost m = crate::model::color_mask(g, c);
        let mut acc: i32 = 0;
        let mut x: usize = 0;
        while x < 6
            invariant
                self.wf(),
                g == self.grid(),
                m == crate::model::color_mask(g, c),
                x <= 6,
                acc == count_true(m, 13 * x),
                0 <= acc <= 13 * x,
            decreases 6 - x,
        {
            let mut y: usize = 0;
            while y < 13
                invariant
                    self.wf(),
                    g == self.grid(),
                    m == crate::model::color_mask(g, c),
                    x < 6,
                    y <= 13,
                    acc == count_true(m, 13 * x + y),
                    0 <= acc <= 13 * x + y,
                decreases 13 - y,
            {
                proof {
                    lemma_cidx(x as int, y as int);
                }
                if self.is_color(x as i32, y as i32, c) {
                    acc = acc + 1;
                }
                y = y + 1;
            }
            x = x + 1;
        }
        acc
    }
}

/// The character that stands for each color in the debug text.
pub open spec fn color_char(c: PuyoColor) -> char {
    match c {
        PuyoColor::Empty => '.',
        PuyoColor::Ojama => 'O',
        PuyoColor::Red => 'R',
        PuyoColor::Green => 'G',
        PuyoColor::Blue => 'B',
        PuyoColor::Yellow => 'Y',
        PuyoColor::Purple => 'P',
    }
}

/// One row of the debug text: the row's six cells, then a newline.
pub open spec fn debug_row(g: Seq<PuyoColor>, y: int) -> Seq<char> {
    Seq::new(7, |x: int| if x < 6 {
        color_char(cell(g, x, y))
    } else {
        '\n'
    })
}

/// The top `rows` rows of the debug text, highest row first.
pub open spec fn debug_rows(g: Seq<PuyoColor>, rows: int) -> Seq<char>
    decreases rows,
{
    if rows <= 0 {
        Seq::empty()
    } else {
        debug_rows(g, rows - 1) + debug_row(g, 13 - rows)
    }
}

/// How much a column rises above both of its neighbors.
pub open spec fn ridge_spec(hl: int, h: int, hr: int) -> int {
    let m = if hl >= hr {
        hl
    } else {
        hr
    };
    if h > m {
        h - m
    } else {
        0
    }
}

/// How far a column sits below both of its neighbors.
pub open spec fn valley_spec(hl: int, h: int, hr: int) -> int {
    let m = if hl <= hr {
        hl
    } else {
        hr
    };
    if h < m {
        m - h
    } else {
        0
    }
}

impl CoreField {
    /// Marks the whole component of (`x`, `y`) in `checked` and returns its
    /// cells.
    fn flood_mark(&self, x: usize, y: usize, checked: &mut FieldBits) -> (r: Vec<Position>)
        requires
            self.wf(),
            x < 6,
            y < 13,
            old(checked).wf(),
        ensures
            final(checked).wf(),
            forall|i: int|
                0 <= i < 78 ==> final(checked).mask()[i] == (old(checked).mask()[i] || connected(
                    self.grid(), cell(self.grid(), x as int, y as int), x as int, y as int,
                    xof(i), yof(i),
                )),
            r@.len() == csize(self.grid(), x as int, y as int),
            forall|k: int|
                0 <= k < r@.len() ==> pos_valid(r@[k]) && connected(
                    self.grid(), cell(self.grid(), x as int, y as int), x as int, y as int,
                    r@[k].x as int, r@[k].y as int,
                ),
            forall|k1: int, k2: int|
                0 <= k1 < k2 < r@.len() ==> pos_idx(r@[k1]) != pos_idx(r@[k2]),
    {
        let ghost g = self.grid();
        let fl = flood(&self.bit_field, x, y);
        let mut j: usize = 0;
        while j < 78
            invariant
                fl.0.wf(),
                checked.wf(),
                j <= 78,
                forall|i: int|
                    0 <= i < 78 ==> checked.mask()[i] == (old(checked).mask()[i] || (i < j
                        && fl.0.mask()[i])),
            decreases 78 - j,
        {
            proof {
                crate::model::lemma_idx_split(j as int);
            }
            if fl.0.get(j / 13, j % 13) {
                checked.set(j / 13, j % 13, true);
            }
            j = j + 1;
        }
        fl.1
    }

    /// Number of puyos 4-connected to (`x`, `y`), the cell itself included;
    /// zero on an empty cell.
    pub fn count_connected_puyos(&self, x: i32, y: i32) -> (r: i32)
        requires
            self.wf(),
            in_bounds(x as int, y as int),
        ensures
            r == (if cell(self.grid(), x as int, y as int) == PuyoColor::Empty {
                0int
            } else {
                csize(self.grid(), x as int, y as int) as int
            }),
            0 <= r <= 78,
    {
        if self.is_empty(x, y) {
            0
        } else {
            let fl = flood(&self.bit_field, x as usize, y as usize);
            proof {
                lemma_count_true_le(conn_mask(self.grid(), x as int, y as int), 78);
            }
            fl.1.len() as i32
        }
    }

    /// Like `count_connected_puyos`, skipping cells already marked in
    /// `checked` and marking the component it visits.
    pub fn count_connected_puyos_with_checked(
        &self,
        x: i32,
        y: i32,
        checked: &mut FieldBits,
    ) -> (r: i32)
        requires
            self.wf(),
            in_bounds(x as int, y as int),
            old(checked).wf(),
        ensures
            final(checked).wf(),
            old(checked).mask()[cidx(x as int, y as int)] || cell(
                self.grid(), x as int, y as int,
            ) == PuyoColor::Empty ==> r == 0 && final(checked).mask() == old(checked).mask(),
            !(old(checked).mask()[cidx(x as int, y as int)] || cell(
                self.grid(), x as int, y as int,
            ) == PuyoColor::Empty) ==> r == csize(self.grid(), x as int, y as int) && forall|
                i: int,
            |
                0 <= i < 78 ==> final(checked).mask()[i] == (old(checked).mask()[i] || connected(
                    self.grid(), cell(self.grid(), x as int, y as int), x as int, y as int,
                    xof(i), yof(i),
                )),
            0 <= r <= 78,
    {
        if checked.get(x as usize, y as usize) || self.is_empty(x, y) {
            return 0;
        }
        let comp = self.flood_mark(x as usize, y as usize, checked);
        proof {
            lemma_count_true_le(conn_mask(self.grid(), x as int, y as int), 78);
        }
        comp.len() as i32
    }

    /// Positions of the cells of color `c` connected to (`x`, `y`), marking
    /// them in `checked`; empty when the cell is not of color `c` or already
    /// marked.
    pub fn fill_same_color_position(
        &self,
        x: i32,
        y: i32,
        c: PuyoColor,
        checked: &mut FieldBits,
    ) -> (r: Vec<Position>)
        requires
            self.wf(),
            in_bounds(x as int, y as int),
            old(checked).wf(),
        ensures
            final(checked).wf(),
            old(checked).mask()[cidx(x as int, y as int)] || cell(
                self.grid(), x as int, y as int,
            ) != c || c == PuyoColor::Empty ==> r@.len() == 0 && final(checked).mask() == old(
                checked,
            ).mask(),
            !(old(checked).mask()[cidx(x as int, y as int)] || cell(
                self.grid(), x as int, y as int,
            ) != c || c == PuyoColor::Empty) ==> r@.len() == csize(
                self.grid(), x as int, y as int,
            ) && (forall|k: int|
                0 <= k < r@.len() ==> pos_valid(r@[k]) && connected(
                    self.grid(), c, x as int, y as int, r@[k].x as int, r@[k].y as int,
                )) && (forall|i: int|
                0 <= i < 78 ==> final(checked).mask()[i] == (old(checked).mask()[i] || connected(
                    self.grid(), c, x as int, y as int, xof(i), yof(i),
                ))),
            forall|k1: int, k2: int|
                0 <= k1 < k2 < r@.len() ==> pos_idx(r@[k1]) != pos_idx(r@[k2]),
    {
        if checked.get(x as usize, y as usize) || !self.is_color(x, y, c) || c
            == PuyoColor::Empty {
            return Vec::new();
        }
        self.flood_mark(x as usize, y as usize, checked)
    }

    /// Like `count_connected_puyos`; the name records that callers only rely
    /// on comparisons against four, though the exact size is returned.
    pub fn count_connected_puyos_max4(&self, x: i32, y: i32) -> (r: i32)
        requires
            self.wf(),
            in_bounds(x as int, y as int),
        ensures
            r == (if cell(self.grid(), x as int, y as int) == PuyoColor::Empty {
                0int
            } else {
                csize(self.grid(), x as int, y as int) as int
            }),
            0 <= r <= 78,
    {
        self.count_connected_puyos(x, y)
    }

    /// Like `count_connected_puyos_max4`, counting only when the cell holds
    /// exactly color `c`.
    pub fn count_connected_puyos_max4_with_color(&self, x: i32, y: i32, c: PuyoColor) -> (r: i32)
        requires
            self.wf(),
            in_bounds(x as int, y as int),
        ensures
            r == (if cell(self.grid(), x as int, y as int) == c && c != PuyoColor::Empty {
                csize(self.grid(), x as int, y as int) as int
            } else {
                0int
            }),
            0 <= r <= 78,
    {
        if self.is_color(x, y, c) && c != PuyoColor::Empty {
            self.count_connected_puyos(x, y)
        } else {
            0
        }
    }

    /// Returns true if some neighbor of (`x`, `y`) holds exactly color `c`.
    pub fn is_connected_puyo_with_color(&self, x: i32, y: i32, c: PuyoColor) -> (r: bool)
        requires
            self.wf(),
            in_bounds(x as int, y as int),
        ensures
            r == exists|qx: int, qy: int|
                in_bounds(qx, qy) && adj(x as int, y as int, qx, qy) && cell(self.grid(), qx, qy)
                    == c,
    {
        let ghost g = self.grid();
        let ghost xi = x as int;
        let ghost yi = y as int;
        let mut found = false;
        if x + 1 < 6 && self.is_color(x + 1, y, c) {
            found = true;
            proof {
                assert(in_bounds(xi + 1, yi) && adj(xi, yi, xi + 1, yi) && cell(g, xi + 1, yi)
                    == c);
                assert(exists|qx: int, qy: int|
                    in_bounds(qx, qy) && adj(xi, yi, qx, qy) && cell(g, qx, qy) == c);
            }
        }
        if !found && x > 0 && self.is_color(x - 1, y, c) {
            found = true;
            proof {
                assert(in_bounds(xi - 1, yi) && adj(xi, yi, xi - 1, yi) && cell(g, xi - 1, yi)
                    == c);
                assert(exists|qx: int, qy: int|
                    in_bounds(qx, qy) && adj(xi, yi, qx, qy) && cell(g, qx, qy) == c);
            }
        }
        if !found && y + 1 < 13 && self.is_color(x, y + 1, c) {
            found = true;
            proof {
                assert(in_bounds(xi, yi + 1) && adj(xi, yi, xi, yi + 1) && cell(g, xi, yi + 1)
                    == c);
                assert(exists|qx: int, qy: int|
                    in_bounds(qx, qy) && adj(xi, yi, qx, qy) && cell(g, qx, qy) == c);
            }
        }
        if !found && y > 0 && self.is_color(x, y - 1, c) {
            found = true;
            proof {
                assert(in_bounds(xi, yi - 1) && adj(xi, yi, xi, yi - 1) && cell(g, xi, yi - 1)
                    == c);
                assert(exists|qx: int, qy: int|
                    in_bounds(qx, qy) && adj(xi, yi, qx, qy) && cell(g, qx, qy) == c);
            }
        }
        proof {
            if !found {
                assert forall|qx: int, qy: int| !(in_bounds(qx, qy) && adj(xi, yi, qx, qy)
                    && cell(g, qx, qy) == c) by {
                    if in_bounds(qx, qy) && adj(xi, yi, qx, qy) && cell(g, qx, qy) == c {
                        assert(false);
                    }
                }
            }
        }
        found
    }

    /// Returns true if some neighbor of (`x`, `y`) holds the same color.
    pub fn is_connected_puyo(&self, x: i32, y: i32) -> (r: bool)
        requires
            self.wf(),
            in_bounds(x as int, y as int),
        ensures
            r == exists|qx: int, qy: int|
                in_bounds(qx, qy) && adj(x as int, y as int, qx, qy) && cell(self.grid(), qx, qy)
                    == cell(self.grid(), x as int, y as int),
    {
        let c = self.color(x, y);
        self.is_connected_puyo_with_color(x, y, c)
    }

    /// Returns true if some neighbor of (`x`, `y`) is empty.
    pub fn has_empty_neighbor(&self, x: i32, y: i32) -> (r: bool)
        requires
            self.wf(),
            in_bounds(x as int, y as int),
        ensures
            r == exists|qx: int, qy: int|
                in_bounds(qx, qy) && adj(x as int, y as int, qx, qy) && cell(self.grid(), qx, qy)
                    == PuyoColor::Empty,
    {
        self.is_connected_puyo_with_color(x, y, PuyoColor::Empty)
    }

    /// The positions this round's vanish step removes, in column-major
    /// order: sound, complete and duplicate-free for the cell-wise vanish
    /// predicate.
    pub fn erasing_puyo_positions(&self) -> (r: Vec<Position>)
        requires
            self.wf(),
        ensures
            forall|k: int|
                0 <= k < r@.len() ==> pos_valid(r@[k]) && vanish_at(
                    self.grid(), r@[k].x as int, r@[k].y as int,
                ),
            forall|x: int, y: int|
                in_bounds(x, y) && vanish_at(self.grid(), x, y) ==> exists|k: int|
                    0 <= k < r@.len() && r@[k].x == x && r@[k].y == y,
            forall|k1: int, k2: int|
                0 <= k1 < k2 < r@.len() ==> pos_idx(r@[k1]) < pos_idx(r@[k2]),
            r@.len() <= 78,
    {
        let ghost g = self.grid();
        let mut r: Vec<Position> = Vec::new();
        let mut x: usize = 0;
        while x < 6
            invariant
                self.wf(),
                g == self.grid(),
                x <= 6,
                r@.len() <= 13 * x,
                forall|k: int|
                    0 <= k < r@.len() ==> pos_valid(r@[k]) && vanish_at(
                        g, r@[k].x as int, r@[k].y as int,
                    ) && pos_idx(r@[k]) < 13 * x,
                forall|k1: int, k2: int|
                    0 <= k1 < k2 < r@.len() ==> pos_idx(r@[k1]) < pos_idx(r@[k2]),
                forall|x2: int, y2: int|
                    in_bounds(x2, y2) && cidx(x2, y2) < 13 * x && vanish_at(g, x2, y2) ==> exists|
                        k: int,
                    | 0 <= k < r@.len() && r@[k].x == x2 && r@[k].y == y2,
            decreases 6 - x,
        {
            let mut y: usize = 0;
            while y < 13
                invariant
                    self.wf(),
                    g == self.grid(),
                    x < 6,
                    y <= 13,
                    r@.len() <= 13 * x + y,
                    forall|k: int|
                        0 <= k < r@.len() ==> pos_valid(r@[k]) && vanish_at(
                            g, r@[k].x as int, r@[k].y as int,
                        ) && pos_idx(r@[k]) < 13 * x + y,
                    forall|k1: int, k2: int|
                        0 <= k1 < k2 < r@.len() ==> pos_idx(r@[k1]) < pos_idx(r@[k2]),
                    forall|x2: int, y2: int|
                        in_bounds(x2, y2) && cidx(x2, y2) < 13 * x + y && vanish_at(g, x2, y2)
                            ==> exists|k: int|
                            0 <= k < r@.len() && r@[k].x == x2 && r@[k].y == y2,
                decreases 13 - y,
            {
                proof {
                    lemma_cidx(x as int, y as int);
                }
                let ghost rpre = r@;
                let vnow = cell_vanishes(&self.bit_field, x, y);
                if vnow {
                    let p = Position { x: x as i32, y: y as i32 };
                    r.push(p);
                    proof {
                        assert(r@[r@.len() - 1] == p);
                        assert(forall|k: int| 0 <= k < rpre.len() ==> r@[k] == rpre[k]);
                    }
                }
                proof {
                    assert forall|x2: int, y2: int|
                        in_bounds(x2, y2) && cidx(x2, y2) < 13 * (x as int) + y + 1 && vanish_at(
                            g, x2, y2,
                        ) implies exists|k: int|
                        0 <= k < r@.len() && r@[k].x == x2 && r@[k].y == y2 by {
                        lemma_cidx(x2, y2);
                        if cidx(x2, y2) < 13 * (x as int) + y {
                            assert(exists|k: int|
                                0 <= k < rpre.len() && rpre[k].x == x2 && rpre[k].y == y2);
                            let k = choose|k: int|
                                0 <= k < rpre.len() && rpre[k].x == x2 && rpre[k].y == y2;
                            assert(0 <= k < r@.len() && r@[k].x == x2 && r@[k].y == y2);
                        } else {
                            assert(x2 == x as int && y2 == y as int);
                            assert(vnow);
                            assert(r@[r@.len() - 1].x == x2 && r@[r@.len() - 1].y == y2);
                        }
                    }
                }
                y = y + 1;
            }
            x = x + 1;
        }
        r
    }

    /// Fills `positions` with this round's erased positions; returns their
    /// number.
    pub fn fill_erasing_puyo_positions(&self, positions: &mut Vec<Position>) -> (r: i32)
        requires
            self.wf(),
        ensures
            forall|k: int|
                0 <= k < final(positions)@.len() ==> pos_valid(final(positions)@[k]) && vanish_at(
                    self.grid(), final(positions)@[k].x as int, final(positions)@[k].y as int,
                ),
            forall|x: int, y: int|
                in_bounds(x, y) && vanish_at(self.grid(), x, y) ==> exists|k: int|
                    0 <= k < final(positions)@.len() && final(positions)@[k].x == x && final(positions)@[k].y == y,
            forall|k1: int, k2: int|
                0 <= k1 < k2 < final(positions)@.len() ==> pos_idx(final(positions)@[k1])
                    < pos_idx(final(positions)@[k2]),
            r == final(positions)@.len(),
    {
        let v = self.erasing_puyo_positions();
        let n = v.len();
        *positions = v;
        n as i32
    }

    /// The mask of the cells whose groups ignite this round.
    pub fn ignition_puyo_bits(&self) -> (r: FieldBits)
        requires
            self.wf(),
        ensures
            r.wf(),
            forall|i: int| 0 <= i < 78 ==> r.mask()[i] == erasable_idx(self.grid(), i),
    {
        let ghost g = self.grid();
        let mut m = FieldBits::new();
        let mut x: usize = 0;
        while x < 6
            invariant
                self.wf(),
                g == self.grid(),
                m.wf(),
                x <= 6,
                forall|i: int|
                    0 <= i < 78 ==> m.mask()[i] == (i < 13 * x && erasable_at(
                        g, xof(i), yof(i),
                    )),
            decreases 6 - x,
        {
            let mut y: usize = 0;
            while y < 13
                invariant
                    self.wf(),
                    g == self.grid(),
                    m.wf(),
                    x < 6,
                    y <= 13,
                    forall|i: int|
                        0 <= i < 78 ==> m.mask()[i] == (i < 13 * x + y && erasable_at(
                            g, xof(i), yof(i),
                        )),
                decreases 13 - y,
            {
                proof {
                    lemma_cidx(x as int, y as int);
                }
                if cell_erasable(&self.bit_field, x, y) {
                    m.set(x, y, true);
                }
                proof {
                    assert forall|i: int| 0 <= i < 78 implies m.mask()[i] == (i < 13 * (
                    x as int) + y + 1 && erasable_at(g, xof(i), yof(i))) by {
                        crate::model::lemma_idx_split(i);
                    }
                }
                y = y + 1;
            }
            x = x + 1;
        }
        proof {
            assert forall|i: int| 0 <= i < 78 implies m.mask()[i] == erasable_idx(g, i) by {
                crate::model::lemma_idx_split(i);
            }
        }
        m
    }

    /// Returns true if the cells the decision last placed sit in erasing
    /// groups now.
    pub fn rensa_will_occur_when_last_decision_is(&self, d: &Decision) -> (r: bool)
        requires
            self.wf(),
            d.wf(),
        ensures
            d.is_horizontal() ==> r == ((self.height_of(d.x as int) >= 1 && erasable_at(
                self.grid(), d.x as int, self.height_of(d.x as int) - 1,
            )) || (self.height_of(d.child_x()) >= 1 && erasable_at(
                self.grid(), d.child_x(), self.height_of(d.child_x()) - 1,
            ))),
            !d.is_horizontal() ==> r == ((self.height_of(d.x as int) >= 1 && erasable_at(
                self.grid(), d.x as int, self.height_of(d.x as int) - 1,
            )) || (self.height_of(d.x as int) >= 2 && erasable_at(
                self.grid(), d.x as int, self.height_of(d.x as int) - 2,
            ))),
    {
        let h = self.height(d.x);
        if d.r == 1 || d.r == 3 {
            let cx: usize = if d.r == 1 {
                d.x + 1
            } else {
                d.x - 1
            };
            let hc = self.height(cx);
            let mut r = false;
            if h >= 1 && cell_erasable(&self.bit_field, d.x, (h - 1) as usize) {
                r = true;
            }
            if !r && hc >= 1 && cell_erasable(&self.bit_field, cx, (hc - 1) as usize) {
                r = true;
            }
            r
        } else {
            let mut r = false;
            if h >= 1 && cell_erasable(&self.bit_field, d.x, (h - 1) as usize) {
                r = true;
            }
            if !r && h >= 2 && cell_erasable(&self.bit_field, d.x, (h - 2) as usize) {
                r = true;
            }
            r
        }
    }

    /// Copies the field into a plain cell store.
    pub fn to_plain_field(&self) -> (r: PlainField)
        requires
            self.wf(),
        ensures
            r.wf(),
            r.grid() == self.grid(),
    {
        let mut cells: Vec<PuyoColor> = Vec::new();
        let ghost g = self.grid();
        let mut x: usize = 0;
        while x < 6
            invariant
                self.wf(),
                g == self.grid(),
                x <= 6,
                cells@.len() == 13 * x,
                forall|j: int| 0 <= j < cells@.len() ==> cells@[j] == g[j],
            decreases 6 - x,
        {
            let mut y: usize = 0;
            while y < 13
                invariant
                    self.wf(),
                    g == self.grid(),
                    x < 6,
                    y <= 13,
                    cells@.len() == 13 * x + y,
                    forall|j: int| 0 <= j < cells@.len() ==> cells@[j] == g[j],
                decreases 13 - y,
            {
                proof {
                    lemma_cidx(x as int, y as int);
                }
                cells.push(self.bit_field.get(x, y));
                y = y + 1;
            }
            x = x + 1;
        }
        let r = PlainField { cells };
        proof {
            assert(r.grid() =~= g);
        }
        r
    }

    /// A simple deterministic digest of the field's cells.
    pub fn hash(&self) -> (r: usize)
        requires
            self.wf(),
        ensures
            r == crate::model::hash_spec(self.grid(), 78),
    {
        let ghost g = self.grid();
        let mut acc: u64 = 0;
        let mut x: usize = 0;
        while x < 6
            invariant
                self.wf(),
                g == self.grid(),
                x <= 6,
                acc == crate::model::hash_spec(g, 13 * x),
                acc < 0x1_0000_0000,
            decreases 6 - x,
        {
            let mut y: usize = 0;
            while y < 13
                invariant
                    self.wf(),
                    g == self.grid(),
                    x < 6,
                    y <= 13,
                    acc == crate::model::hash_spec(g, 13 * x + y),
                    acc < 0x1_0000_0000,
                decreases 13 - y,
            {
                proof {
                    lemma_cidx(x as int, y as int);
                }
                let c = self.bit_field.get(x, y);
                let code: u64 = match c {
                    PuyoColor::Empty => 0,
                    PuyoColor::Ojama => 1,
                    PuyoColor::Red => 2,
                    PuyoColor::Green => 3,
                    PuyoColor::Blue => 4,
                    PuyoColor::Yellow => 5,
                    PuyoColor::Purple => 6,
                };
                acc = (acc * 31 + code) % 0x1_0000_0000;
                y = y + 1;
            }
            x = x + 1;
        }
        acc as usize
    }

    /// Renders the field as text: thirteen rows from the top row down, each
    /// row's six cells followed by a newline.
    pub fn to_debug_string(&self) -> (r: String)
        requires
            self.wf(),
        ensures
            r@ == debug_rows(self.grid(), 13),
    {
        let ghost g = self.grid();
        let mut s = String::new();
        proof {
            assert(s@ =~= debug_rows(g, 0));
        }
        let mut k: usize = 0;
        while k < 13
            invariant
                self.wf(),
                g == self.grid(),
                k <= 13,
                s@ == debug_rows(g, k as int),
            decreases 13 - k,
        {
            let y = 12 - k;
            let mut x: usize = 0;
            while x < 6
                invariant
                    self.wf(),
                    g == self.grid(),
                    k < 13,
                    y == 12 - k,
                    x <= 6,
                    s@ == debug_rows(g, k as int) + Seq::new(
                        x as nat, |x2: int| color_char(cell(g, x2, y as int)),
                    ),
                decreases 6 - x,
            {
                let c = self.bit_field.get(x, y);
                let lit: &str = match c {
                    PuyoColor::Empty => ".",
                    PuyoColor::Ojama => "O",
                    PuyoColor::Red => "R",
                    PuyoColor::Green => "G",
                    PuyoColor::Blue => "B",
                    PuyoColor::Yellow => "Y",
                    PuyoColor::Purple => "P",
                };
                proof {
                    reveal_strlit(".");
                    reveal_strlit("O");
                    reveal_strlit("R");
                    reveal_strlit("G");
                    reveal_strlit("B");
                    reveal_strlit("Y");
                    reveal_strlit("P");
                }
                s.append(lit);
                proof {
                    assert(s@ =~= debug_rows(g, k as int) + Seq::new(
                        (x + 1) as nat, |x2: int| color_char(cell(g, x2, y as int)),
                    ));
                }
                x = x + 1;
            }
            proof {
                reveal_strlit("\n");
            }
            s.append("\n");
            proof {
                assert(s@ =~= debug_rows(g, k as int) + debug_row(g, y as int));
                assert(13 - (k as int + 1) == y as int);
            }
            k = k + 1;
        }
        s
    }

    /// How much column `x` rises above both neighbors; the walls count as
    /// height zero.
    pub fn ridge_height(&self, x: i32) -> (r: i32)
        requires
            self.wf(),
            0 <= x < 6,
        ensures
            r == ridge_spec(
                if x == 0 {
                    0int
                } else {
                    self.height_of(x as int - 1)
                },
                self.height_of(x as int),
                if x == 5 {
                    0int
                } else {
                    self.height_of(x as int + 1)
                },
            ),
    {
        let h = self.height(x as usize);
        let hl: i32 = if x == 0 {
            0
        } else {
            self.height((x - 1) as usize)
        };
        let hr: i32 = if x == 5 {
            0
        } else {
            self.height((x + 1) as usize)
        };
        let m = if hl >= hr {
            hl
        } else {
            hr
        };
        if h > m {
            h - m
        } else {
            0
        }
    }

    /// How far column `x` sits below both neighbors; the walls count as
    /// height 14.
    pub fn valley_depth(&self, x: i32) -> (r: i32)
        requires
            self.wf(),
            0 <= x < 6,
        ensures
            r == valley_spec(
                if x == 0 {
                    14int
                } else {
                    self.height_of(x as int - 1)
                },
                self.height_of(x as int),
                if x == 5 {
                    14int
                } else {
                    self.height_of(x as int + 1)
                },
            ),
    {
        let h = self.height(x as usize);
        let hl: i32 = if x == 0 {
            14
        } else {
            self.height((x - 1) as usize)
        };
        let hr: i32 = if x == 5 {
            14
        } else {
            self.height((x + 1) as usize)
        };
        let m = if hl <= hr {
            hl
        } else {
            hr
        };
        if h < m {
            m - h
        } else {
            0
        }
    }
}

/// Copies a cell vector.
fn copy_vec(v: &Vec<PuyoColor>) -> (r: Vec<PuyoColor>)
    ensures
        r@ == v@,
{
    let mut r: Vec<PuyoColor> = Vec::new();
    let mut i: usize = 0;
    while i < v.len()
        invariant
            i <= v@.len(),
            r@ == v@.take(i as int),
        decreases v@.len() - i,
    {
        r.push(v[i]);
        proof {
            assert(v@.take(i + 1).drop_last() =~= v@.take(i as int));
            assert(r@ =~= v@.take(i + 1));
        }
        i = i + 1;
    }
    proof {
        assert(v@.take(v@.len() as int) =~= v@);
    }
    r
}

impl CoreField {
    /// Builds the height cache over a gap-free grid.
    fn with_heights(bit_field: BitField) -> (r: CoreField)
        requires
            bit_field.wf(),
            crate::model::gap_free(bit_field.grid()),
        ensures
            r.wf(),
            r.grid() == bit_field.grid(),
    {
        let ghost g = bit_field.grid();
        let mut heights: Vec<i32> = Vec::new();
        let mut x: usize = 0;
        while x < 6
            invariant
                bit_field.wf(),
                g == bit_field.grid(),
                crate::model::gap_free(g),
                x <= 6,
                heights@.len() == x,
                forall|x2: int| 0 <= x2 < x ==> 0 <= #[trigger] heights@[x2] <= 13,
                forall|x2: int, y2: int|
                    in_bounds(x2, y2) && x2 < x ==> ((cell(g, x2, y2) != PuyoColor::Empty) <==> y2
                        < heights@[x2]),
            decreases 6 - x,
        {
            let mut h: usize = 0;
            while h < 13 && bit_field.get(x, h) != PuyoColor::Empty
                invariant
                    bit_field.wf(),
                    g == bit_field.grid(),
                    x < 6,
                    h <= 13,
                    forall|y2: int| 0 <= y2 < h ==> cell(g, x as int, y2) != PuyoColor::Empty,
                decreases 13 - h,
            {
                h = h + 1;
            }
            proof {
                if h < 13 {
                    assert(cell(g, x as int, h as int) == PuyoColor::Empty);
                    assert forall|y2: int| h <= y2 < 13 implies cell(g, x as int, y2)
                        == PuyoColor::Empty by {
                        crate::model::lemma_no_gap_above(g, x as int, h as int, y2);
                    }
                }
            }
            heights.push(h as i32);
            x = x + 1;
        }
        CoreField { heights, bit_field }
    }

    /// Drops `lines` rows of garbage onto every column, clipped at the
    /// field's ceiling; returns the frames the fall costs.
    #[verifier::loop_isolation(false)]
    pub fn fall_ojama(&mut self, lines: i32) -> (r: i32)
        requires
            old(self).wf(),
            0 <= lines <= 13,
        ensures
            final(self).wf(),
            r == lines * FRAMES_PER_DROP_ROW,
            forall|x: int|
                0 <= x < 6 ==> final(self).height_of(x) == (if old(self).height_of(x) + lines
                    <= 13 {
                    old(self).height_of(x) + lines
                } else {
                    13int
                }),
            forall|x: int, y: int|
                in_bounds(x, y) ==> #[trigger] cell(final(self).grid(), x, y) == (if y < old(
                    self,
                ).height_of(x) {
                    cell(old(self).grid(), x, y)
                } else if y < final(self).height_of(x) {
                    PuyoColor::Ojama
                } else {
                    PuyoColor::Empty
                }),
    {
        let mut x: usize = 0;
        while x < 6
            invariant
                self.wf(),
                x <= 6,
                forall|x2: int|
                    x <= x2 < 6 ==> #[trigger] self.height_of(x2) == old(self).height_of(x2),
                forall|x2: int|
                    0 <= x2 < x ==> #[trigger] self.height_of(x2) == (if old(self).height_of(x2)
                        + lines <= 13 {
                        old(self).height_of(x2) + lines
                    } else {
                        13int
                    }),
                forall|x2: int, y2: int|
                    in_bounds(x2, y2) && x2 >= x ==> #[trigger] cell(self.grid(), x2, y2) == cell(
                        old(self).grid(), x2, y2,
                    ),
                forall|x2: int, y2: int|
                    in_bounds(x2, y2) && x2 < x ==> #[trigger] cell(self.grid(), x2, y2) == (if y2
                        < old(self).height_of(x2) {
                        cell(old(self).grid(), x2, y2)
                    } else if y2 < self.height_of(x2) {
                        PuyoColor::Ojama
                    } else {
                        PuyoColor::Empty
                    }),
            decreases 6 - x,
        {
            let ghost snap = *self;
            let ghost h0 = self.height_of(x as int);
            proof {
                assert forall|y2: int| 0 <= y2 < 13 implies #[trigger] cell(
                    self.grid(), x as int, y2,
                ) == (if y2 < h0 {
                    cell(snap.grid(), x as int, y2)
                } else {
                    PuyoColor::Empty
                }) by {
                    assert(in_bounds(x as int, y2));
                    assert(self.wf());
                    assert((cell(self.grid(), x as int, y2) != PuyoColor::Empty) <==> y2
                        < self.height_of(x as int));
                }
            }
            let mut k: i32 = 0;
            while k < lines
                invariant
                    self.wf(),
                    x < 6,
                    0 <= k <= lines,
                    h0 == snap.height_of(x as int),
                    self.height_of(x as int) == (if h0 + k <= 13 {
                        h0 + k
                    } else {
                        13int
                    }),
                    forall|x2: int|
                        0 <= x2 < 6 && x2 != x ==> #[trigger] self.height_of(x2)
                            == snap.height_of(x2),
                    forall|x2: int, y2: int|
                        in_bounds(x2, y2) && x2 != x ==> #[trigger] cell(self.grid(), x2, y2)
                            == cell(snap.grid(), x2, y2),
                    forall|y2: int|
                        0 <= y2 < 13 ==> #[trigger] cell(self.grid(), x as int, y2) == (if y2
                            < h0 {
                            cell(snap.grid(), x as int, y2)
                        } else if y2 < self.height_of(x as int) {
                            PuyoColor::Ojama
                        } else {
                            PuyoColor::Empty
                        }),
                decreases lines - k,
            {
                let ghost gpre = self.grid();
                let ghost hpre = self.height_of(x as int);
                let placed = self.drop_puyo_on_with_max_height(x as i32, PuyoColor::Ojama, 13);
                proof {
                    if placed {
                        lemma_cidx(x as int, hpre);
                        assert forall|x2: int, y2: int|
                            in_bounds(x2, y2) && !(x2 == x as int && y2 == hpre) implies cell(
                            self.grid(), x2, y2,
                        ) == cell(gpre, x2, y2) by {
                            lemma_cidx(x2, y2);
                        }
                    }
                    assert forall|y2: int| 0 <= y2 < 13 implies #[trigger] cell(
                        self.grid(), x as int, y2,
                    ) == (if y2 < h0 {
                        cell(snap.grid(), x as int, y2)
                    } else if y2 < self.height_of(x as int) {
                        PuyoColor::Ojama
                    } else {
                        PuyoColor::Empty
                    }) by {
                        lemma_cidx(x as int, y2);
                        if placed {
                            if y2 != hpre {
                                assert(cell(self.grid(), x as int, y2) == cell(
                                    gpre, x as int, y2,
                                ));
                            }
                        } else {
                            assert(cell(self.grid(), x as int, y2) == cell(gpre, x as int, y2));
                        }
                    }
                }
                k = k + 1;
            }
            x = x + 1;
        }
        lines * FRAMES_PER_DROP_ROW
    }

    /// Drops every listed puyo in turn onto its column, stopping where a
    /// column reaches `max_height`; returns whether the whole list landed.
    pub fn drop_puyo_list_with_max_height(
        &mut self,
        cpl: &ColumnPuyoList,
        max_height: i32,
    ) -> (r: bool)
        requires
            old(self).wf(),
            cpl.wf(),
            0 <= max_height <= 13,
        ensures
            final(self).wf(),
            final(self).grid() == crate::model::drop_list_rec(
                old(self).grid(), cpl.entries@, cpl.entries@.len() as int, max_height as int,
            ).0,
            r == crate::model::drop_list_rec(
                old(self).grid(), cpl.entries@, cpl.entries@.len() as int, max_height as int,
            ).1,
    {
        let ghost g0 = self.grid();
        let ghost entries = cpl.entries@;
        let ghost mh = max_height as int;
        let n = cpl.entries.len();
        let mut k: usize = 0;
        let mut ok = true;
        while k < n
            invariant
                self.wf(),
                cpl.wf(),
                entries == cpl.entries@,
                n == entries.len(),
                0 <= max_height <= 13,
                mh == max_height as int,
                k <= n,
                (self.grid(), ok) == crate::model::drop_list_rec(g0, entries, k as int, mh),
            decreases n - k,
        {
            let e = cpl.entries[k];
            if ok {
                proof {
                    let s = colseq(self.grid(), e.0 as int);
                    let hi = self.height_of(e.0 as int);
                    assert(0 <= hi <= 13);
                    assert forall|j: int| 0 <= j < hi implies s[j] != PuyoColor::Empty by {
                        assert(in_bounds(e.0 as int, j));
                        assert(s[j] == cell(self.grid(), e.0 as int, j));
                        assert((cell(self.grid(), e.0 as int, j) != PuyoColor::Empty) <==> j
                            < self.height_of(e.0 as int));
                    }
                    assert forall|j: int| hi <= j < 13 implies s[j] == PuyoColor::Empty by {
                        assert(in_bounds(e.0 as int, j));
                        assert(s[j] == cell(self.grid(), e.0 as int, j));
                        assert((cell(self.grid(), e.0 as int, j) != PuyoColor::Empty) <==> j
                            < self.height_of(e.0 as int));
                    }
                    crate::model::lemma_kept_of_column(s, hi);
                    assert(col_occ(self.grid(), e.0 as int) == hi);
                }
                let placed = self.drop_puyo_on_with_max_height(e.0 as i32, e.1, max_height);
                if !placed {
                    ok = false;
                }
            }
            k = k + 1;
        }
        ok
    }

    /// Drops every listed puyo in turn onto its column under the field's
    /// ceiling of 13; returns whether the whole list landed.
    pub fn drop_puyo_list(&mut self, cpl: &ColumnPuyoList) -> (r: bool)
        requires
            old(self).wf(),
            cpl.wf(),
        ensures
            final(self).wf(),
            final(self).grid() == crate::model::drop_list_rec(
                old(self).grid(), cpl.entries@, cpl.entries@.len() as int, 13,
            ).0,
            r == crate::model::drop_list_rec(
                old(self).grid(), cpl.entries@, cpl.entries@.len() as int, 13,
            ).1,
    {
        self.drop_puyo_list_with_max_height(cpl, 13)
    }

    /// Creates a CoreField from a PlainField whose cells are gap-free.
    pub fn from_plain_field(pf: &PlainField) -> (r: Self)
        requires
            pf.wf(),
            crate::model::gap_free(pf.grid()),
        ensures
            r.wf(),
            r.grid() == pf.grid(),
    {
        Self::with_heights(BitField { cells: copy_vec(&pf.cells) })
    }

    /// Creates a CoreField from a BitField whose cells are gap-free.
    pub fn from_bit_field(bf: &BitField) -> (r: Self)
        requires
            bf.wf(),
            crate::model::gap_free(bf.grid()),
        ensures
            r.wf(),
            r.grid() == bf.grid(),
    {
        Self::with_heights(BitField { cells: copy_vec(&bf.cells) })
    }

    /// Creates a CoreField from any PlainField, letting its floating cells
    /// fall to the bottom of their columns first.
    pub fn from_plain_field_with_drop(pf: &PlainField) -> (r: Self)
        requires
            pf.wf(),
        ensures
            r.wf(),
            r.grid() == settled(pf.grid()),
    {
        let mut cf = CoreField {
            heights: vec![0i32; 6],
            bit_field: BitField { cells: copy_vec(&pf.cells) },
        };
        let _ = cf.settle_now();
        cf
    }
}

/// Errors the engine reports to its callers.
#[derive(Clone, Copy, Debug, PartialEq, Eq, Structural)]
pub enum PuyoError {
    ColumnFull,
}

} // verus!
