//! The mathematical model of the bit-board engine: the grid as a sequence of
//! cells, 4-connectivity, the vanish and gravity steps, and the chain
//! recursion that the executable engine is proved against.

use vstd::prelude::*;
use crate::core_field::PuyoColor;
use crate::score::chain_power_spec;
use crate::score::color_bonus_spec;
use crate::score::group_bonus_spec;

verus! {

/// (`x`, `y`) lies on the field; row 0 is the bottom.
pub open spec fn in_bounds(x: int, y: int) -> bool {
    0 <= x < 6 && 0 <= y < 13
}

/// Column-major index of cell (`x`, `y`).
pub open spec fn cidx(x: int, y: int) -> int {
    x * 13 + y
}

/// Column of flat index `i`.
pub open spec fn xof(i: int) -> int {
    i / 13
}

/// Row of flat index `i`.
pub open spec fn yof(i: int) -> int {
    i % 13
}

/// A grid is a column-major sequence of exactly 78 cells.
pub open spec fn grid_wf(g: Seq<PuyoColor>) -> bool {
    g.len() == 78
}

/// The cell of `g` at (`x`, `y`).
pub open spec fn cell(g: Seq<PuyoColor>, x: int, y: int) -> PuyoColor {
    g[cidx(x, y)]
}

/// A color that can form groups: neither empty nor garbage.
pub open spec fn is_normal(c: PuyoColor) -> bool {
    c != PuyoColor::Empty && c != PuyoColor::Ojama
}

/// Flat indexing agrees with (`x`, `y`) coordinates.
pub proof fn lemma_cidx(x: int, y: int)
    requires
        in_bounds(x, y),
    ensures
        0 <= cidx(x, y) < 78,
        xof(cidx(x, y)) == x,
        yof(cidx(x, y)) == y,
{
    assert(0 <= x * 13 + y < 78 && (x * 13 + y) / 13 == x && (x * 13 + y) % 13 == y)
        by (nonlinear_arith)
        requires
            0 <= x < 6,
            0 <= y < 13,
    ;
}

/// Every flat index comes from a cell in bounds.
pub proof fn lemma_idx_split(i: int)
    requires
        0 <= i < 78,
    ensures
        in_bounds(xof(i), yof(i)),
        cidx(xof(i), yof(i)) == i,
{
    assert(0 <= i / 13 < 6 && 0 <= i % 13 < 13 && (i / 13) * 13 + i % 13 == i)
        by (nonlinear_arith)
        requires
            0 <= i < 78,
    ;
}

// ---------------------------------------------------------------------------
// Counting true bits of a mask.
// ---------------------------------------------------------------------------

/// Number of `true` entries among the first `i` entries of `s`.
pub open spec fn count_true(s: Seq<bool>, i: int) -> nat
    decreases i,
{
    if i <= 0 {
        0
    } else {
        count_true(s, i - 1) + (if 0 <= i - 1 < s.len() && s[i - 1] {
            1nat
        } else {
            0nat
        })
    }
}

/// A prefix of length `i` holds at most `i` true bits.
pub proof fn lemma_count_true_le(s: Seq<bool>, i: int)
    requires
        i >= 0,
    ensures
        count_true(s, i) <= i,
    decreases i,
{
    if i > 0 {
        lemma_count_true_le(s, i - 1);
    }
}

/// Masks that agree pointwise on a prefix have the same count there.
pub proof fn lemma_count_true_congruence(s1: Seq<bool>, s2: Seq<bool>, i: int)
    requires
        forall|j: int|
            0 <= j < i ==> ((j < s1.len() && s1[j]) <==> (j < s2.len() && s2[j])),
    ensures
        count_true(s1, i) == count_true(s2, i),
    decreases i,
{
    if i > 0 {
        lemma_count_true_congruence(s1, s2, i - 1);
    }
}

/// Setting a `false` bit to `true` raises the count of prefixes behind it by one.
pub proof fn lemma_count_true_update(s: Seq<bool>, j: int, i: int)
    requires
        0 <= j < s.len(),
        !s[j],
    ensures
        count_true(s.update(j, true), i) == count_true(s, i) + (if j < i {
            1nat
        } else {
            0nat
        }),
    decreases i,
{
    if i > 0 {
        lemma_count_true_update(s, j, i - 1);
    }
}

/// A mask with no true bit in the prefix counts zero.
pub proof fn lemma_count_true_zero(s: Seq<bool>, i: int)
    requires
        forall|j: int| 0 <= j < i ==> !(j < s.len() && s[j]),
    ensures
        count_true(s, i) == 0,
    decreases i,
{
    if i > 0 {
        lemma_count_true_zero(s, i - 1);
    }
}

/// A positive count comes from some true bit in the prefix.
pub proof fn lemma_count_true_nonzero(s: Seq<bool>, i: int)
    requires
        count_true(s, i) >= 1,
    ensures
        exists|j: int| 0 <= j < i && j < s.len() && s[j],
    decreases i,
{
    if i > 0 {
        if !(0 <= i - 1 < s.len() && s[i - 1]) {
            lemma_count_true_nonzero(s, i - 1);
        }
    }
}

/// A pointwise-dominated mask never counts more.
pub proof fn lemma_count_true_dominates(s1: Seq<bool>, s2: Seq<bool>, i: int)
    requires
        forall|j: int| 0 <= j < i && j < s2.len() && s2[j] ==> j < s1.len() && s1[j],
    ensures
        count_true(s1, i) >= count_true(s2, i),
    decreases i,
{
    if i > 0 {
        lemma_count_true_dominates(s1, s2, i - 1);
    }
}

/// A true bit in the prefix makes the count positive.
pub proof fn lemma_count_true_pos(s: Seq<bool>, j: int, i: int)
    requires
        0 <= j < i,
        j < s.len(),
        s[j],
    ensures
        count_true(s, i) >= 1,
    decreases i,
{
    if j < i - 1 {
        lemma_count_true_pos(s, j, i - 1);
    }
}

// ---------------------------------------------------------------------------
// Columns and gravity.
// ---------------------------------------------------------------------------

/// Column `x` of `g`, bottom to top.
pub open spec fn colseq(g: Seq<PuyoColor>, x: int) -> Seq<PuyoColor> {
    Seq::new(13, |y: int| cell(g, x, y))
}

/// The occupied cells of a column, in order, with the empties dropped.
pub open spec fn kept(s: Seq<PuyoColor>) -> Seq<PuyoColor>
    decreases s.len(),
{
    if s.len() == 0 {
        Seq::empty()
    } else if s.last() == PuyoColor::Empty {
        kept(s.drop_last())
    } else {
        kept(s.drop_last()).push(s.last())
    }
}

/// Number of occupied cells in column `x`.
pub open spec fn col_occ(g: Seq<PuyoColor>, x: int) -> nat {
    kept(colseq(g, x)).len()
}

/// Occupied cells in the first `x` columns.
pub open spec fn occupied_upto(g: Seq<PuyoColor>, x: int) -> nat
    decreases x,
{
    if x <= 0 {
        0
    } else {
        occupied_upto(g, x - 1) + col_occ(g, x - 1)
    }
}

/// Total occupied cells of the field.
pub open spec fn occupied(g: Seq<PuyoColor>) -> nat {
    occupied_upto(g, 6)
}

/// A column keeps at most as many cells as it has.
pub proof fn lemma_kept_len_le(s: Seq<PuyoColor>)
    ensures
        kept(s).len() <= s.len(),
    decreases s.len(),
{
    if s.len() > 0 {
        lemma_kept_len_le(s.drop_last());
    }
}

/// Every kept cell is occupied.
pub proof fn lemma_kept_nonempty(s: Seq<PuyoColor>)
    ensures
        forall|j: int| 0 <= j < kept(s).len() ==> kept(s)[j] != PuyoColor::Empty,
    decreases s.len(),
{
    if s.len() > 0 {
        lemma_kept_nonempty(s.drop_last());
    }
}

/// A column with no empty cell is kept whole.
pub proof fn lemma_kept_of_full(s: Seq<PuyoColor>)
    requires
        forall|j: int| 0 <= j < s.len() ==> s[j] != PuyoColor::Empty,
    ensures
        kept(s) == s,
    decreases s.len(),
{
    if s.len() > 0 {
        lemma_kept_of_full(s.drop_last());
        assert(kept(s.drop_last()).push(s.last()) =~= s);
    }
}

/// Appending empty cells on top changes nothing of what is kept.
pub proof fn lemma_kept_pad(s: Seq<PuyoColor>, n: int)
    requires
        n >= 0,
    ensures
        kept(s + Seq::new(n as nat, |j: int| PuyoColor::Empty)) == kept(s),
    decreases n,
{
    let pad = Seq::new(n as nat, |j: int| PuyoColor::Empty);
    if n == 0 {
        assert(s + pad =~= s);
    } else {
        let shorter = Seq::new((n - 1) as nat, |j: int| PuyoColor::Empty);
        assert((s + pad).drop_last() =~= s + shorter);
        assert((s + pad).last() == PuyoColor::Empty);
        lemma_kept_pad(s, n - 1);
    }
}

/// A contiguous column of height `h` keeps exactly its bottom `h` cells.
pub proof fn lemma_kept_of_column(s: Seq<PuyoColor>, h: int)
    requires
        0 <= h <= s.len(),
        forall|j: int| 0 <= j < h ==> s[j] != PuyoColor::Empty,
        forall|j: int| h <= j < s.len() ==> s[j] == PuyoColor::Empty,
    ensures
        kept(s) == s.take(h),
        kept(s).len() == h,
    decreases s.len(),
{
    if s.len() == 0 {
        assert(kept(s) =~= s.take(h));
    } else if h == s.len() {
        lemma_kept_of_full(s);
        assert(s.take(h) =~= s);
    } else {
        assert(s.last() == PuyoColor::Empty);
        lemma_kept_of_column(s.drop_last(), h);
        assert(s.drop_last().take(h) =~= s.take(h));
    }
}

/// Emptying some occupied cells of a column lowers its kept count by the
/// number of cells emptied, and never raises it.
pub proof fn lemma_kept_erase(s1: Seq<PuyoColor>, s2: Seq<PuyoColor>, v: Seq<bool>)
    requires
        s1.len() == s2.len(),
        v.len() == s1.len(),
        forall|j: int|
            0 <= j < s1.len() ==> s2[j] == (if v[j] {
                PuyoColor::Empty
            } else {
                s1[j]
            }),
        forall|j: int| 0 <= j < s1.len() && v[j] ==> s1[j] != PuyoColor::Empty,
    ensures
        kept(s2).len() + count_true(v, s1.len() as int) == kept(s1).len(),
    decreases s1.len(),
{
    if s1.len() > 0 {
        let n = s1.len() - 1;
        lemma_kept_erase(s1.drop_last(), s2.drop_last(), v.take(n as int));
        lemma_count_true_congruence(v.take(n as int), v, n as int);
    }
}

/// No cell floats: every occupied cell sits on an occupied cell or on the
/// floor.
pub open spec fn gap_free(g: Seq<PuyoColor>) -> bool {
    forall|x: int, y: int|
        in_bounds(x, y) && y >= 1 && #[trigger] cell(g, x, y) != PuyoColor::Empty ==> cell(
            g, x, y - 1,
        ) != PuyoColor::Empty
}

/// In a gap-free column, everything above an empty cell is empty.
pub proof fn lemma_no_gap_above(g: Seq<PuyoColor>, x: int, h: int, y: int)
    requires
        gap_free(g),
        0 <= x < 6,
        0 <= h < 13,
        cell(g, x, h) == PuyoColor::Empty,
        h <= y < 13,
    ensures
        cell(g, x, y) == PuyoColor::Empty,
    decreases y,
{
    if y > h {
        lemma_no_gap_above(g, x, h, y - 1);
        if cell(g, x, y) != PuyoColor::Empty {
            assert(cell(g, x, y - 1) != PuyoColor::Empty);
        }
    }
}

// ---------------------------------------------------------------------------
// 4-connectivity.
// ---------------------------------------------------------------------------

/// (`x1`, `y1`) and (`x2`, `y2`) share an edge.
pub open spec fn adj(x1: int, y1: int, x2: int, y2: int) -> bool {
    (x1 == x2 && (y2 == y1 + 1 || y2 == y1 - 1)) || (y1 == y2 && (x2 == x1 + 1 || x2 == x1
        - 1))
}

/// There is a path of at most `n` steps from (`sx`, `sy`) to (`x`, `y`)
/// through cells of color `c`.
pub open spec fn conn_to(
    g: Seq<PuyoColor>,
    c: PuyoColor,
    sx: int,
    sy: int,
    x: int,
    y: int,
    n: nat,
) -> bool
    decreases n,
{
    if sx == x && sy == y {
        in_bounds(x, y) && cell(g, x, y) == c
    } else if n == 0 {
        false
    } else {
        in_bounds(x, y) && cell(g, x, y) == c && exists|px: int, py: int|
            conn_to(g, c, sx, sy, px, py, (n - 1) as nat) && adj(px, py, x, y)
    }
}

/// (`x`, `y`) lies in the same-color connected component seeded at
/// (`sx`, `sy`).
pub open spec fn connected(
    g: Seq<PuyoColor>,
    c: PuyoColor,
    sx: int,
    sy: int,
    x: int,
    y: int,
) -> bool {
    exists|n: nat| conn_to(g, c, sx, sy, x, y, n)
}

/// A connected cell is on the field and has the component's color.
pub proof fn lemma_connected_target(
    g: Seq<PuyoColor>,
    c: PuyoColor,
    sx: int,
    sy: int,
    x: int,
    y: int,
)
    requires
        connected(g, c, sx, sy, x, y),
    ensures
        in_bounds(x, y),
        cell(g, x, y) == c,
{
    let n = choose|n: nat| conn_to(g, c, sx, sy, x, y, n);
    assert(conn_to(g, c, sx, sy, x, y, n));
}

/// A component grows across any shared edge onto a cell of its color.
pub proof fn lemma_connected_step(
    g: Seq<PuyoColor>,
    c: PuyoColor,
    sx: int,
    sy: int,
    px: int,
    py: int,
    x: int,
    y: int,
)
    requires
        connected(g, c, sx, sy, px, py),
        adj(px, py, x, y),
        in_bounds(x, y),
        cell(g, x, y) == c,
    ensures
        connected(g, c, sx, sy, x, y),
{
    let n = choose|n: nat| conn_to(g, c, sx, sy, px, py, n);
    if sx == x && sy == y {
        assert(conn_to(g, c, sx, sy, x, y, 0));
    } else {
        assert(conn_to(g, c, sx, sy, px, py, n) && adj(px, py, x, y));
        assert(conn_to(g, c, sx, sy, x, y, n + 1));
    }
}

/// Any cell set that contains the seed and is closed under same-color
/// adjacency contains the whole component.
pub proof fn lemma_closed_contains(
    g: Seq<PuyoColor>,
    c: PuyoColor,
    sx: int,
    sy: int,
    m: Seq<bool>,
    x: int,
    y: int,
    n: nat,
)
    requires
        m.len() == 78,
        in_bounds(sx, sy),
        m[cidx(sx, sy)],
        forall|px: int, py: int, qx: int, qy: int|
            in_bounds(px, py) && in_bounds(qx, qy) && m[cidx(px, py)] && adj(px, py, qx, qy)
                && cell(g, qx, qy) == c ==> m[cidx(qx, qy)],
        conn_to(g, c, sx, sy, x, y, n),
    ensures
        m[cidx(x, y)],
    decreases n,
{
    if sx == x && sy == y {
    } else {
        let (px, py) = choose|px: int, py: int|
            conn_to(g, c, sx, sy, px, py, (n - 1) as nat) && adj(px, py, x, y);
        assert(conn_to(g, c, sx, sy, px, py, (n - 1) as nat));
        lemma_closed_contains(g, c, sx, sy, m, px, py, (n - 1) as nat);
        assert(in_bounds(px, py) && cell(g, px, py) == c) by {
            assert(connected(g, c, sx, sy, px, py));
            lemma_connected_target(g, c, sx, sy, px, py);
        }
    }
}

/// The component of flat index `i` contains flat index `j`.
pub open spec fn connected_idx(g: Seq<PuyoColor>, i: int, j: int) -> bool {
    connected(g, g[i], xof(i), yof(i), xof(j), yof(j))
}

/// Mask of the component seeded at (`sx`, `sy`).
pub open spec fn conn_mask(g: Seq<PuyoColor>, sx: int, sy: int) -> Seq<bool> {
    Seq::new(78, |i: int| connected(g, cell(g, sx, sy), sx, sy, xof(i), yof(i)))
}

/// Size of the connected component seeded at (`sx`, `sy`).
pub open spec fn csize(g: Seq<PuyoColor>, sx: int, sy: int) -> nat {
    count_true(conn_mask(g, sx, sy), 78)
}

// ---------------------------------------------------------------------------
// The vanish step.
// ---------------------------------------------------------------------------

/// The cell at (`x`, `y`) belongs to an erasable group: a normal color in a
/// component of size at least 4.
pub open spec fn erasable_at(g: Seq<PuyoColor>, x: int, y: int) -> bool {
    in_bounds(x, y) && is_normal(cell(g, x, y)) && csize(g, x, y) >= 4
}

/// The erasable cell of flat index `i`.
pub open spec fn erasable_idx(g: Seq<PuyoColor>, i: int) -> bool {
    erasable_at(g, xof(i), yof(i))
}

/// A garbage cell next to an erasing group is cleared in the same round.
pub open spec fn ojama_cleared_at(g: Seq<PuyoColor>, x: int, y: int) -> bool {
    in_bounds(x, y) && cell(g, x, y) == PuyoColor::Ojama && exists|x2: int, y2: int|
        adj(x, y, x2, y2) && erasable_at(g, x2, y2)
}

/// The cell at (`x`, `y`) is removed by this round's vanish step.
pub open spec fn vanish_at(g: Seq<PuyoColor>, x: int, y: int) -> bool {
    erasable_at(g, x, y) || ojama_cleared_at(g, x, y)
}

/// The grid after removing this round's vanishing cells.
pub open spec fn vanished(g: Seq<PuyoColor>) -> Seq<PuyoColor> {
    Seq::new(78, |i: int| if vanish_at(g, xof(i), yof(i)) {
        PuyoColor::Empty
    } else {
        g[i]
    })
}

/// Some erasable group exists.
pub open spec fn has_erasable(g: Seq<PuyoColor>) -> bool {
    exists|x: int, y: int| erasable_at(g, x, y)
}

/// Mask of the cells of column `x` that vanish.
pub open spec fn vanish_col_mask(g: Seq<PuyoColor>, x: int) -> Seq<bool> {
    Seq::new(13, |y: int| vanish_at(g, x, y))
}

/// Number of vanishing cells in column `x`.
pub open spec fn vanish_count_col(g: Seq<PuyoColor>, x: int) -> nat {
    count_true(vanish_col_mask(g, x), 13)
}

/// Number of vanishing cells in the first `x` columns.
pub open spec fn vanish_count_upto(g: Seq<PuyoColor>, x: int) -> nat
    decreases x,
{
    if x <= 0 {
        0
    } else {
        vanish_count_upto(g, x - 1) + vanish_count_col(g, x - 1)
    }
}

/// Total number of cells removed by this round's vanish step.
pub open spec fn vanish_count(g: Seq<PuyoColor>) -> nat {
    vanish_count_upto(g, 6)
}

// ---------------------------------------------------------------------------
// The gravity step.
// ---------------------------------------------------------------------------

/// The grid after compacting every column downward.
pub open spec fn settled(g: Seq<PuyoColor>) -> Seq<PuyoColor> {
    Seq::new(78, |i: int| {
        let k = kept(colseq(g, i / 13));
        if i % 13 < k.len() {
            k[i % 13]
        } else {
            PuyoColor::Empty
        }
    })
}

/// A column of the settled grid is its kept cells with empties above.
pub proof fn lemma_settled_col(g: Seq<PuyoColor>, x: int)
    requires
        grid_wf(g),
        0 <= x < 6,
    ensures
        forall|y: int| #![auto]
            0 <= y < 13 ==> cell(settled(g), x, y) == (if y < kept(colseq(g, x)).len() {
                kept(colseq(g, x))[y]
            } else {
                PuyoColor::Empty
            }),
{
    assert forall|y: int| #![auto] 0 <= y < 13 implies cell(settled(g), x, y) == (if y < kept(
        colseq(g, x),
    ).len() {
        kept(colseq(g, x))[y]
    } else {
        PuyoColor::Empty
    }) by {
        lemma_cidx(x, y);
    }
}

/// Gravity moves cells but neither creates nor destroys them: column by
/// column, the occupied count is unchanged.
pub proof fn lemma_settled_col_occ(g: Seq<PuyoColor>, x: int)
    requires
        grid_wf(g),
        0 <= x < 6,
    ensures
        col_occ(settled(g), x) == col_occ(g, x),
        kept(colseq(settled(g), x)) == kept(colseq(g, x)),
{
    let k = kept(colseq(g, x));
    lemma_kept_len_le(colseq(g, x));
    lemma_settled_col(g, x);
    let pad = Seq::new((13 - k.len()) as nat, |j: int| PuyoColor::Empty);
    assert(colseq(settled(g), x) =~= k + pad);
    lemma_kept_pad(k, 13 - k.len());
    lemma_kept_nonempty(colseq(g, x));
    lemma_kept_of_full(k);
}

/// The vanish step empties exactly `vanish_count_col` cells of each column.
pub proof fn lemma_vanished_col_occ(g: Seq<PuyoColor>, x: int)
    requires
        grid_wf(g),
        0 <= x < 6,
    ensures
        col_occ(vanished(g), x) + vanish_count_col(g, x) == col_occ(g, x),
{
    let s1 = colseq(g, x);
    let s2 = colseq(vanished(g), x);
    let v = vanish_col_mask(g, x);
    assert forall|j: int| 0 <= j < 13 implies s2[j] == (if v[j] {
        PuyoColor::Empty
    } else {
        s1[j]
    }) by {
        lemma_cidx(x, j);
    }
    assert forall|j: int| 0 <= j < 13 && v[j] implies s1[j] != PuyoColor::Empty by {
        lemma_cidx(x, j);
    }
    lemma_kept_erase(s1, s2, v);
}

/// Occupied-cell conservation over one vanish-and-settle round: what remains
/// is what was there minus what vanished.
pub proof fn lemma_conservation(g: Seq<PuyoColor>)
    requires
        grid_wf(g),
    ensures
        occupied(settled(vanished(g))) + vanish_count(g) == occupied(g),
{
    lemma_conservation_upto(g, 6);
}

proof fn lemma_conservation_upto(g: Seq<PuyoColor>, x: int)
    requires
        grid_wf(g),
        0 <= x <= 6,
    ensures
        occupied_upto(settled(vanished(g)), x) + vanish_count_upto(g, x) == occupied_upto(g, x),
    decreases x,
{
    if x > 0 {
        lemma_conservation_upto(g, x - 1);
        lemma_settled_col_occ(vanished(g), x - 1);
        lemma_vanished_col_occ(g, x - 1);
    }
}

/// Mask of the cells holding exactly color `c`.
pub open spec fn color_mask(g: Seq<PuyoColor>, c: PuyoColor) -> Seq<bool> {
    Seq::new(78, |i: int| g[i] == c)
}

/// Number of cells holding exactly color `c`.
pub open spec fn color_count(g: Seq<PuyoColor>, c: PuyoColor) -> nat {
    count_true(color_mask(g, c), 78)
}

/// Mask of the cells holding a normal (matchable) color.
pub open spec fn normal_mask(g: Seq<PuyoColor>) -> Seq<bool> {
    Seq::new(78, |i: int| is_normal(g[i]))
}

/// Number of cells holding a normal (matchable) color.
pub open spec fn normal_count(g: Seq<PuyoColor>) -> nat {
    count_true(normal_mask(g), 78)
}

/// A simple deterministic digest of the first `i` cells.
pub open spec fn hash_spec(g: Seq<PuyoColor>, i: int) -> nat
    decreases i,
{
    if i <= 0 {
        0
    } else {
        ((hash_spec(g, i - 1) * 31 + color_code_spec(g[i - 1])) % 0x1_0000_0000) as nat
    }
}

/// A small integer code for each color, used by the digest.
pub open spec fn color_code_spec(c: PuyoColor) -> nat {
    match c {
        PuyoColor::Empty => 0,
        PuyoColor::Ojama => 1,
        PuyoColor::Red => 2,
        PuyoColor::Green => 3,
        PuyoColor::Blue => 4,
        PuyoColor::Yellow => 5,
        PuyoColor::Purple => 6,
    }
}

/// The grid and success flag after dropping the first `k` listed puyos in
/// turn, each onto the top of its column under the height limit `mh`; a full
/// column stops the list where it stands.
pub open spec fn drop_list_rec(
    g: Seq<PuyoColor>,
    entries: Seq<(usize, PuyoColor)>,
    k: int,
    mh: int,
) -> (Seq<PuyoColor>, bool)
    decreases k,
{
    if k <= 0 {
        (g, true)
    } else {
        let prev = drop_list_rec(g, entries, k - 1, mh);
        if !prev.1 {
            prev
        } else {
            let x = entries[k - 1].0 as int;
            let c = entries[k - 1].1;
            if col_occ(prev.0, x) < mh {
                (prev.0.update(cidx(x, col_occ(prev.0, x) as int), c), true)
            } else {
                (prev.0, false)
            }
        }
    }
}

// ---------------------------------------------------------------------------
// Scoring one round.
// ---------------------------------------------------------------------------

/// 1 for true, 0 for false.
pub open spec fn bool_nat(b: bool) -> nat {
    if b {
        1
    } else {
        0
    }
}

/// Mask of the erasable (normal, scoring) cells.
pub open spec fn erase_mask(g: Seq<PuyoColor>) -> Seq<bool> {
    Seq::new(78, |i: int| erasable_idx(g, i))
}

/// Number of normal cells erased this round; garbage contributes nothing.
pub open spec fn erased_count(g: Seq<PuyoColor>) -> nat {
    count_true(erase_mask(g), 78)
}

/// Some erasable cell of color `c` lies below flat index `n`.
pub open spec fn has_erasable_color_upto(g: Seq<PuyoColor>, c: PuyoColor, n: int) -> bool {
    exists|i: int| 0 <= i < n && erasable_idx(g, i) && g[i] == c
}

/// Some erasable cell of color `c` exists.
pub open spec fn has_erasable_color(g: Seq<PuyoColor>, c: PuyoColor) -> bool {
    has_erasable_color_upto(g, c, 78)
}

/// Number of distinct colors erased this round.
pub open spec fn num_colors(g: Seq<PuyoColor>) -> nat {
    bool_nat(has_erasable_color(g, PuyoColor::Red)) + bool_nat(
        has_erasable_color(g, PuyoColor::Green),
    ) + bool_nat(has_erasable_color(g, PuyoColor::Blue)) + bool_nat(
        has_erasable_color(g, PuyoColor::Yellow),
    ) + bool_nat(has_erasable_color(g, PuyoColor::Purple))
}

/// Flat index `i` is the canonical seed of its erasing group: the smallest
/// index in the component.
pub open spec fn is_rep(g: Seq<PuyoColor>, i: int) -> bool {
    0 <= i < 78 && erasable_idx(g, i) && forall|j: int|
        0 <= j < 78 && connected_idx(g, i, j) ==> j >= i
}

/// Sum of the group bonuses of the groups whose canonical seed lies below
/// flat index `i`.
pub open spec fn group_bonus_upto(g: Seq<PuyoColor>, i: int) -> nat
    decreases i,
{
    if i <= 0 {
        0
    } else {
        group_bonus_upto(g, i - 1) + (if is_rep(g, i - 1) {
            group_bonus_spec(csize(g, xof(i - 1), yof(i - 1)))
        } else {
            0nat
        })
    }
}

/// Sum of the group bonuses of all erasing groups.
pub open spec fn group_bonus_total(g: Seq<PuyoColor>) -> nat {
    group_bonus_upto(g, 78)
}

/// The round multiplier: chain power plus color bonus plus group bonus,
/// floored at 1.
pub open spec fn multiplier(g: Seq<PuyoColor>, chain: nat) -> nat {
    let m = chain_power_spec(chain) + color_bonus_spec(num_colors(g)) + group_bonus_total(g);
    if m == 0 {
        1
    } else {
        m
    }
}

/// Score of one round: erased cells times ten times the multiplier.
pub open spec fn round_score_spec(g: Seq<PuyoColor>, chain: nat) -> nat {
    erased_count(g) * 10 * multiplier(g, chain)
}

// ---------------------------------------------------------------------------
// The chain recursion.
// ---------------------------------------------------------------------------

/// Runs rounds of vanish-and-settle until nothing erases or `fuel` runs out:
/// yields the final grid, the number of rounds, and the accumulated score.
pub open spec fn sim_rec(g: Seq<PuyoColor>, chain: nat, fuel: nat) -> (Seq<PuyoColor>, nat, nat)
    decreases fuel,
{
    if !has_erasable(g) || fuel == 0 {
        (g, 0nat, 0nat)
    } else {
        let rest = sim_rec(settled(vanished(g)), chain + 1, (fuel - 1) as nat);
        (rest.0, rest.1 + 1, round_score_spec(g, chain) + rest.2)
    }
}

/// Idempotence: on a field already in its terminal state (no erasable
/// group), the chain recursion does nothing: no rounds, no score, the grid
/// unchanged.
pub proof fn lemma_simulate_idempotent(g: Seq<PuyoColor>, chain: nat, fuel: nat)
    requires
        !has_erasable(g),
    ensures
        sim_rec(g, chain, fuel) == (g, 0nat, 0nat),
{
}

/// Garbage never scores: a garbage cell is never in the erased-cell count
/// that the score multiplies, and it vanishes only by clearing beside an
/// erasing group.
pub proof fn lemma_ojama_scores_zero(g: Seq<PuyoColor>, i: int)
    requires
        0 <= i < 78,
        g[i] == PuyoColor::Ojama,
    ensures
        !erase_mask(g)[i],
        vanish_at(g, xof(i), yof(i)) == ojama_cleared_at(g, xof(i), yof(i)),
    {
    lemma_idx_split(i);
}

/// Order independence: any two enumerations of the cells a round erases,
/// each sound, complete and duplicate-free, name the same set of cells. The
/// erased set is decided cell by cell, never by scan order.
pub proof fn lemma_erasing_positions_order_independent(
    g: Seq<PuyoColor>,
    r1: Seq<(int, int)>,
    r2: Seq<(int, int)>,
)
    requires
        forall|k: int|
            0 <= k < r1.len() ==> in_bounds(r1[k].0, r1[k].1) && vanish_at(g, r1[k].0, r1[k].1),
        forall|x: int, y: int|
            in_bounds(x, y) && vanish_at(g, x, y) ==> r1.contains((x, y)),
        forall|k: int|
            0 <= k < r2.len() ==> in_bounds(r2[k].0, r2[k].1) && vanish_at(g, r2[k].0, r2[k].1),
        forall|x: int, y: int|
            in_bounds(x, y) && vanish_at(g, x, y) ==> r2.contains((x, y)),
    ensures
        r1.to_set() == r2.to_set(),
{
    assert forall|p: (int, int)| r1.to_set().contains(p) implies r2.to_set().contains(p) by {
        let k = choose|k: int| 0 <= k < r1.len() && r1[k] == p;
        assert(r2.contains(p));
    }
    assert forall|p: (int, int)| r2.to_set().contains(p) implies r1.to_set().contains(p) by {
        let k = choose|k: int| 0 <= k < r2.len() && r2[k] == p;
        assert(r1.contains(p));
    }
    assert(r1.to_set() =~= r2.to_set());
}

/// Connectivity correctness: where the normal cells are all of one color,
/// pairwise connected, and at least four, every one of them is erasable, the
/// erasable cells are exactly they, and they erase as one single group: the
/// canonical seed is unique.
pub proof fn lemma_single_blob_one_group(g: Seq<PuyoColor>, c: PuyoColor, m: Seq<bool>)
    requires
        grid_wf(g),
        is_normal(c),
        m.len() == 78,
        forall|i: int| 0 <= i < 78 ==> (m[i] <==> is_normal(g[i])),
        forall|i: int| 0 <= i < 78 && m[i] ==> g[i] == c,
        forall|i: int, j: int|
            0 <= i < 78 && 0 <= j < 78 && m[i] && m[j] ==> connected_idx(g, i, j),
        count_true(m, 78) >= 4,
    ensures
        forall|i: int| 0 <= i < 78 ==> (erasable_idx(g, i) <==> m[i]),
        forall|i: int, j: int| is_rep(g, i) && is_rep(g, j) ==> i == j,
        exists|i: int| is_rep(g, i),
{
    assert forall|i: int| 0 <= i < 78 && m[i] implies erasable_idx(g, i) by {
        lemma_blob_cell_erasable(g, c, m, i);
    }
    assert forall|i: int| 0 <= i < 78 && erasable_idx(g, i) implies m[i] by {
        lemma_idx_split(i);
        assert(is_normal(cell(g, xof(i), yof(i))));
    }
    assert forall|i: int, j: int| is_rep(g, i) && is_rep(g, j) implies i == j by {
        if i != j {
            assert(m[i] && m[j]);
            assert(connected_idx(g, i, j) && connected_idx(g, j, i));
        }
    }
    lemma_count_true_nonzero(m, 78);
    let w = choose|j: int| 0 <= j < 78 && j < m.len() && m[j];
    lemma_blob_rep_exists(g, c, m, w);
}

/// In a single-blob field, each blob cell is erasable.
proof fn lemma_blob_cell_erasable(g: Seq<PuyoColor>, c: PuyoColor, m: Seq<bool>, i: int)
    requires
        grid_wf(g),
        is_normal(c),
        m.len() == 78,
        0 <= i < 78,
        m[i],
        forall|i2: int| 0 <= i2 < 78 && m[i2] ==> g[i2] == c,
        forall|i2: int, j: int|
            0 <= i2 < 78 && 0 <= j < 78 && m[i2] && m[j] ==> connected_idx(g, i2, j),
        count_true(m, 78) >= 4,
    ensures
        erasable_idx(g, i),
{
    lemma_idx_split(i);
    let x = xof(i);
    let y = yof(i);
    assert forall|j: int| 0 <= j < 78 && j < m.len() && m[j] implies j < conn_mask(g, x, y).len()
        && conn_mask(g, x, y)[j] by {
        assert(connected_idx(g, i, j));
    }
    lemma_count_true_dominates(conn_mask(g, x, y), m, 78);
}

/// In a single-blob field, a canonical seed exists.
proof fn lemma_blob_rep_exists(g: Seq<PuyoColor>, c: PuyoColor, m: Seq<bool>, i: int)
    requires
        grid_wf(g),
        is_normal(c),
        m.len() == 78,
        0 <= i < 78,
        m[i],
        forall|i2: int| 0 <= i2 < 78 ==> (m[i2] <==> is_normal(g[i2])),
        forall|i2: int| 0 <= i2 < 78 && m[i2] ==> g[i2] == c,
        forall|i2: int, j: int|
            0 <= i2 < 78 && 0 <= j < 78 && m[i2] && m[j] ==> connected_idx(g, i2, j),
        count_true(m, 78) >= 4,
    ensures
        exists|k: int| is_rep(g, k),
    decreases i,
{
    lemma_blob_cell_erasable(g, c, m, i);
    if is_rep(g, i) {
    } else {
        let j = choose|j: int| 0 <= j < 78 && connected_idx(g, i, j) && j < i;
        lemma_idx_split(i);
        lemma_idx_split(j);
        assert(cell(g, xof(j), yof(j)) == g[i]) by {
            lemma_connected_target(g, g[i], xof(i), yof(i), xof(j), yof(j));
        }
        assert(m[j]);
        lemma_blob_rep_exists(g, c, m, j);
    }
}

/// A field holds at most 78 occupied cells.
pub proof fn lemma_occupied_le(g: Seq<PuyoColor>)
    ensures
        occupied(g) <= 78,
{
    lemma_occupied_upto_le(g, 6);
}

proof fn lemma_occupied_upto_le(g: Seq<PuyoColor>, x: int)
    requires
        0 <= x <= 6,
    ensures
        occupied_upto(g, x) <= 13 * x,
    decreases x,
{
    if x > 0 {
        lemma_occupied_upto_le(g, x - 1);
        lemma_kept_len_le(colseq(g, x - 1));
    }
}

/// An occupied cell makes the occupied count positive.
pub proof fn lemma_occupied_pos(g: Seq<PuyoColor>, x: int, y: int)
    requires
        grid_wf(g),
        in_bounds(x, y),
        cell(g, x, y) != PuyoColor::Empty,
    ensures
        occupied(g) >= 1,
{
    lemma_kept_has(colseq(g, x), y);
    lemma_occupied_upto_col(g, x, 6);
}

/// A column with an occupied cell keeps at least one cell.
proof fn lemma_kept_has(s: Seq<PuyoColor>, j: int)
    requires
        0 <= j < s.len(),
        s[j] != PuyoColor::Empty,
    ensures
        kept(s).len() >= 1,
    decreases s.len(),
{
    if j < s.len() - 1 {
        lemma_kept_has(s.drop_last(), j);
    }
}

/// The total occupied count dominates each column's count.
proof fn lemma_occupied_upto_col(g: Seq<PuyoColor>, x: int, b: int)
    requires
        0 <= x < b,
    ensures
        occupied_upto(g, b) >= col_occ(g, x),
    decreases b,
{
    if x < b - 1 {
        lemma_occupied_upto_col(g, x, b - 1);
    }
}

/// The total vanish count dominates each column's count.
proof fn lemma_vanish_count_col_le(g: Seq<PuyoColor>, x: int, b: int)
    requires
        0 <= x < b,
    ensures
        vanish_count_upto(g, b) >= vanish_count_col(g, x),
    decreases b,
{
    if x < b - 1 {
        lemma_vanish_count_col_le(g, x, b - 1);
    }
}

/// A round that erases something strictly lowers the occupied count.
pub proof fn lemma_vanish_progress(g: Seq<PuyoColor>)
    requires
        grid_wf(g),
        has_erasable(g),
    ensures
        occupied(settled(vanished(g))) < occupied(g),
{
    let (x, y) = choose|x: int, y: int| erasable_at(g, x, y);
    assert(vanish_col_mask(g, x)[y]);
    lemma_count_true_pos(vanish_col_mask(g, x), y, 13);
    lemma_vanish_count_col_le(g, x, 6);
    lemma_conservation(g);
}

/// With fuel for every occupied cell, the chain recursion reaches a field
/// with no erasable group.
pub proof fn lemma_sim_rec_complete(g: Seq<PuyoColor>, chain: nat, fuel: nat)
    requires
        grid_wf(g),
        occupied(g) <= fuel,
    ensures
        !has_erasable(sim_rec(g, chain, fuel).0),
        grid_wf(sim_rec(g, chain, fuel).0),
    decreases fuel,
{
    if !has_erasable(g) {
    } else {
        let (x, y) = choose|x: int, y: int| erasable_at(g, x, y);
        lemma_occupied_pos(g, x, y);
        lemma_vanish_progress(g);
        lemma_sim_rec_complete(settled(vanished(g)), chain + 1, (fuel - 1) as nat);
    }
}

/// Round count never exceeds the fuel.
pub proof fn lemma_sim_rec_rounds(g: Seq<PuyoColor>, chain: nat, fuel: nat)
    ensures
        sim_rec(g, chain, fuel).1 <= fuel,
    decreases fuel,
{
    if has_erasable(g) && fuel > 0 {
        lemma_sim_rec_rounds(settled(vanished(g)), chain + 1, (fuel - 1) as nat);
    }
}

/// Group bonuses sum to at most 10 per cell scanned.
pub proof fn lemma_group_bonus_upto_bound(g: Seq<PuyoColor>, i: int)
    requires
        i >= 0,
    ensures
        group_bonus_upto(g, i) <= 10 * i,
    decreases i,
{
    if i > 0 {
        lemma_group_bonus_upto_bound(g, i - 1);
    }
}

/// One round scores at most `780 * (1350 + 32 * chain)`.
pub proof fn lemma_round_score_bound(g: Seq<PuyoColor>, chain: nat)
    ensures
        round_score_spec(g, chain) <= 780 * (1350 + 32 * chain),
{
    lemma_count_true_le(erase_mask(g), 78);
    crate::score::lemma_chain_power_bound(chain);
    lemma_group_bonus_upto_bound(g, 78);
    let e = erased_count(g);
    let m = multiplier(g, chain);
    assert(m <= 1350 + 32 * chain);
    assert(e * 10 * m <= 780 * (1350 + 32 * chain)) by (nonlinear_arith)
        requires
            e <= 78,
            m <= 1350 + 32 * chain,
            chain >= 0,
    ;
}

/// The whole chain scores at most `fuel` maximal rounds.
pub proof fn lemma_sim_score_bound(g: Seq<PuyoColor>, chain: nat, fuel: nat)
    ensures
        sim_rec(g, chain, fuel).2 <= fuel * (780 * (1350 + 32 * (chain + fuel))),
    decreases fuel,
{
    if has_erasable(g) && fuel > 0 {
        let cap = 780 * (1350 + 32 * (chain + fuel));
        lemma_sim_score_bound(settled(vanished(g)), chain + 1, (fuel - 1) as nat);
        lemma_round_score_bound(g, chain);
        assert(round_score_spec(g, chain) <= cap);
        assert((fuel - 1) * cap + cap == fuel * cap) by (nonlinear_arith);
    }
}

} // verus!
