//! The mathematical model of a grid of grains: a row-major sequence of counts,
//! how one cell fires, and what a full sweep over the grid does.
use vstd::prelude::*;

verus! {

/// Number of grains at which a cell topples: one for each orthogonal neighbour.
pub const THRESHOLD: usize = 4;

/// Where cell `(x, y)` sits in a row-major grid of width `w`.
pub open spec fn idx(w: int, x: int, y: int) -> int {
    y * w + x
}

pub open spec fn in_grid(w: int, h: int, x: int, y: int) -> bool {
    0 <= x < w && 0 <= y < h
}

/// A cell off the outermost ring.
pub open spec fn interior(w: int, h: int, x: int, y: int) -> bool {
    1 <= x < w - 1 && 1 <= y < h - 1
}

/// The count of cell `(x, y)`.
pub open spec fn cell(g: Seq<usize>, w: int, x: int, y: int) -> int {
    g[idx(w, x, y)] as int
}

/// The coordinate before `i` on a ring of `n` positions.
pub open spec fn prev(i: int, n: int) -> int {
    if i == 0 {
        n - 1
    } else {
        i - 1
    }
}

/// The coordinate after `i` on a ring of `n` positions.
pub open spec fn next(i: int, n: int) -> int {
    if i == n - 1 {
        0
    } else {
        i + 1
    }
}

/// Sum of all counts.
pub open spec fn total(g: Seq<usize>) -> int
    decreases g.len(),
{
    if g.len() == 0 {
        0
    } else {
        total(g.drop_last()) + g.last()
    }
}

pub open spec fn add_to(g: Seq<usize>, i: int, m: int) -> Seq<usize> {
    g.update(i, (g[i] + m) as usize)
}

/// Cell `(x, y)` gives up `4 * m` grains and each of its four neighbours, taken with
/// wrap-around (left, up, right, down in that order), receives `m`.
/// For an interior cell the wrapped neighbours are the plain ones.
pub open spec fn fire(g: Seq<usize>, w: int, h: int, x: int, y: int, m: int) -> Seq<usize> {
    let i = idx(w, x, y);
    let g1 = g.update(i, (g[i] - 4 * m) as usize);
    let g2 = add_to(g1, idx(w, prev(x, w), y), m);
    let g3 = add_to(g2, idx(w, x, prev(y, h)), m);
    let g4 = add_to(g3, idx(w, next(x, w), y), m);
    add_to(g4, idx(w, x, next(y, h)), m)
}

/// A cell that holds `THRESHOLD` grains or more sends `count / 4` to each neighbour and
/// keeps `count % 4`.
pub open spec fn settle(g: Seq<usize>, w: int, h: int, x: int, y: int) -> Seq<usize> {
    if cell(g, w, x, y) >= 4 {
        fire(g, w, h, x, y, cell(g, w, x, y) / 4)
    } else {
        g
    }
}

/// The cells a sweep visits: only interior ones on a bounded grid, all on a torus.
pub open spec fn visited(w: int, h: int, x: int, y: int, torus: bool) -> bool {
    if torus {
        in_grid(w, h, x, y)
    } else {
        interior(w, h, x, y)
    }
}

pub open spec fn visit(g: Seq<usize>, w: int, h: int, x: int, y: int, torus: bool) -> Seq<usize> {
    if visited(w, h, x, y, torus) {
        settle(g, w, h, x, y)
    } else {
        g
    }
}

/// Whether visiting `(x, y)` topples it.
pub open spec fn visit_fires(g: Seq<usize>, w: int, h: int, x: int, y: int, torus: bool) -> bool {
    visited(w, h, x, y, torus) && cell(g, w, x, y) >= 4
}

/// The grid after the cells `(0, y) .. (x - 1, y)` of row `y` are visited in order.
/// Each visit reads the counts that the visits before it left.
pub open spec fn sweep_row(g: Seq<usize>, w: int, h: int, y: int, x: int, torus: bool) -> Seq<
    usize,
>
    decreases x,
{
    if x <= 0 {
        g
    } else {
        visit(sweep_row(g, w, h, y, x - 1, torus), w, h, x - 1, y, torus)
    }
}

/// The grid after rows `0 .. y` are swept, row after row.
pub open spec fn sweep_rows(g: Seq<usize>, w: int, h: int, y: int, torus: bool) -> Seq<usize>
    decreases y,
{
    if y <= 0 {
        g
    } else {
        sweep_row(sweep_rows(g, w, h, y - 1, torus), w, h, y - 1, w, torus)
    }
}

/// One full row-major sweep.
pub open spec fn sweep(g: Seq<usize>, w: int, h: int, torus: bool) -> Seq<usize> {
    sweep_rows(g, w, h, h, torus)
}

/// How many visits topple in the first `x` cells of row `y` (see `sweep_row`).
pub open spec fn row_fires(g: Seq<usize>, w: int, h: int, y: int, x: int, torus: bool) -> nat
    decreases x,
{
    if x <= 0 {
        0
    } else {
        row_fires(g, w, h, y, x - 1, torus) + if visit_fires(
            sweep_row(g, w, h, y, x - 1, torus),
            w,
            h,
            x - 1,
            y,
            torus,
        ) {
            1nat
        } else {
            0nat
        }
    }
}

/// How many visits topple in rows `0 .. y`.
pub open spec fn rows_fires(g: Seq<usize>, w: int, h: int, y: int, torus: bool) -> nat
    decreases y,
{
    if y <= 0 {
        0
    } else {
        rows_fires(g, w, h, y - 1, torus) + row_fires(
            sweep_rows(g, w, h, y - 1, torus),
            w,
            h,
            y - 1,
            w,
            torus,
        )
    }
}

/// How many visits of one full sweep topple.
pub open spec fn sweep_fires(g: Seq<usize>, w: int, h: int, torus: bool) -> nat {
    rows_fires(g, w, h, h, torus)
}

/// How many of the four entries are true.
pub open spec fn hit_count(hit: Seq<bool>) -> int {
    (if hit[0] { 1int } else { 0int }) + (if hit[1] { 1int } else { 0int }) + (if hit[2] { 1int } else { 0int }) + (if hit[3] {
        1int
    } else {
        0int
    })
}

/// Cell `(x, y)` sends one grain to each neighbour (left, up, right, down) whose entry of
/// `hit` is true, and loses as many.
pub open spec fn scatter(g: Seq<usize>, w: int, h: int, x: int, y: int, hit: Seq<bool>) -> Seq<usize> {
    let i = idx(w, x, y);
    let n = hit_count(hit);
    let g1 = g.update(i, (g[i] - n) as usize);
    let g2 = if hit[0] { add_to(g1, idx(w, prev(x, w), y), 1) } else { g1 };
    let g3 = if hit[1] { add_to(g2, idx(w, x, prev(y, h)), 1) } else { g2 };
    let g4 = if hit[2] { add_to(g3, idx(w, next(x, w), y), 1) } else { g3 };
    if hit[3] { add_to(g4, idx(w, x, next(y, h)), 1) } else { g4 }
}

/// The number of the visit of `(x, y)` within a sweep, counting in row-major order from zero.
pub open spec fn visit_index(w: int, h: int, x: int, y: int, torus: bool) -> int {
    if torus {
        y * w + x
    } else {
        (y - 1) * (w - 2) + (x - 1)
    }
}

/// A random visit: a visited cell holding four grains or more scatters by the hit pattern of
/// its visit number.
pub open spec fn random_visit(g: Seq<usize>, w: int, h: int, x: int, y: int, torus: bool, hits: Seq<Seq<bool>>) -> Seq<usize> {
    if visited(w, h, x, y, torus) && cell(g, w, x, y) >= 4 {
        scatter(g, w, h, x, y, hits[visit_index(w, h, x, y, torus)])
    } else {
        g
    }
}

/// The grid after the cells `(0, y) .. (x - 1, y)` of row `y` are visited at random in order.
pub open spec fn random_row(g: Seq<usize>, w: int, h: int, y: int, x: int, torus: bool, hits: Seq<Seq<bool>>) -> Seq<usize>
    decreases x,
{
    if x <= 0 {
        g
    } else {
        random_visit(random_row(g, w, h, y, x - 1, torus, hits), w, h, x - 1, y, torus, hits)
    }
}

pub open spec fn random_rows(g: Seq<usize>, w: int, h: int, y: int, torus: bool, hits: Seq<Seq<bool>>) -> Seq<usize>
    decreases y,
{
    if y <= 0 {
        g
    } else {
        random_row(random_rows(g, w, h, y - 1, torus, hits), w, h, y - 1, w, torus, hits)
    }
}

/// One random row-major sweep, the `k`-th visit using `hits[k]` (left, up, right, down).
pub open spec fn random_sweep(g: Seq<usize>, w: int, h: int, torus: bool, hits: Seq<Seq<bool>>) -> Seq<usize> {
    random_rows(g, w, h, h, torus, hits)
}

pub proof fn lemma_random_row_skip(g: Seq<usize>, w: int, h: int, y: int, a: int, b: int, torus: bool, hits: Seq<Seq<bool>>)
    requires
        0 <= a <= b,
        forall|x: int| a <= x < b ==> !#[trigger] visited(w, h, x, y, torus),
    ensures
        random_row(g, w, h, y, b, torus, hits) == random_row(g, w, h, y, a, torus, hits),
    decreases b - a,
{
    if b > a {
        lemma_random_row_skip(g, w, h, y, a, b - 1, torus, hits);
        assert(!visited(w, h, b - 1, y, torus));
    }
}

pub proof fn lemma_random_rows_skip(g: Seq<usize>, w: int, h: int, a: int, b: int, torus: bool, hits: Seq<Seq<bool>>)
    requires
        0 <= a <= b,
        w >= 0,
        forall|x: int, y: int| a <= y < b ==> !#[trigger] visited(w, h, x, y, torus),
    ensures
        random_rows(g, w, h, b, torus, hits) == random_rows(g, w, h, a, torus, hits),
    decreases b - a,
{
    if b > a {
        lemma_random_rows_skip(g, w, h, a, b - 1, torus, hits);
        let gg = random_rows(g, w, h, b - 1, torus, hits);
        assert forall|x: int| 0 <= x < w implies !#[trigger] visited(w, h, x, b - 1, torus) by {}
        lemma_random_row_skip(gg, w, h, b - 1, 0, w, torus, hits);
    }
}

/// No cell that the given topology lets topple holds `THRESHOLD` grains or more.
pub open spec fn stable(g: Seq<usize>, w: int, h: int, torus: bool) -> bool {
    forall|x: int, y: int| visited(w, h, x, y, torus) ==> #[trigger] cell(g, w, x, y) < 4
}

/// How many of the four (wrapped) neighbours of `(x, y)` are `(u, v)`.
pub open spec fn hits(w: int, h: int, x: int, y: int, u: int, v: int) -> int {
    (if prev(x, w) == u && y == v { 1int } else { 0int }) + (if x == u && prev(y, h) == v { 1int } else { 0int })
        + (if next(x, w) == u && y == v { 1int } else { 0int }) + (if x == u && next(y, h) == v { 1int } else { 0int })
}

// ---------------------------------------------------------------------------------------
// Lemmas
// ---------------------------------------------------------------------------------------

pub proof fn lemma_idx(w: int, h: int, x: int, y: int)
    requires
        in_grid(w, h, x, y),
    ensures
        0 <= idx(w, x, y) < w * h,
{
    assert(0 <= y * w + x < w * h) by (nonlinear_arith)
        requires
            0 <= x < w,
            0 <= y < h,
    ;
}

pub proof fn lemma_idx_inj(w: int, h: int, x1: int, y1: int, x2: int, y2: int)
    requires
        in_grid(w, h, x1, y1),
        in_grid(w, h, x2, y2),
    ensures
        (idx(w, x1, y1) == idx(w, x2, y2)) <==> (x1 == x2 && y1 == y2),
{
    if idx(w, x1, y1) == idx(w, x2, y2) {
        if y1 < y2 {
            assert(y1 * w + x1 < y2 * w + x2) by (nonlinear_arith)
                requires
                    0 <= x1 < w,
                    0 <= x2,
                    y1 < y2,
            ;
        } else if y2 < y1 {
            assert(y2 * w + x2 < y1 * w + x1) by (nonlinear_arith)
                requires
                    0 <= x2 < w,
                    0 <= x1,
                    y2 < y1,
            ;
        }
    }
}

/// Every position of the sequence is some cell.
pub proof fn lemma_idx_onto(w: int, h: int, i: int)
    requires
        w >= 1,
        0 <= i < w * h,
    ensures
        in_grid(w, h, i % w, i / w),
        idx(w, i % w, i / w) == i,
{
    vstd::arithmetic::div_mod::lemma_fundamental_div_mod(i, w);
    vstd::arithmetic::div_mod::lemma_div_pos_is_pos(i, w);
    vstd::arithmetic::div_mod::lemma_mod_bound(i, w);
    let q = i / w;
    let r = i % w;
    assert(q < h) by (nonlinear_arith)
        requires
            i == w * q + r,
            0 <= r,
            i < w * h,
            w >= 1,
    ;
    assert((i / w) * w == w * (i / w)) by (nonlinear_arith);
}

/// Two grids of `w * h` cells that agree on every cell are equal.
pub proof fn lemma_grid_ext(g1: Seq<usize>, g2: Seq<usize>, w: int, h: int)
    requires
        w >= 1,
        g1.len() == w * h,
        g2.len() == w * h,
        forall|x: int, y: int| in_grid(w, h, x, y) ==> #[trigger] cell(g1, w, x, y) == cell(g2, w, x, y),
    ensures
        g1 == g2,
{
    assert forall|i: int| 0 <= i < g1.len() implies g1[i] == g2[i] by {
        lemma_idx_onto(w, h, i);
        assert(cell(g1, w, i % w, i / w) == cell(g2, w, i % w, i / w));
    }
    assert(g1 =~= g2);
}

pub proof fn lemma_total_update(g: Seq<usize>, i: int, v: usize)
    requires
        0 <= i < g.len(),
    ensures
        total(g.update(i, v)) == total(g) - g[i] + v,
    decreases g.len(),
{
    let g2 = g.update(i, v);
    if i == g.len() - 1 {
        assert(g2.drop_last() =~= g.drop_last());
    } else {
        assert(g2.drop_last() =~= g.drop_last().update(i, v));
        lemma_total_update(g.drop_last(), i, v);
    }
}

pub proof fn lemma_total_ge(g: Seq<usize>, i: int)
    requires
        0 <= i < g.len(),
    ensures
        g[i] <= total(g),
        total(g) >= 0,
    decreases g.len(),
{
    lemma_total_nonneg(g.drop_last());
    if i < g.len() - 1 {
        lemma_total_ge(g.drop_last(), i);
    }
}

pub proof fn lemma_total_nonneg(g: Seq<usize>)
    ensures
        total(g) >= 0,
    decreases g.len(),
{
    if g.len() > 0 {
        lemma_total_nonneg(g.drop_last());
    }
}

pub proof fn lemma_total_zeros(n: nat)
    ensures
        total(Seq::new(n, |i: int| 0usize)) == 0,
    decreases n,
{
    if n > 0 {
        assert(Seq::new(n, |i: int| 0usize).drop_last() =~= Seq::new((n - 1) as nat, |i: int| 0usize));
        lemma_total_zeros((n - 1) as nat);
    }
}

/// How many cells one sweep visits.
pub open spec fn sweep_visits(w: int, h: int, torus: bool) -> int {
    if torus {
        w * h
    } else if w >= 3 && h >= 3 {
        (w - 2) * (h - 2)
    } else {
        0
    }
}

/// Cells of row `y` from `a` to `b` that a sweep skips change nothing.
pub proof fn lemma_row_skip(g: Seq<usize>, w: int, h: int, y: int, a: int, b: int, torus: bool)
    requires
        0 <= a <= b,
        forall|x: int| a <= x < b ==> !#[trigger] visited(w, h, x, y, torus),
    ensures
        sweep_row(g, w, h, y, b, torus) == sweep_row(g, w, h, y, a, torus),
        row_fires(g, w, h, y, b, torus) == row_fires(g, w, h, y, a, torus),
    decreases b - a,
{
    if b > a {
        lemma_row_skip(g, w, h, y, a, b - 1, torus);
        assert(!visited(w, h, b - 1, y, torus));
    }
}

/// Rows from `a` to `b` in which a sweep visits nothing change nothing.
pub proof fn lemma_rows_skip(g: Seq<usize>, w: int, h: int, a: int, b: int, torus: bool)
    requires
        0 <= a <= b,
        w >= 0,
        forall|x: int, y: int| a <= y < b ==> !#[trigger] visited(w, h, x, y, torus),
    ensures
        sweep_rows(g, w, h, b, torus) == sweep_rows(g, w, h, a, torus),
        rows_fires(g, w, h, b, torus) == rows_fires(g, w, h, a, torus),
    decreases b - a,
{
    if b > a {
        lemma_rows_skip(g, w, h, a, b - 1, torus);
        let gg = sweep_rows(g, w, h, b - 1, torus);
        assert forall|x: int| 0 <= x < w implies !#[trigger] visited(w, h, x, b - 1, torus) by {}
        lemma_row_skip(gg, w, h, b - 1, 0, w, torus);
    }
}

/// A grid stable as a torus is stable on its interior.
pub proof fn lemma_stable_wraps(g: Seq<usize>, w: int, h: int, torus: bool)
    requires
        stable(g, w, h, true),
    ensures
        stable(g, w, h, torus),
{
    assert forall|x: int, y: int| visited(w, h, x, y, torus) implies #[trigger] cell(g, w, x, y) < 4 by {
        assert(visited(w, h, x, y, true));
    }
}

pub proof fn lemma_neighbours_in_grid(w: int, h: int, x: int, y: int)
    requires
        in_grid(w, h, x, y),
    ensures
        in_grid(w, h, prev(x, w), y),
        in_grid(w, h, next(x, w), y),
        in_grid(w, h, x, prev(y, h)),
        in_grid(w, h, x, next(y, h)),
{
}

/// What one firing does to every cell, and that it keeps the total.
pub proof fn lemma_fire(g: Seq<usize>, w: int, h: int, x: int, y: int, m: int)
    requires
        w >= 1,
        h >= 1,
        g.len() == w * h,
        in_grid(w, h, x, y),
        0 <= m,
        4 * m <= cell(g, w, x, y),
        total(g) <= usize::MAX,
    ensures
        fire(g, w, h, x, y, m).len() == g.len(),
        total(fire(g, w, h, x, y, m)) == total(g),
        forall|u: int, v: int| #[trigger] in_grid(w, h, u, v) ==> cell(fire(g, w, h, x, y, m), w, u, v) == cell(g, w, u, v)
            - (if u == x && v == y { 4 * m } else { 0 }) + m * hits(w, h, x, y, u, v),
{
    lemma_neighbours_in_grid(w, h, x, y);
    let i = idx(w, x, y);
    let il = idx(w, prev(x, w), y);
    let iu = idx(w, x, prev(y, h));
    let ir = idx(w, next(x, w), y);
    let id = idx(w, x, next(y, h));
    lemma_idx(w, h, x, y);
    lemma_idx(w, h, prev(x, w), y);
    lemma_idx(w, h, x, prev(y, h));
    lemma_idx(w, h, next(x, w), y);
    lemma_idx(w, h, x, next(y, h));
    let g1 = g.update(i, (g[i] - 4 * m) as usize);
    lemma_total_update(g, i, (g[i] - 4 * m) as usize);
    lemma_total_ge(g1, il);
    let g2 = add_to(g1, il, m);
    lemma_total_update(g1, il, (g1[il] + m) as usize);
    lemma_total_ge(g2, iu);
    let g3 = add_to(g2, iu, m);
    lemma_total_update(g2, iu, (g2[iu] + m) as usize);
    lemma_total_ge(g3, ir);
    let g4 = add_to(g3, ir, m);
    lemma_total_update(g3, ir, (g3[ir] + m) as usize);
    lemma_total_ge(g4, id);
    let g5 = add_to(g4, id, m);
    lemma_total_update(g4, id, (g4[id] + m) as usize);
    assert(g5 == fire(g, w, h, x, y, m));
    assert forall|u: int, v: int| #[trigger] in_grid(w, h, u, v) implies cell(g5, w, u, v) == cell(g, w, u, v)
        - (if u == x && v == y { 4 * m } else { 0 }) + m * hits(w, h, x, y, u, v) by {
        lemma_idx(w, h, u, v);
        lemma_idx_inj(w, h, u, v, x, y);
        lemma_idx_inj(w, h, u, v, prev(x, w), y);
        lemma_idx_inj(w, h, u, v, x, prev(y, h));
        lemma_idx_inj(w, h, u, v, next(x, w), y);
        lemma_idx_inj(w, h, u, v, x, next(y, h));
        assert(m * hits(w, h, x, y, u, v) == (if prev(x, w) == u && y == v { m } else { 0 }) + (if x == u && prev(y, h) == v { m } else { 0 })
            + (if next(x, w) == u && y == v { m } else { 0 }) + (if x == u && next(y, h) == v { m } else { 0 })) by (nonlinear_arith);
    }
}

} // verus!
