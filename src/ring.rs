//! What a bounded sweep does to the outer ring: its cells never topple, so they only gain
//! grains, and the corners, which neighbour no interior cell, never change.
use crate::model::{
    add_to, cell, fire, hit_count, idx, in_grid, interior, lemma_fire, lemma_idx, lemma_idx_inj, lemma_total_ge,
    lemma_total_update, next, prev, random_row, random_rows, random_sweep, random_visit, scatter, sweep, sweep_row,
    sweep_rows, total, visit, visited, hits,
};
use crate::relax::{inject, legal, relaxes, results_from, Boundary};
use vstd::prelude::*;

verus! {

pub open spec fn corner(w: int, h: int, x: int, y: int) -> bool {
    (x == 0 || x == w - 1) && (y == 0 || y == h - 1)
}

/// Every outer-ring cell of `g1` holds at least what it held in `g0`, and every corner the
/// same.
pub open spec fn ring_gains(g0: Seq<usize>, g1: Seq<usize>, w: int, h: int) -> bool {
    forall|x: int, y: int| #[trigger] in_grid(w, h, x, y) && !interior(w, h, x, y) ==> cell(g1, w, x, y) >= cell(g0, w, x, y) && (
    corner(w, h, x, y) ==> cell(g1, w, x, y) == cell(g0, w, x, y))
}

/// The grains on interior cells, the first `n` positions of a row-major grid of width `w`.
pub open spec fn interior_sum(g: Seq<usize>, w: int, h: int, n: int) -> int
    decreases n,
{
    if n <= 0 {
        0
    } else {
        interior_sum(g, w, h, n - 1) + if interior(w, h, (n - 1) % w, (n - 1) / w) {
            g[n - 1] as int
        } else {
            0
        }
    }
}

/// The grains on the interior cells of a grid.
pub open spec fn interior_total(g: Seq<usize>, w: int, h: int) -> int {
    interior_sum(g, w, h, g.len() as int)
}

/// The grains on the outer ring, the first `n` positions.
pub open spec fn ring_sum(g: Seq<usize>, w: int, h: int, n: int) -> int
    decreases n,
{
    if n <= 0 {
        0
    } else {
        ring_sum(g, w, h, n - 1) + if interior(w, h, (n - 1) % w, (n - 1) / w) {
            0
        } else {
            g[n - 1] as int
        }
    }
}

proof fn lemma_split(g: Seq<usize>, w: int, h: int, n: int)
    requires
        0 <= n <= g.len(),
    ensures
        interior_sum(g, w, h, n) + ring_sum(g, w, h, n) == total(g.take(n)),
    decreases n,
{
    if n > 0 {
        lemma_split(g, w, h, n - 1);
        assert(g.take(n).drop_last() =~= g.take(n - 1));
    }
}

proof fn lemma_ring_sum_grows(g0: Seq<usize>, g1: Seq<usize>, w: int, h: int, n: int)
    requires
        w >= 1,
        g0.len() == w * h,
        g1.len() == w * h,
        0 <= n <= w * h,
        ring_gains(g0, g1, w, h),
    ensures
        ring_sum(g1, w, h, n) >= ring_sum(g0, w, h, n),
    decreases n,
{
    if n > 0 {
        lemma_ring_sum_grows(g0, g1, w, h, n - 1);
        crate::model::lemma_idx_onto(w, h, n - 1);
        let (x, y) = ((n - 1) % w, (n - 1) / w);
        if !interior(w, h, x, y) {
            assert(in_grid(w, h, x, y));
            assert(cell(g1, w, x, y) >= cell(g0, w, x, y));
        }
    }
}

/// With the total kept or lowered and the ring only gaining, the interior does not gain.
pub proof fn lemma_interior_total_falls(g0: Seq<usize>, g1: Seq<usize>, w: int, h: int, extra: int)
    requires
        w >= 1,
        g0.len() == w * h,
        g1.len() == w * h,
        ring_gains(g0, g1, w, h),
        total(g1) <= total(g0) + extra,
    ensures
        interior_total(g1, w, h) <= interior_total(g0, w, h) + extra,
{
    lemma_split(g0, w, h, g0.len() as int);
    lemma_split(g1, w, h, g1.len() as int);
    assert(g0.take(g0.len() as int) =~= g0);
    assert(g1.take(g1.len() as int) =~= g1);
    lemma_ring_sum_grows(g0, g1, w, h, w * h);
}

proof fn lemma_ring_trans(g0: Seq<usize>, g1: Seq<usize>, g2: Seq<usize>, w: int, h: int)
    requires
        ring_gains(g0, g1, w, h),
        ring_gains(g1, g2, w, h),
    ensures
        ring_gains(g0, g2, w, h),
{
}

proof fn lemma_fire_ring(g: Seq<usize>, w: int, h: int, x: int, y: int, m: int)
    requires
        w >= 1,
        h >= 1,
        g.len() == w * h,
        interior(w, h, x, y),
        0 <= m,
        4 * m <= cell(g, w, x, y),
        total(g) <= usize::MAX,
    ensures
        ring_gains(g, fire(g, w, h, x, y, m), w, h),
{
    lemma_fire(g, w, h, x, y, m);
    assert forall|u: int, v: int| #[trigger] in_grid(w, h, u, v) && !interior(w, h, u, v) implies cell(fire(g, w, h, x, y, m), w, u, v)
        >= cell(g, w, u, v) && (corner(w, h, u, v) ==> cell(fire(g, w, h, x, y, m), w, u, v) == cell(g, w, u, v)) by {
        let k = hits(w, h, x, y, u, v);
        assert(k >= 0);
        assert(m * k >= 0) by (nonlinear_arith)
            requires
                m >= 0,
                k >= 0,
        ;
        assert(!(u == x && v == y));
        assert(cell(fire(g, w, h, x, y, m), w, u, v) == cell(g, w, u, v) + m * k);
        if corner(w, h, u, v) {
            assert(k == 0);
            assert(m * k == 0) by (nonlinear_arith)
                requires
                    k == 0,
            ;
        }
    }
}

/// What one scatter does to every cell but the scattering one, and that it keeps the total.
proof fn lemma_scatter(g: Seq<usize>, w: int, h: int, x: int, y: int, hit: Seq<bool>)
    requires
        w >= 1,
        h >= 1,
        g.len() == w * h,
        interior(w, h, x, y),
        hit_count(hit) <= cell(g, w, x, y),
        total(g) <= usize::MAX,
    ensures
        scatter(g, w, h, x, y, hit).len() == g.len(),
        total(scatter(g, w, h, x, y, hit)) == total(g),
        forall|u: int, v: int| #[trigger] in_grid(w, h, u, v) && !(u == x && v == y) ==> cell(scatter(g, w, h, x, y, hit), w, u, v)
            == cell(g, w, u, v) + (if hit[0] && u == x - 1 && v == y { 1int } else { 0 }) + (if hit[1] && u == x && v == y - 1 {
            1int
        } else {
            0
        }) + (if hit[2] && u == x + 1 && v == y { 1int } else { 0 }) + (if hit[3] && u == x && v == y + 1 { 1int } else { 0 }),
{
    let n = hit_count(hit);
    let i = idx(w, x, y);
    lemma_idx(w, h, x, y);
    let il = idx(w, x - 1, y);
    let iu = idx(w, x, y - 1);
    let ir = idx(w, x + 1, y);
    let id = idx(w, x, y + 1);
    lemma_idx(w, h, x - 1, y);
    lemma_idx(w, h, x, y - 1);
    lemma_idx(w, h, x + 1, y);
    lemma_idx(w, h, x, y + 1);
    assert(prev(x, w) == x - 1 && next(x, w) == x + 1 && prev(y, h) == y - 1 && next(y, h) == y + 1);
    let g1 = g.update(i, (g[i] - n) as usize);
    lemma_total_update(g, i, (g[i] - n) as usize);
    let g2 = if hit[0] { add_to(g1, il, 1) } else { g1 };
    lemma_total_ge(g1, il);
    if hit[0] {
        lemma_total_update(g1, il, (g1[il] + 1) as usize);
    }
    let g3 = if hit[1] { add_to(g2, iu, 1) } else { g2 };
    lemma_total_ge(g2, iu);
    if hit[1] {
        lemma_total_update(g2, iu, (g2[iu] + 1) as usize);
    }
    let g4 = if hit[2] { add_to(g3, ir, 1) } else { g3 };
    lemma_total_ge(g3, ir);
    if hit[2] {
        lemma_total_update(g3, ir, (g3[ir] + 1) as usize);
    }
    let g5 = if hit[3] { add_to(g4, id, 1) } else { g4 };
    lemma_total_ge(g4, id);
    if hit[3] {
        lemma_total_update(g4, id, (g4[id] + 1) as usize);
    }
    assert(g5 == scatter(g, w, h, x, y, hit));
    assert forall|u: int, v: int| #[trigger] in_grid(w, h, u, v) && !(u == x && v == y) implies cell(g5, w, u, v) == cell(g, w, u, v)
        + (if hit[0] && u == x - 1 && v == y { 1int } else { 0 }) + (if hit[1] && u == x && v == y - 1 { 1int } else { 0 }) + (
    if hit[2] && u == x + 1 && v == y { 1int } else { 0 }) + (if hit[3] && u == x && v == y + 1 { 1int } else { 0 }) by {
        lemma_idx(w, h, u, v);
        lemma_idx_inj(w, h, u, v, x, y);
        lemma_idx_inj(w, h, u, v, x - 1, y);
        lemma_idx_inj(w, h, u, v, x, y - 1);
        lemma_idx_inj(w, h, u, v, x + 1, y);
        lemma_idx_inj(w, h, u, v, x, y + 1);
    }
}

proof fn lemma_row_ring(g: Seq<usize>, w: int, h: int, y: int, x: int)
    requires
        w >= 1,
        h >= 1,
        g.len() == w * h,
        total(g) <= usize::MAX,
    ensures
        sweep_row(g, w, h, y, x, false).len() == g.len(),
        total(sweep_row(g, w, h, y, x, false)) == total(g),
        ring_gains(g, sweep_row(g, w, h, y, x, false), w, h),
    decreases x,
{
    if x > 0 {
        lemma_row_ring(g, w, h, y, x - 1);
        let gg = sweep_row(g, w, h, y, x - 1, false);
        if visited(w, h, x - 1, y, false) && cell(gg, w, x - 1, y) >= 4 {
            let m = cell(gg, w, x - 1, y) / 4;
            lemma_fire(gg, w, h, x - 1, y, m);
            lemma_fire_ring(gg, w, h, x - 1, y, m);
            lemma_ring_trans(g, gg, visit(gg, w, h, x - 1, y, false), w, h);
        }
    } else {
        assert(ring_gains(g, g, w, h));
    }
}

proof fn lemma_rows_ring(g: Seq<usize>, w: int, h: int, y: int)
    requires
        w >= 1,
        h >= 1,
        g.len() == w * h,
        total(g) <= usize::MAX,
    ensures
        sweep_rows(g, w, h, y, false).len() == g.len(),
        total(sweep_rows(g, w, h, y, false)) == total(g),
        ring_gains(g, sweep_rows(g, w, h, y, false), w, h),
    decreases y,
{
    if y > 0 {
        lemma_rows_ring(g, w, h, y - 1);
        let gg = sweep_rows(g, w, h, y - 1, false);
        lemma_row_ring(gg, w, h, y - 1, w);
        lemma_ring_trans(g, gg, sweep_row(gg, w, h, y - 1, w, false), w, h);
    } else {
        assert(ring_gains(g, g, w, h));
    }
}

proof fn lemma_random_row_ring(g: Seq<usize>, w: int, h: int, y: int, x: int, hits: Seq<Seq<bool>>)
    requires
        w >= 1,
        h >= 1,
        g.len() == w * h,
        total(g) <= usize::MAX,
    ensures
        random_row(g, w, h, y, x, false, hits).len() == g.len(),
        total(random_row(g, w, h, y, x, false, hits)) == total(g),
        ring_gains(g, random_row(g, w, h, y, x, false, hits), w, h),
    decreases x,
{
    if x > 0 {
        lemma_random_row_ring(g, w, h, y, x - 1, hits);
        let gg = random_row(g, w, h, y, x - 1, false, hits);
        if visited(w, h, x - 1, y, false) && cell(gg, w, x - 1, y) >= 4 {
            let hit = hits[crate::model::visit_index(w, h, x - 1, y, false)];
            let sg = scatter(gg, w, h, x - 1, y, hit);
            lemma_scatter(gg, w, h, x - 1, y, hit);
            assert(ring_gains(gg, sg, w, h));
            lemma_ring_trans(g, gg, sg, w, h);
        }
    } else {
        assert(ring_gains(g, g, w, h));
    }
}

proof fn lemma_random_rows_ring(g: Seq<usize>, w: int, h: int, y: int, hits: Seq<Seq<bool>>)
    requires
        w >= 1,
        h >= 1,
        g.len() == w * h,
        total(g) <= usize::MAX,
    ensures
        random_rows(g, w, h, y, false, hits).len() == g.len(),
        total(random_rows(g, w, h, y, false, hits)) == total(g),
        ring_gains(g, random_rows(g, w, h, y, false, hits), w, h),
    decreases y,
{
    if y > 0 {
        lemma_random_rows_ring(g, w, h, y - 1, hits);
        let gg = random_rows(g, w, h, y - 1, false, hits);
        lemma_random_row_ring(gg, w, h, y - 1, w, hits);
        lemma_ring_trans(g, gg, random_row(gg, w, h, y - 1, w, false, hits), w, h);
    } else {
        assert(ring_gains(g, g, w, h));
    }
}

/// A recursive relaxation with an absorbing ring, grains added to one cell first, leaves
/// the ring as it was.
pub proof fn lemma_absorbing_keeps_ring(g0: Seq<usize>, g1: Seq<usize>, w: int, h: int, x: int, y: int, value: int)
    requires
        g0.len() == w * h,
        in_grid(w, h, x, y),
        relaxes(inject(g0, w, h, x, y, value, Boundary::Absorbing), g1, w, h, Boundary::Absorbing),
    ensures
        ring_gains(g0, g1, w, h),
{
    let gs = inject(g0, w, h, x, y, value, Boundary::Absorbing);
    let s = choose|s: Seq<(int, int, int)>| legal(gs, w, h, Boundary::Absorbing, s) && results_from(gs, g1, w, h, Boundary::Absorbing, s);
    lemma_idx(w, h, x, y);
    assert forall|u: int, v: int| #[trigger] in_grid(w, h, u, v) && !interior(w, h, u, v) implies cell(g1, w, u, v) >= cell(g0, w, u, v) && (
    corner(w, h, u, v) ==> cell(g1, w, u, v) == cell(g0, w, u, v)) by {
        lemma_idx(w, h, u, v);
        lemma_idx_inj(w, h, u, v, x, y);
        assert(cell(g1, w, u, v) == cell(gs, w, u, v));
    }
}

/// A bounded sweep, deterministic or random, only adds grains to the outer ring and leaves
/// its corners as they were.
pub proof fn lemma_bounded_sweeps_feed_ring(g: Seq<usize>, w: int, h: int, hits: Seq<Seq<bool>>)
    requires
        w >= 1,
        h >= 1,
        g.len() == w * h,
        total(g) <= usize::MAX,
    ensures
        ring_gains(g, sweep(g, w, h, false), w, h),
        ring_gains(g, random_sweep(g, w, h, false, hits), w, h),
{
    lemma_rows_ring(g, w, h, h);
    lemma_random_rows_ring(g, w, h, h, hits);
}

} // verus!
