//! Repeated deterministic sweeps of a bounded grid reach a stable grid: every firing of an
//! interior cell moves grains towards the outer ring, which lowers their total depth.
use crate::model::{add_to, cell, fire, idx, in_grid, interior, lemma_fire, lemma_idx, lemma_total_ge, lemma_total_update, next, prev, row_fires, rows_fires, stable, sweep, sweep_fires, sweep_row, sweep_rows, total, visited};
use crate::relax::{depth, lemma_depth_drop, lemma_depth_idx, lemma_stable_is_fixed, lemma_sweep_relaxes, lemma_weight_nonneg, lemma_weight_update, sweep_boundary, weight};
use vstd::prelude::*;

verus! {

/// `n` deterministic sweeps of a bounded grid, one after the other.
pub open spec fn sweeps(g: Seq<usize>, w: int, h: int, n: nat) -> Seq<usize>
    decreases n,
{
    if n == 0 {
        g
    } else {
        sweeps(sweep(g, w, h, false), w, h, (n - 1) as nat)
    }
}

proof fn lemma_add_weight(g: Seq<usize>, w: int, h: int, x: int, y: int, m: int)
    requires
        g.len() == w * h,
        in_grid(w, h, x, y),
        m >= 0,
        g[idx(w, x, y)] + m <= usize::MAX,
    ensures
        weight(add_to(g, idx(w, x, y), m), w, h) == weight(g, w, h) + depth(w, h, x, y) * m,
{
    let i = idx(w, x, y);
    lemma_idx(w, h, x, y);
    lemma_depth_idx(w, h, x, y);
    lemma_weight_update(g, w, h, i, (g[i] + m) as usize);
    let d = depth(w, h, x, y);
    assert(d * ((g[i] + m) as int) == d * g[i] + d * m) by (nonlinear_arith);
}

/// Firing an interior cell `m` times lowers the weight by at least `4 * m`.
proof fn lemma_fire_lowers_weight(g: Seq<usize>, w: int, h: int, x: int, y: int, m: int)
    requires
        w >= 1,
        h >= 1,
        g.len() == w * h,
        interior(w, h, x, y),
        0 <= m,
        4 * m <= cell(g, w, x, y),
        total(g) <= usize::MAX,
    ensures
        weight(fire(g, w, h, x, y, m), w, h) + 4 * m <= weight(g, w, h),
{
    let i = idx(w, x, y);
    lemma_idx(w, h, x, y);
    lemma_depth_idx(w, h, x, y);
    let g1 = g.update(i, (g[i] - 4 * m) as usize);
    lemma_weight_update(g, w, h, i, (g[i] - 4 * m) as usize);
    lemma_total_update(g, i, (g[i] - 4 * m) as usize);
    let d = depth(w, h, x, y);
    assert(d * ((g[i] - 4 * m) as int) == d * g[i] - d * (4 * m)) by (nonlinear_arith);
    let il = idx(w, prev(x, w), y);
    lemma_idx(w, h, prev(x, w), y);
    lemma_total_ge(g1, il);
    lemma_add_weight(g1, w, h, prev(x, w), y, m);
    let g2 = add_to(g1, il, m);
    lemma_total_update(g1, il, (g1[il] + m) as usize);
    let iu = idx(w, x, prev(y, h));
    lemma_idx(w, h, x, prev(y, h));
    lemma_total_ge(g2, iu);
    lemma_add_weight(g2, w, h, x, prev(y, h), m);
    let g3 = add_to(g2, iu, m);
    lemma_total_update(g2, iu, (g2[iu] + m) as usize);
    let ir = idx(w, next(x, w), y);
    lemma_idx(w, h, next(x, w), y);
    lemma_total_ge(g3, ir);
    lemma_add_weight(g3, w, h, next(x, w), y, m);
    let g4 = add_to(g3, ir, m);
    lemma_total_update(g3, ir, (g3[ir] + m) as usize);
    lemma_idx(w, h, x, next(y, h));
    lemma_total_ge(g4, idx(w, x, next(y, h)));
    lemma_add_weight(g4, w, h, x, next(y, h), m);
    lemma_depth_drop(w, h, x, y);
    let dl = depth(w, h, x - 1, y);
    let du = depth(w, h, x, y - 1);
    let dr = depth(w, h, x + 1, y);
    let dd = depth(w, h, x, y + 1);
    assert(dl * m + du * m + dr * m + dd * m <= 4 * d * m - 4 * m) by (nonlinear_arith)
        requires
            dl + du + dr + dd <= 4 * d - 4,
            m >= 0,
    ;
    assert(d * (4 * m) == 4 * d * m) by (nonlinear_arith);
}

proof fn lemma_row_weight(g: Seq<usize>, w: int, h: int, y: int, x: int)
    requires
        w >= 1,
        h >= 1,
        g.len() == w * h,
        total(g) <= usize::MAX,
    ensures
        sweep_row(g, w, h, y, x, false).len() == g.len(),
        total(sweep_row(g, w, h, y, x, false)) == total(g),
        weight(sweep_row(g, w, h, y, x, false), w, h) + 4 * row_fires(g, w, h, y, x, false) <= weight(g, w, h),
    decreases x,
{
    if x > 0 {
        lemma_row_weight(g, w, h, y, x - 1);
        let gg = sweep_row(g, w, h, y, x - 1, false);
        if visited(w, h, x - 1, y, false) && cell(gg, w, x - 1, y) >= 4 {
            let m = cell(gg, w, x - 1, y) / 4;
            lemma_fire(gg, w, h, x - 1, y, m);
            lemma_fire_lowers_weight(gg, w, h, x - 1, y, m);
        }
    }
}

proof fn lemma_rows_weight(g: Seq<usize>, w: int, h: int, y: int)
    requires
        w >= 1,
        h >= 1,
        g.len() == w * h,
        total(g) <= usize::MAX,
    ensures
        sweep_rows(g, w, h, y, false).len() == g.len(),
        total(sweep_rows(g, w, h, y, false)) == total(g),
        weight(sweep_rows(g, w, h, y, false), w, h) + 4 * rows_fires(g, w, h, y, false) <= weight(g, w, h),
    decreases y,
{
    if y > 0 {
        lemma_rows_weight(g, w, h, y - 1);
        lemma_row_weight(sweep_rows(g, w, h, y - 1, false), w, h, y - 1, w);
    }
}

/// A row whose visits topple nothing changes nothing, and its visited cells were stable.
proof fn lemma_quiet_row(g: Seq<usize>, w: int, h: int, y: int, x: int)
    requires
        row_fires(g, w, h, y, x, false) == 0,
    ensures
        sweep_row(g, w, h, y, x, false) == g,
        forall|a: int| 0 <= a < x && #[trigger] visited(w, h, a, y, false) ==> cell(g, w, a, y) < 4,
    decreases x,
{
    if x > 0 {
        lemma_quiet_row(g, w, h, y, x - 1);
    }
}

proof fn lemma_quiet_rows(g: Seq<usize>, w: int, h: int, y: int)
    requires
        w >= 0,
        rows_fires(g, w, h, y, false) == 0,
    ensures
        sweep_rows(g, w, h, y, false) == g,
        forall|a: int, b: int| 0 <= b < y && #[trigger] visited(w, h, a, b, false) ==> cell(g, w, a, b) < 4,
    decreases y,
{
    if y > 0 {
        lemma_quiet_rows(g, w, h, y - 1);
        lemma_quiet_row(g, w, h, y - 1, w);
    }
}

/// A deterministic sweep of an unstable bounded grid lowers its weight by at least four.
pub proof fn lemma_bounded_sweep_progress(g: Seq<usize>, w: int, h: int)
    requires
        w >= 1,
        h >= 1,
        g.len() == w * h,
        total(g) <= usize::MAX,
        !stable(g, w, h, false),
    ensures
        weight(sweep(g, w, h, false), w, h) + 4 <= weight(g, w, h),
{
    lemma_rows_weight(g, w, h, h);
    if sweep_fires(g, w, h, false) == 0 {
        lemma_quiet_rows(g, w, h, h);
        assert forall|a: int, b: int| visited(w, h, a, b, false) implies #[trigger] cell(g, w, a, b) < 4 by {}
    }
}

proof fn lemma_sweeps_stay(g: Seq<usize>, w: int, h: int, n: nat)
    requires
        w >= 1,
        h >= 1,
        g.len() == w * h,
        total(g) <= usize::MAX,
        stable(g, w, h, false),
    ensures
        sweeps(g, w, h, n) == g,
    decreases n,
{
    if n > 0 {
        lemma_sweep_relaxes(g, w, h, false);
        lemma_stable_is_fixed(g, sweep(g, w, h, false), w, h, sweep_boundary(false));
        lemma_sweeps_stay(g, w, h, (n - 1) as nat);
    }
}

/// Repeated deterministic sweeps of a bounded grid end stable: after `weight(g) / 4 + 1`
/// sweeps, and every later sweep, no interior cell holds four grains or more.
pub proof fn lemma_bounded_sweeps_settle(g: Seq<usize>, w: int, h: int, n: nat)
    requires
        w >= 1,
        h >= 1,
        g.len() == w * h,
        total(g) <= usize::MAX,
        n > weight(g, w, h) / 4,
    ensures
        stable(sweeps(g, w, h, n), w, h, false),
    decreases weight(g, w, h),
{
    lemma_weight_nonneg(g, w, h);
    if stable(g, w, h, false) {
        lemma_sweeps_stay(g, w, h, n);
    } else {
        let g2 = sweep(g, w, h, false);
        lemma_sweep_relaxes(g, w, h, false);
        lemma_bounded_sweep_progress(g, w, h);
        lemma_weight_nonneg(g2, w, h);
        lemma_bounded_sweeps_settle(g2, w, h, (n - 1) as nat);
    }
}

} // verus!
