//! Relaxation as a sequence of legal firings, and what follows from it: the stable grid
//! that a relaxation reaches does not depend on the order in which cells fire.
use crate::model::{add_to, 
    cell, fire, hits, idx, lemma_idx, lemma_idx_inj, in_grid, interior, lemma_fire, lemma_grid_ext, lemma_neighbours_in_grid, next, prev,
    settle, stable, sweep, sweep_row, sweep_rows, total, visit, visited,
};
use vstd::prelude::*;

verus! {

/// What happens to grains that leave the grid's interior.
pub enum Boundary {
    /// Outer-ring cells collect the grains they receive and never fire.
    Collecting,
    /// Grains sent to the outer ring vanish; its cells keep their counts.
    Absorbing,
    /// No boundary: neighbours wrap around, and every cell may fire.
    Wrapping,
}

pub open spec fn wraps(b: Boundary) -> bool {
    b is Wrapping
}

/// The cells that may fire under the given boundary.
pub open spec fn can_fire(w: int, h: int, x: int, y: int, b: Boundary) -> bool {
    visited(w, h, x, y, wraps(b))
}

/// How many times cell `(x, y)` fires in `s`; each entry `(x, y, m)` fires `(x, y)` `m` times.
pub open spec fn fired(s: Seq<(int, int, int)>, x: int, y: int) -> int
    decreases s.len(),
{
    if s.len() == 0 {
        0
    } else {
        fired(s.drop_last(), x, y) + if s.last().0 == x && s.last().1 == y {
            s.last().2
        } else {
            0
        }
    }
}

/// The count of `(x, y)` after the firings of `s`: it loses four grains per own firing and
/// gains one per firing of each of its (wrapped) neighbours.
pub open spec fn after(g: Seq<usize>, w: int, h: int, s: Seq<(int, int, int)>, x: int, y: int) -> int {
    cell(g, w, x, y) - 4 * fired(s, x, y) + fired(s, prev(x, w), y) + fired(s, x, prev(y, h))
        + fired(s, next(x, w), y) + fired(s, x, next(y, h))
}

/// Each firing of `s` is of a cell that may fire, and that cell holds enough grains at that
/// moment to send `m` to every neighbour.
pub open spec fn legal(g: Seq<usize>, w: int, h: int, b: Boundary, s: Seq<(int, int, int)>) -> bool
    decreases s.len(),
{
    if s.len() == 0 {
        true
    } else {
        let f = s.last();
        &&& legal(g, w, h, b, s.drop_last())
        &&& can_fire(w, h, f.0, f.1, b)
        &&& f.2 >= 1
        &&& after(g, w, h, s.drop_last(), f.0, f.1) >= 4 * f.2
    }
}

/// The count of `(x, y)` after `s`, where an absorbing ring keeps its counts.
pub open spec fn outcome(g: Seq<usize>, w: int, h: int, b: Boundary, s: Seq<(int, int, int)>, x: int, y: int) -> int {
    if b is Absorbing && !interior(w, h, x, y) {
        cell(g, w, x, y)
    } else {
        after(g, w, h, s, x, y)
    }
}

pub open spec fn results_from(g0: Seq<usize>, g1: Seq<usize>, w: int, h: int, b: Boundary, s: Seq<(int, int, int)>) -> bool {
    &&& g1.len() == w * h
    &&& forall|x: int, y: int| #[trigger] in_grid(w, h, x, y) ==> cell(g1, w, x, y) == outcome(g0, w, h, b, s, x, y)
}

/// `g1` arises from `g0` by some sequence of legal firings.
pub open spec fn relaxes(g0: Seq<usize>, g1: Seq<usize>, w: int, h: int, b: Boundary) -> bool {
    exists|s: Seq<(int, int, int)>| legal(g0, w, h, b, s) && results_from(g0, g1, w, h, b, s)
}

pub proof fn lemma_hits_symmetric(w: int, h: int, x: int, y: int, u: int, v: int)
    requires
        in_grid(w, h, x, y),
        in_grid(w, h, u, v),
    ensures
        hits(w, h, x, y, u, v) == hits(w, h, u, v, x, y),
{
}

pub proof fn lemma_fired_push(s: Seq<(int, int, int)>, f: (int, int, int), x: int, y: int)
    ensures
        fired(s.push(f), x, y) == fired(s, x, y) + if f.0 == x && f.1 == y { f.2 } else { 0 },
{
    assert(s.push(f).drop_last() =~= s);
}

/// One more firing of `(x, y)` changes each count by `-4 m` at `(x, y)` and by `m` per
/// neighbour link.
pub proof fn lemma_after_push(g: Seq<usize>, w: int, h: int, s: Seq<(int, int, int)>, x: int, y: int, m: int, u: int, v: int)
    requires
        in_grid(w, h, x, y),
        in_grid(w, h, u, v),
    ensures
        after(g, w, h, s.push((x, y, m)), u, v) == after(g, w, h, s, u, v) - (if u == x && v == y { 4 * m } else { 0 })
            + m * hits(w, h, x, y, u, v),
{
    let f = (x, y, m);
    lemma_fired_push(s, f, u, v);
    lemma_fired_push(s, f, prev(u, w), v);
    lemma_fired_push(s, f, u, prev(v, h));
    lemma_fired_push(s, f, next(u, w), v);
    lemma_fired_push(s, f, u, next(v, h));
    lemma_hits_symmetric(w, h, x, y, u, v);
    assert(m * hits(w, h, u, v, x, y) == (if prev(u, w) == x && v == y { m } else { 0 }) + (if u == x && prev(v, h) == y { m } else { 0 })
        + (if next(u, w) == x && v == y { m } else { 0 }) + (if u == x && next(v, h) == y { m } else { 0 })) by (nonlinear_arith);
}

pub proof fn lemma_fired_nonneg(g: Seq<usize>, w: int, h: int, b: Boundary, s: Seq<(int, int, int)>, x: int, y: int)
    requires
        legal(g, w, h, b, s),
    ensures
        fired(s, x, y) >= 0,
    decreases s.len(),
{
    if s.len() > 0 {
        lemma_fired_nonneg(g, w, h, b, s.drop_last(), x, y);
    }
}

/// The least-action principle: a legal sequence never fires a cell more often than a legal
/// sequence that ends stable does.
pub proof fn lemma_least_action(g: Seq<usize>, w: int, h: int, b: Boundary, s: Seq<(int, int, int)>, t: Seq<(int, int, int)>)
    requires
        w >= 1,
        h >= 1,
        legal(g, w, h, b, s),
        legal(g, w, h, b, t),
        forall|x: int, y: int| can_fire(w, h, x, y, b) ==> #[trigger] after(g, w, h, s, x, y) < 4,
    ensures
        forall|x: int, y: int| #[trigger] in_grid(w, h, x, y) ==> fired(t, x, y) <= fired(s, x, y),
    decreases t.len(),
{
    if t.len() == 0 {
        assert forall|x: int, y: int| #[trigger] in_grid(w, h, x, y) implies fired(t, x, y) <= fired(s, x, y) by {
            lemma_fired_nonneg(g, w, h, b, s, x, y);
        }
    } else {
        let t0 = t.drop_last();
        let f = t.last();
        lemma_least_action(g, w, h, b, s, t0);
        assert forall|x: int, y: int| #[trigger] in_grid(w, h, x, y) implies fired(t, x, y) <= fired(s, x, y) by {
            lemma_fired_push(t0, f, x, y);
            assert(t0.push(f) =~= t);
            if f.0 == x && f.1 == y {
                assert(in_grid(w, h, prev(x, w), y));
                assert(in_grid(w, h, next(x, w), y));
                assert(in_grid(w, h, x, prev(y, h)));
                assert(in_grid(w, h, x, next(y, h)));
                assert(after(g, w, h, s, x, y) < 4);
            }
        }
    }
}

/// Two relaxations of one grid that both end stable end in the same grid.
pub proof fn lemma_stable_outcome_unique(g0: Seq<usize>, g1: Seq<usize>, g2: Seq<usize>, w: int, h: int, b: Boundary)
    requires
        w >= 1,
        h >= 1,
        relaxes(g0, g1, w, h, b),
        relaxes(g0, g2, w, h, b),
        stable(g1, w, h, wraps(b)),
        stable(g2, w, h, wraps(b)),
    ensures
        g1 == g2,
{
    let s1 = choose|s: Seq<(int, int, int)>| legal(g0, w, h, b, s) && results_from(g0, g1, w, h, b, s);
    let s2 = choose|s: Seq<(int, int, int)>| legal(g0, w, h, b, s) && results_from(g0, g2, w, h, b, s);
    assert forall|x: int, y: int| can_fire(w, h, x, y, b) implies #[trigger] after(g0, w, h, s1, x, y) < 4 by {
        assert(in_grid(w, h, x, y));
        assert(cell(g1, w, x, y) < 4);
    }
    assert forall|x: int, y: int| can_fire(w, h, x, y, b) implies #[trigger] after(g0, w, h, s2, x, y) < 4 by {
        assert(in_grid(w, h, x, y));
        assert(cell(g2, w, x, y) < 4);
    }
    lemma_least_action(g0, w, h, b, s1, s2);
    lemma_least_action(g0, w, h, b, s2, s1);
    assert forall|x: int, y: int| in_grid(w, h, x, y) implies #[trigger] cell(g1, w, x, y) == cell(g2, w, x, y) by {
        assert(in_grid(w, h, prev(x, w), y));
        assert(in_grid(w, h, next(x, w), y));
        assert(in_grid(w, h, x, prev(y, h)));
        assert(in_grid(w, h, x, next(y, h)));
    }
    lemma_grid_ext(g1, g2, w, h);
}

/// On a torus at probability one, the sweep rule and the recursive rule agree: any run of
/// deterministic sweeps (`topple_torus_naive`, or `step` in `ToroidalProbabilistic` mode) and
/// any run of recursive relaxations (`topple_torus`, or `step` in `ToroidalDeterministic`
/// mode) from the same grid that both end stable end in the same grid. Each of those calls
/// ensures `relaxes(.., Boundary::Wrapping)`, and `lemma_relaxes_trans` chains them.
pub proof fn lemma_torus_rules_agree(g0: Seq<usize>, swept: Seq<usize>, recursed: Seq<usize>, w: int, h: int)
    requires
        w >= 1,
        h >= 1,
        relaxes(g0, swept, w, h, Boundary::Wrapping),
        relaxes(g0, recursed, w, h, Boundary::Wrapping),
        stable(swept, w, h, true),
        stable(recursed, w, h, true),
    ensures
        swept == recursed,
{
    lemma_stable_outcome_unique(g0, swept, recursed, w, h, Boundary::Wrapping);
}

proof fn lemma_legal_bounded(g: Seq<usize>, w: int, h: int, s: Seq<(int, int, int)>)
    ensures
        legal(g, w, h, Boundary::Collecting, s) == legal(g, w, h, Boundary::Absorbing, s),
    decreases s.len(),
{
    if s.len() > 0 {
        lemma_legal_bounded(g, w, h, s.drop_last());
    }
}

/// On a bounded grid the sweep rule, whose ring collects grains, and the recursive rule, whose
/// ring absorbs them, agree on the interior: relaxations of one grid by each that both leave
/// a stable interior leave the same interior.
pub proof fn lemma_bounded_rules_agree(g0: Seq<usize>, swept: Seq<usize>, recursed: Seq<usize>, w: int, h: int)
    requires
        w >= 1,
        h >= 1,
        relaxes(g0, swept, w, h, Boundary::Collecting),
        relaxes(g0, recursed, w, h, Boundary::Absorbing),
        stable(swept, w, h, false),
        stable(recursed, w, h, false),
    ensures
        forall|x: int, y: int| #[trigger] interior(w, h, x, y) ==> cell(swept, w, x, y) == cell(recursed, w, x, y),
{
    let b = Boundary::Collecting;
    let s1 = choose|s: Seq<(int, int, int)>| legal(g0, w, h, b, s) && results_from(g0, swept, w, h, b, s);
    let s2 = choose|s: Seq<(int, int, int)>| legal(g0, w, h, Boundary::Absorbing, s) && results_from(
        g0,
        recursed,
        w,
        h,
        Boundary::Absorbing,
        s,
    );
    lemma_legal_bounded(g0, w, h, s2);
    assert forall|x: int, y: int| can_fire(w, h, x, y, b) implies #[trigger] after(g0, w, h, s1, x, y) < 4 by {
        assert(in_grid(w, h, x, y));
        assert(cell(swept, w, x, y) < 4);
    }
    assert forall|x: int, y: int| can_fire(w, h, x, y, b) implies #[trigger] after(g0, w, h, s2, x, y) < 4 by {
        assert(in_grid(w, h, x, y));
        assert(cell(recursed, w, x, y) < 4);
    }
    lemma_least_action(g0, w, h, b, s1, s2);
    lemma_least_action(g0, w, h, b, s2, s1);
    assert forall|x: int, y: int| #[trigger] interior(w, h, x, y) implies cell(swept, w, x, y) == cell(recursed, w, x, y) by {
        assert(in_grid(w, h, x, y));
        assert(in_grid(w, h, prev(x, w), y));
        assert(in_grid(w, h, next(x, w), y));
        assert(in_grid(w, h, x, prev(y, h)));
        assert(in_grid(w, h, x, next(y, h)));
    }
}

proof fn lemma_legal_more(g: Seq<usize>, g2: Seq<usize>, w: int, h: int, b: Boundary, s: Seq<(int, int, int)>)
    requires
        legal(g, w, h, b, s),
        forall|x: int, y: int| #[trigger] in_grid(w, h, x, y) ==> cell(g2, w, x, y) >= cell(g, w, x, y),
    ensures
        legal(g2, w, h, b, s),
    decreases s.len(),
{
    if s.len() > 0 {
        lemma_legal_more(g, g2, w, h, b, s.drop_last());
        assert(in_grid(w, h, s.last().0, s.last().1));
    }
}

/// Adding grains commutes with relaxation: if `g1` relaxes `g`, then `g1` with `v` more grains
/// at `(x, y)` relaxes `g` with the same grains added. With `lemma_relaxes_trans` and
/// `lemma_stable_outcome_unique`, grains added in any order, relaxing in between or not, end
/// in the same stable grid.
pub proof fn lemma_add_commutes(g: Seq<usize>, g1: Seq<usize>, w: int, h: int, b: Boundary, x: int, y: int, v: int)
    requires
        w >= 1,
        g.len() == w * h,
        in_grid(w, h, x, y),
        v >= 0,
        g[idx(w, x, y)] + v <= usize::MAX,
        g1[idx(w, x, y)] + v <= usize::MAX,
        relaxes(g, g1, w, h, b),
    ensures
        relaxes(add_to(g, idx(w, x, y), v), add_to(g1, idx(w, x, y), v), w, h, b),
{
    let s = choose|s: Seq<(int, int, int)>| legal(g, w, h, b, s) && results_from(g, g1, w, h, b, s);
    let i = idx(w, x, y);
    lemma_idx(w, h, x, y);
    let ga = add_to(g, i, v);
    let g1a = add_to(g1, i, v);
    assert forall|u: int, t: int| #[trigger] in_grid(w, h, u, t) implies cell(ga, w, u, t) >= cell(g, w, u, t) && cell(ga, w, u, t)
        == cell(g, w, u, t) + (if u == x && t == y { v } else { 0 }) && cell(g1a, w, u, t) == cell(g1, w, u, t) + (if u == x && t
        == y { v } else { 0 }) by {
        lemma_idx(w, h, u, t);
        lemma_idx_inj(w, h, u, t, x, y);
    }
    lemma_legal_more(g, ga, w, h, b, s);
    assert forall|u: int, t: int| #[trigger] in_grid(w, h, u, t) implies cell(g1a, w, u, t) == outcome(ga, w, h, b, s, u, t) by {}
    assert(results_from(ga, g1a, w, h, b, s));
}

/// Grains added at two cells, in either order with a relaxation after each addition, end in
/// the same stable grid (the counts stay within `usize::MAX` throughout).
pub proof fn lemma_addition_order(
    g: Seq<usize>,
    w: int,
    h: int,
    b: Boundary,
    p: (int, int),
    a: int,
    q: (int, int),
    c: int,
    g1: Seq<usize>,
    f1: Seq<usize>,
    g2: Seq<usize>,
    f2: Seq<usize>,
)
    requires
        w >= 1,
        h >= 1,
        g.len() == w * h,
        in_grid(w, h, p.0, p.1),
        in_grid(w, h, q.0, q.1),
        a >= 0,
        c >= 0,
        g[idx(w, p.0, p.1)] + a + c <= usize::MAX,
        g[idx(w, q.0, q.1)] + a + c <= usize::MAX,
        g1[idx(w, q.0, q.1)] + c <= usize::MAX,
        g2[idx(w, p.0, p.1)] + a <= usize::MAX,
        relaxes(add_to(g, idx(w, p.0, p.1), a), g1, w, h, b),
        relaxes(add_to(g1, idx(w, q.0, q.1), c), f1, w, h, b),
        relaxes(add_to(g, idx(w, q.0, q.1), c), g2, w, h, b),
        relaxes(add_to(g2, idx(w, p.0, p.1), a), f2, w, h, b),
        stable(f1, w, h, wraps(b)),
        stable(f2, w, h, wraps(b)),
    ensures
        f1 == f2,
{
    let ip = idx(w, p.0, p.1);
    let iq = idx(w, q.0, q.1);
    lemma_idx(w, h, p.0, p.1);
    lemma_idx(w, h, q.0, q.1);
    let gp = add_to(g, ip, a);
    let gq = add_to(g, iq, c);
    let both = add_to(gp, iq, c);
    assert(add_to(gq, ip, a) =~= both);
    lemma_add_commutes(gp, g1, w, h, b, q.0, q.1, c);
    lemma_relaxes_trans(both, add_to(g1, iq, c), f1, w, h, b);
    lemma_add_commutes(gq, g2, w, h, b, p.0, p.1, a);
    lemma_relaxes_trans(both, add_to(g2, ip, a), f2, w, h, b);
    lemma_stable_outcome_unique(both, f1, f2, w, h, b);
}

/// Relaxing a stable grid changes nothing.
pub proof fn lemma_stable_is_fixed(g0: Seq<usize>, g1: Seq<usize>, w: int, h: int, b: Boundary)
    requires
        w >= 1,
        h >= 1,
        g0.len() == w * h,
        stable(g0, w, h, wraps(b)),
        relaxes(g0, g1, w, h, b),
    ensures
        g1 == g0,
{
    let s = choose|s: Seq<(int, int, int)>| legal(g0, w, h, b, s) && results_from(g0, g1, w, h, b, s);
    let e = Seq::<(int, int, int)>::empty();
    assert forall|x: int, y: int| can_fire(w, h, x, y, b) implies #[trigger] after(g0, w, h, e, x, y) < 4 by {
        assert(cell(g0, w, x, y) < 4);
    }
    lemma_least_action(g0, w, h, b, e, s);
    assert forall|x: int, y: int| in_grid(w, h, x, y) implies #[trigger] cell(g1, w, x, y) == cell(g0, w, x, y) by {
        assert(in_grid(w, h, prev(x, w), y));
        assert(in_grid(w, h, next(x, w), y));
        assert(in_grid(w, h, x, prev(y, h)));
        assert(in_grid(w, h, x, next(y, h)));
        lemma_fired_nonneg(g0, w, h, b, s, x, y);
        lemma_fired_nonneg(g0, w, h, b, s, prev(x, w), y);
        lemma_fired_nonneg(g0, w, h, b, s, next(x, w), y);
        lemma_fired_nonneg(g0, w, h, b, s, x, prev(y, h));
        lemma_fired_nonneg(g0, w, h, b, s, x, next(y, h));
    }
    lemma_grid_ext(g1, g0, w, h);
}

pub proof fn lemma_relaxes_refl(g: Seq<usize>, w: int, h: int, b: Boundary)
    requires
        g.len() == w * h,
    ensures
        relaxes(g, g, w, h, b),
{
    let e = Seq::<(int, int, int)>::empty();
    assert(legal(g, w, h, b, e));
    assert(results_from(g, g, w, h, b, e));
}

pub proof fn lemma_fired_concat(s1: Seq<(int, int, int)>, s2: Seq<(int, int, int)>, x: int, y: int)
    ensures
        fired(s1 + s2, x, y) == fired(s1, x, y) + fired(s2, x, y),
    decreases s2.len(),
{
    if s2.len() == 0 {
        assert(s1 + s2 =~= s1);
    } else {
        assert((s1 + s2).drop_last() =~= s1 + s2.drop_last());
        lemma_fired_concat(s1, s2.drop_last(), x, y);
    }
}

proof fn lemma_after_concat(g0: Seq<usize>, g1: Seq<usize>, w: int, h: int, s1: Seq<(int, int, int)>, t: Seq<(int, int, int)>, x: int, y: int)
    requires
        cell(g1, w, x, y) == after(g0, w, h, s1, x, y),
    ensures
        after(g0, w, h, s1 + t, x, y) == after(g1, w, h, t, x, y),
{
    lemma_fired_concat(s1, t, x, y);
    lemma_fired_concat(s1, t, prev(x, w), y);
    lemma_fired_concat(s1, t, x, prev(y, h));
    lemma_fired_concat(s1, t, next(x, w), y);
    lemma_fired_concat(s1, t, x, next(y, h));
}

proof fn lemma_legal_concat(g0: Seq<usize>, g1: Seq<usize>, w: int, h: int, b: Boundary, s1: Seq<(int, int, int)>, t: Seq<(int, int, int)>)
    requires
        legal(g0, w, h, b, s1),
        results_from(g0, g1, w, h, b, s1),
        legal(g1, w, h, b, t),
    ensures
        legal(g0, w, h, b, s1 + t),
    decreases t.len(),
{
    if t.len() == 0 {
        assert(s1 + t =~= s1);
    } else {
        let t0 = t.drop_last();
        let f = t.last();
        lemma_legal_concat(g0, g1, w, h, b, s1, t0);
        assert((s1 + t).drop_last() =~= s1 + t0);
        assert(in_grid(w, h, f.0, f.1));
        lemma_after_concat(g0, g1, w, h, s1, t0, f.0, f.1);
    }
}

/// Relaxation composes: relaxing a relaxed grid is a relaxation of the first grid.
pub proof fn lemma_relaxes_trans(g0: Seq<usize>, g1: Seq<usize>, g2: Seq<usize>, w: int, h: int, b: Boundary)
    requires
        relaxes(g0, g1, w, h, b),
        relaxes(g1, g2, w, h, b),
    ensures
        relaxes(g0, g2, w, h, b),
{
    let s1 = choose|s: Seq<(int, int, int)>| legal(g0, w, h, b, s) && results_from(g0, g1, w, h, b, s);
    let s2 = choose|s: Seq<(int, int, int)>| legal(g1, w, h, b, s) && results_from(g1, g2, w, h, b, s);
    lemma_legal_concat(g0, g1, w, h, b, s1, s2);
    assert forall|x: int, y: int| #[trigger] in_grid(w, h, x, y) implies cell(g2, w, x, y) == outcome(g0, w, h, b, s1 + s2, x, y) by {
        if !(b is Absorbing && !interior(w, h, x, y)) {
            lemma_after_concat(g0, g1, w, h, s1, s2, x, y);
        }
    }
    assert(results_from(g0, g2, w, h, b, s1 + s2));
}

/// Firing a cell that holds enough grains extends a relaxation by one legal firing.
pub proof fn lemma_fire_extends(g0: Seq<usize>, g: Seq<usize>, w: int, h: int, b: Boundary, s: Seq<(int, int, int)>, x: int, y: int, m: int)
    requires
        !(b is Absorbing),
        w >= 1,
        h >= 1,
        legal(g0, w, h, b, s),
        results_from(g0, g, w, h, b, s),
        can_fire(w, h, x, y, b),
        m >= 1,
        4 * m <= cell(g, w, x, y),
        total(g) <= usize::MAX,
    ensures
        legal(g0, w, h, b, s.push((x, y, m))),
        results_from(g0, fire(g, w, h, x, y, m), w, h, b, s.push((x, y, m))),
{
    let f = (x, y, m);
    assert(s.push(f).drop_last() =~= s);
    assert(in_grid(w, h, x, y));
    lemma_fire(g, w, h, x, y, m);
    assert forall|u: int, v: int| #[trigger] in_grid(w, h, u, v) implies cell(fire(g, w, h, x, y, m), w, u, v) == outcome(g0, w, h, b, s.push(f), u, v) by {
        lemma_after_push(g0, w, h, s, x, y, m, u, v);
    }
}

/// Grains waiting on a stack of `(value, x, y)` calls to be added to `(x, y)`.
pub open spec fn pending(st: Seq<(usize, usize, usize)>, x: int, y: int) -> int
    decreases st.len(),
{
    if st.len() == 0 {
        0
    } else {
        pending(st.drop_last(), x, y) + if st.last().1 == x && st.last().2 == y {
            st.last().0 as int
        } else {
            0
        }
    }
}

/// All grains waiting on a stack of calls.
pub open spec fn in_flight(st: Seq<(usize, usize, usize)>) -> int
    decreases st.len(),
{
    if st.len() == 0 {
        0
    } else {
        in_flight(st.drop_last()) + st.last().0
    }
}

pub proof fn lemma_pending_nonneg(st: Seq<(usize, usize, usize)>, x: int, y: int)
    ensures
        pending(st, x, y) >= 0,
        in_flight(st) >= 0,
    decreases st.len(),
{
    if st.len() > 0 {
        lemma_pending_nonneg(st.drop_last(), x, y);
    }
}

pub proof fn lemma_pending_push(st: Seq<(usize, usize, usize)>, e: (usize, usize, usize), x: int, y: int)
    ensures
        pending(st.push(e), x, y) == pending(st, x, y) + if e.1 == x && e.2 == y { e.0 as int } else { 0 },
        in_flight(st.push(e)) == in_flight(st) + e.0,
{
    assert(st.push(e).drop_last() =~= st);
}

/// The grid with `value` grains added at `(x, y)` when that cell may fire; otherwise the
/// grains vanish.
pub open spec fn inject(g: Seq<usize>, w: int, h: int, x: int, y: int, value: int, b: Boundary) -> Seq<usize> {
    if can_fire(w, h, x, y, b) {
        g.update(idx(w, x, y), (g[idx(w, x, y)] + value) as usize)
    } else {
        g
    }
}

/// The relation that a stack-driven relaxation keeps: every count plus the grains still on
/// their way to it is what the firings so far leave, except on an absorbing ring, which
/// keeps its counts.
pub open spec fn tracks(g0: Seq<usize>, g: Seq<usize>, w: int, h: int, b: Boundary, s: Seq<(int, int, int)>, st: Seq<(usize, usize, usize)>) -> bool {
    forall|x: int, y: int| #[trigger] in_grid(w, h, x, y) ==> if b is Absorbing && !interior(w, h, x, y) {
        cell(g, w, x, y) == cell(g0, w, x, y)
    } else {
        cell(g, w, x, y) + pending(st, x, y) == after(g0, w, h, s, x, y)
    }
}

/// Popping a call and adding its grains to its cell (or dropping them on an absorbing ring)
/// keeps the relation.
pub proof fn lemma_tracks_pop(g0: Seq<usize>, g: Seq<usize>, g2: Seq<usize>, w: int, h: int, b: Boundary, s: Seq<(int, int, int)>, st: Seq<(usize, usize, usize)>)
    requires
        st.len() > 0,
        tracks(g0, g, w, h, b, s, st),
        in_grid(w, h, st.last().1 as int, st.last().2 as int),
        g.len() == w * h,
        g2.len() == g.len(),
        b is Absorbing && !interior(w, h, st.last().1 as int, st.last().2 as int) ==> g2 == g,
        !(b is Absorbing && !interior(w, h, st.last().1 as int, st.last().2 as int)) ==> g2 == g.update(
            idx(w, st.last().1 as int, st.last().2 as int),
            (cell(g, w, st.last().1 as int, st.last().2 as int) + st.last().0) as usize,
        ),
        cell(g, w, st.last().1 as int, st.last().2 as int) + st.last().0 <= usize::MAX,
    ensures
        tracks(g0, g2, w, h, b, s, st.drop_last()),
{
    let (v, tx, ty) = st.last();
    assert forall|x: int, y: int| #[trigger] in_grid(w, h, x, y) implies if b is Absorbing && !interior(w, h, x, y) {
        cell(g2, w, x, y) == cell(g0, w, x, y)
    } else {
        cell(g2, w, x, y) + pending(st.drop_last(), x, y) == after(g0, w, h, s, x, y)
    } by {
        lemma_idx_inj(w, h, x, y, tx as int, ty as int);
        lemma_idx(w, h, x, y);
        lemma_idx(w, h, tx as int, ty as int);
        assert(pending(st, x, y) == pending(st.drop_last(), x, y) + if tx == x && ty == y { v as int } else { 0 });
        if b is Absorbing && !interior(w, h, x, y) {
            assert(cell(g, w, x, y) == cell(g0, w, x, y));
        } else {
            assert(cell(g, w, x, y) + pending(st, x, y) == after(g0, w, h, s, x, y));
        }
    }
}

/// Firing the cell just reached, and pushing one call for each neighbour, keeps the relation.
pub proof fn lemma_tracks_fire(g0: Seq<usize>, g: Seq<usize>, g2: Seq<usize>, w: int, h: int, b: Boundary, s: Seq<(int, int, int)>, st: Seq<(usize, usize, usize)>, st2: Seq<(usize, usize, usize)>, x: int, y: int, m: int)
    requires
        tracks(g0, g, w, h, b, s, st),
        in_grid(w, h, x, y),
        0 <= 4 * m <= cell(g, w, x, y),
        m <= usize::MAX,
        w <= usize::MAX,
        h <= usize::MAX,
        g.len() == w * h,
        g2 == g.update(idx(w, x, y), (cell(g, w, x, y) - 4 * m) as usize),
        st2 == st.push((m as usize, x as usize, next(y, h) as usize)).push((m as usize, next(x, w) as usize, y as usize)).push(
            (m as usize, x as usize, prev(y, h) as usize),
        ).push((m as usize, prev(x, w) as usize, y as usize)),
        !(b is Absorbing && !interior(w, h, x, y)),
    ensures
        tracks(g0, g2, w, h, b, s.push((x, y, m)), st2),
{
    lemma_neighbours_in_grid(w, h, x, y);
    let e1 = (m as usize, x as usize, next(y, h) as usize);
    let e2 = (m as usize, next(x, w) as usize, y as usize);
    let e3 = (m as usize, x as usize, prev(y, h) as usize);
    let e4 = (m as usize, prev(x, w) as usize, y as usize);
    let st_1 = st.push(e1);
    let st_2 = st_1.push(e2);
    let st_3 = st_2.push(e3);
    assert forall|u: int, v: int| #[trigger] in_grid(w, h, u, v) implies if b is Absorbing && !interior(w, h, u, v) {
        cell(g2, w, u, v) == cell(g0, w, u, v)
    } else {
        cell(g2, w, u, v) + pending(st2, u, v) == after(g0, w, h, s.push((x, y, m)), u, v)
    } by {
        lemma_idx_inj(w, h, u, v, x, y);
        lemma_idx(w, h, u, v);
        lemma_idx(w, h, x, y);
        lemma_pending_push(st, e1, u, v);
        lemma_pending_push(st_1, e2, u, v);
        lemma_pending_push(st_2, e3, u, v);
        lemma_pending_push(st_3, e4, u, v);
        lemma_after_push(g0, w, h, s, x, y, m, u, v);
        if b is Absorbing && !interior(w, h, u, v) {
            assert(cell(g, w, u, v) == cell(g0, w, u, v));
        } else {
            assert(cell(g, w, u, v) + pending(st, u, v) == after(g0, w, h, s, u, v));
        }
        assert(m * hits(w, h, x, y, u, v) == (if prev(x, w) == u && y == v { m } else { 0 }) + (if x == u && prev(y, h) == v { m } else { 0 })
            + (if next(x, w) == u && y == v { m } else { 0 }) + (if x == u && next(y, h) == v { m } else { 0 })) by (nonlinear_arith);
    }
}

pub proof fn lemma_tracks_start(g: Seq<usize>, w: int, h: int, b: Boundary, x: int, y: int, value: usize)
    requires
        g.len() == w * h,
        in_grid(w, h, x, y),
        w <= usize::MAX,
        h <= usize::MAX,
        !(b is Collecting),
        g[idx(w, x, y)] + value <= usize::MAX,
    ensures
        tracks(inject(g, w, h, x, y, value as int, b), g, w, h, b, Seq::empty(), Seq::empty().push((value, x as usize, y as usize))),
        inject(g, w, h, x, y, value as int, b).len() == g.len(),
{
    lemma_idx(w, h, x, y);
    let gs = inject(g, w, h, x, y, value as int, b);
    let st = Seq::<(usize, usize, usize)>::empty().push((value, x as usize, y as usize));
    assert forall|u: int, v: int| #[trigger] in_grid(w, h, u, v) implies if b is Absorbing && !interior(w, h, u, v) {
        cell(g, w, u, v) == cell(gs, w, u, v)
    } else {
        cell(g, w, u, v) + pending(st, u, v) == after(gs, w, h, Seq::empty(), u, v)
    } by {
        lemma_idx_inj(w, h, u, v, x, y);
        lemma_idx(w, h, u, v);
        lemma_idx(w, h, x, y);
        lemma_pending_push(Seq::empty(), (value, x as usize, y as usize), u, v);
        assert(pending(Seq::<(usize, usize, usize)>::empty(), u, v) == 0);
        assert(pending(st, u, v) == if u == x && v == y { value as int } else { 0 });
        assert(after(gs, w, h, Seq::empty(), u, v) == cell(gs, w, u, v));
        if can_fire(w, h, x, y, b) {
            assert(cell(gs, w, u, v) == cell(g, w, u, v) + if u == x && v == y { value as int } else { 0 });
            if b is Absorbing && !interior(w, h, u, v) {
                assert(interior(w, h, x, y));
                assert(u != x || v != y);
            }
        } else {
            assert(gs == g);
            assert(b is Absorbing && !interior(w, h, x, y));
        }
    }
}

pub proof fn lemma_tracks_done(g0: Seq<usize>, g: Seq<usize>, w: int, h: int, b: Boundary, s: Seq<(int, int, int)>)
    requires
        g.len() == w * h,
        legal(g0, w, h, b, s),
        tracks(g0, g, w, h, b, s, Seq::empty()),
    ensures
        relaxes(g0, g, w, h, b),
{
    assert forall|x: int, y: int| #[trigger] in_grid(w, h, x, y) implies cell(g, w, x, y) == outcome(g0, w, h, b, s, x, y) by {
    }
    assert(results_from(g0, g, w, h, b, s));
}

pub proof fn lemma_inject_zero(g: Seq<usize>, w: int, h: int, x: int, y: int, b: Boundary)
    requires
        g.len() == w * h,
        in_grid(w, h, x, y),
    ensures
        inject(g, w, h, x, y, 0, b) == g,
{
    lemma_idx(w, h, x, y);
    assert(inject(g, w, h, x, y, 0, b) =~= g);
}

/// Every cell of `g` that may fire and holds four grains or more held as many in `g0`,
/// and is not `(x, y)`: the cells a relaxation from `(x, y)` reached are left stable.
pub open spec fn quiet_after(g0: Seq<usize>, g: Seq<usize>, w: int, h: int, b: Boundary, x: int, y: int) -> bool {
    forall|u: int, v: int| #[trigger] can_fire(w, h, u, v, b) && cell(g, w, u, v) >= 4 ==> cell(g, w, u, v) == cell(g0, w, u, v) && !(u
        == x && v == y)
}

/// How far interior cell `(x, y)` lies from the outer ring, as a weight: a grain there can
/// make only so many moves before it leaves the grid. Zero on the ring.
pub open spec fn depth(w: int, h: int, x: int, y: int) -> int {
    if interior(w, h, x, y) {
        x * (w - 1 - x) + y * (h - 1 - y)
    } else {
        0
    }
}

/// The depth of the cell at position `i` of a row-major grid.
pub open spec fn depth_at(w: int, h: int, i: int) -> int {
    depth(w, h, i % w, i / w)
}

/// The grains of a grid, each weighted by the depth of its cell.
pub open spec fn weight(g: Seq<usize>, w: int, h: int) -> int
    decreases g.len(),
{
    if g.len() == 0 {
        0
    } else {
        weight(g.drop_last(), w, h) + depth_at(w, h, g.len() - 1) * g.last()
    }
}

/// The grains waiting on a stack of calls, each weighted by the depth of its target.
pub open spec fn stack_weight(st: Seq<(usize, usize, usize)>, w: int, h: int) -> int
    decreases st.len(),
{
    if st.len() == 0 {
        0
    } else {
        stack_weight(st.drop_last(), w, h) + depth(w, h, st.last().1 as int, st.last().2 as int) * st.last().0
    }
}

pub proof fn lemma_depth_nonneg(w: int, h: int, x: int, y: int)
    ensures
        depth(w, h, x, y) >= 0,
{
    if interior(w, h, x, y) {
        assert(x * (w - 1 - x) >= 0 && y * (h - 1 - y) >= 0) by (nonlinear_arith)
            requires
                1 <= x < w - 1,
                1 <= y < h - 1,
        ;
    }
}

pub proof fn lemma_weight_nonneg(g: Seq<usize>, w: int, h: int)
    ensures
        weight(g, w, h) >= 0,
    decreases g.len(),
{
    if g.len() > 0 {
        lemma_weight_nonneg(g.drop_last(), w, h);
        let d = depth_at(w, h, g.len() - 1);
        lemma_depth_nonneg(w, h, (g.len() - 1) % w, (g.len() - 1) / w);
        assert(d * g.last() >= 0) by (nonlinear_arith)
            requires
                d >= 0,
                g.last() >= 0,
        ;
    }
}

pub proof fn lemma_stack_weight_nonneg(st: Seq<(usize, usize, usize)>, w: int, h: int)
    ensures
        stack_weight(st, w, h) >= 0,
    decreases st.len(),
{
    if st.len() > 0 {
        lemma_stack_weight_nonneg(st.drop_last(), w, h);
        let d = depth(w, h, st.last().1 as int, st.last().2 as int);
        lemma_depth_nonneg(w, h, st.last().1 as int, st.last().2 as int);
        assert(d * st.last().0 >= 0) by (nonlinear_arith)
            requires
                d >= 0,
                st.last().0 >= 0,
        ;
    }
}

pub proof fn lemma_stack_weight_push(st: Seq<(usize, usize, usize)>, e: (usize, usize, usize), w: int, h: int)
    ensures
        stack_weight(st.push(e), w, h) == stack_weight(st, w, h) + depth(w, h, e.1 as int, e.2 as int) * e.0,
{
    assert(st.push(e).drop_last() =~= st);
}

pub proof fn lemma_weight_update(g: Seq<usize>, w: int, h: int, i: int, v: usize)
    requires
        0 <= i < g.len(),
    ensures
        weight(g.update(i, v), w, h) == weight(g, w, h) - depth_at(w, h, i) * g[i] + depth_at(w, h, i) * v,
    decreases g.len(),
{
    let g2 = g.update(i, v);
    if i == g.len() - 1 {
        assert(g2.drop_last() =~= g.drop_last());
    } else {
        assert(g2.drop_last() =~= g.drop_last().update(i, v));
        lemma_weight_update(g.drop_last(), w, h, i, v);
    }
}

pub proof fn lemma_depth_idx(w: int, h: int, x: int, y: int)
    requires
        in_grid(w, h, x, y),
    ensures
        depth_at(w, h, idx(w, x, y)) == depth(w, h, x, y),
{
    vstd::arithmetic::div_mod::lemma_fundamental_div_mod_converse_mod(y * w + x, w, y, x);
    vstd::arithmetic::div_mod::lemma_fundamental_div_mod_converse_div(y * w + x, w, y, x);
}

/// The neighbours of an interior cell are shallower by four in all.
pub proof fn lemma_depth_drop(w: int, h: int, x: int, y: int)
    requires
        interior(w, h, x, y),
    ensures
        depth(w, h, x - 1, y) + depth(w, h, x, y - 1) + depth(w, h, x + 1, y) + depth(w, h, x, y + 1) <= 4 * depth(w, h, x, y) - 4,
{
    assert((x - 1) * (w - x) + (x + 1) * (w - 2 - x) == 2 * (x * (w - 1 - x)) - 2) by (nonlinear_arith);
    assert((y - 1) * (h - y) + (y + 1) * (h - 2 - y) == 2 * (y * (h - 1 - y)) - 2) by (nonlinear_arith);
    assert((x - 1) * (w - x) >= 0 && (x + 1) * (w - 2 - x) >= 0 && x * (w - 1 - x) >= 0) by (nonlinear_arith)
        requires
            1 <= x < w - 1,
    ;
    assert((y - 1) * (h - y) >= 0 && (y + 1) * (h - 2 - y) >= 0 && y * (h - 1 - y) >= 0) by (nonlinear_arith)
        requires
            1 <= y < h - 1,
    ;
    assert(depth(w, h, x - 1, y) <= (x - 1) * (w - x) + y * (h - 1 - y));
    assert(depth(w, h, x + 1, y) <= (x + 1) * (w - 2 - x) + y * (h - 1 - y));
    assert(depth(w, h, x, y - 1) <= x * (w - 1 - x) + (y - 1) * (h - y));
    assert(depth(w, h, x, y + 1) <= x * (w - 1 - x) + (y + 1) * (h - 2 - y));
}

/// Firing an interior cell `m` times lowers the weight by at least `4 * m`.
pub proof fn lemma_fire_weight(d: int, c: int, m: int, dl: int, du: int, dr: int, dd: int)
    requires
        dl + du + dr + dd <= 4 * d - 4,
        m >= 1,
    ensures
        -(d * c) + d * (c - 4 * m) + dl * m + du * m + dr * m + dd * m <= -4 * m,
{
    assert(-(d * c) + d * (c - 4 * m) + dl * m + du * m + dr * m + dd * m == m * (dl + du + dr + dd - 4 * d)) by (nonlinear_arith);
    assert(m * (dl + du + dr + dd - 4 * d) <= m * (-4)) by (nonlinear_arith)
        requires
            dl + du + dr + dd - 4 * d <= -4,
            m >= 1,
    ;
}

/// Adds the grains of every waiting call to its cell without toppling, last call first.
pub open spec fn deposit(g: Seq<usize>, w: int, st: Seq<(usize, usize, usize)>) -> Seq<usize>
    decreases st.len(),
{
    if st.len() == 0 {
        g
    } else {
        deposit(add_to(g, idx(w, st.last().1 as int, st.last().2 as int), st.last().0 as int), w, st.drop_last())
    }
}

/// Recursive toppling on a torus, run on a stack of calls `(value, x, y)` with at most `fuel`
/// calls. A call adds its grains to its cell; a cell then holding `c >= 4` keeps `c % 4` and
/// pushes calls with `c / 4` to its neighbours so that they run left, up, right, down. When
/// the fuel runs out the grains of waiting calls go to their cells. Returns the grid, whether
/// every call was made, the fuel left, and how many firings took place.
pub open spec fn torus_run(g: Seq<usize>, st: Seq<(usize, usize, usize)>, w: int, h: int, fuel: nat) -> (Seq<usize>, bool, nat, nat)
    decreases fuel,
{
    if st.len() == 0 {
        (g, true, fuel, 0)
    } else if fuel == 0 {
        (deposit(g, w, st), false, 0, 0)
    } else {
        let (v, x, y) = st.last();
        let rest = st.drop_last();
        let i = idx(w, x as int, y as int);
        let c = g[i] + v;
        let g1 = g.update(i, c as usize);
        if c >= 4 {
            let m = c / 4;
            let g2 = g1.update(i, (c - 4 * m) as usize);
            let st2 = rest.push((m as usize, x, next(y as int, h) as usize)).push((m as usize, next(x as int, w) as usize, y)).push(
                (m as usize, x, prev(y as int, h) as usize),
            ).push((m as usize, prev(x as int, w) as usize, y));
            let r = torus_run(g2, st2, w, h, (fuel - 1) as nat);
            (r.0, r.1, r.2, r.3 + 1)
        } else {
            torus_run(g1, rest, w, h, (fuel - 1) as nat)
        }
    }
}

/// Recursive toppling on a bounded grid, run on a stack of calls `(value, x, y)` with at most
/// `fuel` calls: as `torus_run`, except that a call to the outer ring drops its grains. Returns
/// the grid, whether every call was made, the fuel left, and how many firings took place.
pub open spec fn bounded_run(g: Seq<usize>, st: Seq<(usize, usize, usize)>, w: int, h: int, fuel: nat) -> (Seq<usize>, bool, nat, nat)
    decreases fuel,
{
    if st.len() == 0 {
        (g, true, fuel, 0)
    } else if fuel == 0 {
        (g, false, 0, 0)
    } else {
        let (v, x, y) = st.last();
        let rest = st.drop_last();
        if !interior(w, h, x as int, y as int) {
            bounded_run(g, rest, w, h, (fuel - 1) as nat)
        } else {
            let i = idx(w, x as int, y as int);
            let c = g[i] + v;
            let g1 = g.update(i, c as usize);
            if c >= 4 {
                let m = c / 4;
                let g2 = g1.update(i, (c - 4 * m) as usize);
                let st2 = rest.push((m as usize, x, next(y as int, h) as usize)).push((m as usize, next(x as int, w) as usize, y)).push(
                    (m as usize, x, prev(y as int, h) as usize),
                ).push((m as usize, prev(x as int, w) as usize, y));
                let r = bounded_run(g2, st2, w, h, (fuel - 1) as nat);
                (r.0, r.1, r.2, r.3 + 1)
            } else {
                bounded_run(g1, rest, w, h, (fuel - 1) as nat)
            }
        }
    }
}

/// One call `(0, x, y)` of `torus_run` within a whole-grid pass: the grid, whether every call
/// so far was made, the fuel left, and the firings so far.
pub open spec fn pass_cell(st: (Seq<usize>, bool, nat, nat), w: int, h: int, x: int, y: int) -> (Seq<usize>, bool, nat, nat) {
    let r = torus_run(st.0, Seq::empty().push((0usize, x as usize, y as usize)), w, h, st.2);
    (r.0, st.1 && r.1, r.2, st.3 + r.3)
}

pub open spec fn pass_row(st: (Seq<usize>, bool, nat, nat), w: int, h: int, y: int, x: int) -> (Seq<usize>, bool, nat, nat)
    decreases x,
{
    if x <= 0 {
        st
    } else {
        pass_cell(pass_row(st, w, h, y, x - 1), w, h, x - 1, y)
    }
}

pub open spec fn pass_rows(st: (Seq<usize>, bool, nat, nat), w: int, h: int, y: int) -> (Seq<usize>, bool, nat, nat)
    decreases y,
{
    if y <= 0 {
        st
    } else {
        pass_row(pass_rows(st, w, h, y - 1), w, h, y - 1, w)
    }
}

/// Recursive toppling from every cell of a torus in row-major order, sharing `fuel` calls.
pub open spec fn torus_pass(g: Seq<usize>, w: int, h: int, fuel: nat) -> (Seq<usize>, bool, nat, nat) {
    pass_rows((g, true, fuel, 0), w, h, h)
}

/// The call budget of a `w` by `h` grid: `CALLS_PER_CELL` calls per cell, capped at
/// `usize::MAX`.
pub open spec fn call_budget_for(w: int, h: int) -> nat {
    if w * h <= usize::MAX / 64 {
        (w * h * 64) as nat
    } else {
        usize::MAX as nat
    }
}

/// The boundary of recursive relaxation: a torus, or an absorbing outer ring.
pub open spec fn recursive_boundary(torus: bool) -> Boundary {
    if torus {
        Boundary::Wrapping
    } else {
        Boundary::Absorbing
    }
}

pub open spec fn sweep_boundary(torus: bool) -> Boundary {
    if torus {
        Boundary::Wrapping
    } else {
        Boundary::Collecting
    }
}

proof fn lemma_visit_extends(g0: Seq<usize>, g: Seq<usize>, w: int, h: int, s: Seq<(int, int, int)>, x: int, y: int, torus: bool) -> (s2: Seq<(int, int, int)>)
    requires
        w >= 1,
        h >= 1,
        legal(g0, w, h, sweep_boundary(torus), s),
        results_from(g0, g, w, h, sweep_boundary(torus), s),
        total(g) <= usize::MAX,
    ensures
        legal(g0, w, h, sweep_boundary(torus), s2),
        results_from(g0, visit(g, w, h, x, y, torus), w, h, sweep_boundary(torus), s2),
        total(visit(g, w, h, x, y, torus)) == total(g),
{
    if visited(w, h, x, y, torus) && cell(g, w, x, y) >= 4 {
        let m = cell(g, w, x, y) / 4;
        lemma_fire_extends(g0, g, w, h, sweep_boundary(torus), s, x, y, m);
        lemma_fire(g, w, h, x, y, m);
        s.push((x, y, m))
    } else {
        s
    }
}

proof fn lemma_row_extends(g0: Seq<usize>, g: Seq<usize>, w: int, h: int, s: Seq<(int, int, int)>, y: int, x: int, torus: bool) -> (s2: Seq<(int, int, int)>)
    requires
        w >= 1,
        h >= 1,
        legal(g0, w, h, sweep_boundary(torus), s),
        results_from(g0, g, w, h, sweep_boundary(torus), s),
        total(g) <= usize::MAX,
    ensures
        legal(g0, w, h, sweep_boundary(torus), s2),
        results_from(g0, sweep_row(g, w, h, y, x, torus), w, h, sweep_boundary(torus), s2),
        total(sweep_row(g, w, h, y, x, torus)) == total(g),
    decreases x,
{
    if x <= 0 {
        s
    } else {
        let s1 = lemma_row_extends(g0, g, w, h, s, y, x - 1, torus);
        lemma_visit_extends(g0, sweep_row(g, w, h, y, x - 1, torus), w, h, s1, x - 1, y, torus)
    }
}

proof fn lemma_rows_extends(g0: Seq<usize>, w: int, h: int, y: int, torus: bool) -> (s2: Seq<(int, int, int)>)
    requires
        w >= 1,
        h >= 1,
        g0.len() == w * h,
        total(g0) <= usize::MAX,
    ensures
        legal(g0, w, h, sweep_boundary(torus), s2),
        results_from(g0, sweep_rows(g0, w, h, y, torus), w, h, sweep_boundary(torus), s2),
        total(sweep_rows(g0, w, h, y, torus)) == total(g0),
    decreases y,
{
    if y <= 0 {
        let e = Seq::<(int, int, int)>::empty();
        assert(legal(g0, w, h, sweep_boundary(torus), e));
        assert(results_from(g0, g0, w, h, sweep_boundary(torus), e));
        e
    } else {
        let s1 = lemma_rows_extends(g0, w, h, y - 1, torus);
        lemma_row_extends(g0, sweep_rows(g0, w, h, y - 1, torus), w, h, s1, y - 1, w, torus)
    }
}

/// A deterministic sweep is a relaxation, and it keeps the total.
pub proof fn lemma_sweep_relaxes(g: Seq<usize>, w: int, h: int, torus: bool)
    requires
        w >= 1,
        h >= 1,
        g.len() == w * h,
        total(g) <= usize::MAX,
    ensures
        relaxes(g, sweep(g, w, h, torus), w, h, sweep_boundary(torus)),
        sweep(g, w, h, torus).len() == g.len(),
        total(sweep(g, w, h, torus)) == total(g),
{
    let s = lemma_rows_extends(g, w, h, h, torus);
}

} // verus!
