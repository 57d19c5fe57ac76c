//! Recursive relaxation from a cell, run on an explicit stack.
use super::{capped, sat_add, CALLS_PER_CELL, GridError, mode_wraps, Sandpile, ToppleMode};
use crate::cells::toodee_get;
use crate::ring::{interior_total, lemma_absorbing_keeps_ring, lemma_interior_total_falls, ring_gains};
use crate::relax::{bounded_run, call_budget_for, pass_row, pass_rows, torus_pass, deposit, torus_run, after, Boundary, can_fire, depth, in_flight, inject, legal, lemma_depth_drop, lemma_depth_idx, lemma_depth_nonneg, lemma_fire_weight, lemma_inject_zero, lemma_pending_nonneg, lemma_pending_push, lemma_relaxes_refl, lemma_relaxes_trans, lemma_stack_weight_nonneg, lemma_stack_weight_push, lemma_tracks_done, lemma_tracks_fire, lemma_tracks_pop, lemma_tracks_start, lemma_weight_nonneg, lemma_weight_update, quiet_after, recursive_boundary, relaxes, stack_weight, tracks, weight};
use crate::model::{lemma_stable_wraps, cell, idx, in_grid, interior, lemma_idx, lemma_idx_inj, lemma_total_ge, stable, THRESHOLD, total, visited};
use vstd::prelude::*;

verus! {

impl Sandpile {
    /// Adds `value` grains to `(x, y)` and relaxes the way recursive toppling does: a call
    /// `(value, x, y)` adds its grains to a cell that may fire and, when the cell then holds
    /// `m * 4` grains or more (`m` the largest such), takes `4 * m` and calls each neighbour
    /// with `m`, in the order left, up, right, down. The calls wait on a stack, last in first
    /// out, so they run in the order of the recursion. On a bounded grid calls to the outer
    /// ring drop their grains, and there every call is made: each firing lowers the grains'
    /// total depth (see `weight`). On a torus at most `budget` calls are made; the grains of
    /// calls still waiting then go to their cells without toppling. Returns the budget left and
    /// whether every call was made; if so, `(x, y)` and every cell a call reached end stable.
    #[verifier::rlimit(100)]
    pub(super) fn relax_from(&mut self, value: usize, x: usize, y: usize, torus: bool, budget: usize, stack: &mut Vec<(usize, usize, usize)>) -> (r: (usize, bool))
        requires
            old(self).grid_ok(),
            old(stack)@.len() == 0,
            x < old(self).width(),
            y < old(self).height(),
            total(old(self).grains()) + value <= usize::MAX,
        ensures
            final(self).grid_ok(),
            final(self).same_setup(old(self)),
            final(self).settled() == old(self).settled(),
            relaxes(
                inject(old(self).grains(), old(self).width(), old(self).height(), x as int, y as int, value as int, recursive_boundary(torus)),
                final(self).grains(),
                old(self).width(),
                old(self).height(),
                recursive_boundary(torus),
            ),
            total(final(self).grains()) <= total(old(self).grains()) + value,
            torus ==> total(final(self).grains()) == total(old(self).grains()) + value,
            r.0 <= budget,
            !torus ==> r.1,
            !torus ==> exists|k: nat| {
                let run = #[trigger] bounded_run(old(self).grains(), Seq::<(usize, usize, usize)>::empty().push((value, x, y)), old(self).width(), old(self).height(), k);
                &&& run.1
                &&& final(self).grains() == run.0
                &&& final(self).steps() == sat_add(old(self).steps(), k as int)
                &&& final(self).topples() == sat_add(old(self).topples(), run.3 as int)
            },
            torus ==> {
                let run = torus_run(
                    old(self).grains(),
                    Seq::<(usize, usize, usize)>::empty().push((value, x, y)),
                    old(self).width(),
                    old(self).height(),
                    budget as nat,
                );
                &&& final(self).grains() == run.0
                &&& r.1 == run.1
                &&& r.0 == run.2
                &&& final(self).steps() == sat_add(old(self).steps(), budget - r.0)
                &&& final(self).topples() == sat_add(old(self).topples(), run.3 as int)
            },
            r.1 ==> quiet_after(old(self).grains(), final(self).grains(), old(self).width(), old(self).height(), recursive_boundary(torus), x as int, y as int),
            final(stack)@.len() == 0,
            final(self).steps() >= old(self).steps(),
            final(self).topples() >= old(self).topples(),
    {
        let ghost g0 = self.grains();
        let ghost (w, h) = (self.x as int, self.y as int);
        let ghost b = recursive_boundary(torus);
        proof {
            lemma_idx(w, h, x as int, y as int);
            lemma_total_ge(g0, idx(w, x as int, y as int));
            lemma_tracks_start(g0, w, h, b, x as int, y as int, value);
        }
        let ghost gs = inject(g0, w, h, x as int, y as int, value as int, b);
        let ghost mut s: Seq<(int, int, int)> = Seq::empty();
        let ghost mut absorbed: int = 0;
        stack.push((value, x, y));
        proof {
            assert(stack@ =~= Seq::<(usize, usize, usize)>::empty().push((value, x, y)));
            lemma_pending_push(Seq::empty(), (value, x, y), 0, 0);
        }
        let mut left = budget;
        let ghost mut started = false;
        let ghost mut fires: nat = 0;
        let ghost mut calls: nat = 0;
        proof {
            lemma_weight_nonneg(self.grains(), w, h);
            lemma_stack_weight_nonneg(stack@, w, h);
        }
        while stack.len() > 0 && (!torus || left > 0)
            invariant
                torus ==> {
                    let now = torus_run(self.grains(), stack@, w, h, left as nat);
                    let all = torus_run(g0, Seq::<(usize, usize, usize)>::empty().push((value, x, y)), w, h, budget as nat);
                    &&& all.0 == now.0
                    &&& all.1 == now.1
                    &&& all.2 == now.2
                    &&& all.3 == fires + now.3
                },
                torus ==> self.steps() == sat_add(old(self).steps(), budget - left),
                self.topples() == sat_add(old(self).topples(), fires as int),
                !torus ==> self.steps() == sat_add(old(self).steps(), calls as int),
                !torus ==> forall|f: nat| {
                    let now = #[trigger] bounded_run(self.grains(), stack@, w, h, f);
                    let all = bounded_run(g0, Seq::<(usize, usize, usize)>::empty().push((value, x, y)), w, h, f + calls);
                    &&& all.0 == now.0
                    &&& all.1 == now.1
                    &&& all.2 == now.2
                    &&& all.3 == fires + now.3
                },
                weight(self.grains(), w, h) >= 0,
                stack_weight(stack@, w, h) >= 0,
                !started ==> self.grains() == g0 && stack@ == Seq::<(usize, usize, usize)>::empty().push((value, x, y)),
                started ==> quiet_after(g0, self.grains(), w, h, b, x as int, y as int),
                self.grid_ok(),
                self.same_setup(old(self)),
                self.settled() == old(self).settled(),
                w == self.width(),
                h == self.height(),
                gs.len() == w * h,
                b == recursive_boundary(torus),
                gs == inject(g0, w, h, x as int, y as int, value as int, b),
                w <= usize::MAX,
                h <= usize::MAX,
                legal(gs, w, h, b, s),
                tracks(gs, self.grains(), w, h, b, s, stack@),
                forall|k: int| 0 <= k < stack@.len() ==> in_grid(w, h, #[trigger] stack@[k].1 as int, stack@[k].2 as int),
                total(self.grains()) + in_flight(stack@) + absorbed == total(g0) + value,
                total(g0) + value <= usize::MAX,
                absorbed >= 0,
                torus ==> absorbed == 0,
                left <= budget,
                self.steps() >= old(self).steps(),
                self.topples() >= old(self).topples(),
            decreases
                (if torus { left as int } else { 0int }),
                (if torus { 0int } else { weight(self.grains(), w, h) + stack_weight(stack@, w, h) }),
                stack@.len(),
        {
            let ghost potential = weight(self.grains(), w, h) + stack_weight(stack@, w, h);
            let ghost left0 = left;
            let ghost run0 = torus_run(self.grains(), stack@, w, h, left as nat);
            let ghost st_g = self.grains();
            let ghost fires0 = fires;
            let ghost st = stack@;
            let ghost g = self.grains();
            let top = stack.pop();
            let (val, tx, ty) = match top {
                Some(e) => e,
                None => (0, 0, 0),
            };
            proof {
                assert(st.last() == (val, tx, ty));
                assert(in_grid(w, h, st[st.len() - 1].1 as int, st[st.len() - 1].2 as int));
                lemma_pending_nonneg(stack@, tx as int, ty as int);
                lemma_idx(w, h, tx as int, ty as int);
                lemma_total_ge(g, idx(w, tx as int, ty as int));
            }
            if torus {
                left = left - 1;
            }
            proof {
                assert(st.drop_last() =~= stack@);
                lemma_stack_weight_nonneg(stack@, w, h);
                lemma_depth_nonneg(w, h, tx as int, ty as int);
                if !torus {
                    lemma_depth_idx(w, h, tx as int, ty as int);
                }
            }
            self.num_steps = self.num_steps.saturating_add(1);
            let ghost was_started = started;
            let ghost g_before = self.grains();
            proof {
                if !was_started {
                    assert(st =~= Seq::<(usize, usize, usize)>::empty().push((value, x, y)));
                    assert(tx == x && ty == y);
                }
            }
            if !torus && !(1 <= tx && tx + 1 < self.x && 1 <= ty && ty + 1 < self.y) {
                proof {
                    assert(b is Absorbing);
                    assert(!interior(w, h, tx as int, ty as int));
                    lemma_tracks_pop(gs, g, g, w, h, b, s, st);
                    absorbed = absorbed + val;
                    assert(depth(w, h, tx as int, ty as int) == 0);
                }
            } else {
                let c = toodee_get(&self.cells, tx, ty) + val;
                self.put(tx, ty, c);
                proof {
                    assert(!(b is Absorbing && !interior(w, h, tx as int, ty as int)));
                    lemma_tracks_pop(gs, g, self.grains(), w, h, b, s, st);
                    let i = idx(w, tx as int, ty as int);
                    lemma_weight_update(g, w, h, i, c);
                    let d = depth(w, h, tx as int, ty as int);
                    assert(d * (c as int) == d * g[i] + d * val) by (nonlinear_arith)
                        requires
                            c == g[i] + val,
                    ;
                }
                if c >= THRESHOLD {
                    let ghost g1 = self.grains();
                    let ghost st1 = stack@;
                    self.num_topples = self.num_topples.saturating_add(1);
                    proof {
                        fires = fires + 1;
                    }
                    let multiples = c / 4;
                    proof {
                        lemma_total_ge(g1, idx(w, tx as int, ty as int));
                        lemma_weight_update(g1, w, h, idx(w, tx as int, ty as int), (c - 4 * multiples) as usize);
                    }
                    self.put(tx, ty, c - 4 * multiples);
                    let l = if tx == 0 { self.x - 1 } else { tx - 1 };
                    let u = if ty == 0 { self.y - 1 } else { ty - 1 };
                    let r = if tx == self.x - 1 { 0 } else { tx + 1 };
                    let d = if ty == self.y - 1 { 0 } else { ty + 1 };
                    stack.push((multiples, tx, d));
                    stack.push((multiples, r, ty));
                    stack.push((multiples, tx, u));
                    stack.push((multiples, l, ty));
                    proof {
                        let f = (tx as int, ty as int, multiples as int);
                        lemma_pending_nonneg(st1, tx as int, ty as int);
                        assert(after(gs, w, h, s, tx as int, ty as int) >= 4 * multiples);
                        assert(s.push(f).drop_last() =~= s);
                        assert(crate::relax::can_fire(w, h, tx as int, ty as int, b));
                        assert(legal(gs, w, h, b, s.push(f)));
                        lemma_tracks_fire(gs, g1, self.grains(), w, h, b, s, st1, stack@, tx as int, ty as int, multiples as int);
                        let e1 = (multiples, tx, d);
                        let e2 = (multiples, r, ty);
                        let e3 = (multiples, tx, u);
                        let e4 = (multiples, l, ty);
                        lemma_pending_push(st1, e1, 0, 0);
                        lemma_pending_push(st1.push(e1), e2, 0, 0);
                        lemma_pending_push(st1.push(e1).push(e2), e3, 0, 0);
                        lemma_pending_push(st1.push(e1).push(e2).push(e3), e4, 0, 0);
                        lemma_stack_weight_push(st1, e1, w, h);
                        lemma_stack_weight_push(st1.push(e1), e2, w, h);
                        lemma_stack_weight_push(st1.push(e1).push(e2), e3, w, h);
                        lemma_stack_weight_push(st1.push(e1).push(e2).push(e3), e4, w, h);
                        lemma_stack_weight_nonneg(stack@, w, h);
                        if !torus {
                            lemma_depth_drop(w, h, tx as int, ty as int);
                            lemma_fire_weight(
                                depth(w, h, tx as int, ty as int),
                                c as int,
                                multiples as int,
                                depth(w, h, l as int, ty as int),
                                depth(w, h, tx as int, u as int),
                                depth(w, h, r as int, ty as int),
                                depth(w, h, tx as int, d as int),
                            );
                        }
                        s = s.push(f);
                    }
                }
            }
            proof {
                assert(!(can_fire(w, h, tx as int, ty as int, b)) || cell(self.grains(), w, tx as int, ty as int) < 4);
                assert forall|u: int, v: int| #[trigger] can_fire(w, h, u, v, b) && cell(self.grains(), w, u, v) >= 4 implies cell(
                    self.grains(),
                    w,
                    u,
                    v,
                ) == cell(g0, w, u, v) && !(u == x && v == y) by {
                    lemma_idx_inj(w, h, u, v, tx as int, ty as int);
                    lemma_idx(w, h, u, v);
                    assert(cell(self.grains(), w, u, v) == cell(g_before, w, u, v));
                }
                started = true;
                if !torus {
                    assert forall|f: nat| {
                        let now = #[trigger] bounded_run(self.grains(), stack@, w, h, f);
                        let all = bounded_run(g0, Seq::<(usize, usize, usize)>::empty().push((value, x, y)), w, h, f + calls + 1);
                        &&& all.0 == now.0
                        &&& all.1 == now.1
                        &&& all.2 == now.2
                        &&& all.3 == fires + now.3
                    } by {
                        let before = bounded_run(st_g, st, w, h, (f + 1) as nat);
                        assert((f + 1) as nat + calls == f + calls + 1);
                    }
                    calls = calls + 1;
                }
                if torus {
                    let now = torus_run(self.grains(), stack@, w, h, left as nat);
                    assert(run0.0 == now.0 && run0.1 == now.1 && run0.2 == now.2);
                    assert(run0.3 + fires0 == now.3 + fires);
                }
                lemma_weight_nonneg(self.grains(), w, h);
                lemma_stack_weight_nonneg(stack@, w, h);
                if !torus {
                    assert(weight(self.grains(), w, h) + stack_weight(stack@, w, h) < potential || (weight(self.grains(), w, h)
                        + stack_weight(stack@, w, h) == potential && stack@.len() < st.len()));
                }
            }
        }
        let completed = stack.len() == 0;
        let ghost g_exit = self.grains();
        let ghost st_exit = stack@;
        let ghost steps_exit = self.steps();
        let ghost topples_exit = self.topples();
        proof {
            if !torus {
                let done = bounded_run(self.grains(), stack@, w, h, 0);
                assert(done == (self.grains(), true, 0nat, 0nat));
                assert(bounded_run(g0, Seq::<(usize, usize, usize)>::empty().push((value, x, y)), w, h, calls).1);
            }
        }
        while stack.len() > 0
            invariant
                torus ==> {
                    let now = torus_run(g_exit, st_exit, w, h, left as nat);
                    let all = torus_run(g0, Seq::<(usize, usize, usize)>::empty().push((value, x, y)), w, h, budget as nat);
                    &&& all.0 == now.0
                    &&& all.1 == now.1
                    &&& all.2 == now.2
                    &&& all.3 == fires + now.3
                },
                torus ==> self.steps() == sat_add(old(self).steps(), budget - left),
                torus ==> self.topples() == sat_add(old(self).topples(), fires as int),
                torus && !completed ==> left == 0 && st_exit.len() > 0,
                completed ==> st_exit.len() == 0,
                completed ==> self.grains() == g_exit && self.steps() == steps_exit && self.topples() == topples_exit,
                !torus ==> completed,
                !torus ==> {
                    let run = bounded_run(g0, Seq::<(usize, usize, usize)>::empty().push((value, x, y)), w, h, calls);
                    &&& run.1
                    &&& g_exit == run.0
                    &&& steps_exit == sat_add(old(self).steps(), calls as int)
                    &&& topples_exit == sat_add(old(self).topples(), run.3 as int)
                },
                torus ==> deposit(self.grains(), w, stack@) == deposit(g_exit, w, st_exit),
                left <= budget,
                completed ==> stack@.len() == 0 && quiet_after(g0, self.grains(), w, h, b, x as int, y as int),
                self.grid_ok(),
                self.same_setup(old(self)),
                self.settled() == old(self).settled(),
                w == self.width(),
                h == self.height(),
                gs.len() == w * h,
                b == recursive_boundary(torus),
                gs == inject(g0, w, h, x as int, y as int, value as int, b),
                w <= usize::MAX,
                h <= usize::MAX,
                legal(gs, w, h, b, s),
                tracks(gs, self.grains(), w, h, b, s, stack@),
                forall|k: int| 0 <= k < stack@.len() ==> in_grid(w, h, #[trigger] stack@[k].1 as int, stack@[k].2 as int),
                total(self.grains()) + in_flight(stack@) + absorbed == total(g0) + value,
                total(g0) + value <= usize::MAX,
                absorbed >= 0,
                torus ==> absorbed == 0,
                self.steps() >= old(self).steps(),
                self.topples() >= old(self).topples(),
            decreases stack.len(),
        {
            let ghost st = stack@;
            let ghost g = self.grains();
            let top = stack.pop();
            let (val, tx, ty) = match top {
                Some(e) => e,
                None => (0, 0, 0),
            };
            proof {
                assert(st.last() == (val, tx, ty));
                assert(in_grid(w, h, st[st.len() - 1].1 as int, st[st.len() - 1].2 as int));
                lemma_pending_nonneg(stack@, tx as int, ty as int);
                lemma_idx(w, h, tx as int, ty as int);
                lemma_total_ge(g, idx(w, tx as int, ty as int));
            }
            if !torus && !(1 <= tx && tx + 1 < self.x && 1 <= ty && ty + 1 < self.y) {
                proof {
                    assert(b is Absorbing);
                    assert(!interior(w, h, tx as int, ty as int));
                    lemma_tracks_pop(gs, g, g, w, h, b, s, st);
                    absorbed = absorbed + val;
                }
            } else {
                let c = toodee_get(&self.cells, tx, ty) + val;
                self.put(tx, ty, c);
                proof {
                    assert(!(b is Absorbing && !interior(w, h, tx as int, ty as int)));
                    lemma_tracks_pop(gs, g, self.grains(), w, h, b, s, st);
                }
            }
        }
        proof {
            lemma_tracks_done(gs, self.grains(), w, h, b, s);
        }
        (left, completed)
    }

    /// `CALLS_PER_CELL` calls for each cell, capped at `usize::MAX`.
    pub(super) fn call_budget(&self) -> (r: usize)
        requires
            self.grid_ok(),
        ensures
            r == call_budget_for(self.width(), self.height()),
    {
        let cells = self.x * self.y;
        if cells <= usize::MAX / CALLS_PER_CELL {
            cells * CALLS_PER_CELL
        } else {
            usize::MAX
        }
    }

    /// Relaxes from every cell that may topple, row after row, the way recursive toppling does
    /// (see `relax_from`); on a torus with at most `CALLS_PER_CELL` calls per cell in all.
    /// Returns whether every call was made, and then the grid is stable.
    pub(super) fn relax_all(&mut self, torus: bool) -> (completed: bool)
        requires
            old(self).grid_ok(),
        ensures
            !torus ==> completed,
            torus ==> {
                let pass = torus_pass(
                    old(self).grains(),
                    old(self).width(),
                    old(self).height(),
                    call_budget_for(old(self).width(), old(self).height()),
                );
                &&& final(self).grains() == pass.0
                &&& completed == pass.1
                &&& final(self).steps() == sat_add(old(self).steps(), call_budget_for(old(self).width(), old(self).height()) - pass.2)
                &&& final(self).topples() == sat_add(old(self).topples(), pass.3 as int)
            },
            completed ==> stable(final(self).grains(), final(self).width(), final(self).height(), torus),
            final(self).grid_ok(),
            final(self).same_setup(old(self)),
            final(self).settled() == old(self).settled(),
            relaxes(old(self).grains(), final(self).grains(), old(self).width(), old(self).height(), recursive_boundary(torus)),
            total(final(self).grains()) <= total(old(self).grains()),
            torus ==> total(final(self).grains()) == total(old(self).grains()),
            final(self).steps() >= old(self).steps(),
            final(self).topples() >= old(self).topples(),
    {
        let ghost g0 = self.grains();
        let ghost (w, h) = (self.x as int, self.y as int);
        let ghost b = recursive_boundary(torus);
        proof {
            lemma_relaxes_refl(g0, w, h, b);
        }
        let mut left = self.call_budget();
        let mut stack: Vec<(usize, usize, usize)> = Vec::new();
        let mut completed = true;
        let ghost mut pass_fires: nat = 0;
        let mut y: usize = 0;
        while y < self.y
            invariant
                torus ==> (self.grains(), completed, left as nat, pass_fires) == pass_rows((g0, true, call_budget_for(w, h), 0nat), w, h, y as int),
                torus ==> self.steps() == sat_add(old(self).steps(), call_budget_for(w, h) - left) && self.topples() == sat_add(old(self).topples(), pass_fires as int),
                !torus ==> completed,
                completed ==> forall|a: int, c: int| #[trigger] can_fire(w, h, a, c, b) && c < y ==> cell(self.grains(), w, a, c) < 4,
                self.grid_ok(),
                self.same_setup(old(self)),
                self.settled() == old(self).settled(),
                w == self.width(),
                h == self.height(),
                b == recursive_boundary(torus),
                g0 == old(self).grains(),
                0 <= y <= h,
                stack@.len() == 0,
                relaxes(g0, self.grains(), w, h, b),
                total(self.grains()) <= total(g0),
                torus ==> total(self.grains()) == total(g0),
                self.steps() >= old(self).steps(),
                self.topples() >= old(self).topples(),
            decreases h - y,
        {
            let mut x: usize = 0;
            let ghost row_start = (self.grains(), completed, left as nat, pass_fires);
            while x < self.x
                invariant
                    torus ==> row_start == pass_rows((g0, true, call_budget_for(w, h), 0nat), w, h, y as int),
                    torus ==> (self.grains(), completed, left as nat, pass_fires) == pass_row(row_start, w, h, y as int, x as int),
                    torus ==> self.steps() == sat_add(old(self).steps(), call_budget_for(w, h) - left) && self.topples() == sat_add(old(self).topples(), pass_fires as int),
                    !torus ==> completed,
                    completed ==> forall|a: int, c: int| #[trigger] can_fire(w, h, a, c, b) && (c < y || (c == y && a < x)) ==> cell(
                        self.grains(),
                        w,
                        a,
                        c,
                    ) < 4,
                    self.grid_ok(),
                    self.same_setup(old(self)),
                    self.settled() == old(self).settled(),
                    w == self.width(),
                    h == self.height(),
                    b == recursive_boundary(torus),
                    g0 == old(self).grains(),
                    0 <= y < h,
                    0 <= x <= w,
                    stack@.len() == 0,
                    relaxes(g0, self.grains(), w, h, b),
                    total(self.grains()) <= total(g0),
                    torus ==> total(self.grains()) == total(g0),
                    self.steps() >= old(self).steps(),
                    self.topples() >= old(self).topples(),
                decreases w - x,
            {
                if torus || (1 <= x && x + 1 < self.x && 1 <= y && y + 1 < self.y) {
                    let ghost g = self.grains();
                    proof {
                        lemma_inject_zero(g, w, h, x as int, y as int, b);
                    }
                    let ghost run = torus_run(g, Seq::<(usize, usize, usize)>::empty().push((0usize, x, y)), w, h, left as nat);
                    let (rest, done) = self.relax_from(0, x, y, torus, left, &mut stack);
                    left = rest;
                    proof {
                        if torus {
                            pass_fires = pass_fires + run.3;
                        }
                        lemma_relaxes_trans(g0, g, self.grains(), w, h, b);
                        if completed && done {
                            assert(can_fire(w, h, x as int, y as int, b));
                            assert forall|a: int, c: int| #[trigger] can_fire(w, h, a, c, b) && (c < y || (c == y && a < x + 1)) implies cell(
                                self.grains(),
                                w,
                                a,
                                c,
                            ) < 4 by {
                                if cell(self.grains(), w, a, c) >= 4 {
                                    assert(cell(self.grains(), w, a, c) == cell(g, w, a, c));
                                }
                            }
                        }
                    }
                    completed = completed && done;
                }
                proof {
                    if completed {
                        assert forall|a: int, c: int| #[trigger] can_fire(w, h, a, c, b) && (c < y || (c == y && a < x + 1)) implies cell(
                            self.grains(),
                            w,
                            a,
                            c,
                        ) < 4 by {
                            if c == y && a == x {
                                assert(can_fire(w, h, x as int, y as int, b));
                            }
                        }
                    }
                }
                x = x + 1;
            }
            y = y + 1;
        }
        proof {
            if completed {
                assert forall|a: int, c: int| visited(w, h, a, c, torus) implies #[trigger] cell(self.grains(), w, a, c) < 4 by {
                    assert(can_fire(w, h, a, c, b));
                }
            }
        }
        completed
    }

    /// Checks a coordinate and caps an injection so that the total stays within `usize::MAX`.
    pub(super) fn injection(&self, value: usize, x: usize, y: usize) -> (r: Result<usize, GridError>)
        requires
            self.wf(),
        ensures
            !in_grid(self.width(), self.height(), x as int, y as int) ==> r == Err::<usize, GridError>(GridError::OutOfBounds),
            in_grid(self.width(), self.height(), x as int, y as int) ==> r == Ok::<usize, GridError>(
                (if value <= usize::MAX - total(self.grains()) { value as int } else { usize::MAX - total(self.grains()) }) as usize,
            ),
    {
        if x >= self.x || y >= self.y {
            return Err(GridError::OutOfBounds);
        }
        let room = usize::MAX - self.mass;
        Ok(if value <= room { value } else { room })
    }

    /// Adds `value` grains to `(x, y)` and relaxes recursively on a bounded grid: a cell
    /// holding four grains or more sends `count / 4` to each neighbour, neighbours that are
    /// interior relax in turn, and grains sent to the outer ring vanish. The grains added
    /// vanish as well when `(x, y)` is on the outer ring. The addition saturates so that the
    /// total stays within `usize::MAX`. The avalanche always ends, leaving `(x, y)` and every
    /// cell it reached stable; the result, the calls counted in `num_steps` and the topples
    /// are those of `bounded_run`. From the outer ring it is one call that changes nothing.
    /// Afterwards the stability flag tells whether the grid is stable under the current mode.
    pub fn topple(&mut self, value: usize, x: usize, y: usize) -> (r: Result<(), GridError>)
        requires
            old(self).wf(),
        ensures
            final(self).wf(),
            final(self).same_setup(old(self)),
            !in_grid(old(self).width(), old(self).height(), x as int, y as int) ==> {
                &&& r == Err::<(), GridError>(GridError::OutOfBounds)
                &&& final(self).grains() == old(self).grains()
                &&& final(self).settled() == old(self).settled()
                &&& final(self).steps() == old(self).steps()
                &&& final(self).topples() == old(self).topples()
            },
            in_grid(old(self).width(), old(self).height(), x as int, y as int) ==> {
                let added = capped(value as int, total(old(self).grains()));
                &&& r is Ok
                &&& !interior(old(self).width(), old(self).height(), x as int, y as int) ==> {
                    &&& final(self).grains() == old(self).grains()
                    &&& final(self).settled() == old(self).settled()
                    &&& final(self).steps() == sat_add(old(self).steps(), 1)
                    &&& final(self).topples() == old(self).topples()
                }
                &&& interior(old(self).width(), old(self).height(), x as int, y as int) ==> exists|k: nat| {
                    let run = #[trigger] bounded_run(
                        old(self).grains(),
                        Seq::<(usize, usize, usize)>::empty().push((added as usize, x, y)),
                        old(self).width(),
                        old(self).height(),
                        k,
                    );
                    &&& run.1
                    &&& final(self).grains() == run.0
                    &&& final(self).steps() == sat_add(old(self).steps(), k as int)
                    &&& final(self).topples() == sat_add(old(self).topples(), run.3 as int)
                }
                &&& quiet_after(
                    old(self).grains(),
                    final(self).grains(),
                    old(self).width(),
                    old(self).height(),
                    Boundary::Absorbing,
                    x as int,
                    y as int,
                )
                &&& relaxes(
                    inject(old(self).grains(), old(self).width(), old(self).height(), x as int, y as int, added, Boundary::Absorbing),
                    final(self).grains(),
                    old(self).width(),
                    old(self).height(),
                    Boundary::Absorbing,
                )
                &&& total(final(self).grains()) <= total(old(self).grains()) + added
                &&& ring_gains(old(self).grains(), final(self).grains(), old(self).width(), old(self).height())
                &&& interior_total(final(self).grains(), old(self).width(), old(self).height()) <= interior_total(
                    old(self).grains(),
                    old(self).width(),
                    old(self).height(),
                ) + added
                &&& interior(old(self).width(), old(self).height(), x as int, y as int) ==> final(self).settled() == stable(final(self).grains(), final(self).width(), final(self).height(), mode_wraps(final(self).mode()))
                &&& final(self).steps() >= old(self).steps()
                &&& final(self).topples() >= old(self).topples()
            },
    {
        let added = match self.injection(value, x, y) {
            Ok(v) => v,
            Err(e) => return Err(e),
        };
        if !(1 <= x && x + 1 < self.x && 1 <= y && y + 1 < self.y) {
            // the outer ring absorbs the grains: one call, nothing moves
            self.num_steps = self.num_steps.saturating_add(1);
            proof {
                lemma_relaxes_refl(self.grains(), self.x as int, self.y as int, Boundary::Absorbing);
                assert(inject(self.grains(), self.x as int, self.y as int, x as int, y as int, added as int, Boundary::Absorbing) == self.grains());
            }
            proof {
                assert(ring_gains(self.grains(), self.grains(), self.x as int, self.y as int));
                lemma_interior_total_falls(self.grains(), self.grains(), self.x as int, self.y as int, added as int);
            }
            return Ok(());
        }
        self.is_completely_toppled = false;
        let mut stack: Vec<(usize, usize, usize)> = Vec::new();
        let ghost g0 = self.grains();
        let _ = self.relax_from(added, x, y, false, 0, &mut stack);
        proof {
            lemma_absorbing_keeps_ring(g0, self.grains(), self.x as int, self.y as int, x as int, y as int, added as int);
            lemma_interior_total_falls(g0, self.grains(), self.x as int, self.y as int, added as int);
        }
        let torus_mode = self.mode == ToppleMode::ToroidalDeterministic || self.mode == ToppleMode::ToroidalProbabilistic;
        self.is_completely_toppled = self.is_stable(torus_mode);
        Ok(())
    }

    /// Adds `value` grains to `(x, y)` and relaxes recursively on a torus: a cell holding four
    /// grains or more sends `count / 4` to each neighbour, with wrap-around, and those relax
    /// in turn. No grain leaves the grid. The addition saturates so that the total stays
    /// within `usize::MAX`. At most `CALLS_PER_CELL` calls per cell are made (on a torus an
    /// avalanche need not end); the grains of calls not made yet are then added to their cells
    /// without toppling. The result, the calls and the topples are exactly those of `torus_run`
    /// with `call_budget_for` calls. Returns whether every call was made; then `(x, y)` and
    /// every cell reached end stable. Afterwards the stability flag tells whether the grid is
    /// stable as a torus.
    pub fn topple_torus(&mut self, value: usize, x: usize, y: usize) -> (r: Result<bool, GridError>)
        requires
            old(self).wf(),
        ensures
            final(self).wf(),
            final(self).same_setup(old(self)),
            !in_grid(old(self).width(), old(self).height(), x as int, y as int) ==> {
                &&& r == Err::<bool, GridError>(GridError::OutOfBounds)
                &&& final(self).grains() == old(self).grains()
                &&& final(self).settled() == old(self).settled()
                &&& final(self).steps() == old(self).steps()
                &&& final(self).topples() == old(self).topples()
            },
            in_grid(old(self).width(), old(self).height(), x as int, y as int) ==> {
                let added = capped(value as int, total(old(self).grains()));
                let run = torus_run(
                    old(self).grains(),
                    Seq::<(usize, usize, usize)>::empty().push((added as usize, x, y)),
                    old(self).width(),
                    old(self).height(),
                    call_budget_for(old(self).width(), old(self).height()),
                );
                &&& r is Ok
                &&& final(self).grains() == run.0
                &&& (r == Ok::<bool, GridError>(true)) == run.1
                &&& final(self).steps() == sat_add(old(self).steps(), call_budget_for(old(self).width(), old(self).height()) - run.2)
                &&& final(self).topples() == sat_add(old(self).topples(), run.3 as int)
                &&& r == Ok::<bool, GridError>(true) ==> quiet_after(
                    old(self).grains(),
                    final(self).grains(),
                    old(self).width(),
                    old(self).height(),
                    Boundary::Wrapping,
                    x as int,
                    y as int,
                )
                &&& relaxes(
                    inject(old(self).grains(), old(self).width(), old(self).height(), x as int, y as int, added, Boundary::Wrapping),
                    final(self).grains(),
                    old(self).width(),
                    old(self).height(),
                    Boundary::Wrapping,
                )
                &&& total(final(self).grains()) == total(old(self).grains()) + added
                &&& final(self).settled() == stable(final(self).grains(), final(self).width(), final(self).height(), true)
                &&& final(self).steps() >= old(self).steps()
                &&& final(self).topples() >= old(self).topples()
            },
    {
        let added = match self.injection(value, x, y) {
            Ok(v) => v,
            Err(e) => return Err(e),
        };
        self.is_completely_toppled = false;
        let mut stack: Vec<(usize, usize, usize)> = Vec::new();
        let (_, completed) = self.relax_from(added, x, y, true, self.call_budget(), &mut stack);
        let settled = self.is_stable(true);
        proof {
            if settled {
                lemma_stable_wraps(self.grains(), self.x as int, self.y as int, mode_wraps(self.mode));
            }
        }
        self.is_completely_toppled = settled;
        Ok(completed)
    }

}

} // verus!
