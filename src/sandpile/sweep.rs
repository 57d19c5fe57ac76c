//! Sweeps: one row-major pass over the grid, deterministic or random.
use super::{sweep_hits, GridError, hits_of, mode_wraps, moves_grain, PROBABILITY_SCALE, Sandpile, sat_add, ToppleMode};
use crate::cells::toodee_get;
use crate::ring::{interior_total, lemma_bounded_sweeps_feed_ring, lemma_interior_total_falls, ring_gains};
use crate::relax::{Boundary, lemma_stable_is_fixed, lemma_sweep_relaxes, relaxes, sweep_boundary};
use crate::model::{lemma_random_row_skip, lemma_random_rows_skip, random_row, random_rows, random_sweep, visit_index, lemma_stable_wraps, cell, fire, hit_count, idx, in_grid, interior, lemma_fire, lemma_idx, lemma_row_skip, lemma_rows_skip, lemma_total_ge, next, prev, row_fires, rows_fires, scatter, settle, stable, sweep, sweep_fires, sweep_row, sweep_rows, sweep_visits, THRESHOLD, total, visited};
use vstd::prelude::*;

verus! {

impl Sandpile {
    /// Fires `(x, y)` `m` times: it gives up `4 * m` grains and each wrapped neighbour
    /// receives `m`.
    pub(super) fn fire_at(&mut self, x: usize, y: usize, m: usize)
        requires
            old(self).grid_ok(),
            x < old(self).width(),
            y < old(self).height(),
            4 * m <= old(self).at(x as int, y as int),
        ensures
            final(self).grid_ok(),
            final(self).grains() == fire(old(self).grains(), old(self).width(), old(self).height(), x as int, y as int, m as int),
            final(self).same_setup(old(self)),
            final(self).settled() == old(self).settled(),
            final(self).steps() == old(self).steps(),
            final(self).topples() == old(self).topples(),
    {
        let ghost g = self.grains();
        let ghost (w, h) = (self.x as int, self.y as int);
        proof {
            lemma_fire(g, w, h, x as int, y as int, m as int);
        }
        let c = toodee_get(&self.cells, x, y);
        self.put(x, y, c - 4 * m);
        let l = if x == 0 { self.x - 1 } else { x - 1 };
        let u = if y == 0 { self.y - 1 } else { y - 1 };
        let r = if x == self.x - 1 { 0 } else { x + 1 };
        let d = if y == self.y - 1 { 0 } else { y + 1 };
        proof {
            lemma_idx(w, h, l as int, y as int);
            lemma_total_ge(self.grains(), idx(w, l as int, y as int));
        }
        let v = toodee_get(&self.cells, l, y);
        self.put(l, y, v + m);
        proof {
            lemma_idx(w, h, x as int, u as int);
            lemma_total_ge(self.grains(), idx(w, x as int, u as int));
        }
        let v = toodee_get(&self.cells, x, u);
        self.put(x, u, v + m);
        proof {
            lemma_idx(w, h, r as int, y as int);
            lemma_total_ge(self.grains(), idx(w, r as int, y as int));
        }
        let v = toodee_get(&self.cells, r, y);
        self.put(r, y, v + m);
        proof {
            lemma_idx(w, h, x as int, d as int);
            lemma_total_ge(self.grains(), idx(w, x as int, d as int));
        }
        let v = toodee_get(&self.cells, x, d);
        self.put(x, d, v + m);
    }

    /// Topples `(x, y)` fully if it holds `THRESHOLD` grains or more. Interior cells of a
    /// bounded grid take a cheaper path below eight grains, which fires exactly once.
    pub(super) fn visit_cell(&mut self, x: usize, y: usize, torus: bool) -> (fired: bool)
        requires
            old(self).grid_ok(),
            visited(old(self).width(), old(self).height(), x as int, y as int, torus),
        ensures
            final(self).grid_ok(),
            final(self).grains() == settle(old(self).grains(), old(self).width(), old(self).height(), x as int, y as int),
            fired == (old(self).at(x as int, y as int) >= 4),
            final(self).same_setup(old(self)),
            final(self).settled() == old(self).settled(),
            final(self).steps() == old(self).steps(),
            final(self).topples() == old(self).topples(),
    {
        let ghost g = self.grains();
        let ghost (w, h) = (self.x as int, self.y as int);
        proof {
            lemma_idx(w, h, x as int, y as int);
        }
        let c = toodee_get(&self.cells, x, y);
        if torus {
            if c >= THRESHOLD {
                self.fire_at(x, y, c / 4);
                return true;
            }
            return false;
        }
        let mut fired = false;
        if c >= 8 {
            let multiples = c / 4;
            self.fire_at(x, y, multiples);
            proof {
                lemma_fire(g, w, h, x as int, y as int, multiples as int);
                assert(in_grid(w, h, x as int, y as int));
                assert(interior(w, h, x as int, y as int));
                assert(crate::model::hits(w, h, x as int, y as int, x as int, y as int) == 0);
                assert(self.at(x as int, y as int) == c - 4 * multiples);
            }
            fired = true;
        }
        let c2 = toodee_get(&self.cells, x, y);
        if c2 > 3 && c2 < 8 {
            self.fire_at(x, y, 1);
            fired = true;
            assert(c / 4 == 1);
        }
        fired
    }

    /// One deterministic row-major sweep: each visited cell is toppled fully, reading the
    /// counts that the cells before it left.
    pub(super) fn sweep_exact(&mut self, torus: bool)
        requires
            old(self).grid_ok(),
        ensures
            final(self).grid_ok(),
            final(self).grains() == sweep(old(self).grains(), old(self).width(), old(self).height(), torus),
            final(self).same_setup(old(self)),
            final(self).settled() == old(self).settled(),
            final(self).steps() == sat_add(old(self).steps(), sweep_visits(old(self).width(), old(self).height(), torus)),
            final(self).topples() == sat_add(
                old(self).topples(),
                sweep_fires(old(self).grains(), old(self).width(), old(self).height(), torus) as int,
            ),
    {
        let ghost g0 = self.grains();
        let ghost (w, h) = (self.x as int, self.y as int);
        let (x_lo, x_hi, y_lo, y_hi) = if torus {
            (0, self.x, 0, self.y)
        } else if self.x >= 3 && self.y >= 3 {
            (1, self.x - 1, 1, self.y - 1)
        } else {
            (0, 0, 0, 0)
        };
        proof {
            lemma_rows_skip(g0, w, h, 0, y_lo as int, torus);
            if torus {
                assert(w * h == (h - 0) * (w - 0)) by (nonlinear_arith);
            } else if w >= 3 && h >= 3 {
                assert((w - 2) * (h - 2) == (h - 1 - 1) * (w - 1 - 1)) by (nonlinear_arith);
            }
        }
        let mut y = y_lo;
        while y < y_hi
            invariant
                self.grid_ok(),
                self.same_setup(old(self)),
                self.settled() == old(self).settled(),
                w == self.width(),
                h == self.height(),
                g0 == old(self).grains(),
                x_lo <= x_hi <= w,
                y_lo <= y <= y_hi <= h,
                forall|a: int, b: int| #[trigger] visited(w, h, a, b, torus) ==> x_lo <= a < x_hi && y_lo <= b < y_hi,
                torus ==> x_lo == 0 && x_hi == w && y_lo == 0 && y_hi == h,
                !torus ==> (x_lo == 0 && x_hi == 0 && y_lo == 0 && y_hi == 0) || (x_lo == 1 && x_hi == w - 1 && y_lo == 1
                    && y_hi == h - 1),
                sweep_visits(w, h, torus) == (y_hi - y_lo) * (x_hi - x_lo),
                self.grains() == sweep_rows(g0, w, h, y as int, torus),
                self.topples() == sat_add(old(self).topples(), rows_fires(g0, w, h, y as int, torus) as int),
                self.steps() == sat_add(old(self).steps(), (y - y_lo) * (x_hi - x_lo)),
            decreases y_hi - y,
        {
            let ghost gr = self.grains();
            proof {
                lemma_row_skip(gr, w, h, y as int, 0, x_lo as int, torus);
            }
            let mut x = x_lo;
            while x < x_hi
                invariant
                    self.grid_ok(),
                    self.same_setup(old(self)),
                    self.settled() == old(self).settled(),
                    w == self.width(),
                    h == self.height(),
                    x_lo <= x <= x_hi <= w,
                    y_lo <= y < y_hi <= h,
                    forall|a: int, b: int| #[trigger] visited(w, h, a, b, torus) ==> x_lo <= a < x_hi && y_lo <= b < y_hi,
                    torus ==> x_lo == 0 && x_hi == w && y_lo == 0 && y_hi == h,
                    !torus ==> (x_lo == 0 && x_hi == 0 && y_lo == 0 && y_hi == 0) || (x_lo == 1 && x_hi == w - 1 && y_lo
                        == 1 && y_hi == h - 1),
                    self.grains() == sweep_row(gr, w, h, y as int, x as int, torus),
                    self.topples() == sat_add(
                        old(self).topples(),
                        (rows_fires(g0, w, h, y as int, torus) + row_fires(gr, w, h, y as int, x as int, torus)) as int,
                    ),
                    self.steps() == sat_add(old(self).steps(), (y - y_lo) * (x_hi - x_lo) + (x - x_lo)),
                decreases x_hi - x,
            {
                let fired = self.visit_cell(x, y, torus);
                if fired {
                    self.num_topples = self.num_topples.saturating_add(1);
                }
                self.num_steps = self.num_steps.saturating_add(1);
                x = x + 1;
            }
            proof {
                lemma_row_skip(gr, w, h, y as int, x_hi as int, w, torus);
                assert((y + 1 - y_lo) * (x_hi - x_lo) == (y - y_lo) * (x_hi - x_lo) + (x_hi - x_lo)) by (nonlinear_arith);
            }
            y = y + 1;
        }
        proof {
            lemma_rows_skip(g0, w, h, y_hi as int, h, torus);
        }
    }

    /// Adds one grain to `(x, y)`.
    pub(super) fn add_one(&mut self, x: usize, y: usize)
        requires
            old(self).grid_ok(),
            x < old(self).width(),
            y < old(self).height(),
            total(old(self).grains()) < usize::MAX,
        ensures
            final(self).grid_ok(),
            final(self).grains() == crate::model::add_to(old(self).grains(), idx(old(self).width(), x as int, y as int), 1),
            total(final(self).grains()) == total(old(self).grains()) + 1,
            final(self).same_setup(old(self)),
            final(self).settled() == old(self).settled(),
            final(self).steps() == old(self).steps(),
            final(self).topples() == old(self).topples(),
    {
        proof {
            lemma_idx(self.x as int, self.y as int, x as int, y as int);
            lemma_total_ge(self.grains(), idx(self.x as int, x as int, y as int));
        }
        let v = toodee_get(&self.cells, x, y);
        self.put(x, y, v + 1);
    }

    /// Whether `draw` moves a grain at probability `p` millionths.
    pub(super) fn move_grain(p: u32, draw: u32) -> (r: bool)
        ensures
            r == moves_grain(p as int, draw),
    {
        assert((draw as u64) * (PROBABILITY_SCALE as u64) <= 0xffff_ffffu64 * 1_000_000u64) by (nonlinear_arith)
            requires
                draw <= 0xffff_ffffu32,
        ;
        assert((p as u64) * 0x1_0000_0000u64 <= 0xffff_ffffu64 * 0x1_0000_0000u64) by (nonlinear_arith)
            requires
                p <= 0xffff_ffffu32,
        ;
        (draw as u64) * (PROBABILITY_SCALE as u64) < (p as u64) * 0x1_0000_0000u64
    }

    /// If `(x, y)` holds `THRESHOLD` grains or more, moves one grain towards each neighbour
    /// that its draw opens; returns how many moved.
    #[verifier::rlimit(40)]
    pub(super) fn scatter_cell(&mut self, x: usize, y: usize, draws: [u32; 4]) -> (moved: usize)
        requires
            old(self).grid_ok(),
            x < old(self).width(),
            y < old(self).height(),
        ensures
            final(self).grid_ok(),
            old(self).at(x as int, y as int) >= 4 ==> final(self).grains() == scatter(
                old(self).grains(),
                old(self).width(),
                old(self).height(),
                x as int,
                y as int,
                hits_of(old(self).probability(), draws@),
            ),
            old(self).at(x as int, y as int) >= 4 ==> moved == hit_count(hits_of(old(self).probability(), draws@)),
            old(self).at(x as int, y as int) < 4 ==> final(self).grains() == old(self).grains() && moved == 0,
            moved <= 4,
            total(final(self).grains()) == total(old(self).grains()),
            final(self).same_setup(old(self)),
            final(self).settled() == old(self).settled(),
            final(self).steps() == old(self).steps(),
            final(self).topples() == old(self).topples(),
    {
        proof {
            lemma_idx(self.x as int, self.y as int, x as int, y as int);
        }
        let c = toodee_get(&self.cells, x, y);
        if c < THRESHOLD {
            return 0;
        }
        let p = self.probability_to_topple;
        let h0 = Self::move_grain(p, draws[0]);
        let h1 = Self::move_grain(p, draws[1]);
        let h2 = Self::move_grain(p, draws[2]);
        let h3 = Self::move_grain(p, draws[3]);
        let ghost hit = hits_of(p as int, draws@);
        assert(hit[0] == h0 && hit[1] == h1 && hit[2] == h2 && hit[3] == h3);
        let moved: usize = (if h0 { 1 } else { 0 }) + (if h1 { 1 } else { 0 }) + (if h2 { 1 } else { 0 }) + (if h3 { 1 } else { 0 });
        let ghost g = self.grains();
        let ghost (w, h) = (self.x as int, self.y as int);
        proof {
            lemma_total_ge(self.grains(), idx(self.x as int, x as int, y as int));
        }
        self.put(x, y, c - moved);
        let l = if x == 0 { self.x - 1 } else { x - 1 };
        let u = if y == 0 { self.y - 1 } else { y - 1 };
        let r = if x == self.x - 1 { 0 } else { x + 1 };
        let d = if y == self.y - 1 { 0 } else { y + 1 };
        assert(l == prev(x as int, w) && u == prev(y as int, h) && r == next(x as int, w) && d == next(y as int, h));
        let ghost g1 = self.grains();
        if h0 {
            self.add_one(l, y);
        }
        let ghost g2 = self.grains();
        assert(g2 == if hit[0] { crate::model::add_to(g1, idx(w, prev(x as int, w), y as int), 1) } else { g1 });
        assert(total(g2) == total(g) - moved + (if h0 { 1int } else { 0 }));
        if h1 {
            self.add_one(x, u);
        }
        let ghost g3 = self.grains();
        assert(g3 == if hit[1] { crate::model::add_to(g2, idx(w, x as int, prev(y as int, h)), 1) } else { g2 });
        assert(total(g3) == total(g) - moved + (if h0 { 1int } else { 0 }) + (if h1 { 1int } else { 0 }));
        if h2 {
            self.add_one(r, y);
        }
        let ghost g4 = self.grains();
        assert(g4 == if hit[2] { crate::model::add_to(g3, idx(w, next(x as int, w), y as int), 1) } else { g3 });
        assert(total(g4) == total(g) - moved + (if h0 { 1int } else { 0 }) + (if h1 { 1int } else { 0 }) + (if h2 { 1int } else { 0 }));
        if h3 {
            self.add_one(x, d);
        }
        assert(self.grains() == if hit[3] { crate::model::add_to(g4, idx(w, x as int, next(y as int, h)), 1) } else { g4 });
        moved
    }

    /// Whether no cell that `torus` lets topple holds `THRESHOLD` grains or more.
    pub(super) fn is_stable(&self, torus: bool) -> (r: bool)
        requires
            self.grid_ok(),
        ensures
            r == stable(self.grains(), self.width(), self.height(), torus),
    {
        let ghost (w, h) = (self.x as int, self.y as int);
        let mut y: usize = 0;
        while y < self.y
            invariant
                self.grid_ok(),
                w == self.width(),
                h == self.height(),
                0 <= y <= h,
                forall|a: int, b: int| #[trigger] visited(w, h, a, b, torus) && b < y ==> cell(self.grains(), w, a, b) < 4,
            decreases h - y,
        {
            let mut x: usize = 0;
            while x < self.x
                invariant
                    self.grid_ok(),
                    w == self.width(),
                    h == self.height(),
                    0 <= y < h,
                    0 <= x <= w,
                    forall|a: int, b: int| #[trigger] visited(w, h, a, b, torus) && (b < y || (b == y && a < x)) ==> cell(
                        self.grains(),
                        w,
                        a,
                        b,
                    ) < 4,
                decreases w - x,
            {
                let counts = torus || (1 <= x && x + 1 < self.x && 1 <= y && y + 1 < self.y);
                if counts {
                    proof {
                        lemma_idx(w, h, x as int, y as int);
                    }
                    if toodee_get(&self.cells, x, y) >= THRESHOLD {
                        assert(visited(w, h, x as int, y as int, torus));
                        assert(cell(self.grains(), w, x as int, y as int) >= 4);
                        return false;
                    }
                }
                x = x + 1;
            }
            y = y + 1;
        }
        true
    }

    /// One random row-major sweep with its draws given: the `k`-th visited cell, if it holds
    /// four grains or more, sends one grain towards each neighbour (left, up, right, down)
    /// whose entry of `draws[k]` succeeds at the current probability, and loses as many.
    /// Cells are visited as by `topple_sandpile` (`torus` false) or `topple_torus_naive`
    /// (`torus` true); each reads the counts that the visits before it left. The total is
    /// kept, the stability flag is left as it is, and `num_steps` counts the visits.
    pub(super) fn scatter_pass(&mut self, torus: bool, draws: &Vec<[u32; 4]>)
        requires
            old(self).grid_ok(),
            draws@.len() >= sweep_visits(old(self).width(), old(self).height(), torus),
        ensures
            final(self).grid_ok(),
            final(self).grains() == random_sweep(
                old(self).grains(),
                old(self).width(),
                old(self).height(),
                torus,
                sweep_hits(old(self).probability(), draws@),
            ),
            total(final(self).grains()) == total(old(self).grains()),
            stable(old(self).grains(), old(self).width(), old(self).height(), torus) ==> final(self).grains() == old(
                self,
            ).grains(),
            final(self).same_setup(old(self)),
            final(self).settled() == old(self).settled(),
            final(self).steps() == sat_add(old(self).steps(), sweep_visits(old(self).width(), old(self).height(), torus)),
            final(self).topples() >= old(self).topples(),
    {
        let ghost g0 = self.grains();
        let ghost (w, h) = (self.x as int, self.y as int);
        let ghost hits = sweep_hits(self.probability(), draws@);
        let (x_lo, x_hi, y_lo, y_hi) = if torus {
            (0, self.x, 0, self.y)
        } else if self.x >= 3 && self.y >= 3 {
            (1, self.x - 1, 1, self.y - 1)
        } else {
            (0, 0, 0, 0)
        };
        proof {
            lemma_random_rows_skip(g0, w, h, 0, y_lo as int, torus, hits);
            if torus {
                assert(w * h == (h - 0) * (w - 0)) by (nonlinear_arith);
            } else if w >= 3 && h >= 3 {
                assert((w - 2) * (h - 2) == (h - 1 - 1) * (w - 1 - 1)) by (nonlinear_arith);
            }
        }
        let n = draws.len();
        let mut k: usize = 0;
        let mut y = y_lo;
        while y < y_hi
            invariant
                self.grid_ok(),
                self.same_setup(old(self)),
                self.settled() == old(self).settled(),
                w == self.width(),
                h == self.height(),
                g0 == old(self).grains(),
                hits == sweep_hits(self.probability(), draws@),
                draws@.len() >= sweep_visits(w, h, torus),
                n == draws@.len(),
                x_lo <= x_hi <= w,
                y_lo <= y <= y_hi <= h,
                forall|a: int, b: int| #[trigger] visited(w, h, a, b, torus) ==> x_lo <= a < x_hi && y_lo <= b < y_hi,
                torus ==> x_lo == 0 && x_hi == w && y_lo == 0 && y_hi == h,
                !torus ==> (x_lo == 0 && x_hi == 0 && y_lo == 0 && y_hi == 0) || (x_lo == 1 && x_hi == w - 1 && y_lo == 1
                    && y_hi == h - 1),
                sweep_visits(w, h, torus) == (y_hi - y_lo) * (x_hi - x_lo),
                k == (y - y_lo) * (x_hi - x_lo),
                self.grains() == random_rows(g0, w, h, y as int, torus, hits),
                total(self.grains()) == total(g0),
                stable(g0, w, h, torus) ==> self.grains() == g0,
                self.topples() >= old(self).topples(),
                self.steps() == sat_add(old(self).steps(), k as int),
            decreases y_hi - y,
        {
            let ghost gr = self.grains();
            proof {
                lemma_random_row_skip(gr, w, h, y as int, 0, x_lo as int, torus, hits);
            }
            let mut x = x_lo;
            while x < x_hi
                invariant
                    self.grid_ok(),
                    self.same_setup(old(self)),
                    self.settled() == old(self).settled(),
                    w == self.width(),
                    h == self.height(),
                    hits == sweep_hits(self.probability(), draws@),
                    draws@.len() >= sweep_visits(w, h, torus),
                    n == draws@.len(),
                    x_lo <= x <= x_hi <= w,
                    y_lo <= y < y_hi <= h,
                    torus ==> x_lo == 0 && x_hi == w && y_lo == 0 && y_hi == h,
                    !torus ==> (x_lo == 0 && x_hi == 0 && y_lo == 0 && y_hi == 0) || (x_lo == 1 && x_hi == w - 1 && y_lo
                        == 1 && y_hi == h - 1),
                    sweep_visits(w, h, torus) == (y_hi - y_lo) * (x_hi - x_lo),
                    k == (y - y_lo) * (x_hi - x_lo) + (x - x_lo),
                    self.grains() == random_row(gr, w, h, y as int, x as int, torus, hits),
                    total(self.grains()) == total(g0),
                    stable(g0, w, h, torus) ==> self.grains() == g0,
                    self.topples() >= old(self).topples(),
                    self.steps() == sat_add(old(self).steps(), k as int),
                decreases x_hi - x,
            {
                proof {
                    lemma_idx(w, h, x as int, y as int);
                    assert(visited(w, h, x as int, y as int, torus));
                    assert(k == visit_index(w, h, x as int, y as int, torus));
                    assert(k < draws@.len()) by (nonlinear_arith)
                        requires
                            k == (y - y_lo) * (x_hi - x_lo) + (x - x_lo),
                            y_lo <= y < y_hi,
                            x_lo <= x < x_hi,
                            draws@.len() >= (y_hi - y_lo) * (x_hi - x_lo),
                    ;
                }
                let c = toodee_get(&self.cells, x, y);
                if c >= THRESHOLD {
                    self.scatter_cell(x, y, draws[k]);
                    self.num_topples = self.num_topples.saturating_add(1);
                }
                self.num_steps = self.num_steps.saturating_add(1);
                k = k + 1;
                x = x + 1;
            }
            proof {
                lemma_random_row_skip(gr, w, h, y as int, x_hi as int, w, torus, hits);
                assert((y + 1 - y_lo) * (x_hi - x_lo) == (y - y_lo) * (x_hi - x_lo) + (x_hi - x_lo)) by (nonlinear_arith);
            }
            y = y + 1;
        }
        proof {
            lemma_random_rows_skip(g0, w, h, y_hi as int, h, torus, hits);
        }
    }

    /// One random row-major sweep: fills the grid's draw buffer with four numbers for every
    /// cell the sweep visits and runs `scatter_pass` on it. Nothing is allocated.
    pub(super) fn sweep_random(&mut self, torus: bool)
        requires
            old(self).grid_ok(),
            old(self).draw_room() == old(self).width() * old(self).height(),
        ensures
            final(self).grid_ok(),
            exists|draws: Seq<[u32; 4]>| #[trigger] draws.len() >= sweep_visits(old(self).width(), old(self).height(), torus)
                && final(self).grains() == random_sweep(
                old(self).grains(),
                old(self).width(),
                old(self).height(),
                torus,
                sweep_hits(old(self).probability(), draws),
            ),
            total(final(self).grains()) == total(old(self).grains()),
            stable(old(self).grains(), old(self).width(), old(self).height(), torus) ==> final(self).grains() == old(
                self,
            ).grains(),
            final(self).same_setup(old(self)),
            final(self).settled() == old(self).settled(),
            final(self).steps() == sat_add(old(self).steps(), sweep_visits(old(self).width(), old(self).height(), torus)),
            final(self).topples() >= old(self).topples(),
    {
        let n: usize = if torus {
            self.x * self.y
        } else if self.x >= 3 && self.y >= 3 {
            proof {
                assert((self.x - 2) * (self.y - 2) <= self.x * self.y) by (nonlinear_arith)
                    requires
                        self.x >= 3,
                        self.y >= 3,
                ;
            }
            (self.x - 2) * (self.y - 2)
        } else {
            0
        };
        let mut draws: Vec<[u32; 4]> = Vec::new();
        core::mem::swap(&mut draws, &mut self.draws);
        let ghost room = draws@.len();
        let mut i: usize = 0;
        while i < n
            invariant
                draws@.len() == room,
                n <= room,
                i <= n,
            decreases n - i,
        {
            draws[i] = [rand::random::<u32>(), rand::random::<u32>(), rand::random::<u32>(), rand::random::<u32>()];
            i = i + 1;
        }
        self.scatter_pass(torus, &draws);
        core::mem::swap(&mut draws, &mut self.draws);
    }

    /// One sweep of the given topology: deterministic at probability one, random below it.
    /// Afterwards the stability flag tells whether the grid is stable under the current mode.
    pub(super) fn sweep_step(&mut self, torus: bool)
        requires
            old(self).wf(),
        ensures
            final(self).wf(),
            final(self).same_setup(old(self)),
            total(final(self).grains()) == total(old(self).grains()),
            !torus ==> ring_gains(old(self).grains(), final(self).grains(), old(self).width(), old(self).height()),
            old(self).probability() == PROBABILITY_SCALE ==> {
                &&& final(self).grains() == sweep(old(self).grains(), old(self).width(), old(self).height(), torus)
                &&& relaxes(old(self).grains(), final(self).grains(), old(self).width(), old(self).height(), sweep_boundary(torus))
                &&& final(self).topples() == sat_add(
                    old(self).topples(),
                    sweep_fires(old(self).grains(), old(self).width(), old(self).height(), torus) as int,
                )
            },
            old(self).probability() < PROBABILITY_SCALE ==> exists|draws: Seq<[u32; 4]>| #[trigger] draws.len() >= sweep_visits(
                old(self).width(),
                old(self).height(),
                torus,
            ) && final(self).grains() == random_sweep(
                old(self).grains(),
                old(self).width(),
                old(self).height(),
                torus,
                sweep_hits(old(self).probability(), draws),
            ),
            stable(old(self).grains(), old(self).width(), old(self).height(), torus) ==> final(self).grains() == old(self).grains(),
            final(self).steps() == sat_add(old(self).steps(), sweep_visits(old(self).width(), old(self).height(), torus)),
            final(self).topples() >= old(self).topples(),
            final(self).settled() == stable(final(self).grains(), final(self).width(), final(self).height(), torus || mode_wraps(final(self).mode())),
    {
        let ghost g0 = self.grains();
        let ghost (w, h) = (self.x as int, self.y as int);
        if self.probability_to_topple == PROBABILITY_SCALE {
            self.sweep_exact(torus);
            proof {
                if !torus {
                    lemma_bounded_sweeps_feed_ring(g0, w, h, Seq::empty());
                }
                lemma_sweep_relaxes(g0, w, h, torus);
                if stable(g0, w, h, torus) {
                    lemma_stable_is_fixed(g0, self.grains(), w, h, sweep_boundary(torus));
                }
            }
        } else {
            self.sweep_random(torus);
            proof {
                if !torus {
                    let draws = choose|draws: Seq<[u32; 4]>| #[trigger] draws.len() >= sweep_visits(w, h, torus) && self.grains()
                        == random_sweep(g0, w, h, torus, sweep_hits(old(self).probability(), draws));
                    lemma_bounded_sweeps_feed_ring(g0, w, h, sweep_hits(old(self).probability(), draws));
                }
            }
        }
        let torus_mode = self.mode == ToppleMode::ToroidalDeterministic || self.mode == ToppleMode::ToroidalProbabilistic;
        let settled = self.is_stable(torus || torus_mode);
        proof {
            if settled && torus {
                lemma_stable_wraps(self.grains(), self.x as int, self.y as int, torus_mode);
            }
        }
        self.is_completely_toppled = settled;
    }

    /// One row-major sweep over the interior of a bounded grid; the outer ring collects the
    /// grains sent to it and never topples.
    ///
    /// At probability one each interior cell topples fully (`count / 4` grains to each
    /// neighbour), reading the counts that the cells before it left; the result is a
    /// relaxation of the grid. Below one, each interior cell holding `THRESHOLD` grains or more
    /// moves one grain towards each neighbour whose random draw succeeds: the result is
    /// `random_sweep` for some draws (see `scatter_sweep`). Either way the total is kept, the
    /// interior's total does not grow, the outer ring only gains, its corners do not change,
    /// and a stable interior is left as it is.
    pub fn topple_sandpile(&mut self)
        requires
            old(self).wf(),
        ensures
            final(self).wf(),
            final(self).same_setup(old(self)),
            total(final(self).grains()) == total(old(self).grains()),
            ring_gains(old(self).grains(), final(self).grains(), old(self).width(), old(self).height()),
            interior_total(final(self).grains(), final(self).width(), final(self).height()) <= interior_total(
                old(self).grains(),
                old(self).width(),
                old(self).height(),
            ),
            old(self).probability() == PROBABILITY_SCALE ==> {
                &&& final(self).grains() == sweep(old(self).grains(), old(self).width(), old(self).height(), false)
                &&& relaxes(old(self).grains(), final(self).grains(), old(self).width(), old(self).height(), Boundary::Collecting)
                &&& final(self).topples() == sat_add(
                    old(self).topples(),
                    sweep_fires(old(self).grains(), old(self).width(), old(self).height(), false) as int,
                )
            },
            old(self).probability() < PROBABILITY_SCALE ==> exists|draws: Seq<[u32; 4]>| #[trigger] draws.len() >= sweep_visits(
                old(self).width(),
                old(self).height(),
                false,
            ) && final(self).grains() == random_sweep(
                old(self).grains(),
                old(self).width(),
                old(self).height(),
                false,
                sweep_hits(old(self).probability(), draws),
            ),
            stable(old(self).grains(), old(self).width(), old(self).height(), false) ==> final(self).grains() == old(self).grains(),
            final(self).steps() == sat_add(old(self).steps(), sweep_visits(old(self).width(), old(self).height(), false)),
            final(self).topples() >= old(self).topples(),
            final(self).settled() == stable(final(self).grains(), final(self).width(), final(self).height(), mode_wraps(final(self).mode())),
    {
        let ghost g0 = self.grains();
        self.sweep_step(false);
        proof {
            lemma_interior_total_falls(g0, self.grains(), self.x as int, self.y as int, 0);
        }
    }

    /// One row-major sweep over every cell of a torus: neighbours wrap around and no grain
    /// leaves the grid.
    ///
    /// At probability one each cell topples fully, reading the counts that the cells before
    /// it left; the result is a relaxation of the grid. Below one, each cell holding
    /// `THRESHOLD` grains or more moves one grain towards each neighbour whose random draw
    /// succeeds: the result is `random_sweep` for some draws (see `scatter_sweep`). Either way
    /// the total is kept and a stable grid is left as it is. Afterwards the stability flag
    /// tells whether the grid is stable as a torus.
    pub fn topple_torus_naive(&mut self)
        requires
            old(self).wf(),
        ensures
            final(self).wf(),
            final(self).same_setup(old(self)),
            total(final(self).grains()) == total(old(self).grains()),
            old(self).probability() == PROBABILITY_SCALE ==> {
                &&& final(self).grains() == sweep(old(self).grains(), old(self).width(), old(self).height(), true)
                &&& relaxes(old(self).grains(), final(self).grains(), old(self).width(), old(self).height(), Boundary::Wrapping)
                &&& final(self).topples() == sat_add(
                    old(self).topples(),
                    sweep_fires(old(self).grains(), old(self).width(), old(self).height(), true) as int,
                )
            },
            old(self).probability() < PROBABILITY_SCALE ==> exists|draws: Seq<[u32; 4]>| #[trigger] draws.len() >= sweep_visits(
                old(self).width(),
                old(self).height(),
                true,
            ) && final(self).grains() == random_sweep(
                old(self).grains(),
                old(self).width(),
                old(self).height(),
                true,
                sweep_hits(old(self).probability(), draws),
            ),
            stable(old(self).grains(), old(self).width(), old(self).height(), true) ==> final(self).grains() == old(self).grains(),
            final(self).steps() == sat_add(old(self).steps(), sweep_visits(old(self).width(), old(self).height(), true)),
            final(self).topples() >= old(self).topples(),
            final(self).settled() == stable(final(self).grains(), final(self).width(), final(self).height(), true),
    {
        self.sweep_step(true);
    }

    /// One random row-major sweep with its draws given, the work of `topple_sandpile`
    /// (`torus` false) or `topple_torus_naive` (`torus` true) below probability one: the
    /// `k`-th visited cell, if it holds four grains or more, sends one grain towards each
    /// neighbour (left, up, right, down) whose entry of `draws[k]` succeeds at the current
    /// probability, and loses as many. Each visit reads the counts the visits before it left.
    /// Afterwards the stability flag tells whether the grid is stable under this topology and
    /// the mode's.
    pub fn scatter_sweep(&mut self, torus: bool, draws: &Vec<[u32; 4]>)
        requires
            old(self).wf(),
            draws@.len() == sweep_visits(old(self).width(), old(self).height(), torus),
        ensures
            final(self).wf(),
            final(self).same_setup(old(self)),
            final(self).grains() == random_sweep(
                old(self).grains(),
                old(self).width(),
                old(self).height(),
                torus,
                sweep_hits(old(self).probability(), draws@),
            ),
            total(final(self).grains()) == total(old(self).grains()),
            final(self).steps() == sat_add(old(self).steps(), sweep_visits(old(self).width(), old(self).height(), torus)),
            final(self).topples() >= old(self).topples(),
            final(self).settled() == stable(final(self).grains(), final(self).width(), final(self).height(), torus || mode_wraps(final(self).mode())),
    {
        self.scatter_pass(torus, draws);
        let torus_mode = self.mode == ToppleMode::ToroidalDeterministic || self.mode == ToppleMode::ToroidalProbabilistic;
        let settled = self.is_stable(torus || torus_mode);
        proof {
            if settled && torus {
                lemma_stable_wraps(self.grains(), self.x as int, self.y as int, torus_mode);
            }
        }
        self.is_completely_toppled = settled;
    }

    /// The random transfer of one cell, with its four draws given (left, up, right, down).
    /// A cell holding `THRESHOLD` grains or more sends one grain to each neighbour whose draw
    /// succeeds at the current probability and loses as many; returns how many moved.
    /// Clears the stability flag when grains move.
    pub fn scatter_at(&mut self, coordinate: (usize, usize), draws: [u32; 4]) -> (r: Result<usize, GridError>)
        requires
            old(self).wf(),
        ensures
            final(self).wf(),
            final(self).same_setup(old(self)),
            final(self).steps() == old(self).steps(),
            final(self).topples() == old(self).topples(),
            total(final(self).grains()) == total(old(self).grains()),
            !in_grid(old(self).width(), old(self).height(), coordinate.0 as int, coordinate.1 as int) ==> {
                &&& r == Err::<usize, GridError>(GridError::OutOfBounds)
                &&& final(self).grains() == old(self).grains()
                &&& final(self).settled() == old(self).settled()
            },
            in_grid(old(self).width(), old(self).height(), coordinate.0 as int, coordinate.1 as int) ==> {
                let (x, y) = (coordinate.0 as int, coordinate.1 as int);
                let hit = hits_of(old(self).probability(), draws@);
                if old(self).at(x, y) >= 4 {
                    &&& r == Ok::<usize, GridError>(hit_count(hit) as usize)
                    &&& final(self).grains() == scatter(old(self).grains(), old(self).width(), old(self).height(), x, y, hit)
                    &&& !final(self).settled()
                } else {
                    &&& r == Ok::<usize, GridError>(0)
                    &&& final(self).grains() == old(self).grains()
                    &&& final(self).settled() == old(self).settled()
                }
            },
    {
        let (cx, cy) = coordinate;
        if cx >= self.x || cy >= self.y {
            return Err(GridError::OutOfBounds);
        }
        proof {
            lemma_idx(self.x as int, self.y as int, cx as int, cy as int);
        }
        let unstable = toodee_get(&self.cells, cx, cy) >= THRESHOLD;
        let moved = self.scatter_cell(cx, cy, draws);
        if unstable {
            self.is_completely_toppled = false;
        }
        Ok(moved)
    }

}

} // verus!
