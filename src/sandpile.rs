//! The grid of grains and the operations on it.
use crate::cells::{toodee_cells, toodee_clone, toodee_cols, toodee_get, toodee_init, toodee_rows, toodee_set};
use crate::ring::{interior_total, ring_gains};
use crate::relax::{call_budget_for, torus_pass, lemma_stable_is_fixed, relaxes, Boundary};
use crate::model::{sweep_fires, random_sweep, sweep_visits, cell, idx, in_grid, interior, lemma_idx, lemma_total_ge, lemma_total_update, lemma_total_zeros, stable, sweep, total, visited};
use toodee::TooDee;
use vstd::prelude::*;

mod avalanche;
mod sweep;

verus! {

/// Calls that one recursive relaxation on a torus may make per cell of the grid, which bounds
/// the time it takes: on a torus an avalanche need not end.
pub const CALLS_PER_CELL: usize = 64;

/// Probabilities are counted in millionths.
pub const PROBABILITY_SCALE: u32 = 1_000_000;

/// The smallest probability a grid accepts (one in a thousand).
pub const PROBABILITY_MIN: u32 = 1_000;

#[derive(Debug, Clone, Copy, PartialEq, Eq, Structural)]
pub enum GridError {
    /// A grid needs at least one column and one row.
    InvalidDimensions,
    /// A coordinate lies outside the grid.
    OutOfBounds,
}

/// Which rule `step` applies.
#[derive(Debug, Clone, Copy, PartialEq, Eq, Structural)]
pub enum ToppleMode {
    /// Relax every interior cell by recursive toppling; grains sent to the outer ring vanish.
    BoundedDeterministic,
    /// One row-major sweep over the interior; the outer ring collects grains.
    BoundedIterative,
    /// Relax every cell by recursive toppling on a torus.
    ToroidalDeterministic,
    /// One row-major sweep over a torus, random when the probability is below one.
    ToroidalProbabilistic,
}

pub open spec fn mode_wraps(mode: ToppleMode) -> bool {
    mode is ToroidalDeterministic || mode is ToroidalProbabilistic
}

#[derive(Debug, Clone, Copy, PartialEq, Eq, Structural)]
pub struct ToppleStats {
    /// Cells visited and recursive calls made.
    pub num_steps: u64,
    /// Topple events.
    pub num_topples: u64,
    /// Whether the grid was found stable after the last step.
    pub is_completely_toppled: bool,
}

pub struct Sandpile {
    x: usize,
    y: usize,
    cells: TooDee<usize>,
    /// Sum of all cells, kept so that additions can saturate without a scan.
    mass: usize,
    probability_to_topple: u32,
    mode: ToppleMode,
    is_completely_toppled: bool,
    num_steps: u64,
    num_topples: u64,
    /// Room for one set of four random draws per cell, allocated once so that a random
    /// sweep allocates nothing.
    draws: Vec<[u32; 4]>,
}

/// Whether a random draw moves a grain at probability `p` millionths: the draw, read as a
/// fraction of 2^32, lies below `p / PROBABILITY_SCALE`.
pub open spec fn moves_grain(p: int, draw: u32) -> bool {
    draw * PROBABILITY_SCALE < p * 0x1_0000_0000
}

/// Which of the four directions (left, up, right, down) the draws open.
pub open spec fn hits_of(p: int, draws: Seq<u32>) -> Seq<bool> {
    Seq::new(4, |k: int| moves_grain(p, draws[k]))
}

/// The hit patterns of a sweep's draws.
pub open spec fn sweep_hits(p: int, draws: Seq<[u32; 4]>) -> Seq<Seq<bool>> {
    Seq::new(draws.len(), |k: int| hits_of(p, draws[k]@))
}

/// `value`, capped so that a total of `t` grains stays within `usize::MAX`.
pub open spec fn capped(value: int, t: int) -> int {
    if value <= usize::MAX - t {
        value
    } else {
        usize::MAX - t
    }
}

pub open spec fn sat_add(a: int, b: int) -> int {
    if a + b > u64::MAX {
        u64::MAX as int
    } else {
        a + b
    }
}

impl Sandpile {
    /// The counts, row after row.
    pub closed spec fn grains(&self) -> Seq<usize> {
        toodee_cells(self.cells)
    }

    pub closed spec fn width(&self) -> int {
        self.x as int
    }

    pub closed spec fn height(&self) -> int {
        self.y as int
    }

    /// The probability of each random transfer, in millionths.
    pub closed spec fn probability(&self) -> int {
        self.probability_to_topple as int
    }

    pub closed spec fn mode(&self) -> ToppleMode {
        self.mode
    }

    pub closed spec fn settled(&self) -> bool {
        self.is_completely_toppled
    }

    pub closed spec fn steps(&self) -> int {
        self.num_steps as int
    }

    pub closed spec fn topples(&self) -> int {
        self.num_topples as int
    }

    /// The count of `(x, y)`.
    pub open spec fn at(&self, x: int, y: int) -> int {
        cell(self.grains(), self.width(), x, y)
    }

    /// The storage matches the dimensions and the kept total.
    pub closed spec fn grid_ok(&self) -> bool {
        &&& self.x >= 1
        &&& self.y >= 1
        &&& self.x * self.y <= isize::MAX as nat / 8
        &&& toodee_cols(self.cells) == self.x
        &&& toodee_rows(self.cells) == self.y
        &&& toodee_cells(self.cells).len() == self.x * self.y
        &&& self.mass == total(toodee_cells(self.cells))
    }

    /// The length of the buffer of random draws.
    pub closed spec fn draw_room(&self) -> int {
        self.draws@.len() as int
    }

    pub closed spec fn wf(&self) -> bool {
        &&& self.grid_ok()
        &&& self.draws@.len() == self.x * self.y
        &&& PROBABILITY_MIN <= self.probability_to_topple <= PROBABILITY_SCALE
        &&& (self.is_completely_toppled ==> stable(self.grains(), self.x as int, self.y as int, mode_wraps(self.mode)))
    }

    pub proof fn lemma_wf(&self)
        requires
            self.wf(),
        ensures
            self.width() >= 1,
            self.height() >= 1,
            self.grains().len() == self.width() * self.height(),
            total(self.grains()) <= usize::MAX,
            PROBABILITY_MIN <= self.probability() <= PROBABILITY_SCALE,
            self.settled() ==> stable(self.grains(), self.width(), self.height(), mode_wraps(self.mode())),
    {
    }

    /// Width, height, probability and mode are the same in both.
    pub open spec fn same_setup(&self, other: &Sandpile) -> bool {
        &&& self.width() == other.width()
        &&& self.height() == other.height()
        &&& self.probability() == other.probability()
        &&& self.mode() == other.mode()
        &&& self.draw_room() == other.draw_room()
    }

    /// An empty `x` by `y` grid. It relaxes with `BoundedIterative` and probability one.
    pub fn new(x: usize, y: usize) -> (r: Result<Sandpile, GridError>)
        requires
            x * y <= isize::MAX as nat / 16,
        ensures
            x < 1 || y < 1 <==> r is Err,
            r is Err ==> r == Err::<Sandpile, GridError>(GridError::InvalidDimensions),
            r matches Ok(s) ==> {
                &&& s.wf()
                &&& s.width() == x
                &&& s.height() == y
                &&& s.grains() == Seq::new((x * y) as nat, |i: int| 0usize)
                &&& s.probability() == PROBABILITY_SCALE
                &&& s.mode() == ToppleMode::BoundedIterative
                &&& s.settled()
                &&& s.steps() == 0
                &&& s.topples() == 0
            },
    {
        if x < 1 || y < 1 {
            return Err(GridError::InvalidDimensions);
        }
        let cells = toodee_init(x, y, 0);
        proof {
            lemma_total_zeros((x * y) as nat);
            let zeros = Seq::new((x * y) as nat, |i: int| 0usize);
            assert forall|a: int, b: int| visited(x as int, y as int, a, b, false) implies #[trigger] cell(zeros, x as int, a, b) < 4 by {
                lemma_idx(x as int, y as int, a, b);
            }
        }
        let draws = vec![[0u32; 4]; x * y];
        Ok(Sandpile {
            x,
            y,
            cells,
            mass: 0,
            probability_to_topple: PROBABILITY_SCALE,
            mode: ToppleMode::BoundedIterative,
            is_completely_toppled: true,
            num_steps: 0,
            num_topples: 0,
            draws,
        })
    }

    pub fn len_x(&self) -> (r: usize)
        ensures
            r == self.width(),
    {
        self.x
    }

    pub fn len_y(&self) -> (r: usize)
        ensures
            r == self.height(),
    {
        self.y
    }

    /// The sum of all counts.
    pub fn total_grains(&self) -> (r: usize)
        requires
            self.wf(),
        ensures
            r == total(self.grains()),
    {
        self.mass
    }

    pub fn mode_of(&self) -> (r: ToppleMode)
        ensures
            r == self.mode(),
    {
        self.mode
    }

    pub fn probability_millionths(&self) -> (r: u32)
        ensures
            r == self.probability(),
    {
        self.probability_to_topple
    }

    pub fn stats(&self) -> (r: ToppleStats)
        ensures
            r.num_steps == self.steps(),
            r.num_topples == self.topples(),
            r.is_completely_toppled == self.settled(),
    {
        ToppleStats {
            num_steps: self.num_steps,
            num_topples: self.num_topples,
            is_completely_toppled: self.is_completely_toppled,
        }
    }

    /// An owned copy, for reading without holding on to the original.
    pub fn snapshot(&self) -> (r: Sandpile)
        requires
            self.wf(),
        ensures
            r.wf(),
            r.same_setup(self),
            r.grains() == self.grains(),
            r.settled() == self.settled(),
            r.steps() == self.steps(),
            r.topples() == self.topples(),
    {
        let draws = vec![[0u32; 4]; self.x * self.y];
        Sandpile {
            x: self.x,
            y: self.y,
            cells: toodee_clone(&self.cells),
            mass: self.mass,
            probability_to_topple: self.probability_to_topple,
            mode: self.mode,
            is_completely_toppled: self.is_completely_toppled,
            num_steps: self.num_steps,
            num_topples: self.num_topples,
            draws,
        }
    }

    /// Sets the probability of each random transfer, in millionths, clamped to
    /// `PROBABILITY_MIN ..= PROBABILITY_SCALE`. The stability flag is kept: stability
    /// depends on the counts alone.
    pub fn set_probailitiy(&mut self, value: u32)
        requires
            old(self).wf(),
        ensures
            final(self).wf(),
            final(self).probability() == if value < PROBABILITY_MIN {
                PROBABILITY_MIN as int
            } else if value > PROBABILITY_SCALE {
                PROBABILITY_SCALE as int
            } else {
                value as int
            },
            final(self).width() == old(self).width(),
            final(self).height() == old(self).height(),
            final(self).mode() == old(self).mode(),
            final(self).grains() == old(self).grains(),
            final(self).settled() == old(self).settled(),
            final(self).steps() == old(self).steps(),
            final(self).topples() == old(self).topples(),
    {
        self.probability_to_topple = if value < PROBABILITY_MIN {
            PROBABILITY_MIN
        } else if value > PROBABILITY_SCALE {
            PROBABILITY_SCALE
        } else {
            value
        };
    }

    /// Chooses the rule of `step`, and clears the stability flag.
    pub fn set_mode(&mut self, mode: ToppleMode)
        requires
            old(self).wf(),
        ensures
            final(self).wf(),
            final(self).mode() == mode,
            final(self).width() == old(self).width(),
            final(self).height() == old(self).height(),
            final(self).probability() == old(self).probability(),
            final(self).grains() == old(self).grains(),
            !final(self).settled(),
            final(self).steps() == old(self).steps(),
            final(self).topples() == old(self).topples(),
    {
        self.mode = mode;
        self.is_completely_toppled = false;
    }

    pub fn get_value_at(&self, coordinate: (usize, usize)) -> (r: Result<usize, GridError>)
        requires
            self.wf(),
        ensures
            in_grid(self.width(), self.height(), coordinate.0 as int, coordinate.1 as int) ==> r == Ok::<usize, GridError>(
                self.at(coordinate.0 as int, coordinate.1 as int) as usize,
            ),
            !in_grid(self.width(), self.height(), coordinate.0 as int, coordinate.1 as int) ==> r == Err::<usize, GridError>(
                GridError::OutOfBounds,
            ),
    {
        let (cx, cy) = coordinate;
        if cx >= self.x || cy >= self.y {
            return Err(GridError::OutOfBounds);
        }
        Ok(toodee_get(&self.cells, cx, cy))
    }

    /// Writes one cell and keeps the kept total; the caller sees to the stability flag.
    fn put(&mut self, cx: usize, cy: usize, value: usize)
        requires
            old(self).grid_ok(),
            cx < old(self).width(),
            cy < old(self).height(),
            total(old(self).grains()) - old(self).at(cx as int, cy as int) + value <= usize::MAX,
        ensures
            final(self).grid_ok(),
            final(self).grains() == old(self).grains().update(idx(old(self).width(), cx as int, cy as int), value),
            total(final(self).grains()) == total(old(self).grains()) - old(self).at(cx as int, cy as int) + value,
            final(self).same_setup(old(self)),
            final(self).settled() == old(self).settled(),
            final(self).steps() == old(self).steps(),
            final(self).topples() == old(self).topples(),
    {
        proof {
            lemma_idx(self.x as int, self.y as int, cx as int, cy as int);
            lemma_total_update(self.grains(), idx(self.x as int, cx as int, cy as int), value);
            lemma_total_ge(self.grains(), idx(self.x as int, cx as int, cy as int));
        }
        let old_value = toodee_get(&self.cells, cx, cy);
        toodee_set(&mut self.cells, cx, cy, value);
        self.mass = self.mass - old_value + value;
    }

    /// Sets one cell. The grid's total saturates at `usize::MAX`: the value stored is at most
    /// what keeps the total within it. Clears the stability flag.
    pub fn set_value_at(&mut self, value: usize, coordinate: (usize, usize)) -> (r: Result<(), GridError>)
        requires
            old(self).wf(),
        ensures
            final(self).wf(),
            final(self).same_setup(old(self)),
            final(self).steps() == old(self).steps(),
            final(self).topples() == old(self).topples(),
            !in_grid(old(self).width(), old(self).height(), coordinate.0 as int, coordinate.1 as int) ==> {
                &&& r == Err::<(), GridError>(GridError::OutOfBounds)
                &&& final(self).grains() == old(self).grains()
                &&& final(self).settled() == old(self).settled()
            },
            in_grid(old(self).width(), old(self).height(), coordinate.0 as int, coordinate.1 as int) ==> {
                let room = usize::MAX - (total(old(self).grains()) - old(self).at(coordinate.0 as int, coordinate.1 as int));
                &&& r is Ok
                &&& final(self).grains() == old(self).grains().update(
                    idx(old(self).width(), coordinate.0 as int, coordinate.1 as int),
                    (if value <= room { value as int } else { room }) as usize,
                )
                &&& !final(self).settled()
            },
    {
        let (cx, cy) = coordinate;
        if cx >= self.x || cy >= self.y {
            return Err(GridError::OutOfBounds);
        }
        proof {
            lemma_idx(self.x as int, self.y as int, cx as int, cy as int);
            lemma_total_ge(self.grains(), idx(self.x as int, cx as int, cy as int));
        }
        let current = toodee_get(&self.cells, cx, cy);
        let room = usize::MAX - (self.mass - current);
        let stored = if value <= room {
            value
        } else {
            room
        };
        self.put(cx, cy, stored);
        self.is_completely_toppled = false;
        Ok(())
    }

    /// Adds grains to one cell. The grid's total saturates at `usize::MAX`.
    /// Clears the stability flag.
    pub fn add_at(&mut self, amount: usize, coordinate: (usize, usize)) -> (r: Result<(), GridError>)
        requires
            old(self).wf(),
        ensures
            final(self).wf(),
            final(self).same_setup(old(self)),
            final(self).steps() == old(self).steps(),
            final(self).topples() == old(self).topples(),
            !in_grid(old(self).width(), old(self).height(), coordinate.0 as int, coordinate.1 as int) ==> {
                &&& r == Err::<(), GridError>(GridError::OutOfBounds)
                &&& final(self).grains() == old(self).grains()
                &&& final(self).settled() == old(self).settled()
            },
            in_grid(old(self).width(), old(self).height(), coordinate.0 as int, coordinate.1 as int) ==> {
                let room = usize::MAX - total(old(self).grains());
                let added = if amount <= room { amount as int } else { room };
                &&& r is Ok
                &&& final(self).grains() == old(self).grains().update(
                    idx(old(self).width(), coordinate.0 as int, coordinate.1 as int),
                    (old(self).at(coordinate.0 as int, coordinate.1 as int) + added) as usize,
                )
                &&& total(final(self).grains()) == total(old(self).grains()) + added
                &&& !final(self).settled()
            },
    {
        let (cx, cy) = coordinate;
        if cx >= self.x || cy >= self.y {
            return Err(GridError::OutOfBounds);
        }
        proof {
            lemma_idx(self.x as int, self.y as int, cx as int, cy as int);
            lemma_total_ge(self.grains(), idx(self.x as int, cx as int, cy as int));
        }
        let current = toodee_get(&self.cells, cx, cy);
        let room = usize::MAX - self.mass;
        let added = if amount <= room {
            amount
        } else {
            room
        };
        self.put(cx, cy, current + added);
        self.is_completely_toppled = false;
        Ok(())
    }

    /// Takes grains from one cell; a count never goes below zero. Clears the stability flag.
    pub fn remove_at(&mut self, amount: usize, coordinate: (usize, usize)) -> (r: Result<(), GridError>)
        requires
            old(self).wf(),
        ensures
            final(self).wf(),
            final(self).same_setup(old(self)),
            final(self).steps() == old(self).steps(),
            final(self).topples() == old(self).topples(),
            !in_grid(old(self).width(), old(self).height(), coordinate.0 as int, coordinate.1 as int) ==> {
                &&& r == Err::<(), GridError>(GridError::OutOfBounds)
                &&& final(self).grains() == old(self).grains()
                &&& final(self).settled() == old(self).settled()
            },
            in_grid(old(self).width(), old(self).height(), coordinate.0 as int, coordinate.1 as int) ==> {
                let c = old(self).at(coordinate.0 as int, coordinate.1 as int);
                &&& r is Ok
                &&& final(self).grains() == old(self).grains().update(
                    idx(old(self).width(), coordinate.0 as int, coordinate.1 as int),
                    (if amount <= c { c - amount } else { 0 }) as usize,
                )
                &&& !final(self).settled()
            },
    {
        let (cx, cy) = coordinate;
        if cx >= self.x || cy >= self.y {
            return Err(GridError::OutOfBounds);
        }
        proof {
            lemma_idx(self.x as int, self.y as int, cx as int, cy as int);
        }
        let current = toodee_get(&self.cells, cx, cy);
        self.put(cx, cy, current.saturating_sub(amount));
        self.is_completely_toppled = false;
        Ok(())
    }

    /// One application of the configured rule to the whole grid:
    /// - `BoundedDeterministic`: recursive relaxation from every interior cell, grains sent to
    ///   the outer ring vanish; the grid ends stable;
    /// - `BoundedIterative`: one sweep of `topple_sandpile`;
    /// - `ToroidalDeterministic`: recursive relaxation from every cell of the torus;
    /// - `ToroidalProbabilistic`: one sweep of `topple_torus_naive`.
    ///
    /// On a torus the total is kept; on a bounded grid it never grows. A grid that was found
    /// stable is left as it is. Afterwards the stability flag tells whether the grid is stable.
    pub fn step(&mut self)
        requires
            old(self).wf(),
        ensures
            final(self).wf(),
            final(self).same_setup(old(self)),
            old(self).settled() ==> final(self).grains() == old(self).grains(),
            mode_wraps(old(self).mode()) ==> total(final(self).grains()) == total(old(self).grains()),
            total(final(self).grains()) <= total(old(self).grains()),
            !mode_wraps(old(self).mode()) ==> interior_total(final(self).grains(), old(self).width(), old(self).height())
                <= interior_total(old(self).grains(), old(self).width(), old(self).height()),
            old(self).mode() is BoundedDeterministic ==> relaxes(
                old(self).grains(),
                final(self).grains(),
                old(self).width(),
                old(self).height(),
                Boundary::Absorbing,
            ) && final(self).settled(),
            old(self).mode() is BoundedIterative ==> total(final(self).grains()) == total(old(self).grains()) && ring_gains(
                old(self).grains(),
                final(self).grains(),
                old(self).width(),
                old(self).height(),
            ),
            old(self).mode() is ToroidalDeterministic ==> {
                let pass = torus_pass(
                    old(self).grains(),
                    old(self).width(),
                    old(self).height(),
                    call_budget_for(old(self).width(), old(self).height()),
                );
                &&& final(self).grains() == pass.0
                &&& final(self).steps() == sat_add(old(self).steps(), call_budget_for(old(self).width(), old(self).height()) - pass.2)
                &&& final(self).topples() == sat_add(old(self).topples(), pass.3 as int)
            },
            old(self).mode() is BoundedIterative ==> final(self).steps() == sat_add(
                old(self).steps(),
                sweep_visits(old(self).width(), old(self).height(), false),
            ),
            old(self).mode() is ToroidalProbabilistic ==> final(self).steps() == sat_add(
                old(self).steps(),
                sweep_visits(old(self).width(), old(self).height(), true),
            ),
            old(self).mode() is BoundedIterative && old(self).probability() == PROBABILITY_SCALE ==> final(self).topples()
                == sat_add(old(self).topples(), sweep_fires(old(self).grains(), old(self).width(), old(self).height(), false) as int),
            old(self).mode() is ToroidalProbabilistic && old(self).probability() == PROBABILITY_SCALE ==> final(self).topples()
                == sat_add(old(self).topples(), sweep_fires(old(self).grains(), old(self).width(), old(self).height(), true) as int),
            old(self).mode() is ToroidalDeterministic ==> relaxes(
                old(self).grains(),
                final(self).grains(),
                old(self).width(),
                old(self).height(),
                Boundary::Wrapping,
            ),
            old(self).mode() is BoundedIterative && old(self).probability() < PROBABILITY_SCALE ==> exists|draws: Seq<[u32; 4]>|
                #[trigger] draws.len() >= sweep_visits(old(self).width(), old(self).height(), false) && final(self).grains()
                    == random_sweep(
                    old(self).grains(),
                    old(self).width(),
                    old(self).height(),
                    false,
                    sweep_hits(old(self).probability(), draws),
                ),
            old(self).mode() is BoundedIterative && old(self).probability() == PROBABILITY_SCALE ==> {
                &&& final(self).grains() == sweep(old(self).grains(), old(self).width(), old(self).height(), false)
                &&& relaxes(old(self).grains(), final(self).grains(), old(self).width(), old(self).height(), Boundary::Collecting)
            },
            old(self).mode() is ToroidalProbabilistic && old(self).probability() < PROBABILITY_SCALE ==> exists|draws: Seq<[u32; 4]>|
                #[trigger] draws.len() >= sweep_visits(old(self).width(), old(self).height(), true) && final(self).grains()
                    == random_sweep(
                    old(self).grains(),
                    old(self).width(),
                    old(self).height(),
                    true,
                    sweep_hits(old(self).probability(), draws),
                ),
            old(self).mode() is ToroidalProbabilistic && old(self).probability() == PROBABILITY_SCALE ==> {
                &&& final(self).grains() == sweep(old(self).grains(), old(self).width(), old(self).height(), true)
                &&& relaxes(old(self).grains(), final(self).grains(), old(self).width(), old(self).height(), Boundary::Wrapping)
            },
            final(self).settled() == stable(final(self).grains(), final(self).width(), final(self).height(), mode_wraps(final(self).mode())),
            final(self).steps() >= old(self).steps(),
            final(self).topples() >= old(self).topples(),
    {
        let ghost g0 = self.grains();
        let ghost (w, h) = (self.x as int, self.y as int);
        proof {
            self.lemma_wf();
        }
        match self.mode {
            ToppleMode::BoundedDeterministic => {
                let _ = self.relax_all(false);
                proof {
                    if old(self).settled() {
                        lemma_stable_is_fixed(g0, self.grains(), w, h, Boundary::Absorbing);
                    }
                    crate::relax::lemma_inject_zero(g0, w, h, 0, 0, Boundary::Absorbing);
                    crate::ring::lemma_absorbing_keeps_ring(g0, self.grains(), w, h, 0, 0, 0);
                    crate::ring::lemma_interior_total_falls(g0, self.grains(), w, h, 0);
                }
                self.is_completely_toppled = self.is_stable(false);
            },
            ToppleMode::BoundedIterative => {
                self.topple_sandpile();
            },
            ToppleMode::ToroidalDeterministic => {
                let _ = self.relax_all(true);
                proof {
                    if old(self).settled() {
                        lemma_stable_is_fixed(g0, self.grains(), w, h, Boundary::Wrapping);
                    }
                }
                self.is_completely_toppled = self.is_stable(true);
            },
            ToppleMode::ToroidalProbabilistic => {
                self.topple_torus_naive();
            },
        }
    }

    /// Empties every cell and clears the stability flag.
    pub fn reset(&mut self)
        requires
            old(self).wf(),
        ensures
            final(self).wf(),
            final(self).same_setup(old(self)),
            final(self).grains() == Seq::new((old(self).width() * old(self).height()) as nat, |i: int| 0usize),
            !final(self).settled(),
            final(self).steps() == old(self).steps(),
            final(self).topples() == old(self).topples(),
    {
        self.is_completely_toppled = false;
        let ghost g0 = self.grains();
        let mut j: usize = 0;
        while j < self.y
            invariant
                self.grid_ok(),
                PROBABILITY_MIN <= self.probability_to_topple <= PROBABILITY_SCALE,
                !self.is_completely_toppled,
                self.same_setup(old(self)),
                self.steps() == old(self).steps(),
                self.topples() == old(self).topples(),
                0 <= j <= self.y,
                forall|k: int| 0 <= k < j * self.x ==> #[trigger] self.grains()[k] == 0,
            decreases self.y - j,
        {
            let mut i: usize = 0;
            while i < self.x
                invariant
                    self.grid_ok(),
                    PROBABILITY_MIN <= self.probability_to_topple <= PROBABILITY_SCALE,
                    !self.is_completely_toppled,
                    self.same_setup(old(self)),
                    self.steps() == old(self).steps(),
                    self.topples() == old(self).topples(),
                    0 <= j < self.y,
                    0 <= i <= self.x,
                    forall|k: int| 0 <= k < j * self.x + i ==> #[trigger] self.grains()[k] == 0,
                decreases self.x - i,
            {
                proof {
                    lemma_idx(self.x as int, self.y as int, i as int, j as int);
                    lemma_total_ge(self.grains(), idx(self.x as int, i as int, j as int));
                }
                self.put(i, j, 0);
                i = i + 1;
            }
            proof {
                assert((j + 1) * self.x == j * self.x + self.x) by (nonlinear_arith);
            }
            j = j + 1;
        }
        assert(self.grains() =~= Seq::new((self.x * self.y) as nat, |i: int| 0usize));
    }
}

} // verus!
