use sandpile::{Sandpile, ToppleMode, PROBABILITY_SCALE};

fn grid(w: usize, h: usize) -> Sandpile {
    Sandpile::new(w, h).unwrap()
}

fn cells(s: &Sandpile) -> Vec<usize> {
    let mut out = Vec::new();
    for y in 0..s.len_y() {
        for x in 0..s.len_x() {
            out.push(s.get_value_at((x, y)).unwrap());
        }
    }
    out
}

fn sum(s: &Sandpile) -> usize {
    cells(s).iter().sum()
}

fn interior_stable(s: &Sandpile) -> bool {
    for y in 1..s.len_y() - 1 {
        for x in 1..s.len_x() - 1 {
            if s.get_value_at((x, y)).unwrap() > 3 {
                return false;
            }
        }
    }
    true
}

fn run_until_settled(s: &mut Sandpile, limit: usize) -> usize {
    let mut steps = 0;
    while !s.stats().is_completely_toppled {
        assert!(steps < limit, "no stable grid after {} steps", limit);
        s.step();
        steps += 1;
    }
    steps
}

#[test]
fn bounded_single_interior_cell_topples_once() {
    let mut s = grid(3, 3);
    s.add_at(4, (1, 1)).unwrap();
    s.step();
    assert_eq!(s.get_value_at((1, 1)), Ok(0));
    assert_eq!(s.get_value_at((0, 1)), Ok(1));
    assert_eq!(s.get_value_at((2, 1)), Ok(1));
    assert_eq!(s.get_value_at((1, 0)), Ok(1));
    assert_eq!(s.get_value_at((1, 2)), Ok(1));
    assert_eq!(s.get_value_at((0, 0)), Ok(0));
    assert!(s.stats().is_completely_toppled);
    assert_eq!(s.stats().num_topples, 1);
    assert_eq!(s.stats().num_steps, 1);
}

#[test]
fn toroidal_corner_wraps_to_four_neighbours() {
    let mut s = grid(4, 4);
    s.set_mode(ToppleMode::ToroidalProbabilistic);
    s.add_at(4, (0, 0)).unwrap();
    s.step();
    assert_eq!(s.get_value_at((0, 0)), Ok(0));
    assert_eq!(s.get_value_at((3, 0)), Ok(1));
    assert_eq!(s.get_value_at((1, 0)), Ok(1));
    assert_eq!(s.get_value_at((0, 3)), Ok(1));
    assert_eq!(s.get_value_at((0, 1)), Ok(1));
    assert_eq!(sum(&s), 4);
    assert_eq!(s.stats().num_steps, 16);
}

#[test]
fn toroidal_recursive_corner_wraps_to_four_neighbours() {
    let mut s = grid(4, 4);
    s.set_mode(ToppleMode::ToroidalDeterministic);
    s.add_at(4, (0, 0)).unwrap();
    s.step();
    assert_eq!(s.get_value_at((0, 0)), Ok(0));
    assert_eq!(s.get_value_at((3, 0)), Ok(1));
    assert_eq!(s.get_value_at((1, 0)), Ok(1));
    assert_eq!(s.get_value_at((0, 3)), Ok(1));
    assert_eq!(s.get_value_at((0, 1)), Ok(1));
    assert_eq!(sum(&s), 4);
    assert!(s.stats().is_completely_toppled);
}

#[test]
fn large_pile_on_bounded_grid_settles() {
    let mut s = grid(5, 5);
    s.set_value_at(5000, (2, 2)).unwrap();
    run_until_settled(&mut s, 10_000);
    assert!(interior_stable(&s));
    assert_eq!(sum(&s), 5000);
}

#[test]
fn large_pile_settles_with_recursive_rule() {
    let mut s = grid(5, 5);
    s.set_mode(ToppleMode::BoundedDeterministic);
    s.set_value_at(5000, (2, 2)).unwrap();
    run_until_settled(&mut s, 10_000);
    assert!(interior_stable(&s));
    assert!(sum(&s) <= 5000);
    for y in 0..5 {
        for x in 0..5 {
            if x == 0 || y == 0 || x == 4 || y == 4 {
                assert_eq!(s.get_value_at((x, y)), Ok(0));
            }
        }
    }
}

#[test]
fn cheap_path_matches_general_rule_at_four_seven_eight() {
    for (start, centre, each) in [(4usize, 0usize, 1usize), (7, 3, 1), (8, 0, 2), (11, 3, 2), (3, 3, 0)] {
        let mut s = grid(3, 3);
        s.set_value_at(start, (1, 1)).unwrap();
        s.topple_sandpile();
        assert_eq!(s.get_value_at((1, 1)), Ok(centre), "start {}", start);
        assert_eq!(s.get_value_at((0, 1)), Ok(each));
        assert_eq!(s.get_value_at((2, 1)), Ok(each));
        assert_eq!(s.get_value_at((1, 0)), Ok(each));
        assert_eq!(s.get_value_at((1, 2)), Ok(each));
        assert_eq!(centre + 4 * each, start);
    }
}

#[test]
fn sweep_reads_what_earlier_cells_left() {
    // Row-major: (1,1) topples first and pushes (2,1) over the threshold within the same
    // sweep; (2,1) then sends one grain back to (1,1), which is not visited again.
    let mut s = grid(4, 3);
    s.set_value_at(4, (1, 1)).unwrap();
    s.set_value_at(3, (2, 1)).unwrap();
    s.topple_sandpile();
    assert_eq!(cells(&s), vec![0, 1, 1, 0, 1, 1, 0, 1, 0, 1, 1, 0]);
    assert_eq!(s.stats().num_topples, 2);
    assert_eq!(s.stats().num_steps, 2);
}

#[test]
fn torus_sweep_large_pile_exact() {
    let mut s = grid(3, 3);
    s.set_mode(ToppleMode::ToroidalProbabilistic);
    s.set_value_at(40, (1, 1)).unwrap();
    s.topple_torus_naive();
    // (1,1) sends 10 to each neighbour; (2,1) and (1,2) are visited later in the sweep and
    // each send 2 back to it.
    assert_eq!(sum(&s), 40);
    assert_eq!(s.get_value_at((1, 1)), Ok(4));
    assert_eq!(s.get_value_at((2, 1)), Ok(3));
    assert_eq!(s.get_value_at((0, 1)), Ok(12));
}

#[test]
fn recursive_bounded_drops_grains_at_the_ring() {
    let mut s = grid(3, 3);
    s.topple(4, 1, 1).unwrap();
    assert_eq!(cells(&s), vec![0; 9]);
    s.topple(9, 1, 1).unwrap();
    assert_eq!(s.get_value_at((1, 1)), Ok(1));
    assert_eq!(sum(&s), 1);
    s.topple(5, 0, 2).unwrap();
    assert_eq!(sum(&s), 1);
    assert!(s.stats().is_completely_toppled);
}

#[test]
fn recursive_bounded_chain_reaction() {
    let mut s = grid(4, 3);
    s.set_value_at(3, (2, 1)).unwrap();
    s.topple(4, 1, 1).unwrap();
    // (1,1) topples, (2,1) receives one and topples, sending one back to (1,1).
    assert_eq!(s.get_value_at((1, 1)), Ok(1));
    assert_eq!(s.get_value_at((2, 1)), Ok(0));
    assert_eq!(sum(&s), 1);
    assert_eq!(s.stats().num_topples, 2);
    // one call for (1,1), four from its firing, four more from (2,1)'s
    assert_eq!(s.stats().num_steps, 9);
}

#[test]
fn recursive_torus_keeps_every_grain() {
    let mut s = grid(4, 4);
    assert!(s.topple_torus(4, 0, 0).unwrap());
    assert_eq!(s.get_value_at((0, 0)), Ok(0));
    assert_eq!(s.get_value_at((3, 0)), Ok(1));
    assert_eq!(s.get_value_at((1, 0)), Ok(1));
    assert_eq!(s.get_value_at((0, 3)), Ok(1));
    assert_eq!(s.get_value_at((0, 1)), Ok(1));
    assert!(s.topple_torus(20, 2, 2).unwrap());
    assert_eq!(sum(&s), 24);
}

#[test]
fn torus_total_is_kept_over_many_steps() {
    for mode in [ToppleMode::ToroidalDeterministic, ToppleMode::ToroidalProbabilistic] {
        for p in [PROBABILITY_SCALE, 300_000] {
            let mut s = grid(6, 5);
            s.set_mode(mode);
            s.set_probailitiy(p);
            for (i, v) in [13usize, 4, 9, 0, 27, 5, 8, 1].iter().enumerate() {
                s.set_value_at(*v, (i % 6, i % 5)).unwrap();
            }
            let before = sum(&s);
            for _ in 0..25 {
                s.step();
                assert_eq!(sum(&s), before);
                assert_eq!(s.total_grains(), before);
            }
        }
    }
}

#[test]
fn bounded_total_never_grows() {
    for mode in [ToppleMode::BoundedDeterministic, ToppleMode::BoundedIterative] {
        for p in [PROBABILITY_SCALE, 400_000] {
            let mut s = grid(6, 6);
            s.set_mode(mode);
            s.set_probailitiy(p);
            s.set_value_at(50, (2, 3)).unwrap();
            s.set_value_at(17, (4, 1)).unwrap();
            let mut last = sum(&s);
            for _ in 0..30 {
                s.step();
                let now = sum(&s);
                assert!(now <= last);
                last = now;
            }
        }
    }
}

#[test]
fn stable_grid_is_left_alone() {
    for mode in [
        ToppleMode::BoundedDeterministic,
        ToppleMode::BoundedIterative,
        ToppleMode::ToroidalDeterministic,
        ToppleMode::ToroidalProbabilistic,
    ] {
        let mut s = grid(5, 4);
        s.set_mode(mode);
        s.set_value_at(13, (2, 2)).unwrap();
        run_until_settled(&mut s, 1000);
        let settled = cells(&s);
        let topples = s.stats().num_topples;
        s.step();
        assert_eq!(cells(&s), settled);
        assert_eq!(s.stats().num_topples, topples);
        assert!(s.stats().is_completely_toppled);
    }
}

#[test]
fn torus_rules_reach_the_same_stable_grid() {
    let start = [
        (0usize, 0usize, 6usize),
        (1, 0, 3),
        (2, 1, 9),
        (3, 3, 5),
        (4, 2, 7),
        (0, 4, 4),
        (2, 2, 2),
    ];
    let mut iterative = grid(5, 5);
    iterative.set_mode(ToppleMode::ToroidalProbabilistic);
    let mut recursive = grid(5, 5);
    recursive.set_mode(ToppleMode::ToroidalDeterministic);
    for (x, y, v) in start {
        iterative.set_value_at(v, (x, y)).unwrap();
        recursive.set_value_at(v, (x, y)).unwrap();
    }
    run_until_settled(&mut iterative, 1000);
    run_until_settled(&mut recursive, 1000);
    assert_eq!(cells(&iterative), cells(&recursive));
}

#[test]
fn bounded_rules_agree_on_the_interior() {
    let mut iterative = grid(6, 5);
    let mut recursive = grid(6, 5);
    recursive.set_mode(ToppleMode::BoundedDeterministic);
    for s in [&mut iterative, &mut recursive] {
        s.set_value_at(30, (2, 2)).unwrap();
        s.set_value_at(6, (4, 3)).unwrap();
    }
    run_until_settled(&mut iterative, 1000);
    run_until_settled(&mut recursive, 1000);
    for y in 1..4 {
        for x in 1..5 {
            assert_eq!(iterative.get_value_at((x, y)), recursive.get_value_at((x, y)));
        }
    }
}

#[test]
fn scatter_moves_one_grain_per_successful_draw() {
    let mut s = grid(3, 3);
    s.set_probailitiy(500_000);
    s.set_value_at(5, (1, 1)).unwrap();
    // a draw below half of 2^32 succeeds at probability one half
    let moved = s.scatter_at((1, 1), [0, u32::MAX, 0x7fff_ffff, 0x8000_0000]).unwrap();
    assert_eq!(moved, 2);
    assert_eq!(s.get_value_at((1, 1)), Ok(3));
    assert_eq!(s.get_value_at((0, 1)), Ok(1));
    assert_eq!(s.get_value_at((1, 0)), Ok(0));
    assert_eq!(s.get_value_at((2, 1)), Ok(1));
    assert_eq!(s.get_value_at((1, 2)), Ok(0));
    assert_eq!(s.scatter_at((1, 1), [0; 4]), Ok(0));
}

#[test]
fn scatter_wraps_on_the_edge() {
    let mut s = grid(3, 3);
    s.set_value_at(4, (0, 0)).unwrap();
    assert_eq!(s.scatter_at((0, 0), [0; 4]), Ok(4));
    assert_eq!(cells(&s), vec![0, 1, 1, 1, 0, 0, 1, 0, 0]);
}

#[test]
fn lower_probability_takes_longer_to_settle() {
    fn mean_steps(p: u32) -> f64 {
        let trials = 40;
        let mut total = 0usize;
        for _ in 0..trials {
            let mut s = grid(5, 5);
            s.set_probailitiy(p);
            s.set_value_at(40, (2, 2)).unwrap();
            total += run_until_settled(&mut s, 100_000);
        }
        total as f64 / trials as f64
    }
    let fast = mean_steps(800_000);
    let slow = mean_steps(100_000);
    assert!(slow > fast, "mean steps {} at 0.1 against {} at 0.8", slow, fast);
}

#[test]
fn endless_torus_avalanche_stops_within_budget() {
    // 2 by 2 cells cannot hold 100 grains stably, so the avalanche never ends on its own.
    let mut s = grid(2, 2);
    s.set_mode(ToppleMode::ToroidalDeterministic);
    assert!(!s.topple_torus(100, 0, 0).unwrap());
    assert_eq!(sum(&s), 100);
    assert!(s.stats().num_steps >= 4 * sandpile::CALLS_PER_CELL as u64);
    s.step();
    assert_eq!(sum(&s), 100);
    assert!(!s.stats().is_completely_toppled);
}

#[test]
fn torus_sweep_flag_follows_the_torus_in_bounded_mode() {
    let mut s = grid(3, 3);
    assert_eq!(s.mode_of(), ToppleMode::BoundedIterative);
    s.set_value_at(3, (2, 0)).unwrap();
    s.set_value_at(4, (2, 2)).unwrap();
    s.topple_torus_naive();
    // (2,2) wrapped one grain down onto (2,0), which now holds four
    assert_eq!(s.get_value_at((2, 0)), Ok(4));
    assert!(!s.stats().is_completely_toppled);
    run_torus_sweeps_until_settled(&mut s);
    let settled = cells(&s);
    s.topple_torus_naive();
    assert_eq!(cells(&s), settled);
    assert!(s.stats().is_completely_toppled);
}

fn run_torus_sweeps_until_settled(s: &mut Sandpile) {
    let mut n = 0;
    while !s.stats().is_completely_toppled {
        assert!(n < 1000);
        s.topple_torus_naive();
        n += 1;
    }
}

#[test]
fn scatter_sweep_uses_one_draw_per_visit() {
    let mut s = grid(4, 3);
    s.set_probailitiy(500_000);
    s.set_value_at(5, (1, 1)).unwrap();
    s.set_value_at(4, (2, 1)).unwrap();
    // visits: (1,1) then (2,1); a draw of 0 succeeds, u32::MAX fails
    let draws = vec![[0, u32::MAX, u32::MAX, u32::MAX], [u32::MAX, 0, 0, u32::MAX]];
    s.scatter_sweep(false, &draws);
    assert_eq!(cells(&s), vec![0, 0, 1, 0, 1, 4, 2, 1, 0, 0, 0, 0]);
    assert_eq!(sum(&s), 9);
    assert_eq!(s.stats().num_steps, 2);
}

#[test]
fn scatter_sweep_on_a_torus_wraps() {
    let mut s = grid(2, 2);
    s.set_probailitiy(500_000);
    s.set_value_at(4, (0, 0)).unwrap();
    let never = [u32::MAX; 4];
    // (0,0) is visited first and sends everything: left and right are both (1,0),
    // up and down are both (0,1)
    s.scatter_sweep(true, &vec![[0; 4], never, never, never]);
    assert_eq!(cells(&s), vec![0, 2, 2, 0]);
    assert!(s.stats().is_completely_toppled);
}

#[test]
fn recursive_bounded_from_the_ring_changes_nothing() {
    let mut s = grid(4, 4);
    s.set_value_at(9, (1, 1)).unwrap();
    let before = cells(&s);
    s.topple(6, 0, 2).unwrap();
    assert_eq!(cells(&s), before);
    assert_eq!(s.stats().num_steps, 1);
    assert_eq!(s.stats().num_topples, 0);
}

#[test]
fn bounded_sweeps_feed_the_ring_and_spare_the_corners() {
    for p in [PROBABILITY_SCALE, 600_000] {
        let mut s = grid(5, 4);
        s.set_probailitiy(p);
        s.set_value_at(2, (0, 0)).unwrap();
        s.set_value_at(1, (2, 0)).unwrap();
        s.set_value_at(30, (1, 1)).unwrap();
        s.set_value_at(11, (3, 2)).unwrap();
        for _ in 0..10 {
            let before = cells(&s);
            s.topple_sandpile();
            let after = cells(&s);
            for y in 0..4 {
                for x in 0..5 {
                    let i = y * 5 + x;
                    let ring = x == 0 || y == 0 || x == 4 || y == 3;
                    let corner = (x == 0 || x == 4) && (y == 0 || y == 3);
                    if corner {
                        assert_eq!(after[i], before[i]);
                    } else if ring {
                        assert!(after[i] >= before[i]);
                    }
                }
            }
        }
    }
}

#[test]
fn torus_recursive_from_a_stable_grid_completes() {
    let mut s = grid(4, 4);
    s.set_mode(ToppleMode::ToroidalDeterministic);
    for (i, v) in [3usize, 2, 3, 1, 0, 3, 2, 3].iter().enumerate() {
        s.set_value_at(*v, (i % 4, i / 4)).unwrap();
    }
    assert!(s.topple_torus(1, 1, 1).unwrap());
    assert!(s.stats().is_completely_toppled);
    assert_eq!(sum(&s), 18);
}

#[test]
fn order_of_additions_does_not_matter() {
    for mode in [ToppleMode::BoundedDeterministic, ToppleMode::ToroidalDeterministic] {
        let mut first = grid(5, 5);
        let mut second = grid(5, 5);
        first.set_mode(mode);
        second.set_mode(mode);
        first.add_at(7, (1, 2)).unwrap();
        first.step();
        first.add_at(9, (3, 3)).unwrap();
        first.step();
        second.add_at(9, (3, 3)).unwrap();
        second.step();
        second.add_at(7, (1, 2)).unwrap();
        second.step();
        assert!(first.stats().is_completely_toppled);
        assert!(second.stats().is_completely_toppled);
        assert_eq!(cells(&first), cells(&second));
    }
}
