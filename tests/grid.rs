use sandpile::{GridError, Sandpile, ToppleMode, PROBABILITY_MIN, PROBABILITY_SCALE};

fn grid(w: usize, h: usize) -> Sandpile {
    Sandpile::new(w, h).unwrap()
}

fn cells(s: &Sandpile) -> Vec<usize> {
    let mut out = Vec::new();
    for y in 0..s.len_y() {
        for x in 0..s.len_x() {
            out.push(s.get_value_at((x, y)).unwrap());
        }
    }
    out
}

fn sum(s: &Sandpile) -> usize {
    cells(s).iter().sum()
}

#[test]
fn new_rejects_empty_dimensions() {
    assert_eq!(Sandpile::new(0, 5).err(), Some(GridError::InvalidDimensions));
    assert_eq!(Sandpile::new(5, 0).err(), Some(GridError::InvalidDimensions));
    let s = grid(1, 1);
    assert_eq!(s.len_x(), 1);
    assert_eq!(s.len_y(), 1);
}

#[test]
fn new_grid_is_empty() {
    let s = grid(4, 3);
    assert_eq!(s.len_x(), 4);
    assert_eq!(s.len_y(), 3);
    assert_eq!(cells(&s), vec![0; 12]);
    assert_eq!(s.total_grains(), 0);
    assert_eq!(s.mode_of(), ToppleMode::BoundedIterative);
    assert_eq!(s.probability_millionths(), PROBABILITY_SCALE);
    let st = s.stats();
    assert_eq!(st.num_steps, 0);
    assert_eq!(st.num_topples, 0);
    assert!(st.is_completely_toppled);
}

#[test]
fn coordinates_are_bounds_checked() {
    let mut s = grid(3, 2);
    assert_eq!(s.get_value_at((3, 0)), Err(GridError::OutOfBounds));
    assert_eq!(s.get_value_at((0, 2)), Err(GridError::OutOfBounds));
    assert_eq!(s.set_value_at(1, (3, 0)), Err(GridError::OutOfBounds));
    assert_eq!(s.add_at(1, (0, 2)), Err(GridError::OutOfBounds));
    assert_eq!(s.remove_at(1, (9, 9)), Err(GridError::OutOfBounds));
    assert_eq!(s.topple(4, 3, 0), Err(GridError::OutOfBounds));
    assert_eq!(s.topple_torus(4, 0, 2), Err(GridError::OutOfBounds));
    assert_eq!(s.scatter_at((3, 1), [0; 4]), Err(GridError::OutOfBounds));
    assert_eq!(cells(&s), vec![0; 6]);
}

#[test]
fn set_and_get_one_cell() {
    let mut s = grid(3, 2);
    s.set_value_at(7, (2, 1)).unwrap();
    assert_eq!(s.get_value_at((2, 1)), Ok(7));
    assert_eq!(cells(&s), vec![0, 0, 0, 0, 0, 7]);
    s.set_value_at(2, (2, 1)).unwrap();
    assert_eq!(s.get_value_at((2, 1)), Ok(2));
    assert_eq!(s.total_grains(), 2);
}

#[test]
fn add_and_remove_saturate() {
    let mut s = grid(3, 3);
    s.add_at(5, (1, 1)).unwrap();
    s.add_at(2, (1, 1)).unwrap();
    assert_eq!(s.get_value_at((1, 1)), Ok(7));
    s.remove_at(3, (1, 1)).unwrap();
    assert_eq!(s.get_value_at((1, 1)), Ok(4));
    s.remove_at(10, (1, 1)).unwrap();
    assert_eq!(s.get_value_at((1, 1)), Ok(0));
    s.add_at(usize::MAX - 1, (0, 0)).unwrap();
    s.add_at(5, (2, 2)).unwrap();
    assert_eq!(s.get_value_at((2, 2)), Ok(1));
    assert_eq!(s.total_grains(), usize::MAX);
    s.set_value_at(9, (1, 0)).unwrap();
    assert_eq!(s.get_value_at((1, 0)), Ok(0));
}

#[test]
fn edits_clear_the_stability_flag() {
    let mut s = grid(3, 3);
    s.step();
    assert!(s.stats().is_completely_toppled);
    s.add_at(1, (1, 1)).unwrap();
    assert!(!s.stats().is_completely_toppled);
    s.step();
    assert!(s.stats().is_completely_toppled);
    s.remove_at(1, (1, 1)).unwrap();
    assert!(!s.stats().is_completely_toppled);
    s.step();
    s.set_value_at(2, (0, 0)).unwrap();
    assert!(!s.stats().is_completely_toppled);
}

#[test]
fn reset_empties_and_clears_flag() {
    let mut s = grid(4, 4);
    s.add_at(9, (1, 2)).unwrap();
    s.add_at(3, (3, 3)).unwrap();
    s.step();
    s.reset();
    assert_eq!(cells(&s), vec![0; 16]);
    assert_eq!(s.total_grains(), 0);
    assert!(!s.stats().is_completely_toppled);
}

#[test]
fn probability_change_keeps_the_stability_flag() {
    let mut s = grid(3, 3);
    s.add_at(2, (1, 1)).unwrap();
    s.step();
    assert!(s.stats().is_completely_toppled);
    s.set_probailitiy(300_000);
    assert!(s.stats().is_completely_toppled);
    s.add_at(5, (1, 1)).unwrap();
    s.set_probailitiy(PROBABILITY_SCALE);
    assert!(!s.stats().is_completely_toppled);
}

#[test]
fn probability_is_clamped() {
    let mut s = grid(3, 3);
    s.set_probailitiy(0);
    assert_eq!(s.probability_millionths(), PROBABILITY_MIN);
    s.set_probailitiy(2_000_000);
    assert_eq!(s.probability_millionths(), PROBABILITY_SCALE);
    s.set_probailitiy(250_000);
    assert_eq!(s.probability_millionths(), 250_000);
}

#[test]
fn snapshot_is_an_independent_copy() {
    let mut s = grid(3, 3);
    s.add_at(6, (1, 1)).unwrap();
    let copy = s.snapshot();
    s.add_at(1, (0, 0)).unwrap();
    assert_eq!(copy.get_value_at((1, 1)), Ok(6));
    assert_eq!(copy.get_value_at((0, 0)), Ok(0));
    assert_eq!(s.get_value_at((0, 0)), Ok(1));
    assert_eq!(sum(&copy), 6);
}
