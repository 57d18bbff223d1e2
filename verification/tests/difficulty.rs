use toggle_solver::bit_array::BitArray;
use toggle_solver::button::Coordinate;
use toggle_solver::difficulty::{nonzero_counts, toggle_counts};
use toggle_solver::level::ToggleLevel;

#[test]
fn counts_of_a_single_cell() {
    let level = ToggleLevel {
        width: 1,
        height: 1,
        subtypes: vec![11],
        states: BitArray::from(&[1]),
        min_clicks: 0,
    };
    let clicks = vec![Coordinate::new(0, 0); 3];
    assert_eq!(toggle_counts(&level, &clicks), vec![3]);
    assert_eq!(toggle_counts(&level, &Vec::new()), vec![0]);
}

#[test]
fn counts_follow_the_order_of_the_states() {
    let level = ToggleLevel {
        width: 2,
        height: 2,
        subtypes: vec![4, 0, 11, 0],
        states: BitArray::new(4),
        min_clicks: 0,
    };
    let clicks = vec![Coordinate::new(0, 0), Coordinate::new(0, 1), Coordinate::new(0, 0)];
    assert_eq!(toggle_counts(&level, &clicks), vec![3, 1, 2, 1]);
}

#[test]
fn clicks_that_change_nothing_count_nothing() {
    let level = ToggleLevel {
        width: 2,
        height: 1,
        subtypes: vec![0, 19],
        states: BitArray::new(2),
        min_clicks: 0,
    };
    let clicks = vec![Coordinate::new(0, 0), Coordinate::new(1, 0)];
    assert_eq!(toggle_counts(&level, &clicks), vec![0, 0]);
}

#[test]
fn counts_that_are_zero_are_left_out() {
    assert_eq!(nonzero_counts(&vec![0, 3, 0, 0, 1, 2, 0]), vec![3, 1, 2]);
    assert_eq!(nonzero_counts(&vec![0, 0]), Vec::<usize>::new());
    assert_eq!(nonzero_counts(&Vec::new()), Vec::<usize>::new());
    assert_eq!(nonzero_counts(&vec![5]), vec![5]);
}
