use toggle_solver::bit_array::BitArray;
use toggle_solver::button::{convert_subtype_to_func, is_arrow, ButtonFunction, Coordinate, OneArrow, TwoArrow};
use toggle_solver::grid::Grid;
use toggle_solver::level::ToggleLevel;

fn make_level(width: u32, height: u32, funcs: &[(u32, u32, u8)], on: &[(u32, u32)]) -> ToggleLevel {
    let cells = (width * height) as usize;
    let mut subtypes = vec![0u8; cells];
    for (x, y, subtype) in funcs {
        subtypes[(y * width + x) as usize] = *subtype;
    }
    let mut states = BitArray::new(cells);
    for (x, y) in on {
        states.set((x * height + y) as usize, true);
    }
    ToggleLevel { width, height, subtypes, states, min_clicks: 0 }
}

fn make_grid(width: u32, height: u32, funcs: &[(u32, u32, u8)], on: &[(u32, u32)]) -> Grid {
    Grid::from_level(&make_level(width, height, funcs, on))
}

fn cells_on(grid: &Grid) -> Vec<(i32, i32)> {
    let mut result = Vec::new();
    for x in 0..grid.width() {
        for y in 0..grid.height() {
            if grid.at(x, y).unwrap().is_on {
                result.push((x, y));
            }
        }
    }
    result
}

#[test]
fn selectors_map_to_the_rule_table() {
    assert_eq!(convert_subtype_to_func(0), ButtonFunction::Nothing);
    assert_eq!(convert_subtype_to_func(1), ButtonFunction::OneArrow(OneArrow::Up));
    assert_eq!(convert_subtype_to_func(2), ButtonFunction::OneArrow(OneArrow::Down));
    assert_eq!(convert_subtype_to_func(3), ButtonFunction::OneArrow(OneArrow::Left));
    assert_eq!(convert_subtype_to_func(4), ButtonFunction::OneArrow(OneArrow::Right));
    assert_eq!(convert_subtype_to_func(5), ButtonFunction::OneArrow(OneArrow::LeftUp));
    assert_eq!(convert_subtype_to_func(6), ButtonFunction::OneArrow(OneArrow::RightUp));
    assert_eq!(convert_subtype_to_func(7), ButtonFunction::OneArrow(OneArrow::LeftDown));
    assert_eq!(convert_subtype_to_func(8), ButtonFunction::OneArrow(OneArrow::RightDown));
    assert_eq!(convert_subtype_to_func(9), ButtonFunction::TwoArrow(TwoArrow::BothHorizontal));
    assert_eq!(convert_subtype_to_func(10), ButtonFunction::TwoArrow(TwoArrow::BothVertical));
    assert_eq!(convert_subtype_to_func(11), ButtonFunction::FourArrow);
    assert_eq!(convert_subtype_to_func(12), ButtonFunction::TwoArrow(TwoArrow::LeftUpRightDown));
    assert_eq!(convert_subtype_to_func(13), ButtonFunction::TwoArrow(TwoArrow::LeftDownRightUp));
    assert_eq!(convert_subtype_to_func(14), ButtonFunction::Rotate(true));
    assert_eq!(convert_subtype_to_func(15), ButtonFunction::Rotate(false));
    assert_eq!(convert_subtype_to_func(16), ButtonFunction::Symmetry(true));
    assert_eq!(convert_subtype_to_func(17), ButtonFunction::Symmetry(false));
    assert_eq!(convert_subtype_to_func(18), ButtonFunction::Shift(false));
    assert_eq!(convert_subtype_to_func(19), ButtonFunction::Shift(true));
    assert_eq!(convert_subtype_to_func(20), ButtonFunction::AroundEight);
    assert_eq!(convert_subtype_to_func(21), ButtonFunction::Nothing);
    assert_eq!(convert_subtype_to_func(255), ButtonFunction::Nothing);
}

#[test]
fn arrow_rules_are_the_three_arrow_families() {
    assert!(is_arrow(ButtonFunction::OneArrow(OneArrow::Left)));
    assert!(is_arrow(ButtonFunction::TwoArrow(TwoArrow::BothVertical)));
    assert!(is_arrow(ButtonFunction::FourArrow));
    assert!(!is_arrow(ButtonFunction::Nothing));
    assert!(!is_arrow(ButtonFunction::Rotate(true)));
    assert!(!is_arrow(ButtonFunction::Shift(false)));
    assert!(!is_arrow(ButtonFunction::Symmetry(true)));
    assert!(!is_arrow(ButtonFunction::AroundEight));
}

#[test]
fn new_grid_is_off_and_inert() {
    let grid = Grid::new(3, 2);
    assert_eq!(grid.width(), 3);
    assert_eq!(grid.height(), 2);
    for x in 0..3 {
        for y in 0..2 {
            let button = grid.at(x, y).unwrap();
            assert_eq!(button.coord, Coordinate::new(x, y));
            assert!(!button.is_on);
            assert_eq!(button.func, ButtonFunction::Nothing);
        }
    }
}

#[test]
fn grid_without_cells() {
    let grid = Grid::new(0, 0);
    assert!(grid.at(0, 0).is_none());
    assert_eq!(grid.get_states().len(), 0);
}

#[test]
fn at_is_none_outside_the_grid() {
    let mut grid = Grid::new(3, 2);
    assert!(grid.at(-1, 1).is_none());
    assert!(grid.at(3, 0).is_none());
    assert!(grid.at(0, 2).is_none());
    assert!(grid.at(0, -1).is_none());
    assert!(grid.at_mut(-1, 1).is_none());
    assert!(grid.at_mut(3, 1).is_none());
    assert!(grid.check_range(2, 1));
    assert!(!grid.check_range(3, 1));
    assert!(!grid.check_range(2, 2));
    assert!(!grid.check_range(-1, 0));
}

#[test]
fn at_mut_writes_one_button() {
    let mut grid = Grid::new(2, 2);
    grid.at_mut(1, 0).unwrap().is_on = true;
    grid.at_mut(0, 1).unwrap().func = ButtonFunction::FourArrow;
    assert_eq!(cells_on(&grid), vec![(1, 0)]);
    assert_eq!(grid.at(0, 1).unwrap().func, ButtonFunction::FourArrow);
    assert_eq!(grid.at(1, 0).unwrap().func, ButtonFunction::Nothing);
    grid.click(0, 1);
    assert_eq!(cells_on(&grid), vec![(0, 0), (0, 1), (1, 0), (1, 1)]);
}

#[test]
fn states_are_ordered_by_column_then_row() {
    let grid = make_grid(2, 3, &[], &[(0, 1), (1, 2)]);
    let states = grid.get_states();
    assert_eq!(states.len(), 6);
    let on: Vec<usize> = (0..6).filter(|i| states.get(*i)).collect();
    assert_eq!(on, vec![1, 5]);
}

#[test]
fn set_states_reads_back() {
    let mut grid = Grid::new(2, 3);
    let mut states = BitArray::new(6);
    states.set(2, true);
    states.set(3, true);
    grid.set_states(&states);
    assert_eq!(cells_on(&grid), vec![(0, 2), (1, 0)]);
    assert_eq!(grid.get_states(), states);
}

#[test]
fn set_all_state_overwrites_every_cell() {
    let mut grid = make_grid(2, 2, &[(0, 0, 11)], &[(1, 1)]);
    grid.set_all_state(true);
    assert_eq!(cells_on(&grid).len(), 4);
    grid.set_all_state(false);
    assert_eq!(cells_on(&grid).len(), 0);
    assert_eq!(grid.at(0, 0).unwrap().func, ButtonFunction::FourArrow);
}

#[test]
fn click_on_nothing_changes_nothing() {
    let mut grid = make_grid(2, 2, &[], &[(1, 0)]);
    grid.click(1, 0);
    grid.click(0, 1);
    assert_eq!(cells_on(&grid), vec![(1, 0)]);
}

#[test]
fn one_arrow_toggles_its_ray() {
    let mut grid = make_grid(3, 3, &[(0, 1, 4), (2, 0, 5), (1, 2, 2)], &[]);
    grid.click(0, 1);
    assert_eq!(cells_on(&grid), vec![(0, 1), (1, 1), (2, 1)]);
    grid.click(2, 0);
    assert_eq!(cells_on(&grid), vec![(0, 1), (0, 2), (2, 0), (2, 1)]);
    grid.click(1, 2);
    assert_eq!(cells_on(&grid), vec![(0, 1), (0, 2), (1, 0), (1, 1), (1, 2), (2, 0), (2, 1)]);
}

#[test]
fn one_arrow_directions() {
    let expected: [(u8, Vec<(i32, i32)>); 8] = [
        (1, vec![(1, 1), (1, 2)]),
        (2, vec![(1, 0), (1, 1)]),
        (3, vec![(0, 1), (1, 1)]),
        (4, vec![(1, 1), (2, 1)]),
        (5, vec![(0, 2), (1, 1)]),
        (6, vec![(1, 1), (2, 2)]),
        (7, vec![(0, 0), (1, 1)]),
        (8, vec![(1, 1), (2, 0)]),
    ];
    for (subtype, cells) in expected.iter() {
        let mut grid = make_grid(3, 3, &[(1, 1, *subtype)], &[]);
        grid.click(1, 1);
        assert_eq!(&cells_on(&grid), cells);
    }
}

#[test]
fn one_arrow_twice_restores_the_grid() {
    for subtype in 1u8..=8 {
        let mut grid = make_grid(4, 3, &[(1, 1, subtype)], &[(0, 0), (1, 1), (3, 2), (2, 1)]);
        let before = grid.get_states();
        grid.click(1, 1);
        assert_ne!(grid.get_states(), before);
        grid.click(1, 1);
        assert_eq!(grid.get_states(), before);
    }
}

#[test]
fn two_arrow_toggles_the_cell_and_both_rays() {
    let mut grid = make_grid(3, 3, &[(1, 1, 10)], &[]);
    grid.click(1, 1);
    assert_eq!(cells_on(&grid), vec![(1, 0), (1, 1), (1, 2)]);
    let mut grid = make_grid(3, 3, &[(0, 1, 9)], &[]);
    grid.click(0, 1);
    assert_eq!(cells_on(&grid), vec![(0, 1), (1, 1), (2, 1)]);
    let mut grid = make_grid(3, 3, &[(1, 1, 12)], &[]);
    grid.click(1, 1);
    assert_eq!(cells_on(&grid), vec![(0, 2), (1, 1), (2, 0)]);
    let mut grid = make_grid(3, 3, &[(1, 1, 13)], &[]);
    grid.click(1, 1);
    assert_eq!(cells_on(&grid), vec![(0, 0), (1, 1), (2, 2)]);
}

#[test]
fn four_arrow_toggles_row_and_column() {
    let mut grid = make_grid(3, 2, &[(1, 0, 11)], &[]);
    grid.click(1, 0);
    assert_eq!(cells_on(&grid), vec![(0, 0), (1, 0), (1, 1), (2, 0)]);
}

#[test]
fn four_arrow_changes_width_plus_height_minus_one_cells() {
    for (width, height) in [(1u32, 1u32), (4, 3), (5, 1), (1, 6), (7, 7)] {
        for x in 0..width {
            for y in 0..height {
                let mut grid = make_grid(width, height, &[(x, y, 11)], &[(0, 0)]);
                let before = grid.get_states();
                grid.click(x as i32, y as i32);
                let after = grid.get_states();
                let changed = (0..before.len()).filter(|i| before.get(*i) != after.get(*i)).count();
                assert_eq!(changed as u32, width + height - 1);
            }
        }
    }
}

#[test]
fn around_eight_toggles_the_neighbours_that_exist() {
    let mut grid = make_grid(3, 3, &[(0, 0, 20), (1, 1, 20)], &[]);
    grid.click(0, 0);
    assert_eq!(cells_on(&grid), vec![(0, 0), (0, 1), (1, 0), (1, 1)]);
    grid.click(1, 1);
    assert_eq!(cells_on(&grid), vec![(0, 2), (1, 2), (2, 0), (2, 1), (2, 2)]);
}

#[test]
fn rotate_moves_neighbour_states_by_one_place() {
    let mut grid = make_grid(3, 3, &[(1, 1, 14)], &[(1, 2)]);
    grid.click(1, 1);
    assert_eq!(cells_on(&grid), vec![(1, 1), (2, 2)]);
    let mut grid = make_grid(3, 3, &[(1, 1, 15)], &[(1, 2)]);
    grid.click(1, 1);
    assert_eq!(cells_on(&grid), vec![(0, 2), (1, 1)]);
    let mut grid = make_grid(3, 3, &[(1, 1, 14)], &[(0, 2), (2, 1), (1, 0)]);
    grid.click(1, 1);
    assert_eq!(cells_on(&grid), vec![(0, 0), (1, 1), (1, 2), (2, 0)]);
}

#[test]
fn rotate_skips_neighbours_that_the_grid_lacks() {
    let mut grid = make_grid(2, 2, &[(0, 0, 14)], &[(1, 0)]);
    grid.click(0, 0);
    assert_eq!(cells_on(&grid), vec![(0, 0), (0, 1)]);
    let mut grid = make_grid(2, 2, &[(0, 0, 15)], &[(1, 0)]);
    grid.click(0, 0);
    assert_eq!(cells_on(&grid), vec![(0, 0), (1, 1)]);
    let mut grid = make_grid(1, 1, &[(0, 0, 14)], &[]);
    grid.click(0, 0);
    assert_eq!(cells_on(&grid), vec![(0, 0)]);
    let mut grid = make_grid(1, 2, &[(0, 0, 14)], &[(0, 1)]);
    grid.click(0, 0);
    assert_eq!(cells_on(&grid), vec![(0, 0), (0, 1)]);
}

#[test]
fn rotate_clockwise_then_back_restores_the_grid() {
    for (x, y) in [(0, 0), (1, 1), (3, 2), (0, 1), (2, 0), (3, 0)] {
        let mut grid = Grid::from_level(&make_level(4, 3, &[], &[(0, 0), (1, 0), (1, 2), (3, 1), (2, 2), (0, 1)]));
        let before = grid.get_states();
        grid.solve_rotate(x, y, true);
        grid.solve_rotate(x, y, false);
        assert_eq!(grid.get_states(), before);
        grid.solve_rotate(x, y, false);
        grid.solve_rotate(x, y, true);
        assert_eq!(grid.get_states(), before);
    }
}

#[test]
fn shift_moves_the_row_with_wraparound() {
    let mut grid = make_grid(3, 2, &[(0, 0, 19)], &[(0, 0), (0, 1)]);
    grid.click(0, 0);
    assert_eq!(cells_on(&grid), vec![(0, 1), (1, 0)]);
    grid.click(0, 0);
    assert_eq!(cells_on(&grid), vec![(0, 1), (2, 0)]);
    grid.click(0, 0);
    assert_eq!(cells_on(&grid), vec![(0, 0), (0, 1)]);
    let mut grid = make_grid(3, 1, &[(2, 0, 18)], &[(1, 0)]);
    grid.click(2, 0);
    assert_eq!(cells_on(&grid), vec![(0, 0)]);
    grid.click(2, 0);
    assert_eq!(cells_on(&grid), vec![(2, 0)]);
    grid.click(2, 0);
    assert_eq!(cells_on(&grid), vec![(1, 0)]);
}

#[test]
fn shift_of_a_long_row() {
    let mut grid = make_grid(20, 1, &[(0, 0, 19)], &[(19, 0), (3, 0)]);
    grid.click(0, 0);
    assert_eq!(cells_on(&grid), vec![(0, 0), (4, 0)]);
}

#[test]
fn symmetry_swaps_the_lines_on_both_sides() {
    let mut grid = make_grid(3, 3, &[(1, 1, 16)], &[(0, 0), (0, 2), (2, 1)]);
    grid.click(1, 1);
    assert_eq!(cells_on(&grid), vec![(0, 1), (1, 1), (2, 0), (2, 2)]);
    let mut grid = make_grid(3, 3, &[(1, 1, 17)], &[(0, 0), (2, 2), (1, 0)]);
    grid.click(1, 1);
    assert_eq!(cells_on(&grid), vec![(0, 2), (1, 1), (1, 2), (2, 0)]);
}

#[test]
fn symmetry_clears_a_line_without_a_partner() {
    let mut grid = make_grid(2, 2, &[(0, 0, 16)], &[(1, 0), (1, 1)]);
    grid.click(0, 0);
    assert_eq!(cells_on(&grid), vec![(0, 0)]);
    let mut grid = make_grid(2, 2, &[(1, 1, 17)], &[(0, 0), (1, 0), (1, 1)]);
    grid.click(1, 1);
    assert_eq!(cells_on(&grid), vec![]);
    let mut grid = make_grid(1, 1, &[(0, 0, 16)], &[]);
    grid.click(0, 0);
    assert_eq!(cells_on(&grid), vec![(0, 0)]);
}

#[test]
fn text_of_a_grid() {
    let grid = make_grid(2, 2, &[], &[(0, 1)]);
    assert_eq!(grid.render(), "O . \n. . \n");
}
