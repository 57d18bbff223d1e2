use toggle_solver::bit_array::BitArray;
use toggle_solver::button::Coordinate;
use toggle_solver::grid::Grid;
use toggle_solver::level::ToggleLevel;
use toggle_solver::search::{
    calculate_cost, calculate_diff, run_astar, Progress, Report, Result, Search, SolverItem,
};

fn make_level(width: u32, height: u32, subtypes: Vec<u8>, on: &[(u32, u32)]) -> ToggleLevel {
    let mut states = BitArray::new((width * height) as usize);
    for (x, y) in on {
        states.set((x * height + y) as usize, true);
    }
    ToggleLevel { width, height, subtypes, states, min_clicks: 0 }
}

fn solves(level: &ToggleLevel, clicks: &[Coordinate]) -> bool {
    let mut grid = Grid::from_level(level);
    for c in clicks {
        grid.click(c.x, c.y);
    }
    let states = grid.get_states();
    (0..states.len()).all(|i| !states.get(i))
}

fn repeats_an_arrow(level: &ToggleLevel, clicks: &[Coordinate]) -> bool {
    let grid = Grid::from_level(level);
    clicks.windows(2).any(|pair| {
        pair[0] == pair[1]
            && toggle_solver::button::is_arrow(grid.at(pair[0].x, pair[0].y).unwrap().func)
    })
}

#[test]
fn distance_counts_differing_bits() {
    let mut a = BitArray::new(10);
    let mut b = BitArray::new(10);
    assert_eq!(calculate_diff(&a, &b), 0);
    a.set(1, true);
    a.set(9, true);
    b.set(9, true);
    b.set(4, true);
    assert_eq!(calculate_diff(&a, &b), 2);
    assert_eq!(calculate_diff(&b, &a), 2);
}

#[test]
fn cost_is_squared_distance_plus_twice_the_clicks() {
    let mut item = SolverItem::new();
    assert_eq!(item.coord, Coordinate::new(0, 0));
    assert!(item.orders.is_empty());
    item.state = BitArray::new(6);
    item.state.set(0, true);
    item.state.set(2, true);
    item.state.set(5, true);
    item.orders.push(Coordinate::new(1, 0));
    item.orders.push(Coordinate::new(0, 1));
    let target = BitArray::new(6);
    assert_eq!(calculate_cost(&item, &target), 13);
    item.orders.clear();
    assert_eq!(calculate_cost(&item, &target), 9);
    assert_eq!(calculate_cost(&item, &item.state), 0);
}

#[test]
fn four_arrows_all_on_are_solved() {
    let level = make_level(2, 2, vec![11, 11, 11, 11], &[(0, 0), (0, 1), (1, 0), (1, 1)]);
    for x in 0..2 {
        for y in 0..2 {
            assert!(!solves(&level, &[Coordinate::new(x, y)]));
        }
    }
    match run_astar(&level) {
        Result::Success(clicks) => {
            assert_eq!(clicks.len(), 4);
            assert!(solves(&level, &clicks));
            assert!(!repeats_an_arrow(&level, &clicks));
        }
        Result::Fail => panic!("no solution found"),
    }
}

#[test]
fn cross_of_a_four_arrow_takes_one_click() {
    let level = make_level(2, 2, vec![11, 11, 11, 11], &[(0, 0), (0, 1), (1, 0)]);
    match run_astar(&level) {
        Result::Success(clicks) => assert_eq!(clicks, vec![Coordinate::new(0, 0)]),
        Result::Fail => panic!("no solution found"),
    }
    let level = make_level(1, 1, vec![11], &[(0, 0)]);
    match run_astar(&level) {
        Result::Success(clicks) => assert_eq!(clicks, vec![Coordinate::new(0, 0)]),
        Result::Fail => panic!("no solution found"),
    }
}

#[test]
fn inert_grid_with_a_cell_on_fails() {
    let level = make_level(3, 2, vec![0; 6], &[(1, 1)]);
    assert!(matches!(run_astar(&level), Result::Fail));
}

#[test]
fn facing_arrows_never_repeat_a_click() {
    let level = make_level(2, 1, vec![4, 3], &[(0, 0), (1, 0)]);
    match run_astar(&level) {
        Result::Success(clicks) => {
            assert_eq!(clicks.len(), 1);
            assert!(solves(&level, &clicks));
            assert!(!repeats_an_arrow(&level, &clicks));
        }
        Result::Fail => panic!("no solution found"),
    }
    let level = make_level(2, 1, vec![4, 3], &[(0, 0)]);
    assert!(matches!(run_astar(&level), Result::Fail));
}

#[test]
fn solution_of_a_mixed_level_switches_everything_off() {
    let level = make_level(3, 3, vec![4, 11, 3, 20, 14, 1, 19, 12, 16], &[(0, 0), (2, 1), (1, 2)]);
    match run_astar(&level) {
        Result::Success(clicks) => {
            assert!(!clicks.is_empty());
            assert!(solves(&level, &clicks));
            assert!(!repeats_an_arrow(&level, &clicks));
        }
        Result::Fail => panic!("no solution found"),
    }
}

#[test]
fn solution_needs_several_clicks() {
    let level = make_level(3, 1, vec![4, 4, 0], &[(0, 0)]);
    match run_astar(&level) {
        Result::Success(clicks) => {
            assert_eq!(clicks, vec![Coordinate::new(0, 0), Coordinate::new(1, 0)]);
            assert!(solves(&level, &clicks));
        }
        Result::Fail => panic!("no solution found"),
    }
}

#[test]
fn level_that_starts_solved_and_cannot_move_fails() {
    let level = make_level(2, 2, vec![0; 4], &[]);
    assert!(matches!(run_astar(&level), Result::Fail));
}

#[test]
fn level_that_starts_solved_is_not_met_again() {
    let level = make_level(2, 1, vec![14, 14], &[]);
    assert!(matches!(run_astar(&level), Result::Fail));
    let level = make_level(1, 1, vec![11], &[]);
    assert!(matches!(run_astar(&level), Result::Fail));
}

#[test]
fn first_click_that_changes_nothing_solves_a_solved_level() {
    let level = make_level(2, 1, vec![19, 0], &[]);
    match run_astar(&level) {
        Result::Success(clicks) => assert_eq!(clicks, vec![Coordinate::new(0, 0)]),
        Result::Fail => panic!("no solution found"),
    }
}

#[test]
fn unsolvable_level_fails() {
    let level = make_level(3, 1, vec![4, 0, 3], &[(1, 0)]);
    assert!(matches!(run_astar(&level), Result::Fail));
}

#[test]
fn level_without_cells_fails() {
    let level = make_level(0, 0, vec![], &[]);
    assert!(matches!(run_astar(&level), Result::Fail));
}

#[test]
fn cheapest_node_first_gives_the_short_way() {
    let level = ToggleLevel {
        width: 3,
        height: 1,
        subtypes: vec![3, 16, 0],
        states: BitArray::from(&[0x06]),
        min_clicks: 0,
    };
    match run_astar(&level) {
        Result::Success(clicks) => {
            assert_eq!(clicks, vec![Coordinate::new(1, 0), Coordinate::new(0, 0)]);
            assert!(solves(&level, &clicks));
        }
        Result::Fail => panic!("no solution found"),
    }
}

#[test]
fn repeat_of_a_button_without_arrow_is_tried() {
    let level = ToggleLevel {
        width: 2,
        height: 1,
        subtypes: vec![16, 0],
        states: BitArray::from(&[0x02]),
        min_clicks: 0,
    };
    match run_astar(&level) {
        Result::Success(clicks) => {
            assert_eq!(clicks, vec![Coordinate::new(0, 0), Coordinate::new(0, 0)]);
        }
        Result::Fail => panic!("no solution found"),
    }
}

#[test]
fn solution_has_no_shorter_start_that_solves() {
    let level = make_level(3, 3, vec![4, 11, 3, 20, 14, 1, 19, 12, 16], &[(0, 0), (2, 1), (1, 2)]);
    match run_astar(&level) {
        Result::Success(clicks) => {
            for k in 1..clicks.len() {
                assert!(!solves(&level, &clicks[..k]));
            }
        }
        Result::Fail => panic!("no solution found"),
    }
}

#[test]
fn rounds_of_a_search_report_the_node_that_left_the_queue() {
    let level = make_level(3, 1, vec![4, 4, 0], &[(0, 0)]);
    let mut search = Search::begin(&level);
    match search.advance() {
        Progress::Working(report) => {
            assert_eq!(report, Report { distance: 2, waiting: 1, clicks: 1 });
        }
        other => panic!("unexpected {:?}", other),
    }
    match search.advance() {
        Progress::Solved(clicks) => {
            assert_eq!(clicks, vec![Coordinate::new(0, 0), Coordinate::new(1, 0)]);
        }
        other => panic!("unexpected {:?}", other),
    }
}

#[test]
fn rounds_of_a_search_come_to_an_end() {
    let level = make_level(3, 1, vec![4, 0, 3], &[(1, 0)]);
    let mut search = Search::begin(&level);
    let mut rounds = 0;
    loop {
        match search.advance() {
            Progress::Working(report) => {
                rounds += 1;
                assert!(report.distance > 0);
                assert!(report.clicks >= 1);
            }
            Progress::Solved(_) => panic!("no solution exists"),
            Progress::Exhausted => break,
        }
    }
    assert_eq!(rounds, 2);
    assert!(matches!(search.advance(), Progress::Exhausted));
}
