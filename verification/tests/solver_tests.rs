use samegame::grid::Grid;
use samegame::shape::{Color as ShapeColor, Shape};
use samegame::solver::Solver;

fn replay(start: &Grid, path: &[(usize, usize)]) -> Grid {
    let mut grid = start.duplicate();
    for &(row, col) in path {
        grid.remove(row, col);
    }
    grid
}

#[test]
fn beam_search_solves_a_two_cell_board() {
    let grid = Grid::try_from("OO").unwrap();
    let solver = Solver::new(grid.duplicate(), 17, 4);
    let path = solver.beam_search().expect("a two-cell board is solvable");
    assert_eq!(path.len(), 1);
    assert!(replay(&grid, &path).is_solved());
}

#[test]
fn beam_search_solution_replays_to_a_cleared_board() {
    let grid = Grid::try_from("OPG\nOPB\nOPG").unwrap();
    let solver = Solver::new(grid.duplicate(), 17, 4);
    let path = solver.beam_search().expect("every region can be removed");
    let end = replay(&grid, &path);
    assert!(end.is_solved());
    assert_eq!(end.moves.len(), path.len());
}

#[test]
fn beam_search_reports_no_solution_within_bounds() {
    // three single-cell regions need three moves: out of reach at depth two
    let grid = Grid::try_from("OPO").unwrap();
    let solver = Solver::new(grid, 2, 2);
    assert_eq!(solver.beam_search(), None);
}

#[test]
fn beam_search_is_deterministic() {
    let grid = Grid::try_from("OPG\nOPB\nOPG").unwrap();
    let solver = Solver::new(grid, 17, 4);
    let first = solver.beam_search();
    let second = solver.beam_search();
    assert_eq!(first, second);
}

#[test]
fn solver_keeps_its_bounds() {
    let solver = Solver::new(Grid::try_from("O").unwrap(), 17, 4);
    assert_eq!(solver.beam_max_depth, 17);
    assert_eq!(solver.beam_width, 4);
}

#[test]
fn beam_search_none_when_nothing_to_select() {
    let solver = Solver::new(Grid::new(vec![vec![None, None]]), 17, 4);
    assert_eq!(solver.beam_search(), None);
}

#[test]
fn beam_search_takes_a_one_move_win() {
    let solver = Solver::new(Grid::try_from("OO").unwrap(), 3, 1);
    let path = solver.beam_search().expect("a one-move win is always found");
    assert!(!path.is_empty() && path.len() <= 3);
}

#[test]
fn shape_holds_its_color() {
    let shape = Shape::new(ShapeColor::Blue);
    assert_eq!(shape.color, Some(ShapeColor::Blue));
}
