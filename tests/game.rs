use snake_solver::arena::{Arena, Cell};
use snake_solver::geometry::{Direction, Directions, Pos};
use snake_solver::snake::{compute_snake_direction, setup_snake, update_snake_direction_human, Snake};
use snake_solver::solver::astar::AstarSolver;
use snake_solver::solver::Solver;

fn p(x: u32, y: u32) -> Pos {
    Pos::new(x, y)
}

#[test]
fn setup_snake_lays_out_three_cells_at_the_centre() {
    let mut arena = Arena::setup_arena(p(16, 16));
    let mut solver = Solver::default();
    let snake = setup_snake(&mut arena, &mut solver);
    assert_eq!(snake.direction, Direction::Left);
    assert_eq!(snake.length, 2);
    assert_eq!(arena.head, p(7, 8));
    assert_eq!(arena.tail, p(9, 8));
    assert_eq!(arena.behind, p(10, 8));
    assert_eq!(arena.get_cell_unchecked(p(7, 8)), Cell::SnakeHead);
    assert_eq!(arena.get_cell_unchecked(p(8, 8)), Cell::SnakeTail { distance: 1 });
    assert_eq!(arena.get_cell_unchecked(p(9, 8)), Cell::SnakeTail { distance: 2 });
    assert_eq!(arena.get_cell_unchecked(p(10, 8)), Cell::Empty);
    assert!(arena.adjacencies.contains(p(7, 8)));
    assert!(!arena.adjacencies.contains(p(8, 8)));
    assert_eq!(arena.adjacencies.get_segment_direction(p(9, 8)), Some(Direction::Left));
}

#[test]
fn get_cell_is_none_off_the_board() {
    let arena = Arena::setup_arena(p(3, 2));
    assert_eq!(arena.get_cell(-1, 0), None);
    assert_eq!(arena.get_cell(0, 2), None);
    assert_eq!(arena.get_cell(2, 1), Some(Cell::Empty));
}

#[test]
fn positions_are_row_major() {
    let arena = Arena::setup_arena(p(2, 2));
    assert_eq!(arena.positions(), vec![p(0, 0), p(1, 0), p(0, 1), p(1, 1)]);
    assert_eq!(arena.cells().len(), 4);
}

#[test]
fn neighbors_matching_finds_the_body() {
    let mut arena = Arena::setup_arena(p(3, 3));
    arena.set_cell(p(1, 2), Cell::SnakeTail { distance: 1 });
    arena.set_cell(p(0, 1), Cell::SnakeTail { distance: 1 });
    arena.set_cell(p(2, 1), Cell::SnakeTail { distance: 2 });
    let d = arena.neighbors_matching(p(1, 1), Cell::SnakeTail { distance: 1 });
    assert!(d.up() && d.left() && !d.down() && !d.right());
}

#[test]
fn human_input_cannot_reverse() {
    let mut snake = Snake::new();
    update_snake_direction_human(Some(Direction::Right), &mut snake);
    assert_eq!(snake.direction, Direction::Left);
    update_snake_direction_human(Some(Direction::Up), &mut snake);
    assert_eq!(snake.direction, Direction::Up);
    assert!(!snake.possible_directions.contains(Direction::Down));
    update_snake_direction_human(None, &mut snake);
    assert_eq!(snake.direction, Direction::Up);
}

#[test]
fn computed_direction_becomes_the_heading() {
    let mut arena = Arena::setup_arena(p(8, 8));
    let mut solver = Solver::Astar(AstarSolver::new());
    let mut snake = setup_snake(&mut arena, &mut solver);
    arena.set_cell(p(3, 7), Cell::Food);
    arena.food = Some(p(3, 7));
    compute_snake_direction(&arena, &mut snake, &mut solver);
    assert_eq!(snake.direction, Direction::Up);
    assert!(!snake.possible_directions.contains(Direction::Down));
}

#[test]
fn directions_from_a_single_direction() {
    let d = Directions::from(Direction::Down);
    assert!(d.down() && !d.up() && !d.left() && !d.right());
    assert_eq!(Direction::Up.rotate_clockwise(), Direction::Right);
    assert_eq!(Direction::Up.rotate_counterclockwise(), Direction::Left);
    assert_eq!(Direction::from_offset((0, -1)), Some(Direction::Down));
    assert_eq!(Direction::from_offset((0, 0)), None);
    assert!(Direction::Left.is_horizontal() && !Direction::Left.is_vertical());
}
