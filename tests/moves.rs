use snake_solver::arena::{check_win, update_snake_position, Arena, Cell};
use snake_solver::geometry::{Direction, Pos};
use snake_solver::snake::{setup_snake, Snake};
use snake_solver::solver::astar::AstarSolver;
use snake_solver::solver::Solver;

fn p(x: u32, y: u32) -> Pos {
    Pos::new(x, y)
}

fn started(w: u32, h: u32) -> (Arena, Snake) {
    let mut arena = Arena::setup_arena(p(w, h));
    let mut solver = Solver::Astar(AstarSolver::new());
    let snake = setup_snake(&mut arena, &mut solver);
    (arena, snake)
}

#[test]
fn a_move_shifts_every_segment() {
    let (mut arena, mut snake) = started(8, 8);
    // head (3,4), body (4,4) (5,4), heading left
    let lost = update_snake_position(&mut arena, &mut snake);
    assert!(!lost);
    assert_eq!(arena.head, p(2, 4));
    assert_eq!(arena.get_cell_unchecked(p(2, 4)), Cell::SnakeHead);
    assert_eq!(arena.get_cell_unchecked(p(3, 4)), Cell::SnakeTail { distance: 1 });
    assert_eq!(arena.get_cell_unchecked(p(4, 4)), Cell::SnakeTail { distance: 2 });
    assert_eq!(arena.get_cell_unchecked(p(5, 4)), Cell::Empty);
    assert_eq!(arena.tail, p(4, 4));
    assert_eq!(arena.behind, p(5, 4));
    assert!(!arena.adjacencies.contains(p(3, 4)));
    assert!(arena.adjacencies.contains(p(5, 4)));
    assert_eq!(arena.adjacencies.get_segment_direction(p(3, 4)), Some(Direction::Left));
    assert_eq!(arena.adjacencies.get_segment_direction(p(5, 4)), None);
    assert!(!arena.just_ate);
}

#[test]
fn eating_grows_the_snake_on_the_next_move() {
    let (mut arena, mut snake) = started(8, 8);
    arena.set_cell(p(2, 4), Cell::Food);
    arena.food = Some(p(2, 4));
    assert!(!update_snake_position(&mut arena, &mut snake));
    assert_eq!(snake.length, 3);
    assert!(arena.just_ate);
    assert_eq!(arena.food, None);
    assert_eq!(arena.get_cell_unchecked(p(5, 4)), Cell::Empty);
    assert!(!update_snake_position(&mut arena, &mut snake));
    assert!(!arena.just_ate);
    // the segment at the old length stays: the snake is now one longer
    assert_eq!(arena.get_cell_unchecked(p(4, 4)), Cell::SnakeTail { distance: 3 });
    assert_eq!(arena.get_cell_unchecked(p(1, 4)), Cell::SnakeHead);
}

#[test]
fn running_off_the_board_loses_and_restores_cells() {
    let (mut arena, mut snake) = started(5, 3);
    // head (1,1), heading left: one move to x = 0, then off the board
    assert!(!update_snake_position(&mut arena, &mut snake));
    let before: Vec<Cell> = arena.cells().iter().map(|c| c.1).collect();
    assert!(update_snake_position(&mut arena, &mut snake));
    let after: Vec<Cell> = arena.cells().iter().map(|c| c.1).collect();
    assert_eq!(before, after);
    assert_eq!(snake.length, 2);
}

#[test]
fn biting_the_body_loses() {
    let (mut arena, mut snake) = started(8, 8);
    snake.direction = Direction::Right;
    let before: Vec<Cell> = arena.cells().iter().map(|c| c.1).collect();
    assert!(update_snake_position(&mut arena, &mut snake));
    let after: Vec<Cell> = arena.cells().iter().map(|c| c.1).collect();
    assert_eq!(before, after);
}

#[test]
fn food_spawns_on_an_empty_cell() {
    let (mut arena, _snake) = started(6, 6);
    arena.spawn_food();
    let food = arena.food.unwrap();
    assert_eq!(arena.get_cell_unchecked(food), Cell::Food);
    let foods = arena.cells().iter().filter(|c| c.1 == Cell::Food).count();
    assert_eq!(foods, 1);
    // a second call keeps the same food
    arena.spawn_food();
    assert_eq!(arena.food, Some(food));
    arena.respawn_food();
    assert_eq!(arena.food, None);
}

#[test]
fn place_food_counts_empty_cells_in_row_major_order() {
    let (mut arena, _snake) = started(5, 3);
    // row 0 is empty: the third empty cell is (2,0)
    assert!(arena.place_food(2));
    assert_eq!(arena.food, Some(p(2, 0)));
    assert_eq!(arena.get_cell_unchecked(p(2, 0)), Cell::Food);
    let (mut arena, _snake) = started(5, 3);
    // 15 cells, 3 taken by the snake
    assert!(!arena.place_food(12));
    assert_eq!(arena.food, None);
    assert!(arena.place_food(11));
    assert_eq!(arena.food, Some(p(4, 2)));
}

#[test]
fn the_game_is_won_when_the_snake_fills_the_board() {
    let (arena, mut snake) = started(3, 2);
    assert!(!check_win(&arena, &snake));
    snake.length = 6;
    assert!(check_win(&arena, &snake));
}

#[test]
fn nodes_and_segments_list_the_board() {
    let (arena, _snake) = started(4, 2);
    let nodes = arena.adjacencies.nodes();
    assert_eq!(nodes.len(), 6);
    let segs = arena.adjacencies.snake_segments();
    assert_eq!(segs, vec![(p(2, 1), Direction::Left), (p(3, 1), Direction::Left)]);
}

#[test]
fn strategies_report_their_plans() {
    let mut arena = Arena::setup_arena(p(8, 8));
    let mut solver = Solver::default();
    let snake = setup_snake(&mut arena, &mut solver);
    arena.set_cell(p(1, 1), Cell::Food);
    arena.food = Some(p(1, 1));
    let mut solver_copy = solver;
    let _ = solver_copy.get_direction(&snake, &arena);
    let tables = solver_copy.debug_tables(&arena);
    assert_eq!(tables.len(), 2);
    assert!(tables[0].is_none());
    assert_eq!(tables[1].as_ref().unwrap().len(), 64);
    assert_eq!(solver_copy.debug_paths(&arena).len(), 1);
    assert!(solver_copy.debug_points(&arena).is_empty());
}
