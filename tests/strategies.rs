use snake_solver::arena::{Arena, Cell};
use snake_solver::geometry::{Direction, Pos};
use snake_solver::pathfinding::shortest_path;
use snake_solver::snake::{setup_snake, Snake};
use snake_solver::solver::astar::AstarSolver;
use snake_solver::solver::greedy::GreedySolver;
use snake_solver::solver::hamilton::{build_cycle, CycleCell, HamiltonSolver};
use snake_solver::solver::random::RandomWalkSolver;
use snake_solver::solver::{farthest_from, Solver};

fn p(x: u32, y: u32) -> Pos {
    Pos::new(x, y)
}

/// Lays a snake on the board: `body[0]` is the head, then the segments toward the tail.
/// Each segment records the direction toward its neighbour nearer the head.
fn lay_snake(arena: &mut Arena, body: &[Pos], behind: Pos) {
    for (i, &q) in body.iter().enumerate() {
        if i == 0 {
            arena.set_cell(q, Cell::SnakeHead);
        } else {
            arena.set_cell(q, Cell::SnakeTail { distance: i });
            arena.adjacencies.remove(q);
            let toward = body[i - 1];
            let d = if toward.x > q.x {
                Direction::Right
            } else if toward.x < q.x {
                Direction::Left
            } else if toward.y > q.y {
                Direction::Up
            } else {
                Direction::Down
            };
            arena.adjacencies.insert_snake_segment(q, d);
        }
    }
    arena.head = body[0];
    arena.tail = *body.last().unwrap();
    arena.behind = behind;
}

fn put_food(arena: &mut Arena, q: Pos) {
    arena.set_cell(q, Cell::Food);
    arena.food = Some(q);
}

/// A snake curled around a one-cell pocket that holds the food; entering the pocket would
/// wall the head in.
fn trap_arena() -> (Arena, Snake) {
    let mut arena = Arena::setup_arena(p(3, 4));
    let body = [p(1, 1), p(0, 1), p(0, 2), p(0, 3), p(1, 3), p(2, 3), p(2, 2), p(2, 1)];
    lay_snake(&mut arena, &body, p(2, 0));
    put_food(&mut arena, p(1, 2));
    let mut snake = Snake::new();
    snake.direction = Direction::Right;
    snake.length = 7;
    (arena, snake)
}

#[test]
fn greedy_refuses_food_that_traps_the_head() {
    let (arena, snake) = trap_arena();
    let naive = shortest_path(arena.head, arena.food.unwrap(), snake.direction, &arena.adjacencies).unwrap();
    assert_eq!(naive[0], Direction::Up);
    let mut solver = GreedySolver::new();
    let d = solver.get_direction(&snake, &arena);
    assert_ne!(d, naive[0]);
    assert_eq!(d, Direction::Down);
}

#[test]
fn astar_chases_food_even_into_a_trap() {
    let (arena, snake) = trap_arena();
    let mut solver = AstarSolver::new();
    assert_eq!(solver.get_direction(&snake, &arena), Direction::Up);
}

#[test]
fn astar_keeps_heading_when_food_unreachable() {
    let mut arena = Arena::setup_arena(p(5, 5));
    lay_snake(&mut arena, &[p(0, 0), p(1, 0)], p(2, 0));
    for q in [p(3, 4), p(3, 3), p(4, 3)] {
        arena.set_cell(q, Cell::SnakeTail { distance: 9 });
        arena.adjacencies.remove(q);
    }
    put_food(&mut arena, p(4, 4));
    let mut snake = Snake::new();
    snake.direction = Direction::Left;
    let mut solver = AstarSolver::new();
    assert_eq!(solver.get_direction(&snake, &arena), Direction::Left);
}

#[test]
fn greedy_chases_food_when_safe() {
    let mut arena = Arena::setup_arena(p(6, 6));
    lay_snake(&mut arena, &[p(2, 2), p(3, 2), p(4, 2)], p(5, 2));
    put_food(&mut arena, p(2, 5));
    let snake = Snake::new();
    let mut solver = GreedySolver::new();
    assert_eq!(solver.get_direction(&snake, &arena), Direction::Up);
}

#[test]
fn farthest_move_leads_away_from_food() {
    let arena = Arena::setup_arena(p(5, 5));
    // up, down and left tie at distance 3; the first of them in the order wins
    let d = farthest_from(&arena.adjacencies, p(2, 2), p(4, 2), Direction::Right);
    assert_eq!(d, Direction::Up);
    let d = farthest_from(&arena.adjacencies, p(2, 2), p(2, 4), Direction::Right);
    assert_eq!(d, Direction::Down);
    let d = farthest_from(&arena.adjacencies, p(2, 2), p(2, 2), Direction::Right);
    assert_eq!(d, Direction::Up);
}

fn hamilton_setup(w: u32, h: u32) -> (Arena, Snake, Solver) {
    let mut arena = Arena::setup_arena(p(w, h));
    let mut solver = Solver::default();
    let snake = setup_snake(&mut arena, &mut solver);
    (arena, snake, solver)
}

fn cycle_of(solver: &Solver) -> &HamiltonSolver {
    match solver {
        Solver::Hamilton(h) => h,
        _ => panic!("not the cycle strategy"),
    }
}

#[test]
fn hamilton_follows_cycle_when_snake_is_long() {
    let (mut arena, mut snake, mut solver) = hamilton_setup(6, 4);
    snake.length = 12;
    let w = 6;
    let expected = {
        let h = cycle_of(&solver);
        h.cycle[(arena.head.y * w + arena.head.x) as usize].direction
    };
    for food in [p(0, 0), p(5, 3), p(1, 2), p(3, 0)] {
        if let Some(old) = arena.food {
            arena.set_cell(old, Cell::Empty);
        }
        put_food(&mut arena, food);
        let d = solver.get_direction(&snake, &arena);
        assert_eq!(d, expected);
    }
}

#[test]
fn hamilton_cycle_places_are_below_cell_count() {
    let (_arena, _snake, solver) = hamilton_setup(6, 4);
    let h = cycle_of(&solver);
    assert_eq!(h.cycle.len(), 24);
    assert!(h.cycle.iter().all(|c| c.index < 24));
}

#[test]
fn build_cycle_numbers_a_closed_tour() {
    let cycle = build_cycle(
        p(2, 2),
        p(0, 0),
        &vec![Direction::Up, Direction::Right, Direction::Down],
        &vec![(p(1, 0), Direction::Left)],
    );
    let at = |x: u32, y: u32| cycle[(y * 2 + x) as usize];
    let want = |index: usize, direction: Direction| CycleCell { index, direction };
    let same = |a: CycleCell, b: CycleCell| a.index == b.index && a.direction == b.direction;
    assert!(same(at(0, 0), want(0, Direction::Up)));
    assert!(same(at(0, 1), want(1, Direction::Right)));
    assert!(same(at(1, 1), want(2, Direction::Down)));
    assert!(same(at(1, 0), want(3, Direction::Left)));
    // each direction leads to the next place
    for x in 0..2u32 {
        for y in 0..2u32 {
            let c = at(x, y);
            let n = p(x, y).step(c.direction);
            assert_eq!(at(n.x, n.y).index, (c.index + 1) % 4);
        }
    }
}

#[test]
fn build_cycle_wraps_places_modulo_cell_count() {
    let cycle = build_cycle(
        p(3, 1),
        p(0, 0),
        &vec![Direction::Right, Direction::Right],
        &vec![(p(2, 0), Direction::Left), (p(1, 0), Direction::Left), (p(0, 0), Direction::Left)],
    );
    // route: (0,0) (1,0) (2,0) (1,0) (0,0); the last two visits are numbered 3 and 4 mod 3
    assert_eq!(cycle[0].index, 1);
    assert_eq!(cycle[1].index, 0);
    assert_eq!(cycle[2].index, 2);
    assert_eq!(cycle[0].direction, Direction::Left);
}

#[test]
fn random_walk_never_reverses() {
    let arena = Arena::setup_arena(p(3, 3));
    let mut snake = Snake::new();
    let mut solver = RandomWalkSolver;
    for d in [Direction::Up, Direction::Down, Direction::Left, Direction::Right] {
        snake.direction = d;
        for _ in 0..20 {
            let r = solver.get_direction(&snake, &arena);
            assert_ne!(r, d.flip());
        }
    }
}

#[test]
fn hamilton_refuses_food_next_to_tail_across_the_wrap() {
    // cycle on 3x2: (0,0) 0, (0,1) 1, (1,1) 2, (2,1) 3, (2,0) 4, (1,0) 5
    let cycle = build_cycle(
        p(3, 2),
        p(0, 0),
        &vec![Direction::Up, Direction::Right, Direction::Right, Direction::Down, Direction::Left],
        &vec![(p(1, 0), Direction::Left)],
    );
    let solver = HamiltonSolver { size: p(3, 2), cycle, head: p(1, 1), shortest_path: None };
    let mut arena = Arena::setup_arena(p(3, 2));
    arena.head = p(1, 1);
    arena.tail = p(0, 0);
    put_food(&mut arena, p(1, 0));
    let mut snake = Snake::new();
    snake.direction = Direction::Right;
    // tail at place 0, food at place 5: neighbours on the cycle across the wrap
    let (d, taken) = solver.choose_move(&snake, &arena, &Some(vec![Direction::Down]));
    assert!(!taken);
    assert_eq!(d, Direction::Right);
    // with the tail at place 1 the same single move is a shortcut
    let mut arena2 = Arena::setup_arena(p(3, 2));
    arena2.head = p(1, 1);
    arena2.tail = p(0, 1);
    put_food(&mut arena2, p(1, 0));
    let (d2, taken2) = solver.choose_move(&snake, &arena2, &Some(vec![Direction::Down]));
    assert!(taken2);
    assert_eq!(d2, Direction::Down);
}
