//! The snake's own state: its heading, its length, and the headings it may take
//! next.

use vstd::prelude::*;
use crate::adjacency::{in_bounds, index_of, lemma_index_bounds, lemma_index_injective, AdjacencyGraph};
use crate::arena::{Arena, Cell};
use crate::geometry::{flip_of, moved, Direction, Directions, Pos};
use crate::pathfinding::{reaches, walk_end, walk_ok};
use crate::solver::{astar_choice, cycle_can_start, greedy_choice, hamilton_choice, ready_arena, Solver};

verus! {

pub struct Snake {
    pub direction: Direction,
    /// The number of body segments behind the head.
    pub length: usize,
    /// Every direction but the reverse of the last move.
    pub possible_directions: Directions,
}

impl Snake {
    /// A snake of two segments heading left.
    pub fn new() -> (r: Snake)
        ensures
            r.direction == Direction::Left,
            r.length == 2,
            forall|d: Direction| r.possible_directions.has(d) == (d != Direction::Right),
    {
        Snake {
            direction: Direction::Left,
            length: 2,
            possible_directions: Directions::all_but(Direction::Right),
        }
    }

    /// Takes `direction` as the new heading; only the reverse of it is then forbidden.
    pub fn turn(&mut self, direction: Direction)
        ensures
            final(self).direction == direction,
            final(self).length == old(self).length,
            forall|d: Direction| final(self).possible_directions.has(d) == (d != flip_of(direction)),
    {
        self.possible_directions = Directions::all_but(direction.flip());
        self.direction = direction;
    }
}

impl Default for Snake {
    fn default() -> (r: Snake)
        ensures
            r.direction == Direction::Left,
            r.length == 2,
            forall|d: Direction| r.possible_directions.has(d) == (d != Direction::Right),
    {
        Snake::new()
    }
}

/// Applies a player's key press: a heading that is not the reverse of the last move is
/// taken; anything else is ignored.
pub fn update_snake_direction_human(pressed: Option<Direction>, snake: &mut Snake)
    ensures
        match pressed {
            Some(d) => if old(snake).possible_directions.has(d) {
                &&& final(snake).direction == d
                &&& final(snake).length == old(snake).length
                &&& forall|e: Direction| final(snake).possible_directions.has(e) == (e != flip_of(d))
            } else {
                *final(snake) == *old(snake)
            },
            None => *final(snake) == *old(snake),
        },
{
    if let Some(d) = pressed {
        if snake.possible_directions.contains(d) {
            snake.turn(d);
        }
    }
}

/// What a cell holds right after the snake is laid out.
pub open spec fn initial_cell(p: Pos, head: Pos) -> Cell {
    if p == head {
        Cell::SnakeHead
    } else if p == (Pos { x: (head.x + 1) as u32, y: head.y }) {
        Cell::SnakeTail { distance: 1 }
    } else if p == (Pos { x: (head.x + 2) as u32, y: head.y }) {
        Cell::SnakeTail { distance: 2 }
    } else {
        Cell::Empty
    }
}

/// From the head of a freshly laid out snake, the route down, three cells right and up
/// reaches the cell behind the tail.
proof fn lemma_initial_route(g: AdjacencyGraph, head: Pos)
    requires
        g.wf(),
        g.consistent(),
        head.y >= 1,
        head.x + 3 < g.size_spec().x,
        head.y < g.size_spec().y,
        forall|p: Pos|
            #[trigger] g.has_node(p) == (in_bounds(g.size_spec(), p) && p != (Pos { x: (head.x + 1) as u32, y: head.y })
                && p != (Pos { x: (head.x + 2) as u32, y: head.y })),
    ensures
        reaches(g, head, Direction::Left, Pos { x: (head.x + 3) as u32, y: head.y }),
{
    let x = head.x;
    let y = head.y;
    let c0 = head;
    let c1 = Pos { x, y: (y - 1) as u32 };
    let c2 = Pos { x: (x + 1) as u32, y: (y - 1) as u32 };
    let c3 = Pos { x: (x + 2) as u32, y: (y - 1) as u32 };
    let c4 = Pos { x: (x + 3) as u32, y: (y - 1) as u32 };
    let c5 = Pos { x: (x + 3) as u32, y };
    assert(g.dirs(c0).has(Direction::Down) == g.neighbor_present(c0, Direction::Down));
    assert(g.dirs(c1).has(Direction::Right) == g.neighbor_present(c1, Direction::Right));
    assert(g.dirs(c2).has(Direction::Right) == g.neighbor_present(c2, Direction::Right));
    assert(g.dirs(c3).has(Direction::Right) == g.neighbor_present(c3, Direction::Right));
    assert(g.dirs(c4).has(Direction::Up) == g.neighbor_present(c4, Direction::Up));
    assert(g.has_node(c0) && g.has_node(c1) && g.has_node(c2) && g.has_node(c3) && g.has_node(c4)
        && g.has_node(c5));
    let leg5: Seq<Direction> = seq![Direction::Up];
    let leg4: Seq<Direction> = seq![Direction::Right, Direction::Up];
    let leg3: Seq<Direction> = seq![Direction::Right, Direction::Right, Direction::Up];
    let leg2: Seq<Direction> = seq![Direction::Right, Direction::Right, Direction::Right, Direction::Up];
    let leg1: Seq<Direction> = seq![Direction::Down, Direction::Right, Direction::Right, Direction::Right, Direction::Up];
    assert(leg1.drop_first() =~= leg2);
    assert(leg2.drop_first() =~= leg3);
    assert(leg3.drop_first() =~= leg4);
    assert(leg4.drop_first() =~= leg5);
    assert(leg5.drop_first() =~= Seq::<Direction>::empty());
    assert(walk_ok(g, c5, Direction::Up, Seq::<Direction>::empty()));
    assert(walk_ok(g, c4, Direction::Right, leg5));
    assert(walk_ok(g, c3, Direction::Right, leg4));
    assert(walk_ok(g, c2, Direction::Right, leg3));
    assert(walk_ok(g, c1, Direction::Down, leg2));
    assert(walk_ok(g, c0, Direction::Left, leg1));
    assert(walk_end(c5, Seq::<Direction>::empty()) == c5);
    assert(walk_end(c4, leg5) == c5);
    assert(walk_end(c3, leg4) == c5);
    assert(walk_end(c2, leg3) == c5);
    assert(walk_end(c1, leg2) == c5);
    assert(walk_end(c0, leg1) == c5);
}

/// Lays out a new snake of two segments heading left, its head just left of the board's
/// centre and its body to the right, makes every other cell empty and traversable, and
/// seeds the strategy.
pub fn setup_snake(arena: &mut Arena, solver: &mut Solver) -> (r: Snake)
    requires
        old(arena).wf(),
        old(arena).size.x >= 3,
        *old(solver) is Hamilton ==> old(arena).size.x >= 5 && old(arena).size.y >= 2,
    ensures
        final(arena).wf(),
        final(arena).size == old(arena).size,
        final(arena).food == old(arena).food,
        final(arena).head == (Pos { x: (old(arena).size.x / 2 - 1) as u32, y: old(arena).size.y / 2 }),
        final(arena).tail == (Pos { x: (old(arena).size.x / 2 + 1) as u32, y: old(arena).size.y / 2 }),
        final(arena).behind == (Pos { x: (old(arena).size.x / 2 + 2) as u32, y: old(arena).size.y / 2 }),
        forall|p: Pos|
            in_bounds(old(arena).size, p) ==> #[trigger] final(arena).cell(p) == initial_cell(
                p,
                final(arena).head,
            ),
        forall|p: Pos|
            #[trigger] final(arena).adjacencies.has_node(p) == (in_bounds(old(arena).size, p)
                && initial_cell(p, final(arena).head) != (Cell::SnakeTail { distance: 1 })
                && initial_cell(p, final(arena).head) != (Cell::SnakeTail { distance: 2 })),
        forall|p: Pos|
            #[trigger] final(arena).adjacencies.segment(p) == if in_bounds(old(arena).size, p) && (initial_cell(
                p,
                final(arena).head,
            ) == (Cell::SnakeTail { distance: 1 }) || initial_cell(p, final(arena).head) == (Cell::SnakeTail {
                distance: 2,
            })) {
                Some(Direction::Left)
            } else {
                None
            },
        crate::arena::occupancy_matches(&*final(arena)),
        crate::arena::board_ok(&*final(arena), 2),
        r.direction == Direction::Left,
        r.length == 2,
        *final(solver) is Hamilton <==> *old(solver) is Hamilton,
        *final(solver) is Astar <==> *old(solver) is Astar,
        *final(solver) is Greedy <==> *old(solver) is Greedy,
        *final(solver) is Hamilton ==> (*final(solver))->Hamilton_0.cycle_ok(final(arena).size),
{
    arena.adjacencies.reset();
    let size = arena.size;
    let head = Pos { x: size.x / 2 - 1, y: size.y / 2 };
    let mid = Pos { x: size.x / 2, y: size.y / 2 };
    let tail = Pos { x: size.x / 2 + 1, y: size.y / 2 };
    arena.head = head;
    arena.tail = tail;
    arena.behind = Pos { x: size.x / 2 + 2, y: size.y / 2 };
    let positions = arena.positions();
    let mut i: usize = 0;
    while i < positions.len()
        invariant
            arena.wf(),
            arena.size == size,
            arena.food == old(arena).food,
            arena.head == head,
            arena.tail == tail,
            arena.behind == (Pos { x: (size.x / 2 + 2) as u32, y: size.y / 2 }),
            head == (Pos { x: (size.x / 2 - 1) as u32, y: size.y / 2 }),
            mid == (Pos { x: (head.x + 1) as u32, y: head.y }),
            tail == (Pos { x: (head.x + 2) as u32, y: head.y }),
            size.x >= 3,
            positions@.len() == size.x * size.y,
            forall|j: int|
                0 <= j < positions@.len() ==> in_bounds(size, #[trigger] positions@[j]) && index_of(size.x, positions@[j]) == j,
            i <= positions@.len(),
            forall|p: Pos|
                in_bounds(size, p) && index_of(size.x, p) < i ==> #[trigger] arena.cell(p) == initial_cell(p, head),
            forall|p: Pos|
                #[trigger] arena.adjacencies.has_node(p) == (in_bounds(size, p) && index_of(size.x, p) < i && p != mid
                    && p != tail),
            forall|p: Pos|
                #[trigger] arena.adjacencies.segment(p) == if in_bounds(size, p) && index_of(size.x, p) < i && (p == mid
                    || p == tail) {
                    Some(Direction::Left)
                } else {
                    None
                },
        decreases positions@.len() - i,
    {
        let pos = positions[i];
        let ghost before = *arena;
        let cell = if pos == head {
            arena.adjacencies.insert(pos);
            Cell::SnakeHead
        } else if pos == mid {
            arena.adjacencies.insert_snake_segment(pos, Direction::Left);
            Cell::SnakeTail { distance: 1 }
        } else if pos == tail {
            arena.adjacencies.insert_snake_segment(pos, Direction::Left);
            Cell::SnakeTail { distance: 2 }
        } else {
            arena.adjacencies.insert(pos);
            Cell::Empty
        };
        arena.set_cell(pos, cell);
        proof {
            assert forall|p: Pos|
                in_bounds(size, p) && index_of(size.x, p) < i + 1 implies #[trigger] arena.cell(p) == initial_cell(p, head) by {
                if p != pos {
                    assert(index_of(size.x, p) != i) by {
                        if index_of(size.x, p) == i {
                            lemma_index_injective(size, p, pos);
                        }
                    }
                    assert(arena.cell(p) == before.cell(p));
                }
            }
            assert forall|p: Pos|
                #[trigger] arena.adjacencies.has_node(p) == (in_bounds(size, p) && index_of(size.x, p) < i + 1
                    && p != mid && p != tail) by {
                if in_bounds(size, p) && index_of(size.x, p) == i {
                    lemma_index_injective(size, p, pos);
                }
                assert(before.adjacencies.has_node(p) == (in_bounds(size, p) && index_of(size.x, p) < i
                    && p != mid && p != tail));
            }
            assert forall|p: Pos|
                #[trigger] arena.adjacencies.segment(p) == if in_bounds(size, p) && index_of(size.x, p) < i + 1 && (p == mid
                    || p == tail) {
                    Some(Direction::Left)
                } else {
                    None
                } by {
                if in_bounds(size, p) && index_of(size.x, p) == i {
                    lemma_index_injective(size, p, pos);
                }
                assert(before.adjacencies.segment(p) == if in_bounds(size, p) && index_of(size.x, p) < i && (p == mid
                    || p == tail) {
                    Some(Direction::Left)
                } else {
                    None
                });
            }
        }
        i += 1;
    }
    proof {
        assert forall|p: Pos| in_bounds(size, p) implies index_of(size.x, p) < i by {
            lemma_index_bounds(size, p);
        }
        assert forall|p: Pos|
            #[trigger] arena.adjacencies.has_node(p) == (in_bounds(size, p) && p != mid && p != tail) by {
            if in_bounds(size, p) {
                lemma_index_bounds(size, p);
            }
        }
        assert forall|p: Pos|
            #[trigger] arena.adjacencies.segment(p) == if in_bounds(size, p) && (p == mid || p == tail) {
                Some(Direction::Left)
            } else {
                None
            } by {
            if in_bounds(size, p) {
                lemma_index_bounds(size, p);
            }
        }
    }
    let snake = Snake::new();
    proof {
        if *solver is Hamilton {
            let g = arena.adjacencies;
            lemma_initial_route(g, head);
            assert(cycle_can_start(arena, &snake));
        }
    }
    solver.initialize(&snake, arena);
    snake
}

/// Asks the strategy for the next move and takes it as the snake's heading.
pub fn compute_snake_direction(arena: &Arena, snake: &mut Snake, solver: &mut Solver)
    requires
        ready_arena(arena),
        old(solver).fits(arena),
    ensures
        final(solver).fits(arena),
        final(snake).length == old(snake).length,
        forall|d: Direction| final(snake).possible_directions.has(d) == (d != flip_of(final(snake).direction)),
        *old(solver) is Astar ==> astar_choice(arena, &*old(snake), final(snake).direction),
        *old(solver) is Greedy ==> greedy_choice(arena, &*old(snake), final(snake).direction),
        *old(solver) is Hamilton ==> hamilton_choice(&(*old(solver))->Hamilton_0, arena, &*old(snake), final(snake).direction),
{
    let direction = solver.get_direction(snake, arena);
    snake.turn(direction);
}

} // verus!
