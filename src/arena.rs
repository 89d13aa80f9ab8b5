//! The board: what each cell holds, the adjacency graph kept in step with it,
//! and the bookkeeping the strategies read (head, tail, the cell behind the
//! tail, food).

use vstd::prelude::*;
use crate::adjacency::{
    cell_index, in_bounds, index_of, lemma_index_bounds, lemma_index_injective, AdjacencyGraph,
};
use crate::geometry::{can_step, moved, Direction, Directions, Pos};
use crate::snake::Snake;
use crate::solver::random::choose_below;

verus! {

/// What a cell holds.
#[derive(Clone, Copy, PartialEq, Eq, Structural, Debug)]
pub enum Cell {
    Empty,
    /// A body segment; `distance` counts the moves from this segment to the head, the
    /// segment next to the head having distance 1.
    SnakeTail { distance: usize },
    SnakeHead,
    Food,
}

pub struct Arena {
    pub size: Pos,
    pub adjacencies: AdjacencyGraph,
    pub head: Pos,
    pub tail: Pos,
    pub behind: Pos,
    pub food: Option<Pos>,
    pub just_ate: bool,
    pub cells: Vec<Cell>,
}

impl Arena {
    /// The cells in row-major order.
    pub open spec fn cells_spec(&self) -> Seq<Cell> {
        self.cells@
    }

    /// The content of an on-board cell.
    pub open spec fn cell(&self, p: Pos) -> Cell {
        self.cells_spec()[index_of(self.size.x, p)]
    }

    pub open spec fn wf(&self) -> bool {
        &&& self.size.x >= 1
        &&& self.size.y >= 1
        &&& self.size.x * self.size.y <= u32::MAX
        &&& self.cells_spec().len() == self.size.x * self.size.y
        &&& self.adjacencies.wf()
        &&& self.adjacencies.size_spec() == self.size
        &&& self.adjacencies.consistent()
    }

    /// An empty board of the given size, every cell traversable.
    pub fn setup_arena(size: Pos) -> (r: Arena)
        requires
            size.x >= 1,
            size.y >= 1,
            size.x * size.y <= u32::MAX,
        ensures
            r.wf(),
            r.size == size,
            forall|p: Pos| in_bounds(size, p) ==> #[trigger] r.cell(p) == Cell::Empty,
            forall|p: Pos| #[trigger] r.adjacencies.has_node(p) == in_bounds(size, p),
            forall|p: Pos| #[trigger] r.adjacencies.segment(p).is_none(),
            r.head == (Pos { x: 0, y: 0 }),
            r.tail == (Pos { x: 0, y: 0 }),
            r.behind == (Pos { x: 0, y: 0 }),
            r.food.is_none(),
            !r.just_ate,
    {
        let n: usize = (size.x as usize) * (size.y as usize);
        let mut cells: Vec<Cell> = Vec::new();
        let mut i: usize = 0;
        while i < n
            invariant
                i <= n,
                cells@.len() == i,
                forall|j: int| 0 <= j < i ==> cells@[j] == Cell::Empty,
            decreases n - i,
        {
            cells.push(Cell::Empty);
            i += 1;
        }
        let r = Arena {
            size,
            adjacencies: AdjacencyGraph::full(size),
            head: Pos { x: 0, y: 0 },
            tail: Pos { x: 0, y: 0 },
            behind: Pos { x: 0, y: 0 },
            food: None,
            just_ate: false,
            cells,
        };
        proof {
            assert forall|p: Pos| in_bounds(size, p) implies #[trigger] r.cell(p) == Cell::Empty by {
                lemma_index_bounds(size, p);
            }
        }
        r
    }

    /// The cell at signed coordinates, or `None` off the board.
    pub fn get_cell(&self, x: i64, y: i64) -> (r: Option<Cell>)
        requires
            self.wf(),
        ensures
            r == (if 0 <= x < self.size.x && 0 <= y < self.size.y {
                Some(self.cell(Pos { x: x as u32, y: y as u32 }))
            } else {
                None
            }),
    {
        if x < 0 || y < 0 || x >= self.size.x as i64 || y >= self.size.y as i64 {
            return None;
        }
        let p = Pos { x: x as u32, y: y as u32 };
        let i = cell_index(self.size, p);
        Some(self.cells[i])
    }

    /// The cell at an on-board position.
    pub fn get_cell_unchecked(&self, pos: Pos) -> (r: Cell)
        requires
            self.wf(),
            in_bounds(self.size, pos),
        ensures
            r == self.cell(pos),
    {
        let i = cell_index(self.size, pos);
        self.cells[i]
    }

    /// Replaces the content of an on-board cell.
    pub fn set_cell(&mut self, pos: Pos, cell: Cell)
        requires
            old(self).wf(),
            in_bounds(old(self).size, pos),
        ensures
            final(self).wf(),
            final(self).size == old(self).size,
            final(self).adjacencies == old(self).adjacencies,
            final(self).head == old(self).head,
            final(self).tail == old(self).tail,
            final(self).behind == old(self).behind,
            final(self).food == old(self).food,
            final(self).just_ate == old(self).just_ate,
            forall|p: Pos|
                in_bounds(old(self).size, p) ==> #[trigger] final(self).cell(p) == if p == pos {
                    cell
                } else {
                    old(self).cell(p)
                },
    {
        let i = cell_index(self.size, pos);
        self.cells.set(i, cell);
        proof {
            assert forall|p: Pos|
                in_bounds(old(self).size, p) implies #[trigger] self.cell(p) == if p == pos {
                    cell
                } else {
                    old(self).cell(p)
                } by {
                lemma_index_bounds(self.size, p);
                if p != pos && index_of(self.size.x, p) == index_of(self.size.x, pos) {
                    lemma_index_injective(self.size, p, pos);
                }
            }
        }
    }

    /// Every position of the board in row-major order.
    pub fn positions(&self) -> (r: Vec<Pos>)
        requires
            self.wf(),
        ensures
            r@.len() == self.size.x * self.size.y,
            forall|p: Pos| in_bounds(self.size, p) ==> r@[index_of(self.size.x, p)] == p,
            forall|i: int|
                0 <= i < r@.len() ==> in_bounds(self.size, #[trigger] r@[i]) && index_of(self.size.x, r@[i])
                    == i,
    {
        let mut out: Vec<Pos> = Vec::new();
        let mut y: u32 = 0;
        while y < self.size.y
            invariant
                self.wf(),
                y <= self.size.y,
                out@.len() == y * self.size.x,
                forall|i: int|
                    0 <= i < out@.len() ==> in_bounds(self.size, #[trigger] out@[i]) && index_of(
                        self.size.x,
                        out@[i],
                    ) == i,
                forall|p: Pos|
                    #![trigger index_of(self.size.x, p)]
                    in_bounds(self.size, p) && p.y < y ==> out@[index_of(self.size.x, p)] == p,
            decreases self.size.y - y,
        {
            let mut x: u32 = 0;
            while x < self.size.x
                invariant
                    self.wf(),
                    x <= self.size.x,
                    y < self.size.y,
                    out@.len() == y * self.size.x + x,
                    forall|i: int|
                        0 <= i < out@.len() ==> in_bounds(self.size, #[trigger] out@[i]) && index_of(
                            self.size.x,
                            out@[i],
                        ) == i,
                    forall|p: Pos|
                        #![trigger index_of(self.size.x, p)]
                        in_bounds(self.size, p) && (p.y < y || (p.y == y && p.x < x)) ==> out@[index_of(
                            self.size.x,
                            p,
                        )] == p,
                decreases self.size.x - x,
            {
                proof {
                    lemma_index_bounds(self.size, Pos { x, y });
                }
                out.push(Pos { x, y });
                proof {
                    assert forall|p: Pos|
                        #![trigger index_of(self.size.x, p)]
                        in_bounds(self.size, p) && (p.y < y || (p.y == y && p.x < x + 1)) implies out@[index_of(
                            self.size.x,
                            p,
                        )] == p by {
                        if p.y < y {
                            assert(p.y * self.size.x + self.size.x <= y * self.size.x) by (nonlinear_arith)
                                requires
                                    p.y < y,
                            ;
                        }
                    }
                }
                x += 1;
            }
            proof {
                assert((y + 1) * self.size.x == y * self.size.x + self.size.x) by (nonlinear_arith);
            }
            y += 1;
        }
        proof {
            assert(self.size.y * self.size.x == self.size.x * self.size.y) by (nonlinear_arith);
        }
        out
    }

    /// Every cell with its position, in row-major order.
    pub fn cells(&self) -> (r: Vec<(Pos, Cell)>)
        requires
            self.wf(),
        ensures
            r@.len() == self.size.x * self.size.y,
            forall|p: Pos|
                in_bounds(self.size, p) ==> r@[index_of(self.size.x, p)] == (p, self.cell(p)),
    {
        let positions = self.positions();
        let mut out: Vec<(Pos, Cell)> = Vec::new();
        let mut i: usize = 0;
        while i < positions.len()
            invariant
                self.wf(),
                positions@.len() == self.size.x * self.size.y,
                forall|p: Pos| in_bounds(self.size, p) ==> positions@[index_of(self.size.x, p)] == p,
                i <= positions@.len(),
                out@.len() == i,
                forall|j: int| 0 <= j < i ==> out@[j] == (positions@[j], self.cells_spec()[j]),
            decreases positions@.len() - i,
        {
            out.push((positions[i], self.cells[i]));
            i += 1;
        }
        proof {
            assert forall|p: Pos| in_bounds(self.size, p) implies out@[index_of(self.size.x, p)] == (
                p,
                self.cell(p),
            ) by {
                lemma_index_bounds(self.size, p);
            }
        }
        out
    }

    /// The directions in which the neighbours of `pos` hold exactly `cell`.
    pub fn neighbors_matching(&self, pos: Pos, cell: Cell) -> (r: Directions)
        requires
            self.wf(),
            in_bounds(self.size, pos),
        ensures
            r.up == (pos.y + 1 < self.size.y && self.cell(Pos { x: pos.x, y: (pos.y + 1) as u32 })
                == cell),
            r.down == (pos.y >= 1 && self.cell(Pos { x: pos.x, y: (pos.y - 1) as u32 }) == cell),
            r.left == (pos.x >= 1 && self.cell(Pos { x: (pos.x - 1) as u32, y: pos.y }) == cell),
            r.right == (pos.x + 1 < self.size.x && self.cell(Pos { x: (pos.x + 1) as u32, y: pos.y })
                == cell),
    {
        let x = pos.x as i64;
        let y = pos.y as i64;
        let mut dirs = Directions::none();
        if let Some(c) = self.get_cell(x, y + 1) {
            if c == cell {
                dirs = dirs.with(Direction::Up);
            }
        }
        if let Some(c) = self.get_cell(x, y - 1) {
            if c == cell {
                dirs = dirs.with(Direction::Down);
            }
        }
        if let Some(c) = self.get_cell(x - 1, y) {
            if c == cell {
                dirs = dirs.with(Direction::Left);
            }
        }
        if let Some(c) = self.get_cell(x + 1, y) {
            if c == cell {
                dirs = dirs.with(Direction::Right);
            }
        }
        dirs
    }
}

/// Number of empty cells among the first `i` cells of `s`.
pub open spec fn empties(s: Seq<Cell>, i: int) -> nat
    decreases i,
{
    if i <= 0 {
        0
    } else {
        empties(s, i - 1) + (if s[i - 1] == Cell::Empty { 1nat } else { 0nat })
    }
}

/// A cell after every segment has moved one step further from the head: body distances grow
/// by one, the head becomes the first body segment.
pub open spec fn advanced(c: Cell) -> Cell {
    match c {
        Cell::SnakeTail { distance } => Cell::SnakeTail { distance: (distance + 1) as usize },
        Cell::SnakeHead => Cell::SnakeTail { distance: 1 },
        _ => c,
    }
}

/// A cell after a move that does not end the game, the new head's cell aside: the segment at
/// distance `length` or more leaves, the others advance.
pub open spec fn after_move(c: Cell, length: usize) -> Cell {
    match c {
        Cell::SnakeTail { distance } => if distance >= length {
            Cell::Empty
        } else {
            Cell::SnakeTail { distance: (distance + 1) as usize }
        },
        _ => advanced(c),
    }
}

/// The graph's traversable cells are exactly the board's cells that hold no body segment.
pub open spec fn occupancy_matches(arena: &Arena) -> bool {
    forall|p: Pos|
        in_bounds(arena.size, p) ==> (#[trigger] arena.adjacencies.has_node(p) == !(arena.cell(p) is SnakeTail))
}

/// The snake on the board is well laid out for a snake of `length` segments: one head, at
/// `arena.head`; body distances from 1 to `length`, no two segments at the same distance.
pub open spec fn board_ok(arena: &Arena, length: int) -> bool {
    &&& length >= 1
    &&& in_bounds(arena.size, arena.head)
    &&& arena.cell(arena.head) == Cell::SnakeHead
    &&& forall|p: Pos|
        in_bounds(arena.size, p) && p != arena.head ==> #[trigger] arena.cell(p) != Cell::SnakeHead
    &&& forall|p: Pos|
        in_bounds(arena.size, p) ==> match #[trigger] arena.cell(p) {
            Cell::SnakeTail { distance } => 1 <= distance <= length,
            _ => true,
        }
    &&& forall|p: Pos, q: Pos|
        in_bounds(arena.size, p) && in_bounds(arena.size, q) && (#[trigger] arena.cell(p)) is SnakeTail
            && #[trigger] arena.cell(q) == arena.cell(p) ==> p == q
}

/// `c` is a body segment at distance `k` from the head.
pub open spec fn segment_at(c: Cell, k: int) -> bool {
    match c {
        Cell::SnakeTail { distance } => distance == k,
        _ => false,
    }
}

/// The board a move can be applied to: one head, at `head`; body distances from 1 up to the
/// snake's length; at most one segment at that length.
pub open spec fn movable(arena: &Arena, length: usize) -> bool {
    &&& arena.wf()
    &&& in_bounds(arena.size, arena.head)
    &&& arena.cell(arena.head) == Cell::SnakeHead
    &&& length < usize::MAX
    &&& forall|p: Pos|
        in_bounds(arena.size, p) && p != arena.head ==> #[trigger] arena.cell(p) != Cell::SnakeHead
    &&& forall|p: Pos|
        in_bounds(arena.size, p) ==> match #[trigger] arena.cell(p) {
            Cell::SnakeTail { distance } => 1 <= distance <= length,
            _ => true,
        }
    &&& forall|p: Pos, q: Pos|
        in_bounds(arena.size, p) && in_bounds(arena.size, q) && #[trigger] arena.cell(p) == (Cell::SnakeTail {
            distance: length,
        }) && #[trigger] arena.cell(q) == (Cell::SnakeTail { distance: length }) ==> p == q
}

impl Arena {
    /// Puts food on the `k`-th empty cell in row-major order; `false`, and nothing changed,
    /// where there are not that many empty cells.
    pub fn place_food(&mut self, k: usize) -> (r: bool)
        requires
            old(self).wf(),
        ensures
            final(self).wf(),
            final(self).size == old(self).size,
            final(self).adjacencies == old(self).adjacencies,
            final(self).head == old(self).head,
            final(self).tail == old(self).tail,
            final(self).behind == old(self).behind,
            final(self).just_ate == old(self).just_ate,
            r == (k < empties(old(self).cells@, old(self).cells@.len() as int)),
            r ==> exists|q: Pos|
                {
                    &&& in_bounds(old(self).size, q)
                    &&& old(self).cell(q) == Cell::Empty
                    &&& empties(old(self).cells@, index_of(old(self).size.x, q)) == k
                    &&& final(self).cells@ == old(self).cells@.update(index_of(old(self).size.x, q), Cell::Food)
                    &&& final(self).food == Some(q)
                },
            !r ==> final(self).cells@ == old(self).cells@ && final(self).food == old(self).food,
    {
        let positions = self.positions();
        let n = self.cells.len();
        let mut seen: usize = 0;
        let mut i: usize = 0;
        while i < n
            invariant
                self.wf(),
                *self == *old(self),
                n == self.cells@.len(),
                positions@.len() == n,
                forall|j: int|
                    0 <= j < n ==> in_bounds(self.size, #[trigger] positions@[j]) && index_of(self.size.x, positions@[j]) == j,
                i <= n,
                seen == empties(self.cells@, i as int),
                seen <= k,
            decreases n - i,
        {
            if self.cells[i] == Cell::Empty {
                if seen == k {
                    let q = positions[i];
                    self.food = Some(q);
                    self.set_cell(q, Cell::Food);
                    proof {
                        lemma_empties_monotone(old(self).cells@, i as int + 1, n as int);
                        assert(self.cells@ =~= old(self).cells@.update(i as int, Cell::Food)) by {
                            assert forall|j: int| 0 <= j < n implies self.cells@[j] == old(self).cells@.update(i as int, Cell::Food)[j] by {
                                let pj = positions@[j];
                                assert(in_bounds(self.size, pj));
                                if j != i {
                                    assert(pj != q);
                                }
                                assert(self.cell(pj) == (if pj == q { Cell::Food } else { old(self).cell(pj) }));
                            }
                        }
                        assert(index_of(self.size.x, q) == i);
                        assert(old(self).cell(q) == Cell::Empty);
                        assert(empties(old(self).cells@, index_of(old(self).size.x, q)) == k);
                        assert(self.cells@ == old(self).cells@.update(index_of(old(self).size.x, q), Cell::Food));
                    }
                    return true;
                }
                seen += 1;
            }
            i += 1;
        }
        false
    }

    /// Puts food on an empty cell chosen at random where there is no food yet; a full board
    /// is left as it is.
    pub fn spawn_food(&mut self)
        requires
            old(self).wf(),
        ensures
            final(self).wf(),
            final(self).size == old(self).size,
            final(self).adjacencies == old(self).adjacencies,
            old(self).food.is_some() || empties(old(self).cells@, old(self).cells@.len() as int) == 0
                ==> final(self).cells@ == old(self).cells@ && final(self).food == old(self).food,
            old(self).food.is_none() && empties(old(self).cells@, old(self).cells@.len() as int) > 0
                ==> exists|q: Pos|
                {
                    &&& in_bounds(old(self).size, q)
                    &&& old(self).cell(q) == Cell::Empty
                    &&& final(self).cells@ == old(self).cells@.update(index_of(old(self).size.x, q), Cell::Food)
                    &&& final(self).food == Some(q)
                },
    {
        if self.food.is_some() {
            return;
        }
        let n = self.cells.len();
        let mut count: usize = 0;
        let mut i: usize = 0;
        while i < n
            invariant
                n == self.cells@.len(),
                i <= n,
                count == empties(self.cells@, i as int),
                count <= i,
            decreases n - i,
        {
            if self.cells[i] == Cell::Empty {
                count += 1;
            }
            i += 1;
        }
        if let Some(k) = choose_below(count) {
            self.place_food(k);
        }
    }

    /// Forgets the food, so that a new one is spawned.
    pub fn respawn_food(&mut self)
        ensures
            final(self).food.is_none(),
            final(self).cells == old(self).cells,
            final(self).size == old(self).size,
            final(self).adjacencies == old(self).adjacencies,
    {
        self.food = None;
    }
}

proof fn lemma_empties_monotone(s: Seq<Cell>, i: int, j: int)
    requires
        0 <= i <= j <= s.len(),
    ensures
        empties(s, i) <= empties(s, j),
    decreases j - i,
{
    if i < j {
        lemma_empties_monotone(s, i, j - 1);
    }
}

/// Whether the snake fills the board.
pub fn check_win(arena: &Arena, snake: &Snake) -> (r: bool)
    ensures
        r == (snake.length >= arena.cells@.len()),
{
    snake.length >= arena.cells.len()
}

/// Moves the snake one cell in its heading.
///
/// Every body segment moves one step further from the head and the head becomes the first
/// segment; the segment at the snake's length leaves its cell, which becomes empty and
/// traversable. The cell ahead becomes the head: where it held food the snake grows by one
/// and the food is gone. Where the cell ahead is off the board or part of the snake, the
/// game is lost and the cells are put back as they were. Returns whether the game is lost.
pub fn update_snake_position(arena: &mut Arena, snake: &mut Snake) -> (game_over: bool)
    requires
        movable(&*old(arena), old(snake).length),
    ensures
        final(arena).wf(),
        final(arena).size == old(arena).size,
        ({
            let n = moved(old(arena).head, old(snake).direction);
            let on = can_step(old(arena).head, old(snake).direction) && in_bounds(old(arena).size, n);
            let ate = old(arena).cell(n) == Cell::Food;
            &&& game_over == !(on && (old(arena).cell(n) == Cell::Empty || ate))
            &&& (exists|p: Pos| in_bounds(old(arena).size, p) && #[trigger] segment_at(old(arena).cell(p), old(snake).length - 1))
                ==> in_bounds(old(arena).size, final(arena).tail) && segment_at(old(arena).cell(final(arena).tail), old(snake).length - 1)
            &&& !(exists|p: Pos| in_bounds(old(arena).size, p) && #[trigger] segment_at(old(arena).cell(p), old(snake).length - 1))
                ==> final(arena).tail == old(arena).tail
            &&& (exists|p: Pos| in_bounds(old(arena).size, p) && #[trigger] segment_at(old(arena).cell(p), old(snake).length as int))
                ==> in_bounds(old(arena).size, final(arena).behind) && segment_at(old(arena).cell(final(arena).behind), old(snake).length as int)
            &&& !(exists|p: Pos| in_bounds(old(arena).size, p) && #[trigger] segment_at(old(arena).cell(p), old(snake).length as int))
                ==> final(arena).behind == old(arena).behind
            &&& game_over ==> *final(snake) == *old(snake) && final(arena).food == old(arena).food
            &&& forall|p: Pos|
                p != old(arena).head && old(arena).cell(p) != (Cell::SnakeTail { distance: old(snake).length })
                    ==> #[trigger] final(arena).adjacencies.segment(p) == old(arena).adjacencies.segment(p)
            &&& !game_over && occupancy_matches(&*old(arena)) ==> occupancy_matches(&*final(arena))
            &&& !game_over && board_ok(&*old(arena), old(snake).length as int) ==> board_ok(
                &*final(arena),
                final(snake).length as int,
            )
            &&& game_over ==> forall|p: Pos|
                in_bounds(old(arena).size, p) ==> #[trigger] final(arena).cell(p) == old(arena).cell(p)
            &&& !game_over ==> {
                &&& final(arena).head == n
                &&& final(arena).cell(n) == Cell::SnakeHead
                &&& forall|p: Pos|
                    in_bounds(old(arena).size, p) && p != n ==> #[trigger] final(arena).cell(p) == after_move(
                        old(arena).cell(p),
                        old(snake).length,
                    )
                &&& final(snake).direction == old(snake).direction
                &&& final(snake).length == old(snake).length + (if ate { 1int } else { 0int })
                &&& final(arena).just_ate == ate
                &&& final(arena).food == (if ate { None } else { old(arena).food })
                &&& !final(arena).adjacencies.has_node(old(arena).head)
                &&& final(arena).adjacencies.segment(old(arena).head) == Some(old(snake).direction)
                &&& forall|p: Pos|
                    in_bounds(old(arena).size, p) && #[trigger] old(arena).cell(p) == (Cell::SnakeTail {
                        distance: old(snake).length,
                    }) ==> final(arena).adjacencies.has_node(p) && final(arena).adjacencies.segment(p).is_none()
            }
        }),
{
    let ghost s0 = *arena;
    let length = snake.length;
    let dir = snake.direction;
    let size = arena.size;
    let head0 = arena.head;
    arena.just_ate = false;
    let positions = arena.positions();
    let n = positions.len();
    let mut remove: Option<Pos> = None;
    let mut i: usize = 0;
    proof {
        lemma_index_bounds(size, head0);
    }
    while i < n
        invariant
            arena.wf(),
            arena.size == size,
            size == s0.size,
            s0.wf(),
            arena.head == head0,
            head0 == s0.head,
            in_bounds(size, head0),
            arena.food == s0.food,
            !arena.just_ate,
            movable(&s0, length),
            n == positions@.len(),
            n == size.x * size.y,
            forall|j: int|
                0 <= j < n ==> in_bounds(size, #[trigger] positions@[j]) && index_of(size.x, positions@[j]) == j,
            i <= n,
            forall|p: Pos|
                in_bounds(size, p) ==> #[trigger] arena.cell(p) == if index_of(size.x, p) < i {
                    advanced(s0.cell(p))
                } else {
                    s0.cell(p)
                },
            (arena.tail == s0.tail && forall|p: Pos|
                in_bounds(size, p) && index_of(size.x, p) < i ==> !#[trigger] segment_at(s0.cell(p), length - 1))
                || (in_bounds(size, arena.tail) && segment_at(s0.cell(arena.tail), length - 1)),
            (arena.behind == s0.behind && forall|p: Pos|
                in_bounds(size, p) && index_of(size.x, p) < i ==> !#[trigger] segment_at(s0.cell(p), length as int))
                || (in_bounds(size, arena.behind) && segment_at(s0.cell(arena.behind), length as int)),
            match remove {
                Some(q) => in_bounds(size, q) && index_of(size.x, q) < i && s0.cell(q) == (Cell::SnakeTail {
                    distance: length,
                }),
                None => forall|p: Pos|
                    in_bounds(size, p) && index_of(size.x, p) < i ==> #[trigger] s0.cell(p) != (Cell::SnakeTail {
                        distance: length,
                    }),
            },
            forall|p: Pos|
                #[trigger] arena.adjacencies.has_node(p) == (s0.adjacencies.has_node(p) && !(p == head0
                    && index_of(size.x, head0) < i)),
            forall|p: Pos|
                #[trigger] arena.adjacencies.segment(p) == if p == head0 && index_of(size.x, head0) < i {
                    Some(dir)
                } else {
                    s0.adjacencies.segment(p)
                },
        decreases n - i,
    {
        let pos = positions[i];
        let cell = arena.get_cell_unchecked(pos);
        let ghost before = *arena;
        proof {
            assert(cell == s0.cell(pos));
        }
        match cell {
            Cell::SnakeTail { distance } => {
                if distance >= length {
                    remove = Some(pos);
                }
                assert(pos != head0);
                let d = distance + 1;
                if d == length {
                    arena.tail = pos;
                } else if d == length + 1 {
                    arena.behind = pos;
                }
                arena.set_cell(pos, Cell::SnakeTail { distance: d });
            },
            Cell::SnakeHead => {
                proof {
                    assert(pos == head0);
                }
                arena.adjacencies.remove(pos);
                let ghost g1 = arena.adjacencies;
                arena.adjacencies.insert_snake_segment(pos, dir);
                proof {
                    assert forall|p: Pos| #[trigger] arena.adjacencies.has_node(p) == g1.has_node(p) by {
                        assert(arena.adjacencies.mask(p) == g1.mask(p));
                    }
                }
                arena.set_cell(pos, Cell::SnakeTail { distance: 1 });
            },
            _ => {
                assert(pos != head0);
            },
        }
        proof {
            assert forall|p: Pos|
                in_bounds(size, p) implies #[trigger] arena.cell(p) == if index_of(size.x, p) < i + 1 {
                    advanced(s0.cell(p))
                } else {
                    s0.cell(p)
                } by {
                if p != pos && index_of(size.x, p) == i {
                    lemma_index_injective(size, p, pos);
                }
                assert(before.cell(p) == if index_of(size.x, p) < i {
                    advanced(s0.cell(p))
                } else {
                    s0.cell(p)
                });
            }
            if index_of(size.x, head0) == i {
                lemma_index_injective(size, head0, pos);
            }
            assert forall|p: Pos|
                #[trigger] arena.adjacencies.has_node(p) == (s0.adjacencies.has_node(p) && !(p == head0
                    && index_of(size.x, head0) < i + 1)) by {
                assert(before.adjacencies.has_node(p) == (s0.adjacencies.has_node(p) && !(p == head0
                    && index_of(size.x, head0) < i)));
            }
            assert forall|p: Pos|
                #[trigger] arena.adjacencies.segment(p) == if p == head0 && index_of(size.x, head0) < i + 1 {
                    Some(dir)
                } else {
                    s0.adjacencies.segment(p)
                } by {
                assert(before.adjacencies.segment(p) == if p == head0 && index_of(size.x, head0) < i {
                    Some(dir)
                } else {
                    s0.adjacencies.segment(p)
                });
            }
            if arena.tail == s0.tail && !(in_bounds(size, arena.tail) && segment_at(s0.cell(arena.tail), length - 1)) {
                assert forall|p: Pos|
                    in_bounds(size, p) && index_of(size.x, p) < i + 1 implies !#[trigger] segment_at(s0.cell(p), length - 1) by {
                    if index_of(size.x, p) == i {
                        lemma_index_injective(size, p, pos);
                    }
                }
            }
            if arena.behind == s0.behind && !(in_bounds(size, arena.behind) && segment_at(s0.cell(arena.behind), length as int)) {
                assert forall|p: Pos|
                    in_bounds(size, p) && index_of(size.x, p) < i + 1 implies !#[trigger] segment_at(s0.cell(p), length as int) by {
                    if index_of(size.x, p) == i {
                        lemma_index_injective(size, p, pos);
                    }
                }
            }
            match remove {
                Some(q) => {},
                None => {
                    assert forall|p: Pos|
                        in_bounds(size, p) && index_of(size.x, p) < i + 1 implies #[trigger] s0.cell(p) != (Cell::SnakeTail {
                            distance: length,
                        }) by {
                        if index_of(size.x, p) == i {
                            lemma_index_injective(size, p, pos);
                        }
                    }
                },
            }
        }
        i += 1;
    }
    proof {
        assert forall|p: Pos| in_bounds(size, p) implies index_of(size.x, p) < n by {
            lemma_index_bounds(size, p);
        }
    }
    let ghost s1 = *arena;
    let ghost tail1 = arena.tail;
    let ghost behind1 = arena.behind;
    proof {
        if exists|p: Pos| in_bounds(size, p) && #[trigger] segment_at(s0.cell(p), length - 1) {
            let p = choose|p: Pos| in_bounds(size, p) && #[trigger] segment_at(s0.cell(p), length - 1);
            assert(index_of(size.x, p) < n);
        }
        if exists|p: Pos| in_bounds(size, p) && #[trigger] segment_at(s0.cell(p), length as int) {
            let p = choose|p: Pos| in_bounds(size, p) && #[trigger] segment_at(s0.cell(p), length as int);
            assert(index_of(size.x, p) < n);
        }
    }
    let target = match head0.checked_step(dir) {
        Some(q) => if q.x < size.x && q.y < size.y {
            Some(q)
        } else {
            None
        },
        None => None,
    };
    let proceed = match target {
        Some(q) => {
            proof {
                assert(in_bounds(size, q));
                lemma_index_bounds(size, q);
                assert(arena.cell(q) == advanced(s0.cell(q)));
            }
            let c = arena.get_cell_unchecked(q);
            if c == Cell::Empty {
                arena.head = q;
                arena.set_cell(q, Cell::SnakeHead);
                true
            } else if c == Cell::Food {
                snake.length = length + 1;
                arena.food = None;
                arena.just_ate = true;
                arena.head = q;
                arena.set_cell(q, Cell::SnakeHead);
                true
            } else {
                false
            }
        },
        None => false,
    };
    if !proceed {
        let mut j: usize = 0;
        while j < n
            invariant
                arena.wf(),
                arena.size == size,
                size == s0.size,
                movable(&s0, length),
                n == positions@.len(),
                n == size.x * size.y,
                forall|k: int|
                    0 <= k < n ==> in_bounds(size, #[trigger] positions@[k]) && index_of(size.x, positions@[k]) == k,
                j <= n,
                arena.food == s0.food,
                arena.adjacencies == s1.adjacencies,
                arena.tail == tail1,
                arena.behind == behind1,
                forall|p: Pos|
                    in_bounds(size, p) ==> #[trigger] arena.cell(p) == if index_of(size.x, p) < j {
                        s0.cell(p)
                    } else {
                        advanced(s0.cell(p))
                    },
            decreases n - j,
        {
            let pos = positions[j];
            let cell = arena.get_cell_unchecked(pos);
            let ghost before = *arena;
            proof {
                assert(cell == advanced(s0.cell(pos)));
            }
            if let Cell::SnakeTail { distance } = cell {
                if distance == 1 {
                    arena.set_cell(pos, Cell::SnakeHead);
                } else {
                    arena.set_cell(pos, Cell::SnakeTail { distance: distance - 1 });
                }
            }
            proof {
                assert forall|p: Pos|
                    in_bounds(size, p) implies #[trigger] arena.cell(p) == if index_of(size.x, p) < j + 1 {
                        s0.cell(p)
                    } else {
                        advanced(s0.cell(p))
                    } by {
                    if p != pos && index_of(size.x, p) == j {
                        lemma_index_injective(size, p, pos);
                    }
                    assert(before.cell(p) == if index_of(size.x, p) < j {
                        s0.cell(p)
                    } else {
                        advanced(s0.cell(p))
                    });
                }
            }
            j += 1;
        }
        proof {
            assert forall|p: Pos| in_bounds(size, p) implies #[trigger] arena.cell(p) == s0.cell(p) by {
                lemma_index_bounds(size, p);
            }
        }
        assert(arena.tail == tail1 && arena.behind == behind1);
        assert forall|p: Pos|
            p != head0 && s0.cell(p) != (Cell::SnakeTail { distance: length }) implies #[trigger] arena.adjacencies.segment(p)
                == s0.adjacencies.segment(p) by {
            assert(s1.adjacencies.segment(p) == s0.adjacencies.segment(p));
        }
        return true;
    }
    let ghost s2 = *arena;
    proof {
        assert(s2.cell(moved(head0, dir)) == Cell::SnakeHead);
    }
    if let Some(q) = remove {
        proof {
            assert(q != head0);
            assert(q != moved(head0, dir));
        }
        arena.adjacencies.insert(q);
        let ghost g1 = arena.adjacencies;
        arena.adjacencies.remove_snake_segment(q);
        proof {
            assert forall|p: Pos| #[trigger] arena.adjacencies.has_node(p) == g1.has_node(p) by {
                assert(arena.adjacencies.mask(p) == g1.mask(p));
            }
        }
        arena.set_cell(q, Cell::Empty);
    }
    proof {
        let nh = moved(head0, dir);
        assert(target == Some(nh));
        assert(arena.cell(nh) == Cell::SnakeHead);
        assert(arena.tail == tail1 && arena.behind == behind1);
        assert forall|p: Pos|
            p != head0 && s0.cell(p) != (Cell::SnakeTail { distance: length }) implies #[trigger] arena.adjacencies.segment(p)
                == s0.adjacencies.segment(p) by {
            assert(s1.adjacencies.segment(p) == s0.adjacencies.segment(p));
            assert(s2.adjacencies.segment(p) == s1.adjacencies.segment(p));
            match remove {
                Some(q) => {
                    assert(p != q);
                },
                None => {},
            }
        }
        assert forall|p: Pos|
            in_bounds(size, p) && p != nh implies #[trigger] arena.cell(p) == after_move(s0.cell(p), length) by {
            assert(s1.cell(p) == advanced(s0.cell(p)));
            assert(s2.cell(p) == s1.cell(p));
            match remove {
                Some(q) => {
                    if s0.cell(p) == (Cell::SnakeTail { distance: length }) {
                        assert(p == q);
                    }
                },
                None => {},
            }
        }
        assert forall|p: Pos|
            in_bounds(size, p) && #[trigger] s0.cell(p) == (Cell::SnakeTail { distance: length }) implies arena.adjacencies.has_node(p)
                && arena.adjacencies.segment(p).is_none() by {
            match remove {
                Some(q) => {
                    assert(p == q);
                },
                None => {},
            }
        }
        if occupancy_matches(&s0) {
            assert forall|p: Pos| in_bounds(size, p) implies (#[trigger] arena.adjacencies.has_node(p) == !(arena.cell(p) is SnakeTail)) by {
                assert(s1.adjacencies.has_node(p) == (s0.adjacencies.has_node(p) && p != head0));
                assert(s2.adjacencies.has_node(p) == s1.adjacencies.has_node(p));
                match remove {
                    Some(q) => {
                        assert(arena.adjacencies.has_node(p) == (p == q || s2.adjacencies.has_node(p)));
                        if p != nh && s0.cell(p) == (Cell::SnakeTail { distance: length }) {
                            assert(p == q);
                        }
                    },
                    None => {
                        assert(arena.adjacencies.has_node(p) == s2.adjacencies.has_node(p));
                    },
                }
                assert(s0.adjacencies.has_node(p) == !(s0.cell(p) is SnakeTail));
                if p == nh {
                    assert(p != head0);
                } else {
                    assert(arena.cell(p) == after_move(s0.cell(p), length));
                }
            }
        }
        if board_ok(&s0, length as int) {
            let fl = if s0.cell(nh) == Cell::Food { length + 1 } else { length as int };
            assert forall|p: Pos|
                in_bounds(size, p) && p != nh implies #[trigger] arena.cell(p) != Cell::SnakeHead by {
                assert(arena.cell(p) == after_move(s0.cell(p), length));
            }
            assert forall|p: Pos|
                in_bounds(size, p) implies match #[trigger] arena.cell(p) {
                    Cell::SnakeTail { distance } => 1 <= distance <= fl,
                    _ => true,
                } by {
                if p != nh {
                    assert(arena.cell(p) == after_move(s0.cell(p), length));
                    assert(match s0.cell(p) {
                        Cell::SnakeTail { distance } => 1 <= distance <= length,
                        _ => true,
                    });
                    match s0.cell(p) {
                        Cell::SnakeTail { distance } => {
                            if distance < length {
                                assert(arena.cell(p) == (Cell::SnakeTail { distance: (distance + 1) as usize }));
                            }
                        },
                        _ => {},
                    }
                }
            }
            assert forall|p: Pos, q: Pos|
                in_bounds(size, p) && in_bounds(size, q) && (#[trigger] arena.cell(p)) is SnakeTail
                    && #[trigger] arena.cell(q) == arena.cell(p) implies p == q by {
                assert(p != nh && q != nh);
                assert(arena.cell(p) == after_move(s0.cell(p), length));
                assert(arena.cell(q) == after_move(s0.cell(q), length));
                if s0.cell(p) == Cell::SnakeHead {
                    assert(p == head0);
                }
                if s0.cell(q) == Cell::SnakeHead {
                    assert(q == head0);
                }
            }
        }
    }
    false
}

} // verus!
