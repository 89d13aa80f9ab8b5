//! The steering strategies. Each reads the board once per tick and names the
//! direction of the next move.

pub mod astar;
pub mod greedy;
pub mod hamilton;
pub mod random;

use vstd::prelude::*;
use crate::adjacency::{in_bounds, AdjacencyGraph};
use crate::arena::Arena;
use crate::geometry::{can_step, manhattan, moved, Direction, Pos};
use crate::pathfinding::{astar_model, no_shorter_route, path_view, reaches, shortest_result, walk_end, walk_ok};
use crate::snake::Snake;
use astar::AstarSolver;
use greedy::GreedySolver;
use hamilton::HamiltonSolver;

verus! {

/// The board a strategy may be asked about: well formed, the head on the board, and food
/// present away from the head.
pub open spec fn ready_arena(arena: &Arena) -> bool {
    &&& arena.wf()
    &&& crate::adjacency::in_bounds(arena.size, arena.head)
    &&& arena.food is Some
    &&& arena.food->0 != arena.head
}

/// `d` is the first move of a shortest legal walk from the head, entered by `prev`, to `goal`.
pub open spec fn first_step_toward(
    g: AdjacencyGraph,
    head: Pos,
    prev: Direction,
    goal: Pos,
    d: Direction,
) -> bool {
    exists|p: Seq<Direction>|
        walk_ok(g, head, prev, p) && walk_end(head, p) == goal && no_shorter_route(g, head, prev, goal, p.len())
            && p.len() > 0 && #[trigger] p[0] == d
}

/// One candidate of the farthest-from-food choice: `d` replaces `best` when it leads to a
/// traversable cell strictly farther from the food.
pub open spec fn farther(
    g: AdjacencyGraph,
    head: Pos,
    food: Pos,
    d: Direction,
    best: (int, Direction),
) -> (int, Direction) {
    if g.has_edge(head, d) && manhattan(moved(head, d), food) > best.0 {
        (manhattan(moved(head, d), food), d)
    } else {
        best
    }
}

/// Among the moves out of `head`, the one leading farthest from `food`, tried in the order
/// up, down, right, left; `current` where there is none.
pub open spec fn farthest_step(g: AdjacencyGraph, head: Pos, food: Pos, current: Direction) -> Direction {
    farther(
        g,
        head,
        food,
        Direction::Left,
        farther(
            g,
            head,
            food,
            Direction::Right,
            farther(g, head, food, Direction::Down, farther(g, head, food, Direction::Up, (-1, current))),
        ),
    ).1
}

/// The move out of `head` that leads farthest from `food`; see `farthest_step`.
pub fn farthest_from(adjacencies: &AdjacencyGraph, head: Pos, food: Pos, current: Direction) -> (r:
    Direction)
    requires
        adjacencies.wf(),
        adjacencies.consistent(),
    ensures
        r == farthest_step(*adjacencies, head, food, current),
{
    let dirs = adjacencies.get_directions(head);
    let ghost g = *adjacencies;
    let mut max_dist: i64 = -1;
    let mut dir = current;
    let order = [Direction::Up, Direction::Down, Direction::Right, Direction::Left];
    let ghost mut best: (int, Direction) = (-1, current);
    let mut k: usize = 0;
    while k < 4
        invariant
            g == *adjacencies,
            g.wf(),
            g.consistent(),
            dirs == g.dirs(head),
            order@ == seq![Direction::Up, Direction::Down, Direction::Right, Direction::Left],
            k <= 4,
            best == (max_dist as int, dir),
            -1 <= max_dist <= 2 * u32::MAX,
            k == 0 ==> best == (-1int, current),
            k == 1 ==> best == farther(g, head, food, Direction::Up, (-1, current)),
            k == 2 ==> best == farther(g, head, food, Direction::Down, farther(g, head, food, Direction::Up, (-1, current))),
            k == 3 ==> best == farther(g, head, food, Direction::Right, farther(g, head, food, Direction::Down, farther(g, head, food, Direction::Up, (-1, current)))),
            k == 4 ==> best.1 == farthest_step(g, head, food, current),
        decreases 4 - k,
    {
        let d = order[k];
        if dirs.contains(d) {
            proof {
                assert(g.dirs(head).has(d) == g.neighbor_present(head, d));
            }
            let dist = head.step(d).manhattan(food) as i64;
            if dist > max_dist {
                max_dist = dist;
                dir = d;
            }
        }
        proof {
            best = (max_dist as int, dir);
        }
        k += 1;
    }
    dir
}

/// What the pursuit strategy returns: the first move of the path the search returns to the
/// food, or the current heading where there is none.
pub open spec fn astar_choice(arena: &Arena, snake: &Snake, r: Direction) -> bool {
    &&& r == match astar_model(arena.adjacencies, arena.head, arena.food->0, snake.direction) {
        Some(p) => p[0],
        None => snake.direction,
    }
    &&& reaches(arena.adjacencies, arena.head, snake.direction, arena.food->0) ==> first_step_toward(
        arena.adjacencies,
        arena.head,
        snake.direction,
        arena.food->0,
        r,
    )
}

/// What the safety-checked strategy returns; see `greedy_facts` and `greedy_pick`.
pub open spec fn greedy_choice(arena: &Arena, snake: &Snake, r: Direction) -> bool {
    exists|sp: Option<Seq<Direction>>, chase: bool, tp: Option<Seq<Direction>>, lp: Option<Seq<Direction>>|
        #[trigger] greedy::greedy_facts(arena, snake, sp, chase, tp, lp) && r == greedy::greedy_pick(arena, snake, sp, chase, lp)
}

/// What the cycle strategy returns: the cycle's direction at the head once the snake is half
/// the board; before that, its exact choice for a shortest route to the food.
pub open spec fn hamilton_choice(h: &HamiltonSolver, arena: &Arena, snake: &Snake, r: Direction) -> bool {
    &&& snake.length >= arena.size.x * arena.size.y / 2 ==> r == h.cycle_dir(arena.head)
    &&& snake.length < arena.size.x * arena.size.y / 2 ==> exists|sp: Option<Seq<Direction>>|
        shortest_result(arena.adjacencies, arena.head, snake.direction, arena.food->0, sp) && sp == astar_model(
            arena.adjacencies,
            arena.head,
            arena.food->0,
            snake.direction,
        ) && r == h.cycle_choice(
            arena,
            snake,
            sp,
        )
}

/// What the cycle strategy needs before it lays out its cycle: a route from the head to the
/// cell behind the tail.
pub open spec fn cycle_can_start(arena: &Arena, snake: &Snake) -> bool {
    &&& in_bounds(arena.size, arena.head)
    &&& arena.head != arena.behind
    &&& reaches(arena.adjacencies, arena.head, snake.direction, arena.behind)
}

/// A copy of an optional path.
pub fn copy_path(o: &Option<Vec<Direction>>) -> (r: Option<Vec<Direction>>)
    ensures
        path_view(r) == path_view(*o),
{
    match o {
        Some(v) => {
            let mut out: Vec<Direction> = Vec::new();
            let mut i: usize = 0;
            while i < v.len()
                invariant
                    i <= v@.len(),
                    out@ == v@.subrange(0, i as int),
                decreases v@.len() - i,
            {
                out.push(v[i]);
                i += 1;
            }
            assert(out@ =~= v@);
            Some(out)
        },
        None => None,
    }
}

/// The strategy in use.
pub enum Solver {
    Astar(AstarSolver),
    Greedy(GreedySolver),
    Hamilton(HamiltonSolver),
}

impl Solver {
    /// Whether the strategy's own state fits the board.
    pub open spec fn fits(&self, arena: &Arena) -> bool {
        match self {
            Solver::Hamilton(h) => h.cycle_ok(arena.size) && in_bounds(arena.size, arena.tail),
            _ => true,
        }
    }

    /// Seeds the strategy's state from the board; only the cycle strategy has any.
    pub fn initialize(&mut self, snake: &Snake, arena: &Arena)
        requires
            arena.wf(),
            *old(self) is Hamilton ==> cycle_can_start(arena, snake),
        ensures
            *final(self) is Astar <==> *old(self) is Astar,
            *final(self) is Greedy <==> *old(self) is Greedy,
            *final(self) is Hamilton <==> *old(self) is Hamilton,
            *final(self) is Hamilton ==> (*final(self))->Hamilton_0.cycle_ok(arena.size),
            *final(self) is Hamilton ==> (*final(self))->Hamilton_0.laid_out(arena, snake),
            !(*old(self) is Hamilton) ==> *final(self) == *old(self),
    {
        match self {
            Solver::Astar(_) => {},
            Solver::Greedy(_) => {},
            Solver::Hamilton(s) => s.initialize(snake, arena),
        }
    }

    /// The direction of the next move.
    pub fn get_direction(&mut self, snake: &Snake, arena: &Arena) -> (r: Direction)
        requires
            ready_arena(arena),
            old(self).fits(arena),
        ensures
            final(self).fits(arena),
            *final(self) is Astar <==> *old(self) is Astar,
            *final(self) is Greedy <==> *old(self) is Greedy,
            *final(self) is Hamilton <==> *old(self) is Hamilton,
            *old(self) is Astar ==> astar_choice(arena, snake, r),
            *old(self) is Greedy ==> greedy_choice(arena, snake, r),
            *old(self) is Hamilton ==> hamilton_choice(&(*old(self))->Hamilton_0, arena, snake, r),
    {
        match self {
            Solver::Astar(s) => s.get_direction(snake, arena),
            Solver::Greedy(s) => s.get_direction(snake, arena),
            Solver::Hamilton(s) => s.get_direction(snake, arena),
        }
    }
}

impl Solver {
    /// The paths the strategy last planned, each with the cell it starts from.
    pub fn debug_paths(&self, arena: &Arena) -> (r: Vec<(Pos, Option<Vec<Direction>>)>)
        ensures
            match self {
                Solver::Astar(s) => (s.shortest_path is Some ==> r@.len() == 1 && r@[0].0 == s.start
                    && path_view(r@[0].1) == path_view(s.shortest_path)) && (s.shortest_path is None
                    ==> r@.len() == 0),
                Solver::Greedy(s) => r@.len() == 2 && r@[0].0 == s.head && path_view(r@[0].1)
                    == path_view(s.shortest_path) && r@[1].0 == s.head && path_view(r@[1].1)
                    == path_view(s.longest_path),
                Solver::Hamilton(s) => r@.len() == 1 && r@[0].0 == s.head && path_view(r@[0].1)
                    == path_view(s.shortest_path),
            },
    {
        match self {
            Solver::Astar(s) => s.debug_paths(arena),
            Solver::Greedy(s) => s.debug_paths(arena),
            Solver::Hamilton(s) => s.debug_paths(arena),
        }
    }

    /// The tables the strategy keeps; the cycle strategy keeps its cycle second.
    pub fn debug_tables(&self, arena: &Arena) -> (r: Vec<Option<Vec<hamilton::CycleCell>>>)
        ensures
            match self {
                Solver::Hamilton(s) => r@.len() == 2 && r@[0] is None && r@[1] is Some && r@[1]->0@
                    == s.cycle@,
                _ => r@.len() == 0,
            },
    {
        match self {
            Solver::Hamilton(s) => s.debug_tables(arena),
            _ => Vec::new(),
        }
    }

    /// The points the strategy marks; the safety-checked strategy marks the simulated tail
    /// third.
    pub fn debug_points(&self, arena: &Arena) -> (r: Vec<Option<Pos>>)
        ensures
            match self {
                Solver::Greedy(s) => r@ == seq![None, None, s.virtual_tail],
                _ => r@.len() == 0,
            },
    {
        match self {
            Solver::Greedy(s) => s.debug_points(arena),
            _ => Vec::new(),
        }
    }
}

/// A steering strategy: seeded once from the board, then asked for one move per tick.
pub trait SolveMethod {
    /// Whether the strategy's own state fits the board.
    spec fn fits_arena(&self, arena: &Arena) -> bool;

    /// What the strategy needs of the board before it seeds its state.
    spec fn can_initialize(&self, snake: &Snake, arena: &Arena) -> bool;

    fn initialize(&mut self, snake: &Snake, arena: &Arena)
        requires
            arena.wf(),
            old(self).can_initialize(snake, arena),
        ensures
            in_bounds(arena.size, arena.tail) ==> final(self).fits_arena(arena),
    ;

    fn get_direction(&mut self, snake: &Snake, arena: &Arena) -> (r: Direction)
        requires
            ready_arena(arena),
            old(self).fits_arena(arena),
        ensures
            final(self).fits_arena(arena),
    ;
}

impl SolveMethod for AstarSolver {
    open spec fn fits_arena(&self, arena: &Arena) -> bool {
        true
    }

    open spec fn can_initialize(&self, snake: &Snake, arena: &Arena) -> bool {
        true
    }

    fn initialize(&mut self, snake: &Snake, arena: &Arena) {
    }

    fn get_direction(&mut self, snake: &Snake, arena: &Arena) -> (r: Direction) {
        AstarSolver::get_direction(self, snake, arena)
    }
}

impl SolveMethod for GreedySolver {
    open spec fn fits_arena(&self, arena: &Arena) -> bool {
        true
    }

    open spec fn can_initialize(&self, snake: &Snake, arena: &Arena) -> bool {
        true
    }

    fn initialize(&mut self, snake: &Snake, arena: &Arena) {
    }

    fn get_direction(&mut self, snake: &Snake, arena: &Arena) -> (r: Direction) {
        GreedySolver::get_direction(self, snake, arena)
    }
}

impl SolveMethod for HamiltonSolver {
    open spec fn fits_arena(&self, arena: &Arena) -> bool {
        self.cycle_ok(arena.size) && in_bounds(arena.size, arena.tail)
    }

    open spec fn can_initialize(&self, snake: &Snake, arena: &Arena) -> bool {
        cycle_can_start(arena, snake)
    }

    fn initialize(&mut self, snake: &Snake, arena: &Arena) {
        HamiltonSolver::initialize(self, snake, arena)
    }

    fn get_direction(&mut self, snake: &Snake, arena: &Arena) -> (r: Direction) {
        HamiltonSolver::get_direction(self, snake, arena)
    }
}

impl Default for Solver {
    fn default() -> (r: Solver)
        ensures
            r is Hamilton,
    {
        Solver::Hamilton(HamiltonSolver::new())
    }
}

} // verus!
