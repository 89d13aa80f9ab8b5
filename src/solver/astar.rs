//! Pure pursuit: follow a shortest path to the food, recomputed every tick.

use vstd::prelude::*;
use crate::arena::Arena;
use crate::geometry::{Direction, Pos};
use crate::pathfinding::{reaches, shortest_path};
use crate::snake::Snake;
use crate::pathfinding::path_view;
use crate::solver::{copy_path, first_step_toward, ready_arena};

verus! {

/// Moves along a shortest path to the food; keeps its heading where the food cannot be
/// reached.
pub struct AstarSolver {
    pub shortest_path: Option<Vec<Direction>>,
    pub start: Pos,
}

impl AstarSolver {
    pub fn new() -> (r: AstarSolver)
        ensures
            r.shortest_path.is_none(),
    {
        AstarSolver { shortest_path: None, start: Pos { x: 0, y: 0 } }
    }

    pub fn get_direction(&mut self, snake: &Snake, arena: &Arena) -> (r: Direction)
        requires
            ready_arena(arena),
        ensures
            crate::solver::astar_choice(arena, snake, r),
            reaches(arena.adjacencies, arena.head, snake.direction, arena.food->0)
                ==> first_step_toward(arena.adjacencies, arena.head, snake.direction, arena.food->0, r),
            !reaches(arena.adjacencies, arena.head, snake.direction, arena.food->0) ==> r
                == snake.direction,
    {
        let food = match arena.food {
            Some(f) => f,
            None => {
                return snake.direction;
            },
        };
        match shortest_path(arena.head, food, snake.direction, &arena.adjacencies) {
            Some(shortest) => {
                if shortest.len() == 0 {
                    assert(false);
                    return snake.direction;
                }
                let dir = shortest[0];
                proof {
                    assert(first_step_toward(arena.adjacencies, arena.head, snake.direction, food, dir));
                }
                self.shortest_path = Some(shortest);
                self.start = arena.head;
                dir
            },
            None => snake.direction,
        }
    }

    /// The last planned path, with the cell it starts from.
    pub fn debug_paths(&self, _arena: &Arena) -> (r: Vec<(Pos, Option<Vec<Direction>>)>)
        ensures
            self.shortest_path is Some ==> r@.len() == 1 && r@[0].0 == self.start && path_view(r@[0].1)
                == path_view(self.shortest_path),
            self.shortest_path is None ==> r@.len() == 0,
    {
        match &self.shortest_path {
            Some(_) => {
                let mut out = Vec::new();
                out.push((self.start, copy_path(&self.shortest_path)));
                out
            },
            None => Vec::new(),
        }
    }
}

} // verus!
