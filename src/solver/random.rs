//! A random walk: each tick, keep the heading or turn left or right at random.

use vstd::prelude::*;
use crate::arena::Arena;
use crate::geometry::Direction;
use crate::snake::Snake;

verus! {

/// Relies on `rand::seq::IteratorRandom::choose` over `0..n` with the thread-local generator:
/// it returns `None` exactly when the range is empty, and otherwise one of its values.
#[verifier::external_body]
pub(crate) fn choose_below(n: usize) -> (r: Option<usize>)
    ensures
        match r {
            Some(i) => i < n,
            None => n == 0,
        },
{
    rand::seq::IteratorRandom::choose(0..n, &mut rand::thread_rng())
}

#[derive(Debug, Clone, Copy)]
pub struct RandomWalkSolver;

/// The `i`-th choice of the random walk: keep heading `d`, turn clockwise, or turn
/// counterclockwise.
pub open spec fn turn_choice(d: Direction, i: int) -> Direction {
    if i == 0 {
        d
    } else if i == 1 {
        match d {
            Direction::Up => Direction::Right,
            Direction::Down => Direction::Left,
            Direction::Left => Direction::Up,
            Direction::Right => Direction::Down,
        }
    } else {
        match d {
            Direction::Up => Direction::Left,
            Direction::Down => Direction::Right,
            Direction::Left => Direction::Down,
            Direction::Right => Direction::Up,
        }
    }
}

/// The `i`-th choice of the random walk from heading `d`.
pub fn turn_for(d: Direction, i: usize) -> (r: Direction)
    requires
        i < 3,
    ensures
        r == turn_choice(d, i as int),
{
    if i == 0 {
        d
    } else if i == 1 {
        d.rotate_clockwise()
    } else {
        d.rotate_counterclockwise()
    }
}

impl RandomWalkSolver {
    /// Keeps the heading or turns a quarter either way, at random; never reverses.
    pub fn get_direction(&mut self, snake: &Snake, _arena: &Arena) -> (r: Direction)
        ensures
            exists|i: int| 0 <= i < 3 && r == #[trigger] turn_choice(snake.direction, i),
            r != crate::geometry::flip_of(snake.direction),
    {
        match choose_below(3) {
            Some(i) => turn_for(snake.direction, i),
            None => snake.direction,
        }
    }
}

} // verus!
