//! Board coordinates, the four axis directions, and sets of directions.

use vstd::prelude::*;

verus! {

/// A cell coordinate on the board; `y` grows upward.
#[derive(Clone, Copy, PartialEq, Eq, Structural, Debug, Hash)]
pub struct Pos {
    pub x: u32,
    pub y: u32,
}

/// One of the four axis directions.
#[derive(Clone, Copy, PartialEq, Eq, Structural, Debug, Hash)]
pub enum Direction {
    Up,
    Down,
    Left,
    Right,
}

/// The direction opposite to `d`.
pub open spec fn flip_of(d: Direction) -> Direction {
    match d {
        Direction::Up => Direction::Down,
        Direction::Down => Direction::Up,
        Direction::Left => Direction::Right,
        Direction::Right => Direction::Left,
    }
}

/// Horizontal offset of one step in direction `d`.
pub open spec fn dx(d: Direction) -> int {
    match d {
        Direction::Left => -1,
        Direction::Right => 1,
        _ => 0,
    }
}

/// Vertical offset of one step in direction `d`.
pub open spec fn dy(d: Direction) -> int {
    match d {
        Direction::Down => -1,
        Direction::Up => 1,
        _ => 0,
    }
}

/// Whether one step from `p` in direction `d` stays in the non-negative `u32` range.
pub open spec fn can_step(p: Pos, d: Direction) -> bool {
    0 <= p.x + dx(d) <= u32::MAX && 0 <= p.y + dy(d) <= u32::MAX
}

/// The cell one step from `p` in direction `d`.
pub open spec fn moved(p: Pos, d: Direction) -> Pos {
    Pos { x: (p.x + dx(d)) as u32, y: (p.y + dy(d)) as u32 }
}

/// Manhattan distance between two cells.
pub open spec fn manhattan(a: Pos, b: Pos) -> int {
    (if a.x >= b.x { a.x - b.x } else { b.x - a.x }) + (if a.y >= b.y { a.y - b.y } else { b.y
        - a.y })
}

impl Pos {
    pub fn new(x: u32, y: u32) -> (r: Pos)
        ensures
            r == (Pos { x, y }),
    {
        Pos { x, y }
    }

    /// The cell one step away in direction `d`.
    pub fn step(self, d: Direction) -> (r: Pos)
        requires
            can_step(self, d),
        ensures
            r == moved(self, d),
    {
        match d {
            Direction::Up => Pos { x: self.x, y: self.y + 1 },
            Direction::Down => Pos { x: self.x, y: self.y - 1 },
            Direction::Left => Pos { x: self.x - 1, y: self.y },
            Direction::Right => Pos { x: self.x + 1, y: self.y },
        }
    }

    /// The cell one step away in direction `d`, or `None` where that leaves the `u32` range.
    pub fn checked_step(self, d: Direction) -> (r: Option<Pos>)
        ensures
            r == (if can_step(self, d) { Some(moved(self, d)) } else { None }),
    {
        match d {
            Direction::Up => if self.y < u32::MAX { Some(Pos { x: self.x, y: self.y + 1 }) } else { None },
            Direction::Down => if self.y > 0 { Some(Pos { x: self.x, y: self.y - 1 }) } else { None },
            Direction::Left => if self.x > 0 { Some(Pos { x: self.x - 1, y: self.y }) } else { None },
            Direction::Right => if self.x < u32::MAX { Some(Pos { x: self.x + 1, y: self.y }) } else { None },
        }
    }

    /// Manhattan distance to `other`.
    pub fn manhattan(self, other: Pos) -> (r: u64)
        ensures
            r == manhattan(self, other),
    {
        let a: u64 = if self.x >= other.x { (self.x - other.x) as u64 } else { (other.x - self.x) as u64 };
        let b: u64 = if self.y >= other.y { (self.y - other.y) as u64 } else { (other.y - self.y) as u64 };
        a + b
    }
}

impl Direction {
    /// The unit offset `(dx, dy)` of one step in this direction.
    pub fn offset(&self) -> (r: (i32, i32))
        ensures
            r.0 == dx(*self),
            r.1 == dy(*self),
    {
        match self {
            Direction::Up => (0, 1),
            Direction::Down => (0, -1),
            Direction::Left => (-1, 0),
            Direction::Right => (1, 0),
        }
    }

    /// The direction of a unit offset; the horizontal part decides first.
    pub fn from_offset(offset: (i32, i32)) -> (r: Option<Direction>)
        ensures
            offset.0 == -1 ==> r == Some(Direction::Left),
            offset.0 == 1 ==> r == Some(Direction::Right),
            offset.0 != -1 && offset.0 != 1 && offset.1 == -1 ==> r == Some(Direction::Down),
            offset.0 != -1 && offset.0 != 1 && offset.1 == 1 ==> r == Some(Direction::Up),
            offset.0 != -1 && offset.0 != 1 && offset.1 != -1 && offset.1 != 1 ==> r.is_none(),
    {
        if offset.0 == -1 {
            Some(Direction::Left)
        } else if offset.0 == 1 {
            Some(Direction::Right)
        } else if offset.1 == -1 {
            Some(Direction::Down)
        } else if offset.1 == 1 {
            Some(Direction::Up)
        } else {
            None
        }
    }

    pub fn rotate_clockwise(&self) -> (r: Direction)
        ensures
            dx(r) == dy(*self),
            dy(r) == -dx(*self),
    {
        match self {
            Direction::Up => Direction::Right,
            Direction::Down => Direction::Left,
            Direction::Left => Direction::Up,
            Direction::Right => Direction::Down,
        }
    }

    pub fn rotate_counterclockwise(&self) -> (r: Direction)
        ensures
            dx(r) == -dy(*self),
            dy(r) == dx(*self),
    {
        match self {
            Direction::Up => Direction::Left,
            Direction::Down => Direction::Right,
            Direction::Left => Direction::Down,
            Direction::Right => Direction::Up,
        }
    }

    pub fn flip(&self) -> (r: Direction)
        ensures
            r == flip_of(*self),
    {
        match self {
            Direction::Up => Direction::Down,
            Direction::Down => Direction::Up,
            Direction::Left => Direction::Right,
            Direction::Right => Direction::Left,
        }
    }

    pub fn is_vertical(&self) -> (r: bool)
        ensures
            r == (dx(*self) == 0),
    {
        match self {
            Direction::Up | Direction::Down => true,
            Direction::Left | Direction::Right => false,
        }
    }

    pub fn is_horizontal(&self) -> (r: bool)
        ensures
            r == (dy(*self) == 0),
    {
        match self {
            Direction::Left | Direction::Right => true,
            Direction::Up | Direction::Down => false,
        }
    }
}

/// A set of directions.
#[derive(Clone, Copy, PartialEq, Eq, Structural, Debug, Hash)]
pub struct Directions {
    pub up: bool,
    pub down: bool,
    pub left: bool,
    pub right: bool,
}

impl Directions {
    /// Whether direction `d` is in the set.
    pub open spec fn has(self, d: Direction) -> bool {
        match d {
            Direction::Up => self.up,
            Direction::Down => self.down,
            Direction::Left => self.left,
            Direction::Right => self.right,
        }
    }

    /// The empty set.
    pub open spec fn none_spec() -> Directions {
        Directions { up: false, down: false, left: false, right: false }
    }

    /// The set with `d` added.
    pub open spec fn with_spec(self, d: Direction) -> Directions {
        match d {
            Direction::Up => Directions { up: true, ..self },
            Direction::Down => Directions { down: true, ..self },
            Direction::Left => Directions { left: true, ..self },
            Direction::Right => Directions { right: true, ..self },
        }
    }

    /// The set with `d` taken out.
    pub open spec fn without_spec(self, d: Direction) -> Directions {
        match d {
            Direction::Up => Directions { up: false, ..self },
            Direction::Down => Directions { down: false, ..self },
            Direction::Left => Directions { left: false, ..self },
            Direction::Right => Directions { right: false, ..self },
        }
    }

    pub fn none() -> (r: Directions)
        ensures
            r == Directions::none_spec(),
    {
        Directions { up: false, down: false, left: false, right: false }
    }

    pub fn all() -> (r: Directions)
        ensures
            forall|d: Direction| r.has(d),
    {
        Directions { up: true, down: true, left: true, right: true }
    }

    pub fn up(&self) -> (r: bool)
        ensures
            r == self.has(Direction::Up),
    {
        self.up
    }

    pub fn down(&self) -> (r: bool)
        ensures
            r == self.has(Direction::Down),
    {
        self.down
    }

    pub fn left(&self) -> (r: bool)
        ensures
            r == self.has(Direction::Left),
    {
        self.left
    }

    pub fn right(&self) -> (r: bool)
        ensures
            r == self.has(Direction::Right),
    {
        self.right
    }

    /// Whether direction `d` is in the set.
    pub fn contains(&self, d: Direction) -> (r: bool)
        ensures
            r == self.has(d),
    {
        match d {
            Direction::Up => self.up,
            Direction::Down => self.down,
            Direction::Left => self.left,
            Direction::Right => self.right,
        }
    }

    /// The set with `d` added.
    pub fn with(self, d: Direction) -> (r: Directions)
        ensures
            r == self.with_spec(d),
            forall|e: Direction| r.has(e) == (e == d || self.has(e)),
    {
        match d {
            Direction::Up => Directions { up: true, ..self },
            Direction::Down => Directions { down: true, ..self },
            Direction::Left => Directions { left: true, ..self },
            Direction::Right => Directions { right: true, ..self },
        }
    }

    /// The set with `d` taken out.
    pub fn without(self, d: Direction) -> (r: Directions)
        ensures
            r == self.without_spec(d),
            forall|e: Direction| r.has(e) == (e != d && self.has(e)),
    {
        match d {
            Direction::Up => Directions { up: false, ..self },
            Direction::Down => Directions { down: false, ..self },
            Direction::Left => Directions { left: false, ..self },
            Direction::Right => Directions { right: false, ..self },
        }
    }

    /// Every direction but `d`.
    pub fn all_but(d: Direction) -> (r: Directions)
        ensures
            forall|e: Direction| r.has(e) == (e != d),
    {
        Directions::all().without(d)
    }
}

impl From<Direction> for Directions {
    fn from(value: Direction) -> (r: Directions) {
        Directions::none().with(value)
    }
}

impl vstd::std_specs::convert::FromSpecImpl<Direction> for Directions {
    open spec fn obeys_from_spec() -> bool {
        true
    }

    open spec fn from_spec(v: Direction) -> Directions {
        Directions::none_spec().with_spec(v)
    }
}

} // verus!
