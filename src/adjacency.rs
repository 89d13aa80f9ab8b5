//! The adjacency graph: for every traversable cell, the set of directions that
//! lead to a traversable neighbour, kept in step with occupancy; and, for the
//! snake's body cells, the direction in which each segment's follower moves.

use vstd::prelude::*;
use crate::geometry::{can_step, moved, Direction, Directions, Pos};

verus! {

/// Row-major index of `p` on a board of width `w`.
pub open spec fn index_of(w: u32, p: Pos) -> int {
    p.y * w + p.x
}

/// Whether `p` lies on a board of size `size`.
pub open spec fn in_bounds(size: Pos, p: Pos) -> bool {
    p.x < size.x && p.y < size.y
}

/// Whether one step from `p` in direction `d` stays on a board of size `size`.
pub open spec fn step_in_bounds(size: Pos, p: Pos, d: Direction) -> bool {
    can_step(p, d) && in_bounds(size, moved(p, d))
}

pub proof fn lemma_index_bounds(size: Pos, p: Pos)
    requires
        in_bounds(size, p),
    ensures
        0 <= p.y * size.x <= index_of(size.x, p) < size.x * size.y,
{
    assert(p.y * size.x + p.x < size.x * size.y) by (nonlinear_arith)
        requires
            p.x < size.x,
            p.y < size.y,
    ;
    assert(0 <= p.y * size.x) by (nonlinear_arith);
}

pub proof fn lemma_index_injective(size: Pos, p: Pos, q: Pos)
    requires
        in_bounds(size, p),
        in_bounds(size, q),
        index_of(size.x, p) == index_of(size.x, q),
    ensures
        p == q,
{
    let w = size.x as int;
    if p.y < q.y {
        assert(p.y * w + w <= q.y * w) by (nonlinear_arith)
            requires
                p.y < q.y,
                w >= 0,
        ;
    } else if q.y < p.y {
        assert(q.y * w + w <= p.y * w) by (nonlinear_arith)
            requires
                q.y < p.y,
                w >= 0,
        ;
    }
}

/// Computes the row-major index of an in-bounds cell.
pub fn cell_index(size: Pos, p: Pos) -> (r: usize)
    requires
        in_bounds(size, p),
        size.x * size.y <= usize::MAX,
    ensures
        r == index_of(size.x, p),
        r < size.x * size.y,
{
    proof {
        lemma_index_bounds(size, p);
    }
    (p.y as usize) * (size.x as usize) + (p.x as usize)
}

/// Whether `p` can step in direction `d` without leaving a board of size `size`.
pub fn step_fits(size: Pos, p: Pos, d: Direction) -> (r: bool)
    requires
        in_bounds(size, p),
    ensures
        r == step_in_bounds(size, p, d),
{
    match d {
        Direction::Up => p.y + 1 < size.y,
        Direction::Down => p.y > 0,
        Direction::Left => p.x > 0,
        Direction::Right => p.x + 1 < size.x,
    }
}

#[derive(Debug)]
pub struct AdjacencyGraph {
    size: Pos,
    graph: Vec<Option<Directions>>,
    snake: Vec<Option<Direction>>,
}

impl AdjacencyGraph {
    /// The board size: width in `x`, height in `y`.
    pub closed spec fn size_spec(&self) -> Pos {
        self.size
    }

    /// The board size: width in `x`, height in `y`.
    pub fn size(&self) -> (r: Pos)
        ensures
            r == self.size_spec(),
    {
        self.size
    }

    pub closed spec fn wf(&self) -> bool {
        &&& self.size.x >= 1
        &&& self.size.y >= 1
        &&& self.size.x * self.size.y <= u32::MAX
        &&& self.graph@.len() == self.size.x * self.size.y
        &&& self.snake@.len() == self.size.x * self.size.y
    }

    /// The mask stored for `p`, `None` where `p` is not traversable.
    pub closed spec fn mask(&self, p: Pos) -> Option<Directions> {
        if in_bounds(self.size, p) {
            self.graph@[index_of(self.size.x, p)]
        } else {
            None
        }
    }

    /// The follow direction recorded for the body cell `p`.
    pub closed spec fn segment(&self, p: Pos) -> Option<Direction> {
        if in_bounds(self.size, p) {
            self.snake@[index_of(self.size.x, p)]
        } else {
            None
        }
    }

    /// Whether `p` is traversable.
    pub open spec fn has_node(&self, p: Pos) -> bool {
        self.mask(p).is_some()
    }

    /// The directions recorded for `p`; empty where `p` is not traversable.
    pub open spec fn dirs(&self, p: Pos) -> Directions {
        match self.mask(p) {
            Some(m) => m,
            None => Directions::none_spec(),
        }
    }

    /// Whether the graph holds an edge from `p` in direction `d`.
    pub open spec fn has_edge(&self, p: Pos, d: Direction) -> bool {
        self.has_node(p) && self.dirs(p).has(d)
    }

    /// Whether the neighbour of `p` in direction `d` is on the board and traversable.
    pub open spec fn neighbor_present(&self, p: Pos, d: Direction) -> bool {
        step_in_bounds(self.size_spec(), p, d) && self.has_node(moved(p, d))
    }

    /// Every recorded mask names exactly the traversable neighbours.
    pub open spec fn consistent(&self) -> bool {
        forall|p: Pos, d: Direction|
            #![trigger self.dirs(p).has(d)]
            self.has_node(p) ==> (self.dirs(p).has(d) == self.neighbor_present(p, d))
    }

    pub proof fn lemma_wf_size(&self)
        requires
            self.wf(),
        ensures
            self.size_spec().x >= 1,
            self.size_spec().y >= 1,
            self.size_spec().x * self.size_spec().y <= u32::MAX,
    {
    }

    pub proof fn lemma_node_in_bounds(&self, p: Pos)
        requires
            self.has_node(p),
        ensures
            in_bounds(self.size_spec(), p),
    {
    }

    /// Builds a graph from a row-major list of masks.
    pub fn new(adjacencies: Vec<Option<Directions>>, size: Pos) -> (r: AdjacencyGraph)
        requires
            size.x >= 1,
            size.y >= 1,
            size.x * size.y <= u32::MAX,
            adjacencies@.len() == size.x * size.y,
        ensures
            r.wf(),
            r.size_spec() == size,
            forall|p: Pos| in_bounds(size, p) ==> r.mask(p) == adjacencies@[index_of(size.x, p)],
            forall|p: Pos| r.segment(p).is_none(),
    {
        let n = adjacencies.len();
        let mut snake: Vec<Option<Direction>> = Vec::new();
        let mut i: usize = 0;
        while i < n
            invariant
                i <= n,
                snake@.len() == i,
                forall|j: int| 0 <= j < i ==> snake@[j].is_none(),
            decreases n - i,
        {
            snake.push(None);
            i += 1;
        }
        let r = AdjacencyGraph { size, graph: adjacencies, snake };
        proof {
            assert forall|p: Pos| r.segment(p).is_none() by {
                if in_bounds(size, p) {
                    lemma_index_bounds(size, p);
                }
            }
        }
        r
    }

    /// The graph of an empty board: every cell traversable, joined to each neighbour on the
    /// board.
    pub fn full(size: Pos) -> (r: AdjacencyGraph)
        requires
            size.x >= 1,
            size.y >= 1,
            size.x * size.y <= u32::MAX,
        ensures
            r.wf(),
            r.size_spec() == size,
            r.consistent(),
            forall|p: Pos| r.has_node(p) == in_bounds(size, p),
            forall|p: Pos| r.segment(p).is_none(),
    {
        let n: usize = (size.x as usize) * (size.y as usize);
        let mut masks: Vec<Option<Directions>> = Vec::new();
        let mut y: u32 = 0;
        while y < size.y
            invariant
                y <= size.y,
                n == size.x * size.y,
                masks@.len() == y * size.x,
                forall|p: Pos|
                    #![trigger index_of(size.x, p)]
                    in_bounds(size, p) && p.y < y ==> masks@[index_of(size.x, p)] == Some(
                        Directions {
                            up: p.y + 1 < size.y,
                            down: p.y > 0,
                            left: p.x > 0,
                            right: p.x + 1 < size.x,
                        },
                    ),
            decreases size.y - y,
        {
            let mut x: u32 = 0;
            while x < size.x
                invariant
                    x <= size.x,
                    y < size.y,
                    n == size.x * size.y,
                    masks@.len() == y * size.x + x,
                    forall|p: Pos|
                        #![trigger index_of(size.x, p)]
                        in_bounds(size, p) && (p.y < y || (p.y == y && p.x < x))
                            ==> masks@[index_of(size.x, p)] == Some(
                            Directions {
                                up: p.y + 1 < size.y,
                                down: p.y > 0,
                                left: p.x > 0,
                                right: p.x + 1 < size.x,
                            },
                        ),
                decreases size.x - x,
            {
                proof {
                    lemma_index_bounds(size, Pos { x, y });
                }
                let m = Directions { up: y + 1 < size.y, down: y > 0, left: x > 0, right: x + 1 < size.x };
                masks.push(Some(m));
                proof {
                    assert forall|p: Pos|
                        #![trigger index_of(size.x, p)]
                        in_bounds(size, p) && (p.y < y || (p.y == y && p.x < x + 1))
                            implies masks@[index_of(size.x, p)] == Some(
                            Directions {
                                up: p.y + 1 < size.y,
                                down: p.y > 0,
                                left: p.x > 0,
                                right: p.x + 1 < size.x,
                            },
                        ) by {
                        if p.y < y {
                            assert(p.y * size.x + size.x <= y * size.x) by (nonlinear_arith)
                                requires
                                    p.y < y,
                            ;
                        }
                    }
                }
                x += 1;
            }
            proof {
                assert((y + 1) * size.x == y * size.x + size.x) by (nonlinear_arith);
            }
            y += 1;
        }
        proof {
            assert(size.y * size.x == size.x * size.y) by (nonlinear_arith);
        }
        let r = AdjacencyGraph::new(masks, size);
        proof {
            assert forall|p: Pos, d: Direction|
                #![trigger r.dirs(p).has(d)]
                r.has_node(p) implies (r.dirs(p).has(d) == r.neighbor_present(p, d)) by {
                let q = moved(p, d);
                if step_in_bounds(size, p, d) {
                    lemma_index_bounds(size, q);
                }
            }
            assert forall|p: Pos| r.has_node(p) == in_bounds(size, p) by {
                if in_bounds(size, p) {
                    lemma_index_bounds(size, p);
                }
            }
        }
        r
    }

    /// Empties the graph and the segment map.
    pub fn reset(&mut self)
        requires
            old(self).wf(),
        ensures
            final(self).wf(),
            final(self).size_spec() == old(self).size_spec(),
            final(self).consistent(),
            forall|p: Pos| !final(self).has_node(p),
            forall|p: Pos| final(self).segment(p).is_none(),
    {
        let n = self.graph.len();
        let mut i: usize = 0;
        while i < n
            invariant
                self.wf(),
                self.size == old(self).size,
                n == self.graph@.len(),
                i <= n,
                forall|j: int| 0 <= j < i ==> self.graph@[j].is_none() && self.snake@[j].is_none(),
            decreases n - i,
        {
            self.graph.set(i, None);
            self.snake.set(i, None);
            i += 1;
        }
        proof {
            assert forall|p: Pos| !self.has_node(p) by {
                if in_bounds(self.size, p) {
                    lemma_index_bounds(self.size, p);
                }
            }
            assert forall|p: Pos| self.segment(p).is_none() by {
                if in_bounds(self.size, p) {
                    lemma_index_bounds(self.size, p);
                }
            }
            assert forall|p: Pos, d: Direction|
                #![trigger self.dirs(p).has(d)]
                self.has_node(p) implies (self.dirs(p).has(d) == self.neighbor_present(p, d)) by {
                assert(!self.has_node(p));
            }
        }
    }

    /// The directions of the traversable neighbours of `pos`; empty where `pos` is not
    /// traversable.
    pub fn get_directions(&self, pos: Pos) -> (r: Directions)
        requires
            self.wf(),
        ensures
            r == self.dirs(pos),
    {
        if pos.x < self.size.x && pos.y < self.size.y {
            let i = cell_index(self.size, pos);
            match self.graph[i] {
                Some(m) => m,
                None => Directions::none(),
            }
        } else {
            Directions::none()
        }
    }

    /// Whether `pos` is traversable.
    pub fn contains(&self, pos: Pos) -> (r: bool)
        requires
            self.wf(),
        ensures
            r == self.has_node(pos),
    {
        if pos.x < self.size.x && pos.y < self.size.y {
            let i = cell_index(self.size, pos);
            self.graph[i].is_some()
        } else {
            false
        }
    }

    /// The follow direction recorded for the body cell `pos`.
    pub fn get_segment_direction(&self, pos: Pos) -> (r: Option<Direction>)
        requires
            self.wf(),
        ensures
            r == self.segment(pos),
    {
        if pos.x < self.size.x && pos.y < self.size.y {
            let i = cell_index(self.size, pos);
            self.snake[i]
        } else {
            None
        }
    }

    /// Records the follow direction of the body cell `pos`.
    pub fn insert_snake_segment(&mut self, pos: Pos, direction: Direction)
        requires
            old(self).wf(),
            in_bounds(old(self).size_spec(), pos),
        ensures
            final(self).wf(),
            final(self).size_spec() == old(self).size_spec(),
            forall|p: Pos| #[trigger] final(self).mask(p) == old(self).mask(p),
            old(self).consistent() ==> final(self).consistent(),
            forall|p: Pos|
                #[trigger] final(self).segment(p) == if p == pos {
                    Some(direction)
                } else {
                    old(self).segment(p)
                },
    {
        let i = cell_index(self.size, pos);
        self.snake.set(i, Some(direction));
        proof {
            if old(self).consistent() {
                assert forall|p: Pos, d: Direction|
                    #![trigger self.dirs(p).has(d)]
                    self.has_node(p) implies (self.dirs(p).has(d) == self.neighbor_present(p, d)) by {
                    assert(old(self).dirs(p).has(d) == old(self).neighbor_present(p, d));
                }
            }
            assert forall|p: Pos| #[trigger]
                self.segment(p) == if p == pos {
                    Some(direction)
                } else {
                    old(self).segment(p)
                } by {
                if in_bounds(self.size, p) && p != pos {
                    lemma_index_bounds(self.size, p);
                    if index_of(self.size.x, p) == index_of(self.size.x, pos) {
                        lemma_index_injective(self.size, p, pos);
                    }
                }
            }
        }
    }

    /// Forgets the follow direction of `pos`.
    pub fn remove_snake_segment(&mut self, pos: Pos)
        requires
            old(self).wf(),
        ensures
            final(self).wf(),
            final(self).size_spec() == old(self).size_spec(),
            forall|p: Pos| #[trigger] final(self).mask(p) == old(self).mask(p),
            old(self).consistent() ==> final(self).consistent(),
            forall|p: Pos|
                #[trigger] final(self).segment(p) == if p == pos {
                    None
                } else {
                    old(self).segment(p)
                },
    {
        if pos.x < self.size.x && pos.y < self.size.y {
            let i = cell_index(self.size, pos);
            self.snake.set(i, None);
            proof {
                if old(self).consistent() {
                    assert forall|p: Pos, d: Direction|
                        #![trigger self.dirs(p).has(d)]
                        self.has_node(p) implies (self.dirs(p).has(d) == self.neighbor_present(p, d)) by {
                        assert(old(self).dirs(p).has(d) == old(self).neighbor_present(p, d));
                    }
                }
                assert forall|p: Pos| #[trigger]
                    self.segment(p) == if p == pos {
                        None
                    } else {
                        old(self).segment(p)
                    } by {
                    if in_bounds(self.size, p) && p != pos {
                        lemma_index_bounds(self.size, p);
                        if index_of(self.size.x, p) == index_of(self.size.x, pos) {
                            lemma_index_injective(self.size, p, pos);
                        }
                    }
                }
            }
        }
    }

    /// Where the neighbour of `p` in direction `d` is traversable, adds the direction back
    /// toward `p` to its mask; returns whether it is traversable.
    fn link_toward(&mut self, p: Pos, d: Direction) -> (r: bool)
        requires
            old(self).wf(),
            in_bounds(old(self).size_spec(), p),
        ensures
            final(self).wf(),
            final(self).size_spec() == old(self).size_spec(),
            final(self).snake == old(self).snake,
            r == old(self).neighbor_present(p, d),
            forall|q: Pos|
                #[trigger] final(self).mask(q) == if r && q == moved(p, d) {
                    Some(old(self).dirs(q).with_spec(crate::geometry::flip_of(d)))
                } else {
                    old(self).mask(q)
                },
    {
        if step_fits(self.size, p, d) {
            let q = p.step(d);
            let i = cell_index(self.size, q);
            match self.graph[i] {
                Some(m) => {
                    self.graph.set(i, Some(m.with(d.flip())));
                    proof {
                        assert forall|o: Pos| #[trigger]
                            self.mask(o) == if o == q {
                                Some(old(self).dirs(o).with_spec(crate::geometry::flip_of(d)))
                            } else {
                                old(self).mask(o)
                            } by {
                            if in_bounds(self.size, o) && o != q {
                                lemma_index_bounds(self.size, o);
                                if index_of(self.size.x, o) == index_of(self.size.x, q) {
                                    lemma_index_injective(self.size, o, q);
                                }
                            }
                        }
                    }
                    true
                },
                None => false,
            }
        } else {
            false
        }
    }

    /// Where the neighbour of `p` in direction `d` is traversable, takes the direction back
    /// toward `p` out of its mask.
    fn unlink_toward(&mut self, p: Pos, d: Direction)
        requires
            old(self).wf(),
            in_bounds(old(self).size_spec(), p),
        ensures
            final(self).wf(),
            final(self).size_spec() == old(self).size_spec(),
            final(self).snake == old(self).snake,
            forall|q: Pos|
                #[trigger] final(self).mask(q) == if old(self).neighbor_present(p, d) && q == moved(
                    p,
                    d,
                ) {
                    Some(old(self).dirs(q).without_spec(crate::geometry::flip_of(d)))
                } else {
                    old(self).mask(q)
                },
    {
        if step_fits(self.size, p, d) {
            let q = p.step(d);
            let i = cell_index(self.size, q);
            match self.graph[i] {
                Some(m) => {
                    self.graph.set(i, Some(m.without(d.flip())));
                    proof {
                        assert forall|o: Pos| #[trigger]
                            self.mask(o) == if o == q {
                                Some(old(self).dirs(o).without_spec(crate::geometry::flip_of(d)))
                            } else {
                                old(self).mask(o)
                            } by {
                            if in_bounds(self.size, o) && o != q {
                                lemma_index_bounds(self.size, o);
                                if index_of(self.size.x, o) == index_of(self.size.x, q) {
                                    lemma_index_injective(self.size, o, q);
                                }
                            }
                        }
                    }
                },
                None => {},
            }
        }
    }

    /// Marks `pos` traversable and joins it, in both directions, to each traversable
    /// neighbour.
    pub fn insert(&mut self, pos: Pos)
        requires
            old(self).wf(),
            in_bounds(old(self).size_spec(), pos),
        ensures
            final(self).wf(),
            final(self).size_spec() == old(self).size_spec(),
            forall|p: Pos| #[trigger] final(self).segment(p) == old(self).segment(p),
            forall|p: Pos| #[trigger]
                final(self).has_node(p) == (p == pos || old(self).has_node(p)),
            forall|d: Direction| #[trigger]
                final(self).dirs(pos).has(d) == old(self).neighbor_present(pos, d),
            forall|p: Pos, d: Direction|
                p != pos ==> #[trigger] final(self).dirs(p).has(d) == (old(self).dirs(p).has(d) || (
                old(self).has_node(p) && step_in_bounds(old(self).size_spec(), p, d) && moved(p, d)
                    == pos)),
            old(self).consistent() ==> final(self).consistent(),
    {
        let ghost g0 = *self;
        let mut dirs = Directions::none();
        if self.link_toward(pos, Direction::Left) {
            dirs = dirs.with(Direction::Left);
        }
        if self.link_toward(pos, Direction::Right) {
            dirs = dirs.with(Direction::Right);
        }
        if self.link_toward(pos, Direction::Down) {
            dirs = dirs.with(Direction::Down);
        }
        if self.link_toward(pos, Direction::Up) {
            dirs = dirs.with(Direction::Up);
        }
        let ghost g1 = *self;
        let i = cell_index(self.size, pos);
        self.graph.set(i, Some(dirs));
        proof {
            assert forall|p: Pos| #[trigger]
                self.mask(p) == if p == pos {
                    Some(dirs)
                } else {
                    g1.mask(p)
                } by {
                if in_bounds(self.size, p) && p != pos {
                    lemma_index_bounds(self.size, p);
                    if index_of(self.size.x, p) == index_of(self.size.x, pos) {
                        lemma_index_injective(self.size, p, pos);
                    }
                }
            }
            assert forall|p: Pos| #[trigger] self.segment(p) == g0.segment(p) by {}
            assert forall|p: Pos, d: Direction|
                p != pos implies #[trigger] self.dirs(p).has(d) == (g0.dirs(p).has(d) || (
                g0.has_node(p) && step_in_bounds(g0.size, p, d) && moved(p, d) == pos)) by {
                assert(self.mask(p) == g1.mask(p));
            }
            if g0.consistent() {
                assert forall|p: Pos, d: Direction|
                    #![trigger self.dirs(p).has(d)]
                    self.has_node(p) implies (self.dirs(p).has(d) == self.neighbor_present(p, d)) by {
                    if p != pos {
                        assert(g0.has_node(p));
                        assert(g0.dirs(p).has(d) == g0.neighbor_present(p, d));
                    } else if step_in_bounds(g0.size, p, d) {
                        assert(moved(p, d) != p);
                    }
                }
            }
        }
    }

    /// Marks `pos` not traversable and takes the direction toward it out of each
    /// neighbour's mask.
    pub fn remove(&mut self, pos: Pos)
        requires
            old(self).wf(),
            in_bounds(old(self).size_spec(), pos),
        ensures
            final(self).wf(),
            final(self).size_spec() == old(self).size_spec(),
            forall|p: Pos| #[trigger] final(self).segment(p) == old(self).segment(p),
            forall|p: Pos| #[trigger]
                final(self).has_node(p) == (p != pos && old(self).has_node(p)),
            forall|p: Pos, d: Direction|
                p != pos ==> #[trigger] final(self).dirs(p).has(d) == (old(self).dirs(p).has(d) && !(
                step_in_bounds(old(self).size_spec(), p, d) && moved(p, d) == pos)),
            old(self).consistent() ==> final(self).consistent(),
    {
        let ghost g0 = *self;
        let i = cell_index(self.size, pos);
        self.graph.set(i, None);
        let ghost g1 = *self;
        proof {
            assert forall|p: Pos| #[trigger]
                self.mask(p) == if p == pos {
                    None
                } else {
                    g0.mask(p)
                } by {
                if in_bounds(self.size, p) && p != pos {
                    lemma_index_bounds(self.size, p);
                    if index_of(self.size.x, p) == index_of(self.size.x, pos) {
                        lemma_index_injective(self.size, p, pos);
                    }
                }
            }
        }
        self.unlink_toward(pos, Direction::Left);
        self.unlink_toward(pos, Direction::Right);
        self.unlink_toward(pos, Direction::Down);
        self.unlink_toward(pos, Direction::Up);
        proof {
            assert forall|p: Pos| #[trigger] self.segment(p) == g0.segment(p) by {}
            assert forall|p: Pos| #[trigger]
                self.has_node(p) == (p != pos && g0.has_node(p)) by {}
            assert forall|p: Pos, d: Direction|
                p != pos implies #[trigger] self.dirs(p).has(d) == (g0.dirs(p).has(d) && !(
                step_in_bounds(g0.size, p, d) && moved(p, d) == pos)) by {}
            if g0.consistent() {
                assert forall|p: Pos, d: Direction|
                    #![trigger self.dirs(p).has(d)]
                    self.has_node(p) implies (self.dirs(p).has(d) == self.neighbor_present(p, d)) by {
                    assert(g0.has_node(p));
                    assert(g0.dirs(p).has(d) == g0.neighbor_present(p, d));
                }
            }
        }
    }

    /// The neighbour of `p` in direction `d`, as a one-element list where the graph holds
    /// that edge.
    pub open spec fn neighbor_entry(&self, p: Pos, d: Direction) -> Seq<(Pos, Direction)> {
        if self.has_edge(p, d) {
            seq![(moved(p, d), d)]
        } else {
            Seq::empty()
        }
    }

    /// The traversable neighbours of `p`, in the order up, down, right, left.
    pub open spec fn neighbors_spec(&self, p: Pos) -> Seq<(Pos, Direction)> {
        self.neighbor_entry(p, Direction::Up) + self.neighbor_entry(p, Direction::Down)
            + self.neighbor_entry(p, Direction::Right) + self.neighbor_entry(p, Direction::Left)
    }

    /// The traversable neighbours of `pos` with the direction that leads to each, in the
    /// fixed order up, down, right, left.
    pub fn get_neighbors(&self, pos: Pos) -> (r: Vec<(Pos, Direction)>)
        requires
            self.wf(),
            self.consistent(),
        ensures
            r@ == self.neighbors_spec(pos),
            r@.len() <= 4,
            forall|i: int|
                0 <= i < r@.len() ==> self.has_edge(pos, #[trigger] r@[i].1) && r@[i].0 == moved(
                    pos,
                    r@[i].1,
                ),
            forall|d: Direction|
                self.has_edge(pos, d) ==> exists|i: int| 0 <= i < r@.len() && #[trigger] r@[i].1 == d,
    {
        let dirs = self.get_directions(pos);
        let mut neighbors: Vec<(Pos, Direction)> = Vec::new();
        if dirs.up() {
            assert(self.dirs(pos).has(Direction::Up));
            neighbors.push((pos.step(Direction::Up), Direction::Up));
        }
        assert(neighbors@ == self.neighbor_entry(pos, Direction::Up));
        if dirs.down() {
            assert(self.dirs(pos).has(Direction::Down));
            neighbors.push((pos.step(Direction::Down), Direction::Down));
        }
        assert(neighbors@ == self.neighbor_entry(pos, Direction::Up) + self.neighbor_entry(
            pos,
            Direction::Down,
        ));
        if dirs.right() {
            assert(self.dirs(pos).has(Direction::Right));
            neighbors.push((pos.step(Direction::Right), Direction::Right));
        }
        assert(neighbors@ == self.neighbor_entry(pos, Direction::Up) + self.neighbor_entry(
            pos,
            Direction::Down,
        ) + self.neighbor_entry(pos, Direction::Right));
        if dirs.left() {
            assert(self.dirs(pos).has(Direction::Left));
            neighbors.push((pos.step(Direction::Left), Direction::Left));
        }
        assert(neighbors@ == self.neighbors_spec(pos));
        proof {
            assert forall|d: Direction| self.has_edge(pos, d) implies exists|i: int|
                0 <= i < neighbors@.len() && #[trigger] neighbors@[i].1 == d by {
                let k1: int = if d != Direction::Up && self.has_edge(pos, Direction::Up) { 1 } else { 0 };
                let k2: int = if d != Direction::Up && d != Direction::Down && self.has_edge(pos, Direction::Down) { 1 } else { 0 };
                let k3: int = if d == Direction::Left && self.has_edge(pos, Direction::Right) { 1 } else { 0 };
                let k = k1 + k2 + k3;
                assert(neighbors@[k].1 == d);
            }
        }
        neighbors
    }

    /// Every traversable cell with its mask, in row-major order.
    pub fn nodes(&self) -> (r: Vec<(Pos, Directions)>)
        requires
            self.wf(),
        ensures
            forall|i: int| 0 <= i < r@.len() ==> self.mask(#[trigger] r@[i].0) == Some(r@[i].1),
            forall|p: Pos| self.has_node(p) ==> exists|i: int| 0 <= i < r@.len() && #[trigger] r@[i].0 == p,
    {
        let mut out: Vec<(Pos, Directions)> = Vec::new();
        let mut y: u32 = 0;
        while y < self.size.y
            invariant
                self.wf(),
                y <= self.size.y,
                forall|i: int| 0 <= i < out@.len() ==> self.mask(#[trigger] out@[i].0) == Some(out@[i].1),
                forall|p: Pos|
                    self.has_node(p) && p.y < y ==> exists|i: int| 0 <= i < out@.len() && #[trigger] out@[i].0 == p,
            decreases self.size.y - y,
        {
            let mut x: u32 = 0;
            while x < self.size.x
                invariant
                    self.wf(),
                    x <= self.size.x,
                    y < self.size.y,
                    forall|i: int| 0 <= i < out@.len() ==> self.mask(#[trigger] out@[i].0) == Some(out@[i].1),
                    forall|p: Pos|
                        self.has_node(p) && (p.y < y || (p.y == y && p.x < x)) ==> exists|i: int|
                            0 <= i < out@.len() && #[trigger] out@[i].0 == p,
                decreases self.size.x - x,
            {
                let q = Pos { x, y };
                let i = cell_index(self.size, q);
                let ghost before = out@;
                if let Some(m) = self.graph[i] {
                    out.push((q, m));
                    proof {
                        assert(out@[before.len() as int].0 == q);
                    }
                }
                proof {
                    assert forall|p: Pos|
                        self.has_node(p) && (p.y < y || (p.y == y && p.x < x + 1)) implies exists|k: int|
                            0 <= k < out@.len() && #[trigger] out@[k].0 == p by {
                        if p != q {
                            let k = choose|k: int| 0 <= k < before.len() && #[trigger] before[k].0 == p;
                            assert(out@[k] == before[k]);
                        } else {
                            assert(out@[before.len() as int].0 == q);
                        }
                    }
                }
                x += 1;
            }
            y += 1;
        }
        proof {
            assert forall|p: Pos| self.has_node(p) implies exists|i: int| 0 <= i < out@.len() && #[trigger] out@[i].0 == p by {
                self.lemma_node_in_bounds(p);
            }
        }
        out
    }

    /// Every body cell with its follow direction, in row-major order.
    pub fn snake_segments(&self) -> (r: Vec<(Pos, Direction)>)
        requires
            self.wf(),
        ensures
            forall|i: int| 0 <= i < r@.len() ==> self.segment(#[trigger] r@[i].0) == Some(r@[i].1),
            forall|p: Pos| self.segment(p).is_some() ==> exists|i: int| 0 <= i < r@.len() && #[trigger] r@[i].0 == p,
    {
        let mut out: Vec<(Pos, Direction)> = Vec::new();
        let mut y: u32 = 0;
        while y < self.size.y
            invariant
                self.wf(),
                y <= self.size.y,
                forall|i: int| 0 <= i < out@.len() ==> self.segment(#[trigger] out@[i].0) == Some(out@[i].1),
                forall|p: Pos|
                    self.segment(p).is_some() && p.y < y ==> exists|i: int| 0 <= i < out@.len() && #[trigger] out@[i].0 == p,
            decreases self.size.y - y,
        {
            let mut x: u32 = 0;
            while x < self.size.x
                invariant
                    self.wf(),
                    x <= self.size.x,
                    y < self.size.y,
                    forall|i: int| 0 <= i < out@.len() ==> self.segment(#[trigger] out@[i].0) == Some(out@[i].1),
                    forall|p: Pos|
                        self.segment(p).is_some() && (p.y < y || (p.y == y && p.x < x)) ==> exists|i: int|
                            0 <= i < out@.len() && #[trigger] out@[i].0 == p,
                decreases self.size.x - x,
            {
                let q = Pos { x, y };
                let i = cell_index(self.size, q);
                let ghost before = out@;
                if let Some(d) = self.snake[i] {
                    out.push((q, d));
                    proof {
                        assert(out@[before.len() as int].0 == q);
                    }
                }
                proof {
                    assert forall|p: Pos|
                        self.segment(p).is_some() && (p.y < y || (p.y == y && p.x < x + 1)) implies exists|k: int|
                            0 <= k < out@.len() && #[trigger] out@[k].0 == p by {
                        if p != q {
                            let k = choose|k: int| 0 <= k < before.len() && #[trigger] before[k].0 == p;
                            assert(out@[k] == before[k]);
                        } else {
                            assert(out@[before.len() as int].0 == q);
                        }
                    }
                }
                x += 1;
            }
            y += 1;
        }
        out
    }

    /// A copy of this graph, for simulating moves without touching the original.
    pub fn duplicate(&self) -> (r: AdjacencyGraph)
        requires
            self.wf(),
        ensures
            r.wf(),
            r.size_spec() == self.size_spec(),
            forall|p: Pos| #[trigger] r.mask(p) == self.mask(p),
            forall|p: Pos| #[trigger] r.segment(p) == self.segment(p),
    {
        let n = self.graph.len();
        let mut graph: Vec<Option<Directions>> = Vec::new();
        let mut snake: Vec<Option<Direction>> = Vec::new();
        let mut i: usize = 0;
        while i < n
            invariant
                self.wf(),
                n == self.graph@.len(),
                i <= n,
                graph@ == self.graph@.subrange(0, i as int),
                snake@ == self.snake@.subrange(0, i as int),
            decreases n - i,
        {
            graph.push(self.graph[i]);
            snake.push(self.snake[i]);
            i += 1;
        }
        assert(graph@ == self.graph@);
        assert(snake@ == self.snake@);
        AdjacencyGraph { size: self.size, graph, snake }
    }
}

/// The mask that occupancy alone gives `p`: for a traversable cell, each direction whose
/// neighbour is on the board and traversable; for any other cell, no mask.
pub open spec fn mask_from_occupancy(g: AdjacencyGraph, p: Pos) -> Option<Directions> {
    if g.has_node(p) {
        Some(
            Directions {
                up: g.neighbor_present(p, Direction::Up),
                down: g.neighbor_present(p, Direction::Down),
                left: g.neighbor_present(p, Direction::Left),
                right: g.neighbor_present(p, Direction::Right),
            },
        )
    } else {
        None
    }
}

/// In a graph kept in step with occupancy (the full board's graph, or any graph reached from
/// it by `reset`, `insert` and `remove`, all of which keep `consistent`), the mask recorded
/// for every cell is exactly the one recomputed from which cells are traversable.
pub proof fn lemma_masks_match_occupancy(g: AdjacencyGraph)
    requires
        g.consistent(),
    ensures
        forall|p: Pos| #[trigger] g.mask(p) == mask_from_occupancy(g, p),
{
    assert forall|p: Pos| #[trigger] g.mask(p) == mask_from_occupancy(g, p) by {
        if g.has_node(p) {
            assert(g.dirs(p).has(Direction::Up) == g.neighbor_present(p, Direction::Up));
            assert(g.dirs(p).has(Direction::Down) == g.neighbor_present(p, Direction::Down));
            assert(g.dirs(p).has(Direction::Left) == g.neighbor_present(p, Direction::Left));
            assert(g.dirs(p).has(Direction::Right) == g.neighbor_present(p, Direction::Right));
        }
    }
}

} // verus!
