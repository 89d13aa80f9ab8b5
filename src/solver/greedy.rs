//! Safety-checked pursuit: chase the food only where a copy of the snake that ate
//! it could still follow its own tail; otherwise follow the tail by a long route.

use vstd::prelude::*;
use crate::adjacency::{in_bounds, AdjacencyGraph};
use crate::arena::Arena;
use crate::geometry::{can_step, moved, Direction, Pos};
use crate::pathfinding::{
    astar_model, lemma_walk_positions, lengthen_result, longest_path, path_ok, pos_at, reaches, shortest_path,
    shortest_result, walk_end, walk_ok,
};
use crate::snake::Snake;
use crate::pathfinding::path_view;
use crate::solver::{copy_path, farthest_from, farthest_step, first_step_toward, ready_arena};

verus! {

pub struct GreedySolver {
    pub shortest_path: Option<Vec<Direction>>,
    pub longest_path: Option<Vec<Direction>>,
    pub head: Pos,
    pub virtual_tail: Option<Pos>,
}

/// Where a copy of the snake's tail stands once its head has made the first `k` moves of `s`;
/// `None` where the body cannot be followed. At each move the tail leaves its cell by that
/// cell's follow direction (the head's cell takes the move just made).
pub open spec fn sim_tail(arena: &Arena, s: Seq<Direction>, k: nat) -> Option<Pos>
    decreases k,
{
    if k == 0 {
        Some(arena.tail)
    } else {
        match sim_tail(arena, s, (k - 1) as nat) {
            None => None,
            Some(t) => {
                let hd = pos_at(arena.head, s, (k - 1) as nat);
                let seg = if t == hd {
                    Some(s[k - 1])
                } else {
                    sim_segment(arena, s, (k - 1) as nat, t)
                };
                if !in_bounds(arena.size, t) {
                    None
                } else {
                    match seg {
                        None => None,
                        Some(d) => if can_step(t, d) {
                            Some(moved(t, d))
                        } else {
                            None
                        },
                    }
                }
            },
        }
    }
}

/// The follow direction recorded for `p` in the copy after `k` moves.
pub open spec fn sim_segment(arena: &Arena, s: Seq<Direction>, k: nat, p: Pos) -> Option<Direction>
    decreases k,
{
    if k == 0 {
        arena.adjacencies.segment(p)
    } else if sim_tail(arena, s, (k - 1) as nat) == Some(p) {
        None
    } else if p == pos_at(arena.head, s, (k - 1) as nat) {
        Some(s[k - 1])
    } else {
        sim_segment(arena, s, (k - 1) as nat, p)
    }
}

/// Whether `p` is traversable in the copy after `k` moves: the head's cells leave the graph,
/// the tail's cells return to it.
pub open spec fn sim_node(arena: &Arena, s: Seq<Direction>, k: nat, p: Pos) -> bool
    decreases k,
{
    if k == 0 {
        arena.adjacencies.has_node(p)
    } else {
        (p != pos_at(arena.head, s, (k - 1) as nat) && sim_node(arena, s, (k - 1) as nat, p))
            || sim_tail(arena, s, (k - 1) as nat) == Some(p)
    }
}

/// The cell behind the copy's tail after `k` moves.
pub open spec fn sim_behind(arena: &Arena, s: Seq<Direction>, k: nat) -> Pos {
    if k == 0 {
        arena.behind
    } else {
        sim_tail(arena, s, (k - 1) as nat)->0
    }
}

/// Whether the copy can walk all of `s`; where the snake has just eaten, the cell behind its
/// tail must also be on the board.
pub open spec fn sim_ok(arena: &Arena, s: Seq<Direction>) -> bool {
    &&& sim_tail(arena, s, s.len()) is Some
    &&& arena.just_ate ==> in_bounds(arena.size, sim_behind(arena, s, s.len()))
}

/// The cell behind the copy's tail at the end: one further back where the snake has just
/// eaten, since it grows that move.
pub open spec fn sim_final_behind(arena: &Arena, s: Seq<Direction>) -> Pos {
    if arena.just_ate {
        if s.len() == 0 {
            arena.behind
        } else {
            sim_behind(arena, s, (s.len() - 1) as nat)
        }
    } else {
        sim_behind(arena, s, s.len())
    }
}

/// Whether `p` is traversable in the copy at the end.
pub open spec fn sim_final_node(arena: &Arena, s: Seq<Direction>, p: Pos) -> bool {
    sim_node(arena, s, s.len(), p) && !(arena.just_ate && p == sim_behind(arena, s, s.len()))
}

/// `g` is a copy graph of the simulation at the end.
pub open spec fn sim_graph(arena: &Arena, s: Seq<Direction>, g: AdjacencyGraph) -> bool {
    &&& g.wf()
    &&& g.consistent()
    &&& g.size_spec() == arena.size
    &&& forall|p: Pos| #[trigger] g.has_node(p) == sim_final_node(arena, s, p)
}

/// `g3` is `g` with cell `p` taken out.
pub open spec fn without_node(g: AdjacencyGraph, p: Pos, g3: AdjacencyGraph) -> bool {
    &&& g3.wf()
    &&& g3.consistent()
    &&& g3.size_spec() == g.size_spec()
    &&& forall|x: Pos| #[trigger] g3.has_node(x) == (x != p && g.has_node(x))
}

/// `safe` is an outcome of the safety check for chasing along `s`: the copy of the snake walks
/// `s`; from its head, a shortest route to the cell behind its tail is lengthened; after the
/// first move of that route, with the copy's head cell taken too, the tail must be more than
/// one move away. Any failure gives `false`.
pub open spec fn safe_after(arena: &Arena, s: Seq<Direction>, safe: bool) -> bool {
    let vh = pos_at(arena.head, s, s.len());
    let vb = sim_final_behind(arena, s);
    &&& !sim_ok(arena, s) ==> !safe
    &&& sim_ok(arena, s) ==> exists|g2: AdjacencyGraph, p2: Option<Seq<Direction>>, l2: Option<Seq<Direction>>|
        #![trigger shortest_result(g2, vh, s[0], vb, p2), lengthen_result(g2, vh, p2, l2)]
        {
            &&& sim_graph(arena, s, g2)
            &&& shortest_result(g2, vh, s[0], vb, p2)
            &&& p2 == astar_model(g2, vh, vb, s[0])
            &&& lengthen_result(g2, vh, p2, l2)
            &&& l2 is None ==> !safe
            &&& l2 is Some ==> l2->0.len() > 0 && exists|g3: AdjacencyGraph, q: Option<Seq<Direction>>|
                {
                    &&& without_node(g2, vh, g3)
                    &&& #[trigger] shortest_result(g3, moved(vh, l2->0[0]), l2->0[0], vb, q)
                    &&& q == astar_model(g3, moved(vh, l2->0[0]), vb, l2->0[0])
                    &&& safe == (q is Some && q->0.len() > 1)
                }
        }
}

/// The facts behind a greedy move: `sp` is a shortest route to the food; `chase` is an outcome
/// of the safety check along it (no chase without a route); without a chase, `tp` is a shortest
/// route to the cell behind the tail and `lp` its lengthening.
pub open spec fn greedy_facts(
    arena: &Arena,
    snake: &Snake,
    sp: Option<Seq<Direction>>,
    chase: bool,
    tp: Option<Seq<Direction>>,
    lp: Option<Seq<Direction>>,
) -> bool {
    let g = arena.adjacencies;
    &&& shortest_result(g, arena.head, snake.direction, arena.food->0, sp)
    &&& sp == astar_model(g, arena.head, arena.food->0, snake.direction)
    &&& sp is None ==> !chase
    &&& sp is Some ==> sp->0.len() > 0 && safe_after(arena, sp->0, chase)
    &&& !chase ==> tp == astar_model(g, arena.head, arena.behind, snake.direction) && shortest_result(g, arena.head, snake.direction, arena.behind, tp) && lengthen_result(
        g,
        arena.head,
        tp,
        lp,
    )
}

/// The greedy move for those facts: the chase's first move; else the lengthened route's first
/// move; else the move farthest from the food.
pub open spec fn greedy_pick(arena: &Arena, snake: &Snake, sp: Option<Seq<Direction>>, chase: bool, lp: Option<Seq<Direction>>) -> Direction {
    if chase {
        sp->0[0]
    } else {
        match lp {
            Some(l) => l[0],
            None => farthest_step(arena.adjacencies, arena.head, arena.food->0, snake.direction),
        }
    }
}

proof fn lemma_sim_broken(arena: &Arena, s: Seq<Direction>, k: nat, j: nat)
    requires
        sim_tail(arena, s, k) is None,
        k <= j,
    ensures
        sim_tail(arena, s, j) is None,
    decreases j - k,
{
    if k < j {
        lemma_sim_broken(arena, s, k, (j - 1) as nat);
    }
}

/// Moves a copy of the snake along `path`: each step frees the tail cell and occupies the
/// head's. Where the snake has just eaten, the tail stays one step longer. Returns the copy's
/// graph, its head, and the cell behind its tail; `None` where the body cannot be followed.
fn simulate_path(arena: &Arena, path: &Vec<Direction>) -> (r: Option<(AdjacencyGraph, Pos, Pos)>)
    requires
        arena.wf(),
        path_ok(arena.adjacencies, arena.head, path@),
        path@.len() > 0,
    ensures
        r is Some <==> sim_ok(arena, path@),
        match r {
            Some((g, h, b)) => {
                &&& sim_graph(arena, path@, g)
                &&& h == pos_at(arena.head, path@, path@.len())
                &&& b == sim_final_behind(arena, path@)
            },
            None => true,
        },
{
    let ghost g0 = arena.adjacencies;
    let mut adjacencies = arena.adjacencies.duplicate();
    proof {
        assert forall|p: crate::geometry::Pos, d: Direction|
            #![trigger adjacencies.dirs(p).has(d)]
            adjacencies.has_node(p) implies (adjacencies.dirs(p).has(d) == adjacencies.neighbor_present(p, d)) by {
            assert(g0.dirs(p).has(d) == g0.neighbor_present(p, d));
        }
    }
    let sz = arena.size;
    let mut head = arena.head;
    let mut tail = arena.tail;
    let mut behind = arena.behind;
    let mut behind_behind = arena.behind;
    let mut k: usize = 0;
    while k < path.len()
        invariant
            arena.wf(),
            g0 == arena.adjacencies,
            sz == arena.size,
            path_ok(g0, arena.head, path@),
            adjacencies.wf(),
            adjacencies.consistent(),
            adjacencies.size_spec() == sz,
            k <= path@.len(),
            head == pos_at(arena.head, path@, k as nat),
            sim_tail(arena, path@, k as nat) == Some(tail),
            behind == sim_behind(arena, path@, k as nat),
            k > 0 ==> behind_behind == sim_behind(arena, path@, (k - 1) as nat),
            forall|p: Pos| #[trigger] adjacencies.has_node(p) == sim_node(arena, path@, k as nat, p),
            forall|p: Pos| #[trigger] adjacencies.segment(p) == sim_segment(arena, path@, k as nat, p),
        decreases path@.len() - k,
    {
        let dir = path[k];
        proof {
            assert(g0.has_edge(head, dir));
            assert(g0.dirs(head).has(dir) == g0.neighbor_present(head, dir));
            g0.lemma_node_in_bounds(head);
        }
        let ghost kk = (k + 1) as nat;
        if !(tail.x < sz.x && tail.y < sz.y) {
            proof {
                assert(sim_tail(arena, path@, kk) is None);
                lemma_sim_broken(arena, path@, kk, path@.len());
            }
            return None;
        }
        let ghost old_head = head;
        let ghost a0 = adjacencies;
        adjacencies.remove(head);
        let ghost a1 = adjacencies;
        adjacencies.insert_snake_segment(head, dir);
        let ghost a2 = adjacencies;
        adjacencies.insert(tail);
        proof {
            assert forall|p: Pos| #[trigger] adjacencies.segment(p) == a2.segment(p) by {}
            assert forall|p: Pos| #[trigger] a2.has_node(p) == a1.has_node(p) by {
                assert(a2.mask(p) == a1.mask(p));
            }
        }
        head = head.step(dir);
        behind_behind = behind;
        behind = tail;
        let seg = match adjacencies.get_segment_direction(tail) {
            Some(d) => d,
            None => {
                proof {
                    assert(sim_tail(arena, path@, kk) is None);
                    lemma_sim_broken(arena, path@, kk, path@.len());
                }
                return None;
            },
        };
        tail = match tail.checked_step(seg) {
            Some(t) => t,
            None => {
                proof {
                    assert(sim_tail(arena, path@, kk) is None);
                    lemma_sim_broken(arena, path@, kk, path@.len());
                }
                return None;
            },
        };
        let ghost a3 = adjacencies;
        adjacencies.remove_snake_segment(behind);
        proof {
            assert(head == pos_at(arena.head, path@, kk));
            assert(sim_tail(arena, path@, kk) == Some(tail));
            assert forall|p: Pos| #[trigger] adjacencies.has_node(p) == sim_node(arena, path@, kk, p) by {
                assert(adjacencies.mask(p) == a3.mask(p));
                assert(a3.has_node(p) == (p == behind || a2.has_node(p)));
                assert(a2.has_node(p) == a1.has_node(p));
                assert(a1.has_node(p) == (p != old_head && a0.has_node(p)));
                assert(a0.has_node(p) == sim_node(arena, path@, k as nat, p));
                assert(old_head == pos_at(arena.head, path@, k as nat));
                assert(sim_tail(arena, path@, k as nat) == Some(behind));
            }
            assert forall|p: Pos| #[trigger] adjacencies.segment(p) == sim_segment(arena, path@, kk, p) by {
                assert(a0.segment(p) == sim_segment(arena, path@, k as nat, p));
            }
        }
        k += 1;
    }
    proof {
        assert(sim_tail(arena, path@, path@.len()) is Some);
    }
    if arena.just_ate {
        if !(behind.x < sz.x && behind.y < sz.y) {
            return None;
        }
        adjacencies.remove(behind);
        behind = behind_behind;
    }
    Some((adjacencies, head, behind))
}

impl GreedySolver {
    pub fn new() -> (r: GreedySolver)
        ensures
            r.shortest_path.is_none(),
            r.longest_path.is_none(),
            r.virtual_tail.is_none(),
    {
        GreedySolver {
            shortest_path: None,
            longest_path: None,
            head: Pos { x: 0, y: 0 },
            virtual_tail: None,
        }
    }

    /// Whether a snake that has walked to the food can still reach its tail: from the
    /// simulated state, a lengthened path to the cell behind the tail exists, and after its
    /// first move the tail is still more than one move away.
    fn food_is_safe(&mut self, arena: &Arena, shortest: &Vec<Direction>) -> (r: bool)
        requires
            arena.wf(),
            path_ok(arena.adjacencies, arena.head, shortest@),
            shortest@.len() > 0,
        ensures
            safe_after(arena, shortest@, r),
            final(self).shortest_path == old(self).shortest_path,
            final(self).longest_path == old(self).longest_path,
            final(self).head == old(self).head,
    {
        let (mut adjacencies, head, behind) = match simulate_path(arena, shortest) {
            Some(x) => x,
            None => return false,
        };
        self.virtual_tail = Some(behind);
        let ghost g2 = adjacencies;
        let p2 = shortest_path(head, behind, shortest[0], &adjacencies);
        let ghost pv = path_view(p2);
        let longest = match p2 {
            Some(p) => {
                proof {
                    lemma_walk_positions(adjacencies, head, shortest@[0], p@);
                }
                longest_path(head, &adjacencies, p)
            },
            None => None,
        };
        match longest {
            Some(longest) => {
                proof {
                    assert(adjacencies.has_edge(pos_at(head, longest@, 0), longest@[0]));
                    assert(adjacencies.dirs(head).has(longest@[0]) == adjacencies.neighbor_present(
                        head,
                        longest@[0],
                    ));
                    adjacencies.lemma_node_in_bounds(head);
                }
                let test_head = head.step(longest[0]);
                adjacencies.remove(head);
                let q = shortest_path(test_head, behind, longest[0], &adjacencies);
                let r = match &q {
                    Some(path) => path.len() > 1,
                    None => false,
                };
                proof {
                    assert(without_node(g2, head, adjacencies));
                    assert(shortest_result(adjacencies, moved(head, longest@[0]), longest@[0], behind, path_view(q)));
                    assert(shortest_result(g2, head, shortest@[0], behind, pv));
                    assert(lengthen_result(g2, head, pv, Some(longest@)));
                }
                r
            },
            None => {
                proof {
                    assert(shortest_result(g2, head, shortest@[0], behind, pv));
                    assert(lengthen_result(g2, head, pv, None));
                }
                false
            },
        }
    }

    /// Chases the food along a shortest path where that is safe; otherwise follows a
    /// lengthened path to the cell behind the tail; failing both, moves away from the food.
    pub fn get_direction(&mut self, snake: &Snake, arena: &Arena) -> (r: Direction)
        requires
            ready_arena(arena),
        ensures
            final(self).head == arena.head,
            exists|sp: Option<Seq<Direction>>, chase: bool, tp: Option<Seq<Direction>>, lp: Option<Seq<Direction>>|
                {
                    &&& #[trigger] greedy_facts(arena, snake, sp, chase, tp, lp)
                    &&& r == greedy_pick(arena, snake, sp, chase, lp)
                    &&& path_view(final(self).shortest_path) == (if chase { sp } else { None })
                    &&& path_view(final(self).longest_path) == (if chase { None } else { lp })
                },
    {
        let ghost g = arena.adjacencies;
        let food = match arena.food {
            Some(f) => f,
            None => {
                return snake.direction;
            },
        };
        let sp = shortest_path(arena.head, food, snake.direction, &arena.adjacencies);
        let ghost spv = path_view(sp);
        self.head = arena.head;
        self.longest_path = None;
        self.virtual_tail = None;
        let mut chase = false;
        let mut first = snake.direction;
        if let Some(shortest) = &sp {
            if shortest.len() == 0 {
                assert(false);
                return snake.direction;
            }
            proof {
                lemma_walk_positions(g, arena.head, snake.direction, shortest@);
            }
            first = shortest[0];
            chase = self.food_is_safe(arena, shortest);
        }
        if chase {
            self.shortest_path = sp;
            proof {
                assert(greedy_facts(arena, snake, spv, true, None, None));
            }
            return first;
        }
        self.shortest_path = None;
        let tp = shortest_path(arena.head, arena.behind, snake.direction, &arena.adjacencies);
        let ghost tpv = path_view(tp);
        let lp = match tp {
            Some(p) => {
                proof {
                    lemma_walk_positions(g, arena.head, snake.direction, p@);
                }
                longest_path(arena.head, &arena.adjacencies, p)
            },
            None => None,
        };
        let ghost lpv = path_view(lp);
        proof {
            assert(greedy_facts(arena, snake, spv, false, tpv, lpv));
        }
        match lp {
            Some(longest) => {
                let dir = longest[0];
                self.longest_path = Some(longest);
                dir
            },
            None => farthest_from(&arena.adjacencies, arena.head, food, snake.direction),
        }
    }

    /// The last planned paths: toward the food, then toward the tail.
    pub fn debug_paths(&self, _arena: &Arena) -> (r: Vec<(Pos, Option<Vec<Direction>>)>)
        ensures
            r@.len() == 2,
            r@[0].0 == self.head,
            path_view(r@[0].1) == path_view(self.shortest_path),
            r@[1].0 == self.head,
            path_view(r@[1].1) == path_view(self.longest_path),
    {
        let mut out = Vec::new();
        out.push((self.head, copy_path(&self.shortest_path)));
        out.push((self.head, copy_path(&self.longest_path)));
        out
    }

    /// The simulated tail of the last safety check, third.
    pub fn debug_points(&self, _arena: &Arena) -> (r: Vec<Option<Pos>>)
        ensures
            r@ == seq![None, None, self.virtual_tail],
    {
        let mut out = Vec::new();
        out.push(None);
        out.push(None);
        out.push(self.virtual_tail);
        out
    }
}

} // verus!
