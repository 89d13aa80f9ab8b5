//! Cycle following with shortcuts: a closed route over the board is laid out once,
//! and the snake follows it, cutting ahead toward the food only where that keeps
//! the head between its tail and the food along the route.

use vstd::prelude::*;
use vstd::arithmetic::div_mod::lemma_fundamental_div_mod_converse;
use crate::adjacency::{cell_index, in_bounds, index_of, lemma_index_bounds, lemma_index_injective, AdjacencyGraph};
use crate::arena::Arena;
use crate::geometry::{moved, Direction, Pos};
use crate::pathfinding::{
    no_shorter_route, lemma_path_cells_are_nodes, lemma_walk_positions, longest_path, path_ok, pos_at, reaches, shortest_path, walk_end, walk_ok,
};
use crate::snake::Snake;
use crate::pathfinding::{astar_model, lengthen_result, path_view, shortest_result};
use crate::solver::{copy_path, ready_arena};

verus! {

/// A cell's place on the cycle and the direction to its successor.
#[derive(Clone, Copy, Debug)]
pub struct CycleCell {
    pub index: usize,
    pub direction: Direction,
}

/// The `k`-th cell of the cycle: the cells of `path` from `head` (its end excluded), then the
/// cells of `body`.
#[verifier::opaque]
pub open spec fn route_cell(head: Pos, path: Seq<Direction>, body: Seq<(Pos, Direction)>, k: nat) -> Pos {
    if k < path.len() {
        pos_at(head, path, k)
    } else {
        body[k - path.len()].0
    }
}

/// The direction leaving the `k`-th cell of the cycle.
pub open spec fn route_dir(path: Seq<Direction>, body: Seq<(Pos, Direction)>, k: nat) -> Direction {
    if k < path.len() {
        path[k as int]
    } else {
        body[k - path.len()].1
    }
}

/// `cycle` holds, for every cell of the route that the route does not visit again later, its
/// place modulo the board's cell count and its outgoing direction; every place is below the
/// cell count.
#[verifier::opaque]
pub open spec fn cycle_matches(
    cycle: Seq<CycleCell>,
    size: Pos,
    head: Pos,
    path: Seq<Direction>,
    body: Seq<(Pos, Direction)>,
) -> bool {
    let n = size.x * size.y;
    let total = path.len() + body.len();
    &&& cycle.len() == n
    &&& forall|i: int| 0 <= i < n ==> (#[trigger] cycle[i]).index < n
    &&& forall|k: nat|
        k < total && (forall|k2: nat|
            k < k2 < total ==> route_cell(head, path, body, k2) != route_cell(
                head,
                path, body,
                k,
            )) ==> #[trigger] cycle[index_of(size.x, route_cell(head, path, body, k))] == (
        CycleCell { index: ((k as int) % (n as int)) as usize, direction: route_dir(path, body, k) })
}

/// Every route cell before `k` that the route does not revisit before `k` holds its place and
/// direction.
pub open spec fn written_upto(
    cycle: Seq<CycleCell>,
    size: Pos,
    head: Pos,
    path: Seq<Direction>,
    body: Seq<(Pos, Direction)>,
    k: nat,
) -> bool {
    forall|kk: nat|
        kk < k && (forall|k2: nat|
            kk < k2 < k ==> route_cell(head, path, body, k2) != route_cell(head, path, body, kk))
            ==> #[trigger] cycle[index_of(size.x, route_cell(head, path, body, kk))] == (CycleCell {
            index: ((kk as int) % (size.x * size.y)) as usize,
            direction: route_dir(path, body, kk),
        })
}

/// Writes the `k`-th route cell, numbered `count`, and returns the next number.
fn place(
    cycle: &mut Vec<CycleCell>,
    size: Pos,
    current: Pos,
    count: usize,
    d: Direction,
    Ghost(head): Ghost<Pos>,
    Ghost(path): Ghost<Seq<Direction>>,
    Ghost(body): Ghost<Seq<(Pos, Direction)>>,
    Ghost(k): Ghost<nat>,
    Ghost(q): Ghost<int>,
) -> (r: usize)
    requires
        size.x >= 1,
        size.y >= 1,
        size.x * size.y <= u32::MAX,
        old(cycle)@.len() == size.x * size.y,
        forall|i: int| 0 <= i < size.x * size.y ==> (#[trigger] old(cycle)@[i]).index < size.x * size.y,
        forall|kk: nat| kk <= k ==> in_bounds(size, #[trigger] route_cell(head, path, body, kk)),
        current == route_cell(head, path, body, k),
        d == route_dir(path, body, k),
        count < size.x * size.y,
        k == q * (size.x * size.y) + count,
        written_upto(old(cycle)@, size, head, path, body, k),
    ensures
        final(cycle)@.len() == size.x * size.y,
        forall|i: int| 0 <= i < size.x * size.y ==> (#[trigger] final(cycle)@[i]).index < size.x * size.y,
        written_upto(final(cycle)@, size, head, path, body, k + 1),
        r < size.x * size.y,
        k + 1 == (if r == 0 { q + 1 } else { q }) * (size.x * size.y) + r,
{
    let ghost nn = size.x * size.y;
    proof {
        lemma_index_bounds(size, current);
        lemma_fundamental_div_mod_converse(k as int, nn, q, count as int);
    }
    let i = cell_index(size, current);
    let ghost old_cycle = cycle@;
    cycle.set(i, CycleCell { index: count, direction: d });
    proof {
        assert forall|kk: nat|
            kk < k + 1 && (forall|k2: nat|
                kk < k2 < k + 1 ==> route_cell(head, path, body, k2) != route_cell(
                    head,
                    path, body,
                    kk,
                )) implies #[trigger] cycle@[index_of(size.x, route_cell(head, path, body, kk))]
            == (CycleCell { index: ((kk as int) % nn) as usize, direction: route_dir(path, body, kk) }) by {
            let kc = route_cell(head, path, body, kk);
            if kk < k {
                assert(kc != current);
                lemma_index_bounds(size, kc);
                if index_of(size.x, kc) == index_of(size.x, current) {
                    lemma_index_injective(size, kc, current);
                }
                assert forall|k2: nat| kk < k2 < k implies route_cell(head, path, body, k2) != kc by {
                    assert(kk < k2 < k + 1);
                }
            }
        }
    }
    let r = if count + 1 == (size.x as usize) * (size.y as usize) {
        0
    } else {
        count + 1
    };
    proof {
        if r == 0 {
            assert(k + 1 == (q + 1) * nn + 0) by (nonlinear_arith)
                requires
                    k == q * nn + count,
                    count + 1 == nn,
            ;
        }
    }
    r
}

proof fn lemma_route_cell_def(head: Pos, path: Seq<Direction>, body: Seq<(Pos, Direction)>)
    ensures
        forall|k: nat|
            #[trigger] route_cell(head, path, body, k) == if k < path.len() {
                pos_at(head, path, k)
            } else {
                body[k - path.len()].0
            },
{
    reveal(route_cell);
}

/// Lays out the cycle: each cell of `path` from `head`, then the cells of `body` with their
/// directions, numbered in order modulo the cell count.
pub fn build_cycle(size: Pos, head: Pos, path: &Vec<Direction>, body: &Vec<(Pos, Direction)>) -> (r: Vec<CycleCell>)
    requires
        size.x >= 1,
        size.y >= 1,
        size.x * size.y <= u32::MAX,
        forall|k: nat| k < path@.len() ==> in_bounds(size, #[trigger] pos_at(head, path@, k)),
        forall|k: nat| k < path@.len() ==> crate::geometry::can_step(#[trigger] pos_at(head, path@, k), path@[k as int]),
        forall|j: int| 0 <= j < body@.len() ==> in_bounds(size, (#[trigger] body@[j]).0),
    ensures
        cycle_matches(r@, size, head, path@, body@),
{
    let n: usize = (size.x as usize) * (size.y as usize);
    let ghost nn = n as int;
    let ghost p = path@;
    let ghost bd = body@;
    proof {
        lemma_route_cell_def(head, p, bd);
    }
    let mut cycle: Vec<CycleCell> = Vec::new();
    let mut c: usize = 0;
    while c < n
        invariant
            c <= n,
            cycle@.len() == c,
            forall|i: int| 0 <= i < c ==> (#[trigger] cycle@[i]).index < n,
        decreases n - c,
    {
        cycle.push(CycleCell { index: 0, direction: Direction::Up });
        c += 1;
    }
    proof {
        assert forall|kk: nat| kk < p.len() + bd.len() implies in_bounds(
            size,
            #[trigger] route_cell(head, p, bd, kk),
        ) by {
            if kk < p.len() {
                assert(in_bounds(size, pos_at(head, p, kk)));
            } else {
                assert(in_bounds(size, bd[kk - p.len()].0));
            }
        }
        assert(size.x * size.y >= 1) by (nonlinear_arith)
            requires
                size.x >= 1,
                size.y >= 1,
        ;
    }
    let mut count: usize = 0;
    let ghost mut q: int = 0;
    let mut current = head;
    let mut k: usize = 0;
    while k < path.len()
        invariant
            n == size.x * size.y,
            nn == n,
            size.x >= 1,
            size.y >= 1,
            size.x * size.y <= u32::MAX,
            p == path@,
            bd == body@,
            forall|kk: nat| kk < p.len() + bd.len() ==> in_bounds(size, #[trigger] route_cell(head, p, bd, kk)),
            forall|kk: nat| kk < p.len() ==> crate::geometry::can_step(#[trigger] pos_at(head, p, kk), p[kk as int]),
            cycle@.len() == n,
            forall|i: int| 0 <= i < n ==> (#[trigger] cycle@[i]).index < n,
            k <= p.len(),
            k < p.len() ==> current == pos_at(head, p, k as nat),
            count < n,
            k == q * nn + count,
            written_upto(cycle@, size, head, p, bd, k as nat),
        decreases p.len() - k,
    {
        proof {
            lemma_route_cell_def(head, p, bd);
        }
        let d = path[k];
        let next = place(&mut cycle, size, current, count, d, Ghost(head), Ghost(p), Ghost(bd), Ghost(k as nat), Ghost(q));
        proof {
            if next == 0 {
                q = q + 1;
            }
        }
        count = next;
        if k + 1 < path.len() {
            proof {
                assert(pos_at(head, p, (k + 1) as nat) == moved(pos_at(head, p, k as nat), p[k as int]));
                assert(crate::geometry::can_step(pos_at(head, p, k as nat), p[k as int]));
            }
            current = current.step(d);
        }
        k += 1;
    }
    let mut j: usize = 0;
    let ghost plen = p.len();
    while j < body.len()
        invariant
            n == size.x * size.y,
            nn == n,
            size.x >= 1,
            size.y >= 1,
            size.x * size.y <= u32::MAX,
            p == path@,
            bd == body@,
            plen == p.len(),
            forall|kk: nat| kk < p.len() + bd.len() ==> in_bounds(size, #[trigger] route_cell(head, p, bd, kk)),
            cycle@.len() == n,
            forall|i: int| 0 <= i < n ==> (#[trigger] cycle@[i]).index < n,
            j <= bd.len(),
            count < n,
            plen + j == q * nn + count,
            written_upto(cycle@, size, head, p, bd, (plen + j) as nat),
        decreases bd.len() - j,
    {
        proof {
            lemma_route_cell_def(head, p, bd);
            assert(route_cell(head, p, bd, (plen + j) as nat) == body@[j as int].0);
        }
        let (cell, dir) = body[j];
        let next = place(&mut cycle, size, cell, count, dir, Ghost(head), Ghost(p), Ghost(bd), Ghost((plen + j) as nat), Ghost(q));
        proof {
            if next == 0 {
                q = q + 1;
            }
        }
        count = next;
        j += 1;
    }
    proof {
        reveal(cycle_matches);
    }
    cycle
}

/// The route never visits a cell twice.
#[verifier::opaque]
pub open spec fn route_distinct(head: Pos, path: Seq<Direction>, body: Seq<(Pos, Direction)>) -> bool {
    forall|k1: nat, k2: nat|
        k1 < k2 < path.len() + body.len() ==> #[trigger] route_cell(head, path, body, k1)
            != #[trigger] route_cell(head, path, body, k2)
}

/// The route passes through `p`.
pub open spec fn on_route(head: Pos, path: Seq<Direction>, body: Seq<(Pos, Direction)>, p: Pos) -> bool {
    exists|k: nat| k < path.len() + body.len() && #[trigger] route_cell(head, path, body, k) == p
}

/// The direction stored at `p` leads to a cell of the board that holds the next place.
pub open spec fn leads_to_next(cycle: Seq<CycleCell>, size: Pos, p: Pos) -> bool {
    let c = cycle[index_of(size.x, p)];
    &&& in_bounds(size, moved(p, c.direction))
    &&& cycle[index_of(size.x, moved(p, c.direction))].index == (c.index + 1) % (size.x * size.y)
}

/// The route closes: `path` from `head` ends where `body` starts, each body cell's direction
/// leads to the next body cell, and the last leads back to `head`.
pub open spec fn body_closes(head: Pos, path: Seq<Direction>, body: Seq<(Pos, Direction)>) -> bool {
    &&& body.len() > 0
    &&& pos_at(head, path, path.len()) == body[0].0
    &&& forall|j: int| 0 <= j < body.len() - 1 ==> moved((#[trigger] body[j]).0, body[j].1) == body[j + 1].0
    &&& moved(body.last().0, body.last().1) == head
}

/// Some cell of the board holds place `i`.
pub open spec fn holds_place(cycle: Seq<CycleCell>, size: Pos, i: nat) -> bool {
    exists|p: Pos| in_bounds(size, p) && (#[trigger] cycle[index_of(size.x, p)]).index == i
}

proof fn lemma_route_next(head: Pos, path: Seq<Direction>, body: Seq<(Pos, Direction)>, k: nat)
    requires
        path.len() > 0,
        body_closes(head, path, body),
        k < path.len() + body.len(),
    ensures
        moved(route_cell(head, path, body, k), route_dir(path, body, k)) == if k + 1 < path.len()
            + body.len() {
            route_cell(head, path, body, k + 1)
        } else {
            route_cell(head, path, body, 0)
        },
{
    reveal(route_cell);
    if k + 1 < path.len() {
        assert(pos_at(head, path, k + 1) == moved(pos_at(head, path, k), path[k as int]));
    } else if k + 1 == path.len() {
        assert(pos_at(head, path, k + 1) == moved(pos_at(head, path, k), path[k as int]));
    } else if k + 1 < path.len() + body.len() {
        let j = k - path.len();
        assert(moved(body[j].0, body[j].1) == body[j + 1].0);
        assert(k + 1 - path.len() == j + 1);
    } else {
        assert(pos_at(head, path, 0) == head);
    }
}

proof fn lemma_route_entry(
    cycle: Seq<CycleCell>,
    size: Pos,
    head: Pos,
    path: Seq<Direction>,
    body: Seq<(Pos, Direction)>,
    k: nat,
)
    requires
        size.x * size.y <= u32::MAX,
        cycle_matches(cycle, size, head, path, body),
        path.len() + body.len() == size.x * size.y,
        route_distinct(head, path, body),
        k < path.len() + body.len(),
    ensures
        cycle[index_of(size.x, route_cell(head, path, body, k))].index == k,
        cycle[index_of(size.x, route_cell(head, path, body, k))].direction == route_dir(path, body, k),
{
    let total = path.len() + body.len();
    reveal(cycle_matches);
    reveal(route_distinct);
    assert forall|k2: nat| k < k2 < total implies route_cell(head, path, body, k2) != route_cell(
        head,
        path, body,
        k,
    ) by {}
    vstd::arithmetic::div_mod::lemma_small_mod(k, (size.x * size.y) as nat);
}

proof fn lemma_tour_onto(
    cycle: Seq<CycleCell>,
    size: Pos,
    head: Pos,
    path: Seq<Direction>,
    body: Seq<(Pos, Direction)>,
)
    requires
        size.x >= 1,
        size.y >= 1,
        size.x * size.y <= u32::MAX,
        cycle_matches(cycle, size, head, path, body),
        path.len() > 0,
        body_closes(head, path, body),
        path.len() + body.len() == size.x * size.y,
        route_distinct(head, path, body),
        forall|k: nat|
            k < path.len() + body.len() ==> in_bounds(size, #[trigger] route_cell(head, path, body, k)),
        forall|p: Pos| in_bounds(size, p) ==> #[trigger] on_route(head, path, body, p),
    ensures
        forall|i: nat| i < size.x * size.y ==> #[trigger] holds_place(cycle, size, i),
{
    let n = size.x * size.y;
    assert forall|i: nat| i < n implies #[trigger] holds_place(cycle, size, i) by {
        let p = route_cell(head, path, body, i);
        lemma_route_entry(cycle, size, head, path, body, i);
        assert(cycle[index_of(size.x, p)].index == i);
    }
}

proof fn lemma_tour_one_to_one(
    cycle: Seq<CycleCell>,
    size: Pos,
    head: Pos,
    path: Seq<Direction>,
    body: Seq<(Pos, Direction)>,
)
    requires
        size.x >= 1,
        size.y >= 1,
        size.x * size.y <= u32::MAX,
        cycle_matches(cycle, size, head, path, body),
        path.len() > 0,
        body_closes(head, path, body),
        path.len() + body.len() == size.x * size.y,
        route_distinct(head, path, body),
        forall|k: nat|
            k < path.len() + body.len() ==> in_bounds(size, #[trigger] route_cell(head, path, body, k)),
        forall|p: Pos| in_bounds(size, p) ==> #[trigger] on_route(head, path, body, p),
    ensures
        forall|p: Pos, q: Pos|
            in_bounds(size, p) && in_bounds(size, q) && (#[trigger] cycle[index_of(size.x, p)]).index
                == (#[trigger] cycle[index_of(size.x, q)]).index ==> p == q,
{
    let total = path.len() + body.len();
    assert forall|p: Pos, q: Pos|
        in_bounds(size, p) && in_bounds(size, q) && (#[trigger] cycle[index_of(size.x, p)]).index
            == (#[trigger] cycle[index_of(size.x, q)]).index implies p == q by {
        assert(on_route(head, path, body, p));
        assert(on_route(head, path, body, q));
        let kp = choose|k: nat| k < total && #[trigger] route_cell(head, path, body, k) == p;
        let kq = choose|k: nat| k < total && #[trigger] route_cell(head, path, body, k) == q;
        lemma_route_entry(cycle, size, head, path, body, kp);
        lemma_route_entry(cycle, size, head, path, body, kq);
    }
}

proof fn lemma_tour_step(
    cycle: Seq<CycleCell>,
    size: Pos,
    head: Pos,
    path: Seq<Direction>,
    body: Seq<(Pos, Direction)>,
)
    requires
        size.x >= 1,
        size.y >= 1,
        size.x * size.y <= u32::MAX,
        cycle_matches(cycle, size, head, path, body),
        path.len() > 0,
        body_closes(head, path, body),
        path.len() + body.len() == size.x * size.y,
        route_distinct(head, path, body),
        forall|k: nat|
            k < path.len() + body.len() ==> in_bounds(size, #[trigger] route_cell(head, path, body, k)),
        forall|p: Pos| in_bounds(size, p) ==> #[trigger] on_route(head, path, body, p),
    ensures
        forall|p: Pos| in_bounds(size, p) ==> #[trigger] leads_to_next(cycle, size, p),
{
    assert forall|p: Pos| in_bounds(size, p) implies #[trigger] leads_to_next(cycle, size, p) by {
        lemma_tour_step_at(cycle, size, head, path, body, p);
    }
}

proof fn lemma_tour_step_at(
    cycle: Seq<CycleCell>,
    size: Pos,
    head: Pos,
    path: Seq<Direction>,
    body: Seq<(Pos, Direction)>,
    p: Pos,
)
    requires
        size.x >= 1,
        size.y >= 1,
        size.x * size.y <= u32::MAX,
        cycle_matches(cycle, size, head, path, body),
        path.len() > 0,
        body_closes(head, path, body),
        path.len() + body.len() == size.x * size.y,
        route_distinct(head, path, body),
        forall|k: nat|
            k < path.len() + body.len() ==> in_bounds(size, #[trigger] route_cell(head, path, body, k)),
        forall|p: Pos| in_bounds(size, p) ==> #[trigger] on_route(head, path, body, p),
        in_bounds(size, p),
    ensures
        in_bounds(size, moved(p, cycle[index_of(size.x, p)].direction)),
        cycle[index_of(size.x, moved(p, cycle[index_of(size.x, p)].direction))].index == (cycle[index_of(size.x, p)].index + 1) % (size.x * size.y),
{
    let n = size.x * size.y;
    let total = path.len() + body.len();
    assert(on_route(head, path, body, p));
    let k = choose|k: nat| k < total && #[trigger] route_cell(head, path, body, k) == p;
    lemma_route_entry(cycle, size, head, path, body, k);
    lemma_route_next(head, path, body, k);
    if k + 1 < total {
        lemma_route_entry(cycle, size, head, path, body, k + 1);
        vstd::arithmetic::div_mod::lemma_small_mod((k + 1) as nat, n as nat);
    } else {
        lemma_route_entry(cycle, size, head, path, body, 0);
        vstd::arithmetic::div_mod::lemma_mod_self_0(n as int);
    }
}

/// When the route is a closed tour of the whole board (its cells are distinct, every cell of
/// the board lies on it, the path ends behind the tail and the body leads back to the head),
/// the places held by the cycle are a permutation of `0..n`, and the direction stored at each
/// cell leads to the cell holding the next place, modulo `n`.
pub proof fn lemma_cycle_is_tour(
    cycle: Seq<CycleCell>,
    size: Pos,
    head: Pos,
    path: Seq<Direction>,
    body: Seq<(Pos, Direction)>,
)
    requires
        size.x >= 1,
        size.y >= 1,
        size.x * size.y <= u32::MAX,
        cycle_matches(cycle, size, head, path, body),
        path.len() > 0,
        body_closes(head, path, body),
        path.len() + body.len() == size.x * size.y,
        route_distinct(head, path, body),
        forall|k: nat|
            k < path.len() + body.len() ==> in_bounds(size, #[trigger] route_cell(head, path, body, k)),
        forall|p: Pos| in_bounds(size, p) ==> #[trigger] on_route(head, path, body, p),
    ensures
        forall|i: nat| i < size.x * size.y ==> #[trigger] holds_place(cycle, size, i),
        forall|p: Pos, q: Pos|
            in_bounds(size, p) && in_bounds(size, q) && (#[trigger] cycle[index_of(size.x, p)]).index
                == (#[trigger] cycle[index_of(size.x, q)]).index ==> p == q,
        forall|p: Pos| in_bounds(size, p) ==> #[trigger] leads_to_next(cycle, size, p),
{
    lemma_tour_onto(cycle, size, head, path, body);
    lemma_tour_one_to_one(cycle, size, head, path, body);
    lemma_tour_step(cycle, size, head, path, body);
}

/// Forward distance from place `a` to place `b` along a cycle of `n` places.
pub open spec fn forward(a: int, b: int, n: int) -> int {
    if a > b {
        b + n - a
    } else {
        b - a
    }
}

/// Forward distance from place `a` to place `b` on a cycle of `n` places.
fn forward_distance(a: usize, b: usize, n: usize) -> (r: u64)
    requires
        a < n,
        b < n,
        n <= u32::MAX,
    ensures
        r == forward(a as int, b as int, n as int),
{
    if a > b {
        b as u64 + n as u64 - a as u64
    } else {
        (b - a) as u64
    }
}

/// `body` follows the snake from the cell behind its tail: it starts there with the direction
/// to the tail, each further cell is where the previous direction leads and carries that
/// cell's recorded follow direction, and every cell is on the board.
pub open spec fn body_chain(arena: &Arena, body: Seq<(Pos, Direction)>) -> bool {
    &&& forall|j: int| 0 <= j < body.len() ==> in_bounds(arena.size, (#[trigger] body[j]).0)
    &&& body.len() > 0 ==> body[0].0 == arena.behind && crate::geometry::can_step(body[0].0, body[0].1) && moved(
        body[0].0,
        body[0].1,
    ) == arena.tail
    &&& forall|j: int|
        0 < j < body.len() ==> crate::geometry::can_step(body[j - 1].0, body[j - 1].1) && (#[trigger] body[j]).0
            == moved(body[j - 1].0, body[j - 1].1) && arena.adjacencies.segment(body[j].0) == Some(body[j].1)
}

/// `body` is as long as the chain reaches: the snake's full length plus the cell behind the
/// tail; or empty, where the tail is not a neighbour on the board of the cell behind it; or it
/// ends where the last direction leaves the board or reaches a cell without a follow
/// direction.
pub open spec fn body_complete(arena: &Arena, snake: &Snake, body: Seq<(Pos, Direction)>) -> bool {
    ||| body.len() == snake.length + 1
    ||| body.len() == 0 && !(in_bounds(arena.size, arena.behind) && exists|d: Direction|
        crate::geometry::can_step(arena.behind, d) && #[trigger] moved(arena.behind, d) == arena.tail)
    ||| body.len() > 0 && body.len() <= snake.length && ({
        let (c, d) = body.last();
        !crate::geometry::can_step(c, d) || !in_bounds(arena.size, moved(c, d)) || arena.adjacencies.segment(
            moved(c, d),
        ) is None
    })
}

/// The direction of the step from `a` to `b`, where they are neighbours.
fn direction_between(a: Pos, b: Pos) -> (r: Option<Direction>)
    ensures
        r matches Some(d) ==> crate::geometry::can_step(a, d) && moved(a, d) == b,
        r is None ==> forall|d: Direction| !(crate::geometry::can_step(a, d) && moved(a, d) == b),
{
    let dirs = [Direction::Up, Direction::Down, Direction::Left, Direction::Right];
    let mut i: usize = 0;
    while i < 4
        invariant
            i <= 4,
            dirs@ == seq![Direction::Up, Direction::Down, Direction::Left, Direction::Right],
            forall|j: int| 0 <= j < i ==> !(crate::geometry::can_step(a, #[trigger] dirs@[j]) && moved(a, dirs@[j]) == b),
        decreases 4 - i,
    {
        let d = dirs[i];
        if a.checked_step(d) == Some(b) {
            return Some(d);
        }
        i += 1;
    }
    None
}

/// The snake's body as a route for the cycle: the cell behind the tail with the direction to
/// the tail, then each segment with its follow direction, `snake.length` segments in all; the
/// route stops early where the chain breaks or leaves the board.
pub fn body_route(arena: &Arena, snake: &Snake) -> (r: Vec<(Pos, Direction)>)
    requires
        arena.wf(),
    ensures
        body_chain(arena, r@),
        body_complete(arena, snake, r@),
{
    let mut out: Vec<(Pos, Direction)> = Vec::new();
    let size = arena.size;
    let behind = arena.behind;
    if !(behind.x < size.x && behind.y < size.y) {
        return out;
    }
    let d0 = match direction_between(behind, arena.tail) {
        Some(d) => d,
        None => return out,
    };
    out.push((behind, d0));
    let mut cur = arena.tail;
    let mut j: usize = 0;
    while j < snake.length
        invariant
            arena.wf(),
            size == arena.size,
            j <= snake.length,
            out@.len() == j + 1,
            body_chain(arena, out@),
            crate::geometry::can_step(out@.last().0, out@.last().1),
            cur == moved(out@.last().0, out@.last().1),
        decreases snake.length - j,
    {
        if !(cur.x < size.x && cur.y < size.y) {
            return out;
        }
        let d = match arena.adjacencies.get_segment_direction(cur) {
            Some(d) => d,
            None => return out,
        };
        let ghost before = out@;
        out.push((cur, d));
        proof {
            assert(out@[before.len() as int - 1] == before.last());
            assert forall|k: int|
                0 < k < out@.len() implies crate::geometry::can_step(out@[k - 1].0, out@[k - 1].1) && (#[trigger] out@[k]).0
                    == moved(out@[k - 1].0, out@[k - 1].1) && arena.adjacencies.segment(out@[k].0) == Some(out@[k].1) by {
                if k < before.len() {
                    assert(out@[k] == before[k] && out@[k - 1] == before[k - 1]);
                }
            }
        }
        match cur.checked_step(d) {
            Some(next) => cur = next,
            None => return out,
        }
        j += 1;
    }
    out
}

pub struct HamiltonSolver {
    pub size: Pos,
    pub cycle: Vec<CycleCell>,
    pub head: Pos,
    pub shortest_path: Option<Vec<Direction>>,
}

impl HamiltonSolver {
    /// The place of cell `p` on the cycle.
    pub open spec fn place_of(&self, p: Pos) -> int {
        self.cycle@[index_of(self.size.x, p)].index as int
    }

    /// The cycle direction stored for cell `p`.
    pub open spec fn cycle_dir(&self, p: Pos) -> Direction {
        self.cycle@[index_of(self.size.x, p)].direction
    }

    /// The cycle covers a board of the given size, every place below the cell count.
    pub open spec fn cycle_ok(&self, size: Pos) -> bool {
        &&& self.size == size
        &&& size.x >= 1
        &&& size.y >= 1
        &&& size.x * size.y <= u32::MAX
        &&& self.cycle@.len() == size.x * size.y
        &&& forall|i: int| 0 <= i < size.x * size.y ==> (#[trigger] self.cycle@[i]).index < size.x * size.y
    }

    /// Whether the cycle strategy cuts ahead along `sp`, a shortest route to the food: only
    /// while the snake is shorter than half the board; never by a single move onto food that
    /// sits next to the tail on the cycle (either way round); and only to a cell strictly ahead
    /// of the head and no farther than the food, counted forward from the tail.
    pub open spec fn takes_shortcut(&self, arena: &Arena, snake: &Snake, sp: Option<Seq<Direction>>) -> bool {
        let n = self.size.x * self.size.y;
        let t = self.place_of(arena.tail);
        let f = self.place_of(arena.food->0);
        let h = self.place_of(arena.head);
        &&& snake.length < n / 2
        &&& sp is Some
        &&& sp->0.len() > 0
        &&& !(sp->0.len() == 1 && (forward(t, f, n) == 1 || forward(f, t, n) == 1))
        &&& forward(t, self.place_of(moved(arena.head, sp->0[0])), n) > forward(t, h, n)
        &&& forward(t, self.place_of(moved(arena.head, sp->0[0])), n) <= forward(t, f, n)
    }

    /// The move the cycle strategy makes given `sp`: the shortcut's first move where it cuts
    /// ahead, the cycle's direction at the head otherwise.
    pub open spec fn cycle_choice(&self, arena: &Arena, snake: &Snake, sp: Option<Seq<Direction>>) -> Direction {
        if self.takes_shortcut(arena, snake, sp) {
            sp->0[0]
        } else {
            self.cycle_dir(arena.head)
        }
    }

    /// The cycle follows a lengthened shortest route from the head to the cell behind the
    /// tail, then the body as far as its chain reaches.
    pub open spec fn laid_out(&self, arena: &Arena, snake: &Snake) -> bool {
        exists|tp: Option<Seq<Direction>>, l: Seq<Direction>, body: Seq<(Pos, Direction)>|
            #![trigger shortest_result(arena.adjacencies, arena.head, snake.direction, arena.behind, tp), lengthen_result(arena.adjacencies, arena.head, tp, Some(l)), body_chain(arena, body)]
            {
                &&& shortest_result(arena.adjacencies, arena.head, snake.direction, arena.behind, tp)
                &&& tp == astar_model(arena.adjacencies, arena.head, arena.behind, snake.direction)
                &&& lengthen_result(arena.adjacencies, arena.head, tp, Some(l))
                &&& body_chain(arena, body)
                &&& body_complete(arena, snake, body)
                &&& cycle_matches(self.cycle@, arena.size, arena.head, l, body)
            }
    }

    pub fn new() -> (r: HamiltonSolver)
        ensures
            r.cycle@.len() == 0,
    {
        HamiltonSolver {
            size: Pos { x: 0, y: 0 },
            cycle: Vec::new(),
            head: Pos { x: 0, y: 0 },
            shortest_path: None,
        }
    }

    /// Lays out the cycle: a lengthened shortest path from the head to the cell behind the
    /// tail, then the body, from the cell behind the tail along the segments' follow directions.
    pub fn initialize(&mut self, snake: &Snake, arena: &Arena)
        requires
            arena.wf(),
            in_bounds(arena.size, arena.head),
            arena.head != arena.behind,
            reaches(arena.adjacencies, arena.head, snake.direction, arena.behind),
        ensures
            final(self).cycle_ok(arena.size),
            final(self).laid_out(arena, snake),
    {
        let ghost g = arena.adjacencies;
        let tp = shortest_path(arena.head, arena.behind, snake.direction, &arena.adjacencies);
        let ghost tpv = path_view(tp);
        let path = match tp {
            Some(p) => {
                proof {
                    lemma_walk_positions(g, arena.head, snake.direction, p@);
                }
                longest_path(arena.head, &arena.adjacencies, p)
            },
            None => None,
        };
        let path = match path {
            Some(p) => p,
            None => {
                // a shortest path exists and is not empty, so lengthening it succeeds
                assert(false);
                return;
            },
        };
        proof {
            lemma_path_cells_are_nodes(g, arena.head, path@);
            assert forall|k: nat| k < path@.len() implies in_bounds(arena.size, #[trigger] pos_at(arena.head, path@, k)) by {
                g.lemma_node_in_bounds(pos_at(arena.head, path@, k));
            }
            assert forall|k: nat| k < path@.len() implies crate::geometry::can_step(#[trigger] pos_at(arena.head, path@, k), path@[k as int]) by {
                let c = pos_at(arena.head, path@, k);
                assert(g.has_edge(c, path@[k as int]));
                assert(g.dirs(c).has(path@[k as int]) == g.neighbor_present(c, path@[k as int]));
            }
        }
        let body = body_route(arena, snake);
        self.size = arena.size;
        self.cycle = build_cycle(arena.size, arena.head, &path, &body);
        proof {
            assert(shortest_result(g, arena.head, snake.direction, arena.behind, tpv));
            assert(lengthen_result(g, arena.head, tpv, Some(path@)));
            assert(body_chain(arena, body@));
            assert(cycle_matches(self.cycle@, arena.size, arena.head, path@, body@));
            reveal(cycle_matches);
        }
    }

    /// The move for a given shortest route `sp` to the food; see `cycle_choice`.
    pub fn choose_move(&self, snake: &Snake, arena: &Arena, sp: &Option<Vec<Direction>>) -> (r: (Direction, bool))
        requires
            ready_arena(arena),
            self.cycle_ok(arena.size),
            in_bounds(arena.size, arena.tail),
            sp matches Some(s) ==> walk_ok(arena.adjacencies, arena.head, snake.direction, s@) && walk_end(
                arena.head,
                s@,
            ) == arena.food->0,
        ensures
            r.0 == self.cycle_choice(arena, snake, path_view(*sp)),
            r.1 == self.takes_shortcut(arena, snake, path_view(*sp)),
    {
        let ghost g = arena.adjacencies;
        let size = self.size;
        let n: usize = (size.x as usize) * (size.y as usize);
        let hi = cell_index(size, arena.head);
        let dir = self.cycle[hi].direction;
        if !((snake.length as u64) < (n as u64) / 2) {
            return (dir, false);
        }
        let food = match arena.food {
            Some(f) => f,
            None => return (dir, false),
        };
        let shortest = match sp {
            Some(s) => s,
            None => return (dir, false),
        };
        if shortest.len() == 0 {
            return (dir, false);
        }
        proof {
            lemma_walk_positions(g, arena.head, snake.direction, shortest@);
            lemma_path_cells_are_nodes(g, arena.head, shortest@);
            assert(g.has_edge(pos_at(arena.head, shortest@, 0), shortest@[0]));
            assert(g.dirs(arena.head).has(shortest@[0]) == g.neighbor_present(arena.head, shortest@[0]));
            g.lemma_node_in_bounds(pos_at(arena.head, shortest@, shortest@.len()));
        }
        let first = shortest[0];
        let next_pos = arena.head.step(first);
        let tail = self.cycle[cell_index(size, arena.tail)].index;
        let head = self.cycle[hi].index;
        let next = self.cycle[cell_index(size, next_pos)].index;
        let food_index = self.cycle[cell_index(size, food)].index;
        let head_dist = forward_distance(tail, head, n);
        let next_dist = forward_distance(tail, next, n);
        let food_dist = forward_distance(tail, food_index, n);
        let back_dist = forward_distance(food_index, tail, n);
        if shortest.len() == 1 && (food_dist == 1 || back_dist == 1) {
            return (dir, false);
        }
        if next_dist > head_dist && next_dist <= food_dist {
            (first, true)
        } else {
            (dir, false)
        }
    }

    /// Follows the cycle; while the snake is shorter than half the board, takes the first
    /// move of a shortest path to the food instead where that move is a safe shortcut.
    pub fn get_direction(&mut self, snake: &Snake, arena: &Arena) -> (r: Direction)
        requires
            ready_arena(arena),
            old(self).cycle_ok(arena.size),
            in_bounds(arena.size, arena.tail),
        ensures
            final(self).cycle == old(self).cycle,
            final(self).size == old(self).size,
            final(self).head == arena.head,
            snake.length >= arena.size.x * arena.size.y / 2 ==> r == old(self).cycle_dir(arena.head)
                && final(self).shortest_path is None,
            snake.length < arena.size.x * arena.size.y / 2 ==> exists|sp: Option<Seq<Direction>>|
                {
                    &&& shortest_result(arena.adjacencies, arena.head, snake.direction, arena.food->0, sp)
                    &&& sp == astar_model(arena.adjacencies, arena.head, arena.food->0, snake.direction)
                    &&& r == old(self).cycle_choice(arena, snake, sp)
                    &&& path_view(final(self).shortest_path) == if old(self).takes_shortcut(arena, snake, sp) {
                        sp
                    } else {
                        None
                    }
                },
    {
        let size = self.size;
        let n: usize = (size.x as usize) * (size.y as usize);
        self.shortest_path = None;
        self.head = arena.head;
        let food = match arena.food {
            Some(f) => f,
            None => {
                return self.cycle[cell_index(size, arena.head)].direction;
            },
        };
        if (snake.length as u64) < (n as u64) / 2 {
            let sp = shortest_path(arena.head, food, snake.direction, &arena.adjacencies);
            let (dir, taken) = self.choose_move(snake, arena, &sp);
            proof {
                assert(self.cycle == old(self).cycle && self.size == old(self).size);
                assert(self.cycle_choice(arena, snake, path_view(sp)) == old(self).cycle_choice(arena, snake, path_view(sp)));
                assert(self.takes_shortcut(arena, snake, path_view(sp)) == old(self).takes_shortcut(arena, snake, path_view(sp)));
            }
            if taken {
                self.shortest_path = sp;
            }
            proof {
                assert(shortest_result(arena.adjacencies, arena.head, snake.direction, food, path_view(sp)));
            }
            dir
        } else {
            self.cycle[cell_index(size, arena.head)].direction
        }
    }

    /// The last shortcut taken, with the cell it starts from.
    pub fn debug_paths(&self, _arena: &Arena) -> (r: Vec<(Pos, Option<Vec<Direction>>)>)
        ensures
            r@.len() == 1,
            r@[0].0 == self.head,
            path_view(r@[0].1) == path_view(self.shortest_path),
    {
        let mut out = Vec::new();
        out.push((self.head, copy_path(&self.shortest_path)));
        out
    }

    /// The cycle, second.
    pub fn debug_tables(&self, _arena: &Arena) -> (r: Vec<Option<Vec<CycleCell>>>)
        ensures
            r@.len() == 2,
            r@[0] is None,
            r@[1] is Some,
            r@[1]->0@ == self.cycle@,
    {
        let mut table: Vec<CycleCell> = Vec::new();
        let mut i: usize = 0;
        while i < self.cycle.len()
            invariant
                i <= self.cycle@.len(),
                table@ == self.cycle@.subrange(0, i as int),
            decreases self.cycle@.len() - i,
        {
            table.push(self.cycle[i]);
            i += 1;
        }
        assert(table@ =~= self.cycle@);
        let mut out = Vec::new();
        out.push(None);
        out.push(Some(table));
        out
    }
}

} // verus!
