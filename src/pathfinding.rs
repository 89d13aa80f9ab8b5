//! Direction-aware shortest paths over the adjacency graph, and the lengthening
//! of a path by local detours.

use vstd::prelude::*;
use crate::adjacency::{
    cell_index, in_bounds, index_of, lemma_index_bounds, lemma_index_injective, AdjacencyGraph,
};
use crate::geometry::{flip_of, manhattan, moved, Direction, Directions, Pos};
use crate::parents::{
    has_key, parent_entries, parents_get_index, parents_get_index_of, parents_insert_full,
    parents_new, ParentLink, ParentMap, StateKey,
};

verus! {

/// Whether `path`, walked from `p` after arriving by `prev`, follows edges of `g` and never
/// turns straight back.
pub open spec fn walk_ok(g: AdjacencyGraph, p: Pos, prev: Direction, path: Seq<Direction>) -> bool
    decreases path.len(),
{
    if path.len() == 0 {
        true
    } else {
        &&& path[0] != flip_of(prev)
        &&& g.has_edge(p, path[0])
        &&& walk_ok(g, moved(p, path[0]), path[0], path.drop_first())
    }
}

/// The cell reached by walking `path` from `p`.
pub open spec fn walk_end(p: Pos, path: Seq<Direction>) -> Pos
    decreases path.len(),
{
    if path.len() == 0 {
        p
    } else {
        walk_end(moved(p, path[0]), path.drop_first())
    }
}

/// Whether some walk from `start`, entered by `prev`, reaches `goal`.
pub open spec fn reaches(g: AdjacencyGraph, start: Pos, prev: Direction, goal: Pos) -> bool {
    exists|path: Seq<Direction>| walk_ok(g, start, prev, path) && walk_end(start, path) == goal
}

pub open spec fn dir_code(d: Direction) -> u8 {
    match d {
        Direction::Up => 0,
        Direction::Down => 1,
        Direction::Left => 2,
        Direction::Right => 3,
    }
}

pub open spec fn code_dir(c: u8) -> Direction {
    if c == 0 {
        Direction::Up
    } else if c == 1 {
        Direction::Down
    } else if c == 2 {
        Direction::Left
    } else {
        Direction::Right
    }
}

pub open spec fn key_of(p: Pos, d: Direction) -> StateKey {
    (p.x, p.y, dir_code(d))
}

pub open spec fn key_pos(k: StateKey) -> Pos {
    Pos { x: k.0, y: k.1 }
}

pub open spec fn key_dir(k: StateKey) -> Direction {
    code_dir(k.2)
}

fn encode_dir(d: Direction) -> (r: u8)
    ensures
        r == dir_code(d),
        r < 4,
        code_dir(r) == d,
{
    match d {
        Direction::Up => 0,
        Direction::Down => 1,
        Direction::Left => 2,
        Direction::Right => 3,
    }
}

fn decode_dir(c: u8) -> (r: Direction)
    ensures
        r == code_dir(c),
{
    if c == 0 {
        Direction::Up
    } else if c == 1 {
        Direction::Down
    } else if c == 2 {
        Direction::Left
    } else {
        Direction::Right
    }
}

/// Number of directions in a set.
pub open spec fn n_dirs(d: Directions) -> nat {
    (if d.up { 1nat } else { 0nat }) + (if d.down { 1nat } else { 0nat }) + (if d.left {
        1nat
    } else {
        0nat
    }) + (if d.right { 1nat } else { 0nat })
}

/// Total number of directions over a sequence of sets.
pub open spec fn count_dirs(s: Seq<Directions>) -> nat
    decreases s.len(),
{
    if s.len() == 0 {
        0
    } else {
        count_dirs(s.drop_last()) + n_dirs(s.last())
    }
}

proof fn lemma_count_dirs_bound(s: Seq<Directions>)
    ensures
        count_dirs(s) <= 4 * s.len(),
    decreases s.len(),
{
    if s.len() > 0 {
        lemma_count_dirs_bound(s.drop_last());
    }
}

proof fn lemma_count_dirs_none(s: Seq<Directions>)
    requires
        forall|j: int| 0 <= j < s.len() ==> s[j] == Directions::none_spec(),
    ensures
        count_dirs(s) == 0,
    decreases s.len(),
{
    if s.len() > 0 {
        lemma_count_dirs_none(s.drop_last());
    }
}

proof fn lemma_count_dirs_add(s: Seq<Directions>, i: int, d: Direction)
    requires
        0 <= i < s.len(),
        !s[i].has(d),
    ensures
        count_dirs(s.update(i, s[i].with_spec(d))) == count_dirs(s) + 1,
    decreases s.len(),
{
    let t = s.update(i, s[i].with_spec(d));
    if i == s.len() - 1 {
        assert(t.drop_last() =~= s.drop_last());
    } else {
        assert(t.drop_last() =~= s.drop_last().update(i, s[i].with_spec(d)));
        lemma_count_dirs_add(s.drop_last(), i, d);
    }
}

/// An entry of the open set: a discovered state, with its cost and its estimated total cost.
#[derive(Clone, Copy, Debug)]
pub struct OpenEntry {
    pub estimated_cost: u64,
    pub cost: u64,
    pub index: usize,
}

/// `a` is served before `b`: lower estimate first, then lower cost.
pub open spec fn served_before(a: OpenEntry, b: OpenEntry) -> bool {
    a.estimated_cost < b.estimated_cost || (a.estimated_cost == b.estimated_cost && a.cost < b.cost)
}

/// Scanning `open` from `i` with `best` the first least entry so far: the first entry that no
/// other is served before.
pub open spec fn best_scan(open: Seq<OpenEntry>, i: nat, best: nat) -> nat
    decreases open.len() - i,
{
    if i >= open.len() {
        best
    } else if served_before(open[i as int], open[best as int]) {
        best_scan(open, i + 1, i)
    } else {
        best_scan(open, i + 1, best)
    }
}

/// The position of the entry served first.
pub open spec fn best_index(open: Seq<OpenEntry>) -> int {
    best_scan(open, 1, 0) as int
}

/// Takes out of `open` the first entry that no other entry is served before.
fn pop_best(open: &mut Vec<OpenEntry>) -> (r: (OpenEntry, Ghost<int>))
    requires
        old(open)@.len() > 0,
    ensures
        0 <= r.1@ < old(open)@.len(),
        r.0 == old(open)@[r.1@],
        final(open)@ == old(open)@.remove(r.1@),
        forall|j: int| 0 <= j < old(open)@.len() ==> !served_before(old(open)@[j], r.0),
        forall|j: int| 0 <= j < r.1@ ==> served_before(r.0, old(open)@[j]),
        r.1@ == best_index(old(open)@),
{
    let mut best: usize = 0;
    let mut i: usize = 1;
    while i < open.len()
        invariant
            open@ == old(open)@,
            0 <= best < i <= open@.len(),
            forall|j: int| 0 <= j < i ==> !served_before(open@[j], open@[best as int]),
            forall|j: int| 0 <= j < best ==> served_before(open@[best as int], open@[j]),
            best_scan(open@, i as nat, best as nat) == best_index(open@),
        decreases open@.len() - i,
    {
        let a = open[i];
        let b = open[best];
        if a.estimated_cost < b.estimated_cost || (a.estimated_cost == b.estimated_cost && a.cost
            < b.cost) {
            best = i;
        }
        i += 1;
    }
    let e = open.remove(best);
    (e, Ghost(best as int))
}

/// The Manhattan distance from `pos` to `goal`, which never overestimates the remaining cost.
fn heuristic(pos: Pos, goal: Pos) -> (r: u64)
    ensures
        r == manhattan(pos, goal),
{
    pos.manhattan(goal)
}

/// The parent link of entry `j` is a legal move from a cheaper state.
pub open spec fn parent_ok(g: AdjacencyGraph, e: Seq<(StateKey, ParentLink)>, j: int) -> bool {
    let pj = e[j].1.0 as int;
    &&& 0 <= pj < e.len()
    &&& e[pj].1.1 < e[j].1.1
    &&& key_pos(e[j].0) == moved(key_pos(e[pj].0), key_dir(e[j].0))
    &&& g.has_edge(key_pos(e[pj].0), key_dir(e[j].0))
    &&& key_dir(e[j].0) != flip_of(key_dir(e[pj].0))
}

pub open spec fn links_ok(g: AdjacencyGraph, e: Seq<(StateKey, ParentLink)>) -> bool {
    forall|j: int| 0 < j < e.len() ==> #[trigger] parent_ok(g, e, j)
}

pub open spec fn keys_unique(e: Seq<(StateKey, ParentLink)>) -> bool {
    forall|i: int, j: int| 0 <= i < e.len() && 0 <= j < e.len() && i != j ==> e[i].0 != e[j].0
}

pub open spec fn keys_in_bounds(e: Seq<(StateKey, ParentLink)>, size: Pos) -> bool {
    forall|j: int| 0 <= j < e.len() ==> in_bounds(size, key_pos(#[trigger] e[j].0))
}

/// State `j` has been expanded.
pub open spec fn settled(e: Seq<(StateKey, ParentLink)>, closed: Seq<Directions>, w: u32, j: int) -> bool {
    closed[index_of(w, key_pos(e[j].0))].has(key_dir(e[j].0))
}

/// State `j` has been expanded, or waits in the open set with its current cost.
pub open spec fn pending(
    e: Seq<(StateKey, ParentLink)>,
    closed: Seq<Directions>,
    w: u32,
    open: Seq<OpenEntry>,
    j: int,
) -> bool {
    settled(e, closed, w, j) || exists|t: int|
        0 <= t < open.len() && (#[trigger] open[t]).index == j && open[t].cost == e[j].1.1
}

/// Every expanded state is away from `goal`, and each of its moves leads to a discovered
/// state.
pub open spec fn closure_holds(
    g: AdjacencyGraph,
    e: Seq<(StateKey, ParentLink)>,
    closed: Seq<Directions>,
    goal: Pos,
) -> bool {
    forall|q: Pos, pr: Direction|
        #![trigger closed[index_of(g.size_spec().x, q)].has(pr)]
        in_bounds(g.size_spec(), q) && closed[index_of(g.size_spec().x, q)].has(pr) ==> {
            &&& q != goal
            &&& forall|d: Direction|
                #![trigger g.has_edge(q, d)]
                d != flip_of(pr) && g.has_edge(q, d) ==> has_key(e, key_of(moved(q, d), d))
        }
}

proof fn lemma_pending_pop(
    e: Seq<(StateKey, ParentLink)>,
    closed: Seq<Directions>,
    w: u32,
    open: Seq<OpenEntry>,
    b: int,
    j: int,
)
    requires
        0 <= b < open.len(),
        pending(e, closed, w, open, j),
        settled(e, closed, w, j) || open[b].index != j || open[b].cost != e[j].1.1,
    ensures
        pending(e, closed, w, open.remove(b), j),
{
    if !settled(e, closed, w, j) {
        let t = choose|t: int|
            0 <= t < open.len() && (#[trigger] open[t]).index == j && open[t].cost == e[j].1.1;
        let t2 = if t < b { t } else { t - 1 };
        assert(open.remove(b)[t2] == open[t]);
    }
}

proof fn lemma_pending_grow(
    e: Seq<(StateKey, ParentLink)>,
    e2: Seq<(StateKey, ParentLink)>,
    closed: Seq<Directions>,
    w: u32,
    open: Seq<OpenEntry>,
    open2: Seq<OpenEntry>,
    j: int,
)
    requires
        0 <= j < e.len(),
        pending(e, closed, w, open, j),
        e2.len() >= e.len(),
        e2[j] == e[j],
        open2.len() >= open.len(),
        forall|t: int| 0 <= t < open.len() ==> open2[t] == open[t],
    ensures
        pending(e2, closed, w, open2, j),
{
    if !settled(e, closed, w, j) {
        let t = choose|t: int|
            0 <= t < open.len() && (#[trigger] open[t]).index == j && open[t].cost == e[j].1.1;
        assert(open2[t] == open[t]);
    }
}

proof fn lemma_keys_kept(e: Seq<(StateKey, ParentLink)>, e2: Seq<(StateKey, ParentLink)>)
    requires
        e2.len() >= e.len(),
        forall|j: int| 0 <= j < e.len() ==> e2[j].0 == e[j].0,
    ensures
        forall|k: StateKey| has_key(e, k) ==> has_key(e2, k),
{
    assert forall|k: StateKey| has_key(e, k) implies has_key(e2, k) by {
        let j = choose|j: int| 0 <= j < e.len() && (#[trigger] e[j]).0 == k;
        assert(e2[j].0 == k);
    }
}

/// Walks from an expanded state never end at `goal` once every discovered state is
/// expanded.
proof fn lemma_closed_walks_miss_goal(
    g: AdjacencyGraph,
    e: Seq<(StateKey, ParentLink)>,
    closed: Seq<Directions>,
    goal: Pos,
    p: Pos,
    prev: Direction,
    path: Seq<Direction>,
)
    requires
        g.wf(),
        closure_holds(g, e, closed, goal),
        keys_in_bounds(e, g.size_spec()),
        forall|j: int| 0 <= j < e.len() ==> settled(e, closed, g.size_spec().x, j),
        in_bounds(g.size_spec(), p),
        closed[index_of(g.size_spec().x, p)].has(prev),
        walk_ok(g, p, prev, path),
    ensures
        walk_end(p, path) != goal,
    decreases path.len(),
{
    if path.len() > 0 {
        let d = path[0];
        let q = moved(p, d);
        assert(g.has_edge(p, d));
        assert(has_key(e, key_of(q, d)));
        let j = choose|j: int| 0 <= j < e.len() && (#[trigger] e[j]).0 == key_of(q, d);
        assert(settled(e, closed, g.size_spec().x, j));
        assert(key_pos(e[j].0) == q);
        assert(key_dir(e[j].0) == d);
        lemma_closed_walks_miss_goal(g, e, closed, goal, q, d, path.drop_first());
    }
}

/// The moves along parent links from the first entry to entry `i`, following at most `fuel`
/// links.
pub open spec fn recon(e: Seq<(StateKey, ParentLink)>, i: int, fuel: nat) -> Seq<Direction>
    decreases fuel,
{
    if fuel == 0 || i == 0 {
        Seq::empty()
    } else {
        recon(e, e[i].1.0 as int, (fuel - 1) as nat).push(key_dir(e[i].0))
    }
}

/// Rebuilds the path to entry `goal_index` by following parent links back to the first
/// entry.
fn reconstruct_path(
    parents: &ParentMap,
    goal_index: usize,
    Ghost(g): Ghost<AdjacencyGraph>,
    Ghost(start): Ghost<Pos>,
    Ghost(direction): Ghost<Direction>,
) -> (r: Vec<Direction>)
    requires
        goal_index < parent_entries(*parents).len(),
        parent_entries(*parents)[0].0 == key_of(start, direction),
        links_ok(g, parent_entries(*parents)),
    ensures
        walk_ok(g, start, direction, r@),
        walk_end(start, r@) == key_pos(parent_entries(*parents)[goal_index as int].0),
        r@.len() + parent_entries(*parents)[0].1.1 <= parent_entries(*parents)[goal_index as int].1.1,
        r@ == recon(parent_entries(*parents), goal_index as int, (parent_entries(*parents)[goal_index as int].1.1 + 1) as nat),
{
    let ghost e = parent_entries(*parents);
    let ghost goal = key_pos(e[goal_index as int].0);
    let mut path: Vec<Direction> = Vec::new();
    let mut i = goal_index;
    while i != 0
        invariant
            e == parent_entries(*parents),
            i < e.len(),
            e[0].0 == key_of(start, direction),
            links_ok(g, e),
            walk_ok(g, key_pos(e[i as int].0), key_dir(e[i as int].0), path@),
            walk_end(key_pos(e[i as int].0), path@) == goal,
            path@.len() + e[i as int].1.1 <= e[goal_index as int].1.1,
            recon(e, goal_index as int, (e[goal_index as int].1.1 + 1) as nat) == recon(
                e,
                i as int,
                (e[goal_index as int].1.1 + 1 - path@.len()) as nat,
            ) + path@,
        decreases e[i as int].1.1,
    {
        match parents_get_index(parents, i) {
            Some((k, link)) => {
                let d = decode_dir(k.2);
                let ghost old_path = path@;
                path.insert(0, d);
                proof {
                    assert(parent_ok(g, e, i as int));
                    assert(path@.drop_first() =~= old_path);
                    let f = (e[goal_index as int].1.1 + 1 - old_path.len()) as nat;
                    assert(f > 0);
                    assert(recon(e, i as int, f) == recon(e, link.0 as int, (f - 1) as nat).push(d));
                    assert(recon(e, i as int, f) + old_path =~= recon(e, link.0 as int, (f - 1) as nat) + path@);
                }
                i = link.0;
            },
            None => {
                assert(false);
            },
        }
    }
    proof {
        assert(recon(e, 0, (e[goal_index as int].1.1 + 1 - path@.len()) as nat) =~= Seq::<Direction>::empty());
        assert(Seq::<Direction>::empty() + path@ =~= path@);
    }
    path
}

/// The direction by which a walk entered its cell after `i` moves.
pub open spec fn dir_at(prev: Direction, path: Seq<Direction>, i: nat) -> Direction {
    if i == 0 {
        prev
    } else {
        path[i - 1]
    }
}

/// The search state of a walk after `i` moves.
pub open spec fn state_at(start: Pos, prev: Direction, path: Seq<Direction>, i: nat) -> StateKey {
    key_of(pos_at(start, path, i), dir_at(prev, path, i))
}

/// Each move of a legal walk follows an edge and does not turn straight back.
pub proof fn lemma_walk_steps(g: AdjacencyGraph, p: Pos, prev: Direction, path: Seq<Direction>)
    requires
        walk_ok(g, p, prev, path),
    ensures
        forall|i: nat|
            i < path.len() ==> path[i as int] != flip_of(#[trigger] dir_at(prev, path, i)) && g.has_edge(
                pos_at(p, path, i),
                path[i as int],
            ),
        walk_end(p, path) == pos_at(p, path, path.len()),
    decreases path.len(),
{
    lemma_walk_positions(g, p, prev, path);
    if path.len() > 0 {
        let q = moved(p, path[0]);
        let rest = path.drop_first();
        lemma_walk_steps(g, q, path[0], rest);
        assert forall|i: nat| i < path.len() implies path[i as int] != flip_of(
            #[trigger] dir_at(prev, path, i),
        ) by {
            if i > 0 {
                assert(dir_at(path[0], rest, (i - 1) as nat) == dir_at(prev, path, i));
                assert(rest[i - 1] == path[i as int]);
            }
        }
    }
}

/// Along a walk that follows edges, the Manhattan distance to `goal` drops by at most one
/// per move.
proof fn lemma_heuristic_along(g: AdjacencyGraph, p: Pos, path: Seq<Direction>, goal: Pos, i: nat, k: nat)
    requires
        g.consistent(),
        path_ok(g, p, path),
        i <= k <= path.len(),
    ensures
        manhattan(pos_at(p, path, i), goal) <= (k - i) + manhattan(pos_at(p, path, k), goal),
    decreases k - i,
{
    if i < k {
        lemma_heuristic_along(g, p, path, goal, i, (k - 1) as nat);
        let c = pos_at(p, path, (k - 1) as nat);
        let d = path[k - 1];
        assert(g.has_edge(c, d));
        assert(g.dirs(c).has(d) == g.neighbor_present(c, d));
        assert(pos_at(p, path, k) == moved(c, d));
    }
}

/// No walk reaches state `k` in fewer than `c` moves.
pub open spec fn no_shorter_walk(g: AdjacencyGraph, start: Pos, prev: Direction, k: StateKey, c: u64) -> bool {
    forall|w: Seq<Direction>, i: nat|
        walk_ok(g, start, prev, w) && i <= w.len() && #[trigger] state_at(start, prev, w, i) == k ==> c <= i
}

/// After an expanded state, each move leads to a discovered state that costs at most one
/// more, or that is expanded itself.
pub open spec fn relaxed(g: AdjacencyGraph, e: Seq<(StateKey, ParentLink)>, closed: Seq<Directions>, j: int) -> bool {
    forall|d: Direction|
        #![trigger g.has_edge(key_pos(e[j].0), d)]
        d != flip_of(key_dir(e[j].0)) && g.has_edge(key_pos(e[j].0), d) ==> exists|m: int|
            0 <= m < e.len() && (#[trigger] e[m]).0 == key_of(moved(key_pos(e[j].0), d), d) && (e[m].1.1
                <= e[j].1.1 + 1 || settled(e, closed, g.size_spec().x, m))
}

/// Some discovered entry holds state `k` at cost at most `c`.
pub open spec fn discovered_within(e: Seq<(StateKey, ParentLink)>, k: StateKey, c: int) -> bool {
    exists|m: int| 0 <= m < e.len() && (#[trigger] e[m]).0 == k && e[m].1.1 <= c
}

/// The invariants the optimality argument rests on.
pub open spec fn optimal_so_far(
    g: AdjacencyGraph,
    e: Seq<(StateKey, ParentLink)>,
    closed: Seq<Directions>,
    start: Pos,
    prev: Direction,
) -> bool {
    &&& forall|j: int|
        0 <= j < e.len() && settled(e, closed, g.size_spec().x, j) ==> #[trigger] relaxed(g, e, closed, j)
    &&& forall|j: int|
        0 <= j < e.len() && settled(e, closed, g.size_spec().x, j) ==> no_shorter_walk(
            g,
            start,
            prev,
            (#[trigger] e[j]).0,
            e[j].1.1,
        )
}

/// Along a walk whose first `i` states are all expanded, the `i`-th state is discovered at a
/// cost of at most `i`.
proof fn lemma_discovered_along(
    g: AdjacencyGraph,
    e: Seq<(StateKey, ParentLink)>,
    closed: Seq<Directions>,
    start: Pos,
    prev: Direction,
    w: Seq<Direction>,
    i: nat,
)
    requires
        g.wf(),
        g.consistent(),
        e.len() >= 1,
        e[0].0 == key_of(start, prev),
        e[0].1.1 == 0,
        keys_unique(e),
        keys_in_bounds(e, g.size_spec()),
        closed.len() == g.size_spec().x * g.size_spec().y,
        optimal_so_far(g, e, closed, start, prev),
        walk_ok(g, start, prev, w),
        i <= w.len(),
        forall|j: nat| j < i ==> closed[index_of(g.size_spec().x, #[trigger] pos_at(start, w, j))].has(dir_at(prev, w, j)),
    ensures
        discovered_within(e, state_at(start, prev, w, i), i as int),
    decreases i,
{
    if i == 0 {
        assert(e[0].0 == state_at(start, prev, w, 0));
    } else {
        let k = (i - 1) as nat;
        lemma_discovered_along(g, e, closed, start, prev, w, k);
        let m = choose|m: int| 0 <= m < e.len() && (#[trigger] e[m]).0 == state_at(start, prev, w, k) && e[m].1.1 <= k;
        assert(closed[index_of(g.size_spec().x, pos_at(start, w, k))].has(dir_at(prev, w, k)));
        assert(key_pos(e[m].0) == pos_at(start, w, k));
        assert(key_dir(e[m].0) == dir_at(prev, w, k));
        assert(settled(e, closed, g.size_spec().x, m));
        assert(relaxed(g, e, closed, m));
        lemma_walk_steps(g, start, prev, w);
        let d = w[k as int];
        assert(g.has_edge(key_pos(e[m].0), d));
        assert(d != flip_of(key_dir(e[m].0)));
        let m2 = choose|m2: int|
            0 <= m2 < e.len() && (#[trigger] e[m2]).0 == key_of(moved(key_pos(e[m].0), d), d) && (e[m2].1.1
                <= e[m].1.1 + 1 || settled(e, closed, g.size_spec().x, m2));
        assert(pos_at(start, w, i) == moved(pos_at(start, w, k), d));
        assert(dir_at(prev, w, i) == d);
        assert(e[m2].0 == state_at(start, prev, w, i));
        if !(e[m2].1.1 <= e[m].1.1 + 1) {
            assert(no_shorter_walk(g, start, prev, e[m2].0, e[m2].1.1));
        }
    }
}

/// The open entry with the least estimate estimates no more than any walk to a state that is
/// not yet expanded.
proof fn lemma_best_is_optimistic(
    g: AdjacencyGraph,
    e: Seq<(StateKey, ParentLink)>,
    closed: Seq<Directions>,
    open: Seq<OpenEntry>,
    start: Pos,
    prev: Direction,
    goal: Pos,
    w: Seq<Direction>,
    target: nat,
    best: OpenEntry,
    scan: nat,
)
    requires
        g.wf(),
        g.consistent(),
        e.len() >= 1,
        e[0].0 == key_of(start, prev),
        e[0].1.1 == 0,
        keys_unique(e),
        keys_in_bounds(e, g.size_spec()),
        closed.len() == g.size_spec().x * g.size_spec().y,
        optimal_so_far(g, e, closed, start, prev),
        forall|j: int| 0 <= j < e.len() ==> #[trigger] pending(e, closed, g.size_spec().x, open, j),
        forall|t: int|
            0 <= t < open.len() ==> (#[trigger] open[t]).index < e.len() && open[t].estimated_cost
                == open[t].cost + manhattan(key_pos(e[open[t].index as int].0), goal),
        forall|t: int| 0 <= t < open.len() ==> best.estimated_cost <= (#[trigger] open[t]).estimated_cost,
        walk_ok(g, start, prev, w),
        target <= w.len(),
        !closed[index_of(g.size_spec().x, pos_at(start, w, target))].has(dir_at(prev, w, target)),
        scan <= target,
        forall|j: nat| j < scan ==> closed[index_of(g.size_spec().x, #[trigger] pos_at(start, w, j))].has(dir_at(prev, w, j)),
    ensures
        best.estimated_cost <= target + manhattan(pos_at(start, w, target), goal),
    decreases target - scan,
{
    let sx = g.size_spec().x;
    if closed[index_of(sx, pos_at(start, w, scan))].has(dir_at(prev, w, scan)) {
        assert(scan != target);
        lemma_best_is_optimistic(g, e, closed, open, start, prev, goal, w, target, best, scan + 1);
    } else {
        lemma_discovered_along(g, e, closed, start, prev, w, scan);
        let m = choose|m: int| 0 <= m < e.len() && (#[trigger] e[m]).0 == state_at(start, prev, w, scan) && e[m].1.1 <= scan;
        assert(key_pos(e[m].0) == pos_at(start, w, scan));
        assert(key_dir(e[m].0) == dir_at(prev, w, scan));
        assert(!settled(e, closed, sx, m));
        assert(pending(e, closed, sx, open, m));
        let t = choose|t: int| 0 <= t < open.len() && (#[trigger] open[t]).index == m && open[t].cost == e[m].1.1;
        lemma_walk_positions(g, start, prev, w);
        lemma_heuristic_along(g, start, w, goal, scan, target);
        assert(best.estimated_cost <= open[t].estimated_cost);
    }
}

/// No legal walk reaches `goal` in fewer than `n` moves.
pub open spec fn no_shorter_route(g: AdjacencyGraph, start: Pos, prev: Direction, goal: Pos, n: nat) -> bool {
    forall|w: Seq<Direction>| #[trigger] walk_ok(g, start, prev, w) && walk_end(start, w) == goal ==> n <= w.len()
}

/// Every key names a direction.
pub open spec fn keys_coded(e: Seq<(StateKey, ParentLink)>) -> bool {
    forall|j: int| 0 <= j < e.len() ==> (#[trigger] e[j]).0.2 < 4
}

/// Every expanded state is a discovered one.
pub open spec fn closed_keyed(g: AdjacencyGraph, e: Seq<(StateKey, ParentLink)>, closed: Seq<Directions>) -> bool {
    forall|q: Pos, pr: Direction|
        #![trigger closed[index_of(g.size_spec().x, q)].has(pr)]
        in_bounds(g.size_spec(), q) && closed[index_of(g.size_spec().x, q)].has(pr) ==> has_key(e, key_of(q, pr))
}

/// Relaxation facts survive when discovered states only get cheaper and more states are
/// expanded.
proof fn lemma_relaxed_grow(
    g: AdjacencyGraph,
    e: Seq<(StateKey, ParentLink)>,
    e2: Seq<(StateKey, ParentLink)>,
    closed: Seq<Directions>,
    closed2: Seq<Directions>,
    j: int,
)
    requires
        g.wf(),
        keys_in_bounds(e, g.size_spec()),
        closed.len() == g.size_spec().x * g.size_spec().y,
        closed2.len() == closed.len(),
        forall|i: int, d: Direction| 0 <= i < closed.len() && #[trigger] closed[i].has(d) ==> closed2[i].has(d),
        0 <= j < e.len(),
        e2.len() >= e.len(),
        forall|m: int| 0 <= m < e.len() ==> (#[trigger] e2[m]).0 == e[m].0 && e2[m].1.1 <= e[m].1.1,
        e2[j] == e[j],
        relaxed(g, e, closed, j),
    ensures
        relaxed(g, e2, closed2, j),
{
    let sx = g.size_spec().x;
    assert forall|d: Direction|
        #![trigger g.has_edge(key_pos(e2[j].0), d)]
        d != flip_of(key_dir(e2[j].0)) && g.has_edge(key_pos(e2[j].0), d) implies exists|m: int|
            0 <= m < e2.len() && (#[trigger] e2[m]).0 == key_of(moved(key_pos(e2[j].0), d), d) && (e2[m].1.1
                <= e2[j].1.1 + 1 || settled(e2, closed2, sx, m)) by {
        let m = choose|m: int|
            0 <= m < e.len() && (#[trigger] e[m]).0 == key_of(moved(key_pos(e[j].0), d), d) && (e[m].1.1
                <= e[j].1.1 + 1 || settled(e, closed, sx, m));
        assert(e2[m].0 == e[m].0);
        if settled(e, closed, sx, m) {
            lemma_index_bounds(g.size_spec(), key_pos(e[m].0));
            assert(settled(e2, closed2, sx, m));
        }
    }
}

/// The standing facts of the table of discovered states.
pub open spec fn table_ok(
    g: AdjacencyGraph,
    e: Seq<(StateKey, ParentLink)>,
    closed: Seq<Directions>,
    start: Pos,
    prev: Direction,
) -> bool {
    &&& e.len() >= 1
    &&& e[0].0 == key_of(start, prev)
    &&& e[0].1.1 == 0
    &&& links_ok(g, e)
    &&& keys_unique(e)
    &&& keys_in_bounds(e, g.size_spec())
    &&& keys_coded(e)
    &&& closed_keyed(g, e, closed)
    &&& optimal_so_far(g, e, closed, start, prev)
}

/// The standing facts of the open set: each entry names a discovered state, with a cost no
/// lower than that state's and at most `bound`, and its estimate adds the heuristic.
pub open spec fn open_ok(e: Seq<(StateKey, ParentLink)>, open: Seq<OpenEntry>, goal: Pos, bound: int) -> bool {
    forall|t: int|
        0 <= t < open.len() ==> (#[trigger] open[t]).index < e.len() && open[t].cost <= bound && open[t].cost
            >= e[open[t].index as int].1.1 && open[t].estimated_cost == open[t].cost + manhattan(
            key_pos(e[open[t].index as int].0),
            goal,
        )
}

proof fn lemma_witness_kept(
    e: Seq<(StateKey, ParentLink)>,
    e2: Seq<(StateKey, ParentLink)>,
    closed: Seq<Directions>,
    w: u32,
    k: StateKey,
    c: int,
)
    requires
        e2.len() >= e.len(),
        forall|m: int| 0 <= m < e.len() ==> (#[trigger] e2[m]).0 == e[m].0 && e2[m].1.1 <= e[m].1.1,
        exists|x: int| 0 <= x < e.len() && (#[trigger] e[x]).0 == k && (e[x].1.1 <= c || settled(e, closed, w, x)),
    ensures
        exists|x: int| 0 <= x < e2.len() && (#[trigger] e2[x]).0 == k && (e2[x].1.1 <= c || settled(e2, closed, w, x)),
{
    let x = choose|x: int| 0 <= x < e.len() && (#[trigger] e[x]).0 == k && (e[x].1.1 <= c || settled(e, closed, w, x));
    assert(e2[x].0 == k);
}

/// The position of key `k` in `e`, searching from the end.
pub open spec fn find_key(e: Seq<(StateKey, ParentLink)>, k: StateKey) -> Option<int>
    decreases e.len(),
{
    if e.len() == 0 {
        None
    } else if e.last().0 == k {
        Some(e.len() - 1)
    } else {
        find_key(e.drop_last(), k)
    }
}

proof fn lemma_find_key(e: Seq<(StateKey, ParentLink)>, k: StateKey)
    ensures
        match find_key(e, k) {
            Some(j) => 0 <= j < e.len() && e[j].0 == k,
            None => !has_key(e, k),
        },
    decreases e.len(),
{
    if e.len() > 0 && e.last().0 != k {
        lemma_find_key(e.drop_last(), k);
        if has_key(e, k) {
            let j = choose|j: int| 0 <= j < e.len() && (#[trigger] e[j]).0 == k;
            assert(e.drop_last()[j].0 == k);
        }
    }
}

/// One move out of the state being expanded, on the table `e` and open set `open`: a new
/// state is appended with cost one more and queued; a known state not yet expanded that gets
/// cheaper takes the new parent and cost and is queued again; otherwise nothing changes.
pub open spec fn relax_one(
    g: AdjacencyGraph,
    goal: Pos,
    e: Seq<(StateKey, ParentLink)>,
    open: Seq<OpenEntry>,
    closed: Seq<Directions>,
    cur_index: usize,
    cur_cost: u64,
    npos: Pos,
    ndir: Direction,
) -> (Seq<(StateKey, ParentLink)>, Seq<OpenEntry>) {
    let nkey = key_of(npos, ndir);
    let nc = (cur_cost + 1) as u64;
    let est = (nc + manhattan(npos, goal)) as u64;
    match find_key(e, nkey) {
        None => (e.push((nkey, (cur_index, nc))), open.push(OpenEntry { estimated_cost: est, cost: nc, index: e.len() as usize })),
        Some(i) => if !closed[index_of(g.size_spec().x, npos)].has(ndir) && e[i].1.1 > nc {
            (e.update(i, (nkey, (cur_index, nc))), open.push(OpenEntry { estimated_cost: est, cost: nc, index: i as usize }))
        } else {
            (e, open)
        },
    }
}

/// Handles one move out of the state being expanded: a new state is recorded with its cost and
/// queued; a known state that is not yet expanded and would get cheaper takes the new parent
/// and cost and is queued again.
fn relax_successor(
    parents: &mut ParentMap,
    open: &mut Vec<OpenEntry>,
    closed: &Vec<Directions>,
    sz: Pos,
    goal: Pos,
    cur_index: usize,
    cur_cost: u64,
    npos: Pos,
    ndir: Direction,
    Ghost(g): Ghost<AdjacencyGraph>,
    Ghost(start): Ghost<Pos>,
    Ghost(direction): Ghost<Direction>,
    Ghost(bound): Ghost<int>,
)
    requires
        g.wf(),
        g.consistent(),
        sz == g.size_spec(),
        sz.x * sz.y <= u32::MAX,
        closed@.len() == sz.x * sz.y,
        table_ok(g, parent_entries(*old(parents)), closed@, start, direction),
        open_ok(parent_entries(*old(parents)), old(open)@, goal, bound),
        forall|j: int|
            0 <= j < parent_entries(*old(parents)).len() ==> (#[trigger] parent_entries(*old(parents))[j]).1.1 <= bound,
        cur_cost + 1 <= bound <= 4 * u32::MAX,
        cur_index < parent_entries(*old(parents)).len(),
        parent_entries(*old(parents))[cur_index as int].1.1 == cur_cost,
        !settled(parent_entries(*old(parents)), closed@, sz.x, cur_index as int),
        g.has_edge(key_pos(parent_entries(*old(parents))[cur_index as int].0), ndir),
        npos == moved(key_pos(parent_entries(*old(parents))[cur_index as int].0), ndir),
        ndir != flip_of(key_dir(parent_entries(*old(parents))[cur_index as int].0)),
        forall|j: int|
            0 <= j < parent_entries(*old(parents)).len() && j != cur_index ==> #[trigger] pending(
                parent_entries(*old(parents)),
                closed@,
                sz.x,
                old(open)@,
                j,
            ),
    ensures
        table_ok(g, parent_entries(*final(parents)), closed@, start, direction),
        open_ok(parent_entries(*final(parents)), final(open)@, goal, bound),
        forall|j: int|
            0 <= j < parent_entries(*final(parents)).len() ==> (#[trigger] parent_entries(*final(parents))[j]).1.1 <= bound,
        parent_entries(*final(parents)).len() >= parent_entries(*old(parents)).len(),
        forall|j: int|
            0 <= j < parent_entries(*old(parents)).len() ==> (#[trigger] parent_entries(*final(parents))[j]).0
                == parent_entries(*old(parents))[j].0 && parent_entries(*final(parents))[j].1.1
                <= parent_entries(*old(parents))[j].1.1,
        parent_entries(*final(parents))[cur_index as int] == parent_entries(*old(parents))[cur_index as int],
        old(open)@.len() <= final(open)@.len() <= old(open)@.len() + 1,
        forall|t: int| 0 <= t < old(open)@.len() ==> final(open)@[t] == old(open)@[t],
        forall|j: int|
            0 <= j < parent_entries(*final(parents)).len() && j != cur_index ==> #[trigger] pending(
                parent_entries(*final(parents)),
                closed@,
                sz.x,
                final(open)@,
                j,
            ),
        exists|x: int|
            0 <= x < parent_entries(*final(parents)).len() && (#[trigger] parent_entries(*final(parents))[x]).0
                == key_of(npos, ndir) && (parent_entries(*final(parents))[x].1.1 <= cur_cost + 1 || settled(
                parent_entries(*final(parents)),
                closed@,
                sz.x,
                x,
            )),
        (parent_entries(*final(parents)), final(open)@) == relax_one(
            g,
            goal,
            parent_entries(*old(parents)),
            old(open)@,
            closed@,
            cur_index,
            cur_cost,
            npos,
            ndir,
        ),
{
    let ghost ea = parent_entries(*parents);
    let ghost opena = open@;
    let ghost w = sz.x;
    let ghost cur_key = ea[cur_index as int].0;
    let new_cost = cur_cost + 1;
    let nkey: StateKey = (npos.x, npos.y, encode_dir(ndir));
    proof {
        assert(g.dirs(key_pos(cur_key)).has(ndir) == g.neighbor_present(key_pos(cur_key), ndir));
        assert(in_bounds(sz, npos));
        lemma_index_bounds(sz, npos);
        lemma_find_key(ea, nkey);
        match find_key(ea, nkey) {
            Some(j) => {},
            None => {},
        }
    }
    match parents_get_index_of(parents, nkey) {
        None => {
            let (n, _) = parents_insert_full(parents, nkey, (cur_index, new_cost));
            let h = heuristic(npos, goal);
            open.push(OpenEntry { estimated_cost: new_cost + h, cost: new_cost, index: n });
            proof {
                assert(forall|t: int| 0 <= t < opena.len() ==> open@[t] == opena[t]);
                let eb = parent_entries(*parents);
                assert(eb == ea.push((nkey, (cur_index, new_cost))));
                assert(parent_ok(g, eb, n as int));
                assert forall|j: int| 0 < j < eb.len() implies #[trigger] parent_ok(g, eb, j) by {
                    if j < ea.len() {
                        assert(parent_ok(g, ea, j));
                    }
                }
                assert forall|j: int| 0 <= j < eb.len() && j != cur_index implies #[trigger] pending(
                    eb,
                    closed@,
                    w,
                    open@,
                    j,
                ) by {
                    if j < ea.len() {
                        lemma_pending_grow(ea, eb, closed@, w, opena, open@, j);
                    } else {
                        assert(open@[opena.len() as int].index == j);
                    }
                }
                lemma_keys_kept(ea, eb);
                // the new state is not expanded: expanded states are all known
                assert(!settled(eb, closed@, w, n as int)) by {
                    if settled(eb, closed@, w, n as int) {
                        assert(has_key(ea, key_of(npos, ndir)));
                    }
                }
                assert forall|j: int|
                    0 <= j < eb.len() && settled(eb, closed@, w, j) implies #[trigger] relaxed(g, eb, closed@, j) by {
                    assert(settled(ea, closed@, w, j));
                    lemma_relaxed_grow(g, ea, eb, closed@, closed@, j);
                }
                assert forall|j: int|
                    0 <= j < eb.len() && settled(eb, closed@, w, j) implies no_shorter_walk(g, start, direction, (#[trigger] eb[j]).0, eb[j].1.1) by {
                    assert(settled(ea, closed@, w, j));
                }
                assert(eb[n as int].0 == key_of(npos, ndir));
            }
        },
        Some(i) => {
            let ni = cell_index(sz, npos);
            let existing = match parents_get_index(parents, i) {
                Some(x) => x,
                None => {
                    assert(false);
                    return;
                },
            };
            proof {
                assert(has_key(ea, nkey)) by {
                    assert(ea[i as int].0 == nkey);
                }
                assert(settled(ea, closed@, w, i as int) == closed@[ni as int].has(ndir));
            }
            if !closed[ni].contains(ndir) && existing.1.1 > new_cost {
                let (n, _) = parents_insert_full(parents, nkey, (cur_index, new_cost));
                let h = heuristic(npos, goal);
                open.push(OpenEntry { estimated_cost: new_cost + h, cost: new_cost, index: n });
                proof {
                    assert(forall|t: int| 0 <= t < opena.len() ==> open@[t] == opena[t]);
                    let eb = parent_entries(*parents);
                    assert(n == i);
                    assert(eb == ea.update(i as int, (nkey, (cur_index, new_cost))));
                    assert(i != cur_index);
                    assert(i != 0);
                    assert forall|j: int| 0 < j < eb.len() implies #[trigger] parent_ok(g, eb, j) by {
                        assert(parent_ok(g, ea, j));
                    }
                    assert forall|j: int| 0 <= j < eb.len() && j != cur_index implies #[trigger] pending(
                        eb,
                        closed@,
                        w,
                        open@,
                        j,
                    ) by {
                        if j != i {
                            lemma_pending_grow(ea, eb, closed@, w, opena, open@, j);
                        } else {
                            assert(open@[opena.len() as int].index == j);
                        }
                    }
                    lemma_keys_kept(ea, eb);
                    assert forall|j: int|
                        0 <= j < eb.len() && settled(eb, closed@, w, j) implies #[trigger] relaxed(g, eb, closed@, j) by {
                        assert(settled(ea, closed@, w, j));
                        assert(j != i);
                        lemma_relaxed_grow(g, ea, eb, closed@, closed@, j);
                    }
                    assert forall|j: int|
                        0 <= j < eb.len() && settled(eb, closed@, w, j) implies no_shorter_walk(g, start, direction, (#[trigger] eb[j]).0, eb[j].1.1) by {
                        assert(settled(ea, closed@, w, j));
                        assert(j != i);
                    }
                    assert(eb[i as int].0 == key_of(npos, ndir));
                }
            } else {
                proof {
                    assert(ea[i as int].0 == key_of(npos, ndir));
                }
            }
        },
    }
}

/// The moves out of the state being expanded, from the `k`-th neighbour on, each relaxed in
/// turn; a move straight back is skipped.
pub open spec fn relax_all(
    g: AdjacencyGraph,
    goal: Pos,
    e: Seq<(StateKey, ParentLink)>,
    open: Seq<OpenEntry>,
    closed: Seq<Directions>,
    cur_index: usize,
    cur_cost: u64,
    dir: Direction,
    succ: Seq<(Pos, Direction)>,
    k: nat,
) -> (Seq<(StateKey, ParentLink)>, Seq<OpenEntry>)
    decreases succ.len() - k,
{
    if k >= succ.len() {
        (e, open)
    } else if succ[k as int].1 != flip_of(dir) {
        let r = relax_one(g, goal, e, open, closed, cur_index, cur_cost, succ[k as int].0, succ[k as int].1);
        relax_all(g, goal, r.0, r.1, closed, cur_index, cur_cost, dir, succ, k + 1)
    } else {
        relax_all(g, goal, e, open, closed, cur_index, cur_cost, dir, succ, k + 1)
    }
}

/// The search from a given table, open set and expanded set, with `fuel` rounds left. Each
/// round takes the entry served first; a goal entry ends the search with its path; an expanded
/// or outdated entry is dropped; otherwise the state is expanded and marked.
pub open spec fn astar_fuel(
    g: AdjacencyGraph,
    goal: Pos,
    e: Seq<(StateKey, ParentLink)>,
    open: Seq<OpenEntry>,
    closed: Seq<Directions>,
    fuel: nat,
) -> Option<Seq<Direction>>
    decreases fuel,
{
    if fuel == 0 || open.len() == 0 {
        None
    } else {
        let b = best_index(open);
        let cur = open[b];
        let rest = open.remove(b);
        let key = e[cur.index as int].0;
        let link = e[cur.index as int].1;
        let pos = key_pos(key);
        let dir = key_dir(key);
        let ci = index_of(g.size_spec().x, pos);
        if pos == goal {
            Some(recon(e, cur.index as int, (link.1 + 1) as nat))
        } else if closed[ci].has(dir) || cur.cost > link.1 {
            astar_fuel(g, goal, e, rest, closed, (fuel - 1) as nat)
        } else {
            let r = relax_all(g, goal, e, rest, closed, cur.index, cur.cost, dir, g.neighbors_spec(pos), 0);
            astar_fuel(g, goal, r.0, r.1, closed.update(ci, closed[ci].with_spec(dir)), (fuel - 1) as nat)
        }
    }
}

/// The path the search returns: from `start`, entered by `prev`, the table holds the start
/// state alone and the open set its entry; rounds enough are allowed for the search to end.
/// A start off the board reaches only itself.
pub open spec fn astar_model(g: AdjacencyGraph, start: Pos, goal: Pos, prev: Direction) -> Option<Seq<Direction>> {
    let n = g.size_spec().x * g.size_spec().y;
    if !in_bounds(g.size_spec(), start) {
        if start == goal {
            Some(Seq::empty())
        } else {
            None
        }
    } else {
        astar_fuel(
            g,
            goal,
            seq![(key_of(start, prev), (usize::MAX as usize, 0u64))],
            seq![OpenEntry { estimated_cost: manhattan(start, goal) as u64, cost: 0, index: 0 }],
            Seq::new(n as nat, |i: int| Directions::none_spec()),
            (20 * n + 2) as nat,
        )
    }
}

/// A walk from a cell that is not traversable has no steps.
proof fn lemma_walk_from_outside(g: AdjacencyGraph, p: Pos, prev: Direction, path: Seq<Direction>)
    requires
        !g.has_node(p),
        walk_ok(g, p, prev, path),
    ensures
        path.len() == 0,
        walk_end(p, path) == p,
{
}

/// Best-first search over (cell, entry direction) states from `start`, entered by
/// `direction`, to `goal`, with unit edge costs and the Manhattan distance as heuristic.
/// Ties in estimated cost go to the lower cost, then to the earlier discovery.
#[verifier::rlimit(100)]
fn astar(start: Pos, goal: Pos, direction: Direction, adjacencies: &AdjacencyGraph) -> (r: Option<
    (Vec<Direction>, u64),
>)
    requires
        adjacencies.wf(),
        adjacencies.consistent(),
    ensures
        match r {
            Some((path, cost)) => walk_ok(*adjacencies, start, direction, path@) && walk_end(
                start,
                path@,
            ) == goal && no_shorter_route(*adjacencies, start, direction, goal, path@.len()) && cost
                == path@.len() && path@.len() <= 4 * (adjacencies.size_spec().x * adjacencies.size_spec().y),
            None => !reaches(*adjacencies, start, direction, goal),
        },
        match r {
            Some((path, _)) => astar_model(*adjacencies, start, goal, direction) == Some(path@),
            None => astar_model(*adjacencies, start, goal, direction) is None,
        },
{
    let ghost g = *adjacencies;
    let sz = adjacencies.size();
    if !(start.x < sz.x && start.y < sz.y) {
        proof {
            if g.has_node(start) {
                g.lemma_node_in_bounds(start);
            }
            assert(!g.has_node(start));
            if start != goal {
                assert forall|path: Seq<Direction>|
                    walk_ok(g, start, direction, path) implies walk_end(start, path) != goal by {
                    lemma_walk_from_outside(g, start, direction, path);
                }
            }
        }
        if start == goal {
            proof {
                assert(walk_ok(g, start, direction, Seq::<Direction>::empty()));
            }
            return Some((Vec::new(), 0));
        } else {
            return None;
        }
    }
    proof {
        g.lemma_wf_size();
    }
    let n_cells: usize = (sz.x as usize) * (sz.y as usize);
    let mut closed: Vec<Directions> = Vec::new();
    let mut c: usize = 0;
    while c < n_cells
        invariant
            c <= n_cells,
            closed@.len() == c,
            forall|j: int| 0 <= j < c ==> closed@[j] == Directions::none_spec(),
        decreases n_cells - c,
    {
        closed.push(Directions::none());
        c += 1;
    }
    proof {
        lemma_count_dirs_none(closed@);
    }
    let mut parents = parents_new();
    let start_key: StateKey = (start.x, start.y, encode_dir(direction));
    parents_insert_full(&mut parents, start_key, (usize::MAX, 0));
    let mut open: Vec<OpenEntry> = Vec::new();
    let h0 = heuristic(start, goal);
    open.push(OpenEntry { estimated_cost: h0, cost: 0, index: 0 });
    let ghost w = sz.x;
    proof {
        lemma_index_bounds(sz, start);
        let e = parent_entries(parents);
        assert(e =~= seq![(start_key, (usize::MAX as usize, 0u64))]);
        assert(open@[0].index == 0);
        assert(pending(e, closed@, w, open@, 0));
        assert forall|q: Pos, pr: Direction|
            #![trigger closed@[index_of(g.size_spec().x, q)].has(pr)]
            in_bounds(g.size_spec(), q) && closed@[index_of(g.size_spec().x, q)].has(pr) implies {
                &&& q != goal
                &&& forall|d: Direction|
                    #![trigger g.has_edge(q, d)]
                    d != flip_of(pr) && g.has_edge(q, d) ==> has_key(e, key_of(moved(q, d), d))
            } by {
            lemma_index_bounds(sz, q);
        }
        assert forall|q: Pos, pr: Direction|
            #![trigger closed@[index_of(g.size_spec().x, q)].has(pr)]
            in_bounds(g.size_spec(), q) && closed@[index_of(g.size_spec().x, q)].has(pr) implies has_key(e, key_of(q, pr)) by {
            lemma_index_bounds(sz, q);
        }
        assert forall|j: int|
            0 <= j < e.len() && settled(e, closed@, w, j) implies #[trigger] relaxed(g, e, closed@, j) by {
            lemma_index_bounds(sz, start);
        }
        assert forall|j: int|
            0 <= j < e.len() && settled(e, closed@, w, j) implies no_shorter_walk(g, start, direction, (#[trigger] e[j]).0, e[j].1.1) by {
            lemma_index_bounds(sz, start);
        }
    }
    let ghost big: nat = (20 * n_cells + 2) as nat;
    let ghost mut used: nat = 0;
    proof {
        let e = parent_entries(parents);
        assert(closed@ =~= Seq::new(n_cells as nat, |i: int| Directions::none_spec()));
        assert(open@ =~= seq![OpenEntry { estimated_cost: manhattan(start, goal) as u64, cost: 0, index: 0 }]);
        assert(astar_fuel(g, goal, e, open@, closed@, big) == astar_model(g, start, goal, direction));
    }
    while open.len() > 0
        invariant
            g == *adjacencies,
            g.wf(),
            g.consistent(),
            sz == g.size_spec(),
            w == sz.x,
            n_cells == sz.x * sz.y,
            n_cells <= u32::MAX,
            closed@.len() == n_cells,
            parent_entries(parents).len() >= 1,
            parent_entries(parents)[0].0 == key_of(start, direction),
            links_ok(g, parent_entries(parents)),
            keys_unique(parent_entries(parents)),
            keys_in_bounds(parent_entries(parents), sz),
            forall|j: int|
                0 <= j < parent_entries(parents).len() ==> (#[trigger] parent_entries(parents)[j]).1.1
                    <= count_dirs(closed@),
            forall|t: int|
                0 <= t < open@.len() ==> (#[trigger] open@[t]).index < parent_entries(parents).len()
                    && open@[t].cost <= count_dirs(closed@) && open@[t].cost >= parent_entries(
                    parents,
                )[open@[t].index as int].1.1,
            forall|j: int|
                0 <= j < parent_entries(parents).len() ==> #[trigger] pending(
                    parent_entries(parents),
                    closed@,
                    w,
                    open@,
                    j,
                ),
            closure_holds(g, parent_entries(parents), closed@, goal),
            parent_entries(parents)[0].1.1 == 0,
            keys_coded(parent_entries(parents)),
            closed_keyed(g, parent_entries(parents), closed@),
            optimal_so_far(g, parent_entries(parents), closed@, start, direction),
            forall|t: int|
                0 <= t < open@.len() ==> (#[trigger] open@[t]).estimated_cost == open@[t].cost + manhattan(
                    key_pos(parent_entries(parents)[open@[t].index as int].0),
                    goal,
                ),
            big == 20 * n_cells + 2,
            used + 5 * (4 * n_cells - count_dirs(closed@)) + open@.len() <= 20 * n_cells + 1,
            astar_fuel(g, goal, parent_entries(parents), open@, closed@, (big - used) as nat) == astar_model(
                g,
                start,
                goal,
                direction,
            ),
        decreases 5 * (4 * n_cells - count_dirs(closed@)) + open@.len(),
    {
        proof {
            lemma_count_dirs_bound(closed@);
        }
        let ghost fuel: nat = (big - used) as nat;
        let ghost e0 = parent_entries(parents);
        let ghost open0 = open@;
        let (cur, Ghost(b)) = pop_best(&mut open);
        let (key, link) = match parents_get_index(&parents, cur.index) {
            Some(x) => x,
            None => {
                assert(false);
                return None;
            },
        };
        let pos = Pos { x: key.0, y: key.1 };
        let dir = decode_dir(key.2);
        proof {
            assert forall|t: int| 0 <= t < open0.len() implies cur.estimated_cost <= (#[trigger] open0[t]).estimated_cost by {
                assert(!served_before(open0[t], cur));
            }
        }
        if pos == goal {
            let path = reconstruct_path(&parents, cur.index, Ghost(g), Ghost(start), Ghost(direction));
            proof {
                assert forall|wk: Seq<Direction>| #[trigger] walk_ok(g, start, direction, wk) && walk_end(start, wk) == goal implies path@.len() <= wk.len() by {
                    lemma_walk_steps(g, start, direction, wk);
                    let endp = pos_at(start, wk, wk.len());
                    if in_bounds(sz, endp) && closed@[index_of(w, endp)].has(dir_at(direction, wk, wk.len())) {
                        assert(endp != goal);
                    }
                    lemma_best_is_optimistic(g, e0, closed@, open0, start, direction, goal, wk, wk.len(), cur, 0);
                    assert(cur == open0[b]);
                }
                lemma_walk_steps(g, start, direction, path@);
                lemma_best_is_optimistic(g, e0, closed@, open0, start, direction, goal, path@, path@.len(), cur, 0);
                assert(cur == open0[b]);
                assert(cur.cost <= path@.len());
                assert(path@.len() <= e0[cur.index as int].1.1);
                lemma_count_dirs_bound(closed@);
                assert(fuel >= 1);
                assert(astar_fuel(g, goal, e0, open0, closed@, fuel) == Some(path@));
            }
            return Some((path, cur.cost));
        }
        proof {
            assert(in_bounds(sz, key_pos(e0[cur.index as int].0)));
        }
        let ci = cell_index(sz, pos);
        if closed[ci].contains(dir) || cur.cost > link.1 {
            proof {
                assert forall|j: int| 0 <= j < e0.len() implies #[trigger] pending(
                    e0,
                    closed@,
                    w,
                    open@,
                    j,
                ) by {
                    lemma_pending_pop(e0, closed@, w, open0, b, j);
                }
                assert(astar_fuel(g, goal, e0, open0, closed@, fuel) == astar_fuel(g, goal, e0, open@, closed@, (fuel - 1) as nat));
                used = used + 1;
            }
            continue;
        }
        proof {
            assert(cur == open0[b]);
            assert(cur.cost >= link.1);
            lemma_count_dirs_add(closed@, ci as int, dir);
            lemma_count_dirs_bound(closed@.update(ci as int, closed@[ci as int].with_spec(dir)));
            assert forall|j: int| 0 <= j < e0.len() && j != cur.index implies #[trigger] pending(
                e0,
                closed@,
                w,
                open@,
                j,
            ) by {
                lemma_pending_pop(e0, closed@, w, open0, b, j);
            }
        }
        proof {
            assert forall|wk: Seq<Direction>, i: nat|
                walk_ok(g, start, direction, wk) && i <= wk.len() && #[trigger] state_at(start, direction, wk, i) == key implies cur.cost <= i by {
                assert(pos_at(start, wk, i) == pos);
                assert(dir_at(direction, wk, i) == dir);
                lemma_best_is_optimistic(g, e0, closed@, open0, start, direction, goal, wk, i, cur, 0);
                assert(cur == open0[b]);
            }
        }
        let successors = adjacencies.get_neighbors(pos);
        let ghost open1 = open@;
        let ghost cc = count_dirs(closed@);
        let mut k: usize = 0;
        while k < successors.len()
            invariant
                g == *adjacencies,
                g.wf(),
                g.consistent(),
                sz == g.size_spec(),
                w == sz.x,
                n_cells == sz.x * sz.y,
                n_cells <= u32::MAX,
                closed@.len() == n_cells,
                cc == count_dirs(closed@),
                cc < 4 * n_cells,
                cur.cost == link.1,
                cur.cost <= cc,
                cur.index < e0.len(),
                e0[cur.index as int] == (key, link),
                pos == key_pos(key),
                dir == key_dir(key),
                pos != goal,
                !closed@[index_of(w, pos)].has(dir),
                successors@ == g.neighbors_spec(pos),
                forall|m: int|
                    0 <= m < successors@.len() ==> g.has_edge(pos, #[trigger] successors@[m].1)
                        && successors@[m].0 == moved(pos, successors@[m].1),
                0 <= k <= successors@.len(),
                successors@.len() <= 4,
                open@.len() <= open1.len() + k,
                open@.len() >= open1.len(),
                forall|t: int| 0 <= t < open1.len() ==> open@[t] == open1[t],
                parent_entries(parents).len() >= e0.len(),
                forall|j: int|
                    0 <= j < e0.len() ==> (#[trigger] parent_entries(parents)[j]).0 == e0[j].0,
                parent_entries(parents)[cur.index as int] == (key, link),
                table_ok(g, parent_entries(parents), closed@, start, direction),
                open_ok(parent_entries(parents), open@, goal, (cc + 1) as int),
                forall|j: int|
                    0 <= j < parent_entries(parents).len() ==> (#[trigger] parent_entries(
                        parents,
                    )[j]).1.1 <= cc + 1,
                forall|j: int|
                    0 <= j < parent_entries(parents).len() && j != cur.index ==> #[trigger] pending(
                        parent_entries(parents),
                        closed@,
                        w,
                        open@,
                        j,
                    ),
                closure_holds(g, parent_entries(parents), closed@, goal),
                no_shorter_walk(g, start, direction, key, cur.cost),
                forall|m: int|
                    0 <= m < k && (#[trigger] successors@[m]).1 != flip_of(dir) ==> exists|x: int|
                        0 <= x < parent_entries(parents).len() && (#[trigger] parent_entries(parents)[x]).0
                            == key_of(successors@[m].0, successors@[m].1) && (parent_entries(parents)[x].1.1
                            <= cur.cost + 1 || settled(parent_entries(parents), closed@, w, x)),
                relax_all(g, goal, parent_entries(parents), open@, closed@, cur.index, cur.cost, dir, successors@, k as nat)
                    == relax_all(g, goal, e0, open1, closed@, cur.index, cur.cost, dir, successors@, 0),
            decreases successors@.len() - k,
        {
            let (npos, ndir) = successors[k];
            let ghost ea = parent_entries(parents);
            if ndir != dir.flip() {
                proof {
                    assert(g.has_edge(pos, ndir));
                    assert(!settled(ea, closed@, w, cur.index as int));
                }
                relax_successor(
                    &mut parents,
                    &mut open,
                    &closed,
                    sz,
                    goal,
                    cur.index,
                    cur.cost,
                    npos,
                    ndir,
                    Ghost(g),
                    Ghost(start),
                    Ghost(direction),
                    Ghost((cc + 1) as int),
                );
                proof {
                    let eb = parent_entries(parents);
                    lemma_keys_kept(ea, eb);
                    assert forall|m: int|
                        0 <= m < k && (#[trigger] successors@[m]).1 != flip_of(dir) implies exists|x: int|
                            0 <= x < eb.len() && (#[trigger] eb[x]).0 == key_of(successors@[m].0, successors@[m].1)
                                && (eb[x].1.1 <= cur.cost + 1 || settled(eb, closed@, w, x)) by {
                        lemma_witness_kept(ea, eb, closed@, w, key_of(successors@[m].0, successors@[m].1), cur.cost + 1);
                    }
                }
            }
            k += 1;
        }
        let ghost closed0 = closed@;
        let cell = closed[ci];
        closed.set(ci, cell.with(dir));
        proof {
            assert(closed@ == closed0.update(ci as int, closed0[ci as int].with_spec(dir)));
            assert(astar_fuel(g, goal, e0, open0, closed0, fuel) == astar_fuel(g, goal, parent_entries(parents), open@, closed@, (fuel - 1) as nat));
            used = used + 1;
            lemma_count_dirs_add(closed0, ci as int, dir);
            let e1 = parent_entries(parents);
            assert forall|j: int| 0 <= j < e1.len() implies #[trigger] pending(
                e1,
                closed@,
                w,
                open@,
                j,
            ) by {
                let q = key_pos(e1[j].0);
                assert(in_bounds(sz, q));
                lemma_index_bounds(sz, q);
                if j == cur.index {
                    assert(settled(e1, closed@, w, j));
                } else {
                    assert(pending(e1, closed0, w, open@, j));
                    if !settled(e1, closed0, w, j) {
                        let t = choose|t: int|
                            0 <= t < open@.len() && (#[trigger] open@[t]).index == j && open@[t].cost
                                == e1[j].1.1;
                    } else {
                        if index_of(w, q) == ci {
                            lemma_index_injective(sz, q, pos);
                        }
                    }
                }
            }
            assert forall|q: Pos, pr: Direction|
                #![trigger closed@[index_of(g.size_spec().x, q)].has(pr)]
                in_bounds(g.size_spec(), q) && closed@[index_of(g.size_spec().x, q)].has(pr) implies {
                    &&& q != goal
                    &&& forall|d: Direction|
                        #![trigger g.has_edge(q, d)]
                        d != flip_of(pr) && g.has_edge(q, d) ==> has_key(e1, key_of(moved(q, d), d))
                } by {
                lemma_index_bounds(sz, q);
                if index_of(w, q) == ci {
                    lemma_index_injective(sz, q, pos);
                }
                if q == pos && pr == dir {
                    assert forall|d: Direction|
                        #![trigger g.has_edge(q, d)]
                        d != flip_of(pr) && g.has_edge(q, d) implies has_key(e1, key_of(moved(q, d), d)) by {
                        let m = choose|m: int| 0 <= m < successors@.len() && #[trigger] successors@[m].1 == d;
                        let x = choose|x: int|
                            0 <= x < e1.len() && (#[trigger] e1[x]).0 == key_of(successors@[m].0, successors@[m].1)
                                && (e1[x].1.1 <= cur.cost + 1 || settled(e1, closed0, w, x));
                        assert(e1[x].0 == key_of(moved(q, d), d));
                    }
                } else {
                    assert(closed0[index_of(w, q)].has(pr));
                }
            }
            assert forall|i: int, d: Direction| 0 <= i < closed0.len() && #[trigger] closed0[i].has(d) implies closed@[i].has(d) by {}
            assert(key_of(pos, dir) == key);
            assert forall|q: Pos, pr: Direction|
                #![trigger closed@[index_of(g.size_spec().x, q)].has(pr)]
                in_bounds(g.size_spec(), q) && closed@[index_of(g.size_spec().x, q)].has(pr) implies has_key(e1, key_of(q, pr)) by {
                lemma_index_bounds(sz, q);
                if index_of(w, q) == ci {
                    lemma_index_injective(sz, q, pos);
                }
                if q == pos && pr == dir {
                    assert(e1[cur.index as int].0 == key_of(q, pr));
                } else {
                    assert(closed0[index_of(w, q)].has(pr));
                }
            }
            assert forall|j: int|
                0 <= j < e1.len() && settled(e1, closed@, w, j) implies #[trigger] relaxed(g, e1, closed@, j) && no_shorter_walk(
                    g,
                    start,
                    direction,
                    e1[j].0,
                    e1[j].1.1,
                ) by {
                let q = key_pos(e1[j].0);
                lemma_index_bounds(sz, q);
                if index_of(w, q) == ci {
                    lemma_index_injective(sz, q, pos);
                }
                if q == pos && key_dir(e1[j].0) == dir {
                    assert(e1[j].0 == key);
                    assert(j == cur.index);
                    assert forall|d: Direction|
                        #![trigger g.has_edge(key_pos(e1[j].0), d)]
                        d != flip_of(key_dir(e1[j].0)) && g.has_edge(key_pos(e1[j].0), d) implies exists|m: int|
                            0 <= m < e1.len() && (#[trigger] e1[m]).0 == key_of(moved(key_pos(e1[j].0), d), d) && (e1[m].1.1
                                <= e1[j].1.1 + 1 || settled(e1, closed@, w, m)) by {
                        let m = choose|m: int| 0 <= m < successors@.len() && #[trigger] successors@[m].1 == d;
                        let x = choose|x: int|
                            0 <= x < e1.len() && (#[trigger] e1[x]).0 == key_of(successors@[m].0, successors@[m].1)
                                && (e1[x].1.1 <= cur.cost + 1 || settled(e1, closed0, w, x));
                        if settled(e1, closed0, w, x) {
                            lemma_index_bounds(sz, key_pos(e1[x].0));
                        }
                    }
                } else {
                    assert(settled(e1, closed0, w, j));
                    lemma_relaxed_grow(g, e1, e1, closed0, closed@, j);
                }
            }
            assert forall|j: int|
                0 <= j < e1.len() && settled(e1, closed@, w, j) implies no_shorter_walk(
                    g,
                    start,
                    direction,
                    (#[trigger] e1[j]).0,
                    e1[j].1.1,
                ) by {
                assert(relaxed(g, e1, closed@, j));
            }
            assert(optimal_so_far(g, e1, closed@, start, direction));
        }
    }
    proof {
        let e = parent_entries(parents);
        assert(astar_fuel(g, goal, e, open@, closed@, (big - used) as nat) is None);
        assert forall|j: int| 0 <= j < e.len() implies settled(e, closed@, w, j) by {
            assert(pending(e, closed@, w, open@, j));
        }
        assert forall|path: Seq<Direction>|
            walk_ok(g, start, direction, path) implies walk_end(start, path) != goal by {
            assert(settled(e, closed@, w, 0));
            lemma_closed_walks_miss_goal(g, e, closed@, goal, start, direction, path);
        }
    }
    None
}

/// What a shortest-path search may return: a shortest legal walk to `goal`, or nothing
/// exactly when `goal` cannot be reached.
pub open spec fn shortest_result(g: AdjacencyGraph, start: Pos, prev: Direction, goal: Pos, r: Option<Seq<Direction>>) -> bool {
    match r {
        Some(p) => walk_ok(g, start, prev, p) && walk_end(start, p) == goal && no_shorter_route(g, start, prev, goal, p.len()),
        None => !reaches(g, start, prev, goal),
    }
}

/// The moves of an optional path, as a sequence.
pub open spec fn path_view(o: Option<Vec<Direction>>) -> Option<Seq<Direction>> {
    match o {
        Some(v) => Some(v@),
        None => None,
    }
}

/// The shortest sequence of moves from `start`, entered by `direction`, to `goal`; the first
/// element is the move out of `start`. `None` where no walk reaches `goal`.
pub fn shortest_path(start: Pos, goal: Pos, direction: Direction, adjacencies: &AdjacencyGraph) -> (r:
    Option<Vec<Direction>>)
    requires
        adjacencies.wf(),
        adjacencies.consistent(),
    ensures
        match r {
            Some(path) => walk_ok(*adjacencies, start, direction, path@) && walk_end(start, path@)
                == goal && no_shorter_route(*adjacencies, start, direction, goal, path@.len()),
            None => !reaches(*adjacencies, start, direction, goal),
        },
        r.is_some() <==> reaches(*adjacencies, start, direction, goal),
        path_view(r) == astar_model(*adjacencies, start, goal, direction),
        r.is_some() ==> r.unwrap()@.len() <= 4 * (adjacencies.size_spec().x * adjacencies.size_spec().y),
        shortest_result(*adjacencies, start, direction, goal, path_view(r)),
        r.is_some() && r.unwrap()@.len() > 0 ==> r.unwrap()@[0] != flip_of(direction),
{
    match astar(start, goal, direction, adjacencies) {
        Some((path, _)) => Some(path),
        None => None,
    }
}

/// The cell reached after the first `i` moves of `path` from `p`.
pub open spec fn pos_at(p: Pos, path: Seq<Direction>, i: nat) -> Pos
    decreases i,
{
    if i == 0 {
        p
    } else {
        moved(pos_at(p, path, (i - 1) as nat), path[i - 1])
    }
}

/// Every move of `path` from `p` follows an edge of `g`.
pub open spec fn path_ok(g: AdjacencyGraph, p: Pos, path: Seq<Direction>) -> bool {
    forall|i: nat| i < path.len() ==> g.has_edge(#[trigger] pos_at(p, path, i), path[i as int])
}

/// Walking `path` from `p` never enters a cell twice.
pub open spec fn simple(p: Pos, path: Seq<Direction>) -> bool {
    forall|i: nat, j: nat|
        i < j <= path.len() ==> #[trigger] pos_at(p, path, i) != #[trigger] pos_at(p, path, j)
}

proof fn lemma_pos_at_shift(p: Pos, path: Seq<Direction>, i: nat)
    requires
        path.len() > 0,
        i < path.len(),
    ensures
        pos_at(p, path, i + 1) == pos_at(moved(p, path[0]), path.drop_first(), i),
    decreases i,
{
    let q = moved(p, path[0]);
    let rest = path.drop_first();
    if i > 0 {
        lemma_pos_at_shift(p, path, (i - 1) as nat);
        assert(rest[i - 1] == path[i as int]);
        assert(pos_at(q, rest, i) == moved(pos_at(q, rest, (i - 1) as nat), rest[i - 1]));
    } else {
        assert(pos_at(p, path, 1) == moved(pos_at(p, path, 0), path[0]));
    }
}

/// A legal walk follows edges, and ends where its positions end.
pub proof fn lemma_walk_positions(g: AdjacencyGraph, p: Pos, prev: Direction, path: Seq<Direction>)
    requires
        walk_ok(g, p, prev, path),
    ensures
        path_ok(g, p, path),
        walk_end(p, path) == pos_at(p, path, path.len()),
    decreases path.len(),
{
    if path.len() > 0 {
        let q = moved(p, path[0]);
        let rest = path.drop_first();
        lemma_walk_positions(g, q, path[0], rest);
        assert forall|i: nat| i < path.len() implies g.has_edge(
            #[trigger] pos_at(p, path, i),
            path[i as int],
        ) by {
            if i > 0 {
                lemma_pos_at_shift(p, path, (i - 1) as nat);
                assert(pos_at(q, rest, (i - 1) as nat) == pos_at(p, path, i));
            }
        }
        lemma_pos_at_shift(p, path, (path.len() - 1) as nat);
    }
}

proof fn lemma_pos_at_prefix(p: Pos, a: Seq<Direction>, b: Seq<Direction>, k: nat)
    requires
        k <= a.len(),
        k <= b.len(),
        forall|m: int| 0 <= m < k ==> a[m] == b[m],
    ensures
        pos_at(p, a, k) == pos_at(p, b, k),
    decreases k,
{
    if k > 0 {
        lemma_pos_at_prefix(p, a, b, (k - 1) as nat);
    }
}

proof fn lemma_pos_at_offset(p: Pos, a: Seq<Direction>, b: Seq<Direction>, s: nat, k: nat)
    requires
        s <= k <= a.len(),
        k + 2 <= b.len(),
        forall|m: int| s <= m < k ==> a[m] == b[m + 2],
        pos_at(p, a, s) == pos_at(p, b, s + 2),
    ensures
        pos_at(p, a, k) == pos_at(p, b, k + 2),
    decreases k - s,
{
    if k > s {
        lemma_pos_at_offset(p, a, b, s, (k - 1) as nat);
    }
}

/// Number of `true` entries.
pub open spec fn count_true(s: Seq<bool>) -> nat
    decreases s.len(),
{
    if s.len() == 0 {
        0
    } else {
        count_true(s.drop_last()) + (if s.last() { 1nat } else { 0nat })
    }
}

proof fn lemma_count_true_bound(s: Seq<bool>)
    ensures
        count_true(s) <= s.len(),
    decreases s.len(),
{
    if s.len() > 0 {
        lemma_count_true_bound(s.drop_last());
    }
}

proof fn lemma_count_true_set(s: Seq<bool>, i: int)
    requires
        0 <= i < s.len(),
    ensures
        count_true(s.update(i, true)) == count_true(s) + (if s[i] { 0nat } else { 1nat }),
    decreases s.len(),
{
    let t = s.update(i, true);
    if i == s.len() - 1 {
        assert(t.drop_last() =~= s.drop_last());
    } else {
        assert(t.drop_last() =~= s.drop_last().update(i, true));
        lemma_count_true_set(s.drop_last(), i);
    }
}

/// Every cell of a non-empty path that follows edges is traversable.
pub proof fn lemma_path_cells_are_nodes(g: AdjacencyGraph, start: Pos, r: Seq<Direction>)
    requires
        g.consistent(),
        path_ok(g, start, r),
        r.len() > 0,
    ensures
        forall|m: nat| m <= r.len() ==> g.has_node(#[trigger] pos_at(start, r, m)),
{
    assert forall|m: nat| m <= r.len() implies g.has_node(#[trigger] pos_at(start, r, m)) by {
        if m < r.len() {
            assert(g.has_edge(pos_at(start, r, m), r[m as int]));
        } else {
            let k = (m - 1) as nat;
            let c = pos_at(start, r, k);
            assert(g.has_edge(c, r[k as int]));
            assert(g.dirs(c).has(r[k as int]) == g.neighbor_present(c, r[k as int]));
        }
    }
}

/// Inserting a detour `t, r[i], flip(t)` at step `i` keeps a path legal, keeps its end, and
/// adds exactly the two cells beside the step.
proof fn lemma_detour(g: AdjacencyGraph, start: Pos, r: Seq<Direction>, i: nat, t: Direction, visited: Seq<bool>)
    requires
        g.wf(),
        g.consistent(),
        path_ok(g, start, r),
        i < r.len(),
        visited.len() == g.size_spec().x * g.size_spec().y,
        forall|m: nat| m <= r.len() ==> visited[index_of(g.size_spec().x, #[trigger] pos_at(start, r, m))],
        crate::geometry::can_step(pos_at(start, r, i), t),
        crate::geometry::can_step(pos_at(start, r, i + 1), t),
        g.has_node(moved(pos_at(start, r, i), t)),
        g.has_node(moved(pos_at(start, r, i + 1), t)),
        !visited[index_of(g.size_spec().x, moved(pos_at(start, r, i), t))],
        !visited[index_of(g.size_spec().x, moved(pos_at(start, r, i + 1), t))],
    ensures
        ({
            let r2 = r.insert(i as int, t).insert(i + 2 as int, flip_of(t));
            let ct = moved(pos_at(start, r, i), t);
            let nt = moved(pos_at(start, r, i + 1), t);
            &&& r2.len() == r.len() + 2
            &&& path_ok(g, start, r2)
            &&& pos_at(start, r2, r2.len()) == pos_at(start, r, r.len())
            &&& ct != nt
            &&& forall|m: nat|
                m <= r2.len() ==> (#[trigger] pos_at(start, r2, m) == ct || pos_at(start, r2, m) == nt
                    || (m <= i && pos_at(start, r2, m) == pos_at(start, r, m)) || (m >= i + 3 && pos_at(
                    start,
                    r2,
                    m,
                ) == pos_at(start, r, (m - 2) as nat)))
            &&& forall|m: nat| m <= i ==> #[trigger] pos_at(start, r2, m) == pos_at(start, r, m)
            &&& forall|m: nat| i + 1 <= m <= r.len() ==> #[trigger] pos_at(start, r2, m + 2) == pos_at(start, r, m)
            &&& pos_at(start, r2, i + 1) == ct
            &&& pos_at(start, r2, i + 2) == nt
            &&& simple(start, r) ==> simple(start, r2)
        }),
{
    let sz = g.size_spec();
    let w = sz.x;
    let r2 = r.insert(i as int, t).insert(i + 2 as int, flip_of(t));
    let c = pos_at(start, r, i);
    let n = pos_at(start, r, i + 1);
    let ct = moved(c, t);
    let nt = moved(n, t);
    lemma_path_cells_are_nodes(g, start, r);
    assert(g.has_node(c));
    assert(g.has_node(n));
    g.lemma_node_in_bounds(c);
    g.lemma_node_in_bounds(n);
    g.lemma_node_in_bounds(ct);
    g.lemma_node_in_bounds(nt);
    assert(n == moved(c, r[i as int]));
    assert(visited[index_of(w, c)]);
    assert(visited[index_of(w, n)]);
    assert(c != n) by {
        if c == n {
            assert(moved(c, r[i as int]) != c);
        }
    }
    assert(ct != nt);
    assert(r2.len() == r.len() + 2);
    assert forall|m: int| 0 <= m < i implies r2[m] == r[m] by {}
    assert(r2[i as int] == t);
    assert(r2[i + 1 as int] == r[i as int]);
    assert(r2[i + 2 as int] == flip_of(t));
    assert forall|m: int| i + 1 <= m < r.len() implies r[m] == r2[m + 2] by {}
    assert forall|m: nat| m <= i implies pos_at(start, r2, m) == pos_at(start, r, m) by {
        lemma_pos_at_prefix(start, r2, r, m);
    }
    assert(pos_at(start, r2, i + 1) == ct);
    assert(moved(ct, r[i as int]) == nt);
    assert(pos_at(start, r2, i + 2) == nt);
    assert(moved(nt, flip_of(t)) == n);
    assert(pos_at(start, r2, i + 3) == n);
    assert forall|m: nat| i + 1 <= m <= r.len() implies pos_at(start, r2, m + 2) == pos_at(start, r, m) by {
        lemma_pos_at_offset(start, r, r2, i + 1, m);
    }
    // the three new moves follow edges
    assert(g.dirs(c).has(t) == g.neighbor_present(c, t));
    assert(g.has_edge(c, t));
    assert(g.dirs(ct).has(r[i as int]) == g.neighbor_present(ct, r[i as int]));
    assert(g.has_edge(ct, r[i as int]));
    assert(g.dirs(nt).has(flip_of(t)) == g.neighbor_present(nt, flip_of(t)));
    assert(g.has_edge(nt, flip_of(t)));
    assert forall|m: nat| m < r2.len() implies g.has_edge(#[trigger] pos_at(start, r2, m), r2[m as int]) by {
        if m < i {
            assert(g.has_edge(pos_at(start, r, m), r[m as int]));
        } else if m == i {
        } else if m == i + 1 {
        } else if m == i + 2 {
        } else {
            let k = (m - 2) as nat;
            assert(pos_at(start, r2, k + 2) == pos_at(start, r, k));
            assert(g.has_edge(pos_at(start, r, k), r[k as int]));
        }
    }
    assert(pos_at(start, r2, r2.len()) == pos_at(start, r, r.len())) by {
        assert(pos_at(start, r2, r.len() + 2) == pos_at(start, r, r.len()));
    }
    assert forall|m: nat|
        m <= r2.len() implies (#[trigger] pos_at(start, r2, m) == ct || pos_at(start, r2, m) == nt
            || (m <= i && pos_at(start, r2, m) == pos_at(start, r, m)) || (m >= i + 3 && pos_at(
            start,
            r2,
            m,
        ) == pos_at(start, r, (m - 2) as nat))) by {
        if m >= i + 3 {
            let k = (m - 2) as nat;
            assert(pos_at(start, r2, k + 2) == pos_at(start, r, k));
        }
    }
    if simple(start, r) {
        assert forall|a: nat, b: nat|
            a < b <= r2.len() implies #[trigger] pos_at(start, r2, a) != #[trigger] pos_at(
            start,
            r2,
            b,
        ) by {
            let pa = pos_at(start, r2, a);
            let pb = pos_at(start, r2, b);
            let fa: nat = if a <= i { a } else { (a - 2) as nat };
            let fb: nat = if b <= i { b } else { (b - 2) as nat };
            let na = a == i + 1 || a == i + 2;
            let nb = b == i + 1 || b == i + 2;
            if !na {
                assert(pa == pos_at(start, r, fa)) by {
                    if a >= i + 3 {
                        assert(pos_at(start, r2, fa + 2) == pos_at(start, r, fa));
                    }
                }
                assert(visited[index_of(w, pa)]);
            }
            if !nb {
                assert(pb == pos_at(start, r, fb)) by {
                    if b >= i + 3 {
                        assert(pos_at(start, r2, fb + 2) == pos_at(start, r, fb));
                    }
                }
                assert(visited[index_of(w, pb)]);
            }
            if !na && !nb {
                assert(fa < fb);
            } else if na && !nb {
                assert(pa == ct || pa == nt);
            } else if !na && nb {
                assert(pb == ct || pb == nt);
            } else {
                assert(a == i + 1 && b == i + 2);
            }
        }
    }
}

/// Whether a detour in direction `t` beside the step from `current` to `next` lands on two
/// traversable cells that the path has not visited.
fn detour_fits(
    adjacencies: &AdjacencyGraph,
    visited: &Vec<bool>,
    current: Pos,
    next: Pos,
    t: Direction,
) -> (r: bool)
    requires
        adjacencies.wf(),
        visited@.len() == adjacencies.size_spec().x * adjacencies.size_spec().y,
    ensures
        r == (crate::geometry::can_step(current, t) && crate::geometry::can_step(next, t)
            && adjacencies.has_node(moved(current, t)) && adjacencies.has_node(moved(next, t))
            && !visited@[index_of(adjacencies.size_spec().x, moved(current, t))]
            && !visited@[index_of(adjacencies.size_spec().x, moved(next, t))]),
{
    let sz = adjacencies.size();
    let cur_test = match current.checked_step(t) {
        Some(p) => p,
        None => return false,
    };
    let next_test = match next.checked_step(t) {
        Some(p) => p,
        None => return false,
    };
    if !adjacencies.contains(cur_test) || !adjacencies.contains(next_test) {
        return false;
    }
    proof {
        adjacencies.lemma_node_in_bounds(cur_test);
        adjacencies.lemma_node_in_bounds(next_test);
        adjacencies.lemma_wf_size();
    }
    let ci = cell_index(sz, cur_test);
    let ni = cell_index(sz, next_test);
    !visited[ci] && !visited[ni]
}

/// Whether the walk of `path` from `start` passes through `q`.
pub open spec fn on_walk(start: Pos, path: Seq<Direction>, q: Pos) -> bool {
    exists|m: nat| m <= path.len() && #[trigger] pos_at(start, path, m) == q
}

/// Whether `t` is at right angles to `d`.
pub open spec fn perpendicular(t: Direction, d: Direction) -> bool {
    (crate::geometry::dx(t) == 0) != (crate::geometry::dx(d) == 0)
}

/// A detour in direction `t` beside step `i` of `path` is open: both cells beside the step
/// are traversable and off the walk.
pub open spec fn detour_open(g: AdjacencyGraph, start: Pos, path: Seq<Direction>, i: nat, t: Direction) -> bool {
    let c = pos_at(start, path, i);
    let n = pos_at(start, path, i + 1);
    &&& crate::geometry::can_step(c, t)
    &&& crate::geometry::can_step(n, t)
    &&& g.has_node(moved(c, t))
    &&& g.has_node(moved(n, t))
    &&& !on_walk(start, path, moved(c, t))
    &&& !on_walk(start, path, moved(n, t))
}

/// The first probe beside a step in direction `d`: up beside a horizontal step, right beside
/// a vertical one.
pub open spec fn first_probe(d: Direction) -> Direction {
    if crate::geometry::dy(d) == 0 {
        Direction::Up
    } else {
        Direction::Right
    }
}

/// `path` with the detours of `steps` applied in order: each inserts `t` before step `i` and
/// `flip(t)` after it.
pub open spec fn replay(path: Seq<Direction>, steps: Seq<(int, Direction)>) -> Seq<Direction>
    decreases steps.len(),
{
    if steps.len() == 0 {
        path
    } else {
        let m = replay(path, steps.drop_last());
        let (i, t) = steps.last();
        m.insert(i, t).insert(i + 2, flip_of(t))
    }
}

/// Each detour of `steps` sits beside a step at right angles to it, and a second probe is
/// taken only where the first was not open.
pub open spec fn detours_ok(g: AdjacencyGraph, start: Pos, path: Seq<Direction>, steps: Seq<(int, Direction)>) -> bool {
    forall|k: int|
        0 <= k < steps.len() ==> {
            let m = #[trigger] replay(path, steps.take(k));
            let (i, t) = steps[k];
            &&& 0 <= i < m.len()
            &&& perpendicular(t, m[i])
            &&& t != first_probe(m[i]) ==> !detour_open(g, start, m, i as nat, first_probe(m[i]))
        }
}

proof fn lemma_count_true_below(s: Seq<bool>, i: int)
    requires
        0 <= i < s.len(),
        !s[i],
    ensures
        count_true(s) < s.len(),
{
    lemma_count_true_set(s, i);
    lemma_count_true_bound(s.update(i, true));
}

/// The second probe beside a step in direction `d`: down beside a horizontal step, left beside
/// a vertical one.
pub open spec fn second_probe(d: Direction) -> Direction {
    if crate::geometry::dy(d) == 0 {
        Direction::Down
    } else {
        Direction::Left
    }
}

/// The lengthening walk from step `i` of `r`, with `fuel` rounds left: where a detour beside
/// step `i` is open (the first probe, else the second) and the path stays addressable, insert
/// it and look at step `i` again; otherwise go on to step `i + 1`.
pub open spec fn lengthen_fuel(g: AdjacencyGraph, start: Pos, r: Seq<Direction>, i: nat, fuel: nat) -> Seq<Direction>
    decreases fuel,
{
    if fuel == 0 || i >= r.len() {
        r
    } else {
        let f = first_probe(r[i as int]);
        let s = second_probe(r[i as int]);
        if detour_open(g, start, r, i, f) && r.len() <= usize::MAX - 2 {
            lengthen_fuel(g, start, r.insert(i as int, f).insert(i + 2 as int, flip_of(f)), i, (fuel - 1) as nat)
        } else if !detour_open(g, start, r, i, f) && detour_open(g, start, r, i, s) && r.len() <= usize::MAX - 2 {
            lengthen_fuel(g, start, r.insert(i as int, s).insert(i + 2 as int, flip_of(s)), i, (fuel - 1) as nat)
        } else {
            lengthen_fuel(g, start, r, i + 1, (fuel - 1) as nat)
        }
    }
}

/// The lengthening of `path` from `start`: the walk above from step 0, with rounds enough to
/// finish (each round advances a step or puts two more cells on the walk).
pub open spec fn lengthen_spec(g: AdjacencyGraph, start: Pos, path: Seq<Direction>) -> Seq<Direction> {
    lengthen_fuel(g, start, path, 0, (path.len() + 3 * (g.size_spec().x * g.size_spec().y)) as nat)
}

/// `l` lengthens `path` from `start`: the same end cell, legal moves, at least as long by an
/// even count, simple where `path` is simple, obtained from `path` by detours inserted beside
/// perpendicular steps (up before down, right before left), and, where the result stays
/// addressable, with no detour left open beside any step.
pub open spec fn lengthened(g: AdjacencyGraph, start: Pos, path: Seq<Direction>, l: Seq<Direction>) -> bool {
    &&& l.len() >= path.len()
    &&& (l.len() - path.len()) % 2 == 0
    &&& path_ok(g, start, l)
    &&& pos_at(start, l, l.len()) == pos_at(start, path, path.len())
    &&& simple(start, path) ==> simple(start, l)
    &&& exists|steps: Seq<(int, Direction)>| #[trigger] replay(path, steps) == l && detours_ok(g, start, path, steps)
    &&& path.len() + 2 * (g.size_spec().x * g.size_spec().y) <= usize::MAX ==> forall|i: nat, t: Direction|
        i < l.len() && perpendicular(t, l[i as int]) ==> !#[trigger] detour_open(g, start, l, i, t)
}

/// What a lengthening of an optional path may return.
pub open spec fn lengthen_result(g: AdjacencyGraph, start: Pos, p: Option<Seq<Direction>>, l: Option<Seq<Direction>>) -> bool {
    match p {
        None => l is None,
        Some(path) => (l is None <==> path.len() == 0) && (l matches Some(x) ==> lengthened(g, start, path, x)
            && x == lengthen_spec(g, start, path)),
    }
}

/// While the visited table marks exactly the walk's cells, a probe fits exactly when the detour
/// is open.
proof fn lemma_fits_is_open(g: AdjacencyGraph, start: Pos, r: Seq<Direction>, i: nat, t: Direction, visited: Seq<bool>)
    requires
        g.wf(),
        g.consistent(),
        path_ok(g, start, r),
        i < r.len(),
        visited.len() == g.size_spec().x * g.size_spec().y,
        forall|m: nat| m <= r.len() ==> visited[index_of(g.size_spec().x, #[trigger] pos_at(start, r, m))],
        forall|q: Pos|
            in_bounds(g.size_spec(), q) && #[trigger] visited[index_of(g.size_spec().x, q)] ==> on_walk(start, r, q),
    ensures
        detour_open(g, start, r, i, t) == ({
            let c = pos_at(start, r, i);
            let n = pos_at(start, r, i + 1);
            &&& crate::geometry::can_step(c, t)
            &&& crate::geometry::can_step(n, t)
            &&& g.has_node(moved(c, t))
            &&& g.has_node(moved(n, t))
            &&& !visited[index_of(g.size_spec().x, moved(c, t))]
            &&& !visited[index_of(g.size_spec().x, moved(n, t))]
        }),
{
    let c = pos_at(start, r, i);
    let n = pos_at(start, r, i + 1);
    if g.has_node(moved(c, t)) && g.has_node(moved(n, t)) {
        g.lemma_node_in_bounds(moved(c, t));
        g.lemma_node_in_bounds(moved(n, t));
        if on_walk(start, r, moved(c, t)) {
            let m = choose|m: nat| m <= r.len() && #[trigger] pos_at(start, r, m) == moved(c, t);
        }
        if on_walk(start, r, moved(n, t)) {
            let m = choose|m: nat| m <= r.len() && #[trigger] pos_at(start, r, m) == moved(n, t);
        }
    }
}

proof fn lemma_no_detour_extends(g: AdjacencyGraph, start: Pos, r: Seq<Direction>, i: nat, first: Direction, second: Direction)
    requires
        i < r.len(),
        forall|i2: nat, t2: Direction|
            i2 < i && perpendicular(t2, r[i2 as int]) ==> !#[trigger] detour_open(g, start, r, i2, t2),
        (crate::geometry::dy(r[i as int]) == 0 && first == Direction::Up && second == Direction::Down) || (
        crate::geometry::dy(r[i as int]) != 0 && first == Direction::Right && second == Direction::Left),
        !detour_open(g, start, r, i, first),
        !detour_open(g, start, r, i, second),
    ensures
        forall|i2: nat, t2: Direction|
            i2 < i + 1 && perpendicular(t2, r[i2 as int]) ==> !#[trigger] detour_open(g, start, r, i2, t2),
{
}

proof fn lemma_after_detour(
    g: AdjacencyGraph,
    start: Pos,
    path0: Seq<Direction>,
    r: Seq<Direction>,
    i: nat,
    t: Direction,
    steps: Seq<(int, Direction)>,
    v0: Seq<bool>,
    v1: Seq<bool>,
    cond: bool,
)
    requires
        g.wf(),
        g.consistent(),
        path_ok(g, start, r),
        i < r.len(),
        v0.len() == g.size_spec().x * g.size_spec().y,
        forall|m: nat| m <= r.len() ==> v0[index_of(g.size_spec().x, #[trigger] pos_at(start, r, m))],
        crate::geometry::can_step(pos_at(start, r, i), t),
        crate::geometry::can_step(pos_at(start, r, i + 1), t),
        g.has_node(moved(pos_at(start, r, i), t)),
        g.has_node(moved(pos_at(start, r, i + 1), t)),
        !v0[index_of(g.size_spec().x, moved(pos_at(start, r, i), t))],
        !v0[index_of(g.size_spec().x, moved(pos_at(start, r, i + 1), t))],
        v1 == v0.update(index_of(g.size_spec().x, moved(pos_at(start, r, i), t)), true).update(
            index_of(g.size_spec().x, moved(pos_at(start, r, i + 1), t)),
            true,
        ),
        forall|q: Pos|
            in_bounds(g.size_spec(), q) && #[trigger] v0[index_of(g.size_spec().x, q)] ==> on_walk(start, r, q),
        cond ==> forall|i2: nat, t2: Direction|
            i2 < i && perpendicular(t2, r[i2 as int]) ==> !#[trigger] detour_open(g, start, r, i2, t2),
        r == replay(path0, steps),
        detours_ok(g, start, path0, steps),
        perpendicular(t, r[i as int]),
        t != first_probe(r[i as int]) ==> !detour_open(g, start, r, i, first_probe(r[i as int])),
    ensures
        ({
            let r2 = r.insert(i as int, t).insert(i + 2 as int, flip_of(t));
            let steps2 = steps.push((i as int, t));
            &&& forall|q: Pos|
                in_bounds(g.size_spec(), q) && #[trigger] v1[index_of(g.size_spec().x, q)] ==> on_walk(start, r2, q)
            &&& cond ==> forall|i2: nat, t2: Direction|
                i2 < i && perpendicular(t2, r2[i2 as int]) ==> !#[trigger] detour_open(g, start, r2, i2, t2)
            &&& r2 == replay(path0, steps2)
            &&& detours_ok(g, start, path0, steps2)
        }),
{
    let sz = g.size_spec();
    let r2 = r.insert(i as int, t).insert(i + 2 as int, flip_of(t));
    let steps2 = steps.push((i as int, t));
    let ct = moved(pos_at(start, r, i), t);
    let nt = moved(pos_at(start, r, i + 1), t);
    lemma_detour(g, start, r, i, t, v0);
    assert forall|q: Pos| on_walk(start, r, q) implies on_walk(start, r2, q) by {
        let m = choose|m: nat| m <= r.len() && #[trigger] pos_at(start, r, m) == q;
        if m <= i {
            assert(pos_at(start, r2, m) == q);
        } else {
            assert(pos_at(start, r2, m + 2) == q);
        }
    }
    g.lemma_node_in_bounds(ct);
    g.lemma_node_in_bounds(nt);
    assert forall|q: Pos|
        in_bounds(sz, q) && #[trigger] v1[index_of(sz.x, q)] implies on_walk(start, r2, q) by {
        lemma_index_bounds(sz, q);
        lemma_index_bounds(sz, ct);
        lemma_index_bounds(sz, nt);
        if q == ct {
            assert(pos_at(start, r2, i + 1) == q);
        } else if q == nt {
            assert(pos_at(start, r2, i + 2) == q);
        } else {
            if index_of(sz.x, q) == index_of(sz.x, ct) {
                lemma_index_injective(sz, q, ct);
            }
            if index_of(sz.x, q) == index_of(sz.x, nt) {
                lemma_index_injective(sz, q, nt);
            }
            assert(v0[index_of(sz.x, q)]);
            assert(on_walk(start, r, q));
        }
    }
    if cond {
        assert forall|i2: nat, t2: Direction|
            i2 < i && perpendicular(t2, r2[i2 as int]) implies !#[trigger] detour_open(g, start, r2, i2, t2) by {
            assert(r2[i2 as int] == r[i2 as int]);
            assert(pos_at(start, r2, i2) == pos_at(start, r, i2));
            assert(pos_at(start, r2, i2 + 1) == pos_at(start, r, i2 + 1));
            assert(!detour_open(g, start, r, i2, t2));
        }
    }
    assert(steps2.drop_last() =~= steps);
    assert(r2 == replay(path0, steps2));
    assert forall|kk: int| 0 <= kk < steps2.len() implies {
        let m = #[trigger] replay(path0, steps2.take(kk));
        let (ii, tt) = steps2[kk];
        &&& 0 <= ii < m.len()
        &&& perpendicular(tt, m[ii])
        &&& tt != first_probe(m[ii]) ==> !detour_open(g, start, m, ii as nat, first_probe(m[ii]))
    } by {
        if kk < steps.len() {
            assert(steps2.take(kk) =~= steps.take(kk));
            assert(replay(path0, steps.take(kk)) == replay(path0, steps2.take(kk)));
        } else {
            assert(steps2.take(kk) =~= steps);
        }
    }
}

/// Lengthens a path from `start` by inserting detours beside its steps, keeping its end.
///
/// At each step, a horizontal step probes one cell up and then one cell down (a vertical step
/// probes right, then left); where both cells beside the step are traversable and not yet on
/// the path, the path turns aside over them and back, and the same step is examined again.
/// `None` for an empty path.
#[verifier::rlimit(80)]
pub fn longest_path(start: Pos, adjacencies: &AdjacencyGraph, path: Vec<Direction>) -> (r: Option<
    Vec<Direction>,
>)
    requires
        adjacencies.wf(),
        adjacencies.consistent(),
        path_ok(*adjacencies, start, path@),
    ensures
        r.is_none() <==> path@.len() == 0,
        match r {
            Some(l) => lengthened(*adjacencies, start, path@, l@) && l@ == lengthen_spec(*adjacencies, start, path@),
            None => true,
        },
{
    if path.len() == 0 {
        return None;
    }
    let ghost g = *adjacencies;
    let ghost path0 = path@;
    let mut path = path;
    let sz = adjacencies.size();
    proof {
        adjacencies.lemma_wf_size();
        lemma_path_cells_are_nodes(g, start, path0);
    }
    let n_cells: usize = (sz.x as usize) * (sz.y as usize);
    let mut visited: Vec<bool> = Vec::new();
    let mut c: usize = 0;
    while c < n_cells
        invariant
            c <= n_cells,
            visited@.len() == c,
            forall|j: int| 0 <= j < c ==> !visited@[j],
        decreases n_cells - c,
    {
        visited.push(false);
        c += 1;
    }
    let mut current = start;
    proof {
        assert(g.has_node(pos_at(start, path0, 0)));
        g.lemma_node_in_bounds(start);
    }
    let i0 = cell_index(sz, current);
    let ghost vz = visited@;
    visited.set(i0, true);
    proof {
        assert forall|q: Pos|
            in_bounds(sz, q) && #[trigger] visited@[index_of(sz.x, q)] implies exists|m: nat|
                m <= 0 && #[trigger] pos_at(start, path0, m) == q by {
            lemma_index_bounds(sz, q);
            if index_of(sz.x, q) != i0 {
                assert(!vz[index_of(sz.x, q)]);
            } else {
                lemma_index_injective(sz, q, start);
                assert(pos_at(start, path0, 0) == q);
            }
        }
    }
    let mut k: usize = 0;
    while k < path.len()
        invariant
            g == *adjacencies,
            g.wf(),
            g.consistent(),
            sz == g.size_spec(),
            n_cells == sz.x * sz.y,
            path@ == path0,
            path_ok(g, start, path0),
            path0.len() > 0,
            forall|m: nat| m <= path0.len() ==> g.has_node(#[trigger] pos_at(start, path0, m)),
            visited@.len() == n_cells,
            k <= path@.len(),
            current == pos_at(start, path0, k as nat),
            forall|m: nat| m <= k ==> visited@[index_of(sz.x, #[trigger] pos_at(start, path0, m))],
            forall|q: Pos|
                in_bounds(sz, q) && #[trigger] visited@[index_of(sz.x, q)] ==> exists|m: nat|
                    m <= k && #[trigger] pos_at(start, path0, m) == q,
        decreases path@.len() - k,
    {
        let d = path[k];
        proof {
            assert(g.has_edge(current, d));
            assert(g.dirs(current).has(d) == g.neighbor_present(current, d));
        }
        current = current.step(d);
        proof {
            assert(current == pos_at(start, path0, (k + 1) as nat));
            g.lemma_node_in_bounds(current);
        }
        let ci = cell_index(sz, current);
        let ghost v0 = visited@;
        visited.set(ci, true);
        proof {
            assert forall|m: nat| m <= k + 1 implies visited@[index_of(
                sz.x,
                #[trigger] pos_at(start, path0, m),
            )] by {
                let q = pos_at(start, path0, m);
                g.lemma_node_in_bounds(q);
                lemma_index_bounds(sz, q);
                if m <= k {
                    assert(v0[index_of(sz.x, q)]);
                }
            }
            assert forall|q: Pos|
                in_bounds(sz, q) && #[trigger] visited@[index_of(sz.x, q)] implies exists|m: nat|
                    m <= k + 1 && #[trigger] pos_at(start, path0, m) == q by {
                lemma_index_bounds(sz, q);
                if index_of(sz.x, q) != ci {
                    assert(v0[index_of(sz.x, q)]);
                    let m = choose|m: nat| m <= k && #[trigger] pos_at(start, path0, m) == q;
                    assert(pos_at(start, path0, m) == q);
                } else {
                    lemma_index_injective(sz, q, current);
                    assert(pos_at(start, path0, (k + 1) as nat) == q);
                }
            }
        }
        k += 1;
    }
    let mut index: usize = 0;
    current = start;
    let ghost mut steps: Seq<(int, Direction)> = Seq::empty();
    let ghost cond = path0.len() + 2 * n_cells <= usize::MAX;
    let ghost total_fuel: nat = (path0.len() + 3 * n_cells) as nat;
    let ghost mut used: nat = 0;
    proof {
        assert(path@ == replay(path0, steps));
        assert forall|q: Pos| in_bounds(sz, q) && #[trigger] visited@[index_of(sz.x, q)] implies on_walk(start, path@, q) by {
            let m = choose|m: nat| m <= path0.len() && #[trigger] pos_at(start, path0, m) == q;
        }
    }
    while index < path.len()
        invariant
            g == *adjacencies,
            g.wf(),
            g.consistent(),
            sz == g.size_spec(),
            n_cells == sz.x * sz.y,
            n_cells <= u32::MAX,
            path_ok(g, start, path@),
            path@.len() >= path0.len(),
            (path@.len() - path0.len()) % 2 == 0,
            pos_at(start, path@, path@.len()) == pos_at(start, path0, path0.len()),
            simple(start, path0) ==> simple(start, path@),
            visited@.len() == n_cells,
            index <= path@.len(),
            current == pos_at(start, path@, index as nat),
            forall|m: nat| m <= path@.len() ==> visited@[index_of(sz.x, #[trigger] pos_at(start, path@, m))],
            path@.len() - path0.len() <= 2 * count_true(visited@),
            path@ == replay(path0, steps),
            detours_ok(g, start, path0, steps),
            forall|q: Pos| in_bounds(sz, q) && #[trigger] visited@[index_of(sz.x, q)] ==> on_walk(start, path@, q),
            cond == (path0.len() + 2 * n_cells <= usize::MAX),
            cond ==> forall|i: nat, t: Direction|
                i < index && perpendicular(t, path@[i as int]) ==> !#[trigger] detour_open(g, start, path@, i, t),
            total_fuel == path0.len() + 3 * n_cells,
            2 * used == 2 * index + (path@.len() - path0.len()),
            lengthen_fuel(g, start, path@, index as nat, (total_fuel - used) as nat) == lengthen_spec(g, start, path0),
        decreases n_cells - count_true(visited@), path@.len() - index,
    {
        proof {
            lemma_count_true_bound(visited@);
            lemma_path_cells_are_nodes(g, start, path@);
        }
        let cur_dir = path[index];
        proof {
            assert(g.has_edge(current, cur_dir));
            assert(g.dirs(current).has(cur_dir) == g.neighbor_present(current, cur_dir));
        }
        let next = current.step(cur_dir);
        let ghost i = index as nat;
        proof {
            assert(next == pos_at(start, path@, i + 1));
        }
        let (first, second) = if cur_dir.is_horizontal() {
            (Direction::Up, Direction::Down)
        } else {
            (Direction::Right, Direction::Left)
        };
        let fits_first = detour_fits(adjacencies, &visited, current, next, first);
        let fits_second = if fits_first {
            false
        } else {
            detour_fits(adjacencies, &visited, current, next, second)
        };
        let detour = if fits_first {
            Some(first)
        } else if fits_second {
            Some(second)
        } else {
            None
        };
        let ghost fuel_left = (total_fuel - used) as nat;
        proof {
            lemma_fits_is_open(g, start, path@, i, first, visited@);
            lemma_fits_is_open(g, start, path@, i, second, visited@);
            assert(first == first_probe(path@[i as int]));
            assert(second == second_probe(path@[i as int]));
            lemma_count_true_bound(visited@);
            assert(used < total_fuel);
        }
        // the path must stay addressable
        let detour = if path.len() <= usize::MAX - 2 {
            detour
        } else {
            None
        };
        match detour {
            Some(t) => {
                let ghost r = path@;
                let ghost v0 = visited@;
                proof {
                    lemma_detour(g, start, r, i, t, v0);
                }
                let cur_test = current.step(t);
                let next_test = next.step(t);
                proof {
                    g.lemma_node_in_bounds(cur_test);
                    g.lemma_node_in_bounds(next_test);
                    lemma_index_bounds(sz, cur_test);
                    lemma_index_bounds(sz, next_test);
                }
                let ci = cell_index(sz, cur_test);
                let ni = cell_index(sz, next_test);
                visited.set(ci, true);
                let ghost v1 = visited@;
                visited.set(ni, true);
                proof {
                    lemma_count_true_set(v0, ci as int);
                    if ci == ni {
                        lemma_index_injective(sz, cur_test, next_test);
                    }
                    lemma_count_true_set(v1, ni as int);
                    lemma_count_true_bound(visited@);
                }
                path.insert(index, t);
                path.insert(index + 2, t.flip());
                proof {
                    let r2 = path@;
                    assert(r2 == r.insert(i as int, t).insert(i + 2 as int, flip_of(t)));
                    assert forall|m: nat| m <= r2.len() implies visited@[index_of(
                        sz.x,
                        #[trigger] pos_at(start, r2, m),
                    )] by {
                        let q = pos_at(start, r2, m);
                        if q != cur_test && q != next_test {
                            if m <= i {
                                assert(q == pos_at(start, r, m));
                            } else {
                                assert(m >= i + 3);
                                assert(q == pos_at(start, r, (m - 2) as nat));
                            }
                            assert(v0[index_of(sz.x, q)]);
                            lemma_path_cells_are_nodes(g, start, r);
                            if m <= i {
                                assert(g.has_node(pos_at(start, r, m)));
                            } else {
                                assert(g.has_node(pos_at(start, r, (m - 2) as nat)));
                            }
                            g.lemma_node_in_bounds(q);
                            lemma_index_bounds(sz, q);
                        }
                    }
                    assert(pos_at(start, r2, i) == pos_at(start, r, i));
                    if t != first {
                        assert(!detour_open(g, start, r, i, first)) by {
                            if detour_open(g, start, r, i, first) {
                                lemma_path_cells_are_nodes(g, start, r);
                                g.lemma_node_in_bounds(moved(current, first));
                                g.lemma_node_in_bounds(moved(next, first));
                                lemma_index_bounds(sz, moved(current, first));
                                lemma_index_bounds(sz, moved(next, first));
                            }
                        }
                    }
                    lemma_after_detour(g, start, path0, r, i, t, steps, v0, visited@, cond);
                    steps = steps.push((i as int, t));
                    assert(lengthen_fuel(g, start, r, i, fuel_left) == lengthen_fuel(g, start, path@, i, (fuel_left - 1) as nat));
                    used = used + 1;
                }
            },
            None => {
                proof {
                    let r = path@;
                    if cond {
                        assert(first_probe(r[i as int]) == first);
                        if fits_first || fits_second {
                            let tt = if fits_first { first } else { second };
                            g.lemma_node_in_bounds(moved(current, tt));
                            lemma_index_bounds(sz, moved(current, tt));
                            lemma_count_true_below(visited@, index_of(sz.x, moved(current, tt)));
                            assert(false);
                        }
                        if detour_open(g, start, r, i, first) || detour_open(g, start, r, i, second) {
                            let t2 = if detour_open(g, start, r, i, first) { first } else { second };
                            lemma_path_cells_are_nodes(g, start, r);
                            g.lemma_node_in_bounds(moved(current, t2));
                            g.lemma_node_in_bounds(moved(next, t2));
                            lemma_index_bounds(sz, moved(current, t2));
                            lemma_index_bounds(sz, moved(next, t2));
                        }
                        lemma_no_detour_extends(g, start, r, i, first, second);
                    }
                    assert(lengthen_fuel(g, start, r, i, fuel_left) == lengthen_fuel(g, start, r, i + 1, (fuel_left - 1) as nat));
                    used = used + 1;
                }
                current = next;
                index += 1;
            },
        }
    }
    Some(path)
}

} // verus!
