use snake_solver::adjacency::AdjacencyGraph;
use snake_solver::geometry::{Direction, Pos};
use snake_solver::pathfinding::{longest_path, shortest_path};

fn p(x: u32, y: u32) -> Pos {
    Pos::new(x, y)
}

fn walk(start: Pos, path: &[Direction]) -> Vec<Pos> {
    let mut cells = vec![start];
    let mut cur = start;
    for d in path {
        cur = cur.step(*d);
        cells.push(cur);
    }
    cells
}

#[test]
fn shortest_path_straight_ahead_on_empty_grid() {
    let g = AdjacencyGraph::full(p(4, 4));
    let path = shortest_path(p(1, 1), p(3, 1), Direction::Right, &g);
    assert_eq!(path, Some(vec![Direction::Right, Direction::Right]));
}

#[test]
fn shortest_path_none_when_head_boxed_in() {
    let mut g = AdjacencyGraph::full(p(5, 5));
    for q in [p(2, 3), p(2, 1), p(1, 2), p(3, 2)] {
        g.remove(q);
    }
    assert_eq!(shortest_path(p(2, 2), p(4, 4), Direction::Up, &g), None);
    assert!(shortest_path(p(0, 0), p(4, 4), Direction::Up, &g).is_some());
}

#[test]
fn shortest_path_never_reverses_first_step() {
    let g = AdjacencyGraph::full(p(4, 4));
    // the goal lies straight behind; the path must go around
    let path = shortest_path(p(2, 1), p(1, 1), Direction::Right, &g).unwrap();
    assert_ne!(path[0], Direction::Left);
    assert_eq!(path.len(), 3);
    assert_eq!(*walk(p(2, 1), &path).last().unwrap(), p(1, 1));
}

#[test]
fn shortest_path_to_start_is_empty() {
    let g = AdjacencyGraph::full(p(3, 3));
    assert_eq!(shortest_path(p(1, 1), p(1, 1), Direction::Up, &g), Some(vec![]));
}

#[test]
fn shortest_path_around_a_wall() {
    let mut g = AdjacencyGraph::full(p(5, 3));
    g.remove(p(2, 0));
    g.remove(p(2, 1));
    let path = shortest_path(p(0, 0), p(4, 0), Direction::Up, &g).unwrap();
    assert_eq!(path.len(), 8);
    let cells = walk(p(0, 0), &path);
    assert_eq!(*cells.last().unwrap(), p(4, 0));
    assert!(!cells.contains(&p(2, 0)) && !cells.contains(&p(2, 1)));
}

#[test]
fn shortest_path_none_when_goal_walled_off() {
    let mut g = AdjacencyGraph::full(p(5, 3));
    for y in 0..3 {
        g.remove(p(2, y));
    }
    assert_eq!(shortest_path(p(0, 0), p(4, 2), Direction::Up, &g), None);
}

#[test]
fn longest_path_keeps_ends_and_never_revisits() {
    let g = AdjacencyGraph::full(p(4, 4));
    let start = p(0, 0);
    let input = vec![Direction::Right, Direction::Right];
    let out = longest_path(start, &g, input.clone()).unwrap();
    assert!(out.len() >= input.len());
    assert_eq!((out.len() - input.len()) % 2, 0);
    let cells = walk(start, &out);
    assert_eq!(cells[0], start);
    assert_eq!(*cells.last().unwrap(), p(2, 0));
    for i in 0..cells.len() {
        for j in (i + 1)..cells.len() {
            assert_ne!(cells[i], cells[j]);
        }
    }
    for i in 0..out.len() {
        assert!(g.get_directions(cells[i]).contains(out[i]));
    }
    // the first detour turns up beside the first step
    assert_eq!(out[0], Direction::Up);
    assert!(out.len() > input.len());
}

#[test]
fn longest_path_of_empty_path_is_none() {
    let g = AdjacencyGraph::full(p(3, 3));
    assert_eq!(longest_path(p(1, 1), &g, vec![]), None);
}

#[test]
fn longest_path_without_room_is_unchanged() {
    let mut g = AdjacencyGraph::full(p(3, 1));
    g.remove(p(2, 0));
    let out = longest_path(p(0, 0), &g, vec![Direction::Right]).unwrap();
    assert_eq!(out, vec![Direction::Right]);
}

#[test]
fn shortest_path_on_open_board_has_manhattan_length() {
    let g = AdjacencyGraph::full(p(6, 5));
    for (sx, sy, gx, gy) in [(0, 0, 5, 4), (2, 3, 4, 0), (5, 1, 1, 1)] {
        let start = p(sx, sy);
        let goal = p(gx, gy);
        // entering heading up, a goal straight below needs a detour; any other goal does not
        let path = shortest_path(start, goal, Direction::Up, &g).unwrap();
        let want = sx.abs_diff(gx) + sy.abs_diff(gy);
        if sy > gy && sx == gx {
            assert!(path.len() as u32 >= want);
        } else {
            assert_eq!(path.len() as u32, want);
        }
        assert_eq!(*walk(start, &path).last().unwrap(), goal);
    }
}

#[test]
fn shortest_path_through_a_maze() {
    // a wall with one gap at the top
    let mut g = AdjacencyGraph::full(p(5, 5));
    for y in 0..4 {
        g.remove(p(2, y));
    }
    let path = shortest_path(p(0, 0), p(4, 0), Direction::Right, &g).unwrap();
    assert_eq!(path.len(), 12);
    let cells = walk(p(0, 0), &path);
    assert!(cells.contains(&p(2, 4)));
}

#[test]
fn shortest_path_breaks_ties_by_cost_then_discovery() {
    let g = AdjacencyGraph::full(p(3, 3));
    // up and right tie; up is discovered first and its route reaches the goal first
    let a = shortest_path(p(0, 0), p(1, 1), Direction::Up, &g);
    let b = shortest_path(p(0, 0), p(1, 1), Direction::Up, &g);
    assert_eq!(a, Some(vec![Direction::Up, Direction::Right]));
    assert_eq!(a, b);
}
