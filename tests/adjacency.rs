use snake_solver::adjacency::AdjacencyGraph;
use snake_solver::geometry::{Direction, Directions, Pos};

fn p(x: u32, y: u32) -> Pos {
    Pos::new(x, y)
}

const ALL: [Direction; 4] = [Direction::Up, Direction::Down, Direction::Left, Direction::Right];

/// Recomputes each mask from occupancy and compares with the graph.
fn matches_occupancy(g: &AdjacencyGraph, w: u32, h: u32) -> bool {
    for x in 0..w {
        for y in 0..h {
            let q = p(x, y);
            if !g.contains(q) {
                if g.get_directions(q) != Directions::none() {
                    return false;
                }
                continue;
            }
            for d in ALL {
                let expected = match q.checked_step(d) {
                    Some(n) => n.x < w && n.y < h && g.contains(n),
                    None => false,
                };
                if g.get_directions(q).contains(d) != expected {
                    return false;
                }
            }
        }
    }
    true
}

#[test]
fn full_graph_masks_follow_the_border() {
    let g = AdjacencyGraph::full(p(3, 2));
    let corner = g.get_directions(p(0, 0));
    assert!(corner.up() && corner.right() && !corner.down() && !corner.left());
    let edge = g.get_directions(p(1, 1));
    assert!(!edge.up() && edge.down() && edge.left() && edge.right());
    assert!(matches_occupancy(&g, 3, 2));
}

#[test]
fn insert_and_remove_keep_masks_in_step_with_occupancy() {
    let mut g = AdjacencyGraph::full(p(4, 3));
    let steps = [p(1, 1), p(2, 1), p(0, 0), p(3, 2), p(1, 2)];
    for q in steps {
        g.remove(q);
        assert!(matches_occupancy(&g, 4, 3));
        assert!(!g.contains(q));
    }
    g.insert(p(2, 1));
    assert!(matches_occupancy(&g, 4, 3));
    g.remove(p(2, 1));
    g.remove(p(2, 1));
    assert!(matches_occupancy(&g, 4, 3));
    for q in steps {
        g.insert(q);
        assert!(matches_occupancy(&g, 4, 3));
    }
    let full = AdjacencyGraph::full(p(4, 3));
    for x in 0..4 {
        for y in 0..3 {
            assert_eq!(g.get_directions(p(x, y)), full.get_directions(p(x, y)));
        }
    }
}

#[test]
fn removed_cell_leaves_its_neighbours() {
    let mut g = AdjacencyGraph::full(p(3, 3));
    g.remove(p(1, 1));
    assert_eq!(g.get_directions(p(1, 1)), Directions::none());
    assert!(!g.get_directions(p(1, 2)).down());
    assert!(!g.get_directions(p(1, 0)).up());
    assert!(!g.get_directions(p(0, 1)).right());
    assert!(!g.get_directions(p(2, 1)).left());
}

#[test]
fn neighbors_come_up_down_right_left() {
    let g = AdjacencyGraph::full(p(3, 3));
    let n = g.get_neighbors(p(1, 1));
    assert_eq!(
        n,
        vec![
            (p(1, 2), Direction::Up),
            (p(1, 0), Direction::Down),
            (p(2, 1), Direction::Right),
            (p(0, 1), Direction::Left),
        ]
    );
    let corner = g.get_neighbors(p(0, 0));
    assert_eq!(corner, vec![(p(0, 1), Direction::Up), (p(1, 0), Direction::Right)]);
}

#[test]
fn segments_are_recorded_and_forgotten() {
    let mut g = AdjacencyGraph::full(p(3, 3));
    assert_eq!(g.get_segment_direction(p(2, 2)), None);
    g.insert_snake_segment(p(2, 2), Direction::Left);
    assert_eq!(g.get_segment_direction(p(2, 2)), Some(Direction::Left));
    g.remove_snake_segment(p(2, 2));
    assert_eq!(g.get_segment_direction(p(2, 2)), None);
}

#[test]
fn reset_empties_the_graph() {
    let mut g = AdjacencyGraph::full(p(3, 3));
    g.insert_snake_segment(p(0, 0), Direction::Up);
    g.reset();
    for x in 0..3 {
        for y in 0..3 {
            assert!(!g.contains(p(x, y)));
            assert_eq!(g.get_segment_direction(p(x, y)), None);
        }
    }
}

#[test]
fn out_of_board_queries_are_empty() {
    let g = AdjacencyGraph::full(p(2, 2));
    assert!(!g.contains(p(5, 0)));
    assert_eq!(g.get_directions(p(0, 9)), Directions::none());
}

#[test]
fn new_takes_the_given_masks() {
    let masks = vec![Some(Directions::none().with(Direction::Right)), None];
    let g = AdjacencyGraph::new(masks, p(2, 1));
    assert!(g.contains(p(0, 0)));
    assert!(!g.contains(p(1, 0)));
    assert!(g.get_directions(p(0, 0)).right());
}
