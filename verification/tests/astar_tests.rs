use grid_astar::grid::{build_grid, init, init_neighbors, Point};
use grid_astar::heuristic::{euclidean_floor, isqrt};
use grid_astar::search::{astar, find_path, reconstruct_path, INFINITY};

fn h(a: Point, b: Point) -> usize {
    euclidean_floor(a, b)
}

fn pt(x: usize, y: usize) -> Point {
    Point { x, y }
}

#[test]
fn isqrt_exact_values() {
    assert_eq!(isqrt(0), 0);
    assert_eq!(isqrt(1), 1);
    assert_eq!(isqrt(2), 1);
    assert_eq!(isqrt(3), 1);
    assert_eq!(isqrt(4), 2);
    assert_eq!(isqrt(8), 2);
    assert_eq!(isqrt(9), 3);
    assert_eq!(isqrt(168), 12);
    assert_eq!(isqrt(169), 13);
}

#[test]
fn euclidean_floor_exact_values() {
    assert_eq!(euclidean_floor(pt(0, 0), pt(3, 4)), 5);
    assert_eq!(euclidean_floor(pt(3, 4), pt(0, 0)), 5);
    assert_eq!(euclidean_floor(pt(0, 0), pt(1, 1)), 1);
    assert_eq!(euclidean_floor(pt(2, 2), pt(2, 2)), 0);
    assert_eq!(euclidean_floor(pt(0, 0), pt(2, 3)), 3);
    assert_eq!(euclidean_floor(pt(9, 9), pt(0, 0)), 12);
}

#[test]
fn init_lays_out_row_major() {
    let nodes = init(3, 3);
    assert_eq!(nodes.len(), 9);
    assert_eq!(nodes[0].p, pt(0, 0));
    assert_eq!(nodes[4].p, pt(1, 1));
    assert_eq!(nodes[7].p, pt(1, 2));
    for n in &nodes {
        assert!(n.neighbors.is_empty());
    }
}

#[test]
fn init_neighbors_wires_diagonals() {
    let mut nodes = init(3, 3);
    init_neighbors(3, 3, &mut nodes);
    // corner (0,0): only (1,1)
    assert_eq!(nodes[0].neighbors, vec![4]);
    // edge (1,0): (0,1) and (2,1)
    assert_eq!(nodes[1].neighbors, vec![3, 5]);
    // center (1,1): all four corners, in the fixed offset order
    assert_eq!(nodes[4].neighbors, vec![0, 6, 2, 8]);
    // corner (2,2): only (1,1)
    assert_eq!(nodes[8].neighbors, vec![4]);
}

#[test]
fn start_equals_goal_gives_single_cell_path() {
    let g = build_grid(3, 3);
    let p = find_path(&g, pt(1, 1), pt(1, 1), h).unwrap();
    assert_eq!(p, vec![pt(1, 1)]);
}

#[test]
fn three_by_three_diagonal_two_steps() {
    let g = build_grid(3, 3);
    let p = find_path(&g, pt(0, 0), pt(2, 2), h).unwrap();
    assert_eq!(p, vec![pt(0, 0), pt(1, 1), pt(2, 2)]);
}

#[test]
fn ten_by_ten_diagonal_nine_steps() {
    let g = build_grid(10, 10);
    let p = find_path(&g, pt(0, 0), pt(9, 9), h).unwrap();
    assert_eq!(p.len(), 10);
    assert_eq!(p[0], pt(0, 0));
    assert_eq!(p[9], pt(9, 9));
}

#[test]
fn path_endpoints_and_edges_are_wired() {
    let g = build_grid(10, 10);
    let p = find_path(&g, pt(2, 7), pt(8, 1), h).unwrap();
    assert_eq!(*p.first().unwrap(), pt(2, 7));
    assert_eq!(*p.last().unwrap(), pt(8, 1));
    for pair in p.windows(2) {
        let dx = pair[0].x.abs_diff(pair[1].x);
        let dy = pair[0].y.abs_diff(pair[1].y);
        assert_eq!(dx, 1);
        assert_eq!(dy, 1);
    }
}

#[test]
fn step_count_matches_minimum_hops_and_grows_with_distance() {
    let mut previous: usize = 0;
    for d in 2..8usize {
        let g = build_grid(d, d);
        let p = find_path(&g, pt(0, 0), pt(d - 1, d - 1), h).unwrap();
        let steps = p.len() - 1;
        // minimum number of diagonal hops between the corners
        assert_eq!(steps, d - 1);
        // non-decreasing as the grid grows along the same direct line
        assert!(steps >= previous);
        previous = steps;
    }
}

#[test]
fn parity_disconnected_cells_give_no_path() {
    // a diagonal hop flips neither coordinate parity sum: (0,0) and (1,0)
    // can never be connected by diagonal moves
    let g = build_grid(2, 2);
    assert_eq!(find_path(&g, pt(0, 0), pt(1, 0), h), None);
    let g2 = build_grid(5, 5);
    assert_eq!(find_path(&g2, pt(0, 0), pt(3, 4), h), None);
}

#[test]
fn repeated_runs_are_deterministic() {
    let g1 = build_grid(5, 5);
    let first = find_path(&g1, pt(0, 0), pt(4, 2), h);
    let g2 = build_grid(5, 5);
    let second = find_path(&g2, pt(0, 0), pt(4, 2), h);
    assert_eq!(first, second);
    assert!(first.is_some());
}

#[test]
fn astar_returns_goal_first_index_path() {
    let g = build_grid(3, 3);
    let p = astar(&g.nodes, 0, 8, h).unwrap();
    assert_eq!(p, vec![8, 4, 0]);
}

#[test]
fn astar_reports_unreachable_goal() {
    let g = build_grid(2, 2);
    // index 1 is (1,0), on the other parity class than (0,0)
    assert_eq!(astar(&g.nodes, 0, 1, h), None);
}

#[test]
fn reconstruct_path_walks_parent_links() {
    let g = build_grid(2, 2);
    let par: Vec<Option<usize>> = vec![None, None, None, Some(0)];
    let scores: Vec<usize> = vec![0, INFINITY, INFINITY, 1];
    let p = reconstruct_path(&g.nodes, &par, &scores, 3);
    assert_eq!(p, vec![3, 0]);
}

#[test]
fn same_graph_serves_repeated_searches() {
    let g = build_grid(6, 6);
    let first = find_path(&g, pt(1, 1), pt(5, 5), h);
    let second = find_path(&g, pt(1, 1), pt(5, 5), h);
    assert_eq!(first, second);
    assert!(first.is_some());
}

#[test]
fn node_equality_is_by_coordinates() {
    let unwired = init(3, 3);
    let wired = build_grid(3, 3);
    // same coordinates, different wiring: still equal
    assert!(unwired[4] == wired.nodes[4]);
    assert!(unwired[0] != unwired[1]);
}

#[test]
fn default_node_is_unwired_origin() {
    let n = grid_astar::grid::Node::default();
    assert_eq!(n.p, pt(0, 0));
    assert!(n.neighbors.is_empty());
}

#[test]
fn off_diagonal_pair_takes_minimum_hops() {
    // (0,0) to (6,8): the euclidean floor (10) exceeds the true cost (8),
    // yet the search still finds a minimal path here
    let g = build_grid(10, 10);
    let p = find_path(&g, pt(0, 0), pt(6, 8), h).unwrap();
    assert_eq!(p.len(), 9);
}

#[test]
fn rectangle_zigzag_takes_minimum_hops() {
    let g = build_grid(4, 2);
    let p = find_path(&g, pt(0, 0), pt(3, 1), h).unwrap();
    assert_eq!(p.len(), 4);
}
