use rg::grid::Grid;
use rg::math::{IVec2, UVec2};
use rg::navmesh::{
    chunk_boundary, generate_connections, generate_edges, join_edges, sort_edges, Edge, HalfPoint,
    PointMap,
};

fn hp(x: i64, y: i64) -> HalfPoint {
    HalfPoint { x, y }
}

fn e(a: (i64, i64), b: (i64, i64)) -> Edge {
    (hp(a.0, a.1), hp(b.0, b.1))
}

#[test]
fn single_cell_square_edges() {
    let conn = Grid::from_data(UVec2::new(1, 1), vec![1u8]);
    let edges = generate_edges(&conn);
    assert_eq!(
        edges,
        vec![
            e((1, 0), (0, 0)),
            e((0, 0), (0, 1)),
            e((2, 1), (2, 0)),
            e((2, 0), (1, 0)),
            e((0, 1), (0, 2)),
            e((0, 2), (1, 2)),
            e((1, 2), (2, 2)),
            e((2, 2), (2, 1)),
        ]
    );
}

#[test]
fn single_cell_boundary_is_a_square() {
    let conn = Grid::from_data(UVec2::new(1, 1), vec![3u8]);
    let boundary = chunk_boundary(&conn);
    assert_eq!(
        boundary,
        vec![e((2, 2), (2, 0)), e((2, 0), (0, 0)), e((0, 0), (0, 2)), e((0, 2), (2, 2))]
    );
}

#[test]
fn empty_connections_have_no_boundary() {
    let conn = Grid::from_data(UVec2::new(2, 2), vec![0u8; 4]);
    assert!(generate_edges(&conn).is_empty());
    assert!(chunk_boundary(&conn).is_empty());
}

#[test]
fn boundary_chains_are_connected() {
    let conn = Grid::from_data(UVec2::new(3, 3), vec![1, 1, 0, 1, 1, 0, 0, 0, 1u8]);
    let boundary = chunk_boundary(&conn);
    assert!(!boundary.is_empty());
    let mut closed = 0;
    for w in boundary.windows(2) {
        if w[0].1 == w[1].0 {
            closed += 1;
        }
    }
    assert!(closed > 0);
}

#[test]
fn join_merges_straight_runs() {
    let chain = vec![e((0, 0), (1, 0)), e((1, 0), (2, 0)), e((2, 0), (2, 1)), e((2, 1), (2, 2))];
    assert_eq!(join_edges(&chain), vec![e((0, 0), (2, 0)), e((2, 0), (2, 2))]);
}

#[test]
fn join_folds_last_into_first_when_closed() {
    let chain = vec![e((1, 0), (2, 0)), e((2, 0), (1, 1)), e((1, 1), (0, 0)), e((0, 0), (1, 0))];
    assert_eq!(join_edges(&chain), vec![e((0, 0), (2, 0)), e((2, 0), (1, 1)), e((1, 1), (0, 0))]);
}

#[test]
fn sort_links_pieces_into_one_chain() {
    let mut edges = vec![e((2, 0), (3, 0)), e((0, 0), (1, 0)), e((5, 5), (6, 5)), e((1, 0), (2, 0))];
    sort_edges(&mut edges);
    assert_eq!(edges, vec![e((0, 0), (3, 0)), e((5, 5), (6, 5))]);
}

#[test]
fn sort_closes_single_cell_into_one_square() {
    let mut edges = generate_edges(&Grid::from_data(UVec2::new(1, 1), vec![1u8]));
    sort_edges(&mut edges);
    assert_eq!(
        edges,
        vec![e((2, 2), (2, 0)), e((2, 0), (0, 0)), e((0, 0), (0, 2)), e((0, 2), (2, 2))]
    );
}

#[test]
fn connections_follow_climbable_neighbors() {
    // heights, with -1 for cells that cannot be walked on
    let heights = Grid::from_data(UVec2::new(3, 1), vec![0i32, 1, 5]);
    let conn = generate_connections(&heights, |h: &i32| *h >= 0, |a: &i32, b: &i32| (a - b).abs() <= 1);
    assert_eq!(conn.size(), UVec2::new(3, 1));
    // right is bit 1, left is bit 3
    assert_eq!(conn.data(), &[0b0010u8, 0b1000, 0][..]);
    let holes = Grid::from_data(UVec2::new(2, 1), vec![-1i32, 0]);
    let conn = generate_connections(&holes, |h: &i32| *h >= 0, |_: &i32, _: &i32| true);
    assert_eq!(conn.data(), &[0u8, 0][..]);
    assert_eq!(conn.origin(), IVec2::zero());
}

#[test]
fn point_map_keeps_last_value() {
    let mut m = PointMap::new();
    m.insert(hp(1, 2), 3);
    m.insert(hp(1, 2), 4);
    m.insert(hp(0, 0), 5);
    assert_eq!(m.get(hp(1, 2)), Some(4));
    m.remove(hp(1, 2));
    assert_eq!(m.get(hp(1, 2)), None);
    assert_eq!(m.get(hp(0, 0)), Some(5));
}

#[test]
fn square_chunk_boundary_closes() {
    // an L-shaped area with a hole-free outline on a 4 by 4 chunk
    let conn = Grid::from_data(
        UVec2::new(4, 4),
        vec![1u8, 1, 0, 0, 1, 1, 0, 0, 1, 1, 1, 1, 0, 1, 1, 0],
    );
    let edges = generate_edges(&conn);
    assert!(!edges.is_empty());
    for a in &edges {
        assert_eq!(edges.iter().filter(|b| b.0 == a.1).count(), 1);
        assert_eq!(edges.iter().filter(|b| b.1 == a.0).count(), 1);
    }
    let boundary = chunk_boundary(&conn);
    assert!(boundary.len() < edges.len());
    for a in &boundary {
        assert_eq!(boundary.iter().filter(|b| b.0 == a.1).count(), 1);
    }
}
