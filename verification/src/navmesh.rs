use vstd::multiset::Multiset;
use vstd::prelude::*;

use crate::grid::{center_fits, neighborhood_4_spec, offset_cell, Grid};
use crate::math::{IVec2, UVec2};

verus! {

/// A point of a chunk in half-cell units: `(2 * x + 1, 2 * y + 1)` is the
/// center of cell `(x, y)`, even coordinates fall on cell borders.
#[derive(Clone, Copy, Debug, PartialEq, Eq, Structural, Hash)]
pub struct HalfPoint {
    pub x: i64,
    pub y: i64,
}

/// A directed boundary segment of the walkable area, from `.0` to `.1`.
pub type Edge = (HalfPoint, HalfPoint);

/// The point at offset `(ox, oy)` half cells from the top-left of the
/// half-cell box around the center of `cell`.
pub open spec fn half_point(cell: IVec2, ox: int, oy: int) -> HalfPoint {
    HalfPoint { x: (2 * cell.x + ox + 1) as i64, y: (2 * cell.y + oy + 1) as i64 }
}

/// The segment from offset `(a, b)` to offset `(c, d)` of `cell`.
pub open spec fn seg(cell: IVec2, a: int, b: int, c: int, d: int) -> Edge {
    (half_point(cell, a, b), half_point(cell, c, d))
}

/// The boundary segments that marching squares draws in the square whose
/// corners are the centers of `cell`, `cell + (1, 0)`, `cell + (1, 1)` and
/// `cell + (0, 1)`. `case` has bit 0, 1, 2, 3 set when the respective corner
/// is connected; at the corners of the chunk the single-corner cases are
/// drawn through the middle of the square.
pub open spec fn cell_edges(cell: IVec2, case: int, corner: bool) -> Seq<Edge> {
    if case == 1 && corner {
        seq![seg(cell, 0, 1, 1, 1), seg(cell, 1, 1, 1, 0)]
    } else if case == 1 {
        seq![seg(cell, 0, 1, 1, 0)]
    } else if case == 2 && corner {
        seq![seg(cell, 1, 0, 1, 1), seg(cell, 1, 1, 2, 1)]
    } else if case == 2 {
        seq![seg(cell, 1, 0, 2, 1)]
    } else if case == 3 {
        seq![seg(cell, 0, 1, 2, 1)]
    } else if case == 4 && corner {
        seq![seg(cell, 2, 1, 1, 1), seg(cell, 1, 1, 1, 2)]
    } else if case == 4 {
        seq![seg(cell, 2, 1, 1, 2)]
    } else if case == 5 {
        seq![seg(cell, 0, 1, 1, 0), seg(cell, 2, 1, 1, 2)]
    } else if case == 6 {
        seq![seg(cell, 1, 0, 1, 2)]
    } else if case == 7 {
        seq![seg(cell, 0, 1, 1, 2)]
    } else if case == 8 && corner {
        seq![seg(cell, 1, 2, 1, 1), seg(cell, 1, 1, 0, 1)]
    } else if case == 8 {
        seq![seg(cell, 1, 2, 0, 1)]
    } else if case == 9 {
        seq![seg(cell, 1, 2, 1, 0)]
    } else if case == 10 {
        seq![seg(cell, 1, 0, 2, 1), seg(cell, 1, 2, 0, 1)]
    } else if case == 11 {
        seq![seg(cell, 1, 2, 2, 1)]
    } else if case == 12 {
        seq![seg(cell, 2, 1, 0, 1)]
    } else if case == 13 {
        seq![seg(cell, 2, 1, 1, 0)]
    } else if case == 14 {
        seq![seg(cell, 1, 0, 0, 1)]
    } else {
        seq![]
    }
}

/// Whether the cell at `cell + (dx, dy)` lies in the grid and has a
/// connection.
pub open spec fn connected_at(conn: &Grid<u8>, cell: IVec2, dx: int, dy: int) -> bool {
    let c = IVec2 { x: (cell.x + dx) as i32, y: (cell.y + dy) as i32 };
    conn.in_grid(c) && conn.value(c) > 0
}

/// The marching-squares case of the square at `cell`.
pub open spec fn square_case(conn: &Grid<u8>, cell: IVec2) -> int {
    (if connected_at(conn, cell, 0, 0) { 1int } else { 0 }) + (if connected_at(conn, cell, 1, 0) {
        2int
    } else {
        0
    }) + (if connected_at(conn, cell, 1, 1) { 4int } else { 0 }) + (if connected_at(conn, cell, 0, 1) {
        8int
    } else {
        0
    })
}

/// Whether `cell` is one of the four corner squares visited by
/// [`generate_edges`] on a grid of `w` by `h` connections.
pub open spec fn is_corner_square(cell: IVec2, w: int, h: int) -> bool {
    ||| (cell.x == -1 && cell.y == -1)
    ||| (cell.x == w - 1 && cell.y == h - 1)
    ||| (cell.x == -1 && cell.y == h - 1)
    ||| (cell.x == w - 1 && cell.y == -1)
}

/// The segments of the square at `cell`.
pub open spec fn square_edges(conn: &Grid<u8>, cell: IVec2) -> Seq<Edge> {
    cell_edges(
        cell,
        square_case(conn, cell),
        is_corner_square(cell, conn.spec_size().x as int, conn.spec_size().y as int),
    )
}

/// A square with exactly one connected corner that is not one of the four
/// squares at the chunk's corners cuts that corner off with one diagonal
/// segment, from the middle of one side of the square to the middle of the
/// adjacent side.
pub proof fn lemma_single_corner_cut_by_diagonal(conn: &Grid<u8>, cell: IVec2)
    requires
        !((cell.x == -1 || cell.x == conn.spec_size().x - 1) && (cell.y == -1 || cell.y
            == conn.spec_size().y - 1)),
        square_case(conn, cell) == 1 || square_case(conn, cell) == 2 || square_case(conn, cell) == 4
            || square_case(conn, cell) == 8,
    ensures
        square_edges(conn, cell).len() == 1,
        ({
            let e = square_edges(conn, cell)[0];
            &&& e.0.x != e.1.x
            &&& e.0.y != e.1.y
            &&& (e.0.x == 2 * cell.x + 2 || e.0.y == 2 * cell.y + 2)
            &&& (e.1.x == 2 * cell.x + 2 || e.1.y == 2 * cell.y + 2)
        }),
{
}

/// At the four corners of the chunk, a square with exactly one connected
/// corner draws two segments through the middle of the square instead.
pub proof fn lemma_single_corner_at_chunk_corner(conn: &Grid<u8>, cell: IVec2)
    requires
        (cell.x == -1 || cell.x == conn.spec_size().x - 1) && (cell.y == -1 || cell.y == conn.spec_size().y
            - 1),
        square_case(conn, cell) == 1 || square_case(conn, cell) == 2 || square_case(conn, cell) == 4
            || square_case(conn, cell) == 8,
    ensures
        square_edges(conn, cell).len() == 2,
        square_edges(conn, cell)[0].1 == half_point(cell, 1, 1),
        square_edges(conn, cell)[1].0 == half_point(cell, 1, 1),
{
}

/// Segments of the first `m` squares of the row visited with outer
/// coordinate `y`: the squares `(-1, y)`, `(0, y)`, ...
pub open spec fn row_edges(conn: &Grid<u8>, y: int, m: nat) -> Seq<Edge>
    decreases m,
{
    if m == 0 {
        seq![]
    } else {
        row_edges(conn, y, (m - 1) as nat) + square_edges(
            conn,
            IVec2 { x: (m - 2) as i32, y: y as i32 },
        )
    }
}

/// Segments of the first `n` rows visited by [`generate_edges`]: outer
/// coordinates `-1, 0, ...`, each row running over `conn.size().y + 1`
/// squares.
pub open spec fn rows_edges(conn: &Grid<u8>, n: nat) -> Seq<Edge>
    decreases n,
{
    if n == 0 {
        seq![]
    } else {
        rows_edges(conn, (n - 1) as nat) + row_edges(
            conn,
            n - 2,
            (conn.spec_size().y + 1) as nat,
        )
    }
}

/// The point at offset `(ox, oy)` half cells of `cell`.
fn make_point(cell: IVec2, ox: i64, oy: i64) -> (r: HalfPoint)
    requires
        0 <= ox <= 2,
        0 <= oy <= 2,
    ensures
        r == half_point(cell, ox as int, oy as int),
{
    HalfPoint { x: 2 * (cell.x as i64) + ox + 1, y: 2 * (cell.y as i64) + oy + 1 }
}

fn push_seg(edges: &mut Vec<Edge>, cell: IVec2, a: i64, b: i64, c: i64, d: i64)
    requires
        0 <= a <= 2,
        0 <= b <= 2,
        0 <= c <= 2,
        0 <= d <= 2,
    ensures
        final(edges)@ == old(edges)@.push(seg(cell, a as int, b as int, c as int, d as int)),
{
    let p = make_point(cell, a, b);
    let q = make_point(cell, c, d);
    edges.push((p, q));
}

/// Appends the segments of case `case` at `cell`.
fn push_cell_edges(edges: &mut Vec<Edge>, cell: IVec2, case: u8, corner: bool)
    ensures
        final(edges)@ == old(edges)@ + cell_edges(cell, case as int, corner),
{
    let ghost e0 = edges@;
    if case == 1 && corner {
        push_seg(edges, cell, 0, 1, 1, 1);
        push_seg(edges, cell, 1, 1, 1, 0);
    } else if case == 1 {
        push_seg(edges, cell, 0, 1, 1, 0);
    } else if case == 2 && corner {
        push_seg(edges, cell, 1, 0, 1, 1);
        push_seg(edges, cell, 1, 1, 2, 1);
    } else if case == 2 {
        push_seg(edges, cell, 1, 0, 2, 1);
    } else if case == 3 {
        push_seg(edges, cell, 0, 1, 2, 1);
    } else if case == 4 && corner {
        push_seg(edges, cell, 2, 1, 1, 1);
        push_seg(edges, cell, 1, 1, 1, 2);
    } else if case == 4 {
        push_seg(edges, cell, 2, 1, 1, 2);
    } else if case == 5 {
        push_seg(edges, cell, 0, 1, 1, 0);
        push_seg(edges, cell, 2, 1, 1, 2);
    } else if case == 6 {
        push_seg(edges, cell, 1, 0, 1, 2);
    } else if case == 7 {
        push_seg(edges, cell, 0, 1, 1, 2);
    } else if case == 8 && corner {
        push_seg(edges, cell, 1, 2, 1, 1);
        push_seg(edges, cell, 1, 1, 0, 1);
    } else if case == 8 {
        push_seg(edges, cell, 1, 2, 0, 1);
    } else if case == 9 {
        push_seg(edges, cell, 1, 2, 1, 0);
    } else if case == 10 {
        push_seg(edges, cell, 1, 0, 2, 1);
        push_seg(edges, cell, 1, 2, 0, 1);
    } else if case == 11 {
        push_seg(edges, cell, 1, 2, 2, 1);
    } else if case == 12 {
        push_seg(edges, cell, 2, 1, 0, 1);
    } else if case == 13 {
        push_seg(edges, cell, 2, 1, 1, 0);
    } else if case == 14 {
        push_seg(edges, cell, 1, 0, 0, 1);
    }
    assert(edges@ =~= e0 + cell_edges(cell, case as int, corner));
}

/// 1 when the cell at `cell + (dx, dy)` lies in the grid and has a
/// connection, else 0.
fn connected_bit(conn: &Grid<u8>, cell: IVec2, dx: i32, dy: i32) -> (r: u8)
    requires
        conn.wf(),
        0 <= dx <= 1,
        0 <= dy <= 1,
        cell.x + dx <= i32::MAX,
        cell.y + dy <= i32::MAX,
    ensures
        r == (if connected_at(conn, cell, dx as int, dy as int) { 1u8 } else { 0u8 }),
{
    match conn.get(IVec2 { x: cell.x + dx, y: cell.y + dy }) {
        Some(v) => if *v > 0 { 1 } else { 0 },
        None => 0,
    }
}

/// The boundary of the connected area of a chunk, as marching-squares
/// segments in half-cell units. Squares are visited for outer coordinate
/// `y` from `-1` to `width - 1` and, within, `x` from `-1` to
/// `height - 1`; each square `(x, y)` adds the segments of its case.
pub fn generate_edges(connections: &Grid<u8>) -> (r: Vec<Edge>)
    requires
        connections.wf(),
        connections.spec_size().x <= i32::MAX,
        connections.spec_size().y <= i32::MAX,
    ensures
        r@ == rows_edges(connections, (connections.spec_size().x + 1) as nat),
{
    let size = connections.size();
    let w = size.x as i32;
    let h = size.y as i32;
    let mut edges: Vec<Edge> = Vec::new();
    let mut y: i32 = -1;
    while y <= w - 1
        invariant
            connections.wf(),
            size == connections.spec_size(),
            w == size.x,
            h == size.y,
            -1 <= y <= w,
            edges@ == rows_edges(connections, (y + 1) as nat),
        decreases w - y,
    {
        let ghost before_row = edges@;
        let mut x: i32 = -1;
        while x <= h - 1
            invariant
                connections.wf(),
                size == connections.spec_size(),
                w == size.x,
                h == size.y,
                -1 <= y <= w - 1,
                -1 <= x <= h,
                before_row == rows_edges(connections, (y + 1) as nat),
                edges@ == before_row + row_edges(connections, y as int, (x + 1) as nat),
            decreases h - x,
        {
            let cell = IVec2 { x, y };
            let b0 = connected_bit(connections, cell, 0, 0);
            let b1 = connected_bit(connections, cell, 1, 0);
            let b2 = connected_bit(connections, cell, 1, 1);
            let b3 = connected_bit(connections, cell, 0, 1);
            let case = b0 + 2 * b1 + 4 * b2 + 8 * b3;
            let corner = (x == -1 && y == -1) || (x == w - 1 && y == h - 1) || (x == -1 && y == h - 1) || (
            x == w - 1 && y == -1);
            proof {
                assert(case as int == square_case(connections, cell));
                assert(corner == is_corner_square(cell, w as int, h as int));
            }
            push_cell_edges(&mut edges, cell, case, corner);
            proof {
                assert(row_edges(connections, y as int, (x + 2) as nat) == row_edges(
                    connections,
                    y as int,
                    (x + 1) as nat,
                ) + square_edges(connections, cell));
                assert(edges@ =~= before_row + row_edges(connections, y as int, (x + 2) as nat));
            }
            x = x + 1;
        }
        proof {
            assert(rows_edges(connections, (y + 2) as nat) == rows_edges(connections, (y + 1) as nat)
                + row_edges(connections, y as int, (h + 1) as nat));
        }
        y = y + 1;
    }
    edges
}

/// Both coordinates of `p` lie within the range of half-cell points of
/// `i32` cells.
pub open spec fn point_in_range(p: HalfPoint) -> bool {
    &&& -0x2_0000_0000 <= p.x <= 0x2_0000_0000
    &&& -0x2_0000_0000 <= p.y <= 0x2_0000_0000
}

pub open spec fn edges_in_range(edges: Seq<Edge>) -> bool {
    forall|i: int| 0 <= i < edges.len() ==> point_in_range(#[trigger] edges[i].0) && point_in_range(edges[i].1)
}

/// The 2D cross product of the directions `p1 - p0` and `q1 - q0`.
pub open spec fn perp_dot(p0: HalfPoint, p1: HalfPoint, q0: HalfPoint, q1: HalfPoint) -> int {
    (p1.x - p0.x) * (q1.y - q0.y) - (p1.y - p0.y) * (q1.x - q0.x)
}

/// `b` starts where `a` ends and runs in the same line as `a`.
pub open spec fn continues(a: Edge, b: Edge) -> bool {
    b.0 == a.1 && perp_dot(b.0, b.1, a.0, a.1) == 0
}

/// Each segment merged into the previous result segment when it continues
/// it in a straight line, kept as a new segment otherwise.
pub open spec fn merge_straight(edges: Seq<Edge>) -> Seq<Edge>
    decreases edges.len(),
{
    if edges.len() == 0 {
        seq![]
    } else {
        let prev = merge_straight(edges.drop_last());
        let b = edges.last();
        if prev.len() > 0 && continues(prev.last(), b) {
            prev.update(prev.len() - 1, (prev.last().0, b.1))
        } else {
            prev.push(b)
        }
    }
}

/// [`merge_straight`], then the last segment folded into the first when
/// the first starts where the last ends and both lie in one line.
pub open spec fn join_spec(edges: Seq<Edge>) -> Seq<Edge> {
    let res = merge_straight(edges);
    let first = res[0];
    let last = res[res.len() - 1];
    if first.0 == last.1 && perp_dot(first.1, first.0, last.1, last.0) == 0 {
        res.update(0, (last.0, first.1)).drop_last()
    } else {
        res
    }
}

/// The dot product of the directions of `a` and `b`.
pub open spec fn dot_dir(a: Edge, b: Edge) -> int {
    (a.1.x - a.0.x) * (b.1.x - b.0.x) + (a.1.y - a.0.y) * (b.1.y - b.0.y)
}

/// `a` and `b` run along parallel lines in the same direction.
pub open spec fn same_direction(a: Edge, b: Edge) -> bool {
    perp_dot(a.0, a.1, b.0, b.1) == 0 && dot_dir(a, b) > 0
}

/// Every segment has length, and two segments that follow each other in a
/// straight line, each starting where the one before ends (the last one
/// followed by the first when the chain closes), run the same way.
pub open spec fn runs_forward(edges: Seq<Edge>) -> bool {
    &&& forall|i: int| 0 <= i < edges.len() ==> (#[trigger] edges[i]).0 != edges[i].1
    &&& forall|i: int, j: int|
        0 <= i && j == i + 1 && j < edges.len() && (#[trigger] edges[j]).0 == (#[trigger] edges[i]).1
            && perp_dot(edges[j].0, edges[j].1, edges[i].0, edges[i].1) == 0 ==> dot_dir(edges[i], edges[j]) > 0
}

proof fn lemma_expand_pp(a: int, b: int, c: int, d: int)
    by (nonlinear_arith)
    ensures
        (a + b) * (c + d) == a * c + a * d + b * c + b * d,
{
}

proof fn lemma_expand_mp(a: int, b: int, c: int, d: int)
    by (nonlinear_arith)
    ensures
        (a - b) * (c + d) == a * c + a * d - b * c - b * d,
{
}

proof fn lemma_expand_pm(a: int, b: int, c: int, d: int)
    by (nonlinear_arith)
    ensures
        (a + b) * (c - d) == a * c - a * d + b * c - b * d,
{
}

proof fn lemma_expand_mm(a: int, b: int, c: int, d: int)
    by (nonlinear_arith)
    ensures
        (a - b) * (c - d) == a * c - a * d - b * c + b * d,
{
}

/// `(a * b) * (c * d)` regrouped as `(a * c) * (b * d)`.
proof fn lemma_regroup(a: int, b: int, c: int, d: int)
    by (nonlinear_arith)
    ensures
        (a * b) * (c * d) == (a * c) * (b * d),
        (a * b) * (c * d) == (a * d) * (b * c),
        (a * b) * (c * d) == (c * d) * (a * b),
{
}

proof fn lemma_cross_identity(ux: int, uy: int, vx: int, vy: int, wx: int, wy: int)
    ensures
        (ux * wy - uy * wx) * (vx * vx + vy * vy) == (ux * vy - uy * vx) * (vx * wx + vy * wy) + (ux * vx + uy
            * vy) * (vx * wy - vy * wx),
{
    lemma_expand_mp(ux * wy, uy * wx, vx * vx, vy * vy);
    lemma_expand_mp(ux * vy, uy * vx, vx * wx, vy * wy);
    lemma_expand_pm(ux * vx, uy * vy, vx * wy, vy * wx);
    // left: (ux wy)(vx vx) + (ux wy)(vy vy) - (uy wx)(vx vx) - (uy wx)(vy vy)
    // first: (ux vy)(vx wx) + (ux vy)(vy wy) - (uy vx)(vx wx) - (uy vx)(vy wy)
    // second: (ux vx)(vx wy) - (ux vx)(vy wx) + (uy vy)(vx wy) - (uy vy)(vy wx)
    lemma_regroup(ux, wy, vx, vx);
    lemma_regroup(ux, vx, vx, wy);
    lemma_regroup(ux, wy, vy, vy);
    lemma_regroup(ux, vy, vy, wy);
    lemma_regroup(uy, wx, vx, vx);
    lemma_regroup(uy, vx, vx, wx);
    lemma_regroup(uy, wx, vy, vy);
    lemma_regroup(uy, vy, vy, wx);
    lemma_regroup(ux, vy, vx, wx);
    lemma_regroup(ux, vx, vy, wx);
    lemma_regroup(uy, vx, vy, wy);
    lemma_regroup(uy, vy, vx, wy);
    assert((ux * wy) * (vx * vx) == (ux * vx) * (vx * wy));
    assert((ux * wy) * (vy * vy) == (ux * vy) * (vy * wy));
    assert((uy * wx) * (vx * vx) == (uy * vx) * (vx * wx));
    assert((uy * wx) * (vy * vy) == (uy * vy) * (vy * wx));
    assert((ux * vy) * (vx * wx) == (ux * vx) * (vy * wx));
    assert((uy * vx) * (vy * wy) == (uy * vy) * (vx * wy));
}

proof fn lemma_dot_identity(ux: int, uy: int, vx: int, vy: int, wx: int, wy: int)
    ensures
        (ux * wx + uy * wy) * (vx * vx + vy * vy) == (ux * vx + uy * vy) * (vx * wx + vy * wy) - (ux * vy - uy
            * vx) * (vx * wy - vy * wx),
{
    lemma_expand_pp(ux * wx, uy * wy, vx * vx, vy * vy);
    lemma_expand_pp(ux * vx, uy * vy, vx * wx, vy * wy);
    lemma_expand_mm(ux * vy, uy * vx, vx * wy, vy * wx);
    // left: (ux wx)(vx vx) + (ux wx)(vy vy) + (uy wy)(vx vx) + (uy wy)(vy vy)
    // first: (ux vx)(vx wx) + (ux vx)(vy wy) + (uy vy)(vx wx) + (uy vy)(vy wy)
    // second: (ux vy)(vx wy) - (ux vy)(vy wx) - (uy vx)(vx wy) + (uy vx)(vy wx)
    lemma_regroup(ux, wx, vx, vx);
    lemma_regroup(ux, vx, vx, wx);
    lemma_regroup(ux, wx, vy, vy);
    lemma_regroup(ux, vy, vy, wx);
    lemma_regroup(uy, wy, vx, vx);
    lemma_regroup(uy, vx, vx, wy);
    lemma_regroup(uy, wy, vy, vy);
    lemma_regroup(uy, vy, vy, wy);
    lemma_regroup(ux, vx, vy, wy);
    lemma_regroup(ux, vy, vx, wy);
    lemma_regroup(uy, vy, vx, wx);
    lemma_regroup(uy, vx, vy, wx);
    assert((ux * wx) * (vx * vx) == (ux * vx) * (vx * wx));
    assert((ux * wx) * (vy * vy) == (ux * vy) * (vy * wx));
    assert((uy * wy) * (vx * vx) == (uy * vx) * (vx * wy));
    assert((uy * wy) * (vy * vy) == (uy * vy) * (vy * wy));
    assert((ux * vx) * (vy * wy) == (ux * vy) * (vx * wy));
    assert((uy * vy) * (vx * wx) == (uy * vx) * (vy * wx));
}

proof fn lemma_vec_parallel_trans(ux: int, uy: int, vx: int, vy: int, wx: int, wy: int)
    requires
        ux * vy - uy * vx == 0,
        vx * wy - vy * wx == 0,
        vx * vx + vy * vy > 0,
    ensures
        ux * wy - uy * wx == 0,
{
    lemma_cross_identity(ux, uy, vx, vy, wx, wy);
    let c = ux * wy - uy * wx;
    let n = vx * vx + vy * vy;
    assert(c * n == 0 * (vx * wx + vy * wy) + (ux * vx + uy * vy) * 0);
    assert(0 * (vx * wx + vy * wy) == 0) by (nonlinear_arith);
    assert((ux * vx + uy * vy) * 0 == 0) by (nonlinear_arith);
    assert(c == 0) by (nonlinear_arith)
        requires
            c * n == 0,
            n > 0,
    ;
}

proof fn lemma_vec_same_dir_trans(ux: int, uy: int, vx: int, vy: int, wx: int, wy: int)
    requires
        ux * vy - uy * vx == 0,
        ux * vx + uy * vy > 0,
        vx * wy - vy * wx == 0,
        vx * wx + vy * wy > 0,
    ensures
        ux * wy - uy * wx == 0,
        ux * wx + uy * wy > 0,
{
    lemma_vec_nonzero(vx, vy, ux, uy);
    lemma_vec_parallel_trans(ux, uy, vx, vy, wx, wy);
    lemma_dot_identity(ux, uy, vx, vy, wx, wy);
    let d = ux * wx + uy * wy;
    let n = vx * vx + vy * vy;
    let p = (ux * vx + uy * vy) * (vx * wx + vy * wy);
    assert(p > 0) by (nonlinear_arith)
        requires
            ux * vx + uy * vy > 0,
            vx * wx + vy * wy > 0,
            p == (ux * vx + uy * vy) * (vx * wx + vy * wy),
    ;
    assert(0 * (vx * wy - vy * wx) == 0) by (nonlinear_arith);
    assert(d * n == p);
    assert(d > 0) by (nonlinear_arith)
        requires
            d * n == p,
            p > 0,
            n > 0,
    ;
}

/// A vector with a positive dot product with another is not zero.
proof fn lemma_vec_nonzero(vx: int, vy: int, ux: int, uy: int)
    requires
        ux * vx + uy * vy > 0,
    ensures
        vx * vx + vy * vy > 0,
{
    if vx == 0 && vy == 0 {
        assert(ux * vx + uy * vy == 0) by (nonlinear_arith)
            requires
                vx == 0,
                vy == 0,
        ;
    } else {
        assert(vx * vx + vy * vy > 0) by (nonlinear_arith)
            requires
                vx != 0 || vy != 0,
        ;
    }
}

/// Two segments running the same way as a third, placed end to end, make
/// a segment that runs that way too.
proof fn lemma_vec_sum_same_dir(ux: int, uy: int, vx: int, vy: int, wx: int, wy: int)
    requires
        ux * wy - uy * wx == 0,
        ux * wx + uy * wy > 0,
        vx * wy - vy * wx == 0,
        vx * wx + vy * wy > 0,
    ensures
        (ux + vx) * wy - (uy + vy) * wx == 0,
        (ux + vx) * wx + (uy + vy) * wy > 0,
{
    assert((ux + vx) * wy - (uy + vy) * wx == (ux * wy - uy * wx) + (vx * wy - vy * wx)) by (nonlinear_arith);
    assert((ux + vx) * wx + (uy + vy) * wy == (ux * wx + uy * wy) + (vx * wx + vy * wy)) by (nonlinear_arith);
}

/// When the chain closes, its last segment, if it continues into the first
/// in a straight line, runs the same way as the first.
pub open spec fn closes_forward(edges: Seq<Edge>) -> bool {
    edges.len() > 0 && edges.last().1 == edges[0].0 && perp_dot(
        edges[0].0,
        edges[0].1,
        edges.last().0,
        edges.last().1,
    ) == 0 ==> dot_dir(edges.last(), edges[0]) > 0
}

/// Every segment of `out` starts where a segment of `edges` starts and runs
/// the same way along the same line.
pub open spec fn lies_along(out: Seq<Edge>, edges: Seq<Edge>) -> bool {
    forall|k: int|
        0 <= k < out.len() ==> exists|i: int|
            0 <= i < edges.len() && (#[trigger] out[k]).0 == edges[i].0 && same_direction(out[k], edges[i])
}

proof fn lemma_same_dir_trans(a: Edge, b: Edge, c: Edge)
    requires
        same_direction(a, b),
        same_direction(b, c),
    ensures
        same_direction(a, c),
{
    lemma_vec_same_dir_trans(
        a.1.x - a.0.x,
        a.1.y - a.0.y,
        b.1.x - b.0.x,
        b.1.y - b.0.y,
        c.1.x - c.0.x,
        c.1.y - c.0.y,
    );
}

proof fn lemma_same_dir_sym(a: Edge, b: Edge)
    requires
        same_direction(a, b),
    ensures
        same_direction(b, a),
{
    let (ax, ay, bx, by) = (a.1.x - a.0.x, a.1.y - a.0.y, b.1.x - b.0.x, b.1.y - b.0.y);
    assert(bx * ay - by * ax == -(ax * by - ay * bx)) by (nonlinear_arith);
    assert(bx * ax + by * ay == ax * bx + ay * by) by (nonlinear_arith);
}

proof fn lemma_same_dir_has_length(a: Edge, b: Edge)
    requires
        same_direction(a, b),
    ensures
        a.0 != a.1,
{
    if a.0 == a.1 {
        let (bx, by) = (b.1.x - b.0.x, b.1.y - b.0.y);
        assert(0 * bx + 0 * by == 0) by (nonlinear_arith);
    }
}

proof fn lemma_same_dir_self(a: Edge)
    requires
        a.0 != a.1,
    ensures
        same_direction(a, a),
{
    let (ax, ay) = (a.1.x - a.0.x, a.1.y - a.0.y);
    assert(ax * ay - ay * ax == 0) by (nonlinear_arith);
    assert(ax != 0 || ay != 0);
    assert(ax * ax + ay * ay > 0) by (nonlinear_arith)
        requires
            ax != 0 || ay != 0,
    ;
}

/// A segment in line with `p`, where `p` runs the same way as `e`, is in
/// line with `e`.
proof fn lemma_in_line(b: Edge, p: Edge, e: Edge)
    requires
        perp_dot(b.0, b.1, p.0, p.1) == 0,
        same_direction(p, e),
    ensures
        perp_dot(b.0, b.1, e.0, e.1) == 0,
{
    let (bx, by, px, py, ex, ey) = (b.1.x - b.0.x, b.1.y - b.0.y, p.1.x - p.0.x, p.1.y - p.0.y, e.1.x - e.0.x, e.1.y - e.0.y);
    assert(ex * px + ey * py > 0) by (nonlinear_arith)
        requires
            px * ex + py * ey > 0,
    ;
    lemma_vec_nonzero(px, py, ex, ey);
    lemma_vec_parallel_trans(bx, by, px, py, ex, ey);
}

/// Two segments placed end to end, each running the same way as `w`, make
/// one that runs that way too.
proof fn lemma_join_same_dir(u: Edge, v: Edge, w: Edge)
    requires
        v.0 == u.1,
        same_direction(u, w),
        same_direction(v, w),
    ensures
        same_direction((u.0, v.1), w),
{
    lemma_vec_sum_same_dir(
        u.1.x - u.0.x,
        u.1.y - u.0.y,
        v.1.x - v.0.x,
        v.1.y - v.0.y,
        w.1.x - w.0.x,
        w.1.y - w.0.y,
    );
}

/// Merging straight runs keeps every segment on the input: each merged
/// segment starts where an input segment starts and runs the same way; the
/// first starts where the input starts, and the last ends where the input
/// ends, running the way of the last input segment.
pub proof fn lemma_merge_runs_along_input(edges: Seq<Edge>)
    requires
        runs_forward(edges),
    ensures
        lies_along(merge_straight(edges), edges),
        edges.len() > 0 ==> {
            let out = merge_straight(edges);
            &&& out.len() > 0
            &&& out.last().1 == edges.last().1
            &&& same_direction(out.last(), edges.last())
            &&& out[0].0 == edges[0].0
            &&& same_direction(out[0], edges[0])
        },
    decreases edges.len(),
{
    if edges.len() > 0 {
        let n = edges.len();
        let pre = edges.drop_last();
        assert(runs_forward(pre)) by {
            assert forall|i: int| 0 <= i < pre.len() implies (#[trigger] pre[i]).0 != pre[i].1 by {
                assert(pre[i] == edges[i]);
            }
            assert forall|i: int, j: int|
                0 <= i && j == i + 1 && j < pre.len() && (#[trigger] pre[j]).0 == (#[trigger] pre[i]).1
                    && perp_dot(pre[j].0, pre[j].1, pre[i].0, pre[i].1) == 0 implies dot_dir(pre[i], pre[j]) > 0 by {
                assert(pre[i] == edges[i] && pre[j] == edges[j]);
            }
        }
        lemma_merge_runs_along_input(pre);
        let prev = merge_straight(pre);
        let b = edges.last();
        assert(b == edges[n - 1]);
        lemma_same_dir_self(b);
        let out = merge_straight(edges);
        if prev.len() > 0 && continues(prev.last(), b) {
            let p = prev.last();
            let ep = pre.last();
            assert(ep == edges[n - 2]);
            lemma_in_line(b, p, ep);
            assert(dot_dir(edges[n - 2], edges[n - 1]) > 0);
            assert(same_direction(ep, b)) by {
                let (bx, by, ex, ey) = (b.1.x - b.0.x, b.1.y - b.0.y, ep.1.x - ep.0.x, ep.1.y - ep.0.y);
                assert(ex * by - ey * bx == -(bx * ey - by * ex)) by (nonlinear_arith);
            }
            lemma_same_dir_sym(ep, b);
            let nn = (p.0, b.1);
            lemma_join_same_dir(p, b, ep);
            lemma_same_dir_trans(nn, ep, b);
            lemma_same_dir_sym(p, ep);
            lemma_same_dir_trans(nn, ep, p);
            assert(out == prev.update(prev.len() - 1, nn));
            assert forall|k: int| 0 <= k < out.len() implies exists|i: int|
                0 <= i < edges.len() && (#[trigger] out[k]).0 == edges[i].0 && same_direction(out[k], edges[i]) by {
                if k < prev.len() - 1 {
                    assert(out[k] == prev[k]);
                    let i = choose|i: int|
                        0 <= i < pre.len() && prev[k].0 == pre[i].0 && same_direction(prev[k], pre[i]);
                    assert(pre[i] == edges[i]);
                } else {
                    assert(out[k] == nn);
                    let i = choose|i: int|
                        0 <= i < pre.len() && prev[prev.len() - 1].0 == pre[i].0 && same_direction(
                            prev[prev.len() - 1],
                            pre[i],
                        );
                    assert(prev[prev.len() - 1] == p);
                    assert(pre[i] == edges[i]);
                    lemma_same_dir_trans(nn, p, edges[i]);
                }
            }
            if prev.len() == 1 {
                assert(prev[0] == p);
                assert(pre[0] == edges[0]);
                lemma_same_dir_trans(nn, p, edges[0]);
            } else {
                assert(out[0] == prev[0]);
                assert(pre[0] == edges[0]);
            }
        } else {
            assert(out == prev.push(b));
            assert forall|k: int| 0 <= k < out.len() implies exists|i: int|
                0 <= i < edges.len() && (#[trigger] out[k]).0 == edges[i].0 && same_direction(out[k], edges[i]) by {
                if k < prev.len() {
                    assert(out[k] == prev[k]);
                    let i = choose|i: int|
                        0 <= i < pre.len() && prev[k].0 == pre[i].0 && same_direction(prev[k], pre[i]);
                    assert(pre[i] == edges[i]);
                } else {
                    assert(out[k] == edges[n - 1]);
                }
            }
            if prev.len() > 0 {
                assert(out[0] == prev[0]);
                assert(pre[0] == edges[0]);
            } else {
                assert(n == 1);
            }
        }
    }
}

/// Joining a chain keeps it on its own segments: each joined segment starts
/// where a segment of the chain starts and runs the same way along the same
/// line. The last merged segment is folded into the first only when the two
/// are in line, so a closed chain that starts at a corner keeps that
/// corner.
pub proof fn lemma_join_runs_along_input(edges: Seq<Edge>)
    requires
        edges.len() > 0,
        runs_forward(edges),
        closes_forward(edges),
    ensures
        lies_along(join_spec(edges), edges),
{
    lemma_merge_runs_along_input(edges);
    let res = merge_straight(edges);
    let first = res[0];
    let last = res[res.len() - 1];
    let e0 = edges[0];
    let el = edges.last();
    if first.0 == last.1 && perp_dot(first.1, first.0, last.1, last.0) == 0 {
        let (fx, fy, lx, ly) = (first.1.x - first.0.x, first.1.y - first.0.y, last.1.x - last.0.x, last.1.y - last.0.y);
        assert(perp_dot(first.0, first.1, last.0, last.1) == 0) by {
            assert((-fx) * (-ly) - (-fy) * (-lx) == fx * ly - fy * lx) by (nonlinear_arith);
        }
        if res.len() == 1 {
            assert(first.1 == first.0);
            assert(dot_dir(first, e0) == 0) by {
                let (ex, ey) = (e0.1.x - e0.0.x, e0.1.y - e0.0.y);
                assert(0 * ex + 0 * ey == 0) by (nonlinear_arith);
            }
            assert(false);
        }
        // e0 in line with first, first with last, last with el
        lemma_same_dir_sym(first, e0);
        assert(perp_dot(e0.0, e0.1, last.0, last.1) == 0) by {
            lemma_same_dir_has_length(last, el);
            lemma_same_dir_self(last);
            // e0 ∥ first and first ∥ last, first not zero
            let (ex, ey) = (e0.1.x - e0.0.x, e0.1.y - e0.0.y);
            lemma_vec_nonzero(fx, fy, ex, ey);
            assert(ex * fy - ey * fx == 0);
            lemma_vec_parallel_trans(ex, ey, fx, fy, lx, ly);
        }
        lemma_in_line(e0, last, el);
        assert(el.1 == e0.0);
        assert(dot_dir(el, e0) > 0);
        assert(same_direction(el, e0)) by {
            let (ex, ey, gx, gy) = (e0.1.x - e0.0.x, e0.1.y - e0.0.y, el.1.x - el.0.x, el.1.y - el.0.y);
            assert(gx * ey - gy * ex == -(ex * gy - ey * gx)) by (nonlinear_arith);
        }
        lemma_same_dir_sym(el, e0);
        lemma_same_dir_sym(last, el);
        lemma_same_dir_trans(first, e0, el);
        lemma_same_dir_trans(first, el, last);
        lemma_same_dir_has_length(last, el);
        lemma_same_dir_self(last);
        let nn = (last.0, first.1);
        lemma_join_same_dir(last, first, last);
        let out = join_spec(edges);
        assert(out == res.update(0, nn).drop_last());
        assert forall|k: int| 0 <= k < out.len() implies exists|i: int|
            0 <= i < edges.len() && (#[trigger] out[k]).0 == edges[i].0 && same_direction(out[k], edges[i]) by {
            if k == 0 {
                assert(out[0] == nn);
                let i = choose|i: int|
                    0 <= i < edges.len() && res[res.len() - 1].0 == edges[i].0 && same_direction(
                        res[res.len() - 1],
                        edges[i],
                    );
                lemma_same_dir_trans(nn, last, edges[i]);
            } else {
                assert(out[k] == res[k]);
            }
        }
    }
}

pub proof fn lemma_merge_straight_props(edges: Seq<Edge>)
    ensures
        edges.len() > 0 ==> merge_straight(edges).len() > 0,
        merge_straight(edges).len() <= edges.len(),
        edges_in_range(edges) ==> edges_in_range(merge_straight(edges)),
    decreases edges.len(),
{
    if edges.len() > 0 {
        lemma_merge_straight_props(edges.drop_last());
        let prev = merge_straight(edges.drop_last());
        if edges_in_range(edges) {
            assert forall|k: int| 0 <= k < edges.drop_last().len() implies point_in_range(
                #[trigger] edges.drop_last()[k].0,
            ) && point_in_range(edges.drop_last()[k].1) by {
                assert(point_in_range(edges[k].0));
            }
            assert(edges_in_range(edges.drop_last()));
            let b = edges.last();
            assert(point_in_range(edges[edges.len() - 1].0));
            if prev.len() > 0 {
                assert(point_in_range(prev[prev.len() - 1].0));
            }
            if prev.len() > 0 && continues(prev.last(), b) {
                let r = prev.update(prev.len() - 1, (prev.last().0, b.1));
                assert forall|i: int| 0 <= i < r.len() implies point_in_range(#[trigger] r[i].0) && point_in_range(r[i].1) by {
                    assert(point_in_range(prev[i].0));
                }
                assert(edges_in_range(r));
            } else {
                let r = prev.push(b);
                assert forall|i: int| 0 <= i < r.len() implies point_in_range(#[trigger] r[i].0) && point_in_range(r[i].1) by {
                    if i < prev.len() {
                        assert(point_in_range(prev[i].0));
                    }
                }
            }
        }
    }
}

fn exec_perp_dot(p0: HalfPoint, p1: HalfPoint, q0: HalfPoint, q1: HalfPoint) -> (r: i128)
    requires
        point_in_range(p0),
        point_in_range(p1),
        point_in_range(q0),
        point_in_range(q1),
    ensures
        r == perp_dot(p0, p1, q0, q1),
{
    let ax = p1.x as i128 - p0.x as i128;
    let ay = p1.y as i128 - p0.y as i128;
    let bx = q1.x as i128 - q0.x as i128;
    let by = q1.y as i128 - q0.y as i128;
    assert(-0x10_0000_0000_0000_0000 <= ax * by <= 0x10_0000_0000_0000_0000) by (nonlinear_arith)
        requires
            -0x4_0000_0000 <= ax <= 0x4_0000_0000,
            -0x4_0000_0000 <= by <= 0x4_0000_0000,
    ;
    assert(-0x10_0000_0000_0000_0000 <= ay * bx <= 0x10_0000_0000_0000_0000) by (nonlinear_arith)
        requires
            -0x4_0000_0000 <= ay <= 0x4_0000_0000,
            -0x4_0000_0000 <= bx <= 0x4_0000_0000,
    ;
    ax * by - ay * bx
}

/// Merges consecutive segments that continue each other in a straight
/// line, then folds the last segment into the first when the chain closes
/// in a straight line. The chain must not be empty.
pub fn join_edges(edges: &[Edge]) -> (r: Vec<Edge>)
    requires
        edges@.len() > 0,
        edges_in_range(edges@),
    ensures
        r@ == join_spec(edges@),
        runs_forward(edges@) && closes_forward(edges@) ==> lies_along(r@, edges@),
{
    proof {
        if runs_forward(edges@) && closes_forward(edges@) {
            lemma_join_runs_along_input(edges@);
        }
    }
    let mut res: Vec<Edge> = Vec::new();
    let mut i: usize = 0;
    while i < edges.len()
        invariant
            0 <= i <= edges@.len(),
            edges_in_range(edges@),
            res@ == merge_straight(edges@.subrange(0, i as int)),
            edges_in_range(res@),
        decreases edges.len() - i,
    {
        let b = edges[i];
        proof {
            assert(edges@.subrange(0, i + 1).drop_last() =~= edges@.subrange(0, i as int));
            assert(point_in_range(edges@[i as int].0));
            lemma_merge_straight_props(edges@.subrange(0, i + 1));
            assert(edges_in_range(edges@.subrange(0, i + 1))) by {
                let sub = edges@.subrange(0, i + 1);
                assert forall|k: int| 0 <= k < sub.len() implies point_in_range(#[trigger] sub[k].0) && point_in_range(
                    sub[k].1,
                ) by {
                    assert(sub[k] == edges@[k]);
                    assert(point_in_range(edges@[k].0));
                }
            }
        }
        let n = res.len();
        let mut merged = false;
        if n > 0 {
            let a = res[n - 1];
            proof {
                assert(point_in_range(res@[n - 1].0));
            }
            if b.0 == a.1 && exec_perp_dot(b.0, b.1, a.0, a.1) == 0 {
                res.set(n - 1, (a.0, b.1));
                merged = true;
            }
        }
        if !merged {
            res.push(b);
        }
        i = i + 1;
    }
    proof {
        assert(edges@.subrange(0, edges@.len() as int) =~= edges@);
        lemma_merge_straight_props(edges@);
    }
    let n = res.len();
    let first = res[0];
    let last = res[n - 1];
    proof {
        assert(point_in_range(res@[0].0));
        assert(point_in_range(res@[n - 1].0));
    }
    if first.0 == last.1 && exec_perp_dot(first.1, first.0, last.1, last.0) == 0 {
        res.set(0, (last.0, first.1));
        res.pop();
    }
    res
}

/// The integer key of a point: both coordinates shifted to be
/// non-negative, `x` in the high 64 bits and `y` in the low ones.
pub open spec fn point_key(p: HalfPoint) -> u128 {
    ((p.x + 0x8000_0000_0000_0000) * 0x1_0000_0000_0000_0000 + (p.y + 0x8000_0000_0000_0000)) as u128
}

fn exec_point_key(p: HalfPoint) -> (r: u128)
    ensures
        r == point_key(p),
{
    let hi: u128 = (p.x as i128 + 0x8000_0000_0000_0000i128) as u128;
    let lo: u128 = (p.y as i128 + 0x8000_0000_0000_0000i128) as u128;
    hi * 0x1_0000_0000_0000_0000u128 + lo
}

/// Different points have different keys.
proof fn lemma_point_key_injective(a: HalfPoint, b: HalfPoint)
    ensures
        point_key(a) == point_key(b) ==> a == b,
{
    let ax = a.x + 0x8000_0000_0000_0000;
    let bx = b.x + 0x8000_0000_0000_0000;
    let ay = a.y + 0x8000_0000_0000_0000;
    let by = b.y + 0x8000_0000_0000_0000;
    assert(0 <= ax * 0x1_0000_0000_0000_0000 + ay < 0x1_0000_0000_0000_0000_0000_0000_0000_0000);
    assert(0 <= bx * 0x1_0000_0000_0000_0000 + by < 0x1_0000_0000_0000_0000_0000_0000_0000_0000);
    if ax * 0x1_0000_0000_0000_0000 + ay == bx * 0x1_0000_0000_0000_0000 + by {
        assert(ax == bx);
    }
}

/// A map from points to chain numbers, held in a `HashMap` keyed by
/// [`point_key`].
pub struct PointMap {
    map: std::collections::HashMap<u128, usize>,
}

impl PointMap {
    pub closed spec fn view(&self) -> Map<HalfPoint, usize> {
        Map::new(|k: HalfPoint| self.map@.contains_key(point_key(k)), |k: HalfPoint| self.map@[point_key(k)])
    }

    pub fn new() -> (r: PointMap)
        ensures
            r@ == Map::<HalfPoint, usize>::empty(),
    {
        let r = PointMap { map: std::collections::HashMap::new() };
        assert(r@ =~= Map::<HalfPoint, usize>::empty());
        r
    }

    /// The chain stored for `key`.
    pub fn get(&self, key: HalfPoint) -> (r: Option<usize>)
        ensures
            r == (if self@.contains_key(key) { Some(self@[key]) } else { None }),
    {
        broadcast use vstd::std_specs::hash::group_hash_axioms;

        let k = exec_point_key(key);
        match self.map.get(&k) {
            Some(v) => Some(*v),
            None => None,
        }
    }

    /// Stores `value` for `key`, replacing any previous value.
    pub fn insert(&mut self, key: HalfPoint, value: usize)
        ensures
            final(self)@ == old(self)@.insert(key, value),
    {
        broadcast use vstd::std_specs::hash::group_hash_axioms;

        let k = exec_point_key(key);
        self.map.insert(k, value);
        proof {
            assert forall|p: HalfPoint| #[trigger] self@.contains_key(p) == old(self)@.insert(key, value).contains_key(p)
                && (self@.contains_key(p) ==> self@[p] == old(self)@.insert(key, value)[p]) by {
                lemma_point_key_injective(p, key);
            }
            assert(self@ =~= old(self)@.insert(key, value));
        }
    }

    /// Forgets `key`.
    pub fn remove(&mut self, key: HalfPoint)
        ensures
            final(self)@ == old(self)@.remove(key),
    {
        broadcast use vstd::std_specs::hash::group_hash_axioms;

        let k = exec_point_key(key);
        self.map.remove(&k);
        proof {
            assert forall|p: HalfPoint| #[trigger] self@.contains_key(p) == old(self)@.remove(key).contains_key(p)
                && (self@.contains_key(p) ==> self@[p] == old(self)@.remove(key)[p]) by {
                lemma_point_key_injective(p, key);
            }
            assert(self@ =~= old(self)@.remove(key));
        }
    }
}

/// Consecutive segments of `s` meet: each ends where the next starts.
pub open spec fn connected(s: Seq<Edge>) -> bool {
    forall|j: int, k: int| 0 <= j && k == j + 1 && k < s.len() ==> #[trigger] s[j].1 == #[trigger] s[k].0
}

/// No two segments start at the same point.
pub open spec fn unique_starts(s: Seq<Edge>) -> bool {
    forall|i: int, j: int| 0 <= i < j < s.len() ==> #[trigger] s[i].0 != #[trigger] s[j].0
}

/// No two segments end at the same point.
pub open spec fn unique_ends(s: Seq<Edge>) -> bool {
    forall|i: int, j: int| 0 <= i < j < s.len() ==> #[trigger] s[i].1 != #[trigger] s[j].1
}

/// Some segment of `s` starts at `p`.
pub open spec fn starts_in(s: Seq<Edge>, p: HalfPoint) -> bool {
    exists|j: int| 0 <= j < s.len() && #[trigger] s[j].0 == p
}

/// All segments of all chains, counted with multiplicity.
pub open spec fn chains_multiset(cs: Seq<Seq<Edge>>) -> Multiset<Edge>
    decreases cs.len(),
{
    if cs.len() == 0 {
        Multiset::empty()
    } else {
        chains_multiset(cs.drop_last()).add(cs.last().to_multiset())
    }
}

/// The joined form of each non-empty chain, in chain order.
pub open spec fn joined_chains(cs: Seq<Seq<Edge>>) -> Seq<Edge>
    decreases cs.len(),
{
    if cs.len() == 0 {
        seq![]
    } else if cs.last().len() == 0 {
        joined_chains(cs.drop_last())
    } else {
        joined_chains(cs.drop_last()) + join_spec(cs.last())
    }
}

/// The non-empty chains of `cs`, in order.
pub open spec fn nonempty_chains(cs: Seq<Seq<Edge>>) -> Seq<Seq<Edge>>
    decreases cs.len(),
{
    if cs.len() == 0 {
        seq![]
    } else if cs.last().len() == 0 {
        nonempty_chains(cs.drop_last())
    } else {
        nonempty_chains(cs.drop_last()).push(cs.last())
    }
}

/// `cs` is a way of cutting `input` into chains: every chain is non-empty
/// and in range, the chains hold exactly the segments of `input`, and when
/// no two segments of `input` share a start or an end, each chain is a
/// connected path.
pub open spec fn chains_of(input: Seq<Edge>, cs: Seq<Seq<Edge>>) -> bool {
    &&& forall|c: int| 0 <= c < cs.len() ==> (#[trigger] cs[c]).len() > 0 && edges_in_range(cs[c])
    &&& chains_multiset(cs) == input.to_multiset()
    &&& unique_starts(input) && unique_ends(input) ==> forall|c: int|
        0 <= c < cs.len() ==> connected(#[trigger] cs[c])
}

pub proof fn lemma_chains_multiset_update(cs: Seq<Seq<Edge>>, k: int, x: Seq<Edge>)
    requires
        0 <= k < cs.len(),
    ensures
        chains_multiset(cs.update(k, x)).add(cs[k].to_multiset()) == chains_multiset(cs).add(x.to_multiset()),
    decreases cs.len(),
{
    broadcast use vstd::multiset::group_multiset_axioms;

    let u = cs.update(k, x);
    assert(chains_multiset(u) == chains_multiset(u.drop_last()).add(u.last().to_multiset()));
    assert(chains_multiset(cs) == chains_multiset(cs.drop_last()).add(cs.last().to_multiset()));
    if k == cs.len() - 1 {
        assert(u.drop_last() =~= cs.drop_last());
        assert(u.last() == x);
        assert(cs[k] == cs.last());
    } else {
        assert(u.drop_last() =~= cs.drop_last().update(k, x));
        assert(u.last() == cs.last());
        assert(cs.drop_last()[k] == cs[k]);
        lemma_chains_multiset_update(cs.drop_last(), k, x);
    }
    let lhs = chains_multiset(u).add(cs[k].to_multiset());
    let rhs = chains_multiset(cs).add(x.to_multiset());
    assert forall|e: Edge| #[trigger] lhs.count(e) == rhs.count(e) by {
        if k == cs.len() - 1 {
        } else {
            let a = chains_multiset(cs.drop_last().update(k, x));
            let b = chains_multiset(cs.drop_last());
            assert(a.add(cs[k].to_multiset()).count(e) == b.add(x.to_multiset()).count(e));
        }
    }
    assert(lhs =~= rhs);
}

pub proof fn lemma_multiset_cancel_insert(m1: Multiset<Edge>, m2: Multiset<Edge>, c: Multiset<Edge>, e: Edge)
    requires
        m1.add(c) == m2.add(c.insert(e)),
    ensures
        m1 == m2.insert(e),
{
    broadcast use vstd::multiset::group_multiset_axioms;

    assert forall|x: Edge| #[trigger] m1.count(x) == m2.insert(e).count(x) by {
        assert(m1.add(c).count(x) == m2.add(c.insert(e)).count(x));
        assert(m1.add(c).count(x) == m1.count(x) + c.count(x));
        assert(c.insert(e) == c.add(Multiset::singleton(e)));
        assert(m2.add(c.insert(e)).count(x) == m2.count(x) + c.insert(e).count(x));
        assert(c.add(Multiset::singleton(e)).count(x) == c.count(x) + Multiset::singleton(e).count(x));
        assert(m2.add(Multiset::singleton(e)).count(x) == m2.count(x) + Multiset::singleton(e).count(x));
        if x == e {
            assert(Multiset::singleton(e).count(x) == 1);
        } else {
            assert(Multiset::singleton(e).count(x) == 0);
        }
    }
    assert(m1 =~= m2.insert(e));
}

/// Putting `e` in front of `s` adds one `e` to its multiset.
pub proof fn lemma_prepend_multiset(e: Edge, s: Seq<Edge>)
    ensures
        (seq![e] + s).to_multiset() == s.to_multiset().insert(e),
{
    broadcast use vstd::multiset::group_multiset_axioms;

    vstd::seq_lib::lemma_multiset_commutative(seq![e], s);
    Seq::<Edge>::empty().to_multiset_ensures();
    assert(seq![e] =~= Seq::<Edge>::empty().push(e));
    let single = seq![e].to_multiset();
    assert(single == Seq::<Edge>::empty().to_multiset().insert(e));
    assert(Seq::<Edge>::empty().to_multiset() =~= Multiset::empty());
    let lhs = (seq![e] + s).to_multiset();
    let rhs = s.to_multiset().insert(e);
    assert forall|x: Edge| #[trigger] lhs.count(x) == rhs.count(x) by {
        if x == e {
            assert(Multiset::singleton(e).count(x) == 1);
        } else {
            assert(Multiset::singleton(e).count(x) == 0);
        }
    }
    assert(lhs =~= rhs);
}

/// Moving chain `b` to the end of chain `a`, with `e` between them, adds
/// one `e` to the segments of all chains.
pub proof fn lemma_merge_multiset(cs: Seq<Seq<Edge>>, a: int, b: int, e: Edge)
    requires
        0 <= a < cs.len(),
        0 <= b < cs.len(),
        a != b,
    ensures
        chains_multiset(
            cs.update(b, seq![]).update(a, cs[a].push(e) + cs[b]),
        ) == chains_multiset(cs).insert(e),
{
    broadcast use vstd::multiset::group_multiset_axioms;

    let cs1 = cs.update(b, seq![]);
    let x = cs[a].push(e) + cs[b];
    let cs2 = cs1.update(a, x);
    lemma_chains_multiset_update(cs, b, seq![]);
    lemma_chains_multiset_update(cs1, a, x);
    Seq::<Edge>::empty().to_multiset_ensures();
    cs[a].to_multiset_ensures();
    vstd::seq_lib::lemma_multiset_commutative(cs[a].push(e), cs[b]);
    assert(cs1[a] == cs[a]);
    let lhs = chains_multiset(cs2);
    let rhs = chains_multiset(cs).insert(e);
    assert forall|y: Edge| #[trigger] lhs.count(y) == rhs.count(y) by {
        assert(Seq::<Edge>::empty().to_multiset().count(y) == 0);
        assert(chains_multiset(cs1).add(cs[b].to_multiset()).count(y) == chains_multiset(cs).add(
            Seq::<Edge>::empty().to_multiset(),
        ).count(y));
        assert(chains_multiset(cs2).add(cs[a].to_multiset()).count(y) == chains_multiset(cs1).add(
            x.to_multiset(),
        ).count(y));
        if y == e {
            assert(Multiset::singleton(e).count(y) == 1);
        } else {
            assert(Multiset::singleton(e).count(y) == 0);
        }
    }
    assert(lhs =~= rhs);
}

/// Joining two connected chains where the first ends, and the second
/// starts, at the ends of `e` gives a connected chain.
pub proof fn lemma_connected_link(s: Seq<Edge>, e: Edge, t: Seq<Edge>)
    requires
        connected(s),
        connected(t),
        s.len() > 0 ==> s.last().1 == e.0,
        t.len() > 0 ==> t[0].0 == e.1,
    ensures
        connected(s.push(e) + t),
{
    let r = s.push(e) + t;
    assert forall|j: int, k: int| 0 <= j && k == j + 1 && k < r.len() implies #[trigger] r[j].1 == #[trigger] r[k].0 by {
        if k < s.len() {
            assert(s[j].1 == s[k].0);
        } else if k == s.len() {
        } else if k == s.len() + 1 {
        } else {
            let jt = j - s.len() - 1;
            assert(t[jt].1 == t[jt + 1].0);
        }
    }
}

pub proof fn lemma_nonempty_chains(cs: Seq<Seq<Edge>>)
    ensures
        chains_multiset(nonempty_chains(cs)) == chains_multiset(cs),
        joined_chains(nonempty_chains(cs)) == joined_chains(cs),
        forall|c: int|
            0 <= c < nonempty_chains(cs).len() ==> (#[trigger] nonempty_chains(cs)[c]).len() > 0 && exists|d: int|
                0 <= d < cs.len() && cs[d] == nonempty_chains(cs)[c],
    decreases cs.len(),
{
    if cs.len() > 0 {
        lemma_nonempty_chains(cs.drop_last());
        let prev = nonempty_chains(cs.drop_last());
        let n = nonempty_chains(cs);
        if cs.last().len() == 0 {
            assert(cs.last().to_multiset() =~= Multiset::empty()) by {
                cs.last().to_multiset_ensures();
            }
            assert(chains_multiset(cs) =~= chains_multiset(cs.drop_last()));
            assert forall|c: int| 0 <= c < n.len() implies (#[trigger] n[c]).len() > 0 && exists|d: int|
                0 <= d < cs.len() && cs[d] == n[c] by {
                let d = choose|d: int| 0 <= d < cs.drop_last().len() && cs.drop_last()[d] == prev[c];
                assert(cs[d] == n[c]);
            }
        } else {
            assert(n.drop_last() =~= prev);
            assert forall|c: int| 0 <= c < n.len() implies (#[trigger] n[c]).len() > 0 && exists|d: int|
                0 <= d < cs.len() && cs[d] == n[c] by {
                if c < prev.len() {
                    let d = choose|d: int| 0 <= d < cs.drop_last().len() && cs.drop_last()[d] == prev[c];
                    assert(cs[d] == n[c]);
                } else {
                    assert(cs[cs.len() - 1] == n[c]);
                }
            }
        }
    }
}

/// The segments of `d`, in order.
fn deque_to_vec(d: &std::collections::VecDeque<Edge>) -> (r: Vec<Edge>)
    ensures
        r@ == d@,
{
    let mut r: Vec<Edge> = Vec::new();
    let mut i: usize = 0;
    while i < d.len()
        invariant
            i <= d@.len(),
            r@ == d@.subrange(0, i as int),
        decreases d.len() - i,
    {
        r.push(d[i]);
        proof {
            assert(r@ =~= d@.subrange(0, i + 1));
        }
        i = i + 1;
    }
    proof {
        assert(r@ =~= d@);
    }
    r
}

/// A chain that ends where it starts.
pub open spec fn closed_chain(c: Seq<Edge>) -> bool {
    c.len() > 0 && c.last().1 == c[0].0
}

/// A non-empty chain that does not end where it starts.
spec fn open_chain(c: Seq<Edge>) -> bool {
    c.len() > 0 && c.last().1 != c[0].0
}

/// No non-empty chain ends where another one starts.
spec fn chains_maximal(gcs: Seq<Seq<Edge>>) -> bool {
    forall|c: int, d: int|
        #![trigger gcs[c], gcs[d]]
        0 <= c < gcs.len() && 0 <= d < gcs.len() && c != d && gcs[c].len() > 0 && gcs[d].len() > 0
            ==> gcs[c].last().1 != gcs[d][0].0
}

/// Every chain that does not close is found from its start and from its
/// end.
spec fn maps_complete(gcs: Seq<Seq<Edge>>, starts: Map<HalfPoint, usize>, ends: Map<HalfPoint, usize>) -> bool {
    forall|c: int|
        0 <= c < gcs.len() && open_chain(#[trigger] gcs[c]) ==> {
            &&& starts.contains_key(gcs[c][0].0)
            &&& starts[gcs[c][0].0] as int == c
            &&& ends.contains_key(gcs[c].last().1)
            &&& ends[gcs[c].last().1] as int == c
        }
}

/// Segment `e` shares no start and no end with a segment of the chains.
spec fn fresh_edge(gcs: Seq<Seq<Edge>>, e: Edge) -> bool {
    forall|c: int, k: int|
        0 <= c < gcs.len() && 0 <= k < gcs[c].len() ==> (#[trigger] gcs[c][k]).0 != e.0 && gcs[c][k].1 != e.1
}

/// Appending a chain of one new segment that continues no chain and that
/// no chain continues.
proof fn lemma_grow_new_chain(
    old: Seq<Seq<Edge>>,
    os: Map<HalfPoint, usize>,
    oe: Map<HalfPoint, usize>,
    e: Edge,
)
    requires
        chains_maximal(old),
        maps_complete(old, os, oe),
        fresh_edge(old, e),
        !oe.contains_key(e.0),
        !os.contains_key(e.1),
        old.len() < usize::MAX,
    ensures
        chains_maximal(old.push(seq![e])),
        maps_complete(old.push(seq![e]), os.insert(e.0, old.len() as usize), oe.insert(e.1, old.len() as usize)),
{
    let gcs = old.push(seq![e]);
    let n = old.len();
    assert forall|c: int, d: int|
        #![trigger gcs[c], gcs[d]]
        0 <= c < gcs.len() && 0 <= d < gcs.len() && c != d && gcs[c].len() > 0 && gcs[d].len() > 0 implies gcs[c].last().1
        != gcs[d][0].0 by {
        if c == n {
            assert(gcs[d] == old[d]);
            if !open_chain(old[d]) {
                assert(old[d][old[d].len() - 1].1 != e.1);
            }
        } else if d == n {
            assert(gcs[c] == old[c]);
            if !open_chain(old[c]) {
                assert(old[c][0].0 != e.0);
            }
        } else {
            assert(gcs[c] == old[c] && gcs[d] == old[d]);
        }
    }
    let st = os.insert(e.0, n as usize);
    let en = oe.insert(e.1, n as usize);
    assert forall|c: int| 0 <= c < gcs.len() && open_chain(#[trigger] gcs[c]) implies {
        &&& st.contains_key(gcs[c][0].0)
        &&& st[gcs[c][0].0] as int == c
        &&& en.contains_key(gcs[c].last().1)
        &&& en[gcs[c].last().1] as int == c
    } by {
        if c < n {
            assert(gcs[c] == old[c]);
            assert(old[c][0].0 != e.0);
            assert(old[c][old[c].len() - 1].1 != e.1);
        } else {
            assert(gcs[c] == seq![e]);
            assert(gcs[c][0] == e);
            assert(gcs[c].last() == e);
        }
    }
}

/// Appending a new segment to the chain `a` that ends where it starts.
proof fn lemma_grow_append(
    old: Seq<Seq<Edge>>,
    os: Map<HalfPoint, usize>,
    oe: Map<HalfPoint, usize>,
    e: Edge,
    a: int,
)
    requires
        chains_maximal(old),
        maps_complete(old, os, oe),
        fresh_edge(old, e),
        0 <= a < old.len(),
        old[a].len() > 0,
        old[a].last().1 == e.0,
        oe.contains_key(e.0),
        oe[e.0] as int == a,
        !os.contains_key(e.1),
    ensures
        chains_maximal(old.update(a, old[a].push(e))),
        maps_complete(old.update(a, old[a].push(e)), os, oe.remove(e.0).insert(e.1, a as usize)),
{
    let x = old[a].push(e);
    let gcs = old.update(a, x);
    assert(old[a][0].0 != e.0);
    assert(open_chain(old[a]));
    assert(x[0] == old[a][0]);
    assert(x.last() == e);
    assert forall|c: int, d: int|
        #![trigger gcs[c], gcs[d]]
        0 <= c < gcs.len() && 0 <= d < gcs.len() && c != d && gcs[c].len() > 0 && gcs[d].len() > 0 implies gcs[c].last().1
        != gcs[d][0].0 by {
        if c == a {
            assert(gcs[d] == old[d]);
            if !open_chain(old[d]) {
                assert(old[d][old[d].len() - 1].1 != e.1);
            }
        } else if d == a {
            assert(gcs[c] == old[c]);
            assert(old[c].last().1 != old[a][0].0);
        } else {
            assert(gcs[c] == old[c] && gcs[d] == old[d]);
        }
    }
    let en = oe.remove(e.0).insert(e.1, a as usize);
    assert forall|c: int| 0 <= c < gcs.len() && open_chain(#[trigger] gcs[c]) implies {
        &&& os.contains_key(gcs[c][0].0)
        &&& os[gcs[c][0].0] as int == c
        &&& en.contains_key(gcs[c].last().1)
        &&& en[gcs[c].last().1] as int == c
    } by {
        if c != a {
            assert(gcs[c] == old[c]);
            assert(old[c][old[c].len() - 1].1 != e.1);
        }
    }
}

/// Prepending a new segment to the chain `b` that starts where it ends.
proof fn lemma_grow_prepend(
    old: Seq<Seq<Edge>>,
    os: Map<HalfPoint, usize>,
    oe: Map<HalfPoint, usize>,
    e: Edge,
    b: int,
)
    requires
        chains_maximal(old),
        maps_complete(old, os, oe),
        fresh_edge(old, e),
        0 <= b < old.len(),
        old[b].len() > 0,
        old[b][0].0 == e.1,
        os.contains_key(e.1),
        os[e.1] as int == b,
        !oe.contains_key(e.0),
    ensures
        chains_maximal(old.update(b, seq![e] + old[b])),
        maps_complete(old.update(b, seq![e] + old[b]), os.remove(e.1).insert(e.0, b as usize), oe),
{
    let x = seq![e] + old[b];
    let gcs = old.update(b, x);
    assert(old[b][old[b].len() - 1].1 != e.1);
    assert(open_chain(old[b]));
    assert(x[0] == e);
    assert(x.last() == old[b].last());
    assert forall|c: int, d: int|
        #![trigger gcs[c], gcs[d]]
        0 <= c < gcs.len() && 0 <= d < gcs.len() && c != d && gcs[c].len() > 0 && gcs[d].len() > 0 implies gcs[c].last().1
        != gcs[d][0].0 by {
        if d == b {
            assert(gcs[c] == old[c]);
            if !open_chain(old[c]) {
                assert(old[c][0].0 != e.0);
            }
        } else if c == b {
            assert(gcs[d] == old[d]);
            assert(old[b].last().1 != old[d][0].0);
        } else {
            assert(gcs[c] == old[c] && gcs[d] == old[d]);
        }
    }
    let st = os.remove(e.1).insert(e.0, b as usize);
    assert forall|c: int| 0 <= c < gcs.len() && open_chain(#[trigger] gcs[c]) implies {
        &&& st.contains_key(gcs[c][0].0)
        &&& st[gcs[c][0].0] as int == c
        &&& oe.contains_key(gcs[c].last().1)
        &&& oe[gcs[c].last().1] as int == c
    } by {
        if c != b {
            assert(gcs[c] == old[c]);
            assert(old[c][0].0 != e.0);
        }
    }
}

/// Closing the chain `a`: the new segment leads from its end back to its
/// start.
proof fn lemma_grow_close(
    old: Seq<Seq<Edge>>,
    os: Map<HalfPoint, usize>,
    oe: Map<HalfPoint, usize>,
    e: Edge,
    a: int,
)
    requires
        chains_maximal(old),
        maps_complete(old, os, oe),
        fresh_edge(old, e),
        0 <= a < old.len(),
        old[a].len() > 0,
        old[a].last().1 == e.0,
        old[a][0].0 == e.1,
    ensures
        chains_maximal(old.update(a, old[a].push(e))),
        maps_complete(old.update(a, old[a].push(e)), os, oe),
        closed_chain(old.update(a, old[a].push(e))[a]),
{
    let x = old[a].push(e);
    let gcs = old.update(a, x);
    assert(old[a][old[a].len() - 1].1 != e.1);
    assert(open_chain(old[a]));
    assert(x[0] == old[a][0]);
    assert(x.last() == e);
    assert forall|c: int, d: int|
        #![trigger gcs[c], gcs[d]]
        0 <= c < gcs.len() && 0 <= d < gcs.len() && c != d && gcs[c].len() > 0 && gcs[d].len() > 0 implies gcs[c].last().1
        != gcs[d][0].0 by {
        if c == a {
            assert(gcs[d] == old[d]);
            if !open_chain(old[d]) {
                assert(old[d][old[d].len() - 1].1 != e.1);
            }
        } else if d == a {
            assert(gcs[c] == old[c]);
            assert(old[c].last().1 != old[a][0].0);
        } else {
            assert(gcs[c] == old[c] && gcs[d] == old[d]);
        }
    }
    assert forall|c: int| 0 <= c < gcs.len() && open_chain(#[trigger] gcs[c]) implies {
        &&& os.contains_key(gcs[c][0].0)
        &&& os[gcs[c][0].0] as int == c
        &&& oe.contains_key(gcs[c].last().1)
        &&& oe[gcs[c].last().1] as int == c
    } by {
        assert(c != a);
        assert(gcs[c] == old[c]);
    }
}

/// Linking chain `a`, which ends where the new segment starts, and chain
/// `b`, which starts where it ends, into one.
proof fn lemma_grow_link(
    old: Seq<Seq<Edge>>,
    os: Map<HalfPoint, usize>,
    oe: Map<HalfPoint, usize>,
    e: Edge,
    a: int,
    b: int,
)
    requires
        chains_maximal(old),
        maps_complete(old, os, oe),
        fresh_edge(old, e),
        0 <= a < old.len(),
        0 <= b < old.len(),
        a != b,
        old[a].len() > 0,
        old[a].last().1 == e.0,
        oe.contains_key(e.0),
        oe[e.0] as int == a,
        old[b].len() > 0,
        old[b][0].0 == e.1,
        os.contains_key(e.1),
        os[e.1] as int == b,
    ensures
        chains_maximal(old.update(b, seq![]).update(a, old[a].push(e) + old[b])),
        maps_complete(
            old.update(b, seq![]).update(a, old[a].push(e) + old[b]),
            os.remove(e.1),
            oe.remove(old[b].last().1).remove(e.0).insert(old[b].last().1, a as usize),
        ),
{
    let x = old[a].push(e) + old[b];
    let gcs = old.update(b, seq![]).update(a, x);
    let kb = old[b].last().1;
    assert(old[a][0].0 != e.0);
    assert(open_chain(old[a]));
    assert(old[b][old[b].len() - 1].1 != e.1);
    assert(open_chain(old[b]));
    assert(x[0] == old[a][0]);
    assert(x.last() == old[b].last());
    assert(kb != old[a][0].0);
    assert forall|c: int, d: int|
        #![trigger gcs[c], gcs[d]]
        0 <= c < gcs.len() && 0 <= d < gcs.len() && c != d && gcs[c].len() > 0 && gcs[d].len() > 0 implies gcs[c].last().1
        != gcs[d][0].0 by {
        if c == a {
            assert(d != b);
            assert(gcs[d] == old[d]);
            assert(old[b].last().1 != old[d][0].0);
        } else if d == a {
            assert(c != b);
            assert(gcs[c] == old[c]);
            assert(old[c].last().1 != old[a][0].0);
        } else {
            assert(c != b && d != b);
            assert(gcs[c] == old[c] && gcs[d] == old[d]);
        }
    }
    let st = os.remove(e.1);
    let en = oe.remove(kb).remove(e.0).insert(kb, a as usize);
    assert forall|c: int| 0 <= c < gcs.len() && open_chain(#[trigger] gcs[c]) implies {
        &&& st.contains_key(gcs[c][0].0)
        &&& st[gcs[c][0].0] as int == c
        &&& en.contains_key(gcs[c].last().1)
        &&& en[gcs[c].last().1] as int == c
    } by {
        if c != a {
            assert(c != b);
            assert(gcs[c] == old[c]);
        }
    }
}

/// Every segment ends where some segment starts.
pub open spec fn balanced(s: Seq<Edge>) -> bool {
    forall|k: int| 0 <= k < s.len() ==> starts_in(s, (#[trigger] s[k]).1)
}

/// The `i`-th segment of a sequence without shared starts or ends shares
/// neither with the chains of the segments before it.
proof fn lemma_fresh(input: Seq<Edge>, i: int, gcs: Seq<Seq<Edge>>)
    requires
        0 <= i < input.len(),
        unique_starts(input),
        unique_ends(input),
        chains_multiset(gcs) == input.subrange(0, i).to_multiset(),
    ensures
        fresh_edge(gcs, input[i]),
{
    broadcast use vstd::multiset::group_multiset_axioms;

    let done = input.subrange(0, i);
    done.to_multiset_ensures();
    assert forall|c: int, k: int| 0 <= c < gcs.len() && 0 <= k < gcs[c].len() implies (#[trigger] gcs[c][k]).0
        != input[i].0 && gcs[c][k].1 != input[i].1 by {
        lemma_chain_member(gcs, c, k);
        assert(done.to_multiset().count(gcs[c][k]) > 0);
        assert(done.contains(gcs[c][k]));
        let j = choose|j: int| 0 <= j < done.len() && done[j] == gcs[c][k];
        assert(input[j] == done[j]);
    }
}

/// Each chain element is among the segments counted by
/// [`chains_multiset`].
proof fn lemma_chain_member(gcs: Seq<Seq<Edge>>, c: int, k: int)
    requires
        0 <= c < gcs.len(),
        0 <= k < gcs[c].len(),
    ensures
        chains_multiset(gcs).count(gcs[c][k]) > 0,
    decreases gcs.len(),
{
    broadcast use vstd::multiset::group_multiset_axioms;

    let x = gcs[c][k];
    if c == gcs.len() - 1 {
        gcs.last().to_multiset_ensures();
        assert(gcs.last().contains(x));
    } else {
        lemma_chain_member(gcs.drop_last(), c, k);
        assert(gcs.drop_last()[c] == gcs[c]);
    }
}

/// All chains, one after the other.
spec fn flat(gcs: Seq<Seq<Edge>>) -> Seq<Edge>
    decreases gcs.len(),
{
    if gcs.len() == 0 {
        seq![]
    } else {
        flat(gcs.drop_last()) + gcs.last()
    }
}

proof fn lemma_flat_multiset(gcs: Seq<Seq<Edge>>)
    ensures
        flat(gcs).to_multiset() == chains_multiset(gcs),
    decreases gcs.len(),
{
    broadcast use vstd::multiset::group_multiset_axioms;

    if gcs.len() == 0 {
        assert(flat(gcs).to_multiset() =~= Multiset::empty()) by {
            flat(gcs).to_multiset_ensures();
        }
    } else {
        lemma_flat_multiset(gcs.drop_last());
        vstd::seq_lib::lemma_multiset_commutative(flat(gcs.drop_last()), gcs.last());
    }
}

/// Chain `c` of `gcs` sits in `flat(gcs)` right after the chains before it.
proof fn lemma_flat_index(gcs: Seq<Seq<Edge>>, c: int, k: int)
    requires
        0 <= c < gcs.len(),
        0 <= k < gcs[c].len(),
    ensures
        flat(gcs.take(c)).len() + gcs[c].len() <= flat(gcs).len(),
        flat(gcs)[flat(gcs.take(c)).len() + k] == gcs[c][k],
    decreases gcs.len(),
{
    if c == gcs.len() - 1 {
        assert(gcs.drop_last() =~= gcs.take(c));
    } else {
        lemma_flat_index(gcs.drop_last(), c, k);
        assert(gcs.drop_last().take(c) =~= gcs.take(c));
        assert(gcs.drop_last()[c] == gcs[c]);
    }
}

/// The chains before chain `d` take up at least those before chain `c`
/// and chain `c` itself, when `c < d`.
proof fn lemma_flat_take_grows(gcs: Seq<Seq<Edge>>, c: int, d: int)
    requires
        0 <= c < d <= gcs.len(),
    ensures
        flat(gcs.take(c)).len() + gcs[c].len() <= flat(gcs.take(d)).len(),
    decreases d - c,
{
    assert(gcs.take(c + 1).drop_last() =~= gcs.take(c));
    assert(gcs.take(c + 1).last() == gcs[c]);
    if d > c + 1 {
        lemma_flat_take_grows(gcs, c + 1, d);
        assert(gcs.take(d).drop_last() =~= gcs.take(d - 1));
        if c + 1 < d - 1 {
            lemma_flat_take_grows(gcs, c + 1, d - 1);
        }
    }
}

/// With no segment sharing a start or an end with another and every end
/// the start of some segment, maximal connected chains close up.
proof fn lemma_chains_closed(input: Seq<Edge>, gcs: Seq<Seq<Edge>>)
    requires
        chains_multiset(gcs) == input.to_multiset(),
        unique_starts(input),
        unique_ends(input),
        forall|k: int| 0 <= k < input.len() ==> starts_in(input, (#[trigger] input[k]).1),
        chains_maximal(gcs),
        forall|c: int| 0 <= c < gcs.len() ==> connected(#[trigger] gcs[c]),
    ensures
        forall|c: int| 0 <= c < gcs.len() && (#[trigger] gcs[c]).len() > 0 ==> closed_chain(gcs[c]),
{
    assert forall|c: int| 0 <= c < gcs.len() && (#[trigger] gcs[c]).len() > 0 implies closed_chain(gcs[c]) by {
        lemma_chain_closed(input, gcs, c);
    }
}

/// One chain of [`lemma_chains_closed`].
proof fn lemma_chain_closed(input: Seq<Edge>, gcs: Seq<Seq<Edge>>, c: int)
    requires
        chains_multiset(gcs) == input.to_multiset(),
        unique_starts(input),
        unique_ends(input),
        forall|k: int| 0 <= k < input.len() ==> starts_in(input, (#[trigger] input[k]).1),
        chains_maximal(gcs),
        forall|c: int| 0 <= c < gcs.len() ==> connected(#[trigger] gcs[c]),
        0 <= c < gcs.len(),
        gcs[c].len() > 0,
    ensures
        closed_chain(gcs[c]),
{
    let fl = flat(gcs);
    lemma_flat_multiset(gcs);
    let ch = gcs[c];
    let last = ch.len() - 1;
    let p = ch[last].1;
    if p != ch[0].0 {
        // the segment that starts where the chain ends
        let f = lemma_next_segment(input, gcs, c);
        assert(f.0 == p);
        let i = lemma_in_flat(input, fl, f);
        let (d, l) = lemma_flat_locate(gcs, i);
        if l == 0 {
            assert(gcs[d][0].0 == p);
            if d != c {
                assert(gcs[c].last().1 != gcs[d][0].0);
            }
        } else {
            assert(connected(gcs[d]));
            assert(gcs[d][l - 1].1 == gcs[d][l].0);
            // two chain positions end at `p`: (d, l - 1) and (c, last)
            let i1 = lemma_flat_place(gcs, d, l - 1);
            let i2 = lemma_flat_place(gcs, c, last);
            assert(i1 != i2) by {
                if d < c {
                    lemma_flat_take_grows(gcs, d, c);
                } else if d > c {
                    lemma_flat_take_grows(gcs, c, d);
                }
            }
            assert(fl[i1].1 == fl[i2].1);
            lemma_ends_of_permutation(input, fl, i1, i2);
        }
    }
}

/// A segment of the input that starts where chain `c` ends.
proof fn lemma_next_segment(input: Seq<Edge>, gcs: Seq<Seq<Edge>>, c: int) -> (f: Edge)
    requires
        chains_multiset(gcs) == input.to_multiset(),
        forall|k: int| 0 <= k < input.len() ==> starts_in(input, (#[trigger] input[k]).1),
        0 <= c < gcs.len(),
        gcs[c].len() > 0,
    ensures
        input.contains(f),
        f.0 == gcs[c].last().1,
{
    broadcast use vstd::multiset::group_multiset_axioms;

    let ch = gcs[c];
    let last = ch.len() - 1;
    lemma_chain_member(gcs, c, last);
    input.to_multiset_ensures();
    assert(input.to_multiset().count(ch[last]) > 0);
    assert(input.contains(ch[last]));
    let q = choose|q: int| 0 <= q < input.len() && input[q] == ch[last];
    assert(starts_in(input, input[q].1));
    let j = choose|j: int| 0 <= j < input.len() && #[trigger] input[j].0 == ch[last].1;
    assert(input.contains(input[j]));
    input[j]
}

/// The position in `fl` of a segment of `input`, when both hold the same
/// segments.
proof fn lemma_in_flat(input: Seq<Edge>, fl: Seq<Edge>, f: Edge) -> (i: int)
    requires
        fl.to_multiset() == input.to_multiset(),
        input.contains(f),
    ensures
        0 <= i < fl.len(),
        fl[i] == f,
{
    broadcast use vstd::multiset::group_multiset_axioms;

    input.to_multiset_ensures();
    fl.to_multiset_ensures();
    assert(input.to_multiset().count(f) > 0);
    assert(fl.to_multiset().count(f) > 0);
    assert(fl.contains(f));
    choose|i: int| 0 <= i < fl.len() && fl[i] == f
}

/// The position in `flat(gcs)` of element `k` of chain `c`.
proof fn lemma_flat_place(gcs: Seq<Seq<Edge>>, c: int, k: int) -> (i: int)
    requires
        0 <= c < gcs.len(),
        0 <= k < gcs[c].len(),
    ensures
        i == flat(gcs.take(c)).len() + k,
        0 <= i < flat(gcs).len(),
        flat(gcs)[i] == gcs[c][k],
{
    lemma_flat_index(gcs, c, k);
    flat(gcs.take(c)).len() + k
}

/// The chain and the position in it of element `i` of `flat(gcs)`.
proof fn lemma_flat_locate(gcs: Seq<Seq<Edge>>, i: int) -> (r: (int, int))
    requires
        0 <= i < flat(gcs).len(),
    ensures
        0 <= r.0 < gcs.len(),
        0 <= r.1 < gcs[r.0].len(),
        gcs[r.0][r.1] == flat(gcs)[i],
    decreases gcs.len(),
{
    let prev = flat(gcs.drop_last());
    if i < prev.len() {
        let (c, k) = lemma_flat_locate(gcs.drop_last(), i);
        assert(gcs.drop_last()[c] == gcs[c]);
        (c, k)
    } else {
        (gcs.len() - 1, i - prev.len())
    }
}

/// Two different positions of a rearrangement of a sequence without shared
/// ends hold segments with different ends.
proof fn lemma_ends_of_permutation(input: Seq<Edge>, fl: Seq<Edge>, i1: int, i2: int)
    requires
        fl.to_multiset() == input.to_multiset(),
        unique_starts(input),
        unique_ends(input),
        0 <= i1 < fl.len(),
        0 <= i2 < fl.len(),
        i1 != i2,
    ensures
        fl[i1].1 != fl[i2].1,
{
    broadcast use vstd::multiset::group_multiset_axioms;

    fl.to_multiset_ensures();
    input.to_multiset_ensures();
    if fl[i1].1 == fl[i2].1 {
        assert(input.no_duplicates()) by {
            assert forall|x: int, y: int| 0 <= x < input.len() && 0 <= y < input.len() && x != y implies input[x]
                != input[y] by {
                if x < y {
                    assert(input[x].0 != input[y].0);
                } else {
                    assert(input[y].0 != input[x].0);
                }
            }
        }
        input.lemma_multiset_has_no_duplicates();
        assert forall|x: Edge| fl.to_multiset().contains(x) implies fl.to_multiset().count(x) == 1 by {}
        fl.lemma_multiset_has_no_duplicates_conv();
        assert(fl[i1] != fl[i2]);
        assert(fl.contains(fl[i1]));
        assert(fl.contains(fl[i2]));
        assert(fl.to_multiset().count(fl[i1]) > 0);
        assert(fl.to_multiset().count(fl[i2]) > 0);
        assert(input.contains(fl[i1]));
        assert(input.contains(fl[i2]));
        let x = choose|x: int| 0 <= x < input.len() && input[x] == fl[i1];
        let y = choose|y: int| 0 <= y < input.len() && input[y] == fl[i2];
        assert(x != y);
        if x < y {
            assert(input[x].1 != input[y].1);
        } else {
            assert(input[y].1 != input[x].1);
        }
    }
}

/// The loop invariant of [`sort_edges`] after the first `i` segments of
/// `input`, with chains `gcs` and the maps from chain starts and chain ends.
pub open spec fn sorting_state(
    input: Seq<Edge>,
    i: int,
    gcs: Seq<Seq<Edge>>,
    starts: Map<HalfPoint, usize>,
    ends: Map<HalfPoint, usize>,
) -> bool {
    let done = input.subrange(0, i);
    &&& forall|k: HalfPoint|
        #[trigger] starts.contains_key(k) ==> {
            let c = starts[k] as int;
            &&& c < gcs.len()
            &&& gcs[c].len() > 0
            &&& gcs[c][0].0 == k
        }
    &&& forall|k: HalfPoint|
        #[trigger] ends.contains_key(k) ==> {
            let c = ends[k] as int;
            &&& c < gcs.len()
            &&& (gcs[c].len() > 0 && gcs[c].last().1 == k) || starts_in(done, k)
        }
    &&& forall|k1: HalfPoint, k2: HalfPoint|
        #[trigger] ends.contains_key(k1) && #[trigger] ends.contains_key(k2) && ends[k1] == ends[k2] ==> k1 == k2
    &&& unique_starts(input) && unique_ends(input) ==> forall|c: int|
        0 <= c < gcs.len() ==> connected(#[trigger] gcs[c])
    &&& chains_multiset(gcs) == done.to_multiset()
    &&& forall|c: int| 0 <= c < gcs.len() ==> edges_in_range(#[trigger] gcs[c])
}

/// The chains built so far, with the maps from the start and from the end
/// of each open chain to its number.
pub type ChainState = (Seq<Seq<Edge>>, Map<HalfPoint, usize>, Map<HalfPoint, usize>);

/// One step of the chaining in [`sort_edges`]: segment `e` goes after the
/// chain that ends where it starts, before the chain that starts where it
/// ends, closes a chain that does both, or links the two chains, moving the
/// second one (which is left empty) behind the first; with neither, it
/// starts a new chain at the end of the list.
pub open spec fn chain_step(st: ChainState, e: Edge) -> ChainState {
    let (gcs, starts, ends) = st;
    let (s, t) = e;
    if !ends.contains_key(s) && !starts.contains_key(t) {
        (gcs.push(seq![e]), starts.insert(s, gcs.len() as usize), ends.insert(t, gcs.len() as usize))
    } else if ends.contains_key(s) && !starts.contains_key(t) {
        let a = ends[s] as int;
        (gcs.update(a, gcs[a].push(e)), starts, ends.remove(s).insert(t, a as usize))
    } else if !ends.contains_key(s) && starts.contains_key(t) {
        let b = starts[t] as int;
        (gcs.update(b, seq![e] + gcs[b]), starts.remove(t).insert(s, b as usize), ends)
    } else if ends[s] == starts[t] {
        let a = ends[s] as int;
        (gcs.update(a, gcs[a].push(e)), starts, ends)
    } else {
        let a = ends[s] as int;
        let b = starts[t] as int;
        let end_key = gcs[b].last().1;
        (
            gcs.update(b, seq![]).update(a, gcs[a].push(e) + gcs[b]),
            starts.remove(t),
            ends.remove(end_key).remove(s).insert(end_key, a as usize),
        )
    }
}

/// The state after chaining the first `i` segments of `input`.
pub open spec fn chain_run(input: Seq<Edge>, i: int) -> ChainState
    decreases i,
{
    if i <= 0 {
        (seq![], Map::empty(), Map::empty())
    } else {
        chain_step(chain_run(input, i - 1), input[i - 1])
    }
}

/// The chains that [`sort_edges`] builds from `input`, in the order they
/// were started; a chain linked behind another is left empty.
pub open spec fn sorted_chains(input: Seq<Edge>) -> Seq<Seq<Edge>> {
    chain_run(input, input.len() as int).0
}

/// Reorders the segments into chains and joins each chain, see
/// [`chains_of`] and [`join_spec`]. Each segment is appended to the chain
/// that ends where it starts, prepended to the chain that starts where it
/// ends, or links two such chains; otherwise it starts a new chain.
pub fn sort_edges(edges: &mut Vec<Edge>)
    requires
        edges_in_range(old(edges)@),
    ensures
        final(edges)@ == joined_chains(sorted_chains(old(edges)@)),
        exists|cs: Seq<Seq<Edge>>|
            {
                &&& cs == nonempty_chains(sorted_chains(old(edges)@))
                &&& chains_of(old(edges)@, cs)
                &&& final(edges)@ == joined_chains(cs)
                &&& unique_starts(old(edges)@) && unique_ends(old(edges)@) && balanced(old(edges)@) ==> forall|c: int|
                    0 <= c < cs.len() ==> closed_chain(#[trigger] cs[c])
            },
{
    let ghost input = edges@;
    let n = edges.len();
    let mut chains: Vec<std::collections::VecDeque<Edge>> = Vec::new();
    let ghost mut gcs: Seq<Seq<Edge>> = seq![];
    let mut chain_starts = PointMap::new();
    let mut chain_ends = PointMap::new();
    proof {
        assert(input.subrange(0, 0).to_multiset() =~= Multiset::empty()) by {
            input.subrange(0, 0).to_multiset_ensures();
        }
    }
    let mut i: usize = 0;
    while i < n
        invariant
            input == edges@,
            n == input.len(),
            i <= n,
            edges_in_range(input),
            gcs.len() == chains@.len(),
            forall|c: int| 0 <= c < gcs.len() ==> #[trigger] gcs[c] == chains@[c]@,
            sorting_state(input, i as int, gcs, chain_starts@, chain_ends@),
            chain_run(input, i as int) == (gcs, chain_starts@, chain_ends@),
            unique_starts(input) && unique_ends(input) ==> chains_maximal(gcs) && maps_complete(
                gcs,
                chain_starts@,
                chain_ends@,
            ),
        decreases n - i,
    {
        let ghost og = gcs;
        let ghost os = chain_starts@;
        let ghost oe = chain_ends@;
        let edge = edges[i];
        let start = edge.0;
        let end = edge.1;
        let ghost done = input.subrange(0, i as int);
        let ghost done2 = input.subrange(0, i + 1);
        proof {
            assert(done2 =~= done.push(edge));
            done.to_multiset_ensures();
            assert(point_in_range(input[i as int].0));
            if unique_starts(input) {
                assert(!starts_in(done, start)) by {
                    if starts_in(done, start) {
                        let j = choose|j: int| 0 <= j < done.len() && #[trigger] done[j].0 == start;
                        assert(input[j].0 == input[i as int].0);
                    }
                }
            }
            assert forall|k: HalfPoint| starts_in(done, k) implies starts_in(done2, k) by {
                let j = choose|j: int| 0 <= j < done.len() && #[trigger] done[j].0 == k;
                assert(done2[j].0 == k);
            }
            assert(starts_in(done2, start)) by {
                assert(done2[i as int].0 == start);
            }
        }
        let start_chain = chain_ends.get(start);
        let end_chain = chain_starts.get(end);
        match (start_chain, end_chain) {
            (None, None) => {
                let idx = chains.len();
                let mut chain = std::collections::VecDeque::with_capacity(256);
                chain.push_back(edge);
                chains.push(chain);
                proof {
                    let ghost old_gcs = gcs;
                    gcs = gcs.push(seq![edge]);
                    assert(gcs.drop_last() =~= old_gcs);
                    assert(chains_multiset(gcs) == chains_multiset(old_gcs).add(seq![edge].to_multiset()));
                    seq![edge].to_multiset_ensures();
                    Seq::<Edge>::empty().to_multiset_ensures();
                    assert(seq![edge] =~= Seq::<Edge>::empty().push(edge));
                    assert(chains_multiset(gcs) =~= done2.to_multiset());
                    assert(edges_in_range(seq![edge]));
                }
                chain_starts.insert(start, idx);
                chain_ends.insert(end, idx);
                proof {
                    assert(sorting_state(input, i + 1, gcs, chain_starts@, chain_ends@));
                    if unique_starts(input) && unique_ends(input) {
                        lemma_fresh(input, i as int, og);
                        assert(chains.len() == og.len() + 1);
                        lemma_grow_new_chain(og, os, oe, edge);
                    }
                    assert(chain_step((og, os, oe), edge) == (gcs, chain_starts@, chain_ends@));
                }
            },
            (Some(a), None) => {
                proof {
                    assert(chain_ends@.contains_key(start));
                    assert(a < gcs.len());
                }
                let ghost old_ends = chain_ends@;
                let ghost old_gcs_a = gcs[a as int];
                chains[a].push_back(edge);
                proof {
                    let ghost old_gcs = gcs;
                    let ghost x = old_gcs[a as int].push(edge);
                    gcs = gcs.update(a as int, x);
                    lemma_chains_multiset_update(old_gcs, a as int, x);
                    old_gcs[a as int].to_multiset_ensures();
                    lemma_multiset_cancel_insert(
                        chains_multiset(gcs),
                        chains_multiset(old_gcs),
                        old_gcs[a as int].to_multiset(),
                        edge,
                    );
                    if unique_starts(input) && unique_ends(input) {
                        assert(old_gcs[a as int].len() > 0 && old_gcs[a as int].last().1 == start);
                        assert(connected(old_gcs[a as int]));
                        assert(connected(x));
                    }
                    assert(edges_in_range(x)) by {
                        assert(edges_in_range(old_gcs[a as int]));
                    }
                }
                chain_ends.remove(start);
                chain_ends.insert(end, a);
                proof {
                    let st = chain_starts@;
                    let en = chain_ends@;
                    assert forall|k: HalfPoint| #[trigger] st.contains_key(k) implies {
                        let c = st[k] as int;
                        &&& c < gcs.len()
                        &&& gcs[c].len() > 0
                        &&& gcs[c][0].0 == k
                    } by {
                        let c = st[k] as int;
                        if c == a {
                            assert(old_gcs_a.len() > 0);
                            assert(gcs[c][0] == old_gcs_a[0]);
                        }
                    }
                    assert forall|k: HalfPoint| #[trigger] en.contains_key(k) implies {
                        let c = en[k] as int;
                        &&& c < gcs.len()
                        &&& (gcs[c].len() > 0 && gcs[c].last().1 == k) || starts_in(done2, k)
                    } by {
                        let c = en[k] as int;
                        if k != end {
                            assert(k != start);
                            assert(old_ends.contains_key(k));
                            assert(old_ends.contains_key(start));
                            assert(c != a);
                        }
                    }
                    assert forall|k1: HalfPoint, k2: HalfPoint|
                        #[trigger] en.contains_key(k1) && #[trigger] en.contains_key(k2) && en[k1] == en[k2] implies k1
                        == k2 by {
                        if k1 != end && k2 != end {
                            assert(old_ends.contains_key(k1));
                            assert(old_ends.contains_key(k2));
                        } else if k1 == end && k2 != end {
                            assert(old_ends.contains_key(k2));
                            assert(old_ends.contains_key(start));
                        } else if k2 == end && k1 != end {
                            assert(old_ends.contains_key(k1));
                            assert(old_ends.contains_key(start));
                        }
                    }
                    assert(sorting_state(input, i + 1, gcs, chain_starts@, chain_ends@));
                }
                proof {
                    if unique_starts(input) && unique_ends(input) {
                        lemma_fresh(input, i as int, og);
                        lemma_grow_append(og, os, oe, edge, a as int);
                    }
                    assert(chain_step((og, os, oe), edge) == (gcs, chain_starts@, chain_ends@));
                }
            },
            (None, Some(b)) => {
                proof {
                    assert(chain_starts@.contains_key(end));
                    assert(b < gcs.len());
                }
                let ghost old_starts = chain_starts@;
                let ghost old_gcs_b = gcs[b as int];
                chains[b].push_front(edge);
                proof {
                    let ghost old_gcs = gcs;
                    let ghost x = seq![edge] + old_gcs[b as int];
                    gcs = gcs.update(b as int, x);
                    lemma_chains_multiset_update(old_gcs, b as int, x);
                    lemma_prepend_multiset(edge, old_gcs[b as int]);
                    lemma_multiset_cancel_insert(
                        chains_multiset(gcs),
                        chains_multiset(old_gcs),
                        old_gcs[b as int].to_multiset(),
                        edge,
                    );
                    if unique_starts(input) && unique_ends(input) {
                        assert(connected(old_gcs[b as int]));
                        assert(connected(x));
                    }
                    assert(edges_in_range(x)) by {
                        assert(edges_in_range(old_gcs[b as int]));
                    }
                }
                chain_starts.remove(end);
                chain_starts.insert(start, b);
                proof {
                    let st = chain_starts@;
                    let en = chain_ends@;
                    assert forall|k: HalfPoint| #[trigger] st.contains_key(k) implies {
                        let c = st[k] as int;
                        &&& c < gcs.len()
                        &&& gcs[c].len() > 0
                        &&& gcs[c][0].0 == k
                    } by {
                        if k != start {
                            assert(k != end);
                            assert(old_starts.contains_key(k));
                        }
                    }
                    assert forall|k: HalfPoint| #[trigger] en.contains_key(k) implies {
                        let c = en[k] as int;
                        &&& c < gcs.len()
                        &&& (gcs[c].len() > 0 && gcs[c].last().1 == k) || starts_in(done2, k)
                    } by {
                        let c = en[k] as int;
                        if c == b {
                            assert(gcs[c].last() == old_gcs_b.last());
                        }
                    }
                    assert(sorting_state(input, i + 1, gcs, chain_starts@, chain_ends@));
                }
                proof {
                    if unique_starts(input) && unique_ends(input) {
                        lemma_fresh(input, i as int, og);
                        lemma_grow_prepend(og, os, oe, edge, b as int);
                    }
                    assert(chain_step((og, os, oe), edge) == (gcs, chain_starts@, chain_ends@));
                }
            },
            (Some(a), Some(b)) => {
                proof {
                    assert(chain_ends@.contains_key(start));
                    assert(chain_starts@.contains_key(end));
                }
                let ghost old_ends = chain_ends@;
                let ghost old_starts = chain_starts@;
                let ghost old_gcs = gcs;
                if a == b {
                    chains[a].push_back(edge);
                    proof {
                        let x = old_gcs[a as int].push(edge);
                        gcs = gcs.update(a as int, x);
                        lemma_chains_multiset_update(old_gcs, a as int, x);
                        old_gcs[a as int].to_multiset_ensures();
                        lemma_multiset_cancel_insert(
                            chains_multiset(gcs),
                            chains_multiset(old_gcs),
                            old_gcs[a as int].to_multiset(),
                            edge,
                        );
                        if unique_starts(input) && unique_ends(input) {
                            assert(connected(old_gcs[a as int]));
                            lemma_connected_link(old_gcs[a as int], edge, seq![]);
                            assert(x + seq![] =~= x);
                        }
                        assert(edges_in_range(x)) by {
                            assert(edges_in_range(old_gcs[a as int]));
                        }
                        let st = chain_starts@;
                        let en = chain_ends@;
                        assert forall|k: HalfPoint| #[trigger] st.contains_key(k) implies {
                            let c = st[k] as int;
                            &&& c < gcs.len()
                            &&& gcs[c].len() > 0
                            &&& gcs[c][0].0 == k
                        } by {
                            let c = st[k] as int;
                            if c == a {
                                assert(gcs[c][0] == old_gcs[c][0]);
                            }
                        }
                        assert forall|k: HalfPoint| #[trigger] en.contains_key(k) implies {
                            let c = en[k] as int;
                            &&& c < gcs.len()
                            &&& (gcs[c].len() > 0 && gcs[c].last().1 == k) || starts_in(done2, k)
                        } by {
                            let c = en[k] as int;
                            if c == a {
                                assert(en.contains_key(start));
                                assert(k == start);
                            }
                        }
                        assert(sorting_state(input, i + 1, gcs, chain_starts@, chain_ends@));
                    }
                    proof {
                        if unique_starts(input) && unique_ends(input) {
                            lemma_fresh(input, i as int, og);
                            lemma_grow_close(og, os, oe, edge, a as int);
                        }
                        assert(chain_step((og, os, oe), edge) == (gcs, chain_starts@, chain_ends@));
                    }
                } else {
                    let mut end_chain: std::collections::VecDeque<Edge> = std::collections::VecDeque::new();
                    std::mem::swap(&mut chains[b], &mut end_chain);
                    chain_starts.remove(end);
                    let end_key = end_chain[end_chain.len() - 1].1;
                    chain_ends.remove(end_key);
                    chains[a].push_back(edge);
                    chains[a].append(&mut end_chain);
                    chain_ends.remove(start);
                    chain_ends.insert(end_key, a);
                    proof {
                        let old_a = old_gcs[a as int];
                        let old_b = old_gcs[b as int];
                        let x = old_a.push(edge) + old_b;
                        gcs = old_gcs.update(b as int, seq![]).update(a as int, x);
                        assert(chains@[a as int]@ == x);
                        assert(chains@[b as int]@ == Seq::<Edge>::empty());
                        lemma_merge_multiset(old_gcs, a as int, b as int, edge);
                        assert(end_key == old_b.last().1);
                        assert(x.last() == old_b.last());
                        if unique_starts(input) && unique_ends(input) {
                            assert(connected(old_a));
                            assert(connected(old_b));
                            lemma_connected_link(old_a, edge, old_b);
                        }
                        assert(edges_in_range(x)) by {
                            assert(edges_in_range(old_a));
                            assert(edges_in_range(old_b));
                        }
                        assert(connected(Seq::<Edge>::empty()));
                        assert(edges_in_range(Seq::<Edge>::empty()));
                        let st = chain_starts@;
                        let en = chain_ends@;
                        assert forall|k: HalfPoint| #[trigger] st.contains_key(k) implies {
                            let c = st[k] as int;
                            &&& c < gcs.len()
                            &&& gcs[c].len() > 0
                            &&& gcs[c][0].0 == k
                        } by {
                            let c = st[k] as int;
                            assert(old_starts.contains_key(k));
                            assert(k != end);
                            assert(c != b);
                            if c == a {
                                assert(gcs[c][0] == old_a[0]);
                            }
                        }
                        assert forall|k: HalfPoint| #[trigger] en.contains_key(k) implies {
                            let c = en[k] as int;
                            &&& c < gcs.len()
                            &&& (gcs[c].len() > 0 && gcs[c].last().1 == k) || starts_in(done2, k)
                        } by {
                            let c = en[k] as int;
                            if k != end_key {
                                assert(k != start);
                                assert(old_ends.contains_key(k));
                                assert(c != a);
                            }
                        }
                        assert forall|k1: HalfPoint, k2: HalfPoint|
                            #[trigger] en.contains_key(k1) && #[trigger] en.contains_key(k2) && en[k1] == en[k2]
                            implies k1 == k2 by {
                            if k1 != end_key && k2 != end_key {
                                assert(old_ends.contains_key(k1));
                                assert(old_ends.contains_key(k2));
                            } else if k1 == end_key && k2 != end_key {
                                assert(old_ends.contains_key(k2));
                                assert(old_ends.contains_key(start));
                            } else if k2 == end_key && k1 != end_key {
                                assert(old_ends.contains_key(k1));
                                assert(old_ends.contains_key(start));
                            }
                        }
                        assert(sorting_state(input, i + 1, gcs, chain_starts@, chain_ends@));
                    }
                    proof {
                        if unique_starts(input) && unique_ends(input) {
                            lemma_fresh(input, i as int, og);
                            lemma_grow_link(og, os, oe, edge, a as int, b as int);
                        }
                        assert(chain_step((og, os, oe), edge) == (gcs, chain_starts@, chain_ends@));
                    }
                }
            },
        }
        proof {
            assert(chain_run(input, i + 1) == chain_step(chain_run(input, i as int), input[i as int]));
        }
        i = i + 1;
    }
    proof {
        assert(input.subrange(0, n as int) =~= input);
        assert(sorted_chains(input) == gcs);
    }
    edges.clear();
    let mut c: usize = 0;
    while c < chains.len()
        invariant
            c <= chains@.len(),
            gcs.len() == chains@.len(),
            forall|k: int| 0 <= k < gcs.len() ==> #[trigger] gcs[k] == chains@[k]@,
            forall|k: int| 0 <= k < gcs.len() ==> edges_in_range(#[trigger] gcs[k]),
            edges@ == joined_chains(gcs.subrange(0, c as int)),
            gcs == sorted_chains(input),
        decreases chains.len() - c,
    {
        proof {
            assert(gcs.subrange(0, c + 1).drop_last() =~= gcs.subrange(0, c as int));
            assert(gcs.subrange(0, c + 1).last() == gcs[c as int]);
        }
        if chains[c].len() > 0 {
            let v = deque_to_vec(&chains[c]);
            let mut joined = join_edges(v.as_slice());
            edges.append(&mut joined);
        }
        c = c + 1;
    }
    proof {
        assert(gcs.subrange(0, gcs.len() as int) =~= gcs);
        assert(sorted_chains(input) == gcs);
        lemma_nonempty_chains(gcs);
        let cs = nonempty_chains(gcs);
        assert forall|k: int| 0 <= k < cs.len() implies (#[trigger] cs[k]).len() > 0 && edges_in_range(cs[k]) by {
            let d = choose|d: int| 0 <= d < gcs.len() && gcs[d] == cs[k];
            assert(edges_in_range(gcs[d]));
        }
        if unique_starts(input) && unique_ends(input) {
            assert forall|k: int| 0 <= k < cs.len() implies connected(#[trigger] cs[k]) by {
                let d = choose|d: int| 0 <= d < gcs.len() && gcs[d] == cs[k];
                assert(connected(gcs[d]));
            }
        }
        assert(chains_of(input, cs));
        if unique_starts(input) && unique_ends(input) && balanced(input) {
            assert(input.subrange(0, n as int) =~= input);
            lemma_chains_closed(input, gcs);
            assert forall|k: int| 0 <= k < cs.len() implies closed_chain(#[trigger] cs[k]) by {
                let d = choose|d: int| 0 <= d < gcs.len() && gcs[d] == cs[k];
            }
        }
    }
}

/// Bit `e` of `v`.
pub open spec fn has_bit(v: u8, e: u8) -> bool {
    (v >> e) & 1u8 == 1u8
}

proof fn lemma_set_bit(v: u8, d: u8)
    requires
        d < 8,
    ensures
        forall|e: u8| e < 8 ==> #[trigger] has_bit(v | (1u8 << d), e) == (has_bit(v, e) || e == d),
{
    assert forall|e: u8| e < 8 implies #[trigger] has_bit(v | (1u8 << d), e) == (has_bit(v, e) || e == d) by {
        assert(((v | (1u8 << d)) >> e) & 1u8 == 1u8 <==> (((v >> e) & 1u8 == 1u8) || e == d)) by (bit_vector)
            requires
                d < 8,
                e < 8,
        ;
    }
}

proof fn lemma_zero_bits()
    ensures
        forall|e: u8| e < 8 ==> !#[trigger] has_bit(0u8, e),
{
    assert forall|e: u8| e < 8 implies !#[trigger] has_bit(0u8, e) by {
        assert((0u8 >> e) & 1u8 == 0u8) by (bit_vector);
    }
}

/// What the calls of `walkable` and `can_climb` made for storage position
/// `idx` and direction `d` of `height_map` returned, given that the cell
/// gets connection bit `d` exactly when `linked` holds.
pub open spec fn link_outcome<T, W: Fn(&T) -> bool, C: Fn(&T, &T) -> bool>(
    height_map: &Grid<T>,
    walkable: W,
    can_climb: C,
    idx: int,
    d: int,
    linked: bool,
) -> bool {
    let h = height_map.contents()[idx];
    let nb = offset_cell(height_map.cell_of(idx), neighborhood_4_spec()[d]);
    let hn = height_map.value(nb);
    if linked {
        &&& walkable.ensures((&h,), true)
        &&& height_map.in_grid(nb)
        &&& walkable.ensures((&hn,), true)
        &&& can_climb.ensures((&h, &hn), true)
    } else {
        ||| walkable.ensures((&h,), false)
        ||| !height_map.in_grid(nb)
        ||| walkable.ensures((&hn,), false)
        ||| can_climb.ensures((&h, &hn), false)
    }
}

/// For each cell, the directions of [`neighborhood_4`](crate::grid::neighborhood_4)
/// in which an agent can move: bit `d` is set when the cell and its
/// neighbor `d` are walkable and the step between their heights can be
/// climbed. A cell that is not walkable has no connections.
pub fn generate_connections<T, W: Fn(&T) -> bool, C: Fn(&T, &T) -> bool>(
    height_map: &Grid<T>,
    walkable: W,
    can_climb: C,
) -> (r: Grid<u8>)
    requires
        height_map.wf(),
        height_map.spec_origin() == IVec2::zero_spec(),
        height_map.spec_size().x < i32::MAX,
        height_map.spec_size().y < i32::MAX,
        forall|v: &T| #[trigger] walkable.requires((v,)),
        forall|a: &T, b: &T| #[trigger] can_climb.requires((a, b)),
    ensures
        r.wf(),
        r.spec_origin() == IVec2::zero_spec(),
        r.spec_size() == height_map.spec_size(),
        forall|idx: int, d: u8|
            0 <= idx < r.contents().len() && d < 4 ==> link_outcome(
                height_map,
                walkable,
                can_climb,
                idx,
                d as int,
                #[trigger] has_bit(r.contents()[idx], d),
            ),
        forall|idx: int, d: u8|
            0 <= idx < r.contents().len() && 4 <= d < 8 ==> !#[trigger] has_bit(r.contents()[idx], d),
{
    let n = height_map.data().len();
    let dirs = crate::grid::neighborhood_4();
    let mut data: Vec<u8> = Vec::new();
    let mut idx: usize = 0;
    while idx < n
        invariant
            height_map.wf(),
            height_map.spec_origin() == IVec2::zero_spec(),
            height_map.spec_size().x < i32::MAX,
            height_map.spec_size().y < i32::MAX,
            forall|v: &T| #[trigger] walkable.requires((v,)),
            forall|a: &T, b: &T| #[trigger] can_climb.requires((a, b)),
            n == height_map.contents().len(),
            dirs@ == neighborhood_4_spec(),
            idx <= n,
            data.len() == idx,
            forall|k: int, d: u8|
                0 <= k < idx && d < 4 ==> link_outcome(
                    height_map,
                    walkable,
                    can_climb,
                    k,
                    d as int,
                    #[trigger] has_bit(data@[k], d),
                ),
            forall|k: int, d: u8| 0 <= k < idx && 4 <= d < 8 ==> !#[trigger] has_bit(data@[k], d),
        decreases n - idx,
    {
        let cell = height_map.exec_cell_at(idx);
        let h = &height_map.data()[idx];
        let mut conn: u8 = 0;
        proof {
            lemma_zero_bits();
        }
        let w = walkable(h);
        if w {
            let mut d: usize = 0;
            while d < 4
                invariant
                    height_map.wf(),
                    height_map.spec_origin() == IVec2::zero_spec(),
                    forall|v: &T| #[trigger] walkable.requires((v,)),
                    forall|a: &T, b: &T| #[trigger] can_climb.requires((a, b)),
                    n == height_map.contents().len(),
                    dirs@ == neighborhood_4_spec(),
                    idx < n,
                    cell == height_map.cell_of(idx as int),
                    center_fits(cell),
                    *h == height_map.contents()[idx as int],
                    walkable.ensures((h,), true),
                    d <= 4,
                    forall|e: u8|
                        e < d ==> link_outcome(height_map, walkable, can_climb, idx as int, e as int, #[trigger] has_bit(conn, e)),
                    forall|e: u8| d <= e < 8 ==> !#[trigger] has_bit(conn, e),
                decreases 4 - d,
            {
                let dir = dirs[d];
                let nb = IVec2 { x: cell.x + dir.x, y: cell.y + dir.y };
                let ghost before = conn;
                let mut linked = false;
                match height_map.get(nb) {
                    Some(hn) => {
                        if walkable(hn) {
                            if can_climb(h, hn) {
                                linked = true;
                            }
                        }
                    },
                    None => {},
                }
                if linked {
                    proof {
                        lemma_set_bit(conn, d as u8);
                    }
                    conn = conn | (1u8 << (d as u8));
                }
                proof {
                    assert(has_bit(conn, d as u8) == linked);
                }
                d = d + 1;
            }
        }
        data.push(conn);
        idx = idx + 1;
    }
    Grid::from_data(height_map.size(), data)
}

proof fn lemma_cell_edges_in_range(cell: IVec2, case: int, corner: bool)
    ensures
        edges_in_range(cell_edges(cell, case, corner)),
{
    let es = cell_edges(cell, case, corner);
    assert forall|i: int| 0 <= i < es.len() implies point_in_range(#[trigger] es[i].0) && point_in_range(es[i].1) by {
    }
}

proof fn lemma_concat_in_range(a: Seq<Edge>, b: Seq<Edge>)
    requires
        edges_in_range(a),
        edges_in_range(b),
    ensures
        edges_in_range(a + b),
{
    assert forall|i: int| 0 <= i < (a + b).len() implies point_in_range(#[trigger] (a + b)[i].0) && point_in_range(
        (a + b)[i].1,
    ) by {
        if i < a.len() {
            assert(point_in_range(a[i].0));
        } else {
            assert(point_in_range(b[i - a.len()].0));
        }
    }
}

proof fn lemma_row_edges_in_range(conn: &Grid<u8>, y: int, m: nat)
    requires
        i32::MIN <= y <= i32::MAX,
        m <= i32::MAX + 2,
    ensures
        edges_in_range(row_edges(conn, y, m)),
    decreases m,
{
    if m > 0 {
        lemma_row_edges_in_range(conn, y, (m - 1) as nat);
        let cell = IVec2 { x: (m - 2) as i32, y: y as i32 };
        lemma_cell_edges_in_range(
            cell,
            square_case(conn, cell),
            is_corner_square(cell, conn.spec_size().x as int, conn.spec_size().y as int),
        );
        lemma_concat_in_range(row_edges(conn, y, (m - 1) as nat), square_edges(conn, cell));
    }
}

proof fn lemma_rows_edges_in_range(conn: &Grid<u8>, n: nat)
    requires
        n <= i32::MAX + 2,
        conn.spec_size().y <= i32::MAX,
    ensures
        edges_in_range(rows_edges(conn, n)),
    decreases n,
{
    if n > 0 {
        lemma_rows_edges_in_range(conn, (n - 1) as nat);
        lemma_row_edges_in_range(conn, n - 2, (conn.spec_size().y + 1) as nat);
        lemma_concat_in_range(
            rows_edges(conn, (n - 1) as nat),
            row_edges(conn, n - 2, (conn.spec_size().y + 1) as nat),
        );
    }
}

/// A square whose corners have `i32` coordinates.
pub open spec fn square_fits(s: IVec2) -> bool {
    &&& s.x < i32::MAX
    &&& s.y < i32::MAX
}

/// A point where square `s` may start a segment: a side midpoint whose
/// corner on the side's clockwise end is connected and the other corner is
/// not, or the middle of the square.
pub open spec fn start_point_of(conn: &Grid<u8>, s: IVec2, p: HalfPoint) -> bool {
    let tl = connected_at(conn, s, 0, 0);
    let tr = connected_at(conn, s, 1, 0);
    let br = connected_at(conn, s, 1, 1);
    let bl = connected_at(conn, s, 0, 1);
    ||| p == half_point(s, 0, 1) && tl && !bl
    ||| p == half_point(s, 1, 0) && tr && !tl
    ||| p == half_point(s, 2, 1) && br && !tr
    ||| p == half_point(s, 1, 2) && bl && !br
    ||| p == half_point(s, 1, 1)
}

/// A point where square `s` may end a segment: the mirror image of
/// [`start_point_of`].
pub open spec fn end_point_of(conn: &Grid<u8>, s: IVec2, p: HalfPoint) -> bool {
    let tl = connected_at(conn, s, 0, 0);
    let tr = connected_at(conn, s, 1, 0);
    let br = connected_at(conn, s, 1, 1);
    let bl = connected_at(conn, s, 0, 1);
    ||| p == half_point(s, 0, 1) && bl && !tl
    ||| p == half_point(s, 1, 0) && tl && !tr
    ||| p == half_point(s, 2, 1) && tr && !br
    ||| p == half_point(s, 1, 2) && br && !bl
    ||| p == half_point(s, 1, 1)
}

/// Every segment of a square starts and ends at such points.
pub proof fn lemma_square_edge_points(conn: &Grid<u8>, s: IVec2, k: int)
    requires
        square_fits(s),
        0 <= k < square_edges(conn, s).len(),
    ensures
        start_point_of(conn, s, square_edges(conn, s)[k].0),
        end_point_of(conn, s, square_edges(conn, s)[k].1),
{
}

/// Two different squares never start, or never end, segments at the same
/// point: a shared side midpoint is a start in one square exactly when it
/// is an end in the other.
pub proof fn lemma_squares_disjoint_points(conn: &Grid<u8>, s: IVec2, t: IVec2, k: int, l: int)
    requires
        s != t,
        square_fits(s),
        square_fits(t),
        0 <= k < square_edges(conn, s).len(),
        0 <= l < square_edges(conn, t).len(),
    ensures
        square_edges(conn, s)[k].0 != square_edges(conn, t)[l].0,
        square_edges(conn, s)[k].1 != square_edges(conn, t)[l].1,
{
    lemma_square_edge_points(conn, s, k);
    lemma_square_edge_points(conn, t, l);
    lemma_shared_points(conn, s, t, square_edges(conn, s)[k].0, square_edges(conn, s)[k].1);
    lemma_shared_points(conn, t, s, square_edges(conn, t)[l].0, square_edges(conn, t)[l].1);
}

proof fn lemma_shared_points(conn: &Grid<u8>, s: IVec2, t: IVec2, p: HalfPoint, q: HalfPoint)
    requires
        s != t,
        square_fits(s),
        square_fits(t),
        start_point_of(conn, s, p),
        end_point_of(conn, s, q),
    ensures
        !start_point_of(conn, t, p),
        !end_point_of(conn, t, q),
{
    if t.x == s.x + 1 && t.y == s.y {
        assert(connected_at(conn, s, 1, 0) == connected_at(conn, t, 0, 0));
        assert(connected_at(conn, s, 1, 1) == connected_at(conn, t, 0, 1));
    } else if t.x == s.x - 1 && t.y == s.y {
        assert(connected_at(conn, t, 1, 0) == connected_at(conn, s, 0, 0));
        assert(connected_at(conn, t, 1, 1) == connected_at(conn, s, 0, 1));
    } else if t.x == s.x && t.y == s.y + 1 {
        assert(connected_at(conn, s, 0, 1) == connected_at(conn, t, 0, 0));
        assert(connected_at(conn, s, 1, 1) == connected_at(conn, t, 1, 0));
    } else if t.x == s.x && t.y == s.y - 1 {
        assert(connected_at(conn, t, 0, 1) == connected_at(conn, s, 0, 0));
        assert(connected_at(conn, t, 1, 1) == connected_at(conn, s, 1, 0));
    }
}

/// Within one square, segments start at different points and end at
/// different points.
pub proof fn lemma_square_points_distinct(conn: &Grid<u8>, s: IVec2, k: int, l: int)
    requires
        0 <= k < l < square_edges(conn, s).len(),
    ensures
        square_edges(conn, s)[k].0 != square_edges(conn, s)[l].0,
        square_edges(conn, s)[k].1 != square_edges(conn, s)[l].1,
{
}

/// Segment `e` is drawn by the square `s`.
pub open spec fn drawn_by(conn: &Grid<u8>, e: Edge, s: IVec2) -> bool {
    exists|l: int| 0 <= l < square_edges(conn, s).len() && square_edges(conn, s)[l] == e
}

/// Segment `e` is drawn by one of the squares `(x, y)` with
/// `-1 <= x <= m - 2`.
pub open spec fn drawn_in_row(conn: &Grid<u8>, e: Edge, y: int, m: int) -> bool {
    exists|s: IVec2| s.y == y && -1 <= s.x <= m - 2 && #[trigger] drawn_by(conn, e, s)
}

/// Segment `e` is drawn by one of the squares `(x, y)` with
/// `-1 <= y <= n - 2` and `x < i32::MAX`.
pub open spec fn drawn_in_rows(conn: &Grid<u8>, e: Edge, n: int) -> bool {
    exists|s: IVec2| -1 <= s.y <= n - 2 && s.x < i32::MAX && #[trigger] drawn_by(conn, e, s)
}

proof fn lemma_concat_unique(a: Seq<Edge>, b: Seq<Edge>)
    requires
        unique_starts(a),
        unique_ends(a),
        unique_starts(b),
        unique_ends(b),
        forall|i: int, j: int|
            #![trigger a[i], b[j]]
            0 <= i < a.len() && 0 <= j < b.len() ==> a[i].0 != b[j].0 && a[i].1 != b[j].1,
    ensures
        unique_starts(a + b),
        unique_ends(a + b),
{
    let c = a + b;
    assert forall|i: int, j: int| 0 <= i < j < c.len() implies #[trigger] c[i].0 != #[trigger] c[j].0 by {
        if j < a.len() {
            assert(a[i].0 != a[j].0);
        } else if i >= a.len() {
            assert(b[i - a.len()].0 != b[j - a.len()].0);
        } else {
            assert(a[i].0 != b[j - a.len()].0);
        }
    }
    assert forall|i: int, j: int| 0 <= i < j < c.len() implies #[trigger] c[i].1 != #[trigger] c[j].1 by {
        if j < a.len() {
            assert(a[i].1 != a[j].1);
        } else if i >= a.len() {
            assert(b[i - a.len()].1 != b[j - a.len()].1);
        } else {
            assert(a[i].1 != b[j - a.len()].1);
        }
    }
}

/// The segments of a row prefix come from its squares and never share a
/// start or an end.
proof fn lemma_row_edges_unique(conn: &Grid<u8>, y: int, m: nat)
    requires
        -1 <= y < i32::MAX,
        m <= i32::MAX,
    ensures
        unique_starts(row_edges(conn, y, m)),
        unique_ends(row_edges(conn, y, m)),
        forall|k: int|
            0 <= k < row_edges(conn, y, m).len() ==> drawn_in_row(conn, #[trigger] row_edges(conn, y, m)[k], y, m as int),
    decreases m,
{
    if m > 0 {
        lemma_row_edges_unique(conn, y, (m - 1) as nat);
        let prev = row_edges(conn, y, (m - 1) as nat);
        let t = IVec2 { x: (m - 2) as i32, y: y as i32 };
        let sq = square_edges(conn, t);
        assert forall|i: int, j: int| 0 <= i < sq.len() && 0 <= j < sq.len() && i < j implies #[trigger] sq[i].0
            != #[trigger] sq[j].0 by {
            lemma_square_points_distinct(conn, t, i, j);
        }
        assert forall|i: int, j: int| 0 <= i < sq.len() && 0 <= j < sq.len() && i < j implies #[trigger] sq[i].1
            != #[trigger] sq[j].1 by {
            lemma_square_points_distinct(conn, t, i, j);
        }
        assert forall|i: int, j: int| 0 <= i < prev.len() && 0 <= j < sq.len() implies #[trigger] prev[i].0
            != #[trigger] sq[j].0 && prev[i].1 != sq[j].1 by {
            assert(drawn_in_row(conn, prev[i], y, m - 1));
            let s = choose|s: IVec2| s.y == y && -1 <= s.x <= m - 3 && #[trigger] drawn_by(conn, prev[i], s);
            let l = choose|l: int| 0 <= l < square_edges(conn, s).len() && square_edges(conn, s)[l] == prev[i];
            lemma_squares_disjoint_points(conn, s, t, l, j);
        }
        lemma_concat_unique(prev, sq);
        let r = row_edges(conn, y, m);
        assert(r == prev + sq);
        assert forall|k: int| 0 <= k < r.len() implies drawn_in_row(conn, #[trigger] r[k], y, m as int) by {
            if k < prev.len() {
                assert(r[k] == prev[k]);
                assert(drawn_in_row(conn, prev[k], y, m - 1));
                let s = choose|s: IVec2| s.y == y && -1 <= s.x <= m - 3 && #[trigger] drawn_by(conn, prev[k], s);
                assert(drawn_by(conn, r[k], s));
            } else {
                let l = k - prev.len();
                assert(r[k] == sq[l]);
                assert(drawn_by(conn, r[k], t));
            }
        }
    }
}

/// The segments of the first `n` rows come from their squares and never
/// share a start or an end.
proof fn lemma_rows_edges_unique(conn: &Grid<u8>, n: nat)
    requires
        n <= i32::MAX,
        conn.spec_size().y < i32::MAX,
    ensures
        unique_starts(rows_edges(conn, n)),
        unique_ends(rows_edges(conn, n)),
        forall|k: int|
            0 <= k < rows_edges(conn, n).len() ==> drawn_in_rows(conn, #[trigger] rows_edges(conn, n)[k], n as int),
    decreases n,
{
    if n > 0 {
        lemma_rows_edges_unique(conn, (n - 1) as nat);
        let prev = rows_edges(conn, (n - 1) as nat);
        let m = (conn.spec_size().y + 1) as nat;
        let row = row_edges(conn, n - 2, m);
        lemma_row_edges_unique(conn, n - 2, m);
        assert forall|i: int, j: int| 0 <= i < prev.len() && 0 <= j < row.len() implies #[trigger] prev[i].0
            != #[trigger] row[j].0 && prev[i].1 != row[j].1 by {
            assert(drawn_in_rows(conn, prev[i], n - 1));
            let s = choose|s: IVec2| -1 <= s.y <= n - 3 && s.x < i32::MAX && #[trigger] drawn_by(conn, prev[i], s);
            let l = choose|l: int| 0 <= l < square_edges(conn, s).len() && square_edges(conn, s)[l] == prev[i];
            assert(drawn_in_row(conn, row[j], n - 2, m as int));
            let t = choose|t: IVec2| t.y == n - 2 && -1 <= t.x <= m - 2 && #[trigger] drawn_by(conn, row[j], t);
            let l2 = choose|l2: int| 0 <= l2 < square_edges(conn, t).len() && square_edges(conn, t)[l2] == row[j];
            lemma_squares_disjoint_points(conn, s, t, l, l2);
        }
        lemma_concat_unique(prev, row);
        let r = rows_edges(conn, n);
        assert(r == prev + row);
        assert forall|k: int| 0 <= k < r.len() implies drawn_in_rows(conn, #[trigger] r[k], n as int) by {
            if k < prev.len() {
                assert(r[k] == prev[k]);
                assert(drawn_in_rows(conn, prev[k], n - 1));
                let s = choose|s: IVec2| -1 <= s.y <= n - 3 && s.x < i32::MAX && #[trigger] drawn_by(conn, prev[k], s);
                assert(drawn_by(conn, r[k], s));
            } else {
                let j = k - prev.len();
                assert(r[k] == row[j]);
                assert(drawn_in_row(conn, row[j], n - 2, m as int));
                let t = choose|t: IVec2| t.y == n - 2 && -1 <= t.x <= m - 2 && #[trigger] drawn_by(conn, row[j], t);
                assert(drawn_by(conn, r[k], t));
            }
        }
    }
}

/// Some segment of `s` ends at `p`.
pub open spec fn ends_in(s: Seq<Edge>, p: HalfPoint) -> bool {
    exists|j: int| 0 <= j < s.len() && #[trigger] s[j].1 == p
}

/// One of the first two segments of `s` starts at `p`.
spec fn first_two_start(s: Seq<Edge>, p: HalfPoint) -> bool {
    ||| s.len() > 0 && s[0].0 == p
    ||| s.len() > 1 && s[1].0 == p
}

/// One of the first two segments of `s` ends at `p`.
spec fn first_two_end(s: Seq<Edge>, p: HalfPoint) -> bool {
    ||| s.len() > 0 && s[0].1 == p
    ||| s.len() > 1 && s[1].1 == p
}

/// A square starts a segment at each side midpoint whose start condition
/// holds, and a segment that ends in its middle is followed by one that
/// starts there.
proof fn lemma_side_starts(conn: &Grid<u8>, t: IVec2, l: int)
    requires
        square_fits(t),
    ensures
        connected_at(conn, t, 0, 0) && !connected_at(conn, t, 0, 1) ==> first_two_start(
            square_edges(conn, t),
            half_point(t, 0, 1),
        ),
        connected_at(conn, t, 1, 0) && !connected_at(conn, t, 0, 0) ==> first_two_start(
            square_edges(conn, t),
            half_point(t, 1, 0),
        ),
        connected_at(conn, t, 1, 1) && !connected_at(conn, t, 1, 0) ==> first_two_start(
            square_edges(conn, t),
            half_point(t, 2, 1),
        ),
        connected_at(conn, t, 0, 1) && !connected_at(conn, t, 1, 1) ==> first_two_start(
            square_edges(conn, t),
            half_point(t, 1, 2),
        ),
        0 <= l < square_edges(conn, t).len() && square_edges(conn, t)[l].1 == half_point(t, 1, 1) ==> {
            &&& is_corner_square(t, conn.spec_size().x as int, conn.spec_size().y as int)
            &&& square_edges(conn, t).len() == 2
            &&& square_edges(conn, t)[1].0 == half_point(t, 1, 1)
        },
{
}

/// A square ends a segment at each side midpoint whose end condition holds,
/// and a segment that starts in its middle follows one that ends there.
proof fn lemma_side_ends(conn: &Grid<u8>, t: IVec2, l: int)
    requires
        square_fits(t),
    ensures
        connected_at(conn, t, 1, 0) && !connected_at(conn, t, 1, 1) ==> first_two_end(
            square_edges(conn, t),
            half_point(t, 2, 1),
        ),
        connected_at(conn, t, 1, 1) && !connected_at(conn, t, 0, 1) ==> first_two_end(
            square_edges(conn, t),
            half_point(t, 1, 2),
        ),
        connected_at(conn, t, 0, 1) && !connected_at(conn, t, 0, 0) ==> first_two_end(
            square_edges(conn, t),
            half_point(t, 0, 1),
        ),
        connected_at(conn, t, 0, 0) && !connected_at(conn, t, 1, 0) ==> first_two_end(
            square_edges(conn, t),
            half_point(t, 1, 0),
        ),
        0 <= l < square_edges(conn, t).len() && square_edges(conn, t)[l].0 == half_point(t, 1, 1) ==> {
            &&& is_corner_square(t, conn.spec_size().x as int, conn.spec_size().y as int)
            &&& square_edges(conn, t).len() == 2
            &&& square_edges(conn, t)[0].1 == half_point(t, 1, 1)
        },
{
}

/// The segments of square `(x, y)` are among those of a row prefix that
/// reaches it.
proof fn lemma_row_has_square(conn: &Grid<u8>, y: int, m: nat, x: int, l: int)
    requires
        -1 <= x <= m - 2,
        m <= i32::MAX,
        i32::MIN <= y <= i32::MAX,
        0 <= l < square_edges(conn, IVec2 { x: x as i32, y: y as i32 }).len(),
    ensures
        row_edges(conn, y, m).contains(square_edges(conn, IVec2 { x: x as i32, y: y as i32 })[l]),
    decreases m,
{
    let prev = row_edges(conn, y, (m - 1) as nat);
    let t = IVec2 { x: (m - 2) as i32, y: y as i32 };
    let r = row_edges(conn, y, m);
    assert(r == prev + square_edges(conn, t));
    if x == m - 2 {
        assert(r[prev.len() + l] == square_edges(conn, t)[l]);
    } else {
        lemma_row_has_square(conn, y, (m - 1) as nat, x, l);
        let j = choose|j: int|
            0 <= j < prev.len() && prev[j] == square_edges(conn, IVec2 { x: x as i32, y: y as i32 })[l];
        assert(r[j] == prev[j]);
    }
}

/// The segments of every visited square are among those of
/// `rows_edges`.
proof fn lemma_rows_has_square(conn: &Grid<u8>, n: nat, s: IVec2, l: int)
    requires
        -1 <= s.y <= n - 2,
        -1 <= s.x <= conn.spec_size().y - 1,
        conn.spec_size().y < i32::MAX,
        n <= i32::MAX,
        0 <= l < square_edges(conn, s).len(),
    ensures
        rows_edges(conn, n).contains(square_edges(conn, s)[l]),
    decreases n,
{
    let m = (conn.spec_size().y + 1) as nat;
    let prev = rows_edges(conn, (n - 1) as nat);
    let row = row_edges(conn, n - 2, m);
    let r = rows_edges(conn, n);
    assert(r == prev + row);
    if s.y == n - 2 {
        assert(s == IVec2 { x: s.x as i32, y: (n - 2) as i32 });
        lemma_row_has_square(conn, n - 2, m, s.x as int, l);
        let j = choose|j: int| 0 <= j < row.len() && row[j] == square_edges(conn, s)[l];
        assert(r[prev.len() + j] == row[j]);
    } else {
        lemma_rows_has_square(conn, (n - 1) as nat, s, l);
        let j = choose|j: int| 0 <= j < prev.len() && prev[j] == square_edges(conn, s)[l];
        assert(r[j] == prev[j]);
    }
}

/// Where a segment of a visited square ends, a segment of the boundary
/// starts, and where one starts, one ends.
proof fn lemma_segment_neighbors(conn: &Grid<u8>, s: IVec2, l: int)
    requires
        conn.wf(),
        conn.spec_origin() == IVec2::zero_spec(),
        conn.spec_size().x == conn.spec_size().y,
        conn.spec_size().x < i32::MAX,
        -1 <= s.y <= conn.spec_size().x - 1,
        s.x < i32::MAX,
        0 <= l < square_edges(conn, s).len(),
    ensures
        starts_in(rows_edges(conn, (conn.spec_size().x + 1) as nat), square_edges(conn, s)[l].1),
        ends_in(rows_edges(conn, (conn.spec_size().x + 1) as nat), square_edges(conn, s)[l].0),
{
    let n = conn.spec_size().x as int;
    let big = rows_edges(conn, (n + 1) as nat);
    let e = square_edges(conn, s)[l];
    let tl = connected_at(conn, s, 0, 0);
    let tr = connected_at(conn, s, 1, 0);
    let br = connected_at(conn, s, 1, 1);
    let bl = connected_at(conn, s, 0, 1);
    lemma_square_edge_points(conn, s, l);
    lemma_side_starts(conn, s, l);
    lemma_side_ends(conn, s, l);
    // where the segment ends
    if e.1 == half_point(s, 1, 1) {
        lemma_rows_has_square(conn, (n + 1) as nat, s, 1);
        let j = choose|j: int| 0 <= j < big.len() && big[j] == square_edges(conn, s)[1];
        assert(big[j].0 == e.1);
    } else {
        let t = if e.1 == half_point(s, 2, 1) {
            IVec2 { x: (s.x + 1) as i32, y: s.y }
        } else if e.1 == half_point(s, 0, 1) {
            IVec2 { x: (s.x - 1) as i32, y: s.y }
        } else if e.1 == half_point(s, 1, 0) {
            IVec2 { x: s.x, y: (s.y - 1) as i32 }
        } else {
            IVec2 { x: s.x, y: (s.y + 1) as i32 }
        };
        if e.1 == half_point(s, 2, 1) {
            assert(connected_at(conn, t, 0, 0) == tr);
            assert(connected_at(conn, t, 0, 1) == br);
            assert(half_point(t, 0, 1) == e.1);
        } else if e.1 == half_point(s, 0, 1) {
            assert(connected_at(conn, t, 1, 1) == bl);
            assert(connected_at(conn, t, 1, 0) == tl);
            assert(half_point(t, 2, 1) == e.1);
        } else if e.1 == half_point(s, 1, 0) {
            assert(connected_at(conn, t, 0, 1) == tl);
            assert(connected_at(conn, t, 1, 1) == tr);
            assert(half_point(t, 1, 2) == e.1);
        } else {
            assert(connected_at(conn, t, 1, 0) == br);
            assert(connected_at(conn, t, 0, 0) == bl);
            assert(half_point(t, 1, 0) == e.1);
        }
        lemma_side_starts(conn, t, 0);
        let sq = square_edges(conn, t);
        let l2 = if sq.len() > 0 && sq[0].0 == e.1 { 0int } else { 1int };
        assert(sq[l2].0 == e.1);
        lemma_rows_has_square(conn, (n + 1) as nat, t, l2);
        let j = choose|j: int| 0 <= j < big.len() && big[j] == sq[l2];
        assert(big[j].0 == e.1);
    }
    // where the segment starts
    if e.0 == half_point(s, 1, 1) {
        lemma_rows_has_square(conn, (n + 1) as nat, s, 0);
        let j = choose|j: int| 0 <= j < big.len() && big[j] == square_edges(conn, s)[0];
        assert(big[j].1 == e.0);
    } else {
        let t = if e.0 == half_point(s, 0, 1) {
            IVec2 { x: (s.x - 1) as i32, y: s.y }
        } else if e.0 == half_point(s, 1, 0) {
            IVec2 { x: s.x, y: (s.y - 1) as i32 }
        } else if e.0 == half_point(s, 2, 1) {
            IVec2 { x: (s.x + 1) as i32, y: s.y }
        } else {
            IVec2 { x: s.x, y: (s.y + 1) as i32 }
        };
        if e.0 == half_point(s, 0, 1) {
            assert(connected_at(conn, t, 1, 0) == tl);
            assert(connected_at(conn, t, 1, 1) == bl);
            assert(half_point(t, 2, 1) == e.0);
        } else if e.0 == half_point(s, 1, 0) {
            assert(connected_at(conn, t, 1, 1) == tr);
            assert(connected_at(conn, t, 0, 1) == tl);
            assert(half_point(t, 1, 2) == e.0);
        } else if e.0 == half_point(s, 2, 1) {
            assert(connected_at(conn, t, 0, 1) == br);
            assert(connected_at(conn, t, 0, 0) == tr);
            assert(half_point(t, 0, 1) == e.0);
        } else {
            assert(connected_at(conn, t, 0, 0) == bl);
            assert(connected_at(conn, t, 1, 0) == br);
            assert(half_point(t, 1, 0) == e.0);
        }
        lemma_side_ends(conn, t, 0);
        let sq = square_edges(conn, t);
        let l2 = if sq.len() > 0 && sq[0].1 == e.0 { 0int } else { 1int };
        assert(sq[l2].1 == e.0);
        lemma_rows_has_square(conn, (n + 1) as nat, t, l2);
        let j = choose|j: int| 0 <= j < big.len() && big[j] == sq[l2];
        assert(big[j].1 == e.0);
    }
}

/// The boundary of a square chunk of connections starting at `(0, 0)`
/// closes up: every point where a segment ends is the start of a segment,
/// and every point where one starts is the end of one. With no two
/// segments sharing a start or an end, the segments form closed loops.
pub proof fn lemma_boundary_closed(conn: &Grid<u8>)
    requires
        conn.wf(),
        conn.spec_origin() == IVec2::zero_spec(),
        conn.spec_size().x == conn.spec_size().y,
        conn.spec_size().x < i32::MAX,
    ensures
        ({
            let edges = rows_edges(conn, (conn.spec_size().x + 1) as nat);
            &&& forall|k: int| 0 <= k < edges.len() ==> starts_in(edges, (#[trigger] edges[k]).1)
            &&& forall|k: int| 0 <= k < edges.len() ==> ends_in(edges, (#[trigger] edges[k]).0)
            &&& unique_starts(edges)
            &&& unique_ends(edges)
        }),
{
    let n = conn.spec_size().x as int;
    let edges = rows_edges(conn, (n + 1) as nat);
    lemma_rows_edges_unique(conn, (n + 1) as nat);
    assert forall|k: int| 0 <= k < edges.len() implies starts_in(edges, (#[trigger] edges[k]).1) && ends_in(
        edges,
        edges[k].0,
    ) by {
        assert(drawn_in_rows(conn, edges[k], n + 1));
        let s = choose|s: IVec2| -1 <= s.y <= n + 1 - 2 && s.x < i32::MAX && #[trigger] drawn_by(conn, edges[k], s);
        let l = choose|l: int| 0 <= l < square_edges(conn, s).len() && square_edges(conn, s)[l] == edges[k];
        lemma_segment_neighbors(conn, s, l);
    }
}

/// The boundary of the connected area of a chunk as joined chains: the
/// segments of [`generate_edges`], ordered and merged by [`sort_edges`].
/// For a square chunk whose cells start at `(0, 0)` every chain is a
/// closed loop.
pub fn chunk_boundary(connections: &Grid<u8>) -> (r: Vec<Edge>)
    requires
        connections.wf(),
        connections.spec_size().x < i32::MAX,
        connections.spec_size().y < i32::MAX,
    ensures
        unique_starts(rows_edges(connections, (connections.spec_size().x + 1) as nat)),
        unique_ends(rows_edges(connections, (connections.spec_size().x + 1) as nat)),
        r@ == joined_chains(sorted_chains(rows_edges(connections, (connections.spec_size().x + 1) as nat))),
        exists|cs: Seq<Seq<Edge>>|
            {
                &&& cs == nonempty_chains(sorted_chains(rows_edges(connections, (connections.spec_size().x + 1) as nat)))
                &&& chains_of(rows_edges(connections, (connections.spec_size().x + 1) as nat), cs)
                &&& forall|c: int| 0 <= c < cs.len() ==> connected(#[trigger] cs[c])
                &&& r@ == joined_chains(cs)
                &&& connections.spec_origin() == IVec2::zero_spec() && connections.spec_size().x
                    == connections.spec_size().y ==> forall|c: int| 0 <= c < cs.len() ==> closed_chain(#[trigger] cs[c])
            },
{
    let mut edges = generate_edges(connections);
    proof {
        lemma_rows_edges_in_range(connections, (connections.spec_size().x + 1) as nat);
        lemma_rows_edges_unique(connections, (connections.spec_size().x + 1) as nat);
        if connections.spec_origin() == IVec2::zero_spec() && connections.spec_size().x == connections.spec_size().y {
            lemma_boundary_closed(connections);
        }
    }
    sort_edges(&mut edges);
    edges
}

} // verus!
