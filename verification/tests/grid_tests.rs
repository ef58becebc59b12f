use rg::grid::{neighborhood_4, neighborhood_8, Grid};
use rg::math::{IVec2, UVec2};

fn iv(x: i32, y: i32) -> IVec2 {
    IVec2::new(x, y)
}

fn numbered(w: u32, h: u32) -> Grid<i32> {
    let data: Vec<i32> = (0..(w * h) as i32).collect();
    Grid::from_data(UVec2::new(w, h), data)
}

#[test]
fn new_fills_every_cell() {
    let g = Grid::new(UVec2::new(3, 2), 7u8);
    assert_eq!(g.size(), UVec2::new(3, 2));
    assert_eq!(g.origin(), IVec2::zero());
    assert_eq!(g.data(), &[7u8; 6][..]);
}

#[test]
fn from_data_is_row_major() {
    let g = numbered(3, 2);
    assert_eq!(g.get(iv(0, 0)), Some(&0));
    assert_eq!(g.get(iv(2, 0)), Some(&2));
    assert_eq!(g.get(iv(0, 1)), Some(&3));
    assert_eq!(g.get(iv(2, 1)), Some(&5));
    assert_eq!(g.get(iv(3, 1)), None);
    assert_eq!(g.get(iv(-1, 0)), None);
}

#[test]
fn origin_shifts_cells() {
    let g = numbered(3, 2).with_origin(iv(10, -5));
    assert!(g.contains_cell(iv(10, -5)));
    assert!(g.contains_cell(iv(12, -4)));
    assert!(!g.contains_cell(iv(13, -4)));
    assert!(!g.contains_cell(iv(10, -6)));
    assert_eq!(g.get(iv(11, -4)), Some(&4));
    assert_eq!(g.index(iv(11, -4)), 4);
    assert_eq!(g.index(iv(13, -5)), 3);
}

#[test]
fn from_fn_visits_cells_row_by_row() {
    let g = Grid::from_fn_with_origin(UVec2::new(2, 2), iv(5, 7), |c: IVec2| c.x * 100 + c.y);
    assert_eq!(g.data(), &[507, 607, 508, 608][..]);
    assert_eq!(g.origin(), iv(5, 7));
    let h = Grid::from_fn(UVec2::new(3, 1), |c: IVec2| c.x);
    assert_eq!(h.data(), &[0, 1, 2][..]);
}

#[test]
fn par_from_fn_passes_local_cells() {
    let g = Grid::par_from_fn_with_origin(UVec2::new(2, 2), iv(5, 7), |c: IVec2| c.x * 100 + c.y);
    assert_eq!(g.data(), &[0, 100, 1, 101][..]);
    assert_eq!(g.origin(), iv(5, 7));
    let h = Grid::par_from_fn(UVec2::new(2, 1), |c: IVec2| c.x + 1);
    assert_eq!(h.data(), &[1, 2][..]);
}

#[test]
fn clamped_get_clamps_to_border() {
    let g = numbered(3, 2).with_origin(iv(1, 1));
    assert_eq!(*g.clamped_get(iv(-10, -10)), 0);
    assert_eq!(*g.clamped_get(iv(100, 100)), 5);
    assert_eq!(*g.clamped_get(iv(2, 100)), 4);
    assert_eq!(*g.clamped_get(iv(2, 1)), 1);
}

#[test]
fn set_replaces_and_reports_old_value() {
    let mut g = numbered(2, 2);
    assert_eq!(g.set(iv(1, 1), 40), Some(3));
    assert_eq!(g.get(iv(1, 1)), Some(&40));
    assert_eq!(g.set(iv(2, 1), 50), None);
    assert_eq!(g.data(), &[0, 1, 2, 40][..]);
}

#[test]
fn get_mut_writes_one_cell() {
    let mut g = numbered(2, 2);
    if let Some(v) = g.get_mut(iv(0, 1)) {
        *v = 9;
    }
    assert!(g.get_mut(iv(5, 5)).is_none());
    assert_eq!(g.data(), &[0, 1, 9, 3][..]);
    g.data_mut()[0] = -1;
    assert_eq!(g.values(), &[-1, 1, 9, 3][..]);
}

#[test]
fn cells_and_entries_follow_storage_order() {
    let g = numbered(2, 2).with_origin(iv(-1, 3));
    assert_eq!(g.cells(), vec![iv(-1, 3), iv(0, 3), iv(-1, 4), iv(0, 4)]);
    let e = g.entries();
    assert_eq!(e.len(), 4);
    assert_eq!(e[3], (iv(0, 4), &3));
}

#[test]
fn map_and_map_inplace() {
    let g = numbered(2, 2).with_origin(iv(1, 0));
    let m = g.map(|c: IVec2, v: &i32| c.x * 10 + *v);
    assert_eq!(m.data(), &[10, 21, 12, 23][..]);
    assert_eq!(m.origin(), iv(1, 0));
    let mut n = numbered(2, 1);
    n.map_inplace(|c: IVec2, v: &i32| *v + c.x + 5);
    assert_eq!(n.data(), &[5, 7][..]);
}

#[test]
fn neighborhoods_skip_cells_outside() {
    let g = numbered(3, 3);
    assert_eq!(neighborhood_4()[0], iv(0, -1));
    assert_eq!(neighborhood_8()[7], iv(-1, -1));
    assert_eq!(g.neighborhood_4(iv(0, 0)), vec![(1, iv(1, 0)), (2, iv(0, 1))]);
    assert_eq!(g.neighborhood_4(iv(1, 1)).len(), 4);
    assert_eq!(
        g.neighborhood_8(iv(2, 2)),
        vec![(0, iv(2, 1)), (6, iv(1, 2)), (7, iv(1, 1))]
    );
}

#[test]
fn rows_split_storage() {
    let g = numbered(3, 2);
    let rows = g.rows();
    assert_eq!(rows.len(), 2);
    assert_eq!(rows[1], &[3, 4, 5][..]);
}

#[test]
fn transpose_swaps_axes() {
    let g = numbered(3, 2);
    let t = g.transpose();
    assert_eq!(t.size(), UVec2::new(2, 3));
    assert_eq!(t.data(), &[0, 3, 1, 4, 2, 5][..]);
    assert_eq!(t.get(iv(1, 2)), g.get(iv(2, 1)));
    let mut tt = t.transpose();
    assert_eq!(tt.data(), g.data());
    tt.transpose_in_place();
    assert_eq!(tt.data(), t.data());
}

#[test]
fn vector_helpers() {
    assert_eq!(iv(1, 5).min(iv(3, 2)), iv(1, 2));
    assert_eq!(iv(1, 5).max(iv(3, 2)), iv(3, 5));
    assert_eq!(iv(1, 5).add(iv(3, 2)), iv(4, 7));
    assert_eq!(iv(1, 5).sub(iv(3, 2)), iv(-2, 3));
    assert_eq!(iv(1, 5).yx(), iv(5, 1));
    assert_eq!(IVec2::splat(4), iv(4, 4));
    assert_eq!(UVec2::new(2, 9).max_element(), 9);
    assert_eq!(UVec2::new(2, 9).yx(), UVec2::new(9, 2));
    assert_eq!(UVec2::splat(3).as_ivec2(), iv(3, 3));
}

#[test]
fn values_and_entries_change_in_place() {
    let mut g = Grid::from_data(UVec2::new(2, 2), vec![1i32, 2, 3, 4]).with_origin(IVec2::new(5, 7));
    for v in g.values_mut().iter_mut() {
        *v *= 10;
    }
    assert_eq!(g.data(), &[10, 20, 30, 40][..]);
    let (cells, values) = g.entries_mut();
    for (c, v) in cells.iter().zip(values.iter_mut()) {
        *v += c.x + c.y;
    }
    assert_eq!(g.data(), &[22, 33, 43, 54][..]);
}
