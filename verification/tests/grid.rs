use hedron::data::grid::Grid;
use hedron::data::grid2::Grid2;
use hedron::data::grid_tri::GridTri;
use hedron::data::ivec::{IVec2, IVec3};

#[test]
fn test_grid() {
    let grid = Grid2::<f64>::new(4, 5);

    assert_eq!(grid.to_xy(0), (0, 0));
    assert_eq!(grid.to_xy(1), (1, 0));
    assert_eq!(grid.to_xy(4), (0, 1));
    assert_eq!(grid.to_xy(5), (1, 1));

    assert_eq!(grid.to_index(0, 0), Some(0));
    assert_eq!(grid.to_index(1, 0), Some(1));
    assert_eq!(grid.to_index(0, 1), Some(4));
    assert_eq!(grid.to_index(1, 1), Some(5));
}

#[test]
fn grid2_set_then_get() {
    let mut grid = Grid2::<i32>::new(3, 2);
    assert_eq!(grid.size(), 6);
    assert_eq!(grid.items, vec![0; 6]);
    assert_eq!(grid.set(2, 1, 7), Some(5));
    assert_eq!(grid.set(3, 0, 9), None);
    assert_eq!(grid.get(2, 1), Some(7));
    assert_eq!(grid.get(0, 0), Some(0));
    assert_eq!(grid.get(0, 2), None);
    assert_eq!(grid.get_i32(-1, 0), None);
    assert_eq!(grid.get_i32(2, 1), Some(7));
    assert_eq!(grid.get_unsafe(5), 7);
    assert_eq!(grid.set_at(IVec2::new(0, 1), 4), Some(3));
    assert_eq!(grid.set_at(IVec2::new(-1, 1), 4), None);
    assert_eq!(grid.get_at(IVec2::new(0, 1)), Some(4));
    assert_eq!(grid.get_column(2), vec![0, 7]);
    assert_eq!(grid.get_row(1), vec![4, 0, 7]);
}

#[test]
fn grid2_roundtrip_index_and_xy() {
    let grid = Grid2::<u8>::new(7, 3);
    for i in 0..grid.size() {
        let (x, y) = grid.to_xy(i);
        assert_eq!(grid.to_index(x, y), Some(i));
    }
    assert_eq!(grid.iter_wh().len(), 21);
    assert_eq!(grid.iter_wh()[0..4], [(0, 0), (1, 0), (2, 0), (3, 0)]);
    assert_eq!(grid.iter_wh()[7], (0, 1));
}

#[test]
fn grid2_from_stacks() {
    let stacked = vec![vec![1, 2, 3], vec![4, 5, 6]];
    let cols = Grid2::from_stacked_columns(stacked.clone());
    assert_eq!((cols.width, cols.height), (2, 3));
    assert_eq!(cols.items, vec![1, 2, 3, 4, 5, 6]);

    let rows = Grid2::from_stacked_rows(&stacked);
    assert_eq!((rows.width, rows.height), (3, 2));
    assert_eq!(rows.get(2, 0), Some(3));
    assert_eq!(rows.get(0, 1), Some(4));
    assert_eq!(rows.items, vec![1, 2, 3, 4, 5, 6]);

    let flipped = Grid2::from_stacked_rows_flipped(&stacked);
    assert_eq!((flipped.width, flipped.height), (2, 3));
    assert_eq!(flipped.get(1, 0), Some(4));
    assert_eq!(flipped.get(0, 2), Some(3));
    assert_eq!(flipped.items, vec![1, 4, 2, 5, 3, 6]);
}

#[test]
fn grid3_set_then_get() {
    let mut grid = Grid::new(2, 3, 4, 'a');
    assert_eq!(grid.size(), 24);
    assert_eq!(grid.size_vec(), IVec3::new(2, 3, 4));
    assert!(grid.is_on_grid(2, 0, 0));
    assert!(grid.is_on_grid(0, -1, 0));
    assert!(!grid.is_on_grid(1, 2, 3));
    assert_eq!(grid.to_index(1, 2, 3), Some(3 * 6 + 2 * 2 + 1));
    assert_eq!(grid.set(1, 2, 3, 'z'), Some(23));
    assert_eq!(grid.get(1, 2, 3), Some('z'));
    assert_eq!(grid.get(0, 0, 0), Some('a'));
    assert_eq!(grid.get(0, 0, 4), None);
    assert_eq!(grid.set_at(IVec3::new(0, 1, 0), 'q'), Some(2));
    assert_eq!(grid.get_at(IVec3::new(0, 1, 0)), Some('q'));
}

#[test]
fn grid_tri_pattern() {
    let mut grid = GridTri::<u32>::new(5);
    assert_eq!(grid.total_size, 15);
    assert_eq!(grid.items.len(), 15);
    let mut k = 0;
    for x in 0..5usize {
        for y in 0..=x {
            assert_eq!(grid.to_index(x, y), Some(k));
            grid.set(x, y, k as u32);
            k += 1;
        }
    }
    assert_eq!(grid.get(3, 1), Some(7));
    assert_eq!(grid.get(4, 4), Some(14));
    assert_eq!(grid.get_i32(2, 2), Some(5));
    assert_eq!(grid.get_i32(-2, 2), None);
    assert_eq!(grid.get_at(IVec2::new(1, 1)), Some(2));
    assert_eq!(grid.set_at(IVec2::new(1, 0), 99), Some(1));
    assert_eq!(grid.get(1, 0), Some(99));
    grid.iterate();
}

#[test]
fn grid2_with_spare_items() {
    let mut grid = Grid2 { width: 2, height: 1, items: vec![1, 2, 3] };
    assert_eq!(grid.get(1, 0), Some(2));
    assert_eq!(grid.get(2, 0), None);
    assert_eq!(grid.to_index(1, 0), Some(1));
    assert_eq!(grid.set(0, 0, 7), Some(0));
    assert_eq!(grid.items, vec![7, 2, 3]);
    assert_eq!(grid.get_row(0), vec![7, 2]);
}
