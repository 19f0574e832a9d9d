use fractal_wizard::scene::chunk_grid::ChunkIndex;

#[test]
fn visible_cells_in_column_then_row_order() {
    let keys = [(0, 0), (1, 0), (0, 1), (0, 0), (-1, -1), (5, 5)];
    let g = ChunkIndex::new(&keys);
    assert_eq!(g.visible_indices((0, 0), (1, 1)), vec![0, 3, 2, 1]);
    assert_eq!(g.visible_indices((-1, -1), (0, 0)), vec![4, 0, 3]);
    assert!(g.visible_indices((2, 2), (4, 4)).is_empty());
    assert!(g.visible_indices((1, 1), (0, 0)).is_empty());
    assert_eq!(g.visible_indices((i32::MIN, i32::MAX), (i32::MIN, i32::MAX)), Vec::<usize>::new());
}

#[test]
fn every_point_in_exactly_its_cell() {
    let keys = [(2, 3), (2, 3), (-1, 0), (4, 4)];
    let g = ChunkIndex::new(&keys);
    for (i, &(cx, cy)) in keys.iter().enumerate() {
        assert!(g.visible_indices((cx, cy), (cx, cy)).contains(&i));
    }
    assert_eq!(g.visible_indices((2, 3), (2, 3)), vec![0, 1]);
    assert_eq!(g.visible_indices((-10, -10), (10, 10)), vec![2, 0, 1, 3]);
}
