use brackets::Grid;

#[test]
fn grid_new_fills_every_cell() {
    let g = Grid::new(3, 2, 7u32);
    for y in 0..2 {
        for x in 0..3 {
            assert_eq!(g.get(x, y), Some(&7));
        }
    }
    assert_eq!(g.get(3, 0), None);
    assert_eq!(g.get(0, 2), None);
}

#[test]
fn grid_from_vec_is_row_major() {
    let g = Grid::from_vec(2, 2, vec![1, 2, 3, 4]);
    assert_eq!(g.idx(0, 0), 0);
    assert_eq!(g.idx(1, 0), 1);
    assert_eq!(g.idx(0, 1), 2);
    assert_eq!(g.idx(1, 1), 3);
    assert_eq!(g.get(0, 0), Some(&1));
    assert_eq!(g.get(1, 0), Some(&2));
    assert_eq!(g.get(0, 1), Some(&3));
    assert_eq!(g.get(1, 1), Some(&4));
}

#[test]
fn grid_get_mut_writes_through() {
    let mut g = Grid::new(2, 2, 0i64);
    *g.get_mut(1, 1).unwrap() = 42;
    assert_eq!(g.get(1, 1), Some(&42));
    assert_eq!(g.get(0, 0), Some(&0));
    assert!(g.get_mut(2, 0).is_none());
}

#[test]
fn grid_neighbors4_respects_bounds() {
    let g = Grid::new(3, 3, ());
    // corner: only right and down neighbours
    assert_eq!(g.neighbors4(0, 0), vec![(1, 0), (0, 1)]);
    // centre: all four, in left-up-right-down order
    assert_eq!(g.neighbors4(1, 1), vec![(0, 1), (1, 0), (2, 1), (1, 2)]);
    // edge: three neighbours
    assert_eq!(g.neighbors4(2, 1), vec![(1, 1), (2, 0), (2, 2)]);
}
