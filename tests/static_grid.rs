use veil::coord::Coord;
use veil::static_grid::{CoordIter, StaticGrid};

#[test]
fn new_copy_fills_every_cell() {
    let grid = StaticGrid::new_copy(3, 2, 7u8);
    assert_eq!(grid.width(), 3);
    assert_eq!(grid.height(), 2);
    assert_eq!(grid.iter().count(), 6);
    assert!(grid.iter().all(|&c| c == 7));
}

#[test]
fn new_default_uses_default_values() {
    let grid: StaticGrid<u32> = StaticGrid::new_default(4, 3);
    assert_eq!(grid.iter().count(), 12);
    assert!(grid.iter().all(|&c| c == 0));
}

#[test]
fn get_checks_both_bounds() {
    let mut grid = StaticGrid::new_copy(3, 2, 0u32);
    *grid.get_mut((2usize, 1usize)).unwrap() = 5;
    assert_eq!(grid.get((2usize, 1usize)), Some(&5));
    assert_eq!(grid.get((2isize, 1isize)), Some(&5));
    assert_eq!(grid.get(Coord::new(2, 1)), Some(&5));
    assert_eq!(grid.get((3usize, 0usize)), None);
    assert_eq!(grid.get((0usize, 2usize)), None);
    assert_eq!(grid.get((-1isize, 0isize)), None);
    assert_eq!(grid.get(Coord::new(0, -1)), None);
    assert!(grid.get_mut((0usize, 5usize)).is_none());
    assert_eq!(grid.iter().copied().collect::<Vec<u32>>(), vec![0, 0, 0, 0, 0, 5]);
}

#[test]
fn contains_and_get_valid() {
    let mut grid = StaticGrid::new_copy(2, 2, 1i32);
    assert!(grid.contains((1usize, 1usize)));
    assert!(!grid.contains((2usize, 0usize)));
    assert!(!grid.contains((0isize, -1isize)));
    assert_eq!(grid.get_valid((1usize, 0usize)), Some(&1));
    assert_eq!(grid.get_valid((1usize, 2usize)), None);
    *grid.get_valid_mut((0usize, 1usize)).unwrap() = 9;
    assert_eq!(grid.get((0usize, 1usize)), Some(&9));
}

#[test]
fn coord_iter_starts_at_the_origin() {
    let grid = StaticGrid::new_copy(3, 2, 0u8);
    let it = grid.coord_iter();
    assert_eq!((it.width, it.height, it.x, it.y), (3, 2, 0, 0));
    let it = CoordIter::new(5, 4);
    assert_eq!((it.width, it.height, it.x, it.y), (5, 4, 0, 0));
}

#[test]
fn coord_iter_walks_rows_in_order() {
    let mut it = CoordIter::new(3, 2);
    let mut all = Vec::new();
    while let Some(c) = it.next() {
        all.push(c);
    }
    assert_eq!(all, vec![(0, 0), (1, 0), (2, 0), (0, 1), (1, 1), (2, 1)]);
    assert_eq!(it.next(), None);
    let mut empty = CoordIter::new(4, 0);
    assert_eq!(empty.next(), None);
}

#[test]
fn iter_mut_changes_cells_in_row_major_order() {
    let mut grid = StaticGrid::new_copy(3, 2, 0u32);
    for (i, c) in grid.iter_mut().iter_mut().enumerate() {
        *c = i as u32;
    }
    assert_eq!(grid.get((2usize, 0usize)), Some(&2));
    assert_eq!(grid.get((0usize, 1usize)), Some(&3));
    assert_eq!(grid.iter().count(), 6);
    let grid: StaticGrid<bool> = StaticGrid::new_default(2, 5);
    assert_eq!(grid.iter().count(), 10);
    assert!(grid.iter().all(|&c| !c));
}
