use maze::grid::{Grid, GridIter, Position};

#[test]
fn test_north_east_south_west() {
    let grid = Grid::new(10, 10);
    assert_eq!(grid.get_cell(&(0, 0)).unwrap().north, None);
    assert_eq!(grid.get_cell(&(1, 0)).unwrap().north, None);
    assert_eq!(grid.get_cell(&(1, 1)).unwrap().north, Some((1, 0)));
    assert_eq!(grid.get_cell(&(2, 3)).unwrap().north, Some((2, 2)));
    assert_eq!(grid.get_cell(&(2, 3)).unwrap().east, Some((3, 3)));
    assert_eq!(grid.get_cell(&(9, 3)).unwrap().east, None);
    assert_eq!(grid.get_cell(&(0, 3)).unwrap().west, None);
    assert_eq!(grid.get_cell(&(9, 9)).unwrap().east, None);
    assert_eq!(grid.get_cell(&(9, 9)).unwrap().north, Some((9, 8)));
    assert_eq!(grid.get_cell(&(9, 9)).unwrap().east, None);
    assert_eq!(grid.get_cell(&(9, 9)).unwrap().west, Some((8, 9)));
}

// Every side of an unlinked cell is a wall, at the boundary or not.
#[test]
fn test_cell_sprite() {
    let grid = Grid::new(10, 10);
    assert_eq!(grid.sprite_for_cell((0, 0)), Some(0b1111));
    assert_eq!(grid.sprite_for_cell((0, 1)), Some(0b1111));
    assert_eq!(grid.sprite_for_cell((1, 1)), Some(0b1111));
}

#[test]
fn wall_bitmask_opens_linked_sides() {
    let mut grid = Grid::new(3, 3);
    grid.link_cell((1, 1), (1, 0), true);
    grid.link_cell((1, 1), (2, 1), true);
    // north and east open: west and south remain
    assert_eq!(grid.sprite_for_cell((1, 1)), Some(0b0011));
    // (1, 0): south open, the rest closed
    assert_eq!(grid.sprite_for_cell((1, 0)), Some(0b1101));
    // (2, 1): west open
    assert_eq!(grid.sprite_for_cell((2, 1)), Some(0b1110));
}

#[test]
fn one_way_link_opens_one_side() {
    let mut grid = Grid::new(2, 2);
    grid.link_cell((0, 0), (1, 0), false);
    assert_eq!(grid.sprite_for_cell((0, 0)), Some(0b1011));
    assert_eq!(grid.sprite_for_cell((1, 0)), Some(0b1111));
    assert!(grid.get_cell(&(0, 0)).unwrap().linked_optional(Some(&(1, 0))));
    assert!(!grid.get_cell(&(1, 0)).unwrap().linked_optional(Some(&(0, 0))));
    assert!(!grid.get_cell(&(1, 0)).unwrap().linked_optional(None));
}

#[test]
fn outside_positions_give_no_value() {
    let grid = Grid::new(4, 5);
    for pos in [(-1, 0), (0, -1), (5, 0), (0, 4), (isize::MAX, 2), (isize::MIN, isize::MIN)] {
        assert_eq!(grid.north_of_cell(pos), None);
        assert_eq!(grid.south_of_cell(pos), None);
        assert_eq!(grid.east_of_cell(pos), None);
        assert_eq!(grid.west_of_cell(pos), None);
        assert_eq!(grid.sprite_for_cell(pos), None);
        assert!(grid.get_cell(&pos).is_none());
    }
}

#[test]
fn neighbors_are_mutual() {
    let grid = Grid::new(4, 6);
    for pos in grid.iter_position() {
        if let Some(q) = grid.north_of_cell(pos) {
            assert_eq!(grid.south_of_cell(q), Some(pos));
        }
        if let Some(q) = grid.south_of_cell(pos) {
            assert_eq!(grid.north_of_cell(q), Some(pos));
        }
        if let Some(q) = grid.east_of_cell(pos) {
            assert_eq!(grid.west_of_cell(q), Some(pos));
        }
        if let Some(q) = grid.west_of_cell(pos) {
            assert_eq!(grid.east_of_cell(q), Some(pos));
        }
    }
}

#[test]
fn link_and_unlink_stay_symmetric() {
    let mut grid = Grid::new(3, 3);
    grid.link_cell((0, 0), (0, 1), true);
    assert!(grid.get_cell(&(0, 0)).unwrap().linked_optional(Some(&(0, 1))));
    assert!(grid.get_cell(&(0, 1)).unwrap().linked_optional(Some(&(0, 0))));
    grid.link_cell((0, 0), (0, 1), true);
    assert_eq!(grid.sprite_for_cell((0, 0)), Some(0b1101));
    grid.unlink_cell((0, 1), (0, 0), true);
    assert!(!grid.get_cell(&(0, 0)).unwrap().linked_optional(Some(&(0, 1))));
    assert!(!grid.get_cell(&(0, 1)).unwrap().linked_optional(Some(&(0, 0))));
    assert_eq!(grid.sprite_for_cell((0, 0)), Some(0b1111));
}

#[test]
fn regenerate_clears_links_and_keeps_neighbors() {
    let fresh = Grid::new(3, 4);
    let mut grid = Grid::new(3, 4);
    grid.link_cell((0, 0), (1, 0), true);
    grid.link_cell((2, 1), (2, 2), true);
    grid.regenerate();
    assert_eq!(grid.to_string(), fresh.to_string());
    for pos in fresh.iter_position() {
        assert_eq!(grid.north_of_cell(pos), fresh.north_of_cell(pos));
        assert_eq!(grid.south_of_cell(pos), fresh.south_of_cell(pos));
        assert_eq!(grid.east_of_cell(pos), fresh.east_of_cell(pos));
        assert_eq!(grid.west_of_cell(pos), fresh.west_of_cell(pos));
        assert_eq!(grid.sprite_for_cell(pos), Some(0b1111));
    }
}

#[test]
fn positions_in_row_major_order() {
    let grid = Grid::new(2, 3);
    let expected: Vec<Position> = vec![(0, 0), (1, 0), (2, 0), (0, 1), (1, 1), (2, 1)];
    assert_eq!(grid.iter_position(), expected);
    let rows = grid.iter_rows();
    assert_eq!(rows, vec![vec![(0, 0), (1, 0), (2, 0)], vec![(0, 1), (1, 1), (2, 1)]]);
    let mut walk = grid.iter();
    let mut walked: Vec<Position> = Vec::new();
    while let Some(p) = walk.next() {
        walked.push(p);
    }
    assert_eq!(walked, expected);
    assert_eq!(walk.next(), None);
}

#[test]
fn empty_grid_has_no_cells() {
    let grid = Grid::new(0, 0);
    assert!(grid.iter_position().is_empty());
    assert!(grid.iter_rows().is_empty());
    assert_eq!(grid.sprite_for_cell((0, 0)), None);
    assert_eq!(grid.to_string(), "+\n");
    let wide = Grid::new(0, 2);
    assert_eq!(wide.to_string(), "+---+---+\n");
}

#[test]
fn single_cell_text() {
    let mut grid = Grid::new(1, 1);
    assert_eq!(grid.to_string(), "+---+\n|   |\n+---+\n");
    grid.link_cell((0, 0), (0, 0), true);
    assert_eq!(grid.sprite_for_cell((0, 0)), Some(0b1111));
    let two = Grid::new(1, 2);
    assert_eq!(two.to_string(), "+---+---+\n|   |   |\n+---+---+\n");
}

#[test]
fn walk_over_empty_grid_is_empty() {
    let mut no_columns = GridIter::new(3, 0);
    assert_eq!(no_columns.next(), None);
    assert_eq!(no_columns.next(), None);
    let mut no_rows = GridIter::new(0, 4);
    assert_eq!(no_rows.next(), None);
    let grid = Grid::new(3, 0);
    assert_eq!(grid.iter().next(), None);
    assert!(grid.iter_position().is_empty());
    let mut walked = 0usize;
    let mut walk = GridIter::new(2, 3);
    while let Some((x, y)) = walk.next() {
        assert!((0..3).contains(&x) && (0..2).contains(&y));
        walked += 1;
    }
    assert_eq!(walked, 6);
}
