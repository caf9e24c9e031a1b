use maze::binary_tree::binary_tree;
use maze::grid::{Grid, GridIter, Position};
use maze::sidewinder::sidewinder;
use rand::rngs::StdRng;
use rand::SeedableRng;

fn seeded() -> StdRng {
    StdRng::seed_from_u64(1)
}

#[test]
fn test_binary_tree() {
    let mut grid = Grid::new(10, 10);
    let mut rng = seeded();
    binary_tree(&mut grid, &mut rng);
    let expected: String = [
        "+---+---+---+---+---+---+---+---+---+---+\n",
        "|                                       |\n",
        "+   +   +---+---+---+---+   +   +   +   +\n",
        "|   |   |                   |   |   |   |\n",
        "+---+---+---+   +---+---+---+   +---+   +\n",
        "|               |               |       |\n",
        "+---+---+---+---+   +---+   +---+---+   +\n",
        "|                   |       |           |\n",
        "+   +---+   +---+---+   +---+   +---+   +\n",
        "|   |       |           |       |       |\n",
        "+---+   +---+---+---+---+   +   +---+   +\n",
        "|       |                   |   |       |\n",
        "+   +---+---+   +---+   +---+   +---+   +\n",
        "|   |           |       |       |       |\n",
        "+---+---+---+   +   +   +   +---+---+   +\n",
        "|               |   |   |   |           |\n",
        "+---+   +   +   +---+---+---+---+   +   +\n",
        "|       |   |   |                   |   |\n",
        "+---+   +   +   +   +   +   +   +   +   +\n",
        "|       |   |   |   |   |   |   |   |   |\n",
        "+---+---+---+---+---+---+---+---+---+---+\n",
    ]
    .concat();
    assert_eq!(grid.to_string(), expected);
}

#[test]
fn test_sidewinder() {
    let mut grid = Grid::new(10, 10);
    let mut rng = seeded();
    sidewinder(&mut grid, &mut rng);
    let expected: String = [
        "+---+---+---+---+---+---+---+---+---+---+\n",
        "|                                       |\n",
        "+   +   +---+   +---+---+---+---+   +   +\n",
        "|   |       |           |           |   |\n",
        "+   +---+   +---+---+   +---+   +---+   +\n",
        "|   |               |   |       |       |\n",
        "+---+   +---+   +   +---+---+---+   +   +\n",
        "|       |       |   |               |   |\n",
        "+   +   +   +   +---+---+   +---+---+   +\n",
        "|   |   |   |       |       |           |\n",
        "+   +   +---+   +   +---+---+   +   +   +\n",
        "|   |       |   |           |   |   |   |\n",
        "+   +   +---+---+   +---+---+---+   +---+\n",
        "|   |   |               |               |\n",
        "+   +---+   +---+   +   +---+---+---+   +\n",
        "|       |       |   |   |               |\n",
        "+   +   +   +   +---+---+   +---+---+   +\n",
        "|   |   |   |   |                   |   |\n",
        "+---+   +---+   +   +---+---+---+---+   +\n",
        "|       |       |           |           |\n",
        "+---+---+---+---+---+---+---+---+---+---+\n",
    ]
    .concat();
    assert_eq!(grid.to_string(), expected);
}

#[test]
fn test_grid_iter() {
    let mut iter = GridIter::new(10, 8);
    let mut ret: Vec<Position> = Vec::new();
    while let Some(pos) = iter.next() {
        ret.push(pos);
    }
    let expected: Vec<Position> = vec![
        (0, 0),
        (1, 0),
        (2, 0),
        (3, 0),
        (4, 0),
        (5, 0),
        (6, 0),
        (7, 0),
        (0, 1),
        (1, 1),
        (2, 1),
        (3, 1),
        (4, 1),
        (5, 1),
        (6, 1),
        (7, 1),
        (0, 2),
        (1, 2),
        (2, 2),
        (3, 2),
        (4, 2),
        (5, 2),
        (6, 2),
        (7, 2),
        (0, 3),
        (1, 3),
        (2, 3),
        (3, 3),
        (4, 3),
        (5, 3),
        (6, 3),
        (7, 3),
        (0, 4),
        (1, 4),
        (2, 4),
        (3, 4),
        (4, 4),
        (5, 4),
        (6, 4),
        (7, 4),
        (0, 5),
        (1, 5),
        (2, 5),
        (3, 5),
        (4, 5),
        (5, 5),
        (6, 5),
        (7, 5),
        (0, 6),
        (1, 6),
        (2, 6),
        (3, 6),
        (4, 6),
        (5, 6),
        (6, 6),
        (7, 6),
        (0, 7),
        (1, 7),
        (2, 7),
        (3, 7),
        (4, 7),
        (5, 7),
        (6, 7),
        (7, 7),
        (0, 8),
        (1, 8),
        (2, 8),
        (3, 8),
        (4, 8),
        (5, 8),
        (6, 8),
        (7, 8),
        (0, 9),
        (1, 9),
        (2, 9),
        (3, 9),
        (4, 9),
        (5, 9),
        (6, 9),
        (7, 9),
    ];
    assert_eq!(ret, expected);
}

#[test]
fn test_display_grid() {
    let mut grid = Grid::new(10, 10);
    grid.link_cell((1, 1), (1, 2), true);
    let expected: String = [
        "+---+---+---+---+---+---+---+---+---+---+\n",
        "|   |   |   |   |   |   |   |   |   |   |\n",
        "+---+---+---+---+---+---+---+---+---+---+\n",
        "|   |   |   |   |   |   |   |   |   |   |\n",
        "+---+   +---+---+---+---+---+---+---+---+\n",
        "|   |   |   |   |   |   |   |   |   |   |\n",
        "+---+---+---+---+---+---+---+---+---+---+\n",
        "|   |   |   |   |   |   |   |   |   |   |\n",
        "+---+---+---+---+---+---+---+---+---+---+\n",
        "|   |   |   |   |   |   |   |   |   |   |\n",
        "+---+---+---+---+---+---+---+---+---+---+\n",
        "|   |   |   |   |   |   |   |   |   |   |\n",
        "+---+---+---+---+---+---+---+---+---+---+\n",
        "|   |   |   |   |   |   |   |   |   |   |\n",
        "+---+---+---+---+---+---+---+---+---+---+\n",
        "|   |   |   |   |   |   |   |   |   |   |\n",
        "+---+---+---+---+---+---+---+---+---+---+\n",
        "|   |   |   |   |   |   |   |   |   |   |\n",
        "+---+---+---+---+---+---+---+---+---+---+\n",
        "|   |   |   |   |   |   |   |   |   |   |\n",
        "+---+---+---+---+---+---+---+---+---+---+\n",
    ]
    .concat();
    assert_eq!(grid.to_string(), expected);
    grid.link_cell((9, 9), (8, 9), true);
    let expected: String = [
        "+---+---+---+---+---+---+---+---+---+---+\n",
        "|   |   |   |   |   |   |   |   |   |   |\n",
        "+---+---+---+---+---+---+---+---+---+---+\n",
        "|   |   |   |   |   |   |   |   |   |   |\n",
        "+---+   +---+---+---+---+---+---+---+---+\n",
        "|   |   |   |   |   |   |   |   |   |   |\n",
        "+---+---+---+---+---+---+---+---+---+---+\n",
        "|   |   |   |   |   |   |   |   |   |   |\n",
        "+---+---+---+---+---+---+---+---+---+---+\n",
        "|   |   |   |   |   |   |   |   |   |   |\n",
        "+---+---+---+---+---+---+---+---+---+---+\n",
        "|   |   |   |   |   |   |   |   |   |   |\n",
        "+---+---+---+---+---+---+---+---+---+---+\n",
        "|   |   |   |   |   |   |   |   |   |   |\n",
        "+---+---+---+---+---+---+---+---+---+---+\n",
        "|   |   |   |   |   |   |   |   |   |   |\n",
        "+---+---+---+---+---+---+---+---+---+---+\n",
        "|   |   |   |   |   |   |   |   |   |   |\n",
        "+---+---+---+---+---+---+---+---+---+---+\n",
        "|   |   |   |   |   |   |   |   |       |\n",
        "+---+---+---+---+---+---+---+---+---+---+\n",
    ]
    .concat();
    assert_eq!(grid.to_string(), expected);
}
