use maze::binary_tree::binary_tree;
use maze::grid::{Grid, Position};
use maze::maze::{cell_value, Maze, SIZE};
use maze::sidewinder::sidewinder;
use rand::rngs::StdRng;
use rand::SeedableRng;

fn links(grid: &Grid, p: Position) -> Vec<Position> {
    grid.get_cell(&p).unwrap().links.clone()
}

// Counts each two-way link once and checks that every cell is reached from (0, 0).
fn assert_spanning_tree(grid: &Grid, rows: usize, columns: usize) {
    let mut ends = 0usize;
    for p in grid.iter_position() {
        for q in links(grid, p) {
            assert!(links(grid, q).contains(&p));
            ends += 1;
        }
    }
    assert_eq!(ends / 2, rows * columns - 1);
    let mut seen: Vec<Position> = vec![(0, 0)];
    let mut todo: Vec<Position> = vec![(0, 0)];
    while let Some(p) = todo.pop() {
        for q in links(grid, p) {
            if !seen.contains(&q) {
                seen.push(q);
                todo.push(q);
            }
        }
    }
    assert_eq!(seen.len(), rows * columns);
}

#[test]
fn binary_tree_carves_spanning_tree() {
    for (rows, columns, seed) in [(1, 1, 0), (1, 7, 3), (6, 1, 4), (5, 8, 9), (12, 12, 42)] {
        let mut grid = Grid::new(rows, columns);
        let mut rng = StdRng::seed_from_u64(seed);
        binary_tree(&mut grid, &mut rng);
        assert_spanning_tree(&grid, rows, columns);
    }
}

#[test]
fn sidewinder_carves_spanning_tree() {
    for (rows, columns, seed) in [(1, 1, 0), (1, 7, 3), (6, 1, 4), (5, 8, 9), (12, 12, 42)] {
        let mut grid = Grid::new(rows, columns);
        let mut rng = StdRng::seed_from_u64(seed);
        sidewinder(&mut grid, &mut rng);
        assert_spanning_tree(&grid, rows, columns);
    }
}

#[test]
fn sidewinder_links_whole_top_row() {
    for seed in 0..20u64 {
        let mut grid = Grid::new(6, 9);
        let mut rng = StdRng::seed_from_u64(seed);
        sidewinder(&mut grid, &mut rng);
        for x in 0..8isize {
            assert!(links(&grid, (x, 0)).contains(&(x + 1, 0)));
            assert!(links(&grid, (x + 1, 0)).contains(&(x, 0)));
        }
    }
}

#[test]
fn binary_tree_links_only_north_or_east() {
    let mut grid = Grid::new(7, 5);
    let mut rng = StdRng::seed_from_u64(11);
    binary_tree(&mut grid, &mut rng);
    // the top row runs east to the corner, the last column runs north to it
    for x in 0..4isize {
        assert!(links(&grid, (x, 0)).contains(&(x + 1, 0)));
    }
    for y in 1..7isize {
        assert!(links(&grid, (4, y)).contains(&(4, y - 1)));
    }
}

#[test]
fn same_seed_same_maze() {
    for seed in [1u64, 7, 1234] {
        let mut a = Grid::new(8, 6);
        let mut b = Grid::new(8, 6);
        binary_tree(&mut a, &mut StdRng::seed_from_u64(seed));
        binary_tree(&mut b, &mut StdRng::seed_from_u64(seed));
        assert_eq!(a.to_string(), b.to_string());
        let mut c = Grid::new(8, 6);
        let mut d = Grid::new(8, 6);
        sidewinder(&mut c, &mut StdRng::seed_from_u64(seed));
        sidewinder(&mut d, &mut StdRng::seed_from_u64(seed));
        assert_eq!(c.to_string(), d.to_string());
    }
}

#[test]
fn regenerated_grid_carves_like_new() {
    let mut grid = Grid::new(10, 10);
    binary_tree(&mut grid, &mut StdRng::seed_from_u64(5));
    grid.regenerate();
    sidewinder(&mut grid, &mut StdRng::seed_from_u64(1));
    let mut fresh = Grid::new(10, 10);
    sidewinder(&mut fresh, &mut StdRng::seed_from_u64(1));
    assert_eq!(grid.to_string(), fresh.to_string());
}

#[test]
fn maze_cell_values() {
    assert_eq!(cell_value(3, 0, false), 0b1100);
    assert_eq!(cell_value(3, 2, true), 0b0100);
    assert_eq!(cell_value(3, 3, true), 0b0110);
    assert_eq!(cell_value(1, 0, false), 0b1000);
    assert_eq!(cell_value(0, 0, true), 0b1001);
    assert_eq!(cell_value(1, 1, true), 0b1000);
    assert_eq!(cell_value(1, 1, false), 0b0100);
    assert_eq!(cell_value(0, 3, false), 0b0111);
}

#[test]
fn maze_cells_follow_rules() {
    let maze = Maze::new();
    for y in 0..SIZE {
        for x in 0..SIZE {
            let v = maze.get_cell(x, y).unwrap();
            assert!(v == cell_value(x, y, true) || v == cell_value(x, y, false));
            assert_eq!(maze.iter_row()[y][x], v);
        }
    }
    assert_eq!(maze.get_cell(SIZE, 0), None);
    assert_eq!(maze.get_cell(0, SIZE), None);
}
