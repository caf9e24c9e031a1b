//! A fixed-size maze stored directly as wall bitmasks, carved by binary-tree
//! rules: bit 0 west, bit 1 south, bit 2 east, bit 3 north.
use crate::grid::bit_if;
use crate::random::random_bool;
use vstd::prelude::*;

verus! {

/// One cell's wall bitmask.
pub type Cell = u8;

/// Side length of the maze.
pub const SIZE: usize = 4;

/// The bitmask of cell `(x, y)`. The top-right cell carries its north and east
/// walls; the rest of the last column its east wall; the rest of the top row its
/// north wall; any other cell its north wall when `carve_right` holds, else its
/// east wall. Cells of the first column add the west wall, those of the last row
/// the south wall.
pub open spec fn maze_cell(x: int, y: int, carve_right: bool) -> int {
    let carved = if x == SIZE - 1 && y == 0 {
        0b1100int
    } else if x == SIZE - 1 {
        0b0100int
    } else if y == 0 {
        0b1000int
    } else if carve_right {
        0b1000int
    } else {
        0b0100int
    };
    carved + bit_if(x == 0, 0b0001) + bit_if(y == SIZE - 1, 0b0010)
}

/// The bitmask of cell `(x, y)` for the given carving direction.
pub fn cell_value(x: usize, y: usize, carve_right: bool) -> (r: Cell)
    requires
        x < SIZE,
        y < SIZE,
    ensures
        r == maze_cell(x as int, y as int, carve_right),
{
    let mut cell: Cell = if x == SIZE - 1 && y == 0 {
        0b1100
    } else if x == SIZE - 1 {
        0b0100
    } else if y == 0 {
        0b1000
    } else if carve_right {
        0b1000
    } else {
        0b0100
    };
    if x == 0 {
        cell = cell + 0b0001;
    }
    if y == SIZE - 1 {
        cell = cell + 0b0010;
    }
    cell
}

#[derive(Debug)]
pub struct Maze {
    cells: [[Cell; SIZE]; SIZE],
}

impl Maze {
    /// The bitmask stored for cell `(x, y)`.
    pub closed spec fn cell_at(&self, x: int, y: int) -> Cell {
        self.cells[y][x]
    }

    /// Every cell holds the bitmask of one of its two carving directions.
    pub open spec fn carved(&self) -> bool {
        forall|x: int, y: int|
            0 <= x < SIZE && 0 <= y < SIZE ==> (#[trigger] self.cell_at(x, y) == maze_cell(
                x,
                y,
                true,
            ) || self.cell_at(x, y) == maze_cell(x, y, false))
    }

    /// A freshly carved maze.
    pub fn new() -> (m: Maze)
        ensures
            m.carved(),
    {
        let mut maze = Maze { cells: [[0b0000;SIZE];SIZE] };
        maze.regenerate();
        maze
    }

    /// Carves every cell anew, drawing the direction of each inner cell at random.
    pub fn regenerate(&mut self)
        ensures
            final(self).carved(),
    {
        let mut y: usize = 0;
        while y < SIZE
            invariant
                y <= SIZE,
                forall|i: int, j: int|
                    0 <= i < SIZE && 0 <= j < y ==> (#[trigger] self.cells[j][i] == maze_cell(
                        i,
                        j,
                        true,
                    ) || self.cells[j][i] == maze_cell(i, j, false)),
            decreases SIZE - y,
        {
            let mut row: [Cell; SIZE] = [0b0000;SIZE];
            let mut x: usize = 0;
            while x < SIZE
                invariant
                    y < SIZE,
                    x <= SIZE,
                    forall|i: int|
                        0 <= i < x ==> (#[trigger] row[i] == maze_cell(i, y as int, true) || row[i]
                            == maze_cell(i, y as int, false)),
                decreases SIZE - x,
            {
                let carve_right = if x == SIZE - 1 || y == 0 {
                    true
                } else {
                    random_bool()
                };
                row[x] = cell_value(x, y, carve_right);
                x += 1;
            }
            self.cells[y] = row;
            y += 1;
        }
    }

    /// The rows of the maze, top to bottom.
    pub fn iter_row(&self) -> (r: &[[Cell; SIZE]; SIZE])
        ensures
            forall|x: int, y: int|
                0 <= x < SIZE && 0 <= y < SIZE ==> #[trigger] r[y][x] == self.cell_at(x, y),
    {
        &self.cells
    }

    /// The bitmask of cell `(x, y)`, or `None` outside the maze.
    pub fn get_cell(&self, x: usize, y: usize) -> (r: Option<u8>)
        ensures
            r == if x < SIZE && y < SIZE {
                Some(self.cell_at(x as int, y as int))
            } else {
                None
            },
    {
        if x < SIZE && y < SIZE {
            Some(self.cells[y][x])
        } else {
            None
        }
    }
}

} // verus!
