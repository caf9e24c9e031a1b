use vstd::prelude::*;
use vstd::string::*;

verus! {

/// A cell's coordinates: `(column, row)`, both zero-based.
pub type Position = (isize, isize);

/// `p` addresses a cell of a grid with `rows` rows and `columns` columns.
pub open spec fn in_bounds(rows: int, columns: int, p: Position) -> bool {
    0 <= p.0 < columns && 0 <= p.1 < rows
}

/// The cell above `p`, if `p` is a cell and not in the top row.
pub open spec fn north_spec(rows: int, columns: int, p: Position) -> Option<Position> {
    if in_bounds(rows, columns, p) && p.1 > 0 {
        Some((p.0, (p.1 - 1) as isize))
    } else {
        None
    }
}

/// The cell below `p`, if `p` is a cell and not in the bottom row.
pub open spec fn south_spec(rows: int, columns: int, p: Position) -> Option<Position> {
    if in_bounds(rows, columns, p) && p.1 < rows - 1 {
        Some((p.0, (p.1 + 1) as isize))
    } else {
        None
    }
}

/// The cell to the right of `p`, if `p` is a cell and not in the last column.
pub open spec fn east_spec(rows: int, columns: int, p: Position) -> Option<Position> {
    if in_bounds(rows, columns, p) && p.0 < columns - 1 {
        Some(((p.0 + 1) as isize, p.1))
    } else {
        None
    }
}

/// The cell to the left of `p`, if `p` is a cell and not in the first column.
pub open spec fn west_spec(rows: int, columns: int, p: Position) -> Option<Position> {
    if in_bounds(rows, columns, p) && p.0 > 0 {
        Some(((p.0 - 1) as isize, p.1))
    } else {
        None
    }
}

/// The `i`-th position of a row-major walk over a grid `columns` wide.
pub open spec fn position_at(columns: int, i: int) -> Position {
    ((i % columns) as isize, (i / columns) as isize)
}

/// One grid position: its fixed neighbours and the positions it is linked to.
pub struct Cell {
    pub pos: Position,
    pub north: Option<Position>,
    pub south: Option<Position>,
    pub west: Option<Position>,
    pub east: Option<Position>,
    pub links: Vec<Position>,
}

impl Cell {
    /// The positions this cell has an open passage to.
    pub open spec fn link_set(&self) -> Set<Position> {
        self.links@.to_set()
    }

    /// The neighbour fields are those of `self.pos` in a `rows` x `columns` grid.
    pub open spec fn neighbors_match(&self, rows: int, columns: int) -> bool {
        &&& self.north == north_spec(rows, columns, self.pos)
        &&& self.south == south_spec(rows, columns, self.pos)
        &&& self.east == east_spec(rows, columns, self.pos)
        &&& self.west == west_spec(rows, columns, self.pos)
    }

    fn new(pos: Position) -> (c: Cell)
        ensures
            c.pos == pos,
            c.north is None,
            c.south is None,
            c.east is None,
            c.west is None,
            c.link_set() == Set::<Position>::empty(),
    {
        let c = Cell { pos, north: None, south: None, west: None, east: None, links: Vec::new() };
        proof {
            assert(c.links@ =~= Seq::<Position>::empty());
        }
        c
    }

    /// Sets the four neighbour fields from the grid's dimensions.
    fn configure(&mut self, rows: isize, columns: isize)
        requires
            in_bounds(rows as int, columns as int, old(self).pos),
        ensures
            final(self).pos == old(self).pos,
            final(self).links == old(self).links,
            final(self).neighbors_match(rows as int, columns as int),
    {
        let (x, y) = self.pos;
        self.north = if y > 0 {
            Some((x, y - 1))
        } else {
            None
        };
        self.south = if y < rows - 1 {
            Some((x, y + 1))
        } else {
            None
        };
        self.east = if x < columns - 1 {
            Some((x + 1, y))
        } else {
            None
        };
        self.west = if x > 0 {
            Some((x - 1, y))
        } else {
            None
        };
    }

    fn linked(&self, pos: &Position) -> (r: bool)
        ensures
            r == self.link_set().contains(*pos),
    {
        let mut i: usize = 0;
        while i < self.links.len()
            invariant
                i <= self.links@.len(),
                forall|j: int| 0 <= j < i ==> self.links@[j] != *pos,
            decreases self.links@.len() - i,
        {
            let q = self.links[i];
            if q.0 == pos.0 && q.1 == pos.1 {
                proof {
                    assert(self.links@.contains(*pos));
                }
                return true;
            }
            i += 1;
        }
        false
    }

    /// Whether this cell is linked to `pos`; `false` when there is no position.
    pub fn linked_optional(&self, pos: Option<&Position>) -> (r: bool)
        ensures
            r == match pos {
                Some(p) => self.link_set().contains(*p),
                None => false,
            },
    {
        if let Some(pos) = pos {
            self.linked(pos)
        } else {
            false
        }
    }

    fn link(&mut self, position: Position)
        ensures
            final(self).pos == old(self).pos,
            final(self).north == old(self).north,
            final(self).south == old(self).south,
            final(self).east == old(self).east,
            final(self).west == old(self).west,
            final(self).link_set() == old(self).link_set().insert(position),
    {
        if !self.linked(&position) {
            self.links.push(position);
            proof {
                assert(self.links@.to_set() =~= old(self).links@.to_set().insert(position)) by {
                    assert(self.links@ == old(self).links@.push(position));
                    assert forall|q: Position|
                        self.links@.contains(q) <==> old(self).links@.contains(q) || q
                            == position by {
                        if old(self).links@.contains(q) {
                            let j = choose|j: int|
                                0 <= j < old(self).links@.len() && old(self).links@[j] == q;
                            assert(self.links@[j] == q);
                        }
                        if q == position {
                            assert(self.links@[self.links@.len() - 1] == q);
                        }
                    }
                }
            }
        } else {
            proof {
                assert(old(self).link_set().insert(position) =~= old(self).link_set());
            }
        }
    }

    fn unlink(&mut self, pos: &Position)
        ensures
            final(self).pos == old(self).pos,
            final(self).north == old(self).north,
            final(self).south == old(self).south,
            final(self).east == old(self).east,
            final(self).west == old(self).west,
            final(self).link_set() == old(self).link_set().remove(*pos),
    {
        let mut kept: Vec<Position> = Vec::new();
        let mut i: usize = 0;
        while i < self.links.len()
            invariant
                i <= self.links@.len(),
                forall|q: Position|
                    kept@.contains(q) <==> (exists|j: int|
                        0 <= j < i && self.links@[j] == q && q != *pos),
            decreases self.links@.len() - i,
        {
            let q = self.links[i];
            if !(q.0 == pos.0 && q.1 == pos.1) {
                let ghost before = kept@;
                kept.push(q);
                proof {
                    assert forall|r: Position|
                        kept@.contains(r) <==> (exists|j: int|
                            0 <= j < i + 1 && self.links@[j] == r && r != *pos) by {
                        if kept@.contains(r) {
                            let k = choose|k: int| 0 <= k < kept@.len() && kept@[k] == r;
                            if k < before.len() {
                                assert(before.contains(r));
                            } else {
                                assert(self.links@[i as int] == r);
                            }
                        }
                        if exists|j: int| 0 <= j < i + 1 && self.links@[j] == r && r != *pos {
                            let j = choose|j: int|
                                0 <= j < i + 1 && self.links@[j] == r && r != *pos;
                            if j < i {
                                assert(before.contains(r));
                                let k = choose|k: int| 0 <= k < before.len() && before[k] == r;
                                assert(kept@[k] == r);
                            } else {
                                assert(kept@[kept@.len() - 1] == r);
                            }
                        }
                    }
                }
            } else {
                proof {
                    assert forall|r: Position|
                        kept@.contains(r) <==> (exists|j: int|
                            0 <= j < i + 1 && self.links@[j] == r && r != *pos) by {
                        if exists|j: int| 0 <= j < i + 1 && self.links@[j] == r && r != *pos {
                            let j = choose|j: int|
                                0 <= j < i + 1 && self.links@[j] == r && r != *pos;
                            assert(j < i);
                        }
                    }
                }
            }
            i += 1;
        }
        proof {
            assert forall|q: Position|
                kept@.to_set().contains(q) <==> old(self).link_set().remove(*pos).contains(q) by {
                if old(self).links@.contains(q) && q != *pos {
                    let j = choose|j: int|
                        0 <= j < old(self).links@.len() && old(self).links@[j] == q;
                    assert(self.links@[j] == q);
                }
            }
            assert(kept@.to_set() =~= old(self).link_set().remove(*pos));
        }
        self.links = kept;
    }

    /// The neighbours that exist, in the order north, south, east, west.
    fn neighbors(&self) -> (r: Vec<Position>)
        ensures
            r@ == option_seq(self.north) + option_seq(self.south) + option_seq(self.east)
                + option_seq(self.west),
    {
        let mut neighbors: Vec<Position> = Vec::new();
        if let Some(n) = self.north {
            neighbors.push(n);
        }
        if let Some(n) = self.south {
            neighbors.push(n);
        }
        if let Some(n) = self.east {
            neighbors.push(n);
        }
        if let Some(n) = self.west {
            neighbors.push(n);
        }
        proof {
            assert(neighbors@ =~= option_seq(self.north) + option_seq(self.south) + option_seq(
                self.east,
            ) + option_seq(self.west));
        }
        neighbors
    }

    /// Removes every link of this cell.
    pub fn clear(&mut self)
        ensures
            final(self).pos == old(self).pos,
            final(self).north == old(self).north,
            final(self).south == old(self).south,
            final(self).east == old(self).east,
            final(self).west == old(self).west,
            final(self).link_set() == Set::<Position>::empty(),
    {
        self.links = Vec::new();
        proof {
            assert(self.links@ =~= Seq::<Position>::empty());
        }
    }
}

/// The link set of cell `p` after linking `from` to `to` (both ways when `bidi`).
pub open spec fn link_step(
    s: Set<Position>,
    p: Position,
    from: Position,
    to: Position,
    bidi: bool,
) -> Set<Position> {
    let s1 = if p == from {
        s.insert(to)
    } else {
        s
    };
    if bidi && p == to {
        s1.insert(from)
    } else {
        s1
    }
}

/// The link set of cell `p` after unlinking `to` from `from` (both ways when `bidi`).
pub open spec fn unlink_step(
    s: Set<Position>,
    p: Position,
    from: Position,
    to: Position,
    bidi: bool,
) -> Set<Position> {
    let s1 = if p == from {
        s.remove(to)
    } else {
        s
    };
    if bidi && p == to {
        s1.remove(from)
    } else {
        s1
    }
}

/// The value held by `o`, as a sequence of length zero or one.
pub open spec fn option_seq(o: Option<Position>) -> Seq<Position> {
    match o {
        Some(p) => seq![p],
        None => Seq::empty(),
    }
}

/// A `rows` x `columns` matrix of cells, stored row by row.
pub struct Grid {
    cells: Vec<Vec<Cell>>,
    rows: usize,
    columns: usize,
}

impl Grid {
    /// Number of rows.
    pub closed spec fn nrows(&self) -> int {
        self.rows as int
    }

    /// Number of columns.
    pub closed spec fn ncols(&self) -> int {
        self.columns as int
    }

    /// The cell stored at `p`; meaningful only when `p` is in bounds.
    closed spec fn cell_at(&self, p: Position) -> Cell {
        self.cells@[p.1 as int]@[p.0 as int]
    }

    /// The positions that `p` is linked to; empty for a position outside the grid.
    pub closed spec fn links_of(&self, p: Position) -> Set<Position> {
        if in_bounds(self.nrows(), self.ncols(), p) {
            self.cell_at(p).link_set()
        } else {
            Set::empty()
        }
    }

    /// The link set of every position, as one function.
    pub open spec fn link_map(&self) -> spec_fn(Position) -> Set<Position> {
        |p: Position| self.links_of(p)
    }

    /// `p` addresses a cell of this grid.
    pub open spec fn contains(&self, p: Position) -> bool {
        in_bounds(self.nrows(), self.ncols(), p)
    }

    /// The dimensions fit in `isize`, and every cell sits at its own position with
    /// the neighbour fields that the dimensions give it.
    pub closed spec fn wf(&self) -> bool {
        &&& self.rows <= isize::MAX
        &&& self.columns <= isize::MAX
        &&& self.cells@.len() == self.rows
        &&& forall|y: int| 0 <= y < self.rows ==> #[trigger] self.cells@[y]@.len() == self.columns
        &&& forall|x: int, y: int|
            0 <= x < self.columns && 0 <= y < self.rows ==> {
                let c = #[trigger] self.cells@[y]@[x];
                &&& c.pos == (x as isize, y as isize)
                &&& c.neighbors_match(self.rows as int, self.columns as int)
            }
    }

    /// The dimensions of a well-formed grid fit in `isize`.
    pub proof fn lemma_dimensions_fit(&self)
        requires
            self.wf(),
        ensures
            0 <= self.nrows() <= isize::MAX,
            0 <= self.ncols() <= isize::MAX,
    {
    }

    /// Every cell of the grid has an empty link set.
    pub open spec fn all_unlinked(&self) -> bool {
        forall|p: Position| #[trigger] self.links_of(p) == Set::<Position>::empty()
    }

    /// The grid of `rows` x `columns` cells with no links; with either dimension
    /// zero, the grid has no cells.
    pub fn new(rows: usize, columns: usize) -> (g: Grid)
        requires
            rows <= isize::MAX,
            columns <= isize::MAX,
        ensures
            g.wf(),
            g.nrows() == rows,
            g.ncols() == columns,
            g.all_unlinked(),
    {
        let mut cells: Vec<Vec<Cell>> = Vec::new();
        let mut y: usize = 0;
        while y < rows
            invariant
                y <= rows <= isize::MAX,
                columns <= isize::MAX,
                cells@.len() == y,
                forall|j: int| 0 <= j < y ==> #[trigger] cells@[j]@.len() == columns,
                forall|i: int, j: int|
                    0 <= i < columns && 0 <= j < y ==> {
                        let c = #[trigger] cells@[j]@[i];
                        &&& c.pos == (i as isize, j as isize)
                        &&& c.neighbors_match(rows as int, columns as int)
                        &&& c.link_set() == Set::<Position>::empty()
                    },
            decreases rows - y,
        {
            let mut row: Vec<Cell> = Vec::new();
            let mut x: usize = 0;
            while x < columns
                invariant
                    y < rows <= isize::MAX,
                    x <= columns <= isize::MAX,
                    row@.len() == x,
                    forall|i: int|
                        0 <= i < x ==> {
                            let c = #[trigger] row@[i];
                            &&& c.pos == (i as isize, y as isize)
                            &&& c.neighbors_match(rows as int, columns as int)
                            &&& c.link_set() == Set::<Position>::empty()
                        },
                decreases columns - x,
            {
                let mut cell = Cell::new((x as isize, y as isize));
                cell.configure(rows as isize, columns as isize);
                row.push(cell);
                x += 1;
            }
            cells.push(row);
            y += 1;
        }
        let g = Grid { cells, rows, columns };
        proof {
            assert forall|p: Position| #[trigger] g.links_of(p) == Set::<Position>::empty() by {
                if in_bounds(g.nrows(), g.ncols(), p) {
                    assert(g.cells@[p.1 as int]@[p.0 as int].link_set() == Set::<Position>::empty());
                }
            }
        }
        g
    }

    /// The cell at `pos`, or `None` when `pos` lies outside the grid.
    pub fn get_cell(&self, pos: &Position) -> (r: Option<&Cell>)
        requires
            self.wf(),
        ensures
            r is None <==> !self.contains(*pos),
            r matches Some(c) ==> {
                &&& c.pos == *pos
                &&& c.neighbors_match(self.nrows(), self.ncols())
                &&& c.link_set() == self.links_of(*pos)
            },
    {
        let (x, y) = *pos;
        if x < 0 || y < 0 {
            return None;
        }
        let (x, y) = (x as usize, y as usize);
        if y >= self.rows || x >= self.columns {
            return None;
        }
        let c = &self.cells[y][x];
        proof {
            assert(c == self.cells@[y as int]@[x as int]);
        }
        Some(c)
    }

    /// Empties every cell's link set; dimensions and neighbours stay as they are.
    pub fn regenerate(&mut self)
        requires
            old(self).wf(),
        ensures
            final(self).wf(),
            final(self).nrows() == old(self).nrows(),
            final(self).ncols() == old(self).ncols(),
            final(self).all_unlinked(),
    {
        let ghost rows = self.rows as int;
        let ghost columns = self.columns as int;
        let mut y: usize = 0;
        while y < self.rows
            invariant
                self.rows == rows,
                self.columns == columns,
                self.wf(),
                y <= rows,
                forall|i: int, j: int|
                    0 <= i < columns && 0 <= j < y ==> (#[trigger] self.cells@[j]@[i]).link_set()
                        == Set::<Position>::empty(),
            decreases rows - y,
        {
            let mut x: usize = 0;
            while x < self.columns
                invariant
                    self.rows == rows,
                    self.columns == columns,
                    self.wf(),
                    y < rows,
                    x <= columns,
                    forall|i: int, j: int|
                        0 <= i < columns && 0 <= j < y ==> (#[trigger] self.cells@[j]@[
                            i
                        ]).link_set() == Set::<Position>::empty(),
                    forall|i: int|
                        0 <= i < x ==> (#[trigger] self.cells@[y as int]@[i]).link_set()
                            == Set::<Position>::empty(),
                decreases columns - x,
            {
                self.cells[y][x].clear();
                x += 1;
            }
            y += 1;
        }
        proof {
            assert forall|p: Position| #[trigger] self.links_of(p) == Set::<Position>::empty() by {
                if in_bounds(rows, columns, p) {
                    assert(self.cells@[p.1 as int]@[p.0 as int].link_set()
                        == Set::<Position>::empty());
                }
            }
        }
    }

    /// Adds `position` to the link set of the cell at `pos`; the other cells and
    /// every neighbour field stay as they were.
    fn link_one(&mut self, pos: Position, position: Position)
        requires
            old(self).wf(),
            old(self).contains(pos),
        ensures
            final(self).wf(),
            final(self).nrows() == old(self).nrows(),
            final(self).ncols() == old(self).ncols(),
            forall|p: Position| #[trigger]
                final(self).links_of(p) == if p == pos {
                    old(self).links_of(p).insert(position)
                } else {
                    old(self).links_of(p)
                },
    {
        let (x, y) = (pos.0 as usize, pos.1 as usize);
        self.cells[y][x].link(position);
        proof {
            assert forall|p: Position| #[trigger]
                self.links_of(p) == if p == pos {
                    old(self).links_of(p).insert(position)
                } else {
                    old(self).links_of(p)
                } by {
                if in_bounds(self.rows as int, self.columns as int, p) && p != pos {
                    assert(self.cells@[p.1 as int]@[p.0 as int] == old(self).cells@[p.1 as int]@[
                        p.0 as int
                    ]);
                }
            }
        }
    }

    /// Removes `position` from the link set of the cell at `pos`; the other cells
    /// and every neighbour field stay as they were.
    fn unlink_one(&mut self, pos: Position, position: &Position)
        requires
            old(self).wf(),
            old(self).contains(pos),
        ensures
            final(self).wf(),
            final(self).nrows() == old(self).nrows(),
            final(self).ncols() == old(self).ncols(),
            forall|p: Position| #[trigger]
                final(self).links_of(p) == if p == pos {
                    old(self).links_of(p).remove(*position)
                } else {
                    old(self).links_of(p)
                },
    {
        let (x, y) = (pos.0 as usize, pos.1 as usize);
        self.cells[y][x].unlink(position);
        proof {
            assert forall|p: Position| #[trigger]
                self.links_of(p) == if p == pos {
                    old(self).links_of(p).remove(*position)
                } else {
                    old(self).links_of(p)
                } by {
                if in_bounds(self.rows as int, self.columns as int, p) && p != pos {
                    assert(self.cells@[p.1 as int]@[p.0 as int] == old(self).cells@[p.1 as int]@[
                        p.0 as int
                    ]);
                }
            }
        }
    }

    /// Records `to` as reachable from `from`, and `from` from `to` when `bidi` holds.
    pub fn link_cell(&mut self, from: Position, to: Position, bidi: bool)
        requires
            old(self).wf(),
            old(self).contains(from),
            bidi ==> old(self).contains(to),
        ensures
            final(self).wf(),
            final(self).nrows() == old(self).nrows(),
            final(self).ncols() == old(self).ncols(),
            forall|p: Position| #[trigger]
                final(self).links_of(p) == link_step(old(self).links_of(p), p, from, to, bidi),
    {
        self.link_one(from, to);
        if bidi {
            self.link_one(to, from);
        }
    }

    /// Removes `to` from the passages of `from`, and `from` from those of `to` when
    /// `bidi` holds.
    pub fn unlink_cell(&mut self, from: Position, to: Position, bidi: bool)
        requires
            old(self).wf(),
            old(self).contains(from),
            bidi ==> old(self).contains(to),
        ensures
            final(self).wf(),
            final(self).nrows() == old(self).nrows(),
            final(self).ncols() == old(self).ncols(),
            forall|p: Position| #[trigger]
                final(self).links_of(p) == unlink_step(old(self).links_of(p), p, from, to, bidi),
    {
        self.unlink_one(from, &to);
        if bidi {
            self.unlink_one(to, &from);
        }
    }

    /// Links `pos` both ways to its north neighbour, if it has one.
    pub fn link_cell_to_north(&mut self, pos: Position)
        requires
            old(self).wf(),
        ensures
            final(self).wf(),
            final(self).nrows() == old(self).nrows(),
            final(self).ncols() == old(self).ncols(),
            forall|p: Position| #[trigger]
                final(self).links_of(p) == match north_spec(old(self).nrows(), old(self).ncols(), pos) {
                    Some(q) => link_step(old(self).links_of(p), p, pos, q, true),
                    None => old(self).links_of(p),
                },
    {
        if let Some(north) = self.north_of_cell(pos) {
            self.link_cell(pos, north, true);
        }
    }

    /// Links `pos` both ways to its east neighbour, if it has one.
    pub fn link_cell_to_east(&mut self, pos: Position)
        requires
            old(self).wf(),
        ensures
            final(self).wf(),
            final(self).nrows() == old(self).nrows(),
            final(self).ncols() == old(self).ncols(),
            forall|p: Position| #[trigger]
                final(self).links_of(p) == match east_spec(old(self).nrows(), old(self).ncols(), pos) {
                    Some(q) => link_step(old(self).links_of(p), p, pos, q, true),
                    None => old(self).links_of(p),
                },
    {
        if let Some(east) = self.east_of_cell(pos) {
            self.link_cell(pos, east, true);
        }
    }

    /// The neighbour above `pos`; `None` in the top row and outside the grid.
    pub fn north_of_cell(&self, pos: Position) -> (r: Option<Position>)
        requires
            self.wf(),
        ensures
            r == north_spec(self.nrows(), self.ncols(), pos),
    {
        match self.get_cell(&pos) {
            Some(c) => c.north,
            None => None,
        }
    }

    /// The neighbour below `pos`; `None` in the bottom row and outside the grid.
    pub fn south_of_cell(&self, pos: Position) -> (r: Option<Position>)
        requires
            self.wf(),
        ensures
            r == south_spec(self.nrows(), self.ncols(), pos),
    {
        match self.get_cell(&pos) {
            Some(c) => c.south,
            None => None,
        }
    }

    /// The neighbour right of `pos`; `None` in the last column and outside the grid.
    pub fn east_of_cell(&self, pos: Position) -> (r: Option<Position>)
        requires
            self.wf(),
        ensures
            r == east_spec(self.nrows(), self.ncols(), pos),
    {
        match self.get_cell(&pos) {
            Some(c) => c.east,
            None => None,
        }
    }

    /// The neighbour left of `pos`; `None` in the first column and outside the grid.
    pub fn west_of_cell(&self, pos: Position) -> (r: Option<Position>)
        requires
            self.wf(),
        ensures
            r == west_spec(self.nrows(), self.ncols(), pos),
    {
        match self.get_cell(&pos) {
            Some(c) => c.west,
            None => None,
        }
    }

    /// The wall bitmask of `pos`: bit 0 west, bit 1 south, bit 2 east, bit 3 north,
    /// each set where that side has no neighbour or is not linked to it; `None`
    /// outside the grid.
    pub fn sprite_for_cell(&self, pos: Position) -> (r: Option<u8>)
        requires
            self.wf(),
        ensures
            r is None <==> !self.contains(pos),
            r matches Some(m) ==> m == wall_mask(self.nrows(), self.ncols(), self.links_of(pos), pos),
    {
        let cell = match self.get_cell(&pos) {
            Some(c) => c,
            None => return None,
        };
        let mut sprite: u8 = 0;
        if !cell.linked_optional(cell.west.as_ref()) {
            sprite = sprite + 1;
        }
        if !cell.linked_optional(cell.south.as_ref()) {
            sprite = sprite + 2;
        }
        if !cell.linked_optional(cell.east.as_ref()) {
            sprite = sprite + 4;
        }
        if !cell.linked_optional(cell.north.as_ref()) {
            sprite = sprite + 8;
        }
        Some(sprite)
    }

    /// A fresh row-major walk over the positions of this grid.
    pub fn iter(&self) -> (r: GridIter)
        requires
            self.wf(),
        ensures
            r.wf(),
            r.spec_rows() == self.nrows(),
            r.spec_columns() == self.ncols(),
            r.spec_x() == 0,
            r.spec_y() == 0,
    {
        GridIter::new(self.rows, self.columns)
    }

    /// Every position of the grid in row-major order.
    pub fn iter_position(&self) -> (r: Vec<Position>)
        requires
            self.wf(),
        ensures
            r@.len() == self.nrows() * self.ncols(),
            forall|i: int| 0 <= i < r@.len() ==> #[trigger] r@[i] == position_at(self.ncols(), i),
    {
        let mut r: Vec<Position> = Vec::new();
        let mut y: usize = 0;
        while y < self.rows
            invariant
                self.wf(),
                y <= self.rows,
                r@.len() == y * self.columns,
                forall|i: int| 0 <= i < r@.len() ==> #[trigger] r@[i] == position_at(self.columns as int, i),
            decreases self.rows - y,
        {
            let mut x: usize = 0;
            while x < self.columns
                invariant
                    self.wf(),
                    y < self.rows,
                    x <= self.columns,
                    r@.len() == y * self.columns + x,
                    forall|i: int| 0 <= i < r@.len() ==> #[trigger] r@[i] == position_at(self.columns as int, i),
                decreases self.columns - x,
            {
                let ghost k = r@.len() as int;
                r.push(self.cells[y][x].pos);
                proof {
                    vstd::arithmetic::div_mod::lemma_fundamental_div_mod_converse(
                        k,
                        self.columns as int,
                        y as int,
                        x as int,
                    );
                    assert(r@[k] == position_at(self.columns as int, k));
                }
                x += 1;
            }
            proof {
                assert((y + 1) * self.columns == y * self.columns + self.columns) by (nonlinear_arith);
            }
            y += 1;
        }
        r
    }

    /// The positions of each row, left to right, rows from top to bottom.
    pub fn iter_rows(&self) -> (r: Vec<Vec<Position>>)
        requires
            self.wf(),
        ensures
            r@.len() == self.nrows(),
            forall|y: int| 0 <= y < self.nrows() ==> #[trigger] r@[y]@.len() == self.ncols(),
            forall|x: int, y: int|
                0 <= x < self.ncols() && 0 <= y < self.nrows() ==> #[trigger] r@[y]@[x] == (
                x as isize,
                y as isize,
            ),
    {
        let mut r: Vec<Vec<Position>> = Vec::new();
        let mut y: usize = 0;
        while y < self.rows
            invariant
                self.wf(),
                y <= self.rows,
                r@.len() == y,
                forall|j: int| 0 <= j < y ==> #[trigger] r@[j]@.len() == self.columns,
                forall|i: int, j: int|
                    0 <= i < self.columns && 0 <= j < y ==> #[trigger] r@[j]@[i] == (
                    i as isize,
                    j as isize,
                ),
            decreases self.rows - y,
        {
            let mut row: Vec<Position> = Vec::new();
            let mut x: usize = 0;
            while x < self.columns
                invariant
                    self.wf(),
                    y < self.rows,
                    x <= self.columns,
                    row@.len() == x,
                    forall|i: int| 0 <= i < x ==> #[trigger] row@[i] == (i as isize, y as isize),
                decreases self.columns - x,
            {
                row.push(self.cells[y][x].pos);
                x += 1;
            }
            r.push(row);
            y += 1;
        }
        r
    }

    /// The maze as ASCII art: a top border, then for each row a passage line and
    /// a wall line.
    pub fn to_string(&self) -> (r: String)
        requires
            self.wf(),
        ensures
            r@ == render(self.nrows(), self.ncols(), |p: Position| self.links_of(p)),
    {
        let ghost links = |p: Position| self.links_of(p);
        let mut out = String::from_str("+");
        proof {
            reveal_strlit("+");
            reveal_strlit("---+");
            reveal_strlit("\n");
        }
        let mut i: usize = 0;
        while i < self.columns
            invariant
                i <= self.columns,
                out@ == seq!['+'] + border_segments(i as nat),
            decreases self.columns - i,
        {
            proof {
                reveal_strlit("---+");
            }
            out.append("---+");
            proof {
                assert(out@ =~= seq!['+'] + border_segments((i + 1) as nat));
            }
            i += 1;
        }
        out.append("\n");
        let mut y: usize = 0;
        while y < self.rows
            invariant
                self.wf(),
                y <= self.rows,
                links == |p: Position| self.links_of(p),
                out@ == border_line(self.columns as nat) + render_rows(
                    self.rows as int,
                    self.columns as int,
                    links,
                    y as nat,
                ),
            decreases self.rows - y,
        {
            let mut top = String::from_str("|");
            let mut bottom = String::from_str("+");
            proof {
                reveal_strlit("|");
                reveal_strlit("+");
                reveal_strlit("   ");
                reveal_strlit(" ");
                reveal_strlit("---");
                reveal_strlit("\n");
            }
            let mut x: usize = 0;
            while x < self.columns
                invariant
                    self.wf(),
                    y < self.rows,
                    x <= self.columns,
                    links == |p: Position| self.links_of(p),
                    top@ == seq!['|'] + passage_cells(
                        self.rows as int,
                        self.columns as int,
                        links,
                        y as int,
                        x as nat,
                    ),
                    bottom@ == seq!['+'] + wall_cells(
                        self.rows as int,
                        self.columns as int,
                        links,
                        y as int,
                        x as nat,
                    ),
                decreases self.columns - x,
            {
                proof {
                    reveal_strlit("   ");
                    reveal_strlit(" ");
                    reveal_strlit("|");
                    reveal_strlit("---");
                    reveal_strlit("+");
                }
                let cell = &self.cells[y][x];
                let ghost p = (x as isize, y as isize);
                let ghost top0 = top@;
                let ghost bottom0 = bottom@;
                proof {
                    assert(*cell == self.cells@[y as int]@[x as int]);
                    assert(cell.link_set() == links(p));
                    assert(cell.pos == p);
                }
                top.append("   ");
                if cell.linked_optional(cell.east.as_ref()) {
                    top.append(" ");
                } else {
                    top.append("|");
                }
                if cell.linked_optional(cell.south.as_ref()) {
                    bottom.append("   ");
                } else {
                    bottom.append("---");
                }
                bottom.append("+");
                proof {
                    let e = if is_wall(east_spec(self.rows as int, self.columns as int, p), links(p)) {
                        '|'
                    } else {
                        ' '
                    };
                    let w = if is_wall(south_spec(self.rows as int, self.columns as int, p), links(p)) {
                        '-'
                    } else {
                        ' '
                    };
                    assert(top@ =~= top0 + seq![' ', ' ', ' ', e]);
                    assert(bottom@ =~= bottom0 + seq![w, w, w, '+']);
                    assert(top@ =~= seq!['|'] + passage_cells(
                        self.rows as int,
                        self.columns as int,
                        links,
                        y as int,
                        (x + 1) as nat,
                    ));
                    assert(bottom@ =~= seq!['+'] + wall_cells(
                        self.rows as int,
                        self.columns as int,
                        links,
                        y as int,
                        (x + 1) as nat,
                    ));
                }
                x += 1;
            }
            proof {
                reveal_strlit("\n");
            }
            top.append("\n");
            bottom.append("\n");
            out.append(top.as_str());
            out.append(bottom.as_str());
            proof {
                assert(out@ =~= border_line(self.columns as nat) + render_rows(
                    self.rows as int,
                    self.columns as int,
                    links,
                    (y + 1) as nat,
                ));
            }
            y += 1;
        }
        out
    }
}

/// Whether the side towards neighbour `n` is closed: no neighbour, or not linked.
pub open spec fn is_wall(n: Option<Position>, links: Set<Position>) -> bool {
    match n {
        Some(q) => !links.contains(q),
        None => true,
    }
}

/// `v` when `b` holds, else zero.
pub open spec fn bit_if(b: bool, v: int) -> int {
    if b {
        v
    } else {
        0
    }
}

/// The wall bitmask of cell `p` whose link set is `links`.
pub open spec fn wall_mask(rows: int, columns: int, links: Set<Position>, p: Position) -> int {
    bit_if(is_wall(west_spec(rows, columns, p), links), 1) + bit_if(
        is_wall(south_spec(rows, columns, p), links),
        2,
    ) + bit_if(is_wall(east_spec(rows, columns, p), links), 4) + bit_if(
        is_wall(north_spec(rows, columns, p), links),
        8,
    )
}

/// A row-major walk over the positions of a `rows` x `columns` grid.
pub struct GridIter {
    rows: isize,
    columns: isize,
    y: isize,
    x: isize,
}

impl GridIter {
    /// Number of rows walked.
    pub closed spec fn spec_rows(&self) -> int {
        self.rows as int
    }

    /// Number of columns walked.
    pub closed spec fn spec_columns(&self) -> int {
        self.columns as int
    }

    /// Column of the next position.
    pub closed spec fn spec_x(&self) -> int {
        self.x as int
    }

    /// Row of the next position; equal to the row count once the walk is over.
    pub closed spec fn spec_y(&self) -> int {
        self.y as int
    }

    /// The dimensions are non-negative and the cursor lies within them.
    pub open spec fn wf(&self) -> bool {
        &&& 0 <= self.spec_rows() <= isize::MAX
        &&& 0 <= self.spec_columns() <= isize::MAX
        &&& 0 <= self.spec_y() <= self.spec_rows()
        &&& 0 <= self.spec_x()
        &&& self.spec_columns() > 0 ==> self.spec_x() < self.spec_columns()
        &&& self.spec_columns() == 0 ==> self.spec_x() == 0
    }

    /// A walk that starts at `(0, 0)`.
    pub fn new(rows: usize, columns: usize) -> (r: GridIter)
        requires
            rows <= isize::MAX,
            columns <= isize::MAX,
        ensures
            r.wf(),
            r.spec_rows() == rows,
            r.spec_columns() == columns,
            r.spec_x() == 0,
            r.spec_y() == 0,
    {
        GridIter { rows: rows as isize, columns: columns as isize, y: 0, x: 0 }
    }

    /// The position under the cursor, which then moves one step right, wrapping to
    /// the start of the next row; `None`, with nothing changed, once all rows are
    /// done or when the grid has no columns. Every position handed out is a cell.
    pub fn next(&mut self) -> (r: Option<Position>)
        requires
            old(self).wf(),
        ensures
            final(self).wf(),
            final(self).spec_rows() == old(self).spec_rows(),
            final(self).spec_columns() == old(self).spec_columns(),
            r matches Some(p) ==> in_bounds(old(self).spec_rows(), old(self).spec_columns(), p),
            old(self).spec_y() >= old(self).spec_rows() || old(self).spec_columns() == 0 ==> r is None
                && *final(self) == *old(self),
            old(self).spec_y() < old(self).spec_rows() && old(self).spec_columns() > 0 ==> {
                &&& r == Some((old(self).spec_x() as isize, old(self).spec_y() as isize))
                &&& if old(self).spec_x() + 1 >= old(self).spec_columns() {
                    final(self).spec_x() == 0 && final(self).spec_y() == old(self).spec_y() + 1
                } else {
                    final(self).spec_x() == old(self).spec_x() + 1 && final(self).spec_y()
                        == old(self).spec_y()
                }
            },
    {
        if self.y >= self.rows || self.columns == 0 {
            return None;
        }
        let pos = (self.x, self.y);
        self.x += 1;
        if self.x >= self.columns {
            self.x = 0;
            self.y += 1;
        }
        Some(pos)
    }
}

/// `n` copies of the border segment `---+`.
pub open spec fn border_segments(n: nat) -> Seq<char>
    decreases n,
{
    if n == 0 {
        Seq::empty()
    } else {
        border_segments((n - 1) as nat) + seq!['-', '-', '-', '+']
    }
}

/// The top border of a grid `columns` wide, with its line break.
pub open spec fn border_line(columns: nat) -> Seq<char> {
    seq!['+'] + border_segments(columns) + seq!['\n']
}

/// The first `n` cells of the passage line of row `y`: three spaces each, then
/// `|` where the east side is a wall and a space where it is open.
pub open spec fn passage_cells(
    rows: int,
    columns: int,
    links: spec_fn(Position) -> Set<Position>,
    y: int,
    n: nat,
) -> Seq<char>
    decreases n,
{
    if n == 0 {
        Seq::empty()
    } else {
        let p = ((n - 1) as isize, y as isize);
        passage_cells(rows, columns, links, y, (n - 1) as nat) + seq![
            ' ',
            ' ',
            ' ',
            if is_wall(east_spec(rows, columns, p), links(p)) {
                '|'
            } else {
                ' '
            },
        ]
    }
}

/// The first `n` cells of the wall line of row `y`: `---` where the south side
/// is a wall and three spaces where it is open, each closed by `+`.
pub open spec fn wall_cells(
    rows: int,
    columns: int,
    links: spec_fn(Position) -> Set<Position>,
    y: int,
    n: nat,
) -> Seq<char>
    decreases n,
{
    if n == 0 {
        Seq::empty()
    } else {
        let p = ((n - 1) as isize, y as isize);
        let c = if is_wall(south_spec(rows, columns, p), links(p)) {
            '-'
        } else {
            ' '
        };
        wall_cells(rows, columns, links, y, (n - 1) as nat) + seq![c, c, c, '+']
    }
}

/// The passage line and the wall line of each of the first `n` rows.
pub open spec fn render_rows(
    rows: int,
    columns: int,
    links: spec_fn(Position) -> Set<Position>,
    n: nat,
) -> Seq<char>
    decreases n,
{
    if n == 0 {
        Seq::empty()
    } else {
        let y = n - 1;
        render_rows(rows, columns, links, (n - 1) as nat) + seq!['|'] + passage_cells(
            rows,
            columns,
            links,
            y,
            columns as nat,
        ) + seq!['\n'] + seq!['+'] + wall_cells(rows, columns, links, y, columns as nat)
            + seq!['\n']
    }
}

/// The text of a `rows` x `columns` grid whose cells have the link sets `links`.
pub open spec fn render(
    rows: int,
    columns: int,
    links: spec_fn(Position) -> Set<Position>,
) -> Seq<char> {
    border_line(columns as nat) + render_rows(rows, columns, links, rows as nat)
}

/// Every link is matched by the link back.
pub open spec fn links_symmetric(g: &Grid) -> bool {
    forall|a: Position, b: Position| #[trigger]
        g.links_of(a).contains(b) <==> #[trigger] g.links_of(b).contains(a)
}

/// Neighbour relations are mutual: the cell north of `p` has `p` to its south,
/// the cell south of `p` has it to its north, and likewise east and west.
pub proof fn lemma_neighbors_symmetric(g: &Grid, p: Position)
    requires
        g.wf(),
    ensures
        north_spec(g.nrows(), g.ncols(), p) matches Some(q) ==> south_spec(g.nrows(), g.ncols(), q)
            == Some(p),
        south_spec(g.nrows(), g.ncols(), p) matches Some(q) ==> north_spec(g.nrows(), g.ncols(), q)
            == Some(p),
        east_spec(g.nrows(), g.ncols(), p) matches Some(q) ==> west_spec(g.nrows(), g.ncols(), q)
            == Some(p),
        west_spec(g.nrows(), g.ncols(), p) matches Some(q) ==> east_spec(g.nrows(), g.ncols(), q)
            == Some(p),
{
    g.lemma_dimensions_fit();
}

/// A position outside the grid has no neighbour in any direction and no links.
pub proof fn lemma_outside_has_nothing(g: &Grid, p: Position)
    requires
        g.wf(),
        !g.contains(p),
    ensures
        north_spec(g.nrows(), g.ncols(), p) is None,
        south_spec(g.nrows(), g.ncols(), p) is None,
        east_spec(g.nrows(), g.ncols(), p) is None,
        west_spec(g.nrows(), g.ncols(), p) is None,
        g.links_of(p) == Set::<Position>::empty(),
{
}

/// A grid without links has a symmetric link relation.
pub proof fn lemma_unlinked_is_symmetric(g: &Grid)
    requires
        g.all_unlinked(),
    ensures
        links_symmetric(g),
{
    assert forall|a: Position, b: Position| #[trigger]
        g.links_of(a).contains(b) <==> #[trigger] g.links_of(b).contains(a) by {
        assert(g.links_of(a) == Set::<Position>::empty());
        assert(g.links_of(b) == Set::<Position>::empty());
    }
}

/// Linking `from` and `to` both ways keeps a symmetric link relation symmetric,
/// and leaves each of the two in the other's link set.
pub proof fn lemma_link_keeps_symmetry(before: &Grid, after: &Grid, from: Position, to: Position)
    requires
        links_symmetric(before),
        forall|p: Position| #[trigger]
            after.links_of(p) == link_step(before.links_of(p), p, from, to, true),
    ensures
        links_symmetric(after),
        after.links_of(from).contains(to),
        after.links_of(to).contains(from),
{
    assert forall|a: Position, b: Position| #[trigger]
        after.links_of(a).contains(b) <==> #[trigger] after.links_of(b).contains(a) by {
        assert(after.links_of(a) == link_step(before.links_of(a), a, from, to, true));
        assert(after.links_of(b) == link_step(before.links_of(b), b, from, to, true));
        assert(before.links_of(a).contains(b) <==> before.links_of(b).contains(a));
    }
    assert(after.links_of(from) == link_step(before.links_of(from), from, from, to, true));
    assert(after.links_of(to) == link_step(before.links_of(to), to, from, to, true));
}

/// Unlinking `from` and `to` both ways keeps a symmetric link relation symmetric,
/// and leaves neither in the other's link set.
pub proof fn lemma_unlink_keeps_symmetry(before: &Grid, after: &Grid, from: Position, to: Position)
    requires
        links_symmetric(before),
        forall|p: Position| #[trigger]
            after.links_of(p) == unlink_step(before.links_of(p), p, from, to, true),
    ensures
        links_symmetric(after),
        !after.links_of(from).contains(to),
        !after.links_of(to).contains(from),
{
    assert forall|a: Position, b: Position| #[trigger]
        after.links_of(a).contains(b) <==> #[trigger] after.links_of(b).contains(a) by {
        assert(after.links_of(a) == unlink_step(before.links_of(a), a, from, to, true));
        assert(after.links_of(b) == unlink_step(before.links_of(b), b, from, to, true));
        assert(before.links_of(a).contains(b) <==> before.links_of(b).contains(a));
    }
    assert(after.links_of(from) == unlink_step(before.links_of(from), from, from, to, true));
    assert(after.links_of(to) == unlink_step(before.links_of(to), to, from, to, true));
}

/// A regenerated grid cannot be told from a new grid of the same dimensions: the
/// same (empty) link sets, the same neighbours, the same wall bitmasks and the
/// same text.
pub proof fn lemma_regenerate_matches_new(fresh: &Grid, regenerated: &Grid, p: Position)
    requires
        fresh.wf(),
        regenerated.wf(),
        fresh.all_unlinked(),
        regenerated.all_unlinked(),
        fresh.nrows() == regenerated.nrows(),
        fresh.ncols() == regenerated.ncols(),
    ensures
        regenerated.links_of(p) == fresh.links_of(p),
        regenerated.links_of(p) == Set::<Position>::empty(),
        north_spec(regenerated.nrows(), regenerated.ncols(), p) == north_spec(
            fresh.nrows(),
            fresh.ncols(),
            p,
        ),
        south_spec(regenerated.nrows(), regenerated.ncols(), p) == south_spec(
            fresh.nrows(),
            fresh.ncols(),
            p,
        ),
        east_spec(regenerated.nrows(), regenerated.ncols(), p) == east_spec(
            fresh.nrows(),
            fresh.ncols(),
            p,
        ),
        west_spec(regenerated.nrows(), regenerated.ncols(), p) == west_spec(
            fresh.nrows(),
            fresh.ncols(),
            p,
        ),
        wall_mask(regenerated.nrows(), regenerated.ncols(), regenerated.links_of(p), p)
            == wall_mask(fresh.nrows(), fresh.ncols(), fresh.links_of(p), p),
        render(regenerated.nrows(), regenerated.ncols(), |q: Position| regenerated.links_of(q))
            == render(fresh.nrows(), fresh.ncols(), |q: Position| fresh.links_of(q)),
{
    assert(regenerated.links_of(p) == Set::<Position>::empty());
    assert(fresh.links_of(p) == Set::<Position>::empty());
    let lr = |q: Position| regenerated.links_of(q);
    let lf = |q: Position| fresh.links_of(q);
    assert forall|q: Position| #[trigger] lr(q) == lf(q) by {
        assert(regenerated.links_of(q) == Set::<Position>::empty());
        assert(fresh.links_of(q) == Set::<Position>::empty());
    }
    assert(lr == lf);
}

} // verus!
