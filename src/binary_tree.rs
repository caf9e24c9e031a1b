//! Binary-tree carving: every cell opens a passage to its north or its east
//! neighbour.
use crate::grid::{east_spec, in_bounds, north_spec, Grid, Position};
use crate::random::choose_position;
use crate::tree::{is_parent_tree, is_spanning_tree, lemma_parent_tree_spanning};
use rand::rngs::StdRng;
use vstd::prelude::*;

verus! {

/// `p` has a north or an east neighbour to carve towards.
pub open spec fn has_candidate(rows: int, columns: int, p: Position) -> bool {
    north_spec(rows, columns, p) is Some || east_spec(rows, columns, p) is Some
}

/// `q` is the north or the east neighbour of `p`.
pub open spec fn is_candidate(rows: int, columns: int, p: Position, q: Position) -> bool {
    north_spec(rows, columns, p) == Some(q) || east_spec(rows, columns, p) == Some(q)
}

/// `choice` picks a candidate for every cell that has one.
pub open spec fn valid_choice(rows: int, columns: int, choice: spec_fn(Position) -> Position) -> bool {
    forall|p: Position|
        in_bounds(rows, columns, p) && has_candidate(rows, columns, p) ==> is_candidate(
            rows,
            columns,
            p,
            #[trigger] choice(p),
        )
}

/// `p` comes before `(x, y)` in row-major order.
pub open spec fn before(p: Position, x: int, y: int) -> bool {
    p.1 < y || (p.1 == y && p.0 < x)
}

/// Cell `p` carves towards `choice(p)` and is among the cells `done` marks.
pub open spec fn carves(
    rows: int,
    columns: int,
    choice: spec_fn(Position) -> Position,
    done: spec_fn(Position) -> bool,
    p: Position,
) -> bool {
    in_bounds(rows, columns, p) && has_candidate(rows, columns, p) && done(p)
}

/// The link set of `p` once the cells that `done` marks have carved by `choice`
/// on top of the link set `base`: `p`'s own passage and those of the cells that
/// chose `p`.
pub open spec fn carved_links(
    rows: int,
    columns: int,
    base: Set<Position>,
    choice: spec_fn(Position) -> Position,
    done: spec_fn(Position) -> bool,
    p: Position,
) -> Set<Position> {
    base.union(
        Set::new(
            |q: Position|
                (q == choice(p) && carves(rows, columns, choice, done, p)) || (carves(
                    rows,
                    columns,
                    choice,
                    done,
                    q,
                ) && choice(q) == p),
        ),
    )
}

/// Every cell, in row-major order, links itself both ways to its north or its
/// east neighbour, drawn with `rng` among those it has; a cell with neither is
/// left alone.
pub fn binary_tree(grid: &mut Grid, rng: &mut StdRng)
    requires
        old(grid).wf(),
    ensures
        final(grid).wf(),
        final(grid).nrows() == old(grid).nrows(),
        final(grid).ncols() == old(grid).ncols(),
        exists|choice: spec_fn(Position) -> Position|
            {
                &&& valid_choice(old(grid).nrows(), old(grid).ncols(), choice)
                &&& forall|p: Position| #[trigger]
                    final(grid).links_of(p) == carved_links(
                        old(grid).nrows(),
                        old(grid).ncols(),
                        old(grid).links_of(p),
                        choice,
                        |q: Position| true,
                        p,
                    )
            },
{
    let ghost rows = grid.nrows();
    let ghost columns = grid.ncols();
    let ghost base = |p: Position| old(grid).links_of(p);
    let ghost mut choice = |p: Position|
        match north_spec(rows, columns, p) {
            Some(q) => q,
            None => match east_spec(rows, columns, p) {
                Some(q) => q,
                None => p,
            },
        };
    let mut neighbors: Vec<Position> = Vec::new();
    let mut it = grid.iter();
    loop
        invariant
            grid.wf(),
            grid.nrows() == rows,
            grid.ncols() == columns,
            it.wf(),
            it.spec_rows() == rows,
            it.spec_columns() == columns,
            valid_choice(rows, columns, choice),
            forall|p: Position| #[trigger]
                grid.links_of(p) == carved_links(
                    rows,
                    columns,
                    base(p),
                    choice,
                    |q: Position| before(q, it.spec_x(), it.spec_y()),
                    p,
                ),
        ensures
            it.spec_y() >= rows || columns == 0,
            forall|p: Position| #[trigger]
                grid.links_of(p) == carved_links(
                    rows,
                    columns,
                    base(p),
                    choice,
                    |q: Position| before(q, it.spec_x(), it.spec_y()),
                    p,
                ),
            valid_choice(rows, columns, choice),
        decreases it.spec_rows() - it.spec_y(), it.spec_columns() - it.spec_x(),
    {
        let ghost x0 = it.spec_x();
        let ghost y0 = it.spec_y();
        let pos = match it.next() {
            Some(pos) => pos,
            None => break,
        };
        let ghost done0 = |q: Position| before(q, x0, y0);
        let ghost done1 = |q: Position| before(q, it.spec_x(), it.spec_y());
        proof {
            assert forall|q: Position| in_bounds(rows, columns, q) implies #[trigger] done1(q) == (
            done0(q) || q == pos) by {}
        }
        neighbors.clear();
        if let Some(north) = grid.north_of_cell(pos) {
            neighbors.push(north);
        }
        if let Some(east) = grid.east_of_cell(pos) {
            neighbors.push(east);
        }
        let neighbor = choose_position(&neighbors, rng);
        if let Some(neighbor) = neighbor {
            let ghost prev = |p: Position| grid.links_of(p);
            let ghost old_choice = choice;
            proof {
                assert(neighbors@.contains(neighbor));
                assert(is_candidate(rows, columns, pos, neighbor));
                assert(in_bounds(rows, columns, pos));
                assert(in_bounds(rows, columns, neighbor));
                assert(pos == (x0 as isize, y0 as isize));
                choice = |q: Position|
                    if q == pos {
                        neighbor
                    } else {
                        old_choice(q)
                    };
                assert(forall|q: Position| q != pos ==> #[trigger] choice(q) == old_choice(q));
                assert(!done0(pos));
            }
            grid.link_cell(pos, neighbor, true);
            proof {
                assert forall|p: Position| #[trigger]
                    grid.links_of(p) == carved_links(rows, columns, base(p), choice, done1, p) by {
                    assert(prev(p) == carved_links(rows, columns, base(p), old_choice, done0, p));
                    assert(grid.links_of(p) =~= carved_links(
                        rows,
                        columns,
                        base(p),
                        choice,
                        done1,
                        p,
                    ));
                }
            }
        } else {
            proof {
                assert(!has_candidate(rows, columns, pos));
                assert forall|p: Position| #[trigger]
                    grid.links_of(p) == carved_links(rows, columns, base(p), choice, done1, p) by {
                    assert(grid.links_of(p) == carved_links(
                        rows,
                        columns,
                        base(p),
                        choice,
                        done0,
                        p,
                    ));
                    assert(carved_links(rows, columns, base(p), choice, done0, p) =~= carved_links(
                        rows,
                        columns,
                        base(p),
                        choice,
                        done1,
                        p,
                    ));
                }
            }
        }
    }
    proof {
        let done = |q: Position| before(q, it.spec_x(), it.spec_y());
        assert forall|p: Position| #[trigger]
            grid.links_of(p) == carved_links(rows, columns, base(p), choice, |q: Position| true, p) by {
            assert(carved_links(rows, columns, base(p), choice, done, p) =~= carved_links(
                rows,
                columns,
                base(p),
                choice,
                |q: Position| true,
                p,
            ));
        }
    }
}

/// Binary-tree carving of an unlinked grid with at least one cell leaves a
/// spanning tree: `rows * columns - 1` edges, every cell joined to the top-right
/// cell, and no cycle. Each other cell hangs from the neighbour it carved
/// towards, one step nearer that corner.
pub proof fn lemma_binary_tree_spanning(before: &Grid, after: &Grid)
    requires
        before.wf(),
        before.all_unlinked(),
        before.nrows() >= 1,
        before.ncols() >= 1,
        exists|choice: spec_fn(Position) -> Position|
            {
                &&& valid_choice(before.nrows(), before.ncols(), choice)
                &&& forall|p: Position| #[trigger]
                    after.links_of(p) == carved_links(
                        before.nrows(),
                        before.ncols(),
                        before.links_of(p),
                        choice,
                        |q: Position| true,
                        p,
                    )
            },
    ensures
        is_spanning_tree(before.nrows(), before.ncols(), after.link_map(), ((before.ncols() - 1) as isize, 0isize)),
{
    before.lemma_dimensions_fit();
    let rows = before.nrows();
    let columns = before.ncols();
    let choice = choose|choice: spec_fn(Position) -> Position|
        {
            &&& valid_choice(rows, columns, choice)
            &&& forall|p: Position| #[trigger]
                after.links_of(p) == carved_links(
                    rows,
                    columns,
                    before.links_of(p),
                    choice,
                    |q: Position| true,
                    p,
                )
        };
    let root = ((columns - 1) as isize, 0isize);
    let links = after.link_map();
    let rank = |p: Position| (p.1 + (columns - 1 - p.0)) as nat;
    let all = |q: Position| true;
    assert forall|p: Position| #[trigger]
        after.links_of(p) == carved_links(rows, columns, Set::empty(), choice, all, p) by {
        assert(before.links_of(p) == Set::<Position>::empty());
        assert(after.links_of(p) =~= carved_links(rows, columns, Set::empty(), choice, all, p));
    }
    assert forall|p: Position|
        in_bounds(rows, columns, p) && p != root implies {
        &&& in_bounds(rows, columns, #[trigger] choice(p))
        &&& rank(choice(p)) < rank(p)
        &&& links(p).contains(choice(p))
        &&& links(choice(p)).contains(p)
    } by {
        assert(has_candidate(rows, columns, p));
        assert(is_candidate(rows, columns, p, choice(p)));
        assert(after.links_of(p) == carved_links(rows, columns, Set::empty(), choice, all, p));
        assert(after.links_of(choice(p)) == carved_links(
            rows,
            columns,
            Set::empty(),
            choice,
            all,
            choice(p),
        ));
    }
    assert forall|a: Position, b: Position| #[trigger]
        links(a).contains(b) implies {
        &&& in_bounds(rows, columns, a)
        &&& in_bounds(rows, columns, b)
        &&& (a != root && choice(a) == b) || (b != root && choice(b) == a)
    } by {
        assert(after.links_of(a) == carved_links(rows, columns, Set::empty(), choice, all, a));
        if carves(rows, columns, choice, all, a) && b == choice(a) {
            assert(is_candidate(rows, columns, a, b));
        } else {
            assert(carves(rows, columns, choice, all, b) && choice(b) == a);
            assert(is_candidate(rows, columns, b, a));
        }
    }
    assert(is_parent_tree(rows, columns, links, root, choice, rank));
    lemma_parent_tree_spanning(rows, columns, links, root, choice, rank);
}

} // verus!
