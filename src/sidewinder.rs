//! Sidewinder carving: each row is cut into runs of cells linked east to west,
//! and every run below the top row opens one passage north.
use crate::grid::{east_spec, in_bounds, north_spec, Grid, Position};
use crate::random::{choose_position, flip_coin};
use crate::tree::{is_parent_tree, is_spanning_tree, lemma_parent_tree_spanning};
use rand::rngs::StdRng;
use vstd::prelude::*;

verus! {

/// `q` lies in the run that closes at `c`: same row, at or left of `c`, and
/// every cell from `q` up to `c` (excluded) opened its east side.
pub open spec fn in_run(east_open: spec_fn(Position) -> bool, q: Position, c: Position) -> bool {
    &&& q.1 == c.1
    &&& 0 <= q.0 <= c.0
    &&& forall|r: Position| r.1 == c.1 && q.0 <= r.0 < c.0 ==> #[trigger] east_open(r)
}

/// The run closing at `c` has exactly one member marked by `up`.
pub open spec fn one_up_in_run(
    east_open: spec_fn(Position) -> bool,
    up: spec_fn(Position) -> bool,
    c: Position,
) -> bool {
    &&& exists|m: Position| #[trigger] in_run(east_open, m, c) && up(m)
    &&& forall|m1: Position, m2: Position|
        #![trigger in_run(east_open, m1, c), in_run(east_open, m2, c)]
        in_run(east_open, m1, c) && in_run(east_open, m2, c) && up(m1) && up(m2) ==> m1 == m2
}

/// The shape of a sidewinder carving: `east_open` marks the cells linked to
/// their east neighbour and `up` those linked to their north neighbour. The top
/// row is one run; every run of a lower row has exactly one member linked north.
pub open spec fn sidewinder_shape(
    rows: int,
    columns: int,
    east_open: spec_fn(Position) -> bool,
    up: spec_fn(Position) -> bool,
) -> bool {
    &&& forall|p: Position| #[trigger]
        east_open(p) ==> in_bounds(rows, columns, p) && east_spec(rows, columns, p) is Some
    &&& forall|p: Position| #[trigger]
        up(p) ==> in_bounds(rows, columns, p) && north_spec(rows, columns, p) is Some
    &&& forall|p: Position|
        in_bounds(rows, columns, p) && p.1 == 0 ==> (#[trigger] east_open(p) <==> east_spec(
            rows,
            columns,
            p,
        ) is Some)
    &&& forall|c: Position|
        in_bounds(rows, columns, c) && c.1 > 0 && !#[trigger] east_open(c) ==> one_up_in_run(
            east_open,
            up,
            c,
        )
}

/// The link set of `p` after a carving marked by `east_open` and `up` on top of
/// the link set `base`.
pub open spec fn sidewinder_links(
    rows: int,
    columns: int,
    base: Set<Position>,
    east_open: spec_fn(Position) -> bool,
    up: spec_fn(Position) -> bool,
    p: Position,
) -> Set<Position> {
    base.union(
        Set::new(
            |q: Position|
                (east_open(p) && east_spec(rows, columns, p) == Some(q)) || (east_open(q)
                    && east_spec(rows, columns, q) == Some(p)) || (up(p) && north_spec(
                    rows,
                    columns,
                    p,
                ) == Some(q)) || (up(q) && north_spec(rows, columns, q) == Some(p)),
        ),
    )
}

/// Carves the grid row by row. Each cell joins the current run; the run closes at
/// the east edge, or, below the top row, on a coin flip drawn with `rng`. A
/// closing run links one member drawn with `rng` to its north neighbour, if it has
/// one; otherwise the cell links to its east neighbour.
pub fn sidewinder(grid: &mut Grid, rng: &mut StdRng)
    requires
        old(grid).wf(),
    ensures
        final(grid).wf(),
        final(grid).nrows() == old(grid).nrows(),
        final(grid).ncols() == old(grid).ncols(),
        exists|east_open: spec_fn(Position) -> bool, up: spec_fn(Position) -> bool|
            {
                &&& sidewinder_shape(old(grid).nrows(), old(grid).ncols(), east_open, up)
                &&& forall|p: Position| #[trigger]
                    final(grid).links_of(p) == sidewinder_links(
                        old(grid).nrows(),
                        old(grid).ncols(),
                        old(grid).links_of(p),
                        east_open,
                        up,
                        p,
                    )
            },
{
    let ghost rows = grid.nrows();
    let ghost columns = grid.ncols();
    let ghost base = |p: Position| old(grid).links_of(p);
    let ghost mut east_open = |p: Position| false;
    let ghost mut up = |p: Position| false;
    proof {
        grid.lemma_dimensions_fit();
    }
    let all_rows = grid.iter_rows();
    let mut run: Vec<Position> = Vec::new();
    let mut j: usize = 0;
    proof {
        assert forall|p: Position| #[trigger]
            grid.links_of(p) == sidewinder_links(rows, columns, base(p), east_open, up, p) by {
            assert(grid.links_of(p) =~= sidewinder_links(rows, columns, base(p), east_open, up, p));
        }
    }
    while j < all_rows.len()
        invariant
            grid.wf(),
            grid.nrows() == rows,
            grid.ncols() == columns,
            all_rows@.len() == rows,
            forall|y: int| 0 <= y < rows ==> #[trigger] all_rows@[y]@.len() == columns,
            forall|x: int, y: int|
                0 <= x < columns && 0 <= y < rows ==> #[trigger] all_rows@[y]@[x] == (
                x as isize,
                y as isize,
            ),
            j <= rows,
            0 <= rows <= isize::MAX,
            0 <= columns <= isize::MAX,
            forall|p: Position| #[trigger]
                grid.links_of(p) == sidewinder_links(rows, columns, base(p), east_open, up, p),
            forall|p: Position| #[trigger]
                east_open(p) ==> in_bounds(rows, columns, p) && east_spec(rows, columns, p) is Some
                    && p.1 < j,
            forall|p: Position| #[trigger]
                up(p) ==> in_bounds(rows, columns, p) && north_spec(rows, columns, p) is Some && p.1
                    < j,
            j > 0 ==> forall|p: Position|
                in_bounds(rows, columns, p) && p.1 == 0 ==> (#[trigger] east_open(p) <==> east_spec(
                    rows,
                    columns,
                    p,
                ) is Some),
            forall|c: Position|
                in_bounds(rows, columns, c) && 0 < c.1 < j && !#[trigger] east_open(c)
                    ==> one_up_in_run(east_open, up, c),
        decreases rows - j,
    {
        let row = &all_rows[j];
        run.clear();
        let ghost mut start: int = 0;
        let mut i: usize = 0;
        proof {
            assert(row@ == all_rows@[j as int]@);
            assert(run@.len() == 0);
        }
        while i < row.len()
            invariant
                grid.wf(),
                grid.nrows() == rows,
                grid.ncols() == columns,
                j < rows,
                row@.len() == columns,
                forall|x: int| 0 <= x < columns ==> #[trigger] row@[x] == (x as isize, j as isize),
                0 <= start <= i <= columns,
                0 <= rows <= isize::MAX,
                0 <= columns <= isize::MAX,
                start < i ==> i < columns,
                run@.len() == i - start,
                forall|k: int|
                    0 <= k < run@.len() ==> (#[trigger] run@[k]).0 == start + k && run@[k].1 == j,
                forall|r: Position| r.1 == j && start <= r.0 < i ==> #[trigger] east_open(r),
                forall|r: Position| r.1 == j && start <= r.0 < i ==> !#[trigger] up(r),
                start > 0 ==> exists|r: Position|
                    r.1 == j && r.0 == start - 1 && !#[trigger] east_open(r),
                forall|p: Position| #[trigger]
                    grid.links_of(p) == sidewinder_links(rows, columns, base(p), east_open, up, p),
                forall|p: Position| #[trigger]
                    east_open(p) ==> in_bounds(rows, columns, p) && east_spec(rows, columns, p) is Some
                        && (p.1 < j || (p.1 == j && p.0 < i)),
                forall|p: Position| #[trigger]
                    up(p) ==> in_bounds(rows, columns, p) && north_spec(rows, columns, p) is Some
                        && (p.1 < j || (p.1 == j && p.0 < i)),
                j > 0 ==> forall|p: Position|
                    in_bounds(rows, columns, p) && p.1 == 0 ==> (#[trigger] east_open(p)
                        <==> east_spec(rows, columns, p) is Some),
                j == 0 ==> start == 0 || start == columns,
                j == 0 ==> forall|r: Position|
                    r.1 == 0 && 0 <= r.0 < i ==> (#[trigger] east_open(r) <==> r.0 < columns - 1),
                forall|c: Position|
                    in_bounds(rows, columns, c) && (0 < c.1 < j || (0 < c.1 == j && c.0 < start))
                        && !#[trigger] east_open(c) ==> one_up_in_run(east_open, up, c),
            decreases columns - i,
        {
            let pos = row[i];
            proof {
                assert(pos == row@[i as int]);
                assert(pos.0 == i && pos.1 == j);
                assert(!east_open(pos) && !up(pos));
            }
            run.push(pos);
            let at_eastern_boundary = grid.east_of_cell(pos).is_none();
            let at_northern_boundary = grid.north_of_cell(pos).is_none();
            let should_close_out = if at_eastern_boundary {
                true
            } else if !at_northern_boundary {
                flip_coin(rng)
            } else {
                false
            };
            if should_close_out {
                let ghost prev_up = up;
                if let Some(member) = choose_position(&run, rng) {
                    let ghost k = choose|k: int| 0 <= k < run@.len() && run@[k] == member;
                    proof {
                        assert(run@[k].0 == start + k);
                        assert(member.1 == j && start <= member.0 <= i);
                    }
                    let ghost prev = |p: Position| grid.links_of(p);
                    grid.link_cell_to_north(member);
                    if j > 0 {
                        proof {
                            up = |p: Position| p == member || prev_up(p);
                            assert forall|p: Position| #[trigger]
                                grid.links_of(p) == sidewinder_links(
                                    rows,
                                    columns,
                                    base(p),
                                    east_open,
                                    up,
                                    p,
                                ) by {
                                assert(prev(p) == sidewinder_links(
                                    rows,
                                    columns,
                                    base(p),
                                    east_open,
                                    prev_up,
                                    p,
                                ));
                                assert(grid.links_of(p) =~= sidewinder_links(
                                    rows,
                                    columns,
                                    base(p),
                                    east_open,
                                    up,
                                    p,
                                ));
                            }
                        }
                    } else {
                        proof {
                            assert forall|p: Position| #[trigger]
                                grid.links_of(p) == prev(p) by {}
                        }
                    }
                    proof {
                        let c = pos;
                        assert forall|q: Position| #[trigger]
                            in_run(east_open, q, c) implies start <= q.0 <= i by {
                            if q.0 < start {
                                let r = choose|r: Position|
                                    r.1 == j && r.0 == start - 1 && !#[trigger] east_open(r);
                                assert(!east_open(r));
                            }
                        }
                        if j > 0 {
                            assert(in_run(east_open, member, c));
                            assert forall|c2: Position|
                                in_bounds(rows, columns, c2) && (0 < c2.1 < j || (0 < c2.1 == j
                                    && c2.0 < start)) && !#[trigger] east_open(c2) implies one_up_in_run(
                                east_open,
                                up,
                                c2,
                            ) by {
                                assert(one_up_in_run(east_open, prev_up, c2));
                                let m = choose|m: Position|
                                    #[trigger] in_run(east_open, m, c2) && prev_up(m);
                                assert(in_run(east_open, m, c2) && up(m));
                                assert forall|m1: Position, m2: Position|
                                    #![trigger in_run(east_open, m1, c2), in_run(east_open, m2, c2)]
                                    in_run(east_open, m1, c2) && in_run(east_open, m2, c2) && up(m1)
                                        && up(m2) implies m1 == m2 by {
                                    assert(m1 != member);
                                    assert(m2 != member);
                                }
                            }
                        }
                    }
                }
                run.clear();
                proof {
                    assert(!east_open(pos));
                    start = i + 1;
                    assert(pos.1 == j && pos.0 == start - 1 && !east_open(pos));
                }
            } else {
                let ghost prev = |p: Position| grid.links_of(p);
                let ghost prev_open = east_open;
                grid.link_cell_to_east(pos);
                proof {
                    east_open = |p: Position| p == pos || prev_open(p);
                    assert forall|p: Position| #[trigger]
                        grid.links_of(p) == sidewinder_links(
                            rows,
                            columns,
                            base(p),
                            east_open,
                            up,
                            p,
                        ) by {
                        assert(prev(p) == sidewinder_links(
                            rows,
                            columns,
                            base(p),
                            prev_open,
                            up,
                            p,
                        ));
                        assert(grid.links_of(p) =~= sidewinder_links(
                            rows,
                            columns,
                            base(p),
                            east_open,
                            up,
                            p,
                        ));
                    }
                    assert forall|c2: Position|
                        in_bounds(rows, columns, c2) && (0 < c2.1 < j || (0 < c2.1 == j && c2.0
                            < start)) && !#[trigger] east_open(c2) implies one_up_in_run(
                        east_open,
                        up,
                        c2,
                    ) by {
                        assert(one_up_in_run(prev_open, up, c2));
                        assert forall|q: Position|
                            in_run(east_open, q, c2) == in_run(prev_open, q, c2) by {
                            if q.1 == c2.1 && 0 <= q.0 <= c2.0 {
                                if in_run(prev_open, q, c2) {
                                    assert forall|r: Position|
                                        r.1 == c2.1 && q.0 <= r.0 < c2.0 implies #[trigger] east_open(
                                        r,
                                    ) by {
                                        assert(prev_open(r));
                                    }
                                }
                                if in_run(east_open, q, c2) {
                                    assert forall|r: Position|
                                        r.1 == c2.1 && q.0 <= r.0 < c2.0 implies #[trigger] prev_open(
                                        r,
                                    ) by {
                                        assert(east_open(r));
                                        assert(r != pos);
                                    }
                                }
                            }
                        }
                        let m = choose|m: Position|
                            #[trigger] in_run(prev_open, m, c2) && up(m);
                        assert(in_run(east_open, m, c2));
                    }
                    if start > 0 {
                        let r = choose|r: Position|
                            r.1 == j && r.0 == start - 1 && !#[trigger] prev_open(r);
                        assert(!east_open(r));
                    }
                }
            }
            i += 1;
        }
        j += 1;
    }
    proof {
        assert(sidewinder_shape(rows, columns, east_open, up));
    }
}

/// After sidewinder carving, each cell of the top row is linked both ways to its
/// east neighbour: the top row is one unbroken passage.
pub proof fn lemma_top_row_linked(before: &Grid, after: &Grid, p: Position)
    requires
        before.wf(),
        exists|east_open: spec_fn(Position) -> bool, up: spec_fn(Position) -> bool|
            {
                &&& sidewinder_shape(before.nrows(), before.ncols(), east_open, up)
                &&& forall|q: Position| #[trigger]
                    after.links_of(q) == sidewinder_links(
                        before.nrows(),
                        before.ncols(),
                        before.links_of(q),
                        east_open,
                        up,
                        q,
                    )
            },
        in_bounds(before.nrows(), before.ncols(), p),
        p.1 == 0,
    ensures
        east_spec(before.nrows(), before.ncols(), p) matches Some(q) ==> after.links_of(p).contains(q)
            && after.links_of(q).contains(p),
{
    let (east_open, up) = choose|east_open: spec_fn(Position) -> bool, up: spec_fn(Position) -> bool|
        {
            &&& sidewinder_shape(before.nrows(), before.ncols(), east_open, up)
            &&& forall|q: Position| #[trigger]
                after.links_of(q) == sidewinder_links(
                    before.nrows(),
                    before.ncols(),
                    before.links_of(q),
                    east_open,
                    up,
                    q,
                )
        };
    if let Some(q) = east_spec(before.nrows(), before.ncols(), p) {
        assert(east_open(p));
        assert(after.links_of(p) == sidewinder_links(
            before.nrows(),
            before.ncols(),
            before.links_of(p),
            east_open,
            up,
            p,
        ));
        assert(after.links_of(q) == sidewinder_links(
            before.nrows(),
            before.ncols(),
            before.links_of(q),
            east_open,
            up,
            q,
        ));
    }
}

/// The cell at which the run holding `p` closes.
spec fn closing_cell(east_open: spec_fn(Position) -> bool, p: Position) -> Position {
    choose|c: Position| in_run(east_open, p, c) && !east_open(c)
}

/// The member of `p`'s run that was linked north.
spec fn run_member(
    east_open: spec_fn(Position) -> bool,
    up: spec_fn(Position) -> bool,
    p: Position,
) -> Position {
    choose|m: Position| in_run(east_open, m, closing_cell(east_open, p)) && up(m)
}

/// The neighbour one step nearer the top-left cell along the carved passages.
spec fn carved_parent(
    east_open: spec_fn(Position) -> bool,
    up: spec_fn(Position) -> bool,
    p: Position,
) -> Position {
    let m = run_member(east_open, up, p);
    if p.1 == 0 {
        ((p.0 - 1) as isize, p.1)
    } else if p == m {
        (p.0, (p.1 - 1) as isize)
    } else if p.0 > m.0 {
        ((p.0 - 1) as isize, p.1)
    } else {
        ((p.0 + 1) as isize, p.1)
    }
}

/// Row number weighted above the distance to the run's north-linked member.
spec fn carved_rank(
    columns: int,
    east_open: spec_fn(Position) -> bool,
    up: spec_fn(Position) -> bool,
    p: Position,
) -> nat {
    let m = run_member(east_open, up, p);
    if p.1 == 0 {
        p.0 as nat
    } else if p.0 >= m.0 {
        (p.1 * (columns + 1) + (p.0 - m.0)) as nat
    } else {
        (p.1 * (columns + 1) + (m.0 - p.0)) as nat
    }
}

/// Every run closes at some cell of the grid.
proof fn lemma_run_closes(
    rows: int,
    columns: int,
    east_open: spec_fn(Position) -> bool,
    up: spec_fn(Position) -> bool,
    p: Position,
)
    requires
        sidewinder_shape(rows, columns, east_open, up),
        in_bounds(rows, columns, p),
        columns <= isize::MAX,
    ensures
        exists|c: Position|
            #![trigger in_run(east_open, p, c)]
            in_run(east_open, p, c) && !east_open(c) && in_bounds(rows, columns, c),
    decreases columns - p.0,
{
    if !east_open(p) {
        assert(in_run(east_open, p, p));
    } else {
        let e = ((p.0 + 1) as isize, p.1);
        assert(east_spec(rows, columns, p) == Some(e));
        lemma_run_closes(rows, columns, east_open, up, e);
        let c = choose|c: Position|
            #![trigger in_run(east_open, e, c)]
            in_run(east_open, e, c) && !east_open(c) && in_bounds(rows, columns, c);
        assert forall|r: Position| r.1 == c.1 && p.0 <= r.0 < c.0 implies #[trigger] east_open(r) by {
            if r.0 == p.0 {
                assert(r == p);
            }
        }
        assert(in_run(east_open, p, c));
    }
}

/// A run closes at one cell only.
proof fn lemma_closing_unique(
    east_open: spec_fn(Position) -> bool,
    p: Position,
    c1: Position,
    c2: Position,
)
    requires
        in_run(east_open, p, c1),
        !east_open(c1),
        in_run(east_open, p, c2),
        !east_open(c2),
    ensures
        c1 == c2,
{
    if c1.0 < c2.0 {
        assert(east_open(c1));
    }
    if c2.0 < c1.0 {
        assert(east_open(c2));
    }
}

/// Facts on the run of an in-bounds cell `p` below the top row: where it closes,
/// and its north-linked member.
proof fn lemma_run_of(
    rows: int,
    columns: int,
    east_open: spec_fn(Position) -> bool,
    up: spec_fn(Position) -> bool,
    p: Position,
)
    requires
        sidewinder_shape(rows, columns, east_open, up),
        in_bounds(rows, columns, p),
        p.1 > 0,
        columns <= isize::MAX,
    ensures
        in_run(east_open, p, closing_cell(east_open, p)),
        !east_open(closing_cell(east_open, p)),
        in_bounds(rows, columns, closing_cell(east_open, p)),
        in_run(east_open, run_member(east_open, up, p), closing_cell(east_open, p)),
        up(run_member(east_open, up, p)),
        forall|q: Position|
            in_run(east_open, q, closing_cell(east_open, p)) ==> closing_cell(east_open, q)
                == closing_cell(east_open, p) && run_member(east_open, up, q) == run_member(
                east_open,
                up,
                p,
            ),
        forall|q: Position|
            in_run(east_open, q, closing_cell(east_open, p)) && up(q) ==> q == run_member(
                east_open,
                up,
                p,
            ),
{
    lemma_run_closes(rows, columns, east_open, up, p);
    let c0 = choose|c: Position|
        #![trigger in_run(east_open, p, c)]
        in_run(east_open, p, c) && !east_open(c) && in_bounds(rows, columns, c);
    let c = closing_cell(east_open, p);
    lemma_closing_unique(east_open, p, c, c0);
    assert(one_up_in_run(east_open, up, c));
    assert forall|q: Position| in_run(east_open, q, c) implies closing_cell(east_open, q) == c
        && run_member(east_open, up, q) == run_member(east_open, up, p) by {
        assert(in_run(east_open, q, c) && !east_open(c));
        lemma_closing_unique(east_open, q, closing_cell(east_open, q), c);
    }
}

/// Sidewinder carving of an unlinked grid with at least one cell leaves a
/// spanning tree: `rows * columns - 1` edges, every cell joined to the top-left
/// cell, and no cycle. Along the top row each cell hangs from its west
/// neighbour; below it, from the next cell towards its run's north-linked
/// member, which hangs from the cell above it.
pub proof fn lemma_sidewinder_spanning(before: &Grid, after: &Grid)
    requires
        before.wf(),
        before.all_unlinked(),
        before.nrows() >= 1,
        before.ncols() >= 1,
        exists|east_open: spec_fn(Position) -> bool, up: spec_fn(Position) -> bool|
            {
                &&& sidewinder_shape(before.nrows(), before.ncols(), east_open, up)
                &&& forall|q: Position| #[trigger]
                    after.links_of(q) == sidewinder_links(
                        before.nrows(),
                        before.ncols(),
                        before.links_of(q),
                        east_open,
                        up,
                        q,
                    )
            },
    ensures
        is_spanning_tree(before.nrows(), before.ncols(), after.link_map(), (0isize, 0isize)),
{
    before.lemma_dimensions_fit();
    let rows = before.nrows();
    let columns = before.ncols();
    let (east_open, up) = choose|east_open: spec_fn(Position) -> bool, up: spec_fn(Position) -> bool|
        {
            &&& sidewinder_shape(rows, columns, east_open, up)
            &&& forall|q: Position| #[trigger]
                after.links_of(q) == sidewinder_links(
                    rows,
                    columns,
                    before.links_of(q),
                    east_open,
                    up,
                    q,
                )
        };
    let root = (0isize, 0isize);
    let links = after.link_map();
    let parent = |p: Position| carved_parent(east_open, up, p);
    let rank = |p: Position| carved_rank(columns, east_open, up, p);
    assert forall|p: Position| #[trigger]
        links(p) == sidewinder_links(rows, columns, Set::empty(), east_open, up, p) by {
        assert(before.links_of(p) == Set::<Position>::empty());
        assert(after.links_of(p) =~= sidewinder_links(
            rows,
            columns,
            Set::empty(),
            east_open,
            up,
            p,
        ));
    }
    assert forall|p: Position|
        in_bounds(rows, columns, p) && p != root implies {
        &&& in_bounds(rows, columns, #[trigger] parent(p))
        &&& rank(parent(p)) < rank(p)
        &&& links(p).contains(parent(p))
        &&& links(parent(p)).contains(p)
    } by {
        let q = parent(p);
        assert(links(p) == sidewinder_links(rows, columns, Set::empty(), east_open, up, p));
        assert(links(q) == sidewinder_links(rows, columns, Set::empty(), east_open, up, q));
        if p.1 == 0 {
            assert(east_spec(rows, columns, q) == Some(p));
            assert(east_open(q));
        } else {
            lemma_run_of(rows, columns, east_open, up, p);
            let c = closing_cell(east_open, p);
            let m = run_member(east_open, up, p);
            if p == m {
                assert(north_spec(rows, columns, p) == Some(q));
                let y = p.1 as int;
                let k = columns + 1;
                if q.1 > 0 {
                    lemma_run_of(rows, columns, east_open, up, q);
                    let m2 = run_member(east_open, up, q);
                    assert(0 <= m2.0 < columns);
                    assert((y - 1) * k + columns < y * k) by (nonlinear_arith)
                        requires
                            y >= 1,
                            k == columns + 1,
                    ;
                } else {
                    assert(y * k >= k) by (nonlinear_arith)
                        requires
                            y >= 1,
                            k >= 1,
                    ;
                }
            } else if p.0 > m.0 {
                assert(in_run(east_open, q, c));
                assert(east_open(q));
                assert(east_spec(rows, columns, q) == Some(p));
            } else {
                assert(east_open(p));
                assert(east_spec(rows, columns, p) == Some(q));
                assert(in_run(east_open, q, c));
            }
        }
    }
    assert forall|a: Position, b: Position| #[trigger]
        links(a).contains(b) implies {
        &&& in_bounds(rows, columns, a)
        &&& in_bounds(rows, columns, b)
        &&& (a != root && parent(a) == b) || (b != root && parent(b) == a)
    } by {
        assert(links(a) == sidewinder_links(rows, columns, Set::empty(), east_open, up, a));
        if east_open(a) && east_spec(rows, columns, a) == Some(b) {
            if a.1 > 0 {
                lemma_run_of(rows, columns, east_open, up, b);
                let c = closing_cell(east_open, b);
                assert(in_run(east_open, a, c));
            }
        } else if east_open(b) && east_spec(rows, columns, b) == Some(a) {
            if b.1 > 0 {
                lemma_run_of(rows, columns, east_open, up, a);
                let c = closing_cell(east_open, a);
                assert(in_run(east_open, b, c));
            }
        } else if up(a) && north_spec(rows, columns, a) == Some(b) {
            lemma_run_of(rows, columns, east_open, up, a);
        } else {
            assert(up(b) && north_spec(rows, columns, b) == Some(a));
            lemma_run_of(rows, columns, east_open, up, b);
        }
    }
    assert(is_parent_tree(rows, columns, links, root, parent, rank));
    lemma_parent_tree_spanning(rows, columns, links, root, parent, rank);
}

} // verus!
