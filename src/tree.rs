//! Spanning trees over the cells of a grid, given by parent pointers.
use crate::grid::{in_bounds, Position};
use vstd::prelude::*;
use vstd::relations::injective_on;
use vstd::set_lib::{lemma_int_range, lemma_map_size, lemma_set_disjoint_lens, set_int_range};

verus! {

/// The link sets `links` of a `rows` x `columns` grid form a spanning tree rooted
/// at `root`: every other cell is linked both ways to `parent(p)`, a cell of
/// smaller `rank`, and every link joins a cell to its parent. The link graph is
/// then connected (each cell follows its parents to the root), has no cycle (ranks
/// fall along every parent step) and has one edge for each cell but the root.
pub open spec fn is_parent_tree(
    rows: int,
    columns: int,
    links: spec_fn(Position) -> Set<Position>,
    root: Position,
    parent: spec_fn(Position) -> Position,
    rank: spec_fn(Position) -> nat,
) -> bool {
    &&& in_bounds(rows, columns, root)
    &&& forall|p: Position|
        in_bounds(rows, columns, p) && p != root ==> {
            &&& in_bounds(rows, columns, #[trigger] parent(p))
            &&& rank(parent(p)) < rank(p)
            &&& links(p).contains(parent(p))
            &&& links(parent(p)).contains(p)
        }
    &&& forall|a: Position, b: Position| #[trigger]
        links(a).contains(b) ==> {
            &&& in_bounds(rows, columns, a)
            &&& in_bounds(rows, columns, b)
            &&& (a != root && parent(a) == b) || (b != root && parent(b) == a)
        }
}

/// `path` is a walk along links.
pub open spec fn is_link_path(links: spec_fn(Position) -> Set<Position>, path: Seq<Position>) -> bool {
    &&& path.len() >= 1
    &&& forall|i: int| 0 <= i < path.len() - 1 ==> #[trigger] links(path[i]).contains(path[i + 1])
}

/// Some walk along links leads from `p` to `q`.
pub open spec fn reaches(links: spec_fn(Position) -> Set<Position>, p: Position, q: Position) -> bool {
    exists|path: Seq<Position>| is_link_path(links, path) && path[0] == p && path.last() == q
}

/// The links of a `rows` x `columns` grid form a spanning tree: exactly
/// `rows * columns - 1` edges, every cell joined to `root` by a walk along
/// links, and no cycle.
pub open spec fn is_spanning_tree(
    rows: int,
    columns: int,
    links: spec_fn(Position) -> Set<Position>,
    root: Position,
) -> bool {
    &&& link_edges(links).finite()
    &&& link_edges(links).len() == rows * columns - 1
    &&& forall|p: Position| in_bounds(rows, columns, p) ==> #[trigger] reaches(links, p, root)
    &&& forall|path: Seq<Position>| !#[trigger] is_link_cycle(links, path)
}

/// In a parent tree every cell reaches the root along links.
pub proof fn lemma_parent_tree_connected(
    rows: int,
    columns: int,
    links: spec_fn(Position) -> Set<Position>,
    root: Position,
    parent: spec_fn(Position) -> Position,
    rank: spec_fn(Position) -> nat,
    p: Position,
)
    requires
        is_parent_tree(rows, columns, links, root, parent, rank),
        in_bounds(rows, columns, p),
    ensures
        exists|path: Seq<Position>|
            is_link_path(links, path) && path[0] == p && path.last() == root,
    decreases rank(p),
{
    if p == root {
        let path = seq![root];
        assert(is_link_path(links, path) && path[0] == p && path.last() == root);
    } else {
        let q = parent(p);
        lemma_parent_tree_connected(rows, columns, links, root, parent, rank, q);
        let rest = choose|path: Seq<Position>|
            is_link_path(links, path) && path[0] == q && path.last() == root;
        let path = seq![p] + rest;
        assert forall|i: int| 0 <= i < path.len() - 1 implies #[trigger] links(path[i]).contains(
            path[i + 1],
        ) by {
            if i > 0 {
                assert(path[i] == rest[i - 1]);
                assert(path[i + 1] == rest[i]);
                assert(links(rest[i - 1]).contains(rest[(i - 1) + 1]));
            } else {
                assert(path[0] == p);
                assert(path[1] == rest[0]);
                assert(in_bounds(rows, columns, p) && p != root);
                assert(links(p).contains(parent(p)));
            }
        }
        assert(path.last() == rest.last());
        assert(is_link_path(links, path) && path[0] == p && path.last() == root);
    }
}

/// In a parent tree two different cells other than the root never give the same
/// edge `{p, parent(p)}`: the tree has exactly one edge per cell but the root.
pub proof fn lemma_parent_edges_distinct(
    rows: int,
    columns: int,
    links: spec_fn(Position) -> Set<Position>,
    root: Position,
    parent: spec_fn(Position) -> Position,
    rank: spec_fn(Position) -> nat,
    p: Position,
    q: Position,
)
    requires
        is_parent_tree(rows, columns, links, root, parent, rank),
        in_bounds(rows, columns, p),
        in_bounds(rows, columns, q),
        p != root,
        q != root,
        p != q,
    ensures
        !(p == parent(q) && q == parent(p)),
{
    if p == parent(q) && q == parent(p) {
        assert(rank(parent(q)) < rank(q));
        assert(rank(parent(p)) < rank(p));
    }
}

/// `path` is a cycle: a closed walk along links of at least three steps that
/// never turns straight back, not even where it closes.
pub open spec fn is_link_cycle(links: spec_fn(Position) -> Set<Position>, path: Seq<Position>) -> bool {
    &&& is_link_path(links, path)
    &&& path.len() >= 4
    &&& path[0] == path.last()
    &&& forall|i: int| 0 <= i < path.len() - 2 ==> #[trigger] path[i] != path[i + 2]
    &&& path[1] != path[path.len() - 2]
}

/// `path[i]` has the largest rank among the first `n` positions of `path`.
spec fn is_max_rank_at(path: Seq<Position>, rank: spec_fn(Position) -> nat, n: int, i: int) -> bool {
    0 <= i < n && forall|j: int| 0 <= j < n ==> #[trigger] rank(path[j]) <= rank(path[i])
}

/// Among the first `n` positions of `path`, one has the largest rank.
proof fn lemma_max_rank_index(path: Seq<Position>, rank: spec_fn(Position) -> nat, n: int)
    requires
        1 <= n <= path.len(),
    ensures
        exists|i: int| #[trigger] is_max_rank_at(path, rank, n, i),
    decreases n,
{
    if n == 1 {
        assert(is_max_rank_at(path, rank, n, 0));
    } else {
        lemma_max_rank_index(path, rank, n - 1);
        let i = choose|i: int| #[trigger] is_max_rank_at(path, rank, n - 1, i);
        if rank(path[n - 1]) <= rank(path[i]) {
            assert(is_max_rank_at(path, rank, n, i));
        } else {
            assert(is_max_rank_at(path, rank, n, n - 1));
        }
    }
}

/// A parent tree has no cycle: on a cycle, the cell of largest rank would have
/// its parent on both sides, so the cycle would turn straight back there.
pub proof fn lemma_parent_tree_acyclic(
    rows: int,
    columns: int,
    links: spec_fn(Position) -> Set<Position>,
    root: Position,
    parent: spec_fn(Position) -> Position,
    rank: spec_fn(Position) -> nat,
    path: Seq<Position>,
)
    requires
        is_parent_tree(rows, columns, links, root, parent, rank),
    ensures
        !is_link_cycle(links, path),
{
    if is_link_cycle(links, path) {
        let n = path.len() - 1;
        lemma_max_rank_index(path, rank, n);
        let i = choose|i: int| #[trigger] is_max_rank_at(path, rank, n, i);
        let v = path[i];
        let next = path[i + 1];
        let prev = if i == 0 {
            path[n - 1]
        } else {
            path[i - 1]
        };
        assert(links(v).contains(next));
        if i + 1 < n {
            assert(rank(path[i + 1]) <= rank(v));
        } else {
            assert(rank(path[0]) <= rank(v));
        }
        assert(links(prev).contains(v)) by {
            if i == 0 {
                assert(links(path[n - 1]).contains(path[(n - 1) + 1]));
            } else {
                assert(links(path[i - 1]).contains(path[(i - 1) + 1]));
            }
        }
        if i == 0 {
            assert(rank(path[n - 1]) <= rank(v));
        } else {
            assert(rank(path[i - 1]) <= rank(v));
        }
        assert(parent(v) == next);
        assert(parent(v) == prev);
        if i == 0 {
            assert(path[1] == path[path.len() - 2]);
        } else {
            assert(path[i - 1] == path[(i - 1) + 2]);
        }
    }
}

/// The positions of a `rows` x `columns` grid.
pub open spec fn grid_cells(rows: int, columns: int) -> Set<Position> {
    Set::new(|p: Position| in_bounds(rows, columns, p))
}

/// `a` comes strictly before `b` in row-major order.
pub open spec fn precedes(a: Position, b: Position) -> bool {
    a.1 < b.1 || (a.1 == b.1 && a.0 < b.0)
}

/// The edges of the link graph, each counted once: the linked pairs `(a, b)`
/// with `a` before `b` in row-major order.
pub open spec fn link_edges(links: spec_fn(Position) -> Set<Position>) -> Set<(Position, Position)> {
    Set::new(|e: (Position, Position)| links(e.0).contains(e.1) && precedes(e.0, e.1))
}

/// The cells of row `y`.
spec fn row_cells(y: int, columns: int) -> Set<Position> {
    Set::new(|p: Position| p.1 == y && 0 <= p.0 < columns)
}

/// Row `y` of a grid `columns` wide has `columns` cells.
proof fn lemma_row_cells_len(y: int, columns: int)
    requires
        0 <= y <= isize::MAX,
        0 <= columns <= isize::MAX,
    ensures
        row_cells(y, columns).finite(),
        row_cells(y, columns).len() == columns,
{
    let f = |x: int| (x as isize, y as isize);
    let xs = set_int_range(0, columns);
    lemma_int_range(0, columns);
    assert(injective_on(f, xs));
    assert forall|p: Position| #[trigger] row_cells(y, columns).contains(p) implies xs.map(
        f,
    ).contains(p) by {
        let x = p.0 as int;
        assert(xs.contains(x));
        assert(f(x) == p);
    }
    assert(xs.map(f) =~= row_cells(y, columns));
    lemma_map_size(xs, row_cells(y, columns), f);
}

/// A `rows` x `columns` grid has `rows * columns` cells.
pub proof fn lemma_grid_cells_len(rows: int, columns: int)
    requires
        0 <= rows <= isize::MAX,
        0 <= columns <= isize::MAX,
    ensures
        grid_cells(rows, columns).finite(),
        grid_cells(rows, columns).len() == rows * columns,
    decreases rows,
{
    if rows == 0 {
        assert(grid_cells(rows, columns) =~= Set::empty());
    } else {
        lemma_grid_cells_len(rows - 1, columns);
        lemma_row_cells_len(rows - 1, columns);
        let upper = grid_cells(rows - 1, columns);
        let last = row_cells(rows - 1, columns);
        assert(upper.disjoint(last));
        lemma_set_disjoint_lens(upper, last);
        assert(upper + last =~= grid_cells(rows, columns));
        assert((rows - 1) * columns + columns == rows * columns) by (nonlinear_arith);
    }
}

/// A parent tree over a `rows` x `columns` grid has `rows * columns - 1` edges:
/// each cell but the root gives the edge to its parent, no two the same edge,
/// and there is no other.
pub proof fn lemma_parent_tree_edge_count(
    rows: int,
    columns: int,
    links: spec_fn(Position) -> Set<Position>,
    root: Position,
    parent: spec_fn(Position) -> Position,
    rank: spec_fn(Position) -> nat,
)
    requires
        is_parent_tree(rows, columns, links, root, parent, rank),
        rows <= isize::MAX,
        columns <= isize::MAX,
    ensures
        link_edges(links).finite(),
        link_edges(links).len() == rows * columns - 1,
{
    lemma_grid_cells_len(rows, columns);
    let cells = grid_cells(rows, columns);
    let others = cells.remove(root);
    let f = |p: Position|
        if precedes(p, parent(p)) {
            (p, parent(p))
        } else {
            (parent(p), p)
        };
    assert forall|p: Position, q: Position|
        others.contains(p) && others.contains(q) && #[trigger] f(p) == #[trigger] f(q) implies p
        == q by {
        if p != q {
            lemma_parent_edges_distinct(rows, columns, links, root, parent, rank, p, q);
            assert(rank(parent(p)) < rank(p));
            assert(rank(parent(q)) < rank(q));
        }
    }
    assert(injective_on(f, others));
    assert forall|e: (Position, Position)| #[trigger] link_edges(links).contains(e) implies others.map(
        f,
    ).contains(e) by {
        assert(links(e.0).contains(e.1));
        if e.0 != root && parent(e.0) == e.1 {
            assert(others.contains(e.0));
            assert(f(e.0) == e);
        } else {
            assert(others.contains(e.1));
            assert(f(e.1) == e);
        }
    }
    assert forall|e: (Position, Position)| #[trigger] others.map(f).contains(e) implies link_edges(
        links,
    ).contains(e) by {
        let p = choose|p: Position| others.contains(p) && f(p) == e;
        assert(rank(parent(p)) < rank(p));
        assert(links(p).contains(parent(p)));
        assert(links(parent(p)).contains(p));
    }
    assert(others.map(f) =~= link_edges(links));
    lemma_map_size(others, link_edges(links), f);
}

/// A parent tree is a spanning tree.
pub proof fn lemma_parent_tree_spanning(
    rows: int,
    columns: int,
    links: spec_fn(Position) -> Set<Position>,
    root: Position,
    parent: spec_fn(Position) -> Position,
    rank: spec_fn(Position) -> nat,
)
    requires
        is_parent_tree(rows, columns, links, root, parent, rank),
        rows <= isize::MAX,
        columns <= isize::MAX,
    ensures
        is_spanning_tree(rows, columns, links, root),
{
    lemma_parent_tree_edge_count(rows, columns, links, root, parent, rank);
    assert forall|p: Position| in_bounds(rows, columns, p) implies #[trigger] reaches(
        links,
        p,
        root,
    ) by {
        lemma_parent_tree_connected(rows, columns, links, root, parent, rank, p);
    }
    assert forall|path: Seq<Position>| !#[trigger] is_link_cycle(links, path) by {
        lemma_parent_tree_acyclic(rows, columns, links, root, parent, rank, path);
    }
}

} // verus!
