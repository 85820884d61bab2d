//! The grid world: which entity holds which cell, and a graph over the cells
//! whose edges are exactly the pairs of neighbouring free cells.

use vstd::prelude::*;
use array2d::Array2D;
use petgraph::graph::Graph;
use petgraph::Undirected;
use vstd::set_lib::*;
use crate::cell::{adjacent, Occupancy, Position};
use crate::graph::{
    edges_kept, graph_add_edge, graph_add_node, graph_distance, graph_drop_edges, graph_edges,
    graph_edges_at, graph_first_path, graph_new, graph_order, hop, is_walk, joined, simple_path,
    touches,
};
use crate::lookup::{table_insert, table_left_of, table_new, table_pairs, table_right_of, CellTable};
use crate::store::{store_empty, store_get, store_has_shape, store_put, store_rows};

verus! {

/// Width of the standard arena.
pub const ARENA_WIDTH: i32 = 20;

/// Height of the standard arena.
pub const ARENA_HEIGHT: i32 = 20;

/// Bound on the length of a planned route in the standard arena. It is kept
/// modest because the search looks at every simple path within the bound.
pub const MAX_PATH_LENGTH: usize = 8;

/// The largest number of cells an arena can have. With four edges at most
/// per cell, the graph of such an arena stays within what its 32-bit edge
/// indices can number.
pub const MAX_CELLS: usize = 0x2000_0000;

/// The mathematical content of an arena: its size, the bound on routes, and
/// the occupant of each occupied cell.
pub struct ArenaView {
    pub width: int,
    pub height: int,
    pub path_limit: nat,
    pub cells: Map<Position, Occupancy>,
}

impl ArenaView {
    /// The cell lies inside the arena.
    pub open spec fn in_range(self, p: Position) -> bool {
        0 <= p.x < self.width && 0 <= p.y < self.height
    }

    /// The occupant of the cell, if it has one.
    pub open spec fn occupant(self, p: Position) -> Option<Occupancy> {
        if self.cells.contains_key(p) {
            Some(self.cells[p])
        } else {
            None
        }
    }

    /// The cell lies inside the arena and nothing holds it.
    pub open spec fn is_free(self, p: Position) -> bool {
        self.in_range(p) && !self.cells.contains_key(p)
    }

    /// The sizes are within bounds and only cells inside the arena are
    /// occupied.
    pub open spec fn wf(self) -> bool {
        &&& 0 <= self.width <= i32::MAX
        &&& 0 <= self.height <= i32::MAX
        &&& self.width * self.height <= MAX_CELLS
        &&& forall|p: Position| self.cells.contains_key(p) ==> self.in_range(p)
    }

    /// The arena after `occ` took the cell `p`. Outside the arena nothing is
    /// recorded.
    pub open spec fn with(self, p: Position, occ: Occupancy) -> ArenaView {
        if self.in_range(p) {
            ArenaView { cells: self.cells.insert(p, occ), ..self }
        } else {
            self
        }
    }

    /// The arena after the cell `p` was freed.
    pub open spec fn without(self, p: Position) -> ArenaView {
        ArenaView { cells: self.cells.remove(p), ..self }
    }

    /// `path` is a route from `start` to `goal`: it has at least one cell
    /// and at most as many as the bound allows, it ends at `goal`, every
    /// step from `start` on leads to a neighbouring cell, no cell is visited
    /// twice, and `start` and every cell of the route are free.
    pub open spec fn is_route(self, start: Position, goal: Position, path: Seq<Position>) -> bool {
        &&& 1 <= path.len() <= self.path_limit
        &&& path[path.len() - 1] == goal
        &&& self.is_free(start)
        &&& forall|k: int| 0 <= k < path.len() ==> self.is_free(#[trigger] path[k])
        &&& (seq![start] + path).no_duplicates()
        &&& forall|k: int| 0 <= k < path.len() ==> #[trigger] step_ok(seq![start] + path, k)
    }

    /// `cells` is a walk from `from` to `to` over free cells: it starts and
    /// ends there, and every step leads from a free cell to a neighbouring
    /// free cell. A cell of the arena alone is a walk from itself to itself.
    pub open spec fn is_free_walk(self, from: Position, to: Position, cells: Seq<Position>) -> bool {
        &&& cells.len() >= 1
        &&& cells[0] == from
        &&& cells[cells.len() - 1] == to
        &&& self.in_range(from)
        &&& forall|k: int| 0 <= k < cells.len() - 1 ==> #[trigger] self.free_step(cells, k)
    }

    /// Step `k` of the sequence of cells leads from a free cell to a
    /// neighbouring free cell.
    pub open spec fn free_step(self, cells: Seq<Position>, k: int) -> bool {
        adjacent(cells[k], cells[k + 1]) && self.is_free(cells[k]) && self.is_free(cells[k + 1])
    }
}

/// Step `k` of the sequence of cells leads to a neighbouring cell.
pub open spec fn step_ok(cells: Seq<Position>, k: int) -> bool {
    adjacent(cells[k], cells[k + 1])
}

/// The grid world. The occupancy store is the state; the graph and the table
/// from cells to graph nodes are derived from it and kept in step with it.
pub struct Arena {
    graph: Graph<(), (), Undirected, u32>,
    nodes: CellTable,
    occ: Array2D<Option<Occupancy>>,
    width: i32,
    height: i32,
    path_limit: usize,
}

/// The table key of a cell.
spec fn key(p: Position) -> (i32, i32) {
    (p.x, p.y)
}

/// The key names a cell of a grid of the given size.
spec fn in_grid(w: int, h: int, k: (i32, i32)) -> bool {
    0 <= k.0 < w && 0 <= k.1 < h
}

/// The table pairs exactly the cells of the grid, each with a node of its
/// own.
spec fn table_ok(t: Map<(i32, i32), usize>, w: int, h: int, order: nat) -> bool {
    &&& forall|k: (i32, i32)| #[trigger] t.contains_key(k) <==> in_grid(w, h, k)
    &&& forall|k: (i32, i32)| t.contains_key(k) ==> #[trigger] t[k] < order
    &&& forall|k1: (i32, i32), k2: (i32, i32)|
        #![trigger t[k1], t[k2]]
        t.contains_key(k1) && t.contains_key(k2) && t[k1] == t[k2] ==> k1 == k2
}

/// A cell whose node is `n`.
spec fn cell_of(t: Map<(i32, i32), usize>, n: usize) -> Position {
    choose|p: Position| t.contains_key(key(p)) && t[key(p)] == n
}

/// The cell lies in the grid and its entry in the store is empty.
spec fn free_cell(rows: Seq<Seq<Option<Occupancy>>>, w: int, h: int, p: Position) -> bool {
    in_grid(w, h, key(p)) && rows[p.x as int][p.y as int].is_none()
}

/// Both ends of the edge are nodes of cells, and `u`, `v` are those cells.
spec fn links(t: Map<(i32, i32), usize>, e: (usize, usize), u: Position, v: Position) -> bool {
    &&& t.contains_key(key(u))
    &&& t.contains_key(key(v))
    &&& t[key(u)] == e.0
    &&& t[key(v)] == e.1
}

/// The edge joins two neighbouring free cells.
spec fn sound_edge(
    t: Map<(i32, i32), usize>,
    rows: Seq<Seq<Option<Occupancy>>>,
    w: int,
    h: int,
    e: (usize, usize),
) -> bool {
    let u = cell_of(t, e.0);
    let v = cell_of(t, e.1);
    links(t, e, u, v) && adjacent(u, v) && free_cell(rows, w, h, u) && free_cell(rows, w, h, v)
}

/// Every edge joins two neighbouring free cells.
spec fn edges_sound(
    t: Map<(i32, i32), usize>,
    rows: Seq<Seq<Option<Occupancy>>>,
    w: int,
    h: int,
    edges: Seq<(usize, usize)>,
) -> bool {
    forall|i: int| 0 <= i < edges.len() ==> sound_edge(t, rows, w, h, #[trigger] edges[i])
}

/// The two cells are neighbours and both free.
spec fn open_pair(
    rows: Seq<Seq<Option<Occupancy>>>,
    w: int,
    h: int,
    u: Position,
    v: Position,
) -> bool {
    adjacent(u, v) && free_cell(rows, w, h, u) && free_cell(rows, w, h, v)
}

/// Every two neighbouring free cells, other than pairs with `skip`, are
/// joined by an edge.
spec fn edges_complete_but(
    t: Map<(i32, i32), usize>,
    rows: Seq<Seq<Option<Occupancy>>>,
    w: int,
    h: int,
    edges: Seq<(usize, usize)>,
    skip: Option<Position>,
) -> bool {
    forall|u: Position, v: Position| #[trigger]
        open_pair(rows, w, h, u, v) && skip != Some(u) && skip != Some(v) ==> joined(
            edges,
            t[key(u)],
            t[key(v)],
        )
}

/// The node of a cell of the grid leads back to that cell.
proof fn lemma_cell_of(t: Map<(i32, i32), usize>, w: int, h: int, order: nat, p: Position)
    requires
        table_ok(t, w, h, order),
        in_grid(w, h, key(p)),
    ensures
        cell_of(t, t[key(p)]) == p,
{
    let n = t[key(p)];
    assert(t.contains_key(key(p)));
    let q = cell_of(t, n);
    assert(t.contains_key(key(q)) && t[key(q)] == n);
    assert(key(q) == key(p));
}

/// A number that tells the edges of one grid apart: four times the node of
/// the first cell, plus the direction in which the second one lies.
spec fn edge_code(t: Map<(i32, i32), usize>, e: (usize, usize)) -> int {
    let u = cell_of(t, e.0);
    let v = cell_of(t, e.1);
    let d: int = if v.x == u.x + 1 {
        0
    } else if v.x == u.x - 1 {
        1
    } else if v.y == u.y + 1 {
        2
    } else {
        3
    };
    4 * (e.0 as int) + d
}

/// A graph whose edges all join neighbouring free cells, none of them twice,
/// has at most four edges per node.
proof fn lemma_edge_count(
    t: Map<(i32, i32), usize>,
    rows: Seq<Seq<Option<Occupancy>>>,
    w: int,
    h: int,
    order: nat,
    edges: Seq<(usize, usize)>,
)
    requires
        table_ok(t, w, h, order),
        edges_sound(t, rows, w, h, edges),
        edges.no_duplicates(),
    ensures
        edges.len() <= 4 * order,
{
    let codes = Seq::new(edges.len(), |i: int| edge_code(t, edges[i]));
    assert forall|i: int, j: int| 0 <= i < codes.len() && 0 <= j < codes.len() && i != j implies codes[i]
        != codes[j] by {
        let e1 = edges[i];
        let e2 = edges[j];
        assert(sound_edge(t, rows, w, h, e1));
        assert(sound_edge(t, rows, w, h, e2));
        if codes[i] == codes[j] {
            assert(e1.0 == e2.0);
            let u = cell_of(t, e1.0);
            let v1 = cell_of(t, e1.1);
            let v2 = cell_of(t, e2.1);
            assert(v1 == v2);
            assert(e1 == e2);
        }
    }
    assert(codes.no_duplicates());
    codes.unique_seq_to_set();
    lemma_int_range(0, 4 * (order as int));
    assert forall|c: int| codes.to_set().contains(c) implies set_int_range(0, 4 * (order as int)).contains(c) by {
        let i = choose|i: int| 0 <= i < codes.len() && codes[i] == c;
        assert(sound_edge(t, rows, w, h, edges[i]));
        let u = cell_of(t, edges[i].0);
        assert(t.contains_key(key(u)));
        assert(t[key(u)] < order);
    }
    assert(codes.to_set().subset_of(set_int_range(0, 4 * (order as int))));
    lemma_len_subset(codes.to_set(), set_int_range(0, 4 * (order as int)));
}

/// Cell `(x, y)` of a grid of height `h`, counted column by column, comes
/// before the number of cells.
proof fn lemma_cell_number(x: int, y: int, w: int, h: int)
    requires
        0 <= x < w,
        0 <= y < h,
    ensures
        0 <= x * h + y < w * h,
        (x + 1) * h == x * h + h,
{
    assert(x * h + h <= w * h) by (nonlinear_arith)
        requires
            0 <= x < w,
            0 <= h,
    ;
    assert(0 <= x * h) by (nonlinear_arith)
        requires
            0 <= x,
            0 <= h,
    ;
    assert((x + 1) * h == x * h + h) by (nonlinear_arith);
}

/// While the nodes are made: the table pairs the cells before `(x, y)`, in
/// the order column by column, each with a node of its own.
spec fn table_partial(t: Map<(i32, i32), usize>, h: int, x: int, y: int, order: nat) -> bool {
    &&& forall|k: (i32, i32)| #[trigger]
        t.contains_key(k) <==> (0 <= k.1 < h && (0 <= k.0 < x || (k.0 == x && k.1 < y)))
    &&& forall|k: (i32, i32)| t.contains_key(k) ==> #[trigger] t[k] < order
    &&& forall|k1: (i32, i32), k2: (i32, i32)|
        #![trigger t[k1], t[k2]]
        t.contains_key(k1) && t.contains_key(k2) && t[k1] == t[k2] ==> k1 == k2
}

/// The cell comes before `(i, j)` in the order column by column.
spec fn before(u: Position, i: int, j: int) -> bool {
    u.x < i || (u.x == i && u.y < j)
}

/// The neighbour of `u` one step up the x axis.
spec fn right_of(u: Position) -> Position {
    Position { x: (u.x + 1) as i32, y: u.y }
}

/// The neighbour of `u` one step up the y axis.
spec fn above(u: Position) -> Position {
    Position { x: u.x, y: (u.y + 1) as i32 }
}

/// While the edges are made, cell by cell and for each cell first to the
/// right and then upwards: the edge of `u` to the right has had its turn
/// when the work stands at cell `(i, j)` with `s` of its two edges done.
spec fn done_right(u: Position, i: int, j: int, s: int) -> bool {
    before(u, i, j) || (u.x == i && u.y == j && s >= 1)
}

/// The same for the edge of `u` upwards.
spec fn done_up(u: Position, i: int, j: int, s: int) -> bool {
    before(u, i, j) || (u.x == i && u.y == j && s >= 2)
}

/// The edge leads from a cell to its neighbour on the right or above, and
/// has had its turn.
spec fn built_edge(
    t: Map<(i32, i32), usize>,
    e: (usize, usize),
    i: int,
    j: int,
    s: int,
) -> bool {
    let u = cell_of(t, e.0);
    let v = cell_of(t, e.1);
    &&& links(t, e, u, v)
    &&& (v == right_of(u) && done_right(u, i, j, s)) || (v == above(u) && done_up(u, i, j, s))
}

/// The cell has its edge to the right and its edge upwards, as far as those
/// neighbours exist and the edges have had their turn.
spec fn out_edges_present(
    t: Map<(i32, i32), usize>,
    w: int,
    h: int,
    edges: Seq<(usize, usize)>,
    u: Position,
    i: int,
    j: int,
    s: int,
) -> bool {
    &&& u.x < w - 1 && done_right(u, i, j, s) ==> edges.contains((t[key(u)], t[key(right_of(u))]))
    &&& u.y < h - 1 && done_up(u, i, j, s) ==> edges.contains((t[key(u)], t[key(above(u))]))
}

/// The edges are those that have had their turn, each once.
spec fn edges_built(
    t: Map<(i32, i32), usize>,
    w: int,
    h: int,
    edges: Seq<(usize, usize)>,
    i: int,
    j: int,
    s: int,
) -> bool {
    &&& edges.no_duplicates()
    &&& forall|n: int| 0 <= n < edges.len() ==> built_edge(t, #[trigger] edges[n], i, j, s)
    &&& forall|u: Position|
        in_grid(w, h, key(u)) ==> #[trigger] out_edges_present(t, w, h, edges, u, i, j, s)
}

/// Making the edge that is next in turn keeps the edges as they should be.
proof fn lemma_built_push(
    t: Map<(i32, i32), usize>,
    w: int,
    h: int,
    order: nat,
    edges: Seq<(usize, usize)>,
    here: Position,
    s: int,
)
    requires
        table_ok(t, w, h, order),
        w <= i32::MAX,
        h <= i32::MAX,
        in_grid(w, h, key(here)),
        edges_built(t, w, h, edges, here.x as int, here.y as int, s),
        (s == 0 && here.x < w - 1) || (s == 1 && here.y < h - 1),
    ensures
        edges_built(
            t,
            w,
            h,
            edges.push(
                (
                    t[key(here)],
                    t[key(
                        if s == 0 {
                            right_of(here)
                        } else {
                            above(here)
                        },
                    )],
                ),
            ),
            here.x as int,
            here.y as int,
            s + 1,
        ),
{
    let i = here.x as int;
    let j = here.y as int;
    let nb = if s == 0 {
        right_of(here)
    } else {
        above(here)
    };
    let e = (t[key(here)], t[key(nb)]);
    let after = edges.push(e);
    assert(in_grid(w, h, key(nb)));
    lemma_cell_of(t, w, h, order, here);
    lemma_cell_of(t, w, h, order, nb);
    assert(built_edge(t, e, i, j, s + 1));
    assert forall|n: int| 0 <= n < edges.len() implies edges[n] != e by {
        assert(built_edge(t, edges[n], i, j, s));
    }
    assert(after.no_duplicates());
    assert forall|n: int| 0 <= n < after.len() implies built_edge(t, #[trigger] after[n], i, j, s + 1) by {
        if n < edges.len() {
            assert(built_edge(t, edges[n], i, j, s));
        }
    }
    assert forall|u: Position| in_grid(w, h, key(u)) implies #[trigger] out_edges_present(
        t,
        w,
        h,
        after,
        u,
        i,
        j,
        s + 1,
    ) by {
        assert(out_edges_present(t, w, h, edges, u, i, j, s));
        assert(after[edges.len() as int] == e);
        assert forall|x: (usize, usize)| edges.contains(x) implies after.contains(x) by {
            let n = choose|n: int| 0 <= n < edges.len() && edges[n] == x;
            assert(after[n] == x);
        }
    }
}

/// Where the neighbour that is next in turn does not exist, nothing is to be
/// made.
proof fn lemma_built_skip(
    t: Map<(i32, i32), usize>,
    w: int,
    h: int,
    edges: Seq<(usize, usize)>,
    here: Position,
    s: int,
)
    requires
        edges_built(t, w, h, edges, here.x as int, here.y as int, s),
        (s == 0 && here.x >= w - 1) || (s == 1 && here.y >= h - 1),
    ensures
        edges_built(t, w, h, edges, here.x as int, here.y as int, s + 1),
{
    let i = here.x as int;
    let j = here.y as int;
    assert forall|n: int| 0 <= n < edges.len() implies built_edge(t, #[trigger] edges[n], i, j, s + 1) by {
        assert(built_edge(t, edges[n], i, j, s));
    }
    assert forall|u: Position| in_grid(w, h, key(u)) implies #[trigger] out_edges_present(
        t,
        w,
        h,
        edges,
        u,
        i,
        j,
        s + 1,
    ) by {
        assert(out_edges_present(t, w, h, edges, u, i, j, s));
    }
}

/// After both edges of a cell the work stands at the next cell: the one
/// above, or the first of the next column.
proof fn lemma_built_next(
    t: Map<(i32, i32), usize>,
    w: int,
    h: int,
    order: nat,
    edges: Seq<(usize, usize)>,
    i: int,
    j: int,
)
    requires
        table_ok(t, w, h, order),
        0 <= j <= h,
        edges_built(t, w, h, edges, i, j, 2) || (j == h && edges_built(t, w, h, edges, i, j, 0)),
    ensures
        j < h ==> edges_built(t, w, h, edges, i, j + 1, 0),
        j == h ==> edges_built(t, w, h, edges, i + 1, 0, 0),
{
    let s: int = if edges_built(t, w, h, edges, i, j, 2) {
        2
    } else {
        0
    };
    let (i2, j2) = if j < h {
        (i, j + 1)
    } else {
        (i + 1, 0int)
    };
    assert forall|n: int| 0 <= n < edges.len() implies built_edge(t, #[trigger] edges[n], i2, j2, 0) by {
        assert(built_edge(t, edges[n], i, j, s));
        let u = cell_of(t, edges[n].0);
        assert(t.contains_key(key(u)));
        assert(in_grid(w, h, key(u)));
    }
    assert forall|u: Position| in_grid(w, h, key(u)) implies #[trigger] out_edges_present(
        t,
        w,
        h,
        edges,
        u,
        i2,
        j2,
        0,
    ) by {
        assert(out_edges_present(t, w, h, edges, u, i, j, s));
    }
}

/// When every cell has had its turn and every cell is free, the graph has an
/// edge exactly between neighbouring cells.
proof fn lemma_built_all(
    t: Map<(i32, i32), usize>,
    rows: Seq<Seq<Option<Occupancy>>>,
    w: int,
    h: int,
    order: nat,
    edges: Seq<(usize, usize)>,
)
    requires
        table_ok(t, w, h, order),
        w <= i32::MAX,
        h <= i32::MAX,
        edges_built(t, w, h, edges, w, 0, 0),
        forall|p: Position| in_grid(w, h, key(p)) ==> free_cell(rows, w, h, p),
    ensures
        edges_sound(t, rows, w, h, edges),
        edges_complete_but(t, rows, w, h, edges, None),
{
    assert forall|n: int| 0 <= n < edges.len() implies sound_edge(t, rows, w, h, #[trigger] edges[n]) by {
        assert(built_edge(t, edges[n], w, 0, 0));
        let u = cell_of(t, edges[n].0);
        let v = cell_of(t, edges[n].1);
        assert(in_grid(w, h, key(u)));
        assert(in_grid(w, h, key(v)));
    }
    assert forall|u: Position, v: Position| #[trigger]
        open_pair(rows, w, h, u, v) implies joined(edges, t[key(u)], t[key(v)]) by {
        assert(out_edges_present(t, w, h, edges, u, w, 0, 0));
        assert(out_edges_present(t, w, h, edges, v, w, 0, 0));
        if v == right_of(u) || v == above(u) {
            let e = (t[key(u)], t[key(v)]);
            assert(edges.contains(e));
            let n = choose|n: int| 0 <= n < edges.len() && edges[n] == e;
            assert(edges[n] == e);
        } else {
            assert(u == right_of(v) || u == above(v));
            let e = (t[key(v)], t[key(u)]);
            assert(edges.contains(e));
            let n = choose|n: int| 0 <= n < edges.len() && edges[n] == e;
            assert(edges[n] == e);
        }
    }
}

/// What `edges_kept` keeps: an edge is among the kept ones exactly when it
/// stands at an index that is not listed, and no edge is doubled by it.
proof fn lemma_edges_kept(edges: Seq<(usize, usize)>, ids: Seq<usize>)
    requires
        edges.len() <= usize::MAX,
    ensures
        edges_kept(edges, ids).len() <= edges.len(),
        forall|e: (usize, usize)|
            edges_kept(edges, ids).contains(e) <==> exists|i: int|
                0 <= i < edges.len() && #[trigger] edges[i] == e && !ids.contains(i as usize),
        edges.no_duplicates() ==> edges_kept(edges, ids).no_duplicates(),
    decreases edges.len(),
{
    let kept = edges_kept(edges, ids);
    if edges.len() == 0 {
    } else {
        let front = edges.drop_last();
        let last = (edges.len() - 1) as int;
        let rest = edges_kept(front, ids);
        lemma_edges_kept(front, ids);
        assert forall|e: (usize, usize)|
            kept.contains(e) <==> exists|i: int|
                0 <= i < edges.len() && #[trigger] edges[i] == e && !ids.contains(i as usize) by {
            if kept.contains(e) {
                let n = choose|n: int| 0 <= n < kept.len() && kept[n] == e;
                if n < rest.len() {
                    assert(rest[n] == e);
                    assert(rest.contains(e));
                    let i = choose|i: int|
                        0 <= i < front.len() && #[trigger] front[i] == e && !ids.contains(i as usize);
                    assert(edges[i] == e);
                } else {
                    assert(edges[last] == e);
                }
            }
            if exists|i: int|
                0 <= i < edges.len() && #[trigger] edges[i] == e && !ids.contains(i as usize) {
                let i = choose|i: int|
                    0 <= i < edges.len() && #[trigger] edges[i] == e && !ids.contains(i as usize);
                if i < last {
                    assert(front[i] == e);
                    assert(rest.contains(e));
                    let n = choose|n: int| 0 <= n < rest.len() && rest[n] == e;
                    assert(kept[n] == e);
                } else {
                    assert(kept[kept.len() - 1] == e);
                }
            }
        }
        if edges.no_duplicates() {
            assert(front.no_duplicates());
            if !ids.contains(last as usize) {
                assert forall|n: int| 0 <= n < rest.len() implies rest[n] != edges[last] by {
                    if rest[n] == edges[last] {
                        assert(rest.contains(edges[last]));
                        let i = choose|i: int|
                            0 <= i < front.len() && #[trigger] front[i] == edges[last]
                                && !ids.contains(i as usize);
                        assert(edges[i] == edges[last]);
                    }
                }
            }
        }
    }
}

/// The four neighbours of a cell, in the order in which their edges are
/// made: to the right, above, to the left, below.
spec fn neighbour(c: Position, d: int) -> Position {
    if d == 0 {
        Position { x: (c.x + 1) as i32, y: c.y }
    } else if d == 1 {
        Position { x: c.x, y: (c.y + 1) as i32 }
    } else if d == 2 {
        Position { x: (c.x - 1) as i32, y: c.y }
    } else {
        Position { x: c.x, y: (c.y - 1) as i32 }
    }
}

/// While the edges of a freed cell `c` are made: the first `k` neighbours
/// have had their turn, and the graph is as it should be but for the
/// neighbours still to come.
spec fn edges_grown(
    t: Map<(i32, i32), usize>,
    rows: Seq<Seq<Option<Occupancy>>>,
    w: int,
    h: int,
    edges: Seq<(usize, usize)>,
    c: Position,
    k: int,
) -> bool {
    &&& edges_sound(t, rows, w, h, edges)
    &&& edges.no_duplicates()
    &&& edges_complete_but(t, rows, w, h, edges, Some(c))
    &&& forall|d: int|
        0 <= d < k && free_cell(rows, w, h, #[trigger] neighbour(c, d)) ==> joined(
            edges,
            t[key(c)],
            t[key(neighbour(c, d))],
        )
    &&& forall|n: int|
        0 <= n < edges.len() && touches(#[trigger] edges[n], t[key(c)]) ==> exists|d: int|
            0 <= d < k && free_cell(rows, w, h, #[trigger] neighbour(c, d)) && edges[n] == (
                t[key(c)],
                t[key(neighbour(c, d))],
            )
}

/// An edge that is in a sequence is still in it after a push.
proof fn lemma_joined_push(edges: Seq<(usize, usize)>, e: (usize, usize), a: usize, b: usize)
    requires
        joined(edges, a, b) || e == (a, b) || e == (b, a),
    ensures
        joined(edges.push(e), a, b),
{
    let after = edges.push(e);
    if joined(edges, a, b) {
        let i = choose|i: int|
            0 <= i < edges.len() && (#[trigger] edges[i] == (a, b) || edges[i] == (b, a));
        assert(after[i] == edges[i]);
    } else {
        assert(after[edges.len() as int] == e);
    }
}

/// Making the edge to the neighbour that is next in turn, where that
/// neighbour is free.
proof fn lemma_grown_push(
    t: Map<(i32, i32), usize>,
    rows: Seq<Seq<Option<Occupancy>>>,
    w: int,
    h: int,
    order: nat,
    edges: Seq<(usize, usize)>,
    c: Position,
    k: int,
)
    requires
        table_ok(t, w, h, order),
        w <= i32::MAX,
        h <= i32::MAX,
        0 <= k < 4,
        free_cell(rows, w, h, c),
        free_cell(rows, w, h, neighbour(c, k)),
        edges_grown(t, rows, w, h, edges, c, k),
    ensures
        edges_grown(t, rows, w, h, edges.push((t[key(c)], t[key(neighbour(c, k))])), c, k + 1),
{
    let nb = neighbour(c, k);
    let e = (t[key(c)], t[key(nb)]);
    let after = edges.push(e);
    lemma_cell_of(t, w, h, order, c);
    lemma_cell_of(t, w, h, order, nb);
    assert(sound_edge(t, rows, w, h, e));
    assert forall|i: int| 0 <= i < after.len() implies sound_edge(t, rows, w, h, #[trigger] after[i]) by {
        if i < edges.len() {
            assert(sound_edge(t, rows, w, h, edges[i]));
        }
    }
    assert forall|n: int| 0 <= n < edges.len() implies edges[n] != e by {
        if edges[n] == e {
            assert(touches(edges[n], t[key(c)]));
            let d = choose|d: int|
                0 <= d < k && free_cell(rows, w, h, #[trigger] neighbour(c, d)) && edges[n] == (
                    t[key(c)],
                    t[key(neighbour(c, d))],
                );
            lemma_cell_of(t, w, h, order, neighbour(c, d));
        }
    }
    assert forall|u: Position, v: Position| #[trigger]
        open_pair(rows, w, h, u, v) && Some(c) != Some(u) && Some(c) != Some(v) implies joined(
        after,
        t[key(u)],
        t[key(v)],
    ) by {
        lemma_joined_push(edges, e, t[key(u)], t[key(v)]);
    }
    assert forall|d: int|
        0 <= d < k + 1 && free_cell(rows, w, h, #[trigger] neighbour(c, d)) implies joined(
        after,
        t[key(c)],
        t[key(neighbour(c, d))],
    ) by {
        lemma_joined_push(edges, e, t[key(c)], t[key(neighbour(c, d))]);
    }
    assert forall|n: int|
        0 <= n < after.len() && touches(#[trigger] after[n], t[key(c)]) implies exists|d: int|
        0 <= d < k + 1 && free_cell(rows, w, h, #[trigger] neighbour(c, d)) && after[n] == (
            t[key(c)],
            t[key(neighbour(c, d))],
        ) by {
        if n < edges.len() {
            assert(touches(edges[n], t[key(c)]));
            let d = choose|d: int|
                0 <= d < k && free_cell(rows, w, h, #[trigger] neighbour(c, d)) && edges[n] == (
                    t[key(c)],
                    t[key(neighbour(c, d))],
                );
            assert(free_cell(rows, w, h, neighbour(c, d)) && after[n] == (
                t[key(c)],
                t[key(neighbour(c, d))],
            ));
        } else {
            assert(free_cell(rows, w, h, neighbour(c, k)) && after[n] == (
                t[key(c)],
                t[key(neighbour(c, k))],
            ));
        }
    }
}

/// Where the neighbour that is next in turn is occupied or outside the
/// grid, no edge is made.
proof fn lemma_grown_skip(
    t: Map<(i32, i32), usize>,
    rows: Seq<Seq<Option<Occupancy>>>,
    w: int,
    h: int,
    edges: Seq<(usize, usize)>,
    c: Position,
    k: int,
)
    requires
        0 <= k < 4,
        !free_cell(rows, w, h, neighbour(c, k)),
        edges_grown(t, rows, w, h, edges, c, k),
    ensures
        edges_grown(t, rows, w, h, edges, c, k + 1),
{
    assert forall|n: int|
        0 <= n < edges.len() && touches(#[trigger] edges[n], t[key(c)]) implies exists|d: int|
        0 <= d < k + 1 && free_cell(rows, w, h, #[trigger] neighbour(c, d)) && edges[n] == (
            t[key(c)],
            t[key(neighbour(c, d))],
        ) by {
        let d = choose|d: int|
            0 <= d < k && free_cell(rows, w, h, #[trigger] neighbour(c, d)) && edges[n] == (
                t[key(c)],
                t[key(neighbour(c, d))],
            );
        assert(free_cell(rows, w, h, neighbour(c, d)) && edges[n] == (
            t[key(c)],
            t[key(neighbour(c, d))],
        ));
    }
}

/// When all four neighbours of the freed cell have had their turn, every two
/// neighbouring free cells are joined.
proof fn lemma_grown_all(
    t: Map<(i32, i32), usize>,
    rows: Seq<Seq<Option<Occupancy>>>,
    w: int,
    h: int,
    edges: Seq<(usize, usize)>,
    c: Position,
)
    requires
        w <= i32::MAX,
        h <= i32::MAX,
        edges_grown(t, rows, w, h, edges, c, 4),
    ensures
        edges_complete_but(t, rows, w, h, edges, None),
{
    assert forall|u: Position, v: Position| #[trigger]
        open_pair(rows, w, h, u, v) implies joined(edges, t[key(u)], t[key(v)]) by {
        if u == c {
            assert(v == neighbour(c, 0) || v == neighbour(c, 1) || v == neighbour(c, 2) || v
                == neighbour(c, 3));
        } else if v == c {
            assert(u == neighbour(c, 0) || u == neighbour(c, 1) || u == neighbour(c, 2) || u
                == neighbour(c, 3));
            assert(joined(edges, t[key(c)], t[key(u)]));
            let i = choose|i: int|
                0 <= i < edges.len() && (#[trigger] edges[i] == (t[key(c)], t[key(u)]) || edges[i]
                    == (t[key(u)], t[key(c)]));
            assert(edges[i] == (t[key(u)], t[key(v)]) || edges[i] == (t[key(v)], t[key(u)]));
        } else {
            assert(Some(c) != Some(u) && Some(c) != Some(v));
        }
    }
}

impl View for Arena {
    type V = ArenaView;

    closed spec fn view(&self) -> ArenaView {
        ArenaView {
            width: self.width as int,
            height: self.height as int,
            path_limit: self.path_limit as nat,
            cells: Map::new(
                |p: Position|
                    in_grid(self.width as int, self.height as int, key(p)) && store_rows(
                        self.occ,
                    )[p.x as int][p.y as int].is_some(),
                |p: Position| store_rows(self.occ)[p.x as int][p.y as int].unwrap(),
            ),
        }
    }
}

impl Arena {
    /// The sizes, the store and the table fit together.
    pub closed spec fn base_wf(&self) -> bool {
        &&& 0 <= self.width
        &&& 0 <= self.height
        &&& self.width * self.height <= MAX_CELLS
        &&& store_has_shape(self.occ, self.width as nat, self.height as nat)
        &&& graph_order(self.graph) == self.width * self.height
        &&& table_ok(
            table_pairs(self.nodes),
            self.width as int,
            self.height as int,
            graph_order(self.graph),
        )
    }

    /// Every edge joins two neighbouring free cells, and none is there twice.
    pub closed spec fn graph_sound(&self) -> bool {
        &&& edges_sound(
            table_pairs(self.nodes),
            store_rows(self.occ),
            self.width as int,
            self.height as int,
            graph_edges(self.graph),
        )
        &&& graph_edges(self.graph).no_duplicates()
    }

    /// Every two neighbouring free cells, other than pairs with `skip`, are
    /// joined by an edge.
    pub closed spec fn graph_complete_but(&self, skip: Option<Position>) -> bool {
        edges_complete_but(
            table_pairs(self.nodes),
            store_rows(self.occ),
            self.width as int,
            self.height as int,
            graph_edges(self.graph),
            skip,
        )
    }

    /// The invariant of the arena: the store, the table and the graph fit
    /// together, and the graph has an edge exactly between neighbouring
    /// free cells.
    pub open spec fn wf(&self) -> bool {
        &&& self.base_wf()
        &&& self.graph_sound()
        &&& self.graph_complete_but(None)
    }

    /// The graph has an edge between the nodes of the two cells. Cells
    /// outside the arena have no node and no edge.
    pub closed spec fn has_edge(&self, u: Position, v: Position) -> bool {
        &&& in_grid(self.width as int, self.height as int, key(u))
        &&& in_grid(self.width as int, self.height as int, key(v))
        &&& joined(
            graph_edges(self.graph),
            table_pairs(self.nodes)[key(u)],
            table_pairs(self.nodes)[key(v)],
        )
    }

    /// An arena of the given size in which every cell is free, with the
    /// given bound on the length of routes.
    pub fn new(width: i32, height: i32, path_limit: usize) -> (arena: Arena)
        requires
            0 <= width,
            0 <= height,
            width * height <= MAX_CELLS,
        ensures
            arena.wf(),
            arena@.width == width,
            arena@.height == height,
            arena@.path_limit == path_limit,
            arena@.cells == Map::<Position, Occupancy>::empty(),
    {
        let mut graph = graph_new();
        let mut nodes = table_new();
        let mut x: i32 = 0;
        while x < width
            invariant
                0 <= x <= width,
                0 <= height,
                width * height <= MAX_CELLS,
                graph_order(graph) == x * height,
                graph_edges(graph).len() == 0,
                table_partial(table_pairs(nodes), height as int, x as int, 0, graph_order(graph)),
            decreases width - x,
        {
            let mut y: i32 = 0;
            while y < height
                invariant
                    0 <= x < width,
                    0 <= y <= height,
                    width * height <= MAX_CELLS,
                    graph_order(graph) == x * height + y,
                    graph_edges(graph).len() == 0,
                    table_partial(
                        table_pairs(nodes),
                        height as int,
                        x as int,
                        y as int,
                        graph_order(graph),
                    ),
                decreases height - y,
            {
                proof {
                    lemma_cell_number(x as int, y as int, width as int, height as int);
                }
                let n: usize = graph_add_node(&mut graph);
                let ghost before_insert = table_pairs(nodes);
                table_insert(&mut nodes, (x, y), n);
                proof {
                    let t = table_pairs(nodes);
                    assert forall|k: (i32, i32)| #[trigger]
                        t.contains_key(k) <==> (0 <= k.1 < height && (0 <= k.0 < x || (k.0 == x
                            && k.1 < y + 1))) by {
                        if before_insert.contains_key(k) {
                            assert(before_insert[k] < n);
                        }
                    }
                    assert forall|k1: (i32, i32), k2: (i32, i32)|
                        #![trigger t[k1], t[k2]]
                        t.contains_key(k1) && t.contains_key(k2) && t[k1] == t[k2] implies k1
                        == k2 by {
                        if k1 != (x, y) {
                            assert(before_insert.contains_key(k1));
                            assert(before_insert[k1] < n);
                        }
                        if k2 != (x, y) {
                            assert(before_insert.contains_key(k2));
                            assert(before_insert[k2] < n);
                        }
                    }
                }
                y += 1;
            }
            proof {
                assert((x + 1) * height == x * height + height) by (nonlinear_arith);
            }
            x += 1;
        }
        proof {
            assert(x == width);
            assert(table_ok(
                table_pairs(nodes),
                width as int,
                height as int,
                graph_order(graph),
            ));
        }
        let ghost t = table_pairs(nodes);
        let mut i: i32 = 0;
        while i < width
            invariant
                0 <= i <= width,
                0 <= height,
                width * height <= MAX_CELLS,
                graph_order(graph) == width * height,
                table_pairs(nodes) == t,
                table_ok(t, width as int, height as int, graph_order(graph)),
                graph_edges(graph).len() <= 2 * (i * height),
                edges_built(t, width as int, height as int, graph_edges(graph), i as int, 0, 0),
            decreases width - i,
        {
            let mut j: i32 = 0;
            while j < height
                invariant
                    0 <= i < width,
                    0 <= j <= height,
                    width * height <= MAX_CELLS,
                    graph_order(graph) == width * height,
                    table_pairs(nodes) == t,
                    table_ok(t, width as int, height as int, graph_order(graph)),
                    graph_edges(graph).len() <= 2 * (i * height + j),
                    edges_built(
                        t,
                        width as int,
                        height as int,
                        graph_edges(graph),
                        i as int,
                        j as int,
                        0,
                    ),
                decreases height - j,
            {
                let ghost here = Position { x: i, y: j };
                proof {
                    lemma_cell_number(i as int, j as int, width as int, height as int);
                    assert(t.contains_key((i, j)));
                }
                let a: usize = table_right_of(&nodes, (i, j)).unwrap();
                if i < width - 1 {
                    proof {
                        assert(t.contains_key(key(right_of(here))));
                        lemma_built_push(
                            t,
                            width as int,
                            height as int,
                            graph_order(graph),
                            graph_edges(graph),
                            here,
                            0,
                        );
                    }
                    let b: usize = table_right_of(&nodes, (i + 1, j)).unwrap();
                    graph_add_edge(&mut graph, a, b);
                } else {
                    proof {
                        lemma_built_skip(t, width as int, height as int, graph_edges(graph), here, 0);
                    }
                }
                if j < height - 1 {
                    proof {
                        assert(t.contains_key(key(above(here))));
                        lemma_built_push(
                            t,
                            width as int,
                            height as int,
                            graph_order(graph),
                            graph_edges(graph),
                            here,
                            1,
                        );
                    }
                    let b: usize = table_right_of(&nodes, (i, j + 1)).unwrap();
                    graph_add_edge(&mut graph, a, b);
                } else {
                    proof {
                        lemma_built_skip(t, width as int, height as int, graph_edges(graph), here, 1);
                    }
                }
                proof {
                    lemma_built_next(
                        t,
                        width as int,
                        height as int,
                        graph_order(graph),
                        graph_edges(graph),
                        i as int,
                        j as int,
                    );
                }
                j += 1;
            }
            proof {
                assert((i + 1) * height == i * height + height) by (nonlinear_arith);
                lemma_built_next(
                    t,
                    width as int,
                    height as int,
                    graph_order(graph),
                    graph_edges(graph),
                    i as int,
                    j as int,
                );
            }
            i += 1;
        }
        let occ = store_empty(width as usize, height as usize);
        let arena = Arena { graph, nodes, occ, width, height, path_limit };
        proof {
            lemma_built_all(
                t,
                store_rows(occ),
                width as int,
                height as int,
                graph_order(arena.graph),
                graph_edges(arena.graph),
            );
            assert(arena@.cells =~= Map::<Position, Occupancy>::empty());
        }
        arena
    }

    /// Width of the arena.
    pub fn width(&self) -> (w: i32)
        ensures
            w == self@.width,
    {
        self.width
    }

    /// Height of the arena.
    pub fn height(&self) -> (h: i32)
        ensures
            h == self@.height,
    {
        self.height
    }

    /// The bound on the length of a planned route.
    pub fn path_limit(&self) -> (l: usize)
        ensures
            l == self@.path_limit,
    {
        self.path_limit
    }

    /// Whether the cell is occupied. A cell outside the arena never is.
    pub fn isset(&self, x: i32, y: i32) -> (b: bool)
        requires
            self.base_wf(),
        ensures
            b == self@.cells.contains_key(Position { x, y }),
    {
        if x >= self.width || x < 0 || y >= self.height || y < 0 {
            return false;
        }
        store_get(&self.occ, x as usize, y as usize).is_some()
    }

    /// The occupant of the cell, if it has one. A cell outside the arena
    /// has none.
    pub fn occ(&self, x: i32, y: i32) -> (o: Option<Occupancy>)
        requires
            self.base_wf(),
        ensures
            o == self@.occupant(Position { x, y }),
    {
        if x >= self.width || x < 0 || y >= self.height || y < 0 {
            return None;
        }
        store_get(&self.occ, x as usize, y as usize)
    }

    /// Removes every edge at the node of the cell `(x, y)`.
    fn remove_edges_with(&mut self, x: i32, y: i32)
        requires
            old(self).base_wf(),
            in_grid(old(self).width as int, old(self).height as int, (x, y)),
            graph_edges(old(self).graph).len() <= usize::MAX,
        ensures
            final(self).base_wf(),
            final(self).occ == old(self).occ,
            final(self).nodes == old(self).nodes,
            final(self).width == old(self).width,
            final(self).height == old(self).height,
            final(self).path_limit == old(self).path_limit,
            graph_edges(final(self).graph).len() <= graph_edges(old(self).graph).len(),
            forall|e: (usize, usize)|
                graph_edges(final(self).graph).contains(e) <==> graph_edges(
                    old(self).graph,
                ).contains(e) && !touches(e, table_pairs(old(self).nodes)[(x, y)]),
            graph_edges(old(self).graph).no_duplicates() ==> graph_edges(
                final(self).graph,
            ).no_duplicates(),
    {
        let ghost before = graph_edges(self.graph);
        proof {
            assert(table_pairs(self.nodes).contains_key((x, y)));
        }
        let n: usize = table_right_of(&self.nodes, (x, y)).unwrap();
        let ids = graph_edges_at(&self.graph, n);
        graph_drop_edges(&mut self.graph, &ids);
        proof {
            let after = graph_edges(self.graph);
            let kept = edges_kept(before, ids@);
            lemma_edges_kept(before, ids@);
            after.to_multiset_ensures();
            kept.to_multiset_ensures();
            assert forall|e: (usize, usize)|
                after.contains(e) <==> before.contains(e) && !touches(e, n) by {
                assert(after.to_multiset().count(e) == kept.to_multiset().count(e));
                assert(after.contains(e) <==> kept.contains(e));
                if kept.contains(e) {
                    let i = choose|i: int|
                        0 <= i < before.len() && #[trigger] before[i] == e && !ids@.contains(
                            i as usize,
                        );
                    assert(!touches(before[i], n));
                }
                if before.contains(e) && !touches(e, n) {
                    let i = choose|i: int| 0 <= i < before.len() && before[i] == e;
                    assert(!touches(before[i], n));
                    assert(!ids@.contains(i as usize));
                }
            }
            if before.no_duplicates() {
                kept.lemma_multiset_has_no_duplicates();
                after.lemma_multiset_has_no_duplicates_conv();
            }
        }
    }

    /// Records `occ` as the occupant of the cell `(x, y)`, which must be
    /// free, and removes the edges at that cell. Outside the arena nothing
    /// is recorded.
    pub fn set(&mut self, x: i32, y: i32, occ: Occupancy)
        requires
            old(self).wf(),
            !old(self)@.cells.contains_key(Position { x, y }),
        ensures
            final(self).wf(),
            final(self)@ == old(self)@.with(Position { x, y }, occ),
    {
        if x >= self.width || x < 0 || y >= self.height || y < 0 {
            return;
        }
        let ghost c = Position { x, y };
        let ghost t = table_pairs(self.nodes);
        let ghost rows0 = store_rows(self.occ);
        let ghost edges0 = graph_edges(self.graph);
        let ghost w = self.width as int;
        let ghost h = self.height as int;
        proof {
            lemma_edge_count(t, rows0, w, h, graph_order(self.graph), edges0);
        }
        store_put(&mut self.occ, x as usize, y as usize, Some(occ));
        let ghost rows1 = store_rows(self.occ);
        proof {
            assert(store_has_shape(self.occ, self.width as nat, self.height as nat));
            assert forall|p: Position| p != c implies free_cell(rows1, w, h, p) == free_cell(
                rows0,
                w,
                h,
                p,
            ) by {}
        }
        self.remove_edges_with(x, y);
        proof {
            let edges1 = graph_edges(self.graph);
            let order = graph_order(self.graph);
            lemma_cell_of(t, w, h, order, c);
            assert forall|i: int| 0 <= i < edges1.len() implies sound_edge(
                t,
                rows1,
                w,
                h,
                #[trigger] edges1[i],
            ) by {
                let e = edges1[i];
                assert(edges1.contains(e));
                assert(edges0.contains(e));
                let n = choose|n: int| 0 <= n < edges0.len() && edges0[n] == e;
                assert(sound_edge(t, rows0, w, h, edges0[n]));
            }
            assert forall|u: Position, v: Position| #[trigger]
                open_pair(rows1, w, h, u, v) implies joined(edges1, t[key(u)], t[key(v)]) by {
                assert(open_pair(rows0, w, h, u, v));
                assert(joined(edges0, t[key(u)], t[key(v)]));
                let n = choose|n: int|
                    0 <= n < edges0.len() && (#[trigger] edges0[n] == (t[key(u)], t[key(v)])
                        || edges0[n] == (t[key(v)], t[key(u)]));
                let e = edges0[n];
                assert(edges0.contains(e));
                assert(t.contains_key(key(u)) && t.contains_key(key(v)) && t.contains_key(key(c)));
                assert(!touches(e, t[key(c)]));
                assert(edges1.contains(e));
                let m = choose|m: int| 0 <= m < edges1.len() && edges1[m] == e;
                assert(edges1[m] == (t[key(u)], t[key(v)]) || edges1[m] == (t[key(v)], t[key(u)]));
            }
            assert(self@.cells =~= old(self)@.with(c, occ).cells);
        }
    }

    /// Adds an edge from the cell `(x, y)` to each of its four neighbours
    /// that is free.
    fn add_edges_with(&mut self, x: i32, y: i32)
        requires
            old(self).base_wf(),
            free_cell(
                store_rows(old(self).occ),
                old(self).width as int,
                old(self).height as int,
                Position { x, y },
            ),
            edges_grown(
                table_pairs(old(self).nodes),
                store_rows(old(self).occ),
                old(self).width as int,
                old(self).height as int,
                graph_edges(old(self).graph),
                Position { x, y },
                0,
            ),
        ensures
            final(self).wf(),
            final(self).occ == old(self).occ,
            final(self).nodes == old(self).nodes,
            final(self).width == old(self).width,
            final(self).height == old(self).height,
            final(self).path_limit == old(self).path_limit,
    {
        let ghost c = Position { x, y };
        let ghost t = table_pairs(self.nodes);
        let ghost rows = store_rows(self.occ);
        let ghost w = self.width as int;
        let ghost h = self.height as int;
        let ghost order = graph_order(self.graph);
        proof {
            assert(t.contains_key((x, y)));
        }
        let n: usize = table_right_of(&self.nodes, (x, y)).unwrap();
        if x < self.width - 1 && !self.isset(x + 1, y) {
            proof {
                assert(neighbour(c, 0) == Position { x: (x + 1) as i32, y });
                assert(t.contains_key(key(neighbour(c, 0))));
                lemma_edge_count(t, rows, w, h, order, graph_edges(self.graph));
                lemma_grown_push(t, rows, w, h, order, graph_edges(self.graph), c, 0);
            }
            let m: usize = table_right_of(&self.nodes, (x + 1, y)).unwrap();
            graph_add_edge(&mut self.graph, n, m);
        } else {
            proof {
                lemma_grown_skip(t, rows, w, h, graph_edges(self.graph), c, 0);
            }
        }
        if y < self.height - 1 && !self.isset(x, y + 1) {
            proof {
                assert(neighbour(c, 1) == Position { x, y: (y + 1) as i32 });
                assert(t.contains_key(key(neighbour(c, 1))));
                lemma_edge_count(t, rows, w, h, order, graph_edges(self.graph));
                lemma_grown_push(t, rows, w, h, order, graph_edges(self.graph), c, 1);
            }
            let m: usize = table_right_of(&self.nodes, (x, y + 1)).unwrap();
            graph_add_edge(&mut self.graph, n, m);
        } else {
            proof {
                lemma_grown_skip(t, rows, w, h, graph_edges(self.graph), c, 1);
            }
        }
        if x > 0 && !self.isset(x - 1, y) {
            proof {
                assert(neighbour(c, 2) == Position { x: (x - 1) as i32, y });
                assert(t.contains_key(key(neighbour(c, 2))));
                lemma_edge_count(t, rows, w, h, order, graph_edges(self.graph));
                lemma_grown_push(t, rows, w, h, order, graph_edges(self.graph), c, 2);
            }
            let m: usize = table_right_of(&self.nodes, (x - 1, y)).unwrap();
            graph_add_edge(&mut self.graph, n, m);
        } else {
            proof {
                lemma_grown_skip(t, rows, w, h, graph_edges(self.graph), c, 2);
            }
        }
        if y > 0 && !self.isset(x, y - 1) {
            proof {
                assert(neighbour(c, 3) == Position { x, y: (y - 1) as i32 });
                assert(t.contains_key(key(neighbour(c, 3))));
                lemma_edge_count(t, rows, w, h, order, graph_edges(self.graph));
                lemma_grown_push(t, rows, w, h, order, graph_edges(self.graph), c, 3);
            }
            let m: usize = table_right_of(&self.nodes, (x, y - 1)).unwrap();
            graph_add_edge(&mut self.graph, n, m);
        } else {
            proof {
                lemma_grown_skip(t, rows, w, h, graph_edges(self.graph), c, 3);
            }
        }
        proof {
            lemma_grown_all(t, rows, w, h, graph_edges(self.graph), c);
        }
    }

    /// Frees the cell `(x, y)`, which must be occupied, and returns the
    /// occupant it had; the cell gets an edge to each free neighbour.
    /// Outside the arena nothing is recorded and nothing comes back.
    pub fn unset(&mut self, x: i32, y: i32) -> (former: Option<Occupancy>)
        requires
            old(self).wf(),
            old(self)@.in_range(Position { x, y }) ==> old(self)@.cells.contains_key(
                Position { x, y },
            ),
        ensures
            final(self).wf(),
            final(self)@ == old(self)@.without(Position { x, y }),
            former == old(self)@.occupant(Position { x, y }),
    {
        let ghost c = Position { x, y };
        if x >= self.width || x < 0 || y >= self.height || y < 0 {
            proof {
                assert(self@.cells =~= old(self)@.without(c).cells);
            }
            return None;
        }
        let ghost t = table_pairs(self.nodes);
        let ghost rows0 = store_rows(self.occ);
        let ghost edges = graph_edges(self.graph);
        let ghost w = self.width as int;
        let ghost h = self.height as int;
        let former = store_get(&self.occ, x as usize, y as usize);
        store_put(&mut self.occ, x as usize, y as usize, None);
        let ghost rows1 = store_rows(self.occ);
        proof {
            assert(store_has_shape(self.occ, self.width as nat, self.height as nat));
            assert forall|p: Position| p != c implies free_cell(rows1, w, h, p) == free_cell(
                rows0,
                w,
                h,
                p,
            ) by {}
            assert forall|i: int| 0 <= i < edges.len() implies sound_edge(
                t,
                rows1,
                w,
                h,
                #[trigger] edges[i],
            ) by {
                assert(sound_edge(t, rows0, w, h, edges[i]));
            }
            assert forall|u: Position, v: Position| #[trigger]
                open_pair(rows1, w, h, u, v) && Some(c) != Some(u) && Some(c) != Some(
                    v,
                ) implies joined(edges, t[key(u)], t[key(v)]) by {
                assert(open_pair(rows0, w, h, u, v));
            }
            assert forall|n: int| 0 <= n < edges.len() implies !touches(
                #[trigger] edges[n],
                t[key(c)],
            ) by {
                assert(sound_edge(t, rows0, w, h, edges[n]));
                assert(t.contains_key(key(c)));
            }
        }
        self.add_edges_with(x, y);
        proof {
            assert(self@.cells =~= old(self)@.without(c).cells);
        }
        former
    }

    /// Frees the cell `(x, y)` if it is occupied and returns the occupant it
    /// had. On a cell that is free or outside the arena nothing changes and
    /// nothing comes back.
    pub fn unset_maybe(&mut self, x: i32, y: i32) -> (former: Option<Occupancy>)
        requires
            old(self).wf(),
        ensures
            final(self).wf(),
            final(self)@ == old(self)@.without(Position { x, y }),
            former == old(self)@.occupant(Position { x, y }),
    {
        if !self.isset(x, y) {
            proof {
                assert(self@.cells =~= old(self)@.without(Position { x, y }).cells);
            }
            return None;
        }
        self.unset(x, y)
    }

    /// The first route that the search in the graph finds from `start` to
    /// `goal` over free cells, within the bound on the length of routes.
    /// There is none when either cell is occupied or outside the arena, and
    /// none from a cell to itself.
    pub fn route(&self, start: Position, goal: Position) -> (found: Option<Vec<Position>>)
        requires
            self.wf(),
        ensures
            match found {
                Some(path) => self@.is_route(start, goal, path@),
                None => forall|path: Seq<Position>| !self@.is_route(start, goal, path),
            },
    {
        let ghost t = table_pairs(self.nodes);
        let ghost edges = graph_edges(self.graph);
        if start.x == goal.x && start.y == goal.y {
            proof {
                assert forall|path: Seq<Position>| !self@.is_route(start, goal, path) by {
                    if self@.is_route(start, goal, path) {
                        let full = seq![start] + path;
                        assert(full[0] == start);
                        assert(full[path.len() as int] == goal);
                    }
                }
            }
            return None;
        }
        if self.path_limit == 0 || start.x < 0 || start.x >= self.width || start.y < 0 || start.y
            >= self.height || goal.x < 0 || goal.x >= self.width || goal.y < 0 || goal.y
            >= self.height {
            proof {
                assert forall|path: Seq<Position>| !self@.is_route(start, goal, path) by {
                    if self@.is_route(start, goal, path) {
                        assert(self@.is_free(path[path.len() - 1]));
                    }
                }
            }
            return None;
        }
        proof {
            assert(t.contains_key(key(start)));
            assert(t.contains_key(key(goal)));
        }
        let a: usize = table_right_of(&self.nodes, (start.x, start.y)).unwrap();
        let b: usize = table_right_of(&self.nodes, (goal.x, goal.y)).unwrap();
        match graph_first_path(&self.graph, a, b, self.path_limit - 1) {
            None => {
                proof {
                    assert forall|path: Seq<Position>| !self@.is_route(start, goal, path) by {
                        if self@.is_route(start, goal, path) {
                            self.lemma_route_is_path(start, goal, path);
                        }
                    }
                }
                None
            },
            Some(p) => {
                let mut path: Vec<Position> = Vec::new();
                let mut k: usize = 1;
                while k < p.len()
                    invariant
                        self.wf(),
                        t == table_pairs(self.nodes),
                        edges == graph_edges(self.graph),
                        simple_path(edges, p@, a, b, self.path_limit - 1),
                        1 <= k <= p.len(),
                        path.len() == k - 1,
                        forall|m: int| 0 <= m < path.len() ==> #[trigger] path[m] == cell_of(t, p[m + 1]),
                    decreases p.len() - k,
                {
                    proof {
                        self.lemma_path_node(p@, k as int);
                    }
                    let (cx, cy) = table_left_of(&self.nodes, p[k]).unwrap();
                    path.push(Position { x: cx, y: cy });
                    k += 1;
                }
                proof {
                    self.lemma_path_is_route(start, goal, p@, path@);
                }
                Some(path)
            },
        }
    }

    /// Every node of a simple path in the graph is the node of exactly one
    /// cell, which is free.
    proof fn lemma_path_node(&self, p: Seq<usize>, k: int)
        requires
            self.wf(),
            p.len() >= 2,
            forall|m: int| 0 <= m < p.len() - 1 ==> #[trigger] hop(graph_edges(self.graph), p, m),
            0 <= k < p.len(),
        ensures
            table_pairs(self.nodes).contains_key(key(cell_of(table_pairs(self.nodes), p[k]))),
            table_pairs(self.nodes)[key(cell_of(table_pairs(self.nodes), p[k]))] == p[k],
            free_cell(
                store_rows(self.occ),
                self.width as int,
                self.height as int,
                cell_of(table_pairs(self.nodes), p[k]),
            ),
            forall|l: (i32, i32)|
                table_pairs(self.nodes).contains_key(l) && table_pairs(self.nodes)[l] == p[k] ==> l
                    == key(cell_of(table_pairs(self.nodes), p[k])),
    {
        let t = table_pairs(self.nodes);
        let edges = graph_edges(self.graph);
        let m = if k < p.len() - 1 {
            k
        } else {
            k - 1
        };
        assert(hop(edges, p, m));
        let i = choose|i: int|
            0 <= i < edges.len() && (#[trigger] edges[i] == (p[m], p[m + 1]) || edges[i] == (
                p[m + 1],
                p[m],
            ));
        assert(sound_edge(t, store_rows(self.occ), self.width as int, self.height as int, edges[i]));
    }

    /// A simple path in the graph, taken cell by cell without its first
    /// node, is a route.
    proof fn lemma_path_is_route(
        &self,
        start: Position,
        goal: Position,
        p: Seq<usize>,
        path: Seq<Position>,
    )
        requires
            self.wf(),
            self@.in_range(start),
            self@.in_range(goal),
            simple_path(
                graph_edges(self.graph),
                p,
                table_pairs(self.nodes)[key(start)],
                table_pairs(self.nodes)[key(goal)],
                self.path_limit - 1,
            ),
            path.len() == p.len() - 1,
            forall|m: int|
                0 <= m < path.len() ==> #[trigger] path[m] == cell_of(
                    table_pairs(self.nodes),
                    p[m + 1],
                ),
        ensures
            self@.is_route(start, goal, path),
    {
        let t = table_pairs(self.nodes);
        let rows = store_rows(self.occ);
        let edges = graph_edges(self.graph);
        let w = self.width as int;
        let h = self.height as int;
        let order = graph_order(self.graph);
        let full = seq![start] + path;
        lemma_cell_of(t, w, h, order, start);
        lemma_cell_of(t, w, h, order, goal);
        assert forall|k: int| 0 <= k < full.len() implies full[k] == cell_of(t, p[k]) && free_cell(
            rows,
            w,
            h,
            #[trigger] full[k],
        ) && t[key(full[k])] == p[k] by {
            self.lemma_path_node(p, k);
            if k > 0 {
                assert(full[k] == path[k - 1]);
            }
        }
        assert forall|k: int| 0 <= k < path.len() implies self@.is_free(#[trigger] path[k]) by {
            assert(full[k + 1] == path[k]);
            assert(free_cell(rows, w, h, full[k + 1]));
        }
        assert(free_cell(rows, w, h, full[0]));
        assert(self@.is_free(start));
        assert forall|i: int, j: int| 0 <= i < full.len() && 0 <= j < full.len() && i != j implies full[i]
            != full[j] by {
            assert(free_cell(rows, w, h, full[i]));
            assert(free_cell(rows, w, h, full[j]));
        }
        assert forall|k: int| 0 <= k < full.len() - 1 implies #[trigger] step_ok(full, k) by {
            assert(hop(edges, p, k));
            let i = choose|i: int|
                0 <= i < edges.len() && (#[trigger] edges[i] == (p[k], p[k + 1]) || edges[i] == (
                    p[k + 1],
                    p[k],
                ));
            assert(sound_edge(t, rows, w, h, edges[i]));
            assert(free_cell(rows, w, h, full[k]));
            assert(free_cell(rows, w, h, full[k + 1]));
        }
        assert(path[path.len() - 1] == full[path.len() as int]);
    }

    /// A route, taken node by node with the node of its start in front, is a
    /// simple path in the graph.
    proof fn lemma_route_is_path(&self, start: Position, goal: Position, path: Seq<Position>)
        requires
            self.wf(),
            self@.is_route(start, goal, path),
        ensures
            exists|p: Seq<usize>| #[trigger]
                simple_path(
                    graph_edges(self.graph),
                    p,
                    table_pairs(self.nodes)[key(start)],
                    table_pairs(self.nodes)[key(goal)],
                    self.path_limit - 1,
                ),
    {
        let t = table_pairs(self.nodes);
        let rows = store_rows(self.occ);
        let edges = graph_edges(self.graph);
        let w = self.width as int;
        let h = self.height as int;
        let full = seq![start] + path;
        let p = Seq::new(full.len(), |k: int| t[key(full[k])]);
        assert forall|k: int| 0 <= k < full.len() implies free_cell(rows, w, h, #[trigger] full[k]) by {
            if k > 0 {
                assert(full[k] == path[k - 1]);
                assert(self@.is_free(path[k - 1]));
            }
        }
        assert forall|i: int, j: int| 0 <= i < p.len() && 0 <= j < p.len() && i != j implies p[i]
            != p[j] by {
            assert(free_cell(rows, w, h, full[i]));
            assert(free_cell(rows, w, h, full[j]));
            assert(t.contains_key(key(full[i])));
            assert(t.contains_key(key(full[j])));
            assert(full[i] != full[j]);
        }
        assert forall|k: int| 0 <= k < p.len() - 1 implies #[trigger] hop(edges, p, k) by {
            assert(step_ok(full, k));
            assert(free_cell(rows, w, h, full[k]));
            assert(free_cell(rows, w, h, full[k + 1]));
            assert(open_pair(rows, w, h, full[k], full[k + 1]));
        }
        assert(full[path.len() as int] == path[path.len() - 1]);
        assert(simple_path(edges, p, t[key(start)], t[key(goal)], self.path_limit - 1));
    }

    /// The number of steps of a shortest walk over free cells from `from`
    /// to `to`; none where no such walk joins them, and none for cells
    /// outside the arena.
    pub fn distance(&self, from: Position, to: Position) -> (steps: Option<usize>)
        requires
            self.wf(),
        ensures
            match steps {
                Some(d) => {
                    &&& exists|cells: Seq<Position>| #[trigger]
                        self@.is_free_walk(from, to, cells) && cells.len() == d + 1
                    &&& forall|cells: Seq<Position>| #[trigger]
                        self@.is_free_walk(from, to, cells) ==> cells.len() >= d + 1
                },
                None => forall|cells: Seq<Position>| !#[trigger] self@.is_free_walk(from, to, cells),
            },
    {
        let ghost t = table_pairs(self.nodes);
        let ghost edges = graph_edges(self.graph);
        if from.x < 0 || from.x >= self.width || from.y < 0 || from.y >= self.height || to.x < 0
            || to.x >= self.width || to.y < 0 || to.y >= self.height {
            proof {
                assert forall|cells: Seq<Position>| !#[trigger] self@.is_free_walk(
                    from,
                    to,
                    cells,
                ) by {
                    if self@.is_free_walk(from, to, cells) {
                        if cells.len() >= 2 {
                            assert(self@.free_step(cells, cells.len() - 2));
                        }
                    }
                }
            }
            return None;
        }
        proof {
            assert(t.contains_key(key(from)));
            assert(t.contains_key(key(to)));
        }
        let a: usize = table_right_of(&self.nodes, (from.x, from.y)).unwrap();
        let b: usize = table_right_of(&self.nodes, (to.x, to.y)).unwrap();
        let steps = graph_distance(&self.graph, a, b);
        proof {
            assert forall|cells: Seq<Position>| #[trigger]
                self@.is_free_walk(from, to, cells) implies exists|p: Seq<usize>| #[trigger]
                is_walk(edges, p, a, b) && p.len() == cells.len() by {
                self.lemma_cells_to_nodes(from, to, cells);
            }
            match steps {
                Some(d) => {
                    let p = choose|p: Seq<usize>| #[trigger]
                        is_walk(edges, p, a, b) && p.len() == d + 1;
                    self.lemma_nodes_to_cells(from, to, p);
                    assert forall|cells: Seq<Position>| #[trigger]
                        self@.is_free_walk(from, to, cells) implies cells.len() >= d + 1 by {
                        let q = choose|q: Seq<usize>| #[trigger]
                            is_walk(edges, q, a, b) && q.len() == cells.len();
                        assert(is_walk(edges, q, a, b));
                    }
                },
                None => {
                    assert forall|cells: Seq<Position>| !#[trigger] self@.is_free_walk(
                        from,
                        to,
                        cells,
                    ) by {
                        if self@.is_free_walk(from, to, cells) {
                            let q = choose|q: Seq<usize>| #[trigger]
                                is_walk(edges, q, a, b) && q.len() == cells.len();
                            assert(is_walk(edges, q, a, b));
                        }
                    }
                },
            }
        }
        steps
    }

    /// A walk over free cells, taken node by node, is a walk in the graph of
    /// the same length.
    proof fn lemma_cells_to_nodes(&self, from: Position, to: Position, cells: Seq<Position>)
        requires
            self.wf(),
            self@.is_free_walk(from, to, cells),
        ensures
            exists|p: Seq<usize>| #[trigger]
                is_walk(
                    graph_edges(self.graph),
                    p,
                    table_pairs(self.nodes)[key(from)],
                    table_pairs(self.nodes)[key(to)],
                ) && p.len() == cells.len(),
    {
        let t = table_pairs(self.nodes);
        let rows = store_rows(self.occ);
        let edges = graph_edges(self.graph);
        let w = self.width as int;
        let h = self.height as int;
        let p = Seq::new(cells.len(), |k: int| t[key(cells[k])]);
        assert forall|k: int| 0 <= k < p.len() - 1 implies #[trigger] hop(edges, p, k) by {
            assert(self@.free_step(cells, k));
            assert(open_pair(rows, w, h, cells[k], cells[k + 1]));
        }
        assert(is_walk(edges, p, t[key(from)], t[key(to)]) && p.len() == cells.len());
    }

    /// A walk in the graph between the nodes of two cells of the arena,
    /// taken cell by cell, is a walk over free cells of the same length.
    proof fn lemma_nodes_to_cells(&self, from: Position, to: Position, p: Seq<usize>)
        requires
            self.wf(),
            self@.in_range(from),
            self@.in_range(to),
            is_walk(
                graph_edges(self.graph),
                p,
                table_pairs(self.nodes)[key(from)],
                table_pairs(self.nodes)[key(to)],
            ),
        ensures
            exists|cells: Seq<Position>| #[trigger]
                self@.is_free_walk(from, to, cells) && cells.len() == p.len(),
    {
        let t = table_pairs(self.nodes);
        let rows = store_rows(self.occ);
        let edges = graph_edges(self.graph);
        let w = self.width as int;
        let h = self.height as int;
        let order = graph_order(self.graph);
        let cells = Seq::new(p.len(), |k: int| cell_of(t, p[k]));
        lemma_cell_of(t, w, h, order, from);
        lemma_cell_of(t, w, h, order, to);
        assert forall|k: int| 0 <= k < cells.len() - 1 implies #[trigger] self@.free_step(
            cells,
            k,
        ) by {
            assert(hop(edges, p, k));
            let i = choose|i: int|
                0 <= i < edges.len() && (#[trigger] edges[i] == (p[k], p[k + 1]) || edges[i] == (
                    p[k + 1],
                    p[k],
                ));
            assert(sound_edge(t, rows, w, h, edges[i]));
        }
        assert(self@.is_free_walk(from, to, cells) && cells.len() == p.len());
    }

    /// The view of an arena that keeps its invariant is well formed.
    pub proof fn lemma_view_wf(&self)
        requires
            self.wf(),
        ensures
            self@.wf(),
    {
    }

    /// The graph has an edge between two cells exactly when they are
    /// neighbours and both are free.
    pub proof fn lemma_edges_match_occupancy(&self, u: Position, v: Position)
        requires
            self.wf(),
        ensures
            self.has_edge(u, v) <==> (adjacent(u, v) && self@.is_free(u) && self@.is_free(v)),
    {
        let t = table_pairs(self.nodes);
        let rows = store_rows(self.occ);
        let edges = graph_edges(self.graph);
        let w = self.width as int;
        let h = self.height as int;
        let order = graph_order(self.graph);
        if self.has_edge(u, v) {
            lemma_cell_of(t, w, h, order, u);
            lemma_cell_of(t, w, h, order, v);
            let i = choose|i: int|
                0 <= i < edges.len() && (#[trigger] edges[i] == (t[key(u)], t[key(v)]) || edges[i]
                    == (t[key(v)], t[key(u)]));
            assert(sound_edge(t, rows, w, h, edges[i]));
        }
        if adjacent(u, v) && self@.is_free(u) && self@.is_free(v) {
            assert(open_pair(rows, w, h, u, v));
        }
    }
}

/// One change to the occupancy of an arena.
pub enum GridOp {
    /// An occupant takes a free cell.
    Take(Position, Occupancy),
    /// An occupied cell is freed.
    Release(Position),
}

impl ArenaView {
    /// The arena after one change, as `set` and `unset` make it.
    pub open spec fn after(self, op: GridOp) -> ArenaView {
        match op {
            GridOp::Take(p, occ) => self.with(p, occ),
            GridOp::Release(p) => self.without(p),
        }
    }

    /// The change may be made: `set` takes a cell that is not occupied, and
    /// `unset` a cell that is occupied or lies outside the arena.
    pub open spec fn allows(self, op: GridOp) -> bool {
        match op {
            GridOp::Take(p, _) => !self.cells.contains_key(p),
            GridOp::Release(p) => self.in_range(p) ==> self.cells.contains_key(p),
        }
    }

    /// The arena after a sequence of changes, the first one first.
    pub open spec fn after_all(self, ops: Seq<GridOp>) -> ArenaView
        decreases ops.len(),
    {
        if ops.len() == 0 {
            self
        } else {
            self.after_all(ops.drop_last()).after(ops.last())
        }
    }

    /// Each change of the sequence may be made when its turn comes.
    pub open spec fn allows_all(self, ops: Seq<GridOp>) -> bool
        decreases ops.len(),
    {
        ops.len() == 0 || (self.allows_all(ops.drop_last()) && self.after_all(
            ops.drop_last(),
        ).allows(ops.last()))
    }
}

/// What `unset` hands back at a cell of the arena is the occupant that the
/// last `set` recorded there: whatever is set and unset in between, as long
/// as that cell is not unset, its occupant stays.
pub proof fn lemma_unset_returns_last_set(
    v: ArenaView,
    p: Position,
    occ: Occupancy,
    ops: Seq<GridOp>,
)
    requires
        v.in_range(p),
        v.with(p, occ).allows_all(ops),
        forall|i: int| 0 <= i < ops.len() ==> #[trigger] ops[i] != GridOp::Release(p),
    ensures
        v.with(p, occ).after_all(ops).occupant(p) == Some(occ),
        v.with(p, occ).after_all(ops).in_range(p),
    decreases ops.len(),
{
    if ops.len() > 0 {
        let front = ops.drop_last();
        assert forall|i: int| 0 <= i < front.len() implies #[trigger] front[i] != GridOp::Release(
            p,
        ) by {
            assert(front[i] == ops[i]);
        }
        lemma_unset_returns_last_set(v, p, occ, front);
        assert(ops.last() == ops[ops.len() - 1]);
    }
}

} // verus!
