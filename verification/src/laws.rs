use vstd::prelude::*;

use crate::graph::{
    live_count, pos_adjacent, pos_in_bounds, total_cells, Graph, Position,
};
use crate::grid::Grid;

// The laws of the component graph: what holds of every graph the library
// builds, across any sequence of merges.

verus! {

/// Rebuilding a grid from the per-component cell sets and colours of a
/// graph that agrees with the original grid reproduces that grid exactly,
/// cell for cell.
pub proof fn lemma_grid_round_trip(g: Graph, grid: Grid, rebuilt: Grid)
    requires
        g.wf(),
        grid.wf(),
        rebuilt.wf(),
        g.agrees_with(grid),
        g.agrees_with(rebuilt),
    ensures
        rebuilt.number_of_rows == grid.number_of_rows,
        rebuilt.number_of_columns == grid.number_of_columns,
        rebuilt.cells@ == grid.cells@,
{
    let rows = g.rows@;
    let cols = g.cols@;
    assert(grid.cells@.len() == rows * cols);
    assert(rebuilt.cells@.len() == rows * cols);
    assert forall|n: int| 0 <= n < grid.cells@.len() implies rebuilt.cells@[n]
        == grid.cells@[n] by {
        crate::graph::lemma_index_decompose(n, rows, cols);
        let p = crate::graph::pos_of_index(n, cols);
        assert(g.colour_of_pos(p) == grid.colour_at(p));
        assert(g.colour_of_pos(p) == rebuilt.colour_at(p));
    }
    assert(rebuilt.cells@ =~= grid.cells@);
}

/// The adjacency map's key set equals the component map's key set, and no
/// component is its own neighbour.
pub proof fn lemma_key_sets_agree(g: Graph)
    requires
        g.wf(),
    ensures
        g.components@.len() == g.neighbours@.len(),
        forall|i: int|
            0 <= i < g.components@.len() ==> ((#[trigger] g.components@[i]) is Some
                <==> g.neighbours@[i] is Some),
        forall|i: int, j: int| g.live(i) && #[trigger] g.nbr_mem(i, j) ==> j != i,
{
    assert forall|i: int, j: int| g.live(i) && #[trigger] g.nbr_mem(i, j) implies j != i by {
        let k = choose|k: int| 0 <= k < g.nbrs(i).len() && #[trigger] g.nbrs(i)[k] as int == j;
    }
}

/// Every id recorded as a neighbour names a live component: the adjacency
/// map holds no dangling references.
pub proof fn lemma_no_dangling_neighbours(g: Graph)
    requires
        g.wf(),
    ensures
        forall|i: int, j: int| g.live(i) && #[trigger] g.nbr_mem(i, j) ==> g.live(j),
{
    assert forall|i: int, j: int| g.live(i) && #[trigger] g.nbr_mem(i, j) implies g.live(j) by {
        let k = choose|k: int| 0 <= k < g.nbrs(i).len() && #[trigger] g.nbrs(i)[k] as int == j;
    }
}

/// On a grid of a single colour, every cell is owned by the component of
/// the top-left cell.
proof fn lemma_mono_same_owner(g: Graph, grid: Grid, p: Position)
    requires
        g.wf(),
        grid.wf(),
        g.agrees_with(grid),
        forall|p1: Position, q1: Position|
            pos_in_bounds(p1, g.rows@, g.cols@) && pos_in_bounds(q1, g.rows@, g.cols@)
                && #[trigger] pos_adjacent(p1, q1) && grid.colour_at(p1) == grid.colour_at(q1)
                ==> g.owner@[p1] == g.owner@[q1],
        forall|p1: Position, q1: Position|
            #![trigger grid.colour_at(p1), grid.colour_at(q1)]
            pos_in_bounds(p1, g.rows@, g.cols@) && pos_in_bounds(q1, g.rows@, g.cols@)
                ==> grid.colour_at(p1) == grid.colour_at(q1),
        pos_in_bounds(p, g.rows@, g.cols@),
    ensures
        g.owner@[p] == g.owner@[Position { row: 0, column: 0 }],
    decreases p.row + p.column,
{
    if p.column > 0 {
        let q = Position { row: p.row, column: (p.column - 1) as usize };
        assert(pos_adjacent(q, p));
        assert(grid.colour_at(q) == grid.colour_at(p));
        lemma_mono_same_owner(g, grid, q);
    } else if p.row > 0 {
        let q = Position { row: (p.row - 1) as usize, column: 0 };
        assert(pos_adjacent(q, p));
        assert(grid.colour_at(q) == grid.colour_at(p));
        lemma_mono_same_owner(g, grid, q);
    } else {
        assert(p == (Position { row: 0, column: 0 }));
    }
}

/// An arena with exactly one live slot counts one component.
proof fn lemma_live_count_single(
    s: Seq<Option<crate::graph::ConnectedComponent>>,
    a: int,
)
    requires
        0 <= a < s.len(),
        s[a] is Some,
        forall|i: int| 0 <= i < s.len() && i != a ==> (#[trigger] s[i]) is None,
    ensures
        live_count(s) == 1,
    decreases s.len(),
{
    if a == s.len() - 1 {
        lemma_live_count_none(s.drop_last());
    } else {
        lemma_live_count_single(s.drop_last(), a);
        assert(s.last() is None);
    }
}

/// An arena with no live slot counts no components.
proof fn lemma_live_count_none(s: Seq<Option<crate::graph::ConnectedComponent>>)
    requires
        forall|i: int| 0 <= i < s.len() ==> (#[trigger] s[i]) is None,
    ensures
        live_count(s) == 0,
    decreases s.len(),
{
    if s.len() > 0 {
        lemma_live_count_none(s.drop_last());
    }
}

/// An arena whose live slots all carry one id counts at most one
/// component.
proof fn lemma_live_count_at_most_one(
    s: Seq<Option<crate::graph::ConnectedComponent>>,
    a: int,
)
    requires
        forall|i: int| 0 <= i < s.len() && i != a ==> (#[trigger] s[i]) is None,
    ensures
        live_count(s) <= 1,
    decreases s.len(),
{
    if s.len() > 0 {
        lemma_live_count_at_most_one(s.drop_last(), a);
        if s.last() is Some {
            assert(a == s.len() - 1);
            lemma_live_count_none(s.drop_last());
        }
    }
}

/// A grid of a single colour, whatever its size, produces exactly one
/// component, and that component's neighbour set is empty.
pub proof fn lemma_single_colour_one_component(g: Graph, grid: Grid)
    requires
        g.wf(),
        grid.wf(),
        g.agrees_with(grid),
        forall|p1: Position, q1: Position|
            pos_in_bounds(p1, g.rows@, g.cols@) && pos_in_bounds(q1, g.rows@, g.cols@)
                && #[trigger] pos_adjacent(p1, q1) && grid.colour_at(p1) == grid.colour_at(q1)
                ==> g.owner@[p1] == g.owner@[q1],
        forall|p1: Position, q1: Position|
            #![trigger grid.colour_at(p1), grid.colour_at(q1)]
            pos_in_bounds(p1, g.rows@, g.cols@) && pos_in_bounds(q1, g.rows@, g.cols@)
                ==> grid.colour_at(p1) == grid.colour_at(q1),
    ensures
        g.count() == 1,
        g.nbrs(g.owner@[Position { row: 0, column: 0 }]).len() == 0,
{
    let origin = Position { row: 0, column: 0 };
    assert(pos_in_bounds(origin, g.rows@, g.cols@));
    let a = g.owner@[origin];
    assert(g.owner@.contains_key(origin));
    assert(g.live(a));
    assert forall|i: int| 0 <= i < g.components@.len() && i != a implies (#[trigger]
    g.components@[i]) is None by {
        if g.components@[i] is Some {
            assert(g.live(i));
            let p = g.comp(i).cells@[0];
            assert(g.comp(i).cells@.contains(p));
            assert(pos_in_bounds(p, g.rows@, g.cols@));
            assert(g.owner@[p] == i);
            lemma_mono_same_owner(g, grid, p);
        }
    }
    lemma_live_count_single(g.components@, a);
    if g.nbrs(a).len() > 0 {
        let j = g.nbrs(a)[0] as int;
        assert(g.live(j) && j != a);
        assert(g.components@[j] is Some);
    }
}

/// Across any sequence of merges, the cells summed over all components
/// always cover the grid exactly: well-formedness carries the conservation
/// law, and both graph construction and every merge preserve it.
pub proof fn lemma_cells_conserved(g: Graph)
    requires
        g.wf(),
    ensures
        total_cells(g.components@) == g.rows@ * g.cols@,
{
}

/// While more than one component remains, the component owning some cell
/// still has a frontier: walking from the anchor to a cell of another
/// component crosses an edge between two differently owned cells.
proof fn lemma_frontier(g: Graph, q: Position)
    requires
        g.wf(),
        pos_in_bounds(q, g.rows@, g.cols@),
        g.owner@[q] != g.owner@[Position { row: 0, column: 0 }],
    ensures
        exists|x: Position, y: Position|
            {
                &&& pos_in_bounds(x, g.rows@, g.cols@)
                &&& pos_in_bounds(y, g.rows@, g.cols@)
                &&& #[trigger] pos_adjacent(x, y)
                &&& g.owner@[x] == g.owner@[Position { row: 0, column: 0 }]
                &&& g.owner@[y] != g.owner@[Position { row: 0, column: 0 }]
            },
    decreases q.row + q.column,
{
    let origin = Position { row: 0, column: 0 };
    let a = g.owner@[origin];
    if q.column > 0 {
        let pred = Position { row: q.row, column: (q.column - 1) as usize };
        assert(pos_adjacent(pred, q));
        if g.owner@[pred] == a {
            assert(pos_in_bounds(pred, g.rows@, g.cols@));
        } else {
            lemma_frontier(g, pred);
        }
    } else if q.row > 0 {
        let pred = Position { row: (q.row - 1) as usize, column: 0 };
        assert(pos_adjacent(pred, q));
        if g.owner@[pred] == a {
            assert(pos_in_bounds(pred, g.rows@, g.cols@));
        } else {
            lemma_frontier(g, pred);
        }
    } else {
        assert(q == origin);
    }
}

/// While the puzzle is unsolved, the anchor component has a neighbour, and
/// choosing that neighbour's colour makes the next merge absorb at least
/// one component.  Together with the merge contract -- the count drops by
/// the number of matched neighbours -- repeatedly choosing frontier
/// colours drives the component count down to one.
pub proof fn lemma_merge_progress(g: Graph)
    requires
        g.wf(),
        g.count() >= 2,
    ensures
        exists|j: int|
            {
                &&& #[trigger] g.nbr_mem(g.owner@[Position { row: 0, column: 0 }], j)
                &&& g.live(j)
                &&& g.matched_set(
                    g.owner@[Position { row: 0, column: 0 }],
                    g.comp(j).colour,
                ).contains(j)
                &&& g.matched_set(g.owner@[Position { row: 0, column: 0 }], g.comp(j).colour).len()
                    >= 1
            },
{
    let origin = Position { row: 0, column: 0 };
    assert(pos_in_bounds(origin, g.rows@, g.cols@));
    let a = g.owner@[origin];
    assert(g.owner@.contains_key(origin));
    assert(g.live(a));
    // some other component is live, else the count would be at most one
    assert(exists|b: int|
        0 <= b < g.components@.len() && b != a && (#[trigger] g.components@[b]) is Some) by {
        if forall|b: int|
            0 <= b < g.components@.len() && b != a ==> !((#[trigger] g.components@[b]) is Some) {
            lemma_live_count_at_most_one(g.components@, a);
        }
    }
    let b = choose|b: int|
        0 <= b < g.components@.len() && b != a && (#[trigger] g.components@[b]) is Some;
    assert(g.live(b));
    let q = g.comp(b).cells@[0];
    assert(g.comp(b).cells@.contains(q));
    assert(pos_in_bounds(q, g.rows@, g.cols@));
    assert(g.owner@[q] == b);
    lemma_frontier(g, q);
    let (x, y) = choose|x: Position, y: Position|
        {
            &&& pos_in_bounds(x, g.rows@, g.cols@)
            &&& pos_in_bounds(y, g.rows@, g.cols@)
            &&& #[trigger] pos_adjacent(x, y)
            &&& g.owner@[x] == a
            &&& g.owner@[y] != a
        };
    let j = g.owner@[y];
    assert(g.owner@.contains_key(x));
    assert(g.owner@.contains_key(y));
    assert(g.live(j));
    assert(g.comp(a).cells@.contains(x));
    assert(g.comp(j).cells@.contains(y));
    let kx = choose|kx: int| 0 <= kx < g.comp(a).cells@.len() && g.comp(a).cells@[kx] == x;
    let ky = choose|ky: int| 0 <= ky < g.comp(j).cells@.len() && g.comp(j).cells@[ky] == y;
    assert(pos_adjacent(g.comp(a).cells@[kx], g.comp(j).cells@[ky]));
    assert(g.touches(a, j));
    assert(g.nbr_mem(a, j));
    let c = g.comp(j).colour;
    let m = g.matched_set(a, c);
    assert(m.contains(j));
    g.lemma_matched_finite(a, c);
    assert(m.len() >= 1) by {
        if m.len() == 0 {
            vstd::set_lib::lemma_set_empty_equivalency_len(m);
            assert(m =~= Set::<int>::empty());
        }
    }
}

} // verus!
