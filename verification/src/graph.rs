use vstd::prelude::*;

use crate::colour::Colour;
use crate::grid::Grid;

// The state of the puzzle is kept as a graph of connected components.  Every
// maximal region of equally coloured, 4-connected cells is one component; two
// components are linked when some cell of one touches some cell of the other.
// The single mutating operation of the game recolours the component holding
// the top-left cell and folds every neighbouring component that already has
// the new colour into it.

verus! {

/// A cell position: row and column on the grid, row-major.
#[derive(Clone, Copy, Debug, Eq, PartialEq, Structural, Hash)]
pub struct Position {
    pub row: usize,
    pub column: usize,
}

/// Two positions touch iff they are at Manhattan distance one.
pub open spec fn pos_adjacent(p: Position, q: Position) -> bool {
    ||| (p.row == q.row && (p.column + 1 == q.column || q.column + 1 == p.column))
    ||| (p.column == q.column && (p.row + 1 == q.row || q.row + 1 == p.row))
}

/// Whether a position lies on a rows x cols grid.
pub open spec fn pos_in_bounds(p: Position, rows: int, cols: int) -> bool {
    p.row < rows && p.column < cols
}

/// The row-major cell index of a position.
pub open spec fn pos_index(p: Position, cols: int) -> int {
    p.row * cols + p.column
}

/// A sequence of cells is laid out in discovery order: every cell after the
/// first touches an earlier one, so the whole set is 4-connected.
pub open spec fn connect_order(cells: Seq<Position>) -> bool {
    forall|k: int|
        1 <= k < cells.len() ==> exists|m: int|
            0 <= m < k && pos_adjacent(cells[m], #[trigger] cells[k])
}

/// One maximal same-coloured connected region of the grid.  Its id is
/// assigned once at discovery and never changes, even as merging grows the
/// cell set; the id decides identity, not the contents.
#[derive(Debug)]
pub struct ConnectedComponent {
    pub id: usize,
    pub colour: Colour,
    pub cells: Vec<Position>,
}

impl PartialEq for ConnectedComponent {
    /// Components are the same exactly when their ids are: the cell set and
    /// colour of a component change over its lifetime, the id does not.
    fn eq(&self, other: &Self) -> bool {
        self.id == other.id
    }
}

impl Eq for ConnectedComponent {

}

impl vstd::std_specs::cmp::PartialEqSpecImpl for ConnectedComponent {
    open spec fn obeys_eq_spec() -> bool {
        true
    }

    open spec fn eq_spec(&self, other: &Self) -> bool {
        self.id == other.id
    }
}

/// The number of cells a slot of the component arena holds.
pub open spec fn opt_comp_cells(o: Option<ConnectedComponent>) -> int {
    match o {
        Option::Some(c) => c.cells@.len() as int,
        Option::None => 0,
    }
}

/// Total number of cells over the whole component arena.
pub open spec fn total_cells(s: Seq<Option<ConnectedComponent>>) -> int
    decreases s.len(),
{
    if s.len() == 0 {
        0
    } else {
        total_cells(s.drop_last()) + opt_comp_cells(s.last())
    }
}

/// Number of live (still present) components in the arena.
pub open spec fn live_count(s: Seq<Option<ConnectedComponent>>) -> int
    decreases s.len(),
{
    if s.len() == 0 {
        0
    } else {
        live_count(s.drop_last()) + (if s.last() is Some {
            1int
        } else {
            0int
        })
    }
}

/// The component graph: component payloads and adjacency sets, both indexed
/// by the same id space.  A slot is None once its component has been folded
/// into another; ids are never reused.
pub struct Graph {
    pub components: Vec<Option<ConnectedComponent>>,
    pub neighbours: Vec<Option<Vec<usize>>>,
    /// Height of the grid this graph partitions.
    pub rows: Ghost<int>,
    /// Width of the grid this graph partitions.
    pub cols: Ghost<int>,
    /// Which component id owns each in-bounds cell.
    pub owner: Ghost<Map<Position, int>>,
}

impl Graph {
    /// Id i currently names a component.
    pub open spec fn live(self, i: int) -> bool {
        0 <= i < self.components@.len() && self.components@[i] is Some
    }

    /// The component with id i.
    pub open spec fn comp(self, i: int) -> ConnectedComponent {
        self.components@[i]->Some_0
    }

    /// The adjacency list of component i.
    pub open spec fn nbrs(self, i: int) -> Seq<usize> {
        self.neighbours@[i]->Some_0@
    }

    /// Component j is recorded as a neighbour of component i.
    pub open spec fn nbr_mem(self, i: int, j: int) -> bool {
        exists|k: int| 0 <= k < self.nbrs(i).len() && #[trigger] self.nbrs(i)[k] as int == j
    }

    /// Some cell of component i touches some cell of component j.
    pub open spec fn touches(self, i: int, j: int) -> bool {
        exists|k1: int, k2: int|
            0 <= k1 < self.comp(i).cells@.len() && 0 <= k2 < self.comp(j).cells@.len()
                && pos_adjacent(
                #[trigger] self.comp(i).cells@[k1],
                #[trigger] self.comp(j).cells@[k2],
            )
    }

    /// The two arenas describe the same id space over a non-empty grid.
    pub open spec fn inv_shape(self) -> bool {
        &&& self.components@.len() == self.neighbours@.len()
        &&& 1 <= self.rows@
        &&& 1 <= self.cols@
        &&& self.rows@ * self.cols@ <= usize::MAX
        &&& forall|i: int|
            0 <= i < self.components@.len() ==> ((#[trigger] self.components@[i]) is Some
                <==> self.neighbours@[i] is Some)
        &&& forall|i: int| #[trigger] self.live(i) ==> self.comp(i).id == i
    }

    /// Every in-bounds cell belongs to exactly one live component, recorded
    /// in the owner map; every component owns only in-bounds cells, each
    /// once, and owns at least one.
    pub open spec fn inv_partition(self) -> bool {
        &&& forall|p: Position|
            pos_in_bounds(p, self.rows@, self.cols@) ==> {
                &&& #[trigger] self.owner@.contains_key(p)
                &&& self.live(self.owner@[p])
                &&& self.comp(self.owner@[p]).cells@.contains(p)
            }
        &&& forall|p: Position| #[trigger]
            self.owner@.contains_key(p) ==> pos_in_bounds(p, self.rows@, self.cols@)
        &&& forall|i: int, k: int|
            self.live(i) && 0 <= k < self.comp(i).cells@.len() ==> {
                let p = #[trigger] self.comp(i).cells@[k];
                &&& pos_in_bounds(p, self.rows@, self.cols@)
                &&& self.owner@[p] == i
            }
        &&& forall|i: int| #[trigger]
            self.live(i) ==> self.comp(i).cells@.no_duplicates() && self.comp(i).cells@.len() >= 1
    }

    /// Adjacency sets mention only other live components, symmetrically,
    /// without repetition, and record exactly the pairs of components whose
    /// cells touch on the grid.
    pub open spec fn inv_adjacency(self) -> bool {
        &&& forall|i: int, k: int|
            self.live(i) && 0 <= k < self.nbrs(i).len() ==> {
                let j = #[trigger] self.nbrs(i)[k] as int;
                &&& self.live(j)
                &&& j != i
                &&& self.nbr_mem(j, i)
                &&& self.touches(i, j)
            }
        &&& forall|i: int| #[trigger] self.live(i) ==> self.nbrs(i).no_duplicates()
        &&& forall|i: int, j: int|
            self.live(i) && self.live(j) && i != j && #[trigger] self.touches(i, j)
                ==> self.nbr_mem(i, j)
    }

    /// The well-formedness of the whole graph: both maps share one key set,
    /// the components partition the grid without losing or duplicating a
    /// cell, and adjacency is the symmetric touching relation.
    pub open spec fn wf(self) -> bool {
        &&& self.inv_shape()
        &&& self.inv_partition()
        &&& self.inv_adjacency()
        &&& total_cells(self.components@) == self.rows@ * self.cols@
    }

    /// How many components remain.
    pub open spec fn count(self) -> int {
        live_count(self.components@)
    }

    /// The colour the graph assigns to an in-bounds cell: the colour of the
    /// component owning it.
    pub open spec fn colour_of_pos(self, p: Position) -> Colour {
        self.comp(self.owner@[p]).colour
    }

    /// The graph reproduces a grid: same shape, and every cell is owned by a
    /// component of that cell's grid colour.
    pub open spec fn agrees_with(self, grid: Grid) -> bool {
        &&& self.rows@ == grid.number_of_rows
        &&& self.cols@ == grid.number_of_columns
        &&& forall|p: Position|
            pos_in_bounds(p, self.rows@, self.cols@) ==> #[trigger] self.colour_of_pos(p)
                == grid.colour_at(p)
    }
}

/// A row-major index stays below the grid area.
pub proof fn lemma_index_bound(r: int, c: int, rows: int, cols: int)
    requires
        0 <= r < rows,
        0 <= c < cols,
    ensures
        0 <= r * cols + c < rows * cols,
{
    assert(0 <= r * cols + c < rows * cols) by (nonlinear_arith)
        requires
            0 <= r < rows,
            0 <= c < cols,
    ;
}

/// Distinct in-bounds positions have distinct row-major indices.
pub proof fn lemma_index_injective(p: Position, q: Position, cols: int)
    requires
        p.column < cols,
        q.column < cols,
        pos_index(p, cols) == pos_index(q, cols),
    ensures
        p == q,
{
    let pr = p.row as int;
    let pc = p.column as int;
    let qr = q.row as int;
    let qc = q.column as int;
    assert(pr == qr && pc == qc) by (nonlinear_arith)
        requires
            pr * cols + pc == qr * cols + qc,
            0 <= pc < cols,
            0 <= qc < cols,
            0 <= pr,
            0 <= qr,
    ;
}

/// The position a row-major index decomposes into.
pub open spec fn pos_of_index(n: int, cols: int) -> Position {
    Position { row: (n / cols) as usize, column: (n % cols) as usize }
}

/// Every index below the grid area is the row-major index of exactly one
/// in-bounds position.
pub proof fn lemma_index_decompose(n: int, rows: int, cols: int)
    requires
        0 <= n < rows * cols,
        1 <= cols,
        rows * cols <= usize::MAX,
    ensures
        pos_in_bounds(pos_of_index(n, cols), rows, cols),
        pos_index(pos_of_index(n, cols), cols) == n,
{
    vstd::arithmetic::div_mod::lemma_fundamental_div_mod(n, cols);
    vstd::arithmetic::div_mod::lemma_mod_division_less_than_divisor(n, cols);
    vstd::arithmetic::div_mod::lemma_div_pos_is_pos(n, cols);
    let r = n / cols;
    let m = n % cols;
    assert(r < rows && r <= n && r * cols + m == n) by (nonlinear_arith)
        requires
            n == cols * r + m,
            0 <= m < cols,
            0 <= r,
            0 <= n < rows * cols,
            1 <= cols,
    ;
    assert(pos_of_index(n, cols).row as int == r);
    assert(pos_of_index(n, cols).column as int == m);
}

/// How many entries of a boolean sequence are set.
pub open spec fn count_true(s: Seq<bool>) -> int
    decreases s.len(),
{
    if s.len() == 0 {
        0
    } else {
        count_true(s.drop_last()) + (if s.last() {
            1int
        } else {
            0int
        })
    }
}

pub proof fn lemma_count_true_bounds(s: Seq<bool>)
    ensures
        0 <= count_true(s) <= s.len(),
    decreases s.len(),
{
    if s.len() > 0 {
        lemma_count_true_bounds(s.drop_last());
    }
}

/// Setting one clear entry raises the count by one.
pub proof fn lemma_count_true_update(s: Seq<bool>, i: int)
    requires
        0 <= i < s.len(),
        !s[i],
    ensures
        count_true(s.update(i, true)) == count_true(s) + 1,
    decreases s.len(),
{
    let t = s.update(i, true);
    if i == s.len() - 1 {
        assert(t.drop_last() =~= s.drop_last());
    } else {
        lemma_count_true_update(s.drop_last(), i);
        assert(t.drop_last() =~= s.drop_last().update(i, true));
        assert(t.last() == s.last());
    }
}

/// A fully set sequence counts its whole length.
pub proof fn lemma_count_true_full(s: Seq<bool>)
    requires
        forall|n: int| 0 <= n < s.len() ==> s[n],
    ensures
        count_true(s) == s.len(),
    decreases s.len(),
{
    if s.len() > 0 {
        lemma_count_true_full(s.drop_last());
    }
}

/// The row-major index of an in-bounds position, as a machine integer.
fn index_of(p: Position, cols: usize, rows: Ghost<int>) -> (i: usize)
    requires
        p.column < cols,
        (p.row as int) < rows@,
        rows@ * (cols as int) <= usize::MAX,
    ensures
        i == pos_index(p, cols as int),
        (i as int) < rows@ * (cols as int),
{
    proof {
        lemma_index_bound(p.row as int, p.column as int, rows@, cols as int);
    }
    p.row * cols + p.column
}


/// A prefix keeps every element of the shorter sequence.
pub proof fn lemma_prefix_contains<T>(s1: Seq<T>, s2: Seq<T>, x: T)
    requires
        s1.is_prefix_of(s2),
        s1.contains(x),
    ensures
        s2.contains(x),
{
    let i = choose|i: int| 0 <= i < s1.len() && s1[i] == x;
    assert(s2[i] == x);
}

/// The set cells marked in a mask is closed under same-coloured adjacency:
/// regions already assigned never reach, with equal colour, into cells that
/// are still free.
pub open spec fn assigned_closed(grid: Grid, a0: Seq<bool>) -> bool {
    let rows = grid.number_of_rows as int;
    let cols = grid.number_of_columns as int;
    forall|p: Position, q: Position|
        pos_in_bounds(p, rows, cols) && pos_in_bounds(q, rows, cols) && #[trigger] pos_adjacent(
            p,
            q,
        ) && grid.colour_at(p) == grid.colour_at(q) && a0[pos_index(q, cols)] ==> a0[pos_index(
            p,
            cols,
        )]
}

/// The running state of one region traversal: the queue holds exactly the
/// cells assigned beyond the starting mask, all of the region's colour,
/// each recorded once and linked to an earlier one.
#[verifier::opaque]
pub open spec fn bfs_state_ok(
    grid: Grid,
    c0: Colour,
    a0: Seq<bool>,
    assigned: Seq<bool>,
    queue: Seq<Position>,
) -> bool {
    let rows = grid.number_of_rows as int;
    let cols = grid.number_of_columns as int;
    &&& assigned.len() == a0.len()
    &&& a0.len() == rows * cols
    &&& queue.no_duplicates()
    &&& connect_order(queue)
    &&& forall|k: int|
        0 <= k < queue.len() ==> {
            &&& pos_in_bounds(#[trigger] queue[k], rows, cols)
            &&& grid.colour_at(queue[k]) == c0
            &&& !a0[pos_index(queue[k], cols)]
        }
    &&& forall|p: Position| #![trigger pos_index(p, cols)]
        pos_in_bounds(p, rows, cols) ==> (assigned[pos_index(p, cols)] <==> a0[pos_index(p, cols)]
            || queue.contains(p))
    &&& count_true(assigned) == count_true(a0) + queue.len()
}

/// What holds of a candidate neighbour once a breadth-first step has looked
/// at it: a same-coloured cell is (or already was) queued, a
/// differently-coloured one is recorded as border.
pub open spec fn bfs_handled(
    grid: Grid,
    c0: Colour,
    q: Position,
    queue: Seq<Position>,
    boundary: Seq<Position>,
) -> bool {
    if grid.colour_at(q) == c0 {
        queue.contains(q)
    } else {
        boundary.contains(q)
    }
}

/// Queueing a fresh same-coloured neighbour of an already queued cell keeps
/// the traversal state sound.
proof fn lemma_queue_push(
    grid: Grid,
    c0: Colour,
    a0: Seq<bool>,
    aprev: Seq<bool>,
    qprev: Seq<Position>,
    q: Position,
    head: int,
)
    requires
        grid.wf(),
        bfs_state_ok(grid, c0, a0, aprev, qprev),
        pos_in_bounds(q, grid.number_of_rows as int, grid.number_of_columns as int),
        grid.colour_at(q) == c0,
        !aprev[pos_index(q, grid.number_of_columns as int)],
        0 <= head < qprev.len(),
        pos_adjacent(qprev[head], q),
    ensures
        bfs_state_ok(
            grid,
            c0,
            a0,
            aprev.update(pos_index(q, grid.number_of_columns as int), true),
            qprev.push(q),
        ),
{
    reveal(bfs_state_ok);
    let rows = grid.number_of_rows as int;
    let cols = grid.number_of_columns as int;
    let anew = aprev.update(pos_index(q, cols), true);
    let qnew = qprev.push(q);
    lemma_index_bound(q.row as int, q.column as int, rows, cols);
    lemma_count_true_update(aprev, pos_index(q, cols));
    assert(!qprev.contains(q));
    assert(!a0[pos_index(q, cols)]);
    assert(qprev.is_prefix_of(qnew)) by {
        assert(qnew.subrange(0, qprev.len() as int) =~= qprev);
    }
    assert forall|i: int, j: int|
        0 <= i < qnew.len() && 0 <= j < qnew.len() && i != j implies qnew[i] != qnew[j] by {
        if i < qprev.len() && j < qprev.len() {
            assert(qprev[i] != qprev[j]);
        } else if j == qprev.len() {
            if qnew[i] == q {
                assert(qprev.contains(q));
            }
        } else {
            assert(i == qprev.len());
            if qnew[j] == q {
                assert(qprev.contains(q));
            }
        }
    }
    assert(qnew.no_duplicates());
    assert forall|k: int| 1 <= k < qnew.len() implies exists|m: int|
        0 <= m < k && pos_adjacent(qnew[m], #[trigger] qnew[k]) by {
        if k < qprev.len() {
            let m = choose|m: int| 0 <= m < k && pos_adjacent(qprev[m], qprev[k]);
            assert(pos_adjacent(qnew[m], qnew[k]));
        } else {
            assert(qnew[k] == q);
            assert(pos_adjacent(qnew[head], q));
        }
    }
    assert(connect_order(qnew));
    assert forall|pp: Position| #![trigger pos_index(pp, cols)]
        pos_in_bounds(pp, rows, cols) implies (anew[pos_index(pp, cols)]
        <==> a0[pos_index(pp, cols)] || qnew.contains(pp)) by {
        lemma_index_bound(pp.row as int, pp.column as int, rows, cols);
        if pp == q {
            assert(qnew[qnew.len() - 1] == q);
            assert(qnew.contains(q));
        } else {
            assert(pos_index(pp, cols) != pos_index(q, cols)) by {
                if pos_index(pp, cols) == pos_index(q, cols) {
                    lemma_index_injective(pp, q, cols);
                }
            }
            assert(anew[pos_index(pp, cols)] == aprev[pos_index(pp, cols)]);
            assert(qnew.contains(pp) <==> qprev.contains(pp)) by {
                if qprev.contains(pp) {
                    lemma_prefix_contains(qprev, qnew, pp);
                }
                if qnew.contains(pp) {
                    let i = choose|i: int| 0 <= i < qnew.len() && qnew[i] == pp;
                    if i == qprev.len() {
                        assert(pp == q);
                    } else {
                        assert(qprev[i] == pp);
                    }
                }
            }
        }
    }
}

/// The traversal state is sound right after seeding it with the start cell.
proof fn lemma_bfs_init(grid: Grid, start: Position, a0: Seq<bool>)
    requires
        grid.wf(),
        a0.len() == grid.number_of_rows * grid.number_of_columns,
        pos_in_bounds(start, grid.number_of_rows as int, grid.number_of_columns as int),
        !a0[pos_index(start, grid.number_of_columns as int)],
    ensures
        bfs_state_ok(
            grid,
            grid.colour_at(start),
            a0,
            a0.update(pos_index(start, grid.number_of_columns as int), true),
            seq![start],
        ),
{
    reveal(bfs_state_ok);
    let rows = grid.number_of_rows as int;
    let cols = grid.number_of_columns as int;
    let anew = a0.update(pos_index(start, cols), true);
    let qnew = seq![start];
    lemma_index_bound(start.row as int, start.column as int, rows, cols);
    lemma_count_true_update(a0, pos_index(start, cols));
    assert(qnew[0] == start);
    assert(qnew.contains(start));
    assert forall|pp: Position| #![trigger pos_index(pp, cols)]
        pos_in_bounds(pp, rows, cols) implies (anew[pos_index(pp, cols)]
        <==> a0[pos_index(pp, cols)] || qnew.contains(pp)) by {
        lemma_index_bound(pp.row as int, pp.column as int, rows, cols);
        if pp == start {
        } else {
            assert(pos_index(pp, cols) != pos_index(start, cols)) by {
                if pos_index(pp, cols) == pos_index(start, cols) {
                    lemma_index_injective(pp, start, cols);
                }
            }
            if qnew.contains(pp) {
                let i = choose|i: int| 0 <= i < qnew.len() && qnew[i] == pp;
                assert(qnew[i] == start);
            }
        }
    }
}

/// One breadth-first step: file a same-coloured unassigned neighbour into
/// the queue, or a differently-coloured one into the border record.
fn bfs_handle(
    grid: &Grid,
    c0: Colour,
    p: Position,
    q: Position,
    assigned: &mut Vec<bool>,
    queue: &mut Vec<Position>,
    boundary: &mut Vec<Position>,
    head: Ghost<int>,
    a0: Ghost<Seq<bool>>,
)
    requires
        grid.wf(),
        assigned_closed(*grid, a0@),
        bfs_state_ok(*grid, c0, a0@, old(assigned)@, old(queue)@),
        0 <= head@ < old(queue)@.len(),
        old(queue)@[head@] == p,
        pos_in_bounds(q, grid.number_of_rows as int, grid.number_of_columns as int),
        pos_adjacent(p, q),
    ensures
        bfs_state_ok(*grid, c0, a0@, final(assigned)@, final(queue)@),
        old(queue)@.is_prefix_of(final(queue)@),
        old(boundary)@.is_prefix_of(final(boundary)@),
        final(queue)@.len() <= old(queue)@.len() + 1,
        final(boundary)@.len() <= old(boundary)@.len() + 1,
        final(boundary)@.len() == old(boundary)@.len() + 1 ==> final(boundary)@.last() == q
            && grid.colour_at(q) != c0,
        bfs_handled(*grid, c0, q, final(queue)@, final(boundary)@),
{
    proof {
        reveal(bfs_state_ok);
    }
    let ghost rows = grid.number_of_rows as int;
    let ghost cols = grid.number_of_columns as int;
    let cols_exec = grid.number_of_columns;
    let mask_len = assigned.len();
    proof {
        assert(rows * cols == mask_len as int);
    }
    let qi = index_of(q, cols_exec, Ghost(rows));
    proof {
        assert(grid.cells@.len() == rows * cols);
    }
    if grid.cells[qi] == c0 {
        assert(grid.colour_at(q) == c0);
        if !assigned[qi] {
            proof {
                lemma_queue_push(*grid, c0, a0@, assigned@, queue@, q, head@);
            }
            assigned[qi] = true;
            let ghost prev = queue@;
            queue.push(q);
            proof {
                assert(assigned@ == old(assigned)@.update(qi as int, true));
                assert(queue@ == prev.push(q));
                assert(bfs_state_ok(*grid, c0, a0@, assigned@, queue@));
                assert(prev.is_prefix_of(queue@)) by {
                    assert(queue@.subrange(0, prev.len() as int) =~= prev);
                }
                assert(queue@[queue@.len() - 1] == q);
                assert(queue@.contains(q));
            }
        } else {
            proof {
                if a0@[pos_index(q, cols)] {
                    // the starting mask is closed, yet p sits in the queue
                    // outside it: contradiction
                    assert(grid.colour_at(p) == grid.colour_at(q));
                    assert(a0@[pos_index(p, cols)]);
                    assert(!a0@[pos_index(p, cols)]);
                }
                assert(queue@.contains(q));
            }
        }
    } else {
        boundary.push(q);
        proof {
            assert(boundary@[boundary@.len() - 1] == q);
            assert(boundary@.contains(q));
        }
    }
}

/// The full record of one region discovery: the cells found, the border
/// cells met, and how the assignment mask moved.
pub open spec fn explore_post(
    grid: Grid,
    start: Position,
    a0: Seq<bool>,
    a1: Seq<bool>,
    cells: Seq<Position>,
    boundary: Seq<Position>,
) -> bool {
    let rows = grid.number_of_rows as int;
    let cols = grid.number_of_columns as int;
    let c0 = grid.colour_at(start);
    &&& a1.len() == a0.len()
    &&& cells.len() >= 1
    &&& cells[0] == start
    &&& cells.no_duplicates()
    &&& connect_order(cells)
    &&& forall|k: int|
        0 <= k < cells.len() ==> {
            &&& pos_in_bounds(#[trigger] cells[k], rows, cols)
            &&& grid.colour_at(cells[k]) == c0
            &&& !a0[pos_index(cells[k], cols)]
        }
    &&& forall|k: int, q: Position|
        0 <= k < cells.len() && pos_in_bounds(q, rows, cols) && #[trigger] pos_adjacent(
            cells[k],
            q,
        ) && grid.colour_at(q) == c0 ==> cells.contains(q)
    &&& forall|p: Position| #![trigger pos_index(p, cols)]
        pos_in_bounds(p, rows, cols) ==> (a1[pos_index(p, cols)] <==> a0[pos_index(p, cols)]
            || cells.contains(p))
    &&& count_true(a1) == count_true(a0) + cells.len()
    &&& forall|t: int|
        0 <= t < boundary.len() ==> {
            &&& pos_in_bounds(#[trigger] boundary[t], rows, cols)
            &&& grid.colour_at(boundary[t]) != c0
            &&& exists|k: int| 0 <= k < cells.len() && pos_adjacent(cells[k], boundary[t])
        }
    &&& forall|k: int, q: Position|
        0 <= k < cells.len() && pos_in_bounds(q, rows, cols) && #[trigger] pos_adjacent(
            cells[k],
            q,
        ) && grid.colour_at(q) != c0 ==> boundary.contains(q)
}
/// One whole breadth-first step: pop the cell at the queue's head position
/// and look at each of its in-bounds 4-neighbours, queueing same-coloured
/// free ones and recording differently-coloured ones as border.
#[verifier::rlimit(100)]
fn bfs_process(
    grid: &Grid,
    c0: Colour,
    head: usize,
    assigned: &mut Vec<bool>,
    queue: &mut Vec<Position>,
    boundary: &mut Vec<Position>,
    a0: Ghost<Seq<bool>>,
)
    requires
        grid.wf(),
        assigned_closed(*grid, a0@),
        bfs_state_ok(*grid, c0, a0@, old(assigned)@, old(queue)@),
        head < old(queue)@.len(),
    ensures
        bfs_state_ok(*grid, c0, a0@, final(assigned)@, final(queue)@),
        old(queue)@.is_prefix_of(final(queue)@),
        old(boundary)@.is_prefix_of(final(boundary)@),
        forall|q: Position|
            pos_in_bounds(q, grid.number_of_rows as int, grid.number_of_columns as int)
                && #[trigger] pos_adjacent(old(queue)@[head as int], q) ==> bfs_handled(
                *grid,
                c0,
                q,
                final(queue)@,
                final(boundary)@,
            ),
        forall|t: int|
            old(boundary)@.len() <= t < final(boundary)@.len() ==> {
                &&& pos_in_bounds(
                    #[trigger] final(boundary)@[t],
                    grid.number_of_rows as int,
                    grid.number_of_columns as int,
                )
                &&& grid.colour_at(final(boundary)@[t]) != c0
                &&& pos_adjacent(old(queue)@[head as int], final(boundary)@[t])
            },
{
    let rows = grid.number_of_rows;
    let cols = grid.number_of_columns;
    let ghost rowsi = rows as int;
    let ghost colsi = cols as int;
    let p = queue[head];
    let ghost queue0 = queue@;
    let ghost boundary0 = boundary@;
    proof {
        assert(pos_in_bounds(p, rowsi, colsi) && grid.colour_at(p) == c0) by {
            reveal(bfs_state_ok);
        }
    }

    let mut west: bool = false;
    let mut east: bool = false;
    let mut north: bool = false;
    let mut south: bool = false;

    if p.column > 0 {
        let q = Position { row: p.row, column: p.column - 1 };
        assert(pos_adjacent(p, q));
        bfs_handle(
            grid,
            c0,
            p,
            q,
            assigned,
            queue,
            boundary,
            Ghost(head as int),
            a0,
        );
        west = true;
    }
    let ghost queue1 = queue@;
    let ghost boundary1 = boundary@;
    if p.column + 1 < cols {
        let q = Position { row: p.row, column: p.column + 1 };
        assert(pos_adjacent(p, q));
        bfs_handle(
            grid,
            c0,
            p,
            q,
            assigned,
            queue,
            boundary,
            Ghost(head as int),
            a0,
        );
        east = true;
    }
    let ghost queue2 = queue@;
    let ghost boundary2 = boundary@;
    if p.row > 0 {
        let q = Position { row: p.row - 1, column: p.column };
        assert(pos_adjacent(p, q));
        bfs_handle(
            grid,
            c0,
            p,
            q,
            assigned,
            queue,
            boundary,
            Ghost(head as int),
            a0,
        );
        north = true;
    }
    let ghost queue3 = queue@;
    let ghost boundary3 = boundary@;
    if p.row + 1 < rows {
        let q = Position { row: p.row + 1, column: p.column };
        assert(pos_adjacent(p, q));
        bfs_handle(
            grid,
            c0,
            p,
            q,
            assigned,
            queue,
            boundary,
            Ghost(head as int),
            a0,
        );
        south = true;
    }

    proof {
        assert(west == (p.column >= 1));
        assert(east == (p.column + 1 < cols));
        assert(north == (p.row >= 1));
        assert(south == (p.row + 1 < rows));
        lemma_bfs_step(
            *grid,
            c0,
            p,
            queue0,
            queue1,
            queue2,
            queue3,
            queue@,
            boundary0,
            boundary1,
            boundary2,
            boundary3,
            boundary@,
        );
    }
}

/// Breadth-first traversal of one maximal same-coloured region.  Starting
/// from an unassigned cell, gathers every cell reachable through
/// equally-coloured 4-neighbours, marks them assigned, and records every
/// differently-coloured cell met at the region's border.
#[verifier::rlimit(100)]
fn explore_component(grid: &Grid, start: Position, assigned: &mut Vec<bool>) -> (r: (
    Vec<Position>,
    Vec<Position>,
))
    requires
        grid.wf(),
        old(assigned)@.len() == grid.number_of_rows * grid.number_of_columns,
        pos_in_bounds(start, grid.number_of_rows as int, grid.number_of_columns as int),
        !old(assigned)@[pos_index(start, grid.number_of_columns as int)],
        assigned_closed(*grid, old(assigned)@),
    ensures
        explore_post(*grid, start, old(assigned)@, final(assigned)@, r.0@, r.1@),
{
    let rows = grid.number_of_rows;
    let cols = grid.number_of_columns;
    let ghost rowsi = rows as int;
    let ghost colsi = cols as int;
    let mask_len = assigned.len();
    proof {
        assert(rowsi * colsi == mask_len as int);
    }
    let start_idx = index_of(start, cols, Ghost(rowsi));
    proof {
        assert(grid.cells@.len() == rowsi * colsi);
    }
    let c0 = grid.cells[start_idx];

    let mut queue: Vec<Position> = Vec::new();
    let mut boundary: Vec<Position> = Vec::new();
    let mut head: usize = 0;

    proof {
        lemma_bfs_init(*grid, start, old(assigned)@);
    }
    assigned[start_idx] = true;
    queue.push(start);
    proof {
        assert(assigned@ == old(assigned)@.update(start_idx as int, true));
        assert(queue@ =~= seq![start]);
        assert(bfs_state_ok(*grid, c0, old(assigned)@, assigned@, queue@));
        assert(queue@[0] == start) by {
            reveal(bfs_state_ok);
        }
    }

    while head < queue.len()
        invariant
            grid.wf(),
            rows == grid.number_of_rows,
            cols == grid.number_of_columns,
            rowsi == rows as int,
            colsi == cols as int,
            c0 == grid.colour_at(start),
            assigned_closed(*grid, old(assigned)@),
            bfs_state_ok(*grid, c0, old(assigned)@, assigned@, queue@),
            head <= queue@.len(),
            1 <= queue@.len(),
            queue@[0] == start,
            forall|k: int, q: Position|
                0 <= k < head && pos_in_bounds(q, rowsi, colsi) && #[trigger] pos_adjacent(
                    queue@[k],
                    q,
                ) && grid.colour_at(q) == c0 ==> queue@.contains(q),
            forall|t: int|
                0 <= t < boundary@.len() ==> {
                    &&& pos_in_bounds(#[trigger] boundary@[t], rowsi, colsi)
                    &&& grid.colour_at(boundary@[t]) != c0
                    &&& exists|k: int| 0 <= k < head && pos_adjacent(queue@[k], boundary@[t])
                },
            forall|k: int, q: Position|
                0 <= k < head && pos_in_bounds(q, rowsi, colsi) && #[trigger] pos_adjacent(
                    queue@[k],
                    q,
                ) && grid.colour_at(q) != c0 ==> boundary@.contains(q),
        decreases rowsi * colsi - head,
    {
        proof {
            assert(queue@.len() <= rowsi * colsi) by {
                reveal(bfs_state_ok);
                lemma_count_true_bounds(assigned@);
                lemma_count_true_bounds(old(assigned)@);
            }
        }
        let ghost queue0 = queue@;
        let ghost boundary0 = boundary@;
        let ghost p = queue@[head as int];

        bfs_process(grid, c0, head, assigned, &mut queue, &mut boundary, Ghost(old(assigned)@));

        proof {
            lemma_explore_iter(*grid, c0, head as int, queue0, boundary0, queue@, boundary@);
        }
        head += 1;
    }

    proof {
        reveal(bfs_state_ok);
    }
    (queue, boundary)
}

/// Prefixes chain.
pub proof fn lemma_prefix_trans<T>(s1: Seq<T>, s2: Seq<T>, s3: Seq<T>)
    requires
        s1.is_prefix_of(s2),
        s2.is_prefix_of(s3),
    ensures
        s1.is_prefix_of(s3),
{
    assert forall|i: int| 0 <= i < s1.len() implies s3.subrange(0, s1.len() as int)[i]
        == s1[i] by {
        assert(s3[i] == s2[i]);
        assert(s2[i] == s1[i]);
    }
    assert(s1 =~= s3.subrange(0, s1.len() as int));
}

/// After the four candidate checks of one breadth-first step, every
/// in-bounds neighbour of the popped cell is handled, and every border cell
/// recorded during the step touches the popped cell.
proof fn lemma_bfs_step(
    grid: Grid,
    c0: Colour,
    p: Position,
    q0: Seq<Position>,
    q1: Seq<Position>,
    q2: Seq<Position>,
    q3: Seq<Position>,
    q4: Seq<Position>,
    b0: Seq<Position>,
    b1: Seq<Position>,
    b2: Seq<Position>,
    b3: Seq<Position>,
    b4: Seq<Position>,
)
    requires
        grid.wf(),
        pos_in_bounds(p, grid.number_of_rows as int, grid.number_of_columns as int),
        q0.is_prefix_of(q1),
        q1.is_prefix_of(q2),
        q2.is_prefix_of(q3),
        q3.is_prefix_of(q4),
        b0.is_prefix_of(b1),
        b1.is_prefix_of(b2),
        b2.is_prefix_of(b3),
        b3.is_prefix_of(b4),
        b1.len() <= b0.len() + 1,
        b2.len() <= b1.len() + 1,
        b3.len() <= b2.len() + 1,
        b4.len() <= b3.len() + 1,
        p.column >= 1 ==> bfs_handled(
            grid,
            c0,
            (Position { row: p.row, column: (p.column - 1) as usize }),
            q1,
            b1,
        ),
        p.column + 1 < grid.number_of_columns ==> bfs_handled(
            grid,
            c0,
            (Position { row: p.row, column: (p.column + 1) as usize }),
            q2,
            b2,
        ),
        p.row >= 1 ==> bfs_handled(
            grid,
            c0,
            (Position { row: (p.row - 1) as usize, column: p.column }),
            q3,
            b3,
        ),
        p.row + 1 < grid.number_of_rows ==> bfs_handled(
            grid,
            c0,
            (Position { row: (p.row + 1) as usize, column: p.column }),
            q4,
            b4,
        ),
        b1.len() == b0.len() + 1 ==> p.column >= 1 && b1.last() == (Position {
            row: p.row,
            column: (p.column - 1) as usize,
        }) && grid.colour_at(b1.last()) != c0,
        b2.len() == b1.len() + 1 ==> p.column + 1 < grid.number_of_columns && b2.last()
            == (Position { row: p.row, column: (p.column + 1) as usize }) && grid.colour_at(
            b2.last(),
        ) != c0,
        b3.len() == b2.len() + 1 ==> p.row >= 1 && b3.last() == (Position {
            row: (p.row - 1) as usize,
            column: p.column,
        }) && grid.colour_at(b3.last()) != c0,
        b4.len() == b3.len() + 1 ==> p.row + 1 < grid.number_of_rows && b4.last() == (Position {
            row: (p.row + 1) as usize,
            column: p.column,
        }) && grid.colour_at(b4.last()) != c0,
    ensures
        q0.is_prefix_of(q4),
        b0.is_prefix_of(b4),
        forall|q: Position|
            pos_in_bounds(q, grid.number_of_rows as int, grid.number_of_columns as int)
                && #[trigger] pos_adjacent(p, q) ==> bfs_handled(grid, c0, q, q4, b4),
        forall|t: int|
            b0.len() <= t < b4.len() ==> {
                &&& pos_in_bounds(
                    #[trigger] b4[t],
                    grid.number_of_rows as int,
                    grid.number_of_columns as int,
                )
                &&& grid.colour_at(b4[t]) != c0
                &&& pos_adjacent(p, b4[t])
            },
{
    let rows = grid.number_of_rows as int;
    let cols = grid.number_of_columns as int;
    lemma_prefix_trans(q0, q1, q2);
    lemma_prefix_trans(q0, q2, q3);
    lemma_prefix_trans(q0, q3, q4);
    lemma_prefix_trans(b0, b1, b2);
    lemma_prefix_trans(b0, b2, b3);
    lemma_prefix_trans(b0, b3, b4);
    assert forall|q: Position|
        pos_in_bounds(q, rows, cols) && #[trigger] pos_adjacent(p, q) implies bfs_handled(
        grid,
        c0,
        q,
        q4,
        b4,
    ) by {
        if q.row == p.row && q.column + 1 == p.column {
            assert(q == (Position { row: p.row, column: (p.column - 1) as usize }));
            assert(bfs_handled(grid, c0, q, q1, b1));
            if grid.colour_at(q) == c0 {
                lemma_prefix_contains(q1, q2, q);
                lemma_prefix_contains(q2, q3, q);
                lemma_prefix_contains(q3, q4, q);
            } else {
                lemma_prefix_contains(b1, b2, q);
                lemma_prefix_contains(b2, b3, q);
                lemma_prefix_contains(b3, b4, q);
            }
        } else if q.row == p.row && p.column + 1 == q.column {
            assert(q == (Position { row: p.row, column: (p.column + 1) as usize }));
            assert(bfs_handled(grid, c0, q, q2, b2));
            if grid.colour_at(q) == c0 {
                lemma_prefix_contains(q2, q3, q);
                lemma_prefix_contains(q3, q4, q);
            } else {
                lemma_prefix_contains(b2, b3, q);
                lemma_prefix_contains(b3, b4, q);
            }
        } else if q.column == p.column && q.row + 1 == p.row {
            assert(q == (Position { row: (p.row - 1) as usize, column: p.column }));
            assert(bfs_handled(grid, c0, q, q3, b3));
            if grid.colour_at(q) == c0 {
                lemma_prefix_contains(q3, q4, q);
            } else {
                lemma_prefix_contains(b3, b4, q);
            }
        } else {
            assert(q.column == p.column && p.row + 1 == q.row);
            assert(q == (Position { row: (p.row + 1) as usize, column: p.column }));
            assert(bfs_handled(grid, c0, q, q4, b4));
        }
    }
    assert forall|t: int| b0.len() <= t < b4.len() implies {
        &&& pos_in_bounds(#[trigger] b4[t], rows, cols)
        &&& grid.colour_at(b4[t]) != c0
        &&& pos_adjacent(p, b4[t])
    } by {
        bfs_new_boundary_facts(grid, c0, p, b0, b1, b2, b3, b4, t, rows, cols);
    }
}

/// Processing one more queue cell extends the processed-prefix facts of the
/// traversal by one position.
proof fn lemma_explore_iter(
    grid: Grid,
    c0: Colour,
    head: int,
    q0: Seq<Position>,
    b0: Seq<Position>,
    q1: Seq<Position>,
    b1: Seq<Position>,
)
    requires
        grid.wf(),
        0 <= head < q0.len(),
        q0.is_prefix_of(q1),
        b0.is_prefix_of(b1),
        forall|k: int, q: Position|
            0 <= k < head && pos_in_bounds(
                q,
                grid.number_of_rows as int,
                grid.number_of_columns as int,
            ) && #[trigger] pos_adjacent(q0[k], q) && grid.colour_at(q) == c0 ==> q0.contains(q),
        forall|t: int|
            0 <= t < b0.len() ==> {
                &&& pos_in_bounds(
                    #[trigger] b0[t],
                    grid.number_of_rows as int,
                    grid.number_of_columns as int,
                )
                &&& grid.colour_at(b0[t]) != c0
                &&& exists|k: int| 0 <= k < head && pos_adjacent(q0[k], b0[t])
            },
        forall|k: int, q: Position|
            0 <= k < head && pos_in_bounds(
                q,
                grid.number_of_rows as int,
                grid.number_of_columns as int,
            ) && #[trigger] pos_adjacent(q0[k], q) && grid.colour_at(q) != c0 ==> b0.contains(q),
        forall|q: Position|
            pos_in_bounds(q, grid.number_of_rows as int, grid.number_of_columns as int)
                && #[trigger] pos_adjacent(q0[head], q) ==> bfs_handled(grid, c0, q, q1, b1),
        forall|t: int|
            b0.len() <= t < b1.len() ==> {
                &&& pos_in_bounds(
                    #[trigger] b1[t],
                    grid.number_of_rows as int,
                    grid.number_of_columns as int,
                )
                &&& grid.colour_at(b1[t]) != c0
                &&& pos_adjacent(q0[head], b1[t])
            },
    ensures
        forall|k: int, q: Position|
            0 <= k < head + 1 && pos_in_bounds(
                q,
                grid.number_of_rows as int,
                grid.number_of_columns as int,
            ) && #[trigger] pos_adjacent(q1[k], q) && grid.colour_at(q) == c0 ==> q1.contains(q),
        forall|t: int|
            0 <= t < b1.len() ==> {
                &&& pos_in_bounds(
                    #[trigger] b1[t],
                    grid.number_of_rows as int,
                    grid.number_of_columns as int,
                )
                &&& grid.colour_at(b1[t]) != c0
                &&& exists|k: int| 0 <= k < head + 1 && pos_adjacent(q1[k], b1[t])
            },
        forall|k: int, q: Position|
            0 <= k < head + 1 && pos_in_bounds(
                q,
                grid.number_of_rows as int,
                grid.number_of_columns as int,
            ) && #[trigger] pos_adjacent(q1[k], q) && grid.colour_at(q) != c0 ==> b1.contains(q),
{
    let rows = grid.number_of_rows as int;
    let cols = grid.number_of_columns as int;
    assert(q1[head] == q0[head]);
    assert forall|k: int, q: Position|
        0 <= k < head + 1 && pos_in_bounds(q, rows, cols) && #[trigger] pos_adjacent(q1[k], q)
            && grid.colour_at(q) == c0 implies q1.contains(q) by {
        assert(q1[k] == q0[k]);
        if k < head {
            assert(q0.contains(q));
            lemma_prefix_contains(q0, q1, q);
        } else {
            assert(bfs_handled(grid, c0, q, q1, b1));
        }
    }
    assert forall|k: int, q: Position|
        0 <= k < head + 1 && pos_in_bounds(q, rows, cols) && #[trigger] pos_adjacent(q1[k], q)
            && grid.colour_at(q) != c0 implies b1.contains(q) by {
        assert(q1[k] == q0[k]);
        if k < head {
            assert(b0.contains(q));
            lemma_prefix_contains(b0, b1, q);
        } else {
            assert(bfs_handled(grid, c0, q, q1, b1));
        }
    }
    assert forall|t: int| 0 <= t < b1.len() implies {
        &&& pos_in_bounds(#[trigger] b1[t], rows, cols)
        &&& grid.colour_at(b1[t]) != c0
        &&& exists|k: int| 0 <= k < head + 1 && pos_adjacent(q1[k], b1[t])
    } by {
        if t < b0.len() {
            assert(b1[t] == b0[t]);
            let k = choose|k: int| 0 <= k < head && pos_adjacent(q0[k], b0[t]);
            assert(pos_adjacent(q1[k], b1[t]));
        } else {
            assert(pos_adjacent(q0[head], b1[t]));
            assert(pos_adjacent(q1[head], b1[t]));
        }
    }
}

/// Any border cell recorded during one step's four candidate checks is an
/// in-bounds, differently-coloured neighbour of the popped cell.
proof fn bfs_new_boundary_facts(
    grid: Grid,
    c0: Colour,
    p: Position,
    b0: Seq<Position>,
    b1: Seq<Position>,
    b2: Seq<Position>,
    b3: Seq<Position>,
    b4: Seq<Position>,
    t: int,
    rows: int,
    cols: int,
)
    requires
        rows == grid.number_of_rows as int,
        cols == grid.number_of_columns as int,
        pos_in_bounds(p, rows, cols),
        b0.is_prefix_of(b1),
        b1.is_prefix_of(b2),
        b2.is_prefix_of(b3),
        b3.is_prefix_of(b4),
        b0.len() <= t < b4.len(),
        b1.len() <= b0.len() + 1,
        b2.len() <= b1.len() + 1,
        b3.len() <= b2.len() + 1,
        b4.len() <= b3.len() + 1,
        b1.len() == b0.len() + 1 ==> b1.last() == (Position {
            row: p.row,
            column: (p.column - 1) as usize,
        }) && grid.colour_at(b1.last()) != c0 && p.column >= 1 && pos_in_bounds(
            b1.last(),
            rows,
            cols,
        ),
        b2.len() == b1.len() + 1 ==> b2.last() == (Position {
            row: p.row,
            column: (p.column + 1) as usize,
        }) && grid.colour_at(b2.last()) != c0 && pos_in_bounds(b2.last(), rows, cols),
        b3.len() == b2.len() + 1 ==> b3.last() == (Position {
            row: (p.row - 1) as usize,
            column: p.column,
        }) && grid.colour_at(b3.last()) != c0 && p.row >= 1 && pos_in_bounds(b3.last(), rows, cols),
        b4.len() == b3.len() + 1 ==> b4.last() == (Position {
            row: (p.row + 1) as usize,
            column: p.column,
        }) && grid.colour_at(b4.last()) != c0 && pos_in_bounds(b4.last(), rows, cols),
    ensures
        pos_in_bounds(b4[t], rows, cols),
        grid.colour_at(b4[t]) != c0,
        pos_adjacent(p, b4[t]),
{
    if t < b1.len() {
        assert(t == b1.len() - 1 && b1.len() == b0.len() + 1);
        assert(b4[t] == b1[t]);
        assert(b1[t] == b1.last());
    } else if t < b2.len() {
        assert(t == b2.len() - 1 && b2.len() == b1.len() + 1);
        assert(b4[t] == b2[t]);
        assert(b2[t] == b2.last());
    } else if t < b3.len() {
        assert(t == b3.len() - 1 && b3.len() == b2.len() + 1);
        assert(b4[t] == b3[t]);
        assert(b3[t] == b3.last());
    } else {
        assert(t == b4.len() - 1 && b4.len() == b3.len() + 1);
        assert(b4[t] == b4.last());
    }
}


/// The per-component record that discovery must produce: a non-empty,
/// duplicate-free, connected set of equally coloured in-bounds cells that is
/// closed under same-coloured adjacency, together with exactly the
/// differently-coloured cells that touch it.
pub open spec fn comp_entry_ok(grid: Grid, cc: ConnectedComponent, boundary: Seq<Position>) -> bool {
    let rows = grid.number_of_rows as int;
    let cols = grid.number_of_columns as int;
    &&& cc.cells@.len() >= 1
    &&& cc.cells@.no_duplicates()
    &&& connect_order(cc.cells@)
    &&& forall|k: int|
        0 <= k < cc.cells@.len() ==> pos_in_bounds(#[trigger] cc.cells@[k], rows, cols)
            && grid.colour_at(cc.cells@[k]) == cc.colour
    &&& forall|k: int, q: Position|
        0 <= k < cc.cells@.len() && pos_in_bounds(q, rows, cols) && #[trigger] pos_adjacent(
            cc.cells@[k],
            q,
        ) && grid.colour_at(q) == cc.colour ==> cc.cells@.contains(q)
    &&& forall|t: int|
        0 <= t < boundary.len() ==> {
            &&& pos_in_bounds(#[trigger] boundary[t], rows, cols)
            &&& grid.colour_at(boundary[t]) != cc.colour
            &&& exists|k: int| 0 <= k < cc.cells@.len() && pos_adjacent(cc.cells@[k], boundary[t])
        }
    &&& forall|k: int, q: Position|
        0 <= k < cc.cells@.len() && pos_in_bounds(q, rows, cols) && #[trigger] pos_adjacent(
            cc.cells@[k],
            q,
        ) && grid.colour_at(q) != cc.colour ==> boundary.contains(q)
}

/// Total number of cells over the discovered components.
pub open spec fn pair_total(s: Seq<(ConnectedComponent, Vec<Position>)>) -> int
    decreases s.len(),
{
    if s.len() == 0 {
        0
    } else {
        pair_total(s.drop_last()) + s.last().0.cells@.len()
    }
}

proof fn lemma_pair_total_push(s: Seq<(ConnectedComponent, Vec<Position>)>, x: (ConnectedComponent, Vec<Position>))
    ensures
        pair_total(s.push(x)) == pair_total(s) + x.0.cells@.len(),
{
    assert(s.push(x).drop_last() =~= s);
    assert(s.push(x).last() == x);
}

/// Every discovered component holds at least one cell, so there are never
/// more components than cells.
proof fn lemma_pair_total_lower(s: Seq<(ConnectedComponent, Vec<Position>)>)
    requires
        forall|m: int| 0 <= m < s.len() ==> (#[trigger] s[m]).0.cells@.len() >= 1,
    ensures
        pair_total(s) >= s.len(),
    decreases s.len(),
{
    if s.len() > 0 {
        lemma_pair_total_lower(s.drop_last());
    }
}

/// The running state of the discovery pass: the mask marks exactly the
/// cells filed into some finished component, components carry dense ids and
/// sound records, and no cell sits in two components.
#[verifier::opaque]
pub open spec fn parts_state_ok(
    grid: Grid,
    s: Seq<(ConnectedComponent, Vec<Position>)>,
    a: Seq<bool>,
) -> bool {
    let rows = grid.number_of_rows as int;
    let cols = grid.number_of_columns as int;
    &&& a.len() == rows * cols
    &&& forall|m: int| 0 <= m < s.len() ==> (#[trigger] s[m]).0.id == m
    &&& forall|m: int| 0 <= m < s.len() ==> comp_entry_ok(grid, (#[trigger] s[m]).0, s[m].1@)
    &&& forall|p: Position| #![trigger pos_index(p, cols)]
        pos_in_bounds(p, rows, cols) ==> (a[pos_index(p, cols)] <==> exists|m: int|
            0 <= m < s.len() && (#[trigger] s[m]).0.cells@.contains(p))
    &&& forall|m1: int, k1: int, m2: int, k2: int|
        #![trigger s[m1].0.cells@[k1], s[m2].0.cells@[k2]]
        0 <= m1 < s.len() && 0 <= k1 < s[m1].0.cells@.len() && 0 <= m2 < s.len() && 0 <= k2
            < s[m2].0.cells@.len() && s[m1].0.cells@[k1] == s[m2].0.cells@[k2] ==> m1 == m2
    &&& count_true(a) == pair_total(s)
}

/// What discovery guarantees: dense ids, sound per-component records, a
/// partition of the whole grid, and a total cell count equal to the area.
pub open spec fn components_post(grid: Grid, s: Seq<(ConnectedComponent, Vec<Position>)>) -> bool {
    let rows = grid.number_of_rows as int;
    let cols = grid.number_of_columns as int;
    &&& forall|m: int| 0 <= m < s.len() ==> (#[trigger] s[m]).0.id == m
    &&& forall|m: int| 0 <= m < s.len() ==> comp_entry_ok(grid, (#[trigger] s[m]).0, s[m].1@)
    &&& forall|p: Position|
        #![trigger pos_in_bounds(p, rows, cols)]
        pos_in_bounds(p, rows, cols) ==> exists|m: int|
            0 <= m < s.len() && (#[trigger] s[m]).0.cells@.contains(p)
    &&& forall|m1: int, k1: int, m2: int, k2: int|
        #![trigger s[m1].0.cells@[k1], s[m2].0.cells@[k2]]
        0 <= m1 < s.len() && 0 <= k1 < s[m1].0.cells@.len() && 0 <= m2 < s.len() && 0 <= k2
            < s[m2].0.cells@.len() && s[m1].0.cells@[k1] == s[m2].0.cells@[k2] ==> m1 == m2
    &&& pair_total(s) == rows * cols
}

/// A mask that marks exactly the cells of finished components is closed
/// under same-coloured adjacency, because each component is.
proof fn lemma_parts_closed(grid: Grid, s: Seq<(ConnectedComponent, Vec<Position>)>, a: Seq<bool>)
    requires
        grid.wf(),
        parts_state_ok(grid, s, a),
    ensures
        assigned_closed(grid, a),
{
    reveal(parts_state_ok);
    let rows = grid.number_of_rows as int;
    let cols = grid.number_of_columns as int;
    assert forall|p: Position, q: Position|
        pos_in_bounds(p, rows, cols) && pos_in_bounds(q, rows, cols) && #[trigger] pos_adjacent(
            p,
            q,
        ) && grid.colour_at(p) == grid.colour_at(q) && a[pos_index(q, cols)] implies a[pos_index(
        p,
        cols,
    )] by {
        let m = choose|m: int| 0 <= m < s.len() && (#[trigger] s[m]).0.cells@.contains(q);
        let cc = s[m].0;
        let k = choose|k: int| 0 <= k < cc.cells@.len() && cc.cells@[k] == q;
        assert(grid.colour_at(q) == cc.colour);
        assert(pos_adjacent(cc.cells@[k], p));
        assert(cc.cells@.contains(p));
        assert(a[pos_index(p, cols)]);
    }
}

/// Filing one more explored region into the discovery state keeps it sound.
proof fn lemma_parts_extend(
    grid: Grid,
    s: Seq<(ConnectedComponent, Vec<Position>)>,
    a0: Seq<bool>,
    a1: Seq<bool>,
    start: Position,
    cc: ConnectedComponent,
    bv: Vec<Position>,
)
    requires
        grid.wf(),
        parts_state_ok(grid, s, a0),
        explore_post(grid, start, a0, a1, cc.cells@, bv@),
        cc.id == s.len(),
        cc.colour == grid.colour_at(start),
    ensures
        parts_state_ok(grid, s.push((cc, bv)), a1),
{
    reveal(parts_state_ok);
    let rows = grid.number_of_rows as int;
    let cols = grid.number_of_columns as int;
    let s1 = s.push((cc, bv));
    lemma_pair_total_push(s, (cc, bv));
    assert(s1[s.len() as int].0 == cc);
    // every cell of an old component is set in the old mask
    assert forall|m: int, k: int|
        0 <= m < s.len() && 0 <= k < s[m].0.cells@.len() implies a0[pos_index(
        #[trigger] s[m].0.cells@[k],
        cols,
    )] by {
        let p = s[m].0.cells@[k];
        assert(s[m].0.cells@.contains(p));
        assert(pos_in_bounds(p, rows, cols));
    }
    // the new component record is sound
    assert(comp_entry_ok(grid, cc, bv@));
    // partition: the new mask marks old cells plus the new component's
    assert forall|p: Position| #![trigger pos_index(p, cols)]
        pos_in_bounds(p, rows, cols) implies (a1[pos_index(p, cols)] <==> exists|m: int|
        0 <= m < s1.len() && (#[trigger] s1[m]).0.cells@.contains(p)) by {
        if a1[pos_index(p, cols)] {
            if a0[pos_index(p, cols)] {
                let m = choose|m: int| 0 <= m < s.len() && (#[trigger] s[m]).0.cells@.contains(p);
                assert(s1[m].0.cells@.contains(p));
            } else {
                assert(cc.cells@.contains(p));
                assert(s1[s.len() as int].0.cells@.contains(p));
            }
        }
        if exists|m: int| 0 <= m < s1.len() && (#[trigger] s1[m]).0.cells@.contains(p) {
            let m = choose|m: int| 0 <= m < s1.len() && (#[trigger] s1[m]).0.cells@.contains(p);
            if m < s.len() {
                assert(s[m].0.cells@.contains(p));
                assert(a0[pos_index(p, cols)]);
            } else {
                assert(cc.cells@.contains(p));
            }
            assert(a1[pos_index(p, cols)]);
        }
    }
    // no cell in two components
    assert forall|m1: int, k1: int, m2: int, k2: int|
        #![trigger s1[m1].0.cells@[k1], s1[m2].0.cells@[k2]]
        0 <= m1 < s1.len() && 0 <= k1 < s1[m1].0.cells@.len() && 0 <= m2 < s1.len() && 0 <= k2
            < s1[m2].0.cells@.len() && s1[m1].0.cells@[k1] == s1[m2].0.cells@[k2] implies m1
        == m2 by {
        let p = s1[m1].0.cells@[k1];
        if m1 < s.len() && m2 < s.len() {
            assert(s[m1].0.cells@[k1] == s[m2].0.cells@[k2]);
        } else if m1 < s.len() && m2 == s.len() {
            assert(a0[pos_index(p, cols)]);
            assert(cc.cells@[k2] == p);
            assert(!a0[pos_index(p, cols)]);
        } else if m1 == s.len() && m2 < s.len() {
            assert(a0[pos_index(p, cols)]);
            assert(cc.cells@[k1] == p);
            assert(!a0[pos_index(p, cols)]);
        }
    }
}

/// Once every cell is marked, the discovery state is a full partition.
proof fn lemma_parts_complete(
    grid: Grid,
    s: Seq<(ConnectedComponent, Vec<Position>)>,
    a: Seq<bool>,
)
    requires
        grid.wf(),
        grid.number_of_rows * grid.number_of_columns <= usize::MAX,
        parts_state_ok(grid, s, a),
        forall|p: Position|
            #![trigger pos_in_bounds(p, grid.number_of_rows as int, grid.number_of_columns as int)]
            pos_in_bounds(p, grid.number_of_rows as int, grid.number_of_columns as int)
                ==> a[pos_index(p, grid.number_of_columns as int)],
    ensures
        components_post(grid, s),
{
    reveal(parts_state_ok);
    let rows = grid.number_of_rows as int;
    let cols = grid.number_of_columns as int;
    assert forall|idx: int| 0 <= idx < a.len() implies a[idx] by {
        lemma_index_decompose(idx, rows, cols);
        let p = pos_of_index(idx, cols);
        assert(pos_in_bounds(p, rows, cols));
        assert(a[pos_index(p, cols)]);
    }
    lemma_count_true_full(a);
    assert forall|p: Position|
        #![trigger pos_in_bounds(p, rows, cols)]
        pos_in_bounds(p, rows, cols) implies exists|m: int|
        0 <= m < s.len() && (#[trigger] s[m]).0.cells@.contains(p) by {
        lemma_index_bound(p.row as int, p.column as int, rows, cols);
        assert(a[pos_index(p, cols)]);
    }
}

/// Partitions all grid cells into maximal same-coloured 4-connected
/// regions, assigning dense ids in discovery order.  For each region it also
/// collects the raw border cells: the differently-coloured cells touching
/// it, not yet resolved to owning components.
pub fn find_connected_components(grid: &Grid) -> (r: Vec<(ConnectedComponent, Vec<Position>)>)
    requires
        grid.wf(),
    ensures
        components_post(*grid, r@),
{
    let rows = grid.number_of_rows;
    let cols = grid.number_of_columns;
    let ghost rowsi = rows as int;
    let ghost colsi = cols as int;
    let n = grid.cells.len();

    let mut assigned: Vec<bool> = Vec::new();
    while assigned.len() < n
        invariant
            assigned@.len() <= n,
            forall|i: int| 0 <= i < assigned@.len() ==> !(#[trigger] assigned@[i]),
        decreases n - assigned@.len(),
    {
        assigned.push(false);
    }
    proof {
        lemma_count_true_zero(assigned@);
        assert(parts_state_ok(
            *grid,
            Seq::<(ConnectedComponent, Vec<Position>)>::empty(),
            assigned@,
        )) by {
            reveal(parts_state_ok);
            assert forall|p: Position| #![trigger pos_index(p, colsi)]
                pos_in_bounds(p, rowsi, colsi) implies !assigned@[pos_index(p, colsi)] by {
                lemma_index_bound(p.row as int, p.column as int, rowsi, colsi);
            }
        }
    }

    let mut result: Vec<(ConnectedComponent, Vec<Position>)> = Vec::new();
    let mut counter: usize = 0;

    let mut r_row: usize = 0;
    while r_row < rows
        invariant
            grid.wf(),
            rows == grid.number_of_rows,
            cols == grid.number_of_columns,
            rowsi == rows as int,
            colsi == cols as int,
            n == grid.cells@.len(),
            assigned@.len() == n,
            counter == result@.len(),
            r_row <= rows,
            parts_state_ok(*grid, result@, assigned@),
            forall|p: Position|
                #![trigger pos_index(p, colsi)]
                pos_in_bounds(p, rowsi, colsi) && (p.row as int) < r_row ==> assigned@[pos_index(
                    p,
                    colsi,
                )],
        decreases rows - r_row,
    {
        let mut c_col: usize = 0;
        while c_col < cols
            invariant
                grid.wf(),
                rows == grid.number_of_rows,
                cols == grid.number_of_columns,
                rowsi == rows as int,
                colsi == cols as int,
                n == grid.cells@.len(),
                assigned@.len() == n,
                counter == result@.len(),
                r_row < rows,
                c_col <= cols,
                parts_state_ok(*grid, result@, assigned@),
                forall|p: Position|
                    #![trigger pos_index(p, colsi)]
                    pos_in_bounds(p, rowsi, colsi) && ((p.row as int) < r_row || ((p.row as int)
                        == r_row && (p.column as int) < c_col)) ==> assigned@[pos_index(p, colsi)],
            decreases cols - c_col,
        {
            let p = Position { row: r_row, column: c_col };
            let idx = index_of(p, cols, Ghost(rowsi));
            if !assigned[idx] {
                let colour0 = grid.cells[idx];
                proof {
                    lemma_parts_closed(*grid, result@, assigned@);
                    assert(counter < n) by {
                        reveal(parts_state_ok);
                        lemma_pair_total_lower(result@);
                        lemma_count_true_bounds(assigned@);
                        assert(!assigned@[idx as int]);
                        assert(count_true(assigned@) < n) by {
                            if count_true(assigned@) == n {
                                lemma_count_true_max(assigned@);
                            }
                        }
                    }
                }
                let ghost a0 = assigned@;
                let (cells, boundary) = explore_component(grid, p, &mut assigned);
                let cc = ConnectedComponent { id: counter, colour: colour0, cells };
                proof {
                    assert(colour0 == grid.colour_at(p));
                    lemma_parts_extend(*grid, result@, a0, assigned@, p, cc, boundary);
                }
                result.push((cc, boundary));
                counter += 1;
                proof {
                    assert(parts_state_ok(*grid, result@, assigned@));
                }
            }
            c_col += 1;
            proof {
                assert forall|pp: Position|
                    #![trigger pos_index(pp, colsi)]
                    pos_in_bounds(pp, rowsi, colsi) && ((pp.row as int) < r_row || ((pp.row as int)
                        == r_row && (pp.column as int) < c_col)) implies assigned@[pos_index(
                    pp,
                    colsi,
                )] by {
                    lemma_index_bound(pp.row as int, pp.column as int, rowsi, colsi);
                    if pp.row as int == r_row && pp.column as int == c_col - 1 {
                        assert(pp == p);
                    }
                }
            }
        }
        r_row += 1;
    }

    proof {
        assert forall|p: Position|
            #![trigger pos_in_bounds(p, rowsi, colsi)]
            pos_in_bounds(p, rowsi, colsi) implies assigned@[pos_index(p, colsi)] by {
            lemma_index_bound(p.row as int, p.column as int, rowsi, colsi);
        }
        lemma_parts_complete(*grid, result@, assigned@);
    }
    result
}

/// An all-clear mask counts zero set entries.
proof fn lemma_count_true_zero(s: Seq<bool>)
    requires
        forall|i: int| 0 <= i < s.len() ==> !(#[trigger] s[i]),
    ensures
        count_true(s) == 0,
    decreases s.len(),
{
    if s.len() > 0 {
        lemma_count_true_zero(s.drop_last());
    }
}

/// A mask at full count has every entry set.
proof fn lemma_count_true_max(s: Seq<bool>)
    requires
        count_true(s) == s.len(),
    ensures
        forall|i: int| 0 <= i < s.len() ==> #[trigger] s[i],
    decreases s.len(),
{
    if s.len() > 0 {
        lemma_count_true_bounds(s.drop_last());
        assert(s.last());
        lemma_count_true_max(s.drop_last());
        assert forall|i: int| 0 <= i < s.len() implies #[trigger] s[i] by {
            if i < s.len() - 1 {
                assert(s.drop_last()[i]);
            }
        }
    }
}


/// Whether the cell-to-owner lookup already records every cell of the
/// first components, and of the first cells of the next one.
pub open spec fn owner_partial(
    grid: Grid,
    s: Seq<(ConnectedComponent, Vec<Position>)>,
    ow: Seq<usize>,
    m: int,
    k: int,
) -> bool {
    forall|m2: int, k2: int|
        #![trigger s[m2].0.cells@[k2]]
        0 <= m2 < s.len() && 0 <= k2 < s[m2].0.cells@.len() && (m2 < m || (m2 == m && k2 < k))
            ==> ow[pos_index(s[m2].0.cells@[k2], grid.number_of_columns as int)] as int == m2
}

/// The finished cell-to-owner lookup: every cell of every component maps
/// back to that component's id.
pub open spec fn owner_ok(
    grid: Grid,
    s: Seq<(ConnectedComponent, Vec<Position>)>,
    ow: Seq<usize>,
) -> bool {
    &&& ow.len() == grid.number_of_rows * grid.number_of_columns
    &&& forall|i: int| 0 <= i < ow.len() ==> (#[trigger] ow[i]) < s.len()
    &&& owner_partial(grid, s, ow, s.len() as int, 0)
}

/// Recording one more cell's owner clobbers no earlier record, because no
/// two recorded cells share a grid index.
proof fn lemma_owner_write(
    grid: Grid,
    s: Seq<(ConnectedComponent, Vec<Position>)>,
    ow0: Seq<usize>,
    m: int,
    k: int,
    mv: usize,
)
    requires
        grid.wf(),
        components_post(grid, s),
        0 <= m < s.len(),
        0 <= k < s[m].0.cells@.len(),
        mv as int == m,
        ow0.len() == grid.number_of_rows * grid.number_of_columns,
        owner_partial(grid, s, ow0, m, k),
    ensures
        owner_partial(
            grid,
            s,
            ow0.update(pos_index(s[m].0.cells@[k], grid.number_of_columns as int), mv),
            m,
            k + 1,
        ),
{
    let rows = grid.number_of_rows as int;
    let cols = grid.number_of_columns as int;
    let p = s[m].0.cells@[k];
    let ow1 = ow0.update(pos_index(p, cols), mv);
    assert(pos_in_bounds(p, rows, cols));
    lemma_index_bound(p.row as int, p.column as int, rows, cols);
    assert forall|m2: int, k2: int|
        #![trigger s[m2].0.cells@[k2]]
        0 <= m2 < s.len() && 0 <= k2 < s[m2].0.cells@.len() && (m2 < m || (m2 == m && k2 < k + 1))
            implies ow1[pos_index(s[m2].0.cells@[k2], cols)] as int == m2 by {
        let p2 = s[m2].0.cells@[k2];
        lemma_index_bound(p2.row as int, p2.column as int, rows, cols);
        if m2 == m && k2 == k {
        } else {
            assert(pos_index(p2, cols) != pos_index(p, cols)) by {
                if pos_index(p2, cols) == pos_index(p, cols) {
                    lemma_index_injective(p2, p, cols);
                    assert(s[m2].0.cells@[k2] == s[m].0.cells@[k]);
                    assert(m2 == m);
                    assert(s[m].0.cells@.no_duplicates());
                }
            }
            assert(ow1[pos_index(p2, cols)] == ow0[pos_index(p2, cols)]);
        }
    }
}

/// The adjacency arena produced from the raw border records: one entry per
/// component, holding exactly the owners of that component's border cells,
/// without repetition.
pub open spec fn nbrs_resolved(
    grid: Grid,
    s: Seq<(ConnectedComponent, Vec<Position>)>,
    ow: Seq<usize>,
    nb: Seq<Option<Vec<usize>>>,
) -> bool {
    &&& nb.len() == s.len()
    &&& forall|i: int| 0 <= i < nb.len() ==> (#[trigger] nb[i]) is Some
    &&& forall|i: int| 0 <= i < nb.len() ==> (#[trigger] nb[i])->Some_0@.no_duplicates()
    &&& forall|i: int, x: usize|
        0 <= i < nb.len() ==> ((#[trigger] nb[i]->Some_0@.contains(x)) <==> exists|t: int|
            0 <= t < s[i].1@.len() && ow[pos_index(
                #[trigger] s[i].1@[t],
                grid.number_of_columns as int,
            )] == x)
}

/// The discovered components slotted into the arena, in id order.
pub open spec fn comps_slotted(
    s: Seq<(ConnectedComponent, Vec<Position>)>,
    cs: Seq<Option<ConnectedComponent>>,
) -> bool {
    &&& cs.len() == s.len()
    &&& forall|i: int| 0 <= i < cs.len() ==> (#[trigger] cs[i]) == Some(s[i].0)
}

/// An arena of all the discovered components holds as many cells in total
/// as the discovery records.
proof fn lemma_total_matches(
    s: Seq<(ConnectedComponent, Vec<Position>)>,
    cs: Seq<Option<ConnectedComponent>>,
)
    requires
        comps_slotted(s, cs),
    ensures
        total_cells(cs) == pair_total(s),
    decreases s.len(),
{
    if s.len() > 0 {
        assert(comps_slotted(s.drop_last(), cs.drop_last()));
        lemma_total_matches(s.drop_last(), cs.drop_last());
        assert(cs.last() == Some(s.last().0));
    }
}

/// Assembling the two arenas, the ghost owner map and the ghost dimensions
/// from a finished discovery yields a well-formed graph that reproduces the
/// grid, separates colours across edges, keeps each component connected,
/// and merges every pair of touching same-coloured cells.
/// The base facts of assembly: every slot is live and carries the
/// discovered component of its id, the arenas are well shaped, the owner
/// map records the partition, the colours reproduce the grid, and the cell
/// total equals the grid area.
proof fn lemma_create_base(
    grid: Grid,
    s: Seq<(ConnectedComponent, Vec<Position>)>,
    ow: Seq<usize>,
    g: Graph,
)
    requires
        grid.wf(),
        components_post(grid, s),
        owner_ok(grid, s, ow),
        comps_slotted(s, g.components@),
        nbrs_resolved(grid, s, ow, g.neighbours@),
        g.rows@ == grid.number_of_rows as int,
        g.cols@ == grid.number_of_columns as int,
        grid.number_of_rows * grid.number_of_columns <= usize::MAX,
        g.owner@ == Map::new(
            |p: Position|
                pos_in_bounds(p, grid.number_of_rows as int, grid.number_of_columns as int),
            |p: Position| ow[pos_index(p, grid.number_of_columns as int)] as int,
        ),
    ensures
        forall|i: int| 0 <= i < g.components@.len() ==> g.live(i),
        forall|i: int| 0 <= i < s.len() ==> #[trigger] g.comp(i) == s[i].0,
        g.inv_shape(),
        g.inv_partition(),
        total_cells(g.components@) == g.rows@ * g.cols@,
        g.agrees_with(grid),
{
    let rows = grid.number_of_rows as int;
    let cols = grid.number_of_columns as int;

    assert forall|i: int| 0 <= i < g.components@.len() implies g.live(i) by {
        assert(g.components@[i] == Some(s[i].0));
    }
    assert forall|i: int| 0 <= i < s.len() implies #[trigger] g.comp(i) == s[i].0 by {
        assert(g.components@[i] == Some(s[i].0));
    }

    assert forall|p: Position| pos_in_bounds(p, rows, cols) implies {
        &&& #[trigger] g.owner@.contains_key(p)
        &&& g.live(g.owner@[p])
        &&& g.comp(g.owner@[p]).cells@.contains(p)
        &&& g.comp(g.owner@[p]).colour == grid.colour_at(p)
    } by {
        lemma_index_bound(p.row as int, p.column as int, rows, cols);
        let m = choose|m: int| 0 <= m < s.len() && (#[trigger] s[m]).0.cells@.contains(p);
        let k = choose|k: int| 0 <= k < s[m].0.cells@.len() && s[m].0.cells@[k] == p;
        assert(ow[pos_index(s[m].0.cells@[k], cols)] as int == m);
        assert(g.owner@[p] == m);
        assert(g.comp(m) == s[m].0);
        assert(comp_entry_ok(grid, s[m].0, s[m].1@));
        assert(grid.colour_at(p) == s[m].0.colour);
    }

    assert forall|i: int, k: int|
        g.live(i) && 0 <= k < g.comp(i).cells@.len() implies {
        let p = #[trigger] g.comp(i).cells@[k];
        &&& pos_in_bounds(p, rows, cols)
        &&& g.owner@[p] == i
    } by {
        assert(g.comp(i) == s[i].0);
        let p = s[i].0.cells@[k];
        assert(comp_entry_ok(grid, s[i].0, s[i].1@));
        assert(pos_in_bounds(p, rows, cols));
        assert(ow[pos_index(s[i].0.cells@[k], cols)] as int == i);
    }

    assert forall|i: int| #[trigger] g.live(i) implies g.comp(i).cells@.no_duplicates()
        && g.comp(i).cells@.len() >= 1 by {
        assert(g.comp(i) == s[i].0);
        assert(comp_entry_ok(grid, s[i].0, s[i].1@));
    }

    assert(g.inv_shape());
    assert(g.inv_partition());

    lemma_total_matches(s, g.components@);

    assert forall|p: Position|
        pos_in_bounds(p, rows, cols) implies #[trigger] g.colour_of_pos(p) == grid.colour_at(
        p,
    ) by {
        assert(g.comp(g.owner@[p]).colour == grid.colour_at(p));
    }
}

/// Every recorded neighbour of a component is another live component whose
/// cells touch it across a colour change, and it records the first one
/// back.
#[verifier::rlimit(50)]
proof fn lemma_create_adj_sound(
    grid: Grid,
    s: Seq<(ConnectedComponent, Vec<Position>)>,
    ow: Seq<usize>,
    g: Graph,
)
    requires
        grid.wf(),
        components_post(grid, s),
        owner_ok(grid, s, ow),
        comps_slotted(s, g.components@),
        nbrs_resolved(grid, s, ow, g.neighbours@),
        g.rows@ == grid.number_of_rows as int,
        g.cols@ == grid.number_of_columns as int,
        grid.number_of_rows * grid.number_of_columns <= usize::MAX,
        forall|i: int| 0 <= i < s.len() ==> #[trigger] g.comp(i) == s[i].0,
        g.inv_shape(),
        g.inv_partition(),
    ensures
        forall|i: int, k: int|
            g.live(i) && 0 <= k < g.nbrs(i).len() ==> {
                let j = #[trigger] g.nbrs(i)[k] as int;
                &&& g.live(j)
                &&& j != i
                &&& g.nbr_mem(j, i)
                &&& g.touches(i, j)
                &&& g.comp(i).colour != g.comp(j).colour
            },
{
    let rows = grid.number_of_rows as int;
    let cols = grid.number_of_columns as int;
    assert forall|i: int, k: int|
        g.live(i) && 0 <= k < g.nbrs(i).len() implies {
        let j = #[trigger] g.nbrs(i)[k] as int;
        &&& g.live(j)
        &&& j != i
        &&& g.nbr_mem(j, i)
        &&& g.touches(i, j)
        &&& g.comp(i).colour != g.comp(j).colour
    } by {
        let j = g.nbrs(i)[k] as int;
        let x = g.nbrs(i)[k];
        assert(g.nbrs(i).contains(x));
        assert(g.neighbours@[i]->Some_0@.contains(x));
        let t = choose|t: int|
            0 <= t < s[i].1@.len() && ow[pos_index(#[trigger] s[i].1@[t], cols)] == x;
        let b = s[i].1@[t];
        assert(comp_entry_ok(grid, s[i].0, s[i].1@));
        assert(pos_in_bounds(b, rows, cols));
        assert(grid.colour_at(b) != s[i].0.colour);
        let kc = choose|kc: int|
            0 <= kc < s[i].0.cells@.len() && pos_adjacent(s[i].0.cells@[kc], b);
        // b belongs to component j
        assert(g.owner@.contains_key(b));
        assert(g.live(g.owner@[b]));
        assert(g.comp(g.owner@[b]).cells@.contains(b));
        let mb = g.owner@[b];
        let kb = choose|kb: int| 0 <= kb < g.comp(mb).cells@.len() && g.comp(mb).cells@[kb] == b;
        assert(g.comp(mb) == s[mb].0);
        assert(ow[pos_index(s[mb].0.cells@[kb], cols)] as int == mb);
        assert(pos_index(s[mb].0.cells@[kb], cols) == pos_index(b, cols));
        assert(mb == j);
        assert(g.live(j));
        // j's colour is b's grid colour, which differs from i's
        assert(comp_entry_ok(grid, s[j].0, s[j].1@));
        assert(s[j].0.cells@[kb] == b);
        assert(grid.colour_at(b) == s[j].0.colour);
        assert(g.comp(i).colour != g.comp(j).colour);
        assert(j != i);
        // the border cell and its witness cell in i touch
        assert(g.comp(i).cells@[kc] == s[i].0.cells@[kc]);
        assert(pos_adjacent(g.comp(i).cells@[kc], g.comp(j).cells@[kb]));
        assert(g.touches(i, j));
        // symmetry: the witness cell of i is a border cell of j
        let q = s[i].0.cells@[kc];
        assert(pos_in_bounds(q, rows, cols));
        assert(grid.colour_at(q) == s[i].0.colour);
        assert(pos_adjacent(s[j].0.cells@[kb], q));
        assert(grid.colour_at(q) != s[j].0.colour);
        assert(s[j].1@.contains(q));
        let tq = choose|tq: int| 0 <= tq < s[j].1@.len() && s[j].1@[tq] == q;
        assert(ow[pos_index(s[i].0.cells@[kc], cols)] as int == i);
        let xi = ow[pos_index(q, cols)];
        assert(xi as int == i);
        assert(ow[pos_index(s[j].1@[tq], cols)] == xi);
        assert(g.neighbours@[j]->Some_0@.contains(xi));
        let ki = choose|ki: int| 0 <= ki < g.nbrs(j).len() && g.nbrs(j)[ki] == xi;
        assert(g.nbrs(j)[ki] as int == i);
        assert(g.nbr_mem(j, i));
    }
}

/// Any two touching components are recorded as neighbours: the touching
/// cell of the second is a border cell of the first, since a same-coloured
/// touching cell would have been merged.
#[verifier::rlimit(50)]
proof fn lemma_create_adj_complete(
    grid: Grid,
    s: Seq<(ConnectedComponent, Vec<Position>)>,
    ow: Seq<usize>,
    g: Graph,
)
    requires
        grid.wf(),
        components_post(grid, s),
        owner_ok(grid, s, ow),
        comps_slotted(s, g.components@),
        nbrs_resolved(grid, s, ow, g.neighbours@),
        g.rows@ == grid.number_of_rows as int,
        g.cols@ == grid.number_of_columns as int,
        grid.number_of_rows * grid.number_of_columns <= usize::MAX,
        forall|i: int| 0 <= i < s.len() ==> #[trigger] g.comp(i) == s[i].0,
        g.inv_shape(),
        g.inv_partition(),
    ensures
        forall|i: int, j: int|
            g.live(i) && g.live(j) && i != j && #[trigger] g.touches(i, j) ==> g.nbr_mem(i, j),
{
    let rows = grid.number_of_rows as int;
    let cols = grid.number_of_columns as int;
    assert forall|i: int, j: int|
        g.live(i) && g.live(j) && i != j && #[trigger] g.touches(i, j) implies g.nbr_mem(
        i,
        j,
    ) by {
        let (k1, k2) = choose|k1: int, k2: int|
            0 <= k1 < g.comp(i).cells@.len() && 0 <= k2 < g.comp(j).cells@.len() && pos_adjacent(
                #[trigger] g.comp(i).cells@[k1],
                #[trigger] g.comp(j).cells@[k2],
            );
        let q = g.comp(j).cells@[k2];
        assert(g.comp(i) == s[i].0 && g.comp(j) == s[j].0);
        assert(comp_entry_ok(grid, s[i].0, s[i].1@));
        assert(comp_entry_ok(grid, s[j].0, s[j].1@));
        assert(pos_in_bounds(q, rows, cols));
        assert(grid.colour_at(q) == s[j].0.colour);
        assert(grid.colour_at(q) != s[i].0.colour) by {
            if grid.colour_at(q) == s[i].0.colour {
                assert(pos_adjacent(s[i].0.cells@[k1], q));
                assert(s[i].0.cells@.contains(q));
                let kq = choose|kq: int| 0 <= kq < s[i].0.cells@.len() && s[i].0.cells@[kq] == q;
                assert(s[i].0.cells@[kq] == s[j].0.cells@[k2]);
                assert(i == j);
            }
        }
        assert(pos_adjacent(s[i].0.cells@[k1], q));
        assert(s[i].1@.contains(q));
        let tq = choose|tq: int| 0 <= tq < s[i].1@.len() && s[i].1@[tq] == q;
        assert(ow[pos_index(s[j].0.cells@[k2], cols)] as int == j);
        let xj = ow[pos_index(q, cols)];
        assert(xj as int == j);
        assert(ow[pos_index(s[i].1@[tq], cols)] == xj);
        assert(g.neighbours@[i]->Some_0@.contains(xj));
        let kj = choose|kj: int| 0 <= kj < g.nbrs(i).len() && g.nbrs(i)[kj] == xj;
        assert(g.nbrs(i)[kj] as int == j);
        assert(g.nbr_mem(i, j));
    }
}

/// Assembling the two arenas, the ghost owner map and the ghost dimensions
/// from a finished discovery yields a well-formed graph that reproduces the
/// grid, separates colours across edges, keeps each component connected,
/// and merges every pair of touching same-coloured cells.
proof fn lemma_create_ok(
    grid: Grid,
    s: Seq<(ConnectedComponent, Vec<Position>)>,
    ow: Seq<usize>,
    g: Graph,
)
    requires
        grid.wf(),
        components_post(grid, s),
        owner_ok(grid, s, ow),
        comps_slotted(s, g.components@),
        nbrs_resolved(grid, s, ow, g.neighbours@),
        g.rows@ == grid.number_of_rows as int,
        g.cols@ == grid.number_of_columns as int,
        grid.number_of_rows * grid.number_of_columns <= usize::MAX,
        g.owner@ == Map::new(
            |p: Position|
                pos_in_bounds(p, grid.number_of_rows as int, grid.number_of_columns as int),
            |p: Position| ow[pos_index(p, grid.number_of_columns as int)] as int,
        ),
    ensures
        g.wf(),
        g.agrees_with(grid),
        forall|i: int| 0 <= i < g.components@.len() ==> g.live(i),
        forall|p: Position, q: Position|
            pos_in_bounds(p, grid.number_of_rows as int, grid.number_of_columns as int)
                && pos_in_bounds(q, grid.number_of_rows as int, grid.number_of_columns as int)
                && #[trigger] pos_adjacent(p, q) && grid.colour_at(p) == grid.colour_at(q)
                ==> g.owner@[p] == g.owner@[q],
        forall|i: int, j: int|
            g.live(i) && g.live(j) && #[trigger] g.nbr_mem(i, j) ==> g.comp(i).colour
                != g.comp(j).colour,
        forall|i: int| #[trigger] g.live(i) ==> connect_order(g.comp(i).cells@),
{
    let rows = grid.number_of_rows as int;
    let cols = grid.number_of_columns as int;
    lemma_create_base(grid, s, ow, g);
    lemma_create_adj_sound(grid, s, ow, g);
    lemma_create_adj_complete(grid, s, ow, g);

    assert forall|i: int| #[trigger] g.live(i) implies g.nbrs(i).no_duplicates() by {
        assert(g.neighbours@[i] is Some);
    }
    assert(g.inv_adjacency());
    assert(g.wf());

    assert forall|i: int, j: int|
        g.live(i) && g.live(j) && #[trigger] g.nbr_mem(i, j) implies g.comp(i).colour
        != g.comp(j).colour by {
        let k = choose|k: int| 0 <= k < g.nbrs(i).len() && #[trigger] g.nbrs(i)[k] as int == j;
    }

    // two touching cells of one colour always share their component
    assert forall|p: Position, q: Position|
        pos_in_bounds(p, rows, cols) && pos_in_bounds(q, rows, cols) && #[trigger] pos_adjacent(
            p,
            q,
        ) && grid.colour_at(p) == grid.colour_at(q) implies g.owner@[p] == g.owner@[q] by {
        let mp = g.owner@[p];
        assert(g.live(mp));
        assert(g.comp(mp).cells@.contains(p));
        assert(g.comp(mp) == s[mp].0);
        let kp = choose|kp: int| 0 <= kp < s[mp].0.cells@.len() && s[mp].0.cells@[kp] == p;
        assert(comp_entry_ok(grid, s[mp].0, s[mp].1@));
        assert(grid.colour_at(p) == s[mp].0.colour);
        assert(pos_adjacent(s[mp].0.cells@[kp], q));
        assert(grid.colour_at(q) == s[mp].0.colour);
        assert(s[mp].0.cells@.contains(q));
        let kq = choose|kq: int| 0 <= kq < s[mp].0.cells@.len() && s[mp].0.cells@[kq] == q;
        assert(ow[pos_index(s[mp].0.cells@[kq], cols)] as int == mp);
        assert(g.owner@[q] == mp);
    }

    assert forall|i: int| #[trigger] g.live(i) implies connect_order(g.comp(i).cells@) by {
        assert(g.comp(i) == s[i].0);
        assert(comp_entry_ok(grid, s[i].0, s[i].1@));
    }
}

/// Whether an id list holds a given id.
pub(crate) fn contains_id(v: &Vec<usize>, x: usize) -> (r: bool)
    ensures
        r == v@.contains(x),
{
    let mut i: usize = 0;
    while i < v.len()
        invariant
            i <= v@.len(),
            forall|n: int| 0 <= n < i ==> v@[n] != x,
        decreases v@.len() - i,
    {
        if v[i] == x {
            return true;
        }
        i += 1;
    }
    false
}

impl Graph {
    /// Builds the component graph of a grid: discovers the maximal
    /// same-coloured connected regions, then resolves each region's raw
    /// border cells to the ids of their owning components.  The result
    /// partitions the grid, reproduces its colouring, links exactly the
    /// touching components -- which at this point always differ in colour --
    /// and keeps every component connected in discovery order.
    pub fn create(grid: &Grid) -> (g: Graph)
        requires
            grid.wf(),
        ensures
            g.wf(),
            g.agrees_with(*grid),
            forall|i: int| 0 <= i < g.components@.len() ==> g.live(i),
            forall|p: Position, q: Position|
                pos_in_bounds(p, g.rows@, g.cols@) && pos_in_bounds(q, g.rows@, g.cols@)
                    && #[trigger] pos_adjacent(p, q) && grid.colour_at(p) == grid.colour_at(q)
                    ==> g.owner@[p] == g.owner@[q],
            forall|i: int, j: int|
                g.live(i) && g.live(j) && #[trigger] g.nbr_mem(i, j) ==> g.comp(i).colour
                    != g.comp(j).colour,
            forall|i: int| #[trigger] g.live(i) ==> connect_order(g.comp(i).cells@),
    {
        let mut comps = find_connected_components(grid);
        let ghost s = comps@;
        let rows = grid.number_of_rows;
        let cols = grid.number_of_columns;
        let ghost rowsi = rows as int;
        let ghost colsi = cols as int;
        let n = grid.cells.len();
        let ncomp = comps.len();

        // first pass: a lookup from every cell to its owning component id
        let mut owner_idx: Vec<usize> = Vec::new();
        while owner_idx.len() < n
            invariant
                owner_idx@.len() <= n,
                forall|i: int| 0 <= i < owner_idx@.len() ==> (#[trigger] owner_idx@[i]) == 0,
            decreases n - owner_idx@.len(),
        {
            owner_idx.push(0);
        }
        proof {
            assert(pos_in_bounds(Position { row: 0, column: 0 }, rowsi, colsi));
            assert(ncomp >= 1);
        }
        let mut m: usize = 0;
        while m < ncomp
            invariant
                grid.wf(),
                components_post(*grid, s),
                comps@ == s,
                rows == grid.number_of_rows,
                cols == grid.number_of_columns,
                rowsi == rows as int,
                colsi == cols as int,
                n == grid.cells@.len(),
                ncomp == s.len(),
                1 <= ncomp,
                m <= ncomp,
                owner_idx@.len() == n,
                forall|i: int| 0 <= i < owner_idx@.len() ==> (#[trigger] owner_idx@[i]) < ncomp,
                owner_partial(*grid, s, owner_idx@, m as int, 0),
            decreases ncomp - m,
        {
            let cells_len = comps[m].0.cells.len();
            let mut k: usize = 0;
            while k < cells_len
                invariant
                    grid.wf(),
                    components_post(*grid, s),
                    comps@ == s,
                    rows == grid.number_of_rows,
                    cols == grid.number_of_columns,
                    rowsi == rows as int,
                    colsi == cols as int,
                    n == grid.cells@.len(),
                    ncomp == s.len(),
                    m < ncomp,
                    k <= cells_len,
                    cells_len == s[m as int].0.cells@.len(),
                    owner_idx@.len() == n,
                    forall|i: int|
                        0 <= i < owner_idx@.len() ==> (#[trigger] owner_idx@[i]) < ncomp,
                    owner_partial(*grid, s, owner_idx@, m as int, k as int),
                decreases cells_len - k,
            {
                let p = comps[m].0.cells[k];
                proof {
                    assert(p == s[m as int].0.cells@[k as int]);
                    assert(comp_entry_ok(*grid, s[m as int].0, s[m as int].1@));
                    assert(pos_in_bounds(p, rowsi, colsi));
                    lemma_owner_write(*grid, s, owner_idx@, m as int, k as int, m);
                }
                let idx = index_of(p, cols, Ghost(rowsi));
                owner_idx[idx] = m;
                k += 1;
            }
            m += 1;
            proof {
                assert(owner_partial(*grid, s, owner_idx@, m as int, 0)) by {
                    assert forall|m2: int, k2: int|
                        #![trigger s[m2].0.cells@[k2]]
                        0 <= m2 < s.len() && 0 <= k2 < s[m2].0.cells@.len() && (m2 < m as int || (
                        m2 == m as int && k2 < 0)) implies owner_idx@[pos_index(
                        s[m2].0.cells@[k2],
                        colsi,
                    )] as int == m2 by {
                        if m2 == m as int - 1 {
                            assert(owner_partial(*grid, s, owner_idx@, m as int - 1, k as int));
                        }
                    }
                }
            }
        }
        proof {
            assert(owner_ok(*grid, s, owner_idx@));
        }

        // second pass: resolve each component's border cells to neighbour ids
        let mut neighbours: Vec<Option<Vec<usize>>> = Vec::new();
        let mut i: usize = 0;
        while i < ncomp
            invariant
                grid.wf(),
                components_post(*grid, s),
                comps@ == s,
                rows == grid.number_of_rows,
                cols == grid.number_of_columns,
                rowsi == rows as int,
                colsi == cols as int,
                n == grid.cells@.len(),
                ncomp == s.len(),
                i <= ncomp,
                owner_ok(*grid, s, owner_idx@),
                neighbours@.len() == i,
                forall|i2: int| 0 <= i2 < i ==> (#[trigger] neighbours@[i2]) is Some,
                forall|i2: int|
                    0 <= i2 < i ==> (#[trigger] neighbours@[i2])->Some_0@.no_duplicates(),
                forall|i2: int, x: usize|
                    0 <= i2 < i ==> ((#[trigger] neighbours@[i2]->Some_0@.contains(x))
                        <==> exists|t: int|
                        0 <= t < s[i2].1@.len() && owner_idx@[pos_index(
                            #[trigger] s[i2].1@[t],
                            colsi,
                        )] == x),
            decreases ncomp - i,
        {
            let boundary_len = comps[i].1.len();
            let mut ids: Vec<usize> = Vec::new();
            let mut t: usize = 0;
            while t < boundary_len
                invariant
                    grid.wf(),
                    components_post(*grid, s),
                    comps@ == s,
                    rows == grid.number_of_rows,
                    cols == grid.number_of_columns,
                    rowsi == rows as int,
                    colsi == cols as int,
                    n == grid.cells@.len(),
                    ncomp == s.len(),
                    i < ncomp,
                    t <= boundary_len,
                    boundary_len == s[i as int].1@.len(),
                    owner_ok(*grid, s, owner_idx@),
                    ids@.no_duplicates(),
                    forall|x: usize|
                        (#[trigger] ids@.contains(x)) <==> exists|t2: int|
                            0 <= t2 < t && owner_idx@[pos_index(
                                #[trigger] s[i as int].1@[t2],
                                colsi,
                            )] == x,
                decreases boundary_len - t,
            {
                let b = comps[i].1[t];
                proof {
                    assert(b == s[i as int].1@[t as int]);
                    assert(comp_entry_ok(*grid, s[i as int].0, s[i as int].1@));
                    assert(pos_in_bounds(b, rowsi, colsi));
                    lemma_index_bound(b.row as int, b.column as int, rowsi, colsi);
                }
                let bidx = index_of(b, cols, Ghost(rowsi));
                let j = owner_idx[bidx];
                let ghost ids0 = ids@;
                if !contains_id(&ids, j) {
                    ids.push(j);
                    proof {
                        assert(ids@[ids@.len() - 1] == j);
                        assert forall|a: int, bb: int|
                            0 <= a < ids@.len() && 0 <= bb < ids@.len() && a != bb implies ids@[a]
                            != ids@[bb] by {
                            if a < ids0.len() && bb < ids0.len() {
                                assert(ids0[a] != ids0[bb]);
                            } else if bb == ids0.len() {
                                if ids@[a] == j {
                                    assert(ids0.contains(j));
                                }
                            } else {
                                assert(a == ids0.len());
                                if ids@[bb] == j {
                                    assert(ids0.contains(j));
                                }
                            }
                        }
                        assert(ids@.no_duplicates());
                    }
                }
                t += 1;
                proof {
                    assert forall|x: usize| (#[trigger] ids@.contains(x)) implies exists|t2: int|
                        0 <= t2 < t && owner_idx@[pos_index(
                            #[trigger] s[i as int].1@[t2],
                            colsi,
                        )] == x by {
                        if ids0.contains(x) {
                        } else {
                            assert(x == j);
                            assert(owner_idx@[pos_index(s[i as int].1@[t - 1], colsi)] == x);
                        }
                    }
                    assert forall|x: usize|
                        (exists|t2: int|
                            0 <= t2 < t && owner_idx@[pos_index(
                                #[trigger] s[i as int].1@[t2],
                                colsi,
                            )] == x) implies ids@.contains(x) by {
                        let t2 = choose|t2: int|
                            0 <= t2 < t && owner_idx@[pos_index(
                                #[trigger] s[i as int].1@[t2],
                                colsi,
                            )] == x;
                        if t2 < t - 1 {
                            assert(ids0.contains(x));
                            if !ids@.contains(x) {
                                let a = choose|a: int| 0 <= a < ids0.len() && ids0[a] == x;
                                assert(ids@[a] == x);
                            }
                        } else {
                            assert(x == j);
                            if ids0.contains(j) {
                                let a = choose|a: int| 0 <= a < ids0.len() && ids0[a] == j;
                                assert(ids@[a] == j);
                            } else {
                                assert(ids@[ids@.len() - 1] == j);
                            }
                        }
                    }
                }
            }
            neighbours.push(Some(ids));
            i += 1;
        }

        // slot the components into the arena in id order
        let mut components: Vec<Option<ConnectedComponent>> = Vec::new();
        while comps.len() > 0
            invariant
                components@.len() + comps@.len() == s.len(),
                comps@ =~= s.skip(components@.len() as int),
                forall|i2: int|
                    0 <= i2 < components@.len() ==> (#[trigger] components@[i2]) == Some(s[i2].0),
            decreases comps@.len(),
        {
            let ghost done = components@.len() as int;
            let (cc, _boundary) = comps.remove(0);
            proof {
                assert(cc == s[done].0);
                assert(comps@ =~= s.skip(done + 1));
            }
            components.push(Some(cc));
        }

        let ghost owner_map = Map::new(
            |p: Position| pos_in_bounds(p, rowsi, colsi),
            |p: Position| owner_idx@[pos_index(p, colsi)] as int,
        );
        let g = Graph {
            components,
            neighbours,
            rows: Ghost(rowsi),
            cols: Ghost(colsi),
            owner: Ghost(owner_map),
        };
        proof {
            assert(comps_slotted(s, g.components@));
            assert(nbrs_resolved(*grid, s, owner_idx@, g.neighbours@));
            lemma_create_ok(*grid, s, owner_idx@, g);
        }
        g
    }
}


/// Whether a cell list holds a given position.
pub(crate) fn contains_position(cells: &Vec<Position>, p: &Position) -> (r: bool)
    ensures
        r == cells@.contains(*p),
{
    let mut i: usize = 0;
    while i < cells.len()
        invariant
            i <= cells@.len(),
            forall|n: int| 0 <= n < i ==> cells@[n] != *p,
        decreases cells@.len() - i,
    {
        if cells[i].row == p.row && cells[i].column == p.column {
            proof {
                assert(cells@[i as int] == *p);
            }
            return true;
        }
        i += 1;
    }
    false
}

impl Graph {
    /// Returns the component owning a position, by scanning all components
    /// for cell membership.  Always succeeds: every in-bounds cell belongs
    /// to exactly one component.
    pub fn find_component(&self, position: &Position) -> (r: &ConnectedComponent)
        requires
            self.wf(),
            pos_in_bounds(*position, self.rows@, self.cols@),
        ensures
            r.id as int == self.owner@[*position],
            self.live(r.id as int),
            *r == self.comp(r.id as int),
            r.cells@.contains(*position),
    {
        let mut i: usize = 0;
        while i < self.components.len()
            invariant
                self.wf(),
                pos_in_bounds(*position, self.rows@, self.cols@),
                i <= self.components@.len(),
                forall|i2: int|
                    0 <= i2 < i && #[trigger] self.live(i2) ==> !self.comp(i2).cells@.contains(
                        *position,
                    ),
            decreases self.components@.len() - i,
        {
            match &self.components[i] {
                Some(c) => {
                    if contains_position(&c.cells, position) {
                        proof {
                            assert(self.live(i as int));
                            assert(self.comp(i as int).cells@.contains(*position));
                            let k = choose|k: int|
                                0 <= k < self.comp(i as int).cells@.len() && self.comp(
                                    i as int,
                                ).cells@[k] == *position;
                            assert(self.owner@[*position] == i as int);
                        }
                        return c;
                    }
                },
                None => {},
            }
            i += 1;
        }
        proof {
            let o = self.owner@[*position];
            assert(self.owner@.contains_key(*position));
            assert(self.live(o));
            assert(self.comp(o).cells@.contains(*position));
            assert(false);
        }
        vstd::pervasive::unreached()
    }
}


impl Graph {
    /// Rebuilds the grid the graph currently represents: every component
    /// paints its cells with its colour.
    pub fn to_grid(&self, rows: usize, columns: usize) -> (out: Grid)
        requires
            self.wf(),
            rows as int == self.rows@,
            columns as int == self.cols@,
        ensures
            out.wf(),
            out.number_of_rows == rows,
            out.number_of_columns == columns,
            self.agrees_with(out),
    {
        let ghost rowsi = rows as int;
        let ghost colsi = columns as int;
        let n = rows * columns;
        let mut cells: Vec<Colour> = Vec::new();
        while cells.len() < n
            invariant
                cells@.len() <= n,
            decreases n - cells@.len(),
        {
            cells.push(Colour::Red);
        }
        let total = self.components.len();
        let mut i: usize = 0;
        while i < total
            invariant
                self.wf(),
                rowsi == rows as int,
                colsi == columns as int,
                rowsi == self.rows@,
                colsi == self.cols@,
                n == rowsi * colsi,
                total == self.components@.len(),
                i <= total,
                cells@.len() == n,
                forall|p: Position|
                    #![trigger pos_index(p, colsi)]
                    pos_in_bounds(p, rowsi, colsi) && 0 <= self.owner@[p] < i ==> cells@[pos_index(
                        p,
                        colsi,
                    )] == self.comp(self.owner@[p]).colour,
            decreases total - i,
        {
            match &self.components[i] {
                Some(c) => {
                    let ghost cells_pre_comp = cells@;
                    let colour = c.colour;
                    let cell_count = c.cells.len();
                    let mut k: usize = 0;
                    while k < cell_count
                        invariant
                            self.wf(),
                            rowsi == rows as int,
                            colsi == columns as int,
                            rowsi == self.rows@,
                            colsi == self.cols@,
                            n == rowsi * colsi,
                            i < self.components@.len(),
                            self.live(i as int),
                            c == self.comp(i as int),
                            colour == c.colour,
                            cell_count == c.cells@.len(),
                            k <= cell_count,
                            cells@.len() == n,
                            forall|p: Position|
                                #![trigger pos_index(p, colsi)]
                                pos_in_bounds(p, rowsi, colsi) && 0 <= self.owner@[p] < i
                                    ==> cells@[pos_index(p, colsi)] == self.comp(
                                    self.owner@[p],
                                ).colour,
                            forall|k2: int|
                                0 <= k2 < k ==> cells@[pos_index(
                                    #[trigger] c.cells@[k2],
                                    colsi,
                                )] == colour,
                        decreases cell_count - k,
                    {
                        let p = c.cells[k];
                        proof {
                            assert(c.cells@[k as int] == p);
                            assert(pos_in_bounds(p, rowsi, colsi));
                            assert(self.owner@[p] == i as int);
                        }
                        let idx = index_of(p, columns, Ghost(rowsi));
                        let ghost cells_pre = cells@;
                        cells[idx] = colour;
                        k += 1;
                        proof {
                            assert forall|p2: Position|
                                #![trigger pos_index(p2, colsi)]
                                pos_in_bounds(p2, rowsi, colsi) && 0 <= self.owner@[p2] < i
                                    implies cells@[pos_index(p2, colsi)] == self.comp(
                                self.owner@[p2],
                            ).colour by {
                                lemma_index_bound(p2.row as int, p2.column as int, rowsi, colsi);
                                assert(pos_index(p2, colsi) != pos_index(p, colsi)) by {
                                    if pos_index(p2, colsi) == pos_index(p, colsi) {
                                        lemma_index_injective(p2, p, colsi);
                                        assert(self.owner@[p2] == i as int);
                                    }
                                }
                            }
                            assert forall|k2: int|
                                0 <= k2 < k implies cells@[pos_index(
                                #[trigger] c.cells@[k2],
                                colsi,
                            )] == colour by {
                                let p2 = c.cells@[k2];
                                lemma_index_bound(p2.row as int, p2.column as int, rowsi, colsi);
                                if k2 < k - 1 {
                                    assert(cells_pre[pos_index(p2, colsi)] == colour);
                                    assert(pos_index(p2, colsi) != pos_index(p, colsi)) by {
                                        if pos_index(p2, colsi) == pos_index(p, colsi) {
                                            lemma_index_injective(p2, p, colsi);
                                            assert(c.cells@.no_duplicates());
                                        }
                                    }
                                } else {
                                    assert(p2 == p);
                                }
                            }
                        }
                    }
                    proof {
                        assert forall|p: Position|
                            #![trigger pos_index(p, colsi)]
                            pos_in_bounds(p, rowsi, colsi) && 0 <= self.owner@[p] < i + 1
                                implies cells@[pos_index(p, colsi)] == self.comp(
                            self.owner@[p],
                        ).colour by {
                            if self.owner@[p] == i as int {
                                assert(self.owner@.contains_key(p));
                                assert(self.comp(i as int).cells@.contains(p));
                                let k2 = choose|k2: int|
                                    0 <= k2 < c.cells@.len() && c.cells@[k2] == p;
                                assert(cells@[pos_index(c.cells@[k2], colsi)] == colour);
                            }
                        }
                    }
                },
                None => {
                    proof {
                        assert forall|p: Position|
                            #![trigger pos_index(p, colsi)]
                            pos_in_bounds(p, rowsi, colsi) && 0 <= self.owner@[p] < i + 1
                                implies cells@[pos_index(p, colsi)] == self.comp(
                            self.owner@[p],
                        ).colour by {
                            if self.owner@[p] == i as int {
                                assert(self.owner@.contains_key(p));
                                assert(self.live(i as int));
                            }
                        }
                    }
                },
            }
            i += 1;
        }
        let out = Grid { number_of_rows: rows, number_of_columns: columns, cells };
        proof {
            assert forall|p: Position|
                pos_in_bounds(p, self.rows@, self.cols@) implies #[trigger] self.colour_of_pos(p)
                == out.colour_at(p) by {
                assert(self.owner@.contains_key(p));
                assert(self.live(self.owner@[p]));
                assert(0 <= self.owner@[p] < total as int);
            }
        }
        out
    }
}


/// The live count over a prefix grows slot by slot.
proof fn lemma_live_count_take_step(s: Seq<Option<ConnectedComponent>>, i: int)
    requires
        0 <= i < s.len(),
    ensures
        live_count(s.take(i + 1)) == live_count(s.take(i)) + (if s[i] is Some {
            1int
        } else {
            0int
        }),
{
    assert(s.take(i + 1).drop_last() =~= s.take(i));
    assert(s.take(i + 1).last() == s[i]);
}

impl Graph {
    /// How many components remain: the number of live slots of the arena.
    /// The puzzle is solved exactly when this reaches one.
    pub fn component_count(&self) -> (r: usize)
        ensures
            r as int == self.count(),
    {
        let mut count: usize = 0;
        let mut i: usize = 0;
        proof {
            assert(self.components@.take(0) =~= Seq::<Option<ConnectedComponent>>::empty());
        }
        while i < self.components.len()
            invariant
                i <= self.components@.len(),
                count <= i,
                count as int == live_count(self.components@.take(i as int)),
            decreases self.components@.len() - i,
        {
            proof {
                lemma_live_count_take_step(self.components@, i as int);
            }
            if self.components[i].is_some() {
                count += 1;
            }
            i += 1;
        }
        proof {
            assert(self.components@.take(self.components@.len() as int) =~= self.components@);
        }
        count
    }
}

} // verus!





