use vstd::prelude::*;

use crate::colour::Colour;
use crate::graph::{
    contains_id, live_count, opt_comp_cells, pos_in_bounds, total_cells, ConnectedComponent,
    Graph, Position,
};

// The merge operation: the one state transition of the game.  Recolouring
// the component at a position folds every currently neighbouring component
// of the new colour into it, in place, while the partition and the
// symmetric adjacency relation are maintained.

verus! {

/// Changing one slot of the component arena moves the live count by the
/// difference of the two slots.
proof fn lemma_live_count_update(
    s: Seq<Option<ConnectedComponent>>,
    i: int,
    v: Option<ConnectedComponent>,
)
    requires
        0 <= i < s.len(),
    ensures
        live_count(s.update(i, v)) == live_count(s) - (if s[i] is Some {
            1int
        } else {
            0int
        }) + (if v is Some {
            1int
        } else {
            0int
        }),
    decreases s.len(),
{
    let t = s.update(i, v);
    if i == s.len() - 1 {
        assert(t.drop_last() =~= s.drop_last());
    } else {
        lemma_live_count_update(s.drop_last(), i, v);
        assert(t.drop_last() =~= s.drop_last().update(i, v));
        assert(t.last() == s.last());
    }
}

/// Changing one slot of the component arena moves the cell total by the
/// difference of the two slots.
proof fn lemma_total_cells_update(
    s: Seq<Option<ConnectedComponent>>,
    i: int,
    v: Option<ConnectedComponent>,
)
    requires
        0 <= i < s.len(),
    ensures
        total_cells(s.update(i, v)) == total_cells(s) - opt_comp_cells(s[i]) + opt_comp_cells(v),
    decreases s.len(),
{
    let t = s.update(i, v);
    if i == s.len() - 1 {
        assert(t.drop_last() =~= s.drop_last());
    } else {
        lemma_total_cells_update(s.drop_last(), i, v);
        assert(t.drop_last() =~= s.drop_last().update(i, v));
        assert(t.last() == s.last());
    }
}

/// Membership in a concatenation is membership in either part.
proof fn lemma_append_contains<T>(s1: Seq<T>, s2: Seq<T>, x: T)
    ensures
        (s1 + s2).contains(x) <==> s1.contains(x) || s2.contains(x),
{
    if s1.contains(x) {
        let i = choose|i: int| 0 <= i < s1.len() && s1[i] == x;
        assert((s1 + s2)[i] == x);
    }
    if s2.contains(x) {
        let i = choose|i: int| 0 <= i < s2.len() && s2[i] == x;
        assert((s1 + s2)[s1.len() + i] == x);
    }
    if (s1 + s2).contains(x) {
        let i = choose|i: int| 0 <= i < (s1 + s2).len() && (s1 + s2)[i] == x;
        if i < s1.len() {
            assert(s1[i] == x);
        } else {
            assert(s2[i - s1.len()] == x);
        }
    }
}

impl Graph {
    /// The ids of the neighbours of component i that already carry the
    /// given colour: exactly the components one merge at i will absorb.
    pub open spec fn matched_set(self, i: int, colour: Colour) -> Set<int> {
        Set::new(
            |j: int|
                0 <= j < self.components@.len() && self.live(j) && self.nbr_mem(i, j)
                    && self.comp(j).colour == colour,
        )
    }

    /// The matched set is finite and no larger than the arena.
    pub proof fn lemma_matched_finite(self, i: int, colour: Colour)
        ensures
            self.matched_set(i, colour).finite(),
            self.matched_set(i, colour).len() <= self.components@.len(),
    {
        let len = self.components@.len() as int;
        let r = vstd::set_lib::set_int_range(0, len);
        vstd::set_lib::lemma_int_range(0, len);
        assert(self.matched_set(i, colour).subset_of(r));
        vstd::set_lib::lemma_len_subset(self.matched_set(i, colour), r);
    }
}

/// The full effect of one merge at a position: with i the id of the
/// component owning the position and m the set of its neighbours that
/// already carry the target colour, exactly the components in m die, the
/// survivor keeps id i, takes the target colour, the union of the absorbed
/// cell sets and the union of the absorbed adjacency sets (minus itself and
/// the absorbed), every other component keeps its cells and trades absorbed
/// neighbours for the survivor, the component count drops by the size of m,
/// and ownership of the absorbed cells moves to the survivor.
pub open spec fn merge_spec(g0: Graph, g1: Graph, pos: Position, colour: Colour) -> bool {
    let i = g0.owner@[pos];
    let m = g0.matched_set(i, colour);
    &&& g1.rows@ == g0.rows@
    &&& g1.cols@ == g0.cols@
    &&& g1.components@.len() == g0.components@.len()
    &&& forall|j: int|
        0 <= j < g0.components@.len() ==> (#[trigger] g1.live(j) <==> (g0.live(j) && !m.contains(
            j,
        )))
    &&& forall|j: int| #[trigger] g1.live(j) && j != i ==> g1.comp(j) == g0.comp(j)
    &&& g1.live(i)
    &&& g1.comp(i).id == g0.comp(i).id
    &&& g1.comp(i).colour == colour
    &&& forall|p: Position|
        #[trigger] g1.comp(i).cells@.contains(p) <==> (g0.comp(i).cells@.contains(p) || (
        exists|a: int| #[trigger] m.contains(a) && g0.comp(a).cells@.contains(p)))
    &&& forall|j: int|
        #[trigger] g1.nbr_mem(i, j) <==> ((g0.nbr_mem(i, j) || (exists|a: int| #[trigger]
        m.contains(a) && g0.nbr_mem(a, j))) && j != i && !m.contains(j))
    &&& forall|j: int, x: int|
        g1.live(j) && j != i ==> ((#[trigger] g1.nbr_mem(j, x)) <==> ((g0.nbr_mem(j, x)
            && !m.contains(x)) || (x == i && (exists|a: int| #[trigger] m.contains(a)
            && g0.nbr_mem(j, a)))))
    &&& g1.count() == g0.count() - m.len()
    &&& g1.owner@.dom() == g0.owner@.dom()
    &&& forall|p: Position|
        #[trigger] g0.owner@.contains_key(p) ==> g1.owner@[p] == (if m.contains(g0.owner@[p]) {
            i
        } else {
            g0.owner@[p]
        })
}

/// The state the merge leaves the two arenas in, before well-formedness is
/// re-derived: absorbed slots cleared, the survivor rebuilt at the anchor
/// id, every other adjacency list filtered and repointed, the owner map
/// repointed.
pub open spec fn merge_built(g0: Graph, g1: Graph, anchor: int, colour: Colour, m: Set<int>) -> bool {
    let len = g0.components@.len() as int;
    let sc = g1.comp(anchor);
    let sn = g1.nbrs(anchor);
    &&& 0 <= anchor < len
    &&& g0.live(anchor)
    &&& m == g0.matched_set(anchor, colour)
    &&& m.finite()
    &&& !m.contains(anchor)
    &&& g1.components@.len() == len
    &&& g1.neighbours@.len() == g0.neighbours@.len()
    &&& g1.rows@ == g0.rows@
    &&& g1.cols@ == g0.cols@
    &&& forall|j: int|
        #![trigger g1.components@[j]]
        0 <= j < len && j != anchor ==> g1.components@[j] == (if m.contains(j) {
            Option::<ConnectedComponent>::None
        } else {
            g0.components@[j]
        })
    &&& forall|j: int|
        #![trigger g1.neighbours@[j]]
        0 <= j < len && j != anchor ==> {
            if m.contains(j) || !g0.live(j) {
                g1.neighbours@[j] is None
            } else {
                &&& g1.neighbours@[j] is Some
                &&& g1.nbrs(j).no_duplicates()
                &&& forall|x: usize|
                    #[trigger] g1.nbrs(j).contains(x) <==> ((g0.nbrs(j).contains(x)
                        && !m.contains(x as int)) || (x as int == anchor && (exists|a: int|
                        #[trigger] m.contains(a) && g0.nbrs(j).contains(a as usize))))
            }
        }
    &&& g1.components@[anchor] is Some
    &&& sc.id == anchor
    &&& sc.colour == colour
    &&& sc.cells@.no_duplicates()
    &&& forall|p: Position|
        #[trigger] sc.cells@.contains(p) <==> (g0.comp(anchor).cells@.contains(p) || (
        exists|a: int| #[trigger] m.contains(a) && g0.comp(a).cells@.contains(p)))
    &&& g1.neighbours@[anchor] is Some
    &&& sn.no_duplicates()
    &&& forall|x: usize|
        #[trigger] sn.contains(x) <==> ((g0.nbrs(anchor).contains(x) || (exists|a: int|
        #[trigger] m.contains(a) && g0.nbrs(a).contains(x))) && x as int != anchor && !m.contains(
            x as int,
        ))
    &&& total_cells(g1.components@) == g0.rows@ * g0.cols@
    &&& live_count(g1.components@) == live_count(g0.components@) - m.len()
    &&& forall|p: Position|
        #[trigger] g1.owner@.contains_key(p) <==> pos_in_bounds(p, g0.rows@, g0.cols@)
    &&& forall|p: Position|
        #[trigger] g1.owner@.contains_key(p) ==> g1.owner@[p] == (if m.contains(g0.owner@[p]) {
            anchor
        } else {
            g0.owner@[p]
        })
}

/// A built merge state keeps the arenas shaped, the partition exact and
/// the bookkeeping clauses of the merge contract.
#[verifier::rlimit(50)]
proof fn lemma_merge_partition(g0: Graph, g1: Graph, anchor: int, colour: Colour, m: Set<int>)
    requires
        g0.wf(),
        merge_built(g0, g1, anchor, colour, m),
    ensures
        g1.inv_shape(),
        g1.inv_partition(),
        forall|j: int|
            0 <= j < g0.components@.len() ==> (#[trigger] g1.live(j) <==> (g0.live(j)
                && !m.contains(j))),
        forall|j: int| #[trigger] g1.live(j) && j != anchor ==> g1.comp(j) == g0.comp(j),
        g1.live(anchor),
{
    let len = g0.components@.len() as int;
    let rows = g0.rows@;
    let cols = g0.cols@;
    assert(g1.live(anchor));

    assert forall|j: int|
        0 <= j < len implies (#[trigger] g1.live(j) <==> (g0.live(j) && !m.contains(j))) by {
        if j != anchor {
            assert(g1.components@[j] == (if m.contains(j) {
                Option::<ConnectedComponent>::None
            } else {
                g0.components@[j]
            }));
        }
    }
    assert forall|j: int| #[trigger] g1.live(j) && j != anchor implies g1.comp(j) == g0.comp(
        j,
    ) by {
        assert(g1.components@[j] == g0.components@[j]);
    }

    // shape: both arenas stay aligned
    assert forall|j: int|
        0 <= j < g1.components@.len() implies ((#[trigger] g1.components@[j]) is Some
        <==> g1.neighbours@[j] is Some) by {
        if j != anchor {
            if m.contains(j) || !g0.live(j) {
                assert(g1.neighbours@[j] is None);
                if m.contains(j) {
                } else {
                    assert(g0.components@[j] is None);
                }
            } else {
                assert(g1.neighbours@[j] is Some);
                assert(g1.components@[j] == g0.components@[j]);
            }
        }
    }
    assert forall|j: int| #[trigger] g1.live(j) implies g1.comp(j).id == j by {
        if j != anchor {
            assert(g1.comp(j) == g0.comp(j));
        }
    }
    assert(g1.inv_shape());

    // partition: ownership follows the repointed owner map
    assert forall|p: Position| pos_in_bounds(p, rows, cols) implies {
        &&& #[trigger] g1.owner@.contains_key(p)
        &&& g1.live(g1.owner@[p])
        &&& g1.comp(g1.owner@[p]).cells@.contains(p)
    } by {
        let o0 = g0.owner@[p];
        assert(g0.owner@.contains_key(p));
        assert(g1.owner@.contains_key(p));
        assert(g0.live(o0));
        assert(g0.comp(o0).cells@.contains(p));
        if m.contains(o0) {
            assert(g1.owner@[p] == anchor);
            assert(g1.comp(anchor).cells@.contains(p));
        } else if o0 == anchor {
            assert(g1.owner@[p] == anchor);
            assert(g1.comp(anchor).cells@.contains(p));
        } else {
            assert(g1.owner@[p] == o0);
            assert(g1.live(o0));
            assert(g1.comp(o0) == g0.comp(o0));
        }
    }
    assert forall|i: int, k: int|
        g1.live(i) && 0 <= k < g1.comp(i).cells@.len() implies {
        let p = #[trigger] g1.comp(i).cells@[k];
        &&& pos_in_bounds(p, rows, cols)
        &&& g1.owner@[p] == i
    } by {
        let p = g1.comp(i).cells@[k];
        if i != anchor {
            assert(g1.comp(i) == g0.comp(i));
            assert(g0.comp(i).cells@[k] == p);
            assert(pos_in_bounds(p, rows, cols));
            assert(g1.owner@.contains_key(p));
            assert(g0.owner@[p] == i);
            assert(!m.contains(i));
            assert(g1.owner@[p] == i);
        } else {
            assert(g1.comp(anchor).cells@.contains(p));
            if g0.comp(anchor).cells@.contains(p) {
                let kk = choose|kk: int|
                    0 <= kk < g0.comp(anchor).cells@.len() && g0.comp(anchor).cells@[kk] == p;
                assert(pos_in_bounds(p, rows, cols));
                assert(g1.owner@.contains_key(p));
                assert(g0.owner@[p] == anchor);
                assert(g1.owner@[p] == anchor);
            } else {
                let a = choose|a: int|
                    #[trigger] m.contains(a) && g0.comp(a).cells@.contains(p);
                let kk = choose|kk: int|
                    0 <= kk < g0.comp(a).cells@.len() && g0.comp(a).cells@[kk] == p;
                assert(g0.live(a));
                assert(pos_in_bounds(p, rows, cols));
                assert(g1.owner@.contains_key(p));
                assert(g0.owner@[p] == a);
                assert(g1.owner@[p] == anchor);
            }
        }
    }
    assert forall|i: int| #[trigger] g1.live(i) implies g1.comp(i).cells@.no_duplicates()
        && g1.comp(i).cells@.len() >= 1 by {
        if i != anchor {
            assert(g1.comp(i) == g0.comp(i));
        } else {
            assert(g0.comp(anchor).cells@.len() >= 1);
            let p0 = g0.comp(anchor).cells@[0];
            assert(g0.comp(anchor).cells@.contains(p0));
            assert(g1.comp(anchor).cells@.contains(p0));
        }
    }
    assert forall|p: Position| #[trigger]
        g1.owner@.contains_key(p) implies pos_in_bounds(p, rows, cols) by {}
    assert(g1.inv_partition());
}

/// A built merge state keeps adjacency symmetric, duplicate-free, and
/// exactly the touching relation.
#[verifier::rlimit(100)]
proof fn lemma_merge_adjacency(g0: Graph, g1: Graph, anchor: int, colour: Colour, m: Set<int>)
    requires
        g0.wf(),
        merge_built(g0, g1, anchor, colour, m),
        g1.inv_shape(),
        g1.inv_partition(),
        forall|j: int|
            0 <= j < g0.components@.len() ==> (#[trigger] g1.live(j) <==> (g0.live(j)
                && !m.contains(j))),
        forall|j: int| #[trigger] g1.live(j) && j != anchor ==> g1.comp(j) == g0.comp(j),
        g1.live(anchor),
    ensures
        g1.inv_adjacency(),
{
    let len = g0.components@.len() as int;
    let rows = g0.rows@;
    let cols = g0.cols@;

    // each recorded neighbour is live, distinct, symmetric and touching
    assert forall|i: int, k: int|
        g1.live(i) && 0 <= k < g1.nbrs(i).len() implies {
        let j = #[trigger] g1.nbrs(i)[k] as int;
        &&& g1.live(j)
        &&& j != i
        &&& g1.nbr_mem(j, i)
        &&& g1.touches(i, j)
    } by {
        let x = g1.nbrs(i)[k];
        let j = x as int;
        assert(g1.nbrs(i).contains(x));
        if i == anchor {
            // x came from the anchor's or an absorbed component's list
            assert(j != anchor && !m.contains(j));
            if g0.nbrs(anchor).contains(x) {
                let kk = choose|kk: int|
                    0 <= kk < g0.nbrs(anchor).len() && g0.nbrs(anchor)[kk] == x;
                assert(g0.nbrs(anchor)[kk] as int == j);
                assert(g0.live(j) && g0.nbr_mem(j, anchor) && g0.touches(anchor, j));
                assert(g1.live(j));
                assert(g1.comp(j) == g0.comp(j));
                // touching carries over since the survivor keeps the cells
                let (k1, k2) = choose|k1: int, k2: int|
                    0 <= k1 < g0.comp(anchor).cells@.len() && 0 <= k2 < g0.comp(
                        j,
                    ).cells@.len() && crate::graph::pos_adjacent(
                        #[trigger] g0.comp(anchor).cells@[k1],
                        #[trigger] g0.comp(j).cells@[k2],
                    );
                let p = g0.comp(anchor).cells@[k1];
                assert(g0.comp(anchor).cells@.contains(p));
                assert(g1.comp(anchor).cells@.contains(p));
                let k1n = choose|k1n: int|
                    0 <= k1n < g1.comp(anchor).cells@.len() && g1.comp(anchor).cells@[k1n] == p;
                assert(crate::graph::pos_adjacent(
                    g1.comp(anchor).cells@[k1n],
                    g1.comp(j).cells@[k2],
                ));
                assert(g1.touches(anchor, j));
                // symmetry: j pointed at the anchor before, and keeps it
                assert(g1.nbrs(j).contains((anchor as usize))) by {
                    let kb = choose|kb: int|
                        0 <= kb < g0.nbrs(j).len() && #[trigger] g0.nbrs(j)[kb] as int == anchor;
                    assert(g0.nbrs(j).contains(g0.nbrs(j)[kb]));
                    assert(g0.nbrs(j)[kb] == (anchor as usize));
                    assert(!m.contains(anchor));
                }
                let ks = choose|ks: int|
                    0 <= ks < g1.nbrs(j).len() && g1.nbrs(j)[ks] == (anchor as usize);
                assert(g1.nbrs(j)[ks] as int == anchor);
                assert(g1.nbr_mem(j, anchor));
            } else {
                let a = choose|a: int| #[trigger] m.contains(a) && g0.nbrs(a).contains(x);
                assert(g0.live(a));
                let kk = choose|kk: int| 0 <= kk < g0.nbrs(a).len() && g0.nbrs(a)[kk] == x;
                assert(g0.nbrs(a)[kk] as int == j);
                assert(g0.live(j) && g0.nbr_mem(j, a) && g0.touches(a, j));
                assert(g1.live(j));
                assert(g1.comp(j) == g0.comp(j));
                let (k1, k2) = choose|k1: int, k2: int|
                    0 <= k1 < g0.comp(a).cells@.len() && 0 <= k2 < g0.comp(j).cells@.len()
                        && crate::graph::pos_adjacent(
                        #[trigger] g0.comp(a).cells@[k1],
                        #[trigger] g0.comp(j).cells@[k2],
                    );
                let p = g0.comp(a).cells@[k1];
                assert(g0.comp(a).cells@.contains(p));
                assert(g1.comp(anchor).cells@.contains(p));
                let k1n = choose|k1n: int|
                    0 <= k1n < g1.comp(anchor).cells@.len() && g1.comp(anchor).cells@[k1n] == p;
                assert(crate::graph::pos_adjacent(
                    g1.comp(anchor).cells@[k1n],
                    g1.comp(j).cells@[k2],
                ));
                assert(g1.touches(anchor, j));
                // symmetry: j pointed at the absorbed component, so it now
                // points at the survivor
                assert(g1.nbrs(j).contains((anchor as usize))) by {
                    let kb = choose|kb: int|
                        0 <= kb < g0.nbrs(j).len() && #[trigger] g0.nbrs(j)[kb] as int == a;
                    assert(g0.nbrs(j).contains(g0.nbrs(j)[kb]));
                    assert(g0.nbrs(j)[kb] == (a as usize));
                    assert(g0.nbrs(j).contains((a as usize)));
                    assert((anchor as usize) as int == anchor);
                }
                let ks = choose|ks: int|
                    0 <= ks < g1.nbrs(j).len() && g1.nbrs(j)[ks] == (anchor as usize);
                assert(g1.nbrs(j)[ks] as int == anchor);
                assert(g1.nbr_mem(j, anchor));
            }
        } else {
            // a non-survivor list: kept or repointed entries
            assert(!m.contains(i) && g0.live(i));
            if g0.nbrs(i).contains(x) && !m.contains(j) {
                let kk = choose|kk: int| 0 <= kk < g0.nbrs(i).len() && g0.nbrs(i)[kk] == x;
                assert(g0.nbrs(i)[kk] as int == j);
                assert(g0.live(j) && j != i && g0.nbr_mem(j, i) && g0.touches(i, j));
                assert(g1.live(j));
                assert(g1.comp(i) == g0.comp(i));
                if j == anchor {
                    // the survivor keeps the anchor's cells, so they still touch
                    let (k1, k2) = choose|k1: int, k2: int|
                        0 <= k1 < g0.comp(i).cells@.len() && 0 <= k2 < g0.comp(
                            anchor,
                        ).cells@.len() && crate::graph::pos_adjacent(
                            #[trigger] g0.comp(i).cells@[k1],
                            #[trigger] g0.comp(anchor).cells@[k2],
                        );
                    let q = g0.comp(anchor).cells@[k2];
                    assert(g0.comp(anchor).cells@.contains(q));
                    assert(g1.comp(anchor).cells@.contains(q));
                    let k2n = choose|k2n: int|
                        0 <= k2n < g1.comp(anchor).cells@.len() && g1.comp(anchor).cells@[k2n]
                            == q;
                    assert(crate::graph::pos_adjacent(
                        g1.comp(i).cells@[k1],
                        g1.comp(anchor).cells@[k2n],
                    ));
                    assert(g1.touches(i, anchor));
                    // survivor side: i was the anchor's neighbour already
                    assert(g1.nbrs(anchor).contains((i as usize))) by {
                        let kb = choose|kb: int|
                            0 <= kb < g0.nbrs(anchor).len() && #[trigger] g0.nbrs(anchor)[kb]
                                as int == i;
                        assert(g0.nbrs(anchor).contains(g0.nbrs(anchor)[kb]));
                        assert(g0.nbrs(anchor)[kb] == (i as usize));
                        assert((i as usize) as int != anchor);
                    }
                    let ks = choose|ks: int|
                        0 <= ks < g1.nbrs(anchor).len() && g1.nbrs(anchor)[ks] == (i as usize);
                    assert(g1.nbrs(anchor)[ks] as int == i);
                    assert(g1.nbr_mem(anchor, i));
                } else {
                    assert(g1.comp(j) == g0.comp(j));
                    assert(g1.touches(i, j)) by {
                        let (k1, k2) = choose|k1: int, k2: int|
                            0 <= k1 < g0.comp(i).cells@.len() && 0 <= k2 < g0.comp(
                                j,
                            ).cells@.len() && crate::graph::pos_adjacent(
                                #[trigger] g0.comp(i).cells@[k1],
                                #[trigger] g0.comp(j).cells@[k2],
                            );
                        assert(crate::graph::pos_adjacent(
                            g1.comp(i).cells@[k1],
                            g1.comp(j).cells@[k2],
                        ));
                    }
                    // symmetry: i stays in j's kept entries
                    assert(g1.nbrs(j).contains((i as usize))) by {
                        let kb = choose|kb: int|
                            0 <= kb < g0.nbrs(j).len() && #[trigger] g0.nbrs(j)[kb] as int == i;
                        assert(g0.nbrs(j).contains(g0.nbrs(j)[kb]));
                        assert(g0.nbrs(j)[kb] == (i as usize));
                        assert(!m.contains(i));
                    }
                    let ks = choose|ks: int|
                        0 <= ks < g1.nbrs(j).len() && g1.nbrs(j)[ks] == (i as usize);
                    assert(g1.nbrs(j)[ks] as int == i);
                    assert(g1.nbr_mem(j, i));
                }
            } else {
                // the repointed entry: x is the anchor, standing in for an
                // absorbed neighbour of i
                assert(x as int == anchor);
                let a = choose|a: int| #[trigger] m.contains(a) && g0.nbrs(i).contains(
                    (a as usize),
                );
                assert(g0.live(a));
                let kk = choose|kk: int|
                    0 <= kk < g0.nbrs(i).len() && g0.nbrs(i)[kk] == (a as usize);
                assert(g0.nbrs(i)[kk] as int == a);
                assert(g0.touches(i, a) && a != i);
                let (k1, k2) = choose|k1: int, k2: int|
                    0 <= k1 < g0.comp(i).cells@.len() && 0 <= k2 < g0.comp(a).cells@.len()
                        && crate::graph::pos_adjacent(
                        #[trigger] g0.comp(i).cells@[k1],
                        #[trigger] g0.comp(a).cells@[k2],
                    );
                let q = g0.comp(a).cells@[k2];
                assert(g0.comp(a).cells@.contains(q));
                assert(g1.comp(anchor).cells@.contains(q));
                let k2n = choose|k2n: int|
                    0 <= k2n < g1.comp(anchor).cells@.len() && g1.comp(anchor).cells@[k2n] == q;
                assert(g1.comp(i) == g0.comp(i));
                assert(crate::graph::pos_adjacent(
                    g1.comp(i).cells@[k1],
                    g1.comp(anchor).cells@[k2n],
                ));
                assert(g1.touches(i, anchor));
                assert(j != i);
                assert(g1.live(anchor));
                // survivor side: i is a neighbour of the absorbed a
                assert(g1.nbrs(anchor).contains((i as usize))) by {
                    assert(g0.nbr_mem(a, i)) by {
                        assert(g0.nbrs(i)[kk] as int == a);
                        assert(g0.nbr_mem(a, i));
                    }
                    let kb = choose|kb: int|
                        0 <= kb < g0.nbrs(a).len() && #[trigger] g0.nbrs(a)[kb] as int == i;
                    assert(g0.nbrs(a).contains(g0.nbrs(a)[kb]));
                    assert(g0.nbrs(a)[kb] == (i as usize));
                    assert((i as usize) as int != anchor);
                    assert(!m.contains(i));
                }
                let ks = choose|ks: int|
                    0 <= ks < g1.nbrs(anchor).len() && g1.nbrs(anchor)[ks] == (i as usize);
                assert(g1.nbrs(anchor)[ks] as int == i);
                assert(g1.nbr_mem(anchor, i));
            }
        }
    }

    assert forall|i: int| #[trigger] g1.live(i) implies g1.nbrs(i).no_duplicates() by {
        if i != anchor {
            assert(!m.contains(i) && g0.live(i));
        }
    }

    // completeness: touching live components are recorded
    assert forall|i: int, j: int|
        g1.live(i) && g1.live(j) && i != j && #[trigger] g1.touches(i, j) implies g1.nbr_mem(
        i,
        j,
    ) by {
        let (k1, k2) = choose|k1: int, k2: int|
            0 <= k1 < g1.comp(i).cells@.len() && 0 <= k2 < g1.comp(j).cells@.len()
                && crate::graph::pos_adjacent(
                #[trigger] g1.comp(i).cells@[k1],
                #[trigger] g1.comp(j).cells@[k2],
            );
        let p = g1.comp(i).cells@[k1];
        let q = g1.comp(j).cells@[k2];
        // trace each cell to its old owner
        let oi = g0.owner@[p];
        let oj = g0.owner@[q];
        assert(g1.owner@.contains_key(p));
        assert(g1.owner@.contains_key(q));
        assert(pos_in_bounds(p, rows, cols) && g1.owner@[p] == i);
        assert(pos_in_bounds(q, rows, cols) && g1.owner@[q] == j);
        assert(g0.owner@.contains_key(p));
        assert(g0.owner@.contains_key(q));
        assert(g0.live(oi) && g0.comp(oi).cells@.contains(p));
        assert(g0.live(oj) && g0.comp(oj).cells@.contains(q));
        let kp = choose|kp: int| 0 <= kp < g0.comp(oi).cells@.len() && g0.comp(oi).cells@[kp] == p;
        let kq = choose|kq: int| 0 <= kq < g0.comp(oj).cells@.len() && g0.comp(oj).cells@[kq] == q;
        assert(oi != oj) by {
            if oi == oj {
                assert(g0.owner@[p] == g0.owner@[q]);
                assert(g1.owner@[p] == g1.owner@[q]);
            }
        }
        assert(crate::graph::pos_adjacent(g0.comp(oi).cells@[kp], g0.comp(oj).cells@[kq]));
        assert(g0.touches(oi, oj));
        assert(g0.nbr_mem(oi, oj));
        let kn = choose|kn: int| 0 <= kn < g0.nbrs(oi).len() && #[trigger] g0.nbrs(oi)[kn] as int
            == oj;
        assert(g0.nbrs(oi).contains(g0.nbrs(oi)[kn]));
        assert(g0.nbrs(oi).contains((oj as usize)));
        if i == anchor {
            // p's old owner is the anchor or absorbed; j kept its cells
            assert(oj == j) by {
                assert(!m.contains(j));
                assert(g1.comp(j) == g0.comp(j));
                assert(g0.comp(j).cells@[k2] == q);
                assert(g0.owner@[q] == j);
            }
            assert(g1.nbrs(anchor).contains((j as usize))) by {
                if oi == anchor {
                    assert(g0.nbrs(anchor).contains((j as usize)));
                } else {
                    assert(m.contains(oi)) by {
                        assert(g1.owner@[p] == anchor);
                    }
                    assert(g0.nbrs(oi).contains((j as usize)));
                }
                assert((j as usize) as int != anchor);
                assert(!m.contains(j));
            }
            let ks = choose|ks: int|
                0 <= ks < g1.nbrs(anchor).len() && g1.nbrs(anchor)[ks] == (j as usize);
            assert(g1.nbrs(anchor)[ks] as int == j);
        } else {
            assert(oi == i) by {
                assert(!m.contains(i));
                assert(g1.comp(i) == g0.comp(i));
                assert(g0.comp(i).cells@[k1] == p);
                assert(g0.owner@[p] == i);
            }
            if j == anchor {
                // q's old owner is the anchor or absorbed; either way i's
                // rebuilt list points at the survivor
                assert(g1.nbrs(i).contains((anchor as usize))) by {
                    if oj == anchor {
                        assert(g0.nbrs(i).contains((anchor as usize)));
                        assert(!m.contains(anchor));
                    } else {
                        assert(m.contains(oj)) by {
                            assert(g1.owner@[q] == anchor);
                        }
                        assert(g0.nbrs(i).contains((oj as usize)));
                        assert((anchor as usize) as int == anchor);
                    }
                }
                let ks = choose|ks: int|
                    0 <= ks < g1.nbrs(i).len() && g1.nbrs(i)[ks] == (anchor as usize);
                assert(g1.nbrs(i)[ks] as int == anchor);
            } else {
                assert(oj == j) by {
                    assert(!m.contains(j));
                    assert(g1.comp(j) == g0.comp(j));
                    assert(g0.comp(j).cells@[k2] == q);
                    assert(g0.owner@[q] == j);
                }
                assert(g1.nbrs(i).contains((j as usize))) by {
                    assert(!m.contains(j));
                }
                let ks = choose|ks: int|
                    0 <= ks < g1.nbrs(i).len() && g1.nbrs(i)[ks] == (j as usize);
                assert(g1.nbrs(i)[ks] as int == j);
            }
        }
    }
    assert(g1.inv_adjacency());
}

/// A built merge state is well formed and realizes the merge contract.
proof fn lemma_merge_ok(
    g0: Graph,
    g1: Graph,
    pos: Position,
    anchor: int,
    colour: Colour,
    m: Set<int>,
)
    requires
        g0.wf(),
        merge_built(g0, g1, anchor, colour, m),
        pos_in_bounds(pos, g0.rows@, g0.cols@),
        anchor == g0.owner@[pos],
    ensures
        g1.wf(),
        merge_spec(g0, g1, pos, colour),
{
    lemma_merge_partition(g0, g1, anchor, colour, m);
    lemma_merge_adjacency(g0, g1, anchor, colour, m);
    assert(g1.wf());

    // the neighbour clauses of the contract, membership-wise
    assert forall|j: int| #[trigger]
        g1.nbr_mem(anchor, j) <==> ((g0.nbr_mem(anchor, j) || (exists|a: int| #[trigger]
        m.contains(a) && g0.nbr_mem(a, j))) && j != anchor && !m.contains(j)) by {
        if g1.nbr_mem(anchor, j) {
            let k = choose|k: int|
                0 <= k < g1.nbrs(anchor).len() && #[trigger] g1.nbrs(anchor)[k] as int == j;
            let x = g1.nbrs(anchor)[k];
            assert(g1.nbrs(anchor).contains(x));
            if g0.nbrs(anchor).contains(x) {
                let kk = choose|kk: int|
                    0 <= kk < g0.nbrs(anchor).len() && g0.nbrs(anchor)[kk] == x;
                assert(g0.nbrs(anchor)[kk] as int == j);
                assert(g0.nbr_mem(anchor, j));
            } else {
                let a = choose|a: int| #[trigger] m.contains(a) && g0.nbrs(a).contains(x);
                let kk = choose|kk: int| 0 <= kk < g0.nbrs(a).len() && g0.nbrs(a)[kk] == x;
                assert(g0.nbrs(a)[kk] as int == j);
                assert(g0.nbr_mem(a, j));
            }
        }
        if (g0.nbr_mem(anchor, j) || (exists|a: int| #[trigger] m.contains(a) && g0.nbr_mem(
            a,
            j,
        ))) && j != anchor && !m.contains(j) {
            if g0.nbr_mem(anchor, j) {
                let k = choose|k: int|
                    0 <= k < g0.nbrs(anchor).len() && #[trigger] g0.nbrs(anchor)[k] as int == j;
                let x = g0.nbrs(anchor)[k];
                assert(g0.nbrs(anchor).contains(x));
                assert(g1.nbrs(anchor).contains(x));
                let ks = choose|ks: int|
                    0 <= ks < g1.nbrs(anchor).len() && g1.nbrs(anchor)[ks] == x;
                assert(g1.nbrs(anchor)[ks] as int == j);
            } else {
                let a = choose|a: int| #[trigger] m.contains(a) && g0.nbr_mem(a, j);
                let k = choose|k: int|
                    0 <= k < g0.nbrs(a).len() && #[trigger] g0.nbrs(a)[k] as int == j;
                let x = g0.nbrs(a)[k];
                assert(g0.nbrs(a).contains(x));
                assert(g1.nbrs(anchor).contains(x));
                let ks = choose|ks: int|
                    0 <= ks < g1.nbrs(anchor).len() && g1.nbrs(anchor)[ks] == x;
                assert(g1.nbrs(anchor)[ks] as int == j);
            }
        }
    }
    assert forall|j: int, x: int|
        g1.live(j) && j != anchor implies ((#[trigger] g1.nbr_mem(j, x)) <==> ((g0.nbr_mem(j, x)
        && !m.contains(x)) || (x == anchor && (exists|a: int| #[trigger] m.contains(a)
        && g0.nbr_mem(j, a))))) by {
        assert(g0.live(j) && !m.contains(j));
        if g1.nbr_mem(j, x) {
            let k = choose|k: int|
                0 <= k < g1.nbrs(j).len() && #[trigger] g1.nbrs(j)[k] as int == x;
            let xv = g1.nbrs(j)[k];
            assert(g1.nbrs(j).contains(xv));
            if g0.nbrs(j).contains(xv) && !m.contains(xv as int) {
                let kk = choose|kk: int| 0 <= kk < g0.nbrs(j).len() && g0.nbrs(j)[kk] == xv;
                assert(g0.nbrs(j)[kk] as int == x);
                assert(g0.nbr_mem(j, x));
            } else {
                assert(xv as int == anchor);
                let a = choose|a: int| #[trigger] m.contains(a) && g0.nbrs(j).contains(
                    (a as usize),
                );
                let kk = choose|kk: int|
                    0 <= kk < g0.nbrs(j).len() && g0.nbrs(j)[kk] == (a as usize);
                assert(g0.nbrs(j)[kk] as int == a);
                assert(g0.nbr_mem(j, a));
            }
        }
        if (g0.nbr_mem(j, x) && !m.contains(x)) || (x == anchor && (exists|a: int| #[trigger]
        m.contains(a) && g0.nbr_mem(j, a))) {
            if g0.nbr_mem(j, x) && !m.contains(x) {
                let k = choose|k: int|
                    0 <= k < g0.nbrs(j).len() && #[trigger] g0.nbrs(j)[k] as int == x;
                let xv = g0.nbrs(j)[k];
                assert(g0.nbrs(j).contains(xv));
                assert(g1.nbrs(j).contains(xv));
                let ks = choose|ks: int| 0 <= ks < g1.nbrs(j).len() && g1.nbrs(j)[ks] == xv;
                assert(g1.nbrs(j)[ks] as int == x);
            } else {
                let a = choose|a: int| #[trigger] m.contains(a) && g0.nbr_mem(j, a);
                let k = choose|k: int|
                    0 <= k < g0.nbrs(j).len() && #[trigger] g0.nbrs(j)[k] as int == a;
                assert(g0.nbrs(j)[k] == (a as usize));
                assert(g0.nbrs(j).contains((a as usize)));
                assert(g1.nbrs(j).contains((anchor as usize)));
                let ks = choose|ks: int|
                    0 <= ks < g1.nbrs(j).len() && g1.nbrs(j)[ks] == (anchor as usize);
                assert(g1.nbrs(j)[ks] as int == anchor);
                assert(g1.nbr_mem(j, anchor));
            }
        }
    }
    // owner map domain
    assert(g1.owner@.dom() =~= g0.owner@.dom()) by {
        assert forall|p: Position| #[trigger]
            g0.owner@.contains_key(p) implies g1.owner@.contains_key(p) by {}
        assert forall|p: Position| #[trigger]
            g1.owner@.contains_key(p) implies g0.owner@.contains_key(p) by {}
    }
}


impl Graph {
    /// The one state transition of the game: recolours the component at
    /// the given position and folds into it every currently neighbouring
    /// component that already carries the target colour.  Adjacency to
    /// newly absorbed components is not chased transitively: only the
    /// anchor's neighbours at the start of the call are considered.
    #[verifier::rlimit(100)]
    pub fn change_colour_of_component_at(&mut self, position: &Position, colour: Colour)
        requires
            old(self).wf(),
            pos_in_bounds(*position, old(self).rows@, old(self).cols@),
        ensures
            final(self).wf(),
            merge_spec(*old(self), *final(self), *position, colour),
    {
        let ghost g0 = *self;
        let component_id = self.find_component(position).id;
        let ghost anchor = component_id as int;
        let ghost m = g0.matched_set(anchor, colour);
        proof {
            assert(anchor == g0.owner@[*position]);
            assert(g0.live(anchor));
            g0.lemma_matched_finite(anchor, colour);
            assert(!m.contains(anchor)) by {
                if m.contains(anchor) {
                    let k = choose|k: int|
                        0 <= k < g0.nbrs(anchor).len() && #[trigger] g0.nbrs(anchor)[k] as int
                            == anchor;
                }
            }
        }

        // take the component that is to change colour, and its neighbours
        let ghost cpre0 = self.components@;
        let component_opt = self.components[component_id].take();
        let mut component = component_opt.unwrap();
        let ghost npre0 = self.neighbours@;
        let ns_opt = self.neighbours[component_id].take();
        let ns = ns_opt.unwrap();
        proof {
            assert(component == g0.comp(anchor));
            assert(ns@ == g0.nbrs(anchor));
            assert(self.components@ =~= cpre0.update(
                anchor,
                Option::<ConnectedComponent>::None,
            ));
            lemma_live_count_update(cpre0, anchor, Option::<ConnectedComponent>::None);
            lemma_total_cells_update(cpre0, anchor, Option::<ConnectedComponent>::None);
            assert forall|k2: int|
                0 <= k2 < component.cells@.len() implies {
                &&& pos_in_bounds(#[trigger] component.cells@[k2], g0.rows@, g0.cols@)
                &&& g0.owner@[component.cells@[k2]] == anchor
            } by {
                assert(g0.comp(anchor).cells@[k2] == component.cells@[k2]);
            }
        }

        // absorb every neighbour that already has the target colour
        let mut extra: Vec<usize> = Vec::new();
        let mut removed: Vec<usize> = Vec::new();
        let ghost mut absorbed: Set<int> = Set::empty();
        let mut k: usize = 0;
        while k < ns.len()
            invariant
                g0.wf(),
                0 <= anchor < g0.components@.len(),
                g0.live(anchor),
                component_id as int == anchor,
                m == g0.matched_set(anchor, colour),
                m.finite(),
                !m.contains(anchor),
                ns@ == g0.nbrs(anchor),
                k <= ns@.len(),
                self.components@.len() == g0.components@.len(),
                self.neighbours@.len() == g0.neighbours@.len(),
                self.rows@ == g0.rows@,
                self.cols@ == g0.cols@,
                self.owner@ == g0.owner@,
                absorbed.finite(),
                absorbed.len() == removed@.len(),
                forall|j2: int| #[trigger] absorbed.contains(j2) ==> m.contains(j2),
                forall|j2: int| #[trigger]
                    absorbed.contains(j2) ==> exists|k2: int|
                        0 <= k2 < k && #[trigger] ns@[k2] as int == j2,
                forall|k2: int|
                    0 <= k2 < k && m.contains(#[trigger] ns@[k2] as int) ==> absorbed.contains(
                        ns@[k2] as int,
                    ),
                forall|x: usize| #[trigger] removed@.contains(x) <==> absorbed.contains(x as int),
                forall|j2: int|
                    #![trigger self.components@[j2]]
                    0 <= j2 < g0.components@.len() ==> self.components@[j2] == (if j2 == anchor
                        || absorbed.contains(j2) {
                        Option::<ConnectedComponent>::None
                    } else {
                        g0.components@[j2]
                    }),
                forall|j2: int|
                    #![trigger self.neighbours@[j2]]
                    0 <= j2 < g0.neighbours@.len() ==> self.neighbours@[j2] == (if j2 == anchor
                        || absorbed.contains(j2) {
                        Option::<Vec<usize>>::None
                    } else {
                        g0.neighbours@[j2]
                    }),
                component.id == component_id,
                component.colour == g0.comp(anchor).colour,
                component.cells@.no_duplicates(),
                forall|p: Position|
                    #[trigger] component.cells@.contains(p) <==> (g0.comp(
                        anchor,
                    ).cells@.contains(p) || (exists|a: int| #[trigger] absorbed.contains(a)
                        && g0.comp(a).cells@.contains(p))),
                forall|k2: int|
                    0 <= k2 < component.cells@.len() ==> {
                        let ow = g0.owner@[#[trigger] component.cells@[k2]];
                        &&& pos_in_bounds(component.cells@[k2], g0.rows@, g0.cols@)
                        &&& (ow == anchor || absorbed.contains(ow))
                    },
                forall|x: usize|
                    #[trigger] extra@.contains(x) <==> (exists|a: int| #[trigger]
                    absorbed.contains(a) && g0.nbrs(a).contains(x)),
                live_count(self.components@) == live_count(g0.components@) - 1 - absorbed.len(),
                total_cells(self.components@) + component.cells@.len() == g0.rows@ * g0.cols@,
            decreases ns@.len() - k,
        {
            let j = ns[k];
            proof {
                assert(ns@[k as int] == j);
                assert(g0.nbrs(anchor)[k as int] == j);
                assert(g0.live(j as int) && j as int != anchor);
                assert(!absorbed.contains(j as int)) by {
                    if absorbed.contains(j as int) {
                        let k2 = choose|k2: int|
                            0 <= k2 < k && #[trigger] ns@[k2] as int == j as int;
                        assert(g0.nbrs(anchor).no_duplicates());
                        assert(ns@[k2] == ns@[k as int]);
                    }
                }
                assert(self.components@[j as int] == g0.components@[j as int]);
            }
            let is_match = match &self.components[j] {
                Some(c) => c.colour == colour,
                None => false,
            };
            if is_match {
                proof {
                    assert(g0.comp(j as int).colour == colour);
                    assert(m.contains(j as int)) by {
                        assert(g0.nbrs(anchor)[k as int] as int == j as int);
                        assert(g0.nbr_mem(anchor, j as int));
                    }
                }
                let ghost cpre = self.components@;
                let taken_opt = self.components[j].take();
                let taken = taken_opt.unwrap();
                proof {
                    assert(taken == g0.comp(j as int));
                    assert(self.components@ =~= cpre.update(
                        j as int,
                        Option::<ConnectedComponent>::None,
                    ));
                    lemma_live_count_update(cpre, j as int, Option::<ConnectedComponent>::None);
                    lemma_total_cells_update(cpre, j as int, Option::<ConnectedComponent>::None);
                }
                let ConnectedComponent { id: _, colour: _, cells: mut taken_cells } = taken;
                let ghost comp_cells_pre = component.cells@;
                proof {
                    // the absorbed cells are disjoint from the gathered ones
                    assert forall|k2: int|
                        0 <= k2 < taken_cells@.len() implies {
                        &&& pos_in_bounds(#[trigger] taken_cells@[k2], g0.rows@, g0.cols@)
                        &&& g0.owner@[taken_cells@[k2]] == j as int
                    } by {
                        assert(g0.comp(j as int).cells@[k2] == taken_cells@[k2]);
                    }
                }
                component.cells.append(&mut taken_cells);
                let ghost npre = self.neighbours@;
                let nsj_opt = self.neighbours[j].take();
                let mut nsj = nsj_opt.unwrap();
                proof {
                    assert(nsj@ == g0.nbrs(j as int));
                    assert(self.neighbours@ =~= npre.update(j as int, Option::<Vec<usize>>::None));
                }
                let ghost extra_pre = extra@;
                extra.append(&mut nsj);
                let ghost removed_pre = removed@;
                removed.push(j);
                proof {
                    let a_old = absorbed;
                    absorbed = absorbed.insert(j as int);
                    vstd::set::axiom_set_insert_len(a_old, j as int);
                    assert(component.cells@ == comp_cells_pre + g0.comp(j as int).cells@);
                    // cell membership over the grown set of absorbed ids
                    assert forall|p: Position|
                        #[trigger] component.cells@.contains(p) implies (g0.comp(
                        anchor,
                    ).cells@.contains(p) || (exists|a: int| #[trigger] absorbed.contains(a)
                        && g0.comp(a).cells@.contains(p))) by {
                        lemma_append_contains(comp_cells_pre, g0.comp(j as int).cells@, p);
                        if comp_cells_pre.contains(p) {
                            if !g0.comp(anchor).cells@.contains(p) {
                                let a = choose|a: int|
                                    #[trigger] a_old.contains(a) && g0.comp(a).cells@.contains(p);
                                assert(absorbed.contains(a));
                            }
                        } else {
                            assert(g0.comp(j as int).cells@.contains(p));
                            assert(absorbed.contains(j as int));
                        }
                    }
                    assert forall|p: Position|
                        (g0.comp(anchor).cells@.contains(p) || (exists|a: int| #[trigger]
                        absorbed.contains(a) && g0.comp(a).cells@.contains(p))) implies #[trigger]
                        component.cells@.contains(p) by {
                        lemma_append_contains(comp_cells_pre, g0.comp(j as int).cells@, p);
                        if g0.comp(anchor).cells@.contains(p) {
                            assert(comp_cells_pre.contains(p));
                        } else {
                            let a = choose|a: int|
                                #[trigger] absorbed.contains(a) && g0.comp(a).cells@.contains(p);
                            if a == j as int {
                                assert(g0.comp(j as int).cells@.contains(p));
                            } else {
                                assert(a_old.contains(a));
                                assert(comp_cells_pre.contains(p));
                            }
                        }
                    }
                    // the appended cells carry owner j, the earlier ones do not
                    assert forall|k2: int|
                        0 <= k2 < component.cells@.len() implies {
                        let ow = g0.owner@[#[trigger] component.cells@[k2]];
                        &&& pos_in_bounds(component.cells@[k2], g0.rows@, g0.cols@)
                        &&& (ow == anchor || absorbed.contains(ow))
                    } by {
                        if k2 < comp_cells_pre.len() {
                            assert(component.cells@[k2] == comp_cells_pre[k2]);
                        } else {
                            assert(component.cells@[k2] == g0.comp(j as int).cells@[k2
                                - comp_cells_pre.len()]);
                        }
                    }
                    // no duplicates: the two parts are disjoint
                    assert forall|i1: int, i2: int|
                        0 <= i1 < component.cells@.len() && 0 <= i2 < component.cells@.len() && i1
                            != i2 implies component.cells@[i1] != component.cells@[i2] by {
                        if i1 < comp_cells_pre.len() && i2 < comp_cells_pre.len() {
                            assert(comp_cells_pre[i1] != comp_cells_pre[i2]);
                        } else if i1 >= comp_cells_pre.len() && i2 >= comp_cells_pre.len() {
                            assert(g0.comp(j as int).cells@.no_duplicates());
                            assert(component.cells@[i1] == g0.comp(j as int).cells@[i1
                                - comp_cells_pre.len()]);
                            assert(component.cells@[i2] == g0.comp(j as int).cells@[i2
                                - comp_cells_pre.len()]);
                        } else {
                            let (ka, kb) = if i1 < comp_cells_pre.len() {
                                (i1, i2)
                            } else {
                                (i2, i1)
                            };
                            assert(component.cells@[ka] == comp_cells_pre[ka]);
                            assert(component.cells@[kb] == g0.comp(j as int).cells@[kb
                                - comp_cells_pre.len()]);
                            let owa = g0.owner@[comp_cells_pre[ka]];
                            assert(owa == anchor || a_old.contains(owa));
                            assert(g0.owner@[g0.comp(j as int).cells@[kb - comp_cells_pre.len()]]
                                == j as int);
                            assert(owa != j as int);
                        }
                    }
                    assert(component.cells@.no_duplicates());
                    // neighbour pool over the grown set of absorbed ids
                    assert forall|x: usize|
                        #[trigger] extra@.contains(x) implies (exists|a: int| #[trigger]
                        absorbed.contains(a) && g0.nbrs(a).contains(x)) by {
                        lemma_append_contains(extra_pre, g0.nbrs(j as int), x);
                        if extra_pre.contains(x) {
                            let a = choose|a: int|
                                #[trigger] a_old.contains(a) && g0.nbrs(a).contains(x);
                            assert(absorbed.contains(a));
                        } else {
                            assert(absorbed.contains(j as int));
                        }
                    }
                    assert forall|x: usize|
                        (exists|a: int| #[trigger] absorbed.contains(a) && g0.nbrs(a).contains(
                            x,
                        )) implies #[trigger] extra@.contains(x) by {
                        lemma_append_contains(extra_pre, g0.nbrs(j as int), x);
                        let a = choose|a: int|
                            #[trigger] absorbed.contains(a) && g0.nbrs(a).contains(x);
                        if a == j as int {
                        } else {
                            assert(a_old.contains(a));
                            assert(extra_pre.contains(x));
                        }
                    }
                    assert(removed@ == removed_pre.push(j));
                    assert forall|x: usize| #[trigger]
                        removed@.contains(x) implies absorbed.contains(x as int) by {
                        let ix = choose|ix: int| 0 <= ix < removed@.len() && removed@[ix] == x;
                        if ix < removed_pre.len() {
                            assert(removed_pre[ix] == x);
                            assert(removed_pre.contains(x));
                        } else {
                            assert(x == j);
                        }
                    }
                    assert forall|x: usize|
                        absorbed.contains(x as int) implies #[trigger] removed@.contains(x) by {
                        if a_old.contains(x as int) {
                            assert(removed_pre.contains(x));
                            let ix = choose|ix: int|
                                0 <= ix < removed_pre.len() && removed_pre[ix] == x;
                            assert(removed@[ix] == x);
                        } else {
                            assert(x as int == j as int);
                            assert(x == j);
                            assert(removed@[removed@.len() - 1] == j);
                        }
                    }
                }
            } else {
                proof {
                    assert(!m.contains(j as int)) by {
                        if m.contains(j as int) {
                            assert(g0.comp(j as int).colour == colour);
                        }
                    }
                }
            }
            k += 1;
        }

        proof {
            // everything matched has been absorbed
            assert(absorbed =~= m) by {
                assert forall|j2: int| m.contains(j2) implies absorbed.contains(j2) by {
                    let kx = choose|kx: int|
                        0 <= kx < g0.nbrs(anchor).len() && #[trigger] g0.nbrs(anchor)[kx] as int
                            == j2;
                    assert(ns@[kx] as int == j2);
                }
            }
            assert(absorbed == m);
            assert(absorbed.len() == m.len());
        }

        // the survivor's neighbours: the old ones and the absorbed
        // components' ones, minus itself and the absorbed
        let ghost ns0 = ns@;
        let ghost extra0 = extra@;
        let mut combined = ns;
        let mut extra_moved = extra;
        combined.append(&mut extra_moved);
        let mut final_ids: Vec<usize> = Vec::new();
        let mut k2: usize = 0;
        while k2 < combined.len()
            invariant
                combined@ == ns0 + extra0,
                k2 <= combined@.len(),
                component_id as int == anchor,
                forall|x: usize| #[trigger] removed@.contains(x) <==> m.contains(x as int),
                final_ids@.no_duplicates(),
                forall|x: usize|
                    #[trigger] final_ids@.contains(x) <==> ((exists|k3: int|
                        0 <= k3 < k2 && #[trigger] combined@[k3] == x) && x != component_id
                        && !m.contains(x as int)),
            decreases combined@.len() - k2,
        {
            let x = combined[k2];
            let ghost f_pre = final_ids@;
            if x != component_id && !contains_id(&removed, x) && !contains_id(&final_ids, x) {
                final_ids.push(x);
                proof {
                    assert(final_ids@[final_ids@.len() - 1] == x);
                    assert forall|i1: int, i2: int|
                        0 <= i1 < final_ids@.len() && 0 <= i2 < final_ids@.len() && i1 != i2
                            implies final_ids@[i1] != final_ids@[i2] by {
                        if i1 < f_pre.len() && i2 < f_pre.len() {
                            assert(f_pre[i1] != f_pre[i2]);
                        } else if i2 == f_pre.len() {
                            if final_ids@[i1] == x {
                                assert(f_pre.contains(x));
                            }
                        } else {
                            assert(i1 == f_pre.len());
                            if final_ids@[i2] == x {
                                assert(f_pre.contains(x));
                            }
                        }
                    }
                    assert(final_ids@.no_duplicates());
                }
            }
            k2 += 1;
            proof {
                assert forall|y: usize| #[trigger] final_ids@.contains(y) implies ((exists|
                    k3: int,
                |
                    0 <= k3 < k2 && #[trigger] combined@[k3] == y) && y != component_id
                    && !m.contains(y as int)) by {
                    if f_pre.contains(y) {
                        let k3 = choose|k3: int|
                            0 <= k3 < k2 - 1 && #[trigger] combined@[k3] == y;
                        assert(combined@[k3] == y);
                    } else {
                        assert(y == x);
                        assert(combined@[k2 - 1] == y);
                    }
                }
                assert forall|y: usize|
                    ((exists|k3: int| 0 <= k3 < k2 && #[trigger] combined@[k3] == y) && y
                        != component_id && !m.contains(y as int)) implies #[trigger]
                    final_ids@.contains(y) by {
                    let k3 = choose|k3: int| 0 <= k3 < k2 && #[trigger] combined@[k3] == y;
                    if k3 < k2 - 1 {
                        assert(f_pre.contains(y));
                        let ix = choose|ix: int| 0 <= ix < f_pre.len() && f_pre[ix] == y;
                        assert(final_ids@[ix] == y);
                    } else {
                        assert(y == x);
                        if f_pre.contains(x) {
                            let ix = choose|ix: int| 0 <= ix < f_pre.len() && f_pre[ix] == x;
                            assert(final_ids@[ix] == x);
                        } else {
                            assert(!removed@.contains(x));
                            assert(final_ids@[final_ids@.len() - 1] == x);
                        }
                    }
                }
            }
        }
        proof {
            // membership in the pool is membership in either source
            assert forall|x: usize|
                #[trigger] final_ids@.contains(x) <==> ((g0.nbrs(anchor).contains(x) || (exists|
                    a: int,
                |
                    #[trigger] m.contains(a) && g0.nbrs(a).contains(x))) && x as int != anchor
                    && !m.contains(x as int)) by {
                lemma_append_contains(ns0, extra0, x);
                assert((exists|k3: int| 0 <= k3 < combined@.len() && #[trigger] combined@[k3] == x)
                    <==> combined@.contains(x));
                assert(x != component_id <==> x as int != anchor);
            }
        }

        // the survivor itself is done once it takes the new colour
        component.colour = colour;

        // every remaining component trades its absorbed neighbours for the
        // survivor
        let total_slots = self.neighbours.len();
        let mut i2: usize = 0;
        while i2 < total_slots
            invariant
                g0.wf(),
                0 <= anchor < g0.components@.len(),
                g0.live(anchor),
                component_id as int == anchor,
                m == g0.matched_set(anchor, colour),
                m.finite(),
                !m.contains(anchor),
                total_slots == g0.neighbours@.len(),
                i2 <= total_slots,
                self.components@.len() == g0.components@.len(),
                self.neighbours@.len() == g0.neighbours@.len(),
                self.rows@ == g0.rows@,
                self.cols@ == g0.cols@,
                self.owner@ == g0.owner@,
                forall|x: usize| #[trigger] removed@.contains(x) <==> m.contains(x as int),
                forall|j2: int|
                    #![trigger self.components@[j2]]
                    0 <= j2 < g0.components@.len() ==> self.components@[j2] == (if j2 == anchor
                        || m.contains(j2) {
                        Option::<ConnectedComponent>::None
                    } else {
                        g0.components@[j2]
                    }),
                forall|j2: int|
                    #![trigger self.neighbours@[j2]]
                    0 <= j2 < g0.neighbours@.len() && (j2 == anchor || m.contains(j2) || !g0.live(
                        j2,
                    )) ==> self.neighbours@[j2] is None,
                forall|j2: int|
                    #![trigger self.neighbours@[j2]]
                    i2 <= j2 < g0.neighbours@.len() && j2 != anchor && !m.contains(j2) && g0.live(
                        j2,
                    ) ==> self.neighbours@[j2] == g0.neighbours@[j2],
                forall|j2: int|
                    #![trigger self.neighbours@[j2]]
                    0 <= j2 < i2 && j2 != anchor && !m.contains(j2) && g0.live(j2) ==> {
                        &&& self.neighbours@[j2] is Some
                        &&& self.neighbours@[j2]->Some_0@.no_duplicates()
                        &&& forall|x: usize|
                            #[trigger] self.neighbours@[j2]->Some_0@.contains(x) <==> ((g0.nbrs(
                                j2,
                            ).contains(x) && !m.contains(x as int)) || (x as int == anchor && (
                            exists|a: int|
                                #[trigger] m.contains(a) && g0.nbrs(j2).contains(a as usize))))
                    },
                live_count(self.components@) == live_count(g0.components@) - 1 - m.len(),
                total_cells(self.components@) + component.cells@.len() == g0.rows@ * g0.cols@,
            decreases total_slots - i2,
        {
            if i2 != component_id {
                let ghost npre = self.neighbours@;
                let slot = self.neighbours[i2].take();
                match slot {
                    Some(v) => {
                        proof {
                            assert(npre[i2 as int] is Some);
                            assert(!m.contains(i2 as int) && g0.live(i2 as int));
                            assert(v@ == g0.nbrs(i2 as int));
                        }
                        let mut out: Vec<usize> = Vec::new();
                        let mut had: bool = false;
                        let mut k3: usize = 0;
                        while k3 < v.len()
                            invariant
                                v@ == g0.nbrs(i2 as int),
                                g0.nbrs(i2 as int).no_duplicates(),
                                k3 <= v@.len(),
                                forall|x: usize|
                                    #[trigger] removed@.contains(x) <==> m.contains(x as int),
                                out@.no_duplicates(),
                                forall|x: usize|
                                    #[trigger] out@.contains(x) <==> ((exists|k4: int|
                                        0 <= k4 < k3 && #[trigger] v@[k4] == x) && !m.contains(
                                        x as int,
                                    )),
                                had <==> (exists|k4: int|
                                    0 <= k4 < k3 && m.contains(#[trigger] v@[k4] as int)),
                            decreases v@.len() - k3,
                        {
                            let x = v[k3];
                            let ghost out_pre = out@;
                            let ghost had_pre = had;
                            if contains_id(&removed, x) {
                                had = true;
                                proof {
                                    assert(m.contains(v@[k3 as int] as int));
                                }
                            } else {
                                out.push(x);
                                proof {
                                    assert(out@[out@.len() - 1] == x);
                                    assert forall|i3: int, i4: int|
                                        0 <= i3 < out@.len() && 0 <= i4 < out@.len() && i3 != i4
                                            implies out@[i3] != out@[i4] by {
                                        if i3 < out_pre.len() && i4 < out_pre.len() {
                                            assert(out_pre[i3] != out_pre[i4]);
                                        } else if i4 == out_pre.len() {
                                            if out@[i3] == x {
                                                assert(out_pre.contains(x));
                                                let k4 = choose|k4: int|
                                                    0 <= k4 < k3 && #[trigger] v@[k4] == x;
                                                assert(v@[k4] == v@[k3 as int]);
                                            }
                                        } else {
                                            assert(i3 == out_pre.len());
                                            if out@[i4] == x {
                                                assert(out_pre.contains(x));
                                                let k4 = choose|k4: int|
                                                    0 <= k4 < k3 && #[trigger] v@[k4] == x;
                                                assert(v@[k4] == v@[k3 as int]);
                                            }
                                        }
                                    }
                                    assert(out@.no_duplicates());
                                }
                            }
                            k3 += 1;
                            proof {
                                assert forall|y: usize| #[trigger]
                                    out@.contains(y) implies ((exists|k4: int|
                                    0 <= k4 < k3 && #[trigger] v@[k4] == y) && !m.contains(
                                    y as int,
                                )) by {
                                    if out_pre.contains(y) {
                                        let k4 = choose|k4: int|
                                            0 <= k4 < k3 - 1 && #[trigger] v@[k4] == y;
                                        assert(v@[k4] == y);
                                    } else {
                                        assert(y == x);
                                        assert(v@[k3 - 1] == y);
                                    }
                                }
                                assert forall|y: usize|
                                    ((exists|k4: int| 0 <= k4 < k3 && #[trigger] v@[k4] == y)
                                        && !m.contains(y as int)) implies #[trigger] out@.contains(
                                    y,
                                ) by {
                                    let k4 = choose|k4: int|
                                        0 <= k4 < k3 && #[trigger] v@[k4] == y;
                                    if k4 < k3 - 1 {
                                        assert(out_pre.contains(y));
                                        let ix = choose|ix: int|
                                            0 <= ix < out_pre.len() && out_pre[ix] == y;
                                        assert(out@[ix] == y);
                                    } else {
                                        assert(y == x);
                                        assert(!removed@.contains(x));
                                        assert(out@[out@.len() - 1] == x);
                                    }
                                }
                            }
                        }
                        let ghost out_before = out@;
                        let ghost had_any = had;
                        if had && !contains_id(&out, component_id) {
                            out.push(component_id);
                        }
                        proof {
                            assert forall|x: usize|
                                #[trigger] out@.contains(x) <==> ((g0.nbrs(i2 as int).contains(x)
                                    && !m.contains(x as int)) || (x as int == anchor && (exists|
                                    a: int,
                                |
                                    #[trigger] m.contains(a) && g0.nbrs(i2 as int).contains(
                                        a as usize,
                                    )))) by {
                                if had_any {
                                    let k4 = choose|k4: int|
                                        0 <= k4 < v@.len() && m.contains(#[trigger] v@[k4] as int);
                                    assert(g0.nbrs(i2 as int).contains(v@[k4]));
                                    assert(m.contains(v@[k4] as int));
                                    assert((v@[k4] as int) as usize == v@[k4]);
                                }
                                if out@.contains(x) {
                                    if out_before.contains(x) {
                                        let k4 = choose|k4: int|
                                            0 <= k4 < v@.len() && #[trigger] v@[k4] == x;
                                        assert(g0.nbrs(i2 as int).contains(x));
                                    } else {
                                        let ix = choose|ix: int|
                                            0 <= ix < out@.len() && out@[ix] == x;
                                        assert(ix == out@.len() - 1 && out@.len() == out_before.len()
                                            + 1);
                                        assert(x == component_id);
                                    }
                                }
                                if (g0.nbrs(i2 as int).contains(x) && !m.contains(x as int)) {
                                    let k4 = choose|k4: int|
                                        0 <= k4 < v@.len() && #[trigger] v@[k4] == x;
                                    assert(out_before.contains(x));
                                    let ix = choose|ix: int|
                                        0 <= ix < out_before.len() && out_before[ix] == x;
                                    assert(out@[ix] == x);
                                }
                                if (x as int == anchor && (exists|a: int|
                                    #[trigger] m.contains(a) && g0.nbrs(i2 as int).contains(
                                        a as usize,
                                    ))) {
                                    let a = choose|a: int|
                                        #[trigger] m.contains(a) && g0.nbrs(i2 as int).contains(
                                            a as usize,
                                        );
                                    let k4 = choose|k4: int|
                                        0 <= k4 < v@.len() && #[trigger] v@[k4] == (a as usize);
                                    assert(m.contains(v@[k4] as int));
                                    assert(x == component_id);
                                    if !out_before.contains(component_id) {
                                        assert(out@[out@.len() - 1] == component_id);
                                    } else {
                                        let ix = choose|ix: int|
                                            0 <= ix < out_before.len() && out_before[ix]
                                                == component_id;
                                        assert(out@[ix] == component_id);
                                    }
                                }
                            }
                            // pushing the survivor keeps the list duplicate-free
                            if out@.len() == out_before.len() + 1 {
                                assert forall|i3: int, i4: int|
                                    0 <= i3 < out@.len() && 0 <= i4 < out@.len() && i3 != i4
                                        implies out@[i3] != out@[i4] by {
                                    if i3 < out_before.len() && i4 < out_before.len() {
                                        assert(out_before[i3] != out_before[i4]);
                                    } else if i4 == out_before.len() {
                                        if out@[i3] == component_id {
                                            assert(out_before.contains(component_id));
                                        }
                                    } else {
                                        assert(i3 == out_before.len());
                                        if out@[i4] == component_id {
                                            assert(out_before.contains(component_id));
                                        }
                                    }
                                }
                            }
                            assert(out@.no_duplicates());
                        }
                        self.neighbours[i2] = Some(out);
                    },
                    None => {
                        proof {
                            assert(self.neighbours@ =~= npre);
                        }
                    },
                }
            }
            i2 += 1;
        }

        // put the survivor and its neighbour set back
        let ghost cpre_f = self.components@;
        let ghost comp_final = component;
        self.components[component_id] = Some(component);
        let ghost npre_f = self.neighbours@;
        self.neighbours[component_id] = Some(final_ids);
        proof {
            assert(self.components@ =~= cpre_f.update(anchor, Some(comp_final)));
            lemma_live_count_update(cpre_f, anchor, Some(comp_final));
            lemma_total_cells_update(cpre_f, anchor, Some(comp_final));
        }
        self.owner = Ghost(
            Map::new(
                |p: Position| pos_in_bounds(p, g0.rows@, g0.cols@),
                |p: Position|
                    if m.contains(g0.owner@[p]) {
                        anchor
                    } else {
                        g0.owner@[p]
                    },
            ),
        );
        proof {
            assert forall|p: Position| #[trigger]
                self.owner@.contains_key(p) <==> pos_in_bounds(p, g0.rows@, g0.cols@) by {}
            assert forall|p: Position| #[trigger]
                self.owner@.contains_key(p) implies self.owner@[p] == (if m.contains(
                g0.owner@[p],
            ) {
                anchor
            } else {
                g0.owner@[p]
            }) by {}
            assert(merge_built(g0, *self, anchor, colour, m));
            lemma_merge_ok(g0, *self, *position, anchor, colour, m);
        }
    }
}

} // verus!

