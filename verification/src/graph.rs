//! The graph store: node positions, the directed edge mapping and the
//! derived adjacency lists, with the congestion-driven rewiring algorithm.
//!
//! Edges live in a vector whose keys `(src, dest)` are kept unique, which
//! gives it the semantics of a mapping from key to edge record. Each
//! adjacency list holds, for every edge in either direction, one entry for
//! the far endpoint; the well-formedness invariant states this as a lower
//! bound on occurrence counts, so that removing one entry per removed
//! direction keeps every remaining edge covered.

use vstd::prelude::*;
use vstd::pervasive::VecAdditionalExecFns;
use crate::Point3Bits;
use crate::rng::random_index;

verus! {

/// One directed edge of the graph, identified by its `(src, dest)` key.
#[derive(Clone, Copy, PartialEq, Eq, Structural, Debug)]
pub struct Edge {
    pub src: usize,
    pub dest: usize,
    /// Traversals since this edge was created or last rewired.
    pub hop_count: usize,
    /// True if this edge was created by rewiring rather than loaded.
    pub synthetic: bool,
}

/// True if some edge in `s` has the key `(a, b)`.
pub open spec fn has_edge(s: Seq<Edge>, a: int, b: int) -> bool {
    exists|i: int| 0 <= i < s.len() && (#[trigger] s[i]).src as int == a && s[i].dest as int == b
}

/// The record under key `(a, b)`; meaningful only when `has_edge` holds
/// and the keys of `s` are unique.
pub open spec fn edge_at(s: Seq<Edge>, a: int, b: int) -> Edge {
    s[choose|i: int|
        0 <= i < s.len() && (#[trigger] s[i]).src as int == a && s[i].dest as int == b]
}

/// No two edges of `s` share a key.
pub open spec fn unique_keys(s: Seq<Edge>) -> bool {
    forall|i: int, j: int|
        0 <= i < j < s.len() ==> !((#[trigger] s[i]).src == (#[trigger] s[j]).src
            && s[i].dest == s[j].dest)
}

/// A record as rewiring creates it: a fresh synthetic edge whose
/// traversal count has not moved yet.
pub open spec fn fresh_synthetic(e: Edge) -> bool {
    e.hop_count == 0 && e.synthetic
}

/// Number of occurrences of `v` in `s`.
pub open spec fn count_of(s: Seq<usize>, v: usize) -> nat
    decreases s.len(),
{
    if s.len() == 0 {
        0
    } else {
        count_of(s.drop_last(), v) + (if s.last() == v {
            1nat
        } else {
            0nat
        })
    }
}

proof fn lemma_count_push(s: Seq<usize>, e: usize, v: usize)
    ensures
        count_of(s.push(e), v) == count_of(s, v) + (if e == v {
            1nat
        } else {
            0nat
        }),
{
    assert(s.push(e).drop_last() =~= s);
}

proof fn lemma_count_remove(s: Seq<usize>, i: int, v: usize)
    requires
        0 <= i < s.len(),
    ensures
        count_of(s.remove(i), v) + (if s[i] == v {
            1nat
        } else {
            0nat
        }) == count_of(s, v),
    decreases s.len(),
{
    if i == s.len() - 1 {
        assert(s.remove(i) =~= s.drop_last());
    } else {
        let t = s.drop_last();
        lemma_count_remove(t, i, v);
        assert(s.remove(i).drop_last() =~= t.remove(i));
        assert(s.remove(i).last() == s.last());
    }
}

proof fn lemma_count_contains(s: Seq<usize>, v: usize)
    ensures
        count_of(s, v) > 0 <==> s.contains(v),
    decreases s.len(),
{
    if s.len() == 0 {
    } else {
        lemma_count_contains(s.drop_last(), v);
        if s.last() == v {
            assert(s[s.len() - 1] == v);
        } else {
            if s.contains(v) {
                let j = choose|j: int| 0 <= j < s.len() && s[j] == v;
                assert(s.drop_last()[j] == v);
            }
            if s.drop_last().contains(v) {
                let j = choose|j: int| 0 <= j < s.drop_last().len() && s.drop_last()[j] == v;
                assert(s[j] == v);
            }
        }
    }
}

/// With unique keys, the record at index `i` is what `edge_at` yields for
/// its own key.
proof fn lemma_edge_at_index(s: Seq<Edge>, i: int)
    requires
        unique_keys(s),
        0 <= i < s.len(),
    ensures
        has_edge(s, s[i].src as int, s[i].dest as int),
        edge_at(s, s[i].src as int, s[i].dest as int) == s[i],
{
    let a = s[i].src as int;
    let b = s[i].dest as int;
    assert(has_edge(s, a, b));
    let j = choose|j: int|
        0 <= j < s.len() && (#[trigger] s[j]).src as int == a && s[j].dest as int == b;
    if j != i {
        if j < i {
            assert(!(s[j].src == s[i].src && s[j].dest == s[i].dest));
        } else {
            assert(!(s[i].src == s[j].src && s[i].dest == s[j].dest));
        }
        assert(false);
    }
}

/// True of rows whose entries are all valid node indices.
pub open spec fn row_bounded(s: Seq<usize>, n: int) -> bool {
    forall|j: int| 0 <= j < s.len() ==> ((#[trigger] s[j]) as int) < n
}

proof fn lemma_row_bounded_subset(new: Seq<usize>, old_row: Seq<usize>, n: int)
    requires
        row_bounded(old_row, n),
        forall|j: int| 0 <= j < new.len() ==> old_row.contains(#[trigger] new[j]),
    ensures
        row_bounded(new, n),
{
    assert forall|j: int| 0 <= j < new.len() implies ((#[trigger] new[j]) as int) < n by {
        let k = choose|k: int| 0 <= k < old_row.len() && old_row[k] == new[j];
        assert(((old_row[k]) as int) < n);
    }
}

/// The simulation graph: loaded node positions, the edge mapping and the
/// derived adjacency lists.
pub struct GraphStore {
    pub node_positions: Vec<Point3Bits>,
    pub edges: Vec<Edge>,
    pub neighbors: Vec<Vec<usize>>,
}

impl GraphStore {
    /// Number of nodes; fixed for the life of the store.
    pub open spec fn n(self) -> int {
        self.node_positions@.len() as int
    }

    /// The adjacency list of node `i`, as a sequence.
    pub open spec fn nb(self, i: int) -> Seq<usize> {
        self.neighbors@[i]@
    }

    /// How many adjacency entries the edge mapping asks of the pair
    /// `(a, b)`: one occurrence of `b` in `a`'s list per direction present.
    pub open spec fn demand(self, a: usize, b: usize) -> nat {
        (if has_edge(self.edges@, a as int, b as int) {
            1nat
        } else {
            0nat
        }) + (if has_edge(self.edges@, b as int, a as int) {
            1nat
        } else {
            0nat
        })
    }

    pub open spec fn edges_in_bounds(self) -> bool {
        forall|i: int|
            0 <= i < self.edges@.len() ==> ((#[trigger] self.edges@[i]).src as int) < self.n()
                && (self.edges@[i].dest as int) < self.n()
    }

    pub open spec fn neighbors_in_bounds(self) -> bool {
        forall|i: int, j: int|
            0 <= i < self.neighbors@.len() && 0 <= j < self.nb(i).len() ==> ((#[trigger] self.nb(
                i,
            )[j]) as int) < self.n()
    }

    /// Every edge is covered by its endpoints' adjacency lists, with
    /// multiplicity.
    pub open spec fn adjacency_covers(self) -> bool {
        forall|a: usize, b: usize|
            (a as int) < self.n() && (b as int) < self.n() ==> #[trigger] count_of(
                self.nb(a as int),
                b,
            ) >= self.demand(a, b)
    }

    pub open spec fn wf(self) -> bool {
        &&& self.neighbors@.len() == self.node_positions@.len()
        &&& self.edges_in_bounds()
        &&& unique_keys(self.edges@)
        &&& self.neighbors_in_bounds()
        &&& self.adjacency_covers()
    }

    /// The index of the edge with key `(a, b)`, if present.
    fn find_edge(&self, a: usize, b: usize) -> (r: Option<usize>)
        ensures
            match r {
                Some(i) => i < self.edges@.len() && self.edges@[i as int].src == a
                    && self.edges@[i as int].dest == b,
                None => !has_edge(self.edges@, a as int, b as int),
            },
    {
        let mut i: usize = 0;
        while i < self.edges.len()
            invariant
                i <= self.edges@.len(),
                forall|k: int|
                    0 <= k < i ==> !((#[trigger] self.edges@[k]).src == a && self.edges@[k].dest
                        == b),
            decreases self.edges@.len() - i,
        {
            if self.edges[i].src == a && self.edges[i].dest == b {
                return Some(i);
            }
            i = i + 1;
        }
        None
    }

    /// Append `v` to node `i`'s adjacency list.
    fn push_neighbor(&mut self, i: usize, v: usize)
        requires
            i < old(self).neighbors@.len(),
        ensures
            final(self).node_positions == old(self).node_positions,
            final(self).edges == old(self).edges,
            final(self).neighbors@.len() == old(self).neighbors@.len(),
            forall|j: int|
                0 <= j < old(self).neighbors@.len() && j != i ==> #[trigger] final(self).nb(j)
                    == old(self).nb(j),
            final(self).nb(i as int) == old(self).nb(i as int).push(v),
    {
        let mut row = self.neighbors.remove(i);
        row.push(v);
        self.neighbors.insert(i, row);
        proof {
            assert forall|j: int| 0 <= j < old(self).neighbors@.len() && j != i implies #[trigger]
                self.nb(j) == old(self).nb(j) by {
                assert(self.neighbors@[j] == old(self).neighbors@[j]);
            }
            assert(self.nb(i as int) =~= old(self).nb(i as int).push(v));
        }
    }

    /// Remove the first occurrence of `v` from node `i`'s adjacency list,
    /// if there is one.
    fn remove_first_neighbor(&mut self, i: usize, v: usize)
        requires
            i < old(self).neighbors@.len(),
        ensures
            final(self).node_positions == old(self).node_positions,
            final(self).edges == old(self).edges,
            final(self).neighbors@.len() == old(self).neighbors@.len(),
            forall|j: int|
                0 <= j < old(self).neighbors@.len() && j != i ==> #[trigger] final(self).nb(j)
                    == old(self).nb(j),
            forall|x: usize|
                #[trigger] count_of(final(self).nb(i as int), x) + (if x == v && old(self).nb(
                    i as int,
                ).contains(v) {
                    1nat
                } else {
                    0nat
                }) == count_of(old(self).nb(i as int), x),
            forall|j: int|
                0 <= j < final(self).nb(i as int).len() ==> old(self).nb(i as int).contains(
                    #[trigger] final(self).nb(i as int)[j],
                ),
    {
        let ghost row0 = self.neighbors@[i as int]@;
        let mut row = self.neighbors.remove(i);
        let mut j: usize = 0;
        let mut pos: Option<usize> = None;
        while j < row.len() && pos.is_none()
            invariant
                row@ == row0,
                j <= row0.len(),
                match pos {
                    Some(p) => p < row0.len() && row0[p as int] == v,
                    None => forall|k: int| 0 <= k < j ==> row0[k] != v,
                },
            decreases row0.len() - j + (if pos.is_none() {
                1int
            } else {
                0int
            }),
        {
            if row[j] == v {
                pos = Some(j);
            } else {
                j = j + 1;
            }
        }
        match pos {
            Some(p) => {
                row.remove(p);
                proof {
                    assert(row0.contains(v));
                    assert forall|x: usize| #[trigger] count_of(row@, x) + (if x == v
                        && row0.contains(v) {
                        1nat
                    } else {
                        0nat
                    }) == count_of(row0, x) by {
                        lemma_count_remove(row0, p as int, x);
                    }
                    assert forall|k: int| 0 <= k < row@.len() implies row0.contains(
                        #[trigger] row@[k],
                    ) by {
                        if k < p {
                            assert(row@[k] == row0[k]);
                        } else {
                            assert(row@[k] == row0[k + 1]);
                        }
                    }
                }
            },
            None => {
                proof {
                    assert(!row0.contains(v));
                }
            },
        }
        self.neighbors.insert(i, row);
        proof {
            assert forall|j2: int| 0 <= j2 < old(self).neighbors@.len() && j2 != i implies #[trigger]
                self.nb(j2) == old(self).nb(j2) by {
                assert(self.neighbors@[j2] == old(self).neighbors@[j2]);
            }
        }
    }

    /// Remove the edge under key `(a, b)` from the mapping, if present.
    /// Adjacency lists are untouched; callers patch them separately.
    fn remove_edge_key(&mut self, a: usize, b: usize)
        requires
            unique_keys(old(self).edges@),
        ensures
            final(self).node_positions == old(self).node_positions,
            final(self).neighbors == old(self).neighbors,
            unique_keys(final(self).edges@),
            !has_edge(final(self).edges@, a as int, b as int),
            forall|x: int, y: int|
                !(x == a as int && y == b as int) ==> (has_edge(final(self).edges@, x, y)
                    <==> has_edge(old(self).edges@, x, y)),
            forall|x: int, y: int|
                !(x == a as int && y == b as int) && has_edge(old(self).edges@, x, y) ==> edge_at(
                    final(self).edges@,
                    x,
                    y,
                ) == edge_at(old(self).edges@, x, y),
            forall|i: int|
                0 <= i < final(self).edges@.len() ==> old(self).edges@.contains(
                    #[trigger] final(self).edges@[i],
                ),
    {
        let r = self.find_edge(a, b);
        match r {
            Some(i) => {
                let ghost s0 = self.edges@;
                self.edges.remove(i);
                proof {
                    let k = i as int;
                    let s1 = self.edges@;
                    assert forall|p: int| 0 <= p < s1.len() implies s0.contains(
                        #[trigger] s1[p],
                    ) by {
                        if p < k {
                            assert(s1[p] == s0[p]);
                        } else {
                            assert(s1[p] == s0[p + 1]);
                        }
                    }
                    assert forall|p: int, q: int| 0 <= p < q < s1.len() implies !((
                    #[trigger] s1[p]).src == (#[trigger] s1[q]).src && s1[p].dest
                        == s1[q].dest) by {
                        let p0 = if p < k {
                            p
                        } else {
                            p + 1
                        };
                        let q0 = if q < k {
                            q
                        } else {
                            q + 1
                        };
                        assert(s1[p] == s0[p0] && s1[q] == s0[q0]);
                        assert(!(s0[p0].src == s0[q0].src && s0[p0].dest == s0[q0].dest));
                    }
                    if has_edge(s1, a as int, b as int) {
                        let j = choose|j: int|
                            0 <= j < s1.len() && (#[trigger] s1[j]).src as int == a as int
                                && s1[j].dest as int == b as int;
                        let j0 = if j < k {
                            j
                        } else {
                            j + 1
                        };
                        assert(s1[j] == s0[j0]);
                        if j0 < k {
                            assert(!(s0[j0].src == s0[k].src && s0[j0].dest == s0[k].dest));
                        } else {
                            assert(!(s0[k].src == s0[j0].src && s0[k].dest == s0[j0].dest));
                        }
                        assert(false);
                    }
                    assert forall|x: int, y: int|
                        !(x == a as int && y == b as int) && has_edge(s0, x, y) implies has_edge(
                        s1,
                        x,
                        y,
                    ) && edge_at(s1, x, y) == edge_at(s0, x, y) by {
                        let j = choose|j: int|
                            0 <= j < s0.len() && (#[trigger] s0[j]).src as int == x && s0[j].dest
                                as int == y;
                        lemma_edge_at_index(s0, j);
                        if j < k {
                            assert(s1[j] == s0[j]);
                            lemma_edge_at_index(s1, j);
                        } else {
                            assert(j != k);
                            assert(s1[j - 1] == s0[j]);
                            lemma_edge_at_index(s1, j - 1);
                        }
                    }
                    assert forall|x: int, y: int|
                        !(x == a as int && y == b as int) && has_edge(s1, x, y) implies has_edge(
                        s0,
                        x,
                        y,
                    ) by {
                        let j = choose|j: int|
                            0 <= j < s1.len() && (#[trigger] s1[j]).src as int == x && s1[j].dest
                                as int == y;
                        let j0 = if j < k {
                            j
                        } else {
                            j + 1
                        };
                        assert(s1[j] == s0[j0]);
                    }
                }
            },
            None => {},
        }
    }

    /// Insert a freshly created, rewired edge under key `(a, b)`,
    /// replacing whatever record that key held before.
    fn insert_fresh_edge(&mut self, a: usize, b: usize)
        requires
            unique_keys(old(self).edges@),
        ensures
            final(self).node_positions == old(self).node_positions,
            final(self).neighbors == old(self).neighbors,
            unique_keys(final(self).edges@),
            has_edge(final(self).edges@, a as int, b as int),
            edge_at(final(self).edges@, a as int, b as int) == (Edge {
                src: a,
                dest: b,
                hop_count: 0,
                synthetic: true,
            }),
            forall|x: int, y: int|
                !(x == a as int && y == b as int) ==> (has_edge(final(self).edges@, x, y)
                    <==> has_edge(old(self).edges@, x, y)),
            forall|x: int, y: int|
                !(x == a as int && y == b as int) && has_edge(old(self).edges@, x, y) ==> edge_at(
                    final(self).edges@,
                    x,
                    y,
                ) == edge_at(old(self).edges@, x, y),
            forall|i: int|
                0 <= i < final(self).edges@.len() ==> old(self).edges@.contains(
                    #[trigger] final(self).edges@[i],
                ) || final(self).edges@[i] == (Edge {
                    src: a,
                    dest: b,
                    hop_count: 0,
                    synthetic: true,
                }),
    {
        let fresh = Edge { src: a, dest: b, hop_count: 0, synthetic: true };
        let r = self.find_edge(a, b);
        let ghost s0 = self.edges@;
        match r {
            Some(i) => {
                self.edges.set(i, fresh);
                proof {
                    let k = i as int;
                    let s1 = self.edges@;
                    assert forall|p: int, q: int| 0 <= p < q < s1.len() implies !((
                    #[trigger] s1[p]).src == (#[trigger] s1[q]).src && s1[p].dest
                        == s1[q].dest) by {
                        assert(!(s0[p].src == s0[q].src && s0[p].dest == s0[q].dest));
                    }
                    lemma_edge_at_index(s1, k);
                    assert forall|x: int, y: int|
                        !(x == a as int && y == b as int) && has_edge(s0, x, y) implies has_edge(
                        s1,
                        x,
                        y,
                    ) && edge_at(s1, x, y) == edge_at(s0, x, y) by {
                        let j = choose|j: int|
                            0 <= j < s0.len() && (#[trigger] s0[j]).src as int == x && s0[j].dest
                                as int == y;
                        lemma_edge_at_index(s0, j);
                        assert(j != k);
                        assert(s1[j] == s0[j]);
                        lemma_edge_at_index(s1, j);
                    }
                    assert forall|x: int, y: int|
                        !(x == a as int && y == b as int) && has_edge(s1, x, y) implies has_edge(
                        s0,
                        x,
                        y,
                    ) by {
                        let j = choose|j: int|
                            0 <= j < s1.len() && (#[trigger] s1[j]).src as int == x && s1[j].dest
                                as int == y;
                        assert(j != k);
                        assert(s1[j] == s0[j]);
                    }
                }
            },
            None => {
                self.edges.push(fresh);
                proof {
                    let s1 = self.edges@;
                    let k = s0.len() as int;
                    assert(s1[k] == fresh);
                    assert forall|p: int, q: int| 0 <= p < q < s1.len() implies !((
                    #[trigger] s1[p]).src == (#[trigger] s1[q]).src && s1[p].dest
                        == s1[q].dest) by {
                        if q < k {
                            assert(!(s0[p].src == s0[q].src && s0[p].dest == s0[q].dest));
                        } else {
                            assert(s1[q] == fresh);
                            assert(s1[p] == s0[p]);
                            assert(!has_edge(s0, a as int, b as int));
                        }
                    }
                    lemma_edge_at_index(s1, k);
                    assert forall|x: int, y: int|
                        !(x == a as int && y == b as int) && has_edge(s0, x, y) implies has_edge(
                        s1,
                        x,
                        y,
                    ) && edge_at(s1, x, y) == edge_at(s0, x, y) by {
                        let j = choose|j: int|
                            0 <= j < s0.len() && (#[trigger] s0[j]).src as int == x && s0[j].dest
                                as int == y;
                        lemma_edge_at_index(s0, j);
                        assert(s1[j] == s0[j]);
                        lemma_edge_at_index(s1, j);
                    }
                    assert forall|x: int, y: int|
                        !(x == a as int && y == b as int) && has_edge(s1, x, y) implies has_edge(
                        s0,
                        x,
                        y,
                    ) by {
                        let j = choose|j: int|
                            0 <= j < s1.len() && (#[trigger] s1[j]).src as int == x && s1[j].dest
                                as int == y;
                        assert(j != k);
                        assert(s1[j] == s0[j]);
                    }
                }
            },
        }
    }

    /// Break the edge `(src, dest)` and rewire its endpoints: the edge
    /// and one adjacency entry per direction are removed first; then each
    /// endpoint gets a fresh synthetic edge toward a caller-chosen
    /// destination (drawn at random by `congestion_sweep`), with adjacency
    /// entries appended on both ends. Self-loops and duplicate keys are
    /// permitted outcomes; a duplicate key replaces the record it collides
    /// with, and a draw that lands back on the removed key leaves its
    /// fresh edge standing, since removal precedes insertion.
    #[verifier::rlimit(60)]
    pub fn rewire(&mut self, src: usize, dest: usize, new_a: usize, new_b: usize)
        requires
            old(self).wf(),
            has_edge(old(self).edges@, src as int, dest as int),
            (new_a as int) < old(self).n(),
            (new_b as int) < old(self).n(),
        ensures
            final(self).wf(),
            final(self).node_positions == old(self).node_positions,
            final(self).neighbors@.len() == old(self).neighbors@.len(),
            has_edge(final(self).edges@, src as int, new_a as int),
            edge_at(final(self).edges@, src as int, new_a as int) == (Edge {
                src,
                dest: new_a,
                hop_count: 0,
                synthetic: true,
            }),
            has_edge(final(self).edges@, dest as int, new_b as int),
            edge_at(final(self).edges@, dest as int, new_b as int) == (Edge {
                src: dest,
                dest: new_b,
                hop_count: 0,
                synthetic: true,
            }),
            new_a != dest && !(dest == src && new_b == dest) ==> !has_edge(
                final(self).edges@,
                src as int,
                dest as int,
            ),
            forall|x: int, y: int|
                !(x == src as int && y == dest as int) && !(x == src as int && y == new_a as int)
                    && !(x == dest as int && y == new_b as int) ==> (has_edge(
                    final(self).edges@,
                    x,
                    y,
                ) <==> has_edge(old(self).edges@, x, y)),
            forall|x: int, y: int|
                !(x == src as int && y == dest as int) && !(x == src as int && y == new_a as int)
                    && !(x == dest as int && y == new_b as int) && has_edge(old(self).edges@, x, y)
                    ==> edge_at(final(self).edges@, x, y) == edge_at(old(self).edges@, x, y),
            forall|x: int, y: int|
                has_edge(final(self).edges@, x, y) ==> has_edge(old(self).edges@, x, y) || (x == src
                    as int && y == new_a as int) || (x == dest as int && y == new_b as int),
    {
        let ghost g0 = *self;
        proof {
            let wi = choose|i: int|
                0 <= i < g0.edges@.len() && (#[trigger] g0.edges@[i]).src as int == src as int
                    && g0.edges@[i].dest as int == dest as int;
            assert(((g0.edges@[wi]).src as int) < g0.n());
        }
        self.remove_first_neighbor(src, dest);
        let ghost g1 = *self;
        self.remove_first_neighbor(dest, src);
        let ghost g2 = *self;
        self.remove_edge_key(src, dest);
        let ghost g3 = *self;
        self.insert_fresh_edge(src, new_a);
        let ghost g4 = *self;
        self.push_neighbor(src, new_a);
        let ghost g5 = *self;
        self.push_neighbor(new_a, src);
        let ghost g6 = *self;
        self.insert_fresh_edge(dest, new_b);
        let ghost g7 = *self;
        self.push_neighbor(dest, new_b);
        let ghost g8 = *self;
        self.push_neighbor(new_b, dest);
        proof {
            let g9 = *self;
            let n = g0.n();
            let fresh_a = Edge { src, dest: new_a, hop_count: 0, synthetic: true };
            let fresh_b = Edge { src: dest, dest: new_b, hop_count: 0, synthetic: true };
            // The two adjacency removals both found an entry to remove.
            assert(g0.demand(src, dest) >= 1);
            assert(count_of(g0.nb(src as int), dest) >= g0.demand(src, dest));
            lemma_count_contains(g0.nb(src as int), dest);
            assert(g0.demand(dest, src) >= 1);
            assert(count_of(g0.nb(dest as int), src) >= g0.demand(dest, src));
            if dest == src {
                assert(g0.demand(src, dest) == 2);
            }
            assert(count_of(g1.nb(dest as int), src) >= 1);
            lemma_count_contains(g1.nb(dest as int), src);
            // The fresh edge for the first endpoint survives the second
            // insertion, which either leaves its key alone or rewrites it
            // with the identical record.
            if src as int == dest as int && new_a == new_b {
                assert(fresh_a == fresh_b);
                assert(edge_at(g9.edges@, src as int, new_a as int) == fresh_a);
            } else {
                assert(has_edge(g4.edges@, src as int, new_a as int));
                assert(edge_at(g9.edges@, src as int, new_a as int) == fresh_a);
            }
            if new_a != dest && !(dest == src && new_b == dest) {
                assert(!has_edge(g3.edges@, src as int, dest as int));
                assert(!has_edge(g9.edges@, src as int, dest as int));
            }
            // Row bounds at every step.
            assert forall|i: int| 0 <= i < n implies row_bounded(g2.nb(i), n) by {
                assert(row_bounded(g0.nb(i), n));
                if i == src as int {
                    lemma_row_bounded_subset(g1.nb(i), g0.nb(i), n);
                }
                if i == dest as int {
                    lemma_row_bounded_subset(g2.nb(i), g1.nb(i), n);
                } else {
                    assert(g2.nb(i) == g1.nb(i));
                }
            }
            assert forall|i: int| 0 <= i < n implies row_bounded(g9.nb(i), n) by {
                assert(row_bounded(g2.nb(i), n));
                assert(g3.nb(i) == g2.nb(i));
                assert(g4.nb(i) == g3.nb(i));
                assert(g7.nb(i) == g6.nb(i));
            }
            // Every record is an old one or one of the two fresh ones.
            assert forall|i: int| 0 <= i < g9.edges@.len() implies ((#[trigger] g9.edges@[i]).src
                as int) < n && ((g9.edges@[i].dest) as int) < n by {
                let e = g9.edges@[i];
                assert(g9.edges@ == g7.edges@);
                let i7 = choose|k: int| 0 <= k < g7.edges@.len() && g7.edges@[k] == e;
                assert(g6.edges@.contains(e) || e == fresh_b);
                if g6.edges@.contains(e) {
                    let i6 = choose|k: int| 0 <= k < g6.edges@.len() && g6.edges@[k] == e;
                    assert(g6.edges@ == g4.edges@);
                    assert(g3.edges@.contains(e) || e == fresh_a);
                    if g3.edges@.contains(e) {
                        let i3 = choose|k: int| 0 <= k < g3.edges@.len() && g3.edges@[k] == e;
                        assert(g0.edges@.contains(e));
                        let i0 = choose|k: int| 0 <= k < g0.edges@.len() && g0.edges@[k] == e;
                        assert(((g0.edges@[i0]).src as int) < n);
                    }
                }
            }
            // Adjacency coverage.
            assert forall|a: usize, b: usize| (a as int) < n && (b as int) < n implies #[trigger]
                count_of(g9.nb(a as int), b) >= g9.demand(a, b) by {
                assert(count_of(g0.nb(a as int), b) >= g0.demand(a, b));
                if a == src {
                    assert(count_of(g1.nb(a as int), b) + (if b == dest {
                        1nat
                    } else {
                        0nat
                    }) == count_of(g0.nb(a as int), b));
                } else {
                    assert(g1.nb(a as int) == g0.nb(a as int));
                }
                if a == dest {
                    assert(count_of(g2.nb(a as int), b) + (if b == src {
                        1nat
                    } else {
                        0nat
                    }) == count_of(g1.nb(a as int), b));
                } else {
                    assert(g2.nb(a as int) == g1.nb(a as int));
                }
                assert(g3.nb(a as int) == g2.nb(a as int));
                assert(g4.nb(a as int) == g3.nb(a as int));
                if a == src {
                    assert(g5.nb(a as int) == g4.nb(a as int).push(new_a));
                    lemma_count_push(g4.nb(a as int), new_a, b);
                } else {
                    assert(g5.nb(a as int) == g4.nb(a as int));
                }
                if a == new_a {
                    assert(g6.nb(a as int) == g5.nb(a as int).push(src));
                    lemma_count_push(g5.nb(a as int), src, b);
                } else {
                    assert(g6.nb(a as int) == g5.nb(a as int));
                }
                assert(g7.nb(a as int) == g6.nb(a as int));
                if a == dest {
                    assert(g8.nb(a as int) == g7.nb(a as int).push(new_b));
                    lemma_count_push(g7.nb(a as int), new_b, b);
                } else {
                    assert(g8.nb(a as int) == g7.nb(a as int));
                }
                if a == new_b {
                    assert(g9.nb(a as int) == g8.nb(a as int).push(dest));
                    lemma_count_push(g8.nb(a as int), dest, b);
                } else {
                    assert(g9.nb(a as int) == g8.nb(a as int));
                }
                assert(has_edge(g9.edges@, a as int, b as int) ==> has_edge(
                    g0.edges@,
                    a as int,
                    b as int,
                ) || (a as int == src as int && b as int == new_a as int) || (a as int == dest
                    as int && b as int == new_b as int));
                assert(has_edge(g9.edges@, b as int, a as int) ==> has_edge(
                    g0.edges@,
                    b as int,
                    a as int,
                ) || (b as int == src as int && a as int == new_a as int) || (b as int == dest
                    as int && a as int == new_b as int));
                if !(new_a == dest || (dest == src && new_b == dest)) {
                    assert(!has_edge(g9.edges@, src as int, dest as int));
                }
            }
        }
    }

    /// The keys of all edges whose `hop_count` has reached the threshold.
    pub fn congested_keys(&self, break_threshold: usize) -> (r: Vec<(usize, usize)>)
        requires
            unique_keys(self.edges@),
        ensures
            forall|p: int|
                0 <= p < r@.len() ==> has_edge(
                    self.edges@,
                    (#[trigger] r@[p]).0 as int,
                    r@[p].1 as int,
                ) && edge_at(self.edges@, r@[p].0 as int, r@[p].1 as int).hop_count
                    >= break_threshold,
            forall|i: int|
                0 <= i < self.edges@.len() && (#[trigger] self.edges@[i]).hop_count
                    >= break_threshold ==> r@.contains((self.edges@[i].src, self.edges@[i].dest)),
            forall|p: int, q: int| 0 <= p < q < r@.len() ==> r@[p] != r@[q],
    {
        let mut r: Vec<(usize, usize)> = Vec::new();
        let ghost mut idx: Seq<int> = Seq::empty();
        let mut i: usize = 0;
        while i < self.edges.len()
            invariant
                i <= self.edges@.len(),
                unique_keys(self.edges@),
                r@.len() == idx.len(),
                forall|p: int|
                    0 <= p < r@.len() ==> 0 <= #[trigger] idx[p] < i && r@[p] == ((
                    self.edges@[idx[p]]).src, self.edges@[idx[p]].dest) && self.edges@[
                        idx[p]].hop_count >= break_threshold,
                forall|p: int, q: int| 0 <= p < q < idx.len() ==> idx[p] < idx[q],
                forall|j: int|
                    0 <= j < i && (#[trigger] self.edges@[j]).hop_count >= break_threshold
                        ==> r@.contains((self.edges@[j].src, self.edges@[j].dest)),
            decreases self.edges@.len() - i,
        {
            if self.edges[i].hop_count >= break_threshold {
                let key = (self.edges[i].src, self.edges[i].dest);
                let ghost r0 = r@;
                r.push(key);
                proof {
                    idx = idx.push(i as int);
                    assert forall|j: int|
                        0 <= j < i + 1 && (#[trigger] self.edges@[j]).hop_count
                        >= break_threshold implies r@.contains((self.edges@[j].src, self.edges@[
                        j].dest)) by {
                        if j < i {
                            assert(r0.contains((self.edges@[j].src, self.edges@[j].dest)));
                            let p = choose|p: int|
                                0 <= p < r0.len() && r0[p] == (self.edges@[j].src, self.edges@[
                                    j].dest);
                            assert(r@[p] == (self.edges@[j].src, self.edges@[j].dest));
                        } else {
                            assert(r@[r@.len() - 1] == (self.edges@[j].src, self.edges@[
                                j].dest));
                        }
                    }
                }
            }
            i = i + 1;
        }
        proof {
            assert forall|p: int|
                0 <= p < r@.len() implies has_edge(
                self.edges@,
                (#[trigger] r@[p]).0 as int,
                r@[p].1 as int,
            ) && edge_at(self.edges@, r@[p].0 as int, r@[p].1 as int).hop_count
                >= break_threshold by {
                lemma_edge_at_index(self.edges@, idx[p]);
            }
            assert forall|p: int, q: int| 0 <= p < q < r@.len() implies r@[p] != r@[q] by {
                let jp = idx[p];
                let jq = idx[q];
                assert(jp < jq);
                assert(!(self.edges@[jp].src == self.edges@[jq].src && self.edges@[jp].dest
                    == self.edges@[jq].dest));
            }
        }
        r
    }

    /// Count one traversal of the edge `(a, b)`: a missing key is a silent
    /// no-op. The count saturates at the top of `usize` instead of
    /// overflowing.
    pub fn increment_hop(&mut self, a: usize, b: usize)
        requires
            old(self).wf(),
        ensures
            final(self).wf(),
            final(self).node_positions == old(self).node_positions,
            final(self).neighbors == old(self).neighbors,
            forall|x: int, y: int|
                has_edge(final(self).edges@, x, y) <==> has_edge(old(self).edges@, x, y),
            !has_edge(old(self).edges@, a as int, b as int) ==> final(self).edges@ == old(
                self,
            ).edges@,
            has_edge(old(self).edges@, a as int, b as int) ==> edge_at(
                final(self).edges@,
                a as int,
                b as int,
            ) == (Edge {
                src: edge_at(old(self).edges@, a as int, b as int).src,
                dest: edge_at(old(self).edges@, a as int, b as int).dest,
                hop_count: if edge_at(old(self).edges@, a as int, b as int).hop_count
                    < usize::MAX {
                    (edge_at(old(self).edges@, a as int, b as int).hop_count + 1) as usize
                } else {
                    edge_at(old(self).edges@, a as int, b as int).hop_count
                },
                synthetic: edge_at(old(self).edges@, a as int, b as int).synthetic,
            }),
            forall|x: int, y: int|
                !(x == a as int && y == b as int) && has_edge(old(self).edges@, x, y) ==> edge_at(
                    final(self).edges@,
                    x,
                    y,
                ) == edge_at(old(self).edges@, x, y),
    {
        let r = self.find_edge(a, b);
        match r {
            Some(i) => {
                let ghost s0 = self.edges@;
                let mut e = self.edges[i];
                if e.hop_count < usize::MAX {
                    e.hop_count = e.hop_count + 1;
                }
                self.edges.set(i, e);
                proof {
                    let k = i as int;
                    let s1 = self.edges@;
                    lemma_edge_at_index(s0, k);
                    assert forall|p: int, q: int| 0 <= p < q < s1.len() implies !((
                    #[trigger] s1[p]).src == (#[trigger] s1[q]).src && s1[p].dest
                        == s1[q].dest) by {
                        assert(!(s0[p].src == s0[q].src && s0[p].dest == s0[q].dest));
                    }
                    lemma_edge_at_index(s1, k);
                    assert forall|x: int, y: int| has_edge(s1, x, y) <==> has_edge(s0, x, y) by {
                        if has_edge(s1, x, y) {
                            let j = choose|j: int|
                                0 <= j < s1.len() && (#[trigger] s1[j]).src as int == x && s1[j].dest as int == y;
                            assert(s0[j].src == s1[j].src && s0[j].dest == s1[j].dest);
                        }
                        if has_edge(s0, x, y) {
                            let j = choose|j: int|
                                0 <= j < s0.len() && (#[trigger] s0[j]).src as int == x && s0[j].dest as int == y;
                            assert(s1[j].src == s0[j].src && s1[j].dest == s0[j].dest);
                        }
                    }
                    assert forall|x: int, y: int|
                        !(x == a as int && y == b as int) && has_edge(s0, x, y) implies edge_at(
                        s1,
                        x,
                        y,
                    ) == edge_at(s0, x, y) by {
                        let j = choose|j: int|
                            0 <= j < s0.len() && (#[trigger] s0[j]).src as int == x && s0[j].dest
                                as int == y;
                        lemma_edge_at_index(s0, j);
                        assert(j != k);
                        assert(s1[j] == s0[j]);
                        lemma_edge_at_index(s1, j);
                    }
                    assert forall|x: usize, y: usize| (x as int) < self.n() && (y as int)
                        < self.n() implies #[trigger] count_of(self.nb(x as int), y)
                        >= self.demand(x, y) by {
                        assert(count_of(old(self).nb(x as int), y) >= old(self).demand(x, y));
                        assert(self.nb(x as int) == old(self).nb(x as int));
                        assert(has_edge(s1, x as int, y as int) <==> has_edge(
                            s0,
                            x as int,
                            y as int,
                        ));
                        assert(has_edge(s1, y as int, x as int) <==> has_edge(
                            s0,
                            y as int,
                            x as int,
                        ));
                    }
                    assert(self.neighbors@.len() == self.node_positions@.len());
                    assert forall|p: int| 0 <= p < s1.len() implies ((#[trigger] s1[p]).src
                        as int) < self.n() && ((s1[p].dest) as int) < self.n() by {
                        assert(s1[p].src == s0[p].src && s1[p].dest == s0[p].dest);
                        assert(((s0[p]).src as int) < old(self).n());
                    }
                    assert(self.edges_in_bounds());
                    assert(unique_keys(self.edges@));
                    assert forall|p2: int, q2: int|
                        0 <= p2 < self.neighbors@.len() && 0 <= q2 < self.nb(p2).len() implies ((
                        #[trigger] self.nb(p2)[q2]) as int) < self.n() by {
                        assert(self.nb(p2) == old(self).nb(p2));
                        assert(((old(self).nb(p2)[q2]) as int) < old(self).n());
                    }
                    assert(self.neighbors_in_bounds());
                    assert(self.adjacency_covers());
                }
            },
            None => {},
        }
    }

    /// Build a store from loaded node positions and directed edge pairs.
    /// A repeated pair keeps the single record its key already has; each
    /// distinct key contributes one adjacency entry on both endpoints.
    pub fn new(node_positions: Vec<Point3Bits>, edge_pairs: &Vec<(usize, usize)>) -> (g:
        GraphStore)
        requires
            node_positions@.len() > 0,
            forall|i: int|
                0 <= i < edge_pairs@.len() ==> ((#[trigger] edge_pairs@[i]).0 as int)
                    < node_positions@.len() && ((edge_pairs@[i]).1 as int)
                    < node_positions@.len(),
        ensures
            g.wf(),
            g.node_positions == node_positions,
            forall|x: int, y: int|
                has_edge(g.edges@, x, y) <==> exists|i: int|
                    0 <= i < edge_pairs@.len() && ((#[trigger] edge_pairs@[i]).0 as int) == x && ((
                    edge_pairs@[i]).1 as int) == y,
            forall|x: int, y: int|
                has_edge(g.edges@, x, y) ==> edge_at(g.edges@, x, y) == (Edge {
                    src: x as usize,
                    dest: y as usize,
                    hop_count: 0,
                    synthetic: false,
                }),
            forall|i: int|
                0 <= i < edge_pairs@.len() ==> g.nb((#[trigger] edge_pairs@[i]).0 as int).len() > 0
                    && g.nb((edge_pairs@[i]).1 as int).len() > 0,
            forall|a: usize, b: usize|
                (a as int) < g.n() && (b as int) < g.n() ==> #[trigger] count_of(g.nb(a as int), b)
                    == g.demand(a, b),
    {
        let n = node_positions.len();
        let mut neighbors: Vec<Vec<usize>> = Vec::new();
        while neighbors.len() < n
            invariant
                neighbors@.len() <= n,
                forall|i: int| 0 <= i < neighbors@.len() ==> (#[trigger] neighbors@[i])@.len() == 0,
            decreases n - neighbors@.len(),
        {
            neighbors.push(Vec::new());
        }
        let mut g = GraphStore { node_positions, edges: Vec::new(), neighbors };
        proof {
            assert forall|a2: usize, b2: usize| (a2 as int) < g.n() && (b2 as int) < g.n() implies
                #[trigger] count_of(g.nb(a2 as int), b2) == g.demand(a2, b2) by {
                assert(!has_edge(g.edges@, a2 as int, b2 as int));
                assert(!has_edge(g.edges@, b2 as int, a2 as int));
                assert(g.nb(a2 as int).len() == 0);
            }
        }
        let mut i: usize = 0;
        while i < edge_pairs.len()
            invariant
                i <= edge_pairs@.len(),
                g.wf(),
                forall|a2: usize, b2: usize|
                    (a2 as int) < g.n() && (b2 as int) < g.n() ==> #[trigger] count_of(
                        g.nb(a2 as int),
                        b2,
                    ) == g.demand(a2, b2),
                g.n() == n as int,
                n > 0,
                g.node_positions == node_positions,
                forall|j: int|
                    0 <= j < edge_pairs@.len() ==> ((#[trigger] edge_pairs@[j]).0 as int) < n
                        as int && ((edge_pairs@[j]).1 as int) < n as int,
                forall|x: int, y: int|
                    has_edge(g.edges@, x, y) <==> exists|j: int|
                        0 <= j < i && ((#[trigger] edge_pairs@[j]).0 as int) == x && ((
                        edge_pairs@[j]).1 as int) == y,
                forall|x: int, y: int|
                    has_edge(g.edges@, x, y) ==> edge_at(g.edges@, x, y) == (Edge {
                        src: x as usize,
                        dest: y as usize,
                        hop_count: 0,
                        synthetic: false,
                    }),
                forall|j: int|
                    0 <= j < i ==> g.nb((#[trigger] edge_pairs@[j]).0 as int).len() > 0 && g.nb(
                        (edge_pairs@[j]).1 as int,
                    ).len() > 0,
            decreases edge_pairs@.len() - i,
        {
            let pair = edge_pairs[i];
            let a = pair.0;
            let b = pair.1;
            let found = g.find_edge(a, b);
            let ghost gpre = g;
            match found {
                None => {
                    let fresh = Edge { src: a, dest: b, hop_count: 0, synthetic: false };
                    g.edges.push(fresh);
                    proof {
                        let s0 = gpre.edges@;
                        let s1 = g.edges@;
                        let k = s0.len() as int;
                        assert(s1[k] == fresh);
                        assert forall|p: int, q: int| 0 <= p < q < s1.len() implies !((
                        #[trigger] s1[p]).src == (#[trigger] s1[q]).src && s1[p].dest
                            == s1[q].dest) by {
                            if q < k {
                                assert(!(s0[p].src == s0[q].src && s0[p].dest == s0[q].dest));
                            } else {
                                assert(s1[q] == fresh && s1[p] == s0[p]);
                                assert(!has_edge(s0, a as int, b as int));
                            }
                        }
                        lemma_edge_at_index(s1, k);
                        assert forall|x: int, y: int|
                            !(x == a as int && y == b as int) && has_edge(s0, x, y) implies
                            has_edge(s1, x, y) && edge_at(s1, x, y) == edge_at(s0, x, y) by {
                            let j = choose|j: int|
                                0 <= j < s0.len() && ((#[trigger] s0[j]).src as int) == x && (s0[
                                    j].dest as int) == y;
                            lemma_edge_at_index(s0, j);
                            assert(s1[j] == s0[j]);
                            lemma_edge_at_index(s1, j);
                        }
                        assert forall|x: int, y: int|
                            !(x == a as int && y == b as int) && has_edge(s1, x, y) implies
                            has_edge(s0, x, y) by {
                            let j = choose|j: int|
                                0 <= j < s1.len() && ((#[trigger] s1[j]).src as int) == x && (s1[
                                    j].dest as int) == y;
                            assert(j != k);
                            assert(s1[j] == s0[j]);
                        }
                    }
                    let ghost g1 = g;
                    g.push_neighbor(a, b);
                    let ghost g2 = g;
                    g.push_neighbor(b, a);
                    proof {
                        assert forall|a2: usize, b2: usize| (a2 as int) < g.n() && (b2 as int)
                            < g.n() implies #[trigger] count_of(g.nb(a2 as int), b2) == g.demand(
                            a2,
                            b2,
                        ) by {
                            assert(count_of(gpre.nb(a2 as int), b2) == gpre.demand(a2, b2));
                            assert(g1.nb(a2 as int) == gpre.nb(a2 as int));
                            if a2 == a {
                                assert(g2.nb(a2 as int) == g1.nb(a2 as int).push(b));
                                lemma_count_push(g1.nb(a2 as int), b, b2);
                            } else {
                                assert(g2.nb(a2 as int) == g1.nb(a2 as int));
                            }
                            if a2 == b {
                                assert(g.nb(a2 as int) == g2.nb(a2 as int).push(a));
                                lemma_count_push(g2.nb(a2 as int), a, b2);
                            } else {
                                assert(g.nb(a2 as int) == g2.nb(a2 as int));
                            }
                        }
                        assert forall|p: int| 0 <= p < g.edges@.len() implies ((
                        #[trigger] g.edges@[p]).src as int) < g.n() && ((g.edges@[p].dest)
                            as int) < g.n() by {
                            if p < g.edges@.len() - 1 {
                                assert(g.edges@[p] == gpre.edges@[p]);
                                assert(((gpre.edges@[p]).src as int) < gpre.n());
                            }
                        }
                        assert forall|r: int, c: int|
                            0 <= r < g.neighbors@.len() && 0 <= c < g.nb(r).len() implies ((
                        #[trigger] g.nb(r)[c]) as int) < g.n() by {
                            assert(g1.nb(r) == gpre.nb(r));
                            if r == a as int {
                                assert(g2.nb(r) == g1.nb(r).push(b));
                            } else {
                                assert(g2.nb(r) == g1.nb(r));
                            }
                            if r == b as int {
                                assert(g.nb(r) == g2.nb(r).push(a));
                            } else {
                                assert(g.nb(r) == g2.nb(r));
                            }
                            assert(row_bounded(gpre.nb(r), gpre.n()));
                        }
                        assert(count_of(g.nb(a as int), b) >= 1);
                        lemma_count_contains(g.nb(a as int), b);
                        assert(count_of(g.nb(b as int), a) >= 1);
                        lemma_count_contains(g.nb(b as int), a);
                        assert(g.nb(a as int).len() > 0);
                        assert(g.nb(b as int).len() > 0);
                        assert forall|j: int|
                            0 <= j < i + 1 implies g.nb(
                            (#[trigger] edge_pairs@[j]).0 as int,
                        ).len() > 0 && g.nb((edge_pairs@[j]).1 as int).len() > 0 by {
                            if j < i {
                                let ra = (edge_pairs@[j]).0 as int;
                                let rb = (edge_pairs@[j]).1 as int;
                                assert(g1.nb(ra) == gpre.nb(ra) && g1.nb(rb) == gpre.nb(rb));
                                if ra == a as int {
                                    assert(g2.nb(ra) == g1.nb(ra).push(b));
                                } else {
                                    assert(g2.nb(ra) == g1.nb(ra));
                                }
                                if ra == b as int {
                                    assert(g.nb(ra) == g2.nb(ra).push(a));
                                } else {
                                    assert(g.nb(ra) == g2.nb(ra));
                                }
                                if rb == a as int {
                                    assert(g2.nb(rb) == g1.nb(rb).push(b));
                                } else {
                                    assert(g2.nb(rb) == g1.nb(rb));
                                }
                                if rb == b as int {
                                    assert(g.nb(rb) == g2.nb(rb).push(a));
                                } else {
                                    assert(g.nb(rb) == g2.nb(rb));
                                }
                            }
                        }
                        assert forall|x: int, y: int| has_edge(g.edges@, x, y) implies edge_at(
                            g.edges@,
                            x,
                            y,
                        ) == (Edge {
                            src: x as usize,
                            dest: y as usize,
                            hop_count: 0,
                            synthetic: false,
                        }) by {
                            if !(x == a as int && y == b as int) {
                                assert(has_edge(gpre.edges@, x, y));
                                assert(edge_at(g.edges@, x, y) == edge_at(gpre.edges@, x, y));
                            }
                        }
                    }
                },
                Some(_) => {
                    proof {
                        assert(has_edge(g.edges@, a as int, b as int));
                        assert(g.demand(a, b) >= 1);
                        assert(count_of(g.nb(a as int), b) >= g.demand(a, b));
                        lemma_count_contains(g.nb(a as int), b);
                        assert(g.nb(a as int).len() > 0);
                        assert(g.demand(b, a) >= 1);
                        assert(count_of(g.nb(b as int), a) >= g.demand(b, a));
                        lemma_count_contains(g.nb(b as int), a);
                        assert(g.nb(b as int).len() > 0);
                    }
                },
            }
            proof {
                assert forall|x: int, y: int| has_edge(g.edges@, x, y) implies exists|j: int|
                    0 <= j < i + 1 && ((#[trigger] edge_pairs@[j]).0 as int) == x && ((
                    edge_pairs@[j]).1 as int) == y by {
                    if has_edge(gpre.edges@, x, y) {
                        let j = choose|j: int|
                            0 <= j < i && ((#[trigger] edge_pairs@[j]).0 as int) == x && ((
                            edge_pairs@[j]).1 as int) == y;
                        assert(0 <= j < i + 1 && ((edge_pairs@[j]).0 as int) == x && ((
                        edge_pairs@[j]).1 as int) == y);
                    } else {
                        assert(x == a as int && y == b as int);
                        assert(((edge_pairs@[i as int]).0 as int) == x && ((
                        edge_pairs@[i as int]).1 as int) == y);
                    }
                }
                assert forall|x: int, y: int|
                    (exists|j: int|
                        0 <= j < i + 1 && ((#[trigger] edge_pairs@[j]).0 as int) == x && ((
                        edge_pairs@[j]).1 as int) == y) implies has_edge(g.edges@, x, y) by {
                    let j = choose|j: int|
                        0 <= j < i + 1 && ((#[trigger] edge_pairs@[j]).0 as int) == x && ((
                        edge_pairs@[j]).1 as int) == y;
                    if j < i {
                        assert(has_edge(gpre.edges@, x, y));
                        if !(x == a as int && y == b as int) {
                            assert(has_edge(g.edges@, x, y));
                        }
                    } else {
                        assert(x == a as int && y == b as int);
                    }
                    assert(has_edge(g.edges@, a as int, b as int));
                }
            }
            i = i + 1;
        }
        g
    }

    /// One congestion pass: every edge whose `hop_count` has reached the
    /// threshold is broken and rewired, each endpoint toward a destination
    /// drawn uniformly at random from the full node set. Runs once per
    /// tick, before rotation and carrier stepping. Afterwards every edge
    /// is either below the threshold or freshly rewired; an edge below
    /// the threshold keeps its key, and its record survives unchanged
    /// unless a rewire draw happens to overwrite that key.
    pub fn congestion_sweep(&mut self, break_threshold: usize)
        requires
            old(self).wf(),
            old(self).n() > 0,
        ensures
            final(self).wf(),
            final(self).node_positions == old(self).node_positions,
            final(self).neighbors@.len() == old(self).neighbors@.len(),
            forall|x: int, y: int|
                has_edge(final(self).edges@, x, y) ==> (edge_at(
                    final(self).edges@,
                    x,
                    y,
                ).hop_count as int) < break_threshold as int || fresh_synthetic(
                    edge_at(final(self).edges@, x, y),
                ),
            forall|x: int, y: int|
                has_edge(old(self).edges@, x, y) && (edge_at(old(self).edges@, x, y).hop_count
                    as int) < break_threshold as int ==> has_edge(final(self).edges@, x, y) && (
                edge_at(final(self).edges@, x, y) == edge_at(old(self).edges@, x, y)
                    || fresh_synthetic(edge_at(final(self).edges@, x, y))),
            forall|x: int, y: int|
                has_edge(old(self).edges@, x, y) && (edge_at(old(self).edges@, x, y).hop_count
                    as int) >= break_threshold as int ==> !has_edge(final(self).edges@, x, y)
                    || fresh_synthetic(edge_at(final(self).edges@, x, y)),
            forall|x: int, y: int|
                has_edge(final(self).edges@, x, y) ==> has_edge(old(self).edges@, x, y)
                    || fresh_synthetic(edge_at(final(self).edges@, x, y)),
            (forall|i: int|
                0 <= i < old(self).edges@.len() ==> ((#[trigger] old(self).edges@[i]).hop_count
                    as int) < break_threshold as int) ==> final(self).edges@ == old(self).edges@
                && final(self).neighbors@ == old(self).neighbors@,
    {
        let broken = self.congested_keys(break_threshold);
        let n = self.node_positions.len();
        let ghost g0 = *self;
        proof {
            assert forall|x: int, y: int|
                has_edge(g0.edges@, x, y) && !((edge_at(g0.edges@, x, y).hop_count as int)
                    < break_threshold as int) implies exists|p: int|
                0 <= p < broken@.len() && (#[trigger] broken@[p]) == (x as usize, y as usize) by {
                let j = choose|j: int|
                    0 <= j < g0.edges@.len() && ((#[trigger] g0.edges@[j]).src as int) == x && (
                    g0.edges@[j].dest as int) == y;
                lemma_edge_at_index(g0.edges@, j);
                assert(g0.edges@[j].hop_count >= break_threshold);
                assert(broken@.contains((g0.edges@[j].src, g0.edges@[j].dest)));
                let p = choose|p: int|
                    0 <= p < broken@.len() && broken@[p] == (g0.edges@[j].src, g0.edges@[j].dest);
                assert(broken@[p] == (x as usize, y as usize));
            }
        }
        let mut k: usize = 0;
        while k < broken.len()
            invariant
                k <= broken@.len(),
                self.wf(),
                g0.wf(),
                self.node_positions == g0.node_positions,
                self.neighbors@.len() == g0.neighbors@.len(),
                n == g0.node_positions@.len(),
                n > 0,
                forall|p: int, q: int| 0 <= p < q < broken@.len() ==> broken@[p] != broken@[q],
                forall|p: int|
                    0 <= p < broken@.len() ==> has_edge(
                        g0.edges@,
                        (#[trigger] broken@[p]).0 as int,
                        broken@[p].1 as int,
                    ) && edge_at(g0.edges@, broken@[p].0 as int, broken@[p].1 as int).hop_count
                        >= break_threshold,
                forall|p: int|
                    k <= p < broken@.len() ==> has_edge(
                        self.edges@,
                        (#[trigger] broken@[p]).0 as int,
                        broken@[p].1 as int,
                    ),
                forall|x: int, y: int|
                    has_edge(self.edges@, x, y) ==> (edge_at(self.edges@, x, y).hop_count as int)
                        < break_threshold as int || fresh_synthetic(edge_at(self.edges@, x, y))
                        || exists|p: int|
                        k <= p < broken@.len() && (#[trigger] broken@[p]) == (x as usize, y as usize),
                forall|x: int, y: int|
                    has_edge(g0.edges@, x, y) && (edge_at(g0.edges@, x, y).hop_count as int)
                        < break_threshold as int ==> has_edge(self.edges@, x, y) && (edge_at(
                        self.edges@,
                        x,
                        y,
                    ) == edge_at(g0.edges@, x, y) || fresh_synthetic(edge_at(self.edges@, x, y))),
                forall|x: int, y: int|
                    has_edge(g0.edges@, x, y) && (edge_at(g0.edges@, x, y).hop_count as int)
                        >= break_threshold as int ==> !has_edge(self.edges@, x, y)
                        || fresh_synthetic(edge_at(self.edges@, x, y)) || exists|p: int|
                        k <= p < broken@.len() && (#[trigger] broken@[p]) == (x as usize, y as usize),
                forall|x: int, y: int|
                    has_edge(self.edges@, x, y) ==> has_edge(g0.edges@, x, y) || fresh_synthetic(
                        edge_at(self.edges@, x, y),
                    ),
                broken@.len() == 0 ==> self.edges@ == g0.edges@ && self.neighbors@ == g0.neighbors@,
            decreases broken@.len() - k,
        {
            let (s, d) = broken[k];
            let na = random_index(n);
            let nb2 = random_index(n);
            let ghost pre = *self;
            self.rewire(s, d, na, nb2);
            proof {
                assert(fresh_synthetic(edge_at(self.edges@, s as int, na as int)));
                assert(fresh_synthetic(edge_at(self.edges@, d as int, nb2 as int)));
                assert forall|p: int|
                    k + 1 <= p < broken@.len() implies has_edge(
                    self.edges@,
                    (#[trigger] broken@[p]).0 as int,
                    broken@[p].1 as int,
                ) by {
                    let bx = broken@[p].0;
                    let by = broken@[p].1;
                    assert(broken@[p] != broken@[k as int]);
                    assert(has_edge(pre.edges@, bx as int, by as int));
                    if !(bx == s && by == d) {
                        assert(has_edge(self.edges@, bx as int, by as int) || (bx as int == s
                            as int && by as int == na as int) || (bx as int == d as int && by
                            as int == nb2 as int));
                    }
                }
                assert forall|x: int, y: int|
                    has_edge(self.edges@, x, y) && !((edge_at(self.edges@, x, y).hop_count
                        as int) < break_threshold as int) && !fresh_synthetic(
                        edge_at(self.edges@, x, y),
                    ) implies exists|p: int|
                    k + 1 <= p < broken@.len() && (#[trigger] broken@[p]) == (
                    x as usize,
                    y as usize,
                ) by {
                    // The keys this rewire touched are fresh or absent, so
                    // such a key was untouched and already pending.
                    if (x == s as int && y == na as int) || (x == d as int && y == nb2 as int) {
                        assert(false);
                    }
                    if x == s as int && y == d as int {
                        assert(false);
                    }
                    assert(has_edge(pre.edges@, x, y));
                    assert(edge_at(pre.edges@, x, y) == edge_at(self.edges@, x, y));
                    let p = choose|p: int|
                        k <= p < broken@.len() && (#[trigger] broken@[p]) == (x as usize, y as usize);
                    assert(p != k);
                }
                assert forall|x: int, y: int|
                    has_edge(g0.edges@, x, y) && (edge_at(g0.edges@, x, y).hop_count as int)
                        < break_threshold as int implies has_edge(self.edges@, x, y) && (edge_at(
                    self.edges@,
                    x,
                    y,
                ) == edge_at(g0.edges@, x, y) || fresh_synthetic(edge_at(self.edges@, x, y))) by {
                    assert(has_edge(pre.edges@, x, y));
                    if x == s as int && y == d as int {
                        assert(broken@[k as int] == (s, d));
                        assert(edge_at(g0.edges@, s as int, d as int).hop_count
                            >= break_threshold);
                        assert(false);
                    }
                    if !((x == s as int && y == na as int) || (x == d as int && y == nb2
                        as int)) {
                        assert(edge_at(self.edges@, x, y) == edge_at(pre.edges@, x, y));
                    }
                }
                assert forall|x: int, y: int|
                    has_edge(g0.edges@, x, y) && (edge_at(g0.edges@, x, y).hop_count as int)
                        >= break_threshold as int && has_edge(self.edges@, x, y)
                        && !fresh_synthetic(edge_at(self.edges@, x, y)) implies exists|p: int|
                    k + 1 <= p < broken@.len() && (#[trigger] broken@[p]) == (
                    x as usize,
                    y as usize,
                ) by {
                    if (x == s as int && y == na as int) || (x == d as int && y == nb2 as int) {
                        assert(false);
                    }
                    if x == s as int && y == d as int {
                        assert(false);
                    }
                    assert(has_edge(pre.edges@, x, y));
                    assert(edge_at(pre.edges@, x, y) == edge_at(self.edges@, x, y));
                    let p = choose|p: int|
                        k <= p < broken@.len() && (#[trigger] broken@[p]) == (x as usize, y as usize);
                    assert(p != k);
                }
                assert forall|x: int, y: int| has_edge(self.edges@, x, y) implies has_edge(
                    g0.edges@,
                    x,
                    y,
                ) || fresh_synthetic(edge_at(self.edges@, x, y)) by {
                    if has_edge(pre.edges@, x, y) && !((x == s as int && y == na as int) || (x == d
                        as int && y == nb2 as int)) {
                        assert(edge_at(self.edges@, x, y) == edge_at(pre.edges@, x, y));
                    }
                }
            }
            k = k + 1;
        }
        proof {
            assert(broken@.len() <= k);
            if forall|i: int|
                0 <= i < g0.edges@.len() ==> ((#[trigger] g0.edges@[i]).hop_count as int)
                    < break_threshold as int {
                if broken@.len() > 0 {
                    let key = broken@[0];
                    assert(has_edge(g0.edges@, key.0 as int, key.1 as int));
                    assert(edge_at(g0.edges@, key.0 as int, key.1 as int).hop_count
                        >= break_threshold);
                    let wi = choose|i: int|
                        0 <= i < g0.edges@.len() && ((#[trigger] g0.edges@[i]).src as int) == key.0
                            as int && (g0.edges@[i].dest as int) == key.1 as int;
                    lemma_edge_at_index(g0.edges@, wi);
                    assert(false);
                }
            }
        }
    }

    /// How many nodes the store holds.
    pub fn node_count(&self) -> (c: usize)
        ensures
            c as int == self.n(),
    {
        self.node_positions.len()
    }

    /// The position of node `i`.
    pub fn node_position(&self, i: usize) -> (p: Point3Bits)
        requires
            (i as int) < self.n(),
        ensures
            p == self.node_positions@[i as int],
    {
        self.node_positions[i]
    }

    /// The length of node `i`'s adjacency list.
    pub fn neighbor_count(&self, i: usize) -> (c: usize)
        requires
            i < self.neighbors@.len(),
        ensures
            c == self.nb(i as int).len(),
    {
        self.neighbors[i].len()
    }

    /// The `j`-th entry of node `i`'s adjacency list.
    pub fn neighbor_at(&self, i: usize, j: usize) -> (v: usize)
        requires
            i < self.neighbors@.len(),
            j < self.nb(i as int).len(),
        ensures
            v == self.nb(i as int)[j as int],
    {
        self.neighbors[i][j]
    }

    /// A uniformly random entry of node `i`'s adjacency list, or `None`
    /// when the node has no neighbors.
    pub fn pick_neighbor(&self, i: usize) -> (r: Option<usize>)
        requires
            self.wf(),
            (i as int) < self.n(),
        ensures
            match r {
                Some(d) => self.nb(i as int).contains(d) && (d as int) < self.n(),
                None => self.nb(i as int).len() == 0,
            },
    {
        let len = self.neighbor_count(i);
        if len == 0 {
            None
        } else {
            let j = random_index(len);
            let d = self.neighbor_at(i, j);
            Some(d)
        }
    }
}

/// Law: the adjacency lists are symmetric-consistent with the edge
/// mapping. In a well-formed store — so after construction and after
/// every rewire, sweep or hop-count change, each of which keeps `wf` —
/// every present edge `(a, b)` has `b` listed among `a`'s neighbors and
/// `a` among `b`'s.
pub proof fn lemma_adjacency_symmetric(g: GraphStore, a: usize, b: usize)
    requires
        g.wf(),
        has_edge(g.edges@, a as int, b as int),
    ensures
        g.nb(a as int).contains(b),
        g.nb(b as int).contains(a),
{
    let wi = choose|i: int|
        0 <= i < g.edges@.len() && (#[trigger] g.edges@[i]).src as int == a as int && g.edges@[i].dest as int == b as int;
    assert(((g.edges@[wi]).src as int) < g.n());
    assert(g.demand(a, b) >= 1);
    assert(g.demand(b, a) >= 1);
    assert(count_of(g.nb(a as int), b) >= g.demand(a, b));
    assert(count_of(g.nb(b as int), a) >= g.demand(b, a));
    lemma_count_contains(g.nb(a as int), b);
    lemma_count_contains(g.nb(b as int), a);
}

} // verus!
