//! The pool of carriers: per-tick stepping, hop triggering, and the
//! hop-count increments on the edges just traversed.

use vstd::prelude::*;
use vstd::pervasive::VecAdditionalExecFns;
use crate::Point3Bits;
use crate::carrier::Carrier;
use crate::carrier::hop_ready;
use crate::carrier::is_hop_ready;
use crate::graph::GraphStore;
use crate::graph::has_edge;
use crate::graph::edge_at;

verus! {

/// One carrier's numeric step result for a tick: the advanced progress
/// value and the newly interpolated position, both as bit patterns.
#[derive(Clone, Copy, Debug)]
pub struct StepInput {
    pub progress_bits: u32,
    pub pos: Point3Bits,
}

/// The fixed-size set of carriers.
pub struct CarrierPool {
    pub carriers: Vec<Carrier>,
}

impl CarrierPool {
    /// Every carrier names nodes of a graph with `n` nodes.
    pub open spec fn valid(self, n: int) -> bool {
        forall|i: int|
            0 <= i < self.carriers@.len() ==> (#[trigger] self.carriers@[i]).valid(n)
    }

    /// Spawn `count` carriers at random positions.
    pub fn spawn_random(graph: &GraphStore, count: usize, color: (u32, u32, u32)) -> (p:
        CarrierPool)
        requires
            graph.wf(),
            graph.n() > 0,
            forall|i: int| 0 <= i < graph.n() ==> graph.nb(i).len() > 0,
        ensures
            p.carriers@.len() == count,
            p.valid(graph.n()),
            forall|i: int|
                0 <= i < count ==> (#[trigger] p.carriers@[i]).progress_bits == 0
                    && p.carriers@[i].color == color && p.carriers@[i].pos
                    == graph.node_positions@[p.carriers@[i].src as int] && graph.nb(
                    p.carriers@[i].src as int,
                ).contains(p.carriers@[i].dest) && p.carriers@[i].dest_pos
                    == graph.node_positions@[p.carriers@[i].dest as int],
    {
        let mut carriers: Vec<Carrier> = Vec::new();
        while carriers.len() < count
            invariant
                carriers@.len() <= count,
                graph.wf(),
                graph.n() > 0,
                forall|i: int| 0 <= i < graph.n() ==> graph.nb(i).len() > 0,
                forall|i: int|
                    0 <= i < carriers@.len() ==> (#[trigger] carriers@[i]).valid(graph.n())
                        && carriers@[i].progress_bits == 0 && carriers@[i].color == color
                        && carriers@[i].pos == graph.node_positions@[carriers@[i].src as int]
                        && graph.nb(carriers@[i].src as int).contains(carriers@[i].dest)
                        && carriers@[i].dest_pos == graph.node_positions@[carriers@[i].dest as int],
            decreases count - carriers@.len(),
        {
            carriers.push(Carrier::spawn_random(graph, color));
        }
        CarrierPool { carriers }
    }

    /// Apply one tick's step results: each carrier takes its new progress
    /// and position; a carrier whose progress has reached one half hops,
    /// and after a successful hop the traversed edge's hop count — and its
    /// reverse key's, when present — is incremented.
    pub fn advance(&mut self, graph: &mut GraphStore, inputs: &Vec<StepInput>)
        requires
            old(graph).wf(),
            old(self).valid(old(graph).n()),
            inputs@.len() == old(self).carriers@.len(),
        ensures
            final(graph).wf(),
            final(graph).node_positions == old(graph).node_positions,
            final(graph).neighbors == old(graph).neighbors,
            forall|x: int, y: int|
                has_edge(final(graph).edges@, x, y) <==> has_edge(old(graph).edges@, x, y),
            forall|x: int, y: int|
                has_edge(old(graph).edges@, x, y) ==> edge_at(final(graph).edges@, x, y).synthetic
                    == edge_at(old(graph).edges@, x, y).synthetic && edge_at(
                    final(graph).edges@,
                    x,
                    y,
                ).hop_count >= edge_at(old(graph).edges@, x, y).hop_count && edge_at(
                    final(graph).edges@,
                    x,
                    y,
                ).src == edge_at(old(graph).edges@, x, y).src && edge_at(
                    final(graph).edges@,
                    x,
                    y,
                ).dest == edge_at(old(graph).edges@, x, y).dest && (edge_at(
                    final(graph).edges@,
                    x,
                    y,
                ).hop_count as int) <= (edge_at(old(graph).edges@, x, y).hop_count as int) + 2 * (
                old(self).carriers@.len() as int),
            final(self).carriers@.len() == old(self).carriers@.len(),
            final(self).valid(old(graph).n()),
            forall|i: int|
                0 <= i < old(self).carriers@.len() ==> {
                    let c0 = old(self).carriers@[i];
                    let inp = inputs@[i];
                    let c1 = #[trigger] final(self).carriers@[i];
                    if !hop_ready(inp.progress_bits) || old(graph).nb(c0.dest as int).len() == 0 {
                        c1 == (Carrier {
                            pos: inp.pos,
                            progress_bits: inp.progress_bits,
                            ..c0
                        })
                    } else {
                        c1.src == c0.dest && c1.pos == c0.dest_pos && c1.progress_bits == 0
                            && old(graph).nb(c0.dest as int).contains(c1.dest) && c1.dest_pos
                            == old(graph).node_positions@[c1.dest as int] && c1.color == c0.color
                    }
                },
    {
        let ghost graph0 = *graph;
        let ghost pool0 = *self;
        let mut i: usize = 0;
        while i < self.carriers.len()
            invariant
                i <= self.carriers@.len(),
                self.carriers@.len() == pool0.carriers@.len(),
                inputs@.len() == pool0.carriers@.len(),
                graph0.wf(),
                pool0.valid(graph0.n()),
                graph.wf(),
                graph.node_positions == graph0.node_positions,
                graph.neighbors == graph0.neighbors,
                forall|x: int, y: int|
                    has_edge(graph.edges@, x, y) <==> has_edge(graph0.edges@, x, y),
                forall|x: int, y: int|
                    has_edge(graph0.edges@, x, y) ==> edge_at(graph.edges@, x, y).synthetic
                        == edge_at(graph0.edges@, x, y).synthetic && edge_at(
                        graph.edges@,
                        x,
                        y,
                    ).hop_count >= edge_at(graph0.edges@, x, y).hop_count && edge_at(
                        graph.edges@,
                        x,
                        y,
                    ).src == edge_at(graph0.edges@, x, y).src && edge_at(
                        graph.edges@,
                        x,
                        y,
                    ).dest == edge_at(graph0.edges@, x, y).dest && (edge_at(
                        graph.edges@,
                        x,
                        y,
                    ).hop_count as int) <= (edge_at(graph0.edges@, x, y).hop_count as int) + 2 * (
                    i as int),
                forall|j: int| i <= j < pool0.carriers@.len() ==> #[trigger] self.carriers@[j]
                    == pool0.carriers@[j],
                forall|j: int|
                    0 <= j < i ==> {
                        let c0 = pool0.carriers@[j];
                        let inp = inputs@[j];
                        let c1 = #[trigger] self.carriers@[j];
                        &&& c1.valid(graph0.n())
                        &&& if !hop_ready(inp.progress_bits) || graph0.nb(c0.dest as int).len()
                            == 0 {
                            c1 == (Carrier {
                                pos: inp.pos,
                                progress_bits: inp.progress_bits,
                                ..c0
                            })
                        } else {
                            c1.src == c0.dest && c1.pos == c0.dest_pos && c1.progress_bits == 0
                                && graph0.nb(c0.dest as int).contains(c1.dest) && c1.dest_pos
                                == graph0.node_positions@[c1.dest as int] && c1.color == c0.color
                        }
                    },
            decreases self.carriers@.len() - i,
        {
            let ghost gpre = *graph;
            let ghost mut gmid = *graph;
            let mut c = self.carriers[i];
            let inp = inputs[i];
            c.pos = inp.pos;
            c.progress_bits = inp.progress_bits;
            if is_hop_ready(inp.progress_bits) {
                let hopped = c.hop(graph);
                if hopped {
                    graph.increment_hop(c.src, c.dest);
                    proof {
                        gmid = *graph;
                    }
                    graph.increment_hop(c.dest, c.src);
                }
            }
            self.carriers.set(i, c);
            proof {
                assert(graph.neighbors == gpre.neighbors);
                assert forall|x: int, y: int|
                    has_edge(graph0.edges@, x, y) implies edge_at(graph.edges@, x, y).synthetic
                    == edge_at(graph0.edges@, x, y).synthetic && edge_at(
                    graph.edges@,
                    x,
                    y,
                ).hop_count >= edge_at(graph0.edges@, x, y).hop_count && edge_at(
                    graph.edges@,
                    x,
                    y,
                ).src == edge_at(graph0.edges@, x, y).src && edge_at(
                    graph.edges@,
                    x,
                    y,
                ).dest == edge_at(graph0.edges@, x, y).dest && (edge_at(
                    graph.edges@,
                    x,
                    y,
                ).hop_count as int) <= (edge_at(graph0.edges@, x, y).hop_count as int) + 2 * (
                i as int) + 2 by {
                    assert(has_edge(gpre.edges@, x, y));
                    assert(has_edge(gmid.edges@, x, y));
                    assert((edge_at(gmid.edges@, x, y).hop_count as int) <= (edge_at(
                        gpre.edges@,
                        x,
                        y,
                    ).hop_count as int) + 1);
                    assert((edge_at(graph.edges@, x, y).hop_count as int) <= (edge_at(
                        gmid.edges@,
                        x,
                        y,
                    ).hop_count as int) + 1);
                }
            }
            i = i + 1;
        }
    }
}

} // verus!
