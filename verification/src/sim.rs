//! The simulation context: the graph, the carrier pool and the view
//! state, with the per-tick entry points in their fixed order — the
//! congestion sweep, the rotation choice, the rotated positions coming
//! back, and the carrier steps with their hops.
//!
//! The rotation itself is numeric work on the coordinate bit patterns and
//! is done by the caller between `rotation_for_tick` and `set_positions`;
//! nodes and carriers are replaced together, so their relative geometry is
//! whatever the one rotation the caller applied to all of them preserves.

use vstd::prelude::*;
use vstd::pervasive::VecAdditionalExecFns;
use crate::Point3Bits;
use crate::carrier::Carrier;
use crate::graph::GraphStore;
use crate::graph::fresh_synthetic;
use crate::graph::has_edge;
use crate::graph::edge_at;
use crate::pool::CarrierPool;
use crate::pool::StepInput;
use crate::view::ViewState;

verus! {

/// True when some pair in `pairs` has node `v` as one of its endpoints —
/// the node is then not isolated in the loaded graph.
pub open spec fn touches(pairs: Seq<(usize, usize)>, v: int) -> bool {
    exists|j: int|
        0 <= j < pairs.len() && (((#[trigger] pairs[j]).0 as int) == v || ((pairs[j]).1 as int)
            == v)
}

/// The whole live simulation state, constructed once from loader output
/// and mutated only through the tick entry points.
pub struct Simulation {
    pub graph: GraphStore,
    pub pool: CarrierPool,
    pub view: ViewState,
}

impl Simulation {
    pub open spec fn wf(self) -> bool {
        &&& self.graph.wf()
        &&& self.pool.valid(self.graph.n())
    }

    /// Build the simulation from loaded node positions and edge pairs and
    /// spawn `carrier_count` carriers. Loaders must reject out-of-bounds
    /// indices, an empty node set, and isolated nodes before this point.
    pub fn new(
        node_positions: Vec<Point3Bits>,
        edge_pairs: &Vec<(usize, usize)>,
        carrier_count: usize,
        color: (u32, u32, u32),
    ) -> (s: Simulation)
        requires
            node_positions@.len() > 0,
            forall|i: int|
                0 <= i < edge_pairs@.len() ==> ((#[trigger] edge_pairs@[i]).0 as int)
                    < node_positions@.len() && ((edge_pairs@[i]).1 as int)
                    < node_positions@.len(),
            forall|v: int| 0 <= v < node_positions@.len() ==> #[trigger] touches(edge_pairs@, v),
        ensures
            s.wf(),
            s.graph.node_positions == node_positions,
            s.graph.n() == node_positions@.len(),
            s.pool.carriers@.len() == carrier_count,
            forall|x: int, y: int|
                has_edge(s.graph.edges@, x, y) <==> exists|i: int|
                    0 <= i < edge_pairs@.len() && ((#[trigger] edge_pairs@[i]).0 as int) == x && ((
                    edge_pairs@[i]).1 as int) == y,
            forall|x: int, y: int|
                has_edge(s.graph.edges@, x, y) ==> edge_at(s.graph.edges@, x, y).hop_count == 0
                    && !edge_at(s.graph.edges@, x, y).synthetic,
            !s.view.dragging,
            s.view.delta_bits == (0u32, 0u32),
            s.view.last_bits == (0u32, 0u32),
            forall|i: int|
                0 <= i < carrier_count ==> (#[trigger] s.pool.carriers@[i]).progress_bits == 0
                    && s.pool.carriers@[i].color == color && s.pool.carriers@[i].pos
                    == s.graph.node_positions@[s.pool.carriers@[i].src as int] && s.graph.nb(
                    s.pool.carriers@[i].src as int,
                ).contains(s.pool.carriers@[i].dest) && s.pool.carriers@[i].dest_pos
                    == s.graph.node_positions@[s.pool.carriers@[i].dest as int],
    {
        let graph = GraphStore::new(node_positions, edge_pairs);
        proof {
            assert forall|v: int| 0 <= v < graph.n() implies graph.nb(v).len() > 0 by {
                assert(touches(edge_pairs@, v));
                let j = choose|j: int|
                    0 <= j < edge_pairs@.len() && (((#[trigger] edge_pairs@[j]).0 as int) == v || ((
                    edge_pairs@[j]).1 as int) == v);
                assert(graph.nb((edge_pairs@[j]).0 as int).len() > 0);
                assert(graph.nb((edge_pairs@[j]).1 as int).len() > 0);
            }
        }
        let pool = CarrierPool::spawn_random(&graph, carrier_count, color);
        Simulation { graph, pool, view: ViewState::new() }
    }

    /// Tick phase one: break and rewire every congested edge. Afterwards
    /// every edge is below the threshold or freshly rewired; an edge
    /// below the threshold keeps its key, and its record survives
    /// unchanged unless a rewire draw overwrote that key.
    pub fn congestion_sweep(&mut self, break_threshold: usize)
        requires
            old(self).wf(),
            old(self).graph.n() > 0,
        ensures
            final(self).wf(),
            final(self).graph.n() == old(self).graph.n(),
            final(self).graph.node_positions == old(self).graph.node_positions,
            final(self).pool == old(self).pool,
            final(self).view == old(self).view,
            forall|x: int, y: int|
                has_edge(final(self).graph.edges@, x, y) ==> (edge_at(
                    final(self).graph.edges@,
                    x,
                    y,
                ).hop_count as int) < break_threshold as int || fresh_synthetic(
                    edge_at(final(self).graph.edges@, x, y),
                ),
            forall|x: int, y: int|
                has_edge(old(self).graph.edges@, x, y) && (edge_at(
                    old(self).graph.edges@,
                    x,
                    y,
                ).hop_count as int) < break_threshold as int ==> has_edge(
                    final(self).graph.edges@,
                    x,
                    y,
                ) && (edge_at(final(self).graph.edges@, x, y) == edge_at(
                    old(self).graph.edges@,
                    x,
                    y,
                ) || fresh_synthetic(edge_at(final(self).graph.edges@, x, y))),
            forall|x: int, y: int|
                has_edge(old(self).graph.edges@, x, y) && (edge_at(
                    old(self).graph.edges@,
                    x,
                    y,
                ).hop_count as int) >= break_threshold as int ==> !has_edge(
                    final(self).graph.edges@,
                    x,
                    y,
                ) || fresh_synthetic(edge_at(final(self).graph.edges@, x, y)),
            forall|x: int, y: int|
                has_edge(final(self).graph.edges@, x, y) ==> has_edge(
                    old(self).graph.edges@,
                    x,
                    y,
                ) || fresh_synthetic(edge_at(final(self).graph.edges@, x, y)),
    {
        self.graph.congestion_sweep(break_threshold);
    }

    /// Tick phase two: the Euler angles to rotate the scene by this tick.
    pub fn rotation_for_tick(&self, idle_y_bits: u32) -> (r: (u32, u32, u32))
        ensures
            self.view.dragging ==> r == (self.view.delta_bits.0, self.view.delta_bits.1, 0u32),
            !self.view.dragging ==> r == (0u32, idle_y_bits, 0u32),
    {
        self.view.rotation_for_tick(idle_y_bits)
    }

    /// Tick phase three: take back the rotated positions — one per node,
    /// and a (current, destination) pair per carrier. The caller rotates
    /// every position by the same angles, so nodes and carriers stay in
    /// one shared frame.
    pub fn set_positions(
        &mut self,
        nodes: Vec<Point3Bits>,
        carrier_positions: &Vec<(Point3Bits, Point3Bits)>,
    )
        requires
            old(self).wf(),
            nodes@.len() == old(self).graph.node_positions@.len(),
            carrier_positions@.len() == old(self).pool.carriers@.len(),
        ensures
            final(self).wf(),
            final(self).graph.node_positions == nodes,
            final(self).graph.edges == old(self).graph.edges,
            final(self).graph.neighbors == old(self).graph.neighbors,
            final(self).view == old(self).view,
            final(self).pool.carriers@.len() == old(self).pool.carriers@.len(),
            forall|i: int|
                0 <= i < old(self).pool.carriers@.len() ==> #[trigger] final(self).pool.carriers@[i]
                    == (Carrier {
                    pos: carrier_positions@[i].0,
                    dest_pos: carrier_positions@[i].1,
                    ..old(self).pool.carriers@[i]
                }),
    {
        let ghost self0 = *self;
        self.graph.node_positions = nodes;
        let mut i: usize = 0;
        while i < self.pool.carriers.len()
            invariant
                i <= self.pool.carriers@.len(),
                self.pool.carriers@.len() == self0.pool.carriers@.len(),
                carrier_positions@.len() == self0.pool.carriers@.len(),
                self.graph.node_positions == nodes,
                self.graph.edges == self0.graph.edges,
                self.graph.neighbors == self0.graph.neighbors,
                nodes@.len() == self0.graph.node_positions@.len(),
                self.view == self0.view,
                forall|j: int| i <= j < self0.pool.carriers@.len() ==> #[trigger]
                    self.pool.carriers@[j] == self0.pool.carriers@[j],
                forall|j: int|
                    0 <= j < i ==> #[trigger] self.pool.carriers@[j] == (Carrier {
                        pos: carrier_positions@[j].0,
                        dest_pos: carrier_positions@[j].1,
                        ..self0.pool.carriers@[j]
                    }),
            decreases self.pool.carriers@.len() - i,
        {
            let mut c = self.pool.carriers[i];
            let pair = carrier_positions[i];
            c.pos = pair.0;
            c.dest_pos = pair.1;
            self.pool.carriers.set(i, c);
            i = i + 1;
        }
        proof {
            assert forall|a2: usize, b2: usize| (a2 as int) < self.graph.n() && (b2 as int)
                < self.graph.n() implies #[trigger] crate::graph::count_of(
                self.graph.nb(a2 as int),
                b2,
            ) >= self.graph.demand(a2, b2) by {
                assert(self.graph.nb(a2 as int) == self0.graph.nb(a2 as int));
                assert(crate::graph::count_of(self0.graph.nb(a2 as int), b2) >= self0.graph.demand(
                    a2,
                    b2,
                ));
            }
            assert forall|p: int| 0 <= p < self.graph.edges@.len() implies ((
            #[trigger] self.graph.edges@[p]).src as int) < self.graph.n() && ((
            self.graph.edges@[p].dest) as int) < self.graph.n() by {
                assert(self.graph.edges@[p] == self0.graph.edges@[p]);
                assert(((self0.graph.edges@[p]).src as int) < self0.graph.n());
            }
            assert forall|r: int, c2: int|
                0 <= r < self.graph.neighbors@.len() && 0 <= c2 < self.graph.nb(r).len() implies ((
            #[trigger] self.graph.nb(r)[c2]) as int) < self.graph.n() by {
                assert(self.graph.nb(r) == self0.graph.nb(r));
                assert(((self0.graph.nb(r)[c2]) as int) < self0.graph.n());
            }
            assert forall|j: int| 0 <= j < self.pool.carriers@.len() implies (
            #[trigger] self.pool.carriers@[j]).valid(self.graph.n()) by {
                assert(self0.pool.carriers@[j].valid(self0.graph.n()));
                assert(self.pool.carriers@[j].src == self0.pool.carriers@[j].src
                    && self.pool.carriers@[j].dest == self0.pool.carriers@[j].dest);
            }
        }
    }

    /// Tick phases four and five: apply every carrier's numeric step, hop
    /// the carriers whose progress reached one half, and count the
    /// traversals on the edges just hopped.
    pub fn advance_carriers(&mut self, inputs: &Vec<StepInput>)
        requires
            old(self).wf(),
            inputs@.len() == old(self).pool.carriers@.len(),
        ensures
            final(self).wf(),
            final(self).graph.n() == old(self).graph.n(),
            final(self).graph.node_positions == old(self).graph.node_positions,
            final(self).graph.neighbors == old(self).graph.neighbors,
            final(self).view == old(self).view,
            final(self).pool.carriers@.len() == old(self).pool.carriers@.len(),
            forall|x: int, y: int|
                has_edge(final(self).graph.edges@, x, y) <==> has_edge(
                    old(self).graph.edges@,
                    x,
                    y,
                ),
            forall|x: int, y: int|
                has_edge(old(self).graph.edges@, x, y) ==> edge_at(
                    final(self).graph.edges@,
                    x,
                    y,
                ).synthetic == edge_at(old(self).graph.edges@, x, y).synthetic && edge_at(
                    final(self).graph.edges@,
                    x,
                    y,
                ).hop_count >= edge_at(old(self).graph.edges@, x, y).hop_count && (edge_at(
                    final(self).graph.edges@,
                    x,
                    y,
                ).hop_count as int) <= (edge_at(old(self).graph.edges@, x, y).hop_count as int) + 2
                    * (old(self).pool.carriers@.len() as int),
            forall|i: int|
                0 <= i < old(self).pool.carriers@.len() ==> {
                    let c0 = old(self).pool.carriers@[i];
                    let inp = inputs@[i];
                    let c1 = #[trigger] final(self).pool.carriers@[i];
                    if !crate::carrier::hop_ready(inp.progress_bits) || old(self).graph.nb(
                        c0.dest as int,
                    ).len() == 0 {
                        c1 == (Carrier {
                            pos: inp.pos,
                            progress_bits: inp.progress_bits,
                            ..c0
                        })
                    } else {
                        c1.src == c0.dest && c1.pos == c0.dest_pos && c1.progress_bits == 0 && old(
                            self,
                        ).graph.nb(c0.dest as int).contains(c1.dest) && c1.dest_pos == old(
                            self,
                        ).graph.node_positions@[c1.dest as int] && c1.color == c0.color
                    }
                },
    {
        self.pool.advance(&mut self.graph, inputs);
    }
}

} // verus!
