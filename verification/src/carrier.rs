//! A single traveling agent and its hop state machine.
//!
//! A carrier interpolates from its source node toward its destination
//! node; the interpolated position and the progress value are
//! single-precision numbers carried as bit patterns, updated by the
//! caller's numeric step and applied through `CarrierPool::advance`.

use vstd::prelude::*;
use crate::Point3Bits;
use crate::graph::GraphStore;
use crate::rng::random_index;

verus! {

/// The bit pattern of one half in single precision. Progress is never
/// negative, and for non-negative single-precision values the numeric
/// order agrees with the order of the bit patterns, so comparing bit
/// patterns against this constant is exactly the `>= 0.5` hop test.
pub const HALF_BITS: u32 = 0x3F00_0000;

/// True when a progress value has reached the hop threshold of one half.
pub open spec fn hop_ready(progress_bits: u32) -> bool {
    progress_bits >= HALF_BITS
}

/// The hop test as executable code.
pub fn is_hop_ready(progress_bits: u32) -> (r: bool)
    ensures
        r == hop_ready(progress_bits),
{
    progress_bits >= HALF_BITS
}

/// A traveling agent.
#[derive(Clone, Copy, Debug)]
pub struct Carrier {
    /// Interpolated position, as coordinate bit patterns.
    pub pos: Point3Bits,
    /// The destination node's position, cached at hop time.
    pub dest_pos: Point3Bits,
    pub src: usize,
    pub dest: usize,
    /// Progress along the segment, as a bit pattern; zero is exactly 0.0.
    pub progress_bits: u32,
    /// Fixed visual color tag, three channel bit patterns.
    pub color: (u32, u32, u32),
}

impl Carrier {
    /// Both endpoints name nodes of a graph with `n` nodes.
    pub open spec fn valid(self, n: int) -> bool {
        (self.src as int) < n && (self.dest as int) < n
    }

    /// Spawn at node `src`, heading for the `choice`-th of its neighbors.
    pub fn spawn_at(graph: &GraphStore, src: usize, choice: usize, color: (u32, u32, u32)) -> (c:
        Carrier)
        requires
            graph.wf(),
            (src as int) < graph.n(),
            (choice as int) < graph.nb(src as int).len(),
        ensures
            c.valid(graph.n()),
            c.src == src,
            c.dest == graph.nb(src as int)[choice as int],
            c.pos == graph.node_positions@[src as int],
            c.dest_pos == graph.node_positions@[c.dest as int],
            c.progress_bits == 0,
            c.color == color,
    {
        let dest = graph.neighbor_at(src, choice);
        Carrier {
            pos: graph.node_position(src),
            dest_pos: graph.node_position(dest),
            src,
            dest,
            progress_bits: 0,
            color,
        }
    }

    /// Spawn at a uniformly random node, heading for a uniformly random
    /// neighbor of it. Isolated nodes must have been ruled out at load
    /// time.
    pub fn spawn_random(graph: &GraphStore, color: (u32, u32, u32)) -> (c: Carrier)
        requires
            graph.wf(),
            graph.n() > 0,
            forall|i: int| 0 <= i < graph.n() ==> graph.nb(i).len() > 0,
        ensures
            c.valid(graph.n()),
            graph.nb(c.src as int).contains(c.dest),
            c.pos == graph.node_positions@[c.src as int],
            c.dest_pos == graph.node_positions@[c.dest as int],
            c.progress_bits == 0,
            c.color == color,
    {
        let src = random_index(graph.node_count());
        let choice = random_index(graph.neighbor_count(src));
        let c = Self::spawn_at(graph, src, choice, color);
        proof {
            assert(graph.nb(c.src as int)[choice as int] == c.dest);
        }
        c
    }

    /// Hop toward the `choice`-th neighbor of the node just reached: the
    /// old destination becomes the source, the position snaps exactly to
    /// the old destination's cached position, and progress resets to
    /// exactly zero.
    pub fn hop_to(&mut self, graph: &GraphStore, choice: usize)
        requires
            graph.wf(),
            old(self).valid(graph.n()),
            (choice as int) < graph.nb(old(self).dest as int).len(),
        ensures
            final(self).valid(graph.n()),
            final(self).src == old(self).dest,
            final(self).pos == old(self).dest_pos,
            final(self).progress_bits == 0,
            final(self).dest == graph.nb(old(self).dest as int)[choice as int],
            final(self).dest_pos == graph.node_positions@[final(self).dest as int],
            final(self).color == old(self).color,
    {
        let dest = graph.neighbor_at(self.dest, choice);
        self.src = self.dest;
        self.pos = self.dest_pos;
        self.dest = dest;
        self.dest_pos = graph.node_position(dest);
        self.progress_bits = 0;
    }

    /// Hop to a uniformly random neighbor of the node just reached, or do
    /// nothing at all when that node has no neighbors; the carrier then
    /// keeps interpolating past its nominal target. Returns whether the
    /// hop happened.
    pub fn hop(&mut self, graph: &GraphStore) -> (hopped: bool)
        requires
            graph.wf(),
            old(self).valid(graph.n()),
        ensures
            hopped == (graph.nb(old(self).dest as int).len() > 0),
            !hopped ==> *final(self) == *old(self),
            hopped ==> final(self).valid(graph.n()),
            hopped ==> final(self).src == old(self).dest,
            hopped ==> final(self).pos == old(self).dest_pos,
            hopped ==> final(self).progress_bits == 0,
            hopped ==> graph.nb(old(self).dest as int).contains(final(self).dest),
            hopped ==> final(self).dest_pos == graph.node_positions@[final(self).dest as int],
            hopped ==> final(self).color == old(self).color,
    {
        let options = graph.neighbor_count(self.dest);
        if options == 0 {
            false
        } else {
            let choice = random_index(options);
            self.hop_to(graph, choice);
            true
        }
    }
}

} // verus!
