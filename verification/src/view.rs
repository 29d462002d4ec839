//! Drag-rotation state derived from pointer input.
//!
//! Angles and screen coordinates are single-precision bit patterns; the
//! scaling of pointer deltas into angles is numeric work done by the
//! caller, while the dragging state machine and the per-tick choice
//! between the drag rotation and the idle rotation live here.

use vstd::prelude::*;

verus! {

/// The bit pattern of positive zero, which is also progress zero.
pub const ZERO_BITS: u32 = 0;

/// Pointer-drag state and the pending rotation delta.
#[derive(Clone, Copy, Debug)]
pub struct ViewState {
    pub dragging: bool,
    /// Pending rotation delta, a pair of angles (around x, around y).
    pub delta_bits: (u32, u32),
    /// Last seen pointer position.
    pub last_bits: (u32, u32),
}

impl ViewState {
    /// The initial state: not dragging, no pending delta, pointer at the
    /// origin.
    pub fn new() -> (v: ViewState)
        ensures
            !v.dragging,
            v.delta_bits == (ZERO_BITS, ZERO_BITS),
            v.last_bits == (ZERO_BITS, ZERO_BITS),
    {
        ViewState {
            dragging: false,
            delta_bits: (ZERO_BITS, ZERO_BITS),
            last_bits: (ZERO_BITS, ZERO_BITS),
        }
    }

    /// Pointer-down: dragging starts; the delta and last position stand.
    pub fn pointer_pressed(&mut self)
        ensures
            final(self).dragging,
            final(self).delta_bits == old(self).delta_bits,
            final(self).last_bits == old(self).last_bits,
    {
        self.dragging = true;
    }

    /// Pointer-up: dragging ends; the delta and last position stand.
    pub fn pointer_released(&mut self)
        ensures
            !final(self).dragging,
            final(self).delta_bits == old(self).delta_bits,
            final(self).last_bits == old(self).last_bits,
    {
        self.dragging = false;
    }

    /// Pointer-move: the last position is always recorded; while dragging,
    /// the caller's scaled delta (pointer movement times sensitivity, with
    /// the vertical axis sign inverted) becomes the pending rotation.
    pub fn pointer_moved(&mut self, pos_bits: (u32, u32), scaled_delta_bits: (u32, u32))
        ensures
            final(self).dragging == old(self).dragging,
            final(self).last_bits == pos_bits,
            old(self).dragging ==> final(self).delta_bits == scaled_delta_bits,
            !old(self).dragging ==> final(self).delta_bits == old(self).delta_bits,
    {
        if self.dragging {
            self.delta_bits = scaled_delta_bits;
        }
        self.last_bits = pos_bits;
    }

    /// The Euler angles (around x, around y, around z) to rotate the whole
    /// scene by this tick: the pending drag delta while dragging, else a
    /// constant idle rotation around the y axis.
    pub fn rotation_for_tick(&self, idle_y_bits: u32) -> (r: (u32, u32, u32))
        ensures
            self.dragging ==> r == (self.delta_bits.0, self.delta_bits.1, ZERO_BITS),
            !self.dragging ==> r == (ZERO_BITS, idle_y_bits, ZERO_BITS),
    {
        if self.dragging {
            (self.delta_bits.0, self.delta_bits.1, ZERO_BITS)
        } else {
            (ZERO_BITS, idle_y_bits, ZERO_BITS)
        }
    }
}

} // verus!
