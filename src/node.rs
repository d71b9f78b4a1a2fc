//! Node identifiers and per-node state flags.
use vstd::prelude::*;

use crate::label::{decimal_digits, tagged_label};

verus! {

/// Stable node identifier: survives the removal of other nodes.
#[derive(Debug, Clone, Copy, PartialEq, Eq, Structural, Hash)]
pub struct NodeId(pub u32);

impl NodeId {
    /// Wraps a raw identifier.
    pub fn new(id: u32) -> (r: NodeId)
        ensures
            r.0 == id,
    {
        NodeId(id)
    }

    /// The raw identifier.
    pub fn raw(self) -> (r: u32)
        ensures
            r == self.0,
    {
        self.0
    }

    /// Human-readable form, `Node(<decimal id>)`.
    pub fn to_string(&self) -> (r: String)
        ensures
            r@ == seq!['N', 'o', 'd', 'e', '('] + decimal_digits(self.0 as nat) + seq![')'],
    {
        let r = tagged_label("Node", self.0);
        proof {
            reveal_strlit("Node");
        }
        r
    }
}

impl From<u32> for NodeId {
    fn from(id: u32) -> (r: NodeId) {
        NodeId(id)
    }
}

impl vstd::std_specs::convert::FromSpecImpl<u32> for NodeId {
    open spec fn obeys_from_spec() -> bool {
        true
    }

    open spec fn from_spec(id: u32) -> NodeId {
        NodeId(id)
    }
}

impl From<NodeId> for u32 {
    fn from(id: NodeId) -> (r: u32) {
        id.0
    }
}

impl vstd::std_specs::convert::FromSpecImpl<NodeId> for u32 {
    open spec fn obeys_from_spec() -> bool {
        true
    }

    open spec fn from_spec(id: NodeId) -> u32 {
        id.0
    }
}

pub const PINNED_BIT: u8 = 1;

pub const HIDDEN_BIT: u8 = 2;

pub const SELECTED_BIT: u8 = 4;

pub const HOVERED_BIT: u8 = 8;

/// Whether bit `mask` is set in `flags`.
pub open spec fn has_flag(flags: u8, mask: u8) -> bool {
    flags & mask != 0
}

/// Node state flags (pinned, hidden, selected, hovered) packed into one byte.
#[derive(Debug, Clone, Copy)]
pub struct NodeState {
    flags: u8,
}

impl NodeState {
    pub closed spec fn pinned(self) -> bool {
        has_flag(self.flags, PINNED_BIT)
    }

    pub closed spec fn hidden(self) -> bool {
        has_flag(self.flags, HIDDEN_BIT)
    }

    pub closed spec fn selected(self) -> bool {
        has_flag(self.flags, SELECTED_BIT)
    }

    pub closed spec fn hovered(self) -> bool {
        has_flag(self.flags, HOVERED_BIT)
    }

    /// The state with every flag cleared.
    pub fn new() -> (r: NodeState)
        ensures
            !r.pinned(),
            !r.hidden(),
            !r.selected(),
            !r.hovered(),
    {
        let r = NodeState { flags: 0 };
        assert(0u8 & 1u8 == 0 && 0u8 & 2u8 == 0 && 0u8 & 4u8 == 0 && 0u8 & 8u8 == 0)
            by (bit_vector);
        r
    }

    /// Whether the node is pinned (excluded from simulation).
    pub fn is_pinned(self) -> (r: bool)
        ensures
            r == self.pinned(),
    {
        self.flags & PINNED_BIT != 0
    }

    /// Whether the node is hidden.
    pub fn is_hidden(self) -> (r: bool)
        ensures
            r == self.hidden(),
    {
        self.flags & HIDDEN_BIT != 0
    }

    /// Whether the node is selected.
    pub fn is_selected(self) -> (r: bool)
        ensures
            r == self.selected(),
    {
        self.flags & SELECTED_BIT != 0
    }

    /// Whether the node is hovered.
    pub fn is_hovered(self) -> (r: bool)
        ensures
            r == self.hovered(),
    {
        self.flags & HOVERED_BIT != 0
    }

    /// Sets or clears the flag of `mask`, leaving every other flag as it was.
    fn write_flag(&mut self, mask: u8, on: bool)
        requires
            mask == PINNED_BIT || mask == HIDDEN_BIT || mask == SELECTED_BIT || mask
                == HOVERED_BIT,
        ensures
            has_flag(final(self).flags, mask) == on,
            forall|m: u8|
                m != mask && (m == PINNED_BIT || m == HIDDEN_BIT || m == SELECTED_BIT || m
                    == HOVERED_BIT) ==> #[trigger] has_flag(final(self).flags, m) == has_flag(
                    old(self).flags,
                    m,
                ),
    {
        let f = self.flags;
        if on {
            self.flags = f | mask;
            assert((f | mask) & mask != 0) by (bit_vector)
                requires
                    mask == 1u8 || mask == 2u8 || mask == 4u8 || mask == 8u8,
            ;
            assert(forall|m: u8|
                (m == 1u8 || m == 2u8 || m == 4u8 || m == 8u8) && (mask == 1u8 || mask == 2u8
                    || mask == 4u8 || mask == 8u8) && m != mask ==> (((f | mask) & m != 0) == (f
                    & m != 0))) by (bit_vector);
        } else {
            self.flags = f & !mask;
            assert((f & !mask) & mask == 0) by (bit_vector);
            assert(forall|m: u8|
                (m == 1u8 || m == 2u8 || m == 4u8 || m == 8u8) && (mask == 1u8 || mask == 2u8
                    || mask == 4u8 || mask == 8u8) && m != mask ==> (((f & !mask) & m != 0) == (f
                    & m != 0))) by (bit_vector);
        }
    }

    /// Sets the pinned flag; the other flags keep their values.
    pub fn set_pinned(&mut self, pinned: bool)
        ensures
            final(self).pinned() == pinned,
            final(self).hidden() == old(self).hidden(),
            final(self).selected() == old(self).selected(),
            final(self).hovered() == old(self).hovered(),
    {
        self.write_flag(PINNED_BIT, pinned);
        assert(has_flag(self.flags, HIDDEN_BIT) == has_flag(old(self).flags, HIDDEN_BIT));
        assert(has_flag(self.flags, SELECTED_BIT) == has_flag(old(self).flags, SELECTED_BIT));
        assert(has_flag(self.flags, HOVERED_BIT) == has_flag(old(self).flags, HOVERED_BIT));
    }

    /// Sets the hidden flag; the other flags keep their values.
    pub fn set_hidden(&mut self, hidden: bool)
        ensures
            final(self).hidden() == hidden,
            final(self).pinned() == old(self).pinned(),
            final(self).selected() == old(self).selected(),
            final(self).hovered() == old(self).hovered(),
    {
        self.write_flag(HIDDEN_BIT, hidden);
        assert(has_flag(self.flags, PINNED_BIT) == has_flag(old(self).flags, PINNED_BIT));
        assert(has_flag(self.flags, SELECTED_BIT) == has_flag(old(self).flags, SELECTED_BIT));
        assert(has_flag(self.flags, HOVERED_BIT) == has_flag(old(self).flags, HOVERED_BIT));
    }

    /// Sets the selected flag; the other flags keep their values.
    pub fn set_selected(&mut self, selected: bool)
        ensures
            final(self).selected() == selected,
            final(self).pinned() == old(self).pinned(),
            final(self).hidden() == old(self).hidden(),
            final(self).hovered() == old(self).hovered(),
    {
        self.write_flag(SELECTED_BIT, selected);
        assert(has_flag(self.flags, PINNED_BIT) == has_flag(old(self).flags, PINNED_BIT));
        assert(has_flag(self.flags, HIDDEN_BIT) == has_flag(old(self).flags, HIDDEN_BIT));
        assert(has_flag(self.flags, HOVERED_BIT) == has_flag(old(self).flags, HOVERED_BIT));
    }

    /// Sets the hovered flag; the other flags keep their values.
    pub fn set_hovered(&mut self, hovered: bool)
        ensures
            final(self).hovered() == hovered,
            final(self).pinned() == old(self).pinned(),
            final(self).hidden() == old(self).hidden(),
            final(self).selected() == old(self).selected(),
    {
        self.write_flag(HOVERED_BIT, hovered);
        assert(has_flag(self.flags, PINNED_BIT) == has_flag(old(self).flags, PINNED_BIT));
        assert(has_flag(self.flags, HIDDEN_BIT) == has_flag(old(self).flags, HIDDEN_BIT));
        assert(has_flag(self.flags, SELECTED_BIT) == has_flag(old(self).flags, SELECTED_BIT));
    }
}

impl Default for NodeState {
    /// The state with every flag cleared.
    fn default() -> (r: NodeState)
        ensures
            !r.pinned(),
            !r.hidden(),
            !r.selected(),
            !r.hovered(),
    {
        NodeState::new()
    }
}

} // verus!
