//! Edge identifiers and per-edge state flags.
use vstd::prelude::*;

use crate::label::{decimal_digits, tagged_label};
use crate::node::has_flag;

verus! {

/// Stable edge identifier: survives the removal of other edges.
#[derive(Debug, Clone, Copy, PartialEq, Eq, Structural, Hash)]
pub struct EdgeId(pub u32);

impl EdgeId {
    pub open spec fn raw_spec(self) -> u32 {
        self.0
    }

    /// Wraps a raw identifier.
    pub fn new(id: u32) -> (r: EdgeId)
        ensures
            r.0 == id,
    {
        EdgeId(id)
    }

    /// The raw identifier.
    pub fn raw(self) -> (r: u32)
        ensures
            r == self.0,
    {
        self.0
    }

    /// Human-readable form, `Edge(<decimal id>)`.
    pub fn to_string(&self) -> (r: String)
        ensures
            r@ == seq!['E', 'd', 'g', 'e', '('] + decimal_digits(self.0 as nat) + seq![')'],
    {
        let r = tagged_label("Edge", self.0);
        proof {
            reveal_strlit("Edge");
        }
        r
    }
}

impl From<u32> for EdgeId {
    fn from(id: u32) -> (r: EdgeId) {
        EdgeId(id)
    }
}

impl vstd::std_specs::convert::FromSpecImpl<u32> for EdgeId {
    open spec fn obeys_from_spec() -> bool {
        true
    }

    open spec fn from_spec(id: u32) -> EdgeId {
        EdgeId(id)
    }
}

impl From<EdgeId> for u32 {
    fn from(id: EdgeId) -> (r: u32) {
        id.0
    }
}

impl vstd::std_specs::convert::FromSpecImpl<EdgeId> for u32 {
    open spec fn obeys_from_spec() -> bool {
        true
    }

    open spec fn from_spec(id: EdgeId) -> u32 {
        id.0
    }
}

pub const EDGE_HIDDEN_BIT: u8 = 1;

pub const EDGE_SELECTED_BIT: u8 = 2;

pub const EDGE_HOVERED_BIT: u8 = 4;

/// Edge state flags (hidden, selected, hovered) packed into one byte.
#[derive(Debug, Clone, Copy)]
pub struct EdgeState {
    flags: u8,
}

impl EdgeState {
    pub closed spec fn hidden(self) -> bool {
        has_flag(self.flags, EDGE_HIDDEN_BIT)
    }

    pub closed spec fn selected(self) -> bool {
        has_flag(self.flags, EDGE_SELECTED_BIT)
    }

    pub closed spec fn hovered(self) -> bool {
        has_flag(self.flags, EDGE_HOVERED_BIT)
    }

    /// The state with every flag cleared.
    pub fn new() -> (r: EdgeState)
        ensures
            !r.hidden(),
            !r.selected(),
            !r.hovered(),
    {
        let r = EdgeState { flags: 0 };
        assert(0u8 & 1u8 == 0 && 0u8 & 2u8 == 0 && 0u8 & 4u8 == 0) by (bit_vector);
        r
    }

    /// Whether the edge is hidden.
    pub fn is_hidden(self) -> (r: bool)
        ensures
            r == self.hidden(),
    {
        self.flags & EDGE_HIDDEN_BIT != 0
    }

    /// Whether the edge is selected.
    pub fn is_selected(self) -> (r: bool)
        ensures
            r == self.selected(),
    {
        self.flags & EDGE_SELECTED_BIT != 0
    }

    /// Whether the edge is hovered.
    pub fn is_hovered(self) -> (r: bool)
        ensures
            r == self.hovered(),
    {
        self.flags & EDGE_HOVERED_BIT != 0
    }

    /// Sets or clears the flag of `mask`, leaving every other flag as it was.
    fn write_flag(&mut self, mask: u8, on: bool)
        requires
            mask == EDGE_HIDDEN_BIT || mask == EDGE_SELECTED_BIT || mask == EDGE_HOVERED_BIT,
        ensures
            has_flag(final(self).flags, mask) == on,
            forall|m: u8|
                m != mask && (m == EDGE_HIDDEN_BIT || m == EDGE_SELECTED_BIT || m
                    == EDGE_HOVERED_BIT) ==> #[trigger] has_flag(final(self).flags, m)
                    == has_flag(old(self).flags, m),
    {
        let f = self.flags;
        if on {
            self.flags = f | mask;
            assert((f | mask) & mask != 0) by (bit_vector)
                requires
                    mask == 1u8 || mask == 2u8 || mask == 4u8,
            ;
            assert(forall|m: u8|
                (m == 1u8 || m == 2u8 || m == 4u8) && (mask == 1u8 || mask == 2u8 || mask == 4u8)
                    && m != mask ==> (((f | mask) & m != 0) == (f & m != 0))) by (bit_vector);
        } else {
            self.flags = f & !mask;
            assert((f & !mask) & mask == 0) by (bit_vector);
            assert(forall|m: u8|
                (m == 1u8 || m == 2u8 || m == 4u8) && (mask == 1u8 || mask == 2u8 || mask == 4u8)
                    && m != mask ==> (((f & !mask) & m != 0) == (f & m != 0))) by (bit_vector);
        }
    }

    /// Sets the hidden flag; the other flags keep their values.
    pub fn set_hidden(&mut self, hidden: bool)
        ensures
            final(self).hidden() == hidden,
            final(self).selected() == old(self).selected(),
            final(self).hovered() == old(self).hovered(),
    {
        self.write_flag(EDGE_HIDDEN_BIT, hidden);
        assert(has_flag(self.flags, EDGE_SELECTED_BIT) == has_flag(old(self).flags, EDGE_SELECTED_BIT));
        assert(has_flag(self.flags, EDGE_HOVERED_BIT) == has_flag(old(self).flags, EDGE_HOVERED_BIT));
    }

    /// Sets the selected flag; the other flags keep their values.
    pub fn set_selected(&mut self, selected: bool)
        ensures
            final(self).selected() == selected,
            final(self).hidden() == old(self).hidden(),
            final(self).hovered() == old(self).hovered(),
    {
        self.write_flag(EDGE_SELECTED_BIT, selected);
        assert(has_flag(self.flags, EDGE_HIDDEN_BIT) == has_flag(old(self).flags, EDGE_HIDDEN_BIT));
        assert(has_flag(self.flags, EDGE_HOVERED_BIT) == has_flag(old(self).flags, EDGE_HOVERED_BIT));
    }

    /// Sets the hovered flag; the other flags keep their values.
    pub fn set_hovered(&mut self, hovered: bool)
        ensures
            final(self).hovered() == hovered,
            final(self).hidden() == old(self).hidden(),
            final(self).selected() == old(self).selected(),
    {
        self.write_flag(EDGE_HOVERED_BIT, hovered);
        assert(has_flag(self.flags, EDGE_HIDDEN_BIT) == has_flag(old(self).flags, EDGE_HIDDEN_BIT));
        assert(has_flag(self.flags, EDGE_SELECTED_BIT) == has_flag(old(self).flags, EDGE_SELECTED_BIT));
    }
}

impl Default for EdgeState {
    /// The state with every flag cleared.
    fn default() -> (r: EdgeState)
        ensures
            !r.hidden(),
            !r.selected(),
            !r.hovered(),
    {
        EdgeState::new()
    }
}

} // verus!
