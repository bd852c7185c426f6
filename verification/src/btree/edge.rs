//! Edges from an inner page to its children: a slot, or the upper edge behind
//! all slots.
use vstd::prelude::*;

verus! {

#[derive(Clone, Copy, Debug, PartialEq, Eq, Structural)]
pub enum ParentEdge {
    Slot(u16),
    Upper,
}

/// Where an edge stands in a page with `count` slots.
pub open spec fn edge_pos(edge: ParentEdge, count: u16) -> u16 {
    match edge {
        ParentEdge::Slot(pos) => pos,
        ParentEdge::Upper => count,
    }
}

/// The edge at a position of a page with `count` slots.
pub open spec fn edge_at(pos: u16, count: u16) -> ParentEdge {
    if pos == count {
        ParentEdge::Upper
    } else {
        ParentEdge::Slot(pos)
    }
}

pub fn parent_edge_is_upper(edge: ParentEdge) -> (r: bool)
    ensures
        r == (edge is Upper),
{
    match edge {
        ParentEdge::Upper => true,
        ParentEdge::Slot(_) => false,
    }
}

pub fn parent_edge_pos(edge: ParentEdge, count: u16) -> (r: u16)
    ensures
        r == edge_pos(edge, count),
{
    match edge {
        ParentEdge::Slot(pos) => pos,
        ParentEdge::Upper => count,
    }
}

pub fn parent_edge_from_pos(pos: u16, count: u16) -> (r: ParentEdge)
    ensures
        r == edge_at(pos, count),
{
    if pos == count {
        ParentEdge::Upper
    } else {
        ParentEdge::Slot(pos)
    }
}

pub fn parent_edge_round_trip_pos(pos: u16, count: u16) -> (r: u16)
    ensures
        r == pos,
{
    parent_edge_pos(parent_edge_from_pos(pos, count), count)
}

impl ParentEdge {
    pub fn from_pos(pos: u16, count: u16) -> (r: Self)
        ensures
            r == edge_at(pos, count),
    {
        parent_edge_from_pos(pos, count)
    }

    pub fn pos(self, count: u16) -> (r: u16)
        ensures
            r == edge_pos(self, count),
    {
        parent_edge_pos(self, count)
    }

    pub fn is_upper(self) -> (r: bool)
        ensures
            r == (self is Upper),
    {
        parent_edge_is_upper(self)
    }
}

/// After a split of the child at `pos`, whether its right half hangs on the upper
/// edge.
pub fn split_right_parent_uses_upper(pos: u16, count: u16) -> (r: bool)
    ensures
        r == (pos >= count),
{
    pos >= count
}

/// Where the separator of a split of the child at `pos` goes.
pub fn split_separator_insert_pos(pos: u16, count: u16) -> (r: u16)
    ensures
        r == if pos < count {
            pos
        } else {
            count
        },
{
    if pos < count {
        pos
    } else {
        count
    }
}

/// A position is found again from its edge.
pub proof fn edge_round_trip(pos: u16, count: u16)
    ensures
        edge_pos(edge_at(pos, count), count) == pos,
{
}

/// An edge is found again from its position, if it is a slot of the page or the
/// upper edge.
pub proof fn position_round_trip(edge: ParentEdge, count: u16)
    requires
        edge matches ParentEdge::Slot(pos) ==> pos < count,
    ensures
        edge_at(edge_pos(edge, count), count) == edge,
{
}

} // verus!
