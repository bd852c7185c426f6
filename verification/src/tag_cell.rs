//! An atomic byte that only ever holds the tag of a frame state: it is made with a
//! tag, and every write of it is one.
use std::sync::atomic::{AtomicU8, Ordering};

use vstd::prelude::*;

use crate::calls::{call1, call2, call3, call5};
use crate::frame::{is_load_ordering, is_store_ordering};

verus! {

/// The byte is the tag of a frame state.
pub open spec fn is_tag(v: u8) -> bool {
    v <= 3
}

/// A tag in an atomic byte. The byte can be reached in this file only, where
/// nothing but a tag is written to it.
pub struct TagCell(AtomicU8);

/// What is done to a byte in one step.
pub enum ByteStep {
    /// It is read as a byte.
    Load(u8),
    /// A byte is written to it.
    Store(u8),
    /// It is replaced if it is the byte expected; with what that came to.
    Exchange { expected: u8, new: u8, outcome: Result<u8, u8> },
}

/// The byte that an exchange found.
pub open spec fn byte_found(outcome: Result<u8, u8>) -> u8 {
    match outcome {
        Ok(v) => v,
        Err(v) => v,
    }
}

/// The byte after a step, where it was `byte` before; `None` for a step that does not
/// come out so on this byte.
pub open spec fn byte_after(step: ByteStep, byte: u8) -> Option<u8> {
    match step {
        ByteStep::Load(v) => if v == byte {
            Some(byte)
        } else {
            None
        },
        ByteStep::Store(v) => Some(v),
        ByteStep::Exchange { expected, new, outcome } => if outcome == Ok::<u8, u8>(byte)
            && byte == expected {
            Some(new)
        } else if outcome == Err::<u8, u8>(byte) && byte != expected {
            Some(byte)
        } else {
            None
        },
    }
}

/// The cell was made with this byte.
pub closed spec fn was_made(cell: TagCell, tag: u8) -> bool {
    call_ensures(AtomicU8::new, (tag,), cell.0)
}

/// The step was done to the byte of the cell, with these orderings. A load and a
/// store have one.
pub closed spec fn was_done(
    cell: &TagCell,
    step: ByteStep,
    order: Ordering,
    failure: Ordering,
) -> bool {
    match step {
        ByteStep::Load(v) => call_ensures(load_tag, (cell, order), v),
        ByteStep::Store(v) => call_ensures(AtomicU8::store, (&cell.0, v, order), ()),
        ByteStep::Exchange { expected, new, outcome } => call_ensures(
            exchange_tag,
            (cell, expected, new, order, failure),
            outcome,
        ),
    }
}

/// A cell that holds `tag`.
pub fn new_cell(tag: u8) -> (r: TagCell)
    requires
        is_tag(tag),
    ensures
        was_made(r, tag),
{
    TagCell(call1(AtomicU8::new, tag))
}

/// Write `tag` to the cell.
pub fn store_tag(cell: &TagCell, tag: u8, order: Ordering)
    requires
        is_tag(tag),
        is_store_ordering(order),
    ensures
        was_done(cell, ByteStep::Store(tag), order, order),
{
    call3(AtomicU8::store, &cell.0, tag, order);
}

/// Read the tag of the cell.
pub fn read_tag(cell: &TagCell, order: Ordering) -> (r: u8)
    requires
        is_load_ordering(order),
    ensures
        is_tag(r),
        was_done(cell, ByteStep::Load(r), order, order),
{
    call2(load_tag, cell, order)
}

/// Replace the tag of the cell in one step.
pub fn replace_tag(
    cell: &TagCell,
    expected: u8,
    new: u8,
    success: Ordering,
    failure: Ordering,
) -> (r: Result<u8, u8>)
    requires
        is_tag(expected),
        is_tag(new),
        is_load_ordering(failure),
    ensures
        r matches Ok(v) ==> v == expected,
        r matches Err(v) ==> v != expected && is_tag(v),
        was_done(cell, ByteStep::Exchange { expected, new, outcome: r }, success, failure),
{
    call5(exchange_tag, cell, expected, new, success, failure)
}

/// Reads the byte with `AtomicU8::load`, which gives a byte that was written to the
/// cell. It is claimed that this is a tag: [`new_cell`], [`store_tag`] and
/// [`exchange_tag`] write no other byte. Which of them is read depends on the other
/// threads. The call panics on an ordering that no load accepts.
#[verifier::external_body]
pub(crate) fn load_tag(cell: &TagCell, order: Ordering) -> (r: u8)
    requires
        is_load_ordering(order),
    ensures
        is_tag(r),
{
    cell.0.load(order)
}

/// Replaces the byte in one step with `AtomicU8::compare_exchange`. It is claimed
/// that a success gives back the byte that was expected, and a failure the byte
/// that was there, which is another, and a tag as in [`load_tag`]; which of the two
/// comes depends on the other threads. The call panics on a failure ordering that no
/// load accepts.
#[verifier::external_body]
pub(crate) fn exchange_tag(
    cell: &TagCell,
    expected: u8,
    new: u8,
    success: Ordering,
    failure: Ordering,
) -> (r: Result<u8, u8>)
    requires
        is_tag(expected),
        is_tag(new),
        is_load_ordering(failure),
    ensures
        r matches Ok(v) ==> v == expected,
        r matches Err(v) ==> v != expected && is_tag(v),
{
    cell.0.compare_exchange(expected, new, success, failure)
}

impl TagCell {
    /// The byte of the cell.
    pub closed spec fn byte(&self) -> &AtomicU8 {
        &self.0
    }
}

/// A step is done to a byte by the one call that does it, with the bytes of the step.
pub(crate) proof fn steps_are_calls(
    cell: &TagCell,
    expected: u8,
    new: u8,
    outcome: Result<u8, u8>,
    v: u8,
    order: Ordering,
    failure: Ordering,
)
    ensures
        was_done(cell, ByteStep::Load(v), order, failure) == call_ensures(
            load_tag,
            (cell, order),
            v,
        ),
        was_done(cell, ByteStep::Store(v), order, failure) == call_ensures(
            AtomicU8::store,
            (cell.byte(), v, order),
            (),
        ),
        was_done(cell, ByteStep::Exchange { expected, new, outcome }, order, failure)
            == call_ensures(exchange_tag, (cell, expected, new, order, failure), outcome),
{
}

} // verus!
