//! What is done to a frame state and to a pin count.
use std::sync::atomic::Ordering;

use vstd::prelude::*;

use crate::frame::{
    count_after, frame_state_tag, frame_state_tag_round_trip, is_load_ordering, is_store_ordering,
    AtomicFrameState, CountStep, FrameCoreHeader, FrameState, PaddedAtomicU32,
};
use crate::tag_cell;
use crate::tag_cell::{byte_after, ByteStep};

verus! {

/// The state that an exchange found.
pub open spec fn state_found(r: Result<FrameState, FrameState>) -> FrameState {
    match r {
        Ok(state) => state,
        Err(state) => state,
    }
}

/// A step was done to the byte of a state that turns the state `from` into `to`.
pub open spec fn state_moved(
    state: &AtomicFrameState,
    from: FrameState,
    to: FrameState,
    order: Ordering,
    failure: Ordering,
) -> bool {
    exists|step: ByteStep| #[trigger]
        state.byte_was_done(step, order, failure) && byte_after(step, frame_state_tag(from))
            == Some(frame_state_tag(to))
}

/// A step was done to the byte of a state that comes out only where the state is
/// `held`, and leaves it.
pub open spec fn state_seen(
    state: &AtomicFrameState,
    held: FrameState,
    order: Ordering,
) -> bool {
    exists|step: ByteStep| #[trigger]
        state.byte_was_done(step, order, order) && forall|byte: u8| #[trigger]
            byte_after(step, byte) is Some ==> byte == frame_state_tag(held) && byte_after(
                step,
                byte,
            ) == Some(byte)
}

/// A step was done to the byte of a state that makes it `to`, whatever it was.
pub open spec fn state_set(state: &AtomicFrameState, to: FrameState, order: Ordering) -> bool {
    exists|step: ByteStep| #[trigger]
        state.byte_was_done(step, order, order) && forall|byte: u8| #[trigger]
            byte_after(step, byte) == Some(frame_state_tag(to))
}

/// An exchange succeeds exactly where it finds the expected state, and then the state
/// is the new one; or else the state stays as it was found.
pub proof fn exchange_moves_the_state(
    state: &AtomicFrameState,
    expected: FrameState,
    new: FrameState,
    success: Ordering,
    failure: Ordering,
    r: Result<FrameState, FrameState>,
)
    requires
        is_load_ordering(failure),
        call_ensures(
            AtomicFrameState::compare_exchange,
            (state, expected, new, success, failure),
            r,
        ),
    ensures
        r is Ok <==> state_found(r) == expected,
        r is Ok ==> state_moved(state, expected, new, success, failure),
        r is Err ==> state_moved(state, state_found(r), state_found(r), success, failure),
{
    let step = crate::frame::byte_step(
        crate::frame::StateStep::Exchange { expected, new, outcome: r },
    );
    assert(state.byte_was_done(step, success, failure));
    frame_state_tag_round_trip(expected, 0);
    frame_state_tag_round_trip(state_found(r), 0);
    assert(byte_after(step, frame_state_tag(state_found(r))) == Some(
        frame_state_tag(
            if r is Ok {
                new
            } else {
                state_found(r)
            },
        ),
    ));
}

/// A load gives the state that the cell holds, and leaves it.
pub proof fn load_gives_the_state(state: &AtomicFrameState, order: Ordering, r: FrameState)
    requires
        is_load_ordering(order),
        call_ensures(AtomicFrameState::load, (state, order), r),
    ensures
        state_seen(state, r, order),
{
    let step = crate::frame::byte_step(crate::frame::StateStep::Load(r));
    assert(state.byte_was_done(step, order, order));
}

/// A store makes the state what is stored, whatever it was.
pub proof fn store_sets_the_state(state: &AtomicFrameState, new: FrameState, order: Ordering)
    requires
        is_store_ordering(order),
        call_ensures(AtomicFrameState::store, (state, new, order), ()),
    ensures
        state_set(state, new, order),
{
    let step = crate::frame::byte_step(crate::frame::StateStep::Store(new));
    assert(state.byte_was_done(step, order, order));
}

/// The steps of two calls one after the other, with no write between: after an
/// exchange that succeeded, or after a store, a load that comes out gives the new
/// state.
pub proof fn what_was_written_is_read(
    state: &AtomicFrameState,
    expected: FrameState,
    new: FrameState,
    success: Ordering,
    failure: Ordering,
    order: Ordering,
    seen: FrameState,
)
    requires
        is_load_ordering(failure),
        is_load_ordering(order),
        call_ensures(
            AtomicFrameState::compare_exchange,
            (state, expected, new, success, failure),
            Ok(expected),
        ),
        call_ensures(AtomicFrameState::load, (state, order), seen),
    ensures
        exists|first: ByteStep, second: ByteStep|
            {
                &&& #[trigger] state.byte_was_done(first, success, failure)
                &&& #[trigger] state.byte_was_done(second, order, order)
                &&& match byte_after(first, frame_state_tag(expected)) {
                    Some(byte) => byte_after(second, byte) is Some ==> seen == new,
                    None => false,
                }
            },
{
    exchange_moves_the_state(state, expected, new, success, failure, Ok(expected));
    load_gives_the_state(state, order, seen);
    let first = choose|step: ByteStep| #[trigger]
        state.byte_was_done(step, success, failure) && byte_after(step, frame_state_tag(expected))
            == Some(frame_state_tag(new));
    let second = choose|step: ByteStep| #[trigger]
        state.byte_was_done(step, order, order) && forall|byte: u8| #[trigger]
            byte_after(step, byte) is Some ==> byte == frame_state_tag(seen) && byte_after(
                step,
                byte,
            ) == Some(byte);
    frame_state_tag_round_trip(seen, 0);
    frame_state_tag_round_trip(new, 0);
    assert(state.byte_was_done(first, success, failure) && state.byte_was_done(
        second,
        order,
        order,
    ));
}

/// The calls on a state reach its byte: with the tags of the states, and what comes
/// back are the states of the bytes.
pub(crate) proof fn calls_reach_the_byte(
    state: &AtomicFrameState,
    expected: FrameState,
    new: FrameState,
    success: Ordering,
    failure: Ordering,
    r: Result<FrameState, FrameState>,
    order: Ordering,
    seen: FrameState,
)
    requires
        is_load_ordering(failure),
        is_load_ordering(order),
        call_ensures(
            AtomicFrameState::compare_exchange,
            (state, expected, new, success, failure),
            r,
        ),
        call_ensures(AtomicFrameState::load, (state, order), seen),
    ensures
        call_ensures(
            tag_cell::exchange_tag,
            (state.cell(), frame_state_tag(expected), frame_state_tag(new), success, failure),
            match r {
                Ok(s) => Ok(frame_state_tag(s)),
                Err(s) => Err(frame_state_tag(s)),
            },
        ),
        call_ensures(tag_cell::load_tag, (state.cell(), order), frame_state_tag(seen)),
{
    let outcome = match r {
        Ok(s) => Ok::<u8, u8>(frame_state_tag(s)),
        Err(s) => Err::<u8, u8>(frame_state_tag(s)),
    };
    state.byte_of_cell();
    tag_cell::steps_are_calls(
        state.cell(),
        frame_state_tag(expected),
        frame_state_tag(new),
        outcome,
        0,
        success,
        failure,
    );
    tag_cell::steps_are_calls(state.cell(), 0, 0, outcome, frame_state_tag(seen), order, order);
    assert(crate::frame::outcome_tags(r) == outcome);
}

/// A counter that was raised and lowered by the same is what it was; both give the
/// value before.
pub proof fn lowering_undoes_raising(
    counter: &PaddedAtomicU32,
    value: u32,
    order: Ordering,
    before: u32,
    between: u32,
)
    requires
        call_ensures(PaddedAtomicU32::fetch_add, (counter, value, order), before),
        call_ensures(PaddedAtomicU32::fetch_sub, (counter, value, order), between),
    ensures
        exists|up: CountStep, down: CountStep|
            {
                &&& #[trigger] counter.was_done(up, order, before)
                &&& #[trigger] counter.was_done(down, order, between)
                &&& count_after(up, before) == (before + value) % 0x1_0000_0000
                &&& count_after(down, count_after(up, before)) == before
            },
{
    let up = CountStep::Add(value);
    let down = CountStep::Subtract(value);
    assert(counter.was_done(up, order, before) && counter.was_done(down, order, between));
    if before + value > u32::MAX {
        assert((before + value) % 0x1_0000_0000 == before + value - 0x1_0000_0000);
    }
}

/// A free frame holds no page, is not pinned, and is in the free state.
pub proof fn free_frame_is_free(r: FrameCoreHeader)
    requires
        call_ensures(FrameCoreHeader::new_free, (), r),
    ensures
        r.pid == 0,
        r.pin_count.was_made(0),
        r.state.was_made(FrameState::Free),
{
}

} // verus!
