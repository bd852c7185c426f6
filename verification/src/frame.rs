//! Buffer-frame headers: the lifecycle state of a frame and its atomic fields.
use std::sync::atomic::{AtomicBool, AtomicU32, AtomicU64, Ordering};

use vstd::prelude::*;

use crate::calls::{call1, call2, call3};
use crate::page_id::PageId;
use crate::tag_cell;
use crate::tag_cell::{ByteStep, TagCell};

verus! {

/// Lifecycle state of a frame.
#[derive(Debug, Clone, Copy, PartialEq, Eq, Structural)]
pub enum FrameState {
    Free,
    Loading,
    Resident,
    Evicting,
}

/// The byte that stands for a state in an atomic cell.
pub open spec fn frame_state_tag(state: FrameState) -> u8 {
    match state {
        FrameState::Free => 0,
        FrameState::Loading => 1,
        FrameState::Resident => 2,
        FrameState::Evicting => 3,
    }
}

/// The state a byte stands for, if any.
pub open spec fn frame_state_of_tag(v: u8) -> Option<FrameState> {
    if v == 0 {
        Some(FrameState::Free)
    } else if v == 1 {
        Some(FrameState::Loading)
    } else if v == 2 {
        Some(FrameState::Resident)
    } else if v == 3 {
        Some(FrameState::Evicting)
    } else {
        None
    }
}

pub fn is_valid_frame_state_tag(v: u8) -> (r: bool)
    ensures
        r == (frame_state_of_tag(v) is Some),
        r == (v <= 3),
{
    v == 0 || v == 1 || v == 2 || v == 3
}

impl FrameState {
    /// The byte that stands for this state.
    pub fn tag(self) -> (r: u8)
        ensures
            r == frame_state_tag(self),
    {
        match self {
            FrameState::Free => 0,
            FrameState::Loading => 1,
            FrameState::Resident => 2,
            FrameState::Evicting => 3,
        }
    }

    /// The state that `v` stands for. Only the four tags have one.
    pub fn from_u8(v: u8) -> (r: Self)
        requires
            frame_state_of_tag(v) is Some,
        ensures
            frame_state_of_tag(v) == Some(r),
    {
        if v == 0 {
            FrameState::Free
        } else if v == 1 {
            FrameState::Loading
        } else if v == 2 {
            FrameState::Resident
        } else {
            FrameState::Evicting
        }
    }
}

/// A state and its tag determine each other.
pub proof fn frame_state_tag_round_trip(state: FrameState, v: u8)
    ensures
        frame_state_of_tag(frame_state_tag(state)) == Some(state),
        frame_state_of_tag(v) matches Some(s) ==> frame_state_tag(s) == v,
{
}

/// Orderings that an atomic load accepts.
pub open spec fn is_load_ordering(order: Ordering) -> bool {
    order is Relaxed || order is Acquire || order is SeqCst
}

/// Orderings that an atomic store accepts.
pub open spec fn is_store_ordering(order: Ordering) -> bool {
    order is Relaxed || order is Release || order is SeqCst
}

/// A frame state in an atomic byte.
pub struct AtomicFrameState(TagCell);

/// What an atomic exchange of tags came to, as states.
pub fn exchanged_states(outcome: Result<u8, u8>) -> (r: Result<FrameState, FrameState>)
    requires
        outcome matches Ok(v) ==> frame_state_of_tag(v) is Some,
        outcome matches Err(v) ==> frame_state_of_tag(v) is Some,
    ensures
        match outcome {
            Ok(v) => r is Ok && frame_state_of_tag(v) == Some(r->Ok_0),
            Err(v) => r is Err && frame_state_of_tag(v) == Some(r->Err_0),
        },
{
    match outcome {
        Ok(v) => Ok(FrameState::from_u8(v)),
        Err(v) => Err(FrameState::from_u8(v)),
    }
}

/// What is done to a frame state in one step.
pub enum StateStep {
    /// It is read as a state.
    Load(FrameState),
    /// A state is written to it.
    Store(FrameState),
    /// It is replaced if it is the state expected; with what that came to.
    Exchange { expected: FrameState, new: FrameState, outcome: Result<FrameState, FrameState> },
}

/// The tags of the states of an outcome.
pub open spec fn outcome_tags(outcome: Result<FrameState, FrameState>) -> Result<u8, u8> {
    match outcome {
        Ok(state) => Ok(frame_state_tag(state)),
        Err(state) => Err(frame_state_tag(state)),
    }
}

/// What a step on a state does to its byte.
pub open spec fn byte_step(step: StateStep) -> ByteStep {
    match step {
        StateStep::Load(state) => ByteStep::Load(frame_state_tag(state)),
        StateStep::Store(state) => ByteStep::Store(frame_state_tag(state)),
        StateStep::Exchange { expected, new, outcome } => ByteStep::Exchange {
            expected: frame_state_tag(expected),
            new: frame_state_tag(new),
            outcome: outcome_tags(outcome),
        },
    }
}

impl AtomicFrameState {
    /// The cell of the byte.
    pub closed spec fn cell(&self) -> &TagCell {
        &self.0
    }

    /// The cell was made with this state.
    pub closed spec fn was_made(&self, state: FrameState) -> bool {
        tag_cell::was_made(self.0, frame_state_tag(state))
    }

    /// The step was done to the byte of the cell, with these orderings.
    pub closed spec fn byte_was_done(
        &self,
        step: ByteStep,
        order: Ordering,
        failure: Ordering,
    ) -> bool {
        tag_cell::was_done(&self.0, step, order, failure)
    }

    /// The byte is that of the cell.
    pub proof fn byte_of_cell(&self)
        ensures
            forall|step: ByteStep, order: Ordering, failure: Ordering| #[trigger]
                self.byte_was_done(step, order, failure) == tag_cell::was_done(
                    self.cell(),
                    step,
                    order,
                    failure,
                ),
    {
    }

    pub fn new(state: FrameState) -> (r: Self)
        ensures
            r.was_made(state),
    {
        Self(tag_cell::new_cell(state.tag()))
    }

    /// The state read from the cell. Which one that is depends on the other threads.
    pub fn load(&self, order: Ordering) -> (r: FrameState)
        requires
            is_load_ordering(order),
        ensures
            self.byte_was_done(byte_step(StateStep::Load(r)), order, order),
    {
        let tag: u8 = tag_cell::read_tag(&self.0, order);
        let state = FrameState::from_u8(tag);
        proof {
            frame_state_tag_round_trip(state, tag);
        }
        state
    }

    pub fn store(&self, state: FrameState, order: Ordering)
        requires
            is_store_ordering(order),
        ensures
            self.byte_was_done(byte_step(StateStep::Store(state)), order, order),
    {
        tag_cell::store_tag(&self.0, state.tag(), order);
    }

    /// Replace `expected` by `new` in one step. A success names the expected
    /// state, a failure another one, as `exchanged_states` gives them for the byte
    /// that was read.
    pub fn compare_exchange(
        &self,
        expected: FrameState,
        new: FrameState,
        success: Ordering,
        failure: Ordering,
    ) -> (r: Result<FrameState, FrameState>)
        requires
            is_load_ordering(failure),
        ensures
            r matches Ok(state) ==> state == expected,
            r matches Err(state) ==> state != expected,
            self.byte_was_done(
                byte_step(StateStep::Exchange { expected, new, outcome: r }),
                success,
                failure,
            ),
    {
        let outcome = tag_cell::replace_tag(
            &self.0,
            expected.tag(),
            new.tag(),
            success,
            failure,
        );
        let r = exchanged_states(outcome);
        proof {
            frame_state_tag_round_trip(expected, 0);
            frame_state_tag_round_trip(expected, tag_cell::byte_found(outcome));
            assert(outcome_tags(r) == outcome);
        }
        r
    }
}

/// Atomic counter used for per-frame pin tracking. It is touched on every
/// fix and unfix, while the header fields around it are much colder.
pub struct PaddedAtomicU32(AtomicU32);

/// What is done to a counter in one step.
pub enum CountStep {
    /// It is read.
    Load,
    /// A value is written to it.
    Store(u32),
    /// A value is added to it.
    Add(u32),
    /// A value is subtracted from it.
    Subtract(u32),
}

/// The counter after a step, where it was `count` before.
pub open spec fn count_after(step: CountStep, count: u32) -> u32 {
    match step {
        CountStep::Load => count,
        CountStep::Store(value) => value,
        CountStep::Add(value) => count.wrapping_add(value),
        CountStep::Subtract(value) => count.wrapping_sub(value),
    }
}

impl PaddedAtomicU32 {
    /// The counter was made with this value.
    pub closed spec fn was_made(&self, value: u32) -> bool {
        call_ensures(AtomicU32::new, (value,), self.0)
    }

    /// The step was done to the counter, with this ordering, and `found` is the value
    /// before. A store does not say it.
    pub closed spec fn was_done(&self, step: CountStep, order: Ordering, found: u32) -> bool {
        match step {
            CountStep::Load => call_ensures(AtomicU32::load, (&self.0, order), found),
            CountStep::Store(value) => call_ensures(AtomicU32::store, (&self.0, value, order), ()),
            CountStep::Add(value) => call_ensures(
                AtomicU32::fetch_add,
                (&self.0, value, order),
                found,
            ),
            CountStep::Subtract(value) => call_ensures(
                AtomicU32::fetch_sub,
                (&self.0, value, order),
                found,
            ),
        }
    }

    pub fn new(value: u32) -> (r: Self)
        ensures
            r.was_made(value),
    {
        PaddedAtomicU32(call1(AtomicU32::new, value))
    }

    pub fn load(&self, order: Ordering) -> (r: u32)
        requires
            is_load_ordering(order),
        ensures
            self.was_done(CountStep::Load, order, r),
    {
        call2(AtomicU32::load, &self.0, order)
    }

    pub fn store(&self, value: u32, order: Ordering)
        requires
            is_store_ordering(order),
        ensures
            forall|found: u32| #[trigger] self.was_done(CountStep::Store(value), order, found),
    {
        call3(AtomicU32::store, &self.0, value, order);
    }

    /// Add, wrapping around, and return the value before.
    pub fn fetch_add(&self, value: u32, order: Ordering) -> (r: u32)
        ensures
            self.was_done(CountStep::Add(value), order, r),
    {
        call3(AtomicU32::fetch_add, &self.0, value, order)
    }

    /// Subtract, wrapping around, and return the value before.
    pub fn fetch_sub(&self, value: u32, order: Ordering) -> (r: u32)
        ensures
            self.was_done(CountStep::Subtract(value), order, r),
    {
        call3(AtomicU32::fetch_sub, &self.0, value, order)
    }
}

pub struct FrameCoreHeader {
    /// Number of active fixers.
    pub pin_count: PaddedAtomicU32,
    /// Which page is loaded in this frame (0 if none).
    pub pid: PageId,
    /// Set when the page has been modified since the last write-back.
    pub dirty: AtomicBool,
    /// Clock-style second-chance bit.
    pub referenced: AtomicBool,
    /// Frame lifecycle state.
    pub state: AtomicFrameState,
    /// LSN of the most recent log record for this page.
    pub page_lsn: AtomicU64,
    /// Log buffer epoch that holds the most recent buffered page image.
    pub wal_buffer_epoch: AtomicU64,
    /// Byte offset within the log buffer of the buffered page image.
    pub wal_buffer_offset: AtomicU32,
}

impl FrameCoreHeader {
    /// The header of a frame that holds no page: state `Free`, everything else
    /// zero or unset.
    pub fn new_free() -> (r: Self)
        ensures
            r.pid == 0,
            r.pin_count.was_made(0),
            r.state.was_made(FrameState::Free),
            call_ensures(AtomicBool::new, (false,), r.dirty),
            call_ensures(AtomicBool::new, (false,), r.referenced),
            call_ensures(AtomicU64::new, (0,), r.page_lsn),
            call_ensures(AtomicU64::new, (0,), r.wal_buffer_epoch),
            call_ensures(AtomicU32::new, (0,), r.wal_buffer_offset),
    {
        Self {
            pin_count: PaddedAtomicU32::new(0),
            pid: 0,
            dirty: call1(AtomicBool::new, false),
            referenced: call1(AtomicBool::new, false),
            state: AtomicFrameState::new(FrameState::Free),
            page_lsn: call1(AtomicU64::new, 0),
            wal_buffer_epoch: call1(AtomicU64::new, 0),
            wal_buffer_offset: call1(AtomicU32::new, 0),
        }
    }
}

} // verus!
