//! What the sections of a latch promise to those who begin and validate them.
use vstd::prelude::*;

use crate::latch::{
    can_enter, EntryError, ExclusiveGuard, HybridLatch, OptimisticGuard, Restart, SharedGuard,
    VersionOverflow,
};
use crate::latch_version::{entered, is_exclusive};

verus! {

/// A latch that a writer is in: whoever reads the word finds it exclusive.
pub open spec fn writer_inside(latch: &HybridLatch) -> bool {
    forall|word: u64| #[trigger] latch.read_as(word) ==> is_exclusive(word)
}

/// A latch that has not moved since its word was `word`: nothing else is read.
pub open spec fn rests_at(latch: &HybridLatch, word: u64) -> bool {
    &&& forall|w: u64| #[trigger] latch.read_as(w) ==> w == word
    &&& forall|w: u64| #[trigger] latch.read_shared_as(w) ==> w == word
    &&& forall|w: u64| #[trigger] latch.read_exclusive_as(w) ==> w == word
    &&& forall|expected: u64, w: u64| #[trigger]
        latch.exchange_found(expected, w) ==> w == word
}

/// A latch that has left `word`: nobody reads it any more.
pub open spec fn left_behind(latch: &HybridLatch, word: u64) -> bool {
    &&& forall|w: u64| #[trigger] latch.read_as(w) ==> w != word
    &&& forall|w: u64| #[trigger] latch.read_shared_as(w) ==> w != word
    &&& forall|expected: u64, w: u64| #[trigger]
        latch.exchange_found(expected, w) ==> w != word
}

/// A snapshot is validated exactly where the word that is read is the snapshot: not
/// while a writer is inside, not once the word has moved on, and surely where it
/// rests.
pub proof fn snapshot_is_validated_against_the_word(
    guard: &OptimisticGuard<'_>,
    r: Result<(), Restart>,
)
    requires
        call_ensures(OptimisticGuard::validate, (guard,), r),
    ensures
        exists|word: u64| #[trigger]
            guard.latch().read_as(word) && (r is Ok <==> word == guard.snapshot()),
        !is_exclusive(guard.snapshot()) && writer_inside(guard.latch()) ==> r is Err,
        left_behind(guard.latch(), guard.snapshot()) ==> r is Err,
        rests_at(guard.latch(), guard.snapshot()) ==> r is Ok,
{
}

/// An optimistic section begins with a word that was read and is readable. It does
/// not begin while a writer is inside, and surely begins where the latch rests at a
/// readable word.
pub proof fn optimistic_section_begins_outside_writers(
    latch: &HybridLatch,
    r: Result<OptimisticGuard<'_>, Restart>,
    word: u64,
)
    requires
        call_ensures(HybridLatch::optimistic_or_restart, (latch,), r),
    ensures
        r matches Ok(guard) ==> guard.latch() == latch && latch.read_as(guard.snapshot())
            && !is_exclusive(guard.snapshot()),
        writer_inside(latch) ==> r is Err,
        rests_at(latch, word) && !is_exclusive(word) ==> r is Ok && r->Ok_0.snapshot() == word,
{
}

/// A snapshot becomes a shared section exactly where the word that is read under the
/// lock is the snapshot. The section is of the same latch, holds its lock, and has
/// the snapshot as its word.
pub proof fn stale_snapshot_is_not_shared(
    guard: OptimisticGuard<'_>,
    r: Result<SharedGuard<'_>, Restart>,
)
    requires
        call_ensures(OptimisticGuard::upgrade_to_shared, (guard,), r),
    ensures
        exists|word: u64| #[trigger]
            guard.latch().read_shared_as(word) && (r is Ok <==> word == guard.snapshot()),
        r matches Ok(shared) ==> shared.latch() == guard.latch() && shared.is_held()
            && shared.word() == guard.snapshot(),
        left_behind(guard.latch(), guard.snapshot()) ==> r is Err,
        rests_at(guard.latch(), guard.snapshot()) ==> r is Ok,
{
}

/// A snapshot becomes an exclusive section exactly where the exchange under the lock
/// finds the snapshot. The section is of the same latch, holds its lock, and has the
/// word that is entered from the snapshot.
pub proof fn stale_snapshot_is_not_exclusive(
    guard: OptimisticGuard<'_>,
    r: Result<ExclusiveGuard<'_>, Restart>,
)
    requires
        can_enter(guard.snapshot()),
        call_ensures(OptimisticGuard::upgrade_to_exclusive, (guard,), r),
    ensures
        exists|word: u64| #[trigger]
            guard.latch().exchange_found(guard.snapshot(), word) && (r is Ok <==> word
                == guard.snapshot()),
        r matches Ok(exclusive) ==> exclusive.latch() == guard.latch() && exclusive.is_held()
            && exclusive.word() == entered(guard.snapshot()),
        left_behind(guard.latch(), guard.snapshot()) ==> r is Err,
        rests_at(guard.latch(), guard.snapshot()) ==> r is Ok,
{
}

/// An upgrade that does not wait gives up only where the lock is taken or the
/// snapshot is not what is found.
pub proof fn upgrade_gives_up_for_a_reason(
    guard: OptimisticGuard<'_>,
    shared: Result<SharedGuard<'_>, Restart>,
    exclusive: Result<ExclusiveGuard<'_>, EntryError>,
)
    requires
        call_ensures(OptimisticGuard::try_upgrade_to_shared, (guard,), shared),
        call_ensures(OptimisticGuard::try_upgrade_to_exclusive, (guard,), exclusive),
    ensures
        left_behind(guard.latch(), guard.snapshot()) ==> shared is Err && exclusive is Err,
        rests_at(guard.latch(), guard.snapshot()) && !guard.latch().refused_readers()
            ==> shared is Ok,
        rests_at(guard.latch(), guard.snapshot()) && !guard.latch().refused_writers()
            && can_enter(guard.snapshot()) ==> exclusive is Ok,
        shared matches Ok(s) ==> s.is_held() && s.word() == guard.snapshot(),
        exclusive matches Ok(e) ==> e.is_held() && e.word() == entered(guard.snapshot()),
{
}

/// A shared section holds the lock of its latch, and its word was read under it; an
/// exclusive section holds the lock, and its word is entered from the one that was
/// read under it. It is refused only where that cannot advance.
pub proof fn locked_sections_hold_the_lock(
    latch: &HybridLatch,
    shared: SharedGuard<'_>,
    exclusive: Result<ExclusiveGuard<'_>, VersionOverflow>,
    word: u64,
)
    requires
        call_ensures(HybridLatch::lock_shared, (latch,), shared),
        call_ensures(HybridLatch::lock_exclusive, (latch,), exclusive),
    ensures
        shared.latch() == latch && shared.is_held() && latch.read_shared_as(shared.word()),
        exclusive matches Ok(e) ==> e.latch() == latch && e.is_held() && is_exclusive(e.word()),
        exists|w: u64| #[trigger]
            latch.read_exclusive_as(w) && (exclusive is Ok <==> can_enter(w)) && (exclusive is Ok
                ==> exclusive->Ok_0.word() == entered(w)),
        rests_at(latch, word) ==> shared.word() == word && (exclusive is Ok <==> can_enter(word)),
{
}

} // verus!
