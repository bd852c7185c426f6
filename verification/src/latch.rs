//! A latch with an optimistic mode beside a shared and an exclusive one.
//!
//! A [`HybridLatch`] is a 64-bit version word and a reader/writer lock. A reader
//! that can start over takes a snapshot of the word, reads, and validates the
//! snapshot afterwards; it takes no lock. A reader that needs a stable view, and
//! every writer, takes the lock. How the word is read and advanced is in
//! [`latch_version`]; what each operation makes of a word that it has read
//! stands here as functions on plain values, and the operations on a live latch
//! are those functions applied to what the word was at that moment.
use std::sync::atomic::{AtomicU64, Ordering};

use vstd::prelude::*;

use crate::calls::{call0, call1, call2, call3};
use crate::latch_version::{
    base_version, can_advance_readable_version, enter_exclusive_version, entered,
    exclusive_base_version, exit_exclusive_version, is_exclusive, optimistic_restart_required, optimistic_snapshot,
    optimistic_snapshot_still_valid, VERSION_STEP,
};

verus! {

/// The work done so far rests on a version of the page that is gone: start over.
#[derive(Debug, Clone, Copy, PartialEq, Eq, Structural)]
pub struct Restart;

/// The version word stands one step before its end, so that no exclusive section
/// can be entered any more.
#[derive(Debug, Clone, Copy, PartialEq, Eq, Structural)]
pub struct VersionOverflow;

/// Why a snapshot was not turned into an exclusive section.
#[derive(Debug, Clone, Copy, PartialEq, Eq, Structural)]
pub enum EntryError {
    /// The word moved since the snapshot, or the lock was taken.
    Restart,
    /// The snapshot stands at the end of the version word.
    VersionOverflow,
}

/// An exclusive section may begin at this word: leaving it will not overflow.
pub open spec fn can_enter(word: u64) -> bool {
    word + VERSION_STEP <= u64::MAX
}

/// The word of an exclusive section that can be left.
pub open spec fn is_entered(word: u64) -> bool {
    &&& is_exclusive(word)
    &&& base_version(word) + VERSION_STEP <= u64::MAX
}

/// The word to store on entering an exclusive section, when the word read under
/// the writer lock is `current`.
pub fn exclusive_entry(current: u64) -> (r: Result<u64, VersionOverflow>)
    ensures
        r == (if can_enter(current) {
            Ok::<u64, VersionOverflow>(entered(current))
        } else {
            Err::<u64, VersionOverflow>(VersionOverflow)
        }),
        r matches Ok(word) ==> is_entered(word),
{
    if can_advance_readable_version(current) {
        Ok(enter_exclusive_version(current))
    } else {
        Err(VersionOverflow)
    }
}

/// What validation says of `snapshot` when the word is `current`.
pub fn validation(current: u64, snapshot: u64) -> (r: Result<(), Restart>)
    ensures
        r is Ok <==> current == snapshot,
{
    if optimistic_restart_required(current, snapshot) {
        Err(Restart)
    } else {
        Ok(())
    }
}

/// The word that an atomic exchange found.
pub open spec fn found(outcome: Result<u64, u64>) -> u64 {
    match outcome {
        Ok(word) => word,
        Err(word) => word,
    }
}

/// An exchange of `expected` is made exactly where that is the word found.
pub open spec fn is_exchange(outcome: Result<u64, u64>, expected: u64) -> bool {
    outcome is Ok <==> found(outcome) == expected
}

/// What the atomic step from `snapshot` to its entered word came to: the section
/// is entered exactly where the word found is still the snapshot.
pub fn exclusive_upgrade(snapshot: u64, outcome: Result<u64, u64>) -> (r: Result<u64, Restart>)
    requires
        can_enter(snapshot),
        is_exchange(outcome, snapshot),
    ensures
        r == (if found(outcome) == snapshot {
            Ok::<u64, Restart>(entered(snapshot))
        } else {
            Err::<u64, Restart>(Restart)
        }),
        r matches Ok(word) ==> is_entered(word),
{
    match outcome {
        Ok(_) => Ok(enter_exclusive_version(snapshot)),
        Err(_) => Err(Restart),
    }
}

/// `parking_lot::RawRwLock`.
#[verifier::external_type_specification]
#[verifier::external_body]
pub struct ExRawRwLock(parking_lot::RawRwLock);

/// `lock_api::RwLock`, of which `parking_lot::RwLock` is an instance.
#[verifier::external_type_specification]
#[verifier::external_body]
#[verifier::reject_recursive_types(R)]
#[verifier::reject_recursive_types(T)]
pub struct ExRwLock<R, T: ?Sized>(parking_lot::lock_api::RwLock<R, T>);

/// A hold on the writer side of the lock, given up when dropped: a
/// `parking_lot::RwLockWriteGuard`.
#[verifier::external_body]
struct WriteHold<'a>(#[allow(dead_code)] parking_lot::RwLockWriteGuard<'a, ()>);

/// A hold on the reader side of the lock, given up when dropped: a
/// `parking_lot::RwLockReadGuard`.
#[verifier::external_body]
struct ReadHold<'a>(#[allow(dead_code)] parking_lot::RwLockReadGuard<'a, ()>);

/// Makes a free lock with `parking_lot::RwLock::new`. Nothing is claimed of it.
#[verifier::external_body]
fn new_lock() -> parking_lot::RwLock<()> {
    parking_lot::RwLock::new(())
}

/// Takes the writer side with `parking_lot::RwLock::write`, which blocks until
/// it is free. Nothing is claimed of the hold.
#[verifier::external_body]
fn hold_for_write<'a>(lock: &'a parking_lot::RwLock<()>) -> WriteHold<'a> {
    WriteHold(lock.write())
}

/// Takes the writer side with `parking_lot::RwLock::try_write`. Whether it is
/// free depends on the other threads: nothing is claimed of the result.
#[verifier::external_body]
fn try_hold_for_write<'a>(lock: &'a parking_lot::RwLock<()>) -> Option<WriteHold<'a>> {
    lock.try_write().map(WriteHold)
}

/// Takes the reader side with `parking_lot::RwLock::read`, which blocks until it
/// is free. Nothing is claimed of the hold.
#[verifier::external_body]
fn hold_for_read<'a>(lock: &'a parking_lot::RwLock<()>) -> ReadHold<'a> {
    ReadHold(lock.read())
}

/// Takes the reader side with `parking_lot::RwLock::try_read`. Whether it is
/// free depends on the other threads: nothing is claimed of the result.
#[verifier::external_body]
fn try_hold_for_read<'a>(lock: &'a parking_lot::RwLock<()>) -> Option<ReadHold<'a>> {
    lock.try_read().map(ReadHold)
}

/// Stores a word with `AtomicU64::store` and release ordering. It is claimed
/// that the store does not unwind; what other threads read is not stated.
#[verifier::external_body]
fn publish(word: &AtomicU64, value: u64)
    opens_invariants none
    no_unwind
{
    word.store(value, Ordering::Release)
}

/// Replaces a word in one step with `AtomicU64::compare_exchange`, with acquire and
/// release ordering. It is claimed that a success gives back the word that was
/// expected, and a failure the word that was there, which is another; which of the
/// two comes depends on the other threads.
#[verifier::external_body]
fn exchange_word(word: &AtomicU64, expected: u64, new: u64) -> (r: Result<u64, u64>)
    ensures
        is_exchange(r, expected),
{
    word.compare_exchange(expected, new, Ordering::AcqRel, Ordering::Acquire)
}

/// Tells the processor that this is a spin loop, with `std::hint::spin_loop`.
#[verifier::external_body]
fn pause() {
    std::hint::spin_loop()
}

/// The word of a latch, read under a hold on the reader side.
fn word_for_readers(_hold: &ReadHold<'_>, latch: &HybridLatch) -> (word: u64)
    ensures
        latch.read_as(word),
{
    latch.version()
}

/// The word of a latch, read under a hold on the writer side.
fn word_for_writer(_hold: &WriteHold<'_>, latch: &HybridLatch) -> (word: u64)
    ensures
        call_ensures(AtomicU64::load, (&latch.version, Ordering::Relaxed), word),
{
    call2(AtomicU64::load, &latch.version, Ordering::Relaxed)
}

/// Stores a word under a hold on the writer side.
fn publish_for_writer(_hold: &WriteHold<'_>, latch: &HybridLatch, word: u64)
    ensures
        call_ensures(publish, (&latch.version, word), ()),
{
    call2(publish, &latch.version, word)
}

/// Exchanges a readable word for its entered word, under a hold on the writer side.
fn exchange_for_writer(_hold: &WriteHold<'_>, latch: &HybridLatch, expected: u64) -> (r: Result<
    u64,
    u64,
>)
    requires
        can_enter(expected),
    ensures
        is_exchange(r, expected),
        call_ensures(exchange_word, (&latch.version, expected, entered(expected)), r),
{
    call3(exchange_word, &latch.version, expected, enter_exclusive_version(expected))
}

/// The hold was taken on the reader side of the lock of the latch.
spec fn is_reader_of(hold: ReadHold<'_>, latch: &HybridLatch) -> bool {
    call_ensures(hold_for_read, (&latch.lock,), hold) || call_ensures(
        try_hold_for_read,
        (&latch.lock,),
        Some(hold),
    )
}

/// The hold was taken on the writer side of the lock of the latch.
spec fn is_writer_of(hold: WriteHold<'_>, latch: &HybridLatch) -> bool {
    call_ensures(hold_for_write, (&latch.lock,), hold) || call_ensures(
        try_hold_for_write,
        (&latch.lock,),
        Some(hold),
    )
}

/// Takes the reader side of the lock of a latch, waiting for it.
fn wait_for_read<'a>(latch: &'a HybridLatch) -> (r: ReadHold<'a>)
    ensures
        is_reader_of(r, latch),
{
    call1(hold_for_read, &latch.lock)
}

/// Takes the reader side of the lock of a latch if it is free.
fn try_for_read<'a>(latch: &'a HybridLatch) -> (r: Option<ReadHold<'a>>)
    ensures
        r matches Some(hold) ==> is_reader_of(hold, latch),
        r is None ==> call_ensures(try_hold_for_read, (&latch.lock,), r),
{
    call1(try_hold_for_read, &latch.lock)
}

/// Takes the writer side of the lock of a latch, waiting for it.
fn wait_for_write<'a>(latch: &'a HybridLatch) -> (r: WriteHold<'a>)
    ensures
        is_writer_of(r, latch),
{
    call1(hold_for_write, &latch.lock)
}

/// Takes the writer side of the lock of a latch if it is free.
fn try_for_write<'a>(latch: &'a HybridLatch) -> (r: Option<WriteHold<'a>>)
    ensures
        r matches Some(hold) ==> is_writer_of(hold, latch),
        r is None ==> call_ensures(try_hold_for_write, (&latch.lock,), r),
{
    call1(try_hold_for_write, &latch.lock)
}

/// A version word and a reader/writer lock.
pub struct HybridLatch {
    version: AtomicU64,
    lock: parking_lot::RwLock<()>,
}

/// An optimistic read section: a snapshot of the word, readable when taken. It
/// holds no lock, and dropping it does nothing.
pub struct OptimisticGuard<'a> {
    latch: &'a HybridLatch,
    version: u64,
}

/// A shared section. It holds the reader side of the lock until dropped; the
/// word does not move.
pub struct SharedGuard<'a> {
    #[allow(dead_code)]
    latch: &'a HybridLatch,
    #[allow(dead_code)]
    inner: ReadHold<'a>,
    version: u64,
}

/// An exclusive section. The word has its exclusive bit set until the guard is
/// dropped, which stores the next readable version and only then gives the lock
/// up.
pub struct ExclusiveGuard<'a> {
    latch: &'a HybridLatch,
    #[allow(dead_code)]
    inner: WriteHold<'a>,
    version: u64,
}

/// A read section of either kind.
pub enum LatchGuard<'a> {
    Optimistic(OptimisticGuard<'a>),
    Shared(SharedGuard<'a>),
}

impl Default for HybridLatch {
    fn default() -> (r: Self)
        ensures
            r.begins_at(0),
    {
        Self::new()
    }
}

impl HybridLatch {
    /// The word was made with this value, and the lock was made free.
    pub closed spec fn begins_at(&self, word: u64) -> bool {
        call_ensures(AtomicU64::new, (word,), self.version) && call_ensures(
            new_lock,
            (),
            self.lock,
        )
    }

    /// A load of the word with acquire ordering gave `word`.
    pub closed spec fn read_as(&self, word: u64) -> bool {
        call_ensures(AtomicU64::load, (&self.version, Ordering::Acquire), word)
    }

    /// The word was read as `word` under a hold on the reader side of the lock.
    pub closed spec fn read_shared_as(&self, word: u64) -> bool {
        exists|hold: ReadHold<'_>|
            is_reader_of(hold, self) && #[trigger] call_ensures(
                word_for_readers,
                (&hold, self),
                word,
            )
    }

    /// The word was read as `word` under a hold on the writer side of the lock.
    pub closed spec fn read_exclusive_as(&self, word: u64) -> bool {
        exists|hold: WriteHold<'_>|
            is_writer_of(hold, self) && #[trigger] call_ensures(
                word_for_writer,
                (&hold, self),
                word,
            )
    }

    /// The reader side of the lock was found taken.
    pub closed spec fn refused_readers(&self) -> bool {
        call_ensures(try_hold_for_read, (&self.lock,), None)
    }

    /// The writer side of the lock was found taken.
    pub closed spec fn refused_writers(&self) -> bool {
        call_ensures(try_hold_for_write, (&self.lock,), None)
    }

    /// Under a hold on the writer side, an exchange of `expected` for its entered
    /// word found `word`.
    pub closed spec fn exchange_found(&self, expected: u64, word: u64) -> bool {
        exists|hold: WriteHold<'_>, outcome: Result<u64, u64>|
            is_writer_of(hold, self) && found(outcome) == word && #[trigger] call_ensures(
                exchange_for_writer,
                (&hold, self, expected),
                outcome,
            )
    }

    /// A latch at version 0, which nobody holds.
    pub fn new() -> (r: Self)
        ensures
            r.begins_at(0),
    {
        Self::starting_at(0)
    }

    /// A latch whose word is `version`, which nobody holds.
    pub fn starting_at(version: u64) -> (r: Self)
        requires
            !is_exclusive(version),
        ensures
            r.begins_at(version),
    {
        HybridLatch { version: call1(AtomicU64::new, version), lock: call0(new_lock) }
    }

    /// The optimistic section that begins when the word is read as `current`:
    /// none while a writer is active.
    pub fn optimistic_at(&self, current: u64) -> (r: Result<OptimisticGuard<'_>, Restart>)
        ensures
            r is Ok <==> !is_exclusive(current),
            r matches Ok(guard) ==> guard.latch() == self && guard.snapshot() == current,
    {
        match optimistic_snapshot(current) {
            Some(snapshot) => Ok(OptimisticGuard { latch: self, version: snapshot }),
            None => Err(Restart),
        }
    }

    /// Begins an optimistic section as [`Self::optimistic_at`] has it for the
    /// word at this moment, which depends on the writers.
    pub fn optimistic_or_restart(&self) -> (r: Result<OptimisticGuard<'_>, Restart>)
        ensures
            r matches Ok(guard) ==> guard.latch() == self && !is_exclusive(guard.snapshot())
                && self.read_as(guard.snapshot()),
            r is Err ==> exists|word: u64| #[trigger] self.read_as(word) && is_exclusive(word),
    {
        self.optimistic_at(self.version())
    }

    /// Begins an optimistic section, looking at the word again and again while a
    /// writer is active; it never asks the caller to start over. Where the word was
    /// exclusive at every one of `u64::MAX` looks, it waits for the writers at the
    /// lock: under a hold on the reader side the word is readable. (A word without
    /// a writer is never exclusive. Of one that were, the version before it would be
    /// the snapshot, which no validation accepts.)
    pub fn optimistic_spin(&self) -> (r: OptimisticGuard<'_>)
        ensures
            r.latch() == self,
            !is_exclusive(r.snapshot()),
            self.read_as(r.snapshot()) || exists|word: u64| #[trigger]
                self.read_shared_as(word) && is_exclusive(word) && r.snapshot() == base_version(
                    word,
                ),
    {
        let mut looks: u64 = 0;
        while looks < u64::MAX
            decreases u64::MAX - looks,
        {
            match self.optimistic_at(self.version()) {
                Ok(guard) => {
                    return guard;
                },
                Err(_) => {},
            }
            pause();
            looks = looks + 1;
        }
        let inner = wait_for_read(self);
        let current: u64 = call2(word_for_readers, &inner, self);
        assert(self.read_shared_as(current) && self.read_as(current));
        match self.optimistic_at(current) {
            Ok(guard) => guard,
            Err(_) => OptimisticGuard { latch: self, version: exclusive_base_version(current) },
        }
    }

    /// Begins an exclusive section under a hold on the writer side, where the word
    /// was read as `current`. The entered word is stored; a word that cannot
    /// advance is refused.
    fn enter_at<'a>(&'a self, inner: WriteHold<'a>, current: u64) -> (r: Result<
        ExclusiveGuard<'a>,
        VersionOverflow,
    >)
        ensures
            r is Ok <==> can_enter(current),
            r matches Ok(guard) ==> guard.latch() == self && guard.word() == entered(current)
                && is_entered(guard.word()),
            r matches Ok(guard) ==> (is_writer_of(inner, self) ==> guard.is_held()),
    {
        match exclusive_entry(current) {
            Ok(word) => {
                call3(publish_for_writer, &inner, self, word);
                Ok(ExclusiveGuard { latch: self, inner, version: word })
            },
            Err(e) => Err(e),
        }
    }

    /// Begins an exclusive section under a hold on the writer side, as
    /// [`Self::enter_at`] has it for the word that is read under the hold.
    fn enter<'a>(&'a self, inner: WriteHold<'a>) -> (r: Result<ExclusiveGuard<'a>, VersionOverflow>)
        ensures
            r matches Ok(guard) ==> guard.latch() == self && is_entered(guard.word()),
            is_writer_of(inner, self) ==> self.entry_outcome(r),
    {
        let current: u64 = call2(word_for_writer, &inner, self);
        assert(is_writer_of(inner, self) ==> self.read_exclusive_as(current));
        self.enter_at(inner, current)
    }

    /// An exclusive section was begun at the word read under a hold on the writer
    /// side, exactly where that can advance.
    pub open spec fn entry_outcome(
        &self,
        r: Result<ExclusiveGuard<'_>, VersionOverflow>,
    ) -> bool {
        exists|word: u64|
            {
                &&& #[trigger] self.read_exclusive_as(word)
                &&& r is Ok <==> can_enter(word)
                &&& r is Ok ==> r->Ok_0.word() == entered(word) && r->Ok_0.is_held()
            }
    }

    /// Begins an exclusive section, waiting for the lock. It fails only where
    /// [`exclusive_entry`] refuses the word that is read under the lock.
    pub fn lock_exclusive(&self) -> (r: Result<ExclusiveGuard<'_>, VersionOverflow>)
        ensures
            r matches Ok(guard) ==> guard.latch() == self && is_entered(guard.word()),
            self.entry_outcome(r),
    {
        let inner = match try_for_write(self) {
            Some(inner) => inner,
            None => wait_for_write(self),
        };
        self.enter(inner)
    }

    /// Begins an exclusive section if the lock is free, and is `None` if it is
    /// not.
    pub fn try_lock_exclusive(&self) -> (r: Option<Result<ExclusiveGuard<'_>, VersionOverflow>>)
        ensures
            r matches Some(Ok(guard)) ==> guard.latch() == self && is_entered(guard.word()),
            r is Some ==> self.entry_outcome(r->0),
            r is None ==> self.refused_writers(),
    {
        match try_for_write(self) {
            Some(inner) => Some(self.enter(inner)),
            None => None,
        }
    }

    /// Begins a shared section of this latch, waiting for the lock. Which word it
    /// begins with depends on the writers before.
    pub fn lock_shared(&self) -> (r: SharedGuard<'_>)
        ensures
            r.latch() == self,
            r.is_held(),
            self.read_shared_as(r.word()),
    {
        let inner = match try_for_read(self) {
            Some(inner) => inner,
            None => wait_for_read(self),
        };
        let version: u64 = call2(word_for_readers, &inner, self);
        SharedGuard { latch: self, inner, version }
    }

    /// Begins a shared section of this latch if the lock is free, and is `None` if
    /// it is not.
    pub fn try_lock_shared(&self) -> (r: Option<SharedGuard<'_>>)
        ensures
            r matches Some(guard) ==> guard.latch() == self && guard.is_held()
                && self.read_shared_as(guard.word()),
            r is None ==> self.refused_readers(),
    {
        match try_for_read(self) {
            Some(inner) => {
                let version: u64 = call2(word_for_readers, &inner, self);
                Some(SharedGuard { latch: self, inner, version })
            },
            None => None,
        }
    }

    /// The word at this moment. It may have moved when the caller looks at it.
    pub fn version(&self) -> (r: u64)
        ensures
            self.read_as(r),
    {
        call2(AtomicU64::load, &self.version, Ordering::Acquire)
    }
}

impl<'a> OptimisticGuard<'a> {
    /// The snapshot that was taken.
    pub closed spec fn snapshot(&self) -> u64 {
        self.version
    }

    /// The latch that it was taken of.
    pub closed spec fn latch(&self) -> &'a HybridLatch {
        self.latch
    }

    /// Whether the snapshot still holds when the word is `current`.
    pub fn validate_against(&self, current: u64) -> (r: Result<(), Restart>)
        ensures
            r is Ok <==> current == self.snapshot(),
    {
        validation(current, self.version)
    }

    /// Whether the word is still the snapshot, as [`Self::validate_against`] has
    /// it for the word at this moment.
    pub fn validate(&self) -> (r: Result<(), Restart>)
        ensures
            exists|word: u64| #[trigger] self.latch().read_as(word) && (r is Ok <==> word
                == self.snapshot()),
    {
        let word: u64 = self.latch.version();
        assert(self.latch().read_as(word));
        self.validate_against(word)
    }

    /// Whether an exclusive section may begin at the snapshot: it does not stand at
    /// the end of the version word.
    pub fn can_upgrade(&self) -> (r: bool)
        ensures
            r == can_enter(self.snapshot()),
    {
        can_advance_readable_version(self.version)
    }

    /// Turns the snapshot into an exclusive section under a hold on the writer
    /// side, where the exchange of the word came to `outcome`, if the word found is
    /// the snapshot.
    fn enter_exchanged(self, inner: WriteHold<'a>, outcome: Result<u64, u64>) -> (r: Result<
        ExclusiveGuard<'a>,
        Restart,
    >)
        requires
            can_enter(self.snapshot()),
            is_exchange(outcome, self.snapshot()),
        ensures
            r is Ok <==> found(outcome) == self.snapshot(),
            r matches Ok(guard) ==> guard.latch() == self.latch() && guard.word() == entered(
                self.snapshot(),
            ),
            r matches Ok(guard) ==> (is_writer_of(inner, self.latch()) && call_ensures(
                exchange_for_writer,
                (&inner, self.latch(), self.snapshot()),
                outcome,
            ) ==> guard.is_held()),
    {
        match exclusive_upgrade(self.version, outcome) {
            Ok(word) => Ok(ExclusiveGuard { latch: self.latch, inner, version: word }),
            Err(e) => Err(e),
        }
    }

    /// Turns the snapshot into an exclusive section under a hold on the writer
    /// side, as [`Self::enter_exchanged`] has it for the word that the exchange
    /// finds under the hold.
    fn enter(self, inner: WriteHold<'a>) -> (r: Result<ExclusiveGuard<'a>, Restart>)
        requires
            can_enter(self.snapshot()),
        ensures
            r matches Ok(guard) ==> guard.latch() == self.latch() && guard.word() == entered(
                self.snapshot(),
            ),
            is_writer_of(inner, self.latch()) ==> self.upgrade_outcome(r),
    {
        let outcome = call3(exchange_for_writer, &inner, self.latch, self.version);
        assert(is_writer_of(inner, self.latch()) ==> self.latch().exchange_found(
            self.snapshot(),
            found(outcome),
        ));
        self.enter_exchanged(inner, outcome)
    }

    /// An exchange of the snapshot under a hold on the writer side was made exactly
    /// where it found the snapshot.
    pub open spec fn upgrade_outcome(&self, r: Result<ExclusiveGuard<'a>, Restart>) -> bool {
        &&& exists|word: u64| #[trigger]
            self.latch().exchange_found(self.snapshot(), word) && (r is Ok <==> word
                == self.snapshot())
        &&& r is Ok ==> r->Ok_0.is_held()
    }

    /// The word that was read under a hold on the reader side is the snapshot
    /// exactly where the section was begun.
    pub open spec fn shared_outcome(&self, r: Result<SharedGuard<'a>, Restart>) -> bool {
        &&& exists|word: u64| #[trigger]
            self.latch().read_shared_as(word) && (r is Ok <==> word == self.snapshot())
        &&& r is Ok ==> r->Ok_0.is_held()
    }

    /// Turns the snapshot into an exclusive section, waiting for the lock, if
    /// the word is still the snapshot then. The snapshot must not stand at the end
    /// of the version word: see [`Self::can_upgrade`].
    pub fn upgrade_to_exclusive(self) -> (r: Result<ExclusiveGuard<'a>, Restart>)
        requires
            can_enter(self.snapshot()),
        ensures
            r matches Ok(guard) ==> guard.latch() == self.latch() && guard.word() == entered(
                self.snapshot(),
            ),
            self.upgrade_outcome(r),
    {
        match self.exclusive_if_free() {
            Ok(r) => r,
            Err(guard) => {
                let inner = wait_for_write(guard.latch);
                guard.enter(inner)
            },
        }
    }

    /// Like [`Self::upgrade_to_exclusive`], but gives the snapshot back where the
    /// lock is taken, so that a caller can tell that it has to wait.
    pub fn exclusive_if_free(self) -> (r: Result<Result<ExclusiveGuard<'a>, Restart>, Self>)
        requires
            can_enter(self.snapshot()),
        ensures
            r matches Ok(Ok(guard)) ==> guard.latch() == self.latch() && guard.word() == entered(
                self.snapshot(),
            ),
            r matches Ok(made) ==> self.upgrade_outcome(made),
            r matches Err(guard) ==> guard == self && self.latch().refused_writers(),
    {
        match try_for_write(self.latch) {
            Some(inner) => Ok(self.enter(inner)),
            None => Err(self),
        }
    }

    /// Like [`Self::upgrade_to_exclusive`], but starts over where the lock is
    /// taken. Where it is not, a snapshot at the end of the version word is refused
    /// as an overflow.
    pub fn try_upgrade_to_exclusive(self) -> (r: Result<ExclusiveGuard<'a>, EntryError>)
        ensures
            r matches Ok(guard) ==> guard.latch() == self.latch() && guard.word() == entered(
                self.snapshot(),
            ),
            r matches Err(e) ==> (e is VersionOverflow ==> !can_enter(self.snapshot())),
            !can_enter(self.snapshot()) ==> r is Err,
            can_enter(self.snapshot()) ==> (match r {
                Ok(guard) => self.upgrade_outcome(Ok(guard)),
                Err(_) => self.upgrade_outcome(Err(Restart)) || self.latch().refused_writers(),
            }),
            r matches Err(e) ==> (!can_enter(self.snapshot()) && e is Restart
                ==> self.latch().refused_writers()),
    {
        match try_for_write(self.latch) {
            Some(inner) => if self.can_upgrade() {
                match self.enter(inner) {
                    Ok(guard) => Ok(guard),
                    Err(_) => Err(EntryError::Restart),
                }
            } else {
                Err(EntryError::VersionOverflow)
            },
            None => Err(EntryError::Restart),
        }
    }

    /// Turns the snapshot into a shared section under a hold on the reader side,
    /// where the word was read as `current`, if that is still the snapshot.
    fn enter_shared_at(self, inner: ReadHold<'a>, current: u64) -> (r: Result<
        SharedGuard<'a>,
        Restart,
    >)
        ensures
            r is Ok <==> current == self.snapshot(),
            r matches Ok(guard) ==> guard.latch() == self.latch() && guard.word()
                == self.snapshot(),
            r matches Ok(guard) ==> (is_reader_of(inner, self.latch()) && call_ensures(
                word_for_readers,
                (&inner, self.latch()),
                current,
            ) ==> guard.is_held()),
    {
        if optimistic_snapshot_still_valid(current, self.version) {
            Ok(SharedGuard { latch: self.latch, inner, version: self.version })
        } else {
            Err(Restart)
        }
    }

    /// Turns the snapshot into a shared section under a hold on the reader side,
    /// as [`Self::enter_shared_at`] has it for the word that is read under the
    /// hold.
    fn enter_shared(self, inner: ReadHold<'a>) -> (r: Result<SharedGuard<'a>, Restart>)
        ensures
            r matches Ok(guard) ==> guard.latch() == self.latch() && guard.word()
                == self.snapshot(),
            is_reader_of(inner, self.latch()) ==> self.shared_outcome(r),
    {
        let current: u64 = call2(word_for_readers, &inner, self.latch);
        assert(is_reader_of(inner, self.latch()) ==> self.latch().read_shared_as(current));
        self.enter_shared_at(inner, current)
    }

    /// Turns the snapshot into a shared section, waiting for the lock, if the
    /// word is still the snapshot then.
    pub fn upgrade_to_shared(self) -> (r: Result<SharedGuard<'a>, Restart>)
        ensures
            r matches Ok(guard) ==> guard.latch() == self.latch() && guard.word()
                == self.snapshot(),
            self.shared_outcome(r),
    {
        match self.shared_if_free() {
            Ok(r) => r,
            Err(guard) => {
                let inner = wait_for_read(guard.latch);
                guard.enter_shared(inner)
            },
        }
    }

    /// Like [`Self::upgrade_to_shared`], but gives the snapshot back where the lock
    /// is taken, so that a caller can tell that it has to wait.
    pub fn shared_if_free(self) -> (r: Result<Result<SharedGuard<'a>, Restart>, Self>)
        ensures
            r matches Ok(Ok(guard)) ==> guard.latch() == self.latch() && guard.word()
                == self.snapshot(),
            r matches Ok(made) ==> self.shared_outcome(made),
            r matches Err(guard) ==> guard == self && self.latch().refused_readers(),
    {
        match try_for_read(self.latch) {
            Some(inner) => Ok(self.enter_shared(inner)),
            None => Err(self),
        }
    }

    /// Like [`Self::upgrade_to_shared`], but starts over where the lock is taken.
    pub fn try_upgrade_to_shared(self) -> (r: Result<SharedGuard<'a>, Restart>)
        ensures
            r matches Ok(guard) ==> guard.latch() == self.latch() && guard.word()
                == self.snapshot(),
            self.shared_outcome(r) || (r is Err && self.latch().refused_readers()),
    {
        match try_for_read(self.latch) {
            Some(inner) => self.enter_shared(inner),
            None => Err(Restart),
        }
    }
}

impl<'a> SharedGuard<'a> {
    /// The hold is on the reader side of the lock of the latch, and the word was
    /// read under it.
    pub closed spec fn is_held(&self) -> bool {
        is_reader_of(self.inner, self.latch) && call_ensures(
            word_for_readers,
            (&self.inner, self.latch),
            self.version,
        )
    }

    /// The word that the section began with.
    pub closed spec fn word(&self) -> u64 {
        self.version
    }

    /// The latch that is held.
    pub closed spec fn latch(&self) -> &'a HybridLatch {
        self.latch
    }

    pub fn version(&self) -> (r: u64)
        ensures
            r == self.word(),
    {
        self.version
    }
}

impl<'a> ExclusiveGuard<'a> {
    #[verifier::type_invariant]
    spec fn can_be_left(self) -> bool {
        is_entered(self.version)
    }

    /// The hold is on the writer side of the lock of the latch, and under it the word
    /// was stored, or exchanged for the readable one.
    pub closed spec fn is_held(&self) -> bool {
        &&& is_writer_of(self.inner, self.latch)
        &&& call_ensures(publish_for_writer, (&self.inner, self.latch, self.version), ())
            || exists|from: u64, outcome: Result<u64, u64>|
            entered(from) == self.version && outcome is Ok && #[trigger] call_ensures(
                exchange_for_writer,
                (&self.inner, self.latch, from),
                outcome,
            )
    }

    /// The word while the section lasts.
    pub closed spec fn word(&self) -> u64 {
        self.version
    }

    /// The latch that is held.
    pub closed spec fn latch(&self) -> &'a HybridLatch {
        self.latch
    }

    pub fn version(&self) -> (r: u64)
        ensures
            r == self.word(),
            is_entered(r),
    {
        proof {
            use_type_invariant(self);
        }
        self.version
    }
}

impl Drop for ExclusiveGuard<'_> {
    fn drop(&mut self)
        opens_invariants none
        no_unwind
    {
        proof {
            use_type_invariant(&*self);
        }
        let next: u64 = exit_exclusive_version(self.version);
        publish(&self.latch.version, next);
    }
}

impl<'a> LatchGuard<'a> {
    /// Whether what was read under the guard still holds when the word is
    /// `current`. A shared section cannot be invalidated.
    pub fn validate_against(&self, current: u64) -> (r: Result<(), Restart>)
        ensures
            r is Ok <==> (*self matches LatchGuard::Optimistic(guard) ==> current
                == guard.snapshot()),
    {
        match self {
            LatchGuard::Optimistic(guard) => guard.validate_against(current),
            LatchGuard::Shared(_) => Ok(()),
        }
    }

    /// Whether what was read under the guard still holds, as
    /// [`Self::validate_against`] has it for the word at this moment. It always
    /// does under a shared one.
    pub fn validate(&self) -> (r: Result<(), Restart>)
        ensures
            *self is Shared ==> r is Ok,
            *self matches LatchGuard::Optimistic(guard) ==> exists|word: u64| #[trigger]
                guard.latch().read_as(word) && (r is Ok <==> word == guard.snapshot()),
    {
        match self {
            LatchGuard::Optimistic(guard) => guard.validate(),
            LatchGuard::Shared(_) => Ok(()),
        }
    }
}

/// An upgrade keeps the snapshot: the word entered from it leads, when the
/// section is left, to the version two above the snapshot, which is readable and
/// is not the snapshot.
pub proof fn upgraded_section_advances_the_snapshot(snapshot: u64)
    requires
        !is_exclusive(snapshot),
        can_enter(snapshot),
    ensures
        is_entered(entered(snapshot)),
        base_version(entered(snapshot)) == snapshot,
        base_version(entered(snapshot)) + VERSION_STEP == snapshot + 2,
        !is_exclusive((snapshot + 2) as u64),
{
}

} // verus!
