//! How the 64-bit version word of a hybrid latch is read and advanced.
//!
//! Bit 0 is set exactly while a writer is in its critical section; the other
//! bits are the base version, even whenever the word is readable. Each completed
//! exclusive section advances the base version by two, so a readable version
//! seen before a write never equals one seen after it. That inequality lets an
//! optimistic reader decide between commit and restart with one comparison.
//!
//! The terminal exclusive state `u64::MAX` cannot be left without overflow, so
//! exclusive entry is refused where the readable version cannot advance.
use vstd::prelude::*;

verus! {

pub const EXCLUSIVE_BIT: u64 = 1;

pub const CLEAR_EXCLUSIVE_BIT: u64 = 0xffff_ffff_ffff_fffe;

pub const VERSION_STEP: u64 = 2;

/// A writer is in its critical section exactly when the word is odd.
pub open spec fn is_exclusive(word: u64) -> bool {
    word % 2 == 1
}

/// The word without its exclusive bit.
pub open spec fn base_version(word: u64) -> u64 {
    (word - word % 2) as u64
}

/// The word with its exclusive bit set.
pub open spec fn entered(word: u64) -> u64 {
    (base_version(word) + 1) as u64
}

proof fn lemma_bits(word: u64)
    ensures
        word & 1 == word % 2,
        word & 0xffff_ffff_ffff_fffe == base_version(word),
        word | 1 == entered(word),
{
    assert(word & 1 == word % 2) by (bit_vector);
    assert(word & 0xffff_ffff_ffff_fffe == (word - word % 2) as u64) by (bit_vector);
    assert(word | 1 == ((word - word % 2) as u64 + 1) as u64) by (bit_vector);
}

pub fn exclusive_mask(word: u64) -> (r: u64)
    ensures
        r == word & EXCLUSIVE_BIT,
        r == (if is_exclusive(word) { 1u64 } else { 0u64 }),
{
    proof {
        lemma_bits(word);
    }
    word & EXCLUSIVE_BIT
}

pub fn exclusive_mask_is_set(mask: u64) -> (r: bool)
    ensures
        r == (mask != 0),
{
    mask != 0
}

pub fn version_is_exclusive(word: u64) -> (r: bool)
    ensures
        r == is_exclusive(word),
{
    exclusive_mask_is_set(exclusive_mask(word))
}

pub fn optimistic_snapshot_still_valid(current: u64, snapshot: u64) -> (r: bool)
    ensures
        r == (current == snapshot),
{
    current == snapshot
}

pub fn optimistic_restart_required(current: u64, snapshot: u64) -> (r: bool)
    ensures
        r == (current != snapshot),
{
    !optimistic_snapshot_still_valid(current, snapshot)
}

pub fn enter_exclusive_version(current: u64) -> (r: u64)
    ensures
        r == current | EXCLUSIVE_BIT,
        r == entered(current),
{
    proof {
        lemma_bits(current);
    }
    current | EXCLUSIVE_BIT
}

pub fn exclusive_base_version(exclusive_version: u64) -> (r: u64)
    ensures
        r == exclusive_version & CLEAR_EXCLUSIVE_BIT,
        r == base_version(exclusive_version),
    opens_invariants none
    no_unwind
{
    proof {
        lemma_bits(exclusive_version);
    }
    exclusive_version & CLEAR_EXCLUSIVE_BIT
}

pub fn can_advance_readable_version(version: u64) -> (r: bool)
    ensures
        r == (version + VERSION_STEP <= u64::MAX),
{
    version <= 18_446_744_073_709_551_613
}

pub fn advance_readable_version_checked(version: u64) -> (r: Option<u64>)
    ensures
        r == (if version + VERSION_STEP <= u64::MAX {
            Some((version + VERSION_STEP) as u64)
        } else {
            None
        }),
{
    version.checked_add(VERSION_STEP)
}

/// The next readable version. The version word must have room for it.
pub fn advance_readable_version(version: u64) -> (r: u64)
    requires
        version + VERSION_STEP <= u64::MAX,
    ensures
        r == version + VERSION_STEP,
    opens_invariants none
    no_unwind
{
    version + VERSION_STEP
}

/// The readable version that a writer leaves behind. The terminal version
/// cannot be left.
pub fn exit_exclusive_version(exclusive_version: u64) -> (r: u64)
    requires
        is_exclusive(exclusive_version),
        base_version(exclusive_version) + VERSION_STEP <= u64::MAX,
    ensures
        r == base_version(exclusive_version) + VERSION_STEP,
        !is_exclusive(r),
    opens_invariants none
    no_unwind
{
    let base: u64 = exclusive_base_version(exclusive_version);
    advance_readable_version(base)
}

/// An entered version never allows an optimistic read.
pub fn entered_version_disallows_optimistic_read(current: u64) -> (r: bool)
    ensures
        r == false,
{
    optimistic_read_allowed(enter_exclusive_version(current))
}

pub fn optimistic_read_allowed(version: u64) -> (r: bool)
    ensures
        r == !is_exclusive(version),
{
    !version_is_exclusive(version)
}

/// The snapshot an optimistic reader may take of `version`: the version itself,
/// unless a writer is active.
pub fn optimistic_snapshot(version: u64) -> (r: Option<u64>)
    ensures
        r == (if is_exclusive(version) { None } else { Some(version) }),
{
    if !optimistic_read_allowed(version) {
        None
    } else {
        Some(version)
    }
}

/// One whole exclusive section, entered at a readable version, leaves behind a
/// readable version two higher; while it runs the word is exclusive. So neither
/// the word during the section nor the word after it equals a snapshot taken
/// before.
pub proof fn exclusive_section_invalidates_snapshots(version: u64)
    requires
        !is_exclusive(version),
        version + VERSION_STEP <= u64::MAX,
    ensures
        is_exclusive(entered(version)),
        entered(version) != version,
        base_version(entered(version)) == version,
        base_version(entered(version)) + VERSION_STEP == version + 2,
        !is_exclusive((version + 2) as u64),
        version + 2 != version,
{
}

/// The readable version after `n` exclusive sections in a row that began at
/// `version`.
pub open spec fn after_sections(version: int, n: nat) -> int {
    version + 2 * n
}

/// A snapshot taken at a readable version equals no readable version that the
/// word has after one or more completed exclusive sections: readable versions
/// are never used again.
pub proof fn readable_versions_are_fresh(version: u64, n: nat, m: nat)
    requires
        !is_exclusive(version),
        n < m,
        after_sections(version as int, m) <= u64::MAX,
    ensures
        after_sections(version as int, n) != after_sections(version as int, m),
        !is_exclusive(after_sections(version as int, m) as u64),
{
}

/// Leaving undoes entering up to the step: entering twice is entering once, and
/// the base version survives entry.
pub proof fn entering_keeps_the_base_version(word: u64)
    ensures
        base_version(entered(word)) == base_version(word),
        entered(entered(word)) == entered(word),
        base_version(base_version(word)) == base_version(word),
{
}

} // verus!
