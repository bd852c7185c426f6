//! What holds of the statistics of waits.
use vstd::prelude::*;

use crate::latch_waits;
use crate::latch_waits::LatchWaitRegistry;
use crate::latch_waits::LatchWaitSite;
use crate::latch_waits::SiteStats;

verus! {

/// The sites at the top are those that waited longest in all, the longest first, and
/// of those that waited as long the ones that waited more often come first. No site that
/// was left out waited longer than one of them.
pub proof fn top_sites_waited_longest(
    registry: &LatchWaitRegistry,
    limit: usize,
    r: Vec<LatchWaitSite>,
)
    requires
        call_ensures(LatchWaitRegistry::top_latch_wait_sites, (registry, limit), r),
    ensures
        r@.len() <= limit,
        forall|i: int, j: int|
            #![trigger r@[i], r@[j]]
            0 <= i < j < r@.len() ==> r@[i].total_wait_ns > r@[j].total_wait_ns || (
            r@[i].total_wait_ns == r@[j].total_wait_ns && r@[i].contended_acquires
                >= r@[j].contended_acquires),
        forall|s: LatchWaitSite, i: int|
            #![trigger s.key(), r@[i]]
            registry@.contains_key(s.key()) && registry@[s.key()] == s.stats()
                && !latch_waits::by_site(r@).contains_key(s.key()) && 0 <= i < r@.len()
                ==> s.total_wait_ns <= r@[i].total_wait_ns,
        forall|i: int|
            0 <= i < r@.len() ==> registry@.contains_key((#[trigger] r@[i]).key())
                && registry@[r@[i].key()].total_wait_ns == r@[i].total_wait_ns
                && registry@[r@[i].key()].max_wait_ns == r@[i].max_wait_ns
                && registry@[r@[i].key()].contended_acquires == r@[i].contended_acquires,
{
    assert forall|i: int, j: int|
        #![trigger r@[i], r@[j]]
        0 <= i < j < r@.len() implies r@[i].total_wait_ns > r@[j].total_wait_ns || (
    r@[i].total_wait_ns == r@[j].total_wait_ns && r@[i].contended_acquires
        >= r@[j].contended_acquires) by {
        assert(!r@[j].ranks_before(&r@[i]));
    }
    assert forall|s: LatchWaitSite, i: int|
        #![trigger s.key(), r@[i]]
        registry@.contains_key(s.key()) && registry@[s.key()] == s.stats()
            && !latch_waits::by_site(r@).contains_key(s.key()) && 0 <= i < r@.len() implies
        s.total_wait_ns <= r@[i].total_wait_ns by {
        assert(!s.ranks_before(&r@[i]));
    }
}

/// The statistics after two waits do not depend on which came first: two more waits,
/// longer in all by both, and at most as long as the longest. Counters stop at their
/// maximum.
pub proof fn waits_add_up(stats: SiteStats, a: u64, b: u64)
    ensures
        ({
            let ab = latch_waits::one_more_wait(latch_waits::one_more_wait(stats, a), b);
            let ba = latch_waits::one_more_wait(latch_waits::one_more_wait(stats, b), a);
            &&& ab == ba
            &&& stats.contended_acquires + 2 <= u64::MAX ==> ab.contended_acquires
                == stats.contended_acquires + 2
            &&& stats.total_wait_ns + a + b <= u64::MAX ==> ab.total_wait_ns == stats.total_wait_ns
                + a + b
            &&& stats.total_wait_ns + a + b > u64::MAX ==> ab.total_wait_ns == u64::MAX
            &&& ab.max_wait_ns >= a && ab.max_wait_ns >= b && ab.max_wait_ns >= stats.max_wait_ns
            &&& ab.max_wait_ns == a || ab.max_wait_ns == b || ab.max_wait_ns == stats.max_wait_ns
        }),
{
}

} // verus!
