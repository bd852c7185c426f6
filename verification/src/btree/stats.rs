//! What the tree counts about its traversals.
use vstd::prelude::*;

use super::evict::EvictionWalk;

verus! {

/// Something worth counting.
#[derive(Clone, Copy, Debug, PartialEq, Eq, Structural)]
pub enum BTreeEvent {
    InsertRestarts,
    LeafDescentRestarts,
    LeafUpgradeRestarts,
    SplitPathRestarts,
    ParentPublishRestarts,
    LeafSplits,
    InnerSplits,
    ParentFallbacks,
    LeftChases,
    ResolveCold,
    EvictionUnswizzleCalls,
    EvictionUnswizzleRestarts,
    EvictionUnswizzleParentHits,
    EvictionUnswizzleUpgradeFailures,
}

/// How often each event has happened, for diagnosis.
#[derive(Clone, Copy, Debug, Eq, PartialEq, Structural)]
pub struct BTreeDiagnosticStats {
    pub insert_restarts: u64,
    pub leaf_descent_restarts: u64,
    pub leaf_upgrade_restarts: u64,
    pub split_path_restarts: u64,
    pub parent_publish_restarts: u64,
    pub parent_fallbacks: u64,
    pub resolve_cold: u64,
    pub eviction_unswizzle_calls: u64,
    pub eviction_unswizzle_restarts: u64,
    pub eviction_unswizzle_parent_hits: u64,
    pub eviction_unswizzle_upgrade_failures: u64,
    pub eviction_unswizzle_nodes_visited: u64,
}

impl Default for BTreeDiagnosticStats {
    fn default() -> (r: Self)
        ensures
            r == no_events(),
    {
        BTreeDiagnosticStats {
            insert_restarts: 0,
            leaf_descent_restarts: 0,
            leaf_upgrade_restarts: 0,
            split_path_restarts: 0,
            parent_publish_restarts: 0,
            parent_fallbacks: 0,
            resolve_cold: 0,
            eviction_unswizzle_calls: 0,
            eviction_unswizzle_restarts: 0,
            eviction_unswizzle_parent_hits: 0,
            eviction_unswizzle_upgrade_failures: 0,
            eviction_unswizzle_nodes_visited: 0,
        }
    }
}

pub open spec fn no_events() -> BTreeDiagnosticStats {
    BTreeDiagnosticStats {
        insert_restarts: 0,
        leaf_descent_restarts: 0,
        leaf_upgrade_restarts: 0,
        split_path_restarts: 0,
        parent_publish_restarts: 0,
        parent_fallbacks: 0,
        resolve_cold: 0,
        eviction_unswizzle_calls: 0,
        eviction_unswizzle_restarts: 0,
        eviction_unswizzle_parent_hits: 0,
        eviction_unswizzle_upgrade_failures: 0,
        eviction_unswizzle_nodes_visited: 0,
    }
}

/// One event more in the count it belongs to. Splits and chases have no count of
/// their own here. A count stays at its maximum.
pub open spec fn counted(stats: BTreeDiagnosticStats, event: BTreeEvent) -> BTreeDiagnosticStats {
    match event {
        BTreeEvent::InsertRestarts => BTreeDiagnosticStats {
            insert_restarts: one_more(stats.insert_restarts),
            ..stats
        },
        BTreeEvent::LeafDescentRestarts => BTreeDiagnosticStats {
            leaf_descent_restarts: one_more(stats.leaf_descent_restarts),
            ..stats
        },
        BTreeEvent::LeafUpgradeRestarts => BTreeDiagnosticStats {
            leaf_upgrade_restarts: one_more(stats.leaf_upgrade_restarts),
            ..stats
        },
        BTreeEvent::SplitPathRestarts => BTreeDiagnosticStats {
            split_path_restarts: one_more(stats.split_path_restarts),
            ..stats
        },
        BTreeEvent::ParentPublishRestarts => BTreeDiagnosticStats {
            parent_publish_restarts: one_more(stats.parent_publish_restarts),
            ..stats
        },
        BTreeEvent::ParentFallbacks => BTreeDiagnosticStats {
            parent_fallbacks: one_more(stats.parent_fallbacks),
            ..stats
        },
        BTreeEvent::ResolveCold => BTreeDiagnosticStats {
            resolve_cold: one_more(stats.resolve_cold),
            ..stats
        },
        BTreeEvent::EvictionUnswizzleCalls => BTreeDiagnosticStats {
            eviction_unswizzle_calls: one_more(stats.eviction_unswizzle_calls),
            ..stats
        },
        BTreeEvent::EvictionUnswizzleRestarts => BTreeDiagnosticStats {
            eviction_unswizzle_restarts: one_more(stats.eviction_unswizzle_restarts),
            ..stats
        },
        BTreeEvent::EvictionUnswizzleParentHits => BTreeDiagnosticStats {
            eviction_unswizzle_parent_hits: one_more(stats.eviction_unswizzle_parent_hits),
            ..stats
        },
        BTreeEvent::EvictionUnswizzleUpgradeFailures => BTreeDiagnosticStats {
            eviction_unswizzle_upgrade_failures: one_more(
                stats.eviction_unswizzle_upgrade_failures,
            ),
            ..stats
        },
        BTreeEvent::LeafSplits | BTreeEvent::InnerSplits | BTreeEvent::LeftChases => stats,
    }
}

/// `count` more nodes visited in searches for the edge of a page. The count stays at
/// its maximum.
pub open spec fn more_visits(stats: BTreeDiagnosticStats, count: u32) -> BTreeDiagnosticStats {
    let n = stats.eviction_unswizzle_nodes_visited + count;
    BTreeDiagnosticStats {
        eviction_unswizzle_nodes_visited: if n > u64::MAX {
            u64::MAX
        } else {
            n as u64
        },
        ..stats
    }
}

pub open spec fn one_more(n: u64) -> u64 {
    if n == u64::MAX {
        n
    } else {
        (n + 1) as u64
    }
}

/// How many events were counted in all.
pub open spec fn events_in(stats: BTreeDiagnosticStats) -> int {
    stats.insert_restarts + stats.leaf_descent_restarts + stats.leaf_upgrade_restarts
        + stats.split_path_restarts + stats.parent_publish_restarts + stats.parent_fallbacks
        + stats.resolve_cold + stats.eviction_unswizzle_calls + stats.eviction_unswizzle_restarts
        + stats.eviction_unswizzle_parent_hits + stats.eviction_unswizzle_upgrade_failures
}

/// Splits and chases are not counted here.
pub open spec fn is_uncounted(event: BTreeEvent) -> bool {
    event is LeafSplits || event is InnerSplits || event is LeftChases
}

/// An event that is counted is counted once, and no two events in the same count: one
/// from the other can be told by the counts.
pub proof fn every_event_has_its_count(a: BTreeEvent, b: BTreeEvent)
    ensures
        events_in(no_events()) == 0,
        events_in(counted(no_events(), a)) == if is_uncounted(a) {
            0int
        } else {
            1
        },
        counted(no_events(), a) == counted(no_events(), b) ==> a == b || (is_uncounted(a)
            && is_uncounted(b)),
        counted(no_events(), BTreeEvent::InsertRestarts).insert_restarts == 1,
        counted(no_events(), BTreeEvent::ResolveCold).resolve_cold == 1,
        counted(no_events(), BTreeEvent::ParentFallbacks).parent_fallbacks == 1,
        counted(no_events(), BTreeEvent::EvictionUnswizzleCalls).eviction_unswizzle_calls == 1,
{
}

/// An event adds one to the counts at most, and nothing to the nodes visited.
pub proof fn events_are_counted_once(stats: BTreeDiagnosticStats, event: BTreeEvent)
    ensures
        events_in(stats) <= events_in(counted(stats, event)) <= events_in(stats) + 1,
        counted(stats, event).eviction_unswizzle_nodes_visited
            == stats.eviction_unswizzle_nodes_visited,
{
}

impl BTreeDiagnosticStats {
    /// Counts the nodes that a search for the edge of a page has visited.
    pub fn add_visits(&mut self, walk: &EvictionWalk)
        ensures
            *final(self) == more_visits(*old(self), walk@.visited),
    {
        self.eviction_unswizzle_nodes_visited =
        self.eviction_unswizzle_nodes_visited.saturating_add(walk.visited as u64);
    }

    /// Counts one event.
    pub fn inc(&mut self, event: BTreeEvent)
        ensures
            *final(self) == counted(*old(self), event),
    {
        match event {
            BTreeEvent::InsertRestarts => {
                self.insert_restarts = self.insert_restarts.saturating_add(1);
            },
            BTreeEvent::LeafDescentRestarts => {
                self.leaf_descent_restarts = self.leaf_descent_restarts.saturating_add(1);
            },
            BTreeEvent::LeafUpgradeRestarts => {
                self.leaf_upgrade_restarts = self.leaf_upgrade_restarts.saturating_add(1);
            },
            BTreeEvent::SplitPathRestarts => {
                self.split_path_restarts = self.split_path_restarts.saturating_add(1);
            },
            BTreeEvent::ParentPublishRestarts => {
                self.parent_publish_restarts = self.parent_publish_restarts.saturating_add(1);
            },
            BTreeEvent::ParentFallbacks => {
                self.parent_fallbacks = self.parent_fallbacks.saturating_add(1);
            },
            BTreeEvent::ResolveCold => {
                self.resolve_cold = self.resolve_cold.saturating_add(1);
            },
            BTreeEvent::EvictionUnswizzleCalls => {
                self.eviction_unswizzle_calls = self.eviction_unswizzle_calls.saturating_add(1);
            },
            BTreeEvent::EvictionUnswizzleRestarts => {
                self.eviction_unswizzle_restarts =
                self.eviction_unswizzle_restarts.saturating_add(1);
            },
            BTreeEvent::EvictionUnswizzleParentHits => {
                self.eviction_unswizzle_parent_hits =
                self.eviction_unswizzle_parent_hits.saturating_add(1);
            },
            BTreeEvent::EvictionUnswizzleUpgradeFailures => {
                self.eviction_unswizzle_upgrade_failures =
                self.eviction_unswizzle_upgrade_failures.saturating_add(1);
            },
            BTreeEvent::LeafSplits | BTreeEvent::InnerSplits | BTreeEvent::LeftChases => {},
        }
    }
}

} // verus!
