use pagebox::betree::scan::Row;
use pagebox::btree::descent::{
    relinked_edge, Action, Descent, Effect, Event, LeafMode, Seen, Stage, State,
    MAX_OPTIMISTIC_STEPS,
};
use pagebox::btree::edge::{
    parent_edge_from_pos, parent_edge_is_upper, parent_edge_pos, parent_edge_round_trip_pos,
    split_right_parent_uses_upper, split_separator_insert_pos, ParentEdge,
};
use pagebox::btree::evict::{
    eviction_start, EvictionLook, EvictionStage, EvictionStart, EvictionWalk,
    MAX_EVICTION_UNSWIZZLE_RESTARTS,
};
use pagebox::btree::node::Leaf;
use pagebox::btree::retry::{
    path_descent, retry_optimistic_lookup, retry_publish, scan_descent, scan_pauses,
    write_descent, write_pauses, LookupStage, LookupWalk, Offer, Publish, PublishStage, Retry,
};
use pagebox::btree::stats::{BTreeDiagnosticStats, BTreeEvent};
use pagebox::btree::swip::{RoutedChild, Swip, SwizzledInner, SwizzledNode};

fn row(key: &[u8]) -> Row {
    Row { key: key.to_vec(), value: vec![] }
}

fn leaf(keys: &[&[u8]], right: u64) -> SwizzledNode {
    SwizzledNode::Leaf(Leaf { rows: keys.iter().map(|k| row(k)).collect(), left: 0, right })
}

fn inner(separators: &[&[u8]], children: &[Swip]) -> SwizzledInner {
    SwizzledInner {
        separators: separators.iter().map(|s| s.to_vec()).collect(),
        children: children.to_vec(),
    }
}

fn child(swip: Swip, edge: ParentEdge) -> RoutedChild {
    RoutedChild { swip, edge }
}

#[test]
fn edges_and_positions_name_each_other() {
    assert_eq!(parent_edge_from_pos(2, 5), ParentEdge::Slot(2));
    assert_eq!(parent_edge_from_pos(5, 5), ParentEdge::Upper);
    assert_eq!(parent_edge_pos(ParentEdge::Upper, 5), 5);
    assert_eq!(parent_edge_pos(ParentEdge::Slot(3), 5), 3);
    assert!(parent_edge_is_upper(ParentEdge::Upper));
    assert!(!parent_edge_is_upper(ParentEdge::Slot(0)));
    for pos in 0..=5 {
        assert_eq!(parent_edge_round_trip_pos(pos, 5), pos);
    }
}

#[test]
fn split_of_the_last_child_uses_the_upper_edge() {
    assert!(!split_right_parent_uses_upper(4, 5));
    assert!(split_right_parent_uses_upper(5, 5));
    assert_eq!(split_separator_insert_pos(4, 5), 4);
    assert_eq!(split_separator_insert_pos(9, 5), 5);
}

#[test]
fn swips_name_their_page() {
    assert_eq!(Swip::Hot(7).swip_page_id(), 7);
    assert_eq!(Swip::Cool(8).swip_page_id(), 8);
    assert_eq!(Swip::Evicted(9).swip_page_id(), 9);
    assert!(Swip::Hot(7).is_hot() && !Swip::Cool(7).is_hot() && !Swip::Evicted(7).is_hot());
    assert!(Swip::Evicted(7).is_evicted() && !Swip::Cool(7).is_evicted());
}

#[test]
fn separators_are_upper_bounds_of_their_children() {
    let node = inner(&[b"f", b"m"], &[Swip::Hot(1), Swip::Evicted(2), Swip::Cool(3)]);
    let at = |key: &[u8]| node.try_route_to_child(key);
    assert_eq!(at(b"a"), Some(child(Swip::Hot(1), ParentEdge::Slot(0))));
    assert_eq!(at(b"f"), Some(child(Swip::Hot(1), ParentEdge::Slot(0))));
    assert_eq!(at(b"g"), Some(child(Swip::Evicted(2), ParentEdge::Slot(1))));
    assert_eq!(at(b"z"), Some(child(Swip::Cool(3), ParentEdge::Upper)));
    assert_eq!(node.upper_child(), Some(child(Swip::Cool(3), ParentEdge::Upper)));
}

#[test]
fn torn_node_routes_nowhere() {
    let node = inner(&[b"f", b"m"], &[Swip::Hot(1), Swip::Hot(2)]);
    assert_eq!(node.try_route_to_child(b"a"), None);
    assert_eq!(node.upper_child(), None);
    assert_eq!(node.child_edge_for(1), None);
    let mut node = node;
    assert!(!node.unswizzle(1));
    assert_eq!(node.children, vec![Swip::Hot(1), Swip::Hot(2)]);
}

#[test]
fn unswizzled_child_is_found_by_its_id_only() {
    let mut node = inner(&[b"f", b"m"], &[Swip::Hot(1), Swip::Hot(2), Swip::Hot(3)]);
    assert_eq!(node.resident_children(), vec![1, 2, 3]);
    assert_eq!(node.child_edge_for(3), Some(ParentEdge::Upper));
    assert_eq!(node.child_edge_for(4), None);
    assert!(!node.has_evicted_edge(2));
    assert!(node.unswizzle(2));
    assert!(node.has_evicted_edge(2));
    assert_eq!(node.children, vec![Swip::Hot(1), Swip::Evicted(2), Swip::Hot(3)]);
    assert_eq!(node.resident_children(), vec![1, 3]);
    node.set_child_edge_swip(ParentEdge::Upper, Swip::Cool(3));
    assert_eq!(node.children[2], Swip::Cool(3));
    assert!(!node.unswizzle(4));
}

#[test]
fn evicted_children_are_listed_without_page_zero() {
    let node = SwizzledNode::Inner(inner(
        &[b"a", b"b", b"c"],
        &[Swip::Evicted(5), Swip::Hot(6), Swip::Evicted(0), Swip::Evicted(9)],
    ));
    assert_eq!(node.collect_evicted_child_pids(), vec![5, 9]);
    assert_eq!(leaf(&[b"a"], 0).collect_evicted_child_pids(), Vec::<u64>::new());
}

#[test]
fn look_at_a_leaf_tells_whether_to_go_right() {
    let chase = |node: &SwizzledNode, key: &[u8]| match node.look(key) {
        Seen::Leaf { chase, .. } => chase,
        Seen::Inner { .. } => panic!("a leaf"),
    };
    assert!(!chase(&leaf(&[b"a", b"c"], 4), b"c"));
    assert!(chase(&leaf(&[b"a", b"c"], 4), b"d"));
    assert!(!chase(&leaf(&[b"a", b"c"], 0), b"d"));
    assert!(chase(&leaf(&[], 4), b"a"));
    assert_eq!(
        leaf(&[b"a"], 4).look_rightmost(),
        Seen::Leaf { chase: false, empty: false, right: 4 }
    );
    let node = SwizzledNode::Inner(inner(&[b"f"], &[Swip::Hot(1), Swip::Hot(2)]));
    assert_eq!(
        node.look_rightmost(),
        Seen::Inner { route: Some(child(Swip::Hot(2), ParentEdge::Upper)) }
    );
    assert_eq!(
        node.look(b"f"),
        Seen::Inner { route: Some(child(Swip::Hot(1), ParentEdge::Slot(0))) }
    );
}

#[test]
fn optimistic_descent_validates_twice_before_it_enters_a_child() {
    let policy = Descent::Optimistic.policy();
    let routed = child(Swip::Evicted(12), ParentEdge::Slot(1));
    let mut s = policy.start(Swip::Hot(3));
    assert_eq!(policy.action(s), Action::SnapshotRoot);

    s = policy.step(s, Event::Saw(Seen::Inner { route: Some(routed) })).state;
    assert_eq!(policy.action(s), Action::Validate);

    let fetch = policy.step(s, Event::Validated(true));
    assert_eq!(fetch.event, Some(BTreeEvent::ResolveCold));
    s = fetch.state;
    assert_eq!(policy.action(s), Action::Load { pid: 12, wait: true });

    s = policy.step(s, Event::Fetched(true)).state;
    assert_eq!(policy.action(s), Action::Validate);

    let entered = policy.step(s, Event::Validated(true));
    assert_eq!(
        entered.effect,
        Effect::GoChild { child: routed, keep_path: false, swizzle: true, relink: false }
    );
    s = entered.state;
    assert_eq!(s, State { stage: Stage::Look, steps: 1 });

    s = policy.step(s, Event::Saw(Seen::Leaf { chase: false, empty: false, right: 0 })).state;
    assert_eq!(policy.action(s), Action::Stop);
    assert_eq!(policy.step(s, Event::Busy).state, s);
}

#[test]
fn stale_snapshot_starts_the_descent_over() {
    let policy = Descent::ExclusiveWithPath.policy();
    let s = policy.start(Swip::Hot(3));
    assert_eq!(policy.action(s), Action::FixRoot);
    let s = policy.step(s, Event::RootFixed).state;
    assert_eq!(policy.action(s), Action::Snapshot);

    let busy = policy.step(s, Event::Busy);
    assert_eq!(busy.state.stage, Stage::Restart);
    assert_eq!(busy.event, Some(BTreeEvent::SplitPathRestarts));

    let routed = child(Swip::Hot(4), ParentEdge::Upper);
    let s = policy.step(s, Event::Saw(Seen::Inner { route: Some(routed) })).state;
    let stale = policy.step(s, Event::Validated(false));
    assert_eq!(policy.action(stale.state), Action::StartOver);
    assert_eq!(stale.event, Some(BTreeEvent::SplitPathRestarts));
}

#[test]
fn empty_leaf_is_taken_by_the_descent_that_keeps_its_path() {
    let policy = Descent::ExclusiveWithPath.policy();
    let s = State { stage: Stage::Look, steps: 0 };
    let chased = policy.step(s, Event::Saw(Seen::Leaf { chase: true, empty: true, right: 9 }));
    assert_eq!(chased.event, Some(BTreeEvent::LeftChases));
    let s = policy.step(chased.state, Event::Validated(true)).state;
    assert_eq!(policy.action(s), Action::Upgrade);
    assert_eq!(policy.step(s, Event::Upgraded(true)).state.stage, Stage::Found);
    assert_eq!(
        policy.step(s, Event::Upgraded(false)).event,
        Some(BTreeEvent::SplitPathRestarts)
    );

    let s = State { stage: Stage::Look, steps: 0 };
    let s = policy.step(s, Event::Saw(Seen::Leaf { chase: true, empty: false, right: 9 })).state;
    assert_eq!(policy.step(s, Event::Validated(true)).state.stage, Stage::Restart);
}

#[test]
fn fallback_descent_trades_latches_and_chases_right() {
    let policy = Descent::ExclusiveFallback.policy();
    assert_eq!(policy.leaf, LeafMode::Relatch);
    let s = policy.step(policy.start(Swip::Hot(1)), Event::RootFixed).state;
    assert_eq!(policy.action(s), Action::LatchShared);

    let routed = child(Swip::Hot(4), ParentEdge::Slot(0));
    let s = policy.step(s, Event::Saw(Seen::Inner { route: Some(routed) })).state;
    assert_eq!(policy.action(s), Action::Pin { pid: 4, wait: false });
    let entered = policy.step(s, Event::Fetched(true));
    assert_eq!(
        entered.effect,
        Effect::GoChild { child: routed, keep_path: false, swizzle: false, relink: false }
    );

    let s = entered.state;
    let s = policy.step(s, Event::Saw(Seen::Leaf { chase: false, empty: false, right: 6 })).state;
    assert_eq!(policy.action(s), Action::Relatch);
    let right = policy.step(s, Event::Relatched { chase: true, right: 6 });
    assert_eq!(policy.action(right.state), Action::Load { pid: 6, wait: true });
    assert_eq!(policy.step(right.state, Event::Fetched(true)).effect, Effect::GoRight);
    assert_eq!(
        policy.step(s, Event::Relatched { chase: true, right: 0 }).state.stage,
        Stage::Restart
    );
    assert_eq!(
        policy.step(s, Event::Relatched { chase: false, right: 6 }).state.stage,
        Stage::Found
    );
}

#[test]
fn nonblocking_descent_never_waits() {
    let policy = Descent::SharedNonblocking.policy();
    let fetch = |swip: Swip| State {
        stage: Stage::FetchChild { child: child(swip, ParentEdge::Upper), at_root: false },
        steps: 0,
    };
    assert_eq!(policy.action(fetch(Swip::Hot(2))), Action::Pin { pid: 2, wait: false });
    assert_eq!(policy.action(fetch(Swip::Evicted(2))), Action::Load { pid: 2, wait: false });
    let right = State { stage: Stage::FetchRight { right: 5 }, steps: 0 };
    assert_eq!(policy.action(right), Action::Load { pid: 5, wait: false });

    let waiting = Descent::SharedFallback.policy();
    assert_eq!(waiting.action(fetch(Swip::Evicted(2))), Action::Load { pid: 2, wait: true });
}

#[test]
fn limited_descent_gives_up_after_its_looks() {
    let policy = Descent::Optimistic.policy();
    let s = State { stage: Stage::FetchRight { right: 5 }, steps: MAX_OPTIMISTIC_STEPS - 1 };
    let last = policy.step(s, Event::Fetched(true));
    assert_eq!(last.state.stage, Stage::Restart);
    assert_eq!(last.event, Some(BTreeEvent::LeafDescentRestarts));

    let mut s = policy.step(policy.start(Swip::Evicted(1)), Event::RootFixed).state;
    let mut looks = 0;
    while s.stage != Stage::Restart {
        looks += 1;
        s = policy.step(s, Event::Saw(Seen::Leaf { chase: true, empty: false, right: 2 })).state;
        s = policy.step(s, Event::Validated(true)).state;
        s = policy.step(s, Event::Fetched(true)).state;
    }
    assert_eq!(looks, MAX_OPTIMISTIC_STEPS - 1);
}

#[test]
fn loaded_child_is_relinked_where_the_key_leads_to_it() {
    let routed = child(Swip::Hot(4), ParentEdge::Slot(2));
    assert_eq!(relinked_edge(Some(routed), 4), Some(ParentEdge::Slot(2)));
    assert_eq!(relinked_edge(Some(routed), 5), None);
    assert_eq!(relinked_edge(None, 4), None);
}

#[test]
fn writers_fall_back_after_failures() {
    assert_eq!(write_descent(3), Descent::Exclusive);
    assert_eq!(write_descent(4), Descent::ExclusiveFromFixedRoot);
    assert_eq!(write_descent(16), Descent::ExclusiveFallback);
    assert_eq!(path_descent(15), Descent::ExclusiveWithPath);
    assert_eq!(path_descent(16), Descent::ExclusiveWithPathFallback);
    let pauses: Vec<u32> = (0..18).filter(|n| write_pauses(*n)).collect();
    assert_eq!(pauses, vec![3, 7, 11, 15, 16, 17]);
    assert!(write_pauses(u32::MAX));
}

#[test]
fn scans_fall_back_after_failures() {
    assert_eq!(scan_descent(15), Descent::Optimistic);
    assert_eq!(scan_descent(16), Descent::SharedNonblocking);
    assert_eq!(scan_descent(63), Descent::SharedNonblocking);
    assert_eq!(scan_descent(64), Descent::SharedFallback);
    assert!(!scan_pauses(15));
    assert!(scan_pauses(16));
}

#[test]
fn lookups_stop_trying_snapshots() {
    let mut attempts = 0;
    let mut pauses = 0;
    loop {
        match retry_optimistic_lookup(&mut attempts) {
            Retry::Again { pause } => pauses += u32::from(pause),
            Retry::GiveUp => break,
        }
    }
    assert_eq!(attempts, 64);
    assert_eq!(pauses, 15);
}

#[test]
fn split_is_offered_to_the_path_once_and_then_in_rounds() {
    let first = Publish::start();
    assert_eq!(first.stage, PublishStage::Offered(Offer::Path));
    let taken = first.answered(true);
    assert_eq!(taken.next.stage, PublishStage::Taken);
    assert_eq!(taken.event, None);
    let root = first.answered(false);
    assert_eq!(root.next.stage, PublishStage::Offered(Offer::Root));
    assert_eq!((root.event, root.pause), (None, false));
    let search = root.next.answered(false);
    assert_eq!(search.next.stage, PublishStage::Offered(Offer::Search));
    let again = search.next.answered(false);
    assert_eq!(again.next, Publish { stage: PublishStage::Offered(Offer::Root), attempts: 2 });
    assert_eq!(again.event, Some(BTreeEvent::ParentPublishRestarts));
    assert!(!again.pause);
    let late = Publish { stage: PublishStage::Offered(Offer::Search), attempts: 128 };
    assert!(late.answered(false).pause);
    let last = Publish { stage: PublishStage::Offered(Offer::Search), attempts: 100_000 };
    let step = last.answered(false);
    assert_eq!(step.next.stage, PublishStage::Refused);
    assert_eq!(step.event, Some(BTreeEvent::ParentPublishRestarts));
}

#[test]
fn splits_are_offered_until_the_budget_is_spent() {
    assert_eq!(retry_publish(1), Retry::Again { pause: false });
    assert_eq!(retry_publish(64), Retry::Again { pause: true });
    assert_eq!(retry_publish(99_999), Retry::Again { pause: false });
    assert_eq!(retry_publish(100_000), Retry::GiveUp);
}

#[test]
fn lookup_walk_waits_only_without_a_latch() {
    let walk = LookupWalk::start();
    assert_eq!(walk.stage, LookupStage::FixRoot);
    let walk = walk.root_fixed();
    let cold = child(Swip::Evicted(4), ParentEdge::Slot(0));
    let walk = walk.looked(Seen::Inner { route: Some(cold) });
    assert_eq!(walk.stage, LookupStage::FetchChild { child: cold, wait: false });
    let (walk, effect) = walk.fetched(false);
    assert_eq!(effect, Effect::Stay);
    assert_eq!(walk.stage, LookupStage::FetchChild { child: cold, wait: true });
    let (walk, effect) = walk.fetched(true);
    assert_eq!(
        effect,
        Effect::GoChild { child: cold, keep_path: false, swizzle: false, relink: true }
    );
    let walk = walk.looked(Seen::Leaf { chase: true, empty: false, right: 8 });
    assert_eq!(walk.stage, LookupStage::FetchRight { right: 8, wait: false });
    let (waiting, _) = walk.fetched(false);
    assert_eq!(waiting.stage, LookupStage::FetchRight { right: 8, wait: true });
    assert_eq!(waiting.attempts, 1);
    let (walk, effect) = walk.fetched(true);
    assert_eq!(effect, Effect::GoRight);
    let done = walk.looked(Seen::Leaf { chase: false, empty: false, right: 8 });
    assert_eq!(done.stage, LookupStage::Read);
    let none = walk.looked(Seen::Leaf { chase: true, empty: true, right: 0 });
    assert_eq!(none.stage, LookupStage::Absent);
    assert_eq!(walk.looked(Seen::Inner { route: None }).stage, LookupStage::Absent);
}

#[test]
fn lookup_walk_gives_a_resident_child_up_in_the_end() {
    let hot = child(Swip::Hot(4), ParentEdge::Slot(0));
    let mut walk = LookupWalk::start().root_fixed();
    let mut rounds = 0;
    while walk.stage != LookupStage::Absent {
        rounds += 1;
        walk = walk.looked(Seen::Inner { route: Some(hot) }).fetched(false).0;
        if walk.stage == LookupStage::FixRoot {
            walk = walk.root_fixed();
        }
    }
    assert_eq!(rounds, 64);
}

#[test]
fn eviction_begins_at_a_root_in_use() {
    assert_eq!(eviction_start(Swip::Cool(1), 2), EvictionStart::NotFound);
    assert_eq!(eviction_start(Swip::Evicted(1), 2), EvictionStart::NotFound);
    assert_eq!(eviction_start(Swip::Hot(2), 2), EvictionStart::IsRoot);
    assert_eq!(eviction_start(Swip::Hot(1), 2), EvictionStart::Search);
}

#[test]
fn eviction_search_finds_the_edge_below_the_root() {
    let root = SwizzledNode::Inner(inner(&[b"m"], &[Swip::Hot(2), Swip::Hot(3)]));
    let low = SwizzledNode::Inner(inner(&[b"d"], &[Swip::Hot(7), Swip::Evicted(8)]));
    let mut walk = EvictionWalk::start();
    walk.root_pinned(Some(1));
    assert_eq!(walk.stage, EvictionStage::Visit(1));
    assert_eq!(walk.looked(root.look_for(7).unwrap()), None);
    assert_eq!(walk.stage, EvictionStage::CheckRoutes(1));
    assert_eq!(walk.validated(true), None);
    assert_eq!(walk.stage, EvictionStage::Visit(3));
    assert!(leaf(&[b"x"], 0).look_for(7).is_none());
    walk.skipped();
    assert_eq!(walk.stage, EvictionStage::Visit(2));
    assert_eq!(
        walk.looked(low.look_for(7).unwrap()),
        Some(BTreeEvent::EvictionUnswizzleParentHits)
    );
    assert_eq!(walk.validated(true), None);
    assert_eq!(walk.stage, EvictionStage::TakeEdge(2));
    assert_eq!(walk.upgraded(true), None);
    assert_eq!(walk.stage, EvictionStage::Done(true));
    assert_eq!(walk.visited, 3);
}

#[test]
fn eviction_search_ends_where_nothing_is_left() {
    let root = SwizzledNode::Inner(inner(&[b"m"], &[Swip::Evicted(2), Swip::Evicted(3)]));
    let mut walk = EvictionWalk::start();
    walk.root_pinned(Some(1));
    walk.looked(root.look_for(7).unwrap());
    walk.validated(true);
    assert_eq!(walk.stage, EvictionStage::Done(false));

    let mut walk = EvictionWalk::start();
    walk.root_pinned(None);
    assert_eq!(walk.stage, EvictionStage::Done(false));

    let mut walk = EvictionWalk::start();
    walk.root_pinned(Some(1));
    walk.looked(root.look_for(2).unwrap());
    walk.validated(true);
    assert_eq!(
        walk.upgraded(false),
        Some(BTreeEvent::EvictionUnswizzleUpgradeFailures)
    );
    assert_eq!(walk.stage, EvictionStage::Done(false));
}

#[test]
fn eviction_search_begins_again_only_so_often() {
    let mut walk = EvictionWalk::start();
    let mut begun = 0;
    loop {
        walk.root_pinned(Some(1));
        begun += 1;
        if walk.stage == EvictionStage::Done(false) {
            break;
        }
        let torn = EvictionLook {
            hit: false,
            evicted_edge: false,
            routes_ok: false,
            children: vec![],
        };
        assert_eq!(walk.looked(torn), Some(BTreeEvent::EvictionUnswizzleRestarts));
        assert_eq!(walk.stage, EvictionStage::PinRoot);
    }
    assert_eq!(begun, MAX_EVICTION_UNSWIZZLE_RESTARTS + 2);
}

#[test]
fn stale_snapshot_makes_the_search_begin_again() {
    let node = SwizzledNode::Inner(inner(&[b"m"], &[Swip::Hot(2), Swip::Evicted(7)]));
    let mut walk = EvictionWalk::start();
    walk.root_pinned(Some(1));
    walk.looked(node.look_for(7).unwrap());
    assert_eq!(walk.stage, EvictionStage::CheckEdge(1));
    assert_eq!(walk.validated(false), Some(BTreeEvent::EvictionUnswizzleRestarts));
    assert_eq!(walk.stage, EvictionStage::PinRoot);
    assert_eq!(walk.restarts, 1);
    walk.root_pinned(Some(1));
    let mut stats = BTreeDiagnosticStats::default();
    stats.add_visits(&walk);
    stats.add_visits(&walk);
    assert_eq!(stats.eviction_unswizzle_nodes_visited, 4);
}

#[test]
fn diagnostic_counts_follow_the_events() {
    let mut stats = BTreeDiagnosticStats::default();
    stats.inc(BTreeEvent::InsertRestarts);
    stats.inc(BTreeEvent::InsertRestarts);
    stats.inc(BTreeEvent::LeafDescentRestarts);
    stats.inc(BTreeEvent::LeafUpgradeRestarts);
    stats.inc(BTreeEvent::SplitPathRestarts);
    stats.inc(BTreeEvent::ParentPublishRestarts);
    stats.inc(BTreeEvent::ParentFallbacks);
    stats.inc(BTreeEvent::ResolveCold);
    stats.inc(BTreeEvent::EvictionUnswizzleCalls);
    stats.inc(BTreeEvent::EvictionUnswizzleRestarts);
    stats.inc(BTreeEvent::EvictionUnswizzleParentHits);
    stats.inc(BTreeEvent::EvictionUnswizzleUpgradeFailures);
    stats.inc(BTreeEvent::LeafSplits);
    stats.inc(BTreeEvent::InnerSplits);
    stats.inc(BTreeEvent::LeftChases);
    let expected = BTreeDiagnosticStats {
        insert_restarts: 2,
        leaf_descent_restarts: 1,
        leaf_upgrade_restarts: 1,
        split_path_restarts: 1,
        parent_publish_restarts: 1,
        parent_fallbacks: 1,
        resolve_cold: 1,
        eviction_unswizzle_calls: 1,
        eviction_unswizzle_restarts: 1,
        eviction_unswizzle_parent_hits: 1,
        eviction_unswizzle_upgrade_failures: 1,
        eviction_unswizzle_nodes_visited: 0,
    };
    assert_eq!(stats, expected);
    stats.insert_restarts = u64::MAX;
    stats.inc(BTreeEvent::InsertRestarts);
    assert_eq!(stats.insert_restarts, u64::MAX);
}
