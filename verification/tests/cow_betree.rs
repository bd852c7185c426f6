use std::collections::BTreeMap;

use pagebox::betree::config::CowBeTreeConfig;
use pagebox::betree::leaf_append::append_leaf_entry_batch;
use pagebox::betree::message::{BufferedMessage, CowBeTreeMessage};
use pagebox::betree::node::{NodePage, PageKindDebug};
use pagebox::betree::pool::PagePool;
use pagebox::betree::scan::Bound;
use pagebox::betree::tree::{CowBeTree, CowBeTreeGcCursor};

type ModelVersions = Vec<(u64, Option<Vec<u8>>)>;
type VersionModel = BTreeMap<Vec<u8>, ModelVersions>;

fn root_buffer_len(pool: &PagePool, tree: &CowBeTree) -> usize {
    match pool.read_node(tree.root_page_id()).unwrap() {
        NodePage::Internal { buffer, .. } => buffer.len(),
        NodePage::Leaf { .. } => 0,
    }
}

fn tiny_config() -> CowBeTreeConfig {
    CowBeTreeConfig {
        flush_threshold_messages: 8,
        flush_threshold_bytes: 512,
        max_leaf_entries: 4,
        max_internal_children: 4,
        merge_leaf_entries: 16,
        merge_internal_children: 8,
    }
}

#[test]
fn default_config_derives_fanout_and_flush_budget_from_page_size() {
    let config = CowBeTreeConfig::default();

    assert_eq!(
        config.max_internal_children, 8,
        "64 KiB pages should derive a bounded epsilon-style fanout"
    );
    assert_eq!(
        config.flush_threshold_bytes,
        16 * 1024,
        "64 KiB pages should use a bounded batch flush budget"
    );
    assert_eq!(
        config.flush_threshold_messages, 256,
        "message threshold should be derived from the byte flush budget"
    );
}

fn be_key(n: u16) -> [u8; 2] {
    n.to_be_bytes()
}

fn visible_model(model: &VersionModel, key: &[u8], read_ts: u64) -> Option<Vec<u8>> {
    model.get(key).and_then(|versions| {
        versions
            .iter()
            .find(|(commit_ts, _)| *commit_ts <= read_ts)
            .and_then(|(_, value)| value.clone())
    })
}

#[test]
fn root_buffered_writes_do_not_rebuild_leaves_before_flush_threshold() {
    let mut pool = PagePool::new();
    let mut tree = CowBeTree::with_config(&mut pool, tiny_config());

    for i in 0u16..5 {
        tree.put(&mut pool, &be_key(i), 1, &be_key(i)).unwrap();
    }
    assert_eq!(
        tree.debug_snapshot(&pool).root_kind,
        Some(PageKindDebug::Internal),
        "five inserts with max_leaf_entries=4 should split the root leaf"
    );
    let _fork = tree.fork(&mut pool).unwrap();

    let before = tree.debug_snapshot(&pool);
    for i in 20u16..24 {
        tree.put(&mut pool, &be_key(i), 2, &be_key(i)).unwrap();
    }

    let debug = tree.debug_snapshot(&pool);
    assert_eq!(
        debug.leaf_entries, before.leaf_entries,
        "below-threshold writes must stay in the internal message buffer"
    );
    assert_eq!(
        root_buffer_len(&pool, &tree),
        4,
        "writes to an internal root should append logical messages"
    );
    assert_eq!(
        debug.buffered_messages, 4,
        "debug snapshot should expose buffered path messages"
    );
    for i in 20u16..24 {
        assert_eq!(
            tree.lookup(&pool, &be_key(i)).as_deref(),
            Some(&be_key(i)[..]),
            "lookup must merge root-buffer messages before they reach leaves"
        );
    }
}

#[test]
fn page_local_leaf_rewrites_existing_keys_without_root_buffering() {
    let mut pool = PagePool::new();
    let mut tree = CowBeTree::with_config(&mut pool, tiny_config());

    for i in 0u16..5 {
        tree.put(&mut pool, &be_key(i), 10, &be_key(i)).unwrap();
    }
    assert_eq!(
        tree.debug_snapshot(&pool).root_kind,
        Some(PageKindDebug::Internal),
        "test setup should create an internal root before page-local updates"
    );

    let before = tree.debug_snapshot(&pool);
    pool.take_dirty();
    for commit_ts in 20u64..24 {
        tree.put(&mut pool, &be_key(1), commit_ts, &[commit_ts as u8]).unwrap();
    }

    let after = tree.debug_snapshot(&pool);
    let rewritten = pool.take_dirty();
    assert_eq!(
        after.buffered_messages, before.buffered_messages,
        "existing-key updates should rewrite the target leaf without appending to the root buffer"
    );
    assert_eq!(after.leaf_entries, before.leaf_entries);
    assert_eq!(
        rewritten.len(),
        4,
        "each same-key update should rewrite only its target leaf page"
    );
    for page in &rewritten {
        assert_eq!(page.pid, rewritten[0].pid);
        assert_ne!(page.pid, tree.root_page_id());
    }
    assert_eq!(
        tree.lookup(&pool, &be_key(1)),
        Some(vec![23]),
        "latest page-local leaf rewrite should be visible"
    );
    assert_eq!(
        tree.lookup_visible(&pool, &be_key(1), 10).as_deref(),
        Some(&be_key(1)[..]),
        "page-local leaf rewrite should retain older MVCC versions"
    );
}

#[test]
fn page_local_leaf_path_buffers_new_non_append_keys() {
    let mut pool = PagePool::new();
    let mut tree = CowBeTree::with_config(&mut pool, tiny_config());

    for key in [b"a", b"c", b"e", b"g", b"i"] {
        tree.put(&mut pool, key, 10, key).unwrap();
    }
    assert_eq!(
        tree.debug_snapshot(&pool).root_kind,
        Some(PageKindDebug::Internal),
        "test setup should create an internal root before the non-append insert"
    );

    let before = tree.debug_snapshot(&pool);
    pool.take_dirty();
    tree.put(&mut pool, b"b", 20, b"buffered").unwrap();

    let after = tree.debug_snapshot(&pool);
    let changed = pool.take_dirty();
    assert_eq!(changed.len(), 1, "only the buffer of the root should change");
    assert_eq!(changed[0].pid, tree.root_page_id());
    assert_eq!(
        after.leaf_entries, before.leaf_entries,
        "new non-append keys should stay on the buffered path instead of rewriting a leaf"
    );
    assert_eq!(
        after.buffered_messages - before.buffered_messages,
        1,
        "height-one inserts that cannot append to a leaf should buffer at the root"
    );
    assert_eq!(root_buffer_len(&pool, &tree), 1);

    assert_eq!(
        tree.lookup(&pool, b"b").as_deref(),
        Some(&b"buffered"[..]),
        "lookup should merge the buffered non-append insert"
    );
}

#[test]
fn insert_new_message_buffers_new_non_append_keys() {
    let mut pool = PagePool::new();
    let mut tree = CowBeTree::with_config(&mut pool, tiny_config());

    for key in [b"a", b"c", b"e", b"g", b"i"] {
        tree.insert_new_message(&mut pool, CowBeTreeMessage::put_version(key.to_vec(), 10, key.to_vec()))
            .unwrap();
    }
    assert_eq!(
        tree.debug_snapshot(&pool).root_kind,
        Some(PageKindDebug::Internal),
        "test setup should create an internal root before the non-append insert"
    );

    let before = tree.debug_snapshot(&pool);
    pool.take_dirty();
    tree.insert_new_message(&mut pool, CowBeTreeMessage::put_version(b"b".to_vec(), 20, b"buffered".to_vec()))
        .unwrap();

    let after = tree.debug_snapshot(&pool);
    let changed = pool.take_dirty();
    assert_eq!(changed.len(), 1, "only the buffer of the root should change");
    assert_eq!(changed[0].pid, tree.root_page_id());
    assert_eq!(
        after.leaf_entries, before.leaf_entries,
        "new non-append keys should stay on the buffered path instead of rewriting a leaf"
    );
    assert_eq!(
        after.buffered_messages - before.buffered_messages,
        1,
        "height-one inserts that cannot append to a leaf should buffer at the root"
    );
    assert_eq!(root_buffer_len(&pool, &tree), 1);

    assert_eq!(
        tree.lookup(&pool, b"b").as_deref(),
        Some(&b"buffered"[..]),
        "lookup should merge the insert-new buffered message"
    );
}

#[test]
fn page_local_child_internal_buffer_bypasses_root_buffer() {
    let mut pool = PagePool::new();
    let config = CowBeTreeConfig {
        flush_threshold_messages: 8,
        flush_threshold_bytes: 512,
        max_leaf_entries: 3,
        max_internal_children: 3,
        merge_leaf_entries: 16,
        merge_internal_children: 8,
    };
    let mut tree = CowBeTree::with_config(&mut pool, config);

    for i in 0u16..96 {
        tree.put(&mut pool, &be_key(i), i as u64, &be_key(i)).unwrap();
    }
    tree.flush_all(&mut pool).unwrap();
    assert!(
        tree.debug_snapshot(&pool).height >= 2,
        "test setup should create an internal child below the root"
    );

    let before = tree.debug_snapshot(&pool);
    pool.take_dirty();
    tree.put(&mut pool, &be_key(42), 100, b"buffered").unwrap();

    let after = tree.debug_snapshot(&pool);
    let changed = pool.take_dirty();
    assert_eq!(changed.len(), 1, "only the child internal page should change");
    assert_ne!(changed[0].pid, tree.root_page_id());
    assert_eq!(
        root_buffer_len(&pool, &tree),
        0,
        "page-local routing should not append to the root buffer when a child internal page can buffer"
    );
    assert_eq!(
        after.buffered_messages - before.buffered_messages,
        1,
        "the routed child internal page should receive the buffered update"
    );
    assert_eq!(
        after.leaf_entries, before.leaf_entries,
        "buffering in the child internal page should avoid a leaf rebuild"
    );

    assert_eq!(
        tree.lookup(&pool, &be_key(42)).as_deref(),
        Some(&b"buffered"[..]),
        "lookup should merge the child internal buffer update"
    );
}

#[test]
fn ordered_leaf_writes_use_raw_append_before_split() {
    let mut pool = PagePool::new();
    let mut tree = CowBeTree::with_config(&mut pool, tiny_config());

    for i in 0u16..3 {
        let root = tree.root_page_id();
        let mut expected = pool.copy_page(root);
        let message = BufferedMessage::put(&be_key(i), 1, &be_key(i));
        let appended =
            append_leaf_entry_batch(&mut expected, &[message], tiny_config().max_leaf_entries);
        assert!(
            matches!(appended, Ok(Some(_))),
            "ordered leaf writes should append entries without full leaf rewrites"
        );
        tree.put(&mut pool, &be_key(i), 1, &be_key(i)).unwrap();
        assert_eq!(pool.copy_page(root), expected);
    }

    assert_eq!(
        tree.debug_snapshot(&pool).root_kind,
        Some(PageKindDebug::Leaf),
        "test setup should remain below the leaf split threshold"
    );
    for i in 0u16..3 {
        assert_eq!(
            tree.lookup(&pool, &be_key(i)).as_deref(),
            Some(&be_key(i)[..]),
            "raw leaf append should preserve lookup for key {i}"
        );
    }
}

#[test]
fn ordinary_writes_keep_root_page_until_explicit_fork_divergence() {
    let mut pool = PagePool::new();
    let mut tree = CowBeTree::with_config(&mut pool, tiny_config());
    let root_pid = tree.root_page_id();

    for i in 0u16..24 {
        tree.put(&mut pool, &be_key(i), 1, &be_key(i)).unwrap();
    }

    assert_eq!(
        tree.root_page_id(),
        root_pid,
        "normal writes and root splits should rewrite the root page in place"
    );
}

#[test]
fn explicit_fork_preserves_snapshot_until_each_tree_mutates() {
    let mut pool = PagePool::new();
    let config = CowBeTreeConfig {
        flush_threshold_messages: 3,
        ..tiny_config()
    };
    let mut tree = CowBeTree::with_config(&mut pool, config);

    for i in 0u16..8 {
        tree.put(&mut pool, &be_key(i), 10, &be_key(i)).unwrap();
    }

    let mut fork = tree.fork(&mut pool).unwrap();
    let shared_root = fork.root_page_id();
    assert_eq!(tree.root_page_id(), shared_root);
    tree.put(&mut pool, &be_key(1), 20, b"primary").unwrap();
    assert_ne!(
        tree.root_page_id(),
        fork.root_page_id(),
        "first post-fork write should copy at least the shared root"
    );
    for i in 30u16..35 {
        tree.put(&mut pool, &be_key(i), 20, &be_key(i)).unwrap();
    }

    assert_eq!(
        fork.lookup(&pool, &be_key(1)).as_deref(),
        Some(&be_key(1)[..]),
        "fork should keep the pre-divergence version of an updated key"
    );
    assert_eq!(
        fork.lookup(&pool, &be_key(30)),
        None,
        "fork should not see keys inserted after it was created"
    );
    assert_eq!(
        tree.lookup(&pool, &be_key(1)).as_deref(),
        Some(&b"primary"[..]),
        "mutating the original should install its own visible version"
    );

    fork.put(&mut pool, &be_key(1), 30, b"fork").unwrap();
    assert_eq!(
        fork.lookup(&pool, &be_key(1)).as_deref(),
        Some(&b"fork"[..]),
        "fork should be independently mutable after divergence"
    );
    assert_eq!(
        tree.lookup(&pool, &be_key(1)).as_deref(),
        Some(&b"primary"[..]),
        "fork mutation should not alter the original tree"
    );
}

#[test]
fn flush_threshold_flushes_largest_child_batch_and_keeps_other_messages_buffered() {
    let mut pool = PagePool::new();
    let config = CowBeTreeConfig {
        flush_threshold_messages: 4,
        ..tiny_config()
    };
    let mut tree = CowBeTree::with_config(&mut pool, config);

    for i in 0u16..5 {
        tree.put(&mut pool, &be_key(i), 1, &be_key(i)).unwrap();
    }
    let _fork = tree.fork(&mut pool).unwrap();
    let before = tree.debug_snapshot(&pool);
    for i in [30u16, 1, 31, 32] {
        tree.put(&mut pool, &be_key(i), 2, &be_key(i)).unwrap();
    }

    let debug = tree.debug_snapshot(&pool);
    assert_eq!(
        debug.leaf_entries - before.leaf_entries,
        3,
        "flush should choose the child with the largest pending batch across append order"
    );
    assert_eq!(
        debug.buffered_messages, 1,
        "non-selected child messages should remain buffered on the parent"
    );
    for i in [1u16, 30, 31, 32] {
        assert_eq!(
            tree.lookup(&pool, &be_key(i)).as_deref(),
            Some(&be_key(i)[..]),
            "largest-child flush should preserve message visibility for key {i}"
        );
    }
}

#[test]
fn threshold_flush_batches_ordered_leaf_appends_by_child() {
    let mut pool = PagePool::new();
    let config = CowBeTreeConfig {
        flush_threshold_messages: 3,
        flush_threshold_bytes: 512,
        max_leaf_entries: 8,
        max_internal_children: 8,
        merge_leaf_entries: 16,
        merge_internal_children: 8,
    };
    let mut tree = CowBeTree::with_config(&mut pool, config);

    for i in 0u16..9 {
        tree.put(&mut pool, &be_key(i), 1, &be_key(i)).unwrap();
    }
    assert_eq!(
        tree.debug_snapshot(&pool).root_kind,
        Some(PageKindDebug::Internal),
        "test setup should create an internal root before buffering"
    );
    let _fork = tree.fork(&mut pool).unwrap();

    let before = tree.debug_snapshot(&pool);
    for i in 9u16..12 {
        tree.put(&mut pool, &be_key(i), 2, &be_key(i)).unwrap();
    }

    let after = tree.debug_snapshot(&pool);
    assert_eq!(
        after.buffered_messages, 0,
        "third buffered write should force a root flush"
    );
    assert_eq!(
        after.leaf_entries - before.leaf_entries,
        3,
        "flush should append all same-child ordered messages to the leaf"
    );

    for i in 9u16..12 {
        assert_eq!(
            tree.lookup(&pool, &be_key(i)).as_deref(),
            Some(&be_key(i)[..]),
            "batched flush should preserve lookup for key {i}"
        );
    }
}

#[test]
fn same_path_flush_batch_rewrites_target_leaf_without_buffering_each_level() {
    let mut pool = PagePool::new();
    let config = CowBeTreeConfig {
        flush_threshold_messages: 4,
        flush_threshold_bytes: 512,
        max_leaf_entries: 3,
        max_internal_children: 3,
        merge_leaf_entries: 16,
        merge_internal_children: 8,
    };
    let mut tree = CowBeTree::with_config(&mut pool, config);

    for i in 0u16..96 {
        tree.put(&mut pool, &be_key(i), i as u64, &be_key(i)).unwrap();
    }
    tree.flush_all(&mut pool).unwrap();
    assert!(
        tree.debug_snapshot(&pool).height >= 2,
        "test setup should create an internal child below the root"
    );

    let _fork = tree.fork(&mut pool).unwrap();
    for commit_ts in 100u64..104 {
        tree.put(&mut pool, &be_key(42), commit_ts, &[commit_ts as u8])
            .unwrap();
    }

    assert_eq!(
        tree.debug_snapshot(&pool).buffered_messages,
        0,
        "same-path batch should be applied at the target leaf in one flush mode"
    );
    assert_eq!(
        tree.lookup(&pool, &be_key(42)),
        Some(vec![103]),
        "latest hot-key version should be visible after direct leaf flush"
    );
    assert_eq!(
        tree.lookup_visible(&pool, &be_key(42), 99).as_deref(),
        Some(&be_key(42)[..]),
        "direct leaf flush must preserve older MVCC snapshots"
    );
}

#[test]
fn path_buffer_versions_participate_in_mvcc_visibility() {
    let mut pool = PagePool::new();
    let mut tree = CowBeTree::with_config(&mut pool, tiny_config());

    for i in 0u16..5 {
        tree.put(&mut pool, &be_key(i), 10, &be_key(i)).unwrap();
    }
    tree.put(&mut pool, &be_key(1), 20, b"new").unwrap();
    tree.remove_at(&mut pool, &be_key(2), 30).unwrap();

    assert_eq!(
        tree.lookup_visible(&pool, &be_key(1), 19).as_deref(),
        Some(&be_key(1)[..]),
        "old leaf version remains visible before the buffered update"
    );
    assert_eq!(
        tree.lookup_visible(&pool, &be_key(1), 20).as_deref(),
        Some(&b"new"[..]),
        "buffered update should win at its commit timestamp"
    );
    assert_eq!(
        tree.lookup_visible(&pool, &be_key(2), 29).as_deref(),
        Some(&be_key(2)[..]),
        "delete tombstone should not hide earlier snapshots"
    );
    assert_eq!(
        tree.lookup_visible(&pool, &be_key(2), 30),
        None,
        "buffered delete should hide the row at its commit timestamp"
    );
}

#[test]
fn prune_versions_keeps_watermark_floor_and_latest_versions() {
    let mut pool = PagePool::new();
    let mut tree = CowBeTree::with_config(&mut pool, tiny_config());

    tree.put(&mut pool, b"hot", 10, b"v10").unwrap();
    tree.put(&mut pool, b"hot", 20, b"v20").unwrap();
    tree.put(&mut pool, b"hot", 30, b"v30").unwrap();

    let first = tree.prune_versions(&mut pool, 25).unwrap();
    assert_eq!(
        first.versions_pruned, 1,
        "GC should remove versions older than the retained watermark floor"
    );
    assert_eq!(
        tree.lookup_visible(&pool, b"hot", 10),
        None,
        "snapshots older than the GC watermark are no longer retained"
    );
    assert_eq!(
        tree.lookup_visible(&pool, b"hot", 25).as_deref(),
        Some(&b"v20"[..]),
        "the newest version at or below the watermark must be retained"
    );
    assert_eq!(
        tree.lookup_visible(&pool, b"hot", 30).as_deref(),
        Some(&b"v30"[..]),
        "versions newer than the watermark must be retained"
    );

    let second = tree.prune_versions(&mut pool, 40).unwrap();
    assert_eq!(
        second.versions_pruned, 1,
        "a later watermark should prune the previously retained floor"
    );
    assert_eq!(
        tree.lookup_visible(&pool, b"hot", 25),
        None,
        "the old floor should be gone once the watermark advances"
    );
    assert_eq!(
        tree.lookup_visible(&pool, b"hot", 40).as_deref(),
        Some(&b"v30"[..]),
        "GC must keep the latest committed version for current readers"
    );

}

#[test]
fn prune_versions_flushes_path_buffers_before_reclaiming() {
    let mut pool = PagePool::new();
    let mut tree = CowBeTree::with_config(&mut pool, tiny_config());

    for i in 0u16..8 {
        tree.put(&mut pool, &be_key(i), 10, &be_key(i)).unwrap();
    }
    tree.flush_all(&mut pool).unwrap();
    assert_eq!(
        tree.debug_snapshot(&pool).root_kind,
        Some(PageKindDebug::Internal),
        "test setup should have an internal root with child leaves"
    );

    let _fork = tree.fork(&mut pool).unwrap();
    let buffered_key = be_key(100);
    tree.put(&mut pool, &buffered_key, 10, b"old").unwrap();
    tree.put(&mut pool, &buffered_key, 20, b"new").unwrap();
    assert!(
        tree.debug_snapshot(&pool).buffered_messages >= 2,
        "test setup should retain updates in an internal path buffer"
    );
    assert_eq!(
        tree.lookup_visible(&pool, &buffered_key, 10).as_deref(),
        Some(&b"old"[..]),
        "path-buffered versions should be visible before GC"
    );

    let result = tree.prune_versions(&mut pool, 25).unwrap();
    assert_eq!(
        result.versions_pruned, 1,
        "GC should flush path buffers and prune obsolete buffered history"
    );
    assert_eq!(
        tree.debug_snapshot(&pool).buffered_messages,
        0,
        "GC should leave no path buffers behind after its full flush"
    );
    assert_eq!(
        tree.lookup_visible(&pool, &buffered_key, 10),
        None,
        "obsolete buffered history should be gone after GC"
    );
    assert_eq!(
        tree.lookup_visible(&pool, &buffered_key, 25).as_deref(),
        Some(&b"new"[..]),
        "the retained floor version should remain visible at the watermark"
    );
}

#[test]
fn prune_versions_incremental_advances_leaf_cursor_with_budget() {
    let mut pool = PagePool::new();
    let mut tree = CowBeTree::with_config(&mut pool, tiny_config());

    for i in 0u16..16 {
        tree.put(&mut pool, &be_key(i), 10, b"old").unwrap();
    }
    for i in 0u16..16 {
        tree.put(&mut pool, &be_key(i), 20, b"new").unwrap();
    }
    tree.flush_all(&mut pool).unwrap();
    assert!(
        tree.debug_snapshot(&pool).leaf_pages > 1,
        "test setup should spread rows across multiple leaves"
    );

    let mut cursor = CowBeTreeGcCursor::default();
    let first = tree.prune_versions_incremental(&mut pool, 25, &mut cursor, 1).unwrap();
    assert_eq!(
        first.leaf_pages_visited, 1,
        "one-leaf budget should visit exactly one leaf"
    );
    assert!(
        first.budget_exhausted,
        "first pass should stop because the leaf budget was consumed"
    );
    assert!(
        cursor.next_key().is_some(),
        "incremental GC should publish a resume key after a partial pass"
    );
    assert!(
        first.versions_pruned > 0,
        "visited leaf should prune obsolete row versions"
    );

    let mut total_pruned = first.versions_pruned;
    let mut passes = 1usize;
    while cursor.next_key().is_some() {
        let pass = tree.prune_versions_incremental(&mut pool, 25, &mut cursor, 1).unwrap();
        assert!(
            pass.leaf_pages_visited <= 1,
            "incremental GC must honour the one-leaf budget"
        );
        total_pruned += pass.versions_pruned;
        passes += 1;
        assert!(passes < 16, "cursor should wrap after walking the leaf set");
    }

    assert!(passes > 1, "GC work should be split across multiple passes");
    assert_eq!(
        total_pruned, 16,
        "one obsolete version per key should be reclaimed across the full cycle"
    );
    for i in 0u16..16 {
        assert_eq!(
            tree.lookup_visible(&pool, &be_key(i), 10),
            None,
            "obsolete snapshot should be gone for key {i}"
        );
        assert_eq!(
            tree.lookup_visible(&pool, &be_key(i), 25).as_deref(),
            Some(&b"new"[..]),
            "latest retained version should remain visible for key {i}"
        );
    }
}

#[test]
fn prune_versions_incremental_drains_path_buffers_before_reclaiming() {
    let mut pool = PagePool::new();
    let mut tree = CowBeTree::with_config(&mut pool, tiny_config());

    for i in 0u16..8 {
        tree.put(&mut pool, &be_key(i), 10, &be_key(i)).unwrap();
    }
    tree.flush_all(&mut pool).unwrap();
    assert_eq!(
        tree.debug_snapshot(&pool).root_kind,
        Some(PageKindDebug::Internal),
        "test setup should have an internal root"
    );

    let _fork = tree.fork(&mut pool).unwrap();
    let buffered_key = be_key(100);
    tree.put(&mut pool, &buffered_key, 10, b"old").unwrap();
    tree.put(&mut pool, &buffered_key, 20, b"new").unwrap();
    assert!(
        tree.debug_snapshot(&pool).buffered_messages >= 2,
        "test setup should retain versions in a path buffer"
    );

    let mut cursor = CowBeTreeGcCursor::default();
    let mut total_pruned = 0usize;
    for _ in 0..16 {
        let pass = tree.prune_versions_incremental(&mut pool, 25, &mut cursor, 1).unwrap();
        total_pruned += pass.versions_pruned;
        if total_pruned > 0 && cursor.next_key().is_none() {
            break;
        }
    }

    assert_eq!(
        total_pruned, 1,
        "incremental GC should flush the buffered hot key and reclaim obsolete history"
    );
    assert_eq!(
        tree.debug_snapshot(&pool).buffered_messages,
        0,
        "incremental GC should drain the relevant path buffer"
    );
    assert_eq!(
        tree.lookup_visible(&pool, &buffered_key, 10),
        None,
        "old buffered version should be reclaimed after the watermark"
    );
    assert_eq!(
        tree.lookup_visible(&pool, &buffered_key, 25).as_deref(),
        Some(&b"new"[..]),
        "retained watermark floor should remain visible"
    );
}

#[test]
fn leaf_and_internal_splits_publish_separators_and_keep_scan_order() {
    let mut pool = PagePool::new();
    let config = CowBeTreeConfig {
        flush_threshold_messages: 3,
        max_leaf_entries: 3,
        max_internal_children: 3,
        merge_leaf_entries: 16,
        merge_internal_children: 8,
        ..CowBeTreeConfig::default()
    };
    let mut tree = CowBeTree::with_config(&mut pool, config);

    for i in 0u16..80 {
        tree.put(&mut pool, &be_key(i), i as u64, &be_key(i)).unwrap();
    }
    tree.flush_all(&mut pool).unwrap();

    let debug = tree.debug_snapshot(&pool);
    assert!(
        debug.height >= 2,
        "internal splits should create a multi-level tree"
    );

    let scanned = tree
        .scan_range(
            &pool,
            Bound::Included(&be_key(10)[..]),
            Bound::Excluded(&be_key(21)[..]),
        )
        .into_iter()
        .map(|row| (row.key, row.value))
        .collect::<Vec<_>>();
    let expected = (10u16..21)
        .map(|i| (be_key(i).to_vec(), be_key(i).to_vec()))
        .collect::<Vec<_>>();
    assert_eq!(
        scanned, expected,
        "range scan must remain sorted across splits"
    );
}

#[test]
fn compact_merges_leaf_siblings_and_collapses_single_child_root() {
    let mut pool = PagePool::new();
    let mut tree = CowBeTree::with_config(&mut pool, tiny_config());

    for i in 0u16..8 {
        tree.put(&mut pool, &be_key(i), 1, &be_key(i)).unwrap();
    }
    tree.flush_all(&mut pool).unwrap();
    let before = tree.debug_snapshot(&pool);
    assert!(
        before.leaf_pages > 1,
        "test setup should create sibling leaves before compaction"
    );

    tree.compact(&mut pool).unwrap();
    let after = tree.debug_snapshot(&pool);
    assert_eq!(
        after.leaf_pages, 1,
        "all sparse leaves should fit into one merged leaf"
    );
    assert_eq!(after.height, 0, "root collapse should leave a leaf root");
}

#[test]
fn deterministic_model_matches_btreemap_across_flushes_and_compaction() {
    let mut pool = PagePool::new();
    let mut tree = CowBeTree::with_config(&mut pool, tiny_config());
    let mut model: VersionModel = BTreeMap::new();

    for ts in 1u64..160 {
        let key = vec![(ts % 23) as u8];
        if ts % 7 == 0 {
            tree.insert_message(&mut pool, CowBeTreeMessage::delete(key.clone(), ts))
                .unwrap();
            model.entry(key).or_default().insert(0, (ts, None));
        } else {
            let value = vec![ts as u8, (ts * 3) as u8];
            tree.insert_message(&mut pool, CowBeTreeMessage::put(key.clone(), value.clone(), ts))
                .unwrap();
            model.entry(key).or_default().insert(0, (ts, Some(value)));
        }

        if ts % 31 == 0 {
            tree.flush_all(&mut pool).unwrap();
        }
        if ts % 53 == 0 {
            tree.compact(&mut pool).unwrap();
        }
    }

    for read_ts in [1, 13, 37, 79, 159] {
        for key in 0u8..23 {
            let key = vec![key];
            assert_eq!(
                tree.lookup_visible(&pool, &key, read_ts),
                visible_model(&model, &key, read_ts),
                "model mismatch for key {key:?} at read timestamp {read_ts}"
            );
        }
    }
}

#[test]
fn evicted_pages_remain_reachable_after_buffer_flushes_and_splits() {
    let mut pool = PagePool::new();
    let mut tree = CowBeTree::with_config(&mut pool, tiny_config());

    for i in 0u16..96 {
        tree.put(&mut pool, &be_key(i), 1, &be_key(i)).unwrap();
    }
    tree.flush_all(&mut pool).unwrap();

    let tree = CowBeTree::open_with_config(&pool, tree.root_page_id(), tiny_config());

    for i in [0u16, 7, 31, 64, 95] {
        assert_eq!(
            tree.lookup(&pool, &be_key(i)).as_deref(),
            Some(&be_key(i)[..]),
            "lookup should survive buffer-pool eviction for key {i}"
        );
    }
}
