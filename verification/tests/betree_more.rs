use pagebox::betree::config::{
    default_flush_threshold_bytes, default_flush_threshold_messages, default_internal_children,
    integer_sqrt, CowBeTreeConfig,
};
use pagebox::betree::gc::{prune_version_records, CowBeTreeGcResult};
use pagebox::betree::message::{
    sort_buffer_messages, BufferedMessage, CowBeTreeMessage, VersionRecord,
};
use pagebox::betree::node::{CowBeTreeError, PageKindDebug};
use pagebox::betree::pool::{DirtyPage, PagePool};
use pagebox::betree::reader::decode_page;
use pagebox::betree::scan::Bound;
use pagebox::betree::tree::{CowBeTree, CowBeTreeGcCursor};

fn small_config() -> CowBeTreeConfig {
    CowBeTreeConfig {
        flush_threshold_messages: 8,
        flush_threshold_bytes: 512,
        max_leaf_entries: 4,
        max_internal_children: 4,
        merge_leaf_entries: 16,
        merge_internal_children: 8,
    }
}

fn key(n: u16) -> [u8; 2] {
    n.to_be_bytes()
}

fn filled(pool: &mut PagePool, n: u16) -> CowBeTree {
    let mut tree = CowBeTree::with_config(pool, small_config());
    for i in 0..n {
        tree.put(pool, &key(i), 1, &key(i)).unwrap();
    }
    tree
}

#[test]
fn errors_say_what_is_wrong() {
    assert_eq!(
        CowBeTreeError::CorruptPage("bad magic").to_text(),
        "corrupt CoW B-epsilon page: bad magic"
    );
    assert_eq!(
        CowBeTreeError::EmptyInternalPage.to_text(),
        "internal CoW B-epsilon page has no children"
    );
    let overflow = CowBeTreeError::PageOverflow { kind: "leaf", needed: 70_001, capacity: 65_536 };
    assert_eq!(overflow.to_text(), "leaf page needs 70001 bytes, capacity is 65536");
    let none = CowBeTreeError::PageOverflow { kind: "internal", needed: 10, capacity: 0 };
    assert_eq!(none.to_text(), "internal page needs 10 bytes, capacity is 0");
}

#[test]
fn oversized_value_is_refused_and_nothing_is_lost() {
    let mut pool = PagePool::new();
    let mut tree = CowBeTree::new(&mut pool);
    tree.put(&mut pool, b"a", 1, b"kept").unwrap();
    let big = vec![7; 70_000];
    match tree.put(&mut pool, b"b", 2, &big) {
        Err(CowBeTreeError::PageOverflow { kind, needed, capacity }) => {
            assert_eq!(kind, "leaf");
            assert_eq!(needed, 32 + 5 + 2 + (17 + 1 + 70_000) + 4);
            assert_eq!(capacity, 65_536);
        }
        other => panic!("{other:?}"),
    }
}

#[test]
fn oversized_key_is_refused() {
    let mut pool = PagePool::new();
    let mut tree = CowBeTree::new(&mut pool);
    pool.take_dirty();
    let long = vec![7; 65_536];
    assert!(matches!(
        tree.put(&mut pool, &long, 1, b"v"),
        Err(CowBeTreeError::CorruptPage("leaf key too large"))
    ));
    assert!(pool.take_dirty().is_empty());
}

#[test]
fn oversized_key_between_others_is_no_fence() {
    let mut pool = PagePool::new();
    let mut tree = CowBeTree::new(&mut pool);
    tree.put(&mut pool, b"a", 1, b"v").unwrap();
    tree.put(&mut pool, b"c", 1, b"v").unwrap();
    let long = vec![b'b'; 65_536];
    assert!(matches!(
        tree.put(&mut pool, &long, 1, b"v"),
        Err(CowBeTreeError::CorruptPage("upper fence too large"))
    ));
}

#[test]
fn blank_page_is_no_node() {
    assert!(matches!(decode_page(&[0; 64]), Err(CowBeTreeError::CorruptPage(_))));
    assert!(matches!(decode_page(&[]), Err(CowBeTreeError::CorruptPage(_))));
}

#[test]
fn derived_limits_follow_the_page_size() {
    assert_eq!(integer_sqrt(0), 0);
    assert_eq!(integer_sqrt(15), 3);
    assert_eq!(integer_sqrt(16), 4);
    assert_eq!(default_flush_threshold_bytes(64 * 1024), 16 * 1024);
    assert_eq!(default_flush_threshold_messages(16 * 1024), 256);
    assert_eq!(default_internal_children(64 * 1024), 8);
}

#[test]
fn messages_are_kept_in_key_order_newest_first() {
    let mut buffer = vec![
        BufferedMessage::put(b"b", 1, b"x"),
        BufferedMessage::delete(b"a", 3),
        BufferedMessage::put(b"a", 5, b"y"),
    ];
    sort_buffer_messages(&mut buffer);
    let order: Vec<(Vec<u8>, u64)> =
        buffer.iter().map(|m| (m.key.clone(), m.version.commit_ts)).collect();
    assert_eq!(order, vec![(b"a".to_vec(), 5), (b"a".to_vec(), 3), (b"b".to_vec(), 1)]);
    assert_eq!(BufferedMessage::put(b"b", 1, b"xyz").encoded_len(), 15 + 1 + 3);
}

#[test]
fn message_constructors_agree() {
    let put = CowBeTreeMessage::put(b"k".to_vec(), b"v".to_vec(), 4).into_buffered();
    let same = CowBeTreeMessage::put_version(b"k".to_vec(), 4, b"v".to_vec()).into_buffered();
    assert_eq!(put.key, same.key);
    assert_eq!(put.version.commit_ts, 4);
    assert_eq!(same.version.value, b"v".to_vec());
    assert!(!put.version.deleted);
    let delete = CowBeTreeMessage::delete(b"k".to_vec(), 9).into_buffered();
    let gone = CowBeTreeMessage::delete_version(b"k".to_vec(), 9).into_buffered();
    assert!(delete.version.deleted && gone.version.deleted);
    assert_eq!(delete.version.commit_ts, gone.version.commit_ts);
}

#[test]
fn write_is_read_back_from_its_timestamp_on() {
    let mut pool = PagePool::new();
    let mut tree = CowBeTree::with_config(&mut pool, small_config());
    tree.put(&mut pool, b"k", 5, b"five").unwrap();
    tree.put(&mut pool, b"k", 9, b"nine").unwrap();
    assert_eq!(tree.lookup_visible(&pool, b"k", 4), None);
    assert_eq!(tree.lookup_visible(&pool, b"k", 5), Some(b"five".to_vec()));
    assert_eq!(tree.lookup_visible(&pool, b"k", 8), Some(b"five".to_vec()));
    assert_eq!(tree.lookup(&pool, b"k"), Some(b"nine".to_vec()));
    assert_eq!(tree.lookup(&pool, b"l"), None);
    let version = tree.lookup_visible_version(&pool, b"k", 7).unwrap();
    assert_eq!(version.commit_ts, 5);
    assert!(!version.deleted);
}

#[test]
fn writes_in_another_order_are_read_alike() {
    let mut pool = PagePool::new();
    let mut one = CowBeTree::with_config(&mut pool, small_config());
    let mut pool2 = PagePool::new();
    let mut two = CowBeTree::with_config(&mut pool2, small_config());
    let mut writes: Vec<(u16, u64)> = Vec::new();
    for i in 0u16..40 {
        for ts in 1u64..4 {
            writes.push((i, ts));
        }
    }
    for (i, ts) in writes.iter() {
        one.put(&mut pool, &key(*i), *ts, &ts.to_be_bytes()).unwrap();
    }
    for (i, ts) in writes.iter().rev() {
        two.put(&mut pool2, &key(*i), *ts, &ts.to_be_bytes()).unwrap();
    }
    for (i, ts) in writes {
        let seen = one.lookup_visible(&pool, &key(i), ts);
        assert_eq!(seen, Some(ts.to_be_bytes().to_vec()));
        assert_eq!(seen, two.lookup_visible(&pool2, &key(i), ts));
    }
}

#[test]
fn deleted_key_is_not_seen_from_the_deletion_on() {
    let mut pool = PagePool::new();
    let mut tree = filled(&mut pool, 30);
    assert!(tree.remove_at(&mut pool, &key(7), 4).unwrap());
    assert_eq!(tree.lookup_visible(&pool, &key(7), 3), Some(key(7).to_vec()));
    assert_eq!(tree.lookup_visible(&pool, &key(7), 4), None);
    assert!(!tree.remove_at(&mut pool, &key(7), 5).unwrap());
    assert!(tree.remove(&mut pool, &key(8)).unwrap());
    assert!(!tree.remove(&mut pool, &key(99)).unwrap());
    assert_eq!(tree.lookup(&pool, &key(8)), None);
    assert_eq!(tree.scan_range(&pool, Bound::Unbounded, Bound::Unbounded).len(), 28);
}

#[test]
fn lookups_in_other_forms_agree() {
    let mut pool = PagePool::new();
    let tree = filled(&mut pool, 20);
    assert_eq!(tree.lookup_fixed::<2>(&pool, &key(3)), Some(key(3)));
    assert_eq!(tree.lookup_fixed::<3>(&pool, &key(3)), None);
    assert_eq!(tree.lookup_fixed::<2>(&pool, &key(99)), None);
    assert_eq!(tree.lookup_with(&pool, &key(3), |v| v.map(|v| v.len())), Some(2));
    assert_eq!(tree.lookup_with(&pool, &key(99), |v| v.map(|v| v.len())), None);
}

#[test]
fn scans_agree_with_lookups() {
    let mut pool = PagePool::new();
    let mut tree = filled(&mut pool, 60);
    for i in (0u16..60).step_by(3) {
        tree.put(&mut pool, &key(i), 5, b"new").unwrap();
    }
    for ts in [0u64, 1, 5] {
        let rows = tree.scan_range_visible(
            &pool,
            Bound::Included(&key(10)),
            Bound::Excluded(&key(50)),
            ts,
        );
        let mut expected = Vec::new();
        for i in 10u16..50 {
            if let Some(value) = tree.lookup_visible(&pool, &key(i), ts) {
                expected.push((key(i).to_vec(), value));
            }
        }
        let found: Vec<_> = rows.into_iter().map(|row| (row.key, row.value)).collect();
        assert_eq!(found, expected);
    }
    assert_eq!(tree.scan_prefix(&pool, &[0]).len(), 60);
    assert_eq!(tree.scan_prefix(&pool, &[0, 7]).len(), 1);
    assert_eq!(tree.scan_prefix_visible(&pool, &[0], 0).len(), 0);
}

#[test]
fn rearranging_keeps_what_is_read() {
    let mut pool = PagePool::new();
    let mut tree = filled(&mut pool, 80);
    tree.remove_at(&mut pool, &key(5), 2).unwrap();
    let before = tree.scan_range(&pool, Bound::Unbounded, Bound::Unbounded);
    tree.flush_all(&mut pool).unwrap();
    assert_eq!(tree.debug_snapshot(&pool).buffered_messages, 0);
    tree.compact(&mut pool).unwrap();
    let after = tree.scan_range(&pool, Bound::Unbounded, Bound::Unbounded);
    assert_eq!(before.len(), 79);
    for (b, a) in before.iter().zip(after.iter()) {
        assert_eq!(b.key, a.key);
        assert_eq!(b.value, a.value);
    }
    assert_eq!(after.len(), 79);
}

#[test]
fn flushed_tree_stays_as_it_is() {
    let mut pool = PagePool::new();
    let mut tree = filled(&mut pool, 40);
    tree.flush_all(&mut pool).unwrap();
    let before = tree.debug_snapshot(&pool);
    let pages = tree.owned_page_ids(&pool).unwrap();
    tree.flush_all(&mut pool).unwrap();
    let after = tree.debug_snapshot(&pool);
    assert_eq!(before.leaf_pages, after.leaf_pages);
    assert_eq!(before.internal_pages, after.internal_pages);
    assert_eq!(before.leaf_entries, after.leaf_entries);
    assert_eq!(pages, tree.owned_page_ids(&pool).unwrap());
}

#[test]
fn reclaiming_counts_what_it_drops() {
    let mut pool = PagePool::new();
    let mut tree = CowBeTree::with_config(&mut pool, small_config());
    for ts in 1u64..=4 {
        tree.put(&mut pool, b"k", ts, &[ts as u8; 3]).unwrap();
    }
    tree.put(&mut pool, b"l", 1, b"once").unwrap();
    let result = tree.prune_versions(&mut pool, 3).unwrap();
    assert_eq!(
        result,
        CowBeTreeGcResult {
            versions_pruned: 2,
            leaf_pages_visited: 1,
            leaf_pages_rewritten: 1,
            version_bytes_pruned: 2 * (13 + 3),
            cursor_wrapped: false,
            budget_exhausted: false,
        }
    );
    assert_eq!(tree.lookup_visible(&pool, b"k", 3), Some(vec![3; 3]));
    assert_eq!(tree.lookup_visible(&pool, b"k", 4), Some(vec![4; 3]));
    assert_eq!(tree.lookup(&pool, b"l"), Some(b"once".to_vec()));
    let again = tree.prune_versions(&mut pool, 3).unwrap();
    assert_eq!(again.versions_pruned, 0);
    assert_eq!(again.leaf_pages_rewritten, 0);
}

#[test]
fn version_list_keeps_the_newest_at_the_watermark() {
    let version = |ts: u64| VersionRecord { commit_ts: ts, deleted: false, value: vec![1] };
    let mut versions = vec![version(9), version(6), version(4), version(2)];
    prune_version_records(&mut versions, 6);
    let kept: Vec<u64> = versions.iter().map(|v| v.commit_ts).collect();
    assert_eq!(kept, vec![9, 6]);
    prune_version_records(&mut versions, 3);
    assert_eq!(versions.len(), 2);
}

#[test]
fn incremental_reclaiming_reaches_every_leaf() {
    let mut pool = PagePool::new();
    let mut tree = filled(&mut pool, 30);
    for i in 0u16..30 {
        tree.put(&mut pool, &key(i), 2, b"two").unwrap();
    }
    tree.flush_all(&mut pool).unwrap();
    let mut cursor = CowBeTreeGcCursor::default();
    let mut pruned = 0;
    loop {
        let result = tree.prune_versions_incremental(&mut pool, 2, &mut cursor, 2).unwrap();
        assert!(result.leaf_pages_visited <= 2);
        pruned += result.versions_pruned;
        if result.cursor_wrapped {
            assert_eq!(cursor.next_key(), None);
            break;
        }
        assert!(cursor.next_key().is_some());
    }
    assert_eq!(pruned, 30);
    cursor.reset();
    let done = tree.prune_versions_incremental(&mut pool, 2, &mut cursor, 0).unwrap();
    assert_eq!(done.leaf_pages_visited, 0);
}

#[test]
fn forks_do_not_see_each_other() {
    let mut pool = PagePool::new();
    let mut tree = filled(&mut pool, 25);
    let mut fork = tree.fork(&mut pool).unwrap();
    let mut third = fork.fork(&mut pool).unwrap();
    tree.put(&mut pool, &key(3), 7, b"tree").unwrap();
    fork.put(&mut pool, &key(3), 7, b"fork").unwrap();
    third.remove_at(&mut pool, &key(3), 7).unwrap();
    assert_eq!(tree.lookup(&pool, &key(3)), Some(b"tree".to_vec()));
    assert_eq!(fork.lookup(&pool, &key(3)), Some(b"fork".to_vec()));
    assert_eq!(third.lookup(&pool, &key(3)), None);
    for i in 0u16..25 {
        assert_eq!(tree.lookup_visible(&pool, &key(i), 1), Some(key(i).to_vec()));
        assert_eq!(fork.lookup_visible(&pool, &key(i), 1), Some(key(i).to_vec()));
        assert_eq!(third.lookup_visible(&pool, &key(i), 1), Some(key(i).to_vec()));
    }
    tree.compact(&mut pool).unwrap();
    fork.prune_versions(&mut pool, 7).unwrap();
    assert_eq!(third.lookup_visible(&pool, &key(4), 1), Some(key(4).to_vec()));
}

#[test]
fn changed_pages_are_listed_with_their_log_record() {
    let mut pool = PagePool::new();
    let mut tree = CowBeTree::with_config(&mut pool, small_config());
    let root = tree.root_page_id();
    pool.take_dirty();
    let put = CowBeTreeMessage::put(b"k".to_vec(), b"v".to_vec(), 1);
    tree.insert_message_with_lsn(&mut pool, put, 77).unwrap();
    assert_eq!(pool.take_dirty(), vec![DirtyPage { pid: root, lsn: Some(77) }]);
    tree.put(&mut pool, b"l", 1, b"v").unwrap();
    assert_eq!(pool.take_dirty(), vec![DirtyPage { pid: root, lsn: None }]);
    let new = CowBeTreeMessage::put(b"m".to_vec(), b"v".to_vec(), 1);
    tree.insert_new_message_with_lsn(&mut pool, new, 78).unwrap();
    assert_eq!(pool.take_dirty(), vec![DirtyPage { pid: root, lsn: Some(78) }]);
    assert_eq!(pool.take_dirty(), Vec::<DirtyPage>::new());
}

#[test]
fn opened_tree_reads_what_was_written() {
    let mut pool = PagePool::new();
    let tree = filled(&mut pool, 50);
    let root = tree.root_page_id();
    let again = CowBeTree::open_with_config(&pool, root, small_config());
    assert_eq!(again.height(&pool), tree.height(&pool));
    assert_eq!(again.root_page_id(), root);
    for i in 0u16..50 {
        assert_eq!(again.lookup(&pool, &key(i)), Some(key(i).to_vec()));
    }
    let pages = again.owned_page_ids(&pool).unwrap();
    assert!(pages.windows(2).all(|pair| pair[0] < pair[1]));
    assert!(pages.contains(&root));
}

#[test]
fn fresh_tree_is_one_empty_leaf() {
    let mut pool = PagePool::new();
    let tree = CowBeTree::new(&mut pool);
    let state = tree.debug_snapshot(&pool);
    assert_eq!(state.root_kind, Some(PageKindDebug::Leaf));
    assert_eq!(state.leaf_pages, 1);
    assert_eq!(state.internal_pages, 0);
    assert_eq!(state.leaf_entries, 0);
    assert_eq!(tree.height(&pool), 0);
    assert_eq!(tree.owned_page_ids(&pool).unwrap(), vec![tree.root_page_id()]);
    assert_eq!(pool.active_roots(), 1);
}

fn shape_of(tree: &CowBeTree, pool: &PagePool) -> (u32, usize, usize, usize, usize) {
    let s = tree.debug_snapshot(pool);
    (
        tree.height(pool),
        s.leaf_pages,
        s.internal_pages,
        s.leaf_entries,
        s.buffered_messages,
    )
}

#[test]
fn same_work_ends_with_the_same_tree() {
    let mut shapes = Vec::new();
    for padding in 0..2 {
        let mut pool = PagePool::new();
        for _ in 0..padding {
            let _other = CowBeTree::with_config(&mut pool, small_config());
        }
        let mut tree = filled(&mut pool, 60);
        let mut steps = vec![shape_of(&tree, &pool)];
        tree.flush_all(&mut pool).unwrap();
        steps.push(shape_of(&tree, &pool));
        for i in 0..60 {
            tree.put(&mut pool, &key(i), 2, b"later").unwrap();
        }
        let result = tree.prune_versions(&mut pool, 2).unwrap();
        assert_eq!(result.cursor_wrapped, false);
        steps.push(shape_of(&tree, &pool));
        tree.compact(&mut pool).unwrap();
        steps.push(shape_of(&tree, &pool));
        shapes.push((steps, result));
    }
    assert_eq!(shapes[0], shapes[1]);
}
