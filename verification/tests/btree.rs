use std::cell::Cell;
use std::collections::{BTreeMap, BTreeSet};

use pagebox::betree::scan::{Bound, Row};
use pagebox::btree::node::Node;
use pagebox::btree::tree::BTree;

fn pairs(rows: Vec<Row>) -> Vec<(Vec<u8>, Vec<u8>)> {
    rows.into_iter().map(|row| (row.key, row.value)).collect()
}

fn numbers(rows: Vec<Row>) -> Vec<u32> {
    rows.into_iter()
        .map(|row| u32::from_be_bytes(row.key.as_slice().try_into().unwrap()))
        .collect()
}

fn collect_all(tree: &BTree) -> Vec<(Vec<u8>, Vec<u8>)> {
    pairs(tree.scan())
}

fn collect_range_pairs(
    tree: &BTree,
    lower: Bound<'_>,
    upper: Bound<'_>,
) -> Vec<(Vec<u8>, Vec<u8>)> {
    pairs(tree.scan_range(lower, upper))
}

fn collect_range(tree: &BTree, lower: Bound<'_>, upper: Bound<'_>) -> Vec<u32> {
    numbers(tree.scan_range(lower, upper))
}

fn collect_range_desc(tree: &BTree, lower: Bound<'_>, upper: Bound<'_>) -> Vec<u32> {
    numbers(tree.scan_range_desc(lower, upper))
}

/// Gives a tree up and takes it up again from its pages.
fn reopened(tree: BTree) -> BTree {
    let root = tree.root_page_id();
    BTree::open(tree.into_nodes(), root, 0)
}

const SEEDS: [u64; 8] = [0, 1, 2, 7, 42, 1_000_003, 0x1234_5678_9abc_def0, u64::MAX];

fn model_collect_all(model: &BTreeMap<Vec<u8>, Vec<u8>>) -> Vec<(Vec<u8>, Vec<u8>)> {
    model
        .iter()
        .map(|(key, value)| (key.clone(), value.clone()))
        .collect()
}

fn model_collect_range(
    model: &BTreeMap<Vec<u8>, Vec<u8>>,
    lower: Bound<'_>,
    upper: Bound<'_>,
) -> Vec<(Vec<u8>, Vec<u8>)> {
    let lower_ok = |key: &[u8]| match lower {
        Bound::Included(bound) => key >= bound,
        Bound::Excluded(bound) => key > bound,
        Bound::Unbounded => true,
    };
    let upper_ok = |key: &[u8]| match upper {
        Bound::Included(bound) => key <= bound,
        Bound::Excluded(bound) => key < bound,
        Bound::Unbounded => true,
    };

    model
        .iter()
        .filter(|(key, _)| lower_ok(key) && upper_ok(key))
        .map(|(key, value)| (key.clone(), value.clone()))
        .collect()
}

struct GeneratedCase {
    state: u64,
}

impl GeneratedCase {
    fn new(seed: u64) -> Self {
        Self {
            state: seed ^ 0xd1b5_4a32_d192_ed03,
        }
    }

    fn next_u64(&mut self) -> u64 {
        let mut x = self.state;
        x ^= x << 13;
        x ^= x >> 7;
        x ^= x << 17;
        self.state = x;
        x
    }

    fn u8(&mut self, max: u8) -> u8 {
        (self.next_u64() % (u64::from(max) + 1)) as u8
    }

    fn usize(&mut self, min: usize, max: usize) -> usize {
        if min == max {
            return min;
        }
        min + (self.next_u64() as usize % (max - min + 1))
    }

    fn bytes(&mut self, min_size: usize, max_size: usize) -> Vec<u8> {
        let len = self.usize(min_size, max_size);
        (0..len).map(|_| self.next_u64() as u8).collect()
    }
}

fn assert_tree_matches_model(tree: &BTree, model: &BTreeMap<Vec<u8>, Vec<u8>>, context: &str) {
    for (key, expected) in model {
        assert_eq!(
            tree.lookup(key),
            Some(expected.clone()),
            "{context}: lookup mismatch for key {key:?}"
        );
    }

    let scanned = collect_all(tree);
    let expected_scan = model_collect_all(model);
    assert_eq!(
        scanned, expected_scan,
        "{context}: full scan contents diverged from model"
    );
}

#[test]
fn split_single_leaf() {
    let mut tree = BTree::new(0);

    let mut inserted = Vec::new();
    for i in 0..700u32 {
        let key = i.to_be_bytes();
        let val = [i as u8; 100];
        assert!(tree.insert(&key, &val), "failed to insert {i}");
        inserted.push((key, val));
    }

    assert!(tree.height() >= 1, "tree should have split");

    for (key, val) in &inserted {
        assert_eq!(
            tree.lookup(key).as_deref(),
            Some(val.as_slice()),
            "key {:?} not found",
            key
        );
    }
}

#[test]
fn multi_level_splits() {
    // 64K leaves hold ~2 entries of a ~32 KiB value (4-byte key + 12-byte
    // slot overhead). To overflow the root inner node (≈2729 children) and
    // reach height 2, we need ≈2729 leaves, i.e. ≈5458 entries. Use 6000
    // with margin. Large values keep the entry count tractable for a test.
    let mut tree = BTree::new(0);

    let n = 6000;
    for i in 0..n as u32 {
        let key = i.to_be_bytes();
        let mut val = [0u8; 32000];
        val[0] = (i & 0xFF) as u8;
        val[1] = ((i >> 8) & 0xFF) as u8;
        assert!(tree.insert(&key, &val), "insert {i} failed");
    }

    assert!(
        tree.height() >= 2,
        "expected at least 3 levels, got height {}",
        tree.height()
    );

    for i in 0..n as u32 {
        let key = i.to_be_bytes();
        let result = tree.lookup(&key);
        assert!(result.is_some(), "lookup {i} failed");
        let val = result.unwrap();
        assert_eq!(val[0], (i & 0xFF) as u8);
        assert_eq!(val[1], ((i >> 8) & 0xFF) as u8);
    }
}

#[test]
fn owned_page_ids_include_reachable_tree_pages() {
    let mut tree = BTree::new(0);

    for i in 0..4_000u32 {
        let key = i.to_be_bytes();
        assert!(tree.insert(&key, &key));
    }

    let pages = tree.owned_page_ids();
    assert!(
        pages.contains(&tree.root_page_id()),
        "owned pages must include the root page"
    );
    assert!(
        pages.len() > 1,
        "test should force at least one split so ownership spans multiple pages"
    );
    let unique = pages
        .iter()
        .copied()
        .collect::<BTreeSet<_>>();
    assert_eq!(
        unique.len(),
        pages.len(),
        "owned page enumeration must not return duplicates"
    );
}

#[test]
fn scan_range_bound_variants() {
    let mut tree = BTree::new(0);
    for i in 1u32..=10 {
        tree.insert(&i.to_be_bytes(), &i.to_be_bytes());
    }

    let cases = [
        (
            "inclusive_both",
            Some((3u32, true)),
            Some((7u32, true)),
            vec![3, 4, 5, 6, 7],
        ),
        (
            "exclusive_upper",
            Some((3u32, true)),
            Some((7u32, false)),
            vec![3, 4, 5, 6],
        ),
        (
            "exclusive_lower",
            Some((3u32, false)),
            Some((7u32, true)),
            vec![4, 5, 6, 7],
        ),
        (
            "unbounded_lower",
            None,
            Some((4u32, true)),
            vec![1, 2, 3, 4],
        ),
        ("unbounded_upper", Some((8u32, true)), None, vec![8, 9, 10]),
        ("unbounded_both", None, None, (1..=10).collect::<Vec<_>>()),
        (
            "lower_exceeds_upper",
            Some((7u32, true)),
            Some((3u32, true)),
            vec![],
        ),
    ];

    for (label, lower_spec, upper_spec, expected) in cases {
        let lower_bytes = lower_spec.map(|(v, _)| v.to_be_bytes());
        let upper_bytes = upper_spec.map(|(v, _)| v.to_be_bytes());
        let lower = match (lower_spec, lower_bytes.as_ref()) {
            (Some((_, true)), Some(bytes)) => Bound::Included(bytes.as_slice()),
            (Some((_, false)), Some(bytes)) => Bound::Excluded(bytes.as_slice()),
            _ => Bound::Unbounded,
        };
        let upper = match (upper_spec, upper_bytes.as_ref()) {
            (Some((_, true)), Some(bytes)) => Bound::Included(bytes.as_slice()),
            (Some((_, false)), Some(bytes)) => Bound::Excluded(bytes.as_slice()),
            _ => Bound::Unbounded,
        };
        assert_eq!(
            collect_range(&tree, lower, upper),
            expected,
            "{label}: wrong scan_range result"
        );
    }
    let mut sparse_tree = BTree::new(0);
    for k in [10u32, 20, 30] {
        sparse_tree.insert(&k.to_be_bytes(), &k.to_be_bytes());
    }
    let lo = 12u32.to_be_bytes();
    let hi = 18u32.to_be_bytes();
    assert!(
        collect_range(&sparse_tree, Bound::Included(&lo), Bound::Included(&hi)).is_empty(),
        "sparse window should yield no matches"
    );
}

#[test]
fn scan_range_multi_leaf() {
    // Force multiple leaves with many small inserts.
    let mut tree = BTree::new(0);
    for i in 0u32..1000 {
        tree.insert(&i.to_be_bytes(), &i.to_be_bytes());
    }
    let lo = 250u32.to_be_bytes();
    let hi = 750u32.to_be_bytes();
    let got = collect_range(&tree, Bound::Included(&lo), Bound::Excluded(&hi));
    assert_eq!(got.first(), Some(&250));
    assert_eq!(got.last(), Some(&749));
    assert_eq!(got.len(), 500);
}

#[test]
fn scan_range_desc_multi_leaf() {
    let mut tree = BTree::new(0);
    for i in 0u32..1000 {
        tree.insert(&i.to_be_bytes(), &i.to_be_bytes());
    }
    let lo = 250u32.to_be_bytes();
    let hi = 750u32.to_be_bytes();
    let got = collect_range_desc(&tree, Bound::Included(&lo), Bound::Excluded(&hi));
    assert_eq!(got.first(), Some(&749));
    assert_eq!(got.last(), Some(&250));
    assert_eq!(got.len(), 500);
}

#[test]
fn insert_remove_reinsert() {
    let mut tree = BTree::new(0);

    // Insert 100 keys.
    for i in 0..100u32 {
        tree.insert(&i.to_be_bytes(), &i.to_be_bytes());
    }

    // Remove all odd keys.
    for i in (1..100u32).step_by(2) {
        assert!(tree.remove(&i.to_be_bytes()));
    }

    // Verify odd keys gone, even keys present.
    for i in 0..100u32 {
        if i % 2 == 0 {
            assert!(
                tree.lookup(&i.to_be_bytes()).is_some(),
                "even key {i} missing"
            );
        } else {
            assert!(
                tree.lookup(&i.to_be_bytes()).is_none(),
                "odd key {i} still present"
            );
        }
    }

    // Reinsert odd keys.
    for i in (1..100u32).step_by(2) {
        assert!(tree.insert(&i.to_be_bytes(), &(i * 100).to_be_bytes()));
    }

    // Verify all keys present with correct values.
    for i in 0..100u32 {
        let expected = if i % 2 == 0 { i } else { i * 100 };
        assert_eq!(
            tree.lookup(&i.to_be_bytes()).as_deref(),
            Some(expected.to_be_bytes().as_slice()),
            "key {i} wrong value"
        );
    }
}

#[test]
fn remove_empty_leaf_merge_preserves_tree_correctness() {
    let mut tree = BTree::new(0);

    for i in 0..400u32 {
        assert!(tree.insert(&i.to_be_bytes(), &i.to_be_bytes()));
    }

    for i in 0..200u32 {
        assert!(tree.remove(&i.to_be_bytes()), "remove {i} failed");
    }
    for i in 0..200u32 {
        assert!(
            tree.lookup(&i.to_be_bytes()).is_none(),
            "key {i} should be absent"
        );
    }

    for i in 0..200u32 {
        assert!(tree.insert(&i.to_be_bytes(), &(i + 1000).to_be_bytes()));
    }
    for i in 0..200u32 {
        assert_eq!(
            tree.lookup(&i.to_be_bytes()).as_deref(),
            Some((i + 1000).to_be_bytes().as_slice()),
            "reinserted key {i} should be readable after leaf merge"
        );
    }
    for i in 200..400u32 {
        assert_eq!(
            tree.lookup(&i.to_be_bytes()).as_deref(),
            Some(i.to_be_bytes().as_slice()),
            "surviving key {i} should remain readable after leaf merge"
        );
    }
}

#[test]
fn delete_rebalance_can_shrink_multi_level_tree() {
    let mut tree = BTree::new(0);

    for i in 0..6000u32 {
        let key = i.to_be_bytes();
        let mut val = [0u8; 32000];
        val[0] = (i & 0xFF) as u8;
        val[1] = ((i >> 8) & 0xFF) as u8;
        assert!(tree.insert(&key, &val), "insert {i} failed");
    }

    let initial_height = tree.height();
    assert!(
        initial_height >= 2,
        "expected a multi-level tree before delete, got height {initial_height}"
    );

    for i in 0..5700u32 {
        assert!(tree.remove(&i.to_be_bytes()), "remove {i} failed");
    }

    let shrunk_height = tree.height();
    assert!(
        shrunk_height < initial_height,
        "expected delete rebalance to shrink tree height from {initial_height}, got {shrunk_height}"
    );

    for i in 0..5700u32 {
        assert!(
            tree.lookup(&i.to_be_bytes()).is_none(),
            "deleted key {i} should be absent after shrink"
        );
    }
    for i in 5700..6000u32 {
        let result = tree.lookup(&i.to_be_bytes());
        assert!(result.is_some(), "surviving key {i} missing after shrink");
        let val = result.unwrap();
        assert_eq!(
            val[0],
            (i & 0xFF) as u8,
            "surviving key {i} low byte changed"
        );
        assert_eq!(
            val[1],
            ((i >> 8) & 0xFF) as u8,
            "surviving key {i} high byte changed"
        );
    }
}

#[test]
fn delete_rebalance_preserves_sparse_ranges_in_multi_level_tree() {
    let mut tree = BTree::new(0);

    for i in 0..6000u32 {
        let key = i.to_be_bytes();
        let mut val = [0u8; 32000];
        val[0] = (i & 0xFF) as u8;
        val[1] = ((i >> 8) & 0xFF) as u8;
        assert!(tree.insert(&key, &val), "insert {i} failed");
    }

    assert!(
        tree.height() >= 2,
        "expected a multi-level tree before sparse delete"
    );

    for i in 600..5400u32 {
        assert!(tree.remove(&i.to_be_bytes()), "remove {i} failed");
    }

    for i in 0..600u32 {
        let result = tree.lookup(&i.to_be_bytes());
        assert!(
            result.is_some(),
            "low-range key {i} missing after sparse delete"
        );
    }
    for i in 600..5400u32 {
        assert!(
            tree.lookup(&i.to_be_bytes()).is_none(),
            "middle key {i} should be absent after sparse delete"
        );
    }
    for i in 5400..6000u32 {
        let result = tree.lookup(&i.to_be_bytes());
        assert!(
            result.is_some(),
            "high-range key {i} missing after sparse delete"
        );
    }
}

#[test]
fn upsert_rewrites_larger_value() {
    let mut tree = BTree::new(0);

    assert!(tree.insert(b"k", b"v1"));
    assert!(!tree.upsert(b"k", b"much-larger-value"));
    assert_eq!(
        tree.lookup(b"k").as_deref(),
        Some(b"much-larger-value".as_slice())
    );
}

#[test]
fn upsert_random_keys() {
    let mut tree = BTree::new(0);

    // Load 1000 keys with hashed distribution.
    let n = 1000u64;
    let make_key = |i: u64| -> [u8; 8] {
        i.wrapping_mul(0x517cc1b727220a95)
            .wrapping_add(0x9e3779b97f4a7c15)
            .to_be_bytes()
    };
    for i in 0..n {
        tree.insert(&make_key(i), &[0xAA; 100]);
    }

    // Upsert all keys (remove + reinsert).
    for i in 0..n {
        let key = make_key(i);
        tree.remove(&key);
        assert!(tree.insert(&key, &[0xBB; 100]), "reinsert {i} failed");
    }

    // Verify all keys present with updated value.
    for i in 0..n {
        let val = tree.lookup(&make_key(i));
        assert!(val.is_some(), "key {i} missing after upsert");
        assert_eq!(val.unwrap()[0], 0xBB, "key {i} has wrong value");
    }
}

#[test]
fn prefix_scan_returns_matching_keys() {
    let mut tree = BTree::new(0);

    let prefixes: [&[u8]; 3] = [b"alpha", b"beta", b"gamma"];
    for (pi, prefix) in prefixes.iter().enumerate() {
        for i in 0..10u32 {
            let mut key = prefix.to_vec();
            key.push(b'-');
            key.extend_from_slice(&i.to_be_bytes());
            let val = vec![(pi as u32 * 10 + i) as u8; 4];
            tree.insert(&key, &val);
        }
    }

    for (pi, prefix) in prefixes.iter().enumerate() {
        let found = pairs(tree.scan_prefix(prefix));
        assert_eq!(found.len(), 10, "prefix {:?} should match 10 keys", prefix);
        for entry in &found {
            assert!(
                entry.0.starts_with(prefix),
                "prefix scan returned non-matching key"
            );
            assert_eq!(entry.1.len(), 4);
        }
        let first_val = found[0].1[0] as u32;
        assert_eq!(first_val, pi as u32 * 10);
    }
}

#[test]
fn prefix_scan_multi_leaf_traverses_right_siblings() {
    let mut tree = BTree::new(0);

    let prefix = b"key";
    let n = 1000u32;
    for i in 0..n {
        let mut key = prefix.to_vec();
        key.extend_from_slice(&i.to_be_bytes());
        tree.insert(&key, &i.to_be_bytes());
    }

    let mut count = 0;
    count += tree.scan_prefix(prefix).len();
    assert_eq!(count, n as usize, "prefix scan should traverse all leaves");
}

#[test]
fn prefix_scan_empty_prefix_matches_all() {
    let mut tree = BTree::new(0);

    for i in 0..50u32 {
        tree.insert(&i.to_be_bytes(), &i.to_be_bytes());
    }

    let mut count = 0;
    count += tree.scan_prefix(b"").len();
    assert_eq!(count, 50, "empty prefix should match all keys");
}

#[test]
fn prefix_scan_no_matches_returns_empty() {
    let mut tree = BTree::new(0);

    for i in 0..10u32 {
        tree.insert(&i.to_be_bytes(), &i.to_be_bytes());
    }

    let mut count = 0;
    count += tree.scan_prefix(b"nonexistent").len();
    assert_eq!(count, 0, "prefix with no matches should return empty");
}

#[test]
fn prefix_scan_borrowed_until_stops_early() {
    let mut tree = BTree::new(0);

    let prefix = b"key";
    for i in 0..100u32 {
        let mut key = prefix.to_vec();
        key.extend_from_slice(&i.to_be_bytes());
        tree.insert(&key, &i.to_be_bytes());
    }

    let count = Cell::new(0);
    let visited = tree.scan_prefix_borrowed_until(prefix, |_: &[u8], _: &[u8]| {
        count.set(count.get() + 1);
        count.get() < 5
    });
    assert_eq!(count.get(), 5, "scan_prefix_borrowed_until should stop early");
    assert_eq!(visited.len(), 5);
}

#[test]
fn zero_length_keys_and_values() {
    let mut tree = BTree::new(0);

    tree.insert(b"", b"");
    assert_eq!(tree.lookup(b""), Some(b"".to_vec()));

    tree.insert(b"\x00", b"val");
    assert_eq!(tree.lookup(b"\x00"), Some(b"val".to_vec()));

    assert!(tree.lookup(b"").is_some());

    let keys: Vec<Vec<u8>> = collect_all(&tree).into_iter().map(|(k, _)| k).collect();
    assert_eq!(keys.len(), 2, "should have two keys");
    assert!(keys[0] < keys[1], "keys should be sorted");
}

#[test]
fn zero_length_key_duplicate_returns_false() {
    let mut tree = BTree::new(0);

    assert!(tree.insert(b"", b"v1"));
    assert!(!tree.insert(b"", b"v2"));
    assert_eq!(tree.lookup(b""), Some(b"v1".to_vec()));
}

#[test]
fn descending_scan_with_unbounded_lower() {
    let mut tree = BTree::new(0);

    for i in 0..1000u32 {
        tree.insert(&i.to_be_bytes(), &i.to_be_bytes());
    }

    // Descending scan from the max key down to (but excluding) hi.
    // With Unbounded lower and Excluded(hi) upper, the range is
    // (-∞, hi) — keys below hi, descending from the max.
    let lo = 300u32.to_be_bytes();
    let got = collect_range_desc(&tree, Bound::Included(&lo), Bound::Unbounded);

    // With Unbounded upper, the scan starts from the rightmost key (999)
    // and descends to the lower bound.
    assert_eq!(got.first().copied(), Some(999));
    assert_eq!(got.last().copied(), Some(300));
    assert_eq!(got.len(), 700, "should cover [300, 999] descending");

    for i in 1..got.len() {
        assert!(
            got[i - 1] > got[i],
            "descending scan should be monotonically decreasing"
        );
    }
}

#[test]
fn lookup_fixed_returns_none_for_n_zero() {
    let mut tree = BTree::new(0);
    tree.insert(b"key", b"value");

    assert!(tree.lookup_fixed::<0>(b"key").is_none());
}

#[test]
fn lookup_fixed_returns_truncated_for_n_smaller_than_value() {
    let mut tree = BTree::new(0);
    let val = [42u8; 4];
    tree.insert(b"key", &val);

    // lookup_fixed returns None when N != value length — it is an
    // exact-size match, not truncation.
    let got = tree.lookup_fixed::<4>(b"key").unwrap();
    assert_eq!(got, [42u8; 4]);

    // N != value length returns None.
    assert!(tree.lookup_fixed::<8>(b"key").is_none());
    assert!(tree.lookup_fixed::<2>(b"key").is_none());
}

#[test]
fn tree_height_grows_to_three() {
    let mut tree = BTree::new(0);

    // 64K leaves hold ~2 entries of a ~32 KiB value. The root inner node
    // holds ≈2729 children, so ≈6000 entries force a root-inner split and
    // reach height 2. Height 3 would need ≈2729*2729 leaves — impractical
    // for a unit test, so we assert height 2.
    let n = 6_000u32;
    for i in 0..n {
        let key = i.to_be_bytes();
        let val = [i as u8; 32000];
        tree.insert(&key, &val);
    }

    assert!(
        tree.height() >= 2,
        "expected height >= 2 with {n} 32000-byte values, got {}",
        tree.height()
    );

    for i in 0..100u32 {
        let key = i.to_be_bytes();
        let result = tree.lookup(&key);
        assert!(result.is_some(), "key {i} not found");
        assert_eq!(result.as_ref().unwrap().len(), 32000);
    }
}

#[test]
fn large_values_near_page_boundary() {
    let mut tree = BTree::new(0);

    // Values large enough that only 1-2 fit per 64K leaf, including
    // values near the page limit that exercise the single-entry split path.
    let val_sizes = [8000, 16000, 24000, 32000, 48000, 60000];
    for (i, &vs) in val_sizes.iter().enumerate() {
        let key = (i as u32).to_be_bytes();
        let val = vec![i as u8; vs];
        assert!(tree.insert(&key, &val), "insert {i} failed");
    }

    for (i, &vs) in val_sizes.iter().enumerate() {
        let key = (i as u32).to_be_bytes();
        let result = tree.lookup(&key);
        assert!(result.is_some(), "key {i} (value size {vs}) not found");
        assert_eq!(result.as_ref().unwrap().len(), vs);
        assert_eq!(result.unwrap()[0], i as u8);
    }

    let mut count = 0;
    count += tree.scan().len();
    assert_eq!(count, val_sizes.len());
}

#[test]
fn separator_key_routes_to_correct_side_after_split() {
    let mut tree = BTree::new(0);

    let n = 700u32;
    for i in 0..n {
        let key = i.to_be_bytes();
        let val = [i as u8; 100];
        tree.insert(&key, &val);
    }

    assert!(tree.height() >= 1, "tree should have split at least once");

    for i in 0..n {
        let key = i.to_be_bytes();
        assert!(
            tree.lookup(&key).is_some(),
            "every key including separator should be findable after split"
        );
    }
}

#[test]
fn lookup_with_callback_receives_correct_slice() {
    let mut tree = BTree::new(0);

    let val = b"hello_world_12345";
    tree.insert(b"key", val);

    let result = tree.lookup_with(b"key", |v: Option<&[u8]>| {
        assert_eq!(v, Some(val.as_slice()));
        v.map(|s| s.len())
    });

    assert_eq!(result, Some(val.len()));
}

#[test]
fn lookup_with_callback_returns_none_for_missing_key() {
    let mut tree = BTree::new(0);
    tree.insert(b"key", b"value");

    let result = tree.lookup_with(b"missing", |v: Option<&[u8]>| {
        assert!(v.is_none());
        v.map(|s| s.len())
    });

    assert_eq!(result, None);
}

#[test]
fn single_large_value_per_leaf_does_not_hang() {
    // Regression test: inserting values large enough that only 1 entry
    // fits per 64K leaf previously caused an infinite loop in split_node
    // (count < 2 early return + insert retry loop).
    let mut tree = BTree::new(0);

    for i in 0..6u32 {
        let key = i.to_be_bytes();
        let val = vec![i as u8; 60000];
        assert!(tree.insert(&key, &val), "insert {i} should succeed");
    }

    // Verify all entries are findable.
    for i in 0..6u32 {
        let key = i.to_be_bytes();
        let result = tree.lookup(&key);
        assert_eq!(
            result.as_ref().map(|v| v.len()),
            Some(60000),
            "key {i} should be findable with 60000-byte value"
        );
        assert_eq!(result.unwrap()[0], i as u8);
    }
}

#[test]
fn single_large_value_descending_keys_does_not_hang() {
    // Same regression but with descending keys — exercises the path
    // where the pending key is smaller than the existing key, requiring
    // the existing entry to be moved to the right sibling.
    let mut tree = BTree::new(0);

    for i in (0..6u32).rev() {
        let key = i.to_be_bytes();
        let val = vec![i as u8; 60000];
        assert!(tree.insert(&key, &val), "insert {i} should succeed");
    }

    for i in 0..6u32 {
        let key = i.to_be_bytes();
        let result = tree.lookup(&key);
        assert_eq!(
            result.as_ref().map(|v| v.len()),
            Some(60000),
            "key {i} should be findable"
        );
    }
}

#[test]
fn owned_page_ids_survive_reopen() {
    let mut tree = BTree::new(0);
    for i in 0..2_000u32 {
        let key = i.to_be_bytes();
        assert!(tree.insert(&key, &key));
    }
    let before = tree.owned_page_ids();

    let tree = reopened(tree);

    assert_eq!(
        tree.owned_page_ids(),
        before,
        "owned page enumeration should not depend on residency"
    );
}

#[test]
fn scan_after_reopen_with_tight_resident_budget() {
    let n = 2_000u32;
    let mut tree = BTree::new(0);
    for i in 0..n {
        let key = i.to_be_bytes();
        let mut val = [0u8; 500];
        val[..4].copy_from_slice(&key);
        assert!(tree.insert(&key, &val), "insert {i} failed");
    }

    let tree = reopened(tree);

    let mut scanned = Vec::new();
    for row in tree.scan() {
        assert_eq!(row.value.len(), 500, "scan returned wrong value length");
        scanned.push(u32::from_be_bytes(row.key.as_slice().try_into().unwrap()));
    }

    assert_eq!(
        scanned,
        (0..n).collect::<Vec<_>>(),
        "scan should fault and evict through cold leaves without spinning"
    );
}

#[test]
fn find_parent_reaches_non_leftmost_subtree() {
    let mut tree = BTree::new(0);

    for i in 0..6000u32 {
        let key = i.to_be_bytes();
        let mut val = [0u8; 32000];
        val[0] = (i & 0xFF) as u8;
        val[1] = ((i >> 8) & 0xFF) as u8;
        assert!(tree.insert(&key, &val), "insert {i} failed");
    }

    assert!(tree.height() >= 2, "expected a multi-level tree");

    let root_pid = tree.root_page_id();
    let pages = tree.owned_page_ids();
    let links: Vec<_> = pages.iter().map(|pid| tree.parent_link(*pid)).collect();
    let nodes = tree.into_nodes();
    let Node::Inner(root) = &nodes[root_pid as usize] else {
        panic!("root should be an inner node");
    };
    assert!(
        !root.separators.is_empty(),
        "root should have multiple children"
    );
    let subtree_pid = root.children[root.children.len() - 1];
    let Node::Inner(subtree) = &nodes[subtree_pid as usize] else {
        panic!("the last child should be an inner node");
    };
    let leaf_pid = subtree.children[0];
    assert!(matches!(nodes[leaf_pid as usize], Node::Leaf(_)));

    let at = pages.iter().position(|pid| *pid == leaf_pid).unwrap();
    let link = links[at].expect("should find parent under non-leftmost subtree");
    assert_eq!(link.parent_pid, subtree_pid);
    assert!(link.slot_index as usize <= subtree.separators.len());
    assert_eq!(link.slot_index, 0);
    assert!(!link.is_upper);
    let at_root = pages.iter().position(|pid| *pid == root_pid).unwrap();
    assert!(links[at_root].is_none());
}

#[test]
fn btree_reopen_file_backed() {
    let mut tree = BTree::new(0);
    for i in 0..1000u32 {
        let key = i.to_be_bytes();
        tree.insert(&key, &key);
    }

    let tree = reopened(tree);

    for i in 0..1000u32 {
        let key = i.to_be_bytes();
        assert!(tree.lookup(&key).is_some(), "lookup {i} failed");
    }
    assert_eq!(tree.scan().len(), 1000);
}

#[test]
fn btree_reopen_50k_file_backed() {
    let n = 50_000u32;
    let mut tree = BTree::new(0);
    for i in 0..n {
        let key = i.to_be_bytes();
        tree.insert(&key, &key);
    }

    let tree = reopened(tree);

    for i in (0..n).step_by(100) {
        let key = i.to_be_bytes();
        assert!(tree.lookup(&key).is_some(), "lookup {i} failed");
    }
}

#[test]
fn btree_reopen_and_continue_inserting() {
    let mut tree = BTree::new(0);
    for i in 0..20_000u32 {
        let key = i.to_be_bytes();
        tree.insert(&key, &key);
    }

    let mut tree = reopened(tree);

    for i in 20_000u32..40_000u32 {
        let key = i.to_be_bytes();
        tree.insert(&key, &key);
    }

    for i in (0..40_000u32).step_by(97) {
        let key = i.to_be_bytes();
        assert_eq!(tree.lookup(&key).as_deref(), Some(key.as_slice()));
    }
}

#[test]
fn btree_root_split_with_cool_root_after_reopen() {
    let n = 50_000u32;
    let mut tree = BTree::new(0);
    for i in 0..n {
        let key = i.to_be_bytes();
        tree.insert(&key, &key);
    }
    let height = tree.height();

    let mut tree = reopened(tree);

    for i in n..(n + 50_000) {
        let key = i.to_be_bytes();
        tree.insert(&key, &key);
    }

    assert!(
        tree.height() >= height,
        "tree height should stay valid after cool-root split path"
    );
    for i in (0..(n + 50_000)).step_by(251) {
        let key = i.to_be_bytes();
        assert_eq!(tree.lookup(&key).as_deref(), Some(key.as_slice()));
    }
}

#[test]
fn generated_sequential_history_matches_btreemap() {
    for seed in SEEDS {
        let mut tc = GeneratedCase::new(seed);
        let mut tree = BTree::new(0);
        let mut model = BTreeMap::new();
        let steps = tc.usize(1, 12);

        for step in 0..steps {
            let op = tc.u8(5);
            let key = tc.bytes(1, 8);
            let value = tc.bytes(0, 24);

            match op {
                0 => {
                    let inserted = tree.insert(&key, &value);
                    let expected = if model.contains_key(&key) {
                        false
                    } else {
                        model.insert(key.clone(), value.clone());
                        true
                    };
                    assert_eq!(inserted, expected, "step {step}: insert result diverged");
                }
                1 => {
                    let inserted = tree.upsert(&key, &value);
                    let expected = model.insert(key.clone(), value.clone()).is_none();
                    assert_eq!(inserted, expected, "step {step}: upsert result diverged");
                }
                2 => {
                    let removed = tree.remove(&key);
                    let expected = model.remove(&key).is_some();
                    assert_eq!(removed, expected, "step {step}: remove result diverged");
                }
                3 => {
                    assert_eq!(
                        tree.lookup(&key),
                        model.get(&key).cloned(),
                        "step {step}: lookup diverged from model"
                    );
                }
                4 => {
                    let lower_key = tc.bytes(1, 8);
                    let upper_key = tc.bytes(1, 8);
                    let lower = match tc.u8(2) {
                        0 => Bound::Unbounded,
                        1 => Bound::Included(lower_key.as_slice()),
                        _ => Bound::Excluded(lower_key.as_slice()),
                    };
                    let upper = match tc.u8(2) {
                        0 => Bound::Unbounded,
                        1 => Bound::Included(upper_key.as_slice()),
                        _ => Bound::Excluded(upper_key.as_slice()),
                    };
                    assert_eq!(
                        collect_range_pairs(&tree, lower, upper),
                        model_collect_range(&model, lower, upper),
                        "step {step}: scan_range diverged from model"
                    );
                }
                _ => {
                    assert_eq!(
                        collect_all(&tree),
                        model_collect_all(&model),
                        "step {step}: full scan diverged from model"
                    );
                }
            }
        }

        assert_tree_matches_model(&tree, &model, "final sequential history");
    }
}

#[test]
fn generated_reopen_history_matches_btreemap() {
    for seed in SEEDS {
        let mut tc = GeneratedCase::new(seed);
        let mut model = BTreeMap::new();
        let mut reopen_counter = 0usize;
        let mut tree = BTree::new(0);

        {
            let steps = tc.usize(1, 16);

            for step in 0..steps {
                let op = tc.u8(4);
                let key = tc.bytes(1, 8);
                let value = tc.bytes(0, 24);

                match op {
                    0 => {
                        let inserted = tree.insert(&key, &value);
                        let expected = if model.contains_key(&key) {
                            false
                        } else {
                            model.insert(key.clone(), value.clone());
                            true
                        };
                        assert_eq!(inserted, expected, "step {step}: insert result diverged");
                    }
                    1 => {
                        let inserted = tree.upsert(&key, &value);
                        let expected = model.insert(key.clone(), value.clone()).is_none();
                        assert_eq!(inserted, expected, "step {step}: upsert result diverged");
                    }
                    2 => {
                        let removed = tree.remove(&key);
                        let expected = model.remove(&key).is_some();
                        assert_eq!(removed, expected, "step {step}: remove result diverged");
                    }
                    3 => {
                        assert_eq!(
                            tree.lookup(&key),
                            model.get(&key).cloned(),
                            "step {step}: lookup diverged from model"
                        );
                    }
                    _ => {
                        assert_tree_matches_model(
                            &tree,
                            &model,
                            &format!("pre-reopen checkpoint {reopen_counter}"),
                        );
                        reopen_counter += 1;
                        break;
                    }
                }
            }

            if reopen_counter == 0 {
                assert_tree_matches_model(&tree, &model, "pre-final flush");
                reopen_counter = 1;
            }
        }

        for reopen_idx in 0..reopen_counter {
            tree = reopened(tree);

            assert_tree_matches_model(
                &tree,
                &model,
                &format!("post-reopen checkpoint {reopen_idx}"),
            );

            let extra_steps = tc.usize(1, 6);
            for step in 0..extra_steps {
                let op = tc.u8(2);
                let key = tc.bytes(1, 8);
                let value = tc.bytes(0, 24);

                match op {
                    0 => {
                        let inserted = tree.upsert(&key, &value);
                        let expected = model.insert(key.clone(), value.clone()).is_none();
                        assert_eq!(
                            inserted, expected,
                            "reopen {reopen_idx} step {step}: upsert result diverged"
                        );
                    }
                    1 => {
                        let removed = tree.remove(&key);
                        let expected = model.remove(&key).is_some();
                        assert_eq!(
                            removed, expected,
                            "reopen {reopen_idx} step {step}: remove result diverged"
                        );
                    }
                    _ => {
                        assert_eq!(
                            tree.lookup(&key),
                            model.get(&key).cloned(),
                            "reopen {reopen_idx} step {step}: lookup diverged from model"
                        );
                    }
                }
            }

            assert_tree_matches_model(
                &tree,
                &model,
                &format!("post-reopen mutation checkpoint {reopen_idx}"),
            );
        }
    }
}

#[test]
fn scans_stop_with_the_row_that_is_refused() {
    let mut tree = BTree::new(0);
    for i in 0..200u32 {
        tree.insert(&i.to_be_bytes(), &[]);
    }
    let below = |bound: u32| {
        move |key: &[u8], _: &[u8]| u32::from_be_bytes(key.try_into().unwrap()) < bound
    };
    let low = 10u32.to_be_bytes();
    let up = numbers(tree.scan_range_until(Bound::Included(&low), Bound::Unbounded, below(13)));
    assert_eq!(up, vec![10, 11, 12, 13]);
    let above = |key: &[u8], _: &[u8]| u32::from_be_bytes(key.try_into().unwrap()) > 197;
    let down = numbers(tree.scan_range_desc_until(Bound::Unbounded, Bound::Unbounded, above));
    assert_eq!(down, vec![199, 198, 197]);
    let first = numbers(tree.scan_prefix_until(&[0, 0, 0], below(1)));
    assert_eq!(first, vec![0, 1]);
}

#[test]
fn removal_undoes_insertion() {
    let mut tree = BTree::new(0);
    for i in 0..500u32 {
        tree.insert(&(i * 2).to_be_bytes(), &i.to_be_bytes());
    }
    let before = collect_all(&tree);
    for i in 0..500u32 {
        assert!(tree.insert(&(i * 2 + 1).to_be_bytes(), b"odd"));
    }
    for i in 0..500u32 {
        assert!(tree.remove(&(i * 2 + 1).to_be_bytes()));
        assert!(!tree.remove(&(i * 2 + 1).to_be_bytes()));
    }
    assert_eq!(collect_all(&tree), before);
}

#[test]
fn descending_scan_is_the_ascending_one_reversed() {
    let mut tree = BTree::new(0);
    for i in (0..3000u32).rev() {
        tree.insert(&i.to_be_bytes(), &[7; 40]);
    }
    let lower = 100u32.to_be_bytes();
    let upper = 2900u32.to_be_bytes();
    let mut up = collect_range(&tree, Bound::Excluded(&lower), Bound::Included(&upper));
    let down = collect_range_desc(&tree, Bound::Excluded(&lower), Bound::Included(&upper));
    assert_eq!(up.len(), 2800);
    up.reverse();
    assert_eq!(up, down);
}

fn leaf_keys(tree: BTree) -> Vec<Vec<Vec<u8>>> {
    let mut leaves: Vec<Vec<Vec<u8>>> = Vec::new();
    for node in tree.into_nodes() {
        if let Node::Leaf(leaf) = node {
            leaves.push(leaf.rows.into_iter().map(|row| row.key).collect());
        }
    }
    leaves.sort();
    leaves
}

#[test]
fn full_leaf_is_cut_behind_its_middle_row() {
    let value = vec![1; 20_000];
    for (key, left, right) in [
        (b"d", vec![b"a".to_vec(), b"b".to_vec()], vec![b"c".to_vec(), b"d".to_vec()]),
        (b"A", vec![b"A".to_vec(), b"a".to_vec(), b"b".to_vec()], vec![b"c".to_vec()]),
    ] {
        let mut tree = BTree::new(1);
        for first in [b"a", b"b", b"c"] {
            assert!(tree.insert(first, &value));
        }
        assert!(!tree.insert(b"b", b"other"));
        assert!(tree.insert(key, &value));
        assert_eq!(leaf_keys(tree), vec![left, right]);
    }
}

#[test]
fn leaf_of_one_row_without_room_becomes_two() {
    let value = vec![1; 40_000];
    let mut tree = BTree::new(1);
    assert!(tree.upsert(b"b", &value));
    assert!(tree.upsert(b"a", &value));
    assert!(!tree.upsert(b"a", &value[..10]));
    assert_eq!(leaf_keys(tree), vec![vec![b"a".to_vec()], vec![b"b".to_vec()]]);
}

#[test]
fn full_inner_node_is_cut_at_its_middle_separator() {
    let key = |n: u8| {
        let mut key = vec![0; 14_000];
        key[0] = n;
        key
    };
    let mut tree = BTree::new(1);
    for n in 0..10 {
        assert!(tree.insert(&key(n), &[n; 12_000]));
    }
    assert_eq!(tree.height(), 1);
    assert!(tree.insert(&key(10), &[10; 12_000]));
    assert_eq!(tree.height(), 2);
    for n in 0..11 {
        assert_eq!(tree.lookup(&key(n)), Some(vec![n; 12_000]));
    }
    let root = tree.root_page_id() as usize;
    let nodes = tree.into_nodes();
    let mut inner: Vec<(Vec<u8>, usize)> = Vec::new();
    for (pid, node) in nodes.iter().enumerate() {
        if let Node::Inner(node) = node {
            let separators: Vec<u8> = node.separators.iter().map(|s| s[0]).collect();
            if pid == root {
                assert_eq!(separators, vec![5]);
            }
            inner.push((separators, node.children.len()));
        }
    }
    inner.sort();
    assert_eq!(inner, vec![(vec![1, 3], 3), (vec![5], 2), (vec![7, 9], 3)]);
}
