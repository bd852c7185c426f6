use pagebox::betree::append::append_internal_buffer_message;
use pagebox::betree::layout::{BODY_LEN_OFF, HEADER_SIZE, LEAF_DIR_ENTRY_SIZE};
use pagebox::betree::leaf_append::{
    append_leaf_entry_batch, append_leaf_entry_message, append_leaf_entry_prefix,
};
use pagebox::betree::lookup::{
    find_child_slot_by_frame, internal_child_array_range, lookup_child_swip, lookup_step,
    write_child_swip_at, LeafPageReader, LookupStep,
};
use pagebox::betree::message::{BufferedMessage, Timestamp, VersionRecord};
use pagebox::betree::node::{CowBeTreeError, Fence, LeafEntry, NodePage};
use pagebox::betree::reader::{decode_page, decode_version, read_u32, BodyReader};
use pagebox::betree::split::split_leaf_into_pages;
use pagebox::betree::writer::{encode_internal_page, encode_leaf_page, encoded_page_len};
use pagebox::page_id::PAGE_SIZE;

fn version(commit_ts: Timestamp, value: &[u8]) -> VersionRecord {
    VersionRecord {
        commit_ts,
        value: value.to_vec(),
        deleted: false,
    }
}

#[test]
fn leaf_page_roundtrips_retained_versions_and_fences() {
    let fence = Fence {
        lower: b"a".to_vec(),
        upper: Some(b"z".to_vec()),
    };
    let entries = vec![
        LeafEntry {
            key: b"a".to_vec(),
            versions: vec![version(10, b"new"), version(1, b"old")],
        },
        LeafEntry {
            key: b"m".to_vec(),
            versions: vec![VersionRecord {
                commit_ts: 8,
                value: Vec::new(),
                deleted: true,
            }],
        },
    ];

    let mut page = [0u8; PAGE_SIZE];
    encode_leaf_page(&mut page, &fence, &entries).unwrap();
    assert_eq!(
        decode_page(&page).unwrap(),
        NodePage::Leaf { fence, entries },
        "leaf page decode should preserve fence and retained MVCC versions"
    );
}

#[test]
fn leaf_page_writes_offset_directory_for_binary_lookup() {
    let entries = vec![
        LeafEntry {
            key: b"k01".to_vec(),
            versions: vec![version(1, b"v01")],
        },
        LeafEntry {
            key: b"k02".to_vec(),
            versions: vec![version(2, b"v02")],
        },
        LeafEntry {
            key: b"k03".to_vec(),
            versions: vec![version(3, b"v03")],
        },
    ];

    let mut page = [0u8; PAGE_SIZE];
    encode_leaf_page(&mut page, &Fence::root(), &entries).unwrap();
    let body_len = read_u32(&page, BODY_LEN_OFF).unwrap() as usize;
    let directory_start = HEADER_SIZE + body_len - entries.len() * LEAF_DIR_ENTRY_SIZE;
    let offsets = (0..entries.len())
        .map(|idx| {
            let start = directory_start + idx * LEAF_DIR_ENTRY_SIZE;
            u32::from_le_bytes(page[start..start + LEAF_DIR_ENTRY_SIZE].try_into().unwrap())
                as usize
        })
        .collect::<Vec<_>>();

    assert_eq!(
        offsets[0], 6,
        "first root-fence entry should start immediately after leaf entry count"
    );
    assert!(
        offsets.windows(2).all(|pair| pair[0] < pair[1]),
        "leaf directory offsets should increase with sorted entries"
    );

    let LookupStep::Leaf {
        visible: Some(visible),
    } = lookup_step(&page, b"k03", 3).unwrap()
    else {
        panic!("directory-backed lookup should find the final key");
    };
    assert_eq!(visible.value, b"v03", "lookup value mismatch");
}

#[test]
fn internal_page_roundtrips_evicted_child_swips_and_buffered_messages() {
    let fence = Fence::root();
    let children = vec![11, 22, 33];
    let separators = vec![b"k10".to_vec(), b"k20".to_vec()];
    let buffer = vec![
        BufferedMessage::put(b"k05", 5, b"v05"),
        BufferedMessage::delete(b"k25", 7),
    ];

    let mut page = [0u8; PAGE_SIZE];
    encode_internal_page(&mut page, &fence, &children, &separators, &buffer).unwrap();
    assert_eq!(
        decode_page(&page).unwrap(),
        NodePage::Internal {
            fence,
            children,
            separators,
            buffer,
        },
        "internal page decode should preserve children as page-id swips and buffered messages"
    );
}

#[test]
fn raw_lookup_reads_leaf_visible_version_without_decoding_entries() {
    let entries = vec![
        LeafEntry {
            key: b"k10".to_vec(),
            versions: vec![version(20, b"new"), version(5, b"old")],
        },
        LeafEntry {
            key: b"k20".to_vec(),
            versions: vec![VersionRecord {
                commit_ts: 7,
                value: Vec::new(),
                deleted: true,
            }],
        },
    ];

    let mut page = [0u8; PAGE_SIZE];
    encode_leaf_page(&mut page, &Fence::root(), &entries).unwrap();

    let LookupStep::Leaf {
        visible: Some(visible),
    } = lookup_step(&page, b"k10", 10).unwrap()
    else {
        panic!("raw lookup should find the older visible leaf version");
    };
    assert_eq!(visible.commit_ts, 5, "visible commit timestamp mismatch");
    assert_eq!(visible.value, b"old", "visible value mismatch");

    let LookupStep::Leaf { visible } = lookup_step(&page, b"k15", 10).unwrap() else {
        panic!("raw lookup should stay on the leaf page");
    };
    assert!(
        visible.is_none(),
        "missing key should not materialize a version"
    );
}

#[test]
fn raw_lookup_routes_internal_child_and_reads_matching_buffer_message() {
    let children = vec![11, 22, 33];
    let separators = vec![b"k10".to_vec(), b"k20".to_vec()];
    let buffer = vec![
        BufferedMessage::put(b"k30", 30, b"other"),
        BufferedMessage::delete(b"k25", 20),
        BufferedMessage::put(b"k25", 12, b"new"),
        BufferedMessage::put(b"k25", 5, b"old"),
    ];

    let mut page = [0u8; PAGE_SIZE];
    encode_internal_page(&mut page, &Fence::root(), &children, &separators, &buffer).unwrap();

    let LookupStep::Internal {
        child_swip,
        visible_buffer: Some(visible),
        buffer_count,
        ..
    } = lookup_step(&page, b"k25", 15).unwrap()
    else {
        panic!("raw lookup should route through the internal page");
    };
    assert_eq!(
        child_swip,
        33,
        "child routing should follow separators"
    );
    assert_eq!(buffer_count, 4, "buffer count should be reported");
    assert_eq!(
        visible.value, b"new",
        "newest visible buffer message should win"
    );
    assert_eq!(visible.commit_ts, 12, "buffer timestamp mismatch");
}

#[test]
fn lookup_child_swip_routes_without_scanning_buffer() {
    let children = vec![11, 22, 33];
    let separators = vec![b"k10".to_vec(), b"k20".to_vec()];
    let buffer = vec![
        BufferedMessage::put(b"k25", 12, b"buffered"),
        BufferedMessage::put(b"k05", 5, b"early"),
    ];

    let mut page = [0u8; PAGE_SIZE];
    encode_internal_page(&mut page, &Fence::root(), &children, &separators, &buffer).unwrap();

    // Keys below the first separator route to child 0.
    assert_eq!(
        lookup_child_swip(&page, b"k00").unwrap().unwrap(),
        11,
        "key below first separator routes to first child",
    );
    // Key equal to a separator routes right (separator <= key).
    assert_eq!(
        lookup_child_swip(&page, b"k10").unwrap().unwrap(),
        22,
        "key equal to a separator routes past it",
    );
    // Key above the last separator routes to the final child.
    assert_eq!(
        lookup_child_swip(&page, b"zzz").unwrap().unwrap(),
        33,
        "key above last separator routes to last child",
    );
}

#[test]
fn lookup_child_swip_returns_none_for_leaf_pages() {
    let entries = vec![LeafEntry {
        key: b"k10".to_vec(),
        versions: vec![version(1, b"v01")],
    }];
    let mut page = [0u8; PAGE_SIZE];
    encode_leaf_page(&mut page, &Fence::root(), &entries).unwrap();

    assert!(
        lookup_child_swip(&page, b"k10").unwrap().is_none(),
        "leaf pages have no child to route to",
    );
}

#[test]
fn internal_child_array_range_locates_child_slots_for_internal_pages() {
    let children = vec![11, 22, 33];
    let separators = vec![b"k10".to_vec(), b"k20".to_vec()];
    let mut page = [0u8; PAGE_SIZE];
    encode_internal_page(&mut page, &Fence::root(), &children, &separators, &[]).unwrap();

    let (child_count, child_offset) = internal_child_array_range(&page)
        .expect("internal page must expose its child array range");
    assert_eq!(child_count, 3, "child count mismatch");
    // Each child slot is an 8-byte little-endian SWIP word; the first one
    // at child_offset must encode the Evicted page ID 11.
    let raw = u64::from_le_bytes(page[child_offset..child_offset + 8].try_into().unwrap());
    assert_eq!(
        raw,
        11,
        "first child slot should encode page id 11",
    );
}

#[test]
fn internal_child_array_range_rejects_leaf_pages() {
    let entries = vec![LeafEntry {
        key: b"k10".to_vec(),
        versions: vec![version(1, b"v01")],
    }];
    let mut page = [0u8; PAGE_SIZE];
    encode_leaf_page(&mut page, &Fence::root(), &entries).unwrap();

    assert!(
        internal_child_array_range(&page).is_none(),
        "leaf pages must not expose a child array range",
    );
}

#[test]
fn raw_append_adds_internal_buffer_message_without_reencoding_page() {
    let children = vec![11, 22];
    let separators = vec![b"k10".to_vec()];
    let buffer = vec![BufferedMessage::put(b"k05", 5, b"old")];
    let appended = BufferedMessage::put(b"k15", 9, b"new");

    let mut page = [0u8; PAGE_SIZE];
    let before_body_len =
        encode_internal_page(&mut page, &Fence::root(), &children, &separators, &buffer)
            .unwrap()
            - HEADER_SIZE;
    let append = append_internal_buffer_message(&mut page, &appended, 8, 512, 8)
        .unwrap()
        .expect("below-threshold internal message should append in place");

    assert_eq!(append.buffer_count, 2, "buffer count after append mismatch");
    assert_eq!(
        append.body_len,
        before_body_len + appended.encoded_len(),
        "body length should grow by the encoded message only"
    );
    let NodePage::Internal { buffer, .. } = decode_page(&page).unwrap() else {
        panic!("appended page should remain internal");
    };
    assert_eq!(buffer.len(), 2, "decoded buffer should include append");
    assert_eq!(buffer[1], appended, "appended message mismatch");

    let LookupStep::Internal {
        visible_buffer: Some(visible),
        ..
    } = lookup_step(&page, b"k15", 10).unwrap()
    else {
        panic!("raw lookup should see appended buffer message");
    };
    assert_eq!(visible.value, b"new", "appended buffer value mismatch");
}

#[test]
fn raw_append_declines_when_threshold_would_flush() {
    let children = vec![11, 22];
    let separators = vec![b"k10".to_vec()];
    let buffer = vec![BufferedMessage::put(b"k05", 5, b"old")];

    let mut page = [0u8; PAGE_SIZE];
    encode_internal_page(&mut page, &Fence::root(), &children, &separators, &buffer).unwrap();
    let body_len = read_u32(&page, BODY_LEN_OFF).unwrap();

    let result = append_internal_buffer_message(
        &mut page,
        &BufferedMessage::put(b"k15", 9, b"new"),
        2,
        512,
        8,
    )
    .unwrap();
    assert!(
        result.is_none(),
        "append should fall back when the new message reaches the flush threshold"
    );
    assert_eq!(
        read_u32(&page, BODY_LEN_OFF).unwrap(),
        body_len,
        "declined append must not mutate page body length"
    );
    let NodePage::Internal { buffer, .. } = decode_page(&page).unwrap() else {
        panic!("page should remain internal");
    };
    assert_eq!(buffer.len(), 1, "declined append should not alter buffer");
}

#[test]
fn raw_internal_buffer_append_accepts_append_ordered_messages() {
    let children = vec![11, 22];
    let separators = vec![b"k10".to_vec()];
    let buffer = vec![
        BufferedMessage::put(b"k15", 7, b"other"),
        BufferedMessage::put(b"k05", 5, b"old"),
    ];
    let appended = BufferedMessage::put(b"k05", 8, b"new");

    let mut page = [0u8; PAGE_SIZE];
    encode_internal_page(&mut page, &Fence::root(), &children, &separators, &buffer).unwrap();
    let body_len = read_u32(&page, BODY_LEN_OFF).unwrap();

    let append = append_internal_buffer_message(&mut page, &appended, 8, 512, 8)
        .unwrap()
        .expect("append-order internal buffers should accept unsorted keys");

    assert_eq!(append.buffer_count, 3, "buffer count after append mismatch");
    assert!(
        read_u32(&page, BODY_LEN_OFF).unwrap() > body_len,
        "accepted append should grow the page body"
    );
    let NodePage::Internal { buffer, .. } = decode_page(&page).unwrap() else {
        panic!("appended page should remain internal");
    };
    assert_eq!(
        buffer[2], appended,
        "decoded buffer should preserve append order"
    );

    let LookupStep::Internal {
        visible_buffer: Some(visible),
        ..
    } = lookup_step(&page, b"k05", 10).unwrap()
    else {
        panic!("raw lookup should scan the whole append-ordered buffer");
    };
    assert_eq!(visible.commit_ts, 8, "newest appended version should win");
    assert_eq!(visible.value, b"new", "appended buffer value mismatch");
}

#[test]
fn raw_leaf_append_adds_ordered_entry_without_reencoding_page() {
    let entries = vec![
        LeafEntry {
            key: b"k05".to_vec(),
            versions: vec![version(5, b"old")],
        },
        LeafEntry {
            key: b"k10".to_vec(),
            versions: vec![version(8, b"mid")],
        },
    ];
    let appended = BufferedMessage::put(b"k15", 9, b"new");

    let mut page = [0u8; PAGE_SIZE];
    let before_body_len =
        encode_leaf_page(&mut page, &Fence::root(), &entries).unwrap() - HEADER_SIZE;
    let append = append_leaf_entry_message(&mut page, &appended, 8)
        .unwrap()
        .expect("ordered new leaf entry should append in place");

    assert_eq!(append.entry_count, 3, "entry count after append mismatch");
    assert!(
        append.body_len > before_body_len,
        "body length should grow after leaf append"
    );
    let NodePage::Leaf { entries, .. } = decode_page(&page).unwrap() else {
        panic!("appended page should remain a leaf");
    };
    assert_eq!(entries.len(), 3, "decoded leaf should include append");
    assert_eq!(entries[2].key, b"k15", "appended key mismatch");
    assert_eq!(
        entries[2].versions[0].value, b"new",
        "appended value mismatch"
    );

    let LookupStep::Leaf {
        visible: Some(visible),
    } = lookup_step(&page, b"k15", 10).unwrap()
    else {
        panic!("raw lookup should see appended leaf entry");
    };
    assert_eq!(visible.value, b"new", "appended leaf lookup mismatch");
}

#[test]
fn raw_leaf_batch_append_adds_ordered_entries_without_reencoding_page() {
    let entries = vec![LeafEntry {
        key: b"k10".to_vec(),
        versions: vec![version(8, b"mid")],
    }];
    let appended = vec![
        BufferedMessage::put(b"k15", 9, b"new-15"),
        BufferedMessage::put(b"k20", 10, b"new-20"),
    ];

    let mut page = [0u8; PAGE_SIZE];
    let before_body_len =
        encode_leaf_page(&mut page, &Fence::root(), &entries).unwrap() - HEADER_SIZE;
    let append = append_leaf_entry_batch(&mut page, &appended, 8)
        .unwrap()
        .expect("ordered new leaf entries should append in one batch");

    assert_eq!(append.entry_count, 3, "entry count after batch mismatch");
    assert_eq!(
        append.message_count, 2,
        "batch append should report appended message count"
    );
    assert!(
        append.body_len > before_body_len,
        "body length should grow after batch append"
    );
    let NodePage::Leaf { entries, .. } = decode_page(&page).unwrap() else {
        panic!("batch-appended page should remain a leaf");
    };
    assert_eq!(
        entries
            .iter()
            .map(|entry| entry.key.as_slice())
            .collect::<Vec<_>>(),
        vec![&b"k10"[..], &b"k15"[..], &b"k20"[..]],
        "decoded leaf should preserve appended key order"
    );

    let LookupStep::Leaf {
        visible: Some(visible),
    } = lookup_step(&page, b"k20", 10).unwrap()
    else {
        panic!("raw lookup should see batch-appended leaf entry");
    };
    assert_eq!(visible.value, b"new-20", "batch leaf lookup mismatch");
}

#[test]
fn raw_leaf_append_declines_out_of_order_entry() {
    let entries = vec![LeafEntry {
        key: b"k10".to_vec(),
        versions: vec![version(8, b"mid")],
    }];

    let mut page = [0u8; PAGE_SIZE];
    encode_leaf_page(&mut page, &Fence::root(), &entries).unwrap();
    let body_len = read_u32(&page, BODY_LEN_OFF).unwrap();
    let result =
        append_leaf_entry_message(&mut page, &BufferedMessage::put(b"k05", 9, b"old"), 8)
            .unwrap();

    assert!(
        result.is_none(),
        "out-of-order key should fall back to the full leaf path"
    );
    assert_eq!(
        read_u32(&page, BODY_LEN_OFF).unwrap(),
        body_len,
        "declined leaf append must not mutate body length"
    );
    let NodePage::Leaf { entries, .. } = decode_page(&page).unwrap() else {
        panic!("page should remain a leaf");
    };
    assert_eq!(entries.len(), 1, "declined append should not add entry");
}

#[test]
fn raw_leaf_batch_append_declines_unsorted_batch_without_partial_mutation() {
    let entries = vec![LeafEntry {
        key: b"k10".to_vec(),
        versions: vec![version(8, b"mid")],
    }];
    let appended = vec![
        BufferedMessage::put(b"k20", 9, b"new-20"),
        BufferedMessage::put(b"k15", 10, b"new-15"),
    ];

    let mut page = [0u8; PAGE_SIZE];
    encode_leaf_page(&mut page, &Fence::root(), &entries).unwrap();
    let body_len = read_u32(&page, BODY_LEN_OFF).unwrap();
    let result = append_leaf_entry_batch(&mut page, &appended, 8).unwrap();

    assert!(
        result.is_none(),
        "unsorted batch should fall back before mutating the leaf"
    );
    assert_eq!(
        read_u32(&page, BODY_LEN_OFF).unwrap(),
        body_len,
        "declined batch append must not mutate body length"
    );
    let NodePage::Leaf { entries, .. } = decode_page(&page).unwrap() else {
        panic!("page should remain a leaf");
    };
    assert_eq!(
        entries.len(),
        1,
        "declined batch append should not add any entries"
    );
}

#[test]
fn raw_leaf_prefix_append_stops_before_capacity_without_reencoding_page() {
    let entries = vec![LeafEntry {
        key: b"k10".to_vec(),
        versions: vec![version(8, b"mid")],
    }];
    let appended = vec![
        BufferedMessage::put(b"k15", 9, b"new-15"),
        BufferedMessage::put(b"k20", 10, b"new-20"),
    ];

    let mut page = [0u8; PAGE_SIZE];
    encode_leaf_page(&mut page, &Fence::root(), &entries).unwrap();
    let append = append_leaf_entry_prefix(&mut page, &appended, 2)
        .unwrap()
        .expect("first ordered entry should fit before capacity");

    assert_eq!(append.message_count, 1, "prefix length mismatch");
    assert_eq!(append.entry_count, 2, "entry count after prefix mismatch");
    let NodePage::Leaf { entries, .. } = decode_page(&page).unwrap() else {
        panic!("prefix-appended page should remain a leaf");
    };
    assert_eq!(
        entries
            .iter()
            .map(|entry| entry.key.as_slice())
            .collect::<Vec<_>>(),
        vec![&b"k10"[..], &b"k15"[..]],
        "prefix append should stop before the full batch"
    );
}

#[test]
fn sorted_validation_rejects_bad_leaf_order() {
    let mut page = [0u8; PAGE_SIZE];
    let entries = vec![
        LeafEntry {
            key: b"b".to_vec(),
            versions: vec![version(1, b"b")],
        },
        LeafEntry {
            key: b"a".to_vec(),
            versions: vec![version(1, b"a")],
        },
    ];
    encode_leaf_page(&mut page, &Fence::root(), &entries).unwrap();
    assert!(
        decode_page(&page).is_err(),
        "decode should reject unsorted leaf keys"
    );
}

#[test]
fn leaf_page_reader_reads_entries_and_keys_zero_copy() {
    let entries: Vec<LeafEntry> = (0..5)
        .map(|i| LeafEntry {
            key: format!("key{i:02}").into_bytes(),
            versions: vec![version(i as Timestamp, format!("val{i:02}").as_bytes())],
        })
        .collect();
    let fence = Fence {
        lower: b"a".to_vec(),
        upper: Some(b"z".to_vec()),
    };

    let mut page = [0u8; PAGE_SIZE];
    encode_leaf_page(&mut page, &fence, &entries).unwrap();

    let reader = LeafPageReader::new(&page).unwrap();
    assert_eq!(reader.entry_count(), 5, "entry count mismatch");
    for (idx, entry) in entries.iter().enumerate() {
        assert_eq!(
            reader.entry_key(idx).unwrap(),
            entry.key.as_slice(),
            "entry key mismatch at index {idx}"
        );
    }
    let read_fence = reader.fence().unwrap();
    assert_eq!(read_fence, fence, "fence mismatch");
}

#[test]
fn leaf_page_reader_entry_raw_preserves_multi_version_entries() {
    let entries = vec![
        LeafEntry {
            key: b"k01".to_vec(),
            versions: vec![version(10, b"new"), version(1, b"old")],
        },
        LeafEntry {
            key: b"k02".to_vec(),
            versions: vec![version(2, b"v02")],
        },
        LeafEntry {
            key: b"k03".to_vec(),
            versions: vec![
                VersionRecord {
                    commit_ts: 7,
                    value: Vec::new(),
                    deleted: true,
                },
                version(3, b"v03"),
            ],
        },
    ];

    let mut page = [0u8; PAGE_SIZE];
    encode_leaf_page(&mut page, &Fence::root(), &entries).unwrap();

    let reader = LeafPageReader::new(&page).unwrap();
    for (idx, entry) in entries.iter().enumerate() {
        let raw = reader.entry_raw(idx).unwrap();
        let mut entry_reader = BodyReader::at(raw, 0).unwrap();
        let key = entry_reader.read_bytes_u16_len().unwrap();
        let version_count = entry_reader.read_u16().unwrap() as usize;
        assert_eq!(key, entry.key.as_slice(), "raw entry key mismatch");
        assert_eq!(
            version_count,
            entry.versions.len(),
            "raw entry version count mismatch"
        );
        for version in &entry.versions {
            let decoded = decode_version(&mut entry_reader).unwrap();
            assert_eq!(decoded, *version, "version mismatch");
        }
    }
}

#[test]
fn split_leaf_into_pages_distributes_entries_and_preserves_versions() {
    let entries: Vec<LeafEntry> = (0..10)
        .map(|i| LeafEntry {
            key: format!("key{i:02}").into_bytes(),
            versions: vec![
                version((i + 1) as Timestamp, format!("new{i:02}").as_bytes()),
                version(1, format!("old{i:02}").as_bytes()),
            ],
        })
        .collect();
    let fence = Fence {
        lower: b"a".to_vec(),
        upper: Some(b"zzz".to_vec()),
    };

    let mut src = [0u8; PAGE_SIZE];
    encode_leaf_page(&mut src, &fence, &entries).unwrap();

    let mid = 4;
    let separator = entries[mid].key.clone();
    let left_fence = fence.left_of(separator.clone());
    let right_fence = fence.right_of(separator.clone());

    let mut dst_left = [0u8; PAGE_SIZE];
    let mut dst_right = [0u8; PAGE_SIZE];
    let result = split_leaf_into_pages(
        &src,
        &mut dst_left,
        &mut dst_right,
        &left_fence,
        &right_fence,
        mid,
    )
    .unwrap();

    assert_eq!(result.separator, separator, "separator mismatch");
    assert_eq!(result.left_count, mid, "left count mismatch");
    assert_eq!(
        result.right_count,
        entries.len() - mid,
        "right count mismatch"
    );

    let NodePage::Leaf {
        fence: lf,
        entries: le,
    } = decode_page(&dst_left).unwrap()
    else {
        panic!("left page should be a leaf");
    };
    assert_eq!(lf, left_fence, "left fence mismatch");
    assert_eq!(
        le,
        entries[..mid],
        "left entries should match the first half"
    );

    let NodePage::Leaf {
        fence: rf,
        entries: re,
    } = decode_page(&dst_right).unwrap()
    else {
        panic!("right page should be a leaf");
    };
    assert_eq!(rf, right_fence, "right fence mismatch");
    assert_eq!(
        re,
        entries[mid..],
        "right entries should match the second half"
    );
}

#[test]
fn split_leaf_into_pages_rejects_invalid_split_point() {
    let entries = vec![
        LeafEntry {
            key: b"k01".to_vec(),
            versions: vec![version(1, b"v01")],
        },
        LeafEntry {
            key: b"k02".to_vec(),
            versions: vec![version(2, b"v02")],
        },
    ];
    let mut src = [0u8; PAGE_SIZE];
    encode_leaf_page(&mut src, &Fence::root(), &entries).unwrap();

    let mut dst_left = [0u8; PAGE_SIZE];
    let mut dst_right = [0u8; PAGE_SIZE];
    let fence = Fence::root();

    assert!(
        split_leaf_into_pages(&src, &mut dst_left, &mut dst_right, &fence, &fence, 0).is_err(),
        "mid=0 should be rejected"
    );
    assert!(
        split_leaf_into_pages(&src, &mut dst_left, &mut dst_right, &fence, &fence, 2).is_err(),
        "mid=entry_count should be rejected"
    );
}

#[test]
fn child_slots_are_found_and_rewritten_in_place() {
    let children = vec![11, 22, 33];
    let separators = vec![b"k10".to_vec(), b"k20".to_vec()];
    let mut page = [0u8; PAGE_SIZE];
    encode_internal_page(&mut page, &Fence::root(), &children, &separators, &[]).unwrap();

    assert_eq!(find_child_slot_by_frame(&page, 0, 22), Some(1));
    assert_eq!(find_child_slot_by_frame(&page, 33, 99), Some(2));
    assert_eq!(find_child_slot_by_frame(&page, 98, 99), None);

    assert_eq!(write_child_swip_at(&mut page, 1, 77), Some(()));
    assert_eq!(find_child_slot_by_frame(&page, 0, 77), Some(1));
    assert_eq!(find_child_slot_by_frame(&page, 0, 22), None);
    let before = page;
    assert_eq!(write_child_swip_at(&mut page, 3, 5), None);
    assert!(before == page);
    match decode_page(&page).unwrap() {
        NodePage::Internal { children, .. } => assert_eq!(children, vec![11, 77, 33]),
        NodePage::Leaf { .. } => panic!("an internal page"),
    }
}

#[test]
fn page_length_is_known_before_the_page_is_written() {
    let leaf = NodePage::Leaf {
        fence: Fence::root(),
        entries: vec![LeafEntry { key: b"k".to_vec(), versions: vec![version(1, b"vv")] }],
    };
    // header 32, fence 4, count 2, entry 17 + 1 + 2, directory 4
    assert_eq!(encoded_page_len(&leaf, PAGE_SIZE), Ok(62));
    assert_eq!(
        encoded_page_len(&leaf, 61),
        Err(CowBeTreeError::PageOverflow { kind: "leaf", needed: 62, capacity: 61 })
    );
}
