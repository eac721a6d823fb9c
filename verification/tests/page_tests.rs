use hw_btree::io::PageId;
use hw_btree::page::free_list::{free_list_capacity, free_list_decode, free_list_encode};
use hw_btree::page::header::{DecodeError, Header};
use hw_btree::page::internal::{
    internal_child_index, internal_insert_split_child, internal_replace_child,
    internal_split_with_promotion, InternalNode,
};
use hw_btree::page::leaf::{leaf_insert, leaf_search, leaf_split_by_size, leaf_update, LeafNode};
use hw_btree::page::{check_limits, max_kv_size, Error, Page};

fn build_leaf(entries: &[(&[u8], &[u8])]) -> LeafNode {
    let mut node = LeafNode::empty(4096);
    for (k, v) in entries {
        node.push(k, v);
    }
    node
}

fn build_internal(keys: &[&[u8]], children: &[PageId]) -> InternalNode {
    let mut node = InternalNode::empty(4096);
    for k in keys {
        node.push_key(k);
    }
    for &c in children {
        node.push_child(c);
    }
    node
}

#[test]
fn free_list_round_trip() {
    let bytes = free_list_encode(7, 42, &[100, 200, 300], 256);
    let (next, ids) = free_list_decode(7, bytes);
    assert_eq!(next, 42);
    assert_eq!(ids, vec![100, 200, 300]);
}

#[test]
fn round_trip_end_of_chain() {
    let bytes = free_list_encode(7, 0, &[], 256);
    let (next, ids) = free_list_decode(7, bytes);
    assert_eq!(next, 0);
    assert!(ids.is_empty());
}

#[test]
fn capacity_matches_encode_limit() {
    let page_size = 256;
    let cap = free_list_capacity(page_size);
    let ids: Vec<PageId> = (0..cap as u64).collect();
    let bytes = free_list_encode(1, 0, &ids, page_size);
    let (_, decoded) = free_list_decode(1, bytes);
    assert_eq!(decoded, ids);
}

#[test]
fn free_list_capacity_formula() {
    // (page_size - 19) / 8
    assert_eq!(free_list_capacity(256), 29);
    assert_eq!(free_list_capacity(4096), 509);
    let bytes = free_list_encode(3, 9, &[5], 64);
    assert_eq!(bytes.len(), 64);
    assert_eq!(bytes[0], 0x03);
}

#[test]
fn internal_round_trip() {
    let node = build_internal(&[b"b", b"d", b"f"], &[10, 20, 30, 40]);
    let bytes = node.to_bytes(9, 4096);
    let decoded = InternalNode::decode(9, bytes);
    assert_eq!(decoded.id(), 9);
    assert_eq!(decoded.nkeys(), 3);
    assert_eq!(decoded.nchildren(), 4);
    assert_eq!(decoded.get_key(0), b"b");
    assert_eq!(decoded.get_key(2), b"f");
    assert_eq!(decoded.get_child(0), 10);
    assert_eq!(decoded.get_child(3), 40);
}

#[test]
fn child_index_boundary_table() {
    let node = build_internal(&[b"b", b"d", b"f"], &[0, 1, 2, 3]);
    let cases: &[(&[u8], u16)] = &[
        (b"a", 0),
        (b"b", 1),
        (b"c", 1),
        (b"d", 2),
        (b"e", 2),
        (b"f", 3),
        (b"z", 3),
    ];
    for (key, expected) in cases {
        assert_eq!(
            internal_child_index(&node, key),
            *expected,
            "key {:?}",
            String::from_utf8_lossy(key)
        );
    }
}

#[test]
fn insert_split_child_worked_example() {
    let node = build_internal(&[b"d", b"f"], &[100, 101, 102]);
    let grown = internal_insert_split_child(&node, 1, b"e", 200, 201);
    assert_eq!(grown.nkeys(), 3);
    assert_eq!(grown.get_key(0), b"d");
    assert_eq!(grown.get_key(1), b"e");
    assert_eq!(grown.get_key(2), b"f");
    assert_eq!(
        (0..grown.nchildren()).map(|i| grown.get_child(i)).collect::<Vec<_>>(),
        vec![100, 200, 201, 102]
    );
}

#[test]
fn insert_split_child_boundary_zero() {
    let node = build_internal(&[b"d", b"f"], &[100, 101, 102]);
    let grown = internal_insert_split_child(&node, 0, b"b", 200, 201);
    assert_eq!(
        (0..grown.nkeys()).map(|i| grown.get_key(i).to_vec()).collect::<Vec<_>>(),
        vec![b"b".to_vec(), b"d".to_vec(), b"f".to_vec()]
    );
    assert_eq!(
        (0..grown.nchildren()).map(|i| grown.get_child(i)).collect::<Vec<_>>(),
        vec![200, 201, 101, 102]
    );
}

#[test]
fn insert_split_child_boundary_end() {
    let node = build_internal(&[b"d", b"f"], &[100, 101, 102]);
    let grown = internal_insert_split_child(&node, 2, b"h", 200, 201);
    assert_eq!(
        (0..grown.nkeys()).map(|i| grown.get_key(i).to_vec()).collect::<Vec<_>>(),
        vec![b"d".to_vec(), b"f".to_vec(), b"h".to_vec()]
    );
    assert_eq!(
        (0..grown.nchildren()).map(|i| grown.get_child(i)).collect::<Vec<_>>(),
        vec![100, 101, 200, 201]
    );
}

#[test]
fn split_with_promotion_removes_median_from_both_halves() {
    let page_size = 128usize;
    let mut node = InternalNode::empty(4096);
    let keys: Vec<String> = (0..12).map(|i| format!("key{i:03}")).collect();
    for k in &keys {
        node.push_key(k.as_bytes());
    }
    for i in 0..=keys.len() as u64 {
        node.push_child(i + 100);
    }
    let total_children_before = node.nchildren();

    let (left, promoted, right) = internal_split_with_promotion(node, page_size);
    assert!(left.nbytes() <= page_size);
    assert!(right.nbytes() <= page_size);

    let mut all_keys: Vec<Vec<u8>> = (0..left.nkeys()).map(|i| left.get_key(i).to_vec()).collect();
    all_keys.push(promoted.clone());
    all_keys.extend((0..right.nkeys()).map(|i| right.get_key(i).to_vec()));
    let expected: Vec<Vec<u8>> = keys.iter().map(|k| k.as_bytes().to_vec()).collect();
    assert_eq!(all_keys, expected);
    assert!(
        !left.get_key(left.nkeys() - 1).eq(promoted.as_slice()),
        "promoted key must not remain in left"
    );
    assert!(
        !(0..right.nkeys()).any(|i| right.get_key(i) == promoted.as_slice()),
        "promoted key must not remain in right"
    );

    assert_eq!(left.nchildren() + right.nchildren(), total_children_before);
}

#[test]
fn two_max_size_separators_fit_without_splitting() {
    let page_size = 256usize;
    let max = max_kv_size(page_size);
    let mut node = InternalNode::empty(page_size);
    node.push_key(&vec![b'a'; max]);
    node.push_key(&vec![b'z'; max]);
    node.push_child(1);
    node.push_child(2);
    node.push_child(3);
    assert!(
        node.nbytes() <= page_size,
        "2 max-size separators + 3 children ({}) must fit page_size ({page_size})",
        node.nbytes()
    );
}

#[test]
fn replace_child_keeps_keys_and_swaps_one_pointer() {
    let node = build_internal(&[b"d", b"f"], &[100, 101, 102]);
    let copy = internal_replace_child(&node, 1, 555);
    assert_eq!(copy.nkeys(), 2);
    assert_eq!(copy.get_key(0), b"d");
    assert_eq!(copy.get_key(1), b"f");
    assert_eq!(
        (0..copy.nchildren()).map(|i| copy.get_child(i)).collect::<Vec<_>>(),
        vec![100, 555, 102]
    );
    // the node it was built from is untouched (copy-on-write)
    assert_eq!(node.get_child(1), 101);
}

#[test]
fn round_trip_populated() {
    let node = build_leaf(&[(b"a", b"1"), (b"b", b"2"), (b"c", b"3")]);
    let bytes = node.to_bytes(7, 4096);
    let decoded = LeafNode::decode(7, bytes);
    assert_eq!(decoded.id(), 7);
    assert_eq!(decoded.nkeys(), 3);
    assert_eq!(decoded.get_key(0), b"a");
    assert_eq!(decoded.get_val(0), b"1");
    assert_eq!(decoded.get_key(2), b"c");
    assert_eq!(decoded.get_val(2), b"3");
}

#[test]
fn round_trip_empty() {
    let node = LeafNode::empty(64);
    let bytes = node.to_bytes(3, 256);
    let decoded = LeafNode::decode(3, bytes);
    assert_eq!(decoded.nkeys(), 0);
}

#[test]
fn leaf_search_finds_exact_and_insertion_point() {
    let node = build_leaf(&[(b"b", b"1"), (b"d", b"2"), (b"f", b"3")]);
    assert_eq!(leaf_search(&node, b"d"), Ok(1));
    assert_eq!(leaf_search(&node, b"a"), Err(0));
    assert_eq!(leaf_search(&node, b"c"), Err(1));
    assert_eq!(leaf_search(&node, b"z"), Err(3));
}

#[test]
fn leaf_search_on_empty_leaf_is_slot_zero() {
    let node = LeafNode::empty(16);
    assert_eq!(leaf_search(&node, b"anything"), Err(0));
    assert_eq!(leaf_search(&node, b""), Err(0));
}

#[test]
fn leaf_search_orders_prefixes_first() {
    let node = build_leaf(&[(b"a", b"1"), (b"ab", b"2"), (b"b", b"3")]);
    assert_eq!(leaf_search(&node, b"ab"), Ok(1));
    assert_eq!(leaf_search(&node, b"aa"), Err(1));
    assert_eq!(leaf_search(&node, b"abc"), Err(2));
}

#[test]
fn leaf_insert_and_update_build_new_nodes() {
    let node = build_leaf(&[(b"b", b"1"), (b"d", b"2")]);
    let inserted = leaf_insert(&node, 1, b"c", b"x");
    assert_eq!(inserted.nkeys(), 3);
    assert_eq!(inserted.get_key(1), b"c");
    assert_eq!(inserted.get_val(1), b"x");
    assert_eq!(inserted.get_key(2), b"d");
    let updated = leaf_update(&node, 1, b"d", b"new");
    assert_eq!(updated.nkeys(), 2);
    assert_eq!(updated.get_val(1), b"new");
    assert_eq!(updated.nbytes(), node.nbytes() + 2);
    // the node it was built from is untouched (copy-on-write)
    assert_eq!(node.get_val(1), b"2");
}

#[test]
fn split_by_size_preserves_all_entries_and_fits() {
    let page_size = 128usize;
    let mut node = LeafNode::empty(2 * page_size);
    let mut count = 0u32;
    while node.nbytes() <= page_size {
        node.push(format!("key{count:03}").as_bytes(), b"value");
        count += 1;
    }
    let total_keys = node.nkeys();
    assert!(total_keys >= 2, "need at least 2 entries to split");

    let (left, right) = leaf_split_by_size(node, page_size);
    assert!(left.nbytes() <= page_size);
    assert!(right.nbytes() <= page_size);
    assert_eq!(left.nkeys() + right.nkeys(), total_keys);
    for i in 0..left.nkeys() {
        assert_eq!(left.get_key(i), format!("key{i:03}").as_bytes());
    }
    for i in 0..right.nkeys() {
        let orig = i + left.nkeys();
        assert_eq!(right.get_key(i), format!("key{orig:03}").as_bytes());
    }
}

#[test]
fn max_kv_size_matches_derivation() {
    assert_eq!(max_kv_size(4096), (4096 - 11 - 28) / 2);
    assert_eq!(max_kv_size(4096), 2028);
    assert_eq!(max_kv_size(256), (256 - 11 - 28) / 2);
    assert_eq!(max_kv_size(256), 108);
}

#[test]
fn max_kv_size_saturates_on_tiny_pages() {
    assert_eq!(max_kv_size(0), 0);
    assert_eq!(max_kv_size(39), 0);
    assert_eq!(max_kv_size(41), 1);
}

#[test]
fn check_limits_accepts_up_to_the_maximum() {
    assert_eq!(check_limits(256, &[b'k'; 100], &[b'v'; 8]), Ok(()));
    assert_eq!(
        check_limits(256, &[b'k'; 100], &[b'v'; 9]),
        Err(Error::EntryTooLarge { len: 109, max: 108 })
    );
}

#[test]
fn page_round_trip_through_the_enum() {
    let leaf = build_leaf(&[(b"k", b"v")]);
    let bytes = Page::Leaf(leaf).to_bytes(4, 128);
    assert_eq!(bytes.len(), 128);
    match Page::decode(4, bytes) {
        Page::Leaf(l) => {
            assert_eq!(l.get_key(0), b"k");
            assert_eq!(l.get_val(0), b"v");
        }
        Page::Internal(_) => panic!("expected a leaf"),
    }
    let internal = build_internal(&[b"m"], &[2, 3]);
    let bytes = Page::Internal(internal).to_bytes(5, 128);
    match Page::decode(5, bytes) {
        Page::Internal(i) => {
            assert_eq!(i.get_key(0), b"m");
            assert_eq!(i.get_child(1), 3);
        }
        Page::Leaf(_) => panic!("expected an internal node"),
    }
}

#[test]
fn header_round_trip() {
    let h = Header::new(4096, 17, 42);
    let bytes = h.to_bytes(4096);
    assert_eq!(bytes.len(), 4096);
    assert_eq!(bytes[0], 0x2A);
    assert_eq!(&bytes[1..9], b"HWBTREE1");
    let back = Header::from_bytes(&bytes).unwrap();
    assert_eq!(back, h);
    assert_eq!(back.free_list_head, 0);
    assert_eq!(back.free_count, 0);
}

#[test]
fn header_from_zeroed_page_is_not_a_header() {
    assert_eq!(Header::from_bytes(&[0u8; 4096]), Err(DecodeError::NotAHeader));
    assert_eq!(Header::from_bytes(&[0x2Au8; 10]), Err(DecodeError::NotAHeader));
}

#[test]
fn header_with_another_version_is_refused() {
    let mut bytes = Header::new(4096, 1, 2).to_bytes(4096);
    bytes[9] = 7;
    bytes[10] = 0;
    bytes[11] = 0;
    bytes[12] = 0;
    assert_eq!(
        Header::from_bytes(&bytes),
        Err(DecodeError::VersionMismatch { found: 7, expected: 2 })
    );
}

#[test]
fn a_leaf_page_decodes_whatever_order_its_keys_are_in() {
    let mut node = LeafNode::empty(256);
    node.push(b"m", b"1");
    node.push(b"c", b"2");
    let decoded = match Page::decode(4, node.to_bytes(4, 256)) {
        Page::Leaf(l) => l,
        Page::Internal(_) => panic!("expected a leaf"),
    };
    assert_eq!(decoded.id(), 4);
    assert_eq!(decoded.nkeys(), 2);
    assert_eq!(decoded.get_key(0), b"m");
    assert_eq!(decoded.get_key(1), b"c");
}
