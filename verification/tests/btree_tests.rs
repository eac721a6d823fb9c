use std::collections::HashMap;

use hw_btree::btree::node_store::MemNodeStore;
use hw_btree::btree::{tree_get, BTree, BTREE_MAX_KEY_SIZE, BTREE_MAX_VAL_SIZE};
use hw_btree::node::{check_limits, max_kv_size, split2, split3, leaf_insert, Error, Node, NODE_LEAF};

/// A tree plus a reference map to cross-check against.
struct TestTree {
    tree: BTree<MemNodeStore>,
    reference: HashMap<String, String>,
}

impl TestTree {
    fn new() -> Self {
        TestTree { tree: BTree::new(MemNodeStore::new()), reference: HashMap::new() }
    }

    fn add(&mut self, key: &str, val: &str) {
        self.tree.insert(key.as_bytes(), val.as_bytes()).unwrap();
        self.reference.insert(key.to_string(), val.to_string());
    }

    fn del(&mut self, key: &str) -> bool {
        let found = self.tree.delete(key.as_bytes()).unwrap();
        if found {
            self.reference.remove(key);
        }
        found
    }

    fn verify(&self) {
        for (key, val) in &self.reference {
            assert_eq!(tree_get(&self.tree, key.as_bytes()), Some(val.clone().into_bytes()));
        }
    }
}

#[test]
fn insert_and_lookup_round_trip() {
    let mut t = TestTree::new();
    t.add("hello", "world");
    t.add("foo", "bar");
    t.verify();
    assert_eq!(tree_get(&t.tree, b"missing"), None);
}

#[test]
fn update_existing_key_overwrites_value() {
    let mut t = TestTree::new();
    t.add("key", "v1");
    t.add("key", "v2");
    t.verify();
}

#[test]
fn many_inserts_trigger_split_and_stay_lookupable() {
    let mut t = TestTree::new();
    for i in 0..300 {
        t.add(&format!("key{i:05}"), &format!("val{i}"));
    }
    t.verify();
}

#[test]
fn delete_removes_key() {
    let mut t = TestTree::new();
    t.add("a", "1");
    t.add("b", "2");
    assert!(t.del("a"));
    t.verify();
    assert_eq!(tree_get(&t.tree, b"a"), None);
}

#[test]
fn delete_missing_key_returns_false() {
    let mut t = TestTree::new();
    t.add("a", "1");
    assert!(!t.del("nonexistent"));
}

#[test]
fn many_inserts_then_deletes_trigger_merge_and_stay_consistent() {
    let mut t = TestTree::new();
    for i in 0..300 {
        t.add(&format!("key{i:05}"), &format!("val{i}"));
    }
    for i in (0..300).step_by(2) {
        assert!(t.del(&format!("key{i:05}")));
    }
    t.verify();
    for i in (0..300).step_by(2) {
        assert_eq!(tree_get(&t.tree, format!("key{i:05}").as_bytes()), None);
    }
}

#[test]
fn btree_lookup_on_an_empty_tree_finds_nothing() {
    let t = TestTree::new();
    assert_eq!(tree_get(&t.tree, b"anything"), None);
}

#[test]
fn btree_delete_on_an_empty_tree_finds_nothing() {
    let mut t = TestTree::new();
    assert!(!t.del("anything"));
}

#[test]
fn btree_insert_refuses_keys_and_values_over_the_limits() {
    let mut t = TestTree::new();
    let long_key = vec![b'k'; BTREE_MAX_KEY_SIZE + 1];
    let long_val = vec![b'v'; BTREE_MAX_VAL_SIZE + 1];
    assert_eq!(
        t.tree.insert(&long_key, b"v"),
        Err(format!("key too long: {} > {}", BTREE_MAX_KEY_SIZE + 1, BTREE_MAX_KEY_SIZE))
    );
    assert_eq!(
        t.tree.insert(b"k", &long_val),
        Err(format!("value too long: {} > {}", BTREE_MAX_VAL_SIZE + 1, BTREE_MAX_VAL_SIZE))
    );
    assert_eq!(tree_get(&t.tree, b"k"), None);
    assert!(t.tree.delete(&long_key).is_err());
}

#[test]
fn btree_keys_and_values_at_the_limits_are_taken() {
    let mut t = TestTree::new();
    let key = vec![b'k'; BTREE_MAX_KEY_SIZE];
    let val = vec![b'v'; BTREE_MAX_VAL_SIZE];
    t.tree.insert(&key, &val).unwrap();
    assert_eq!(tree_get(&t.tree, &key), Some(val.clone()));
    assert_eq!(t.tree.delete(&key), Ok(true));
    assert_eq!(tree_get(&t.tree, &key), None);
}

#[test]
fn btree_delete_everything_in_reverse_then_reinsert() {
    let mut t = TestTree::new();
    for i in 0..400 {
        t.add(&format!("key{i:05}"), &format!("value-{i}-{}", "x".repeat(i % 40)));
    }
    for i in (0..400).rev() {
        assert!(t.del(&format!("key{i:05}")));
        assert!(!t.del(&format!("key{i:05}")));
    }
    for i in 0..400 {
        assert_eq!(tree_get(&t.tree, format!("key{i:05}").as_bytes()), None);
    }
    t.add("again", "here");
    t.verify();
}

#[test]
fn btree_large_values_split_and_merge() {
    let mut t = TestTree::new();
    for i in 0..60 {
        t.add(&format!("big{i:03}"), &"v".repeat(BTREE_MAX_VAL_SIZE - i));
    }
    t.verify();
    for i in 0..60 {
        if i % 3 != 0 {
            assert!(t.del(&format!("big{i:03}")));
        }
    }
    t.verify();
    assert_eq!(tree_get(&t.tree, b"big001"), None);
}

#[test]
fn node_max_kv_size_exact_values() {
    assert_eq!(max_kv_size(4096), 1350);
    assert_eq!(max_kv_size(256), 70);
    assert_eq!(max_kv_size(46), 0);
    assert_eq!(max_kv_size(10), 0);
}

#[test]
fn node_check_limits_refuses_oversized_entries() {
    assert_eq!(check_limits(4096, &[1u8; 1000], &[2u8; 350]), Ok(()));
    assert_eq!(
        check_limits(4096, &[1u8; 1000], &[2u8; 351]),
        Err(Error::EntryTooLarge { len: 1351, max: 1350 })
    );
}

#[test]
fn node_leaf_insert_places_the_entry() {
    let mut empty = Node::new(4096);
    empty.set_header(NODE_LEAF, 0);
    let mut one = Node::new(4096);
    leaf_insert(&mut one, &empty, 0, b"b", b"2");
    let mut two = Node::new(4096);
    leaf_insert(&mut two, &one, 0, b"a", b"1");
    assert_eq!(two.btype(), NODE_LEAF);
    assert_eq!(two.kind_name(), "LEAF");
    assert_eq!(two.nkeys(), 2);
    assert_eq!(two.get_key(0), b"a");
    assert_eq!(two.get_val(0), b"1");
    assert_eq!(two.get_key(1), b"b");
    assert_eq!(two.get_val(1), b"2");
    assert_eq!(two.nbytes(), 4 + 2 * 10 + 2 * 6);
}

#[test]
fn node_split3_keeps_every_entry_in_order() {
    let mut node = Node::new(4096);
    node.set_header(NODE_LEAF, 0);
    for i in 0..3u16 {
        let mut next = Node::new(3 * 4096);
        let key = vec![b'a' + i as u8; 10];
        let val = vec![b'x'; 1400];
        leaf_insert(&mut next, &node, i, &key, &val);
        node = next;
    }
    let (count, pieces) = split3(node, 4096);
    assert_eq!(count, 2);
    let mut keys = Vec::new();
    for piece in pieces.iter().take(count as usize) {
        assert!(piece.nbytes() as usize <= 4096);
        for i in 0..piece.nkeys() {
            keys.push(piece.get_key(i).to_vec());
        }
    }
    assert_eq!(keys, vec![vec![b'a'; 10], vec![b'b'; 10], vec![b'c'; 10]]);
}

#[test]
fn node_split2_divides_an_oversized_node() {
    let mut node = Node::new(4096);
    node.set_header(NODE_LEAF, 0);
    for i in 0..4u16 {
        let mut next = Node::new(2 * 4096);
        let key = vec![b'a' + i as u8; 4];
        let val = vec![b'x'; 1200];
        leaf_insert(&mut next, &node, i, &key, &val);
        node = next;
    }
    let mut left = Node::new(2 * 4096);
    let mut right = Node::new(4096);
    split2(&mut left, &mut right, &node, 4096);
    assert_eq!(left.nkeys() + right.nkeys(), 4);
    assert!(left.nkeys() >= 1 && right.nkeys() >= 1);
    assert!(right.nbytes() as usize <= 4096);
    assert_eq!(left.get_key(0), b"aaaa");
    assert_eq!(right.get_key(right.nkeys() - 1), b"dddd");
}

#[test]
fn node_kind_names() {
    let mut node = Node::new(64);
    node.set_header(NODE_LEAF, 0);
    assert_eq!(node.kind_name(), "LEAF");
    node.set_header(hw_btree::node::NODE_INTERNAL, 0);
    assert_eq!(node.kind_name(), "INTERNAL");
    node.set_header(7, 0);
    assert_eq!(node.kind_name(), "UNKNOWN");
}

#[test]
fn btree_try_delete_deletes_where_the_path_has_room() {
    let mut t = TestTree::new();
    assert_eq!(t.tree.try_delete(b"a"), Some(Ok(false)));
    t.add("a", "1");
    t.add("b", "2");
    assert_eq!(t.tree.try_delete(b"a"), Some(Ok(true)));
    assert_eq!(tree_get(&t.tree, b"a"), None);
    assert_eq!(tree_get(&t.tree, b"b"), Some(b"2".to_vec()));
    assert_eq!(t.tree.try_delete(&vec![b'k'; BTREE_MAX_KEY_SIZE + 1]).map(|r| r.is_err()), Some(true));
}

#[test]
fn btree_try_delete_replaces_separators_of_equal_length() {
    // separators of the longest key fill the nodes; the next key that
    // replaces a deleted separator is as long, so every delete has room
    let mut t = TestTree::new();
    for i in 0..12u8 {
        let key = vec![b'a' + i; BTREE_MAX_KEY_SIZE];
        t.tree.insert(&key, &vec![b'v'; BTREE_MAX_VAL_SIZE]).unwrap();
    }
    for i in 0..12u8 {
        let key = vec![b'a' + i; BTREE_MAX_KEY_SIZE];
        assert_eq!(t.tree.try_delete(&key), Some(Ok(true)));
        assert_eq!(tree_get(&t.tree, &key), None);
    }
}

#[test]
fn btree_empty_key_updates_the_sentinel() {
    let mut t = TestTree::new();
    t.add("a", "1");
    t.tree.insert(b"", b"s").unwrap();
    assert_eq!(tree_get(&t.tree, b""), Some(b"s".to_vec()));
    t.verify();
}

#[test]
fn btree_empty_key_into_an_empty_tree() {
    let mut t = TestTree::new();
    t.tree.insert(b"", b"s").unwrap();
    assert_eq!(tree_get(&t.tree, b""), Some(b"s".to_vec()));
    assert_eq!(tree_get(&t.tree, b"a"), None);
    t.add("a", "1");
    assert_eq!(tree_get(&t.tree, b"a"), Some(b"1".to_vec()));
    t.verify();
}
