use hw_btree::io::in_memory_backend::MemoryPageIo;
use hw_btree::io::{PageId, PageIo};
use hw_btree::page::free_list::free_list_capacity;
use hw_btree::page::header::Header;
use hw_btree::page::{max_kv_size, Error, Page};
use hw_btree::storage::engine::StorageEngine;
use hw_btree::storage::store::{OpenError, ReadGuard, Store};
use hw_btree::storage::tree;

#[test]
fn store_open_or_create_bootstraps_empty_leaf_root() {
    let mut store = Store::open_or_create(MemoryPageIo::new(4096)).unwrap();
    let view = store.enter_read();
    match view.read(&store, view.root(&store)) {
        Page::Leaf(l) => assert_eq!(l.nkeys(), 0),
        Page::Internal(_) => panic!("expected a fresh leaf root"),
    }
    store.exit_read(view);
}

#[test]
fn store_reopening_the_same_backend_recovers_root_and_data() {
    let io = MemoryPageIo::new(4096);
    let mut store = Store::open_or_create(io).unwrap();
    for i in 0..20 {
        let mut txn = store.begin_write();
        tree::put(&mut txn, format!("k{i}").as_bytes(), b"v").unwrap();
    }

    // close the store, then open a fresh one over the pages it wrote
    let mut reopened = Store::open_or_create(store.close()).unwrap();
    let view = reopened.enter_read();
    for i in 0..20 {
        assert_eq!(
            tree::get(&reopened, &view, format!("k{i}").as_bytes()),
            Some(b"v".to_vec())
        );
    }
    reopened.exit_read(view);
}

#[test]
fn store_repeated_overwrites_reuse_pages_via_free_list() {
    let mut store = Store::open_or_create(MemoryPageIo::new(4096)).unwrap();
    let keys: Vec<String> = (0..50).map(|i| format!("key{i:03}")).collect();

    for k in &keys {
        let mut txn = store.begin_write();
        tree::put(&mut txn, k.as_bytes(), b"v1").unwrap();
    }
    let pages_after_first_pass = store.allocated_pages();
    assert!(
        store.free_list_len() > 0,
        "expected some pages freed by path-copying already"
    );

    for _ in 0..20 {
        for k in &keys {
            let mut txn = store.begin_write();
            tree::put(&mut txn, k.as_bytes(), b"v2").unwrap();
        }
    }
    let pages_after_many_passes = store.allocated_pages();

    assert!(
        pages_after_many_passes < pages_after_first_pass * 2,
        "page count grew from {pages_after_first_pass} to {pages_after_many_passes} after 20 \
         more overwrite passes — free-list reuse doesn't seem to be working"
    );
}

#[test]
fn free_list_survives_reopen() {
    let io = MemoryPageIo::new(4096);
    let mut store = Store::open_or_create(io).unwrap();
    let keys: Vec<String> = (0..50).map(|i| format!("key{i:03}")).collect();
    for k in &keys {
        let mut txn = store.begin_write();
        tree::put(&mut txn, k.as_bytes(), b"v1").unwrap();
    }
    for k in &keys {
        let mut txn = store.begin_write();
        tree::put(&mut txn, k.as_bytes(), b"v2").unwrap();
    }
    let free_before_reopen = store.free_list_len();
    assert!(free_before_reopen > 0, "expected some pages freed by path-copying");

    let mut reopened = Store::open_or_create(store.close()).unwrap();
    assert_eq!(
        reopened.free_list_len(),
        free_before_reopen,
        "free list should be fully recovered across reopen"
    );

    let free_ids_before_alloc = reopened.free_list_snapshot();
    let allocated_id = {
        let mut txn = reopened.begin_write();
        txn.allocate()
    };
    assert!(
        free_ids_before_alloc.contains(&allocated_id),
        "allocate() right after reopen should pop a page id recovered from the on-disk free \
         list, not bump next_page_id"
    );

    let view = reopened.enter_read();
    for k in &keys {
        assert_eq!(tree::get(&reopened, &view, k.as_bytes()), Some(b"v2".to_vec()));
    }
    reopened.exit_read(view);
}

#[test]
fn free_list_spans_multiple_chained_pages() {
    // Hold a reader open so the quiescence gate can't promote anything:
    // every commit's frees pile up in pending_free instead of being
    // drained by the next commit's allocations.
    let page_size = 128;
    let cap = free_list_capacity(page_size);
    let io = MemoryPageIo::new(page_size);
    let mut store = Store::open_or_create(io).unwrap();

    let keys: Vec<String> = (0..8).map(|i| format!("key{i:02}")).collect();
    for k in &keys {
        let mut txn = store.begin_write();
        tree::put(&mut txn, k.as_bytes(), b"v0").unwrap();
    }

    let held_reader = store.enter_read();
    for _ in 0..(cap + 5) {
        for k in &keys {
            let mut txn = store.begin_write();
            tree::put(&mut txn, k.as_bytes(), b"v1").unwrap();
        }
    }
    store.exit_read(held_reader);

    // One more commit with no readers promotes the whole backlog.
    {
        let mut txn = store.begin_write();
        tree::put(&mut txn, b"trigger", b"v").unwrap();
    }

    let free_before = store.free_list_len();
    assert!(
        free_before > cap,
        "expected the free list ({free_before}) to exceed one page's capacity ({cap})"
    );

    let mut reopened = Store::open_or_create(store.close()).unwrap();
    assert_eq!(
        reopened.free_list_len(),
        free_before,
        "chained free-list pages must all be walked on reopen, not just the head"
    );
    let view = reopened.enter_read();
    for k in &keys {
        assert_eq!(tree::get(&reopened, &view, k.as_bytes()), Some(b"v1".to_vec()));
    }
    assert_eq!(tree::get(&reopened, &view, b"trigger"), Some(b"v".to_vec()));
    reopened.exit_read(view);
}

#[test]
fn registered_reader_blocks_page_reuse() {
    let mut store = Store::open_or_create(MemoryPageIo::new(4096)).unwrap();
    {
        let mut txn = store.begin_write();
        tree::put(&mut txn, b"a", b"1").unwrap();
    }
    let free_before = store.free_list_snapshot();
    let reader = store.enter_read();
    for i in 0..10 {
        let mut txn = store.begin_write();
        tree::put(&mut txn, b"a", format!("{i}").as_bytes()).unwrap();
    }
    // nothing freed while the reader was registered became reusable
    let free_during = store.free_list_snapshot();
    assert!(free_during.len() <= free_before.len());
    assert_eq!(free_during[..], free_before[..free_during.len()]);
    store.exit_read(reader);
    {
        let mut txn = store.begin_write();
        tree::put(&mut txn, b"b", b"2").unwrap();
    }
    assert!(store.free_list_len() >= 10);
}

#[test]
fn snapshot_root_stays_readable_after_later_commits() {
    let mut store = Store::open_or_create(MemoryPageIo::new(4096)).unwrap();
    {
        let mut txn = store.begin_write();
        tree::put(&mut txn, b"k", b"old").unwrap();
    }
    let reader = store.enter_read();
    let old_root = reader.root(&store);
    {
        let mut txn = store.begin_write();
        tree::put(&mut txn, b"k", b"new").unwrap();
    }
    // the page of the tree the reader started from still holds the old value
    match reader.read(&store, old_root) {
        Page::Leaf(l) => {
            assert_eq!(l.get_key(0), b"k");
            assert_eq!(l.get_val(0), b"old");
        }
        Page::Internal(_) => panic!("expected a leaf root"),
    }
    assert_eq!(tree::get(&store, &reader, b"k"), Some(b"new".to_vec()));
    store.exit_read(reader);
}

#[test]
fn reopen_with_another_page_size_is_refused() {
    let mut io = MemoryPageIo::new(8192);
    io.write_page(0, &Header::new(4096, 1, 2).to_bytes(8192));
    match Store::open_or_create(io) {
        Err((e, io)) => {
            assert_eq!(e, OpenError::PageSizeMismatch { requested: 8192, persisted: 4096 });
            assert_eq!(io.read_page(0), Header::new(4096, 1, 2).to_bytes(8192));
            assert_eq!(io.read_page(1), vec![0u8; 8192]);
        }
        Ok(_) => panic!("expected a page size mismatch"),
    }
}

#[test]
fn reopen_with_another_format_version_is_refused() {
    let mut io = MemoryPageIo::new(4096);
    let mut bytes = Header::new(4096, 1, 2).to_bytes(4096);
    bytes[9] = 1;
    io.write_page(0, &bytes);
    match Store::open_or_create(io) {
        Err((e, io)) => {
            assert_eq!(e, OpenError::VersionMismatch { found: 1, expected: 2 });
            assert_eq!(io.read_page(0)[9], 1);
        }
        Ok(_) => panic!("expected a version mismatch"),
    }
}

#[test]
fn bootstrap_writes_header_and_empty_root() {
    let store = Store::open_or_create(MemoryPageIo::new(256)).unwrap();
    let header = Header::from_bytes(&store.io().read_page(0)).unwrap();
    assert_eq!(header.page_size, 256);
    assert_eq!(header.root_id, 1);
    assert_eq!(header.next_page_id, 2);
    assert_eq!(header.free_list_head, 0);
    assert_eq!(store.allocated_pages(), 2);
    assert_eq!(store.free_list_len(), 0);
}

#[test]
fn transaction_reads_its_own_writes() {
    let mut store = Store::open_or_create(MemoryPageIo::new(256)).unwrap();
    let mut txn = store.begin_write();
    let id = txn.allocate();
    assert_eq!(id, 2);
    let mut leaf = hw_btree::page::leaf::LeafNode::empty(256);
    leaf.push(b"x", b"y");
    txn.write(id, Page::Leaf(leaf));
    match txn.read(id) {
        Page::Leaf(l) => assert_eq!(l.get_val(0), b"y"),
        Page::Internal(_) => panic!("expected the buffered leaf"),
    }
    // nothing reached the backend before commit
    assert_eq!(txn.store.io().read_page(id), vec![0u8; 256]);
}

#[test]
fn put_and_get_round_trip() {
    let mut store = StorageEngine::in_memory(4096);
    store.put(b"hello", b"world").unwrap();
    store.put(b"foo", b"bar").unwrap();
    assert_eq!(store.get(b"hello"), Some(b"world".to_vec()));
    assert_eq!(store.get(b"foo"), Some(b"bar".to_vec()));
}

#[test]
fn put_upserts_existing_key() {
    let mut store = StorageEngine::in_memory(4096);
    store.put(b"key", b"v1").unwrap();
    store.put(b"key", b"v2").unwrap();
    assert_eq!(store.get(b"key"), Some(b"v2".to_vec()));
}

#[test]
fn get_missing_key_returns_none() {
    let mut store = StorageEngine::in_memory(4096);
    store.put(b"a", b"1").unwrap();
    assert_eq!(store.get(b"missing"), None);
}

#[test]
fn get_on_empty_store_returns_none() {
    let mut store = StorageEngine::in_memory(4096);
    assert_eq!(store.get(b"anything"), None);
}

/// Counts leaf pages reachable from the current root, recursing through
/// internal nodes' children.
fn count_leaves(engine: &mut StorageEngine<MemoryPageIo>) -> usize {
    fn walk(store: &Store<MemoryPageIo>, view: &ReadGuard, id: PageId) -> usize {
        match view.read(store, id) {
            Page::Leaf(_) => 1,
            Page::Internal(i) => (0..=i.nkeys()).map(|idx| walk(store, view, i.get_child(idx))).sum(),
        }
    }
    let view = engine.store_mut().enter_read();
    let n = walk(engine.store(), &view, view.root(engine.store()));
    engine.store_mut().exit_read(view);
    n
}

#[test]
fn bulk_insert_forces_leaf_split_and_stays_lookupable() {
    let mut store = StorageEngine::in_memory(4096);
    let leaves_before = count_leaves(&mut store);
    for i in 0..500 {
        store
            .put(format!("key{i:05}").as_bytes(), format!("val{i}").as_bytes())
            .unwrap();
    }
    let leaves_after = count_leaves(&mut store);
    assert!(
        leaves_after > leaves_before,
        "expected bulk insert to split leaves: {leaves_before} -> {leaves_after}"
    );
    for i in 0..500 {
        assert_eq!(
            store.get(format!("key{i:05}").as_bytes()),
            Some(format!("val{i}").into_bytes())
        );
    }
}

#[test]
fn small_page_size_forces_multi_level_root_growth() {
    let mut store = StorageEngine::in_memory(256);
    for i in 0..300 {
        store.put(format!("k{i:04}").as_bytes(), b"v").unwrap();
    }
    for i in 0..300 {
        assert_eq!(store.get(format!("k{i:04}").as_bytes()), Some(b"v".to_vec()));
    }
}

#[test]
fn boundary_entry_size_is_enforced() {
    let page_size = 4096;
    let max = max_kv_size(page_size);

    let mut store = StorageEngine::in_memory(page_size);
    let key_at_max = vec![b'k'; max];
    assert!(store.put(&key_at_max, b"").is_ok());
    assert_eq!(store.get(&key_at_max), Some(Vec::new()));

    let key_over_max = vec![b'k'; max + 1];
    assert!(store.put(&key_over_max, b"").is_err());
}

#[test]
fn refused_put_reports_sizes_and_changes_nothing() {
    let mut store = StorageEngine::in_memory(256);
    store.put(b"a", b"1").unwrap();
    assert_eq!(
        store.put(&[b'k'; 100], &[b'v'; 9]),
        Err(Error::EntryTooLarge { len: 109, max: 108 })
    );
    assert_eq!(store.get(&[b'k'; 100]), None);
    assert_eq!(store.get(b"a"), Some(b"1".to_vec()));
}

#[test]
fn max_size_entries_at_smallest_pages_still_split_cleanly() {
    let page_size = 49;
    let max = max_kv_size(page_size);
    assert_eq!(max, 5);
    let mut store = StorageEngine::in_memory(page_size);
    for i in 0..40u8 {
        store.put(&[b'a', i, 0, 0], &[i]).unwrap();
    }
    for i in 0..40u8 {
        assert_eq!(store.get(&[b'a', i, 0, 0]), Some(vec![i]));
    }
}

#[test]
fn random_order_inserts_match_a_reference_map() {
    let mut store = StorageEngine::in_memory(256);
    let mut reference = std::collections::BTreeMap::new();
    let mut x: u32 = 12345;
    for _ in 0..600 {
        x = x.wrapping_mul(1103515245).wrapping_add(12345);
        let k = format!("{:05}", (x >> 8) % 400);
        let v = format!("{}", x % 1000);
        store.put(k.as_bytes(), v.as_bytes()).unwrap();
        reference.insert(k, v);
    }
    for i in 0..400 {
        let k = format!("{i:05}");
        assert_eq!(store.get(k.as_bytes()), reference.get(&k).map(|v| v.as_bytes().to_vec()));
    }
}

#[test]
fn walk_visits_every_page_before_its_children() {
    let mut engine = StorageEngine::in_memory(256);
    for i in 0..300 {
        engine.put(format!("k{i:04}").as_bytes(), b"v").unwrap();
    }
    let guard = engine.store_mut().enter_read();
    let pages = hw_btree::storage::walk::walk(engine.store(), &guard);
    assert_eq!(pages[0].0, guard.root(engine.store()));
    assert_eq!(pages[0].1, 0);

    // every child appears right after its parent's earlier children,
    // one level deeper; leaves hold all keys, in order
    let mut leaf_keys: Vec<Vec<u8>> = Vec::new();
    let mut leaf_depths = Vec::new();
    for (i, (_, depth, page)) in pages.iter().enumerate() {
        if i > 0 {
            assert!(*depth >= 1 && *depth <= pages[i - 1].1 + 1);
        }
        match page {
            Page::Leaf(l) => {
                leaf_depths.push(*depth);
                for j in 0..l.nkeys() {
                    leaf_keys.push(l.get_key(j).to_vec());
                }
            }
            Page::Internal(n) => {
                let next = &pages[i + 1];
                assert_eq!(next.0, n.get_child(0));
                assert_eq!(next.1, depth + 1);
            }
        }
    }
    let expected: Vec<Vec<u8>> = (0..300).map(|i| format!("k{i:04}").into_bytes()).collect();
    assert_eq!(leaf_keys, expected);
    assert!(leaf_depths.iter().all(|d| *d == leaf_depths[0]));
    assert!(leaf_depths[0] >= 1);
    engine.store_mut().exit_read(guard);
}

#[test]
fn walk_of_an_empty_store_is_its_root_leaf() {
    let mut engine = StorageEngine::in_memory(4096);
    let guard = engine.store_mut().enter_read();
    let pages = hw_btree::storage::walk::walk(engine.store(), &guard);
    assert_eq!(pages.len(), 1);
    assert_eq!(pages[0].1, 0);
    match &pages[0].2 {
        Page::Leaf(l) => assert_eq!(l.nkeys(), 0),
        Page::Internal(_) => panic!("expected a leaf root"),
    }
    engine.store_mut().exit_read(guard);
}

#[test]
fn ascii_gutter_shows_printable_bytes_and_dots() {
    let bytes = [b'a', b' ', 0x00, b'~', 0x7f, 0x1f, b'!', 0xff];
    assert_eq!(hw_btree::storage::walk::ascii_gutter(&bytes), b"a .~..!.".to_vec());
}

#[test]
fn overwrites_with_a_stocked_free_list_mint_no_page_ids() {
    let mut engine = StorageEngine::in_memory(4096);
    assert_eq!(engine.store().allocated_pages(), 2);
    let keys: Vec<String> = (0..50).map(|i| format!("key{i:03}")).collect();
    for pass in 0..5 {
        for k in &keys {
            engine.put(k.as_bytes(), format!("v{pass}").as_bytes()).unwrap();
        }
    }
    let settled = engine.store().allocated_pages();
    for k in &keys {
        engine.put(k.as_bytes(), b"v9").unwrap();
        assert_eq!(engine.store().allocated_pages(), settled);
    }
    for k in &keys {
        assert_eq!(engine.get(k.as_bytes()), Some(b"v9".to_vec()));
    }
}

#[test]
fn duplicate_is_an_independent_copy() {
    let mut io = MemoryPageIo::new(64);
    io.write_page(3, &[7u8; 64]);
    let mut copy = io.duplicate();
    assert_eq!(copy.read_page(3), vec![7u8; 64]);
    copy.write_page(3, &[9u8; 64]);
    assert_eq!(io.read_page(3), vec![7u8; 64]);
    assert_eq!(copy.read_page(3), vec![9u8; 64]);
}

#[test]
fn closed_store_reopens_with_its_data() {
    let mut store = Store::open_or_create(MemoryPageIo::new(4096)).unwrap();
    {
        let mut txn = store.begin_write();
        tree::put(&mut txn, b"k", b"v").unwrap();
    }
    let mut reopened = Store::open_or_create(store.close()).unwrap();
    let view = reopened.enter_read();
    assert_eq!(tree::get(&reopened, &view, b"k"), Some(b"v".to_vec()));
    reopened.exit_read(view);
}
