use ipfs_embed::{BatchOp, BatchReply, BlockStore, Config, FetchAction, ListFilter, StoreError, SyncAction, SyncEvent};
use libipld::multihash::MultihashDigest;
use libipld::cbor::DagCborCodec;
use libipld::cid::Cid;
use libipld::multihash::Code;
use libipld::raw::RawCodec;
use libipld::store::DefaultParams;
use libipld::{Block, Ipld};

fn raw_block(bytes: &[u8]) -> (Vec<u8>, Vec<u8>) {
    let block = Block::<DefaultParams>::encode(RawCodec, Code::Blake3_256, bytes).unwrap();
    (block.cid().to_bytes(), block.data().to_vec())
}

fn list_block(children: &[&Vec<u8>], tag: i128) -> (Vec<u8>, Vec<u8>) {
    let mut items = vec![Ipld::Integer(tag)];
    for c in children {
        items.push(Ipld::Link(Cid::try_from(c.as_slice()).unwrap()));
    }
    let block = Block::<DefaultParams>::encode(DagCborCodec, Code::Blake3_256, &Ipld::List(items)).unwrap();
    (block.cid().to_bytes(), block.data().to_vec())
}

#[test]
fn insert_twice_is_insert_once() {
    let mut store = BlockStore::new(&Config::new(10, 10000));
    let a = raw_block(b"twice");
    store.insert(&a.0, &a.1).unwrap();
    assert_eq!(store.len(), 1);
    store.insert(&a.0, &a.1).unwrap();
    assert_eq!(store.len(), 1);
    assert_eq!(store.iter(), vec![a.0.clone()]);
}

#[test]
fn insert_then_get_round_trips() {
    let mut store = BlockStore::new(&Config::new(10, 10000));
    let a = raw_block(b"round trip");
    assert!(!store.contains(&a.0));
    assert_eq!(store.get(&a.0), None);
    store.insert(&a.0, &a.1).unwrap();
    assert!(store.contains(&a.0));
    assert_eq!(store.get(&a.0), Some(b"round trip".to_vec()));
}

#[test]
fn wrong_bytes_are_refused() {
    let mut store = BlockStore::new(&Config::new(10, 10000));
    let a = raw_block(b"genuine");
    assert_eq!(store.insert(&a.0, &b"forged".to_vec()), Err(StoreError::HashMismatch));
    assert!(!store.contains(&a.0));
    assert_eq!(store.insert(&b"not a cid".to_vec(), &a.1), Err(StoreError::HashMismatch));
    assert_eq!(store.len(), 0);
}

#[test]
fn unreadable_bytes_are_refused() {
    let mut store = BlockStore::new(&Config::new(10, 10000));
    let raw = Block::<DefaultParams>::encode(RawCodec, Code::Blake3_256, &b"\xff\xff not cbor"[..]).unwrap();
    let cid = Cid::new_v1(0x71, *raw.cid().hash());
    let r = store.insert(&cid.to_bytes(), &raw.data().to_vec());
    assert_eq!(r, Err(StoreError::CodecError));
    assert_eq!(store.len(), 0);
}

#[test]
fn references_are_extracted() {
    let mut store = BlockStore::new(&Config::new(10, 10000));
    let leaf = raw_block(b"leaf");
    let other = raw_block(b"other");
    let parent = list_block(&[&leaf.0, &other.0], 1);
    store.insert(&parent.0, &parent.1).unwrap();
    assert_eq!(store.referrers(&leaf.0), 1);
    assert_eq!(store.referrers(&other.0), 1);
    assert_eq!(store.referrers(&parent.0), 0);
    let missing = store.missing_blocks(&parent.0);
    assert_eq!(missing.len(), 2);
    assert!(missing.contains(&leaf.0) && missing.contains(&other.0));
    store.insert(&leaf.0, &leaf.1).unwrap();
    assert_eq!(store.missing_blocks(&parent.0), vec![other.0.clone()]);
    let absent = raw_block(b"absent");
    assert_eq!(store.missing_blocks(&absent.0), vec![absent.0.clone()]);
}

#[test]
fn pins_count_roots_that_reach() {
    let mut store = BlockStore::new(&Config::new(10, 10000));
    let leaf = raw_block(b"leaf");
    let parent = list_block(&[&leaf.0], 2);
    store.insert(&leaf.0, &leaf.1).unwrap();
    store.insert(&parent.0, &parent.1).unwrap();
    assert_eq!(store.pins(&leaf.0), 0);
    assert_eq!(store.referrers(&leaf.0), 1);
    store.alias(&b"p".to_vec(), Some(&parent.0));
    assert_eq!(store.pins(&leaf.0), 1);
    let mut t1 = store.create_temp_pin();
    let mut t2 = store.create_temp_pin();
    store.temp_pin(&mut t1, &parent.0).unwrap();
    store.temp_pin(&mut t2, &leaf.0).unwrap();
    assert_eq!(store.pins(&leaf.0), 3);
    assert_eq!(store.pins(&parent.0), 2);
    store.release_temp_pin(t1);
    assert_eq!(store.pins(&leaf.0), 2);
    store.alias(&b"p".to_vec(), None);
    assert_eq!(store.pins(&leaf.0), 1);
    assert_eq!(store.pins(&parent.0), 0);
    store.release_temp_pin(t2);
    assert_eq!(store.pins(&leaf.0), 0);
}

#[test]
fn released_pin_handle_is_unknown() {
    let mut store = BlockStore::new(&Config::new(10, 10000));
    let a = raw_block(b"a");
    let mut t = store.create_temp_pin();
    let mut again = ipfs_embed::TempPin { id: t.id };
    store.temp_pin(&mut t, &a.0).unwrap();
    store.release_temp_pin(t);
    assert_eq!(store.temp_pin(&mut again, &a.0), Err(StoreError::NotFound));
}

#[test]
fn evict_keeps_reached_and_newest() {
    let mut store = BlockStore::new(&Config::new(2, 10000));
    let kept = raw_block(b"kept");
    store.insert(&kept.0, &kept.1).unwrap();
    let mut loose = Vec::new();
    for i in 0..5u8 {
        let b = raw_block(&[b'x', i]);
        store.insert(&b.0, &b.1).unwrap();
        loose.push(b);
    }
    store.alias(&b"keep".to_vec(), Some(&kept.0));
    store.evict();
    assert!(store.contains(&kept.0));
    assert!(!store.contains(&loose[0].0));
    assert!(!store.contains(&loose[1].0));
    assert!(!store.contains(&loose[2].0));
    assert!(store.contains(&loose[3].0));
    assert!(store.contains(&loose[4].0));
    assert_eq!(store.len(), 3);
    store.evict();
    assert_eq!(store.len(), 3);
}

#[test]
fn evict_with_zero_cache_drops_all_unreached() {
    let mut store = BlockStore::new(&Config::new(0, 10000));
    let leaf = raw_block(b"leaf");
    let parent = list_block(&[&leaf.0], 3);
    let stray = raw_block(b"stray");
    store.insert(&leaf.0, &leaf.1).unwrap();
    store.insert(&parent.0, &parent.1).unwrap();
    store.insert(&stray.0, &stray.1).unwrap();
    let mut t = store.create_temp_pin();
    store.temp_pin(&mut t, &parent.0).unwrap();
    store.evict();
    assert!(store.contains(&leaf.0) && store.contains(&parent.0));
    assert!(!store.contains(&stray.0));
}

#[test]
fn failed_batch_changes_nothing() {
    let mut store = BlockStore::new(&Config::new(10, 10000));
    let a = raw_block(b"a");
    let b = raw_block(b"b");
    let r = store.batch_ops(&vec![
        BatchOp::Insert { cid: a.0.clone(), data: a.1.clone() },
        BatchOp::Contains { cid: a.0.clone() },
        BatchOp::Insert { cid: b.0.clone(), data: b"wrong".to_vec() },
    ]);
    assert_eq!(r, Err(StoreError::HashMismatch));
    assert_eq!(store.len(), 0);
    let ok = store
        .batch_ops(&vec![
            BatchOp::Contains { cid: a.0.clone() },
            BatchOp::Get { cid: b.0.clone() },
            BatchOp::Insert { cid: a.0.clone(), data: a.1.clone() },
            BatchOp::Contains { cid: a.0.clone() },
        ])
        .unwrap();
    assert_eq!(ok.len(), 3);
    assert!(matches!(ok[0], BatchReply::Contains(false)));
    assert!(matches!(&ok[1], BatchReply::Get(None)));
    assert!(matches!(ok[2], BatchReply::Contains(true)));
    let read = store.batch_ops(&vec![BatchOp::Get { cid: a.0.clone() }]).unwrap();
    match &read[0] {
        BatchReply::Get(Some(d)) => assert_eq!(d, &a.1),
        _ => panic!("expected the bytes"),
    }
}

#[test]
fn completed_sync_leaves_nothing_missing() {
    let mut src = BlockStore::new(&Config::new(10, 10000));
    let mut dst = BlockStore::new(&Config::new(10, 10000));
    let leaf = raw_block(b"leaf");
    let mid = list_block(&[&leaf.0], 4);
    let root = list_block(&[&mid.0, &leaf.0], 5);
    for b in [&leaf, &mid, &root] {
        src.insert(&b.0, &b.1).unwrap();
    }
    let (mut q, first) = dst.sync_start(&root.0);
    match first {
        SyncAction::Fetch(v) => assert_eq!(v, vec![root.0.clone()]),
        _ => panic!("expected a fetch"),
    }
    let step = dst.sync_step(&mut q, SyncEvent::Received { cid: root.0.clone(), data: root.1.clone() });
    match step {
        SyncAction::Fetch(v) => {
            assert_eq!(v.len(), 2);
            assert!(v.contains(&mid.0) && v.contains(&leaf.0));
        }
        _ => panic!("expected a fetch"),
    }
    let step = dst.sync_step(&mut q, SyncEvent::Received { cid: mid.0.clone(), data: mid.1.clone() });
    match step {
        SyncAction::Fetch(v) => assert!(v.is_empty()),
        _ => panic!("expected to wait"),
    }
    let step = dst.sync_step(&mut q, SyncEvent::Received { cid: leaf.0.clone(), data: leaf.1.clone() });
    assert!(matches!(step, SyncAction::Complete));
    assert!(dst.missing_blocks(&root.0).is_empty());
    let m = dst.metadata(&leaf.0).unwrap();
    assert!(m.public);
    assert_eq!(m.referrers, 2);
    assert_eq!(m.pins, 0);
    assert!(!src.metadata(&leaf.0).unwrap().public);
    assert!(src.metadata(&raw_block(b"absent").0).is_none());
}

#[test]
fn sync_refuses_forged_block_and_gives_up_after_retries() {
    let mut dst = BlockStore::new(&Config::new(10, 10000));
    let a = raw_block(b"wanted");
    let (mut q, _) = dst.sync_start(&a.0);
    let r = dst.sync_step(&mut q, SyncEvent::Received { cid: a.0.clone(), data: b"forged".to_vec() });
    assert!(matches!(r, SyncAction::Fail(StoreError::HashMismatch)));
    assert!(!dst.contains(&a.0));
    for _ in 0..3 {
        let r = dst.sync_step(&mut q, SyncEvent::Failed { cid: a.0.clone() });
        match r {
            SyncAction::Fetch(v) => assert_eq!(v, vec![a.0.clone()]),
            _ => panic!("expected a retry"),
        }
    }
    let r = dst.sync_step(&mut q, SyncEvent::Failed { cid: a.0.clone() });
    assert!(matches!(r, SyncAction::Fail(StoreError::NotFound)));
}

#[test]
fn aliases_resolve_and_list() {
    let mut store = BlockStore::new(&Config::new(10, 10000));
    let a = raw_block(b"a");
    let b = raw_block(b"b");
    store.alias(&b"one".to_vec(), Some(&a.0));
    store.alias(&b"two".to_vec(), Some(&a.0));
    store.alias(&b"one".to_vec(), Some(&b.0));
    assert_eq!(store.resolve(&b"one".to_vec()), Some(b.0.clone()));
    assert_eq!(store.resolve(&b"two".to_vec()), Some(a.0.clone()));
    assert_eq!(store.resolve(&b"three".to_vec()), None);
    assert_eq!(store.aliases().len(), 2);
    store.insert(&a.0, &a.1).unwrap();
    let names = store.reverse_alias(&a.0).unwrap();
    assert_eq!(names, vec![b"two".to_vec()]);
    assert_eq!(store.reverse_alias(&b.0), None);
    store.alias(&b"two".to_vec(), None);
    assert_eq!(store.resolve(&b"two".to_vec()), None);
    assert_eq!(store.aliases().len(), 1);
}

#[test]
fn list_filter_categories() {
    let none = ListFilter { pinned: false, live: false, dead: false, all: false };
    assert!(none.selects(0, 0));
    let pinned = ListFilter { pinned: true, live: false, dead: false, all: false };
    assert!(pinned.selects(1, 0));
    assert!(!pinned.selects(0, 3));
    let live = ListFilter { pinned: false, live: true, dead: false, all: false };
    assert!(live.selects(0, 3));
    assert!(!live.selects(0, 0));
    let dead = ListFilter { pinned: false, live: false, dead: true, all: false };
    assert!(dead.selects(0, 0));
    assert!(!dead.selects(2, 0));
}

#[test]
fn unpin_removes_aliases_of_a_root() {
    let mut store = BlockStore::new(&Config::new(10, 10000));
    let a = raw_block(b"a");
    let b = raw_block(b"b");
    store.alias(&b"one".to_vec(), Some(&a.0));
    store.alias(&b"two".to_vec(), Some(&b.0));
    store.alias(&b"three".to_vec(), Some(&a.0));
    store.unpin(&a.0);
    assert_eq!(store.aliases(), vec![(b"two".to_vec(), b.0.clone())]);
}

fn cbor_cid(data: &[u8]) -> Vec<u8> {
    Cid::new_v1(0x71, Code::Blake3_256.digest(data)).to_bytes()
}

#[test]
fn evict_spares_referenced_blocks() {
    let child = raw_block(b"child");
    let parent = list_block(&[&child.0], 6);
    let mut store = BlockStore::new(&Config::new(0, 10000));
    store.insert(&child.0, &child.1).unwrap();
    store.insert(&parent.0, &parent.1).unwrap();
    store.evict();
    assert!(store.contains(&child.0));
    assert!(!store.contains(&parent.0));
    store.evict();
    assert!(!store.contains(&child.0));
    let mut store = BlockStore::new(&Config::new(1, 10000));
    store.insert(&child.0, &child.1).unwrap();
    store.insert(&parent.0, &parent.1).unwrap();
    store.evict();
    assert!(store.contains(&child.0));
    assert!(!store.contains(&parent.0));
}

#[test]
fn malformed_cbor_is_refused() {
    let mut store = BlockStore::new(&Config::new(10, 10000));
    let looping = vec![0x9f, 0x5b, 0xff, 0xff, 0xff, 0xff, 0xff, 0xff, 0xff, 0xf7];
    assert_eq!(store.insert(&cbor_cid(&looping), &looping), Err(StoreError::CodecError));
    let mut deep = vec![0x81u8; 65];
    deep.push(0x01);
    assert_eq!(store.insert(&cbor_cid(&deep), &deep), Err(StoreError::CodecError));
    let mut nested = vec![0x81u8; 10];
    nested.push(0x01);
    assert_eq!(store.insert(&cbor_cid(&nested), &nested), Ok(()));
    let trailing = vec![0x01, 0x02];
    assert_eq!(store.insert(&cbor_cid(&trailing), &trailing), Err(StoreError::CodecError));
    let short = vec![0x43, 0x01];
    assert_eq!(store.insert(&cbor_cid(&short), &short), Err(StoreError::CodecError));
    assert_eq!(store.len(), 1);
}

#[test]
fn fetch_pins_until_it_ends() {
    let mut store = BlockStore::new(&Config::new(0, 10000));
    let a = raw_block(b"fetched");
    let pin = match store.fetch_begin(&a.0, 2) {
        FetchAction::Request(pin) => pin,
        _ => panic!("expected a request"),
    };
    store.insert(&a.0, &a.1).unwrap();
    assert_eq!(store.pins(&a.0), 1);
    store.evict();
    assert!(store.contains(&a.0));
    assert_eq!(store.fetch_end(&a.0, pin, Ok(())), Ok(a.1.clone()));
    assert_eq!(store.pins(&a.0), 0);
    assert!(matches!(store.fetch_begin(&a.0, 0), FetchAction::Found(_)));
    let b = raw_block(b"unreachable");
    assert!(matches!(store.fetch_begin(&b.0, 0), FetchAction::NotFound));
    let pin = match store.fetch_begin(&b.0, 1) {
        FetchAction::Request(pin) => pin,
        _ => panic!("expected a request"),
    };
    assert_eq!(store.fetch_end(&b.0, pin, Err(StoreError::Network)), Err(StoreError::Network));
}
