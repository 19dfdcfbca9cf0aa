use ipfs_embed::{BatchOp, BatchReply, BlockStore, Config, FetchAction, StoreError, SyncAction, SyncEvent};
use libipld::cbor::DagCborCodec;
use libipld::cid::Cid;
use libipld::multihash::Code;
use libipld::raw::RawCodec;
use libipld::store::DefaultParams;
use libipld::{Block, Ipld};
use std::collections::BTreeMap;
use std::collections::VecDeque;

fn create_block(bytes: &[u8]) -> (Vec<u8>, Vec<u8>) {
    let block = Block::<DefaultParams>::encode(RawCodec, Code::Blake3_256, bytes).unwrap();
    (block.cid().to_bytes(), block.data().to_vec())
}

fn create_ipld_block(ipld: &Ipld) -> (Vec<u8>, Vec<u8>) {
    let block = Block::<DefaultParams>::encode(DagCborCodec, Code::Blake3_256, ipld).unwrap();
    (block.cid().to_bytes(), block.data().to_vec())
}

fn link(cid: &[u8]) -> Ipld {
    Ipld::Link(Cid::try_from(cid).unwrap())
}

fn map1(key: &str, value: Ipld) -> Ipld {
    let mut m = BTreeMap::new();
    m.insert(key.to_string(), value);
    Ipld::StringMap(m)
}

fn is_pinned(store: &BlockStore, cid: &Vec<u8>) -> Option<bool> {
    store.reverse_alias(cid).map(|names| !names.is_empty())
}

/// Drives a sync of `root` on `dst`, serving every request from `src`.
fn run_sync(dst: &mut BlockStore, src: &BlockStore, root: &Vec<u8>) -> Result<(), StoreError> {
    let (mut q, mut action) = dst.sync_start(root);
    let mut queue: VecDeque<Vec<u8>> = VecDeque::new();
    loop {
        match action {
            SyncAction::Complete => return Ok(()),
            SyncAction::Fail(e) => return Err(e),
            SyncAction::Fetch(list) => queue.extend(list),
        }
        let cid = match queue.pop_front() {
            Some(c) => c,
            None => panic!("sync stalled with nothing in flight"),
        };
        let ev = match src.get(&cid) {
            Some(data) => SyncEvent::Received { cid, data },
            None => SyncEvent::Failed { cid },
        };
        action = dst.sync_step(&mut q, ev);
    }
}

#[test]
fn test_local_store() {
    let mut store = BlockStore::new(&Config::new(10, 10000));
    let (cid, data) = create_block(b"test_local_store");
    let mut tmp = store.create_temp_pin();
    store.temp_pin(&mut tmp, &cid).unwrap();
    store.insert(&cid, &data).unwrap();
    let data2 = store.get(&cid).unwrap();
    assert_eq!(data, data2);
}

#[test]
fn test_provider_not_found() {
    let mut store = BlockStore::new(&Config::new(10, 10000));
    let (cid, _data) = create_block(b"test_provider_not_found");
    let pin = match store.fetch_begin(&cid, 1) {
        FetchAction::Request(pin) => pin,
        _ => panic!("expected a request"),
    };
    // the only provider is the store itself, which does not have the block
    match store.fetch_end(&cid, pin, Ok(())) {
        Err(StoreError::NotFound) => {}
        _ => panic!("expected block not found error"),
    }
}

#[test]
fn test_sync() {
    let mut local1 = BlockStore::new(&Config::new(10, 10000));
    let mut local2 = BlockStore::new(&Config::new(10, 10000));
    let a1 = create_ipld_block(&map1("a", Ipld::Integer(0)));
    let b1 = create_ipld_block(&map1("b", Ipld::Integer(0)));
    let c1 = create_ipld_block(&map1("c", Ipld::List(vec![link(&a1.0), link(&b1.0)])));
    let b2 = create_ipld_block(&map1("b", Ipld::Integer(1)));
    let c2 = create_ipld_block(&map1("c", Ipld::List(vec![link(&a1.0), link(&b2.0)])));
    let x = b"x".to_vec();

    local1.insert(&a1.0, &a1.1).unwrap();
    local1.insert(&b1.0, &b1.1).unwrap();
    local1.insert(&c1.0, &c1.1).unwrap();
    local1.alias(&x, Some(&c1.0));
    assert_eq!(is_pinned(&local1, &a1.0), Some(true));
    assert_eq!(is_pinned(&local1, &b1.0), Some(true));
    assert_eq!(is_pinned(&local1, &c1.0), Some(true));

    local2.alias(&x, Some(&c1.0));
    run_sync(&mut local2, &local1, &c1.0).unwrap();
    assert_eq!(is_pinned(&local2, &a1.0), Some(true));
    assert_eq!(is_pinned(&local2, &b1.0), Some(true));
    assert_eq!(is_pinned(&local2, &c1.0), Some(true));

    local2.insert(&b2.0, &b2.1).unwrap();
    local2.insert(&c2.0, &c2.1).unwrap();
    local2.alias(&x, Some(&c2.0));
    assert_eq!(is_pinned(&local2, &a1.0), Some(true));
    assert_eq!(is_pinned(&local2, &b1.0), Some(false));
    assert_eq!(is_pinned(&local2, &c1.0), Some(false));
    assert_eq!(is_pinned(&local2, &b2.0), Some(true));
    assert_eq!(is_pinned(&local2, &c2.0), Some(true));

    local1.alias(&x, Some(&c2.0));
    run_sync(&mut local1, &local2, &c2.0).unwrap();
    assert_eq!(is_pinned(&local1, &a1.0), Some(true));
    assert_eq!(is_pinned(&local1, &b1.0), Some(false));
    assert_eq!(is_pinned(&local1, &c1.0), Some(false));
    assert_eq!(is_pinned(&local1, &b2.0), Some(true));
    assert_eq!(is_pinned(&local1, &c2.0), Some(true));

    local2.alias(&x, None);
    assert_eq!(is_pinned(&local2, &a1.0), Some(false));
    assert_eq!(is_pinned(&local2, &b1.0), Some(false));
    assert_eq!(is_pinned(&local2, &c1.0), Some(false));
    assert_eq!(is_pinned(&local2, &b2.0), Some(false));
    assert_eq!(is_pinned(&local2, &c2.0), Some(false));

    local1.alias(&x, None);
    assert_eq!(is_pinned(&local1, &a1.0), Some(false));
    assert_eq!(is_pinned(&local1, &b1.0), Some(false));
    assert_eq!(is_pinned(&local1, &c1.0), Some(false));
    assert_eq!(is_pinned(&local1, &b2.0), Some(false));
    assert_eq!(is_pinned(&local1, &c2.0), Some(false));
}

#[test]
fn test_batch_read() {
    let mut store = BlockStore::new(&Config::new(1000000, 10000));
    let a = create_block(b"a");
    let b = create_block(b"b");
    store.insert(&a.0, &a.1).unwrap();
    store.insert(&b.0, &b.1).unwrap();
    let out = store
        .batch_ops(&vec![BatchOp::Contains { cid: a.0.clone() }, BatchOp::Contains { cid: b.0.clone() }])
        .unwrap();
    let has_blocks = matches!(out[0], BatchReply::Contains(true)) && matches!(out[1], BatchReply::Contains(true));
    assert!(has_blocks);
}

#[test]
fn test_batch_write() {
    let mut store = BlockStore::new(&Config::new(1000000, 10000));
    let a = create_block(b"a");
    let b = create_block(b"b");
    let c = create_block(b"c");
    let d = create_block(b"d");
    store
        .batch_ops(&vec![
            BatchOp::Insert { cid: a.0.clone(), data: a.1.clone() },
            BatchOp::Insert { cid: b.0.clone(), data: b.1.clone() },
        ])
        .unwrap();
    assert!(store.contains(&a.0) && store.contains(&b.0));
    let aborted = store.batch_ops(&vec![
        BatchOp::Insert { cid: c.0.clone(), data: c.1.clone() },
        BatchOp::Abort,
        BatchOp::Insert { cid: d.0.clone(), data: d.1.clone() },
    ]);
    assert_eq!(aborted, Err(StoreError::Aborted));
    assert!(!store.contains(&d.0) && !store.contains(&c.0) && store.contains(&b.0) && store.contains(&a.0));
    store.batch_ops(&vec![BatchOp::Insert { cid: c.0.clone(), data: c.1.clone() }]).unwrap();
    assert!(!store.contains(&d.0) && store.contains(&c.0) && store.contains(&b.0) && store.contains(&a.0));
}

fn build_chain(n: usize) -> (Vec<u8>, Vec<(Vec<u8>, Vec<u8>)>) {
    let mut blocks = Vec::new();
    let mut prev = create_ipld_block(&map1("i", Ipld::Integer(0)));
    blocks.push(prev.clone());
    for i in 1..n {
        let next = create_ipld_block(&Ipld::List(vec![Ipld::Integer(i as i128), link(&prev.0)]));
        blocks.push(next.clone());
        prev = next;
    }
    (prev.0.clone(), blocks)
}

#[test]
fn test_bitswap_sync_chain() {
    let mut a = BlockStore::new(&Config::new(10, 10000));
    let mut b = BlockStore::new(&Config::new(10, 10000));
    let root = b"root".to_vec();
    let (cid, blocks) = build_chain(1000);
    a.alias(&root, Some(&cid));
    b.alias(&root, Some(&cid));
    for block in blocks.iter() {
        a.insert(&block.0, &block.1).unwrap();
    }
    run_sync(&mut b, &a, &cid).unwrap();
    for block in blocks {
        let data = b.get(&block.0).unwrap();
        assert_eq!(data, block.1);
    }
}
