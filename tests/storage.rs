use backshots::compacted::{CompactError, CompactedStorageReader, CompactedStorageWriter};
use backshots::compactor::{compact, sort_dedup};
use backshots::interner::{InternError, Interner};
use backshots::live::LiveStorageWriter;
use backshots::read::{read_union, StoreReader};
use backshots::record::{AtUriError, RecordId};

fn rid(did: u64, collection: u32, rkey: u64) -> RecordId {
    RecordId::new(did, collection, rkey)
}

fn read_live(store: &LiveStorageWriter, target: &RecordId) -> Vec<RecordId> {
    let mut out = Vec::new();
    store.read_backlinks(target, &mut out);
    out
}

#[test]
fn empty_store_has_no_backlinks() {
    let store = LiveStorageWriter::empty();
    assert!(read_live(&store, &rid(1, 2, 3)).is_empty());
    assert_eq!(store.num_records(), 0);
    let union = read_union(&Vec::new(), &rid(1, 2, 3));
    assert!(union.is_empty());
}

#[test]
fn single_insertion_reads_one_source() {
    let mut interner = Interner::new();
    let a = interner.encode_did("did:plc:alpha", None).unwrap();
    let l = interner.encode_collection("app.bsky.feed.like").unwrap();
    let r1 = interner.encode_rkey("3lkaaaa111111").unwrap();
    let target = interner
        .record_id_from_at_uri("at://did:plc:beta/app.bsky.feed.post/3lkbbbb222222", None)
        .unwrap();
    let source = rid(a, l, r1);
    let mut store = LiveStorageWriter::empty();
    store.log_backlink(&target, &source).unwrap();
    assert_eq!(read_live(&store, &target), vec![source]);

    assert_eq!(interner.resolve_did(source.did, None).unwrap(), "did:plc:alpha");
    assert_eq!(interner.resolve_collection(source.collection).unwrap(), "app.bsky.feed.like");
    assert_eq!(interner.resolve_rkey(source.rkey).unwrap(), "3lkaaaa111111");
    assert_eq!(interner.resolve_rkey(target.rkey).unwrap(), "3lkbbbb222222");
}

#[test]
fn chain_of_three() {
    let target = rid(7, 1, 100);
    let mut store = LiveStorageWriter::empty();
    for s in [rid(1, 1, 1), rid(2, 1, 1), rid(3, 1, 1)] {
        store.log_backlink(&target, &s).unwrap();
    }
    let v = store.index_value(&target).unwrap();
    assert_ne!(v.head, v.tail);
    let head = store.link_at(v.head as usize);
    let tail = store.link_at(v.tail as usize);
    assert_eq!(head.prev, 0);
    assert_eq!(tail.next, 0);
    let mut slot = v.head as i64;
    let mut hops = 0;
    loop {
        let link = store.link_at(slot as usize);
        if link.next == 0 {
            break;
        }
        slot += link.next as i64;
        hops += 1;
    }
    assert_eq!(slot as u64, v.tail);
    assert_eq!(hops, 2);
    assert_eq!(read_live(&store, &target), vec![rid(1, 1, 1), rid(2, 1, 1), rid(3, 1, 1)]);
}

#[test]
fn distinct_sources_walk_in_order() {
    let target = rid(9, 9, 9);
    let mut store = LiveStorageWriter::empty();
    let sources: Vec<RecordId> = (0..25).map(|i| rid(i, 3, 1000 + i)).collect();
    for s in &sources {
        store.log_backlink(&target, s).unwrap();
    }
    assert_eq!(read_live(&store, &target), sources);
    assert_eq!(store.num_records(), 25);
}

#[test]
fn same_tail_is_written_once() {
    let target = rid(1, 1, 1);
    let source = rid(2, 2, 2);
    let mut store = LiveStorageWriter::empty();
    store.log_backlink(&target, &source).unwrap();
    store.log_backlink(&target, &source).unwrap();
    assert_eq!(store.num_records(), 1);
    assert_eq!(read_live(&store, &target), vec![source]);
    // a repeat that is not adjacent is kept
    store.log_backlink(&target, &rid(3, 3, 3)).unwrap();
    store.log_backlink(&target, &source).unwrap();
    assert_eq!(store.num_records(), 3);
}

#[test]
fn targets_do_not_share_chains() {
    let mut store = LiveStorageWriter::empty();
    let t1 = rid(1, 0, 0);
    let t2 = rid(2, 0, 0);
    store.log_backlink(&t1, &rid(10, 0, 0)).unwrap();
    store.log_backlink(&t2, &rid(20, 0, 0)).unwrap();
    store.log_backlink(&t1, &rid(11, 0, 0)).unwrap();
    store.log_backlink(&t2, &rid(21, 0, 0)).unwrap();
    assert_eq!(read_live(&store, &t1), vec![rid(10, 0, 0), rid(11, 0, 0)]);
    assert_eq!(read_live(&store, &t2), vec![rid(20, 0, 0), rid(21, 0, 0)]);
    let listed = store.list_all_targets();
    assert_eq!(listed.len(), 2);
    assert_eq!(listed[0].0, t1);
    let mut out = Vec::new();
    store.read_backlinks_from_index_entry(&listed[1].1, &mut out);
    assert_eq!(out, vec![rid(20, 0, 0), rid(21, 0, 0)]);
}

#[test]
fn crash_mid_slot_leaves_unreachable_slot() {
    let target = rid(5, 5, 5);
    let mut store = LiveStorageWriter::empty();
    store.log_backlink(&target, &rid(1, 0, 0)).unwrap();
    store.log_backlink(&target, &rid(2, 0, 0)).unwrap();
    let leaked = store.alloc_entry_slot().unwrap();
    assert_eq!(leaked, 2);
    assert_eq!(read_live(&store, &target), vec![rid(1, 0, 0), rid(2, 0, 0)]);
    store.log_backlink(&target, &rid(3, 0, 0)).unwrap();
    let v = store.index_value(&target).unwrap();
    assert_eq!(v.tail, 3);
    assert_eq!(store.num_records(), 4);
    assert_eq!(read_live(&store, &target), vec![rid(1, 0, 0), rid(2, 0, 0), rid(3, 0, 0)]);
}

#[test]
fn compacted_groups_round_trip() {
    let mut w = CompactedStorageWriter::new();
    let t1 = rid(1, 1, 1);
    let t2 = rid(1, 1, 2);
    let g1 = vec![rid(300, 5, 1), rid(1, 200, 2), rid(u64::MAX, u32::MAX, u64::MAX)];
    let g2 = vec![rid(0, 0, 0)];
    w.log_backlinks(&t1, &g1).unwrap();
    w.log_backlinks(&t2, &g2).unwrap();
    let entries = w.index_entries().clone();
    assert_eq!(entries[0].position, 0);
    assert_eq!(entries[0].count, 3);
    assert_eq!(entries[1].count, 1);
    // group one: 24 bytes of rkeys, 1+2+5 bytes of collections, 2+1+10 of dids
    assert_eq!(entries[1].position, 2);
    let links = w.links_bytes().clone();
    assert!(links[45..64].iter().all(|b| *b == 0));
    let r = w.into_reader();
    let mut out = Vec::new();
    r.read_backlinks(&t1, &mut out).unwrap();
    assert_eq!(out, g1);
    let mut out = Vec::new();
    r.read_backlinks(&t2, &mut out).unwrap();
    assert_eq!(out, g2);
    let mut out = Vec::new();
    r.read_backlinks(&rid(9, 9, 9), &mut out).unwrap();
    assert!(out.is_empty());
}

#[test]
fn compacted_writer_rejects_order_errors() {
    let mut w = CompactedStorageWriter::new();
    w.log_backlinks(&rid(0, 0, 5), &[rid(1, 1, 1)]).unwrap();
    assert_eq!(w.log_backlinks(&rid(0, 0, 5), &[rid(1, 1, 1)]), Err(CompactError::OutOfOrder));
    assert_eq!(w.log_backlinks(&rid(0, 0, 4), &[rid(1, 1, 1)]), Err(CompactError::OutOfOrder));
    assert_eq!(
        w.log_backlinks(&rid(0, 0, 6), &[rid(1, 1, 2), rid(1, 1, 1)]),
        Err(CompactError::Unsorted)
    );
    assert_eq!(
        w.log_backlinks(&rid(0, 0, 6), &[rid(1, 1, 1), rid(1, 1, 1)]),
        Err(CompactError::Unsorted)
    );
    assert_eq!(w.index_entries().len(), 1);
}

#[test]
fn compacted_reader_survives_garbage() {
    let index = w_index();
    let r = CompactedStorageReader::new(&index, vec![0xff; 10]).unwrap();
    let mut out = Vec::new();
    assert_eq!(r.read_backlinks(&rid(1, 1, 1), &mut out), Ok(()));
    assert!(out.is_empty());
    assert_eq!(CompactedStorageReader::new(&index[..20], vec![]).err(), Some(CompactError::Corrupt));
}

fn w_index() -> Vec<u8> {
    let mut w = CompactedStorageWriter::new();
    w.log_backlinks(&rid(1, 1, 1), &[rid(1, 2, 3), rid(4, 5, 6)]).unwrap();
    w.index_file_bytes()
}

#[test]
fn compaction_equivalence() {
    let mut live = LiveStorageWriter::empty();
    let mut targets = Vec::new();
    for t in 0..1000u64 {
        let target = rid(t * 7919 % 1000, (t % 13) as u32, t * 31);
        targets.push(target);
        let n = 2 + (t % 9);
        for s in 0..n {
            live.log_backlink(&target, &rid(s * 3 + t, (s % 4) as u32, 1_000_000 - s)).unwrap();
        }
        // a repeated source that is not adjacent
        live.log_backlink(&target, &rid(t, 0, 1_000_000)).unwrap();
    }
    let compacted = compact(&live).unwrap().into_reader();
    for target in &targets {
        let from_live = sort_dedup(&read_live(&live, target));
        let mut from_compacted = Vec::new();
        compacted.read_backlinks(target, &mut from_compacted).unwrap();
        assert_eq!(from_live, from_compacted);
        assert!(from_compacted.len() >= 2);
    }
}

#[test]
fn union_over_live_and_compacted() {
    let target = rid(42, 1, 1);
    let mut old_store = LiveStorageWriter::empty();
    for i in 0..50u64 {
        old_store.log_backlink(&rid(i, 0, 0), &rid(i + 1, 0, 0)).unwrap();
    }
    old_store.log_backlink(&target, &rid(100, 2, 2)).unwrap();
    let compacted = compact(&old_store).unwrap().into_reader();
    let mut new_store = LiveStorageWriter::empty();
    new_store.log_backlink(&target, &rid(200, 2, 2)).unwrap();
    new_store.log_backlink(&target, &rid(100, 2, 2)).unwrap();
    let stores = vec![StoreReader::Compacted(compacted), StoreReader::Live(new_store)];
    let got = read_union(&stores, &target);
    assert_eq!(got, vec![rid(100, 2, 2), rid(200, 2, 2)]);
}

#[test]
fn sort_dedup_orders_by_rkey_then_collection_then_did() {
    let v = vec![rid(1, 1, 2), rid(2, 1, 1), rid(1, 2, 1), rid(2, 1, 1), rid(0, 1, 1)];
    assert_eq!(sort_dedup(&v), vec![rid(0, 1, 1), rid(2, 1, 1), rid(1, 2, 1), rid(1, 1, 2)]);
}

#[test]
fn interner_round_trips() {
    let mut i = Interner::new();
    let web = i.encode_did("did:web:example.com", None).unwrap();
    assert_ne!(web & backshots::record::DID_FLAG_NON_STANDARD, 0);
    assert_eq!(i.encode_did("did:web:example.com", None).unwrap(), web);
    assert_eq!(i.resolve_did(web, None).unwrap(), "did:web:example.com");
    let plc = i.encode_did("did:plc:abc", Some(77)).unwrap();
    assert_eq!(plc, 77);
    assert_eq!(i.resolve_did(77, Some("did:plc:abc".to_string())).unwrap(), "did:plc:abc");
    assert_eq!(i.resolve_did(77, None), Err(InternError::NotFound));
    let self_rkey = i.encode_rkey("self").unwrap();
    assert_ne!(self_rkey & backshots::record::RKEY_FLAG_NOT_TID, 0);
    assert_eq!(i.resolve_rkey(self_rkey).unwrap(), "self");
    let tid = i.encode_rkey("3lkpfgi6mck23").unwrap();
    assert_eq!(tid, backshots::tid::s32decode("3lkpfgi6mck23"));
    assert_eq!(i.resolve_rkey(tid).unwrap(), "3lkpfgi6mck23");
    // 13 alphabet characters whose number sets the high bit are interned instead
    let high = i.encode_rkey("zzzzzzzzzzzzz").unwrap();
    assert_ne!(high & backshots::record::RKEY_FLAG_NOT_TID, 0);
    assert_eq!(i.resolve_rkey(high).unwrap(), "zzzzzzzzzzzzz");
    let c1 = i.encode_collection("app.bsky.feed.post").unwrap();
    let c2 = i.encode_collection("app.bsky.feed.like").unwrap();
    assert_eq!((c1, c2), (1, 2));
    assert_eq!(i.encode_collection("app.bsky.feed.post").unwrap(), 1);
    assert_eq!(i.resolve_collection(2).unwrap(), "app.bsky.feed.like");
    assert_eq!(i.resolve_collection(3), Err(InternError::NotFound));
    assert_eq!(
        i.record_id_from_at_uri("https://example.com", None),
        Err(InternError::BadUri(AtUriError::NoRepo))
    );
}
