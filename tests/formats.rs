use backshots::cid::{cidv1_meta, CidError, CidV1};
use backshots::compacted::{
    check_index_order, parse_index, CompactError, CompactedStorageReader, CompactedStorageWriter,
};
use backshots::config::get_app_config;
use backshots::events::{Action, ActionError, EventKind, StreamEventHeader, SubscribeReposInfo};
use backshots::interner::Interner;
use backshots::live::LiveStorageWriter;
use backshots::record::RecordId;

fn rid(did: u64, collection: u32, rkey: u64) -> RecordId {
    RecordId::new(did, collection, rkey)
}

#[test]
fn compacted_index_file_round_trip() {
    let mut w = CompactedStorageWriter::new();
    w.log_backlinks(&rid(1, 1, 1), &[rid(5, 6, 7)]).unwrap();
    w.log_backlinks(&rid(1, 1, 9), &[rid(1, 2, 3), rid(4, 5, 6)]).unwrap();
    assert_eq!(w.header().num_entries, 2);
    let bytes = w.index_file_bytes();
    assert_eq!(bytes.len(), 32 + 2 * 32);
    assert_eq!(&bytes[..8], &2u64.to_le_bytes());
    assert!(bytes[8..32].iter().all(|b| *b == 0));
    let entries = parse_index(&bytes).unwrap();
    assert_eq!(&entries, w.index_entries());
    // the entry of the second target: count 2 at position 1
    assert_eq!(&bytes[64 + 24..64 + 28], &2u32.to_le_bytes());
    assert_eq!(&bytes[64 + 28..64 + 32], &1u32.to_le_bytes());
    let reader = CompactedStorageReader::new(&bytes, w.links_bytes().clone()).unwrap();
    let mut out = Vec::new();
    reader.read_backlinks(&rid(1, 1, 9), &mut out).unwrap();
    assert_eq!(out, vec![rid(1, 2, 3), rid(4, 5, 6)]);
    assert!(check_index_order(&entries_again(&bytes)));
    let mut swapped = entries_again(&bytes);
    swapped.swap(0, 1);
    assert!(!check_index_order(&swapped));
    assert_eq!(parse_index(&bytes[..40]), Err(CompactError::Corrupt));
    let opened = CompactedStorageReader::new(&bytes, w.links_bytes().clone()).unwrap();
    let mut out = Vec::new();
    opened.read_backlinks(&rid(1, 1, 1), &mut out).unwrap();
    assert_eq!(out, vec![rid(5, 6, 7)]);
    // a damaged group costs only its own target
    let mut garbled = w.links_bytes().clone();
    garbled[8] = 0x86;
    garbled[9] = 0x00;
    let partly = CompactedStorageReader::new(&bytes, garbled).unwrap();
    let mut out = Vec::new();
    partly.read_backlinks(&rid(1, 1, 1), &mut out).unwrap();
    assert!(out.is_empty());
    partly.read_backlinks(&rid(1, 1, 9), &mut out).unwrap();
    assert_eq!(out, vec![rid(1, 2, 3), rid(4, 5, 6)]);
    assert_eq!(parse_index(&[0u8; 8]), Err(CompactError::Corrupt));
}

fn entries_again(bytes: &[u8]) -> Vec<backshots::compacted::RecordIndexEntry> {
    parse_index(bytes).unwrap()
}

#[test]
fn live_header_counts_slots() {
    let mut store = LiveStorageWriter::empty();
    store.log_backlink(&rid(1, 1, 1), &rid(2, 2, 2)).unwrap();
    store.log_backlink(&rid(1, 1, 1), &rid(3, 3, 3)).unwrap();
    assert_eq!(store.header().num_records, 2);
    assert_eq!(store.num_entries(), 1);
    assert_eq!(store.entry_at(0).target, rid(1, 1, 1));
}

#[test]
fn cid_meta_packs_bytes() {
    assert_eq!(cidv1_meta(1, 0x71, 0x12), 0x0012_7101);
    let cid = CidV1 { meta: cidv1_meta(1, 0x55, 0x12), hash: [7u8; 32] };
    assert_eq!(cid.meta & 0xff, 1);
    assert_eq!((cid.meta >> 8) & 0xff, 0x55);
}

#[test]
fn stream_event_fields() {
    let commit = StreamEventHeader { op: 1, t: Some("#commit".to_string()) };
    let info = StreamEventHeader { op: 1, t: Some("#info".to_string()) };
    let other = StreamEventHeader { op: -1, t: None };
    assert_eq!(commit.kind(), EventKind::Commit);
    assert_eq!(info.kind(), EventKind::Info);
    assert_eq!(other.kind(), EventKind::Other);
    let outdated = SubscribeReposInfo { message: None, name: "OutdatedCursor".to_string() };
    assert!(outdated.is_outdated_cursor());
    let migrate = SubscribeReposInfo { message: Some("x".to_string()), name: "Other".to_string() };
    assert!(!migrate.is_outdated_cursor());
}

#[test]
fn dump_actions() {
    let create = Action::from_fields(
        "c",
        "did:plc:a".to_string(),
        "3lk".to_string(),
        Some("at://did:plc:b/app.bsky.feed.post/3lj".to_string()),
    );
    match create {
        Ok(Action::Create(e)) => {
            assert_eq!(e.did, "did:plc:a");
            assert_eq!(e.uri, "at://did:plc:b/app.bsky.feed.post/3lj");
        }
        _ => panic!("expected a create"),
    }
    assert!(matches!(
        Action::from_fields("d", "did:plc:a".to_string(), "3lk".to_string(), None),
        Ok(Action::Delete(_))
    ));
    assert!(matches!(
        Action::from_fields("c", "did:plc:a".to_string(), "3lk".to_string(), None),
        Err(ActionError::MissingUri)
    ));
    assert!(matches!(
        Action::from_fields("x", "did:plc:a".to_string(), "3lk".to_string(), None),
        Err(ActionError::UnknownAction)
    ));
}

#[test]
fn default_config() {
    let cfg = get_app_config();
    assert_eq!(cfg.zplc_path, "../zplc-server/data/ids.db");
    assert_eq!(cfg.data_dir, "./data");
}

#[test]
fn interner_tables_reload() {
    let mut i = Interner::new();
    let d = i.encode_did("did:web:a.example", None).unwrap();
    let c = i.encode_collection("app.bsky.graph.follow").unwrap();
    let k = i.encode_rkey("self").unwrap();
    let reloaded = Interner::from_tables(
        i.did_rows().clone(),
        i.rkey_rows().clone(),
        i.collection_rows().clone(),
    )
    .unwrap();
    assert_eq!(reloaded.resolve_did(d, None).unwrap(), "did:web:a.example");
    assert_eq!(reloaded.resolve_collection(c).unwrap(), "app.bsky.graph.follow");
    assert_eq!(reloaded.resolve_rkey(k).unwrap(), "self");
    let dup = Interner::from_tables(vec!["a".to_string(), "a".to_string()], vec![], vec![]);
    assert!(dup.is_none());
}

#[test]
fn cid_multibase_round_trip() {
    let cid = CidV1 { meta: cidv1_meta(1, 0x71, 0x12), hash: [0xab; 32] };
    let s = cid.to_multibase();
    assert!(s.starts_with("bafyrei"));
    let back = CidV1::from_multibase(&s).unwrap();
    assert_eq!(back.meta, cid.meta);
    assert_eq!(back.hash, cid.hash);
    let bytes = cid.to_bytes();
    assert_eq!(&bytes[..4], &[1, 0x71, 0x12, 32]);
    assert_eq!(bytes.len(), 36);
    let expected: String = {
        let alphabet = b"abcdefghijklmnopqrstuvwxyz234567";
        let mut bits = Vec::new();
        for b in &bytes {
            for k in (0..8).rev() {
                bits.push((b >> k) & 1);
            }
        }
        while bits.len() % 5 != 0 {
            bits.push(0);
        }
        let body: String = bits
            .chunks(5)
            .map(|c| alphabet[c.iter().fold(0usize, |a, x| a * 2 + *x as usize)] as char)
            .collect();
        format!("b{body}")
    };
    assert_eq!(s, expected);
    let raw = CidV1 { meta: cidv1_meta(1, 0x55, 0x12), hash: [0; 32] };
    assert!(raw.to_multibase().starts_with("bafkrei"));
    let zeros = "00".repeat(32);
    assert!(matches!(CidV1::from_multibase(""), Err(CidError::BadMultibase)));
    assert!(matches!(CidV1::from_multibase("f0112"), Err(CidError::TooShort)));
    assert!(matches!(
        CidV1::from_multibase(&format!("f02711220{zeros}")),
        Err(CidError::BadVersion)
    ));
    assert!(matches!(
        CidV1::from_multibase(&format!("f01711320{zeros}")),
        Err(CidError::BadHashType)
    ));
    assert!(matches!(
        CidV1::from_multibase(&format!("f01711221{zeros}")),
        Err(CidError::BadHashSize)
    ));
    assert!(matches!(CidV1::from_multibase("f0171122000"), Err(CidError::TooShort)));
    let parsed = CidV1::from_multibase(&format!("f01711220{zeros}")).unwrap();
    assert_eq!(parsed.meta, 0x0012_7101);
}
