use backshots::backfill::{did_document_url, find_pds_endpoint, get_repo_url, DidService};
use backshots::counter::MonotonicCounter;
use backshots::ingest::{
    count_frame_for_rollover, next_cursor,
    decide_commit, handle_backlinks, parse_repo_status, registry_id, split_record_path,
    CommitDecision, RepoStatus,
};
use backshots::interner::Interner;
use backshots::lifecycle::{
    get_size, is_compaction_candidate, needs_rollover, next_state, parse_pid_file_name,
    should_clean_up, PidFile, StoreEvent, StoreState, ROLLOVER_SIZE,
};
use backshots::live::LiveStorageWriter;
use backshots::query::{at_uri_string, links_json, render_links_json, resolve_links, sort_links};
use backshots::read::{read_union, StoreReader};
use backshots::record::RecordId;
use backshots::text::str_lt;

fn s(x: &str) -> String {
    x.to_string()
}

fn read_live(store: &LiveStorageWriter, target: &RecordId) -> Vec<RecordId> {
    let mut out = Vec::new();
    store.read_backlinks(target, &mut out);
    out
}

#[test]
fn empty_lookup_renders_empty_object() {
    let stores: Vec<StoreReader> = Vec::new();
    let mut interner = Interner::new();
    let target = interner
        .record_id_from_at_uri("at://did:plc:abc/app.bsky.feed.post/3lkpfgi6mck23", None)
        .unwrap();
    let sources = read_union(&stores, &target);
    let pairs = resolve_links(&interner, &Vec::new(), &sources).unwrap();
    assert_eq!(links_json(&sort_links(&pairs)), "{}");
}

#[test]
fn single_insertion_lookup_json() {
    let mut interner = Interner::new();
    let mut store = LiveStorageWriter::empty();
    let mut counter = MonotonicCounter::new("backlinks");
    let written = handle_backlinks(
        &mut interner,
        &mut store,
        &mut counter,
        &Vec::new(),
        "did:plc:alpha",
        "app.bsky.feed.like",
        "3lkaaaa111111",
        &vec![s("at://did:plc:beta/app.bsky.feed.post/3lkbbbb222222")],
    )
    .unwrap()
    .unwrap();
    assert_eq!(written.targets.len(), 1);
    assert_eq!(written.writes.len(), 1);
    assert_eq!(written.writes[0].slots, vec![0]);
    assert_eq!(written.writes[0].entry, Some(0));
    assert_eq!(counter.flush(), 1);
    let target = interner
        .record_id_from_at_uri("at://did:plc:beta/app.bsky.feed.post/3lkbbbb222222", None)
        .unwrap();
    let stores = vec![StoreReader::Live(store)];
    let sources = read_union(&stores, &target);
    assert_eq!(sources.len(), 1);
    let pairs = resolve_links(&interner, &Vec::new(), &sources).unwrap();
    assert_eq!(
        links_json(&sort_links(&pairs)),
        "{\"app.bsky.feed.like\":[\"at://did:plc:alpha/app.bsky.feed.like/3lkaaaa111111\"]}"
    );
}

#[test]
fn write_path_skips_bad_targets() {
    let mut interner = Interner::new();
    let mut store = LiveStorageWriter::empty();
    let mut counter = MonotonicCounter::new("backlinks");
    let registry = vec![(s("did:plc:beta"), 42u64)];
    let out = handle_backlinks(
        &mut interner,
        &mut store,
        &mut counter,
        &registry,
        "did:web:example.com",
        "app.bsky.feed.repost",
        "self",
        &vec![
            s("not a uri"),
            s("at://did:plc:beta/app.bsky.feed.post/3lkbbbb222222"),
            s("at://did:plc:beta"),
        ],
    )
    .unwrap()
    .unwrap();
    let source = out.source;
    assert_eq!(out.targets.len(), 3);
    assert!(out.targets[0].is_none());
    assert!(out.targets[2].is_none());
    let written = out.targets[1].unwrap();
    assert_eq!(written.did, 42);
    assert_eq!(read_live(&store, &written), vec![source]);
    assert_eq!(out.writes.len(), 1);
    assert_eq!(counter.flush(), 1);
    let none = handle_backlinks(
        &mut interner,
        &mut store,
        &mut counter,
        &registry,
        "did:web:example.com",
        "app.bsky.feed.repost",
        "self",
        &Vec::new(),
    )
    .unwrap();
    assert!(none.is_none());
}

#[test]
fn grouped_json_sorts_keys_and_uris() {
    let pairs = vec![
        (s("b.coll"), s("at://x/b.coll/2")),
        (s("a.coll"), s("at://y/a.coll/1")),
        (s("b.coll"), s("at://x/b.coll/1")),
        (s("b.coll"), s("at://x/b.coll/2")),
    ];
    let sorted = sort_links(&pairs);
    assert_eq!(sorted.len(), 3);
    assert_eq!(
        links_json(&sorted),
        "{\"a.coll\":[\"at://y/a.coll/1\"],\"b.coll\":[\"at://x/b.coll/1\",\"at://x/b.coll/2\"]}"
    );
    let quoted = vec![(s("K"), s("1")), (s("K"), s("2")), (s("L"), s("3"))];
    assert_eq!(render_links_json(&quoted), "{K:[1,2],L:[3]}");
    assert_eq!(render_links_json(&Vec::new()), "{}");
    let escaped = vec![(s("q\"k"), s("line\nbreak"))];
    assert_eq!(links_json(&escaped), "{\"q\\\"k\":[\"line\\nbreak\"]}");
}

#[test]
fn at_uri_strings() {
    assert_eq!(at_uri_string("did:plc:a", "app.x", "3k"), "at://did:plc:a/app.x/3k");
    assert!(str_lt("a", "b"));
    assert!(str_lt("a", "ab"));
    assert!(!str_lt("ab", "a"));
    assert!(!str_lt("a", "a"));
    assert!(str_lt("", "a"));
}

#[test]
fn cursor_and_rollover_checks() {
    assert_eq!(next_cursor(10, 11), 11);
    assert_eq!(next_cursor(10, 10), 10);
    assert_eq!(next_cursor(10, 3), 10);
    assert_eq!(count_frame_for_rollover(0), (false, 1));
    assert_eq!(count_frame_for_rollover(126), (false, 127));
    assert_eq!(count_frame_for_rollover(127), (true, 0));
}

#[test]
fn commit_gating() {
    assert_eq!(decide_commit(10, 10, None, "b", "a"), CommitDecision::Skip);
    assert_eq!(decide_commit(10, 11, None, "b", "a"), CommitDecision::Ingest);
    assert_eq!(decide_commit(0, 1, Some(RepoStatus::Outdated), "b", "a"), CommitDecision::Skip);
    assert_eq!(decide_commit(0, 1, Some(RepoStatus::Errored), "b", "a"), CommitDecision::Skip);
    assert_eq!(decide_commit(0, 1, Some(RepoStatus::Processing), "b", "a"), CommitDecision::Enqueue);
    assert_eq!(
        decide_commit(0, 1, Some(RepoStatus::Done), "3lkb", "3lka"),
        CommitDecision::Ingest
    );
    assert_eq!(decide_commit(0, 1, Some(RepoStatus::Done), "3lka", "3lka"), CommitDecision::Skip);
    assert_eq!(decide_commit(0, 1, Some(RepoStatus::Done), "3lj", "3lka"), CommitDecision::Skip);
    assert_eq!(parse_repo_status("processing"), Some(RepoStatus::Processing));
    assert_eq!(parse_repo_status("done"), Some(RepoStatus::Done));
    assert_eq!(parse_repo_status("outdated"), Some(RepoStatus::Outdated));
    assert_eq!(parse_repo_status("errored"), Some(RepoStatus::Errored));
    assert_eq!(parse_repo_status("Done"), None);
    assert_eq!(split_record_path("app.bsky.feed.like/3lk"), Some(("app.bsky.feed.like", "3lk")));
    assert_eq!(split_record_path("a/b/c"), Some(("a", "b/c")));
    assert_eq!(split_record_path("nopath"), None);
    let reg = vec![(s("did:plc:a"), 1u64), (s("did:plc:b"), 2u64)];
    assert_eq!(registry_id(&reg, "did:plc:b"), Some(2));
    assert_eq!(registry_id(&reg, "did:plc:c"), None);
}

#[test]
fn lifecycle_decisions() {
    assert_eq!(get_size(3, 4), 7);
    assert_eq!(get_size(u64::MAX, 4), u64::MAX);
    assert!(!needs_rollover(ROLLOVER_SIZE - 1));
    assert!(needs_rollover(2_147_483_648));
    assert!(is_compaction_candidate(ROLLOVER_SIZE, false, false));
    assert!(!is_compaction_candidate(ROLLOVER_SIZE, true, false));
    assert!(!is_compaction_candidate(ROLLOVER_SIZE, false, true));
    assert!(!is_compaction_candidate(ROLLOVER_SIZE - 1, false, false));
    let live = vec![s("20250101000000")];
    assert!(!should_clean_up("20250101000000", &live, false));
    assert!(should_clean_up("20240101000000", &live, false));
    assert!(!should_clean_up("20240101000000", &live, true));
    assert_eq!(parse_pid_file_name("1234.pid"), PidFile::Pid(1234));
    assert_eq!(parse_pid_file_name("abc.pid"), PidFile::BadPid);
    assert_eq!(parse_pid_file_name(".pid"), PidFile::BadPid);
    assert_eq!(parse_pid_file_name("99999999999.pid"), PidFile::BadPid);
    assert_eq!(parse_pid_file_name("index.dat"), PidFile::NotPidFile);
    assert_eq!(parse_pid_file_name("pid"), PidFile::NotPidFile);
    assert_eq!(
        next_state(StoreState::Live, StoreEvent::CompactionStarted),
        Some(StoreState::Compacting)
    );
    assert_eq!(
        next_state(StoreState::Compacting, StoreEvent::CompactionFinished),
        Some(StoreState::Compacted)
    );
    assert_eq!(next_state(StoreState::Compacted, StoreEvent::CompactionStarted), None);
    assert_eq!(next_state(StoreState::Live, StoreEvent::CompactionFinished), None);
}

fn rid(did: u64, collection: u32, rkey: u64) -> RecordId {
    RecordId::new(did, collection, rkey)
}

#[test]
fn live_files_reopen_to_the_same_store() {
    let mut store = LiveStorageWriter::empty();
    let t1 = rid(1, 1, 1);
    let t2 = rid(2, 2, 2);
    store.log_backlink(&t1, &rid(10, 0, 0)).unwrap();
    store.log_backlink(&t2, &rid(20, 0, 0)).unwrap();
    store.log_backlink(&t1, &rid(11, 0, 0)).unwrap();
    let index = store.index_file_bytes();
    let links = store.links_file_bytes();
    assert_eq!(index.len(), 64 + 2 * 40);
    assert_eq!(links.len(), 3 * 32);
    assert_eq!(&index[..8], &3u64.to_le_bytes());
    let reopened = LiveStorageWriter::new(&index, &links).unwrap();
    assert_eq!(read_live(&reopened, &t1), vec![rid(10, 0, 0), rid(11, 0, 0)]);
    assert_eq!(read_live(&reopened, &t2), vec![rid(20, 0, 0)]);
    assert_eq!(reopened.num_records(), 3);
}

#[test]
fn writes_list_the_changed_records() {
    let mut store = LiveStorageWriter::empty();
    let t = rid(1, 1, 1);
    let first = store.log_backlink(&t, &rid(10, 0, 0)).unwrap();
    assert_eq!((first.slots.clone(), first.entry), (vec![0], Some(0)));
    let index_before = store.index_file_bytes();
    let mut links = store.links_file_bytes();
    let second = store.log_backlink(&t, &rid(11, 0, 0)).unwrap();
    assert_eq!((second.slots.clone(), second.entry), (vec![1, 0], Some(0)));
    let same = store.log_backlink(&t, &rid(11, 0, 0)).unwrap();
    assert!(same.slots.is_empty() && same.entry.is_none());
    // patch the old images record by record and compare with fresh ones
    links.resize(32 * store.num_slots(), 0);
    for slot in &second.slots {
        let at = 32 * *slot as usize;
        links[at..at + 32].copy_from_slice(&store.link_record_bytes(*slot as usize));
    }
    assert_eq!(links, store.links_file_bytes());
    let mut index = index_before;
    index[..8].copy_from_slice(&store.num_records().to_le_bytes());
    let e = second.entry.unwrap() as usize;
    index[64 + 40 * e..64 + 40 * e + 40].copy_from_slice(&store.entry_record_bytes(e));
    assert_eq!(index, store.index_file_bytes());
}

#[test]
fn restart_after_crash_mid_slot() {
    let target = rid(5, 5, 5);
    let mut store = LiveStorageWriter::empty();
    store.log_backlink(&target, &rid(1, 0, 0)).unwrap();
    store.log_backlink(&target, &rid(2, 0, 0)).unwrap();
    store.alloc_entry_slot().unwrap();
    let mut reopened =
        LiveStorageWriter::new(&store.index_file_bytes(), &store.links_file_bytes()).unwrap();
    assert_eq!(read_live(&reopened, &target), vec![rid(1, 0, 0), rid(2, 0, 0)]);
    assert_eq!(reopened.num_records(), 3);
    reopened.log_backlink(&target, &rid(3, 0, 0)).unwrap();
    assert_eq!(reopened.index_value(&target).unwrap().tail, 3);
    assert_eq!(read_live(&reopened, &target), vec![rid(1, 0, 0), rid(2, 0, 0), rid(3, 0, 0)]);
}

#[test]
fn reopening_cuts_broken_chains() {
    let mut store = LiveStorageWriter::empty();
    let target = rid(1, 1, 1);
    let other = rid(2, 2, 2);
    store.log_backlink(&target, &rid(10, 0, 0)).unwrap();
    store.log_backlink(&target, &rid(11, 0, 0)).unwrap();
    store.log_backlink(&target, &rid(12, 0, 0)).unwrap();
    store.log_backlink(&other, &rid(20, 0, 0)).unwrap();
    let index = store.index_file_bytes();
    let mut links = store.links_file_bytes();
    // slot 1's `prev` no longer points back: the chain is cut after slot 0
    links[32 + 28..32 + 32].copy_from_slice(&5i32.to_le_bytes());
    let cut = LiveStorageWriter::new(&index, &links).unwrap();
    assert_eq!(read_live(&cut, &target), vec![rid(10, 0, 0)]);
    assert_eq!(read_live(&cut, &other), vec![rid(20, 0, 0)]);
    assert_eq!(cut.index_value(&target).unwrap().tail, 0);
    // a write still in progress: slot 3 counted by nothing yet
    let short = store.links_file_bytes()[..3 * 32].to_vec();
    let mut header_short = index.clone();
    header_short[..8].copy_from_slice(&3u64.to_le_bytes());
    let partial = LiveStorageWriter::new(&header_short, &short).unwrap();
    assert_eq!(read_live(&partial, &target), vec![rid(10, 0, 0), rid(11, 0, 0), rid(12, 0, 0)]);
    // the entry of `other` has a head beyond the counted slots: it is left out
    assert!(read_live(&partial, &other).is_empty());
    assert_eq!(partial.num_records(), 3);
    let fresh = LiveStorageWriter::new(&[], &[]).unwrap();
    assert_eq!(fresh.num_records(), 0);
}

#[test]
fn backfill_requests() {
    assert_eq!(
        did_document_url("did:plc:abc").unwrap(),
        "http://127.0.0.1:2486/did:plc:abc"
    );
    assert_eq!(
        did_document_url("did:web:example.com").unwrap(),
        "https://example.com/.well-known/did.json"
    );
    assert_eq!(did_document_url("did:key:z6Mk"), None);
    let services = vec![
        DidService { id: Some(s("#bsky_notif")), endpoint: Some(s("https://notif.example")) },
        DidService { id: Some(s("#atproto_pds")), endpoint: Some(s("https://pds.example")) },
        DidService { id: Some(s("#atproto_pds")), endpoint: Some(s("https://other.example")) },
    ];
    assert_eq!(find_pds_endpoint(&services).unwrap(), "https://pds.example");
    let notif_only = vec![DidService { id: Some(s("#bsky_notif")), endpoint: Some(s("x")) }];
    assert_eq!(find_pds_endpoint(&notif_only), None);
    let no_endpoint = vec![DidService { id: Some(s("#atproto_pds")), endpoint: None }];
    assert_eq!(find_pds_endpoint(&no_endpoint), None);
    assert_eq!(
        get_repo_url("https://pds.example", "did:plc:abc", None),
        "https://pds.example/xrpc/com.atproto.sync.getRepo?did=did:plc:abc"
    );
    assert_eq!(
        get_repo_url("https://pds.example", "did:plc:abc", Some("3lk")),
        "https://pds.example/xrpc/com.atproto.sync.getRepo?did=did:plc:abc&since=3lk"
    );
}
