//! The write path, and the decisions the firehose driver makes per commit.
use crate::counter::MonotonicCounter;
use crate::interner::{
    is_record_id_of, lemma_record_id_kept, uses_registry, InternError, Interner,
};
use crate::live::{LiveError, LiveStorageWriter, LiveWrite, MAX_SLOTS};
use crate::record::{first_index, RecordId, DID_MASK, RKEY_DB_MASK};
use crate::text::{seq_lt, str_lt};
use vstd::prelude::*;

verus! {

/// Why a commit's backlinks could not be written.
#[derive(Clone, Copy, Debug, PartialEq, Eq, Structural)]
pub enum IngestError {
    /// The source record could not be interned.
    Source(InternError),
    /// The live store refused a write.
    Store(LiveError),
}

/// What a commit's write path did: the interned source; for each target URI,
/// in order, the target it wrote (`None` when the URI was skipped); and for
/// each write, in order, the records of the files it changed.
pub struct Written {
    pub source: RecordId,
    pub targets: Vec<Option<RecordId>>,
    pub writes: Vec<LiveWrite>,
}

/// The registry's number for `did`: the first pair that names it.
pub open spec fn registry_lookup(registry: Seq<(String, u64)>, did: Seq<char>) -> Option<u64>
    decreases registry.len(),
{
    if registry.len() == 0 {
        None
    } else if registry[0].0@ == did {
        Some(registry[0].1)
    } else {
        registry_lookup(registry.drop_first(), did)
    }
}

/// How many of `s` are `Some`.
pub open spec fn count_some<T>(s: Seq<Option<T>>) -> nat
    decreases s.len(),
{
    if s.len() == 0 {
        0
    } else {
        count_some(s.drop_last()) + if s.last() is Some {
            1nat
        } else {
            0nat
        }
    }
}

/// The registry's number for `did`, among the pairs it answered.
pub fn registry_id(registry: &Vec<(String, u64)>, did: &str) -> (r: Option<u64>)
    ensures
        r == registry_lookup(registry@, did@),
{
    let owned: String = did.to_owned();
    let n = registry.len();
    let mut i: usize = 0;
    proof {
        assert(registry@.subrange(0, n as int) =~= registry@);
    }
    while i < n
        invariant
            n == registry@.len(),
            i <= n,
            owned@ == did@,
            registry_lookup(registry@, did@) == registry_lookup(
                registry@.subrange(i as int, n as int),
                did@,
            ),
        decreases n - i,
    {
        let ghost rest = registry@.subrange(i as int, n as int);
        proof {
            assert(rest[0] == registry@[i as int]);
            assert(rest.drop_first() =~= registry@.subrange(i + 1, n as int));
        }
        if registry[i].0 == owned {
            return Some(registry[i].1);
        }
        i = i + 1;
    }
    None
}

/// The identity that `uri` has under the interner's final tables, when its
/// repository's number comes from `registry`.
pub open spec fn names_target(
    interner: Interner,
    registry: Seq<(String, u64)>,
    uri: Seq<char>,
    id: RecordId,
) -> bool {
    crate::record::at_uri_parts(uri) matches Ok((d, c, k)) && is_record_id_of(
        interner.did_table(),
        interner.collection_table(),
        interner.rkey_table(),
        d,
        c,
        k,
        registry_lookup(registry, d),
        id,
    )
}

proof fn lemma_names_target_kept(
    i1: Interner,
    i2: Interner,
    registry: Seq<(String, u64)>,
    uri: Seq<char>,
    id: RecordId,
)
    requires
        i1.did_table().is_prefix_of(i2.did_table()),
        i1.collection_table().is_prefix_of(i2.collection_table()),
        i1.rkey_table().is_prefix_of(i2.rkey_table()),
        names_target(i1, registry, uri, id),
    ensures
        names_target(i2, registry, uri, id),
{
    if let Ok((d, c, k)) = crate::record::at_uri_parts(uri) {
        lemma_record_id_kept(
            i1.did_table(),
            i2.did_table(),
            i1.collection_table(),
            i2.collection_table(),
            i1.rkey_table(),
            i2.rkey_table(),
            d,
            c,
            k,
            registry_lookup(registry, d),
            id,
        );
    }
}

/// Writes that `repo/collection/rkey` links to each of `target_uris`. A target
/// that is not an AT-URI, or cannot be interned, is skipped; every other one
/// is written once, in order. `None` when there are no targets.
pub fn handle_backlinks(
    interner: &mut Interner,
    store: &mut LiveStorageWriter,
    counter: &mut MonotonicCounter,
    registry: &Vec<(String, u64)>,
    repo: &str,
    collection: &str,
    rkey: &str,
    target_uris: &Vec<String>,
) -> (r: Result<Option<Written>, IngestError>)
    requires
        old(interner).wf(),
        old(store).wf(),
    ensures
        final(interner).wf(),
        final(store).wf(),
        final(counter).key() == old(counter).key(),
        target_uris@.len() == 0 ==> (r matches Ok(None)) && *final(store) == *old(store)
            && *final(interner) == *old(interner) && *final(counter) == *old(counter),
        target_uris@.len() > 0 ==> !(r matches Ok(None)),
        r matches Err(IngestError::Store(e)) ==> e == LiveError::Full && final(store).links().len()
            >= MAX_SLOTS,
        r matches Err(IngestError::Source(e)) ==> e == InternError::TableFull && !old(
            interner,
        ).below_limits(),
        old(interner).below_limits() && old(store).links().len() + target_uris@.len() <= MAX_SLOTS
            ==> r is Ok,
        r matches Ok(Some(out)) ==> {
            let source = out.source;
            let targets = out.targets@;
            &&& is_record_id_of(
                final(interner).did_table(),
                final(interner).collection_table(),
                final(interner).rkey_table(),
                repo@,
                collection@,
                rkey@,
                registry_lookup(registry@, repo@),
                source,
            )
            &&& targets.len() == target_uris@.len()
            &&& forall|k: int|
                0 <= k < targets.len() ==> (#[trigger] targets[k] matches Some(id) ==> names_target(
                    *final(interner),
                    registry@,
                    target_uris@[k]@,
                    id,
                ) && final(store).backlinks(id).len() > 0 && final(store).backlinks(id).last()
                    == source)
            &&& forall|k: int|
                0 <= k < targets.len() ==> (crate::record::at_uri_parts(
                    #[trigger] target_uris@[k]@,
                ) is Err ==> targets[k] is None)
            &&& forall|k: int|
                0 <= k < targets.len() ==> (crate::record::at_uri_parts(
                    #[trigger] target_uris@[k]@,
                ) is Ok && final(interner).below_limits() ==> targets[k] is Some)
            &&& forall|t: RecordId|
                !targets.contains(Some(t)) ==> #[trigger] final(store).backlinks(t) == old(
                    store,
                ).backlinks(t)
            &&& final(counter).pending() == if old(counter).pending() + count_some(targets)
                > u64::MAX {
                u64::MAX as nat
            } else {
                (old(counter).pending() + count_some(targets)) as nat
            }
            &&& out.writes@.len() == count_some(targets)
        },
{
    let n = target_uris.len();
    if n == 0 {
        return Ok(None);
    }
    let reg = registry_id(registry, repo);
    let did = match interner.encode_did(repo, reg) {
        Ok(d) => d,
        Err(e) => {
            return Err(IngestError::Source(e));
        },
    };
    let coll = match interner.encode_collection(collection) {
        Ok(c) => c,
        Err(e) => {
            return Err(IngestError::Source(e));
        },
    };
    let rk = match interner.encode_rkey(rkey) {
        Ok(k) => k,
        Err(e) => {
            return Err(IngestError::Source(e));
        },
    };
    let source = RecordId::new(did, coll, rk);
    let ghost start_pending = counter.pending();
    let ghost start_store = *store;
    let ghost start_interner = *old(interner);
    proof {
        counter.lemma_pending_bound();
        assert(interner.did_table() == old(interner).did_table() || !uses_registry(repo@, reg));
    }
    let mut targets: Vec<Option<RecordId>> = Vec::new();
    let mut writes: Vec<LiveWrite> = Vec::new();
    let mut i: usize = 0;
    while i < n
        invariant
            n == target_uris@.len(),
            i <= n,
            targets@.len() == i,
            writes@.len() == count_some(targets@),
            interner.wf(),
            store.wf(),
            start_interner == *old(interner),
            start_store == *old(store),
            start_interner.did_table().is_prefix_of(interner.did_table()),
            start_interner.collection_table().is_prefix_of(interner.collection_table()),
            start_interner.rkey_table().is_prefix_of(interner.rkey_table()),
            store.links().len() <= start_store.links().len() + count_some(targets@),
            count_some(targets@) <= i,
            is_record_id_of(
                interner.did_table(),
                interner.collection_table(),
                interner.rkey_table(),
                repo@,
                collection@,
                rkey@,
                registry_lookup(registry@, repo@),
                source,
            ),
            forall|k: int|
                0 <= k < i ==> (#[trigger] targets@[k] matches Some(id) ==> names_target(
                    *interner,
                    registry@,
                    target_uris@[k]@,
                    id,
                ) && store.backlinks(id).len() > 0 && store.backlinks(id).last() == source),
            forall|k: int|
                0 <= k < i ==> (crate::record::at_uri_parts(#[trigger] target_uris@[k]@) is Err
                    ==> targets@[k] is None),
            forall|k: int|
                0 <= k < i ==> (crate::record::at_uri_parts(#[trigger] target_uris@[k]@) is Ok
                    && interner.below_limits() ==> targets@[k] is Some),
            forall|t: RecordId|
                !targets@.contains(Some(t)) ==> #[trigger] store.backlinks(t)
                    == start_store.backlinks(t),
            counter.key() == old(counter).key(),
            start_pending == old(counter).pending(),
            counter.pending() == if start_pending + count_some(targets@) > u64::MAX {
                u64::MAX as nat
            } else {
                (start_pending + count_some(targets@)) as nat
            },
        decreases n - i,
    {
        let uri = target_uris[i].as_str();
        let ghost before_store = *store;
        let ghost before_interner = *interner;
        let ghost before_targets = targets@;
        let res = interner.record_id_from_at_uri_with(uri, registry);
        proof {
            lemma_record_id_kept(
                before_interner.did_table(),
                interner.did_table(),
                before_interner.collection_table(),
                interner.collection_table(),
                before_interner.rkey_table(),
                interner.rkey_table(),
                repo@,
                collection@,
                rkey@,
                registry_lookup(registry@, repo@),
                source,
            );
            assert forall|k: int| 0 <= k < i implies (#[trigger] targets@[k] matches Some(id)
                ==> names_target(*interner, registry@, target_uris@[k]@, id)) by {
                if let Some(id) = targets@[k] {
                    lemma_names_target_kept(before_interner, *interner, registry@, target_uris@[k]@, id);
                }
            }
            if interner.below_limits() {
                assert(before_interner.below_limits());
            }
        }
        match res {
            Ok(target) => {
                let w = match store.log_backlink(&target, &source) {
                    Ok(w) => w,
                    Err(e) => {
                        return Err(IngestError::Store(e));
                    },
                };
                writes.push(w);
                targets.push(Some(target));
                counter.add(1);
                proof {
                    assert(targets@.drop_last() =~= before_targets);
                    assert forall|k: int| 0 <= k < i + 1 implies (#[trigger] targets@[k] matches Some(
                        id,
                    ) ==> names_target(*interner, registry@, target_uris@[k]@, id)
                        && store.backlinks(id).len() > 0 && store.backlinks(id).last() == source) by {
                        if k < i {
                            assert(targets@[k] == before_targets[k]);
                            if let Some(id) = targets@[k] {
                                if id != target {
                                    assert(store.backlinks(id) == before_store.backlinks(id));
                                }
                            }
                        }
                    }
                    assert forall|t: RecordId| !targets@.contains(Some(t)) implies #[trigger] store.backlinks(
                        t,
                    ) == start_store.backlinks(t) by {
                        assert(targets@[i as int] == Some(target));
                        if before_targets.contains(Some(t)) {
                            let k = choose|k: int| 0 <= k < before_targets.len() && before_targets[k] == Some(t);
                            assert(targets@[k] == Some(t));
                        }
                    }
                    assert forall|k: int| 0 <= k < i + 1 implies (crate::record::at_uri_parts(
                        #[trigger] target_uris@[k]@,
                    ) is Err ==> targets@[k] is None) by {
                        if k < i {
                            assert(targets@[k] == before_targets[k]);
                        }
                    }
                    assert forall|k: int| 0 <= k < i + 1 implies (crate::record::at_uri_parts(
                        #[trigger] target_uris@[k]@,
                    ) is Ok && interner.below_limits() ==> targets@[k] is Some) by {
                        if k < i {
                            assert(targets@[k] == before_targets[k]);
                        }
                    }
                }
            },
            Err(_) => {
                targets.push(None);
                proof {
                    assert(targets@.drop_last() =~= before_targets);
                    assert forall|k: int| 0 <= k < i + 1 implies (#[trigger] targets@[k] matches Some(
                        id,
                    ) ==> names_target(*interner, registry@, target_uris@[k]@, id)
                        && store.backlinks(id).len() > 0 && store.backlinks(id).last() == source) by {
                        if k < i {
                            assert(targets@[k] == before_targets[k]);
                        }
                    }
                    assert forall|t: RecordId| !targets@.contains(Some(t)) implies #[trigger] store.backlinks(
                        t,
                    ) == start_store.backlinks(t) by {
                        if before_targets.contains(Some(t)) {
                            let k = choose|k: int| 0 <= k < before_targets.len() && before_targets[k] == Some(t);
                            assert(targets@[k] == Some(t));
                        }
                    }
                    assert forall|k: int| 0 <= k < i + 1 implies (crate::record::at_uri_parts(
                        #[trigger] target_uris@[k]@,
                    ) is Err ==> targets@[k] is None) by {
                        if k < i {
                            assert(targets@[k] == before_targets[k]);
                        }
                    }
                    assert forall|k: int| 0 <= k < i + 1 implies (crate::record::at_uri_parts(
                        #[trigger] target_uris@[k]@,
                    ) is Ok && interner.below_limits() ==> targets@[k] is Some) by {
                        if k < i {
                            assert(targets@[k] == before_targets[k]);
                        } else {
                            if crate::record::at_uri_parts(target_uris@[k]@) is Ok {
                                assert(!before_interner.below_limits());
                            }
                        }
                    }
                }
            },
        }
        i = i + 1;
    }
    Ok(Some(Written { source, targets, writes }))
}

impl Interner {
    /// Interns an AT-URI, asking `registry` for the repository's number.
    pub fn record_id_from_at_uri_with(&mut self, uri: &str, registry: &Vec<(String, u64)>) -> (r:
        Result<RecordId, InternError>)
        requires
            old(self).wf(),
        ensures
            final(self).wf(),
            old(self).did_table().is_prefix_of(final(self).did_table()),
            old(self).collection_table().is_prefix_of(final(self).collection_table()),
            old(self).rkey_table().is_prefix_of(final(self).rkey_table()),
            crate::record::at_uri_parts(uri@) is Err ==> r is Err,
            crate::record::at_uri_parts(uri@) is Ok && old(self).below_limits() ==> r is Ok,
            r matches Ok(id) ==> names_target(*final(self), registry@, uri@, id),
    {
        let repo = match crate::record::parse_at_uri(uri) {
            Ok((repo, _, _)) => repo,
            Err(e) => {
                return Err(InternError::BadUri(e));
            },
        };
        let z = registry_id(registry, repo);
        self.record_id_from_at_uri(uri, z)
    }
}

/// Where a repository stands in the backfill.
#[derive(Clone, Copy, Debug, PartialEq, Eq, Structural)]
pub enum RepoStatus {
    Outdated,
    Processing,
    Done,
    Errored,
}

/// Reads a status as the backfill database stores it.
pub fn parse_repo_status(s: &str) -> (r: Option<RepoStatus>)
    ensures
        r == (if s@ == "outdated"@ {
            Some(RepoStatus::Outdated)
        } else if s@ == "processing"@ {
            Some(RepoStatus::Processing)
        } else if s@ == "done"@ {
            Some(RepoStatus::Done)
        } else if s@ == "errored"@ {
            Some(RepoStatus::Errored)
        } else {
            None
        }),
{
    let owned: String = s.to_owned();
    let outdated: String = "outdated".to_owned();
    let processing: String = "processing".to_owned();
    let done: String = "done".to_owned();
    let errored: String = "errored".to_owned();
    if owned == outdated {
        Some(RepoStatus::Outdated)
    } else if owned == processing {
        Some(RepoStatus::Processing)
    } else if owned == done {
        Some(RepoStatus::Done)
    } else if owned == errored {
        Some(RepoStatus::Errored)
    } else {
        None
    }
}

/// What the firehose driver does with a commit.
#[derive(Clone, Copy, Debug, PartialEq, Eq, Structural)]
pub enum CommitDecision {
    /// Drop it: already seen, or its repository is not ready for it.
    Skip,
    /// Keep it for replay once the repository's backfill is done.
    Enqueue,
    /// Write its backlinks now.
    Ingest,
}

/// The decision for a commit with sequence number `sequence`, given the
/// stored `cursor`, and, when the backfill gates the firehose, the
/// repository's status and the last revision the backfill recorded.
pub open spec fn commit_decision(
    cursor: u64,
    sequence: u64,
    status: Option<RepoStatus>,
    commit_rev: Seq<char>,
    last_rev: Seq<char>,
) -> CommitDecision {
    if sequence <= cursor {
        CommitDecision::Skip
    } else {
        match status {
            None => CommitDecision::Ingest,
            Some(RepoStatus::Outdated) | Some(RepoStatus::Errored) => CommitDecision::Skip,
            Some(RepoStatus::Processing) => CommitDecision::Enqueue,
            Some(RepoStatus::Done) => if seq_lt(last_rev, commit_rev) {
                CommitDecision::Ingest
            } else {
                CommitDecision::Skip
            },
        }
    }
}

pub fn decide_commit(
    cursor: u64,
    sequence: u64,
    status: Option<RepoStatus>,
    commit_rev: &str,
    last_rev: &str,
) -> (r: CommitDecision)
    ensures
        r == commit_decision(cursor, sequence, status, commit_rev@, last_rev@),
{
    if sequence <= cursor {
        return CommitDecision::Skip;
    }
    match status {
        None => CommitDecision::Ingest,
        Some(RepoStatus::Outdated) | Some(RepoStatus::Errored) => CommitDecision::Skip,
        Some(RepoStatus::Processing) => CommitDecision::Enqueue,
        Some(RepoStatus::Done) => {
            if str_lt(last_rev, commit_rev) {
                CommitDecision::Ingest
            } else {
                CommitDecision::Skip
            }
        },
    }
}

/// The cursor to store after a commit with sequence number `sequence`: the
/// sequence for every commit above the stored cursor, whatever its repository
/// status; the cursor unchanged otherwise. It never decreases.
pub fn next_cursor(cursor: u64, sequence: u64) -> (r: u64)
    ensures
        sequence > cursor ==> r == sequence,
        sequence <= cursor ==> r == cursor,
        r >= cursor,
{
    if sequence > cursor {
        sequence
    } else {
        cursor
    }
}

/// How many frames pass between two checks for a newer live store.
pub const ROLLOVER_CHECK_EVERY: u8 = 128;

/// Counts a frame; gives whether the writer should now look for a newer live
/// store, and the count to keep (0 after a check).
pub fn count_frame_for_rollover(count: u8) -> (r: (bool, u8))
    requires
        count < ROLLOVER_CHECK_EVERY,
    ensures
        count + 1 == ROLLOVER_CHECK_EVERY ==> r == (true, 0u8),
        count + 1 < ROLLOVER_CHECK_EVERY ==> r == (false, (count + 1) as u8),
{
    let next = count + 1;
    if next == ROLLOVER_CHECK_EVERY {
        (true, 0)
    } else {
        (false, next)
    }
}

/// Splits a repository path `collection/rkey` at its first `/`.
pub fn split_record_path(path: &str) -> (r: Option<(&str, &str)>)
    ensures
        first_index(path@, '/') < 0 ==> r is None,
        first_index(path@, '/') >= 0 ==> (r matches Some((c, k)) && c@ == path@.subrange(
            0,
            first_index(path@, '/'),
        ) && k@ == path@.subrange(first_index(path@, '/') + 1, path@.len() as int)),
{
    match crate::record::find_char(path, '/') {
        Some(i) => {
            let n = path.unicode_len();
            Some((path.substring_char(0, i), path.substring_char(i + 1, n)))
        },
        None => None,
    }
}

} // verus!
