//! The live store: an append-mostly pair of files where each target's sources
//! form a chain of link slots threaded by relative offsets.
use crate::record::RecordId;
use std::collections::BTreeMap;
use vstd::prelude::*;

verus! {

/// Size of the `index.dat` header.
pub const INDEX_HEADER_SIZE: usize = 64;

/// Size of one `index.dat` entry.
pub const INDEX_ENTRY_SIZE: usize = 40;

/// Size of one `links.dat` slot.
pub const BACKLINK_ENTRY_SIZE: usize = 32;

/// The head or tail of an entry that has no chain yet.
pub const NO_SLOT: u64 = 0xFFFF_FFFF_FFFF_FFFF;

/// The most slots a store holds, so that every relative offset fits an `i32`.
pub const MAX_SLOTS: usize = 0x7FFF_FFFF;

/// The `index.dat` header: how many link slots have been handed out.
#[derive(Clone, Copy, Debug, PartialEq, Eq, Structural)]
pub struct IndexHeader {
    pub num_records: u64,
}

/// One target of a live store and the first and last slots of its chain.
#[derive(Clone, Copy, Debug, PartialEq, Eq, Structural)]
pub struct RecordIndexEntry {
    pub target: RecordId,
    pub head: u64,
    pub tail: u64,
}

/// What the writer keeps in memory for a target: its chain ends and where its
/// entry stands in `index.dat`.
#[derive(Clone, Copy, Debug, PartialEq, Eq, Structural)]
pub struct IndexValue {
    pub head: u64,
    pub tail: u64,
    pub idx: u64,
}

/// One link slot: the source, and the relative offsets of the next and the
/// previous slot of the same chain (0 for none).
#[derive(Clone, Copy, Debug, PartialEq, Eq, Structural)]
pub struct BacklinkEntry {
    pub source: RecordId,
    pub next: i32,
    pub prev: i32,
}

/// Why a live store refused a write.
#[derive(Clone, Copy, Debug, PartialEq, Eq, Structural)]
pub enum LiveError {
    /// Every slot that a relative offset can reach is taken.
    Full,
    /// The files do not hold a well-formed store.
    Corrupt,
}

/// `c` is the chain of `e`: it runs from head to tail over slots that exist,
/// strictly forward, each `next` and `prev` pointing at its neighbour.
pub open spec fn chain_ok(links: Seq<BacklinkEntry>, e: RecordIndexEntry, c: Seq<int>) -> bool {
    &&& c.len() > 0
    &&& c[0] == e.head
    &&& c.last() == e.tail
    &&& forall|k: int| 0 <= k < c.len() ==> 0 <= #[trigger] c[k] < links.len()
    &&& forall|k: int, l: int| 0 <= k < l < c.len() ==> #[trigger] c[k] < #[trigger] c[l]
    &&& forall|k: int|
        0 <= k < c.len() - 1 ==> #[trigger] links[c[k]].next == c[k + 1] - c[k]
    &&& links[c.last()].next == 0
    &&& links[c[0]].prev == 0
    &&& forall|k: int| 0 < k < c.len() ==> #[trigger] links[c[k]].prev == c[k - 1] - c[k]
}

/// The live store's invariant: distinct targets, one well-formed chain per
/// entry, and no slot on two chains.
pub open spec fn live_ok(
    entries: Seq<RecordIndexEntry>,
    links: Seq<BacklinkEntry>,
    chains: Seq<Seq<int>>,
) -> bool {
    &&& links.len() <= MAX_SLOTS
    &&& chains.len() == entries.len()
    &&& forall|i: int, j: int|
        0 <= i < j < entries.len() ==> #[trigger] entries[i].target != #[trigger] entries[j].target
    &&& forall|i: int| 0 <= i < entries.len() ==> chain_ok(links, #[trigger] entries[i], chains[i])
    &&& forall|i: int, j: int, k: int, l: int|
        0 <= i < chains.len() && 0 <= j < chains.len() && i != j && 0 <= k < chains[i].len() && 0
            <= l < chains[j].len() ==> #[trigger] chains[i][k] != #[trigger] chains[j][l]
}

/// The key that orders a target in the in-memory index: rkey, collection, did.
pub open spec fn key_of(r: RecordId) -> (u64, u32, u64) {
    (r.rkey, r.collection, r.did)
}

/// The in-memory index maps each entry's target key to the entry's position.
pub open spec fn map_ok(entries: Seq<RecordIndexEntry>, m: Map<(u64, u32, u64), usize>) -> bool {
    &&& forall|i: int|
        0 <= i < entries.len() ==> m.contains_key(key_of(#[trigger] entries[i].target)) && m[key_of(
            entries[i].target,
        )] == i
    &&& forall|k: (u64, u32, u64)|
        #[trigger] m.contains_key(k) ==> m[k] < entries.len() && key_of(entries[m[k] as int].target)
            == k
}

/// The slots and links fix a chain: two chains of one entry are the same.
pub proof fn lemma_chain_unique(
    links: Seq<BacklinkEntry>,
    e: RecordIndexEntry,
    c1: Seq<int>,
    c2: Seq<int>,
)
    requires
        chain_ok(links, e, c1),
        chain_ok(links, e, c2),
    ensures
        c1 == c2,
{
    assert forall|k: int| 0 <= k < c1.len() && k < c2.len() implies c1[k] == c2[k] by {
        lemma_chain_prefix(links, e, c1, c2, k);
    }
    if c1.len() < c2.len() {
        let k = c1.len() - 1;
        lemma_chain_prefix(links, e, c1, c2, k);
        assert(c2[k] < c2[k + 1]);
    } else if c2.len() < c1.len() {
        let k = c2.len() - 1;
        lemma_chain_prefix(links, e, c1, c2, k);
        assert(c1[k] < c1[k + 1]);
    }
    assert(c1 =~= c2);
}

proof fn lemma_chain_prefix(
    links: Seq<BacklinkEntry>,
    e: RecordIndexEntry,
    c1: Seq<int>,
    c2: Seq<int>,
    k: int,
)
    requires
        chain_ok(links, e, c1),
        chain_ok(links, e, c2),
        0 <= k < c1.len(),
        k < c2.len(),
    ensures
        c1[k] == c2[k],
    decreases k,
{
    if k > 0 {
        lemma_chain_prefix(links, e, c1, c2, k - 1);
        assert(links[c1[k - 1]].next == c1[k] - c1[k - 1]);
        assert(links[c2[k - 1]].next == c2[k] - c2[k - 1]);
    }
}

/// Slot `s` is on no chain.
pub open spec fn off_chains(chains: Seq<Seq<int>>, s: int) -> bool {
    forall|i: int, k: int|
        0 <= i < chains.len() && 0 <= k < chains[i].len() ==> #[trigger] chains[i][k] != s
}

/// The sources on a chain, in chain order.
pub open spec fn chain_sources(links: Seq<BacklinkEntry>, c: Seq<int>) -> Seq<RecordId> {
    c.map_values(|slot: int| links[slot].source)
}

/// Which records of the two files a write changed: link slots (new or
/// rewritten) and the index entry (rewritten, or appended at the end).
pub struct LiveWrite {
    pub slots: Vec<u64>,
    pub entry: Option<u64>,
}

/// Only the records that `w` lists differ between the two states.
pub open spec fn only_changed(
    old_links: Seq<BacklinkEntry>,
    new_links: Seq<BacklinkEntry>,
    old_entries: Seq<RecordIndexEntry>,
    new_entries: Seq<RecordIndexEntry>,
    w: LiveWrite,
) -> bool {
    &&& new_links.len() >= old_links.len()
    &&& new_entries.len() >= old_entries.len()
    &&& forall|k: int| 0 <= k < w.slots@.len() ==> #[trigger] w.slots@[k] < new_links.len()
    &&& (w.entry matches Some(e) ==> e < new_entries.len())
    &&& forall|s: int|
        0 <= s < new_links.len() && !w.slots@.contains(s as u64) ==> s < old_links.len()
            && #[trigger] new_links[s] == old_links[s]
    &&& forall|i: int|
        0 <= i < new_entries.len() && w.entry != Some(i as u64) ==> i < old_entries.len()
            && #[trigger] new_entries[i] == old_entries[i]
}

/// A slot that was handed out but never written.
pub open spec fn zero_link() -> BacklinkEntry {
    BacklinkEntry { source: RecordId { rkey: 0, collection: 0, did: 0 }, next: 0, prev: 0 }
}

/// What a write of `x` does to a target's sources: nothing when `x` is
/// already the last one, else `x` joins the end.
pub open spec fn appended(s: Seq<RecordId>, x: RecordId) -> Seq<RecordId> {
    if s.len() > 0 && s.last() == x {
        s
    } else {
        s.push(x)
    }
}

/// Keeps the chains of a live store in memory, as `index.dat` and `links.dat`
/// hold them.
pub struct LiveStorageWriter {
    entries: Vec<RecordIndexEntry>,
    links: Vec<BacklinkEntry>,
    index: BTreeMap<(u64, u32, u64), usize>,
    chains: Ghost<Seq<Seq<int>>>,
}

impl LiveStorageWriter {
    /// The index entries, in the order their targets were first seen.
    pub closed spec fn entries(&self) -> Seq<RecordIndexEntry> {
        self.entries@
    }

    /// The link slots, by slot number.
    pub closed spec fn links(&self) -> Seq<BacklinkEntry> {
        self.links@
    }

    /// The slots of each entry's chain, head first.
    pub closed spec fn chains(&self) -> Seq<Seq<int>> {
        self.chains@
    }

    /// The sorted in-memory index from target keys to entry positions.
    pub closed spec fn key_index(&self) -> Map<(u64, u32, u64), usize> {
        self.index@
    }

    pub open spec fn wf(&self) -> bool {
        live_ok(self.entries(), self.links(), self.chains()) && map_ok(
            self.entries(),
            self.key_index(),
        )
    }

    /// Whether `t` has an entry.
    pub open spec fn has_target(&self, t: RecordId) -> bool {
        exists|i: int| 0 <= i < self.entries().len() && #[trigger] self.entries()[i].target == t
    }

    /// The position of the entry of `t`.
    pub open spec fn entry_of(&self, t: RecordId) -> int {
        choose|i: int| 0 <= i < self.entries().len() && #[trigger] self.entries()[i].target == t
    }

    /// The sources of `t`, in the order they were written.
    pub open spec fn backlinks(&self, t: RecordId) -> Seq<RecordId> {
        if self.has_target(t) {
            chain_sources(self.links(), self.chains()[self.entry_of(t)])
        } else {
            Seq::empty()
        }
    }

    /// A store with no entries and no slots.
    pub fn empty() -> (r: LiveStorageWriter)
        ensures
            r.wf(),
            r.entries().len() == 0,
            r.links().len() == 0,
            forall|t: RecordId| r.backlinks(t) == Seq::<RecordId>::empty(),
    {
        let r = LiveStorageWriter {
            entries: Vec::new(),
            links: Vec::new(),
            index: BTreeMap::new(),
            chains: Ghost(Seq::empty()),
        };
        assert(r.key_index() =~= Map::<(u64, u32, u64), usize>::empty());
        r
    }

    /// The `index.dat` header.
    pub fn header(&self) -> (r: IndexHeader)
        ensures
            r.num_records == self.links().len(),
    {
        IndexHeader { num_records: self.links.len() as u64 }
    }

    /// The number of slots handed out, as the header counts them.
    pub fn num_records(&self) -> (r: u64)
        ensures
            r == self.links().len(),
    {
        self.links.len() as u64
    }

    /// A store over entries, slots and chains that already satisfy the invariant.
    pub(crate) fn from_parts(
        entries: Vec<RecordIndexEntry>,
        links: Vec<BacklinkEntry>,
        index: BTreeMap<(u64, u32, u64), usize>,
        Ghost(chains): Ghost<Seq<Seq<int>>>,
    ) -> (r: LiveStorageWriter)
        requires
            live_ok(entries@, links@, chains),
            map_ok(entries@, index@),
        ensures
            r.wf(),
            r.entries() == entries@,
            r.links() == links@,
            r.chains() == chains,
    {
        LiveStorageWriter { entries, links, index, chains: Ghost(chains) }
    }

    /// The number of link slots.
    pub fn num_slots(&self) -> (r: usize)
        ensures
            r == self.links().len(),
    {
        self.links.len()
    }

    /// The number of index entries.
    pub fn num_entries(&self) -> (r: usize)
        ensures
            r == self.entries().len(),
    {
        self.entries.len()
    }

    /// Index entry `i`.
    pub fn entry_at(&self, i: usize) -> (r: RecordIndexEntry)
        requires
            i < self.entries().len(),
        ensures
            r == self.entries()[i as int],
    {
        self.entries[i]
    }

    /// Link slot `slot`.
    pub fn link_at(&self, slot: usize) -> (r: BacklinkEntry)
        requires
            slot < self.links().len(),
        ensures
            r == self.links()[slot as int],
    {
        self.links[slot]
    }

    /// Hands out the next slot, zeroed and on no chain. A write that stops
    /// after this leaves the slot unreachable; the chains are untouched.
    pub fn alloc_entry_slot(&mut self) -> (r: Result<u64, LiveError>)
        requires
            old(self).wf(),
        ensures
            final(self).wf(),
            r is Err <==> old(self).links().len() >= MAX_SLOTS,
            r matches Err(e) ==> e == LiveError::Full,
            r is Err ==> *final(self) == *old(self),
            r matches Ok(slot) ==> slot == old(self).links().len() && final(self).links() == old(
                self,
            ).links().push(zero_link()) && final(self).entries() == old(self).entries()
                && final(self).chains() == old(self).chains(),
            forall|t: RecordId| #[trigger] final(self).backlinks(t) == old(self).backlinks(t),
    {
        let slot = self.links.len();
        if slot >= MAX_SLOTS {
            return Err(LiveError::Full);
        }
        self.links.push(BacklinkEntry {
            source: RecordId { rkey: 0, collection: 0, did: 0 },
            next: 0,
            prev: 0,
        });
        proof {
            let old_links = old(self).links@;
            assert(self.links@ == old_links.push(zero_link()));
            assert forall|i: int| 0 <= i < self.entries@.len() implies chain_ok(
                self.links@,
                #[trigger] self.entries@[i],
                self.chains@[i],
            ) by {
                let c = self.chains@[i];
                assert(chain_ok(old_links, self.entries@[i], c));
                assert forall|k: int| 0 <= k < c.len() implies self.links@[#[trigger] c[k]]
                    == old_links[c[k]] by {}
            }
            assert forall|t: RecordId| #[trigger] self.backlinks(t) == old(self).backlinks(t) by {
                if self.has_target(t) {
                    let c = self.chains@[self.entry_of(t)];
                    assert(chain_ok(old_links, self.entries@[self.entry_of(t)], c));
                    assert(chain_sources(self.links@, c) =~= chain_sources(old_links, c));
                }
            }
        }
        Ok(slot as u64)
    }

    /// The position of the entry of `target`, if it has one.
    fn find_in_index(&self, target: &RecordId) -> (r: Option<usize>)
        ensures
            r matches Some(i) ==> i < self.entries().len() && self.entries()[i as int].target
                == *target,
            self.wf() && r is None ==> !self.has_target(*target),
    {
        broadcast use vstd::laws_cmp::group_laws_cmp;

        let k = (target.rkey, target.collection, target.did);
        let n = self.entries.len();
        match self.index.get(&k) {
            Some(i) => {
                let i = *i;
                if i < n && self.entries[i].target == *target {
                    Some(i)
                } else {
                    None
                }
            },
            None => {
                proof {
                    if self.wf() && self.has_target(*target) {
                        let j = choose|j: int|
                            0 <= j < self.entries().len() && #[trigger] self.entries()[j].target
                                == *target;
                        assert(self.index@.contains_key(key_of(self.entries@[j].target)));
                        assert(key_of(*target) == k);
                    }
                }
                None
            },
        }
    }

    /// The in-memory value for `target`: chain ends and entry position.
    pub fn index_value(&self, target: &RecordId) -> (r: Option<IndexValue>)
        ensures
            self.wf() ==> (r is None <==> !self.has_target(*target)),
            r matches Some(v) ==> v.idx < self.entries().len() && self.entries()[v.idx as int]
                == (RecordIndexEntry { target: *target, head: v.head, tail: v.tail }),
    {
        match self.find_in_index(target) {
            Some(i) => {
                let e = self.entries[i];
                Some(IndexValue { head: e.head, tail: e.tail, idx: i as u64 })
            },
            None => None,
        }
    }

    proof fn lemma_entry_of(&self, t: RecordId, i: int)
        requires
            self.wf(),
            0 <= i < self.entries().len(),
            self.entries()[i].target == t,
        ensures
            self.has_target(t),
            self.entry_of(t) == i,
    {
        let j = self.entry_of(t);
        if j != i {
            if j < i {
                assert(self.entries()[j].target != self.entries()[i].target);
            } else {
                assert(self.entries()[i].target != self.entries()[j].target);
            }
        }
    }

    /// Records that `source` links to `target`. When `source` is already the
    /// last source of `target` nothing is written.
    pub fn log_backlink(&mut self, target: &RecordId, source: &RecordId) -> (r: Result<
        LiveWrite,
        LiveError,
    >)
        requires
            old(self).wf(),
        ensures
            final(self).wf(),
            r is Err <==> (appended(old(self).backlinks(*target), *source) != old(self).backlinks(
                *target,
            ) && old(self).links().len() >= MAX_SLOTS),
            r is Ok ==> final(self).backlinks(*target) == appended(
                old(self).backlinks(*target),
                *source,
            ),
            r is Err ==> *final(self) == *old(self),
            r matches Err(e) ==> e == LiveError::Full,
            forall|t: RecordId| t != *target ==> final(self).backlinks(t) == old(self).backlinks(t),
            forall|t: RecordId| #[trigger] old(self).has_target(t) ==> final(self).has_target(t),
            r matches Ok(w) ==> only_changed(
                old(self).links(),
                final(self).links(),
                old(self).entries(),
                final(self).entries(),
                w,
            ),
            forall|s: int|
                0 <= s < old(self).links().len() && #[trigger] off_chains(old(self).chains(), s)
                    ==> off_chains(final(self).chains(), s),
            r matches Ok(w) ==> (appended(old(self).backlinks(*target), *source) == old(
                self,
            ).backlinks(*target) ==> *final(self) == *old(self) && w.slots@.len() == 0
                && w.entry is None),
            r matches Ok(w) ==> (appended(old(self).backlinks(*target), *source) != old(
                self,
            ).backlinks(*target) ==> {
                let n = old(self).links().len();
                &&& final(self).links().len() == n + 1
                &&& final(self).links()[n as int].source == *source
                &&& final(self).links()[n as int].next == 0
                &&& final(self).has_target(*target)
                &&& final(self).entries()[final(self).entry_of(*target)].tail == n
                &&& old(self).has_target(*target) ==> {
                    let i = old(self).entry_of(*target);
                    &&& w.slots@ == seq![n as u64, old(self).entries()[i].tail]
                    &&& final(self).links()[n as int].prev == old(self).entries()[i].tail - n
                    &&& final(self).links()[old(self).entries()[i].tail as int].next == n - old(
                        self,
                    ).entries()[i].tail
                    &&& final(self).links()[old(self).entries()[i].tail as int].prev == old(
                        self,
                    ).links()[old(self).entries()[i].tail as int].prev
                    &&& final(self).links()[old(self).entries()[i].tail as int].source == old(
                        self,
                    ).links()[old(self).entries()[i].tail as int].source
                    &&& w.entry == Some(i as u64)
                    &&& final(self).entries().len() == old(self).entries().len()
                    &&& final(self).entry_of(*target) == i
                }
                &&& !old(self).has_target(*target) ==> {
                    let i = old(self).entries().len();
                    &&& w.slots@ == seq![n as u64]
                    &&& final(self).links()[n as int].prev == 0
                    &&& w.entry == Some(i as u64)
                    &&& final(self).entries().len() == i + 1
                    &&& final(self).entry_of(*target) == i
                    &&& final(self).entries()[i as int].head == n
                }
            }),
    {
        let found = self.find_in_index(target);
        let ghost old_entries = self.entries@;
        let ghost old_links = self.links@;
        let ghost old_chains = self.chains@;
        match found {
            Some(i) => {
                let e = self.entries[i];
                let ghost c = old_chains[i as int];
                proof {
                    self.lemma_entry_of(*target, i as int);
                    assert(chain_ok(old_links, old_entries[i as int], c));
                }
                let tail = e.tail as usize;
                let tail_link = self.links[tail];
                if tail_link.source == *source {
                    proof {
                        assert(c.last() == tail);
                        assert(chain_sources(old_links, c).last() == *source);
                    }
                    let w = LiveWrite { slots: Vec::new(), entry: None };
                    return Ok(w);
                }
                let slot = match self.alloc_entry_slot() {
                    Ok(s) => s as usize,
                    Err(e) => {
                        return Err(e);
                    },
                };
                let new_link = BacklinkEntry {
                    source: *source,
                    next: 0,
                    prev: (tail as i64 - slot as i64) as i32,
                };
                self.links.set(slot, new_link);
                assert(self.links@ =~= old_links.push(new_link));
                let updated = BacklinkEntry {
                    source: tail_link.source,
                    next: (slot as i64 - tail as i64) as i32,
                    prev: tail_link.prev,
                };
                self.links.set(tail, updated);
                let new_entry = RecordIndexEntry { target: e.target, head: e.head, tail: slot as u64 };
                self.entries.set(i, new_entry);
                proof {
                    assert forall|x: int| 0 <= x < self.entries@.len() implies #[trigger] self.entries@[
                        x].target == old_entries[x].target by {}
                    assert(map_ok(self.entries@, self.index@));
                }
                let ghost c2 = c.push(slot as int);
                self.chains = Ghost(old_chains.update(i as int, c2));
                proof {
                    assert forall|x: int|
                        0 <= x < old_links.len() && #[trigger] off_chains(old_chains, x) implies off_chains(
                        self.chains@,
                        x,
                    ) by {
                        assert forall|a: int, k: int|
                            0 <= a < self.chains@.len() && 0 <= k < self.chains@[a].len() implies #[trigger] self.chains@[a][k]
                            != x by {
                            if a == i {
                                if k < c.len() {
                                    assert(self.chains@[a][k] == old_chains[a][k]);
                                }
                            } else {
                                assert(self.chains@[a] == old_chains[a]);
                            }
                        }
                    }
                }
                proof {
                    lemma_extend_chain(
                        old_entries,
                        old_links,
                        old_chains,
                        i as int,
                        *source,
                        self.entries@,
                        self.links@,
                        self.chains@,
                    );
                    self.lemma_entry_of(*target, i as int);
                    assert(chain_sources(self.links@, c2) =~= chain_sources(old_links, c).push(
                        *source,
                    ));
                    assert forall|t: RecordId| t != *target implies self.backlinks(t) == old(
                        self,
                    ).backlinks(t) by {
                        if old(self).has_target(t) {
                            let j = old(self).entry_of(t);
                            self.lemma_entry_of(t, j);
                            assert(j != i);
                            assert(chain_sources(self.links@, self.chains@[j]) =~= chain_sources(
                                old_links,
                                old_chains[j],
                            ));
                        } else {
                            if self.has_target(t) {
                                let j = self.entry_of(t);
                                assert(old_entries[j].target == t);
                            }
                        }
                    }
                    assert forall|t: RecordId| #[trigger] old(self).has_target(t) implies self.has_target(
                        t,
                    ) by {
                        let j = old(self).entry_of(t);
                        assert(self.entries@[j].target == t);
                    }
                }
                let mut slots: Vec<u64> = Vec::new();
                slots.push(slot as u64);
                slots.push(tail as u64);
                let w = LiveWrite { slots, entry: Some(i as u64) };
                proof {
                    assert(w.slots@ =~= seq![old_links.len() as u64, old_entries[i as int].tail]);
                    self.lemma_entry_of(*target, i as int);
                    assert(self.entries@[i as int].tail == old_links.len());
                    assert forall|x: int|
                        0 <= x < self.links@.len() && !w.slots@.contains(x as u64) implies x
                        < old_links.len() && #[trigger] self.links@[x] == old_links[x] by {
                        if x == slot {
                            assert(w.slots@[0] == x as u64);
                        }
                        if x == tail {
                            assert(w.slots@[1] == x as u64);
                        }
                    }
                }
                Ok(w)
            },
            None => {
                let slot = match self.alloc_entry_slot() {
                    Ok(s) => s as usize,
                    Err(e) => {
                        return Err(e);
                    },
                };
                let new_link = BacklinkEntry { source: *source, next: 0, prev: 0 };
                self.links.set(slot, new_link);
                assert(self.links@ =~= old_links.push(new_link));
                let new_entry = RecordIndexEntry {
                    target: *target,
                    head: slot as u64,
                    tail: slot as u64,
                };
                let pos = self.entries.len();
                self.entries.push(new_entry);
                let ghost old_index = self.index@;
                self.index.insert((target.rkey, target.collection, target.did), pos);
                proof {
                    broadcast use vstd::laws_cmp::group_laws_cmp;

                    let k = key_of(*target);
                    assert(!old_index.contains_key(k)) by {
                        if old_index.contains_key(k) {
                            let j = old_index[k] as int;
                            assert(key_of(old_entries[j].target) == k);
                            assert(old_entries[j].target == *target);
                        }
                    }
                    let ents = self.entries@;
                    assert forall|x: int| 0 <= x < ents.len() implies self.index@.contains_key(
                        key_of(#[trigger] ents[x].target),
                    ) && self.index@[key_of(ents[x].target)] == x by {
                        if x < old_entries.len() {
                            assert(ents[x] == old_entries[x]);
                            assert(old_index.contains_key(key_of(old_entries[x].target)));
                        }
                    }
                    assert forall|kk: (u64, u32, u64)| #[trigger] self.index@.contains_key(kk) implies self.index@[kk]
                        < ents.len() && key_of(ents[self.index@[kk] as int].target) == kk by {
                        if kk != k {
                            assert(old_index.contains_key(kk));
                            assert(ents[old_index[kk] as int] == old_entries[old_index[kk] as int]);
                        }
                    }
                }
                let ghost c2 = seq![slot as int];
                self.chains = Ghost(old_chains.push(c2));
                proof {
                    assert forall|x: int|
                        0 <= x < old_links.len() && #[trigger] off_chains(old_chains, x) implies off_chains(
                        self.chains@,
                        x,
                    ) by {
                        assert forall|a: int, k: int|
                            0 <= a < self.chains@.len() && 0 <= k < self.chains@[a].len() implies #[trigger] self.chains@[a][k]
                            != x by {
                            if a < old_chains.len() {
                                assert(self.chains@[a] == old_chains[a]);
                            }
                        }
                    }
                }
                proof {
                    lemma_new_chain(
                        old_entries,
                        old_links,
                        old_chains,
                        new_entry,
                        new_link,
                    );
                    let n = old_entries.len() as int;
                    assert(self.entries@[n].target == *target);
                    self.lemma_entry_of(*target, n);
                    assert(chain_sources(self.links@, c2) =~= seq![*source]);
                    assert(old(self).backlinks(*target) == Seq::<RecordId>::empty());
                    assert(Seq::<RecordId>::empty().push(*source) =~= seq![*source]);
                    assert forall|t: RecordId| t != *target implies self.backlinks(t) == old(
                        self,
                    ).backlinks(t) by {
                        if old(self).has_target(t) {
                            let j = old(self).entry_of(t);
                            assert(self.entries@[j].target == t);
                            self.lemma_entry_of(t, j);
                            assert(chain_sources(self.links@, self.chains@[j]) =~= chain_sources(
                                old_links,
                                old_chains[j],
                            ));
                        } else {
                            if self.has_target(t) {
                                let j = self.entry_of(t);
                                if j < n {
                                    assert(old_entries[j].target == t);
                                }
                            }
                        }
                    }
                    assert forall|t: RecordId| #[trigger] old(self).has_target(t) implies self.has_target(
                        t,
                    ) by {
                        let j = old(self).entry_of(t);
                        assert(self.entries@[j].target == t);
                    }
                }
                let mut slots: Vec<u64> = Vec::new();
                slots.push(slot as u64);
                let w = LiveWrite { slots, entry: Some(pos as u64) };
                proof {
                    assert(w.slots@ =~= seq![old_links.len() as u64]);
                    assert forall|x: int|
                        0 <= x < self.links@.len() && !w.slots@.contains(x as u64) implies x
                        < old_links.len() && #[trigger] self.links@[x] == old_links[x] by {
                        if x == slot {
                            assert(w.slots@[0] == x as u64);
                        }
                    }
                }
                Ok(w)
            },
        }
    }

    /// Adds the sources on the chain that starts at slot `head` to `out`,
    /// following `next` offsets until one is 0. A chain that runs backwards
    /// or out of the slots is cut where it does.
    fn walk_chain(&self, head: u64, out: &mut Vec<RecordId>, Ghost(c): Ghost<Seq<int>>, Ghost(
        valid,
    ): Ghost<bool>)
        requires
            valid ==> chain_ok(
                self.links(),
                RecordIndexEntry { target: RecordId { rkey: 0, collection: 0, did: 0 }, head, tail: c.last() as u64 },
                c,
            ),
        ensures
            valid ==> final(out)@ == old(out)@ + chain_sources(self.links(), c),
    {
        let n = self.links.len();
        if head == NO_SLOT || head as u128 >= n as u128 {
            return;
        }
        let mut slot = head as usize;
        let ghost mut k: int = 0;
        while slot < n
            invariant
                n == self.links@.len(),
                valid ==> chain_ok(
                    self.links@,
                    RecordIndexEntry { target: RecordId { rkey: 0, collection: 0, did: 0 }, head, tail: c.last() as u64 },
                    c,
                ),
                valid ==> 0 <= k < c.len() && c[k] == slot,
                valid ==> out@ =~= old(out)@ + chain_sources(self.links@, c).subrange(0, k),
            decreases n - slot,
        {
            let link = self.links[slot];
            out.push(link.source);
            proof {
                if valid {
                    assert(out@ =~= old(out)@ + chain_sources(self.links@, c).subrange(0, k + 1));
                }
            }
            if link.next <= 0 {
                proof {
                    if valid {
                        if k < c.len() - 1 {
                            assert(c[k] < c[k + 1]);
                        }
                        assert(chain_sources(self.links@, c).subrange(0, k + 1) =~= chain_sources(
                            self.links@,
                            c,
                        ));
                    }
                }
                return;
            }
            if link.next as usize >= n - slot {
                proof {
                    if valid {
                        if k < c.len() - 1 {
                            assert(c[k + 1] < n);
                        }
                    }
                }
                return;
            }
            proof {
                if valid {
                    assert(k < c.len() - 1);
                    assert(c[k + 1] == slot + link.next);
                    k = k + 1;
                }
            }
            slot = slot + link.next as usize;
        }
    }

    /// Adds the sources of `target` to `out`, head first.
    pub fn read_backlinks(&self, target: &RecordId, out: &mut Vec<RecordId>)
        ensures
            self.wf() ==> final(out)@ == old(out)@ + self.backlinks(*target),
    {
        match self.find_in_index(target) {
            Some(i) => {
                let e = self.entries[i];
                let ghost valid = self.wf();
                proof {
                    if valid {
                        self.lemma_entry_of(*target, i as int);
                    }
                }
                self.walk_chain(e.head, out, Ghost(self.chains@[i as int]), Ghost(valid));
            },
            None => {
                proof {
                    if self.wf() {
                        assert(old(out)@ + self.backlinks(*target) =~= old(out)@);
                    }
                }
            },
        }
    }

    /// Adds the sources on the chain of `entry` to `out`.
    pub fn read_backlinks_from_index_entry(&self, entry: &RecordIndexEntry, out: &mut Vec<RecordId>)
        ensures
            self.wf() && self.has_target(entry.target) && self.entries()[self.entry_of(entry.target)] == *entry
                ==> final(out)@ == old(out)@ + self.backlinks(entry.target),
    {
        let ghost valid = self.wf() && self.has_target(entry.target) && self.entries()[self.entry_of(
            entry.target,
        )] == *entry;
        let ghost c = if valid {
            self.chains@[self.entry_of(entry.target)]
        } else {
            Seq::empty()
        };
        self.walk_chain(entry.head, out, Ghost(c), Ghost(valid));
    }

    /// Every index entry with its target, in index order.
    pub fn list_all_targets(&self) -> (r: Vec<(RecordId, RecordIndexEntry)>)
        ensures
            r@.len() == self.entries().len(),
            forall|i: int|
                0 <= i < r@.len() ==> #[trigger] r@[i] == (self.entries()[i].target, self.entries()[i]),
    {
        let n = self.entries.len();
        let mut r: Vec<(RecordId, RecordIndexEntry)> = Vec::new();
        let mut i: usize = 0;
        while i < n
            invariant
                n == self.entries@.len(),
                i <= n,
                r@.len() == i,
                forall|k: int| 0 <= k < i ==> #[trigger] r@[k] == (self.entries@[k].target, self.entries@[k]),
            decreases n - i,
        {
            let e = self.entries[i];
            r.push((e.target, e));
            i = i + 1;
        }
        r
    }
}

/// Extending the chain of entry `i` by one new slot at the end keeps the store
/// well-formed.
proof fn lemma_extend_chain(
    entries: Seq<RecordIndexEntry>,
    links: Seq<BacklinkEntry>,
    chains: Seq<Seq<int>>,
    i: int,
    source: RecordId,
    entries2: Seq<RecordIndexEntry>,
    links2: Seq<BacklinkEntry>,
    chains2: Seq<Seq<int>>,
)
    requires
        live_ok(entries, links, chains),
        0 <= i < entries.len(),
        links.len() < MAX_SLOTS,
        ({
            let slot = links.len() as int;
            let tail = entries[i].tail as int;
            &&& links2 == links.push(
                BacklinkEntry { source, next: 0, prev: (tail - slot) as i32 },
            ).update(
                tail,
                BacklinkEntry {
                    source: links[tail].source,
                    next: (slot - tail) as i32,
                    prev: links[tail].prev,
                },
            )
            &&& entries2 == entries.update(
                i,
                RecordIndexEntry { target: entries[i].target, head: entries[i].head, tail: slot as u64 },
            )
            &&& chains2 == chains.update(i, chains[i].push(slot))
        }),
    ensures
        live_ok(entries2, links2, chains2),
{
    let slot = links.len() as int;
    let c = chains[i];
    let tail = entries[i].tail as int;
    assert(chain_ok(links, entries[i], c));
    assert(c.last() == tail);
    assert(0 <= tail < links.len());
    assert forall|a: int, b: int| 0 <= a < b < entries2.len() implies #[trigger] entries2[a].target
        != #[trigger] entries2[b].target by {
        assert(entries[a].target != entries[b].target);
    }
    assert forall|j: int| 0 <= j < entries2.len() implies chain_ok(
        links2,
        #[trigger] entries2[j],
        chains2[j],
    ) by {
        let cj = chains2[j];
        if j == i {
            assert(cj == c.push(slot));
            assert forall|k: int| 0 <= k < cj.len() - 1 implies #[trigger] links2[cj[k]].next == cj[k
                + 1] - cj[k] by {
                if k < c.len() - 1 {
                    assert(c[k] < c[c.len() - 1]);
                    assert(links2[cj[k]] == links[c[k]]);
                }
            }
            assert forall|k: int| 0 < k < cj.len() implies #[trigger] links2[cj[k]].prev == cj[k - 1]
                - cj[k] by {
                if k < c.len() - 1 {
                    assert(c[k] < c[c.len() - 1]);
                    assert(links2[cj[k]] == links[c[k]]);
                }
            }
            assert forall|k: int, l: int| 0 <= k < l < cj.len() implies #[trigger] cj[k]
                < #[trigger] cj[l] by {
                if l == c.len() {
                    assert(c[k] < links.len());
                }
            }
            if c.len() > 1 {
                assert(c[0] < c[c.len() - 1]);
                assert(links2[cj[0]] == links[c[0]]);
            }
        } else {
            let co = chains[j];
            assert(chain_ok(links, entries[j], co));
            assert(cj == co);
            assert forall|k: int| 0 <= k < co.len() implies links2[#[trigger] co[k]] == links[co[k]] by {
                assert(chains[j][k] != chains[i][c.len() - 1]);
            }
            assert(links2[co[0]] == links[co[0]]);
            assert(links2[co.last()] == links[co.last()]);
        }
    }
    assert forall|a: int, b: int, k: int, l: int|
        0 <= a < chains2.len() && 0 <= b < chains2.len() && a != b && 0 <= k < chains2[a].len() && 0
            <= l < chains2[b].len() implies #[trigger] chains2[a][k] != #[trigger] chains2[b][l] by {
        if a == i && k == c.len() {
            assert(chain_ok(links, entries[b], chains[b]));
            assert(chains[b][l] < links.len());
        } else if b == i && l == c.len() {
            assert(chain_ok(links, entries[a], chains[a]));
            assert(chains[a][k] < links.len());
        } else {
            assert(chains[a][k] != chains[b][l]);
        }
    }
}

/// Adding an entry whose chain is one new slot keeps the store well-formed.
proof fn lemma_new_chain(
    entries: Seq<RecordIndexEntry>,
    links: Seq<BacklinkEntry>,
    chains: Seq<Seq<int>>,
    e: RecordIndexEntry,
    link: BacklinkEntry,
)
    requires
        live_ok(entries, links, chains),
        links.len() < MAX_SLOTS,
        e.head == links.len() && e.tail == links.len(),
        link.next == 0 && link.prev == 0,
        forall|k: int| 0 <= k < entries.len() ==> #[trigger] entries[k].target != e.target,
    ensures
        live_ok(entries.push(e), links.push(link), chains.push(seq![links.len() as int])),
{
    let slot = links.len() as int;
    let entries2 = entries.push(e);
    let links2 = links.push(link);
    let chains2 = chains.push(seq![slot]);
    assert forall|a: int, b: int| 0 <= a < b < entries2.len() implies #[trigger] entries2[a].target
        != #[trigger] entries2[b].target by {
        if b < entries.len() {
            assert(entries[a].target != entries[b].target);
        }
    }
    assert forall|j: int| 0 <= j < entries2.len() implies chain_ok(
        links2,
        #[trigger] entries2[j],
        chains2[j],
    ) by {
        if j < entries.len() {
            let co = chains[j];
            assert(chain_ok(links, entries[j], co));
            assert(chains2[j] == co);
            assert forall|k: int| 0 <= k < co.len() implies links2[#[trigger] co[k]] == links[co[k]] by {
            }
        } else {
            assert(chains2[j] == seq![slot]);
        }
    }
    assert forall|a: int, b: int, k: int, l: int|
        0 <= a < chains2.len() && 0 <= b < chains2.len() && a != b && 0 <= k < chains2[a].len() && 0
            <= l < chains2[b].len() implies #[trigger] chains2[a][k] != #[trigger] chains2[b][l] by {
        if a == entries.len() {
            assert(chain_ok(links, entries[b], chains[b]));
            assert(chains[b][l] < links.len());
        } else if b == entries.len() {
            assert(chain_ok(links, entries[a], chains[a]));
            assert(chains[a][k] < links.len());
        } else {
            assert(chains[a][k] != chains[b][l]);
        }
    }
}

/// The sources of a target after writing each element of `s` in turn, from
/// no sources at all.
pub open spec fn replay(s: Seq<RecordId>) -> Seq<RecordId>
    decreases s.len(),
{
    if s.len() == 0 {
        Seq::empty()
    } else {
        appended(replay(s.drop_last()), s.last())
    }
}

/// Writing `k` distinct sources for one target, in order, leaves a chain of
/// exactly those `k` sources in that order.
pub proof fn lemma_distinct_writes_chain(s: Seq<RecordId>)
    requires
        forall|i: int, j: int| 0 <= i < j < s.len() ==> s[i] != s[j],
    ensures
        replay(s) == s,
        replay(s).len() == s.len(),
    decreases s.len(),
{
    if s.len() > 0 {
        let p = s.drop_last();
        assert forall|i: int, j: int| 0 <= i < j < p.len() implies p[i] != p[j] by {
            assert(p[i] == s[i] && p[j] == s[j]);
        }
        lemma_distinct_writes_chain(p);
        if p.len() > 0 {
            assert(p.last() == s[s.len() - 2]);
        }
        assert(p.push(s.last()) =~= s);
    }
}

/// Writing the same source twice in succession adds it once.
pub proof fn lemma_same_tail_dedup(s: Seq<RecordId>, x: RecordId)
    ensures
        appended(appended(s, x), x) == appended(s, x),
        appended(s, x).last() == x,
        appended(s, x).len() <= s.len() + 1,
{
}

} // verus!
