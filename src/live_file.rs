//! The bytes of a live store's `index.dat` and `links.dat`, and reopening a
//! store from them.
use crate::live::{
    chain_ok, key_of, live_ok, map_ok, BacklinkEntry, LiveError, LiveStorageWriter, RecordIndexEntry, BACKLINK_ENTRY_SIZE,
    INDEX_ENTRY_SIZE, INDEX_HEADER_SIZE, MAX_SLOTS,
};
use crate::record::{lemma_record_bytes, record_bytes, record_from_bytes, RecordId};
use vstd::bytes::{
    lemma_auto_spec_u32_to_from_le_bytes, lemma_auto_spec_u64_to_from_le_bytes,
    spec_u32_from_le_bytes, spec_u32_to_le_bytes, spec_u64_from_le_bytes, spec_u64_to_le_bytes,
    u32_from_le_bytes, u32_to_le_bytes, u64_from_le_bytes, u64_to_le_bytes,
};
use vstd::prelude::*;
use std::collections::BTreeMap;
use vstd::slice::slice_subrange;

verus! {

/// The bytes of `f` on each element of `s`, one after another.
pub open spec fn concat_bytes<T>(s: Seq<T>, f: spec_fn(T) -> Seq<u8>) -> Seq<u8>
    decreases s.len(),
{
    if s.len() == 0 {
        Seq::empty()
    } else {
        concat_bytes(s.drop_last(), f) + f(s.last())
    }
}

/// The 40 bytes of an index entry: target, head, tail.
pub open spec fn entry_bytes(e: RecordIndexEntry) -> Seq<u8> {
    record_bytes(e.target) + spec_u64_to_le_bytes(e.head) + spec_u64_to_le_bytes(e.tail)
}

/// The 32 bytes of a link slot: source, next, prev.
pub open spec fn link_bytes(l: BacklinkEntry) -> Seq<u8> {
    record_bytes(l.source) + spec_u32_to_le_bytes(#[verifier::truncate] (l.next as u32))
        + spec_u32_to_le_bytes(#[verifier::truncate] (l.prev as u32))
}

/// `index.dat`: a 64-byte header holding the slot count, then the entries.
pub open spec fn index_file(entries: Seq<RecordIndexEntry>, num_records: u64) -> Seq<u8> {
    spec_u64_to_le_bytes(num_records) + Seq::new(56, |i: int| 0u8) + concat_bytes(
        entries,
        |e: RecordIndexEntry| entry_bytes(e),
    )
}

/// `links.dat`: every slot in order.
pub open spec fn links_file(links: Seq<BacklinkEntry>) -> Seq<u8> {
    concat_bytes(links, |l: BacklinkEntry| link_bytes(l))
}

pub open spec fn entry_from_bytes(b: Seq<u8>) -> RecordIndexEntry {
    RecordIndexEntry {
        target: record_from_bytes(b.subrange(0, 24)),
        head: spec_u64_from_le_bytes(b.subrange(24, 32)),
        tail: spec_u64_from_le_bytes(b.subrange(32, 40)),
    }
}

pub open spec fn link_from_bytes(b: Seq<u8>) -> BacklinkEntry {
    BacklinkEntry {
        source: record_from_bytes(b.subrange(0, 24)),
        next: #[verifier::truncate] (spec_u32_from_le_bytes(b.subrange(24, 28)) as i32),
        prev: #[verifier::truncate] (spec_u32_from_le_bytes(b.subrange(28, 32)) as i32),
    }
}

proof fn lemma_entry_bytes(e: RecordIndexEntry)
    ensures
        entry_bytes(e).len() == 40,
        entry_from_bytes(entry_bytes(e)) == e,
{
    lemma_record_bytes(e.target);
    lemma_auto_spec_u64_to_from_le_bytes();
    let b = entry_bytes(e);
    assert(b.subrange(0, 24) =~= record_bytes(e.target));
    assert(b.subrange(24, 32) =~= spec_u64_to_le_bytes(e.head));
    assert(b.subrange(32, 40) =~= spec_u64_to_le_bytes(e.tail));
}

proof fn lemma_link_bytes(l: BacklinkEntry)
    ensures
        link_bytes(l).len() == 32,
        link_from_bytes(link_bytes(l)) == l,
{
    lemma_record_bytes(l.source);
    lemma_auto_spec_u32_to_from_le_bytes();
    let b = link_bytes(l);
    assert(b.subrange(0, 24) =~= record_bytes(l.source));
    assert(b.subrange(24, 28) =~= spec_u32_to_le_bytes(#[verifier::truncate] (l.next as u32)));
    assert(b.subrange(28, 32) =~= spec_u32_to_le_bytes(#[verifier::truncate] (l.prev as u32)));
    let n = l.next;
    let p = l.prev;
    assert(#[verifier::truncate] ((#[verifier::truncate] (n as u32)) as i32) == n) by (bit_vector);
    assert(#[verifier::truncate] ((#[verifier::truncate] (p as u32)) as i32) == p) by (bit_vector);
}

/// Fixed-width records sit at multiples of their width.
proof fn lemma_concat_fixed<T>(s: Seq<T>, f: spec_fn(T) -> Seq<u8>, w: int)
    requires
        w > 0,
        forall|x: T| #[trigger] f(x).len() == w,
    ensures
        concat_bytes(s, f).len() == w * s.len(),
        forall|i: int|
            0 <= i < s.len() ==> #[trigger] concat_bytes(s, f).subrange(w * i, w * i + w) == f(
                s[i],
            ),
    decreases s.len(),
{
    if s.len() > 0 {
        let p = s.drop_last();
        lemma_concat_fixed(p, f, w);
        let c = concat_bytes(s, f);
        let d = concat_bytes(p, f);
        assert(c == d + f(s.last()));
        assert(w * s.len() == w * p.len() + w) by (nonlinear_arith)
            requires
                s.len() == p.len() + 1,
        ;
        assert forall|i: int| 0 <= i < s.len() implies #[trigger] c.subrange(w * i, w * i + w)
            == f(s[i]) by {
            if i < p.len() {
                assert(w * i + w <= w * p.len()) by (nonlinear_arith)
                    requires
                        i + 1 <= p.len(),
                        w > 0,
                ;
                assert(c.subrange(w * i, w * i + w) =~= d.subrange(w * i, w * i + w));
                assert(p[i] == s[i]);
            } else {
                assert(w * i == w * p.len());
                assert(c.subrange(w * i, w * i + w) =~= f(s.last()));
            }
        }
    }
}

proof fn lemma_concat_push<T>(s: Seq<T>, x: T, f: spec_fn(T) -> Seq<u8>)
    ensures
        concat_bytes(s.push(x), f) == concat_bytes(s, f) + f(x),
{
    assert(s.push(x).drop_last() =~= s);
}

impl LiveStorageWriter {
    /// The bytes of `index.dat`.
    pub fn index_file_bytes(&self) -> (r: Vec<u8>)
        ensures
            r@ == index_file(self.entries(), self.links().len() as u64),
    {
        let mut out = u64_to_le_bytes(self.num_records());
        let mut k: usize = 0;
        while k < 56
            invariant
                k <= 56,
                out@ == spec_u64_to_le_bytes(self.links().len() as u64) + Seq::new(
                    k as nat,
                    |i: int| 0u8,
                ),
            decreases 56 - k,
        {
            out.push(0);
            proof {
                assert(out@ =~= spec_u64_to_le_bytes(self.links().len() as u64) + Seq::new(
                    (k + 1) as nat,
                    |i: int| 0u8,
                ));
            }
            k = k + 1;
        }
        let ghost head = out@;
        let n = self.num_entries();
        let mut i: usize = 0;
        proof {
            assert(self.entries().subrange(0, 0) =~= Seq::<RecordIndexEntry>::empty());
        }
        while i < n
            invariant
                n == self.entries().len(),
                i <= n,
                out@ == head + concat_bytes(
                    self.entries().subrange(0, i as int),
                    |e: RecordIndexEntry| entry_bytes(e),
                ),
            decreases n - i,
        {
            let e = self.entry_at(i);
            e.target.write_bytes(&mut out);
            let mut h = u64_to_le_bytes(e.head);
            let mut t = u64_to_le_bytes(e.tail);
            out.append(&mut h);
            out.append(&mut t);
            proof {
                lemma_concat_push(
                    self.entries().subrange(0, i as int),
                    e,
                    |e: RecordIndexEntry| entry_bytes(e),
                );
                assert(self.entries().subrange(0, i + 1) =~= self.entries().subrange(
                    0,
                    i as int,
                ).push(e));
                assert(out@ =~= head + concat_bytes(
                    self.entries().subrange(0, i + 1),
                    |e: RecordIndexEntry| entry_bytes(e),
                ));
            }
            i = i + 1;
        }
        proof {
            assert(self.entries().subrange(0, n as int) =~= self.entries());
        }
        out
    }

    /// The bytes of `links.dat`.
    pub fn links_file_bytes(&self) -> (r: Vec<u8>)
        ensures
            r@ == links_file(self.links()),
    {
        let mut out: Vec<u8> = Vec::new();
        let n = self.num_slots();
        let mut i: usize = 0;
        proof {
            assert(self.links().subrange(0, 0) =~= Seq::<BacklinkEntry>::empty());
        }
        while i < n
            invariant
                n == self.links().len(),
                i <= n,
                out@ == concat_bytes(
                    self.links().subrange(0, i as int),
                    |l: BacklinkEntry| link_bytes(l),
                ),
            decreases n - i,
        {
            let l = self.link_at(i);
            l.source.write_bytes(&mut out);
            let mut a = u32_to_le_bytes(#[verifier::truncate] (l.next as u32));
            let mut b = u32_to_le_bytes(#[verifier::truncate] (l.prev as u32));
            out.append(&mut a);
            out.append(&mut b);
            proof {
                lemma_concat_push(
                    self.links().subrange(0, i as int),
                    l,
                    |l: BacklinkEntry| link_bytes(l),
                );
                assert(self.links().subrange(0, i + 1) =~= self.links().subrange(0, i as int).push(
                    l,
                ));
                assert(out@ =~= concat_bytes(
                    self.links().subrange(0, i + 1),
                    |l: BacklinkEntry| link_bytes(l),
                ));
            }
            i = i + 1;
        }
        proof {
            assert(self.links().subrange(0, n as int) =~= self.links());
        }
        out
    }
}

impl LiveStorageWriter {
    /// The 32 bytes of slot `slot`, which stand at `32 * slot` in `links.dat`.
    pub fn link_record_bytes(&self, slot: usize) -> (r: Vec<u8>)
        requires
            slot < self.links().len(),
        ensures
            r@ == link_bytes(self.links()[slot as int]),
    {
        let l = self.link_at(slot);
        let mut out: Vec<u8> = Vec::new();
        l.source.write_bytes(&mut out);
        let mut a = u32_to_le_bytes(#[verifier::truncate] (l.next as u32));
        let mut b = u32_to_le_bytes(#[verifier::truncate] (l.prev as u32));
        out.append(&mut a);
        out.append(&mut b);
        proof {
            assert(out@ =~= link_bytes(l));
        }
        out
    }

    /// The 40 bytes of entry `i`, which stand at `64 + 40 * i` in `index.dat`.
    pub fn entry_record_bytes(&self, i: usize) -> (r: Vec<u8>)
        requires
            i < self.entries().len(),
        ensures
            r@ == entry_bytes(self.entries()[i as int]),
    {
        let e = self.entry_at(i);
        let mut out: Vec<u8> = Vec::new();
        e.target.write_bytes(&mut out);
        let mut h = u64_to_le_bytes(e.head);
        let mut t = u64_to_le_bytes(e.tail);
        out.append(&mut h);
        out.append(&mut t);
        proof {
            assert(out@ =~= entry_bytes(e));
        }
        out
    }
}

/// Where each record stands in the two files: slot `s` at `32 * s` of
/// `links.dat`, entry `i` at `64 + 40 * i` of `index.dat`, the slot count in
/// the first 8 bytes of `index.dat`.
pub proof fn lemma_record_offsets(entries: Seq<RecordIndexEntry>, links: Seq<BacklinkEntry>)
    ensures
        links_file(links).len() == 32 * links.len(),
        forall|s: int|
            0 <= s < links.len() ==> #[trigger] links_file(links).subrange(32 * s, 32 * s + 32)
                == link_bytes(links[s]),
        index_file(entries, links.len() as u64).len() == 64 + 40 * entries.len(),
        index_file(entries, links.len() as u64).subrange(0, 8) == spec_u64_to_le_bytes(
            links.len() as u64,
        ),
        forall|i: int|
            0 <= i < entries.len() ==> #[trigger] index_file(entries, links.len() as u64).subrange(
                64 + 40 * i,
                64 + 40 * i + 40,
            ) == entry_bytes(entries[i]),
{
    assert forall|x: RecordIndexEntry| #[trigger] entry_bytes(x).len() == 40 by {
        lemma_entry_bytes(x);
    }
    assert forall|x: BacklinkEntry| #[trigger] link_bytes(x).len() == 32 by {
        lemma_link_bytes(x);
    }
    lemma_concat_fixed(entries, |e: RecordIndexEntry| entry_bytes(e), 40);
    lemma_concat_fixed(links, |l: BacklinkEntry| link_bytes(l), 32);
    lemma_auto_spec_u64_to_from_le_bytes();
    let f = index_file(entries, links.len() as u64);
    let cb = concat_bytes(entries, |e: RecordIndexEntry| entry_bytes(e));
    assert(f.subrange(0, 8) =~= spec_u64_to_le_bytes(links.len() as u64));
    assert forall|i: int| 0 <= i < entries.len() implies #[trigger] f.subrange(
        64 + 40 * i,
        64 + 40 * i + 40,
    ) == entry_bytes(entries[i]) by {
        assert(f.subrange(64 + 40 * i, 64 + 40 * i + 40) =~= cb.subrange(40 * i, 40 * i + 40));
    }
}

/// Reads the index entry whose 40 bytes start at `pos`.
fn read_entry(b: &[u8], pos: usize) -> (r: RecordIndexEntry)
    requires
        pos + 40 <= b@.len(),
    ensures
        r == entry_from_bytes(b@.subrange(pos as int, pos + 40)),
{
    let _len = b.len();
    let target = RecordId::read_bytes(b, pos);
    let head = u64_from_le_bytes(slice_subrange(b, pos + 24, pos + 32));
    let tail = u64_from_le_bytes(slice_subrange(b, pos + 32, pos + 40));
    proof {
        let s = b@.subrange(pos as int, pos + 40);
        assert(s.subrange(0, 24) =~= b@.subrange(pos as int, pos + 24));
        assert(s.subrange(24, 32) =~= b@.subrange(pos + 24, pos + 32));
        assert(s.subrange(32, 40) =~= b@.subrange(pos + 32, pos + 40));
    }
    RecordIndexEntry { target, head, tail }
}

/// Reads the link slot whose 32 bytes start at `pos`.
fn read_link(b: &[u8], pos: usize) -> (r: BacklinkEntry)
    requires
        pos + 32 <= b@.len(),
    ensures
        r == link_from_bytes(b@.subrange(pos as int, pos + 32)),
{
    let _len = b.len();
    let source = RecordId::read_bytes(b, pos);
    let next = u32_from_le_bytes(slice_subrange(b, pos + 24, pos + 28));
    let prev = u32_from_le_bytes(slice_subrange(b, pos + 28, pos + 32));
    proof {
        let s = b@.subrange(pos as int, pos + 32);
        assert(s.subrange(0, 24) =~= b@.subrange(pos as int, pos + 24));
        assert(s.subrange(24, 28) =~= b@.subrange(pos + 24, pos + 28));
        assert(s.subrange(28, 32) =~= b@.subrange(pos + 28, pos + 32));
    }
    BacklinkEntry {
        source,
        next: #[verifier::truncate] (next as i32),
        prev: #[verifier::truncate] (prev as i32),
    }
}

/// The longest run of `entries` from the start whose targets are distinct,
/// and the in-memory index of that run.
fn index_targets(entries: &Vec<RecordIndexEntry>) -> (r: (usize, BTreeMap<(u64, u32, u64), usize>))
    ensures
        r.0 <= entries@.len(),
        map_ok(entries@.subrange(0, r.0 as int), r.1@),
        forall|i: int, j: int|
            0 <= i < j < r.0 ==> #[trigger] entries@[i].target != #[trigger] entries@[j].target,
        (forall|i: int, j: int|
            0 <= i < j < entries@.len() ==> #[trigger] entries@[i].target
                != #[trigger] entries@[j].target) ==> r.0 == entries@.len(),
{
    broadcast use vstd::laws_cmp::group_laws_cmp;

    let n = entries.len();
    let mut m: BTreeMap<(u64, u32, u64), usize> = BTreeMap::new();
    let mut i: usize = 0;
    proof {
        assert(m@ =~= Map::<(u64, u32, u64), usize>::empty());
    }
    while i < n
        invariant
            n == entries@.len(),
            i <= n,
            map_ok(entries@.subrange(0, i as int), m@),
            forall|a: int, b: int|
                0 <= a < b < i ==> #[trigger] entries@[a].target != #[trigger] entries@[b].target,
        decreases n - i,
    {
        let t = entries[i].target;
        let k = (t.rkey, t.collection, t.did);
        let ghost pre = entries@.subrange(0, i as int);
        if m.contains_key(&k) {
            proof {
                assert(m@.contains_key(k));
                let j = m@[k] as int;
                assert(key_of(pre[j].target) == k);
                assert(pre[j] == entries@[j]);
                assert(entries@[j].target == t);
                assert(entries@[i as int].target == t);
            }
            return (i, m);
        }
        let ghost old_m = m@;
        m.insert(k, i);
        proof {
            let post = entries@.subrange(0, i + 1);
            assert(post =~= pre.push(entries@[i as int]));
            assert forall|x: int| 0 <= x < post.len() implies m@.contains_key(
                key_of(#[trigger] post[x].target),
            ) && m@[key_of(post[x].target)] == x by {
                if x < i {
                    assert(post[x] == pre[x]);
                    assert(old_m.contains_key(key_of(pre[x].target)));
                    assert(key_of(pre[x].target) != k);
                }
            }
            assert forall|kk: (u64, u32, u64)| #[trigger] m@.contains_key(kk) implies m@[kk]
                < post.len() && key_of(post[m@[kk] as int].target) == kk by {
                if kk != k {
                    assert(old_m.contains_key(kk));
                    assert(post[old_m[kk] as int] == pre[old_m[kk] as int]);
                }
            }
            assert forall|a: int, b: int| 0 <= a < b < i + 1 implies #[trigger] entries@[a].target
                != #[trigger] entries@[b].target by {
                if b == i {
                    assert(pre[a] == entries@[a]);
                    assert(old_m.contains_key(key_of(pre[a].target)));
                }
            }
        }
        i = i + 1;
    }
    proof {
        assert(entries@.subrange(0, n as int) =~= entries@);
    }
    (n, m)
}

/// `c` is a chain from `head` as far as it goes: slots that exist, strictly
/// forward, each `next` and `prev` pointing at its neighbour.
pub open spec fn prefix_ok(links: Seq<BacklinkEntry>, head: u64, c: Seq<int>) -> bool {
    c.len() > 0 ==> {
        &&& c[0] == head
        &&& forall|k: int| 0 <= k < c.len() ==> 0 <= #[trigger] c[k] < links.len()
        &&& forall|k: int, l: int| 0 <= k < l < c.len() ==> #[trigger] c[k] < #[trigger] c[l]
        &&& forall|k: int| 0 <= k < c.len() - 1 ==> #[trigger] links[c[k]].next == c[k + 1] - c[k]
        &&& links[c[0]].prev == 0
        &&& forall|k: int| 0 < k < c.len() ==> #[trigger] links[c[k]].prev == c[k - 1] - c[k]
    }
}

/// The slot `l` as the end of a chain.
pub open spec fn chain_end(l: BacklinkEntry) -> BacklinkEntry {
    BacklinkEntry { source: l.source, next: 0, prev: l.prev }
}

/// A chain cut at its last valid link is a chain once that link ends it.
proof fn lemma_cut_chain(links: Seq<BacklinkEntry>, e: RecordIndexEntry, c: Seq<int>)
    requires
        prefix_ok(links, e.head, c),
        c.len() > 0,
        links.len() <= MAX_SLOTS,
    ensures
        chain_ok(
            links.update(c.last(), chain_end(links[c.last()])),
            RecordIndexEntry { target: e.target, head: e.head, tail: c.last() as u64 },
            c,
        ),
{
    let l2 = links.update(c.last(), chain_end(links[c.last()]));
    assert(0 <= c[c.len() - 1] < links.len());
    assert((c.last() as u64) as int == c.last());
    assert forall|k: int| 0 <= k < c.len() implies 0 <= #[trigger] c[k] < l2.len() by {}
    assert(l2[c.last()].next == 0);
    assert forall|k: int| 0 <= k < c.len() - 1 implies #[trigger] l2[c[k]].next == c[k + 1] - c[k] by {
        assert(c[k] < c[c.len() - 1]);
    }
    assert forall|k: int| 0 < k < c.len() implies #[trigger] l2[c[k]].prev == c[k - 1] - c[k] by {
        if k < c.len() - 1 {
            assert(c[k] < c[c.len() - 1]);
        }
    }
    if c.len() > 1 {
        assert(c[0] < c[c.len() - 1]);
    }
}

/// Follows the chain that starts at `e.head`, marking its slots in
/// `visited`, as far as its links are valid: it stops before a slot out of
/// range or already marked, or whose `prev` does not point back, and after a
/// slot whose `next` is 0 or does not go forward within the slots. Gives the
/// last slot reached and the slots walked.
fn walk_and_mark(
    links: &Vec<BacklinkEntry>,
    e: RecordIndexEntry,
    visited: &mut Vec<bool>,
    Ghost(expected): Ghost<Seq<int>>,
    Ghost(valid): Ghost<bool>,
) -> (r: (bool, usize, Ghost<Seq<int>>))
    requires
        old(visited)@.len() == links@.len(),
        links@.len() <= MAX_SLOTS,
        valid ==> chain_ok(links@, e, expected),
        valid ==> forall|k: int| 0 <= k < expected.len() ==> !old(visited)@[#[trigger] expected[k]],
    ensures
        final(visited)@.len() == links@.len(),
        r.0 == (r.2@.len() > 0),
        prefix_ok(links@, e.head, r.2@),
        r.2@.len() > 0 ==> r.1 == r.2@.last(),
        forall|k: int| 0 <= k < r.2@.len() ==> !old(visited)@[#[trigger] r.2@[k]],
        forall|s: int|
            0 <= s < links@.len() ==> #[trigger] final(visited)@[s] == (old(visited)@[s]
                || r.2@.contains(s)),
        valid ==> r.2@ == expected && r.1 == e.tail,
{
    let n = links.len();
    if e.head as u128 >= n as u128 {
        return (false, 0, Ghost(Seq::empty()));
    }
    let mut cur: usize = e.head as usize;
    let mut prev_slot: usize = 0;
    let mut first = true;
    let ghost mut c: Seq<int> = Seq::empty();
    let ghost old_visited = visited@;
    loop
        invariant
            n == links@.len(),
            n <= MAX_SLOTS,
            visited@.len() == n,
            cur < n,
            first == (c.len() == 0),
            valid ==> chain_ok(links@, e, expected),
            valid ==> forall|k: int| 0 <= k < expected.len() ==> !old_visited[#[trigger] expected[k]],
            old_visited == old(visited)@,
            c.len() == 0 ==> cur == e.head,
            c.len() > 0 ==> c[0] == e.head && prev_slot == c.last() && prev_slot < cur
                && links@[prev_slot as int].next == cur - prev_slot,
            forall|k: int| 0 <= k < c.len() ==> 0 <= #[trigger] c[k] < n,
            forall|k: int, l: int| 0 <= k < l < c.len() ==> #[trigger] c[k] < #[trigger] c[l],
            forall|k: int| 0 <= k < c.len() ==> #[trigger] c[k] < cur,
            forall|k: int| 0 <= k < c.len() - 1 ==> #[trigger] links@[c[k]].next == c[k + 1] - c[k],
            c.len() > 0 ==> links@[c[0]].prev == 0,
            forall|k: int| 0 < k < c.len() ==> #[trigger] links@[c[k]].prev == c[k - 1] - c[k],
            forall|k: int| 0 <= k < c.len() ==> !old_visited[#[trigger] c[k]],
            forall|s: int| 0 <= s < n ==> #[trigger] visited@[s] == (old_visited[s] || c.contains(s)),
            valid ==> c.len() < expected.len() && c == expected.subrange(0, c.len() as int) && cur
                == expected[c.len() as int],
        decreases n - cur,
    {
        if visited[cur] {
            proof {
                if valid {
                    assert(!old_visited[expected[c.len() as int]]);
                    if c.contains(cur as int) {
                        let k = choose|k: int| 0 <= k < c.len() && c[k] == cur;
                        assert(c[k] < cur);
                    }
                }
            }
            return (!first, prev_slot, Ghost(c));
        }
        let link = links[cur];
        let prev_ok = if first {
            link.prev == 0
        } else {
            link.prev as i64 == prev_slot as i64 - cur as i64
        };
        proof {
            if valid {
                let k = c.len() as int;
                if k > 0 {
                    assert(expected[k - 1] == c.last());
                }
            }
        }
        if !prev_ok {
            proof {
                if valid {
                    let k = c.len() as int;
                    if k > 0 {
                        assert(links@[expected[k]].prev == expected[k - 1] - expected[k]);
                    }
                }
            }
            return (!first, prev_slot, Ghost(c));
        }
        visited.set(cur, true);
        first = false;
        let ghost c_old = c;
        proof {
            c = c.push(cur as int);
            assert forall|s: int| 0 <= s < n implies #[trigger] visited@[s] == (old_visited[s]
                || c.contains(s)) by {
                if s == cur {
                    assert(c[c.len() - 1] == cur);
                } else {
                    if c.contains(s) {
                        let k = choose|k: int| 0 <= k < c.len() && c[k] == s;
                        assert(c_old[k] == s);
                    }
                    if c_old.contains(s) {
                        let k = choose|k: int| 0 <= k < c_old.len() && c_old[k] == s;
                        assert(c[k] == s);
                    }
                }
            }
            if valid {
                assert(c =~= expected.subrange(0, c.len() as int));
            }
        }
        if link.next == 0 {
            proof {
                if valid {
                    let k = c.len() - 1;
                    if k < expected.len() - 1 {
                        assert(expected[k] < expected[k + 1]);
                    }
                    assert(c =~= expected);
                }
            }
            return (true, cur, Ghost(c));
        }
        if link.next < 0 || link.next as usize >= n - cur {
            proof {
                if valid {
                    let k = c.len() - 1;
                    if k == expected.len() - 1 {
                        assert(links@[expected.last()].next == 0);
                    } else {
                        assert(expected[k] < expected[k + 1]);
                        assert(expected[k + 1] < n);
                    }
                }
            }
            return (true, cur, Ghost(c));
        }
        proof {
            if valid {
                let k = c.len() - 1;
                if k == expected.len() - 1 {
                    assert(links@[expected.last()].next == 0);
                }
            }
        }
        prev_slot = cur;
        cur = cur + link.next as usize;
    }
}

/// Each entry has its chain, and no slot is on two chains.
pub open spec fn chains_ok(
    entries: Seq<RecordIndexEntry>,
    links: Seq<BacklinkEntry>,
    chains: Seq<Seq<int>>,
) -> bool {
    &&& chains.len() == entries.len()
    &&& forall|i: int| 0 <= i < entries.len() ==> chain_ok(links, #[trigger] entries[i], chains[i])
    &&& forall|i: int, j: int, k: int, l: int|
        0 <= i < chains.len() && 0 <= j < chains.len() && i != j && 0 <= k < chains[i].len() && 0
            <= l < chains[j].len() ==> #[trigger] chains[i][k] != #[trigger] chains[j][l]
}

/// Walks the chain of every entry and cuts it at its last valid link: that
/// link's `next` becomes 0 and the entry's tail becomes that link. Entries
/// are kept in order up to the first one whose head is not a valid link.
/// When the slots already hold a chain for every entry, nothing changes.
fn rebuild_chains(entries: &Vec<RecordIndexEntry>, links: &mut Vec<BacklinkEntry>) -> (r: (
    Vec<RecordIndexEntry>,
    Ghost<Seq<Seq<int>>>,
))
    requires
        old(links)@.len() <= MAX_SLOTS,
    ensures
        final(links)@.len() == old(links)@.len(),
        r.0@.len() <= entries@.len(),
        forall|j: int|
            0 <= j < r.0@.len() ==> (#[trigger] r.0@[j]).target == entries@[j].target && r.0@[j].head
                == entries@[j].head,
        chains_ok(r.0@, final(links)@, r.1@),
        (exists|c: Seq<Seq<int>>| chains_ok(entries@, old(links)@, c)) ==> r.0@ == entries@
            && final(links)@ == old(links)@,
{
    let ghost valid = exists|c: Seq<Seq<int>>| chains_ok(entries@, old(links)@, c);
    let ghost cs = if valid {
        choose|c: Seq<Seq<int>>| chains_ok(entries@, old(links)@, c)
    } else {
        Seq::empty()
    };
    let ghost orig = old(links)@;
    let n = links.len();
    let mut visited: Vec<bool> = Vec::new();
    let mut k: usize = 0;
    while k < n
        invariant
            k <= n,
            visited@.len() == k,
            forall|s: int| 0 <= s < k ==> !#[trigger] visited@[s],
        decreases n - k,
    {
        visited.push(false);
        k = k + 1;
    }
    let m = entries.len();
    let mut out: Vec<RecordIndexEntry> = Vec::new();
    let ghost mut chains: Seq<Seq<int>> = Seq::empty();
    let mut i: usize = 0;
    let mut stopped = false;
    while i < m && !stopped
        invariant
            valid ==> !stopped,
            m == entries@.len(),
            n == links@.len(),
            n == orig.len(),
            n <= MAX_SLOTS,
            i <= m,
            out@.len() == i,
            visited@.len() == n,
            valid ==> chains_ok(entries@, orig, cs),
            forall|j: int|
                0 <= j < i ==> (#[trigger] out@[j]).target == entries@[j].target && out@[j].head
                    == entries@[j].head,
            chains_ok(out@, links@, chains),
            forall|s: int|
                0 <= s < n ==> #[trigger] visited@[s] == exists|j: int, x: int|
                    0 <= j < i && 0 <= x < chains[j].len() && chains[j][x] == s,
            forall|s: int| 0 <= s < n && !visited@[s] ==> #[trigger] links@[s] == orig[s],
            valid ==> chains == cs.subrange(0, i as int) && out@ == entries@.subrange(0, i as int)
                && links@ == orig,
        decreases m - i, if stopped {
            0int
        } else {
            1int
        },
    {
        let ghost expected = if valid {
            cs[i as int]
        } else {
            Seq::empty()
        };
        proof {
            if valid {
                assert(chain_ok(orig, entries@[i as int], cs[i as int]));
                assert forall|x: int| 0 <= x < expected.len() implies !visited@[
                    #[trigger] expected[x]] by {
                    let s = expected[x];
                    if visited@[s] {
                        let (j, y) = choose|j: int, y: int|
                            0 <= j < i && 0 <= y < chains[j].len() && chains[j][y] == s;
                        assert(chains[j] == cs[j]);
                        assert(cs[j][y] != cs[i as int][x]);
                    }
                }
            }
        }
        let ghost before = visited@;
        let ghost links_before = links@;
        assert(forall|s: int|
            0 <= s < n ==> #[trigger] before[s] == exists|j: int, x: int|
                0 <= j < i && 0 <= x < chains[j].len() && chains[j][x] == s);
        let e = entries[i];
        let (found, last, c) = walk_and_mark(links, e, &mut visited, Ghost(expected), Ghost(valid));
        if !found {
            proof {
                if valid {
                    assert(chain_ok(orig, entries@[i as int], cs[i as int]));
                }
            }
            stopped = true;
        } else {
        proof {
            // the walked slots were unmarked, so the walk read the slots as
            // they are on disk
            lemma_cut_chain(links@, e, c@);
        }
        let l = links[last];
        if l.next != 0 {
            links.set(last, BacklinkEntry { source: l.source, next: 0, prev: l.prev });
        }
        let e2 = RecordIndexEntry { target: e.target, head: e.head, tail: last as u64 };
        out.push(e2);
        proof {
            assert(links@ =~= links_before.update(c@.last(), chain_end(links_before[c@.last()])));
            let old_chains = chains;
            chains = chains.push(c@);
            assert forall|a: int, b: int, x: int, y: int|
                0 <= a < chains.len() && 0 <= b < chains.len() && a != b && 0 <= x < chains[a].len()
                    && 0 <= y < chains[b].len() implies #[trigger] chains[a][x]
                != #[trigger] chains[b][y] by {
                if a == i {
                    assert(chains[a] == c@);
                    assert(!before[c@[x]]);
                    assert(chains[b] == old_chains[b]);
                    let sb = old_chains[b][y];
                    assert(chain_ok(links_before, out@[b], old_chains[b]));
                    assert(0 <= b < i && 0 <= y < old_chains[b].len() && old_chains[b][y] == sb);
                    assert(before[sb]);
                } else if b == i {
                    assert(chains[b] == c@);
                    assert(!before[c@[y]]);
                    assert(chains[a] == old_chains[a]);
                    let sa = old_chains[a][x];
                    assert(chain_ok(links_before, out@[a], old_chains[a]));
                    assert(0 <= a < i && 0 <= x < old_chains[a].len() && old_chains[a][x] == sa);
                    assert(before[sa]);
                } else {
                    assert(chains[a] == old_chains[a] && chains[b] == old_chains[b]);
                }
            }
            assert forall|j: int| 0 <= j < i + 1 implies chain_ok(
                links@,
                #[trigger] out@[j],
                chains[j],
            ) by {
                if j < i {
                    let cj = old_chains[j];
                    assert(chains[j] == cj);
                    assert(chain_ok(links_before, out@[j], cj));
                    assert forall|x: int| 0 <= x < cj.len() implies links@[#[trigger] cj[x]]
                        == links_before[cj[x]] by {
                        assert(before[cj[x]]);
                        assert(c@.last() != cj[x]);
                    }
                    assert(links@[cj[0]] == links_before[cj[0]]);
                    assert(links@[cj.last()] == links_before[cj.last()]);
                } else {
                    assert(out@[j] == e2);
                }
            }
            assert forall|s: int| 0 <= s < n implies #[trigger] visited@[s] == exists|j: int, x: int|
                0 <= j < i + 1 && 0 <= x < chains[j].len() && chains[j][x] == s by {
                if visited@[s] {
                    if before[s] {
                        let (j, x) = choose|j: int, x: int|
                            0 <= j < i && 0 <= x < old_chains[j].len() && old_chains[j][x] == s;
                        assert(chains[j] == old_chains[j]);
                    } else {
                        assert(c@.contains(s));
                        let x = choose|x: int| 0 <= x < c@.len() && c@[x] == s;
                        assert(chains[i as int] == c@);
                    }
                }
                if exists|j: int, x: int| 0 <= j < i + 1 && 0 <= x < chains[j].len() && chains[j][x] == s {
                    let (j, x) = choose|j: int, x: int|
                        0 <= j < i + 1 && 0 <= x < chains[j].len() && chains[j][x] == s;
                    if j < i {
                        assert(chains[j] == old_chains[j]);
                        assert(before[s]);
                    } else {
                        assert(chains[j] == c@);
                        assert(c@.contains(s));
                    }
                }
            }
            assert forall|s: int| 0 <= s < n && !visited@[s] implies #[trigger] links@[s] == orig[s] by {
                assert(!c@.contains(s));
                if s == c@.last() {
                    assert(c@[c@.len() - 1] == s);
                }
            }
            if valid {
                assert(chain_ok(orig, entries@[i as int], cs[i as int]));
                assert(last == e.tail);
                assert(links@ =~= orig);
                assert(e2 == entries@[i as int]);
                assert(chains =~= cs.subrange(0, i + 1));
                assert(out@ =~= entries@.subrange(0, i + 1));
            }
        }
        i = i + 1;
        }
    }
    proof {
        if valid {
            assert(out@.len() == m);
            assert(out@ =~= entries@);
        }
    }
    (out, Ghost(chains))
}

/// `index` and `links` are the files of a store with these entries, slots and chains.
pub open spec fn is_image(
    index: Seq<u8>,
    links: Seq<u8>,
    e: Seq<RecordIndexEntry>,
    l: Seq<BacklinkEntry>,
    c: Seq<Seq<int>>,
) -> bool {
    live_ok(e, l, c) && index == index_file(e, l.len() as u64) && links == links_file(l)
}

impl LiveStorageWriter {
    /// Reopens a store from the bytes of its two files, rebuilding the
    /// in-memory index. An `index.dat` shorter than its header is a new, empty
    /// store; slots past those the header counts (or past the end of
    /// `links.dat`) are ignored, as is a partial entry at the end of
    /// `index.dat`. A damaged chain is cut at its last valid link: in memory
    /// that link ends the chain and becomes the entry's tail. Entries are kept
    /// up to the first one whose head is not a valid link or whose target
    /// repeats an earlier one. The files are not changed.
    pub fn new(index: &[u8], links: &[u8]) -> (r: Result<LiveStorageWriter, LiveError>)
        ensures
            r is Ok,
            r matches Ok(w) ==> w.wf(),
            r matches Ok(w) ==> w.links().len() <= MAX_SLOTS,
            index@.len() < INDEX_HEADER_SIZE ==> (r matches Ok(w) && w.entries().len() == 0
                && w.links().len() == 0),
            forall|e: Seq<RecordIndexEntry>, l: Seq<BacklinkEntry>, c: Seq<Seq<int>>|
                #[trigger] is_image(index@, links@, e, l, c) ==> (r matches Ok(w) && w.entries() == e
                    && w.links() == l && w.chains() == c),
    {
        let ilen = index.len();
        let llen = links.len();
        if ilen < INDEX_HEADER_SIZE {
            proof {
                assert forall|e: Seq<RecordIndexEntry>, l: Seq<BacklinkEntry>, c: Seq<Seq<int>>|
                    #[trigger] is_image(index@, links@, e, l, c) implies false by {
                    lemma_auto_spec_u64_to_from_le_bytes();
                    assert(index_file(e, l.len() as u64).len() >= 64);
                }
            }
            return Ok(LiveStorageWriter::empty());
        }
        let num = u64_from_le_bytes(slice_subrange(index, 0, 8));
        let ghost valid = exists|e: Seq<RecordIndexEntry>, l: Seq<BacklinkEntry>, c: Seq<Seq<int>>|
            is_image(index@, links@, e, l, c);
        let ghost (ge, gl, gc) = if valid {
            choose|e: Seq<RecordIndexEntry>, l: Seq<BacklinkEntry>, c: Seq<Seq<int>>|
                is_image(index@, links@, e, l, c)
        } else {
            (Seq::empty(), Seq::empty(), Seq::empty())
        };
        proof {
            if valid {
                lemma_auto_spec_u64_to_from_le_bytes();
                assert forall|x: RecordIndexEntry| #[trigger] entry_bytes(x).len() == 40 by {
                    lemma_entry_bytes(x);
                }
                assert forall|x: BacklinkEntry| #[trigger] link_bytes(x).len() == 32 by {
                    lemma_link_bytes(x);
                }
                lemma_concat_fixed(ge, |e: RecordIndexEntry| entry_bytes(e), 40);
                lemma_concat_fixed(gl, |l: BacklinkEntry| link_bytes(l), 32);
                assert(index@.subrange(0, 8) =~= spec_u64_to_le_bytes(gl.len() as u64));
                assert(num == gl.len());
            }
        }
        let mut n_slots = llen / BACKLINK_ENTRY_SIZE;
        if num < n_slots as u64 {
            n_slots = num as usize;
        }
        if n_slots > MAX_SLOTS {
            n_slots = MAX_SLOTS;
        }
        proof {
            if valid {
                assert(llen == 32 * gl.len());
                assert(llen / 32 == gl.len()) by (nonlinear_arith)
                    requires
                        llen == 32 * gl.len(),
                ;
                assert(gl.len() <= MAX_SLOTS);
                assert(n_slots == num);
            }
        }
        let mut slots: Vec<BacklinkEntry> = Vec::new();
        let mut s: usize = 0;
        while s < n_slots
            invariant
                n_slots <= llen / 32,
                llen == links@.len(),
                s <= n_slots,
                slots@.len() == s,
                forall|k: int|
                    0 <= k < s ==> #[trigger] slots@[k] == link_from_bytes(
                        links@.subrange(32 * k, 32 * k + 32),
                    ),
            decreases n_slots - s,
        {
            assert(32 * s + 32 <= llen) by (nonlinear_arith)
                requires
                    s < n_slots,
                    n_slots <= llen / 32,
            ;
            slots.push(read_link(links, 32 * s));
            s = s + 1;
        }
        let n_entries = (ilen - INDEX_HEADER_SIZE) / INDEX_ENTRY_SIZE;
        let mut entries: Vec<RecordIndexEntry> = Vec::new();
        let mut k: usize = 0;
        while k < n_entries
            invariant
                n_entries == (ilen - 64) / 40,
                ilen == index@.len(),
                ilen >= 64,
                k <= n_entries,
                entries@.len() == k,
                forall|j: int|
                    0 <= j < k ==> #[trigger] entries@[j] == entry_from_bytes(
                        index@.subrange(64 + 40 * j, 64 + 40 * j + 40),
                    ),
            decreases n_entries - k,
        {
            assert(64 + 40 * k + 40 <= ilen) by (nonlinear_arith)
                requires
                    k < n_entries,
                    n_entries == (ilen - 64) / 40,
                    ilen >= 64,
            ;
            entries.push(read_entry(index, 64 + 40 * k));
            k = k + 1;
        }
        proof {
            if valid {
                assert(entries@.len() == ge.len()) by {
                    assert(ilen == 64 + 40 * ge.len());
                    assert((ilen - 64) / 40 == ge.len()) by (nonlinear_arith)
                        requires
                            ilen == 64 + 40 * ge.len(),
                    ;
                }
                assert forall|j: int| 0 <= j < ge.len() implies entries@[j] == ge[j] by {
                    let cb = concat_bytes(ge, |e: RecordIndexEntry| entry_bytes(e));
                    assert(index@.subrange(64 + 40 * j, 64 + 40 * j + 40) =~= cb.subrange(
                        40 * j,
                        40 * j + 40,
                    ));
                    lemma_entry_bytes(ge[j]);
                }
                assert(entries@ =~= ge);
                assert forall|j: int| 0 <= j < gl.len() implies slots@[j] == gl[j] by {
                    let cb = concat_bytes(gl, |l: BacklinkEntry| link_bytes(l));
                    assert(links@.subrange(32 * j, 32 * j + 32) =~= cb.subrange(32 * j, 32 * j + 32));
                    lemma_link_bytes(gl[j]);
                }
                assert(slots@ =~= gl);
                assert(live_ok(entries@, slots@, gc));
            }
        }
        let ghost parsed_slots = slots@;
        let (out, chains) = rebuild_chains(&entries, &mut slots);
        proof {
            if valid {
                assert(chains_ok(entries@, parsed_slots, gc));
            }
        }
        let (k, map) = index_targets(&out);
        let mut kept = out;
        let ghost out_view = kept@;
        kept.truncate(k);
        let ghost kept_chains = chains@.subrange(0, k as int);
        proof {
            assert(kept@ =~= out_view.subrange(0, k as int));
            assert forall|j: int| 0 <= j < kept@.len() implies chain_ok(
                slots@,
                #[trigger] kept@[j],
                kept_chains[j],
            ) by {
                assert(kept@[j] == out_view[j]);
                assert(chain_ok(slots@, out_view[j], chains@[j]));
            }
            assert forall|a: int, b: int, x: int, y: int|
                0 <= a < kept_chains.len() && 0 <= b < kept_chains.len() && a != b && 0 <= x
                    < kept_chains[a].len() && 0 <= y < kept_chains[b].len() implies #[trigger] kept_chains[a][x]
                != #[trigger] kept_chains[b][y] by {
                assert(chains@[a][x] != chains@[b][y]);
            }
            assert forall|a: int, b: int| 0 <= a < b < kept@.len() implies #[trigger] kept@[a].target
                != #[trigger] kept@[b].target by {
                assert(out_view[a].target != out_view[b].target);
            }
            if valid {
                assert(out_view == entries@);
                assert(k == out_view.len());
                assert(kept@ =~= entries@);
                assert(slots@ == parsed_slots);
            }
        }
        let w = LiveStorageWriter::from_parts(kept, slots, map, Ghost(kept_chains));
        proof {
            assert forall|e: Seq<RecordIndexEntry>, l: Seq<BacklinkEntry>, c: Seq<Seq<int>>|
                #[trigger] is_image(index@, links@, e, l, c) implies (w.entries() == e && w.links()
                == l && w.chains() == c) by {
                assert forall|x: RecordIndexEntry| #[trigger] entry_bytes(x).len() == 40 by {
                    lemma_entry_bytes(x);
                }
                assert forall|x: BacklinkEntry| #[trigger] link_bytes(x).len() == 32 by {
                    lemma_link_bytes(x);
                }
                lemma_concat_fixed(e, |e: RecordIndexEntry| entry_bytes(e), 40);
                lemma_concat_fixed(l, |l: BacklinkEntry| link_bytes(l), 32);
                lemma_auto_spec_u64_to_from_le_bytes();
                assert(index@.subrange(0, 8) =~= spec_u64_to_le_bytes(l.len() as u64));
                assert(ilen == 64 + 40 * e.len());
                assert((ilen - 64) / 40 == e.len()) by (nonlinear_arith)
                    requires
                        ilen == 64 + 40 * e.len(),
                ;
                assert forall|j: int| 0 <= j < e.len() implies w.entries()[j] == e[j] by {
                    let cb = concat_bytes(e, |e: RecordIndexEntry| entry_bytes(e));
                    assert(index@.subrange(64 + 40 * j, 64 + 40 * j + 40) =~= cb.subrange(
                        40 * j,
                        40 * j + 40,
                    ));
                    lemma_entry_bytes(e[j]);
                }
                assert(w.entries() =~= e);
                assert forall|j: int| 0 <= j < l.len() implies w.links()[j] == l[j] by {
                    let cb = concat_bytes(l, |l: BacklinkEntry| link_bytes(l));
                    assert(links@.subrange(32 * j, 32 * j + 32) =~= cb.subrange(32 * j, 32 * j + 32));
                    lemma_link_bytes(l[j]);
                }
                assert(w.links() =~= l);
                assert(w.wf());
                assert(w.chains().len() == w.entries().len());
                assert(c.len() == e.len());
                assert forall|j: int| 0 <= j < c.len() implies w.chains()[j] == c[j] by {
                    assert(chain_ok(l, e[j], c[j]));
                    assert(chain_ok(w.links(), w.entries()[j], w.chains()[j]));
                    crate::live::lemma_chain_unique(l, e[j], c[j], w.chains()[j]);
                }
                assert(w.chains() =~= c);
            }
        }
        Ok(w)
    }
}

} // verus!
