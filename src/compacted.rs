//! The compacted store: targets sorted, each with its sources packed as three
//! columns (raw rkeys, LEB128 collections, LEB128 dids) in `links.dat`.
use crate::record::{lemma_record_bytes, record_bytes, record_lt, RecordId};
use crate::varint::{leb128, lemma_leb128_len, read_u32, read_u64, write_u32, write_u64};
use vstd::bytes::{
    lemma_auto_spec_u32_to_from_le_bytes, lemma_auto_spec_u64_to_from_le_bytes,
    spec_u32_to_le_bytes, spec_u64_to_le_bytes, u32_from_le_bytes, u32_to_le_bytes,
    u64_from_le_bytes, u64_to_le_bytes,
};
use vstd::prelude::*;
use vstd::slice::slice_subrange;

verus! {

/// Groups in `links.dat` start at multiples of this many bytes.
pub const POS_ALIGN: usize = 32;

/// Size of the `index.dat` header.
pub const INDEX_HEADER_SIZE: usize = 32;

/// Size of one `index.dat` entry.
pub const INDEX_ENTRY_SIZE: usize = 32;

/// The `index.dat` header: how many entries follow.
#[derive(Clone, Copy, Debug, PartialEq, Eq, Structural)]
pub struct RecordIndexHeader {
    pub num_entries: u64,
}

/// One target of a compacted store: how many sources it has, and where in
/// `links.dat` they start, in units of `POS_ALIGN` bytes.
#[derive(Clone, Copy, Debug, PartialEq, Eq, Structural)]
pub struct RecordIndexEntry {
    pub target: RecordId,
    pub count: u32,
    pub position: u32,
}

/// Why a compacted store refused a group or could not read one.
#[derive(Clone, Copy, Debug, PartialEq, Eq, Structural)]
pub enum CompactError {
    /// The target does not sort after the previous one.
    OutOfOrder,
    /// The sources are not strictly ascending.
    Unsorted,
    /// More sources than a `u32` counts.
    TooMany,
    /// `links.dat` has grown past what a `u32` position reaches.
    TooLarge,
    /// The bytes of a group could not be decoded.
    Corrupt,
}

pub open spec fn rkey_enc(r: RecordId) -> Seq<u8> {
    spec_u64_to_le_bytes(r.rkey)
}

pub open spec fn collection_enc(r: RecordId) -> Seq<u8> {
    leb128(r.collection as nat)
}

pub open spec fn did_enc(r: RecordId) -> Seq<u8> {
    leb128(r.did as nat)
}

/// The bytes of `f` on each element of `s`, one after another.
pub open spec fn concat_map(s: Seq<RecordId>, f: spec_fn(RecordId) -> Seq<u8>) -> Seq<u8>
    decreases s.len(),
{
    if s.len() == 0 {
        Seq::empty()
    } else {
        f(s[0]) + concat_map(s.drop_first(), f)
    }
}

pub open spec fn rkey_column(s: Seq<RecordId>) -> Seq<u8> {
    concat_map(s, |r: RecordId| rkey_enc(r))
}

pub open spec fn collection_column(s: Seq<RecordId>) -> Seq<u8> {
    concat_map(s, |r: RecordId| collection_enc(r))
}

pub open spec fn did_column(s: Seq<RecordId>) -> Seq<u8> {
    concat_map(s, |r: RecordId| did_enc(r))
}

/// The bytes of one group of sources.
pub open spec fn group_bytes(s: Seq<RecordId>) -> Seq<u8> {
    rkey_column(s) + collection_column(s) + did_column(s)
}

/// `links` holds the group of `s` at byte `start`.
pub open spec fn group_at(links: Seq<u8>, start: int, s: Seq<RecordId>) -> bool {
    0 <= start && start + group_bytes(s).len() <= links.len() && links.subrange(
        start,
        start + group_bytes(s).len(),
    ) == group_bytes(s)
}

pub open spec fn group_start(e: RecordIndexEntry) -> int {
    e.position as int * POS_ALIGN as int
}

pub open spec fn strictly_sorted(s: Seq<RecordId>) -> bool {
    forall|i: int, j: int| 0 <= i < j < s.len() ==> record_lt(s[i], s[j])
}

pub open spec fn all_zero(links: Seq<u8>, from: int, to: int) -> bool {
    forall|k: int| from <= k < to ==> links[k] == 0
}

/// The first multiple of `POS_ALIGN` at or after `n`.
pub open spec fn padded(n: int) -> int {
    if n % 32 == 0 {
        n
    } else {
        n + 32 - n % 32
    }
}

/// A compacted store's layout: each entry's group where its position says,
/// targets strictly ascending, positions non-decreasing, zeros between groups,
/// and nothing after the last group.
#[verifier::opaque]
pub open spec fn layout_ok(
    index: Seq<RecordIndexEntry>,
    links: Seq<u8>,
    groups: Seq<Seq<RecordId>>,
) -> bool {
    &&& index.len() == groups.len()
    &&& forall|i: int|
        0 <= i < index.len() ==> {
            &&& #[trigger] index[i].count == groups[i].len()
            &&& group_at(links, group_start(index[i]), groups[i])
            &&& strictly_sorted(groups[i])
        }
    &&& forall|i: int, j: int|
        0 <= i < j < index.len() ==> record_lt(#[trigger] index[i].target, #[trigger] index[j].target)
    &&& forall|i: int, j: int|
        0 <= i < j < index.len() ==> #[trigger] index[i].position <= #[trigger] index[j].position
    &&& forall|i: int|
        0 <= i && i + 1 < index.len() ==> {
            &&& group_start(#[trigger] index[i]) + group_bytes(groups[i]).len() <= group_start(
                index[i + 1],
            )
            &&& all_zero(
                links,
                group_start(index[i]) + group_bytes(groups[i]).len(),
                group_start(index[i + 1]),
            )
        }
    &&& index.len() == 0 ==> links.len() == 0
    &&& index.len() > 0 ==> links.len() == group_start(index.last()) + group_bytes(
        groups.last(),
    ).len()
}

pub open spec fn targets_sorted(index: Seq<RecordIndexEntry>) -> bool {
    forall|i: int, j: int|
        0 <= i < j < index.len() ==> record_lt(#[trigger] index[i].target, #[trigger] index[j].target)
}

/// What a reader needs of a store: targets strictly ascending, and each
/// entry's group of `count` sources where its position says.
pub open spec fn reader_ok(
    index: Seq<RecordIndexEntry>,
    links: Seq<u8>,
    groups: Seq<Seq<RecordId>>,
) -> bool {
    &&& targets_sorted(index)
    &&& index.len() == groups.len()
    &&& forall|i: int|
        0 <= i < index.len() ==> #[trigger] index[i].count == groups[i].len() && group_at(
            links,
            group_start(index[i]),
            groups[i],
        )
}

/// A store that a writer left can be read.
pub proof fn lemma_layout_sorted(index: Seq<RecordIndexEntry>, links: Seq<u8>, groups: Seq<Seq<RecordId>>)
    requires
        layout_ok(index, links, groups),
    ensures
        reader_ok(index, links, groups),
        forall|i: int| 0 <= i < index.len() ==> strictly_sorted(#[trigger] groups[i]),
        targets_sorted(index),
        index.len() == groups.len(),
        forall|i: int|
            0 <= i < index.len() ==> #[trigger] index[i].count == groups[i].len() && group_at(
                links,
                group_start(index[i]),
                groups[i],
            ),
{
    reveal(layout_ok);
    assert forall|i: int| 0 <= i < index.len() implies strictly_sorted(#[trigger] groups[i]) by {
        assert(index[i].count == groups[i].len());
    }
}

/// Whether `s` is strictly ascending.
fn is_strictly_sorted(s: &[RecordId]) -> (r: bool)
    ensures
        r == strictly_sorted(s@),
{
    let n = s.len();
    if n == 0 {
        return true;
    }
    let mut i: usize = 1;
    while i < n
        invariant
            n == s@.len(),
            1 <= i <= n,
            forall|a: int, b: int| 0 <= a < b < i ==> record_lt(s@[a], s@[b]),
        decreases n - i,
    {
        if !s[i - 1].lt(&s[i]) {
            return false;
        }
        proof {
            assert forall|a: int, b: int| 0 <= a < b < i + 1 implies record_lt(s@[a], s@[b]) by {
                if b == i && a < i - 1 {
                    assert(record_lt(s@[a], s@[i - 1]));
                }
            }
        }
        i = i + 1;
    }
    true
}

/// The sources that a store with these entries and groups holds for `t`.
pub open spec fn sources_for(
    index: Seq<RecordIndexEntry>,
    groups: Seq<Seq<RecordId>>,
    t: RecordId,
) -> Seq<RecordId> {
    if exists|i: int| 0 <= i < index.len() && #[trigger] index[i].target == t {
        groups[choose|i: int| 0 <= i < index.len() && #[trigger] index[i].target == t]
    } else {
        Seq::empty()
    }
}

proof fn lemma_concat_map_push(s: Seq<RecordId>, x: RecordId, f: spec_fn(RecordId) -> Seq<u8>)
    ensures
        concat_map(s.push(x), f) == concat_map(s, f) + f(x),
    decreases s.len(),
{
    if s.len() == 0 {
        assert(s.push(x).drop_first() == Seq::<RecordId>::empty());
        assert(concat_map(s.push(x), f) == f(x) + concat_map(Seq::<RecordId>::empty(), f));
    } else {
        assert(s.push(x).drop_first() == s.drop_first().push(x));
        lemma_concat_map_push(s.drop_first(), x, f);
        assert(s.push(x)[0] == s[0]);
    }
}

proof fn lemma_concat_map_len(s: Seq<RecordId>, f: spec_fn(RecordId) -> Seq<u8>, w: int)
    requires
        w >= 0,
        forall|x: RecordId| #[trigger] f(x).len() <= w,
    ensures
        concat_map(s, f).len() <= w * s.len(),
    decreases s.len(),
{
    if s.len() > 0 {
        lemma_concat_map_len(s.drop_first(), f, w);
        assert(w * s.len() == w + w * s.drop_first().len()) by (nonlinear_arith)
            requires
                s.len() == s.drop_first().len() + 1,
        ;
    }
}

/// A group takes at most 23 bytes per source: 8 for the rkey, at most 5 for
/// the collection and 10 for the did.
pub proof fn lemma_group_bytes_len(s: Seq<RecordId>)
    ensures
        group_bytes(s).len() <= 23 * s.len(),
{
    lemma_auto_spec_u64_to_from_le_bytes();
    assert forall|x: RecordId| #[trigger] rkey_enc(x).len() <= 8 by {}
    assert forall|x: RecordId| #[trigger] collection_enc(x).len() <= 5 by {
        lemma_leb128_len(x.collection as nat);
    }
    assert forall|x: RecordId| #[trigger] did_enc(x).len() <= 10 by {
        lemma_leb128_len(x.did as nat);
    }
    let fr = |r: RecordId| rkey_enc(r);
    let fc = |r: RecordId| collection_enc(r);
    let fd = |r: RecordId| did_enc(r);
    lemma_concat_map_len(s, fr, 8);
    lemma_concat_map_len(s, fc, 5);
    lemma_concat_map_len(s, fd, 10);
}

proof fn lemma_concat_map_step(s: Seq<RecordId>, i: int, f: spec_fn(RecordId) -> Seq<u8>)
    requires
        0 <= i < s.len(),
    ensures
        concat_map(s.subrange(i, s.len() as int), f) == f(s[i]) + concat_map(
            s.subrange(i + 1, s.len() as int),
            f,
        ),
{
    let t = s.subrange(i, s.len() as int);
    assert(t.drop_first() == s.subrange(i + 1, s.len() as int));
    assert(t[0] == s[i]);
}

proof fn lemma_rkey_column(s: Seq<RecordId>)
    ensures
        rkey_column(s).len() == 8 * s.len(),
        forall|i: int|
            0 <= i < s.len() ==> #[trigger] rkey_column(s).subrange(8 * i, 8 * i + 8)
                == rkey_enc(s[i]),
    decreases s.len(),
{
    lemma_auto_spec_u64_to_from_le_bytes();
    if s.len() > 0 {
        lemma_rkey_column(s.drop_first());
        let c = rkey_column(s);
        let d = rkey_column(s.drop_first());
        assert(c == rkey_enc(s[0]) + d);
        assert forall|i: int| 0 <= i < s.len() implies #[trigger] c.subrange(8 * i, 8 * i + 8)
            == rkey_enc(s[i]) by {
            if i > 0 {
                assert(c.subrange(8 * i, 8 * i + 8) == d.subrange(8 * (i - 1), 8 * (i - 1) + 8));
                assert(s.drop_first()[i - 1] == s[i]);
            }
        }
    }
}

/// Reads the `n` raw rkeys at `start`; gives them and the byte after them.
fn read_rkey_column(
    links: &[u8],
    start: usize,
    n: usize,
    Ghost(s): Ghost<Seq<RecordId>>,
    Ghost(valid): Ghost<bool>,
) -> (r: Option<(Vec<u64>, usize)>)
    requires
        start <= links@.len(),
        valid ==> group_at(links@, start as int, s) && s.len() == n,
    ensures
        r matches Some((_, q)) ==> q <= links@.len(),
        valid ==> (r matches Some((v, q)) && q == start + 8 * n && v@.len() == n && forall|k: int|
            0 <= k < n ==> v@[k] == #[trigger] s[k].rkey),
{
    let len = links.len();
    let ghost gb = group_bytes(s);
    proof {
        if valid {
            lemma_rkey_column(s);
        }
    }
    let mut rkeys: Vec<u64> = Vec::new();
    let mut q: usize = start;
    let mut i: usize = 0;
    while i < n
        invariant
            len == links@.len(),
            start <= q <= len,
            i <= n,
            valid ==> group_at(links@, start as int, s) && s.len() == n,
            gb == group_bytes(s),
            valid ==> rkey_column(s).len() == 8 * s.len(),
            valid ==> forall|k: int|
                0 <= k < s.len() ==> #[trigger] rkey_column(s).subrange(8 * k, 8 * k + 8)
                    == rkey_enc(s[k]),
            valid ==> q == start + 8 * i,
            valid ==> rkeys@.len() == i && forall|k: int|
                0 <= k < i ==> rkeys@[k] == #[trigger] s[k].rkey,
        decreases n - i,
    {
        if len - q < 8 {
            return None;
        }
        let v = u64_from_le_bytes(slice_subrange(links, q, q + 8));
        proof {
            if valid {
                let ii = i as int;
                let whole = links@.subrange(start as int, start + gb.len());
                assert(whole =~= gb);
                assert(links@.subrange(q as int, q + 8) =~= whole.subrange(8 * ii, 8 * ii + 8));
                assert(gb.subrange(8 * ii, 8 * ii + 8) =~= rkey_column(s).subrange(
                    8 * ii,
                    8 * ii + 8,
                ));
                assert(rkey_column(s).subrange(8 * ii, 8 * ii + 8) == rkey_enc(s[ii]));
                lemma_auto_spec_u64_to_from_le_bytes();
                assert(v == s[ii].rkey);
            }
        }
        rkeys.push(v);
        q = q + 8;
        i = i + 1;
    }
    Some((rkeys, q))
}

/// Reads `n` LEB128 collections at `q`, where (if `valid`) the bytes up to
/// `end` are the collection column of `s` then its did column.
fn read_collection_column(
    links: &[u8],
    q: usize,
    n: usize,
    Ghost(s): Ghost<Seq<RecordId>>,
    Ghost(valid): Ghost<bool>,
    Ghost(end): Ghost<int>,
) -> (r: Option<(Vec<u32>, usize)>)
    requires
        q <= links@.len(),
        valid ==> s.len() == n && q <= end <= links@.len() && links@.subrange(q as int, end)
            == collection_column(s) + did_column(s),
    ensures
        r matches Some((_, q2)) ==> q2 <= links@.len(),
        valid ==> (r matches Some((v, q2)) && q2 <= end && links@.subrange(q2 as int, end)
            == did_column(s) && v@.len() == n && forall|k: int|
            0 <= k < n ==> v@[k] == #[trigger] s[k].collection),
{
    let len = links.len();
    let mut out: Vec<u32> = Vec::new();
    let mut q = q;
    let mut i: usize = 0;
    proof {
        if valid {
            assert(s.subrange(0, s.len() as int) =~= s);
        }
    }
    while i < n
        invariant
            len == links@.len(),
            q <= len,
            i <= n,
            valid ==> s.len() == n && end <= len,
            valid ==> q <= end && links@.subrange(q as int, end) == collection_column(
                s.subrange(i as int, s.len() as int),
            ) + did_column(s),
            valid ==> out@.len() == i && forall|k: int|
                0 <= k < i ==> out@[k] == #[trigger] s[k].collection,
        decreases n - i,
    {
        let ghost pre = links@.subrange(q as int, len as int);
        let ghost q0 = q as int;
        let res = read_u32(links, q);
        let ghost e = collection_enc(s[i as int]);
        let ghost rest = collection_column(s.subrange(i + 1, s.len() as int)) + did_column(s);
        proof {
            if valid {
                lemma_concat_map_step(s, i as int, |r: RecordId| collection_enc(r));
                assert(links@.subrange(q as int, end) =~= e + rest);
                assert(pre.subrange(0, e.len() as int) =~= links@.subrange(q as int, end).subrange(
                    0,
                    e.len() as int,
                ));
                assert(pre.subrange(0, e.len() as int) =~= e);
                assert(crate::varint::decodes_to(pre, s[i as int].collection as nat, res));
            }
        }
        match res {
            Some((c, k)) => {
                if k > len - q {
                    return None;
                }
                out.push(c);
                q = q + k;
                proof {
                    if valid {
                        let whole = links@.subrange(q0, end);
                        assert(links@.subrange(q as int, end) =~= whole.subrange(
                            e.len() as int,
                            whole.len() as int,
                        ));
                        assert(whole.subrange(e.len() as int, whole.len() as int) =~= rest);
                    }
                }
            },
            None => {
                return None;
            },
        }
        i = i + 1;
    }
    proof {
        if valid {
            assert(s.subrange(n as int, s.len() as int) =~= Seq::<RecordId>::empty());
            assert(collection_column(Seq::<RecordId>::empty()) =~= Seq::<u8>::empty());
            assert(links@.subrange(q as int, end) =~= did_column(s));
        }
    }
    Some((out, q))
}

/// Reads `n` LEB128 dids at `q`, where (if `valid`) the bytes up to `end`
/// are the did column of `s`.
fn read_did_column(
    links: &[u8],
    q: usize,
    n: usize,
    Ghost(s): Ghost<Seq<RecordId>>,
    Ghost(valid): Ghost<bool>,
    Ghost(end): Ghost<int>,
) -> (r: Option<Vec<u64>>)
    requires
        q <= links@.len(),
        valid ==> s.len() == n && q <= end <= links@.len() && links@.subrange(q as int, end)
            == did_column(s),
    ensures
        valid ==> (r matches Some(v) && v@.len() == n && forall|k: int|
            0 <= k < n ==> v@[k] == #[trigger] s[k].did),
{
    let len = links.len();
    let mut out: Vec<u64> = Vec::new();
    let mut q = q;
    let mut i: usize = 0;
    proof {
        if valid {
            assert(s.subrange(0, s.len() as int) =~= s);
        }
    }
    while i < n
        invariant
            len == links@.len(),
            q <= len,
            i <= n,
            valid ==> s.len() == n && end <= len,
            valid ==> q <= end && links@.subrange(q as int, end) == did_column(
                s.subrange(i as int, s.len() as int),
            ),
            valid ==> out@.len() == i && forall|k: int|
                0 <= k < i ==> out@[k] == #[trigger] s[k].did,
        decreases n - i,
    {
        let ghost pre = links@.subrange(q as int, len as int);
        let ghost q0 = q as int;
        let res = read_u64(links, q);
        let ghost e = did_enc(s[i as int]);
        let ghost rest = did_column(s.subrange(i + 1, s.len() as int));
        proof {
            if valid {
                lemma_concat_map_step(s, i as int, |r: RecordId| did_enc(r));
                assert(links@.subrange(q as int, end) =~= e + rest);
                assert(pre.subrange(0, e.len() as int) =~= links@.subrange(q as int, end).subrange(
                    0,
                    e.len() as int,
                ));
                assert(pre.subrange(0, e.len() as int) =~= e);
                assert(crate::varint::decodes_to(pre, s[i as int].did as nat, res));
            }
        }
        match res {
            Some((d, k)) => {
                if k > len - q {
                    return None;
                }
                out.push(d);
                q = q + k;
                proof {
                    if valid {
                        let whole = links@.subrange(q0, end);
                        assert(links@.subrange(q as int, end) =~= whole.subrange(
                            e.len() as int,
                            whole.len() as int,
                        ));
                        assert(whole.subrange(e.len() as int, whole.len() as int) =~= rest);
                    }
                }
            },
            None => {
                return None;
            },
        }
        i = i + 1;
    }
    Some(out)
}

/// Reads the `count` sources of the group that starts at byte `start`.
fn decode_group(
    links: &[u8],
    start: usize,
    count: u32,
    Ghost(s): Ghost<Seq<RecordId>>,
    Ghost(valid): Ghost<bool>,
) -> (r: Result<Vec<RecordId>, CompactError>)
    requires
        valid ==> group_at(links@, start as int, s) && s.len() == count,
    ensures
        valid ==> (r matches Ok(v) && v@ == s),
{
    let len = links.len();
    if start > len {
        return Err(CompactError::Corrupt);
    }
    let n = count as usize;
    let ghost gb = group_bytes(s);
    let ghost end = start + gb.len();
    let (rkeys, q) = match read_rkey_column(links, start, n, Ghost(s), Ghost(valid)) {
        Some(p) => p,
        None => {
            return Err(CompactError::Corrupt);
        },
    };
    proof {
        if valid {
            lemma_rkey_column(s);
            let whole = links@.subrange(start as int, end);
            assert(whole =~= gb);
            assert(links@.subrange(q as int, end) =~= whole.subrange(
                8 * n as int,
                whole.len() as int,
            ));
            assert(gb.subrange(8 * n as int, gb.len() as int) =~= collection_column(s)
                + did_column(s));
        }
    }
    let (collections, q) = match read_collection_column(
        links,
        q,
        n,
        Ghost(s),
        Ghost(valid),
        Ghost(end),
    ) {
        Some(p) => p,
        None => {
            return Err(CompactError::Corrupt);
        },
    };
    let dids = match read_did_column(links, q, n, Ghost(s), Ghost(valid), Ghost(end)) {
        Some(v) => v,
        None => {
            return Err(CompactError::Corrupt);
        },
    };
    if rkeys.len() != n || collections.len() != n || dids.len() != n {
        return Err(CompactError::Corrupt);
    }
    let mut out: Vec<RecordId> = Vec::new();
    let mut i: usize = 0;
    while i < n
        invariant
            i <= n,
            rkeys@.len() == n,
            collections@.len() == n,
            dids@.len() == n,
            valid ==> s.len() == n,
            valid ==> forall|k: int| 0 <= k < n ==> rkeys@[k] == #[trigger] s[k].rkey,
            valid ==> forall|k: int| 0 <= k < n ==> collections@[k] == #[trigger] s[k].collection,
            valid ==> forall|k: int| 0 <= k < n ==> dids@[k] == #[trigger] s[k].did,
            valid ==> out@ =~= s.subrange(0, i as int),
        decreases n - i,
    {
        let rec = RecordId::new(dids[i], collections[i], rkeys[i]);
        proof {
            if valid {
                let ii = i as int;
                assert(rec.rkey == s[ii].rkey && rec.collection == s[ii].collection && rec.did
                    == s[ii].did);
                assert(rec == s[ii]);
            }
        }
        out.push(rec);
        i = i + 1;
    }
    proof {
        if valid {
            assert(s.subrange(0, n as int) =~= s);
        }
    }
    Ok(out)
}

/// Appending a group after the last one keeps the layout.
#[verifier::rlimit(60)]
proof fn lemma_append_group(
    old_index: Seq<RecordIndexEntry>,
    old_links: Seq<u8>,
    old_groups: Seq<Seq<RecordId>>,
    entry: RecordIndexEntry,
    sources: Seq<RecordId>,
    zeros: Seq<u8>,
    links: Seq<u8>,
)
    requires
        layout_ok(old_index, old_links, old_groups),
        group_start(entry) == old_links.len() + zeros.len(),
        all_zero(zeros, 0, zeros.len() as int),
        entry.count == sources.len(),
        strictly_sorted(sources),
        old_index.len() > 0 ==> record_lt(old_index.last().target, entry.target),
        links == old_links + zeros + group_bytes(sources),
    ensures
        layout_ok(old_index.push(entry), links, old_groups.push(sources)),
{
        reveal(layout_ok);
        let gb = group_bytes(sources);
        assert(links =~= old_links + zeros + gb);
        assert(group_start(entry) == group_start(entry));
        assert(links.subrange(group_start(entry) as int, group_start(entry) + gb.len()) =~= gb);
        let idx = old_index.push(entry);
        let gs = old_groups.push(sources);
        assert forall|k: int| 0 <= k < idx.len() implies {
            &&& #[trigger] idx[k].count == gs[k].len()
            &&& group_at(links, group_start(idx[k]), gs[k])
            &&& strictly_sorted(gs[k])
        } by {
            if k < old_index.len() {
                assert(idx[k] == old_index[k]);
                assert(gs[k] == old_groups[k]);
                assert(old_index[k].count == old_groups[k].len());
                let st = group_start(idx[k]);
                let l = group_bytes(gs[k]).len();
                assert(group_at(old_links, st, gs[k]));
                assert(links.subrange(st, st + l) =~= old_links.subrange(st, st + l));
            } else {
                assert(idx[k] == entry);
                assert(gs[k] == sources);
            }
        }
        assert forall|a: int, b: int| 0 <= a < b < idx.len() implies record_lt(
            #[trigger] idx[a].target,
            #[trigger] idx[b].target,
        ) by {
            if b < old_index.len() {
                assert(idx[a] == old_index[a] && idx[b] == old_index[b]);
            } else {
                assert(idx[a] == old_index[a]);
                assert(idx[b] == entry);
                if a < old_index.len() - 1 {
                    assert(record_lt(old_index[a].target, old_index[old_index.len() - 1].target));
                }
            }
        }
        assert forall|a: int, b: int| 0 <= a < b < idx.len() implies #[trigger] idx[a].position
            <= #[trigger] idx[b].position by {
            if b < old_index.len() {
                assert(idx[a] == old_index[a] && idx[b] == old_index[b]);
            } else {
                assert(idx[a] == old_index[a]);
                let last = old_index.last();
                assert(group_start(last) <= old_links.len());
                if a < old_index.len() - 1 {
                    assert(old_index[a].position <= last.position);
                }
            }
        }
        assert forall|a: int| 0 <= a && a + 1 < idx.len() implies {
            &&& group_start(#[trigger] idx[a]) + group_bytes(gs[a]).len() <= group_start(
                idx[a + 1],
            )
            &&& all_zero(
                links,
                group_start(idx[a]) + group_bytes(gs[a]).len(),
                group_start(idx[a + 1]),
            )
        } by {
            assert(idx[a] == old_index[a]);
            assert(gs[a] == old_groups[a]);
            if a + 1 < old_index.len() {
                assert(idx[a + 1] == old_index[a + 1]);
                let from = group_start(idx[a]) + group_bytes(gs[a]).len();
                let to = group_start(idx[a + 1]);
                assert(group_start(old_index[a]) + group_bytes(old_groups[a]).len()
                    <= group_start(old_index[a + 1]));
                assert(all_zero(old_links, from, to));
                assert forall|k: int| from <= k < to implies links[k] == 0 by {
                    assert(links[k] == old_links[k]);
                }
            } else {
                assert(idx[a + 1] == entry);
                assert(a == old_index.len() - 1);
                assert(idx[a] == old_index.last());
                assert(gs[a] == old_groups.last());
                assert forall|k: int| old_links.len() <= k < group_start(entry) implies links[k] == 0 by {
                    assert(links[k] == zeros[k - old_links.len()]);
                }
            }
        }
        assert(idx.last() == entry);
        assert(gs.last() == sources);
}

/// Appends groups of sources, target by target in ascending order.
pub struct CompactedStorageWriter {
    index: Vec<RecordIndexEntry>,
    links: Vec<u8>,
    groups: Ghost<Seq<Seq<RecordId>>>,
}

impl CompactedStorageWriter {
    pub closed spec fn entries(&self) -> Seq<RecordIndexEntry> {
        self.index@
    }

    pub closed spec fn links(&self) -> Seq<u8> {
        self.links@
    }

    /// The sources of each entry, in entry order.
    pub closed spec fn groups(&self) -> Seq<Seq<RecordId>> {
        self.groups@
    }

    pub open spec fn wf(&self) -> bool {
        layout_ok(self.entries(), self.links(), self.groups())
    }

    /// The sources that the store holds for `t`.
    pub open spec fn backlinks(&self, t: RecordId) -> Seq<RecordId> {
        sources_for(self.entries(), self.groups(), t)
    }

    /// An empty store.
    pub fn new() -> (r: CompactedStorageWriter)
        ensures
            r.wf(),
            r.entries().len() == 0,
            r.groups().len() == 0,
            r.links().len() == 0,
    {
        proof {
            reveal(layout_ok);
        }
        CompactedStorageWriter { index: Vec::new(), links: Vec::new(), groups: Ghost(Seq::empty()) }
    }

    /// Appends the group of `sources` for `target`: zeros up to the next
    /// multiple of `POS_ALIGN`, the raw rkeys, the collections, the dids.
    pub fn log_backlinks(&mut self, target: &RecordId, sources: &[RecordId]) -> (r: Result<
        (),
        CompactError,
    >)
        requires
            old(self).wf(),
        ensures
            final(self).wf(),
            (r == Err::<(), CompactError>(CompactError::OutOfOrder)) <==> (old(self).entries().len()
                > 0 && !record_lt(old(self).entries().last().target, *target)),
            (r == Err::<(), CompactError>(CompactError::Unsorted)) <==> (!(old(
                self,
            ).entries().len() > 0 && !record_lt(old(self).entries().last().target, *target))
                && !strictly_sorted(sources@)),
            (r == Err::<(), CompactError>(CompactError::TooMany)) <==> (!(old(
                self,
            ).entries().len() > 0 && !record_lt(old(self).entries().last().target, *target))
                && strictly_sorted(sources@) && sources@.len() > u32::MAX),
            (r == Err::<(), CompactError>(CompactError::TooLarge)) <==> (!(old(
                self,
            ).entries().len() > 0 && !record_lt(old(self).entries().last().target, *target))
                && strictly_sorted(sources@) && sources@.len() <= u32::MAX && old(
                self,
            ).links().len() > u32::MAX as int * 32),
            r != Err::<(), CompactError>(CompactError::Corrupt),
            r is Err ==> *final(self) == *old(self),
            r is Ok ==> {
                &&& final(self).entries() == old(self).entries().push(
                    RecordIndexEntry {
                        target: *target,
                        count: sources@.len() as u32,
                        position: (padded(old(self).links().len() as int) / 32) as u32,
                    },
                )
                &&& final(self).groups() == old(self).groups().push(sources@)
                &&& final(self).links() == old(self).links() + Seq::new(
                    (padded(old(self).links().len() as int) - old(self).links().len()) as nat,
                    |k: int| 0u8,
                ) + group_bytes(sources@)
            },
    {
        let n_idx = self.index.len();
        if n_idx > 0 && !self.index[n_idx - 1].target.lt(target) {
            return Err(CompactError::OutOfOrder);
        }
        if !is_strictly_sorted(sources) {
            return Err(CompactError::Unsorted);
        }
        let n = sources.len();
        if n > u32::MAX as usize {
            return Err(CompactError::TooMany);
        }
        let old_len = self.links.len();
        if old_len as u64 > 0x1F_FFFF_FFE0u64 {
            return Err(CompactError::TooLarge);
        }
        let ghost old_links = self.links@;
        let ghost old_index = self.index@;
        let ghost old_groups = self.groups@;
        while self.links.len() % 32 != 0
            invariant
                old_len == old_links.len(),
                old_len as u64 <= 0x1F_FFFF_FFE0u64,
                self.links@.len() >= old_len,
                self.links@.len() <= padded(old_len as int),
                self.links@ =~= old_links + Seq::new(
                    (self.links@.len() - old_len) as nat,
                    |k: int| 0u8,
                ),
                self.links@.len() % 32 != 0 ==> self.links@.len() < padded(old_len as int),
                self.index@ == old_index,
                self.groups@ == old_groups,
            decreases padded(old_len as int) - self.links@.len(),
        {
            self.links.push(0);
        }
        let base = self.links.len();
        assert(base == padded(old_len as int));
        let ghost zeros = Seq::new((base - old_len) as nat, |k: int| 0u8);
        assert(all_zero(zeros, 0, zeros.len() as int));
        assert((base as int / 32) * 32 == base as int) by (nonlinear_arith)
            requires
                base % 32 == 0,
        ;
        let position = (base / 32) as u32;
        let mut i: usize = 0;
        while i < n
            invariant
                n == sources@.len(),
                i <= n,
                self.links@ =~= old_links + zeros + rkey_column(sources@.subrange(0, i as int)),
                self.index@ == old_index,
                self.groups@ == old_groups,
            decreases n - i,
        {
            proof {
                lemma_concat_map_push(
                    sources@.subrange(0, i as int),
                    sources@[i as int],
                    |r: RecordId| rkey_enc(r),
                );
                assert(sources@.subrange(0, i as int).push(sources@[i as int]) =~= sources@.subrange(
                    0,
                    i + 1,
                ));
            }
            let mut b = u64_to_le_bytes(sources[i].rkey);
            self.links.append(&mut b);
            i = i + 1;
        }
        assert(sources@.subrange(0, n as int) =~= sources@);
        let ghost after_rkeys = self.links@;
        let mut i: usize = 0;
        proof {
            assert(sources@.subrange(0, 0) =~= Seq::<RecordId>::empty());
        }
        while i < n
            invariant
                n == sources@.len(),
                i <= n,
                self.links@ =~= after_rkeys + collection_column(sources@.subrange(0, i as int)),
                self.index@ == old_index,
                self.groups@ == old_groups,
            decreases n - i,
        {
            proof {
                lemma_concat_map_push(
                    sources@.subrange(0, i as int),
                    sources@[i as int],
                    |r: RecordId| collection_enc(r),
                );
                assert(sources@.subrange(0, i as int).push(sources@[i as int]) =~= sources@.subrange(
                    0,
                    i + 1,
                ));
            }
            write_u32(&mut self.links, sources[i].collection);
            i = i + 1;
        }
        let ghost after_colls = self.links@;
        let mut i: usize = 0;
        while i < n
            invariant
                n == sources@.len(),
                i <= n,
                self.links@ =~= after_colls + did_column(sources@.subrange(0, i as int)),
                self.index@ == old_index,
                self.groups@ == old_groups,
            decreases n - i,
        {
            proof {
                lemma_concat_map_push(
                    sources@.subrange(0, i as int),
                    sources@[i as int],
                    |r: RecordId| did_enc(r),
                );
                assert(sources@.subrange(0, i as int).push(sources@[i as int]) =~= sources@.subrange(
                    0,
                    i + 1,
                ));
            }
            write_u64(&mut self.links, sources[i].did);
            i = i + 1;
        }
        let entry = RecordIndexEntry { target: *target, count: n as u32, position };
        self.index.push(entry);
        self.groups = Ghost(old_groups.push(sources@));
        proof {
            assert(sources@.subrange(0, n as int) =~= sources@);
            assert(self.links@ =~= old_links + zeros + group_bytes(sources@));
            lemma_append_group(old_index, old_links, old_groups, entry, sources@, zeros, self.links@);
        }
        Ok(())
    }

    /// The `index.dat` header.
    pub fn header(&self) -> (r: RecordIndexHeader)
        ensures
            r.num_entries == self.entries().len(),
    {
        RecordIndexHeader { num_entries: self.index.len() as u64 }
    }

    /// The bytes of `links.dat`.
    pub fn links_bytes(&self) -> (r: &Vec<u8>)
        ensures
            r@ == self.links(),
    {
        &self.links
    }

    /// The entries of `index.dat`, in order.
    pub fn index_entries(&self) -> (r: &Vec<RecordIndexEntry>)
        ensures
            r@ == self.entries(),
    {
        &self.index
    }

    /// Finishes writing and opens the result for reading.
    pub fn into_reader(self) -> (r: CompactedStorageReader)
        requires
            self.wf(),
        ensures
            r.wf(),
            r.entries() == self.entries(),
            r.groups() == self.groups(),
            r.links() == self.links(),
    {
        proof {
            lemma_layout_sorted(self.index@, self.links@, self.groups@);
        }
        CompactedStorageReader { index: self.index, links: self.links, groups: self.groups }
    }
}

/// Reads the groups of a compacted store.
pub struct CompactedStorageReader {
    index: Vec<RecordIndexEntry>,
    links: Vec<u8>,
    groups: Ghost<Seq<Seq<RecordId>>>,
}

impl CompactedStorageReader {
    pub closed spec fn entries(&self) -> Seq<RecordIndexEntry> {
        self.index@
    }

    pub closed spec fn links(&self) -> Seq<u8> {
        self.links@
    }

    pub closed spec fn groups(&self) -> Seq<Seq<RecordId>> {
        self.groups@
    }

    /// The bytes are those that a writer produced for `groups()`.
    pub open spec fn wf(&self) -> bool {
        reader_ok(self.entries(), self.links(), self.groups())
    }

    pub open spec fn backlinks(&self, t: RecordId) -> Seq<RecordId> {
        sources_for(self.entries(), self.groups(), t)
    }

    /// Binary search for the entry of `target`.
    pub fn find_index_entry(&self, target: &RecordId) -> (r: Option<usize>)
        ensures
            r matches Some(i) ==> i < self.entries().len() && self.entries()[i as int].target
                == *target,
            targets_sorted(self.entries()) ==> (r is None <==> !exists|i: int|
                0 <= i < self.entries().len() && #[trigger] self.entries()[i].target == *target),
    {
        let ghost sorted = targets_sorted(self.index@);
        let mut lo: usize = 0;
        let mut hi: usize = self.index.len();
        while lo < hi
            invariant
                lo <= hi <= self.index@.len(),
                sorted == targets_sorted(self.index@),
                sorted ==> forall|k: int|
                    0 <= k < lo ==> record_lt(#[trigger] self.index@[k].target, *target),
                sorted ==> forall|k: int|
                    hi <= k < self.index@.len() ==> record_lt(
                        *target,
                        #[trigger] self.index@[k].target,
                    ),
            decreases hi - lo,
        {
            let mid = lo + (hi - lo) / 2;
            let e = self.index[mid];
            if e.target == *target {
                return Some(mid);
            }
            if e.target.lt(target) {
                proof {
                    if sorted {
                        assert forall|k: int| 0 <= k < mid + 1 implies record_lt(
                            #[trigger] self.index@[k].target,
                            *target,
                        ) by {
                            if k < mid {
                                assert(record_lt(self.index@[k].target, self.index@[mid as int].target));
                            }
                        }
                    }
                }
                lo = mid + 1;
            } else {
                proof {
                    if sorted {
                        assert forall|k: int| mid <= k < self.index@.len() implies record_lt(
                            *target,
                            #[trigger] self.index@[k].target,
                        ) by {
                            if k > mid {
                                assert(record_lt(self.index@[mid as int].target, self.index@[k].target));
                            }
                        }
                    }
                }
                hi = mid;
            }
        }
        None
    }

    /// Adds the sources of `target` to `out`.
    pub fn read_backlinks(&self, target: &RecordId, out: &mut Vec<RecordId>) -> (r: Result<
        (),
        CompactError,
    >)
        ensures
            self.wf() ==> r is Ok && final(out)@ == old(out)@ + self.backlinks(*target),
            r is Err ==> final(out)@ == old(out)@,
    {
        let links_len = self.links.len();
        proof {
            if self.wf() {
            }
        }
        let i = match self.find_index_entry(target) {
            Some(i) => i,
            None => {
                proof {
                    if self.wf() {
                        assert(old(out)@ + self.backlinks(*target) =~= old(out)@);
                    }
                }
                return Ok(());
            },
        };
        let e = self.index[i];
        let ghost valid = self.wf();
        let ghost s = if valid {
            self.groups@[i as int]
        } else {
            Seq::empty()
        };
        proof {
            if valid {
                let j = choose|j: int|
                    0 <= j < self.index@.len() && #[trigger] self.index@[j].target == *target;
                if j != i {
                    if j < i {
                        assert(record_lt(self.index@[j].target, self.index@[i as int].target));
                    } else {
                        assert(record_lt(self.index@[i as int].target, self.index@[j].target));
                    }
                }
            }
        }
        proof {
            if valid {
                assert(self.index@[i as int].count == self.groups@[i as int].len());
                assert(group_at(self.links@, group_start(e), s));
                assert(e.position as int * 32 <= links_len);
                assert(e.position as int <= usize::MAX / 32) by (nonlinear_arith)
                    requires
                        e.position as int * 32 <= links_len,
                        links_len <= usize::MAX,
                ;
            }
        }
        if e.position as usize > usize::MAX / POS_ALIGN {
            return Err(CompactError::Corrupt);
        }
        let start = e.position as usize * POS_ALIGN;
        let mut group = decode_group(self.links.as_slice(), start, e.count, Ghost(s), Ghost(valid))?;
        out.append(&mut group);
        Ok(())
    }
}

/// In a compacted store that a writer produced, targets strictly increase,
/// positions never decrease, and the bytes between successive groups are zero.
pub proof fn lemma_compacted_ordering(r: &CompactedStorageWriter)
    requires
        r.wf(),
    ensures
        forall|i: int, j: int|
            0 <= i < j < r.entries().len() ==> record_lt(
                #[trigger] r.entries()[i].target,
                #[trigger] r.entries()[j].target,
            ),
        forall|i: int, j: int|
            0 <= i < j < r.entries().len() ==> #[trigger] r.entries()[i].position
                <= #[trigger] r.entries()[j].position,
        forall|i: int|
            0 <= i && i + 1 < r.entries().len() ==> all_zero(
                r.links(),
                group_start(#[trigger] r.entries()[i]) + group_bytes(r.groups()[i]).len(),
                group_start(r.entries()[i + 1]),
            ),
{
    reveal(layout_ok);
}

/// The 32 bytes of a compacted index entry: target, count, position.
pub open spec fn comp_entry_bytes(e: RecordIndexEntry) -> Seq<u8> {
    record_bytes(e.target) + spec_u32_to_le_bytes(e.count) + spec_u32_to_le_bytes(e.position)
}

pub open spec fn comp_entry_from_bytes(b: Seq<u8>) -> RecordIndexEntry {
    RecordIndexEntry {
        target: crate::record::record_from_bytes(b.subrange(0, 24)),
        count: vstd::bytes::spec_u32_from_le_bytes(b.subrange(24, 28)),
        position: vstd::bytes::spec_u32_from_le_bytes(b.subrange(28, 32)),
    }
}

/// The entries written one after another.
pub open spec fn comp_entries_bytes(s: Seq<RecordIndexEntry>) -> Seq<u8>
    decreases s.len(),
{
    if s.len() == 0 {
        Seq::empty()
    } else {
        comp_entries_bytes(s.drop_last()) + comp_entry_bytes(s.last())
    }
}

/// `index.dat`: a 32-byte header holding the entry count, then the entries.
pub open spec fn comp_index_file(entries: Seq<RecordIndexEntry>) -> Seq<u8> {
    spec_u64_to_le_bytes(entries.len() as u64) + Seq::new(24, |i: int| 0u8) + comp_entries_bytes(
        entries,
    )
}

proof fn lemma_comp_entry_bytes(e: RecordIndexEntry)
    ensures
        comp_entry_bytes(e).len() == 32,
        comp_entry_from_bytes(comp_entry_bytes(e)) == e,
{
    lemma_record_bytes(e.target);
    lemma_auto_spec_u32_to_from_le_bytes();
    let b = comp_entry_bytes(e);
    assert(b.subrange(0, 24) =~= record_bytes(e.target));
    assert(b.subrange(24, 28) =~= spec_u32_to_le_bytes(e.count));
    assert(b.subrange(28, 32) =~= spec_u32_to_le_bytes(e.position));
}

proof fn lemma_comp_entries_bytes(s: Seq<RecordIndexEntry>)
    ensures
        comp_entries_bytes(s).len() == 32 * s.len(),
        forall|i: int|
            0 <= i < s.len() ==> comp_entry_from_bytes(
                #[trigger] comp_entries_bytes(s).subrange(32 * i, 32 * i + 32),
            ) == s[i],
    decreases s.len(),
{
    if s.len() > 0 {
        let p = s.drop_last();
        lemma_comp_entries_bytes(p);
        lemma_comp_entry_bytes(s.last());
        let c = comp_entries_bytes(s);
        let d = comp_entries_bytes(p);
        assert forall|i: int| 0 <= i < s.len() implies comp_entry_from_bytes(
            #[trigger] c.subrange(32 * i, 32 * i + 32),
        ) == s[i] by {
            if i < p.len() {
                assert(c.subrange(32 * i, 32 * i + 32) =~= d.subrange(32 * i, 32 * i + 32));
                assert(p[i] == s[i]);
            } else {
                assert(c.subrange(32 * i, 32 * i + 32) =~= comp_entry_bytes(s.last()));
            }
        }
    }
}

impl CompactedStorageWriter {
    /// The bytes of `index.dat`.
    pub fn index_file_bytes(&self) -> (r: Vec<u8>)
        ensures
            r@ == comp_index_file(self.entries()),
    {
        let n = self.index.len();
        let mut out = u64_to_le_bytes(n as u64);
        let mut k: usize = 0;
        while k < 24
            invariant
                k <= 24,
                out@ == spec_u64_to_le_bytes(n as u64) + Seq::new(k as nat, |i: int| 0u8),
            decreases 24 - k,
        {
            out.push(0);
            proof {
                assert(out@ =~= spec_u64_to_le_bytes(n as u64) + Seq::new(
                    (k + 1) as nat,
                    |i: int| 0u8,
                ));
            }
            k = k + 1;
        }
        let ghost head = out@;
        let mut i: usize = 0;
        proof {
            assert(self.index@.subrange(0, 0) =~= Seq::<RecordIndexEntry>::empty());
        }
        while i < n
            invariant
                n == self.index@.len(),
                i <= n,
                out@ == head + comp_entries_bytes(self.index@.subrange(0, i as int)),
            decreases n - i,
        {
            let e = self.index[i];
            e.target.write_bytes(&mut out);
            let mut c = u32_to_le_bytes(e.count);
            let mut p = u32_to_le_bytes(e.position);
            out.append(&mut c);
            out.append(&mut p);
            proof {
                let pre = self.index@.subrange(0, i as int);
                let post = self.index@.subrange(0, i + 1);
                assert(post.drop_last() =~= pre);
                assert(post.last() == e);
                assert(out@ =~= head + comp_entries_bytes(post));
            }
            i = i + 1;
        }
        proof {
            assert(self.index@.subrange(0, n as int) =~= self.index@);
        }
        out
    }
}

pub open spec fn positions_ordered(index: Seq<RecordIndexEntry>) -> bool {
    forall|i: int, j: int| 0 <= i < j < index.len() ==> #[trigger] index[i].position <= #[trigger] index[j].position
}

/// Whether entries read from disk are in the order a writer leaves them:
/// targets strictly ascending, positions never decreasing.
pub fn check_index_order(entries: &Vec<RecordIndexEntry>) -> (r: bool)
    ensures
        r == (targets_sorted(entries@) && positions_ordered(entries@)),
{
    let n = entries.len();
    if n == 0 {
        return true;
    }
    let mut i: usize = 1;
    while i < n
        invariant
            n == entries@.len(),
            1 <= i <= n,
            targets_sorted(entries@.subrange(0, i as int)),
            positions_ordered(entries@.subrange(0, i as int)),
        decreases n - i,
    {
        let a = entries[i - 1];
        let b = entries[i];
        if !a.target.lt(&b.target) || a.position > b.position {
            proof {
                let ii = i as int;
                if !record_lt(a.target, b.target) {
                    assert(!targets_sorted(entries@)) by {
                        assert(entries@[ii - 1] == a && entries@[ii] == b);
                    }
                } else {
                    assert(!positions_ordered(entries@)) by {
                        assert(entries@[ii - 1] == a && entries@[ii] == b);
                    }
                }
            }
            return false;
        }
        proof {
            let pre = entries@.subrange(0, i as int);
            let post = entries@.subrange(0, i + 1);
            assert forall|x: int, y: int| 0 <= x < y < post.len() implies record_lt(
                #[trigger] post[x].target,
                #[trigger] post[y].target,
            ) by {
                if y < i {
                    assert(post[x] == pre[x] && post[y] == pre[y]);
                } else if x < i - 1 {
                    assert(post[x] == pre[x] && pre[i - 1] == a);
                    assert(record_lt(pre[x].target, pre[i - 1].target));
                }
            }
            assert forall|x: int, y: int| 0 <= x < y < post.len() implies #[trigger] post[x].position
                <= #[trigger] post[y].position by {
                if y < i {
                    assert(post[x] == pre[x] && post[y] == pre[y]);
                } else if x < i - 1 {
                    assert(post[x] == pre[x] && pre[i - 1] == a);
                    assert(pre[x].position <= pre[i - 1].position);
                }
            }
        }
        i = i + 1;
    }
    proof {
        assert(entries@.subrange(0, n as int) =~= entries@);
    }
    true
}

/// Reads the entries of a compacted `index.dat`: as many as the header counts,
/// or `Corrupt` when the file is shorter than that.
pub fn parse_index(index: &[u8]) -> (r: Result<Vec<RecordIndexEntry>, CompactError>)
    ensures
        forall|e: Seq<RecordIndexEntry>| #[trigger] comp_index_file(e) == index@ ==> (r matches Ok(
            v,
        ) && v@ == e),
        r matches Ok(v) ==> forall|i: int|
            0 <= i < v@.len() ==> v@[i] == comp_entry_from_bytes(
                #[trigger] index@.subrange(32 + 32 * i, 32 + 32 * i + 32),
            ),
{
    let len = index.len();
    if len < INDEX_HEADER_SIZE {
        proof {
            assert forall|e: Seq<RecordIndexEntry>| #[trigger] comp_index_file(e) == index@
                implies false by {
                lemma_auto_spec_u64_to_from_le_bytes();
                assert(comp_index_file(e).len() >= 32);
            }
        }
        return Err(CompactError::Corrupt);
    }
    let num = u64_from_le_bytes(slice_subrange(index, 0, 8));
    if num > ((len - INDEX_HEADER_SIZE) / INDEX_ENTRY_SIZE) as u64 {
        proof {
            assert forall|e: Seq<RecordIndexEntry>| #[trigger] comp_index_file(e) == index@
                implies false by {
                lemma_auto_spec_u64_to_from_le_bytes();
                lemma_comp_entries_bytes(e);
                assert(index@.subrange(0, 8) =~= spec_u64_to_le_bytes(e.len() as u64));
                assert(len == 32 + 32 * e.len());
                assert((len - 32) / 32 == e.len()) by (nonlinear_arith)
                    requires
                        len == 32 + 32 * e.len(),
                ;
            }
        }
        return Err(CompactError::Corrupt);
    }
    let n = num as usize;
    let mut out: Vec<RecordIndexEntry> = Vec::new();
    let mut i: usize = 0;
    while i < n
        invariant
            len == index@.len(),
            len >= 32,
            n <= (len - 32) / 32,
            i <= n,
            out@.len() == i,
            forall|j: int|
                0 <= j < i ==> out@[j] == comp_entry_from_bytes(
                    #[trigger] index@.subrange(32 + 32 * j, 32 + 32 * j + 32),
                ),
        decreases n - i,
    {
        assert(32 + 32 * i + 32 <= len) by (nonlinear_arith)
            requires
                i < n,
                n <= (len - 32) / 32,
                len >= 32,
        ;
        let pos = 32 + 32 * i;
        let target = RecordId::read_bytes(index, pos);
        let count = u32_from_le_bytes(slice_subrange(index, pos + 24, pos + 28));
        let position = u32_from_le_bytes(slice_subrange(index, pos + 28, pos + 32));
        proof {
            let sb = index@.subrange(pos as int, pos + 32);
            assert(sb.subrange(0, 24) =~= index@.subrange(pos as int, pos + 24));
            assert(sb.subrange(24, 28) =~= index@.subrange(pos + 24, pos + 28));
            assert(sb.subrange(28, 32) =~= index@.subrange(pos + 28, pos + 32));
        }
        out.push(RecordIndexEntry { target, count, position });
        i = i + 1;
    }
    proof {
        assert forall|e: Seq<RecordIndexEntry>| #[trigger] comp_index_file(e) == index@ implies out@
            == e by {
            lemma_auto_spec_u64_to_from_le_bytes();
            lemma_comp_entries_bytes(e);
            assert(index@.subrange(0, 8) =~= spec_u64_to_le_bytes(e.len() as u64));
            assert(num == e.len());
            let cb = comp_entries_bytes(e);
            assert forall|j: int| 0 <= j < e.len() implies out@[j] == e[j] by {
                assert(index@.subrange(32 + 32 * j, 32 + 32 * j + 32) =~= cb.subrange(
                    32 * j,
                    32 * j + 32,
                ));
            }
            assert(out@ =~= e);
        }
    }
    Ok(out)
}

/// The bytes of the group of `g`.
fn encode_group(g: &[RecordId]) -> (r: Vec<u8>)
    ensures
        r@ == group_bytes(g@),
{
    let n = g.len();
    let mut out: Vec<u8> = Vec::new();
    let mut i: usize = 0;
    proof {
        assert(g@.subrange(0, 0) =~= Seq::<RecordId>::empty());
    }
    while i < n
        invariant
            n == g@.len(),
            i <= n,
            out@ =~= rkey_column(g@.subrange(0, i as int)),
        decreases n - i,
    {
        proof {
            lemma_concat_map_push(g@.subrange(0, i as int), g@[i as int], |r: RecordId| rkey_enc(r));
            assert(g@.subrange(0, i as int).push(g@[i as int]) =~= g@.subrange(0, i + 1));
        }
        let mut b = u64_to_le_bytes(g[i].rkey);
        out.append(&mut b);
        i = i + 1;
    }
    assert(g@.subrange(0, n as int) =~= g@);
    let ghost after_rkeys = out@;
    let mut i: usize = 0;
    while i < n
        invariant
            n == g@.len(),
            i <= n,
            out@ =~= after_rkeys + collection_column(g@.subrange(0, i as int)),
        decreases n - i,
    {
        proof {
            lemma_concat_map_push(
                g@.subrange(0, i as int),
                g@[i as int],
                |r: RecordId| collection_enc(r),
            );
            assert(g@.subrange(0, i as int).push(g@[i as int]) =~= g@.subrange(0, i + 1));
        }
        write_u32(&mut out, g[i].collection);
        i = i + 1;
    }
    let ghost after_colls = out@;
    let mut i: usize = 0;
    while i < n
        invariant
            n == g@.len(),
            i <= n,
            out@ =~= after_colls + did_column(g@.subrange(0, i as int)),
        decreases n - i,
    {
        proof {
            lemma_concat_map_push(g@.subrange(0, i as int), g@[i as int], |r: RecordId| did_enc(r));
            assert(g@.subrange(0, i as int).push(g@[i as int]) =~= g@.subrange(0, i + 1));
        }
        write_u64(&mut out, g[i].did);
        i = i + 1;
    }
    assert(out@ =~= group_bytes(g@));
    out
}

/// Whether `links` holds `enc` at byte `start`.
fn bytes_at(links: &[u8], start: usize, enc: &Vec<u8>) -> (r: bool)
    ensures
        r == (start + enc@.len() <= links@.len() && links@.subrange(
            start as int,
            start + enc@.len(),
        ) == enc@),
{
    let len = links.len();
    let m = enc.len();
    if start > len || m > len - start {
        return false;
    }
    let mut k: usize = 0;
    while k < m
        invariant
            len == links@.len(),
            m == enc@.len(),
            start + m <= len,
            k <= m,
            forall|j: int| 0 <= j < k ==> links@[start + j] == enc@[j],
        decreases m - k,
    {
        if links[start + k] != enc[k] {
            proof {
                assert(links@.subrange(start as int, start + m)[k as int] != enc@[k as int]);
            }
            return false;
        }
        k = k + 1;
    }
    assert(links@.subrange(start as int, start + m) =~= enc@);
    true
}

/// Checks the group of entry `e`: it decodes, holds `count` strictly
/// ascending sources, and encodes back to the bytes at its position. Gives
/// the sources and the byte after the group.
fn check_group(
    links: &[u8],
    e: RecordIndexEntry,
    Ghost(gi): Ghost<Seq<RecordId>>,
    Ghost(valid): Ghost<bool>,
) -> (r: Result<(Vec<RecordId>, usize), CompactError>)
    requires
        valid ==> e.count == gi.len() && group_at(links@, group_start(e), gi) && strictly_sorted(
            gi,
        ),
    ensures
        valid ==> (r matches Ok((g, _)) && g@ == gi),
        r matches Ok((g, end)) ==> {
            &&& e.count == g@.len()
            &&& group_at(links@, group_start(e), g@)
            &&& strictly_sorted(g@)
            &&& end == group_start(e) + group_bytes(g@).len()
            &&& end <= links@.len()
        },
{
    let _len = links.len();
    if e.position as usize > usize::MAX / POS_ALIGN {
        return Err(CompactError::Corrupt);
    }
    let start = e.position as usize * POS_ALIGN;
    proof {
        if valid {
            assert(e.position as int * 32 <= links@.len());
            assert(e.position as int <= usize::MAX / 32) by (nonlinear_arith)
                requires
                    e.position as int * 32 <= links@.len(),
                    links@.len() <= usize::MAX,
            ;
        }
    }
    let group = match decode_group(links, start, e.count, Ghost(gi), Ghost(valid)) {
        Ok(g) => g,
        Err(err) => {
            return Err(err);
        },
    };
    if group.len() != e.count as usize || !is_strictly_sorted(group.as_slice()) {
        return Err(CompactError::Corrupt);
    }
    let enc = encode_group(group.as_slice());
    if !bytes_at(links, start, &enc) {
        return Err(CompactError::Corrupt);
    }
    let end = start + enc.len();
    Ok((group, end))
}

impl CompactedStorageReader {
    /// Opens a compacted store from the bytes of its two files. An entry whose
    /// group does not decode, does not encode back to its bytes, or whose
    /// target does not sort after the entry kept before it, is left out, so one
    /// damaged group costs only its own target. Fails only when `index.dat`
    /// cannot be read as a header and entries.
    pub fn new(index: &[u8], links: Vec<u8>) -> (r: Result<CompactedStorageReader, CompactError>)
        ensures
            r matches Ok(rd) ==> rd.wf() && rd.links() == links@,
            r matches Ok(rd) ==> forall|e: Seq<RecordIndexEntry>|
                #[trigger] comp_index_file(e) == index@ ==> forall|i: int|
                    0 <= i < rd.entries().len() ==> e.contains(rd.entries()[i]),
            forall|e: Seq<RecordIndexEntry>| #[trigger] comp_index_file(e) == index@ ==> r is Ok,
            forall|e: Seq<RecordIndexEntry>, g: Seq<Seq<RecordId>>|
                comp_index_file(e) == index@ && #[trigger] layout_ok(e, links@, g) ==> (r matches Ok(
                    rd,
                ) && rd.entries() == e),
    {
        let ghost valid = exists|e: Seq<RecordIndexEntry>, g: Seq<Seq<RecordId>>|
            comp_index_file(e) == index@ && #[trigger] layout_ok(e, links@, g);
        let ghost (ge, gg) = if valid {
            choose|e: Seq<RecordIndexEntry>, g: Seq<Seq<RecordId>>|
                comp_index_file(e) == index@ && #[trigger] layout_ok(e, links@, g)
        } else {
            (Seq::empty(), Seq::empty())
        };
        proof {
            if valid {
                lemma_layout_sorted(ge, links@, gg);
            }
        }
        let entries = match parse_index(index) {
            Ok(v) => v,
            Err(e) => {
                return Err(e);
            },
        };
        let n = entries.len();
        let mut kept: Vec<RecordIndexEntry> = Vec::new();
        let ghost mut groups: Seq<Seq<RecordId>> = Seq::empty();
        let mut i: usize = 0;
        while i < n
            invariant
                n == entries@.len(),
                i <= n,
                kept@.len() == groups.len(),
                reader_ok(kept@, links@, groups),
                valid ==> entries@ == ge && reader_ok(ge, links@, gg) && (forall|x: int|
                    0 <= x < ge.len() ==> strictly_sorted(#[trigger] gg[x])),
                valid ==> kept@ == entries@.subrange(0, i as int),
                forall|k: int| 0 <= k < kept@.len() ==> entries@.contains(#[trigger] kept@[k]),
            decreases n - i,
        {
            let e = entries[i];
            let kl = kept.len();
            let in_order = kl == 0 || kept[kl - 1].target.lt(&e.target);
            let ghost gi = if valid {
                gg[i as int]
            } else {
                Seq::empty()
            };
            proof {
                if valid {
                    assert(entries@[i as int] == e);
                    assert(e.count == gg[i as int].len());
                    if kl > 0 {
                        assert(kept@[kl - 1] == entries@[i - 1]);
                    }
                }
            }
            if in_order {
                match check_group(links.as_slice(), e, Ghost(gi), Ghost(valid)) {
                    Ok((group, _)) => {
                        let ghost old_kept = kept@;
                        let ghost old_groups = groups;
                        kept.push(e);
                        proof {
                            groups = groups.push(group@);
                            assert(entries@[i as int] == e);
                            assert forall|x: int, y: int| 0 <= x < y < kept@.len() implies record_lt(
                                #[trigger] kept@[x].target,
                                #[trigger] kept@[y].target,
                            ) by {
                                if y == kl {
                                    assert(kept@[x] == old_kept[x]);
                                    if x < kl - 1 {
                                        assert(record_lt(old_kept[x].target, old_kept[kl - 1].target));
                                    }
                                } else {
                                    assert(kept@[x] == old_kept[x] && kept@[y] == old_kept[y]);
                                }
                            }
                            assert forall|x: int| 0 <= x < kept@.len() implies #[trigger] kept@[x].count
                                == groups[x].len() && group_at(
                                links@,
                                group_start(kept@[x]),
                                groups[x],
                            ) by {
                                if x < kl {
                                    assert(kept@[x] == old_kept[x] && groups[x] == old_groups[x]);
                                }
                            }
                            assert forall|x: int| 0 <= x < kept@.len() implies entries@.contains(
                                #[trigger] kept@[x],
                            ) by {
                                if x < kl {
                                    assert(kept@[x] == old_kept[x]);
                                }
                            }
                            if valid {
                                assert(kept@ =~= entries@.subrange(0, i + 1));
                            }
                        }
                    },
                    Err(_) => {},
                }
            }
            i = i + 1;
        }
        proof {
            if valid {
                assert(kept@ =~= entries@);
            }
        }
        Ok(CompactedStorageReader { index: kept, links, groups: Ghost(groups) })
    }
}

} // verus!
