//! Folds a live store into a compacted one: targets in ascending order, each
//! with its set of sources in ascending order.
use crate::compacted::{
    lemma_group_bytes_len, strictly_sorted, CompactError, CompactedStorageReader,
    CompactedStorageWriter,
};
use crate::live::{chain_ok, chain_sources, LiveStorageWriter, MAX_SLOTS};
use vstd::set_lib::{lemma_int_range, lemma_len_subset, lemma_set_disjoint_lens, set_int_range};
use crate::record::{record_lt, RecordId};
use vstd::prelude::*;

verus! {

/// `a` and `b` hold the same records.
pub open spec fn same_records(a: Seq<RecordId>, b: Seq<RecordId>) -> bool {
    forall|y: RecordId| a.contains(y) <==> b.contains(y)
}

/// The records of two ascending runs, merged into one, each record once.
fn merge_dedup(a: &Vec<RecordId>, b: &Vec<RecordId>) -> (r: Vec<RecordId>)
    requires
        strictly_sorted(a@),
        strictly_sorted(b@),
    ensures
        strictly_sorted(r@),
        forall|y: RecordId| r@.contains(y) <==> (a@.contains(y) || b@.contains(y)),
{
    let n = a.len();
    let m = b.len();
    let mut out: Vec<RecordId> = Vec::new();
    let mut i: usize = 0;
    let mut j: usize = 0;
    while i < n || j < m
        invariant
            n == a@.len(),
            m == b@.len(),
            i <= n,
            j <= m,
            strictly_sorted(a@),
            strictly_sorted(b@),
            strictly_sorted(out@),
            forall|y: RecordId|
                out@.contains(y) <==> (a@.subrange(0, i as int).contains(y) || b@.subrange(
                    0,
                    j as int,
                ).contains(y)),
            out@.len() > 0 && i < n ==> record_lt(out@.last(), a@[i as int]),
            out@.len() > 0 && j < m ==> record_lt(out@.last(), b@[j as int]),
        decreases n - i + m - j,
    {
        let ghost before = out@;
        let ghost ai = a@.subrange(0, i as int);
        let ghost bj = b@.subrange(0, j as int);
        let take_a = j >= m || (i < n && a[i].lt(&b[j]));
        let take_b = i >= n || (j < m && b[j].lt(&a[i]));
        let x = if take_a {
            a[i]
        } else {
            b[j]
        };
        out.push(x);
        if take_a {
            i = i + 1;
        } else if take_b {
            j = j + 1;
        } else {
            i = i + 1;
            j = j + 1;
        }
        proof {
            assert(out@ == before.push(x));
            assert forall|p: int, q: int| 0 <= p < q < out@.len() implies record_lt(
                out@[p],
                out@[q],
            ) by {
                if q == out@.len() - 1 && p < q {
                    assert(out@[p] == before[p]);
                    if p < before.len() - 1 {
                        assert(record_lt(before[p], before.last()));
                    }
                }
            }
            let ai2 = a@.subrange(0, i as int);
            let bj2 = b@.subrange(0, j as int);
            assert forall|y: RecordId| out@.contains(y) <==> (ai2.contains(y) || bj2.contains(y)) by {
                if out@.contains(y) {
                    let k = choose|k: int| 0 <= k < out@.len() && out@[k] == y;
                    if k < before.len() {
                        assert(before[k] == y);
                        assert(before.contains(y));
                        if ai.contains(y) {
                            let t = choose|t: int| 0 <= t < ai.len() && ai[t] == y;
                            assert(ai2[t] == y);
                        } else {
                            let t = choose|t: int| 0 <= t < bj.len() && bj[t] == y;
                            assert(bj2[t] == y);
                        }
                    } else {
                        if take_a {
                            assert(ai2[ai2.len() - 1] == y);
                        } else {
                            assert(bj2[bj2.len() - 1] == y);
                        }
                    }
                }
                if ai2.contains(y) {
                    let t = choose|t: int| 0 <= t < ai2.len() && ai2[t] == y;
                    if t < ai.len() {
                        assert(ai[t] == y);
                        assert(before.contains(y));
                        let k = choose|k: int| 0 <= k < before.len() && before[k] == y;
                        assert(out@[k] == y);
                    } else {
                        assert(out@[out@.len() - 1] == y);
                    }
                }
                if bj2.contains(y) {
                    let t = choose|t: int| 0 <= t < bj2.len() && bj2[t] == y;
                    if t < bj.len() {
                        assert(bj[t] == y);
                        assert(before.contains(y));
                        let k = choose|k: int| 0 <= k < before.len() && before[k] == y;
                        assert(out@[k] == y);
                    } else {
                        assert(out@[out@.len() - 1] == y);
                    }
                }
            }
        }
    }
    proof {
        assert(a@.subrange(0, n as int) =~= a@);
        assert(b@.subrange(0, m as int) =~= b@);
    }
    out
}

/// The distinct records of `v[lo..hi]`, ascending.
fn sort_range(v: &Vec<RecordId>, lo: usize, hi: usize) -> (r: Vec<RecordId>)
    requires
        lo <= hi <= v@.len(),
    ensures
        strictly_sorted(r@),
        forall|y: RecordId| r@.contains(y) <==> v@.subrange(lo as int, hi as int).contains(y),
    decreases hi - lo,
{
    if hi - lo == 0 {
        let r: Vec<RecordId> = Vec::new();
        proof {
            assert forall|y: RecordId| r@.contains(y) <==> v@.subrange(lo as int, hi as int).contains(
                y,
            ) by {
                assert(v@.subrange(lo as int, hi as int).len() == 0);
            }
        }
        return r;
    }
    if hi - lo == 1 {
        let mut r: Vec<RecordId> = Vec::new();
        r.push(v[lo]);
        proof {
            let s = v@.subrange(lo as int, hi as int);
            assert(s =~= seq![v@[lo as int]]);
            assert(r@ =~= s);
        }
        return r;
    }
    let mid = lo + (hi - lo) / 2;
    let left = sort_range(v, lo, mid);
    let right = sort_range(v, mid, hi);
    let r = merge_dedup(&left, &right);
    proof {
        let s = v@.subrange(lo as int, hi as int);
        let sl = v@.subrange(lo as int, mid as int);
        let sr = v@.subrange(mid as int, hi as int);
        assert(s =~= sl + sr);
        assert forall|y: RecordId| s.contains(y) <==> (sl.contains(y) || sr.contains(y)) by {
            if s.contains(y) {
                let k = choose|k: int| 0 <= k < s.len() && s[k] == y;
                if k < sl.len() {
                    assert(sl[k] == y);
                } else {
                    assert(sr[k - sl.len()] == y);
                }
            }
            if sl.contains(y) {
                let k = choose|k: int| 0 <= k < sl.len() && sl[k] == y;
                assert(s[k] == y);
            }
            if sr.contains(y) {
                let k = choose|k: int| 0 <= k < sr.len() && sr[k] == y;
                assert(s[k + sl.len()] == y);
            }
        }
    }
    r
}

/// The distinct records of `v`, in ascending order.
pub fn sort_dedup(v: &Vec<RecordId>) -> (r: Vec<RecordId>)
    ensures
        strictly_sorted(r@),
        same_records(r@, v@),
{
    let r = sort_range(v, 0, v.len());
    proof {
        assert(v@.subrange(0, v@.len() as int) =~= v@);
    }
    r
}

/// Some entry of `index` is for `t`.
pub open spec fn has_entry(index: Seq<crate::compacted::RecordIndexEntry>, t: RecordId) -> bool {
    exists|i: int| 0 <= i < index.len() && #[trigger] index[i].target == t
}

/// A strictly ascending sequence whose records all occur in `c` is no longer
/// than `c`.
proof fn lemma_sorted_subset_len(g: Seq<RecordId>, c: Seq<RecordId>)
    requires
        strictly_sorted(g),
        forall|y: RecordId| g.contains(y) ==> c.contains(y),
    ensures
        g.len() <= c.len(),
{
    broadcast use vstd::seq_lib::seq_to_set_is_finite;

    assert(g.no_duplicates()) by {
        assert forall|a: int, b: int| 0 <= a < g.len() && 0 <= b < g.len() && a != b implies g[a]
            != g[b] by {
            if a < b {
                assert(record_lt(g[a], g[b]));
            } else {
                assert(record_lt(g[b], g[a]));
            }
        }
    }
    g.unique_seq_to_set();
    c.lemma_cardinality_of_set();
    assert(g.to_set().subset_of(c.to_set())) by {
        assert forall|y: RecordId| g.to_set().contains(y) implies c.to_set().contains(y) by {
            assert(g.contains(y));
        }
    }
    lemma_len_subset(g.to_set(), c.to_set());
}

/// The slots of a chain, as a set, have as many members as the chain.
proof fn lemma_chain_slots(c: Seq<int>, n: int)
    requires
        forall|k: int, l: int| 0 <= k < l < c.len() ==> #[trigger] c[k] < #[trigger] c[l],
        forall|k: int| 0 <= k < c.len() ==> 0 <= #[trigger] c[k] < n,
    ensures
        c.to_set().finite(),
        c.to_set().len() == c.len(),
        forall|s: int| #[trigger] c.to_set().contains(s) ==> 0 <= s < n,
{
    broadcast use vstd::seq_lib::seq_to_set_is_finite;

    assert(c.no_duplicates()) by {
        assert forall|a: int, b: int| 0 <= a < c.len() && 0 <= b < c.len() && a != b implies c[a]
            != c[b] by {
            if a < b {
                assert(c[a] < c[b]);
            } else {
                assert(c[b] < c[a]);
            }
        }
    }
    c.unique_seq_to_set();
    assert forall|s: int| #[trigger] c.to_set().contains(s) implies 0 <= s < n by {
        assert(c.contains(s));
    }
}

/// Writes the contents of `live` into a new compacted store: every target in
/// ascending order, with its distinct sources in ascending order.
pub fn compact(live: &LiveStorageWriter) -> (r: Result<CompactedStorageWriter, CompactError>)
    requires
        live.wf(),
    ensures
        r matches Ok(w) ==> w.wf() && forall|t: RecordId|
            #![trigger w.backlinks(t)]
            strictly_sorted(w.backlinks(t)) && same_records(w.backlinks(t), live.backlinks(t)),
        r matches Ok(w) ==> (forall|i: int|
            0 <= i < w.entries().len() ==> live.has_target(#[trigger] w.entries()[i].target)),
        r matches Ok(w) ==> (forall|t: RecordId|
            #[trigger] live.has_target(t) ==> has_entry(w.entries(), t)),
        r is Ok,
{
    let listed = live.list_all_targets();
    let mut targets: Vec<RecordId> = Vec::new();
    let mut i: usize = 0;
    while i < listed.len()
        invariant
            i <= listed@.len(),
            listed@.len() == live.entries().len(),
            forall|k: int|
                0 <= k < listed@.len() ==> #[trigger] listed@[k] == (
                    live.entries()[k].target,
                    live.entries()[k],
                ),
            targets@.len() == i,
            forall|k: int| 0 <= k < i ==> #[trigger] targets@[k] == live.entries()[k].target,
        decreases listed@.len() - i,
    {
        targets.push(listed[i].0);
        i = i + 1;
    }
    let sorted = sort_dedup(&targets);
    proof {
        assert forall|t: RecordId| live.has_target(t) <==> sorted@.contains(t) by {
            if live.has_target(t) {
                let k = live.entry_of(t);
                assert(targets@[k] == t);
                assert(targets@.contains(t));
            }
            if sorted@.contains(t) {
                assert(targets@.contains(t));
                let k = choose|k: int| 0 <= k < targets@.len() && targets@[k] == t;
                assert(live.entries()[k].target == t);
            }
        }
    }
    let mut w = CompactedStorageWriter::new();
    let n = sorted.len();
    let mut i: usize = 0;
    let ghost nslots = live.links().len() as int;
    let ghost mut used: Set<int> = Set::empty();
    while i < n
        invariant
            n == sorted@.len(),
            i <= n,
            nslots == live.links().len(),
            used.finite(),
            forall|s: int| used.contains(s) ==> 0 <= s < nslots,
            forall|s: int|
                #[trigger] used.contains(s) ==> exists|k: int|
                    0 <= k < i && live.chains()[live.entry_of(sorted@[k])].contains(s),
            w.links().len() <= 54 * used.len(),
            live.wf(),
            strictly_sorted(sorted@),
            forall|t: RecordId| live.has_target(t) <==> sorted@.contains(t),
            w.wf(),
            w.entries().len() == i,
            forall|k: int| 0 <= k < i ==> #[trigger] w.entries()[k].target == sorted@[k],
            forall|k: int|
                0 <= k < i ==> strictly_sorted(#[trigger] w.groups()[k]) && same_records(
                    w.groups()[k],
                    live.backlinks(sorted@[k]),
                ),
            w.groups().len() == i,
        decreases n - i,
    {
        let t = sorted[i];
        let mut srcs: Vec<RecordId> = Vec::new();
        live.read_backlinks(&t, &mut srcs);
        assert(srcs@ =~= live.backlinks(t));
        let group = sort_dedup(&srcs);
        let ghost j = live.entry_of(t);
        let ghost c = live.chains()[j];
        proof {
            if i > 0 {
                assert(w.entries().last().target == sorted@[i - 1]);
                assert(record_lt(sorted@[i - 1], t));
            }
            assert(sorted@.contains(t)) by {
                assert(sorted@[i as int] == t);
            }
            assert(live.has_target(t));
            assert(chain_ok(live.links(), live.entries()[j], c));
            assert(srcs@ == chain_sources(live.links(), c));
            lemma_sorted_subset_len(group@, srcs@);
            lemma_chain_slots(c, nslots);
            assert forall|s: int| #[trigger] used.contains(s) implies !c.to_set().contains(s) by {
                let k = choose|k: int|
                    0 <= k < i && live.chains()[live.entry_of(sorted@[k])].contains(s);
                let jk = live.entry_of(sorted@[k]);
                assert(record_lt(sorted@[k], t));
                assert(live.has_target(sorted@[k])) by {
                    assert(sorted@.contains(sorted@[k]));
                }
                assert(live.entries()[jk].target == sorted@[k]);
                assert(jk != j);
                if c.to_set().contains(s) {
                    let x = choose|x: int| 0 <= x < c.len() && c[x] == s;
                    let y = choose|y: int| 0 <= y < live.chains()[jk].len() && live.chains()[jk][y] == s;
                    assert(live.chains()[jk][y] != live.chains()[j][x]);
                }
            }
            assert(used.disjoint(c.to_set()));
            lemma_set_disjoint_lens(used, c.to_set());
            lemma_int_range(0, nslots);
            assert((used + c.to_set()).subset_of(set_int_range(0, nslots)));
            lemma_len_subset(used + c.to_set(), set_int_range(0, nslots));
            assert(group@.len() <= c.len());
            assert(c.len() >= 1);
            assert(nslots <= MAX_SLOTS);
            assert(w.links().len() <= 54 * MAX_SLOTS) by (nonlinear_arith)
                requires
                    w.links().len() <= 54 * used.len(),
                    used.len() + c.len() <= nslots,
                    nslots <= MAX_SLOTS,
            ;
            lemma_group_bytes_len(group@);
        }
        let ghost w0 = w;
        match w.log_backlinks(&t, group.as_slice()) {
            Ok(()) => {},
            Err(e) => {
                return Err(e);
            },
        }
        proof {
            let old_used = used;
            used = used + c.to_set();
            assert(w.links().len() <= w0.links().len() + 31 + 23 * group@.len());
            assert(w.links().len() <= 54 * used.len()) by (nonlinear_arith)
                requires
                    w.links().len() <= w0.links().len() + 31 + 23 * group@.len(),
                    w0.links().len() <= 54 * old_used.len(),
                    used.len() == old_used.len() + c.len(),
                    group@.len() <= c.len(),
                    c.len() >= 1,
            ;
            assert forall|s: int| #[trigger] used.contains(s) implies exists|k: int|
                0 <= k < i + 1 && live.chains()[live.entry_of(sorted@[k])].contains(s) by {
                if old_used.contains(s) {
                    let k = choose|k: int|
                        0 <= k < i && live.chains()[live.entry_of(sorted@[k])].contains(s);
                    assert(0 <= k < i + 1);
                } else {
                    assert(c.to_set().contains(s));
                    assert(sorted@[i as int] == t);
                    assert(live.chains()[live.entry_of(sorted@[i as int])].contains(s));
                }
            }
        }
        proof {
            assert forall|k: int| 0 <= k < i + 1 implies #[trigger] w.entries()[k].target
                == sorted@[k] by {
                if k < i {
                    assert(w.entries()[k] == w0.entries()[k]);
                }
            }
            assert forall|k: int| 0 <= k < i + 1 implies strictly_sorted(#[trigger] w.groups()[k])
                && same_records(w.groups()[k], live.backlinks(sorted@[k])) by {
                if k < i {
                    assert(w.groups()[k] == w0.groups()[k]);
                } else {
                    assert(w.groups()[k] == group@);
                }
            }
        }
        i = i + 1;
    }
    proof {
        assert forall|t: RecordId| #[trigger] live.has_target(t) implies has_entry(
            w.entries(),
            t,
        ) by {
            assert(sorted@.contains(t));
            let k = choose|k: int| 0 <= k < sorted@.len() && sorted@[k] == t;
            assert(w.entries()[k].target == t);
        }
        assert forall|i: int| 0 <= i < w.entries().len() implies live.has_target(
            #[trigger] w.entries()[i].target,
        ) by {
            assert(sorted@[i] == w.entries()[i].target);
            assert(sorted@.contains(sorted@[i]));
        }
        assert forall|t: RecordId|
            #![trigger w.backlinks(t)]
            strictly_sorted(w.backlinks(t)) && same_records(w.backlinks(t), live.backlinks(t)) by {
            if exists|k: int| 0 <= k < w.entries().len() && #[trigger] w.entries()[k].target == t {
                let k = choose|k: int|
                    0 <= k < w.entries().len() && #[trigger] w.entries()[k].target == t;
                assert(sorted@[k] == t);
            } else {
                if live.has_target(t) {
                    assert(sorted@.contains(t));
                    let k = choose|k: int| 0 <= k < sorted@.len() && sorted@[k] == t;
                    assert(w.entries()[k].target == t);
                }
                assert(live.backlinks(t) == Seq::<RecordId>::empty());
            }
        }
    }
    Ok(w)
}

/// Compacting a live store and reading the result back gives, for every
/// target, the sources the live store holds for it: as a set, in ascending
/// order.
pub proof fn lemma_compaction_round_trip(
    live: LiveStorageWriter,
    w: CompactedStorageWriter,
    r: CompactedStorageReader,
)
    requires
        live.wf(),
        w.wf(),
        forall|t: RecordId|
            #![trigger w.backlinks(t)]
            strictly_sorted(w.backlinks(t)) && same_records(w.backlinks(t), live.backlinks(t)),
        r.entries() == w.entries(),
        r.groups() == w.groups(),
        r.links() == w.links(),
    ensures
        r.wf(),
        forall|t: RecordId|
            #![trigger r.backlinks(t)]
            strictly_sorted(r.backlinks(t)) && same_records(r.backlinks(t), live.backlinks(t)),
{
    crate::compacted::lemma_layout_sorted(w.entries(), w.links(), w.groups());
    assert forall|t: RecordId|
        #![trigger r.backlinks(t)]
        strictly_sorted(r.backlinks(t)) && same_records(r.backlinks(t), live.backlinks(t)) by {
        assert(r.backlinks(t) == w.backlinks(t));
    }
}

} // verus!
