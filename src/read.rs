//! The read path: the sources of a target, gathered from every store.
use crate::compacted::{strictly_sorted, CompactError, CompactedStorageReader};
use crate::compactor::sort_dedup;
use crate::live::LiveStorageWriter;
use crate::record::RecordId;
use vstd::prelude::*;

verus! {

/// A store opened for reading, live or compacted.
pub enum StoreReader {
    Live(LiveStorageWriter),
    Compacted(CompactedStorageReader),
}

impl StoreReader {
    pub open spec fn wf(&self) -> bool {
        match self {
            StoreReader::Live(l) => l.wf(),
            StoreReader::Compacted(c) => c.wf(),
        }
    }

    /// The sources that this store holds for `t`.
    pub open spec fn backlinks(&self, t: RecordId) -> Seq<RecordId> {
        match self {
            StoreReader::Live(l) => l.backlinks(t),
            StoreReader::Compacted(c) => c.backlinks(t),
        }
    }

    /// Adds the sources of `target` to `out`.
    pub fn read_backlinks(&self, target: &RecordId, out: &mut Vec<RecordId>) -> (r: Result<
        (),
        CompactError,
    >)
        ensures
            self.wf() ==> r is Ok && final(out)@ == old(out)@ + self.backlinks(*target),
            r is Err ==> final(out)@ == old(out)@,
    {
        match self {
            StoreReader::Live(l) => {
                l.read_backlinks(target, out);
                Ok(())
            },
            StoreReader::Compacted(c) => c.read_backlinks(target, out),
        }
    }
}

/// Some store of `stores` holds `y` among the sources of `t`.
pub open spec fn in_some_store(stores: Seq<StoreReader>, t: RecordId, y: RecordId) -> bool {
    exists|i: int| 0 <= i < stores.len() && (#[trigger] stores[i]).backlinks(t).contains(y)
}

/// The distinct sources of `target` over all `stores`, in ascending order.
/// A compacted store whose bytes cannot be read adds nothing.
pub fn read_union(stores: &Vec<StoreReader>, target: &RecordId) -> (r: Vec<RecordId>)
    ensures
        strictly_sorted(r@),
        (forall|i: int| 0 <= i < stores@.len() ==> (#[trigger] stores@[i]).wf()) ==> forall|
            y: RecordId,
        | r@.contains(y) <==> in_some_store(stores@, *target, y),
{
    let ghost all_wf = forall|i: int| 0 <= i < stores@.len() ==> (#[trigger] stores@[i]).wf();
    let mut acc: Vec<RecordId> = Vec::new();
    let n = stores.len();
    let mut i: usize = 0;
    while i < n
        invariant
            n == stores@.len(),
            i <= n,
            all_wf == forall|k: int| 0 <= k < stores@.len() ==> (#[trigger] stores@[k]).wf(),
            all_wf ==> forall|y: RecordId|
                acc@.contains(y) <==> in_some_store(stores@.subrange(0, i as int), *target, y),
        decreases n - i,
    {
        let ghost before = acc@;
        let _ = stores[i].read_backlinks(target, &mut acc);
        proof {
            if all_wf {
                let pre = stores@.subrange(0, i as int);
                let post = stores@.subrange(0, i + 1);
                assert(stores@[i as int].wf());
                assert(acc@ == before + stores@[i as int].backlinks(*target));
                assert forall|y: RecordId| acc@.contains(y) <==> in_some_store(post, *target, y) by {
                    if acc@.contains(y) {
                        let k = choose|k: int| 0 <= k < acc@.len() && acc@[k] == y;
                        if k < before.len() {
                            assert(before[k] == y);
                            assert(before.contains(y));
                            assert(in_some_store(pre, *target, y));
                            let j = choose|j: int|
                                0 <= j < pre.len() && (#[trigger] pre[j]).backlinks(*target).contains(y);
                            assert(post[j] == pre[j]);
                        } else {
                            assert(stores@[i as int].backlinks(*target)[k - before.len()] == y);
                            assert(post[i as int] == stores@[i as int]);
                            assert(post[i as int].backlinks(*target).contains(y));
                        }
                    }
                    if in_some_store(post, *target, y) {
                        let j = choose|j: int|
                            0 <= j < post.len() && (#[trigger] post[j]).backlinks(*target).contains(y);
                        if j < i {
                            assert(pre[j] == post[j]);
                            assert(in_some_store(pre, *target, y));
                            assert(before.contains(y));
                            let k = choose|k: int| 0 <= k < before.len() && before[k] == y;
                            assert(acc@[k] == before[k]);
                        } else {
                            let s = stores@[i as int].backlinks(*target);
                            let k = choose|k: int| 0 <= k < s.len() && s[k] == y;
                            assert(acc@[before.len() + k] == y);
                        }
                    }
                }
            }
        }
        i = i + 1;
    }
    let r = sort_dedup(&acc);
    proof {
        assert(stores@.subrange(0, n as int) =~= stores@);
    }
    r
}

/// Over two stores, a source is found for a target exactly when one of the
/// two holds it: the read path gives the union.
pub proof fn lemma_union_of_two(a: StoreReader, b: StoreReader, t: RecordId, y: RecordId)
    ensures
        in_some_store(seq![a, b], t, y) <==> (a.backlinks(t).contains(y) || b.backlinks(
            t,
        ).contains(y)),
{
    let s = seq![a, b];
    if a.backlinks(t).contains(y) {
        assert(s[0] == a);
    }
    if b.backlinks(t).contains(y) {
        assert(s[1] == b);
    }
    if in_some_store(s, t, y) {
        let i = choose|i: int| 0 <= i < s.len() && (#[trigger] s[i]).backlinks(t).contains(y);
        assert(i == 0 || i == 1);
    }
}

} // verus!
