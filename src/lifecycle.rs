//! Store lifecycle: when to roll over, which live store to compact, which
//! abandoned live directory to remove, and the one-way states of a store.
use vstd::prelude::*;

verus! {

/// A live store whose two files together reach this many bytes is full.
pub const ROLLOVER_SIZE: u64 = 2_147_483_648;

/// The combined size of `index.dat` and `links.dat` (a missing file counts 0).
pub fn get_size(index_size: u64, links_size: u64) -> (r: u64)
    ensures
        r == if index_size + links_size > u64::MAX {
            u64::MAX as int
        } else {
            index_size + links_size
        },
{
    index_size.saturating_add(links_size)
}

/// Whether the newest live store should be retired for a fresh one.
pub fn needs_rollover(size: u64) -> (r: bool)
    ensures
        r == (size >= ROLLOVER_SIZE),
{
    size >= ROLLOVER_SIZE
}

/// Whether a live store may be compacted: full, not already being compacted,
/// and held by no running process.
pub fn is_compaction_candidate(size: u64, compaction_in_progress: bool, has_running_procs: bool) -> (r:
    bool)
    ensures
        r == (size >= ROLLOVER_SIZE && !compaction_in_progress && !has_running_procs),
{
    size >= ROLLOVER_SIZE && !compaction_in_progress && !has_running_procs
}

/// Whether a directory under `live/` is abandoned and may be removed: it is
/// not listed as a live store and no running process holds it.
pub fn should_clean_up(name: &str, live_names: &Vec<String>, has_running_procs: bool) -> (r: bool)
    ensures
        r == (!has_running_procs && forall|i: int|
            0 <= i < live_names@.len() ==> (#[trigger] live_names@[i])@ != name@),
{
    if has_running_procs {
        return false;
    }
    let owned: String = name.to_owned();
    let n = live_names.len();
    let mut i: usize = 0;
    while i < n
        invariant
            n == live_names@.len(),
            i <= n,
            owned@ == name@,
            forall|k: int| 0 <= k < i ==> (#[trigger] live_names@[k])@ != name@,
        decreases n - i,
    {
        if live_names[i] == owned {
            return false;
        }
        i = i + 1;
    }
    true
}

/// What a file name in a store directory says about a process.
#[derive(Clone, Copy, Debug, PartialEq, Eq, Structural)]
pub enum PidFile {
    /// The name does not end in `.pid`.
    NotPidFile,
    /// It ends in `.pid`, but what stands before is not a process id.
    BadPid,
    /// The presence file of this process.
    Pid(i32),
}

pub open spec fn pid_suffix() -> Seq<char> {
    seq!['.', 'p', 'i', 'd']
}

pub open spec fn decimal_digit(c: char) -> int {
    c as int - '0' as int
}

pub open spec fn is_decimal(s: Seq<char>) -> bool {
    s.len() > 0 && forall|i: int| 0 <= i < s.len() ==> '0' <= #[trigger] s[i] && s[i] <= '9'
}

/// The number that a string of decimal digits spells.
pub open spec fn decimal_value(s: Seq<char>) -> nat
    decreases s.len(),
{
    if s.len() == 0 {
        0
    } else {
        (decimal_value(s.drop_last()) * 10 + decimal_digit(s.last())) as nat
    }
}

/// How a presence file's name reads: `<pid>.pid` with `<pid>` decimal digits
/// that fit an `i32`.
pub open spec fn pid_file_spec(name: Seq<char>) -> PidFile {
    if name.len() < 4 || name.subrange(name.len() - 4, name.len() as int) != pid_suffix() {
        PidFile::NotPidFile
    } else {
        let stem = name.subrange(0, name.len() - 4);
        if is_decimal(stem) && decimal_value(stem) <= i32::MAX {
            PidFile::Pid(decimal_value(stem) as i32)
        } else {
            PidFile::BadPid
        }
    }
}

proof fn lemma_decimal_prefix(s: Seq<char>, i: int)
    requires
        0 <= i <= s.len(),
        is_decimal(s) || s.len() == 0 || forall|k: int| 0 <= k < s.len() ==> '0' <= #[trigger] s[k]
            && s[k] <= '9',
    ensures
        decimal_value(s.subrange(0, i)) <= decimal_value(s),
    decreases s.len() - i,
{
    if i < s.len() {
        lemma_decimal_prefix(s, i + 1);
        let p = s.subrange(0, i + 1);
        assert(p.drop_last() =~= s.subrange(0, i));
        assert(p.last() == s[i]);
    } else {
        assert(s.subrange(0, i) =~= s);
    }
}

/// Reads the name of a file in a store directory.
pub fn parse_pid_file_name(name: &str) -> (r: PidFile)
    ensures
        r == pid_file_spec(name@),
{
    let n = name.unicode_len();
    if n < 4 {
        return PidFile::NotPidFile;
    }
    let tail = name.substring_char(n - 4, n);
    let suffix: &str = ".pid";
    proof {
        reveal_strlit(".pid");
        assert(suffix@ =~= pid_suffix());
    }
    if !(tail.get_char(0) == '.' && tail.get_char(1) == 'p' && tail.get_char(2) == 'i' && tail.get_char(
        3,
    ) == 'd') {
        proof {
            if tail@ == pid_suffix() {
                assert(tail@[0] == '.' && tail@[1] == 'p' && tail@[2] == 'i' && tail@[3] == 'd');
            }
        }
        return PidFile::NotPidFile;
    }
    assert(tail@ =~= pid_suffix());
    let stem = name.substring_char(0, n - 4);
    let m = n - 4;
    if m == 0 {
        return PidFile::BadPid;
    }
    let mut i: usize = 0;
    let mut acc: u64 = 0;
    while i < m
        invariant
            m == stem@.len(),
            n == name@.len(),
            m == n - 4,
            stem@ == name@.subrange(0, n - 4),
            name@.subrange(n - 4, n as int) == pid_suffix(),
            i <= m,
            forall|k: int| 0 <= k < i ==> '0' <= #[trigger] stem@[k] && stem@[k] <= '9',
            acc == decimal_value(stem@.subrange(0, i as int)),
            acc <= i32::MAX,
        decreases m - i,
    {
        let c = stem.get_char(i);
        if !('0' <= c && c <= '9') {
            proof {
                assert(stem@[i as int] == c);
                assert(!('0' <= stem@[i as int] && stem@[i as int] <= '9'));
                assert(!is_decimal(stem@));
                assert(stem@ == name@.subrange(0, name@.len() - 4));
            }
            return PidFile::BadPid;
        }
        let d = (c as u32 - '0' as u32) as u64;
        proof {
            let p = stem@.subrange(0, i as int + 1);
            assert(p.drop_last() =~= stem@.subrange(0, i as int));
            assert(p.last() == c);
        }
        let next = acc * 10 + d;
        if next > i32::MAX as u64 {
            proof {
                let ii = i as int + 1;
                assert(decimal_value(stem@.subrange(0, ii)) == next);
                assert(stem@ == name@.subrange(0, name@.len() - 4));
                assert forall|k: int| 0 <= k < ii implies '0' <= #[trigger] stem@.subrange(0, ii)[k]
                    && stem@.subrange(0, ii)[k] <= '9' by {}
                if is_decimal(stem@) {
                    lemma_decimal_prefix(stem@, ii);
                }
            }
            return PidFile::BadPid;
        }
        acc = next;
        i = i + 1;
    }
    proof {
        assert(stem@.subrange(0, m as int) =~= stem@);
    }
    PidFile::Pid(acc as i32)
}

/// Where a store stands. A store is created live, selected for compaction,
/// then compacted; it never goes back.
#[derive(Clone, Copy, Debug, PartialEq, Eq, Structural)]
pub enum StoreState {
    Live,
    Compacting,
    Compacted,
}

/// What happens to a store.
#[derive(Clone, Copy, Debug, PartialEq, Eq, Structural)]
pub enum StoreEvent {
    /// The compactor selected it.
    CompactionStarted,
    /// The compactor wrote its compacted form and flipped its type.
    CompactionFinished,
}

pub open spec fn rank(s: StoreState) -> int {
    match s {
        StoreState::Live => 0,
        StoreState::Compacting => 1,
        StoreState::Compacted => 2,
    }
}

/// The state after `e`, or `None` when `e` cannot happen in state `s`.
pub fn next_state(s: StoreState, e: StoreEvent) -> (r: Option<StoreState>)
    ensures
        r matches Some(t) ==> rank(t) == rank(s) + 1,
        r is Some <==> (s == StoreState::Live && e == StoreEvent::CompactionStarted) || (s
            == StoreState::Compacting && e == StoreEvent::CompactionFinished),
{
    match (s, e) {
        (StoreState::Live, StoreEvent::CompactionStarted) => Some(StoreState::Compacting),
        (StoreState::Compacting, StoreEvent::CompactionFinished) => Some(StoreState::Compacted),
        _ => None,
    }
}

} // verus!
