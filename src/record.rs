//! Interned record identities, their fixed 24-byte layout, and AT-URI parsing.
use vstd::bytes::{
    lemma_auto_spec_u32_to_from_le_bytes, lemma_auto_spec_u64_to_from_le_bytes,
    spec_u32_from_le_bytes, spec_u32_to_le_bytes, spec_u64_from_le_bytes, spec_u64_to_le_bytes,
    u32_from_le_bytes, u32_to_le_bytes, u64_from_le_bytes, u64_to_le_bytes,
};
use vstd::prelude::*;
use vstd::slice::slice_subrange;

verus! {

/// Marks a DID that the local interner assigned (did:web, or a did:plc the registry lacks).
pub const DID_FLAG_NON_STANDARD: u64 = 0x8000_0000_0000_0000;

/// The numeric body of a DID, in both the registry and the local numbering.
pub const DID_MASK: u64 = 0x0000_FFFF_FFFF_FFFF;

/// Marks an rkey that is an interner index rather than a decoded TID.
pub const RKEY_FLAG_NOT_TID: u64 = 0x8000_0000_0000_0000;

/// The interner index part of a non-TID rkey.
pub const RKEY_DB_MASK: u64 = 0x7FFF_FFFF_FFFF_FFFF;

/// Size of a record identity on disk.
pub const RECORD_ID_SIZE: usize = 24;

/// An index into the collections table.
pub type RecordCollection = u32;

/// The reserved word of a record identity. It carries no meaning: any two
/// flag words compare equal.
#[derive(Clone, Copy, Debug)]
pub struct RecordIdFlags(pub u32);

impl PartialEq for RecordIdFlags {
    fn eq(&self, _other: &RecordIdFlags) -> (r: bool)
        ensures
            r,
    {
        true
    }
}

impl vstd::std_specs::cmp::PartialEqSpecImpl for RecordIdFlags {
    open spec fn obeys_eq_spec() -> bool {
        true
    }

    open spec fn eq_spec(&self, _other: &RecordIdFlags) -> bool {
        true
    }
}

impl From<u32> for RecordIdFlags {
    fn from(value: u32) -> (r: RecordIdFlags)
        ensures
            r.0 == value,
    {
        RecordIdFlags(value)
    }
}

impl vstd::std_specs::convert::FromSpecImpl<u32> for RecordIdFlags {
    open spec fn obeys_from_spec() -> bool {
        true
    }

    open spec fn from_spec(v: u32) -> RecordIdFlags {
        RecordIdFlags(v)
    }
}

/// The interned identity of a record. Records order by rkey, then collection,
/// then did, which clusters records with the same rkey prefix.
#[derive(Clone, Copy, Debug, PartialEq, Eq, Structural, Hash, PartialOrd, Ord)]
pub struct RecordId {
    pub rkey: u64,
    pub collection: u32,
    pub did: u64,
}

/// The strict order of record identities.
pub open spec fn record_lt(a: RecordId, b: RecordId) -> bool {
    a.rkey < b.rkey || (a.rkey == b.rkey && (a.collection < b.collection || (a.collection
        == b.collection && a.did < b.did)))
}

/// The 24 bytes of a record identity: rkey, collection and did, little-endian,
/// then a zeroed reserved word.
pub open spec fn record_bytes(r: RecordId) -> Seq<u8> {
    spec_u64_to_le_bytes(r.rkey) + spec_u32_to_le_bytes(r.collection) + spec_u64_to_le_bytes(
        r.did,
    ) + seq![0u8, 0u8, 0u8, 0u8]
}

/// The record identity that 24 bytes spell (the reserved word is ignored).
pub open spec fn record_from_bytes(b: Seq<u8>) -> RecordId {
    RecordId {
        rkey: spec_u64_from_le_bytes(b.subrange(0, 8)),
        collection: spec_u32_from_le_bytes(b.subrange(8, 12)),
        did: spec_u64_from_le_bytes(b.subrange(12, 20)),
    }
}

pub proof fn lemma_record_bytes(r: RecordId)
    ensures
        record_bytes(r).len() == RECORD_ID_SIZE,
        record_from_bytes(record_bytes(r)) == r,
{
    lemma_auto_spec_u64_to_from_le_bytes();
    lemma_auto_spec_u32_to_from_le_bytes();
    let b = record_bytes(r);
    assert(b.subrange(0, 8) == spec_u64_to_le_bytes(r.rkey));
    assert(b.subrange(8, 12) == spec_u32_to_le_bytes(r.collection));
    assert(b.subrange(12, 20) == spec_u64_to_le_bytes(r.did));
}

impl RecordId {
    pub fn new(did: u64, collection: u32, rkey: u64) -> (r: RecordId)
        ensures
            r.did == did,
            r.collection == collection,
            r.rkey == rkey,
    {
        RecordId { rkey, collection, did }
    }

    /// Whether `self` sorts strictly before `other`.
    pub fn lt(&self, other: &RecordId) -> (r: bool)
        ensures
            r == record_lt(*self, *other),
    {
        self.rkey < other.rkey || (self.rkey == other.rkey && (self.collection < other.collection
            || (self.collection == other.collection && self.did < other.did)))
    }

    /// Appends the 24-byte layout of `self` to `out`.
    pub fn write_bytes(&self, out: &mut Vec<u8>)
        ensures
            final(out)@ == old(out)@ + record_bytes(*self),
    {
        let mut a = u64_to_le_bytes(self.rkey);
        let mut b = u32_to_le_bytes(self.collection);
        let mut c = u64_to_le_bytes(self.did);
        out.append(&mut a);
        out.append(&mut b);
        out.append(&mut c);
        out.push(0);
        out.push(0);
        out.push(0);
        out.push(0);
        proof {
            assert(final(out)@ == old(out)@ + record_bytes(*self));
        }
    }

    /// Reads a record identity from the 24 bytes at `pos`.
    pub fn read_bytes(b: &[u8], pos: usize) -> (r: RecordId)
        requires
            pos + RECORD_ID_SIZE <= b@.len(),
        ensures
            r == record_from_bytes(b@.subrange(pos as int, pos + RECORD_ID_SIZE)),
    {
        let _len = b.len();
        let rk = u64_from_le_bytes(slice_subrange(b, pos, pos + 8));
        let co = u32_from_le_bytes(slice_subrange(b, pos + 8, pos + 12));
        let di = u64_from_le_bytes(slice_subrange(b, pos + 12, pos + 20));
        proof {
            let s = b@.subrange(pos as int, pos + RECORD_ID_SIZE);
            assert(s.subrange(0, 8) == b@.subrange(pos as int, pos + 8));
            assert(s.subrange(8, 12) == b@.subrange(pos + 8, pos + 12));
            assert(s.subrange(12, 20) == b@.subrange(pos + 12, pos + 20));
        }
        RecordId { rkey: rk, collection: co, did: di }
    }
}

/// Maps a DID as the backfill database stores it (local DIDs negated) to a `Did`.
pub fn convert_did_from_db(did_id: i64) -> (r: u64)
    ensures
        did_id < 0 ==> r == ((-did_id) as u64 | DID_FLAG_NON_STANDARD),
        did_id >= 0 ==> r == did_id as u64,
{
    if did_id < 0 {
        if did_id == i64::MIN {
            assert(0x8000_0000_0000_0000u64 | DID_FLAG_NON_STANDARD == DID_FLAG_NON_STANDARD)
                by (bit_vector);
            return DID_FLAG_NON_STANDARD;
        }
        return (-did_id) as u64 | DID_FLAG_NON_STANDARD;
    }
    did_id as u64
}

/// Maps a `Did` to its backfill database form: local DIDs become the negated body.
pub fn convert_did_to_db(did: u64) -> (r: i64)
    ensures
        did & DID_FLAG_NON_STANDARD != 0 ==> r == -((did & DID_MASK) as int),
        did & DID_FLAG_NON_STANDARD == 0 ==> r == did as int,
{
    if did & DID_FLAG_NON_STANDARD != 0 {
        let body = did & DID_MASK;
        assert(body <= DID_MASK) by (bit_vector)
            requires
                body == did & DID_MASK,
        ;
        return -(body as i64);
    }
    assert(did <= i64::MAX) by (bit_vector)
        requires
            did & DID_FLAG_NON_STANDARD == 0,
    ;
    did as i64
}

/// The index of the first `c` in `s`, or -1.
pub open spec fn first_index(s: Seq<char>, c: char) -> int
    decreases s.len(),
{
    if s.len() == 0 {
        -1
    } else if s[0] == c {
        0
    } else {
        let r = first_index(s.drop_first(), c);
        if r < 0 {
            -1
        } else {
            r + 1
        }
    }
}

proof fn lemma_first_index(s: Seq<char>, c: char, i: int)
    requires
        0 <= i <= s.len(),
        forall|j: int| 0 <= j < i ==> s[j] != c,
        i == s.len() || s[i] == c,
    ensures
        first_index(s, c) == if i == s.len() {
            -1
        } else {
            i
        },
    decreases s.len(),
{
    if s.len() > 0 && i > 0 {
        assert(s[0] != c);
        lemma_first_index(s.drop_first(), c, i - 1);
    }
}

/// The part of `s` before its first `c`, or all of `s`.
pub open spec fn cut_at(s: Seq<char>, c: char) -> Seq<char> {
    if first_index(s, c) >= 0 {
        s.subrange(0, first_index(s, c))
    } else {
        s
    }
}

pub open spec fn at_prefix() -> Seq<char> {
    seq!['a', 't', ':', '/', '/']
}

/// Why a string is not an AT-URI.
#[derive(Clone, Copy, Debug, PartialEq, Eq, Structural)]
pub enum AtUriError {
    /// It does not start with `at://`.
    NoRepo,
    /// No `/` follows the repository.
    NoCollection,
    /// No `/` follows the collection.
    NoRkey,
}

/// How `at://<repo>/<collection>/<rkey>` splits; a query or fragment after the
/// rkey is dropped.
pub open spec fn at_uri_parts(u: Seq<char>) -> Result<(Seq<char>, Seq<char>, Seq<char>), AtUriError> {
    if u.len() < 5 || u.subrange(0, 5) != at_prefix() {
        Err(AtUriError::NoRepo)
    } else {
        let rest = u.subrange(5, u.len() as int);
        let a = first_index(rest, '/');
        if a < 0 {
            Err(AtUriError::NoCollection)
        } else {
            let rest2 = rest.subrange(a + 1, rest.len() as int);
            let b = first_index(rest2, '/');
            if b < 0 {
                Err(AtUriError::NoRkey)
            } else {
                let rk = rest2.subrange(b + 1, rest2.len() as int);
                Ok((rest.subrange(0, a), rest2.subrange(0, b), cut_at(cut_at(rk, '?'), '#')))
            }
        }
    }
}

/// Finds the first `c` in `s`.
pub fn find_char(s: &str, c: char) -> (r: Option<usize>)
    ensures
        r is None <==> first_index(s@, c) < 0,
        r matches Some(i) ==> i == first_index(s@, c) && i < s@.len() && s@[i as int] == c,
{
    let n = s.unicode_len();
    let mut i: usize = 0;
    while i < n
        invariant
            n == s@.len(),
            i <= n,
            forall|j: int| 0 <= j < i ==> s@[j] != c,
        decreases n - i,
    {
        if s.get_char(i) == c {
            proof {
                lemma_first_index(s@, c, i as int);
            }
            return Some(i);
        }
        i = i + 1;
    }
    proof {
        lemma_first_index(s@, c, n as int);
    }
    None
}

fn cut_at_exec(s: &str, c: char) -> (r: &str)
    ensures
        r@ == cut_at(s@, c),
{
    match find_char(s, c) {
        Some(i) => s.substring_char(0, i),
        None => s,
    }
}

/// Splits `at://<repo>/<collection>/<rkey>` into its three parts.
pub fn parse_at_uri(uri: &str) -> (r: Result<(&str, &str, &str), AtUriError>)
    ensures
        match (r, at_uri_parts(uri@)) {
            (Ok((a, b, c)), Ok((x, y, z))) => a@ == x && b@ == y && c@ == z,
            (Err(e), Err(f)) => e == f,
            _ => false,
        },
{
    let n = uri.unicode_len();
    if n < 5 {
        return Err(AtUriError::NoRepo);
    }
    let head = uri.substring_char(0, 5);
    let mut j: usize = 0;
    while j < 5
        invariant
            head@ == uri@.subrange(0, 5),
            n == uri@.len(),
            n >= 5,
            j <= 5,
            forall|k: int| 0 <= k < j ==> head@[k] == at_prefix()[k],
        decreases 5 - j,
    {
        let expected = if j == 0 {
            'a'
        } else if j == 1 {
            't'
        } else if j == 2 {
            ':'
        } else {
            '/'
        };
        if head.get_char(j) != expected {
            proof {
                assert(head@[j as int] != at_prefix()[j as int]);
            }
            return Err(AtUriError::NoRepo);
        }
        j = j + 1;
    }
    assert(head@ == at_prefix());
    let rest = uri.substring_char(5, n);
    let a = match find_char(rest, '/') {
        Some(a) => a,
        None => {
            return Err(AtUriError::NoCollection);
        },
    };
    let rest_len = rest.unicode_len();
    let repo = rest.substring_char(0, a);
    let rest2 = rest.substring_char(a + 1, rest_len);
    let b = match find_char(rest2, '/') {
        Some(b) => b,
        None => {
            return Err(AtUriError::NoRkey);
        },
    };
    let rest2_len = rest2.unicode_len();
    let collection = rest2.substring_char(0, b);
    let rkey_full = rest2.substring_char(b + 1, rest2_len);
    let rkey = cut_at_exec(cut_at_exec(rkey_full, '?'), '#');
    Ok((repo, collection, rkey))
}

} // verus!
