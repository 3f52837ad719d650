//! Interning of record identities: dids, collections and rkeys become fixed
//! integers, and back. The tables are those of the relational store.
use crate::record::{
    parse_at_uri, AtUriError, RecordId, DID_FLAG_NON_STANDARD, DID_MASK, RKEY_DB_MASK,
    RKEY_FLAG_NOT_TID,
};
use crate::tid::{
    is_tid, is_tid_spec, lemma_s32_chars_of_value, s32_chars, s32_value, s32decode_checked,
    s32encode, TID_LEN,
};
use vstd::prelude::*;

verus! {

/// Why an identifier could not be interned or resolved.
#[derive(Clone, Copy, Debug, PartialEq, Eq, Structural)]
pub enum InternError {
    /// The string is not an AT-URI.
    BadUri(AtUriError),
    /// No row holds this id.
    NotFound,
    /// A table has more rows than its ids can number.
    TableFull,
}

/// The name of row `id` of a table whose rows are numbered from 1.
pub open spec fn row_name(t: Seq<Seq<char>>, id: int) -> Option<Seq<char>> {
    if 1 <= id <= t.len() {
        Some(t[id - 1])
    } else {
        None
    }
}

/// The rkey string that `id` stands for.
pub open spec fn rkey_name(t: Seq<Seq<char>>, id: u64) -> Option<Seq<char>> {
    if id & RKEY_FLAG_NOT_TID == 0 {
        Some(s32_chars(id as nat, TID_LEN as nat))
    } else {
        row_name(t, (id & RKEY_DB_MASK) as int)
    }
}

/// The did string that a locally numbered `id` stands for.
pub open spec fn local_did_name(t: Seq<Seq<char>>, id: u64) -> Option<Seq<char>> {
    if id & DID_FLAG_NON_STANDARD != 0 {
        row_name(t, (id & DID_MASK) as int)
    } else {
        None
    }
}

pub open spec fn distinct_rows(t: Seq<Seq<char>>) -> bool {
    forall|i: int, j: int| 0 <= i < j < t.len() ==> t[i] != t[j]
}

pub open spec fn plc_prefix() -> Seq<char> {
    seq!['d', 'i', 'd', ':', 'p', 'l', 'c', ':']
}

pub open spec fn is_plc(s: Seq<char>) -> bool {
    s.len() >= 8 && s.subrange(0, 8) == plc_prefix()
}

/// A did:plc that the registry numbered, with the high bit clear.
pub open spec fn uses_registry(did: Seq<char>, registry_id: Option<u64>) -> bool {
    is_plc(did) && (registry_id matches Some(z) && z & DID_FLAG_NON_STANDARD == 0)
}

/// The strings of a table, row by row.
pub open spec fn names(t: Seq<String>) -> Seq<Seq<char>> {
    t.map_values(|x: String| x@)
}

/// `id` is the record identity of `at://<d>/<c>/<k>` under these tables:
/// the registry's number for a did it numbers, else the local row of `d`,
/// and the rows (or decoded TID) of `c` and `k`.
pub open spec fn is_record_id_of(
    dids: Seq<Seq<char>>,
    collections: Seq<Seq<char>>,
    rkeys: Seq<Seq<char>>,
    d: Seq<char>,
    c: Seq<char>,
    k: Seq<char>,
    registry_id: Option<u64>,
    id: RecordId,
) -> bool {
    &&& (uses_registry(d, registry_id) ==> id.did == registry_id.unwrap())
    &&& (!uses_registry(d, registry_id) ==> local_did_name(dids, id.did) == Some(d))
    &&& row_name(collections, id.collection as int) == Some(c)
    &&& rkey_name(rkeys, id.rkey) == Some(k)
}

/// Record identities stay what they are as the tables grow.
pub proof fn lemma_record_id_kept(
    dids: Seq<Seq<char>>,
    dids2: Seq<Seq<char>>,
    collections: Seq<Seq<char>>,
    collections2: Seq<Seq<char>>,
    rkeys: Seq<Seq<char>>,
    rkeys2: Seq<Seq<char>>,
    d: Seq<char>,
    c: Seq<char>,
    k: Seq<char>,
    registry_id: Option<u64>,
    id: RecordId,
)
    requires
        dids.is_prefix_of(dids2),
        collections.is_prefix_of(collections2),
        rkeys.is_prefix_of(rkeys2),
        is_record_id_of(dids, collections, rkeys, d, c, k, registry_id, id),
    ensures
        is_record_id_of(dids2, collections2, rkeys2, d, c, k, registry_id, id),
{
    lemma_names_kept(collections, collections2, id.collection as u64);
    lemma_names_kept(rkeys, rkeys2, id.rkey);
    if !uses_registry(d, registry_id) {
        lemma_names_kept(dids, dids2, id.did & DID_MASK);
    }
}

/// The three interner tables: local dids, non-TID rkeys, collections.
pub struct Interner {
    dids: Vec<String>,
    rkeys: Vec<String>,
    collections: Vec<String>,
}

/// The row id of `s` in `t`, added at the end if it is not there yet.
fn fetch_or_insert(t: &mut Vec<String>, s: &str) -> (r: usize)
    requires
        distinct_rows(names(old(t)@)),
    ensures
        distinct_rows(names(final(t)@)),
        row_name(names(final(t)@), r as int) == Some(s@),
        names(old(t)@).contains(s@) ==> final(t)@ == old(t)@,
        !names(old(t)@).contains(s@) ==> names(final(t)@)
            == names(old(t)@).push(s@),
        1 <= r <= final(t)@.len(),
        names(old(t)@).is_prefix_of(names(final(t)@)),
{
    let owned: String = s.to_owned();
    let n = t.len();
    let ghost v = names(old(t)@);
    let mut k: usize = 0;
    while k < n
        invariant
            n == t@.len(),
            k <= n,
            *t == *old(t),
            distinct_rows(names(old(t)@)),
            v == names(t@),
            owned@ == s@,
            forall|j: int| 0 <= j < k ==> v[j] != s@,
        decreases n - k,
    {
        if t[k] == owned {
            proof {
                assert(v[k as int] == s@);
                assert(t@ == old(t)@);
                assert(v.subrange(0, v.len() as int) =~= v);
            }
            return k + 1;
        }
        k = k + 1;
    }
    t.push(owned);
    proof {
        let w = names(t@);
        assert(w =~= v.push(s@));
        assert(!v.contains(s@));
        assert(w.subrange(0, v.len() as int) =~= v);
    }
    t.len()
}

impl Interner {
    pub closed spec fn did_table(&self) -> Seq<Seq<char>> {
        names(self.dids@)
    }

    pub closed spec fn rkey_table(&self) -> Seq<Seq<char>> {
        names(self.rkeys@)
    }

    pub closed spec fn collection_table(&self) -> Seq<Seq<char>> {
        names(self.collections@)
    }

    /// Every table can still take a row.
    pub open spec fn below_limits(&self) -> bool {
        &&& self.did_table().len() < DID_MASK
        &&& self.rkey_table().len() < RKEY_DB_MASK
        &&& self.collection_table().len() < u32::MAX
    }

    /// No string has two rows.
    pub open spec fn wf(&self) -> bool {
        &&& distinct_rows(self.did_table())
        &&& distinct_rows(self.rkey_table())
        &&& distinct_rows(self.collection_table())
        &&& self.did_table().len() <= DID_MASK
        &&& self.rkey_table().len() <= RKEY_DB_MASK
        &&& self.collection_table().len() <= u32::MAX
    }

    /// Empty tables.
    pub fn new() -> (r: Interner)
        ensures
            r.wf(),
            r.did_table().len() == 0,
            r.rkey_table().len() == 0,
            r.collection_table().len() == 0,
    {
        let r = Interner { dids: Vec::new(), rkeys: Vec::new(), collections: Vec::new() };
        assert(r.did_table() =~= Seq::<Seq<char>>::empty());
        assert(r.rkey_table() =~= Seq::<Seq<char>>::empty());
        assert(r.collection_table() =~= Seq::<Seq<char>>::empty());
        r
    }

    /// The id of `did`: the registry's number `registry_id` when `did` is a
    /// did:plc that the registry knows (and the number has the high bit clear),
    /// else a local row number with `DID_FLAG_NON_STANDARD` set.
    pub fn encode_did(&mut self, did: &str, registry_id: Option<u64>) -> (r: Result<
        u64,
        InternError,
    >)
        requires
            old(self).wf(),
        ensures
            final(self).wf(),
            !uses_registry(did@, registry_id) && old(self).did_table().contains(did@) ==> final(self).did_table() == old(self).did_table(),
            !uses_registry(did@, registry_id) && !old(self).did_table().contains(did@) && r is Ok
                ==> final(self).did_table() == old(self).did_table().push(did@),
            r is Err ==> final(self).did_table() == old(self).did_table(),
            old(self).did_table().is_prefix_of(final(self).did_table()),
            old(self).rkey_table().is_prefix_of(final(self).rkey_table()),
            old(self).collection_table().is_prefix_of(final(self).collection_table()),
            r matches Err(e) ==> e == InternError::TableFull,
            final(self).rkey_table() == old(self).rkey_table(),
            final(self).collection_table() == old(self).collection_table(),
            uses_registry(did@, registry_id) ==> r
                == Ok::<u64, InternError>(registry_id.unwrap()) && *final(self) == *old(self),
            !uses_registry(did@, registry_id) ==> {
                &&& r matches Ok(id) ==> local_did_name(final(self).did_table(), id) == Some(did@)
                &&& r is Err <==> !old(self).did_table().contains(did@) && old(
                    self,
                ).did_table().len() >= DID_MASK
            },
    {
        if let Some(z) = registry_id {
            if z & DID_FLAG_NON_STANDARD == 0 && starts_with_plc(did) {
                return Ok(z);
            }
        }
        let ghost old_table = self.did_table();
        let n = self.dids.len();
        if n as u64 >= DID_MASK && !contains_row(&self.dids, did) {
            return Err(InternError::TableFull);
        }
        let id = fetch_or_insert(&mut self.dids, did);
        proof {
            if !old_table.contains(did@) {
                assert(self.did_table().len() == old_table.len() + 1);
            }
        }
        let id = id as u64;
        proof {
            assert(id <= DID_MASK);
            assert((id | DID_FLAG_NON_STANDARD) & DID_FLAG_NON_STANDARD != 0) by (bit_vector);
            assert((id | DID_FLAG_NON_STANDARD) & DID_MASK == id) by (bit_vector)
                requires
                    id <= DID_MASK,
            ;
        }
        Ok(id | DID_FLAG_NON_STANDARD)
    }

    /// The did string of a locally numbered `did`; for a registry number, the
    /// registry's answer `registry_name` is handed back.
    pub fn resolve_did(&self, did: u64, registry_name: Option<String>) -> (r: Result<
        String,
        InternError,
    >)
        ensures
            did & DID_FLAG_NON_STANDARD == 0 ==> match registry_name {
                Some(n) => r matches Ok(s) && s@ == n@,
                None => r == Err::<String, InternError>(InternError::NotFound),
            },
            did & DID_FLAG_NON_STANDARD != 0 ==> match local_did_name(self.did_table(), did) {
                Some(n) => r matches Ok(s) && s@ == n,
                None => r == Err::<String, InternError>(InternError::NotFound),
            },
    {
        if did & DID_FLAG_NON_STANDARD == 0 {
            return match registry_name {
                Some(n) => Ok(n),
                None => Err(InternError::NotFound),
            };
        }
        lookup_row(&self.dids, did & DID_MASK)
    }

    /// The id of a collection name: its row number.
    pub fn encode_collection(&mut self, collection: &str) -> (r: Result<u32, InternError>)
        requires
            old(self).wf(),
        ensures
            final(self).wf(),
            old(self).collection_table().contains(collection@) ==> final(self).collection_table()
                == old(self).collection_table(),
            !old(self).collection_table().contains(collection@) && r is Ok ==> final(self).collection_table() == old(self).collection_table().push(collection@),
            r is Err ==> final(self).collection_table() == old(self).collection_table(),
            old(self).did_table().is_prefix_of(final(self).did_table()),
            old(self).rkey_table().is_prefix_of(final(self).rkey_table()),
            old(self).collection_table().is_prefix_of(final(self).collection_table()),
            r matches Err(e) ==> e == InternError::TableFull,
            final(self).did_table() == old(self).did_table(),
            final(self).rkey_table() == old(self).rkey_table(),
            r matches Ok(id) ==> row_name(final(self).collection_table(), id as int) == Some(
                collection@,
            ),
            r is Err <==> !old(self).collection_table().contains(collection@) && old(
                self,
            ).collection_table().len() >= u32::MAX,
    {
        let ghost old_table = self.collection_table();
        let n = self.collections.len();
        if n as u64 >= u32::MAX as u64 && !contains_row(&self.collections, collection) {
            return Err(InternError::TableFull);
        }
        let id = fetch_or_insert(&mut self.collections, collection);
        proof {
            if !old_table.contains(collection@) {
                assert(self.collection_table().len() == old_table.len() + 1);
            }
        }
        Ok(id as u32)
    }

    /// The collection name of row `id`.
    pub fn resolve_collection(&self, id: u32) -> (r: Result<String, InternError>)
        ensures
            match row_name(self.collection_table(), id as int) {
                Some(n) => r matches Ok(s) && s@ == n,
                None => r == Err::<String, InternError>(InternError::NotFound),
            },
    {
        lookup_row(&self.collections, id as u64)
    }

    /// The id of an rkey: a TID whose number has the high bit clear is decoded
    /// in place; any other rkey gets a row number with `RKEY_FLAG_NOT_TID` set.
    pub fn encode_rkey(&mut self, rkey: &str) -> (r: Result<u64, InternError>)
        requires
            old(self).wf(),
        ensures
            final(self).wf(),
            old(self).rkey_table().contains(rkey@) || (is_tid_spec(rkey@) && s32_value(rkey@)
                < RKEY_FLAG_NOT_TID) ==> final(self).rkey_table() == old(self).rkey_table(),
            !old(self).rkey_table().contains(rkey@) && !(is_tid_spec(rkey@) && s32_value(rkey@)
                < RKEY_FLAG_NOT_TID) && r is Ok ==> final(self).rkey_table() == old(
                self,
            ).rkey_table().push(rkey@),
            r is Err ==> final(self).rkey_table() == old(self).rkey_table(),
            old(self).did_table().is_prefix_of(final(self).did_table()),
            old(self).rkey_table().is_prefix_of(final(self).rkey_table()),
            old(self).collection_table().is_prefix_of(final(self).collection_table()),
            r matches Err(e) ==> e == InternError::TableFull,
            final(self).did_table() == old(self).did_table(),
            final(self).collection_table() == old(self).collection_table(),
            is_tid_spec(rkey@) && s32_value(rkey@) < RKEY_FLAG_NOT_TID ==> r == Ok::<
                u64,
                InternError,
            >(s32_value(rkey@) as u64) && *final(self) == *old(self),
            r matches Ok(id) ==> rkey_name(final(self).rkey_table(), id) == Some(rkey@),
            r is Err <==> !(is_tid_spec(rkey@) && s32_value(rkey@) < RKEY_FLAG_NOT_TID) && !old(
                self,
            ).rkey_table().contains(rkey@) && old(self).rkey_table().len() >= RKEY_DB_MASK,
    {
        if is_tid(rkey) {
            if let Some(v) = s32decode_checked(rkey) {
                if v & RKEY_FLAG_NOT_TID == 0 {
                    proof {
                        lemma_s32_chars_of_value(rkey@);
                        assert(v < RKEY_FLAG_NOT_TID) by (bit_vector)
                            requires
                                v & RKEY_FLAG_NOT_TID == 0,
                        ;
                    }
                    return Ok(v);
                }
                proof {
                    assert(v >= RKEY_FLAG_NOT_TID) by (bit_vector)
                        requires
                            v & RKEY_FLAG_NOT_TID != 0,
                    ;
                }
            }
        }
        let ghost old_table = self.rkey_table();
        let n = self.rkeys.len();
        if n as u64 >= RKEY_DB_MASK && !contains_row(&self.rkeys, rkey) {
            return Err(InternError::TableFull);
        }
        let id = fetch_or_insert(&mut self.rkeys, rkey);
        proof {
            if !old_table.contains(rkey@) {
                assert(self.rkey_table().len() == old_table.len() + 1);
            }
        }
        let id = id as u64;
        proof {
            assert((id | RKEY_FLAG_NOT_TID) & RKEY_FLAG_NOT_TID != 0) by (bit_vector);
            assert((id | RKEY_FLAG_NOT_TID) & RKEY_DB_MASK == id) by (bit_vector)
                requires
                    id <= RKEY_DB_MASK,
            ;
        }
        Ok(id | RKEY_FLAG_NOT_TID)
    }

    /// The rkey string that `id` stands for.
    pub fn resolve_rkey(&self, id: u64) -> (r: Result<String, InternError>)
        ensures
            match rkey_name(self.rkey_table(), id) {
                Some(n) => r matches Ok(s) && s@ == n,
                None => r == Err::<String, InternError>(InternError::NotFound),
            },
    {
        if id & RKEY_FLAG_NOT_TID == 0 {
            return Ok(s32encode(id));
        }
        lookup_row(&self.rkeys, id & RKEY_DB_MASK)
    }

    /// Interns the three parts of `at://<repo>/<collection>/<rkey>`.
    /// `registry_id` is the registry's number for the repository, if it has one.
    pub fn record_id_from_at_uri(&mut self, uri: &str, registry_id: Option<u64>) -> (r: Result<
        RecordId,
        InternError,
    >)
        requires
            old(self).wf(),
        ensures
            final(self).wf(),
            old(self).did_table().is_prefix_of(final(self).did_table()),
            old(self).rkey_table().is_prefix_of(final(self).rkey_table()),
            old(self).collection_table().is_prefix_of(final(self).collection_table()),
            r matches Err(InternError::BadUri(e)) ==> crate::record::at_uri_parts(uri@) == Err::<
                (Seq<char>, Seq<char>, Seq<char>),
                AtUriError,
            >(e),
            crate::record::at_uri_parts(uri@) is Err ==> r is Err,
            crate::record::at_uri_parts(uri@) is Ok && old(self).below_limits() ==> r is Ok,
            r matches Err(e) ==> e is BadUri || (e == InternError::TableFull && !old(
                self,
            ).below_limits()),
            r matches Ok(id) ==> crate::record::at_uri_parts(uri@) matches Ok((d, c, k))
                && is_record_id_of(
                final(self).did_table(),
                final(self).collection_table(),
                final(self).rkey_table(),
                d,
                c,
                k,
                registry_id,
                id,
            ),
    {
        let (repo, collection, rkey) = match parse_at_uri(uri) {
            Ok(p) => p,
            Err(e) => {
                return Err(InternError::BadUri(e));
            },
        };
        let did = match self.encode_did(repo, registry_id) {
            Ok(d) => d,
            Err(e) => {
                return Err(e);
            },
        };
        let coll = match self.encode_collection(collection) {
            Ok(c) => c,
            Err(e) => {
                return Err(e);
            },
        };
        let rk = match self.encode_rkey(rkey) {
            Ok(k) => k,
            Err(e) => {
                return Err(e);
            },
        };
        Ok(RecordId::new(did, coll, rk))
    }
}

/// Whether no two rows of `t` hold the same string.
fn rows_distinct(t: &Vec<String>) -> (r: bool)
    ensures
        r == distinct_rows(names(t@)),
{
    let n = t.len();
    let ghost v = names(t@);
    let mut j: usize = 0;
    while j < n
        invariant
            n == t@.len(),
            v == names(t@),
            j <= n,
            forall|a: int, b: int| 0 <= a < b < j ==> v[a] != v[b],
        decreases n - j,
    {
        let mut i: usize = 0;
        while i < j
            invariant
                n == t@.len(),
                v == names(t@),
                i <= j < n,
                forall|a: int| 0 <= a < i ==> v[a] != v[j as int],
            decreases j - i,
        {
            if t[i] == t[j] {
                proof {
                    assert(v[i as int] == t@[i as int]@ && v[j as int] == t@[j as int]@);
                    assert(v[i as int] == v[j as int]);
                }
                return false;
            }
            i = i + 1;
        }
        j = j + 1;
    }
    true
}

impl Interner {
    /// An interner over tables read back from the relational store, row by
    /// row; `None` when a table holds a string twice or has more rows than its
    /// ids can number.
    pub fn from_tables(dids: Vec<String>, rkeys: Vec<String>, collections: Vec<String>) -> (r:
        Option<Interner>)
        ensures
            r matches Some(i) ==> i.wf() && i.did_table() == names(dids@) && i.rkey_table() == names(
                rkeys@,
            ) && i.collection_table() == names(collections@),
            r is None <==> !(distinct_rows(names(dids@)) && distinct_rows(names(rkeys@))
                && distinct_rows(names(collections@)) && dids@.len() <= DID_MASK && rkeys@.len()
                <= RKEY_DB_MASK && collections@.len() <= u32::MAX),
    {
        if dids.len() as u64 > DID_MASK || rkeys.len() as u64 > RKEY_DB_MASK || collections.len() as u64
            > u32::MAX as u64 {
            return None;
        }
        if !rows_distinct(&dids) || !rows_distinct(&rkeys) || !rows_distinct(&collections) {
            return None;
        }
        Some(Interner { dids, rkeys, collections })
    }

    /// The local did table, row 1 first.
    pub fn did_rows(&self) -> (r: &Vec<String>)
        ensures
            names(r@) == self.did_table(),
    {
        &self.dids
    }

    /// The non-TID rkey table, row 1 first.
    pub fn rkey_rows(&self) -> (r: &Vec<String>)
        ensures
            names(r@) == self.rkey_table(),
    {
        &self.rkeys
    }

    /// The collection table, row 1 first.
    pub fn collection_rows(&self) -> (r: &Vec<String>)
        ensures
            names(r@) == self.collection_table(),
    {
        &self.collections
    }
}

/// Whether `s` starts with `did:plc:`.
fn starts_with_plc(s: &str) -> (r: bool)
    ensures
        r == is_plc(s@),
{
    let n = s.unicode_len();
    if n < 8 {
        return false;
    }
    let head = s.substring_char(0, 8);
    let mut j: usize = 0;
    while j < 8
        invariant
            head@ == s@.subrange(0, 8),
            n == s@.len(),
            n >= 8,
            j <= 8,
            forall|k: int| 0 <= k < j ==> head@[k] == plc_prefix()[k],
        decreases 8 - j,
    {
        let expected = if j == 0 || j == 2 {
            'd'
        } else if j == 1 {
            'i'
        } else if j == 3 || j == 7 {
            ':'
        } else if j == 4 {
            'p'
        } else if j == 5 {
            'l'
        } else {
            'c'
        };
        if head.get_char(j) != expected {
            proof {
                assert(head@[j as int] != plc_prefix()[j as int]);
            }
            return false;
        }
        j = j + 1;
    }
    assert(head@ =~= plc_prefix());
    true
}

/// Whether `t` has a row holding `s`.
fn contains_row(t: &Vec<String>, s: &str) -> (r: bool)
    ensures
        r == names(t@).contains(s@),
{
    let owned: String = s.to_owned();
    let n = t.len();
    let ghost v = names(t@);
    let mut k: usize = 0;
    while k < n
        invariant
            n == t@.len(),
            k <= n,
            v == names(t@),
            owned@ == s@,
            forall|j: int| 0 <= j < k ==> v[j] != s@,
        decreases n - k,
    {
        if t[k] == owned {
            proof {
                assert(v[k as int] == s@);
            }
            return true;
        }
        k = k + 1;
    }
    false
}

/// The string in row `id` of `t` (rows count from 1).
fn lookup_row(t: &Vec<String>, id: u64) -> (r: Result<String, InternError>)
    ensures
        match row_name(names(t@), id as int) {
            Some(n) => r matches Ok(s) && s@ == n,
            None => r == Err::<String, InternError>(InternError::NotFound),
        },
{
    if id == 0 || id > t.len() as u64 {
        return Err(InternError::NotFound);
    }
    Ok(t[(id - 1) as usize].clone())
}

/// Rows only ever join the end of a table, so a row keeps its name.
pub proof fn lemma_names_kept(t: Seq<Seq<char>>, t2: Seq<Seq<char>>, id: u64)
    requires
        t.is_prefix_of(t2),
    ensures
        row_name(t, id as int) is Some ==> row_name(t2, id as int) == row_name(t, id as int),
        rkey_name(t, id) is Some ==> rkey_name(t2, id) == rkey_name(t, id),
{
    if row_name(t, id as int) is Some {
        assert(t2[id - 1] == t[id - 1]);
    }
    if rkey_name(t, id) is Some && id & RKEY_FLAG_NOT_TID != 0 {
        let k = (id & RKEY_DB_MASK) as int;
        assert(t2[k - 1] == t[k - 1]);
    }
}

/// For a TID whose number has the high bit clear, decoding it and encoding
/// the number again gives the TID back.
pub proof fn lemma_tid_rkey_round_trip(s: Seq<char>)
    requires
        is_tid_spec(s),
        s32_value(s) < RKEY_FLAG_NOT_TID,
    ensures
        rkey_name(Seq::empty(), s32_value(s) as u64) == Some(s),
{
    lemma_s32_chars_of_value(s);
    let v = s32_value(s) as u64;
    assert(v & RKEY_FLAG_NOT_TID == 0) by (bit_vector)
        requires
            v < RKEY_FLAG_NOT_TID,
    ;
}

} // verus!
