//! The lookup answer: sources as AT-URIs grouped by collection name, keys and
//! lists ascending, as a JSON object.
use crate::interner::{local_did_name, rkey_name, row_name, InternError, Interner};
use crate::record::{RecordId, DID_FLAG_NON_STANDARD};
use crate::text::{
    lemma_seq_lt_irreflexive, lemma_seq_lt_total, lemma_seq_lt_transitive, seq_lt, str_lt,
};
use vstd::prelude::*;

verus! {

pub open spec fn hex_digits() -> Seq<char> {
    seq!['0', '1', '2', '3', '4', '5', '6', '7', '8', '9', 'a', 'b', 'c', 'd', 'e', 'f']
}

/// How one character stands inside a JSON string: `"` and `\` behind a
/// backslash, the five short control escapes, other control characters as
/// `\u00XX` (lower-case hex), everything else as itself.
pub open spec fn json_escape(c: char) -> Seq<char> {
    let u = c as u32;
    if c == '"' {
        seq!['\\', '"']
    } else if c == '\\' {
        seq!['\\', '\\']
    } else if u == 8 {
        seq!['\\', 'b']
    } else if u == 9 {
        seq!['\\', 't']
    } else if u == 10 {
        seq!['\\', 'n']
    } else if u == 12 {
        seq!['\\', 'f']
    } else if u == 13 {
        seq!['\\', 'r']
    } else if u < 32 {
        seq!['\\', 'u', '0', '0', hex_digits()[(u / 16) as int], hex_digits()[(u % 16) as int]]
    } else {
        seq![c]
    }
}

pub open spec fn json_escaped(s: Seq<char>) -> Seq<char>
    decreases s.len(),
{
    if s.len() == 0 {
        Seq::empty()
    } else {
        json_escaped(s.drop_last()) + json_escape(s.last())
    }
}

/// The JSON string literal of `s`: quotes around its escaped characters.
pub open spec fn json_string_of(s: Seq<char>) -> Seq<char> {
    seq!['"'] + json_escaped(s) + seq!['"']
}

/// Relies on tinyjson::JsonValue::stringify for a string value, which writes
/// into a `Vec<u8>` and cannot fail: the quoted, escaped literal of `s`.
#[verifier::external_body]
fn json_quote(s: &str) -> (r: String)
    ensures
        r@ == json_string_of(s@),
{
    tinyjson::JsonValue::String(s.to_string()).stringify().unwrap_or_default()
}

pub open spec fn pair_view(p: (String, String)) -> (Seq<char>, Seq<char>) {
    (p.0@, p.1@)
}

pub open spec fn pairs_view(v: Seq<(String, String)>) -> Seq<(Seq<char>, Seq<char>)> {
    v.map_values(|p: (String, String)| pair_view(p))
}

/// Pairs order by collection, then by URI.
pub open spec fn pair_lt(a: (Seq<char>, Seq<char>), b: (Seq<char>, Seq<char>)) -> bool {
    seq_lt(a.0, b.0) || (a.0 == b.0 && seq_lt(a.1, b.1))
}

pub open spec fn pairs_sorted(q: Seq<(Seq<char>, Seq<char>)>) -> bool {
    forall|i: int, j: int| 0 <= i < j < q.len() ==> pair_lt(q[i], q[j])
}

proof fn lemma_pair_lt_transitive(
    a: (Seq<char>, Seq<char>),
    b: (Seq<char>, Seq<char>),
    c: (Seq<char>, Seq<char>),
)
    requires
        pair_lt(a, b),
        pair_lt(b, c),
    ensures
        pair_lt(a, c),
{
    lemma_seq_lt_irreflexive(a.0);
    lemma_seq_lt_irreflexive(b.0);
    if seq_lt(a.0, b.0) && seq_lt(b.0, c.0) {
        lemma_seq_lt_transitive(a.0, b.0, c.0);
    }
    if a.0 == b.0 && b.0 == c.0 {
        assert(seq_lt(a.1, b.1) && seq_lt(b.1, c.1));
        lemma_seq_lt_transitive(a.1, b.1, c.1);
    }
}

proof fn lemma_pair_lt_total(a: (Seq<char>, Seq<char>), b: (Seq<char>, Seq<char>))
    ensures
        pair_lt(a, b) || pair_lt(b, a) || a == b,
{
    lemma_seq_lt_total(a.0, b.0);
    lemma_seq_lt_total(a.1, b.1);
}

fn pair_less(a: &(String, String), b: &(String, String)) -> (r: bool)
    ensures
        r == pair_lt(pair_view(*a), pair_view(*b)),
{
    str_lt(a.0.as_str(), b.0.as_str()) || (a.0 == b.0 && str_lt(a.1.as_str(), b.1.as_str()))
}

/// The distinct pairs of `pairs`, ascending.
pub fn sort_links(pairs: &Vec<(String, String)>) -> (r: Vec<(String, String)>)
    ensures
        pairs_sorted(pairs_view(r@)),
        forall|x: (Seq<char>, Seq<char>)|
            pairs_view(r@).contains(x) <==> pairs_view(pairs@).contains(x),
{
    let n = pairs.len();
    let mut out: Vec<(String, String)> = Vec::new();
    let mut i: usize = 0;
    while i < n
        invariant
            n == pairs@.len(),
            i <= n,
            pairs_sorted(pairs_view(out@)),
            forall|x: (Seq<char>, Seq<char>)|
                pairs_view(out@).contains(x) <==> pairs_view(pairs@.subrange(0, i as int)).contains(
                    x,
                ),
        decreases n - i,
    {
        let x = (pairs[i].0.clone(), pairs[i].1.clone());
        let ghost xv = pair_view(x);
        let m = out.len();
        let mut p: usize = 0;
        while p < m && pair_less(&out[p], &x)
            invariant
                m == out@.len(),
                p <= m,
                xv == pair_view(x),
                forall|k: int| 0 <= k < p ==> pair_lt(#[trigger] pairs_view(out@)[k], xv),
            decreases m - p,
        {
            assert(pairs_view(out@)[p as int] == pair_view(out@[p as int]));
            p = p + 1;
        }
        let ghost before = pairs_view(out@);
        let same = p < m && out[p].0 == x.0 && out[p].1 == x.1;
        if same {
            proof {
                assert(before[p as int] == xv);
                assert forall|y: (Seq<char>, Seq<char>)| pairs_view(out@).contains(y) <==> (
                before.contains(y) || y == xv) by {
                    if y == xv {
                        assert(before[p as int] == xv);
                    }
                }
            }
        } else {
            out.insert(p, x);
            proof {
                let after = pairs_view(out@);
                assert(after =~= before.insert(p as int, xv));
                if p < m {
                    lemma_pair_lt_total(before[p as int], xv);
                    assert(pair_lt(xv, before[p as int]));
                }
                assert forall|a: int, b: int| 0 <= a < b < after.len() implies pair_lt(
                    after[a],
                    after[b],
                ) by {
                    if b < p {
                    } else if b == p {
                    } else if a < p {
                        if p < b - 1 {
                            lemma_pair_lt_transitive(before[a], before[p as int], before[b - 1]);
                        }
                    } else if a == p {
                        if p < b - 1 {
                            lemma_pair_lt_transitive(xv, before[p as int], before[b - 1]);
                        }
                    }
                }
                assert forall|y: (Seq<char>, Seq<char>)| after.contains(y) <==> (before.contains(y)
                    || y == xv) by {
                    if after.contains(y) {
                        let k = choose|k: int| 0 <= k < after.len() && after[k] == y;
                        if k < p {
                            assert(before[k] == y);
                        } else if k > p {
                            assert(before[k - 1] == y);
                        }
                    }
                    if before.contains(y) {
                        let k = choose|k: int| 0 <= k < before.len() && before[k] == y;
                        if k < p {
                            assert(after[k] == y);
                        } else {
                            assert(after[k + 1] == y);
                        }
                    }
                    if y == xv {
                        assert(after[p as int] == xv);
                    }
                }
            }
        }
        proof {
            let pre = pairs_view(pairs@.subrange(0, i as int));
            let post = pairs_view(pairs@.subrange(0, i + 1));
            assert(post =~= pre.push(xv));
            assert forall|y: (Seq<char>, Seq<char>)| post.contains(y) <==> (pre.contains(y) || y
                == xv) by {
                if post.contains(y) {
                    let k = choose|k: int| 0 <= k < post.len() && post[k] == y;
                    if k < i {
                        assert(pre[k] == y);
                    }
                }
                if pre.contains(y) {
                    let k = choose|k: int| 0 <= k < pre.len() && pre[k] == y;
                    assert(post[k] == y);
                }
                if y == xv {
                    assert(post[i as int] == xv);
                }
            }
        }
        i = i + 1;
    }
    proof {
        assert(pairs@.subrange(0, n as int) =~= pairs@);
    }
    out
}

/// The inside of the object for ascending `(key, item)` pairs: a new key opens
/// a list, an item with the key before it joins that list.
pub open spec fn json_members(q: Seq<(Seq<char>, Seq<char>)>) -> Seq<char>
    decreases q.len(),
{
    if q.len() == 0 {
        Seq::empty()
    } else {
        let p = q.drop_last();
        let c = q.last().0;
        let u = q.last().1;
        if p.len() == 0 {
            c + seq![':', '['] + u
        } else if p.last().0 == c {
            json_members(p) + seq![','] + u
        } else {
            json_members(p) + seq![']', ','] + c + seq![':', '['] + u
        }
    }
}

/// The whole object for quoted, ascending `(key, item)` pairs.
pub open spec fn json_object(q: Seq<(Seq<char>, Seq<char>)>) -> Seq<char> {
    seq!['{'] + json_members(q) + (if q.len() > 0 {
        seq![']']
    } else {
        Seq::empty()
    }) + seq!['}']
}

/// Writes the object for `(key, item)` pairs that are already JSON literals.
pub fn render_links_json(quoted: &Vec<(String, String)>) -> (r: String)
    ensures
        r@ == json_object(pairs_view(quoted@)),
{
    let n = quoted.len();
    let mut out = String::new();
    proof {
        reveal_strlit("{");
        reveal_strlit(":[");
        reveal_strlit(",");
        reveal_strlit("],");
        reveal_strlit("]");
        reveal_strlit("}");
    }
    out.append("{");
    let ghost q = pairs_view(quoted@);
    let mut k: usize = 0;
    while k < n
        invariant
            n == quoted@.len(),
            k <= n,
            q == pairs_view(quoted@),
            out@ == seq!['{'] + json_members(q.subrange(0, k as int)),
        decreases n - k,
    {
        let ghost pre = q.subrange(0, k as int);
        let ghost post = q.subrange(0, k + 1);
        proof {
            reveal_strlit(":[");
            reveal_strlit(",");
            reveal_strlit("],");
            assert(q[k as int] == pair_view(quoted@[k as int]));
            if k > 0 {
                assert(q[k - 1] == pair_view(quoted@[k - 1]));
            }
            assert(post.drop_last() =~= pre);
            assert(post.last() == q[k as int]);
        }
        if k == 0 {
            out.append(quoted[k].0.as_str());
            out.append(":[");
            out.append(quoted[k].1.as_str());
        } else if quoted[k - 1].0 == quoted[k].0 {
            proof {
                assert(pre.last() == q[k - 1]);
            }
            out.append(",");
            out.append(quoted[k].1.as_str());
        } else {
            proof {
                assert(pre.last() == q[k - 1]);
            }
            out.append("],");
            out.append(quoted[k].0.as_str());
            out.append(":[");
            out.append(quoted[k].1.as_str());
        }
        proof {
            assert(out@ =~= seq!['{'] + json_members(post));
        }
        k = k + 1;
    }
    proof {
        assert(q.subrange(0, n as int) =~= q);
    }
    proof {
        reveal_strlit("]");
        reveal_strlit("}");
    }
    if n > 0 {
        out.append("]");
    }
    out.append("}");
    proof {
        assert(out@ =~= json_object(q));
    }
    out
}

/// The JSON answer for ascending `(collection, uri)` pairs.
pub fn links_json(pairs: &Vec<(String, String)>) -> (r: String)
    ensures
        r@ == json_object(
            pairs_view(pairs@).map_values(
                |p: (Seq<char>, Seq<char>)| (json_string_of(p.0), json_string_of(p.1)),
            ),
        ),
{
    let n = pairs.len();
    let mut quoted: Vec<(String, String)> = Vec::new();
    let mut k: usize = 0;
    while k < n
        invariant
            n == pairs@.len(),
            k <= n,
            quoted@.len() == k,
            forall|j: int|
                0 <= j < k ==> #[trigger] pair_view(quoted@[j]) == (
                    json_string_of(pairs@[j].0@),
                    json_string_of(pairs@[j].1@),
                ),
        decreases n - k,
    {
        let c = json_quote(pairs[k].0.as_str());
        let u = json_quote(pairs[k].1.as_str());
        quoted.push((c, u));
        k = k + 1;
    }
    let r = render_links_json(&quoted);
    proof {
        assert(pairs_view(quoted@) =~= pairs_view(pairs@).map_values(
            |p: (Seq<char>, Seq<char>)| (json_string_of(p.0), json_string_of(p.1)),
        ));
    }
    r
}

/// `at://<did>/<collection>/<rkey>`.
pub open spec fn at_uri_of(did: Seq<char>, collection: Seq<char>, rkey: Seq<char>) -> Seq<char> {
    seq!['a', 't', ':', '/', '/'] + did + seq!['/'] + collection + seq!['/'] + rkey
}

pub fn at_uri_string(did: &str, collection: &str, rkey: &str) -> (r: String)
    ensures
        r@ == at_uri_of(did@, collection@, rkey@),
{
    proof {
        reveal_strlit("at://");
        reveal_strlit("/");
    }
    let mut s = String::new();
    s.append("at://");
    s.append(did);
    s.append("/");
    s.append(collection);
    s.append("/");
    s.append(rkey);
    proof {
        assert(s@ =~= at_uri_of(did@, collection@, rkey@));
    }
    s
}

/// The registry's did string for `id`: the first pair that numbers it.
pub open spec fn registry_name_of(registry: Seq<(u64, String)>, id: u64) -> Option<Seq<char>>
    decreases registry.len(),
{
    if registry.len() == 0 {
        None
    } else if registry[0].0 == id {
        Some(registry[0].1@)
    } else {
        registry_name_of(registry.drop_first(), id)
    }
}

fn registry_name(registry: &Vec<(u64, String)>, id: u64) -> (r: Option<String>)
    ensures
        match (r, registry_name_of(registry@, id)) {
            (Some(s), Some(n)) => s@ == n,
            (None, None) => true,
            _ => false,
        },
{
    let n = registry.len();
    let mut i: usize = 0;
    proof {
        assert(registry@.subrange(0, n as int) =~= registry@);
    }
    while i < n
        invariant
            n == registry@.len(),
            i <= n,
            registry_name_of(registry@, id) == registry_name_of(
                registry@.subrange(i as int, n as int),
                id,
            ),
        decreases n - i,
    {
        let ghost rest = registry@.subrange(i as int, n as int);
        proof {
            assert(rest[0] == registry@[i as int]);
            assert(rest.drop_first() =~= registry@.subrange(i + 1, n as int));
        }
        if registry[i].0 == id {
            return Some(registry[i].1.clone());
        }
        i = i + 1;
    }
    None
}

/// Resolves each source to `(collection, at-uri)`. `registry` holds the
/// registry's answers for the registry-numbered dids among the sources.
pub fn resolve_links(interner: &Interner, registry: &Vec<(u64, String)>, sources: &Vec<RecordId>) -> (r:
    Result<Vec<(String, String)>, InternError>)
    ensures
        r matches Ok(v) ==> v@.len() == sources@.len() && forall|k: int|
            0 <= k < v@.len() ==> {
                let s = #[trigger] sources@[k];
                &&& row_name(interner.collection_table(), s.collection as int) == Some(v@[k].0@)
                &&& exists|d: Seq<char>, rk: Seq<char>|
                    v@[k].1@ == at_uri_of(d, v@[k].0@, rk) && rkey_name(interner.rkey_table(), s.rkey)
                        == Some(rk) && (s.did & DID_FLAG_NON_STANDARD != 0 ==> local_did_name(
                        interner.did_table(),
                        s.did,
                    ) == Some(d)) && (s.did & DID_FLAG_NON_STANDARD == 0 ==> registry_name_of(registry@, s.did) == Some(d))
            },
        r is Err ==> exists|k: int|
            0 <= k < sources@.len() && {
                let s = #[trigger] sources@[k];
                ||| row_name(interner.collection_table(), s.collection as int) is None
                ||| rkey_name(interner.rkey_table(), s.rkey) is None
                ||| (s.did & DID_FLAG_NON_STANDARD != 0 && local_did_name(interner.did_table(), s.did)
                    is None)
                ||| (s.did & DID_FLAG_NON_STANDARD == 0 && registry_name_of(registry@, s.did) is None)
            },
{
    let n = sources.len();
    let mut out: Vec<(String, String)> = Vec::new();
    let mut k: usize = 0;
    while k < n
        invariant
            n == sources@.len(),
            k <= n,
            out@.len() == k,
            forall|j: int|
                0 <= j < k ==> {
                    let s = #[trigger] sources@[j];
                    &&& row_name(interner.collection_table(), s.collection as int) == Some(
                        out@[j].0@,
                    )
                    &&& exists|d: Seq<char>, rk: Seq<char>|
                        out@[j].1@ == at_uri_of(d, out@[j].0@, rk) && rkey_name(
                            interner.rkey_table(),
                            s.rkey,
                        ) == Some(rk) && (s.did & DID_FLAG_NON_STANDARD != 0 ==> local_did_name(
                            interner.did_table(),
                            s.did,
                        ) == Some(d)) && (s.did & DID_FLAG_NON_STANDARD == 0 ==> registry_name_of(registry@, s.did) == Some(d))
                },
        decreases n - k,
    {
        let s = sources[k];
        let reg = if s.did & DID_FLAG_NON_STANDARD == 0 {
            registry_name(registry, s.did)
        } else {
            None
        };
        let did = match interner.resolve_did(s.did, reg) {
            Ok(d) => d,
            Err(e) => {
                return Err(e);
            },
        };
        let collection = match interner.resolve_collection(s.collection) {
            Ok(c) => c,
            Err(e) => {
                return Err(e);
            },
        };
        let rkey = match interner.resolve_rkey(s.rkey) {
            Ok(k) => k,
            Err(e) => {
                return Err(e);
            },
        };
        let uri = at_uri_string(did.as_str(), collection.as_str(), rkey.as_str());
        proof {
            assert(uri@ == at_uri_of(did@, collection@, rkey@));
        }
        out.push((collection, uri));
        proof {
            assert(out@[k as int].1@ == at_uri_of(did@, out@[k as int].0@, rkey@));
            assert forall|j: int| 0 <= j < k + 1 implies {
                let s = #[trigger] sources@[j];
                &&& row_name(interner.collection_table(), s.collection as int) == Some(out@[j].0@)
                &&& exists|d: Seq<char>, rk: Seq<char>|
                    out@[j].1@ == at_uri_of(d, out@[j].0@, rk) && rkey_name(
                        interner.rkey_table(),
                        s.rkey,
                    ) == Some(rk) && (s.did & DID_FLAG_NON_STANDARD != 0 ==> local_did_name(
                        interner.did_table(),
                        s.did,
                    ) == Some(d)) && (s.did & DID_FLAG_NON_STANDARD == 0 ==> registry_name_of(registry@, s.did) == Some(d))
            } by {
                if j == k {
                    assert(out@[j].1@ == at_uri_of(did@, out@[j].0@, rkey@));
                }
            }
        }
        k = k + 1;
    }
    Ok(out)
}

} // verus!
