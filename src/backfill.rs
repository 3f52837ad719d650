//! What the backfill worker asks for: where a DID document lives, which
//! service of it is the repository host, and the archive request.
use crate::interner::{is_plc, plc_prefix};
use vstd::prelude::*;

verus! {

pub open spec fn web_prefix() -> Seq<char> {
    seq!['d', 'i', 'd', ':', 'w', 'e', 'b', ':']
}

pub open spec fn is_web(s: Seq<char>) -> bool {
    s.len() >= 8 && s.subrange(0, 8) == web_prefix()
}

/// Where the DID document of `did` is fetched: the local registry mirror for
/// a did:plc, the host's well-known path for a did:web, nowhere otherwise.
pub open spec fn did_document_url_spec(did: Seq<char>) -> Option<Seq<char>> {
    if is_plc(did) {
        Some("http://127.0.0.1:2486/"@ + did)
    } else if is_web(did) {
        Some("https://"@ + did.subrange(8, did.len() as int) + "/.well-known/did.json"@)
    } else {
        None
    }
}

fn has_prefix8(s: &str, p: &str) -> (r: bool)
    requires
        p@.len() == 8,
    ensures
        r == (s@.len() >= 8 && s@.subrange(0, 8) == p@),
{
    let n = s.unicode_len();
    if n < 8 {
        return false;
    }
    let head = s.substring_char(0, 8);
    let mut j: usize = 0;
    while j < 8
        invariant
            head@ == s@.subrange(0, 8),
            s@.len() >= 8,
            p@.len() == 8,
            j <= 8,
            forall|k: int| 0 <= k < j ==> head@[k] == p@[k],
        decreases 8 - j,
    {
        if head.get_char(j) != p.get_char(j) {
            return false;
        }
        j = j + 1;
    }
    assert(head@ =~= p@);
    true
}

pub fn did_document_url(did: &str) -> (r: Option<String>)
    ensures
        match (r, did_document_url_spec(did@)) {
            (Some(u), Some(v)) => u@ == v,
            (None, None) => true,
            _ => false,
        },
{
    let plc: &str = "did:plc:";
    let web: &str = "did:web:";
    proof {
        reveal_strlit("did:plc:");
        reveal_strlit("did:web:");
        assert(plc@ =~= plc_prefix());
        assert(web@ =~= web_prefix());
    }
    if has_prefix8(did, plc) {
        let mut u = String::new();
        u.append("http://127.0.0.1:2486/");
        u.append(did);
        return Some(u);
    }
    if has_prefix8(did, web) {
        let n = did.unicode_len();
        let authority = did.substring_char(8, n);
        let mut u = String::new();
        u.append("https://");
        u.append(authority);
        u.append("/.well-known/did.json");
        return Some(u);
    }
    None
}

/// One entry of a DID document's `service` list: its `id` and
/// `serviceEndpoint` when they are strings.
pub struct DidService {
    pub id: Option<String>,
    pub endpoint: Option<String>,
}

pub open spec fn is_pds(s: DidService) -> bool {
    s.id matches Some(id) && id@ == "#atproto_pds"@
}

/// The endpoint of the first service whose id is `#atproto_pds`; `None`
/// when there is no such service or its endpoint is not a string.
pub fn find_pds_endpoint(services: &Vec<DidService>) -> (r: Option<String>)
    ensures
        (forall|i: int| 0 <= i < services@.len() ==> !is_pds(#[trigger] services@[i])) ==> r is None,
        r matches Some(e) ==> exists|i: int|
            0 <= i < services@.len() && is_pds(#[trigger] services@[i]) && (forall|j: int|
                0 <= j < i ==> !is_pds(#[trigger] services@[j])) && (services@[i].endpoint
                matches Some(x) && x@ == e@),
        forall|i: int|
            0 <= i < services@.len() && is_pds(#[trigger] services@[i]) && (forall|j: int|
                0 <= j < i ==> !is_pds(#[trigger] services@[j])) ==> (r is Some
                <==> services@[i].endpoint is Some),
{
    let pds: String = "#atproto_pds".to_owned();
    let n = services.len();
    let mut i: usize = 0;
    while i < n
        invariant
            n == services@.len(),
            i <= n,
            pds@ == "#atproto_pds"@,
            forall|j: int| 0 <= j < i ==> !is_pds(#[trigger] services@[j]),
        decreases n - i,
    {
        let found = match &services[i].id {
            Some(id) => *id == pds,
            None => false,
        };
        if found {
            proof {
                assert(is_pds(services@[i as int]));
                assert forall|i2: int|
                    0 <= i2 < services@.len() && is_pds(#[trigger] services@[i2]) && (forall|j: int|
                        0 <= j < i2 ==> !is_pds(#[trigger] services@[j])) implies i2 == i by {
                    if i2 < i {
                    } else if i2 > i {
                        assert(!is_pds(services@[i as int]));
                    }
                }
            }
            return match &services[i].endpoint {
                Some(e) => Some(e.clone()),
                None => None,
            };
        }
        i = i + 1;
    }
    None
}

/// `<endpoint>/xrpc/com.atproto.sync.getRepo?did=<did>`, with `&since=<rev>`
/// when a revision is known.
pub open spec fn get_repo_url_spec(endpoint: Seq<char>, did: Seq<char>, since: Option<Seq<char>>) -> Seq<
    char,
> {
    let base = endpoint + "/xrpc/com.atproto.sync.getRepo?did="@ + did;
    match since {
        Some(s) => base + "&since="@ + s,
        None => base,
    }
}

pub fn get_repo_url(endpoint: &str, did: &str, since: Option<&str>) -> (r: String)
    ensures
        r@ == get_repo_url_spec(
            endpoint@,
            did@,
            match since {
                Some(s) => Some(s@),
                None => None,
            },
        ),
{
    let mut u = String::new();
    u.append(endpoint);
    u.append("/xrpc/com.atproto.sync.getRepo?did=");
    u.append(did);
    if let Some(s) = since {
        u.append("&since=");
        u.append(s);
    }
    u
}

} // verus!
