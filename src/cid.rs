//! Version-1 content identifiers with a SHA-256 digest, as fixed-size values.
use vstd::array::ArrayAdditionalExecFns;
use vstd::arithmetic::power2::pow2;
use vstd::prelude::*;

verus! {

/// A CIDv1: `meta` packs version, codec and hash type one byte each, lowest first.
pub struct CidV1 {
    pub meta: u32,
    pub hash: [u8; 32],
}

/// Packs version, codec and hash type into the `meta` word.
pub fn cidv1_meta(version: u8, codec: u8, hash_type: u8) -> (r: u32)
    ensures
        r == version as u32 | ((codec as u32) << 8u32) | ((hash_type as u32) << 16u32),
        r & 0xff == version,
        (r >> 8u32) & 0xff == codec,
        (r >> 16u32) & 0xff == hash_type,
{
    let r = version as u32 | ((codec as u32) << 8u32) | ((hash_type as u32) << 16u32);
    let v = version as u32;
    let c = codec as u32;
    let h = hash_type as u32;
    assert((v | (c << 8u32) | (h << 16u32)) & 0xff == v) by (bit_vector)
        requires
            v < 256,
            c < 256,
            h < 256,
    ;
    assert(((v | (c << 8u32) | (h << 16u32)) >> 8u32) & 0xff == c) by (bit_vector)
        requires
            v < 256,
            c < 256,
            h < 256,
    ;
    assert(((v | (c << 8u32) | (h << 16u32)) >> 16u32) & 0xff == h) by (bit_vector)
        requires
            v < 256,
            c < 256,
            h < 256,
    ;
    r
}

pub open spec fn meta_of(version: u8, codec: u8, hash_type: u8) -> u32 {
    version as u32 | ((codec as u32) << 8u32) | ((hash_type as u32) << 16u32)
}

/// The bytes that the multibase string `s` decodes to, or `None` when it is
/// not a multibase string.
pub uninterp spec fn multibase_decoded(s: Seq<char>) -> Option<Seq<u8>>;

pub open spec fn base32_alphabet() -> Seq<char> {
    seq![
        'a', 'b', 'c', 'd', 'e', 'f', 'g', 'h', 'i', 'j', 'k', 'l', 'm', 'n', 'o', 'p',
        'q', 'r', 's', 't', 'u', 'v', 'w', 'x', 'y', 'z', '2', '3', '4', '5', '6', '7',
    ]
}

/// Bit `i` of `b`, most significant bit of each byte first; 0 past the end.
pub open spec fn bit_of(b: Seq<u8>, i: int) -> int {
    if 0 <= i < 8 * b.len() {
        (b[i / 8] as int / pow2((7 - i % 8) as nat) as int) % 2
    } else {
        0
    }
}

/// The `j`-th group of five bits of `b`, as a number below 32.
pub open spec fn group_of_five(b: Seq<u8>, j: int) -> int {
    16 * bit_of(b, 5 * j) + 8 * bit_of(b, 5 * j + 1) + 4 * bit_of(b, 5 * j + 2) + 2 * bit_of(
        b,
        5 * j + 3,
    ) + bit_of(b, 5 * j + 4)
}

/// The multibase string of `b` in lower-case base 32 without padding: the
/// prefix `b`, then one character per group of five bits, the last group
/// filled with zero bits.
pub open spec fn base32_lower_of(b: Seq<u8>) -> Seq<char> {
    seq!['b'] + Seq::new(
        ((8 * b.len() + 4) / 5) as nat,
        |j: int| base32_alphabet()[group_of_five(b, j)],
    )
}

/// Relies on multibase::decode: the bytes that a multibase string spells,
/// whichever base its first character names.
#[verifier::external_body]
fn multibase_decode(s: &str) -> (r: Option<Vec<u8>>)
    ensures
        match (r, multibase_decoded(s@)) {
            (Some(v), Some(b)) => v@ == b,
            (None, None) => true,
            _ => false,
        },
{
    multibase::decode(s).ok().map(|p| p.1)
}

/// Relies on multibase::encode with Base::Base32Lower: the prefix `b`, then
/// RFC 4648 base 32 in lower case, without padding.
#[verifier::external_body]
fn multibase_base32(b: &[u8]) -> (r: String)
    ensures
        r@ == base32_lower_of(b@),
{
    multibase::encode(multibase::Base::Base32Lower, b)
}

/// Why bytes are not a CIDv1 with a 32-byte SHA-256 digest.
#[derive(Clone, Copy, Debug, PartialEq, Eq, Structural)]
pub enum CidError {
    /// The string is not multibase.
    BadMultibase,
    /// Fewer bytes than the header and digest take.
    TooShort,
    /// The version byte is not 1.
    BadVersion,
    /// The hash type is not SHA-256 (0x12).
    BadHashType,
    /// The digest length is not 32.
    BadHashSize,
}

/// Why the bytes `b` are refused, if they are.
pub open spec fn cid_bytes_error(b: Seq<u8>) -> Option<CidError> {
    if b.len() < 4 {
        Some(CidError::TooShort)
    } else if b[0] != 1 {
        Some(CidError::BadVersion)
    } else if b[2] != 0x12 {
        Some(CidError::BadHashType)
    } else if b[3] != 32 {
        Some(CidError::BadHashSize)
    } else if b.len() < 36 {
        Some(CidError::TooShort)
    } else {
        None
    }
}

/// `version, codec, hash type, digest length` then the digest.
pub open spec fn cid_bytes(c: CidV1) -> Seq<u8> {
    seq![(c.meta & 0xff) as u8, ((c.meta >> 8u32) & 0xff) as u8, ((c.meta >> 16u32) & 0xff) as u8, 32u8]
        + c.hash@
}

impl CidV1 {
    /// Reads a CID from its bytes; bytes after the digest are ignored.
    pub fn from_bytes(data: &[u8]) -> (r: Result<CidV1, CidError>)
        ensures
            match cid_bytes_error(data@) {
                Some(e) => r == Err::<CidV1, CidError>(e),
                None => r matches Ok(c) && c.meta == meta_of(data@[0], data@[1], data@[2])
                    && c.hash@ == data@.subrange(4, 36),
            },
    {
        let n = data.len();
        if n < 4 {
            return Err(CidError::TooShort);
        }
        if data[0] != 1 {
            return Err(CidError::BadVersion);
        }
        if data[2] != 0x12 {
            return Err(CidError::BadHashType);
        }
        if data[3] != 32 {
            return Err(CidError::BadHashSize);
        }
        if n < 36 {
            return Err(CidError::TooShort);
        }
        let mut hash = [0u8; 32];
        let mut i: usize = 0;
        while i < 32
            invariant
                n == data@.len(),
                n >= 36,
                i <= 32,
                hash@.len() == 32,
                forall|k: int| 0 <= k < i ==> hash@[k] == data@[k + 4],
            decreases 32 - i,
        {
            hash.set(i, data[i + 4]);
            i = i + 1;
        }
        proof {
            assert(hash@ =~= data@.subrange(4, 36));
        }
        Ok(CidV1 { meta: cidv1_meta(data[0], data[1], data[2]), hash })
    }

    /// Reads a CID from its multibase string.
    pub fn from_multibase(s: &str) -> (r: Result<CidV1, CidError>)
        ensures
            match multibase_decoded(s@) {
                None => r == Err::<CidV1, CidError>(CidError::BadMultibase),
                Some(b) => match cid_bytes_error(b) {
                    Some(e) => r == Err::<CidV1, CidError>(e),
                    None => r matches Ok(c) && c.meta == meta_of(b[0], b[1], b[2]) && c.hash@
                        == b.subrange(4, 36),
                },
            },
    {
        match multibase_decode(s) {
            Some(b) => CidV1::from_bytes(b.as_slice()),
            None => Err(CidError::BadMultibase),
        }
    }

    /// The bytes of the CID.
    pub fn to_bytes(&self) -> (r: Vec<u8>)
        ensures
            r@ == cid_bytes(*self),
    {
        let mut out: Vec<u8> = Vec::new();
        out.push((self.meta & 0xff) as u8);
        out.push(((self.meta >> 8u32) & 0xff) as u8);
        out.push(((self.meta >> 16u32) & 0xff) as u8);
        out.push(32);
        let mut i: usize = 0;
        while i < 32
            invariant
                i <= 32,
                self.hash@.len() == 32,
                out@.len() == 4 + i,
                out@.subrange(0, 4) == cid_bytes(*self).subrange(0, 4),
                forall|k: int| 0 <= k < i ==> out@[4 + k] == self.hash@[k],
            decreases 32 - i,
        {
            out.push(self.hash[i]);
            proof {
                assert(out@.subrange(0, 4) =~= cid_bytes(*self).subrange(0, 4));
            }
            i = i + 1;
        }
        proof {
            let c = cid_bytes(*self);
            assert forall|k: int| 0 <= k < 36 implies out@[k] == c[k] by {
                if k < 4 {
                    assert(out@.subrange(0, 4)[k] == c.subrange(0, 4)[k]);
                } else {
                    assert(out@[4 + (k - 4)] == self.hash@[k - 4]);
                }
            }
            assert(out@ =~= c);
        }
        out
    }

    /// The multibase string of the CID (lower-case base 32).
    pub fn to_multibase(&self) -> (r: String)
        ensures
            r@ == base32_lower_of(cid_bytes(*self)),
    {
        let b = self.to_bytes();
        multibase_base32(b.as_slice())
    }
}

} // verus!
