//! Unsigned LEB128 integers, as the compacted store's columns hold them.
use vstd::prelude::*;

verus! {

/// The unsigned LEB128 bytes of `n`: seven bits per byte, lowest group first,
/// the top bit set on every byte but the last.
pub open spec fn leb128(n: nat) -> Seq<u8>
    decreases n,
{
    if n < 128 {
        seq![n as u8]
    } else {
        seq![(n % 128 + 128) as u8] + leb128(n / 128)
    }
}

pub open spec fn pow128(k: nat) -> nat
    decreases k,
{
    if k == 0 {
        1
    } else {
        128 * pow128((k - 1) as nat)
    }
}

proof fn lemma_leb128_len_below(n: nat, k: nat)
    requires
        k >= 1,
        n < pow128(k),
    ensures
        leb128(n).len() <= k,
    decreases n,
{
    if n >= 128 {
        if k == 1 {
            assert(pow128(1) == 128) by {
                reveal_with_fuel(pow128, 2);
            }
        }
        let k1 = (k - 1) as nat;
        assert(pow128(k) == 128 * pow128(k1));
        assert(n / 128 < pow128(k1)) by (nonlinear_arith)
            requires
                n < 128 * pow128(k1),
        ;
        lemma_leb128_len_below(n / 128, k1);
    }
}

/// A `u64` takes at most 10 bytes, a `u32` at most 5.
pub proof fn lemma_leb128_len(n: nat)
    ensures
        n <= u64::MAX ==> leb128(n).len() <= 10,
        n <= u32::MAX ==> leb128(n).len() <= 5,
{
    assert(pow128(5) == 34359738368) by {
        reveal_with_fuel(pow128, 6);
    }
    assert(pow128(10) == 1180591620717411303424) by {
        reveal_with_fuel(pow128, 11);
    }
    if n <= u64::MAX {
        lemma_leb128_len_below(n, 10);
    }
    if n <= u32::MAX {
        lemma_leb128_len_below(n, 5);
    }
}

/// What a decoder must give for `buf` when `buf` starts with the bytes of `n`.
pub open spec fn decodes_to<T: Integer>(buf: Seq<u8>, n: nat, r: Option<(T, usize)>) -> bool {
    leb128(n).len() <= buf.len() && buf.subrange(0, leb128(n).len() as int) == leb128(n)
        ==> (r matches Some((v, k)) && v as int == n && k == leb128(n).len())
}

/// Relies on unsigned_varint::encode::u64: the minimal LEB128 bytes of `n`.
#[verifier::external_body]
fn encode_u64_bytes(n: u64) -> (r: Vec<u8>)
    ensures
        r@ == leb128(n as nat),
{
    let mut buf = unsigned_varint::encode::u64_buffer();
    unsigned_varint::encode::u64(n, &mut buf).to_vec()
}

/// Relies on unsigned_varint::encode::u32: the minimal LEB128 bytes of `n`.
#[verifier::external_body]
fn encode_u32_bytes(n: u32) -> (r: Vec<u8>)
    ensures
        r@ == leb128(n as nat),
{
    let mut buf = unsigned_varint::encode::u32_buffer();
    unsigned_varint::encode::u32(n, &mut buf).to_vec()
}

/// A decoder's answer on `buf`, for every value of at most `max` whose bytes
/// start `buf`: that value, and what follows its bytes.
pub open spec fn prefix_decoded<T: Integer>(buf: Seq<u8>, max: nat, r: Option<(T, &[u8])>) -> bool {
    forall|n: nat|
        n <= max && #[trigger] leb128(n).len() <= buf.len() && buf.subrange(
            0,
            leb128(n).len() as int,
        ) == leb128(n) ==> (r matches Some((v, rest)) && v as int == n && rest@ == buf.subrange(
            leb128(n).len() as int,
            buf.len() as int,
        ))
}

/// Relies on unsigned_varint::decode::u64: a buffer that starts with the
/// minimal bytes of a `u64` decodes to it, and the rest is handed back.
#[verifier::external_body]
fn decode_u64_prefix(buf: &[u8]) -> (r: Option<(u64, &[u8])>)
    ensures
        prefix_decoded(buf@, u64::MAX as nat, r),
{
    unsigned_varint::decode::u64(buf).ok()
}

/// Relies on unsigned_varint::decode::u32: a buffer that starts with the
/// minimal bytes of a `u32` decodes to it, and the rest is handed back.
#[verifier::external_body]
fn decode_u32_prefix(buf: &[u8]) -> (r: Option<(u32, &[u8])>)
    ensures
        prefix_decoded(buf@, u32::MAX as nat, r),
{
    unsigned_varint::decode::u32(buf).ok()
}

/// Appends the LEB128 bytes of `n` to `out`.
pub fn write_u64(out: &mut Vec<u8>, n: u64)
    ensures
        final(out)@ == old(out)@ + leb128(n as nat),
{
    let mut b = encode_u64_bytes(n);
    out.append(&mut b);
}

/// Appends the LEB128 bytes of `n` to `out`.
pub fn write_u32(out: &mut Vec<u8>, n: u32)
    ensures
        final(out)@ == old(out)@ + leb128(n as nat),
{
    let mut b = encode_u32_bytes(n);
    out.append(&mut b);
}

/// Reads a LEB128 `u64` at `pos`; gives the value and the number of bytes read.
pub fn read_u64(buf: &[u8], pos: usize) -> (r: Option<(u64, usize)>)
    requires
        pos <= buf@.len(),
    ensures
        forall|n: nat|
            n <= u64::MAX ==> #[trigger] decodes_to(
                buf@.subrange(pos as int, buf@.len() as int),
                n,
                r,
            ),
{
    let len = buf.len();
    let tail = vstd::slice::slice_subrange(buf, pos, len);
    match decode_u64_prefix(tail) {
        Some((v, rest)) => {
            if rest.len() <= tail.len() {
                Some((v, tail.len() - rest.len()))
            } else {
                None
            }
        },
        None => None,
    }
}

/// Reads a LEB128 `u32` at `pos`; gives the value and the number of bytes read.
pub fn read_u32(buf: &[u8], pos: usize) -> (r: Option<(u32, usize)>)
    requires
        pos <= buf@.len(),
    ensures
        forall|n: nat|
            n <= u32::MAX ==> #[trigger] decodes_to(
                buf@.subrange(pos as int, buf@.len() as int),
                n,
                r,
            ),
{
    let len = buf.len();
    let tail = vstd::slice::slice_subrange(buf, pos, len);
    match decode_u32_prefix(tail) {
        Some((v, rest)) => {
            if rest.len() <= tail.len() {
                Some((v, tail.len() - rest.len()))
            } else {
                None
            }
        },
        None => None,
    }
}

} // verus!
