//! Base-32 codec for timestamp identifiers (TIDs), the default record keys.
use vstd::arithmetic::div_mod::lemma_mod_breakdown;
use vstd::prelude::*;

verus! {

/// A TID is always this many characters long.
pub const TID_LEN: usize = 13;

/// The sortable base-32 alphabet, in digit order.
pub open spec fn s32_alphabet() -> Seq<char> {
    seq![
        '2', '3', '4', '5', '6', '7', 'a', 'b', 'c', 'd', 'e', 'f', 'g', 'h', 'i', 'j',
        'k', 'l', 'm', 'n', 'o', 'p', 'q', 'r', 's', 't', 'u', 'v', 'w', 'x', 'y', 'z',
    ]
}

/// The digit value of `c`, or -1 when `c` is not in the alphabet.
pub open spec fn s32_digit(c: char) -> int {
    if '2' <= c && c <= '7' {
        c as int - '2' as int
    } else if 'a' <= c && c <= 'z' {
        c as int - 'a' as int + 6
    } else {
        -1
    }
}

pub open spec fn is_s32_char(c: char) -> bool {
    s32_digit(c) >= 0
}

pub open spec fn all_s32(s: Seq<char>) -> bool {
    forall|i: int| 0 <= i < s.len() ==> is_s32_char(#[trigger] s[i])
}

/// The TID grammar: exactly 13 characters, each from the alphabet.
pub open spec fn is_tid_spec(s: Seq<char>) -> bool {
    s.len() == TID_LEN && all_s32(s)
}

/// The number that a string of alphabet characters spells, most significant digit first.
pub open spec fn s32_value(s: Seq<char>) -> nat
    decreases s.len(),
{
    if s.len() == 0 {
        0
    } else {
        (s32_value(s.drop_last()) * 32 + s32_digit(s.last())) as nat
    }
}

/// The `k` lowest base-32 digits of `n`, most significant first, padded with the zero digit.
pub open spec fn s32_chars(n: nat, k: nat) -> Seq<char>
    decreases k,
{
    if k == 0 {
        Seq::empty()
    } else {
        s32_chars(n / 32, (k - 1) as nat).push(s32_alphabet()[(n % 32) as int])
    }
}

pub open spec fn pow32(k: nat) -> nat
    decreases k,
{
    if k == 0 {
        1
    } else {
        32 * pow32((k - 1) as nat)
    }
}

proof fn lemma_alphabet_digits()
    ensures
        forall|d: int| 0 <= d < 32 ==> s32_digit(#[trigger] s32_alphabet()[d]) == d,
        s32_alphabet().len() == 32,
{
    assert forall|d: int| 0 <= d < 32 implies s32_digit(#[trigger] s32_alphabet()[d]) == d by {
        reveal_with_fuel(s32_digit, 1);
    }
}

proof fn lemma_pow32_pos(k: nat)
    ensures
        pow32(k) > 0,
    decreases k,
{
    if k > 0 {
        lemma_pow32_pos((k - 1) as nat);
    }
}

/// `s32_chars(n, k)` has `k` alphabet characters and spells `n % 32^k`.
proof fn lemma_s32_chars(n: nat, k: nat)
    ensures
        s32_chars(n, k).len() == k,
        all_s32(s32_chars(n, k)),
        s32_value(s32_chars(n, k)) == n % pow32(k),
    decreases k,
{
    lemma_alphabet_digits();
    if k > 0 {
        let k1 = (k - 1) as nat;
        lemma_s32_chars(n / 32, k1);
        lemma_pow32_pos(k1);
        let s = s32_chars(n, k);
        assert(s.drop_last() == s32_chars(n / 32, k1));
        assert(s.last() == s32_alphabet()[(n % 32) as int]);
        lemma_mod_breakdown(n as int, 32, pow32(k1) as int);
        assert(all_s32(s)) by {
            assert forall|i: int| 0 <= i < s.len() implies is_s32_char(#[trigger] s[i]) by {
                if i < k1 {
                    assert(s[i] == s32_chars(n / 32, k1)[i]);
                }
            }
        }
    }
}

/// A prefix of an alphabet string never spells more than the whole string.
proof fn lemma_s32_value_prefix(s: Seq<char>, i: int)
    requires
        0 <= i <= s.len(),
        all_s32(s),
    ensures
        s32_value(s.subrange(0, i)) <= s32_value(s),
    decreases s.len() - i,
{
    if i < s.len() {
        lemma_s32_value_prefix(s, i + 1);
        let p = s.subrange(0, i + 1);
        assert(p.drop_last() == s.subrange(0, i));
        assert(p.last() == s[i]);
    } else {
        assert(s.subrange(0, i) == s);
    }
}

/// Encoding any number of the TID range gives a string of the TID grammar, and
/// decoding that string gives the number back.
pub proof fn lemma_tid_round_trip(n: u64)
    ensures
        is_tid_spec(s32_chars(n as nat, TID_LEN as nat)),
        s32_value(s32_chars(n as nat, TID_LEN as nat)) == n,
{
    lemma_s32_chars(n as nat, TID_LEN as nat);
    assert(pow32(TID_LEN as nat) == 36028797018963968u64 as nat * 1024) by {
        reveal_with_fuel(pow32, 14);
    }
    vstd::arithmetic::div_mod::lemma_small_mod(n as nat, pow32(TID_LEN as nat));
}

fn s32_push(s: &mut String, n: u64, k: usize)
    ensures
        final(s)@ == old(s)@ + s32_chars(n as nat, k as nat),
    decreases k,
{
    if k > 0 {
        s32_push(s, n / 32, k - 1);
        let d = (n % 32) as usize;
        let alphabet: &str = "234567abcdefghijklmnopqrstuvwxyz";
        proof {
            reveal_strlit("234567abcdefghijklmnopqrstuvwxyz");
            assert(alphabet@ == s32_alphabet());
        }
        let digit = alphabet.substring_char(d, d + 1);
        s.append(digit);
        proof {
            assert(digit@ == seq![s32_alphabet()[d as int]]);
            assert(final(s)@ == old(s)@ + s32_chars(n as nat, k as nat));
        }
    }
}

/// Encodes `i` as a 13-character TID string (zero digits pad the front).
pub fn s32encode(i: u64) -> (r: String)
    ensures
        r@ == s32_chars(i as nat, TID_LEN as nat),
        is_tid_spec(r@),
        s32_value(r@) == i,
{
    let mut s = String::new();
    s32_push(&mut s, i, TID_LEN);
    proof {
        assert(s@ == s32_chars(i as nat, TID_LEN as nat));
        lemma_tid_round_trip(i);
    }
    s
}

fn s32_digit_of(c: char) -> (r: i64)
    ensures
        r == s32_digit(c),
{
    if '2' <= c && c <= '7' {
        (c as u32 - '2' as u32) as i64
    } else if 'a' <= c && c <= 'z' {
        (c as u32 - 'a' as u32 + 6) as i64
    } else {
        -1
    }
}

/// Decodes a base-32 string whose number fits in 64 bits.
pub fn s32decode(s: &str) -> (r: u64)
    requires
        all_s32(s@),
        s32_value(s@) <= u64::MAX,
    ensures
        r == s32_value(s@),
{
    let n = s.unicode_len();
    let mut i: usize = 0;
    let mut acc: u64 = 0;
    while i < n
        invariant
            n == s@.len(),
            i <= n,
            all_s32(s@),
            s32_value(s@) <= u64::MAX,
            acc == s32_value(s@.subrange(0, i as int)),
        decreases n - i,
    {
        let c = s.get_char(i);
        let d = s32_digit_of(c);
        proof {
            let p = s@.subrange(0, i as int + 1);
            assert(p.drop_last() == s@.subrange(0, i as int));
            assert(p.last() == c);
            assert(is_s32_char(s@[i as int]));
            lemma_s32_value_prefix(s@, i as int + 1);
        }
        acc = acc * 32 + d as u64;
        i = i + 1;
    }
    proof {
        assert(s@.subrange(0, n as int) == s@);
    }
    acc
}

/// Whether `s` follows the TID grammar: 13 characters of the base-32 alphabet.
pub fn is_tid(s: &str) -> (r: bool)
    ensures
        r == is_tid_spec(s@),
{
    let n = s.unicode_len();
    if n != TID_LEN {
        return false;
    }
    let mut i: usize = 0;
    while i < n
        invariant
            n == s@.len(),
            i <= n,
            forall|j: int| 0 <= j < i ==> is_s32_char(#[trigger] s@[j]),
        decreases n - i,
    {
        let c = s.get_char(i);
        if s32_digit_of(c) < 0 {
            return false;
        }
        i = i + 1;
    }
    true
}

proof fn lemma_digit_injective(a: char, b: char)
    requires
        is_s32_char(a),
        is_s32_char(b),
        s32_digit(a) == s32_digit(b),
    ensures
        a == b,
{
    assert(a as int == b as int);
}

/// A string of the alphabet is the padded encoding of the number it spells.
pub proof fn lemma_s32_chars_of_value(s: Seq<char>)
    requires
        all_s32(s),
    ensures
        s32_chars(s32_value(s), s.len()) == s,
    decreases s.len(),
{
    if s.len() > 0 {
        let p = s.drop_last();
        assert(all_s32(p)) by {
            assert forall|i: int| 0 <= i < p.len() implies is_s32_char(#[trigger] p[i]) by {
                assert(p[i] == s[i]);
            }
        }
        lemma_s32_chars_of_value(p);
        let d = s32_digit(s.last());
        assert(is_s32_char(s[s.len() - 1]));
        let v = s32_value(s);
        assert(v == s32_value(p) * 32 + d);
        assert(v / 32 == s32_value(p));
        assert(v % 32 == d);
        lemma_alphabet_digits();
        lemma_digit_injective(s32_alphabet()[d], s.last());
        assert(s32_chars(v, s.len()) =~= p.push(s.last()));
        assert(p.push(s.last()) =~= s);
    }
}

/// Decodes a base-32 string, or gives `None` when its number does not fit in
/// 64 bits.
pub fn s32decode_checked(s: &str) -> (r: Option<u64>)
    requires
        all_s32(s@),
    ensures
        r is Some <==> s32_value(s@) <= u64::MAX,
        r matches Some(v) ==> v == s32_value(s@),
{
    let n = s.unicode_len();
    let mut i: usize = 0;
    let mut acc: u64 = 0;
    while i < n
        invariant
            n == s@.len(),
            i <= n,
            all_s32(s@),
            acc == s32_value(s@.subrange(0, i as int)),
        decreases n - i,
    {
        let c = s.get_char(i);
        let d = s32_digit_of(c);
        proof {
            let p = s@.subrange(0, i as int + 1);
            assert(p.drop_last() =~= s@.subrange(0, i as int));
            assert(p.last() == c);
            assert(is_s32_char(s@[i as int]));
        }
        if acc > (u64::MAX - d as u64) / 32 {
            proof {
                lemma_s32_value_prefix(s@, i as int + 1);
                assert(s32_value(s@.subrange(0, i as int + 1)) == acc * 32 + d);
                assert(acc * 32 + d > u64::MAX) by (nonlinear_arith)
                    requires
                        acc > (u64::MAX - d) / 32,
                        0 <= d < 32,
                ;
            }
            return None;
        }
        acc = acc * 32 + d as u64;
        i = i + 1;
    }
    proof {
        assert(s@.subrange(0, n as int) =~= s@);
    }
    Some(acc)
}

} // verus!
