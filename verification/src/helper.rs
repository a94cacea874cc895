//! Conversions between byte buffers, text and numbers.

use vstd::prelude::*;
use vstd::string::*;
use vstd::utf8::*;

verus! {

/// Whether `b` is one of the ASCII digits `0` to `9`.
pub open spec fn is_digit(b: u8) -> bool {
    48 <= b <= 57
}

/// Whether `s` is made of ASCII digits only.
pub open spec fn all_digits(s: Seq<u8>) -> bool {
    forall|i: int| 0 <= i < s.len() ==> is_digit(#[trigger] s[i])
}

/// The number of ASCII digits that `s` begins with.
pub open spec fn digit_prefix_len(s: Seq<u8>) -> nat
    decreases s.len(),
{
    if s.len() > 0 && is_digit(s[0]) {
        1 + digit_prefix_len(s.skip(1))
    } else {
        0
    }
}

/// What the digit `b` counts for; a byte that is no digit counts for nothing.
pub open spec fn digit_value(b: u8) -> nat {
    if is_digit(b) {
        (b - 48) as nat
    } else {
        0
    }
}

/// The number that `s` denotes when read as a base-10 digit run.
pub open spec fn dec_value(s: Seq<u8>) -> nat
    decreases s.len(),
{
    if s.len() == 0 {
        0
    } else {
        dec_value(s.drop_last()) * 10 + digit_value(s.last())
    }
}

/// The number that `s` denotes, where `s` is a non-empty digit run whose
/// value is at most `max`.
pub open spec fn bounded_decimal(s: Seq<u8>, max: nat) -> Option<nat> {
    if s.len() > 0 && all_digits(s) && dec_value(s) <= max {
        Some(dec_value(s))
    } else {
        None
    }
}

/// What [`buf_to_u32`] returns on `s`.
pub open spec fn spec_u32(s: Seq<u8>) -> Option<u32> {
    match bounded_decimal(s, u32::MAX as nat) {
        Some(v) => Some(v as u32),
        None => None,
    }
}

/// What [`buf_to_i64`] returns on `s`.
pub open spec fn spec_i64(s: Seq<u8>) -> Option<i64> {
    match bounded_decimal(s, i64::MAX as nat) {
        Some(v) => Some(v as i64),
        None => None,
    }
}

/// A digit run denotes at least what any of its prefixes denotes.
pub proof fn lemma_dec_value_prefix(s: Seq<u8>, n: int)
    requires
        0 <= n <= s.len(),
    ensures
        dec_value(s.take(n)) <= dec_value(s),
    decreases s.len() - n,
{
    if n == s.len() {
        assert(s.take(n) =~= s);
    } else {
        assert(s.take(n + 1).drop_last() =~= s.take(n));
        lemma_dec_value_prefix(s, n + 1);
    }
}

/// The digits that open `s` are digits, and the byte after them, if any, is none.
pub proof fn lemma_digit_prefix(s: Seq<u8>)
    ensures
        digit_prefix_len(s) <= s.len(),
        all_digits(s.take(digit_prefix_len(s) as int)),
        digit_prefix_len(s) < s.len() ==> !is_digit(s[digit_prefix_len(s) as int]),
    decreases s.len(),
{
    if s.len() > 0 && is_digit(s[0]) {
        let t = s.skip(1);
        lemma_digit_prefix(t);
        let n = digit_prefix_len(s) as int;
        assert forall|i: int| 0 <= i < n implies is_digit(#[trigger] s.take(n)[i]) by {
            if i > 0 {
                assert(s.take(n)[i] == t.take(n - 1)[i - 1]);
            }
        }
    }
}

/// Reads `s` as a base-10 digit run with a value of at most `max`.
fn decimal(s: &[u8], max: u64) -> (res: Option<u64>)
    ensures
        res.is_some() == bounded_decimal(s@, max as nat).is_some(),
        res.is_some() ==> res.unwrap() as nat == bounded_decimal(s@, max as nat).unwrap(),
{
    if s.len() == 0 {
        return None;
    }
    let mut acc: u128 = 0;
    let mut i: usize = 0;
    while i < s.len()
        invariant
            0 <= i <= s.len(),
            all_digits(s@.take(i as int)),
            acc as nat == dec_value(s@.take(i as int)),
            acc <= max,
        decreases s.len() - i,
    {
        let b: u8 = s[i];
        proof {
            assert(s@.take(i + 1).drop_last() =~= s@.take(i as int));
            assert(s@.take(i + 1).last() == b);
        }
        if b < 48 || b > 57 {
            assert(!is_digit(s@[i as int]));
            return None;
        }
        let next: u128 = acc * 10 + (b - 48) as u128;
        if next > max as u128 {
            proof {
                lemma_dec_value_prefix(s@, i + 1);
            }
            return None;
        }
        proof {
            assert forall|j: int| 0 <= j < i + 1 implies is_digit(#[trigger] s@.take(i + 1)[j]) by {
                if j < i {
                    assert(s@.take(i + 1)[j] == s@.take(i as int)[j]);
                }
            }
        }
        acc = next;
        i = i + 1;
    }
    proof {
        assert(s@.take(i as int) =~= s@);
    }
    Some(acc as u64)
}

/// Reads a run of ASCII digits as an unsigned 32-bit number: `None` where
/// the buffer is empty, holds a byte that is no digit, or denotes more than
/// `u32::MAX`.
pub fn buf_to_u32(s: &[u8]) -> (res: Option<u32>)
    ensures
        res == spec_u32(s@),
{
    match decimal(s, 0xffff_ffff) {
        Some(v) => Some(v as u32),
        None => None,
    }
}

/// Reads a run of ASCII digits as a signed 64-bit number: `None` where the
/// buffer is empty, holds a byte that is no digit, or denotes more than
/// `i64::MAX`.
pub fn buf_to_i64(s: &[u8]) -> (res: Option<i64>)
    ensures
        res == spec_i64(s@),
{
    match decimal(s, 0x7fff_ffff_ffff_ffff) {
        Some(v) => Some(v as i64),
        None => None,
    }
}

/// [`buf_to_u32`] on the bytes of a string slice.
pub fn to_u32(s: &str) -> (res: Option<u32>)
    ensures
        res == spec_u32(s.spec_bytes()),
{
    buf_to_u32(s.as_bytes())
}

/// [`buf_to_i64`] on the bytes of a string slice.
pub fn to_i64(s: &str) -> (res: Option<i64>)
    ensures
        res == spec_i64(s.spec_bytes()),
{
    buf_to_i64(s.as_bytes())
}

/// Reads a byte buffer as text.
///
/// Trusted: this is `core::str::from_utf8`. The contract claims what its
/// documentation says: the call succeeds exactly on well-formed UTF-8, and the
/// slice it returns is the text that those bytes encode.
#[verifier::external_body]
pub fn to_string(s: &[u8]) -> (res: Option<&str>)
    ensures
        res.is_some() == valid_utf8(s@),
        res.is_some() ==> res.unwrap()@ == decode_utf8(s@),
{
    match core::str::from_utf8(s) {
        Ok(text) => Some(text),
        Err(_) => None,
    }
}

} // verus!
