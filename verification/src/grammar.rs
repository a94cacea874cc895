//! The wire format as a function from bytes to a value model and the bytes
//! that follow it.
//!
//! ```text
//! value  := bool | string | int | null | array
//! bool   := "b:" ("0" | "1") ";"
//! string := "s:" digits ":" "\"" <n bytes> "\";"
//! int    := "i:" digits ";"
//! null   := "N;"
//! array  := "a:" digits ":" "{" <n pairs> "}"
//! pair   := key value
//! key    := string | int
//! ```

use vstd::prelude::*;
use vstd::utf8::*;
use crate::helper::{dec_value, digit_prefix_len, lemma_digit_prefix};
use crate::value::{insert_entry, KeyModel, ValueModel};

verus! {

/// The letter `b`, which opens a boolean.
pub const KIND_BOOL: u8 = 98;

/// The letter `s`, which opens a string.
pub const KIND_STRING: u8 = 115;

/// The letter `i`, which opens an integer.
pub const KIND_INT: u8 = 105;

/// The letter `N`, which opens the null marker.
pub const KIND_NULL: u8 = 78;

/// The letter `a`, which opens an array.
pub const KIND_ARRAY: u8 = 97;

pub const COLON: u8 = 58;

pub const SEMICOLON: u8 = 59;

pub const QUOTE: u8 = 34;

pub const OPEN_BRACE: u8 = 123;

pub const CLOSE_BRACE: u8 = 125;

pub const ZERO: u8 = 48;

pub const ONE: u8 = 49;

/// Why a buffer does not decode.
#[derive(Debug, PartialEq, Eq, Clone, Copy)]
pub enum ParseError {
    /// The buffer does not begin with the tag that is expected there, or
    /// with the tag of any value.
    Tag,
    /// A length field has no digit, or no colon after its digits.
    Length,
    /// A string declares more bytes than the buffer holds.
    Truncated,
    /// A quote, brace or semicolon is not where it has to be.
    Delimiter,
    /// Neither a string nor an integer stands where a key is expected.
    Key,
    /// A digit run denotes more than its integer type holds.
    Number,
    /// A digit is missing: the flag of a boolean is not `0` or `1`, or an
    /// integer has no digit.
    Digit,
    /// The bytes of a string are not UTF-8.
    Text,
}

/// The outcome of a grammar rule: the bytes after the match and what was
/// matched, or the reason for which the rule does not match.
pub type Outcome<T> = Result<(Seq<u8>, T), ParseError>;

/// The bytes `b:`.
pub open spec fn tag_bool() -> Seq<u8> {
    seq![KIND_BOOL, COLON]
}

/// The bytes `s:`.
pub open spec fn tag_string() -> Seq<u8> {
    seq![KIND_STRING, COLON]
}

/// The bytes `i:`.
pub open spec fn tag_int() -> Seq<u8> {
    seq![KIND_INT, COLON]
}

/// The bytes `N;`.
pub open spec fn tag_null() -> Seq<u8> {
    seq![KIND_NULL, SEMICOLON]
}

/// The bytes `a:`.
pub open spec fn tag_array() -> Seq<u8> {
    seq![KIND_ARRAY, COLON]
}

/// Whether `s` begins with `tag`.
pub open spec fn starts_with(s: Seq<u8>, tag: Seq<u8>) -> bool {
    tag.len() <= s.len() && s.take(tag.len() as int) == tag
}

/// Whether `rest` is what is left of `s` after at least one byte is taken
/// from its front.
pub open spec fn is_rest_of(rest: Seq<u8>, s: Seq<u8>) -> bool {
    rest.len() < s.len() && rest == s.skip(s.len() - rest.len())
}

/// Whether `r` is a match that leaves `rest` and gives `v`.
pub open spec fn yields<T>(r: Outcome<T>, rest: Seq<u8>, v: T) -> bool {
    r == Ok::<(Seq<u8>, T), ParseError>((rest, v))
}

/// Whether `r` is the failure `e`.
pub open spec fn fails<T>(r: Outcome<T>, e: ParseError) -> bool {
    r == Err::<(Seq<u8>, T), ParseError>(e)
}

/// A length field: `tag`, one or more digits, a colon.
#[verifier::opaque]
pub open spec fn spec_field_len(s: Seq<u8>, tag: Seq<u8>) -> Outcome<u32> {
    if !starts_with(s, tag) {
        Err(ParseError::Tag)
    } else {
        let body = s.skip(tag.len() as int);
        let n = digit_prefix_len(body) as int;
        if n == 0 {
            Err(ParseError::Length)
        } else if dec_value(body.take(n)) > u32::MAX {
            Err(ParseError::Number)
        } else if n >= body.len() || body[n] != COLON {
            Err(ParseError::Length)
        } else {
            Ok((body.skip(n + 1), dec_value(body.take(n)) as u32))
        }
    }
}

/// `b:0;` or `b:1;`.
pub open spec fn spec_boolean(s: Seq<u8>) -> Outcome<bool> {
    if !starts_with(s, tag_bool()) {
        Err(ParseError::Tag)
    } else if s.len() < 3 || (s[2] != ZERO && s[2] != ONE) {
        Err(ParseError::Digit)
    } else if s.len() < 4 || s[3] != SEMICOLON {
        Err(ParseError::Delimiter)
    } else {
        Ok((s.skip(4), s[2] == ONE))
    }
}

/// `s:`, a byte count `n`, `:"`, `n` bytes of UTF-8, `";`.
#[verifier::opaque]
pub open spec fn spec_string(s: Seq<u8>) -> Outcome<Seq<char>> {
    match spec_field_len(s, tag_string()) {
        Err(e) => Err(e),
        Ok((r, n)) => {
            if r.len() == 0 || r[0] != QUOTE {
                Err(ParseError::Delimiter)
            } else if r.len() - 1 < n {
                Err(ParseError::Truncated)
            } else if !valid_utf8(r.subrange(1, 1 + n)) {
                Err(ParseError::Text)
            } else if r.len() - 1 - n < 2 || r[1 + n] != QUOTE || r[2 + n] != SEMICOLON {
                Err(ParseError::Delimiter)
            } else {
                Ok((r.skip(3 + n), decode_utf8(r.subrange(1, 1 + n))))
            }
        },
    }
}

/// `i:`, one or more digits, `;`.
#[verifier::opaque]
pub open spec fn spec_int(s: Seq<u8>) -> Outcome<i64> {
    if !starts_with(s, tag_int()) {
        Err(ParseError::Tag)
    } else {
        let body = s.skip(2);
        let n = digit_prefix_len(body) as int;
        if n == 0 {
            Err(ParseError::Digit)
        } else if dec_value(body.take(n)) > i64::MAX {
            Err(ParseError::Number)
        } else if n >= body.len() || body[n] != SEMICOLON {
            Err(ParseError::Delimiter)
        } else {
            Ok((body.skip(n + 1), dec_value(body.take(n)) as i64))
        }
    }
}

/// `N;`.
pub open spec fn spec_null(s: Seq<u8>) -> Outcome<()> {
    if starts_with(s, tag_null()) {
        Ok((s.skip(2), ()))
    } else {
        Err(ParseError::Tag)
    }
}

/// A key: a string or an integer, told apart by the tag.
pub open spec fn spec_key(s: Seq<u8>) -> Outcome<KeyModel> {
    if starts_with(s, tag_string()) {
        match spec_string(s) {
            Ok((r, t)) => Ok((r, KeyModel::Str(t))),
            Err(e) => Err(e),
        }
    } else if starts_with(s, tag_int()) {
        match spec_int(s) {
            Ok((r, i)) => Ok((r, KeyModel::Int(i as int))),
            Err(e) => Err(e),
        }
    } else {
        Err(ParseError::Key)
    }
}

/// A value: the rule that the first two bytes select.
pub open spec fn spec_value(s: Seq<u8>) -> Outcome<ValueModel>
    decreases s.len(), 2int,
{
    if starts_with(s, tag_bool()) {
        match spec_boolean(s) {
            Ok((r, b)) => Ok((r, ValueModel::Bool(b))),
            Err(e) => Err(e),
        }
    } else if starts_with(s, tag_string()) {
        match spec_string(s) {
            Ok((r, t)) => Ok((r, ValueModel::Str(t))),
            Err(e) => Err(e),
        }
    } else if starts_with(s, tag_int()) {
        match spec_int(s) {
            Ok((r, i)) => Ok((r, ValueModel::Int(i as int))),
            Err(e) => Err(e),
        }
    } else if starts_with(s, tag_null()) {
        match spec_null(s) {
            Ok((r, _)) => Ok((r, ValueModel::Null)),
            Err(e) => Err(e),
        }
    } else if starts_with(s, tag_array()) {
        match spec_array(s) {
            Ok((r, entries)) => Ok((r, ValueModel::Array(entries))),
            Err(e) => Err(e),
        }
    } else {
        Err(ParseError::Tag)
    }
}

/// The closing brace that has to follow the pairs of an array.
pub open spec fn spec_close(pairs: Outcome<Seq<(KeyModel, ValueModel)>>) -> Outcome<
    Seq<(KeyModel, ValueModel)>,
> {
    match pairs {
        Err(e) => Err(e),
        Ok((r, entries)) => {
            if r.len() == 0 || r[0] != CLOSE_BRACE {
                Err(ParseError::Delimiter)
            } else {
                Ok((r.skip(1), entries))
            }
        },
    }
}

/// `a:`, a pair count `n`, `:{`, `n` pairs, `}`. The pairs are set into an
/// empty map one after the other.
pub open spec fn spec_array(s: Seq<u8>) -> Outcome<Seq<(KeyModel, ValueModel)>>
    decreases s.len(), 1int,
    via spec_array_decreases
{
    match spec_field_len(s, tag_array()) {
        Err(e) => Err(e),
        Ok((r, n)) => {
            if r.len() == 0 || r[0] != OPEN_BRACE {
                Err(ParseError::Delimiter)
            } else {
                spec_close(spec_pairs(r.skip(1), n as nat, Seq::empty()))
            }
        },
    }
}

/// `n` pairs back to back, each set into `acc` as it is met.
///
/// A pair takes at least one byte, so the test on the lengths never fails
/// (see `lemma_pairs_rest`); it is there to make the definition well-founded.
pub open spec fn spec_pairs(s: Seq<u8>, n: nat, acc: Seq<(KeyModel, ValueModel)>) -> Outcome<
    Seq<(KeyModel, ValueModel)>,
>
    decreases s.len(), 4int,
{
    if n == 0 {
        Ok((s, acc))
    } else {
        match spec_keyval(s) {
            Err(e) => Err(e),
            Ok((r, kv)) => {
                if r.len() < s.len() {
                    spec_pairs(r, (n - 1) as nat, insert_entry(acc, kv.0, kv.1))
                } else {
                    Err(ParseError::Key)
                }
            },
        }
    }
}

/// A key and, right after it, a value.
pub open spec fn spec_keyval(s: Seq<u8>) -> Outcome<(KeyModel, ValueModel)>
    decreases s.len(), 3int,
    via spec_keyval_decreases
{
    match spec_key(s) {
        Err(e) => Err(e),
        Ok((r, k)) => match spec_value(r) {
            Err(e) => Err(e),
            Ok((r2, v)) => Ok((r2, (k, v))),
        },
    }
}

/// Whether a match, if `r` is one, took at least one byte from the front of
/// `s` and left the rest.
pub open spec fn consumes<T>(r: Outcome<T>, s: Seq<u8>) -> bool {
    match r {
        Ok((rest, _)) => is_rest_of(rest, s),
        Err(_) => true,
    }
}

/// A length field that matches leaves what follows its colon.
pub proof fn lemma_field_len_rest(s: Seq<u8>, tag: Seq<u8>)
    ensures
        consumes(spec_field_len(s, tag), s),
{
    reveal(spec_field_len);
    if starts_with(s, tag) {
        let body = s.skip(tag.len() as int);
        lemma_digit_prefix(body);
        let n = digit_prefix_len(body) as int;
        if 0 < n < body.len() {
            assert(body.skip(n + 1) =~= s.skip(s.len() - body.skip(n + 1).len()));
        }
    }
}

/// A boolean, string, integer, null marker or key that matches leaves what
/// follows it.
pub proof fn lemma_leaf_rest(s: Seq<u8>)
    ensures
        consumes(spec_boolean(s), s),
        consumes(spec_string(s), s),
        consumes(spec_int(s), s),
        consumes(spec_null(s), s),
        consumes(spec_key(s), s),
{
    assert(consumes(spec_string(s), s)) by {
        reveal(spec_string);
        lemma_field_len_rest(s, tag_string());
        match spec_field_len(s, tag_string()) {
            Ok((r, n)) => {
                if spec_string(s).is_ok() {
                    let rest = r.skip(3 + n);
                    assert(rest =~= s.skip(s.len() - rest.len()));
                }
            },
            Err(_) => {},
        }
    }
    assert(consumes(spec_int(s), s)) by {
        reveal(spec_int);
        if starts_with(s, tag_int()) {
            let body = s.skip(2);
            lemma_digit_prefix(body);
            let n = digit_prefix_len(body) as int;
            if 0 < n < body.len() {
                assert(body.skip(n + 1) =~= s.skip(s.len() - body.skip(n + 1).len()));
            }
        }
    }
}

#[via_fn]
proof fn spec_array_decreases(s: Seq<u8>) {
    lemma_field_len_rest(s, tag_array());
}

#[via_fn]
proof fn spec_keyval_decreases(s: Seq<u8>) {
    lemma_leaf_rest(s);
}

} // verus!
