//! The decoder: one function for each rule of the grammar.

use vstd::prelude::*;
use vstd::slice::slice_subrange;
use vstd::string::*;
use vstd::utf8::*;
use crate::grammar::{
    fails, is_rest_of, spec_array, spec_boolean, spec_close, spec_field_len, spec_int, spec_key,
    spec_keyval, spec_null, spec_pairs, spec_string, spec_value, starts_with, tag_array,
    tag_string, yields, ParseError, CLOSE_BRACE, COLON, KIND_ARRAY, KIND_BOOL, KIND_INT,
    KIND_NULL, KIND_STRING, ONE, OPEN_BRACE, QUOTE, SEMICOLON, ZERO,
};
use crate::helper::{buf_to_i64, buf_to_u32, digit_prefix_len, lemma_digit_prefix, to_string};
use crate::value::{insert_entry, Array, Key, Value};

verus! {

/// Splits a buffer after the ASCII digits that it begins with.
///
/// Trusted: this is `nom::digit` on a byte slice. It walks the bytes up to the
/// first that is not in `0x30..=0x39` and returns what follows the digits and
/// the digits; it does not match where the buffer is empty or begins with
/// another byte.
#[verifier::external_body]
fn digit_run(input: &[u8]) -> (res: Option<(&[u8], &[u8])>)
    ensures
        res.is_some() == (digit_prefix_len(input@) > 0),
        res.is_some() ==> res.unwrap().0@ == input@.skip(digit_prefix_len(input@) as int),
        res.is_some() ==> res.unwrap().1@ == input@.take(digit_prefix_len(input@) as int),
{
    match nom::digit(input) {
        nom::IResult::Done(rest, run) => Some((rest, run)),
        nom::IResult::Error(_) => None,
        nom::IResult::Incomplete(_) => None,
    }
}

/// The bytes of the two-letter tags that are written as text.
proof fn lemma_tag_text()
    ensures
        "s:".spec_bytes() == tag_string(),
        "a:".spec_bytes() == tag_array(),
{
    broadcast use is_ascii_spec_bytes;

    reveal_strlit("s:");
    reveal_strlit("a:");
    assert(is_ascii("s:"));
    assert(is_ascii("a:"));
    assert("s:".spec_bytes() =~= tag_string());
    assert("a:".spec_bytes() =~= tag_array());
}

/// Whether `input` begins with `tag`.
fn has_prefix(input: &[u8], tag: &[u8]) -> (b: bool)
    ensures
        b == starts_with(input@, tag@),
{
    if tag.len() > input.len() {
        return false;
    }
    let mut i: usize = 0;
    while i < tag.len()
        invariant
            i <= tag.len() <= input.len(),
            forall|j: int| 0 <= j < i ==> input@[j] == tag@[j],
        decreases tag.len() - i,
    {
        if input[i] != tag[i] {
            assert(input@.take(tag@.len() as int)[i as int] != tag@[i as int]);
            return false;
        }
        i = i + 1;
    }
    assert(input@.take(tag@.len() as int) =~= tag@);
    true
}

/// Whether `input` begins with the two bytes `a` and `b`.
fn has_tag(input: &[u8], a: u8, b: u8) -> (res: bool)
    ensures
        res == starts_with(input@, seq![a, b]),
{
    if input.len() >= 2 && input[0] == a && input[1] == b {
        assert(input@.take(2) =~= seq![a, b]);
        true
    } else {
        if input.len() >= 2 {
            assert(input@.take(2)[0] == input@[0]);
            assert(input@.take(2)[1] == input@[1]);
        }
        false
    }
}

/// What is left of `input` after its first `n` bytes.
fn skip(input: &[u8], n: usize) -> (rest: &[u8])
    requires
        n <= input@.len(),
    ensures
        rest@ == input@.skip(n as int),
{
    let rest = slice_subrange(input, n, input.len());
    assert(rest@ =~= input@.skip(n as int));
    rest
}

/// Decodes a length field: `pref`, one or more digits and a colon.
pub fn field_len<'a>(input: &'a [u8], pref: &str) -> (res: Result<(&'a [u8], u32), ParseError>)
    ensures
        match res {
            Ok((rest, n)) => yields(spec_field_len(input@, pref.spec_bytes()), rest@, n)
                && rest@.len() + pref.spec_bytes().len() + 2 <= input@.len()
                && rest@ == input@.skip(input@.len() - rest@.len()),
            Err(e) => fails(spec_field_len(input@, pref.spec_bytes()), e),
        },
{
    proof {
        reveal(spec_field_len);
    }
    let tag = pref.as_bytes();
    if !has_prefix(input, tag) {
        return Err(ParseError::Tag);
    }
    let body = skip(input, tag.len());
    proof {
        lemma_digit_prefix(body@);
    }
    match digit_run(body) {
        None => Err(ParseError::Length),
        Some((after, run)) => {
            match buf_to_u32(run) {
                None => Err(ParseError::Number),
                Some(n) => {
                    if after.len() == 0 || after[0] != COLON {
                        Err(ParseError::Length)
                    } else {
                        let rest = skip(after, 1);
                        proof {
                            let k = digit_prefix_len(body@) as int;
                            assert(rest@ =~= body@.skip(k + 1));
                            assert(rest@ =~= input@.skip(input@.len() - rest@.len()));
                        }
                        Ok((rest, n))
                    }
                },
            }
        },
    }
}

/// Decodes a boolean: `b:0;` or `b:1;`.
pub fn boolean(input: &[u8]) -> (res: Result<(&[u8], bool), ParseError>)
    ensures
        match res {
            Ok((rest, b)) => yields(spec_boolean(input@), rest@, b) && is_rest_of(rest@, input@),
            Err(e) => fails(spec_boolean(input@), e),
        },
{
    if !has_tag(input, KIND_BOOL, COLON) {
        return Err(ParseError::Tag);
    }
    if input.len() < 3 || (input[2] != ZERO && input[2] != ONE) {
        return Err(ParseError::Digit);
    }
    if input.len() < 4 || input[3] != SEMICOLON {
        return Err(ParseError::Delimiter);
    }
    Ok((skip(input, 4), input[2] == ONE))
}

/// Decodes a string: `s:`, its length in bytes, `:"`, the bytes, `";`.
pub fn string(input: &[u8]) -> (res: Result<(&[u8], &str), ParseError>)
    ensures
        match res {
            Ok((rest, text)) => yields(spec_string(input@), rest@, text@) && is_rest_of(
                rest@,
                input@,
            ),
            Err(e) => fails(spec_string(input@), e),
        },
{
    proof {
        lemma_tag_text();
        reveal(spec_string);
    }
    match field_len(input, "s:") {
        Err(e) => Err(e),
        Ok((r, n)) => {
            if r.len() == 0 || r[0] != QUOTE {
                return Err(ParseError::Delimiter);
            }
            let count = n as usize;
            if r.len() - 1 < count {
                return Err(ParseError::Truncated);
            }
            let bytes = slice_subrange(r, 1, 1 + count);
            match to_string(bytes) {
                None => Err(ParseError::Text),
                Some(text) => {
                    if r.len() - 1 - count < 2 || r[1 + count] != QUOTE || r[2 + count]
                        != SEMICOLON {
                        return Err(ParseError::Delimiter);
                    }
                    let rest = skip(r, 3 + count);
                    proof {
                        assert(rest@ =~= input@.skip(input@.len() - rest@.len()));
                    }
                    Ok((rest, text))
                },
            }
        },
    }
}

/// Decodes an integer: `i:`, one or more digits, `;`.
pub fn integer(input: &[u8]) -> (res: Result<(&[u8], i64), ParseError>)
    ensures
        match res {
            Ok((rest, i)) => yields(spec_int(input@), rest@, i) && is_rest_of(rest@, input@),
            Err(e) => fails(spec_int(input@), e),
        },
{
    proof {
        reveal(spec_int);
    }
    if !has_tag(input, KIND_INT, COLON) {
        return Err(ParseError::Tag);
    }
    let body = skip(input, 2);
    proof {
        lemma_digit_prefix(body@);
    }
    match digit_run(body) {
        None => Err(ParseError::Digit),
        Some((after, run)) => {
            match buf_to_i64(run) {
                None => Err(ParseError::Number),
                Some(i) => {
                    if after.len() == 0 || after[0] != SEMICOLON {
                        Err(ParseError::Delimiter)
                    } else {
                        let rest = skip(after, 1);
                        proof {
                            let k = digit_prefix_len(body@) as int;
                            assert(rest@ =~= body@.skip(k + 1));
                            assert(rest@ =~= input@.skip(input@.len() - rest@.len()));
                        }
                        Ok((rest, i))
                    }
                },
            }
        },
    }
}

/// Decodes the null marker `N;`.
pub fn null(input: &[u8]) -> (res: Result<(&[u8], ()), ParseError>)
    ensures
        match res {
            Ok((rest, u)) => yields(spec_null(input@), rest@, u) && is_rest_of(rest@, input@),
            Err(e) => fails(spec_null(input@), e),
        },
{
    if has_tag(input, KIND_NULL, SEMICOLON) {
        Ok((skip(input, 2), ()))
    } else {
        Err(ParseError::Tag)
    }
}

/// Decodes an array key: a string or an integer.
pub fn key(input: &[u8]) -> (res: Result<(&[u8], Key), ParseError>)
    ensures
        match res {
            Ok((rest, k)) => yields(spec_key(input@), rest@, k@) && is_rest_of(rest@, input@),
            Err(e) => fails(spec_key(input@), e),
        },
{
    if has_tag(input, KIND_STRING, COLON) {
        match string(input) {
            Ok((rest, text)) => Ok((rest, Key::Str(text.to_owned()))),
            Err(e) => Err(e),
        }
    } else if has_tag(input, KIND_INT, COLON) {
        match integer(input) {
            Ok((rest, i)) => Ok((rest, Key::Int(i))),
            Err(e) => Err(e),
        }
    } else {
        Err(ParseError::Key)
    }
}

/// Decodes a key and the value that follows it.
pub fn keyval(input: &[u8]) -> (res: Result<(&[u8], (Key, Value)), ParseError>)
    ensures
        match res {
            Ok((rest, kv)) => yields(spec_keyval(input@), rest@, (kv.0@, kv.1@)) && is_rest_of(
                rest@,
                input@,
            ),
            Err(e) => fails(spec_keyval(input@), e),
        },
    decreases input@.len(), 3int,
{
    match key(input) {
        Err(e) => Err(e),
        Ok((r, k)) => match value(r) {
            Err(e) => Err(e),
            Ok((rest, v)) => {
                proof {
                    assert(rest@ =~= input@.skip(input@.len() - rest@.len()));
                }
                Ok((rest, (k, v)))
            },
        },
    }
}

/// Decodes an array: `a:`, the number of its pairs, `:{`, the pairs, `}`.
/// The pairs go into the map in the order in which they stand; a key that
/// comes again keeps its first place and takes the later value.
pub fn array(input: &[u8]) -> (res: Result<(&[u8], Array), ParseError>)
    ensures
        match res {
            Ok((rest, a)) => yields(spec_array(input@), rest@, a@) && is_rest_of(rest@, input@)
                && a.well_formed(),
            Err(e) => fails(spec_array(input@), e),
        },
    decreases input@.len(), 1int,
{
    proof {
        lemma_tag_text();
    }
    match field_len(input, "a:") {
        Err(e) => Err(e),
        Ok((r, n)) => {
            if r.len() == 0 || r[0] != OPEN_BRACE {
                return Err(ParseError::Delimiter);
            }
            let start = skip(r, 1);
            let mut cur = start;
            let mut a = Array::new();
            let mut i: u32 = 0;
            proof {
                assert(start@ =~= input@.skip(input@.len() - start@.len()));
                assert(spec_array(input@) == spec_close(
                    spec_pairs(start@, n as nat, Seq::empty()),
                ));
            }
            while i < n
                invariant
                    i <= n,
                    is_rest_of(cur@, input@),
                    a.well_formed(),
                    spec_array(input@) == spec_close(spec_pairs(cur@, (n - i) as nat, a@)),
                decreases n - i,
            {
                let ghost before = spec_pairs(cur@, (n - i) as nat, a@);
                match keyval(cur) {
                    Err(e) => {
                        assert(fails(before, e));
                        return Err(e);
                    },
                    Ok((next, (k, v))) => {
                        proof {
                            assert(next@ =~= input@.skip(input@.len() - next@.len()));
                            assert(before == spec_pairs(
                                next@,
                                (n - i - 1) as nat,
                                insert_entry(a@, k@, v@),
                            ));
                        }
                        a.insert(k, v);
                        cur = next;
                        i = i + 1;
                    },
                }
            }
            if cur.len() == 0 || cur[0] != CLOSE_BRACE {
                return Err(ParseError::Delimiter);
            }
            let rest = skip(cur, 1);
            proof {
                assert(rest@ =~= input@.skip(input@.len() - rest@.len()));
            }
            Ok((rest, a))
        },
    }
}

/// Whether `res` is what decoding `input` gives: the value that the grammar
/// finds at the front of `input` with the bytes after it, or the grammar's
/// reason for finding none.
pub open spec fn decodes(input: Seq<u8>, res: Result<(&[u8], Value), ParseError>) -> bool {
    match res {
        Ok((rest, v)) => yields(spec_value(input), rest@, v@) && is_rest_of(rest@, input),
        Err(e) => fails(spec_value(input), e),
    }
}

/// Decodes one value from the front of `input` and returns it with the
/// bytes that follow it.
pub fn value(input: &[u8]) -> (res: Result<(&[u8], Value), ParseError>)
    ensures
        decodes(input@, res),
    decreases input@.len(), 2int,
{
    if has_tag(input, KIND_BOOL, COLON) {
        match boolean(input) {
            Ok((rest, b)) => Ok((rest, Value::Bool(b))),
            Err(e) => Err(e),
        }
    } else if has_tag(input, KIND_STRING, COLON) {
        match string(input) {
            Ok((rest, text)) => Ok((rest, Value::Str(text.to_owned()))),
            Err(e) => Err(e),
        }
    } else if has_tag(input, KIND_INT, COLON) {
        match integer(input) {
            Ok((rest, i)) => Ok((rest, Value::Int(i))),
            Err(e) => Err(e),
        }
    } else if has_tag(input, KIND_NULL, SEMICOLON) {
        match null(input) {
            Ok((rest, _)) => Ok((rest, Value::Null)),
            Err(e) => Err(e),
        }
    } else if has_tag(input, KIND_ARRAY, COLON) {
        match array(input) {
            Ok((rest, a)) => Ok((rest, Value::Array(a))),
            Err(e) => Err(e),
        }
    } else {
        Err(ParseError::Tag)
    }
}

/// Decoding is a function of the bytes: two buffers that hold the same bytes
/// both decode, to equal values and equal rests, or both fail, for the same
/// reason.
pub proof fn lemma_same_bytes_same_value(
    a: &[u8],
    ra: Result<(&[u8], Value), ParseError>,
    b: &[u8],
    rb: Result<(&[u8], Value), ParseError>,
)
    requires
        a@ == b@,
        decodes(a@, ra),
        decodes(b@, rb),
    ensures
        match (ra, rb) {
            (Ok((r1, v1)), Ok((r2, v2))) => r1@ == r2@ && v1@ == v2@,
            (Err(e1), Err(e2)) => e1 == e2,
            _ => false,
        },
{
}

} // verus!
