//! What holds of the grammar on every buffer.

use vstd::prelude::*;
use vstd::utf8::{decode_utf8_encode_utf8, encode_utf8};
use crate::grammar::{
    consumes, fails, lemma_field_len_rest, lemma_leaf_rest, spec_array, spec_close,
    spec_field_len, spec_key, spec_keyval, spec_pairs, spec_string, spec_value, starts_with,
    tag_array, tag_bool, tag_int, tag_null, tag_string, yields, ParseError, CLOSE_BRACE,
    OPEN_BRACE, QUOTE, SEMICOLON,
};
use crate::value::{
    all_well_formed, distinct_keys, insert_entry, lemma_insert_distinct,
    lemma_insert_well_formed, well_formed, KeyModel, ValueModel,
};

verus! {

/// A buffer that begins with none of `b:`, `s:`, `i:`, `N;` and `a:` does
/// not decode: [`spec_value`] fails on it with [`ParseError::Tag`].
pub proof fn lemma_unknown_tag_fails(s: Seq<u8>)
    requires
        !starts_with(s, tag_bool()),
        !starts_with(s, tag_string()),
        !starts_with(s, tag_int()),
        !starts_with(s, tag_null()),
        !starts_with(s, tag_array()),
    ensures
        fails(spec_value(s), ParseError::Tag),
{
}

/// A value that decodes takes at least one byte from the front of the
/// buffer, and what is returned with it is the rest of the buffer.
pub proof fn lemma_value_rest(s: Seq<u8>)
    ensures
        consumes(spec_value(s), s),
    decreases s.len(), 2int,
{
    lemma_leaf_rest(s);
    if starts_with(s, tag_bool()) {
    } else if starts_with(s, tag_string()) {
    } else if starts_with(s, tag_int()) {
    } else if starts_with(s, tag_null()) {
    } else if starts_with(s, tag_array()) {
        lemma_array_rest(s);
    }
}

/// An array that decodes leaves what follows its closing brace.
pub proof fn lemma_array_rest(s: Seq<u8>)
    ensures
        consumes(spec_array(s), s),
    decreases s.len(), 1int,
{
    lemma_field_len_rest(s, tag_array());
    match spec_field_len(s, tag_array()) {
        Ok((r, n)) => {
            if r.len() > 0 && r[0] == OPEN_BRACE {
                let start = r.skip(1);
                assert(start =~= s.skip(s.len() - start.len()));
                lemma_pairs_rest(start, n as nat, Seq::empty());
                match spec_pairs(start, n as nat, Seq::empty()) {
                    Ok((r2, _)) => {
                        if r2.len() > 0 {
                            assert(r2.skip(1) =~= s.skip(s.len() - r2.skip(1).len()));
                        }
                    },
                    Err(_) => {},
                }
            }
        },
        Err(_) => {},
    }
}

/// A pair that decodes leaves what follows its value.
pub proof fn lemma_keyval_rest(s: Seq<u8>)
    ensures
        consumes(spec_keyval(s), s),
    decreases s.len(), 3int,
{
    lemma_leaf_rest(s);
    match spec_key(s) {
        Ok((r, _)) => {
            lemma_value_rest(r);
            match spec_value(r) {
                Ok((r2, _)) => {
                    assert(r2 =~= s.skip(s.len() - r2.len()));
                },
                Err(_) => {},
            }
        },
        Err(_) => {},
    }
}

/// Pairs that decode leave what follows the last of them: the buffer itself
/// where there is none. Each pair takes at least one byte, so the test on the
/// lengths in [`spec_pairs`] holds wherever it is made.
pub proof fn lemma_pairs_rest(s: Seq<u8>, n: nat, acc: Seq<(KeyModel, ValueModel)>)
    ensures
        match spec_pairs(s, n, acc) {
            Ok((rest, _)) => rest.len() <= s.len() && rest == s.skip(s.len() - rest.len()),
            Err(_) => true,
        },
        n > 0 ==> consumes(spec_pairs(s, n, acc), s),
        n > 0 ==> match spec_keyval(s) {
            Ok((r, _)) => r.len() < s.len(),
            Err(_) => true,
        },
    decreases s.len(), 4int,
{
    if n == 0 {
        assert(s =~= s.skip(0));
    } else {
        lemma_keyval_rest(s);
        match spec_keyval(s) {
            Ok((r, kv)) => {
                let next = insert_entry(acc, kv.0, kv.1);
                lemma_pairs_rest(r, (n - 1) as nat, next);
                match spec_pairs(r, (n - 1) as nat, next) {
                    Ok((rest, _)) => {
                        assert(rest =~= s.skip(s.len() - rest.len()));
                    },
                    Err(_) => {},
                }
            },
            Err(_) => {},
        }
    }
}

/// Decoding `k + m` pairs is decoding `k` pairs and then `m` more from where
/// they end.
pub proof fn lemma_pairs_split(s: Seq<u8>, k: nat, m: nat, acc: Seq<(KeyModel, ValueModel)>)
    ensures
        spec_pairs(s, k + m, acc) == match spec_pairs(s, k, acc) {
            Ok((r, entries)) => spec_pairs(r, m, entries),
            Err(e) => Err(e),
        },
    decreases k,
{
    if k > 0 {
        match spec_keyval(s) {
            Ok((r, kv)) => {
                if r.len() < s.len() {
                    lemma_pairs_split(r, (k - 1) as nat, m, insert_entry(acc, kv.0, kv.1));
                }
            },
            Err(_) => {},
        }
    }
}

/// An array that declares more pairs than stand before its closing brace
/// does not decode: where `k` pairs, fewer than the `n` declared, are
/// followed by `}` or by the end of the buffer, [`spec_array`] fails.
pub proof fn lemma_short_array_fails(
    s: Seq<u8>,
    r: Seq<u8>,
    n: u32,
    k: nat,
    after: Seq<u8>,
    entries: Seq<(KeyModel, ValueModel)>,
)
    requires
        yields(spec_field_len(s, tag_array()), r, n),
        r.len() > 0 && r[0] == OPEN_BRACE,
        k < n,
        yields(spec_pairs(r.skip(1), k, Seq::empty()), after, entries),
        after.len() == 0 || after[0] == CLOSE_BRACE,
    ensures
        spec_array(s).is_err(),
{
    let m = (n - k) as nat;
    lemma_pairs_split(r.skip(1), k, m, Seq::empty());
    assert(k + m == n as nat);
    assert(spec_pairs(r.skip(1), n as nat, Seq::empty()) == spec_pairs(after, m, entries));
    assert(!starts_with(after, tag_string())) by {
        if after.len() >= 2 {
            assert(after.take(2)[0] == after[0]);
        }
    }
    assert(!starts_with(after, tag_int())) by {
        if after.len() >= 2 {
            assert(after.take(2)[0] == after[0]);
        }
    }
    assert(fails(spec_key(after), ParseError::Key));
    assert(fails(spec_keyval(after), ParseError::Key));
    assert(fails(spec_pairs(after, m, entries), ParseError::Key));
    assert(spec_array(s) == spec_close(spec_pairs(r.skip(1), n as nat, Seq::empty())));
}

/// Pairs set into a map without a repeated key give a map without one.
pub proof fn lemma_pairs_distinct(s: Seq<u8>, n: nat, acc: Seq<(KeyModel, ValueModel)>)
    requires
        distinct_keys(acc),
    ensures
        match spec_pairs(s, n, acc) {
            Ok((_, entries)) => distinct_keys(entries) && entries.len() <= acc.len() + n,
            Err(_) => true,
        },
    decreases n,
{
    if n > 0 {
        match spec_keyval(s) {
            Ok((r, kv)) => {
                if r.len() < s.len() {
                    lemma_insert_distinct(acc, kv.0, kv.1);
                    lemma_pairs_distinct(r, (n - 1) as nat, insert_entry(acc, kv.0, kv.1));
                }
            },
            Err(_) => {},
        }
    }
}

/// No key occurs twice in a decoded array, and the array has no more
/// entries than it declares pairs.
pub proof fn lemma_array_distinct(s: Seq<u8>)
    ensures
        match spec_array(s) {
            Ok((_, entries)) => distinct_keys(entries) && (spec_field_len(s, tag_array()) matches Ok(
                (_, n),
            ) && entries.len() <= n),
            Err(_) => true,
        },
{
    match spec_field_len(s, tag_array()) {
        Ok((r, n)) => {
            if r.len() > 0 && r[0] == OPEN_BRACE {
                lemma_pairs_distinct(r.skip(1), n as nat, Seq::empty());
            }
        },
        Err(_) => {},
    }
}

/// A string decodes only where its declared length is the length of its
/// text in bytes: the bytes between the quotes are the UTF-8 encoding of the
/// text, neither cut short nor read past.
pub proof fn lemma_string_length_exact(s: Seq<u8>)
    ensures
        match spec_string(s) {
            Ok((rest, text)) => spec_field_len(s, tag_string()) matches Ok((r, n)) && {
                &&& n + 3 <= r.len()
                &&& encode_utf8(text) == r.subrange(1, 1 + n)
                &&& encode_utf8(text).len() == n
                &&& r[0] == QUOTE
                &&& r[1 + n] == QUOTE
                &&& r[2 + n] == SEMICOLON
                &&& rest == r.skip(3 + n)
            },
            Err(_) => true,
        },
{
    reveal(spec_string);
    match spec_field_len(s, tag_string()) {
        Ok((r, n)) => {
            if spec_string(s).is_ok() {
                decode_utf8_encode_utf8(r.subrange(1, 1 + n));
            }
        },
        Err(_) => {},
    }
}

/// No array in a decoded value holds a key twice, at whatever depth.
pub proof fn lemma_value_well_formed(s: Seq<u8>)
    ensures
        match spec_value(s) {
            Ok((_, v)) => well_formed(v),
            Err(_) => true,
        },
    decreases s.len(), 2int,
{
    if starts_with(s, tag_bool()) {
    } else if starts_with(s, tag_string()) {
    } else if starts_with(s, tag_int()) {
    } else if starts_with(s, tag_null()) {
    } else if starts_with(s, tag_array()) {
        lemma_array_well_formed(s);
    }
}

/// The entries of a decoded array are well-formed.
pub proof fn lemma_array_well_formed(s: Seq<u8>)
    ensures
        match spec_array(s) {
            Ok((_, entries)) => all_well_formed(entries),
            Err(_) => true,
        },
    decreases s.len(), 1int,
{
    lemma_field_len_rest(s, tag_array());
    match spec_field_len(s, tag_array()) {
        Ok((r, n)) => {
            if r.len() > 0 && r[0] == OPEN_BRACE {
                lemma_pairs_well_formed(r.skip(1), n as nat, Seq::empty());
            }
        },
        Err(_) => {},
    }
}

/// The value of a decoded pair is well-formed.
pub proof fn lemma_keyval_well_formed(s: Seq<u8>)
    ensures
        match spec_keyval(s) {
            Ok((_, kv)) => well_formed(kv.1),
            Err(_) => true,
        },
    decreases s.len(), 3int,
{
    lemma_leaf_rest(s);
    match spec_key(s) {
        Ok((r, _)) => {
            lemma_value_well_formed(r);
        },
        Err(_) => {},
    }
}

/// Pairs set into well-formed entries give well-formed entries.
pub proof fn lemma_pairs_well_formed(s: Seq<u8>, n: nat, acc: Seq<(KeyModel, ValueModel)>)
    requires
        all_well_formed(acc),
    ensures
        match spec_pairs(s, n, acc) {
            Ok((_, entries)) => all_well_formed(entries),
            Err(_) => true,
        },
    decreases s.len(), 4int,
{
    if n > 0 {
        lemma_keyval_well_formed(s);
        match spec_keyval(s) {
            Ok((r, kv)) => {
                if r.len() < s.len() {
                    lemma_insert_well_formed(acc, kv.0, kv.1);
                    lemma_pairs_well_formed(r, (n - 1) as nat, insert_entry(acc, kv.0, kv.1));
                }
            },
            Err(_) => {},
        }
    }
}

} // verus!
