use php_unserialize::{
    array, boolean, field_len, integer, key, keyval, null, string, value, Array, Key, Null,
    ParseError, Value,
};

fn nulls(keys: &[i64]) -> Array {
    let mut h = Array::new();
    for k in keys {
        h.insert(Key::Int(*k), Value::Null);
    }
    h
}

#[test]
fn test_boolean() {
    assert_eq!(Ok((&[][..], true)), boolean(b"b:1;"));
    assert_eq!(Ok((&[][..], false)), boolean(b"b:0;"));
}

#[test]
fn test_string() {
    assert_eq!(Ok((&[][..], "string")), string(br#"s:6:"string";"#));
    assert_eq!(Ok((&[][..], "āžčģā")), string(r#"s:10:"āžčģā";"#.as_bytes()));
}

#[test]
fn test_int() {
    assert_eq!(Ok((&[][..], 1)), integer(br#"i:1;"#));
    assert_eq!(Ok((&[][..], 12)), integer(br#"i:12;"#));
}

#[test]
fn test_null() {
    assert_eq!(Ok((&[][..], ())), null(b"N;"));
}

#[test]
fn test_key() {
    assert_eq!(Ok((&[][..], Key::Str("string".to_owned()))), key(br#"s:6:"string";"#));
    assert_eq!(Ok((&[][..], Key::Int(1))), key(br#"i:1;"#));
}

#[test]
fn test_keyval() {
    assert_eq!(Ok((&[][..], (Key::Int(1), Value::Int(1)))), keyval(br#"i:1;i:1;"#));
}

#[test]
fn test_array() {
    let mut h = Array::new();
    h.insert(Key::Int(0), Value::Null);
    h.insert(Key::Int(1), Value::Null);
    assert_eq!(Ok((&[][..], h)), array(br#"a:2:{i:0;N;i:1;N;}"#));
}

#[test]
fn test_value() {
    assert_eq!(Ok((&[][..], Value::Bool(false))), value(br#"b:0;"#));
    assert_eq!(Ok((&[][..], Value::Str("string".to_owned()))), value(br#"s:6:"string";"#));
    assert_eq!(Ok((&[][..], Value::Int(1))), value(br#"i:1;"#));
    assert_eq!(Ok((&[][..], Value::Null)), value(b"N;"));

    let mut most_inner = Array::new();
    most_inner.insert(Key::Int(0), Value::Int(1));

    let mut inner = Array::new();
    inner.insert(Key::Int(0), Value::Array(most_inner));

    let mut outer = Array::new();
    outer.insert(Key::Int(0), Value::Array(inner));

    assert_eq!(
        Ok((&[][..], Value::Array(outer))),
        value(br"a:1:{i:0;a:1:{i:0;a:1:{i:0;i:1;}}}")
    );
}

#[test]
fn null_struct_compares_equal() {
    assert_eq!(Null, Null);
}

#[test]
fn remainder_is_what_follows_the_value() {
    assert_eq!(Ok((&b"i:2;"[..], Value::Int(1))), value(b"i:1;i:2;"));
    assert_eq!(Ok((&b"rest"[..], true)), boolean(b"b:1;rest"));
    assert_eq!(Ok((&b"x"[..], "ab")), string(b"s:2:\"ab\";x"));
    assert_eq!(Ok((&b"}"[..], ())), null(b"N;}"));
    assert_eq!(Ok((&b"N;"[..], nulls(&[]))), array(b"a:0:{}N;"));
}

#[test]
fn field_len_reads_count_after_prefix() {
    assert_eq!(Ok((&b"\"ab\";"[..], 2)), field_len(b"s:2:\"ab\";", "s:"));
    assert_eq!(Ok((&b"{}"[..], 0)), field_len(b"a:0:{}", "a:"));
    assert_eq!(Ok((&b""[..], 7)), field_len(b"len=007:", "len="));
    assert_eq!(Ok((&b"x"[..], 4294967295)), field_len(b"s:4294967295:x", "s:"));
}

#[test]
fn field_len_failures() {
    assert_eq!(Err(ParseError::Tag), field_len(b"a:2:", "s:"));
    assert_eq!(Err(ParseError::Tag), field_len(b"s", "s:"));
    assert_eq!(Err(ParseError::Length), field_len(b"s::", "s:"));
    assert_eq!(Err(ParseError::Length), field_len(b"s:", "s:"));
    assert_eq!(Err(ParseError::Length), field_len(b"s:12", "s:"));
    assert_eq!(Err(ParseError::Length), field_len(b"s:12;", "s:"));
    assert_eq!(Err(ParseError::Number), field_len(b"s:4294967296:", "s:"));
}

#[test]
fn boolean_failures() {
    assert_eq!(Err(ParseError::Tag), boolean(b""));
    assert_eq!(Err(ParseError::Tag), boolean(b"i:1;"));
    assert_eq!(Err(ParseError::Digit), boolean(b"b:2;"));
    assert_eq!(Err(ParseError::Digit), boolean(b"b:"));
    assert_eq!(Err(ParseError::Delimiter), boolean(b"b:1"));
    assert_eq!(Err(ParseError::Delimiter), boolean(b"b:10;"));
}

#[test]
fn string_length_counts_bytes() {
    assert_eq!(Err(ParseError::Text), string("s:5:\"āžčģā\";".as_bytes()));
    assert_eq!(Err(ParseError::Text), string("s:9:\"āžčģā\";".as_bytes()));
    assert_eq!(Err(ParseError::Truncated), string("s:20:\"āžčģā\";".as_bytes()));
    assert_eq!(Err(ParseError::Delimiter), string(b"s:5:\"string\";"));
    assert_eq!(Err(ParseError::Delimiter), string(b"s:7:\"string\";"));
    assert_eq!(Ok((&[][..], "")), string(b"s:0:\"\";"));
}

#[test]
fn string_failures() {
    assert_eq!(Err(ParseError::Tag), string(b"i:1;"));
    assert_eq!(Err(ParseError::Length), string(b"s:\"a\";"));
    assert_eq!(Err(ParseError::Delimiter), string(b"s:1:a\";"));
    assert_eq!(Err(ParseError::Delimiter), string(b"s:1:"));
    assert_eq!(Err(ParseError::Truncated), string(b"s:3:\"ab"));
    assert_eq!(Err(ParseError::Delimiter), string(b"s:2:\"ab\""));
    assert_eq!(Err(ParseError::Delimiter), string(b"s:2:\"ab"));
    assert_eq!(Err(ParseError::Text), string(b"s:1:\"\xff\";"));
}

#[test]
fn integer_failures() {
    assert_eq!(Err(ParseError::Tag), integer(b"b:1;"));
    assert_eq!(Err(ParseError::Digit), integer(b"i:;"));
    assert_eq!(Err(ParseError::Digit), integer(b"i:-1;"));
    assert_eq!(Err(ParseError::Digit), integer(b"i:"));
    assert_eq!(Err(ParseError::Delimiter), integer(b"i:12"));
    assert_eq!(Err(ParseError::Delimiter), integer(b"i:12:"));
    assert_eq!(Err(ParseError::Number), integer(b"i:9223372036854775808;"));
}

#[test]
fn integer_reads_whole_digit_run() {
    assert_eq!(Ok((&[][..], 9223372036854775807)), integer(b"i:9223372036854775807;"));
    assert_eq!(Ok((&[][..], 7)), integer(b"i:007;"));
    assert_eq!(Ok((&[][..], 1234567890)), integer(b"i:1234567890;"));
    assert_eq!(Ok((&[][..], 0)), integer(b"i:0;"));
}

#[test]
fn key_rejects_other_values() {
    assert_eq!(Err(ParseError::Key), key(b"b:1;"));
    assert_eq!(Err(ParseError::Key), key(b"N;"));
    assert_eq!(Err(ParseError::Key), key(b"a:0:{}"));
    assert_eq!(Err(ParseError::Key), key(b""));
    assert_eq!(Err(ParseError::Digit), key(b"i:x;"));
    assert_eq!(Err(ParseError::Key), keyval(b"N;i:1;"));
    assert_eq!(Err(ParseError::Tag), keyval(b"i:1;"));
    assert_eq!(Err(ParseError::Tag), keyval(b"i:1;x"));
}

#[test]
fn keyval_with_string_key() {
    assert_eq!(
        Ok((&b"}"[..], (Key::Str("k".to_owned()), Value::Bool(true)))),
        keyval(b"s:1:\"k\";b:1;}")
    );
}

#[test]
fn value_rejects_unknown_tags() {
    assert_eq!(Err(ParseError::Tag), value(b""));
    assert_eq!(Err(ParseError::Tag), value(b"x"));
    assert_eq!(Err(ParseError::Tag), value(b"d:1.5;"));
    assert_eq!(Err(ParseError::Tag), value(b"n;"));
    assert_eq!(Err(ParseError::Tag), value(b"N"));
    assert_eq!(Err(ParseError::Tag), value(b" i:1;"));
    assert_eq!(Err(ParseError::Tag), value(b"O:1:\"a\":0:{}"));
}

#[test]
fn value_passes_on_the_failure_of_its_rule() {
    assert_eq!(Err(ParseError::Digit), value(b"b:x;"));
    assert_eq!(Err(ParseError::Number), value(b"i:99999999999999999999;"));
    assert_eq!(Err(ParseError::Truncated), value(b"s:4:\"abc"));
    assert_eq!(Err(ParseError::Delimiter), value(b"a:0:}"));
}

#[test]
fn array_keeps_insertion_order() {
    let (rest, a) = array(b"a:3:{i:5;b:1;s:1:\"k\";i:7;i:2;N;}").unwrap();
    assert_eq!(rest, &[][..]);
    assert_eq!(a.len(), 3);
    assert_eq!(a.get_index(0), Some((&Key::Int(5), &Value::Bool(true))));
    assert_eq!(a.get_index(1), Some((&Key::Str("k".to_owned()), &Value::Int(7))));
    assert_eq!(a.get_index(2), Some((&Key::Int(2), &Value::Null)));
    assert_eq!(a.get_index(3), None);
}

#[test]
fn array_of_two_nulls_in_order() {
    let (_, a) = array(b"a:2:{i:0;N;i:1;N;}").unwrap();
    assert_eq!(a.len(), 2);
    assert_eq!(a.get_index(0), Some((&Key::Int(0), &Value::Null)));
    assert_eq!(a.get_index(1), Some((&Key::Int(1), &Value::Null)));
}

#[test]
fn array_repeated_key_keeps_place_and_takes_later_value() {
    let (rest, a) = array(b"a:3:{i:1;i:10;i:2;i:20;i:1;i:30;}").unwrap();
    assert_eq!(rest, &[][..]);
    assert_eq!(a.len(), 2);
    assert_eq!(a.get_index(0), Some((&Key::Int(1), &Value::Int(30))));
    assert_eq!(a.get_index(1), Some((&Key::Int(2), &Value::Int(20))));
}

#[test]
fn array_count_must_match_pairs() {
    assert_eq!(Err(ParseError::Key), array(b"a:3:{i:0;N;i:1;N;}"));
    assert_eq!(Err(ParseError::Key), array(b"a:1:{}"));
    assert_eq!(Err(ParseError::Delimiter), array(b"a:1:{i:0;N;i:1;N;}"));
    assert_eq!(Err(ParseError::Delimiter), array(b"a:0:{i:0;N;}"));
    assert_eq!(Err(ParseError::Key), value(b"a:2:{i:0;N;}"));
}

#[test]
fn array_failures() {
    assert_eq!(Err(ParseError::Tag), array(b"s:1:\"a\";"));
    assert_eq!(Err(ParseError::Length), array(b"a:{}"));
    assert_eq!(Err(ParseError::Length), array(b"a:1{}"));
    assert_eq!(Err(ParseError::Number), array(b"a:4294967296:{}"));
    assert_eq!(Err(ParseError::Delimiter), array(b"a:1:i:0;N;}"));
    assert_eq!(Err(ParseError::Delimiter), array(b"a:1:{i:0;N;"));
    assert_eq!(Err(ParseError::Delimiter), array(b"a:1:"));
    assert_eq!(Err(ParseError::Key), array(b"a:1:{b:1;N;}"));
    assert_eq!(Err(ParseError::Tag), array(b"a:1:{i:0;}"));
    assert_eq!(Err(ParseError::Key), array(b"a:1:{"));
}

#[test]
fn nested_failure_fails_the_whole_array() {
    assert_eq!(Err(ParseError::Digit), value(b"a:1:{i:0;a:1:{i:0;b:7;}}"));
    assert_eq!(Err(ParseError::Delimiter), value(b"a:1:{i:0;a:1:{i:0;b:1;}"));
    assert_eq!(Err(ParseError::Text), value(b"a:1:{s:1:\"\x80\";N;}"));
}

#[test]
fn nested_array_holds_integer_at_depth_three() {
    let (rest, v) = value(br"a:1:{i:0;a:1:{i:0;a:1:{i:0;i:1;}}}").unwrap();
    assert_eq!(rest, &[][..]);
    let outer = match v {
        Value::Array(a) => a,
        _ => panic!("not an array"),
    };
    let inner = match outer.get_index(0) {
        Some((k, Value::Array(a))) => {
            assert_eq!(k, &Key::Int(0));
            a
        }
        _ => panic!("not an array"),
    };
    let most_inner = match inner.get_index(0) {
        Some((_, Value::Array(a))) => a,
        _ => panic!("not an array"),
    };
    assert_eq!(most_inner.len(), 1);
    assert_eq!(most_inner.get_index(0), Some((&Key::Int(0), &Value::Int(1))));
}

#[test]
fn same_bytes_give_equal_values() {
    let input = b"a:2:{s:1:\"a\";i:1;i:3;a:1:{i:0;b:0;}}tail";
    let copy = input.to_vec();
    let first = value(input);
    let second = value(&copy);
    assert!(first.is_ok());
    assert_eq!(first, second);
    assert_eq!(value(b"q"), value(b"q"));
}

#[test]
fn array_insert_sets_and_replaces() {
    let mut a = Array::new();
    assert_eq!(a.len(), 0);
    assert_eq!(a.get_index(0), None);
    a.insert(Key::Str("x".to_owned()), Value::Int(1));
    a.insert(Key::Int(4), Value::Null);
    a.insert(Key::Str("x".to_owned()), Value::Bool(true));
    assert_eq!(a.len(), 2);
    assert_eq!(a.get_index(0), Some((&Key::Str("x".to_owned()), &Value::Bool(true))));
    assert_eq!(a.get_index(1), Some((&Key::Int(4), &Value::Null)));
    assert_ne!(a, nulls(&[4]));
}
