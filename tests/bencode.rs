use bittorrent::{decode, decode_bencoded_value, encode, DecodeError, DisplayValue, ShowError, Value, MAX_DEPTH};

#[test]
fn decodes_byte_string() {
    let (v, n) = decode(b"5:hello").unwrap();
    assert_eq!(v, Value::Bytes(b"hello".to_vec()));
    assert_eq!(n, 7);
}

#[test]
fn decodes_integer() {
    assert_eq!(decode(b"i52e").unwrap(), (Value::Integer(52), 4));
    assert_eq!(decode(b"i-52e").unwrap(), (Value::Integer(-52), 5));
    assert_eq!(decode(b"i0e").unwrap(), (Value::Integer(0), 3));
}

#[test]
fn decodes_integer_extremes() {
    assert_eq!(decode(b"i9223372036854775807e").unwrap().0, Value::Integer(i64::MAX));
    assert_eq!(decode(b"i-9223372036854775808e").unwrap().0, Value::Integer(i64::MIN));
    assert_eq!(decode(b"i9223372036854775808e"), Err(DecodeError::Malformed));
}

#[test]
fn decodes_list() {
    let (v, _) = decode(b"l4:spam4:eggse").unwrap();
    assert_eq!(
        v,
        Value::List(vec![Value::Bytes(b"spam".to_vec()), Value::Bytes(b"eggs".to_vec())])
    );
}

#[test]
fn decodes_dictionary() {
    let (v, _) = decode(b"d3:cow3:moo4:spam4:eggse").unwrap();
    assert_eq!(
        v,
        Value::Dict(vec![
            (b"cow".to_vec(), Value::Bytes(b"moo".to_vec())),
            (b"spam".to_vec(), Value::Bytes(b"eggs".to_vec())),
        ])
    );
}

#[test]
fn decodes_unsorted_dictionary_in_input_order() {
    let (v, _) = decode(b"d4:spam4:eggs3:cow3:mooe").unwrap();
    assert_eq!(
        v,
        Value::Dict(vec![
            (b"spam".to_vec(), Value::Bytes(b"eggs".to_vec())),
            (b"cow".to_vec(), Value::Bytes(b"moo".to_vec())),
        ])
    );
}

#[test]
fn reports_consumed_length_and_leaves_the_rest() {
    let (v, n) = decode(b"i1e4:rest").unwrap();
    assert_eq!(v, Value::Integer(1));
    assert_eq!(n, 3);
}

#[test]
fn rejects_malformed_input() {
    assert_eq!(decode(b"i03e"), Err(DecodeError::Malformed));
    assert_eq!(decode(b"i-0e"), Err(DecodeError::Malformed));
    assert_eq!(decode(b"ie"), Err(DecodeError::Malformed));
    assert_eq!(decode(b"i1xe"), Err(DecodeError::Malformed));
    assert_eq!(decode(b"x"), Err(DecodeError::Malformed));
    assert_eq!(decode(b"05:hello"), Err(DecodeError::Malformed));
    assert_eq!(decode(b"di1ei2ee"), Err(DecodeError::Malformed));
}

#[test]
fn rejects_truncated_input() {
    assert_eq!(decode(b""), Err(DecodeError::Truncated));
    assert_eq!(decode(b"5:hel"), Err(DecodeError::Truncated));
    assert_eq!(decode(b"i12"), Err(DecodeError::Truncated));
    assert_eq!(decode(b"l4:spam"), Err(DecodeError::Truncated));
    assert_eq!(decode(b"d3:cow"), Err(DecodeError::Truncated));
    assert_eq!(decode(b"99999999999999999999999:x"), Err(DecodeError::Truncated));
}

#[test]
fn rejects_deep_nesting() {
    let mut ok = vec![b'l'; MAX_DEPTH];
    ok.extend(vec![b'e'; MAX_DEPTH]);
    assert!(decode(&ok).is_ok());
    let mut deep = vec![b'l'; MAX_DEPTH + 1];
    deep.extend(vec![b'e'; MAX_DEPTH + 1]);
    assert_eq!(decode(&deep), Err(DecodeError::TooDeep));
}

#[test]
fn encodes_values() {
    let v = Value::Dict(vec![
        (b"cow".to_vec(), Value::Bytes(b"moo".to_vec())),
        (b"n".to_vec(), Value::List(vec![Value::Integer(-3), Value::Integer(10)])),
    ]);
    assert_eq!(encode(&v), b"d3:cow3:moo1:nli-3ei10eee".to_vec());
}

#[test]
fn decode_then_encode_reproduces_bytes() {
    let input = b"d3:cow3:moo4:spaml1:a1:bi-7eee";
    let (v, n) = decode(input).unwrap();
    assert_eq!(n, input.len());
    assert_eq!(encode(&v), input.to_vec());
}

#[test]
fn projects_for_display() {
    assert_eq!(decode_bencoded_value(b"5:hello"), Ok(DisplayValue::Text("hello".to_string())));
    assert_eq!(decode_bencoded_value(b"i52e"), Ok(DisplayValue::Number(52)));
    assert_eq!(
        decode_bencoded_value(b"l4:spam4:eggse"),
        Ok(DisplayValue::Array(vec![
            DisplayValue::Text("spam".to_string()),
            DisplayValue::Text("eggs".to_string()),
        ]))
    );
    assert_eq!(
        decode_bencoded_value(b"d3:cow3:moo4:spam4:eggse"),
        Ok(DisplayValue::Object(vec![
            ("cow".to_string(), DisplayValue::Text("moo".to_string())),
            ("spam".to_string(), DisplayValue::Text("eggs".to_string())),
        ]))
    );
}

#[test]
fn display_refuses_invalid_text() {
    assert_eq!(decode_bencoded_value(b"2:\xff\xfe"), Err(ShowError::InvalidText));
    assert_eq!(decode_bencoded_value(b"d2:\xff\xfei1ee"), Err(ShowError::InvalidText));
    assert_eq!(decode_bencoded_value(b"l1:a2:\xc3\x28e"), Err(ShowError::InvalidText));
    assert_eq!(decode_bencoded_value(b"i1"), Err(ShowError::Decode(DecodeError::Truncated)));
}

#[test]
fn display_keeps_multibyte_text() {
    assert_eq!(
        decode_bencoded_value("6:héllo".as_bytes()),
        Ok(DisplayValue::Text("héllo".to_string()))
    );
}

#[test]
fn agrees_with_serde_bencode_on_sorted_dictionaries() {
    let mut m = std::collections::HashMap::new();
    m.insert(b"spam".to_vec(), serde_bencode::value::Value::Int(-4));
    m.insert(b"cow".to_vec(), serde_bencode::value::Value::Bytes(b"moo".to_vec()));
    let theirs = serde_bencode::to_bytes(&serde_bencode::value::Value::Dict(m)).unwrap();
    let ours = encode(&Value::Dict(vec![
        (b"cow".to_vec(), Value::Bytes(b"moo".to_vec())),
        (b"spam".to_vec(), Value::Integer(-4)),
    ]));
    assert_eq!(ours, theirs);
}

#[test]
fn display_keeps_last_value_of_repeated_key() {
    assert_eq!(
        decode_bencoded_value(b"d1:ai1e1:bi2e1:ai3ee"),
        Ok(DisplayValue::Object(vec![
            ("a".to_string(), DisplayValue::Number(3)),
            ("b".to_string(), DisplayValue::Number(2)),
        ]))
    );
}
