use presemble::bencode::{decode, encode, Value};

// --- encode helpers ---

fn roundtrip(v: &Value) {
    let bytes = encode(v);
    let (decoded, consumed) = decode(&bytes).expect("decode failed");
    assert_eq!(&decoded, v);
    assert_eq!(consumed, bytes.len(), "consumed should equal total length");
}

// --- basic round-trips ---

#[test]
fn roundtrip_bytes() {
    roundtrip(&Value::Bytes(b"hello".to_vec()));
}

#[test]
fn roundtrip_empty_string() {
    roundtrip(&Value::Bytes(b"".to_vec()));
}

#[test]
fn roundtrip_integer_positive() {
    roundtrip(&Value::Integer(42));
}

#[test]
fn roundtrip_integer_zero() {
    roundtrip(&Value::Integer(0));
}

#[test]
fn roundtrip_integer_negative() {
    roundtrip(&Value::Integer(-17));
}

#[test]
fn roundtrip_empty_list() {
    roundtrip(&Value::List(vec![]));
}

#[test]
fn roundtrip_list() {
    roundtrip(&Value::List(vec![
        Value::Integer(1),
        Value::Bytes(b"two".to_vec()),
        Value::Integer(3),
    ]));
}

#[test]
fn roundtrip_empty_dict() {
    roundtrip(&Value::Dict(vec![]));
}

#[test]
fn roundtrip_dict() {
    roundtrip(&Value::dict(vec![
        ("op", Value::string("eval")),
        ("code", Value::string("(+ 1 2)")),
    ]));
}

// --- nested structures ---

#[test]
fn roundtrip_nested() {
    let v = Value::dict(vec![
        ("op", Value::string("eval")),
        (
            "args",
            Value::List(vec![
                Value::dict(vec![("x", Value::Integer(1))]),
                Value::dict(vec![("y", Value::Integer(2))]),
            ]),
        ),
    ]);
    roundtrip(&v);
}

// --- nREPL-style message ---

#[test]
fn nrepl_eval_message() {
    let msg = Value::dict(vec![
        ("op", Value::string("eval")),
        ("code", Value::string("(->> :post)")),
        ("session", Value::string("abc")),
    ]);
    let bytes = encode(&msg);
    let (decoded, _) = decode(&bytes).expect("decode failed");
    assert_eq!(decoded.get("op").and_then(|v| v.as_str()), Some("eval"));
    assert_eq!(
        decoded.get("code").and_then(|v| v.as_str()),
        Some("(->> :post)")
    );
    assert_eq!(
        decoded.get("session").and_then(|v| v.as_str()),
        Some("abc")
    );
}

// --- known wire formats ---

#[test]
fn encode_known_bytes() {
    assert_eq!(encode(&Value::Bytes(b"hello".to_vec())), b"5:hello");
}

#[test]
fn encode_known_integer() {
    assert_eq!(encode(&Value::Integer(42)), b"i42e");
}

#[test]
fn encode_known_negative_integer() {
    assert_eq!(encode(&Value::Integer(-3)), b"i-3e");
}

#[test]
fn encode_known_list() {
    assert_eq!(
        encode(&Value::List(vec![
            Value::Integer(1),
            Value::Bytes(b"a".to_vec())
        ])),
        b"li1e1:ae"
    );
}

// --- convenience methods ---

#[test]
fn as_str_valid_utf8() {
    let v = Value::string("hello");
    assert_eq!(v.as_str(), Some("hello"));
}

#[test]
fn as_str_invalid_utf8() {
    let v = Value::Bytes(vec![0xff, 0xfe]);
    assert_eq!(v.as_str(), None);
}

#[test]
fn get_dict_key() {
    let v = Value::dict(vec![("foo", Value::Integer(99))]);
    assert_eq!(v.get("foo").and_then(|v| v.as_integer()), Some(99));
    assert!(v.get("bar").is_none());
}

// --- decode errors ---

#[test]
fn decode_error_empty_input() {
    assert!(decode(b"").is_err());
}

#[test]
fn decode_error_truncated_bytes() {
    // "5:hel" — length says 5 but only 3 bytes follow
    assert!(decode(b"5:hel").is_err());
}

#[test]
fn decode_error_truncated_integer() {
    // no closing 'e'
    assert!(decode(b"i42").is_err());
}

#[test]
fn decode_error_truncated_list() {
    // list never closed
    assert!(decode(b"li1e").is_err());
}

#[test]
fn decode_error_truncated_dict() {
    // dict never closed
    assert!(decode(b"d3:foo").is_err());
}

#[test]
fn decode_error_unknown_byte() {
    assert!(decode(b"x").is_err());
}

#[test]
fn no_proper_prefix_of_an_encoding_decodes() {
    let value = Value::dict(vec![
        ("a", Value::List(vec![Value::Integer(-12), Value::string("spam")])),
        ("b", Value::Integer(0)),
    ]);
    let bytes = encode(&value);
    assert!(decode(&bytes).is_ok());
    for n in 0..bytes.len() {
        assert!(decode(&bytes[..n]).is_err(), "the first {n} bytes were decoded");
    }
}
