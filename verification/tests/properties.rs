use ipld_node::marshal;
use ipld_node::node::DecodeError;
use ipld_node::node::Node;
use ipld_node::node::Number;
use ipld_node::node::RawKind;
use ipld_node::node::type_of;
use ipld_node::unmarshal;

fn round_trips(v: Node) {
    let bytes = marshal(&v).unwrap();
    let back = unmarshal(&bytes).unwrap();
    assert_eq!(v, back);
}

#[test]
fn round_trip_bool() {
    round_trips(Node::Bool(true));
    round_trips(Node::Bool(false));
}

#[test]
fn round_trip_str() {
    round_trips(Node::Str(String::from("").into_bytes()));
    round_trips(Node::Str(String::from("testing").into_bytes()));
}

#[test]
fn round_trip_bytes() {
    round_trips(Node::Bytes(vec![]));
    round_trips(Node::Bytes(vec![1, 2, 3]));
}

#[test]
fn round_trip_int() {
    round_trips(Node::Number(Number::Int(0)));
    round_trips(Node::Number(Number::Int(-7)));
    round_trips(Node::Number(Number::Int(42)));
    round_trips(Node::Number(Number::Int(i64::MIN)));
    round_trips(Node::Number(Number::Int(i64::MAX)));
}

#[test]
fn round_trip_float() {
    round_trips(Node::Number(Number::Float(123.3_f64.to_bits())));
    round_trips(Node::Number(Number::Float((-0.0_f64).to_bits())));
}

#[test]
fn tag_preserved_int() {
    let bytes = marshal(&Node::Number(Number::Int(3))).unwrap();
    let back = unmarshal(&bytes).unwrap();
    let num = back.as_number().expect("an integer must come back numeric");
    assert_eq!(num.as_int(), Some(3));
    assert_eq!(num.as_float_bits(), None);
}

#[test]
fn tag_preserved_float() {
    let bytes = marshal(&Node::Number(Number::Float(3.0_f64.to_bits()))).unwrap();
    let back = unmarshal(&bytes).unwrap();
    let num = back.as_number().expect("a float must come back numeric");
    assert_eq!(num.as_float_bits(), Some(3.0_f64.to_bits()));
    assert_eq!(num.as_int(), None);
}

#[test]
fn text_and_bytes_stay_distinct() {
    let payload = vec![b'h', b'i'];
    let as_text = marshal(&Node::Str(payload.clone())).unwrap();
    let as_bytes = marshal(&Node::Bytes(payload)).unwrap();
    assert_ne!(as_text, as_bytes);
    assert!(unmarshal(&as_text).unwrap().as_str().is_some());
    assert!(unmarshal(&as_bytes).unwrap().as_bytes().is_some());
}

#[test]
fn marshal_is_deterministic() {
    let a = Node::Str(String::from("same text").into_bytes());
    let b = Node::Str(String::from("same text").into_bytes());
    assert_eq!(marshal(&a).unwrap(), marshal(&b).unwrap());
    let c = Node::Number(Number::Int(-300));
    assert_eq!(marshal(&c).unwrap(), marshal(&c).unwrap());
}

#[test]
fn marshal_cbor_matches_marshal() {
    let v = Node::Bytes(vec![9, 8, 7]);
    assert_eq!(v.marshal_cbor().unwrap(), marshal(&v).unwrap());
}

#[test]
fn exact_bytes_int() {
    assert_eq!(marshal(&Node::Number(Number::Int(0))).unwrap(), vec![0x00]);
    assert_eq!(marshal(&Node::Number(Number::Int(23))).unwrap(), vec![0x17]);
    assert_eq!(marshal(&Node::Number(Number::Int(24))).unwrap(), vec![0x18, 24]);
    assert_eq!(marshal(&Node::Number(Number::Int(42))).unwrap(), vec![0x18, 42]);
    assert_eq!(marshal(&Node::Number(Number::Int(1000))).unwrap(), vec![0x19, 0x03, 0xE8]);
    assert_eq!(marshal(&Node::Number(Number::Int(-1))).unwrap(), vec![0x20]);
    assert_eq!(marshal(&Node::Number(Number::Int(-7))).unwrap(), vec![0x26]);
    assert_eq!(
        marshal(&Node::Number(Number::Int(i64::MAX))).unwrap(),
        vec![0x1B, 0x7F, 0xFF, 0xFF, 0xFF, 0xFF, 0xFF, 0xFF, 0xFF]
    );
    assert_eq!(
        marshal(&Node::Number(Number::Int(i64::MIN))).unwrap(),
        vec![0x3B, 0x7F, 0xFF, 0xFF, 0xFF, 0xFF, 0xFF, 0xFF, 0xFF]
    );
}

#[test]
fn exact_bytes_bool_str_bytes() {
    assert_eq!(marshal(&Node::Bool(false)).unwrap(), vec![0xF4]);
    assert_eq!(marshal(&Node::Bool(true)).unwrap(), vec![0xF5]);
    assert_eq!(marshal(&Node::Str(vec![])).unwrap(), vec![0x60]);
    assert_eq!(
        marshal(&Node::Str(String::from("testing").into_bytes())).unwrap(),
        vec![0x67, b't', b'e', b's', b't', b'i', b'n', b'g']
    );
    assert_eq!(marshal(&Node::Bytes(vec![])).unwrap(), vec![0x40]);
    assert_eq!(marshal(&Node::Bytes(vec![1, 2, 3])).unwrap(), vec![0x43, 1, 2, 3]);
}

#[test]
fn exact_bytes_float() {
    // 1.5 is 0x3FF8_0000_0000_0000 as a 64-bit float
    assert_eq!(
        marshal(&Node::Number(Number::Float(1.5_f64.to_bits()))).unwrap(),
        vec![0xFB, 0x3F, 0xF8, 0x00, 0x00, 0x00, 0x00, 0x00, 0x00]
    );
}

#[test]
fn malformed_empty() {
    assert_eq!(unmarshal(&vec![]), Err(DecodeError::Malformed));
}

#[test]
fn malformed_truncated() {
    // a one-byte length form with no length byte
    assert_eq!(unmarshal(&vec![0x18]), Err(DecodeError::Malformed));
    // a two-byte length form with only one length byte
    assert_eq!(unmarshal(&vec![0x19, 0x01]), Err(DecodeError::Malformed));
    // a byte string announcing three payload bytes but holding two
    assert_eq!(unmarshal(&vec![0x43, 1, 2]), Err(DecodeError::Malformed));
    // a text string announcing five payload bytes but holding none
    assert_eq!(unmarshal(&vec![0x65]), Err(DecodeError::Malformed));
    // a 64-bit float cut off after four bytes
    assert_eq!(unmarshal(&vec![0xFB, 0, 0, 0]), Err(DecodeError::Malformed));
}

#[test]
fn malformed_trailing_bytes() {
    assert_eq!(unmarshal(&vec![0xF5, 0x00]), Err(DecodeError::Malformed));
    assert_eq!(unmarshal(&vec![0x01, 0x02]), Err(DecodeError::Malformed));
    assert_eq!(unmarshal(&vec![0x43, 1, 2, 3, 4]), Err(DecodeError::Malformed));
}

#[test]
fn malformed_non_minimal() {
    // 5 fits the immediate form, so a one-byte length form is not canonical
    assert_eq!(unmarshal(&vec![0x18, 0x05]), Err(DecodeError::Malformed));
    // 200 fits one byte, so a two-byte form is not canonical
    assert_eq!(unmarshal(&vec![0x19, 0x00, 0xC8]), Err(DecodeError::Malformed));
}

#[test]
fn malformed_indefinite_and_reserved() {
    // indefinite-length byte string
    assert_eq!(unmarshal(&vec![0x5F, 0x41, 0x01, 0xFF]), Err(DecodeError::Malformed));
    // reserved additional information in an integer head
    assert_eq!(unmarshal(&vec![0x1C]), Err(DecodeError::Malformed));
    // the bare break byte
    assert_eq!(unmarshal(&vec![0xFF]), Err(DecodeError::Malformed));
}

#[test]
fn malformed_narrow_float_widths() {
    // 16-bit and 32-bit float forms lie outside the canonical profile
    assert_eq!(unmarshal(&vec![0xF9, 0x3C, 0x00]), Err(DecodeError::Malformed));
    assert_eq!(unmarshal(&vec![0xFA, 0x3F, 0x80, 0x00, 0x00]), Err(DecodeError::Malformed));
}

#[test]
fn malformed_integer_out_of_range() {
    // 2^63 is a well-formed wire integer but exceeds the 64-bit signed range
    assert_eq!(
        unmarshal(&vec![0x1B, 0x80, 0x00, 0x00, 0x00, 0x00, 0x00, 0x00, 0x00]),
        Err(DecodeError::Malformed)
    );
    // likewise -(2^63) - 1 on the negative side
    assert_eq!(
        unmarshal(&vec![0x3B, 0x80, 0x00, 0x00, 0x00, 0x00, 0x00, 0x00, 0x00]),
        Err(DecodeError::Malformed)
    );
}

#[test]
fn unsupported_kinds() {
    // the empty array
    assert_eq!(
        unmarshal(&vec![0x80]),
        Err(DecodeError::UnsupportedKind(RawKind::Array))
    );
    // the empty map
    assert_eq!(
        unmarshal(&vec![0xA0]),
        Err(DecodeError::UnsupportedKind(RawKind::Mapping))
    );
    // a tag wrapping a one-byte byte string
    assert_eq!(
        unmarshal(&vec![0xC2, 0x41, 0x01]),
        Err(DecodeError::UnsupportedKind(RawKind::Tag))
    );
    // null and undefined
    assert_eq!(unmarshal(&vec![0xF6]), Err(DecodeError::UnsupportedKind(RawKind::Null)));
    assert_eq!(
        unmarshal(&vec![0xF7]),
        Err(DecodeError::UnsupportedKind(RawKind::Undefined))
    );
    // other simple values, one-byte and two-byte forms
    assert_eq!(unmarshal(&vec![0xE0]), Err(DecodeError::UnsupportedKind(RawKind::Simple)));
    assert_eq!(
        unmarshal(&vec![0xF8, 0x20]),
        Err(DecodeError::UnsupportedKind(RawKind::Simple))
    );
}

#[test]
fn unsupported_structured_items() {
    // an array holding one boolean
    assert_eq!(
        unmarshal(&vec![0x81, 0xF5]),
        Err(DecodeError::UnsupportedKind(RawKind::Array))
    );
    // nested arrays
    assert_eq!(
        unmarshal(&vec![0x81, 0x81, 0x80]),
        Err(DecodeError::UnsupportedKind(RawKind::Array))
    );
    // a map of one text key and one integer value
    assert_eq!(
        unmarshal(&vec![0xA1, 0x61, 0x61, 0x01]),
        Err(DecodeError::UnsupportedKind(RawKind::Mapping))
    );
}

#[test]
fn malformed_unsupported_shapes() {
    // an array head announcing a one-byte length that is absent
    assert_eq!(unmarshal(&vec![0x98]), Err(DecodeError::Malformed));
    // a reserved length form under the array kind
    assert_eq!(unmarshal(&vec![0x9C]), Err(DecodeError::Malformed));
    // an indefinite-length array
    assert_eq!(unmarshal(&vec![0x9F, 0xFF]), Err(DecodeError::Malformed));
    // an array announcing two items but holding one
    assert_eq!(unmarshal(&vec![0x82, 0xF5]), Err(DecodeError::Malformed));
    // an array with trailing bytes after its items
    assert_eq!(unmarshal(&vec![0x80, 0x80]), Err(DecodeError::Malformed));
    // an array holding a non-minimally encoded integer
    assert_eq!(unmarshal(&vec![0x81, 0x18, 0x05]), Err(DecodeError::Malformed));
    // a map holding a key without a value
    assert_eq!(unmarshal(&vec![0xA1, 0xF5]), Err(DecodeError::Malformed));
    // a tag head with no item after it
    assert_eq!(unmarshal(&vec![0xC0]), Err(DecodeError::Malformed));
    // null followed by trailing bytes
    assert_eq!(unmarshal(&vec![0xF6, 0x00]), Err(DecodeError::Malformed));
    // the two-byte simple form cut off after its head
    assert_eq!(unmarshal(&vec![0xF8]), Err(DecodeError::Malformed));
    // the two-byte simple form carrying a value the one-byte form covers
    assert_eq!(unmarshal(&vec![0xF8, 0x10]), Err(DecodeError::Malformed));
}

#[test]
fn text_must_be_utf8() {
    // a two-byte text item holding one accented character
    let des = unmarshal(&vec![0x62, 0xC3, 0xA9]).unwrap();
    assert_eq!(des, Node::Str(String::from("\u{e9}").into_bytes()));
    // a lone continuation byte
    assert_eq!(unmarshal(&vec![0x61, 0x80]), Err(DecodeError::Malformed));
    // an overlong encoding of a one-byte character
    assert_eq!(unmarshal(&vec![0x62, 0xC0, 0xAF]), Err(DecodeError::Malformed));
    // a surrogate code point
    assert_eq!(unmarshal(&vec![0x63, 0xED, 0xA0, 0x80]), Err(DecodeError::Malformed));
    // bytes that are no UTF-8 at all
    assert_eq!(unmarshal(&vec![0x62, 0xFF, 0xFF]), Err(DecodeError::Malformed));
    // a lead byte beyond the last code point
    assert_eq!(
        unmarshal(&vec![0x65, b'a', 0xF4, 0x90, 0x80, 0x80]),
        Err(DecodeError::Malformed)
    );
    // the same payload as a byte string is fine: no encoding is assumed there
    let raw = unmarshal(&vec![0x42, 0xFF, 0xFF]).unwrap();
    assert_eq!(raw, Node::Bytes(vec![0xFF, 0xFF]));
    // invalid text nested in an array marks the whole input malformed
    assert_eq!(unmarshal(&vec![0x81, 0x61, 0x80]), Err(DecodeError::Malformed));
}

#[test]
fn round_trip_multibyte_text() {
    let v = Node::Str(String::from("h\u{e9}llo \u{2603}").into_bytes());
    let bytes = marshal(&v).unwrap();
    assert_eq!(unmarshal(&bytes).unwrap(), v);
}

#[test]
fn unsupported_is_not_malformed() {
    let unsupported = unmarshal(&vec![0x80]).unwrap_err();
    assert_ne!(unsupported, DecodeError::Malformed);
    assert!(matches!(unsupported, DecodeError::UnsupportedKind(RawKind::Array)));
}

#[test]
fn narrowing_rejects_other_variants() {
    let text = Node::Str(String::from("x").into_bytes());
    assert_eq!(text.as_bool(), None);
    assert!(text.as_bytes().is_none());
    assert!(text.as_number().is_none());
    assert!(text.as_str().is_some());

    let b = Node::Bool(false);
    assert!(b.as_str().is_none());
    assert!(b.as_bytes().is_none());
    assert!(b.as_number().is_none());
    assert_eq!(b.as_bool(), Some(false));

    let n = Node::Number(Number::Int(5));
    assert!(n.as_bool().is_none());
    assert!(n.as_str().is_none());
    assert!(n.as_bytes().is_none());
    assert_eq!(n.as_number().and_then(|m| m.as_int()), Some(5));
}

#[test]
fn equality_is_tag_sensitive() {
    assert_ne!(Node::Number(Number::Int(3)), Node::Number(Number::Float(3.0_f64.to_bits())));
    assert_ne!(Node::Str(vec![1, 2]), Node::Bytes(vec![1, 2]));
    assert_eq!(Node::Bytes(vec![1, 2]), Node::Bytes(vec![1, 2]));
    assert_ne!(Node::Bytes(vec![1, 2]), Node::Bytes(vec![1, 3]));
}

#[test]
fn type_of_names_the_variant() {
    assert_eq!(type_of(&Node::Bool(true)), "Bool");
    assert_eq!(type_of(&Node::Str(vec![])), "Str");
    assert_eq!(type_of(&Node::Bytes(vec![])), "Bytes");
    assert_eq!(type_of(&Node::Number(Number::Int(1))), "Number");
    assert_eq!(type_of(&Node::Number(Number::Float(0))), "Number");
}
