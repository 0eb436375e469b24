use torrentcore::bencode::{decode_bencoded_value, encode, BencodeValue, DecodeError};

fn decode(s: &str) -> (BencodeValue, usize) {
    decode_bencoded_value(&s.as_bytes().to_vec()).expect("decode failed")
}

fn bytes(s: &str) -> BencodeValue {
    BencodeValue::Bytes(s.as_bytes().to_vec())
}

#[test]
fn test_parse_int() {
    let (v, used) = decode("i42e");
    assert_eq!(v, BencodeValue::Int(42));
    assert_eq!(used, 4);
}

#[test]
fn test_parse_string() {
    let (v, used) = decode("4:i42e");
    assert_eq!(v, bytes("i42e"));
    assert_eq!(used, 6);
}

#[test]
fn test_parse_list() {
    assert_eq!(decode("le").0, BencodeValue::List(vec![]));
    assert_eq!(
        decode("l4:spami42ee").0,
        BencodeValue::List(vec![bytes("spam"), BencodeValue::Int(42)])
    );
    assert_eq!(
        decode("l4:spami42el5:hello5:worldee").0,
        BencodeValue::List(vec![
            bytes("spam"),
            BencodeValue::Int(42),
            BencodeValue::List(vec![bytes("hello"), bytes("world")]),
        ])
    );
    assert_eq!(
        decode("lli4eei5ee").0,
        BencodeValue::List(vec![
            BencodeValue::List(vec![BencodeValue::Int(4)]),
            BencodeValue::Int(5),
        ])
    );
}

#[test]
fn test_parse_dict() {
    assert_eq!(
        decode("d3:bar4:spam3:fooi42ee").0,
        BencodeValue::Dict(vec![
            (b"bar".to_vec(), bytes("spam")),
            (b"foo".to_vec(), BencodeValue::Int(42)),
        ])
    );
    assert_eq!(
        decode("d3:foo3:bar5:helloi52ee").0,
        BencodeValue::Dict(vec![
            (b"foo".to_vec(), bytes("bar")),
            (b"hello".to_vec(), BencodeValue::Int(52)),
        ])
    );
}

#[test]
fn decode_consumes_exact_lengths() {
    assert_eq!(decode("de").0, BencodeValue::Dict(vec![]));
    assert_eq!(decode("l4:spami42ee").1, 12);
    assert_eq!(decode("d3:bar4:spam3:fooi42ee").1, 22);
    assert_eq!(decode("i-7e").0, BencodeValue::Int(-7));
    assert_eq!(decode("0:").0, bytes(""));
}

#[test]
fn decode_then_encode_is_byte_identical() {
    for s in [
        "i42e",
        "i-42e",
        "4:spam",
        "0:",
        "le",
        "l4:spami42ee",
        "d3:bar4:spam3:fooi42ee",
        "d4:infod6:lengthi2e4:name2:abee",
        "lli4eei5ee",
    ] {
        let (v, used) = decode(s);
        assert_eq!(used, s.len());
        assert_eq!(encode(&v), s.as_bytes().to_vec(), "round trip failed for {s}");
        // the format is self-delimiting: trailing bytes are ignored and the
        // consumed prefix re-decodes to the same value and count
        let mut padded = s.as_bytes().to_vec();
        padded.extend_from_slice(b"xyz");
        let (v2, used2) = decode_bencoded_value(&padded).expect("padded decode");
        assert_eq!((&v2, used2), (&v, used), "trailing bytes changed the result for {s}");
        let (v3, used3) = decode_bencoded_value(&padded[..used2].to_vec()).expect("re-decode");
        assert_eq!((v3, used3), (v2, used2), "re-decode of consumed prefix differed for {s}");
    }
}

#[test]
fn string_length_overrun_is_malformed_string() {
    // declared length exceeds what remains after the separator
    for s in ["4:spa", "10:abc", "1:", "999999999999999999999999:a", "l6:spame"] {
        assert_eq!(
            decode_bencoded_value(&s.as_bytes().to_vec()),
            Err(DecodeError::MalformedString),
            "expected MalformedString for {s}"
        );
    }
}

#[test]
fn malformed_integers() {
    for s in ["ie", "i42", "i-0e", "i042e", "i4x2e", "i--2e", "ee"] {
        let r = decode_bencoded_value(&s.as_bytes().to_vec());
        assert!(r.is_err(), "expected error for {s}");
    }
    assert_eq!(
        decode_bencoded_value(&b"i12ae".to_vec()),
        Err(DecodeError::MalformedInteger)
    );
    assert_eq!(
        decode_bencoded_value(&b"i99999999999999999999999999e".to_vec()),
        Err(DecodeError::MalformedInteger)
    );
}

#[test]
fn unterminated_structures() {
    assert_eq!(
        decode_bencoded_value(&b"l4:spam".to_vec()),
        Err(DecodeError::UnterminatedList)
    );
    assert_eq!(
        decode_bencoded_value(&b"d3:fooi42e".to_vec()),
        Err(DecodeError::UnterminatedMap)
    );
}

#[test]
fn non_string_map_key() {
    assert_eq!(
        decode_bencoded_value(&b"di42ei42ee".to_vec()),
        Err(DecodeError::NonStringMapKey)
    );
    // a list-valued key, and one that is not the first key
    assert_eq!(
        decode_bencoded_value(&b"dle4:spame".to_vec()),
        Err(DecodeError::NonStringMapKey)
    );
    assert_eq!(
        decode_bencoded_value(&b"d3:fooi1eli2eei3ee".to_vec()),
        Err(DecodeError::NonStringMapKey)
    );
}

#[test]
fn unknown_value_tag() {
    assert_eq!(
        decode_bencoded_value(&b"x42".to_vec()),
        Err(DecodeError::UnknownValueTag)
    );
    assert_eq!(
        decode_bencoded_value(&Vec::new()),
        Err(DecodeError::UnknownValueTag)
    );
}

#[test]
fn encode_signed_integers() {
    assert_eq!(encode(&BencodeValue::Int(0)), b"i0e".to_vec());
    assert_eq!(encode(&BencodeValue::Int(-1)), b"i-1e".to_vec());
    assert_eq!(
        encode(&BencodeValue::Int(i64::MIN)),
        b"i-9223372036854775808e".to_vec()
    );
    assert_eq!(
        encode(&BencodeValue::Int(i64::MAX)),
        b"i9223372036854775807e".to_vec()
    );
    let (v, _) = decode("i-9223372036854775808e");
    assert_eq!(v, BencodeValue::Int(i64::MIN));
}
