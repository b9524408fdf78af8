use torrent_meta::bencode::{decode, encode, BencodeValue, DecodeError};

fn bytes(s: &str) -> Vec<u8> {
    s.as_bytes().to_vec()
}

fn bs(s: &str) -> BencodeValue {
    BencodeValue::ByteString(bytes(s))
}

#[test]
fn decodes_byte_string() {
    assert_eq!(decode(&bytes("4:spam")), Ok(bs("spam")));
    assert_eq!(decode(&bytes("0:")), Ok(bs("")));
}

#[test]
fn decodes_integers() {
    assert_eq!(decode(&bytes("i42e")), Ok(BencodeValue::Integer(42)));
    assert_eq!(decode(&bytes("i0e")), Ok(BencodeValue::Integer(0)));
    assert_eq!(decode(&bytes("i-42e")), Ok(BencodeValue::Integer(-42)));
    assert_eq!(decode(&bytes("i-9223372036854775808e")), Ok(BencodeValue::Integer(i64::MIN)));
    assert_eq!(decode(&bytes("i9223372036854775807e")), Ok(BencodeValue::Integer(i64::MAX)));
}

#[test]
fn rejects_malformed_integers() {
    assert_eq!(decode(&bytes("i-0e")), Err(DecodeError::InvalidInteger));
    assert_eq!(decode(&bytes("i04e")), Err(DecodeError::InvalidInteger));
    assert_eq!(decode(&bytes("ie")), Err(DecodeError::InvalidInteger));
    assert_eq!(decode(&bytes("i-e")), Err(DecodeError::InvalidInteger));
    assert_eq!(decode(&bytes("i4xe")), Err(DecodeError::InvalidInteger));
    assert_eq!(decode(&bytes("i9223372036854775808e")), Err(DecodeError::InvalidInteger));
    assert_eq!(decode(&bytes("i42")), Err(DecodeError::UnexpectedEof));
}

#[test]
fn decodes_list() {
    assert_eq!(
        decode(&bytes("l4:spam4:eggse")),
        Ok(BencodeValue::List(vec![bs("spam"), bs("eggs")]))
    );
    assert_eq!(decode(&bytes("le")), Ok(BencodeValue::List(vec![])));
}

#[test]
fn decodes_dict() {
    assert_eq!(
        decode(&bytes("d3:cow3:moo4:spam4:eggse")),
        Ok(BencodeValue::Dict(vec![(bytes("cow"), bs("moo")), (bytes("spam"), bs("eggs"))]))
    );
}

#[test]
fn unsorted_dict_is_held_sorted_and_encoded_canonically() {
    let v = decode(&bytes("d4:spam4:eggs3:cow3:mooe")).unwrap();
    assert_eq!(
        v,
        BencodeValue::Dict(vec![(bytes("cow"), bs("moo")), (bytes("spam"), bs("eggs"))])
    );
    assert_eq!(encode(&v), bytes("d3:cow3:moo4:spam4:eggse"));
}

#[test]
fn rejects_duplicate_key() {
    assert_eq!(decode(&bytes("d3:cow3:moo3:cowi1ee")), Err(DecodeError::DuplicateKey));
}

#[test]
fn rejects_deep_nesting() {
    let open = "l".repeat(100);
    assert_eq!(decode(&bytes(&open)), Err(DecodeError::NestingTooDeep));
    let ok = format!("{}{}", "l".repeat(64), "e".repeat(64));
    assert!(decode(&bytes(&ok)).is_ok());
    let deep = format!("{}{}", "l".repeat(65), "e".repeat(65));
    assert_eq!(decode(&bytes(&deep)), Err(DecodeError::NestingTooDeep));
}

#[test]
fn reports_each_decode_error() {
    assert_eq!(decode(&bytes("")), Err(DecodeError::UnexpectedEof));
    assert_eq!(decode(&bytes("4:sp")), Err(DecodeError::UnexpectedEof));
    assert_eq!(decode(&bytes("-3:abc")), Err(DecodeError::InvalidLength));
    assert_eq!(decode(&bytes("x")), Err(DecodeError::InvalidLength));
    assert_eq!(decode(&bytes("4spam")), Err(DecodeError::InvalidLength));
    assert_eq!(decode(&bytes("l4:spam")), Err(DecodeError::UnterminatedContainer));
    assert_eq!(decode(&bytes("d3:cow")), Err(DecodeError::UnexpectedEof));
    assert_eq!(decode(&bytes("di1e3:mooe")), Err(DecodeError::InvalidLength));
    assert_eq!(decode(&bytes("i42ex")), Err(DecodeError::TrailingData));
}

#[test]
fn encodes_exactly() {
    assert_eq!(encode(&BencodeValue::Integer(-42)), bytes("i-42e"));
    assert_eq!(encode(&BencodeValue::Integer(i64::MIN)), bytes("i-9223372036854775808e"));
    assert_eq!(encode(&bs("spam")), bytes("4:spam"));
    assert_eq!(
        encode(&BencodeValue::List(vec![BencodeValue::Integer(0), bs("")])),
        bytes("li0e0:e")
    );
}

#[test]
fn round_trips_decoded_values() {
    let inputs = [
        "4:spam",
        "i-7e",
        "l4:spam4:eggse",
        "d3:cow3:moo4:spam4:eggse",
        "d4:infod6:lengthi100e4:name5:a.txtee",
        "lli1eli2eeee",
        "de",
    ];
    for s in inputs.iter() {
        let v = decode(&bytes(s)).unwrap();
        let e = encode(&v);
        assert_eq!(e, bytes(s));
        assert_eq!(decode(&e), Ok(v));
    }
}
