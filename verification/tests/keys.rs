//! Exact key encodings: byte order must follow value order.

use tonbo::record::DynVal;

#[test]
fn unsigned_keys_are_big_endian() {
    assert_eq!(DynVal::UInt8(7).to_key_bytes(), vec![7]);
    assert_eq!(DynVal::UInt16(0x1234).to_key_bytes(), vec![0x12, 0x34]);
    assert_eq!(DynVal::UInt32(0x01020304).to_key_bytes(), vec![1, 2, 3, 4]);
    assert_eq!(
        DynVal::UInt64(0x0102030405060708).to_key_bytes(),
        vec![1, 2, 3, 4, 5, 6, 7, 8]
    );
}

#[test]
fn signed_keys_are_biased() {
    assert_eq!(DynVal::Int8(0).to_key_bytes(), vec![0x80]);
    assert_eq!(DynVal::Int8(-128).to_key_bytes(), vec![0x00]);
    assert_eq!(DynVal::Int8(127).to_key_bytes(), vec![0xff]);
    assert_eq!(DynVal::Int16(-1).to_key_bytes(), vec![0x7f, 0xff]);
    assert_eq!(DynVal::Int32(2).to_key_bytes(), vec![0x80, 0, 0, 2]);
    assert_eq!(
        DynVal::Int64(-2).to_key_bytes(),
        vec![0x7f, 0xff, 0xff, 0xff, 0xff, 0xff, 0xff, 0xfe]
    );
}

#[test]
fn text_bool_and_bytes_keys() {
    assert_eq!(DynVal::Utf8(b"hi".to_vec()).to_key_bytes(), b"hi".to_vec());
    assert_eq!(DynVal::Bytes(vec![9, 8]).to_key_bytes(), vec![9, 8]);
    assert_eq!(DynVal::Boolean(false).to_key_bytes(), vec![0]);
    assert_eq!(DynVal::Boolean(true).to_key_bytes(), vec![1]);
}

#[test]
fn signed_encoding_orders_like_values() {
    let mut encoded: Vec<Vec<u8>> = [-5i32, -1, 0, 1, 3, 1000]
        .iter()
        .map(|i| DynVal::Int32(*i).to_key_bytes())
        .collect();
    let ordered = encoded.clone();
    encoded.sort();
    assert_eq!(encoded, ordered);
}
