use lsm_core::varint::{decode_varint, VarUint32};

#[test]
fn serialize_small_value_is_one_byte() {
    let mut out: Vec<u8> = Vec::new();
    VarUint32::from(5u32).serialize(&mut out);
    assert_eq!(out, vec![0x05]);
}

#[test]
fn serialize_129_takes_two_bytes() {
    let mut out: Vec<u8> = Vec::new();
    VarUint32::from(129u32).serialize(&mut out);
    assert_eq!(out, vec![0x81, 0x01]);
}

#[test]
fn serialize_max_value() {
    let mut out: Vec<u8> = Vec::new();
    VarUint32::from(u32::MAX).serialize(&mut out);
    assert_eq!(out, vec![0xFF, 0xFF, 0xFF, 0xFF, 0x0F]);
}

#[test]
fn deserialize_round_trips() {
    for v in [0u32, 1, 127, 128, 129, 16384, 1 << 21, u32::MAX] {
        let mut out: Vec<u8> = Vec::new();
        VarUint32::from(v).serialize(&mut out);
        let (decoded, used) = VarUint32::deserialize(&out).expect("serialized value decodes");
        assert_eq!(u32::from(decoded), v);
        assert_eq!(used, out.len());
    }
}

#[test]
fn deserialize_accepts_padding_bytes() {
    // 0x80 0x00 carries zero payload over two bytes
    let (v, used) = VarUint32::deserialize(&[0x80, 0x00]).expect("padded zero decodes");
    assert_eq!(u32::from(v), 0);
    assert_eq!(used, 2);
}

#[test]
fn deserialize_rejects_bad_input() {
    // no terminator at all
    assert!(VarUint32::deserialize(&[]).is_none());
    assert!(VarUint32::deserialize(&[0x80, 0x80]).is_none());
    // more than five bytes of continuation
    assert!(VarUint32::deserialize(&[0x80, 0x80, 0x80, 0x80, 0x80, 0x00]).is_none());
    // five bytes whose top payload pushes past 32 bits
    assert!(VarUint32::deserialize(&[0xFF, 0xFF, 0xFF, 0xFF, 0x10]).is_none());
    // the same stream one notch lower still fits
    assert!(VarUint32::deserialize(&[0xFF, 0xFF, 0xFF, 0xFF, 0x0F]).is_some());
}

#[test]
fn conversions_preserve_the_value() {
    let v = VarUint32::from(77u32);
    assert_eq!(u32::from(v), 77);
    assert_eq!(usize::from(v), 77);
    assert_eq!(v, VarUint32::from(77u32));
}

#[test]
fn decode_varint_handles_wide_values() {
    // 0xFF 0x01 == 255
    assert_eq!(decode_varint(&[0xFF, 0x01]), Some((255, 2)));
    assert_eq!(decode_varint(&[0x00]), Some((0, 1)));
    // u64::MAX as ten bytes
    let max = &[0xFF, 0xFF, 0xFF, 0xFF, 0xFF, 0xFF, 0xFF, 0xFF, 0xFF, 0x01];
    assert_eq!(decode_varint(max), Some((u64::MAX, 10)));
    // one payload bit past 64 bits
    let over = &[0xFF, 0xFF, 0xFF, 0xFF, 0xFF, 0xFF, 0xFF, 0xFF, 0xFF, 0x02];
    assert_eq!(decode_varint(over), None);
    // eleven continuation bytes never terminate in range
    let long = &[0x80; 11];
    assert_eq!(decode_varint(long), None);
}
