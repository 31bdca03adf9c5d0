use colfer::{ColferError, ColferLimits, ColferSerializable, ColferTypes, Timestamp};

fn limits() -> ColferLimits {
    ColferLimits::new()
}

fn encode(r: &ColferTypes) -> Vec<u8> {
    r.colf_marshal_binary(&limits()).unwrap()
}

fn decode(data: &[u8]) -> (ColferTypes, usize) {
    let mut r = ColferTypes::default();
    let n = r.colf_unmarshal(data, &limits()).unwrap();
    (r, n)
}

fn full_record() -> ColferTypes {
    let mut inner = ColferTypes::default();
    inner.B = true;
    inner.S = "inner".as_bytes().to_vec();
    let mut listed = ColferTypes::default();
    listed.U32 = 7;
    let mut r = ColferTypes::default();
    r.B = true;
    r.U32 = 300;
    r.U64 = 1 << 50;
    r.I32 = -123_456;
    r.I64 = i64::MIN;
    r.F64 = 2.5f64.to_bits();
    r.F32 = f32::NAN.to_bits();
    r.T = Timestamp { secs: 1_500_000_000, nanos: 123_456_789 };
    r.S = "héllo".as_bytes().to_vec();
    r.A = vec![0, 1, 2, 0x7f, 0xff];
    r.O = Some(Box::new(inner));
    r.Os = vec![listed, ColferTypes::default()];
    r.Ss = vec!["a".as_bytes().to_vec(), Vec::new(), "xyz".as_bytes().to_vec()];
    r.As = vec![vec![9; 200]];
    r.U8 = 200;
    r.U16 = 0xabcd;
    r.F32s = vec![1.0f32.to_bits(), (-0.0f32).to_bits()];
    r.F64s = vec![f64::MAX.to_bits()];
    r
}

#[test]
fn round_trip_all_fields() {
    let r = full_record();
    let bytes = encode(&r);
    let (back, n) = decode(&bytes);
    assert_eq!(n, bytes.len());
    assert_eq!(back, r);
}

#[test]
fn round_trip_negative_zero_float() {
    let mut r = ColferTypes::default();
    r.F64 = (-0.0f64).to_bits();
    let (back, _) = decode(&encode(&r));
    assert_eq!(back.F64, (-0.0f64).to_bits());
}

#[test]
fn round_trip_large_timestamp() {
    let mut r = ColferTypes::default();
    r.T = Timestamp { secs: 1 << 40, nanos: 5 };
    let bytes = encode(&r);
    assert_eq!(bytes[0], 0x87);
    assert_eq!(bytes.len(), 1 + 8 + 4 + 1);
    let (back, _) = decode(&bytes);
    assert_eq!(back.T, r.T);
}

#[test]
fn zero_record_is_terminator_only() {
    let r = ColferTypes::default();
    assert_eq!(encode(&r), vec![0x7f]);
    assert_eq!(r.colf_marshal_len(&limits()), Ok(1));
}

#[test]
fn length_agrees_with_bytes_written() {
    let r = full_record();
    let n = r.colf_marshal_len(&limits()).unwrap();
    let mut buf = vec![1, 2, 3];
    let written = r.colf_marshal_to(&mut buf);
    assert_eq!(written, n);
    assert_eq!(buf.len(), 3 + n);
    assert_eq!(&buf[..3], &[1, 2, 3]);
}

#[test]
fn u32_threshold_boundary() {
    let mut r = ColferTypes::default();
    r.U32 = (1 << 21) - 1;
    assert_eq!(encode(&r), vec![1, 0xff, 0xff, 0x7f, 0x7f]);
    r.U32 = 1 << 21;
    assert_eq!(encode(&r), vec![0x81, 0x00, 0x20, 0x00, 0x00, 0x7f]);
    assert_eq!(decode(&encode(&r)).0.U32, 1 << 21);
}

#[test]
fn u64_threshold_boundary() {
    let mut r = ColferTypes::default();
    r.U64 = (1 << 49) - 1;
    let bytes = encode(&r);
    assert_eq!(bytes[0], 2);
    assert_eq!(bytes.len(), 1 + 7 + 1);
    assert_eq!(decode(&bytes).0.U64, (1 << 49) - 1);
    r.U64 = 1 << 49;
    assert_eq!(encode(&r), vec![0x82, 0, 0x02, 0, 0, 0, 0, 0, 0, 0x7f]);
    assert_eq!(decode(&encode(&r)).0.U64, 1 << 49);
}

#[test]
fn u16_two_byte_split() {
    let mut r = ColferTypes::default();
    r.U16 = 255;
    assert_eq!(encode(&r), vec![0x8f, 0xff, 0x7f]);
    r.U16 = 256;
    assert_eq!(encode(&r), vec![15, 0x01, 0x00, 0x7f]);
    assert_eq!(decode(&encode(&r)).0.U16, 256);
}

#[test]
fn signed_minus_one_round_trip() {
    let mut r = ColferTypes::default();
    r.I32 = -1;
    let bytes = encode(&r);
    assert_eq!(bytes, vec![0x83, 0x01, 0x7f]);
    assert_eq!(bytes[0] & 0x80, 0x80);
    assert_eq!(decode(&bytes).0.I32, -1);
}

#[test]
fn signed_extremes_round_trip() {
    let mut r = ColferTypes::default();
    r.I32 = i32::MIN;
    r.I64 = i64::MAX;
    let (back, _) = decode(&encode(&r));
    assert_eq!(back.I32, i32::MIN);
    assert_eq!(back.I64, i64::MAX);
}

#[test]
fn string_over_size_ceiling() {
    let mut lim = ColferLimits::new();
    lim.set_size_max(10);
    let mut r = ColferTypes::default();
    r.S = vec![b'x'; 11];
    assert_eq!(
        r.colf_marshal_len(&lim),
        Err(ColferError::MaxSizeBreach { field: "S", overflow: 1 })
    );
    assert_eq!(
        r.colf_marshal_binary(&lim),
        Err(ColferError::MaxSizeBreach { field: "S", overflow: 1 })
    );
}

#[test]
fn list_over_element_ceiling() {
    let mut lim = ColferLimits::new();
    lim.set_list_max(3);
    let mut r = ColferTypes::default();
    r.Ss = vec![Vec::new(); 4];
    assert_eq!(
        r.colf_marshal_len(&lim),
        Err(ColferError::MaxListBreach { field: "Ss", overflow: 1 })
    );
    let mut r = ColferTypes::default();
    r.F64s = vec![0; 4];
    assert_eq!(
        r.colf_marshal_len(&lim),
        Err(ColferError::MaxListBreach { field: "F64s", overflow: 1 })
    );
}

#[test]
fn record_over_size_ceiling() {
    let mut lim = ColferLimits::new();
    lim.set_size_max(4);
    let mut r = ColferTypes::default();
    r.U32 = 1 << 30;
    assert_eq!(
        r.colf_marshal_len(&lim),
        Err(ColferError::MaxSizeBreach { field: "U32", overflow: 2 })
    );
}

#[test]
fn unknown_header_at_offset_zero() {
    let mut r = ColferTypes::default();
    assert_eq!(
        r.colf_unmarshal(&[0x20], &limits()),
        Err(ColferError::UnknownHeader { byte: 0 })
    );
}

#[test]
fn empty_buffer_is_unexpected_eof() {
    let mut r = ColferTypes::default();
    assert_eq!(r.colf_unmarshal(&[], &limits()), Err(ColferError::UnexpectedEof));
    assert_eq!(r.colf_unmarshal(&[1, 0x80], &limits()), Err(ColferError::UnexpectedEof));
}

#[test]
fn trailing_byte_is_tail() {
    let mut r = ColferTypes::default();
    r.U8 = 5;
    let mut bytes = encode(&r);
    assert_eq!(bytes, vec![14, 5, 0x7f]);
    bytes.push(0);
    let mut a = ColferTypes::default();
    assert_eq!(a.colf_unmarshal_binary(&bytes, &limits()), Err(ColferError::Tail { byte: 3 }));
    let mut b = ColferTypes::default();
    assert_eq!(b.colf_unmarshal(&bytes, &limits()), Ok(3));
    assert_eq!(b.U8, 5);
    let mut c = ColferTypes::default();
    assert_eq!(c.colf_unmarshal_binary(&bytes[..3], &limits()), Ok(3));
}

#[test]
fn nested_record_round_trip() {
    let mut inner = ColferTypes::default();
    inner.B = true;
    let mut r = ColferTypes::default();
    r.O = Some(Box::new(inner));
    let bytes = encode(&r);
    assert_eq!(bytes, vec![10, 0, 0x7f, 0x7f]);
    let (back, n) = decode(&bytes);
    assert_eq!(n, 4);
    assert_eq!(back, r);
}

#[test]
fn decode_rejects_invalid_utf8_text() {
    let mut r = ColferTypes::default();
    assert_eq!(
        r.colf_unmarshal(&[8, 1, 0xff, 0x7f], &limits()),
        Err(ColferError::Unknown)
    );
    let mut r = ColferTypes::default();
    assert_eq!(r.colf_unmarshal(&[9, 1, 0xff, 0x7f], &limits()), Ok(4));
    assert_eq!(r.A, vec![0xff]);
}

#[test]
fn decode_checks_ceilings() {
    let mut lim = ColferLimits::new();
    lim.set_size_max(2);
    lim.set_list_max(1);
    let mut r = ColferTypes::default();
    assert_eq!(
        r.colf_unmarshal(&[9, 5, 1, 2, 3, 4, 5, 0x7f], &lim),
        Err(ColferError::MaxSizeBreach { field: "A", overflow: 3 })
    );
    let mut r = ColferTypes::default();
    assert_eq!(
        r.colf_unmarshal(&[16, 3, 0x7f], &lim),
        Err(ColferError::MaxListBreach { field: "F32s", overflow: 2 })
    );
}

#[test]
fn decode_carries_whole_seconds_of_nanos() {
    let mut r = ColferTypes::default();
    let data = [7, 0, 0, 0, 1, 0x3b, 0x9a, 0xca, 0x01, 0x7f];
    assert_eq!(r.colf_unmarshal(&data, &limits()), Ok(10));
    assert_eq!(r.T, Timestamp { secs: 2, nanos: 1 });
}

#[test]
fn decode_keeps_fields_not_on_the_wire() {
    let mut r = ColferTypes::default();
    r.U8 = 9;
    assert_eq!(r.colf_unmarshal(&[0, 0x7f], &limits()), Ok(2));
    assert!(r.B);
    assert_eq!(r.U8, 9);
}

#[test]
fn float_list_encoding() {
    let mut r = ColferTypes::default();
    r.F32s = vec![1.0f32.to_bits()];
    assert_eq!(encode(&r), vec![16, 1, 0x3f, 0x80, 0x00, 0x00, 0x7f]);
}

#[test]
fn varint_length_prefix_of_long_text() {
    let mut r = ColferTypes::default();
    r.S = vec![b'a'; 300];
    let bytes = encode(&r);
    assert_eq!(&bytes[..3], &[8, 0xac, 0x02]);
    assert_eq!(bytes.len(), 3 + 300 + 1);
    assert_eq!(decode(&bytes).0.S.len(), 300);
}

#[test]
fn default_limits() {
    let lim = ColferLimits::default();
    assert_eq!(lim.size_max, 16 * 1024 * 1024);
    assert_eq!(lim.list_max, 65536);
}
