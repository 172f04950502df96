use tson::{decode, encode, ErrorKind, SliceReader, StrVec, Value, Writer};

fn encode_decode(object: &Value) {
    let bytes = encode(object).unwrap();
    let value = decode(SliceReader::new(&bytes)).unwrap();
    assert_eq!(object, &value);
}

#[test]
fn null() {
    encode_decode(&Value::NULL)
}

#[test]
fn empty_lst() {
    let lst = Value::LST(Vec::new());
    encode_decode(&lst)
}

#[test]
fn lst() {
    let mut vec = Vec::new();
    vec.push(Value::NULL);
    vec.push(Value::BOOL(true));
    vec.push(Value::I32(42));
    vec.push(Value::F64(42.0f64.to_bits()));
    vec.push(Value::STR("42.0".to_owned()));
    vec.push(Value::STR("".to_owned()));
    vec.push(Value::LSTU8(vec![42]));
    vec.push(Value::LSTI8(vec![42]));
    vec.push(Value::LSTU16(vec![42]));
    vec.push(Value::LSTI16(vec![42]));
    vec.push(Value::LSTU32(vec![42]));
    vec.push(Value::LSTI32(vec![42]));
    vec.push(Value::LSTU64(vec![42]));
    vec.push(Value::LSTI64(vec![42]));
    vec.push(Value::LSTF32(vec![42.0f32.to_bits()]));
    vec.push(Value::LSTF64(vec![42.0f64.to_bits()]));
    vec.push(Value::LSTSTR(StrVec::from(vec!["42".to_owned()])));
    let object = Value::LST(vec);
    encode_decode(&object);
}

#[test]
fn empty_string() {
    let mut vec = Vec::new();
    vec.push(Value::STR("".to_owned()));
    let object = Value::LST(vec);
    let bytes = encode(&object).unwrap();
    println!("{:#?}", bytes);
    encode_decode(&Value::STR("".to_owned()));
}

#[test]
fn map() {
    let mut map = Vec::new();
    map.push(("i42".to_owned(), Value::I32(42)));
    let mut inner_map = Vec::new();
    inner_map.push(("u42".to_owned(), Value::LSTU8(vec![42])));
    map.push(("map".to_owned(), Value::MAP(inner_map)));
    encode_decode(&Value::MAP(map))
}

fn header() -> Vec<u8> {
    vec![1, b'1', b'.', b'1', b'.', b'0', 0]
}

fn with_header(body: &[u8]) -> Vec<u8> {
    let mut bytes = header();
    bytes.extend_from_slice(body);
    bytes
}

#[test]
fn int32_is_tag_and_four_bytes_after_the_header() {
    let bytes = encode(&Value::I32(42)).unwrap();
    assert_eq!(bytes, with_header(&[2, 42, 0, 0, 0]));
    assert_eq!(Value::I32(42).to_bytes().unwrap(), bytes);
}

#[test]
fn string_list_length_field_counts_bytes() {
    let list = StrVec::from(vec!["a".to_owned(), "bb".to_owned()]);
    assert_eq!(list.bytes, vec![b'a', 0, b'b', b'b', 0]);
    let bytes = encode(&Value::LSTSTR(list)).unwrap();
    assert_eq!(bytes, with_header(&[112, 5, 0, 0, 0, b'a', 0, b'b', b'b', 0]));
}

#[test]
fn every_kind_has_its_layout() {
    assert_eq!(encode(&Value::NULL).unwrap(), with_header(&[0]));
    assert_eq!(encode(&Value::STR("hi".to_owned())).unwrap(), with_header(&[1, b'h', b'i', 0]));
    assert_eq!(encode(&Value::I32(-2)).unwrap(), with_header(&[2, 0xfe, 0xff, 0xff, 0xff]));
    assert_eq!(
        encode(&Value::F64(1.0f64.to_bits())).unwrap(),
        with_header(&[3, 0, 0, 0, 0, 0, 0, 0xf0, 0x3f])
    );
    assert_eq!(encode(&Value::BOOL(true)).unwrap(), with_header(&[4, 1]));
    assert_eq!(encode(&Value::BOOL(false)).unwrap(), with_header(&[4, 0]));
    assert_eq!(
        encode(&Value::LST(vec![Value::NULL, Value::BOOL(true)])).unwrap(),
        with_header(&[10, 2, 0, 0, 0, 0, 4, 1])
    );
    assert_eq!(
        encode(&Value::MAP(vec![("k".to_owned(), Value::I32(1))])).unwrap(),
        with_header(&[11, 1, 0, 0, 0, 1, b'k', 0, 2, 1, 0, 0, 0])
    );
    assert_eq!(encode(&Value::LSTU8(vec![1, 255])).unwrap(), with_header(&[100, 2, 0, 0, 0, 1, 255]));
    assert_eq!(
        encode(&Value::LSTU16(vec![0x0102])).unwrap(),
        with_header(&[101, 1, 0, 0, 0, 2, 1])
    );
    assert_eq!(
        encode(&Value::LSTU32(vec![0x01020304])).unwrap(),
        with_header(&[102, 1, 0, 0, 0, 4, 3, 2, 1])
    );
    assert_eq!(encode(&Value::LSTI8(vec![-1])).unwrap(), with_header(&[103, 1, 0, 0, 0, 255]));
    assert_eq!(
        encode(&Value::LSTI16(vec![-2])).unwrap(),
        with_header(&[104, 1, 0, 0, 0, 0xfe, 0xff])
    );
    assert_eq!(
        encode(&Value::LSTI32(vec![-2])).unwrap(),
        with_header(&[105, 1, 0, 0, 0, 0xfe, 0xff, 0xff, 0xff])
    );
    assert_eq!(
        encode(&Value::LSTI64(vec![-2])).unwrap(),
        with_header(&[106, 1, 0, 0, 0, 0xfe, 0xff, 0xff, 0xff, 0xff, 0xff, 0xff, 0xff])
    );
    assert_eq!(
        encode(&Value::LSTU64(vec![0x0102030405060708])).unwrap(),
        with_header(&[107, 1, 0, 0, 0, 8, 7, 6, 5, 4, 3, 2, 1])
    );
    assert_eq!(
        encode(&Value::LSTF32(vec![1.0f32.to_bits()])).unwrap(),
        with_header(&[110, 1, 0, 0, 0, 0, 0, 0x80, 0x3f])
    );
    assert_eq!(
        encode(&Value::LSTF64(vec![1.0f64.to_bits()])).unwrap(),
        with_header(&[111, 1, 0, 0, 0, 0, 0, 0, 0, 0, 0, 0xf0, 0x3f])
    );
}

#[test]
fn every_kind_comes_back() {
    let values = vec![
        Value::NULL,
        Value::STR("".to_owned()),
        Value::STR("h\u{e9}llo \u{1f600}".to_owned()),
        Value::I32(i32::MIN),
        Value::I32(i32::MAX),
        Value::F64(f64::NAN.to_bits()),
        Value::F64((-0.0f64).to_bits()),
        Value::BOOL(false),
        Value::LST(vec![]),
        Value::MAP(vec![]),
        Value::LSTU8(vec![]),
        Value::LSTU8(vec![0, 255]),
        Value::LSTI8(vec![i8::MIN, -1, 0, i8::MAX]),
        Value::LSTU16(vec![0, u16::MAX]),
        Value::LSTI16(vec![i16::MIN, -1, i16::MAX]),
        Value::LSTU32(vec![0, u32::MAX]),
        Value::LSTI32(vec![i32::MIN, -1, i32::MAX]),
        Value::LSTU64(vec![0, u64::MAX]),
        Value::LSTI64(vec![i64::MIN, -1, i64::MAX]),
        Value::LSTF32(vec![f32::INFINITY.to_bits(), 1.5f32.to_bits()]),
        Value::LSTF64(vec![f64::NEG_INFINITY.to_bits(), 1.5f64.to_bits()]),
        Value::LSTSTR(StrVec::from(Vec::<String>::new())),
        Value::LSTSTR(StrVec::from(vec!["".to_owned(), "x".to_owned(), "".to_owned()])),
    ];
    for value in values.iter() {
        encode_decode(value);
    }
    encode_decode(&Value::LST(values));
}

#[test]
fn encoded_size_is_the_length_of_the_bytes() {
    let ser = tson::Serializer::new();
    let mut map = Vec::new();
    map.push(("k".to_owned(), Value::LSTU16(vec![1, 2, 3])));
    map.push(("s".to_owned(), Value::LSTSTR(StrVec::from(vec!["a".to_owned()]))));
    let value = Value::LST(vec![Value::MAP(map), Value::STR("x".to_owned())]);
    let bytes = ser.encode(&value).unwrap();
    assert_eq!(ser.encoded_size(&value).unwrap(), bytes.len());
    assert_eq!(ser.encoded_size(&Value::NULL).unwrap(), 8);
    let mut counted = tson::CountWriter::new();
    ser.write(&value, &mut counted).unwrap();
    assert_eq!(counted.size, bytes.len());
    let mut written = Vec::new();
    ser.write(&value, &mut written).unwrap();
    assert_eq!(written, bytes);
}

#[test]
fn count_writer_refuses_what_would_overflow() {
    let mut counted = tson::CountWriter::new();
    counted.size = usize::MAX - 1;
    assert_eq!(counted.add_u16(7).unwrap_err().kind, tson::ErrorKind::ValueTooLarge);
    assert_eq!(counted.size, usize::MAX - 1);
    // a write that is refused leaves the count as it was
    assert_eq!(counted.add_u64(7).unwrap_err().kind, tson::ErrorKind::ValueTooLarge);
    assert_eq!(counted.size, usize::MAX - 1);
    counted.add_u8(7).unwrap();
    assert_eq!(counted.size, usize::MAX);
    assert_eq!(counted.put_slice(&[1]).unwrap_err().kind, tson::ErrorKind::ValueTooLarge);
    counted.put_slice(&[]).unwrap();
}

#[test]
fn truncated_input_ends_too_early() {
    let mut map = Vec::new();
    map.push(("a".to_owned(), Value::I32(1)));
    map.push(("b".to_owned(), Value::I32(2)));
    let bytes = encode(&Value::MAP(map)).unwrap();
    // the map says two entries, and the second one is cut off
    let cut = &bytes[..bytes.len() - 8];
    let err = tson::decode_bytes(cut).unwrap_err();
    assert_eq!(err.kind, tson::ErrorKind::UnexpectedEndOfInput);
    for end in 0..bytes.len() {
        let err = tson::decode_bytes(&bytes[..end]).unwrap_err();
        assert_eq!(err.kind, tson::ErrorKind::UnexpectedEndOfInput);
    }
    assert!(tson::decode_bytes(&bytes).is_ok());
}

#[test]
fn other_version_is_refused() {
    let bytes = vec![1, b'9', b'.', b'9', b'.', b'9', 0, 0];
    let err = tson::decode_bytes(&bytes).unwrap_err();
    assert_eq!(err.kind, tson::ErrorKind::VersionMismatch);
    assert_eq!(err.to_string(), "wrong version");
}

#[test]
fn each_error_has_an_input() {
    let kind = |body: &[u8]| tson::decode_bytes(&with_header(body)).unwrap_err().kind;
    assert_eq!(tson::decode_bytes(&[]).unwrap_err().kind, ErrorKind::UnexpectedEndOfInput);
    assert_eq!(tson::decode_bytes(&[0]).unwrap_err().kind, ErrorKind::TypeMismatch);
    assert_eq!(kind(&[]), ErrorKind::UnexpectedEndOfInput);
    assert_eq!(kind(&[5]), ErrorKind::TypeMismatch);
    assert_eq!(kind(&[99]), ErrorKind::TypeMismatch);
    assert_eq!(kind(&[1, 0xff, 0]), ErrorKind::MalformedString);
    assert_eq!(kind(&[1, b'a']), ErrorKind::UnexpectedEndOfInput);
    assert_eq!(kind(&[2, 1, 2, 3]), ErrorKind::UnexpectedEndOfInput);
    assert_eq!(kind(&[11, 1, 0, 0, 0, 2, 0, 0, 0, 0, 0]), ErrorKind::TypeMismatch);
    assert_eq!(kind(&[101, 2, 0, 0, 0, 1, 0, 2]), ErrorKind::UnexpectedEndOfInput);
    // a string list of 3 bytes whose second string ends after the fourth
    assert_eq!(kind(&[112, 3, 0, 0, 0, b'a', 0, b'b', b'b', 0]), ErrorKind::DeclaredLengthMismatch);
    assert_eq!(kind(&[112, 2, 0, 0, 0, 0xff, 0]), ErrorKind::MalformedString);
    assert_eq!(kind(&[112, 2, 0, 0, 0, b'a']), ErrorKind::UnexpectedEndOfInput);
}

#[test]
fn bool_is_true_for_any_byte_but_zero() {
    assert_eq!(tson::decode_bytes(&with_header(&[4, 0])).unwrap(), Value::BOOL(false));
    assert_eq!(tson::decode_bytes(&with_header(&[4, 7])).unwrap(), Value::BOOL(true));
}

#[test]
fn later_entry_of_a_key_takes_the_place_of_the_earlier() {
    let body = [
        11, 3, 0, 0, 0, 1, b'a', 0, 2, 1, 0, 0, 0, 1, b'b', 0, 0, 1, b'a', 0, 4, 1,
    ];
    let value = tson::decode_bytes(&with_header(&body)).unwrap();
    let expected = Value::MAP(vec![
        ("a".to_owned(), Value::BOOL(true)),
        ("b".to_owned(), Value::NULL),
    ]);
    assert_eq!(value, expected);
}

#[test]
fn bytes_after_the_value_are_left_alone() {
    let mut bytes = encode(&Value::I32(5)).unwrap();
    bytes.push(77);
    assert_eq!(tson::decode_bytes(&bytes).unwrap(), Value::I32(5));
    let mut reader = SliceReader::new(&bytes);
    let value = tson::Deserializer::new().read(&mut reader).unwrap();
    assert_eq!(value, Value::I32(5));
    assert_eq!(reader.position(), bytes.len() - 1);
}
