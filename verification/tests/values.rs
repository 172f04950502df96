use tson::strvec::{read_string, read_string_len};
use tson::deser::FromBytes;
use tson::ser::Element;
use tson::{ErrorKind, Reader, SliceReader, StrVec, TsonError, TsonTypedListType, Value};

#[test]
fn starts_are_zero_and_the_index_after_each_nul() {
    let list = StrVec::from(vec!["a".to_owned(), "bb".to_owned(), "".to_owned()]);
    assert_eq!(list.bytes, vec![b'a', 0, b'b', b'b', 0, 0]);
    assert_eq!(list.build_starts().unwrap(), vec![0, 2, 5, 6]);
    assert_eq!(StrVec::from_bytes(vec![]).build_starts().unwrap(), vec![0]);
    let open = StrVec::from_bytes(vec![b'a', 0, b'b']);
    assert_eq!(open.build_starts().unwrap_err().kind, ErrorKind::UnexpectedEndOfInput);
}

#[test]
fn strings_come_back_from_the_buffer() {
    let strings = vec!["a".to_owned(), "".to_owned(), "h\u{e9}".to_owned()];
    let list = StrVec::from(strings.clone());
    assert_eq!(list.try_to_vec().unwrap(), strings);
    assert_eq!(StrVec::from_strings(&strings), list);
    assert_eq!(StrVec::from_bytes(vec![]).try_to_vec().unwrap(), Vec::<String>::new());
    let open = StrVec::from_bytes(vec![b'a', 0, b'b']);
    assert_eq!(open.try_to_vec().unwrap_err().kind, ErrorKind::UnexpectedEndOfInput);
    let bad = StrVec::from_bytes(vec![0xff, 0, b'b']);
    assert_eq!(bad.try_to_vec().unwrap_err().kind, ErrorKind::MalformedString);
}

#[test]
fn string_list_converts_both_ways() {
    let strings = vec!["a".to_owned(), "bb".to_owned()];
    let list: StrVec = strings.clone().into();
    assert_eq!(list.bytes, vec![b'a', 0, b'b', b'b', 0]);
    let back: Vec<String> = list.try_into().unwrap();
    assert_eq!(back, strings);
    let open: Result<Vec<String>, TsonError> = StrVec::from_bytes(vec![b'a']).try_into();
    assert_eq!(open.unwrap_err().kind, ErrorKind::UnexpectedEndOfInput);
}

#[test]
fn string_end_is_past_the_next_nul() {
    let list = StrVec::from_bytes(vec![b'a', 0, b'b', b'b', 0, b'c']);
    assert_eq!(list.string_end(0), 2);
    assert_eq!(list.string_end(1), 2);
    assert_eq!(list.string_end(2), 5);
    assert_eq!(list.string_end(5), 6);
}

#[test]
fn free_readers_read_to_the_nul() {
    let bytes = vec![b'a', b'b', 0, b'c', 0, b'd'];
    let mut reader = SliceReader::new(&bytes);
    assert_eq!(read_string_len(&mut reader).unwrap(), 2);
    assert_eq!(read_string(&mut reader).unwrap(), "c");
    assert_eq!(read_string_len(&mut reader).unwrap_err().kind, ErrorKind::UnexpectedEndOfInput);
}

#[test]
fn reader_reads_little_endian() {
    let bytes = vec![
        0x01, 0xff, 0x02, 0x01, 0xfe, 0xff, 0x04, 0x03, 0x02, 0x01, 0xfe, 0xff, 0xff, 0xff, 8, 7,
        6, 5, 4, 3, 2, 1, 0xfe, 0xff, 0xff, 0xff, 0xff, 0xff, 0xff, 0xff,
    ];
    let mut reader = SliceReader::new(&bytes);
    assert_eq!(reader.read_u8().unwrap(), 1);
    assert_eq!(reader.read_i8().unwrap(), -1);
    assert_eq!(reader.read_u16().unwrap(), 0x0102);
    assert_eq!(reader.read_i16().unwrap(), -2);
    assert_eq!(reader.read_u32().unwrap(), 0x01020304);
    assert_eq!(reader.read_i32().unwrap(), -2);
    assert_eq!(reader.read_u64().unwrap(), 0x0102030405060708);
    assert_eq!(reader.read_i64().unwrap(), -2);
    assert_eq!(reader.position(), bytes.len());
    assert_eq!(reader.read_u8().unwrap_err().kind, ErrorKind::UnexpectedEndOfInput);
}

#[test]
fn reader_reads_floats_as_bits() {
    let mut bytes = Vec::new();
    bytes.extend_from_slice(&1.5f32.to_le_bytes());
    bytes.extend_from_slice(&2.5f64.to_le_bytes());
    let mut reader = SliceReader::new(&bytes);
    assert_eq!(f32::from_bits(reader.read_f32().unwrap()), 1.5);
    assert_eq!(f64::from_bits(reader.read_f64().unwrap()), 2.5);
}

#[test]
fn reader_reads_runs_into_vectors() {
    let bytes = vec![1, 0, 2, 0, 3, 0, 9];
    let mut reader = SliceReader::new(&bytes);
    let mut dest = vec![7u16];
    reader.read_u16_into(&mut dest, 3).unwrap();
    assert_eq!(dest, vec![7, 1, 2, 3]);
    let mut more = Vec::new();
    assert_eq!(
        reader.read_u16_into(&mut more, 1).unwrap_err().kind,
        ErrorKind::UnexpectedEndOfInput
    );
    let mut reader = SliceReader::new(&bytes);
    let mut signed = Vec::new();
    reader.read_i8_into(&mut signed, 2).unwrap();
    assert_eq!(signed, vec![1i8, 0]);
    let mut all = vec![5u8];
    reader.read_all(&mut all).unwrap();
    assert_eq!(all, vec![5, 2, 0, 3, 0, 9]);
    assert_eq!(reader.read_exact(1).unwrap_err().kind, ErrorKind::UnexpectedEndOfInput);
    let mut reader = SliceReader::new(&bytes);
    assert_eq!(reader.read_exact(2).unwrap(), vec![1, 0]);
    let mut wide: Vec<u32> = Vec::new();
    reader.read_elems(&mut wide, 1).unwrap();
    assert_eq!(wide, vec![0x00030002]);
    let mut bits: Vec<u32> = Vec::new();
    let mut reader = SliceReader::new(&bytes);
    reader.read_f32_into(&mut bits, 1).unwrap();
    assert_eq!(bits, vec![0x00020001]);
    assert_eq!(<i16 as FromBytes>::from_bytes(&[0xfe, 0xff, 7]), -2);
    assert_eq!(<u64 as FromBytes>::width(), 8);
}

#[test]
fn typed_list_tags() {
    assert_eq!(<u8 as TsonTypedListType>::to_int32(), 100);
    assert_eq!(<u16 as TsonTypedListType>::to_int32(), 101);
    assert_eq!(<u32 as TsonTypedListType>::to_int32(), 102);
    assert_eq!(<i8 as TsonTypedListType>::to_int32(), 103);
    assert_eq!(<i16 as TsonTypedListType>::to_int32(), 104);
    assert_eq!(<i32 as TsonTypedListType>::to_int32(), 105);
    assert_eq!(<i64 as TsonTypedListType>::to_int32(), 106);
    assert_eq!(<u64 as TsonTypedListType>::to_int32(), 107);
}

#[test]
fn accessors_give_the_inside_or_a_type_mismatch() {
    let text = Value::STR("x".to_owned());
    assert_eq!(text.to_str().unwrap(), "x");
    assert_eq!(text.to_map().unwrap_err().kind, ErrorKind::TypeMismatch);
    assert_eq!(text.to_list().unwrap_err().kind, ErrorKind::TypeMismatch);
    let list = Value::LST(vec![Value::NULL]);
    assert_eq!(list.to_list().unwrap(), &vec![Value::NULL]);
    assert_eq!(list.to_str().unwrap_err().kind, ErrorKind::TypeMismatch);
    let map = Value::MAP(vec![("k".to_owned(), Value::NULL)]);
    assert_eq!(map.to_map().unwrap().len(), 1);
}

#[test]
fn clone_is_a_deep_copy() {
    let mut map = Vec::new();
    map.push(("k".to_owned(), Value::LST(vec![Value::LSTI16(vec![-1, 2])])));
    map.push(("s".to_owned(), Value::LSTSTR(StrVec::from(vec!["a".to_owned()]))));
    let value = Value::MAP(map);
    assert_eq!(value.clone(), value);
}

#[test]
fn errors_describe_themselves() {
    let e = TsonError::new("str expected");
    assert_eq!(e.kind(), ErrorKind::Other);
    assert_eq!(e.description(), "str expected");
    assert_eq!(e.to_string(), "str expected");
    assert_eq!(TsonError::new("list too large").to_string(), "list too large");
    assert_eq!(TsonError::new(format!("{} expected", "lst")).to_string(), "lst expected");
    assert_eq!(TsonError::new("a".to_owned()), TsonError::new("a"));
    assert_ne!(TsonError::new("a"), TsonError::new("b"));
    let e = TsonError::other(7);
    assert_eq!(e.kind, ErrorKind::Other);
    assert_eq!(e.to_string(), "7");
    let e = TsonError::of_kind(ErrorKind::ValueTooLarge);
    assert_eq!(e.to_string(), "list too large");
    assert_eq!(ErrorKind::MalformedString.message(), "bad string");
}

#[test]
fn elements_are_written_little_endian() {
    let mut buf: Vec<u8> = Vec::new();
    Element::add(0x0102u16, &mut buf).unwrap();
    Element::add(-2i8, &mut buf).unwrap();
    Element::add(1u32, &mut buf).unwrap();
    assert_eq!(buf, vec![2, 1, 0xfe, 1, 0, 0, 0]);
    let mut counted = tson::CountWriter::new();
    Element::add(7i64, &mut counted).unwrap();
    assert_eq!(counted.size, 8);
}
