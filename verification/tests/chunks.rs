use tson::ser2::Serializer2;
use tson::ser3::Serializer3;
use tson::{decode, encode, SliceReader, StrVec, Value};

fn sample() -> Value {
    let mut vec = Vec::new();
    vec.push(Value::NULL);
    vec.push(Value::BOOL(true));
    vec.push(Value::I32(42));
    vec.push(Value::F64(42.0f64.to_bits()));
    vec.push(Value::STR("42.0".to_owned()));
    vec.push(Value::LSTU8(vec![42]));
    vec.push(Value::LSTI8(vec![42]));
    vec.push(Value::LSTU16(vec![42]));
    vec.push(Value::LSTI16(vec![42]));
    vec.push(Value::LSTU32(vec![42]));
    vec.push(Value::LSTI32(vec![42]));
    vec.push(Value::LSTU64(vec![42]));
    vec.push(Value::LSTI64(vec![42]));
    vec.push(Value::LSTF32(vec![42.0f32.to_bits()]));
    vec.push(Value::LSTF64(vec![42.0f64.to_bits()]));
    vec.push(Value::LST(vec![Value::LSTF64(vec![42.0f64.to_bits(); 1000])]));
    vec.push(Value::LSTSTR(StrVec::from(vec!["42".to_owned(), "42".to_owned()])));
    let mut map = Vec::new();
    map.push(("i42".to_owned(), Value::I32(42)));
    let mut inner_map = Vec::new();
    inner_map.push(("u42".to_owned(), Value::LSTU8(vec![42])));
    map.push(("map".to_owned(), Value::MAP(inner_map)));
    vec.push(Value::MAP(map));
    Value::LST(vec)
}

fn chunks_borrowed(max_buf_len: usize, object: &Value) -> Vec<Vec<u8>> {
    let mut chunks = Vec::new();
    let mut ser = Serializer2::new(max_buf_len, object);
    loop {
        let mut buf = Vec::new();
        ser.write(&mut buf).unwrap();
        if buf.is_empty() {
            return chunks;
        }
        chunks.push(buf);
    }
}

fn chunks_owned(max_buf_len: usize, object: Value) -> Vec<Vec<u8>> {
    let mut chunks = Vec::new();
    let mut ser = Serializer3::new(max_buf_len, object);
    loop {
        let mut buf = Vec::new();
        ser.write(&mut buf).unwrap();
        if buf.is_empty() {
            return chunks;
        }
        chunks.push(buf);
    }
}

#[test]
fn serializer2() {
    let object = sample();
    let mut bytes = Vec::new();
    let mut buf = Vec::new();
    let mut done = false;
    let mut ser = Serializer2::new(10, &object);
    while !done {
        ser.write(&mut buf).unwrap();
        if buf.is_empty() {
            done = true;
        }
        for byte in buf.iter() {
            bytes.push(*byte);
        }
        buf.clear();
    }
    let value = decode(SliceReader::new(&bytes)).unwrap();
    assert_eq!(&object, &value);
}

#[test]
fn serializer3() {
    let object = sample();
    let mut bytes = Vec::new();
    let mut buf = Vec::new();
    let mut done = false;
    let mut ser = Serializer3::new(10, object.clone());
    while !done {
        ser.write(&mut buf).unwrap();
        if buf.is_empty() {
            done = true;
        }
        for byte in buf.iter() {
            bytes.push(*byte);
        }
        buf.clear();
    }
    let value = decode(SliceReader::new(&bytes)).unwrap();
    assert_eq!(&object, &value);
}

#[test]
fn chunks_of_every_budget_join_to_the_one_shot_bytes() {
    let object = sample();
    let expected = encode(&object).unwrap();
    for max_buf_len in [1usize, 2, 3, 7, 8, 9, 10, 16, 100, 4096, 100_000] {
        let borrowed = chunks_borrowed(max_buf_len, &object).concat();
        assert_eq!(borrowed, expected);
        let owned = chunks_owned(max_buf_len, object.clone()).concat();
        assert_eq!(owned, expected);
    }
}

#[test]
fn borrowed_value_encodes_twice_alike() {
    let object = sample();
    let first = chunks_borrowed(10, &object);
    let second = chunks_borrowed(10, &object);
    assert_eq!(first, second);
    assert_eq!(first.concat(), encode(&object).unwrap());
}

#[test]
fn typed_list_chunk_holds_the_elements_that_fit() {
    let object = Value::LSTU32(vec![1, 2, 3, 4, 5, 6, 7, 8, 9, 10]);
    let chunks = chunks_borrowed(16, &object);
    // header (7 bytes), tag and length (5 bytes), then one element since
    // (16 - 12) / 4 = 1, which takes the buffer to its budget
    assert_eq!(chunks[0].len(), 16);
    assert_eq!(&chunks[0][7..12], &[102, 10, 0, 0, 0]);
    assert_eq!(&chunks[0][12..16], &[1, 0, 0, 0]);
    // an empty buffer takes 16 / 4 = 4 elements
    assert_eq!(chunks[1].len(), 16);
    assert_eq!(&chunks[1][0..4], &[2, 0, 0, 0]);
    assert_eq!(chunks[2].len(), 16);
    assert_eq!(chunks[3].len(), 4);
    assert_eq!(chunks.len(), 4);
}

#[test]
fn element_wider_than_the_budget_is_written_whole() {
    let object = Value::LSTU64(vec![1, 2]);
    let chunks = chunks_borrowed(1, &object);
    let joined = chunks.concat();
    assert_eq!(joined, encode(&object).unwrap());
    // header; tag, length and the first element in one step; then one element
    // per call
    assert_eq!(chunks[0].len(), 7);
    assert_eq!(chunks[1], vec![107, 2, 0, 0, 0, 1, 0, 0, 0, 0, 0, 0, 0]);
    assert_eq!(chunks[2], vec![2, 0, 0, 0, 0, 0, 0, 0]);
    assert_eq!(chunks.len(), 3);
    let owned = chunks_owned(1, object.clone());
    assert_eq!(owned, chunks);
}

#[test]
fn first_call_writes_the_header_over_budget() {
    let object = Value::NULL;
    let mut ser = Serializer2::new(1, &object);
    let mut buf = Vec::new();
    ser.write(&mut buf).unwrap();
    assert_eq!(buf, vec![1, b'1', b'.', b'1', b'.', b'0', 0]);
    buf.clear();
    ser.write(&mut buf).unwrap();
    assert_eq!(buf, vec![0]);
    buf.clear();
    ser.write(&mut buf).unwrap();
    assert!(buf.is_empty());
}

#[test]
fn string_list_goes_out_one_string_a_step() {
    let object = Value::LSTSTR(StrVec::from(vec!["a".to_owned(), "bb".to_owned()]));
    let chunks = chunks_borrowed(1, &object);
    assert_eq!(chunks[1], vec![112, 5, 0, 0, 0, b'a', 0]);
    assert_eq!(chunks[2], vec![b'b', b'b', 0]);
    assert_eq!(chunks.len(), 3);
}

#[test]
fn call_on_a_buffer_at_its_budget_writes_nothing() {
    let object = Value::LSTU8(vec![1, 2, 3]);
    let mut ser = Serializer2::new(4, &object);
    let mut buf = Vec::new();
    ser.write(&mut buf).unwrap();
    assert_eq!(buf.len(), 7);
    // the buffer is over its budget: the call leaves it as it is
    ser.write(&mut buf).unwrap();
    assert_eq!(buf.len(), 7);
    buf.clear();
    // the head takes the buffer over its budget, and one element goes with it
    ser.write(&mut buf).unwrap();
    assert_eq!(buf, vec![100, 3, 0, 0, 0, 1]);
    buf.clear();
    ser.write(&mut buf).unwrap();
    assert_eq!(buf, vec![2, 3]);
    buf.clear();
    ser.write(&mut buf).unwrap();
    assert!(buf.is_empty());
}

#[test]
fn budget_of_nothing_writes_the_header_and_no_more() {
    let object = Value::NULL;
    let mut ser = Serializer3::new(0, object);
    let mut buf = Vec::new();
    ser.write(&mut buf).unwrap();
    assert_eq!(buf.len(), 7);
    buf.clear();
    ser.write(&mut buf).unwrap();
    assert!(buf.is_empty());
}

#[test]
fn stream_gives_the_chunks_and_then_none() {
    let object = sample();
    let mut stream = tson::stream::SerializerStream::new(12, &object);
    let mut bytes = Vec::new();
    let mut count = 0;
    while let Some(chunk) = stream.next_chunk().unwrap() {
        assert!(!chunk.is_empty());
        bytes.extend_from_slice(&chunk);
        count += 1;
    }
    assert!(count > 1);
    assert_eq!(stream.next_chunk(), Ok(None));
    assert_eq!(bytes, encode(&object).unwrap());
}

#[test]
fn serializer_stream() {
    let mut vec = Vec::new();
    vec.push(Value::NULL);
    vec.push(Value::BOOL(true));
    vec.push(Value::I32(42));
    vec.push(Value::F64(42.0f64.to_bits()));
    vec.push(Value::STR("42.0".to_owned()));
    vec.push(Value::LSTU8(vec![42]));
    vec.push(Value::LSTI8(vec![42]));
    vec.push(Value::LSTU16(vec![42]));
    vec.push(Value::LSTI16(vec![42]));
    vec.push(Value::LSTU32(vec![42]));
    vec.push(Value::LSTI32(vec![42]));
    vec.push(Value::LSTU64(vec![42]));
    vec.push(Value::LSTI64(vec![42]));
    vec.push(Value::LSTF32(vec![42.0f32.to_bits()]));
    vec.push(Value::LSTF64(vec![42.0f64.to_bits()]));
    vec.push(Value::LSTSTR(StrVec::from(vec!["42".to_owned()])));
    let mut map = Vec::new();
    map.push(("i42".to_owned(), Value::I32(42)));
    let mut inner_map = Vec::new();
    inner_map.push(("u42".to_owned(), Value::LSTU8(vec![42])));
    map.push(("map".to_owned(), Value::MAP(inner_map)));
    vec.push(Value::MAP(map));
    let object = Value::LST(vec);
    let mut stream = tson::stream::SerializerStream::new(12, &object);
    let mut bytes = Vec::new();
    while let Some(value) = stream.next_chunk().unwrap() {
        println!("{:#?}", value);
        bytes.extend_from_slice(&value);
    }
    assert_eq!(decode(SliceReader::new(&bytes)).unwrap(), object);
}

#[test]
fn metadata_of_values() {
    let info = tson::ser2::ValueTypeLenSize::from_value(&Value::LSTU16(vec![1, 2, 3]));
    assert_eq!(info.value_type, 101);
    assert_eq!(info.value_size, Some(2));
    assert_eq!(info.len, Some(3));
    let info = tson::ser2::ValueTypeLenSize::from_value(&Value::STR("x".to_owned()));
    assert_eq!((info.value_type, info.value_size, info.len), (1, None, None));
    let list = StrVec::from(vec!["a".to_owned(), "bb".to_owned()]);
    let info = tson::ser2::ValueTypeLenSize::from_value(&Value::LSTSTR(list));
    assert_eq!((info.value_type, info.value_size, info.len), (112, None, Some(5)));
    let info = tson::ser2::ValueTypeLenSize::from_value(&Value::MAP(vec![]));
    assert_eq!((info.value_type, info.value_size, info.len), (11, None, Some(0)));
    let info = tson::ser2::ValueTypeLenSize::new(7, Some(1), Some(2));
    assert_eq!((info.value_type, info.value_size, info.len), (7, Some(2), Some(1)));
}

#[test]
fn head_and_first_units_go_out_in_one_step() {
    let object = Value::LSTU8(vec![1, 2, 3]);
    let mut ser = Serializer2::new(10, &object);
    let mut buf = Vec::new();
    ser.write(&mut buf).unwrap();
    // header (7 bytes), tag and length (5 bytes), and one element though the
    // buffer is over its budget
    assert_eq!(buf.len(), 13);
    assert_eq!(&buf[7..], &[100, 3, 0, 0, 0, 1]);
    let mut ser = Serializer3::new(10, object.clone());
    let mut owned = Vec::new();
    ser.write(&mut owned).unwrap();
    assert_eq!(owned, buf);
}

#[test]
fn list_head_goes_out_with_its_first_item() {
    let object = Value::LST(vec![Value::BOOL(true), Value::NULL]);
    let chunks = chunks_borrowed(1, &object);
    // the step that writes the head of the list puts the first item on the
    // stack; the item is written by the next step, in the next call
    assert_eq!(chunks[1], vec![10, 2, 0, 0, 0]);
    assert_eq!(chunks[2], vec![4, 1]);
    assert_eq!(chunks[3], vec![0]);
    assert_eq!(chunks.len(), 4);
    assert_eq!(chunks_owned(1, object.clone()), chunks);
    let object = Value::MAP(vec![("k".to_owned(), Value::NULL)]);
    let chunks = chunks_borrowed(1, &object);
    // the key goes out with the head of the map
    assert_eq!(chunks[1], vec![11, 1, 0, 0, 0, 1, b'k', 0]);
    assert_eq!(chunks[2], vec![0]);
    assert_eq!(chunks.len(), 3);
    assert_eq!(chunks_owned(1, object.clone()), chunks);
}

#[test]
fn empty_containers_are_their_heads() {
    for object in [
        Value::LST(vec![]),
        Value::MAP(vec![]),
        Value::LSTI32(vec![]),
        Value::LSTSTR(StrVec::from_bytes(vec![])),
    ] {
        let chunks = chunks_borrowed(1, &object);
        assert_eq!(chunks.len(), 2);
        assert_eq!(chunks[1].len(), 5);
        assert_eq!(chunks_owned(1, object.clone()), chunks);
    }
}
