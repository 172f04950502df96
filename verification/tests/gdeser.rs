use tson::gdeser::{TsonGDeserializer, TsonMapEntryDeser};
use tson::{encode, ErrorKind, SliceReader, TsonResult, Value};

fn floats(values: &[f64]) -> Vec<u64> {
    values.iter().map(|v| v.to_bits()).collect()
}

fn factor(name: &str) -> Value {
    let mut map = Vec::new();
    map.push(("name".to_string(), Value::STR(name.to_string())));
    map.push(("values".to_string(), Value::LSTF64(floats(&[0.0, 42.0]))));
    Value::MAP(map)
}

#[test]
fn next_map() {
    let bytes = encode(&factor("factor1")).unwrap();
    let reader = SliceReader::new(&bytes);
    let mut deser = TsonGDeserializer::new(reader).unwrap();
    let mut deser_map = deser.next_map().unwrap();
    assert_eq!(deser_map.len(), 2);

    fn check_key_value(key_value: &mut TsonMapEntryDeser<SliceReader>) -> TsonResult<()> {
        if &key_value.key == "name" {
            assert_eq!(key_value.string()?, "factor1");
        } else if &key_value.key == "values" {
            if let Value::LSTF64(vec) = key_value.value()? {
                assert_eq!(vec, vec![0.0f64.to_bits(), 42.0f64.to_bits()]);
            } else {
                assert!(false)
            }
        }
        Ok(())
    }

    check_key_value(&mut deser_map.next().unwrap().unwrap()).unwrap();
    check_key_value(&mut deser_map.next().unwrap().unwrap()).unwrap();
}

#[test]
fn next_list() {
    let bytes = encode(&Value::LST(vec![factor("factor1"), factor("factor2")])).unwrap();
    let reader = SliceReader::new(&bytes);
    let mut deser = TsonGDeserializer::new(reader).unwrap();
    let mut deser_list = deser.next_list().unwrap();
    assert_eq!(deser_list.len(), 2);

    fn check_key_value(key_value: &mut TsonMapEntryDeser<SliceReader>) -> TsonResult<()> {
        if &key_value.key == "name" {
            assert!(key_value.string()?.starts_with("factor"));
        } else if &key_value.key == "values" {
            if let Value::LSTF64(vec) = key_value.value()? {
                assert_eq!(vec, vec![0.0f64.to_bits(), 42.0f64.to_bits()]);
            } else {
                assert!(false)
            }
        }
        Ok(())
    }

    let mut map = deser_list.next_map().unwrap().unwrap();
    check_key_value(&mut map.next().unwrap().unwrap()).unwrap();
    check_key_value(&mut map.next().unwrap().unwrap()).unwrap();

    let mut map = deser_list.next_map().unwrap().unwrap();
    check_key_value(&mut map.next().unwrap().unwrap()).unwrap();
    check_key_value(&mut map.next().unwrap().unwrap()).unwrap();
}

#[test]
fn structured_decode_gives_what_full_decode_gives() {
    let bytes = encode(&factor("factor1")).unwrap();
    let mut deser = TsonGDeserializer::new(SliceReader::new(&bytes)).unwrap();
    let mut map = deser.next_map().unwrap();
    assert_eq!(map.len(), 2);
    let mut name = None;
    let mut values = None;
    while let Some(entry) = map.next() {
        let mut entry = entry.unwrap();
        if entry.key() == "name" {
            name = Some(entry.string().unwrap());
        } else if entry.key() == "values" {
            values = Some(entry.value().unwrap());
        }
    }
    assert!(map.next().is_none());
    assert_eq!(name, Some("factor1".to_string()));
    let expected: Vec<f64> = vec![0.0, 42.0];
    match values {
        Some(Value::LSTF64(bits)) => {
            let got: Vec<f64> = bits.iter().map(|b| f64::from_bits(*b)).collect();
            assert_eq!(got, expected);
        }
        _ => panic!("the values are a list of doubles"),
    }
}

#[test]
fn cursors_walk_nested_containers() {
    let mut inner = Vec::new();
    inner.push(("text".to_string(), Value::STR("deep".to_string())));
    let mut outer = Vec::new();
    outer.push(("inner".to_string(), Value::MAP(inner)));
    outer.push(("items".to_string(), Value::LST(vec![Value::I32(7), Value::LST(vec![])])));
    let bytes = encode(&Value::MAP(outer)).unwrap();
    let mut deser = TsonGDeserializer::new(SliceReader::new(&bytes)).unwrap();
    let mut map = deser.next_map().unwrap();
    {
        let mut entry = map.next().unwrap().unwrap();
        assert_eq!(entry.key(), "inner");
        let mut inner = entry.map().unwrap();
        assert_eq!(inner.len(), 1);
        let mut text = inner.next().unwrap().unwrap();
        assert_eq!(text.key(), "text");
        assert_eq!(text.string().unwrap(), "deep");
    }
    {
        let mut entry = map.next().unwrap().unwrap();
        assert_eq!(entry.key(), "items");
        let mut items = entry.list().unwrap();
        assert_eq!(items.len(), 2);
        assert_eq!(items.value().unwrap().unwrap(), Value::I32(7));
        let mut empty = items.next_list().unwrap().unwrap();
        assert_eq!(empty.len(), 0);
        assert!(empty.value().is_none());
        assert!(empty.next_map().is_none());
        assert!(empty.next_list().is_none());
        assert!(items.value().is_none());
    }
    assert!(map.next().is_none());
}

#[test]
fn wrong_shape_is_a_type_mismatch() {
    let bytes = encode(&Value::I32(1)).unwrap();
    let mut deser = TsonGDeserializer::new(SliceReader::new(&bytes)).unwrap();
    assert_eq!(deser.next_string().unwrap_err().kind, ErrorKind::TypeMismatch);
    let mut deser = TsonGDeserializer::new(SliceReader::new(&bytes)).unwrap();
    assert_eq!(deser.next_map().err().unwrap().kind, ErrorKind::TypeMismatch);
    let mut deser = TsonGDeserializer::new(SliceReader::new(&bytes)).unwrap();
    assert_eq!(deser.next_list().err().unwrap().kind, ErrorKind::TypeMismatch);
    let mut deser = TsonGDeserializer::new(SliceReader::new(&bytes)).unwrap();
    assert_eq!(deser.next_value().unwrap(), Value::I32(1));
}

#[test]
fn structured_decoder_checks_the_header() {
    let bytes = vec![1, b'9', b'.', b'9', b'.', b'9', 0, 0];
    let r = TsonGDeserializer::new(SliceReader::new(&bytes));
    assert_eq!(r.err().unwrap().kind, ErrorKind::VersionMismatch);
    let bytes = vec![1, b'1', b'.', b'1'];
    let r = TsonGDeserializer::new(SliceReader::new(&bytes));
    assert_eq!(r.err().unwrap().kind, ErrorKind::UnexpectedEndOfInput);
    let bytes = vec![2, 0, 0, 0, 0];
    let r = TsonGDeserializer::new(SliceReader::new(&bytes));
    assert_eq!(r.err().unwrap().kind, ErrorKind::TypeMismatch);
}

#[test]
fn read_type_and_read_len_take_bytes_off_the_front() {
    let bytes = encode(&Value::LSTU8(vec![9, 8, 7])).unwrap();
    let mut deser = TsonGDeserializer::new(SliceReader::new(&bytes)).unwrap();
    assert_eq!(deser.read_type().unwrap(), 100);
    assert_eq!(deser.read_len().unwrap(), 3);
    assert_eq!(deser.read_type().unwrap(), 9);
}
