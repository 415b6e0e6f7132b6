use decker::vdf::{parse, parse_int, parse_object, parse_string, Error, Object, Value};

fn sample() -> Object {
    let mut tags = Object::new();
    tags.set_value("0".to_string(), Value::String("favorite".to_string()));
    let mut inner = Object::new();
    inner.set_value("appid".to_string(), Value::Integer(0x8123_4567));
    inner.set_value("AppName".to_string(), Value::String("Gäme ☃".to_string()));
    inner.set_value("tags".to_string(), Value::Object(tags));
    let mut root = Object::new();
    root.set_value("Shortcuts".to_string(), Value::Object(inner));
    root.set_value("n".to_string(), Value::Integer(7));
    root.set_value("n".to_string(), Value::Integer(8));
    root
}

fn same_object(a: &Object, b: &Object) -> bool {
    a.values.len() == b.values.len()
        && a.values.iter().zip(b.values.iter()).all(|(x, y)| x.0 == y.0 && same_value(&x.1, &y.1))
}

fn same_value(a: &Value, b: &Value) -> bool {
    match (a, b) {
        (Value::Object(x), Value::Object(y)) => same_object(x, y),
        (Value::String(x), Value::String(y)) => x == y,
        (Value::Integer(x), Value::Integer(y)) => x == y,
        _ => false,
    }
}

#[test]
fn empty_object_encodes_as_end_marker() {
    assert_eq!(decker::vdf::write(&Object::new()), vec![0x08]);
}

#[test]
fn encodes_each_tag() {
    let mut o = Object::new();
    o.set_value("a".to_string(), Value::Integer(0x0102_0304));
    o.set_value("b".to_string(), Value::String("xy".to_string()));
    o.set_value("c".to_string(), Value::Object(Object::new()));
    assert_eq!(
        decker::vdf::write(&o),
        vec![
            0x02, b'a', 0, 0x04, 0x03, 0x02, 0x01, 0x01, b'b', 0, b'x', b'y', 0, 0x00, b'c', 0,
            0x08, 0x08
        ]
    );
}

#[test]
fn empty_input_is_empty_object() {
    let o = parse(&[]).unwrap();
    assert!(o.values.is_empty());
}

#[test]
fn round_trip_keeps_order_and_duplicates() {
    let root = sample();
    let bytes = decker::vdf::write(&root);
    let back = parse(&bytes).unwrap();
    assert!(same_object(&root, &back));
    assert_eq!(back.values[1].0, "n");
    assert_eq!(back.values[2].0, "n");
}

#[test]
fn byte_stability() {
    let bytes = decker::vdf::write(&sample());
    let again = decker::vdf::write(&parse(&bytes).unwrap());
    assert_eq!(bytes, again);
}

#[test]
fn bytes_after_root_are_not_read() {
    let o = parse(&[0x02, b'k', 0, 1, 0, 0, 0, 0x08, 0xff, 0xff]).unwrap();
    assert_eq!(o.values.len(), 1);
    assert!(matches!(o.values[0].1, Value::Integer(1)));
}

#[test]
fn truncated_integer() {
    assert_eq!(parse(&[0x02, b'k', 0, 1, 0]).unwrap_err(), Error::Truncated { offset: 3 });
}

#[test]
fn missing_end_marker() {
    assert_eq!(parse(&[0x01, b'k', 0, b'v', 0]).unwrap_err(), Error::Truncated { offset: 5 });
}

#[test]
fn unterminated_name() {
    assert_eq!(parse(&[0x01, b'k', b'e']).unwrap_err(), Error::Truncated { offset: 1 });
}

#[test]
fn unknown_tag() {
    assert_eq!(
        parse(&[0x02, b'k', 0, 1, 0, 0, 0, 0x07, b'x', 0]).unwrap_err(),
        Error::UnknownTag { tag: 0x07, offset: 7 }
    );
}

#[test]
fn invalid_utf8() {
    assert_eq!(parse(&[0x01, b'k', 0, 0xc3, 0x28, 0, 0x08]).unwrap_err(), Error::InvalidUtf8 { offset: 3 });
}

#[test]
fn parse_string_moves_offset() {
    let bytes = [b'x', b'h', 0xc3, 0xa9, 0, b'z'];
    let mut offset = 1;
    assert_eq!(parse_string(&bytes, &mut offset).unwrap(), "hé");
    assert_eq!(offset, 5);
}

#[test]
fn parse_string_error_keeps_offset() {
    let bytes = [b'a', b'b'];
    let mut offset = 0;
    assert_eq!(parse_string(&bytes, &mut offset).unwrap_err(), Error::Truncated { offset: 0 });
    assert_eq!(offset, 0);
}

#[test]
fn parse_int_is_little_endian() {
    let bytes = [9, 0x78, 0x56, 0x34, 0x12];
    let mut offset = 1;
    assert_eq!(parse_int(&bytes, &mut offset).unwrap(), 0x1234_5678);
    assert_eq!(offset, 5);
    assert_eq!(parse_int(&bytes, &mut offset).unwrap_err(), Error::Truncated { offset: 5 });
}

#[test]
fn parse_object_reads_nested_list() {
    let bytes = [0x02, b'a', 0, 5, 0, 0, 0, 0x08, 0x01];
    let mut offset = 0;
    let o = parse_object(&bytes, &mut offset).unwrap();
    assert_eq!(offset, 8);
    assert_eq!(o.values.len(), 1);
}

#[test]
fn lookup_returns_first_match() {
    let mut o = sample();
    assert!(matches!(o.value("n"), Some(Value::Integer(7))));
    assert!(o.value("missing").is_none());
    if let Some(v) = o.value_mut("n") {
        *v = Value::Integer(9);
    }
    assert!(matches!(o.values[1].1, Value::Integer(9)));
    assert!(matches!(o.values[2].1, Value::Integer(8)));
    assert!(o.value_mut("missing").is_none());
}

#[test]
fn replace_or_append_field() {
    let mut o = sample();
    o.replace_or_append("n".to_string(), Value::Integer(1));
    assert!(matches!(o.values[1].1, Value::Integer(1)));
    assert_eq!(o.values.len(), 3);
    o.replace_or_append("m".to_string(), Value::Integer(2));
    assert_eq!(o.values.len(), 4);
    assert_eq!(o.values[3].0, "m");
    assert_eq!(o.find(&"n".to_string()), Some(1));
}

#[test]
fn largest_integer_and_empty_strings_round_trip() {
    let mut o = Object::new();
    o.set_value("max".to_string(), Value::Integer(u32::MAX));
    o.set_value(String::new(), Value::String(String::new()));
    let bytes = decker::vdf::write(&o);
    assert_eq!(bytes, vec![0x02, b'm', b'a', b'x', 0, 0xff, 0xff, 0xff, 0xff, 0x01, 0, 0, 0x08]);
    let back = parse(&bytes).unwrap();
    assert!(same_object(&o, &back));
}
