use vdf_parse::key_order::{bytes_less, key_less};
use vdf_parse::{parse_hash_entity, parse_map_value, DecodeError, MapValue, ObjectMap};

fn shortcuts() -> Vec<u8> {
    b"\x00shortcuts\x00\x02appid\x00\x51\x2D\xEB\x82\x01exe\0\"C:\\Program Files (x86)\\Games\\Game.exe\"\0\x08".to_vec()
}

#[test]
fn nested_termination() {
    let mut bytes = shortcuts();
    bytes.extend_from_slice(b"after");
    let input = &mut bytes.as_slice();
    let (name, value) = parse_hash_entity(input).unwrap();
    assert_eq!(name, "shortcuts");
    assert_eq!(*input, &b"after"[..]);
    match value {
        MapValue::Object(map) => {
            assert_eq!(map.len(), 2);
            assert_eq!(map.get("appid"), Some(&MapValue::Number32(2196450641)));
            assert_eq!(
                map.get("exe"),
                Some(&MapValue::String(
                    "\"C:\\Program Files (x86)\\Games\\Game.exe\"".to_string()
                ))
            );
            assert_eq!(map.get("other"), None);
        }
        other => panic!("{:?}", other),
    }
}

#[test]
fn empty_object() {
    let input = &mut &b"\x00\0\x08"[..];
    assert_eq!(
        parse_hash_entity(input),
        Ok((String::new(), MapValue::Object(ObjectMap::new())))
    );
    assert!(input.is_empty());
}

#[test]
fn object_in_object() {
    let input = &mut &b"\x00a\0\x00b\0\x00c\0\x02n\0\x2A\x00\x00\x00\x08\x08\x01s\0t\0\x08rest"[..];
    let mut c = ObjectMap::new();
    c.insert("n".to_string(), MapValue::Number32(42));
    let mut b = ObjectMap::new();
    b.insert("c".to_string(), MapValue::Object(c));
    let mut a = ObjectMap::new();
    a.insert("b".to_string(), MapValue::Object(b));
    a.insert("s".to_string(), MapValue::String("t".to_string()));
    assert_eq!(
        parse_hash_entity(input),
        Ok(("a".to_string(), MapValue::Object(a)))
    );
    assert_eq!(*input, &b"rest"[..]);
}

#[test]
fn later_entry_replaces_earlier_one() {
    let input = &mut &b"\x00o\0\x02k\0\x01\x00\x00\x00\x01z\0first\0\x01k\0last\0\x08"[..];
    let (_, value) = parse_hash_entity(input).unwrap();
    match value {
        MapValue::Object(map) => {
            assert_eq!(map.len(), 2);
            assert_eq!(map.get("k"), Some(&MapValue::String("last".to_string())));
            assert_eq!(map.get("z"), Some(&MapValue::String("first".to_string())));
        }
        other => panic!("{:?}", other),
    }
}

#[test]
fn order_on_the_wire_does_not_matter() {
    let one = parse_hash_entity(&mut &b"\x00o\0\x01a\0x\0\x01b\0y\0\x08"[..]).unwrap();
    let two = parse_hash_entity(&mut &b"\x00o\0\x01b\0y\0\x01a\0x\0\x08"[..]).unwrap();
    assert_eq!(one, two);
}

#[test]
fn unknown_tag_deep_inside_fails() {
    for tag in [0x04u8, 0x05, 0x06, 0x09, 0x0A, 0x7F, 0x80, 0xFF] {
        let mut bytes = b"\x00a\0\x01s\0t\0\x00b\0\x02n\0\x01\x00\x00\x00\x00c\0".to_vec();
        bytes.push(tag);
        bytes.extend_from_slice(b"k\0v\0\x08\x08\x08");
        let input = &mut bytes.as_slice();
        assert_eq!(parse_hash_entity(input), Err(DecodeError::UnrecognizedTag));
        let again = &mut bytes.as_slice();
        assert_eq!(parse_map_value(again), Err(DecodeError::UnrecognizedTag));
    }
}

#[test]
fn missing_end_byte_is_truncated() {
    let mut bytes = shortcuts();
    bytes.pop();
    assert_eq!(
        parse_hash_entity(&mut bytes.as_slice()),
        Err(DecodeError::Truncation)
    );
}

#[test]
fn every_proper_prefix_is_truncated() {
    let bytes = b"\x00a\0\x01s\0t\0\x00b\0\x02n\0\x01\x00\x00\x00\x07m\0\x01\x02\x03\x04\x05\x06\x07\x08\x03f\0\x00\x00\x80\x3F\x08\x08";
    assert!(parse_hash_entity(&mut &bytes[..]).is_ok());
    for cut in 0..bytes.len() {
        assert_eq!(
            parse_hash_entity(&mut &bytes[..cut]),
            Err(DecodeError::Truncation),
            "cut at {}",
            cut
        );
    }
}

#[test]
fn failed_entry_leaves_cursor_on_its_first_byte() {
    let bytes = b"\x00a\0\x01s\0t\0\x02n\0\x01\x00";
    let input = &mut &bytes[..];
    assert_eq!(parse_hash_entity(input), Err(DecodeError::Truncation));
    assert_eq!(*input, &b"\x02n\0\x01\x00"[..]);
    let nested = b"\x00a\0\x00b\0\x01s\0\xFF\0\x08\x08";
    let input = &mut &nested[..];
    assert_eq!(parse_hash_entity(input), Err(DecodeError::Encoding));
    assert_eq!(*input, &b"\x00b\0\x01s\0\xFF\0\x08\x08"[..]);
}

#[test]
fn decoding_twice_gives_equal_trees() {
    let bytes = shortcuts();
    let first = parse_hash_entity(&mut bytes.as_slice());
    let second = parse_hash_entity(&mut bytes.as_slice());
    assert!(first.is_ok());
    assert_eq!(first, second);
    let broken = b"\x00a\0\x09";
    assert_eq!(
        parse_hash_entity(&mut &broken[..]),
        parse_hash_entity(&mut &broken[..])
    );
}

#[test]
fn object_map_keeps_names_in_order() {
    let mut map = ObjectMap::new();
    assert_eq!(map.insert("b".to_string(), MapValue::Number32(2)), None);
    assert_eq!(map.insert("a".to_string(), MapValue::Number32(1)), None);
    assert_eq!(map.insert("ab".to_string(), MapValue::Number32(3)), None);
    assert_eq!(
        map.insert("a".to_string(), MapValue::Number32(4)),
        Some(MapValue::Number32(1))
    );
    let names: Vec<&str> = map.as_slice().iter().map(|e| e.0.as_str()).collect();
    assert_eq!(names, vec!["a", "ab", "b"]);
    assert_eq!(map.get("a"), Some(&MapValue::Number32(4)));
    assert_eq!(map.get(""), None);
    assert_eq!(map.len(), 3);
}

#[test]
fn byte_removed_before_the_end_may_still_decode() {
    let whole = b"\x00o\0\x02a\0\x01\x02\x03\x04\x01\x01\0\0\x08";
    let mut expected = ObjectMap::new();
    expected.insert("a".to_string(), MapValue::Number32(0x0403_0201));
    expected.insert("\u{1}".to_string(), MapValue::String(String::new()));
    assert_eq!(
        parse_hash_entity(&mut &whole[..]),
        Ok(("o".to_string(), MapValue::Object(expected)))
    );

    let shorter = b"\x00o\0\x02a\0\x01\x02\x03\x01\x01\0\0\x08";
    let mut expected = ObjectMap::new();
    expected.insert("a".to_string(), MapValue::Number32(0x0103_0201));
    expected.insert(String::new(), MapValue::String(String::new()));
    assert_eq!(
        parse_hash_entity(&mut &shorter[..]),
        Ok(("o".to_string(), MapValue::Object(expected)))
    );
}

#[test]
fn bytes_after_the_entry_do_not_matter() {
    let bytes = b"\x00a\0\x01s\0t\0\x00b\0\x02n\0\x01\x00\x00\x00\x08\x08";
    let alone = parse_hash_entity(&mut &bytes[..]).unwrap();
    for tail in [&b"\x08"[..], &b"\0"[..], &b"\x01k\0v\0"[..], &b"\xFF\xFF"[..]] {
        let mut longer = bytes.to_vec();
        longer.extend_from_slice(tail);
        let input = &mut longer.as_slice();
        assert_eq!(parse_hash_entity(input), Ok(alone.clone()));
        assert_eq!(*input, tail);
    }
}

#[test]
fn end_byte_is_no_entry() {
    let input = &mut &b"\x08"[..];
    assert_eq!(parse_map_value(input), Err(DecodeError::UnrecognizedTag));
    assert_eq!(input.len(), 1);
}

#[test]
fn clone_is_equal_and_independent() {
    let (_, value) = parse_hash_entity(&mut shortcuts().as_slice()).unwrap();
    let copy = value.clone();
    assert_eq!(copy, value);
    let mut changed = match copy {
        MapValue::Object(map) => map,
        other => panic!("{:?}", other),
    };
    changed.insert("appid".to_string(), MapValue::Number64(1));
    assert_ne!(MapValue::Object(changed), value);
    match value {
        MapValue::Object(map) => {
            assert_eq!(map.get("appid"), Some(&MapValue::Number32(2196450641)))
        }
        other => panic!("{:?}", other),
    }
}

#[test]
fn names_are_ordered_by_their_bytes() {
    let mut map = ObjectMap::new();
    for name in ["z", "\u{e9}", "Z", "", "a", "ab", "\u{1f600}", "A"] {
        map.insert(name.to_string(), MapValue::String(name.to_string()));
    }
    let names: Vec<&str> = map.as_slice().iter().map(|e| e.0.as_str()).collect();
    let mut sorted = names.clone();
    sorted.sort();
    assert_eq!(names, sorted);
    assert_eq!(names, vec!["", "A", "Z", "a", "ab", "z", "\u{e9}", "\u{1f600}"]);
    for name in names {
        assert_eq!(map.get(name), Some(&MapValue::String(name.to_string())));
    }
}

#[test]
fn key_order_is_the_order_of_the_bytes() {
    assert!(bytes_less(b"", b"a"));
    assert!(!bytes_less(b"", b""));
    assert!(!bytes_less(b"a", b""));
    assert!(bytes_less(b"a", b"ab"));
    assert!(!bytes_less(b"ab", b"a"));
    assert!(bytes_less(b"ab", b"b"));
    assert!(bytes_less(b"a\x7F", b"a\x80"));
    assert!(!bytes_less(b"abc", b"abc"));
    for (a, b) in [("", "x"), ("Z", "a"), ("a", "aa"), ("z", "\u{e9}"), ("\u{e9}", "\u{1f600}")] {
        assert!(key_less(a, b), "{:?} < {:?}", a, b);
        assert!(!key_less(b, a), "{:?} < {:?}", b, a);
        assert!(!key_less(a, a));
        assert_eq!(key_less(a, b), a < b);
    }
}
