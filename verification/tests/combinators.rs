//! The grammar once more, put together from parser combinators, and held
//! against the decoder on many inputs: both must stop at the same place, and
//! where one gives a value the other must give the same.

use std::collections::HashMap;
use std::str::from_utf8;
use vdf_parse::steam_header::{parse_steam_header, parse_vdf_file};
use vdf_parse::{parse_hash_entity, parse_map_value, parse_string, DecodeError, MapValue};
use winnow::binary;
use winnow::combinator::{delimited, fail, peek, preceded, repeat, terminated};
use winnow::error::ContextError;
use winnow::token::{any, take_until};
use winnow::{PResult, Parser};

#[derive(PartialEq, Debug)]
enum Tree {
    Number32(u32),
    Number64(u64),
    NumberFloat(f32),
    String(String),
    Object(HashMap<String, Tree>),
}

type Parsed<T> = PResult<T, ContextError>;

fn string(input: &mut &[u8]) -> Parsed<String> {
    terminated(take_until(0.., 0x00), 0x00)
        .map(|bytes| from_utf8(bytes).unwrap().to_string())
        .parse_next(input)
}

fn integer32(input: &mut &[u8]) -> Parsed<(String, Tree)> {
    (preceded(b"\x02", string), binary::le_u32.map(Tree::Number32)).parse_next(input)
}

fn float(input: &mut &[u8]) -> Parsed<(String, Tree)> {
    (preceded(b"\x03", string), binary::le_f32.map(Tree::NumberFloat)).parse_next(input)
}

fn integer64(input: &mut &[u8]) -> Parsed<(String, Tree)> {
    (preceded(b"\x07", string), binary::le_u64.map(Tree::Number64)).parse_next(input)
}

fn string_entry(input: &mut &[u8]) -> Parsed<(String, Tree)> {
    (preceded(b"\x01", string), string.map(Tree::String)).parse_next(input)
}

fn object(input: &mut &[u8]) -> Parsed<(String, Tree)> {
    delimited(
        b"\x00",
        (
            string,
            repeat(0.., entry).map(|x: Vec<(String, Tree)>| Tree::Object(x.into_iter().collect())),
        ),
        b"\x08",
    )
    .parse_next(input)
}

fn entry(input: &mut &[u8]) -> Parsed<(String, Tree)> {
    let tag: u8 = peek(any).parse_next(input)?;
    match tag {
        0x01 => string_entry.parse_next(input),
        0x02 => integer32.parse_next(input),
        0x03 => float.parse_next(input),
        0x07 => integer64.parse_next(input),
        0x00 => object.parse_next(input),
        _ => fail.parse_next(input),
    }
}

fn header(input: &mut &[u8]) -> Parsed<(u32, u32)> {
    (binary::le_u32, binary::le_u32).parse_next(input)
}

fn file_header(input: &mut &[u8]) -> Parsed<(u32, u32)> {
    let magic: u32 = peek(binary::le_u32).parse_next(input)?;
    match magic {
        0x0756_4427 => header.parse_next(input),
        0x0756_4428 => header.parse_next(input),
        _ => fail.parse_next(input),
    }
}

fn tree_of(value: &MapValue) -> Tree {
    match value {
        MapValue::Number32(n) => Tree::Number32(*n),
        MapValue::Number64(n) => Tree::Number64(*n),
        MapValue::NumberFloat(bits) => Tree::NumberFloat(f32::from_bits(*bits)),
        MapValue::String(s) => Tree::String(s.clone()),
        MapValue::Object(map) => Tree::Object(
            map.as_slice()
                .iter()
                .map(|(name, value)| (name.clone(), tree_of(value)))
                .collect(),
        ),
    }
}

struct Bytes {
    state: u64,
}

impl Bytes {
    fn next(&mut self) -> u64 {
        self.state = self
            .state
            .wrapping_mul(6364136223846793005)
            .wrapping_add(1442695040888963407);
        self.state >> 33
    }

    /// A byte that is mostly one of those that the format gives a meaning to.
    fn byte(&mut self) -> u8 {
        const LIKELY: [u8; 12] = [0, 0, 0, 1, 2, 3, 7, 8, 8, b'a', b'b', 9];
        let pick = self.next();
        if pick % 8 == 0 {
            (self.next() % 128) as u8
        } else {
            LIKELY[(pick / 8 % 12) as usize]
        }
    }

    fn input(&mut self, longest: u64) -> Vec<u8> {
        let len = self.next() % (longest + 1);
        (0..len).map(|_| self.byte()).collect()
    }

    /// The bytes of an entry, built to decode; `depth` bounds the nesting.
    fn entry_bytes(&mut self, depth: u32, out: &mut Vec<u8>) {
        let kind = self.next() % if depth == 0 { 4 } else { 5 };
        let tag = [0x01u8, 0x02, 0x03, 0x07, 0x00][kind as usize];
        out.push(tag);
        self.name(out);
        match tag {
            0x01 => self.name(out),
            0x02 => (0..4).for_each(|_| out.push((self.next() % 256) as u8)),
            0x03 => out.extend_from_slice(&((self.next() % 1000) as f32 / 8.0).to_le_bytes()),
            0x07 => (0..8).for_each(|_| out.push((self.next() % 256) as u8)),
            _ => {
                for _ in 0..self.next() % 4 {
                    self.entry_bytes(depth - 1, out);
                }
                out.push(0x08);
            }
        }
    }

    fn name(&mut self, out: &mut Vec<u8>) {
        for _ in 0..self.next() % 3 {
            out.push(b'a' + (self.next() % 3) as u8);
        }
        out.push(0);
    }
}

/// The combinators have no failure for a string that is not UTF-8, so an
/// input on which the decoder finds one is left out.
fn hold_entry_against_combinators(bytes: &[u8]) -> bool {
    let ours = &mut &bytes[..];
    let theirs = &mut &bytes[..];
    let got = parse_map_value(ours);
    if got == Err(DecodeError::Encoding) {
        return false;
    }
    let expected = entry(theirs);
    assert_eq!(*ours, *theirs, "cursor after {:?}", bytes);
    match (&got, &expected) {
        (Ok((name, value)), Ok((their_name, tree))) => {
            assert_eq!(name, their_name, "name in {:?}", bytes);
            assert_eq!(&tree_of(value), tree, "value in {:?}", bytes);
        }
        (Err(_), Err(_)) => {}
        _ => panic!("{:?}: {:?} but {:?}", bytes, got, expected),
    }
    got.is_ok()
}

#[test]
fn entries_agree_on_arbitrary_bytes() {
    let mut bytes = Bytes { state: 1 };
    let mut decoded = 0;
    for _ in 0..40_000 {
        let input = bytes.input(24);
        if hold_entry_against_combinators(&input) {
            decoded += 1;
        }
    }
    assert!(decoded > 100, "only {} inputs decoded", decoded);
}

#[test]
fn entries_agree_on_built_and_damaged_entries() {
    let mut bytes = Bytes { state: 2 };
    for _ in 0..4_000 {
        let mut input = Vec::new();
        bytes.entry_bytes(3, &mut input);
        assert!(hold_entry_against_combinators(&input), "{:?}", input);
        let cut = (bytes.next() % input.len() as u64) as usize;
        assert!(!hold_entry_against_combinators(&input[..cut]));
        let mut damaged = input.clone();
        damaged[cut] = bytes.byte();
        hold_entry_against_combinators(&damaged);
        let mut shorter = input.clone();
        shorter.remove(cut);
        hold_entry_against_combinators(&shorter);
        let mut longer = input.clone();
        longer.insert(cut, bytes.byte());
        hold_entry_against_combinators(&longer);
    }
}

#[test]
fn objects_agree_with_combinators() {
    let mut bytes = Bytes { state: 3 };
    for _ in 0..20_000 {
        let mut input = bytes.input(20);
        if bytes.next() % 2 == 0 {
            input.insert(0, 0x00);
        }
        let ours = &mut &input[..];
        let theirs = &mut &input[..];
        let got = parse_hash_entity(ours);
        let expected = object(theirs);
        assert_eq!(*ours, *theirs, "cursor after {:?}", input);
        match (&got, &expected) {
            (Ok((name, value)), Ok((their_name, tree))) => {
                assert_eq!(name, their_name);
                assert_eq!(&tree_of(value), tree);
            }
            (Err(_), Err(_)) => {}
            _ => panic!("{:?}: {:?} but {:?}", input, got, expected),
        }
    }
}

#[test]
fn strings_agree_with_combinators() {
    let mut bytes = Bytes { state: 4 };
    for _ in 0..20_000 {
        let input = bytes.input(8);
        let ours = &mut &input[..];
        let theirs = &mut &input[..];
        let got = parse_string(ours);
        let expected = string(theirs);
        assert_eq!(*ours, *theirs, "cursor after {:?}", input);
        assert_eq!(got.ok(), expected.ok(), "text in {:?}", input);
    }
}

#[test]
fn headers_agree_with_combinators() {
    let mut bytes = Bytes { state: 5 };
    for round in 0..20_000 {
        let mut input: Vec<u8> = (0..bytes.next() % 12)
            .map(|_| (bytes.next() % 256) as u8)
            .collect();
        if round % 2 == 0 && input.len() >= 4 {
            let magic: u32 = 0x0756_4426 + (bytes.next() % 4) as u32;
            input[..4].copy_from_slice(&magic.to_le_bytes());
        }
        let ours = &mut &input[..];
        let theirs = &mut &input[..];
        let got = parse_vdf_file(ours).map(|h| (h.magic(), h.version()));
        let expected = file_header(theirs);
        assert_eq!(*ours, *theirs, "cursor after {:?}", input);
        assert_eq!(got.ok(), expected.ok(), "header in {:?}", input);

        let ours = &mut &input[..];
        let theirs = &mut &input[..];
        let got = parse_steam_header(ours).map(|h| (h.magic(), h.version()));
        let expected = header(theirs);
        assert_eq!(*ours, *theirs, "cursor after {:?}", input);
        assert_eq!(got.ok(), expected.ok(), "header in {:?}", input);
    }
}
