use vdf_parse::appinfo::{APPINFO_MAGIC, APPINFO_MAGIC_2022};
use vdf_parse::steam_header::{parse_steam_header, parse_vdf_file, SteamHeader, SteamHeaderBuilder};
use vdf_parse::DecodeError;

#[test]
fn builder_defaults() {
    let header = SteamHeaderBuilder::new().build();
    assert_eq!(header.magic(), 0);
    assert_eq!(header.version(), 1);
    let plain = SteamHeader::default();
    assert_eq!(plain.magic(), 0);
    assert_eq!(plain.version(), 0);
}

#[test]
fn builder_sets_fields_in_any_order() {
    let one = SteamHeaderBuilder::new().magic(7).version(9).build();
    let two = SteamHeaderBuilder::new().version(9).magic(7).build();
    assert_eq!(one, two);
    assert_eq!(one.magic(), 7);
    assert_eq!(one.version(), 9);
    let mut builder = SteamHeaderBuilder::new();
    builder.magic(3);
    assert_eq!(builder.build().magic(), 3);
    assert_eq!(builder.build().version(), 1);
}

#[test]
fn known_magic_gives_header() {
    let input = &mut &b"\x27\x44\x56\x07\x01\x00\x00\x00rest"[..];
    let header = parse_vdf_file(input).unwrap();
    assert_eq!(header.magic(), APPINFO_MAGIC);
    assert_eq!(header.magic(), 0x0756_4427);
    assert_eq!(header.version(), 1);
    assert_eq!(*input, &b"rest"[..]);

    let input = &mut &b"\x28\x44\x56\x07\x02\x01\x00\x00"[..];
    let header = parse_vdf_file(input).unwrap();
    assert_eq!(header.magic(), APPINFO_MAGIC_2022);
    assert_eq!(header.version(), 0x0102);
    assert!(input.is_empty());
}

#[test]
fn unknown_magic_is_rejected() {
    let input = &mut &b"\x29\x44\x56\x07\x01\x00\x00\x00"[..];
    assert_eq!(parse_vdf_file(input), Err(DecodeError::UnrecognizedMagic));
    assert_eq!(input.len(), 8);
    let zero = &mut &[0u8; 8][..];
    assert_eq!(parse_vdf_file(zero), Err(DecodeError::UnrecognizedMagic));
    let swapped = &mut &b"\x07\x56\x44\x27\x01\x00\x00\x00"[..];
    assert_eq!(parse_vdf_file(swapped), Err(DecodeError::UnrecognizedMagic));
}

#[test]
fn short_header_is_truncated() {
    let input = &mut &b"\x27\x44\x56"[..];
    assert_eq!(parse_vdf_file(input), Err(DecodeError::Truncation));
    assert_eq!(input.len(), 3);
    let input = &mut &b"\x27\x44\x56\x07\x01\x00\x00"[..];
    assert_eq!(parse_vdf_file(input), Err(DecodeError::Truncation));
    assert_eq!(*input, &b"\x01\x00\x00"[..]);
    assert_eq!(parse_steam_header(&mut &b""[..]), Err(DecodeError::Truncation));
    let magic_alone = &mut &b"\x28\x44\x56\x07"[..];
    assert_eq!(parse_vdf_file(magic_alone), Err(DecodeError::Truncation));
    assert!(magic_alone.is_empty());
}

#[test]
fn plain_header_takes_any_magic() {
    let input = &mut &b"\xEF\xBE\xAD\xDE\x2A\x00\x00\x00"[..];
    let header = parse_steam_header(input).unwrap();
    assert_eq!(header.magic(), 0xDEAD_BEEF);
    assert_eq!(header.version(), 42);
    assert!(input.is_empty());
}

#[test]
fn decoding_header_twice_gives_equal_headers() {
    let bytes = b"\x28\x44\x56\x07\x05\x00\x00\x00";
    assert_eq!(parse_vdf_file(&mut &bytes[..]), parse_vdf_file(&mut &bytes[..]));
}
