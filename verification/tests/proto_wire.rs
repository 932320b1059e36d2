//! The wire format, byte by byte.
use wn_steam_client::proto_wire::{Reader, Tag, WireType, Writer};

fn varint(value: u64) -> Vec<u8> {
    let mut out = Vec::new();
    Writer::new(&mut out).varint(value);
    out
}

#[test]
fn varints_take_seven_bits_a_byte() {
    assert_eq!(varint(0), vec![0]);
    assert_eq!(varint(127), vec![0x7f]);
    assert_eq!(varint(128), vec![0x80, 1]);
    assert_eq!(varint(300), vec![0xac, 2]);
    assert_eq!(
        varint(u64::MAX),
        vec![0xff, 0xff, 0xff, 0xff, 0xff, 0xff, 0xff, 0xff, 0xff, 1]
    );
    for value in [0, 1, 127, 128, 16383, 16384, u64::MAX / 2, u64::MAX] {
        let bytes = varint(value);
        let mut reader = Reader::new(&bytes);
        assert_eq!(reader.varint(), Some(value));
        assert!(reader.eof());
        assert!(reader.ok());
    }
}

#[test]
fn varint_without_an_end_is_refused() {
    let bytes = [0x80u8; 11];
    let mut reader = Reader::new(&bytes);
    assert_eq!(reader.varint(), None);
    assert!(!reader.ok());
    let mut cut = Reader::new(&bytes[..3]);
    assert_eq!(cut.varint(), None);
}

#[test]
fn u32_is_the_low_half() {
    let bytes = varint(0x1_0000_0005);
    assert_eq!(Reader::new(&bytes).u32(), Some(5));
}

#[test]
fn tags_are_read_back() {
    for (number, wire_type, bytes) in [
        (1, WireType::Varint, vec![0x08]),
        (2, WireType::Fixed64, vec![0x11]),
        (15, WireType::LengthDelimited, vec![0x7a]),
        (16, WireType::Fixed32, vec![0x85, 1]),
        (0x1fff_ffff, WireType::Varint, vec![0xf8, 0xff, 0xff, 0xff, 0x0f]),
    ] {
        let mut out = Vec::new();
        Writer::new(&mut out).tag(number, wire_type);
        assert_eq!(out, bytes);
        let tag = Reader::new(&out).next_tag();
        assert_eq!(
            tag,
            Some(Tag {
                field_number: number,
                wire_type
            })
        );
    }
}

#[test]
fn malformed_tags_are_refused() {
    for bytes in [vec![0x00], vec![0x0b], vec![0x0c], vec![0x0e], vec![0x80, 0x80, 0x80, 0x80, 0x10]] {
        let mut reader = Reader::new(&bytes);
        assert_eq!(reader.next_tag(), None);
        assert!(!reader.ok());
    }
}

#[test]
fn payloads_are_read_and_skipped() {
    let mut out = Vec::new();
    {
        let mut w = Writer::new(&mut out);
        w.raw_bytes(&[1, 2, 3, 4, 5, 6, 7, 8]);
        w.varint(2);
        w.raw_bytes("h\u{e9}".as_bytes());
    }
    let mut reader = Reader::new(&out);
    assert_eq!(reader.fixed64(), Some(0x0807060504030201));
    // The length says two of three bytes, which cut the last character.
    assert_eq!(reader.string(), None);

    let text = [3, b'h', 0xc3, 0xa9, 9];
    let mut reader = Reader::new(&text);
    assert_eq!(reader.string(), Some("h\u{e9}".to_string()));
    assert!(reader.skip(WireType::Varint));
    assert!(reader.eof());

    let run = [2, 7, 8];
    assert_eq!(Reader::new(&run).bytes(), Some(&run[1..]));
    assert!(!Reader::new(&run).skip(WireType::Fixed32));
    assert!(!Reader::new(&run[..2]).skip(WireType::LengthDelimited));
    assert!(Reader::new(&[0; 8]).skip(WireType::Fixed64));
    assert!(Reader::new(&[0; 4]).skip(WireType::Fixed32));
    assert_eq!(Reader::new(&[0; 7]).fixed64(), None);
}

#[test]
fn zero_and_empty_fields_are_not_written() {
    let mut out = Vec::new();
    {
        let mut w = Writer::new(&mut out);
        w.uint32_field(1, 0);
        w.fixed64_field(2, 0);
        w.bytes_field(3, &[]);
        w.string_field(4, "");
    }
    assert_eq!(out, vec![]);
    {
        let mut w = Writer::new(&mut out);
        w.uint32_field_force(1, 0);
        w.submessage_field(2, &[]);
    }
    assert_eq!(out, vec![0x08, 0, 0x12, 0]);
}

#[test]
fn texts_are_written_as_utf8() {
    let mut out = Vec::new();
    Writer::new(&mut out).string_field(1, "\u{20ac}");
    assert_eq!(out, vec![0x0a, 3, 0xe2, 0x82, 0xac]);
}
