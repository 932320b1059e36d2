//! What the wire format is, byte by byte.
use crate::proto_wire::{
    continued, fields, fixed64_field, le_bytes, le_value, payload_size, read_bytes, read_field,
    read_fixed64, read_payload, read_string, read_tag, read_u32, read_varint, run_field, tag_bytes,
    varint_bytes, varint_field, varint_value, Field, Payload, WireType,
};
use vstd::prelude::*;
use vstd::utf8::{decode_utf8, valid_utf8};

verus! {

/// A byte below 128 is a varint of its own. Any other byte gives the lowest
/// seven bits of a varint, of which the next byte gives more; ten bytes at the
/// most, and 64 bits of them.
pub proof fn law_varint_byte(b: u8, rest: Seq<u8>)
    ensures
        read_varint(Seq::empty()) is None,
        read_varint(seq![b] + rest) == if b < 128 {
            Some((b as u64, 1nat))
        } else {
            match read_varint(rest) {
                Some((value, size)) => if size < 10 {
                    Some(
                        (
                            (((b - 128) + 128 * value) % 0x1_0000_0000_0000_0000) as u64,
                            size + 1,
                        ),
                    )
                } else {
                    None
                },
                None => None,
            }
        },
{
    let bytes = seq![b] + rest;
    let modulus = 0x1_0000_0000_0000_0000int;
    assert(bytes.skip(1) == rest);
    assert(bytes[0] == b);
    if b < 128 {
        let one = bytes.take(1);
        assert(one.skip(1) == Seq::<u8>::empty());
        assert(varint_value(one.skip(1)) == 0);
        assert(one[0] == b);
        assert(varint_value(one) == b);
    } else {
        let size = continued(rest) + 1;
        if size <= 10 && size <= rest.len() {
            let groups = rest.take(size as int);
            let all = bytes.take(size as int + 1);
            assert(all.skip(1) == groups);
            assert(all[0] == b);
            assert(b % 128 == b - 128);
            let whole = varint_value(groups) as int;
            let low = whole % modulus;
            let times = whole / modulus;
            assert(whole == modulus * times + low);
            assert((b - 128) + 128 * whole == (128 * times) * modulus + ((b - 128) + 128 * low))
                by (nonlinear_arith)
                requires
                    whole == modulus * times + low,
            ;
            vstd::arithmetic::div_mod::lemma_mod_multiples_vanish(
                128 * times,
                (b - 128) + 128 * low,
                modulus,
            );
            assert(modulus * (128 * times) == (128 * times) * modulus) by (nonlinear_arith);
        }
    }
}

/// A number below 128 is written as one byte; a larger one as its lowest seven
/// bits, with the eighth set, and what is above them.
pub proof fn law_varint_bytes(low: nat, high: nat)
    requires
        low < 128,
    ensures
        varint_bytes(low) == seq![low as u8],
        high > 0 ==> varint_bytes(128 * high + low) == seq![(128 + low) as u8] + varint_bytes(high),
{
    if high > 0 {
        let value = 128 * high + low;
        assert(value % 128 == low && value / 128 == high);
    }
}

/// A varint read as 32 bits is what it is modulo two to the power of 32.
pub proof fn law_u32(bytes: Seq<u8>)
    ensures
        match (read_u32(bytes), read_varint(bytes)) {
            (Some((small, size)), Some((value, same))) => size == same && small as int == value as int
                % 0x1_0000_0000,
            (None, None) => true,
            _ => false,
        },
{
}

/// Eight bytes are a number, the first of them its lowest part.
pub proof fn law_fixed64(
    b0: u8,
    b1: u8,
    b2: u8,
    b3: u8,
    b4: u8,
    b5: u8,
    b6: u8,
    b7: u8,
    rest: Seq<u8>,
)
    ensures
        read_fixed64(seq![b0, b1, b2, b3, b4, b5, b6, b7] + rest) matches Some((value, size)) && size
            == 8 && value as int == b0 + 0x100 * b1 + 0x1_0000 * b2 + 0x100_0000 * b3
            + 0x1_0000_0000 * b4 + 0x100_0000_0000 * b5 + 0x1_0000_0000_0000 * b6
            + 0x100_0000_0000_0000 * b7,
{
    let bytes = seq![b0, b1, b2, b3, b4, b5, b6, b7];
    assert((bytes + rest).take(8) == bytes);
    lemma_le_skip(bytes, 0);
    lemma_le_skip(bytes, 1);
    lemma_le_skip(bytes, 2);
    lemma_le_skip(bytes, 3);
    lemma_le_skip(bytes, 4);
    lemma_le_skip(bytes, 5);
    lemma_le_skip(bytes, 6);
    lemma_le_skip(bytes, 7);
    assert(bytes.skip(0) == bytes);
    assert(bytes.skip(8) == Seq::<u8>::empty());
    assert(le_value(bytes.skip(8)) == 0);
}

proof fn lemma_le_skip(bytes: Seq<u8>, k: int)
    requires
        0 <= k < bytes.len(),
    ensures
        le_value(bytes.skip(k)) == bytes[k] as nat + 256 * le_value(bytes.skip(k + 1)),
{
    assert(bytes.skip(k).skip(1) == bytes.skip(k + 1));
}

/// Fewer than eight bytes are no number.
pub proof fn law_fixed64_cut(bytes: Seq<u8>)
    ensures
        read_fixed64(bytes) is Some <==> bytes.len() >= 8,
{
}

/// A number of eight bytes is written as its parts, the lowest first.
pub proof fn law_fixed64_bytes(low: nat, high: nat, n: nat)
    requires
        low < 256,
        n > 0,
    ensures
        le_bytes(256 * high + low, n) == seq![low as u8] + le_bytes(high, (n - 1) as nat),
        le_bytes(low, 0).len() == 0,
{
    let value = 256 * high + low;
    assert(value % 256 == low && value / 256 == high);
}

/// A run stands behind its length, and is all there or refused.
pub proof fn law_run(bytes: Seq<u8>)
    ensures
        match read_varint(bytes) {
            Some((length, size)) => if bytes.len() - size >= length {
                read_bytes(bytes) == Some(
                    (bytes.skip(size as int).take(length as int), (size + length) as nat),
                )
            } else {
                read_bytes(bytes) is None
            },
            None => read_bytes(bytes) is None,
        },
{
    if let Some((length, size)) = read_varint(bytes) {
        if bytes.len() - size >= length {
            assert(bytes.skip(size as int).take(length as int) == bytes.subrange(
                size as int,
                size + length,
            ));
        }
    }
}

/// A text is a run that is UTF-8.
pub proof fn law_text(bytes: Seq<u8>)
    ensures
        match read_bytes(bytes) {
            Some((run, size)) => if valid_utf8(run) {
                read_string(bytes) == Some((decode_utf8(run), size))
            } else {
                read_string(bytes) is None
            },
            None => read_string(bytes) is None,
        },
{
}

/// A tag is a varint: its lowest three bits tell the shape of the payload, the
/// bits above them the number of the field.
pub proof fn law_tag(bytes: Seq<u8>)
    ensures
        match (read_tag(bytes), read_varint(bytes)) {
            (Some((tag, size)), Some((key, same))) => {
                &&& size == same
                &&& key as int == 8 * tag.field_number + match tag.wire_type {
                    WireType::Varint => 0int,
                    WireType::Fixed64 => 1,
                    WireType::LengthDelimited => 2,
                    WireType::Fixed32 => 5,
                }
                &&& 1 <= tag.field_number <= 536870911
            },
            (None, Some((key, _))) => key < 8 || key as int >= 4294967296 || key % 8 == 3 || key % 8
                == 4 || key % 8 == 6 || key % 8 == 7,
            (None, None) => true,
            (Some(_), None) => false,
        },
{
    if let Some((key, size)) = read_varint(bytes) {
        if read_tag(bytes) is None {
            if 8 <= key && (key as int) < 4294967296 {
                assert(1 <= key / 8 <= 536870911);
            }
        }
    }
}

/// Tags and fields as they are written.
pub proof fn law_written_fields(number: u32, value: nat, long: u64, run: Seq<u8>)
    ensures
        tag_bytes(number, WireType::Varint) == varint_bytes(8 * number as nat),
        tag_bytes(number, WireType::Fixed64) == varint_bytes(8 * number as nat + 1),
        tag_bytes(number, WireType::LengthDelimited) == varint_bytes(8 * number as nat + 2),
        tag_bytes(number, WireType::Fixed32) == varint_bytes(8 * number as nat + 5),
        varint_field(number, value) == varint_bytes(8 * number as nat) + varint_bytes(value),
        fixed64_field(number, long) == varint_bytes(8 * number as nat + 1) + le_bytes(
            long as nat,
            8,
        ),
        run_field(number, run) == varint_bytes(8 * number as nat + 2) + varint_bytes(run.len())
            + run,
{
}

/// Payloads by their shapes; passing over one takes as many bytes as reading it.
pub proof fn law_payloads(bytes: Seq<u8>, wire_type: WireType)
    ensures
        payload_size(bytes, wire_type) == match read_payload(bytes, wire_type) {
            Some((_, size)) => Some(size),
            None => None,
        },
        read_payload(bytes, WireType::Varint) == match read_varint(bytes) {
            Some((value, size)) => Some((Payload::Varint(value), size)),
            None => None,
        },
        read_payload(bytes, WireType::Fixed64) == match read_fixed64(bytes) {
            Some((value, size)) => Some((Payload::Fixed64(value), size)),
            None => None,
        },
        read_payload(bytes, WireType::LengthDelimited) == match read_bytes(bytes) {
            Some((run, size)) => Some((Payload::Run(run), size)),
            None => None,
        },
        read_payload(bytes, WireType::Fixed32) is Some <==> bytes.len() >= 4,
        read_payload(bytes, WireType::Fixed32) matches Some((_, size)) ==> size == 4,
{
}

/// A message is read field by field: a tag, and the payload behind it. What
/// cannot be read makes the whole message unreadable.
pub proof fn law_message(bytes: Seq<u8>)
    ensures
        fields(Seq::empty()) == Some(Seq::<Field>::empty()),
        bytes.len() > 0 ==> fields(bytes) == match read_tag(bytes) {
            Some((tag, size)) => match read_payload(bytes.skip(size as int), tag.wire_type) {
                Some((payload, more)) => match fields(bytes.skip((size + more) as int)) {
                    Some(rest) => Some(
                        seq![Field { number: tag.field_number, payload }] + rest,
                    ),
                    None => None,
                },
                None => None,
            },
            None => None,
        },
{
    if bytes.len() > 0 {
        crate::proto_wire::lemma_field_within(bytes);
        if let Some((tag, size)) = read_tag(bytes) {
            if let Some((payload, more)) = read_payload(bytes.skip(size as int), tag.wire_type) {
                assert(read_field(bytes) == Some(
                    (Field { number: tag.field_number, payload }, size + more),
                ));
            }
        }
    }
}

} // verus!
