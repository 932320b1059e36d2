//! The protobuf wire format: a message is a row of fields, each a tag and a
//! payload whose shape the tag tells.
use vstd::prelude::*;
use vstd::slice::slice_subrange;
use vstd::utf8::{decode_utf8, encode_utf8, valid_utf8};

pub mod laws;

verus! {

// ---------------------------------------------------------------------------
// Numbers
// ---------------------------------------------------------------------------

pub open spec fn power(base: nat, n: nat) -> nat
    decreases n,
{
    if n == 0 {
        1
    } else {
        base * power(base, (n - 1) as nat)
    }
}

/// The number with these bytes, the lowest first.
pub open spec fn le_value(bytes: Seq<u8>) -> nat
    decreases bytes.len(),
{
    if bytes.len() == 0 {
        0
    } else {
        bytes[0] as nat + 256 * le_value(bytes.skip(1))
    }
}

/// The lowest `n` bytes of a number, the lowest first.
pub open spec fn le_bytes(value: nat, n: nat) -> Seq<u8>
    decreases n,
{
    if n == 0 {
        Seq::empty()
    } else {
        seq![(value % 256) as u8] + le_bytes(value / 256, (n - 1) as nat)
    }
}

/// The number with these groups of seven bits, the lowest first.
pub open spec fn varint_value(bytes: Seq<u8>) -> nat
    decreases bytes.len(),
{
    if bytes.len() == 0 {
        0
    } else {
        (bytes[0] % 128) as nat + 128 * varint_value(bytes.skip(1))
    }
}

/// A number in groups of seven bits, the lowest first; the eighth bit says
/// that another group follows.
pub open spec fn varint_bytes(value: nat) -> Seq<u8>
    decreases value,
{
    if value < 128 {
        seq![value as u8]
    } else {
        seq![(value % 128 + 128) as u8] + varint_bytes(value / 128)
    }
}

/// How many groups that announce another stand at the front.
pub open spec fn continued(bytes: Seq<u8>) -> nat
    decreases bytes.len(),
{
    if bytes.len() > 0 && bytes[0] >= 128 {
        1 + continued(bytes.skip(1))
    } else {
        0
    }
}

// ---------------------------------------------------------------------------
// Wire types and tags
// ---------------------------------------------------------------------------

/// The shape of a field's payload.
#[derive(Clone, Copy, Debug, PartialEq, Eq, Structural)]
pub enum WireType {
    Varint,
    Fixed64,
    LengthDelimited,
    Fixed32,
}

/// A field's number and the shape of its payload.
#[derive(Clone, Copy, Debug, PartialEq, Eq, Structural)]
pub struct Tag {
    pub field_number: u32,
    pub wire_type: WireType,
}

/// The largest field number.
pub const MAX_FIELD_NUMBER: u32 = 0x1fff_ffff;

/// The number of a wire type in a tag.
pub open spec fn wire_code(wire_type: WireType) -> nat {
    match wire_type {
        WireType::Varint => 0,
        WireType::Fixed64 => 1,
        WireType::LengthDelimited => 2,
        WireType::Fixed32 => 5,
    }
}

/// The wire type with this number. The numbers of groups are not supported.
pub open spec fn wire_type_of(code: nat) -> Option<WireType> {
    if code == 0 {
        Some(WireType::Varint)
    } else if code == 1 {
        Some(WireType::Fixed64)
    } else if code == 2 {
        Some(WireType::LengthDelimited)
    } else if code == 5 {
        Some(WireType::Fixed32)
    } else {
        None
    }
}

/// The number that a tag is written as.
pub open spec fn tag_key(field_number: u32, wire_type: WireType) -> nat {
    field_number as nat * 8 + wire_code(wire_type)
}

// ---------------------------------------------------------------------------
// Reading: each function gives the value at the front of the bytes, and how
// many bytes it takes
// ---------------------------------------------------------------------------

/// A varint of at most ten groups; what exceeds 64 bits is dropped.
pub open spec fn read_varint(bytes: Seq<u8>) -> Option<(u64, nat)> {
    let size = continued(bytes) + 1;
    if size <= 10 && size <= bytes.len() {
        Some(
            (
                (varint_value(bytes.take(size as int)) % 0x1_0000_0000_0000_0000) as u64,
                size,
            ),
        )
    } else {
        None
    }
}

/// A tag with a field number in range and a wire type that is supported.
pub open spec fn read_tag(bytes: Seq<u8>) -> Option<(Tag, nat)> {
    match read_varint(bytes) {
        Some((key, size)) => match wire_type_of((key % 8) as nat) {
            Some(wire_type) => if 1 <= key / 8 <= MAX_FIELD_NUMBER {
                Some((Tag { field_number: (key / 8) as u32, wire_type }, size))
            } else {
                None
            },
            None => None,
        },
        None => None,
    }
}

/// A varint of which the lowest 32 bits count.
pub open spec fn read_u32(bytes: Seq<u8>) -> Option<(u32, nat)> {
    match read_varint(bytes) {
        Some((value, size)) => Some(((value % 0x1_0000_0000) as u32, size)),
        None => None,
    }
}

/// Eight bytes, the lowest first.
pub open spec fn read_fixed64(bytes: Seq<u8>) -> Option<(u64, nat)> {
    if bytes.len() >= 8 {
        Some((le_value(bytes.take(8)) as u64, 8))
    } else {
        None
    }
}

/// A run of bytes behind its length.
pub open spec fn read_bytes(bytes: Seq<u8>) -> Option<(Seq<u8>, nat)> {
    match read_varint(bytes) {
        Some((length, size)) => if size + length <= bytes.len() {
            Some((bytes.subrange(size as int, size + length), size + length as nat))
        } else {
            None
        },
        None => None,
    }
}

/// A run of bytes that is text in UTF-8.
pub open spec fn read_string(bytes: Seq<u8>) -> Option<(Seq<char>, nat)> {
    match read_bytes(bytes) {
        Some((text, size)) => if valid_utf8(text) {
            Some((decode_utf8(text), size))
        } else {
            None
        },
        None => None,
    }
}

/// How many bytes a payload of this shape takes.
pub open spec fn payload_size(bytes: Seq<u8>, wire_type: WireType) -> Option<nat> {
    match wire_type {
        WireType::Varint => match read_varint(bytes) {
            Some((_, size)) => Some(size),
            None => None,
        },
        WireType::Fixed64 => if bytes.len() >= 8 {
            Some(8)
        } else {
            None
        },
        WireType::LengthDelimited => match read_bytes(bytes) {
            Some((_, size)) => Some(size),
            None => None,
        },
        WireType::Fixed32 => if bytes.len() >= 4 {
            Some(4)
        } else {
            None
        },
    }
}

/// The payload of a field.
pub enum Payload {
    Varint(u64),
    Fixed64(u64),
    Run(Seq<u8>),
    Fixed32(u32),
}

/// A payload of the given shape.
pub open spec fn read_payload(bytes: Seq<u8>, wire_type: WireType) -> Option<(Payload, nat)> {
    match wire_type {
        WireType::Varint => match read_varint(bytes) {
            Some((value, size)) => Some((Payload::Varint(value), size)),
            None => None,
        },
        WireType::Fixed64 => match read_fixed64(bytes) {
            Some((value, size)) => Some((Payload::Fixed64(value), size)),
            None => None,
        },
        WireType::LengthDelimited => match read_bytes(bytes) {
            Some((run, size)) => Some((Payload::Run(run), size)),
            None => None,
        },
        WireType::Fixed32 => if bytes.len() >= 4 {
            Some((Payload::Fixed32(le_value(bytes.take(4)) as u32), 4))
        } else {
            None
        },
    }
}

/// A field by its number and its payload.
pub struct Field {
    pub number: u32,
    pub payload: Payload,
}

/// A whole field.
pub open spec fn read_field(bytes: Seq<u8>) -> Option<(Field, nat)> {
    match read_tag(bytes) {
        Some((tag, size)) => match read_payload(bytes.skip(size as int), tag.wire_type) {
            Some((payload, more)) => Some(
                (Field { number: tag.field_number, payload }, size + more),
            ),
            None => None,
        },
        None => None,
    }
}

/// The fields of a message, where all of it can be read.
pub open spec fn fields(bytes: Seq<u8>) -> Option<Seq<Field>>
    decreases bytes.len(),
{
    if bytes.len() == 0 {
        Some(Seq::empty())
    } else {
        match read_field(bytes) {
            Some((field, size)) => if 0 < size <= bytes.len() {
                match fields(bytes.skip(size as int)) {
                    Some(more) => Some(seq![field] + more),
                    None => None,
                }
            } else {
                None
            },
            None => None,
        }
    }
}

// ---------------------------------------------------------------------------
// Facts about numbers
// ---------------------------------------------------------------------------

proof fn lemma_power_grows(base: nat, m: nat, n: nat)
    requires
        m <= n,
        base >= 1,
    ensures
        1 <= power(base, m) <= power(base, n),
    decreases n,
{
    if m < n {
        lemma_power_grows(base, m, (n - 1) as nat);
        let low = power(base, (n - 1) as nat);
        assert(low <= base * low) by (nonlinear_arith)
            requires
                base >= 1,
        ;
    } else if n > 0 {
        lemma_power_grows(base, (m - 1) as nat, (m - 1) as nat);
        let low = power(base, (n - 1) as nat);
        assert(1 <= base * low) by (nonlinear_arith)
            requires
                base >= 1,
                low >= 1,
        ;
    }
}

proof fn lemma_powers()
    ensures
        power(256, 8) == 0x1_0000_0000_0000_0000,
        power(128, 10) == 0x40_0000_0000_0000_0000,
{
    reveal_with_fuel(power, 11);
}

proof fn lemma_le_value_bound(bytes: Seq<u8>)
    ensures
        le_value(bytes) < power(256, bytes.len()),
    decreases bytes.len(),
{
    if bytes.len() > 0 {
        lemma_le_value_bound(bytes.skip(1));
    }
}

proof fn lemma_varint_value_bound(bytes: Seq<u8>)
    ensures
        varint_value(bytes) < power(128, bytes.len()),
    decreases bytes.len(),
{
    if bytes.len() > 0 {
        lemma_varint_value_bound(bytes.skip(1));
    }
}

proof fn lemma_continued(bytes: Seq<u8>)
    ensures
        continued(bytes) <= bytes.len(),
        forall|i: int| 0 <= i < continued(bytes) ==> #[trigger] bytes[i] >= 128,
        continued(bytes) < bytes.len() ==> bytes[continued(bytes) as int] < 128,
    decreases bytes.len(),
{
    if bytes.len() > 0 && bytes[0] >= 128 {
        let rest = bytes.skip(1);
        lemma_continued(rest);
        assert forall|i: int| 0 <= i < continued(bytes) implies #[trigger] bytes[i] >= 128 by {
            if i > 0 {
                assert(bytes[i] == rest[i - 1]);
            }
        }
        if continued(bytes) < bytes.len() {
            assert(bytes[continued(bytes) as int] == rest[continued(rest) as int]);
        }
    }
}

proof fn lemma_continued_is(bytes: Seq<u8>, n: nat)
    requires
        n <= bytes.len(),
        forall|i: int| 0 <= i < n ==> #[trigger] bytes[i] >= 128,
        n < bytes.len() ==> bytes[n as int] < 128,
    ensures
        continued(bytes) == n,
{
    lemma_continued(bytes);
    if continued(bytes) < n {
        assert(bytes[continued(bytes) as int] >= 128);
    }
    if n < continued(bytes) {
        assert(bytes[n as int] >= 128);
    }
}

proof fn lemma_continued_at_least(bytes: Seq<u8>, n: nat)
    requires
        n <= bytes.len(),
        forall|i: int| 0 <= i < n ==> #[trigger] bytes[i] >= 128,
    ensures
        continued(bytes) >= n,
{
    lemma_continued(bytes);
    if continued(bytes) < n {
        assert(bytes[continued(bytes) as int] >= 128);
    }
}

/// What is read at the front lies within the bytes.
pub proof fn lemma_read_within(bytes: Seq<u8>)
    ensures
        read_varint(bytes) matches Some((_, size)) ==> 1 <= size <= bytes.len(),
        read_tag(bytes) matches Some((_, size)) ==> 1 <= size <= bytes.len(),
        read_u32(bytes) matches Some((_, size)) ==> size <= bytes.len(),
        read_fixed64(bytes) matches Some((_, size)) ==> size <= bytes.len(),
        read_bytes(bytes) matches Some((_, size)) ==> size <= bytes.len(),
        read_string(bytes) matches Some((_, size)) ==> size <= bytes.len(),
        forall|wire_type: WireType|
            (#[trigger] payload_size(bytes, wire_type)) matches Some(size) ==> size <= bytes.len(),
{
}

/// Passing over a payload takes as many bytes as reading it.
pub proof fn lemma_payload_size(bytes: Seq<u8>, wire_type: WireType)
    ensures
        match read_payload(bytes, wire_type) {
            Some((_, size)) => payload_size(bytes, wire_type) == Some(size) && size <= bytes.len(),
            None => payload_size(bytes, wire_type) is None,
        },
{
}

/// A field takes at least one byte, and no more than there are.
pub proof fn lemma_field_within(bytes: Seq<u8>)
    ensures
        read_field(bytes) matches Some((_, size)) ==> 0 < size <= bytes.len(),
{
    lemma_read_within(bytes);
    if let Some((tag, size)) = read_tag(bytes) {
        lemma_payload_size(bytes.skip(size as int), tag.wire_type);
    }
}

// ---------------------------------------------------------------------------
// Reader
// ---------------------------------------------------------------------------

/// `std::str::from_utf8`: the bytes as text, if and only if they are valid
/// UTF-8; the text then holds the characters that the bytes encode.
#[verifier::external_body]
fn utf8_text(bytes: &[u8]) -> (text: Option<&str>)
    ensures
        match text {
            Some(text) => valid_utf8(bytes@) && text@ == decode_utf8(bytes@),
            None => !valid_utf8(bytes@),
        },
{
    std::str::from_utf8(bytes).ok()
}

/// The varint at `pos`, and how many bytes it takes.
fn varint_at(data: &[u8], pos: usize) -> (found: Option<(u64, usize)>)
    requires
        pos <= data@.len(),
    ensures
        match found {
            Some((value, size)) => {
                &&& pos + size <= data.len()
                &&& read_varint(data@.skip(pos as int)) == Some((value, size as nat))
            },
            None => read_varint(data@.skip(pos as int)) is None,
        },
{
    let ghost rest = data@.skip(pos as int);
    let left: usize = data.len() - pos;
    let mut groups: usize = 0;
    while groups < left && groups < 10 && data[pos + groups] >= 128
        invariant
            pos + left == data.len(),
            rest == data@.skip(pos as int),
            groups <= left,
            groups <= 10,
            forall|i: int| 0 <= i < groups ==> #[trigger] rest[i] >= 128,
        decreases left - groups,
    {
        proof {
            assert(rest[groups as int] == data@[pos + groups]);
        }
        groups += 1;
    }
    if groups >= left || groups >= 10 {
        proof {
            lemma_continued_at_least(rest, groups as nat);
            lemma_continued(rest);
        }
        return None;
    }
    proof {
        assert(rest[groups as int] == data@[pos + groups]);
        lemma_continued_is(rest, groups as nat);
    }
    let size: usize = groups + 1;
    let ghost bytes = rest.take(size as int);
    let mut value: u128 = 0;
    let mut i: usize = size;
    proof {
        assert(bytes.skip(size as int) == Seq::<u8>::empty());
        lemma_powers();
    }
    while i > 0
        invariant
            pos + left == data.len(),
            rest == data@.skip(pos as int),
            bytes == rest.take(size as int),
            i <= size <= left,
            size <= 10,
            value == varint_value(bytes.skip(i as int)),
            power(128, 10) == 0x40_0000_0000_0000_0000,
        decreases i,
    {
        i -= 1;
        proof {
            assert(bytes.skip(i as int)[0] == data@[pos + i]);
            assert(bytes.skip(i as int).skip(1) == bytes.skip(i + 1));
            lemma_varint_value_bound(bytes.skip(i as int));
            lemma_power_grows(128, (size - i) as nat, 10);
        }
        value = value * 128 + (data[pos + i] % 128) as u128;
    }
    proof {
        assert(bytes.skip(0) == bytes);
    }
    Some(((value % 0x1_0000_0000_0000_0000) as u64, size))
}

/// Where the run of bytes behind its length at `pos` begins and ends.
fn run_at(data: &[u8], pos: usize) -> (found: Option<(usize, usize)>)
    requires
        pos <= data@.len(),
    ensures
        match found {
            Some((from, to)) => {
                &&& pos <= from <= to <= data@.len()
                &&& read_bytes(data@.skip(pos as int)) == Some(
                    (data@.subrange(from as int, to as int), (to - pos) as nat),
                )
            },
            None => read_bytes(data@.skip(pos as int)) is None,
        },
{
    match varint_at(data, pos) {
        Some((length, size)) => {
            proof {
                lemma_read_within(data@.skip(pos as int));
            }
            let from: usize = pos + size;
            if length > (data.len() - from) as u64 {
                return None;
            }
            let to: usize = from + length as usize;
            proof {
                assert(data@.skip(pos as int).subrange(size as int, size + length)
                    == data@.subrange(from as int, to as int));
            }
            Some((from, to))
        },
        None => None,
    }
}

/// Reads a message from the front to the back. What cannot be read leaves the
/// reader where it is and marks it as failed.
pub struct Reader<'a> {
    data: &'a [u8],
    pos: usize,
    good: bool,
}

impl<'a> Reader<'a> {
    #[verifier::type_invariant]
    spec fn within(self) -> bool {
        self.pos <= self.data@.len()
    }

    /// The bytes still to be read.
    pub closed spec fn rest(self) -> Seq<u8> {
        self.data@.skip(self.pos as int)
    }

    /// Whether everything was readable so far.
    pub closed spec fn is_ok(self) -> bool {
        self.good
    }

    /// A reader at the front of `data`.
    pub fn new(data: &'a [u8]) -> (reader: Reader<'a>)
        ensures
            reader.rest() == data@,
            reader.is_ok(),
    {
        proof {
            assert(data@.skip(0) == data@);
        }
        Reader { data, pos: 0, good: true }
    }

    /// Whether everything has been read.
    pub fn eof(&self) -> (done: bool)
        ensures
            done == (self.rest().len() == 0),
    {
        proof {
            use_type_invariant(self);
        }
        self.pos >= self.data.len()
    }

    /// Whether everything was readable so far.
    pub fn ok(&self) -> (good: bool)
        ensures
            good == self.is_ok(),
    {
        self.good
    }

    /// A varint.
    pub fn varint(&mut self) -> (value: Option<u64>)
        ensures
            match read_varint(old(self).rest()) {
                Some((read, size)) => {
                    &&& value == Some(read)
                    &&& final(self).rest() == old(self).rest().skip(size as int)
                    &&& final(self).is_ok() == old(self).is_ok()
                },
                None => {
                    &&& value is None
                    &&& final(self).rest() == old(self).rest()
                    &&& !final(self).is_ok()
                },
            },
    {
        proof {
            use_type_invariant(&*self);
            lemma_read_within(self.rest());
        }
        match varint_at(self.data, self.pos) {
            Some((value, size)) => {
                proof {
                    assert(self.data@.skip(self.pos as int).skip(size as int) == self.data@.skip(
                        self.pos + size,
                    ));
                }
                self.pos = self.pos + size;
                Some(value)
            },
            None => {
                self.good = false;
                None
            },
        }
    }

    /// The tag of the next field; none at the end of the message, which is no
    /// failure.
    pub fn next_tag(&mut self) -> (tag: Option<Tag>)
        ensures
            match read_tag(old(self).rest()) {
                Some((read, size)) => {
                    &&& tag == Some(read)
                    &&& final(self).rest() == old(self).rest().skip(size as int)
                    &&& final(self).is_ok() == old(self).is_ok()
                },
                None => {
                    &&& tag is None
                    &&& final(self).rest() == old(self).rest()
                    &&& final(self).is_ok() == (old(self).is_ok() && old(self).rest().len() == 0)
                },
            },
    {
        proof {
            use_type_invariant(&*self);
            lemma_read_within(self.rest());
        }
        if self.pos >= self.data.len() {
            return None;
        }
        if let Some((key, size)) = varint_at(self.data, self.pos) {
            let wire_type = match key % 8 {
                0 => Some(WireType::Varint),
                1 => Some(WireType::Fixed64),
                2 => Some(WireType::LengthDelimited),
                5 => Some(WireType::Fixed32),
                _ => None,
            };
            let number: u64 = key / 8;
            if let Some(wire_type) = wire_type {
                if 1 <= number && number <= MAX_FIELD_NUMBER as u64 {
                    proof {
                        assert(self.data@.skip(self.pos as int).skip(size as int)
                            == self.data@.skip(self.pos + size));
                    }
                    self.pos = self.pos + size;
                    return Some(Tag { field_number: number as u32, wire_type });
                }
            }
        }
        self.good = false;
        None
    }

    /// A varint of which the lowest 32 bits count.
    pub fn u32(&mut self) -> (value: Option<u32>)
        ensures
            match read_u32(old(self).rest()) {
                Some((read, size)) => {
                    &&& value == Some(read)
                    &&& final(self).rest() == old(self).rest().skip(size as int)
                    &&& final(self).is_ok() == old(self).is_ok()
                },
                None => {
                    &&& value is None
                    &&& final(self).rest() == old(self).rest()
                    &&& !final(self).is_ok()
                },
            },
    {
        match self.varint() {
            Some(value) => Some((value % 0x1_0000_0000) as u32),
            None => None,
        }
    }

    /// Eight bytes, the lowest first.
    pub fn fixed64(&mut self) -> (value: Option<u64>)
        ensures
            match read_fixed64(old(self).rest()) {
                Some((read, size)) => {
                    &&& value == Some(read)
                    &&& final(self).rest() == old(self).rest().skip(size as int)
                    &&& final(self).is_ok() == old(self).is_ok()
                },
                None => {
                    &&& value is None
                    &&& final(self).rest() == old(self).rest()
                    &&& !final(self).is_ok()
                },
            },
    {
        proof {
            use_type_invariant(&*self);
        }
        let ghost rest = self.rest();
        let data = self.data;
        let pos: usize = self.pos;
        if data.len() - pos < 8 {
            self.good = false;
            return None;
        }
        let ghost bytes = rest.take(8);
        let mut value: u64 = 0;
        let mut i: usize = 8;
        proof {
            assert(bytes.skip(8) == Seq::<u8>::empty());
            lemma_powers();
        }
        while i > 0
            invariant
                pos + 8 <= data.len(),
                rest == data@.skip(pos as int),
                bytes == rest.take(8),
                i <= 8,
                value == le_value(bytes.skip(i as int)),
                power(256, 8) == 0x1_0000_0000_0000_0000,
            decreases i,
        {
            i -= 1;
            proof {
                assert(bytes.skip(i as int)[0] == data@[pos + i]);
                assert(bytes.skip(i as int).skip(1) == bytes.skip(i + 1));
                lemma_le_value_bound(bytes.skip(i as int));
                lemma_power_grows(256, (8 - i) as nat, 8);
            }
            value = value * 256 + data[pos + i] as u64;
        }
        proof {
            assert(bytes.skip(0) == bytes);
            assert(data@.skip(pos as int).skip(8) == data@.skip(pos + 8));
        }
        self.pos = pos + 8;
        Some(value)
    }

    /// A run of bytes behind its length.
    pub fn bytes(&mut self) -> (run: Option<&'a [u8]>)
        ensures
            match read_bytes(old(self).rest()) {
                Some((read, size)) => {
                    &&& run matches Some(run) && run@ == read
                    &&& final(self).rest() == old(self).rest().skip(size as int)
                    &&& final(self).is_ok() == old(self).is_ok()
                },
                None => {
                    &&& run is None
                    &&& final(self).rest() == old(self).rest()
                    &&& !final(self).is_ok()
                },
            },
    {
        proof {
            use_type_invariant(&*self);
        }
        match run_at(self.data, self.pos) {
            Some((from, to)) => {
                let run = slice_subrange(self.data, from, to);
                proof {
                    assert(self.data@.skip(self.pos as int).skip(to - self.pos)
                        == self.data@.skip(to as int));
                }
                self.pos = to;
                Some(run)
            },
            None => {
                self.good = false;
                None
            },
        }
    }

    /// A run of bytes that is text in UTF-8.
    pub fn string(&mut self) -> (text: Option<String>)
        ensures
            match read_string(old(self).rest()) {
                Some((read, size)) => {
                    &&& text matches Some(text) && text@ == read
                    &&& final(self).rest() == old(self).rest().skip(size as int)
                    &&& final(self).is_ok() == old(self).is_ok()
                },
                None => {
                    &&& text is None
                    &&& final(self).rest() == old(self).rest()
                    &&& !final(self).is_ok()
                },
            },
    {
        proof {
            use_type_invariant(&*self);
        }
        if let Some((from, to)) = run_at(self.data, self.pos) {
            let run = slice_subrange(self.data, from, to);
            if let Some(text) = utf8_text(run) {
                proof {
                    assert(self.data@.skip(self.pos as int).skip(to - self.pos)
                        == self.data@.skip(to as int));
                }
                self.pos = to;
                return Some(text.to_owned());
            }
        }
        self.good = false;
        None
    }

    /// Passes over a payload of the given shape.
    pub fn skip(&mut self, wire_type: WireType) -> (skipped: bool)
        ensures
            match payload_size(old(self).rest(), wire_type) {
                Some(size) => {
                    &&& skipped
                    &&& final(self).rest() == old(self).rest().skip(size as int)
                    &&& final(self).is_ok() == old(self).is_ok()
                },
                None => {
                    &&& !skipped
                    &&& final(self).rest() == old(self).rest()
                    &&& !final(self).is_ok()
                },
            },
    {
        proof {
            use_type_invariant(&*self);
        }
        match wire_type {
            WireType::Varint => self.varint().is_some(),
            WireType::Fixed64 => self.fixed64().is_some(),
            WireType::LengthDelimited => self.bytes().is_some(),
            WireType::Fixed32 => {
                if self.data.len() - self.pos < 4 {
                    self.good = false;
                    return false;
                }
                proof {
                    assert(self.data@.skip(self.pos as int).skip(4) == self.data@.skip(
                        self.pos + 4,
                    ));
                }
                self.pos = self.pos + 4;
                true
            },
        }
    }
}

// ---------------------------------------------------------------------------
// Writer
// ---------------------------------------------------------------------------

/// A tag as it is written.
pub open spec fn tag_bytes(field_number: u32, wire_type: WireType) -> Seq<u8> {
    varint_bytes(tag_key(field_number, wire_type))
}

/// A number field.
pub open spec fn varint_field(field_number: u32, value: nat) -> Seq<u8> {
    tag_bytes(field_number, WireType::Varint) + varint_bytes(value)
}

/// An eight-byte field.
pub open spec fn fixed64_field(field_number: u32, value: u64) -> Seq<u8> {
    tag_bytes(field_number, WireType::Fixed64) + le_bytes(value as nat, 8)
}

/// A field with a run of bytes behind its length.
pub open spec fn run_field(field_number: u32, run: Seq<u8>) -> Seq<u8> {
    tag_bytes(field_number, WireType::LengthDelimited) + varint_bytes(run.len()) + run
}

/// Appends fields to a buffer. A field with the value that a reader takes for
/// granted, zero or empty, is left out, unless it is forced; a message inside a
/// message always stands.
pub struct Writer<'a> {
    pub out: &'a mut Vec<u8>,
}

impl<'a> Writer<'a> {
    /// A writer that appends to `out`.
    pub fn new(out: &'a mut Vec<u8>) -> (writer: Writer<'a>)
        ensures
            writer.out@ == old(out)@,
            final(writer.out)@ == final(out)@,
    {
        Writer { out }
    }

    /// Appends the bytes as they are.
    pub fn raw_bytes(&mut self, bytes: &[u8])
        ensures
            final(self).out@ == old(self).out@ + bytes@,
            final(final(self).out)@ == final(old(self).out)@,
    {
        let ghost before = self.out@;
        self.out.extend_from_slice(bytes);
        proof {
            assert(self.out@ == before + bytes@);
        }
    }

    /// Appends a varint.
    pub fn varint(&mut self, value: u64)
        ensures
            final(self).out@ == old(self).out@ + varint_bytes(value as nat),
            final(final(self).out)@ == final(old(self).out)@,
    {
        let mut rest: u64 = value;
        let ghost before = self.out@;
        let ghost last = final(self.out)@;
        while rest >= 128
            invariant
                before + varint_bytes(value as nat) == self.out@ + varint_bytes(rest as nat),
                final(self.out)@ == last,
            decreases rest,
        {
            let ghost now = self.out@;
            let group: u8 = (rest % 128) as u8 + 128u8;
            self.out.push(group);
            proof {
                assert(now + (seq![group] + varint_bytes((rest / 128) as nat)) == now.push(group)
                    + varint_bytes((rest / 128) as nat));
            }
            rest = rest / 128;
        }
        self.out.push(rest as u8);
        proof {
            assert(self.out@ == before + varint_bytes(value as nat));
        }
    }

    /// Appends a tag.
    pub fn tag(&mut self, field_number: u32, wire_type: WireType)
        ensures
            final(self).out@ == old(self).out@ + tag_bytes(field_number, wire_type),
            final(final(self).out)@ == final(old(self).out)@,
    {
        let code: u64 = match wire_type {
            WireType::Varint => 0,
            WireType::Fixed64 => 1,
            WireType::LengthDelimited => 2,
            WireType::Fixed32 => 5,
        };
        self.varint(field_number as u64 * 8 + code);
    }

    /// Appends a number field, also if the number is zero.
    pub fn uint32_field_force(&mut self, field_number: u32, value: u32)
        ensures
            final(self).out@ == old(self).out@ + varint_field(field_number, value as nat),
            final(final(self).out)@ == final(old(self).out)@,
    {
        let ghost before = self.out@;
        self.tag(field_number, WireType::Varint);
        self.varint(value as u64);
        proof {
            assert(self.out@ == before + varint_field(field_number, value as nat));
        }
    }

    /// Appends a number field, unless the number is zero.
    pub fn uint32_field(&mut self, field_number: u32, value: u32)
        ensures
            final(self).out@ == old(self).out@ + (if value == 0 {
                Seq::empty()
            } else {
                varint_field(field_number, value as nat)
            }),
            final(final(self).out)@ == final(old(self).out)@,
    {
        if value != 0 {
            self.uint32_field_force(field_number, value);
        } else {
            proof {
                assert(self.out@ + Seq::<u8>::empty() == self.out@);
            }
        }
    }

    /// Appends an eight-byte field, unless the number is zero.
    pub fn fixed64_field(&mut self, field_number: u32, value: u64)
        ensures
            final(self).out@ == old(self).out@ + (if value == 0 {
                Seq::empty()
            } else {
                fixed64_field(field_number, value)
            }),
            final(final(self).out)@ == final(old(self).out)@,
    {
        let ghost before = self.out@;
        let ghost last = final(self.out)@;
        if value == 0 {
            proof {
                assert(before + Seq::<u8>::empty() == before);
            }
            return;
        }
        self.tag(field_number, WireType::Fixed64);
        let ghost tagged = self.out@;
        let mut rest: u64 = value;
        let mut left: u8 = 8;
        while left > 0
            invariant
                tagged + le_bytes(value as nat, 8) == self.out@ + le_bytes(
                    rest as nat,
                    left as nat,
                ),
                final(self.out)@ == last,
            decreases left,
        {
            let ghost now = self.out@;
            let low: u8 = (rest % 256) as u8;
            self.out.push(low);
            proof {
                let more = le_bytes((rest / 256) as nat, (left - 1) as nat);
                assert(now + (seq![low] + more) == now.push(low) + more);
            }
            rest = rest / 256;
            left -= 1;
        }
        proof {
            assert(self.out@ == tagged + le_bytes(value as nat, 8));
            assert(self.out@ == before + fixed64_field(field_number, value));
        }
    }

    /// Appends a field with a run of bytes.
    fn run(&mut self, field_number: u32, run: &[u8])
        ensures
            final(self).out@ == old(self).out@ + run_field(field_number, run@),
            final(final(self).out)@ == final(old(self).out)@,
    {
        let ghost before = self.out@;
        self.tag(field_number, WireType::LengthDelimited);
        self.varint(run.len() as u64);
        self.raw_bytes(run);
        proof {
            assert(self.out@ == before + run_field(field_number, run@));
        }
    }

    /// Appends a field with a run of bytes, unless it is empty.
    pub fn bytes_field(&mut self, field_number: u32, run: &[u8])
        ensures
            final(self).out@ == old(self).out@ + (if run@.len() == 0 {
                Seq::empty()
            } else {
                run_field(field_number, run@)
            }),
            final(final(self).out)@ == final(old(self).out)@,
    {
        if run.len() > 0 {
            self.run(field_number, run);
        } else {
            proof {
                assert(self.out@ + Seq::<u8>::empty() == self.out@);
            }
        }
    }

    /// Appends a text field in UTF-8, unless the text is empty.
    pub fn string_field(&mut self, field_number: u32, text: &str)
        ensures
            final(self).out@ == old(self).out@ + (if text@.len() == 0 {
                Seq::empty()
            } else {
                run_field(field_number, encode_utf8(text@))
            }),
            final(final(self).out)@ == final(old(self).out)@,
    {
        if !text.is_empty() {
            self.run(field_number, text.as_bytes());
        } else {
            proof {
                assert(self.out@ + Seq::<u8>::empty() == self.out@);
            }
        }
    }

    /// Appends a message as a field, also if it is empty.
    pub fn submessage_field(&mut self, field_number: u32, message: &[u8])
        ensures
            final(self).out@ == old(self).out@ + run_field(field_number, message@),
            final(final(self).out)@ == final(old(self).out)@,
    {
        self.run(field_number, message);
    }
}

// ---------------------------------------------------------------------------
// Laws: what is written is read back
// ---------------------------------------------------------------------------

proof fn lemma_varint_bytes(value: nat, rest: Seq<u8>)
    ensures
        varint_bytes(value).len() >= 1,
        continued(varint_bytes(value) + rest) == varint_bytes(value).len() - 1,
        varint_value(varint_bytes(value)) == value,
    decreases value,
{
    let bytes = varint_bytes(value);
    if value < 128 {
        assert(bytes.skip(1) == Seq::<u8>::empty());
        assert(varint_value(bytes.skip(1)) == 0);
        assert((bytes + rest)[0] < 128);
    } else {
        let more = varint_bytes(value / 128);
        lemma_varint_bytes(value / 128, rest);
        assert(bytes.skip(1) == more);
        assert((bytes + rest).skip(1) == more + rest);
        assert(bytes[0] % 128 == value % 128);
    }
}

proof fn lemma_varint_length(value: nat, n: nat)
    requires
        value < power(128, n),
        n >= 1,
    ensures
        varint_bytes(value).len() <= n,
    decreases n,
{
    if value >= 128 {
        if n == 1 {
            reveal_with_fuel(power, 2);
        } else {
            assert(value / 128 < power(128, (n - 1) as nat));
            lemma_varint_length(value / 128, (n - 1) as nat);
        }
    }
}

/// A varint is read back, whatever follows it.
pub proof fn law_varint_roundtrip(value: u64, rest: Seq<u8>)
    ensures
        read_varint(varint_bytes(value as nat) + rest) == Some(
            (value, varint_bytes(value as nat).len()),
        ),
{
    let bytes = varint_bytes(value as nat);
    lemma_varint_bytes(value as nat, rest);
    lemma_powers();
    lemma_varint_length(value as nat, 10);
    assert((bytes + rest).take(bytes.len() as int) == bytes);
}

/// A number of 32 bits is read back, whatever follows it.
pub proof fn law_u32_roundtrip(value: u32, rest: Seq<u8>)
    ensures
        read_u32(varint_bytes(value as nat) + rest) == Some(
            (value, varint_bytes(value as nat).len()),
        ),
{
    law_varint_roundtrip(value as u64, rest);
}

/// A tag is read back, whatever follows it.
pub proof fn law_tag_roundtrip(field_number: u32, wire_type: WireType, rest: Seq<u8>)
    requires
        1 <= field_number <= MAX_FIELD_NUMBER,
    ensures
        read_tag(tag_bytes(field_number, wire_type) + rest) == Some(
            (Tag { field_number, wire_type }, tag_bytes(field_number, wire_type).len()),
        ),
{
    law_varint_roundtrip(tag_key(field_number, wire_type) as u64, rest);
}

proof fn lemma_le_bytes(value: nat, n: nat)
    requires
        value < power(256, n),
    ensures
        le_bytes(value, n).len() == n,
        le_value(le_bytes(value, n)) == value,
    decreases n,
{
    if n > 0 {
        assert(value / 256 < power(256, (n - 1) as nat));
        lemma_le_bytes(value / 256, (n - 1) as nat);
        let bytes = le_bytes(value, n);
        assert(bytes.skip(1) == le_bytes(value / 256, (n - 1) as nat));
    }
}

/// An eight-byte number is read back, whatever follows it.
pub proof fn law_fixed64_roundtrip(value: u64, rest: Seq<u8>)
    ensures
        le_bytes(value as nat, 8).len() == 8,
        read_fixed64(le_bytes(value as nat, 8) + rest) == Some((value, 8nat)),
{
    lemma_powers();
    lemma_le_bytes(value as nat, 8);
    assert((le_bytes(value as nat, 8) + rest).take(8) == le_bytes(value as nat, 8));
}

/// A run of bytes is read back, whatever follows it.
pub proof fn law_bytes_roundtrip(run: Seq<u8>, rest: Seq<u8>)
    requires
        run.len() <= u64::MAX,
    ensures
        read_bytes(varint_bytes(run.len()) + run + rest) == Some(
            (run, varint_bytes(run.len()).len() + run.len()),
        ),
{
    let length = varint_bytes(run.len());
    law_varint_roundtrip(run.len() as u64, run + rest);
    assert(length + (run + rest) == length + run + rest);
    assert((length + run + rest).subrange(length.len() as int, (length.len() + run.len()) as int)
        == run);
}

/// A text is read back, whatever follows it.
pub proof fn law_string_roundtrip(text: Seq<char>, rest: Seq<u8>)
    requires
        encode_utf8(text).len() <= u64::MAX,
    ensures
        ({
            let run = encode_utf8(text);
            read_string(varint_bytes(run.len()) + run + rest) == Some(
                (text, varint_bytes(run.len()).len() + run.len()),
            )
        }),
{
    law_bytes_roundtrip(encode_utf8(text), rest);
    vstd::utf8::encode_utf8_valid_utf8(text);
    vstd::utf8::encode_utf8_decode_utf8(text);
}

/// A number field is read back, whatever follows it.
pub proof fn law_varint_field_roundtrip(field_number: u32, value: u64, rest: Seq<u8>)
    requires
        1 <= field_number <= MAX_FIELD_NUMBER,
    ensures
        read_field(varint_field(field_number, value as nat) + rest) == Some(
            (
                Field { number: field_number, payload: Payload::Varint(value) },
                varint_field(field_number, value as nat).len(),
            ),
        ),
{
    let tag = tag_bytes(field_number, WireType::Varint);
    let payload = varint_bytes(value as nat);
    law_tag_roundtrip(field_number, WireType::Varint, payload + rest);
    law_varint_roundtrip(value, rest);
    assert(tag + (payload + rest) == varint_field(field_number, value as nat) + rest);
    assert((tag + (payload + rest)).skip(tag.len() as int) == payload + rest);
}

/// An eight-byte field is read back, whatever follows it.
pub proof fn law_fixed64_field_roundtrip(field_number: u32, value: u64, rest: Seq<u8>)
    requires
        1 <= field_number <= MAX_FIELD_NUMBER,
    ensures
        read_field(fixed64_field(field_number, value) + rest) == Some(
            (
                Field { number: field_number, payload: Payload::Fixed64(value) },
                fixed64_field(field_number, value).len(),
            ),
        ),
{
    let tag = tag_bytes(field_number, WireType::Fixed64);
    let payload = le_bytes(value as nat, 8);
    law_tag_roundtrip(field_number, WireType::Fixed64, payload + rest);
    law_fixed64_roundtrip(value, rest);
    assert(tag + (payload + rest) == fixed64_field(field_number, value) + rest);
    assert((tag + (payload + rest)).skip(tag.len() as int) == payload + rest);
}

/// A field with a run of bytes is read back, whatever follows it.
pub proof fn law_run_field_roundtrip(field_number: u32, run: Seq<u8>, rest: Seq<u8>)
    requires
        1 <= field_number <= MAX_FIELD_NUMBER,
        run.len() <= u64::MAX,
    ensures
        read_field(run_field(field_number, run) + rest) == Some(
            (
                Field { number: field_number, payload: Payload::Run(run) },
                run_field(field_number, run).len(),
            ),
        ),
{
    let tag = tag_bytes(field_number, WireType::LengthDelimited);
    let payload = varint_bytes(run.len()) + run;
    law_tag_roundtrip(field_number, WireType::LengthDelimited, payload + rest);
    law_bytes_roundtrip(run, rest);
    assert(tag + (payload + rest) == run_field(field_number, run) + rest);
    assert((tag + (payload + rest)).skip(tag.len() as int) == payload + rest);
}

// ---------------------------------------------------------------------------
// Laws: messages in a row
// ---------------------------------------------------------------------------

proof fn lemma_continued_front(bytes: Seq<u8>, more: Seq<u8>)
    requires
        continued(bytes) < bytes.len(),
    ensures
        continued(bytes + more) == continued(bytes),
{
    lemma_continued(bytes);
    lemma_continued_is(bytes + more, continued(bytes));
}

/// What can be read at the front reads the same, whatever is appended.
pub proof fn lemma_field_front(bytes: Seq<u8>, more: Seq<u8>)
    requires
        read_field(bytes) is Some,
    ensures
        read_field(bytes + more) == read_field(bytes),
{
    let whole = bytes + more;
    lemma_read_within(bytes);
    lemma_field_within(bytes);
    lemma_varint_front(bytes, more);
    let (tag, size) = read_tag(bytes)->0;
    let rest = bytes.skip(size as int);
    assert(whole.skip(size as int) == rest + more);
    match tag.wire_type {
        WireType::Varint => {
            lemma_varint_front(rest, more);
        },
        WireType::Fixed64 => {
            assert((rest + more).take(8) == rest.take(8));
        },
        WireType::LengthDelimited => {
            lemma_varint_front(rest, more);
            let (length, head) = read_varint(rest)->0;
            assert((rest + more).subrange(head as int, head + length) == rest.subrange(
                head as int,
                head + length,
            ));
        },
        WireType::Fixed32 => {
            assert((rest + more).take(4) == rest.take(4));
        },
    }
}

proof fn lemma_varint_front(bytes: Seq<u8>, more: Seq<u8>)
    requires
        read_varint(bytes) is Some,
    ensures
        read_varint(bytes + more) == read_varint(bytes),
{
    lemma_continued_front(bytes, more);
    let size = continued(bytes) + 1;
    assert((bytes + more).take(size as int) == bytes.take(size as int));
}

/// Two messages in a row are a message with the fields of both in a row.
pub proof fn law_fields_concat(first: Seq<u8>, second: Seq<u8>)
    requires
        fields(first) is Some,
    ensures
        fields(first + second) == match fields(second) {
            Some(more) => Some(fields(first)->0 + more),
            None => None,
        },
    decreases first.len(),
{
    if first.len() == 0 {
        assert(first + second == second);
        if let Some(more) = fields(second) {
            assert(Seq::<Field>::empty() + more == more);
        }
    } else {
        let (field, size) = read_field(first)->0;
        let rest = first.skip(size as int);
        lemma_field_front(first, second);
        lemma_field_within(first);
        law_fields_concat(rest, second);
        assert((first + second).skip(size as int) == rest + second);
        if let Some(more) = fields(second) {
            let tail = fields(rest)->0;
            assert(seq![field] + (tail + more) == (seq![field] + tail) + more);
        }
    }
}

/// A field on its own is a message with that field.
pub proof fn lemma_single_field(bytes: Seq<u8>, field: Field)
    requires
        read_field(bytes) == Some((field, bytes.len())),
        bytes.len() > 0,
    ensures
        fields(bytes) == Some(seq![field]),
{
    assert(bytes.skip(bytes.len() as int) == Seq::<u8>::empty());
    assert(fields(Seq::<u8>::empty()) == Some(Seq::<Field>::empty()));
    assert(seq![field] + Seq::<Field>::empty() == seq![field]);
}

} // verus!
