//! The protobuf wire format: what its primitive encodings are, and the calls into `prost`
//! that read and write them.

use vstd::prelude::*;
use vstd::slice::slice_subrange;
use vstd::string::{StrSliceExecFns, StringExecFns};
use vstd::utf8::{decode_utf8, encode_utf8, valid_utf8};
use crate::bytes::{be64, be64_value};
use crate::decimal::decimal;

verus! {

broadcast use crate::bytes::group_be;

/// Wire type of varint fields.
pub const WIRE_VARINT: u8 = 0;

/// Wire type of eight-byte fields.
pub const WIRE_SIXTY_FOUR_BIT: u8 = 1;

/// Wire type of fields that begin with their length.
pub const WIRE_LENGTH_DELIMITED: u8 = 2;

/// Wire type of the start of a group.
pub const WIRE_START_GROUP: u8 = 3;

/// Wire type of the end of a group.
pub const WIRE_END_GROUP: u8 = 4;

/// The varint encoding of `v`: seven bits to a byte, least significant first, the high bit
/// set on every byte but the last.
pub open spec fn varint(v: nat) -> Seq<u8>
    decreases v,
{
    if v < 128 {
        seq![v as u8]
    } else {
        seq![(v % 128 + 128) as u8] + varint(v / 128)
    }
}

/// The varint that begins `b`, `count` bytes of it having been read already: its value, and
/// how many bytes it takes. `None` if it does not end within ten bytes, or its value does not
/// fit in 64 bits.
pub open spec fn varint_at(b: Seq<u8>, count: nat) -> Option<(nat, nat)>
    decreases b.len(),
{
    if b.len() == 0 || count >= 10 {
        None
    } else if b[0] < 128 {
        if count == 9 && b[0] >= 2 {
            None
        } else {
            Some((b[0] as nat, 1))
        }
    } else {
        match varint_at(b.skip(1), count + 1) {
            None => None,
            Some((v, n)) => Some(((b[0] - 128 + 128 * v) as nat, n + 1)),
        }
    }
}

/// The key of a field: its tag and its wire type.
pub open spec fn field_key(tag: u32, wire: u8) -> Seq<u8> {
    varint((tag * 8 + wire) as nat)
}

/// The varint value that stands for a 32-bit signed integer.
pub open spec fn int32_bits(v: i32) -> nat {
    if v >= 0 {
        v as nat
    } else {
        (v + 0x1_0000_0000_0000_0000) as nat
    }
}

/// The 32-bit signed integer in the low bits of a varint value.
pub open spec fn int32_of_bits(bits: nat) -> i32 {
    let low = bits % 0x1_0000_0000;
    if low < 0x8000_0000 {
        low as i32
    } else {
        (low - 0x1_0000_0000) as i32
    }
}

/// The eight bytes of `v`, least significant first.
pub open spec fn le64(v: u64) -> Seq<u8> {
    be64(v).reverse()
}

/// The number that the first eight bytes of `b` write, least significant first.
pub open spec fn le64_value(b: Seq<u8>) -> int {
    be64_value(b.take(8).reverse())
}

/// How `prost` begins the wording of a failure to decode.
pub const HEADING: &'static str = "failed to decode Protobuf message: ";

/// How `prost` words a failure to decode. `problem` says what is wrong; the messages and fields in
/// which that is so, if any are named, stand before it, the innermost first.
pub open spec fn failure(problem: Seq<char>) -> Seq<char> {
    HEADING@ + problem
}

/// The wording of a failure with `place` named in it, before what it names already.
pub fn locate(text: String, place: &str) -> (r: String)
    requires
        text@.len() >= HEADING@.len(),
    ensures
        r@ == failure(place@ + text@.skip(HEADING@.len() as int)),
{
    let from: usize = HEADING.unicode_len();
    let whole: &str = text.as_str();
    let to: usize = whole.unicode_len();
    let r: String = String::from_str(HEADING).concat(place).concat(whole.substring_char(from, to));
    assert(r@ =~= failure(place@ + text@.skip(HEADING@.len() as int)));
    r
}

/// The name of a wire type.
pub open spec fn wire_name(wire: u8) -> Seq<char> {
    if wire == 0 {
        "Varint"@
    } else if wire == 1 {
        "SixtyFourBit"@
    } else if wire == 2 {
        "LengthDelimited"@
    } else if wire == 3 {
        "StartGroup"@
    } else if wire == 4 {
        "EndGroup"@
    } else {
        "ThirtyTwoBit"@
    }
}

/// What is wrong with a field of wire type `actual` that should have `expected`.
pub open spec fn wrong_wire(actual: u8, expected: u8) -> Seq<char> {
    "invalid wire type: "@ + wire_name(actual) + " (expected "@ + wire_name(expected) + ")"@
}

/// The field key that begins `b`: tag, wire type and how many bytes it takes, or what is wrong
/// with it.
pub open spec fn key_at(b: Seq<u8>) -> Result<(u32, u8, nat), Seq<char>> {
    match varint_at(b, 0) {
        None => Err("invalid varint"@),
        Some((key, n)) => if key > u32::MAX {
            Err("invalid key value: "@ + decimal(key))
        } else if key % 8 > 5 {
            Err("invalid wire type value: "@ + decimal(key % 8))
        } else if key / 8 == 0 {
            Err("invalid tag value: 0"@)
        } else {
            Ok(((key / 8) as u32, (key % 8) as u8, n))
        },
    }
}

/// The varint field that begins `b` after its key: its value and length, or what is wrong.
pub open spec fn varint_field(wire: u8, b: Seq<u8>) -> Result<(nat, nat), Seq<char>> {
    if wire != WIRE_VARINT {
        Err(wrong_wire(wire, WIRE_VARINT))
    } else {
        match varint_at(b, 0) {
            None => Err("invalid varint"@),
            Some((v, n)) => Ok((v, n)),
        }
    }
}

/// The eight-byte field that begins `b` after its key: its value and length, or what is wrong.
pub open spec fn fixed64_field(wire: u8, b: Seq<u8>) -> Result<(u64, nat), Seq<char>> {
    if wire != WIRE_SIXTY_FOUR_BIT {
        Err(wrong_wire(wire, WIRE_SIXTY_FOUR_BIT))
    } else if b.len() < 8 {
        Err("buffer underflow"@)
    } else {
        Ok((le64_value(b) as u64, 8))
    }
}

/// The byte-string field that begins `b` after its key: the bytes and the length of the field,
/// or what is wrong.
pub open spec fn bytes_field(wire: u8, b: Seq<u8>) -> Result<(Seq<u8>, nat), Seq<char>> {
    if wire != WIRE_LENGTH_DELIMITED {
        Err(wrong_wire(wire, WIRE_LENGTH_DELIMITED))
    } else {
        match varint_at(b, 0) {
            None => Err("invalid varint"@),
            Some((len, n)) => if len > b.len() - n {
                Err("buffer underflow"@)
            } else {
                Ok((b.subrange(n as int, (n + len) as int), n + len))
            },
        }
    }
}

/// The text field that begins `b` after its key: the text and the length of the field, or what
/// is wrong.
pub open spec fn string_field(wire: u8, b: Seq<u8>) -> Result<(Seq<char>, nat), Seq<char>> {
    match bytes_field(wire, b) {
        Err(problem) => Err(problem),
        Ok((s, n)) => if valid_utf8(s) {
            Ok((decode_utf8(s), n))
        } else {
            Err("invalid string value: data is not UTF-8 encoded"@)
        },
    }
}

/// The length of the group with tag `tag` that begins `b` after its key, or what is wrong with it, as
/// `prost::encoding::skip_field` finds it.
pub uninterp spec fn skipped_group(tag: u32, b: Seq<u8>) -> Result<nat, Seq<char>>;

/// What is wrong with the message of unknown fields that begins `b` with its length, or `None` if
/// nothing is, as `prost::encoding::message::merge` finds it.
pub uninterp spec fn unknown_message(b: Seq<u8>) -> Option<Seq<char>>;

/// The message, with its length, whose one field is a group with tag `tag`; `s` is what follows the
/// group's key.
pub open spec fn group_message(tag: u32, s: Seq<u8>) -> Seq<u8> {
    let field = field_key(tag, WIRE_START_GROUP) + s;
    varint(field.len()) + field
}

/// The length of the group with tag `tag` that begins `b` after its key within a message that is
/// itself a field, or what is wrong with it: such a group may nest one level less.
pub open spec fn nested_group(tag: u32, b: Seq<u8>) -> Result<nat, Seq<char>> {
    match skipped_group(tag, b) {
        Ok(n) => match unknown_message(group_message(tag, b.take(n as int))) {
            None => Ok(n),
            Some(problem) => Err(problem),
        },
        Err(problem) => match unknown_message(group_message(tag, b)) {
            None => Err(problem),
            Some(first) => Err(first),
        },
    }
}

/// The length of the field of unknown tag that begins `b` after its key, or what is wrong with it;
/// `nested` says whether its message is itself a field.
pub open spec fn skipped_field(wire: u8, tag: u32, b: Seq<u8>, nested: bool) -> Result<
    nat,
    Seq<char>,
> {
    skipped(
        wire,
        b,
        if nested {
            nested_group(tag, b)
        } else {
            skipped_group(tag, b)
        },
    )
}

/// The length of the field that begins `b` after its key, or what is wrong with it; `group` if it is
/// a group.
pub open spec fn skipped(wire: u8, b: Seq<u8>, group: Result<nat, Seq<char>>) -> Result<
    nat,
    Seq<char>,
> {
    if wire == WIRE_VARINT {
        match varint_at(b, 0) {
            None => Err("invalid varint"@),
            Some((v, n)) => Ok(n),
        }
    } else if wire == WIRE_SIXTY_FOUR_BIT {
        skipped_bytes(8, b)
    } else if wire == WIRE_LENGTH_DELIMITED {
        match varint_at(b, 0) {
            None => Err("invalid varint"@),
            Some((len, n)) => skipped_bytes(n + len, b),
        }
    } else if wire == WIRE_START_GROUP {
        group
    } else if wire == WIRE_END_GROUP {
        Err("unexpected end group tag"@)
    } else {
        skipped_bytes(4, b)
    }
}

/// The length of a field of `n` bytes, if `b` has that many.
pub open spec fn skipped_bytes(n: nat, b: Seq<u8>) -> Result<nat, Seq<char>> {
    if n > b.len() {
        Err("buffer underflow"@)
    } else {
        Ok(n)
    }
}

/// Calls `prost::encoding::encode_varint`: it appends a number as a varint.
#[verifier::external_body]
pub(crate) fn put_varint(value: u64, buf: &mut Vec<u8>)
    ensures
        final(buf)@ == old(buf)@ + varint(value as nat),
{
    prost::encoding::encode_varint(value, buf);
}

/// Calls `prost::encoding::int32::encode`: it appends the key of a varint field and the value,
/// sign-extended to 64 bits, as a varint.
#[verifier::external_body]
pub(crate) fn put_int32(tag: u32, value: i32, buf: &mut Vec<u8>)
    requires
        1 <= tag < 0x2000_0000,
    ensures
        final(buf)@ == old(buf)@ + field_key(tag, WIRE_VARINT) + varint(int32_bits(value)),
{
    prost::encoding::int32::encode(tag, &value, buf);
}

/// Calls `prost::encoding::uint64::encode`: it appends the key of a varint field and the value
/// as a varint.
#[verifier::external_body]
pub(crate) fn put_uint64(tag: u32, value: u64, buf: &mut Vec<u8>)
    requires
        1 <= tag < 0x2000_0000,
    ensures
        final(buf)@ == old(buf)@ + field_key(tag, WIRE_VARINT) + varint(value as nat),
{
    prost::encoding::uint64::encode(tag, &value, buf);
}

/// Calls `prost::encoding::bool::encode`: it appends the key of a varint field and the varint
/// one or zero.
#[verifier::external_body]
pub(crate) fn put_bool(tag: u32, value: bool, buf: &mut Vec<u8>)
    requires
        1 <= tag < 0x2000_0000,
    ensures
        final(buf)@ == old(buf)@ + field_key(tag, WIRE_VARINT) + varint(
            if value { 1nat } else { 0nat },
        ),
{
    prost::encoding::bool::encode(tag, &value, buf);
}

/// Calls `prost::encoding::fixed64::encode`: it appends the key of an eight-byte field and the
/// eight bytes of the value, least significant first.
#[verifier::external_body]
pub(crate) fn put_fixed64(tag: u32, value: u64, buf: &mut Vec<u8>)
    requires
        1 <= tag < 0x2000_0000,
    ensures
        final(buf)@ == old(buf)@ + field_key(tag, WIRE_SIXTY_FOUR_BIT) + le64(value),
{
    prost::encoding::fixed64::encode(tag, &value, buf);
}

/// Calls `prost::encoding::string::encode`: it appends the key of a length-delimited field, the
/// length of the text's UTF-8 encoding as a varint, and the encoding.
#[verifier::external_body]
pub(crate) fn put_string(tag: u32, value: &String, buf: &mut Vec<u8>)
    requires
        1 <= tag < 0x2000_0000,
    ensures
        final(buf)@ == old(buf)@ + field_key(tag, WIRE_LENGTH_DELIMITED) + varint(
            encode_utf8(value@).len(),
        ) + encode_utf8(value@),
{
    prost::encoding::string::encode(tag, value, buf);
}

/// Calls `prost::encoding::bytes::encode`: it appends the key of a length-delimited field, the
/// number of bytes as a varint, and the bytes.
#[verifier::external_body]
pub(crate) fn put_bytes(tag: u32, value: &Vec<u8>, buf: &mut Vec<u8>)
    requires
        1 <= tag < 0x2000_0000,
    ensures
        final(buf)@ == old(buf)@ + field_key(tag, WIRE_LENGTH_DELIMITED) + varint(value@.len())
            + value@,
{
    prost::encoding::bytes::encode(tag, value, buf);
}

/// Calls `prost::encoding::decode_key` on `buf`: it reads the key that begins `buf` and gives
/// the tag, the wire type's number and the bytes that follow, or words what is wrong.
#[verifier::external_body]
pub(crate) fn take_key<'a>(buf: &'a [u8]) -> (r: Result<(u32, u8, &'a [u8]), String>)
    ensures
        match key_at(buf@) {
            Ok((tag, wire, n)) => r matches Ok((t, w, rest)) && t == tag && w == wire && rest@
                == buf@.skip(n as int),
            Err(problem) => r matches Err(text) && text@ == failure(problem),
        },
{
    let mut rest = buf;
    match prost::encoding::decode_key(&mut rest) {
        Ok((tag, wire)) => Ok((tag, wire as u8, rest)),
        Err(e) => Err(e.to_string()),
    }
}

/// Calls `prost::encoding::int32::merge` on `buf`: it reads a varint and keeps its low 32 bits,
/// or words what is wrong.
#[verifier::external_body]
pub(crate) fn take_int32<'a>(wire: u8, buf: &'a [u8]) -> (r: Result<(i32, &'a [u8]), String>)
    requires
        wire <= 5,
    ensures
        match varint_field(wire, buf@) {
            Ok((v, n)) => r matches Ok((x, rest)) && x == int32_of_bits(v) && rest@ == buf@.skip(
                n as int,
            ),
            Err(problem) => r matches Err(text) && text@ == failure(problem),
        },
{
    let mut rest = buf;
    let mut value = 0i32;
    let wire = prost::encoding::WireType::try_from(u64::from(wire)).unwrap();
    match prost::encoding::int32::merge(wire, &mut value, &mut rest, Default::default()) {
        Ok(()) => Ok((value, rest)),
        Err(e) => Err(e.to_string()),
    }
}

/// Calls `prost::encoding::uint64::merge` on `buf`: it reads a varint, or words what is wrong.
#[verifier::external_body]
pub(crate) fn take_uint64<'a>(wire: u8, buf: &'a [u8]) -> (r: Result<(u64, &'a [u8]), String>)
    requires
        wire <= 5,
    ensures
        match varint_field(wire, buf@) {
            Ok((v, n)) => r matches Ok((x, rest)) && x == v && rest@ == buf@.skip(n as int),
            Err(problem) => r matches Err(text) && text@ == failure(problem),
        },
{
    let mut rest = buf;
    let mut value = 0u64;
    let wire = prost::encoding::WireType::try_from(u64::from(wire)).unwrap();
    match prost::encoding::uint64::merge(wire, &mut value, &mut rest, Default::default()) {
        Ok(()) => Ok((value, rest)),
        Err(e) => Err(e.to_string()),
    }
}

/// Calls `prost::encoding::bool::merge` on `buf`: it reads a varint that is not zero for
/// `true`, or words what is wrong.
#[verifier::external_body]
pub(crate) fn take_bool<'a>(wire: u8, buf: &'a [u8]) -> (r: Result<(bool, &'a [u8]), String>)
    requires
        wire <= 5,
    ensures
        match varint_field(wire, buf@) {
            Ok((v, n)) => r matches Ok((x, rest)) && x == (v != 0) && rest@ == buf@.skip(n as int),
            Err(problem) => r matches Err(text) && text@ == failure(problem),
        },
{
    let mut rest = buf;
    let mut value = false;
    let wire = prost::encoding::WireType::try_from(u64::from(wire)).unwrap();
    match prost::encoding::bool::merge(wire, &mut value, &mut rest, Default::default()) {
        Ok(()) => Ok((value, rest)),
        Err(e) => Err(e.to_string()),
    }
}

/// Calls `prost::encoding::fixed64::merge` on `buf`: it reads eight bytes, least significant
/// first, or words what is wrong.
#[verifier::external_body]
pub(crate) fn take_fixed64<'a>(wire: u8, buf: &'a [u8]) -> (r: Result<(u64, &'a [u8]), String>)
    requires
        wire <= 5,
    ensures
        match fixed64_field(wire, buf@) {
            Ok((v, n)) => r matches Ok((x, rest)) && x == v && rest@ == buf@.skip(n as int),
            Err(problem) => r matches Err(text) && text@ == failure(problem),
        },
{
    let mut rest = buf;
    let mut value = 0u64;
    let wire = prost::encoding::WireType::try_from(u64::from(wire)).unwrap();
    match prost::encoding::fixed64::merge(wire, &mut value, &mut rest, Default::default()) {
        Ok(()) => Ok((value, rest)),
        Err(e) => Err(e.to_string()),
    }
}

/// Calls `prost::encoding::string::merge` on `buf`: it reads a length and that many bytes of
/// UTF-8, or words what is wrong.
#[verifier::external_body]
pub(crate) fn take_string<'a>(wire: u8, buf: &'a [u8]) -> (r: Result<(String, &'a [u8]), String>)
    requires
        wire <= 5,
    ensures
        match string_field(wire, buf@) {
            Ok((s, n)) => r matches Ok((x, rest)) && x@ == s && rest@ == buf@.skip(n as int),
            Err(problem) => r matches Err(text) && text@ == failure(problem),
        },
{
    let mut rest = buf;
    let mut value = String::new();
    let wire = prost::encoding::WireType::try_from(u64::from(wire)).unwrap();
    match prost::encoding::string::merge(wire, &mut value, &mut rest, Default::default()) {
        Ok(()) => Ok((value, rest)),
        Err(e) => Err(e.to_string()),
    }
}

/// Calls `prost::encoding::bytes::merge` on `buf`: it reads a length and that many bytes, or
/// words what is wrong.
#[verifier::external_body]
pub(crate) fn take_bytes<'a>(wire: u8, buf: &'a [u8]) -> (r: Result<(Vec<u8>, &'a [u8]), String>)
    requires
        wire <= 5,
    ensures
        match bytes_field(wire, buf@) {
            Ok((s, n)) => r matches Ok((x, rest)) && x@ == s && rest@ == buf@.skip(n as int),
            Err(problem) => r matches Err(text) && text@ == failure(problem),
        },
{
    let mut rest = buf;
    let mut value: Vec<u8> = Vec::new();
    let wire = prost::encoding::WireType::try_from(u64::from(wire)).unwrap();
    match prost::encoding::bytes::merge(wire, &mut value, &mut rest, Default::default()) {
        Ok(()) => Ok((value, rest)),
        Err(e) => Err(e.to_string()),
    }
}

/// Calls `prost::encoding::skip_field` on `buf`: it passes over one field of unknown tag, by the
/// length that its wire type gives it, and gives the bytes that follow, or words what is wrong. A
/// field that is passed over lies within `buf`. What becomes of a group, which may hold groups
/// again, is named by [`skipped_group`].
#[verifier::external_body]
pub(crate) fn skip_unknown<'a>(wire: u8, tag: u32, buf: &'a [u8]) -> (r: Result<&'a [u8], String>)
    requires
        wire <= 5,
    ensures
        match skipped(wire, buf@, skipped_group(tag, buf@)) {
            Ok(n) => n <= buf@.len() && (r matches Ok(rest) && rest@ == buf@.skip(n as int)),
            Err(problem) => r matches Err(text) && text@ == failure(problem),
        },
{
    let mut rest = buf;
    let wire = prost::encoding::WireType::try_from(u64::from(wire)).unwrap();
    match prost::encoding::skip_field(wire, tag, &mut rest, Default::default()) {
        Ok(()) => Ok(rest),
        Err(e) => Err(e.to_string()),
    }
}

/// Calls `prost::encoding::message::merge` on `buf`, for the message type `()`, which passes over
/// every field as one of unknown tag: it reads a length and the fields of a message of that length,
/// or words what is wrong. Which it is, is named by [`unknown_message`].
#[verifier::external_body]
pub(crate) fn pass_message(buf: &[u8]) -> (r: Result<(), String>)
    ensures
        match unknown_message(buf@) {
            None => r is Ok,
            Some(problem) => r matches Err(text) && text@ == failure(problem),
        },
{
    let mut rest = buf;
    let wire = prost::encoding::WireType::LengthDelimited;
    match prost::encoding::message::merge(wire, &mut (), &mut rest, Default::default()) {
        Ok(()) => Ok(()),
        Err(e) => Err(e.to_string()),
    }
}

/// Passes over one field of unknown tag within a message that is itself a field, and gives the bytes
/// that follow, or words what is wrong.
pub(crate) fn skip_nested<'a>(wire: u8, tag: u32, buf: &'a [u8]) -> (r: Result<&'a [u8], String>)
    requires
        wire <= 5,
    ensures
        match skipped_field(wire, tag, buf@, true) {
            Ok(n) => n <= buf@.len() && (r matches Ok(rest) && rest@ == buf@.skip(n as int)),
            Err(problem) => r matches Err(text) && text@ == failure(problem),
        },
{
    let skipped_over = skip_unknown(wire, tag, buf);
    if wire != WIRE_START_GROUP {
        return skipped_over;
    }
    match skipped_over {
        Ok(rest) => {
            let n: usize = buf.len() - rest.len();
            match pass_message(framed_group(tag, slice_subrange(buf, 0, n)).as_slice()) {
                Ok(()) => Ok(rest),
                Err(text) => Err(text),
            }
        },
        Err(text) => match pass_message(framed_group(tag, buf).as_slice()) {
            Ok(()) => Err(text),
            Err(first) => Err(first),
        },
    }
}

/// The message, with its length, whose one field is a group with tag `tag`.
fn framed_group(tag: u32, s: &[u8]) -> (r: Vec<u8>)
    ensures
        r@ == group_message(tag, s@),
{
    let mut field: Vec<u8> = Vec::new();
    put_varint(tag as u64 * 8 + WIRE_START_GROUP as u64, &mut field);
    field.extend_from_slice(s);
    let mut out: Vec<u8> = Vec::new();
    put_varint(field.len() as u64, &mut out);
    out.extend_from_slice(field.as_slice());
    proof {
        assert(field@ =~= field_key(tag, WIRE_START_GROUP) + s@);
        assert(out@ =~= group_message(tag, s@));
    }
    out
}

/// A varint that can be read takes at least one byte and lies within its buffer.
pub proof fn lemma_varint_at_len(b: Seq<u8>, count: nat)
    ensures
        varint_at(b, count) matches Some((v, n)) ==> 1 <= n <= b.len(),
    decreases b.len(),
{
    if b.len() > 0 && count < 10 && b[0] >= 128 {
        lemma_varint_at_len(b.skip(1), count + 1);
    }
}

/// The largest value, plus one, of a varint whose first `count` bytes have been read already.
spec fn varint_limit(count: nat) -> nat
    decreases 9 - count,
{
    if count >= 9 {
        2
    } else {
        128 * varint_limit(count + 1)
    }
}

proof fn lemma_varint_round_trip_at(v: nat, rest: Seq<u8>, count: nat)
    requires
        count <= 9,
        v < varint_limit(count),
    ensures
        varint(v).len() >= 1,
        varint_at(varint(v) + rest, count) == Some((v, varint(v).len())),
    decreases v,
{
    let b = varint(v) + rest;
    if v >= 128 {
        if count < 9 {
            lemma_varint_round_trip_at(v / 128, rest, count + 1);
            assert(b.skip(1) =~= varint(v / 128) + rest);
        }
    }
}

/// Reading a varint gives its value back, whatever follows it.
pub proof fn lemma_varint_round_trip(v: nat, rest: Seq<u8>)
    requires
        v <= u64::MAX,
    ensures
        varint(v).len() >= 1,
        varint_at(varint(v) + rest, 0) == Some((v, varint(v).len())),
{
    reveal_with_fuel(varint_limit, 10);
    lemma_varint_round_trip_at(v, rest, 0);
}

/// Reading a field key gives its tag and wire type back, whatever follows it.
pub proof fn lemma_field_key_round_trip(tag: u32, wire: u8, rest: Seq<u8>)
    requires
        1 <= tag < 0x2000_0000,
        wire <= 5,
    ensures
        field_key(tag, wire).len() >= 1,
        key_at(field_key(tag, wire) + rest) == Ok::<(u32, u8, nat), Seq<char>>(
            (tag, wire, field_key(tag, wire).len()),
        ),
{
    lemma_varint_round_trip((tag * 8 + wire) as nat, rest);
}

/// The low bits of an encoded 32-bit integer are the integer.
pub proof fn lemma_int32_round_trip(v: i32)
    ensures
        int32_of_bits(int32_bits(v)) == v,
        int32_bits(v) <= u64::MAX,
{
}

/// Reading a length-delimited field gives its bytes back, whatever follows it.
pub proof fn lemma_bytes_field_round_trip(s: Seq<u8>, rest: Seq<u8>)
    requires
        s.len() <= u64::MAX,
    ensures
        bytes_field(WIRE_LENGTH_DELIMITED, varint(s.len()) + s + rest) == Ok::<
            (Seq<u8>, nat),
            Seq<char>,
        >((s, varint(s.len()).len() + s.len())),
{
    let b = varint(s.len()) + s + rest;
    assert(b =~= varint(s.len()) + (s + rest));
    lemma_varint_round_trip(s.len(), s + rest);
    let n = varint(s.len()).len();
    assert(b.subrange(n as int, (n + s.len()) as int) =~= s);
}

/// Reading an eight-byte field gives its value back, whatever follows it.
pub proof fn lemma_fixed64_round_trip(v: u64, rest: Seq<u8>)
    ensures
        le64(v).len() == 8,
        fixed64_field(WIRE_SIXTY_FOUR_BIT, le64(v) + rest) == Ok::<(u64, nat), Seq<char>>((v, 8)),
{
    crate::bytes::lemma_be64_round_trip(v, Seq::empty());
    assert((le64(v) + rest).take(8).reverse() =~= be64(v) + Seq::<u8>::empty());
}

} // verus!
