//! TLV framing: `u8` tag, varint length (at most 28 bits), raw value bytes.
//!
//! A payload is a run of records. [`parse_records`] says which records a
//! payload spells, and [`encode_record`] which bytes spell a record.

use std::collections::HashMap;
use vstd::prelude::*;
use vstd::slice::*;
use vstd::string::*;
use vstd::utf8::*;

use crate::bytes::{self, append_bytes, be_uint, u32_be, u64_be};
use crate::text::{self, push_decimal, push_hex_byte};

verus! {

// The tag space of the call mediator. It is kept apart from the tag spaces of
// the sister protocols, so that a stray message does not parse into something
// meaningful.
pub const TAG_SESSION_ID: u8 = 0x01;

pub const TAG_PUBKEY: u8 = 0x02;

pub const TAG_SIGNATURE: u8 = 0x03;

pub const TAG_DISPLAY_NAME: u8 = 0x04;

pub const TAG_MODE: u8 = 0x05;

/// AAC AudioSpecificConfig bytes.
pub const TAG_AUDIO_CONFIG: u8 = 0x06;

pub const TAG_SAMPLE_RATE: u8 = 0x07;

pub const TAG_CHANNELS: u8 = 0x08;

/// Nested TLV.
pub const TAG_PARTICIPANT: u8 = 0x09;

pub const TAG_EVENT_TYPE: u8 = 0x0A;

pub const TAG_ERROR_CODE: u8 = 0x0B;

pub const TAG_ERROR_MSG: u8 = 0x0C;

pub const TAG_CREATED_AT: u8 = 0x0D;

pub const TAG_JOINED_AT: u8 = 0x0E;

/// Permanent Ed25519 identity key that a client advertises when it joins. The
/// control stream authenticates with the client's ephemeral routing key; this
/// tag lets the server key sessions by the stable identity, which is what the
/// media datagrams carry.
pub const TAG_IDENTITY_PUBKEY: u8 = 0x0F;

/// One value per tag: the last one of the payload.
pub type TlvMap = HashMap<u8, Vec<u8>>;

/// All values of each tag, in the order of the payload.
pub type TlvMultiMap = HashMap<u8, Vec<Vec<u8>>>;

/// Why a payload cannot be written or read.
#[derive(Clone, Copy, Debug, PartialEq, Eq, Structural)]
pub enum TlvError {
    /// The payload ends inside a varint.
    UnexpectedEnd,
    /// A varint takes more than four bytes.
    VarintOverflow,
    /// The value of `tag` would take `length` bytes, more than are left.
    OutOfBounds { tag: u8, length: u32 },
}

impl TlvError {
    /// The text of the error.
    pub open spec fn text(self) -> Seq<char> {
        match self {
            TlvError::UnexpectedEnd => "varint: unexpected end"@,
            TlvError::VarintOverflow => "varint overflow"@,
            TlvError::OutOfBounds { tag, length } => "tag 0x"@ + text::hex_byte(tag) + " length "@
                + text::decimal(length as nat) + " exceeds payload bounds"@,
        }
    }

    /// The text of the error.
    pub fn message(&self) -> (r: String)
        ensures
            r@ == self.text(),
    {
        match self {
            TlvError::UnexpectedEnd => "varint: unexpected end".to_owned(),
            TlvError::VarintOverflow => "varint overflow".to_owned(),
            TlvError::OutOfBounds { tag, length } => {
                let mut s: String = "tag 0x".to_owned();
                push_hex_byte(&mut s, *tag);
                s.append(" length ");
                push_decimal(&mut s, *length as u64);
                s.append(" exceeds payload bounds");
                s
            },
        }
    }
}

// ── Varints ──────────────────────────────────────────────────────────────

/// One past the largest number that a varint can carry.
pub const VARINT_END: u32 = 0x1000_0000;

/// `v` in base 128, least significant digit first; every byte but the last has
/// its top bit set.
pub open spec fn varint_bytes(v: nat) -> Seq<u8>
    decreases v,
{
    if v < 128 {
        seq![v as u8]
    } else {
        seq![(v % 128 + 128) as u8] + varint_bytes(v / 128)
    }
}

/// The number that starts at `off`, of at most `room` bytes, and how many bytes
/// it takes.
pub open spec fn varint_at(s: Seq<u8>, off: int, room: nat) -> Result<(nat, nat), TlvError>
    decreases room,
{
    if room == 0 {
        Err(TlvError::VarintOverflow)
    } else if off >= s.len() {
        Err(TlvError::UnexpectedEnd)
    } else if s[off] < 128 {
        Ok((s[off] as nat, 1))
    } else {
        match varint_at(s, off + 1, (room - 1) as nat) {
            Ok((v, n)) => Ok(((s[off] - 128) as nat + 128 * v, n + 1)),
            Err(e) => Err(e),
        }
    }
}

/// Appends `value` as a varint. A number of more than 28 bits does not fit:
/// its first four bytes are written before the error comes.
pub fn write_varint(w: &mut Vec<u8>, value: u32) -> (r: Result<(), TlvError>)
    ensures
        value < VARINT_END ==> r == Ok::<(), TlvError>(()) && final(w)@ == old(w)@ + varint_bytes(
            value as nat,
        ),
        value >= VARINT_END ==> r == Err::<(), TlvError>(TlvError::VarintOverflow) && final(w)@
            == old(w)@ + varint_bytes(value as nat).take(4),
{
    let mut left: u32 = value;
    let mut i: usize = 0;
    let ghost all = varint_bytes(value as nat);
    proof {
        assert(all.take(0) =~= Seq::<u8>::empty());
        assert(all.skip(0) =~= all);
    }
    while i < 4
        invariant
            i <= 4,
            i <= all.len(),
            w@ == old(w)@ + all.take(i as int),
            all.skip(i as int) == varint_bytes(left as nat),
            all == varint_bytes(value as nat),
            i == 0 ==> left == value,
            i == 1 ==> left == value / 0x80,
            i == 2 ==> left == value / 0x4000,
            i == 3 ==> left == value / 0x20_0000,
            i == 4 ==> left == value / 0x1000_0000,
            i == 4 ==> left != 0,
        decreases 4 - i,
    {
        let low: u32 = left & 0x7F;
        let rest: u32 = left >> 7;
        proof {
            assert(low == left % 128) by (bit_vector)
                requires
                    low == left & 0x7F,
            ;
            assert(rest == left / 128) by (bit_vector)
                requires
                    rest == left >> 7,
            ;
            let tail = varint_bytes(left as nat);
            assert(tail == all.skip(i as int) && tail.len() > 0);
            assert(all[i as int] == tail[0]);
            assert(all.take(i + 1) =~= all.take(i as int).push(tail[0]));
            assert(all.skip(i + 1) =~= tail.skip(1));
        }
        if rest == 0 {
            w.push(low as u8);
            proof {
                assert(left < 128);
                assert(all.len() == i + 1);
                assert(all.take(i + 1) =~= all);
                assert(w@ =~= old(w)@ + all);
            }
            return Ok(());
        }
        let b: u8 = (low + 128) as u8;
        w.push(b);
        proof {
            assert(w@ =~= old(w)@ + all.take(i + 1));
            assert(all.skip(i + 1) =~= varint_bytes((left / 128) as nat));
        }
        left = rest;
        i = i + 1;
    }
    Err(TlvError::VarintOverflow)
}

/// Reads the varint at `offset`: the number and how many bytes it takes.
pub fn read_varint_from_bytes(data: &[u8], offset: usize) -> (r: Result<(u32, usize), TlvError>)
    ensures
        match r {
            Ok((v, n)) => varint_at(data@, offset as int, 4) == Ok::<(nat, nat), TlvError>(
                (v as nat, n as nat),
            ),
            Err(e) => varint_at(data@, offset as int, 4) == Err::<(nat, nat), TlvError>(e),
        },
{
    read_varint_within(data, offset, 4)
}

/// Reads a varint of at most `room` bytes at `offset`.
fn read_varint_within(data: &[u8], offset: usize, room: u8) -> (r: Result<(u32, usize), TlvError>)
    requires
        room <= 4,
    ensures
        match r {
            Ok((v, n)) => varint_at(data@, offset as int, room as nat) == Ok::<
                (nat, nat),
                TlvError,
            >((v as nat, n as nat)) && 1 <= n <= room && offset + n <= data@.len() && match room {
                1 => v < 0x80,
                2 => v < 0x4000,
                3 => v < 0x20_0000,
                _ => v < 0x1000_0000,
            },
            Err(e) => varint_at(data@, offset as int, room as nat) == Err::<(nat, nat), TlvError>(
                e,
            ),
        },
    decreases room,
{
    if room == 0 {
        return Err(TlvError::VarintOverflow);
    }
    if offset >= data.len() {
        return Err(TlvError::UnexpectedEnd);
    }
    let b: u8 = data[offset];
    if b < 128 {
        return Ok((b as u32, 1));
    }
    match read_varint_within(data, offset + 1, room - 1) {
        Ok((v, n)) => Ok(((b - 128) as u32 + 128 * v, n + 1)),
        Err(e) => Err(e),
    }
}

// ── Records ──────────────────────────────────────────────────────────────

/// A tag and its value.
pub type Record = (u8, Seq<u8>);

/// The records that a payload spells, in order, or the first error in it.
pub open spec fn parse_records(s: Seq<u8>) -> Result<Seq<Record>, TlvError>
    decreases s.len(),
{
    if s.len() == 0 {
        Ok(Seq::empty())
    } else {
        match varint_at(s, 1, 4) {
            Err(e) => Err(e),
            Ok((length, used)) => if 1 + used + length > s.len() {
                Err(TlvError::OutOfBounds { tag: s[0], length: length as u32 })
            } else {
                match parse_records(s.skip((1 + used + length) as int)) {
                    Err(e) => Err(e),
                    Ok(rest) => Ok(
                        seq![(s[0], s.subrange((1 + used) as int, (1 + used + length) as int))]
                            + rest,
                    ),
                }
            },
        }
    }
}

/// The value that counts for each tag: the last one.
pub open spec fn last_values(records: Seq<Record>) -> Map<u8, Seq<u8>>
    decreases records.len(),
{
    if records.len() == 0 {
        Map::empty()
    } else {
        last_values(records.drop_last()).insert(records.last().0, records.last().1)
    }
}

/// The values of `tag`, in order.
pub open spec fn values_of(records: Seq<Record>, tag: u8) -> Seq<Seq<u8>>
    decreases records.len(),
{
    if records.len() == 0 {
        Seq::empty()
    } else if records.last().0 == tag {
        values_of(records.drop_last(), tag).push(records.last().1)
    } else {
        values_of(records.drop_last(), tag)
    }
}

/// What a [`TlvMap`] holds.
pub open spec fn map_view(m: TlvMap) -> Map<u8, Seq<u8>> {
    m@.map_values(|v: Vec<u8>| v@)
}

/// What a [`TlvMultiMap`] holds under `tag`: nothing where the tag is absent.
pub open spec fn multi_view(m: TlvMultiMap, tag: u8) -> Seq<Seq<u8>> {
    if m@.contains_key(tag) {
        m@[tag]@.map_values(|v: Vec<u8>| v@)
    } else {
        Seq::empty()
    }
}

/// The parse of a payload whose first records are known.
pub open spec fn with_front(front: Seq<Record>, rest: Result<Seq<Record>, TlvError>) -> Result<
    Seq<Record>,
    TlvError,
> {
    match rest {
        Ok(r) => Ok(front + r),
        Err(e) => Err(e),
    }
}

/// Reads one record at `offset`: the tag, the bounds of the value.
fn read_record(payload: &[u8], offset: usize) -> (r: Result<(u8, usize, usize), TlvError>)
    requires
        offset < payload@.len(),
    ensures
        ({
            let s = payload@.skip(offset as int);
            match r {
                Err(e) => parse_records(s) == Err::<Seq<Record>, TlvError>(e),
                Ok((tag, from, to)) => {
                    &&& offset < from <= to <= payload@.len()
                    &&& parse_records(s) == with_front(
                        seq![(tag, payload@.subrange(from as int, to as int))],
                        parse_records(payload@.skip(to as int)),
                    )
                },
            }
        }),
{
    let ghost s = payload@.skip(offset as int);
    let tag: u8 = payload[offset];
    proof {
        lemma_varint_shift(payload@, offset as int, 1, 4);
    }
    let (length, used): (u32, usize) = match read_varint_within(payload, offset + 1, 4) {
        Ok(v) => v,
        Err(e) => {
            return Err(e);
        },
    };
    let from: usize = offset + 1 + used;
    if length as usize > payload.len() - from {
        return Err(TlvError::OutOfBounds { tag, length });
    }
    let to: usize = from + length as usize;
    proof {
        assert(s.skip(1 + used + length) =~= payload@.skip(to as int));
        assert(s.subrange(1 + used, 1 + used + length) =~= payload@.subrange(
            from as int,
            to as int,
        ));
    }
    Ok((tag, from, to))
}

/// A varint reads the same wherever its bytes stand.
proof fn lemma_varint_shift(s: Seq<u8>, off: int, i: int, room: nat)
    requires
        0 <= off <= s.len(),
        0 <= i,
    ensures
        varint_at(s, off + i, room) == varint_at(s.skip(off), i, room),
    decreases room,
{
    if room > 0 && off + i < s.len() {
        lemma_varint_shift(s, off, i + 1, (room - 1) as nat);
    }
}

/// Reads a payload. Where a tag occurs more than once, the last value stands.
pub fn parse_tlvs(payload: &[u8]) -> (r: Result<TlvMap, TlvError>)
    ensures
        match r {
            Ok(m) => parse_records(payload@) is Ok && map_view(m) == last_values(
                parse_records(payload@)->Ok_0,
            ),
            Err(e) => parse_records(payload@) == Err::<Seq<Record>, TlvError>(e),
        },
{
    let mut result: TlvMap = HashMap::new();
    let mut offset: usize = 0;
    let ghost mut front: Seq<Record> = Seq::empty();
    proof {
        assert(payload@.skip(0) =~= payload@);
        lemma_empty_front(parse_records(payload@));
        assert(map_view(result) =~= last_values(front));
    }
    while offset < payload.len()
        invariant
            offset <= payload@.len(),
            parse_records(payload@) == with_front(
                front,
                parse_records(payload@.skip(offset as int)),
            ),
            map_view(result) == last_values(front),
        decreases payload@.len() - offset,
    {
        let (tag, from, to): (u8, usize, usize) = match read_record(payload, offset) {
            Ok(v) => v,
            Err(e) => {
                return Err(e);
            },
        };
        let value: Vec<u8> = slice_to_vec(slice_subrange(payload, from, to));
        let ghost record: Record = (tag, value@);
        result.insert(tag, value);
        proof {
            lemma_front_push(front, record, parse_records(payload@.skip(to as int)));
            assert(front.push(record).drop_last() =~= front);
            assert(map_view(result) =~= last_values(front.push(record)));
            front = front.push(record);
        }
        offset = to;
    }
    proof {
        assert(payload@.skip(offset as int).len() == 0);
        assert(front + Seq::<Record>::empty() =~= front);
    }
    Ok(result)
}

proof fn lemma_empty_front(rest: Result<Seq<Record>, TlvError>)
    ensures
        with_front(Seq::empty(), rest) == rest,
{
    if rest is Ok {
        assert(Seq::<Record>::empty() + rest->Ok_0 =~= rest->Ok_0);
    }
}

proof fn lemma_front_push(
    front: Seq<Record>,
    record: Record,
    rest: Result<Seq<Record>, TlvError>,
)
    ensures
        with_front(front, with_front(seq![record], rest)) == with_front(front.push(record), rest),
{
    if rest is Ok {
        assert(front + (seq![record] + rest->Ok_0) =~= front.push(record) + rest->Ok_0);
    }
}

/// Reads a payload and keeps every value of every tag.
pub fn parse_tlvs_multi(payload: &[u8]) -> (r: Result<TlvMultiMap, TlvError>)
    ensures
        match r {
            Ok(m) => {
                &&& parse_records(payload@) is Ok
                &&& forall|tag: u8|
                    #![trigger multi_view(m, tag)]
                    multi_view(m, tag) == values_of(parse_records(payload@)->Ok_0, tag)
                &&& forall|tag: u8| #[trigger]
                    m@.contains_key(tag) ==> multi_view(m, tag).len() > 0
            },
            Err(e) => parse_records(payload@) == Err::<Seq<Record>, TlvError>(e),
        },
{
    let mut result: TlvMultiMap = HashMap::new();
    let mut offset: usize = 0;
    let ghost mut front: Seq<Record> = Seq::empty();
    proof {
        assert(payload@.skip(0) =~= payload@);
        lemma_empty_front(parse_records(payload@));
    }
    while offset < payload.len()
        invariant
            offset <= payload@.len(),
            parse_records(payload@) == with_front(
                front,
                parse_records(payload@.skip(offset as int)),
            ),
            forall|tag: u8|
                #![trigger multi_view(result, tag)]
                multi_view(result, tag) == values_of(front, tag),
            forall|tag: u8| #[trigger]
                result@.contains_key(tag) ==> multi_view(result, tag).len() > 0,
        decreases payload@.len() - offset,
    {
        let (tag, from, to): (u8, usize, usize) = match read_record(payload, offset) {
            Ok(v) => v,
            Err(e) => {
                return Err(e);
            },
        };
        let value: Vec<u8> = slice_to_vec(slice_subrange(payload, from, to));
        let ghost record: Record = (tag, value@);
        let ghost before = result;
        let mut values: Vec<Vec<u8>> = match result.remove(&tag) {
            Some(vs) => vs,
            None => Vec::new(),
        };
        let ghost held = values@;
        values.push(value);
        result.insert(tag, values);
        proof {
            lemma_front_push(front, record, parse_records(payload@.skip(to as int)));
            assert(front.push(record).drop_last() =~= front);
            assert forall|t: u8| #![trigger multi_view(result, t)] multi_view(result, t)
                == values_of(front.push(record), t) by {
                assert(multi_view(before, t) == values_of(front, t));
                if t == tag {
                    assert(multi_view(result, t) =~= multi_view(before, t).push(value@));
                } else {
                    assert(multi_view(result, t) == multi_view(before, t));
                }
            }
            assert forall|t: u8| #[trigger] result@.contains_key(t) implies multi_view(
                result,
                t,
            ).len() > 0 by {
                if t != tag {
                    assert(before@.contains_key(t));
                    assert(multi_view(result, t) == multi_view(before, t));
                }
            }
            front = front.push(record);
        }
        offset = to;
    }
    proof {
        assert(payload@.skip(offset as int).len() == 0);
        assert(front + Seq::<Record>::empty() =~= front);
    }
    Ok(result)
}

// ── Getters ──────────────────────────────────────────────────────────────

/// The complaint about a tag that is not there.
pub open spec fn missing_text(tag: u8) -> Seq<char> {
    "missing tag 0x"@ + text::hex_byte(tag)
}

/// The complaint about a value of the wrong length.
pub open spec fn length_text(tag: u8, expected: nat, got: nat) -> Seq<char> {
    "tag 0x"@ + text::hex_byte(tag) + ": expected "@ + text::decimal(expected) + " bytes, got "@
        + text::decimal(got)
}

/// The value of `tag`, of `expected` bytes, or of any length where `expected`
/// is zero.
pub open spec fn get_bytes(m: Map<u8, Seq<u8>>, tag: u8, expected: nat) -> Result<
    Seq<u8>,
    Seq<char>,
> {
    if !m.contains_key(tag) {
        Err(missing_text(tag))
    } else if expected > 0 && m[tag].len() != expected {
        Err(length_text(tag, expected, m[tag].len()))
    } else {
        Ok(m[tag])
    }
}

/// The number of `n` bytes under `tag`.
pub open spec fn get_number(m: Map<u8, Seq<u8>>, tag: u8, n: nat) -> Result<nat, Seq<char>> {
    match get_bytes(m, tag, n) {
        Ok(v) => Ok(bytes::be_value(v)),
        Err(e) => Err(e),
    }
}

/// What std says about bytes that are not UTF-8.
pub uninterp spec fn utf8_error_text(s: Seq<u8>) -> Seq<char>;

/// The text under `tag`.
pub open spec fn get_text(m: Map<u8, Seq<u8>>, tag: u8) -> Result<Seq<char>, Seq<char>> {
    if !m.contains_key(tag) {
        Err(missing_text(tag))
    } else if !valid_utf8(m[tag]) {
        Err(
            "tag 0x"@ + text::hex_byte(tag) + ": invalid utf8: "@ + utf8_error_text(m[tag]),
        )
    } else {
        Ok(decode_utf8(m[tag]))
    }
}

fn missing_message(tag: u8) -> (r: String)
    ensures
        r@ == missing_text(tag),
{
    let mut s: String = "missing tag 0x".to_owned();
    push_hex_byte(&mut s, tag);
    s
}

/// The value of `tag`. It must have `expected` bytes, unless `expected` is zero.
pub fn tlv_get_bytes<'a>(m: &'a TlvMap, tag: u8, expected: usize) -> (r: Result<&'a [u8], String>)
    ensures
        match r {
            Ok(v) => get_bytes(map_view(*m), tag, expected as nat) == Ok::<Seq<u8>, Seq<char>>(v@),
            Err(e) => get_bytes(map_view(*m), tag, expected as nat) == Err::<Seq<u8>, Seq<char>>(
                e@,
            ),
        },
{
    match m.get(&tag) {
        None => Err(missing_message(tag)),
        Some(v) => {
            if expected > 0 && v.len() != expected {
                let mut s: String = "tag 0x".to_owned();
                push_hex_byte(&mut s, tag);
                s.append(": expected ");
                push_decimal(&mut s, expected as u64);
                s.append(" bytes, got ");
                push_decimal(&mut s, v.len() as u64);
                Err(s)
            } else {
                Ok(v.as_slice())
            }
        },
    }
}

/// The byte under `tag`.
pub fn tlv_get_u8(m: &TlvMap, tag: u8) -> (r: Result<u8, String>)
    ensures
        match r {
            Ok(v) => get_number(map_view(*m), tag, 1) == Ok::<nat, Seq<char>>(v as nat),
            Err(e) => get_number(map_view(*m), tag, 1) == Err::<nat, Seq<char>>(e@),
        },
{
    match tlv_get_bytes(m, tag, 1) {
        Ok(v) => {
            proof {
                reveal_with_fuel(bytes::be_value, 2);
            }
            Ok(v[0])
        },
        Err(e) => Err(e),
    }
}

/// The big-endian `u32` under `tag`.
pub fn tlv_get_u32(m: &TlvMap, tag: u8) -> (r: Result<u32, String>)
    ensures
        match r {
            Ok(v) => get_number(map_view(*m), tag, 4) == Ok::<nat, Seq<char>>(v as nat),
            Err(e) => get_number(map_view(*m), tag, 4) == Err::<nat, Seq<char>>(e@),
        },
{
    match tlv_get_bytes(m, tag, 4) {
        Ok(v) => {
            proof {
                bytes::be_roundtrip_back(v@);
                reveal_with_fuel(bytes::pow256, 5);
            }
            Ok(be_uint(v) as u32)
        },
        Err(e) => Err(e),
    }
}

/// The big-endian `u64` under `tag`.
pub fn tlv_get_u64(m: &TlvMap, tag: u8) -> (r: Result<u64, String>)
    ensures
        match r {
            Ok(v) => get_number(map_view(*m), tag, 8) == Ok::<nat, Seq<char>>(v as nat),
            Err(e) => get_number(map_view(*m), tag, 8) == Err::<nat, Seq<char>>(e@),
        },
{
    match tlv_get_bytes(m, tag, 8) {
        Ok(v) => Ok(be_uint(v)),
        Err(e) => Err(e),
    }
}

/// `String::from_utf8` of std, with the error in words. It succeeds on valid
/// UTF-8 and only there, and then gives the text that the bytes encode. The
/// words depend on the bytes alone.
#[verifier::external_body]
fn utf8_text(v: Vec<u8>) -> (r: Result<String, String>)
    ensures
        match r {
            Ok(s) => valid_utf8(v@) && s@ == decode_utf8(v@),
            Err(e) => !valid_utf8(v@) && e@ == utf8_error_text(v@),
        },
{
    String::from_utf8(v).map_err(|e| e.to_string())
}

/// The text under `tag`.
pub fn tlv_get_string(m: &TlvMap, tag: u8) -> (r: Result<String, String>)
    ensures
        match r {
            Ok(s) => get_text(map_view(*m), tag) == Ok::<Seq<char>, Seq<char>>(s@),
            Err(e) => get_text(map_view(*m), tag) == Err::<Seq<char>, Seq<char>>(e@),
        },
{
    match m.get(&tag) {
        None => Err(missing_message(tag)),
        Some(v) => {
            match utf8_text(slice_to_vec(v.as_slice())) {
                Ok(s) => Ok(s),
                Err(e) => {
                    let mut s: String = "tag 0x".to_owned();
                    push_hex_byte(&mut s, tag);
                    s.append(": invalid utf8: ");
                    s.append(e.as_str());
                    Err(s)
                },
            }
        },
    }
}

// ── Encoders ─────────────────────────────────────────────────────────────

/// Whether a value can be written: whether its length fits in a varint.
pub open spec fn writable(value: Seq<u8>) -> bool {
    value.len() < VARINT_END
}

/// The bytes of one record.
pub open spec fn encode_record(tag: u8, value: Seq<u8>) -> Seq<u8> {
    seq![tag] + varint_bytes(value.len()) + value
}

/// The bytes of a run of records.
pub open spec fn encode_records(records: Seq<Record>) -> Seq<u8>
    decreases records.len(),
{
    if records.len() == 0 {
        Seq::empty()
    } else {
        encode_records(records.drop_last()) + encode_record(records.last().0, records.last().1)
    }
}

/// Whether every value of a run of records can be written.
pub open spec fn all_writable(records: Seq<Record>) -> bool {
    forall|i: int| 0 <= i < records.len() ==> writable((#[trigger] records[i]).1)
}

/// The payload that holds `records`; it is empty where one of them cannot be
/// written.
pub open spec fn payload(records: Seq<Record>) -> Seq<u8> {
    if all_writable(records) {
        encode_records(records)
    } else {
        Seq::empty()
    }
}

/// One more record: its bytes come after those of the others.
pub(crate) proof fn lemma_encode_push(records: Seq<Record>, r: Record)
    ensures
        encode_records(records.push(r)) == encode_records(records) + encode_record(r.0, r.1),
        all_writable(records.push(r)) <==> all_writable(records) && writable(r.1),
{
    let all = records.push(r);
    assert(all.drop_last() =~= records);
    if all_writable(all) {
        assert(writable(all[records.len() as int].1));
        assert forall|i: int| 0 <= i < records.len() implies writable(
            (#[trigger] records[i]).1,
        ) by {
            assert(all[i] == records[i]);
        }
    }
}

/// One more record: its value is the one that counts for its tag.
pub(crate) proof fn lemma_last_push(records: Seq<Record>, r: Record)
    ensures
        last_values(records.push(r)) == last_values(records).insert(r.0, r.1),
{
    assert(records.push(r).drop_last() =~= records);
}

/// What one write of a record does to a buffer.
pub open spec fn record_written(
    before: Seq<u8>,
    after: Seq<u8>,
    tag: u8,
    value: Seq<u8>,
    r: Result<(), TlvError>,
) -> bool {
    if writable(value) {
        r == Ok::<(), TlvError>(()) && after == before + encode_record(tag, value)
    } else {
        r == Err::<(), TlvError>(TlvError::VarintOverflow) && after == before + (seq![tag]
            + varint_bytes(value.len()).take(4))
    }
}

/// The first four bytes of a number that does not fit in a varint depend on its
/// last 28 bits alone.
proof fn lemma_varint_start(v: nat)
    requires
        v >= VARINT_END,
    ensures
        varint_bytes(v).len() > 4,
        varint_bytes(v % 0x1000_0000 + 0x1000_0000).take(4) == varint_bytes(v).take(4),
{
    let u = v % 0x1000_0000 + 0x1000_0000;
    reveal_with_fuel(varint_bytes, 5);
    assert(u % 128 == v % 128);
    assert((u / 128) % 128 == (v / 128) % 128);
    assert((u / 128 / 128) % 128 == (v / 128 / 128) % 128);
    assert((u / 128 / 128 / 128) % 128 == (v / 128 / 128 / 128) % 128);
    assert(varint_bytes(u).take(4) =~= varint_bytes(v).take(4));
}

/// Appends one record. Where the length does not fit in a varint, the value is
/// refused: the tag and four bytes of the length are written before the error
/// comes, and nothing of the value.
pub fn write_tlv(w: &mut Vec<u8>, tag: u8, value: &[u8]) -> (r: Result<(), TlvError>)
    ensures
        record_written(old(w)@, final(w)@, tag, value@, r),
{
    w.push(tag);
    let n: u64 = value.len() as u64;
    let length: u32 = if n < VARINT_END as u64 {
        n as u32
    } else {
        proof {
            lemma_varint_start(n as nat);
        }
        (n % 0x1000_0000 + 0x1000_0000) as u32
    };
    match write_varint(w, length) {
        Err(e) => {
            assert(w@ =~= old(w)@ + (seq![tag] + varint_bytes(value@.len()).take(4)));
            Err(e)
        },
        Ok(_) => {
            append_bytes(w, value);
            assert(w@ =~= old(w)@ + encode_record(tag, value@));
            Ok(())
        },
    }
}

/// Appends a record that holds `v`.
pub fn tlv_encode_bytes(w: &mut Vec<u8>, tag: u8, v: &[u8]) -> (r: Result<(), TlvError>)
    ensures
        record_written(old(w)@, final(w)@, tag, v@, r),
{
    write_tlv(w, tag, v)
}

/// Appends a record that holds one byte.
pub fn tlv_encode_u8(w: &mut Vec<u8>, tag: u8, v: u8) -> (r: Result<(), TlvError>)
    ensures
        r is Ok,
        final(w)@ == old(w)@ + encode_record(tag, seq![v]),
{
    let value: [u8; 1] = [v];
    assert(value@ =~= seq![v]);
    write_tlv(w, tag, &value)
}

/// Appends a record that holds a big-endian `u32`.
pub fn tlv_encode_u32(w: &mut Vec<u8>, tag: u8, v: u32) -> (r: Result<(), TlvError>)
    ensures
        r is Ok,
        final(w)@ == old(w)@ + encode_record(tag, bytes::be_bytes(v as nat, 4)),
{
    write_tlv(w, tag, &u32_be(v))
}

/// Appends a record that holds a big-endian `u64`.
pub fn tlv_encode_u64(w: &mut Vec<u8>, tag: u8, v: u64) -> (r: Result<(), TlvError>)
    ensures
        r is Ok,
        final(w)@ == old(w)@ + encode_record(tag, bytes::be_bytes(v as nat, 8)),
{
    write_tlv(w, tag, &u64_be(v))
}

/// Appends a record that holds the UTF-8 form of `v`.
pub fn tlv_encode_string(w: &mut Vec<u8>, tag: u8, v: &str) -> (r: Result<(), TlvError>)
    ensures
        record_written(old(w)@, final(w)@, tag, encode_utf8(v@), r),
{
    write_tlv(w, tag, v.as_bytes())
}

/// Runs `build` on an empty buffer and hands the buffer out.
pub fn build_tlv_payload<F>(build: F) -> (r: Result<Vec<u8>, TlvError>) where
    F: FnOnce(&mut Vec<u8>) -> Result<(), TlvError>,

    requires
        forall|w: &mut Vec<u8>| w@.len() == 0 ==> #[trigger] call_requires(build, (w,)),
    ensures
        exists|w: &mut Vec<u8>, o: Result<(), TlvError>|
            {
                &&& #[trigger] call_ensures(build, (w,), o)
                &&& w@.len() == 0
                &&& match o {
                    Ok(_) => r is Ok && r->Ok_0@ == final(w)@,
                    Err(e) => r == Err::<Vec<u8>, TlvError>(e),
                }
            },
{
    let mut buf: Vec<u8> = Vec::new();
    match build(&mut buf) {
        Ok(_) => Ok(buf),
        Err(e) => Err(e),
    }
}

// ── Laws ─────────────────────────────────────────────────────────────────

/// One past the largest number that a varint of `room` bytes can carry.
pub open spec fn varint_limit(room: nat) -> nat
    decreases room,
{
    if room == 0 {
        1
    } else {
        128 * varint_limit((room - 1) as nat)
    }
}

/// A varint that was written reads back, wherever it stands in the data and
/// whatever follows it.
pub proof fn varint_roundtrip(s: Seq<u8>, off: int, v: nat, room: nat)
    requires
        v < varint_limit(room),
        0 < room,
        0 <= off,
        off + varint_bytes(v).len() <= s.len(),
        s.subrange(off, off + varint_bytes(v).len()) == varint_bytes(v),
    ensures
        varint_at(s, off, room) == Ok::<(nat, nat), TlvError>((v, varint_bytes(v).len())),
        1 <= varint_bytes(v).len() <= room,
    decreases room,
{
    let b = varint_bytes(v);
    assert(s[off] == s.subrange(off, off + b.len())[0]);
    if v >= 128 {
        assert(room > 1) by {
            reveal_with_fuel(varint_limit, 2);
        }
        let tail = varint_bytes(v / 128);
        assert(s.subrange(off + 1, off + 1 + tail.len()) =~= s.subrange(
            off,
            off + b.len(),
        ).skip(1));
        assert(b.skip(1) =~= tail);
        varint_roundtrip(s, off + 1, v / 128, (room - 1) as nat);
    }
}

/// A varint that reads from a prefix of the data reads the same from all of it.
proof fn lemma_varint_prefix(a: Seq<u8>, b: Seq<u8>, off: int, room: nat)
    requires
        0 <= off,
        varint_at(a, off, room) is Ok,
    ensures
        varint_at(a + b, off, room) == varint_at(a, off, room),
    decreases room,
{
    if a[off] >= 128 {
        lemma_varint_prefix(a, b, off + 1, (room - 1) as nat);
    }
}

/// Payloads join: where `a` is a whole payload, the records of `a + b` are
/// those of `a` and then those of `b`, and an error in `b` is the error of the
/// whole.
pub proof fn parse_joins(a: Seq<u8>, b: Seq<u8>)
    requires
        parse_records(a) is Ok,
    ensures
        parse_records(a + b) == with_front(parse_records(a)->Ok_0, parse_records(b)),
    decreases a.len(),
{
    if a.len() == 0 {
        assert(a + b =~= b);
        lemma_empty_front(parse_records(b));
    } else {
        lemma_varint_prefix(a, b, 1, 4);
        let (length, used) = varint_at(a, 1, 4)->Ok_0;
        let end = (1 + used + length) as int;
        let rest = a.skip(end);
        parse_joins(rest, b);
        assert((a + b).skip(end) =~= rest + b);
        assert((a + b).subrange((1 + used) as int, end) =~= a.subrange((1 + used) as int, end));
        if parse_records(b) is Ok {
            let head = seq![(a[0], a.subrange((1 + used) as int, end))];
            assert((head + parse_records(rest)->Ok_0) + parse_records(b)->Ok_0 =~= head + (
            parse_records(rest)->Ok_0 + parse_records(b)->Ok_0));
        }
    }
}

/// One record that was written reads back.
pub proof fn record_roundtrip(tag: u8, value: Seq<u8>)
    requires
        writable(value),
    ensures
        parse_records(encode_record(tag, value)) == Ok::<Seq<Record>, TlvError>(
            seq![(tag, value)],
        ),
{
    let s = encode_record(tag, value);
    let b = varint_bytes(value.len());
    reveal_with_fuel(varint_limit, 5);
    assert(s.subrange(1, 1 + b.len() as int) =~= b);
    varint_roundtrip(s, 1, value.len(), 4);
    let from = (1 + b.len()) as int;
    let end = from + value.len();
    assert(s.skip(end) =~= Seq::<u8>::empty());
    assert(parse_records(s.skip(end)) == Ok::<Seq<Record>, TlvError>(Seq::empty()));
    assert(s.subrange(from, end) =~= value);
    assert(seq![(tag, value)] + Seq::<Record>::empty() =~= seq![(tag, value)]);
    assert(s[0] == tag);
}

/// What a read gives back of a write: the records of a written payload are
/// those that were written, in their order.
pub proof fn records_roundtrip(records: Seq<Record>)
    requires
        all_writable(records),
    ensures
        parse_records(encode_records(records)) == Ok::<Seq<Record>, TlvError>(records),
    decreases records.len(),
{
    if records.len() == 0 {
        assert(records =~= Seq::<Record>::empty());
    } else {
        let front = records.drop_last();
        let (tag, value) = records.last();
        assert forall|i: int| 0 <= i < front.len() implies writable((#[trigger] front[i]).1) by {
            assert(front[i] == records[i]);
        }
        records_roundtrip(front);
        assert(writable(records[records.len() - 1].1));
        record_roundtrip(tag, value);
        parse_joins(encode_records(front), encode_record(tag, value));
        assert(front + seq![(tag, value)] =~= records);
    }
}

/// The two readings of a payload agree: a tag is in the single-valued reading
/// exactly where the other one has a value for it, and the value is the last.
pub proof fn single_is_last_of_multi(records: Seq<Record>, tag: u8)
    ensures
        last_values(records).contains_key(tag) <==> values_of(records, tag).len() > 0,
        last_values(records).contains_key(tag) ==> last_values(records)[tag] == values_of(
            records,
            tag,
        ).last(),
    decreases records.len(),
{
    if records.len() > 0 {
        single_is_last_of_multi(records.drop_last(), tag);
    }
}

/// A number that was written last under a tag is what a read of the tag gives.
pub proof fn number_roundtrip(records: Seq<Record>, tag: u8, v: nat, n: nat)
    requires
        0 < n,
        v < bytes::pow256(n),
    ensures
        get_number(last_values(records.push((tag, bytes::be_bytes(v, n)))), tag, n) == Ok::<
            nat,
            Seq<char>,
        >(v),
{
    bytes::be_roundtrip(v, n);
    assert(records.push((tag, bytes::be_bytes(v, n))).drop_last() =~= records);
}

/// A text that was written last under a tag is what a read of the tag gives.
pub proof fn text_roundtrip(records: Seq<Record>, tag: u8, s: Seq<char>)
    ensures
        get_text(last_values(records.push((tag, encode_utf8(s)))), tag) == Ok::<
            Seq<char>,
            Seq<char>,
        >(s),
{
    encode_utf8_valid_utf8(s);
    encode_utf8_decode_utf8(s);
    assert(records.push((tag, encode_utf8(s))).drop_last() =~= records);
}

} // verus!
