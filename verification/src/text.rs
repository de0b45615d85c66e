//! Text: decimal and hexadecimal numbers, and white space.

use vstd::prelude::*;
use vstd::string::*;
use vstd::utf8::*;

verus! {

/// The digit of value `d`, upper case from ten on.
pub open spec fn digit_upper(d: int) -> char {
    if d < 10 {
        (48 + d) as char
    } else {
        (55 + d) as char
    }
}

/// The digit of value `d`, lower case from ten on.
pub open spec fn digit_lower(d: int) -> char {
    if d < 10 {
        (48 + d) as char
    } else {
        (87 + d) as char
    }
}

/// Two upper-case hexadecimal digits.
pub open spec fn hex_byte(b: u8) -> Seq<char> {
    seq![digit_upper(b as int / 16), digit_upper(b as int % 16)]
}

/// `n` in decimal, without leading zeros.
pub open spec fn decimal(n: nat) -> Seq<char>
    decreases n,
{
    if n < 10 {
        seq![digit_upper(n as int)]
    } else {
        decimal(n / 10).push(digit_upper((n % 10) as int))
    }
}

/// Two lower-case hexadecimal digits for each byte, in order.
pub open spec fn hex_lower(s: Seq<u8>) -> Seq<char> {
    Seq::new(
        2 * s.len(),
        |i: int|
            digit_lower(
                if i % 2 == 0 {
                    s[i / 2] as int / 16
                } else {
                    s[i / 2] as int % 16
                },
            ),
    )
}

fn digit_text(d: u8) -> (r: &'static str)
    requires
        d < 16,
    ensures
        r@ == seq![digit_upper(d as int)],
{
    proof {
        reveal_strlit("0");
        reveal_strlit("1");
        reveal_strlit("2");
        reveal_strlit("3");
        reveal_strlit("4");
        reveal_strlit("5");
        reveal_strlit("6");
        reveal_strlit("7");
        reveal_strlit("8");
        reveal_strlit("9");
        reveal_strlit("A");
        reveal_strlit("B");
        reveal_strlit("C");
        reveal_strlit("D");
        reveal_strlit("E");
        reveal_strlit("F");
    }
    let r: &'static str = match d {
        0 => "0",
        1 => "1",
        2 => "2",
        3 => "3",
        4 => "4",
        5 => "5",
        6 => "6",
        7 => "7",
        8 => "8",
        9 => "9",
        10 => "A",
        11 => "B",
        12 => "C",
        13 => "D",
        14 => "E",
        _ => "F",
    };
    assert(r@ =~= seq![digit_upper(d as int)]);
    r
}

/// Appends the two hexadecimal digits of `b`.
pub(crate) fn push_hex_byte(s: &mut String, b: u8)
    ensures
        final(s)@ == old(s)@ + hex_byte(b),
{
    s.append(digit_text(b / 16));
    s.append(digit_text(b % 16));
    assert(s@ =~= old(s)@ + hex_byte(b));
}

/// Appends `n` in decimal.
pub(crate) fn push_decimal(s: &mut String, n: u64)
    ensures
        final(s)@ == old(s)@ + decimal(n as nat),
    decreases n,
{
    if n >= 10 {
        push_decimal(s, n / 10);
    }
    s.append(digit_text((n % 10) as u8));
    assert(s@ =~= old(s)@ + decimal(n as nat));
}

/// `hex::encode`: two lower-case hexadecimal digits for each byte, high half
/// first.
#[verifier::external_body]
pub(crate) fn hex_encode(s: &[u8]) -> (r: String)
    requires
        2 * s@.len() <= isize::MAX,
    ensures
        r@ == hex_lower(s@),
{
    hex::encode(s)
}

// ── Reading hexadecimal text ─────────────────────────────────────────────

/// Whether `b` is a hexadecimal digit, of either case.
pub open spec fn is_hex_digit(b: u8) -> bool {
    48 <= b <= 57 || 65 <= b <= 70 || 97 <= b <= 102
}

/// The value of a hexadecimal digit.
pub open spec fn hex_digit(b: u8) -> int {
    if b <= 57 {
        b - 48
    } else if b <= 70 {
        b - 55
    } else {
        b - 87
    }
}

/// The bytes that hexadecimal text spells: two digits for each byte, high half
/// first.
pub open spec fn hex_bytes(s: Seq<u8>) -> Option<Seq<u8>> {
    if s.len() % 2 == 0 && (forall|i: int| 0 <= i < s.len() ==> is_hex_digit(#[trigger] s[i])) {
        Some(
            Seq::new(
                s.len() / 2,
                |i: int| (16 * hex_digit(s[2 * i]) + hex_digit(s[2 * i + 1])) as u8,
            ),
        )
    } else {
        None
    }
}

/// `hex::decode`, without the reason of a failure. It succeeds on an even number
/// of hexadecimal digits of either case, and only there.
#[verifier::external_body]
pub(crate) fn hex_decode(s: &str) -> (r: Option<Vec<u8>>)
    ensures
        match r {
            Some(v) => hex_bytes(encode_utf8(s@)) == Some(v@),
            None => hex_bytes(encode_utf8(s@)) is None,
        },
{
    hex::decode(s).ok()
}

/// Text of ASCII characters takes one byte for each.
pub(crate) proof fn lemma_ascii_bytes(s: Seq<char>)
    requires
        is_ascii_chars(s),
    ensures
        encode_utf8(s).len() == s.len(),
        forall|i: int| 0 <= i < s.len() ==> #[trigger] encode_utf8(s)[i] == s[i] as u8,
{
    is_ascii_chars_encode_utf8(s);
}

/// Text takes at least one byte for each character.
pub(crate) proof fn lemma_bytes_at_least(s: Seq<char>)
    ensures
        encode_utf8(s).len() >= s.len(),
    decreases s.len(),
{
    if s.len() > 0 {
        char_is_scalar(s[0]);
        lemma_bytes_at_least(s.drop_first());
    }
}

/// Bytes that were written as hexadecimal digits read back.
pub proof fn hex_roundtrip(s: Seq<u8>)
    ensures
        encode_utf8(hex_lower(s)).len() == 2 * s.len(),
        hex_bytes(encode_utf8(hex_lower(s))) == Some(s),
{
    let t = hex_lower(s);
    assert forall|i: int| 0 <= i < t.len() implies (#[trigger] t[i] as u32) < 128 by {}
    assert(is_ascii_chars(t));
    lemma_ascii_bytes(t);
    let b = encode_utf8(t);
    assert forall|i: int| 0 <= i < b.len() implies is_hex_digit(#[trigger] b[i]) by {
        assert(b[i] == t[i] as u8);
    }
    let back = hex_bytes(b)->Some_0;
    assert forall|i: int| 0 <= i < s.len() implies #[trigger] back[i] == s[i] by {
        assert(b[2 * i] == t[2 * i] as u8);
        assert(b[2 * i + 1] == t[2 * i + 1] as u8);
        assert((2 * i) / 2 == i && (2 * i + 1) / 2 == i);
        assert((2 * i) % 2 == 0 && (2 * i + 1) % 2 == 1);
    }
    assert(back =~= s);
}

// ── White space ──────────────────────────────────────────────────────────

/// Whether a character is white space: whether it has the Unicode property
/// `White_Space`.
pub open spec fn is_white(c: char) -> bool {
    let u = c as u32;
    ||| 0x09 <= u <= 0x0D
    ||| u == 0x20 || u == 0x85 || u == 0xA0 || u == 0x1680
    ||| 0x2000 <= u <= 0x200A
    ||| u == 0x2028 || u == 0x2029 || u == 0x202F || u == 0x205F || u == 0x3000
}

/// Text without the white space at its ends.
pub open spec fn trimmed(s: Seq<char>) -> Seq<char>
    decreases s.len(),
{
    if s.len() == 0 {
        s
    } else if is_white(s[0]) {
        trimmed(s.skip(1))
    } else if is_white(s.last()) {
        trimmed(s.drop_last())
    } else {
        s
    }
}

/// `str::trim` of std: the text without the white space at its ends, where white
/// space is what Unicode gives the property `White_Space`.
#[verifier::external_body]
pub(crate) fn trim(s: &str) -> (r: &str)
    ensures
        r@ == trimmed(s@),
{
    s.trim()
}

/// White space around a text that neither starts nor ends with any is cut off.
pub proof fn trim_cuts_ends(before: Seq<char>, s: Seq<char>, after: Seq<char>)
    requires
        s.len() > 0,
        !is_white(s[0]),
        !is_white(s.last()),
        forall|i: int| 0 <= i < before.len() ==> is_white(#[trigger] before[i]),
        forall|i: int| 0 <= i < after.len() ==> is_white(#[trigger] after[i]),
    ensures
        trimmed(before + s + after) == s,
    decreases before.len() + after.len(),
{
    let all = before + s + after;
    if before.len() > 0 {
        let rest = before.skip(1);
        assert(all[0] == before[0]);
        assert(all.skip(1) =~= rest + s + after);
        trim_cuts_ends(rest, s, after);
    } else {
        assert(all[0] == s[0]);
        if after.len() > 0 {
            let rest = after.drop_last();
            assert(all.last() == after.last());
            assert(all.drop_last() =~= before + s + rest);
            trim_cuts_ends(before, s, rest);
        } else {
            assert(all =~= s);
        }
    }
}

/// Nothing but white space is cut off.
pub proof fn trim_keeps_the_rest(s: Seq<char>, c: char)
    requires
        s.contains(c),
        !is_white(c),
    ensures
        trimmed(s).contains(c),
    decreases s.len(),
{
    let i = choose|i: int| 0 <= i < s.len() && s[i] == c;
    if is_white(s[0]) {
        assert(s.skip(1)[i - 1] == c);
        trim_keeps_the_rest(s.skip(1), c);
    } else if is_white(s.last()) {
        assert(s.drop_last()[i] == c);
        trim_keeps_the_rest(s.drop_last(), c);
    }
}

/// What stands in a text for bytes that are not UTF-8.
pub const REPLACEMENT: char = '\u{FFFD}';

proof fn lemma_replacement_byte(s: Seq<char>)
    requires
        s.contains(REPLACEMENT),
    ensures
        exists|i: int| 0 <= i < encode_utf8(s).len() && (#[trigger] encode_utf8(s)[i]) >= 128,
    decreases s.len(),
{
    let i = choose|i: int| 0 <= i < s.len() && s[i] == REPLACEMENT;
    let all = encode_utf8(s);
    if i == 0 {
        assert(leading_byte_width_3(0xFFFDu32) >= 128u8) by (bit_vector);
        assert(all[0] == leading_byte_width_3(0xFFFDu32));
    } else {
        let rest = s.drop_first();
        assert(rest[i - 1] == REPLACEMENT);
        lemma_replacement_byte(rest);
        let tail = encode_utf8(rest);
        let j = choose|j: int| 0 <= j < tail.len() && (#[trigger] tail[j]) >= 128;
        let head = encode_scalar(s[0] as u32);
        assert(all[head.len() + j] == tail[j]);
    }
}

/// A text with a replacement character in it is not hexadecimal, with or without
/// white space around it.
pub proof fn replaced_text_is_not_hex(s: Seq<char>)
    requires
        s.contains(REPLACEMENT),
    ensures
        hex_bytes(encode_utf8(trimmed(s))) is None,
{
    trim_keeps_the_rest(s, REPLACEMENT);
    lemma_replacement_byte(trimmed(s));
}

} // verus!
