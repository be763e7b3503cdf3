//! Colours: reading, writing and dimming them.
use crate::binary64;
use crate::binary64::Binary64;
use crate::text;
use vstd::arithmetic::power2::*;
use vstd::prelude::*;
use vstd::utf8::*;

verus! {

/// Why a request to the LEDs was turned down.
#[derive(Clone, Copy, Debug, PartialEq, Eq, Structural)]
pub enum LedError {
    /// The backend has no PWM chip.
    NoPwmChip,
    /// There is no LED with the index asked for.
    IndexOutOfRange,
    /// A colour file does not hold three values.
    ExpectedThreeValues,
}

impl LedError {
    /// What the error says to a user.
    pub fn message(self) -> (r: &'static str)
        ensures
            r@ == (match self {
                LedError::NoPwmChip => "no PWM chip"@,
                LedError::IndexOutOfRange => "LED index out of range"@,
                LedError::ExpectedThreeValues => "expected 3 values"@,
            }),
    {
        match self {
            LedError::NoPwmChip => "no PWM chip",
            LedError::IndexOutOfRange => "LED index out of range",
            LedError::ExpectedThreeValues => "expected 3 values",
        }
    }
}

// ---------------------------------------------------------------------------
// Hexadecimal colours
// ---------------------------------------------------------------------------

/// The value of a hexadecimal digit of either case.
pub open spec fn hex_value(c: char) -> Option<u8> {
    if '0' <= c && c <= '9' {
        Some((c as u32 - '0' as u32) as u8)
    } else if 'a' <= c && c <= 'f' {
        Some((c as u32 - 'a' as u32 + 10) as u8)
    } else if 'A' <= c && c <= 'F' {
        Some((c as u32 - 'A' as u32 + 10) as u8)
    } else {
        None
    }
}

/// The number that two characters write in hexadecimal. The first may be a plus sign.
pub open spec fn hex_pair(a: char, b: char) -> Option<u8> {
    match (hex_value(a), hex_value(b)) {
        (Some(x), Some(y)) => Some((x * 16 + y) as u8),
        (None, Some(y)) => if a == '+' {
            Some(y)
        } else {
            None
        },
        _ => None,
    }
}

/// The text that is left for the digits of a colour: white space at either end is
/// left out, and then the number signs in front.
pub open spec fn hex_digits(s: Seq<char>) -> Seq<char> {
    text::without_leading(text::trimmed(s), '#')
}

/// The colour that `s` writes as six hexadecimal digits.
pub open spec fn hex_color(s: Seq<char>) -> Option<(u8, u8, u8)> {
    let t = hex_digits(s);
    if t.len() == 6 {
        match (hex_pair(t[0], t[1]), hex_pair(t[2], t[3]), hex_pair(t[4], t[5])) {
            (Some(r), Some(g), Some(b)) => Some((r, g, b)),
            _ => None,
        }
    } else {
        None
    }
}

/// Whether the digits of a colour can be cut into its components. A text of six bytes
/// is cut behind its second byte and, where the first component is a number, behind
/// its fourth. No character may lie across such a cut, as one can where six bytes hold
/// fewer than six characters.
pub open spec fn hex_cuts(s: Seq<char>) -> bool {
    let t = hex_digits(s);
    let bytes = encode_utf8(t);
    t.len() < 6 && !is_ascii_chars(t) && bytes.len() == 6 ==> {
        &&& is_char_boundary(bytes, 2)
        &&& hex_pair(t[0], t[1]) is Some ==> is_char_boundary(bytes, 4)
    }
}

fn hex_digit(c: char) -> (r: Option<u8>)
    ensures
        r == hex_value(c),
        r matches Some(v) ==> v < 16 && (c as u32) < 128,
{
    let n: u32 = c as u32;
    if '0' <= c && c <= '9' {
        Some((n - 48) as u8)
    } else if 'a' <= c && c <= 'f' {
        Some((n - 97 + 10) as u8)
    } else if 'A' <= c && c <= 'F' {
        Some((n - 65 + 10) as u8)
    } else {
        None
    }
}

fn hex_number(a: char, b: char) -> (r: Option<u8>)
    ensures
        r == hex_pair(a, b),
{
    match (hex_digit(a), hex_digit(b)) {
        (Some(x), Some(y)) => Some(x * 16 + y),
        (None, Some(y)) => if a == '+' {
            Some(y)
        } else {
            None
        },
        _ => None,
    }
}

/// Only ASCII characters write a number.
proof fn lemma_hex_pair_ascii(a: char, b: char)
    requires
        hex_pair(a, b) is Some,
    ensures
        (a as u32) < 128,
        (b as u32) < 128,
{
}

/// Two bytes hold two ASCII characters, or one other character.
proof fn lemma_two_bytes(p: Seq<char>)
    requires
        encode_utf8(p).len() == 2,
    ensures
        p.len() == 2 || (p.len() == 1 && p[0] as u32 >= 128),
        p.len() == 2 ==> (p[0] as u32) < 128 && (p[1] as u32) < 128,
{
    reveal_with_fuel(encode_utf8, 3);
    let q = p.drop_first();
    assert(p.len() > 0);
    if q.len() > 0 {
        let q2 = q.drop_first();
        assert(encode_scalar(q[0] as u32).len() >= 1);
        if q2.len() > 0 {
            assert(encode_scalar(q2[0] as u32).len() >= 1);
        }
    }
}

/// A character takes at least one byte, and one only in ASCII.
proof fn lemma_width(c: char)
    ensures
        encode_scalar(c as u32).len() >= 1,
        encode_scalar(c as u32).len() == 1 ==> '\0' <= c <= '\u{7f}',
{
}

/// A text has at least as many bytes as characters, and as many only in ASCII.
proof fn lemma_byte_count(t: Seq<char>)
    ensures
        encode_utf8(t).len() >= t.len(),
        encode_utf8(t).len() == t.len() ==> is_ascii_chars(t),
    decreases t.len(),
{
    if t.len() > 0 {
        let rest = t.drop_first();
        lemma_byte_count(rest);
        lemma_width(t[0]);
        if encode_utf8(t).len() == t.len() {
            assert forall|i: int| 0 <= i < t.len() implies '\0' <= #[trigger] t[i] <= '\u{7f}' by {
                if i > 0 {
                    assert(t[i] == rest[i - 1]);
                }
            }
        }
    }
}

/// A text has at least as many bytes as characters.
pub proof fn lemma_bytes_at_least(t: Seq<char>)
    ensures
        encode_utf8(t).len() >= t.len(),
{
    lemma_byte_count(t);
}

/// The digits of a colour are six ASCII characters, and so is a text that is nothing else.
pub proof fn lemma_hex_color_bytes(s: Seq<char>)
    requires
        hex_color(s) is Some,
    ensures
        hex_digits(s).len() == 6,
        is_ascii_chars(hex_digits(s)),
        encode_utf8(hex_digits(s)).len() == 6,
{
    let c = hex_digits(s);
    lemma_hex_pair_ascii(c[0], c[1]);
    lemma_hex_pair_ascii(c[2], c[3]);
    lemma_hex_pair_ascii(c[4], c[5]);
    is_ascii_chars_encode_utf8(c);
}

proof fn lemma_ascii_leads(byte: u8)
    by (bit_vector)
    requires
        byte < 128,
    ensures
        is_leading_byte_width_1(byte),
{
}

/// Six ASCII characters can be cut anywhere.
proof fn lemma_ascii_cuts(t: Seq<char>)
    requires
        t.len() == 6,
        is_ascii_chars(t),
    ensures
        encode_utf8(t).len() == 6,
        is_char_boundary(encode_utf8(t), 2),
        is_char_boundary(encode_utf8(t), 4),
{
    is_ascii_chars_encode_utf8(t);
    let bytes = encode_utf8(t);
    encode_utf8_valid_utf8(t);
    assert(bytes[2] == t[2] as u8);
    assert(bytes[4] == t[4] as u8);
    is_char_boundary_iff_is_leading_byte(bytes, 2);
    is_char_boundary_iff_is_leading_byte(bytes, 4);
    lemma_ascii_leads(bytes[2]);
    lemma_ascii_leads(bytes[4]);
}

/// The digits of a colour in ASCII can be cut.
pub proof fn lemma_ascii_cuts_anywhere(s: Seq<char>)
    requires
        is_ascii_chars(s),
    ensures
        hex_cuts(s),
        is_ascii_chars(hex_digits(s)),
{
    let t = text::trimmed(s);
    text::lemma_trimmed_ascii(s);
    text::lemma_skip_char(t, '#', 0);
}

/// Where a text of six bytes may be cut.
proof fn lemma_cuts(t: Seq<char>)
    ensures
        encode_utf8(t).len() == 6 && (t.len() >= 6 || is_ascii_chars(t)) ==> is_char_boundary(
            encode_utf8(t),
            2,
        ) && is_char_boundary(encode_utf8(t), 4),
{
    lemma_byte_count(t);
    if encode_utf8(t).len() == 6 {
        if is_ascii_chars(t) {
            is_ascii_chars_encode_utf8(t);
        }
        if t.len() == 6 {
            lemma_ascii_cuts(t);
        }
    }
}

/// Cuts a text behind its second byte.
fn cut_pair(s: &str) -> (r: (&str, &str))
    requires
        is_char_boundary(encode_utf8(s@), 2),
    ensures
        s@ == r.0@ + r.1@,
        encode_utf8(r.0@).len() == 2,
        encode_utf8(r.1@) == encode_utf8(s@).skip(2),
        encode_utf8(s@).len() >= 2,
{
    let ghost bytes = encode_utf8(s@);
    let (a, b) = s.split_at(2);
    proof {
        encode_utf8_valid_utf8(s@);
        assert(bytes.len() >= 2);
        decode_utf8_split(bytes, 2);
        encode_utf8_decode_utf8(s@);
        encode_utf8_decode_utf8(a@);
        encode_utf8_decode_utf8(b@);
        assert(encode_utf8(b@) =~= bytes.skip(2));
    }
    (a, b)
}

/// The number that a text of two bytes writes in hexadecimal.
fn hex_component(p: &str) -> (r: Option<u8>)
    requires
        encode_utf8(p@).len() == 2,
    ensures
        p@.len() == 2 ==> r == hex_pair(p@[0], p@[1]),
        p@.len() != 2 ==> r is None && p@.len() == 1 && p@[0] as u32 >= 128,
{
    proof {
        lemma_two_bytes(p@);
    }
    if p.unicode_len() != 2 {
        return None;
    }
    hex_number(p.get_char(0), p.get_char(1))
}

/// Reads a colour of six hexadecimal digits, with or without number signs in front.
pub fn parse_hex_color(hex: &str) -> (r: Option<(u8, u8, u8)>)
    requires
        hex_cuts(hex@),
    ensures
        r == hex_color(hex@),
{
    let t = text::trim_start_char(text::trim(hex), '#');
    let ghost c = t@;
    let ghost bytes = encode_utf8(c);
    if t.as_bytes().len() != 6 {
        proof {
            if hex_color(hex@) is Some {
                lemma_hex_color_bytes(hex@);
            }
        }
        return None;
    }
    proof {
        lemma_cuts(c);
    }
    let (p, rest) = cut_pair(t);
    let first = hex_component(p);
    if first.is_none() {
        assert(c[0] == p@[0]);
        assert(hex_pair(c[0], c[1]) is Some ==> p@.len() == 2 && c[1] == p@[1]);
        return None;
    }
    assert(c[0] == p@[0] && c[1] == p@[1]);
    proof {
        encode_utf8_valid_utf8(c);
        encode_utf8_valid_utf8(rest@);
        is_char_boundary_iff_not_is_continuation_byte(bytes, 4);
        is_char_boundary_iff_not_is_continuation_byte(encode_utf8(rest@), 2);
        assert(bytes[4] == encode_utf8(rest@)[2]);
    }
    let (q, last) = cut_pair(rest);
    let second = hex_component(q);
    assert(c[2] == q@[0]);
    if second.is_none() {
        assert(hex_pair(c[2], c[3]) is Some ==> q@.len() == 2 && c[3] == q@[1]);
        return None;
    }
    assert(c[3] == q@[1]);
    assert(encode_utf8(last@).len() == 2);
    let third = hex_component(last);
    assert(c[4] == last@[0]);
    match (first, second, third) {
        (Some(x), Some(y), Some(z)) => {
            assert(c[5] == last@[1]);
            Some((x, y, z))
        },
        _ => {
            assert(hex_pair(c[4], c[5]) is Some ==> last@.len() == 2 && c[5] == last@[1]);
            None
        },
    }
}

/// Tests whether the digits of a colour can be cut into its components.
pub fn hex_color_cuts(hex: &str) -> (r: bool)
    ensures
        r == hex_cuts(hex@),
{
    let t = text::trim_start_char(text::trim(hex), '#');
    let ghost c = t@;
    if t.as_bytes().len() != 6 {
        return true;
    }
    proof {
        lemma_cuts(c);
    }
    if !t.is_char_boundary(2) {
        return false;
    }
    let (p, rest) = cut_pair(t);
    assert(c[0] == p@[0]);
    match hex_component(p) {
        Some(_) => {
            assert(c[1] == p@[1]);
            t.is_char_boundary(4)
        },
        None => {
            assert(hex_pair(c[0], c[1]) is Some ==> p@.len() == 2 && c[1] == p@[1]);
            true
        },
    }
}

/// Reads a colour such as `#RRGGBB`, with or without the number sign.
pub fn parse_json_color(s: &str) -> (r: Option<(u8, u8, u8)>)
    requires
        hex_cuts(hex_digits(s@)),
    ensures
        r == hex_color(hex_digits(s@)),
{
    parse_hex_color(text::trim_start_char(text::trim(s), '#'))
}

// ---------------------------------------------------------------------------
// Colours in decimal
// ---------------------------------------------------------------------------

/// The colour that three numbers separated by white space write. What is no number of
/// eight bits counts as zero.
pub open spec fn space_rgb(s: Seq<char>) -> Result<(u8, u8, u8), LedError> {
    let w = text::words(s);
    if w.len() == 3 {
        Ok((text::u8_or(w[0], 0), text::u8_or(w[1], 0), text::u8_or(w[2], 0)))
    } else {
        Err(LedError::ExpectedThreeValues)
    }
}

/// Reads three numbers separated by white space.
pub fn parse_space_rgb(s: &str) -> (r: Result<(u8, u8, u8), LedError>)
    ensures
        r == space_rgb(s@),
{
    let parts = text::split_whitespace(s);
    assert(text::views(parts@).len() == parts@.len());
    if parts.len() != 3 {
        return Err(LedError::ExpectedThreeValues);
    }
    assert(text::views(parts@)[0] == parts@[0]@);
    assert(text::views(parts@)[1] == parts@[1]@);
    assert(text::views(parts@)[2] == parts@[2]@);
    Ok(
        (
            text::parse_u8_or(parts[0], 0),
            text::parse_u8_or(parts[1], 0),
            text::parse_u8_or(parts[2], 0),
        ),
    )
}

/// Three numbers in decimal, with a space between them.
pub open spec fn rgb_text(r: u8, g: u8, b: u8) -> Seq<char> {
    text::decimal_text(r as nat) + seq![' '] + text::decimal_text(g as nat) + seq![' ']
        + text::decimal_text(b as nat)
}

/// Writes a colour as three decimal numbers.
pub fn format_rgb(r: u8, g: u8, b: u8) -> (t: String)
    ensures
        t@ == rgb_text(r, g, b),
{
    proof {
        reveal_strlit(" ");
        assert(" "@ =~= seq![' ']);
    }
    let mut t = text::decimal(r as u32);
    t.append(" ");
    t.append(text::decimal(g as u32).as_str());
    t.append(" ");
    t.append(text::decimal(b as u32).as_str());
    t
}

/// The upper-case hexadecimal digit that writes `d`.
pub open spec fn hex_char(d: u8) -> char {
    if d < 10 {
        (d + '0' as u32) as char
    } else {
        (d - 10 + 'A' as u32) as char
    }
}

/// Two upper-case hexadecimal digits for each component of a colour.
pub open spec fn hex_text(r: u8, g: u8, b: u8) -> Seq<char> {
    seq![
        hex_char(r / 16),
        hex_char(r % 16),
        hex_char(g / 16),
        hex_char(g % 16),
        hex_char(b / 16),
        hex_char(b % 16),
    ]
}

fn hex_str(d: u8) -> (r: &'static str)
    requires
        d < 16,
    ensures
        r@ == seq![hex_char(d)],
{
    proof {
        reveal_strlit("0");
        reveal_strlit("1");
        reveal_strlit("2");
        reveal_strlit("3");
        reveal_strlit("4");
        reveal_strlit("5");
        reveal_strlit("6");
        reveal_strlit("7");
        reveal_strlit("8");
        reveal_strlit("9");
        reveal_strlit("A");
        reveal_strlit("B");
        reveal_strlit("C");
        reveal_strlit("D");
        reveal_strlit("E");
        reveal_strlit("F");
    }
    let r: &'static str = match d {
        0 => "0",
        1 => "1",
        2 => "2",
        3 => "3",
        4 => "4",
        5 => "5",
        6 => "6",
        7 => "7",
        8 => "8",
        9 => "9",
        10 => "A",
        11 => "B",
        12 => "C",
        13 => "D",
        14 => "E",
        _ => "F",
    };
    assert(r@ =~= seq![hex_char(d)]);
    r
}

/// Writes a colour as six hexadecimal digits.
pub fn format_hex(r: u8, g: u8, b: u8) -> (t: String)
    ensures
        t@ == hex_text(r, g, b),
{
    let mut t = String::new();
    t.append(hex_str(r / 16));
    t.append(hex_str(r % 16));
    t.append(hex_str(g / 16));
    t.append(hex_str(g % 16));
    t.append(hex_str(b / 16));
    t.append(hex_str(b % 16));
    assert(t@ =~= hex_text(r, g, b));
    t
}

/// A colour that is written in decimal is read back, whatever white space follows it.
pub proof fn law_rgb_text_round_trip(r: u8, g: u8, b: u8, w: Seq<char>)
    requires
        text::all_white(w),
    ensures
        space_rgb(text::trimmed(rgb_text(r, g, b) + w)) == Ok::<(u8, u8, u8), LedError>((r, g, b)),
{
    let x = text::decimal_text(r as nat);
    let y = text::decimal_text(g as nat);
    let z = text::decimal_text(b as nat);
    text::lemma_decimal_text(r as nat);
    text::lemma_decimal_text(g as nat);
    text::lemma_decimal_text(b as nat);
    let s = rgb_text(r, g, b);
    assert(s[0] == x[0]);
    assert(s.last() == z.last());
    text::lemma_trimmed_suffix(s, w);
    text::lemma_three_words(x, y, z);
    text::law_decimal_round_trip(r as nat, 255);
    text::law_decimal_round_trip(g as nat, 255);
    text::law_decimal_round_trip(b as nat, 255);
}

/// Whether a text writes a colour as six hexadecimal digits, each of either case.
pub open spec fn writes_hex(t: Seq<char>, r: u8, g: u8, b: u8) -> bool {
    &&& t.len() == 6
    &&& forall|i: int|
        0 <= i < 6 ==> #[trigger] t[i] == hex_text(r, g, b)[i] || t[i] == text::lower(
            hex_text(r, g, b)[i],
        )
}

/// What a digit of either case is: the digit that it writes, in ASCII, and neither white
/// space nor a number sign.
proof fn lemma_digit_of_either_case(c: char, d: u8)
    requires
        d < 16,
        c == hex_char(d) || c == text::lower(hex_char(d)),
    ensures
        hex_value(c) == Some(d),
        (c as u32) < 128,
        !text::is_white(c),
        c != '#' && c != ',' && c != '"',
{
}

/// Six hexadecimal digits of either case hold no white space and no number sign.
pub proof fn lemma_hex_is_plain(t: Seq<char>, r: u8, g: u8, b: u8)
    requires
        writes_hex(t, r, g, b),
    ensures
        t.len() == 6,
        text::no_white(t),
        text::lacks(t, '#') && text::lacks(t, ',') && text::lacks(t, '"') && text::lacks(t, '\n'),
        t.last() != '\r',
{
    lemma_digit_of_either_case(t[0], r / 16);
    lemma_digit_of_either_case(t[1], r % 16);
    lemma_digit_of_either_case(t[2], g / 16);
    lemma_digit_of_either_case(t[3], g % 16);
    lemma_digit_of_either_case(t[4], b / 16);
    lemma_digit_of_either_case(t[5], b % 16);
}

/// A colour that is written as six hexadecimal digits of either case is read back, whatever
/// white space stands around it and whatever number signs stand in front of it.
pub proof fn law_hex_color_is_read(
    t: Seq<char>,
    r: u8,
    g: u8,
    b: u8,
    front: Seq<char>,
    n: nat,
    w: Seq<char>,
)
    requires
        writes_hex(t, r, g, b),
        text::all_white(front),
        text::all_white(w),
    ensures
        hex_cuts(front + Seq::new(n, |i: int| '#') + t + w),
        hex_color(front + Seq::new(n, |i: int| '#') + t + w) == Some((r, g, b)),
{
    let signs = Seq::new(n, |i: int| '#');
    let s = signs + t;
    lemma_digit_of_either_case(t[0], r / 16);
    lemma_digit_of_either_case(t[1], r % 16);
    lemma_digit_of_either_case(t[2], g / 16);
    lemma_digit_of_either_case(t[3], g % 16);
    lemma_digit_of_either_case(t[4], b / 16);
    lemma_digit_of_either_case(t[5], b % 16);
    if n > 0 {
        assert(s[0] == '#');
    } else {
        assert(s[0] == t[0]);
    }
    assert(s.last() == t[5]);
    assert((s + w)[0] == s[0]);
    assert(front + signs + t + w =~= front + (s + w));
    text::lemma_trimmed_both(front, s, w);
    text::lemma_skip_char(s, '#', 0);
    let k = text::skip_char(s, '#', 0);
    if k > n {
        assert(s[n as int] == t[0]);
    }
    if k < n {
        assert(s[k] == '#');
    }
    assert(s.skip(n as int) =~= t);
}

/// A colour that is written in hexadecimal is read back, whatever number signs stand in
/// front of it and whatever white space follows it.
pub proof fn law_hex_text_round_trip(r: u8, g: u8, b: u8, n: nat, w: Seq<char>)
    requires
        text::all_white(w),
    ensures
        hex_cuts(Seq::new(n, |i: int| '#') + hex_text(r, g, b) + w),
        hex_color(Seq::new(n, |i: int| '#') + hex_text(r, g, b) + w) == Some((r, g, b)),
{
    let signs = Seq::new(n, |i: int| '#');
    law_hex_color_is_read(hex_text(r, g, b), r, g, b, seq![], n, w);
    assert(seq![] + signs + hex_text(r, g, b) + w =~= signs + hex_text(r, g, b) + w);
}

// ---------------------------------------------------------------------------
// Brightness
// ---------------------------------------------------------------------------

/// A component of a colour at a brightness: the component times the quotient of the
/// brightness and 255, each step rounded to double precision, and the whole part of
/// that.
pub open spec fn scaled(c: u8, brightness: u8) -> u8 {
    binary64::quotient_of(brightness as nat, 255).times(c as nat).whole() as u8
}

/// A colour at a brightness.
pub open spec fn scaled_rgb(r: u8, g: u8, b: u8, brightness: u8) -> (u8, u8, u8) {
    (scaled(r, brightness), scaled(g, brightness), scaled(b, brightness))
}

/// Bounds on the two steps of [`scaled`], in units of the binary places of the quotient.
proof fn lemma_scaling(c: u8, brightness: u8)
    ensures
        ({
            let s = binary64::quotient_of(brightness as nat, 255);
            let t = s.times(c as nat);
            &&& s.wf()
            &&& binary64::excess(s.mant * c as nat) <= s.exp
            &&& brightness > 0 ==> 52 <= s.exp <= 60
            &&& s.mant <= pow2(s.exp)
            &&& t.at_most(c as nat)
            &&& t.whole() <= c
        }),
{
    let s = binary64::quotient_of(brightness as nat, 255);
    lemma2_to64();
    binary64::lemma_quotient(brightness as nat, 255, 1);
    if brightness > 0 {
        binary64::lemma_doublings_most(brightness as nat, 255, 8);
        binary64::lemma_doublings_least(brightness as nat, 255, 0);
    }
    let m = s.mant * c as nat;
    assert(m < binary64::LIMIT * 256) by (nonlinear_arith)
        requires
            m == s.mant * c,
            s.mant <= binary64::LIMIT,
            c < 256,
    ;
    if brightness > 0 {
        binary64::lemma_excess(m, 8);
    } else {
        assert(s.mant == 0) by {
            assert(0 * pow2(0) == 0);
        }
        assert(m == 0) by (nonlinear_arith)
            requires
                m == s.mant * c,
                s.mant == 0,
        ;
    }
    let p = pow2(s.exp);
    assert(m <= c * p) by (nonlinear_arith)
        requires
            m == s.mant * c,
            s.mant <= p,
    ;
    binary64::lemma_rounded(m, s.exp, c as nat);
    binary64::lemma_whole(s.times(c as nat), c as nat);
}

/// Dims a colour: 255 is full brightness, 0 is off.
pub fn scale_brightness(r: u8, g: u8, b: u8, brightness: u8) -> (res: (u8, u8, u8))
    ensures
        res == scaled_rgb(r, g, b, brightness),
{
    let s = Binary64::quotient(brightness as u64, 255);
    proof {
        lemma_scaling(r, brightness);
        lemma_scaling(g, brightness);
        lemma_scaling(b, brightness);
    }
    (s.mul(r as u32).to_u8(), s.mul(g as u32).to_u8(), s.mul(b as u32).to_u8())
}

/// No brightness makes a component brighter than it is.
pub proof fn law_scaling_dims(c: u8, brightness: u8)
    ensures
        scaled(c, brightness) <= c,
{
    lemma_scaling(c, brightness);
}

/// Full brightness leaves a component as it is.
pub proof fn law_full_brightness(c: u8)
    ensures
        scaled(c, 255) == c,
{
    let s = binary64::quotient_of(255, 255);
    lemma_scaling(c, 255);
    binary64::lemma_quotient(255, 255, 1);
    let p = pow2(s.exp);
    assert(s.mant * c as nat == c * p) by (nonlinear_arith)
        requires
            s.mant == p,
    ;
    binary64::lemma_rounded(s.mant * c as nat, s.exp, c as nat);
    binary64::lemma_whole(s.times(c as nat), c as nat);
}

/// Brightness zero turns a component off.
pub proof fn law_zero_brightness(c: u8)
    ensures
        scaled(c, 0) == 0,
{
    lemma_scaling(c, 0);
    let s = binary64::quotient_of(0, 255);
    lemma2_to64();
    assert(0 * pow2(0) == 0);
    assert(s.mant * c as nat == 0) by (nonlinear_arith)
        requires
            s.mant == 0,
    ;
    binary64::lemma_rounded(0, s.exp, 0);
    binary64::lemma_whole(s.times(c as nat), 0);
}

/// A dimmed component is the whole part of `c * brightness / 255`; where there is nothing
/// to cut off, it may be one less.
pub proof fn law_scaling_is_proportional(c: u8, brightness: u8)
    ensures
        255 * scaled(c, brightness) <= c * brightness <= 255 * (scaled(c, brightness) + 1),
{
    let s = binary64::quotient_of(brightness as nat, 255);
    let e = pow2(s.exp);
    let m = s.mant;
    let t = s.times(c as nat);
    lemma_scaling(c, brightness);
    if brightness == 0 {
        law_zero_brightness(c);
        assert(c * brightness == 0) by (nonlinear_arith)
            requires
                brightness == 0,
        ;
    } else {
        lemma2_to64();
        lemma2_to64_rest();
        if s.exp > 52 {
            lemma_pow2_strictly_increases(52, s.exp);
        }
        binary64::lemma_nearest(brightness as nat * e, 255, 0);
        let x = m * c as nat;
        let k = binary64::excess(x);
        let g = pow2(k);
        lemma_pow2_pos(k);
        assert(x < binary64::LIMIT * 256) by (nonlinear_arith)
            requires
                x == m * c,
                m <= binary64::LIMIT,
                c < 256,
        ;
        binary64::lemma_excess(x, 8);
        if k < 8 {
            lemma_pow2_strictly_increases(k, 8);
        }
        lemma_pow2_adds((s.exp - k) as nat, k);
        let f = pow2(t.exp);
        lemma_pow2_pos(t.exp);
        assert(e == f * g);
        binary64::lemma_nearest(x, g, 0);
        let y = t.mant * g;
        assert(2 * t.mant * g == 2 * y) by (nonlinear_arith)
            requires
                y == t.mant * g,
        ;
        // y differs from x by at most 128, and 255 * x from c * brightness * e by at most 32513.
        assert(2 * y <= 2 * x + 256 && 2 * y + 256 >= 2 * x);
        let ce = c * (brightness * e);
        assert(2 * (255 * x) <= 2 * ce + 255 * c && 2 * (255 * x) + 255 * c >= 2 * ce)
            by (nonlinear_arith)
            requires
                x == m * c,
                ce == c * (brightness * e),
                2 * m * 255 <= 2 * (brightness * e) + 255,
                2 * m * 255 + 255 >= 2 * (brightness * e),
        ;
        let n = c * brightness;
        let q = (n / 255) as nat;
        assert(ce == n * e) by (nonlinear_arith)
            requires
                ce == c * (brightness * e),
                n == c * brightness,
        ;
        assert(255 * q <= n <= 255 * q + 254);
        assert(ce <= (255 * q + 254) * e && ce >= 255 * q * e) by (nonlinear_arith)
            requires
                ce == n * e,
                255 * q <= n <= 255 * q + 254,
                e >= 0,
        ;
        let qe = q * e;
        assert((255 * q + 254) * e == 255 * qe + 254 * e) by (nonlinear_arith)
            requires
                qe == q * e,
        ;
        assert(255 * q * e == 255 * qe) by (nonlinear_arith)
            requires
                qe == q * e,
        ;
        assert(y < qe + e);
        assert(y + e > qe);
        assert(t.mant < (q + 1) * f) by (nonlinear_arith)
            requires
                y == t.mant * g,
                e == f * g,
                qe == q * e,
                y < qe + e,
                g > 0,
        ;
        binary64::lemma_whole(t, q + 1);
        if q >= 1 {
            let l = (q - 1) as nat;
            assert(t.mant >= l * f) by (nonlinear_arith)
                requires
                    y == t.mant * g,
                    e == f * g,
                    qe == q * e,
                    y + e > qe,
                    l == q - 1,
                    g > 0,
            ;
            binary64::lemma_whole(t, l);
        }
        if n > 255 * q {
            assert(ce >= 255 * qe + e) by (nonlinear_arith)
                requires
                    ce == n * e,
                    qe == q * e,
                    n >= 255 * q + 1,
                    e >= 0,
            ;
            assert(y >= qe);
            assert(t.mant >= q * f) by (nonlinear_arith)
                requires
                    y == t.mant * g,
                    e == f * g,
                    qe == q * e,
                    y >= qe,
                    g > 0,
            ;
            binary64::lemma_whole(t, q);
        }
    }
}

/// A brighter component at a higher brightness does not become darker.
pub proof fn law_scaling_rises(c: u8, brightness: u8, brighter: u8, higher: u8)
    requires
        c <= brighter,
        brightness <= higher,
    ensures
        scaled(c, brightness) <= scaled(brighter, higher),
{
    law_scaling_is_proportional(c, brightness);
    law_scaling_is_proportional(brighter, higher);
    let n = c * brightness;
    let m = brighter * higher;
    assert(n <= m) by (nonlinear_arith)
        requires
            n == c * brightness,
            m == brighter * higher,
            c <= brighter,
            brightness <= higher,
    ;
    if n == m && n > 0 {
        assert(c == brighter && brightness == higher) by (nonlinear_arith)
            requires
                c * brightness == brighter * higher,
                c * brightness > 0,
                c <= brighter,
                brightness <= higher,
        ;
    }
}

// ---------------------------------------------------------------------------
// What a colour is
// ---------------------------------------------------------------------------

/// Whether a character is a hexadecimal digit of either case.
pub open spec fn is_hex_digit(c: char) -> bool {
    '0' <= c <= '9' || 'a' <= c <= 'f' || 'A' <= c <= 'F'
}

/// What is read as a colour is six characters, once white space at the ends and number signs
/// in front are left out. Each is a hexadecimal digit, but for a plus sign that may stand in
/// the first place of a component.
pub proof fn law_color_is_six_digits(s: Seq<char>, i: int)
    requires
        hex_color(s) is Some,
        0 <= i < 3,
    ensures
        text::without_leading(text::trimmed(s), '#').len() == 6,
        is_hex_digit(text::without_leading(text::trimmed(s), '#')[2 * i]) || text::without_leading(
            text::trimmed(s),
            '#',
        )[2 * i] == '+',
        is_hex_digit(text::without_leading(text::trimmed(s), '#')[2 * i + 1]),
{
    let t = hex_digits(s);
    lemma_hex_pair_digits(t[0], t[1]);
    lemma_hex_pair_digits(t[2], t[3]);
    lemma_hex_pair_digits(t[4], t[5]);
}

proof fn lemma_hex_pair_digits(a: char, b: char)
    requires
        hex_pair(a, b) is Some,
    ensures
        is_hex_digit(a) || a == '+',
        is_hex_digit(b),
{
}

/// The components of a colour are read alike: a text with the pairs of digits in another
/// order is the colour with the components in that order.
pub proof fn law_components_are_read_alike(t: Seq<char>)
    requires
        t.len() == 6,
        text::no_white(t),
        t[0] != '#' && t[2] != '#' && t[4] != '#',
    ensures
        ({
            let turned = seq![t[2], t[3], t[4], t[5], t[0], t[1]];
            let swapped = seq![t[2], t[3], t[0], t[1], t[4], t[5]];
            match hex_color(t) {
                Some((r, g, b)) => hex_color(turned) == Some((g, b, r)) && hex_color(swapped)
                    == Some((g, r, b)),
                None => hex_color(turned) is None && hex_color(swapped) is None,
            }
        }),
{
    let turned = seq![t[2], t[3], t[4], t[5], t[0], t[1]];
    let swapped = seq![t[2], t[3], t[0], t[1], t[4], t[5]];
    lemma_plain_digits(t);
    lemma_plain_digits(turned);
    lemma_plain_digits(swapped);
}

proof fn lemma_plain_digits(t: Seq<char>)
    requires
        t.len() == 6,
        text::no_white(t),
        t[0] != '#',
    ensures
        hex_digits(t) == t,
{
    text::lemma_trimmed_suffix(t, seq![]);
    assert(t + seq![] =~= t);
    text::lemma_skip_char(t, '#', 0);
    assert(t.skip(0) =~= t);
}

/// A colour is written as six digits, those beyond nine in upper case.
pub proof fn law_hex_text_is_upper_case(r: u8, g: u8, b: u8, i: int)
    requires
        0 <= i < 6,
    ensures
        hex_text(r, g, b).len() == 6,
        '0' <= hex_text(r, g, b)[i] <= '9' || 'A' <= hex_text(r, g, b)[i] <= 'F',
{
}

/// A colour is written as three numbers with nothing but one space between them.
pub proof fn law_rgb_text_form(r: u8, g: u8, b: u8)
    ensures
        ({
            let x = text::decimal_text(r as nat);
            let y = text::decimal_text(g as nat);
            let z = text::decimal_text(b as nat);
            let t = rgb_text(r, g, b);
            let i = x.len() as int;
            let j = i + 1 + y.len();
            &&& t.len() == j + 1 + z.len()
            &&& t.take(i) == x && t[i] == ' '
            &&& t.subrange(i + 1, j) == y && t[j] == ' '
            &&& t.skip(j + 1) == z
        }),
{
    let x = text::decimal_text(r as nat);
    let y = text::decimal_text(g as nat);
    let z = text::decimal_text(b as nat);
    let t = rgb_text(r, g, b);
    let i = x.len() as int;
    let j = i + 1 + y.len();
    assert(t.take(i) =~= x);
    assert(t.subrange(i + 1, j) =~= y);
    assert(t.skip(j + 1) =~= z);
}

/// Three numbers are read as a colour, whatever white space stands between and around them.
pub proof fn law_three_numbers_are_a_color(
    before: Seq<char>,
    r: u8,
    v: Seq<char>,
    g: u8,
    w: Seq<char>,
    b: u8,
    after: Seq<char>,
)
    requires
        text::all_white(before) && text::all_white(v) && text::all_white(w) && text::all_white(
            after,
        ),
        v.len() > 0 && w.len() > 0,
    ensures
        space_rgb(
            before + text::decimal_text(r as nat) + v + text::decimal_text(g as nat) + w
                + text::decimal_text(b as nat) + after,
        ) == Ok::<(u8, u8, u8), LedError>((r, g, b)),
{
    let x = text::decimal_text(r as nat);
    let y = text::decimal_text(g as nat);
    let z = text::decimal_text(b as nat);
    text::lemma_decimal_text(r as nat);
    text::lemma_decimal_text(g as nat);
    text::lemma_decimal_text(b as nat);
    text::law_three_words(before, x, v, y, w, z, after);
    text::law_decimal_round_trip(r as nat, 255);
    text::law_decimal_round_trip(g as nat, 255);
    text::law_decimal_round_trip(b as nat, 255);
}

/// A text is read as a colour exactly if it has three words, and a word that is no number of
/// eight bits counts as zero.
pub proof fn law_other_words_count_as_zero(s: Seq<char>)
    ensures
        space_rgb(s) is Ok <==> text::words(s).len() == 3,
        space_rgb(s) matches Err(e) ==> e == LedError::ExpectedThreeValues,
        space_rgb(s) matches Ok((r, g, b)) ==> {
            &&& text::number(text::words(s)[0], 255) is None ==> r == 0
            &&& text::number(text::words(s)[1], 255) is None ==> g == 0
            &&& text::number(text::words(s)[2], 255) is None ==> b == 0
        },
{
}

/// The components of a colour are dimmed alike, and each of them without regard to the
/// others.
pub proof fn law_components_are_dimmed_alike(r: u8, g: u8, b: u8, brightness: u8, x: u8, y: u8)
    ensures
        scaled_rgb(r, g, b, brightness).0 == scaled_rgb(r, x, y, brightness).0,
        scaled_rgb(r, g, b, brightness).1 == scaled_rgb(g, x, y, brightness).0,
        scaled_rgb(r, g, b, brightness).2 == scaled_rgb(b, x, y, brightness).0,
{
}

/// Each component of a dimmed colour is the whole part of the component times the brightness
/// over 255, or one less where there is nothing to cut off.
pub proof fn law_dimmed_color(r: u8, g: u8, b: u8, brightness: u8)
    ensures
        ({
            let (x, y, z) = scaled_rgb(r, g, b, brightness);
            &&& 255 * x <= r * brightness <= 255 * (x + 1)
            &&& 255 * y <= g * brightness <= 255 * (y + 1)
            &&& 255 * z <= b * brightness <= 255 * (z + 1)
            &&& brightness == 255 ==> (x, y, z) == (r, g, b)
        }),
{
    law_scaling_is_proportional(r, brightness);
    law_scaling_is_proportional(g, brightness);
    law_scaling_is_proportional(b, brightness);
    law_full_brightness(r);
    law_full_brightness(g);
    law_full_brightness(b);
}

} // verus!
