//! Decimal, hexadecimal and big-endian forms.
use vstd::prelude::*;

use crate::text::{chars_of, digit, is_digit, lower_hex};

verus! {

// Decimal

/// The character of a digit below ten.
pub open spec fn decimal_digit(n: nat) -> char {
    if n == 0 {
        '0'
    } else if n == 1 {
        '1'
    } else if n == 2 {
        '2'
    } else if n == 3 {
        '3'
    } else if n == 4 {
        '4'
    } else if n == 5 {
        '5'
    } else if n == 6 {
        '6'
    } else if n == 7 {
        '7'
    } else if n == 8 {
        '8'
    } else {
        '9'
    }
}

/// A number in decimal, without leading zeros.
pub open spec fn decimal(n: nat) -> Seq<char>
    decreases n,
{
    if n < 10 {
        seq![decimal_digit(n)]
    } else {
        decimal(n / 10).push(decimal_digit(n % 10))
    }
}

fn decimal_digit_of(n: u128) -> (c: char)
    requires
        n < 10,
    ensures
        c == decimal_digit(n as nat),
{
    match n {
        0 => '0',
        1 => '1',
        2 => '2',
        3 => '3',
        4 => '4',
        5 => '5',
        6 => '6',
        7 => '7',
        8 => '8',
        _ => '9',
    }
}

/// The decimal form of `n`.
pub fn decimal_text(n: u64) -> (text: String)
    ensures
        text@ == decimal(n as nat),
{
    wide_decimal_text(n as u128)
}

/// The decimal form of `n`.
pub fn wide_decimal_text(n: u128) -> (text: String)
    ensures
        text@ == decimal(n as nat),
    decreases n,
{
    if n < 10 {
        let mut text = String::new();
        text.push(decimal_digit_of(n));
        assert(text@ =~= seq![decimal_digit(n as nat)]);
        text
    } else {
        let mut text = wide_decimal_text(n / 10);
        text.push(decimal_digit_of(n % 10));
        text
    }
}

/// The value of a decimal digit.
pub open spec fn digit_value(c: char) -> int {
    c as int - '0' as int
}

/// Nothing but decimal digits, and at least one.
pub open spec fn all_digits(text: Seq<char>) -> bool {
    &&& text.len() > 0
    &&& forall|i: int| 0 <= i < text.len() ==> digit(#[trigger] text[i])
}

/// The number that decimal digits write.
pub open spec fn decimal_value(text: Seq<char>) -> int
    decreases text.len(),
{
    if text.len() == 0 {
        0
    } else {
        decimal_value(text.drop_last()) * 10 + digit_value(text.last())
    }
}

/// A number that a text writes in decimal, with or without a plus sign, where
/// it fits in 64 bits.
pub open spec fn read_decimal(text: Seq<char>) -> Option<u64> {
    let digits = if text.len() > 0 && text[0] == '+' {
        text.skip(1)
    } else {
        text
    };
    if all_digits(digits) && decimal_value(digits) <= u64::MAX {
        Some(decimal_value(digits) as u64)
    } else {
        None
    }
}

proof fn lemma_decimal_value_grows(text: Seq<char>, n: int)
    requires
        0 <= n <= text.len(),
        forall|i: int| 0 <= i < text.len() ==> digit(#[trigger] text[i]),
    ensures
        0 <= decimal_value(text.take(n)) <= decimal_value(text),
    decreases text.len(),
{
    if n == text.len() {
        assert(text.take(n) =~= text);
        if n > 0 {
            let front = text.drop_last();
            assert forall|i: int| 0 <= i < front.len() implies digit(#[trigger] front[i]) by {
                assert(front[i] == text[i]);
            }
            lemma_decimal_value_grows(front, n - 1);
            assert(front.take(n - 1) =~= front);
            assert(digit(text[n - 1]));
        }
    } else {
        let front = text.drop_last();
        assert(front.take(n) =~= text.take(n));
        assert forall|i: int| 0 <= i < front.len() implies digit(#[trigger] front[i]) by {
            assert(front[i] == text[i]);
        }
        lemma_decimal_value_grows(front, n);
        assert(digit(text[text.len() - 1]));
    }
}

/// Read a number in decimal.
pub fn parse_decimal(text: &str) -> (result: Option<u64>)
    ensures
        result == read_decimal(text@),
{
    let chars = chars_of(text);
    let first: usize = if chars.len() > 0 && chars[0] == '+' {
        1
    } else {
        0
    };
    let ghost digits = if first == 1 {
        text@.skip(1)
    } else {
        text@
    };
    if chars.len() == first {
        return None;
    }
    let mut value: u64 = 0;
    let mut i: usize = first;
    assert(digits.take(0).len() == 0);
    while i < chars.len()
        invariant
            first <= 1,
            first <= i <= chars@.len(),
            chars@ == text@,
            digits == (if first == 1 {
                text@.skip(1)
            } else {
                text@
            }),
            first == 1 <==> text@.len() > 0 && text@[0] == '+',
            digits.len() == chars@.len() - first,
            forall|j: int| 0 <= j < digits.len() ==> #[trigger] digits[j] == chars@[j + first],
            forall|j: int| 0 <= j < i - first ==> digit(#[trigger] digits[j]),
            value == decimal_value(digits.take(i - first)),
        decreases chars@.len() - i,
    {
        let c = chars[i];
        assert(digits[i - first] == c);
        if !is_digit(c) {
            return None;
        }
        let d: u64 = c as u64 - '0' as u64;
        proof {
            assert(digits.take(i - first + 1).drop_last() =~= digits.take(i - first));
            assert(digits.take(i - first + 1).last() == c);
        }
        if value > (u64::MAX - d) / 10 {
            proof {
                if all_digits(digits) {
                    lemma_decimal_value_grows(digits, i - first + 1);
                }
            }
            return None;
        }
        value = value * 10 + d;
        i += 1;
    }
    assert(digits.take(digits.len() as int) =~= digits);
    Some(value)
}

/// Writing a number in decimal and reading it gives the number back.
pub proof fn decimal_round_trip(n: nat)
    ensures
        all_digits(decimal(n)),
        decimal_value(decimal(n)) == n,
        n <= u64::MAX ==> read_decimal(decimal(n)) == Some(n as u64),
    decreases n,
{
    if n < 10 {
        assert(decimal(n).drop_last() =~= Seq::<char>::empty());
        assert(decimal(n).last() == decimal_digit(n));
        assert(decimal_value(Seq::<char>::empty()) == 0);
    } else {
        decimal_round_trip(n / 10);
        let front = decimal(n / 10);
        assert(decimal(n).drop_last() =~= front);
        assert forall|i: int| 0 <= i < decimal(n).len() implies digit(#[trigger] decimal(n)[i]) by {
            if i < front.len() {
                assert(decimal(n)[i] == front[i]);
            }
        }
    }
    assert(digit(decimal(n)[0]));
}

// Hexadecimal

/// The lower-case character of a value below sixteen.
pub open spec fn hex_digit(n: int) -> char {
    if n == 0 {
        '0'
    } else if n == 1 {
        '1'
    } else if n == 2 {
        '2'
    } else if n == 3 {
        '3'
    } else if n == 4 {
        '4'
    } else if n == 5 {
        '5'
    } else if n == 6 {
        '6'
    } else if n == 7 {
        '7'
    } else if n == 8 {
        '8'
    } else if n == 9 {
        '9'
    } else if n == 10 {
        'a'
    } else if n == 11 {
        'b'
    } else if n == 12 {
        'c'
    } else if n == 13 {
        'd'
    } else if n == 14 {
        'e'
    } else {
        'f'
    }
}

/// The value of a lower-case hexadecimal character.
pub open spec fn hex_value(c: char) -> int {
    match c {
        '0' => 0,
        '1' => 1,
        '2' => 2,
        '3' => 3,
        '4' => 4,
        '5' => 5,
        '6' => 6,
        '7' => 7,
        '8' => 8,
        '9' => 9,
        'a' => 10,
        'b' => 11,
        'c' => 12,
        'd' => 13,
        'e' => 14,
        _ => 15,
    }
}

/// Every character is a lower-case hexadecimal digit.
pub open spec fn all_hex(text: Seq<char>) -> bool {
    forall|i: int| 0 <= i < text.len() ==> lower_hex(#[trigger] text[i])
}

/// Two lower-case hexadecimal characters per byte.
pub open spec fn hex(bytes: Seq<u8>) -> Seq<char> {
    Seq::new(
        2 * bytes.len(),
        |i: int|
            if i % 2 == 0 {
                hex_digit(bytes[i / 2] as int / 16)
            } else {
                hex_digit(bytes[i / 2] as int % 16)
            },
    )
}

/// The bytes that pairs of hexadecimal characters stand for.
pub open spec fn unhex(text: Seq<char>) -> Seq<u8> {
    Seq::new(
        text.len() / 2,
        |i: int| (16 * hex_value(text[2 * i]) + hex_value(text[2 * i + 1])) as u8,
    )
}

pub proof fn lemma_hex_digit(n: int)
    requires
        0 <= n < 16,
    ensures
        lower_hex(hex_digit(n)),
        hex_value(hex_digit(n)) == n,
{
}

pub proof fn lemma_hex_value(c: char)
    requires
        lower_hex(c),
    ensures
        0 <= hex_value(c) < 16,
        hex_digit(hex_value(c)) == c,
{
    assert(c == '0' || c == '1' || c == '2' || c == '3' || c == '4' || c == '5' || c == '6' || c == '7'
        || c == '8' || c == '9' || c == 'a' || c == 'b' || c == 'c' || c == 'd' || c == 'e' || c == 'f');
}

/// Decoding gives back the bytes that were encoded.
pub proof fn hex_round_trip(bytes: Seq<u8>)
    ensures
        unhex(hex(bytes)) == bytes,
        all_hex(hex(bytes)),
        hex(bytes).len() == 2 * bytes.len(),
{
    let text = hex(bytes);
    assert forall|i: int| 0 <= i < text.len() implies lower_hex(#[trigger] text[i]) by {
        lemma_hex_digit(bytes[i / 2] as int / 16);
        lemma_hex_digit(bytes[i / 2] as int % 16);
    }
    assert forall|i: int| 0 <= i < bytes.len() implies #[trigger] unhex(text)[i] == bytes[i] by {
        lemma_hex_digit(bytes[i] as int / 16);
        lemma_hex_digit(bytes[i] as int % 16);
        assert(text[2 * i] == hex_digit(bytes[i] as int / 16));
        assert((2 * i + 1) / 2 == i && (2 * i + 1) % 2 == 1);
        assert(text[2 * i + 1] == hex_digit(bytes[i] as int % 16));
        assert(16 * (bytes[i] as int / 16) + bytes[i] as int % 16 == bytes[i]);
    }
    assert(unhex(text) =~= bytes);
}

/// Encoding gives back the lower-case text that was decoded.
pub proof fn unhex_round_trip(text: Seq<char>)
    requires
        all_hex(text),
        text.len() % 2 == 0,
    ensures
        hex(unhex(text)) == text,
{
    let bytes = unhex(text);
    assert forall|i: int| 0 <= i < text.len() implies #[trigger] hex(bytes)[i] == text[i] by {
        let k = i / 2;
        lemma_hex_value(text[2 * k]);
        lemma_hex_value(text[2 * k + 1]);
        let high = hex_value(text[2 * k]);
        let low = hex_value(text[2 * k + 1]);
        assert(bytes[k] as int == 16 * high + low);
        assert((16 * high + low) / 16 == high && (16 * high + low) % 16 == low);
        assert(i == 2 * k || i == 2 * k + 1);
    }
    assert(hex(bytes) =~= text);
}

fn hex_digit_of(n: u8) -> (c: char)
    requires
        n < 16,
    ensures
        c == hex_digit(n as int),
{
    match n {
        0 => '0',
        1 => '1',
        2 => '2',
        3 => '3',
        4 => '4',
        5 => '5',
        6 => '6',
        7 => '7',
        8 => '8',
        9 => '9',
        10 => 'a',
        11 => 'b',
        12 => 'c',
        13 => 'd',
        14 => 'e',
        _ => 'f',
    }
}

fn hex_value_of(c: char) -> (n: u8)
    requires
        lower_hex(c),
    ensures
        n == hex_value(c),
        n < 16,
{
    proof {
        lemma_hex_value(c);
    }
    match c {
        '0' => 0,
        '1' => 1,
        '2' => 2,
        '3' => 3,
        '4' => 4,
        '5' => 5,
        '6' => 6,
        '7' => 7,
        '8' => 8,
        '9' => 9,
        'a' => 10,
        'b' => 11,
        'c' => 12,
        'd' => 13,
        'e' => 14,
        _ => 15,
    }
}

/// The hexadecimal form of `bytes`.
pub fn hex_text(bytes: &[u8]) -> (text: String)
    ensures
        text@ == hex(bytes@),
{
    let mut text = String::new();
    let mut i: usize = 0;
    while i < bytes.len()
        invariant
            i <= bytes@.len(),
            text@ == hex(bytes@.take(i as int)),
        decreases bytes@.len() - i,
    {
        let ghost so_far = text@;
        text.push(hex_digit_of(bytes[i] / 16));
        text.push(hex_digit_of(bytes[i] % 16));
        proof {
            let all = hex(bytes@.take(i + 1));
            assert(all.len() == so_far.len() + 2);
            assert forall|j: int| 0 <= j < so_far.len() implies so_far[j] == all[j] by {
                assert(bytes@.take(i as int)[j / 2] == bytes@.take(i + 1)[j / 2]);
            }
            assert(text@ =~= all);
        }
        i += 1;
    }
    assert(bytes@.take(i as int) =~= bytes@);
    text
}

/// The bytes of a hexadecimal form.
pub fn unhex_chars(chars: &[char]) -> (bytes: Vec<u8>)
    requires
        all_hex(chars@),
        chars@.len() % 2 == 0,
    ensures
        bytes@ == unhex(chars@),
{
    let mut bytes: Vec<u8> = Vec::new();
    let mut i: usize = 0;
    while i < chars.len()
        invariant
            i <= chars@.len(),
            i % 2 == 0,
            chars@.len() % 2 == 0,
            all_hex(chars@),
            bytes@ == unhex(chars@).take(i as int / 2),
        decreases chars@.len() - i,
    {
        let ghost k = i as int / 2;
        assert(chars@[i as int] == chars@[2 * k] && chars@[i + 1] == chars@[2 * k + 1]);
        assert(lower_hex(chars@[i as int]) && lower_hex(chars@[i + 1]));
        let high: u8 = hex_value_of(chars[i]);
        let low: u8 = hex_value_of(chars[i + 1]);
        assert(high as int * 16 <= 240);
        bytes.push(high * 16 + low);
        proof {
            assert(unhex(chars@).take(k + 1) =~= unhex(chars@).take(k).push(unhex(chars@)[k]));
        }
        i += 2;
    }
    assert(unhex(chars@).take(i as int / 2) =~= unhex(chars@));
    bytes
}

// Big-endian integers

/// Four bytes, most significant first.
pub open spec fn be32(n: u32) -> Seq<u8> {
    seq![
        (n / 16777216) as u8,
        (n / 65536 % 256) as u8,
        (n / 256 % 256) as u8,
        (n % 256) as u8,
    ]
}

/// The number that four bytes stand for.
pub open spec fn unbe32(bytes: Seq<u8>) -> int {
    bytes[0] * 16777216 + bytes[1] * 65536 + bytes[2] * 256 + bytes[3]
}

/// Reading a 32-bit number that was written gives the number back.
pub proof fn be32_round_trip(n: u32)
    ensures
        be32(n).len() == 4,
        unbe32(be32(n)) == n,
{
}

pub fn push_be32(bytes: &mut Vec<u8>, n: u32)
    ensures
        final(bytes)@ == old(bytes)@ + be32(n),
{
    bytes.push((n / 16777216) as u8);
    bytes.push((n / 65536 % 256) as u8);
    bytes.push((n / 256 % 256) as u8);
    bytes.push((n % 256) as u8);
    assert(bytes@ =~= old(bytes)@ + be32(n));
}

/// The big-endian number at an offset.
pub fn read_be32(bytes: &[u8], at: usize) -> (n: u32)
    requires
        at + 4 <= bytes@.len(),
    ensures
        n == unbe32(bytes@.subrange(at as int, at + 4)),
{
    let a: u32 = bytes[at] as u32;
    let b: u32 = bytes[at + 1] as u32;
    let c: u32 = bytes[at + 2] as u32;
    let d: u32 = bytes[at + 3] as u32;
    a * 16777216 + b * 65536 + c * 256 + d
}

/// Eight bytes, most significant first.
pub open spec fn be64(n: u64) -> Seq<u8> {
    be32((n / 0x1_0000_0000) as u32) + be32((n % 0x1_0000_0000) as u32)
}

/// The number that eight bytes stand for.
pub open spec fn unbe64(bytes: Seq<u8>) -> int {
    unbe32(bytes.subrange(0, 4)) * 0x1_0000_0000 + unbe32(bytes.subrange(4, 8))
}

/// Reading a 64-bit number that was written gives the number back.
pub proof fn be64_round_trip(n: u64)
    ensures
        be64(n).len() == 8,
        unbe64(be64(n)) == n,
{
    let high = (n / 0x1_0000_0000) as u32;
    let low = (n % 0x1_0000_0000) as u32;
    be32_round_trip(high);
    be32_round_trip(low);
    assert(be64(n).subrange(0, 4) =~= be32(high));
    assert(be64(n).subrange(4, 8) =~= be32(low));
}

pub fn push_be64(bytes: &mut Vec<u8>, n: u64)
    ensures
        final(bytes)@ == old(bytes)@ + be64(n),
{
    push_be32(bytes, (n / 0x1_0000_0000) as u32);
    push_be32(bytes, (n % 0x1_0000_0000) as u32);
    assert(bytes@ =~= old(bytes)@ + be64(n));
}

pub fn read_be64(bytes: &[u8], at: usize) -> (n: u64)
    requires
        at + 8 <= bytes@.len(),
    ensures
        n == unbe64(bytes@.subrange(at as int, at + 8)),
{
    assert(bytes@.len() == bytes.len());
    let high = read_be32(bytes, at);
    let low = read_be32(bytes, at + 4);
    proof {
        let window = bytes@.subrange(at as int, at + 8);
        assert(window.subrange(0, 4) =~= bytes@.subrange(at as int, at + 4));
        assert(window.subrange(4, 8) =~= bytes@.subrange(at + 4, at + 8));
    }
    high as u64 * 0x1_0000_0000 + low as u64
}

} // verus!
