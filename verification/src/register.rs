//! Register addresses: hexadecimal register numbers such as `0X0041`, and
//! the readings found at them.

use vstd::prelude::*;
use vstd::utf8::{decode_utf8, encode_utf8, valid_utf8};
use crate::structs::SensorDatapoint;
use crate::text::{chars_of, to_uppercase, uppercase};

verus! {

/// `s` with every leading `0X` removed.
pub open spec fn strip_markers(s: Seq<char>) -> Seq<char>
    decreases s.len(),
{
    if s.len() >= 2 && s[0] == '0' && s[1] == 'X' {
        strip_markers(s.subrange(2, s.len() as int))
    } else {
        s
    }
}

/// A hexadecimal digit: `0`-`9`, `a`-`f` or `A`-`F`.
pub open spec fn is_hex_digit(c: char) -> bool {
    ('0' <= c && c <= '9') || ('a' <= c && c <= 'f') || ('A' <= c && c <= 'F')
}

/// The value of a hexadecimal digit.
pub open spec fn hex_digit_value(c: char) -> nat {
    if '0' <= c && c <= '9' {
        (c as int - '0' as int) as nat
    } else if 'a' <= c && c <= 'f' {
        (c as int - 'a' as int + 10) as nat
    } else {
        (c as int - 'A' as int + 10) as nat
    }
}

/// The value of a string of hexadecimal digits.
pub open spec fn hex_value(s: Seq<char>) -> nat
    decreases s.len(),
{
    if s.len() == 0 {
        0
    } else {
        hex_value(s.drop_last()) * 16 + hex_digit_value(s.last())
    }
}

/// The digits of a number written with an optional leading `+`.
pub open spec fn unsigned_digits(s: Seq<char>) -> Seq<char> {
    if s.len() > 0 && s[0] == '+' {
        s.drop_first()
    } else {
        s
    }
}

/// What `u16::from_str_radix(s, 16)` gives: an optional `+` followed by at
/// least one hexadecimal digit, with a value that fits in 16 bits.
pub open spec fn parse_hex_u16(s: Seq<char>) -> Option<u16> {
    let d = unsigned_digits(s);
    if d.len() > 0 && (forall|i: int| 0 <= i < d.len() ==> is_hex_digit(#[trigger] d[i]))
        && hex_value(d) <= u16::MAX {
        Some(hex_value(d) as u16)
    } else {
        None
    }
}

proof fn lemma_hex_value_grows(s: Seq<char>, k: int)
    requires
        0 <= k <= s.len(),
    ensures
        hex_value(s.take(k)) <= hex_value(s),
    decreases s.len() - k,
{
    if k < s.len() {
        lemma_hex_value_grows(s, k + 1);
        assert(s.take(k + 1).drop_last() =~= s.take(k));
    } else {
        assert(s.take(k) =~= s);
    }
}

fn hex_digit_value_exec(c: char) -> (result: Option<u32>)
    ensures
        result is Some <==> is_hex_digit(c),
        result matches Some(v) ==> v == hex_digit_value(c) && v < 16,
{
    if '0' <= c && c <= '9' {
        Some(c as u32 - '0' as u32)
    } else if 'a' <= c && c <= 'f' {
        Some(c as u32 - 'a' as u32 + 10)
    } else if 'A' <= c && c <= 'F' {
        Some(c as u32 - 'A' as u32 + 10)
    } else {
        None
    }
}

/// Parses a hexadecimal register number as `u16::from_str_radix(s, 16)`
/// does.
pub fn parse_hex(s: &str) -> (result: Option<u16>)
    ensures
        result == parse_hex_u16(s@),
{
    parse_hex_chars(&chars_of(s))
}

/// `parse_hex` over the characters of a text.
fn parse_hex_chars(chars: &Vec<char>) -> (result: Option<u16>)
    ensures
        result == parse_hex_u16(chars@),
{
    let ghost s = chars@;
    let start: usize = if chars.len() > 0 && chars[0] == '+' {
        1
    } else {
        0
    };
    let ghost d = unsigned_digits(s);
    assert(d =~= chars@.subrange(start as int, chars@.len() as int));
    let n = chars.len();
    if start == n {
        assert(d.len() == 0);
        return None;
    }
    let mut value: u32 = 0;
    let mut i: usize = start;
    while i < n
        invariant
            chars@ == s,
            d == chars@.subrange(start as int, n as int),
            d == unsigned_digits(s),
            start <= i <= n,
            n == chars@.len(),
            forall|k: int| 0 <= k < i - start ==> is_hex_digit(#[trigger] d[k]),
            value == hex_value(d.take(i - start)),
            value <= u16::MAX,
        decreases n - i,
    {
        match hex_digit_value_exec(chars[i]) {
            Some(digit) => {
                assert(d.take(i + 1 - start).drop_last() =~= d.take(i - start));
                assert(d[i - start] == chars@[i as int]);
                let next = value * 16 + digit;
                assert(hex_value(d.take(i + 1 - start)) == next);
                if next > 0xFFFF {
                    proof {
                        lemma_hex_value_grows(d, i + 1 - start);
                    }
                    assert(hex_value(d) > u16::MAX);
                    return None;
                }
                value = next;
            },
            None => {
                assert(d[i - start] == chars@[i as int]);
                assert(!is_hex_digit(d[i - start]));
                return None;
            },
        }
        i = i + 1;
    }
    assert(d.take(n - start) =~= d);
    Some(value as u16)
}

/// Removes every leading `0X` from `s`, as `str::trim_start_matches("0X")`
/// does.
pub fn strip_marker_prefix(s: &str) -> (result: Vec<char>)
    ensures
        result@ == strip_markers(s@),
{
    let chars = chars_of(s);
    let n = chars.len();
    let mut i: usize = 0;
    assert(chars@.subrange(0, n as int) =~= s@);
    while n >= 2 && i <= n - 2 && chars[i] == '0' && chars[i + 1] == 'X'
        invariant
            chars@ == s@,
            n == chars@.len(),
            i <= n,
            strip_markers(s@) == strip_markers(chars@.subrange(i as int, n as int)),
        decreases n - i,
    {
        assert(chars@.subrange(i as int, n as int).subrange(2, n - i) =~= chars@.subrange(
            i + 2,
            n as int,
        ));
        i = i + 2;
    }
    let mut result: Vec<char> = Vec::new();
    let mut j: usize = i;
    while j < n
        invariant
            chars@ == s@,
            n == chars@.len(),
            i <= j <= n,
            result@ == chars@.subrange(i as int, j as int),
        decreases n - j,
    {
        result.push(chars[j]);
        assert(result@ =~= chars@.subrange(i as int, j + 1));
        j = j + 1;
    }
    result
}

/// The value of the first reading at `address`, if there is one.
pub open spec fn first_reading(data: Seq<SensorDatapoint>, address: u16) -> Option<u16>
    decreases data.len(),
{
    if data.len() == 0 {
        None
    } else if data[0].address == address {
        Some(data[0].value)
    } else {
        first_reading(data.drop_first(), address)
    }
}

/// The reading at `address` is the value of the first datapoint at that
/// address (any address, 0 included), and there is none exactly when no
/// datapoint is at that address.
pub proof fn lemma_first_reading(data: Seq<SensorDatapoint>, address: u16, j: int)
    ensures
        first_reading(data, address) is None <==> forall|m: int|
            0 <= m < data.len() ==> #[trigger] data[m].address != address,
        0 <= j < data.len() && data[j].address == address && (forall|m: int|
            0 <= m < j ==> #[trigger] data[m].address != address) ==> first_reading(data, address)
            == Some(data[j].value),
    decreases data.len(),
{
    if data.len() > 0 {
        let rest = data.drop_first();
        lemma_first_reading(rest, address, j - 1);
        if data[0].address != address {
            assert forall|m: int| 0 <= m < rest.len() implies #[trigger] rest[m] == data[m + 1] by {}
            if first_reading(data, address) is None {
                assert forall|m: int| 0 <= m < data.len() implies #[trigger] data[m].address
                    != address by {
                    if m > 0 {
                        assert(rest[m - 1] == data[m]);
                    }
                }
            } else {
                let m = choose|m: int| 0 <= m < rest.len() && #[trigger] rest[m].address == address;
                assert(data[m + 1].address == address);
            }
            if 0 < j < data.len() && data[j].address == address && (forall|m: int|
                0 <= m < j ==> #[trigger] data[m].address != address) {
                assert forall|m: int| 0 <= m < j - 1 implies #[trigger] rest[m].address != address by {
                    assert(data[m + 1].address != address);
                }
            }
        } else {
            assert(data[0].address == address);
        }
    }
}

/// A register text can be looked up in `data`: there are no readings, or
/// the text, with its leading `0X`s removed, is a hexadecimal register number.
pub open spec fn register_ok(data: Seq<SensorDatapoint>, text: Seq<char>) -> bool {
    data.len() == 0 || parse_hex_u16(strip_markers(text)) is Some
}

/// The reading for a register text: the value of the first reading at the
/// register it names, or 0 when no reading is at that register or there are
/// no readings at all.
pub open spec fn register_value(data: Seq<SensorDatapoint>, text: Seq<char>) -> u16 {
    if data.len() == 0 {
        0
    } else {
        match parse_hex_u16(strip_markers(text)) {
            Some(address) => match first_reading(data, address) {
                Some(v) => v,
                None => 0,
            },
            None => 0,
        }
    }
}

/// The value of the first reading at `address`, if there is one.
pub fn find_reading(data: &Vec<SensorDatapoint>, address: u16) -> (result: Option<u16>)
    ensures
        result == first_reading(data@, address),
{
    let n = data.len();
    let mut i: usize = 0;
    assert(data@.skip(0) =~= data@);
    while i < n
        invariant
            n == data@.len(),
            i <= n,
            first_reading(data@, address) == first_reading(data@.skip(i as int), address),
        decreases n - i,
    {
        assert(data@.skip(i as int).drop_first() =~= data@.skip(i + 1));
        if data[i].address == address {
            return Some(data[i].value);
        }
        i = i + 1;
    }
    assert(data@.skip(n as int) =~= Seq::<SensorDatapoint>::empty());
    None
}

/// The reading for a register text such as `0X0041`; `None` when there are
/// readings and the text does not name a register.
pub fn read_register(data: &Vec<SensorDatapoint>, text: &str) -> (result: Option<u16>)
    ensures
        result is Some <==> register_ok(data@, text@),
        result matches Some(v) ==> v == register_value(data@, text@),
{
    if data.len() == 0 {
        return Some(0);
    }
    let digits = strip_marker_prefix(text);
    match parse_hex_chars(&digits) {
        Some(address) => match find_reading(data, address) {
            Some(v) => Some(v),
            None => Some(0),
        },
        None => None,
    }
}

/// The upper-case hexadecimal digit for `d` (0 to 15).
pub open spec fn hex_char(d: int) -> char {
    if d < 10 {
        (48 + d) as char
    } else {
        (55 + d) as char
    }
}

/// `n` written with four upper-case hexadecimal digits, as register numbers
/// are written after their `0X`.
pub open spec fn hex4(n: u16) -> Seq<char> {
    seq![
        hex_char((n >> 12u16) as int),
        hex_char(((n >> 8u16) & 15u16) as int),
        hex_char(((n >> 4u16) & 15u16) as int),
        hex_char((n & 15u16) as int),
    ]
}

proof fn lemma_hex_char(d: int)
    requires
        0 <= d < 16,
    ensures
        is_hex_digit(hex_char(d)),
        hex_digit_value(hex_char(d)) == d,
        hex_char(d) != 'X',
        hex_char(d) != '+',
{
}

/// Four hexadecimal digits of a register number read back as that number.
pub proof fn lemma_hex4_round_trip(n: u16)
    ensures
        parse_hex_u16(hex4(n)) == Some(n),
{
    let d0 = n >> 12u16;
    let d1 = (n >> 8u16) & 15u16;
    let d2 = (n >> 4u16) & 15u16;
    let d3 = n & 15u16;
    assert(d0 < 16 && d1 < 16 && d2 < 16 && d3 < 16) by (bit_vector)
        requires
            d0 == n >> 12u16,
            d1 == (n >> 8u16) & 15u16,
            d2 == (n >> 4u16) & 15u16,
            d3 == n & 15u16,
    ;
    assert(((d0 * 16 + d1) * 16 + d2) * 16 + d3 == n) by (bit_vector)
        requires
            d0 == n >> 12u16,
            d1 == (n >> 8u16) & 15u16,
            d2 == (n >> 4u16) & 15u16,
            d3 == n & 15u16,
    ;
    lemma_hex_char(d0 as int);
    lemma_hex_char(d1 as int);
    lemma_hex_char(d2 as int);
    lemma_hex_char(d3 as int);
    let h = hex4(n);
    assert(unsigned_digits(h) == h);
    let h1 = h.drop_last().drop_last().drop_last();
    assert(h1 =~= seq![hex_char(d0 as int)]);
    assert(h1.drop_last() =~= Seq::<char>::empty());
    assert(hex_value(h1.drop_last()) == 0);
    assert(h1.last() == hex_char(d0 as int));
    assert(hex_value(h1) == d0 as nat);
    assert(h.drop_last().drop_last().last() == hex_char(d1 as int));
    assert(hex_value(h.drop_last().drop_last()) == d0 * 16 + d1);
    assert(h.drop_last().last() == hex_char(d2 as int));
    assert(hex_value(h.drop_last()) == (d0 * 16 + d1) * 16 + d2);
    assert(h.last() == hex_char(d3 as int));
    assert(hex_value(h) == n);
    assert(forall|i: int| 0 <= i < h.len() ==> is_hex_digit(#[trigger] h[i]));
}

/// A register written as `0X` and four hexadecimal digits names that
/// register: reading it gives the first reading at the register, or 0 when
/// there is none.
pub proof fn lemma_register_round_trip(data: Seq<SensorDatapoint>, n: u16)
    ensures
        register_ok(data, seq!['0', 'X'] + hex4(n)),
        register_value(data, seq!['0', 'X'] + hex4(n)) == match first_reading(data, n) {
            Some(v) => v,
            None => 0u16,
        },
{
    let text = seq!['0', 'X'] + hex4(n);
    lemma_hex4_round_trip(n);
    assert(((n >> 8u16) & 15u16) < 16) by (bit_vector);
    lemma_hex_char(((n >> 8u16) & 15u16) as int);
    assert(text.subrange(2, text.len() as int) =~= hex4(n));
    assert(strip_markers(hex4(n)) == hex4(n));
    assert(strip_markers(text) == hex4(n));
}

/// `0X` stands at byte `i`.
pub open spec fn marker_at(b: Seq<u8>, i: int) -> bool {
    0 <= i && i + 1 < b.len() && b[i] == 48u8 && b[i + 1] == 88u8
}

/// The six bytes from `i` on.
pub open spec fn window(b: Seq<u8>, i: int) -> Seq<u8> {
    b.subrange(i, i + 6)
}

/// The register text that starts at a `0X` at byte `i`: six bytes, read as
/// UTF-8.
pub open spec fn register_text(b: Seq<u8>, i: int) -> Seq<char> {
    decode_utf8(window(b, i))
}

/// The six bytes from a `0X` at byte `i` exist, are UTF-8 and can be looked
/// up in `data`.
pub open spec fn window_ok(data: Seq<SensorDatapoint>, b: Seq<u8>, i: int) -> bool {
    i + 6 <= b.len() && valid_utf8(window(b, i)) && register_ok(data, register_text(b, i))
}

/// Every `0X` from byte `i` on opens a window that is fine (`window_ok`).
/// The `0X`s are found left to right, the search going on after each.
pub open spec fn windows_ok_from(data: Seq<SensorDatapoint>, b: Seq<u8>, i: int) -> bool
    decreases b.len() - i,
{
    if i < 0 || i >= b.len() {
        true
    } else if marker_at(b, i) {
        window_ok(data, b, i) && windows_ok_from(data, b, i + 2)
    } else {
        windows_ok_from(data, b, i + 1)
    }
}

/// The registers of a formula from byte `i` on: for each `0X`, its register
/// text with the reading for that text.
pub open spec fn readings_from(data: Seq<SensorDatapoint>, b: Seq<u8>, i: int) -> Seq<
    (Seq<char>, u16),
>
    decreases b.len() - i,
{
    if i < 0 || i >= b.len() {
        Seq::empty()
    } else if marker_at(b, i) {
        seq![(register_text(b, i), register_value(data, register_text(b, i)))] + readings_from(
            data,
            b,
            i + 2,
        )
    } else {
        readings_from(data, b, i + 1)
    }
}

/// The positions of the `0X` markers that the left-to-right search finds from
/// byte `i` on, each search going on after the marker it found.
pub open spec fn marker_positions_from(b: Seq<u8>, i: int) -> Seq<int>
    decreases b.len() - i,
{
    if i < 0 || i >= b.len() {
        Seq::empty()
    } else if marker_at(b, i) {
        seq![i] + marker_positions_from(b, i + 2)
    } else {
        marker_positions_from(b, i + 1)
    }
}

proof fn lemma_readings_from_markers(data: Seq<SensorDatapoint>, b: Seq<u8>, i: int)
    requires
        0 <= i,
    ensures
        readings_from(data, b, i).len() == marker_positions_from(b, i).len(),
        forall|k: int|
            0 <= k < marker_positions_from(b, i).len() ==> i <= #[trigger] marker_positions_from(
                b,
                i,
            )[k] && marker_at(b, marker_positions_from(b, i)[k]) && readings_from(data, b, i)[k] == (
            register_text(b, marker_positions_from(b, i)[k]),
            register_value(data, register_text(b, marker_positions_from(b, i)[k])),
        ),
        forall|k: int|
            0 <= k < marker_positions_from(b, i).len() - 1 ==> #[trigger] marker_positions_from(
                b,
                i,
            )[k] + 2 <= marker_positions_from(b, i)[k + 1],
    decreases b.len() - i,
{
    if i < b.len() {
        if marker_at(b, i) {
            lemma_readings_from_markers(data, b, i + 2);
            let ps = marker_positions_from(b, i + 2);
            let rs = readings_from(data, b, i + 2);
            assert(marker_positions_from(b, i) == seq![i] + ps);
            assert(readings_from(data, b, i) == seq![(register_text(b, i), register_value(data, register_text(b, i)))] + rs);
            assert forall|k: int| 0 <= k < marker_positions_from(b, i).len() implies i
                <= #[trigger] marker_positions_from(b, i)[k] && marker_at(b, marker_positions_from(b, i)[k])
                && readings_from(data, b, i)[k] == (
                register_text(b, marker_positions_from(b, i)[k]),
                register_value(data, register_text(b, marker_positions_from(b, i)[k])),
            ) by {
                if k > 0 {
                    assert(marker_positions_from(b, i)[k] == ps[k - 1]);
                    assert(readings_from(data, b, i)[k] == rs[k - 1]);
                }
            }
            assert forall|k: int| 0 <= k < marker_positions_from(b, i).len() - 1 implies #[trigger] marker_positions_from(
                b,
                i,
            )[k] + 2 <= marker_positions_from(b, i)[k + 1] by {
                assert(marker_positions_from(b, i)[k + 1] == ps[k]);
                if k > 0 {
                    assert(marker_positions_from(b, i)[k] == ps[k - 1]);
                }
            }
        } else {
            lemma_readings_from_markers(data, b, i + 1);
            assert(marker_positions_from(b, i) == marker_positions_from(b, i + 1));
            assert(readings_from(data, b, i) == readings_from(data, b, i + 1));
        }
    }
}

/// A formula has exactly one register per `0X` marker that the search finds,
/// whatever the readings: in marker order, each with the six-byte register
/// text at its marker and the reading for that text, a reading of 0 or a
/// missing reading included.
pub proof fn lemma_formula_readings(data: Seq<SensorDatapoint>, expression: Seq<char>)
    ensures
        formula_readings(data, expression).len() == marker_positions_from(encode_utf8(expression), 0).len(),
        forall|k: int|
            0 <= k < formula_readings(data, expression).len() ==> marker_at(
                encode_utf8(expression),
                #[trigger] marker_positions_from(encode_utf8(expression), 0)[k],
            ) && formula_readings(data, expression)[k] == (
                register_text(encode_utf8(expression), marker_positions_from(encode_utf8(expression), 0)[k]),
                register_value(
                    data,
                    register_text(encode_utf8(expression), marker_positions_from(encode_utf8(expression), 0)[k]),
                ),
            ),
        forall|k: int|
            0 <= k < formula_readings(data, expression).len() - 1 ==> #[trigger] marker_positions_from(
                encode_utf8(expression),
                0,
            )[k] + 2 <= marker_positions_from(encode_utf8(expression), 0)[k + 1],
{
    lemma_readings_from_markers(data, encode_utf8(expression), 0);
}

/// Two sets of readings give a formula the same registers in the same order;
/// only the values bound to them differ.
pub proof fn lemma_formula_registers_ignore_readings(
    data1: Seq<SensorDatapoint>,
    data2: Seq<SensorDatapoint>,
    expression: Seq<char>,
)
    ensures
        formula_readings(data1, expression).len() == formula_readings(data2, expression).len(),
        forall|k: int|
            0 <= k < formula_readings(data1, expression).len() ==> (#[trigger] formula_readings(
                data1,
                expression,
            )[k]).0 == formula_readings(data2, expression)[k].0,
{
    lemma_formula_readings(data1, expression);
    lemma_formula_readings(data2, expression);
    assert forall|k: int| 0 <= k < formula_readings(data1, expression).len() implies (#[trigger] formula_readings(
        data1,
        expression,
    )[k]).0 == formula_readings(data2, expression)[k].0 by {
        assert(marker_at(encode_utf8(expression), marker_positions_from(encode_utf8(expression), 0)[k]));
    }
}

/// The registers of a formula can all be read.
pub open spec fn formula_ok(data: Seq<SensorDatapoint>, expression: Seq<char>) -> bool {
    windows_ok_from(data, encode_utf8(expression), 0)
}

/// The registers of a formula, each with its reading, in order.
pub open spec fn formula_readings(data: Seq<SensorDatapoint>, expression: Seq<char>) -> Seq<
    (Seq<char>, u16),
> {
    readings_from(data, encode_utf8(expression), 0)
}

/// Each name in upper case.
pub open spec fn upper_names(pairs: Seq<(Seq<char>, u16)>) -> Seq<(Seq<char>, u16)> {
    pairs.map_values(|p: (Seq<char>, u16)| (uppercase(p.0), p.1))
}

/// The variable bindings of a formula over the readings: each register text
/// in upper case, bound to its reading.
pub open spec fn formula_bindings(data: Seq<SensorDatapoint>, expression: Seq<char>) -> Seq<
    (Seq<char>, u16),
> {
    upper_names(formula_readings(data, expression))
}

/// The views of bindings held as strings.
pub open spec fn binding_views(bindings: Seq<(String, u16)>) -> Seq<(Seq<char>, u16)> {
    bindings.map_values(|b: (String, u16)| (b.0@, b.1))
}

/// Calls `std::str::from_utf8` and copies the text into a `String`: `Some`
/// exactly when the bytes are valid UTF-8, and then the text that they
/// encode.
#[verifier::external_body]
fn utf8_text(bytes: &[u8]) -> (result: Option<String>)
    ensures
        result is Some <==> valid_utf8(bytes@),
        result matches Some(t) ==> encode_utf8(t@) == bytes@,
{
    std::str::from_utf8(bytes).ok().map(|t| t.to_string())
}

/// The registers of a formula: each `0X` in the expression opens a six-byte
/// register text, paired with the reading for it. `None` when one of the
/// registers cannot be read (`formula_ok`).
pub fn formula_registers(data: &Vec<SensorDatapoint>, expression: &str) -> (result: Option<
    Vec<(String, u16)>,
>)
    ensures
        result is Some <==> formula_ok(data@, expression@),
        result matches Some(v) ==> binding_views(v@) == formula_readings(data@, expression@),
{
    let bytes = expression.as_bytes();
    let ghost b = bytes@;
    let n = bytes.len();
    let mut result: Vec<(String, u16)> = Vec::new();
    let mut i: usize = 0;
    while i < n
        invariant
            b == bytes@,
            b == encode_utf8(expression@),
            n == b.len(),
            i <= n,
            formula_ok(data@, expression@) == windows_ok_from(data@, b, i as int),
            binding_views(result@) + readings_from(data@, b, i as int) == formula_readings(
                data@,
                expression@,
            ),
        decreases n - i,
    {
        if i + 1 < n && bytes[i] == 48u8 && bytes[i + 1] == 88u8 {
            assert(marker_at(b, i as int));
            if n < 6 || i > n - 6 {
                return None;
            }
            let mut w: Vec<u8> = Vec::new();
            let mut k: usize = 0;
            while k < 6
                invariant
                    b == bytes@,
                    n == b.len(),
                    i + 6 <= n,
                    k <= 6,
                    w@ == b.subrange(i as int, i + k),
                decreases 6 - k,
            {
                w.push(bytes[i + k]);
                assert(w@ =~= b.subrange(i as int, i + k + 1));
                k = k + 1;
            }
            match utf8_text(w.as_slice()) {
                Some(text) => {
                    proof {
                        vstd::utf8::encode_utf8_decode_utf8(text@);
                    }
                    assert(text@ == register_text(b, i as int));
                    let value = match read_register(data, text.as_str()) {
                        Some(v) => v,
                        None => {
                            return None;
                        },
                    };
                    let ghost before = binding_views(result@);
                    let ghost text_view = text@;
                    result.push((text, value));
                    assert(binding_views(result@) =~= before + seq![(text_view, value)]);
                    assert(binding_views(result@) + readings_from(data@, b, i + 2) =~= before
                        + readings_from(data@, b, i as int));
                    i = i + 2;
                },
                None => {
                    return None;
                },
            }
        } else {
            assert(!marker_at(b, i as int));
            i = i + 1;
        }
    }
    assert(binding_views(result@) + readings_from(data@, b, i as int) =~= binding_views(result@));
    Some(result)
}

/// The variables of a formula: each `0X` in the expression opens a six-byte
/// register text, bound under its upper-case form to the reading for it.
/// `None` when one of the registers cannot be read (`formula_ok`).
pub fn formula_inputs(data: &Vec<SensorDatapoint>, expression: &str) -> (result: Option<
    Vec<(String, u16)>,
>)
    ensures
        result is Some <==> formula_ok(data@, expression@),
        result matches Some(v) ==> binding_views(v@) == formula_bindings(data@, expression@),
{
    let registers = match formula_registers(data, expression) {
        Some(r) => r,
        None => {
            return None;
        },
    };
    let ghost readings = binding_views(registers@);
    let mut result: Vec<(String, u16)> = Vec::new();
    let n = registers.len();
    let mut i: usize = 0;
    while i < n
        invariant
            n == registers@.len(),
            readings == binding_views(registers@),
            readings == formula_readings(data@, expression@),
            i <= n,
            binding_views(result@) == upper_names(readings.take(i as int)),
        decreases n - i,
    {
        let (text, value) = &registers[i];
        let name = to_uppercase(text.as_str());
        let ghost before = binding_views(result@);
        result.push((name, *value));
        assert(binding_views(result@) =~= before.push((uppercase(readings[i as int].0), readings[i as int].1)));
        assert(upper_names(readings.take(i + 1)) =~= upper_names(readings.take(i as int)).push(
            (uppercase(readings[i as int].0), readings[i as int].1),
        ));
        i = i + 1;
    }
    assert(readings.take(n as int) =~= readings);
    Some(result)
}

} // verus!
