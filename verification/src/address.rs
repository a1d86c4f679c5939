//! Extraction of sensor addresses (such as `mb_1_176_holding_2102`) from a
//! mapping expression.

use vstd::prelude::*;
use vstd::utf8::{decode_utf8, encode_utf8, is_char_boundary};
use crate::text::{chars_of, is_ascii_text};

verus! {

/// A character that may occur inside an address: a lowercase ASCII letter,
/// an ASCII digit or an underscore.
pub open spec fn is_address_char(c: char) -> bool {
    ('a' <= c && c <= 'z') || ('0' <= c && c <= '9') || c == '_'
}

/// The two characters that open an address: `mb`, `in`, `ho` or `p_`.
pub open spec fn is_address_prefix(c0: char, c1: char) -> bool {
    (c0 == 'm' && c1 == 'b') || (c0 == 'i' && c1 == 'n') || (c0 == 'h' && c1 == 'o') || (c0 == 'p'
        && c1 == '_')
}

/// An address opens at position `i` of `s`.
pub open spec fn address_starts_at(s: Seq<char>, i: int) -> bool {
    0 <= i && i + 1 < s.len() && is_address_prefix(s[i], s[i + 1])
}

/// The length of the run of address characters that begins at position `i`.
pub open spec fn address_len(s: Seq<char>, i: int) -> nat
    decreases s.len() - i,
{
    if 0 <= i < s.len() && is_address_char(s[i]) {
        1 + address_len(s, i + 1)
    } else {
        0
    }
}

/// A run of address characters never runs past the end of the text.
pub proof fn lemma_address_len_bound(s: Seq<char>, i: int)
    requires
        0 <= i <= s.len(),
    ensures
        i + address_len(s, i) <= s.len(),
    decreases s.len() - i,
{
    if i < s.len() && is_address_char(s[i]) {
        lemma_address_len_bound(s, i + 1);
    }
}

/// The addresses found by a left-to-right scan of `s` from position `i`:
/// the text is cut into maximal runs of address characters, and a run is an
/// address when it opens with one of the address prefixes.
pub open spec fn addresses_from(s: Seq<char>, i: int) -> Seq<Seq<char>>
    decreases s.len() - i,
{
    if i < 0 || i >= s.len() {
        Seq::empty()
    } else if is_address_char(s[i]) {
        let n = address_len(s, i);
        proof {
            lemma_address_len_bound(s, i);
            assert(n == 1 + address_len(s, i + 1));
            assert(s.len() - (i + n) < s.len() - i);
        }
        if address_starts_at(s, i) {
            seq![s.subrange(i, i + n)] + addresses_from(s, i + n)
        } else {
            addresses_from(s, i + n)
        }
    } else {
        addresses_from(s, i + 1)
    }
}

/// All addresses of an expression, in the order in which they occur.
pub open spec fn addresses(s: Seq<char>) -> Seq<Seq<char>> {
    addresses_from(s, 0)
}

/// `t` is an address of `s` found at position `i`: `s` has a maximal run of
/// address characters at `i` that opens with an address prefix, and `t` is
/// that run.
pub open spec fn is_address_at(s: Seq<char>, i: int, t: Seq<char>) -> bool {
    &&& 0 <= i
    &&& i + t.len() <= s.len()
    &&& t.len() >= 2
    &&& is_address_prefix(t[0], t[1])
    &&& t == s.subrange(i, i + t.len())
    &&& forall|m: int| 0 <= m < t.len() ==> is_address_char(#[trigger] t[m])
    &&& i == 0 || !is_address_char(s[i - 1])
    &&& i + t.len() == s.len() || !is_address_char(s[i + t.len()])
}

/// The run at `i` consists of address characters and is followed by the end
/// of the text or by a character that is no address character.
proof fn lemma_address_len_run(s: Seq<char>, i: int)
    requires
        0 <= i <= s.len(),
    ensures
        i + address_len(s, i) <= s.len(),
        forall|m: int| i <= m < i + address_len(s, i) ==> is_address_char(#[trigger] s[m]),
        i + address_len(s, i) == s.len() || !is_address_char(s[i + address_len(s, i)]),
    decreases s.len() - i,
{
    if i < s.len() && is_address_char(s[i]) {
        lemma_address_len_run(s, i + 1);
    }
}

/// A position where the scan may stand: the start of the text, just after a
/// character that is no address character, or on such a character.
spec fn scan_boundary(s: Seq<char>, i: int) -> bool {
    ||| i == 0
    ||| (0 < i <= s.len() && !is_address_char(s[i - 1]))
    ||| (0 <= i < s.len() && !is_address_char(s[i]))
    ||| i >= s.len()
}

/// The positions at which the scan of `addresses_from(s, i)` finds its
/// addresses.
pub open spec fn address_positions_from(s: Seq<char>, i: int) -> Seq<int>
    decreases s.len() - i,
{
    if i < 0 || i >= s.len() {
        Seq::empty()
    } else if is_address_char(s[i]) {
        let n = address_len(s, i);
        proof {
            lemma_address_len_bound(s, i);
            assert(n == 1 + address_len(s, i + 1));
        }
        if address_starts_at(s, i) {
            seq![i] + address_positions_from(s, i + n)
        } else {
            address_positions_from(s, i + n)
        }
    } else {
        address_positions_from(s, i + 1)
    }
}

/// The positions of the addresses of `s`, in order.
pub open spec fn address_positions(s: Seq<char>) -> Seq<int> {
    address_positions_from(s, 0)
}

proof fn lemma_addresses_from_sound(s: Seq<char>, i: int)
    requires
        0 <= i,
        scan_boundary(s, i),
    ensures
        address_positions_from(s, i).len() == addresses_from(s, i).len(),
        forall|k: int|
            0 <= k < addresses_from(s, i).len() ==> i <= #[trigger] address_positions_from(s, i)[k]
                && is_address_at(s, address_positions_from(s, i)[k], addresses_from(s, i)[k]),
        forall|k1: int, k2: int|
            0 <= k1 < k2 < addresses_from(s, i).len() ==> #[trigger] address_positions_from(s, i)[k1]
                + addresses_from(s, i)[k1].len() < #[trigger] address_positions_from(s, i)[k2],
    decreases s.len() - i,
{
    if i < s.len() {
        if is_address_char(s[i]) {
            let n = address_len(s, i);
            lemma_address_len_run(s, i);
            lemma_address_len_bound(s, i);
            assert(n == 1 + address_len(s, i + 1));
            lemma_addresses_from_sound(s, i + n);
            let rest = addresses_from(s, i + n);
            let ps = address_positions_from(s, i + n);
            let t = s.subrange(i, i + n);
            if address_starts_at(s, i) {
                assert(is_address_at(s, i, t));
                assert(addresses_from(s, i) == seq![t] + rest);
                assert(address_positions_from(s, i) == seq![i] + ps);
                assert forall|k1: int, k2: int|
                    0 <= k1 < k2 < addresses_from(s, i).len() implies #[trigger] address_positions_from(
                        s,
                        i,
                    )[k1] + addresses_from(s, i)[k1].len() < #[trigger] address_positions_from(s, i)[k2] by {
                    assert(address_positions_from(s, i)[k2] == ps[k2 - 1]);
                    if k1 > 0 {
                        assert(address_positions_from(s, i)[k1] == ps[k1 - 1]);
                        assert(addresses_from(s, i)[k1] == rest[k1 - 1]);
                    } else {
                        assert(ps[k2 - 1] >= i + n);
                        assert(s[i + n] == s[i + n]);
                    }
                }
                assert forall|k: int| 0 <= k < addresses_from(s, i).len() implies i
                    <= #[trigger] address_positions_from(s, i)[k] && is_address_at(
                    s,
                    address_positions_from(s, i)[k],
                    addresses_from(s, i)[k],
                ) by {
                    if k > 0 {
                        assert(address_positions_from(s, i)[k] == ps[k - 1]);
                        assert(addresses_from(s, i)[k] == rest[k - 1]);
                    }
                }
            } else {
                assert(addresses_from(s, i) == rest);
                assert(address_positions_from(s, i) == ps);
            }
        } else {
            lemma_addresses_from_sound(s, i + 1);
            assert(addresses_from(s, i) == addresses_from(s, i + 1));
            assert(address_positions_from(s, i) == address_positions_from(s, i + 1));
        }
    }
}

/// Every address that `parse_address` reports is a maximal run of address
/// characters of the input that opens with `mb`, `in`, `ho` or `p_`, found at
/// `address_positions(s)`; the addresses come in the order in which they
/// occur, each ending before the next begins.
pub proof fn lemma_addresses_are_runs(s: Seq<char>)
    ensures
        address_positions(s).len() == addresses(s).len(),
        forall|k: int|
            0 <= k < addresses(s).len() ==> is_address_at(
                s,
                #[trigger] address_positions(s)[k],
                addresses(s)[k],
            ),
        forall|k1: int, k2: int|
            0 <= k1 < k2 < addresses(s).len() ==> #[trigger] address_positions(s)[k1]
                + addresses(s)[k1].len() < #[trigger] address_positions(s)[k2],
{
    lemma_addresses_from_sound(s, 0);
}

/// `t` is a whole address: at least two address characters, opening with an
/// address prefix.
pub open spec fn is_address(t: Seq<char>) -> bool {
    &&& t.len() >= 2
    &&& is_address_prefix(t[0], t[1])
    &&& forall|m: int| 0 <= m < t.len() ==> is_address_char(#[trigger] t[m])
}

/// The text that lists `ts`, each address followed by `sep`.
pub open spec fn join_addresses(ts: Seq<Seq<char>>, sep: char) -> Seq<char>
    decreases ts.len(),
{
    if ts.len() == 0 {
        Seq::empty()
    } else {
        join_addresses(ts.drop_last(), sep) + ts.last() + seq![sep]
    }
}

/// A run found in `q` is found at the same place in `p + q`.
proof fn lemma_address_len_shift(p: Seq<char>, q: Seq<char>, j: int)
    requires
        0 <= j,
    ensures
        address_len(p + q, p.len() + j) == address_len(q, j),
    decreases q.len() - j,
{
    if j < q.len() {
        assert((p + q)[p.len() + j] == q[j]);
        lemma_address_len_shift(p, q, j + 1);
    }
}

/// The scan of `p + q` from inside `q` does not look back into `p`.
proof fn lemma_addresses_from_shift(p: Seq<char>, q: Seq<char>, j: int)
    requires
        0 <= j,
    ensures
        addresses_from(p + q, p.len() + j) == addresses_from(q, j),
    decreases q.len() - j,
{
    let s = p + q;
    let i = p.len() + j;
    if j < q.len() {
        assert(s[i] == q[j]);
        if is_address_char(q[j]) {
            let n = address_len(q, j);
            lemma_address_len_shift(p, q, j);
            lemma_address_len_bound(q, j);
            assert(n == 1 + address_len(q, j + 1));
            lemma_addresses_from_shift(p, q, j + n);
            if j + 1 < q.len() {
                assert(s[i + 1] == q[j + 1]);
            }
            assert(address_starts_at(s, i) == address_starts_at(q, j));
            assert(s.subrange(i, i + n) =~= q.subrange(j, j + n));
        } else {
            lemma_addresses_from_shift(p, q, j + 1);
        }
    }
}

/// Inside `a`, a run stops before the end of `a` when `a` ends with a
/// character that is no address character.
proof fn lemma_address_len_prefix(a: Seq<char>, b: Seq<char>, i: int)
    requires
        0 <= i < a.len(),
        !is_address_char(a.last()),
    ensures
        address_len(a + b, i) == address_len(a, i),
        i + address_len(a, i) < a.len(),
    decreases a.len() - i,
{
    assert((a + b)[i] == a[i]);
    if is_address_char(a[i]) {
        assert(i + 1 < a.len());
        lemma_address_len_prefix(a, b, i + 1);
    }
}

proof fn lemma_addresses_from_prefix(a: Seq<char>, b: Seq<char>, i: int)
    requires
        0 <= i <= a.len(),
        a.len() == 0 || !is_address_char(a.last()),
    ensures
        addresses_from(a + b, i) == addresses_from(a, i) + addresses(b),
    decreases a.len() - i,
{
    let s = a + b;
    if i == a.len() {
        lemma_addresses_from_shift(a, b, 0);
        assert(addresses_from(a, i) + addresses(b) =~= addresses(b));
    } else {
        assert(s[i] == a[i]);
        if is_address_char(a[i]) {
            let n = address_len(a, i);
            lemma_address_len_prefix(a, b, i);
            lemma_address_len_bound(a, i);
            assert(n == 1 + address_len(a, i + 1));
            lemma_addresses_from_prefix(a, b, i + n);
            assert(s[i + 1] == a[i + 1]);
            assert(address_starts_at(s, i) == address_starts_at(a, i));
            assert(s.subrange(i, i + n) =~= a.subrange(i, i + n));
            if address_starts_at(a, i) {
                assert(addresses_from(s, i) =~= addresses_from(a, i) + addresses(b));
            }
        } else {
            lemma_addresses_from_prefix(a, b, i + 1);
        }
    }
}

/// Splitting a text after a character that is no address character splits
/// its addresses the same way: the addresses of `a + b` are those of `a`
/// followed by those of `b`.
pub proof fn lemma_addresses_concat(a: Seq<char>, b: Seq<char>)
    requires
        a.len() == 0 || !is_address_char(a.last()),
    ensures
        addresses(a + b) == addresses(a) + addresses(b),
{
    lemma_addresses_from_prefix(a, b, 0);
}

/// A run of address characters from `i` to the end has the whole rest as
/// its length, when `rest` does not continue it.
proof fn lemma_address_len_whole(t: Seq<char>, rest: Seq<char>, i: int)
    requires
        0 <= i <= t.len(),
        forall|m: int| 0 <= m < t.len() ==> is_address_char(#[trigger] t[m]),
        rest.len() == 0 || !is_address_char(rest[0]),
    ensures
        address_len(t + rest, i) == t.len() - i,
    decreases t.len() - i,
{
    let s = t + rest;
    if i < t.len() {
        assert(s[i] == t[i]);
        lemma_address_len_whole(t, rest, i + 1);
    } else if rest.len() > 0 {
        assert(s[i] == rest[0]);
    }
}

/// An address followed by a text that does not continue it is found first,
/// and the addresses of the text follow it.
pub proof fn lemma_address_then(t: Seq<char>, rest: Seq<char>)
    requires
        is_address(t),
        rest.len() == 0 || !is_address_char(rest[0]),
    ensures
        addresses(t + rest) == seq![t] + addresses(rest),
{
    let s = t + rest;
    lemma_address_len_whole(t, rest, 0);
    lemma_addresses_from_shift(t, rest, 0);
    assert(s[0] == t[0] && s[1] == t[1]);
    assert(address_starts_at(s, 0));
    assert(s.subrange(0, t.len() as int) =~= t);
}

/// Addresses listed one after the other, each followed by a separator that
/// is no address character, are found again, in order.
pub proof fn lemma_join_round_trip(ts: Seq<Seq<char>>, sep: char)
    requires
        forall|k: int| 0 <= k < ts.len() ==> is_address(#[trigger] ts[k]),
        !is_address_char(sep),
    ensures
        addresses(join_addresses(ts, sep)) == ts,
    decreases ts.len(),
{
    if ts.len() > 0 {
        let init = ts.drop_last();
        let front = join_addresses(init, sep);
        lemma_join_round_trip(init, sep);
        let t = ts.last();
        assert(is_address(ts[ts.len() - 1]));
        if front.len() > 0 {
            assert(front.last() == sep) by {
                assert(init.len() > 0);
            }
        }
        lemma_addresses_concat(front, t + seq![sep]);
        lemma_address_then(t, seq![sep]);
        assert(addresses(seq![sep]) =~= Seq::<Seq<char>>::empty()) by {
            assert(addresses_from(seq![sep], 1) =~= Seq::<Seq<char>>::empty());
        }
        assert(front + (t + seq![sep]) =~= join_addresses(ts, sep));
        assert(init + seq![t] =~= ts);
    } else {
        assert(addresses(Seq::<char>::empty()) =~= Seq::<Seq<char>>::empty());
    }
}

/// The text of `s` from byte `p` of its UTF-8 encoding on.
pub open spec fn text_from_byte(s: Seq<char>, p: int) -> Seq<char> {
    decode_utf8(encode_utf8(s).subrange(p, encode_utf8(s).len() as int))
}

/// What `parse_address` reports for an address found at character position
/// `p`: the position is taken as a byte offset into the UTF-8 text, and the
/// run of address characters from that byte on is reported. On ASCII text
/// this is the address itself.
pub open spec fn token_at(s: Seq<char>, p: int) -> Seq<char> {
    text_from_byte(s, p).take(address_len(text_from_byte(s, p), 0) as int)
}

/// What `parse_address` reports for the addresses found from position `i` on.
pub open spec fn tokens_from(s: Seq<char>, i: int) -> Seq<Seq<char>>
    decreases s.len() - i,
{
    if i < 0 || i >= s.len() {
        Seq::empty()
    } else if is_address_char(s[i]) {
        let n = address_len(s, i);
        proof {
            lemma_address_len_bound(s, i);
            assert(n == 1 + address_len(s, i + 1));
        }
        if address_starts_at(s, i) {
            seq![token_at(s, i)] + tokens_from(s, i + n)
        } else {
            tokens_from(s, i + n)
        }
    } else {
        tokens_from(s, i + 1)
    }
}

/// What `parse_address` reports for the addresses of `s`, in order.
pub open spec fn address_tokens(s: Seq<char>) -> Seq<Seq<char>> {
    tokens_from(s, 0)
}

/// Every address found from position `i` on starts at a character position
/// that, taken as a byte offset, is a character boundary of the UTF-8 text.
pub open spec fn boundaries_from(s: Seq<char>, i: int) -> bool
    decreases s.len() - i,
{
    if i < 0 || i >= s.len() {
        true
    } else if is_address_char(s[i]) {
        let n = address_len(s, i);
        proof {
            lemma_address_len_bound(s, i);
            assert(n == 1 + address_len(s, i + 1));
        }
        if address_starts_at(s, i) {
            is_char_boundary(encode_utf8(s), i) && boundaries_from(s, i + n)
        } else {
            boundaries_from(s, i + n)
        }
    } else {
        boundaries_from(s, i + 1)
    }
}

/// `parse_address` can slice the text at every address it finds.
pub open spec fn address_boundaries_ok(s: Seq<char>) -> bool {
    boundaries_from(s, 0)
}

/// The UTF-8 encoding of ASCII text is its characters, one byte each.
proof fn lemma_encode_ascii(s: Seq<char>)
    requires
        is_ascii_text(s),
    ensures
        encode_utf8(s).len() == s.len(),
        forall|i: int| 0 <= i < s.len() ==> encode_utf8(s)[i] == (#[trigger] s[i] as u32) as u8,
    decreases s.len(),
{
    if s.len() > 0 {
        let rest = s.drop_first();
        assert forall|i: int| 0 <= i < rest.len() implies (#[trigger] rest[i] as u32) < 128 by {
            assert(rest[i] == s[i + 1]);
        }
        lemma_encode_ascii(rest);
        let c = s[0] as u32;
        assert(c < 128);
        assert((c & 0x7F) as u8 == c as u8) by (bit_vector)
            requires
                c < 128,
        ;
        assert forall|i: int| 0 <= i < s.len() implies encode_utf8(s)[i] == (#[trigger] s[i]
            as u32) as u8 by {
            if i > 0 {
                assert(s[i] == rest[i - 1]);
            }
        }
    }
}

/// In ASCII text every position is a character boundary, and the text from
/// a byte on is the text from that character on.
proof fn lemma_ascii_bytes(s: Seq<char>, p: int)
    requires
        is_ascii_text(s),
        0 <= p <= s.len(),
    ensures
        is_char_boundary(encode_utf8(s), p),
        text_from_byte(s, p) == s.subrange(p, s.len() as int),
{
    let b = encode_utf8(s);
    lemma_encode_ascii(s);
    vstd::utf8::encode_utf8_valid_utf8(s);
    if p < s.len() {
        vstd::utf8::is_char_boundary_iff_not_is_continuation_byte(b, p);
        let c = s[p] as u32;
        assert(c < 128);
        assert((c as u8) < 0x80) by (bit_vector)
            requires
                c < 128,
        ;
    } else {
        vstd::utf8::is_char_boundary_start_end_of_seq(b);
    }
    let t = s.subrange(p, s.len() as int);
    assert forall|i: int| 0 <= i < t.len() implies (#[trigger] t[i] as u32) < 128 by {
        assert(t[i] == s[p + i]);
    }
    lemma_encode_ascii(t);
    assert(encode_utf8(t) =~= b.subrange(p, b.len() as int)) by {
        assert forall|i: int| 0 <= i < encode_utf8(t).len() implies encode_utf8(t)[i] == b.subrange(
            p,
            b.len() as int,
        )[i] by {
            assert(t[i] == s[p + i]);
        }
    }
    vstd::utf8::encode_utf8_decode_utf8(t);
}

proof fn lemma_ascii_tokens_from(s: Seq<char>, i: int)
    requires
        is_ascii_text(s),
        0 <= i,
    ensures
        boundaries_from(s, i),
        tokens_from(s, i) == addresses_from(s, i),
    decreases s.len() - i,
{
    if i < s.len() {
        if is_address_char(s[i]) {
            let n = address_len(s, i);
            lemma_address_len_bound(s, i);
            assert(n == 1 + address_len(s, i + 1));
            lemma_ascii_tokens_from(s, i + n);
            if address_starts_at(s, i) {
                lemma_ascii_bytes(s, i);
                lemma_address_len_suffix(s, i);
                assert(token_at(s, i) =~= s.subrange(i, i + n));
            }
        } else {
            lemma_ascii_tokens_from(s, i + 1);
        }
    }
}

/// The run of address characters at position `i` is the run at the start
/// of the text from `i` on.
proof fn lemma_address_len_suffix(s: Seq<char>, i: int)
    requires
        0 <= i <= s.len(),
    ensures
        address_len(s.subrange(i, s.len() as int), 0) == address_len(s, i),
    decreases s.len() - i,
{
    let t = s.subrange(i, s.len() as int);
    lemma_address_len_shift(s.subrange(0, i), t, 0);
    assert(s.subrange(0, i) + t =~= s);
}

/// On ASCII text `parse_address` can slice at every address, and what it
/// reports are the addresses themselves.
pub proof fn lemma_ascii_tokens(s: Seq<char>)
    requires
        is_ascii_text(s),
    ensures
        address_boundaries_ok(s),
        address_tokens(s) == addresses(s),
{
    lemma_ascii_tokens_from(s, 0);
}

/// The views of a vector of strings.
pub open spec fn string_views(v: Seq<String>) -> Seq<Seq<char>> {
    v.map_values(|a: String| a@)
}

fn is_address_char_exec(c: char) -> (b: bool)
    ensures
        b == is_address_char(c),
{
    ('a' <= c && c <= 'z') || ('0' <= c && c <= '9') || c == '_'
}

fn is_address_prefix_exec(c0: char, c1: char) -> (b: bool)
    ensures
        b == is_address_prefix(c0, c1),
{
    (c0 == 'm' && c1 == 'b') || (c0 == 'i' && c1 == 'n') || (c0 == 'h' && c1 == 'o') || (c0 == 'p'
        && c1 == '_')
}

/// The length of the run of address characters at the start of `chars`.
fn leading_run(chars: &Vec<char>) -> (result: usize)
    ensures
        result == address_len(chars@, 0),
{
    let n = chars.len();
    let mut k: usize = 0;
    while k < n && is_address_char_exec(chars[k])
        invariant
            n == chars@.len(),
            k <= n,
            address_len(chars@, 0) == k + address_len(chars@, k as int),
        decreases n - k,
    {
        k = k + 1;
    }
    k
}

/// Whether `parse_address` can slice the text at every address it finds
/// (`address_boundaries_ok`).
pub fn address_boundaries_check(input: &str) -> (result: bool)
    ensures
        result == address_boundaries_ok(input@),
{
    let chars = chars_of(input);
    let n = chars.len();
    let mut i: usize = 0;
    while i < n
        invariant
            chars@ == input@,
            n == chars@.len(),
            i <= n,
            address_boundaries_ok(input@) == boundaries_from(input@, i as int),
        decreases n - i,
    {
        let ghost s = input@;
        if is_address_char_exec(chars[i]) {
            let mut j: usize = i;
            while j < n && is_address_char_exec(chars[j])
                invariant
                    chars@ == s,
                    n == s.len(),
                    i <= j <= n,
                    address_len(s, i as int) == (j - i) + address_len(s, j as int),
                decreases n - j,
            {
                j = j + 1;
            }
            assert(address_len(s, j as int) == 0);
            if i + 1 < n && is_address_prefix_exec(chars[i], chars[i + 1]) {
                assert(address_starts_at(s, i as int));
                if !input.is_char_boundary(i) {
                    return false;
                }
            } else {
                assert(!address_starts_at(s, i as int));
            }
            i = j;
        } else {
            i = i + 1;
        }
    }
    true
}

/// Extracts the sensor addresses that an expression mentions, in order of
/// occurrence. An address is a maximal run of lowercase ASCII letters, ASCII
/// digits and underscores that opens with `mb`, `in`, `ho` or `p_`; a run
/// that opens otherwise (such as `min` or `10`) is no address, and nothing
/// inside a run starts another one. The character position of an address is
/// taken as a byte offset into the text, so the run reported is the one that
/// starts at that byte: on ASCII text, the address itself. The text must be
/// sliceable there (`address_boundaries_ok`).
pub fn parse_address(input: &str) -> (result: Vec<String>)
    requires
        address_boundaries_ok(input@),
    ensures
        string_views(result@) == address_tokens(input@),
        is_ascii_text(input@) ==> string_views(result@) == addresses(input@),
{
    proof {
        if is_ascii_text(input@) {
            lemma_ascii_tokens(input@);
        }
    }
    let chars = chars_of(input);
    let n = chars.len();
    let mut result: Vec<String> = Vec::new();
    let mut i: usize = 0;
    while i < n
        invariant
            chars@ == input@,
            n == chars@.len(),
            i <= n,
            boundaries_from(input@, i as int),
            string_views(result@) + tokens_from(input@, i as int) == address_tokens(input@),
        decreases n - i,
    {
        let ghost s = input@;
        if is_address_char_exec(chars[i]) {
            let mut j: usize = i;
            while j < n && is_address_char_exec(chars[j])
                invariant
                    chars@ == s,
                    n == s.len(),
                    i <= j <= n,
                    address_len(s, i as int) == (j - i) + address_len(s, j as int),
                decreases n - j,
            {
                j = j + 1;
            }
            assert(address_len(s, j as int) == 0);
            if i + 1 < n && is_address_prefix_exec(chars[i], chars[i + 1]) {
                assert(address_starts_at(s, i as int));
                let (_, rest) = input.split_at(i);
                proof {
                    vstd::utf8::encode_utf8_decode_utf8(rest@);
                    assert(rest@ == text_from_byte(s, i as int));
                }
                let rest_chars = chars_of(rest);
                let k = leading_run(&rest_chars);
                proof {
                    lemma_address_len_bound(rest@, 0);
                }
                let token = rest.substring_char(0, k).to_owned();
                assert(token@ =~= token_at(s, i as int));
                let ghost old_views = string_views(result@);
                result.push(token);
                assert(string_views(result@) =~= old_views + seq![token@]);
                assert(tokens_from(s, i as int) == seq![token_at(s, i as int)] + tokens_from(
                    s,
                    j as int,
                ));
                assert(string_views(result@) + tokens_from(s, j as int) =~= old_views + tokens_from(
                    s,
                    i as int,
                ));
            } else {
                assert(!address_starts_at(s, i as int));
                assert(tokens_from(s, i as int) == tokens_from(s, j as int));
            }
            i = j;
        } else {
            i = i + 1;
        }
    }
    assert(string_views(result@) + tokens_from(input@, i as int) =~= string_views(result@));
    result
}

} // verus!
