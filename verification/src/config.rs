//! The shared `layers.json` format: colours written `#RRGGBB`, and rewriting the layers'
//! `turns` (and the loop's `frames` and `fps`) in the text of the file, leaving everything
//! else in it exactly as it was.

use crate::chars::{
    count_leading_white, decimal, find_char, find_char_from, find_last, from_chars, has_prefix,
    is_white, leading_white, lemma_decimal_digits, lemma_decimal_len, lemma_find_char_from,
    lemma_find_char_from_is, lemma_leading_white, lemma_leading_white_is, lemma_lines_have_no_newline, lemma_lines_of_line,
    lemma_padded_chars, lemma_rfind_from, lemma_rfind_from_is, lines, occurs_at, pad_left,
    plain_line, push_decimal, push_range, push_signed, push_str, rfind, signed_decimal,
    split_lines, starts_with, to_chars,
};
use vstd::prelude::*;

verus! {

/// The value of a hexadecimal digit, either case.
pub open spec fn hex_digit(c: char) -> Option<nat> {
    if '0' <= c && c <= '9' {
        Some((c as nat - '0' as nat) as nat)
    } else if 'a' <= c && c <= 'f' {
        Some((c as nat - 'a' as nat + 10) as nat)
    } else if 'A' <= c && c <= 'F' {
        Some((c as nat - 'A' as nat + 10) as nat)
    } else {
        None
    }
}

/// Whether every character of `s` is a hexadecimal digit.
pub open spec fn all_hex(s: Seq<char>) -> bool {
    forall|i: int| 0 <= i < s.len() ==> (#[trigger] hex_digit(s[i])) is Some
}

/// The number that the hexadecimal digits `s` spell (0 for no digits).
pub open spec fn hex_value(s: Seq<char>) -> nat
    decreases s.len(),
{
    if s.len() == 0 {
        0
    } else {
        hex_value(s.drop_last()) * 16 + hex_digit(s.last()).unwrap_or(0)
    }
}

/// What `u32::from_str_radix(s, 16)` accepts: an optional `+`, then at least one
/// hexadecimal digit, the whole worth no more than `u32::MAX`.
pub open spec fn parse_hex_u32(s: Seq<char>) -> Option<nat> {
    let digits = if s.len() > 0 && s[0] == '+' { s.drop_first() } else { s };
    if digits.len() > 0 && all_hex(digits) && hex_value(digits) <= u32::MAX {
        Some(hex_value(digits))
    } else {
        None
    }
}

/// `s` with every leading `#` taken off.
pub open spec fn strip_hashes(s: Seq<char>) -> Seq<char>
    decreases s.len(),
{
    if s.len() > 0 && s[0] == '#' {
        strip_hashes(s.drop_first())
    } else {
        s
    }
}

/// The red, green and blue bytes of a `0xRRGGBB` value: its low 24 bits.
pub open spec fn rgb_bytes(v: nat) -> [u8; 3] {
    [((v / 0x10000) % 256) as u8, ((v / 0x100) % 256) as u8, (v % 256) as u8]
}

/// The colour `parse_hex` reads from `s`: black when it is not hexadecimal.
pub open spec fn hex_colour(s: Seq<char>) -> [u8; 3] {
    rgb_bytes(
        match parse_hex_u32(strip_hashes(s)) {
            Some(v) => v,
            None => 0,
        },
    )
}

fn hex_digit_of(c: char) -> (d: Option<u32>)
    ensures
        d matches Some(v) ==> hex_digit(c) == Some(v as nat),
        d is None ==> hex_digit(c) is None,
{
    if '0' <= c && c <= '9' {
        Some((c as u32) - ('0' as u32))
    } else if 'a' <= c && c <= 'f' {
        Some((c as u32) - ('a' as u32) + 10)
    } else if 'A' <= c && c <= 'F' {
        Some((c as u32) - ('A' as u32) + 10)
    } else {
        None
    }
}

proof fn lemma_hex_value_step(s: Seq<char>, i: int)
    requires
        0 <= i < s.len(),
    ensures
        hex_value(s.take(i + 1)) == hex_value(s.take(i)) * 16 + hex_digit(s[i]).unwrap_or(0),
{
    assert(s.take(i + 1).drop_last() == s.take(i));
}

proof fn lemma_hex_value_grows(s: Seq<char>, i: int, j: int)
    requires
        0 <= i <= j <= s.len(),
    ensures
        hex_value(s.take(i)) <= hex_value(s.take(j)),
    decreases j - i,
{
    if i < j {
        lemma_hex_value_grows(s, i, j - 1);
        lemma_hex_value_step(s, j - 1);
    }
}

/// `16` to the power `n`.
pub open spec fn pow16(n: nat) -> nat
    decreases n,
{
    if n == 0 { 1 } else { 16 * pow16((n - 1) as nat) }
}

/// Hexadecimal digits spell a number below `16` to the power of how many there are.
pub proof fn lemma_hex_value_bound(s: Seq<char>)
    requires
        all_hex(s),
    ensures
        hex_value(s) < pow16(s.len()),
    decreases s.len(),
{
    if s.len() > 0 {
        let t = s.drop_last();
        assert(all_hex(t)) by {
            assert forall|i: int| 0 <= i < t.len() implies (#[trigger] hex_digit(t[i])) is Some by {
                assert(t[i] == s[i]);
            }
        }
        lemma_hex_value_bound(t);
        assert(hex_digit(s[s.len() - 1]) is Some);
        assert(hex_digit(s.last()).unwrap_or(0) < 16);
    }
}

/// `u32::from_str_radix(s[from..], 16)`.
pub fn parse_hex_digits(s: &[char], from: usize) -> (r: Option<u32>)
    requires
        from <= s@.len(),
    ensures
        r matches Some(v) ==> parse_hex_u32(s@.skip(from as int)) == Some(v as nat),
        r is None ==> parse_hex_u32(s@.skip(from as int)) is None,
{
    let ghost t = s@.skip(from as int);
    let mut start = from;
    if start < s.len() && s[start] == '+' {
        start += 1;
    }
    let ghost digits = s@.skip(start as int);
    assert(digits == if t.len() > 0 && t[0] == '+' { t.drop_first() } else { t });
    if start >= s.len() {
        return None;
    }
    let mut v: u64 = 0;
    let mut i = start;
    while i < s.len()
        invariant
            start <= i <= s@.len(),
            digits == s@.skip(start as int),
            t == s@.skip(from as int),
            digits == if t.len() > 0 && t[0] == '+' { t.drop_first() } else { t },
            digits.len() > 0,
            v == hex_value(digits.take(i - start)),
            v <= u32::MAX,
            forall|k: int| 0 <= k < i - start ==> (#[trigger] hex_digit(digits[k])) is Some,
        decreases s@.len() - i,
    {
        let d = hex_digit_of(s[i]);
        proof {
            lemma_hex_value_step(digits, i - start);
        }
        match d {
            None => {
                assert(!all_hex(digits)) by {
                    assert(hex_digit(digits[i - start]) is None);
                }
                return None;
            },
            Some(d) => {
                let next = v * 16 + d as u64;
                if next > 0xffff_ffff {
                    proof {
                        lemma_hex_value_grows(digits, i - start + 1, digits.len() as int);
                        assert(digits.take(digits.len() as int) == digits);
                    }
                    return None;
                }
                v = next;
            },
        }
        i += 1;
    }
    assert(digits.take(digits.len() as int) == digits);
    Some(v as u32)
}

/// The colour a `"#RRGGBB"` string names; any number of leading `#` is allowed, and
/// anything that is not hexadecimal reads as black.
pub fn parse_hex(s: &str) -> (rgb: [u8; 3])
    ensures
        rgb == hex_colour(s@),
{
    let v = to_chars(s);
    let mut i: usize = 0;
    assert(v@.skip(0) == v@);
    while i < v.len() && v[i] == '#'
        invariant
            i <= v@.len(),
            strip_hashes(v@) == strip_hashes(v@.skip(i as int)),
        decreases v@.len() - i,
    {
        assert(v@.skip(i as int).drop_first() == v@.skip(i + 1));
        i += 1;
    }
    let n: u32 = match parse_hex_digits(&v, i) {
        Some(n) => n,
        None => 0,
    };
    proof {
        assert(strip_hashes(v@.skip(i as int)) == v@.skip(i as int));
    }
    let r = ((n >> 16u32) & 0xff) as u8;
    let g = ((n >> 8u32) & 0xff) as u8;
    let b = (n & 0xff) as u8;
    proof {
        assert((n >> 16u32) & 0xff == (n / 0x10000) % 256) by (bit_vector);
        assert((n >> 8u32) & 0xff == (n / 0x100) % 256) by (bit_vector);
        assert(n & 0xff == n % 256) by (bit_vector);
    }
    [r, g, b]
}

/// A colour written out in hexadecimal reads back as itself: six hexadecimal digits, either
/// case, two to a channel, after any number of `#`, give back the red, green and blue
/// bytes they spell.
pub proof fn lemma_hex_colour_round_trip(s: Seq<char>, hashes: nat, r: u8, g: u8, b: u8)
    requires
        s.len() == 6,
        hex_digit(s[0]) == Some((r / 16) as nat),
        hex_digit(s[1]) == Some((r % 16) as nat),
        hex_digit(s[2]) == Some((g / 16) as nat),
        hex_digit(s[3]) == Some((g % 16) as nat),
        hex_digit(s[4]) == Some((b / 16) as nat),
        hex_digit(s[5]) == Some((b % 16) as nat),
    ensures
        hex_colour(Seq::new(hashes, |i: int| '#') + s) == [r, g, b],
    decreases hashes,
{
    if hashes > 0 {
        let t = Seq::new(hashes, |i: int| '#') + s;
        assert(t.drop_first() == Seq::new((hashes - 1) as nat, |i: int| '#') + s);
        lemma_hex_colour_round_trip(s, (hashes - 1) as nat, r, g, b);
    } else {
        let t = Seq::new(0, |i: int| '#') + s;
        assert(t == s);
        assert(s[0] != '#' && s[0] != '+');
        assert(all_hex(s)) by {
            assert forall|i: int| 0 <= i < s.len() implies (#[trigger] hex_digit(s[i])) is Some by {
                if i == 0 {} else if i == 1 {} else if i == 2 {} else if i == 3 {} else if i == 4 {} else {}
            }
        }
        let d0 = (r / 16) as int;
        let d1 = (r % 16) as int;
        let d2 = (g / 16) as int;
        let d3 = (g % 16) as int;
        let d4 = (b / 16) as int;
        let d5 = (b % 16) as int;
        assert(s.drop_last().drop_last().drop_last().drop_last().drop_last().drop_last().len() == 0);
        assert(hex_value(s.take(0)) == 0) by {
            assert(s.take(0).len() == 0);
        }
        lemma_hex_value_step(s, 0);
        lemma_hex_value_step(s, 1);
        lemma_hex_value_step(s, 2);
        lemma_hex_value_step(s, 3);
        lemma_hex_value_step(s, 4);
        lemma_hex_value_step(s, 5);
        assert(s.take(6) == s);
        let v = hex_value(s);
        assert(v == ((((d0 * 16 + d1) * 16 + d2) * 16 + d3) * 16 + d4) * 16 + d5);
        assert(v == r * 65536 + g * 256 + b && v <= 0xffffff) by (nonlinear_arith)
            requires
                v == ((((d0 * 16 + d1) * 16 + d2) * 16 + d3) * 16 + d4) * 16 + d5,
                d0 == r / 16,
                d1 == r % 16,
                d2 == g / 16,
                d3 == g % 16,
                d4 == b / 16,
                d5 == b % 16,
                0 <= r < 256,
                0 <= g < 256,
                0 <= b < 256,
        ;
        assert((v / 0x10000) % 256 == r && (v / 0x100) % 256 == g && v % 256 == b) by (nonlinear_arith)
            requires
                v == r * 65536 + g * 256 + b,
                0 <= r < 256,
                0 <= g < 256,
                0 <= b < 256,
        ;
        assert(rgb_bytes(v) == [r, g, b]);
    }
}

/// Whether `c` can be part of a JSON number.
pub open spec fn is_number_char(c: char) -> bool {
    ('0' <= c && c <= '9') || c == '-' || c == '+' || c == '.' || c == 'e' || c == 'E'
}

/// How many characters of a number `s` starts with.
pub open spec fn number_len(s: Seq<char>) -> nat
    decreases s.len(),
{
    if s.len() > 0 && is_number_char(s[0]) {
        1 + number_len(s.drop_first())
    } else {
        0
    }
}

/// What follows the value after a key: `s` without its leading white space and the number
/// after it.
pub open spec fn after_value(s: Seq<char>) -> Seq<char> {
    let t = s.skip(leading_white(s) as int);
    t.skip(number_len(t) as int)
}

/// What `number_len` counts: number characters up to there, and none just after.
proof fn lemma_number_len(s: Seq<char>)
    ensures
        number_len(s) <= s.len(),
        forall|i: int| 0 <= i < number_len(s) ==> is_number_char(#[trigger] s[i]),
        number_len(s) < s.len() ==> !is_number_char(s[number_len(s) as int]),
    decreases s.len(),
{
    if s.len() > 0 && is_number_char(s[0]) {
        lemma_number_len(s.drop_first());
        assert forall|i: int| 0 <= i < number_len(s) implies is_number_char(#[trigger] s[i]) by {
            if i > 0 {
                assert(s[i] == s.drop_first()[i - 1]);
            }
        }
    }
}

/// A run of number characters in front adds its length to `number_len`.
proof fn lemma_number_len_prefix(d: Seq<char>, a: Seq<char>)
    requires
        forall|i: int| 0 <= i < d.len() ==> is_number_char(#[trigger] d[i]),
    ensures
        number_len(d + a) == d.len() + number_len(a),
    decreases d.len(),
{
    if d.len() > 0 {
        let t = d.drop_first();
        assert forall|i: int| 0 <= i < t.len() implies is_number_char(#[trigger] t[i]) by {
            assert(t[i] == d[i + 1]);
        }
        lemma_number_len_prefix(t, a);
        assert((d + a).drop_first() == t + a);
        assert((d + a)[0] == d[0]);
    }
}

/// A value written as one space and a decimal number, before what followed an old value,
/// is taken off again whole.
proof fn lemma_after_value_again(n: nat, s: Seq<char>)
    ensures
        after_value(seq![' '] + decimal(n) + after_value(s)) == after_value(s),
{
    let a = after_value(s);
    let u = s.skip(leading_white(s) as int);
    lemma_number_len(u);
    assert(number_len(a) == 0) by {
        if a.len() > 0 {
            assert(a[0] == u[number_len(u) as int]);
        }
    }
    let d = decimal(n);
    lemma_decimal_digits(n);
    let z = seq![' '] + d + a;
    assert(z.drop_first() == d + a);
    assert((d + a)[0] == d[0]);
    assert(leading_white(d + a) == 0);
    assert(leading_white(z) == 1);
    assert(z.skip(1) == d + a);
    lemma_number_len_prefix(d, a);
    assert((d + a).skip(d.len() as int) == a);
}

/// The number of characters of a number in `s` from `from` on.
fn count_number(s: &[char], from: usize) -> (n: usize)
    requires
        from <= s@.len(),
    ensures
        n == number_len(s@.skip(from as int)),
        from + n <= s@.len(),
{
    let mut i: usize = from;
    while i < s.len() && (('0' <= s[i] && s[i] <= '9') || s[i] == '-' || s[i] == '+' || s[i]
        == '.' || s[i] == 'e' || s[i] == 'E')
        invariant
            from <= i <= s@.len(),
            number_len(s@.skip(from as int)) == (i - from) + number_len(s@.skip(i as int)),
        decreases s@.len() - i,
    {
        assert(s@.skip(i as int).drop_first() == s@.skip(i + 1));
        i += 1;
    }
    i - from
}

/// Append what follows the value in `s[from..]` (see `after_value`).
fn push_after_value(out: &mut Vec<char>, s: &[char], from: usize)
    requires
        from <= s@.len(),
    ensures
        final(out)@ == old(out)@ + after_value(s@.skip(from as int)),
{
    let mut tail: Vec<char> = Vec::new();
    push_range(&mut tail, s, from, s.len());
    assert(tail@ == s@.skip(from as int));
    let w = count_leading_white(&tail);
    let d = count_number(&tail, w);
    push_range(out, &tail, w + d, tail.len());
    assert(tail@.subrange((w + d) as int, tail@.len() as int) == tail@.skip(w as int).skip(
        d as int,
    ));
}

/// One line of the file after rewriting, and the index of the next layer's `turns`.
///
/// A line holding `"frames":` or `"fps":` (after its indentation) gets the new value in
/// place of the old number, keeping whatever followed it (a comma, or nothing on the last
/// key of an object);
/// otherwise the last `"turns":` in it, while layers remain, gets the next layer's count
/// right-aligned two wide, followed by whatever came after the old number from its first
/// `}` on.
pub open spec fn rewrite_line(line: Seq<char>, turns: Seq<i32>, li: int, frames: u32, fps: u32) -> (
    Seq<char>,
    int,
) {
    let w = leading_white(line) as int;
    let indent = line.take(w);
    let trimmed = line.skip(w);
    if starts_with(trimmed, "\"frames\":"@) {
        (indent + "\"frames\": "@ + decimal(frames as nat) + after_value(trimmed.skip(9)), li)
    } else if starts_with(trimmed, "\"fps\":"@) {
        (indent + "\"fps\": "@ + decimal(fps as nat) + after_value(trimmed.skip(6)), li)
    } else if 0 <= li < turns.len() && rfind(line, "\"turns\":"@) is Some {
        let at = rfind(line, "\"turns\":"@)->0;
        let rest = match find_char_from(line, '}', at) {
            Some(i) => line.skip(i),
            None => seq![],
        };
        (
            line.take(at) + "\"turns\": "@ + pad_left(signed_decimal(turns[li] as int), 2) + seq![' ']
                + rest,
            li + 1,
        )
    } else {
        (line, li)
    }
}

/// Geometry, comments and formatting survive: a line that holds no `"frames":` or
/// `"fps":` key (after its indentation) and no `"turns":` comes out exactly as it went in,
/// and counts no layer.
pub proof fn lemma_other_lines_untouched(
    line: Seq<char>,
    turns: Seq<i32>,
    li: int,
    frames: u32,
    fps: u32,
)
    requires
        !starts_with(line.skip(leading_white(line) as int), "\"frames\":"@),
        !starts_with(line.skip(leading_white(line) as int), "\"fps\":"@),
        rfind(line, "\"turns\":"@) is None,
    ensures
        rewrite_line(line, turns, li, frames, fps) == (line, li),
{
}

/// `after_value(s)` is what is left of `s` from some point on.
proof fn lemma_after_value_suffix(s: Seq<char>) -> (k: int)
    ensures
        0 <= k <= s.len(),
        after_value(s) == s.skip(k),
{
    lemma_leading_white(s);
    let u = s.skip(leading_white(s) as int);
    lemma_number_len(u);
    let k: int = (leading_white(s) + number_len(u)) as int;
    assert(u.skip(number_len(u) as int) == s.skip(k));
    k
}

/// A line whose key and new value were written in front of what followed the old value:
/// the same indentation, the same key after it, and the same text after the value.
proof fn lemma_key_line(x: Seq<char>, key: Seq<char>, n: nat)
    requires
        key.len() >= 1,
        key[0] == '"',
    ensures
        ({
            let w = leading_white(x) as int;
            let a = after_value(x.skip(w).skip(key.len() as int));
            let y = x.take(w) + key + seq![' '] + decimal(n) + a;
            &&& leading_white(y) == w
            &&& y.take(w) == x.take(w)
            &&& y.skip(w) == key + (seq![' '] + decimal(n) + a)
            &&& after_value(y.skip(w).skip(key.len() as int)) == a
        }),
{
    let w = leading_white(x) as int;
    let a = after_value(x.skip(w).skip(key.len() as int));
    let y = x.take(w) + key + seq![' '] + decimal(n) + a;
    lemma_leading_white(x);
    assert forall|i: int| 0 <= i < w implies is_white(#[trigger] y[i]) by {
        assert(y[i] == x[i]);
    }
    assert(y[w] == key[0]);
    lemma_leading_white_is(y, w as nat);
    assert(y.take(w) == x.take(w));
    assert(y.skip(w) == key + (seq![' '] + decimal(n) + a));
    assert(y.skip(w).skip(key.len() as int) == seq![' '] + decimal(n) + a);
    lemma_after_value_again(n, x.skip(w).skip(key.len() as int));
}

/// The place of the `}` after the last `"turns":` of a line, if there is one.
pub open spec fn closing_rest(line: Seq<char>, at: int) -> Seq<char> {
    match find_char_from(line, '}', at) {
        Some(i) => line.skip(i),
        None => seq![],
    }
}

/// A layer's line with its count written after its last `"turns":`: the same indentation
/// and no `"frames":` or `"fps":` key after it, the same last `"turns":`, and the same text
/// from its first `}` on.
proof fn lemma_turns_line(x: Seq<char>, v: i32, at: int)
    requires
        !starts_with(x.skip(leading_white(x) as int), "\"frames\":"@),
        rfind(x, "\"turns\":"@) == Some(at),
    ensures
        ({
            let y = x.take(at) + "\"turns\": "@ + pad_left(signed_decimal(v as int), 2) + seq![
                ' ',
            ] + closing_rest(x, at);
            &&& !starts_with(y.skip(leading_white(y) as int), "\"frames\":"@)
            &&& !starts_with(y.skip(leading_white(y) as int), "\"fps\":"@) || starts_with(
                x.skip(leading_white(x) as int),
                "\"fps\":"@,
            )
            &&& rfind(y, "\"turns\":"@) == Some(at)
            &&& y.take(at) == x.take(at)
            &&& closing_rest(y, at) == closing_rest(x, at)
        }),
{
    reveal_strlit("\"turns\":");
    reveal_strlit("\"turns\": ");
    reveal_strlit("\"frames\":");
    reveal_strlit("\"fps\":");
    let tk = "\"turns\":"@;
    let lit = "\"turns\": "@;
    let p = pad_left(signed_decimal(v as int), 2);
    let rest = closing_rest(x, at);
    let y = x.take(at) + lit + p + seq![' '] + rest;
    let s0 = at + 10 + p.len();
    lemma_rfind_from(x, tk, x.len() - tk.len());
    assert(occurs_at(x, tk, at));
    assert(x[at] == tk[0]);
    assert forall|j: int| 0 <= j < 8 implies #[trigger] x[at + j] == tk[j] by {
        assert(x.subrange(at, at + 8)[j] == x[at + j]);
    }
    let w = leading_white(x) as int;
    lemma_leading_white(x);
    assert(w <= at) by {
        if w > at {
            assert(is_white(x[at]));
        }
    }
    lemma_padded_chars(v as int, 2);
    lemma_find_char_from(x, '}', at);
    assert(y.len() == s0 + rest.len());
    // Before the old count, `y` is `x`.
    assert forall|j: int| 0 <= j < at + 8 implies #[trigger] y[j] == x[j] by {
        if j >= at {
            assert(y[j] == lit[j - at]);
            assert(x[at + (j - at)] == tk[j - at]);
        }
    }
    // The same indentation.
    assert forall|i: int| 0 <= i < w implies is_white(#[trigger] y[i]) by {
        assert(y[i] == x[i]);
    }
    if w < at {
        assert(y[w] == x[w]);
    } else {
        assert(y[w] == lit[0]);
    }
    lemma_leading_white_is(y, w as nat);
    // No `"frames":` or `"fps":` key after it.
    if starts_with(y.skip(w), "\"frames\":"@) {
        if at == w {
            assert(y.skip(w)[1] == "\"frames\":"@[1]);
            assert(y[w + 1] == lit[1]);
        } else {
            assert(x.skip(w).take(9) == y.skip(w).take(9));
        }
    }
    if starts_with(y.skip(w), "\"fps\":"@) {
        assert(x.skip(w).take(6) == y.skip(w).take(6));
    }
    // The same last `"turns":`.
    assert(y.subrange(at, at + 8) == tk);
    assert forall|q: int| at < q <= y.len() - tk.len() implies !#[trigger] occurs_at(y, tk, q) by {
        if occurs_at(y, tk, q) {
            assert(y[q] == y.subrange(q, q + 8)[0]);
            assert(y[q + 1] == y.subrange(q, q + 8)[1]);
            if q < at + 9 {
                assert(y[q] == lit[q - at]);
                assert(y[q + 1] == lit[q + 1 - at]);
            } else if q < s0 - 1 {
                assert(y[q] == p[q - at - 9]);
            } else if q == s0 - 1 {
                assert(y[q] == ' ');
            } else {
                let i = find_char_from(x, '}', at)->0;
                assert(find_char_from(x, '}', at) is Some);
                let q2 = i + (q - s0);
                assert(x.subrange(q2, q2 + 8) == y.subrange(q, q + 8));
                assert(occurs_at(x, tk, q2));
            }
        }
    }
    lemma_rfind_from_is(y, tk, y.len() - tk.len(), at);
    assert(y.take(at) == x.take(at));
    // The same text from the first `}` on.
    let found: Option<int> = match find_char_from(x, '}', at) {
        Some(i) => Some(s0),
        None => None,
    };
    assert forall|j: int| at <= j < s0 implies #[trigger] y[j] != '}' by {
        if j < at + 9 {
            assert(y[j] == lit[j - at]);
        } else if j < s0 - 1 {
            assert(y[j] == p[j - at - 9]);
        }
    }
    match find_char_from(x, '}', at) {
        Some(i) => {
            assert(y[s0] == x[i]);
            lemma_find_char_from_is(y, '}', at, found);
            assert(y.skip(s0) == rest);
        },
        None => {
            lemma_find_char_from_is(y, '}', at, found);
        },
    }
}

/// The rewritten text of `ls`, each line ended with `\n`, layers counted from `li`.
pub open spec fn rewritten(ls: Seq<Seq<char>>, turns: Seq<i32>, li: int, frames: u32, fps: u32) -> Seq<
    char,
>
    decreases ls.len(),
{
    if ls.len() == 0 {
        seq![]
    } else {
        let (new, next) = rewrite_line(ls[0], turns, li, frames, fps);
        new + seq!['\n'] + rewritten(ls.drop_first(), turns, next, frames, fps)
    }
}

/// A rewritten line is rewritten into itself, with the same layer count.
proof fn lemma_rewrite_line_fixed(x: Seq<char>, turns: Seq<i32>, li: int, frames: u32, fps: u32)
    ensures
        ({
            let (y, n) = rewrite_line(x, turns, li, frames, fps);
            rewrite_line(y, turns, li, frames, fps) == (y, n)
        }),
{
    reveal_strlit("\"frames\":");
    reveal_strlit("\"frames\": ");
    reveal_strlit("\"fps\":");
    reveal_strlit("\"fps\": ");
    let w = leading_white(x) as int;
    let fk = "\"frames\":"@;
    let pk = "\"fps\":"@;
    if starts_with(x.skip(w), fk) {
        assert("\"frames\": "@ == fk + seq![' ']);
        lemma_key_line(x, fk, frames as nat);
        let y = rewrite_line(x, turns, li, frames, fps).0;
        let tail = seq![' '] + decimal(frames as nat) + after_value(x.skip(w).skip(9));
        assert(y == x.take(w) + fk + seq![' '] + decimal(frames as nat) + after_value(
            x.skip(w).skip(9),
        ));
        assert((fk + tail).take(9) == fk);
    } else if starts_with(x.skip(w), pk) {
        assert("\"fps\": "@ == pk + seq![' ']);
        lemma_key_line(x, pk, fps as nat);
        let y = rewrite_line(x, turns, li, frames, fps).0;
        let tail = seq![' '] + decimal(fps as nat) + after_value(x.skip(w).skip(6));
        assert(y == x.take(w) + pk + seq![' '] + decimal(fps as nat) + after_value(
            x.skip(w).skip(6),
        ));
        assert((pk + tail).take(6) == pk);
        assert((pk + tail)[2] != fk[2]);
    } else if 0 <= li < turns.len() && rfind(x, "\"turns\":"@) is Some {
        let at = rfind(x, "\"turns\":"@)->0;
        lemma_turns_line(x, turns[li], at);
    }
}

/// Rewriting a line puts no `\n` into it.
proof fn lemma_rewrite_line_one_line(x: Seq<char>, turns: Seq<i32>, li: int, frames: u32, fps: u32)
    requires
        forall|i: int| 0 <= i < x.len() ==> #[trigger] x[i] != '\n',
    ensures
        ({
            let y = rewrite_line(x, turns, li, frames, fps).0;
            forall|i: int| 0 <= i < y.len() ==> #[trigger] y[i] != '\n'
        }),
{
    reveal_strlit("\"frames\":");
    reveal_strlit("\"frames\": ");
    reveal_strlit("\"fps\":");
    reveal_strlit("\"fps\": ");
    reveal_strlit("\"turns\": ");
    let w = leading_white(x) as int;
    let y = rewrite_line(x, turns, li, frames, fps).0;
    lemma_leading_white(x);
    if starts_with(x.skip(w), "\"frames\":"@) || starts_with(x.skip(w), "\"fps\":"@) {
        let klen: int = if starts_with(x.skip(w), "\"frames\":"@) { 9 } else { 6 };
        let lit = if klen == 9 { "\"frames\": "@ } else { "\"fps\": "@ };
        let d = if klen == 9 { decimal(frames as nat) } else { decimal(fps as nat) };
        lemma_decimal_digits(frames as nat);
        lemma_decimal_digits(fps as nat);
        let k = lemma_after_value_suffix(x.skip(w).skip(klen));
        let a = x.skip(w).skip(klen).skip(k);
        assert(a == x.skip(w + klen + k));
        assert(y == x.take(w) + lit + d + a);
        assert forall|i: int| 0 <= i < y.len() implies #[trigger] y[i] != '\n' by {
            if i < w {
                assert(y[i] == x[i]);
            } else if i < w + lit.len() {
                assert(y[i] == lit[i - w]);
            } else if i < w + lit.len() + d.len() {
                assert(y[i] == d[i - w - lit.len()]);
            } else {
                assert(y[i] == x[i - w - lit.len() - d.len() + w + klen + k]);
            }
        }
    } else if 0 <= li < turns.len() && rfind(x, "\"turns\":"@) is Some {
        let at = rfind(x, "\"turns\":"@)->0;
        reveal_strlit("\"turns\":");
        lemma_rfind_from(x, "\"turns\":"@, x.len() - "\"turns\":"@.len());
        let lit = "\"turns\": "@;
        let p = pad_left(signed_decimal(turns[li] as int), 2);
        lemma_padded_chars(turns[li] as int, 2);
        let rest = closing_rest(x, at);
        lemma_find_char_from(x, '}', at);
        let s0 = at + 10 + p.len();
        assert(y == x.take(at) + lit + p + seq![' '] + rest);
        assert forall|i: int| 0 <= i < y.len() implies #[trigger] y[i] != '\n' by {
            if i < at {
                assert(y[i] == x[i]);
            } else if i < at + 9 {
                assert(y[i] == lit[i - at]);
            } else if i < s0 - 1 {
                assert(y[i] == p[i - at - 9]);
            } else if i >= s0 {
                let j = find_char_from(x, '}', at)->0;
                assert(y[i] == x[i - s0 + j]);
            }
        }
    }
}

/// The lines `rewritten` writes, in order, each without its `\n`.
pub open spec fn rewritten_lines(
    ls: Seq<Seq<char>>,
    turns: Seq<i32>,
    li: int,
    frames: u32,
    fps: u32,
) -> Seq<Seq<char>>
    decreases ls.len(),
{
    if ls.len() == 0 {
        seq![]
    } else {
        let (new, next) = rewrite_line(ls[0], turns, li, frames, fps);
        seq![new] + rewritten_lines(ls.drop_first(), turns, next, frames, fps)
    }
}

/// Whether a line ends in `\r`, which `str::lines` takes off when a `\n` follows it.
pub open spec fn ends_in_cr(line: Seq<char>) -> bool {
    line.len() > 0 && line.last() == '\r'
}

/// Rewriting the lines of a text that rewriting gave writes that text again, provided no
/// line it wrote ends in `\r`.
proof fn lemma_rewritten_fixed(ls: Seq<Seq<char>>, turns: Seq<i32>, li: int, frames: u32, fps: u32)
    requires
        forall|k: int, i: int| 0 <= k < ls.len() && 0 <= i < ls[k].len() ==> #[trigger] ls[k][i]
            != '\n',
        forall|k: int|
            0 <= k < rewritten_lines(ls, turns, li, frames, fps).len() ==> !ends_in_cr(
                #[trigger] rewritten_lines(ls, turns, li, frames, fps)[k],
            ),
    ensures
        rewritten(lines(rewritten(ls, turns, li, frames, fps)), turns, li, frames, fps)
            == rewritten(ls, turns, li, frames, fps),
    decreases ls.len(),
{
    if ls.len() == 0 {
        assert(lines(Seq::<char>::empty()) == Seq::<Seq<char>>::empty());
    } else {
        let (y, n) = rewrite_line(ls[0], turns, li, frames, fps);
        let tail = ls.drop_first();
        let written = rewritten_lines(ls, turns, li, frames, fps);
        assert forall|k: int, i: int| 0 <= k < tail.len() && 0 <= i < tail[k].len() implies #[trigger] tail[k][i]
            != '\n' by {
            assert(tail[k] == ls[k + 1]);
        }
        assert forall|k: int|
            0 <= k < rewritten_lines(tail, turns, n, frames, fps).len() implies !ends_in_cr(
                #[trigger] rewritten_lines(tail, turns, n, frames, fps)[k],
            ) by {
            assert(rewritten_lines(tail, turns, n, frames, fps)[k] == written[k + 1]);
        }
        lemma_rewritten_fixed(tail, turns, n, frames, fps);
        let r = rewritten(tail, turns, n, frames, fps);
        assert forall|i: int| 0 <= i < ls[0].len() implies #[trigger] ls[0][i] != '\n' by {}
        lemma_rewrite_line_one_line(ls[0], turns, li, frames, fps);
        assert(written[0] == y);
        assert(plain_line(y));
        lemma_rewrite_line_fixed(ls[0], turns, li, frames, fps);
        lemma_lines_of_line(y, r);
        let again = seq![y] + lines(r);
        assert(again[0] == y);
        assert(again.drop_first() == lines(r));
    }
}

/// Rewriting is idempotent: rewriting the text that `rewrite_turns` wrote, with the same
/// counts, writes it again unchanged, provided no line it wrote ends in `\r` (one that
/// `str::lines` would then take as half of a line ending).
pub proof fn lemma_rewrite_turns_idempotent(
    text: Seq<char>,
    turns: Seq<i32>,
    frames: u32,
    fps: u32,
)
    requires
        forall|k: int|
            0 <= k < rewritten_lines(lines(text), turns, 0, frames, fps).len() ==> !ends_in_cr(
                #[trigger] rewritten_lines(lines(text), turns, 0, frames, fps)[k],
            ),
    ensures
        rewritten(lines(rewritten(lines(text), turns, 0, frames, fps)), turns, 0, frames, fps)
            == rewritten(lines(text), turns, 0, frames, fps),
{
    lemma_lines_have_no_newline(text);
    lemma_rewritten_fixed(lines(text), turns, 0, frames, fps);
}

fn push_padded(out: &mut Vec<char>, v: i32)
    ensures
        final(out)@ == old(out)@ + pad_left(signed_decimal(v as int), 2),
{
    let mut num: Vec<char> = Vec::new();
    push_signed(&mut num, v as i64);
    if num.len() < 2 {
        out.push(' ');
    }
    let ghost before = out@;
    push_range(out, &num, 0, num.len());
    proof {
        assert(num@.subrange(0, num@.len() as int) == num@);
        if num@.len() < 2 {
            assert(num@.len() == 1) by {
                if v < 0 {
                    lemma_decimal_len((-(v as int)) as nat);
                } else {
                    lemma_decimal_len(v as nat);
                }
            }
            assert(Seq::new(1, |i: int| ' ') == seq![' ']);
        }
    }
}

fn rewrite_one(line: &[char], turns: &[i32], li: usize, frames: u32, fps: u32) -> (r: (
    Vec<char>,
    usize,
))
    requires
        li <= turns@.len(),
    ensures
        (r.0@, r.1 as int) == rewrite_line(line@, turns@, li as int, frames, fps),
        r.1 <= turns@.len(),
{
    let w = count_leading_white(line);
    let mut trimmed: Vec<char> = Vec::new();
    push_range(&mut trimmed, line, w, line.len());
    assert(trimmed@ == line@.skip(w as int));
    let frames_key = to_chars("\"frames\":");
    let fps_key = to_chars("\"fps\":");
    let turns_key = to_chars("\"turns\":");
    let mut out: Vec<char> = Vec::new();
    if has_prefix(&trimmed, &frames_key) {
        push_range(&mut out, line, 0, w);
        push_str(&mut out, "\"frames\": ");
        push_decimal(&mut out, frames as u64);
        proof {
            reveal_strlit("\"frames\":");
        }
        push_after_value(&mut out, &trimmed, 9);
        assert(line@.subrange(0, w as int) == line@.take(w as int));
        return (out, li);
    }
    if has_prefix(&trimmed, &fps_key) {
        push_range(&mut out, line, 0, w);
        push_str(&mut out, "\"fps\": ");
        push_decimal(&mut out, fps as u64);
        proof {
            reveal_strlit("\"fps\":");
        }
        push_after_value(&mut out, &trimmed, 6);
        assert(line@.subrange(0, w as int) == line@.take(w as int));
        return (out, li);
    }
    if li < turns.len() {
        if let Some(at) = find_last(line, &turns_key) {
            push_range(&mut out, line, 0, at);
            push_str(&mut out, "\"turns\": ");
            push_padded(&mut out, turns[li]);
            out.push(' ');
            let ghost before = out@;
            match find_char(line, '}', at) {
                Some(i) => {
                    proof {
                        assert(i < line@.len()) by {
                            lemma_find_char_in(line@, '}', at as int);
                        }
                    }
                    push_range(&mut out, line, i, line.len());
                    assert(line@.subrange(i as int, line@.len() as int) == line@.skip(i as int));
                },
                None => {
                    assert(out@ == before + Seq::<char>::empty());
                },
            }
            assert(line@.subrange(0, at as int) == line@.take(at as int));
            return (out, li + 1);
        }
    }
    let mut same: Vec<char> = Vec::new();
    push_range(&mut same, line, 0, line.len());
    assert(line@.subrange(0, line@.len() as int) == line@);
    (same, li)
}

proof fn lemma_find_char_in(s: Seq<char>, c: char, from: int)
    ensures
        find_char_from(s, c, from) matches Some(i) ==> from <= i < s.len() && s[i] == c,
    decreases s.len() - from,
{
    if 0 <= from < s.len() && s[from] != c {
        lemma_find_char_in(s, c, from + 1);
    }
}

/// Write new `turns`, `frames` and `fps` values into a layers.json *text* in place,
/// leaving geometry, comments and formatting untouched.
///
/// `turns` is indexed by the layer's position in the file, not by render order.
pub fn rewrite_turns(text: &str, turns: &[i32], frames: u32, fps: u32) -> (out: String)
    ensures
        out@ == rewritten(lines(text@), turns@, 0, frames, fps),
{
    let chars = to_chars(text);
    let ls = split_lines(&chars);
    let ghost all = lines(text@);
    let mut out: Vec<char> = Vec::new();
    let mut li: usize = 0;
    let mut k: usize = 0;
    assert(all.skip(0) == all);
    while k < ls.len()
        invariant
            chars@ == text@,
            all == lines(text@),
            ls@.len() == all.len(),
            forall|i: int| 0 <= i < ls@.len() ==> #[trigger] ls@[i]@ == all[i],
            k <= ls@.len(),
            li <= turns@.len(),
            rewritten(all, turns@, 0, frames, fps) == out@ + rewritten(
                all.skip(k as int),
                turns@,
                li as int,
                frames,
                fps,
            ),
        decreases ls@.len() - k,
    {
        let (new, next) = rewrite_one(&ls[k], turns, li, frames, fps);
        proof {
            let rest = all.skip(k as int);
            assert(rest[0] == all[k as int]);
            assert(rest.drop_first() == all.skip(k + 1));
        }
        push_range(&mut out, &new, 0, new.len());
        out.push('\n');
        proof {
            assert(new@.subrange(0, new@.len() as int) == new@);
        }
        li = next;
        k += 1;
    }
    assert(all.skip(ls@.len() as int).len() == 0);
    from_chars(&out)
}

} // verus!
