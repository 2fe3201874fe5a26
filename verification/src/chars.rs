//! Text as sequences of characters: splitting into lines, searching, decimal numbers.
//!
//! Everything here works on `Vec<char>` / `Seq<char>`, the view Verus gives a `str`.

use vstd::prelude::*;

verus! {

/// The characters of `s`, in order.
pub fn to_chars(s: &str) -> (v: Vec<char>)
    ensures
        v@ == s@,
{
    broadcast use vstd::string::group_string_axioms;

    let mut v: Vec<char> = Vec::new();
    for c in it: s.chars()
        invariant
            v@ == it.seq().take(it.index()),
            it.seq() == s@,
    {
        v.push(c);
    }
    assert(v@ == s@);
    v
}

/// Append `c` to `s`.
#[verifier::external_body]
fn push_char(s: &mut String, c: char)
    ensures
        final(s)@ == old(s)@.push(c),
{
    s.push(c);
}

/// The string spelled by `v`.
pub fn from_chars(v: &[char]) -> (s: String)
    ensures
        s@ == v@,
{
    let mut s = String::new();
    let mut i: usize = 0;
    while i < v.len()
        invariant
            i <= v@.len(),
            s@ == v@.take(i as int),
        decreases v@.len() - i,
    {
        push_char(&mut s, v[i]);
        i += 1;
        assert(s@ == v@.take(i as int));
    }
    assert(v@.take(v@.len() as int) == v@);
    s
}

/// Append the characters of `s` to `out`.
pub fn push_str(out: &mut Vec<char>, s: &str)
    ensures
        final(out)@ == old(out)@ + s@,
{
    let v = to_chars(s);
    let mut i: usize = 0;
    while i < v.len()
        invariant
            i <= v@.len(),
            v@ == s@,
            out@ == old(out)@ + v@.take(i as int),
        decreases v@.len() - i,
    {
        out.push(v[i]);
        i += 1;
        assert(out@ == old(out)@ + v@.take(i as int));
    }
    assert(v@.take(v@.len() as int) == v@);
}

/// Append `src[from..to]` to `out`.
pub fn push_range(out: &mut Vec<char>, src: &[char], from: usize, to: usize)
    requires
        from <= to <= src@.len(),
    ensures
        final(out)@ == old(out)@ + src@.subrange(from as int, to as int),
{
    let mut i: usize = from;
    while i < to
        invariant
            from <= i <= to <= src@.len(),
            out@ == old(out)@ + src@.subrange(from as int, i as int),
        decreases to - i,
    {
        out.push(src[i]);
        i += 1;
        assert(out@ == old(out)@ + src@.subrange(from as int, i as int));
    }
}

/// How Rust's `Debug` writes the string `s`: in double quotes, with quotes, backslashes,
/// control characters and anything unprintable escaped.
pub uninterp spec fn debug_quoted(s: Seq<char>) -> Seq<char>;

/// `format!("{s:?}")`: the string as `Debug` writes it.
#[verifier::external_body]
pub(crate) fn debug_text(s: &str) -> (t: String)
    ensures
        t@ == debug_quoted(s@),
{
    format!("{s:?}")
}

/// The decimal digit for `d` (0 to 9).
pub open spec fn digit_char(d: nat) -> char {
    if d == 0 { '0' }
    else if d == 1 { '1' }
    else if d == 2 { '2' }
    else if d == 3 { '3' }
    else if d == 4 { '4' }
    else if d == 5 { '5' }
    else if d == 6 { '6' }
    else if d == 7 { '7' }
    else if d == 8 { '8' }
    else { '9' }
}

/// `n` written in decimal, with no leading zeros (`0` is `"0"`).
pub open spec fn decimal(n: nat) -> Seq<char>
    decreases n,
{
    if n < 10 {
        seq![digit_char(n)]
    } else {
        decimal(n / 10).push(digit_char(n % 10))
    }
}

/// `v` written in decimal, with a leading `-` when negative.
pub open spec fn signed_decimal(v: int) -> Seq<char> {
    if v < 0 {
        seq!['-'] + decimal((-v) as nat)
    } else {
        decimal(v as nat)
    }
}

/// `s` right-aligned in a field `width` wide: spaces in front of it up to that width.
pub open spec fn pad_left(s: Seq<char>, width: nat) -> Seq<char> {
    if s.len() >= width {
        s
    } else {
        Seq::new((width - s.len()) as nat, |i: int| ' ') + s
    }
}

fn digit(d: u64) -> (c: char)
    requires
        d < 10,
    ensures
        c == digit_char(d as nat),
{
    if d == 0 { '0' }
    else if d == 1 { '1' }
    else if d == 2 { '2' }
    else if d == 3 { '3' }
    else if d == 4 { '4' }
    else if d == 5 { '5' }
    else if d == 6 { '6' }
    else if d == 7 { '7' }
    else if d == 8 { '8' }
    else { '9' }
}

/// Append `n` in decimal to `out`.
pub fn push_decimal(out: &mut Vec<char>, n: u64)
    ensures
        final(out)@ == old(out)@ + decimal(n as nat),
    decreases n,
{
    if n >= 10 {
        push_decimal(out, n / 10);
    }
    out.push(digit(n % 10));
    proof {
        if n >= 10 {
            assert(decimal(n as nat) == decimal((n / 10) as nat).push(digit_char((n % 10) as nat)));
        } else {
            assert(decimal(n as nat) == seq![digit_char(n as nat)]);
        }
    }
}

/// Append `v` in decimal to `out`, with a `-` when negative.
pub fn push_signed(out: &mut Vec<char>, v: i64)
    ensures
        final(out)@ == old(out)@ + signed_decimal(v as int),
{
    if v < 0 {
        out.push('-');
        let m: u64 = if v == i64::MIN { 0x8000_0000_0000_0000u64 } else { (-v) as u64 };
        push_decimal(out, m);
    } else {
        push_decimal(out, v as u64);
    }
}

/// How many decimal digits `n` takes.
pub proof fn lemma_decimal_len(n: nat)
    ensures
        decimal(n).len() >= 1,
        n < 10 <==> decimal(n).len() == 1,
    decreases n,
{
    if n >= 10 {
        lemma_decimal_len(n / 10);
    }
}

/// Whether `c` is white space in Unicode's sense (the `White_Space` property), which is
/// what `char::is_whitespace` tests.
pub open spec fn is_white(c: char) -> bool {
    ||| c == '\t'
    ||| c == '\n'
    ||| c == '\u{0B}'
    ||| c == '\u{0C}'
    ||| c == '\r'
    ||| c == ' '
    ||| c == '\u{85}'
    ||| c == '\u{A0}'
    ||| c == '\u{1680}'
    ||| ('\u{2000}' <= c && c <= '\u{200A}')
    ||| c == '\u{2028}'
    ||| c == '\u{2029}'
    ||| c == '\u{202F}'
    ||| c == '\u{205F}'
    ||| c == '\u{3000}'
}

/// Whether `c` is white space (`char::is_whitespace`).
pub fn white(c: char) -> (b: bool)
    ensures
        b == is_white(c),
{
    c == '\t' || c == '\n' || c == '\u{0B}' || c == '\u{0C}' || c == '\r' || c == ' '
        || c == '\u{85}' || c == '\u{A0}' || c == '\u{1680}' || ('\u{2000}' <= c && c
        <= '\u{200A}') || c == '\u{2028}' || c == '\u{2029}' || c == '\u{202F}' || c
        == '\u{205F}' || c == '\u{3000}'
}

/// How many white-space characters `s` starts with.
pub open spec fn leading_white(s: Seq<char>) -> nat
    decreases s.len(),
{
    if s.len() > 0 && is_white(s[0]) {
        1 + leading_white(s.drop_first())
    } else {
        0
    }
}

/// The number of white-space characters at the start of `s`.
pub fn count_leading_white(s: &[char]) -> (n: usize)
    ensures
        n == leading_white(s@),
        n <= s@.len(),
{
    let mut i: usize = 0;
    assert(s@.skip(0) == s@);
    while i < s.len() && white(s[i])
        invariant
            i <= s@.len(),
            leading_white(s@) == i + leading_white(s@.skip(i as int)),
        decreases s@.len() - i,
    {
        assert(s@.skip(i as int).drop_first() == s@.skip(i + 1));
        i += 1;
    }
    i
}

/// Whether `s` begins with `p`.
pub open spec fn starts_with(s: Seq<char>, p: Seq<char>) -> bool {
    p.len() <= s.len() && s.take(p.len() as int) == p
}

/// Whether `p` occurs in `s` at `at`.
pub open spec fn occurs_at(s: Seq<char>, p: Seq<char>, at: int) -> bool {
    0 <= at && at + p.len() <= s.len() && s.subrange(at, at + p.len()) == p
}

/// The last place at or before `at` where `p` occurs in `s`.
pub open spec fn rfind_from(s: Seq<char>, p: Seq<char>, at: int) -> Option<int>
    decreases at + 1,
{
    if at < 0 {
        None
    } else if occurs_at(s, p, at) {
        Some(at)
    } else {
        rfind_from(s, p, at - 1)
    }
}

/// The last place `p` occurs in `s` (`str::rfind`).
pub open spec fn rfind(s: Seq<char>, p: Seq<char>) -> Option<int> {
    rfind_from(s, p, s.len() - p.len())
}

/// The first place at or after `at` where `c` occurs in `s`.
pub open spec fn find_char_from(s: Seq<char>, c: char, at: int) -> Option<int>
    decreases s.len() - at,
{
    if at < 0 || at >= s.len() {
        None
    } else if s[at] == c {
        Some(at)
    } else {
        find_char_from(s, c, at + 1)
    }
}

/// Whether `p` sits in `s` at `at`.
pub fn matches_at(s: &[char], p: &[char], at: usize) -> (b: bool)
    ensures
        b == occurs_at(s@, p@, at as int),
{
    if at > s.len() || p.len() > s.len() - at {
        return false;
    }
    let mut j: usize = 0;
    while j < p.len()
        invariant
            at + p@.len() <= s@.len(),
            j <= p@.len(),
            forall|k: int| 0 <= k < j ==> s@[at + k] == p@[k],
        decreases p@.len() - j,
    {
        assert(at + j < s.len());
        if s[at + j] != p[j] {
            assert(s@.subrange(at as int, at + p@.len())[j as int] != p@[j as int]);
            return false;
        }
        j += 1;
    }
    assert(s@.subrange(at as int, at + p@.len()) == p@);
    true
}

/// Whether `s` begins with `p` (`str::starts_with`).
pub fn has_prefix(s: &[char], p: &[char]) -> (b: bool)
    ensures
        b == starts_with(s@, p@),
{
    let b = matches_at(s, p, 0);
    proof {
        assert(s@.subrange(0, p@.len() as int) == s@.take(p@.len() as int));
    }
    b
}

/// The last place `p` occurs in `s` (`str::rfind`).
pub fn find_last(s: &[char], p: &[char]) -> (r: Option<usize>)
    ensures
        r matches Some(i) ==> rfind(s@, p@) == Some(i as int) && i + p@.len() <= s@.len(),
        r is None ==> rfind(s@, p@) is None,
{
    if p.len() > s.len() {
        assert(rfind_from(s@, p@, s@.len() - p@.len()) is None);
        return None;
    }
    let mut at: usize = s.len() - p.len();
    loop
        invariant
            at + p@.len() <= s@.len(),
            rfind(s@, p@) == rfind_from(s@, p@, at as int),
        decreases at,
    {
        if matches_at(s, p, at) {
            return Some(at);
        }
        if at == 0 {
            assert(rfind_from(s@, p@, -1) is None);
            return None;
        }
        at -= 1;
    }
}

/// The first place at or after `at` where `c` occurs in `s` (`str::find` on a char).
pub fn find_char(s: &[char], c: char, from: usize) -> (r: Option<usize>)
    ensures
        r matches Some(i) ==> find_char_from(s@, c, from as int) == Some(i as int),
        r is None ==> find_char_from(s@, c, from as int) is None,
{
    let mut i = from;
    while i < s.len()
        invariant
            from <= i,
            find_char_from(s@, c, from as int) == find_char_from(s@, c, i as int),
        decreases s@.len() - i,
    {
        if s[i] == c {
            return Some(i);
        }
        i += 1;
    }
    None
}

/// Where the first line of `s` ends: the index of its first `\n`, or its length.
pub open spec fn line_end(s: Seq<char>) -> nat
    decreases s.len(),
{
    if s.len() == 0 || s[0] == '\n' {
        0
    } else {
        1 + line_end(s.drop_first())
    }
}

/// A line with the `\r` of a `\r\n` ending taken off.
pub open spec fn strip_cr(line: Seq<char>) -> Seq<char> {
    if line.len() > 0 && line.last() == '\r' {
        line.drop_last()
    } else {
        line
    }
}

/// The lines of `s` as `str::lines` gives them: split at `\n`, each without its `\n` or
/// the `\r` of a `\r\n`, and no empty line after a final line ending.
pub open spec fn lines(s: Seq<char>) -> Seq<Seq<char>>
    decreases s.len(),
{
    if s.len() == 0 {
        seq![]
    } else {
        let e = line_end(s);
        if e >= s.len() {
            seq![s]
        } else {
            seq![strip_cr(s.take(e as int))] + lines(s.skip(e + 1int))
        }
    }
}

/// The first line of `s` runs up to the first `\n`.
proof fn lemma_line_end(s: Seq<char>, a: int, j: int)
    requires
        0 <= a <= j <= s.len(),
        forall|k: int| a <= k < j ==> s[k] != '\n',
        j == s.len() || s[j] == '\n',
    ensures
        line_end(s.skip(a)) == j - a,
    decreases j - a,
{
    if a < j {
        lemma_line_end(s, a + 1, j);
        assert(s.skip(a).drop_first() == s.skip(a + 1));
    }
}

/// `s[from..to]` with a trailing `\r` removed.
fn strip_cr_range(s: &[char], from: usize, to: usize) -> (line: Vec<char>)
    requires
        from <= to <= s@.len(),
    ensures
        line@ == strip_cr(s@.subrange(from as int, to as int)),
{
    let end = if to > from && s[to - 1] == '\r' { to - 1 } else { to };
    let mut line: Vec<char> = Vec::new();
    push_range(&mut line, s, from, end);
    proof {
        let sub = s@.subrange(from as int, to as int);
        if to > from && s@[to - 1] == '\r' {
            assert(sub.last() == '\r');
            assert(sub.drop_last() == s@.subrange(from as int, end as int));
        }
    }
    line
}

/// The lines of `s` (`str::lines`).
pub fn split_lines(s: &[char]) -> (out: Vec<Vec<char>>)
    ensures
        out@.len() == lines(s@).len(),
        forall|i: int| 0 <= i < out@.len() ==> #[trigger] out@[i]@ == lines(s@)[i],
{
    let mut out: Vec<Vec<char>> = Vec::new();
    let ghost done: Seq<Seq<char>> = seq![];
    let mut start: usize = 0;
    assert(s@.skip(0) == s@);
    assert(done + lines(s@) == lines(s@));
    while start < s.len()
        invariant
            start <= s@.len(),
            out@.len() == done.len(),
            forall|i: int| 0 <= i < out@.len() ==> #[trigger] out@[i]@ == done[i],
            lines(s@) == done + lines(s@.skip(start as int)),
        decreases s@.len() - start,
    {
        let mut j = start;
        while j < s.len() && s[j] != '\n'
            invariant
                start <= j <= s@.len(),
                forall|k: int| start <= k < j ==> s@[k] != '\n',
            decreases s@.len() - j,
        {
            j += 1;
        }
        proof {
            lemma_line_end(s@, start as int, j as int);
        }
        let ghost rest = s@.skip(start as int);
        if j >= s.len() {
            proof {
                assert(rest.take(line_end(rest) as int) == s@.subrange(start as int, j as int));
                assert(lines(rest) == seq![rest]);
                assert(rest == s@.subrange(start as int, j as int));
            }
            // The last line has no ending, so it keeps any `\r`.
            let mut whole: Vec<char> = Vec::new();
            push_range(&mut whole, s, start, j);
            out.push(whole);
            proof {
                done = done + seq![rest];
                assert(s@.skip(j as int).len() == 0);
                assert(lines(s@.skip(j as int)) == Seq::<Seq<char>>::empty());
                assert(lines(s@) == done + lines(s@.skip(j as int)));
            }
            start = j;
        } else {
            let line = strip_cr_range(s, start, j);
            proof {
                assert(rest.take(line_end(rest) as int) == s@.subrange(start as int, j as int));
                assert(rest.skip(line_end(rest) + 1int) == s@.skip(j + 1));
                assert(lines(rest) == seq![line@] + lines(s@.skip(j + 1)));
            }
            out.push(line);
            proof {
                done = done + seq![line@];
                assert(lines(s@) == done + lines(s@.skip(j + 1)));
            }
            start = j + 1;
        }
    }
    proof {
        assert(s@.skip(start as int).len() == 0);
        assert(lines(s@.skip(start as int)) == Seq::<Seq<char>>::empty());
        assert(lines(s@) == done);
    }
    out
}

// ---------------------------------------------------------------------------------------
// Facts about the pieces above, for reasoning about text that is built and read again.

/// The digits of a decimal number are `0` to `9`, and there is at least one.
pub proof fn lemma_decimal_digits(n: nat)
    ensures
        decimal(n).len() >= 1,
        forall|i: int| 0 <= i < decimal(n).len() ==> '0' <= #[trigger] decimal(n)[i] <= '9',
    decreases n,
{
    if n >= 10 {
        lemma_decimal_digits(n / 10);
    }
}

/// A number written with a sign, right-aligned: digits, `-` and spaces only.
pub proof fn lemma_padded_chars(v: int, width: nat)
    ensures
        forall|i: int|
            0 <= i < pad_left(signed_decimal(v), width).len() ==> {
                let c = #[trigger] pad_left(signed_decimal(v), width)[i];
                ('0' <= c <= '9') || c == '-' || c == ' '
            },
{
    let d = signed_decimal(v);
    if v < 0 {
        lemma_decimal_digits((-v) as nat);
        assert forall|i: int| 0 <= i < d.len() implies ('0' <= #[trigger] d[i] <= '9') || d[i] == '-' by {
            if i > 0 {
                assert(d[i] == decimal((-v) as nat)[i - 1]);
            }
        }
    } else {
        lemma_decimal_digits(v as nat);
    }
}

/// What `leading_white` counts: white space up to there, and none just after.
pub proof fn lemma_leading_white(s: Seq<char>)
    ensures
        leading_white(s) <= s.len(),
        forall|i: int| 0 <= i < leading_white(s) ==> is_white(#[trigger] s[i]),
        leading_white(s) < s.len() ==> !is_white(s[leading_white(s) as int]),
    decreases s.len(),
{
    if s.len() > 0 && is_white(s[0]) {
        lemma_leading_white(s.drop_first());
        assert forall|i: int| 0 <= i < leading_white(s) implies is_white(#[trigger] s[i]) by {
            if i > 0 {
                assert(s[i] == s.drop_first()[i - 1]);
            }
        }
    }
}

/// White space all the way to `w`, and none just after, is `w` of it.
pub proof fn lemma_leading_white_is(s: Seq<char>, w: nat)
    requires
        w <= s.len(),
        forall|i: int| 0 <= i < w ==> is_white(#[trigger] s[i]),
        w < s.len() ==> !is_white(s[w as int]),
    ensures
        leading_white(s) == w,
    decreases w,
{
    if w > 0 {
        assert(is_white(s[0]));
        let t = s.drop_first();
        assert forall|i: int| 0 <= i < w - 1 implies is_white(#[trigger] t[i]) by {
            assert(t[i] == s[i + 1]);
        }
        if w - 1 < t.len() {
            assert(t[w - 1] == s[w as int]);
        }
        lemma_leading_white_is(t, (w - 1) as nat);
    }
}

/// Where `line_end` stops: no `\n` before it, and `\n` at it if it is not the end.
pub proof fn lemma_line_end_facts(s: Seq<char>)
    ensures
        line_end(s) <= s.len(),
        forall|i: int| 0 <= i < line_end(s) ==> #[trigger] s[i] != '\n',
        line_end(s) < s.len() ==> s[line_end(s) as int] == '\n',
    decreases s.len(),
{
    if s.len() > 0 && s[0] != '\n' {
        lemma_line_end_facts(s.drop_first());
        assert forall|i: int| 0 <= i < line_end(s) implies #[trigger] s[i] != '\n' by {
            if i > 0 {
                assert(s[i] == s.drop_first()[i - 1]);
            }
        }
    }
}

/// A line's end is the first `\n`.
pub proof fn lemma_line_end_is(s: Seq<char>, e: nat)
    requires
        e <= s.len(),
        forall|i: int| 0 <= i < e ==> #[trigger] s[i] != '\n',
        e < s.len() ==> s[e as int] == '\n',
    ensures
        line_end(s) == e,
    decreases e,
{
    if e > 0 {
        let t = s.drop_first();
        assert(s[0] != '\n');
        assert forall|i: int| 0 <= i < e - 1 implies #[trigger] t[i] != '\n' by {
            assert(t[i] == s[i + 1]);
        }
        if e - 1 < t.len() {
            assert(t[e - 1] == s[e as int]);
        }
        lemma_line_end_is(t, (e - 1) as nat);
    }
}

/// Whether `x` can stand as a line of its own: no `\n` in it, and it does not end in
/// `\r` (which `str::lines` would take for half of a line ending).
pub open spec fn plain_line(x: Seq<char>) -> bool {
    &&& forall|i: int| 0 <= i < x.len() ==> #[trigger] x[i] != '\n'
    &&& !(x.len() > 0 && x.last() == '\r')
}

/// A plain line ended with `\n` reads back as that line, then the rest.
pub proof fn lemma_lines_of_line(x: Seq<char>, y: Seq<char>)
    requires
        plain_line(x),
    ensures
        lines(x + seq!['\n'] + y) == seq![x] + lines(y),
{
    let s = x + seq!['\n'] + y;
    assert forall|i: int| 0 <= i < x.len() implies #[trigger] s[i] != '\n' by {
        assert(s[i] == x[i]);
    }
    assert(s[x.len() as int] == '\n');
    lemma_line_end_is(s, x.len());
    assert(s.take(x.len() as int) == x);
    assert(s.skip(x.len() + 1int) == y);
}

/// The lines `str::lines` gives hold no `\n`.
pub proof fn lemma_lines_have_no_newline(s: Seq<char>)
    ensures
        forall|k: int, i: int|
            0 <= k < lines(s).len() && 0 <= i < lines(s)[k].len() ==> #[trigger] lines(s)[k][i]
                != '\n',
    decreases s.len(),
{
    if s.len() > 0 {
        let e = line_end(s);
        lemma_line_end_facts(s);
        if e < s.len() {
            lemma_lines_have_no_newline(s.skip(e + 1int));
            let first = strip_cr(s.take(e as int));
            assert forall|k: int, i: int|
                0 <= k < lines(s).len() && 0 <= i < lines(s)[k].len() implies #[trigger] lines(s)[k][i]
                    != '\n' by {
                if k == 0 {
                    assert(lines(s)[0] == first);
                    assert(first[i] == s[i]);
                } else {
                    assert(lines(s)[k] == lines(s.skip(e + 1int))[k - 1]);
                }
            }
        }
    }
}

/// What `rfind_from` finds: an occurrence at or before `at`, and none between it and `at`;
/// or, when it finds none, none at all up to `at`.
pub proof fn lemma_rfind_from(s: Seq<char>, p: Seq<char>, at: int)
    ensures
        rfind_from(s, p, at) matches Some(q) ==> {
            &&& occurs_at(s, p, q)
            &&& q <= at
            &&& forall|q2: int| q < q2 <= at ==> !#[trigger] occurs_at(s, p, q2)
        },
        rfind_from(s, p, at) is None ==> forall|q2: int| q2 <= at ==> !#[trigger] occurs_at(s, p, q2),
    decreases at + 1,
{
    if at >= 0 && !occurs_at(s, p, at) {
        lemma_rfind_from(s, p, at - 1);
    }
}

/// An occurrence with none after it up to `at` is what `rfind_from` finds.
pub proof fn lemma_rfind_from_is(s: Seq<char>, p: Seq<char>, at: int, q: int)
    requires
        occurs_at(s, p, q),
        q <= at,
        forall|q2: int| q < q2 <= at ==> !#[trigger] occurs_at(s, p, q2),
    ensures
        rfind_from(s, p, at) == Some(q),
    decreases at - q,
{
    if at > q {
        assert(!occurs_at(s, p, at));
        lemma_rfind_from_is(s, p, at - 1, q);
    }
}

/// What `find_char_from` finds: the first `c` at or after `at`, or none there at all.
pub proof fn lemma_find_char_from(s: Seq<char>, c: char, at: int)
    requires
        at >= 0,
    ensures
        find_char_from(s, c, at) matches Some(i) ==> {
            &&& at <= i < s.len()
            &&& s[i] == c
            &&& forall|j: int| at <= j < i ==> #[trigger] s[j] != c
        },
        find_char_from(s, c, at) is None ==> forall|j: int| at <= j < s.len() ==> #[trigger] s[j]
            != c,
    decreases s.len() - at,
{
    if at < s.len() && s[at] != c {
        lemma_find_char_from(s, c, at + 1);
    }
}

/// The first `c` at or after `at` is what `find_char_from` finds; with none, it finds none.
pub proof fn lemma_find_char_from_is(s: Seq<char>, c: char, at: int, i: Option<int>)
    requires
        at >= 0,
        i matches Some(k) ==> at <= k < s.len() && s[k] == c && forall|j: int|
            at <= j < k ==> #[trigger] s[j] != c,
        i is None ==> forall|j: int| at <= j < s.len() ==> #[trigger] s[j] != c,
    ensures
        find_char_from(s, c, at) == i,
    decreases s.len() - at,
{
    if at < s.len() && s[at] != c {
        lemma_find_char_from_is(s, c, at + 1, i);
    }
}

} // verus!
