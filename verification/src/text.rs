//! Character-level text helpers shared by every module: conversion between
//! strings and character vectors, UTF-8 byte lengths, decimal rendering,
//! padding, line splitting and whitespace trimming as `str` defines them.

use vstd::prelude::*;
use vstd::utf8::encode_utf8;
use vstd::utf8::encode_scalar;

verus! {

/// The characters of a string slice, in order.
pub fn chars_of(s: &str) -> (r: Vec<char>)
    ensures
        r@ == s@,
{
    broadcast use vstd::string::axiom_spec_iter;
    let mut out: Vec<char> = Vec::new();
    for c in it: s.chars()
        invariant
            out@ == it.seq().take(it.index()),
            it.seq() == s@,
    {
        out.push(c);
    }
    out
}

/// A `String` holding the given characters.
///
/// Trusted: `String::from_iter` over the characters (`FromIterator<&char>`);
/// the claim is that the string consists of exactly those characters, in
/// order.
#[verifier::external_body]
pub(crate) fn string_of(v: &Vec<char>) -> (r: String)
    ensures
        r@ == v@,
{
    String::from_iter(v)
}

/// Number of bytes of the UTF-8 encoding of a character sequence (what
/// `str::len` returns).
pub open spec fn blen(s: Seq<char>) -> nat {
    encode_utf8(s).len()
}

/// Width in bytes of the UTF-8 encoding of one character.
pub open spec fn char_width(c: char) -> nat {
    if (c as u32) < 0x80 {
        1
    } else if (c as u32) < 0x800 {
        2
    } else if (c as u32) < 0x10000 {
        3
    } else {
        4
    }
}

pub proof fn lemma_scalar_width(c: char)
    ensures
        encode_scalar(c as u32).len() == char_width(c),
{
}

/// Appending one character adds its width.
pub proof fn lemma_blen_push(s: Seq<char>, c: char)
    ensures
        blen(s.push(c)) == blen(s) + char_width(c),
    decreases s.len(),
{
    lemma_scalar_width(c);
    if s.len() == 0 {
        assert(s.push(c).drop_first() =~= Seq::<char>::empty());
        assert(encode_utf8(Seq::<char>::empty()) =~= Seq::<u8>::empty());
    } else {
        assert(s.push(c).drop_first() =~= s.drop_first().push(c));
        lemma_blen_push(s.drop_first(), c);
        lemma_scalar_width(s[0]);
    }
}

/// Byte length is additive over concatenation.
pub proof fn lemma_blen_concat(a: Seq<char>, b: Seq<char>)
    ensures
        blen(a + b) == blen(a) + blen(b),
    decreases b.len(),
{
    if b.len() == 0 {
        assert(a + b =~= a);
        assert(encode_utf8(b) =~= Seq::<u8>::empty());
    } else {
        let bl = b.drop_last();
        lemma_blen_concat(a, bl);
        assert(a + b =~= (a + bl).push(b.last()));
        assert(b =~= bl.push(b.last()));
        lemma_blen_push(a + bl, b.last());
        lemma_blen_push(bl, b.last());
    }
}

/// Every character takes at least one byte.
pub proof fn lemma_blen_ge_len(s: Seq<char>)
    ensures
        blen(s) >= s.len(),
    decreases s.len(),
{
    if s.len() > 0 {
        lemma_blen_ge_len(s.drop_last());
        assert(s =~= s.drop_last().push(s.last()));
        lemma_blen_push(s.drop_last(), s.last());
    } else {
        assert(encode_utf8(s) =~= Seq::<u8>::empty());
    }
}

/// Byte width of one character.
pub fn width_of(c: char) -> (r: usize)
    ensures
        r == char_width(c),
{
    let u: u32 = c as u32;
    if u < 0x80 {
        1
    } else if u < 0x800 {
        2
    } else if u < 0x10000 {
        3
    } else {
        4
    }
}

/// UTF-8 byte length of a character vector.
pub fn byte_len(v: &Vec<char>) -> (r: usize)
    requires
        blen(v@) <= usize::MAX,
    ensures
        r == blen(v@),
{
    let mut total: usize = 0;
    let mut i: usize = 0;
    proof {
        assert(v@.subrange(0, 0) =~= Seq::<char>::empty());
        assert(encode_utf8(Seq::<char>::empty()) =~= Seq::<u8>::empty());
    }
    while i < v.len()
        invariant
            i <= v.len(),
            total == blen(v@.subrange(0, i as int)),
            blen(v@) <= usize::MAX,
        decreases v.len() - i,
    {
        proof {
            assert(v@.subrange(0, i + 1) =~= v@.subrange(0, i as int).push(v@[i as int]));
            lemma_blen_push(v@.subrange(0, i as int), v@[i as int]);
            assert(v@ =~= v@.subrange(0, i + 1) + v@.subrange(i + 1, v@.len() as int));
            lemma_blen_concat(v@.subrange(0, i + 1), v@.subrange(i + 1, v@.len() as int));
        }
        total = total + width_of(v[i]);
        i = i + 1;
    }
    proof {
        assert(v@.subrange(0, i as int) =~= v@);
    }
    total
}

/// UTF-8 byte length of a character vector, or `cap` when it reaches `cap`.
pub fn byte_len_capped(v: &Vec<char>, cap: usize) -> (r: usize)
    ensures
        r == if blen(v@) < cap { blen(v@) } else { cap as nat },
{
    let mut total: usize = 0;
    let mut i: usize = 0;
    proof {
        assert(v@.subrange(0, 0) =~= Seq::<char>::empty());
        assert(encode_utf8(Seq::<char>::empty()) =~= Seq::<u8>::empty());
    }
    while i < v.len() && total < cap
        invariant
            i <= v.len(),
            total == blen(v@.subrange(0, i as int)),
            total < cap || cap == 0,
        decreases v.len() - i,
    {
        proof {
            assert(v@.subrange(0, i + 1) =~= v@.subrange(0, i as int).push(v@[i as int]));
            lemma_blen_push(v@.subrange(0, i as int), v@[i as int]);
        }
        let w = width_of(v[i]);
        if w >= cap - total {
            proof {
                assert(v@ =~= v@.subrange(0, i + 1) + v@.subrange(i + 1, v@.len() as int));
                lemma_blen_concat(v@.subrange(0, i + 1), v@.subrange(i + 1, v@.len() as int));
            }
            return cap;
        }
        total = total + w;
        i = i + 1;
    }
    proof {
        if i < v.len() {
            assert(v@ =~= v@.subrange(0, i as int) + v@.subrange(i as int, v@.len() as int));
            lemma_blen_concat(v@.subrange(0, i as int), v@.subrange(i as int, v@.len() as int));
        } else {
            assert(v@.subrange(0, i as int) =~= v@);
        }
    }
    if total >= cap {
        return cap;
    }
    total
}

/// Whether two character vectors are equal.
pub fn same_chars(a: &Vec<char>, b: &Vec<char>) -> (r: bool)
    ensures
        r == (a@ == b@),
{
    if a.len() != b.len() {
        return false;
    }
    let mut i: usize = 0;
    while i < a.len()
        invariant
            i <= a.len(),
            a.len() == b.len(),
            forall|j: int| 0 <= j < i ==> a@[j] == b@[j],
        decreases a.len() - i,
    {
        if a[i] != b[i] {
            return false;
        }
        i = i + 1;
    }
    assert(a@ =~= b@);
    true
}

/// Whether a character vector spells a given literal.
pub fn is_lit(a: &Vec<char>, lit: &str) -> (r: bool)
    ensures
        r == (a@ == lit@),
{
    let b = chars_of(lit);
    same_chars(a, &b)
}

/// Appends the characters of a literal.
pub fn push_str(out: &mut Vec<char>, s: &str)
    ensures
        final(out)@ == old(out)@ + s@,
{
    let v = chars_of(s);
    push_all(out, &v);
}

/// Appends the characters of a vector.
pub fn push_all(out: &mut Vec<char>, v: &Vec<char>)
    ensures
        final(out)@ == old(out)@ + v@,
{
    let mut i: usize = 0;
    while i < v.len()
        invariant
            i <= v.len(),
            out@ == old(out)@ + v@.subrange(0, i as int),
        decreases v.len() - i,
    {
        proof {
            assert(v@.subrange(0, i + 1) =~= v@.subrange(0, i as int).push(v@[i as int]));
        }
        out.push(v[i]);
        i = i + 1;
    }
    assert(v@.subrange(0, i as int) =~= v@);
}


/// The ASCII digit for a value below ten.
pub open spec fn digit_char(d: nat) -> char {
    (48 + d) as char
}

/// Decimal rendering of a natural number, as `Display` writes integers.
pub open spec fn decimal(n: nat) -> Seq<char>
    decreases n,
{
    if n < 10 {
        seq![digit_char(n)]
    } else {
        decimal(n / 10).push(digit_char(n % 10))
    }
}

pub proof fn lemma_decimal_nonempty(n: nat)
    ensures
        decimal(n).len() >= 1,
    decreases n,
{
    if n >= 10 {
        lemma_decimal_nonempty(n / 10);
    }
}

/// The decimal text of `n` is a run of ASCII digits worth `n`.
pub proof fn lemma_decimal_digits(n: nat)
    ensures
        decimal(n).len() >= 1,
        all_digits(decimal(n)),
        digits_value(decimal(n)) == n,
    decreases n,
{
    let d = decimal(n);
    let c = digit_char(n % 10);
    assert((c as u32) == 48 + n % 10);
    assert(d.last() == c);
    if n < 10 {
        assert(d.drop_last() =~= Seq::<char>::empty());
        assert(digits_value(d) == digits_value(d.drop_last()) * 10 + ((c as u32) - 48) as nat);
    } else {
        lemma_decimal_digits(n / 10);
        assert(d.drop_last() =~= decimal(n / 10));
        assert(forall|i: int| 0 <= i < d.len() - 1 ==> d[i] == decimal(n / 10)[i]);
        assert(digits_value(d) == digits_value(decimal(n / 10)) * 10 + ((c as u32) - 48) as nat);
    }
}

/// Appends the decimal rendering of `n`.
pub fn push_decimal(out: &mut Vec<char>, n: u64)
    ensures
        final(out)@ == old(out)@ + decimal(n as nat),
    decreases n,
{
    if n >= 10 {
        push_decimal(out, n / 10);
    }
    let d: u8 = (n % 10) as u8;
    let c: char = (d + 48u8) as char;
    assert(c == digit_char((n % 10) as nat));
    out.push(c);
    proof {
        if n >= 10 {
            assert(decimal(n as nat) == decimal((n / 10) as nat).push(digit_char((n % 10) as nat)));
        } else {
            assert(decimal(n as nat) =~= seq![digit_char(n as nat)]);
        }
    }
}

/// `n` spaces.
pub open spec fn spaces(n: nat) -> Seq<char> {
    Seq::new(n, |i: int| ' ')
}

/// `s` right-aligned in a field of `w` characters (`{:>w}`).
pub open spec fn pad_left(s: Seq<char>, w: nat) -> Seq<char> {
    if s.len() >= w {
        s
    } else {
        spaces((w - s.len()) as nat) + s
    }
}

/// `s` left-aligned in a field of `w` characters (`{:<w}`).
pub open spec fn pad_right(s: Seq<char>, w: nat) -> Seq<char> {
    if s.len() >= w {
        s
    } else {
        s + spaces((w - s.len()) as nat)
    }
}

/// Appends `n` spaces.
pub fn push_spaces(out: &mut Vec<char>, n: usize)
    ensures
        final(out)@ == old(out)@ + spaces(n as nat),
{
    let mut i: usize = 0;
    while i < n
        invariant
            i <= n,
            out@ == old(out)@ + spaces(i as nat),
        decreases n - i,
    {
        out.push(' ');
        i = i + 1;
        assert(spaces(i as nat) =~= spaces((i - 1) as nat).push(' '));
    }
}

/// Appends `s` right-aligned in a field of `w` characters.
pub fn push_padded_left(out: &mut Vec<char>, s: &Vec<char>, w: usize)
    ensures
        final(out)@ == old(out)@ + pad_left(s@, w as nat),
{
    if s.len() < w {
        push_spaces(out, w - s.len());
    }
    push_all(out, s);
    assert(final(out)@ =~= old(out)@ + pad_left(s@, w as nat));
}

/// Appends `s` left-aligned in a field of `w` characters.
pub fn push_padded_right(out: &mut Vec<char>, s: &Vec<char>, w: usize)
    ensures
        final(out)@ == old(out)@ + pad_right(s@, w as nat),
{
    push_all(out, s);
    if s.len() < w {
        push_spaces(out, w - s.len());
    }
    assert(final(out)@ =~= old(out)@ + pad_right(s@, w as nat));
}

/// Decimal rendering of `n` as a fresh vector.
pub fn decimal_of(n: u64) -> (r: Vec<char>)
    ensures
        r@ == decimal(n as nat),
{
    let mut v: Vec<char> = Vec::new();
    push_decimal(&mut v, n);
    assert(v@ =~= decimal(n as nat));
    v
}

/// Whether a character is an ASCII digit.
pub open spec fn is_digit(c: char) -> bool {
    '0' <= c && c <= '9'
}

/// Value of a run of ASCII digits.
pub open spec fn digits_value(s: Seq<char>) -> nat
    decreases s.len(),
{
    if s.len() == 0 {
        0
    } else {
        digits_value(s.drop_last()) * 10 + ((s.last() as u32) - 48) as nat
    }
}

/// Whether every character is an ASCII digit.
pub open spec fn all_digits(s: Seq<char>) -> bool {
    forall|i: int| 0 <= i < s.len() ==> is_digit(#[trigger] s[i])
}

/// The digits that `u64::from_str`/`usize::from_str` read: an optional `+`
/// followed by the rest.
pub open spec fn unsigned_body(s: Seq<char>) -> Seq<char> {
    if s.len() > 0 && s[0] == '+' {
        s.drop_first()
    } else {
        s
    }
}

/// What `from_str` yields for an unsigned integer type whose largest value is
/// `max`: the value when the text is an optional `+` and at least one ASCII
/// digit and the value fits, nothing otherwise.
pub open spec fn parse_unsigned(s: Seq<char>, max: nat) -> Option<nat> {
    let b = unsigned_body(s);
    if b.len() > 0 && all_digits(b) && digits_value(b) <= max {
        Some(digits_value(b))
    } else {
        None
    }
}

proof fn lemma_digits_value_monotone(s: Seq<char>, k: int)
    requires
        0 <= k <= s.len(),
        all_digits(s),
    ensures
        digits_value(s.subrange(0, k)) <= digits_value(s),
    decreases s.len() - k,
{
    if k < s.len() {
        lemma_digits_value_monotone(s, k + 1);
        let t = s.subrange(0, k + 1);
        assert(t.drop_last() =~= s.subrange(0, k));
        assert(is_digit(s[k]));
    } else {
        assert(s.subrange(0, k) =~= s);
    }
}

/// Parses an unsigned decimal bounded by `max`, as `from_str` does.
pub fn parse_bounded(s: &Vec<char>, max: u64) -> (r: Option<u64>)
    ensures
        match r {
            Some(v) => parse_unsigned(s@, max as nat) == Some(v as nat),
            None => parse_unsigned(s@, max as nat) is None,
        },
{
    let start: usize = if s.len() > 0 && s[0] == '+' { 1 } else { 0 };
    let ghost b = unsigned_body(s@);
    assert(b =~= s@.subrange(start as int, s@.len() as int));
    if start >= s.len() {
        return None;
    }
    let mut value: u64 = 0;
    let mut i: usize = start;
    while i < s.len()
        invariant
            start <= i <= s.len(),
            b == unsigned_body(s@),
            b =~= s@.subrange(start as int, s@.len() as int),
            all_digits(s@.subrange(start as int, i as int)),
            value as nat == digits_value(s@.subrange(start as int, i as int)),
            value <= max,
        decreases s.len() - i,
    {
        let c = s[i];
        if !('0' <= c && c <= '9') {
            proof {
                assert(b[i - start] == c);
                assert(!is_digit(b[i - start]));
            }
            return None;
        }
        let d: u64 = ((c as u32) - 48) as u64;
        let ghost pre = s@.subrange(start as int, i as int);
        let ghost post = s@.subrange(start as int, i + 1);
        assert(post.drop_last() =~= pre);
        assert(post.last() == c);
        if d > max || value > (max - d) / 10 {
            proof {
                assert(value * 10 + d > max) by (nonlinear_arith)
                    requires d > max || value > (max - d) / 10, d <= max || value * 10 + d > max;
                assert(digits_value(post) > max);
                assert(all_digits(b)  ==> digits_value(post) <= digits_value(b)) by {
                    if all_digits(b) {
                        lemma_digits_value_monotone(b, i + 1 - start);
                        assert(b.subrange(0, i + 1 - start) =~= post);
                    }
                }
            }
            return None;
        }
        proof {
            assert(value * 10 + d <= max) by (nonlinear_arith)
                requires value <= (max - d) / 10, d <= max;
        }
        value = value * 10 + d;
        i = i + 1;
        assert(all_digits(s@.subrange(start as int, i as int))) by {
            assert forall|j: int| 0 <= j < post.len() implies is_digit(#[trigger] post[j]) by {
                if j < pre.len() {
                    assert(post[j] == pre[j]);
                }
            }
        }
    }
    assert(s@.subrange(start as int, i as int) =~= b);
    Some(value)
}


/// Index of the first `'\n'` at or after `from`, or the length when none.
pub open spec fn next_newline(s: Seq<char>, from: int) -> int
    decreases s.len() - from,
{
    if from >= s.len() {
        s.len() as int
    } else if s[from] == '\n' {
        from
    } else {
        next_newline(s, from + 1)
    }
}

pub proof fn lemma_next_newline(s: Seq<char>, from: int)
    requires
        0 <= from <= s.len(),
    ensures
        from <= next_newline(s, from) <= s.len(),
        next_newline(s, from) < s.len() ==> s[next_newline(s, from)] == '\n',
        forall|j: int| from <= j < next_newline(s, from) ==> s[j] != '\n',
    decreases s.len() - from,
{
    if from < s.len() && s[from] != '\n' {
        lemma_next_newline(s, from + 1);
    }
}

/// A line as `str::lines` yields it: without the `'\r'` of a `"\r\n"` ending.
pub open spec fn strip_cr(line: Seq<char>) -> Seq<char> {
    if line.len() > 0 && line.last() == '\r' {
        line.drop_last()
    } else {
        line
    }
}

/// The lines of `s` from position `start` on, as `str::lines` splits them:
/// separated by `'\n'`, a final `'\n'` adds no empty line, and a `'\r'` right
/// before a `'\n'` is dropped.
pub open spec fn lines_from(s: Seq<char>, start: int) -> Seq<Seq<char>>
    decreases s.len() - start,
{
    if start < 0 || start >= s.len() {
        Seq::empty()
    } else {
        let j = next_newline(s, start);
        if j >= s.len() {
            seq![s.subrange(start, s.len() as int)]
        } else if j < start {
            Seq::empty()
        } else {
            seq![strip_cr(s.subrange(start, j))] + lines_from(s, j + 1)
        }
    }
}

/// The lines of `s`, as `str::lines` splits them.
pub open spec fn lines(s: Seq<char>) -> Seq<Seq<char>> {
    lines_from(s, 0)
}

/// The views of a vector of character vectors.
pub open spec fn views(v: Seq<Vec<char>>) -> Seq<Seq<char>> {
    v.map_values(|x: Vec<char>| x@)
}

/// Copies `s[from..to]`.
pub fn slice_of(s: &Vec<char>, from: usize, to: usize) -> (r: Vec<char>)
    requires
        from <= to <= s.len(),
    ensures
        r@ == s@.subrange(from as int, to as int),
{
    let mut r: Vec<char> = Vec::new();
    let mut i: usize = from;
    while i < to
        invariant
            from <= i <= to <= s.len(),
            r@ == s@.subrange(from as int, i as int),
        decreases to - i,
    {
        r.push(s[i]);
        i = i + 1;
        assert(r@ =~= s@.subrange(from as int, i as int));
    }
    r
}

/// Splits text into lines exactly as `str::lines` does.
pub fn split_lines(s: &Vec<char>) -> (r: Vec<Vec<char>>)
    ensures
        views(r@) == lines(s@),
{
    let mut out: Vec<Vec<char>> = Vec::new();
    let mut start: usize = 0;
    while start < s.len()
        invariant
            start <= s.len(),
            views(out@) + lines_from(s@, start as int) == lines(s@),
        decreases s.len() - start,
    {
        let mut j: usize = start;
        while j < s.len() && s[j] != '\n'
            invariant
                start <= j <= s.len(),
                next_newline(s@, start as int) == next_newline(s@, j as int),
            decreases s.len() - j,
        {
            j = j + 1;
        }
        proof {
            assert(next_newline(s@, j as int) == j);
        }
        let ghost old_out = out@;
        if j >= s.len() {
            let line = slice_of(s, start, s.len());
            out.push(line);
            proof {
                assert(lines_from(s@, start as int) == seq![s@.subrange(start as int, s@.len() as int)]);
                assert(lines_from(s@, s@.len() as int) =~= Seq::<Seq<char>>::empty());
                assert(views(out@) =~= views(old_out).push(s@.subrange(start as int, s@.len() as int)));
                assert(views(out@) + lines_from(s@, s@.len() as int) =~= views(old_out) + lines_from(s@, start as int));
            }
            start = s.len();
        } else {
            let mut end: usize = j;
            if end > start && s[end - 1] == '\r' {
                end = end - 1;
            }
            let line = slice_of(s, start, end);
            proof {
                assert(line@ =~= strip_cr(s@.subrange(start as int, j as int)));
            }
            out.push(line);
            proof {
                assert(lines_from(s@, start as int) == seq![strip_cr(s@.subrange(start as int, j as int))] + lines_from(s@, j + 1));
                assert(views(out@) =~= views(old_out).push(strip_cr(s@.subrange(start as int, j as int))));
                assert(views(out@) + lines_from(s@, j + 1) =~= views(old_out) + lines_from(s@, start as int));
            }
            start = j + 1;
        }
    }
    proof {
        assert(lines_from(s@, start as int) =~= Seq::<Seq<char>>::empty());
        assert(views(out@) =~= views(out@) + lines_from(s@, start as int));
    }
    out
}

/// Whether a character is white space in the sense of `char::is_whitespace`
/// (the Unicode `White_Space` property).
pub open spec fn is_ws(c: char) -> bool {
    let u = c as u32;
    (0x09 <= u && u <= 0x0D) || u == 0x20 || u == 0x85 || u == 0xA0 || u == 0x1680 || (0x2000 <= u
        && u <= 0x200A) || u == 0x2028 || u == 0x2029 || u == 0x202F || u == 0x205F || u == 0x3000
}

/// `char::is_whitespace`.
pub fn is_whitespace(c: char) -> (r: bool)
    ensures
        r == is_ws(c),
{
    let u: u32 = c as u32;
    (0x09 <= u && u <= 0x0D) || u == 0x20 || u == 0x85 || u == 0xA0 || u == 0x1680 || (0x2000 <= u
        && u <= 0x200A) || u == 0x2028 || u == 0x2029 || u == 0x202F || u == 0x205F || u == 0x3000
}

/// Number of leading white-space characters.
pub open spec fn lead_ws(s: Seq<char>) -> nat
    decreases s.len(),
{
    if s.len() > 0 && is_ws(s[0]) {
        1 + lead_ws(s.drop_first())
    } else {
        0
    }
}

/// Number of trailing white-space characters.
pub open spec fn trail_ws(s: Seq<char>) -> nat
    decreases s.len(),
{
    if s.len() > 0 && is_ws(s.last()) {
        1 + trail_ws(s.drop_last())
    } else {
        0
    }
}

/// `str::trim_start`.
pub open spec fn trim_start(s: Seq<char>) -> Seq<char> {
    s.subrange(lead_ws(s) as int, s.len() as int)
}

/// `str::trim_end`.
pub open spec fn trim_end(s: Seq<char>) -> Seq<char> {
    s.subrange(0, s.len() - trail_ws(s))
}

/// `str::trim`.
pub open spec fn trim(s: Seq<char>) -> Seq<char> {
    trim_end(trim_start(s))
}

pub proof fn lemma_lead_ws(s: Seq<char>, k: int)
    requires
        0 <= k <= s.len(),
        forall|j: int| 0 <= j < k ==> is_ws(#[trigger] s[j]),
    ensures
        lead_ws(s) <= s.len(),
        k < s.len() && !is_ws(s[k]) ==> lead_ws(s) == k,
        k == s.len() ==> lead_ws(s) == k,
    decreases k,
{
    if k > 0 {
        assert forall|j: int| 0 <= j < k - 1 implies is_ws(#[trigger] s.drop_first()[j]) by {
            assert(s.drop_first()[j] == s[j + 1]);
        }
        lemma_lead_ws(s.drop_first(), k - 1);
        assert(is_ws(s[0]));
    } else {
        if s.len() > 0 && is_ws(s[0]) {
            lemma_lead_ws_bound(s);
        }
    }
}

pub proof fn lemma_lead_ws_bound(s: Seq<char>)
    ensures
        lead_ws(s) <= s.len(),
    decreases s.len(),
{
    if s.len() > 0 && is_ws(s[0]) {
        lemma_lead_ws_bound(s.drop_first());
    }
}

pub proof fn lemma_trail_ws(s: Seq<char>, k: int)
    requires
        0 <= k <= s.len(),
        forall|j: int| s.len() - k <= j < s.len() ==> is_ws(#[trigger] s[j]),
    ensures
        trail_ws(s) <= s.len(),
        k < s.len() && !is_ws(s[s.len() - 1 - k]) ==> trail_ws(s) == k,
        k == s.len() ==> trail_ws(s) == k,
    decreases k,
{
    if k > 0 {
        assert forall|j: int| s.len() - 1 - (k - 1) <= j < s.len() - 1 implies is_ws(#[trigger] s.drop_last()[j]) by {
            assert(s.drop_last()[j] == s[j]);
        }
        lemma_trail_ws(s.drop_last(), k - 1);
        assert(is_ws(s.last()));
    } else {
        lemma_trail_ws_bound(s);
    }
}

pub proof fn lemma_trail_ws_bound(s: Seq<char>)
    ensures
        trail_ws(s) <= s.len(),
    decreases s.len(),
{
    if s.len() > 0 && is_ws(s.last()) {
        lemma_trail_ws_bound(s.drop_last());
    }
}

/// `str::trim_start` on a character vector.
pub fn trimmed_start(s: &Vec<char>) -> (r: Vec<char>)
    ensures
        r@ == trim_start(s@),
{
    let mut k: usize = 0;
    while k < s.len() && is_whitespace(s[k])
        invariant
            k <= s.len(),
            forall|j: int| 0 <= j < k ==> is_ws(#[trigger] s@[j]),
        decreases s.len() - k,
    {
        k = k + 1;
    }
    proof {
        lemma_lead_ws(s@, k as int);
    }
    slice_of(s, k, s.len())
}

/// `str::trim_end` on a character vector.
pub fn trimmed_end(s: &Vec<char>) -> (r: Vec<char>)
    ensures
        r@ == trim_end(s@),
{
    let mut k: usize = 0;
    while k < s.len() && is_whitespace(s[s.len() - 1 - k])
        invariant
            k <= s.len(),
            forall|j: int| s.len() - k <= j < s.len() ==> is_ws(#[trigger] s@[j]),
        decreases s.len() - k,
    {
        k = k + 1;
    }
    proof {
        lemma_trail_ws(s@, k as int);
    }
    slice_of(s, 0, s.len() - k)
}

/// `str::trim` on a character vector.
pub fn trimmed(s: &Vec<char>) -> (r: Vec<char>)
    ensures
        r@ == trim(s@),
{
    let a = trimmed_start(s);
    trimmed_end(&a)
}


/// Whether two string slices hold the same characters.
pub fn str_eq(a: &str, b: &str) -> (r: bool)
    ensures
        r == (a@ == b@),
{
    let x = chars_of(a);
    let y = chars_of(b);
    same_chars(&x, &y)
}

/// Whether `c` is ASCII.
pub open spec fn ascii_char(c: char) -> bool {
    (c as u32) < 128
}

/// An ASCII letter.
pub open spec fn ascii_letter(c: char) -> bool {
    ('a' <= c && c <= 'z') || ('A' <= c && c <= 'Z')
}

/// An ASCII decimal digit.
pub open spec fn ascii_digit(c: char) -> bool {
    '0' <= c && c <= '9'
}

/// The Unicode `Alphabetic` property beyond ASCII.
pub uninterp spec fn alphabetic_beyond_ascii(c: char) -> bool;

/// `Alphabetic` or `Numeric` beyond ASCII.
pub uninterp spec fn alphanumeric_beyond_ascii(c: char) -> bool;

/// The Unicode `Lowercase` property beyond ASCII.
pub uninterp spec fn lowercase_beyond_ascii(c: char) -> bool;

/// The Unicode `Uppercase` property beyond ASCII.
pub uninterp spec fn uppercase_beyond_ascii(c: char) -> bool;

/// `char::is_alphabetic`: the Unicode `Alphabetic` property, which in ASCII
/// holds of the letters alone.
pub open spec fn unicode_alphabetic(c: char) -> bool {
    if ascii_char(c) {
        ascii_letter(c)
    } else {
        alphabetic_beyond_ascii(c)
    }
}

/// `char::is_alphanumeric`: `Alphabetic` or `Numeric` (a general category
/// for numbers), which in ASCII hold of the letters and the decimal digits.
pub open spec fn unicode_alphanumeric(c: char) -> bool {
    if ascii_char(c) {
        ascii_letter(c) || ascii_digit(c)
    } else {
        alphanumeric_beyond_ascii(c)
    }
}

/// `char::is_lowercase`: the Unicode `Lowercase` property, which in ASCII
/// holds of `a`..`z` alone.
pub open spec fn unicode_lowercase(c: char) -> bool {
    if ascii_char(c) {
        'a' <= c && c <= 'z'
    } else {
        lowercase_beyond_ascii(c)
    }
}

/// `char::is_uppercase`: the Unicode `Uppercase` property, which in ASCII
/// holds of `A`..`Z` alone.
pub open spec fn unicode_uppercase(c: char) -> bool {
    if ascii_char(c) {
        'A' <= c && c <= 'Z'
    } else {
        uppercase_beyond_ascii(c)
    }
}

/// Trusted: `char::is_alphabetic`. The claim: the answer is the Unicode
/// `Alphabetic` property of the character, as the documentation defines it
/// (DerivedCoreProperties.txt); in ASCII that property holds of the letters
/// `A`..`Z` and `a`..`z` and of nothing else. Beyond ASCII it is named.
#[verifier::external_body]
pub(crate) fn is_alphabetic(c: char) -> (r: bool)
    ensures
        r == unicode_alphabetic(c),
        !ascii_char(c) ==> r == alphabetic_beyond_ascii(c),
{
    c.is_alphabetic()
}

/// Trusted: `char::is_alphanumeric`. The claim: the answer is whether the
/// character is `Alphabetic` or in a general category for numbers (Nd, Nl,
/// No), as the documentation defines it; in ASCII that holds of the letters
/// and of the digits `0`..`9` and of nothing else. Beyond ASCII it is named.
#[verifier::external_body]
pub(crate) fn is_alphanumeric(c: char) -> (r: bool)
    ensures
        r == unicode_alphanumeric(c),
        !ascii_char(c) ==> r == alphanumeric_beyond_ascii(c),
{
    c.is_alphanumeric()
}

/// Trusted: `char::is_lowercase`. The claim: the answer is the Unicode
/// `Lowercase` property of the character, as the documentation defines it;
/// in ASCII that property holds of `a`..`z` and of nothing else. Beyond
/// ASCII it is named.
#[verifier::external_body]
pub(crate) fn is_lowercase(c: char) -> (r: bool)
    ensures
        r == unicode_lowercase(c),
        !ascii_char(c) ==> r == lowercase_beyond_ascii(c),
{
    c.is_lowercase()
}

/// Trusted: `char::is_uppercase`. The claim: the answer is the Unicode
/// `Uppercase` property of the character, as the documentation defines it;
/// in ASCII that property holds of `A`..`Z` and of nothing else. Beyond
/// ASCII it is named.
#[verifier::external_body]
pub(crate) fn is_uppercase(c: char) -> (r: bool)
    ensures
        r == unicode_uppercase(c),
        !ascii_char(c) ==> r == uppercase_beyond_ascii(c),
{
    c.is_uppercase()
}

/// At most `max` characters of `s`; a longer text keeps its first `max`
/// characters followed by an ellipsis.
pub open spec fn truncate_chars(s: Seq<char>, max: nat) -> Seq<char> {
    if s.len() <= max {
        s
    } else {
        s.subrange(0, max as int).push('…')
    }
}

/// Character-count truncation with an ellipsis.
pub fn truncated(s: &Vec<char>, max: usize) -> (r: Vec<char>)
    ensures
        r@ == truncate_chars(s@, max as nat),
{
    if s.len() <= max {
        slice_of(s, 0, s.len())
    } else {
        let mut r = slice_of(s, 0, max);
        r.push('…');
        r
    }
}

/// `PathBuf::join` of a relative path onto `base`: a separator goes in
/// between unless `base` is empty or already ends in one.
pub open spec fn join_path(base: Seq<char>, rel: Seq<char>) -> Seq<char> {
    if base.len() == 0 || base.last() == '/' {
        base + rel
    } else {
        base.push('/') + rel
    }
}

/// Joins a relative path onto a base path.
pub fn joined(base: &Vec<char>, rel: &Vec<char>) -> (r: Vec<char>)
    ensures
        r@ == join_path(base@, rel@),
{
    let mut r = slice_of(base, 0, base.len());
    if base.len() > 0 && base[base.len() - 1] != '/' {
        r.push('/');
    }
    push_all(&mut r, rel);
    r
}

/// Index of the first `sep` at or after `from`, or the length when none.
pub open spec fn next_sep(s: Seq<char>, sep: char, from: int) -> int
    decreases s.len() - from,
{
    if from >= s.len() {
        s.len() as int
    } else if s[from] == sep {
        from
    } else {
        next_sep(s, sep, from + 1)
    }
}

pub proof fn lemma_next_sep(s: Seq<char>, sep: char, from: int)
    requires
        0 <= from <= s.len(),
    ensures
        from <= next_sep(s, sep, from) <= s.len(),
        next_sep(s, sep, from) < s.len() ==> s[next_sep(s, sep, from)] == sep,
        forall|j: int| from <= j < next_sep(s, sep, from) ==> s[j] != sep,
    decreases s.len() - from,
{
    if from < s.len() && s[from] != sep {
        lemma_next_sep(s, sep, from + 1);
    }
}

/// The pieces of `s` from `start` on, cut at every `sep` (as `str::split`).
pub open spec fn split_from(s: Seq<char>, sep: char, start: int) -> Seq<Seq<char>>
    decreases s.len() - start,
{
    if start < 0 || start > s.len() {
        Seq::empty()
    } else {
        let j = next_sep(s, sep, start);
        if j >= s.len() || j < start {
            seq![s.subrange(start, s.len() as int)]
        } else {
            seq![s.subrange(start, j)] + split_from(s, sep, j + 1)
        }
    }
}

/// `str::split` on one character: always at least one piece.
pub open spec fn split_on(s: Seq<char>, sep: char) -> Seq<Seq<char>> {
    split_from(s, sep, 0)
}

/// Splits on every occurrence of `sep`, as `str::split` does.
pub fn split_chars(s: &Vec<char>, sep: char) -> (r: Vec<Vec<char>>)
    ensures
        views(r@) == split_on(s@, sep),
{
    let mut out: Vec<Vec<char>> = Vec::new();
    let mut start: usize = 0;
    loop
        invariant
            start <= s.len(),
            views(out@) + split_from(s@, sep, start as int) == split_on(s@, sep),
        decreases s.len() - start,
    {
        let mut j: usize = start;
        while j < s.len() && s[j] != sep
            invariant
                start <= j <= s.len(),
                next_sep(s@, sep, start as int) == next_sep(s@, sep, j as int),
            decreases s.len() - j,
        {
            j = j + 1;
        }
        assert(next_sep(s@, sep, j as int) == j);
        let piece = slice_of(s, start, j);
        let ghost old_out = out@;
        out.push(piece);
        if j >= s.len() {
            proof {
                assert(views(out@) =~= views(old_out).push(s@.subrange(start as int, s@.len() as int)));
                assert(views(out@) =~= views(old_out) + split_from(s@, sep, start as int));
            }
            return out;
        }
        proof {
            assert(views(out@) =~= views(old_out).push(s@.subrange(start as int, j as int)));
            assert(views(out@) + split_from(s@, sep, j + 1) =~= views(old_out) + split_from(s@, sep, start as int));
        }
        start = j + 1;
    }
}

/// The last name of a path, as `Path::file_name` finds it: empty and `.`
/// components are skipped, and a final `..` has no name.
pub open spec fn last_name(parts: Seq<Seq<char>>) -> Option<Seq<char>>
    decreases parts.len(),
{
    if parts.len() == 0 {
        None
    } else {
        let l = parts.last();
        if l.len() == 0 || l == "."@ {
            last_name(parts.drop_last())
        } else if l == ".."@ {
            None
        } else {
            Some(l)
        }
    }
}

/// The file name of a `/`-separated path.
pub open spec fn file_name_of(p: Seq<char>) -> Option<Seq<char>> {
    last_name(split_on(p, '/'))
}

/// The file name of a path, as `Path::file_name` yields it.
pub fn file_name(p: &Vec<char>) -> (r: Option<Vec<char>>)
    ensures
        match r {
            Some(n) => file_name_of(p@) == Some(n@),
            None => file_name_of(p@) is None,
        },
{
    let parts = split_chars(p, '/');
    let mut k: usize = parts.len();
    assert(views(parts@).subrange(0, k as int) =~= views(parts@));
    while k > 0
        invariant
            k <= parts.len(),
            views(parts@) == split_on(p@, '/'),
            last_name(views(parts@)) == last_name(views(parts@).subrange(0, k as int)),
        decreases k,
    {
        let ghost pre = views(parts@).subrange(0, k as int);
        assert(pre.drop_last() =~= views(parts@).subrange(0, k - 1));
        assert(pre.last() == parts@[k - 1]@);
        let part = &parts[k - 1];
        if part.len() == 0 || is_lit(part, ".") {
            k = k - 1;
        } else if is_lit(part, "..") {
            return None;
        } else {
            return Some(slice_of(part, 0, part.len()));
        }
    }
    assert(views(parts@).subrange(0, 0) =~= Seq::<Seq<char>>::empty());
    None
}

/// Index of the last `c` of `s` before position `k`, if any.
pub open spec fn last_before(s: Seq<char>, c: char, k: int) -> Option<int>
    decreases k,
{
    if k <= 0 || k > s.len() {
        None
    } else if s[k - 1] == c {
        Some(k - 1)
    } else {
        last_before(s, c, k - 1)
    }
}

/// The extension of a path, as `Path::extension` yields it: what follows the
/// last `.` of the file name, unless that dot starts the name.
pub open spec fn extension_of(p: Seq<char>) -> Option<Seq<char>> {
    match file_name_of(p) {
        Some(n) => match last_before(n, '.', n.len() as int) {
            Some(j) => if j == 0 {
                None
            } else {
                Some(n.subrange(j + 1, n.len() as int))
            },
            None => None,
        },
        None => None,
    }
}

/// The extension of a path.
pub fn extension(p: &Vec<char>) -> (r: Option<Vec<char>>)
    ensures
        match r {
            Some(e) => extension_of(p@) == Some(e@),
            None => extension_of(p@) is None,
        },
{
    let n = match file_name(p) {
        Some(n) => n,
        None => {
            return None;
        },
    };
    let mut k: usize = n.len();
    while k > 0 && n[k - 1] != '.'
        invariant
            k <= n.len(),
            last_before(n@, '.', n@.len() as int) == last_before(n@, '.', k as int),
        decreases k,
    {
        k = k - 1;
    }
    if k == 0 || k == 1 {
        return None;
    }
    Some(slice_of(&n, k, n.len()))
}


/// Lexicographic order of character sequences (the order of `String`, whose
/// UTF-8 bytes compare as the characters do).
pub open spec fn lex_lt(a: Seq<char>, b: Seq<char>) -> bool
    decreases a.len(),
{
    if a.len() == 0 {
        b.len() > 0
    } else if b.len() == 0 {
        false
    } else if a[0] < b[0] {
        true
    } else if a[0] > b[0] {
        false
    } else {
        lex_lt(a.drop_first(), b.drop_first())
    }
}

pub proof fn lemma_lex_irreflexive(a: Seq<char>)
    ensures
        !lex_lt(a, a),
    decreases a.len(),
{
    if a.len() > 0 {
        lemma_lex_irreflexive(a.drop_first());
    }
}

pub proof fn lemma_lex_transitive(a: Seq<char>, b: Seq<char>, c: Seq<char>)
    requires
        lex_lt(a, b),
        lex_lt(b, c),
    ensures
        lex_lt(a, c),
    decreases a.len(),
{
    if a.len() > 0 && b.len() > 0 && c.len() > 0 && a[0] == b[0] && b[0] == c[0] {
        lemma_lex_transitive(a.drop_first(), b.drop_first(), c.drop_first());
    }
}

pub proof fn lemma_lex_total(a: Seq<char>, b: Seq<char>)
    ensures
        a == b || lex_lt(a, b) || lex_lt(b, a),
    decreases a.len(),
{
    if a.len() > 0 && b.len() > 0 && a[0] == b[0] {
        lemma_lex_total(a.drop_first(), b.drop_first());
        if a.drop_first() == b.drop_first() {
            assert(a =~= seq![a[0]] + a.drop_first());
            assert(b =~= seq![b[0]] + b.drop_first());
        }
    } else if a.len() == 0 && b.len() == 0 {
        assert(a =~= b);
    }
}

pub proof fn lemma_lex_asymmetric(a: Seq<char>, b: Seq<char>)
    requires
        lex_lt(a, b),
    ensures
        !lex_lt(b, a),
{
    if lex_lt(b, a) {
        lemma_lex_transitive(a, b, a);
        lemma_lex_irreflexive(a);
    }
}

/// Whether `a` sorts strictly before `b`.
pub fn lex_less(a: &Vec<char>, b: &Vec<char>) -> (r: bool)
    ensures
        r == lex_lt(a@, b@),
{
    let mut i: usize = 0;
    assert(a@.subrange(0, a@.len() as int) =~= a@);
    assert(b@.subrange(0, b@.len() as int) =~= b@);
    while i < a.len() && i < b.len() && a[i] == b[i]
        invariant
            i <= a.len(),
            i <= b.len(),
            lex_lt(a@, b@) == lex_lt(a@.subrange(i as int, a@.len() as int), b@.subrange(i as int, b@.len() as int)),
        decreases a.len() - i,
    {
        let ghost x = a@.subrange(i as int, a@.len() as int);
        let ghost y = b@.subrange(i as int, b@.len() as int);
        assert(x.drop_first() =~= a@.subrange(i + 1, a@.len() as int));
        assert(y.drop_first() =~= b@.subrange(i + 1, b@.len() as int));
        i = i + 1;
    }
    let ghost x = a@.subrange(i as int, a@.len() as int);
    let ghost y = b@.subrange(i as int, b@.len() as int);
    if i == a.len() {
        i < b.len()
    } else if i == b.len() {
        false
    } else {
        assert(x[0] == a@[i as int] && y[0] == b@[i as int]);
        a[i] < b[i]
    }
}

/// Sorted in lexicographic order (equal neighbours allowed).
pub open spec fn lex_sorted(s: Seq<Seq<char>>) -> bool {
    forall|i: int, j: int| 0 <= i < j < s.len() ==> !lex_lt(s[j], s[i])
}

/// Swapping neighbours keeps the multiset.
pub proof fn lemma_swap_multiset<A>(s: Seq<A>, j: int)
    requires
        0 < j < s.len(),
    ensures
        s.update(j - 1, s[j]).update(j, s[j - 1]).to_multiset() == s.to_multiset(),
{
    let t = s.update(j - 1, s[j]).update(j, s[j - 1]);
    let a = s.subrange(0, j - 1);
    let b = s.subrange(j + 1, s.len() as int);
    assert(s =~= a + seq![s[j - 1], s[j]] + b);
    assert(t =~= a + seq![s[j], s[j - 1]] + b);
    vstd::seq_lib::lemma_multiset_commutative(a + seq![s[j - 1], s[j]], b);
    vstd::seq_lib::lemma_multiset_commutative(a + seq![s[j], s[j - 1]], b);
    vstd::seq_lib::lemma_multiset_commutative(a, seq![s[j - 1], s[j]]);
    vstd::seq_lib::lemma_multiset_commutative(a, seq![s[j], s[j - 1]]);
    assert(seq![s[j - 1], s[j]] =~= seq![s[j - 1]].push(s[j]));
    assert(seq![s[j], s[j - 1]] =~= seq![s[j]].push(s[j - 1]));
    assert(seq![s[j - 1], s[j]].to_multiset() =~= seq![s[j], s[j - 1]].to_multiset()) by {
        broadcast use vstd::seq_lib::group_to_multiset_ensures;
        assert(seq![s[j - 1]].drop_last() =~= Seq::<A>::empty());
        assert(seq![s[j]].drop_last() =~= Seq::<A>::empty());
    }
}

/// Sorts character vectors lexicographically (a stable insertion sort).
pub fn sort_texts(v: &mut Vec<Vec<char>>)
    ensures
        lex_sorted(views(final(v)@)),
        views(final(v)@).to_multiset() == views(old(v)@).to_multiset(),
{
    let n = v.len();
    if n == 0 {
        return;
    }
    let mut i: usize = 1;
    while i < n
        invariant
            1 <= i <= n,
            n == v.len(),
            views(v@).to_multiset() == views(old(v)@).to_multiset(),
            forall|a: int, b: int| 0 <= a < b < i ==> !lex_lt(v@[b]@, v@[a]@),
        decreases n - i,
    {
        let mut j: usize = i;
        while j > 0 && lex_less(&v[j], &v[j - 1])
            invariant
                1 <= i < n,
                j <= i,
                n == v.len(),
                views(v@).to_multiset() == views(old(v)@).to_multiset(),
                forall|a: int, b: int| 0 <= a < b <= i && a != j && b != j ==> !lex_lt(v@[b]@, v@[a]@),
                forall|b: int| j < b <= i ==> lex_lt(v@[j as int]@, #[trigger] v@[b]@),
            decreases j,
        {
            let ghost old_v = v@;
            let x = v.remove(j);
            v.insert(j - 1, x);
            proof {
                assert(v@ =~= old_v.update(j - 1, old_v[j as int]).update(j as int, old_v[j - 1]));
                assert(views(v@) =~= views(old_v).update(j - 1, views(old_v)[j as int]).update(j as int, views(old_v)[j - 1]));
                lemma_swap_multiset(views(old_v), j as int);
                assert forall|a: int, b: int| 0 <= a < b <= i && a != j - 1 && b != j - 1 implies !lex_lt(v@[b]@, v@[a]@) by {
                    if b == j {
                        // old j-1 moved to j: it was above everything after old j ...
                        if a < j - 1 {
                            assert(!lex_lt(old_v[j - 1]@, old_v[a]@));
                        }
                    } else if a == j {
                        assert(lex_lt(old_v[j as int]@, old_v[b]@) || true);
                        assert(!lex_lt(old_v[b]@, old_v[j - 1]@));
                    }
                }
                assert forall|b: int| j - 1 < b <= i implies lex_lt(v@[j - 1]@, #[trigger] v@[b]@) by {
                    if b == j {
                        assert(lex_lt(old_v[j as int]@, old_v[j - 1]@));
                    } else {
                        assert(lex_lt(old_v[j as int]@, old_v[b]@));
                    }
                }
            }
            j = j - 1;
        }
        proof {
            assert forall|a: int, b: int| 0 <= a < b <= i implies !lex_lt(v@[b]@, v@[a]@) by {
                if b == j {
                    if a < j {
                        assert(!lex_lt(v@[j as int]@, v@[j - 1]@));
                        if a < j - 1 {
                            assert(!lex_lt(v@[j - 1]@, v@[a]@));
                            lemma_lex_total(v@[a]@, v@[j - 1]@);
                            if lex_lt(v@[j as int]@, v@[a]@) {
                                lemma_lex_total(v@[j as int]@, v@[j - 1]@);
                                if v@[j - 1]@ == v@[a]@ {
                                } else if lex_lt(v@[a]@, v@[j - 1]@) {
                                    lemma_lex_transitive(v@[j as int]@, v@[a]@, v@[j - 1]@);
                                }
                            }
                        }
                    }
                } else if a == j {
                    assert(lex_lt(v@[j as int]@, v@[b]@));
                    lemma_lex_asymmetric(v@[j as int]@, v@[b]@);
                }
            }
        }
        i = i + 1;
    }
}


/// A path without its leading `./` prefixes (`trim_start_matches`).
pub open spec fn strip_dot_slash(d: Seq<char>) -> Seq<char>
    decreases d.len(),
{
    if d.len() >= 2 && d[0] == '.' && d[1] == '/' {
        strip_dot_slash(d.subrange(2, d.len() as int))
    } else {
        d
    }
}

/// A path without its leading `./` prefixes.
pub fn stripped_dot_slash(d: &Vec<char>) -> (r: Vec<char>)
    ensures
        r@ == strip_dot_slash(d@),
{
    let mut k: usize = 0;
    assert(d@.subrange(0, d@.len() as int) =~= d@);
    while d.len() - k >= 2 && d[k] == '.' && d[k + 1] == '/'
        invariant
            k <= d.len(),
            strip_dot_slash(d@) == strip_dot_slash(d@.subrange(k as int, d@.len() as int)),
        decreases d.len() - k,
    {
        assert(d@.subrange(k + 2, d@.len() as int) =~= d@.subrange(k as int, d@.len() as int).subrange(2, d@.len() - k));
        k = k + 2;
    }
    let r = slice_of(d, k, d.len());
    proof {
        let rest = d@.subrange(k as int, d@.len() as int);
        if rest.len() >= 2 {
            assert(rest[0] == d@[k as int] && rest[1] == d@[k + 1]);
        }
    }
    r
}

} // verus!
