//! Small operations on text, stated over sequences of characters:
//! splitting at a separator, trimming white space, reading a decimal
//! number, finding one text inside another.

use vstd::prelude::*;
use vstd::utf8::{decode_utf8, valid_utf8};

verus! {

/// The position of the first `sep` in `s`, or the length of `s` if there
/// is none.
pub open spec fn first_at(s: Seq<char>, sep: char) -> int
    decreases s.len(),
{
    if s.len() == 0 || s[0] == sep {
        0
    } else {
        1 + first_at(s.skip(1), sep)
    }
}

/// The position of the first byte `b` in `s`, or the length of `s` if
/// there is none.
pub open spec fn first_byte_at(s: Seq<u8>, b: u8) -> int
    decreases s.len(),
{
    if s.len() == 0 || s[0] == b {
        0
    } else {
        1 + first_byte_at(s.skip(1), b)
    }
}

pub proof fn lemma_first_byte_at(s: Seq<u8>, b: u8, i: int)
    requires
        0 <= i <= s.len(),
        forall|j: int| 0 <= j < i ==> s[j] != b,
        i < s.len() ==> s[i] == b,
    ensures
        first_byte_at(s, b) == i,
    decreases i,
{
    if i > 0 {
        let t = s.skip(1);
        assert forall|j: int| 0 <= j < i - 1 implies t[j] != b by {
            assert(t[j] == s[j + 1]);
        }
        lemma_first_byte_at(t, b, i - 1);
    }
}

/// The pieces into which the separators cut `s`. There is always at
/// least one piece, and no piece holds a separator.
pub open spec fn pieces(s: Seq<char>, sep: char) -> Seq<Seq<char>>
    decreases s.len(),
{
    let i = first_at(s, sep);
    if 0 <= i < s.len() {
        seq![s.take(i)] + pieces(s.skip(i + 1), sep)
    } else {
        seq![s]
    }
}

/// The pieces of `s` without the last one if that is empty: what remains
/// when each separator ends a piece rather than standing between two.
pub open spec fn terminated_pieces(s: Seq<char>, sep: char) -> Seq<Seq<char>> {
    let p = pieces(s, sep);
    if p.len() > 0 && p.last().len() == 0 {
        p.drop_last()
    } else {
        p
    }
}

/// The texts that a sequence of string slices holds.
pub open spec fn texts(v: Seq<&str>) -> Seq<Seq<char>> {
    Seq::new(v.len(), |i: int| v[i]@)
}

pub proof fn lemma_first_at(s: Seq<char>, sep: char, i: int)
    requires
        0 <= i <= s.len(),
        forall|j: int| 0 <= j < i ==> s[j] != sep,
        i < s.len() ==> s[i] == sep,
    ensures
        first_at(s, sep) == i,
    decreases i,
{
    if i > 0 {
        let t = s.skip(1);
        assert forall|j: int| 0 <= j < i - 1 implies t[j] != sep by {
            assert(t[j] == s[j + 1]);
        }
        lemma_first_at(t, sep, i - 1);
    }
}

/// There is always at least one piece.
pub proof fn lemma_pieces_nonempty(s: Seq<char>, sep: char)
    ensures
        pieces(s, sep).len() >= 1,
{
}

/// Splits `s` at every `sep`.
pub fn split<'a>(s: &'a str, sep: char) -> (out: Vec<&'a str>)
    ensures
        texts(out@) == pieces(s@, sep),
        out@.len() >= 1,
{
    let n = s.unicode_len();
    let mut out: Vec<&'a str> = Vec::new();
    let mut start: usize = 0;
    let mut i: usize = 0;
    proof {
        assert(s@.skip(0) =~= s@);
        assert(texts(out@) + pieces(s@, sep) =~= pieces(s@, sep));
    }
    while i < n
        invariant
            start <= i <= n,
            n == s@.len(),
            forall|j: int| start <= j < i ==> s@[j] != sep,
            pieces(s@, sep) == texts(out@) + pieces(s@.skip(start as int), sep),
        decreases n - i,
    {
        if s.get_char(i) == sep {
            let piece = s.substring_char(start, i);
            proof {
                let rest = s@.skip(start as int);
                assert forall|j: int| 0 <= j < i - start implies rest[j] != sep by {
                    assert(rest[j] == s@[start + j]);
                }
                lemma_first_at(rest, sep, i - start);
                assert(rest.take(i - start) =~= piece@);
                assert(rest.skip(i - start + 1) =~= s@.skip(i + 1));
                assert(texts(out@.push(piece)) =~= texts(out@) + seq![piece@]);
                assert(texts(out@) + (seq![piece@] + pieces(s@.skip(i + 1), sep)) =~= (texts(out@)
                    + seq![piece@]) + pieces(s@.skip(i + 1), sep));
            }
            out.push(piece);
            start = i + 1;
        }
        i += 1;
    }
    let piece = s.substring_char(start, n);
    proof {
        let rest = s@.skip(start as int);
        assert forall|j: int| 0 <= j < n - start implies rest[j] != sep by {
            assert(rest[j] == s@[start + j]);
        }
        lemma_first_at(rest, sep, n - start);
        assert(rest =~= piece@);
        assert(texts(out@.push(piece)) =~= texts(out@) + seq![piece@]);
    }
    out.push(piece);
    out
}

/// Splits `s` at every `sep`, treating `sep` as the end of a piece: a
/// last piece that is empty is left out.
pub fn split_terminator<'a>(s: &'a str, sep: char) -> (out: Vec<&'a str>)
    ensures
        texts(out@) == terminated_pieces(s@, sep),
{
    let mut out = split(s, sep);
    let n = out.len();
    if out[n - 1].unicode_len() == 0 {
        let ghost before = out@;
        out.pop();
        proof {
            assert(texts(before).last() == before.last()@);
            assert(texts(out@) =~= texts(before).drop_last());
        }
    } else {
        proof {
            assert(texts(out@).last() == out@.last()@);
        }
    }
    out
}

/// Whether `c` is white space in the sense of Unicode's `White_Space`
/// property.
pub uninterp spec fn white_space(c: char) -> bool;

/// `char::is_whitespace` of the standard library: the result is named
/// [`white_space`], a fixed property of the character.
#[verifier::external_body]
fn is_white_space(c: char) -> (b: bool)
    ensures
        b == white_space(c),
{
    c.is_whitespace()
}

/// How many characters of white space `s` begins with.
pub open spec fn leading_space(s: Seq<char>) -> int
    decreases s.len(),
{
    if s.len() == 0 || !white_space(s[0]) {
        0
    } else {
        1 + leading_space(s.skip(1))
    }
}

/// How many characters of white space `s` ends with.
pub open spec fn trailing_space(s: Seq<char>) -> int
    decreases s.len(),
{
    if s.len() == 0 || !white_space(s.last()) {
        0
    } else {
        1 + trailing_space(s.drop_last())
    }
}

/// `s` without the white space at its two ends.
pub open spec fn trimmed(s: Seq<char>) -> Seq<char> {
    let t = s.skip(leading_space(s));
    t.take(t.len() - trailing_space(t))
}

pub proof fn lemma_leading_space(s: Seq<char>, i: int)
    requires
        0 <= i <= s.len(),
        forall|j: int| 0 <= j < i ==> white_space(s[j]),
        i < s.len() ==> !white_space(s[i]),
    ensures
        leading_space(s) == i,
    decreases i,
{
    if i > 0 {
        let t = s.skip(1);
        assert forall|j: int| 0 <= j < i - 1 implies white_space(t[j]) by {
            assert(t[j] == s[j + 1]);
        }
        lemma_leading_space(t, i - 1);
    }
}

pub proof fn lemma_trailing_space(s: Seq<char>, i: int)
    requires
        0 <= i <= s.len(),
        forall|j: int| s.len() - i <= j < s.len() ==> white_space(s[j]),
        i < s.len() ==> !white_space(s[s.len() - i - 1]),
    ensures
        trailing_space(s) == i,
    decreases i,
{
    if i > 0 {
        let t = s.drop_last();
        assert forall|j: int| t.len() - (i - 1) <= j < t.len() implies white_space(t[j]) by {
            assert(t[j] == s[j]);
        }
        assert(i - 1 < t.len() ==> t[t.len() - (i - 1) - 1] == s[s.len() - i - 1]);
        lemma_trailing_space(t, i - 1);
    }
}

/// Returns `s` without leading and trailing white space.
pub fn trim<'a>(s: &'a str) -> (r: &'a str)
    ensures
        r@ == trimmed(s@),
{
    let n = s.unicode_len();
    let mut a: usize = 0;
    while a < n && is_white_space(s.get_char(a))
        invariant
            a <= n,
            n == s@.len(),
            forall|j: int| 0 <= j < a ==> white_space(s@[j]),
        decreases n - a,
    {
        a += 1;
    }
    let mut b: usize = n;
    while b > a && is_white_space(s.get_char(b - 1))
        invariant
            a <= b <= n,
            n == s@.len(),
            forall|j: int| b <= j < n ==> white_space(s@[j]),
        decreases b,
    {
        b -= 1;
    }
    proof {
        lemma_leading_space(s@, a as int);
        let t = s@.skip(a as int);
        assert forall|j: int| t.len() - (n - b) <= j < t.len() implies white_space(t[j]) by {
            assert(t[j] == s@[a + j]);
        }
        lemma_trailing_space(t, n - b);
        assert(t.take(t.len() - (n - b)) =~= s@.subrange(a as int, b as int));
    }
    s.substring_char(a, b)
}

/// `needle` occurs in `hay` as a run of consecutive characters.
pub open spec fn occurs_in(needle: Seq<char>, hay: Seq<char>) -> bool {
    exists|i: int|
        0 <= i <= hay.len() - needle.len() && #[trigger] hay.subrange(i, i + needle.len()) == needle
}

/// `str::contains` of the standard library with a string pattern: true
/// exactly when the pattern occurs in the text.
#[verifier::external_body]
pub(crate) fn contains(hay: &str, needle: &str) -> (b: bool)
    ensures
        b == occurs_in(needle@, hay@),
{
    hay.contains(needle)
}

/// `core::str::from_utf8` of the standard library: the text that the
/// bytes encode, if they are valid UTF-8, and nothing otherwise.
#[verifier::external_body]
pub(crate) fn utf8_text<'a>(bytes: &'a [u8]) -> (r: Option<&'a str>)
    ensures
        r is Some <==> valid_utf8(bytes@),
        r matches Some(s) ==> s@ == decode_utf8(bytes@),
{
    core::str::from_utf8(bytes).ok()
}

/// `String::push` of the standard library appends one character.
pub assume_specification[ String::push ](s: &mut String, c: char)
    ensures
        final(s)@ == old(s)@.push(c),
;

/// Whether every character is a decimal digit.
pub open spec fn all_digits(d: Seq<char>) -> bool {
    forall|i: int| 0 <= i < d.len() ==> '0' <= #[trigger] d[i] <= '9'
}

/// The number that a run of decimal digits denotes.
pub open spec fn digits_value(d: Seq<char>) -> nat
    decreases d.len(),
{
    if d.len() == 0 {
        0
    } else {
        (10 * digits_value(d.drop_last()) + (d.last() as u32 - '0' as u32)) as nat
    }
}

/// The number that `s` denotes: decimal digits, at least one, after an
/// optional `+`.
pub open spec fn number(s: Seq<char>) -> Option<nat> {
    let d = if s.len() > 1 && s[0] == '+' {
        s.skip(1)
    } else {
        s
    };
    if d.len() > 0 && all_digits(d) {
        Some(digits_value(d))
    } else {
        None
    }
}

pub proof fn lemma_digits_grow(d: Seq<char>, k: int)
    requires
        all_digits(d),
        0 <= k <= d.len(),
    ensures
        digits_value(d.take(k)) <= digits_value(d),
    decreases d.len() - k,
{
    if k < d.len() {
        lemma_digits_grow(d, k + 1);
        assert(d.take(k + 1).drop_last() =~= d.take(k));
        assert('0' <= d.take(k + 1).last() <= '9');
    } else {
        assert(d.take(k) =~= d);
    }
}

/// Reads `s` as an unsigned decimal number no greater than `max`.
fn parse_bounded(s: &str, max: u64) -> (r: Option<u64>)
    requires
        max >= 9,
    ensures
        r == match number(s@) {
            Some(v) => if v <= max {
                Some(v as u64)
            } else {
                None
            },
            None => None,
        },
{
    let n = s.unicode_len();
    if n == 0 {
        return None;
    }
    let begin: usize = if n > 1 && s.get_char(0) == '+' {
        1
    } else {
        0
    };
    let ghost d = s@.skip(begin as int);
    let mut acc: u64 = 0;
    let mut i: usize = begin;
    proof {
        assert(s@.skip(0) =~= s@);
    }
    while i < n
        invariant
            begin <= i <= n,
            n == s@.len(),
            max >= 9,
            d == s@.skip(begin as int),
            d.len() > 0,
            d == if s@.len() > 1 && s@[0] == '+' {
                s@.skip(1)
            } else {
                s@
            },
            all_digits(d.take(i - begin)),
            acc == digits_value(d.take(i - begin)),
            acc <= max,
        decreases n - i,
    {
        let c = s.get_char(i);
        assert(c == d[i - begin]);
        if c < '0' || c > '9' {
            return None;
        }
        let digit = (c as u32 - '0' as u32) as u64;
        proof {
            assert(d.take(i - begin + 1).drop_last() =~= d.take(i - begin));
            assert(d.take(i - begin + 1).last() == c);
            assert forall|j: int| 0 <= j < i - begin + 1 implies '0' <= #[trigger] d.take(i - begin + 1)[j]
                <= '9' by {
                if j < i - begin {
                    assert(d.take(i - begin)[j] == d[j]);
                }
            }
        }
        if acc > (max - digit) / 10 {
            proof {
                // Every later digit only makes the number larger.
                let next = d.take(i - begin + 1);
                assert(digits_value(next) == 10 * acc + digit);
                assert(digits_value(next) > max);
                if all_digits(d) {
                    lemma_digits_grow(d, i - begin + 1);
                }
            }
            return None;
        }
        acc = acc * 10 + digit;
        i += 1;
    }
    proof {
        assert(d.take(n - begin) =~= d);
    }
    Some(acc)
}

/// Reads `s` as a `u32`, as `str::parse::<u32>` does.
pub fn parse_u32(s: &str) -> (r: Option<u32>)
    ensures
        r == match number(s@) {
            Some(v) => if v <= u32::MAX {
                Some(v as u32)
            } else {
                None
            },
            None => None,
        },
{
    match parse_bounded(s, 0xffff_ffff) {
        Some(v) => Some(v as u32),
        None => None,
    }
}

/// Reads `s` as a `u64`, as `str::parse::<u64>` does.
pub fn parse_u64(s: &str) -> (r: Option<u64>)
    ensures
        r == match number(s@) {
            Some(v) => if v <= u64::MAX {
                Some(v as u64)
            } else {
                None
            },
            None => None,
        },
{
    parse_bounded(s, 0xffff_ffff_ffff_ffff)
}

} // verus!
