//! Decimal text: digits, trimming and the amounts of the feed, on characters
//! and on bytes.

use crate::transactions::{amount_text, decimal, digit_char};
use vstd::prelude::*;

verus! {

broadcast use vstd::string::group_string_axioms;

/// Whether a character is an ASCII decimal digit.
pub open spec fn is_digit_char(c: char) -> bool {
    '0' <= c && c <= '9'
}

pub open spec fn all_digit_chars(s: Seq<char>) -> bool {
    forall|i: int| 0 <= i < s.len() ==> is_digit_char(#[trigger] s[i])
}

/// The value of a string of decimal digit characters.
pub open spec fn chars_value(s: Seq<char>) -> nat
    decreases s.len(),
{
    if s.len() == 0 {
        0
    } else {
        chars_value(s.drop_last()) * 10 + (s.last() as nat - 48) as nat
    }
}

/// What parsing a `u64` from text gives: an optional `+`, then at least one
/// decimal digit and nothing else, of a value that fits.
pub open spec fn parse_u64_text(s: Seq<char>) -> Option<u64> {
    let d = if s.len() > 0 && s[0] == '+' {
        s.drop_first()
    } else {
        s
    };
    if d.len() > 0 && all_digit_chars(d) && chars_value(d) <= u64::MAX {
        Some(chars_value(d) as u64)
    } else {
        None
    }
}

/// Whether a character is white space in Unicode's sense.
pub open spec fn is_white_space(c: char) -> bool {
    ('\t' <= c && c <= '\r') || c == ' ' || c == '\u{85}' || c == '\u{a0}' || c == '\u{1680}' || (
    '\u{2000}' <= c && c <= '\u{200a}') || c == '\u{2028}' || c == '\u{2029}' || c == '\u{202f}'
        || c == '\u{205f}' || c == '\u{3000}'
}

/// The number of white-space characters that `s` starts with.
pub open spec fn leading_space(s: Seq<char>) -> nat
    decreases s.len(),
{
    if s.len() > 0 && is_white_space(s[0]) {
        1 + leading_space(s.drop_first())
    } else {
        0
    }
}

/// The number of white-space characters that `s` ends with.
pub open spec fn trailing_space(s: Seq<char>) -> nat
    decreases s.len(),
{
    if s.len() > 0 && is_white_space(s.last()) {
        1 + trailing_space(s.drop_last())
    } else {
        0
    }
}

/// `s` without leading and trailing white space.
pub open spec fn trim_text(s: Seq<char>) -> Seq<char> {
    let t = s.skip(leading_space(s) as int);
    t.take(t.len() - trailing_space(t))
}

/// The index of the first `c` in `s`, or its length where there is none.
pub open spec fn index_of(s: Seq<char>, c: char) -> nat
    decreases s.len(),
{
    if s.len() == 0 {
        0
    } else if s[0] == c {
        0
    } else {
        1 + index_of(s.drop_first(), c)
    }
}

/// The index of the first non-ASCII character of `s`, or its length.
pub open spec fn first_non_ascii(s: Seq<char>) -> nat
    decreases s.len(),
{
    if s.len() == 0 {
        0
    } else if (s[0] as u32) >= 0x80 {
        0
    } else {
        1 + first_non_ascii(s.drop_first())
    }
}

/// The number of bytes of a character in UTF-8.
pub open spec fn utf8_len(c: char) -> nat {
    if (c as u32) < 0x80 {
        1
    } else if (c as u32) < 0x800 {
        2
    } else if (c as u32) < 0x10000 {
        3
    } else {
        4
    }
}

/// The digits before the first point of a trimmed amount.
pub open spec fn int_text(t: Seq<char>) -> Seq<char> {
    t.take(index_of(t, '.') as int)
}

/// The text between the first point and the next one, if there is a point.
pub open spec fn frac_text(t: Seq<char>) -> Option<Seq<char>> {
    let p = index_of(t, '.');
    if p < t.len() {
        let rest = t.skip(p + 1int);
        Some(rest.take(index_of(rest, '.') as int))
    } else {
        None
    }
}

/// Whether, counting UTF-8 bytes from `start`, the text `f` runs past the
/// fourth byte with byte four falling inside one of its characters.
pub open spec fn cut_splits_at(f: Seq<char>, start: nat) -> bool
    decreases f.len(),
{
    if f.len() == 0 || start >= 4 {
        false
    } else if start + utf8_len(f[0]) > 4 {
        true
    } else {
        cut_splits_at(f.drop_first(), start + utf8_len(f[0]))
    }
}

/// Whether cutting the fractional text to its first four bytes splits a
/// character: the text is longer than four bytes in UTF-8 and byte four is
/// no character boundary (the cut then fails).
pub open spec fn frac_cut_splits(f: Seq<char>) -> bool {
    cut_splits_at(f, 0)
}

/// The value of the fractional text: its first four bytes, or the text
/// padded with `0` to four bytes, read as a `u64`.
pub open spec fn frac_value(f: Seq<char>) -> Option<u64> {
    let k = first_non_ascii(f);
    if k >= 4 {
        parse_u64_text(f.take(4))
    } else if k == f.len() {
        parse_u64_text(f + Seq::new((4 - f.len()) as nat, |i: int| '0'))
    } else {
        None
    }
}

/// Whether reading the amount text fails hard: the fractional cut splits a
/// character, or the amount in ten-thousandths leaves the range of `u64`.
pub open spec fn amount_text_fails(s: Seq<char>) -> bool {
    let t = trim_text(s);
    &&& t.len() > 0
    &&& parse_u64_text(int_text(t)) is Some
    &&& match frac_text(t) {
        Some(f) => frac_cut_splits(f) || (frac_value(f) matches Some(fv) && parse_u64_text(
            int_text(t),
        )->0 * 10000 + fv > u64::MAX),
        None => parse_u64_text(int_text(t))->0 * 10000 > u64::MAX,
    }
}

/// The amount, in ten-thousandths, that a decimal text stands for: units, and
/// optionally a point and up to four decimals (further decimals are cut).
pub open spec fn amount_text_value(s: Seq<char>) -> Option<u64> {
    let t = trim_text(s);
    if t.len() == 0 {
        None
    } else {
        match parse_u64_text(int_text(t)) {
            None => None,
            Some(iv) => match frac_text(t) {
                Some(f) => match frac_value(f) {
                    Some(fv) => Some((iv * 10000 + fv) as u64),
                    None => None,
                },
                None => Some((iv * 10000) as u64),
            },
        }
    }
}

/// The characters of a string.
pub fn chars_of(s: &str) -> (v: Vec<char>)
    ensures
        v@ == s@,
{
    let mut it = s.chars();
    let mut v: Vec<char> = Vec::new();
    loop
        invariant_except_break
            v@.len() <= s@.len(),
            vstd::std_specs::iter::IteratorSpec::remaining(&it) == s@.skip(v@.len() as int),
            v@ == s@.take(v@.len() as int),
        ensures
            v@ == s@,
        decreases s@.len() - v@.len(),
    {
        match it.next() {
            Some(c) => {
                v.push(c);
                assert(v@ =~= s@.take(v@.len() as int));
            },
            None => {
                assert(s@.take(v@.len() as int) =~= s@);
                break ;
            },
        }
    }
    v
}

/// A longer string of digits is worth at least as much as its prefixes.
pub proof fn lemma_chars_value_prefix(d: Seq<char>, k: int)
    requires
        0 <= k <= d.len(),
        all_digit_chars(d),
    ensures
        chars_value(d.take(k)) <= chars_value(d),
    decreases d.len(),
{
    if k < d.len() {
        assert(all_digit_chars(d.drop_last()));
        assert(d.drop_last().take(k) =~= d.take(k));
        lemma_chars_value_prefix(d.drop_last(), k);
    } else {
        assert(d.take(k) =~= d);
    }
}

fn is_white_space_char(c: char) -> (r: bool)
    ensures
        r == is_white_space(c),
{
    ('\t' <= c && c <= '\r') || c == ' ' || c == '\u{85}' || c == '\u{a0}' || c == '\u{1680}' || (
    '\u{2000}' <= c && c <= '\u{200a}') || c == '\u{2028}' || c == '\u{2029}' || c == '\u{202f}'
        || c == '\u{205f}' || c == '\u{3000}'
}

/// The number of white-space characters that `v[lo..hi]` starts with.
fn count_leading_space(v: &Vec<char>, lo: usize, hi: usize) -> (n: usize)
    requires
        lo <= hi <= v@.len(),
    ensures
        n == leading_space(v@.subrange(lo as int, hi as int)),
        lo + n <= hi,
{
    let mut i = lo;
    while i < hi && is_white_space_char(v[i])
        invariant
            lo <= i <= hi <= v@.len(),
            leading_space(v@.subrange(lo as int, hi as int)) == (i - lo) + leading_space(
                v@.subrange(i as int, hi as int),
            ),
        decreases hi - i,
    {
        assert(v@.subrange(i as int, hi as int).drop_first() =~= v@.subrange(i + 1, hi as int));
        i = i + 1;
    }
    i - lo
}

/// The number of white-space characters that `v[lo..hi]` ends with.
fn count_trailing_space(v: &Vec<char>, lo: usize, hi: usize) -> (n: usize)
    requires
        lo <= hi <= v@.len(),
    ensures
        n == trailing_space(v@.subrange(lo as int, hi as int)),
        n <= hi - lo,
{
    let mut j = hi;
    while j > lo && is_white_space_char(v[j - 1])
        invariant
            lo <= j <= hi <= v@.len(),
            trailing_space(v@.subrange(lo as int, hi as int)) == (hi - j) + trailing_space(
                v@.subrange(lo as int, j as int),
            ),
        decreases j - lo,
    {
        assert(v@.subrange(lo as int, j as int).drop_last() =~= v@.subrange(lo as int, j - 1));
        j = j - 1;
    }
    hi - j
}

/// The index, counted from `lo`, of the first `c` in `v[lo..hi]`, or `hi - lo`.
fn find_char(v: &Vec<char>, lo: usize, hi: usize, c: char) -> (n: usize)
    requires
        lo <= hi <= v@.len(),
    ensures
        n == index_of(v@.subrange(lo as int, hi as int), c),
        lo + n <= hi,
{
    let mut i = lo;
    while i < hi && v[i] != c
        invariant
            lo <= i <= hi <= v@.len(),
            index_of(v@.subrange(lo as int, hi as int), c) == (i - lo) + index_of(
                v@.subrange(i as int, hi as int),
                c,
            ),
        decreases hi - i,
    {
        assert(v@.subrange(i as int, hi as int).drop_first() =~= v@.subrange(i + 1, hi as int));
        i = i + 1;
    }
    i - lo
}

/// The index, counted from `lo`, of the first non-ASCII character of
/// `v[lo..hi]`, or `hi - lo`.
fn find_non_ascii(v: &Vec<char>, lo: usize, hi: usize) -> (n: usize)
    requires
        lo <= hi <= v@.len(),
    ensures
        n == first_non_ascii(v@.subrange(lo as int, hi as int)),
        lo + n <= hi,
{
    let mut i = lo;
    while i < hi && (v[i] as u32) < 0x80
        invariant
            lo <= i <= hi <= v@.len(),
            first_non_ascii(v@.subrange(lo as int, hi as int)) == (i - lo) + first_non_ascii(
                v@.subrange(i as int, hi as int),
            ),
        decreases hi - i,
    {
        assert(v@.subrange(i as int, hi as int).drop_first() =~= v@.subrange(i + 1, hi as int));
        i = i + 1;
    }
    i - lo
}

/// Parses `v[lo..hi]` as a `u64`: an optional `+`, then decimal digits.
pub fn parse_u64_chars(v: &Vec<char>, lo: usize, hi: usize) -> (r: Option<u64>)
    requires
        lo <= hi <= v@.len(),
    ensures
        r == parse_u64_text(v@.subrange(lo as int, hi as int)),
{
    let ghost s = v@.subrange(lo as int, hi as int);
    let start = if lo < hi && v[lo] == '+' {
        lo + 1
    } else {
        lo
    };
    let ghost d = v@.subrange(start as int, hi as int);
    assert(d =~= (if s.len() > 0 && s[0] == '+' {
        s.drop_first()
    } else {
        s
    }));
    if start == hi {
        return None;
    }
    let mut acc: u64 = 0;
    let mut i = start;
    while i < hi
        invariant
            start <= i <= hi <= v@.len(),
            d == v@.subrange(start as int, hi as int),
            s == v@.subrange(lo as int, hi as int),
            d.len() > 0,
            parse_u64_text(s) == (if all_digit_chars(d) && chars_value(d) <= u64::MAX {
                Some(chars_value(d) as u64)
            } else {
                None
            }),
            all_digit_chars(v@.subrange(start as int, i as int)),
            acc == chars_value(v@.subrange(start as int, i as int)),
        decreases hi - i,
    {
        let c = v[i];
        assert(v@.subrange(start as int, i + 1).drop_last() =~= v@.subrange(start as int, i as int));
        if !('0' <= c && c <= '9') {
            assert(d[i - start] == c);
            assert(!is_digit_char(d[i - start]));
            return None;
        }
        let digit = (c as u32 - 48) as u64;
        let next = match acc.checked_mul(10) {
            Some(x) => x.checked_add(digit),
            None => None,
        };
        match next {
            Some(x) => {
                acc = x;
            },
            None => {
                proof {
                    assert(v@.subrange(start as int, i + 1) =~= d.take(i + 1 - start));
                    if all_digit_chars(d) {
                        lemma_chars_value_prefix(d, i + 1 - start);
                    }
                }
                return None;
            },
        }
        i = i + 1;
    }
    Some(acc)
}

/// How reading an amount text ends.
pub enum AmountOutcome {
    /// The amount in ten-thousandths.
    Value(u64),
    /// The text is no amount.
    Invalid,
    /// Reading fails hard (see `amount_text_fails`).
    Fails,
}

/// How reading the amount text `s` ends, by `amount_text_fails` and
/// `amount_text_value`.
pub open spec fn amount_outcome(s: Seq<char>) -> AmountOutcome {
    if amount_text_fails(s) {
        AmountOutcome::Fails
    } else {
        match amount_text_value(s) {
            Some(v) => AmountOutcome::Value(v),
            None => AmountOutcome::Invalid,
        }
    }
}

fn utf8_width(c: char) -> (n: usize)
    ensures
        n == utf8_len(c),
{
    let u = c as u32;
    if u < 0x80 {
        1
    } else if u < 0x800 {
        2
    } else if u < 0x10000 {
        3
    } else {
        4
    }
}

/// Whether cutting `v[lo..hi]` to its first four bytes splits a character.
fn cut_splits(v: &Vec<char>, lo: usize, hi: usize) -> (r: bool)
    requires
        lo <= hi <= v@.len(),
    ensures
        r == frac_cut_splits(v@.subrange(lo as int, hi as int)),
{
    let mut i = lo;
    let mut b: usize = 0;
    while i < hi && b < 4
        invariant
            lo <= i <= hi <= v@.len(),
            b <= 4,
            cut_splits_at(v@.subrange(lo as int, hi as int), 0) == cut_splits_at(
                v@.subrange(i as int, hi as int),
                b as nat,
            ),
        decreases hi - i,
    {
        let w = utf8_width(v[i]);
        assert(v@.subrange(i as int, hi as int).drop_first() =~= v@.subrange(i + 1, hi as int));
        if b + w > 4 {
            return true;
        }
        b = b + w;
        i = i + 1;
    }
    false
}

/// The value of the fractional text `v[lo..hi]` (see `frac_value`), and
/// whether cutting it splits a character.
fn read_frac(v: &Vec<char>, lo: usize, hi: usize) -> (r: (bool, Option<u64>))
    requires
        lo <= hi <= v@.len(),
    ensures
        r.0 == frac_cut_splits(v@.subrange(lo as int, hi as int)),
        r.1 == frac_value(v@.subrange(lo as int, hi as int)),
{
    let ghost f = v@.subrange(lo as int, hi as int);
    let splits = cut_splits(v, lo, hi);
    let k = find_non_ascii(v, lo, hi);
    if k >= 4 {
        assert(v@.subrange(lo as int, lo + 4) =~= f.take(4));
        (splits, parse_u64_chars(v, lo, lo + 4))
    } else if k == hi - lo {
        let mut padded: Vec<char> = Vec::new();
        let mut i = lo;
        while i < hi
            invariant
                lo <= i <= hi <= v@.len(),
                padded@ == v@.subrange(lo as int, i as int),
            decreases hi - i,
        {
            padded.push(v[i]);
            assert(padded@ =~= v@.subrange(lo as int, i + 1));
            i = i + 1;
        }
        let ghost body = padded@;
        while padded.len() < 4
            invariant
                padded@.len() <= 4,
                body == f,
                padded@.len() >= f.len(),
                padded@.subrange(0, f.len() as int) == f,
                forall|j: int| f.len() <= j < padded@.len() ==> padded@[j] == '0',
            decreases 4 - padded@.len(),
        {
            padded.push('0');
        }
        assert(padded@ =~= f + Seq::new((4 - f.len()) as nat, |i: int| '0'));
        let value = parse_u64_chars(&padded, 0, padded.len());
        assert(padded@.subrange(0, padded@.len() as int) =~= padded@);
        (splits, value)
    } else {
        (splits, None)
    }
}

/// Reads the amount text `v` (see `amount_outcome`).
fn read_amount(v: &Vec<char>) -> (r: AmountOutcome)
    ensures
        r == amount_outcome(v@),
{
    let n = v.len();
    let lead = count_leading_space(v, 0, n);
    let a = lead;
    assert(v@.subrange(0, n as int) =~= v@);
    assert(v@.skip(lead as int) =~= v@.subrange(a as int, n as int));
    let trail = count_trailing_space(v, a, n);
    let b = n - trail;
    let ghost t = trim_text(v@);
    assert(t =~= v@.subrange(a as int, b as int));
    if a == b {
        return AmountOutcome::Invalid;
    }
    let p = find_char(v, a, b, '.');
    assert(int_text(t) =~= v@.subrange(a as int, (a + p) as int));
    let int_value = match parse_u64_chars(v, a, a + p) {
        Some(x) => x,
        None => {
            return AmountOutcome::Invalid;
        },
    };
    if a + p < b {
        let fs = a + p + 1;
        assert(t.skip(p + 1int) =~= v@.subrange(fs as int, b as int));
        let q = find_char(v, fs, b, '.');
        let fe = fs + q;
        assert(frac_text(t) == Some(v@.subrange(fs as int, fe as int)));
        let (splits, fv) = read_frac(v, fs, fe);
        if splits {
            return AmountOutcome::Fails;
        }
        match fv {
            Some(fv) => {
                if int_value > (u64::MAX - fv) / 10000 {
                    return AmountOutcome::Fails;
                }
                AmountOutcome::Value(int_value * 10000 + fv)
            },
            None => AmountOutcome::Invalid,
        }
    } else {
        assert(frac_text(t) is None);
        if int_value > u64::MAX / 10000 {
            return AmountOutcome::Fails;
        }
        AmountOutcome::Value(int_value * 10000)
    }
}

/// Reads a decimal amount in ten-thousandths: units, and optionally a point
/// and up to four decimals (further decimals are cut), with white space
/// around it. The text must not make the reading fail hard.
pub fn parse_amount(s: &str) -> (r: Option<u64>)
    requires
        !amount_text_fails(s@),
    ensures
        r == amount_text_value(s@),
{
    let v = chars_of(s);
    match read_amount(&v) {
        AmountOutcome::Value(x) => Some(x),
        _ => None,
    }
}

/// Whether reading `s` as an amount fails hard (see `amount_text_fails`).
pub fn amount_fails(s: &str) -> (r: bool)
    ensures
        r == amount_text_fails(s@),
{
    let v = chars_of(s);
    match read_amount(&v) {
        AmountOutcome::Fails => true,
        _ => false,
    }
}

/// A digit's character is its code point, 48 plus the digit.
pub proof fn lemma_digit_char_value(d: int)
    requires
        0 <= d < 10,
    ensures
        digit_char(d) as nat == 48 + d,
        is_digit_char(digit_char(d)),
{
}

/// The decimal digits of a number are digits, and read back as the number.
pub proof fn lemma_decimal_reads_back(n: nat)
    ensures
        decimal(n).len() > 0,
        all_digit_chars(decimal(n)),
        chars_value(decimal(n)) == n,
    decreases n,
{
    lemma_digit_char_value((n % 10) as int);
    if n >= 10 {
        lemma_decimal_reads_back(n / 10);
        let d = decimal(n);
        assert(d.drop_last() =~= decimal(n / 10));
        assert(d.last() == digit_char((n % 10) as int));
        assert(chars_value(d) == chars_value(d.drop_last()) * 10 + (d.last() as nat - 48) as nat);
        assert((d.last() as nat - 48) as nat == n % 10);
        assert((n / 10) * 10 + n % 10 == n);
        assert(chars_value(d) == n);
        assert forall|i: int| 0 <= i < d.len() implies is_digit_char(#[trigger] d[i]) by {
            if i < d.len() - 1 {
                assert(d[i] == decimal(n / 10)[i]);
            }
        }
    } else {
        assert(decimal(n).drop_last() =~= Seq::<char>::empty());
        assert(decimal(n).last() == digit_char(n as int));
        assert(chars_value(Seq::<char>::empty()) == 0);
        assert(chars_value(decimal(n)) == n);
    }
}

/// Four decimal digit characters read back as the number they write.
pub proof fn lemma_four_digits_value(f: int)
    requires
        0 <= f < 10000,
    ensures
        ({
            let fr = seq![
                digit_char(f / 1000),
                digit_char((f / 100) % 10),
                digit_char((f / 10) % 10),
                digit_char(f % 10),
            ];
            all_digit_chars(fr) && chars_value(fr) == f
        }),
{
    let fr = seq![
        digit_char(f / 1000),
        digit_char((f / 100) % 10),
        digit_char((f / 10) % 10),
        digit_char(f % 10),
    ];
    lemma_digit_char_value(f / 1000);
    lemma_digit_char_value((f / 100) % 10);
    lemma_digit_char_value((f / 10) % 10);
    lemma_digit_char_value(f % 10);
    let s1 = fr.take(1);
    let s2 = fr.take(2);
    let s3 = fr.take(3);
    assert(s1.drop_last() =~= Seq::<char>::empty());
    assert(s2.drop_last() =~= s1);
    assert(s3.drop_last() =~= s2);
    assert(fr.drop_last() =~= s3);
    assert(chars_value(Seq::<char>::empty()) == 0);
    assert(chars_value(s1) == f / 1000);
    assert(chars_value(s2) == f / 100);
    assert(chars_value(s3) == f / 10);
    assert(chars_value(fr) == f);
}

/// Where `s` holds no `c`, the first `c` of `s + t` is that of `t`, shifted.
pub proof fn lemma_index_of_append(s: Seq<char>, t: Seq<char>, c: char)
    requires
        forall|i: int| 0 <= i < s.len() ==> s[i] != c,
    ensures
        index_of(s + t, c) == s.len() + index_of(t, c),
    decreases s.len(),
{
    if s.len() > 0 {
        assert((s + t).drop_first() =~= s.drop_first() + t);
        lemma_index_of_append(s.drop_first(), t, c);
    } else {
        assert(s + t =~= t);
    }
}

/// An amount written by `amount_text` reads back as the same amount: the
/// engine's report and the feed's amount column agree on every value.
pub proof fn lemma_amount_text_reads_back(v: u64)
    ensures
        !amount_text_fails(amount_text(v)),
        amount_text_value(amount_text(v)) == Some(v),
{
    let t = amount_text(v);
    let iv = (v / 10000) as nat;
    let f = (v % 10000) as int;
    let d = decimal(iv);
    let fr = seq![digit_char(f / 1000), digit_char((f / 100) % 10), digit_char((f / 10) % 10), digit_char(f % 10)];
    lemma_decimal_reads_back(iv);
    assert(t =~= d + seq!['.'] + fr);
    assert(!is_white_space(t[0])) by {
        assert(t[0] == d[0]);
        assert(is_digit_char(d[0]));
    }
    assert(leading_space(t) == 0);
    assert(t.skip(0) =~= t);
    assert(!is_white_space(t.last()));
    assert(trailing_space(t) == 0);
    assert(trim_text(t) =~= t);
    assert forall|i: int| 0 <= i < d.len() implies d[i] != '.' by {
        assert(is_digit_char(d[i]));
    }
    lemma_index_of_append(d, seq!['.'] + fr, '.');
    assert(index_of(t, '.') == d.len()) by {
        assert(d + (seq!['.'] + fr) =~= t);
        assert(index_of(seq!['.'] + fr, '.') == 0);
    }
    assert(int_text(t) =~= d);
    assert(d.len() == 0 || d[0] != '+') by {
        if d.len() > 0 {
            assert(is_digit_char(d[0]));
        }
    }
    assert(parse_u64_text(d) == Some(iv as u64));
    let rest = t.skip(d.len() + 1int);
    assert(rest =~= fr);
    assert(index_of(fr, '.') == 4) by {
        reveal_with_fuel(index_of, 5);
        assert(fr.drop_first().drop_first().drop_first().drop_first() =~= Seq::<char>::empty());
    }
    assert(rest.take(4) =~= fr);
    assert(frac_text(t) == Some(fr));
    assert(first_non_ascii(fr) == 4) by {
        reveal_with_fuel(first_non_ascii, 5);
        assert(fr.drop_first().drop_first().drop_first().drop_first() =~= Seq::<char>::empty());
    }
    assert(!frac_cut_splits(fr)) by {
        reveal_with_fuel(cut_splits_at, 5);
        assert(fr.drop_first().drop_first().drop_first().drop_first() =~= Seq::<char>::empty());
    }
    assert(fr.take(4) =~= fr);
    lemma_four_digits_value(f);
    assert(fr[0] != '+');
    assert(parse_u64_text(fr) == Some(f as u64));
    assert(frac_value(fr) == Some(f as u64));
}

} // verus!
