//! Byte-level reading of comma-separated lines: numeric fields and amounts.

use crate::parser::text::{
    all_digit_chars, amount_text_fails, amount_text_value, chars_value, cut_splits_at,
    first_non_ascii, frac_text, frac_value, index_of, int_text, is_digit_char, is_white_space,
    lemma_decimal_reads_back, leading_space, parse_u64_text, trailing_space, trim_text,
};
use crate::transactions::{amount_text, decimal, digit_char};
use crate::types::CsvItem;
use vstd::prelude::*;

verus! {

/// Whether a byte is padding around a field: space, tab or carriage return.
pub open spec fn is_pad(b: u8) -> bool {
    b == 32 || b == 9 || b == 13
}

pub open spec fn is_digit_byte(b: u8) -> bool {
    48 <= b && b <= 57
}

pub open spec fn all_digit_bytes(s: Seq<u8>) -> bool {
    forall|i: int| 0 <= i < s.len() ==> is_digit_byte(#[trigger] s[i])
}

/// The value of a string of decimal digit bytes.
pub open spec fn bytes_value(s: Seq<u8>) -> nat
    decreases s.len(),
{
    if s.len() == 0 {
        0
    } else {
        bytes_value(s.drop_last()) * 10 + (s.last() - 48) as nat
    }
}

pub open spec fn leading_pad(s: Seq<u8>) -> nat
    decreases s.len(),
{
    if s.len() > 0 && is_pad(s[0]) {
        1 + leading_pad(s.drop_first())
    } else {
        0
    }
}

pub open spec fn trailing_pad(s: Seq<u8>) -> nat
    decreases s.len(),
{
    if s.len() > 0 && is_pad(s.last()) {
        1 + trailing_pad(s.drop_last())
    } else {
        0
    }
}

/// A field without its padding.
pub open spec fn trim_pad(s: Seq<u8>) -> Seq<u8> {
    let t = s.skip(leading_pad(s) as int);
    t.take(t.len() - trailing_pad(t))
}

/// The number a field holds: after its padding is cut, at least one digit and
/// nothing else.
pub open spec fn field_number(s: Seq<u8>) -> Option<nat> {
    let t = trim_pad(s);
    if t.len() > 0 && all_digit_bytes(t) {
        Some(bytes_value(t))
    } else {
        None
    }
}

/// The index of the first `b` in `s`, or its length.
pub open spec fn byte_index(s: Seq<u8>, b: u8) -> nat
    decreases s.len(),
{
    if s.len() == 0 {
        0
    } else if s[0] == b {
        0
    } else {
        1 + byte_index(s.drop_first(), b)
    }
}

/// The first `b` of a sequence is within it.
pub proof fn lemma_byte_index_bound(s: Seq<u8>, b: u8)
    ensures
        byte_index(s, b) <= s.len(),
    decreases s.len(),
{
    if s.len() > 0 {
        lemma_byte_index_bound(s.drop_first(), b);
    }
}

/// The number of decimal digits that `s` starts with.
pub open spec fn leading_digits(s: Seq<u8>) -> nat
    decreases s.len(),
{
    if s.len() > 0 && is_digit_byte(s[0]) {
        1 + leading_digits(s.drop_first())
    } else {
        0
    }
}

pub open spec fn min4(n: nat) -> nat {
    if n < 4 {
        n
    } else {
        4
    }
}

/// The value of the fraction part of an amount: its leading digits, at most
/// four of them, padded with zeros to four digits.
pub open spec fn frac_bytes_value(f: Seq<u8>) -> nat {
    let g = f.take(min4(leading_digits(f)) as int);
    bytes_value(g + Seq::new((4 - g.len()) as nat, |i: int| 48u8))
}

/// The value in ten-thousandths of an amount field, as an unbounded number:
/// after its padding is cut, digits (possibly none), then optionally a point
/// and a fraction, read by `frac_bytes_value`.
pub open spec fn amount_bytes_number(s: Seq<u8>) -> Option<nat> {
    let t = trim_pad(s);
    let p = byte_index(t, 46);
    let int_part = t.take(p as int);
    if t.len() == 0 || !all_digit_bytes(int_part) || bytes_value(int_part) > u64::MAX {
        None
    } else if p < t.len() {
        Some(bytes_value(int_part) * 10000 + frac_bytes_value(t.skip(p + 1int)))
    } else {
        Some(bytes_value(int_part) * 10000)
    }
}

/// Whether reading an amount field fails hard: its value in ten-thousandths
/// leaves the range of `u64`.
pub open spec fn amount_bytes_fails(s: Seq<u8>) -> bool {
    amount_bytes_number(s) matches Some(n) && n > u64::MAX
}

/// The amount in ten-thousandths that a field holds, where it fits.
pub open spec fn amount_bytes_value(s: Seq<u8>) -> Option<u64> {
    match amount_bytes_number(s) {
        Some(n) => if n <= u64::MAX {
            Some(n as u64)
        } else {
            None
        },
        None => None,
    }
}

/// A longer string of digit bytes is worth at least as much as its prefixes.
pub proof fn lemma_bytes_value_prefix(d: Seq<u8>, k: int)
    requires
        0 <= k <= d.len(),
        all_digit_bytes(d),
    ensures
        bytes_value(d.take(k)) <= bytes_value(d),
    decreases d.len(),
{
    if k < d.len() {
        assert(all_digit_bytes(d.drop_last()));
        assert(d.drop_last().take(k) =~= d.take(k));
        lemma_bytes_value_prefix(d.drop_last(), k);
    } else {
        assert(d.take(k) =~= d);
    }
}

/// The bounds of `b[lo..hi]` without its padding.
fn trim_bounds(b: &[u8], lo: usize, hi: usize) -> (r: (usize, usize))
    requires
        lo <= hi <= b@.len(),
    ensures
        lo <= r.0 <= r.1 <= hi,
        b@.subrange(r.0 as int, r.1 as int) == trim_pad(b@.subrange(lo as int, hi as int)),
{
    let ghost s = b@.subrange(lo as int, hi as int);
    let mut i = lo;
    while i < hi && (b[i] == 32 || b[i] == 9 || b[i] == 13)
        invariant
            lo <= i <= hi <= b@.len(),
            leading_pad(b@.subrange(lo as int, hi as int)) == (i - lo) + leading_pad(
                b@.subrange(i as int, hi as int),
            ),
        decreases hi - i,
    {
        assert(b@.subrange(i as int, hi as int).drop_first() =~= b@.subrange(i + 1, hi as int));
        i = i + 1;
    }
    assert(s.skip(leading_pad(s) as int) =~= b@.subrange(i as int, hi as int));
    let mut j = hi;
    while j > i && (b[j - 1] == 32 || b[j - 1] == 9 || b[j - 1] == 13)
        invariant
            lo <= i <= j <= hi <= b@.len(),
            trailing_pad(b@.subrange(i as int, hi as int)) == (hi - j) + trailing_pad(
                b@.subrange(i as int, j as int),
            ),
        decreases j - i,
    {
        assert(b@.subrange(i as int, j as int).drop_last() =~= b@.subrange(i as int, j - 1));
        j = j - 1;
    }
    assert(b@.subrange(i as int, hi as int).take((hi - i) - (hi - j)) =~= b@.subrange(
        i as int,
        j as int,
    ));
    (i, j)
}

/// Reads the decimal digits `b[lo..hi]`, failing on any other byte and on a
/// value above `max`.
fn read_digits(b: &[u8], lo: usize, hi: usize, max: u64) -> (r: Option<u64>)
    requires
        lo <= hi <= b@.len(),
        9 <= max,
    ensures
        r == (if all_digit_bytes(b@.subrange(lo as int, hi as int)) && bytes_value(
            b@.subrange(lo as int, hi as int),
        ) <= max {
            Some(bytes_value(b@.subrange(lo as int, hi as int)) as u64)
        } else {
            None
        }),
{
    let ghost d = b@.subrange(lo as int, hi as int);
    let mut acc: u64 = 0;
    let mut i = lo;
    while i < hi
        invariant
            lo <= i <= hi <= b@.len(),
            d == b@.subrange(lo as int, hi as int),
            9 <= max,
            all_digit_bytes(b@.subrange(lo as int, i as int)),
            acc == bytes_value(b@.subrange(lo as int, i as int)),
            acc <= max,
        decreases hi - i,
    {
        let c = b[i];
        assert(b@.subrange(lo as int, i + 1).drop_last() =~= b@.subrange(lo as int, i as int));
        if !(48 <= c && c <= 57) {
            assert(d[i - lo] == c);
            assert(!is_digit_byte(d[i - lo]));
            return None;
        }
        let digit = (c - 48) as u64;
        if acc > (max - digit) / 10 {
            proof {
                assert(b@.subrange(lo as int, i + 1) =~= d.take(i + 1 - lo));
                if all_digit_bytes(d) {
                    lemma_bytes_value_prefix(d, i + 1 - lo);
                }
            }
            return None;
        }
        acc = acc * 10 + digit;
        i = i + 1;
    }
    Some(acc)
}

/// Reads a client id field: padding around, then decimal digits.
pub fn parse_u16(bytes: &[u8]) -> (r: Option<u16>)
    ensures
        r == (match field_number(bytes@) {
            Some(n) => if n <= u16::MAX {
                Some(n as u16)
            } else {
                None
            },
            None => None,
        }),
{
    let (a, b) = trim_bounds(bytes, 0, bytes.len());
    assert(bytes@.subrange(0, bytes@.len() as int) =~= bytes@);
    if a == b {
        return None;
    }
    match read_digits(bytes, a, b, 0xffff) {
        Some(v) => Some(v as u16),
        None => None,
    }
}

/// Reads a transaction id field: padding around, then decimal digits.
pub fn parse_u32(bytes: &[u8]) -> (r: Option<u32>)
    ensures
        r == (match field_number(bytes@) {
            Some(n) => if n <= u32::MAX {
                Some(n as u32)
            } else {
                None
            },
            None => None,
        }),
{
    let (a, b) = trim_bounds(bytes, 0, bytes.len());
    assert(bytes@.subrange(0, bytes@.len() as int) =~= bytes@);
    if a == b {
        return None;
    }
    match read_digits(bytes, a, b, 0xffff_ffff) {
        Some(v) => Some(v as u32),
        None => None,
    }
}

/// Whether `v` has at most `d` decimal digits, for `d` up to four.
pub open spec fn fits_digits(v: int, d: int) -> bool {
    if d <= 0 {
        v == 0
    } else if d == 1 {
        v < 10
    } else if d == 2 {
        v < 100
    } else if d == 3 {
        v < 1000
    } else {
        v < 10000
    }
}

/// The units and the ten-thousandths of an amount field, where its text is
/// an amount (see `amount_bytes_number`).
fn amount_parts(bytes: &[u8]) -> (r: Option<(u64, u64)>)
    ensures
        match r {
            Some((iv, fv)) => amount_bytes_number(bytes@) == Some((iv * 10000 + fv) as nat),
            None => amount_bytes_number(bytes@) is None,
        },
{
    let n = bytes.len();
    let (a, b) = trim_bounds(bytes, 0, n);
    assert(bytes@.subrange(0, n as int) =~= bytes@);
    let ghost t = trim_pad(bytes@);
    if a == b {
        return None;
    }
    let mut p = a;
    while p < b && bytes[p] != 46
        invariant
            a <= p <= b <= bytes@.len(),
            t == bytes@.subrange(a as int, b as int),
            byte_index(t, 46) == (p - a) + byte_index(bytes@.subrange(p as int, b as int), 46),
        decreases b - p,
    {
        assert(bytes@.subrange(p as int, b as int).drop_first() =~= bytes@.subrange(p + 1, b as int));
        p = p + 1;
    }
    assert(t.take(p - a) =~= bytes@.subrange(a as int, p as int));
    let iv = match read_digits(bytes, a, p, u64::MAX) {
        Some(v) => v,
        None => {
            return None;
        },
    };
    if p == b {
        return Some((iv, 0));
    }
    let fs = p + 1;
    let ghost f = bytes@.subrange(fs as int, b as int);
    assert(t.skip(p - a + 1) =~= f);
    let mut fv: u64 = 0;
    let mut digits: usize = 0;
    let mut i = fs;
    while i < b && 48 <= bytes[i] && bytes[i] <= 57
        invariant
            fs <= i <= b <= bytes@.len(),
            f == bytes@.subrange(fs as int, b as int),
            leading_digits(f) == (i - fs) + leading_digits(bytes@.subrange(i as int, b as int)),
            digits == min4((i - fs) as nat),
            fv == bytes_value(f.take(digits as int)),
            fits_digits(fv as int, digits as int),
        decreases b - i,
    {
        assert(bytes@.subrange(i as int, b as int).drop_first() =~= bytes@.subrange(i + 1, b as int));
        if digits < 4 {
            assert(f.take(digits + 1).drop_last() =~= f.take(digits as int));
            assert(f[digits as int] == bytes@[i as int]);
            fv = fv * 10 + (bytes[i] - 48) as u64;
            digits = digits + 1;
        }
        i = i + 1;
    }
    let ghost g = f.take(digits as int);
    assert(g == f.take(min4(leading_digits(f)) as int));
    let ghost k = digits;
    while digits < 4
        invariant
            k <= digits <= 4,
            fv == bytes_value(g + Seq::new((digits - k) as nat, |i: int| 48u8)),
            fits_digits(fv as int, digits as int),
            g.len() == k,
        decreases 4 - digits,
    {
        assert(g + Seq::new((digits + 1 - k) as nat, |i: int| 48u8) =~= (g + Seq::new(
            (digits - k) as nat,
            |i: int| 48u8,
        )).push(48u8));
        assert((g + Seq::new((digits + 1 - k) as nat, |i: int| 48u8)).drop_last() =~= g + Seq::new(
            (digits - k) as nat,
            |i: int| 48u8,
        ));
        fv = fv * 10;
        digits = digits + 1;
    }
    Some((iv, fv))
}

/// Reads an amount field in ten-thousandths: padding around, units, then
/// optionally a point and decimals (digits after the fourth, and anything
/// after the digits, are ignored). The amount must fit in a `u64`.
pub fn parse_amount_bytes(bytes: &[u8]) -> (r: Option<u64>)
    requires
        !amount_bytes_fails(bytes@),
    ensures
        r == amount_bytes_value(bytes@),
{
    match amount_parts(bytes) {
        Some((iv, fv)) => Some(iv * 10000 + fv),
        None => None,
    }
}

/// Whether an amount field's value in ten-thousandths leaves the range of
/// `u64` (see `amount_bytes_fails`).
pub fn amount_bytes_overflows(bytes: &[u8]) -> (r: bool)
    ensures
        r == amount_bytes_fails(bytes@),
{
    match amount_parts(bytes) {
        Some((iv, fv)) => iv > (u64::MAX - fv) / 10000,
        None => false,
    }
}

/// The `n`-th comma-separated field of a line (counting from zero), if the
/// line has that many.
pub open spec fn comma_field(s: Seq<u8>, n: nat) -> Option<Seq<u8>>
    decreases n,
{
    let p = byte_index(s, 44);
    if n == 0 {
        Some(s.take(p as int))
    } else if p < s.len() {
        comma_field(s.skip(p + 1int), (n - 1) as nat)
    } else {
        None
    }
}

/// The client id of a line: its second field, where it holds a `u16`.
pub open spec fn line_client(line: Seq<u8>) -> Option<u16> {
    match comma_field(line, 1) {
        Some(f) => match field_number(f) {
            Some(n) => if n <= u16::MAX {
                Some(n as u16)
            } else {
                None
            },
            None => None,
        },
        None => None,
    }
}

/// The transaction id of a line: its third field, where it holds a `u32`.
pub open spec fn line_trx(line: Seq<u8>) -> Option<u32> {
    match comma_field(line, 2) {
        Some(f) => match field_number(f) {
            Some(n) => if n <= u32::MAX {
                Some(n as u32)
            } else {
                None
            },
            None => None,
        },
        None => None,
    }
}

/// The item that a line stands for, given the kind its first letters named
/// (0 deposit, 1 withdrawal, 2 dispute, 3 resolve, 4 chargeback): the
/// client and transaction fields must hold ids, and deposits and withdrawals
/// need an amount in their fourth field.
pub open spec fn line_item(line: Seq<u8>, kind: usize) -> Option<CsvItem> {
    match (line_client(line), line_trx(line)) {
        (Some(c), Some(t)) => {
            if kind == 0 || kind == 1 {
                match comma_field(line, 3) {
                    Some(f) => match amount_bytes_value(f) {
                        Some(a) => if kind == 0 {
                            Some(CsvItem::Deposit(c, t, a))
                        } else {
                            Some(CsvItem::Withdrawal(c, t, a))
                        },
                        None => None,
                    },
                    None => None,
                }
            } else if kind == 2 {
                Some(CsvItem::Dispute(c, t))
            } else if kind == 3 {
                Some(CsvItem::Resolve(c, t))
            } else if kind == 4 {
                Some(CsvItem::ChargerBack(c, t))
            } else {
                None
            }
        },
        _ => None,
    }
}

/// A line reads as the item of its kind whenever its fields read: a client
/// field holding any number up to 65535, a transaction field holding any
/// number up to `u32::MAX`, and, for deposits and withdrawals, an amount field
/// that reads; the item carries exactly those numbers.
pub proof fn lemma_line_reads_when_fields_read(line: Seq<u8>, kind: usize, c: nat, t: nat)
    requires
        comma_field(line, 1) is Some,
        field_number(comma_field(line, 1)->0) == Some(c),
        c <= u16::MAX,
        comma_field(line, 2) is Some,
        field_number(comma_field(line, 2)->0) == Some(t),
        t <= u32::MAX,
    ensures
        kind == 2 ==> line_item(line, kind) == Some(CsvItem::Dispute(c as u16, t as u32)),
        kind == 3 ==> line_item(line, kind) == Some(CsvItem::Resolve(c as u16, t as u32)),
        kind == 4 ==> line_item(line, kind) == Some(CsvItem::ChargerBack(c as u16, t as u32)),
        kind == 0 && comma_field(line, 3) is Some && amount_bytes_value(comma_field(line, 3)->0) is Some
            ==> line_item(line, kind) == Some(
            CsvItem::Deposit(c as u16, t as u32, amount_bytes_value(comma_field(line, 3)->0)->0),
        ),
        kind == 1 && comma_field(line, 3) is Some && amount_bytes_value(comma_field(line, 3)->0) is Some
            ==> line_item(line, kind) == Some(
            CsvItem::Withdrawal(c as u16, t as u32, amount_bytes_value(comma_field(line, 3)->0)->0),
        ),
        kind > 4 ==> line_item(line, kind) is None,
{
}

/// A comma-free field, then a comma: it is the first field, and the fields
/// after it are those of the rest.
proof fn lemma_comma_field_cons(x: Seq<u8>, rest: Seq<u8>, n: nat)
    requires
        forall|i: int| 0 <= i < x.len() ==> x[i] != 44,
    ensures
        comma_field(x + seq![44u8] + rest, 0) == Some(x),
        comma_field(x + seq![44u8] + rest, n + 1) == comma_field(rest, n),
{
    let s = x + seq![44u8] + rest;
    lemma_byte_index_append(x, seq![44u8] + rest, 44);
    assert(x + (seq![44u8] + rest) =~= s);
    assert(byte_index(seq![44u8] + rest, 44) == 0);
    assert(s.take(x.len() as int) =~= x);
    assert(s.skip(x.len() + 1int) =~= rest);
}

/// A field holding the decimal text of a number reads as that number, and
/// holds no comma.
proof fn lemma_decimal_field(n: nat)
    ensures
        field_number(ascii_bytes(decimal(n))) == Some(n),
        forall|i: int| 0 <= i < ascii_bytes(decimal(n)).len() ==> ascii_bytes(decimal(n))[i] != 44,
{
    let d = decimal(n);
    let b = ascii_bytes(d);
    lemma_decimal_reads_back(n);
    lemma_ascii_digits(d);
    assert(is_digit_byte(b[0]));
    assert(leading_pad(b) == 0);
    assert(b.skip(0) =~= b);
    assert(is_digit_byte(b[b.len() - 1]));
    assert(trailing_pad(b) == 0);
    assert(b.take(b.len() as int) =~= b);
    assert forall|i: int| 0 <= i < b.len() implies b[i] != 44 by {
        assert(is_digit_byte(b[i]));
    }
}

/// The feed line `word,client,trx,amount` of a deposit or withdrawal, with the
/// amount written as the report writes amounts.
pub open spec fn amount_line(word: Seq<char>, client: u16, trx: u32, amount: u64) -> Seq<char> {
    word + seq![','] + decimal(client as nat) + seq![','] + decimal(trx as nat) + seq![','] + amount_text(amount)
}

/// Written feed lines read back, for every client, transaction and amount:
/// a claim line `word,client,trx,` read as a dispute, resolution or
/// chargeback is that claim on that client and transaction, and an amount
/// line read as a deposit or withdrawal is that deposit or withdrawal.
pub proof fn lemma_written_lines_read_back(w: Seq<char>, c: u16, t: u32, a: u64)
    requires
        forall|i: int| 0 <= i < w.len() ==> (w[i] as u8) != 44,
    ensures
        line_item(ascii_bytes(crate::feed::claim_line(w, c, t)), 2) == Some(CsvItem::Dispute(c, t)),
        line_item(ascii_bytes(crate::feed::claim_line(w, c, t)), 3) == Some(CsvItem::Resolve(c, t)),
        line_item(ascii_bytes(crate::feed::claim_line(w, c, t)), 4) == Some(CsvItem::ChargerBack(c, t)),
        line_item(ascii_bytes(amount_line(w, c, t, a)), 0) == Some(CsvItem::Deposit(c, t, a)),
        line_item(ascii_bytes(amount_line(w, c, t, a)), 1) == Some(CsvItem::Withdrawal(c, t, a)),
{
    let wb = ascii_bytes(w);
    let cb = ascii_bytes(decimal(c as nat));
    let tb = ascii_bytes(decimal(t as nat));
    let ab = ascii_bytes(amount_text(a));
    assert forall|i: int| 0 <= i < wb.len() implies wb[i] != 44 by {}
    lemma_decimal_field(c as nat);
    lemma_decimal_field(t as nat);
    lemma_amount_bytes_read_back(a);
    let claim = ascii_bytes(crate::feed::claim_line(w, c, t));
    let e = Seq::<u8>::empty();
    assert(claim =~= wb + seq![44u8] + (cb + seq![44u8] + (tb + seq![44u8] + e)));
    lemma_comma_field_cons(wb, cb + seq![44u8] + (tb + seq![44u8] + e), 0);
    lemma_comma_field_cons(wb, cb + seq![44u8] + (tb + seq![44u8] + e), 1);
    lemma_comma_field_cons(cb, tb + seq![44u8] + e, 0);
    lemma_comma_field_cons(tb, e, 0);
    assert(line_client(claim) == Some(c));
    assert(line_trx(claim) == Some(t));
    let line = ascii_bytes(amount_line(w, c, t, a));
    assert(line =~= wb + seq![44u8] + (cb + seq![44u8] + (tb + seq![44u8] + ab)));
    lemma_comma_field_cons(wb, cb + seq![44u8] + (tb + seq![44u8] + ab), 0);
    lemma_comma_field_cons(wb, cb + seq![44u8] + (tb + seq![44u8] + ab), 1);
    lemma_comma_field_cons(wb, cb + seq![44u8] + (tb + seq![44u8] + ab), 2);
    lemma_comma_field_cons(cb, tb + seq![44u8] + ab, 0);
    lemma_comma_field_cons(cb, tb + seq![44u8] + ab, 1);
    lemma_comma_field_cons(tb, ab, 0);
    assert(ab.take(byte_index(ab, 44) as int) == ab) by {
        crate::parser::text::lemma_amount_text_reads_back(a);
        lemma_amount_text_bytes_no_comma(a);
        lemma_byte_index_append(ab, e, 44);
        assert(ab + e =~= ab);
        assert(ab.take(ab.len() as int) =~= ab);
    }
    assert(comma_field(ab, 0) == Some(ab));
    assert(line_client(line) == Some(c));
    assert(line_trx(line) == Some(t));
}

/// The bytes of an amount's text hold no comma.
proof fn lemma_amount_text_bytes_no_comma(a: u64)
    ensures
        forall|i: int| 0 <= i < ascii_bytes(amount_text(a)).len() ==> ascii_bytes(amount_text(a))[i] != 44,
{
    let f = (a % 10000) as int;
    let d = decimal((a / 10000) as nat);
    lemma_decimal_reads_back((a / 10000) as nat);
    crate::parser::text::lemma_four_digits_value(f);
    let fr = seq![digit_char(f / 1000), digit_char((f / 100) % 10), digit_char((f / 10) % 10), digit_char(f % 10)];
    let t = amount_text(a);
    assert(t =~= d + seq!['.'] + fr);
    let b = ascii_bytes(t);
    assert forall|i: int| 0 <= i < b.len() implies b[i] != 44 by {
        if i < d.len() {
            assert(is_digit_char(d[i]));
        } else if i > d.len() {
            assert(is_digit_char(fr[i - d.len() - 1]));
        }
    }
}

/// Whether reading a line fails hard: a deposit or withdrawal line with ids
/// whose amount field overflows (see `amount_bytes_fails`).
pub open spec fn line_fails(line: Seq<u8>, kind: usize) -> bool {
    &&& kind == 0 || kind == 1
    &&& line_client(line) is Some
    &&& line_trx(line) is Some
    &&& comma_field(line, 3) matches Some(f) && amount_bytes_fails(f)
}

/// The end of the field of `b` that starts at `lo`: the next comma, or the
/// end of `b`.
fn field_end(b: &[u8], lo: usize) -> (e: usize)
    requires
        lo <= b@.len(),
    ensures
        e == lo + byte_index(b@.subrange(lo as int, b@.len() as int), 44),
        e <= b@.len(),
{
    let n = b.len();
    let mut i = lo;
    while i < n && b[i] != 44
        invariant
            lo <= i <= n == b@.len(),
            byte_index(b@.subrange(lo as int, n as int), 44) == (i - lo) + byte_index(
                b@.subrange(i as int, n as int),
                44,
            ),
        decreases n - i,
    {
        assert(b@.subrange(i as int, n as int).drop_first() =~= b@.subrange(i + 1, n as int));
        i = i + 1;
    }
    i
}

/// The bounds of the `k`-th field, for `k` up to three, if the line has it.
fn field_bounds(b: &[u8], k: usize) -> (r: Option<(usize, usize)>)
    requires
        k <= 3,
    ensures
        match r {
            Some((lo, hi)) => lo <= hi <= b@.len() && comma_field(b@, k as nat) == Some(
                b@.subrange(lo as int, hi as int),
            ),
            None => comma_field(b@, k as nat) is None,
        },
{
    let n = b.len();
    let mut lo: usize = 0;
    let mut i: usize = 0;
    assert(b@.subrange(0, n as int) =~= b@);
    while i < k
        invariant
            i <= k <= 3,
            lo <= n == b@.len(),
            comma_field(b@, k as nat) == comma_field(b@.subrange(lo as int, n as int), (k - i) as nat),
        decreases k - i,
    {
        let e = field_end(b, lo);
        if e == n {
            return None;
        }
        assert(b@.subrange(lo as int, n as int).skip(e - lo + 1) =~= b@.subrange(e + 1, n as int));
        lo = e + 1;
        i = i + 1;
    }
    let e = field_end(b, lo);
    assert(b@.subrange(lo as int, n as int).take(e - lo) =~= b@.subrange(lo as int, e as int));
    Some((lo, e))
}

/// The item that a line stands for, given the kind its first letters named
/// (see `line_item`). The line must not fail hard.
pub fn parse_line_bytes(bytes: &[u8], pattern_id: usize) -> (r: Option<CsvItem>)
    requires
        !line_fails(bytes@, pattern_id),
    ensures
        r == line_item(bytes@, pattern_id),
{
    let (c_lo, c_hi) = match field_bounds(bytes, 1) {
        Some(x) => x,
        None => {
            return None;
        },
    };
    let client_id = match parse_u16(&bytes[c_lo..c_hi]) {
        Some(c) => c,
        None => {
            return None;
        },
    };
    let (t_lo, t_hi) = match field_bounds(bytes, 2) {
        Some(x) => x,
        None => {
            return None;
        },
    };
    let trx_id = match parse_u32(&bytes[t_lo..t_hi]) {
        Some(t) => t,
        None => {
            return None;
        },
    };
    if pattern_id == 0 || pattern_id == 1 {
        let (a_lo, a_hi) = match field_bounds(bytes, 3) {
            Some(x) => x,
            None => {
                return None;
            },
        };
        let amount = match parse_amount_bytes(&bytes[a_lo..a_hi]) {
            Some(a) => a,
            None => {
                return None;
            },
        };
        if pattern_id == 0 {
            Some(CsvItem::Deposit(client_id, trx_id, amount))
        } else {
            Some(CsvItem::Withdrawal(client_id, trx_id, amount))
        }
    } else if pattern_id == 2 {
        Some(CsvItem::Dispute(client_id, trx_id))
    } else if pattern_id == 3 {
        Some(CsvItem::Resolve(client_id, trx_id))
    } else if pattern_id == 4 {
        Some(CsvItem::ChargerBack(client_id, trx_id))
    } else {
        None
    }
}

/// Whether reading a line fails hard (see `line_fails`).
pub fn line_overflows(bytes: &[u8], pattern_id: usize) -> (r: bool)
    ensures
        r == line_fails(bytes@, pattern_id),
{
    if pattern_id != 0 && pattern_id != 1 {
        return false;
    }
    let (c_lo, c_hi) = match field_bounds(bytes, 1) {
        Some(x) => x,
        None => {
            return false;
        },
    };
    if parse_u16(&bytes[c_lo..c_hi]).is_none() {
        return false;
    }
    let (t_lo, t_hi) = match field_bounds(bytes, 2) {
        Some(x) => x,
        None => {
            return false;
        },
    };
    if parse_u32(&bytes[t_lo..t_hi]).is_none() {
        return false;
    }
    match field_bounds(bytes, 3) {
        Some((a_lo, a_hi)) => amount_bytes_overflows(&bytes[a_lo..a_hi]),
        None => false,
    }
}

/// The bytes of an ASCII text.
pub open spec fn ascii_bytes(s: Seq<char>) -> Seq<u8> {
    s.map_values(|c: char| c as u8)
}

/// The bytes of decimal digit characters are digit bytes of the same value.
pub proof fn lemma_ascii_digits(s: Seq<char>)
    requires
        all_digit_chars(s),
    ensures
        all_digit_bytes(ascii_bytes(s)),
        bytes_value(ascii_bytes(s)) == chars_value(s),
    decreases s.len(),
{
    let b = ascii_bytes(s);
    assert forall|i: int| 0 <= i < b.len() implies is_digit_byte(#[trigger] b[i]) by {
        assert(is_digit_char(s[i]));
    }
    if s.len() > 0 {
        assert(all_digit_chars(s.drop_last()));
        assert(ascii_bytes(s.drop_last()) =~= b.drop_last());
        lemma_ascii_digits(s.drop_last());
        assert(is_digit_char(s.last()));
    }
}

/// An amount written by `amount_text` reads back as the same amount from its
/// bytes too: the line reader agrees with the engine's report on every value.
pub proof fn lemma_amount_bytes_read_back(v: u64)
    ensures
        !amount_bytes_fails(ascii_bytes(amount_text(v))),
        amount_bytes_value(ascii_bytes(amount_text(v))) == Some(v),
{
    let iv = (v / 10000) as nat;
    let f = (v % 10000) as int;
    let d = decimal(iv);
    let fr = seq![digit_char(f / 1000), digit_char((f / 100) % 10), digit_char((f / 10) % 10), digit_char(f % 10)];
    lemma_decimal_reads_back(iv);
    crate::parser::text::lemma_four_digits_value(f);
    let db = ascii_bytes(d);
    let fb = ascii_bytes(fr);
    lemma_ascii_digits(d);
    lemma_ascii_digits(fr);
    let t = ascii_bytes(amount_text(v));
    assert(t =~= db + seq![46u8] + fb);
    assert(is_digit_byte(t[0]));
    assert(leading_pad(t) == 0);
    assert(t.skip(0) =~= t);
    assert(is_digit_byte(t.last()));
    assert(trailing_pad(t) == 0);
    assert(trim_pad(t) =~= t);
    lemma_byte_index_append(db, seq![46u8] + fb, 46);
    assert(db + (seq![46u8] + fb) =~= t);
    assert(byte_index(seq![46u8] + fb, 46) == 0);
    assert(byte_index(t, 46) == db.len());
    assert(t.take(db.len() as int) =~= db);
    assert(t.skip(db.len() + 1int) =~= fb);
    assert(leading_digits(fb) == 4) by {
        reveal_with_fuel(leading_digits, 5);
        assert(fb.drop_first().drop_first().drop_first().drop_first() =~= Seq::<u8>::empty());
    }
    assert(fb.take(4) =~= fb);
    assert(fb + Seq::new(0, |i: int| 48u8) =~= fb);
}

/// Whether `s` is a plain amount text: at least one decimal digit, then
/// optionally a point followed by decimal digits (possibly none).
pub open spec fn is_plain_amount(s: Seq<char>) -> bool {
    let p = index_of(s, '.');
    &&& 0 < p
    &&& all_digit_chars(s.take(p as int))
    &&& p < s.len() ==> all_digit_chars(s.skip(p + 1int))
}

/// `10` to the power `n`.
pub open spec fn pow10(n: nat) -> nat
    decreases n,
{
    if n == 0 {
        1
    } else {
        10 * pow10((n - 1) as nat)
    }
}

/// The first `c` of `s`, where there is one, is a `c`, and none comes before.
proof fn lemma_index_of_found(s: Seq<char>, c: char)
    ensures
        index_of(s, c) <= s.len(),
        index_of(s, c) < s.len() ==> s[index_of(s, c) as int] == c,
        forall|i: int| 0 <= i < index_of(s, c) ==> s[i] != c,
    decreases s.len(),
{
    if s.len() > 0 && s[0] != c {
        lemma_index_of_found(s.drop_first(), c);
        assert forall|i: int| 0 <= i < index_of(s, c) implies s[i] != c by {
            if i > 0 {
                assert(s[i] == s.drop_first()[i - 1]);
            }
        }
    }
}

/// A digit string is worth less than ten to the power of its length.
proof fn lemma_chars_value_bound(s: Seq<char>)
    requires
        all_digit_chars(s),
    ensures
        chars_value(s) < pow10(s.len()),
    decreases s.len(),
{
    if s.len() > 0 {
        assert(all_digit_chars(s.drop_last()));
        lemma_chars_value_bound(s.drop_last());
        assert(is_digit_char(s[s.len() - 1]));
    }
}

/// Digits are ASCII, and one byte each: a digit string has no non-ASCII
/// character, and no cut at byte four splits one of its characters.
proof fn lemma_digits_ascii(f: Seq<char>, start: nat)
    requires
        all_digit_chars(f),
        start <= 4,
    ensures
        first_non_ascii(f) == f.len(),
        index_of(f, '.') == f.len(),
        !cut_splits_at(f, start),
    decreases f.len(),
{
    if f.len() > 0 {
        assert(is_digit_char(f[0]));
        assert(all_digit_chars(f.drop_first()));
        if start < 4 {
            lemma_digits_ascii(f.drop_first(), start + 1);
        } else {
            lemma_digits_ascii(f.drop_first(), start);
        }
    }
}

/// Digit bytes all lead: a digit string's leading digits are all of it.
proof fn lemma_leading_digits_all(b: Seq<u8>)
    requires
        all_digit_bytes(b),
    ensures
        leading_digits(b) == b.len(),
    decreases b.len(),
{
    if b.len() > 0 {
        assert(is_digit_byte(b[0]));
        assert(all_digit_bytes(b.drop_first()));
        lemma_leading_digits_all(b.drop_first());
    }
}

/// The fraction of a plain amount reads the same from characters and from
/// bytes.
proof fn lemma_fraction_readers_agree(f: Seq<char>)
    requires
        all_digit_chars(f),
    ensures
        frac_value(f) == Some(frac_bytes_value(ascii_bytes(f)) as u64),
        frac_bytes_value(ascii_bytes(f)) < 10000,
{
    let fb = ascii_bytes(f);
    lemma_digits_ascii(f, 0);
    lemma_ascii_digits(f);
    lemma_leading_digits_all(fb);
    assert(pow10(4) == 10000) by {
        reveal_with_fuel(pow10, 5);
    }
    if f.len() >= 4 {
        let g = f.take(4);
        assert(all_digit_chars(g));
        assert(ascii_bytes(g) =~= fb.take(4) + Seq::new(0, |i: int| 48u8));
        lemma_ascii_digits(g);
        lemma_chars_value_bound(g);
        assert(g.len() == 0 || g[0] != '+') by {
            assert(is_digit_char(g[0]));
        }
    } else {
        let g = f + Seq::new((4 - f.len()) as nat, |i: int| '0');
        assert(all_digit_chars(g)) by {
            assert forall|i: int| 0 <= i < g.len() implies is_digit_char(#[trigger] g[i]) by {
                if i < f.len() {
                    assert(g[i] == f[i]);
                }
            }
        }
        assert(ascii_bytes(g) =~= fb.take(f.len() as int) + Seq::new(
            (4 - f.len()) as nat,
            |i: int| 48u8,
        ));
        lemma_ascii_digits(g);
        lemma_chars_value_bound(g);
        assert(g[0] != '+') by {
            assert(is_digit_char(g[0]));
        }
    }
}

/// The two amount readers agree on plain amounts (digits, then optionally a
/// point and digits): reading the characters fails hard exactly where reading
/// their bytes does, and otherwise both give the same amount.
pub proof fn lemma_amount_readers_agree(s: Seq<char>)
    requires
        is_plain_amount(s),
    ensures
        amount_text_fails(s) == amount_bytes_fails(ascii_bytes(s)),
        !amount_text_fails(s) ==> amount_text_value(s) == amount_bytes_value(ascii_bytes(s)),
{
    let p = index_of(s, '.');
    lemma_index_of_found(s, '.');
    let d = s.take(p as int);
    let db = ascii_bytes(d);
    lemma_ascii_digits(d);
    let b = ascii_bytes(s);
    assert(is_digit_char(s[0])) by {
        assert(s[0] == d[0]);
    }
    assert(!is_white_space(s[0]));
    assert(leading_space(s) == 0);
    assert(s.skip(0) =~= s);
    assert(!is_pad(b[0]));
    assert(leading_pad(b) == 0);
    assert(b.skip(0) =~= b);
    assert(s.last() == '.' || is_digit_char(s.last())) by {
        if p < s.len() {
            if p == s.len() - 1 {
                assert(s.last() == s[p as int]);
            } else {
                assert(s.last() == s.skip(p + 1int)[s.len() - p - 2]);
            }
        } else {
            assert(s.last() == d[p - 1]);
        }
    }
    assert(!is_white_space(s.last()));
    assert(trailing_space(s) == 0);
    assert(trim_text(s) =~= s);
    assert(b.last() == s.last() as u8);
    assert(!is_pad(b.last()));
    assert(trailing_pad(b) == 0);
    assert(trim_pad(b) =~= b);
    assert(int_text(s) =~= d);
    assert(d[0] != '+') by {
        assert(is_digit_char(d[0]));
    }
    assert(parse_u64_text(d) == (if chars_value(d) <= u64::MAX {
        Some(chars_value(d) as u64)
    } else {
        None
    }));
    assert forall|i: int| 0 <= i < db.len() implies db[i] != 46u8 by {
        assert(is_digit_byte(db[i]));
    }
    if p < s.len() {
        let f = s.skip(p + 1int);
        let fb = ascii_bytes(f);
        assert(s =~= d + (seq!['.'] + f));
        assert(b =~= db + (seq![46u8] + fb));
        lemma_byte_index_append(db, seq![46u8] + fb, 46);
        assert(byte_index(seq![46u8] + fb, 46) == 0);
        assert(byte_index(b, 46) == db.len());
        assert(b.take(db.len() as int) =~= db);
        assert(b.skip(db.len() + 1int) =~= fb);
        lemma_digits_ascii(f, 0);
        assert(f.take(f.len() as int) =~= f);
        assert(frac_text(s) == Some(f));
        lemma_fraction_readers_agree(f);
    } else {
        assert forall|i: int| 0 <= i < b.len() implies b[i] != 46u8 by {
            assert(b[i] == db[i]);
        }
        lemma_byte_index_append(b, Seq::<u8>::empty(), 46);
        assert(b + Seq::<u8>::empty() =~= b);
        assert(b.take(b.len() as int) =~= db);
        assert(frac_text(s) is None);
    }
}

/// Appending `n` zero digits to a digit string multiplies its value by ten
/// to the power `n`.
proof fn lemma_chars_value_zeros(f: Seq<char>, n: nat)
    ensures
        chars_value(f + Seq::new(n, |i: int| '0')) == chars_value(f) * pow10(n),
    decreases n,
{
    let g = f + Seq::new(n, |i: int| '0');
    if n == 0 {
        assert(g =~= f);
        assert(pow10(0) == 1);
    } else {
        let h = f + Seq::new((n - 1) as nat, |i: int| '0');
        lemma_chars_value_zeros(f, (n - 1) as nat);
        assert(g.drop_last() =~= h);
        assert(g.last() == '0');
        assert(chars_value(g) == chars_value(g.drop_last()) * 10 + (g.last() as nat - 48) as nat);
        assert(chars_value(g) == chars_value(h) * 10);
        assert(pow10(n) == 10 * pow10((n - 1) as nat));
        assert(chars_value(f) * pow10((n - 1) as nat) * 10 == chars_value(f) * pow10(n)) by (nonlinear_arith)
            requires
                pow10(n) == 10 * pow10((n - 1) as nat),
        ;
    }
}

/// The fraction of an amount, when it is all digits, is worth its first four
/// digits (all of them, where it has fewer) in ten-thousandths.
proof fn lemma_frac_value_digits(f: Seq<char>)
    requires
        all_digit_chars(f),
    ensures
        frac_value(f) == Some(
            (chars_value(f.take(min4(f.len()) as int)) * pow10((4 - min4(f.len())) as nat)) as u64,
        ),
        chars_value(f.take(min4(f.len()) as int)) * pow10((4 - min4(f.len())) as nat) < 10000,
{
    lemma_digits_ascii(f, 0);
    assert(pow10(4) == 10000) by {
        reveal_with_fuel(pow10, 5);
    }
    let k = min4(f.len());
    let g = f.take(k as int);
    assert(all_digit_chars(g));
    lemma_chars_value_bound(g);
    if f.len() >= 4 {
        assert(k == 4);
        assert(pow10(0) == 1);
        assert(chars_value(g) * pow10(0) == chars_value(g));
        assert(g[0] != '+') by {
            assert(is_digit_char(g[0]));
        }
        assert(parse_u64_text(g) == Some(chars_value(g) as u64));
        assert(frac_value(f) == parse_u64_text(f.take(4)));
    } else {
        assert(g =~= f);
        let n = (4 - f.len()) as nat;
        let p = f + Seq::new(n, |i: int| '0');
        lemma_chars_value_zeros(f, n);
        assert(all_digit_chars(p)) by {
            assert forall|i: int| 0 <= i < p.len() implies is_digit_char(#[trigger] p[i]) by {
                if i < f.len() {
                    assert(p[i] == f[i]);
                }
            }
        }
        lemma_chars_value_bound(p);
        assert(p.len() == 4);
        assert(p[0] != '+') by {
            assert(is_digit_char(p[0]));
        }
        assert(parse_u64_text(p) == Some(chars_value(p) as u64));
        assert(frac_value(f) == parse_u64_text(p));
        assert(chars_value(g) == chars_value(f));
    }
}

/// A plain amount (digits, a point, digits) reads, by both readers, as its
/// units times ten thousand plus its first four decimals in ten-thousandths:
/// with `d <= 4` decimals, their value times ten to the power `4 - d`
/// (`1.125` is `11250`), and further decimals are cut. It fails hard exactly
/// where that value leaves `u64` while the units fit.
pub proof fn lemma_plain_amount_value(d: Seq<char>, f: Seq<char>)
    requires
        d.len() > 0,
        all_digit_chars(d),
        all_digit_chars(f),
    ensures
        ({
            let s = d + seq!['.'] + f;
            let k = min4(f.len());
            let v = chars_value(d) * 10000 + chars_value(f.take(k as int)) * pow10((4 - k) as nat);
            &&& v <= u64::MAX ==> !amount_text_fails(s) && amount_text_value(s) == Some(v as u64)
            &&& v <= u64::MAX ==> !amount_bytes_fails(ascii_bytes(s)) && amount_bytes_value(
                ascii_bytes(s),
            ) == Some(v as u64)
            &&& chars_value(d) <= u64::MAX && v > u64::MAX ==> amount_text_fails(s)
                && amount_bytes_fails(ascii_bytes(s))
        }),
{
    let s = d + seq!['.'] + f;
    assert forall|i: int| 0 <= i < d.len() implies d[i] != '.' by {
        assert(is_digit_char(d[i]));
    }
    crate::parser::text::lemma_index_of_append(d, seq!['.'] + f, '.');
    assert(d + (seq!['.'] + f) =~= s);
    assert(index_of(seq!['.'] + f, '.') == 0);
    assert(s.take(d.len() as int) =~= d);
    assert(s.skip(d.len() + 1int) =~= f);
    assert(is_plain_amount(s));
    lemma_amount_readers_agree(s);
    lemma_plain_amount_text_parts(s);
    lemma_frac_value_digits(f);
    lemma_digits_ascii(f, 0);
    assert(d[0] != '+') by {
        assert(is_digit_char(d[0]));
    }
    assert(trim_text(s) == s);
    assert(int_text(s) == d);
    assert(frac_text(s) == Some(f));
    assert(!crate::parser::text::frac_cut_splits(f));
    assert(parse_u64_text(d) == (if chars_value(d) <= u64::MAX {
        Some(chars_value(d) as u64)
    } else {
        None
    }));
}

/// A plain amount has no white space around it; its units are the digits
/// before its point, and its fraction the digits after.
proof fn lemma_plain_amount_text_parts(s: Seq<char>)
    requires
        is_plain_amount(s),
    ensures
        trim_text(s) == s,
        int_text(s) == s.take(index_of(s, '.') as int),
        index_of(s, '.') < s.len() ==> frac_text(s) == Some(s.skip(index_of(s, '.') + 1int)),
        index_of(s, '.') == s.len() ==> frac_text(s) is None,
{
    let p = index_of(s, '.');
    lemma_index_of_found(s, '.');
    let d = s.take(p as int);
    assert(is_digit_char(s[0])) by {
        assert(s[0] == d[0]);
    }
    assert(leading_space(s) == 0);
    assert(s.skip(0) =~= s);
    assert(s.last() == '.' || is_digit_char(s.last())) by {
        if p < s.len() {
            if p == s.len() - 1 {
                assert(s.last() == s[p as int]);
            } else {
                assert(s.last() == s.skip(p + 1int)[s.len() - p - 2]);
            }
        } else {
            assert(s.last() == d[p - 1]);
        }
    }
    assert(trailing_space(s) == 0);
    assert(trim_text(s) =~= s);
    if p < s.len() {
        let f = s.skip(p + 1int);
        lemma_digits_ascii(f, 0);
        assert(f.take(f.len() as int) =~= f);
    }
}

/// Where `s` holds no `b`, the first `b` of `s + t` is that of `t`, shifted.
pub proof fn lemma_byte_index_append(s: Seq<u8>, t: Seq<u8>, b: u8)
    requires
        forall|i: int| 0 <= i < s.len() ==> s[i] != b,
    ensures
        byte_index(s + t, b) == s.len() + byte_index(t, b),
    decreases s.len(),
{
    if s.len() > 0 {
        assert((s + t).drop_first() =~= s.drop_first() + t);
        lemma_byte_index_append(s.drop_first(), t, b);
    } else {
        assert(s + t =~= t);
    }
}

} // verus!
