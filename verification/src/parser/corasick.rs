//! Reading the feed by line prefixes: an Aho-Corasick automaton finds the
//! two-letter type prefixes (`de`, `wi`, `di`, `re`, `ch`) that start lines,
//! and each such line is read field by field.

use crate::parser::fields::{byte_index, line_fails, line_item, line_overflows, parse_line_bytes};
use crate::types::CsvItem;
use aho_corasick::AhoCorasick;
use vstd::prelude::*;

verus! {

#[verifier::external_type_specification]
#[verifier::external_body]
pub struct ExAhoCorasick(AhoCorasick);

/// The size of the read buffer: a line longer than this ends the reading.
pub const BUF_SIZE: usize = 32768;

/// The patterns that an automaton holds, by pattern index.
pub uninterp spec fn aho_patterns(ac: AhoCorasick) -> Seq<Seq<char>>;

/// Whether `AhoCorasick::new` builds an automaton from these patterns.
pub uninterp spec fn aho_builds(patterns: Seq<Seq<char>>) -> bool;

/// Whether an automaton was built with the default configuration of
/// `AhoCorasick::new`: standard match semantics, case-sensitive.
pub uninterp spec fn aho_standard(ac: AhoCorasick) -> bool;

/// What `AhoCorasick::find_iter` reports, in order, on a haystack for an
/// automaton of these patterns built with the default configuration (standard
/// match semantics): the start and the pattern index of each match.
pub uninterp spec fn aho_matches(patterns: Seq<Seq<char>>, haystack: Seq<u8>) -> Seq<(usize, usize)>;

/// The texts of a list of patterns.
pub open spec fn pattern_texts(patterns: Seq<&str>) -> Seq<Seq<char>> {
    patterns.map_values(|p: &str| p@)
}

/// The UTF-8 bytes of each pattern, which is what an automaton searches for.
pub open spec fn pattern_bytes(patterns: Seq<Seq<char>>) -> Seq<Seq<u8>> {
    patterns.map_values(|p: Seq<char>| vstd::utf8::encode_utf8(p))
}

/// Whether `h` holds `pat` from position `s` on.
pub open spec fn occurs_at(h: Seq<u8>, pat: Seq<u8>, s: int) -> bool {
    0 <= s && s + pat.len() <= h.len() && h.subrange(s, s + pat.len()) == pat
}

/// Whether each listed match `(start, index)` names one of the patterns and
/// the haystack holds that pattern at its start.
pub open spec fn matches_occur(h: Seq<u8>, pats: Seq<Seq<u8>>, ms: Seq<(usize, usize)>) -> bool {
    forall|i: int|
        0 <= i < ms.len() ==> (#[trigger] ms[i]).1 < pats.len() && occurs_at(
            h,
            pats[ms[i].1 as int],
            ms[i].0 as int,
        )
}

/// Whether the listed matches come in order and do not overlap: each one
/// starts at or after the end of every earlier one.
pub open spec fn matches_in_order(pats: Seq<Seq<u8>>, ms: Seq<(usize, usize)>) -> bool {
    forall|i: int, j: int|
        #![trigger ms[i], ms[j]]
        0 <= i < j < ms.len() ==> ms[i].0 + pats[ms[i].1 as int].len() <= ms[j].0
}

/// Calls `AhoCorasick::new` on the patterns; its error becomes `None`.
/// Stated: whether it builds is a function of the patterns (named, not
/// described), and the automaton it builds holds those patterns, with the
/// default configuration.
#[verifier::external_body]
fn build_automaton(patterns: &[&str]) -> (r: Option<AhoCorasick>)
    ensures
        r is Some <==> aho_builds(pattern_texts(patterns@)),
        r matches Some(ac) ==> aho_patterns(ac) == pattern_texts(patterns@) && aho_standard(ac),
{
    AhoCorasick::new(patterns).ok()
}

/// Calls `AhoCorasick::find_iter` on a byte haystack and lists, for each match,
/// its start and the index of its pattern. Stated, for an automaton with the
/// default configuration: the list is a function of the automaton's patterns
/// and the haystack (named, not described); each match is an occurrence of
/// its pattern's bytes in the haystack (matching is case-sensitive); and,
/// where no pattern is empty, the matches come in order without overlapping,
/// as the iterator of non-overlapping matches gives them.
#[verifier::external_body]
fn find_matches(ac: &AhoCorasick, haystack: &[u8]) -> (r: Vec<(usize, usize)>)
    requires
        aho_standard(*ac),
    ensures
        r@ == aho_matches(aho_patterns(*ac), haystack@),
        matches_occur(haystack@, pattern_bytes(aho_patterns(*ac)), r@),
        (forall|p: int|
            0 <= p < aho_patterns(*ac).len() ==> #[trigger] aho_patterns(*ac)[p].len() > 0)
            ==> matches_in_order(pattern_bytes(aho_patterns(*ac)), r@),
{
    ac.find_iter(haystack).map(|m| (m.start(), m.pattern().as_usize())).collect()
}

/// Why the prefix reader stops without a result.
#[derive(Debug, PartialEq, Eq, Structural)]
pub enum CorasickError {
    /// The automaton could not be built.
    Build,
    /// A deposit or withdrawal line's amount overflows (see `line_fails`).
    AmountOverflow,
}

/// Whether `s` starts a line of `input`: it is the start, or follows a line
/// feed.
pub open spec fn line_start(input: Seq<u8>, s: int) -> bool {
    0 <= s <= input.len() && (s == 0 || input[s - 1] == 10)
}

/// The line of `input` that starts at `s`, without its line feed.
pub open spec fn line_at(input: Seq<u8>, s: int) -> Seq<u8> {
    input.subrange(s, s + byte_index(input.skip(s), 10))
}

/// Whether `line` starts with `prefix`.
pub open spec fn starts_with(line: Seq<u8>, prefix: Seq<u8>) -> bool {
    prefix.len() <= line.len() && line.take(prefix.len() as int) == prefix
}

/// Whether an item is what some line of `input` stands for: a line that
/// starts with the prefix of one of the kinds, read as that kind.
pub open spec fn read_from_line(input: Seq<u8>, prefixes: Seq<Seq<u8>>, item: CsvItem) -> bool {
    exists|s: int, k: usize|
        line_start(input, s) && k < prefixes.len() && starts_with(line_at(input, s), prefixes[k as int])
            && #[trigger] line_item(line_at(input, s), k) == Some(item)
}

/// Whether no prefix holds a line feed.
pub open spec fn no_line_feed(prefixes: Seq<Seq<u8>>) -> bool {
    forall|k: int, i: int| 0 <= k < prefixes.len() && 0 <= i < prefixes[k].len() ==> #[trigger] prefixes[k][i] != 10
}

/// Where the first `n` bytes of `s` are not `b`, its first `b` comes no
/// sooner than `n`.
proof fn lemma_byte_index_past(s: Seq<u8>, b: u8, n: int)
    requires
        0 <= n <= s.len(),
        forall|i: int| 0 <= i < n ==> s[i] != b,
    ensures
        n <= byte_index(s, b),
    decreases n,
{
    if n > 0 {
        assert forall|i: int| 0 <= i < n - 1 implies s.drop_first()[i] != b by {
            assert(s.drop_first()[i] == s[i + 1]);
        }
        assert(s[0] != b);
        lemma_byte_index_past(s.drop_first(), b, n - 1);
    }
}

/// Whether some line of `input` fails hard when read as one of the kinds.
pub open spec fn some_line_fails(input: Seq<u8>) -> bool {
    exists|s: int, k: usize| line_start(input, s) && #[trigger] line_fails(line_at(input, s), k)
}

/// The first line feed of a sequence is the first of any sequence that it
/// starts.
pub proof fn lemma_byte_index_prefix(a: Seq<u8>, c: Seq<u8>, b: u8)
    requires
        a.len() <= c.len(),
        a == c.take(a.len() as int),
        byte_index(a, b) < a.len(),
    ensures
        byte_index(c, b) == byte_index(a, b),
    decreases a.len(),
{
    if a.len() > 0 && a[0] != b {
        assert(a.drop_first() =~= c.drop_first().take(a.len() - 1));
        lemma_byte_index_prefix(a.drop_first(), c.drop_first(), b);
    }
}

/// The position just after the last line feed of `b`, if any.
pub open spec fn after_last_line_feed(b: Seq<u8>) -> Option<usize>
    decreases b.len(),
{
    if b.len() == 0 {
        None
    } else if b.last() == 10 {
        Some(b.len() as usize)
    } else {
        after_last_line_feed(b.drop_last())
    }
}

/// The position just after the last line feed of `buf[..len]`, if any.
fn after_last_newline(buf: &Vec<u8>, len: usize) -> (r: Option<usize>)
    requires
        len <= buf@.len(),
    ensures
        r == after_last_line_feed(buf@.take(len as int)),
        match r {
            Some(p) => 0 < p <= len && buf@[p - 1] == 10 && forall|i: int|
                p <= i < len ==> buf@[i] != 10,
            None => forall|i: int| 0 <= i < len ==> buf@[i] != 10,
        },
{
    let mut i = len;
    while i > 0
        invariant
            i <= len <= buf@.len(),
            forall|j: int| i <= j < len ==> buf@[j] != 10,
            after_last_line_feed(buf@.take(len as int)) == after_last_line_feed(buf@.take(i as int)),
        decreases i,
    {
        if buf[i - 1] == 10 {
            return Some(i);
        }
        assert(buf@.take(i as int).drop_last() =~= buf@.take(i - 1));
        i = i - 1;
    }
    None
}

/// The line that a match selects in a haystack that ends at a line feed (or
/// at the end of the input, `at_end`), with the kind its pattern names: the
/// match must start a line, and the line must end within the haystack unless
/// the input ends there.
pub open spec fn matched_line(h: Seq<u8>, at_end: bool, m: (usize, usize)) -> Option<(Seq<u8>, usize)> {
    let start = m.0 as int;
    if start != 0 && h[start - 1] != 10 {
        None
    } else {
        let q = byte_index(h.subrange(start, h.len() as int), 10);
        if start + q < h.len() {
            Some((h.subrange(start, start + q), m.1))
        } else if at_end {
            Some((h.subrange(start, h.len() as int), m.1))
        } else {
            None
        }
    }
}

/// The items that the matches select, in order; `Err` where a selected line
/// fails hard (see `line_fails`).
pub open spec fn matched_items(h: Seq<u8>, at_end: bool, ms: Seq<(usize, usize)>) -> Result<Seq<CsvItem>, ()>
    decreases ms.len(),
{
    if ms.len() == 0 {
        Ok(Seq::empty())
    } else {
        match matched_items(h, at_end, ms.drop_last()) {
            Err(()) => Err(()),
            Ok(items) => match matched_line(h, at_end, ms.last()) {
                None => Ok(items),
                Some((line, kind)) => if line_fails(line, kind) {
                    Err(())
                } else {
                    match line_item(line, kind) {
                        Some(item) => Ok(items.push(item)),
                        None => Ok(items),
                    }
                },
            },
        }
    }
}

/// The index of the first line feed in `h[lo..]`, counted from `lo`, or the
/// length of `h[lo..]`.
fn find_newline_from(h: &[u8], lo: usize) -> (n: usize)
    requires
        lo <= h@.len(),
    ensures
        n == byte_index(h@.subrange(lo as int, h@.len() as int), 10),
        lo + n <= h@.len(),
{
    let hi = h.len();
    let mut i = lo;
    while i < hi && h[i] != 10
        invariant
            lo <= i <= hi == h@.len(),
            byte_index(h@.subrange(lo as int, hi as int), 10) == (i - lo) + byte_index(
                h@.subrange(i as int, hi as int),
                10,
            ),
        decreases hi - i,
    {
        assert(h@.subrange(i as int, hi as int).drop_first() =~= h@.subrange(i + 1, hi as int));
        i = i + 1;
    }
    i - lo
}

/// Where the matches of a prefix select a failing line, so do all the
/// matches.
pub proof fn lemma_matched_items_err_extends(
    h: Seq<u8>,
    at_end: bool,
    ms: Seq<(usize, usize)>,
    k: int,
)
    requires
        0 <= k <= ms.len(),
        matched_items(h, at_end, ms.take(k)) is Err,
    ensures
        matched_items(h, at_end, ms) is Err,
    decreases ms.len() - k,
{
    if k < ms.len() {
        assert(ms.take(k + 1).drop_last() =~= ms.take(k));
        lemma_matched_items_err_extends(h, at_end, ms, k + 1);
    } else {
        assert(ms.take(k) =~= ms);
    }
}

/// Reads the lines that the matches select in the haystack (see
/// `matched_items`): each match that starts a line names the kind of that
/// line.
pub fn read_matched_lines(haystack: &[u8], at_end: bool, matches: &Vec<(usize, usize)>) -> (r: Result<
    Vec<CsvItem>,
    CorasickError,
>)
    requires
        forall|i: int| 0 <= i < matches@.len() ==> #[trigger] matches@[i].0 <= haystack@.len(),
    ensures
        match r {
            Ok(items) => matched_items(haystack@, at_end, matches@) == Ok::<Seq<CsvItem>, ()>(items@),
            Err(e) => e == CorasickError::AmountOverflow && matched_items(haystack@, at_end, matches@) is Err,
        },
{
    let mut items: Vec<CsvItem> = Vec::new();
    let mut m: usize = 0;
    let len = haystack.len();
    while m < matches.len()
        invariant
            0 <= m <= matches@.len(),
            len == haystack@.len(),
            forall|i: int| 0 <= i < matches@.len() ==> #[trigger] matches@[i].0 <= haystack@.len(),
            matched_items(haystack@, at_end, matches@.take(m as int)) == Ok::<Seq<CsvItem>, ()>(items@),
        decreases matches@.len() - m,
    {
        let (start, pid) = matches[m];
        let ghost ms = matches@.take(m + 1);
        assert(ms.drop_last() =~= matches@.take(m as int));
        assert(ms.last() == matches@[m as int]);
        m = m + 1;
        if start != 0 && haystack[start - 1] != 10 {
            continue ;
        }
        let q = find_newline_from(haystack, start);
        let line_end = if start + q < len {
            start + q
        } else if at_end {
            len
        } else {
            continue ;
        };
        let line = &haystack[start..line_end];
        assert(matched_line(haystack@, at_end, ms.last()) == Some((line@, pid)));
        if line_overflows(line, pid) {
            proof {
                lemma_matched_items_err_extends(haystack@, at_end, matches@, m as int);
            }
            return Err(CorasickError::AmountOverflow);
        }
        match parse_line_bytes(line, pid) {
            Some(item) => {
                items.push(item);
            },
            None => {},
        }
    }
    assert(matches@.take(m as int) =~= matches@);
    Ok(items)
}

/// Each line that a match selects in a window of the input is the line of the
/// input that starts there; so each item read is read from a line of the
/// input, and a failing selected line is a failing line of the input.
pub proof fn lemma_matched_lines_from_input(
    input: Seq<u8>,
    off: int,
    h: Seq<u8>,
    at_end: bool,
    pats: Seq<Seq<u8>>,
    ms: Seq<(usize, usize)>,
)
    requires
        line_start(input, off),
        off + h.len() <= input.len(),
        h == input.subrange(off, off + h.len()),
        at_end ==> off + h.len() == input.len(),
        !at_end ==> h.len() > 0 && h[h.len() - 1] == 10,
        matches_occur(h, pats, ms),
        no_line_feed(pats),
    ensures
        matched_items(h, at_end, ms) matches Ok(items) ==> forall|i: int|
            0 <= i < items.len() ==> read_from_line(input, pats, #[trigger] items[i]),
        matched_items(h, at_end, ms) is Err ==> some_line_fails(input),
    decreases ms.len(),
{
    if ms.len() > 0 {
        assert(matches_occur(h, pats, ms.drop_last())) by {
            assert forall|i: int| 0 <= i < ms.drop_last().len() implies ms.drop_last()[i] == ms[i] by {}
        }
        lemma_matched_lines_from_input(input, off, h, at_end, pats, ms.drop_last());
        let m = ms.last();
        assert(m == ms[ms.len() - 1]);
        match matched_line(h, at_end, m) {
            None => {},
            Some((line, kind)) => {
                let start = m.0 as int;
                let s = off + start;
                assert(line_start(input, s)) by {
                    if start != 0 {
                        assert(input[s - 1] == h[start - 1]);
                    }
                }
                let a = h.subrange(start, h.len() as int);
                assert(a =~= input.skip(s).take(a.len() as int));
                let q = byte_index(a, 10);
                crate::parser::fields::lemma_byte_index_bound(a, 10);
                if start + q < h.len() {
                    lemma_byte_index_prefix(a, input.skip(s), 10);
                    assert(line == h.subrange(start, start + q));
                    assert(byte_index(input.skip(s), 10) == q);
                    assert(line =~= input.subrange(s, s + q));
                } else {
                    assert(a =~= input.skip(s));
                    assert(line == h.subrange(start, h.len() as int));
                    assert(byte_index(input.skip(s), 10) == q);
                    assert(q == h.len() - start);
                    assert(line =~= input.subrange(s, s + q));
                }
                assert(line =~= line_at(input, s));
                let pk = pats[kind as int];
                assert(occurs_at(h, pk, start));
                assert forall|i: int| 0 <= i < pk.len() implies a[i] != 10 by {
                    assert(a[i] == h[start + i]);
                    assert(h.subrange(start, start + pk.len())[i] == h[start + i]);
                    assert(pk[i] != 10);
                }
                lemma_byte_index_past(a, 10, pk.len() as int);
                assert(line.take(pk.len() as int) =~= h.subrange(start, start + pk.len()));
                assert(starts_with(line_at(input, s), pk));
            },
        }
    }
}

/// The type prefixes that the reader looks for, by kind: deposit,
/// withdrawal, dispute, resolve, chargeback.
pub open spec fn line_patterns() -> Seq<Seq<char>> {
    seq!["de"@, "wi"@, "di"@, "re"@, "ch"@]
}

/// The type prefixes as bytes, by kind.
pub open spec fn kind_prefixes() -> Seq<Seq<u8>> {
    seq![
        seq![100u8, 101u8],
        seq![119u8, 105u8],
        seq![100u8, 105u8],
        seq![114u8, 101u8],
        seq![99u8, 104u8],
    ]
}

/// The type prefixes are searched for as these bytes, none a line feed.
proof fn lemma_kind_prefixes()
    ensures
        pattern_bytes(line_patterns()) == kind_prefixes(),
        no_line_feed(kind_prefixes()),
{
    reveal_strlit("de");
    reveal_strlit("wi");
    reveal_strlit("di");
    reveal_strlit("re");
    reveal_strlit("ch");
    let ps = line_patterns();
    assert forall|k: int| 0 <= k < 5 implies vstd::utf8::encode_utf8(#[trigger] ps[k])
        == kind_prefixes()[k] by {
        assert(vstd::utf8::is_ascii_chars(ps[k]));
        vstd::utf8::is_ascii_chars_encode_utf8(ps[k]);
        assert(vstd::utf8::encode_utf8(ps[k]) =~= kind_prefixes()[k]);
    }
    assert(pattern_bytes(ps) =~= kind_prefixes());
}

/// `items` before the items of `r`, or the failure of `r`.
pub open spec fn join_items(items: Seq<CsvItem>, r: Result<Seq<CsvItem>, ()>) -> Result<Seq<CsvItem>, ()> {
    match r {
        Ok(rest) => Ok(items + rest),
        Err(e) => Err(e),
    }
}

/// What the buffered prefix reader yields from the state where the buffer
/// holds `input[off..pos]`: it fills the buffer from the input (at most
/// `BUF_SIZE` bytes in all), and stops where the buffer is full or the input
/// is done; otherwise it reads the lines that the automaton's matches select
/// up to the last line feed of the buffer (up to the end, once the input is
/// done), keeps the rest, and goes on. `Err` where a selected line fails hard.
pub open spec fn reader_run(input: Seq<u8>, pats: Seq<Seq<char>>, off: int, pos: int) -> Result<Seq<CsvItem>, ()>
    decreases input.len() - pos,
{
    if !(0 <= off <= pos <= input.len()) || pos - off >= BUF_SIZE {
        Ok(Seq::empty())
    } else {
        let free = BUF_SIZE - (pos - off);
        let n = if input.len() - pos < free {
            input.len() - pos
        } else {
            free
        };
        if n == 0 && pos == off {
            Ok(Seq::empty())
        } else {
            let pos2 = pos + n;
            let window = input.subrange(off, pos2);
            if n != 0 && after_last_line_feed(window) is None {
                reader_run(input, pats, off, pos2)
            } else {
                let pl = if n == 0 {
                    window.len() as int
                } else {
                    after_last_line_feed(window)->0 as int
                };
                let hay = window.take(pl);
                let found = matched_items(hay, n == 0, aho_matches(pats, hay));
                if n == 0 {
                    found
                } else {
                    match found {
                        Err(e) => Err(e),
                        Ok(items) => join_items(items, reader_run(input, pats, off + pl, pos2)),
                    }
                }
            }
        }
    }
}

/// Nothing before the items of `r` leaves `r` as it is.
pub proof fn lemma_join_nil(r: Result<Seq<CsvItem>, ()>)
    ensures
        join_items(Seq::empty(), r) == r,
{
    if r is Ok {
        let x = r->Ok_0;
        assert(Seq::<CsvItem>::empty() + x =~= x);
    }
}

/// Items before the items of `r` leave it as it is where `r` is empty.
pub proof fn lemma_join_empty(items: Seq<CsvItem>)
    ensures
        join_items(items, Ok(Seq::empty())) == Ok::<Seq<CsvItem>, ()>(items),
{
    assert(items + Seq::<CsvItem>::empty() =~= items);
}

/// Joining items one batch after another is joining them all at once.
pub proof fn lemma_join_assoc(a: Seq<CsvItem>, b: Seq<CsvItem>, r: Result<Seq<CsvItem>, ()>)
    ensures
        join_items(a, join_items(b, r)) == join_items(a + b, r),
{
    match r {
        Ok(x) => {
            assert(a + (b + x) =~= (a + b) + x);
        },
        Err(()) => {},
    }
}

/// Reads the feed by line prefixes, as a buffered reader of `input` does: the
/// input is taken in chunks of at most `BUF_SIZE` bytes, up to the last line
/// feed of each, and a line longer than the buffer ends the reading. Each item
/// is what some line of the input stands for (a line that starts with a type
/// prefix, read as that type); an overflowing amount in such a line makes the
/// result `AmountOverflow`. The result is `reader_run` from the empty buffer,
/// and `Build` exactly where the automaton of the type prefixes does not
/// build.
#[verifier::rlimit(60)]
pub fn parse_corasick(input: &[u8]) -> (r: Result<Vec<CsvItem>, CorasickError>)
    ensures
        match r {
            Ok(items) => reader_run(input@, line_patterns(), 0, 0) == Ok::<Seq<CsvItem>, ()>(items@)
                && forall|i: int|
                0 <= i < items@.len() ==> read_from_line(input@, kind_prefixes(), #[trigger] items@[i]),
            Err(CorasickError::AmountOverflow) => aho_builds(line_patterns()) && reader_run(
                input@,
                line_patterns(),
                0,
                0,
            ) is Err && some_line_fails(input@),
            Err(CorasickError::Build) => !aho_builds(line_patterns()),
        },
{
    let patterns: [&str; 5] = ["de", "wi", "di", "re", "ch"];
    let pattern_list = patterns.as_slice();
    assert(pattern_texts(pattern_list@) =~= line_patterns());
    let ac = match build_automaton(pattern_list) {
        Some(ac) => ac,
        None => {
            return Err(CorasickError::Build);
        },
    };
    let mut items: Vec<CsvItem> = Vec::new();
    let mut buf: Vec<u8> = vec![0u8; BUF_SIZE];
    let mut buf_len: usize = 0;
    let mut pos: usize = 0;
    let total = input.len();
    let ghost pats = line_patterns();
    proof {
        lemma_kind_prefixes();
        lemma_join_nil(reader_run(input@, pats, 0, 0));
        assert(items@ =~= Seq::<CsvItem>::empty());
    }
    loop
        invariant_except_break
            reader_run(input@, pats, 0, 0) == join_items(
                items@,
                reader_run(input@, pats, pos - buf_len, pos as int),
            ),
        invariant
            aho_patterns(ac) == pats,
            aho_standard(ac),
            aho_builds(pats),
            pattern_bytes(pats) == kind_prefixes(),
            no_line_feed(kind_prefixes()),
            pats == line_patterns(),
            buf@.len() == BUF_SIZE,
            total == input@.len(),
            buf_len <= pos <= total,
            buf_len <= BUF_SIZE,
            line_start(input@, pos - buf_len),
            forall|i: int| 0 <= i < buf_len ==> #[trigger] buf@[i] == input@[pos - buf_len + i],
            forall|i: int| 0 <= i < items@.len() ==> read_from_line(input@, kind_prefixes(), #[trigger] items@[i]),
        ensures
            reader_run(input@, pats, 0, 0) == Ok::<Seq<CsvItem>, ()>(items@),
        decreases total - pos, buf_len,
    {
        let ghost off0: int = pos - buf_len;
        let ghost pos0: int = pos as int;
        let ghost run0 = reader_run(input@, pats, off0, pos0);
        let free = BUF_SIZE - buf_len;
        if free == 0 {
            proof {
                lemma_join_empty(items@);
            }
            break ;
        }
        let n = if total - pos < free {
            total - pos
        } else {
            free
        };
        if n == 0 && buf_len == 0 {
            proof {
                lemma_join_empty(items@);
            }
            break ;
        }
        let ghost off = pos - buf_len;
        let mut i: usize = 0;
        while i < n
            invariant
                buf@.len() == BUF_SIZE,
                buf_len + n <= BUF_SIZE,
                pos + n <= total == input@.len(),
                off == pos - buf_len,
                i <= n,
                forall|j: int| 0 <= j < buf_len + i ==> #[trigger] buf@[j] == input@[off + j],
            decreases n - i,
        {
            buf.set(buf_len + i, input[pos + i]);
            i = i + 1;
        }
        buf_len = buf_len + n;
        pos = pos + n;
        let ghost window = input@.subrange(off0, pos as int);
        assert(buf@.take(buf_len as int) =~= window);
        let process_len = if n == 0 {
            buf_len
        } else {
            match after_last_newline(&buf, buf_len) {
                Some(p) => p,
                None => {
                    assert(run0 == reader_run(input@, pats, off0, pos as int));
                    continue ;
                },
            }
        };
        let haystack = &buf[0..process_len];
        assert(haystack@ =~= input@.subrange(off as int, off + process_len));
        let matches = find_matches(&ac, haystack);
        proof {
            lemma_matched_lines_from_input(input@, off as int, haystack@, n == 0, kind_prefixes(), matches@);
            assert forall|i: int| 0 <= i < matches@.len() implies #[trigger] matches@[i].0 <= haystack@.len() by {
                assert(occurs_at(haystack@, kind_prefixes()[matches@[i].1 as int], matches@[i].0 as int));
            }
        }
        assert(haystack@ =~= window.take(process_len as int));
        let ghost found_run = matched_items(haystack@, n == 0, matches@);
        assert(n == 0 ==> run0 == found_run);
        assert(n != 0 ==> run0 == match found_run {
            Err(e) => Err(e),
            Ok(fs) => join_items(fs, reader_run(input@, pats, off0 + process_len, pos as int)),
        });
        match read_matched_lines(haystack, n == 0, &matches) {
            Ok(found) => {
                let mut found = found;
                let ghost before = items@;
                proof {
                    lemma_join_assoc(before, found@, reader_run(input@, pats, off0 + process_len, pos as int));
                    lemma_join_empty(before + found@);
                }
                items.append(&mut found);
                assert forall|i: int| 0 <= i < items@.len() implies read_from_line(
                    input@,
                    kind_prefixes(),
                    #[trigger] items@[i],
                ) by {
                    if i >= before.len() {
                        assert(items@[i] == matched_items(haystack@, n == 0, matches@)->Ok_0[i - before.len()]);
                    }
                }
            },
            Err(e) => {
                return Err(e);
            },
        }
        if n == 0 {
            break ;
        }
        let remaining = buf_len - process_len;
        let mut k: usize = 0;
        while k < remaining
            invariant
                buf@.len() == BUF_SIZE,
                total == input@.len(),
                off == pos - buf_len,
                buf_len <= pos <= total,
                buf_len <= BUF_SIZE,
                0 < process_len <= buf_len,
                remaining == buf_len - process_len,
                k <= remaining,
                forall|i: int| 0 <= i < k ==> #[trigger] buf@[i] == input@[off + process_len + i],
                forall|i: int| k <= i < buf_len ==> #[trigger] buf@[i] == input@[off + i],
            decreases remaining - k,
        {
            let b = buf[process_len + k];
            buf.set(k, b);
            k = k + 1;
        }
        buf_len = remaining;
    }
    Ok(items)
}

} // verus!
