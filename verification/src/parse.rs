//! The line classifier, the movie parser, and the document scan.

use vstd::prelude::*;

use crate::is_digit;
use crate::digit_val;
use crate::digit_check;
use crate::record::Movie;
use crate::record::MovieModel;

verus! {

/// A character of the Unicode `White_Space` class, the set that trimming
/// removes from the ends of each line.
pub open spec fn is_space(c: char) -> bool {
    ('\u{9}' <= c && c <= '\u{d}') || c == ' ' || c == '\u{85}' || c == '\u{a0}'
        || c == '\u{1680}' || ('\u{2000}' <= c && c <= '\u{200a}') || c == '\u{2028}'
        || c == '\u{2029}' || c == '\u{202f}' || c == '\u{205f}' || c == '\u{3000}'
}

/// Reports whether `c` is whitespace, in the sense of [`is_space`].
pub fn space_check(c: char) -> (r: bool)
    ensures
        r == is_space(c),
{
    ('\u{9}' <= c && c <= '\u{d}') || c == ' ' || c == '\u{85}' || c == '\u{a0}'
        || c == '\u{1680}' || ('\u{2000}' <= c && c <= '\u{200a}') || c == '\u{2028}'
        || c == '\u{2029}' || c == '\u{202f}' || c == '\u{205f}' || c == '\u{3000}'
}

/// `s` with leading whitespace removed.
pub open spec fn trim_start(s: Seq<char>) -> Seq<char>
    decreases s.len(),
{
    if s.len() > 0 && is_space(s[0]) {
        trim_start(s.drop_first())
    } else {
        s
    }
}

/// `s` with trailing whitespace removed.
pub open spec fn trim_end(s: Seq<char>) -> Seq<char>
    decreases s.len(),
{
    if s.len() > 0 && is_space(s.last()) {
        trim_end(s.drop_last())
    } else {
        s
    }
}

/// `s` with whitespace removed from both ends.
pub open spec fn trimmed(s: Seq<char>) -> Seq<char> {
    trim_end(trim_start(s))
}

proof fn lemma_trim_start_at(s: Seq<char>, i: int)
    requires
        0 <= i <= s.len(),
        forall|j: int| 0 <= j < i ==> is_space(s[j]),
        i == s.len() || !is_space(s[i]),
    ensures
        trim_start(s) == s.skip(i),
    decreases i,
{
    if i == 0 {
        assert(s.skip(0) =~= s);
    } else {
        lemma_trim_start_at(s.drop_first(), i - 1);
        assert(s.drop_first().skip(i - 1) =~= s.skip(i));
    }
}

proof fn lemma_trim_end_at(s: Seq<char>, i: int)
    requires
        0 <= i <= s.len(),
        forall|j: int| i <= j < s.len() ==> is_space(s[j]),
        i == 0 || !is_space(s[i - 1]),
    ensures
        trim_end(s) == s.take(i),
    decreases s.len() - i,
{
    if i == s.len() {
        assert(s.take(i) =~= s);
        if s.len() > 0 && is_space(s.last()) {
            lemma_trim_end_at(s.drop_last(), i - 1);
            assert(s.drop_last().take(i - 1) =~= s.take(i - 1));
        }
    } else {
        lemma_trim_end_at(s.drop_last(), i);
        assert(s.drop_last().take(i) =~= s.take(i));
    }
}

/// Returns `line` with whitespace removed from both ends.
pub fn trim_line<'a>(line: &'a str) -> (r: &'a str)
    ensures
        r@ == trimmed(line@),
{
    let n = line.unicode_len();
    let mut lo: usize = 0;
    while lo < n && space_check(line.get_char(lo))
        invariant
            0 <= lo <= n,
            n == line@.len(),
            forall|j: int| 0 <= j < lo ==> is_space(line@[j]),
        decreases n - lo,
    {
        lo = lo + 1;
    }
    proof {
        lemma_trim_start_at(line@, lo as int);
    }
    if lo == n {
        let r = line.substring_char(n, n);
        proof {
            assert(line@.skip(n as int) =~= line@.subrange(n as int, n as int));
            assert(trim_end(line@.skip(n as int)) == line@.skip(n as int));
        }
        return r;
    }
    let mut hi: usize = n;
    while hi > lo && space_check(line.get_char(hi - 1))
        invariant
            lo <= hi <= n,
            n == line@.len(),
            forall|j: int| hi <= j < n ==> is_space(line@[j]),
        decreases hi,
    {
        hi = hi - 1;
    }
    proof {
        let t = line@.skip(lo as int);
        assert(forall|j: int| hi - lo <= j < t.len() ==> is_space(t[j]));
        assert(hi > lo);
        assert(!is_space(line@[lo as int]));
        if hi - 1 > lo {
            assert(!is_space(t[hi - lo - 1]));
        } else {
            assert(!is_space(t[0]));
        }
        lemma_trim_end_at(t, hi - lo as int);
        assert(t.take(hi - lo as int) =~= line@.subrange(lo as int, hi as int));
    }
    line.substring_char(lo, hi)
}

/// Every character of `s` is a decimal digit.
pub open spec fn all_digits(s: Seq<char>) -> bool {
    forall|i: int| 0 <= i < s.len() ==> is_digit(s[i])
}

/// The numeric value of a run of digit characters.
pub open spec fn digits_value(s: Seq<char>) -> int
    decreases s.len(),
{
    if s.len() == 0 {
        0
    } else {
        digits_value(s.drop_last()) * 10 + digit_val(s.last())
    }
}

proof fn lemma_digits_value_nonneg(s: Seq<char>)
    requires
        all_digits(s),
    ensures
        digits_value(s) >= 0,
    decreases s.len(),
{
    if s.len() > 0 {
        assert(all_digits(s.drop_last()));
        lemma_digits_value_nonneg(s.drop_last());
    }
}

/// Appending one digit multiplies a run's value by ten and adds the digit.
pub proof fn lemma_digits_value_take_step(s: Seq<char>, i: int)
    requires
        0 <= i < s.len(),
    ensures
        digits_value(s.take(i + 1)) == digits_value(s.take(i)) * 10 + digit_val(s[i]),
{
    assert(s.take(i + 1).drop_last() =~= s.take(i));
    assert(s.take(i + 1).last() == s[i]);
}

/// The value of a digit run's prefix never exceeds the whole run's value.
pub proof fn lemma_digits_value_grows(s: Seq<char>, i: int)
    requires
        all_digits(s),
        0 <= i <= s.len(),
    ensures
        digits_value(s.take(i)) <= digits_value(s),
    decreases s.len() - i,
{
    if i == s.len() {
        assert(s.take(i) =~= s);
    } else {
        lemma_digits_value_take_step(s, i);
        assert(all_digits(s.take(i)));
        lemma_digits_value_nonneg(s.take(i));
        lemma_digits_value_grows(s, i + 1);
    }
}

/// The separator pattern: one or more digits followed by a single final
/// period, with nothing else on the line.
pub open spec fn is_separator_shape(l: Seq<char>) -> bool {
    l.len() >= 2 && l.last() == '.' && all_digits(l.drop_last())
}

/// The disc number a line announces: the value of its digit run, provided
/// the line matches the separator pattern and the value fits in a `u32`.
/// A value too large for a `u32` is treated as a non-match, so the line
/// falls through to the movie parser.
pub open spec fn separator_value(l: Seq<char>) -> Option<u32> {
    if is_separator_shape(l) && digits_value(l.drop_last()) <= u32::MAX {
        Some(digits_value(l.drop_last()) as u32)
    } else {
        None
    }
}

/// Classifies `line` as a disc separator, returning the disc number it
/// announces, or `None` when the line is not a separator (also when its
/// numeric value would overflow a `u32`).
pub fn disc_number(line: &str) -> (r: Option<u32>)
    ensures
        r == separator_value(line@),
{
    let n = line.unicode_len();
    if n < 2 {
        return None;
    }
    if line.get_char(n - 1) != '.' {
        return None;
    }
    let ghost digits = line@.drop_last();
    let mut acc: u32 = 0;
    let mut i: usize = 0;
    while i < n - 1
        invariant
            0 <= i <= n - 1,
            n == line@.len(),
            n >= 2,
            digits == line@.drop_last(),
            digits.len() == n - 1,
            forall|j: int| 0 <= j < i ==> is_digit(line@[j]),
            acc == digits_value(digits.take(i as int)),
        decreases n - 1 - i,
    {
        let c = line.get_char(i);
        if !digit_check(c) {
            proof {
                assert(digits[i as int] == line@[i as int]);
                assert(!all_digits(digits));
            }
            return None;
        }
        let d: u32 = c as u32 - '0' as u32;
        proof {
            assert(d == digit_val(c));
        }
        proof {
            lemma_digits_value_take_step(digits, i as int);
        }
        if acc > (u32::MAX - d) / 10 {
            // The digit run does not fit in a `u32`: by the pattern's rule
            // this is a non-match, not an error.
            proof {
                let k = i as int + 1;
                assert(digits_value(digits.take(k)) > u32::MAX);
                if all_digits(digits) {
                    lemma_digits_value_grows(digits, k);
                    assert(digits_value(digits) > u32::MAX);
                }
            }
            return None;
        }
        acc = acc * 10 + d;
        i = i + 1;
    }
    proof {
        assert(digits.take((n - 1) as int) =~= digits);
        assert(all_digits(digits));
    }
    Some(acc)
}

/// The fixed two-character children's-content marker.
pub open spec fn marker() -> Seq<char> {
    seq!['\u{513f}', '\u{7ae5}']
}

/// The line ends with the children's-content marker, beyond the year.
pub open spec fn has_marker(l: Seq<char>) -> bool {
    l.len() >= 6 && l[l.len() - 2] == '\u{513f}' && l[l.len() - 1] == '\u{7ae5}'
}

/// The record a movie line yields under disc context `d`: the line must
/// start with exactly four digits (the year); the rest of the line, up to
/// an optional trailing marker, is the title, trimmed; a trailing marker
/// becomes the remark. Any other line yields `None`.
pub open spec fn movie_of(d: u32, l: Seq<char>) -> Option<MovieModel> {
    if l.len() >= 4 && all_digits(l.take(4)) {
        Some(
            MovieModel {
                disc: d,
                year: l.take(4),
                title: if has_marker(l) {
                    trimmed(l.subrange(4, l.len() - 2))
                } else {
                    trimmed(l.skip(4))
                },
                remark: if has_marker(l) {
                    Some(marker())
                } else {
                    None
                },
            },
        )
    } else {
        None
    }
}

/// Parses `line` as a movie entry under disc context `disc_no`, returning
/// its record, or `None` when the line does not start with four digits.
pub fn parse_movie(disc_no: u32, line: &str) -> (r: Option<Movie>)
    ensures
        match r {
            Some(m) => movie_of(disc_no, line@) == Some(m@),
            None => movie_of(disc_no, line@) is None,
        },
{
    let n = line.unicode_len();
    if n < 4 {
        return None;
    }
    let mut i: usize = 0;
    while i < 4
        invariant
            0 <= i <= 4,
            n == line@.len(),
            n >= 4,
            forall|j: int| 0 <= j < i ==> is_digit(line@[j]),
        decreases 4 - i,
    {
        if !digit_check(line.get_char(i)) {
            proof {
                assert(!is_digit(line@.take(4)[i as int]));
            }
            return None;
        }
        i = i + 1;
    }
    proof {
        assert(all_digits(line@.take(4)));
    }
    let year = line.substring_char(0, 4).to_owned();
    let with_marker = n >= 6 && line.get_char(n - 2) == '\u{513f}' && line.get_char(n - 1)
        == '\u{7ae5}';
    let body_end = if with_marker {
        n - 2
    } else {
        n
    };
    let title = trim_line(line.substring_char(4, body_end)).to_owned();
    let remark = if with_marker {
        let m = String::from_str("\u{513f}\u{7ae5}");
        proof {
            reveal_strlit("\u{513f}\u{7ae5}");
            assert(m@ =~= marker());
        }
        Some(m)
    } else {
        None
    };
    let rec = Movie { disc: disc_no, year, title, remark };
    proof {
        assert(line@.subrange(0, 4) =~= line@.take(4));
        if with_marker {
            assert(line@.subrange(4, n - 2) =~= line@.subrange(4, line@.len() - 2));
        } else {
            assert(line@.subrange(4, n as int) =~= line@.skip(4));
        }
    }
    Some(rec)
}

/// The new disc context after one line: a separator line replaces it, any
/// other line leaves it unchanged. The line is trimmed first.
pub open spec fn step_disc(l: Seq<char>, d: u32) -> u32 {
    match separator_value(trimmed(l)) {
        Some(n) => n,
        None => d,
    }
}

/// The record one line emits under disc context `d`: a blank or separator
/// line emits none, any other line emits whatever the movie parser yields.
pub open spec fn step_record(l: Seq<char>, d: u32) -> Option<MovieModel> {
    let t = trimmed(l);
    if t.len() == 0 {
        None
    } else if separator_value(t) is Some {
        None
    } else {
        movie_of(d, t)
    }
}

/// Processes one raw line: trims it, classifies it, and returns the new
/// disc context together with the record it emits, if any.
pub fn classify_line(line: &str, disc_no: u32) -> (r: (u32, Option<Movie>))
    ensures
        r.0 == step_disc(line@, disc_no),
        match r.1 {
            Some(m) => step_record(line@, disc_no) == Some(m@),
            None => step_record(line@, disc_no) is None,
        },
{
    let t = trim_line(line);
    if t.unicode_len() == 0 {
        return (disc_no, None);
    }
    match disc_number(t) {
        Some(n) => (n, None),
        None => (disc_no, parse_movie(disc_no, t)),
    }
}

/// The document split at `'\n'` into its lines.
pub open spec fn split_lines(t: Seq<char>) -> Seq<Seq<char>>
    decreases t.len(),
{
    if t.len() == 0 {
        seq![Seq::<char>::empty()]
    } else if t[0] == '\n' {
        seq![Seq::<char>::empty()] + split_lines(t.drop_first())
    } else {
        let rest = split_lines(t.drop_first());
        seq![seq![t[0]] + rest[0]] + rest.skip(1)
    }
}

proof fn lemma_split_lines_len(t: Seq<char>)
    ensures
        split_lines(t).len() >= 1,
    decreases t.len(),
{
    if t.len() != 0 {
        lemma_split_lines_len(t.drop_first());
    }
}

/// Where the first `i` characters of `t` hold no newline, the document's
/// first line is `t.take(i)` when `t[i]` is a newline, or all of `t` when
/// `i` reaches the end.
proof fn lemma_split_lines_at(t: Seq<char>, i: int)
    requires
        0 <= i <= t.len(),
        forall|j: int| 0 <= j < i ==> t[j] != '\n',
        i == t.len() || t[i] == '\n',
    ensures
        i == t.len() ==> split_lines(t) == seq![t],
        i < t.len() ==> split_lines(t) == seq![t.take(i)] + split_lines(t.skip(i + 1)),
    decreases i,
{
    if i == 0 {
        if i == t.len() {
            assert(t =~= Seq::<char>::empty());
            assert(split_lines(t) =~~= seq![t]);
        } else {
            assert(t[0] == '\n');
            assert(t.take(0) =~= Seq::<char>::empty());
            assert(t.drop_first() =~= t.skip(1));
        }
    } else {
        let u = t.drop_first();
        lemma_split_lines_at(u, i - 1);
        lemma_split_lines_len(u);
        if i == t.len() {
            assert(split_lines(u) == seq![u]);
            assert(split_lines(t) =~= seq![seq![t[0]] + u] + split_lines(u).skip(1));
            assert(seq![t[0]] + u =~= t);
            assert(split_lines(u).skip(1) =~= Seq::<Seq<char>>::empty());
            assert(split_lines(t) =~= seq![t]);
        } else {
            assert(split_lines(u) == seq![u.take(i - 1)] + split_lines(u.skip(i)));
            lemma_split_lines_len(u.skip(i));
            assert(split_lines(u)[0] == u.take(i - 1));
            assert(seq![t[0]] + u.take(i - 1) =~= t.take(i));
            assert(split_lines(u).skip(1) =~= split_lines(u.skip(i)));
            assert(u.skip(i) =~= t.skip(i + 1));
            assert(split_lines(t) =~= seq![t.take(i)] + split_lines(t.skip(i + 1)));
        }
    }
}

/// The records the document's lines yield, scanned in order under an
/// initial disc context `d`.
pub open spec fn scan_lines(ls: Seq<Seq<char>>, d: u32) -> Seq<MovieModel>
    decreases ls.len(),
{
    if ls.len() == 0 {
        Seq::empty()
    } else {
        let emitted = match step_record(ls[0], d) {
            Some(m) => seq![m],
            None => Seq::<MovieModel>::empty(),
        };
        emitted + scan_lines(ls.drop_first(), step_disc(ls[0], d))
    }
}

/// The ordered record list of a whole document: its lines scanned under an
/// initial disc context of 0.
pub open spec fn catalog_records(t: Seq<char>) -> Seq<MovieModel> {
    scan_lines(split_lines(t), 0)
}

/// The disc context left after scanning all of `ls` starting from `d`.
pub open spec fn end_disc(ls: Seq<Seq<char>>, d: u32) -> u32
    decreases ls.len(),
{
    if ls.len() == 0 {
        d
    } else {
        end_disc(ls.drop_first(), step_disc(ls[0], d))
    }
}

/// A document whose lines are all blank yields no records at all.
pub proof fn lemma_blank_lines_yield_nothing(ls: Seq<Seq<char>>, d: u32)
    requires
        forall|k: int| 0 <= k < ls.len() ==> trimmed(ls[k]).len() == 0,
    ensures
        scan_lines(ls, d) == Seq::<MovieModel>::empty(),
    decreases ls.len(),
{
    if ls.len() > 0 {
        assert(trimmed(ls[0]).len() == 0);
        assert(step_record(ls[0], d) is None);
        lemma_blank_lines_yield_nothing(ls.drop_first(), step_disc(ls[0], d));
        assert(scan_lines(ls, d) =~= Seq::<MovieModel>::empty());
    }
}

/// A document with zero lines or only blank lines yields an empty record
/// list.
pub proof fn lemma_blank_document(t: Seq<char>)
    requires
        forall|k: int| 0 <= k < split_lines(t).len() ==> trimmed(split_lines(t)[k]).len() == 0,
    ensures
        catalog_records(t) == Seq::<MovieModel>::empty(),
{
    lemma_blank_lines_yield_nothing(split_lines(t), 0);
}

/// Scanning a concatenation of two line sequences scans the first, then
/// the second under the disc context the first one left: records keep
/// document order, and skipped or separator lines shift nothing.
pub proof fn lemma_scan_append(ls1: Seq<Seq<char>>, ls2: Seq<Seq<char>>, d: u32)
    ensures
        scan_lines(ls1 + ls2, d) == scan_lines(ls1, d) + scan_lines(ls2, end_disc(ls1, d)),
    decreases ls1.len(),
{
    if ls1.len() == 0 {
        assert(ls1 + ls2 =~= ls2);
        assert(scan_lines(ls1, d) + scan_lines(ls2, d) =~= scan_lines(ls2, d));
    } else {
        let l0 = ls1[0];
        assert((ls1 + ls2)[0] == l0);
        assert((ls1 + ls2).drop_first() =~= ls1.drop_first() + ls2);
        lemma_scan_append(ls1.drop_first(), ls2, step_disc(l0, d));
        assert(scan_lines(ls1 + ls2, d) =~= scan_lines(ls1, d) + scan_lines(
            ls2,
            end_disc(ls1, d),
        ));
    }
}

/// While no separator line has appeared, the disc context stays as it was,
/// and every record carries it; started at 0, this is the state before the
/// first separator of a document.
pub proof fn lemma_no_separator_keeps_disc(ls: Seq<Seq<char>>, d: u32)
    requires
        forall|k: int| 0 <= k < ls.len() ==> separator_value(trimmed(ls[k])) is None,
    ensures
        end_disc(ls, d) == d,
        forall|i: int|
            0 <= i < scan_lines(ls, d).len() ==> (#[trigger] scan_lines(ls, d)[i]).disc == d,
    decreases ls.len(),
{
    if ls.len() > 0 {
        assert(separator_value(trimmed(ls[0])) is None);
        assert(step_disc(ls[0], d) == d);
        lemma_no_separator_keeps_disc(ls.drop_first(), d);
        match step_record(ls[0], d) {
            Some(m) => {
                assert(m.disc == d);
                assert(scan_lines(ls, d) == seq![m] + scan_lines(ls.drop_first(), d));
            },
            None => {
                assert(scan_lines(ls, d) =~= scan_lines(ls.drop_first(), d));
            },
        }
    }
}

/// A separator line announcing `n` emits no record itself, and the lines
/// that follow it are scanned under disc context `n`; as long as no further
/// separator appears, every record among them carries `n`.
pub proof fn lemma_separator_sets_context(ls: Seq<Seq<char>>, d: u32, n: u32)
    requires
        ls.len() > 0,
        separator_value(trimmed(ls[0])) == Some(n),
    ensures
        scan_lines(ls, d) == scan_lines(ls.drop_first(), n),
        (forall|k: int|
            1 <= k < ls.len() ==> separator_value(trimmed(ls[k])) is None) ==> forall|i: int|
            0 <= i < scan_lines(ls, d).len() ==> (#[trigger] scan_lines(ls, d)[i]).disc == n,
{
    assert(trimmed(ls[0]).len() >= 2);
    assert(step_record(ls[0], d) is None);
    assert(step_disc(ls[0], d) == n);
    assert(scan_lines(ls, d) =~= scan_lines(ls.drop_first(), n));
    if forall|k: int| 1 <= k < ls.len() ==> separator_value(trimmed(ls[k])) is None {
        assert(forall|k: int|
            0 <= k < ls.drop_first().len() ==> separator_value(
                trimmed(#[trigger] ls.drop_first()[k]),
            ) is None);
        lemma_no_separator_keeps_disc(ls.drop_first(), n);
    }
}

/// Re-running the parse over the identical document yields the identical
/// record list: the result is a function of the document text alone, as
/// [`parse_catalog`]'s contract pins each run to `catalog_records`, and no
/// state survives between runs.
pub proof fn lemma_parse_deterministic(
    t: Seq<char>,
    r1: Seq<MovieModel>,
    r2: Seq<MovieModel>,
)
    requires
        r1 == catalog_records(t),
        r2 == catalog_records(t),
    ensures
        r1 == r2,
{
}

/// Parses a whole catalog document: splits it at `'\n'`, trims each line,
/// skips blank lines, lets separator lines update the running disc number,
/// and collects the records of the movie lines, in document order.
pub fn parse_catalog(text: &str) -> (movies: Vec<Movie>)
    ensures
        movies@.map_values(|m: Movie| m@) == catalog_records(text@),
{
    let n = text.unicode_len();
    let mut movies: Vec<Movie> = Vec::new();
    let mut disc_no: u32 = 0;
    let mut start: usize = 0;
    let mut i: usize = 0;
    proof {
        assert(text@.skip(0) =~= text@);
        assert(movies@.map_values(|m: Movie| m@) + catalog_records(text@) =~= catalog_records(
            text@,
        ));
    }
    while i < n
        invariant
            0 <= start <= i <= n,
            n == text@.len(),
            forall|j: int| start <= j < i ==> text@[j] != '\n',
            catalog_records(text@) == movies@.map_values(|m: Movie| m@) + scan_lines(
                split_lines(text@.skip(start as int)),
                disc_no,
            ),
        decreases n - i,
    {
        if text.get_char(i) == '\n' {
            let line = text.substring_char(start, i);
            let (d2, emitted) = classify_line(line, disc_no);
            proof {
                let t = text@.skip(start as int);
                assert(forall|j: int| 0 <= j < i - start ==> t[j] != '\n');
                assert(t[i - start as int] == '\n');
                lemma_split_lines_at(t, i - start as int);
                assert(t.take(i - start as int) =~= line@);
                assert(t.skip(i - start as int + 1) =~= text@.skip(i + 1));
                let ls = split_lines(t);
                assert(ls == seq![line@] + split_lines(text@.skip(i + 1)));
                assert(ls[0] == line@);
                assert(ls.drop_first() =~= split_lines(text@.skip(i + 1)));
            }
            match emitted {
                Some(m) => {
                    proof {
                        assert(movies@.push(m).map_values(|mm: Movie| mm@) =~= movies@.map_values(
                            |mm: Movie| mm@,
                        ).push(m@));
                        assert(seq![m@] + scan_lines(
                            split_lines(text@.skip(i + 1)),
                            d2,
                        ) =~= Seq::<MovieModel>::empty().push(m@) + scan_lines(
                            split_lines(text@.skip(i + 1)),
                            d2,
                        ));
                        assert(movies@.map_values(|mm: Movie| mm@) + (seq![m@] + scan_lines(
                            split_lines(text@.skip(i + 1)),
                            d2,
                        )) =~= movies@.map_values(|mm: Movie| mm@).push(m@) + scan_lines(
                            split_lines(text@.skip(i + 1)),
                            d2,
                        ));
                    }
                    movies.push(m);
                },
                None => {
                    proof {
                        assert(movies@.map_values(|mm: Movie| mm@) + (Seq::<
                            MovieModel,
                        >::empty() + scan_lines(
                            split_lines(text@.skip(i + 1)),
                            d2,
                        )) =~= movies@.map_values(|mm: Movie| mm@) + scan_lines(
                            split_lines(text@.skip(i + 1)),
                            d2,
                        ));
                    }
                },
            }
            disc_no = d2;
            start = i + 1;
        }
        i = i + 1;
    }
    let line = text.substring_char(start, n);
    let (_d2, emitted) = classify_line(line, disc_no);
    proof {
        let t = text@.skip(start as int);
        assert(forall|j: int| 0 <= j < t.len() ==> t[j] != '\n');
        lemma_split_lines_at(t, t.len() as int);
        assert(t =~= line@);
        assert(split_lines(t) == seq![line@]);
        let ls = seq![line@];
        assert(ls[0] == line@);
        assert(ls.drop_first() =~= Seq::<Seq<char>>::empty());
        assert(scan_lines(Seq::<Seq<char>>::empty(), step_disc(line@, disc_no)) =~= Seq::<
            MovieModel,
        >::empty());
        assert(scan_lines(ls, disc_no) == (match step_record(line@, disc_no) {
            Some(mm) => seq![mm],
            None => Seq::<MovieModel>::empty(),
        }) + Seq::<MovieModel>::empty());
    }
    match emitted {
        Some(m) => {
            proof {
                assert(movies@.push(m).map_values(|mm: Movie| mm@) =~= movies@.map_values(
                    |mm: Movie| mm@,
                ).push(m@));
                assert(movies@.map_values(|mm: Movie| mm@) + (seq![m@] + Seq::<
                    MovieModel,
                >::empty()) =~= movies@.map_values(|mm: Movie| mm@).push(m@));
            }
            movies.push(m);
        },
        None => {
            proof {
                assert(movies@.map_values(|mm: Movie| mm@) + (Seq::<MovieModel>::empty() + Seq::<
                    MovieModel,
                >::empty()) =~= movies@.map_values(|mm: Movie| mm@));
            }
        },
    }
    movies
}

} // verus!

