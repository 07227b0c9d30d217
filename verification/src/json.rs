//! Rendering the record list as a JSON document, and reading one back.
//!
//! The encoder emits a pretty-printed JSON array of objects with the keys
//! `disc`, `year`, `title` and `remark` (`null` when the remark is absent).
//! The decoder parses exactly that layout. The two are proved inverse:
//! see [`lemma_json_round_trip`].

use vstd::prelude::*;

use crate::is_digit;
use crate::digit_val;
use crate::digit_check;
use crate::parse::all_digits;
use crate::parse::digits_value;
use crate::record::Movie;
use crate::record::MovieModel;

verus! {

/// Appends one character to a string.
/// Relies on `String::push`: the string afterwards is the old contents
/// followed by that character.
#[verifier::external_body]
fn push_char(out: &mut String, c: char)
    ensures
        final(out)@ == old(out)@.push(c),
{
    out.push(c)
}

/// The digit character for a value between 0 and 9.
pub open spec fn digit_char(d: int) -> char {
    if d == 0 {
        '0'
    } else if d == 1 {
        '1'
    } else if d == 2 {
        '2'
    } else if d == 3 {
        '3'
    } else if d == 4 {
        '4'
    } else if d == 5 {
        '5'
    } else if d == 6 {
        '6'
    } else if d == 7 {
        '7'
    } else if d == 8 {
        '8'
    } else {
        '9'
    }
}

/// The decimal representation of a non-negative integer, most significant
/// digit first, with no leading zeros (a lone zero for 0).
pub open spec fn dec_rep(n: int) -> Seq<char>
    recommends
        n >= 0,
    decreases n,
{
    if n < 10 {
        seq![digit_char(n)]
    } else {
        dec_rep(n / 10).push(digit_char(n % 10))
    }
}

/// How one character is written inside a JSON string: quote, backslash,
/// newline, carriage return and tab are escaped, anything else stands as
/// itself.
pub open spec fn esc_char(c: char) -> Seq<char> {
    if c == '"' {
        seq!['\\', '"']
    } else if c == '\\' {
        seq!['\\', '\\']
    } else if c == '\n' {
        seq!['\\', 'n']
    } else if c == '\r' {
        seq!['\\', 'r']
    } else if c == '\t' {
        seq!['\\', 't']
    } else {
        seq![c]
    }
}

/// A whole character sequence, escaped for a JSON string.
pub open spec fn esc_str(s: Seq<char>) -> Seq<char>
    decreases s.len(),
{
    if s.len() == 0 {
        Seq::empty()
    } else {
        esc_char(s[0]) + esc_str(s.drop_first())
    }
}

/// A JSON string: the escaped contents between double quotes.
pub open spec fn json_string(s: Seq<char>) -> Seq<char> {
    seq!['"'] + esc_str(s) + seq!['"']
}

/// One record as a pretty-printed JSON object, indented for its place
/// inside the array.
pub open spec fn json_of_movie(m: MovieModel) -> Seq<char> {
    "  {\n    \"disc\": "@ + dec_rep(m.disc as int) + ",\n    \"year\": "@ + json_string(m.year)
        + ",\n    \"title\": "@ + json_string(m.title) + ",\n    \"remark\": "@ + (match m.remark {
        Some(r) => json_string(r),
        None => "null"@,
    }) + "\n  }"@
}

/// The objects after the first one, each preceded by a comma separator.
pub open spec fn tail_join(ms: Seq<MovieModel>) -> Seq<char>
    decreases ms.len(),
{
    if ms.len() == 0 {
        Seq::empty()
    } else {
        ",\n"@ + json_of_movie(ms[0]) + tail_join(ms.drop_first())
    }
}

/// The whole record list as a pretty-printed JSON array.
pub open spec fn json_of_records(ms: Seq<MovieModel>) -> Seq<char> {
    if ms.len() == 0 {
        "[]"@
    } else {
        "[\n"@ + json_of_movie(ms[0]) + tail_join(ms.drop_first()) + "\n]"@
    }
}

proof fn lemma_tail_join_snoc(ms: Seq<MovieModel>, m: MovieModel)
    ensures
        tail_join(ms.push(m)) == tail_join(ms) + ",\n"@ + json_of_movie(m),
    decreases ms.len(),
{
    let p = ms.push(m);
    if ms.len() == 0 {
        assert(p[0] == m);
        assert(p.drop_first() =~= Seq::<MovieModel>::empty());
        assert(tail_join(Seq::<MovieModel>::empty()) == Seq::<char>::empty());
        assert(tail_join(ms) == Seq::<char>::empty());
        assert(tail_join(p) == ",\n"@ + json_of_movie(m) + Seq::<char>::empty());
        assert(tail_join(p) =~= tail_join(ms) + ",\n"@ + json_of_movie(m));
    } else {
        assert(p[0] == ms[0]);
        assert(p.drop_first() =~= ms.drop_first().push(m));
        lemma_tail_join_snoc(ms.drop_first(), m);
        assert(tail_join(p) =~= tail_join(ms) + ",\n"@ + json_of_movie(m));
    }
}

/// Writes a value between 0 and 9 as its digit character.
fn write_digit(d: u32) -> (c: char)
    requires
        d < 10,
    ensures
        c == digit_char(d as int),
{
    if d == 0 {
        '0'
    } else if d == 1 {
        '1'
    } else if d == 2 {
        '2'
    } else if d == 3 {
        '3'
    } else if d == 4 {
        '4'
    } else if d == 5 {
        '5'
    } else if d == 6 {
        '6'
    } else if d == 7 {
        '7'
    } else if d == 8 {
        '8'
    } else {
        '9'
    }
}

/// Appends the decimal representation of `n` to `out`.
fn append_dec(out: &mut String, n: u32)
    ensures
        final(out)@ == old(out)@ + dec_rep(n as int),
    decreases n,
{
    if n < 10 {
        let c = write_digit(n);
        push_char(out, c);
        proof {
            assert(old(out)@.push(c) =~= old(out)@ + dec_rep(n as int));
        }
    } else {
        append_dec(out, n / 10);
        let c = write_digit(n % 10);
        push_char(out, c);
        proof {
            assert((old(out)@ + dec_rep(n as int / 10)).push(c) =~= old(out)@ + dec_rep(n as int));
        }
    }
}

proof fn lemma_esc_str_snoc(s: Seq<char>, i: int)
    requires
        0 <= i < s.len(),
    ensures
        esc_str(s.take(i + 1)) == esc_str(s.take(i)) + esc_char(s[i]),
    decreases i,
{
    if i == 0 {
        assert(s.take(1)[0] == s[0]);
        assert(s.take(1).drop_first() =~= Seq::<char>::empty());
        assert(s.take(0) =~= Seq::<char>::empty());
        assert(esc_str(s.take(1)) =~= esc_str(s.take(0)) + esc_char(s[0]));
    } else {
        let u = s.drop_first();
        lemma_esc_str_snoc(u, i - 1);
        assert(s.take(i + 1)[0] == s[0]);
        assert(s.take(i + 1).drop_first() =~= u.take(i));
        assert(s.take(i)[0] == s[0]);
        assert(s.take(i).drop_first() =~= u.take(i - 1));
        assert(u[i - 1] == s[i]);
        assert(esc_char(s[0]) + (esc_str(u.take(i - 1)) + esc_char(s[i])) =~= (esc_char(s[0])
            + esc_str(u.take(i - 1))) + esc_char(s[i]));
    }
}

/// Appends the contents of `s`, escaped for a JSON string, to `out`.
fn append_escaped(out: &mut String, s: &str)
    ensures
        final(out)@ == old(out)@ + esc_str(s@),
{
    let n = s.unicode_len();
    let mut i: usize = 0;
    proof {
        assert(s@.take(0) =~= Seq::<char>::empty());
        assert(old(out)@ + esc_str(s@.take(0)) =~= old(out)@);
    }
    while i < n
        invariant
            0 <= i <= n,
            n == s@.len(),
            out@ == old(out)@ + esc_str(s@.take(i as int)),
        decreases n - i,
    {
        let c = s.get_char(i);
        proof {
            lemma_esc_str_snoc(s@, i as int);
        }
        if c == '"' {
            push_char(out, '\\');
            push_char(out, '"');
        } else if c == '\\' {
            push_char(out, '\\');
            push_char(out, '\\');
        } else if c == '\n' {
            push_char(out, '\\');
            push_char(out, 'n');
        } else if c == '\r' {
            push_char(out, '\\');
            push_char(out, 'r');
        } else if c == '\t' {
            push_char(out, '\\');
            push_char(out, 't');
        } else {
            push_char(out, c);
        }
        proof {
            assert(out@ =~= old(out)@ + esc_str(s@.take(i + 1)));
        }
        i = i + 1;
    }
    proof {
        assert(s@.take(n as int) =~= s@);
    }
}

/// Appends the contents of `s` as a JSON string, quotes and escapes
/// included, to `out`.
fn append_json_string(out: &mut String, s: &str)
    ensures
        final(out)@ == old(out)@ + json_string(s@),
{
    push_char(out, '"');
    append_escaped(out, s);
    push_char(out, '"');
    proof {
        assert(((old(out)@.push('"')) + esc_str(s@)).push('"') =~= old(out)@ + json_string(s@));
    }
}

/// Appends one record as a pretty-printed JSON object to `out`.
fn append_movie(out: &mut String, m: &Movie)
    ensures
        final(out)@ == old(out)@ + json_of_movie(m@),
{
    out.append("  {\n    \"disc\": ");
    append_dec(out, m.disc);
    out.append(",\n    \"year\": ");
    append_json_string(out, m.year.as_str());
    out.append(",\n    \"title\": ");
    append_json_string(out, m.title.as_str());
    out.append(",\n    \"remark\": ");
    match &m.remark {
        Some(r) => append_json_string(out, r.as_str()),
        None => out.append("null"),
    }
    out.append("\n  }");
    proof {
        assert(out@ =~= old(out)@ + json_of_movie(m@));
    }
}

/// Renders the record list as a pretty-printed JSON array: `[]` when the
/// list is empty, otherwise one object per record, in list order.
pub fn records_to_json(movies: &Vec<Movie>) -> (s: String)
    ensures
        s@ == json_of_records(movies@.map_values(|m: Movie| m@)),
{
    let ghost msv = movies@.map_values(|m: Movie| m@);
    if movies.len() == 0 {
        let s = String::from_str("[]");
        return s;
    }
    let mut out = String::from_str("[\n");
    append_movie(&mut out, &movies[0]);
    let mut i: usize = 1;
    proof {
        assert(msv.take(1).drop_first() =~= Seq::<MovieModel>::empty());
        assert(out@ =~= "[\n"@ + json_of_movie(msv[0]) + tail_join(msv.take(1).drop_first()));
    }
    while i < movies.len()
        invariant
            1 <= i <= movies.len(),
            msv == movies@.map_values(|m: Movie| m@),
            msv.len() == movies@.len(),
            out@ == "[\n"@ + json_of_movie(msv[0]) + tail_join(msv.take(i as int).drop_first()),
        decreases movies.len() - i,
    {
        out.append(",\n");
        append_movie(&mut out, &movies[i]);
        proof {
            lemma_tail_join_snoc(msv.take(i as int).drop_first(), msv[i as int]);
            assert(msv.take(i as int).drop_first().push(msv[i as int]) =~= msv.take(
                i + 1,
            ).drop_first());
            assert(out@ =~= "[\n"@ + json_of_movie(msv[0]) + tail_join(
                msv.take(i + 1).drop_first(),
            ));
        }
        i = i + 1;
    }
    out.append("\n]");
    proof {
        assert(msv.take(movies@.len() as int) =~= msv);
        assert(out@ =~= json_of_records(msv));
    }
    out
}

/// Consumes the exact literal `l` from the front of `s`.
pub open spec fn p_lit(l: Seq<char>, s: Seq<char>) -> Option<Seq<char>> {
    if l.len() <= s.len() && s.take(l.len() as int) == l {
        Some(s.skip(l.len() as int))
    } else {
        None
    }
}

/// The character an escape pair `\c` stands for, when `c` is one of the
/// five characters the encoder escapes.
pub open spec fn unesc_char(c: char) -> Option<char> {
    if c == '"' {
        Some('"')
    } else if c == '\\' {
        Some('\\')
    } else if c == 'n' {
        Some('\n')
    } else if c == 'r' {
        Some('\r')
    } else if c == 't' {
        Some('\t')
    } else {
        None
    }
}

/// Consumes the contents of a JSON string up to and including its closing
/// quote, undoing the escapes; yields the contents and what follows.
pub open spec fn p_string_body(s: Seq<char>) -> Option<(Seq<char>, Seq<char>)>
    decreases s.len(),
{
    if s.len() == 0 {
        None
    } else if s[0] == '"' {
        Some((Seq::empty(), s.drop_first()))
    } else if s[0] == '\\' {
        if s.len() < 2 {
            None
        } else {
            match unesc_char(s[1]) {
                Some(c) => match p_string_body(s.skip(2)) {
                    Some(r) => Some((seq![c] + r.0, r.1)),
                    None => None,
                },
                None => None,
            }
        }
    } else {
        match p_string_body(s.drop_first()) {
            Some(r) => Some((seq![s[0]] + r.0, r.1)),
            None => None,
        }
    }
}

/// Consumes a whole JSON string, opening quote included.
pub open spec fn p_string(s: Seq<char>) -> Option<(Seq<char>, Seq<char>)> {
    if s.len() > 0 && s[0] == '"' {
        p_string_body(s.drop_first())
    } else {
        None
    }
}

/// The length of the digit run at the front of `s`.
pub open spec fn digit_run(s: Seq<char>) -> int
    decreases s.len(),
{
    if s.len() > 0 && is_digit(s[0]) {
        1 + digit_run(s.drop_first())
    } else {
        0
    }
}

/// Consumes a decimal number that fits in a `u32`.
pub open spec fn p_number(s: Seq<char>) -> Option<(u32, Seq<char>)> {
    let k = digit_run(s);
    if k >= 1 && digits_value(s.take(k)) <= u32::MAX {
        Some((digits_value(s.take(k)) as u32, s.skip(k)))
    } else {
        None
    }
}

/// Consumes a remark value: a JSON string, or the literal `null` for an
/// absent remark.
pub open spec fn p_remark(s: Seq<char>) -> Option<(Option<Seq<char>>, Seq<char>)> {
    if s.len() > 0 && s[0] == '"' {
        match p_string(s) {
            Some(r) => Some((Some(r.0), r.1)),
            None => None,
        }
    } else {
        match p_lit("null"@, s) {
            Some(r) => Some((None, r)),
            None => None,
        }
    }
}

/// Consumes one record object, in exactly the layout the encoder emits.
pub open spec fn p_movie(s: Seq<char>) -> Option<(MovieModel, Seq<char>)> {
    match p_lit("  {\n    \"disc\": "@, s) {
        Some(s1) => match p_number(s1) {
            Some((d, s2)) => match p_lit(",\n    \"year\": "@, s2) {
                Some(s3) => match p_string(s3) {
                    Some((y, s4)) => match p_lit(",\n    \"title\": "@, s4) {
                        Some(s5) => match p_string(s5) {
                            Some((t, s6)) => match p_lit(",\n    \"remark\": "@, s6) {
                                Some(s7) => match p_remark(s7) {
                                    Some((rem, s8)) => match p_lit("\n  }"@, s8) {
                                        Some(s9) => Some(
                                            (
                                                MovieModel {
                                                    disc: d,
                                                    year: y,
                                                    title: t,
                                                    remark: rem,
                                                },
                                                s9,
                                            ),
                                        ),
                                        None => None,
                                    },
                                    None => None,
                                },
                                None => None,
                            },
                            None => None,
                        },
                        None => None,
                    },
                    None => None,
                },
                None => None,
            },
            None => None,
        },
        None => None,
    }
}

/// Consumes the remaining record objects, each preceded by a comma
/// separator, stopping at the first place no separator follows.
pub open spec fn p_more_entries(s: Seq<char>) -> Option<(Seq<MovieModel>, Seq<char>)>
    decreases s.len(),
{
    match p_lit(",\n"@, s) {
        None => Some((Seq::empty(), s)),
        Some(s1) => match p_movie(s1) {
            Some((m, s2)) => if s2.len() < s.len() {
                match p_more_entries(s2) {
                    Some((l, s3)) => Some((seq![m] + l, s3)),
                    None => None,
                }
            } else {
                None
            },
            None => None,
        },
    }
}

/// Parses a whole JSON document in the encoder's layout back into its
/// record list; any deviation yields `None`.
pub open spec fn p_records(s: Seq<char>) -> Option<Seq<MovieModel>> {
    if s == "[]"@ {
        Some(Seq::empty())
    } else {
        match p_lit("[\n"@, s) {
            Some(s1) => match p_movie(s1) {
                Some((m, s2)) => match p_more_entries(s2) {
                    Some((l, s3)) => if s3 == "\n]"@ {
                        Some(seq![m] + l)
                    } else {
                        None
                    },
                    None => None,
                },
                None => None,
            },
            None => None,
        }
    }
}

proof fn lemma_p_lit(l: Seq<char>, rest: Seq<char>)
    ensures
        p_lit(l, l + rest) == Some(rest),
{
    assert((l + rest).take(l.len() as int) =~= l);
    assert((l + rest).skip(l.len() as int) =~= rest);
}

proof fn lemma_p_string_body(x: Seq<char>, rest: Seq<char>)
    ensures
        p_string_body(esc_str(x) + seq!['"'] + rest) == Some((x, rest)),
    decreases x.len(),
{
    let s = esc_str(x) + seq!['"'] + rest;
    if x.len() == 0 {
        assert(esc_str(x) == Seq::<char>::empty());
        assert(s =~= seq!['"'] + rest);
        assert(s[0] == '"');
        assert(s.drop_first() =~= rest);
        assert(x =~= Seq::<char>::empty());
    } else {
        let c = x[0];
        let x1 = x.drop_first();
        lemma_p_string_body(x1, rest);
        assert(esc_str(x) == esc_char(c) + esc_str(x1));
        let tail = esc_str(x1) + seq!['"'] + rest;
        assert(seq![c] + x1 =~= x);
        if c == '"' || c == '\\' || c == '\n' || c == '\r' || c == '\t' {
            assert(esc_char(c).len() == 2 && esc_char(c)[0] == '\\');
            assert(s =~= seq!['\\', esc_char(c)[1]] + tail);
            assert(s[0] == '\\' && s.len() >= 2);
            assert(s[1] == esc_char(c)[1]);
            assert(unesc_char(s[1]) == Some(c));
            assert(s.skip(2) =~= tail);
        } else {
            assert(esc_char(c) == seq![c]);
            assert(s =~= seq![c] + tail);
            assert(s[0] == c && c != '"' && c != '\\');
            assert(s.drop_first() =~= tail);
        }
    }
}

proof fn lemma_dec_rep_digits(n: int)
    requires
        n >= 0,
    ensures
        dec_rep(n).len() >= 1,
        all_digits(dec_rep(n)),
        digits_value(dec_rep(n)) == n,
    decreases n,
{
    if n < 10 {
        assert(dec_rep(n) == seq![digit_char(n)]);
        assert(dec_rep(n).drop_last() =~= Seq::<char>::empty());
        assert(dec_rep(n).last() == digit_char(n));
        assert(digits_value(Seq::<char>::empty()) == 0);
        assert(digits_value(dec_rep(n)) == digit_val(digit_char(n)));
        assert(digit_val(digit_char(n)) == n);
        assert(is_digit(digit_char(n)));
        assert(all_digits(dec_rep(n)));
    } else {
        lemma_dec_rep_digits(n / 10);
        let p = dec_rep(n / 10);
        let c = digit_char(n % 10);
        assert(dec_rep(n) == p.push(c));
        assert(p.push(c).drop_last() =~= p);
        assert(p.push(c).last() == c);
        assert(digit_val(c) == n % 10);
        assert(digits_value(dec_rep(n)) == (n / 10) * 10 + n % 10);
        assert(is_digit(c));
        assert(forall|i: int| 0 <= i < p.len() ==> p.push(c)[i] == p[i]);
        assert(all_digits(dec_rep(n)));
    }
}

proof fn lemma_digit_run_concat(a: Seq<char>, b: Seq<char>)
    requires
        all_digits(a),
        b.len() == 0 || !is_digit(b[0]),
    ensures
        digit_run(a + b) == a.len(),
    decreases a.len(),
{
    if a.len() == 0 {
        assert(a + b =~= b);
    } else {
        assert((a + b)[0] == a[0]);
        assert(is_digit(a[0]));
        assert((a + b).drop_first() =~= a.drop_first() + b);
        assert(all_digits(a.drop_first()));
        lemma_digit_run_concat(a.drop_first(), b);
    }
}

proof fn lemma_p_number(n: u32, rest: Seq<char>)
    requires
        rest.len() == 0 || !is_digit(rest[0]),
    ensures
        p_number(dec_rep(n as int) + rest) == Some((n, rest)),
{
    lemma_dec_rep_digits(n as int);
    lemma_digit_run_concat(dec_rep(n as int), rest);
    let s = dec_rep(n as int) + rest;
    let k = digit_run(s);
    assert(k == dec_rep(n as int).len());
    assert(s.take(k) =~= dec_rep(n as int));
    assert(s.skip(k) =~= rest);
}

proof fn lemma_p_movie(m: MovieModel, rest: Seq<char>)
    ensures
        p_movie(json_of_movie(m) + rest) == Some((m, rest)),
{
    reveal_strlit("  {\n    \"disc\": ");
    reveal_strlit(",\n    \"year\": ");
    reveal_strlit(",\n    \"title\": ");
    reveal_strlit(",\n    \"remark\": ");
    reveal_strlit("\n  }");
    reveal_strlit("null");
    let s = json_of_movie(m) + rest;
    let dec = dec_rep(m.disc as int);
    let jy = json_string(m.year);
    let jt = json_string(m.title);
    let rem = match m.remark {
        Some(r) => json_string(r),
        None => "null"@,
    };
    let r9 = "\n  }"@ + rest;
    let r8 = rem + r9;
    let r7 = ",\n    \"remark\": "@ + r8;
    let r6 = jt + r7;
    let r5 = ",\n    \"title\": "@ + r6;
    let r4 = jy + r5;
    let r3 = ",\n    \"year\": "@ + r4;
    let r2 = dec + r3;
    assert(s =~= "  {\n    \"disc\": "@ + r2);
    lemma_p_lit("  {\n    \"disc\": "@, r2);
    assert(r3[0] == ',');
    lemma_p_number(m.disc, r3);
    lemma_p_lit(",\n    \"year\": "@, r4);
    assert(r4[0] == '"');
    assert(r4.drop_first() =~= esc_str(m.year) + seq!['"'] + r5);
    lemma_p_string_body(m.year, r5);
    lemma_p_lit(",\n    \"title\": "@, r6);
    assert(r6[0] == '"');
    assert(r6.drop_first() =~= esc_str(m.title) + seq!['"'] + r7);
    lemma_p_string_body(m.title, r7);
    lemma_p_lit(",\n    \"remark\": "@, r8);
    match m.remark {
        Some(r) => {
            assert(r8[0] == '"');
            assert(r8.drop_first() =~= esc_str(r) + seq!['"'] + r9);
            lemma_p_string_body(r, r9);
            assert(p_remark(r8) == Some((Some(r), r9)));
        },
        None => {
            assert(r8 =~= "null"@ + r9);
            assert(r8[0] == 'n');
            lemma_p_lit("null"@, r9);
            assert(p_remark(r8) == Some((None::<Seq<char>>, r9)));
        },
    }
    assert(r9 =~= "\n  }"@ + rest);
    lemma_p_lit("\n  }"@, rest);
}

proof fn lemma_p_more(ms: Seq<MovieModel>, rest: Seq<char>)
    requires
        rest.len() > 0,
        rest[0] != ',',
    ensures
        p_more_entries(tail_join(ms) + rest) == Some((ms, rest)),
    decreases ms.len(),
{
    reveal_strlit(",\n");
    let s = tail_join(ms) + rest;
    if ms.len() == 0 {
        assert(tail_join(ms) == Seq::<char>::empty());
        assert(s =~= rest);
        if 2 <= rest.len() && rest.take(2) == ",\n"@ {
            assert(rest.take(2)[0] == rest[0]);
            assert(false);
        }
        assert(p_lit(",\n"@, rest) is None);
        assert(ms =~= Seq::<MovieModel>::empty());
    } else {
        let entry = json_of_movie(ms[0]);
        let s2 = tail_join(ms.drop_first()) + rest;
        assert(tail_join(ms) == ",\n"@ + entry + tail_join(ms.drop_first()));
        assert(s =~= ",\n"@ + (entry + s2));
        lemma_p_lit(",\n"@, entry + s2);
        lemma_p_movie(ms[0], s2);
        assert(s.len() == 2 + entry.len() + s2.len());
        assert(s2.len() < s.len());
        lemma_p_more(ms.drop_first(), rest);
        assert(seq![ms[0]] + ms.drop_first() =~= ms);
    }
}

/// A parse result with `acc` prepended to the parsed contents.
pub open spec fn body_with_prefix(acc: Seq<char>, r: Option<(Seq<char>, Seq<char>)>) -> Option<
    (Seq<char>, Seq<char>),
> {
    match r {
        Some(p) => Some((acc + p.0, p.1)),
        None => None,
    }
}

/// Consumes the exact text of `lit` from `s` at position `pos`.
fn eat_lit(s: &str, pos: usize, lit: &str) -> (r: Option<usize>)
    requires
        pos <= s@.len(),
    ensures
        match r {
            Some(p2) => p2 == pos + lit@.len() && p2 <= s@.len() && p_lit(
                lit@,
                s@.skip(pos as int),
            ) == Some(s@.skip(p2 as int)),
            None => p_lit(lit@, s@.skip(pos as int)) is None,
        },
{
    let n = s.unicode_len();
    let k = lit.unicode_len();
    let ghost t = s@.skip(pos as int);
    if n - pos < k {
        return None;
    }
    let mut j: usize = 0;
    while j < k
        invariant
            0 <= j <= k,
            n == s@.len(),
            k == lit@.len(),
            pos + k <= n,
            t == s@.skip(pos as int),
            forall|x: int| 0 <= x < j ==> t[x] == lit@[x],
        decreases k - j,
    {
        if s.get_char(pos + j) != lit.get_char(j) {
            proof {
                assert(t[j as int] != lit@[j as int]);
                if t.take(k as int) == lit@ {
                    assert(t.take(k as int)[j as int] == lit@[j as int]);
                }
            }
            return None;
        }
        j = j + 1;
    }
    proof {
        assert(t.take(k as int) =~= lit@);
        assert(t.skip(k as int) =~= s@.skip(pos + k));
    }
    Some(pos + k)
}

/// The character an escape pair stands for, as [`unesc_char`] gives it.
fn unescape(c: char) -> (r: Option<char>)
    ensures
        r == unesc_char(c),
{
    if c == '"' {
        Some('"')
    } else if c == '\\' {
        Some('\\')
    } else if c == 'n' {
        Some('\n')
    } else if c == 'r' {
        Some('\r')
    } else if c == 't' {
        Some('\t')
    } else {
        None
    }
}

/// Reads a JSON string's contents from `pos` up to its closing quote,
/// undoing the escapes.
fn parse_string_body(s: &str, pos: usize) -> (r: Option<(String, usize)>)
    requires
        pos <= s@.len(),
    ensures
        match r {
            Some(p) => pos <= p.1 <= s@.len() && p_string_body(s@.skip(pos as int)) == Some(
                (p.0@, s@.skip(p.1 as int)),
            ),
            None => p_string_body(s@.skip(pos as int)) is None,
        },
{
    let n = s.unicode_len();
    let mut acc = String::new();
    let mut i: usize = pos;
    proof {
        assert(acc@ + p_string_body(s@.skip(pos as int)).unwrap().0 =~= p_string_body(
            s@.skip(pos as int),
        ).unwrap().0);
        assert(p_string_body(s@.skip(pos as int)) == body_with_prefix(
            acc@,
            p_string_body(s@.skip(pos as int)),
        ));
    }
    loop
        invariant
            pos <= i <= n,
            n == s@.len(),
            p_string_body(s@.skip(pos as int)) == body_with_prefix(
                acc@,
                p_string_body(s@.skip(i as int)),
            ),
        decreases n - i,
    {
        if i == n {
            proof {
                assert(s@.skip(i as int).len() == 0);
            }
            return None;
        }
        let c = s.get_char(i);
        let ghost t = s@.skip(i as int);
        proof {
            assert(t[0] == c);
            assert(t.drop_first() =~= s@.skip(i + 1));
        }
        if c == '"' {
            proof {
                assert(p_string_body(t) == Some((Seq::<char>::empty(), s@.skip(i + 1))));
                assert(acc@ + Seq::<char>::empty() =~= acc@);
            }
            return Some((acc, i + 1));
        }
        if c == '\\' {
            if i + 1 == n {
                proof {
                    assert(t.len() < 2);
                }
                return None;
            }
            let c2 = s.get_char(i + 1);
            proof {
                assert(t[1] == c2);
                assert(t.skip(2) =~= s@.skip(i + 2));
            }
            match unescape(c2) {
                Some(u) => {
                    let ghost acc0 = acc@;
                    push_char(&mut acc, u);
                    proof {
                        match p_string_body(s@.skip(i + 2)) {
                            Some(q) => {
                                assert(acc0 + (seq![u] + q.0) =~= acc@ + q.0);
                            },
                            None => {},
                        }
                    }
                    i = i + 2;
                },
                None => {
                    return None;
                },
            }
        } else {
            let ghost acc0 = acc@;
            push_char(&mut acc, c);
            proof {
                match p_string_body(s@.skip(i + 1)) {
                    Some(q) => {
                        assert(acc0 + (seq![c] + q.0) =~= acc@ + q.0);
                    },
                    None => {},
                }
            }
            i = i + 1;
        }
    }
}

/// Reads a whole JSON string at `pos`, opening quote included.
fn parse_string(s: &str, pos: usize) -> (r: Option<(String, usize)>)
    requires
        pos <= s@.len(),
    ensures
        match r {
            Some(p) => pos <= p.1 <= s@.len() && p_string(s@.skip(pos as int)) == Some(
                (p.0@, s@.skip(p.1 as int)),
            ),
            None => p_string(s@.skip(pos as int)) is None,
        },
{
    let n = s.unicode_len();
    if pos == n {
        return None;
    }
    let ghost t = s@.skip(pos as int);
    proof {
        assert(t[0] == s@[pos as int]);
        assert(t.drop_first() =~= s@.skip(pos + 1));
    }
    if s.get_char(pos) != '"' {
        return None;
    }
    parse_string_body(s, pos + 1)
}

/// Reads a decimal number at `pos`, refusing one that does not fit a
/// `u32`.
fn parse_number(s: &str, pos: usize) -> (r: Option<(u32, usize)>)
    requires
        pos <= s@.len(),
    ensures
        match r {
            Some(p) => pos <= p.1 <= s@.len() && p_number(s@.skip(pos as int)) == Some(
                (p.0, s@.skip(p.1 as int)),
            ),
            None => p_number(s@.skip(pos as int)) is None,
        },
{
    let n = s.unicode_len();
    let ghost t = s@.skip(pos as int);
    let mut acc: u32 = 0;
    let mut i: usize = pos;
    proof {
        assert(t.take(0) =~= Seq::<char>::empty());
        assert(digit_run(t) == (i - pos) + digit_run(s@.skip(i as int)));
    }
    while i < n && digit_check(s.get_char(i))
        invariant
            pos <= i <= n,
            n == s@.len(),
            t == s@.skip(pos as int),
            digit_run(t) == (i - pos) + digit_run(s@.skip(i as int)),
            forall|x: int| 0 <= x < i - pos ==> is_digit(t[x]),
            acc == digits_value(t.take(i - pos)),
        decreases n - i,
    {
        let c = s.get_char(i);
        let ghost u = s@.skip(i as int);
        proof {
            assert(u[0] == c);
            assert(u.drop_first() =~= s@.skip(i + 1));
            assert(digit_run(u) == 1 + digit_run(s@.skip(i + 1)));
            assert(t[i - pos] == c);
            crate::parse::lemma_digits_value_take_step(t, i - pos);
        }
        let d: u32 = c as u32 - '0' as u32;
        proof {
            assert(d == digit_val(c));
        }
        if acc > (u32::MAX - d) / 10 {
            // The run's value does not fit in a `u32`, so the document is
            // not one the encoder produced.
            proof {
                let k = digit_run(t);
                let j = i - pos;
                assert(digits_value(t.take(j + 1)) > u32::MAX);
                lemma_digit_run_digits(t);
                lemma_digit_run_digits(s@.skip(i + 1));
                assert(k >= j + 1);
                assert(forall|x: int| 0 <= x < t.take(k).len() ==> is_digit(t.take(k)[x]));
                assert(t.take(k).take(j + 1) =~= t.take(j + 1));
                crate::parse::lemma_digits_value_grows(t.take(k), j + 1);
                assert(digits_value(t.take(k)) > u32::MAX);
            }
            return None;
        }
        acc = acc * 10 + d;
        i = i + 1;
    }
    proof {
        let u = s@.skip(i as int);
        if i == n {
            assert(u.len() == 0);
            assert(digit_run(u) == 0);
        } else {
            assert(u[0] == s@[i as int]);
            assert(!is_digit(u[0]));
            assert(digit_run(u) == 0);
        }
        assert(digit_run(t) == i - pos);
    }
    if i == pos {
        return None;
    }
    proof {
        assert(t.skip(i - pos) =~= s@.skip(i as int));
    }
    Some((acc, i))
}

proof fn lemma_digit_run_digits(s: Seq<char>)
    ensures
        0 <= digit_run(s) <= s.len(),
        forall|x: int| 0 <= x < digit_run(s) ==> is_digit(s[x]),
    decreases s.len(),
{
    if s.len() > 0 && is_digit(s[0]) {
        lemma_digit_run_digits(s.drop_first());
        assert(forall|x: int| 1 <= x < digit_run(s) ==> is_digit(#[trigger] s[x])) by {
            assert(forall|x: int|
                1 <= x < digit_run(s) ==> #[trigger] s[x] == s.drop_first()[x - 1]);
        }
    }
}

/// Reads a remark value at `pos`: a JSON string, or `null`.
fn parse_remark(s: &str, pos: usize) -> (r: Option<(Option<String>, usize)>)
    requires
        pos <= s@.len(),
    ensures
        match r {
            Some(p) => pos <= p.1 <= s@.len() && p_remark(s@.skip(pos as int)) == Some(
                (
                    match p.0 {
                        Some(x) => Some(x@),
                        None => None,
                    },
                    s@.skip(p.1 as int),
                ),
            ),
            None => p_remark(s@.skip(pos as int)) is None,
        },
{
    let n = s.unicode_len();
    let ghost t = s@.skip(pos as int);
    let quoted = pos < n && s.get_char(pos) == '"';
    proof {
        if pos < n {
            assert(t[0] == s@[pos as int]);
        }
    }
    if quoted {
        match parse_string(s, pos) {
            Some((x, p2)) => Some((Some(x), p2)),
            None => None,
        }
    } else {
        match eat_lit(s, pos, "null") {
            Some(p2) => Some((None, p2)),
            None => None,
        }
    }
}

/// Reads one record object at `pos`, in exactly the encoder's layout.
fn parse_entry(s: &str, pos: usize) -> (r: Option<(Movie, usize)>)
    requires
        pos <= s@.len(),
    ensures
        match r {
            Some(p) => pos < p.1 <= s@.len() && p_movie(s@.skip(pos as int)) == Some(
                (p.0@, s@.skip(p.1 as int)),
            ),
            None => p_movie(s@.skip(pos as int)) is None,
        },
{
    proof {
        reveal_strlit("  {\n    \"disc\": ");
    }
    let p1 = match eat_lit(s, pos, "  {\n    \"disc\": ") {
        Some(p) => p,
        None => {
            return None;
        },
    };
    let (d, p2) = match parse_number(s, p1) {
        Some(p) => p,
        None => {
            return None;
        },
    };
    let p3 = match eat_lit(s, p2, ",\n    \"year\": ") {
        Some(p) => p,
        None => {
            return None;
        },
    };
    let (y, p4) = match parse_string(s, p3) {
        Some(p) => p,
        None => {
            return None;
        },
    };
    let p5 = match eat_lit(s, p4, ",\n    \"title\": ") {
        Some(p) => p,
        None => {
            return None;
        },
    };
    let (t, p6) = match parse_string(s, p5) {
        Some(p) => p,
        None => {
            return None;
        },
    };
    let p7 = match eat_lit(s, p6, ",\n    \"remark\": ") {
        Some(p) => p,
        None => {
            return None;
        },
    };
    let (rem, p8) = match parse_remark(s, p7) {
        Some(p) => p,
        None => {
            return None;
        },
    };
    let p9 = match eat_lit(s, p8, "\n  }") {
        Some(p) => p,
        None => {
            return None;
        },
    };
    Some((Movie { disc: d, year: y, title: t, remark: rem }, p9))
}

/// Parses a JSON document in the encoder's layout back into its record
/// list, returning `None` for any document that deviates from it.
#[verifier::rlimit(60)]
pub fn json_to_records(s: &str) -> (r: Option<Vec<Movie>>)
    ensures
        match r {
            Some(v) => p_records(s@) == Some(v@.map_values(|m: Movie| m@)),
            None => p_records(s@) is None,
        },
{
    let n = s.unicode_len();
    proof {
        reveal_strlit("[]");
        reveal_strlit("\n]");
    }
    let empty_doc = n == 2 && s.get_char(0) == '[' && s.get_char(1) == ']';
    if empty_doc {
        let movies: Vec<Movie> = Vec::new();
        proof {
            assert(s@ =~= "[]"@);
            assert(movies@.map_values(|m: Movie| m@) =~= Seq::<MovieModel>::empty());
        }
        return Some(movies);
    }
    proof {
        if s@ == "[]"@ {
            assert(s@.len() == 2);
            assert(s@[0] == '[');
            assert(s@[1] == ']');
            assert(false);
        }
    }
    let p1 = match eat_lit(s, 0, "[\n") {
        Some(p) => p,
        None => {
            proof {
                assert(s@.skip(0) =~= s@);
            }
            return None;
        },
    };
    proof {
        assert(s@.skip(0) =~= s@);
    }
    let (m0, p2) = match parse_entry(s, p1) {
        Some(p) => p,
        None => {
            return None;
        },
    };
    let ghost m0v = m0@;
    let mut movies: Vec<Movie> = Vec::new();
    movies.push(m0);
    let mut pos = p2;
    proof {
        assert(movies@.map_values(|m: Movie| m@) =~= seq![m0v]);
        assert(movies@.map_values(|m: Movie| m@).drop_first() =~= Seq::<MovieModel>::empty());
    }
    loop
        invariant
            p2 <= pos <= n,
            n == s@.len(),
            s@ != "[]"@,
            p_lit("[\n"@, s@) == Some(s@.skip(p1 as int)),
            p_movie(s@.skip(p1 as int)) == Some((m0v, s@.skip(p2 as int))),
            movies@.len() >= 1,
            movies@.map_values(|m: Movie| m@)[0] == m0v,
            match p_more_entries(s@.skip(pos as int)) {
                Some(q) => p_more_entries(s@.skip(p2 as int)) == Some(
                    (movies@.map_values(|m: Movie| m@).drop_first() + q.0, q.1),
                ),
                None => p_more_entries(s@.skip(p2 as int)) is None,
            },
        ensures
            p2 <= pos <= n,
            n == s@.len(),
            s@ != "[]"@,
            p_lit("[\n"@, s@) == Some(s@.skip(p1 as int)),
            p_movie(s@.skip(p1 as int)) == Some((m0v, s@.skip(p2 as int))),
            movies@.len() >= 1,
            movies@.map_values(|m: Movie| m@)[0] == m0v,
            p_lit(",\n"@, s@.skip(pos as int)) is None,
            match p_more_entries(s@.skip(pos as int)) {
                Some(q) => p_more_entries(s@.skip(p2 as int)) == Some(
                    (movies@.map_values(|m: Movie| m@).drop_first() + q.0, q.1),
                ),
                None => p_more_entries(s@.skip(p2 as int)) is None,
            },
        decreases n - pos,
    {
        let q1 = match eat_lit(s, pos, ",\n") {
            Some(p) => p,
            None => {
                break ;
            },
        };
        let (mi, q2) = match parse_entry(s, q1) {
            Some(p) => p,
            None => {
                return None;
            },
        };
        proof {
            assert(s@.skip(q2 as int).len() < s@.skip(pos as int).len());
            let tail0 = movies@.map_values(|m: Movie| m@).drop_first();
            match p_more_entries(s@.skip(q2 as int)) {
                Some(q) => {
                    assert(p_more_entries(s@.skip(pos as int)) == Some(
                        (seq![mi@] + q.0, q.1),
                    ));
                    assert(tail0 + (seq![mi@] + q.0) =~= (tail0.push(mi@)) + q.0);
                },
                None => {},
            }
            assert(movies@.push(mi).map_values(|m: Movie| m@) =~= movies@.map_values(
                |m: Movie| m@,
            ).push(mi@));
            assert(movies@.map_values(|m: Movie| m@).push(mi@).drop_first() =~= tail0.push(mi@));
        }
        movies.push(mi);
        pos = q2;
    }
    proof {
        reveal_strlit("[]");
        reveal_strlit("\n]");
        let tail0 = movies@.map_values(|m: Movie| m@).drop_first();
        assert(tail0 + Seq::<MovieModel>::empty() =~= tail0);
        assert(p_more_entries(s@.skip(p2 as int)) == Some((tail0, s@.skip(pos as int))));
    }
    let tail_ok = n - pos == 2 && s.get_char(pos) == '\n' && s.get_char(pos + 1) == ']';
    if tail_ok {
        proof {
            assert(s@.skip(pos as int) =~= "\n]"@);
            assert(seq![m0v] + movies@.map_values(|m: Movie| m@).drop_first() =~= movies@.map_values(
                |m: Movie| m@,
            ));
        }
        Some(movies)
    } else {
        proof {
            if s@.skip(pos as int) == "\n]"@ {
                assert(s@.skip(pos as int).len() == 2);
                assert(s@.skip(pos as int)[0] == s@[pos as int]);
                assert(s@.skip(pos as int)[1] == s@[pos + 1]);
                assert(false);
            }
        }
        None
    }
}

/// Round trip: parsing the JSON rendering of any record list yields that
/// same list, record for record and field for field.
pub proof fn lemma_json_round_trip(ms: Seq<MovieModel>)
    ensures
        p_records(json_of_records(ms)) == Some(ms),
{
    reveal_strlit("[]");
    reveal_strlit("[\n");
    reveal_strlit("\n]");
    let s = json_of_records(ms);
    if ms.len() == 0 {
        assert(s == "[]"@);
        assert(ms =~= Seq::<MovieModel>::empty());
    } else {
        let entry = json_of_movie(ms[0]);
        let tj = tail_join(ms.drop_first());
        assert(s == "[\n"@ + entry + tj + "\n]"@);
        assert(s[1] == '\n');
        assert("[]"@[1] == ']');
        assert(s != "[]"@);
        let r1 = entry + (tj + "\n]"@);
        assert(s =~= "[\n"@ + r1);
        lemma_p_lit("[\n"@, r1);
        lemma_p_movie(ms[0], tj + "\n]"@);
        assert("\n]"@.len() > 0 && "\n]"@[0] == '\n');
        lemma_p_more(ms.drop_first(), "\n]"@);
        assert(seq![ms[0]] + ms.drop_first() =~= ms);
    }
}

} // verus!
