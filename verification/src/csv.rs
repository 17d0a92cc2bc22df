//! The comma-separated text format of the command-line tools: lines split
//! on `'\n'`, each trimmed of Unicode whitespace, blank lines skipped,
//! fields split on `','` and trimmed. Integer files are parsed here; the
//! fields of floating-point files are handed out as text.
use vstd::prelude::*;
use crate::cli::{IntErrorKind, parse_unsigned, scan_digits, is_digit, digit_value};

verus! {

broadcast use vstd::seq_lib::group_seq_properties;

/// `char::is_whitespace`: the characters with the Unicode `White_Space`
/// property.
pub open spec fn is_whitespace(c: char) -> bool {
    ||| ('\u{9}' <= c && c <= '\u{d}')
    ||| c == ' '
    ||| c == '\u{85}'
    ||| c == '\u{a0}'
    ||| c == '\u{1680}'
    ||| ('\u{2000}' <= c && c <= '\u{200a}')
    ||| c == '\u{2028}'
    ||| c == '\u{2029}'
    ||| c == '\u{202f}'
    ||| c == '\u{205f}'
    ||| c == '\u{3000}'
}

/// `s` without its leading whitespace.
pub open spec fn trim_start(s: Seq<char>) -> Seq<char>
    decreases s.len(),
{
    if s.len() > 0 && is_whitespace(s[0]) {
        trim_start(s.drop_first())
    } else {
        s
    }
}

/// `s` without its trailing whitespace.
pub open spec fn trim_end(s: Seq<char>) -> Seq<char>
    decreases s.len(),
{
    if s.len() > 0 && is_whitespace(s.last()) {
        trim_end(s.drop_last())
    } else {
        s
    }
}

/// `str::trim`.
pub open spec fn trim(s: Seq<char>) -> Seq<char> {
    trim_end(trim_start(s))
}

/// `str::split(sep)`: the pieces between the separators, empty ones
/// included (an empty text gives one empty piece).
pub open spec fn split_on(s: Seq<char>, sep: char) -> Seq<Seq<char>>
    decreases s.len(),
{
    if s.len() == 0 {
        seq![Seq::empty()]
    } else {
        let head = split_on(s.drop_last(), sep);
        if s.last() == sep {
            head.push(Seq::empty())
        } else {
            head.update(head.len() - 1, head.last().push(s.last()))
        }
    }
}

/// Each piece trimmed.
pub open spec fn trim_all(pieces: Seq<Seq<char>>) -> Seq<Seq<char>> {
    Seq::new(pieces.len(), |i: int| trim(pieces[i]))
}

/// The non-empty pieces, in order.
pub open spec fn nonempty_only(pieces: Seq<Seq<char>>) -> Seq<Seq<char>>
    decreases pieces.len(),
{
    if pieces.len() == 0 {
        Seq::empty()
    } else {
        let head = nonempty_only(pieces.drop_last());
        if pieces.last().len() > 0 {
            head.push(pieces.last())
        } else {
            head
        }
    }
}

/// The lines of a text that hold more than whitespace, trimmed.
pub open spec fn csv_lines(text: Seq<char>) -> Seq<Seq<char>> {
    nonempty_only(trim_all(split_on(text, '\n')))
}

/// The trimmed fields of each such line.
pub open spec fn row_tokens(text: Seq<char>) -> Seq<Seq<Seq<char>>> {
    Seq::new(csv_lines(text).len(), |i: int| trim_all(split_on(csv_lines(text)[i], ',')))
}

/// The non-empty trimmed fields of the lines, line after line.
pub open spec fn flat_tokens_of(lines: Seq<Seq<char>>) -> Seq<Seq<char>>
    decreases lines.len(),
{
    if lines.len() == 0 {
        Seq::empty()
    } else {
        flat_tokens_of(lines.drop_last()) + nonempty_only(trim_all(split_on(lines.last(), ',')))
    }
}

/// The non-empty trimmed fields of a text, line after line.
pub open spec fn flat_tokens(text: Seq<char>) -> Seq<Seq<char>> {
    flat_tokens_of(csv_lines(text))
}

/// Each token parsed as a `usize`, or the error of the first that fails.
pub open spec fn parse_all(tokens: Seq<Seq<char>>) -> Result<Seq<usize>, IntErrorKind>
    decreases tokens.len(),
{
    if tokens.len() == 0 {
        Ok(Seq::empty())
    } else {
        match parse_all(tokens.drop_last()) {
            Err(k) => Err(k),
            Ok(head) => match parse_unsigned(tokens.last(), usize::MAX as nat) {
                Err(k) => Err(k),
                Ok(v) => Ok(head.push(v as usize)),
            },
        }
    }
}

/// Each row of tokens parsed, or the error of the first token that fails.
pub open spec fn parse_rows(rows: Seq<Seq<Seq<char>>>) -> Result<Seq<Seq<usize>>, IntErrorKind>
    decreases rows.len(),
{
    if rows.len() == 0 {
        Ok(Seq::empty())
    } else {
        match parse_rows(rows.drop_last()) {
            Err(k) => Err(k),
            Ok(head) => match parse_all(rows.last()) {
                Err(k) => Err(k),
                Ok(row) => Ok(head.push(row)),
            },
        }
    }
}

/// The characters of the text seen as character lists.
pub open spec fn char_views(v: Seq<Vec<char>>) -> Seq<Seq<char>> {
    Seq::new(v.len(), |i: int| v[i]@)
}

/// The pieces of `s` between the separators `sep`.
pub fn split_chars(s: &[char], sep: char) -> (out: Vec<Vec<char>>)
    ensures
        char_views(out@) == split_on(s@, sep),
{
    let mut out: Vec<Vec<char>> = Vec::new();
    let mut cur: Vec<char> = Vec::new();
    let mut i: usize = 0;
    proof {
        assert(s@.take(0) =~= Seq::<char>::empty());
        assert(char_views(out@).push(cur@) =~= split_on(s@.take(0), sep));
    }
    while i < s.len()
        invariant
            i <= s.len(),
            char_views(out@).push(cur@) == split_on(s@.take(i as int), sep),
        decreases s.len() - i,
    {
        let c = s[i];
        let ghost prev = s@.take(i as int);
        proof {
            assert(s@.take(i + 1).drop_last() =~= prev);
            assert(s@.take(i + 1).last() == c);
        }
        if c == sep {
            let done = cur;
            out.push(done);
            cur = Vec::new();
            proof {
                assert(char_views(out@).push(cur@) =~= split_on(prev, sep).push(Seq::empty()));
            }
        } else {
            let ghost before = char_views(out@).push(cur@);
            cur.push(c);
            proof {
                assert(char_views(out@).push(cur@) =~= before.update(
                    before.len() - 1,
                    before.last().push(c),
                ));
            }
        }
        i = i + 1;
    }
    out.push(cur);
    proof {
        assert(s@.take(s.len() as int) =~= s@);
    }
    out
}

proof fn lemma_trim_start_from(s: Seq<char>, a: int)
    requires
        0 <= a <= s.len(),
        forall|t: int| 0 <= t < a ==> is_whitespace(#[trigger] s[t]),
        a < s.len() ==> !is_whitespace(s[a]),
    ensures
        trim_start(s) == s.subrange(a, s.len() as int),
    decreases a,
{
    if a > 0 {
        let d = s.drop_first();
        assert forall|t: int| 0 <= t < a - 1 implies is_whitespace(#[trigger] d[t]) by {
            assert(d[t] == s[t + 1]);
        }
        lemma_trim_start_from(d, a - 1);
        assert(d.subrange(a - 1, d.len() as int) =~= s.subrange(a, s.len() as int));
    } else {
        assert(s.subrange(0, s.len() as int) =~= s);
    }
}

proof fn lemma_trim_end_to(s: Seq<char>, b: int)
    requires
        0 <= b <= s.len(),
        forall|t: int| b <= t < s.len() ==> is_whitespace(#[trigger] s[t]),
        b > 0 ==> !is_whitespace(s[b - 1]),
    ensures
        trim_end(s) == s.subrange(0, b),
    decreases s.len() - b,
{
    if b < s.len() {
        let d = s.drop_last();
        assert forall|t: int| b <= t < d.len() implies is_whitespace(#[trigger] d[t]) by {
            assert(d[t] == s[t]);
        }
        lemma_trim_end_to(d, b);
        assert(d.subrange(0, b) =~= s.subrange(0, b));
    } else {
        assert(s.subrange(0, b) =~= s);
    }
}

fn is_whitespace_char(c: char) -> (b: bool)
    ensures
        b == is_whitespace(c),
{
    ('\u{9}' <= c && c <= '\u{d}') || c == ' ' || c == '\u{85}' || c == '\u{a0}' || c == '\u{1680}'
        || ('\u{2000}' <= c && c <= '\u{200a}') || c == '\u{2028}' || c == '\u{2029}' || c
        == '\u{202f}' || c == '\u{205f}' || c == '\u{3000}'
}

/// `s` without leading and trailing whitespace.
pub fn trim_chars(s: &[char]) -> (out: Vec<char>)
    ensures
        out@ == trim(s@),
{
    let mut a: usize = 0;
    while a < s.len() && is_whitespace_char(s[a])
        invariant
            a <= s.len(),
            forall|t: int| 0 <= t < a ==> is_whitespace(#[trigger] s@[t]),
        decreases s.len() - a,
    {
        a = a + 1;
    }
    proof {
        lemma_trim_start_from(s@, a as int);
    }
    let ghost mid = s@.subrange(a as int, s.len() as int);
    let mut b: usize = s.len();
    while b > a && is_whitespace_char(s[b - 1])
        invariant
            a <= b <= s.len(),
            forall|t: int| b <= t < s.len() ==> is_whitespace(#[trigger] s@[t]),
        decreases b - a,
    {
        b = b - 1;
    }
    proof {
        assert forall|t: int| b - a <= t < mid.len() implies is_whitespace(#[trigger] mid[t]) by {
            assert(mid[t] == s@[t + a]);
        }
        if b > a {
            assert(mid[b - a - 1] == s@[b - 1]);
        }
        lemma_trim_end_to(mid, b - a);
        assert(mid.subrange(0, b - a) =~= s@.subrange(a as int, b as int));
    }
    let mut out: Vec<char> = Vec::new();
    let mut t: usize = a;
    while t < b
        invariant
            a <= t <= b <= s.len(),
            out@ == s@.subrange(a as int, t as int),
        decreases b - t,
    {
        out.push(s[t]);
        proof {
            assert(out@ =~= s@.subrange(a as int, t + 1));
        }
        t = t + 1;
    }
    out
}

/// Each piece trimmed.
fn trim_pieces(pieces: &Vec<Vec<char>>) -> (out: Vec<Vec<char>>)
    ensures
        char_views(out@) == trim_all(char_views(pieces@)),
{
    let mut out: Vec<Vec<char>> = Vec::new();
    let mut i: usize = 0;
    while i < pieces.len()
        invariant
            i <= pieces.len(),
            out.len() == i,
            forall|t: int| 0 <= t < i ==> (#[trigger] out@[t])@ == trim(pieces@[t]@),
        decreases pieces.len() - i,
    {
        let p = trim_chars(pieces[i].as_slice());
        out.push(p);
        i = i + 1;
    }
    proof {
        assert(char_views(out@) =~= trim_all(char_views(pieces@)));
    }
    out
}

/// The non-empty lines of `text`, trimmed.
pub fn csv_nonempty_lines(text: &[char]) -> (out: Vec<Vec<char>>)
    ensures
        char_views(out@) == csv_lines(text@),
{
    let pieces = split_chars(text, '\n');
    let trimmed = trim_pieces(&pieces);
    let ghost tv = char_views(trimmed@);
    let mut out: Vec<Vec<char>> = Vec::new();
    let mut i: usize = 0;
    while i < trimmed.len()
        invariant
            i <= trimmed.len(),
            tv == char_views(trimmed@),
            char_views(out@) == nonempty_only(tv.take(i as int)),
        decreases trimmed.len() - i,
    {
        proof {
            assert(tv.take(i + 1).drop_last() =~= tv.take(i as int));
            assert(tv.take(i + 1).last() == trimmed@[i as int]@);
        }
        if trimmed[i].len() > 0 {
            let line = trimmed[i].clone();
            proof {
                assert(line@ == trimmed@[i as int]@);
            }
            let ghost before = char_views(out@);
            out.push(line);
            proof {
                assert(char_views(out@) =~= before.push(line@));
            }
        }
        i = i + 1;
    }
    proof {
        assert(tv.take(trimmed.len() as int) =~= tv);
    }
    out
}

/// The trimmed fields of each non-blank line of `text` (the rows of a
/// comma-separated file).
pub fn csv_row_tokens(text: &[char]) -> (out: Vec<Vec<Vec<char>>>)
    ensures
        out.len() == row_tokens(text@).len(),
        forall|i: int| 0 <= i < out.len() ==> char_views(#[trigger] out@[i]@) == row_tokens(text@)[i],
{
    let lines = csv_nonempty_lines(text);
    let mut out: Vec<Vec<Vec<char>>> = Vec::new();
    let mut i: usize = 0;
    while i < lines.len()
        invariant
            i <= lines.len(),
            char_views(lines@) == csv_lines(text@),
            out.len() == i,
            forall|t: int| 0 <= t < i ==> char_views(#[trigger] out@[t]@) == row_tokens(text@)[t],
        decreases lines.len() - i,
    {
        let fields = split_chars(lines[i].as_slice(), ',');
        let row = trim_pieces(&fields);
        proof {
            assert(lines@[i as int]@ == csv_lines(text@)[i as int]);
        }
        out.push(row);
        i = i + 1;
    }
    out
}

/// The non-empty trimmed fields of `text`, line after line (the values of
/// a flat comma-separated file).
pub fn csv_flat_tokens(text: &[char]) -> (out: Vec<Vec<char>>)
    ensures
        char_views(out@) == flat_tokens(text@),
{
    let lines = csv_nonempty_lines(text);
    let ghost lv = char_views(lines@);
    let mut out: Vec<Vec<char>> = Vec::new();
    let mut i: usize = 0;
    while i < lines.len()
        invariant
            i <= lines.len(),
            lv == char_views(lines@),
            lv == csv_lines(text@),
            char_views(out@) == flat_tokens_of(lv.take(i as int)),
        decreases lines.len() - i,
    {
        let fields = split_chars(lines[i].as_slice(), ',');
        let trimmed = trim_pieces(&fields);
        let ghost tv = char_views(trimmed@);
        let ghost base = char_views(out@);
        let mut j: usize = 0;
        while j < trimmed.len()
            invariant
                j <= trimmed.len(),
                tv == char_views(trimmed@),
                char_views(out@) == base + nonempty_only(tv.take(j as int)),
            decreases trimmed.len() - j,
        {
            proof {
                assert(tv.take(j + 1).drop_last() =~= tv.take(j as int));
                assert(tv.take(j + 1).last() == trimmed@[j as int]@);
            }
            if trimmed[j].len() > 0 {
                let tok = trimmed[j].clone();
                proof {
                    assert(tok@ == trimmed@[j as int]@);
                }
                let ghost before = char_views(out@);
                out.push(tok);
                proof {
                    assert(char_views(out@) =~= before.push(tok@));
                    assert(base + nonempty_only(tv.take(j as int)).push(tok@) =~= (base + nonempty_only(
                        tv.take(j as int),
                    )).push(tok@));
                }
            }
            j = j + 1;
        }
        proof {
            assert(tv.take(trimmed.len() as int) =~= tv);
            assert(lv.take(i + 1).drop_last() =~= lv.take(i as int));
            assert(lv.take(i + 1).last() == lines@[i as int]@);
        }
        i = i + 1;
    }
    proof {
        assert(lv.take(lines.len() as int) =~= lv);
    }
    out
}

/// `str::parse::<usize>` of the characters `cs`.
pub fn parse_usize_chars(cs: &[char]) -> (r: Result<usize, IntErrorKind>)
    ensures
        match parse_unsigned(cs@, usize::MAX as nat) {
            Ok(v) => r == Ok::<usize, IntErrorKind>(v as usize),
            Err(k) => r == Err::<usize, IntErrorKind>(k),
        },
{
    let n = cs.len();
    if n == 0 {
        return Err(IntErrorKind::Empty);
    }
    let first = cs[0];
    if (first == '+' || first == '-') && n == 1 {
        return Err(IntErrorKind::InvalidDigit);
    }
    let mut i: usize = if first == '+' { 1 } else { 0 };
    let ghost start = i as int;
    let max: usize = usize::MAX;
    let mut acc: usize = 0;
    proof {
        assert(parse_unsigned(cs@, usize::MAX as nat) == scan_digits(cs@, start, 0, usize::MAX as nat));
    }
    while i < n
        invariant
            n == cs@.len(),
            i <= n,
            max == usize::MAX,
            parse_unsigned(cs@, usize::MAX as nat) == scan_digits(cs@, start, 0, usize::MAX as nat),
            scan_digits(cs@, start, 0, usize::MAX as nat) == scan_digits(
                cs@,
                i as int,
                acc as nat,
                usize::MAX as nat,
            ),
        decreases n - i,
    {
        let c = cs[i];
        if !('0' <= c && c <= '9') {
            return Err(IntErrorKind::InvalidDigit);
        }
        let d: usize = (c as u32 - 48) as usize;
        if acc > (max - d) / 10 {
            proof {
                assert(acc * 10 + d > max) by (nonlinear_arith)
                    requires
                        acc > (max - d) / 10,
                        d <= max,
                ;
            }
            return Err(IntErrorKind::PosOverflow);
        }
        proof {
            assert(acc * 10 + d <= max) by (nonlinear_arith)
                requires
                    acc <= (max - d) / 10,
                    d <= max,
            ;
            assert(is_digit(c) && digit_value(c) == d);
        }
        acc = acc * 10 + d;
        i = i + 1;
    }
    Ok(acc)
}

/// Each token parsed as a `usize`, or the error of the first that fails.
pub fn parse_usize_tokens(tokens: &Vec<Vec<char>>) -> (r: Result<Vec<usize>, IntErrorKind>)
    ensures
        match parse_all(char_views(tokens@)) {
            Ok(vals) => r matches Ok(v) && v@ == vals,
            Err(k) => r == Err::<Vec<usize>, IntErrorKind>(k),
        },
{
    let ghost tv = char_views(tokens@);
    let mut out: Vec<usize> = Vec::new();
    let mut i: usize = 0;
    while i < tokens.len()
        invariant
            i <= tokens.len(),
            tv == char_views(tokens@),
            parse_all(tv.take(i as int)) == Ok::<Seq<usize>, IntErrorKind>(out@),
        decreases tokens.len() - i,
    {
        proof {
            assert(tv.take(i + 1).drop_last() =~= tv.take(i as int));
            assert(tv.take(i + 1).last() == tokens@[i as int]@);
        }
        match parse_usize_chars(tokens[i].as_slice()) {
            Ok(v) => {
                out.push(v);
            },
            Err(k) => {
                proof {
                    lemma_parse_all_prefix_error(tv, i as int + 1);
                }
                return Err(k);
            },
        }
        i = i + 1;
    }
    proof {
        assert(tv.take(tokens.len() as int) =~= tv);
    }
    Ok(out)
}

/// An error among the first `i` tokens is the error of the whole list.
proof fn lemma_parse_all_prefix_error(tv: Seq<Seq<char>>, i: int)
    requires
        0 <= i <= tv.len(),
        parse_all(tv.take(i)) is Err,
    ensures
        parse_all(tv) == parse_all(tv.take(i)),
    decreases tv.len() - i,
{
    if i < tv.len() {
        assert(tv.take(i + 1).drop_last() =~= tv.take(i));
        lemma_parse_all_prefix_error(tv, i + 1);
    } else {
        assert(tv.take(i) =~= tv);
    }
}

/// An error among the first `i` rows is the error of the whole file.
proof fn lemma_parse_rows_prefix_error(rv: Seq<Seq<Seq<char>>>, i: int)
    requires
        0 <= i <= rv.len(),
        parse_rows(rv.take(i)) is Err,
    ensures
        parse_rows(rv) == parse_rows(rv.take(i)),
    decreases rv.len() - i,
{
    if i < rv.len() {
        assert(rv.take(i + 1).drop_last() =~= rv.take(i));
        lemma_parse_rows_prefix_error(rv, i + 1);
    } else {
        assert(rv.take(i) =~= rv);
    }
}

/// The rows of a comma-separated file of unsigned integers, or the error
/// of the first field that does not parse.
pub fn parse_csv_usize_rows(text: &[char]) -> (r: Result<Vec<Vec<usize>>, IntErrorKind>)
    ensures
        match parse_rows(row_tokens(text@)) {
            Ok(rows) => r matches Ok(v) && v.len() == rows.len() && forall|i: int|
                0 <= i < v.len() ==> (#[trigger] v@[i])@ == rows[i],
            Err(k) => r == Err::<Vec<Vec<usize>>, IntErrorKind>(k),
        },
{
    let rows = csv_row_tokens(text);
    let ghost rv = row_tokens(text@);
    let mut out: Vec<Vec<usize>> = Vec::new();
    let mut i: usize = 0;
    while i < rows.len()
        invariant
            i <= rows.len(),
            rv == row_tokens(text@),
            rows.len() == rv.len(),
            forall|t: int| 0 <= t < rows.len() ==> char_views(#[trigger] rows@[t]@) == rv[t],
            parse_rows(rv.take(i as int)) matches Ok(done) && done.len() == out.len() && forall|t: int|
                0 <= t < out.len() ==> (#[trigger] out@[t])@ == done[t],
        decreases rows.len() - i,
    {
        proof {
            assert(rv.take(i + 1).drop_last() =~= rv.take(i as int));
            assert(rv.take(i + 1).last() == rv[i as int]);
            assert(char_views(rows@[i as int]@) == rv[i as int]);
        }
        match parse_usize_tokens(&rows[i]) {
            Ok(vals) => {
                let ghost done = parse_rows(rv.take(i as int))->Ok_0;
                out.push(vals);
                proof {
                    let done1 = parse_rows(rv.take(i + 1))->Ok_0;
                    assert(done1 == done.push(vals@));
                }
            },
            Err(k) => {
                proof {
                    lemma_parse_rows_prefix_error(rv, i as int + 1);
                }
                return Err(k);
            },
        }
        i = i + 1;
    }
    proof {
        assert(rv.take(rows.len() as int) =~= rv);
    }
    Ok(out)
}

/// The values of a flat comma-separated file of unsigned integers (blank
/// fields skipped), or the error of the first value that does not parse.
pub fn parse_csv_flat_usize(text: &[char]) -> (r: Result<Vec<usize>, IntErrorKind>)
    ensures
        match parse_all(flat_tokens(text@)) {
            Ok(vals) => r matches Ok(v) && v@ == vals,
            Err(k) => r == Err::<Vec<usize>, IntErrorKind>(k),
        },
{
    let tokens = csv_flat_tokens(text);
    parse_usize_tokens(&tokens)
}

} // verus!
