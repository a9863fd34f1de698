//! Marked integer pairs, the line format the model answers in: each line
//! holds a first marker, an integer, a second marker and another integer
//! (`<|src_id|>3<|tgt_id|>4`, `<|id|>7<|level|>2`).

use vstd::prelude::*;
use crate::chars;
use crate::chars::{to_chars, trim, split_char, find_sub_from, slice_chars, parse_i64, i64_to_chars, append_chars, from_chars};

verus! {

/// The text after the first `m` in `s` up to the next `m` (or the end):
/// the second piece of `s.split(m)`, when `m` occurs at all.
pub open spec fn second_piece(s: Seq<char>, m: Seq<char>) -> Option<Seq<char>> {
    match chars::find_sub(s, m) {
        None => None,
        Some(k) => {
            let rest = s.skip(k + m.len());
            match chars::find_sub(rest, m) {
                None => Some(rest),
                Some(j) => Some(rest.take(j)),
            }
        },
    }
}

/// One answer line: split once at the first `m2`; the second piece of the
/// left part along `m1` and the whole right part, both trimmed, must parse
/// as `i64`.
pub open spec fn parse_line_spec(line: Seq<char>, m1: Seq<char>, m2: Seq<char>) -> Option<(i64, i64)> {
    if line.len() == 0 {
        None
    } else {
        match chars::find_sub(line, m2) {
            None => None,
            Some(k) => match second_piece(line.take(k), m1) {
                None => None,
                Some(a) => match (
                    chars::parse_i64_spec(chars::trim_spec(a)),
                    chars::parse_i64_spec(chars::trim_spec(line.skip(k + m2.len()))),
                ) {
                    (Some(x), Some(y)) => Some((x, y)),
                    _ => None,
                },
            },
        }
    }
}

/// The pairs of the lines that parse, in line order.
pub open spec fn lines_pairs(lines: Seq<Seq<char>>, m1: Seq<char>, m2: Seq<char>) -> Seq<(i64, i64)>
    decreases lines.len(),
{
    if lines.len() == 0 {
        seq![]
    } else {
        let prev = lines_pairs(lines.drop_last(), m1, m2);
        match parse_line_spec(lines.last(), m1, m2) {
            Some(p) => prev.push(p),
            None => prev,
        }
    }
}

/// All pairs of an answer: its trimmed text split at newlines, lines that
/// do not parse skipped.
pub open spec fn parse_pairs_spec(s: Seq<char>, m1: Seq<char>, m2: Seq<char>) -> Seq<(i64, i64)> {
    lines_pairs(chars::split_char_spec(chars::trim_spec(s), '\n'), m1, m2)
}

fn second_piece_exec(s: &Vec<char>, m: &Vec<char>) -> (r: Option<Vec<char>>)
    ensures
        r matches Some(v) ==> second_piece(s@, m@) == Some(v@),
        r is None ==> second_piece(s@, m@) is None,
{
    let found = find_sub_from(s, m, 0);
    match found {
        None => {
            assert(chars::find_sub(s@, m@) is None);
            None
        },
        Some(k) => {
            assert(chars::find_sub(s@, m@) == Some(k as int));
            assert(chars::occurs_at(s@, m@, k as int));
            let n = s.len();
            let ml = m.len();
            assert(k + ml <= n);
            let rest = slice_chars(s, k + ml, n);
            assert(rest@ =~= s@.skip(k + m@.len()));
            let found2 = find_sub_from(&rest, m, 0);
            match found2 {
                None => {
                    assert(chars::find_sub(rest@, m@) is None);
                    Some(rest)
                },
                Some(j) => {
                    assert(chars::find_sub(rest@, m@) == Some(j as int));
                    assert(chars::occurs_at(rest@, m@, j as int));
                    let piece = slice_chars(&rest, 0, j);
                    assert(piece@ =~= rest@.take(j as int));
                    Some(piece)
                },
            }
        },
    }
}

fn parse_line(line: &Vec<char>, m1: &Vec<char>, m2: &Vec<char>) -> (r: Option<(i64, i64)>)
    ensures
        r == parse_line_spec(line@, m1@, m2@),
{
    if line.len() == 0 {
        return None;
    }
    let found = find_sub_from(line, m2, 0);
    match found {
        None => {
            assert(chars::find_sub(line@, m2@) is None);
            None
        },
        Some(k) => {
            assert(chars::find_sub(line@, m2@) == Some(k as int));
            assert(chars::occurs_at(line@, m2@, k as int));
            let left = slice_chars(line, 0, k);
            let right = slice_chars(line, k + m2.len(), line.len());
            assert(left@ =~= line@.take(k as int));
            assert(right@ =~= line@.skip(k + m2@.len()));
            match second_piece_exec(&left, m1) {
                None => None,
                Some(a) => match (parse_i64(&trim(&a)), parse_i64(&trim(&right))) {
                    (Some(x), Some(y)) => Some((x, y)),
                    _ => None,
                },
            }
        },
    }
}

/// Parses every `m1 A m2 B` line of an answer into `(A, B)`.
pub fn parse_marked_pairs(s: &str, m1: &str, m2: &str) -> (r: Vec<(i64, i64)>)
    ensures
        r@ == parse_pairs_spec(s@, m1@, m2@),
{
    let m1c = to_chars(m1);
    let m2c = to_chars(m2);
    let lines = split_char(&trim(&to_chars(s)), '\n');
    let ghost ls = lines.deep_view();
    let mut out: Vec<(i64, i64)> = Vec::new();
    let mut i: usize = 0;
    while i < lines.len()
        invariant
            i <= lines.len(),
            ls == lines.deep_view(),
            out@ == lines_pairs(ls.take(i as int), m1@, m2@),
            m1c@ == m1@,
            m2c@ == m2@,
        decreases lines.len() - i,
    {
        assert(ls.take(i + 1).drop_last() =~= ls.take(i as int));
        assert(ls.take(i + 1).last() == lines[i as int]@);
        if lines[i].len() > 0 {
            match parse_line(&lines[i], &m1c, &m2c) {
                Some(p) => out.push(p),
                None => {},
            }
        }
        i = i + 1;
    }
    assert(ls.take(lines.len() as int) =~= ls);
    out
}

/// One rendered line: `m1`, the first value, `m2`, the second value.
pub open spec fn render_pair(p: (i64, i64), m1: Seq<char>, m2: Seq<char>) -> Seq<char> {
    m1 + chars::decimal_int(p.0 as int) + m2 + chars::decimal_int(p.1 as int)
}

/// Rendered pairs, one per line, joined by newlines.
pub open spec fn render_pairs_spec(ps: Seq<(i64, i64)>, m1: Seq<char>, m2: Seq<char>) -> Seq<char> {
    chars::join_spec(Seq::new(ps.len(), |i: int| render_pair(ps[i], m1, m2)), seq!['\n'])
}

/// Renders pairs as `m1 A m2 B` lines joined by newlines.
pub fn render_marked_pairs(ps: &[(i64, i64)], m1: &str, m2: &str) -> (r: String)
    ensures
        r@ == render_pairs_spec(ps@, m1@, m2@),
{
    let mut lines: Vec<Vec<char>> = Vec::new();
    let mut i: usize = 0;
    while i < ps.len()
        invariant
            i <= ps.len(),
            lines.deep_view() =~= Seq::new(i as nat, |k: int| render_pair(ps@[k], m1@, m2@)),
        decreases ps.len() - i,
    {
        let mut line = to_chars(m1);
        append_chars(&mut line, &i64_to_chars(ps[i].0));
        append_chars(&mut line, &to_chars(m2));
        append_chars(&mut line, &i64_to_chars(ps[i].1));
        let ghost before = lines.deep_view();
        assert(line.deep_view() =~= line@);
        lines.push(line);
        assert(lines.deep_view() =~= before.push(render_pair(ps@[i as int], m1@, m2@)));
        i = i + 1;
    }
    let mut sep: Vec<char> = Vec::new();
    sep.push('\n');
    assert(sep@ =~= seq!['\n']);
    let joined = chars::join(&lines, &sep);
    from_chars(joined.as_slice())
}

} // verus!
