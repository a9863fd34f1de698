//! Properties of the library that span calls or hold for every input.

use vstd::prelude::*;
use crate::eval::{fdist, ted_spec, sub_end, level_end, lab, rename_cost, min3};
use crate::chars::{
    decimal_int, decimal_nat, digits_value, all_digits, is_digit_spec, is_ws_spec, parse_i64_spec,
    parse_int_spec, trim_spec, trim_start_spec, trim_end_spec, join_spec, split_char_spec,
    index_of_char, find_from, find_sub, occurs_at, lemma_decimal_nat, lemma_index_of_char,
};
use crate::labels::{parse_pairs_spec, render_pairs_spec, render_pair, parse_line_spec, second_piece, lines_pairs};
use crate::truncation::{unalias_spec, merge_rules_spec};
use crate::merge::{candidates_ok, clear_after, clear_before};
use crate::block::WorkBlock;
use crate::visual::{image_scan, absorber, container_from, is_overlap_eligible_spec};
use crate::chars::replace_spec;
use crate::table::{TableModel, header_window, headers_from, headers_spec, rows_match, cells_match};
use crate::readers::{BlockView, key_le, insert_pos, sort_blocks_spec};
use crate::enrich::{chunk_fold, chunks_of};
use crate::tree::{CompView, ElemView, text_fold, text_step, text_components_spec, eff_level, block_end, forest, level_tree, lemma_block_end};
use crate::title::{LevelPair, label2_spec, nonneg_levels, pin_overlaps, append_new, avg_bias, find_id, lemma_find_id};
use crate::chunk::{
    insert_unique, distinct_pages, strictly_ascending, positions_of, grouped, window, plan_prefix,
    chunk_plan_spec, range_start, boundaries_from, next_boundary, densest, first_above,
    lemma_densest_in_window, lemma_first_above, lemma_between_ends, page_span,
};

verus! {

proof fn lemma_fdist_nonneg(t1: Seq<(Seq<char>, i64)>, t2: Seq<(Seq<char>, i64)>, i1: int, j1: int, i2: int, j2: int)
    ensures
        fdist(t1, t2, i1, j1, i2, j2) >= 0,
    decreases (if j1 > i1 { j1 - i1 } else { 0 }) + (if j2 > i2 { j2 - i2 } else { 0 }),
{
    if i1 >= j1 && i2 >= j2 {
    } else if i2 >= j2 {
        lemma_fdist_nonneg(t1, t2, i1 + 1, j1, i2, j2);
    } else if i1 >= j1 {
        lemma_fdist_nonneg(t1, t2, i1, j1, i2 + 1, j2);
    } else {
        let s1 = if sub_end(t1, i1) < j1 && sub_end(t1, i1) > i1 { sub_end(t1, i1) } else { j1 };
        let s2 = if sub_end(t2, i2) < j2 && sub_end(t2, i2) > i2 { sub_end(t2, i2) } else { j2 };
        lemma_fdist_nonneg(t1, t2, i1 + 1, j1, i2, j2);
        lemma_fdist_nonneg(t1, t2, i1, j1, i2 + 1, j2);
        if s1 == j1 && s2 == j2 {
            lemma_fdist_nonneg(t1, t2, i1 + 1, j1, i2 + 1, j2);
        } else {
            lemma_fdist_nonneg(t1, t2, s1, j1, s2, j2);
            lemma_fdist_nonneg(t1, t2, i1, s1, i2, s2);
        }
    }
}

proof fn lemma_fdist_self(t: Seq<(Seq<char>, i64)>, i: int, j: int)
    ensures
        fdist(t, t, i, j, i, j) == 0,
    decreases (if j > i { j - i } else { 0 }) * 2,
{
    if i < j {
        let s = if sub_end(t, i) < j && sub_end(t, i) > i { sub_end(t, i) } else { j };
        lemma_fdist_nonneg(t, t, i + 1, j, i, j);
        lemma_fdist_nonneg(t, t, i, j, i + 1, j);
        if s == j {
            lemma_fdist_self(t, i + 1, j);
        } else {
            lemma_fdist_self(t, s, j);
            lemma_fdist_self(t, i, s);
        }
    }
}

/// A title tree is at distance zero from itself.
pub proof fn law_ted_identity(t: Seq<(Seq<char>, i64)>)
    ensures
        ted_spec(t, t) == 0,
{
    lemma_fdist_self(t, 0, t.len() + 1int);
}

proof fn lemma_fdist_symmetric(
    t1: Seq<(Seq<char>, i64)>,
    t2: Seq<(Seq<char>, i64)>,
    i1: int,
    j1: int,
    i2: int,
    j2: int,
)
    ensures
        fdist(t1, t2, i1, j1, i2, j2) == fdist(t2, t1, i2, j2, i1, j1),
    decreases (if j1 > i1 { j1 - i1 } else { 0 }) + (if j2 > i2 { j2 - i2 } else { 0 }),
{
    if i1 >= j1 && i2 >= j2 {
    } else if i2 >= j2 {
        lemma_fdist_symmetric(t1, t2, i1 + 1, j1, i2, j2);
    } else if i1 >= j1 {
        lemma_fdist_symmetric(t1, t2, i1, j1, i2 + 1, j2);
    } else {
        let s1 = if sub_end(t1, i1) < j1 && sub_end(t1, i1) > i1 { sub_end(t1, i1) } else { j1 };
        let s2 = if sub_end(t2, i2) < j2 && sub_end(t2, i2) > i2 { sub_end(t2, i2) } else { j2 };
        lemma_fdist_symmetric(t1, t2, i1 + 1, j1, i2, j2);
        lemma_fdist_symmetric(t1, t2, i1, j1, i2 + 1, j2);
        assert(rename_cost(lab(t1, i1), lab(t2, i2)) == rename_cost(lab(t2, i2), lab(t1, i1)));
        if s1 == j1 && s2 == j2 {
            lemma_fdist_symmetric(t1, t2, i1 + 1, j1, i2 + 1, j2);
        } else {
            lemma_fdist_symmetric(t1, t2, s1, j1, s2, j2);
            lemma_fdist_symmetric(t1, t2, i1, s1, i2, s2);
        }
    }
}

/// The tree edit distance does not depend on the order of its arguments.
pub proof fn law_ted_symmetric(a: Seq<(Seq<char>, i64)>, b: Seq<(Seq<char>, i64)>)
    ensures
        ted_spec(a, b) == ted_spec(b, a),
{
    lemma_fdist_symmetric(a, b, 0, a.len() + 1int, 0, b.len() + 1int);
}


/// The characters of a decimal rendering: a leading `-` or digits.
proof fn lemma_decimal_chars(v: int)
    ensures
        decimal_int(v).len() > 0,
        forall|i: int| 0 <= i < decimal_int(v).len() ==> (#[trigger] decimal_int(v)[i] == '-' && i == 0 && v < 0) || is_digit_spec(decimal_int(v)[i]),
        is_digit_spec(decimal_int(v).last()),
{
    if v < 0 {
        lemma_decimal_nat((-v) as nat);
        let d = decimal_nat((-v) as nat);
        let s = decimal_int(v);
        assert(s =~= seq!['-'] + d);
        assert forall|i: int| 0 <= i < s.len() implies (#[trigger] s[i] == '-' && i == 0 && v < 0) || is_digit_spec(s[i]) by {
            if i > 0 {
                assert(s[i] == d[i - 1]);
            }
        }
        assert(s.last() == d.last());
    } else {
        lemma_decimal_nat(v as nat);
    }
}

/// A decimal rendering parses back to its value.
proof fn lemma_decimal_parses(v: i64)
    ensures
        parse_i64_spec(decimal_int(v as int)) == Some(v),
        trim_spec(decimal_int(v as int)) == decimal_int(v as int),
{
    let d = decimal_int(v as int);
    lemma_decimal_chars(v as int);
    if v < 0 {
        let n = (-(v as int)) as nat;
        lemma_decimal_nat(n);
        assert(d.drop_first() =~= decimal_nat(n));
        assert(parse_int_spec(d) == Some(v as int));
    } else {
        lemma_decimal_nat(v as nat);
        assert(d[0] != '+' && d[0] != '-');
        assert(parse_int_spec(d) == Some(v as int));
    }
    assert(!is_ws_spec(d[0]));
    assert(!is_ws_spec(d.last()));
    assert(trim_start_spec(d) == d);
}

/// Where a pattern occurs first.
proof fn lemma_first_occurrence(s: Seq<char>, p: Seq<char>, k: int, i: int)
    requires
        0 <= i <= k,
        occurs_at(s, p, k),
        forall|j: int| i <= j < k ==> !#[trigger] occurs_at(s, p, j),
    ensures
        find_from(s, p, i) == Some(k),
    decreases k - i,
{
    if i < k {
        lemma_first_occurrence(s, p, k, i + 1);
    }
}

/// A pattern that occurs nowhere is not found.
proof fn lemma_no_occurrence(s: Seq<char>, p: Seq<char>, i: int)
    requires
        0 <= i,
        forall|j: int| i <= j ==> !#[trigger] occurs_at(s, p, j),
    ensures
        find_from(s, p, i) is None,
    decreases s.len() - i,
{
    if !(i + p.len() > s.len()) && i < s.len() {
        lemma_no_occurrence(s, p, i + 1);
    }
}

/// The marker shapes the line format relies on: each starts with `<` and
/// holds no other `<`, neither holds a newline, and the second marker does
/// not start the first.
pub open spec fn markers_ok(m1: Seq<char>, m2: Seq<char>) -> bool {
    &&& m1.len() > 0 && m2.len() > 0
    &&& m1[0] == '<' && m2[0] == '<'
    &&& forall|i: int| 0 < i < m1.len() ==> #[trigger] m1[i] != '<' && m1[i] != '\n'
    &&& forall|i: int| 0 < i < m2.len() ==> #[trigger] m2[i] != '<' && m2[i] != '\n'
    &&& exists|i: int| 0 <= i < m1.len() && i < m2.len() && m1[i] != m2[i]
}

/// A rendered line parses back to its pair.
proof fn lemma_line_round_trip(p: (i64, i64), m1: Seq<char>, m2: Seq<char>)
    requires
        markers_ok(m1, m2),
    ensures
        parse_line_spec(render_pair(p, m1, m2), m1, m2) == Some(p),
{
    let d0 = decimal_int(p.0 as int);
    let d1 = decimal_int(p.1 as int);
    lemma_decimal_chars(p.0 as int);
    lemma_decimal_chars(p.1 as int);
    lemma_decimal_parses(p.0);
    lemma_decimal_parses(p.1);
    let line = render_pair(p, m1, m2);
    let k: int = (m1.len() + d0.len()) as int;
    assert(line =~= m1 + d0 + m2 + d1);
    assert(line.subrange(k, k + m2.len() as int) =~= m2);
    assert(occurs_at(line, m2, k));
    assert forall|j: int| 0 <= j < k implies !#[trigger] occurs_at(line, m2, j) by {
        if occurs_at(line, m2, j) {
            assert(line.subrange(j, j + m2.len())[0] == m2[0]);
            assert(line[j] == '<');
            if j == 0 {
                let i = choose|i: int| 0 <= i < m1.len() && i < m2.len() && m1[i] != m2[i];
                assert(line.subrange(0, m2.len() as int)[i] == m2[i]);
                assert(line[i] == m1[i]);
            } else if j < m1.len() {
                assert(line[j] == m1[j]);
            } else {
                assert(line[j] == d0[j - m1.len()]);
            }
        }
    }
    lemma_first_occurrence(line, m2, k, 0);
    let left = line.take(k);
    assert(left =~= m1 + d0);
    assert(left.subrange(0, m1.len() as int) =~= m1);
    lemma_first_occurrence(left, m1, 0, 0);
    let rest = left.skip(m1.len() as int);
    assert(rest =~= d0);
    assert forall|j: int| 0 <= j implies !#[trigger] occurs_at(rest, m1, j) by {
        if occurs_at(rest, m1, j) {
            assert(rest.subrange(j, j + m1.len())[0] == m1[0]);
        }
    }
    lemma_no_occurrence(rest, m1, 0);
    assert(second_piece(left, m1) == Some(d0));
    assert(line.skip(k + m2.len() as int) =~= d1);
}

/// Joining at the front: the first item, the separator, the rest joined.
proof fn lemma_join_front(x: Seq<char>, r: Seq<Seq<char>>, sep: Seq<char>)
    requires
        r.len() >= 1,
    ensures
        join_spec(seq![x] + r, sep) == x + sep + join_spec(r, sep),
    decreases r.len(),
{
    let xs = seq![x] + r;
    if r.len() == 1 {
        assert(xs.drop_last() =~= seq![x]);
        assert(join_spec(seq![x], sep) == x);
        assert(join_spec(r, sep) == r[0]);
        assert(xs.last() == r[0]);
        assert(join_spec(xs, sep) == join_spec(xs.drop_last(), sep) + sep + xs.last());
    } else {
        lemma_join_front(x, r.drop_last(), sep);
        assert(xs.drop_last() =~= seq![x] + r.drop_last());
        assert(xs.last() == r.last());
        assert(join_spec(xs, sep) == join_spec(xs.drop_last(), sep) + sep + xs.last());
        assert(join_spec(r, sep) == join_spec(r.drop_last(), sep) + sep + r.last());
        assert(x + sep + join_spec(r.drop_last(), sep) + sep + r.last() =~= x + sep + (join_spec(r.drop_last(), sep) + sep + r.last()));
    }
}

/// Splitting at the first newline.
proof fn lemma_split_front(a: Seq<char>, b: Seq<char>)
    requires
        forall|i: int| 0 <= i < a.len() ==> #[trigger] a[i] != '\n',
    ensures
        split_char_spec(a + seq!['\n'] + b, '\n') == seq![a] + split_char_spec(b, '\n'),
{
    let s = a + seq!['\n'] + b;
    assert forall|k: int| 0 <= k < a.len() implies s[k] != '\n' by {
        assert(s[k] == a[k]);
    }
    lemma_index_of_char(s, '\n', a.len() as int);
    assert(s.take(a.len() as int) =~= a);
    assert(s.skip(a.len() + 1int) =~= b);
}

/// Splitting the joined lines gives the lines back.
proof fn lemma_split_join(ls: Seq<Seq<char>>)
    requires
        ls.len() >= 1,
        forall|k: int, i: int| 0 <= k < ls.len() && 0 <= i < ls[k].len() ==> #[trigger] ls[k][i] != '\n',
    ensures
        split_char_spec(join_spec(ls, seq!['\n']), '\n') == ls,
    decreases ls.len(),
{
    if ls.len() == 1 {
        let x = ls[0];
        assert forall|i: int| 0 <= i < x.len() implies x[i] != '\n' by {
            assert(ls[0][i] != '\n');
        }
        lemma_index_of_char(x, '\n', x.len() as int);
        assert(ls =~= seq![x]);
    } else {
        let x = ls[0];
        let r = ls.drop_first();
        assert(ls =~= seq![x] + r);
        lemma_join_front(x, r, seq!['\n']);
        assert forall|i: int| 0 <= i < x.len() implies #[trigger] x[i] != '\n' by {
            assert(ls[0][i] != '\n');
        }
        assert forall|k: int, i: int| 0 <= k < r.len() && 0 <= i < r[k].len() implies #[trigger] r[k][i] != '\n' by {
            assert(r[k] == ls[k + 1]);
        }
        lemma_split_join(r);
        assert(x + seq!['\n'] + join_spec(r, seq!['\n']) == x + seq!['\n'] + join_spec(r, seq!['\n']));
        lemma_split_front(x, join_spec(r, seq!['\n']));
    }
}

/// The first and last characters of joined non-empty lines.
proof fn lemma_join_ends(ls: Seq<Seq<char>>, sep: Seq<char>)
    requires
        ls.len() >= 1,
        forall|k: int| 0 <= k < ls.len() ==> (#[trigger] ls[k]).len() > 0,
    ensures
        join_spec(ls, sep).len() > 0,
        join_spec(ls, sep)[0] == ls[0][0],
        join_spec(ls, sep).last() == ls.last().last(),
    decreases ls.len(),
{
    if ls.len() > 1 {
        lemma_join_ends(ls.drop_last(), sep);
        assert(ls.drop_last()[0] == ls[0]);
        let j = join_spec(ls.drop_last(), sep);
        assert((j + sep + ls.last())[0] == j[0]);
    }
}

proof fn lemma_lines_pairs(ps: Seq<(i64, i64)>, m1: Seq<char>, m2: Seq<char>)
    requires
        markers_ok(m1, m2),
    ensures
        lines_pairs(Seq::new(ps.len(), |i: int| render_pair(ps[i], m1, m2)), m1, m2) == ps,
    decreases ps.len(),
{
    if ps.len() > 0 {
        let ls = Seq::new(ps.len(), |i: int| render_pair(ps[i], m1, m2));
        assert(ls.drop_last() =~= Seq::new(ps.drop_last().len(), |i: int| render_pair(ps.drop_last()[i], m1, m2)));
        lemma_lines_pairs(ps.drop_last(), m1, m2);
        lemma_line_round_trip(ps.last(), m1, m2);
        assert(ps.drop_last().push(ps.last()) =~= ps);
    }
}

/// Rendered pairs parse back to the same pairs.
proof fn lemma_pairs_round_trip(ps: Seq<(i64, i64)>, m1: Seq<char>, m2: Seq<char>)
    requires
        markers_ok(m1, m2),
    ensures
        parse_pairs_spec(render_pairs_spec(ps, m1, m2), m1, m2) == ps,
{
    let ls = Seq::new(ps.len(), |i: int| render_pair(ps[i], m1, m2));
    let text = render_pairs_spec(ps, m1, m2);
    if ps.len() == 0 {
        assert(text.len() == 0);
        assert(trim_spec(text) =~= text);
        lemma_index_of_char(text, '\n', 0);
        assert(split_char_spec(text, '\n') =~= seq![text]);
        assert(seq![text].drop_last() =~= Seq::<Seq<char>>::empty());
        assert(parse_line_spec(text, m1, m2) is None);
        assert(lines_pairs(Seq::<Seq<char>>::empty(), m1, m2) =~= Seq::<(i64, i64)>::empty());
        assert(seq![text].last() == text);
        assert(lines_pairs(seq![text], m1, m2) =~= Seq::<(i64, i64)>::empty());
        assert(ps =~= Seq::<(i64, i64)>::empty());
    } else {
        assert forall|k: int| 0 <= k < ls.len() implies (#[trigger] ls[k]).len() > 0 && ls[k][0] == '<' && is_digit_spec(ls[k].last()) by {
            lemma_decimal_chars(ps[k].1 as int);
            let d1 = decimal_int(ps[k].1 as int);
            assert(ls[k] =~= m1 + decimal_int(ps[k].0 as int) + m2 + d1);
            assert(ls[k].last() == d1.last());
        }
        assert forall|k: int, i: int| 0 <= k < ls.len() && 0 <= i < ls[k].len() implies #[trigger] ls[k][i] != '\n' by {
            let d0 = decimal_int(ps[k].0 as int);
            let d1 = decimal_int(ps[k].1 as int);
            lemma_decimal_chars(ps[k].0 as int);
            lemma_decimal_chars(ps[k].1 as int);
            assert(ls[k] =~= m1 + d0 + m2 + d1);
            if i < m1.len() {
                assert(ls[k][i] == m1[i]);
            } else if i < m1.len() + d0.len() {
                assert(ls[k][i] == d0[i - m1.len()]);
            } else if i < m1.len() + d0.len() + m2.len() {
                assert(ls[k][i] == m2[i - m1.len() - d0.len()]);
            } else {
                assert(ls[k][i] == d1[i - m1.len() - d0.len() - m2.len()]);
            }
        }
        lemma_join_ends(ls, seq!['\n']);
        assert(!is_ws_spec(text[0]));
        assert(!is_ws_spec(text.last()));
        assert(trim_start_spec(text) == text);
        assert(trim_spec(text) == text);
        lemma_split_join(ls);
        lemma_lines_pairs(ps, m1, m2);
    }
}

/// The truncation answer format: the pairs written by the output
/// serializer are exactly the pairs the answer parser reads back.
pub proof fn law_contd_pairs_round_trip(ps: Seq<(i64, i64)>)
    ensures
        parse_pairs_spec(render_pairs_spec(ps, "<|src_id|>"@, "<|tgt_id|>"@), "<|src_id|>"@, "<|tgt_id|>"@) == ps,
{
    reveal_strlit("<|src_id|>");
    reveal_strlit("<|tgt_id|>");
    let m1 = "<|src_id|>"@;
    let m2 = "<|tgt_id|>"@;
    assert(m1[2] != m2[2]);
    assert(markers_ok(m1, m2));
    lemma_pairs_round_trip(ps, m1, m2);
}

/// All levels are non-negative.
pub open spec fn all_nonneg(ls: Seq<LevelPair>) -> bool {
    forall|i: int| 0 <= i < ls.len() ==> #[trigger] ls[i].level >= 0
}

proof fn lemma_nonneg_keeps(ps: Seq<(i64, i64)>)
    requires
        forall|i: int| 0 <= i < ps.len() ==> #[trigger] ps[i].1 >= 0,
    ensures
        nonneg_levels(ps) == Seq::new(ps.len(), |i: int| LevelPair { id: ps[i].0, level: ps[i].1 }),
    decreases ps.len(),
{
    if ps.len() > 0 {
        lemma_nonneg_keeps(ps.drop_last());
        assert(ps.drop_last().len() == ps.len() - 1);
        assert(nonneg_levels(ps) =~= Seq::new(ps.len(), |i: int| LevelPair { id: ps[i].0, level: ps[i].1 }));
    }
}

/// The title answer format: levels written by the output serializer are
/// read back unchanged by the label parser, when none is negative (the
/// parser drops negative levels).
pub proof fn law_title_levels_round_trip(ls: Seq<LevelPair>)
    requires
        all_nonneg(ls),
    ensures
        label2_spec(render_pairs_spec(ls.map_values(|p: LevelPair| (p.id, p.level)), "<|id|>"@, "<|level|>"@)) == ls,
{
    reveal_strlit("<|id|>");
    reveal_strlit("<|level|>");
    let m1 = "<|id|>"@;
    let m2 = "<|level|>"@;
    assert(m1[2] != m2[2]);
    assert(markers_ok(m1, m2));
    let ps = ls.map_values(|p: LevelPair| (p.id, p.level));
    lemma_pairs_round_trip(ps, m1, m2);
    lemma_nonneg_keeps(ps);
    assert(Seq::new(ps.len(), |i: int| LevelPair { id: ps[i].0, level: ps[i].1 }) =~= ls);
}


proof fn lemma_insert_unique_props(u: Seq<i64>, p: i64)
    requires
        strictly_ascending(u),
    ensures
        strictly_ascending(insert_unique(u, p)),
        forall|x: i64| #[trigger] insert_unique(u, p).contains(x) <==> (u.contains(x) || x == p),
    decreases u.len(),
{
    let r = insert_unique(u, p);
    if u.len() == 0 {
        assert(r =~= seq![p]);
        assert forall|x: i64| #[trigger] r.contains(x) <==> (u.contains(x) || x == p) by {
            if x == p {
                assert(r[0] == p);
            }
        }
    } else if p < u[0] {
        assert(r =~= seq![p] + u);
        assert forall|i: int, j: int| 0 <= i < j < r.len() implies r[i] < r[j] by {
            if i > 0 {
                assert(r[i] == u[i - 1] && r[j] == u[j - 1]);
            } else {
                assert(r[j] == u[j - 1]);
                if j - 1 > 0 {
                    assert(u[0] < u[j - 1]);
                }
            }
        }
        assert forall|x: i64| #[trigger] r.contains(x) <==> (u.contains(x) || x == p) by {
            if r.contains(x) {
                let i = choose|i: int| 0 <= i < r.len() && r[i] == x;
                if i > 0 {
                    assert(u[i - 1] == x);
                }
            }
            if u.contains(x) {
                let i = choose|i: int| 0 <= i < u.len() && u[i] == x;
                assert(r[i + 1] == x);
            }
            if x == p {
                assert(r[0] == x);
            }
        }
    } else if p == u[0] {
        assert forall|x: i64| #[trigger] r.contains(x) <==> (u.contains(x) || x == p) by {
            if x == p {
                assert(u[0] == x);
            }
        }
    } else {
        let t = u.drop_first();
        assert(strictly_ascending(t)) by {
            assert forall|i: int, j: int| 0 <= i < j < t.len() implies t[i] < t[j] by {
                assert(t[i] == u[i + 1] && t[j] == u[j + 1]);
            }
        }
        lemma_insert_unique_props(t, p);
        let it = insert_unique(t, p);
        assert(r =~= seq![u[0]] + it);
        assert forall|i: int| 0 <= i < it.len() implies u[0] < #[trigger] it[i] by {
            assert(it.contains(it[i]));
            if t.contains(it[i]) {
                let j = choose|j: int| 0 <= j < t.len() && t[j] == it[i];
                assert(u[0] < u[j + 1]);
            }
        }
        assert forall|i: int, j: int| 0 <= i < j < r.len() implies r[i] < r[j] by {
            if i > 0 {
                assert(r[i] == it[i - 1] && r[j] == it[j - 1]);
            } else {
                assert(r[j] == it[j - 1]);
            }
        }
        assert forall|x: i64| #[trigger] r.contains(x) <==> (u.contains(x) || x == p) by {
            if r.contains(x) {
                let i = choose|i: int| 0 <= i < r.len() && r[i] == x;
                if i > 0 {
                    assert(it[i - 1] == x);
                    assert(it.contains(x));
                    if t.contains(x) {
                        let j = choose|j: int| 0 <= j < t.len() && t[j] == x;
                        assert(u[j + 1] == x);
                    }
                } else {
                    assert(u[0] == x);
                }
            }
            if u.contains(x) {
                let i = choose|i: int| 0 <= i < u.len() && u[i] == x;
                if i > 0 {
                    assert(t[i - 1] == x);
                    assert(it.contains(x));
                    let j = choose|j: int| 0 <= j < it.len() && it[j] == x;
                    assert(r[j + 1] == x);
                } else {
                    assert(r[0] == x);
                }
            }
            if x == p {
                assert(it.contains(x));
                let j = choose|j: int| 0 <= j < it.len() && it[j] == x;
                assert(r[j + 1] == x);
            }
        }
    }
}

pub(crate) proof fn lemma_distinct_pages(ps: Seq<i64>)
    ensures
        strictly_ascending(distinct_pages(ps)),
        forall|x: i64| #[trigger] distinct_pages(ps).contains(x) <==> ps.contains(x),
    decreases ps.len(),
{
    if ps.len() > 0 {
        lemma_distinct_pages(ps.drop_last());
        lemma_insert_unique_props(distinct_pages(ps.drop_last()), ps.last());
        assert forall|x: i64| #[trigger] distinct_pages(ps).contains(x) <==> ps.contains(x) by {
            if ps.drop_last().contains(x) {
                let j = choose|j: int| 0 <= j < ps.drop_last().len() && ps.drop_last()[j] == x;
                assert(ps[j] == x);
            }
            if ps.contains(x) {
                let j = choose|j: int| 0 <= j < ps.len() && ps[j] == x;
                if j < ps.len() - 1 {
                    assert(ps.drop_last()[j] == x);
                }
            }
        }
    }
}

/// A page of the document lies between the first and the last distinct page.
proof fn lemma_page_between(ps: Seq<i64>, i: int)
    requires
        0 <= i < ps.len(),
    ensures
        distinct_pages(ps).len() > 0,
        distinct_pages(ps)[0] <= ps[i] <= distinct_pages(ps).last(),
{
    lemma_distinct_pages(ps);
    let u = distinct_pages(ps);
    assert(ps.contains(ps[i]));
    assert(u.contains(ps[i]));
    let j = choose|j: int| 0 <= j < u.len() && u[j] == ps[i];
    if j > 0 {
        assert(u[0] < u[j]);
    }
    if j < u.len() - 1 {
        assert(u[j] < u[u.len() - 1]);
    }
}

proof fn lemma_positions_of(ps: Seq<i64>, p: i64, n: int)
    requires
        n <= ps.len(),
    ensures
        forall|m: int| 0 <= m < positions_of(ps, p, n).len() ==> (#[trigger] positions_of(ps, p, n)[m]) < ps.len(),
    decreases n,
{
    if n > 0 {
        lemma_positions_of(ps, p, n - 1);
        let prev = positions_of(ps, p, n - 1);
        assert forall|m: int| 0 <= m < positions_of(ps, p, n).len() implies (#[trigger] positions_of(ps, p, n)[m]) < ps.len() by {
            if m < prev.len() {
                assert(positions_of(ps, p, n)[m] == prev[m]);
            }
        }
    }
}

proof fn lemma_grouped(ps: Seq<i64>, u: Seq<i64>)
    ensures
        forall|m: int| 0 <= m < grouped(ps, u).len() ==> (#[trigger] grouped(ps, u)[m]) < ps.len(),
    decreases u.len(),
{
    if u.len() > 0 {
        lemma_grouped(ps, u.drop_last());
        lemma_positions_of(ps, u.last(), ps.len() as int);
        let a = grouped(ps, u.drop_last());
        let b = positions_of(ps, u.last(), ps.len() as int);
        assert forall|m: int| 0 <= m < grouped(ps, u).len() implies (#[trigger] grouped(ps, u)[m]) < ps.len() by {
            if m < a.len() {
                assert(grouped(ps, u)[m] == a[m]);
            } else {
                assert(grouped(ps, u)[m] == b[m - a.len()]);
            }
        }
    }
}

proof fn lemma_window(ps: Seq<i64>, s: Seq<usize>, lo: int, hi: int)
    requires
        forall|m: int| 0 <= m < s.len() ==> (#[trigger] s[m]) < ps.len(),
    ensures
        forall|m: int|
            0 <= m < window(ps, s, lo, hi).len() ==> (#[trigger] window(ps, s, lo, hi)[m]) < ps.len()
                && lo <= ps[window(ps, s, lo, hi)[m] as int] <= hi,
    decreases s.len(),
{
    if s.len() > 0 {
        lemma_window(ps, s.drop_last(), lo, hi);
        let prev = window(ps, s.drop_last(), lo, hi);
        assert forall|m: int| 0 <= m < window(ps, s, lo, hi).len() implies (#[trigger] window(ps, s, lo, hi)[m]) < ps.len()
            && lo <= ps[window(ps, s, lo, hi)[m] as int] <= hi by {
            if m < prev.len() {
                assert(window(ps, s, lo, hi)[m] == prev[m]);
            } else {
                assert(s.last() == s[s.len() - 1]);
            }
        }
    }
}

/// Every item of a chunk lies in its page range.
pub open spec fn chunks_in_ranges(ps: Seq<i64>, rs: Seq<(int, int)>, cs: Seq<Seq<usize>>) -> bool {
    &&& rs.len() == cs.len()
    &&& forall|k: int, m: int|
        #![trigger cs[k][m]]
        0 <= k < cs.len() && 0 <= m < cs[k].len() ==> cs[k][m] < ps.len() && rs[k].0 <= ps[cs[k][m] as int]
            <= rs[k].1
}

proof fn lemma_plan_prefix(ps: Seq<i64>, u: Seq<i64>, bs: Seq<int>, overlap: int, k: int)
    requires
        ps.len() > 0,
        u == distinct_pages(ps),
        0 <= k <= bs.len(),
    ensures
        chunks_in_ranges(ps, plan_prefix(ps, u, bs, overlap, k).0, plan_prefix(ps, u, bs, overlap, k).1),
    decreases k,
{
    if k > 0 {
        lemma_plan_prefix(ps, u, bs, overlap, k - 1);
        let (rs, cs) = plan_prefix(ps, u, bs, overlap, k - 1);
        let first = u[0] as int;
        let last = u.last() as int;
        let prev = if k == 1 { first } else { bs[k - 2] };
        let b = bs[k - 1];
        lemma_grouped(ps, u);
        lemma_window(ps, grouped(ps, u), prev - overlap, b + overlap);
        let c = window(ps, grouped(ps, u), prev - overlap, b + overlap);
        if c.len() > 0 {
            let end = if last < b + overlap { last } else { b + overlap };
            let (rs2, cs2) = plan_prefix(ps, u, bs, overlap, k);
            assert(rs2 == rs.push((range_start(first, prev, overlap), end)));
            assert(cs2 == cs.push(c));
            assert forall|q: int, m: int|
                #![trigger cs2[q][m]]
                0 <= q < cs2.len() && 0 <= m < cs2[q].len() implies cs2[q][m] < ps.len() && rs2[q].0
                    <= ps[cs2[q][m] as int] <= rs2[q].1 by {
                if q < cs.len() {
                    assert(cs2[q] == cs[q]);
                    assert(rs2[q] == rs[q]);
                } else {
                    assert(cs2[q] == c);
                    let i = c[m] as int;
                    lemma_page_between(ps, i);
                }
            }
        }
    }
}

/// Chunking: every item of every chunk lies within that chunk's page range,
/// and each chunk has its range.
pub proof fn law_chunk_items_in_range(ps: Seq<i64>, chunk_size: int, overlap: int)
    ensures
        chunks_in_ranges(ps, chunk_plan_spec(ps, chunk_size, overlap).0, chunk_plan_spec(ps, chunk_size, overlap).1),
{
    if ps.len() > 0 {
        let u = distinct_pages(ps);
        lemma_page_between(ps, 0);
        let first = u[0] as int;
        let last = u.last() as int;
        let bs = boundaries_from(ps, u, first, chunk_size);
        lemma_plan_prefix(ps, u, bs, overlap, bs.len() as int);
        let (rs, cs) = plan_prefix(ps, u, bs, overlap, bs.len() as int);
        let prev = if bs.len() == 0 { first } else { bs.last() };
        lemma_grouped(ps, u);
        lemma_window(ps, grouped(ps, u), prev - overlap, last);
        let c = window(ps, grouped(ps, u), prev - overlap, last);
        let start = range_start(first, prev, overlap);
        if c.len() > 0 && last - start > 2 {
            let rs2 = rs.push((start, last));
            let cs2 = cs.push(c);
            assert forall|q: int, m: int|
                #![trigger cs2[q][m]]
                0 <= q < cs2.len() && 0 <= m < cs2[q].len() implies cs2[q][m] < ps.len() && rs2[q].0
                    <= ps[cs2[q][m] as int] <= rs2[q].1 by {
                if q < cs.len() {
                    assert(cs2[q] == cs[q]);
                    assert(rs2[q] == rs[q]);
                } else {
                    assert(cs2[q] == c);
                    lemma_page_between(ps, c[m] as int);
                }
            }
        }
    }
}

/// No id is listed twice.
pub open spec fn ids_distinct(s: Seq<LevelPair>) -> bool {
    forall|i: int, j: int| 0 <= i < j < s.len() ==> s[i].id != s[j].id
}

proof fn lemma_pin_keeps_ids(ps: Seq<LevelPair>, rs: Seq<LevelPair>, k: nat)
    requires
        k <= ps.len(),
    ensures
        pin_overlaps(ps, rs, k).0.len() == ps.len(),
        pin_overlaps(ps, rs, k).1.len() == rs.len(),
        forall|i: int| 0 <= i < ps.len() ==> #[trigger] pin_overlaps(ps, rs, k).0[i].id == ps[i].id,
        forall|i: int| 0 <= i < rs.len() ==> #[trigger] pin_overlaps(ps, rs, k).1[i].id == rs[i].id,
        forall|i: int|
            0 <= i < rs.len() ==> #[trigger] pin_overlaps(ps, rs, k).1[i].level == rs[i].level || pin_overlaps(
                ps,
                rs,
                k,
            ).1[i].level == -1,
    decreases k,
{
    if k > 0 {
        lemma_pin_keeps_ids(ps, rs, (k - 1) as nat);
        let prev = pin_overlaps(ps, rs, (k - 1) as nat);
        lemma_find_id(prev.1, prev.0[k - 1].id);
    }
}

proof fn lemma_find_push(s: Seq<LevelPair>, x: LevelPair, id: i64)
    ensures
        find_id(s, id) is Some ==> find_id(s.push(x), id) is Some,
        x.id == id ==> find_id(s.push(x), id) is Some,
{
    assert(s.push(x).drop_last() =~= s);
}

proof fn lemma_append_new(ps: Seq<LevelPair>, rs: Seq<LevelPair>, avg: int, k: nat)
    requires
        k <= ps.len(),
    ensures
        append_new(ps, rs, avg, k).len() >= rs.len(),
        forall|i: int| 0 <= i < rs.len() ==> #[trigger] append_new(ps, rs, avg, k)[i] == rs[i],
        forall|i: int| 0 <= i < k ==> #[trigger] find_id(append_new(ps, rs, avg, k), ps[i].id) is Some,
        ids_distinct(rs) ==> ids_distinct(append_new(ps, rs, avg, k)),
        forall|i: int|
            rs.len() <= i < append_new(ps, rs, avg, k).len() ==> (exists|m: int|
                0 <= m < k && ps[m].id == #[trigger] append_new(ps, rs, avg, k)[i].id) && forall|j: int|
                0 <= j < i ==> append_new(ps, rs, avg, k)[j].id != append_new(ps, rs, avg, k)[i].id,
    decreases k,
{
    if k > 0 {
        lemma_append_new(ps, rs, avg, (k - 1) as nat);
        let prev = append_new(ps, rs, avg, (k - 1) as nat);
        let p = ps[k - 1];
        lemma_find_id(prev, p.id);
        if find_id(prev, p.id) is None {
            let x = LevelPair { id: p.id, level: if p.level > 0 { (p.level - avg) as i64 } else { p.level } };
            let out = prev.push(x);
            assert(append_new(ps, rs, avg, k) == out);
            assert forall|i: int| 0 <= i < k implies #[trigger] find_id(out, ps[i].id) is Some by {
                lemma_find_push(prev, x, ps[i].id);
            }
            assert forall|i: int| rs.len() <= i < out.len() implies (exists|m: int|
                0 <= m < k && ps[m].id == #[trigger] out[i].id) && forall|j: int| 0 <= j < i ==> out[j].id != out[i].id by {
                if i == out.len() - 1 {
                    assert(ps[k - 1].id == out[i].id);
                    assert forall|j: int| 0 <= j < i implies out[j].id != out[i].id by {
                        assert(out[j] == prev[j]);
                    }
                } else {
                    assert(out[i] == prev[i]);
                    let m = choose|m: int| 0 <= m < k - 1 && ps[m].id == #[trigger] prev[i].id;
                    assert(ps[m].id == out[i].id);
                    assert forall|j: int| 0 <= j < i implies out[j].id != out[i].id by {
                        assert(out[j] == prev[j]);
                    }
                }
            }
            if ids_distinct(rs) {
                assert forall|i: int, j: int| 0 <= i < j < out.len() implies out[i].id != out[j].id by {
                    if j == out.len() - 1 {
                        assert(out[i] == prev[i]);
                    } else {
                        assert(out[i] == prev[i] && out[j] == prev[j]);
                    }
                }
            }
        }
    }
}

/// Synchronizing a chunk's heading levels into the accumulated results
/// keeps every result in place under its id, with its level unchanged or
/// set to `-1`; lists every id of the chunk among the results; appends only
/// ids of the chunk that were not listed yet, each once; and never lists
/// an id twice when none was before.
pub proof fn law_synchronize_keeps_ids(ps: Seq<LevelPair>, rs: Seq<LevelPair>)
    ensures
        ({
            let pinned = pin_overlaps(ps, rs, ps.len());
            let out = append_new(pinned.0, pinned.1, avg_bias(pinned.2), pinned.0.len());
            &&& out.len() >= rs.len()
            &&& forall|i: int| 0 <= i < rs.len() ==> #[trigger] out[i].id == rs[i].id
            &&& forall|i: int| 0 <= i < ps.len() ==> #[trigger] find_id(out, ps[i].id) is Some
            &&& ids_distinct(rs) ==> ids_distinct(out)
            &&& forall|i: int| 0 <= i < rs.len() ==> #[trigger] out[i].level == rs[i].level || out[i].level == -1
            &&& forall|i: int|
                rs.len() <= i < out.len() ==> (exists|m: int| 0 <= m < ps.len() && ps[m].id == #[trigger] out[i].id)
                    && forall|j: int| 0 <= j < i ==> out[j].id != out[i].id
        }),
{
    let pinned = pin_overlaps(ps, rs, ps.len());
    lemma_pin_keeps_ids(ps, rs, ps.len());
    let out = append_new(pinned.0, pinned.1, avg_bias(pinned.2), pinned.0.len());
    lemma_append_new(pinned.0, pinned.1, avg_bias(pinned.2), pinned.0.len());
    assert forall|i: int| 0 <= i < rs.len() implies #[trigger] out[i].id == rs[i].id by {
        assert(out[i] == pinned.1[i]);
        assert(pinned.1[i].id == rs[i].id);
    }
    assert forall|i: int| 0 <= i < rs.len() implies #[trigger] out[i].level == rs[i].level || out[i].level == -1 by {
        assert(out[i] == pinned.1[i]);
    }
    assert forall|i: int| rs.len() <= i < out.len() implies (exists|m: int|
        0 <= m < ps.len() && ps[m].id == #[trigger] out[i].id) && forall|j: int| 0 <= j < i ==> out[j].id != out[i].id by {
        let m = choose|m: int| 0 <= m < pinned.0.len() && pinned.0[m].id == #[trigger] out[i].id;
        assert(pinned.0[m].id == ps[m].id);
    }
    assert forall|i: int| 0 <= i < ps.len() implies #[trigger] find_id(out, ps[i].id) is Some by {
        assert(pinned.0[i].id == ps[i].id);
        assert(find_id(out, pinned.0[i].id) is Some);
    }
    if ids_distinct(rs) {
        assert forall|i: int, j: int| 0 <= i < j < pinned.1.len() implies pinned.1[i].id != pinned.1[j].id by {
            assert(pinned.1[i].id == rs[i].id && pinned.1[j].id == rs[j].id);
        }
        assert(ids_distinct(pinned.1));
    }
}

/// Blocks in reading order: each block's `(page, order)` key is not greater
/// than that of any block after it.
pub open spec fn in_reading_order(s: Seq<BlockView>) -> bool {
    forall|i: int, j: int| 0 <= i < j < s.len() ==> key_le(#[trigger] s[i], #[trigger] s[j])
}

proof fn lemma_insert_pos_props(s: Seq<BlockView>, x: BlockView)
    ensures
        0 <= insert_pos(s, x) <= s.len(),
        insert_pos(s, x) > 0 ==> key_le(s[insert_pos(s, x) - 1], x),
        forall|i: int| insert_pos(s, x) <= i < s.len() ==> !key_le(#[trigger] s[i], x),
    decreases s.len(),
{
    if s.len() > 0 && !key_le(s.last(), x) {
        let t = s.drop_last();
        lemma_insert_pos_props(t, x);
        assert forall|i: int| insert_pos(s, x) <= i < s.len() implies !key_le(#[trigger] s[i], x) by {
            if i < s.len() - 1 {
                assert(s[i] == t[i]);
            }
        }
        if insert_pos(t, x) > 0 {
            assert(s[insert_pos(t, x) - 1] == t[insert_pos(t, x) - 1]);
        }
    }
}

proof fn lemma_sort_blocks_props(s: Seq<BlockView>)
    ensures
        sort_blocks_spec(s).len() == s.len(),
        in_reading_order(sort_blocks_spec(s)),
        sort_blocks_spec(s).to_multiset() =~= s.to_multiset(),
    decreases s.len(),
{
    broadcast use vstd::seq_lib::group_to_multiset_ensures;
    if s.len() > 0 {
        let t = s.drop_last();
        let x = s.last();
        lemma_sort_blocks_props(t);
        let prev = sort_blocks_spec(t);
        lemma_insert_pos_props(prev, x);
        let p = insert_pos(prev, x);
        let out = prev.insert(p, x);
        assert(sort_blocks_spec(s) == out);
        assert forall|i: int, j: int| 0 <= i < j < out.len() implies key_le(#[trigger] out[i], #[trigger] out[j]) by {
            if j < p {
                assert(out[i] == prev[i] && out[j] == prev[j]);
            } else if j == p {
                assert(out[j] == x && out[i] == prev[i]);
                assert(key_le(prev[p - 1], x));
                if i < p - 1 {
                    assert(key_le(prev[i], prev[p - 1]));
                }
            } else if i == p {
                assert(out[i] == x && out[j] == prev[j - 1]);
                assert(!key_le(prev[j - 1], x));
            } else if i < p {
                assert(out[i] == prev[i] && out[j] == prev[j - 1]);
                assert(key_le(prev[i], prev[j - 1]));
            } else {
                assert(out[i] == prev[i - 1] && out[j] == prev[j - 1]);
                assert(key_le(prev[i - 1], prev[j - 1]));
            }
        }
        assert(out.remove(p) =~= prev);
        assert(out[p] == x);
        assert(out.remove(p).to_multiset() =~= out.to_multiset().remove(x));
        assert(out.contains(x)) by {
            assert(out[p] == x);
        }
        assert(out.to_multiset().count(x) > 0);
        assert(s =~= t.push(x));
        assert(s.to_multiset() =~= t.to_multiset().insert(x));
        assert(out.to_multiset() =~= out.to_multiset().remove(x).insert(x));
    }
}

/// Reading order, as readers put blocks in, is a rearrangement of the
/// blocks read (nothing lost, nothing added) with the `(page, order)` keys
/// ascending.
pub proof fn law_reading_order_sorts(s: Seq<BlockView>)
    ensures
        in_reading_order(sort_blocks_spec(s)),
        sort_blocks_spec(s).to_multiset() == s.to_multiset(),
{
    lemma_sort_blocks_props(s);
}

/// A node without its children.
pub open spec fn leaf(t: CompView) -> CompView {
    CompView { children: seq![], ..t }
}

/// The nodes of a forest in document order: each node, then its subtree,
/// then its following siblings.
pub open spec fn preorder(ts: Seq<CompView>) -> Seq<CompView>
    decreases ts,
{
    if ts.len() == 0 {
        seq![]
    } else {
        proof {
            assert(decreases_to!(ts => ts[0]));
            assert(decreases_to!(ts => ts.subrange(1, ts.len() as int)));
        }
        seq![leaf(ts[0])] + preorder(ts[0].children) + preorder(ts.subrange(1, ts.len() as int))
    }
}

proof fn lemma_block_end_skip_over(cs: Seq<CompView>, a: int, b: int, lvl: int)
    requires
        0 <= a <= b <= cs.len(),
        forall|k: int| a <= k < b ==> eff_level(#[trigger] cs[k]) > lvl,
    ensures
        block_end(cs, a, lvl) == block_end(cs, b, lvl),
    decreases b - a,
{
    if a < b {
        lemma_block_end_skip_over(cs, a + 1, b, lvl);
    }
}

proof fn lemma_forest_preorder(cs: Seq<CompView>, lo: int, lvl: int)
    requires
        0 <= lo <= cs.len(),
    ensures
        preorder(forest(cs, lo, lvl)) =~= cs.subrange(lo, block_end(cs, lo, lvl)).map_values(|c: CompView| leaf(c)),
    decreases cs.len() - lo,
{
    lemma_block_end(cs, lo, lvl);
    if lo >= cs.len() || eff_level(cs[lo]) <= lvl {
        assert(forest(cs, lo, lvl) =~= seq![]);
        assert(block_end(cs, lo, lvl) == lo);
    } else {
        let el = eff_level(cs[lo]);
        lemma_block_end(cs, lo + 1, el);
        let e = block_end(cs, lo + 1, el);
        let node = CompView { children: forest(cs, lo + 1, el), ..cs[lo] };
        let f = forest(cs, lo, lvl);
        assert(f == seq![node] + forest(cs, e, lvl));
        lemma_forest_preorder(cs, lo + 1, el);
        lemma_forest_preorder(cs, e, lvl);
        assert(f[0] == node);
        assert(f.subrange(1, f.len() as int) =~= forest(cs, e, lvl));
        assert(leaf(node) == leaf(cs[lo]));
        assert forall|k: int| lo <= k < e implies eff_level(#[trigger] cs[k]) > lvl by {
            if k > lo {
                assert(eff_level(cs[k]) > el);
            }
        }
        lemma_block_end_skip_over(cs, lo, e, lvl);
        let be = block_end(cs, lo, lvl);
        assert(preorder(f) == seq![leaf(f[0])] + preorder(f[0].children) + preorder(f.subrange(1, f.len() as int)));
        assert(cs.subrange(lo, be).map_values(|c: CompView| leaf(c)) =~= seq![leaf(cs[lo])]
            + cs.subrange(lo + 1, e).map_values(|c: CompView| leaf(c))
            + cs.subrange(e, be).map_values(|c: CompView| leaf(c)));
    }
}

proof fn lemma_text_fold_leaves(es: Seq<ElemView>, k: int)
    ensures
        forall|i: int| 0 <= i < text_fold(es, k).0.len() ==> (#[trigger] text_fold(es, k).0[i]).children.len() == 0,
        text_fold(es, k).2.children.len() == 0,
    decreases k,
{
    if k > 0 {
        lemma_text_fold_leaves(es, k - 1);
    }
}

/// The heading tree over the text nodes of a document holds each of them
/// exactly once, in document order: read in preorder, its nodes are the
/// text nodes.
pub proof fn law_heading_tree_holds_text_nodes(es: Seq<ElemView>)
    ensures
        preorder(level_tree(text_components_spec(es)).children) == text_components_spec(es),
{
    lemma_text_fold_leaves(es, es.len() as int);
    let cs = text_components_spec(es);
    let st = text_fold(es, es.len() as int);
    assert forall|i: int| 0 <= i < cs.len() implies (#[trigger] cs[i]).children.len() == 0 by {
        if i < st.0.len() {
            assert(cs[i] == st.0[i]);
        } else {
            assert(cs[i] == st.2);
        }
    }
    lemma_heading_tree_preorder(cs);
}

proof fn lemma_heading_tree_preorder(cs: Seq<CompView>)
    requires
        forall|i: int| 0 <= i < cs.len() ==> (#[trigger] cs[i]).children.len() == 0,
    ensures
        preorder(level_tree(cs).children) == cs,
{
    lemma_forest_preorder(cs, 0, 0);
    lemma_block_end(cs, 0, 0);
    assert forall|k: int| 0 <= k < cs.len() implies eff_level(#[trigger] cs[k]) > 0 by {}
    lemma_block_end_skip_over(cs, 0, cs.len() as int, 0);
    assert(block_end(cs, cs.len() as int, 0) == cs.len());
    assert forall|i: int| 0 <= i < cs.len() implies #[trigger] leaf(cs[i]) == cs[i] by {
        assert(cs[i].children =~= seq![]);
    }
    assert(cs.subrange(0, cs.len() as int).map_values(|c: CompView| leaf(c)) =~= cs);
}

/// Strings laid end to end.
pub open spec fn flat_text(ss: Seq<Seq<char>>) -> Seq<char>
    decreases ss.len(),
{
    if ss.len() == 0 {
        seq![]
    } else {
        flat_text(ss.drop_last()) + ss.last()
    }
}

/// Number lists laid end to end.
pub open spec fn flat_numbers(ss: Seq<Seq<int>>) -> Seq<int>
    decreases ss.len(),
{
    if ss.len() == 0 {
        seq![]
    } else {
        flat_numbers(ss.drop_last()) + ss.last()
    }
}

/// The numbers `1..=n`.
pub open spec fn one_to(n: int) -> Seq<int> {
    Seq::new(n as nat, |i: int| i + 1)
}

proof fn lemma_chunk_fold_covers(segs: Seq<Seq<char>>, k: int)
    requires
        0 <= k <= segs.len(),
        forall|i: int| 0 <= i < segs.len() ==> (#[trigger] segs[i]).len() > 0,
    ensures
        ({
            let st = chunk_fold(segs, k);
            &&& flat_text(st.0.map_values(|c: (Seq<char>, Seq<int>)| c.0)) + st.1 == flat_text(segs.take(k))
            &&& flat_numbers(st.0.map_values(|c: (Seq<char>, Seq<int>)| c.1)) + st.2 == one_to(k)
            &&& st.2.len() <= st.1.len()
        }),
    decreases k,
{
    if k > 0 {
        lemma_chunk_fold_covers(segs, k - 1);
        let prev = chunk_fold(segs, k - 1);
        let seg = segs[k - 1];
        let content = prev.1 + seg;
        let idx = prev.2.push(k);
        let tp = prev.0.map_values(|c: (Seq<char>, Seq<int>)| c.0);
        let np = prev.0.map_values(|c: (Seq<char>, Seq<int>)| c.1);
        assert(segs.take(k).drop_last() =~= segs.take(k - 1));
        assert(segs.take(k).last() == seg);
        assert(one_to(k) =~= one_to(k - 1).push(k));
        assert(flat_text(tp) + content =~= flat_text(tp) + prev.1 + seg);
        assert(flat_numbers(np) + idx =~= flat_numbers(np) + prev.2 + seq![k]);
        let st = chunk_fold(segs, k);
        if prev.3 + seg.len() > 500 {
            let done = prev.0.push((content, idx));
            assert(done.map_values(|c: (Seq<char>, Seq<int>)| c.0) =~= tp.push(content));
            assert(done.map_values(|c: (Seq<char>, Seq<int>)| c.1) =~= np.push(idx));
            assert(tp.push(content).drop_last() =~= tp);
            assert(np.push(idx).drop_last() =~= np);
            assert(flat_text(tp.push(content)) + st.1 =~= flat_text(tp) + content);
            assert(flat_numbers(np.push(idx)) + st.2 =~= flat_numbers(np) + idx);
        }
    }
}

/// Chunking a text node's segments loses no text and no segment: the
/// chunks, laid end to end, give back the segments laid end to end, and
/// their segment numbers, in turn, are `1..=n`.
pub proof fn law_text_chunks_cover(segs: Seq<Seq<char>>)
    requires
        forall|i: int| 0 <= i < segs.len() ==> (#[trigger] segs[i]).len() > 0,
    ensures
        flat_text(chunks_of(segs).map_values(|c: (Seq<char>, Seq<int>)| c.0)) == flat_text(segs),
        flat_numbers(chunks_of(segs).map_values(|c: (Seq<char>, Seq<int>)| c.1)) == one_to(segs.len() as int),
{
    let n = segs.len() as int;
    lemma_chunk_fold_covers(segs, n);
    assert(segs.take(n) =~= segs);
    let st = chunk_fold(segs, n);
    let tp = st.0.map_values(|c: (Seq<char>, Seq<int>)| c.0);
    let np = st.0.map_values(|c: (Seq<char>, Seq<int>)| c.1);
    if st.1.len() > 0 {
        let out = st.0.push((st.1, st.2));
        assert(out.map_values(|c: (Seq<char>, Seq<int>)| c.0) =~= tp.push(st.1));
        assert(out.map_values(|c: (Seq<char>, Seq<int>)| c.1) =~= np.push(st.2));
        assert(tp.push(st.1).drop_last() =~= tp);
        assert(np.push(st.2).drop_last() =~= np);
    } else {
        assert(st.1 =~= seq![]);
        assert(st.2 =~= seq![]);
        assert(flat_text(tp) + st.1 =~= flat_text(tp));
        assert(flat_numbers(np) + st.2 =~= flat_numbers(np));
    }
}

/// Every level of `t` moved by `c` stays an `i64`.
pub open spec fn shift_fits(t: Seq<(Seq<char>, i64)>, c: int) -> bool {
    forall|i: int| 0 <= i < t.len() ==> i64::MIN <= #[trigger] t[i].1 + c <= i64::MAX
}

/// `t` with every level moved by `c`.
pub open spec fn shifted(t: Seq<(Seq<char>, i64)>, c: int) -> Seq<(Seq<char>, i64)> {
    Seq::new(t.len(), |i: int| (t[i].0, (t[i].1 + c) as i64))
}

proof fn lemma_level_end_shift(t: Seq<(Seq<char>, i64)>, c: int, q: int, lvl: i64, lvl2: i64)
    requires
        shift_fits(t, c),
        lvl2 == lvl + c,
    ensures
        level_end(shifted(t, c), q, lvl2) == level_end(t, q, lvl),
    decreases t.len() + 1 - q,
{
    if !(q < 1 || q > t.len()) {
        assert(shifted(t, c)[q - 1].1 == t[q - 1].1 + c);
        if !(t[q - 1].1 <= lvl) {
            lemma_level_end_shift(t, c, q + 1, lvl, lvl2);
        }
    }
}

proof fn lemma_sub_end_shift(t: Seq<(Seq<char>, i64)>, c: int, p: int)
    requires
        shift_fits(t, c),
        p <= t.len(),
    ensures
        sub_end(shifted(t, c), p) == sub_end(t, p),
        lab(shifted(t, c), p) == lab(t, p),
{
    if p >= 1 {
        let s = shifted(t, c);
        assert(s[p - 1].1 == t[p - 1].1 + c);
        lemma_level_end_shift(t, c, p + 1, t[p - 1].1, s[p - 1].1);
    }
}

proof fn lemma_fdist_shift(
    t1: Seq<(Seq<char>, i64)>,
    t2: Seq<(Seq<char>, i64)>,
    c: int,
    d: int,
    i1: int,
    j1: int,
    i2: int,
    j2: int,
)
    requires
        shift_fits(t1, c),
        shift_fits(t2, d),
        0 <= i1,
        j1 <= t1.len() + 1,
        0 <= i2,
        j2 <= t2.len() + 1,
    ensures
        fdist(shifted(t1, c), shifted(t2, d), i1, j1, i2, j2) == fdist(t1, t2, i1, j1, i2, j2),
    decreases (if j1 > i1 { j1 - i1 } else { 0 }) + (if j2 > i2 { j2 - i2 } else { 0 }),
{
    let u1 = shifted(t1, c);
    let u2 = shifted(t2, d);
    if i1 >= j1 && i2 >= j2 {
    } else if i2 >= j2 {
        lemma_fdist_shift(t1, t2, c, d, i1 + 1, j1, i2, j2);
    } else if i1 >= j1 {
        lemma_fdist_shift(t1, t2, c, d, i1, j1, i2 + 1, j2);
    } else {
        lemma_sub_end_shift(t1, c, i1);
        lemma_sub_end_shift(t2, d, i2);
        let s1 = if sub_end(t1, i1) < j1 && sub_end(t1, i1) > i1 { sub_end(t1, i1) } else { j1 };
        let s2 = if sub_end(t2, i2) < j2 && sub_end(t2, i2) > i2 { sub_end(t2, i2) } else { j2 };
        lemma_fdist_shift(t1, t2, c, d, i1 + 1, j1, i2, j2);
        lemma_fdist_shift(t1, t2, c, d, i1, j1, i2 + 1, j2);
        lemma_fdist_shift(t1, t2, c, d, i1 + 1, j1, i2 + 1, j2);
        if !(s1 == j1 && s2 == j2) {
            lemma_fdist_shift(t1, t2, c, d, s1, j1, s2, j2);
            lemma_fdist_shift(t1, t2, c, d, i1, s1, i2, s2);
        }
    }
}

/// Only relative levels matter: moving every level of one title tree by
/// `c` and of the other by `d` leaves their edit distance unchanged.
pub proof fn law_ted_shift_invariant(a: Seq<(Seq<char>, i64)>, b: Seq<(Seq<char>, i64)>, c: int, d: int)
    requires
        shift_fits(a, c),
        shift_fits(b, d),
    ensures
        ted_spec(shifted(a, c), shifted(b, d)) == ted_spec(a, b),
{
    lemma_fdist_shift(a, b, c, d, 0, a.len() + 1int, 0, b.len() + 1int);
}

/// Every `<` of `s` opens neither `<|from|>` nor `<|to|>`: three more
/// characters follow it, the third not `f`, and not `t` followed by `o`.
pub open spec fn no_alias_markers(s: Seq<char>) -> bool {
    forall|k: int|
        0 <= k < s.len() && #[trigger] s[k] == '<' ==> k + 3 < s.len() && s[k + 2] != 'f' && !(s[k + 2] == 't'
            && s[k + 3] == 'o')
}

proof fn lemma_no_alias_concat(a: Seq<char>, b: Seq<char>)
    requires
        no_alias_markers(a),
        no_alias_markers(b),
    ensures
        no_alias_markers(a + b),
{
    let c = a + b;
    assert forall|k: int| 0 <= k < c.len() && #[trigger] c[k] == '<' implies k + 3 < c.len() && c[k + 2] != 'f'
        && !(c[k + 2] == 't' && c[k + 3] == 'o') by {
        if k < a.len() {
            assert(a[k] == '<');
            assert(c[k + 2] == a[k + 2] && c[k + 3] == a[k + 3]);
        } else {
            assert(b[k - a.len()] == '<');
            assert(c[k + 2] == b[k - a.len() + 2] && c[k + 3] == b[k - a.len() + 3]);
        }
    }
}

proof fn lemma_decimal_no_alias(v: int)
    ensures
        no_alias_markers(decimal_int(v)),
{
    let d = decimal_int(v);
    if v < 0 {
        lemma_decimal_nat((-v) as nat);
        assert forall|k: int| 0 <= k < d.len() implies d[k] != '<' by {
            if k > 0 {
                assert(d[k] == decimal_nat((-v) as nat)[k - 1]);
                assert(is_digit_spec(decimal_nat((-v) as nat)[k - 1]));
            }
        }
    } else {
        lemma_decimal_nat(v as nat);
        assert forall|k: int| 0 <= k < d.len() implies d[k] != '<' by {
            assert(is_digit_spec(d[k]));
        }
    }
}

proof fn lemma_render_pair_no_alias(p: (i64, i64))
    ensures
        no_alias_markers(render_pair(p, "<|src_id|>"@, "<|tgt_id|>"@)),
{
    reveal_strlit("<|src_id|>");
    reveal_strlit("<|tgt_id|>");
    let m1 = "<|src_id|>"@;
    let m2 = "<|tgt_id|>"@;
    assert forall|k: int| 0 <= k < m1.len() && #[trigger] m1[k] == '<' implies k + 3 < m1.len() && m1[k + 2] != 'f'
        && !(m1[k + 2] == 't' && m1[k + 3] == 'o') by {
        assert(k == 0);
    }
    assert forall|k: int| 0 <= k < m2.len() && #[trigger] m2[k] == '<' implies k + 3 < m2.len() && m2[k + 2] != 'f'
        && !(m2[k + 2] == 't' && m2[k + 3] == 'o') by {
        assert(k == 0);
    }
    lemma_decimal_no_alias(p.0 as int);
    lemma_decimal_no_alias(p.1 as int);
    lemma_no_alias_concat(m1, decimal_int(p.0 as int));
    lemma_no_alias_concat(m1 + decimal_int(p.0 as int), m2);
    lemma_no_alias_concat(m1 + decimal_int(p.0 as int) + m2, decimal_int(p.1 as int));
}

proof fn lemma_join_no_alias(xs: Seq<Seq<char>>)
    requires
        forall|i: int| 0 <= i < xs.len() ==> no_alias_markers(#[trigger] xs[i]),
    ensures
        no_alias_markers(join_spec(xs, seq!['\n'])),
    decreases xs.len(),
{
    if xs.len() > 1 {
        lemma_join_no_alias(xs.drop_last());
        let nl = seq!['\n'];
        assert forall|k: int| 0 <= k < nl.len() && #[trigger] nl[k] == '<' implies k + 3 < nl.len() by {}
        assert(no_alias_markers(xs.last()));
        lemma_no_alias_concat(join_spec(xs.drop_last(), nl), nl);
        lemma_no_alias_concat(join_spec(xs.drop_last(), nl) + nl, xs.last());
    } else if xs.len() == 1 {
        assert(no_alias_markers(xs[0]));
    }
}

proof fn lemma_replace_absent(s: Seq<char>, from: Seq<char>, to: Seq<char>)
    requires
        no_alias_markers(s),
        from == "<|from|>"@ || from == "<|to|>"@,
    ensures
        replace_spec(s, from, to) == s,
    decreases s.len(),
{
    reveal_strlit("<|from|>");
    reveal_strlit("<|to|>");
    if s.len() > 0 {
        assert(!occurs_at(s, from, 0)) by {
            if occurs_at(s, from, 0) {
                assert(s.subrange(0, from.len() as int)[0] == s[0]);
                assert(s.subrange(0, from.len() as int)[2] == s[2]);
                assert(s.subrange(0, from.len() as int)[3] == s[3]);
            }
        }
        let t = s.drop_first();
        assert forall|k: int| 0 <= k < t.len() && #[trigger] t[k] == '<' implies k + 3 < t.len() && t[k + 2] != 'f'
            && !(t[k + 2] == 't' && t[k + 3] == 'o') by {
            assert(s[k + 1] == '<');
        }
        lemma_replace_absent(t, from, to);
        assert(seq![s[0]] + t =~= s);
    }
}

/// The truncation answer format, read with the aliases accepted: the pairs
/// the output serializer writes are exactly the pairs the alias-accepting
/// answer parser reads back (no `<|from|>` or `<|to|>` occurs in them).
pub proof fn law_contd_alias_round_trip(ps: Seq<(i64, i64)>)
    ensures
        parse_pairs_spec(
            unalias_spec(render_pairs_spec(ps, "<|src_id|>"@, "<|tgt_id|>"@)),
            "<|src_id|>"@,
            "<|tgt_id|>"@,
        ) == ps,
{
    let rendered = render_pairs_spec(ps, "<|src_id|>"@, "<|tgt_id|>"@);
    let lines = Seq::new(ps.len(), |i: int| render_pair(ps[i], "<|src_id|>"@, "<|tgt_id|>"@));
    assert forall|i: int| 0 <= i < lines.len() implies no_alias_markers(#[trigger] lines[i]) by {
        lemma_render_pair_no_alias(ps[i]);
    }
    lemma_join_no_alias(lines);
    lemma_replace_absent(rendered, "<|from|>"@, "<|src_id|>"@);
    lemma_replace_absent(rendered, "<|to|>"@, "<|tgt_id|>"@);
    law_contd_pairs_round_trip(ps);
}

proof fn lemma_rows_match_sym(m1: TableModel, m2: TableModel, i: int)
    ensures
        rows_match(m1[i], m2[i]) == rows_match(m2[i], m1[i]),
{
    if rows_match(m1[i], m2[i]) {
        assert forall|j: int| 0 <= j < m2[i].len() implies cells_match(#[trigger] m2[i][j], m1[i][j]) by {
            assert(cells_match(m1[i][j], m2[i][j]));
        }
    }
    if rows_match(m2[i], m1[i]) {
        assert forall|j: int| 0 <= j < m1[i].len() implies cells_match(#[trigger] m1[i][j], m2[i][j]) by {
            assert(cells_match(m2[i][j], m1[i][j]));
        }
    }
}

proof fn lemma_headers_from(m1: TableModel, m2: TableModel, i: int)
    requires
        0 <= i <= header_window(m1, m2),
    ensures
        headers_from(m1, m2, i) == headers_from(m2, m1, i),
        i <= headers_from(m1, m2, i) <= header_window(m1, m2),
        m1 == m2 ==> headers_from(m1, m2, i) == header_window(m1, m2),
    decreases header_window(m1, m2) - i,
{
    assert(header_window(m1, m2) == header_window(m2, m1));
    if i < header_window(m1, m2) {
        lemma_rows_match_sym(m1, m2, i);
        if m1 == m2 {
            assert forall|j: int| 0 <= j < m1[i].len() implies cells_match(#[trigger] m1[i][j], m2[i][j]) by {}
        }
        if rows_match(m1[i], m2[i]) {
            lemma_headers_from(m1, m2, i + 1);
        }
    }
}

/// Header detection is symmetric, counts at most the first five rows of
/// the shorter table, and finds every compared row of a table shared with
/// itself.
pub proof fn law_table_headers_symmetric(m1: TableModel, m2: TableModel)
    ensures
        headers_spec(m1, m2) == headers_spec(m2, m1),
        0 <= headers_spec(m1, m2) <= header_window(m1, m2),
        header_window(m1, m2) <= 5,
        header_window(m1, m2) <= m1.len() && header_window(m1, m2) <= m2.len(),
        headers_spec(m1, m1) == header_window(m1, m1),
{
    lemma_headers_from(m1, m2, 0);
    lemma_headers_from(m1, m1, 0);
}


proof fn lemma_window_contains(ps: Seq<i64>, s: Seq<usize>, lo: int, hi: int, x: usize)
    requires
        s.contains(x),
        x < ps.len(),
        lo <= ps[x as int] <= hi,
    ensures
        window(ps, s, lo, hi).contains(x),
    decreases s.len(),
{
    let m = choose|m: int| 0 <= m < s.len() && s[m] == x;
    if m == s.len() - 1 {
        assert(window(ps, s, lo, hi).last() == x);
        assert(window(ps, s, lo, hi)[window(ps, s, lo, hi).len() - 1] == x);
    } else {
        assert(s.drop_last()[m] == x);
        lemma_window_contains(ps, s.drop_last(), lo, hi, x);
        let w = window(ps, s.drop_last(), lo, hi);
        let k = choose|k: int| 0 <= k < w.len() && w[k] == x;
        assert(window(ps, s, lo, hi)[k] == x);
    }
}

proof fn lemma_window_ext(ps: Seq<i64>, s: Seq<usize>, lo1: int, hi1: int, lo2: int, hi2: int)
    requires
        forall|m: int|
            0 <= m < s.len() ==> (lo1 <= ps[(#[trigger] s[m]) as int] <= hi1) == (lo2 <= ps[s[m] as int] <= hi2),
    ensures
        window(ps, s, lo1, hi1) == window(ps, s, lo2, hi2),
    decreases s.len(),
{
    if s.len() > 0 {
        assert forall|m: int| 0 <= m < s.drop_last().len() implies (lo1 <= ps[(#[trigger] s.drop_last()[m]) as int]
            <= hi1) == (lo2 <= ps[s.drop_last()[m] as int] <= hi2) by {
            assert(s.drop_last()[m] == s[m]);
        }
        lemma_window_ext(ps, s.drop_last(), lo1, hi1, lo2, hi2);
        assert(s.last() == s[s.len() - 1]);
    }
}

proof fn lemma_positions_contains(ps: Seq<i64>, p: i64, n: int, j: int)
    requires
        0 <= j < n <= ps.len(),
        ps[j] == p,
    ensures
        positions_of(ps, p, n).contains(j as usize),
    decreases n,
{
    if j == n - 1 {
        let q = positions_of(ps, p, n);
        assert(q[q.len() - 1] == j as usize);
    } else {
        lemma_positions_contains(ps, p, n - 1, j);
        let q0 = positions_of(ps, p, n - 1);
        let k = choose|k: int| 0 <= k < q0.len() && q0[k] == j as usize;
        assert(positions_of(ps, p, n)[k] == j as usize);
    }
}

proof fn lemma_grouped_contains(ps: Seq<i64>, u: Seq<i64>, j: int)
    requires
        0 <= j < ps.len(),
        u.contains(ps[j]),
    ensures
        grouped(ps, u).contains(j as usize),
    decreases u.len(),
{
    let a = grouped(ps, u.drop_last());
    let b = positions_of(ps, u.last(), ps.len() as int);
    assert(grouped(ps, u) == a + b);
    if u.last() == ps[j] {
        lemma_positions_contains(ps, ps[j], ps.len() as int, j);
        let k = choose|k: int| 0 <= k < b.len() && b[k] == j as usize;
        assert((a + b)[a.len() + k] == j as usize);
    } else {
        let i = choose|i: int| 0 <= i < u.len() && u[i] == ps[j];
        assert(u.drop_last()[i] == ps[j]);
        lemma_grouped_contains(ps, u.drop_last(), j);
        let k = choose|k: int| 0 <= k < a.len() && a[k] == j as usize;
        assert((a + b)[k] == j as usize);
    }
}

/// The boundary after `cm` is a page of the document, past `cm` and not past
/// the last page.
proof fn lemma_next_boundary(ps: Seq<i64>, cm: int, chunk_size: int)
    requires
        ps.len() > 0,
        distinct_pages(ps)[0] <= cm < distinct_pages(ps).last(),
        chunk_size > 5,
    ensures
        ({
            let u = distinct_pages(ps);
            let b = next_boundary(ps, u, cm, chunk_size);
            &&& cm < b <= u.last()
            &&& exists|i: int| 0 <= i < u.len() && u[i] == b
        }),
{
    let u = distinct_pages(ps);
    lemma_page_between(ps, 0);
    lemma_distinct_pages(ps);
    let target = cm + chunk_size;
    let first = u[0] as int;
    let last = u.last() as int;
    let lo = if target - 5 > first { target - 5 } else { first };
    let hi = if target + 5 < last { target + 5 } else { last };
    lemma_densest_in_window(ps, u, lo, hi, u.len() as int);
    lemma_first_above(u, target, u.len() as int);
    assert(u.last() == u[u.len() - 1]);
    match densest(ps, u, lo, hi, u.len() as int) {
        Some((p, _)) => {
            let i = choose|i: int| 0 <= i < u.len() && u[i] == p;
        },
        None => {
            match first_above(u, target, u.len() as int) {
                Some(x) => {
                    lemma_between_ends(u, x);
                    let i = choose|i: int| 0 <= i < u.len() && u[i] == x;
                },
                None => {},
            }
        },
    }
}

/// The boundaries from `cm` rise strictly, are pages of the document, and end
/// at the last page.
proof fn lemma_boundaries(ps: Seq<i64>, cm: int, chunk_size: int)
    requires
        ps.len() > 0,
        distinct_pages(ps)[0] <= cm <= distinct_pages(ps).last(),
        chunk_size > 5,
    ensures
        ({
            let u = distinct_pages(ps);
            let bs = boundaries_from(ps, u, cm, chunk_size);
            &&& forall|i: int| 0 <= i < bs.len() ==> cm < #[trigger] bs[i] <= u.last()
            &&& forall|i: int| 0 <= i < bs.len() ==> exists|k: int| 0 <= k < u.len() && u[k] == #[trigger] bs[i]
            &&& forall|i: int, j: int| 0 <= i < j < bs.len() ==> bs[i] < bs[j]
            &&& cm < u.last() ==> bs.len() > 0 && bs.last() == u.last()
        }),
    decreases distinct_pages(ps).last() - cm,
{
    let u = distinct_pages(ps);
    lemma_page_between(ps, 0);
    if cm < u.last() {
        lemma_next_boundary(ps, cm, chunk_size);
        let b = next_boundary(ps, u, cm, chunk_size);
        lemma_boundaries(ps, b, chunk_size);
        let rest = boundaries_from(ps, u, b, chunk_size);
        let bs = boundaries_from(ps, u, cm, chunk_size);
        assert(bs == seq![b] + rest);
        assert forall|i: int| 0 <= i < bs.len() implies cm < #[trigger] bs[i] <= u.last() by {
            if i > 0 {
                assert(bs[i] == rest[i - 1]);
            }
        }
        assert forall|i: int| 0 <= i < bs.len() implies exists|k: int| 0 <= k < u.len() && u[k] == #[trigger] bs[i] by {
            if i > 0 {
                assert(bs[i] == rest[i - 1]);
            }
        }
        assert forall|i: int, j: int| 0 <= i < j < bs.len() implies bs[i] < bs[j] by {
            assert(bs[j] == rest[j - 1]);
            if i > 0 {
                assert(bs[i] == rest[i - 1]);
            }
        }
        if b < u.last() {
            assert(bs.last() == rest.last());
        } else {
            assert(rest.len() == 0);
        }
    }
}

/// The `i`-th boundary before boundary `i` (the first page for the first).
pub open spec fn prev_boundary(first: int, bs: Seq<int>, i: int) -> int {
    if i == 0 {
        first
    } else {
        bs[i - 1]
    }
}

/// With a non-negative overlap no boundary chunk is empty: the plan so far has
/// one range and one chunk per boundary, as the boundaries give them.
proof fn lemma_prefix_shape(ps: Seq<i64>, bs: Seq<int>, overlap: int, k: int)
    requires
        0 < ps.len() <= usize::MAX,
        overlap >= 0,
        0 <= k <= bs.len(),
        forall|i: int| 0 <= i < bs.len() ==> distinct_pages(ps)[0] < #[trigger] bs[i] <= distinct_pages(ps).last(),
        forall|i: int|
            0 <= i < bs.len() ==> exists|m: int|
                0 <= m < distinct_pages(ps).len() && distinct_pages(ps)[m] == #[trigger] bs[i],
        forall|i: int, j: int| 0 <= i < j < bs.len() ==> bs[i] < bs[j],
    ensures
        ({
            let u = distinct_pages(ps);
            let first = u[0] as int;
            let last = u.last() as int;
            let (rs, cs) = plan_prefix(ps, u, bs, overlap, k);
            &&& rs.len() == k
            &&& cs.len() == k
            &&& forall|i: int|
                0 <= i < k ==> #[trigger] rs[i] == (
                    range_start(first, prev_boundary(first, bs, i), overlap),
                    if last < bs[i] + overlap {
                        last
                    } else {
                        bs[i] + overlap
                    },
                )
            &&& forall|i: int|
                0 <= i < k ==> #[trigger] cs[i] == window(
                    ps,
                    grouped(ps, u),
                    prev_boundary(first, bs, i) - overlap,
                    bs[i] + overlap,
                )
        }),
    decreases k,
{
    if k > 0 {
        lemma_prefix_shape(ps, bs, overlap, k - 1);
        let u = distinct_pages(ps);
        lemma_distinct_pages(ps);
        let first = u[0] as int;
        let prev = prev_boundary(first, bs, k - 1);
        let b = bs[k - 1];
        let m = choose|m: int| 0 <= m < u.len() && u[m] == b;
        assert(u.contains(u[m]));
        let j = choose|j: int| 0 <= j < ps.len() && ps[j] == u[m];
        lemma_grouped_contains(ps, u, j);
        if k > 1 {
            assert(bs[k - 2] < bs[k - 1]);
        }
        assert((j as usize) as int == j);
        assert(prev < b);
        lemma_window_contains(ps, grouped(ps, u), prev - overlap, b + overlap, j as usize);
        assert(window(ps, grouped(ps, u), prev - overlap, b + overlap).len() > 0);
    }
}

/// A boundary sits at a later distinct page than the ones before it: the
/// `i`-th boundary's index among the distinct pages is at least `i + 1`.
proof fn lemma_boundary_index(u: Seq<i64>, bs: Seq<int>, i: int)
    requires
        u.len() > 0,
        strictly_ascending(u),
        0 <= i < bs.len(),
        forall|m: int| 0 <= m < bs.len() ==> u[0] < #[trigger] bs[m],
        forall|m: int| 0 <= m < bs.len() ==> exists|k: int| 0 <= k < u.len() && u[k] == #[trigger] bs[m],
        forall|m: int, n: int| 0 <= m < n < bs.len() ==> bs[m] < bs[n],
    ensures
        forall|k: int| 0 <= k < u.len() && u[k] == bs[i] ==> k >= i + 1,
    decreases i,
{
    if i > 0 {
        lemma_boundary_index(u, bs, i - 1);
        assert(bs[i - 1] < bs[i]);
        let k0 = choose|k: int| 0 <= k < u.len() && u[k] == #[trigger] bs[i - 1];
        assert forall|k: int| 0 <= k < u.len() && u[k] == bs[i] implies k >= i + 1 by {
            if k <= k0 {
                if k < k0 {
                    assert(u[k] < u[k0]);
                }
            }
        }
    }
}

/// Each chunk of a plan holds exactly the items whose page lies in its range,
/// grouped by page and in document order within a page.
pub open spec fn chunks_are_windows(ps: Seq<i64>, rs: Seq<(int, int)>, cs: Seq<Seq<usize>>) -> bool {
    &&& rs.len() == cs.len()
    &&& forall|i: int|
        0 <= i < cs.len() ==> #[trigger] cs[i] == window(ps, grouped(ps, distinct_pages(ps)), rs[i].0, rs[i].1)
}

/// Consecutive ranges leave no gap between them and their ends do not fall back;
/// the first starts on the first page and the last ends on the last page.
pub open spec fn ranges_chain(ps: Seq<i64>, rs: Seq<(int, int)>) -> bool {
    &&& rs.len() > 0
    &&& rs[0].0 == distinct_pages(ps)[0]
    &&& rs.last().1 == distinct_pages(ps).last()
    &&& forall|i: int| 0 <= i < rs.len() - 1 ==> (#[trigger] rs[i + 1]).0 <= rs[i].1 && rs[i].1 <= rs[i + 1].1
}

/// Item `j` lies in some chunk.
pub open spec fn in_some_chunk(cs: Seq<Seq<usize>>, j: int) -> bool {
    exists|i: int| 0 <= i < cs.len() && #[trigger] cs[i].contains(j as usize)
}

/// Every item lies in some chunk.
pub open spec fn chunks_cover(ps: Seq<i64>, cs: Seq<Seq<usize>>) -> bool {
    forall|j: int| 0 <= j < ps.len() ==> #[trigger] in_some_chunk(cs, j)
}

proof fn lemma_segment(bs: Seq<int>, p: int, n: int)
    requires
        0 < n <= bs.len(),
        p <= bs[n - 1],
    ensures
        exists|i: int| 0 <= i < n && p <= #[trigger] bs[i] && (i == 0 || bs[i - 1] < p),
    decreases n,
{
    if n > 1 && p <= bs[n - 2] {
        lemma_segment(bs, p, n - 1);
        let i = choose|i: int| 0 <= i < n - 1 && p <= #[trigger] bs[i] && (i == 0 || bs[i - 1] < p);
        assert(0 <= i < n && p <= bs[i] && (i == 0 || bs[i - 1] < p));
    } else {
        assert(p <= bs[n - 1] && (n - 1 == 0 || bs[n - 2] < p));
    }
}

/// Chunking a document that spans more than two pages, with a boundary
/// step above five pages and a non-negative overlap: every chunk holds
/// exactly the items whose page lies in its range (grouped by page, document
/// order within a page); the ranges run from the first page to the last,
/// each starting no later than the previous one ends; and every item lands
/// in at least one chunk. There are no more ranges than distinct pages.
pub proof fn law_chunk_plan_covers(ps: Seq<i64>, chunk_size: int, overlap: int)
    requires
        ps.len() <= usize::MAX,
        page_span(ps) > 2,
        chunk_size > 5,
        overlap >= 0,
    ensures
        chunks_are_windows(ps, chunk_plan_spec(ps, chunk_size, overlap).0, chunk_plan_spec(ps, chunk_size, overlap).1),
        ranges_chain(ps, chunk_plan_spec(ps, chunk_size, overlap).0),
        chunks_cover(ps, chunk_plan_spec(ps, chunk_size, overlap).1),
        chunk_plan_spec(ps, chunk_size, overlap).0.len() <= distinct_pages(ps).len(),
{
    let u = distinct_pages(ps);
    lemma_page_between(ps, 0);
    lemma_distinct_pages(ps);
    lemma_grouped(ps, u);
    let first = u[0] as int;
    let last = u.last() as int;
    let g = grouped(ps, u);
    lemma_boundaries(ps, first, chunk_size);
    let bs = boundaries_from(ps, u, first, chunk_size);
    let n = bs.len() as int;
    lemma_prefix_shape(ps, bs, overlap, n);
    let (rs0, cs0) = plan_prefix(ps, u, bs, overlap, n);
    let prev = bs.last();
    assert(bs.last() == bs[n - 1]);
    assert(prev == last);
    let c = window(ps, g, prev - overlap, last);
    let start = range_start(first, prev, overlap);
    let (rs, cs) = chunk_plan_spec(ps, chunk_size, overlap);
    // pages of grouped positions lie between the first and last page
    assert forall|m: int| 0 <= m < g.len() implies first <= ps[(#[trigger] g[m]) as int] <= last by {
        lemma_page_between(ps, g[m] as int);
    }
    // boundary chunks are windows over their ranges
    assert forall|i: int| 0 <= i < n implies #[trigger] cs0[i] == window(ps, g, rs0[i].0, rs0[i].1) by {
        let pv = prev_boundary(first, bs, i);
        let hi = if last < bs[i] + overlap { last } else { bs[i] + overlap };
        assert(rs0[i] == (range_start(first, pv, overlap), hi));
        if i > 0 {
            assert(first < bs[i - 1]);
        }
        assert forall|m: int| 0 <= m < g.len() implies (pv - overlap <= ps[(#[trigger] g[m]) as int] <= bs[i]
            + overlap) == (range_start(first, pv, overlap) <= ps[g[m] as int] <= hi) by {
            assert(first <= ps[g[m] as int] <= last);
        }
        lemma_window_ext(ps, g, pv - overlap, bs[i] + overlap, range_start(first, pv, overlap), hi);
    }
    let kept = c.len() > 0 && last - start > 2;
    if kept {
        assert(rs == rs0.push((start, last)));
        assert(cs == cs0.push(c));
        assert forall|m: int| 0 <= m < g.len() implies (prev - overlap <= ps[(#[trigger] g[m]) as int] <= last)
            == (start <= ps[g[m] as int] <= last) by {
            assert(first <= ps[g[m] as int] <= last);
        }
        lemma_window_ext(ps, g, prev - overlap, last, start, last);
        assert forall|i: int| 0 <= i < cs.len() implies #[trigger] cs[i] == window(ps, g, rs[i].0, rs[i].1) by {
            if i < n {
                assert(cs[i] == cs0[i] && rs[i] == rs0[i]);
            }
        }
    } else {
        assert(rs == rs0);
        assert(cs == cs0);
    }
    assert(chunks_are_windows(ps, rs, cs));
    // ranges chain
    assert(rs[0] == rs0[0]);
    assert(rs0[0].0 == first);
    assert forall|i: int| 0 <= i < rs.len() - 1 implies (#[trigger] rs[i + 1]).0 <= rs[i].1 && rs[i].1 <= rs[i + 1].1 by {
        if i + 1 < n {
            assert(rs[i] == rs0[i] && rs[i + 1] == rs0[i + 1]);
            assert(bs[i] < bs[i + 1]);
            assert(first < bs[i]);
            assert(prev_boundary(first, bs, i + 1) == bs[i]);
        } else {
            assert(rs[i] == rs0[n - 1]);
            assert(bs[n - 1] == last);
        }
    }
    if kept {
        assert(rs.last() == (start, last));
    } else {
        assert(rs.last() == rs0[n - 1]);
    }
    assert(ranges_chain(ps, rs));
    // every item is covered
    assert forall|j: int| 0 <= j < ps.len() implies #[trigger] in_some_chunk(cs, j) by {
        let p = ps[j] as int;
        lemma_page_between(ps, j);
        lemma_segment(bs, p, n);
        let i = choose|i: int| 0 <= i < n && p <= #[trigger] bs[i] && (i == 0 || bs[i - 1] < p);
        let pv = prev_boundary(first, bs, i);
        assert(ps.contains(ps[j]));
        lemma_grouped_contains(ps, u, j);
        assert((j as usize) as int == j);
        assert(pv <= p);
        lemma_window_contains(ps, g, pv - overlap, bs[i] + overlap, j as usize);
        assert(cs[i] == cs0[i]);
        assert(cs[i].contains(j as usize));
    }
    lemma_boundary_index(u, bs, n - 1);
    let kl = choose|k: int| 0 <= k < u.len() && u[k] == #[trigger] bs[n - 1];
    assert(rs.len() <= n + 1);
}


proof fn lemma_text_fold_skip(es: Seq<ElemView>, i: int, k: int)
    requires
        0 <= i < es.len(),
        i < k <= es.len(),
        text_step(text_fold(es, i), es[i]) == text_fold(es, i),
    ensures
        text_fold(es, k) == text_fold(es.remove(i), k - 1),
    decreases k,
{
    let rem = es.remove(i);
    assert forall|m: int| 0 <= m <= i implies text_fold(es, m) == text_fold(rem, m) by {
        lemma_text_fold_prefix(es, rem, i, m);
    }
    if k > i + 1 {
        lemma_text_fold_skip(es, i, k - 1);
        assert(rem[k - 2] == es[k - 1]);
    }
}

proof fn lemma_text_fold_prefix(es: Seq<ElemView>, rem: Seq<ElemView>, i: int, m: int)
    requires
        0 <= m <= i < es.len(),
        rem == es.remove(i),
    ensures
        text_fold(es, m) == text_fold(rem, m),
    decreases m,
{
    if m > 0 {
        lemma_text_fold_prefix(es, rem, i, m - 1);
        assert(rem[m - 1] == es[m - 1]);
    }
}

/// Heading tree: tables, charts, images, seals and their captions and
/// footnotes, the large composite blocks and the page supplements stand beside
/// the text flow. Deleting any one of them leaves every text node (title,
/// content, locations, block ids) exactly as it was: none of them ever adds
/// content or a block id to a text node.
pub proof fn law_text_nodes_ignore_side_blocks(es: Seq<ElemView>, i: int)
    requires
        0 <= i < es.len(),
        ({
            let t = es[i].kind;
            ||| t == "table"@ || t == "table_caption"@ || t == "table_footnote"@ || t == "chart"@
            ||| t == "image"@ || t == "image_caption"@ || t == "image_footnote"@ || t == "seal"@
            ||| t == "super"@ || t == "list"@ || t == "ref_block"@ || t == "equation_block"@
                || t == "image_block"@
            ||| t == "page_title"@ || t == "page_number"@ || t == "page_footnote"@ || t == "header"@
                || t == "aside_text"@ || t == "footer"@
        }),
    ensures
        text_components_spec(es.remove(i)) == text_components_spec(es),
{
    reveal_strlit("title");
    reveal_strlit("table");
    reveal_strlit("table_caption");
    reveal_strlit("table_footnote");
    reveal_strlit("chart");
    reveal_strlit("image");
    reveal_strlit("image_caption");
    reveal_strlit("image_footnote");
    reveal_strlit("seal");
    reveal_strlit("super");
    reveal_strlit("list");
    reveal_strlit("ref_block");
    reveal_strlit("equation_block");
    reveal_strlit("image_block");
    reveal_strlit("page_title");
    reveal_strlit("page_number");
    reveal_strlit("page_footnote");
    reveal_strlit("header");
    reveal_strlit("aside_text");
    reveal_strlit("footer");
    assert(es[i].kind != "title"@) by {
        let t = es[i].kind;
        if t.len() == "title"@.len() {
            assert(t[0] != 't' || t[1] != 'i' || t[2] != 't' || t[3] != 'l' || t[4] != 'e');
        }
    }
    assert(text_step(text_fold(es, i), es[i]) == text_fold(es, i));
    lemma_text_fold_skip(es, i, es.len() as int);
    assert(es.remove(i).len() == es.len() - 1);
}

/// Tree edit distance: between two one-node trees (at any levels) the
/// distance is 0 when the labels are equal and 1 otherwise — a rename is
/// free only between equal labels.
pub proof fn law_ted_single_nodes(a: Seq<char>, la: i64, b: Seq<char>, lb: i64)
    ensures
        ted_spec(seq![(a, la)], seq![(b, lb)]) == if a == b {
            0int
        } else {
            1int
        },
{
    let t1 = seq![(a, la)];
    let t2 = seq![(b, lb)];
    assert(level_end(t1, 2, la) == 2);
    assert(level_end(t2, 2, lb) == 2);
    assert(sub_end(t1, 0) == 2);
    assert(sub_end(t2, 0) == 2);
    assert(sub_end(t1, 1) == 2);
    assert(sub_end(t2, 1) == 2);
    assert(fdist(t1, t2, 2, 2, 2, 2) == 0);
    assert(fdist(t1, t2, 2, 2, 1, 2) == 1);
    assert(fdist(t1, t2, 1, 2, 2, 2) == 1);
    assert(lab(t1, 1) == a && lab(t2, 1) == b);
    let inner = fdist(t1, t2, 1, 2, 1, 2);
    assert(inner == min3(2, 2, rename_cost(a, b)));
    assert(inner == if a == b { 0int } else { 1int });
    lemma_fdist_nonneg(t1, t2, 1, 2, 0, 2);
    lemma_fdist_nonneg(t1, t2, 0, 2, 1, 2);
    assert(lab(t1, 0) == lab(t2, 0));
    assert(ted_spec(t1, t2) == min3(
        fdist(t1, t2, 1, 2, 0, 2) + 1,
        fdist(t1, t2, 0, 2, 1, 2) + 1,
        inner + rename_cost(lab(t1, 0), lab(t2, 0)),
    ));
}

proof fn lemma_clear_before_blocked(bs: Seq<WorkBlock>, p: i64, pos: int, j: int)
    requires
        0 <= j <= pos < bs.len(),
        forall|m: int| j <= m <= pos ==> (#[trigger] bs[m]).page == p,
        bs[j].kind@ == "text"@ || bs[j].kind@ == "list"@ || bs[j].kind@ == "list_item"@,
    ensures
        !clear_before(bs, p, pos),
    decreases pos,
{
    assert(bs[pos].page == p);
    if pos > j {
        lemma_clear_before_blocked(bs, p, pos - 1, j);
    }
}

proof fn lemma_clear_after_blocked(bs: Seq<WorkBlock>, p: i64, pos: int, j: int)
    requires
        0 <= pos <= j < bs.len(),
        forall|m: int| pos <= m <= j ==> (#[trigger] bs[m]).page == p,
        bs[j].kind@ == "text"@ || bs[j].kind@ == "list"@ || bs[j].kind@ == "list_item"@,
    ensures
        !clear_after(bs, p, pos),
    decreases j - pos,
{
    assert(bs[pos].page == p);
    if pos < j {
        lemma_clear_after_blocked(bs, p, pos + 1, j);
    }
}

/// Cross-page table merge: the screen rejects a pair of tables when a text,
/// list or list-item block stands between them on either table's page — after
/// the upper table on its page, or before the lower table on its page — with
/// no other page in between.
pub proof fn law_table_merge_rejects_text_between(bs: Seq<WorkBlock>, t1: int, t2: int, j: int)
    requires
        0 <= t1 < bs.len(),
        0 <= t2 < bs.len(),
        0 <= j < bs.len(),
        bs[j].kind@ == "text"@ || bs[j].kind@ == "list"@ || bs[j].kind@ == "list_item"@,
        (j < t2 && forall|m: int| j <= m <= t2 ==> (#[trigger] bs[m]).page == bs[t2].page)
            || (t1 < j && forall|m: int| t1 <= m <= j ==> (#[trigger] bs[m]).page == bs[t1].page),
    ensures
        !candidates_ok(bs, t1, t2),
{
    if j < t2 && forall|m: int| j <= m <= t2 ==> (#[trigger] bs[m]).page == bs[t2].page {
        lemma_clear_before_blocked(bs, bs[t2].page, t2 - 1, j);
    } else {
        lemma_clear_after_blocked(bs, bs[t1].page, t1 + 1, j);
    }
}

/// Text truncation: a first text whose trimmed form ends a sentence — with
/// `.`, `。`, `?`, `!`, `？`, `！`, `¿`, `¡`, `؟`, `ฯ`, `۔`, `:`, `：`, `…`, `;` or
/// `；`, alone or followed by one closing mark (`’ ” ' " ） 」 】 ] )`) — is
/// never continued by a second text. Nor is one that is empty or shorter
/// than ten characters, nor any pair where either text holds a tab, the
/// second is empty, or both start with an ASCII digit.
pub proof fn law_sentence_end_blocks_continuation(s1: Seq<char>, s2: Seq<char>)
    ensures
        s1.len() < 10 || s2.len() == 0 ==> !merge_rules_spec(s1, s2),
        s1.contains('\t') || s2.contains('\t') ==> !merge_rules_spec(s1, s2),
        s1.len() > 0 && s2.len() > 0 && '0' <= s1[0] <= '9' && '0' <= s2[0] <= '9' ==> !merge_rules_spec(s1, s2),
        ({
            let t = crate::chars::trim_spec(s1);
            let term = |c: char|
                c == '.' || c == '。' || c == '?' || c == '!' || c == '？' || c == '！' || c == '¿'
                    || c == '¡' || c == '؟' || c == 'ฯ' || c == '۔' || c == ':' || c == '：' || c == '…'
                    || c == ';' || c == '；';
            let close = |c: char|
                c == '’' || c == '”' || c == '\'' || c == '"' || c == '）' || c == '」' || c == '】'
                    || c == ']' || c == ')';
            ((t.len() > 0 && term(t.last())) || (t.len() > 1 && close(t.last()) && term(t[t.len() - 2])))
                ==> !merge_rules_spec(s1, s2)
        }),
{
}

proof fn lemma_container_from(bs: Seq<WorkBlock>, i: int, j0: int)
    requires
        0 <= i < bs.len(),
        0 <= j0,
    ensures
        match container_from(bs, i, j0) {
            Some(j) => j0 <= j < bs.len() && bs[j].kind@ == "image_block"@ && 100 * bs[i].bbox[0] >= 95
                * bs[j].bbox[0] && 100 * bs[i].bbox[1] >= 95 * bs[j].bbox[1] && 100 * bs[i].bbox[2] <= 105
                * bs[j].bbox[2] && 100 * bs[i].bbox[3] <= 105 * bs[j].bbox[3],
            None => forall|j: int|
                j0 <= j < bs.len() && (#[trigger] bs[j]).kind@ == "image_block"@ ==> !(100 * bs[i].bbox[0] >= 95
                    * bs[j].bbox[0] && 100 * bs[i].bbox[1] >= 95 * bs[j].bbox[1] && 100 * bs[i].bbox[2]
                    <= 105 * bs[j].bbox[2] && 100 * bs[i].bbox[3] <= 105 * bs[j].bbox[3]),
        },
    decreases bs.len() - j0,
{
    if j0 < bs.len() {
        lemma_container_from(bs, i, j0 + 1);
    }
}

proof fn lemma_image_scan(bs: Seq<WorkBlock>, n: nat)
    requires
        n <= bs.len(),
    ensures
        ({
            let sc = image_scan(bs, n);
            &&& forall|k: int| 0 <= k < sc.0.len() ==> 0 <= #[trigger] sc.0[k] < n
            &&& forall|k: int|
                0 <= k < sc.0.len() ==> (is_overlap_eligible_spec(bs[sc.0[k]].kind@) ==> absorber(bs, #[trigger] sc.0[k])
                    is None)
            &&& forall|k: int|
                0 <= k < sc.1.len() ==> 0 <= (#[trigger] sc.1[k]).0 < n && absorber(bs, sc.1[k].0) == Some(sc.1[k].1)
        }),
    decreases n,
{
    if n > 0 {
        lemma_image_scan(bs, (n - 1) as nat);
        let prev = image_scan(bs, (n - 1) as nat);
        let sc = image_scan(bs, n);
        assert forall|k: int| 0 <= k < sc.0.len() implies 0 <= #[trigger] sc.0[k] < n && (is_overlap_eligible_spec(
            bs[sc.0[k]].kind@,
        ) ==> absorber(bs, sc.0[k]) is None) by {
            if k < prev.0.len() {
                assert(sc.0[k] == prev.0[k]);
            }
        }
        assert forall|k: int| 0 <= k < sc.1.len() implies 0 <= (#[trigger] sc.1[k]).0 < n && absorber(bs, sc.1[k].0)
            == Some(sc.1[k].1) by {
            if k < prev.1.len() {
                assert(sc.1[k] == prev.1[k]);
            }
        }
    }
}

/// Image association: a visual is linked to a block only when that block is
/// an `image_block` whose box holds the visual's box with 5% slack on all
/// four edges (`x0, y0` at least 95% of the block's, `x1, y1` at most 105%);
/// and a visual of a kind that can be absorbed is shown to the model only
/// when no `image_block` holds its box that way.
pub proof fn law_image_links_need_containment(bs: Seq<WorkBlock>)
    ensures
        ({
            let sc = image_scan(bs, bs.len());
            &&& forall|k: int|
                0 <= k < sc.1.len() ==> {
                    let i = (#[trigger] sc.1[k]).0;
                    let j = sc.1[k].1;
                    &&& 0 <= i < bs.len()
                    &&& 0 <= j < bs.len()
                    &&& bs[j].kind@ == "image_block"@
                    &&& 100 * bs[i].bbox[0] >= 95 * bs[j].bbox[0]
                    &&& 100 * bs[i].bbox[1] >= 95 * bs[j].bbox[1]
                    &&& 100 * bs[i].bbox[2] <= 105 * bs[j].bbox[2]
                    &&& 100 * bs[i].bbox[3] <= 105 * bs[j].bbox[3]
                }
            &&& forall|k: int, j: int|
                0 <= k < sc.0.len() && 0 <= j < bs.len() && is_overlap_eligible_spec(bs[#[trigger] sc.0[k]].kind@)
                    && (#[trigger] bs[j]).kind@ == "image_block"@ ==> !(100 * bs[sc.0[k]].bbox[0] >= 95
                    * bs[j].bbox[0] && 100 * bs[sc.0[k]].bbox[1] >= 95 * bs[j].bbox[1] && 100
                    * bs[sc.0[k]].bbox[2] <= 105 * bs[j].bbox[2] && 100 * bs[sc.0[k]].bbox[3] <= 105
                    * bs[j].bbox[3])
        }),
{
    lemma_image_scan(bs, bs.len());
    let sc = image_scan(bs, bs.len());
    assert forall|k: int| 0 <= k < sc.1.len() implies {
        let i = (#[trigger] sc.1[k]).0;
        let j = sc.1[k].1;
        &&& 0 <= i < bs.len()
        &&& 0 <= j < bs.len()
        &&& bs[j].kind@ == "image_block"@
        &&& 100 * bs[i].bbox[0] >= 95 * bs[j].bbox[0]
        &&& 100 * bs[i].bbox[1] >= 95 * bs[j].bbox[1]
        &&& 100 * bs[i].bbox[2] <= 105 * bs[j].bbox[2]
        &&& 100 * bs[i].bbox[3] <= 105 * bs[j].bbox[3]
    } by {
        let i = sc.1[k].0;
        lemma_container_from(bs, i, 0);
    }
    assert forall|k: int, j: int|
        0 <= k < sc.0.len() && 0 <= j < bs.len() && is_overlap_eligible_spec(bs[#[trigger] sc.0[k]].kind@)
            && (#[trigger] bs[j]).kind@ == "image_block"@ implies !(100 * bs[sc.0[k]].bbox[0] >= 95
            * bs[j].bbox[0] && 100 * bs[sc.0[k]].bbox[1] >= 95 * bs[j].bbox[1] && 100
            * bs[sc.0[k]].bbox[2] <= 105 * bs[j].bbox[2] && 100 * bs[sc.0[k]].bbox[3] <= 105
            * bs[j].bbox[3]) by {
        lemma_container_from(bs, sc.0[k], 0);
    }
}

} // verus!
