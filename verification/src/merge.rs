//! Table-merge subtask: decide whether the last table on one page continues
//! into the first table on the next.
//!
//! A pair of tables on consecutive pages is screened by six checks (no text
//! between them, consistent captions, a continuation marker where the lower
//! table has a caption, few footnotes, similar widths, compatible columns);
//! pairs that pass are shown to the model with the upper table's last rows
//! and the lower table's first data rows.

use vstd::prelude::*;
use crate::chars;
use crate::chars::{to_chars, from_chars, trim, append_chars, push_str, chars_eq, to_lower, to_upper, ends_with, find_sub_from, replace_chars, slice_chars};
use crate::block::WorkBlock;
use crate::pattern;
use crate::pattern::{regex_is_match, regex_group1, regex_remove_all};
use crate::table;
use crate::table::{Table, TableModel, full_to_half, parse_table, detect_table_headers, last_row_span_info, first_data_row_span_info, row_colspan_total, row_visual_columns, within_limits, span_limit};
use crate::truncation::str_is;
use crate::pyliteral::{PyValue, PyView};

verus! {

/// One screened table pair, ready for the merge prompt.
#[derive(Debug, Clone)]
pub struct MergeInput {
    /// Position of the upper table (previous page).
    pub table1_idx: usize,
    /// Position of the lower table (next page).
    pub table2_idx: usize,
    /// Last-row span info of the upper table.
    pub upper: Vec<Vec<String>>,
    /// First-data-row span info of the lower table.
    pub lower: Vec<Vec<String>>,
}

/// Text-bearing block types.
pub open spec fn text_kind_spec(kind: Seq<char>) -> bool {
    kind == "text"@ || kind == "list_item"@ || kind == "list"@
}

fn text_kind(kind: &String) -> (r: bool)
    ensures
        r == text_kind_spec(kind@),
{
    str_is(kind, "text") || str_is(kind, "list_item") || str_is(kind, "list")
}

/// Caption-like text: a table/figure number, a section number, or a CJK
/// enumeration at the start.
pub const CAPTION_PATTERN: &'static str = "(?i)^(?:table|表|exhibit|figure|图)\\s*\\d+|^\\d+(?:\\.\\d+)*\\s+|^[一二三四五六七八九十]+、";

/// The caption of the table at `idx`: the block just before it, trimmed,
/// when it is a caption or title block, or short caption-like text.
pub open spec fn caption_spec(bs: Seq<WorkBlock>, idx: int) -> Option<Seq<char>> {
    if idx <= 0 || idx > bs.len() {
        None
    } else {
        let prev = bs[idx - 1];
        let content = chars::trim_spec(prev.content@);
        let k = prev.kind@;
        if k == "table_caption"@ || k == "tab-title"@ || k == "tab-caption"@ || k == "title"@ {
            Some(content)
        } else if k == "text"@ && content.len() < 150 && pattern::regex_match_of(
            CAPTION_PATTERN@,
            content,
        ) == Some(true) {
            Some(content)
        } else {
            None
        }
    }
}

/// The caption of the table at `idx`.
fn caption_chars(blocks: &Vec<WorkBlock>, idx: usize) -> (r: Option<Vec<char>>)
    requires
        idx <= blocks@.len(),
    ensures
        match r {
            Some(c) => caption_spec(blocks@, idx as int) == Some(c@),
            None => caption_spec(blocks@, idx as int) is None,
        },
{
    if idx == 0 {
        return None;
    }
    let prev = &blocks[idx - 1];
    let content = trim(&to_chars(prev.content.as_str()));
    if str_is(&prev.kind, "table_caption") || str_is(&prev.kind, "tab-title") || str_is(
        &prev.kind,
        "tab-caption",
    ) || str_is(&prev.kind, "title") {
        Some(content)
    } else if str_is(&prev.kind, "text") && content.len() < 150 {
        let text = from_chars(content.as_slice());
        match regex_is_match(CAPTION_PATTERN, text.as_str()) {
            Some(true) => Some(content),
            _ => None,
        }
    } else {
        None
    }
}

/// Footnote-like block types.
pub open spec fn footnote_kind(kind: Seq<char>) -> bool {
    kind == "table_footnote"@ || kind == "table_caption"@ || kind == "tab-caption"@ || kind
        == "tab-title"@
}

/// Footnote-like blocks from `pos` on, on page `page`, until the first other block.
pub open spec fn footnotes_from(bs: Seq<WorkBlock>, page: i64, pos: int) -> nat
    decreases bs.len() - pos,
{
    if pos < 0 || pos >= bs.len() {
        0
    } else if bs[pos].page != page {
        0
    } else if footnote_kind(bs[pos].kind@) {
        1 + footnotes_from(bs, page, pos + 1)
    } else {
        0
    }
}

/// The caption of the table at `idx`: the title or text block just above
/// it that reads like a table caption.
pub fn caption_for_table(blocks: &Vec<WorkBlock>, idx: usize) -> (r: Option<String>)
    requires
        idx <= blocks@.len(),
    ensures
        match r {
            Some(c) => caption_spec(blocks@, idx as int) == Some(c@),
            None => caption_spec(blocks@, idx as int) is None,
        },
{
    match caption_chars(blocks, idx) {
        Some(c) => Some(from_chars(c.as_slice())),
        None => None,
    }
}

fn footnote_count(blocks: &Vec<WorkBlock>, idx: usize) -> (r: usize)
    requires
        idx < blocks@.len(),
    ensures
        r == footnotes_from(blocks@, blocks@[idx as int].page, idx + 1),
{
    let page = blocks[idx].page;
    let mut pos = blocks.len();
    let mut count: usize = 0;
    let mut k = idx + 1;
    while k < blocks.len() && blocks[k].page == page && (str_is(&blocks[k].kind, "table_footnote")
        || str_is(&blocks[k].kind, "table_caption") || str_is(&blocks[k].kind, "tab-caption")
        || str_is(&blocks[k].kind, "tab-title"))
        invariant
            idx < k <= blocks@.len(),
            page == blocks@[idx as int].page,
            count == k - idx - 1,
            footnotes_from(blocks@, page, idx + 1) == count + footnotes_from(blocks@, page, k as int),
        decreases blocks.len() - k,
    {
        count = count + 1;
        k = k + 1;
    }
    count
}

/// No text block follows position `pos - 1` on page `page` before another page starts.
pub open spec fn clear_after(bs: Seq<WorkBlock>, page: i64, pos: int) -> bool
    decreases bs.len() - pos,
{
    if pos < 0 || pos >= bs.len() {
        true
    } else if bs[pos].page != page {
        true
    } else if text_kind_spec(bs[pos].kind@) {
        false
    } else {
        clear_after(bs, page, pos + 1)
    }
}

/// No text block precedes position `pos + 1` on page `page` back to the page start.
pub open spec fn clear_before(bs: Seq<WorkBlock>, page: i64, pos: int) -> bool
    decreases pos + 1,
{
    if pos < 0 || pos >= bs.len() {
        true
    } else if bs[pos].page != page {
        true
    } else if text_kind_spec(bs[pos].kind@) {
        false
    } else {
        clear_before(bs, page, pos - 1)
    }
}

/// No text lies between the two tables on their pages.
pub open spec fn text_between_ok(bs: Seq<WorkBlock>, t1: int, t2: int) -> bool {
    clear_after(bs, bs[t1].page, t1 + 1) && clear_before(bs, bs[t2].page, t2 - 1)
}

fn check_text_between(blocks: &Vec<WorkBlock>, t1: usize, t2: usize) -> (r: bool)
    requires
        t1 < blocks@.len(),
        t2 < blocks@.len(),
    ensures
        r == text_between_ok(blocks@, t1 as int, t2 as int),
{
    let p1 = blocks[t1].page;
    let n = blocks.len();
    let mut k = t1 + 1;
    while k < blocks.len() && blocks[k].page == p1
        invariant
            t1 < k <= blocks@.len(),
            p1 == blocks@[t1 as int].page,
            clear_after(blocks@, p1, t1 + 1) == clear_after(blocks@, p1, k as int),
        decreases blocks.len() - k,
    {
        if text_kind(&blocks[k].kind) {
            return false;
        }
        k = k + 1;
    }
    let p2 = blocks[t2].page;
    let mut j = t2;
    while j > 0 && blocks[j - 1].page == p2
        invariant
            j <= t2 < blocks@.len(),
            p2 == blocks@[t2 as int].page,
            clear_after(blocks@, p1, t1 + 1),
            p1 == blocks@[t1 as int].page,
            clear_before(blocks@, p2, t2 - 1) == clear_before(blocks@, p2, j - 1),
        decreases j,
    {
        if text_kind(&blocks[j - 1].kind) {
            return false;
        }
        j = j - 1;
    }
    true
}

/// The table-number patterns, tried in order, with the label each gives.
pub open spec fn number_pattern(k: int) -> (Seq<char>, Seq<char>) {
    if k == 0 {
        ("[Ee]xhibit\\s*(\\d+)"@, "Exhibit"@)
    } else if k == 1 {
        ("EXHIBIT\\s*(\\d+)"@, "Exhibit"@)
    } else if k == 2 {
        ("[Tt]able\\s*([A-Za-z]?\\s*-?\\s*[\\d.]+)"@, "Table"@)
    } else if k == 3 {
        ("[Tt]ab\\.?\\s*([A-Za-z]?\\s*-?\\s*[\\d.]+)"@, "Table"@)
    } else if k == 4 {
        ("TABLE\\s*([A-Za-z]?\\s*-?\\s*[\\d.]+)"@, "Table"@)
    } else if k == 5 {
        ("表\\s*([A-Za-z]?\\s*-?\\s*[\\d.]+)"@, "Table"@)
    } else if k == 6 {
        ("[Ff]igure\\s*(\\d+)"@, "Figure"@)
    } else if k == 7 {
        ("图\\s*(\\d+)"@, "Figure"@)
    } else {
        ("^([一二三四五六七八九十]+)、"@, "CN_Num"@)
    }
}

fn number_pattern_exec(k: usize) -> (r: (&'static str, &'static str))
    requires
        k < 9,
    ensures
        r.0@ == number_pattern(k as int).0,
        r.1@ == number_pattern(k as int).1,
{
    if k == 0 {
        ("[Ee]xhibit\\s*(\\d+)", "Exhibit")
    } else if k == 1 {
        ("EXHIBIT\\s*(\\d+)", "Exhibit")
    } else if k == 2 {
        ("[Tt]able\\s*([A-Za-z]?\\s*-?\\s*[\\d.]+)", "Table")
    } else if k == 3 {
        ("[Tt]ab\\.?\\s*([A-Za-z]?\\s*-?\\s*[\\d.]+)", "Table")
    } else if k == 4 {
        ("TABLE\\s*([A-Za-z]?\\s*-?\\s*[\\d.]+)", "Table")
    } else if k == 5 {
        ("表\\s*([A-Za-z]?\\s*-?\\s*[\\d.]+)", "Table")
    } else if k == 6 {
        ("[Ff]igure\\s*(\\d+)", "Figure")
    } else if k == 7 {
        ("图\\s*(\\d+)", "Figure")
    } else {
        ("^([一二三四五六七八九十]+)、", "CN_Num")
    }
}

/// `s` without spaces and hyphens.
pub open spec fn strip_space_dash(s: Seq<char>) -> Seq<char>
    decreases s.len(),
{
    if s.len() == 0 {
        seq![]
    } else {
        let prev = strip_space_dash(s.drop_last());
        if s.last() == ' ' || s.last() == '-' {
            prev
        } else {
            prev.push(s.last())
        }
    }
}

/// The first pattern from `k` on whose group 1 matches: its label and the
/// captured number, spaces and hyphens dropped, uppercased.
pub open spec fn number_from(caption: Seq<char>, k: int) -> Option<(Seq<char>, Seq<char>)>
    decreases 9 - k,
{
    if k < 0 || k >= 9 {
        None
    } else {
        match pattern::regex_group1_of(number_pattern(k).0, caption) {
            Some(m) => Some((number_pattern(k).1, chars::upper_of(strip_space_dash(m)))),
            None => number_from(caption, k + 1),
        }
    }
}

fn extract_table_number(caption: &str) -> (r: Option<(Vec<char>, Vec<char>)>)
    ensures
        match r {
            Some(p) => number_from(caption@, 0) == Some((p.0@, p.1@)),
            None => number_from(caption@, 0) is None,
        },
{
    let mut k: usize = 0;
    while k < 9
        invariant
            k <= 9,
            number_from(caption@, 0) == number_from(caption@, k as int),
        decreases 9 - k,
    {
        let (pat, label) = number_pattern_exec(k);
        match regex_group1(pat, caption) {
            Some(m) => {
                let mc = to_chars(m.as_str());
                let mut kept: Vec<char> = Vec::new();
                let mut i: usize = 0;
                while i < mc.len()
                    invariant
                        i <= mc.len(),
                        kept@ == strip_space_dash(mc@.take(i as int)),
                    decreases mc.len() - i,
                {
                    assert(mc@.take(i + 1).drop_last() =~= mc@.take(i as int));
                    assert(mc@.take(i + 1).last() == mc@[i as int]);
                    if mc[i] != ' ' && mc[i] != '-' {
                        kept.push(mc[i]);
                    }
                    i = i + 1;
                }
                assert(mc@.take(mc.len() as int) =~= mc@);
                let up = to_upper(from_chars(kept.as_slice()).as_str());
                return Some((to_chars(label), to_chars(up.as_str())));
            },
            None => {},
        }
        k = k + 1;
    }
    None
}

/// Continuation markers that may end a caption.
pub open spec fn end_marker(k: int) -> Seq<char> {
    if k == 0 {
        "(续)"@
    } else if k == 1 {
        "(续表)"@
    } else if k == 2 {
        "(续上表)"@
    } else if k == 3 {
        "(continued)"@
    } else if k == 4 {
        "(cont.)"@
    } else if k == 5 {
        "(cont'd)"@
    } else if k == 6 {
        "(…continued)"@
    } else {
        "续表"@
    }
}

fn end_marker_exec(k: usize) -> (r: &'static str)
    requires
        k < 8,
    ensures
        r@ == end_marker(k as int),
{
    if k == 0 {
        "(续)"
    } else if k == 1 {
        "(续表)"
    } else if k == 2 {
        "(续上表)"
    } else if k == 3 {
        "(continued)"
    } else if k == 4 {
        "(cont.)"
    } else if k == 5 {
        "(cont'd)"
    } else if k == 6 {
        "(…continued)"
    } else {
        "续表"
    }
}

/// `t` with the first (lowercased) end marker from `k` on that ends it removed.
pub open spec fn strip_end_marker(t: Seq<char>, k: int) -> Seq<char>
    decreases 8 - k,
{
    if k < 0 || k >= 8 {
        t
    } else if chars::ends_with_spec(t, chars::lower_of(end_marker(k))) {
        t.take(t.len() - chars::lower_of(end_marker(k)).len())
    } else {
        strip_end_marker(t, k + 1)
    }
}

/// Characters that are neither word characters nor CJK ideographs.
pub const CLEAN_PATTERN: &'static str = "[^\\w\\x{4e00}-\\x{9fa5}]";

/// A caption reduced for comparison: NFKC, lowercased, one trailing
/// continuation marker removed, then every non-word, non-CJK character dropped.
pub open spec fn clean_spec(text: Seq<char>) -> Seq<char> {
    let t = strip_end_marker(chars::lower_of(table::nfkc_of(text)), 0);
    match pattern::regex_removed_of(CLEAN_PATTERN@, t) {
        Some(x) => x,
        None => t,
    }
}

fn lowered_nfkc(text: &Vec<char>) -> (r: Vec<char>)
    ensures
        r@ == chars::lower_of(table::nfkc_of(text@)),
{
    let s = from_chars(text.as_slice());
    let h = full_to_half(s.as_str());
    to_chars(to_lower(h.as_str()).as_str())
}

fn clean_caption(text: &Vec<char>) -> (r: Vec<char>)
    ensures
        r@ == clean_spec(text@),
{
    let mut t = lowered_nfkc(text);
    let ghost t0 = t@;
    let mut k: usize = 0;
    while k < 8
        invariant
            k <= 8,
            t@ == t0,
            t0 == chars::lower_of(table::nfkc_of(text@)),
            strip_end_marker(t0, 0) == strip_end_marker(t0, k as int),
        decreases 8 - k,
    {
        let m = to_chars(to_lower(end_marker_exec(k)).as_str());
        if ends_with(&t, &m) {
            let cut = slice_chars(&t, 0, t.len() - m.len());
            assert(cut@ =~= t0.take(t0.len() - m@.len()));
            let s = from_chars(cut.as_slice());
            return match regex_remove_all(CLEAN_PATTERN, s.as_str()) {
                Some(x) => to_chars(x.as_str()),
                None => cut,
            };
        }
        k = k + 1;
    }
    let s = from_chars(t.as_slice());
    match regex_remove_all(CLEAN_PATTERN, s.as_str()) {
        Some(x) => to_chars(x.as_str()),
        None => t,
    }
}

/// Captions agree: both absent, or only the upper present, or both present
/// with equal table numbers (when both carry one) or equal cleaned text.
pub open spec fn captions_consistent(bs: Seq<WorkBlock>, t1: int, t2: int) -> bool {
    match (caption_spec(bs, t1), caption_spec(bs, t2)) {
        (None, None) => true,
        (Some(_), None) => true,
        (None, Some(_)) => false,
        (Some(c1), Some(c2)) => match (number_from(c1, 0), number_from(c2, 0)) {
            (Some(a), Some(b)) => a == b,
            _ => clean_spec(c1) == clean_spec(c2),
        },
    }
}

pub fn check_caption_consistency(blocks: &Vec<WorkBlock>, t1: usize, t2: usize) -> (r: bool)
    requires
        t1 <= blocks@.len(),
        t2 <= blocks@.len(),
    ensures
        r == captions_consistent(blocks@, t1 as int, t2 as int),
{
    let cap1 = caption_chars(blocks, t1);
    let cap2 = caption_chars(blocks, t2);
    match (cap1, cap2) {
        (None, None) => true,
        (Some(_), None) => true,
        (None, Some(_)) => false,
        (Some(c1), Some(c2)) => {
            let r1 = extract_table_number(from_chars(c1.as_slice()).as_str());
            let r2 = extract_table_number(from_chars(c2.as_slice()).as_str());
            match (r1, r2) {
                (Some(a), Some(b)) => {
                    let same = chars_eq(&a.0, &b.0) && chars_eq(&a.1, &b.1);
                    assert(same == ((a.0@, a.1@) == (b.0@, b.1@)));
                    same
                },
                _ => chars_eq(&clean_caption(&c1), &clean_caption(&c2)),
            }
        },
    }
}

/// Some end marker from `k` on (lowercased) ends `cl`.
pub open spec fn any_end_marker(cl: Seq<char>, k: int) -> bool
    decreases 8 - k,
{
    if k < 0 || k >= 8 {
        false
    } else {
        chars::ends_with_spec(cl, chars::lower_of(end_marker(k))) || any_end_marker(cl, k + 1)
    }
}

/// The lower table's caption, if any, marks a continuation: ends with an end
/// marker or contains `(continued)`, after NFKC and lowercasing.
pub open spec fn continuation_ok(bs: Seq<WorkBlock>, t2: int) -> bool {
    match caption_spec(bs, t2) {
        None => true,
        Some(c) => {
            let cl = chars::lower_of(table::nfkc_of(c));
            any_end_marker(cl, 0) || chars::find_sub(cl, chars::lower_of("(continued)"@)) is Some
        },
    }
}

fn check_continuation_marker(blocks: &Vec<WorkBlock>, t2: usize) -> (r: bool)
    requires
        t2 <= blocks@.len(),
    ensures
        r == continuation_ok(blocks@, t2 as int),
{
    let cap2 = match caption_chars(blocks, t2) {
        None => {
            return true;
        },
        Some(c) => c,
    };
    let cl = lowered_nfkc(&cap2);
    let mut k: usize = 0;
    while k < 8
        invariant
            k <= 8,
            caption_spec(blocks@, t2 as int) == Some(cap2@),
            cl@ == chars::lower_of(table::nfkc_of(cap2@)),
            any_end_marker(cl@, 0) == any_end_marker(cl@, k as int),
        decreases 8 - k,
    {
        let m = to_chars(to_lower(end_marker_exec(k)).as_str());
        if ends_with(&cl, &m) {
            return true;
        }
        k = k + 1;
    }
    let inline = to_chars(to_lower("(continued)").as_str());
    find_sub_from(&cl, &inline, 0).is_some()
}

/// Footnotes after the upper table: at most one when the lower table has a
/// caption, none otherwise.
pub open spec fn footnotes_ok(bs: Seq<WorkBlock>, t1: int, t2: int) -> bool {
    let count = footnotes_from(bs, bs[t1].page, t1 + 1);
    if caption_spec(bs, t2) is Some {
        count <= 1
    } else {
        count == 0
    }
}

fn check_footnote_count(blocks: &Vec<WorkBlock>, t1: usize, t2: usize) -> (r: bool)
    requires
        t1 < blocks@.len(),
        t2 <= blocks@.len(),
    ensures
        r == footnotes_ok(blocks@, t1 as int, t2 as int),
{
    let count = footnote_count(blocks, t1);
    if caption_chars(blocks, t2).is_some() {
        count <= 1
    } else {
        count == 0
    }
}

/// Widths within 10% of the narrower one (always when a width is not positive).
pub open spec fn widths_ok(b1: WorkBlock, b2: WorkBlock) -> bool {
    let w1 = b1.bbox[2] - b1.bbox[0];
    let w2 = b2.bbox[2] - b2.bbox[0];
    let m = if w1 < w2 {
        w1
    } else {
        w2
    };
    let d = if w1 >= w2 {
        w1 - w2
    } else {
        w2 - w1
    };
    m <= 0 || 10 * d < m
}

pub fn check_width_difference(blocks: &Vec<WorkBlock>, t1: usize, t2: usize) -> (r: bool)
    requires
        t1 < blocks@.len(),
        t2 < blocks@.len(),
    ensures
        r == widths_ok(blocks@[t1 as int], blocks@[t2 as int]),
{
    let b1 = &blocks[t1];
    let b2 = &blocks[t2];
    let w1 = b1.bbox[2] as i128 - b1.bbox[0] as i128;
    let w2 = b2.bbox[2] as i128 - b2.bbox[0] as i128;
    let m = if w1 < w2 {
        w1
    } else {
        w2
    };
    let d = if w1 >= w2 {
        w1 - w2
    } else {
        w2 - w1
    };
    m <= 0 || 10 * d < m
}

/// The last non-empty row among the first `n` rows.
pub open spec fn last_nonempty(m: TableModel, n: int) -> Option<int>
    decreases n,
{
    if n <= 0 || n > m.len() {
        None
    } else if m[n - 1].len() > 0 {
        Some(n - 1)
    } else {
        last_nonempty(m, n - 1)
    }
}

/// The upper table's last non-empty row and the lower table's first data
/// row agree in effective, colspan-summed or raw column count.
pub open spec fn rows_agree(m1: TableModel, m2: TableModel) -> bool {
    let header = table::headers_spec(m1, m2);
    match last_nonempty(m1, m1.len() as int) {
        None => false,
        Some(l) => if m2.len() > header {
            ||| table::row_extent(table::occupancy(m1), l) == table::row_extent(table::occupancy(m2), header)
            ||| table::colspan_sum(m1[l]) == table::colspan_sum(m2[header])
            ||| m1[l].len() == m2[header].len()
        } else {
            false
        },
    }
}

fn check_rows_match(t1: &Table, t2: &Table) -> (r: bool)
    requires
        within_limits(t1.model()),
        within_limits(t2.model()),
    ensures
        r == rows_agree(t1.model(), t2.model()),
{
    let mut n = t1.rows.len();
    while n > 0 && t1.rows[n - 1].len() == 0
        invariant
            n <= t1.rows@.len(),
            last_nonempty(t1.model(), t1.model().len() as int) == last_nonempty(t1.model(), n as int),
        decreases n,
    {
        n = n - 1;
    }
    if n == 0 {
        return false;
    }
    let last = n - 1;
    let header = detect_table_headers(t1, t2);
    if t2.rows.len() <= header {
        return false;
    }
    let first = header;
    assert(t1.model()[last as int] == table::row_model(t1.rows@[last as int]@));
    assert(t2.model()[first as int] == table::row_model(t2.rows@[first as int]@));
    proof {
        assert forall|j: int| 0 <= j < t1.model()[last as int].len() implies 0 <= #[trigger] t1.model()[last as int][j].0 <= span_limit() by {}
        assert forall|j: int| 0 <= j < t2.model()[first as int].len() implies 0 <= #[trigger] t2.model()[first as int][j].0 <= span_limit() by {}
        table::lemma_colspan_sum_bound(t1.model()[last as int]);
        table::lemma_colspan_sum_bound(t2.model()[first as int]);
    }
    t1.row_effective_columns(last) == t2.row_effective_columns(first) || row_colspan_total(
        t1.rows[last].as_slice(),
    ) == row_colspan_total(t2.rows[first].as_slice()) || row_visual_columns(t1.rows[last].as_slice())
        == row_visual_columns(t2.rows[first].as_slice())
}

/// Whether a table stays within the layout limits.
pub fn fits_limits(t: &Table) -> (r: bool)
    ensures
        r == within_limits(t.model()),
{
    if t.rows.len() > 0x400 {
        return false;
    }
    let mut i: usize = 0;
    while i < t.rows.len()
        invariant
            i <= t.rows@.len() <= 0x400,
            forall|a: int| 0 <= a < i ==> #[trigger] t.model()[a].len() <= span_limit(),
            forall|a: int, b: int| 0 <= a < i && 0 <= b < t.model()[a].len() ==> (#[trigger] t.model()[a][b]).0 <= span_limit() && t.model()[a][b].1 <= span_limit(),
        decreases t.rows.len() - i,
    {
        let row = &t.rows[i];
        assert(t.model()[i as int] == table::row_model(row@));
        if row.len() > 0x400 {
            return false;
        }
        let mut j: usize = 0;
        while j < row.len()
            invariant
                i < t.rows@.len(),
                row@ == t.rows@[i as int]@,
                t.model()[i as int] == table::row_model(row@),
                j <= row@.len(),
                forall|b: int| 0 <= b < j ==> (#[trigger] t.model()[i as int][b]).0 <= span_limit() && t.model()[i as int][b].1 <= span_limit(),
            decreases row.len() - j,
        {
            if row[j].colspan > 0x400 || row[j].rowspan > 0x400 {
                assert(t.model()[i as int][j as int] == table::cell_model(row@[j as int]));
                return false;
            }
            j = j + 1;
        }
        i = i + 1;
    }
    true
}


/// The table model parsed from a block's HTML content.
pub open spec fn parsed_model(content: Seq<char>) -> TableModel {
    table::cells_model(table::html_cells_of(content))
}

/// Both tables parse to rows within the layout limits, and agree in total
/// columns or in their boundary rows. Tables past the layout limits are
/// never merged.
pub open spec fn columns_ok(bs: Seq<WorkBlock>, t1: int, t2: int) -> bool {
    let m1 = parsed_model(bs[t1].content@);
    let m2 = parsed_model(bs[t2].content@);
    &&& m1.len() > 0
    &&& m2.len() > 0
    &&& within_limits(m1)
    &&& within_limits(m2)
    &&& (table::total_columns_spec(m1) == table::total_columns_spec(m2) || rows_agree(m1, m2))
}

fn check_column_count(blocks: &Vec<WorkBlock>, t1: usize, t2: usize) -> (r: bool)
    requires
        t1 < blocks@.len(),
        t2 < blocks@.len(),
    ensures
        r == columns_ok(blocks@, t1 as int, t2 as int),
{
    let s1 = parse_table(blocks[t1].content.as_str());
    let s2 = parse_table(blocks[t2].content.as_str());
    if !s1.has_rows() || !s2.has_rows() {
        return false;
    }
    if !fits_limits(&s1) || !fits_limits(&s2) {
        return false;
    }
    if s1.total_columns() == s2.total_columns() {
        return true;
    }
    check_rows_match(&s1, &s2)
}

/// The six screening checks, in order.
pub open spec fn candidates_ok(bs: Seq<WorkBlock>, t1: int, t2: int) -> bool {
    &&& text_between_ok(bs, t1, t2)
    &&& captions_consistent(bs, t1, t2)
    &&& continuation_ok(bs, t2)
    &&& footnotes_ok(bs, t1, t2)
    &&& widths_ok(bs[t1], bs[t2])
    &&& columns_ok(bs, t1, t2)
}

/// Runs the six-check screen on a table pair; rejects on the first failure.
pub fn filter_table_merge_candidates(blocks: &Vec<WorkBlock>, t1: usize, t2: usize) -> (r: bool)
    requires
        t1 < blocks@.len(),
        t2 < blocks@.len(),
    ensures
        r == candidates_ok(blocks@, t1 as int, t2 as int),
{
    check_text_between(blocks, t1, t2) && check_caption_consistency(blocks, t1, t2)
        && check_continuation_marker(blocks, t2) && check_footnote_count(blocks, t1, t2)
        && check_width_difference(blocks, t1, t2) && check_column_count(blocks, t1, t2)
}

/// Pages of the table blocks among the first `n` blocks, in block order.
pub open spec fn table_pages(bs: Seq<WorkBlock>, n: int) -> Seq<i64>
    decreases n,
{
    if n <= 0 || n > bs.len() {
        seq![]
    } else if bs[n - 1].kind@ == "table"@ {
        table_pages(bs, n - 1).push(bs[n - 1].page)
    } else {
        table_pages(bs, n - 1)
    }
}

/// The last table on page `p` among the first `n` blocks.
pub open spec fn last_table_on(bs: Seq<WorkBlock>, p: i64, n: int) -> Option<int>
    decreases n,
{
    if n <= 0 || n > bs.len() {
        None
    } else if bs[n - 1].kind@ == "table"@ && bs[n - 1].page == p {
        Some(n - 1)
    } else {
        last_table_on(bs, p, n - 1)
    }
}

/// The first table on page `p` at or after position `i`.
pub open spec fn first_table_on(bs: Seq<WorkBlock>, p: i64, i: int) -> Option<int>
    decreases bs.len() - i,
{
    if i < 0 || i >= bs.len() {
        None
    } else if bs[i].kind@ == "table"@ && bs[i].page == p {
        Some(i)
    } else {
        first_table_on(bs, p, i + 1)
    }
}

/// The table pairs, from the `k`-th distinct table page on, that sit on
/// consecutive pages and pass screening: the last table of the earlier page
/// and the first of the later one.
pub open spec fn merge_pairs(bs: Seq<WorkBlock>, u: Seq<i64>, k: int) -> Seq<(int, int)>
    decreases u.len() - k,
{
    if k < 0 || k + 1 >= u.len() {
        seq![]
    } else {
        let rest = merge_pairs(bs, u, k + 1);
        if u[k + 1] == u[k] + 1 {
            match (last_table_on(bs, u[k], bs.len() as int), first_table_on(bs, u[k + 1], 0)) {
                (Some(t1), Some(t2)) => if candidates_ok(bs, t1, t2) {
                    seq![(t1, t2)] + rest
                } else {
                    rest
                },
                _ => rest,
            }
        } else {
            rest
        }
    }
}

/// The screened pairs of a document, in page order.
pub open spec fn merge_plan(bs: Seq<WorkBlock>) -> Seq<(int, int)> {
    merge_pairs(bs, crate::chunk::distinct_pages(table_pages(bs, bs.len() as int)), 0)
}

/// `mi` is the prompt input for the pair `(t1, t2)`: the upper table's last
/// rows and the lower table's first data rows after the shared headers.
pub open spec fn input_for(mi: MergeInput, bs: Seq<WorkBlock>, t1: int, t2: int) -> bool {
    let m1 = parsed_model(bs[t1].content@);
    let m2 = parsed_model(bs[t2].content@);
    &&& mi.table1_idx == t1
    &&& mi.table2_idx == t2
    &&& mi.upper.deep_view() == table::last_rows_spec(m1)
    &&& mi.lower.deep_view() == table::first_rows_spec(m2, table::headers_spec(m1, m2))
}

proof fn lemma_last_table_range(bs: Seq<WorkBlock>, p: i64, n: int)
    ensures
        last_table_on(bs, p, n) matches Some(t) ==> 0 <= t < bs.len(),
    decreases n,
{
    if !(n <= 0 || n > bs.len()) && !(bs[n - 1].kind@ == "table"@ && bs[n - 1].page == p) {
        lemma_last_table_range(bs, p, n - 1);
    }
}

proof fn lemma_first_table_range(bs: Seq<WorkBlock>, p: i64, i: int)
    ensures
        first_table_on(bs, p, i) matches Some(t) ==> 0 <= t < bs.len(),
    decreases bs.len() - i,
{
    if !(i < 0 || i >= bs.len()) && !(bs[i].kind@ == "table"@ && bs[i].page == p) {
        lemma_first_table_range(bs, p, i + 1);
    }
}

fn find_last_table(blocks: &Vec<WorkBlock>, p: i64) -> (r: Option<usize>)
    ensures
        match r {
            Some(t) => last_table_on(blocks@, p, blocks@.len() as int) == Some(t as int),
            None => last_table_on(blocks@, p, blocks@.len() as int) is None,
        },
{
    let mut n = blocks.len();
    while n > 0
        invariant
            n <= blocks@.len(),
            last_table_on(blocks@, p, blocks@.len() as int) == last_table_on(blocks@, p, n as int),
        decreases n,
    {
        if str_is(&blocks[n - 1].kind, "table") && blocks[n - 1].page == p {
            return Some(n - 1);
        }
        n = n - 1;
    }
    None
}

fn find_first_table(blocks: &Vec<WorkBlock>, p: i64) -> (r: Option<usize>)
    ensures
        match r {
            Some(t) => first_table_on(blocks@, p, 0) == Some(t as int),
            None => first_table_on(blocks@, p, 0) is None,
        },
{
    let mut i: usize = 0;
    while i < blocks.len()
        invariant
            i <= blocks@.len(),
            first_table_on(blocks@, p, 0) == first_table_on(blocks@, p, i as int),
        decreases blocks.len() - i,
    {
        if str_is(&blocks[i].kind, "table") && blocks[i].page == p {
            return Some(i);
        }
        i = i + 1;
    }
    None
}

/// Finds adjacent-page table pairs that pass screening and prepares their
/// merge prompt rows.
pub fn filter_table_merge(blocks: &Vec<WorkBlock>) -> (r: Vec<MergeInput>)
    ensures
        r@.len() == merge_plan(blocks@).len(),
        forall|k: int|
            0 <= k < r@.len() ==> input_for(#[trigger] r@[k], blocks@, merge_plan(blocks@)[k].0, merge_plan(blocks@)[k].1),
{
    let mut pages: Vec<i64> = Vec::new();
    let mut i: usize = 0;
    while i < blocks.len()
        invariant
            i <= blocks@.len(),
            pages@ == table_pages(blocks@, i as int),
        decreases blocks.len() - i,
    {
        if str_is(&blocks[i].kind, "table") {
            pages.push(blocks[i].page);
        }
        i = i + 1;
    }
    let u = crate::chunk::distinct_pages_exec(&pages);
    let ghost plan = merge_plan(blocks@);
    let mut inputs: Vec<MergeInput> = Vec::new();
    if u.len() < 2 {
        return inputs;
    }
    let mut k: usize = u.len() - 1;
    let mut rev: Vec<MergeInput> = Vec::new();
    // Pairs are collected from the last page pair backwards, then reversed.
    while k > 0
        invariant
            k < u@.len(),
            plan == merge_pairs(blocks@, u@, 0),
            rev@.len() == merge_pairs(blocks@, u@, k as int).len(),
            forall|m: int|
                0 <= m < rev@.len() ==> {
                    let ps = merge_pairs(blocks@, u@, k as int);
                    input_for(#[trigger] rev@[m], blocks@, ps[ps.len() - 1 - m].0, ps[ps.len() - 1 - m].1)
                },
        decreases k,
    {
        k = k - 1;
        let p1 = u[k];
        let p2 = u[k + 1];
        let ghost rest = merge_pairs(blocks@, u@, k + 1);
        let ghost before = rev@;
        if (p2 as i128) == (p1 as i128) + 1 {
            let a = find_last_table(blocks, p1);
            let b = find_first_table(blocks, p2);
            proof {
                lemma_last_table_range(blocks@, p1, blocks@.len() as int);
                lemma_first_table_range(blocks@, p2, 0);
            }
            match (a, b) {
                (Some(t1), Some(t2)) => {
                    if filter_table_merge_candidates(blocks, t1, t2) {
                        let s1 = parse_table(blocks[t1].content.as_str());
                        let s2 = parse_table(blocks[t2].content.as_str());
                        let header = detect_table_headers(&s1, &s2);
                        let upper = last_row_span_info(&s1);
                        let lower = first_data_row_span_info(&s2, header);
                        rev.push(MergeInput { table1_idx: t1, table2_idx: t2, upper, lower });
                        proof {
                            let now = merge_pairs(blocks@, u@, k as int);
                            assert(now == seq![(t1 as int, t2 as int)] + rest);
                            assert forall|m: int| 0 <= m < rev@.len() implies input_for(#[trigger] rev@[m], blocks@, now[now.len() - 1 - m].0, now[now.len() - 1 - m].1) by {
                                if m < before.len() {
                                    assert(rev@[m] == before[m]);
                                    assert(now[now.len() - 1 - m] == rest[rest.len() - 1 - m]);
                                }
                            }
                        }
                    }
                },
                _ => {},
            }
        }
    }
    let ghost whole = merge_pairs(blocks@, u@, 0);
    while rev.len() > 0
        invariant
            plan == whole,
            whole == merge_pairs(blocks@, u@, 0),
            rev@.len() + inputs@.len() == whole.len(),
            forall|m: int|
                0 <= m < rev@.len() ==> input_for(#[trigger] rev@[m], blocks@, whole[whole.len() - 1 - m].0, whole[whole.len() - 1 - m].1),
            forall|m: int| 0 <= m < inputs@.len() ==> input_for(#[trigger] inputs@[m], blocks@, whole[m].0, whole[m].1),
        decreases rev.len(),
    {
        let ghost old_rev = rev@;
        let item = rev.pop().unwrap();
        assert(item == old_rev[old_rev.len() - 1]);
        inputs.push(item);
        proof {
            assert forall|m: int| 0 <= m < rev@.len() implies input_for(#[trigger] rev@[m], blocks@, whole[whole.len() - 1 - m].0, whole[whole.len() - 1 - m].1) by {
                assert(rev@[m] == old_rev[m]);
            }
        }
    }
    inputs
}

/// A cell rendered as a Python string literal: single quotes, inner single
/// quotes backslash-escaped.
pub open spec fn py_cell(c: Seq<char>) -> Seq<char> {
    "'"@ + chars::replace_spec(c, "'"@, "\\'"@) + "'"@
}

/// A row rendered as a Python list.
pub open spec fn py_row(row: Seq<Seq<char>>) -> Seq<char> {
    "["@ + chars::join_spec(Seq::new(row.len(), |i: int| py_cell(row[i])), ", "@) + "]"@
}

/// Rows rendered as a Python list of lists.
pub open spec fn py_repr_spec(rows: Seq<Seq<Seq<char>>>) -> Seq<char> {
    "["@ + chars::join_spec(Seq::new(rows.len(), |i: int| py_row(rows[i])), ", "@) + "]"@
}

fn py_row_exec(row: &Vec<String>) -> (r: Vec<char>)
    ensures
        r@ == py_row(row.deep_view()),
{
    proof {
        reveal_strlit("'");
    }
    let mut cells: Vec<Vec<char>> = Vec::new();
    let mut i: usize = 0;
    while i < row.len()
        invariant
            i <= row@.len(),
            cells.deep_view() =~= Seq::new(i as nat, |k: int| py_cell(row.deep_view()[k])),
        decreases row.len() - i,
    {
        proof {
            reveal_strlit("'");
        }
        let mut c = to_chars("'");
        append_chars(&mut c, &replace_chars(&to_chars(row[i].as_str()), &to_chars("'"), &to_chars("\\'")));
        push_str(&mut c, "'");
        let ghost before = cells.deep_view();
        assert(c.deep_view() =~= c@);
        assert(row.deep_view()[i as int] == row@[i as int]@);
        cells.push(c);
        assert(cells.deep_view() =~= before.push(py_cell(row.deep_view()[i as int])));
        i = i + 1;
    }
    let mut out = to_chars("[");
    append_chars(&mut out, &chars::join(&cells, &to_chars(", ")));
    push_str(&mut out, "]");
    out
}

/// Renders rows as a Python list-of-lists literal.
fn py_repr(rows: &[Vec<String>]) -> (r: Vec<char>)
    ensures
        r@ == py_repr_spec(rows@.map_values(|row: Vec<String>| row.deep_view())),
{
    let ghost rv = rows@.map_values(|row: Vec<String>| row.deep_view());
    let mut parts: Vec<Vec<char>> = Vec::new();
    let mut i: usize = 0;
    while i < rows.len()
        invariant
            i <= rows@.len(),
            rv == rows@.map_values(|row: Vec<String>| row.deep_view()),
            parts.deep_view() =~= Seq::new(i as nat, |k: int| py_row(rv[k])),
        decreases rows.len() - i,
    {
        let p = py_row_exec(&rows[i]);
        let ghost before = parts.deep_view();
        assert(p.deep_view() =~= p@);
        parts.push(p);
        assert(parts.deep_view() =~= before.push(py_row(rv[i as int])));
        i = i + 1;
    }
    let mut out = to_chars("[");
    append_chars(&mut out, &chars::join(&parts, &to_chars(", ")));
    push_str(&mut out, "]");
    out
}

/// The table-merge prompt: the upper table's last rows and the lower
/// table's first data rows, each as a Python list literal.
pub open spec fn merge_prompt_spec(upper: Seq<Seq<Seq<char>>>, lower: Seq<Seq<Seq<char>>>) -> Seq<char> {
    "\n## Table 1 (Previous Page - Last Table)\n\n**Caption:** :\"\"\n**Last Row(s) Data:**\n"@ + py_repr_spec(upper)
        + "\n\n---\n\n## Table 2 (Current Page - First Table)\n\n**Caption:** :\"\"\n**First Data Row(s):**\n"@
        + py_repr_spec(lower) + "\n"@
}

/// Builds the table-merge prompt.
pub fn build_table_merge_prompt(upper: &[Vec<String>], lower: &[Vec<String>]) -> (r: String)
    ensures
        r@ == merge_prompt_spec(
            upper@.map_values(|row: Vec<String>| row.deep_view()),
            lower@.map_values(|row: Vec<String>| row.deep_view()),
        ),
{
    let mut out = to_chars("\n## Table 1 (Previous Page - Last Table)\n\n**Caption:** :\"\"\n**Last Row(s) Data:**\n");
    append_chars(&mut out, &py_repr(upper));
    push_str(&mut out, "\n\n---\n\n## Table 2 (Current Page - First Table)\n\n**Caption:** :\"\"\n**First Data Row(s):**\n");
    append_chars(&mut out, &py_repr(lower));
    push_str(&mut out, "\n");
    from_chars(out.as_slice())
}

/// A cell list that asks for a merge: a non-empty list.
pub open spec fn merge_requested(v: PyView) -> bool {
    v matches PyView::List(items) && items.len() > 0
}

/// Applies a merge decision: for a non-empty cell list, links the two
/// tables to each other's id and stores the cell list on both.
pub fn apply_merge(blocks: &mut Vec<WorkBlock>, mi: &MergeInput, cell_list: &PyValue)
    requires
        mi.table1_idx < old(blocks)@.len(),
        mi.table2_idx < old(blocks)@.len(),
    ensures
        final(blocks)@.len() == old(blocks)@.len(),
        !merge_requested(cell_list.value()) ==> final(blocks)@ == old(blocks)@,
        merge_requested(cell_list.value()) ==> forall|k: int|
            0 <= k < old(blocks)@.len() ==> {
                let t1 = mi.table1_idx as int;
                let t2 = mi.table2_idx as int;
                if k == t1 || k == t2 {
                    let partner = if k == t2 {
                        old(blocks)@[t1].id
                    } else {
                        old(blocks)@[t2].id
                    };
                    &&& #[trigger] final(blocks)@[k] == (WorkBlock {
                        table_merge: Some(partner),
                        cell_list: final(blocks)@[k].cell_list,
                        ..old(blocks)@[k]
                    })
                    &&& final(blocks)@[k].cell_list matches Some(v) && v.value() == cell_list.value()
                } else {
                    final(blocks)@[k] == old(blocks)@[k]
                }
            },
{
    let non_empty = match cell_list {
        PyValue::List(items) => items.len() > 0,
        _ => false,
    };
    proof {
        if cell_list is List {
            crate::pyliteral::lemma_list_value_len(*cell_list);
        }
    }
    if !non_empty {
        return;
    }
    let t1 = mi.table1_idx;
    let t2 = mi.table2_idx;
    let id1 = blocks[t1].id;
    let id2 = blocks[t2].id;
    let c1 = cell_list.clone();
    let c2 = cell_list.clone();
    blocks[t1].table_merge = Some(id2);
    blocks[t1].cell_list = Some(c1);
    blocks[t2].table_merge = Some(id1);
    blocks[t2].cell_list = Some(c2);
}

} // verus!
