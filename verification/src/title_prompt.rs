//! The benchmark's title-level prompts: each `<|id|>` record carries a
//! block id, a page, a box and the title text.

use vstd::prelude::*;
use crate::chars::{
    to_chars, from_chars, slice_chars, find_sub_from, find_from, occurs_at, lemma_find_from_range,
    trim, trim_spec, split_whitespace, words_spec, parse_i64, parse_i64_spec,
};
use crate::errors::{normalize_text, normalize_text_spec};
use crate::pattern::{regex_groups4, regex_groups4_of};

verus! {

/// The text in front of every title prompt.
pub const TITLE_PREFIX: &'static str = "<image>\nTitle Level Analysis: ";

/// What separates the records of a prompt.
pub const RECORD_SEPARATOR: &'static str = "\n<|id|>";

/// A record: `ID<|page|>PAGE<|box|>BOX<|content|>TEXT`.
pub const RECORD_PATTERN: &'static str = "(?s)^([^<]+)<\\|page\\|>(\\d+)<\\|box\\|>([^<]+)<\\|content\\|>(.*)";

/// The pieces of `s` from position `k` on, cut at each occurrence of `sep`.
pub open spec fn split_from(s: Seq<char>, sep: Seq<char>, k: int) -> Seq<Seq<char>>
    decreases s.len() - k,
{
    if sep.len() == 0 || k < 0 || k > s.len() {
        seq![]
    } else {
        match find_from(s, sep, k) {
            Some(i) => {
                proof {
                    lemma_find_from_range(s, sep, k);
                }
                seq![s.subrange(k, i)] + split_from(s, sep, i + sep.len())
            },
            None => seq![s.subrange(k, s.len() as int)],
        }
    }
}

fn split_on(s: &Vec<char>, sep: &Vec<char>) -> (r: Vec<Vec<char>>)
    requires
        sep@.len() > 0,
    ensures
        r.deep_view() == split_from(s@, sep@, 0),
{
    let mut out: Vec<Vec<char>> = Vec::new();
    let mut k: usize = 0;
    while k <= s.len()
        invariant
            sep@.len() > 0,
            k <= s@.len() + 1,
            k <= s@.len() ==> out.deep_view() + split_from(s@, sep@, k as int) == split_from(s@, sep@, 0),
            k > s@.len() ==> out.deep_view() == split_from(s@, sep@, 0),
        decreases s@.len() + 1 - k,
    {
        let ghost before = out.deep_view();
        match find_sub_from(s, sep, k) {
            Some(i) => {
                proof {
                    lemma_find_from_range(s@, sep@, k as int);
                }
                let piece = slice_chars(s, k, i);
                let ghost pv = piece@;
                assert(piece.deep_view() =~= piece@);
                out.push(piece);
                assert(out.deep_view() =~= before.push(pv));
                assert(split_from(s@, sep@, k as int) == seq![s@.subrange(k as int, i as int)] + split_from(
                    s@,
                    sep@,
                    i + sep@.len(),
                ));
                assert(before.push(pv) + split_from(s@, sep@, i + sep@.len()) =~= before + (seq![pv]
                    + split_from(s@, sep@, i + sep@.len())));
                k = i + sep.len();
            },
            None => {
                let piece = slice_chars(s, k, s.len());
                let ghost pv = piece@;
                assert(piece.deep_view() =~= piece@);
                out.push(piece);
                assert(out.deep_view() =~= before.push(pv));
                assert(split_from(s@, sep@, k as int) == seq![s@.subrange(k as int, s@.len() as int)]);
                assert(before + seq![pv] =~= before.push(pv));
                return out;
            },
        }
    }
    out
}

/// A ground-truth title record of a prompt. The box is kept as words: the
/// prompt writes `top left bottom right`, the record holds the first four
/// words as `left top right bottom` (fewer words are kept as found).
#[derive(Debug)]
pub struct GtTitleBlock {
    /// The record's block id, trimmed.
    pub block_id: String,
    /// The page number (`0` when it does not fit an `i64`).
    pub page: i64,
    /// The box words, `left top right bottom`.
    pub box_words: Vec<String>,
    /// The title text, whitespace-normalized.
    pub content: String,
    /// Position of the record among the prompt's pieces.
    pub order: usize,
}

/// The abstract value of a record.
pub ghost struct GtView {
    pub block_id: Seq<char>,
    pub page: i64,
    pub box_words: Seq<Seq<char>>,
    pub content: Seq<char>,
    pub order: int,
}

impl View for GtTitleBlock {
    type V = GtView;

    open spec fn view(&self) -> GtView {
        GtView {
            block_id: self.block_id@,
            page: self.page,
            box_words: self.box_words@.map_values(|w: String| w@),
            content: self.content@,
            order: self.order as int,
        }
    }
}

/// The prompt's body: without the title prefix, when it has one.
pub open spec fn prompt_body(prompt: Seq<char>) -> Seq<char> {
    let p = TITLE_PREFIX@;
    if prompt.len() >= p.len() && prompt.take(p.len() as int) == p {
        prompt.skip(p.len() as int)
    } else {
        prompt
    }
}

/// The prompt's pieces: the body, behind a newline, cut at each record
/// separator, with an empty first piece dropped.
pub open spec fn prompt_pieces(prompt: Seq<char>) -> Seq<Seq<char>> {
    let parts = split_from(seq!['\n'] + prompt_body(prompt), RECORD_SEPARATOR@, 0);
    if parts.len() > 0 && parts[0].len() == 0 {
        parts.drop_first()
    } else {
        parts
    }
}

/// The record a piece gives, at position `order`: none for a blank piece
/// or one that does not match the record pattern.
pub open spec fn record_of(piece: Seq<char>, order: int) -> Option<GtView> {
    if trim_spec(piece).len() == 0 {
        None
    } else {
        match regex_groups4_of(RECORD_PATTERN@, piece) {
            Some(g) => Some(
                GtView {
                    block_id: trim_spec(g.0),
                    page: match parse_i64_spec(g.1) {
                        Some(v) => v,
                        None => 0,
                    },
                    box_words: box_order(g.2),
                    content: normalize_text_spec(g.3),
                    order: order,
                },
            ),
            None => None,
        }
    }
}

/// The box words of a record: of the first four words, written `top left
/// bottom right`, the order `left top right bottom`; fewer words as found.
pub open spec fn box_order(t: Seq<char>) -> Seq<Seq<char>> {
    let w = words_spec(t);
    if w.len() < 4 { w } else { seq![w[1], w[0], w[3], w[2]] }
}

/// The records of the first `k` pieces.
pub open spec fn records_upto(pieces: Seq<Seq<char>>, k: int) -> Seq<GtView>
    decreases k,
{
    if k <= 0 {
        seq![]
    } else {
        match record_of(pieces[k - 1], k - 1) {
            Some(b) => records_upto(pieces, k - 1).push(b),
            None => records_upto(pieces, k - 1),
        }
    }
}

/// The abstract values of a sequence of records.
pub open spec fn gt_views(v: Seq<GtTitleBlock>) -> Seq<GtView> {
    v.map_values(|b: GtTitleBlock| b@)
}

fn box_strings(ws: &Vec<Vec<char>>) -> (r: Vec<String>)
    ensures
        r@.map_values(|w: String| w@) == (if ws@.len() < 4 {
            ws.deep_view()
        } else {
            seq![ws@[1]@, ws@[0]@, ws@[3]@, ws@[2]@]
        }),
{
    let mut out: Vec<String> = Vec::new();
    if ws.len() >= 4 {
        out.push(from_chars(ws[1].as_slice()));
        out.push(from_chars(ws[0].as_slice()));
        out.push(from_chars(ws[3].as_slice()));
        out.push(from_chars(ws[2].as_slice()));
        assert(out@.map_values(|w: String| w@) =~= seq![ws@[1]@, ws@[0]@, ws@[3]@, ws@[2]@]);
    } else {
        let mut i: usize = 0;
        while i < ws.len()
            invariant
                i <= ws@.len(),
                out@.map_values(|w: String| w@) == ws.deep_view().take(i as int),
            decreases ws@.len() - i,
        {
            let ghost before = out@.map_values(|w: String| w@);
            assert(ws@[i as int].deep_view() =~= ws@[i as int]@);
            out.push(from_chars(ws[i].as_slice()));
            assert(out@.map_values(|w: String| w@) =~= before.push(ws@[i as int]@));
            assert(ws.deep_view().take(i + 1) =~= ws.deep_view().take(i as int).push(ws@[i as int]@));
            i = i + 1;
        }
        assert(ws.deep_view().take(ws@.len() as int) =~= ws.deep_view());
    }
    out
}

/// Parses a title prompt into its ground-truth title records.
pub fn parse_title_prompt(prompt: &str) -> (r: Vec<GtTitleBlock>)
    ensures
        gt_views(r@) == records_upto(prompt_pieces(prompt@), prompt_pieces(prompt@).len() as int),
{
    let p = to_chars(prompt);
    let prefix = to_chars(TITLE_PREFIX);
    let mut starts = p.len() >= prefix.len();
    let mut j: usize = 0;
    while starts && j < prefix.len()
        invariant
            starts ==> p@.len() >= prefix@.len(),
            j <= prefix@.len(),
            starts ==> forall|m: int| 0 <= m < j ==> p@[m] == prefix@[m],
            !starts ==> !(p@.len() >= prefix@.len() && p@.take(prefix@.len() as int) == prefix@),
        decreases prefix@.len() - j + (if starts { 1int } else { 0 }),
    {
        if p[j] != prefix[j] {
            assert(p@.take(prefix@.len() as int)[j as int] == p@[j as int]);
            starts = false;
        } else {
            j = j + 1;
        }
    }
    if starts {
        assert(p@.take(prefix@.len() as int) =~= prefix@);
    }
    let body = if starts {
        slice_chars(&p, prefix.len(), p.len())
    } else {
        slice_chars(&p, 0, p.len())
    };
    assert(body@ == prompt_body(prompt@)) by {
        if starts {
            assert(p@.skip(prefix@.len() as int) =~= p@.subrange(prefix@.len() as int, p@.len() as int));
        }
        assert(p@ =~= p@.subrange(0, p@.len() as int));
    }
    let mut with_nl: Vec<char> = Vec::new();
    with_nl.push('\n');
    crate::chars::append_chars(&mut with_nl, &body);
    assert(with_nl@ =~= seq!['\n'] + prompt_body(prompt@));
    let sep = to_chars(RECORD_SEPARATOR);
    proof {
        reveal_strlit("\n<|id|>");
    }
    let parts = split_on(&with_nl, &sep);
    let ghost pv = parts.deep_view();
    let first = if parts.len() > 0 && parts[0].len() == 0 { 1 } else { 0 };
    assert(first == 1 ==> pv[0].len() == 0);
    let ghost pieces = prompt_pieces(prompt@);
    assert(pieces =~= pv.skip(first as int));
    let mut out: Vec<GtTitleBlock> = Vec::new();
    let mut k: usize = first;
    while k < parts.len()
        invariant
            first <= k <= parts@.len(),
            first <= 1,
            pv == parts.deep_view(),
            pieces == pv.skip(first as int),
            gt_views(out@) == records_upto(pieces, k - first),
        decreases parts@.len() - k,
    {
        let order = k - first;
        assert(pieces[order as int] == parts@[k as int]@);
        let part = from_chars(parts[k].as_slice());
        let blank = trim(&parts[k]).len() == 0;
        if !blank {
            if let Some((g1, g2, g3, g4)) = regex_groups4(RECORD_PATTERN, part.as_str()) {
                let id = from_chars(trim(&to_chars(g1.as_str())).as_slice());
                let page = match parse_i64(&to_chars(g2.as_str())) {
                    Some(v) => v,
                    None => 0,
                };
                let words = split_whitespace(&to_chars(g3.as_str()));
                let box_words = box_strings(&words);
                let content = normalize_text(g4.as_str());
                let b = GtTitleBlock { block_id: id, page, box_words, content, order };
                let ghost before = gt_views(out@);
                let ghost bv = b@;
                proof {
                    let wv = words.deep_view();
                    if wv.len() >= 4 {
                        assert(wv[0] == words@[0]@ && wv[1] == words@[1]@);
                        assert(wv[2] == words@[2]@ && wv[3] == words@[3]@);
                    }
                    assert(bv.box_words =~= box_order(g3@));
                    assert(part@ == pieces[order as int]);
                }
                assert(bv == record_of(pieces[order as int], order as int)->0);
                out.push(b);
                assert(gt_views(out@) =~= before.push(bv));
            }
        }
        k = k + 1;
    }
    out
}

} // verus!
