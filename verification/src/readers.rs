//! OCR/layout output adapters: the label vocabularies of the supported
//! page-level parsers, and the shared decisions that turn their items into
//! canonical blocks (which items are kept, with which types, content, order
//! and ids). Walking each parser's JSON and scaling its boxes happens where
//! the files are read.

use vstd::prelude::*;
use crate::chars::{to_chars, from_chars, append_chars, push_str, i64_to_chars, decimal_int};
use crate::errors::{normalize_text, normalize_text_spec, Error, debug_quoted, quoted};
use crate::truncation::str_is;

verus! {

/// Sentinel popo-type meaning "drop this block".
pub const SKIP_TYPE: &'static str = "__skip__";

/// The canonical block types.
pub open spec fn canonical_type(t: Seq<char>) -> bool {
    t == "title"@ || t == "text"@ || t == "image"@ || t == "table"@ || t == "caption"@
}

/// The supplement popo-type of a MinerU label, if it names one.
pub open spec fn supplement_label_spec(label: Seq<char>) -> Option<Seq<char>> {
    if label == "page_title"@ {
        Some("page_title"@)
    } else if label == "page_number"@ || label == "number"@ {
        Some("page_number"@)
    } else if label == "page_footnote"@ || label == "footnote"@ {
        Some("page_footnote"@)
    } else if label == "header"@ {
        Some("header"@)
    } else if label == "aside_text"@ {
        Some("aside_text"@)
    } else if label == "footer"@ {
        Some("footer"@)
    } else {
        None
    }
}

/// The supplement popo-type of a MinerU label, if it names one.
pub fn supplement_label(label: &str) -> (r: Option<&'static str>)
    ensures
        match r {
            Some(s) => supplement_label_spec(label@) == Some(s@),
            None => supplement_label_spec(label@) is None,
        },
{
    let l = String::from_str(label);
    if str_is(&l, "page_title") {
        Some("page_title")
    } else if str_is(&l, "page_number") || str_is(&l, "number") {
        Some("page_number")
    } else if str_is(&l, "page_footnote") || str_is(&l, "footnote") {
        Some("page_footnote")
    } else if str_is(&l, "header") {
        Some("header")
    } else if str_is(&l, "aside_text") {
        Some("aside_text")
    } else if str_is(&l, "footer") {
        Some("footer")
    } else {
        None
    }
}

/// The `(canonical_type, popo_type)` of a MinerU label.
pub open spec fn mineru_label_spec(label: Seq<char>) -> (Seq<char>, Seq<char>) {
    if label == "title"@ {
        ("title"@, "title"@)
    } else if label == "image"@ {
        ("image"@, "image"@)
    } else if label == "table"@ {
        ("table"@, "table"@)
    } else if label == "image_caption"@ {
        ("caption"@, "image_caption"@)
    } else if label == "table_caption"@ {
        ("caption"@, "table_caption"@)
    } else if label == "image_footnote"@ {
        ("caption"@, "image_footnote"@)
    } else if label == "table_footnote"@ {
        ("caption"@, "table_footnote"@)
    } else if label == "equation"@ || label == "interline_equation"@ || label == "inline_equation"@ {
        ("text"@, "equation"@)
    } else if label == "list"@ {
        ("text"@, "list_item"@)
    } else if label == "discarded"@ || label == "image_body"@ || label == "table_body"@ {
        (SKIP_TYPE@, SKIP_TYPE@)
    } else {
        match supplement_label_spec(label) {
            Some(p) => ("text"@, p),
            None => ("text"@, "text"@),
        }
    }
}

/// Maps a MinerU source label to `(canonical_type, popo_type)`.
pub fn map_mineru_label(label: &str) -> (r: (&'static str, &'static str))
    ensures
        (r.0@, r.1@) == mineru_label_spec(label@),
{
    let l = String::from_str(label);
    if str_is(&l, "title") {
        ("title", "title")
    } else if str_is(&l, "image") {
        ("image", "image")
    } else if str_is(&l, "table") {
        ("table", "table")
    } else if str_is(&l, "image_caption") {
        ("caption", "image_caption")
    } else if str_is(&l, "table_caption") {
        ("caption", "table_caption")
    } else if str_is(&l, "image_footnote") {
        ("caption", "image_footnote")
    } else if str_is(&l, "table_footnote") {
        ("caption", "table_footnote")
    } else if str_is(&l, "equation") || str_is(&l, "interline_equation") || str_is(
        &l,
        "inline_equation",
    ) {
        ("text", "equation")
    } else if str_is(&l, "list") {
        ("text", "list_item")
    } else if str_is(&l, "discarded") || str_is(&l, "image_body") || str_is(&l, "table_body") {
        (SKIP_TYPE, SKIP_TYPE)
    } else {
        match supplement_label(label) {
            Some(p) => ("text", p),
            None => ("text", "text"),
        }
    }
}

/// The `(canonical_type, popo_type)` of a PaddleOCR-VL block label.
pub open spec fn paddle_label_spec(label: Seq<char>) -> (Seq<char>, Seq<char>) {
    if label == "paragraph_title"@ || label == "doc_title"@ {
        ("title"@, "title"@)
    } else if label == "page_title"@ {
        ("text"@, "page_title"@)
    } else if label == "page_number"@ || label == "number"@ {
        ("text"@, "page_number"@)
    } else if label == "page_footnote"@ || label == "footnote"@ {
        ("text"@, "page_footnote"@)
    } else if label == "header"@ {
        ("text"@, "header"@)
    } else if label == "aside_text"@ {
        ("text"@, "aside_text"@)
    } else if label == "footer"@ {
        ("text"@, "footer"@)
    } else if label == "image"@ || label == "chart"@ || label == "footer_image"@ || label
        == "header_image"@ || label == "seal"@ {
        ("image"@, "image"@)
    } else if label == "table"@ {
        ("table"@, "table"@)
    } else if label == "figure_title"@ {
        ("caption"@, "image_caption"@)
    } else if label == "vision_footnote"@ {
        ("caption"@, "image_footnote"@)
    } else if label == "inline_formula"@ || label == "display_formula"@ {
        ("text"@, "equation"@)
    } else {
        ("text"@, "text"@)
    }
}

/// Maps a PaddleOCR-VL block label to `(canonical_type, popo_type)`.
pub fn map_paddle_label(label: &str) -> (r: (&'static str, &'static str))
    ensures
        (r.0@, r.1@) == paddle_label_spec(label@),
{
    let l = String::from_str(label);
    if str_is(&l, "paragraph_title") || str_is(&l, "doc_title") {
        ("title", "title")
    } else if str_is(&l, "page_title") {
        ("text", "page_title")
    } else if str_is(&l, "page_number") || str_is(&l, "number") {
        ("text", "page_number")
    } else if str_is(&l, "page_footnote") || str_is(&l, "footnote") {
        ("text", "page_footnote")
    } else if str_is(&l, "header") {
        ("text", "header")
    } else if str_is(&l, "aside_text") {
        ("text", "aside_text")
    } else if str_is(&l, "footer") {
        ("text", "footer")
    } else if str_is(&l, "image") || str_is(&l, "chart") || str_is(&l, "footer_image") || str_is(
        &l,
        "header_image",
    ) || str_is(&l, "seal") {
        ("image", "image")
    } else if str_is(&l, "table") {
        ("table", "table")
    } else if str_is(&l, "figure_title") {
        ("caption", "image_caption")
    } else if str_is(&l, "vision_footnote") {
        ("caption", "image_footnote")
    } else if str_is(&l, "inline_formula") || str_is(&l, "display_formula") {
        ("text", "equation")
    } else {
        ("text", "text")
    }
}

/// The `(canonical_type, popo_type)` of a GLM-OCR label.
pub open spec fn glm_label_spec(label: Seq<char>) -> (Seq<char>, Seq<char>) {
    if label == "doc_title"@ || label == "paragraph_title"@ {
        ("title"@, "title"@)
    } else if label == "image"@ || label == "chart"@ || label == "seal"@ {
        ("image"@, "image"@)
    } else if label == "table"@ {
        ("table"@, "table"@)
    } else if label == "figure_title"@ {
        ("caption"@, "image_caption"@)
    } else if label == "vision_footnote"@ {
        ("caption"@, "image_footnote"@)
    } else if label == "display_formula"@ || label == "inline_formula"@ || label == "formula"@ {
        ("text"@, "equation"@)
    } else {
        ("text"@, "text"@)
    }
}

/// Maps a GLM-OCR label to `(canonical_type, popo_type)`.
pub fn map_glm_label(label: &str) -> (r: (&'static str, &'static str))
    ensures
        (r.0@, r.1@) == glm_label_spec(label@),
{
    let l = String::from_str(label);
    if str_is(&l, "doc_title") || str_is(&l, "paragraph_title") {
        ("title", "title")
    } else if str_is(&l, "image") || str_is(&l, "chart") || str_is(&l, "seal") {
        ("image", "image")
    } else if str_is(&l, "table") {
        ("table", "table")
    } else if str_is(&l, "figure_title") {
        ("caption", "image_caption")
    } else if str_is(&l, "vision_footnote") {
        ("caption", "image_footnote")
    } else if str_is(&l, "display_formula") || str_is(&l, "inline_formula") || str_is(
        &l,
        "formula",
    ) {
        ("text", "equation")
    } else {
        ("text", "text")
    }
}

/// The heading level of a `sec_<n>` label: `n` a positive decimal with no
/// leading zero that fits in `i64`.
pub open spec fn sec_level_spec(label: Seq<char>) -> Option<i64> {
    let p = "sec_"@;
    if label.len() >= p.len() && label.take(p.len() as int) == p {
        let rest = label.skip(p.len() as int);
        if rest.len() > 0 && '1' <= rest[0] <= '9' && crate::chars::all_digits(rest) {
            crate::chars::parse_i64_spec(rest)
        } else {
            None
        }
    } else {
        None
    }
}

/// Parses `sec_<n>` where `<n>` is a positive integer with no leading zero.
pub fn parse_sec_level(label: &str) -> (r: Option<i64>)
    ensures
        r == sec_level_spec(label@),
{
    proof {
        reveal_strlit("sec_");
    }
    let s = to_chars(label);
    let p = to_chars("sec_");
    if s.len() < p.len() || !crate::chars::occurs_at_exec(&s, &p, 0) {
        return None;
    }
    let rest = crate::chars::slice_chars(&s, 4, s.len());
    assert(rest@ =~= label@.skip(4));
    if rest.len() == 0 {
        return None;
    }
    let first = rest[0];
    if !('1' <= first && first <= '9') {
        return None;
    }
    assert(label@.take(4) =~= "sec_"@);
    assert(sec_level_spec(label@) == (if crate::chars::all_digits(rest@) {
        crate::chars::parse_i64_spec(rest@)
    } else {
        None
    }));
    let mut i: usize = 0;
    while i < rest.len()
        invariant
            i <= rest@.len(),
            sec_level_spec(label@) == (if crate::chars::all_digits(rest@) {
                crate::chars::parse_i64_spec(rest@)
            } else {
                None
            }),
            forall|k: int| 0 <= k < i ==> crate::chars::is_digit_spec(#[trigger] rest@[k]),
        decreases rest@.len() - i,
    {
        let c = rest[i];
        if !('0' <= c && c <= '9') {
            assert(!crate::chars::all_digits(rest@));
            return None;
        }
        i = i + 1;
    }
    crate::chars::parse_i64(&rest)
}

/// The `(canonical_type, popo_type, title_level)` of a Dolphin label.
pub open spec fn dolphin_label_spec(label: Seq<char>) -> (Seq<char>, Seq<char>, Option<i64>) {
    match sec_level_spec(label) {
        Some(level) => ("title"@, "title"@, Some(level)),
        None => if label == "catalogue"@ {
            ("title"@, "title"@, Some(1))
        } else if label == "header"@ {
            ("text"@, "header"@, None)
        } else if label == "foot"@ {
            ("text"@, "footer"@, None)
        } else if label == "fnote"@ {
            ("text"@, "page_footnote"@, None)
        } else if label == "fig"@ {
            ("image"@, "image"@, None)
        } else if label == "tab"@ {
            ("table"@, "table"@, None)
        } else if label == "cap"@ {
            ("caption"@, "image_caption"@, None)
        } else if label == "list"@ {
            ("text"@, "list_item"@, None)
        } else if label == "equ"@ {
            ("text"@, "equation"@, None)
        } else {
            ("text"@, "text"@, None)
        },
    }
}

/// Maps a Dolphin element label to `(canonical_type, popo_type,
/// title_level)`, with `sec_<n>` naming a heading of level `n`.
pub fn map_dolphin_label(label: &str) -> (r: (&'static str, &'static str, Option<i64>))
    ensures
        (r.0@, r.1@, r.2) == dolphin_label_spec(label@),
{
    if let Some(level) = parse_sec_level(label) {
        return ("title", "title", Some(level));
    }
    let l = String::from_str(label);
    if str_is(&l, "catalogue") {
        ("title", "title", Some(1))
    } else if str_is(&l, "header") {
        ("text", "header", None)
    } else if str_is(&l, "foot") {
        ("text", "footer", None)
    } else if str_is(&l, "fnote") {
        ("text", "page_footnote", None)
    } else if str_is(&l, "fig") {
        ("image", "image", None)
    } else if str_is(&l, "tab") {
        ("table", "table", None)
    } else if str_is(&l, "cap") {
        ("caption", "image_caption", None)
    } else if str_is(&l, "list") {
        ("text", "list_item", None)
    } else if str_is(&l, "equ") {
        ("text", "equation", None)
    } else {
        ("text", "text", None)
    }
}


/// Which parser vocabulary an item's label belongs to.
#[derive(Debug, Clone, Copy, PartialEq, Eq, Structural)]
pub enum LabelScheme {
    /// MinerU / MonkeyOCR block types.
    Mineru,
    /// PaddleOCR-VL block labels.
    Paddle,
    /// Dolphin element labels.
    Dolphin,
    /// GLM-OCR layout labels.
    Glm,
    /// GLM-OCR `words_result` lines (always plain text).
    Words,
}

/// One parser item, as read from the parser's output: its page, label, raw
/// content and, for MinerU content lists, the title level that promotes it.
#[derive(Debug)]
pub struct ReaderItem {
    /// 1-based page number.
    pub page: i64,
    /// Source label.
    pub label: String,
    /// Raw content.
    pub content: String,
    /// A title level that promotes the item to a title.
    pub text_level: Option<i64>,
}

/// A canonical block read from a parser's output (its box is kept beside it
/// by the caller, at position `item` of the items read).
#[derive(Debug)]
pub struct ReaderBlock {
    /// `"{doc_id}:{order}"`.
    pub block_id: String,
    /// 1-based page number.
    pub page: i64,
    /// Canonical type.
    pub kind: String,
    /// Normalized content.
    pub content: String,
    /// Reading order.
    pub order: i64,
    /// The popo-type used downstream.
    pub popo_type: String,
    /// Heading level, for titles that carry one.
    pub title_level: Option<i64>,
    /// The parser's own label.
    pub source_label: Option<String>,
    /// Position of the source item.
    pub item: usize,
}

/// The abstract value of a block.
pub ghost struct BlockView {
    pub block_id: Seq<char>,
    pub page: i64,
    pub kind: Seq<char>,
    pub content: Seq<char>,
    pub order: i64,
    pub popo_type: Seq<char>,
    pub title_level: Option<i64>,
    pub source_label: Option<Seq<char>>,
    pub item: int,
}

impl View for ReaderBlock {
    type V = BlockView;

    open spec fn view(&self) -> BlockView {
        BlockView {
            block_id: self.block_id@,
            page: self.page,
            kind: self.kind@,
            content: self.content@,
            order: self.order,
            popo_type: self.popo_type@,
            title_level: self.title_level,
            source_label: match self.source_label {
                Some(s) => Some(s@),
                None => None,
            },
            item: self.item as int,
        }
    }
}

/// The abstract values of a sequence of blocks.
pub open spec fn blocks_view(bs: Seq<ReaderBlock>) -> Seq<BlockView> {
    bs.map_values(|b: ReaderBlock| b@)
}

/// The `(canonical_type, popo_type, title_level)` a scheme gives a label.
pub open spec fn scheme_map(s: LabelScheme, label: Seq<char>) -> (Seq<char>, Seq<char>, Option<i64>) {
    match s {
        LabelScheme::Mineru => (mineru_label_spec(label).0, mineru_label_spec(label).1, None),
        LabelScheme::Paddle => (paddle_label_spec(label).0, paddle_label_spec(label).1, None),
        LabelScheme::Dolphin => dolphin_label_spec(label),
        LabelScheme::Glm => (glm_label_spec(label).0, glm_label_spec(label).1, None),
        LabelScheme::Words => ("text"@, "text"@, None),
    }
}

/// Whether a canonical type needs content to be kept.
pub open spec fn text_like_type(t: Seq<char>) -> bool {
    t == "text"@ || t == "title"@ || t == "caption"@
}

/// What becomes of an item: dropped, or kept with its canonical type,
/// popo-type, level and normalized content.
pub open spec fn item_outcome(s: LabelScheme, label: Seq<char>, content: Seq<char>, text_level: Option<i64>) -> Option<
    (Seq<char>, Seq<char>, Option<i64>, Seq<char>),
> {
    let m = scheme_map(s, label);
    if m.1 == SKIP_TYPE@ {
        None
    } else {
        let c = match text_level {
            Some(tl) => ("title"@, "title"@, Some(tl)),
            None => m,
        };
        let text = normalize_text_spec(content);
        if text.len() == 0 && text_like_type(c.0) {
            None
        } else {
            Some((c.0, c.1, c.2, text))
        }
    }
}

/// A block as `make_block` builds it: unknown canonical types collapse to
/// `text`, content is normalized, the id is `"{doc_id}:{order}"`.
pub open spec fn make_block_spec(
    doc_id: Seq<char>,
    order: i64,
    page: i64,
    canonical: Seq<char>,
    content: Seq<char>,
    popo: Seq<char>,
    level: Option<i64>,
    source_label: Option<Seq<char>>,
    item: int,
) -> BlockView {
    BlockView {
        block_id: doc_id + ":"@ + decimal_int(order as int),
        page: page,
        kind: if canonical_type(canonical) { canonical } else { "text"@ },
        content: normalize_text_spec(content),
        order: order,
        popo_type: popo,
        title_level: level,
        source_label: source_label,
        item: item,
    }
}

/// Builds a canonical block, collapsing unknown canonical types to `text`
/// and normalizing the content.
pub fn make_block(
    doc_id: &str,
    order: i64,
    page: i64,
    canonical_type: &str,
    content: &str,
    popo_type: &str,
    title_level: Option<i64>,
    source_label: Option<String>,
    item: usize,
) -> (r: ReaderBlock)
    ensures
        r@ == make_block_spec(
            doc_id@,
            order,
            page,
            canonical_type@,
            content@,
            popo_type@,
            title_level,
            match source_label {
                Some(s) => Some(s@),
                None => None,
            },
            item as int,
        ),
{
    let c = String::from_str(canonical_type);
    let known = str_is(&c, "title") || str_is(&c, "text") || str_is(&c, "image") || str_is(
        &c,
        "table",
    ) || str_is(&c, "caption");
    let kind = if known { c } else { String::from_str("text") };
    let mut id = to_chars(doc_id);
    push_str(&mut id, ":");
    let digits = i64_to_chars(order);
    append_chars(&mut id, &digits);
    ReaderBlock {
        block_id: from_chars(id.as_slice()),
        page,
        kind,
        content: normalize_text(content),
        order,
        popo_type: String::from_str(popo_type),
        title_level,
        source_label,
        item,
    }
}

/// The blocks of the first `k` items: kept items are numbered in order.
pub open spec fn collect_fold(doc_id: Seq<char>, s: LabelScheme, items: Seq<ItemView>, k: int) -> Seq<BlockView>
    decreases k,
{
    if k <= 0 {
        seq![]
    } else {
        let prev = collect_fold(doc_id, s, items, k - 1);
        let it = items[k - 1];
        match item_outcome(s, it.label, it.content, it.text_level) {
            None => prev,
            Some(o) => prev.push(
                make_block_spec(
                    doc_id,
                    prev.len() as i64,
                    it.page,
                    o.0,
                    o.3,
                    o.1,
                    o.2,
                    Some(if s == LabelScheme::Words { "words_result"@ } else { it.label }),
                    k - 1,
                ),
            ),
        }
    }
}

/// The abstract value of an item.
pub ghost struct ItemView {
    pub page: i64,
    pub label: Seq<char>,
    pub content: Seq<char>,
    pub text_level: Option<i64>,
}

impl View for ReaderItem {
    type V = ItemView;

    open spec fn view(&self) -> ItemView {
        ItemView { page: self.page, label: self.label@, content: self.content@, text_level: self.text_level }
    }
}

/// The abstract values of a sequence of items.
pub open spec fn items_view(items: Seq<ReaderItem>) -> Seq<ItemView> {
    items.map_values(|i: ReaderItem| i@)
}

fn scheme_label(s: LabelScheme, label: &str) -> (r: (&'static str, &'static str, Option<i64>))
    ensures
        (r.0@, r.1@, r.2) == scheme_map(s, label@),
{
    match s {
        LabelScheme::Mineru => {
            let m = map_mineru_label(label);
            (m.0, m.1, None)
        },
        LabelScheme::Paddle => {
            let m = map_paddle_label(label);
            (m.0, m.1, None)
        },
        LabelScheme::Dolphin => map_dolphin_label(label),
        LabelScheme::Glm => {
            let m = map_glm_label(label);
            (m.0, m.1, None)
        },
        LabelScheme::Words => ("text", "text", None),
    }
}

/// Turns a parser's items, in reading order, into canonical blocks: items
/// whose label the scheme drops, and text-like items left empty after
/// normalization, are skipped; the rest are numbered from 0.
pub fn collect_blocks(doc_id: &str, scheme: LabelScheme, items: &Vec<ReaderItem>) -> (r: Vec<ReaderBlock>)
    requires
        items@.len() <= i64::MAX,
    ensures
        blocks_view(r@) == collect_fold(doc_id@, scheme, items_view(items@), items@.len() as int),
{
    let ghost iv = items_view(items@);
    let mut out: Vec<ReaderBlock> = Vec::new();
    let mut order: i64 = 0;
    let mut k: usize = 0;
    while k < items.len()
        invariant
            k <= items@.len(),
            iv == items_view(items@),
            blocks_view(out@) == collect_fold(doc_id@, scheme, iv, k as int),
            order == out@.len(),
            out@.len() <= k,
            items@.len() <= i64::MAX,
        decreases items@.len() - k,
    {
        let it = &items[k];
        assert(iv[k as int] == it@);
        let m = scheme_label(scheme, it.label.as_str());
        let skip_label = str_is(&String::from_str(m.1), SKIP_TYPE);
        proof {
            reveal_strlit("__skip__");
        }
        if !skip_label {
            let (c, p, lvl) = match it.text_level {
                Some(tl) => ("title", "title", Some(tl)),
                None => m,
            };
            let text = normalize_text(it.content.as_str());
            let empty = to_chars(text.as_str()).len() == 0;
            let cs = String::from_str(c);
            let text_like = str_is(&cs, "text") || str_is(&cs, "title") || str_is(&cs, "caption");
            if !(empty && text_like) {
                let src = match scheme {
                    LabelScheme::Words => String::from_str("words_result"),
                    _ => it.label.clone(),
                };
                let b = make_block(doc_id, order, it.page, c, text.as_str(), p, lvl, Some(src), k);
                let ghost ob = blocks_view(out@);
                out.push(b);
                assert(blocks_view(out@) =~= ob.push(b@));
                order = order + 1;
            }
        }
        k = k + 1;
    }
    out
}


/// Reading-order key comparison: by page, then by order.
pub open spec fn key_le(a: BlockView, b: BlockView) -> bool {
    a.page < b.page || (a.page == b.page && a.order <= b.order)
}

/// Where a block goes in a sorted run: after every block whose key is not
/// greater than its own.
pub open spec fn insert_pos(s: Seq<BlockView>, x: BlockView) -> int
    decreases s.len(),
{
    if s.len() == 0 {
        0
    } else if key_le(s.last(), x) {
        s.len() as int
    } else {
        insert_pos(s.drop_last(), x)
    }
}

/// The blocks stably sorted by `(page, order)`.
pub open spec fn sort_blocks_spec(s: Seq<BlockView>) -> Seq<BlockView>
    decreases s.len(),
{
    if s.len() == 0 {
        seq![]
    } else {
        let prev = sort_blocks_spec(s.drop_last());
        prev.insert(insert_pos(prev, s.last()), s.last())
    }
}

proof fn lemma_insert_pos_range(s: Seq<BlockView>, x: BlockView)
    ensures
        0 <= insert_pos(s, x) <= s.len(),
    decreases s.len(),
{
    if s.len() > 0 && !key_le(s.last(), x) {
        lemma_insert_pos_range(s.drop_last(), x);
    }
}

proof fn lemma_sort_len(s: Seq<BlockView>)
    ensures
        sort_blocks_spec(s).len() == s.len(),
    decreases s.len(),
{
    if s.len() > 0 {
        lemma_sort_len(s.drop_last());
        lemma_insert_pos_range(sort_blocks_spec(s.drop_last()), s.last());
    }
}

fn key_le_exec(a: &ReaderBlock, b: &ReaderBlock) -> (r: bool)
    ensures
        r == key_le(a@, b@),
{
    a.page < b.page || (a.page == b.page && a.order <= b.order)
}

/// Sorts blocks stably into reading order: by page, then by order.
pub fn sort_blocks(blocks: Vec<ReaderBlock>) -> (r: Vec<ReaderBlock>)
    ensures
        blocks_view(r@) == sort_blocks_spec(blocks_view(blocks@)),
{
    let ghost bv = blocks_view(blocks@);
    let ghost n = bv.len();
    let len0 = blocks.len();
    let mut rest = blocks;
    let mut out: Vec<ReaderBlock> = Vec::new();
    let mut k: usize = 0;
    while rest.len() > 0
        invariant
            k + rest@.len() == n,
            n == bv.len(),
            n == len0,
            blocks_view(rest@) == bv.skip(k as int),
            blocks_view(out@) == sort_blocks_spec(bv.take(k as int)),
        decreases rest@.len(),
    {
        let ghost r0 = rest@;
        let b = rest.remove(0);
        assert(b@ == bv[k as int]) by {
            assert(blocks_view(r0)[0] == r0[0]@);
        }
        assert(blocks_view(rest@) =~= bv.skip(k + 1)) by {
            assert(rest@ =~= r0.skip(1));
            assert(blocks_view(rest@) =~= blocks_view(r0).skip(1));
        }
        let ghost ov = blocks_view(out@);
        proof {
            lemma_sort_len(bv.take(k as int));
        }
        let mut j: usize = out.len();
        assert(ov.take(j as int) =~= ov);
        while j > 0 && !key_le_exec(&out[j - 1], &b)
            invariant
                j <= out@.len(),
                ov == blocks_view(out@),
                insert_pos(ov, b@) == insert_pos(ov.take(j as int), b@),
            decreases j,
        {
            assert(ov.take(j as int).drop_last() =~= ov.take(j - 1));
            assert(ov.take(j as int).last() == out@[j - 1]@);
            j = j - 1;
        }
        proof {
            if j > 0 {
                assert(ov.take(j as int).last() == out@[j - 1]@);
            }
            assert(insert_pos(ov.take(j as int), b@) == j);
            assert(bv.take(k + 1).drop_last() =~= bv.take(k as int));
            assert(bv.take(k + 1).last() == b@);
        }
        let ghost bb = b@;
        out.insert(j, b);
        assert(blocks_view(out@) =~= ov.insert(j as int, bb));
        k = k + 1;
    }
    assert(bv.take(n as int) =~= bv);
    out
}

/// The sorted blocks renumbered: block `i` gets order `i` and id
/// `"{doc_id}:{i}"`.
pub open spec fn reassigned(bs: Seq<BlockView>, doc_id: Seq<char>) -> Seq<BlockView> {
    Seq::new(
        bs.len(),
        |i: int| BlockView { block_id: doc_id + ":"@ + decimal_int(i), order: i as i64, ..bs[i] },
    )
}

/// Sorts blocks into reading order and renumbers them from 0.
pub fn reassign_block_ids(blocks: Vec<ReaderBlock>, doc_id: &str) -> (r: Vec<ReaderBlock>)
    requires
        blocks@.len() <= i64::MAX,
    ensures
        blocks_view(r@) == reassigned(sort_blocks_spec(blocks_view(blocks@)), doc_id@),
{
    let ghost n0 = blocks@.len();
    let mut sorted = sort_blocks(blocks);
    let ghost sv = blocks_view(sorted@);
    proof {
        lemma_sort_len(blocks_view(blocks@));
    }
    let mut i: usize = 0;
    while i < sorted.len()
        invariant
            i <= sorted@.len(),
            sorted@.len() == sv.len(),
            sv.len() <= i64::MAX,
            forall|k: int| 0 <= k < i ==> #[trigger] sorted@[k]@ == reassigned(sv, doc_id@)[k],
            forall|k: int| i <= k < sv.len() ==> #[trigger] sorted@[k]@ == sv[k],
        decreases sorted@.len() - i,
    {
        let mut id = to_chars(doc_id);
        push_str(&mut id, ":");
        let digits = u64_to_chars_usize(i);
        append_chars(&mut id, &digits);
        assert(sorted@[i as int]@ == sv[i as int]);
        let ghost before = sorted@;
        sorted[i].block_id = from_chars(id.as_slice());
        sorted[i].order = i as i64;
        proof {
            assert forall|k: int| 0 <= k < sorted@.len() && k != i implies #[trigger] sorted@[k] == before[k] by {}
            let want = reassigned(sv, doc_id@)[i as int];
            let got = sorted@[i as int]@;
            assert(got.block_id =~= want.block_id);
            assert(got.order == want.order);
            assert(got.page == want.page);
            assert(got.kind == want.kind);
            assert(got.source_label == want.source_label);
            assert(got == want);
        }
        i = i + 1;
    }
    assert(blocks_view(sorted@) =~= reassigned(sv, doc_id@));
    sorted
}

fn u64_to_chars_usize(i: usize) -> (r: Vec<char>)
    ensures
        r@ == decimal_int(i as int),
{
    crate::chars::u64_to_chars(i as u64)
}

/// The outcome of reading one document.
#[derive(Debug)]
pub struct ReaderResult {
    /// The OCR model that produced the input.
    pub model_name: String,
    /// Document id.
    pub doc_id: String,
    /// `"ok"` or `"missing"`.
    pub status: String,
    /// Blocks in reading order.
    pub blocks: Vec<ReaderBlock>,
    /// Diagnostic message.
    pub message: String,
}

impl ReaderResult {
    /// A successful result; blocks are put in reading order and renumbered.
    pub fn ok(model_name: &str, doc_id: &str, blocks: Vec<ReaderBlock>) -> (r: Self)
        requires
            blocks@.len() <= i64::MAX,
        ensures
            r.model_name@ == model_name@,
            r.doc_id@ == doc_id@,
            r.status@ == "ok"@,
            blocks_view(r.blocks@) == reassigned(sort_blocks_spec(blocks_view(blocks@)), doc_id@),
            r.message@.len() == 0,
    {
        ReaderResult {
            model_name: String::from_str(model_name),
            doc_id: String::from_str(doc_id),
            status: String::from_str("ok"),
            blocks: reassign_block_ids(blocks, doc_id),
            message: String::new(),
        }
    }

    /// A "missing input" result.
    pub fn missing(model_name: &str, doc_id: &str, message: String) -> (r: Self)
        ensures
            r.model_name@ == model_name@,
            r.doc_id@ == doc_id@,
            r.status@ == "missing"@,
            r.blocks@.len() == 0,
            r.message@ == message@,
    {
        ReaderResult {
            model_name: String::from_str(model_name),
            doc_id: String::from_str(doc_id),
            status: String::from_str("missing"),
            blocks: Vec::new(),
            message,
        }
    }
}


/// Where an `(key, position)` entry goes in a run sorted by key: after
/// every entry whose key is not greater.
pub open spec fn entry_pos(s: Seq<(i64, usize)>, x: (i64, usize)) -> int
    decreases s.len(),
{
    if s.len() == 0 {
        0
    } else if s.last().0 <= x.0 {
        s.len() as int
    } else {
        entry_pos(s.drop_last(), x)
    }
}

/// Entries stably sorted by key.
pub open spec fn sort_entries(s: Seq<(i64, usize)>) -> Seq<(i64, usize)>
    decreases s.len(),
{
    if s.len() == 0 {
        seq![]
    } else {
        let prev = sort_entries(s.drop_last());
        prev.insert(entry_pos(prev, s.last()), s.last())
    }
}

/// The keyed positions among the first `k`, with their keys, in order.
pub open spec fn keyed_upto(keys: Seq<Option<i64>>, k: int) -> Seq<(i64, usize)>
    decreases k,
{
    if k <= 0 {
        seq![]
    } else {
        match keys[k - 1] {
            Some(v) => keyed_upto(keys, k - 1).push((v, (k - 1) as usize)),
            None => keyed_upto(keys, k - 1),
        }
    }
}

/// The unkeyed positions among the first `k`, in order.
pub open spec fn unkeyed_upto(keys: Seq<Option<i64>>, k: int) -> Seq<usize>
    decreases k,
{
    if k <= 0 {
        seq![]
    } else {
        match keys[k - 1] {
            Some(_) => unkeyed_upto(keys, k - 1),
            None => unkeyed_upto(keys, k - 1).push((k - 1) as usize),
        }
    }
}

/// The reading order of items that may carry an integer order key: keyed
/// items first, stably by key, then the unkeyed ones in their own order.
pub open spec fn key_order_spec(keys: Seq<Option<i64>>) -> Seq<usize> {
    let sorted = sort_entries(keyed_upto(keys, keys.len() as int));
    Seq::new(sorted.len(), |i: int| sorted[i].1) + unkeyed_upto(keys, keys.len() as int)
}

proof fn lemma_sort_entries_len(s: Seq<(i64, usize)>)
    ensures
        sort_entries(s).len() == s.len(),
    decreases s.len(),
{
    if s.len() > 0 {
        lemma_sort_entries_len(s.drop_last());
        lemma_entry_pos_range(sort_entries(s.drop_last()), s.last());
    }
}

proof fn lemma_entry_pos_range(s: Seq<(i64, usize)>, x: (i64, usize))
    ensures
        0 <= entry_pos(s, x) <= s.len(),
    decreases s.len(),
{
    if s.len() > 0 && !(s.last().0 <= x.0) {
        lemma_entry_pos_range(s.drop_last(), x);
    }
}

/// The positions of items in reading order, given each item's optional
/// integer order key.
pub fn order_by_optional_key(keys: &Vec<Option<i64>>) -> (r: Vec<usize>)
    ensures
        r@ == key_order_spec(keys@),
{
    let mut entries: Vec<(i64, usize)> = Vec::new();
    let mut rest: Vec<usize> = Vec::new();
    let mut k: usize = 0;
    while k < keys.len()
        invariant
            k <= keys@.len(),
            entries@ == sort_entries(keyed_upto(keys@, k as int)),
            rest@ == unkeyed_upto(keys@, k as int),
        decreases keys@.len() - k,
    {
        match keys[k] {
            Some(v) => {
                let x = (v, k);
                let ghost ev = entries@;
                proof {
                    lemma_sort_entries_len(keyed_upto(keys@, k as int));
                }
                let mut j: usize = entries.len();
                assert(ev.take(j as int) =~= ev);
                while j > 0 && entries[j - 1].0 > v
                    invariant
                        j <= entries@.len(),
                        ev == entries@,
                        x.0 == v,
                        entry_pos(ev, x) == entry_pos(ev.take(j as int), x),
                    decreases j,
                {
                    assert(ev.take(j as int).drop_last() =~= ev.take(j - 1));
                    assert(ev.take(j as int).last() == ev[j - 1]);
                    j = j - 1;
                }
                if j > 0 {
                    assert(ev.take(j as int).last() == ev[j - 1]);
                }
                assert(entry_pos(ev.take(j as int), x) == j);
                entries.insert(j, x);
                proof {
                    let kd = keyed_upto(keys@, k as int);
                    assert(keyed_upto(keys@, k + 1) == kd.push(x));
                    assert(kd.push(x).drop_last() =~= kd);
                    assert(sort_entries(kd.push(x)) == ev.insert(j as int, x));
                }
            },
            None => {
                rest.push(k);
            },
        }
        k = k + 1;
    }
    let ghost sorted = entries@;
    let mut out: Vec<usize> = Vec::new();
    let mut i: usize = 0;
    while i < entries.len()
        invariant
            i <= entries@.len(),
            sorted == entries@,
            out@ == Seq::new(i as nat, |q: int| sorted[q].1),
        decreases entries@.len() - i,
    {
        out.push(entries[i].1);
        assert(out@ =~= Seq::new((i + 1) as nat, |q: int| sorted[q].1));
        i = i + 1;
    }
    let mut q: usize = 0;
    let ghost head = out@;
    while q < rest.len()
        invariant
            q <= rest@.len(),
            out@ == head + rest@.take(q as int),
        decreases rest@.len() - q,
    {
        out.push(rest[q]);
        assert(rest@.take(q + 1) =~= rest@.take(q as int).push(rest@[q as int]));
        assert(out@ =~= head + rest@.take(q + 1));
        q = q + 1;
    }
    assert(rest@.take(q as int) =~= rest@);
    out
}

/// The page number of a Dolphin page: its own `page_number` when positive,
/// else its 1-based position.
pub fn dolphin_page(page_number: Option<i64>, position: i64) -> (r: i64)
    ensures
        r == match page_number {
            Some(n) => if n > 0 { n } else { position },
            None => position,
        },
{
    match page_number {
        Some(n) => if n > 0 { n } else { position },
        None => position,
    }
}

/// The first non-empty candidate text.
pub open spec fn first_nonempty(cands: Seq<Seq<char>>) -> Option<Seq<char>>
    decreases cands.len(),
{
    if cands.len() == 0 {
        None
    } else if cands[0].len() > 0 {
        Some(cands[0])
    } else {
        first_nonempty(cands.drop_first())
    }
}

/// The normalized texts of the non-empty span lines, in order.
pub open spec fn line_texts(lines: Seq<Seq<Seq<char>>>) -> Seq<Seq<char>>
    decreases lines.len(),
{
    if lines.len() == 0 {
        seq![]
    } else {
        let prev = line_texts(lines.drop_last());
        let t = normalize_text_spec(crate::chars::concat_spec(lines.last()));
        if t.len() > 0 { prev.push(t) } else { prev }
    }
}

/// The text of a block's span lines: each line's spans concatenated and
/// normalized, empty lines dropped, the rest joined by single spaces.
pub open spec fn middle_text_spec(lines: Seq<Seq<Seq<char>>>) -> Seq<char> {
    crate::chars::join_spec(line_texts(lines), " "@)
}

/// The text of a block's span lines.
pub fn extract_middle_text(lines: &Vec<Vec<String>>) -> (r: String)
    ensures
        r@ == middle_text_spec(lines@.map_values(|l: Vec<String>| l@.map_values(|s: String| s@))),
{
    let ghost lv = lines@.map_values(|l: Vec<String>| l@.map_values(|s: String| s@));
    let mut texts: Vec<Vec<char>> = Vec::new();
    let mut i: usize = 0;
    while i < lines.len()
        invariant
            i <= lines@.len(),
            lv == lines@.map_values(|l: Vec<String>| l@.map_values(|s: String| s@)),
            texts.deep_view() == line_texts(lv.take(i as int)),
        decreases lines@.len() - i,
    {
        let spans = &lines[i];
        let ghost sv = spans@.map_values(|s: String| s@);
        assert(lv[i as int] == sv);
        let mut joined: Vec<char> = Vec::new();
        let mut k: usize = 0;
        while k < spans.len()
            invariant
                k <= spans@.len(),
                sv == spans@.map_values(|s: String| s@),
                joined@ == crate::chars::concat_spec(sv.take(k as int)),
            decreases spans@.len() - k,
        {
            let ghost before = sv.take(k as int);
            let piece = to_chars(spans[k].as_str());
            append_chars(&mut joined, &piece);
            proof {
                let now = sv.take(k + 1);
                assert(now.drop_last() =~= before);
                if k == 0 {
                    assert(joined@ =~= now[0]);
                } else {
                    assert(joined@ =~= crate::chars::join_spec(now.drop_last(), seq![]) + seq![] + now.last());
                }
            }
            k = k + 1;
        }
        assert(sv.take(k as int) =~= sv);
        let t = normalize_text(from_chars(joined.as_slice()).as_str());
        let tc = to_chars(t.as_str());
        assert(lv.take(i + 1).drop_last() =~= lv.take(i as int));
        if tc.len() > 0 {
            let ghost before = texts.deep_view();
            assert(tc.deep_view() =~= tc@);
            texts.push(tc);
            assert(texts.deep_view() =~= before.push(tc@));
        }
        i = i + 1;
    }
    assert(lv.take(i as int) =~= lv);
    let sep = to_chars(" ");
    let out = crate::chars::join(&texts, &sep);
    from_chars(out.as_slice())
}

/// A block's text: the first non-empty of its `content`, `text`, `html`
/// and `words` values (as present, in that order), normalized; else the
/// text of its span lines.
pub fn extract_block_content(candidates: &Vec<String>, lines: &Vec<Vec<String>>) -> (r: String)
    ensures
        r@ == match first_nonempty(candidates@.map_values(|s: String| s@)) {
            Some(s) => normalize_text_spec(s),
            None => middle_text_spec(lines@.map_values(|l: Vec<String>| l@.map_values(|s: String| s@))),
        },
{
    let ghost cv = candidates@.map_values(|s: String| s@);
    assert(cv.skip(0) =~= cv);
    let mut i: usize = 0;
    while i < candidates.len()
        invariant
            i <= candidates@.len(),
            cv == candidates@.map_values(|s: String| s@),
            first_nonempty(cv) == first_nonempty(cv.skip(i as int)),
        decreases candidates@.len() - i,
    {
        assert(cv.skip(i as int)[0] == candidates@[i as int]@);
        assert(cv.skip(i as int).drop_first() =~= cv.skip(i + 1));
        if to_chars(candidates[i].as_str()).len() > 0 {
            return normalize_text(candidates[i].as_str());
        }
        i = i + 1;
    }
    assert(cv.skip(i as int).len() == 0);
    extract_middle_text(lines)
}

/// What a reader gives back for a document whose items were read: the
/// items turned into blocks by the scheme, put in reading order and
/// renumbered, under the reader's model name.
pub open spec fn read_result_spec(
    r: ReaderResult,
    model_name: Seq<char>,
    doc_id: Seq<char>,
    scheme: LabelScheme,
    items: Seq<ItemView>,
) -> bool {
    &&& r.model_name@ == model_name
    &&& r.doc_id@ == doc_id
    &&& r.status@ == "ok"@
    &&& blocks_view(r.blocks@) == reassigned(
        sort_blocks_spec(collect_fold(doc_id, scheme, items, items.len() as int)),
        doc_id,
    )
    &&& r.message@.len() == 0
}

fn read_with(model_name: &str, doc_id: &str, scheme: LabelScheme, items: &Vec<ReaderItem>) -> (r: ReaderResult)
    requires
        items@.len() <= i64::MAX,
    ensures
        read_result_spec(r, model_name@, doc_id@, scheme, items_view(items@)),
{
    let blocks = collect_blocks(doc_id, scheme, items);
    proof {
        lemma_collect_len(doc_id@, scheme, items_view(items@), items@.len() as int);
    }
    ReaderResult::ok(model_name, doc_id, blocks)
}

proof fn lemma_collect_len(doc_id: Seq<char>, s: LabelScheme, items: Seq<ItemView>, k: int)
    ensures
        collect_fold(doc_id, s, items, k).len() <= if k < 0 { 0 } else { k },
    decreases k,
{
    if k > 0 {
        lemma_collect_len(doc_id, s, items, k - 1);
    }
}

/// Reader for MinerU output (`<root>/<doc>/vlm/<doc>_middle.json`, else
/// `<doc>_content_list.json`).
#[derive(Debug)]
pub struct MineruReader {
    root: String,
    inner_dir: String,
    model_name: String,
}

impl MineruReader {
    /// The directory the reader was rooted at.
    pub closed spec fn root_spec(&self) -> Seq<char> {
        self.root@
    }

    /// The directory under `<root>/<doc_id>/` that holds the files.
    pub closed spec fn inner_dir_spec(&self) -> Seq<char> {
        self.inner_dir@
    }

    /// The model name the reader reports.
    pub closed spec fn model_name_spec(&self) -> Seq<char> {
        self.model_name@
    }

    /// A MinerU reader rooted at the per-model input directory.
    pub fn new(root: &str) -> (r: Self)
        ensures
            r.root_spec() == root@,
            r.inner_dir_spec() == "vlm"@,
            r.model_name_spec() == "mineru"@,
    {
        MineruReader {
            root: String::from_str(root),
            inner_dir: String::from_str("vlm"),
            model_name: String::from_str("mineru"),
        }
    }

    /// The model name this reader handles.
    pub fn model_name(&self) -> (r: &str)
        ensures
            r@ == self.model_name_spec(),
    {
        self.model_name.as_str()
    }

    /// The directory the reader was rooted at.
    pub fn root(&self) -> (r: &str)
        ensures
            r@ == self.root_spec(),
    {
        self.root.as_str()
    }

    /// The directory under `<root>/<doc_id>/` that holds the files (empty
    /// when the files sit there directly).
    pub fn inner_dir(&self) -> (r: &str)
        ensures
            r@ == self.inner_dir_spec(),
    {
        self.inner_dir.as_str()
    }

    /// Normalizes the items of a `middle.json` (its `para_blocks`, page by
    /// page) or of a content list (where `text_level` promotes an item to a
    /// title).
    pub fn read_items(&self, doc_id: &str, items: &Vec<ReaderItem>) -> (r: ReaderResult)
        requires
            items@.len() <= i64::MAX,
        ensures
            read_result_spec(r, self.model_name_spec(), doc_id@, LabelScheme::Mineru, items_view(items@)),
    {
        read_with(self.model_name.as_str(), doc_id, LabelScheme::Mineru, items)
    }
}

/// Reader for MonkeyOCR output: MinerU's `middle.json` path, with the files
/// directly under `<root>/<doc_id>/`.
#[derive(Debug)]
pub struct MonkeyOcrReader {
    inner: MineruReader,
}

impl MonkeyOcrReader {
    /// The reader it shares MinerU's path with.
    pub closed spec fn inner_spec(&self) -> MineruReader {
        self.inner
    }

    /// A MonkeyOCR reader rooted at the per-model input directory.
    pub fn new(root: &str) -> (r: Self)
        ensures
            r.inner_spec().root_spec() == root@,
            r.inner_spec().inner_dir_spec().len() == 0,
            r.inner_spec().model_name_spec() == "monkeyocr"@,
    {
        let mut inner = MineruReader::new(root);
        inner.inner_dir = String::new();
        inner.model_name = String::from_str("monkeyocr");
        MonkeyOcrReader { inner }
    }

    /// The model name this reader handles.
    pub fn model_name(&self) -> (r: &str)
        ensures
            r@ == self.inner_spec().model_name_spec(),
    {
        self.inner.model_name()
    }

    /// The directory the reader was rooted at.
    pub fn root(&self) -> (r: &str)
        ensures
            r@ == self.inner_spec().root_spec(),
    {
        self.inner.root()
    }

    /// Normalizes the items of a `middle.json`.
    pub fn read_items(&self, doc_id: &str, items: &Vec<ReaderItem>) -> (r: ReaderResult)
        requires
            items@.len() <= i64::MAX,
        ensures
            read_result_spec(
                r,
                self.inner_spec().model_name_spec(),
                doc_id@,
                LabelScheme::Mineru,
                items_view(items@),
            ),
    {
        self.inner.read_items(doc_id, items)
    }
}

/// The model name of PaddleOCR-VL output.
pub const PADDLE_MODEL_NAME: &'static str = "PaddleOCR-VL-1.5";

/// The model name of Dolphin output.
pub const DOLPHIN_MODEL_NAME: &'static str = "dolphin";

/// The model name of GLM-OCR output.
pub const GLM_MODEL_NAME: &'static str = "glm-ocr";

/// Reader for PaddleOCR-VL output (`<root>/<doc>/layout_parsing.json`).
#[derive(Debug)]
pub struct PaddleReader {
    root: String,
}

impl PaddleReader {
    /// The directory the reader was rooted at.
    pub closed spec fn root_spec(&self) -> Seq<char> {
        self.root@
    }

    /// A Paddle reader rooted at the per-model input directory.
    pub fn new(root: &str) -> (r: Self)
        ensures
            r.root_spec() == root@,
    {
        PaddleReader { root: String::from_str(root) }
    }

    /// The model name this reader handles.
    pub fn model_name(&self) -> (r: &'static str)
        ensures
            r@ == PADDLE_MODEL_NAME@,
    {
        PADDLE_MODEL_NAME
    }

    /// The directory the reader was rooted at.
    pub fn root(&self) -> (r: &str)
        ensures
            r@ == self.root_spec(),
    {
        self.root.as_str()
    }

    /// Normalizes the `parsing_res_list` items of the pages, each page's
    /// items already in `block_order` (see `order_by_optional_key`).
    pub fn read_items(&self, doc_id: &str, items: &Vec<ReaderItem>) -> (r: ReaderResult)
        requires
            items@.len() <= i64::MAX,
        ensures
            read_result_spec(r, PADDLE_MODEL_NAME@, doc_id@, LabelScheme::Paddle, items_view(items@)),
    {
        read_with(PADDLE_MODEL_NAME, doc_id, LabelScheme::Paddle, items)
    }
}

/// Reader for Dolphin output (`<root>/<doc>/recognition_json/<doc>.json`).
#[derive(Debug)]
pub struct DolphinReader {
    root: String,
}

impl DolphinReader {
    /// The directory the reader was rooted at.
    pub closed spec fn root_spec(&self) -> Seq<char> {
        self.root@
    }

    /// A Dolphin reader rooted at the per-model input directory.
    pub fn new(root: &str) -> (r: Self)
        ensures
            r.root_spec() == root@,
    {
        DolphinReader { root: String::from_str(root) }
    }

    /// The model name this reader handles.
    pub fn model_name(&self) -> (r: &'static str)
        ensures
            r@ == DOLPHIN_MODEL_NAME@,
    {
        DOLPHIN_MODEL_NAME
    }

    /// The directory the reader was rooted at.
    pub fn root(&self) -> (r: &str)
        ensures
            r@ == self.root_spec(),
    {
        self.root.as_str()
    }

    /// Normalizes the elements of the pages, each page's elements already in
    /// `reading_order` and carrying the page's number (see `dolphin_page`).
    pub fn read_items(&self, doc_id: &str, items: &Vec<ReaderItem>) -> (r: ReaderResult)
        requires
            items@.len() <= i64::MAX,
        ensures
            read_result_spec(r, DOLPHIN_MODEL_NAME@, doc_id@, LabelScheme::Dolphin, items_view(items@)),
    {
        read_with(DOLPHIN_MODEL_NAME, doc_id, LabelScheme::Dolphin, items)
    }
}

/// Reader for GLM-OCR output (`<doc>_model.json` layouts, or `words_result`
/// lines of `glm_ocr.json` and `page_*.json`).
#[derive(Debug)]
pub struct GlmOcrReader {
    root: String,
}

impl GlmOcrReader {
    /// The directory the reader was rooted at.
    pub closed spec fn root_spec(&self) -> Seq<char> {
        self.root@
    }

    /// A GLM-OCR reader rooted at the per-model input directory.
    pub fn new(root: &str) -> (r: Self)
        ensures
            r.root_spec() == root@,
    {
        GlmOcrReader { root: String::from_str(root) }
    }

    /// The model name this reader handles.
    pub fn model_name(&self) -> (r: &'static str)
        ensures
            r@ == GLM_MODEL_NAME@,
    {
        GLM_MODEL_NAME
    }

    /// The directory the reader was rooted at.
    pub fn root(&self) -> (r: &str)
        ensures
            r@ == self.root_spec(),
    {
        self.root.as_str()
    }

    /// Normalizes the layout items of a `<doc>_model.json`.
    pub fn read_items(&self, doc_id: &str, items: &Vec<ReaderItem>) -> (r: ReaderResult)
        requires
            items@.len() <= i64::MAX,
        ensures
            read_result_spec(r, GLM_MODEL_NAME@, doc_id@, LabelScheme::Glm, items_view(items@)),
    {
        read_with(GLM_MODEL_NAME, doc_id, LabelScheme::Glm, items)
    }

    /// Normalizes the `words_result` lines of the pages: every non-empty
    /// line becomes a text block.
    pub fn read_words(&self, doc_id: &str, items: &Vec<ReaderItem>) -> (r: ReaderResult)
        requires
            items@.len() <= i64::MAX,
        ensures
            read_result_spec(r, GLM_MODEL_NAME@, doc_id@, LabelScheme::Words, items_view(items@)),
    {
        read_with(GLM_MODEL_NAME, doc_id, LabelScheme::Words, items)
    }
}

/// A reader chosen by model name.
#[derive(Debug)]
pub enum OcrReader {
    /// MinerU output.
    Mineru(MineruReader),
    /// MonkeyOCR output.
    MonkeyOcr(MonkeyOcrReader),
    /// Dolphin output.
    Dolphin(DolphinReader),
    /// PaddleOCR-VL output.
    Paddle(PaddleReader),
    /// GLM-OCR output.
    Glm(GlmOcrReader),
}

/// The message for a model no reader handles.
pub open spec fn unsupported_model_message(model_name: Seq<char>) -> Seq<char> {
    "unsupported model "@ + debug_quoted(model_name)
        + " (supported: mineru, monkeyocr, dolphin, PaddleOCR-VL-1.5, glm-ocr)"@
}

/// The reader for `model_name` rooted at `input_dir` (the per-model
/// directory that holds `<doc_id>/...`): MinerU, MonkeyOCR, Dolphin,
/// PaddleOCR-VL and GLM-OCR, each by the model name it reports.
pub fn build_reader(model_name: &str, input_dir: &str) -> (r: Result<OcrReader, Error>)
    ensures
        model_name@ == "mineru"@ ==> (r matches Ok(OcrReader::Mineru(m)) && m.root_spec() == input_dir@
            && m.model_name_spec() == "mineru"@ && m.inner_dir_spec() == "vlm"@),
        model_name@ == "monkeyocr"@ ==> (r matches Ok(OcrReader::MonkeyOcr(m)) && m.inner_spec().root_spec()
            == input_dir@ && m.inner_spec().model_name_spec() == "monkeyocr"@
            && m.inner_spec().inner_dir_spec().len() == 0),
        model_name@ == DOLPHIN_MODEL_NAME@ ==> (r matches Ok(OcrReader::Dolphin(d)) && d.root_spec() == input_dir@),
        model_name@ == PADDLE_MODEL_NAME@ ==> (r matches Ok(OcrReader::Paddle(p)) && p.root_spec() == input_dir@),
        model_name@ == GLM_MODEL_NAME@ ==> (r matches Ok(OcrReader::Glm(g)) && g.root_spec() == input_dir@),
        model_name@ != "mineru"@ && model_name@ != "monkeyocr"@ && model_name@ != DOLPHIN_MODEL_NAME@
            && model_name@ != PADDLE_MODEL_NAME@ && model_name@ != GLM_MODEL_NAME@ ==> (r matches Err(
            Error::Config(msg),
        ) && msg@ == unsupported_model_message(model_name@)),
{
    proof {
        reveal_strlit("mineru");
        reveal_strlit("monkeyocr");
        reveal_strlit("dolphin");
        reveal_strlit("PaddleOCR-VL-1.5");
        reveal_strlit("glm-ocr");
        let names = seq!["mineru"@, "monkeyocr"@, "dolphin"@, "PaddleOCR-VL-1.5"@, "glm-ocr"@];
        assert forall|i: int, j: int| 0 <= i < j < 5 implies names[i] != names[j] by {
            if names[i].len() == names[j].len() {
                assert(names[i][0] != names[j][0]);
            }
        }
        assert(names[0] != names[1] && names[0] != names[2] && names[0] != names[3] && names[0] != names[4]);
        assert(names[1] != names[2] && names[1] != names[3] && names[1] != names[4]);
        assert(names[2] != names[3] && names[2] != names[4] && names[3] != names[4]);
    }
    let name = String::from_str(model_name);
    if str_is(&name, "mineru") {
        Ok(OcrReader::Mineru(MineruReader::new(input_dir)))
    } else if str_is(&name, "monkeyocr") {
        Ok(OcrReader::MonkeyOcr(MonkeyOcrReader::new(input_dir)))
    } else if str_is(&name, DOLPHIN_MODEL_NAME) {
        Ok(OcrReader::Dolphin(DolphinReader::new(input_dir)))
    } else if str_is(&name, PADDLE_MODEL_NAME) {
        Ok(OcrReader::Paddle(PaddleReader::new(input_dir)))
    } else if str_is(&name, GLM_MODEL_NAME) {
        Ok(OcrReader::Glm(GlmOcrReader::new(input_dir)))
    } else {
        let mut m = to_chars("unsupported model ");
        append_chars(&mut m, &quoted(model_name));
        push_str(&mut m, " (supported: mineru, monkeyocr, dolphin, PaddleOCR-VL-1.5, glm-ocr)");
        Err(Error::Config(from_chars(m.as_slice())))
    }
}

} // verus!
