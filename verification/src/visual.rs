//! Image-text association subtask: link images and tables to their captions,
//! footnotes and owning blocks.
//!
//! Visual blocks lying inside a large `image_block` are linked to it directly;
//! the others are shown to the model, which answers with
//! `<|src_id|>S<|tgt_id|>T` lines.

use vstd::prelude::*;
use crate::chars;
use crate::chars::{to_chars, from_chars, slice_chars, append_chars, push_str, i64_to_chars};
use crate::block::WorkBlock;
use crate::chunk::Paged;
use crate::truncation::{permille, permille_exec, str_is};
use crate::title::first_50;

verus! {

/// A candidate visual block for association analysis.
#[derive(Debug, Clone)]
pub struct ImageJudge {
    /// 0-based block position (model-facing id).
    pub idx: i64,
    /// Normalized type shown to the model.
    pub kind: String,
    /// Content preview (`None` for images and tables).
    pub content: String,
    /// 1-based page.
    pub page: i64,
    /// Bbox as `[top, left, bottom, right]` per-mille integer strings.
    pub bbox: [String; 4],
}

impl Paged for ImageJudge {
    open spec fn page_spec(&self) -> i64 {
        self.page
    }

    fn page(&self) -> (p: i64) {
        self.page
    }
}

/// A `seal` counts as an `image`.
pub open spec fn effective_kind(kind: Seq<char>) -> Seq<char> {
    if kind == "seal"@ {
        "image"@
    } else {
        kind
    }
}

/// Types eligible for association analysis.
pub open spec fn is_visual_spec(kind: Seq<char>) -> bool {
    let k = effective_kind(kind);
    k == "image_block"@ || k == "image"@ || k == "table"@ || k == "chart"@ || k == "table_footnote"@
        || k == "image_footnote"@ || k == "table_caption"@ || k == "image_caption"@ || k == "title"@
        || k == "TOC-title"@ || k == "section-title"@ || k == "figure"@ || k == "fig-title"@
        || k == "fig-caption"@ || k == "tab-title"@ || k == "tab-caption"@
}

/// Types that may be absorbed into a containing `image_block`.
pub open spec fn is_overlap_eligible_spec(kind: Seq<char>) -> bool {
    let k = effective_kind(kind);
    k == "image"@ || k == "chart"@ || k == "image_footnote"@ || k == "image_caption"@ || k
        == "figure"@ || k == "fig-title"@ || k == "fig-caption"@
}

/// The model-facing type of a block type.
pub open spec fn normalize_type_spec(kind: Seq<char>) -> Seq<char> {
    let k = effective_kind(kind);
    if k == "image_block"@ || k == "chart"@ || k == "figure"@ {
        "image"@
    } else if k == "title"@ || k == "TOC-title"@ || k == "section-title"@ {
        "title"@
    } else if k == "fig-title"@ || k == "fig-caption"@ {
        "image_caption"@
    } else if k == "tab-title"@ || k == "tab-caption"@ {
        "table_caption"@
    } else {
        k
    }
}

fn effective_is(kind: &String, lit: &str) -> (r: bool)
    ensures
        r == (effective_kind(kind@) == lit@),
{
    if str_is(kind, "seal") {
        let img = to_chars("image");
        chars::chars_eq(&img, &to_chars(lit))
    } else {
        str_is(kind, lit)
    }
}

fn is_visual(kind: &String) -> (r: bool)
    ensures
        r == is_visual_spec(kind@),
{
    effective_is(kind, "image_block") || effective_is(kind, "image") || effective_is(kind, "table")
        || effective_is(kind, "chart") || effective_is(kind, "table_footnote") || effective_is(
        kind,
        "image_footnote",
    ) || effective_is(kind, "table_caption") || effective_is(kind, "image_caption")
        || effective_is(kind, "title") || effective_is(kind, "TOC-title") || effective_is(
        kind,
        "section-title",
    ) || effective_is(kind, "figure") || effective_is(kind, "fig-title") || effective_is(
        kind,
        "fig-caption",
    ) || effective_is(kind, "tab-title") || effective_is(kind, "tab-caption")
}

fn is_overlap_eligible(kind: &String) -> (r: bool)
    ensures
        r == is_overlap_eligible_spec(kind@),
{
    effective_is(kind, "image") || effective_is(kind, "chart") || effective_is(kind, "image_footnote")
        || effective_is(kind, "image_caption") || effective_is(kind, "figure") || effective_is(
        kind,
        "fig-title",
    ) || effective_is(kind, "fig-caption")
}

fn literal(s: &str) -> (r: String)
    ensures
        r@ == s@,
{
    from_chars(to_chars(s).as_slice())
}

fn normalize_type(kind: &String) -> (r: String)
    ensures
        r@ == normalize_type_spec(kind@),
{
    if effective_is(kind, "image_block") || effective_is(kind, "chart") || effective_is(kind, "figure") {
        literal("image")
    } else if effective_is(kind, "title") || effective_is(kind, "TOC-title") || effective_is(
        kind,
        "section-title",
    ) {
        literal("title")
    } else if effective_is(kind, "fig-title") || effective_is(kind, "fig-caption") {
        literal("image_caption")
    } else if effective_is(kind, "tab-title") || effective_is(kind, "tab-caption") {
        literal("table_caption")
    } else if str_is(kind, "seal") {
        literal("image")
    } else {
        kind.clone()
    }
}

/// `inner` lies within `outer` with 5% slack: its `x0, y0` are at least 95%
/// of `outer`'s, its `x1, y1` at most 105%.
pub open spec fn contained_spec(inner: [i64; 4], outer: [i64; 4]) -> bool {
    &&& 100 * inner[0] >= 95 * outer[0]
    &&& 100 * inner[1] >= 95 * outer[1]
    &&& 100 * inner[2] <= 105 * outer[2]
    &&& 100 * inner[3] <= 105 * outer[3]
}

fn contained(inner: &[i64; 4], outer: &[i64; 4]) -> (r: bool)
    ensures
        r == contained_spec(*inner, *outer),
{
    100 * (inner[0] as i128) >= 95 * (outer[0] as i128) && 100 * (inner[1] as i128) >= 95 * (
    outer[1] as i128) && 100 * (inner[2] as i128) <= 105 * (outer[2] as i128) && 100 * (
    inner[3] as i128) <= 105 * (outer[3] as i128)
}

/// The first `image_block` at or after position `j` that contains block `i`.
pub open spec fn container_from(bs: Seq<WorkBlock>, i: int, j: int) -> Option<int>
    decreases bs.len() - j,
{
    if j < 0 || j >= bs.len() {
        None
    } else if bs[j].kind@ == "image_block"@ && contained_spec(bs[i].bbox, bs[j].bbox) {
        Some(j)
    } else {
        container_from(bs, i, j + 1)
    }
}

/// The `image_block` a visual block is absorbed into, if any.
pub open spec fn absorber(bs: Seq<WorkBlock>, i: int) -> Option<int> {
    if is_overlap_eligible_spec(bs[i].kind@) {
        container_from(bs, i, 0)
    } else {
        None
    }
}

/// Over the first `n` blocks: the positions shown to the model, and the
/// direct `(visual, image_block)` links, in block order.
pub open spec fn image_scan(bs: Seq<WorkBlock>, n: nat) -> (Seq<int>, Seq<(int, int)>)
    decreases n,
{
    if n == 0 {
        (seq![], seq![])
    } else {
        let prev = image_scan(bs, (n - 1) as nat);
        let i = n - 1;
        if i < bs.len() && is_visual_spec(bs[i].kind@) {
            match absorber(bs, i) {
                Some(j) => (prev.0, prev.1.push((i, j))),
                None => (prev.0.push(i), prev.1),
            }
        } else {
            prev
        }
    }
}

/// `j` shows visual block `b` at position `i`: normalized type, `None` as
/// content for images and tables, else the first 50 characters.
pub open spec fn shows_visual(j: ImageJudge, i: int, b: WorkBlock) -> bool {
    let kind = normalize_type_spec(b.kind@);
    &&& j.idx == i
    &&& j.kind@ == kind
    &&& j.content@ == if kind == "image"@ || kind == "table"@ {
        "None"@
    } else {
        first_50(b.content@)
    }
    &&& j.page == b.page
    &&& j.bbox@[0]@ == chars::decimal_int(permille(b.bbox[1]))
    &&& j.bbox@[1]@ == chars::decimal_int(permille(b.bbox[0]))
    &&& j.bbox@[2]@ == chars::decimal_int(permille(b.bbox[3]))
    &&& j.bbox@[3]@ == chars::decimal_int(permille(b.bbox[2]))
}

fn find_container(blocks: &Vec<WorkBlock>, i: usize) -> (r: Option<usize>)
    requires
        i < blocks@.len(),
    ensures
        match r {
            Some(j) => container_from(blocks@, i as int, 0) == Some(j as int),
            None => container_from(blocks@, i as int, 0) is None,
        },
{
    let mut j: usize = 0;
    while j < blocks.len()
        invariant
            i < blocks@.len(),
            j <= blocks@.len(),
            container_from(blocks@, i as int, 0) == container_from(blocks@, i as int, j as int),
        decreases blocks.len() - j,
    {
        if str_is(&blocks[j].kind, "image_block") && contained(&blocks[i].bbox, &blocks[j].bbox) {
            return Some(j);
        }
        j = j + 1;
    }
    None
}

fn permille_string(v: i64) -> (r: String)
    ensures
        r@ == chars::decimal_int(permille(v)),
{
    from_chars(i64_to_chars(permille_exec(v)).as_slice())
}

fn image_judge_of(b: &WorkBlock, i: usize) -> (j: ImageJudge)
    requires
        i <= i64::MAX,
    ensures
        shows_visual(j, i as int, *b),
{
    let kind = normalize_type(&b.kind);
    let content = if str_is(&kind, "image") || str_is(&kind, "table") {
        literal("None")
    } else {
        let c = to_chars(b.content.as_str());
        let n = if c.len() < 50 {
            c.len()
        } else {
            50
        };
        let shown = slice_chars(&c, 0, n);
        assert(shown@ =~= first_50(b.content@));
        from_chars(shown.as_slice())
    };
    let bbox = [
        permille_string(b.bbox[1]),
        permille_string(b.bbox[0]),
        permille_string(b.bbox[3]),
        permille_string(b.bbox[2]),
    ];
    ImageJudge { idx: i as i64, kind, content, page: b.page, bbox }
}

/// Each judge shows the block at the corresponding position.
pub open spec fn judges_show(js: Seq<ImageJudge>, pos: Seq<int>, bs: Seq<WorkBlock>) -> bool {
    &&& js.len() == pos.len()
    &&& forall|k: int| 0 <= k < js.len() ==> shows_visual(#[trigger] js[k], pos[k], bs[pos[k]])
}

/// The links, as positions.
pub open spec fn links_are(ls: Seq<(usize, usize)>, ps: Seq<(int, int)>) -> bool {
    &&& ls.len() == ps.len()
    &&& forall|k: int| 0 <= k < ls.len() ==> (#[trigger] ls[k]).0 == ps[k].0 && ls[k].1 == ps[k].1
}

/// Selects the visual judge blocks and the direct `image_block` containment
/// links `(visual position, image_block position)`.
pub fn filter_image(blocks: &Vec<WorkBlock>) -> (r: (Vec<ImageJudge>, Vec<(usize, usize)>))
    requires
        blocks@.len() <= i64::MAX,
    ensures
        judges_show(r.0@, image_scan(blocks@, blocks@.len()).0, blocks@),
        links_are(r.1@, image_scan(blocks@, blocks@.len()).1),
{
    let mut judges: Vec<ImageJudge> = Vec::new();
    let mut linking: Vec<(usize, usize)> = Vec::new();
    let mut i: usize = 0;
    while i < blocks.len()
        invariant
            i <= blocks@.len(),
            blocks@.len() <= i64::MAX,
            judges_show(judges@, image_scan(blocks@, i as nat).0, blocks@),
            links_are(linking@, image_scan(blocks@, i as nat).1),
        decreases blocks.len() - i,
    {
        let b = &blocks[i];
        let ghost prev = image_scan(blocks@, i as nat);
        let ghost now = image_scan(blocks@, (i + 1) as nat);
        let ghost jb = judges@;
        let ghost lb = linking@;
        assert(now == if is_visual_spec(blocks@[i as int].kind@) {
            match absorber(blocks@, i as int) {
                Some(j) => (prev.0, prev.1.push((i as int, j))),
                None => (prev.0.push(i as int), prev.1),
            }
        } else {
            prev
        });
        if is_visual(&b.kind) {
            let found = if is_overlap_eligible(&b.kind) {
                find_container(blocks, i)
            } else {
                None
            };
            match found {
                Some(j) => {
                    linking.push((i, j));
                },
                None => {
                    let jd = image_judge_of(b, i);
                    judges.push(jd);
                },
            }
        }
        proof {
            assert forall|k: int| 0 <= k < judges@.len() implies shows_visual(#[trigger] judges@[k], now.0[k], blocks@[now.0[k]]) by {
                if k < jb.len() {
                    assert(judges@[k] == jb[k]);
                    assert(now.0[k] == prev.0[k]);
                }
            }
            assert forall|k: int| 0 <= k < linking@.len() implies (#[trigger] linking@[k]).0 == now.1[k].0 && linking@[k].1 == now.1[k].1 by {
                if k < lb.len() {
                    assert(linking@[k] == lb[k]);
                    assert(now.1[k] == prev.1[k]);
                }
            }
        }
        i = i + 1;
    }
    (judges, linking)
}

/// One judge line of the association prompt.
pub open spec fn image_line(j: ImageJudge) -> Seq<char> {
    "<|id|>"@ + chars::decimal_int(j.idx as int) + "<|type|>"@ + j.kind@ + "<|page|>"@
        + chars::decimal_int(j.page as int) + "<|box|>"@ + chars::join_spec(
        Seq::new(4, |k: int| j.bbox@[k]@),
        " "@,
    ) + "<|content|>"@ + j.content@
}

/// The `Image-Text Correlation Analysis` prompt of a chunk.
pub open spec fn image_prompt_spec(chunk: Seq<ImageJudge>) -> Seq<char> {
    "<image>\nImage-Text Correlation Analysis: "@ + chars::join_spec(
        Seq::new(chunk.len(), |i: int| image_line(chunk[i])),
        "\n"@,
    )
}

fn image_line_exec(j: &ImageJudge) -> (r: Vec<char>)
    ensures
        r@ == image_line(*j),
{
    let mut out: Vec<char> = Vec::new();
    push_str(&mut out, "<|id|>");
    append_chars(&mut out, &i64_to_chars(j.idx));
    push_str(&mut out, "<|type|>");
    append_chars(&mut out, &to_chars(j.kind.as_str()));
    push_str(&mut out, "<|page|>");
    append_chars(&mut out, &i64_to_chars(j.page));
    push_str(&mut out, "<|box|>");
    let mut parts: Vec<Vec<char>> = Vec::new();
    let mut k: usize = 0;
    while k < 4
        invariant
            k <= 4,
            parts.deep_view() =~= Seq::new(k as nat, |m: int| j.bbox@[m]@),
        decreases 4 - k,
    {
        let ghost before = parts.deep_view();
        let part = to_chars(j.bbox[k].as_str());
        assert(part.deep_view() =~= part@);
        parts.push(part);
        assert(parts.deep_view() =~= before.push(j.bbox@[k as int]@));
        k = k + 1;
    }
    append_chars(&mut out, &chars::join(&parts, &to_chars(" ")));
    push_str(&mut out, "<|content|>");
    append_chars(&mut out, &to_chars(j.content.as_str()));
    out
}

/// Builds the `Image-Text Correlation Analysis` prompt for a chunk.
pub fn build_image_prompt(chunk: &[ImageJudge]) -> (r: String)
    ensures
        r@ == image_prompt_spec(chunk@),
{
    let mut lines: Vec<Vec<char>> = Vec::new();
    let mut i: usize = 0;
    while i < chunk.len()
        invariant
            i <= chunk@.len(),
            lines.deep_view() =~= Seq::new(i as nat, |k: int| image_line(chunk@[k])),
        decreases chunk.len() - i,
    {
        let ghost before = lines.deep_view();
        let line = image_line_exec(&chunk[i]);
        assert(line.deep_view() =~= line@);
        lines.push(line);
        assert(lines.deep_view() =~= before.push(image_line(chunk@[i as int])));
        i = i + 1;
    }
    let mut out = to_chars("<image>\nImage-Text Correlation Analysis: ");
    append_chars(&mut out, &chars::join(&lines, &to_chars("\n")));
    from_chars(out.as_slice())
}

/// The `image` link a block at position `k` ends with: the association pairs
/// applied in order (target + 1), then the containment links (container + 1).
pub open spec fn image_after(c: i64, k: int, pairs: Seq<(i64, i64)>, links: Seq<(usize, usize)>) -> i64
    decreases links.len(),
{
    if links.len() == 0 {
        crate::truncation::contd_after(c, k, pairs)
    } else if links.last().0 == k {
        (links.last().1 + 1) as i64
    } else {
        image_after(c, k, pairs, links.drop_last())
    }
}

/// Applies association pairs (`blocks[src].image = tgt + 1`), then the
/// containment links (`blocks[i].image = j + 1`); out-of-range sources are
/// ignored.
pub fn apply_image(blocks: &mut Vec<WorkBlock>, pairs: &[(i64, i64)], linking: &[(usize, usize)])
    requires
        forall|i: int| 0 <= i < pairs@.len() ==> #[trigger] pairs@[i].1 < i64::MAX,
        forall|i: int| 0 <= i < linking@.len() ==> #[trigger] linking@[i].1 < i64::MAX,
    ensures
        final(blocks)@.len() == old(blocks)@.len(),
        forall|k: int|
            0 <= k < old(blocks)@.len() ==> #[trigger] final(blocks)@[k] == (WorkBlock {
                image: image_after(old(blocks)@[k].image, k, pairs@, linking@),
                ..old(blocks)@[k]
            }),
{
    let ghost orig = blocks@;
    let mut i: usize = 0;
    while i < pairs.len()
        invariant
            i <= pairs@.len(),
            forall|m: int| 0 <= m < pairs@.len() ==> #[trigger] pairs@[m].1 < i64::MAX,
            blocks@.len() == orig.len(),
            forall|k: int|
                0 <= k < orig.len() ==> #[trigger] blocks@[k] == (WorkBlock {
                    image: crate::truncation::contd_after(orig[k].image, k, pairs@.take(i as int)),
                    ..orig[k]
                }),
        decreases pairs.len() - i,
    {
        let (src, tgt) = pairs[i];
        assert(pairs@.take(i + 1).drop_last() =~= pairs@.take(i as int));
        assert(pairs@.take(i + 1).last() == pairs@[i as int]);
        assert(pairs@[i as int].1 < i64::MAX);
        let ghost before = blocks@;
        if 0 <= src && (src as i128) < (blocks.len() as i128) {
            let k = src as usize;
            blocks[k].image = tgt + 1;
            assert(blocks@ == before.update(k as int, WorkBlock { image: (tgt + 1) as i64, ..before[k as int] }));
        }
        proof {
            assert forall|k: int| 0 <= k < orig.len() implies #[trigger] blocks@[k] == (WorkBlock {
                image: crate::truncation::contd_after(orig[k].image, k, pairs@.take(i + 1)),
                ..orig[k]
            }) by {
                if k == src as int {
                    assert(blocks@[k] == WorkBlock { image: (tgt + 1) as i64, ..before[k] });
                } else {
                    assert(blocks@[k] == before[k]);
                }
            }
        }
        i = i + 1;
    }
    assert(pairs@.take(pairs.len() as int) =~= pairs@);
    let mut t: usize = 0;
    while t < linking.len()
        invariant
            t <= linking@.len(),
            forall|m: int| 0 <= m < linking@.len() ==> #[trigger] linking@[m].1 < i64::MAX,
            blocks@.len() == orig.len(),
            forall|k: int|
                0 <= k < orig.len() ==> #[trigger] blocks@[k] == (WorkBlock {
                    image: image_after(orig[k].image, k, pairs@, linking@.take(t as int)),
                    ..orig[k]
                }),
        decreases linking.len() - t,
    {
        let (a, j) = linking[t];
        assert(linking@.take(t + 1).drop_last() =~= linking@.take(t as int));
        assert(linking@.take(t + 1).last() == linking@[t as int]);
        assert(linking@[t as int].1 < i64::MAX);
        let ghost before = blocks@;
        if a < blocks.len() {
            let v = j as i64 + 1;
            blocks[a].image = v;
            assert(blocks@ == before.update(a as int, WorkBlock { image: v, ..before[a as int] }));
        }
        proof {
            assert forall|k: int| 0 <= k < orig.len() implies #[trigger] blocks@[k] == (WorkBlock {
                image: image_after(orig[k].image, k, pairs@, linking@.take(t + 1)),
                ..orig[k]
            }) by {
                if k == a as int {
                    assert(blocks@[k] == WorkBlock { image: (j + 1) as i64, ..before[k] });
                } else {
                    assert(blocks@[k] == before[k]);
                }
            }
        }
        t = t + 1;
    }
    assert(linking@.take(linking.len() as int) =~= linking@);
}

} // verus!
