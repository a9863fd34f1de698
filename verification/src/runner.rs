//! The chunked subtasks as state machines: the model calls stay with the
//! caller, which asks each run for its next prompt, hands back the model's
//! answer, and finally applies the run's result to the blocks.

use vstd::prelude::*;
use crate::block::WorkBlock;
use crate::chunk::{Paged, Range, adaptive_chunk, chunk_plan_spec, ranges_match};
use crate::infer::{chunk_pages, chunk_pages_spec, accumulate_pairs, merge_pairs_spec};
use crate::labels;
use crate::title::{
    LevelPair, filter_title, build_title_prompt, extract_label2, synchronize, title_output,
    apply_title, label2_spec, sync_fits, pin_overlaps, append_new, avg_bias, shows_title,
    title_positions, level_after,
};
use crate::truncation::{
    JudgeBlock, filter_contd, build_contd_prompt, parse_contd_pairs, apply_contd, contd_output,
    contd_candidates, judge_shows, shorten_spec, judge_prompt_spec, unalias_spec, contd_after,
    with_contd,
};

verus! {

/// Pages per chunk of a subtask.
pub const CHUNK_PAGES: i64 = 50;

/// Pages shared by neighbouring chunks.
pub const CHUNK_OVERLAP: i64 = 1;

/// One model call of a run: the prompt and the pages whose images go with it.
#[derive(Debug)]
pub struct ChunkRequest {
    /// The prompt text.
    pub prompt: String,
    /// The chunk's distinct pages within its range, ascending.
    pub pages: Vec<i64>,
}

/// Every block's page, and the distance between any two, leave room for
/// the sums the chunker forms with its step and overlap.
pub open spec fn block_pages_bounded(blocks: Seq<WorkBlock>) -> bool {
    forall|i: int, j: int|
        0 <= i < blocks.len() && 0 <= j < blocks.len() ==> pages_fit(#[trigger] blocks[i].page, #[trigger] blocks[j].page)
}

/// Two pages that leave room for the chunker's sums: each at least one above
/// the least `i64` and at most `CHUNK_PAGES + 6` below the greatest, and their
/// difference at most one below the greatest.
pub open spec fn pages_fit(p: i64, q: i64) -> bool {
    &&& i64::MIN + 1 <= p <= i64::MAX - 56
    &&& p - q <= i64::MAX - 1
}

/// `chunks` and `ranges` are the chunk plan over the pages of `items`: each
/// chunk holds the items the plan assigns it, in order.
pub open spec fn planned(items: Seq<JudgeBlock>, ranges: Seq<Range>, chunks: Seq<Vec<JudgeBlock>>) -> bool {
    let plan = chunk_plan_spec(items.map_values(|x: JudgeBlock| x.page), CHUNK_PAGES as int, CHUNK_OVERLAP as int);
    &&& ranges_match(ranges, plan.0)
    &&& chunks.len() == plan.1.len()
    &&& forall|k: int|
        0 <= k < plan.1.len() ==> (#[trigger] chunks[k])@.len() == plan.1[k].len() && forall|m: int|
            0 <= m < plan.1[k].len() ==> #[trigger] chunks[k]@[m] == items[plan.1[k][m] as int]
}

/// `js` are the truncation candidates of `blocks` as the model is shown them.
pub open spec fn contd_judges(blocks: Seq<WorkBlock>, js: Seq<JudgeBlock>) -> bool {
    &&& js.len() == contd_candidates(blocks, blocks.len()).len()
    &&& forall|k: int|
        0 <= k < js.len() ==> {
            let i = contd_candidates(blocks, blocks.len())[k];
            judge_shows(#[trigger] js[k], i, blocks[i], shorten_spec(blocks[i].content@))
        }
}

/// `js` are the title blocks of `blocks` as the model is shown them.
pub open spec fn title_judges(blocks: Seq<WorkBlock>, js: Seq<JudgeBlock>) -> bool {
    &&& js.len() == title_positions(blocks, blocks.len()).len()
    &&& forall|k: int|
        0 <= k < js.len() ==> shows_title(#[trigger] js[k], title_positions(blocks, blocks.len())[k], blocks)
}

fn plan_chunks(js: &Vec<JudgeBlock>) -> (r: (Vec<Range>, Vec<Vec<JudgeBlock>>))
    requires
        forall|i: int, j: int|
            0 <= i < js@.len() && 0 <= j < js@.len() ==> pages_fit(#[trigger] js@[i].page, #[trigger] js@[j].page),
    ensures
        planned(js@, r.0@, r.1@),
        r.0@.len() == r.1@.len(),
{
    proof {
        let ps = js@.map_values(|x: JudgeBlock| x.page_spec());
        if ps.len() > 0 {
            crate::laws::lemma_distinct_pages(ps);
            let u = crate::chunk::distinct_pages(ps);
            assert(ps.contains(ps[0]));
            assert(u.contains(u[0]) && u.contains(u.last())) by {
                assert(u[u.len() - 1] == u.last());
            }
            let a = choose|a: int| 0 <= a < ps.len() && ps[a] == u[0];
            let b = choose|b: int| 0 <= b < ps.len() && ps[b] == u.last();
            assert(pages_fit(js@[b].page, js@[a].page));
            assert(pages_fit(js@[a].page, js@[b].page));
        }
    }
    let r = adaptive_chunk(js.as_slice(), CHUNK_PAGES, CHUNK_OVERLAP);
    proof {
        crate::chunk::lemma_plan_lens(js@.map_values(|x: JudgeBlock| x.page), 50, 1);
        let plan = chunk_plan_spec(js@.map_values(|x: JudgeBlock| x.page), 50, 1);
        assert(js@.map_values(|x: JudgeBlock| x.page) =~= js@.map_values(|x: JudgeBlock| x.page_spec()));
        assert forall|k: int|
            0 <= k < plan.1.len() implies (#[trigger] r.1@[k])@.len() == plan.1[k].len() && forall|m: int|
                0 <= m < plan.1[k].len() ==> #[trigger] r.1@[k]@[m] == js@[plan.1[k][m] as int] by {
            assert forall|m: int| 0 <= m < plan.1[k].len() implies #[trigger] r.1@[k]@[m] == js@[plan.1[k][m] as int] by {
                assert(cloned::<JudgeBlock>(js@[plan.1[k][m] as int], r.1@[k]@[m]));
            }
        }
    }
    r
}

fn request_for(chunk: &Vec<JudgeBlock>, rng: &Range, title: bool) -> (r: ChunkRequest)
    ensures
        r.prompt@ == judge_prompt_spec(
            if title { "<image>\nTitle Level Analysis: "@ } else { "<image>\nTruncation Detection: "@ },
            chunk@,
        ),
        r.pages@ == chunk_pages_spec(chunk@, *rng),
{
    let prompt = if title {
        build_title_prompt(chunk.as_slice())
    } else {
        build_contd_prompt(chunk.as_slice())
    };
    ChunkRequest { prompt, pages: chunk_pages(chunk.as_slice(), rng) }
}

/// The text-truncation subtask in progress: the chunks still to ask about,
/// and the `(source, target)` pairs answered so far (each kept once).
#[derive(Debug)]
pub struct TruncationRun {
    /// Page range of each chunk.
    pub ranges: Vec<Range>,
    /// The candidates of each chunk.
    pub chunks: Vec<Vec<JudgeBlock>>,
    /// The chunk to ask about next.
    pub next: usize,
    /// The pairs answered so far, without repeats, in order of arrival.
    pub pairs: Vec<(i64, i64)>,
}

impl TruncationRun {
    /// Chunks and position agree.
    pub open spec fn well_formed(&self) -> bool {
        &&& self.ranges@.len() == self.chunks@.len()
        &&& self.next <= self.chunks@.len()
    }

    /// A run over the truncation candidates of `blocks`, chunked by page.
    pub fn start(blocks: &Vec<WorkBlock>) -> (r: Self)
        requires
            blocks@.len() <= i64::MAX,
            block_pages_bounded(blocks@),
        ensures
            r.well_formed(),
            r.next == 0,
            r.pairs@.len() == 0,
            exists|js: Seq<JudgeBlock>| contd_judges(blocks@, js) && planned(js, r.ranges@, r.chunks@),
    {
        let js = filter_contd(blocks);
        proof {
            assert forall|i: int, j: int| 0 <= i < js@.len() && 0 <= j < js@.len() implies pages_fit(
                #[trigger] js@[i].page,
                #[trigger] js@[j].page,
            ) by {
                let p = contd_candidates(blocks@, blocks@.len())[i];
                let q = contd_candidates(blocks@, blocks@.len())[j];
                crate::truncation::lemma_contd_candidates_range(blocks@, blocks@.len(), i);
                crate::truncation::lemma_contd_candidates_range(blocks@, blocks@.len(), j);
                assert(judge_shows(js@[i], p, blocks@[p], shorten_spec(blocks@[p].content@)));
                assert(judge_shows(js@[j], q, blocks@[q], shorten_spec(blocks@[q].content@)));
                assert(pages_fit(blocks@[p].page, blocks@[q].page));
            }
        }
        let (ranges, chunks) = plan_chunks(&js);
        assert(contd_judges(blocks@, js@));
        TruncationRun { ranges, chunks, next: 0, pairs: Vec::new() }
    }

    /// The next model call, or `None` when every chunk has been answered.
    pub fn next_request(&self) -> (r: Option<ChunkRequest>)
        requires
            self.well_formed(),
        ensures
            r is Some <==> self.next < self.chunks@.len(),
            r matches Some(q) ==> {
                &&& q.prompt@ == judge_prompt_spec("<image>\nTruncation Detection: "@, self.chunks@[self.next as int]@)
                &&& q.pages@ == chunk_pages_spec(self.chunks@[self.next as int]@, self.ranges@[self.next as int])
            },
    {
        if self.next < self.chunks.len() {
            Some(request_for(&self.chunks[self.next], &self.ranges[self.next], false))
        } else {
            None
        }
    }

    /// Takes the model's answer for the current chunk: its pairs (with the
    /// `<|from|>` / `<|to|>` aliases accepted) join the accumulated ones.
    pub fn answer(&mut self, response: &str)
        requires
            old(self).well_formed(),
            old(self).next < old(self).chunks@.len(),
        ensures
            final(self).well_formed(),
            final(self).next == old(self).next + 1,
            final(self).ranges@ == old(self).ranges@,
            final(self).chunks@ == old(self).chunks@,
            final(self).pairs@ == merge_pairs_spec(
                old(self).pairs@,
                labels::parse_pairs_spec(unalias_spec(response@), "<|src_id|>"@, "<|tgt_id|>"@),
            ),
    {
        let n = self.chunks.len();
        let new = parse_contd_pairs(response);
        accumulate_pairs(&mut self.pairs, new.as_slice());
        assert(self.next < n);
        self.next = self.next + 1;
    }

    /// Applies the accumulated pairs to the blocks (`contd = target + 1` on
    /// each source in range) and returns them serialized.
    pub fn finish(&self, blocks: &mut Vec<WorkBlock>) -> (r: String)
        requires
            forall|i: int| 0 <= i < self.pairs@.len() ==> #[trigger] self.pairs@[i].1 < i64::MAX,
        ensures
            final(blocks)@.len() == old(blocks)@.len(),
            forall|k: int|
                0 <= k < old(blocks)@.len() ==> with_contd(
                    old(blocks)@[k],
                    #[trigger] final(blocks)@[k],
                    contd_after(old(blocks)@[k].contd, k, self.pairs@),
                ),
            r@ == labels::render_pairs_spec(self.pairs@, "<|src_id|>"@, "<|tgt_id|>"@),
    {
        apply_contd(blocks, self.pairs.as_slice());
        contd_output(self.pairs.as_slice())
    }
}

/// The title-hierarchy subtask in progress: the chunks still to ask about
/// (in order, so that each chunk is reconciled against the earlier ones),
/// and the levels settled so far.
#[derive(Debug)]
pub struct TitleRun {
    /// Page range of each chunk.
    pub ranges: Vec<Range>,
    /// The title blocks of each chunk.
    pub chunks: Vec<Vec<JudgeBlock>>,
    /// The chunk to ask about next.
    pub next: usize,
    /// The `(id, level)` results settled so far.
    pub results: Vec<LevelPair>,
}

impl TitleRun {
    /// Chunks and position agree.
    pub open spec fn well_formed(&self) -> bool {
        &&& self.ranges@.len() == self.chunks@.len()
        &&& self.next <= self.chunks@.len()
    }

    /// A run over the title blocks of `blocks`, chunked by page.
    pub fn start(blocks: &Vec<WorkBlock>) -> (r: Self)
        requires
            blocks@.len() <= i64::MAX,
            block_pages_bounded(blocks@),
        ensures
            r.well_formed(),
            r.next == 0,
            r.results@.len() == 0,
            exists|js: Seq<JudgeBlock>| title_judges(blocks@, js) && planned(js, r.ranges@, r.chunks@),
    {
        let js = filter_title(blocks);
        proof {
            assert forall|i: int, j: int| 0 <= i < js@.len() && 0 <= j < js@.len() implies pages_fit(
                #[trigger] js@[i].page,
                #[trigger] js@[j].page,
            ) by {
                let p = title_positions(blocks@, blocks@.len())[i];
                let q = title_positions(blocks@, blocks@.len())[j];
                assert(shows_title(js@[i], p, blocks@));
                assert(shows_title(js@[j], q, blocks@));
                assert(pages_fit(blocks@[p].page, blocks@[q].page));
            }
        }
        let (ranges, chunks) = plan_chunks(&js);
        assert(title_judges(blocks@, js@));
        TitleRun { ranges, chunks, next: 0, results: Vec::new() }
    }

    /// The next model call, or `None` when every chunk has been answered.
    pub fn next_request(&self) -> (r: Option<ChunkRequest>)
        requires
            self.well_formed(),
        ensures
            r is Some <==> self.next < self.chunks@.len(),
            r matches Some(q) ==> {
                &&& q.prompt@ == judge_prompt_spec("<image>\nTitle Level Analysis: "@, self.chunks@[self.next as int]@)
                &&& q.pages@ == chunk_pages_spec(self.chunks@[self.next as int]@, self.ranges@[self.next as int])
            },
    {
        if self.next < self.chunks.len() {
            Some(request_for(&self.chunks[self.next], &self.ranges[self.next], true))
        } else {
            None
        }
    }

    /// Whether an answer can be reconciled with the settled levels without
    /// a sum leaving `i64` (see `sync_fits`).
    pub fn can_answer(&self, response: &str) -> (r: bool)
        ensures
            r == sync_fits(label2_spec(response@), self.results@),
    {
        let ps = extract_label2(response);
        crate::title::sync_fits_exec(&ps, &self.results)
    }

    /// Takes the model's answer for the current chunk and reconciles its
    /// levels with the settled ones (see `synchronize`).
    pub fn answer(&mut self, response: &str)
        requires
            old(self).well_formed(),
            old(self).next < old(self).chunks@.len(),
            sync_fits(label2_spec(response@), old(self).results@),
        ensures
            final(self).well_formed(),
            final(self).next == old(self).next + 1,
            final(self).ranges@ == old(self).ranges@,
            final(self).chunks@ == old(self).chunks@,
            ({
                let pinned = pin_overlaps(label2_spec(response@), old(self).results@, label2_spec(response@).len());
                final(self).results@ == append_new(pinned.0, pinned.1, avg_bias(pinned.2), pinned.0.len())
            }),
    {
        let n = self.chunks.len();
        let mut id_pairs = extract_label2(response);
        synchronize(&mut id_pairs, &mut self.results);
        assert(self.next < n);
        self.next = self.next + 1;
    }

    /// Serializes the settled levels and applies them to the blocks.
    pub fn finish(&self, blocks: &mut Vec<WorkBlock>) -> (r: String)
        ensures
            r@ == labels::render_pairs_spec(
                self.results@.map_values(|p: LevelPair| (p.id, p.level)),
                "<|id|>"@,
                "<|level|>"@,
            ),
            final(blocks)@.len() == old(blocks)@.len(),
            forall|k: int|
                0 <= k < old(blocks)@.len() ==> #[trigger] final(blocks)@[k] == (WorkBlock {
                    level: level_after(old(blocks)@[k].level, k, label2_spec(r@)),
                    ..old(blocks)@[k]
                }),
    {
        let output = title_output(self.results.as_slice());
        apply_title(blocks, output.as_str());
        output
    }
}

} // verus!
