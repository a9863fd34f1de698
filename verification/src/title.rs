//! Title-hierarchy subtask: heading levels, reconciled across chunks.
//!
//! Title blocks are shown to the model chunk by chunk; it answers with
//! `<|id|>I<|level|>L` lines. Where consecutive chunks overlap, a heading seen
//! before keeps its earlier level, and the average offset the chunk shows on
//! those overlapping headings is removed from its new headings.

use vstd::prelude::*;
use crate::chars;
use crate::chars::{to_chars, slice_chars};
use crate::block::WorkBlock;
use crate::labels;
use crate::labels::{parse_marked_pairs, render_marked_pairs};
use crate::truncation::{JudgeBlock, judge_shows, judge_of, judge_prompt, judge_prompt_spec, str_is};

verus! {

/// An `(id, level)` assignment from the model.
#[derive(Debug, Clone, Copy, PartialEq, Eq, Structural)]
pub struct LevelPair {
    /// 0-based block position (model-facing id).
    pub id: i64,
    /// Heading level.
    pub level: i64,
}

/// Block types eligible for hierarchy analysis.
pub open spec fn is_title_kind_spec(kind: Seq<char>) -> bool {
    kind == "title"@ || kind == "TOC-title"@ || kind == "section-title"@
}

fn is_title_kind(kind: &String) -> (r: bool)
    ensures
        r == is_title_kind_spec(kind@),
{
    str_is(kind, "title") || str_is(kind, "TOC-title") || str_is(kind, "section-title")
}

/// Positions of the title blocks among the first `n` blocks.
pub open spec fn title_positions(bs: Seq<WorkBlock>, n: nat) -> Seq<int>
    decreases n,
{
    if n == 0 {
        seq![]
    } else {
        let prev = title_positions(bs, (n - 1) as nat);
        if n - 1 < bs.len() && is_title_kind_spec(bs[n - 1].kind@) {
            prev.push(n - 1)
        } else {
            prev
        }
    }
}

/// The first 50 characters of a text.
pub open spec fn first_50(s: Seq<char>) -> Seq<char> {
    if s.len() < 50 {
        s
    } else {
        s.take(50)
    }
}

/// `j` shows the title block at position `p`, its first 50 characters.
pub open spec fn shows_title(j: JudgeBlock, p: int, bs: Seq<WorkBlock>) -> bool {
    0 <= p < bs.len() && judge_shows(j, p, bs[p], first_50(bs[p].content@))
}

/// Judge blocks for the title blocks: their first 50 characters shown.
pub fn filter_title(blocks: &Vec<WorkBlock>) -> (r: Vec<JudgeBlock>)
    requires
        blocks@.len() <= i64::MAX,
    ensures
        r@.len() == title_positions(blocks@, blocks@.len()).len(),
        forall|k: int|
            0 <= k < r@.len() ==> shows_title(#[trigger] r@[k], title_positions(blocks@, blocks@.len())[k], blocks@),
{
    let mut out: Vec<JudgeBlock> = Vec::new();
    let mut i: usize = 0;
    while i < blocks.len()
        invariant
            i <= blocks@.len(),
            blocks@.len() <= i64::MAX,
            out@.len() == title_positions(blocks@, i as nat).len(),
            forall|k: int| 0 <= k < out@.len() ==> shows_title(#[trigger] out@[k], title_positions(blocks@, i as nat)[k], blocks@),
        decreases blocks.len() - i,
    {
        let b = &blocks[i];
        let ghost prev_pos = title_positions(blocks@, i as nat);
        let ghost now = title_positions(blocks@, (i + 1) as nat);
        assert(now == if is_title_kind_spec(blocks@[i as int].kind@) {
            prev_pos.push(i as int)
        } else {
            prev_pos
        });
        let ghost before = out@;
        if is_title_kind(&b.kind) {
            let c = to_chars(b.content.as_str());
            let n = if c.len() < 50 {
                c.len()
            } else {
                50
            };
            let shown = slice_chars(&c, 0, n);
            assert(shown@ =~= first_50(b.content@));
            let j = judge_of(b, i, shown);
            out.push(j);
        }
        proof {
            assert forall|k: int| 0 <= k < out@.len() implies shows_title(#[trigger] out@[k], now[k], blocks@) by {
                if k < before.len() {
                    assert(out@[k] == before[k]);
                    assert(now[k] == prev_pos[k]);
                }
            }
        }
        i = i + 1;
    }
    assert(title_positions(blocks@, i as nat) == title_positions(blocks@, blocks@.len()));
    out
}

/// Builds the `Title Level Analysis` prompt for a chunk.
pub fn build_title_prompt(chunk: &[JudgeBlock]) -> (r: String)
    ensures
        r@ == judge_prompt_spec("<image>\nTitle Level Analysis: "@, chunk@),
{
    judge_prompt("<image>\nTitle Level Analysis: ", chunk)
}

/// The pairs with a non-negative level, as level pairs, in order.
pub open spec fn nonneg_levels(ps: Seq<(i64, i64)>) -> Seq<LevelPair>
    decreases ps.len(),
{
    if ps.len() == 0 {
        seq![]
    } else {
        let prev = nonneg_levels(ps.drop_last());
        if ps.last().1 >= 0 {
            prev.push(LevelPair { id: ps.last().0, level: ps.last().1 })
        } else {
            prev
        }
    }
}

/// The level labels of an answer: `<|id|>I<|level|>L` lines, non-negative
/// levels only.
pub open spec fn label2_spec(s: Seq<char>) -> Seq<LevelPair> {
    nonneg_levels(labels::parse_pairs_spec(s, "<|id|>"@, "<|level|>"@))
}

/// Parses `<|id|>I<|level|>L` lines, keeping only non-negative levels.
pub fn extract_label2(s: &str) -> (r: Vec<LevelPair>)
    ensures
        r@ == label2_spec(s@),
{
    let ps = parse_marked_pairs(s, "<|id|>", "<|level|>");
    let mut out: Vec<LevelPair> = Vec::new();
    let mut i: usize = 0;
    while i < ps.len()
        invariant
            i <= ps@.len(),
            out@ == nonneg_levels(ps@.take(i as int)),
        decreases ps.len() - i,
    {
        assert(ps@.take(i + 1).drop_last() =~= ps@.take(i as int));
        assert(ps@.take(i + 1).last() == ps@[i as int]);
        if ps[i].1 >= 0 {
            out.push(LevelPair { id: ps[i].0, level: ps[i].1 });
        }
        i = i + 1;
    }
    assert(ps@.take(ps.len() as int) =~= ps@);
    out
}

/// Position of the first pair with the given id.
pub open spec fn find_id(rs: Seq<LevelPair>, id: i64) -> Option<int>
    decreases rs.len(),
{
    if rs.len() == 0 {
        None
    } else {
        match find_id(rs.drop_last(), id) {
            Some(j) => Some(j),
            None => if rs.last().id == id {
                Some(rs.len() - 1)
            } else {
                None
            },
        }
    }
}

pub proof fn lemma_find_id(rs: Seq<LevelPair>, id: i64)
    ensures
        find_id(rs, id) matches Some(j) ==> 0 <= j < rs.len() && rs[j].id == id && forall|k: int|
            0 <= k < j ==> rs[k].id != id,
        find_id(rs, id) is None ==> forall|k: int| 0 <= k < rs.len() ==> rs[k].id != id,
    decreases rs.len(),
{
    if rs.len() > 0 {
        lemma_find_id(rs.drop_last(), id);
        if find_id(rs.drop_last(), id) is None {
            assert forall|k: int| 0 <= k < rs.len() - 1 implies rs[k].id != id by {
                assert(rs[k] == rs.drop_last()[k]);
            }
        } else {
            let j = find_id(rs.drop_last(), id)->0;
            assert(rs[j] == rs.drop_last()[j]);
            assert forall|k: int| 0 <= k < j implies rs[k].id != id by {
                assert(rs[k] == rs.drop_last()[k]);
            }
        }
    }
}

/// The reconciliation of the first `k` chunk pairs against the results:
/// `(chunk pairs, results, biases)` after each pair whose id is already in
/// the results has been pinned. A pinned pair takes the earlier level and
/// records its offset; when either level is negative both become `-1`.
pub open spec fn pin_overlaps(ps: Seq<LevelPair>, rs: Seq<LevelPair>, k: nat) -> (
    Seq<LevelPair>,
    Seq<LevelPair>,
    Seq<int>,
)
    decreases k,
{
    if k == 0 {
        (ps, rs, seq![])
    } else {
        let prev = pin_overlaps(ps, rs, (k - 1) as nat);
        let p = prev.0[k - 1];
        match find_id(prev.1, p.id) {
            None => prev,
            Some(j) => {
                let e = prev.1[j];
                if p.level < 0 || e.level < 0 {
                    (
                        prev.0.update(k - 1, LevelPair { id: p.id, level: -1i64 }),
                        prev.1.update(j, LevelPair { id: e.id, level: -1i64 }),
                        prev.2,
                    )
                } else {
                    (
                        prev.0.update(k - 1, LevelPair { id: p.id, level: e.level }),
                        prev.1,
                        prev.2.push(p.level - e.level),
                    )
                }
            },
        }
    }
}

/// Sum of a sequence of integers.
pub open spec fn sum_spec(s: Seq<int>) -> int
    decreases s.len(),
{
    if s.len() == 0 {
        0
    } else {
        sum_spec(s.drop_last()) + s.last()
    }
}

/// `s / n` rounded to the nearest integer, ties to the even one (`n > 0`).
pub open spec fn round_half_even(s: int, n: int) -> int {
    let q = s / n;
    let r = s % n;
    if 2 * r < n {
        q
    } else if 2 * r > n {
        q + 1
    } else if q % 2 == 0 {
        q
    } else {
        q + 1
    }
}

/// The average offset of the pinned pairs, banker's-rounded; 0 when none.
pub open spec fn avg_bias(bias: Seq<int>) -> int {
    if bias.len() == 0 {
        0
    } else {
        round_half_even(sum_spec(bias), bias.len() as int)
    }
}

/// The results after appending the first `k` chunk pairs whose id is not
/// yet present, positive levels shifted by `-avg`.
pub open spec fn append_new(ps: Seq<LevelPair>, rs: Seq<LevelPair>, avg: int, k: nat) -> Seq<LevelPair>
    decreases k,
{
    if k == 0 {
        rs
    } else {
        let prev = append_new(ps, rs, avg, (k - 1) as nat);
        let p = ps[k - 1];
        if find_id(prev, p.id) is Some {
            prev
        } else {
            prev.push(
                LevelPair {
                    id: p.id,
                    level: if p.level > 0 {
                        (p.level - avg) as i64
                    } else {
                        p.level
                    },
                },
            )
        }
    }
}

/// What `synchronize` needs of its arguments: every running sum of the
/// offsets of the pinned pairs fits in `i64` (the mean offset is taken of
/// that sum), and so does every new positive level once the mean offset is
/// taken off it.
pub open spec fn sync_fits(ps: Seq<LevelPair>, rs: Seq<LevelPair>) -> bool {
    let pinned = pin_overlaps(ps, rs, ps.len());
    &&& prefix_sums_fit(pinned.2)
    &&& forall|t: int|
        0 <= t < pinned.0.len() ==> #[trigger] new_level_fits(
            pinned.0[t],
            append_new(pinned.0, pinned.1, avg_bias(pinned.2), t as nat),
            avg_bias(pinned.2),
        )
}

/// Every running sum of `bs` fits in `i64`.
pub open spec fn prefix_sums_fit(bs: Seq<int>) -> bool {
    forall|k: int| 0 <= k <= bs.len() ==> i64::MIN <= #[trigger] sum_spec(bs.take(k)) <= i64::MAX
}

/// A pair that would be appended to `rs` with a positive level keeps that
/// level in `i64` once `avg` is taken off.
pub open spec fn new_level_fits(p: LevelPair, rs: Seq<LevelPair>, avg: int) -> bool {
    (find_id(rs, p.id) is None && p.level > 0) ==> i64::MIN <= p.level - avg <= i64::MAX
}

proof fn lemma_pin_lens(ps: Seq<LevelPair>, rs: Seq<LevelPair>, k: nat)
    requires
        k <= ps.len(),
    ensures
        pin_overlaps(ps, rs, k).0.len() == ps.len(),
        pin_overlaps(ps, rs, k).1.len() == rs.len(),
        pin_overlaps(ps, rs, k).2.len() <= k,
    decreases k,
{
    if k > 0 {
        lemma_pin_lens(ps, rs, (k - 1) as nat);
        let prev = pin_overlaps(ps, rs, (k - 1) as nat);
        lemma_find_id(prev.1, prev.0[k - 1].id);
    }
}

fn find_id_exec(rs: &Vec<LevelPair>, id: i64) -> (r: Option<usize>)
    ensures
        match r {
            Some(j) => find_id(rs@, id) == Some(j as int),
            None => find_id(rs@, id) is None,
        },
{
    let mut j: usize = 0;
    while j < rs.len()
        invariant
            j <= rs@.len(),
            find_id(rs@.take(j as int), id) is None,
        decreases rs.len() - j,
    {
        assert(rs@.take(j + 1).drop_last() =~= rs@.take(j as int));
        assert(rs@.take(j + 1).last() == rs@[j as int]);
        if rs[j].id == id {
            proof {
                lemma_find_id_prefix(rs@, id, j + 1);
            }
            return Some(j);
        }
        j = j + 1;
    }
    assert(rs@.take(rs.len() as int) =~= rs@);
    None
}

proof fn lemma_find_id_prefix(rs: Seq<LevelPair>, id: i64, n: int)
    requires
        0 <= n <= rs.len(),
        find_id(rs.take(n), id) is Some,
    ensures
        find_id(rs, id) == find_id(rs.take(n), id),
    decreases rs.len(),
{
    if n < rs.len() {
        assert(rs.drop_last().take(n) =~= rs.take(n));
        lemma_find_id_prefix(rs.drop_last(), id, n);
    } else {
        assert(rs.take(n) =~= rs);
    }
}

/// Banker's rounding of `s / n` for `n > 0`.
fn round_ties_even(s: i128, n: i128) -> (r: i128)
    requires
        0 < n <= 0x1_0000_0000_0000_0000,
        -0x4000_0000_0000_0000_0000_0000_0000_0000 <= s <= 0x4000_0000_0000_0000_0000_0000_0000_0000,
    ensures
        r == round_half_even(s as int, n as int),
{
    let (q, rem) = if s >= 0 {
        (s / n, s % n)
    } else {
        let m = 0 - s;
        let q0 = m / n;
        let r0 = m % n;
        proof {
            assert(m == q0 * n + r0) by (nonlinear_arith)
                requires
                    n > 0,
                    q0 == m / n,
                    r0 == m % n,
            ;
        }
        if r0 == 0 {
            proof {
                assert(s == (0 - q0) * n) by (nonlinear_arith)
                    requires
                        m == q0 * n,
                        s == -m,
                ;
                assert(s / n == -q0 && s % n == 0) by (nonlinear_arith)
                    requires
                        s == (0 - q0) * n,
                        n > 0,
                ;
            }
            (0 - q0, 0)
        } else {
            proof {
                assert(s == (-q0 - 1) * n + (n - r0)) by (nonlinear_arith)
                    requires
                        m == q0 * n + r0,
                        s == -m,
                ;
                assert(s / n == -q0 - 1 && s % n == n - r0) by (nonlinear_arith)
                    requires
                        s == (-q0 - 1) * n + (n - r0),
                        0 < r0 < n,
                ;
            }
            (0 - q0 - 1, n - r0)
        }
    };
    if 2 * rem < n {
        q
    } else if 2 * rem > n {
        q + 1
    } else if q % 2 == 0 {
        q
    } else {
        q + 1
    }
}

/// Pins the chunk pairs whose id is already in `results` (first phase of
/// `synchronize`) and returns the offsets of the pinned pairs.
fn pin_phase(id_pairs: &mut Vec<LevelPair>, results: &mut Vec<LevelPair>) -> (bias: Vec<i64>)
    ensures
        ({
            let pinned = pin_overlaps(old(id_pairs)@, old(results)@, old(id_pairs)@.len());
            &&& final(id_pairs)@ == pinned.0
            &&& final(results)@ == pinned.1
            &&& bias@.map_values(|b: i64| b as int) == pinned.2
        }),
{
    let ghost ps0 = id_pairs@;
    let ghost rs0 = results@;
    let mut bias: Vec<i64> = Vec::new();
    let mut i: usize = 0;
    proof {
        lemma_pin_lens(ps0, rs0, 0);
    }
    while i < id_pairs.len()
        invariant
            i <= id_pairs@.len(),
            id_pairs@.len() == ps0.len(),
            (id_pairs@, results@, bias@.map_values(|b: i64| b as int)) == pin_overlaps(ps0, rs0, i as nat),
        decreases id_pairs.len() - i,
    {
        proof {
            lemma_pin_lens(ps0, rs0, i as nat);
        }
        let pid = id_pairs[i].id;
        let plevel = id_pairs[i].level;
        match find_id_exec(results, pid) {
            None => {},
            Some(j) => {
                proof {
                    lemma_find_id(results@, pid);
                }
                let elevel = results[j].level;
                if plevel < 0 || elevel < 0 {
                    id_pairs[i].level = -1;
                    results[j].level = -1;
                } else {
                    let ghost before = bias@;
                    bias.push(plevel - elevel);
                    assert(bias@.map_values(|b: i64| b as int) =~= before.map_values(|b: i64| b as int).push(plevel - elevel));
                    id_pairs[i].level = elevel;
                }
            },
        }
        i = i + 1;
    }
    bias
}

/// Banker's rounding of a mean stays within the range of its sum.
proof fn lemma_round_in_range(s: int, n: int)
    requires
        i64::MIN <= s <= i64::MAX,
        n >= 1,
    ensures
        i64::MIN <= round_half_even(s, n) <= i64::MAX,
{
    let q = s / n;
    let r = s % n;
    assert(q * n + r == s && 0 <= r < n) by (nonlinear_arith)
        requires
            n >= 1,
            q == s / n,
            r == s % n,
    ;
    if n == 1 {
        assert(q == s && r == 0) by (nonlinear_arith)
            requires
                n == 1,
                q * n + r == s,
                0 <= r < n,
        ;
    } else {
        assert(i64::MIN <= q && q + 1 <= i64::MAX) by (nonlinear_arith)
            requires
                n >= 2,
                q * n + r == s,
                0 <= r < n,
                i64::MIN <= s <= i64::MAX,
        ;
    }
}

/// The rounded mean of the offsets, given that every running sum fits.
fn mean_offset(bias: &Vec<i64>) -> (avg: i64)
    requires
        prefix_sums_fit(bias@.map_values(|b: i64| b as int)),
    ensures
        avg == avg_bias(bias@.map_values(|b: i64| b as int)),
{
    let ghost bs = bias@.map_values(|b: i64| b as int);
    let mut sum: i64 = 0;
    let mut k: usize = 0;
    while k < bias.len()
        invariant
            k <= bias@.len(),
            bs == bias@.map_values(|b: i64| b as int),
            forall|j: int| 0 <= j <= bias@.len() ==> i64::MIN <= #[trigger] sum_spec(bs.take(j)) <= i64::MAX,
            sum == sum_spec(bs.take(k as int)),
        decreases bias.len() - k,
    {
        assert(bs.take(k + 1).drop_last() =~= bs.take(k as int));
        assert(bs[k as int] == bias@[k as int]);
        assert(i64::MIN <= sum_spec(bs.take(k + 1)) <= i64::MAX);
        sum = sum + bias[k];
        k = k + 1;
    }
    assert(bs.take(bias.len() as int) =~= bs);
    if bias.len() == 0 {
        0
    } else {
        let r = round_ties_even(sum as i128, bias.len() as i128);
        proof {
            lemma_round_in_range(sum as int, bias.len() as int);
        }
        r as i64
    }
}

/// Reconciles a chunk's level assignments against the accumulated `results`,
/// then appends the chunk's new ids. Overlapping ids take their earlier level
/// (or `-1` on both sides when either is negative); the rounded average of
/// their offsets is subtracted from the chunk's new positive levels.
pub fn synchronize(id_pairs: &mut Vec<LevelPair>, results: &mut Vec<LevelPair>)
    requires
        sync_fits(old(id_pairs)@, old(results)@),
    ensures
        ({
            let pinned = pin_overlaps(old(id_pairs)@, old(results)@, old(id_pairs)@.len());
            &&& final(id_pairs)@ == pinned.0
            &&& final(results)@ == append_new(pinned.0, pinned.1, avg_bias(pinned.2), pinned.0.len())
        }),
{
    let ghost pinned = pin_overlaps(id_pairs@, results@, id_pairs@.len());
    proof {
        lemma_pin_lens(id_pairs@, results@, id_pairs@.len());
    }
    let bias = pin_phase(id_pairs, results);
    let avg = mean_offset(&bias);
    let ghost rs1 = results@;
    let mut t: usize = 0;
    while t < id_pairs.len()
        invariant
            t <= id_pairs@.len(),
            id_pairs@ == pinned.0,
            rs1 == pinned.1,
            avg == avg_bias(pinned.2),
            forall|u: int|
                0 <= u < pinned.0.len() ==> #[trigger] new_level_fits(
                    pinned.0[u],
                    append_new(pinned.0, pinned.1, avg_bias(pinned.2), u as nat),
                    avg_bias(pinned.2),
                ),
            results@ == append_new(pinned.0, rs1, avg as int, t as nat),
        decreases id_pairs.len() - t,
    {
        let p = id_pairs[t];
        let ghost tu: int = t as int;
        assert(new_level_fits(pinned.0[tu], append_new(pinned.0, pinned.1, avg_bias(pinned.2), tu as nat), avg_bias(pinned.2)));
        match find_id_exec(results, p.id) {
            Some(_) => {},
            None => {
                let level = if p.level > 0 {
                    p.level - avg
                } else {
                    p.level
                };
                results.push(LevelPair { id: p.id, level });
            },
        }
        t = t + 1;
    }
}

/// Whether `synchronize` can reconcile `id_pairs` against `results`: runs
/// its pinning on copies and checks the sums it would form.
pub fn sync_fits_exec(id_pairs: &Vec<LevelPair>, results: &Vec<LevelPair>) -> (r: bool)
    ensures
        r == sync_fits(id_pairs@, results@),
{
    let mut ps: Vec<LevelPair> = Vec::new();
    let mut i: usize = 0;
    while i < id_pairs.len()
        invariant
            i <= id_pairs@.len(),
            ps@ == id_pairs@.take(i as int),
        decreases id_pairs.len() - i,
    {
        ps.push(id_pairs[i]);
        assert(id_pairs@.take(i + 1) =~= id_pairs@.take(i as int).push(id_pairs@[i as int]));
        i = i + 1;
    }
    let mut rs: Vec<LevelPair> = Vec::new();
    let mut j: usize = 0;
    while j < results.len()
        invariant
            j <= results@.len(),
            rs@ == results@.take(j as int),
        decreases results.len() - j,
    {
        rs.push(results[j]);
        assert(results@.take(j + 1) =~= results@.take(j as int).push(results@[j as int]));
        j = j + 1;
    }
    assert(id_pairs@.take(id_pairs.len() as int) =~= id_pairs@);
    assert(results@.take(results.len() as int) =~= results@);
    let ghost pinned = pin_overlaps(id_pairs@, results@, id_pairs@.len());
    proof {
        lemma_pin_lens(id_pairs@, results@, id_pairs@.len());
    }
    let bias = pin_phase(&mut ps, &mut rs);
    let ghost bs = bias@.map_values(|b: i64| b as int);
    let mut sum: i128 = 0;
    let mut k: usize = 0;
    assert(bs.take(0) =~= Seq::<int>::empty());
    while k < bias.len()
        invariant
            k <= bias@.len(),
            bs == bias@.map_values(|b: i64| b as int),
            bs == pinned.2,
            pinned == pin_overlaps(id_pairs@, results@, id_pairs@.len()),
            forall|m: int| 0 <= m <= k ==> i64::MIN <= #[trigger] sum_spec(bs.take(m)) <= i64::MAX,
            sum == sum_spec(bs.take(k as int)),
        decreases bias.len() - k,
    {
        assert(bs.take(k + 1).drop_last() =~= bs.take(k as int));
        assert(bs[k as int] == bias@[k as int]);
        sum = sum + bias[k] as i128;
        assert(sum == sum_spec(bs.take(k + 1)));
        if sum < i64::MIN as i128 || sum > i64::MAX as i128 {
            proof {
                let kk: int = k + 1;
                assert(!(i64::MIN <= sum_spec(bs.take(kk)) <= i64::MAX));
                assert(!prefix_sums_fit(pinned.2));
            }
            return false;
        }
        k = k + 1;
    }
    let avg = mean_offset(&bias);
    let ghost rs1 = rs@;
    let mut t: usize = 0;
    while t < ps.len()
        invariant
            t <= ps@.len(),
            ps@ == pinned.0,
            pinned == pin_overlaps(id_pairs@, results@, id_pairs@.len()),
            rs1 == pinned.1,
            avg == avg_bias(pinned.2),
            forall|u: int|
                0 <= u < t ==> #[trigger] new_level_fits(
                    pinned.0[u],
                    append_new(pinned.0, pinned.1, avg_bias(pinned.2), u as nat),
                    avg_bias(pinned.2),
                ),
            rs@ == append_new(pinned.0, rs1, avg as int, t as nat),
        decreases ps.len() - t,
    {
        let p = ps[t];
        match find_id_exec(&rs, p.id) {
            Some(_) => {},
            None => {
                if p.level > 0 && ((p.level as i128) - (avg as i128) < i64::MIN as i128 || (p.level as i128) - (
                avg as i128) > i64::MAX as i128) {
                    proof {
                        let tu: int = t as int;
                        assert(!new_level_fits(
                            pinned.0[tu],
                            append_new(pinned.0, pinned.1, avg_bias(pinned.2), tu as nat),
                            avg_bias(pinned.2),
                        ));
                    }
                    return false;
                }
                let level = if p.level > 0 {
                    p.level - avg
                } else {
                    p.level
                };
                rs.push(LevelPair { id: p.id, level });
            },
        }
        t = t + 1;
    }
    true
}

/// Serializes accumulated results as `<|id|>I<|level|>L` lines.
pub fn title_output(results: &[LevelPair]) -> (r: String)
    ensures
        r@ == labels::render_pairs_spec(
            results@.map_values(|p: LevelPair| (p.id, p.level)),
            "<|id|>"@,
            "<|level|>"@,
        ),
{
    let mut ps: Vec<(i64, i64)> = Vec::new();
    let mut i: usize = 0;
    while i < results.len()
        invariant
            i <= results@.len(),
            ps@ =~= results@.take(i as int).map_values(|p: LevelPair| (p.id, p.level)),
        decreases results.len() - i,
    {
        ps.push((results[i].id, results[i].level));
        i = i + 1;
    }
    assert(results@.take(results.len() as int) =~= results@);
    render_marked_pairs(ps.as_slice(), "<|id|>", "<|level|>")
}

/// The `level` a block at position `k` ends with after applying `labels`
/// in order.
pub open spec fn level_after(c: i64, k: int, labels: Seq<LevelPair>) -> i64
    decreases labels.len(),
{
    if labels.len() == 0 {
        c
    } else if labels.last().id == k {
        labels.last().level
    } else {
        level_after(c, k, labels.drop_last())
    }
}

/// Applies level labels: `blocks[id].level = level` for each non-negative
/// label of `output`; labels whose id is out of range are ignored.
pub fn apply_title(blocks: &mut Vec<WorkBlock>, output: &str)
    ensures
        final(blocks)@.len() == old(blocks)@.len(),
        forall|k: int|
            0 <= k < old(blocks)@.len() ==> #[trigger] final(blocks)@[k] == (WorkBlock {
                level: level_after(old(blocks)@[k].level, k, label2_spec(output@)),
                ..old(blocks)@[k]
            }),
{
    let labels = extract_label2(output);
    let ghost orig = blocks@;
    let mut i: usize = 0;
    while i < labels.len()
        invariant
            i <= labels@.len(),
            blocks@.len() == orig.len(),
            forall|k: int|
                0 <= k < orig.len() ==> #[trigger] blocks@[k] == (WorkBlock {
                    level: level_after(orig[k].level, k, labels@.take(i as int)),
                    ..orig[k]
                }),
        decreases labels.len() - i,
    {
        let lp = labels[i];
        assert(labels@.take(i + 1).drop_last() =~= labels@.take(i as int));
        assert(labels@.take(i + 1).last() == labels@[i as int]);
        let ghost before = blocks@;
        if 0 <= lp.id && (lp.id as i128) < (blocks.len() as i128) {
            let k = lp.id as usize;
            blocks[k].level = lp.level;
            assert(blocks@ == before.update(k as int, WorkBlock { level: lp.level, ..before[k as int] }));
        }
        proof {
            assert forall|k: int| 0 <= k < orig.len() implies #[trigger] blocks@[k] == (WorkBlock {
                level: level_after(orig[k].level, k, labels@.take(i + 1)),
                ..orig[k]
            }) by {
                if k == lp.id as int {
                    assert(blocks@[k] == WorkBlock { level: lp.level, ..before[k] });
                } else {
                    assert(blocks@[k] == before[k]);
                }
            }
        }
        i = i + 1;
    }
    assert(labels@.take(labels.len() as int) =~= labels@);
}

} // verus!
