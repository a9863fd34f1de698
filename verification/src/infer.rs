//! The inference stage's glue between chunking, prompting and the model:
//! which pages a chunk shows, which page images go with a prompt, and how
//! the pairs answered for successive chunks accumulate.

use vstd::prelude::*;
use crate::chunk::Range;
use crate::truncation::JudgeBlock;

verus! {

/// Supplies a rendered, base64-encoded image for a set of pages.
pub trait PageImageProvider {
    /// `(media_type, base64_data)` for `pages`, or `None` to send a text-only prompt.
    fn image_for_pages(&self, pages: &[i64]) -> Option<(String, String)>;
}

/// A provider that never supplies images (text-only prompts).
pub struct NoImages;

impl PageImageProvider for NoImages {
    /// Never an image.
    fn image_for_pages(&self, _pages: &[i64]) -> (r: Option<(String, String)>)
        ensures
            r is None,
    {
        None
    }
}

/// Whether `s` holds `p`.
pub open spec fn holds(s: Seq<i64>, p: i64) -> bool {
    s.contains(p)
}

/// The distinct pages of a chunk's blocks that lie within the range, ascending.
pub open spec fn chunk_pages_spec(chunk: Seq<JudgeBlock>, rng: Range) -> Seq<i64> {
    crate::chunk::distinct_pages(in_range_pages(chunk, rng, chunk.len() as int))
}

/// The pages of the first `n` blocks that lie within the range, in block order.
pub open spec fn in_range_pages(chunk: Seq<JudgeBlock>, rng: Range, n: int) -> Seq<i64>
    decreases n,
{
    if n <= 0 || n > chunk.len() {
        seq![]
    } else {
        let prev = in_range_pages(chunk, rng, n - 1);
        let p = chunk[n - 1].page;
        if rng[0] <= p && p <= rng[1] {
            prev.push(p)
        } else {
            prev
        }
    }
}

/// The distinct pages present in a chunk, restricted to its range, ascending.
pub fn chunk_pages(chunk: &[JudgeBlock], rng: &Range) -> (r: Vec<i64>)
    ensures
        r@ == chunk_pages_spec(chunk@, *rng),
        crate::chunk::strictly_ascending(r@),
{
    let mut pages: Vec<i64> = Vec::new();
    let mut i: usize = 0;
    while i < chunk.len()
        invariant
            i <= chunk@.len(),
            pages@ == in_range_pages(chunk@, *rng, i as int),
        decreases chunk.len() - i,
    {
        let p = chunk[i].page;
        if rng[0] <= p && p <= rng[1] {
            pages.push(p);
        }
        i = i + 1;
    }
    crate::chunk::distinct_pages_exec(&pages)
}

/// `acc` with each pair of `new` appended unless already present, in order.
pub open spec fn merge_pairs_spec(acc: Seq<(i64, i64)>, new: Seq<(i64, i64)>) -> Seq<(i64, i64)>
    decreases new.len(),
{
    if new.len() == 0 {
        acc
    } else {
        let prev = merge_pairs_spec(acc, new.drop_last());
        if prev.contains(new.last()) {
            prev
        } else {
            prev.push(new.last())
        }
    }
}

/// Adds a chunk's answered pairs to the accumulated ones, skipping repeats.
pub fn accumulate_pairs(acc: &mut Vec<(i64, i64)>, new: &[(i64, i64)])
    ensures
        final(acc)@ == merge_pairs_spec(old(acc)@, new@),
{
    let ghost start = acc@;
    let mut i: usize = 0;
    while i < new.len()
        invariant
            i <= new@.len(),
            acc@ == merge_pairs_spec(start, new@.take(i as int)),
        decreases new.len() - i,
    {
        assert(new@.take(i + 1).drop_last() =~= new@.take(i as int));
        assert(new@.take(i + 1).last() == new@[i as int]);
        let pair = new[i];
        let mut found = false;
        let mut k: usize = 0;
        while k < acc.len()
            invariant
                k <= acc@.len(),
                found == (exists|j: int| 0 <= j < k && acc@[j] == pair),
            decreases acc.len() - k,
        {
            if acc[k].0 == pair.0 && acc[k].1 == pair.1 {
                found = true;
            }
            k = k + 1;
        }
        if !found {
            acc.push(pair);
        }
        i = i + 1;
    }
    assert(new@.take(new@.len() as int) =~= new@);
}

} // verus!
