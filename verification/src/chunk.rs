//! Boundary-aware page chunking for long documents.
//!
//! Items are split into page-range chunks of roughly `chunk_size` pages. Each
//! boundary is nudged, within five pages of its target, toward the page that
//! carries the most items, and `overlap` pages are kept on each side of a
//! boundary so that neighbouring chunks share context.

use vstd::prelude::*;

verus! {

/// Anything chunkable exposes its 1-based page number.
pub trait Paged {
    /// The page of this item, as the contracts speak of it.
    spec fn page_spec(&self) -> i64;

    /// The page this item sits on.
    fn page(&self) -> (p: i64)
        ensures
            p == self.page_spec(),
    ;
}


/// `u` with `p` inserted so that it stays strictly ascending.
pub open spec fn insert_unique(u: Seq<i64>, p: i64) -> Seq<i64>
    decreases u.len(),
{
    if u.len() == 0 {
        seq![p]
    } else if p < u[0] {
        seq![p] + u
    } else if p == u[0] {
        u
    } else {
        seq![u[0]] + insert_unique(u.drop_first(), p)
    }
}

/// The distinct values of `ps`, ascending.
pub open spec fn distinct_pages(ps: Seq<i64>) -> Seq<i64>
    decreases ps.len(),
{
    if ps.len() == 0 {
        seq![]
    } else {
        insert_unique(distinct_pages(ps.drop_last()), ps.last())
    }
}

/// Strictly ascending.
pub open spec fn strictly_ascending(u: Seq<i64>) -> bool {
    forall|i: int, j: int| 0 <= i < j < u.len() ==> u[i] < u[j]
}

/// Number of entries of `ps` equal to `p`.
pub open spec fn count_page(ps: Seq<i64>, p: i64) -> nat
    decreases ps.len(),
{
    if ps.len() == 0 {
        0
    } else {
        count_page(ps.drop_last(), p) + if ps.last() == p {
            1nat
        } else {
            0nat
        }
    }
}

/// Positions `0..n` of `ps` holding page `p`, ascending.
pub open spec fn positions_of(ps: Seq<i64>, p: i64, n: int) -> Seq<usize>
    decreases n,
{
    if n <= 0 {
        seq![]
    } else if ps[n - 1] == p {
        positions_of(ps, p, n - 1).push((n - 1) as usize)
    } else {
        positions_of(ps, p, n - 1)
    }
}

/// All positions of `ps`, grouped by page in the order of `u`, each group in
/// document order: a stable sort of the items by page.
pub open spec fn grouped(ps: Seq<i64>, u: Seq<i64>) -> Seq<usize>
    decreases u.len(),
{
    if u.len() == 0 {
        seq![]
    } else {
        grouped(ps, u.drop_last()) + positions_of(ps, u.last(), ps.len() as int)
    }
}

/// The entries of `s` whose page lies in `lo..=hi`, in order.
pub open spec fn window(ps: Seq<i64>, s: Seq<usize>, lo: int, hi: int) -> Seq<usize>
    decreases s.len(),
{
    if s.len() == 0 {
        seq![]
    } else {
        let rest = window(ps, s.drop_last(), lo, hi);
        let i = s.last() as int;
        if lo <= ps[i] <= hi {
            rest.push(s.last())
        } else {
            rest
        }
    }
}

/// Among the first `k` distinct pages that lie in `lo..=hi`, the first one with
/// the most items, with its item count.
pub open spec fn densest(ps: Seq<i64>, u: Seq<i64>, lo: int, hi: int, k: int) -> Option<(i64, nat)>
    decreases k,
{
    if k <= 0 {
        None
    } else {
        let prev = densest(ps, u, lo, hi, k - 1);
        let p = u[k - 1];
        if lo <= p <= hi {
            let f = count_page(ps, p);
            match prev {
                None => Some((p, f)),
                Some((bp, bf)) => if f > bf {
                    Some((p, f))
                } else {
                    prev
                },
            }
        } else {
            prev
        }
    }
}

/// The first distinct page above `target` among the first `k`, if any.
pub open spec fn first_above(u: Seq<i64>, target: int, k: int) -> Option<i64>
    decreases k,
{
    if k <= 0 {
        None
    } else {
        match first_above(u, target, k - 1) {
            Some(x) => Some(x),
            None => if u[k - 1] > target {
                Some(u[k - 1])
            } else {
                None
            },
        }
    }
}

/// The boundary chosen after `current_min`.
pub open spec fn next_boundary(ps: Seq<i64>, u: Seq<i64>, current_min: int, chunk_size: int) -> int {
    let target = current_min + chunk_size;
    let first = u[0] as int;
    let last = u.last() as int;
    let lo = if target - 5 > first {
        target - 5
    } else {
        first
    };
    let hi = if target + 5 < last {
        target + 5
    } else {
        last
    };
    match densest(ps, u, lo, hi, u.len() as int) {
        Some((p, _)) => p as int,
        None => match first_above(u, target, u.len() as int) {
            Some(x) => x as int,
            None => last,
        },
    }
}

/// The successive boundaries starting from `current_min`.
pub open spec fn boundaries_from(ps: Seq<i64>, u: Seq<i64>, current_min: int, chunk_size: int) -> Seq<int>
    decreases (u.last() as int) - current_min,
    when u.len() > 0
{
    if current_min < u.last() {
        let b = next_boundary(ps, u, current_min, chunk_size);
        if current_min < b <= u.last() {
            seq![b] + boundaries_from(ps, u, b, chunk_size)
        } else {
            seq![]
        }
    } else {
        seq![]
    }
}

/// The start of the chunk that begins after boundary `prev`.
pub open spec fn range_start(first: int, prev: int, overlap: int) -> int {
    if prev == first {
        prev
    } else {
        prev - overlap
    }
}

/// Ranges and chunks contributed by the first `k` boundaries `bs`.
pub open spec fn plan_prefix(
    ps: Seq<i64>,
    u: Seq<i64>,
    bs: Seq<int>,
    overlap: int,
    k: int,
) -> (Seq<(int, int)>, Seq<Seq<usize>>)
    decreases k,
{
    if k <= 0 {
        (seq![], seq![])
    } else {
        let (rs, cs) = plan_prefix(ps, u, bs, overlap, k - 1);
        let first = u[0] as int;
        let last = u.last() as int;
        let prev = if k == 1 {
            first
        } else {
            bs[k - 2]
        };
        let b = bs[k - 1];
        let c = window(ps, grouped(ps, u), prev - overlap, b + overlap);
        if c.len() > 0 {
            let end = if last < b + overlap {
                last
            } else {
                b + overlap
            };
            (rs.push((range_start(first, prev, overlap), end)), cs.push(c))
        } else {
            (rs, cs)
        }
    }
}

/// The complete chunk plan: page ranges and, for each, the positions of its
/// items (grouped by page, document order within a page).
pub open spec fn chunk_plan_spec(ps: Seq<i64>, chunk_size: int, overlap: int) -> (
    Seq<(int, int)>,
    Seq<Seq<usize>>,
) {
    if ps.len() == 0 {
        (seq![], seq![])
    } else {
        let u = distinct_pages(ps);
        let first = u[0] as int;
        let last = u.last() as int;
        if last - first <= 2 {
            (seq![], seq![])
        } else {
            let bs = boundaries_from(ps, u, first, chunk_size);
            let (rs, cs) = plan_prefix(ps, u, bs, overlap, bs.len() as int);
            let prev = if bs.len() == 0 {
                first
            } else {
                bs.last()
            };
            let c = window(ps, grouped(ps, u), prev - overlap, last);
            let start = range_start(first, prev, overlap);
            if c.len() > 0 && last - start > 2 {
                (rs.push((start, last)), cs.push(c))
            } else {
                (rs, cs)
            }
        }
    }
}

/// How many pages the items span: last page minus first page (0 for none).
pub open spec fn page_span(ps: Seq<i64>) -> int {
    if ps.len() == 0 {
        0
    } else {
        distinct_pages(ps).last() - distinct_pages(ps)[0]
    }
}


/// Shape of `insert_unique` on a strictly ascending sequence, given the first
/// position `k` not below `p`.
proof fn lemma_insert_unique_shape(u: Seq<i64>, p: i64, k: int)
    requires
        strictly_ascending(u),
        0 <= k <= u.len(),
        forall|i: int| 0 <= i < k ==> u[i] < p,
        k < u.len() ==> u[k] >= p,
    ensures
        insert_unique(u, p) == if k < u.len() && u[k] == p {
            u
        } else {
            u.take(k).push(p) + u.skip(k)
        },
    decreases u.len(),
{
    if u.len() == 0 {
        assert(u.take(0).push(p) + u.skip(0) =~= seq![p]);
    } else if k == 0 {
        if p < u[0] {
            assert(u.take(0).push(p) + u.skip(0) =~= seq![p] + u);
        }
    } else {
        let t = u.drop_first();
        assert(strictly_ascending(t)) by {
            assert forall|i: int, j: int| 0 <= i < j < t.len() implies t[i] < t[j] by {
                assert(t[i] == u[i + 1] && t[j] == u[j + 1]);
            }
        }
        assert forall|i: int| 0 <= i < k - 1 implies t[i] < p by {
            assert(t[i] == u[i + 1]);
        }
        if k < u.len() {
            assert(t[k - 1] == u[k]);
        }
        lemma_insert_unique_shape(t, p, k - 1);
        assert(u[0] < p);
        if k < u.len() && u[k] == p {
            assert(seq![u[0]] + t =~= u);
        } else {
            assert(seq![u[0]] + (t.take(k - 1).push(p) + t.skip(k - 1)) =~= u.take(k).push(p)
                + u.skip(k));
        }
    }
}

/// Inserts `p` into a strictly ascending vector, keeping it strictly ascending.
fn insert_page(u: &mut Vec<i64>, p: i64)
    requires
        strictly_ascending(old(u)@),
    ensures
        final(u)@ == insert_unique(old(u)@, p),
        strictly_ascending(final(u)@),
        forall|x: i64| final(u)@.contains(x) <==> (old(u)@.contains(x) || x == p),
{
    let mut k: usize = 0;
    while k < u.len() && u[k] < p
        invariant
            k <= u.len(),
            u@ == old(u)@,
            forall|i: int| 0 <= i < k ==> u@[i] < p,
        decreases u.len() - k,
    {
        k = k + 1;
    }
    proof {
        lemma_insert_unique_shape(u@, p, k as int);
    }
    if k < u.len() && u[k] == p {
        proof {
            assert forall|x: i64| u@.contains(x) <==> (u@.contains(x) || x == p) by {
                if x == p {
                    assert(u@[k as int] == x);
                }
            }
        }
        return;
    }
    let ghost u0 = u@;
    u.insert(k, p);
    proof {
        assert(u@ =~= u0.take(k as int).push(p) + u0.skip(k as int));
        assert forall|i: int, j: int| 0 <= i < j < u@.len() implies u@[i] < u@[j] by {
            if j < k {
            } else if j == k {
            } else if i < k {
                assert(u@[j] == u0[j - 1]);
            } else if i == k {
                assert(u@[j] == u0[j - 1]);
                assert(u0[k as int] > p);
                if j - 1 > k {
                    assert(u0[k as int] < u0[j - 1]);
                }
            } else {
                assert(u@[i] == u0[i - 1] && u@[j] == u0[j - 1]);
            }
        }
        assert forall|x: i64| u@.contains(x) <==> (u0.contains(x) || x == p) by {
            if u@.contains(x) {
                let i = choose|i: int| 0 <= i < u@.len() && u@[i] == x;
                if i < k {
                    assert(u0[i] == x);
                } else if i > k {
                    assert(u0[i - 1] == x);
                }
            }
            if u0.contains(x) {
                let i = choose|i: int| 0 <= i < u0.len() && u0[i] == x;
                if i < k {
                    assert(u@[i] == x);
                } else {
                    assert(u@[i + 1] == x);
                }
            }
            if x == p {
                assert(u@[k as int] == p);
            }
        }
        assert(u0 == old(u)@);
        assert(forall|x: i64| #[trigger] u@.contains(x) <==> (old(u)@.contains(x) || x == p));
    }
}

/// The distinct pages of `ps`, ascending.
pub(crate) fn distinct_pages_exec(ps: &Vec<i64>) -> (u: Vec<i64>)
    ensures
        u@ == distinct_pages(ps@),
        strictly_ascending(u@),
        forall|x: i64| u@.contains(x) <==> ps@.contains(x),
{
    let mut u: Vec<i64> = Vec::new();
    let mut i: usize = 0;
    while i < ps.len()
        invariant
            i <= ps.len(),
            u@ == distinct_pages(ps@.take(i as int)),
            strictly_ascending(u@),
            forall|x: i64| u@.contains(x) <==> ps@.take(i as int).contains(x),
        decreases ps.len() - i,
    {
        let ghost before = ps@.take(i as int);
        insert_page(&mut u, ps[i]);
        proof {
            let now = ps@.take(i + 1);
            assert(now.drop_last() =~= before);
            assert(now.last() == ps@[i as int]);
            assert forall|x: i64| u@.contains(x) <==> now.contains(x) by {
                if now.contains(x) {
                    let j = choose|j: int| 0 <= j < now.len() && now[j] == x;
                    if j < i {
                        assert(before[j] == x);
                    }
                }
                if before.contains(x) {
                    let j = choose|j: int| 0 <= j < before.len() && before[j] == x;
                    assert(now[j] == x);
                }
                if x == ps@[i as int] {
                    assert(now[i as int] == x);
                }
            }
        }
        i = i + 1;
    }
    assert(ps@.take(ps.len() as int) =~= ps@);
    u
}

/// Number of entries of `ps` equal to `p`.
fn count_page_exec(ps: &Vec<i64>, p: i64) -> (c: usize)
    ensures
        c == count_page(ps@, p),
{
    let mut c: usize = 0;
    let mut i: usize = 0;
    while i < ps.len()
        invariant
            i <= ps.len(),
            c == count_page(ps@.take(i as int), p),
            c <= i,
        decreases ps.len() - i,
    {
        assert(ps@.take(i + 1).drop_last() =~= ps@.take(i as int));
        if ps[i] == p {
            c = c + 1;
        }
        i = i + 1;
    }
    assert(ps@.take(ps.len() as int) =~= ps@);
    c
}

/// Positions of `ps` grouped by the pages of `u` (a stable sort by page).
fn grouped_exec(ps: &Vec<i64>, u: &Vec<i64>) -> (g: Vec<usize>)
    ensures
        g@ == grouped(ps@, u@),
        forall|j: int| 0 <= j < g@.len() ==> (#[trigger] g@[j]) < ps@.len(),
{
    let mut g: Vec<usize> = Vec::new();
    let mut k: usize = 0;
    while k < u.len()
        invariant
            k <= u.len(),
            g@ == grouped(ps@, u@.take(k as int)),
            forall|j: int| 0 <= j < g@.len() ==> (#[trigger] g@[j]) < ps@.len(),
        decreases u.len() - k,
    {
        let p = u[k];
        let ghost base = g@;
        let mut i: usize = 0;
        while i < ps.len()
            invariant
                i <= ps.len(),
                g@ == base + positions_of(ps@, p, i as int),
                forall|j: int| 0 <= j < g@.len() ==> (#[trigger] g@[j]) < ps@.len(),
            decreases ps.len() - i,
        {
            if ps[i] == p {
                g.push(i);
                assert(base + positions_of(ps@, p, i + 1) =~= (base + positions_of(
                    ps@,
                    p,
                    i as int,
                )).push(i));
            }
            i = i + 1;
        }
        assert(u@.take(k + 1).drop_last() =~= u@.take(k as int));
        assert(u@.take(k + 1).last() == p);
        k = k + 1;
    }
    assert(u@.take(u.len() as int) =~= u@);
    g
}

/// The entries of `s` whose page lies in `lo..=hi`.
fn window_exec(ps: &Vec<i64>, s: &Vec<usize>, lo: i64, hi: i64) -> (w: Vec<usize>)
    requires
        forall|j: int| 0 <= j < s@.len() ==> (#[trigger] s@[j]) < ps@.len(),
    ensures
        w@ == window(ps@, s@, lo as int, hi as int),
        forall|m: int| 0 <= m < w@.len() ==> (#[trigger] w@[m]) < ps@.len(),
{
    let mut w: Vec<usize> = Vec::new();
    let mut j: usize = 0;
    while j < s.len()
        invariant
            j <= s.len(),
            forall|m: int| 0 <= m < s@.len() ==> (#[trigger] s@[m]) < ps@.len(),
            w@ == window(ps@, s@.take(j as int), lo as int, hi as int),
            forall|m: int| 0 <= m < w@.len() ==> (#[trigger] w@[m]) < ps@.len(),
        decreases s.len() - j,
    {
        let i = s[j];
        assert(s@.take(j + 1).drop_last() =~= s@.take(j as int));
        assert(s@.take(j + 1).last() == i);
        if lo <= ps[i] && ps[i] <= hi {
            w.push(i);
        }
        j = j + 1;
    }
    assert(s@.take(s.len() as int) =~= s@);
    w
}


/// A page chosen by `densest` lies in the window.
pub(crate) proof fn lemma_densest_in_window(ps: Seq<i64>, u: Seq<i64>, lo: int, hi: int, k: int)
    requires
        0 <= k <= u.len(),
    ensures
        match densest(ps, u, lo, hi, k) {
            Some((p, _)) => lo <= p <= hi && u.contains(p),
            None => true,
        },
    decreases k,
{
    if k > 0 {
        lemma_densest_in_window(ps, u, lo, hi, k - 1);
        assert(u[k - 1] == u[k - 1]);
    }
}

/// A page chosen by `first_above` lies above the target.
pub(crate) proof fn lemma_first_above(u: Seq<i64>, target: int, k: int)
    requires
        0 <= k <= u.len(),
    ensures
        match first_above(u, target, k) {
            Some(x) => x > target && u.contains(x),
            None => true,
        },
    decreases k,
{
    if k > 0 {
        lemma_first_above(u, target, k - 1);
        assert(u[k - 1] == u[k - 1]);
    }
}

/// Every page of a strictly ascending sequence lies between its ends.
pub(crate) proof fn lemma_between_ends(u: Seq<i64>, x: i64)
    requires
        strictly_ascending(u),
        u.contains(x),
    ensures
        u[0] <= x <= u.last(),
{
    let i = choose|i: int| 0 <= i < u.len() && u[i] == x;
    if i > 0 {
        assert(u[0] < u[i]);
    }
    if i < u.len() - 1 {
        assert(u[i] < u[u.len() - 1]);
    }
}


/// What chunking needs of its arguments: for items spanning more than two
/// pages, a boundary step above five pages (a smaller one can stall the
/// boundary search), and every page sum the chunker forms (the boundary
/// target and its window, each page moved by the overlap either way, and a
/// range's length) fits in `i64`.
pub open spec fn plan_fits(ps: Seq<i64>, chunk_size: int, overlap: int) -> bool {
    page_span(ps) > 2 ==> {
        let first = distinct_pages(ps)[0] as int;
        let last = distinct_pages(ps).last() as int;
        &&& 5 < chunk_size
        &&& last + chunk_size + 5 <= i64::MAX
        &&& i64::MIN <= first - overlap
        &&& last - overlap <= i64::MAX
        &&& i64::MIN <= first + overlap
        &&& last + overlap <= i64::MAX
        &&& last - first <= i64::MAX
        &&& last - first + overlap <= i64::MAX
    }
}

/// The boundary that follows `current_min`.
fn next_boundary_exec(ps: &Vec<i64>, u: &Vec<i64>, current_min: i64, chunk_size: i64) -> (b: i64)
    requires
        u.len() > 0,
        strictly_ascending(u@),
        forall|x: i64| u@.contains(x) <==> ps@.contains(x),
        u@[0] <= current_min < u@.last(),
        5 < chunk_size,
        u@.last() + chunk_size + 5 <= i64::MAX,
    ensures
        b as int == next_boundary(ps@, u@, current_min as int, chunk_size as int),
        current_min < b <= u@.last(),
{
    let first = u[0];
    let last = u[u.len() - 1];
    let target = current_min + chunk_size;
    let lo = if target - 5 > first {
        target - 5
    } else {
        first
    };
    let hi = if target + 5 < last {
        target + 5
    } else {
        last
    };
    let mut best: Option<i64> = None;
    let mut best_f: usize = 0;
    let mut k: usize = 0;
    while k < u.len()
        invariant
            k <= u.len(),
            match densest(ps@, u@, lo as int, hi as int, k as int) {
                None => best is None,
                Some((bp, bf)) => best == Some(bp) && best_f == bf,
            },
        decreases u.len() - k,
    {
        let p = u[k];
        if lo <= p && p <= hi {
            let f = count_page_exec(ps, p);
            match best {
                None => {
                    best = Some(p);
                    best_f = f;
                },
                Some(_) => {
                    if f > best_f {
                        best = Some(p);
                        best_f = f;
                    }
                },
            }
        }
        k = k + 1;
    }
    proof {
        lemma_densest_in_window(ps@, u@, lo as int, hi as int, u.len() as int);
    }
    match best {
        Some(p) => {
            p
        },
        None => {
            let mut j: usize = 0;
            let mut found: Option<i64> = None;
            while j < u.len()
                invariant
                    j <= u.len(),
                    found == first_above(u@, target as int, j as int),
                decreases u.len() - j,
            {
                if found.is_none() && u[j] > target {
                    found = Some(u[j]);
                }
                j = j + 1;
            }
            proof {
                lemma_first_above(u@, target as int, u.len() as int);
            }
            match found {
                Some(x) => {
                    proof {
                        lemma_between_ends(u@, x);
                    }
                    x
                },
                None => last,
            }
        },
    }
}


proof fn lemma_plan_prefix_lens(ps: Seq<i64>, u: Seq<i64>, bs: Seq<int>, overlap: int, k: int)
    ensures
        plan_prefix(ps, u, bs, overlap, k).0.len() == plan_prefix(ps, u, bs, overlap, k).1.len(),
    decreases k,
{
    if k > 0 {
        lemma_plan_prefix_lens(ps, u, bs, overlap, k - 1);
    }
}

/// The plan has one page range per chunk.
pub proof fn lemma_plan_lens(ps: Seq<i64>, chunk_size: int, overlap: int)
    ensures
        chunk_plan_spec(ps, chunk_size, overlap).0.len() == chunk_plan_spec(ps, chunk_size, overlap).1.len(),
{
    if ps.len() > 0 {
        let u = distinct_pages(ps);
        let bs = boundaries_from(ps, u, u[0] as int, chunk_size);
        lemma_plan_prefix_lens(ps, u, bs, overlap, bs.len() as int);
    }
}

/// A page range `[start, end]` (inclusive), parallel to each returned chunk.
pub type Range = [i64; 2];

/// Exec ranges agree with spec ranges.
pub open spec fn ranges_match(rs: Seq<Range>, spec: Seq<(int, int)>) -> bool {
    &&& rs.len() == spec.len()
    &&& forall|i: int| 0 <= i < rs.len() ==> (#[trigger] rs[i])[0] == spec[i].0 && rs[i][1] == spec[i].1
}

/// The chunk plan over item pages: page ranges and item positions per chunk.
pub fn chunk_plan(ps: &Vec<i64>, chunk_size: i64, overlap: i64) -> (r: (Vec<Range>, Vec<Vec<usize>>))
    requires
        plan_fits(ps@, chunk_size as int, overlap as int),
    ensures
        ranges_match(r.0@, chunk_plan_spec(ps@, chunk_size as int, overlap as int).0),
        r.1.deep_view() == chunk_plan_spec(ps@, chunk_size as int, overlap as int).1,
        forall|a: int, b: int|
            0 <= a < r.1.deep_view().len() && 0 <= b < r.1.deep_view()[a].len() ==> #[trigger] r.1.deep_view()[a][b]
                < ps@.len(),
{
    let mut ranges: Vec<Range> = Vec::new();
    let mut chunks: Vec<Vec<usize>> = Vec::new();
    if ps.len() == 0 {
        proof {
            assert(chunks.deep_view() =~= Seq::<Seq<usize>>::empty());
        }
        return (ranges, chunks);
    }
    let u = distinct_pages_exec(ps);
    proof {
        assert(ps@.contains(ps@[0]));
    }
    let first = u[0];
    let last = u[u.len() - 1];
    proof {
        assert(u@.contains(first) && u@.contains(last)) by {
            assert(u@[0] == first);
            assert(u@[u.len() - 1] == last);
        }
        if u.len() > 1 {
            assert(u@[0] < u@[u.len() - 1]);
        }
    }
    if (last as i128) - (first as i128) <= 2 {
        proof {
            assert(chunks.deep_view() =~= Seq::<Seq<usize>>::empty());
        }
        return (ranges, chunks);
    }
    let ghost full = boundaries_from(ps@, u@, first as int, chunk_size as int);
    let mut bs: Vec<i64> = Vec::new();
    let ghost mut bsg: Seq<int> = seq![];
    let mut cm = first;
    while cm < last
        invariant
            u@ == distinct_pages(ps@),
            u.len() > 0,
            strictly_ascending(u@),
            forall|x: i64| u@.contains(x) <==> ps@.contains(x),
            5 < chunk_size,
            last + chunk_size + 5 <= i64::MAX,
            first == u@[0],
            last == u@.last(),
            first <= cm <= last,
            full == boundaries_from(ps@, u@, first as int, chunk_size as int),
            full == bsg + boundaries_from(ps@, u@, cm as int, chunk_size as int),
            bs@.len() == bsg.len(),
            forall|i: int| 0 <= i < bsg.len() ==> (#[trigger] bs@[i]) as int == bsg[i],
            forall|i: int| 0 <= i < bsg.len() ==> first < #[trigger] bsg[i] <= last,
            bsg.len() > 0 ==> bsg.last() == cm,
        decreases last - cm,
    {
        let b = next_boundary_exec(ps, &u, cm, chunk_size);
        proof {
            assert(boundaries_from(ps@, u@, cm as int, chunk_size as int) == seq![b as int]
                + boundaries_from(ps@, u@, b as int, chunk_size as int));
            assert(bsg + (seq![b as int] + boundaries_from(ps@, u@, b as int, chunk_size as int))
                =~= bsg.push(b as int) + boundaries_from(ps@, u@, b as int, chunk_size as int));
            bsg = bsg.push(b as int);
        }
        bs.push(b);
        cm = b;
    }
    proof {
        assert(boundaries_from(ps@, u@, cm as int, chunk_size as int) =~= Seq::<int>::empty());
        assert(bsg + Seq::<int>::empty() =~= bsg);
    }
    let sorted = grouped_exec(ps, &u);
    let mut prev = first;
    let mut k: usize = 0;
    while k < bs.len()
        invariant
            k <= bs.len(),
            u@ == distinct_pages(ps@),
            u.len() > 0,
            first == u@[0],
            last == u@.last(),
            first <= last,
            i64::MIN <= first - overlap,
            last - overlap <= i64::MAX,
            i64::MIN <= first + overlap,
            last + overlap <= i64::MAX,
            last - first <= i64::MAX,
            last - first + overlap <= i64::MAX,
            bsg == full,
            bs@.len() == bsg.len(),
            forall|i: int| 0 <= i < bsg.len() ==> (#[trigger] bs@[i]) as int == bsg[i],
            forall|i: int| 0 <= i < bsg.len() ==> first < #[trigger] bsg[i] <= last,
            prev as int == if k == 0 {
                first as int
            } else {
                bsg[k - 1]
            },
            sorted@ == grouped(ps@, u@),
            forall|j: int| 0 <= j < sorted@.len() ==> (#[trigger] sorted@[j]) < ps@.len(),
            ranges_match(ranges@, plan_prefix(ps@, u@, bsg, overlap as int, k as int).0),
            chunks.deep_view() == plan_prefix(ps@, u@, bsg, overlap as int, k as int).1,
            forall|a: int, b: int|
                0 <= a < chunks.deep_view().len() && 0 <= b < chunks.deep_view()[a].len() ==> #[trigger] chunks.deep_view()[a][b]
                    < ps@.len(),
        decreases bs.len() - k,
    {
        let b = bs[k];
        assert(first < bsg[k as int] <= last);
        let c = window_exec(ps, &sorted, prev - overlap, b + overlap);
        if c.len() > 0 {
            let start = if prev == first {
                prev
            } else {
                prev - overlap
            };
            let end = if last < b + overlap {
                last
            } else {
                b + overlap
            };
            let ghost old_chunks = chunks.deep_view();
            let ghost old_v = chunks@;
            ranges.push([start, end]);
            chunks.push(c);
            proof {
                assert forall|m: int| 0 <= m < chunks.deep_view().len() implies chunks.deep_view()[m]
                    == old_chunks.push(c@)[m] by {
                    if m < old_v.len() {
                        assert(chunks@[m] == old_v[m]);
                    }
                }
                assert(chunks.deep_view() =~= old_chunks.push(c@));
            }
        }
        prev = b;
        k = k + 1;
    }
    let c = window_exec(ps, &sorted, prev - overlap, last);
    let start = if prev == first {
        prev
    } else {
        prev - overlap
    };
    proof {
        assert(bsg.len() > 0 ==> bsg.last() == bsg[bsg.len() - 1]);
    }
    if c.len() > 0 && last - start > 2 {
        let ghost old_chunks = chunks.deep_view();
        let ghost old_v = chunks@;
        ranges.push([start, last]);
        chunks.push(c);
        proof {
            assert forall|m: int| 0 <= m < chunks.deep_view().len() implies chunks.deep_view()[m]
                == old_chunks.push(c@)[m] by {
                if m < old_v.len() {
                    assert(chunks@[m] == old_v[m]);
                }
            }
            assert(chunks.deep_view() =~= old_chunks.push(c@));
        }
    }
    (ranges, chunks)
}

/// Split `items` into `(ranges, chunks)`: chunk `k` holds clones of the items
/// at the positions `chunk_plan_spec` lists for it, and `ranges[k]` is its
/// page range. Empty input, and items spanning at most two pages, yield
/// empty outputs.
pub fn adaptive_chunk<T: Paged + Clone>(items: &[T], chunk_size: i64, overlap: i64) -> (r: (
    Vec<Range>,
    Vec<Vec<T>>,
))
    requires
        plan_fits(items@.map_values(|x: T| x.page_spec()), chunk_size as int, overlap as int),
    ensures
        ranges_match(
            r.0@,
            chunk_plan_spec(items@.map_values(|x: T| x.page_spec()), chunk_size as int, overlap as int).0,
        ),
        ({
            let plan = chunk_plan_spec(
                items@.map_values(|x: T| x.page_spec()),
                chunk_size as int,
                overlap as int,
            ).1;
            &&& r.1@.len() == plan.len()
            &&& forall|k: int|
                0 <= k < plan.len() ==> (#[trigger] r.1@[k])@.len() == plan[k].len() && forall|
                    m: int,
                |
                    0 <= m < plan[k].len() ==> cloned::<T>(
                        items@[plan[k][m] as int],
                        #[trigger] r.1@[k]@[m],
                    )
        }),
{
    let mut ps: Vec<i64> = Vec::new();
    let mut i: usize = 0;
    while i < items.len()
        invariant
            i <= items@.len(),
            ps@ == items@.take(i as int).map_values(|x: T| x.page_spec()),
        decreases items.len() - i,
    {
        let p = items[i].page();
        ps.push(p);
        assert(items@.take(i + 1).map_values(|x: T| x.page_spec()) =~= items@.take(
            i as int,
        ).map_values(|x: T| x.page_spec()).push(p));
        i = i + 1;
    }
    assert(items@.take(items.len() as int) =~= items@);
    let (ranges, plan) = chunk_plan(&ps, chunk_size, overlap);
    let mut chunks: Vec<Vec<T>> = Vec::new();
    let mut k: usize = 0;
    while k < plan.len()
        invariant
            k <= plan.len(),
            ps@.len() == items@.len(),
            forall|a: int, b: int|
                0 <= a < plan.deep_view().len() && 0 <= b < plan.deep_view()[a].len() ==> #[trigger] plan.deep_view()[a][b]
                    < ps@.len(),
            chunks@.len() == k,
            forall|a: int|
                0 <= a < k ==> (#[trigger] chunks@[a])@.len() == plan.deep_view()[a].len() && forall|
                    b: int,
                |
                    0 <= b < plan.deep_view()[a].len() ==> cloned::<T>(
                        items@[plan.deep_view()[a][b] as int],
                        #[trigger] chunks@[a]@[b],
                    ),
        decreases plan.len() - k,
    {
        let mut chunk: Vec<T> = Vec::new();
        let mut m: usize = 0;
        assert(plan.deep_view()[k as int] == plan@[k as int]@);
        while m < plan[k].len()
            invariant
                m <= plan@[k as int]@.len(),
                k < plan@.len(),
                plan.deep_view()[k as int] == plan@[k as int]@,
                ps@.len() == items@.len(),
                forall|b: int| 0 <= b < plan.deep_view()[k as int].len() ==> #[trigger] plan.deep_view()[k as int][b] < ps@.len(),
                chunk@.len() == m,
                forall|b: int|
                    0 <= b < m ==> cloned::<T>(
                        items@[plan.deep_view()[k as int][b] as int],
                        #[trigger] chunk@[b],
                    ),
            decreases plan@[k as int]@.len() - m,
        {
            let idx = plan[k][m];
            assert(plan.deep_view()[k as int][m as int] == idx);
            let item = items[idx].clone();
            chunk.push(item);
            m = m + 1;
        }
        chunks.push(chunk);
        k = k + 1;
    }
    (ranges, chunks)
}

} // verus!
