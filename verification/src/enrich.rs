//! Tree enrichment: the final pass over a document tree. Every node gains a
//! `subnode` slot; visual nodes move their children into it, and long text
//! nodes are chunked into `sub_text` pieces of about 500 characters.

use vstd::prelude::*;
use crate::chars::{to_chars, from_chars, append_chars, push_str, u64_to_chars, decimal_nat};
use crate::pattern::{regex_split, regex_split_of};
use crate::tree::{Component, CompView, Location, LocView, locs_view, trees, visual_type, copy_ids, copy_locations};
use crate::truncation::str_is;

verus! {

/// The marker pattern that separates text blocks inside a text node.
pub const MARKER_PATTERN: &'static str = "<\\|txt_split\\|>|<\\|txt_contd\\|>";

/// The abstract value of a split node.
pub ghost struct SplitView {
    pub cp_type: Seq<char>,
    pub title: Seq<char>,
    pub metadata: Seq<char>,
    pub content: Seq<char>,
    pub level: i64,
    pub location: Seq<LocView>,
    pub block_ids: Seq<i64>,
    pub children: Seq<SplitView>,
    pub subnode: Option<Seq<SplitView>>,
}

/// A tree node after enrichment.
#[derive(Debug)]
pub struct SplitNode {
    /// Node type.
    pub cp_type: String,
    /// Title.
    pub title: String,
    /// Metadata.
    pub metadata: String,
    /// Content.
    pub content: String,
    /// Level.
    pub level: i64,
    /// Source locations.
    pub location: Vec<Location>,
    /// Source block ids.
    pub block_ids: Vec<i64>,
    /// Child nodes.
    pub children: Vec<SplitNode>,
    /// The `subnode` slot (absent on generated `sub_text` nodes).
    pub subnode: Option<Vec<SplitNode>>,
}

impl SplitNode {
    /// The abstract value of this node and its subtree.
    pub open spec fn split_view(self) -> SplitView
        decreases self,
    {
        SplitView {
            cp_type: self.cp_type@,
            title: self.title@,
            metadata: self.metadata@,
            content: self.content@,
            level: self.level,
            location: locs_view(self.location@),
            block_ids: self.block_ids@,
            children: Seq::new(
                self.children@.len(),
                |i: int|
                    if 0 <= i < self.children@.len() {
                        self.children@[i].split_view()
                    } else {
                        arbitrary()
                    },
            ),
            subnode: match self.subnode {
                Some(v) => Some(
                    Seq::new(
                        v@.len(),
                        |i: int|
                            if 0 <= i < v@.len() {
                                v@[i].split_view()
                            } else {
                                arbitrary()
                            },
                    ),
                ),
                None => None,
            },
        }
    }
}

/// The abstract values of a sequence of split nodes.
pub open spec fn split_views(v: Seq<SplitNode>) -> Seq<SplitView> {
    v.map_values(|n: SplitNode| n.split_view())
}

/// The chunking state: finished chunks (content and 1-based segment
/// numbers), the open chunk, its segment numbers and its length.
pub open spec fn chunk_step(
    st: (Seq<(Seq<char>, Seq<int>)>, Seq<char>, Seq<int>, int),
    seg: Seq<char>,
    number: int,
) -> (Seq<(Seq<char>, Seq<int>)>, Seq<char>, Seq<int>, int) {
    let content = st.1 + seg;
    let idx = st.2.push(number);
    let len = st.3 + seg.len();
    if len > 500 {
        (st.0.push((content, idx)), seq![], seq![], 0)
    } else {
        (st.0, content, idx, len)
    }
}

/// The chunking over the first `k` segments.
pub open spec fn chunk_fold(segs: Seq<Seq<char>>, k: int) -> (
    Seq<(Seq<char>, Seq<int>)>,
    Seq<char>,
    Seq<int>,
    int,
)
    decreases k,
{
    if k <= 0 {
        (seq![], seq![], seq![], 0)
    } else {
        chunk_step(chunk_fold(segs, k - 1), segs[k - 1], k)
    }
}

/// The chunks of a sequence of non-empty segments: segments are gathered
/// until their length passes 500 characters.
pub open spec fn chunks_of(segs: Seq<Seq<char>>) -> Seq<(Seq<char>, Seq<int>)> {
    let st = chunk_fold(segs, segs.len() as int);
    if st.1.len() > 0 { st.0.push((st.1, st.2)) } else { st.0 }
}

/// The positions in the node's location and block-id lists that a chunk
/// covers: under the default title the segment numbers shifted down by one,
/// otherwise the title's own entry first.
pub open spec fn chunk_indices(title: Seq<char>, idx: Seq<int>) -> Seq<int> {
    if title == "Default Title"@ {
        Seq::new(idx.len(), |k: int| idx[k] - 1)
    } else if !idx.contains(0) {
        seq![0int] + idx
    } else {
        idx
    }
}

/// Whether every index is valid for both lists.
pub open spec fn indices_in_range(ix: Seq<int>, nloc: int, nids: int) -> bool {
    forall|k: int| 0 <= k < ix.len() ==> 0 <= #[trigger] ix[k] < nloc && ix[k] < nids
}

/// The `sub_text` node of chunk number `i` (0-based).
pub open spec fn sub_text(
    title: Seq<char>,
    i: int,
    content: Seq<char>,
    ix: Seq<int>,
    location: Seq<LocView>,
    block_ids: Seq<i64>,
) -> SplitView {
    SplitView {
        cp_type: "sub_text"@,
        title: title + "_"@ + decimal_nat((i + 1) as nat),
        metadata: seq![],
        content: content,
        level: 1,
        location: Seq::new(ix.len(), |k: int| location[ix[k]]),
        block_ids: Seq::new(ix.len(), |k: int| block_ids[ix[k]]),
        children: seq![],
        subnode: None,
    }
}

/// The `sub_text` nodes of the first `k` chunks; a chunk whose positions
/// fall outside the lists is skipped.
pub open spec fn subnodes_upto(
    chunks: Seq<(Seq<char>, Seq<int>)>,
    title: Seq<char>,
    location: Seq<LocView>,
    block_ids: Seq<i64>,
    k: int,
) -> Seq<SplitView>
    decreases k,
{
    if k <= 0 {
        seq![]
    } else {
        let prev = subnodes_upto(chunks, title, location, block_ids, k - 1);
        let ix = chunk_indices(title, chunks[k - 1].1);
        if indices_in_range(ix, location.len() as int, block_ids.len() as int) {
            prev.push(sub_text(title, k - 1, chunks[k - 1].0, ix, location, block_ids))
        } else {
            prev
        }
    }
}

/// The non-empty pieces, in order.
pub open spec fn non_empty(pieces: Seq<Seq<char>>) -> Seq<Seq<char>>
    decreases pieces.len(),
{
    if pieces.len() == 0 {
        seq![]
    } else if pieces.last().len() > 0 {
        non_empty(pieces.drop_last()).push(pieces.last())
    } else {
        non_empty(pieces.drop_last())
    }
}

/// The `sub_text` nodes of a text node split into the given pieces: none
/// unless there are at least two chunks.
pub open spec fn subnodes_spec(
    pieces: Seq<Seq<char>>,
    title: Seq<char>,
    location: Seq<LocView>,
    block_ids: Seq<i64>,
) -> Seq<SplitView> {
    let chunks = chunks_of(non_empty(pieces));
    if chunks.len() <= 1 {
        seq![]
    } else {
        subnodes_upto(chunks, title, location, block_ids, chunks.len() as int)
    }
}

/// The `sub_text` nodes of a long text node: its content split at the
/// block markers (none when the marker pattern is refused).
pub open spec fn text_subnodes(t: CompView) -> Seq<SplitView> {
    match regex_split_of(MARKER_PATTERN@, t.content) {
        Some(pieces) => subnodes_spec(pieces, t.title, t.location, t.block_ids),
        None => seq![],
    }
}

/// The enriched tree: visual nodes with children move them to `subnode`,
/// text nodes over 500 characters get `sub_text` subnodes, all other nodes
/// an empty `subnode`; the pass continues into `subnode` for visuals and
/// into `children` otherwise.
pub open spec fn split_spec(t: CompView) -> SplitView
    decreases t,
{
    let kids = Seq::new(
        t.children.len(),
        |i: int|
            if 0 <= i < t.children.len() {
                split_spec(t.children[i])
            } else {
                arbitrary()
            },
    );
    if visual_type(t.cp_type) && t.children.len() > 0 {
        SplitView {
            cp_type: t.cp_type,
            title: t.title,
            metadata: t.metadata,
            content: t.content,
            level: t.level,
            location: t.location,
            block_ids: t.block_ids,
            children: seq![],
            subnode: Some(kids),
        }
    } else {
        SplitView {
            cp_type: t.cp_type,
            title: t.title,
            metadata: t.metadata,
            content: t.content,
            level: t.level,
            location: t.location,
            block_ids: t.block_ids,
            children: kids,
            subnode: Some(
                if t.cp_type == "text"@ && t.content.len() > 500 {
                    text_subnodes(t)
                } else {
                    seq![]
                },
            ),
        }
    }
}


fn copy_location(l: &Location) -> (r: Location)
    ensures
        r@ == l@,
{
    Location { bbox: copy_ids(&l.bbox), page: l.page }
}

/// Chunk contents and segment numbers agree with the abstract chunks.
pub open spec fn chunks_match(
    contents: Seq<Vec<char>>,
    numbers: Seq<Vec<usize>>,
    chunks: Seq<(Seq<char>, Seq<int>)>,
) -> bool {
    &&& contents.len() == chunks.len()
    &&& numbers.len() == chunks.len()
    &&& forall|k: int|
        0 <= k < chunks.len() ==> (#[trigger] contents[k])@ == chunks[k].0 && numbers[k]@.map_values(
            |x: usize| x as int,
        ) == chunks[k].1
}

fn sub_text_node(
    title: &String,
    i: usize,
    content: &Vec<char>,
    ix: &Vec<usize>,
    location: &Vec<Location>,
    block_ids: &Vec<i64>,
) -> (r: SplitNode)
    requires
        i < usize::MAX,
        forall|k: int| 0 <= k < ix@.len() ==> #[trigger] ix@[k] < location@.len() && ix@[k] < block_ids@.len(),
    ensures
        r.split_view() == sub_text(
            title@,
            i as int,
            content@,
            ix@.map_values(|x: usize| x as int),
            locs_view(location@),
            block_ids@,
        ),
{
    let ghost ixv = ix@.map_values(|x: usize| x as int);
    let mut locs: Vec<Location> = Vec::new();
    let mut ids: Vec<i64> = Vec::new();
    let mut k: usize = 0;
    while k < ix.len()
        invariant
            k <= ix@.len(),
            forall|q: int| 0 <= q < ix@.len() ==> #[trigger] ix@[q] < location@.len() && ix@[q] < block_ids@.len(),
            ixv == ix@.map_values(|x: usize| x as int),
            locs_view(locs@) == Seq::new(k as nat, |q: int| locs_view(location@)[ixv[q]]),
            ids@ == Seq::new(k as nat, |q: int| block_ids@[ixv[q]]),
        decreases ix@.len() - k,
    {
        let x = ix[k];
        let l = copy_location(&location[x]);
        let ghost lb = locs@;
        assert(ixv[k as int] == x as int);
        assert(locs_view(location@)[x as int] == location@[x as int]@);
        locs.push(l);
        assert(locs_view(locs@) =~= locs_view(lb).push(l@));
        assert(locs_view(locs@) =~= Seq::new((k + 1) as nat, |q: int| locs_view(location@)[ixv[q]]));
        ids.push(block_ids[x]);
        assert(ids@ =~= Seq::new((k + 1) as nat, |q: int| block_ids@[ixv[q]]));
        k = k + 1;
    }
    let mut t = to_chars(title.as_str());
    push_str(&mut t, "_");
    let digits = u64_to_chars((i + 1) as u64);
    append_chars(&mut t, &digits);
    let r = SplitNode {
        cp_type: String::from_str("sub_text"),
        title: from_chars(t.as_slice()),
        metadata: String::new(),
        content: from_chars(content.as_slice()),
        level: 1,
        location: locs,
        block_ids: ids,
        children: Vec::new(),
        subnode: None,
    };
    proof {
        let want = sub_text(title@, i as int, content@, ixv, locs_view(location@), block_ids@);
        assert(r.split_view().children =~= want.children);
        assert(r.split_view().location =~= want.location);
        assert(r.split_view().block_ids =~= want.block_ids);
        assert(r.split_view().title =~= want.title);
        assert(r.split_view().metadata =~= want.metadata);
        assert(r.split_view() == want);
    }
    r
}

/// The `sub_text` nodes of a text node whose content was split into
/// `pieces` at the block markers.
pub fn subnodes_from_pieces(
    pieces: &Vec<String>,
    title: &String,
    location: &Vec<Location>,
    block_ids: &Vec<i64>,
) -> (r: Vec<SplitNode>)
    ensures
        split_views(r@) == subnodes_spec(
            pieces@.map_values(|p: String| p@),
            title@,
            locs_view(location@),
            block_ids@,
        ),
{
    let ghost pv = pieces@.map_values(|p: String| p@);
    // The non-empty segments.
    let mut segs: Vec<Vec<char>> = Vec::new();
    let mut i: usize = 0;
    while i < pieces.len()
        invariant
            i <= pieces@.len(),
            pv == pieces@.map_values(|p: String| p@),
            segs.deep_view() == non_empty(pv.take(i as int)),
        decreases pieces@.len() - i,
    {
        let c = to_chars(pieces[i].as_str());
        assert(pv.take(i + 1).drop_last() =~= pv.take(i as int));
        if c.len() > 0 {
            let ghost before = segs.deep_view();
            assert(c.deep_view() =~= c@);
            segs.push(c);
            assert(segs.deep_view() =~= before.push(pv[i as int]));
        }
        i = i + 1;
    }
    assert(pv.take(i as int) =~= pv);
    let ghost sv = segs.deep_view();
    // Gather the segments into chunks.
    let mut contents: Vec<Vec<char>> = Vec::new();
    let mut numbers: Vec<Vec<usize>> = Vec::new();
    let mut cur: Vec<char> = Vec::new();
    let mut cur_idx: Vec<usize> = Vec::new();
    let mut cur_len: usize = 0;
    let mut k: usize = 0;
    while k < segs.len()
        invariant
            k <= segs@.len(),
            sv == segs.deep_view(),
            cur_len <= 500,
            chunks_match(contents@, numbers@, chunk_fold(sv, k as int).0),
            cur@ == chunk_fold(sv, k as int).1,
            cur_idx@.map_values(|x: usize| x as int) == chunk_fold(sv, k as int).2,
            cur_len == chunk_fold(sv, k as int).3,
        decreases segs@.len() - k,
    {
        let seg = &segs[k];
        assert(sv[k as int] == seg@);
        let ghost st = chunk_fold(sv, k as int);
        append_chars(&mut cur, seg);
        let ghost ib = cur_idx@;
        cur_idx.push(k + 1);
        assert(cur_idx@.map_values(|x: usize| x as int) =~= ib.map_values(|x: usize| x as int).push(k + 1));
        if seg.len() > 500 - cur_len {
            let ghost cb = contents@;
            let ghost nb = numbers@;
            let ghost fresh = chunk_step(st, sv[k as int], k + 1);
            contents.push(cur);
            numbers.push(cur_idx);
            assert(chunks_match(contents@, numbers@, fresh.0)) by {
                assert forall|q: int| 0 <= q < fresh.0.len() implies (#[trigger] contents@[q])@ == fresh.0[q].0
                    && numbers@[q]@.map_values(|x: usize| x as int) == fresh.0[q].1 by {
                    if q < cb.len() {
                        assert(contents@[q] == cb[q]);
                        assert(numbers@[q] == nb[q]);
                    }
                }
            }
            cur = Vec::new();
            cur_idx = Vec::new();
            cur_len = 0;
            assert(cur_idx@.map_values(|x: usize| x as int) =~= Seq::<int>::empty());
        } else {
            cur_len = cur_len + seg.len();
        }
        k = k + 1;
    }
    let ghost fin = chunk_fold(sv, sv.len() as int);
    if cur.len() > 0 {
        let ghost cb = contents@;
        let ghost nb = numbers@;
        contents.push(cur);
        numbers.push(cur_idx);
        assert(chunks_match(contents@, numbers@, fin.0.push((fin.1, fin.2)))) by {
            assert forall|q: int| 0 <= q < fin.0.len() + 1 implies (#[trigger] contents@[q])@ == fin.0.push((fin.1, fin.2))[q].0
                && numbers@[q]@.map_values(|x: usize| x as int) == fin.0.push((fin.1, fin.2))[q].1 by {
                if q < cb.len() {
                    assert(contents@[q] == cb[q]);
                    assert(numbers@[q] == nb[q]);
                }
            }
        }
    }
    let ghost chunks = chunks_of(sv);
    assert(chunks_match(contents@, numbers@, chunks));
    let mut out: Vec<SplitNode> = Vec::new();
    if contents.len() <= 1 {
        assert(split_views(out@) =~= Seq::<SplitView>::empty());
        return out;
    }
    let default_title = str_is(title, "Default Title");
    let mut c: usize = 0;
    while c < contents.len()
        invariant
            c <= contents@.len(),
            contents@.len() > 1,
            chunks_match(contents@, numbers@, chunks),
            default_title == (title@ == "Default Title"@),
            split_views(out@) == subnodes_upto(chunks, title@, locs_view(location@), block_ids@, c as int),
        decreases contents@.len() - c,
    {
        let nums = &numbers[c];
        let ghost nv = nums@.map_values(|x: usize| x as int);
        assert(contents@[c as int]@ == chunks[c as int].0);
        assert(nv == chunks[c as int].1);
        let mut has_zero = false;
        let mut q: usize = 0;
        while q < nums.len()
            invariant
                q <= nums@.len(),
                nv == nums@.map_values(|x: usize| x as int),
                has_zero == (exists|m: int| 0 <= m < q && nums@[m] == 0),
            decreases nums@.len() - q,
        {
            if nums[q] == 0 {
                has_zero = true;
            }
            q = q + 1;
        }
        assert(has_zero == nv.contains(0)) by {
            if has_zero {
                let m = choose|m: int| 0 <= m < q && nums@[m] == 0;
                assert(nv[m] == 0);
            }
            if nv.contains(0) {
                let m = choose|m: int| 0 <= m < nv.len() && nv[m] == 0;
                assert(nums@[m] == 0);
            }
        }
        let mut ix: Vec<usize> = Vec::new();
        let mut ok = true;
        if default_title {
            let mut q: usize = 0;
            while q < nums.len()
                invariant
                    q <= nums@.len(),
                    nv == nums@.map_values(|x: usize| x as int),
                    ok ==> ix@.map_values(|x: usize| x as int) == Seq::new(q as nat, |m: int| nv[m] - 1),
                    !ok ==> exists|m: int| 0 <= m < q && nv[m] - 1 < 0,
                decreases nums@.len() - q,
            {
                assert(nv[q as int] == nums@[q as int] as int);
                if nums[q] == 0 {
                    ok = false;
                } else if ok {
                    let ghost ib = ix@;
                    ix.push(nums[q] - 1);
                    assert(ix@.map_values(|x: usize| x as int) =~= ib.map_values(|x: usize| x as int).push(nv[q as int] - 1));
                    assert(ix@.map_values(|x: usize| x as int) =~= Seq::new((q + 1) as nat, |m: int| nv[m] - 1));
                }
                q = q + 1;
            }
        } else {
            if !has_zero {
                ix.push(0);
            }
            let ghost base = ix@.map_values(|x: usize| x as int);
            let mut q: usize = 0;
            while q < nums.len()
                invariant
                    q <= nums@.len(),
                    nv == nums@.map_values(|x: usize| x as int),
                    ix@.map_values(|x: usize| x as int) == base + nv.take(q as int),
                decreases nums@.len() - q,
            {
                let ghost ib = ix@;
                assert(nv[q as int] == nums@[q as int] as int);
                ix.push(nums[q]);
                assert(ix@.map_values(|x: usize| x as int) =~= ib.map_values(|x: usize| x as int).push(nv[q as int]));
                assert(nv.take(q + 1) =~= nv.take(q as int).push(nv[q as int]));
                assert(ix@.map_values(|x: usize| x as int) =~= base + nv.take(q + 1));
                q = q + 1;
            }
            assert(nv.take(q as int) =~= nv);
            assert(base + nv =~= chunk_indices(title@, nv)) by {
                if has_zero {
                    assert(base =~= Seq::<int>::empty());
                } else {
                    assert(base =~= seq![0int]);
                }
            }
        }
        let ghost ixv = chunk_indices(title@, nv);
        // An index outside the lists drops the chunk.
        let mut in_range = ok;
        let mut q: usize = 0;
        while q < ix.len() && in_range
            invariant
                q <= ix@.len(),
                in_range ==> ok,
                in_range ==> forall|m: int| 0 <= m < q ==> #[trigger] ix@[m] < location@.len() && ix@[m] < block_ids@.len(),
                !in_range && ok ==> exists|m: int| 0 <= m < ix@.len() && !(#[trigger] ix@[m] < location@.len() && ix@[m] < block_ids@.len()),
            decreases ix@.len() - q + (if in_range { 1int } else { 0int }),
        {
            if ix[q] >= location.len() || ix[q] >= block_ids.len() {
                in_range = false;
            } else {
                q = q + 1;
            }
        }
        proof {
            if ok {
                assert(ix@.map_values(|x: usize| x as int) =~= ixv);
            }
            if in_range {
                assert(indices_in_range(ixv, locs_view(location@).len() as int, block_ids@.len() as int));
            } else if ok {
                let m = choose|m: int| 0 <= m < ix@.len() && !(#[trigger] ix@[m] < location@.len() && ix@[m] < block_ids@.len());
                assert(ixv[m] == ix@[m] as int);
                assert(!indices_in_range(ixv, locs_view(location@).len() as int, block_ids@.len() as int));
            } else {
                let m = choose|m: int| 0 <= m < nv.len() && nv[m] - 1 < 0;
                assert(ixv[m] < 0);
                assert(!indices_in_range(ixv, locs_view(location@).len() as int, block_ids@.len() as int));
            }
        }
        if in_range {
            let node = sub_text_node(title, c, &contents[c], &ix, location, block_ids);
            let ghost ob = split_views(out@);
            let ghost nview = node.split_view();
            out.push(node);
            assert(split_views(out@) =~= ob.push(nview));
        }
        c = c + 1;
    }
    out
}


/// The `sub_text` nodes of a long text node (none when the content splits
/// into fewer than two chunks).
pub fn build_text_subnodes(
    content: &String,
    title: &String,
    location: &Vec<Location>,
    block_ids: &Vec<i64>,
) -> (r: Vec<SplitNode>)
    ensures
        split_views(r@) == match regex_split_of(MARKER_PATTERN@, content@) {
            Some(pieces) => subnodes_spec(pieces, title@, locs_view(location@), block_ids@),
            None => seq![],
        },
{
    match regex_split(MARKER_PATTERN, content.as_str()) {
        Some(pieces) => subnodes_from_pieces(&pieces, title, location, block_ids),
        None => {
            let out: Vec<SplitNode> = Vec::new();
            assert(split_views(out@) =~= Seq::<SplitView>::empty());
            out
        },
    }
}

fn split_all(kids: Vec<Component>, Ghost(parent): Ghost<CompView>) -> (r: Vec<SplitNode>)
    requires
        forall|i: int| 0 <= i < kids@.len() ==> decreases_to!(parent => #[trigger] kids@[i].tree()),
    ensures
        split_views(r@).len() == kids@.len(),
        forall|i: int| 0 <= i < kids@.len() ==> #[trigger] split_views(r@)[i] == split_spec(kids@[i].tree()),
    decreases parent, 1int,
{
    let ghost orig = kids@;
    let ghost n = orig.len();
    let len0 = kids.len();
    assert(n == len0);
    let mut rest = kids;
    let mut out: Vec<SplitNode> = Vec::new();
    let mut k: usize = 0;
    while rest.len() > 0
        invariant
            k + rest@.len() == n,
            n == orig.len(),
            n <= usize::MAX,
            rest@ == orig.skip(k as int),
            forall|i: int| 0 <= i < orig.len() ==> decreases_to!(parent => #[trigger] orig[i].tree()),
            split_views(out@) == Seq::new(k as nat, |i: int| split_spec(orig[i].tree())),
        decreases rest@.len(),
    {
        let ghost r0 = rest@;
        let c = rest.remove(0);
        assert(c == orig[k as int]);
        assert(rest@ =~= orig.skip(k + 1));
        assert(decreases_to!(parent => orig[k as int].tree()));
        let s = split_node(c, Ghost(parent));
        let ghost ob = split_views(out@);
        let ghost sv = s.split_view();
        out.push(s);
        assert(split_views(out@) =~= ob.push(sv));
        assert(split_views(out@) =~= Seq::new((k + 1) as nat, |i: int| split_spec(orig[i].tree())));
        k = k + 1;
    }
    out
}

fn split_node(node: Component, Ghost(parent): Ghost<CompView>) -> (r: SplitNode)
    requires
        decreases_to!(parent => node.tree()),
    ensures
        r.split_view() == split_spec(node.tree()),
    decreases parent, 0int,
{
    let ghost t = node.tree();
    let is_visual = crate::tree::is_visual_type_pub(&node.cp_type);
    let long_text = str_is(&node.cp_type, "text") && to_chars(node.content.as_str()).len() > 500;
    let Component { cp_type, title, metadata, content, level, location, block_ids, children } = node;
    let ghost kids_t = Seq::new(children@.len(), |i: int| split_spec(children@[i].tree()));
    assert forall|i: int| 0 <= i < children@.len() implies decreases_to!(t => #[trigger] children@[i].tree()) by {
        assert(t.children[i] == children@[i].tree());
        assert(decreases_to!(t => t.children));
        assert(decreases_to!(t.children => t.children[i]));
    }
    let ghost kids0 = children@;
    assert(t.children.len() == kids0.len());
    assert forall|i: int| 0 <= i < kids0.len() implies #[trigger] t.children[i] == kids0[i].tree() by {}
    if is_visual && children.len() > 0 {
        let subs = split_all(children, Ghost(t));
        assert forall|i: int| 0 <= i < subs@.len() implies #[trigger] subs@[i].split_view() == split_spec(t.children[i]) by {
            assert(split_views(subs@)[i] == subs@[i].split_view());
            assert(split_views(subs@)[i] == split_spec(kids0[i].tree()));
        }
        let r = SplitNode {
            cp_type,
            title,
            metadata,
            content,
            level,
            location,
            block_ids,
            children: Vec::new(),
            subnode: Some(subs),
        };
        proof {
            let want = split_spec(t);
            let sv = r.split_view();
            let ws = want.subnode->0;
            assert(ws.len() == t.children.len());
            assert(sv.subnode->0.len() == subs@.len());
            assert forall|i: int| 0 <= i < ws.len() implies sv.subnode->0[i] == ws[i] by {
                assert(sv.subnode->0[i] == subs@[i].split_view());
                assert(ws[i] == split_spec(t.children[i]));
            }
            assert(sv.children =~= want.children);
            assert(sv.subnode->0 =~= ws);
            assert(sv == want);
        }
        r
    } else {
        let subs = if long_text {
            build_text_subnodes(&content, &title, &location, &block_ids)
        } else {
            Vec::new()
        };
        let ghost subs_v = split_views(subs@);
        let kids = split_all(children, Ghost(t));
        assert forall|i: int| 0 <= i < kids@.len() implies #[trigger] kids@[i].split_view() == split_spec(t.children[i]) by {
            assert(split_views(kids@)[i] == kids@[i].split_view());
            assert(split_views(kids@)[i] == split_spec(kids0[i].tree()));
        }
        let r = SplitNode {
            cp_type,
            title,
            metadata,
            content,
            level,
            location,
            block_ids,
            children: kids,
            subnode: Some(subs),
        };
        proof {
            let want = split_spec(t);
            let sv = r.split_view();
            let wc = want.children;
            assert(wc.len() == t.children.len());
            assert(sv.children.len() == kids@.len());
            assert forall|i: int| 0 <= i < wc.len() implies sv.children[i] == wc[i] by {
                assert(sv.children[i] == kids@[i].split_view());
                assert(wc[i] == split_spec(t.children[i]));
            }
            assert(sv.children =~= wc);
            assert(sv.subnode->0 =~= subs_v);
            assert(t.location == locs_view(location@));
            if long_text {
                assert(subs_v == text_subnodes(t));
            } else {
                assert(subs_v =~= Seq::<SplitView>::empty());
            }
            assert(sv.subnode == want.subnode);
            assert(sv == want);
        }
        r
    }
}

/// Enriches a tree: every node gains a `subnode` slot, visual nodes with
/// children move them into it, and text nodes over 500 characters are
/// chunked into `sub_text` subnodes.
pub fn split_subnode(node: Component) -> (r: SplitNode)
    ensures
        r.split_view() == split_spec(node.tree()),
{
    let ghost t = node.tree();
    let ghost top = CompView { children: seq![t], ..t };
    assert(decreases_to!(top => top.children));
    assert(decreases_to!(top.children => top.children[0]));
    split_node(node, Ghost(top))
}

/// Enriches a whole tree and returns it.
pub fn split_tree(tree: Component) -> (r: SplitNode)
    ensures
        r.split_view() == split_spec(tree.tree()),
{
    split_subnode(tree)
}

} // verus!
