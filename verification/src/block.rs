//! The working block carried through the inference stage: the page block
//! plus the outputs the four subtasks fill in.

use vstd::prelude::*;
use crate::chars;
use crate::chars::{to_chars, parse_i64, push_str, from_chars};
use crate::pyliteral::PyValue;

verus! {

/// One document block during inference.
#[derive(Debug, Clone)]
pub struct WorkBlock {
    /// 1-based id, sequential across the whole document.
    pub id: i64,
    /// 1-based page number.
    pub page: i64,
    /// Block type (`text`, `list_item`, `title`, `equation`, `image`, ...).
    pub kind: String,
    /// Block text content.
    pub content: String,
    /// Bounding box `x0, y0, x1, y1` in millionths of the page (`0..=1_000_000`).
    pub bbox: [i64; 4],
    /// Text-continuation link: 1-based id of the continuation, or `-1`.
    pub contd: i64,
    /// Title level, or `-1`.
    pub level: i64,
    /// Image-text association: 1-based id of the linked block, or `-1`.
    pub image: i64,
    /// Cross-page table-merge partner id, or `None`.
    pub table_merge: Option<i64>,
    /// Cell list the model returned for a table merge.
    pub cell_list: Option<PyValue>,
}

/// A block as the page input holds it: fields may be missing.
#[derive(Debug, Clone)]
pub struct RawBlock {
    /// The `type` field, when it is a string.
    pub kind: Option<String>,
    /// The `content` field, when it is a string.
    pub content: Option<String>,
    /// The bounding box in millionths, missing coordinates as 0.
    pub bbox: [i64; 4],
}

/// The page number a page key names: the key parsed as `i64`, else 0.
pub open spec fn page_of_key(key: Seq<char>) -> i64 {
    match chars::parse_i64_spec(key) {
        Some(p) => p,
        None => 0,
    }
}

/// The present blocks of one page, with their page number.
pub open spec fn present_blocks(items: Seq<Option<RawBlock>>, page: i64) -> Seq<(i64, RawBlock)>
    decreases items.len(),
{
    if items.len() == 0 {
        seq![]
    } else {
        present_blocks(items.drop_last(), page) + match items.last() {
            Some(rb) => seq![(page, rb)],
            None => seq![],
        }
    }
}

/// Blocks of all pages in input order, pages whose blocks are not a list skipped.
pub open spec fn flat_blocks(pages: Seq<(String, Option<Vec<Option<RawBlock>>>)>) -> Seq<(i64, RawBlock)>
    decreases pages.len(),
{
    if pages.len() == 0 {
        seq![]
    } else {
        flat_blocks(pages.drop_last()) + match pages.last().1 {
            Some(items) => present_blocks(items@, page_of_key(pages.last().0@)),
            None => seq![],
        }
    }
}

/// `b` is the working block for raw block `rb` on `page` with id `id`:
/// type defaults to `text`, content to empty, all links unset.
pub open spec fn block_from_raw(b: WorkBlock, id: int, page: i64, rb: RawBlock) -> bool {
    &&& b.id == id
    &&& b.page == page
    &&& b.kind@ == match rb.kind {
        Some(k) => k@,
        None => "text"@,
    }
    &&& b.content@ == match rb.content {
        Some(c) => c@,
        None => Seq::<char>::empty(),
    }
    &&& b.bbox == rb.bbox
    &&& b.contd == -1
    &&& b.level == -1
    &&& b.image == -1
    &&& b.table_merge is None
    &&& b.cell_list is None
}

fn block_of(id: i64, page: i64, rb: &RawBlock) -> (b: WorkBlock)
    ensures
        block_from_raw(b, id as int, page, *rb),
{
    let kind = match &rb.kind {
        Some(k) => k.clone(),
        None => {
            let mut t: Vec<char> = Vec::new();
            push_str(&mut t, "text");
            from_chars(t.as_slice())
        },
    };
    let content = match &rb.content {
        Some(c) => c.clone(),
        None => String::new(),
    };
    WorkBlock {
        id,
        page,
        kind,
        content,
        bbox: rb.bbox,
        contd: -1,
        level: -1,
        image: -1,
        table_merge: None,
        cell_list: None,
    }
}

/// Builds the document's working blocks from the pages (key and blocks, in
/// input order), assigning 1-based ids in document order.
pub fn build_doc_blocks(pages: &Vec<(String, Option<Vec<Option<RawBlock>>>)>) -> (r: Vec<WorkBlock>)
    requires
        flat_blocks(pages@).len() < i64::MAX,
    ensures
        r@.len() == flat_blocks(pages@).len(),
        forall|k: int|
            0 <= k < r@.len() ==> block_from_raw(
                #[trigger] r@[k],
                k + 1,
                flat_blocks(pages@)[k].0,
                flat_blocks(pages@)[k].1,
            ),
{
    let mut blocks: Vec<WorkBlock> = Vec::new();
    let mut i: usize = 0;
    proof {
        lemma_flat_prefix(pages@, pages@.len() as int);
        assert(pages@.take(pages@.len() as int) =~= pages@);
        assert(pages@.take(0) =~= Seq::<(String, Option<Vec<Option<RawBlock>>>)>::empty());
    }
    while i < pages.len()
        invariant
            i <= pages.len(),
            flat_blocks(pages@).len() < i64::MAX,
            forall|n: int| 0 <= n <= pages@.len() ==> #[trigger] flat_blocks(pages@.take(n)).len() <= flat_blocks(pages@).len(),
            blocks@.len() == flat_blocks(pages@.take(i as int)).len(),
            forall|k: int|
                0 <= k < blocks@.len() ==> block_from_raw(
                    #[trigger] blocks@[k],
                    k + 1,
                    flat_blocks(pages@.take(i as int))[k].0,
                    flat_blocks(pages@.take(i as int))[k].1,
                ),
        decreases pages.len() - i,
    {
        let ghost prefix = flat_blocks(pages@.take(i as int));
        assert(pages@.take(i + 1).drop_last() =~= pages@.take(i as int));
        assert(pages@.take(i + 1).last() == pages@[i as int]);
        let page = match parse_i64(&to_chars(pages[i].0.as_str())) {
            Some(p) => p,
            None => 0,
        };
        match &pages[i].1 {
            None => {},
            Some(items) => {
                let mut j: usize = 0;
                assert(items@.take(0) =~= Seq::<Option<RawBlock>>::empty());
                assert(prefix + present_blocks(items@.take(0), page) =~= prefix);
                while j < items.len()
                    invariant
                        j <= items.len(),
                        i < pages@.len(),
                        pages@[i as int].1 == Some(*items),
                        page == page_of_key(pages@[i as int].0@),
                        flat_blocks(pages@).len() < i64::MAX,
                        prefix == flat_blocks(pages@.take(i as int)),
                        prefix + present_blocks(items@, page) == flat_blocks(pages@.take(i + 1)),
                        flat_blocks(pages@.take(i + 1)).len() <= flat_blocks(pages@).len(),
                        blocks@.len() == (prefix + present_blocks(items@.take(j as int), page)).len(),
                        forall|k: int|
                            0 <= k < blocks@.len() ==> block_from_raw(
                                #[trigger] blocks@[k],
                                k + 1,
                                (prefix + present_blocks(items@.take(j as int), page))[k].0,
                                (prefix + present_blocks(items@.take(j as int), page))[k].1,
                            ),
                    decreases items.len() - j,
                {
                    assert(items@.take(j + 1).drop_last() =~= items@.take(j as int));
                    assert(items@.take(j + 1).last() == items@[j as int]);
                    proof {
                        lemma_present_prefix(items@, page, j + 1);
                    }
                    match &items[j] {
                        None => {},
                        Some(rb) => {
                            assert(present_blocks(items@.take(j + 1), page) == present_blocks(items@.take(j as int), page) + seq![(page, *rb)]);
                            assert(blocks@.len() + 1 <= flat_blocks(pages@).len());
                            let id = blocks.len() as i64 + 1;
                            let b = block_of(id, page, rb);
                            let ghost before = blocks@;
                            blocks.push(b);
                            assert(blocks@.drop_last() == before);
                        },
                    }
                    j = j + 1;
                    assert forall|k: int| 0 <= k < blocks@.len() implies block_from_raw(
                        #[trigger] blocks@[k],
                        k + 1,
                        (prefix + present_blocks(items@.take(j as int), page))[k].0,
                        (prefix + present_blocks(items@.take(j as int), page))[k].1,
                    ) by {
                        let cur = prefix + present_blocks(items@.take(j as int), page);
                        let prev = prefix + present_blocks(items@.take(j - 1), page);
                        if k < prev.len() {
                            assert(cur[k] == prev[k]);
                        }
                    }
                }
                assert(items@.take(items.len() as int) =~= items@);
            },
        }
        i = i + 1;
    }
    assert(pages@.take(pages.len() as int) =~= pages@);
    blocks
}

proof fn lemma_present_prefix(items: Seq<Option<RawBlock>>, page: i64, n: int)
    requires
        0 <= n <= items.len(),
    ensures
        present_blocks(items.take(n), page).len() <= present_blocks(items, page).len(),
    decreases items.len(),
{
    if n < items.len() {
        lemma_present_prefix(items.drop_last(), page, n);
        assert(items.drop_last().take(n) =~= items.take(n));
    } else {
        assert(items.take(n) =~= items);
    }
}

proof fn lemma_flat_prefix(pages: Seq<(String, Option<Vec<Option<RawBlock>>>)>, m: int)
    requires
        0 <= m <= pages.len(),
    ensures
        forall|n: int| 0 <= n <= m ==> #[trigger] flat_blocks(pages.take(n)).len() <= flat_blocks(pages.take(m)).len(),
    decreases m,
{
    if m > 0 {
        lemma_flat_prefix(pages, m - 1);
        assert(pages.take(m).drop_last() =~= pages.take(m - 1));
        assert forall|n: int| 0 <= n <= m implies #[trigger] flat_blocks(pages.take(n)).len() <= flat_blocks(pages.take(m)).len() by {
            if n < m {
                assert(flat_blocks(pages.take(m)).len() >= flat_blocks(pages.take(m - 1)).len());
            }
        }
    }
    assert(pages.take(pages.len() as int) =~= pages);
}

} // verus!
