use popo::chunk::adaptive_chunk;
use popo::truncation::JudgeBlock;

fn items(pages: &[i64]) -> Vec<JudgeBlock> {
    pages
        .iter()
        .enumerate()
        .map(|(i, &page)| JudgeBlock {
            idx: i as i64,
            content: String::new(),
            page,
            bbox: [String::new(), String::new(), String::new(), String::new()],
        })
        .collect()
}

#[test]
fn empty_input() {
    let (r, c) = adaptive_chunk::<JudgeBlock>(&[], 50, 1);
    assert!(r.is_empty() && c.is_empty());
}

#[test]
fn single_chunk_small_doc_has_no_boundaries() {
    let (r, c) = adaptive_chunk(&items(&[1, 1, 1]), 50, 1);
    assert!(r.is_empty());
    assert!(c.is_empty());
}

#[test]
fn splits_long_doc_with_overlap() {
    let pages: Vec<i64> = (1..=120).collect();
    let (ranges, chunks) = adaptive_chunk(&items(&pages), 50, 1);
    assert_eq!(ranges.len(), chunks.len());
    assert!(ranges.len() >= 2, "expected multiple chunks, got {ranges:?}");
    assert_eq!(ranges[0][0], 1);
    assert_eq!(ranges.last().unwrap()[1], 120);
    for w in ranges.windows(2) {
        assert!(w[1][0] <= w[0][1], "ranges should overlap: {:?}", w);
    }
}

#[test]
fn boundary_prefers_denser_page() {
    let mut pages: Vec<i64> = (1..=120).collect();
    pages.extend([53, 53, 53, 53]);
    let (ranges, _) = adaptive_chunk(&items(&pages), 50, 1);
    assert_eq!(ranges[0][1], 54);
}

#[test]
fn chunk_items_keep_their_pages_within_the_range() {
    let pages: Vec<i64> = (1..=120).collect();
    let (ranges, chunks) = adaptive_chunk(&items(&pages), 50, 1);
    for (range, chunk) in ranges.iter().zip(chunks.iter()) {
        assert!(!chunk.is_empty());
        for item in chunk {
            assert!(range[0] <= item.page && item.page <= range[1]);
        }
    }
}

#[test]
fn spans_of_at_most_two_pages_give_no_chunk() {
    let (r, c) = adaptive_chunk(&items(&[1, 2, 2]), 50, 1);
    assert!(r.is_empty() && c.is_empty());
    let (r, c) = adaptive_chunk(&items(&[1, 3]), 50, 1);
    assert!(r.is_empty() && c.is_empty());
    let (r, c) = adaptive_chunk(&items(&[1, 4]), 50, 1);
    assert_eq!(r, vec![[1, 4]]);
    assert_eq!(c.len(), 1);
    // Short spans need no usable chunk size.
    let (r, _) = adaptive_chunk(&items(&[7, 8]), 0, -3);
    assert!(r.is_empty());
}

#[test]
fn every_item_lands_in_a_chunk_holding_exactly_its_range() {
    // Uneven pages, several items per page, out of document order.
    let pages: Vec<i64> = vec![3, 1, 1, 9, 4, 4, 4, 12, 7, 2, 15, 15, 8, 20, 11, 6, 5, 18];
    let its = items(&pages);
    let (ranges, chunks) = adaptive_chunk(&its, 6, 1);
    assert_eq!(ranges.len(), chunks.len());
    assert!(!ranges.is_empty());
    assert_eq!(ranges[0][0], 1);
    assert_eq!(ranges.last().unwrap()[1], 20);
    for w in ranges.windows(2) {
        assert!(w[1][0] <= w[0][1] && w[0][1] <= w[1][1], "{:?}", w);
    }
    for (r, c) in ranges.iter().zip(chunks.iter()) {
        // Exactly the items whose page lies in the range, sorted by page, stable.
        let mut expected: Vec<&JudgeBlock> = its.iter().filter(|b| r[0] <= b.page && b.page <= r[1]).collect();
        expected.sort_by_key(|b| b.page);
        let got: Vec<i64> = c.iter().map(|b| b.idx).collect();
        let want: Vec<i64> = expected.iter().map(|b| b.idx).collect();
        assert_eq!(got, want);
    }
    for b in &its {
        assert!(chunks.iter().any(|c| c.iter().any(|x| x.idx == b.idx)), "item {} not covered", b.idx);
    }
    let mut distinct = pages.clone();
    distinct.sort();
    distinct.dedup();
    assert!(ranges.len() <= distinct.len());
}

#[test]
fn chunking_works_near_the_top_of_the_page_range() {
    let top = i64::MAX - 11;
    let pages: Vec<i64> = (0..20).map(|k| top - 19 + k).collect();
    let (ranges, chunks) = adaptive_chunk(&items(&pages), 6, 0);
    assert_eq!(ranges.len(), chunks.len());
    assert_eq!(ranges[0][0], top - 19);
    assert_eq!(ranges.last().unwrap()[1], top);
    for (k, _) in pages.iter().enumerate() {
        assert!(chunks.iter().any(|c| c.iter().any(|x| x.idx == k as i64)));
    }
}
