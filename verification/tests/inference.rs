use popo::block::{build_doc_blocks, RawBlock, WorkBlock};
use popo::merge::{
    apply_merge, build_table_merge_prompt, caption_for_table, check_caption_consistency,
    check_width_difference, filter_table_merge, filter_table_merge_candidates, MergeInput,
};
use popo::pyliteral::PyValue;
use popo::title::{apply_title, extract_label2, filter_title, sync_fits_exec, synchronize, title_output, LevelPair};
use popo::truncation::{
    apply_contd, build_contd_prompt, contd_output, filter_contd, head_sentence, is_list_item,
    merge_rules, parse_contd_pairs, parse_src_tgt, tail_sentence, JudgeBlock,
};
use popo::visual::{apply_image, build_image_prompt, filter_image};

/// A bbox given in page fractions, stored in millionths of the page.
fn micro(b: [f64; 4]) -> [i64; 4] {
    [
        (b[0] * 1_000_000.0).round() as i64,
        (b[1] * 1_000_000.0).round() as i64,
        (b[2] * 1_000_000.0).round() as i64,
        (b[3] * 1_000_000.0).round() as i64,
    ]
}

fn block(id: i64, page: i64, kind: &str, content: &str, bbox: [f64; 4]) -> WorkBlock {
    WorkBlock {
        id,
        page,
        kind: kind.into(),
        content: content.into(),
        bbox: micro(bbox),
        contd: -1,
        level: -1,
        image: -1,
        table_merge: if kind == "table" { Some(-1) } else { None },
        cell_list: None,
    }
}

const TBL: &str = "<table><tr><th>A</th><th>B</th></tr><tr><td>1</td><td>2</td></tr></table>";
const TBL2: &str = "<table><tr><th>A</th><th>B</th></tr><tr><td>3</td><td>4</td></tr></table>";

#[test]
fn sentence_helpers() {
    assert_eq!(head_sentence("First. Second part"), "First.");
    assert_eq!(tail_sentence("First. Second part"), "Second part");
    assert_eq!(head_sentence("no terminator here"), "no terminator here");
}

#[test]
fn list_item_detection() {
    assert!(is_list_item("1. item"));
    assert!(is_list_item("(a) thing"));
    assert!(is_list_item("• bullet"));
    assert!(is_list_item("第三条 ..."));
    assert!(is_list_item("- dash"));
    assert!(!is_list_item("ordinary sentence"));
}

#[test]
fn merge_rules_basics() {
    assert!(merge_rules("this is a long unfinished clause", "that completes it"));
    assert!(!merge_rules("this is a complete sentence.", "next one"));
    assert!(!merge_rules("short", "and more text here please"));
    assert!(!merge_rules("this is a long unfinished clause", "1. a list start"));
    assert!(!merge_rules("2020 was a long year of events", "2021 followed it"));
}

#[test]
fn filter_contd_links_adjacent_text() {
    let blocks = vec![
        block(1, 1, "text", "this is a long unfinished clause", [0.1, 0.2, 0.3, 0.4]),
        block(2, 1, "text", "that completes the thought nicely", [0.1, 0.5, 0.3, 0.7]),
        block(3, 1, "title", "A Heading", [0.0, 0.0, 1.0, 0.05]),
    ];
    let judges = filter_contd(&blocks);
    assert_eq!(judges.len(), 2);
    assert_eq!(judges[0].idx, 0);
    assert_eq!(judges[1].idx, 1);
    assert_eq!(judges[0].bbox, ["200", "100", "400", "300"]);
}

#[test]
fn parse_and_apply_pairs() {
    let pairs = parse_contd_pairs("<|src_id|>0<|tgt_id|>1\n<|from|>2<|to|>3\ngarbage");
    assert_eq!(pairs, vec![(0, 1), (2, 3)]);
    let mut blocks = vec![
        block(1, 1, "text", "a", [0.0; 4]),
        block(2, 1, "text", "b", [0.0; 4]),
    ];
    apply_contd(&mut blocks, &[(0, 1)]);
    assert_eq!(blocks[0].contd, 2);
    assert_eq!(blocks[1].contd, -1);
}

#[test]
fn prompt_format() {
    let judges = vec![JudgeBlock {
        idx: 0,
        content: "hello".into(),
        page: 1,
        bbox: ["10".into(), "20".into(), "30".into(), "40".into()],
    }];
    let p = build_contd_prompt(&judges);
    assert_eq!(
        p,
        "<image>\nTruncation Detection: <|id|>0<|page|>1<|box|>10 20 30 40<|content|>hello"
    );
}

#[test]
fn contd_output_round_trips_through_parsing() {
    let pairs = vec![(0, 1), (4, 7), (12, 13)];
    let text = contd_output(&pairs);
    assert_eq!(text, "<|src_id|>0<|tgt_id|>1\n<|src_id|>4<|tgt_id|>7\n<|src_id|>12<|tgt_id|>13");
    assert_eq!(parse_src_tgt(&text), pairs);
}

#[test]
fn filter_title_selects_titles_only() {
    let blocks = vec![
        block(0, 1, "text", "body", [0.0; 4]),
        block(0, 1, "title", "Heading One", [0.1, 0.2, 0.3, 0.4]),
    ];
    let judges = filter_title(&blocks);
    assert_eq!(judges.len(), 1);
    assert_eq!(judges[0].idx, 1);
    assert_eq!(judges[0].bbox, ["200", "100", "400", "300"]);
}

#[test]
fn extract_label2_keeps_non_negative() {
    let pairs = extract_label2("<|id|>0<|level|>1\n<|id|>2<|level|>-1\n<|id|>3<|level|>0");
    assert_eq!(
        pairs,
        vec![LevelPair { id: 0, level: 1 }, LevelPair { id: 3, level: 0 }]
    );
}

#[test]
fn title_output_round_trips_through_extraction() {
    let levels = vec![LevelPair { id: 0, level: 1 }, LevelPair { id: 5, level: 3 }];
    let text = title_output(&levels);
    assert_eq!(text, "<|id|>0<|level|>1\n<|id|>5<|level|>3");
    assert_eq!(extract_label2(&text), levels);
}

#[test]
fn synchronize_aligns_overlapping_chunk_levels() {
    let mut results = Vec::new();
    let mut c1 = vec![LevelPair { id: 1, level: 1 }, LevelPair { id: 2, level: 2 }];
    synchronize(&mut c1, &mut results);
    assert_eq!(
        results,
        vec![LevelPair { id: 1, level: 1 }, LevelPair { id: 2, level: 2 }]
    );
    let mut c2 = vec![LevelPair { id: 2, level: 3 }, LevelPair { id: 3, level: 4 }];
    synchronize(&mut c2, &mut results);
    assert_eq!(
        results,
        vec![
            LevelPair { id: 1, level: 1 },
            LevelPair { id: 2, level: 2 },
            LevelPair { id: 3, level: 3 },
        ]
    );
}

#[test]
fn apply_title_sets_levels() {
    let mut blocks = vec![
        block(0, 1, "title", "A", [0.0; 4]),
        block(0, 1, "text", "b", [0.0; 4]),
        block(0, 1, "title", "C", [0.0; 4]),
    ];
    apply_title(&mut blocks, "<|id|>0<|level|>1\n<|id|>2<|level|>2");
    assert_eq!(blocks[0].level, 1);
    assert_eq!(blocks[1].level, -1);
    assert_eq!(blocks[2].level, 2);
}

#[test]
fn filter_image_emits_judges_with_none_content_for_visuals() {
    let blocks = vec![
        block(0, 1, "image", "ignored", [0.1, 0.1, 0.9, 0.5]),
        block(0, 1, "image_caption", "Figure 1: a plot", [0.1, 0.55, 0.9, 0.6]),
        block(0, 1, "text", "body", [0.1, 0.7, 0.9, 0.8]),
    ];
    let (judges, linking) = filter_image(&blocks);
    assert!(linking.is_empty());
    assert_eq!(judges.len(), 2);
    assert_eq!(judges[0].kind, "image");
    assert_eq!(judges[0].content, "None");
    assert_eq!(judges[1].kind, "image_caption");
    assert_eq!(judges[1].content, "Figure 1: a plot");
    assert_eq!(judges[0].bbox, ["100", "100", "500", "900"]);
    let prompt = build_image_prompt(&judges);
    assert!(prompt.contains("<|id|>0"));
}

#[test]
fn contained_visuals_become_linking_not_judges() {
    let blocks = vec![
        block(0, 1, "image_block", "", [0.1, 0.1, 0.9, 0.9]),
        block(0, 1, "image", "", [0.2, 0.2, 0.8, 0.8]),
    ];
    let (judges, linking) = filter_image(&blocks);
    assert_eq!(linking, vec![(1, 0)]);
    assert_eq!(judges.len(), 1);
    assert_eq!(judges[0].idx, 0);
    assert_eq!(judges[0].kind, "image");
}

#[test]
fn apply_pairs_then_linking() {
    let mut blocks = vec![
        block(0, 1, "image", "", [0.0; 4]),
        block(0, 1, "image_caption", "c", [0.0; 4]),
        block(0, 1, "image", "", [0.0; 4]),
    ];
    apply_image(&mut blocks, &[(1, 0)], &[(2, 0)]);
    assert_eq!(blocks[1].image, 1);
    assert_eq!(blocks[2].image, 1);
    assert_eq!(blocks[0].image, -1);
}

#[test]
fn seal_is_treated_as_image() {
    let blocks = vec![block(0, 1, "seal", "x", [0.1, 0.1, 0.2, 0.2])];
    let (judges, _) = filter_image(&blocks);
    assert_eq!(judges.len(), 1);
    assert_eq!(judges[0].kind, "image");
    assert_eq!(judges[0].content, "None");
}

#[test]
fn caption_detection() {
    let blocks = vec![
        block(1, 1, "title", "Table 1: Results", [0.0; 4]),
        block(2, 1, "table", TBL, [0.1, 0.1, 0.9, 0.5]),
    ];
    assert_eq!(caption_for_table(&blocks, 1).as_deref(), Some("Table 1: Results"));
    assert_eq!(caption_for_table(&blocks, 0), None);
}

#[test]
fn candidate_pair_passes_all_checks() {
    let blocks = vec![
        block(1, 1, "table", TBL, [0.1, 0.1, 0.9, 0.6]),
        block(2, 2, "table", TBL2, [0.1, 0.1, 0.9, 0.6]),
    ];
    assert!(filter_table_merge_candidates(&blocks, 0, 1));
    let inputs = filter_table_merge(&blocks);
    assert_eq!(inputs.len(), 1);
    assert_eq!(inputs[0].table1_idx, 0);
    assert_eq!(inputs[0].table2_idx, 1);
}

#[test]
fn rejected_when_text_between_tables() {
    let blocks = vec![
        block(1, 1, "table", TBL, [0.1, 0.1, 0.9, 0.6]),
        block(2, 1, "text", "a paragraph after the table", [0.1, 0.7, 0.9, 0.8]),
        block(3, 2, "table", TBL2, [0.1, 0.1, 0.9, 0.6]),
    ];
    assert!(!filter_table_merge_candidates(&blocks, 0, 2));
    assert!(filter_table_merge(&blocks).is_empty());
}

#[test]
fn rejected_when_widths_differ() {
    let blocks = vec![
        block(1, 1, "table", TBL, [0.1, 0.1, 0.9, 0.6]),
        block(2, 2, "table", TBL2, [0.1, 0.1, 0.5, 0.6]),
    ];
    assert!(!check_width_difference(&blocks, 0, 1));
}

#[test]
fn caption_only_on_table2_rejects() {
    let blocks = vec![
        block(1, 1, "table", TBL, [0.0; 4]),
        block(2, 2, "title", "Table 5: New", [0.0; 4]),
        block(3, 2, "table", TBL2, [0.0; 4]),
    ];
    assert!(!check_caption_consistency(&blocks, 0, 2));
}

#[test]
fn apply_merge_links_tables_and_stores_cells() {
    let mut blocks = vec![
        block(1, 1, "table", TBL, [0.0; 4]),
        block(2, 2, "table", TBL2, [0.0; 4]),
    ];
    let mi = MergeInput { table1_idx: 0, table2_idx: 1, upper: vec![], lower: vec![] };
    let cells = PyValue::List(vec![PyValue::List(vec![PyValue::Int(0), PyValue::Int(1)])]);
    apply_merge(&mut blocks, &mi, &cells);
    assert_eq!(blocks[0].table_merge, Some(2));
    assert_eq!(blocks[1].table_merge, Some(1));
    assert_eq!(format!("{:?}", blocks[0].cell_list), format!("{:?}", Some(&cells)));

    let mut blocks2 = vec![
        block(1, 1, "table", TBL, [0.0; 4]),
        block(2, 2, "table", TBL2, [0.0; 4]),
    ];
    apply_merge(&mut blocks2, &mi, &PyValue::List(vec![]));
    assert_eq!(blocks2[0].table_merge, Some(-1));
}

#[test]
fn prompt_contains_row_data() {
    let p = build_table_merge_prompt(
        &[vec!["1".into(), "2".into()]],
        &[vec!["3".into(), "4".into()]],
    );
    assert!(p.contains("[['1', '2']]"));
    assert!(p.contains("[['3', '4']]"));
    assert!(p.contains("## Table 1"));
}

#[test]
fn builds_sequential_ids_across_pages() {
    let raw = |kind: &str, content: &str, b: [f64; 4]| {
        Some(RawBlock { kind: Some(kind.into()), content: Some(content.into()), bbox: micro(b) })
    };
    let pages = vec![
        (
            "1".to_string(),
            Some(vec![raw("title", "A", [0.0, 0.0, 1.0, 0.1]), raw("text", "b", [0.0, 0.2, 1.0, 0.3])]),
        ),
        ("2".to_string(), Some(vec![raw("text", "c", [0.0, 0.0, 1.0, 0.1])])),
    ];
    let blocks = build_doc_blocks(&pages);
    assert_eq!(blocks.len(), 3);
    assert_eq!(blocks[0].id, 1);
    assert_eq!(blocks[0].page, 1);
    assert_eq!(blocks[2].id, 3);
    assert_eq!(blocks[2].page, 2);
    assert_eq!(blocks[0].contd, -1);
}

#[test]
fn truncation_run_applies_answered_links() {
    // The two linkable blocks span pages 1 and 4 so the chunker keeps them.
    let mut blocks = vec![
        block(1, 1, "text", "this is a long unfinished clause", [0.1, 0.2, 0.3, 0.4]),
        block(2, 4, "text", "that completes the thought nicely", [0.1, 0.5, 0.3, 0.7]),
    ];
    let mut run = popo::runner::TruncationRun::start(&blocks);
    let req = run.next_request().expect("one chunk");
    assert!(req.prompt.starts_with("<image>\nTruncation Detection: <|id|>0<|page|>1"));
    assert_eq!(req.pages, vec![1, 4]);
    run.answer("<|src_id|>0<|tgt_id|>1\n<|from|>0<|to|>1");
    assert!(run.next_request().is_none());
    let output = run.finish(&mut blocks);
    assert_eq!(output, "<|src_id|>0<|tgt_id|>1");
    assert_eq!(blocks[0].contd, 2);
    assert_eq!(blocks[1].contd, -1);
}

#[test]
fn title_run_applies_answered_levels() {
    let mut blocks = vec![
        block(1, 1, "title", "Chapter One", [0.1, 0.1, 0.9, 0.2]),
        block(2, 5, "title", "A Section", [0.1, 0.3, 0.9, 0.4]),
    ];
    let mut run = popo::runner::TitleRun::start(&blocks);
    let req = run.next_request().expect("one chunk");
    assert!(req.prompt.starts_with("<image>\nTitle Level Analysis: "));
    assert_eq!(req.pages, vec![1, 5]);
    let answer = "<|id|>0<|level|>1\n<|id|>1<|level|>2";
    assert!(run.can_answer(answer));
    run.answer(answer);
    assert!(run.next_request().is_none());
    let output = run.finish(&mut blocks);
    assert_eq!(output, "<|id|>0<|level|>1\n<|id|>1<|level|>2");
    assert_eq!(blocks[0].level, 1);
    assert_eq!(blocks[1].level, 2);
}

#[test]
fn title_run_refuses_answers_whose_sums_overflow() {
    let blocks = vec![block(1, 1, "title", "T", [0.0; 4]), block(2, 5, "title", "U", [0.0; 4])];
    let run = popo::runner::TitleRun::start(&blocks);
    // Nothing settled yet: no offsets, any level is kept as is.
    assert!(run.can_answer("<|id|>0<|level|>9223372036854775807"));
    let lp = |id: i64, level: i64| LevelPair { id, level };
    // Two pinned offsets of i64::MAX each: their sum leaves i64.
    assert!(!sync_fits_exec(&vec![lp(0, i64::MAX), lp(1, i64::MAX)], &vec![lp(0, 0), lp(1, 0)]));
    assert!(sync_fits_exec(&vec![lp(0, 5), lp(1, 3)], &vec![lp(0, 0), lp(1, 0)]));
    // Mean offset -i64::MAX: a new positive level cannot take it off.
    assert!(!sync_fits_exec(&vec![lp(0, 0), lp(1, 5)], &vec![lp(0, i64::MAX)]));
    // A new level of zero or below is kept as is.
    assert!(sync_fits_exec(&vec![lp(0, 0), lp(1, 0)], &vec![lp(0, i64::MAX)]));
}
