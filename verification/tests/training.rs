use popo::engine::{contd_case, json_candidate, table_merge_case, title_case, TableJudge, TableResult};
use popo::title::LevelPair;
use popo::truncation::JudgeBlock;

fn judge(idx: i64) -> JudgeBlock {
    JudgeBlock {
        idx,
        content: format!("c{idx}"),
        page: 1,
        bbox: ["10".into(), "20".into(), "30".into(), "40".into()],
    }
}

#[test]
fn contd_case_reuses_inference_prompt() {
    let chunk = vec![judge(0), judge(1)];
    let item = contd_case(&chunk, &[(0, 1)], "doc.jpg");
    assert_eq!(item.image, "doc.jpg");
    assert!(item.human.starts_with("<image>\nTruncation Detection: <|id|>0"));
    assert_eq!(item.gpt, "<|src_id|>0<|tgt_id|>1");
}

#[test]
fn title_case_serializes_levels() {
    let chunk = vec![judge(0)];
    let item = title_case(&chunk, &[LevelPair { id: 0, level: 1 }], "d.jpg");
    assert!(item.human.starts_with("<image>\nTitle Level Analysis:"));
    assert_eq!(item.gpt, "<|id|>0<|level|>1");
}

#[test]
fn table_merge_case_format() {
    let blocks = vec![TableJudge {
        idx: 3,
        page: 2,
        col_count: 4,
        caption: "Table 1".into(),
        last_rows: "[[\"a\",\"b\"]]".into(),
        first_rows: "[[\"c\",\"d\"]]".into(),
    }];
    let results = vec![TableResult { src: 3, tgt: 4, merge: 1, cell_list: vec![0, 1, 1] }];
    let item = table_merge_case(&blocks, &results, "d.jpg");
    assert!(item.human.contains("<|col_count|>4<|caption|>Table 1"));
    assert_eq!(item.gpt, "<|src_id|>3<|tgt_id|>4<|merge|>1<|cell_list|>0,1,1");
}

#[test]
fn json_candidate_variants() {
    assert_eq!(json_candidate("```json\n[1, 2]\n```"), "[1, 2]");
    assert_eq!(json_candidate("prose [3, 4] tail"), "[3, 4]");
    assert_eq!(json_candidate("not json"), "not json");
    assert_eq!(json_candidate("] backwards ["), "] backwards [");
}
