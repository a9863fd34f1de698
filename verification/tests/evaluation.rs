use popo::eval::{compact_text, content_aware_nodes, find_longest_match, matching_total, parse_title_labels};
use popo::title_prompt::parse_title_prompt;

fn chars(s: &str) -> Vec<char> {
    s.chars().collect()
}

/// The similarity ratio, from the matched-character count.
fn ratio(a: &str, b: &str) -> f64 {
    let (a, b) = (chars(a), chars(b));
    let total = a.len() + b.len();
    if total == 0 {
        return 1.0;
    }
    2.0 * matching_total(&a, &b, 0, a.len(), 0, b.len()) as f64 / total as f64
}

#[test]
fn ratio_matches_python_examples() {
    assert!((ratio("abcd", "abcd") - 1.0).abs() < 1e-9);
    assert!((ratio("abcd", "abxd") - 0.75).abs() < 1e-9);
    assert!((ratio("abc", "xyz") - 0.0).abs() < 1e-9);
}

#[test]
fn longest_match_prefers_the_earliest() {
    let a = chars("xabcyabcz");
    let b = chars("abc");
    assert_eq!(find_longest_match(&a, &b, 0, a.len(), 0, b.len()), (1, 0, 3));
    let c = chars("qq");
    assert_eq!(find_longest_match(&a, &c, 0, a.len(), 0, c.len()), (0, 0, 0));
}

#[test]
fn matching_counts_blocks_on_both_sides() {
    // "ab" then "cd" match around the differing middle.
    let a = chars("abXcd");
    let b = chars("abYcd");
    assert_eq!(matching_total(&a, &b, 0, a.len(), 0, b.len()), 4);
}

#[test]
fn compact_text_keeps_letters_digits_and_cjk() {
    assert_eq!(compact_text("  Chapter 1:  Intro\n"), "chapter1intro");
    assert_eq!(compact_text("第一章 概述!"), "第一章概述");
}

#[test]
fn parse_prompt_labels() {
    let labels = parse_title_labels("<|id|>5<|level|>1\n<|id|>6<|level|>-1");
    assert_eq!(labels, vec![("5".to_string(), 1)]);
    let more = parse_title_labels("  <|id|> 7 <|level|>0\r\nnoise\n<|id|>8<|level|>x\n");
    assert_eq!(more, vec![("7".to_string(), 0)]);
}

#[test]
fn content_aware_nodes_use_compact_content() {
    let nodes = vec![("g1".to_string(), 1), ("missing".to_string(), 2)];
    let blocks = vec![
        ("g1".to_string(), "Old".to_string()),
        ("g1".to_string(), "Chapter One".to_string()),
    ];
    let out = content_aware_nodes(&nodes, &blocks);
    assert_eq!(out, vec![("chapterone".to_string(), 1), (String::new(), 2)]);
}

#[test]
fn parse_prompt_and_labels() {
    let prompt =
        "<image>\nTitle Level Analysis: <|id|>5<|page|>2<|box|>100 200 150 800<|content|>Hello";
    let blocks = parse_title_prompt(prompt);
    assert_eq!(blocks.len(), 1);
    assert_eq!(blocks[0].block_id, "5");
    assert_eq!(blocks[0].page, 2);
    // top left bottom right -> left top right bottom
    assert_eq!(blocks[0].box_words, vec!["200", "100", "800", "150"]);
    assert_eq!(blocks[0].content, "Hello");

    let labels = parse_title_labels("<|id|>5<|level|>1\n<|id|>6<|level|>-1");
    assert_eq!(labels, vec![("5".to_string(), 1)]);
}

#[test]
fn prompt_records_keep_their_position() {
    let prompt = "<|id|>a<|page|>1<|box|>1 2<|content|>  One\n  two\n<|id|>   \n<|id|>bad\n<|id|> c <|page|>99999999999999999999<|box|>4 3 2 1 0<|content|>Three";
    let blocks = parse_title_prompt(prompt);
    assert_eq!(blocks.len(), 2);
    assert_eq!(blocks[0].block_id, "a");
    assert_eq!(blocks[0].box_words, vec!["1", "2"]);
    assert_eq!(blocks[0].content, "One two");
    assert_eq!(blocks[0].order, 0);
    assert_eq!(blocks[1].block_id, "c");
    assert_eq!(blocks[1].page, 0);
    assert_eq!(blocks[1].box_words, vec!["3", "4", "1", "2"]);
    assert_eq!(blocks[1].order, 3);
}
