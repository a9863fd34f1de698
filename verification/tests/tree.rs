use popo::enrich::{split_subnode, split_tree, SplitNode};
use popo::table::merge_html;
use popo::tree::{build_tree, tree_to_txt, Component, Location, TreeElement};

fn micro(b: [f64; 4]) -> Vec<i64> {
    b.iter().map(|x| (x * 1_000_000.0).round() as i64).collect()
}

fn el(kind: &str, content: &str, level: i64, bbox: [f64; 4], page: i64, id: i64, image: i64) -> TreeElement {
    TreeElement {
        kind: kind.into(),
        source_label: String::new(),
        content: content.into(),
        level,
        id: Some(id),
        page,
        bbox: micro(bbox),
        contd: -1,
        image,
        table_merge: -1,
        merged_locations: None,
        merged_block_ids: None,
    }
}

fn collect_type<'a>(node: &'a Component, t: &str) -> Vec<&'a Component> {
    let mut out = Vec::new();
    if node.cp_type == t {
        out.push(node);
    }
    for c in &node.children {
        out.extend(collect_type(c, t));
    }
    out
}

#[test]
fn builds_title_text_hierarchy() {
    let docs = vec![
        el("title", "Chapter 1", 1, [0.0, 0.0, 1.0, 0.1], 1, 1, -1),
        el("text", "Intro paragraph.", -1, [0.0, 0.2, 1.0, 0.3], 1, 2, -1),
        el("title", "Section 1.1", 2, [0.0, 0.4, 1.0, 0.5], 1, 3, -1),
        el("text", "Body.", -1, [0.0, 0.6, 1.0, 0.7], 1, 4, -1),
    ];
    let tree = build_tree(docs);
    assert_eq!(tree.cp_type, "root");
    assert_eq!(tree.children.len(), 1);
    let ch1 = &tree.children[0];
    assert_eq!(ch1.title, "Chapter 1");
    assert_eq!(ch1.content, "Intro paragraph.");
    let sec = ch1.children.iter().find(|c| c.title == "Section 1.1").unwrap();
    assert_eq!(sec.content, "Body.");
}

#[test]
fn attaches_image_to_linked_title_and_adds_supplement() {
    let mut supp = el("text", "12", -1, [0.9, 0.95, 1.0, 1.0], 1, 4, -1);
    supp.source_label = "page_number".into();
    let docs = vec![
        el("title", "Figures", 1, [0.0, 0.0, 1.0, 0.1], 1, 1, -1),
        el("image", "<img>", -1, [0.1, 0.2, 0.9, 0.5], 1, 2, 1),
        el("image_caption", "Fig 1", -1, [0.1, 0.55, 0.9, 0.6], 1, 3, 2),
        supp,
    ];
    let tree = build_tree(docs);
    let figures = &tree.children[0];
    let image = figures.children.iter().find(|c| c.cp_type == "image").unwrap();
    assert_eq!(image.title, "Fig 1");
    assert_eq!(image.block_ids, vec![2, 3]);
    let supp = tree.children.iter().find(|c| c.cp_type == "page_number").unwrap();
    assert_eq!(supp.title, "Page 1 - page_number");
    assert_eq!(supp.content, "12");
}

#[test]
fn cross_page_tables_merge_and_drop_partner() {
    let t1 = "<table><tr><th>A</th></tr><tr><td>1</td></tr></table>";
    let t2 = "<table><tr><th>A</th></tr><tr><td>2</td></tr></table>";
    let mut a = el("table", t1, -1, [0.1, 0.1, 0.9, 0.5], 1, 2, -1);
    a.table_merge = 3;
    let mut b = el("table", t2, -1, [0.1, 0.1, 0.9, 0.5], 2, 3, -1);
    b.table_merge = 2;
    let docs = vec![el("title", "Tables", 1, [0.0, 0.0, 1.0, 0.1], 1, 1, -1), a, b];
    let tree = build_tree(docs);
    let tables = collect_type(&tree, "table");
    assert_eq!(tables.len(), 1, "partner dropped, one merged table");
    assert_eq!(tables[0].block_ids, vec![2, 3]);
    assert!(tables[0].content.contains("<td>1</td>"));
    assert!(tables[0].content.contains("<td>2</td>"));
    assert_eq!(tables[0].location.len(), 2);
    assert_eq!(tables[0].location[1].page, 2);
    let title = tree.children.iter().find(|c| c.title == "Tables").unwrap();
    assert!(title.children.iter().any(|c| c.cp_type == "table"));
}

#[test]
fn txt_preview_indents_by_depth() {
    let docs = vec![
        el("title", "T", 1, [0.0, 0.0, 1.0, 0.1], 1, 1, -1),
        el("text", "hello world this is a fairly long body line", -1, [0.0, 0.2, 1.0, 0.3], 1, 2, -1),
    ];
    let tree = build_tree(docs);
    let txt = tree_to_txt(&tree);
    assert!(txt.contains("\n    T|hello world this is a fairly l..."));
    assert!(txt.ends_with('\n'));
}

#[test]
fn merge_html_appends_rows_without_repeated_header() {
    let t1 = "<table><tr><th>A</th></tr><tr><td>1</td></tr></table>";
    let t2 = "<table><tr><th>A</th></tr><tr><td>2</td></tr></table>";
    assert_eq!(
        merge_html(t1, t2),
        "<table><tr><th>A</th></tr><tr><td>1</td></tr><tr><td>2</td></tr></table>"
    );
    // A continuation without the header keeps all its rows.
    let t3 = "<table><tr><td>3</td></tr></table>";
    assert_eq!(
        merge_html(t1, t3),
        "<table><tr><th>A</th></tr><tr><td>1</td></tr><tr><td>3</td></tr></table>"
    );
}

#[test]
fn repeated_supplement_titles_are_numbered() {
    let mut a = el("text", "x", -1, [0.0; 4], 1, 1, -1);
    a.source_label = "header".into();
    let mut b = el("text", "y", -1, [0.0; 4], 1, 2, -1);
    b.source_label = "header".into();
    let tree = build_tree(vec![a, b]);
    let titles: Vec<&str> = tree.children.iter().filter(|c| c.cp_type == "header").map(|c| c.title.as_str()).collect();
    assert_eq!(titles, vec!["Page 1 - header", "Page 1 - header - 1"]);
}

#[test]
fn continued_text_joins_with_contd_marker() {
    let mut first = el("text", "part one", -1, [0.0; 4], 1, 1, -1);
    first.contd = 2;
    let second = el("text", "part two", -1, [0.0; 4], 1, 2, -1);
    let third = el("text", "other", -1, [0.0; 4], 1, 3, -1);
    let tree = build_tree(vec![first, second, third]);
    assert_eq!(tree.children[0].title, "Default Title");
    assert_eq!(tree.children[0].content, "part one<|txt_contd|>part two<|txt_split|>other");
}

fn comp(cp_type: &str, title: &str, content: &str, children: Vec<Component>) -> Component {
    Component {
        cp_type: cp_type.into(),
        title: title.into(),
        metadata: String::new(),
        content: content.into(),
        level: 1,
        location: Vec::new(),
        block_ids: Vec::new(),
        children,
    }
}

fn loc(page: i64) -> Location {
    Location { bbox: Vec::new(), page }
}

#[test]
fn visual_node_moves_children_to_subnode() {
    let tree = comp("image", "", "<img/>", vec![comp("text", "", "caption body", vec![])]);
    let out: SplitNode = split_subnode(tree);
    assert_eq!(out.children.len(), 0);
    let subs = out.subnode.as_ref().unwrap();
    assert_eq!(subs.len(), 1);
    assert!(subs[0].subnode.is_some());
}

#[test]
fn short_text_gets_empty_subnode() {
    let out = split_subnode(comp("text", "", "short", vec![]));
    assert_eq!(out.subnode.unwrap().len(), 0);
}

#[test]
fn long_text_splits_into_sub_text_chunks() {
    let seg = "x".repeat(600);
    let content = format!("{seg}<|txt_split|>{seg}");
    let mut node = comp("text", "Heading", &content, vec![]);
    node.location = vec![loc(1), loc(1), loc(1)];
    node.block_ids = vec![10, 11, 12];
    let out = split_tree(node);
    let subs = out.subnode.unwrap();
    assert_eq!(subs.len(), 2);
    assert_eq!(subs[0].cp_type, "sub_text");
    assert_eq!(subs[0].title, "Heading_1");
    assert_eq!(subs[0].block_ids, vec![10, 11]);
    assert_eq!(subs[1].block_ids, vec![10, 12]);
    assert!(subs[0].subnode.is_none());
}

#[test]
fn default_title_chunks_index_from_the_first_block() {
    let seg = "y".repeat(501);
    let content = format!("{seg}<|txt_contd|>{seg}");
    let mut node = comp("text", "Default Title", &content, vec![]);
    node.location = vec![loc(1), loc(2)];
    node.block_ids = vec![7, 8];
    let subs = split_subnode(node).subnode.unwrap();
    assert_eq!(subs.len(), 2);
    assert_eq!(subs[0].block_ids, vec![7]);
    assert_eq!(subs[1].block_ids, vec![8]);
    assert_eq!(subs[1].location[0].page, 2);
}

fn preorder_titles(node: &Component, out: &mut Vec<String>) {
    for c in &node.children {
        out.push(c.title.clone());
        preorder_titles(c, out);
    }
}

#[test]
fn heading_tree_keeps_document_order() {
    let docs = vec![
        el("title", "A", 1, [0.0; 4], 1, 1, -1),
        el("title", "A.1", 2, [0.0; 4], 1, 2, -1),
        el("title", "A.1.a", 3, [0.0; 4], 1, 3, -1),
        el("title", "A.2", 2, [0.0; 4], 1, 4, -1),
        el("title", "B", 1, [0.0; 4], 2, 5, -1),
        el("title", "B.x", 4, [0.0; 4], 2, 6, -1),
    ];
    let tree = build_tree(docs);
    let mut titles = Vec::new();
    preorder_titles(&tree, &mut titles);
    assert_eq!(titles, vec!["A", "A.1", "A.1.a", "A.2", "B", "B.x"]);
    assert_eq!(tree.children.len(), 2);
    assert_eq!(tree.children[1].children[0].title, "B.x");
}

#[test]
fn sub_text_chunks_hold_every_segment_in_order() {
    let segs = ["a".repeat(300), "b".repeat(300), "c".repeat(100), "d".repeat(450)];
    let content = segs.join("<|txt_split|>");
    let mut node = comp("text", "Default Title", &content, vec![]);
    node.location = vec![loc(1), loc(1), loc(2), loc(2)];
    node.block_ids = vec![1, 2, 3, 4];
    let subs = split_subnode(node).subnode.unwrap();
    let joined: String = subs.iter().map(|s| s.content.as_str()).collect();
    assert_eq!(joined, segs.concat());
    let ids: Vec<i64> = subs.iter().flat_map(|s| s.block_ids.clone()).collect();
    assert_eq!(ids, vec![1, 2, 3, 4]);
}
