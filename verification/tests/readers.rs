use popo::errors::Error;
use popo::readers::{build_reader, OcrReader, 
    collect_blocks, dolphin_page, extract_block_content, extract_middle_text, make_block,
    map_dolphin_label, map_glm_label, map_mineru_label, map_paddle_label, order_by_optional_key,
    reassign_block_ids, DolphinReader, GlmOcrReader, LabelScheme, MineruReader, MonkeyOcrReader,
    PaddleReader, ReaderBlock, ReaderItem, ReaderResult, SKIP_TYPE,
};

fn item(page: i64, label: &str, content: &str) -> ReaderItem {
    ReaderItem { page, label: label.into(), content: content.into(), text_level: None }
}

fn strings(v: &[&str]) -> Vec<String> {
    v.iter().map(|s| s.to_string()).collect()
}

#[test]
fn sec_levels_and_labels() {
    assert_eq!(map_dolphin_label("sec_1"), ("title", "title", Some(1)));
    assert_eq!(map_dolphin_label("sec_12"), ("title", "title", Some(12)));
    assert_eq!(map_dolphin_label("sec_0"), ("text", "text", None));
    assert_eq!(map_dolphin_label("catalogue"), ("title", "title", Some(1)));
    assert_eq!(map_dolphin_label("tab"), ("table", "table", None));
    assert_eq!(map_dolphin_label("equ"), ("text", "equation", None));
}

#[test]
fn glm_label_mapping() {
    assert_eq!(map_glm_label("paragraph_title"), ("title", "title"));
    assert_eq!(map_glm_label("seal"), ("image", "image"));
    assert_eq!(map_glm_label("formula"), ("text", "equation"));
}

#[test]
fn label_mapping_matches_python() {
    assert_eq!(map_mineru_label("title"), ("title", "title"));
    assert_eq!(map_mineru_label("table"), ("table", "table"));
    assert_eq!(map_mineru_label("image_caption"), ("caption", "image_caption"));
    assert_eq!(map_mineru_label("equation"), ("text", "equation"));
    assert_eq!(map_mineru_label("list"), ("text", "list_item"));
    assert_eq!(map_mineru_label("discarded"), (SKIP_TYPE, SKIP_TYPE));
    assert_eq!(map_mineru_label("number"), ("text", "page_number"));
    assert_eq!(map_mineru_label("whatever"), ("text", "text"));
}

#[test]
fn paddle_label_mapping() {
    assert_eq!(map_paddle_label("doc_title"), ("title", "title"));
    assert_eq!(map_paddle_label("chart"), ("image", "image"));
    assert_eq!(map_paddle_label("figure_title"), ("caption", "image_caption"));
    assert_eq!(map_paddle_label("display_formula"), ("text", "equation"));
}

#[test]
fn content_prefers_content_then_falls_back_to_spans() {
    assert_eq!(extract_block_content(&strings(&["  hello  world "]), &Vec::new()), "hello world");
    let lines = vec![strings(&["foo ", "bar"]), strings(&["baz"])];
    assert_eq!(extract_block_content(&Vec::new(), &lines), "foo bar baz");
}

#[test]
fn words_array_joins() {
    // The `words` array, read as its items joined by spaces.
    assert_eq!(extract_block_content(&strings(&["a b c"]), &Vec::new()), "a b c");
}

#[test]
fn unknown_canonical_type_collapses_to_text() {
    let blk = make_block("d", 0, 1, "weird", "x", "weird", None, None, 0);
    assert_eq!(blk.kind, "text");
    assert_eq!(blk.block_id, "d:0");
}

#[test]
fn empty_span_lines_are_dropped() {
    let lines = vec![strings(&["  "]), strings(&["a", " b"]), strings(&[])];
    assert_eq!(extract_middle_text(&lines), "a b");
    assert_eq!(extract_block_content(&strings(&["", "  x "]), &Vec::new()), "x");
}

#[test]
fn reads_pages_with_reading_order_and_page_number() {
    // Two elements read in reverse, ordered by their reading order.
    let raw = vec![(Some(2), item(0, "text", "b")), (Some(1), item(0, "sec_2", "Heading"))];
    let order = order_by_optional_key(&raw.iter().map(|(k, _)| *k).collect());
    assert_eq!(order, vec![1, 0]);
    let page = dolphin_page(Some(3), 1);
    let items: Vec<ReaderItem> = order
        .iter()
        .map(|&i| ReaderItem { page, ..item(0, &raw[i].1.label, &raw[i].1.content) })
        .collect();
    let blocks = collect_blocks("doc", LabelScheme::Dolphin, &items);
    let res = ReaderResult::ok("dolphin", "doc", blocks);
    assert_eq!(res.blocks.len(), 2);
    assert_eq!(res.blocks[0].kind, "title");
    assert_eq!(res.blocks[0].title_level, Some(2));
    assert_eq!(res.blocks[0].page, 3);
    assert_eq!(res.blocks[1].content, "b");
}

#[test]
fn dolphin_page_falls_back_to_position() {
    assert_eq!(dolphin_page(Some(0), 4), 4);
    assert_eq!(dolphin_page(None, 2), 2);
    assert_eq!(dolphin_page(Some(7), 2), 7);
}

#[test]
fn unkeyed_items_follow_keyed_ones() {
    let keys = vec![None, Some(5), Some(1), None, Some(5)];
    assert_eq!(order_by_optional_key(&keys), vec![2, 1, 4, 0, 3]);
}

#[test]
fn content_list_items_promote_titles_and_skip_discarded() {
    let items = vec![
        ReaderItem { text_level: Some(1), ..item(1, "text", "hi") },
        item(1, "discarded", "junk"),
        item(2, "text", "body"),
        item(2, "text", "   "),
    ];
    let blocks = collect_blocks("doc", LabelScheme::Mineru, &items);
    let res = ReaderResult::ok("mineru", "doc", blocks);
    assert_eq!(res.status, "ok");
    assert_eq!(res.blocks.len(), 2);
    assert_eq!(res.blocks[0].kind, "title");
    assert_eq!(res.blocks[0].popo_type, "title");
    assert_eq!(res.blocks[0].title_level, Some(1));
    assert_eq!(res.blocks[0].page, 1);
    assert_eq!(res.blocks[0].item, 0);
    assert_eq!(res.blocks[1].block_id, "doc:1");
    assert_eq!(res.blocks[1].content, "body");
    assert_eq!(res.blocks[1].item, 2);
}

#[test]
fn words_result_lines_are_plain_text() {
    let items = vec![item(1, "words_result", "hello"), item(1, "words_result", "  ")];
    let blocks = collect_blocks("doc", LabelScheme::Words, &items);
    assert_eq!(blocks.len(), 1);
    assert_eq!(blocks[0].content, "hello");
    assert_eq!(blocks[0].source_label.as_deref(), Some("words_result"));
}

#[test]
fn paddle_items_keep_their_label() {
    let items = vec![item(1, "doc_title", "first"), item(1, "text", "second")];
    let blocks = collect_blocks("doc", LabelScheme::Paddle, &items);
    assert_eq!(blocks[0].kind, "title");
    assert_eq!(blocks[0].source_label.as_deref(), Some("doc_title"));
    assert_eq!(blocks[1].content, "second");
}

#[test]
fn reassign_renumbers_in_reading_order() {
    let blk = |page: i64, order: i64, content: &str| ReaderBlock {
        block_id: "old".into(),
        page,
        kind: "text".into(),
        content: content.into(),
        order,
        popo_type: "text".into(),
        title_level: None,
        source_label: None,
        item: 0,
    };
    let out = reassign_block_ids(vec![blk(2, 99, "b"), blk(1, 5, "a")], "doc");
    assert_eq!(out[0].block_id, "doc:0");
    assert_eq!(out[0].content, "a");
    assert_eq!(out[1].block_id, "doc:1");
    assert_eq!(out[1].order, 1);
}

#[test]
fn missing_result_has_no_blocks() {
    let res = ReaderResult::missing("mineru", "doc", "missing x".into());
    assert_eq!(res.status, "missing");
    assert!(res.blocks.is_empty());
    assert_eq!(res.message, "missing x");
}

#[test]
fn readers_report_their_model_and_layout() {
    let m = MineruReader::new("/in");
    assert_eq!(m.model_name(), "mineru");
    assert_eq!(m.root(), "/in");
    assert_eq!(m.inner_dir(), "vlm");
    let k = MonkeyOcrReader::new("/in");
    assert_eq!(k.model_name(), "monkeyocr");
    assert_eq!(k.root(), "/in");
    assert_eq!(PaddleReader::new("/p").model_name(), "PaddleOCR-VL-1.5");
    assert_eq!(DolphinReader::new("/d").model_name(), "dolphin");
    assert_eq!(GlmOcrReader::new("/g").model_name(), "glm-ocr");
}

#[test]
fn reader_orders_blocks_by_page() {
    let reader = MineruReader::new("/unused");
    let items = vec![item(2, "text", "later"), item(1, "title", "first"), item(1, "discarded", "x")];
    let res = reader.read_items("doc", &items);
    assert_eq!(res.model_name, "mineru");
    assert_eq!(res.status, "ok");
    assert_eq!(res.blocks.len(), 2);
    assert_eq!(res.blocks[0].content, "first");
    assert_eq!(res.blocks[0].block_id, "doc:0");
    assert_eq!(res.blocks[1].content, "later");
    assert_eq!(res.blocks[1].order, 1);
}

#[test]
fn glm_reader_reads_layouts_and_word_lines() {
    let reader = GlmOcrReader::new("/unused");
    let layout = reader.read_items("d", &vec![item(1, "doc_title", "T"), item(1, "seal", "")]);
    assert_eq!(layout.blocks.len(), 2);
    assert_eq!(layout.blocks[0].kind, "title");
    assert_eq!(layout.blocks[1].kind, "image");
    let words = reader.read_words("d", &vec![item(1, "x", "line"), item(2, "y", " ")]);
    assert_eq!(words.blocks.len(), 1);
    assert_eq!(words.blocks[0].kind, "text");
    let paddle = PaddleReader::new("/unused").read_items("d", &vec![item(1, "figure_title", "cap")]);
    assert_eq!(paddle.blocks[0].popo_type, "image_caption");
    let dolphin = DolphinReader::new("/unused").read_items("d", &vec![item(3, "catalogue", "Contents")]);
    assert_eq!(dolphin.blocks[0].title_level, Some(1));
    assert_eq!(dolphin.blocks[0].page, 3);
    let monkey = MonkeyOcrReader::new("/unused").read_items("d", &vec![item(1, "list", "- a")]);
    assert_eq!(monkey.model_name, "monkeyocr");
    assert_eq!(monkey.blocks[0].popo_type, "list_item");
}

#[test]
fn build_reader_resolves_all_five_models() {
    match build_reader("dolphin", "/in") {
        Ok(OcrReader::Dolphin(r)) => assert_eq!((r.model_name(), r.root()), ("dolphin", "/in")),
        other => panic!("unexpected {other:?}"),
    }
    match build_reader("PaddleOCR-VL-1.5", "/p") {
        Ok(OcrReader::Paddle(r)) => assert_eq!(r.root(), "/p"),
        other => panic!("unexpected {other:?}"),
    }
    match build_reader("glm-ocr", "/g") {
        Ok(OcrReader::Glm(r)) => assert_eq!(r.model_name(), "glm-ocr"),
        other => panic!("unexpected {other:?}"),
    }
    match build_reader("mineru", "/in") {
        Ok(OcrReader::Mineru(r)) => assert_eq!(r.inner_dir(), "vlm"),
        other => panic!("unexpected {other:?}"),
    }
    match build_reader("monkeyocr", "/in") {
        Ok(OcrReader::MonkeyOcr(r)) => assert_eq!(r.model_name(), "monkeyocr"),
        other => panic!("unexpected {other:?}"),
    }
    match build_reader("dots", "/in") {
        Err(Error::Config(m)) => {
            assert_eq!(m, "unsupported model \"dots\" (supported: mineru, monkeyocr, dolphin, PaddleOCR-VL-1.5, glm-ocr)")
        }
        other => panic!("unexpected {other:?}"),
    }
}

// The reader tests below give the items as the readers' JSON walk yields
// them; box scaling is done where the JSON is read, so boxes are not checked.

#[test]
fn content_list_promotes_title_and_skips_discarded() {
    let reader = MineruReader::new("/unused");
    let items = vec![
        ReaderItem { text_level: Some(1), ..item(1, "text", "hi") },
        item(1, "discarded", "junk"),
        item(2, "text", "body"),
    ];
    let res = reader.read_items("doc", &items);
    assert_eq!(res.status, "ok");
    assert_eq!(res.blocks.len(), 2);
    assert_eq!(res.blocks[0].kind, "title");
    assert_eq!(res.blocks[0].popo_type, "title");
    assert_eq!(res.blocks[0].title_level, Some(1));
    assert_eq!(res.blocks[0].page, 1);
    assert_eq!(res.blocks[1].block_id, "doc:1");
    assert_eq!(res.blocks[1].content, "body");
}

#[test]
fn middle_reads_page_size_and_para_blocks() {
    let reader = MineruReader::new("/unused");
    let content = extract_block_content(&Vec::new(), &vec![strings(&["Heading"])]);
    let res = reader.read_items("doc", &vec![item(1, "title", &content)]);
    assert_eq!(res.blocks.len(), 1);
    let b = &res.blocks[0];
    assert_eq!(b.kind, "title");
    assert_eq!(b.content, "Heading");
    assert_eq!(b.page, 1);
}

#[test]
fn layout_parsing_orders_by_block_order_and_normalizes() {
    let reader = PaddleReader::new("/unused");
    let raw = vec![item(1, "text", "second"), item(1, "doc_title", "first")];
    let order = order_by_optional_key(&vec![Some(2), Some(1)]);
    let items: Vec<ReaderItem> =
        order.iter().map(|&i| item(raw[i].page, &raw[i].label, &raw[i].content)).collect();
    let res = reader.read_items("doc", &items);
    assert_eq!(res.blocks.len(), 2);
    assert_eq!(res.blocks[0].kind, "title");
    assert_eq!(res.blocks[0].content, "first");
    assert_eq!(res.blocks[1].content, "second");
}

#[test]
fn model_json_uses_bbox_2d_with_assumed_scale() {
    let reader = GlmOcrReader::new("/unused");
    let res = reader.read_items("doc", &vec![item(1, "doc_title", "Title"), item(1, "text", "para")]);
    assert_eq!(res.blocks.len(), 2);
    assert_eq!(res.blocks[0].kind, "title");
}

#[test]
fn pages_words_result_builds_bbox_from_location() {
    let reader = GlmOcrReader::new("/unused");
    let res = reader.read_words("doc", &vec![item(1, "words_result", "hello"), item(1, "words_result", "  ")]);
    assert_eq!(res.blocks.len(), 1);
    assert_eq!(res.blocks[0].content, "hello");
}
