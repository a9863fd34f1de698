use popo::cli::{join_path, limited_count, RunArgs};

#[test]
fn join_path_adds_one_separator() {
    assert_eq!(join_path("work", "tree"), "work/tree");
    assert_eq!(join_path("work/", "tree"), "work/tree");
    assert_eq!(join_path("", "tree"), "tree");
    assert_eq!(join_path("work", "/abs"), "/abs");
}

#[test]
fn run_lays_stages_out_under_the_work_dir() {
    let args = RunArgs {
        model: "mineru".into(),
        input_dir: "in".into(),
        work_dir: "wd".into(),
        provider: Some("ds".into()),
        pdf_dir: None,
        doc_limit: 3,
    };
    let (n, i, b, s) = args.stage_plan();
    assert_eq!(n.model, "mineru");
    assert_eq!(n.input_dir, "in");
    assert_eq!(n.output_dir, "wd/normalized");
    assert_eq!(n.doc_limit, 3);
    assert_eq!(i.input_dir, "wd/normalized/mineru");
    assert_eq!(i.output_dir, "wd/inference");
    assert_eq!(i.provider.as_deref(), Some("ds"));
    assert_eq!(i.pdf_dir, None);
    assert_eq!(b.input_dir, "wd/inference");
    assert_eq!(b.output_dir, "wd/tree");
    assert_eq!(b.txt_dir, "wd/tree_txt");
    assert_eq!(s.input_dir, "wd/tree");
    assert_eq!(s.output_dir, "wd/final");
}

#[test]
fn doc_limit_zero_keeps_everything() {
    assert_eq!(limited_count(5, 0), 5);
    assert_eq!(limited_count(5, 2), 2);
    assert_eq!(limited_count(5, 9), 5);
}
