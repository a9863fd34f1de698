use popo::pyliteral::{extract_last_coordinates, parse_py_literal, PyValue};
use popo::table::{
    detect_table_headers, first_data_row_span_info, last_row_span_info, parse_table,
    row_colspan_total, row_visual_columns,
};

const T1: &str = "<table><tr><th>A</th><th>B</th></tr><tr><td>1</td><td>2</td></tr></table>";
const T2: &str = "<table><tr><th>A</th><th>B</th></tr><tr><td>3</td><td>4</td></tr></table>";

fn show(v: &PyValue) -> String {
    match v {
        PyValue::List(items) => format!("[{}]", items.iter().map(show).collect::<Vec<_>>().join(", ")),
        PyValue::Str(s) => format!("{s:?}"),
        PyValue::Int(i) => i.to_string(),
        PyValue::Float(t) => t.clone(),
        PyValue::Bool(b) => b.to_string(),
        PyValue::Null => "null".into(),
    }
}

#[test]
fn parses_rows_and_spans() {
    let t = parse_table("<table><tr><td colspan=2>x</td><td>y</td></tr></table>");
    assert_eq!(t.rows.len(), 1);
    assert_eq!(t.rows[0].len(), 2);
    assert_eq!(t.rows[0][0].colspan, 2);
    assert_eq!(t.rows[0][0].text_stripped(), "x");
}

#[test]
fn total_and_effective_columns() {
    let t = parse_table("<table><tr><td colspan=2>x</td><td>y</td></tr><tr><td>a</td><td>b</td><td>c</td></tr></table>");
    assert_eq!(t.total_columns(), 3);
    let eff = t.effective_cols_per_row();
    assert_eq!(eff[&0], 3);
    assert_eq!(eff[&1], 3);
}

#[test]
fn rowspan_occupies_next_row() {
    let t = parse_table("<table><tr><td rowspan=2>x</td><td>a</td></tr><tr><td>b</td></tr></table>");
    assert_eq!(t.row_effective_columns(1), 2);
}

#[test]
fn detects_matching_header() {
    let a = parse_table(T1);
    let b = parse_table(T2);
    assert_eq!(detect_table_headers(&a, &b), 1);
}

#[test]
fn last_and_first_row_span_info() {
    let a = parse_table(T1);
    let b = parse_table(T2);
    assert_eq!(last_row_span_info(&a), vec![vec!["1".to_string(), "2".to_string()]]);
    assert_eq!(first_data_row_span_info(&b, 1), vec![vec!["3".to_string(), "4".to_string()]]);
}

#[test]
fn row_column_helpers() {
    let t = parse_table("<table><tr><td colspan=3>x</td><td>y</td></tr></table>");
    assert_eq!(row_colspan_total(&t.rows[0]), 4);
    assert_eq!(row_visual_columns(&t.rows[0]), 2);
}

#[test]
fn extracts_last_coordinate_list() {
    let v = extract_last_coordinates("Reasoning... final: [[0, 1], [1, 0]]").unwrap();
    assert_eq!(show(&v), "[[0, 1], [1, 0]]");
    assert!(extract_last_coordinates("no brackets here").is_none());
    let v2 = extract_last_coordinates("answer = [(1, 2), (3, 4)]").unwrap();
    assert_eq!(show(&v2), "[[1, 2], [3, 4]]");
}

#[test]
fn empty_list_parses() {
    let v = extract_last_coordinates("result: []").unwrap();
    assert_eq!(show(&v), "[]");
}

#[test]
fn literal_atoms_and_strings() {
    let v = parse_py_literal(" [True, None, 'a\\'b', \"c\", -3, 2.5e3, inf] ").unwrap();
    assert_eq!(show(&v), "[true, null, \"a'b\", \"c\", -3, 2.5e3, inf]");
    assert!(parse_py_literal("[1, 2").is_none());
    assert!(parse_py_literal("[1] trailing").is_none());
    assert!(parse_py_literal("[abc]").is_none());
}

#[test]
fn unbalanced_brackets_give_nothing() {
    assert!(extract_last_coordinates("x ]").is_none());
    let v = extract_last_coordinates("[1] and [2]").unwrap();
    assert_eq!(show(&v), "[2]");
}
