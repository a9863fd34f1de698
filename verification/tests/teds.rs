use popo::eval::{count_nodes_excluding_root, tree_edit_distance};

fn nodes(v: &[(&str, i64)]) -> Vec<(String, i64)> {
    v.iter().map(|(l, k)| (l.to_string(), *k)).collect()
}

#[test]
fn identical_trees_zero_distance() {
    let a = nodes(&[("A", 1), ("B", 2)]);
    assert_eq!(tree_edit_distance(&a, &a), 0);
}

#[test]
fn single_rename_costs_one() {
    let a = nodes(&[("A", 1)]);
    let b = nodes(&[("X", 1)]);
    assert_eq!(tree_edit_distance(&a, &b), 1);
}

#[test]
fn insert_node_costs_one() {
    let a = nodes(&[("A", 1)]);
    let b = nodes(&[("A", 1), ("B", 2)]);
    assert_eq!(tree_edit_distance(&a, &b), 1);
    assert_eq!(count_nodes_excluding_root(&b), 2);
}

#[test]
fn moving_a_child_to_sibling_costs_two() {
    // ROOT(A(B)) vs ROOT(A, B): delete B under A, insert B under ROOT.
    let a = nodes(&[("A", 1), ("B", 2)]);
    let b = nodes(&[("A", 1), ("B", 1)]);
    assert_eq!(tree_edit_distance(&a, &b), 2);
}

#[test]
fn distance_to_empty_tree_counts_nodes() {
    let a = nodes(&[("A", 1), ("B", 2), ("C", 1)]);
    let empty: Vec<(String, i64)> = Vec::new();
    assert_eq!(tree_edit_distance(&a, &empty), 3);
    assert_eq!(tree_edit_distance(&empty, &a), 3);
    assert_eq!(count_nodes_excluding_root(&empty), 0);
}

#[test]
fn distance_is_symmetric_on_an_example() {
    let a = nodes(&[("A", 1), ("B", 2), ("C", 3), ("D", 1)]);
    let b = nodes(&[("A", 1), ("C", 2), ("D", 1), ("E", 2)]);
    assert_eq!(tree_edit_distance(&a, &b), tree_edit_distance(&b, &a));
    assert_eq!(tree_edit_distance(&a, &b), 2);
}
