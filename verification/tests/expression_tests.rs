use graph_presenter::expression::Expression;
use graph_presenter::span_tree::SpanTree;

#[test]
fn new_plain_regenerates_the_input_tree() {
    let e = Expression::new_plain(b"1 + 2".to_vec());
    assert_eq!(e.code, b"1 + 2".to_vec());
    assert_eq!(e.input_span_tree.leaf_count(), 3);
    assert_eq!(e.output_span_tree.leaf_count(), 0);
}

#[test]
fn new_plain_absorbs_generation_failure() {
    let e = Expression::new_plain(b"a\rb".to_vec());
    assert_eq!(e.code, b"a\rb".to_vec());
    assert_eq!(e.input_span_tree.leaf_count(), 0);
}

#[test]
fn expressions_with_equal_code_and_trees_are_equal() {
    let e1 = Expression::new_plain(b"1 + 2".to_vec());
    let e2 = Expression::new_plain(b"1 + 2".to_vec());
    assert!(e1 == e2);
}

#[test]
fn expressions_differing_in_code_are_not_equal() {
    let e1 = Expression::new_plain(b"1 + 2".to_vec());
    let e2 = Expression::new_plain(b"1 + 3".to_vec());
    assert!(e1 != e2);
}

#[test]
fn expressions_differing_in_output_tree_are_not_equal() {
    let output = SpanTree::build(&b"a b".to_vec());
    let plain = Expression::new_plain(b"1 + 2".to_vec());
    let paired = Expression::with_output_tree(b"1 + 2".to_vec(), output);
    assert!(plain != paired);
}

#[test]
fn with_output_tree_pairs_without_validation() {
    let output = SpanTree::build(&b"pair a b".to_vec());
    let e = Expression::with_output_tree(b"1".to_vec(), output);
    assert_eq!(e.input_span_tree.leaf_count(), 1);
    assert_eq!(e.output_span_tree.leaf_count(), 3);
}
