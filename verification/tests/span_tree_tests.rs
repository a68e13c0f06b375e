use graph_presenter::span_tree::LeafSpan;
use graph_presenter::span_tree::SpanTree;

/// Walk the leaf row and read each leaf's byte range back out of the code.
fn reconstruct(tree: &SpanTree, code: &[u8]) -> Vec<u8> {
    let mut out = Vec::new();
    let mut pos = 0usize;
    for leaf in &tree.leaves {
        let end = pos + leaf.offset + leaf.len;
        out.extend_from_slice(&code[pos..end]);
        pos = end;
    }
    out
}

#[test]
fn three_leaves_under_root_for_one_plus_two() {
    let code = b"1 + 2".to_vec();
    let tree = SpanTree::build(&code);
    assert_eq!(tree.leaf_count(), 3);
    assert_eq!(tree.leaves[0], LeafSpan { offset: 0, len: 1 });
    assert_eq!(tree.leaves[1], LeafSpan { offset: 1, len: 1 });
    assert_eq!(tree.leaves[2], LeafSpan { offset: 1, len: 1 });
    assert_eq!(tree.root_span_len(), 5);
}

#[test]
fn leaf_spans_reconstruct_the_code() {
    let code = b"sum  a 12 +x".to_vec();
    let tree = SpanTree::build(&code);
    assert_eq!(tree.root_span_len(), code.len());
    assert_eq!(reconstruct(&tree, &code), code);
}

#[test]
fn trailing_spaces_become_an_insertion_point_leaf() {
    let code = b"f x  ".to_vec();
    let tree = SpanTree::build(&code);
    assert_eq!(tree.leaf_count(), 3);
    assert_eq!(tree.leaves[2], LeafSpan { offset: 2, len: 0 });
    assert_eq!(tree.root_span_len(), 5);
    assert_eq!(reconstruct(&tree, &code), code);
}

#[test]
fn leading_spaces_belong_to_the_first_leaf() {
    let code = b"  x".to_vec();
    let tree = SpanTree::build(&code);
    assert_eq!(tree.leaf_count(), 1);
    assert_eq!(tree.leaves[0], LeafSpan { offset: 2, len: 1 });
    assert_eq!(reconstruct(&tree, &code), code);
}

#[test]
fn empty_code_yields_the_empty_tree() {
    let code = Vec::new();
    let tree = SpanTree::build(&code);
    assert_eq!(tree.leaf_count(), 0);
    assert_eq!(tree.root_span_len(), 0);
}

#[test]
fn all_spaces_yield_one_empty_leaf() {
    let code = b"   ".to_vec();
    let tree = SpanTree::build(&code);
    assert_eq!(tree.leaf_count(), 1);
    assert_eq!(tree.leaves[0], LeafSpan { offset: 3, len: 0 });
    assert_eq!(reconstruct(&tree, &code), code);
}

#[test]
fn malformed_code_yields_the_empty_tree() {
    let code = b"1 +\n2".to_vec();
    let tree = SpanTree::build(&code);
    assert_eq!(tree.leaf_count(), 0);
    let tab = b"a\tb".to_vec();
    assert_eq!(SpanTree::build(&tab).leaf_count(), 0);
}

#[test]
fn multibyte_tokens_span_their_bytes() {
    let code = "π + 1".as_bytes().to_vec();
    let tree = SpanTree::build(&code);
    assert_eq!(tree.leaf_count(), 3);
    assert_eq!(tree.leaves[0], LeafSpan { offset: 0, len: 2 });
    assert_eq!(reconstruct(&tree, &code), code);
}

#[test]
fn span_tree_equality_is_structural() {
    let a = SpanTree::build(&b"x y".to_vec());
    let b = SpanTree::build(&b"x y".to_vec());
    let c = SpanTree::build(&b"x  y".to_vec());
    assert!(a == b);
    assert!(a != c);
}
