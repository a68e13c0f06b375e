//! An expression as the view displays it: source code paired with an input
//! span tree (argument positions, used for connection endpoints) and an
//! output span tree (the result's decomposition, used for pattern-based
//! connections).
//!
//! The input tree, when not supplied from outside, is regenerated
//! deterministically from the code; a generation failure yields an empty
//! tree, never an error.  The pairing of input and output trees is not
//! cross-validated: whether mismatched trees are intended flexibility or a
//! latent defect is left open here, deliberately.

use vstd::prelude::*;

use vstd::std_specs::cmp::PartialEqSpec;

use crate::span_tree::LeafSpan;
use crate::span_tree::SpanTree;
use crate::span_tree::spec_build;

verus! {

/// Source code with its two span trees.
#[derive(Clone, Debug)]
pub struct Expression {
    pub code: Vec<u8>,
    pub input_span_tree: SpanTree,
    pub output_span_tree: SpanTree,
}

/// Byte-wise equality of two code buffers.
pub fn bytes_eq(a: &Vec<u8>, b: &Vec<u8>) -> (r: bool)
    ensures
        r == (a@ == b@),
{
    if a.len() != b.len() {
        return false;
    }
    let n = a.len();
    let mut i: usize = 0;
    while i < n
        invariant
            i <= n,
            n == a@.len() == b@.len(),
            forall|j: int| 0 <= j < i ==> a@[j] == b@[j],
        decreases n - i,
    {
        if a[i] != b[i] {
            assert(a@[i as int] != b@[i as int]);
            return false;
        }
        i = i + 1;
    }
    proof {
        assert(a@ =~= b@);
    }
    true
}

/// A copy of a code buffer, byte for byte.
pub fn clone_bytes(v: &Vec<u8>) -> (r: Vec<u8>)
    ensures
        r@ == v@,
{
    let r = v.clone();
    proof {
        assert(r@ =~= v@);
    }
    r
}

impl Expression {
    /// Two expressions are the same exactly when code and both trees are
    /// structurally equal.
    pub open spec fn structural_eq(self, other: Expression) -> bool {
        &&& self.code@ == other.code@
        &&& self.input_span_tree.leaves@ == other.input_span_tree.leaves@
        &&& self.output_span_tree.leaves@ == other.output_span_tree.leaves@
    }

    /// The expression that displaying plain `code` yields: the input tree
    /// regenerated from the code, the output tree empty.
    pub open spec fn models_plain(self, code: Seq<u8>) -> bool {
        &&& self.code@ == code
        &&& self.input_span_tree.leaves@ == spec_build(code)
        &&& self.output_span_tree.leaves@ == Seq::<LeafSpan>::empty()
    }

    /// Constructor without an output tree and with the input tree
    /// regenerated from the code under the empty generation context.
    pub fn new_plain(code: Vec<u8>) -> (r: Expression)
        ensures
            r.models_plain(code@),
    {
        let input_span_tree = SpanTree::build(&code);
        Expression { code, input_span_tree, output_span_tree: SpanTree::empty() }
    }

    /// Pair a separately computed output tree with the input tree
    /// regenerated from the code.  No validation relates the two trees.
    pub fn with_output_tree(code: Vec<u8>, output_span_tree: SpanTree) -> (r: Expression)
        ensures
            r.code@ == code@,
            r.input_span_tree.leaves@ == spec_build(code@),
            r.output_span_tree == output_span_tree,
    {
        let input_span_tree = SpanTree::build(&code);
        Expression { code, input_span_tree, output_span_tree }
    }
}

impl PartialEq for Expression {
    /// Equality is structural: code and both trees.  It is what detects
    /// no-op updates, so that an unchanged expression causes no refresh.
    fn eq(&self, other: &Expression) -> bool {
        bytes_eq(&self.code, &other.code) && self.input_span_tree == other.input_span_tree
            && self.output_span_tree == other.output_span_tree
    }
}

impl Eq for Expression {

}

impl vstd::std_specs::cmp::PartialEqSpecImpl for Expression {
    open spec fn obeys_eq_spec() -> bool {
        true
    }

    open spec fn eq_spec(&self, other: &Expression) -> bool {
        self.structural_eq(*other)
    }
}

/// Law: two expressions with identical code and structurally equal trees
/// are equal under the library's equality.
pub proof fn lemma_expression_equality(e1: Expression, e2: Expression)
    requires
        e1.code@ == e2.code@,
        e1.input_span_tree.leaves@ == e2.input_span_tree.leaves@,
        e1.output_span_tree.leaves@ == e2.output_span_tree.leaves@,
    ensures
        e1.structural_eq(e2),
        e1.eq_spec(&e2),
{
}

} // verus!
