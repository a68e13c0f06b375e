//! Span trees: a mapping from expression source text to contiguous byte
//! ranges, one per sub-expression, used by the view to attach interaction
//! affordances to each sub-expression independently.
//!
//! The grammar here is the "empty generation context" one: no external type
//! hints are available, so the tree is the flat row of token leaves under a
//! root span that covers the whole code.  A leaf records the whitespace run
//! that precedes its token (`offset`) and the token's length (`len`); a
//! trailing whitespace run is carried by a final insertion-point leaf of
//! length zero.  Leaf extents therefore tile the code exactly, which is what
//! the round-trip law below states.
//!
//! Code containing control bytes is malformed; building a tree for it fails,
//! and the failure is absorbed into the empty tree, never surfaced.

use vstd::prelude::*;

verus! {

/// Space is the only separator byte of the grammar.
pub open spec fn is_space_byte(b: u8) -> bool {
    b == 32
}

/// Control bytes make an expression malformed: an expression is a single
/// printable line.
pub open spec fn is_control_byte(b: u8) -> bool {
    b < 32 || b == 127
}

/// Any printable non-space byte belongs to a token.
pub open spec fn is_token_byte(b: u8) -> bool {
    b > 32 && b != 127
}

/// Code is well formed when it holds no control byte.
pub open spec fn code_well_formed(s: Seq<u8>) -> bool {
    forall|i: int| 0 <= i < s.len() ==> !is_control_byte(#[trigger] s[i])
}

/// One leaf of a span tree: `offset` whitespace bytes, then `len` token
/// bytes.  The leaf's extent is the union of the two runs, so consecutive
/// leaf extents are adjacent byte ranges.
#[derive(Clone, Copy, PartialEq, Eq, Structural, Debug)]
pub struct LeafSpan {
    pub offset: usize,
    pub len: usize,
}

impl LeafSpan {
    /// Number of bytes the leaf covers, leading whitespace included.
    pub open spec fn extent(self) -> int {
        self.offset + self.len
    }
}

/// A span tree: the root span covers the whole code, and the leaves tile it
/// from left to right.  The empty tree (no leaves) stands both for empty
/// code and for the absorbed failure on malformed code.
#[derive(Clone, Debug)]
pub struct SpanTree {
    pub leaves: Vec<LeafSpan>,
}

/// Length of the maximal space run at the front of `s`.
pub open spec fn space_run(s: Seq<u8>) -> int
    decreases s.len(),
{
    if s.len() > 0 && is_space_byte(s[0]) {
        1 + space_run(s.drop_first())
    } else {
        0
    }
}

/// Length of the maximal token-byte run at the front of `s`.
pub open spec fn token_run(s: Seq<u8>) -> int
    decreases s.len(),
{
    if s.len() > 0 && is_token_byte(s[0]) {
        1 + token_run(s.drop_first())
    } else {
        0
    }
}

pub proof fn lemma_space_run_props(s: Seq<u8>)
    ensures
        0 <= space_run(s) <= s.len(),
        forall|j: int| 0 <= j < space_run(s) ==> is_space_byte(#[trigger] s[j]),
        space_run(s) < s.len() ==> !is_space_byte(s[space_run(s)]),
    decreases s.len(),
{
    if s.len() > 0 && is_space_byte(s[0]) {
        lemma_space_run_props(s.drop_first());
        assert forall|j: int| 0 <= j < space_run(s) implies is_space_byte(#[trigger] s[j]) by {
            if j > 0 {
                assert(s.drop_first()[j - 1] == s[j]);
            }
        }
        if space_run(s) < s.len() {
            assert(s.drop_first()[space_run(s) - 1] == s[space_run(s)]);
        }
    }
}

pub proof fn lemma_token_run_props(s: Seq<u8>)
    ensures
        0 <= token_run(s) <= s.len(),
        forall|j: int| 0 <= j < token_run(s) ==> is_token_byte(#[trigger] s[j]),
        token_run(s) < s.len() ==> !is_token_byte(s[token_run(s)]),
    decreases s.len(),
{
    if s.len() > 0 && is_token_byte(s[0]) {
        lemma_token_run_props(s.drop_first());
        assert forall|j: int| 0 <= j < token_run(s) implies is_token_byte(#[trigger] s[j]) by {
            if j > 0 {
                assert(s.drop_first()[j - 1] == s[j]);
            }
        }
        if token_run(s) < s.len() {
            assert(s.drop_first()[token_run(s) - 1] == s[token_run(s)]);
        }
    }
}

/// The run at the front of `s` is `k` exactly when the first `k` bytes are
/// spaces and the byte after them, if any, is not.
pub proof fn lemma_space_run_is(s: Seq<u8>, k: int)
    requires
        0 <= k <= s.len(),
        forall|j: int| 0 <= j < k ==> is_space_byte(#[trigger] s[j]),
        k < s.len() ==> !is_space_byte(s[k]),
    ensures
        space_run(s) == k,
    decreases s.len(),
{
    if k == 0 {
    } else {
        assert(is_space_byte(s[0]));
        assert forall|j: int| 0 <= j < k - 1 implies is_space_byte(#[trigger] s.drop_first()[j]) by {
            assert(s.drop_first()[j] == s[j + 1]);
        }
        if k - 1 < s.drop_first().len() {
            assert(s.drop_first()[k - 1] == s[k]);
        }
        lemma_space_run_is(s.drop_first(), k - 1);
    }
}

pub proof fn lemma_token_run_is(s: Seq<u8>, k: int)
    requires
        0 <= k <= s.len(),
        forall|j: int| 0 <= j < k ==> is_token_byte(#[trigger] s[j]),
        k < s.len() ==> !is_token_byte(s[k]),
    ensures
        token_run(s) == k,
    decreases s.len(),
{
    if k == 0 {
    } else {
        assert(is_token_byte(s[0]));
        assert forall|j: int| 0 <= j < k - 1 implies is_token_byte(#[trigger] s.drop_first()[j]) by {
            assert(s.drop_first()[j] == s[j + 1]);
        }
        if k - 1 < s.drop_first().len() {
            assert(s.drop_first()[k - 1] == s[k]);
        }
        lemma_token_run_is(s.drop_first(), k - 1);
    }
}

/// The leaf row of the span tree of well-formed code: alternate maximal
/// space runs and maximal token runs, one leaf per token, and a final
/// zero-length leaf for a trailing space run.
pub open spec fn spec_leaves(s: Seq<u8>) -> Seq<LeafSpan>
    decreases s.len(),
{
    let off = space_run(s);
    if off >= s.len() {
        if s.len() == 0 {
            Seq::empty()
        } else {
            seq![LeafSpan { offset: s.len() as usize, len: 0 }]
        }
    } else {
        let tok = token_run(s.skip(off));
        if tok < 1 {
            Seq::empty()
        } else {
            proof {
                lemma_space_run_props(s);
                lemma_token_run_props(s.skip(off));
            }
            seq![LeafSpan { offset: off as usize, len: tok as usize }] + spec_leaves(
                s.skip(off + tok),
            )
        }
    }
}

/// What `SpanTree::build` returns: the leaf row for well-formed code, the
/// empty tree for malformed code.
pub open spec fn spec_build(s: Seq<u8>) -> Seq<LeafSpan> {
    if code_well_formed(s) {
        spec_leaves(s)
    } else {
        Seq::empty()
    }
}

/// Total number of bytes a leaf row covers.
pub open spec fn leaves_extent(leaves: Seq<LeafSpan>) -> int
    decreases leaves.len(),
{
    if leaves.len() == 0 {
        0
    } else {
        leaves[0].extent() + leaves_extent(leaves.drop_first())
    }
}

pub proof fn lemma_leaves_extent_nonneg(leaves: Seq<LeafSpan>)
    ensures
        leaves_extent(leaves) >= 0,
    decreases leaves.len(),
{
    if leaves.len() > 0 {
        lemma_leaves_extent_nonneg(leaves.drop_first());
    }
}

/// The byte ranges of a leaf row, concatenated: the text the tree spans,
/// read back out of `code` starting at `pos`.
pub open spec fn leaves_concat(leaves: Seq<LeafSpan>, code: Seq<u8>, pos: int) -> Seq<u8>
    decreases leaves.len(),
{
    if leaves.len() == 0 {
        Seq::empty()
    } else {
        code.subrange(pos, pos + leaves[0].extent()) + leaves_concat(
            leaves.drop_first(),
            code,
            pos + leaves[0].extent(),
        )
    }
}

/// The leaf row of well-formed code tiles it: the extents sum to its length.
pub proof fn lemma_leaves_cover(s: Seq<u8>)
    requires
        code_well_formed(s),
        s.len() <= usize::MAX,
    ensures
        leaves_extent(spec_leaves(s)) == s.len(),
    decreases s.len(),
{
    lemma_space_run_props(s);
    let off = space_run(s);
    if off >= s.len() {
        if s.len() == 0 {
        } else {
            let l = LeafSpan { offset: s.len() as usize, len: 0 };
            let row = seq![l];
            assert(spec_leaves(s) == row);
            assert(row.drop_first() =~= Seq::<LeafSpan>::empty());
            assert(row[0] == l);
            assert(leaves_extent(row) == l.extent() + leaves_extent(row.drop_first()));
            assert(leaves_extent(Seq::<LeafSpan>::empty()) == 0);
            assert(l.extent() == s.len());
        }
    } else {
        let rest = s.skip(off);
        lemma_token_run_props(rest);
        assert(rest[0] == s[off]);
        assert(!is_control_byte(s[off]));
        assert(is_token_byte(rest[0]));
        let tok = token_run(rest);
        assert(tok >= 1);
        let tail = s.skip(off + tok);
        assert(code_well_formed(tail)) by {
            assert forall|i: int| 0 <= i < tail.len() implies !is_control_byte(
                #[trigger] tail[i],
            ) by {
                assert(tail[i] == s[i + off + tok]);
            }
        }
        lemma_leaves_cover(tail);
        let l = LeafSpan { offset: off as usize, len: tok as usize };
        let row = seq![l] + spec_leaves(tail);
        assert(spec_leaves(s) == row);
        assert(row.drop_first() =~= spec_leaves(tail));
        assert(leaves_extent(row) == l.extent() + leaves_extent(spec_leaves(tail)));
    }
}

/// Adjacent leaf extents concatenate to one contiguous range of the code.
pub proof fn lemma_concat_adjacent(leaves: Seq<LeafSpan>, code: Seq<u8>, pos: int)
    requires
        0 <= pos,
        pos + leaves_extent(leaves) <= code.len(),
    ensures
        leaves_concat(leaves, code, pos) == code.subrange(pos, pos + leaves_extent(leaves)),
    decreases leaves.len(),
{
    if leaves.len() == 0 {
        assert(code.subrange(pos, pos) =~= Seq::<u8>::empty());
    } else {
        let e0 = leaves[0].extent();
        lemma_leaves_extent_nonneg(leaves.drop_first());
        assert(leaves_extent(leaves) == e0 + leaves_extent(leaves.drop_first()));
        lemma_concat_adjacent(leaves.drop_first(), code, pos + e0);
        assert(code.subrange(pos, pos + e0) + code.subrange(
            pos + e0,
            pos + leaves_extent(leaves),
        ) =~= code.subrange(pos, pos + leaves_extent(leaves)));
    }
}

/// Round trip: for all code, the leaf spans of the built tree concatenate
/// back to the code exactly; on malformed code the tree is empty.
pub proof fn lemma_build_round_trip(code: Seq<u8>)
    requires
        code.len() <= usize::MAX,
    ensures
        code_well_formed(code) ==> leaves_concat(spec_build(code), code, 0) == code,
        !code_well_formed(code) ==> spec_build(code) == Seq::<LeafSpan>::empty(),
{
    if code_well_formed(code) {
        lemma_leaves_cover(code);
        lemma_concat_adjacent(spec_build(code), code, 0);
        assert(code.subrange(0, code.len() as int) =~= code);
    }
}

/// Scan the space run starting at `from`.
fn scan_spaces(code: &Vec<u8>, from: usize) -> (r: usize)
    requires
        from <= code@.len(),
    ensures
        from + r <= code@.len(),
        r == space_run(code@.skip(from as int)),
{
    let n = code.len();
    let mut i: usize = from;
    while i < n && *vstd::slice::slice_index_get(code.as_slice(), i) == 32u8
        invariant
            from <= i <= n,
            n == code@.len(),
            forall|j: int| from <= j < i ==> is_space_byte(#[trigger] code@[j]),
        decreases n - i,
    {
        i = i + 1;
    }
    proof {
        let s = code@.skip(from as int);
        assert forall|j: int| 0 <= j < i - from implies is_space_byte(#[trigger] s[j]) by {
            assert(s[j] == code@[from + j]);
        }
        if i - from < s.len() {
            assert(s[i - from] == code@[i as int]);
        }
        lemma_space_run_is(s, i - from);
    }
    i - from
}

/// Whether the byte at `i` belongs to a token.
fn token_byte_at(code: &Vec<u8>, i: usize) -> (r: bool)
    requires
        i < code@.len(),
    ensures
        r == is_token_byte(code@[i as int]),
{
    let b = *vstd::slice::slice_index_get(code.as_slice(), i);
    b > 32 && b != 127
}

/// Scan the token run starting at `from`.
fn scan_token(code: &Vec<u8>, from: usize) -> (r: usize)
    requires
        from <= code@.len(),
    ensures
        from + r <= code@.len(),
        r == token_run(code@.skip(from as int)),
{
    let n = code.len();
    let mut i: usize = from;
    while i < n && token_byte_at(code, i)
        invariant
            from <= i <= n,
            n == code@.len(),
            forall|j: int| from <= j < i ==> is_token_byte(#[trigger] code@[j]),
        decreases n - i,
    {
        i = i + 1;
    }
    proof {
        let s = code@.skip(from as int);
        assert forall|j: int| 0 <= j < i - from implies is_token_byte(#[trigger] s[j]) by {
            assert(s[j] == code@[from + j]);
        }
        if i - from < s.len() {
            assert(s[i - from] == code@[i as int]);
        }
        lemma_token_run_is(s, i - from);
    }
    i - from
}

/// Whether the code holds no control byte.
fn check_well_formed(code: &Vec<u8>) -> (r: bool)
    ensures
        r == code_well_formed(code@),
{
    let n = code.len();
    let mut i: usize = 0;
    while i < n
        invariant
            i <= n,
            n == code@.len(),
            forall|j: int| 0 <= j < i ==> !is_control_byte(#[trigger] code@[j]),
        decreases n - i,
    {
        let b = *vstd::slice::slice_index_get(code.as_slice(), i);
        if b < 32 || b == 127 {
            assert(is_control_byte(code@[i as int]));
            return false;
        }
        i = i + 1;
    }
    true
}

impl SpanTree {
    /// The mathematical content of the tree: its leaf row.
    pub open spec fn model(self) -> Seq<LeafSpan> {
        self.leaves@
    }

    /// The tree with no leaves: empty code, or absorbed generation failure.
    pub fn empty() -> (r: SpanTree)
        ensures
            r.leaves@ == Seq::<LeafSpan>::empty(),
    {
        let r = SpanTree { leaves: Vec::new() };
        proof {
            assert(r.leaves@ =~= Seq::<LeafSpan>::empty());
        }
        r
    }

    /// Parse `code` into its span tree under the empty generation context.
    /// Malformed code yields the empty tree rather than an error: a
    /// malformed or partially typed expression must still render.
    pub fn build(code: &Vec<u8>) -> (r: SpanTree)
        ensures
            r.leaves@ == spec_build(code@),
    {
        if !check_well_formed(code) {
            return SpanTree::empty();
        }
        let n = code.len();
        let mut leaves: Vec<LeafSpan> = Vec::new();
        let mut i: usize = 0;
        proof {
            assert(code@.skip(0) =~= code@);
        }
        while i < n
            invariant
                i <= n,
                n == code@.len(),
                code_well_formed(code@),
                spec_leaves(code@) == leaves@ + spec_leaves(code@.skip(i as int)),
            decreases n - i,
        {
            let off = scan_spaces(code, i);
            let ghost s = code@.skip(i as int);
            proof {
                assert(space_run(s) == off);
                lemma_space_run_props(s);
            }
            if i + off == n {
                // Only a trailing space run is left; it becomes a final
                // zero-length insertion-point leaf.
                let l = LeafSpan { offset: off, len: 0 };
                proof {
                    assert(s.len() == off);
                    assert(off > 0);
                    assert(spec_leaves(s) == seq![l]);
                    assert(leaves@ + spec_leaves(s) =~= leaves@.push(l));
                }
                leaves.push(l);
                i = n;
                proof {
                    assert(code@.skip(n as int) =~= Seq::<u8>::empty());
                    assert(spec_leaves(code@.skip(n as int)) == Seq::<LeafSpan>::empty());
                    assert(leaves@ + Seq::<LeafSpan>::empty() =~= leaves@);
                }
            } else {
                let tok = scan_token(code, i + off);
                let ghost srest = code@.skip(i as int + off);
                proof {
                    assert(srest =~= s.skip(off as int));
                    assert(token_run(s.skip(off as int)) == tok);
                    lemma_token_run_props(s.skip(off as int));
                    assert(s.skip(off as int)[0] == code@[i + off]);
                    assert(!is_control_byte(code@[i + off]));
                    assert(off < s.len());
                    assert(!is_space_byte(s[off as int]));
                    assert(s[off as int] == code@[i + off]);
                    assert(is_token_byte(s.skip(off as int)[0]));
                    assert(tok >= 1);
                }
                let l = LeafSpan { offset: off, len: tok };
                proof {
                    assert(spec_leaves(s) == seq![l] + spec_leaves(s.skip(off + tok)));
                    assert(s.skip(off + tok) =~= code@.skip(i as int + off + tok));
                    assert(leaves@ + (seq![l] + spec_leaves(s.skip(off + tok))) =~= leaves@.push(
                        l,
                    ) + spec_leaves(s.skip(off + tok)));
                }
                leaves.push(l);
                i = i + off + tok;
            }
        }
        proof {
            assert(code@.skip(n as int) =~= Seq::<u8>::empty());
            assert(spec_leaves(code@.skip(n as int)) == Seq::<LeafSpan>::empty());
            assert(leaves@ + Seq::<LeafSpan>::empty() =~= leaves@);
        }
        SpanTree { leaves }
    }

    /// Number of leaves of the tree.
    pub fn leaf_count(&self) -> (r: usize)
        ensures
            r == self.leaves@.len(),
    {
        self.leaves.len()
    }

    /// The length of the root span: the total number of bytes the leaf row
    /// covers.
    pub fn root_span_len(&self) -> (r: usize)
        requires
            leaves_extent(self.leaves@) <= usize::MAX,
        ensures
            r == leaves_extent(self.leaves@),
    {
        let n = self.leaves.len();
        let mut sum: usize = 0;
        let mut i: usize = 0;
        proof {
            assert(self.leaves@.skip(0) =~= self.leaves@);
        }
        while i < n
            invariant
                i <= n,
                n == self.leaves@.len(),
                leaves_extent(self.leaves@) <= usize::MAX,
                sum + leaves_extent(self.leaves@.skip(i as int)) == leaves_extent(self.leaves@),
            decreases n - i,
        {
            let l = self.leaves[i];
            proof {
                let rest = self.leaves@.skip(i as int);
                assert(rest[0] == self.leaves@[i as int]);
                assert(rest.drop_first() =~= self.leaves@.skip(i as int + 1));
                assert(leaves_extent(rest) == l.extent() + leaves_extent(
                    self.leaves@.skip(i as int + 1),
                ));
                lemma_leaves_extent_nonneg(self.leaves@.skip(i as int + 1));
            }
            sum = sum + l.offset + l.len;
            i = i + 1;
        }
        proof {
            assert(self.leaves@.skip(n as int) =~= Seq::<LeafSpan>::empty());
        }
        sum
    }
}

/// Structural equality of leaf rows.
fn leaves_eq(a: &Vec<LeafSpan>, b: &Vec<LeafSpan>) -> (r: bool)
    ensures
        r == (a@ == b@),
{
    if a.len() != b.len() {
        return false;
    }
    let n = a.len();
    let mut i: usize = 0;
    while i < n
        invariant
            i <= n,
            n == a@.len() == b@.len(),
            forall|j: int| 0 <= j < i ==> a@[j] == b@[j],
        decreases n - i,
    {
        let x = a[i];
        let y = b[i];
        if !(x.offset == y.offset && x.len == y.len) {
            assert(a@[i as int] != b@[i as int]);
            return false;
        }
        i = i + 1;
    }
    proof {
        assert(a@ =~= b@);
    }
    true
}

impl PartialEq for SpanTree {
    /// Two span trees are equal exactly when their leaf rows are.
    fn eq(&self, other: &SpanTree) -> bool {
        leaves_eq(&self.leaves, &other.leaves)
    }
}

impl Eq for SpanTree {

}

impl vstd::std_specs::cmp::PartialEqSpecImpl for SpanTree {
    open spec fn obeys_eq_spec() -> bool {
        true
    }

    open spec fn eq_spec(&self, other: &SpanTree) -> bool {
        self.leaves@ == other.leaves@
    }
}

} // verus!
