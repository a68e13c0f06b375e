//! The displayed-state mirror: which backend nodes and connections the view
//! currently shows, and under which view-side identifiers.
//!
//! Each backend node id maps to at most one view id and vice versa; the
//! same holds for connections.  Stale mappings are pruned by set-difference
//! against the latest backend node and connection lists on every refresh
//! cycle.  All view-side identifiers are allocated here from one counter,
//! which keeps the mappings injective by construction.

use vstd::prelude::*;


use crate::expression::Expression;
use crate::expression::clone_bytes;
use crate::span_tree::spec_build;

verus! {

/// A node position on the canvas, in fixed-point canvas units.
#[derive(Clone, Copy, PartialEq, Eq, Structural, Debug)]
pub struct Position {
    pub x: i64,
    pub y: i64,
}

/// A backend connection: a source port on one node wired to a target port
/// on another.  Ports are numbered positions within the node's span tree.
#[derive(Clone, Copy, PartialEq, Eq, Structural, Debug)]
pub struct Connection {
    pub source_node: u64,
    pub source_port: u64,
    pub target_node: u64,
    pub target_port: u64,
}

/// A resolved method pointer: where the method called by a sub-expression
/// is defined.
#[derive(Clone, Debug)]
pub struct MethodPointer {
    pub module: Vec<u8>,
    pub name: Vec<u8>,
}

/// Per-sub-expression annotations the view shows: the inferred type name
/// and the resolved method pointer, when known.
#[derive(Clone, Debug)]
pub struct SubexpressionInfo {
    pub id: u64,
    pub typename: Option<Vec<u8>>,
    pub method_pointer: Option<MethodPointer>,
}

/// One backend node as a refresh cycle sees it.
#[derive(Clone, Debug)]
pub struct NodeInfo {
    pub id: u64,
    pub code: Vec<u8>,
    pub position: Option<Position>,
    pub subexpressions: Vec<u64>,
}

/// One displayed node: the backend id, the view id it was given, and what
/// the view currently shows for it.
#[derive(Debug)]
pub struct DisplayedNode {
    pub ast_id: u64,
    pub view_id: u64,
    pub position: Option<Position>,
    pub expression: Expression,
    pub subexpressions: Vec<SubexpressionInfo>,
}

/// One displayed connection and the view id of its edge.
#[derive(Clone, Copy, Debug)]
pub struct DisplayedConnection {
    pub connection: Connection,
    pub view_id: u64,
}

/// The presenter's mirror of the view.
#[derive(Debug)]
pub struct State {
    pub nodes: Vec<DisplayedNode>,
    pub connections: Vec<DisplayedConnection>,
    pub next_view_id: u64,
}

/// Whether `ids` holds `id`.
pub open spec fn contains_id(ids: Seq<u64>, id: u64) -> bool {
    exists|i: int| 0 <= i < ids.len() && ids[i] == id
}

/// Whether some displayed node mirrors backend node `id`.
pub open spec fn displayed_has_ast(ns: Seq<DisplayedNode>, id: u64) -> bool {
    exists|i: int| 0 <= i < ns.len() && (#[trigger] ns[i]).ast_id == id
}

/// Whether `cs` holds the connection `c`.
pub open spec fn contains_connection(cs: Seq<Connection>, c: Connection) -> bool {
    exists|i: int| 0 <= i < cs.len() && cs[i] == c
}

/// Whether some displayed connection mirrors `c`.
pub open spec fn displayed_has_connection(ds: Seq<DisplayedConnection>, c: Connection) -> bool {
    exists|i: int| 0 <= i < ds.len() && (#[trigger] ds[i]).connection == c
}

/// The displayed nodes that survive pruning against the backend list `ids`,
/// in display order.
pub open spec fn keep_nodes(ns: Seq<DisplayedNode>, ids: Seq<u64>) -> Seq<DisplayedNode>
    decreases ns.len(),
{
    if ns.len() == 0 {
        Seq::empty()
    } else if contains_id(ids, ns[0].ast_id) {
        seq![ns[0]] + keep_nodes(ns.drop_first(), ids)
    } else {
        keep_nodes(ns.drop_first(), ids)
    }
}

/// The view ids of the displayed nodes that pruning against `ids` removes,
/// in display order.
pub open spec fn dropped_node_views(ns: Seq<DisplayedNode>, ids: Seq<u64>) -> Seq<u64>
    decreases ns.len(),
{
    if ns.len() == 0 {
        Seq::empty()
    } else if contains_id(ids, ns[0].ast_id) {
        dropped_node_views(ns.drop_first(), ids)
    } else {
        seq![ns[0].view_id] + dropped_node_views(ns.drop_first(), ids)
    }
}

/// The displayed connections that survive pruning against the backend
/// connection list `alive`.
pub open spec fn keep_connections(
    ds: Seq<DisplayedConnection>,
    alive: Seq<Connection>,
) -> Seq<DisplayedConnection>
    decreases ds.len(),
{
    if ds.len() == 0 {
        Seq::empty()
    } else if contains_connection(alive, ds[0].connection) {
        seq![ds[0]] + keep_connections(ds.drop_first(), alive)
    } else {
        keep_connections(ds.drop_first(), alive)
    }
}

/// The view ids of the displayed connections that pruning removes.
pub open spec fn dropped_connection_views(
    ds: Seq<DisplayedConnection>,
    alive: Seq<Connection>,
) -> Seq<u64>
    decreases ds.len(),
{
    if ds.len() == 0 {
        Seq::empty()
    } else if contains_connection(alive, ds[0].connection) {
        dropped_connection_views(ds.drop_first(), alive)
    } else {
        seq![ds[0].view_id] + dropped_connection_views(ds.drop_first(), alive)
    }
}

/// Displayed nodes are well formed under the id bound `bound`: backend ids
/// pairwise distinct, view ids pairwise distinct and all below `bound`.
pub open spec fn nodes_wf(ns: Seq<DisplayedNode>, bound: int) -> bool {
    &&& forall|i: int, j: int|
        0 <= i < j < ns.len() ==> (#[trigger] ns[i]).ast_id != (#[trigger] ns[j]).ast_id
    &&& forall|i: int, j: int|
        0 <= i < j < ns.len() ==> (#[trigger] ns[i]).view_id != (#[trigger] ns[j]).view_id
    &&& forall|i: int| 0 <= i < ns.len() ==> (#[trigger] ns[i]).view_id < bound
}

/// Displayed connections are well formed under the id bound `bound`.
pub open spec fn connections_wf(ds: Seq<DisplayedConnection>, bound: int) -> bool {
    &&& forall|i: int, j: int|
        0 <= i < j < ds.len() ==> (#[trigger] ds[i]).connection != (#[trigger] ds[j]).connection
    &&& forall|i: int, j: int|
        0 <= i < j < ds.len() ==> (#[trigger] ds[i]).view_id != (#[trigger] ds[j]).view_id
    &&& forall|i: int| 0 <= i < ds.len() ==> (#[trigger] ds[i]).view_id < bound
}

/// Every element of a kept row is an element of the row before pruning whose
/// backend id is alive, and every alive element survives.
#[verifier::spinoff_prover]
#[verifier::rlimit(60)]
pub proof fn lemma_keep_nodes_char(ns: Seq<DisplayedNode>, ids: Seq<u64>)
    ensures
        keep_nodes(ns, ids).len() <= ns.len(),
        forall|k: int|
            0 <= k < keep_nodes(ns, ids).len() ==> ns.contains(#[trigger] keep_nodes(ns, ids)[k])
                && contains_id(ids, keep_nodes(ns, ids)[k].ast_id),
        forall|j: int|
            0 <= j < ns.len() && contains_id(ids, (#[trigger] ns[j]).ast_id) ==> keep_nodes(
                ns,
                ids,
            ).contains(ns[j]),
    decreases ns.len(),
{
    if ns.len() == 0 {
    } else {
        lemma_keep_nodes_char(ns.drop_first(), ids);
        let rest = ns.drop_first();
        let keep = keep_nodes(ns, ids);
        let keep_rest = keep_nodes(rest, ids);
        assert forall|j: int| 0 <= j < rest.len() implies #[trigger] rest[j] == ns[j + 1] by {}
        if contains_id(ids, ns[0].ast_id) {
            assert(keep == seq![ns[0]] + keep_rest);
            assert(keep[0] == ns[0]);
            assert(ns.contains(ns[0]));
            assert forall|k: int| 0 <= k < keep.len() implies ns.contains(#[trigger] keep[k])
                && contains_id(ids, keep[k].ast_id) by {
                if k > 0 {
                    assert(keep[k] == keep_rest[k - 1]);
                    assert(rest.contains(keep_rest[k - 1]));
                    let w = choose|w: int| 0 <= w < rest.len() && rest[w] == keep_rest[k - 1];
                    assert(ns[w + 1] == keep[k]);
                }
            }
            assert forall|j: int|
                0 <= j < ns.len() && contains_id(ids, (#[trigger] ns[j]).ast_id) implies
                keep.contains(ns[j]) by {
                if j == 0 {
                    assert(keep[0] == ns[0]);
                } else {
                    assert(keep_rest.contains(rest[j - 1]));
                    let w = choose|w: int| 0 <= w < keep_rest.len() && keep_rest[w] == rest[j - 1];
                    assert(keep[w + 1] == keep_rest[w]);
                }
            }
        } else {
            assert(keep == keep_rest);
            assert forall|k: int| 0 <= k < keep.len() implies ns.contains(#[trigger] keep[k])
                && contains_id(ids, keep[k].ast_id) by {
                assert(rest.contains(keep_rest[k]));
                let w = choose|w: int| 0 <= w < rest.len() && rest[w] == keep_rest[k];
                assert(ns[w + 1] == keep[k]);
            }
            assert forall|j: int|
                0 <= j < ns.len() && contains_id(ids, (#[trigger] ns[j]).ast_id) implies
                keep.contains(ns[j]) by {
                assert(j != 0);
                assert(keep_rest.contains(rest[j - 1]));
            }
        }
    }
}

/// Pruning preserves well-formedness.
pub proof fn lemma_keep_nodes_wf(ns: Seq<DisplayedNode>, ids: Seq<u64>, bound: int)
    requires
        nodes_wf(ns, bound),
    ensures
        nodes_wf(keep_nodes(ns, ids), bound),
    decreases ns.len(),
{
    if ns.len() > 0 {
        let rest = ns.drop_first();
        assert forall|j: int| 0 <= j < rest.len() implies #[trigger] rest[j] == ns[j + 1] by {}
        assert(nodes_wf(rest, bound));
        lemma_keep_nodes_wf(rest, ids, bound);
        if contains_id(ids, ns[0].ast_id) {
            let keep_rest = keep_nodes(rest, ids);
            lemma_keep_nodes_char(rest, ids);
            let keep = keep_nodes(ns, ids);
            assert(keep == seq![ns[0]] + keep_rest);
            assert forall|i: int, j: int| 0 <= i < j < keep.len() implies (
            #[trigger] keep[i]).ast_id != (#[trigger] keep[j]).ast_id && keep[i].view_id
                != keep[j].view_id by {
                if i == 0 {
                    assert(rest.contains(keep_rest[j - 1]));
                    let w = choose|w: int| 0 <= w < rest.len() && rest[w] == keep_rest[j - 1];
                    assert(keep[j] == ns[w + 1]);
                } else {
                    assert(keep[i] == keep_rest[i - 1] && keep[j] == keep_rest[j - 1]);
                }
            }
            assert forall|i: int| 0 <= i < keep.len() implies (#[trigger] keep[i]).view_id
                < bound by {
                if i > 0 {
                    assert(keep[i] == keep_rest[i - 1]);
                }
            }
        }
    }
}

/// When every displayed backend id is still alive, pruning removes nothing
/// and keeps the row as it is.
pub proof fn lemma_keep_nodes_all_alive(ns: Seq<DisplayedNode>, ids: Seq<u64>)
    requires
        forall|i: int| 0 <= i < ns.len() ==> contains_id(ids, (#[trigger] ns[i]).ast_id),
    ensures
        keep_nodes(ns, ids) == ns,
        dropped_node_views(ns, ids) == Seq::<u64>::empty(),
    decreases ns.len(),
{
    if ns.len() > 0 {
        let rest = ns.drop_first();
        assert forall|j: int| 0 <= j < rest.len() implies #[trigger] rest[j] == ns[j + 1] by {}
        lemma_keep_nodes_all_alive(rest, ids);
        assert(contains_id(ids, ns[0].ast_id));
        assert(keep_nodes(ns, ids) == seq![ns[0]] + rest);
        assert(seq![ns[0]] + rest =~= ns);
    }
}

/// The connection analogue of `lemma_keep_nodes_char`.
pub proof fn lemma_keep_connections_char(ds: Seq<DisplayedConnection>, alive: Seq<Connection>)
    ensures
        keep_connections(ds, alive).len() <= ds.len(),
        forall|k: int|
            0 <= k < keep_connections(ds, alive).len() ==> ds.contains(
                #[trigger] keep_connections(ds, alive)[k],
            ) && contains_connection(alive, keep_connections(ds, alive)[k].connection),
        forall|j: int|
            0 <= j < ds.len() && contains_connection(alive, (#[trigger] ds[j]).connection)
                ==> keep_connections(ds, alive).contains(ds[j]),
        forall|j: int|
            0 <= j < ds.len() && !contains_connection(alive, (#[trigger] ds[j]).connection)
                ==> contains_id(dropped_connection_views(ds, alive), ds[j].view_id),
    decreases ds.len(),
{
    if ds.len() == 0 {
    } else {
        lemma_keep_connections_char(ds.drop_first(), alive);
        let rest = ds.drop_first();
        let keep = keep_connections(ds, alive);
        let keep_rest = keep_connections(rest, alive);
        let drop = dropped_connection_views(ds, alive);
        let drop_rest = dropped_connection_views(rest, alive);
        assert forall|j: int| 0 <= j < rest.len() implies #[trigger] rest[j] == ds[j + 1] by {}
        if contains_connection(alive, ds[0].connection) {
            assert(keep == seq![ds[0]] + keep_rest);
            assert(keep[0] == ds[0]);
            assert(ds.contains(ds[0]));
            assert forall|k: int| 0 <= k < keep.len() implies ds.contains(#[trigger] keep[k])
                && contains_connection(alive, keep[k].connection) by {
                if k > 0 {
                    assert(keep[k] == keep_rest[k - 1]);
                    assert(rest.contains(keep_rest[k - 1]));
                    let w = choose|w: int| 0 <= w < rest.len() && rest[w] == keep_rest[k - 1];
                    assert(ds[w + 1] == keep[k]);
                }
            }
            assert forall|j: int|
                0 <= j < ds.len() && contains_connection(
                    alive,
                    (#[trigger] ds[j]).connection,
                ) implies keep.contains(ds[j]) by {
                if j == 0 {
                    assert(keep[0] == ds[0]);
                } else {
                    assert(keep_rest.contains(rest[j - 1]));
                    let w = choose|w: int| 0 <= w < keep_rest.len() && keep_rest[w] == rest[j - 1];
                    assert(keep[w + 1] == keep_rest[w]);
                }
            }
            assert forall|j: int|
                0 <= j < ds.len() && !contains_connection(
                    alive,
                    (#[trigger] ds[j]).connection,
                ) implies contains_id(drop, ds[j].view_id) by {
                assert(j > 0);
                assert(contains_id(drop_rest, rest[j - 1].view_id));
            }
        } else {
            assert(keep == keep_rest);
            assert(drop == seq![ds[0].view_id] + drop_rest);
            assert forall|k: int| 0 <= k < keep.len() implies ds.contains(#[trigger] keep[k])
                && contains_connection(alive, keep[k].connection) by {
                assert(rest.contains(keep_rest[k]));
                let w = choose|w: int| 0 <= w < rest.len() && rest[w] == keep_rest[k];
                assert(ds[w + 1] == keep[k]);
            }
            assert forall|j: int|
                0 <= j < ds.len() && contains_connection(
                    alive,
                    (#[trigger] ds[j]).connection,
                ) implies keep.contains(ds[j]) by {
                assert(j != 0);
                assert(keep_rest.contains(rest[j - 1]));
            }
            assert forall|j: int|
                0 <= j < ds.len() && !contains_connection(
                    alive,
                    (#[trigger] ds[j]).connection,
                ) implies contains_id(drop, ds[j].view_id) by {
                if j == 0 {
                    assert(drop[0] == ds[0].view_id);
                } else {
                    assert(contains_id(drop_rest, rest[j - 1].view_id));
                    let w = choose|w: int| 0 <= w < drop_rest.len() && drop_rest[w] == rest[j
                        - 1].view_id;
                    assert(drop[w + 1] == rest[j - 1].view_id);
                }
            }
        }
    }
}

/// Pruning preserves connection well-formedness.
pub proof fn lemma_keep_connections_wf(
    ds: Seq<DisplayedConnection>,
    alive: Seq<Connection>,
    bound: int,
)
    requires
        connections_wf(ds, bound),
    ensures
        connections_wf(keep_connections(ds, alive), bound),
    decreases ds.len(),
{
    if ds.len() > 0 {
        let rest = ds.drop_first();
        assert forall|j: int| 0 <= j < rest.len() implies #[trigger] rest[j] == ds[j + 1] by {}
        assert(connections_wf(rest, bound));
        lemma_keep_connections_wf(rest, alive, bound);
        if contains_connection(alive, ds[0].connection) {
            let keep_rest = keep_connections(rest, alive);
            lemma_keep_connections_char(rest, alive);
            let keep = keep_connections(ds, alive);
            assert(keep == seq![ds[0]] + keep_rest);
            assert forall|i: int, j: int| 0 <= i < j < keep.len() implies (
            #[trigger] keep[i]).connection != (#[trigger] keep[j]).connection && keep[i].view_id
                != keep[j].view_id by {
                if i == 0 {
                    assert(rest.contains(keep_rest[j - 1]));
                    let w = choose|w: int| 0 <= w < rest.len() && rest[w] == keep_rest[j - 1];
                    assert(keep[j] == ds[w + 1]);
                } else {
                    assert(keep[i] == keep_rest[i - 1] && keep[j] == keep_rest[j - 1]);
                }
            }
            assert forall|i: int| 0 <= i < keep.len() implies (#[trigger] keep[i]).view_id
                < bound by {
                if i > 0 {
                    assert(keep[i] == keep_rest[i - 1]);
                }
            }
        }
    }
}

/// When every displayed connection is still alive, pruning is the identity.
pub proof fn lemma_keep_connections_all_alive(ds: Seq<DisplayedConnection>, alive: Seq<Connection>)
    requires
        forall|i: int|
            0 <= i < ds.len() ==> contains_connection(alive, (#[trigger] ds[i]).connection),
    ensures
        keep_connections(ds, alive) == ds,
        dropped_connection_views(ds, alive) == Seq::<u64>::empty(),
    decreases ds.len(),
{
    if ds.len() > 0 {
        let rest = ds.drop_first();
        assert forall|j: int| 0 <= j < rest.len() implies #[trigger] rest[j] == ds[j + 1] by {}
        lemma_keep_connections_all_alive(rest, alive);
        assert(contains_connection(alive, ds[0].connection));
        assert(keep_connections(ds, alive) == seq![ds[0]] + rest);
        assert(seq![ds[0]] + rest =~= ds);
    }
}

/// Whether `ids` holds `id`, executably.
pub fn id_list_contains(ids: &Vec<u64>, id: u64) -> (r: bool)
    ensures
        r == contains_id(ids@, id),
{
    let n = ids.len();
    let mut i: usize = 0;
    while i < n
        invariant
            i <= n,
            n == ids@.len(),
            forall|j: int| 0 <= j < i ==> ids@[j] != id,
        decreases n - i,
    {
        if ids[i] == id {
            return true;
        }
        i = i + 1;
    }
    false
}

/// Whether `cs` holds `c`, executably.
pub fn connection_list_contains(cs: &Vec<Connection>, c: Connection) -> (r: bool)
    ensures
        r == contains_connection(cs@, c),
{
    let n = cs.len();
    let mut i: usize = 0;
    while i < n
        invariant
            i <= n,
            n == cs@.len(),
            forall|j: int| 0 <= j < i ==> cs@[j] != c,
        decreases n - i,
    {
        if cs[i] == c {
            return true;
        }
        i = i + 1;
    }
    false
}

impl State {
    /// The mapping invariant: ids on both sides are injective, and every
    /// view id ever handed out is below the allocation counter.
    pub open spec fn wf(self) -> bool {
        &&& nodes_wf(self.nodes@, self.next_view_id as int)
        &&& connections_wf(self.connections@, self.next_view_id as int)
    }

    /// The fresh state: nothing displayed yet.
    pub fn new() -> (r: State)
        ensures
            r.wf(),
            r.nodes@.len() == 0,
            r.connections@.len() == 0,
    {
        State { nodes: Vec::new(), connections: Vec::new(), next_view_id: 0 }
    }

    /// The view id under which backend node `id` is displayed, if any.
    pub fn view_id_of_ast_node(&self, id: u64) -> (r: Option<u64>)
        ensures
            match r {
                Some(v) => exists|i: int|
                    0 <= i < self.nodes@.len() && (#[trigger] self.nodes@[i]).ast_id == id
                        && self.nodes@[i].view_id == v,
                None => !displayed_has_ast(self.nodes@, id),
            },
    {
        let n = self.nodes.len();
        let mut i: usize = 0;
        while i < n
            invariant
                i <= n,
                n == self.nodes@.len(),
                forall|j: int| 0 <= j < i ==> (#[trigger] self.nodes@[j]).ast_id != id,
            decreases n - i,
        {
            if self.nodes[i].ast_id == id {
                return Some(self.nodes[i].view_id);
            }
            i = i + 1;
        }
        None
    }

    /// The backend node displayed under view id `id`, if any.
    pub fn ast_id_of_view(&self, id: u64) -> (r: Option<u64>)
        ensures
            match r {
                Some(a) => exists|i: int|
                    0 <= i < self.nodes@.len() && (#[trigger] self.nodes@[i]).view_id == id
                        && self.nodes@[i].ast_id == a,
                None => forall|i: int|
                    0 <= i < self.nodes@.len() ==> (#[trigger] self.nodes@[i]).view_id != id,
            },
    {
        let n = self.nodes.len();
        let mut i: usize = 0;
        while i < n
            invariant
                i <= n,
                n == self.nodes@.len(),
                forall|j: int| 0 <= j < i ==> (#[trigger] self.nodes@[j]).view_id != id,
            decreases n - i,
        {
            if self.nodes[i].view_id == id {
                return Some(self.nodes[i].ast_id);
            }
            i = i + 1;
        }
        None
    }

    /// Prune displayed nodes against the latest backend node list: every
    /// displayed node whose backend id is no longer in `alive` is removed,
    /// and the view ids to retire are returned, in display order.
    pub fn retain_nodes(&mut self, alive: &Vec<u64>) -> (removed: Vec<u64>)
        requires
            old(self).wf(),
        ensures
            final (self).wf(),
            final (self).nodes@ == keep_nodes(old(self).nodes@, alive@),
            removed@ == dropped_node_views(old(self).nodes@, alive@),
            final (self).connections == old(self).connections,
            final (self).next_view_id == old(self).next_view_id,
    {
        let ghost orig = self.nodes@;
        let mut pending: Vec<DisplayedNode> = Vec::new();
        core::mem::swap(&mut pending, &mut self.nodes);
        let mut removed: Vec<u64> = Vec::new();
        proof {
            assert(self.nodes@ + keep_nodes(pending@, alive@) =~= keep_nodes(orig, alive@));
            assert(removed@ + dropped_node_views(pending@, alive@) =~= dropped_node_views(
                orig,
                alive@,
            ));
        }
        while pending.len() > 0
            invariant
                self.nodes@ + keep_nodes(pending@, alive@) == keep_nodes(orig, alive@),
                removed@ + dropped_node_views(pending@, alive@) == dropped_node_views(
                    orig,
                    alive@,
                ),
                self.connections == old(self).connections,
                self.next_view_id == old(self).next_view_id,
            decreases pending.len(),
        {
            let ghost before = pending@;
            let node = pending.remove(0);
            proof {
                assert(pending@ =~= before.drop_first());
                assert(node == before[0]);
            }
            if id_list_contains(alive, node.ast_id) {
                proof {
                    assert(keep_nodes(before, alive@) == seq![node] + keep_nodes(
                        pending@,
                        alive@,
                    ));
                    assert(self.nodes@ + (seq![node] + keep_nodes(pending@, alive@))
                        =~= self.nodes@.push(node) + keep_nodes(pending@, alive@));
                }
                self.nodes.push(node);
            } else {
                proof {
                    assert(dropped_node_views(before, alive@) == seq![node.view_id]
                        + dropped_node_views(pending@, alive@));
                    assert(removed@ + (seq![node.view_id] + dropped_node_views(pending@, alive@))
                        =~= removed@.push(node.view_id) + dropped_node_views(pending@, alive@));
                }
                removed.push(node.view_id);
            }
        }
        proof {
            assert(pending@ =~= Seq::<DisplayedNode>::empty());
            assert(keep_nodes(pending@, alive@) == Seq::<DisplayedNode>::empty());
            assert(dropped_node_views(pending@, alive@) == Seq::<u64>::empty());
            assert(self.nodes@ + Seq::<DisplayedNode>::empty() =~= self.nodes@);
            assert(removed@ + Seq::<u64>::empty() =~= removed@);
            lemma_keep_nodes_wf(orig, alive@, old(self).next_view_id as int);
        }
        removed
    }

    /// Prune displayed connections against the latest backend connection
    /// list, returning the view ids of the edges to retire.
    pub fn retain_connections(&mut self, alive: &Vec<Connection>) -> (removed: Vec<u64>)
        requires
            old(self).wf(),
        ensures
            final (self).wf(),
            final (self).connections@ == keep_connections(old(self).connections@, alive@),
            removed@ == dropped_connection_views(old(self).connections@, alive@),
            final (self).nodes == old(self).nodes,
            final (self).next_view_id == old(self).next_view_id,
    {
        let ghost orig = self.connections@;
        let mut pending: Vec<DisplayedConnection> = Vec::new();
        core::mem::swap(&mut pending, &mut self.connections);
        let mut removed: Vec<u64> = Vec::new();
        proof {
            assert(self.connections@ + keep_connections(pending@, alive@) =~= keep_connections(
                orig,
                alive@,
            ));
            assert(removed@ + dropped_connection_views(pending@, alive@)
                =~= dropped_connection_views(orig, alive@));
        }
        while pending.len() > 0
            invariant
                self.connections@ + keep_connections(pending@, alive@) == keep_connections(
                    orig,
                    alive@,
                ),
                removed@ + dropped_connection_views(pending@, alive@) == dropped_connection_views(
                    orig,
                    alive@,
                ),
                self.nodes == old(self).nodes,
                self.next_view_id == old(self).next_view_id,
            decreases pending.len(),
        {
            let ghost before = pending@;
            let conn = pending.remove(0);
            proof {
                assert(pending@ =~= before.drop_first());
                assert(conn == before[0]);
            }
            if connection_list_contains(alive, conn.connection) {
                proof {
                    assert(keep_connections(before, alive@) == seq![conn] + keep_connections(
                        pending@,
                        alive@,
                    ));
                    assert(self.connections@ + (seq![conn] + keep_connections(pending@, alive@))
                        =~= self.connections@.push(conn) + keep_connections(pending@, alive@));
                }
                self.connections.push(conn);
            } else {
                proof {
                    assert(dropped_connection_views(before, alive@) == seq![conn.view_id]
                        + dropped_connection_views(pending@, alive@));
                    assert(removed@ + (seq![conn.view_id] + dropped_connection_views(
                        pending@,
                        alive@,
                    )) =~= removed@.push(conn.view_id) + dropped_connection_views(
                        pending@,
                        alive@,
                    ));
                }
                removed.push(conn.view_id);
            }
        }
        proof {
            assert(pending@ =~= Seq::<DisplayedConnection>::empty());
            assert(keep_connections(pending@, alive@) == Seq::<DisplayedConnection>::empty());
            assert(dropped_connection_views(pending@, alive@) == Seq::<u64>::empty());
            assert(self.connections@ + Seq::<DisplayedConnection>::empty() =~= self.connections@);
            assert(removed@ + Seq::<u64>::empty() =~= removed@);
            lemma_keep_connections_wf(orig, alive@, old(self).next_view_id as int);
        }
        removed
    }
}

/// A node the refresh cycle just gave a view id, with the expression and
/// position the view must show for it initially.
#[derive(Debug)]
pub struct AddedNode {
    pub view_id: u64,
    pub ast_id: u64,
    pub expression: Expression,
    pub position: Option<Position>,
}

/// Sub-expression annotation rows as they start out: one per sub-expression
/// id, with no type and no method pointer known yet.
pub open spec fn fresh_subexpressions(infos: Seq<SubexpressionInfo>, ids: Seq<u64>) -> bool {
    &&& infos.len() == ids.len()
    &&& forall|k: int|
        0 <= k < infos.len() ==> (#[trigger] infos[k]).id == ids[k] && infos[k].typename is None
            && infos[k].method_pointer is None
}

/// What a displayed entry shows right after its node was added: the
/// backend's code with a regenerated input tree, the backend's position,
/// and fresh annotation rows.
pub open spec fn added_entry_matches(d: DisplayedNode, n: NodeInfo) -> bool {
    &&& d.ast_id == n.id
    &&& d.expression.models_plain(n.code@)
    &&& d.position == n.position
    &&& fresh_subexpressions(d.subexpressions@, n.subexpressions@)
}

/// Build the fresh annotation rows for the given sub-expression ids.
fn fresh_subexpr_infos(ids: &Vec<u64>) -> (r: Vec<SubexpressionInfo>)
    ensures
        fresh_subexpressions(r@, ids@),
{
    let n = ids.len();
    let mut r: Vec<SubexpressionInfo> = Vec::new();
    let mut i: usize = 0;
    while i < n
        invariant
            i <= n,
            n == ids@.len(),
            r@.len() == i,
            forall|k: int|
                0 <= k < i ==> (#[trigger] r@[k]).id == ids@[k] && r@[k].typename is None
                    && r@[k].method_pointer is None,
        decreases n - i,
    {
        r.push(SubexpressionInfo { id: ids[i], typename: None, method_pointer: None });
        i = i + 1;
    }
    r
}

impl State {
    /// Give every backend node that is not yet displayed a fresh view id
    /// and a displayed entry, and report the additions in backend order.
    /// Nodes already displayed are left exactly as they are.
    #[verifier::rlimit(60)]
    pub fn add_missing_nodes(&mut self, nodes: &Vec<NodeInfo>) -> (added: Vec<AddedNode>)
        requires
            old(self).wf(),
            forall|i: int, j: int|
                0 <= i < j < nodes@.len() ==> (#[trigger] nodes@[i]).id != (
                #[trigger] nodes@[j]).id,
            old(self).next_view_id + nodes@.len() <= u64::MAX,
        ensures
            final (self).wf(),
            final (self).connections == old(self).connections,
            final (self).next_view_id == old(self).next_view_id + added@.len(),
            added@.len() <= nodes@.len(),
            final (self).nodes@.len() == old(self).nodes@.len() + added@.len(),
            final (self).nodes@.take(old(self).nodes@.len() as int) == old(self).nodes@,
            forall|k: int|
                0 <= k < added@.len() ==> {
                    let d = final (self).nodes@[old(self).nodes@.len() + k];
                    &&& d.view_id == (#[trigger] added@[k]).view_id
                    &&& d.ast_id == added@[k].ast_id
                    &&& !displayed_has_ast(old(self).nodes@, added@[k].ast_id)
                    &&& exists|i: int|
                        0 <= i < nodes@.len() && (#[trigger] nodes@[i]).id == added@[k].ast_id
                            && added_entry_matches(d, nodes@[i]) && added@[
                        k].expression.models_plain(nodes@[i].code@) && added@[k].position
                            == nodes@[i].position
                },
            forall|i: int|
                0 <= i < nodes@.len() ==> displayed_has_ast(
                    final (self).nodes@,
                    (#[trigger] nodes@[i]).id,
                ),
            forall|i: int|
                0 <= i < nodes@.len() && !displayed_has_ast(
                    old(self).nodes@,
                    (#[trigger] nodes@[i]).id,
                ) ==> exists|k: int|
                    0 <= k < added@.len() && (#[trigger] added@[k]).ast_id == nodes@[i].id,
            added@.len() == 0 ==> *final (self) == *old(self),
    {
        let ghost old_len = self.nodes@.len();
        let mut added: Vec<AddedNode> = Vec::new();
        let n = nodes.len();
        let mut i: usize = 0;
        proof {
            assert(self.nodes@.take(old_len as int) =~= self.nodes@);
        }
        while i < n
            invariant
                i <= n,
                n == nodes@.len(),
                old(self).wf(),
                forall|a: int, b: int|
                    0 <= a < b < nodes@.len() ==> (#[trigger] nodes@[a]).id != (
                    #[trigger] nodes@[b]).id,
                old(self).next_view_id + nodes@.len() <= u64::MAX,
                old_len == old(self).nodes@.len(),
                nodes_wf(self.nodes@, self.next_view_id as int),
                self.connections == old(self).connections,
                self.next_view_id == old(self).next_view_id + added@.len(),
                added@.len() <= i,
                self.nodes@.len() == old_len + added@.len(),
                self.nodes@.take(old_len as int) == old(self).nodes@,
                forall|k: int|
                    0 <= k < added@.len() ==> {
                        let d = self.nodes@[old_len + k];
                        &&& d.view_id == (#[trigger] added@[k]).view_id
                        &&& d.ast_id == added@[k].ast_id
                        &&& !displayed_has_ast(old(self).nodes@, added@[k].ast_id)
                        &&& exists|w: int|
                            0 <= w < nodes@.len() && (#[trigger] nodes@[w]).id == added@[k].ast_id
                                && added_entry_matches(d, nodes@[w]) && added@[
                            k].expression.models_plain(nodes@[w].code@) && added@[k].position
                                == nodes@[w].position
                    },
                forall|j: int|
                    0 <= j < i ==> displayed_has_ast(self.nodes@, (#[trigger] nodes@[j]).id),
                forall|j: int|
                    0 <= j < i && !displayed_has_ast(old(self).nodes@, (#[trigger] nodes@[j]).id)
                        ==> exists|k: int|
                        0 <= k < added@.len() && (#[trigger] added@[k]).ast_id == nodes@[j].id,
                added@.len() == 0 ==> *self == *old(self),
            decreases n - i,
        {
            let ghost prev_nodes = self.nodes@;
            let ghost prev_added = added@;
            let already = self.view_id_of_ast_node(nodes[i].id);
            if already.is_none() {
                let view_id = self.next_view_id;
                self.next_view_id = view_id + 1;
                let expression = Expression::new_plain(clone_bytes(&nodes[i].code));
                let event_expression = Expression::new_plain(clone_bytes(&nodes[i].code));
                let subexpressions = fresh_subexpr_infos(&nodes[i].subexpressions);
                let position = nodes[i].position;
                let ast_id = nodes[i].id;
                let entry = DisplayedNode { ast_id, view_id, position, expression, subexpressions };
                self.nodes.push(entry);
                added.push(
                    AddedNode { view_id, ast_id, expression: event_expression, position },
                );
                proof {
                    assert(self.nodes@ == prev_nodes.push(entry));
                    assert(added@ == prev_added.push(
                        AddedNode { view_id, ast_id, expression: event_expression, position },
                    ));
                    assert(self.nodes@.take(old_len as int) =~= prev_nodes.take(old_len as int));
                    assert(!displayed_has_ast(prev_nodes, ast_id));
                    assert forall|a: int|
                        0 <= a < old(self).nodes@.len() implies (#[trigger] old(
                            self,
                        ).nodes@[a]).ast_id != ast_id by {
                        assert(old(self).nodes@[a] == prev_nodes.take(old_len as int)[a]);
                        assert(prev_nodes[a] == self.nodes@[a]);
                    }
                    assert(!displayed_has_ast(old(self).nodes@, ast_id));
                    let d = self.nodes@[(old_len + prev_added.len()) as int];
                    assert(d == entry);
                    assert(nodes@[i as int].id == ast_id);
                    assert(added_entry_matches(entry, nodes@[i as int]));
                    assert forall|k: int| 0 <= k < added@.len() implies {
                        let e = self.nodes@[old_len + k];
                        &&& e.view_id == (#[trigger] added@[k]).view_id
                        &&& e.ast_id == added@[k].ast_id
                        &&& !displayed_has_ast(old(self).nodes@, added@[k].ast_id)
                        &&& exists|w: int|
                            0 <= w < nodes@.len() && (#[trigger] nodes@[w]).id == added@[k].ast_id
                                && added_entry_matches(e, nodes@[w]) && added@[
                            k].expression.models_plain(nodes@[w].code@) && added@[k].position
                                == nodes@[w].position
                    } by {
                        if k < prev_added.len() {
                            assert(added@[k] == prev_added[k]);
                            assert(self.nodes@[old_len + k] == prev_nodes[old_len + k]);
                            let w = choose|w: int|
                                0 <= w < nodes@.len() && (#[trigger] nodes@[w]).id == prev_added[k].ast_id && added_entry_matches(
                                    prev_nodes[old_len + k],
                                    nodes@[w],
                                ) && prev_added[k].expression.models_plain(nodes@[w].code@)
                                    && prev_added[k].position == nodes@[w].position;
                            assert(nodes@[w].id == added@[k].ast_id && added_entry_matches(
                                self.nodes@[old_len + k],
                                nodes@[w],
                            ) && added@[k].expression.models_plain(nodes@[w].code@) && added@[k].position == nodes@[w].position);
                        } else {
                            assert(added@[k] == AddedNode {
                                view_id,
                                ast_id,
                                expression: event_expression,
                                position,
                            });
                            assert(self.nodes@[old_len + k] == entry);
                            assert(nodes@[i as int].id == added@[k].ast_id
                                && added_entry_matches(entry, nodes@[i as int]) && added@[k].expression.models_plain(nodes@[i as int].code@) && added@[k].position == nodes@[i as int].position);
                        }
                    }
                    assert forall|j: int| 0 <= j < i + 1 implies displayed_has_ast(
                        self.nodes@,
                        (#[trigger] nodes@[j]).id,
                    ) by {
                        if j < i {
                            assert(displayed_has_ast(prev_nodes, nodes@[j].id));
                            let w = choose|w: int|
                                0 <= w < prev_nodes.len() && (#[trigger] prev_nodes[w]).ast_id
                                    == nodes@[j].id;
                            assert(self.nodes@[w].ast_id == nodes@[j].id);
                        } else {
                            assert(self.nodes@[(old_len + prev_added.len()) as int].ast_id == nodes@[
                                j].id);
                        }
                    }
                    assert forall|j: int|
                        0 <= j < i + 1 && !displayed_has_ast(
                            old(self).nodes@,
                            (#[trigger] nodes@[j]).id,
                        ) implies exists|k: int|
                        0 <= k < added@.len() && (#[trigger] added@[k]).ast_id == nodes@[j].id by {
                        if j < i {
                            let k = choose|k: int|
                                0 <= k < prev_added.len() && (#[trigger] prev_added[k]).ast_id
                                    == nodes@[j].id;
                            assert(added@[k] == prev_added[k]);
                            assert(added@[k].ast_id == nodes@[j].id);
                        } else {
                            assert(added@[prev_added.len() as int].ast_id == nodes@[j].id);
                        }
                    }
                }
            } else {
                proof {
                    assert(displayed_has_ast(self.nodes@, nodes@[i as int].id));
                    let w = choose|w: int|
                        0 <= w < self.nodes@.len() && (#[trigger] self.nodes@[w]).ast_id == nodes@[i as int].id;
                    if w < old_len {
                        assert(old(self).nodes@[w] == self.nodes@.take(old_len as int)[w]);
                        assert((#[trigger] old(self).nodes@[w]).ast_id == nodes@[i as int].id);
                        assert(displayed_has_ast(old(self).nodes@, nodes@[i as int].id));
                    } else {
                        let k = w - old_len;
                        assert(self.nodes@[old_len + k].ast_id == (#[trigger] added@[k]).ast_id);
                        assert(added@[k].ast_id == nodes@[i as int].id);
                    }
                }
            }
            i = i + 1;
        }
        added
    }
}

/// Replacing an entry without touching its two ids keeps the row well
/// formed.
pub proof fn lemma_nodes_wf_update(ns: Seq<DisplayedNode>, i: int, e: DisplayedNode, bound: int)
    requires
        nodes_wf(ns, bound),
        0 <= i < ns.len(),
        e.ast_id == ns[i].ast_id,
        e.view_id == ns[i].view_id,
    ensures
        nodes_wf(ns.update(i, e), bound),
{
    let m = ns.update(i, e);
    assert forall|a: int, b: int| 0 <= a < b < m.len() implies (#[trigger] m[a]).ast_id != (
    #[trigger] m[b]).ast_id && m[a].view_id != m[b].view_id by {
        assert(ns[a].ast_id != ns[b].ast_id && ns[a].view_id != ns[b].view_id);
    }
    assert forall|a: int| 0 <= a < m.len() implies (#[trigger] m[a]).view_id < bound by {
        assert(ns[a].view_id < bound);
    }
}

/// Removing an entry keeps the row well formed.
pub proof fn lemma_nodes_wf_remove(ns: Seq<DisplayedNode>, i: int, bound: int)
    requires
        nodes_wf(ns, bound),
        0 <= i < ns.len(),
    ensures
        nodes_wf(ns.remove(i), bound),
{
    let m = ns.remove(i);
    ns.remove_ensures(i);
    assert forall|a: int, b: int| 0 <= a < b < m.len() implies (#[trigger] m[a]).ast_id != (
    #[trigger] m[b]).ast_id && m[a].view_id != m[b].view_id by {
        let a0: int = if a < i {
            a
        } else {
            a + 1
        };
        let b0: int = if b < i {
            b
        } else {
            b + 1
        };
        assert(m[a] == ns[a0] && m[b] == ns[b0]);
        assert(ns[a0].ast_id != ns[b0].ast_id && ns[a0].view_id != ns[b0].view_id);
    }
    assert forall|a: int| 0 <= a < m.len() implies (#[trigger] m[a]).view_id < bound by {
        let a0: int = if a < i {
            a
        } else {
            a + 1
        };
        assert(m[a] == ns[a0]);
    }
}

/// Removing a displayed connection keeps the row well formed.
pub proof fn lemma_connections_wf_remove(ds: Seq<DisplayedConnection>, i: int, bound: int)
    requires
        connections_wf(ds, bound),
        0 <= i < ds.len(),
    ensures
        connections_wf(ds.remove(i), bound),
{
    let m = ds.remove(i);
    ds.remove_ensures(i);
    assert forall|a: int, b: int| 0 <= a < b < m.len() implies (#[trigger] m[a]).connection != (
    #[trigger] m[b]).connection && m[a].view_id != m[b].view_id by {
        let a0: int = if a < i {
            a
        } else {
            a + 1
        };
        let b0: int = if b < i {
            b
        } else {
            b + 1
        };
        assert(m[a] == ds[a0] && m[b] == ds[b0]);
        assert(ds[a0].connection != ds[b0].connection && ds[a0].view_id != ds[b0].view_id);
    }
    assert forall|a: int| 0 <= a < m.len() implies (#[trigger] m[a]).view_id < bound by {
        let a0: int = if a < i {
            a
        } else {
            a + 1
        };
        assert(m[a] == ds[a0]);
    }
}

/// What a displayed entry shows right after its expression was refreshed
/// from backend node `n`: the regenerated expression, fresh annotation
/// rows, and everything else as it was.
pub open spec fn refreshed_entry(d: DisplayedNode, e: DisplayedNode, n: NodeInfo) -> bool {
    &&& e.ast_id == d.ast_id
    &&& e.view_id == d.view_id
    &&& e.position == d.position
    &&& e.expression.models_plain(n.code@)
    &&& fresh_subexpressions(e.subexpressions@, n.subexpressions@)
}

impl State {
    /// The index of the displayed entry for backend node `id`, if any.
    fn find_ast_index(&self, id: u64) -> (r: Option<usize>)
        ensures
            match r {
                Some(i) => 0 <= i < self.nodes@.len() && self.nodes@[i as int].ast_id == id,
                None => !displayed_has_ast(self.nodes@, id),
            },
    {
        let n = self.nodes.len();
        let mut i: usize = 0;
        while i < n
            invariant
                i <= n,
                n == self.nodes@.len(),
                forall|j: int| 0 <= j < i ==> (#[trigger] self.nodes@[j]).ast_id != id,
            decreases n - i,
        {
            if self.nodes[i].ast_id == id {
                return Some(i);
            }
            i = i + 1;
        }
        None
    }

    /// The index of the displayed entry under view id `id`, if any.
    fn find_view_index(&self, id: u64) -> (r: Option<usize>)
        ensures
            match r {
                Some(i) => 0 <= i < self.nodes@.len() && self.nodes@[i as int].view_id == id,
                None => forall|j: int|
                    0 <= j < self.nodes@.len() ==> (#[trigger] self.nodes@[j]).view_id != id,
            },
    {
        let n = self.nodes.len();
        let mut i: usize = 0;
        while i < n
            invariant
                i <= n,
                n == self.nodes@.len(),
                forall|j: int| 0 <= j < i ==> (#[trigger] self.nodes@[j]).view_id != id,
            decreases n - i,
        {
            if self.nodes[i].view_id == id {
                return Some(i);
            }
            i = i + 1;
        }
        None
    }

    /// Refresh what the view shows for backend node `node`: when the node
    /// is displayed and its regenerated expression differs from the
    /// displayed one, store the new expression, reset its annotation rows,
    /// and return the view id with the expression to set; otherwise this is
    /// a no-op, so no event is owed.
    pub fn refresh_node_expression(&mut self, node: &NodeInfo) -> (r: Option<(u64, Expression)>)
        requires
            old(self).wf(),
        ensures
            final (self).wf(),
            final (self).connections == old(self).connections,
            final (self).next_view_id == old(self).next_view_id,
            final (self).nodes@.len() == old(self).nodes@.len(),
            match r {
                None => *final (self) == *old(self) && (displayed_has_ast(
                    old(self).nodes@,
                    node.id,
                ) ==> exists|i: int|
                    0 <= i < old(self).nodes@.len() && (#[trigger] old(self).nodes@[i]).ast_id
                        == node.id && old(self).nodes@[i].expression.models_plain(node.code@)),
                Some(ve) => {
                    &&& ve.1.models_plain(node.code@)
                    &&& exists|i: int|
                        {
                            &&& 0 <= i < old(self).nodes@.len()
                            &&& (#[trigger] old(self).nodes@[i]).ast_id == node.id
                            &&& old(self).nodes@[i].view_id == ve.0
                            &&& !old(self).nodes@[i].expression.models_plain(node.code@)
                            &&& final (self).nodes@ == old(self).nodes@.update(
                                i,
                                final (self).nodes@[i],
                            )
                            &&& refreshed_entry(
                                old(self).nodes@[i],
                                final (self).nodes@[i],
                                *node,
                            )
                        }
                },
            },
    {
        let found = self.find_ast_index(node.id);
        match found {
            None => None,
            Some(i) => {
                let expr = Expression::new_plain(clone_bytes(&node.code));
                if self.nodes[i].expression == expr {
                    proof {
                        assert(self.nodes@[i as int].expression.structural_eq(expr));
                        assert(self.nodes@[i as int].expression.models_plain(node.code@));
                    }
                    None
                } else {
                    let ghost orig = self.nodes@;
                    let entry = self.nodes.remove(i);
                    let new_entry = DisplayedNode {
                        ast_id: entry.ast_id,
                        view_id: entry.view_id,
                        position: entry.position,
                        expression: expr,
                        subexpressions: fresh_subexpr_infos(&node.subexpressions),
                    };
                    let view_id = new_entry.view_id;
                    self.nodes.insert(i, new_entry);
                    let out = Expression::new_plain(clone_bytes(&node.code));
                    proof {
                        assert(self.nodes@ =~= orig.update(i as int, new_entry));
                        lemma_nodes_wf_update(
                            orig,
                            i as int,
                            new_entry,
                            old(self).next_view_id as int,
                        );
                        assert(!orig[i as int].expression.structural_eq(expr));
                        if orig[i as int].expression.models_plain(node.code@) {
                            assert(orig[i as int].expression.structural_eq(expr));
                        }
                        assert(refreshed_entry(orig[i as int], new_entry, *node));
                    }
                    Some((view_id, out))
                }
            },
        }
    }

    /// Refresh the displayed position of backend node `id`: when the node
    /// is displayed and shows another position, store the new one and
    /// return the view id to move; otherwise a no-op.
    pub fn refresh_node_position(&mut self, id: u64, position: Position) -> (r: Option<u64>)
        requires
            old(self).wf(),
        ensures
            final (self).wf(),
            final (self).connections == old(self).connections,
            final (self).next_view_id == old(self).next_view_id,
            final (self).nodes@.len() == old(self).nodes@.len(),
            match r {
                None => *final (self) == *old(self) && (displayed_has_ast(old(self).nodes@, id)
                    ==> exists|i: int|
                    0 <= i < old(self).nodes@.len() && (#[trigger] old(self).nodes@[i]).ast_id
                        == id && old(self).nodes@[i].position == Some(position)),
                Some(v) => exists|i: int|
                    {
                        &&& 0 <= i < old(self).nodes@.len()
                        &&& (#[trigger] old(self).nodes@[i]).ast_id == id
                        &&& old(self).nodes@[i].view_id == v
                        &&& old(self).nodes@[i].position != Some(position)
                        &&& final (self).nodes@ == old(self).nodes@.update(
                            i,
                            final (self).nodes@[i],
                        )
                        &&& final (self).nodes@[i] == DisplayedNode {
                            position: Some(position),
                            ..old(self).nodes@[i]
                        }
                    },
            },
    {
        let found = self.find_ast_index(id);
        match found {
            None => None,
            Some(i) => {
                let same = match self.nodes[i].position {
                    Some(p) => p == position,
                    None => false,
                };
                if same {
                    None
                } else {
                    let ghost orig = self.nodes@;
                    let entry = self.nodes.remove(i);
                    let view_id = entry.view_id;
                    let new_entry = DisplayedNode { position: Some(position), ..entry };
                    self.nodes.insert(i, new_entry);
                    proof {
                        assert(self.nodes@ =~= orig.update(i as int, new_entry));
                        lemma_nodes_wf_update(
                            orig,
                            i as int,
                            new_entry,
                            old(self).next_view_id as int,
                        );
                    }
                    Some(view_id)
                }
            },
        }
    }

    /// The view moved a node: when the moved view id is displayed and the
    /// position is new, record it and hand back the backend node whose
    /// position the controller must be asked to update.
    pub fn node_position_changed(&mut self, id: u64, position: Position) -> (r: Option<u64>)
        requires
            old(self).wf(),
        ensures
            final (self).wf(),
            final (self).connections == old(self).connections,
            final (self).next_view_id == old(self).next_view_id,
            final (self).nodes@.len() == old(self).nodes@.len(),
            match r {
                None => *final (self) == *old(self) && (forall|i: int|
                    0 <= i < old(self).nodes@.len() && (#[trigger] old(self).nodes@[i]).view_id
                        == id ==> old(self).nodes@[i].position == Some(position)),
                Some(ast) => exists|i: int|
                    {
                        &&& 0 <= i < old(self).nodes@.len()
                        &&& (#[trigger] old(self).nodes@[i]).view_id == id
                        &&& old(self).nodes@[i].ast_id == ast
                        &&& old(self).nodes@[i].position != Some(position)
                        &&& final (self).nodes@ == old(self).nodes@.update(
                            i,
                            final (self).nodes@[i],
                        )
                        &&& final (self).nodes@[i] == DisplayedNode {
                            position: Some(position),
                            ..old(self).nodes@[i]
                        }
                    },
            },
    {
        let found = self.find_view_index(id);
        match found {
            None => None,
            Some(i) => {
                let same = match self.nodes[i].position {
                    Some(p) => p == position,
                    None => false,
                };
                if same {
                    None
                } else {
                    let ghost orig = self.nodes@;
                    let entry = self.nodes.remove(i);
                    let ast_id = entry.ast_id;
                    let new_entry = DisplayedNode { position: Some(position), ..entry };
                    self.nodes.insert(i, new_entry);
                    proof {
                        assert(self.nodes@ =~= orig.update(i as int, new_entry));
                        lemma_nodes_wf_update(
                            orig,
                            i as int,
                            new_entry,
                            old(self).next_view_id as int,
                        );
                    }
                    Some(ast_id)
                }
            },
        }
    }

    /// The view removed a node: purge its mapping and hand back the backend
    /// node the controller must be asked to remove.
    pub fn node_removed(&mut self, id: u64) -> (r: Option<u64>)
        requires
            old(self).wf(),
        ensures
            final (self).wf(),
            final (self).connections == old(self).connections,
            final (self).next_view_id == old(self).next_view_id,
            match r {
                None => *final (self) == *old(self) && (forall|i: int|
                    0 <= i < old(self).nodes@.len() ==> (#[trigger] old(self).nodes@[i]).view_id
                        != id),
                Some(ast) => exists|i: int|
                    {
                        &&& 0 <= i < old(self).nodes@.len()
                        &&& (#[trigger] old(self).nodes@[i]).view_id == id
                        &&& old(self).nodes@[i].ast_id == ast
                        &&& final (self).nodes@ == old(self).nodes@.remove(i)
                    },
            },
    {
        let found = self.find_view_index(id);
        match found {
            None => None,
            Some(i) => {
                let ghost orig = self.nodes@;
                let entry = self.nodes.remove(i);
                proof {
                    lemma_nodes_wf_remove(orig, i as int, old(self).next_view_id as int);
                }
                Some(entry.ast_id)
            },
        }
    }

    /// The index of the displayed connection under view id `id`, if any.
    fn find_connection_view_index(&self, id: u64) -> (r: Option<usize>)
        ensures
            match r {
                Some(i) => 0 <= i < self.connections@.len() && self.connections@[i as int].view_id
                    == id,
                None => forall|j: int|
                    0 <= j < self.connections@.len() ==> (
                    #[trigger] self.connections@[j]).view_id != id,
            },
    {
        let n = self.connections.len();
        let mut i: usize = 0;
        while i < n
            invariant
                i <= n,
                n == self.connections@.len(),
                forall|j: int| 0 <= j < i ==> (#[trigger] self.connections@[j]).view_id != id,
            decreases n - i,
        {
            if self.connections[i].view_id == id {
                return Some(i);
            }
            i = i + 1;
        }
        None
    }

    /// Whether connection `c` is displayed.
    fn connection_is_displayed(&self, c: Connection) -> (r: bool)
        ensures
            r == displayed_has_connection(self.connections@, c),
    {
        let n = self.connections.len();
        let mut i: usize = 0;
        while i < n
            invariant
                i <= n,
                n == self.connections@.len(),
                forall|j: int| 0 <= j < i ==> (#[trigger] self.connections@[j]).connection != c,
            decreases n - i,
        {
            if self.connections[i].connection == c {
                return true;
            }
            i = i + 1;
        }
        false
    }

    /// Make backend connection `connection` displayed, when it is not yet
    /// and both its endpoint nodes are: allocate the edge's view id and
    /// return it.  A connection touching an undisplayed node is silently
    /// left for a later cycle, a displayed one is a no-op: in both cases no
    /// event is owed.
    pub fn refresh_connection(&mut self, connection: Connection) -> (r: Option<u64>)
        requires
            old(self).wf(),
            old(self).next_view_id < u64::MAX,
        ensures
            final (self).wf(),
            final (self).nodes == old(self).nodes,
            match r {
                None => *final (self) == *old(self) && (displayed_has_connection(
                    old(self).connections@,
                    connection,
                ) || !displayed_has_ast(old(self).nodes@, connection.source_node)
                    || !displayed_has_ast(old(self).nodes@, connection.target_node)),
                Some(v) => {
                    &&& !displayed_has_connection(old(self).connections@, connection)
                    &&& displayed_has_ast(old(self).nodes@, connection.source_node)
                    &&& displayed_has_ast(old(self).nodes@, connection.target_node)
                    &&& v == old(self).next_view_id
                    &&& final (self).next_view_id == old(self).next_view_id + 1
                    &&& final (self).connections@ == old(self).connections@.push(
                        DisplayedConnection { connection, view_id: v },
                    )
                },
            },
    {
        if self.connection_is_displayed(connection) {
            return None;
        }
        let source = self.view_id_of_ast_node(connection.source_node);
        let target = self.view_id_of_ast_node(connection.target_node);
        if source.is_none() || target.is_none() {
            return None;
        }
        let view_id = self.next_view_id;
        self.next_view_id = view_id + 1;
        self.connections.push(DisplayedConnection { connection, view_id });
        Some(view_id)
    }

    /// The view wired a new edge between the nodes displayed under
    /// `source_view` and `target_view`: when both are displayed and the
    /// backend connection they form is not shown yet, record it under a
    /// fresh edge view id and hand back that id with the connection the
    /// controller must be asked to create.  Otherwise nothing changes and
    /// no backend call is owed.
    pub fn new_connection_created(
        &mut self,
        source_view: u64,
        source_port: u64,
        target_view: u64,
        target_port: u64,
    ) -> (r: Option<(u64, Connection)>)
        requires
            old(self).wf(),
            old(self).next_view_id < u64::MAX,
        ensures
            final (self).wf(),
            final (self).nodes == old(self).nodes,
            match r {
                None => *final (self) == *old(self) && {
                    ||| forall|i: int|
                        0 <= i < old(self).nodes@.len() ==> (#[trigger] old(
                            self,
                        ).nodes@[i]).view_id != source_view
                    ||| forall|i: int|
                        0 <= i < old(self).nodes@.len() ==> (#[trigger] old(
                            self,
                        ).nodes@[i]).view_id != target_view
                    ||| exists|i: int, j: int|
                        0 <= i < old(self).nodes@.len() && 0 <= j < old(self).nodes@.len() && (
                        #[trigger] old(self).nodes@[i]).view_id == source_view && (#[trigger] old(
                            self,
                        ).nodes@[j]).view_id == target_view && displayed_has_connection(
                            old(self).connections@,
                            (Connection {
                                source_node: old(self).nodes@[i].ast_id,
                                source_port,
                                target_node: old(self).nodes@[j].ast_id,
                                target_port,
                            }),
                        )
                },
                Some(ec) => {
                    &&& exists|i: int, j: int|
                        0 <= i < old(self).nodes@.len() && 0 <= j < old(self).nodes@.len() && (
                        #[trigger] old(self).nodes@[i]).view_id == source_view && (#[trigger] old(
                            self,
                        ).nodes@[j]).view_id == target_view && ec.1 == (Connection {
                            source_node: old(self).nodes@[i].ast_id,
                            source_port,
                            target_node: old(self).nodes@[j].ast_id,
                            target_port,
                        })
                    &&& !displayed_has_connection(old(self).connections@, ec.1)
                    &&& ec.0 == old(self).next_view_id
                    &&& final (self).next_view_id == old(self).next_view_id + 1
                    &&& final (self).connections@ == old(self).connections@.push(
                        (DisplayedConnection { connection: ec.1, view_id: ec.0 }),
                    )
                },
            },
    {
        let source = self.ast_id_of_view(source_view);
        let target = self.ast_id_of_view(target_view);
        match (source, target) {
            (Some(source_node), Some(target_node)) => {
                let connection = Connection {
                    source_node,
                    source_port,
                    target_node,
                    target_port,
                };
                if self.connection_is_displayed(connection) {
                    return None;
                }
                let view_id = self.next_view_id;
                self.next_view_id = view_id + 1;
                self.connections.push(DisplayedConnection { connection, view_id });
                Some((view_id, connection))
            },
            _ => None,
        }
    }

    /// The view dropped an edge: purge its mapping and hand back the
    /// backend connection the controller must be asked to disconnect.
    pub fn connection_removed(&mut self, id: u64) -> (r: Option<Connection>)
        requires
            old(self).wf(),
        ensures
            final (self).wf(),
            final (self).nodes == old(self).nodes,
            final (self).next_view_id == old(self).next_view_id,
            match r {
                None => *final (self) == *old(self) && (forall|i: int|
                    0 <= i < old(self).connections@.len() ==> (
                    #[trigger] old(self).connections@[i]).view_id != id),
                Some(c) => exists|i: int|
                    {
                        &&& 0 <= i < old(self).connections@.len()
                        &&& (#[trigger] old(self).connections@[i]).view_id == id
                        &&& old(self).connections@[i].connection == c
                        &&& final (self).connections@ == old(self).connections@.remove(i)
                    },
            },
    {
        let found = self.find_connection_view_index(id);
        match found {
            None => None,
            Some(i) => {
                let ghost orig = self.connections@;
                let entry = self.connections.remove(i);
                proof {
                    lemma_connections_wf_remove(orig, i as int, old(self).next_view_id as int);
                }
                Some(entry.connection)
            },
        }
    }

    /// The sub-expression ids of the node displayed under view id `id`;
    /// empty when no such node is displayed (a normal nothing-to-do case).
    pub fn subexpressions_of_node(&self, id: u64) -> (r: Vec<u64>)
        requires
            self.wf(),
        ensures
            forall|i: int|
                0 <= i < self.nodes@.len() && (#[trigger] self.nodes@[i]).view_id == id ==> {
                    &&& r@.len() == self.nodes@[i].subexpressions@.len()
                    &&& forall|k: int|
                        0 <= k < r@.len() ==> r@[k] == (
                        #[trigger] self.nodes@[i].subexpressions@[k]).id
                },
            (forall|i: int|
                0 <= i < self.nodes@.len() ==> (#[trigger] self.nodes@[i]).view_id != id)
                ==> r@.len() == 0,
    {
        let found = self.find_view_index(id);
        match found {
            None => Vec::new(),
            Some(i) => {
                let subs = &self.nodes[i].subexpressions;
                let n = subs.len();
                let mut r: Vec<u64> = Vec::new();
                let mut k: usize = 0;
                while k < n
                    invariant
                        k <= n,
                        n == subs@.len(),
                        r@.len() == k,
                        forall|w: int| 0 <= w < k ==> r@[w] == (#[trigger] subs@[w]).id,
                    decreases n - k,
                {
                    r.push(subs[k].id);
                    k = k + 1;
                }
                proof {
                    assert forall|a: int|
                        0 <= a < self.nodes@.len() && (#[trigger] self.nodes@[a]).view_id
                            == id implies a == i as int by {
                        if a != i as int {
                            assert(self.nodes@[a].view_id != self.nodes@[i as int].view_id);
                        }
                    }
                }
                r
            },
        }
    }
}

/// The two entries display the same node in the same place with the same
/// expression and the same sub-expression ids; only the type and
/// method-pointer annotations may differ.
pub open spec fn node_core_eq(a: DisplayedNode, b: DisplayedNode) -> bool {
    &&& a.ast_id == b.ast_id
    &&& a.view_id == b.view_id
    &&& a.position == b.position
    &&& a.expression == b.expression
    &&& a.subexpressions@.len() == b.subexpressions@.len()
    &&& forall|k: int|
        0 <= k < a.subexpressions@.len() ==> (#[trigger] a.subexpressions@[k]).id
            == b.subexpressions@[k].id
}

/// Whether `id` is a sub-expression of some displayed node.
pub open spec fn has_subexpression(ns: Seq<DisplayedNode>, id: u64) -> bool {
    exists|i: int, k: int|
        0 <= i < ns.len() && 0 <= k < ns[i].subexpressions@.len() && (#[trigger] ns[i].subexpressions@[k]).id == id
}

/// The index of the annotation row for sub-expression `id`, if any.
fn find_subexpr_index(subs: &Vec<SubexpressionInfo>, id: u64) -> (r: Option<usize>)
    ensures
        match r {
            Some(k) => 0 <= k < subs@.len() && subs@[k as int].id == id,
            None => forall|k: int| 0 <= k < subs@.len() ==> (#[trigger] subs@[k]).id != id,
        },
{
    let n = subs.len();
    let mut k: usize = 0;
    while k < n
        invariant
            k <= n,
            n == subs@.len(),
            forall|w: int| 0 <= w < k ==> (#[trigger] subs@[w]).id != id,
        decreases n - k,
    {
        if subs[k].id == id {
            return Some(k);
        }
        k = k + 1;
    }
    None
}

impl State {
    /// Store the freshly computed type of sub-expression `id` and return
    /// the view id of the node that shows it; when no displayed node has
    /// that sub-expression there is nothing to do.
    pub fn refresh_expression_type(&mut self, id: u64, typename: Option<Vec<u8>>) -> (r: Option<
        u64,
    >)
        requires
            old(self).wf(),
        ensures
            final (self).wf(),
            final (self).connections == old(self).connections,
            final (self).next_view_id == old(self).next_view_id,
            final (self).nodes@.len() == old(self).nodes@.len(),
            match r {
                None => *final (self) == *old(self) && !has_subexpression(old(self).nodes@, id),
                Some(v) => exists|i: int, k: int|
                    {
                        &&& 0 <= i < old(self).nodes@.len()
                        &&& 0 <= k < old(self).nodes@[i].subexpressions@.len()
                        &&& (#[trigger] old(self).nodes@[i].subexpressions@[k]).id == id
                        &&& old(self).nodes@[i].view_id == v
                        &&& final (self).nodes@ == old(self).nodes@.update(
                            i,
                            final (self).nodes@[i],
                        )
                        &&& final (self).nodes@[i].ast_id == old(self).nodes@[i].ast_id
                        &&& final (self).nodes@[i].view_id == old(self).nodes@[i].view_id
                        &&& final (self).nodes@[i].position == old(self).nodes@[i].position
                        &&& final (self).nodes@[i].expression == old(self).nodes@[i].expression
                        &&& final (self).nodes@[i].subexpressions@ == old(
                            self,
                        ).nodes@[i].subexpressions@.update(
                            k,
                            SubexpressionInfo {
                                id,
                                typename,
                                method_pointer: old(
                                    self,
                                ).nodes@[i].subexpressions@[k].method_pointer,
                            },
                        )
                    },
            },
    {
        let n = self.nodes.len();
        let mut i: usize = 0;
        while i < n
            invariant
                i <= n,
                n == self.nodes@.len(),
                *self == *old(self),
                old(self).wf(),
                forall|j: int, w: int|
                    0 <= j < i && 0 <= w < self.nodes@[j].subexpressions@.len() ==> (
                    #[trigger] self.nodes@[j].subexpressions@[w]).id != id,
            decreases n - i,
        {
            let found = find_subexpr_index(&self.nodes[i].subexpressions, id);
            match found {
                Some(k) => {
                    let ghost orig = self.nodes@;
                    let mut entry = self.nodes.remove(i);
                    let ghost osubs = entry.subexpressions@;
                    let sub = entry.subexpressions.remove(k);
                    let new_sub = SubexpressionInfo {
                        id: sub.id,
                        typename,
                        method_pointer: sub.method_pointer,
                    };
                    entry.subexpressions.insert(k, new_sub);
                    let view_id = entry.view_id;
                    let ghost e2 = entry;
                    self.nodes.insert(i, entry);
                    proof {
                        assert(e2.subexpressions@ =~= osubs.update(k as int, new_sub));
                        assert(self.nodes@ =~= orig.update(i as int, e2));
                        lemma_nodes_wf_update(
                            orig,
                            i as int,
                            e2,
                            old(self).next_view_id as int,
                        );
                    }
                    return Some(view_id);
                },
                None => {},
            }
            i = i + 1;
        }
        None
    }

    /// Store `typename` in annotation row `k` of the node displayed under
    /// view id `id`, and hand back that row's sub-expression id.  Without
    /// such a node or such a row there is nothing to do.
    pub fn set_subexpression_typename(
        &mut self,
        id: u64,
        k: usize,
        typename: Option<Vec<u8>>,
    ) -> (r: Option<u64>)
        requires
            old(self).wf(),
        ensures
            final (self).wf(),
            final (self).connections == old(self).connections,
            final (self).next_view_id == old(self).next_view_id,
            final (self).nodes@.len() == old(self).nodes@.len(),
            match r {
                None => *final (self) == *old(self) && (forall|i: int|
                    0 <= i < old(self).nodes@.len() && (#[trigger] old(self).nodes@[i]).view_id
                        == id ==> k >= old(self).nodes@[i].subexpressions@.len()),
                Some(sub) => exists|i: int|
                    {
                        &&& 0 <= i < old(self).nodes@.len()
                        &&& (#[trigger] old(self).nodes@[i]).view_id == id
                        &&& k < old(self).nodes@[i].subexpressions@.len()
                        &&& old(self).nodes@[i].subexpressions@[k as int].id == sub
                        &&& final (self).nodes@ == old(self).nodes@.update(
                            i,
                            final (self).nodes@[i],
                        )
                        &&& final (self).nodes@[i].ast_id == old(self).nodes@[i].ast_id
                        &&& final (self).nodes@[i].view_id == old(self).nodes@[i].view_id
                        &&& final (self).nodes@[i].position == old(self).nodes@[i].position
                        &&& final (self).nodes@[i].expression == old(self).nodes@[i].expression
                        &&& final (self).nodes@[i].subexpressions@ == old(
                            self,
                        ).nodes@[i].subexpressions@.update(
                            k as int,
                            SubexpressionInfo {
                                id: sub,
                                typename,
                                method_pointer: old(
                                    self,
                                ).nodes@[i].subexpressions@[k as int].method_pointer,
                            },
                        )
                    },
            },
    {
        let found = self.find_view_index(id);
        match found {
            None => None,
            Some(i) => {
                if k >= self.nodes[i].subexpressions.len() {
                    proof {
                        assert forall|a: int|
                            0 <= a < self.nodes@.len() && (#[trigger] self.nodes@[a]).view_id
                                == id implies a == i as int by {
                            if a != i as int {
                                assert(self.nodes@[a].view_id != self.nodes@[i as int].view_id);
                            }
                        }
                    }
                    return None;
                }
                let ghost orig = self.nodes@;
                let mut entry = self.nodes.remove(i);
                let ghost osubs = entry.subexpressions@;
                let sub = entry.subexpressions.remove(k);
                let sub_id = sub.id;
                let new_sub = SubexpressionInfo {
                    id: sub.id,
                    typename,
                    method_pointer: sub.method_pointer,
                };
                entry.subexpressions.insert(k, new_sub);
                let ghost e2 = entry;
                self.nodes.insert(i, entry);
                proof {
                    assert(e2.subexpressions@ =~= osubs.update(k as int, new_sub));
                    assert(self.nodes@ =~= orig.update(i as int, e2));
                    lemma_nodes_wf_update(orig, i as int, e2, old(self).next_view_id as int);
                }
                Some(sub_id)
            },
        }
    }

    /// Store `method_pointer` in annotation row `k` of the node displayed
    /// under view id `id`, and hand back that row's sub-expression id.
    pub fn set_subexpression_method_pointer(
        &mut self,
        id: u64,
        k: usize,
        method_pointer: Option<MethodPointer>,
    ) -> (r: Option<u64>)
        requires
            old(self).wf(),
        ensures
            final (self).wf(),
            final (self).connections == old(self).connections,
            final (self).next_view_id == old(self).next_view_id,
            final (self).nodes@.len() == old(self).nodes@.len(),
            match r {
                None => *final (self) == *old(self) && (forall|i: int|
                    0 <= i < old(self).nodes@.len() && (#[trigger] old(self).nodes@[i]).view_id
                        == id ==> k >= old(self).nodes@[i].subexpressions@.len()),
                Some(sub) => exists|i: int|
                    {
                        &&& 0 <= i < old(self).nodes@.len()
                        &&& (#[trigger] old(self).nodes@[i]).view_id == id
                        &&& k < old(self).nodes@[i].subexpressions@.len()
                        &&& old(self).nodes@[i].subexpressions@[k as int].id == sub
                        &&& final (self).nodes@ == old(self).nodes@.update(
                            i,
                            final (self).nodes@[i],
                        )
                        &&& final (self).nodes@[i].ast_id == old(self).nodes@[i].ast_id
                        &&& final (self).nodes@[i].view_id == old(self).nodes@[i].view_id
                        &&& final (self).nodes@[i].position == old(self).nodes@[i].position
                        &&& final (self).nodes@[i].expression == old(self).nodes@[i].expression
                        &&& final (self).nodes@[i].subexpressions@ == old(
                            self,
                        ).nodes@[i].subexpressions@.update(
                            k as int,
                            SubexpressionInfo {
                                id: sub,
                                typename: old(
                                    self,
                                ).nodes@[i].subexpressions@[k as int].typename,
                                method_pointer,
                            },
                        )
                    },
            },
    {
        let found = self.find_view_index(id);
        match found {
            None => None,
            Some(i) => {
                if k >= self.nodes[i].subexpressions.len() {
                    proof {
                        assert forall|a: int|
                            0 <= a < self.nodes@.len() && (#[trigger] self.nodes@[a]).view_id
                                == id implies a == i as int by {
                            if a != i as int {
                                assert(self.nodes@[a].view_id != self.nodes@[i as int].view_id);
                            }
                        }
                    }
                    return None;
                }
                let ghost orig = self.nodes@;
                let mut entry = self.nodes.remove(i);
                let ghost osubs = entry.subexpressions@;
                let sub = entry.subexpressions.remove(k);
                let sub_id = sub.id;
                let new_sub = SubexpressionInfo {
                    id: sub.id,
                    typename: sub.typename,
                    method_pointer,
                };
                entry.subexpressions.insert(k, new_sub);
                let ghost e2 = entry;
                self.nodes.insert(i, entry);
                proof {
                    assert(e2.subexpressions@ =~= osubs.update(k as int, new_sub));
                    assert(self.nodes@ =~= orig.update(i as int, e2));
                    lemma_nodes_wf_update(orig, i as int, e2, old(self).next_view_id as int);
                }
                Some(sub_id)
            },
        }
    }

    /// Store the freshly resolved method pointer of sub-expression `id` and
    /// return the view id of the node that shows it; when no displayed node
    /// has that sub-expression there is nothing to do.
    pub fn refresh_expression_method_pointer(
        &mut self,
        id: u64,
        method_pointer: Option<MethodPointer>,
    ) -> (r: Option<u64>)
        requires
            old(self).wf(),
        ensures
            final (self).wf(),
            final (self).connections == old(self).connections,
            final (self).next_view_id == old(self).next_view_id,
            final (self).nodes@.len() == old(self).nodes@.len(),
            match r {
                None => *final (self) == *old(self) && !has_subexpression(old(self).nodes@, id),
                Some(v) => exists|i: int, k: int|
                    {
                        &&& 0 <= i < old(self).nodes@.len()
                        &&& 0 <= k < old(self).nodes@[i].subexpressions@.len()
                        &&& (#[trigger] old(self).nodes@[i].subexpressions@[k]).id == id
                        &&& old(self).nodes@[i].view_id == v
                        &&& final (self).nodes@ == old(self).nodes@.update(
                            i,
                            final (self).nodes@[i],
                        )
                        &&& final (self).nodes@[i].ast_id == old(self).nodes@[i].ast_id
                        &&& final (self).nodes@[i].view_id == old(self).nodes@[i].view_id
                        &&& final (self).nodes@[i].position == old(self).nodes@[i].position
                        &&& final (self).nodes@[i].expression == old(self).nodes@[i].expression
                        &&& final (self).nodes@[i].subexpressions@ == old(
                            self,
                        ).nodes@[i].subexpressions@.update(
                            k,
                            SubexpressionInfo {
                                id,
                                typename: old(self).nodes@[i].subexpressions@[k].typename,
                                method_pointer,
                            },
                        )
                    },
            },
    {
        let n = self.nodes.len();
        let mut i: usize = 0;
        while i < n
            invariant
                i <= n,
                n == self.nodes@.len(),
                *self == *old(self),
                old(self).wf(),
                forall|j: int, w: int|
                    0 <= j < i && 0 <= w < self.nodes@[j].subexpressions@.len() ==> (
                    #[trigger] self.nodes@[j].subexpressions@[w]).id != id,
            decreases n - i,
        {
            let found = find_subexpr_index(&self.nodes[i].subexpressions, id);
            match found {
                Some(k) => {
                    let ghost orig = self.nodes@;
                    let mut entry = self.nodes.remove(i);
                    let ghost osubs = entry.subexpressions@;
                    let sub = entry.subexpressions.remove(k);
                    let new_sub = SubexpressionInfo {
                        id: sub.id,
                        typename: sub.typename,
                        method_pointer,
                    };
                    entry.subexpressions.insert(k, new_sub);
                    let view_id = entry.view_id;
                    let ghost e2 = entry;
                    self.nodes.insert(i, entry);
                    proof {
                        assert(e2.subexpressions@ =~= osubs.update(k as int, new_sub));
                        assert(self.nodes@ =~= orig.update(i as int, e2));
                        lemma_nodes_wf_update(
                            orig,
                            i as int,
                            e2,
                            old(self).next_view_id as int,
                        );
                    }
                    return Some(view_id);
                },
                None => {},
            }
            i = i + 1;
        }
        None
    }
}

} // verus!
