//! The refresh cycle and the controller-facing lookups.
//!
//! On every controller notification the presenter recomputes the full
//! backend node and connection list (a [`Snapshot`]), diffs it against the
//! displayed state, and yields a [`ViewUpdate`]: the add, remove and update
//! events the view must replay.  Applying the same snapshot twice yields no
//! further add or remove events on the second application: the first
//! application leaves the state synchronized, and a synchronized state
//! absorbs the snapshot without events.

use vstd::prelude::*;

use crate::expression::Expression;
use crate::state::AddedNode;
use crate::state::MethodPointer;
use crate::state::Connection;
use crate::state::NodeInfo;
use crate::state::Position;
use crate::state::State;
use crate::state::contains_connection;
use crate::state::contains_id;
use crate::state::displayed_has_ast;
use crate::state::displayed_has_connection;
use crate::state::dropped_node_views;
use crate::state::dropped_connection_views;
use crate::state::lemma_keep_nodes_all_alive;
use crate::state::lemma_keep_nodes_char;
use crate::state::lemma_keep_connections_all_alive;
use crate::state::lemma_keep_connections_char;

verus! {

/// The full backend graph as one refresh cycle sees it: every node and
/// every connection, each exactly once.
pub struct Snapshot {
    pub nodes: Vec<NodeInfo>,
    pub connections: Vec<Connection>,
}

/// The backend node ids of a snapshot, in backend order.
pub open spec fn snap_node_ids(snap: Snapshot) -> Seq<u64> {
    snap.nodes@.map_values(|n: NodeInfo| n.id)
}

impl Snapshot {
    /// A snapshot lists each node and each connection once.
    pub open spec fn wf(self) -> bool {
        &&& forall|i: int, j: int|
            0 <= i < j < self.nodes@.len() ==> (#[trigger] self.nodes@[i]).id != (
            #[trigger] self.nodes@[j]).id
        &&& forall|i: int, j: int|
            0 <= i < j < self.connections@.len() ==> self.connections@[i] != self.connections@[j]
    }
}

/// The backend node ids of a snapshot, for pruning.
pub fn node_ids(snapshot: &Snapshot) -> (r: Vec<u64>)
    ensures
        r@ == snap_node_ids(*snapshot),
{
    let n = snapshot.nodes.len();
    let mut r: Vec<u64> = Vec::new();
    let mut i: usize = 0;
    while i < n
        invariant
            i <= n,
            n == snapshot.nodes@.len(),
            r@.len() == i,
            forall|j: int| 0 <= j < i ==> r@[j] == (#[trigger] snapshot.nodes@[j]).id,
        decreases n - i,
    {
        r.push(snapshot.nodes[i].id);
        i = i + 1;
    }
    proof {
        assert(r@ =~= snap_node_ids(*snapshot));
    }
    r
}

/// Collapse a backend connection list into a set: keep the first
/// occurrence of each connection, in order.  The backend's connection
/// report has set semantics, so duplicates carry no information.
pub fn dedup_connections(connections: &Vec<Connection>) -> (r: Vec<Connection>)
    ensures
        forall|i: int, j: int| 0 <= i < j < r@.len() ==> r@[i] != r@[j],
        forall|i: int| 0 <= i < r@.len() ==> contains_connection(connections@, #[trigger] r@[i]),
        forall|i: int|
            0 <= i < connections@.len() ==> contains_connection(r@, #[trigger] connections@[i]),
{
    let n = connections.len();
    let mut r: Vec<Connection> = Vec::new();
    let mut i: usize = 0;
    while i < n
        invariant
            i <= n,
            n == connections@.len(),
            forall|a: int, b: int| 0 <= a < b < r@.len() ==> r@[a] != r@[b],
            forall|a: int|
                0 <= a < r@.len() ==> contains_connection(connections@, #[trigger] r@[a]),
            forall|a: int|
                0 <= a < i ==> contains_connection(r@, #[trigger] connections@[a]),
        decreases n - i,
    {
        let c = connections[i];
        let ghost prev = r@;
        if !crate::state::connection_list_contains(&r, c) {
            proof {
                assert(contains_connection(connections@, c));
            }
            r.push(c);
            proof {
                assert(r@ == prev.push(c));
                assert forall|a: int| 0 <= a < i + 1 implies contains_connection(
                    r@,
                    #[trigger] connections@[a],
                ) by {
                    if a < i {
                        let u = choose|u: int| 0 <= u < prev.len() && prev[u] == connections@[a];
                        assert(r@[u] == connections@[a]);
                    } else {
                        assert(r@[prev.len() as int] == c);
                    }
                }
                assert forall|a: int, b: int| 0 <= a < b < r@.len() implies r@[a] != r@[b] by {
                    if b == prev.len() {
                        assert(!contains_connection(prev, c));
                        assert(prev[a] == r@[a]);
                    } else {
                        assert(r@[a] == prev[a] && r@[b] == prev[b]);
                    }
                }
            }
        } else {
            proof {
                assert(contains_connection(r@, connections@[i as int]));
            }
        }
        i = i + 1;
    }
    r
}

/// Backend node `n` is faithfully displayed: some entry mirrors its id,
/// shows its regenerated expression, and shows its position when the
/// backend reports one.
pub open spec fn node_synced(s: State, n: NodeInfo) -> bool {
    exists|i: int|
        0 <= i < s.nodes@.len() && (#[trigger] s.nodes@[i]).ast_id == n.id
            && s.nodes@[i].expression.models_plain(n.code@) && (n.position is Some
            ==> s.nodes@[i].position == n.position)
}

/// Both endpoint nodes of `c` are displayed.
pub open spec fn endpoints_displayed(s: State, c: Connection) -> bool {
    displayed_has_ast(s.nodes@, c.source_node) && displayed_has_ast(s.nodes@, c.target_node)
}

/// The displayed nodes are exactly the snapshot's nodes, faithfully.
pub open spec fn nodes_synced(s: State, snap: Snapshot) -> bool {
    &&& forall|i: int|
        0 <= i < s.nodes@.len() ==> contains_id(
            snap_node_ids(snap),
            (#[trigger] s.nodes@[i]).ast_id,
        )
    &&& forall|j: int| 0 <= j < snap.nodes@.len() ==> node_synced(s, #[trigger] snap.nodes@[j])
}

/// The displayed connections are exactly the snapshot's connections whose
/// endpoint nodes are displayed.
pub open spec fn connections_synced(s: State, snap: Snapshot) -> bool {
    &&& forall|k: int|
        0 <= k < s.connections@.len() ==> contains_connection(
            snap.connections@,
            (#[trigger] s.connections@[k]).connection,
        )
    &&& forall|k: int|
        0 <= k < snap.connections@.len() && endpoints_displayed(s, #[trigger] snap.connections@[k])
            ==> displayed_has_connection(s.connections@, snap.connections@[k])
}

/// The edge event `ev` is recorded: the displayed connections hold its
/// connection under its view id.
pub open spec fn connection_event_recorded(
    ds: Seq<crate::state::DisplayedConnection>,
    ev: (Connection, u64),
) -> bool {
    exists|u: int| 0 <= u < ds.len() && (#[trigger] ds[u]).connection == ev.0 && ds[u].view_id == ev.1
}

/// The displayed state mirrors the snapshot: displayed nodes are exactly
/// the snapshot's nodes, faithfully; displayed connections are exactly the
/// snapshot's connections between displayed nodes.
pub open spec fn synced_with(s: State, snap: Snapshot) -> bool {
    &&& nodes_synced(s, snap)
    &&& connections_synced(s, snap)
}

/// The events one refresh cycle asks the view to replay.
pub struct ViewUpdate {
    pub nodes_to_remove: Vec<u64>,
    pub nodes_to_add: Vec<AddedNode>,
    pub expressions_to_set: Vec<(u64, Expression)>,
    pub positions_to_set: Vec<(u64, Position)>,
    pub connections_to_remove: Vec<u64>,
    pub connections_to_add: Vec<(Connection, u64)>,
}

/// Reconcile the set of displayed nodes: prune the displayed nodes the
/// backend no longer lists, then display the listed nodes not shown yet.
/// Returns the view ids to retire and the additions.
#[verifier::spinoff_prover]
#[verifier::rlimit(100)]
fn sync_node_set(state: &mut State, snapshot: &Snapshot) -> (r: (Vec<u64>, Vec<AddedNode>))
    requires
        old(state).wf(),
        snapshot.wf(),
        old(state).next_view_id + snapshot.nodes@.len() <= u64::MAX,
    ensures
        final (state).wf(),
        final (state).connections == old(state).connections,
        old(state).next_view_id <= final (state).next_view_id <= old(state).next_view_id
            + snapshot.nodes@.len(),
        r.0@ == dropped_node_views(old(state).nodes@, snap_node_ids(*snapshot)),
        forall|w: int|
            0 <= w < final (state).nodes@.len() ==> contains_id(
                snap_node_ids(*snapshot),
                (#[trigger] final (state).nodes@[w]).ast_id,
            ),
        forall|j: int|
            0 <= j < snapshot.nodes@.len() ==> displayed_has_ast(
                final (state).nodes@,
                (#[trigger] snapshot.nodes@[j]).id,
            ),
        forall|k: int|
            0 <= k < r.1@.len() ==> exists|i: int|
                0 <= i < snapshot.nodes@.len() && (#[trigger] r.1@[k]).ast_id == (
                #[trigger] snapshot.nodes@[i]).id && r.1@[k].expression.models_plain(
                    snapshot.nodes@[i].code@,
                ) && r.1@[k].position == snapshot.nodes@[i].position,
        nodes_synced(*old(state), *snapshot) ==> (r.0@.len() == 0 && r.1@.len() == 0 && final (state).nodes@ == old(state).nodes@ && final (state).next_view_id == old(state).next_view_id),
{
    let ghost s0 = *old(state);
    let ghost ids = snap_node_ids(*snapshot);

    // Prune nodes the backend no longer lists.
    let alive = node_ids(snapshot);
    let nodes_to_remove = state.retain_nodes(&alive);
    proof {
        lemma_keep_nodes_char(s0.nodes@, ids);
        if nodes_synced(s0, *snapshot) {
            lemma_keep_nodes_all_alive(s0.nodes@, ids);
        }
    }
    let ghost s_r = *state;

    // Display nodes the backend lists and the view does not show yet.
    let nodes_to_add = state.add_missing_nodes(&snapshot.nodes);
    let ghost s_a = *state;
    proof {
        if nodes_synced(s0, *snapshot) {
            assert(s_r.nodes@ == s0.nodes@);
            assert forall|j: int| 0 <= j < snapshot.nodes@.len() implies displayed_has_ast(
                s_r.nodes@,
                (#[trigger] snapshot.nodes@[j]).id,
            ) by {
                assert(node_synced(s0, snapshot.nodes@[j]));
            }
            if nodes_to_add@.len() > 0 {
                assert(!displayed_has_ast(s_r.nodes@, nodes_to_add@[0].ast_id));
                assert(exists|w: int|
                    0 <= w < snapshot.nodes@.len() && (#[trigger] snapshot.nodes@[w]).id
                        == nodes_to_add@[0].ast_id);
            }
            assert(nodes_to_add@.len() == 0);
            assert(s_a == s_r);
        }
        // Every displayed backend id is a snapshot id.
        assert forall|w: int| 0 <= w < s_a.nodes@.len() implies contains_id(
            ids,
            (#[trigger] s_a.nodes@[w]).ast_id,
        ) by {
            if w < s_r.nodes@.len() {
                assert(s_a.nodes@[w] == s_a.nodes@.take(s_r.nodes@.len() as int)[w]);
                assert(s_a.nodes@[w] == s_r.nodes@[w]);
                assert(s_r.nodes@.contains(s_r.nodes@[w]));
            } else {
                let k = w - s_r.nodes@.len();
                assert((#[trigger] nodes_to_add@[k]).ast_id == s_a.nodes@[w].ast_id);
                let v = choose|v: int|
                    0 <= v < snapshot.nodes@.len() && (#[trigger] snapshot.nodes@[v]).id
                        == nodes_to_add@[k].ast_id;
                assert(ids[v] == snapshot.nodes@[v].id);
            }
        }
    }
    (nodes_to_remove, nodes_to_add)
}

/// Refresh what the view shows for each listed node: its expression and
/// its position.  Returns the expressions and positions to set.
#[verifier::spinoff_prover]
#[verifier::rlimit(100)]
fn sync_node_content(state: &mut State, snapshot: &Snapshot) -> (r: (
    Vec<(u64, Expression)>,
    Vec<(u64, Position)>,
))
    requires
        old(state).wf(),
        snapshot.wf(),
        forall|w: int|
            0 <= w < old(state).nodes@.len() ==> contains_id(
                snap_node_ids(*snapshot),
                (#[trigger] old(state).nodes@[w]).ast_id,
            ),
        forall|j: int|
            0 <= j < snapshot.nodes@.len() ==> displayed_has_ast(
                old(state).nodes@,
                (#[trigger] snapshot.nodes@[j]).id,
            ),
    ensures
        final (state).wf(),
        final (state).connections == old(state).connections,
        final (state).next_view_id == old(state).next_view_id,
        final (state).nodes@.len() == old(state).nodes@.len(),
        forall|w: int|
            0 <= w < final (state).nodes@.len() ==> contains_id(
                snap_node_ids(*snapshot),
                (#[trigger] final (state).nodes@[w]).ast_id,
            ),
        forall|j: int|
            0 <= j < snapshot.nodes@.len() ==> exists|w: int|
                0 <= w < final (state).nodes@.len() && (#[trigger] final (state).nodes@[w]).ast_id
                    == (#[trigger] snapshot.nodes@[j]).id && final (state).nodes@[w].expression.models_plain(snapshot.nodes@[j].code@),
        forall|j: int|
            0 <= j < snapshot.nodes@.len() && (#[trigger] snapshot.nodes@[j]).position is Some
                ==> exists|w: int|
                0 <= w < final (state).nodes@.len() && (#[trigger] final (state).nodes@[w]).ast_id
                    == snapshot.nodes@[j].id && final (state).nodes@[w].position
                    == snapshot.nodes@[j].position,
        forall|k: int|
            0 <= k < r.0@.len() ==> exists|j: int|
                0 <= j < snapshot.nodes@.len() && (#[trigger] r.0@[k]).1.models_plain(
                    (#[trigger] snapshot.nodes@[j]).code@,
                ) && (exists|u: int|
                    0 <= u < final (state).nodes@.len() && (#[trigger] final (state).nodes@[u]).ast_id == snapshot.nodes@[j].id && final (state).nodes@[u].view_id == r.0@[k].0),
        forall|k: int|
            0 <= k < r.1@.len() ==> exists|j: int|
                0 <= j < snapshot.nodes@.len() && Some((#[trigger] r.1@[k]).1) == (
                #[trigger] snapshot.nodes@[j]).position && (exists|u: int|
                    0 <= u < final (state).nodes@.len() && (#[trigger] final (state).nodes@[u]).ast_id == snapshot.nodes@[j].id && final (state).nodes@[u].view_id == r.1@[k].0),
        nodes_synced(*old(state), *snapshot) ==> (r.0@.len() == 0 && r.1@.len() == 0 && final (state).nodes@ == old(state).nodes@),
{
    let ghost s0 = *old(state);
    let ghost s_a = *old(state);
    let ghost ids = snap_node_ids(*snapshot);

    // Refresh the expressions of all listed nodes.
    let mut expressions_to_set: Vec<(u64, Expression)> = Vec::new();
    let n_nodes = snapshot.nodes.len();
    let mut i: usize = 0;
    while i < n_nodes
        invariant
            i <= n_nodes,
            n_nodes == snapshot.nodes@.len(),
            snapshot.wf(),
            ids == snap_node_ids(*snapshot),
            state.wf(),
            state.nodes@.len() == s_a.nodes@.len(),
            state.connections == s_a.connections,
            state.next_view_id == s_a.next_view_id,
            forall|w: int|
                0 <= w < state.nodes@.len() ==> (#[trigger] state.nodes@[w]).ast_id
                    == s_a.nodes@[w].ast_id && state.nodes@[w].view_id == s_a.nodes@[w].view_id
                    && state.nodes@[w].position == s_a.nodes@[w].position,
            forall|j: int|
                0 <= j < snapshot.nodes@.len() ==> displayed_has_ast(
                    state.nodes@,
                    (#[trigger] snapshot.nodes@[j]).id,
                ),
            forall|w: int|
                0 <= w < state.nodes@.len() ==> contains_id(
                    ids,
                    (#[trigger] state.nodes@[w]).ast_id,
                ),
            forall|j: int|
                0 <= j < i ==> exists|w: int|
                    0 <= w < state.nodes@.len() && (#[trigger] state.nodes@[w]).ast_id == (
                    #[trigger] snapshot.nodes@[j]).id && state.nodes@[w].expression.models_plain(
                        snapshot.nodes@[j].code@,
                    ),
            forall|k: int|
                0 <= k < expressions_to_set@.len() ==> exists|j: int|
                    0 <= j < snapshot.nodes@.len() && (
                    #[trigger] expressions_to_set@[k]).1.models_plain(
                        (#[trigger] snapshot.nodes@[j]).code@,
                    ) && (exists|u: int|
                        0 <= u < state.nodes@.len() && (#[trigger] state.nodes@[u]).ast_id
                            == snapshot.nodes@[j].id && state.nodes@[u].view_id
                            == expressions_to_set@[k].0),
            nodes_synced(s0, *snapshot) ==> (s_a.nodes@ == s0.nodes@ && *state == s_a
                && expressions_to_set@.len() == 0),
        decreases n_nodes - i,
    {
        let ghost before = *state;
        let refreshed = state.refresh_node_expression(&snapshot.nodes[i]);
        proof {
            match &refreshed {
                Some(ve) => {
                    let w = choose|w: int|
                        {
                            &&& 0 <= w < before.nodes@.len()
                            &&& (#[trigger] before.nodes@[w]).ast_id == snapshot.nodes@[
                                i as int].id
                            &&& before.nodes@[w].view_id == ve.0
                            &&& !before.nodes@[w].expression.models_plain(
                                snapshot.nodes@[i as int].code@,
                            )
                            &&& state.nodes@ == before.nodes@.update(w, state.nodes@[w])
                            &&& crate::state::refreshed_entry(
                                before.nodes@[w],
                                state.nodes@[w],
                                snapshot.nodes@[i as int],
                            )
                        };
                    assert forall|u: int| 0 <= u < state.nodes@.len() implies (
                    #[trigger] state.nodes@[u]).ast_id == before.nodes@[u].ast_id
                        && state.nodes@[u].view_id == before.nodes@[u].view_id
                        && state.nodes@[u].position == before.nodes@[u].position by {
                        if u != w {
                            assert(state.nodes@[u] == before.nodes@[u]);
                        }
                    }
                    assert forall|j: int| 0 <= j < snapshot.nodes@.len() implies displayed_has_ast(
                        state.nodes@,
                        (#[trigger] snapshot.nodes@[j]).id,
                    ) by {
                        let u = choose|u: int|
                            0 <= u < before.nodes@.len() && (#[trigger] before.nodes@[u]).ast_id
                                == snapshot.nodes@[j].id;
                        assert(state.nodes@[u].ast_id == snapshot.nodes@[j].id);
                    }
                    assert forall|j: int| 0 <= j < i + 1 implies exists|u: int|
                        0 <= u < state.nodes@.len() && (#[trigger] state.nodes@[u]).ast_id == (
                        #[trigger] snapshot.nodes@[j]).id && state.nodes@[u].expression.models_plain(
                            snapshot.nodes@[j].code@,
                        ) by {
                        if j == i {
                            assert(state.nodes@[w].ast_id == snapshot.nodes@[j].id
                                && state.nodes@[w].expression.models_plain(
                                snapshot.nodes@[j].code@,
                            ));
                        } else {
                            let u = choose|u: int|
                                0 <= u < before.nodes@.len() && (
                                #[trigger] before.nodes@[u]).ast_id == (
                                #[trigger] snapshot.nodes@[j]).id
                                    && before.nodes@[u].expression.models_plain(
                                    snapshot.nodes@[j].code@,
                                );
                            if u == w {
                                assert(snapshot.nodes@[j].id != snapshot.nodes@[i as int].id);
                                assert(false);
                            }
                            assert(state.nodes@[u] == before.nodes@[u]);
                        }
                    }
                    if nodes_synced(s0, *snapshot) {
                        assert(before.nodes@ == s0.nodes@);
                        assert(node_synced(s0, snapshot.nodes@[i as int]));
                        let v = choose|v: int|
                            0 <= v < s0.nodes@.len() && (#[trigger] s0.nodes@[v]).ast_id
                                == snapshot.nodes@[i as int].id
                                && s0.nodes@[v].expression.models_plain(
                                snapshot.nodes@[i as int].code@,
                            );
                        assert(before.nodes@[v] == s0.nodes@[v]);
                        if w != v {
                            assert(before.nodes@[w].ast_id != before.nodes@[v].ast_id);
                        }
                        assert(false);
                    }
                },
                None => {
                    assert(*state == before);
                    assert(displayed_has_ast(before.nodes@, snapshot.nodes@[i as int].id));
                },
            }
        }
        let ghost events_before = expressions_to_set@;
        let ghost grefreshed = refreshed;
        match refreshed {
            Some(p) => expressions_to_set.push(p),
            None => {},
        }
        proof {
            match grefreshed {
                Some(ve) => {
                    let w = choose|w: int|
                        {
                            &&& 0 <= w < before.nodes@.len()
                            &&& (#[trigger] before.nodes@[w]).ast_id == snapshot.nodes@[
                                i as int].id
                            &&& before.nodes@[w].view_id == ve.0
                            &&& !before.nodes@[w].expression.models_plain(
                                snapshot.nodes@[i as int].code@,
                            )
                            &&& state.nodes@ == before.nodes@.update(w, state.nodes@[w])
                            &&& crate::state::refreshed_entry(
                                before.nodes@[w],
                                state.nodes@[w],
                                snapshot.nodes@[i as int],
                            )
                        };
                    assert forall|k: int| 0 <= k < expressions_to_set@.len() implies exists|
                        j: int,
                    |
                        0 <= j < snapshot.nodes@.len() && (
                        #[trigger] expressions_to_set@[k]).1.models_plain(
                            (#[trigger] snapshot.nodes@[j]).code@,
                        ) && (exists|u: int|
                            0 <= u < state.nodes@.len() && (#[trigger] state.nodes@[u]).ast_id
                                == snapshot.nodes@[j].id && state.nodes@[u].view_id
                                == expressions_to_set@[k].0) by {
                        if k < events_before.len() {
                            assert(expressions_to_set@[k] == events_before[k]);
                            let j = choose|j: int|
                                0 <= j < snapshot.nodes@.len() && (
                                #[trigger] events_before[k]).1.models_plain(
                                    (#[trigger] snapshot.nodes@[j]).code@,
                                ) && (exists|u: int|
                                    0 <= u < before.nodes@.len() && (
                                    #[trigger] before.nodes@[u]).ast_id == snapshot.nodes@[j].id
                                        && before.nodes@[u].view_id == events_before[k].0);
                            let u = choose|u: int|
                                0 <= u < before.nodes@.len() && (
                                #[trigger] before.nodes@[u]).ast_id == snapshot.nodes@[j].id
                                    && before.nodes@[u].view_id == events_before[k].0;
                            assert(state.nodes@[u].ast_id == before.nodes@[u].ast_id
                                && state.nodes@[u].view_id == before.nodes@[u].view_id);
                        } else {
                            assert(expressions_to_set@[k] == (ve.0, ve.1));
                            assert(ve.1.models_plain(snapshot.nodes@[i as int].code@));
                            assert(state.nodes@[w].ast_id == snapshot.nodes@[i as int].id);
                            assert(state.nodes@[w].view_id == ve.0);
                        }
                    }
                },
                None => {},
            }
        }
        i = i + 1;
    }
    let ghost s_e = *state;
    let ghost expressions_done = expressions_to_set@;

    // Refresh the positions of all listed nodes that report one.
    let mut positions_to_set: Vec<(u64, Position)> = Vec::new();
    let mut i2: usize = 0;
    while i2 < n_nodes
        invariant
            i2 <= n_nodes,
            n_nodes == snapshot.nodes@.len(),
            snapshot.wf(),
            ids == snap_node_ids(*snapshot),
            state.wf(),
            state.nodes@.len() == s_e.nodes@.len(),
            state.connections == s_e.connections,
            state.next_view_id == s_e.next_view_id,
            forall|w: int|
                0 <= w < state.nodes@.len() ==> (#[trigger] state.nodes@[w]).ast_id
                    == s_e.nodes@[w].ast_id && state.nodes@[w].view_id == s_e.nodes@[w].view_id
                    && state.nodes@[w].expression == s_e.nodes@[w].expression,
            forall|j: int|
                0 <= j < snapshot.nodes@.len() ==> exists|w: int|
                    0 <= w < state.nodes@.len() && (#[trigger] state.nodes@[w]).ast_id == (
                    #[trigger] snapshot.nodes@[j]).id && state.nodes@[w].expression.models_plain(
                        snapshot.nodes@[j].code@,
                    ),
            forall|w: int|
                0 <= w < state.nodes@.len() ==> contains_id(
                    ids,
                    (#[trigger] state.nodes@[w]).ast_id,
                ),
            forall|j: int|
                0 <= j < i2 && (#[trigger] snapshot.nodes@[j]).position is Some ==> exists|w: int|
                    0 <= w < state.nodes@.len() && (#[trigger] state.nodes@[w]).ast_id
                        == snapshot.nodes@[j].id && state.nodes@[w].position == snapshot.nodes@[
                        j].position,
            forall|k: int|
                0 <= k < expressions_done.len() ==> exists|j: int|
                    0 <= j < snapshot.nodes@.len() && (
                    #[trigger] expressions_done[k]).1.models_plain(
                        (#[trigger] snapshot.nodes@[j]).code@,
                    ) && (exists|u: int|
                        0 <= u < state.nodes@.len() && (#[trigger] state.nodes@[u]).ast_id
                            == snapshot.nodes@[j].id && state.nodes@[u].view_id
                            == expressions_done[k].0),
            forall|k: int|
                0 <= k < positions_to_set@.len() ==> exists|j: int|
                    0 <= j < snapshot.nodes@.len() && Some((#[trigger] positions_to_set@[k]).1)
                        == (#[trigger] snapshot.nodes@[j]).position && (exists|u: int|
                        0 <= u < state.nodes@.len() && (#[trigger] state.nodes@[u]).ast_id
                            == snapshot.nodes@[j].id && state.nodes@[u].view_id
                            == positions_to_set@[k].0),
            nodes_synced(s0, *snapshot) ==> (s_e.nodes@ == s0.nodes@ && *state == s_e
                && positions_to_set@.len() == 0),
        decreases n_nodes - i2,
    {
        let ghost before = *state;
        let position = snapshot.nodes[i2].position;
        match position {
            Some(p) => {
                let refreshed = state.refresh_node_position(snapshot.nodes[i2].id, p);
                proof {
                    match refreshed {
                        Some(v) => {
                            let w = choose|w: int|
                                {
                                    &&& 0 <= w < before.nodes@.len()
                                    &&& (#[trigger] before.nodes@[w]).ast_id == snapshot.nodes@[
                                        i2 as int].id
                                    &&& before.nodes@[w].view_id == v
                                    &&& before.nodes@[w].position != Some(p)
                                    &&& state.nodes@ == before.nodes@.update(w, state.nodes@[w])
                                    &&& state.nodes@[w] == crate::state::DisplayedNode {
                                        position: Some(p),
                                        ..before.nodes@[w]
                                    }
                                };
                            assert forall|u: int| 0 <= u < state.nodes@.len() implies (
                            #[trigger] state.nodes@[u]).ast_id == before.nodes@[u].ast_id
                                && state.nodes@[u].view_id == before.nodes@[u].view_id
                                && state.nodes@[u].expression == before.nodes@[u].expression by {
                                if u != w {
                                    assert(state.nodes@[u] == before.nodes@[u]);
                                }
                            }
                            assert forall|j: int|
                                0 <= j < i2 + 1 && (
                                #[trigger] snapshot.nodes@[j]).position is Some implies exists|
                                u: int,
                            |
                                0 <= u < state.nodes@.len() && (
                                #[trigger] state.nodes@[u]).ast_id == snapshot.nodes@[j].id
                                    && state.nodes@[u].position == snapshot.nodes@[
                                    j].position by {
                                if j == i2 {
                                    assert(state.nodes@[w].ast_id == snapshot.nodes@[j].id
                                        && state.nodes@[w].position == Some(p));
                                } else {
                                    let u = choose|u: int|
                                        0 <= u < before.nodes@.len() && (
                                        #[trigger] before.nodes@[u]).ast_id == snapshot.nodes@[
                                            j].id && before.nodes@[u].position == snapshot.nodes@[
                                            j].position;
                                    if u == w {
                                        assert(snapshot.nodes@[j].id != snapshot.nodes@[
                                            i2 as int].id);
                                        assert(false);
                                    }
                                    assert(state.nodes@[u] == before.nodes@[u]);
                                }
                            }
                            assert forall|j: int|
                                0 <= j < snapshot.nodes@.len() implies exists|u: int|
                                0 <= u < state.nodes@.len() && (
                                #[trigger] state.nodes@[u]).ast_id == (
                                #[trigger] snapshot.nodes@[j]).id
                                    && state.nodes@[u].expression.models_plain(
                                    snapshot.nodes@[j].code@,
                                ) by {
                                let u = choose|u: int|
                                    0 <= u < before.nodes@.len() && (
                                    #[trigger] before.nodes@[u]).ast_id == (
                                    #[trigger] snapshot.nodes@[j]).id
                                        && before.nodes@[u].expression.models_plain(
                                        snapshot.nodes@[j].code@,
                                    );
                                assert(state.nodes@[u].ast_id == before.nodes@[u].ast_id
                                    && state.nodes@[u].expression == before.nodes@[u].expression);
                            }
                            if nodes_synced(s0, *snapshot) {
                                assert(before.nodes@ == s0.nodes@);
                                assert(node_synced(s0, snapshot.nodes@[i2 as int]));
                                let v2 = choose|v2: int|
                                    0 <= v2 < s0.nodes@.len() && (
                                    #[trigger] s0.nodes@[v2]).ast_id == snapshot.nodes@[
                                        i2 as int].id && (snapshot.nodes@[i2 as int].position
                                        is Some ==> s0.nodes@[v2].position == snapshot.nodes@[
                                        i2 as int].position);
                                assert(before.nodes@[v2] == s0.nodes@[v2]);
                                if w != v2 {
                                    assert(before.nodes@[w].ast_id != before.nodes@[v2].ast_id);
                                }
                                assert(false);
                            }
                        },
                        None => {
                            assert(*state == before);
                        },
                    }
                }
                let ghost events_before = positions_to_set@;
                match refreshed {
                    Some(v) => positions_to_set.push((v, p)),
                    None => {},
                }
                proof {
                    match refreshed {
                        Some(v) => {
                            let w = choose|w: int|
                                {
                                    &&& 0 <= w < before.nodes@.len()
                                    &&& (#[trigger] before.nodes@[w]).ast_id == snapshot.nodes@[
                                        i2 as int].id
                                    &&& before.nodes@[w].view_id == v
                                    &&& before.nodes@[w].position != Some(p)
                                    &&& state.nodes@ == before.nodes@.update(w, state.nodes@[w])
                                    &&& state.nodes@[w] == crate::state::DisplayedNode {
                                        position: Some(p),
                                        ..before.nodes@[w]
                                    }
                                };
                            assert forall|k: int|
                                0 <= k < positions_to_set@.len() implies exists|j: int|
                                0 <= j < snapshot.nodes@.len() && Some(
                                    (#[trigger] positions_to_set@[k]).1,
                                ) == (#[trigger] snapshot.nodes@[j]).position && (exists|u: int|
                                    0 <= u < state.nodes@.len() && (
                                    #[trigger] state.nodes@[u]).ast_id == snapshot.nodes@[j].id
                                        && state.nodes@[u].view_id == positions_to_set@[
                                        k].0) by {
                                if k < events_before.len() {
                                    assert(positions_to_set@[k] == events_before[k]);
                                    let j = choose|j: int|
                                        0 <= j < snapshot.nodes@.len() && Some(
                                            (#[trigger] events_before[k]).1,
                                        ) == (#[trigger] snapshot.nodes@[j]).position && (exists|
                                            u: int,
                                        |
                                            0 <= u < before.nodes@.len() && (
                                            #[trigger] before.nodes@[u]).ast_id
                                                == snapshot.nodes@[j].id
                                                && before.nodes@[u].view_id == events_before[
                                                k].0);
                                    let u = choose|u: int|
                                        0 <= u < before.nodes@.len() && (
                                        #[trigger] before.nodes@[u]).ast_id == snapshot.nodes@[
                                            j].id && before.nodes@[u].view_id == events_before[
                                            k].0;
                                    assert(state.nodes@[u].ast_id == before.nodes@[u].ast_id
                                        && state.nodes@[u].view_id == before.nodes@[u].view_id);
                                } else {
                                    assert(positions_to_set@[k] == (v, p));
                                    assert(Some(p) == snapshot.nodes@[i2 as int].position);
                                    assert(state.nodes@[w].ast_id == snapshot.nodes@[
                                        i2 as int].id);
                                    assert(state.nodes@[w].view_id == v);
                                }
                            }
                        },
                        None => {},
                    }
                }
            },
            None => {},
        }
        i2 = i2 + 1;
    }
    (expressions_to_set, positions_to_set)
}

/// The connection half of a refresh cycle: prune stale connections and
/// display the snapshot's connections between displayed nodes.  Returns
/// the edge events: removals and additions.
#[verifier::spinoff_prover]
#[verifier::rlimit(100)]
fn refresh_connections_phase(state: &mut State, snapshot: &Snapshot) -> (r: (
    Vec<u64>,
    Vec<(Connection, u64)>,
))
    requires
        old(state).wf(),
        snapshot.wf(),
        old(state).next_view_id + snapshot.connections@.len() <= u64::MAX,
    ensures
        final (state).wf(),
        final (state).nodes == old(state).nodes,
        old(state).next_view_id <= final (state).next_view_id <= old(state).next_view_id
            + snapshot.connections@.len(),
        r.0@ == dropped_connection_views(old(state).connections@, snapshot.connections@),
        forall|k: int|
            0 <= k < final (state).connections@.len() ==> contains_connection(
                snapshot.connections@,
                (#[trigger] final (state).connections@[k]).connection,
            ),
        forall|k: int|
            0 <= k < snapshot.connections@.len() && endpoints_displayed(
                *final (state),
                #[trigger] snapshot.connections@[k],
            ) ==> displayed_has_connection(
                final (state).connections@,
                snapshot.connections@[k],
            ),
        forall|k: int|
            0 <= k < r.1@.len() ==> contains_connection(
                snapshot.connections@,
                (#[trigger] r.1@[k]).0,
            ),
        forall|k: int|
            0 <= k < r.1@.len() ==> connection_event_recorded(
                final (state).connections@,
                #[trigger] r.1@[k],
            ),
        connections_synced(*old(state), *snapshot) ==> (r.0@.len() == 0 && r.1@.len() == 0
            && final (state).connections@ == old(state).connections@ && final (state).next_view_id == old(state).next_view_id),
{
    let ghost s0 = *old(state);

    // Prune connections the backend no longer lists.
    let connections_to_remove = state.retain_connections(&snapshot.connections);
    proof {
        lemma_keep_connections_char(s0.connections@, snapshot.connections@);
        if connections_synced(s0, *snapshot) {
            lemma_keep_connections_all_alive(s0.connections@, snapshot.connections@);
        }
    }
    let ghost s_cr = *state;

    // Display connections the backend lists between displayed nodes.
    let mut connections_to_add: Vec<(Connection, u64)> = Vec::new();
    let n_conns = snapshot.connections.len();
    let mut i3: usize = 0;
    while i3 < n_conns
        invariant
            i3 <= n_conns,
            n_conns == snapshot.connections@.len(),
            snapshot.wf(),
            state.wf(),
            state.nodes == s0.nodes,
            state.next_view_id + (n_conns - i3) <= u64::MAX,
            s0.next_view_id <= state.next_view_id <= s0.next_view_id + i3,
            forall|k: int|
                0 <= k < state.connections@.len() ==> contains_connection(
                    snapshot.connections@,
                    (#[trigger] state.connections@[k]).connection,
                ),
            forall|k: int|
                0 <= k < s_cr.connections@.len() ==> state.connections@[k]
                    == s_cr.connections@[k],
            state.connections@.len() >= s_cr.connections@.len(),
            forall|k: int|
                0 <= k < i3 && endpoints_displayed(*state, #[trigger] snapshot.connections@[k])
                    ==> displayed_has_connection(state.connections@, snapshot.connections@[k]),
            forall|k: int|
                0 <= k < connections_to_add@.len() ==> contains_connection(
                    snapshot.connections@,
                    (#[trigger] connections_to_add@[k]).0,
                ) && connection_event_recorded(state.connections@, connections_to_add@[k]),
            connections_synced(s0, *snapshot) ==> (state.connections@ == s0.connections@
                && state.next_view_id == s0.next_view_id && connections_to_add@.len() == 0),
        decreases n_conns - i3,
    {
        let ghost before = *state;
        let c = snapshot.connections[i3];
        let refreshed = state.refresh_connection(c);
        proof {
            match refreshed {
                Some(v) => {
                    if connections_synced(s0, *snapshot) {
                        assert(displayed_has_ast(before.nodes@, c.source_node));
                        assert(displayed_has_ast(before.nodes@, c.target_node));
                        assert(endpoints_displayed(s0, c));
                        assert(displayed_has_connection(s0.connections@, c));
                        assert(!displayed_has_connection(before.connections@, c));
                        assert(false);
                    }
                    assert forall|k: int|
                        0 <= k < i3 + 1 && endpoints_displayed(
                            *state,
                            #[trigger] snapshot.connections@[k],
                        ) implies displayed_has_connection(
                        state.connections@,
                        snapshot.connections@[k],
                    ) by {
                        if k == i3 {
                            assert(state.connections@[state.connections@.len() - 1].connection
                                == c);
                        } else {
                            if endpoints_displayed(before, snapshot.connections@[k]) {
                                let u = choose|u: int|
                                    0 <= u < before.connections@.len() && (
                                    #[trigger] before.connections@[u]).connection
                                        == snapshot.connections@[k];
                                assert(state.connections@[u] == before.connections@[u]);
                            }
                        }
                    }
                },
                None => {
                    assert(*state == before);
                },
            }
        }
        let ghost events_before = connections_to_add@;
        match refreshed {
            Some(v) => connections_to_add.push((c, v)),
            None => {},
        }
        proof {
            match refreshed {
                Some(v) => {
                    assert forall|k: int|
                        0 <= k < connections_to_add@.len() implies contains_connection(
                        snapshot.connections@,
                        (#[trigger] connections_to_add@[k]).0,
                    ) && connection_event_recorded(
                        state.connections@,
                        connections_to_add@[k],
                    ) by {
                        if k < events_before.len() {
                            assert(connections_to_add@[k] == events_before[k]);
                            assert(connection_event_recorded(
                                before.connections@,
                                events_before[k],
                            ));
                            let u = choose|u: int|
                                0 <= u < before.connections@.len() && (
                                #[trigger] before.connections@[u]).connection == events_before[
                                    k].0 && before.connections@[u].view_id == events_before[k].1;
                            assert(state.connections@[u] == before.connections@[u]);
                        } else {
                            assert(connections_to_add@[k] == (c, v));
                            assert(snapshot.connections@[i3 as int] == c);
                            assert(state.connections@[state.connections@.len() - 1]
                                == crate::state::DisplayedConnection { connection: c, view_id: v });
                        }
                    }
                },
                None => {},
            }
        }
        i3 = i3 + 1;
    }
    (connections_to_remove, connections_to_add)
}

impl ViewUpdate {
    /// Whether the cycle asked for any addition or removal.
    pub open spec fn has_add_or_remove_events(self) -> bool {
        ||| self.nodes_to_remove@.len() > 0
        ||| self.nodes_to_add@.len() > 0
        ||| self.connections_to_remove@.len() > 0
        ||| self.connections_to_add@.len() > 0
    }

    /// One refresh cycle: prune stale nodes, display new ones, refresh
    /// expressions and positions, prune stale connections, display new
    /// ones.  It leaves the state synchronized with the snapshot, and a
    /// state already synchronized yields no events at all: reconciliation
    /// is idempotent.
    #[verifier::spinoff_prover]
    #[verifier::rlimit(100)]
    pub fn new(state: &mut State, snapshot: &Snapshot) -> (r: ViewUpdate)
        requires
            old(state).wf(),
            snapshot.wf(),
            old(state).next_view_id + snapshot.nodes@.len() + snapshot.connections@.len()
                <= u64::MAX,
        ensures
            final (state).wf(),
            synced_with(*final (state), *snapshot),
            r.nodes_to_remove@ == dropped_node_views(old(state).nodes@, snap_node_ids(*snapshot)),
            old(state).next_view_id <= final (state).next_view_id <= old(state).next_view_id
                + snapshot.nodes@.len() + snapshot.connections@.len(),
            forall|k: int|
                0 <= k < r.nodes_to_add@.len() ==> exists|i: int|
                    0 <= i < snapshot.nodes@.len() && (#[trigger] r.nodes_to_add@[k]).ast_id == (
                    #[trigger] snapshot.nodes@[i]).id && r.nodes_to_add@[k].expression.models_plain(
                        snapshot.nodes@[i].code@,
                    ) && r.nodes_to_add@[k].position == snapshot.nodes@[i].position,
            forall|k: int|
                0 <= k < r.expressions_to_set@.len() ==> exists|j: int|
                    0 <= j < snapshot.nodes@.len() && (
                    #[trigger] r.expressions_to_set@[k]).1.models_plain(
                        (#[trigger] snapshot.nodes@[j]).code@,
                    ) && (exists|u: int|
                        0 <= u < final (state).nodes@.len() && (#[trigger] final (state).nodes@[u]).ast_id
                            == snapshot.nodes@[j].id && final (state).nodes@[u].view_id
                            == r.expressions_to_set@[k].0),
            forall|k: int|
                0 <= k < r.positions_to_set@.len() ==> exists|j: int|
                    0 <= j < snapshot.nodes@.len() && Some((#[trigger] r.positions_to_set@[k]).1)
                        == (#[trigger] snapshot.nodes@[j]).position && (exists|u: int|
                        0 <= u < final (state).nodes@.len() && (#[trigger] final (state).nodes@[u]).ast_id
                            == snapshot.nodes@[j].id && final (state).nodes@[u].view_id
                            == r.positions_to_set@[k].0),
            forall|k: int|
                0 <= k < r.connections_to_add@.len() ==> contains_connection(
                    snapshot.connections@,
                    (#[trigger] r.connections_to_add@[k]).0,
                ) && connection_event_recorded(
                    final (state).connections@,
                    r.connections_to_add@[k],
                ),
            synced_with(*old(state), *snapshot) ==> !r.has_add_or_remove_events()
                && r.expressions_to_set@.len() == 0 && r.positions_to_set@.len() == 0,
    {
        let ghost s0 = *old(state);
        let set_phase = sync_node_set(state, snapshot);
        let ghost s_set = *state;
        proof {
            if synced_with(s0, *snapshot) {
                assert(s_set.nodes@ == s0.nodes@);
                assert forall|j: int| 0 <= j < snapshot.nodes@.len() implies node_synced(
                    s_set,
                    #[trigger] snapshot.nodes@[j],
                ) by {
                    assert(node_synced(s0, snapshot.nodes@[j]));
                    let v = choose|v: int|
                        0 <= v < s0.nodes@.len() && (#[trigger] s0.nodes@[v]).ast_id
                            == snapshot.nodes@[j].id && s0.nodes@[v].expression.models_plain(
                            snapshot.nodes@[j].code@,
                        ) && (snapshot.nodes@[j].position is Some ==> s0.nodes@[v].position
                            == snapshot.nodes@[j].position);
                    assert(s_set.nodes@[v] == s0.nodes@[v]);
                }
                assert forall|w: int| 0 <= w < s_set.nodes@.len() implies contains_id(
                    snap_node_ids(*snapshot),
                    (#[trigger] s_set.nodes@[w]).ast_id,
                ) by {
                    assert(s_set.nodes@[w] == s0.nodes@[w]);
                }
                assert(nodes_synced(s_set, *snapshot));
            }
        }
        let content_phase = sync_node_content(state, snapshot);
        let ghost s_p = *state;
        let connections_phase = refresh_connections_phase(state, snapshot);
        proof {
            if synced_with(s0, *snapshot) {
                // The node phase was a no-op, so the connection half of the
                // synchronization carries over to its starting state.
                assert(s_p.connections == s0.connections);
                assert forall|k: int| 0 <= k < s_p.connections@.len() implies contains_connection(
                    snapshot.connections@,
                    (#[trigger] s_p.connections@[k]).connection,
                ) by {
                    assert(s0.connections@[k] == s_p.connections@[k]);
                }
                assert forall|k: int|
                    0 <= k < snapshot.connections@.len() && endpoints_displayed(
                        s_p,
                        #[trigger] snapshot.connections@[k],
                    ) implies displayed_has_connection(
                    s_p.connections@,
                    snapshot.connections@[k],
                ) by {
                    assert(s_p.nodes@ == s0.nodes@);
                    assert(endpoints_displayed(s0, snapshot.connections@[k]));
                }
                assert(connections_synced(s_p, *snapshot));
            }
            // The final state mirrors the snapshot.
            assert forall|j: int| 0 <= j < snapshot.nodes@.len() implies node_synced(
                *state,
                #[trigger] snapshot.nodes@[j],
            ) by {
                let u = choose|u: int|
                    0 <= u < s_p.nodes@.len() && (#[trigger] s_p.nodes@[u]).ast_id
                        == snapshot.nodes@[j].id && s_p.nodes@[u].expression.models_plain(
                        snapshot.nodes@[j].code@,
                    );
                if snapshot.nodes@[j].position is Some {
                    let w = choose|w: int|
                        0 <= w < s_p.nodes@.len() && (#[trigger] s_p.nodes@[w]).ast_id
                            == snapshot.nodes@[j].id && s_p.nodes@[w].position == snapshot.nodes@[
                            j].position;
                    if u != w {
                        assert(s_p.nodes@[u].ast_id != s_p.nodes@[w].ast_id);
                    }
                }
                assert(state.nodes == s_p.nodes);
            }
            assert forall|w: int| 0 <= w < state.nodes@.len() implies contains_id(
                snap_node_ids(*snapshot),
                (#[trigger] state.nodes@[w]).ast_id,
            ) by {
                assert(state.nodes@[w] == s_p.nodes@[w]);
            }
            assert forall|k: int| 0 <= k < content_phase.0@.len() implies exists|j: int|
                0 <= j < snapshot.nodes@.len() && (
                #[trigger] content_phase.0@[k]).1.models_plain(
                    (#[trigger] snapshot.nodes@[j]).code@,
                ) && (exists|u: int|
                    0 <= u < state.nodes@.len() && (#[trigger] state.nodes@[u]).ast_id
                        == snapshot.nodes@[j].id && state.nodes@[u].view_id == content_phase.0@[
                        k].0) by {
                let j = choose|j: int|
                    0 <= j < snapshot.nodes@.len() && (
                    #[trigger] content_phase.0@[k]).1.models_plain(
                        (#[trigger] snapshot.nodes@[j]).code@,
                    ) && (exists|u: int|
                        0 <= u < s_p.nodes@.len() && (#[trigger] s_p.nodes@[u]).ast_id
                            == snapshot.nodes@[j].id && s_p.nodes@[u].view_id == content_phase.0@[
                            k].0);
                let u = choose|u: int|
                    0 <= u < s_p.nodes@.len() && (#[trigger] s_p.nodes@[u]).ast_id
                        == snapshot.nodes@[j].id && s_p.nodes@[u].view_id == content_phase.0@[
                        k].0;
                assert(state.nodes@[u] == s_p.nodes@[u]);
            }
            assert forall|k: int| 0 <= k < content_phase.1@.len() implies exists|j: int|
                0 <= j < snapshot.nodes@.len() && Some((#[trigger] content_phase.1@[k]).1) == (
                #[trigger] snapshot.nodes@[j]).position && (exists|u: int|
                    0 <= u < state.nodes@.len() && (#[trigger] state.nodes@[u]).ast_id
                        == snapshot.nodes@[j].id && state.nodes@[u].view_id == content_phase.1@[
                        k].0) by {
                let j = choose|j: int|
                    0 <= j < snapshot.nodes@.len() && Some((#[trigger] content_phase.1@[k]).1)
                        == (#[trigger] snapshot.nodes@[j]).position && (exists|u: int|
                        0 <= u < s_p.nodes@.len() && (#[trigger] s_p.nodes@[u]).ast_id
                            == snapshot.nodes@[j].id && s_p.nodes@[u].view_id == content_phase.1@[
                            k].0);
                let u = choose|u: int|
                    0 <= u < s_p.nodes@.len() && (#[trigger] s_p.nodes@[u]).ast_id
                        == snapshot.nodes@[j].id && s_p.nodes@[u].view_id == content_phase.1@[
                        k].0;
                assert(state.nodes@[u] == s_p.nodes@[u]);
            }
        }
        ViewUpdate {
            nodes_to_remove: set_phase.0,
            nodes_to_add: set_phase.1,
            expressions_to_set: content_phase.0,
            positions_to_set: content_phase.1,
            connections_to_remove: connections_phase.0,
            connections_to_add: connections_phase.1,
        }
    }
}

/// One entry of the computed-value-info registry: what the backend has
/// inferred for expression `id`.
pub struct ComputedValueInfo {
    pub id: u64,
    pub typename: Option<Vec<u8>>,
    pub method_call: Option<u64>,
}

/// One entry of the suggestion database: a method id and where that method
/// is defined.
pub struct SuggestionEntry {
    pub id: u64,
    pub method: MethodPointer,
}

/// The type name the registry holds for expression `id`, if any.
pub open spec fn spec_expression_type(rs: Seq<ComputedValueInfo>, id: u64) -> Option<Seq<u8>>
    decreases rs.len(),
{
    if rs.len() == 0 {
        None
    } else if rs[0].id == id {
        match rs[0].typename {
            Some(t) => Some(t@),
            None => None,
        }
    } else {
        spec_expression_type(rs.drop_first(), id)
    }
}

/// The method id the registry holds for expression `id`, if any.
pub open spec fn spec_method_call(rs: Seq<ComputedValueInfo>, id: u64) -> Option<u64>
    decreases rs.len(),
{
    if rs.len() == 0 {
        None
    } else if rs[0].id == id {
        rs[0].method_call
    } else {
        spec_method_call(rs.drop_first(), id)
    }
}

/// The method pointer the suggestion database holds for method `id`.
pub open spec fn spec_lookup_method(db: Seq<SuggestionEntry>, id: u64) -> Option<MethodPointer>
    decreases db.len(),
{
    if db.len() == 0 {
        None
    } else if db[0].id == id {
        Some(db[0].method)
    } else {
        spec_lookup_method(db.drop_first(), id)
    }
}

/// The resolved method pointer of expression `id`: its method id from the
/// registry, then that method's definition site from the database.
pub open spec fn spec_expression_method(
    rs: Seq<ComputedValueInfo>,
    db: Seq<SuggestionEntry>,
    id: u64,
) -> Option<MethodPointer> {
    match spec_method_call(rs, id) {
        Some(m) => spec_lookup_method(db, m),
        None => None,
    }
}

/// `t` is the registry's type for expression `id`: the stored name when
/// the registry has one, nothing when it does not.
pub open spec fn typename_from_registry(
    rs: Seq<ComputedValueInfo>,
    id: u64,
    t: Option<Vec<u8>>,
) -> bool {
    match t {
        Some(t) => spec_expression_type(rs, id) == Some(t@),
        None => spec_expression_type(rs, id) is None,
    }
}

/// `p` is the resolved method pointer for expression `id`: the definition
/// site the registry and suggestion database yield, or nothing.
pub open spec fn method_pointer_from(
    rs: Seq<ComputedValueInfo>,
    db: Seq<SuggestionEntry>,
    id: u64,
    p: Option<MethodPointer>,
) -> bool {
    match p {
        Some(p) => match spec_expression_method(rs, db, id) {
            Some(q) => p.module@ == q.module@ && p.name@ == q.name@,
            None => false,
        },
        None => spec_expression_method(rs, db, id) is None,
    }
}

/// The inferred type of expression `id`, from the registry.  A missing
/// entry or a missing type name is a normal nothing-to-do case.
pub fn expression_type(registry: &Vec<ComputedValueInfo>, id: u64) -> (r: Option<Vec<u8>>)
    ensures
        match r {
            Some(t) => spec_expression_type(registry@, id) == Some(t@),
            None => spec_expression_type(registry@, id) is None,
        },
{
    let n = registry.len();
    let mut i: usize = 0;
    proof {
        assert(registry@.skip(0) =~= registry@);
    }
    while i < n
        invariant
            i <= n,
            n == registry@.len(),
            spec_expression_type(registry@, id) == spec_expression_type(
                registry@.skip(i as int),
                id,
            ),
        decreases n - i,
    {
        proof {
            assert(registry@.skip(i as int)[0] == registry@[i as int]);
            assert(registry@.skip(i as int).drop_first() =~= registry@.skip(i as int + 1));
        }
        if registry[i].id == id {
            return match &registry[i].typename {
                Some(t) => Some(crate::expression::clone_bytes(t)),
                None => None,
            };
        }
        i = i + 1;
    }
    proof {
        assert(registry@.skip(n as int) =~= Seq::<ComputedValueInfo>::empty());
    }
    None
}

/// The registry's method id for expression `id`.
fn method_call_of(registry: &Vec<ComputedValueInfo>, id: u64) -> (r: Option<u64>)
    ensures
        r == spec_method_call(registry@, id),
{
    let n = registry.len();
    let mut i: usize = 0;
    proof {
        assert(registry@.skip(0) =~= registry@);
    }
    while i < n
        invariant
            i <= n,
            n == registry@.len(),
            spec_method_call(registry@, id) == spec_method_call(registry@.skip(i as int), id),
        decreases n - i,
    {
        proof {
            assert(registry@.skip(i as int)[0] == registry@[i as int]);
            assert(registry@.skip(i as int).drop_first() =~= registry@.skip(i as int + 1));
        }
        if registry[i].id == id {
            return registry[i].method_call;
        }
        i = i + 1;
    }
    proof {
        assert(registry@.skip(n as int) =~= Seq::<ComputedValueInfo>::empty());
    }
    None
}

/// The definition site of method `id`, copied out of the database.
fn lookup_method_ptr(suggestion_db: &Vec<SuggestionEntry>, id: u64) -> (r: Option<MethodPointer>)
    ensures
        match r {
            Some(p) => match spec_lookup_method(suggestion_db@, id) {
                Some(q) => p.module@ == q.module@ && p.name@ == q.name@,
                None => false,
            },
            None => spec_lookup_method(suggestion_db@, id) is None,
        },
{
    let n = suggestion_db.len();
    let mut i: usize = 0;
    proof {
        assert(suggestion_db@.skip(0) =~= suggestion_db@);
    }
    while i < n
        invariant
            i <= n,
            n == suggestion_db@.len(),
            spec_lookup_method(suggestion_db@, id) == spec_lookup_method(
                suggestion_db@.skip(i as int),
                id,
            ),
        decreases n - i,
    {
        proof {
            assert(suggestion_db@.skip(i as int)[0] == suggestion_db@[i as int]);
            assert(suggestion_db@.skip(i as int).drop_first() =~= suggestion_db@.skip(
                i as int + 1,
            ));
        }
        if suggestion_db[i].id == id {
            let p = MethodPointer {
                module: crate::expression::clone_bytes(&suggestion_db[i].method.module),
                name: crate::expression::clone_bytes(&suggestion_db[i].method.name),
            };
            return Some(p);
        }
        i = i + 1;
    }
    proof {
        assert(suggestion_db@.skip(n as int) =~= Seq::<SuggestionEntry>::empty());
    }
    None
}

/// The resolved method pointer of expression `id`: registry, then
/// suggestion database, each miss a normal nothing-to-do case.
pub fn expression_method(
    registry: &Vec<ComputedValueInfo>,
    suggestion_db: &Vec<SuggestionEntry>,
    id: u64,
) -> (r: Option<MethodPointer>)
    ensures
        match r {
            Some(p) => match spec_expression_method(registry@, suggestion_db@, id) {
                Some(q) => p.module@ == q.module@ && p.name@ == q.name@,
                None => false,
            },
            None => spec_expression_method(registry@, suggestion_db@, id) is None,
        },
{
    let method_id = method_call_of(registry, id);
    match method_id {
        Some(m) => lookup_method_ptr(suggestion_db, m),
        None => None,
    }
}

/// Refresh the stored type of sub-expression `id` from the registry and
/// report what the view must overlay: the owning node's view id, the
/// sub-expression, and its type.  An unknown sub-expression is a normal
/// nothing-to-do case.
pub fn refresh_expression_type(
    state: &mut State,
    registry: &Vec<ComputedValueInfo>,
    id: u64,
) -> (r: Option<(u64, u64, Option<Vec<u8>>)>)
    requires
        old(state).wf(),
    ensures
        final (state).wf(),
        final (state).connections == old(state).connections,
        final (state).next_view_id == old(state).next_view_id,
        final (state).nodes@.len() == old(state).nodes@.len(),
        forall|w: int|
            0 <= w < final (state).nodes@.len() ==> crate::state::node_core_eq(
                #[trigger] final (state).nodes@[w],
                old(state).nodes@[w],
            ),
        match r {
            None => *final (state) == *old(state) && !crate::state::has_subexpression(
                old(state).nodes@,
                id,
            ),
            Some(t3) => {
                &&& t3.1 == id
                &&& typename_from_registry(registry@, id, t3.2)
                &&& exists|i: int, k: int|
                    {
                        &&& 0 <= i < old(state).nodes@.len()
                        &&& 0 <= k < old(state).nodes@[i].subexpressions@.len()
                        &&& (#[trigger] old(state).nodes@[i].subexpressions@[k]).id == id
                        &&& old(state).nodes@[i].view_id == t3.0
                        &&& final (state).nodes@ == old(state).nodes@.update(
                            i,
                            final (state).nodes@[i],
                        )
                        &&& final (state).nodes@[i].ast_id == old(state).nodes@[i].ast_id
                        &&& final (state).nodes@[i].view_id == old(state).nodes@[i].view_id
                        &&& final (state).nodes@[i].position == old(state).nodes@[i].position
                        &&& final (state).nodes@[i].expression == old(state).nodes@[i].expression
                        &&& final (state).nodes@[i].subexpressions@.len() == old(
                            state,
                        ).nodes@[i].subexpressions@.len()
                        &&& (forall|w: int|
                            0 <= w < old(state).nodes@[i].subexpressions@.len() && w != k
                                ==> final (state).nodes@[i].subexpressions@[w] == old(
                                state,
                            ).nodes@[i].subexpressions@[w])
                        &&& final (state).nodes@[i].subexpressions@[k].id == id
                        &&& final (state).nodes@[i].subexpressions@[k].method_pointer == old(
                            state,
                        ).nodes@[i].subexpressions@[k].method_pointer
                        &&& typename_from_registry(
                            registry@,
                            id,
                            final (state).nodes@[i].subexpressions@[k].typename,
                        )
                    }
            },
        },
{
    let a_type = expression_type(registry, id);
    let stored = expression_type(registry, id);
    let ghost gstored = stored;
    let refreshed = state.refresh_expression_type(id, stored);
    proof {
        match refreshed {
            Some(v) => {
                assert forall|w: int| 0 <= w < state.nodes@.len() implies
                crate::state::node_core_eq(#[trigger] state.nodes@[w], old(state).nodes@[w]) by {}
                let (i, k): (int, int) = choose|i: int, k: int|
                    {
                        &&& 0 <= i < old(state).nodes@.len()
                        &&& 0 <= k < old(state).nodes@[i].subexpressions@.len()
                        &&& (#[trigger] old(state).nodes@[i].subexpressions@[k]).id == id
                        &&& old(state).nodes@[i].view_id == v
                        &&& state.nodes@ == old(state).nodes@.update(i, state.nodes@[i])
                        &&& state.nodes@[i].ast_id == old(state).nodes@[i].ast_id
                        &&& state.nodes@[i].view_id == old(state).nodes@[i].view_id
                        &&& state.nodes@[i].position == old(state).nodes@[i].position
                        &&& state.nodes@[i].expression == old(state).nodes@[i].expression
                        &&& state.nodes@[i].subexpressions@ == old(
                            state,
                        ).nodes@[i].subexpressions@.update(
                            k,
                            crate::state::SubexpressionInfo {
                                id,
                                typename: gstored,
                                method_pointer: old(
                                    state,
                                ).nodes@[i].subexpressions@[k].method_pointer,
                            },
                        )
                    };
                assert(state.nodes@[i].subexpressions@[k].typename == gstored);
                assert(typename_from_registry(registry@, id, gstored));
                assert forall|w: int|
                    0 <= w < old(state).nodes@[i].subexpressions@.len() && w != k implies
                state.nodes@[i].subexpressions@[w] == old(state).nodes@[i].subexpressions@[w] by {}
            },
            None => {},
        }
    }
    match refreshed {
        Some(v) => Some((v, id, a_type)),
        None => None,
    }
}

/// Refresh the stored method pointer of sub-expression `id` and report
/// what the view must overlay: the sub-expression and its resolved method
/// pointer, when the sub-expression is displayed at all.
pub fn refresh_expression_method_pointer(
    state: &mut State,
    registry: &Vec<ComputedValueInfo>,
    suggestion_db: &Vec<SuggestionEntry>,
    id: u64,
) -> (r: Option<(u64, Option<MethodPointer>)>)
    requires
        old(state).wf(),
    ensures
        final (state).wf(),
        final (state).connections == old(state).connections,
        final (state).next_view_id == old(state).next_view_id,
        final (state).nodes@.len() == old(state).nodes@.len(),
        forall|w: int|
            0 <= w < final (state).nodes@.len() ==> crate::state::node_core_eq(
                #[trigger] final (state).nodes@[w],
                old(state).nodes@[w],
            ),
        match r {
            None => *final (state) == *old(state) && !crate::state::has_subexpression(
                old(state).nodes@,
                id,
            ),
            Some(t2) => {
                &&& t2.0 == id
                &&& method_pointer_from(registry@, suggestion_db@, id, t2.1)
                &&& exists|i: int, k: int|
                    {
                        &&& 0 <= i < old(state).nodes@.len()
                        &&& 0 <= k < old(state).nodes@[i].subexpressions@.len()
                        &&& (#[trigger] old(state).nodes@[i].subexpressions@[k]).id == id
                        &&& final (state).nodes@ == old(state).nodes@.update(
                            i,
                            final (state).nodes@[i],
                        )
                        &&& final (state).nodes@[i].ast_id == old(state).nodes@[i].ast_id
                        &&& final (state).nodes@[i].view_id == old(state).nodes@[i].view_id
                        &&& final (state).nodes@[i].position == old(state).nodes@[i].position
                        &&& final (state).nodes@[i].expression == old(state).nodes@[i].expression
                        &&& final (state).nodes@[i].subexpressions@.len() == old(
                            state,
                        ).nodes@[i].subexpressions@.len()
                        &&& (forall|w: int|
                            0 <= w < old(state).nodes@[i].subexpressions@.len() && w != k
                                ==> final (state).nodes@[i].subexpressions@[w] == old(
                                state,
                            ).nodes@[i].subexpressions@[w])
                        &&& final (state).nodes@[i].subexpressions@[k].id == id
                        &&& final (state).nodes@[i].subexpressions@[k].typename == old(
                            state,
                        ).nodes@[i].subexpressions@[k].typename
                        &&& method_pointer_from(
                            registry@,
                            suggestion_db@,
                            id,
                            final (state).nodes@[i].subexpressions@[k].method_pointer,
                        )
                    }
            },
        },
{
    let method_pointer = expression_method(registry, suggestion_db, id);
    let stored = expression_method(registry, suggestion_db, id);
    let ghost gstored = stored;
    let refreshed = state.refresh_expression_method_pointer(id, stored);
    proof {
        match refreshed {
            Some(v) => {
                assert forall|w: int| 0 <= w < state.nodes@.len() implies
                crate::state::node_core_eq(#[trigger] state.nodes@[w], old(state).nodes@[w]) by {}
                let (i, k): (int, int) = choose|i: int, k: int|
                    {
                        &&& 0 <= i < old(state).nodes@.len()
                        &&& 0 <= k < old(state).nodes@[i].subexpressions@.len()
                        &&& (#[trigger] old(state).nodes@[i].subexpressions@[k]).id == id
                        &&& old(state).nodes@[i].view_id == v
                        &&& state.nodes@ == old(state).nodes@.update(i, state.nodes@[i])
                        &&& state.nodes@[i].ast_id == old(state).nodes@[i].ast_id
                        &&& state.nodes@[i].view_id == old(state).nodes@[i].view_id
                        &&& state.nodes@[i].position == old(state).nodes@[i].position
                        &&& state.nodes@[i].expression == old(state).nodes@[i].expression
                        &&& state.nodes@[i].subexpressions@ == old(
                            state,
                        ).nodes@[i].subexpressions@.update(
                            k,
                            crate::state::SubexpressionInfo {
                                id,
                                typename: old(state).nodes@[i].subexpressions@[k].typename,
                                method_pointer: gstored,
                            },
                        )
                    };
                assert(state.nodes@[i].subexpressions@[k].method_pointer == gstored);
                assert(method_pointer_from(registry@, suggestion_db@, id, gstored));
                assert forall|w: int|
                    0 <= w < old(state).nodes@[i].subexpressions@.len() && w != k implies
                state.nodes@[i].subexpressions@[w] == old(state).nodes@[i].subexpressions@[w] by {}
            },
            None => {},
        }
    }
    match refreshed {
        Some(v) => Some((id, method_pointer)),
        None => None,
    }
}
/// Refresh and report the type overlays of every sub-expression of the
/// node displayed under view id `node`: one triple per sub-expression, in
/// span order.  The node's annotation rows end up holding exactly the
/// refreshed types; everything else is left as it was.
pub fn all_types_of_node(
    state: &mut State,
    registry: &Vec<ComputedValueInfo>,
    node: u64,
) -> (r: Vec<(u64, u64, Option<Vec<u8>>)>)
    requires
        old(state).wf(),
    ensures
        final (state).wf(),
        final (state).connections == old(state).connections,
        final (state).next_view_id == old(state).next_view_id,
        final (state).nodes@.len() == old(state).nodes@.len(),
        forall|w: int|
            0 <= w < final (state).nodes@.len() ==> crate::state::node_core_eq(
                #[trigger] final (state).nodes@[w],
                old(state).nodes@[w],
            ),
        forall|k: int| 0 <= k < r@.len() ==> (#[trigger] r@[k]).0 == node,
        forall|i: int|
            0 <= i < old(state).nodes@.len() && (#[trigger] old(state).nodes@[i]).view_id == node
                ==> {
                &&& r@.len() == old(state).nodes@[i].subexpressions@.len()
                &&& forall|k: int|
                    0 <= k < r@.len() ==> (#[trigger] r@[k]).1 == old(
                        state,
                    ).nodes@[i].subexpressions@[k].id && typename_from_registry(
                        registry@,
                        r@[k].1,
                        r@[k].2,
                    )
                &&& (forall|w: int|
                    0 <= w < old(state).nodes@.len() && w != i ==> final (state).nodes@[w] == old(
                        state,
                    ).nodes@[w])
                &&& final (state).nodes@[i].subexpressions@.len() == old(
                    state,
                ).nodes@[i].subexpressions@.len()
                &&& forall|k: int|
                    0 <= k < old(state).nodes@[i].subexpressions@.len() ==> {
                        &&& (#[trigger] final (state).nodes@[i].subexpressions@[k]).id == old(
                            state,
                        ).nodes@[i].subexpressions@[k].id
                        &&& final (state).nodes@[i].subexpressions@[k].method_pointer == old(
                            state,
                        ).nodes@[i].subexpressions@[k].method_pointer
                        &&& typename_from_registry(
                            registry@,
                            old(state).nodes@[i].subexpressions@[k].id,
                            final (state).nodes@[i].subexpressions@[k].typename,
                        )
                    }
            },
        (forall|i: int|
            0 <= i < old(state).nodes@.len() ==> (#[trigger] old(state).nodes@[i]).view_id
                != node) ==> (r@.len() == 0 && *final (state) == *old(state)),
{
    let subexpressions = state.subexpressions_of_node(node);
    let n = subexpressions.len();
    let mut r: Vec<(u64, u64, Option<Vec<u8>>)> = Vec::new();
    let mut k: usize = 0;
    while k < n
        invariant
            k <= n,
            n == subexpressions@.len(),
            state.wf(),
            state.connections == old(state).connections,
            state.next_view_id == old(state).next_view_id,
            state.nodes@.len() == old(state).nodes@.len(),
            r@.len() == k,
            forall|w: int|
                0 <= w < k ==> (#[trigger] r@[w]).0 == node && r@[w].1 == subexpressions@[w]
                    && typename_from_registry(registry@, r@[w].1, r@[w].2),
            (forall|i: int|
                0 <= i < old(state).nodes@.len() ==> (#[trigger] old(state).nodes@[i]).view_id
                    != node) ==> *state == *old(state),
            forall|i: int|
                0 <= i < old(state).nodes@.len() && (#[trigger] old(state).nodes@[i]).view_id
                    == node ==> {
                    &&& n == old(state).nodes@[i].subexpressions@.len()
                    &&& (forall|w: int|
                        0 <= w < n ==> subexpressions@[w] == (#[trigger] old(
                            state,
                        ).nodes@[i].subexpressions@[w]).id)
                    &&& (forall|w: int|
                        0 <= w < old(state).nodes@.len() && w != i ==> state.nodes@[w] == old(
                            state,
                        ).nodes@[w])
                    &&& state.nodes@[i].ast_id == old(state).nodes@[i].ast_id
                    &&& state.nodes@[i].view_id == old(state).nodes@[i].view_id
                    &&& state.nodes@[i].position == old(state).nodes@[i].position
                    &&& state.nodes@[i].expression == old(state).nodes@[i].expression
                    &&& state.nodes@[i].subexpressions@.len() == n
                    &&& (forall|w: int|
                        0 <= w < n ==> (#[trigger] state.nodes@[i].subexpressions@[w]).id == old(
                            state,
                        ).nodes@[i].subexpressions@[w].id
                            && state.nodes@[i].subexpressions@[w].method_pointer == old(
                            state,
                        ).nodes@[i].subexpressions@[w].method_pointer)
                    &&& (forall|w: int|
                        0 <= w < k ==> typename_from_registry(
                            registry@,
                            old(state).nodes@[i].subexpressions@[w].id,
                            (#[trigger] state.nodes@[i].subexpressions@[w]).typename,
                        ))
                },
        decreases n - k,
    {
        let ghost before = *state;
        let id = subexpressions[k];
        let a_type = expression_type(registry, id);
        let stored = expression_type(registry, id);
        let ghost gstored = stored;
        let refreshed = state.set_subexpression_typename(node, k, stored);
        proof {
            if exists|i: int|
                0 <= i < old(state).nodes@.len() && (#[trigger] old(state).nodes@[i]).view_id
                    == node {
                let i = choose|i: int|
                    0 <= i < old(state).nodes@.len() && (#[trigger] old(
                        state,
                    ).nodes@[i]).view_id == node;
                assert(before.nodes@[i].view_id == node);
                match refreshed {
                    Some(sub) => {
                        let i2 = choose|i2: int|
                            {
                                &&& 0 <= i2 < before.nodes@.len()
                                &&& (#[trigger] before.nodes@[i2]).view_id == node
                                &&& k < before.nodes@[i2].subexpressions@.len()
                                &&& before.nodes@[i2].subexpressions@[k as int].id == sub
                                &&& state.nodes@ == before.nodes@.update(i2, state.nodes@[i2])
                                &&& state.nodes@[i2].ast_id == before.nodes@[i2].ast_id
                                &&& state.nodes@[i2].view_id == before.nodes@[i2].view_id
                                &&& state.nodes@[i2].position == before.nodes@[i2].position
                                &&& state.nodes@[i2].expression == before.nodes@[i2].expression
                                &&& state.nodes@[i2].subexpressions@
                                    == before.nodes@[i2].subexpressions@.update(
                                    k as int,
                                    crate::state::SubexpressionInfo {
                                        id: sub,
                                        typename: gstored,
                                        method_pointer: before.nodes@[i2].subexpressions@[k as int].method_pointer,
                                    },
                                )
                            };
                        if i2 != i {
                            assert(before.nodes@[i2].view_id != before.nodes@[i].view_id);
                        }
                        assert(i2 == i);
                        assert(state.nodes@[i].subexpressions@[k as int].typename == gstored);
                        assert(typename_from_registry(registry@, id, gstored));
                        assert(before.nodes@[i].subexpressions@[k as int].id == old(
                            state,
                        ).nodes@[i].subexpressions@[k as int].id);
                    },
                    None => {
                        assert(k < before.nodes@[i].subexpressions@.len());
                        assert(false);
                    },
                }
            } else {
                match refreshed {
                    Some(sub) => {
                        let i2 = choose|i2: int|
                            0 <= i2 < before.nodes@.len() && (#[trigger] before.nodes@[i2]).view_id == node;
                        assert(before == *old(state));
                        assert(old(state).nodes@[i2].view_id == node);
                        assert(false);
                    },
                    None => {},
                }
            }
        }
        r.push((node, id, a_type));
        k = k + 1;
    }
    r
}

/// Refresh and report the method-pointer overlays of every sub-expression
/// of the node displayed under view id `node`.  The node's annotation
/// rows end up holding exactly the refreshed pointers; everything else is
/// left as it was.
pub fn all_method_pointers_of_node(
    state: &mut State,
    registry: &Vec<ComputedValueInfo>,
    suggestion_db: &Vec<SuggestionEntry>,
    node: u64,
) -> (r: Vec<(u64, Option<MethodPointer>)>)
    requires
        old(state).wf(),
    ensures
        final (state).wf(),
        final (state).connections == old(state).connections,
        final (state).next_view_id == old(state).next_view_id,
        final (state).nodes@.len() == old(state).nodes@.len(),
        forall|w: int|
            0 <= w < final (state).nodes@.len() ==> crate::state::node_core_eq(
                #[trigger] final (state).nodes@[w],
                old(state).nodes@[w],
            ),
        forall|i: int|
            0 <= i < old(state).nodes@.len() && (#[trigger] old(state).nodes@[i]).view_id == node
                ==> {
                &&& r@.len() == old(state).nodes@[i].subexpressions@.len()
                &&& forall|k: int|
                    0 <= k < r@.len() ==> (#[trigger] r@[k]).0 == old(
                        state,
                    ).nodes@[i].subexpressions@[k].id && method_pointer_from(
                        registry@,
                        suggestion_db@,
                        r@[k].0,
                        r@[k].1,
                    )
                &&& (forall|w: int|
                    0 <= w < old(state).nodes@.len() && w != i ==> final (state).nodes@[w] == old(
                        state,
                    ).nodes@[w])
                &&& final (state).nodes@[i].subexpressions@.len() == old(
                    state,
                ).nodes@[i].subexpressions@.len()
                &&& forall|k: int|
                    0 <= k < old(state).nodes@[i].subexpressions@.len() ==> {
                        &&& (#[trigger] final (state).nodes@[i].subexpressions@[k]).id == old(
                            state,
                        ).nodes@[i].subexpressions@[k].id
                        &&& final (state).nodes@[i].subexpressions@[k].typename == old(
                            state,
                        ).nodes@[i].subexpressions@[k].typename
                        &&& method_pointer_from(
                            registry@,
                            suggestion_db@,
                            old(state).nodes@[i].subexpressions@[k].id,
                            final (state).nodes@[i].subexpressions@[k].method_pointer,
                        )
                    }
            },
        (forall|i: int|
            0 <= i < old(state).nodes@.len() ==> (#[trigger] old(state).nodes@[i]).view_id
                != node) ==> (r@.len() == 0 && *final (state) == *old(state)),
{
    let subexpressions = state.subexpressions_of_node(node);
    let n = subexpressions.len();
    let mut r: Vec<(u64, Option<MethodPointer>)> = Vec::new();
    let mut k: usize = 0;
    while k < n
        invariant
            k <= n,
            n == subexpressions@.len(),
            state.wf(),
            state.connections == old(state).connections,
            state.next_view_id == old(state).next_view_id,
            state.nodes@.len() == old(state).nodes@.len(),
            r@.len() == k,
            forall|w: int|
                0 <= w < k ==> (#[trigger] r@[w]).0 == subexpressions@[w]
                    && method_pointer_from(registry@, suggestion_db@, r@[w].0, r@[w].1),
            (forall|i: int|
                0 <= i < old(state).nodes@.len() ==> (#[trigger] old(state).nodes@[i]).view_id
                    != node) ==> *state == *old(state),
            forall|i: int|
                0 <= i < old(state).nodes@.len() && (#[trigger] old(state).nodes@[i]).view_id
                    == node ==> {
                    &&& n == old(state).nodes@[i].subexpressions@.len()
                    &&& (forall|w: int|
                        0 <= w < n ==> subexpressions@[w] == (#[trigger] old(
                            state,
                        ).nodes@[i].subexpressions@[w]).id)
                    &&& (forall|w: int|
                        0 <= w < old(state).nodes@.len() && w != i ==> state.nodes@[w] == old(
                            state,
                        ).nodes@[w])
                    &&& state.nodes@[i].ast_id == old(state).nodes@[i].ast_id
                    &&& state.nodes@[i].view_id == old(state).nodes@[i].view_id
                    &&& state.nodes@[i].position == old(state).nodes@[i].position
                    &&& state.nodes@[i].expression == old(state).nodes@[i].expression
                    &&& state.nodes@[i].subexpressions@.len() == n
                    &&& (forall|w: int|
                        0 <= w < n ==> (#[trigger] state.nodes@[i].subexpressions@[w]).id == old(
                            state,
                        ).nodes@[i].subexpressions@[w].id
                            && state.nodes@[i].subexpressions@[w].typename == old(
                            state,
                        ).nodes@[i].subexpressions@[w].typename)
                    &&& (forall|w: int|
                        0 <= w < k ==> method_pointer_from(
                            registry@,
                            suggestion_db@,
                            old(state).nodes@[i].subexpressions@[w].id,
                            (#[trigger] state.nodes@[i].subexpressions@[w]).method_pointer,
                        ))
                },
        decreases n - k,
    {
        let ghost before = *state;
        let id = subexpressions[k];
        let method_pointer = expression_method(registry, suggestion_db, id);
        let stored = expression_method(registry, suggestion_db, id);
        let ghost gstored = stored;
        let refreshed = state.set_subexpression_method_pointer(node, k, stored);
        proof {
            if exists|i: int|
                0 <= i < old(state).nodes@.len() && (#[trigger] old(state).nodes@[i]).view_id
                    == node {
                let i = choose|i: int|
                    0 <= i < old(state).nodes@.len() && (#[trigger] old(
                        state,
                    ).nodes@[i]).view_id == node;
                assert(before.nodes@[i].view_id == node);
                match refreshed {
                    Some(sub) => {
                        let i2 = choose|i2: int|
                            {
                                &&& 0 <= i2 < before.nodes@.len()
                                &&& (#[trigger] before.nodes@[i2]).view_id == node
                                &&& k < before.nodes@[i2].subexpressions@.len()
                                &&& before.nodes@[i2].subexpressions@[k as int].id == sub
                                &&& state.nodes@ == before.nodes@.update(i2, state.nodes@[i2])
                                &&& state.nodes@[i2].ast_id == before.nodes@[i2].ast_id
                                &&& state.nodes@[i2].view_id == before.nodes@[i2].view_id
                                &&& state.nodes@[i2].position == before.nodes@[i2].position
                                &&& state.nodes@[i2].expression == before.nodes@[i2].expression
                                &&& state.nodes@[i2].subexpressions@
                                    == before.nodes@[i2].subexpressions@.update(
                                    k as int,
                                    crate::state::SubexpressionInfo {
                                        id: sub,
                                        typename: before.nodes@[i2].subexpressions@[k as int].typename,
                                        method_pointer: gstored,
                                    },
                                )
                            };
                        if i2 != i {
                            assert(before.nodes@[i2].view_id != before.nodes@[i].view_id);
                        }
                        assert(i2 == i);
                        assert(state.nodes@[i].subexpressions@[k as int].method_pointer
                            == gstored);
                        assert(method_pointer_from(registry@, suggestion_db@, id, gstored));
                        assert(before.nodes@[i].subexpressions@[k as int].id == old(
                            state,
                        ).nodes@[i].subexpressions@[k as int].id);
                    },
                    None => {
                        assert(k < before.nodes@[i].subexpressions@.len());
                        assert(false);
                    },
                }
            } else {
                match refreshed {
                    Some(sub) => {
                        let i2 = choose|i2: int|
                            0 <= i2 < before.nodes@.len() && (#[trigger] before.nodes@[i2]).view_id == node;
                        assert(before == *old(state));
                        assert(old(state).nodes@[i2].view_id == node);
                        assert(false);
                    },
                    None => {},
                }
            }
        }
        r.push((id, method_pointer));
        k = k + 1;
    }
    r
}

/// A notification from the graph controller.
pub enum Notification {
    /// The whole graph may have changed.
    GraphInvalidated,
    /// The connection endpoints of the graph may have changed.
    PortsUpdated,
    /// New computed-value information arrived for these expressions.
    ComputedValueInfo(Vec<u64>),
    /// The user stepped into a node; the graph shown here is unaffected.
    EnteredNode(u64),
    /// The user stepped out of a node; the graph shown here is unaffected.
    SteppedOutOfNode(u64),
}

/// What the presenter does in response to a notification.
pub enum NotificationAction {
    /// Recompute the full snapshot and run a refresh cycle.
    UpdateView,
    /// Refresh the type and method-pointer overlays of these expressions.
    UpdateExpressions(Vec<u64>),
    /// Nothing to do.
    Ignore,
}

/// The dispatch rule of the controller-notification loop: invalidations
/// and port updates refresh the whole view, computed-value information
/// refreshes expression overlays, node entry and exit are ignored.
pub fn handle_notification(notification: Notification) -> (r: NotificationAction)
    ensures
        match notification {
            Notification::GraphInvalidated => r == NotificationAction::UpdateView,
            Notification::PortsUpdated => r == NotificationAction::UpdateView,
            Notification::ComputedValueInfo(ids) => r == NotificationAction::UpdateExpressions(
                ids,
            ),
            Notification::EnteredNode(_) => r == NotificationAction::Ignore,
            Notification::SteppedOutOfNode(_) => r == NotificationAction::Ignore,
        },
{
    match notification {
        Notification::GraphInvalidated => NotificationAction::UpdateView,
        Notification::PortsUpdated => NotificationAction::UpdateView,
        Notification::ComputedValueInfo(ids) => NotificationAction::UpdateExpressions(ids),
        Notification::EnteredNode(_) => NotificationAction::Ignore,
        Notification::SteppedOutOfNode(_) => NotificationAction::Ignore,
    }
}

} // verus!

