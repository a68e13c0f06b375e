use graph_presenter::presenter::ComputedValueInfo;
use graph_presenter::presenter::Notification;
use graph_presenter::presenter::NotificationAction;
use graph_presenter::presenter::Snapshot;
use graph_presenter::presenter::SuggestionEntry;
use graph_presenter::presenter::ViewUpdate;
use graph_presenter::presenter::all_method_pointers_of_node;
use graph_presenter::presenter::dedup_connections;
use graph_presenter::presenter::all_types_of_node;
use graph_presenter::presenter::expression_method;
use graph_presenter::presenter::expression_type;
use graph_presenter::presenter::handle_notification;
use graph_presenter::presenter::refresh_expression_type;
use graph_presenter::state::Connection;
use graph_presenter::state::MethodPointer;
use graph_presenter::state::NodeInfo;
use graph_presenter::state::Position;
use graph_presenter::state::State;

fn node(id: u64, code: &[u8], position: Option<Position>, subexpressions: Vec<u64>) -> NodeInfo {
    NodeInfo { id, code: code.to_vec(), position, subexpressions }
}

fn connection(source: u64, target: u64) -> Connection {
    Connection { source_node: source, source_port: 0, target_node: target, target_port: 1 }
}

fn snapshot_two_nodes() -> Snapshot {
    Snapshot {
        nodes: vec![
            node(1, b"1 + 2", Some(Position { x: 10, y: 20 }), vec![101, 102, 103]),
            node(2, b"foo", None, vec![]),
        ],
        connections: vec![connection(1, 2)],
    }
}

#[test]
fn first_refresh_displays_the_snapshot() {
    let mut state = State::new();
    let update = ViewUpdate::new(&mut state, &snapshot_two_nodes());
    assert_eq!(update.nodes_to_remove.len(), 0);
    assert_eq!(update.nodes_to_add.len(), 2);
    assert_eq!(update.nodes_to_add[0].ast_id, 1);
    assert_eq!(update.nodes_to_add[1].ast_id, 2);
    assert_eq!(update.nodes_to_add[0].position, Some(Position { x: 10, y: 20 }));
    assert_eq!(update.nodes_to_add[0].expression.input_span_tree.leaf_count(), 3);
    // Freshly added nodes already show their expression and position.
    assert_eq!(update.expressions_to_set.len(), 0);
    assert_eq!(update.positions_to_set.len(), 0);
    assert_eq!(update.connections_to_remove.len(), 0);
    assert_eq!(update.connections_to_add.len(), 1);
    assert_eq!(update.connections_to_add[0].0, connection(1, 2));
    assert!(state.view_id_of_ast_node(1).is_some());
    assert!(state.view_id_of_ast_node(2).is_some());
}

#[test]
fn applying_the_same_snapshot_twice_yields_no_events() {
    let mut state = State::new();
    let snapshot = snapshot_two_nodes();
    let first = ViewUpdate::new(&mut state, &snapshot);
    assert_eq!(first.nodes_to_add.len(), 2);
    let second = ViewUpdate::new(&mut state, &snapshot);
    assert_eq!(second.nodes_to_remove.len(), 0);
    assert_eq!(second.nodes_to_add.len(), 0);
    assert_eq!(second.expressions_to_set.len(), 0);
    assert_eq!(second.positions_to_set.len(), 0);
    assert_eq!(second.connections_to_remove.len(), 0);
    assert_eq!(second.connections_to_add.len(), 0);
}

#[test]
fn removed_backend_node_emits_one_remove_event_and_is_purged() {
    let mut state = State::new();
    let first = ViewUpdate::new(&mut state, &snapshot_two_nodes());
    let view_of_one = first.nodes_to_add[0].view_id;
    // The backend now reports node 1 gone, with its connection.
    let shrunk = Snapshot { nodes: vec![node(2, b"foo", None, vec![])], connections: vec![] };
    let second = ViewUpdate::new(&mut state, &shrunk);
    assert_eq!(second.nodes_to_remove, vec![view_of_one]);
    assert!(state.view_id_of_ast_node(1).is_none());
    assert!(state.view_id_of_ast_node(2).is_some());
    assert_eq!(second.connections_to_remove.len(), 1);
}

#[test]
fn changed_expression_and_position_are_refreshed() {
    let mut state = State::new();
    let first = ViewUpdate::new(&mut state, &snapshot_two_nodes());
    let view_of_one = first.nodes_to_add[0].view_id;
    let changed = Snapshot {
        nodes: vec![
            node(1, b"1 * 3", Some(Position { x: 7, y: 8 }), vec![101]),
            node(2, b"foo", None, vec![]),
        ],
        connections: vec![connection(1, 2)],
    };
    let second = ViewUpdate::new(&mut state, &changed);
    assert_eq!(second.nodes_to_remove.len(), 0);
    assert_eq!(second.nodes_to_add.len(), 0);
    assert_eq!(second.expressions_to_set.len(), 1);
    assert_eq!(second.expressions_to_set[0].0, view_of_one);
    assert_eq!(second.expressions_to_set[0].1.code, b"1 * 3".to_vec());
    assert_eq!(second.positions_to_set.len(), 1);
    assert_eq!(second.positions_to_set[0], (view_of_one, Position { x: 7, y: 8 }));
    assert_eq!(second.connections_to_remove.len(), 0);
    assert_eq!(second.connections_to_add.len(), 0);
}

#[test]
fn connection_to_undisplayed_node_is_left_for_a_later_cycle() {
    let mut state = State::new();
    let dangling = Snapshot {
        nodes: vec![node(1, b"x", None, vec![])],
        connections: vec![connection(1, 9)],
    };
    let update = ViewUpdate::new(&mut state, &dangling);
    assert_eq!(update.nodes_to_add.len(), 1);
    assert_eq!(update.connections_to_add.len(), 0);
}

#[test]
fn view_initiated_node_removal_hands_back_the_backend_id() {
    let mut state = State::new();
    let first = ViewUpdate::new(&mut state, &snapshot_two_nodes());
    let view_of_two = first.nodes_to_add[1].view_id;
    assert_eq!(state.node_removed(view_of_two), Some(2));
    assert!(state.view_id_of_ast_node(2).is_none());
    assert_eq!(state.node_removed(view_of_two), None);
}

#[test]
fn view_initiated_move_hands_back_the_backend_id_once() {
    let mut state = State::new();
    let first = ViewUpdate::new(&mut state, &snapshot_two_nodes());
    let view_of_one = first.nodes_to_add[0].view_id;
    let target = Position { x: -3, y: 4 };
    assert_eq!(state.node_position_changed(view_of_one, target), Some(1));
    // The same position again is a no-op: no echo back to the backend.
    assert_eq!(state.node_position_changed(view_of_one, target), None);
}

#[test]
fn view_initiated_edge_removal_hands_back_the_connection() {
    let mut state = State::new();
    let first = ViewUpdate::new(&mut state, &snapshot_two_nodes());
    let edge = first.connections_to_add[0].1;
    assert_eq!(state.connection_removed(edge), Some(connection(1, 2)));
    assert_eq!(state.connection_removed(edge), None);
}

#[test]
fn view_initiated_edge_creation_hands_back_the_connection() {
    let mut state = State::new();
    let first = ViewUpdate::new(&mut state, &snapshot_two_nodes());
    let v1 = first.nodes_to_add[0].view_id;
    let v2 = first.nodes_to_add[1].view_id;
    // The backend connection between nodes 1 and 2 on ports 0 and 1 is
    // already displayed, so wiring it again records nothing.
    assert_eq!(state.new_connection_created(v1, 0, v2, 1), None);
    let (edge, c) = state.new_connection_created(v2, 2, v1, 3).unwrap();
    assert_eq!(
        c,
        Connection { source_node: 2, source_port: 2, target_node: 1, target_port: 3 }
    );
    assert_eq!(state.connection_removed(edge), Some(c));
    // An edge from an unknown view node records nothing.
    assert_eq!(state.new_connection_created(9999, 0, v1, 0), None);
}

#[test]
fn duplicate_backend_connections_collapse_to_a_set() {
    let c1 = connection(1, 2);
    let c2 = connection(2, 1);
    let list = vec![c1, c2, c1, c1, c2];
    let d = dedup_connections(&list);
    assert_eq!(d.len(), 2);
    assert!(d.contains(&c1));
    assert!(d.contains(&c2));
}

fn registry() -> Vec<ComputedValueInfo> {
    vec![
        ComputedValueInfo { id: 101, typename: Some(b"Number".to_vec()), method_call: Some(7) },
        ComputedValueInfo { id: 102, typename: None, method_call: None },
    ]
}

fn suggestion_db() -> Vec<SuggestionEntry> {
    vec![SuggestionEntry {
        id: 7,
        method: MethodPointer { module: b"Standard.Base".to_vec(), name: b"plus".to_vec() },
    }]
}

#[test]
fn expression_type_reads_the_registry() {
    assert_eq!(expression_type(&registry(), 101), Some(b"Number".to_vec()));
    assert_eq!(expression_type(&registry(), 102), None);
    assert_eq!(expression_type(&registry(), 999), None);
}

#[test]
fn expression_method_resolves_through_the_suggestion_db() {
    let p = expression_method(&registry(), &suggestion_db(), 101).unwrap();
    assert_eq!(p.module, b"Standard.Base".to_vec());
    assert_eq!(p.name, b"plus".to_vec());
    assert!(expression_method(&registry(), &suggestion_db(), 102).is_none());
    assert!(expression_method(&registry(), &suggestion_db(), 999).is_none());
}

#[test]
fn all_types_of_node_covers_every_subexpression() {
    let mut state = State::new();
    let first = ViewUpdate::new(&mut state, &snapshot_two_nodes());
    let view_of_one = first.nodes_to_add[0].view_id;
    let overlays = all_types_of_node(&mut state, &registry(), view_of_one);
    assert_eq!(overlays.len(), 3);
    assert_eq!(overlays[0], (view_of_one, 101, Some(b"Number".to_vec())));
    assert_eq!(overlays[1], (view_of_one, 102, None));
    assert_eq!(overlays[2], (view_of_one, 103, None));
    let unknown = all_types_of_node(&mut state, &registry(), 9999);
    assert_eq!(unknown.len(), 0);
}

#[test]
fn all_method_pointers_of_node_covers_every_subexpression() {
    let mut state = State::new();
    let first = ViewUpdate::new(&mut state, &snapshot_two_nodes());
    let view_of_one = first.nodes_to_add[0].view_id;
    let overlays =
        all_method_pointers_of_node(&mut state, &registry(), &suggestion_db(), view_of_one);
    assert_eq!(overlays.len(), 3);
    assert_eq!(overlays[0].0, 101);
    let p = overlays[0].1.as_ref().unwrap();
    assert_eq!(p.name, b"plus".to_vec());
    assert!(overlays[1].1.is_none());
    assert!(overlays[2].1.is_none());
}

#[test]
fn refresh_expression_type_reports_the_owning_node() {
    let mut state = State::new();
    let first = ViewUpdate::new(&mut state, &snapshot_two_nodes());
    let view_of_one = first.nodes_to_add[0].view_id;
    let overlay = refresh_expression_type(&mut state, &registry(), 101);
    assert_eq!(overlay, Some((view_of_one, 101, Some(b"Number".to_vec()))));
    assert_eq!(refresh_expression_type(&mut state, &registry(), 999), None);
}

#[test]
fn notifications_dispatch_to_the_right_action() {
    assert!(matches!(
        handle_notification(Notification::GraphInvalidated),
        NotificationAction::UpdateView
    ));
    assert!(matches!(
        handle_notification(Notification::PortsUpdated),
        NotificationAction::UpdateView
    ));
    match handle_notification(Notification::ComputedValueInfo(vec![101, 102])) {
        NotificationAction::UpdateExpressions(ids) => assert_eq!(ids, vec![101, 102]),
        _ => panic!("expected an expression update"),
    }
    assert!(matches!(
        handle_notification(Notification::EnteredNode(1)),
        NotificationAction::Ignore
    ));
    assert!(matches!(
        handle_notification(Notification::SteppedOutOfNode(1)),
        NotificationAction::Ignore
    ));
}
