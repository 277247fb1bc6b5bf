use gearbox_editor::graph_view::NodeTint;
use gearbox_editor::demo_graph::{
    connect_ops, entity_field_names, ComponentInfo, DemoNode, EntityNode, FieldInfo, InPinId, OutPinId, WireOp,
};
use gearbox_editor::graph_view::{
    detect_resize_edge, opens_editor_window, output_pins, ComponentDialogState, ResizeEdge, TransitionCreationState,
    ZonePointer,
};
use gearbox_editor::pins::{
    ensure_node_pins, initial_state_connection, listener_connections, orphaned_states, zone_change, Connection,
    NodePin, ParentLink, PinType, ZoneChange,
};
use gearbox_editor::ports::{
    are_opposite_edges, are_same_edge_side, choose_route, connection_edges, port_slots, routing_shape,
    ConnectionShape, EdgeSide, ManhattanRoute,
};

fn field(name: &str, index: usize, ty: &str) -> FieldInfo {
    FieldInfo { name: name.to_string(), field_index: index, field_type_name: ty.to_string() }
}

fn demo_node() -> DemoNode {
    let target = ComponentInfo {
        name: "Target".to_string(),
        full_type_name: "game::Target".to_string(),
        fields: vec![field("entity", 0, "bevy_ecs::entity::Entity"), field("range", 1, "f32")],
    };
    let links = ComponentInfo {
        name: "Links".to_string(),
        full_type_name: "game::Links".to_string(),
        fields: vec![field("next", 0, "bevy_ecs::entity::Entity"), field("prev", 1, "bevy_ecs::entity::Entity")],
    };
    DemoNode::Entity(EntityNode { entity: 42, name: "Guard".to_string(), components: vec![target, links] })
}

#[test]
fn demo_node_pins_come_from_entity_fields() {
    let node = demo_node();
    assert_eq!(node.name(), "Guard");
    assert_eq!(node.title(), "Guard");
    assert_eq!(node.inputs(), 1);
    assert_eq!(node.outputs(), 3);
    assert_eq!(node.output_label(0), Some("entity".to_string()));
    assert_eq!(node.output_label(2), Some("prev".to_string()));
    assert_eq!(node.output_label(3), None);
    assert_eq!(node.hover_component_count(), "2 components");
    match &node {
        DemoNode::Entity(n) => assert_eq!(entity_field_names(&n.components), vec!["entity", "next", "prev"]),
    }
}

#[test]
fn numbered_entity_nodes() {
    let n = EntityNode::numbered(7, 12);
    assert_eq!(n.entity, 7);
    assert_eq!(n.name, "Entity 12");
    assert!(n.components.is_empty());
    assert_eq!(EntityNode::numbered(0, 0).name, "Entity 0");
}

#[test]
fn connecting_replaces_the_wires_into_an_input() {
    let to = InPinId { node: 3, input: 0 };
    let from = OutPinId { node: 1, output: 2 };
    let old = vec![OutPinId { node: 4, output: 0 }, OutPinId { node: 5, output: 1 }];
    let ops = connect_ops(from, to, &old);
    assert_eq!(
        ops,
        vec![WireOp::Disconnect(old[0], to), WireOp::Disconnect(old[1], to), WireOp::Connect(from, to)]
    );
    assert_eq!(connect_ops(from, to, &Vec::new()), vec![WireOp::Connect(from, to)]);
}

fn pin(t: PinType, index: usize, label: &str) -> NodePin {
    NodePin { pin_type: t, pin_index: index, label: label.to_string() }
}

fn pin_tuples(pins: &[NodePin]) -> Vec<(PinType, usize, String)> {
    pins.iter().map(|p| (p.pin_type, p.pin_index, p.label.clone())).collect()
}

#[test]
fn pins_are_discovered_once() {
    let mut pins = Vec::new();
    let paths = vec![
        "bevy_core::Name".to_string(),
        "bevy_gearbox::TransitionListener<game::OnInvoke>".to_string(),
        "bevy_gearbox::TransitionListener<game::Tick>".to_string(),
        "other::TransitionListener<x::OnInvoke>".to_string(),
    ];
    ensure_node_pins(&mut pins, true, &paths);
    let expected = vec![
        (PinType::Input, 0, "Input".to_string()),
        (PinType::Output, usize::MAX, "InitialState".to_string()),
        (PinType::Output, 0, "OnInvoke".to_string()),
        (PinType::Output, 1, "Tick".to_string()),
    ];
    assert_eq!(pin_tuples(&pins), expected);
    ensure_node_pins(&mut pins, true, &paths);
    assert_eq!(pin_tuples(&pins), expected);
}

#[test]
fn leaf_pins_have_no_initial_state_pin() {
    let mut pins = vec![pin(PinType::Input, 0, "In")];
    ensure_node_pins(&mut pins, false, &vec!["a::TransitionListener<b::Go>".to_string()]);
    assert_eq!(
        pin_tuples(&pins),
        vec![(PinType::Input, 0, "In".to_string()), (PinType::Output, 0, "Go".to_string())]
    );
}

#[test]
fn listener_connections_skip_existing_ones() {
    let pins = vec![pin(PinType::Input, 0, "Input"), pin(PinType::Output, 0, "Go"), pin(PinType::Output, 1, "Stop")];
    let existing = vec![Connection {
        from_entity: 1,
        from_pin_index: 1,
        to_entity: 2,
        to_pin_index: 0,
        connection_type: "Go".to_string(),
    }];
    let listeners = vec![
        ("a::TransitionListener<b::Go>".to_string(), 2),
        ("a::TransitionListener<b::Stop>".to_string(), 3),
        ("bevy_core::Name".to_string(), 4),
        ("a::TransitionListener<b::Unknown>".to_string(), 5),
    ];
    let made = listener_connections(1, &pins, &listeners, &existing);
    let view: Vec<(u64, usize, u64, usize, String)> = made
        .iter()
        .map(|c| (c.from_entity, c.from_pin_index, c.to_entity, c.to_pin_index, c.connection_type.clone()))
        .collect();
    assert_eq!(view, vec![(1, 2, 3, 0, "Stop".to_string()), (1, 0, 5, 0, "Unknown".to_string())]);
}

#[test]
fn initial_state_connection_rules() {
    let c = initial_state_connection(1, true, Some(2), &Vec::new()).unwrap();
    assert_eq!(
        (c.from_entity, c.from_pin_index, c.to_entity, c.to_pin_index, c.connection_type.as_str()),
        (1, usize::MAX, 2, 0, "InitialState")
    );
    assert!(initial_state_connection(1, false, Some(2), &Vec::new()).is_none());
    assert!(initial_state_connection(1, true, None, &Vec::new()).is_none());
    assert!(initial_state_connection(1, true, Some(2), &vec![c]).is_none());
}

#[test]
fn orphans_go_under_the_root() {
    let states = vec![
        (1, None),
        (2, None),
        (3, Some(ParentLink { parent: 1, exists: true, is_state: false })),
        (4, Some(ParentLink { parent: 9, exists: true, is_state: false })),
        (5, Some(ParentLink { parent: 8, exists: false, is_state: true })),
        (6, Some(ParentLink { parent: 3, exists: true, is_state: true })),
    ];
    assert_eq!(orphaned_states(1, &states), vec![2, 4, 5]);
}

#[test]
fn zones_follow_children() {
    assert_eq!(zone_change(true, false), ZoneChange::Add);
    assert_eq!(zone_change(false, true), ZoneChange::Remove);
    assert_eq!(zone_change(true, true), ZoneChange::Keep);
    assert_eq!(zone_change(false, false), ZoneChange::Keep);
}

#[test]
fn port_slots_spread_evenly() {
    assert_eq!(port_slots(0, 0), Vec::<(usize, usize)>::new());
    assert_eq!(port_slots(1, 0), vec![(1, 2)]);
    assert_eq!(port_slots(0, 1), vec![(1, 2)]);
    assert_eq!(port_slots(2, 1), vec![(1, 4), (2, 4), (3, 4)]);
}

#[test]
fn port_slots_depend_only_on_the_total() {
    assert_eq!(port_slots(2, 1), port_slots(3, 0));
    assert_eq!(port_slots(0, 4), port_slots(4, 0));
    assert_eq!(port_slots(1, 1), vec![(1, 3), (2, 3)]);
}

#[test]
fn edge_sides_and_routes() {
    assert!(are_same_edge_side(EdgeSide::Top, EdgeSide::Top));
    assert!(!are_same_edge_side(EdgeSide::Top, EdgeSide::Left));
    assert!(are_opposite_edges(EdgeSide::Left, EdgeSide::Right));
    assert!(!are_opposite_edges(EdgeSide::Left, EdgeSide::Top));
    assert_eq!(connection_edges(true, true), (EdgeSide::Right, EdgeSide::Left));
    assert_eq!(connection_edges(false, false), (EdgeSide::Top, EdgeSide::Bottom));
    // aligned, close, far, long legs, parallel count
    assert_eq!(routing_shape(true, false, true, true, 0, EdgeSide::Right, EdgeSide::Left), ConnectionShape::Straight);
    assert_eq!(routing_shape(false, false, true, true, 0, EdgeSide::Right, EdgeSide::Top), ConnectionShape::LShape);
    assert_eq!(routing_shape(false, false, true, true, 3, EdgeSide::Right, EdgeSide::Top), ConnectionShape::LShape);
    assert_eq!(routing_shape(true, false, true, true, 0, EdgeSide::Right, EdgeSide::Top), ConnectionShape::LShape);
    assert_eq!(routing_shape(false, true, false, true, 0, EdgeSide::Right, EdgeSide::Top), ConnectionShape::SShape);
    assert_eq!(routing_shape(false, false, true, true, 0, EdgeSide::Top, EdgeSide::Top), ConnectionShape::SShape);
    assert_eq!(routing_shape(false, false, true, false, 0, EdgeSide::Right, EdgeSide::Top), ConnectionShape::SShape);
    assert_eq!(routing_shape(false, false, true, true, 0, EdgeSide::Right, EdgeSide::Left), ConnectionShape::LShape);
    assert_eq!(routing_shape(false, false, true, true, 2, EdgeSide::Right, EdgeSide::Left), ConnectionShape::SShape);
    assert_eq!(routing_shape(false, false, false, true, 0, EdgeSide::Right, EdgeSide::Top), ConnectionShape::LShape);
    assert_eq!(choose_route(2, 2), ManhattanRoute::HorizontalFirst);
    assert_eq!(choose_route(3, 1), ManhattanRoute::VerticalFirst);
}

#[test]
fn component_dialog_adds_the_pick() {
    let mut d = ComponentDialogState::new();
    assert_eq!(d.add_clicked(), None);
    d.open_for_entity = Some(4);
    assert_eq!(d.add_clicked(), None);
    d.selected_component = Some("game::Player".to_string());
    assert_eq!(d.add_clicked(), Some((4, "game::Player".to_string())));
    assert_eq!(d.open_for_entity, None);
    assert_eq!(d.selected_component, None);
}

#[test]
fn listener_dialog_refuses_self_transitions() {
    let mut t = TransitionCreationState::new();
    t.source_entity = Some(1);
    t.next_clicked();
    assert!(!t.selecting_target);
    t.selected_event_type = Some("Go".to_string());
    t.next_clicked();
    assert!(t.selecting_target);
    assert_eq!(t.pick_target(1), None);
    assert!(t.selecting_target);
    assert_eq!(t.pick_target(2), Some((1, 2, "Go".to_string())));
    assert_eq!(t.source_entity, None);
    assert!(!t.selecting_target);
}

#[test]
fn output_pins_keep_their_positions() {
    let pins = vec![pin(PinType::Input, 0, "Input"), pin(PinType::Output, 0, "Go"), pin(PinType::Output, 1, "Stop")];
    assert_eq!(output_pins(&pins), vec![("Go".to_string(), 1), ("Stop".to_string(), 2)]);
}

#[test]
fn resize_handles() {
    let none = ZonePointer {
        near_right: false,
        near_bottom: false,
        in_zone_x: true,
        in_zone_y: true,
        within_x: true,
        within_y: true,
    };
    assert_eq!(detect_resize_edge(none), None);
    assert_eq!(detect_resize_edge(ZonePointer { near_right: true, near_bottom: true, ..none }), Some(ResizeEdge::Corner));
    assert_eq!(detect_resize_edge(ZonePointer { near_right: true, ..none }), Some(ResizeEdge::Right));
    assert_eq!(detect_resize_edge(ZonePointer { near_bottom: true, ..none }), Some(ResizeEdge::Bottom));
    assert_eq!(detect_resize_edge(ZonePointer { near_bottom: true, within_x: false, ..none }), None);
    assert!(opens_editor_window(true, true, true));
    assert!(!opens_editor_window(true, true, false));
    assert!(!opens_editor_window(false, true, true));
    assert!(!opens_editor_window(true, false, true));
}

#[test]
fn nodes_are_tinted_while_picking_a_target() {
    let mut t = TransitionCreationState::new();
    assert_eq!(t.node_tint(1), NodeTint::Normal);
    t.source_entity = Some(1);
    t.selecting_target = true;
    assert_eq!(t.node_tint(1), NodeTint::Source);
    assert_eq!(t.node_tint(2), NodeTint::Candidate);
}
