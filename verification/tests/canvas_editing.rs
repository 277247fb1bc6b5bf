use gearbox_editor::machine_menu::machine_save_path;
use gearbox_editor::context_menu::{MenuCommand, NodeMenuItem, TransitionMenuItem};
use gearbox_editor::editor_state::NodeAction;
use gearbox_editor::editor_state::{EditorState, TransitionCreationState, TransitionRef};
use gearbox_editor::hierarchy::StateTree;
use gearbox_editor::machine_menu::machine_list_entries;
use gearbox_editor::node_editor::{
    drag_followers, handle_transition_creation_request, missing_initial_state, node_clicked, node_events, node_response, node_type_changes,
    nodes_to_populate, render_queue, sizing_order, saved_node_shape, shows_add_transition_button, stale_nodes, NodeChange,
    NodeEvent, NodePointer, NodeResponse, NodeShape, RenderItem,
};
use gearbox_editor::visual_transitions::{
    add_created_transition, entry_for, find_node_pulse, find_transition_pulse, follow_nodes, incoming_transitions, remove_transition, sync_edge_visuals,
    EdgeRecord, EventPill, TransitionConnection,
};

type Editor = EditorState<(i32, i32), (i32, i32)>;

#[test]
fn menus_stay_exclusive() {
    let mut s: Editor = EditorState::new();
    s.request_node_context_menu(5, (1, 1));
    assert_eq!(s.context_menu_entity, Some(5));
    assert!(s.suppress_background_context_menu_once);
    assert!(!s.request_background_context_menu((2, 2)));
    assert_eq!(s.context_menu_entity, Some(5));
    assert!(s.request_background_context_menu((3, 3)));
    assert_eq!(s.context_menu_entity, None);
    assert_eq!(s.background_context_menu_position, Some((3, 3)));
    let t = TransitionRef { source_entity: 1, target_entity: 2, event_type: "Go".to_string(), edge_entity: 9 };
    s.request_transition_context_menu(t, (4, 4));
    assert_eq!(s.background_context_menu_position, None);
    assert_eq!(s.transition_context_menu.as_ref().map(|t| t.edge_entity), Some(9));
    s.close_transition_context_menu();
    assert!(s.transition_context_menu.is_none());
}

#[test]
fn menu_clicks_close_their_menu() {
    let mut s: Editor = EditorState::new();
    assert_eq!(s.node_menu_click(NodeMenuItem::Inspect), None);
    s.request_node_context_menu(5, (1, 1));
    assert_eq!(s.node_menu_click(NodeMenuItem::Separator), None);
    assert_eq!(s.context_menu_entity, Some(5));
    assert_eq!(s.node_menu_click(NodeMenuItem::DeleteNode), Some((5, MenuCommand::Action(NodeAction::Delete))));
    assert_eq!(s.context_menu_entity, None);
    assert_eq!(s.context_menu_position, None);
    assert_eq!(s.node_menu_click(NodeMenuItem::Rename), None);
    s.request_node_context_menu(6, (2, 2));
    assert_eq!(s.node_menu_click(NodeMenuItem::SaveMachine), Some((6, MenuCommand::SaveStateMachine)));

    assert_eq!(s.transition_menu_click(TransitionMenuItem::Inspect), None);
    let t = TransitionRef { source_entity: 1, target_entity: 2, event_type: "Go".to_string(), edge_entity: 9 };
    s.request_transition_context_menu(t, (4, 4));
    assert_eq!(s.transition_menu_click(TransitionMenuItem::DeleteTransition), Some((9, TransitionMenuItem::DeleteTransition)));
    assert!(s.transition_context_menu.is_none());
    assert_eq!(s.transition_context_menu_position, None);
    assert_eq!(s.transition_menu_click(TransitionMenuItem::Inspect), None);
}

#[test]
fn background_right_click_is_swallowed_once() {
    let mut s: Editor = EditorState::new();
    s.request_node_context_menu(5, (1, 1));
    assert!(!s.background_right_click());
    assert_eq!(s.context_menu_entity, Some(5));
    assert!(s.background_right_click());
    assert_eq!(s.context_menu_entity, None);
}

#[test]
fn reopening_a_machine_replaces_its_position() {
    let mut s: Editor = EditorState::new();
    assert!(s.handle_open_machine_request(11, "Lamp".to_string(), Some((5, 5)), (100, 100), (0, 0)));
    s.handle_close_machine_request(11);
    assert!(s.handle_open_machine_request(11, "Lamp".to_string(), Some((7, 7)), (100, 100), (0, 0)));
    assert_eq!(s.take_desired_open_position(11), Some((7, 7)));
    assert_eq!(s.take_desired_open_position(11), None);
}

#[test]
fn opening_and_closing_machines() {
    let mut s: Editor = EditorState::new();
    assert!(s.handle_open_machine_request(10, "Door".to_string(), None, (100, 100), (0, 0)));
    assert!(!s.handle_open_machine_request(10, "Door".to_string(), Some((5, 5)), (100, 100), (0, 0)));
    assert!(s.handle_open_machine_request(11, "Lamp".to_string(), Some((5, 5)), (100, 100), (0, 0)));
    assert!(s.is_machine_open(10));
    assert_eq!(s.take_desired_open_position(11), Some((5, 5)));
    assert_eq!(s.take_desired_open_position(11), None);
    assert_eq!(s.take_desired_open_position(10), Some((100, 100)));
    assert!(s.handle_view_related(10, 12, true, "Related".to_string(), (300, 100)));
    assert!(!s.handle_view_related(13, 14, true, "Other".to_string(), (0, 0)));
    assert!(!s.handle_view_related(10, 15, false, "NotAMachine".to_string(), (0, 0)));
    assert_eq!(s.canvas_offset_of(12), Some((300, 100)));
    assert_eq!(s.related_entities, vec![(10, 12)]);
    s.handle_close_machine_request(10);
    assert!(!s.is_machine_open(10));
    let open: Vec<u64> = s.open_machines.iter().map(|m| m.entity).collect();
    assert_eq!(open, vec![11, 12]);
}

#[test]
fn machine_pickers_filter_and_sort() {
    let mut s: Editor = EditorState::new();
    s.add_machine_with_offset(2, "Door".to_string(), (0, 0));
    let machines = vec![
        (1, Some("Traffic Light".to_string())),
        (2, Some("Door".to_string())),
        (3, Some("NodeKind".to_string())),
        (4, None),
        (5, Some("Alarm".to_string())),
        (6, Some("Alarm".to_string())),
    ];
    assert_eq!(
        s.available_machines(&machines),
        vec![
            (5, "Alarm".to_string()),
            (6, "Alarm".to_string()),
            (1, "Traffic Light".to_string()),
            (4, "Unnamed Machine".to_string()),
        ]
    );
    s.machine_search_text = "TRAFFIC".to_string();
    assert_eq!(s.available_machines(&machines), vec![(1, "Traffic Light".to_string())]);
    s.machine_search_text = "machine".to_string();
    assert_eq!(s.available_machines(&machines), vec![(4, "Unnamed Machine".to_string())]);
    assert_eq!(
        machine_list_entries(&machines).iter().map(|e| e.0).collect::<Vec<u64>>(),
        vec![1, 2, 4, 5, 6]
    );
}

#[test]
fn open_menu_survives_the_click_that_opened_it() {
    let mut s: Editor = EditorState::new();
    s.machine_search_text = "old".to_string();
    s.open_menu_button_clicked((10, 20));
    assert!(s.show_open_menu);
    assert!(s.machine_search_text.is_empty());
    assert!(s.take_search_focus());
    assert!(!s.take_search_focus());
    s.open_menu_click(false);
    assert!(s.show_open_menu);
    s.open_menu_click(true);
    assert!(s.show_open_menu);
    s.open_menu_click(false);
    assert!(!s.show_open_menu);
    s.open_menu_button_clicked((10, 20));
    let req = s.open_menu_pick(8);
    assert_eq!((req.entity, req.position), (8, None));
    assert!(!s.show_open_menu);
    assert_eq!(s.world_inspector_button_label(), "Show Inspector");
    s.toggle_world_inspector();
    assert_eq!(s.world_inspector_button_label(), "Hide Inspector");
}

#[test]
fn background_menu_and_submenu() {
    let mut s: Editor = EditorState::new();
    assert!(s.request_background_context_menu((7, 8)));
    s.background_open_state_machine_clicked();
    assert!(s.machine_submenu_visible());
    s.background_menu_click(false);
    assert_eq!(s.background_context_menu_position, Some((7, 8)));
    s.machine_submenu_click(true, false);
    assert!(s.machine_submenu_visible());
    let req = s.machine_submenu_pick(3);
    assert_eq!((req.entity, req.position), (3, Some((7, 8))));
    assert!(!s.machine_submenu_visible());
    assert!(s.request_background_context_menu((1, 2)));
    let created = s.background_create_machine_clicked(20);
    assert_eq!((created.entity, created.position), (20, Some((1, 2))));
    assert_eq!(s.background_context_menu_position, None);
    assert!(s.request_background_context_menu((1, 2)));
    s.background_menu_click(false);
    assert_eq!(s.background_context_menu_position, None);
}

#[derive(Clone, Copy, Debug, PartialEq)]
struct Pill {
    at: (i32, i32),
    offset: (i32, i32),
}

impl EventPill<(i32, i32)> for Pill {
    fn at_midpoint(source: (i32, i32), target: (i32, i32)) -> Self {
        Pill { at: ((source.0 + target.0) / 2, (source.1 + target.1) / 2), offset: (0, 0) }
    }

    fn follow(&self, source: (i32, i32), target: (i32, i32)) -> Self {
        let mid = ((source.0 + target.0) / 2, (source.1 + target.1) / 2);
        Pill { at: (mid.0 + self.offset.0, mid.1 + self.offset.1), offset: self.offset }
    }
}

fn edge(edge: u64, source: u64, target: u64, label: &str, root: u64) -> EdgeRecord {
    EdgeRecord { edge, source, target, label: label.to_string(), root }
}

fn summary(v: &[TransitionConnection<(i32, i32), Pill>]) -> Vec<(u64, u64, u64, String)> {
    v.iter().map(|t| (t.source_entity, t.edge_entity, t.target_entity, t.event_type.clone())).collect()
}

#[test]
fn edge_visuals_follow_the_ecs() {
    let rects = vec![(1, (0, 0)), (2, (10, 0)), (3, (20, 20))];
    assert_eq!(entry_for(&rects, 2), Some((10, 0)));
    assert_eq!(entry_for(&rects, 9), None);
    let mut visuals: Vec<TransitionConnection<(i32, i32), Pill>> = Vec::new();
    assert!(add_created_transition(&mut visuals, 1, 100, 2, "Go", &rects));
    assert!(!add_created_transition(&mut visuals, 1, 101, 9, "Lost", &rects));
    assert_eq!(visuals[0].event_node.at, (5, 0));
    visuals[0].event_node.offset = (1, 1);
    let edges = vec![
        edge(100, 1, 3, "Go again", 1),
        edge(200, 2, 3, "Stop", 1),
        edge(300, 1, 2, "Elsewhere", 99),
        edge(400, 1, 9, "No rect", 1),
    ];
    sync_edge_visuals(&mut visuals, 1, &edges, &rects);
    assert_eq!(
        summary(&visuals),
        vec![(1, 100, 3, "Go again".to_string()), (2, 200, 3, "Stop".to_string())]
    );
    assert_eq!(visuals[0].event_node.at, (11, 11));
    assert_eq!(visuals[0].target_rect, (20, 20));
    assert_eq!(visuals[1].event_node.at, (15, 10));
    let only_stop = vec![edge(200, 2, 3, "Stop", 1)];
    sync_edge_visuals(&mut visuals, 1, &only_stop, &rects);
    assert_eq!(summary(&visuals), vec![(2, 200, 3, "Stop".to_string())]);
}

#[test]
fn dragged_pills_stay_put() {
    let rects = vec![(1, (0, 0)), (2, (10, 0))];
    let mut visuals: Vec<TransitionConnection<(i32, i32), Pill>> = Vec::new();
    add_created_transition(&mut visuals, 1, 100, 2, "Go", &rects);
    let drag = visuals[0].pill_drag(true, true, false);
    assert!(drag.move_pill && !drag.refresh_offset);
    assert!(visuals[0].is_dragging_event_node);
    visuals[0].event_node.at = (50, 50);
    let moved = vec![(1, (100, 0)), (2, (110, 0))];
    follow_nodes(&mut visuals, &moved);
    assert_eq!(visuals[0].event_node.at, (50, 50));
    assert_eq!(visuals[0].source_rect, (100, 0));
    let stop = visuals[0].pill_drag(false, false, true);
    assert!(!stop.move_pill && stop.refresh_offset);
    follow_nodes(&mut visuals, &moved);
    assert_eq!(visuals[0].event_node.at, (105, 0));
}

#[test]
fn deleting_transitions_and_nodes() {
    let rects = vec![(1, (0, 0)), (2, (10, 0)), (3, (20, 0))];
    let mut visuals: Vec<TransitionConnection<(i32, i32), Pill>> = Vec::new();
    add_created_transition(&mut visuals, 1, 100, 2, "Go", &rects);
    add_created_transition(&mut visuals, 3, 101, 2, "Back", &rects);
    add_created_transition(&mut visuals, 1, 102, 2, "Go", &rects);
    add_created_transition(&mut visuals, 1, 103, 3, "Go", &rects);
    assert_eq!(
        incoming_transitions(&visuals, 2),
        vec![(1, 2, "Go".to_string()), (3, 2, "Back".to_string()), (1, 2, "Go".to_string())]
    );
    remove_transition(&mut visuals, 1, 2, "Go");
    assert_eq!(summary(&visuals), vec![(3, 101, 2, "Back".to_string()), (1, 103, 3, "Go".to_string())]);
    assert_eq!(visuals[0].event_node.at, (15, 0));
    assert_eq!(visuals[1].event_node.at, (10, 0));
}

#[test]
fn pulses_are_found_by_their_transition_or_state() {
    let pulses = vec![(1, 2), (2, 3), (1, 2)];
    assert_eq!(find_transition_pulse(&pulses, 1, 2), Some(0));
    assert_eq!(find_transition_pulse(&pulses, 2, 3), Some(1));
    assert_eq!(find_transition_pulse(&pulses, 2, 1), None);
    assert_eq!(find_node_pulse(&vec![4, 5, 5], 5), Some(1));
    assert_eq!(find_node_pulse(&vec![4, 5, 5], 6), None);
}

fn sample_tree() -> StateTree {
    let mut t = StateTree::new();
    assert!(t.add_link(2, 1));
    assert!(t.add_link(3, 2));
    assert!(t.add_link(4, 1));
    t
}

#[test]
fn node_shapes_follow_children() {
    let t = sample_tree();
    let nodes = vec![(1, NodeShape::Leaf), (2, NodeShape::Parent), (3, NodeShape::Parent), (9, NodeShape::Leaf)];
    let changes = node_type_changes(&t, 1, &nodes);
    assert_eq!(
        changes,
        vec![
            (1, NodeChange::LeafToParent),
            (2, NodeChange::Keep),
            (3, NodeChange::ParentToLeaf),
            (4, NodeChange::NewLeaf)
        ]
    );
    assert_eq!(stale_nodes(&t, 1, &nodes), vec![9]);
    assert_eq!(saved_node_shape(true), NodeShape::Parent);
    assert_eq!(saved_node_shape(false), NodeShape::Leaf);
}

#[test]
fn render_queue_keeps_hierarchy_order() {
    let t = sample_tree();
    let queue = render_queue(&t, &vec![1, 2, 3, 4], &vec![1, 3, 4], Some(3));
    assert_eq!(
        queue,
        vec![
            RenderItem { entity: 1, z_order: 5 },
            RenderItem { entity: 3, z_order: 25 },
            RenderItem { entity: 4, z_order: 30 }
        ]
    );
}

#[test]
fn node_clicks_pick_targets_or_select() {
    let mut creation: TransitionCreationState<(i32, i32)> = TransitionCreationState::idle();
    let mut selected = None;
    node_clicked(&mut creation, &mut selected, 4, (1, 1));
    assert_eq!(selected, Some(4));
    creation.start_transition(4);
    node_clicked(&mut creation, &mut selected, 5, (2, 2));
    assert_eq!(selected, Some(4));
    assert_eq!(creation.target_entity, Some(5));
    assert!(creation.dropdown_visible());
    creation.available_event_types = vec!["Always".to_string(), "Go".to_string()];
    assert_eq!(creation.dropdown_choice(1), Some((4, 5, "Go".to_string())));
    assert_eq!(creation.dropdown_choice(2), None);
    creation.dropdown_click(true);
    assert!(creation.is_active());
    creation.dropdown_click(false);
    assert!(!creation.is_active());
    creation.start_transition(4);
    creation.cancel_on_background_click(true, true);
    assert!(creation.is_active());
    creation.cancel_on_background_click(true, false);
    assert!(!creation.is_active());
    creation.start_transition(4);
    creation.cancel_on_pointer(false, true);
    assert!(!creation.is_active());
}

#[test]
fn node_pointer_input() {
    let mut dragging = false;
    let input = NodePointer {
        drag_started_by_primary: false,
        drag_stopped: false,
        dragged: true,
        clicked_by_primary: false,
        clicked_by_secondary: true,
        hovered: true,
        add_button_clicked: true,
    };
    let r = node_response(&mut dragging, input, false);
    assert!(!r.dragged && r.right_clicked && !r.add_transition_clicked);
    let r2 = node_response(&mut dragging, NodePointer { drag_started_by_primary: true, ..input }, true);
    assert!(dragging && r2.dragged && r2.add_transition_clicked);
    assert_eq!(
        node_events(6, r2),
        vec![NodeEvent::TransitionCreationRequested(6), NodeEvent::ContextMenuRequested(6), NodeEvent::Dragged(6)]
    );
    let quiet = NodeResponse { clicked: true, dragged: false, hovered: false, right_clicked: false, add_transition_clicked: false };
    assert!(node_events(6, quiet).is_empty());
    assert!(shows_add_transition_button(NodeShape::Leaf, true, true));
    assert!(!shows_add_transition_button(NodeShape::Parent, true, true));
    assert!(shows_add_transition_button(NodeShape::Parent, true, false));
}

#[test]
fn states_are_listed_depth_first() {
    let mut t = StateTree::new();
    assert!(t.add_link(3, 2));
    assert!(t.add_link(2, 1));
    assert!(t.add_link(4, 1));
    assert!(t.add_link(5, 3));
    assert_eq!(t.descendants(1), vec![2, 3, 5, 4]);
    assert_eq!(t.descendants(3), vec![5]);
    assert_eq!(nodes_to_populate(&t, 1, &vec![3]), vec![1, 2, 5, 4]);
    let changes: Vec<u64> = node_type_changes(&t, 1, &vec![]).iter().map(|c| c.0).collect();
    assert_eq!(changes, vec![1, 2, 3, 5, 4]);
    let queue = render_queue(&t, &vec![1, 2, 3, 5, 4], &vec![1, 2, 3, 4, 5], None);
    let order: Vec<u64> = queue.iter().map(|item| item.entity).collect();
    assert_eq!(order, vec![1, 2, 3, 5, 4]);
}

#[test]
fn machine_population_and_initial_states() {
    let t = sample_tree();
    let missing = nodes_to_populate(&t, 1, &vec![2]);
    assert_eq!(missing, vec![1, 3, 4]);
    assert_eq!(missing_initial_state(&t, 1, false), Some(2));
    assert_eq!(missing_initial_state(&t, 1, true), None);
    assert_eq!(missing_initial_state(&t, 3, false), None);
    assert_eq!(drag_followers(&t, 1, &vec![4, 3]), vec![4]);
}

#[test]
fn machines_are_saved_under_assets() {
    assert_eq!(machine_save_path("Traffic Light"), "assets/traffic_light.scn.ron");
    assert_eq!(machine_save_path("DOOR"), "assets/door.scn.ron");
    assert_eq!(machine_save_path(""), "assets/.scn.ron");
}

#[test]
fn plus_button_starts_a_transition_with_the_registered_events() {
    let mut creation: TransitionCreationState<(i32, i32)> = TransitionCreationState::idle();
    let paths = vec!["g::EventEdge<e::Jump>".to_string(), "bevy_core::Name".to_string()];
    handle_transition_creation_request(&mut creation, 3, &paths);
    assert_eq!(creation.source_entity, Some(3));
    assert!(creation.awaiting_target_selection);
    assert_eq!(creation.available_event_types, vec!["Always".to_string(), "Jump".to_string()]);
}

#[test]
fn regions_are_sized_bottom_up() {
    let t = sample_tree();
    assert_eq!(sizing_order(&t, &vec![1, 2, 3, 4]), vec![2, 3, 4, 1]);
    assert_eq!(sizing_order(&t, &vec![1, 3]), vec![3]);
    assert!(sizing_order(&t, &Vec::new()).is_empty());
}
