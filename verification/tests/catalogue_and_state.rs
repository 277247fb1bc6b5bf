use gearbox_editor::entity_inspector::removable_components;
use gearbox_editor::context_menu::{
    handle_node_action, node_menu_command, node_menu_items, transition_menu_items, MenuCommand, NodeActionEffect,
    NodeMenuContext, NodeMenuItem, TransitionMenuItem,
};
use gearbox_editor::editor_state::{ComponentAdditionState, NodeAction, TextEditingState, TransitionCreationState};
use gearbox_editor::entity_inspector::{
    build_component_hierarchy, insert_component_into_hierarchy, is_essential_component, matching_components_for,
    ComponentHierarchy, ComponentNode,
};
use gearbox_editor::hierarchy::StateTree;
use gearbox_editor::node_kind::{
    actions_on_enter, handle_kind_event, next_kind, NodeKind, NodeKindAction, NodeKindEvent, NodeKindRoots,
};

fn strings(items: &[&str]) -> Vec<String> {
    items.iter().map(|s| s.to_string()).collect()
}

#[test]
fn catalogue_files_components_by_module_path() {
    let h = build_component_hierarchy(&strings(&[
        "game::Player",
        "bevy::core::Name",
        "bevy::transform::Transform",
        "Root",
    ]));
    assert_eq!(
        format!("{:?}", h.components),
        "[(\"Root\", Component(\"Root\")), (\"bevy\", Namespace([(\"core\", Namespace([(\"Name\", Component(\"bevy::core::Name\"))])), (\"transform\", Namespace([(\"Transform\", Component(\"bevy::transform::Transform\"))]))])), (\"game\", Namespace([(\"Player\", Component(\"game::Player\"))]))]"
    );
}

#[test]
fn catalogue_reads_back_what_was_filed() {
    let mut map = Vec::new();
    insert_component_into_hierarchy(&mut map, "a::b::C");
    insert_component_into_hierarchy(&mut map, "a::b::D");
    match &map[0] {
        (key, ComponentNode::Namespace(inner)) => {
            assert_eq!(key, "a");
            match &inner[0] {
                (k, ComponentNode::Namespace(leaves)) => {
                    assert_eq!(k, "b");
                    assert_eq!(leaves.len(), 2);
                    assert!(matches!(&leaves[0], (n, ComponentNode::Component(p)) if n == "C" && p == "a::b::C"));
                    assert!(matches!(&leaves[1], (n, ComponentNode::Component(p)) if n == "D" && p == "a::b::D"));
                },
                _ => panic!("expected the b namespace"),
            }
        },
        _ => panic!("expected the a namespace"),
    }
}

#[test]
fn catalogue_leaves_paths_under_a_component_alone() {
    let mut map = Vec::new();
    insert_component_into_hierarchy(&mut map, "a");
    insert_component_into_hierarchy(&mut map, "a::b");
    assert_eq!(format!("{:?}", map), "[(\"a\", Component(\"a\"))]");
}

#[test]
fn catalogue_replaces_a_top_level_entry_of_the_same_name() {
    let mut map = Vec::new();
    insert_component_into_hierarchy(&mut map, "a::b");
    insert_component_into_hierarchy(&mut map, "a");
    assert_eq!(format!("{:?}", map), "[(\"a\", Component(\"a\"))]");
}

#[test]
fn matching_components_ignores_case() {
    let h = build_component_hierarchy(&strings(&["bevy::core::Name", "game::Nameplate", "game::Player"]));
    let found = matching_components_for(&h.components, "NAME");
    assert_eq!(
        found,
        vec![
            ("Name".to_string(), "bevy::core::Name".to_string()),
            ("Nameplate".to_string(), "game::Nameplate".to_string()),
        ]
    );
    assert!(matching_components_for(&h.components, "zzz").is_empty());
    assert!(ComponentHierarchy::default().components.is_empty());
}

#[test]
fn essential_components_are_listed() {
    assert!(is_essential_component("Transform"));
    assert!(is_essential_component("StateMachineTransientData"));
    assert!(!is_essential_component("Player"));
    assert!(!is_essential_component("transform"));
}

#[test]
fn renaming_round_trip() {
    let mut t = TextEditingState::default();
    t.start_editing(7, "Idle");
    assert!(t.is_editing(7));
    assert!(!t.is_editing(8));
    assert!(t.should_focus && t.first_focus);
    t.current_text = "  Running  ".to_string();
    assert_eq!(t.finish_editing(false), Some((7, "Running".to_string())));
    assert_eq!(t.editing_entity, None);
    assert!(t.current_text.is_empty());
}

#[test]
fn renaming_escape_and_blank_names_change_nothing() {
    let mut t = TextEditingState::default();
    t.start_editing(1, "A");
    assert_eq!(t.finish_editing(true), None);
    assert_eq!(t.editing_entity, None);
    t.start_editing(1, "   ");
    assert_eq!(t.finish_editing(false), None);
    assert_eq!(t.stop_editing(), None);
}

#[test]
fn renaming_stops_when_another_node_is_selected() {
    let mut t = TextEditingState::default();
    t.start_editing(3, "S");
    t.on_selection_changed(Some(3));
    assert_eq!(t.editing_entity, Some(3));
    t.on_selection_changed(None);
    assert_eq!(t.editing_entity, Some(3));
    t.on_selection_changed(Some(4));
    assert_eq!(t.editing_entity, None);
    t.start_editing(5, "X");
    t.cancel_editing();
    assert_eq!(t.editing_entity, None);
    assert!(!t.should_focus);
}

#[test]
fn transition_creation_steps() {
    let mut c: TransitionCreationState<(i32, i32)> = TransitionCreationState::idle();
    assert!(!c.is_active());
    c.start_transition(10);
    assert!(c.is_active());
    assert!(c.awaiting_target_selection);
    c.set_target(11, (5, 6));
    assert_eq!(c.target_entity, Some(11));
    assert!(!c.awaiting_target_selection);
    assert!(c.show_event_dropdown);
    assert_eq!(c.dropdown_position, Some((5, 6)));
    c.complete();
    assert!(!c.is_active());
    assert_eq!(c.target_entity, None);
    c.start_transition(1);
    c.cancel();
    assert!(!c.is_active());
}

#[test]
fn namespace_toggles_back_and_forth() {
    let mut a = ComponentAdditionState::new();
    assert!(!a.is_namespace_expanded("bevy"));
    a.toggle_namespace("bevy");
    a.toggle_namespace("game");
    assert!(a.is_namespace_expanded("bevy"));
    a.toggle_namespace("bevy");
    assert!(!a.is_namespace_expanded("bevy"));
    assert!(a.is_namespace_expanded("game"));
    a.update_hierarchy(ComponentHierarchy::default());
    assert!(a.component_hierarchy.is_some());
}

#[test]
fn state_tree_roots_and_depths() {
    let mut t = StateTree::new();
    assert!(t.add_link(2, 1));
    assert!(t.add_link(3, 2));
    assert!(t.add_link(4, 1));
    assert!(!t.add_link(1, 3));
    assert!(!t.add_link(3, 4));
    assert_eq!(t.parent_of(3), Some(2));
    assert_eq!(t.parent_of(1), None);
    assert_eq!(t.hierarchy_depth(3), 2);
    assert_eq!(t.hierarchy_depth(1), 0);
    assert_eq!(t.root_ancestor(3), 1);
    assert_eq!(t.root_ancestor(9), 9);
    assert!(t.is_ancestor_or_self(1, 3));
    assert!(t.is_ancestor_or_self(3, 3));
    assert!(!t.is_ancestor_or_self(4, 3));
    assert_eq!(t.children_of(1), vec![2, 4]);
    assert_eq!(t.first_child(2), Some(3));
    assert_eq!(t.first_child(3), None);
    assert_eq!(t.descendants(1), vec![2, 3, 4]);
    assert!(t.should_get_selection_boost(2, Some(3)));
    assert!(!t.should_get_selection_boost(4, Some(3)));
    assert!(!t.should_get_selection_boost(2, None));
}

#[test]
fn pill_container_picks_the_enclosing_state() {
    let mut t = StateTree::new();
    assert!(t.add_link(2, 1));
    assert!(t.add_link(3, 2));
    assert!(t.add_link(4, 2));
    assert_eq!(t.pill_container(3, 4), 2);
    assert_eq!(t.pill_container(2, 3), 2);
    assert_eq!(t.pill_container(1, 1), 1);
    assert_eq!(t.pill_container(3, 1), 1);
}

#[test]
fn node_kind_machine_steps() {
    assert_eq!(next_kind(NodeKind::Leaf, NodeKindEvent::AddChildClicked), Some(NodeKind::Parent));
    assert_eq!(next_kind(NodeKind::Parent, NodeKindEvent::AllChildrenRemoved), Some(NodeKind::Leaf));
    assert_eq!(next_kind(NodeKind::Leaf, NodeKindEvent::MakeLeafClicked), None);
    assert_eq!(
        actions_on_enter(NodeKind::Parallel, false),
        vec![
            NodeKindAction::InsertParallelMarker,
            NodeKindAction::RemoveInitialState,
            NodeKindAction::SpawnDefaultChild
        ]
    );
    let (k, actions) = handle_kind_event(NodeKind::Leaf, NodeKindEvent::MakeParentClicked, true);
    assert_eq!(k, NodeKind::Parent);
    assert_eq!(actions, vec![NodeKindAction::RemoveParallelMarker, NodeKindAction::SetInitialStateToFirstChild]);
    let (k2, actions2) = handle_kind_event(NodeKind::Parallel, NodeKindEvent::ChildAdded, true);
    assert_eq!(k2, NodeKind::Parallel);
    assert!(actions2.is_empty());
}

#[test]
fn node_kind_roots_map() {
    let mut roots = NodeKindRoots::new();
    roots.insert(5, 50);
    roots.insert(6, 60);
    roots.insert(5, 55);
    assert_eq!(roots.get(5), Some(55));
    assert!(roots.contains(6));
    assert_eq!(roots.remove(6), Some(60));
    assert!(!roots.contains(6));
    assert_eq!(roots.remove(6), None);
}

#[test]
fn node_menu_for_each_kind() {
    let leaf = NodeMenuContext { is_parent: false, is_parallel: false, is_root: false, parent_has_initial_state: true };
    assert_eq!(
        node_menu_items(leaf),
        vec![
            NodeMenuItem::Inspect,
            NodeMenuItem::Rename,
            NodeMenuItem::MakeParallel,
            NodeMenuItem::MakeParent,
            NodeMenuItem::SetAsInitialState,
            NodeMenuItem::DeleteNode
        ]
    );
    let root = NodeMenuContext { is_parent: true, is_parallel: false, is_root: true, parent_has_initial_state: false };
    assert_eq!(
        node_menu_items(root),
        vec![
            NodeMenuItem::Inspect,
            NodeMenuItem::Rename,
            NodeMenuItem::SaveMachine,
            NodeMenuItem::CloseMachine,
            NodeMenuItem::Separator,
            NodeMenuItem::ResetMachine,
            NodeMenuItem::MakeParallel,
            NodeMenuItem::MakeLeaf,
            NodeMenuItem::AddChild,
            NodeMenuItem::DeleteNode
        ]
    );
    assert_eq!(transition_menu_items(), vec![TransitionMenuItem::Inspect, TransitionMenuItem::DeleteTransition]);
    assert!(matches!(node_menu_command(NodeMenuItem::Separator), MenuCommand::Nothing));
}

#[test]
fn node_actions_and_their_effects() {
    assert_eq!(handle_node_action(3, NodeAction::Inspect, None, None), vec![]);
    assert_eq!(
        handle_node_action(3, NodeAction::AddChild, Some(1), Some(9)),
        vec![
            NodeActionEffect::SpawnChild(3),
            NodeActionEffect::SendKindEvent(9, NodeKindEvent::AddChildClicked),
            NodeActionEffect::SendKindEvent(9, NodeKindEvent::ChildAdded)
        ]
    );
    assert_eq!(handle_node_action(3, NodeAction::MakeLeaf, Some(1), None), vec![]);
    assert_eq!(handle_node_action(3, NodeAction::ResetRegion, Some(1), None), vec![NodeActionEffect::ResetRegion(1)]);
    assert_eq!(handle_node_action(3, NodeAction::Delete, Some(1), None), vec![NodeActionEffect::DeleteNode(3)]);
}

#[test]
fn removal_tab_skips_essential_components() {
    let names = strings(&["Name", "Player", "Transform", "Health"]);
    assert_eq!(removable_components(&names), vec![1, 3]);
}

#[test]
fn kind_machines_are_made_for_new_nodes_only() {
    let mut roots = NodeKindRoots::new();
    roots.insert(2, 20);
    assert_eq!(roots.states_without_kind_machine(&vec![1, 2, 3]), vec![1, 3]);
    assert!(roots.states_without_kind_machine(&vec![2]).is_empty());
}
