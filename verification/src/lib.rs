//! Verified core of the gearbox state-machine editor: the decisions, lists and
//! hierarchies behind the canvas, kept apart from rendering and the ECS world.

pub mod text;
pub mod entity_inspector;
pub mod hierarchy;
pub mod node_kind;
pub mod editor_state;
pub mod context_menu;
pub mod type_paths;
pub mod entity_ui;
pub mod demo_graph;
pub mod machine_menu;
pub mod visual_transitions;
pub mod node_editor;
pub mod pins;
pub mod ports;
pub mod graph_view;
