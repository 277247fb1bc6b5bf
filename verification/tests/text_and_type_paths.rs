use gearbox_editor::entity_ui::{component_display_order, pretty_type_name_str, shows_component};
use gearbox_editor::text::{contains_str, insert_sorted_unique, split_str, stable_name_order, str_eq, str_lt, trim};
use gearbox_editor::type_paths::{
    collect_available_components, collect_available_event_types, discover_transition_edge_listener_event_types,
    edge_event_name, extract_transition_event_type, find_edge_listener_for_deletion, find_transition_listener_type,
    last_path_segment, plan_transition_edge, EdgeLookupError, EdgePlan,
};

fn strings(items: &[&str]) -> Vec<String> {
    items.iter().map(|s| s.to_string()).collect()
}

#[test]
fn trim_drops_surrounding_white_space() {
    assert_eq!(trim("  Idle \n"), "Idle");
    assert_eq!(trim("\t\u{2003}Run\u{00a0}"), "Run");
    assert_eq!(trim("   "), "");
    assert_eq!(trim("a b"), "a b");
    assert_eq!(trim("\u{3000}\u{85}Go\u{2029}\u{202f}"), "Go");
    assert_eq!(trim("\u{200b}Go"), "\u{200b}Go");
    for c in ['\u{9}', '\u{1680}', '\u{205f}', 'x', '\u{200b}', '\u{180e}', '\u{feff}'] {
        let s = format!("{}y{}", c, c);
        assert_eq!(trim(&s), s.trim());
    }
}

#[test]
fn split_str_cuts_at_every_separator() {
    assert_eq!(split_str("bevy::prelude::Name", "::"), strings(&["bevy", "prelude", "Name"]));
    assert_eq!(split_str("Name", "::"), strings(&["Name"]));
    assert_eq!(split_str("a::::b", "::"), strings(&["a", "", "b"]));
}

#[test]
fn contains_and_compare() {
    assert!(contains_str("TransitionListener<Foo>", "Listener<"));
    assert!(!contains_str("EventEdge<Foo>", "Listener<"));
    assert!(contains_str("anything", ""));
    assert!(str_lt("abc", "abd"));
    assert!(str_lt("ab", "abc"));
    assert!(!str_lt("b", "abc"));
    assert!(!str_lt("same", "same"));
    assert!(str_eq("same", "same"));
    assert!(!str_eq("same", "Same"));
}

#[test]
fn insert_sorted_unique_keeps_order_and_drops_repeats() {
    let mut v = Vec::new();
    insert_sorted_unique(&mut v, "b".to_string());
    insert_sorted_unique(&mut v, "a".to_string());
    insert_sorted_unique(&mut v, "c".to_string());
    insert_sorted_unique(&mut v, "b".to_string());
    assert_eq!(v, strings(&["a", "b", "c"]));
}

#[test]
fn stable_name_order_keeps_equal_names_in_place() {
    assert_eq!(stable_name_order(&strings(&["b", "a", "b", "a"])), vec![1, 3, 0, 2]);
    assert_eq!(stable_name_order(&Vec::new()), Vec::<usize>::new());
}

#[test]
fn pretty_type_name_str_drops_module_paths() {
    assert_eq!(pretty_type_name_str("bevy_prelude::make_fun_game"), "make_fun_game");
    assert_eq!(pretty_type_name_str("alloc::vec::Vec<alloc::string::String>"), "Vec<String>");
    assert_eq!(pretty_type_name_str("Plain"), "Plain");
}

#[test]
fn component_display_order_sorts_by_short_name() {
    let names = strings(&["b::Zeta", "a::Alpha", "c::Zeta"]);
    let order = component_display_order(&names);
    assert_eq!(order, vec![("Alpha".to_string(), 1), ("Zeta".to_string(), 0), ("Zeta".to_string(), 2)]);
}

#[test]
fn last_path_segment_takes_the_last_segment() {
    assert_eq!(last_path_segment("bevy_gearbox::StateMachine"), "StateMachine");
    assert_eq!(last_path_segment("Plain"), "Plain");
}

#[test]
fn extract_transition_event_type_reads_the_bracketed_event() {
    assert_eq!(
        extract_transition_event_type("bevy_gearbox::transition_listener::TransitionListener<repeater::OnInvoke>"),
        "OnInvoke"
    );
    assert_eq!(extract_transition_event_type("TransitionListener<Tick>"), "Tick");
    assert_eq!(extract_transition_event_type("no_brackets::Here"), "Unknown");
    assert_eq!(extract_transition_event_type("a::L<b::Outer<c::Inner>>"), "Inner>");
}

#[test]
fn edge_event_name_reads_event_edges_only() {
    assert_eq!(edge_event_name("bevy_gearbox::EventEdge<game::Jump>"), Some("Jump".to_string()));
    assert_eq!(edge_event_name("EventEdge<Fall>"), Some("Fall".to_string()));
    assert_eq!(edge_event_name("bevy_core::Name"), None);
    assert_eq!(edge_event_name("EventEdge<unclosed"), None);
}

#[test]
fn collect_available_event_types_is_sorted_and_distinct() {
    let paths = strings(&[
        "a::TransitionListener<x::B>",
        "a::TransitionListener<y::A>",
        "a::TransitionListener<x::B>",
        "bevy_core::Name",
    ]);
    assert_eq!(collect_available_event_types(&paths), strings(&["A", "B"]));
    assert_eq!(collect_available_event_types(&Vec::new()), Vec::<String>::new());
}

#[test]
fn discover_event_types_puts_always_first() {
    let paths = strings(&["g::EventEdge<e::Jump>", "g::EventEdge<e::Fall>", "g::EventEdge<e::Jump>", "Name"]);
    assert_eq!(discover_transition_edge_listener_event_types(&paths), strings(&["Always", "Fall", "Jump"]));
    assert_eq!(discover_transition_edge_listener_event_types(&Vec::new()), strings(&["Always"]));
    let with_always = strings(&["g::EventEdge<e::Zed>", "g::EventEdge<e::Always>"]);
    assert_eq!(discover_transition_edge_listener_event_types(&with_always), strings(&["Always", "Zed"]));
}

#[test]
fn find_transition_listener_type_takes_the_first_match() {
    let paths = strings(&["x::TransitionListener<a::Jump>", "y::TransitionListener<b::Jump>", "z::Jump"]);
    assert_eq!(find_transition_listener_type(&paths, "Jump"), Some("x::TransitionListener<a::Jump>".to_string()));
    assert_eq!(find_transition_listener_type(&paths, "Fall"), None);
}

#[test]
fn plan_transition_edge_covers_every_outcome() {
    let paths = strings(&["bevy_core::Name", "g::EventEdge<e::Jump>"]);
    assert!(matches!(plan_transition_edge(&paths, "Always"), Ok(EdgePlan::Always)));
    match plan_transition_edge(&paths, "Jump") {
        Ok(EdgePlan::EventEdge(p)) => assert_eq!(p, "g::EventEdge<e::Jump>"),
        _ => panic!("expected the Jump edge"),
    }
    assert!(matches!(plan_transition_edge(&paths, "Missing"), Err(EdgeLookupError::EventEdgeNotFound)));
}

#[test]
fn find_edge_listener_for_deletion_needs_the_prefix() {
    let names = strings(&["Name", "XEventEdge<Fall>", "EventEdge<Jump>", "EventEdge<Fall>"]);
    assert_eq!(find_edge_listener_for_deletion(&names, "Fall"), Some(3));
    assert_eq!(find_edge_listener_for_deletion(&names, "Run"), None);
}

#[test]
fn collect_available_components_sorts_names() {
    let paths = strings(&["b::B", "a::A", "a::A"]);
    assert_eq!(collect_available_components(&paths), strings(&["a::A", "a::A", "b::B"]));
}

#[test]
fn inspector_skips_markers_and_untyped_components() {
    assert!(shows_component(true, 8));
    assert!(!shows_component(true, 0));
    assert!(!shows_component(false, 8));
}
