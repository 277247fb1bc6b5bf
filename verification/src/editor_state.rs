use vstd::prelude::*;
use crate::hierarchy::EntityId;
use crate::text::{trim, trimmed, strs, str_eq};
use crate::entity_inspector::ComponentHierarchy;
use crate::context_menu::{NodeMenuItem, MenuCommand, menu_command, node_menu_command, TransitionMenuItem};

verus! {

/// State of renaming a node in place.
pub struct TextEditingState {
    /// Entity being renamed.
    pub editing_entity: Option<EntityId>,
    /// The text typed so far.
    pub current_text: String,
    /// Whether the text field should take keyboard focus.
    pub should_focus: bool,
    /// Whether this is the first focus, when all text gets selected.
    pub first_focus: bool,
}

impl Default for TextEditingState {
    fn default() -> (s: Self)
        ensures
            s.editing_entity is None,
            s.current_text@ == Seq::<char>::empty(),
            !s.should_focus,
            !s.first_focus,
    {
        TextEditingState { editing_entity: None, current_text: String::new(), should_focus: false, first_focus: false }
    }
}

impl TextEditingState {
    /// Starts renaming `entity`, beginning from its current name.
    pub fn start_editing(&mut self, entity: EntityId, current_name: &str)
        ensures
            final(self).editing_entity == Some(entity),
            final(self).current_text@ == current_name@,
            final(self).should_focus,
            final(self).first_focus,
    {
        self.editing_entity = Some(entity);
        self.current_text = String::from_str(current_name);
        self.should_focus = true;
        self.first_focus = true;
    }

    /// Stops renaming; hands back the entity and the typed text if renaming
    /// was under way.
    pub fn stop_editing(&mut self) -> (r: Option<(EntityId, String)>)
        ensures
            match old(self).editing_entity {
                Some(e) => match r {
                    Some((re, text)) => re == e && text@ == old(self).current_text@,
                    None => false,
                },
                None => r is None,
            },
            old(self).editing_entity is Some ==> {
                &&& final(self).editing_entity is None
                &&& final(self).current_text@ == Seq::<char>::empty()
                &&& !final(self).should_focus
                &&& !final(self).first_focus
            },
            old(self).editing_entity is None ==> *final(self) == *old(self),
    {
        match self.editing_entity {
            Some(entity) => {
                let text = self.current_text.clone();
                self.editing_entity = None;
                self.current_text = String::new();
                self.should_focus = false;
                self.first_focus = false;
                Some((entity, text))
            },
            None => None,
        }
    }

    /// Abandons renaming without keeping the text.
    pub fn cancel_editing(&mut self)
        ensures
            final(self).editing_entity is None,
            final(self).current_text@ == Seq::<char>::empty(),
            !final(self).should_focus,
            !final(self).first_focus,
    {
        self.editing_entity = None;
        self.current_text = String::new();
        self.should_focus = false;
        self.first_focus = false;
    }

    /// Whether `entity` is being renamed.
    pub fn is_editing(&self, entity: EntityId) -> (r: bool)
        ensures
            r == (self.editing_entity == Some(entity)),
    {
        match self.editing_entity {
            Some(e) => e == entity,
            None => false,
        }
    }

    /// Ends renaming when the user confirms, presses Escape or clicks
    /// elsewhere. Escape abandons the edit; otherwise the typed text, trimmed,
    /// becomes the new name unless nothing but white space was typed. Returns
    /// the entity and the name to give it.
    pub fn finish_editing(&mut self, escape_pressed: bool) -> (r: Option<(EntityId, String)>)
        ensures
            old(self).editing_entity is Some ==> {
                &&& final(self).editing_entity is None
                &&& final(self).current_text@ == Seq::<char>::empty()
                &&& !final(self).should_focus
                &&& !final(self).first_focus
            },
            old(self).editing_entity is None ==> *final(self) == *old(self),
            r is Some <==> (!escape_pressed && old(self).editing_entity is Some && trimmed(old(self).current_text@).len() > 0),
            match r {
                Some((re, name)) => old(self).editing_entity == Some(re) && name@ == trimmed(old(self).current_text@),
                None => true,
            },
    {
        if self.editing_entity.is_none() {
            return None;
        }
        if escape_pressed {
            self.cancel_editing();
            return None;
        }
        match self.stop_editing() {
            Some((entity, name)) => {
                let t = trim(name.as_str());
                if t.as_str().unicode_len() > 0 {
                    Some((entity, t))
                } else {
                    None
                }
            },
            None => None,
        }
    }

    /// Another node was selected: renaming of a different entity is abandoned.
    pub fn on_selection_changed(&mut self, selected: Option<EntityId>)
        ensures
            (selected is Some && old(self).editing_entity is Some && old(self).editing_entity != selected) ==> {
                &&& final(self).editing_entity is None
                &&& final(self).current_text@ == Seq::<char>::empty()
                &&& !final(self).should_focus
                &&& !final(self).first_focus
            },
            !(selected is Some && old(self).editing_entity is Some && old(self).editing_entity != selected) ==> *final(self)
                == *old(self),
    {
        if let Some(new_selection) = selected {
            if let Some(editing) = self.editing_entity {
                if editing != new_selection {
                    self.cancel_editing();
                }
            }
        }
    }
}


/// State of creating a transition: pick a source, then a target, then an event.
/// `P` is a position on screen.
pub struct TransitionCreationState<P> {
    /// Source state of the transition being created.
    pub source_entity: Option<EntityId>,
    /// Whether a click on a node should pick the target.
    pub awaiting_target_selection: bool,
    /// Where the event type dropdown appears.
    pub dropdown_position: Option<P>,
    /// The picked target state.
    pub target_entity: Option<EntityId>,
    /// Whether the event type dropdown is open.
    pub show_event_dropdown: bool,
    /// Event types offered for the new transition.
    pub available_event_types: Vec<String>,
}

impl<P> TransitionCreationState<P> {
    /// Nothing under way: every field empty.
    pub open spec fn is_idle(&self) -> bool {
        &&& self.source_entity is None
        &&& !self.awaiting_target_selection
        &&& self.dropdown_position is None
        &&& self.target_entity is None
        &&& !self.show_event_dropdown
        &&& self.available_event_types@.len() == 0
    }

    /// A state with nothing under way.
    pub fn idle() -> (s: Self)
        ensures
            s.is_idle(),
    {
        TransitionCreationState {
            source_entity: None,
            awaiting_target_selection: false,
            dropdown_position: None,
            target_entity: None,
            show_event_dropdown: false,
            available_event_types: Vec::new(),
        }
    }

    /// Starts creating a transition from `source`; the next node click picks
    /// the target.
    pub fn start_transition(&mut self, source: EntityId)
        ensures
            final(self).source_entity == Some(source),
            final(self).awaiting_target_selection,
            final(self).target_entity is None,
            !final(self).show_event_dropdown,
            final(self).dropdown_position is None,
            final(self).available_event_types == old(self).available_event_types,
    {
        self.source_entity = Some(source);
        self.awaiting_target_selection = true;
        self.target_entity = None;
        self.show_event_dropdown = false;
        self.dropdown_position = None;
    }

    /// Picks the target and opens the event type dropdown at `dropdown_pos`.
    pub fn set_target(&mut self, target: EntityId, dropdown_pos: P)
        ensures
            final(self).target_entity == Some(target),
            !final(self).awaiting_target_selection,
            final(self).show_event_dropdown,
            final(self).dropdown_position == Some(dropdown_pos),
            final(self).source_entity == old(self).source_entity,
            final(self).available_event_types == old(self).available_event_types,
    {
        self.target_entity = Some(target);
        self.awaiting_target_selection = false;
        self.show_event_dropdown = true;
        self.dropdown_position = Some(dropdown_pos);
    }

    /// Abandons the transition being created.
    pub fn cancel(&mut self)
        ensures
            final(self).is_idle(),
    {
        *self = Self::idle();
    }

    /// Ends creation once the transition exists.
    pub fn complete(&mut self)
        ensures
            final(self).is_idle(),
    {
        *self = Self::idle();
    }

    /// Whether a transition is being created.
    pub fn is_active(&self) -> (r: bool)
        ensures
            r == self.source_entity is Some,
    {
        self.source_entity.is_some()
    }
}

impl<P> Default for TransitionCreationState<P> {
    fn default() -> (s: Self)
        ensures
            s.is_idle(),
    {
        Self::idle()
    }
}

/// Tabs of the entity inspector.
#[derive(Debug, Clone, Copy, PartialEq, Eq, Structural)]
pub enum InspectorTab {
    Inspect,
    Remove,
    Add,
}

impl Default for InspectorTab {
    fn default() -> (t: Self)
        ensures
            t == InspectorTab::Inspect,
    {
        InspectorTab::Inspect
    }
}

/// State of the "add component" tab.
pub struct ComponentAdditionState {
    /// Text the component list is filtered by.
    pub search_text: String,
    /// Whether the component list is open.
    pub dropdown_open: bool,
    /// The catalogue of addable components, once built.
    pub component_hierarchy: Option<ComponentHierarchy>,
    /// Paths of the expanded namespaces, each once.
    pub expanded_namespaces: Vec<String>,
}

impl ComponentAdditionState {
    /// The expanded namespaces as a set of paths.
    pub open spec fn expanded(&self) -> Set<Seq<char>> {
        strs(self.expanded_namespaces@).to_set()
    }

    /// Each namespace path is listed once.
    pub open spec fn well_formed(&self) -> bool {
        strs(self.expanded_namespaces@).no_duplicates()
    }

    /// Nothing searched, nothing expanded, no catalogue yet.
    pub fn new() -> (s: Self)
        ensures
            s.well_formed(),
            s.search_text@ == Seq::<char>::empty(),
            !s.dropdown_open,
            s.component_hierarchy is None,
            s.expanded() == Set::<Seq<char>>::empty(),
    {
        let s = ComponentAdditionState {
            search_text: String::new(),
            dropdown_open: false,
            component_hierarchy: None,
            expanded_namespaces: Vec::new(),
        };
        assert(s.expanded() =~= Set::<Seq<char>>::empty());
        s
    }

    /// Keeps the given catalogue.
    pub fn update_hierarchy(&mut self, hierarchy: ComponentHierarchy)
        ensures
            final(self).component_hierarchy == Some(hierarchy),
            final(self).search_text == old(self).search_text,
            final(self).dropdown_open == old(self).dropdown_open,
            final(self).expanded_namespaces == old(self).expanded_namespaces,
    {
        self.component_hierarchy = Some(hierarchy);
    }

    fn index_of_namespace(&self, namespace_path: &str) -> (r: Option<usize>)
        ensures
            match r {
                Some(i) => i < self.expanded_namespaces@.len() && self.expanded_namespaces@[i as int]@ == namespace_path@,
                None => !self.expanded().contains(namespace_path@),
            },
    {
        let mut i: usize = 0;
        while i < self.expanded_namespaces.len()
            invariant
                i <= self.expanded_namespaces@.len(),
                forall|k: int| 0 <= k < i ==> (#[trigger] self.expanded_namespaces@[k])@ != namespace_path@,
            decreases self.expanded_namespaces.len() - i,
        {
            if str_eq(self.expanded_namespaces[i].as_str(), namespace_path) {
                return Some(i);
            }
            i = i + 1;
        }
        proof {
            if self.expanded().contains(namespace_path@) {
                let k = choose|k: int| 0 <= k < strs(self.expanded_namespaces@).len() && strs(self.expanded_namespaces@)[k] == namespace_path@;
                assert(self.expanded_namespaces@[k]@ == namespace_path@);
            }
        }
        None
    }

    /// Expands the namespace at `namespace_path`, or collapses it if expanded.
    pub fn toggle_namespace(&mut self, namespace_path: &str)
        requires
            old(self).well_formed(),
        ensures
            final(self).well_formed(),
            final(self).expanded() == toggled(old(self).expanded(), namespace_path@),
            final(self).search_text == old(self).search_text,
            final(self).dropdown_open == old(self).dropdown_open,
            final(self).component_hierarchy == old(self).component_hierarchy,
    {
        let ghost before = strs(self.expanded_namespaces@);
        match self.index_of_namespace(namespace_path) {
            Some(i) => {
                self.expanded_namespaces.remove(i);
                proof {
                    assert(before[i as int] == namespace_path@);
                    assert(before.to_set().contains(namespace_path@));
                    let after = strs(self.expanded_namespaces@);
                    assert(after =~= before.remove(i as int));
                    assert forall|x: Seq<char>| after.to_set().contains(x) <==> before.to_set().remove(namespace_path@).contains(x) by {
                        if after.to_set().contains(x) {
                            let k = choose|k: int| 0 <= k < after.len() && after[k] == x;
                            let k2 = if k < i { k } else { k + 1 };
                            assert(before[k2] == x);
                            assert(k2 != i);
                            assert(before[k2] != before[i as int]);
                        }
                        if before.to_set().remove(namespace_path@).contains(x) {
                            let k = choose|k: int| 0 <= k < before.len() && before[k] == x;
                            assert(k != i);
                            if k < i {
                                assert(after[k] == x);
                            } else {
                                assert(after[k - 1] == x);
                            }
                        }
                    }
                    assert(after.to_set() =~= before.to_set().remove(namespace_path@));
                }
            },
            None => {
                self.expanded_namespaces.push(String::from_str(namespace_path));
                proof {
                    let after = strs(self.expanded_namespaces@);
                    assert(after =~= before.push(namespace_path@));
                    assert(after.to_set() =~= before.to_set().insert(namespace_path@)) by {
                        assert forall|x: Seq<char>| after.to_set().contains(x) <==> before.to_set().insert(namespace_path@).contains(x) by {
                            if after.to_set().contains(x) {
                                let k = choose|k: int| 0 <= k < after.len() && after[k] == x;
                                if k < before.len() {
                                    assert(before[k] == x);
                                }
                            }
                            if before.to_set().contains(x) {
                                let k = choose|k: int| 0 <= k < before.len() && before[k] == x;
                                assert(after[k] == x);
                            }
                            if x == namespace_path@ {
                                assert(after[before.len() as int] == x);
                            }
                        }
                    }
                    assert forall|a: int, b: int| 0 <= a < after.len() && 0 <= b < after.len() && a != b implies after[a] != after[b] by {
                        if a == before.len() {
                            assert(before.contains(after[b]));
                        } else if b == before.len() {
                            assert(before.contains(after[a]));
                        }
                    }
                }
            },
        }
    }

    /// Whether the namespace at `namespace_path` is expanded.
    pub fn is_namespace_expanded(&self, namespace_path: &str) -> (r: bool)
        ensures
            r == self.expanded().contains(namespace_path@),
    {
        match self.index_of_namespace(namespace_path) {
            Some(i) => {
                assert(strs(self.expanded_namespaces@)[i as int] == namespace_path@);
                true
            },
            None => false,
        }
    }
}


/// A machine shown on the canvas, shifted by `canvas_offset`.
pub struct OpenMachine<V> {
    pub entity: EntityId,
    pub display_name: String,
    pub canvas_offset: V,
}

/// A transition as the context menu knows it.
pub struct TransitionRef {
    pub source_entity: EntityId,
    pub target_entity: EntityId,
    pub event_type: String,
    pub edge_entity: EntityId,
}

/// The actions offered on a node.
#[derive(Debug, Clone, Copy, PartialEq, Eq, Structural)]
pub enum NodeAction {
    Inspect,
    AddChild,
    Rename,
    SetAsInitialState,
    MakeParallel,
    MakeParent,
    MakeLeaf,
    Delete,
    ResetRegion,
}

/// The editor's window state: which machines are open, which menus are
/// showing, and what is being inspected. `P` is a screen position and `V` a
/// canvas offset.
pub struct EditorState<P, V> {
    /// The machine being edited.
    pub selected_machine: Option<EntityId>,
    /// The node whose context menu is open.
    pub context_menu_entity: Option<EntityId>,
    /// Where the node context menu is.
    pub context_menu_position: Option<P>,
    /// The transition whose context menu is open.
    pub transition_context_menu: Option<TransitionRef>,
    /// Where the transition context menu is.
    pub transition_context_menu_position: Option<P>,
    /// Where the canvas background menu is, when it is open.
    pub background_context_menu_position: Option<P>,
    /// Whether the "open machine" submenu of the background menu is open.
    pub show_machine_selection_menu: bool,
    /// Set when a node or transition menu opened this frame, so that the same
    /// right click does not also open the background menu.
    pub suppress_background_context_menu_once: bool,
    /// The entity shown in the inspector.
    pub inspected_entity: Option<EntityId>,
    /// The inspector's tab.
    pub inspector_tab: InspectorTab,
    /// The "add component" tab.
    pub component_addition: ComponentAdditionState,
    /// Machines on the canvas, each once, in the order they were opened.
    pub open_machines: Vec<OpenMachine<V>>,
    /// Machines opened because a related machine was open: (origin, target).
    pub related_entities: Vec<(EntityId, EntityId)>,
    /// Where machines that are being opened should appear, by machine.
    pub desired_open_positions: std::collections::HashMap<EntityId, P>,
    /// The selected entity.
    pub selected_entity: Option<EntityId>,
    /// Whether the toolbar's "Open" menu is showing.
    pub show_open_menu: bool,
    /// Where the toolbar's "Open" menu is.
    pub open_menu_position: Option<P>,
    /// Set when the "Open" menu has just opened, so that the click that opened
    /// it does not close it again.
    pub suppress_open_menu_outside_close_once: bool,
    /// The search text of the machine pickers.
    pub machine_search_text: String,
    /// Whether the machine picker's search field should take the focus.
    pub machine_search_should_focus: bool,
    /// Whether the world inspector window is showing.
    pub show_world_inspector: bool,
    /// Where the canvas starts on the screen, once it has been drawn.
    pub canvas_origin: Option<P>,
}

/// The entities of a list of open machines.
pub open spec fn open_entities<V>(m: Seq<OpenMachine<V>>) -> Seq<EntityId> {
    m.map_values(|o: OpenMachine<V>| o.entity)
}

impl<P: Copy, V: Copy> EditorState<P, V> {
    /// At most one context menu (node, transition or background) is open.
    pub open spec fn menus_exclusive(&self) -> bool {
        &&& self.context_menu_entity is Some ==> self.transition_context_menu is None
            && self.background_context_menu_position is None
        &&& self.transition_context_menu is Some ==> self.background_context_menu_position is None
    }

    /// The open machines are listed once each.
    pub open spec fn well_formed(&self) -> bool {
        &&& open_entities(self.open_machines@).no_duplicates()
        &&& self.component_addition.well_formed()
    }

    /// Nothing open, nothing selected.
    pub fn new() -> (s: Self)
        ensures
            s.well_formed(),
            s.menus_exclusive(),
            s.selected_machine is None,
            s.context_menu_entity is None,
            s.transition_context_menu is None,
            s.background_context_menu_position is None,
            s.inspected_entity is None,
            s.inspector_tab == InspectorTab::Inspect,
            s.open_machines@.len() == 0,
            !s.show_open_menu,
            !s.show_world_inspector,
            s.machine_search_text@.len() == 0,
    {
        EditorState {
            selected_machine: None,
            context_menu_entity: None,
            context_menu_position: None,
            transition_context_menu: None,
            transition_context_menu_position: None,
            background_context_menu_position: None,
            show_machine_selection_menu: false,
            suppress_background_context_menu_once: false,
            inspected_entity: None,
            inspector_tab: InspectorTab::Inspect,
            component_addition: ComponentAdditionState::new(),
            open_machines: Vec::new(),
            related_entities: Vec::new(),
            desired_open_positions: std::collections::HashMap::new(),
            selected_entity: None,
            show_open_menu: false,
            open_menu_position: None,
            suppress_open_menu_outside_close_once: false,
            machine_search_text: String::new(),
            machine_search_should_focus: false,
            show_world_inspector: false,
            canvas_origin: None,
        }
    }

    /// The machine being edited.
    pub fn current_machine(&self) -> (r: Option<EntityId>)
        ensures
            r == self.selected_machine,
    {
        self.selected_machine
    }

    /// Chooses the machine to edit.
    pub fn set_current_machine(&mut self, entity: Option<EntityId>)
        ensures
            *final(self) == (EditorState { selected_machine: entity, ..*old(self) }),
    {
        self.selected_machine = entity;
    }

    /// Opens the context menu of node `entity` at `position`, closing the
    /// other menus.
    pub fn request_node_context_menu(&mut self, entity: EntityId, position: P)
        ensures
            final(self).menus_exclusive(),
            *final(self) == (EditorState {
                context_menu_entity: Some(entity),
                context_menu_position: Some(position),
                transition_context_menu: None,
                transition_context_menu_position: None,
                background_context_menu_position: None,
                show_machine_selection_menu: false,
                suppress_background_context_menu_once: true,
                ..*old(self)
            }),
    {
        self.background_context_menu_position = None;
        self.transition_context_menu = None;
        self.transition_context_menu_position = None;
        self.show_machine_selection_menu = false;
        self.context_menu_entity = Some(entity);
        self.context_menu_position = Some(position);
        self.suppress_background_context_menu_once = true;
    }

    /// Opens the context menu of a transition at `position`, closing the
    /// other menus.
    pub fn request_transition_context_menu(&mut self, transition: TransitionRef, position: P)
        ensures
            final(self).menus_exclusive(),
            *final(self) == (EditorState {
                transition_context_menu: Some(transition),
                transition_context_menu_position: Some(position),
                context_menu_entity: None,
                context_menu_position: None,
                background_context_menu_position: None,
                show_machine_selection_menu: false,
                suppress_background_context_menu_once: true,
                ..*old(self)
            }),
    {
        self.background_context_menu_position = None;
        self.context_menu_entity = None;
        self.context_menu_position = None;
        self.show_machine_selection_menu = false;
        self.transition_context_menu = Some(transition);
        self.transition_context_menu_position = Some(position);
        self.suppress_background_context_menu_once = true;
    }

    /// A right click on the canvas background. Swallowed once right after a
    /// node or transition menu opened (returns false); otherwise the node and
    /// transition menus close and the background menu should be requested
    /// (returns true).
    pub fn background_right_click(&mut self) -> (request: bool)
        ensures
            request == !old(self).suppress_background_context_menu_once,
            old(self).menus_exclusive() ==> final(self).menus_exclusive(),
            request ==> *final(self) == (EditorState {
                context_menu_entity: None,
                context_menu_position: None,
                transition_context_menu: None,
                transition_context_menu_position: None,
                show_machine_selection_menu: false,
                ..*old(self)
            }),
            !request ==> *final(self) == (EditorState { suppress_background_context_menu_once: false, ..*old(self) }),
    {
        if self.suppress_background_context_menu_once {
            self.suppress_background_context_menu_once = false;
            return false;
        }
        self.context_menu_entity = None;
        self.context_menu_position = None;
        self.transition_context_menu = None;
        self.transition_context_menu_position = None;
        self.show_machine_selection_menu = false;
        true
    }

    /// Opens the background menu at `position`, closing the other menus,
    /// unless a node or transition menu opened this frame (then only the
    /// suppression is used up).
    pub fn request_background_context_menu(&mut self, position: P) -> (opened: bool)
        ensures
            opened == !old(self).suppress_background_context_menu_once,
            old(self).menus_exclusive() ==> final(self).menus_exclusive(),
            opened ==> final(self).menus_exclusive() && *final(self) == (EditorState {
                background_context_menu_position: Some(position),
                context_menu_entity: None,
                context_menu_position: None,
                transition_context_menu: None,
                transition_context_menu_position: None,
                show_machine_selection_menu: false,
                ..*old(self)
            }),
            !opened ==> *final(self) == (EditorState { suppress_background_context_menu_once: false, ..*old(self) }),
    {
        if self.suppress_background_context_menu_once {
            self.suppress_background_context_menu_once = false;
            return false;
        }
        self.context_menu_entity = None;
        self.context_menu_position = None;
        self.transition_context_menu = None;
        self.transition_context_menu_position = None;
        self.show_machine_selection_menu = false;
        self.background_context_menu_position = Some(position);
        true
    }

    /// Closes the node context menu.
    pub fn close_node_context_menu(&mut self)
        ensures
            *final(self) == (EditorState { context_menu_entity: None, context_menu_position: None, ..*old(self) }),
            old(self).menus_exclusive() ==> final(self).menus_exclusive(),
    {
        self.context_menu_entity = None;
        self.context_menu_position = None;
    }

    /// Closes the transition context menu.
    pub fn close_transition_context_menu(&mut self)
        ensures
            *final(self) == (EditorState {
                transition_context_menu: None,
                transition_context_menu_position: None,
                ..*old(self)
            }),
            old(self).menus_exclusive() ==> final(self).menus_exclusive(),
    {
        self.transition_context_menu = None;
        self.transition_context_menu_position = None;
    }

    /// A click on an entry of the node context menu. While the menu is open
    /// on a node (its entity and position both set), a click on any entry but
    /// the separator closes the menu and gives the node and the entry's
    /// command; otherwise nothing happens.
    pub fn node_menu_click(&mut self, item: NodeMenuItem) -> (r: Option<(EntityId, MenuCommand)>)
        ensures
            old(self).context_menu_entity is Some && old(self).context_menu_position is Some && item
                != NodeMenuItem::Separator ==> r == Some((old(self).context_menu_entity->0, menu_command(item)))
                && *final(self) == (EditorState { context_menu_entity: None, context_menu_position: None, ..*old(self) }),
            !(old(self).context_menu_entity is Some && old(self).context_menu_position is Some && item
                != NodeMenuItem::Separator) ==> r is None && *final(self) == *old(self),
            old(self).menus_exclusive() ==> final(self).menus_exclusive(),
    {
        if item == NodeMenuItem::Separator || self.context_menu_position.is_none() {
            return None;
        }
        match self.context_menu_entity {
            Some(entity) => {
                self.close_node_context_menu();
                Some((entity, node_menu_command(item)))
            },
            None => None,
        }
    }

    /// A click on an entry of the transition context menu. While the menu is
    /// open on a transition (the transition and the position both set), the
    /// click closes the menu and gives the transition's edge entity, which
    /// both entries act on, with the entry; otherwise nothing happens.
    pub fn transition_menu_click(&mut self, item: TransitionMenuItem) -> (r: Option<(EntityId, TransitionMenuItem)>)
        ensures
            old(self).transition_context_menu is Some && old(self).transition_context_menu_position is Some ==> r
                == Some((old(self).transition_context_menu->0.edge_entity, item)) && *final(self) == (EditorState {
                transition_context_menu: None,
                transition_context_menu_position: None,
                ..*old(self)
            }),
            !(old(self).transition_context_menu is Some && old(self).transition_context_menu_position is Some)
                ==> r is None && *final(self) == *old(self),
            old(self).menus_exclusive() ==> final(self).menus_exclusive(),
    {
        if self.transition_context_menu_position.is_none() {
            return None;
        }
        let edge = match &self.transition_context_menu {
            Some(t) => t.edge_entity,
            None => {
                return None;
            },
        };
        self.close_transition_context_menu();
        Some((edge, item))
    }

    /// Closes the background menu and its submenu.
    pub fn close_background_context_menu(&mut self)
        ensures
            *final(self) == (EditorState {
                background_context_menu_position: None,
                show_machine_selection_menu: false,
                ..*old(self)
            }),
            old(self).menus_exclusive() ==> final(self).menus_exclusive(),
    {
        self.background_context_menu_position = None;
        self.show_machine_selection_menu = false;
    }

    /// Whether `entity` is open on the canvas.
    pub fn is_machine_open(&self, entity: EntityId) -> (r: bool)
        ensures
            r == open_entities(self.open_machines@).contains(entity),
    {
        let mut i: usize = 0;
        while i < self.open_machines.len()
            invariant
                i <= self.open_machines@.len(),
                forall|k: int| 0 <= k < i ==> (#[trigger] self.open_machines@[k]).entity != entity,
            decreases self.open_machines.len() - i,
        {
            if self.open_machines[i].entity == entity {
                assert(open_entities(self.open_machines@)[i as int] == entity);
                return true;
            }
            i = i + 1;
        }
        proof {
            if open_entities(self.open_machines@).contains(entity) {
                let k = choose|k: int| 0 <= k < open_entities(self.open_machines@).len() && open_entities(self.open_machines@)[k] == entity;
                assert(self.open_machines@[k].entity == entity);
            }
        }
        false
    }

    /// The canvas offset of open machine `entity`.
    pub fn canvas_offset_of(&self, entity: EntityId) -> (r: Option<V>)
        ensures
            r is Some <==> open_entities(self.open_machines@).contains(entity),
            r is Some ==> exists|k: int|
                0 <= k < self.open_machines@.len() && (#[trigger] self.open_machines@[k]).entity == entity
                    && self.open_machines@[k].canvas_offset == r->0,
    {
        let mut i: usize = 0;
        while i < self.open_machines.len()
            invariant
                i <= self.open_machines@.len(),
                forall|k: int| 0 <= k < i ==> (#[trigger] self.open_machines@[k]).entity != entity,
            decreases self.open_machines.len() - i,
        {
            if self.open_machines[i].entity == entity {
                assert(open_entities(self.open_machines@)[i as int] == entity);
                return Some(self.open_machines[i].canvas_offset);
            }
            i = i + 1;
        }
        proof {
            if open_entities(self.open_machines@).contains(entity) {
                let k = choose|k: int| 0 <= k < open_entities(self.open_machines@).len() && open_entities(self.open_machines@)[k] == entity;
                assert(self.open_machines@[k].entity == entity);
            }
        }
        None
    }

    /// Puts machine `entity` on the canvas, shifted by `offset`, unless it is
    /// already open.
    pub fn add_machine_with_offset(&mut self, entity: EntityId, display_name: String, offset: V)
        requires
            old(self).well_formed(),
        ensures
            final(self).well_formed(),
            open_entities(old(self).open_machines@).contains(entity) ==> final(self).open_machines == old(self).open_machines,
            !open_entities(old(self).open_machines@).contains(entity) ==> final(self).open_machines@ == old(self).open_machines@.push(
                (OpenMachine { entity, display_name, canvas_offset: offset }),
            ),
            *final(self) == (EditorState { open_machines: final(self).open_machines, ..*old(self) }),
    {
        if self.is_machine_open(entity) {
            return;
        }
        let ghost before = self.open_machines@;
        self.open_machines.push(OpenMachine { entity, display_name, canvas_offset: offset });
        proof {
            let es = open_entities(self.open_machines@);
            assert(es =~= open_entities(before).push(entity));
            assert forall|a: int, b: int| 0 <= a < es.len() && 0 <= b < es.len() && a != b implies es[a] != es[b] by {
                if a == before.len() {
                    assert(open_entities(before).contains(es[b]));
                } else if b == before.len() {
                    assert(open_entities(before).contains(es[a]));
                } else {
                    assert(open_entities(before)[a] != open_entities(before)[b]);
                }
            }
        }
    }

    /// Takes machine `entity` off the canvas; the other machines keep their order.
    pub fn remove_machine(&mut self, entity: EntityId)
        requires
            old(self).well_formed(),
        ensures
            final(self).well_formed(),
            !open_entities(final(self).open_machines@).contains(entity),
            open_entities(old(self).open_machines@).contains(entity) ==> exists|i: int|
                0 <= i < old(self).open_machines@.len() && (#[trigger] old(self).open_machines@[i]).entity == entity
                    && final(self).open_machines@ == old(self).open_machines@.remove(i),
            !open_entities(old(self).open_machines@).contains(entity) ==> final(self).open_machines@ == old(self).open_machines@,
            *final(self) == (EditorState { open_machines: final(self).open_machines, ..*old(self) }),
    {
        let ghost before = self.open_machines@;
        let mut i: usize = 0;
        while i < self.open_machines.len()
            invariant
                *self == *old(self),
                old(self).open_machines@ == before,
                self.component_addition.well_formed(),
                open_entities(before).no_duplicates(),
                i <= before.len(),
                forall|k: int| 0 <= k < i ==> (#[trigger] before[k]).entity != entity,
            decreases self.open_machines.len() - i,
        {
            if self.open_machines[i].entity == entity {
                let _ = self.open_machines.remove(i);
                proof {
                    let es = open_entities(before);
                    let ns = open_entities(self.open_machines@);
                    assert(es[i as int] == entity);
                    assert(es.contains(entity));
                    assert(ns =~= es.remove(i as int));
                    assert forall|a: int, b: int| 0 <= a < ns.len() && 0 <= b < ns.len() && a != b implies ns[a] != ns[b] by {
                        let a2 = if a < i { a } else { a + 1 };
                        let b2 = if b < i { b } else { b + 1 };
                        assert(ns[a] == es[a2]);
                        assert(ns[b] == es[b2]);
                    }
                    if ns.contains(entity) {
                        let k = choose|k: int| 0 <= k < ns.len() && ns[k] == entity;
                        let k2 = if k < i { k } else { k + 1 };
                        assert(es[k2] == entity);
                        assert(es[i as int] == entity);
                    }
                }
                return;
            }
            i = i + 1;
        }
        proof {
            if open_entities(before).contains(entity) {
                let k = choose|k: int| 0 <= k < open_entities(before).len() && open_entities(before)[k] == entity;
                assert(before[k].entity == entity);
            }
        }
    }

    /// Opens machine `entity` on the canvas, to appear at `position` (or at
    /// `default_position` when none is given). Nothing happens when it is
    /// already open. Returns whether it was opened.
    pub fn handle_open_machine_request(
        &mut self,
        entity: EntityId,
        display_name: String,
        position: Option<P>,
        default_position: P,
        zero_offset: V,
    ) -> (opened: bool)
        requires
            old(self).well_formed(),
        ensures
            final(self).well_formed(),
            opened == !open_entities(old(self).open_machines@).contains(entity),
            !opened ==> *final(self) == *old(self),
            *final(self) == (EditorState {
                open_machines: final(self).open_machines,
                desired_open_positions: final(self).desired_open_positions,
                ..*old(self)
            }),
            opened ==> {
                &&& final(self).open_machines@ == old(self).open_machines@.push(
                    (OpenMachine { entity, display_name, canvas_offset: zero_offset }),
                )
                &&& final(self).desired_open_positions@ == old(self).desired_open_positions@.insert(
                    entity,
                    match position {
                        Some(p) => p,
                        None => default_position,
                    },
                )
            },
    {
        broadcast use vstd::std_specs::hash::group_hash_axioms;

        if self.is_machine_open(entity) {
            return false;
        }
        let desired = match position {
            Some(p) => p,
            None => default_position,
        };
        self.desired_open_positions.insert(entity, desired);
        self.add_machine_with_offset(entity, display_name, zero_offset);
        true
    }

    /// Takes the position at which machine `entity` was last asked to
    /// appear, if one is recorded; the record is dropped.
    pub fn take_desired_open_position(&mut self, entity: EntityId) -> (r: Option<P>)
        ensures
            r == if old(self).desired_open_positions@.contains_key(entity) {
                Some(old(self).desired_open_positions@[entity])
            } else {
                None
            },
            final(self).desired_open_positions@ == old(self).desired_open_positions@.remove(entity),
            *final(self) == (EditorState { desired_open_positions: final(self).desired_open_positions, ..*old(self) }),
    {
        broadcast use vstd::std_specs::hash::group_hash_axioms;

        self.desired_open_positions.remove(&entity)
    }

    /// Closes machine `entity`.
    pub fn handle_close_machine_request(&mut self, entity: EntityId)
        requires
            old(self).well_formed(),
        ensures
            final(self).well_formed(),
            !open_entities(final(self).open_machines@).contains(entity),
            open_entities(old(self).open_machines@).contains(entity) ==> exists|i: int|
                0 <= i < old(self).open_machines@.len() && (#[trigger] old(self).open_machines@[i]).entity == entity
                    && final(self).open_machines@ == old(self).open_machines@.remove(i),
            !open_entities(old(self).open_machines@).contains(entity) ==> final(self).open_machines@ == old(self).open_machines@,
            *final(self) == (EditorState { open_machines: final(self).open_machines, ..*old(self) }),
    {
        self.remove_machine(entity);
    }

    /// A machine `origin` points at a related machine `target`. When `origin`
    /// is open, `target` is a state machine and not yet open, `target` is
    /// opened at `related_offset` and the pair is remembered. Returns whether
    /// it was opened.
    pub fn handle_view_related(
        &mut self,
        origin: EntityId,
        target: EntityId,
        target_is_machine: bool,
        display_name: String,
        related_offset: V,
    ) -> (opened: bool)
        requires
            old(self).well_formed(),
        ensures
            final(self).well_formed(),
            opened == (open_entities(old(self).open_machines@).contains(origin) && target_is_machine
                && !open_entities(old(self).open_machines@).contains(target)),
            opened ==> final(self).open_machines@ == old(self).open_machines@.push(
                (OpenMachine { entity: target, display_name, canvas_offset: related_offset }),
            ) && final(self).related_entities@ == old(self).related_entities@.push((origin, target)),
            !opened ==> *final(self) == *old(self),
            *final(self) == (EditorState {
                open_machines: final(self).open_machines,
                related_entities: final(self).related_entities,
                ..*old(self)
            }),
    {
        if !self.is_machine_open(origin) {
            return false;
        }
        if !target_is_machine {
            return false;
        }
        if self.is_machine_open(target) {
            return false;
        }
        self.add_machine_with_offset(target, display_name, related_offset);
        self.related_entities.push((origin, target));
        true
    }
}

/// The expanded namespaces after toggling `path`: collapsed if it was
/// expanded, expanded otherwise.
pub open spec fn toggled(expanded: Set<Seq<char>>, path: Seq<char>) -> Set<Seq<char>> {
    if expanded.contains(path) {
        expanded.remove(path)
    } else {
        expanded.insert(path)
    }
}

/// Toggling a namespace twice leaves the expanded namespaces as they were,
/// and toggling one namespace leaves every other as it was.
pub proof fn law_toggle_twice_restores(expanded: Set<Seq<char>>, path: Seq<char>, other: Seq<char>)
    ensures
        toggled(toggled(expanded, path), path) == expanded,
        other != path ==> (toggled(expanded, path).contains(other) <==> expanded.contains(other)),
        toggled(expanded, path).contains(path) <==> !expanded.contains(path),
{
    assert(toggled(toggled(expanded, path), path) =~= expanded);
}

/// Closing a machine right after opening it gives back the machines that
/// were open before: the one entry for it is the one just added.
pub proof fn law_close_undoes_open<V>(open: Seq<OpenMachine<V>>, m: OpenMachine<V>, i: int)
    requires
        open_entities(open).no_duplicates(),
        !open_entities(open).contains(m.entity),
        0 <= i < open.len() + 1,
        open.push(m)[i].entity == m.entity,
    ensures
        open.push(m).remove(i) == open,
{
    if i < open.len() {
        assert(open[i].entity == m.entity);
        assert(open_entities(open)[i] == m.entity);
    }
    assert(open.push(m).remove(i) =~= open);
}

} // verus!
