use vstd::prelude::*;
use crate::hierarchy::{EntityId, StateTree, children_in, depth_first, is_ancestor_or_self};
use crate::visual_transitions::{entry_for, first_entry};
use crate::editor_state::{TransitionCreationState, TextEditingState};
use crate::text::{strs, trimmed};
use crate::type_paths::{discover_transition_edge_listener_event_types, offered_event_types};

verus! {

/// The two ways a node is drawn: a plain box, or a region that holds children.
#[derive(Clone, Copy, PartialEq, Eq, Structural, Debug)]
pub enum NodeShape {
    Leaf,
    Parent,
}

/// What to do to the node drawn for a state so that its shape matches the state.
#[derive(Clone, Copy, PartialEq, Eq, Structural, Debug)]
pub enum NodeChange {
    /// The node already has the right shape.
    Keep,
    /// Redraw the leaf as a region, where the leaf was.
    LeafToParent,
    /// Redraw the region as a leaf, where the region was.
    ParentToLeaf,
    /// The state has no node yet: add a region.
    NewParent,
    /// The state has no node yet: add a leaf.
    NewLeaf,
}

/// The change for a state that should be drawn as a region (it has
/// children) or as a leaf, given the shape of its node, if it has one.
pub open spec fn node_change(wants_parent: bool, current: Option<NodeShape>) -> NodeChange {
    if wants_parent {
        match current {
            Some(NodeShape::Parent) => NodeChange::Keep,
            Some(NodeShape::Leaf) => NodeChange::LeafToParent,
            None => NodeChange::NewParent,
        }
    } else {
        match current {
            Some(NodeShape::Leaf) => NodeChange::Keep,
            Some(NodeShape::Parent) => NodeChange::ParentToLeaf,
            None => NodeChange::NewLeaf,
        }
    }
}

/// The shape a node has after its change.
pub open spec fn shape_after(c: NodeChange, before: NodeShape) -> NodeShape {
    match c {
        NodeChange::Keep => before,
        NodeChange::LeafToParent | NodeChange::NewParent => NodeShape::Parent,
        NodeChange::ParentToLeaf | NodeChange::NewLeaf => NodeShape::Leaf,
    }
}

/// After its change, the node of a state is a region exactly when the state
/// has children, whether or not it had a node before; a node is made only
/// for a state that had none, converted only when its shape was wrong, and
/// kept only when it was right.
pub proof fn law_changes_give_the_shape_the_children_ask_for(
    links: Seq<(EntityId, EntityId)>,
    e: EntityId,
    current: Option<NodeShape>,
    before: NodeShape,
)
    requires
        current is Some ==> current->0 == before,
    ensures
        ({
            let wanted = if children_in(links, e).len() > 0 {
                NodeShape::Parent
            } else {
                NodeShape::Leaf
            };
            let c = node_change(has_children(links, e), current);
            &&& shape_after(c, before) == wanted
            &&& (c == NodeChange::NewParent || c == NodeChange::NewLeaf) <==> current is None
            &&& c == NodeChange::Keep <==> current == Some(wanted)
        }),
{
}

fn change_for(wants_parent: bool, current: Option<NodeShape>) -> (r: NodeChange)
    ensures
        r == node_change(wants_parent, current),
{
    if wants_parent {
        match current {
            Some(NodeShape::Parent) => NodeChange::Keep,
            Some(NodeShape::Leaf) => NodeChange::LeafToParent,
            None => NodeChange::NewParent,
        }
    } else {
        match current {
            Some(NodeShape::Leaf) => NodeChange::Keep,
            Some(NodeShape::Parent) => NodeChange::ParentToLeaf,
            None => NodeChange::NewLeaf,
        }
    }
}

fn contains_entity(v: &Vec<EntityId>, e: EntityId) -> (r: bool)
    ensures
        r == v@.contains(e),
{
    let mut i: usize = 0;
    while i < v.len()
        invariant
            i <= v@.len(),
            forall|j: int| 0 <= j < i ==> v@[j] != e,
        decreases v.len() - i,
    {
        if v[i] == e {
            return true;
        }
        i = i + 1;
    }
    false
}

/// For the machine under `root`, the change each of its states (the root
/// and every state below it) needs so that a state with children is drawn
/// as a region and any other as a leaf: a leaf that gained children becomes
/// a region, and a region that lost them all becomes a leaf. Each state is
/// listed once: the root first, then the states below it depth first.
pub fn node_type_changes(
    tree: &StateTree,
    root: EntityId,
    nodes: &Vec<(EntityId, NodeShape)>,
) -> (r: Vec<(EntityId, NodeChange)>)
    requires
        tree.well_formed(),
    ensures
        r@.map_values(|c: (EntityId, NodeChange)| c.0) == seq![root] + depth_first(tree.link_order(), root),
        r@.len() > 0 && r@[0].0 == root,
        forall|a: int, b: int| 0 <= a < b < r@.len() ==> (#[trigger] r@[a]).0 != (#[trigger] r@[b]).0,
        forall|e: EntityId|
            (exists|k: int| 0 <= k < r@.len() && (#[trigger] r@[k]).0 == e) <==> is_ancestor_or_self(tree@, root, e),
        forall|k: int|
            0 <= k < r@.len() ==> (#[trigger] r@[k]).1 == node_change(
                has_children(tree.link_order(), r@[k].0),
                first_entry(nodes@, r@[k].0),
            ),
{
    let below = tree.descendants(root);
    let mut out: Vec<(EntityId, NodeChange)> = Vec::new();
    let root_change = change_for(tree.children_of(root).len() > 0, entry_for(nodes, root));
    out.push((root, root_change));
    proof {
        assert(tree@ == tree@);
        assert(is_ancestor_or_self(tree@, root, root)) by {
            assert(crate::hierarchy::ancestor_at(tree@, root, 0) == root);
        }
    }
    let mut i: usize = 0;
    while i < below.len()
        invariant
            tree.well_formed(),
            below@.no_duplicates(),
            forall|x: EntityId| below@.contains(x) <==> (x != root && is_ancestor_or_self(tree@, root, x)),
            i <= below@.len(),
            out@.len() == i + 1,
            out@[0].0 == root,
            forall|k: int| 0 < k < out@.len() ==> (#[trigger] out@[k]).0 == below@[k - 1],
            forall|k: int|
                0 <= k < out@.len() ==> (#[trigger] out@[k]).1 == node_change(
                    has_children(tree.link_order(), out@[k].0),
                    first_entry(nodes@, out@[k].0),
                ),
        decreases below.len() - i,
    {
        let e = below[i];
        let c = change_for(tree.children_of(e).len() > 0, entry_for(nodes, e));
        out.push((e, c));
        i = i + 1;
    }
    proof {
        assert(out@.map_values(|c: (EntityId, NodeChange)| c.0) =~= seq![root] + below@);
        assert forall|a: int, b: int| 0 <= a < b < out@.len() implies (#[trigger] out@[a]).0 != (#[trigger] out@[b]).0 by {
            assert(below@.contains(out@[b].0));
            if a > 0 {
                assert(below@[a - 1] != below@[b - 1]);
            }
        }
        assert forall|e: EntityId|
            (exists|k: int| 0 <= k < out@.len() && (#[trigger] out@[k]).0 == e) <==> is_ancestor_or_self(tree@, root, e) by {
            if is_ancestor_or_self(tree@, root, e) && e != root {
                assert(below@.contains(e));
                let j = choose|j: int| 0 <= j < below@.len() && below@[j] == e;
                assert(out@[j + 1].0 == e);
            }
            if e == root {
                assert(out@[0].0 == e);
            }
            if exists|k: int| 0 <= k < out@.len() && (#[trigger] out@[k]).0 == e {
                let k = choose|k: int| 0 <= k < out@.len() && (#[trigger] out@[k]).0 == e;
                if k > 0 {
                    assert(below@.contains(below@[k - 1]));
                }
            }
        }
    }
    out
}

/// The nodes to drop because their state is no longer in the machine under
/// `root`, in the order the nodes are listed.
pub fn stale_nodes(tree: &StateTree, root: EntityId, nodes: &Vec<(EntityId, NodeShape)>) -> (r: Vec<EntityId>)
    requires
        tree.well_formed(),
    ensures
        r@ == nodes@.map_values(|n: (EntityId, NodeShape)| n.0).filter(|e: EntityId| !is_ancestor_or_self(tree@, root, e)),
{
    let ghost keys = nodes@.map_values(|n: (EntityId, NodeShape)| n.0);
    let ghost gone = |e: EntityId| !is_ancestor_or_self(tree@, root, e);
    let mut out: Vec<EntityId> = Vec::new();
    let mut i: usize = 0;
    while i < nodes.len()
        invariant
            tree.well_formed(),
            keys == nodes@.map_values(|n: (EntityId, NodeShape)| n.0),
            gone == (|e: EntityId| !is_ancestor_or_self(tree@, root, e)),
            i <= nodes@.len(),
            out@ == keys.take(i as int).filter(gone),
        decreases nodes.len() - i,
    {
        let e = nodes[i].0;
        proof {
            assert(keys.take(i as int + 1).drop_last() =~= keys.take(i as int));
            assert(keys.take(i as int + 1).last() == e);
            keys.take(i as int).lemma_filter_push(e, gone);
        }
        if !tree.is_ancestor_or_self(root, e) {
            out.push(e);
        }
        proof {
            assert(keys.take(i as int).push(e) =~= keys.take(i as int + 1));
        }
        i = i + 1;
    }
    proof {
        assert(keys.take(nodes@.len() as int) =~= keys);
    }
    out
}

/// A node in drawing order: nodes with a higher `z_order` are drawn later,
/// on top.
#[derive(Clone, Copy, PartialEq, Eq, Structural, Debug)]
pub struct RenderItem {
    pub entity: EntityId,
    pub z_order: i32,
}

/// The lift given to the selected node and its ancestors.
pub open spec fn selection_boost(m: Map<EntityId, EntityId>, e: EntityId, selected: Option<EntityId>) -> int {
    match selected {
        Some(s) => if is_ancestor_or_self(m, e, s) {
            5
        } else {
            0
        },
        None => 0,
    }
}

/// The drawing queue for the states `hierarchy` lists depth first (root
/// first): each state that has a node, at ten times its place in the list,
/// lifted by five for the selected node and its ancestors.
pub open spec fn render_items(
    m: Map<EntityId, EntityId>,
    hierarchy: Seq<EntityId>,
    node_keys: Seq<EntityId>,
    selected: Option<EntityId>,
) -> Seq<(EntityId, int)>
    decreases hierarchy.len(),
{
    if hierarchy.len() == 0 {
        Seq::empty()
    } else {
        let n = hierarchy.len() - 1;
        let rest = render_items(m, hierarchy.drop_last(), node_keys, selected);
        let e = hierarchy.last();
        if node_keys.contains(e) {
            rest.push((e, 10 * n + selection_boost(m, e, selected)))
        } else {
            rest
        }
    }
}

pub open spec fn render_view(r: Seq<RenderItem>) -> Seq<(EntityId, int)> {
    r.map_values(|x: RenderItem| (x.entity, x.z_order as int))
}

/// The nodes of a machine in the order to draw them, each with its z-order:
/// every state of `hierarchy` (listed depth first, root first) that has a
/// node, at ten times its place in the list, lifted by five when it is the
/// selected node or one of its ancestors; then ordered by z-order.
pub fn render_queue(
    tree: &StateTree,
    hierarchy: &Vec<EntityId>,
    node_keys: &Vec<EntityId>,
    selected_node: Option<EntityId>,
) -> (r: Vec<RenderItem>)
    requires
        tree.well_formed(),
        10 * hierarchy@.len() + 5 <= i32::MAX,
    ensures
        render_view(r@) == render_items(tree@, hierarchy@, node_keys@, selected_node),
        forall|a: int, b: int| 0 <= a < b < r@.len() ==> (#[trigger] r@[a]).z_order < (#[trigger] r@[b]).z_order,
{
    let mut out: Vec<RenderItem> = Vec::new();
    let mut i: usize = 0;
    let mut base: i32 = 0;
    while i < hierarchy.len()
        invariant
            tree.well_formed(),
            10 * hierarchy@.len() + 5 <= i32::MAX,
            i <= hierarchy@.len(),
            base == 10 * i,
            render_view(out@) == render_items(tree@, hierarchy@.take(i as int), node_keys@, selected_node),
            forall|k: int| 0 <= k < out@.len() ==> (#[trigger] out@[k]).z_order < 10 * i,
            forall|a: int, b: int| 0 <= a < b < out@.len() ==> (#[trigger] out@[a]).z_order < (#[trigger] out@[b]).z_order,
        decreases hierarchy.len() - i,
    {
        let e = hierarchy[i];
        proof {
            assert(hierarchy@.take(i as int + 1).drop_last() =~= hierarchy@.take(i as int));
            assert(hierarchy@.take(i as int + 1).last() == e);
        }
        if contains_entity(node_keys, e) {
            let boost: i32 = if tree.should_get_selection_boost(e, selected_node) {
                5
            } else {
                0
            };
            let ghost before = out@;
            out.push(RenderItem { entity: e, z_order: base + boost });
            proof {
                assert(render_view(out@) =~= render_view(before).push((e, base + boost)));
            }
        }
        i = i + 1;
        base = base + 10;
    }
    proof {
        assert(hierarchy@.take(hierarchy@.len() as int) =~= hierarchy@);
    }
    out
}

/// What a frame of pointer input on a node came to.
#[derive(Clone, Copy, PartialEq, Eq, Structural, Debug)]
pub struct NodeResponse {
    pub clicked: bool,
    pub dragged: bool,
    pub hovered: bool,
    pub right_clicked: bool,
    pub add_transition_clicked: bool,
}

/// The pointer input on a node in one frame.
#[derive(Clone, Copy, PartialEq, Eq, Structural, Debug)]
pub struct NodePointer {
    pub drag_started_by_primary: bool,
    pub drag_stopped: bool,
    pub dragged: bool,
    pub clicked_by_primary: bool,
    pub clicked_by_secondary: bool,
    pub hovered: bool,
    /// The "+" button was drawn and clicked.
    pub add_button_clicked: bool,
}

/// Whether a node shows the "+" button that starts a transition: a leaf when
/// it is selected (the root included), a region when it is selected and not
/// the root.
pub fn shows_add_transition_button(shape: NodeShape, is_selected: bool, is_root: bool) -> (r: bool)
    ensures
        r == match shape {
            NodeShape::Leaf => is_selected,
            NodeShape::Parent => is_selected && !is_root,
        },
{
    match shape {
        NodeShape::Leaf => is_selected,
        NodeShape::Parent => is_selected && !is_root,
    }
}

/// Reads a frame of pointer input on a node. A drag moves the node only when
/// the primary button started it: that is remembered in `dragged_by_primary`.
pub fn node_response(dragged_by_primary: &mut bool, input: NodePointer, add_button_shown: bool) -> (r: NodeResponse)
    ensures
        *final(dragged_by_primary) == if input.drag_started_by_primary {
            true
        } else if input.drag_stopped {
            false
        } else {
            *old(dragged_by_primary)
        },
        r.dragged == (input.dragged && *final(dragged_by_primary)),
        r.clicked == input.clicked_by_primary,
        r.right_clicked == input.clicked_by_secondary,
        r.hovered == input.hovered,
        r.add_transition_clicked == (add_button_shown && input.add_button_clicked),
{
    if input.drag_started_by_primary {
        *dragged_by_primary = true;
    } else if input.drag_stopped {
        *dragged_by_primary = false;
    }
    NodeResponse {
        clicked: input.clicked_by_primary,
        dragged: input.dragged && *dragged_by_primary,
        hovered: input.hovered,
        right_clicked: input.clicked_by_secondary,
        add_transition_clicked: add_button_shown && input.add_button_clicked,
    }
}

/// What the editor asks of the world after a node's response.
#[derive(Clone, Copy, PartialEq, Eq, Structural, Debug)]
pub enum NodeEvent {
    /// Start a transition from the node.
    TransitionCreationRequested(EntityId),
    /// Open the node's context menu at the pointer.
    ContextMenuRequested(EntityId),
    /// The node was dragged; its children follow.
    Dragged(EntityId),
}

/// The event that `flag` raises, if raised.
pub open spec fn raised(flag: bool, e: NodeEvent) -> Seq<NodeEvent> {
    if flag {
        seq![e]
    } else {
        Seq::empty()
    }
}

/// The events a node's response raises, in this order: transition, context
/// menu, drag.
pub fn node_events(entity: EntityId, response: NodeResponse) -> (r: Vec<NodeEvent>)
    ensures
        r@ == raised(response.add_transition_clicked, NodeEvent::TransitionCreationRequested(entity)) + raised(
            response.right_clicked,
            NodeEvent::ContextMenuRequested(entity),
        ) + raised(response.dragged, NodeEvent::Dragged(entity)),
{
    let mut out: Vec<NodeEvent> = Vec::new();
    if response.add_transition_clicked {
        out.push(NodeEvent::TransitionCreationRequested(entity));
    }
    if response.right_clicked {
        out.push(NodeEvent::ContextMenuRequested(entity));
    }
    if response.dragged {
        out.push(NodeEvent::Dragged(entity));
    }
    assert(out@ =~= raised(response.add_transition_clicked, NodeEvent::TransitionCreationRequested(entity)) + raised(
        response.right_clicked,
        NodeEvent::ContextMenuRequested(entity),
    ) + raised(response.dragged, NodeEvent::Dragged(entity)));
    out
}

/// A click on a node: while a transition waits for its target, the node
/// becomes the target (the event dropdown opening at `pointer`); otherwise
/// the node is selected.
pub fn node_clicked<P>(
    creation: &mut TransitionCreationState<P>,
    selected_node: &mut Option<EntityId>,
    entity: EntityId,
    pointer: P,
)
    ensures
        old(creation).awaiting_target_selection ==> {
            &&& final(creation).target_entity == Some(entity)
            &&& !final(creation).awaiting_target_selection
            &&& final(creation).show_event_dropdown
            &&& final(creation).dropdown_position == Some(pointer)
            &&& final(creation).source_entity == old(creation).source_entity
            &&& *final(selected_node) == *old(selected_node)
        },
        !old(creation).awaiting_target_selection ==> *final(creation) == *old(creation) && *final(selected_node)
            == Some(entity),
{
    if creation.awaiting_target_selection {
        creation.set_target(entity, pointer);
    } else {
        *selected_node = Some(entity);
    }
}

impl<P> TransitionCreationState<P> {
    /// A right click or Escape while a transition waits for its target abandons it.
    pub fn cancel_on_pointer(&mut self, secondary_click: bool, escape: bool)
        ensures
            (old(self).awaiting_target_selection && old(self).source_entity is Some && (secondary_click || escape))
                ==> final(self).is_idle(),
            !(old(self).awaiting_target_selection && old(self).source_entity is Some && (secondary_click || escape))
                ==> *final(self) == *old(self),
    {
        if self.awaiting_target_selection && self.source_entity.is_some() && (secondary_click || escape) {
            self.cancel();
        }
    }

    /// A primary click on the canvas while a transition waits for its target:
    /// away from every node it abandons the transition.
    pub fn cancel_on_background_click(&mut self, primary_click: bool, on_node: bool)
        ensures
            (old(self).awaiting_target_selection && primary_click && !on_node) ==> final(self).is_idle(),
            !(old(self).awaiting_target_selection && primary_click && !on_node) ==> *final(self) == *old(self),
    {
        if self.awaiting_target_selection && primary_click && !on_node {
            self.cancel();
        }
    }

    /// Whether the event dropdown is drawn: it was opened, and source, target
    /// and position are all known.
    pub fn dropdown_visible(&self) -> (r: bool)
        ensures
            r == (self.show_event_dropdown && self.source_entity is Some && self.target_entity is Some
                && self.dropdown_position is Some),
    {
        self.show_event_dropdown && self.source_entity.is_some() && self.target_entity.is_some()
            && self.dropdown_position.is_some()
    }

    /// The transition to create when the `index`-th event type of the
    /// dropdown is chosen: from the source to the target, with that event.
    pub fn dropdown_choice(&self, index: usize) -> (r: Option<(EntityId, EntityId, String)>)
        ensures
            match r {
                Some((s, t, ev)) => {
                    &&& self.show_event_dropdown && self.dropdown_position is Some
                    &&& self.source_entity == Some(s)
                    &&& self.target_entity == Some(t)
                    &&& index < self.available_event_types@.len()
                    &&& ev@ == self.available_event_types@[index as int]@
                },
                None => !(self.show_event_dropdown && self.source_entity is Some && self.target_entity is Some
                    && self.dropdown_position is Some && index < self.available_event_types@.len()),
            },
    {
        if !self.dropdown_visible() || index >= self.available_event_types.len() {
            return None;
        }
        match (self.source_entity, self.target_entity) {
            (Some(s), Some(t)) => Some((s, t, self.available_event_types[index].clone())),
            _ => None,
        }
    }

    /// A click while the dropdown is drawn: outside it, the transition is abandoned.
    pub fn dropdown_click(&mut self, inside: bool)
        ensures
            (old(self).show_event_dropdown && old(self).source_entity is Some && old(self).target_entity is Some
                && old(self).dropdown_position is Some && !inside) ==> final(self).is_idle(),
            !(old(self).show_event_dropdown && old(self).source_entity is Some && old(self).target_entity is Some
                && old(self).dropdown_position is Some && !inside) ==> *final(self) == *old(self),
    {
        if self.dropdown_visible() && !inside {
            self.cancel();
        }
    }
}

impl TextEditingState {
    /// Renaming ends on Enter, on Escape or on a click: Escape abandons it,
    /// otherwise the trimmed text, unless empty, becomes the new name.
    /// Returns the entity to rename and its new name.
    pub fn editing_input(&mut self, enter: bool, escape: bool, click: bool) -> (r: Option<(EntityId, String)>)
        ensures
            !(enter || escape || click) ==> *final(self) == *old(self) && r is None,
            (enter || escape || click) && old(self).editing_entity is Some ==> {
                &&& final(self).editing_entity is None
                &&& final(self).current_text@ == Seq::<char>::empty()
                &&& !final(self).should_focus
                &&& !final(self).first_focus
            },
            old(self).editing_entity is None ==> *final(self) == *old(self),
            r is Some <==> ((enter || escape || click) && !escape && old(self).editing_entity is Some
                && trimmed(old(self).current_text@).len() > 0),
            match r {
                Some((e, name)) => old(self).editing_entity == Some(e) && name@ == trimmed(old(self).current_text@),
                None => true,
            },
    {
        if !(enter || escape || click) {
            return None;
        }
        self.finish_editing(escape)
    }

    /// After a node has been drawn, the focus requests have been served.
    pub fn clear_focus_requests(&mut self)
        ensures
            !final(self).should_focus,
            !final(self).first_focus,
            final(self).editing_entity == old(self).editing_entity,
            final(self).current_text == old(self).current_text,
    {
        self.should_focus = false;
        self.first_focus = false;
    }
}

/// The drawing queue lists the nodes in the order the hierarchy does, so the
/// lift given to the selection never draws a node above a state that comes
/// later in the hierarchy.
pub proof fn law_render_order_follows_hierarchy(
    m: Map<EntityId, EntityId>,
    hierarchy: Seq<EntityId>,
    node_keys: Seq<EntityId>,
    selected: Option<EntityId>,
)
    ensures
        render_items(m, hierarchy, node_keys, selected).map_values(|x: (EntityId, int)| x.0) == hierarchy.filter(
            |e: EntityId| node_keys.contains(e),
        ),
    decreases hierarchy.len(),
{
    if hierarchy.len() > 0 {
        let prev = hierarchy.drop_last();
        law_render_order_follows_hierarchy(m, prev, node_keys, selected);
        prev.lemma_filter_push(hierarchy.last(), |e: EntityId| node_keys.contains(e));
        assert(prev.push(hierarchy.last()) =~= hierarchy);
        let rest = render_items(m, prev, node_keys, selected);
        let full = render_items(m, hierarchy, node_keys, selected);
        if node_keys.contains(hierarchy.last()) {
            assert(full.map_values(|x: (EntityId, int)| x.0) =~= rest.map_values(|x: (EntityId, int)| x.0).push(
                hierarchy.last(),
            ));
        } else {
            assert(full == rest);
        }
    }
}

/// The initial state to give a state that has children but none: its first child.
pub fn missing_initial_state(tree: &StateTree, parent: EntityId, has_initial_state: bool) -> (r: Option<EntityId>)
    requires
        tree.well_formed(),
    ensures
        r == if !has_initial_state && children_in(tree.link_order(), parent).len() > 0 {
            Some(children_in(tree.link_order(), parent)[0])
        } else {
            None
        },
{
    if has_initial_state {
        None
    } else {
        tree.first_child(parent)
    }
}

/// The nodes that move with a dragged node: its children that are drawn,
/// in link order. Each passes the drag on to its own children.
pub fn drag_followers(tree: &StateTree, dragged: EntityId, node_keys: &Vec<EntityId>) -> (r: Vec<EntityId>)
    requires
        tree.well_formed(),
    ensures
        r@ == children_in(tree.link_order(), dragged).filter(|c: EntityId| node_keys@.contains(c)),
{
    let children = tree.children_of(dragged);
    let ghost drawn = |c: EntityId| node_keys@.contains(c);
    let mut out: Vec<EntityId> = Vec::new();
    let mut i: usize = 0;
    while i < children.len()
        invariant
            drawn == (|c: EntityId| node_keys@.contains(c)),
            i <= children@.len(),
            out@ == children@.take(i as int).filter(drawn),
        decreases children.len() - i,
    {
        let c = children[i];
        proof {
            children@.take(i as int).lemma_filter_push(c, drawn);
            assert(children@.take(i as int).push(c) =~= children@.take(i as int + 1));
        }
        if contains_entity(node_keys, c) {
            out.push(c);
        }
        i = i + 1;
    }
    proof {
        assert(children@.take(children@.len() as int) =~= children@);
    }
    out
}

/// The shape a state is saved with: a region when it has children.
pub fn saved_node_shape(has_children: bool) -> (r: NodeShape)
    ensures
        r == if has_children {
            NodeShape::Parent
        } else {
            NodeShape::Leaf
        },
{
    if has_children {
        NodeShape::Parent
    } else {
        NodeShape::Leaf
    }
}

/// The states of the machine under `root` that have no node yet, root first,
/// then depth first: each gets a leaf when the machine is opened.
pub fn nodes_to_populate(tree: &StateTree, root: EntityId, node_keys: &Vec<EntityId>) -> (r: Vec<EntityId>)
    requires
        tree.well_formed(),
    ensures
        r@ == (seq![root] + depth_first(tree.link_order(), root)).filter(|e: EntityId| !node_keys@.contains(e)),
        r@.no_duplicates(),
        forall|e: EntityId| r@.contains(e) <==> (is_ancestor_or_self(tree@, root, e) && !node_keys@.contains(e)),
        !node_keys@.contains(root) ==> r@.len() > 0 && r@[0] == root,
{
    let below = tree.descendants(root);
    let ghost all = seq![root] + below@;
    let ghost missing = |e: EntityId| !node_keys@.contains(e);
    let mut out: Vec<EntityId> = Vec::new();
    proof {
        assert(crate::hierarchy::ancestor_at(tree@, root, 0) == root);
        assert(is_ancestor_or_self(tree@, root, root));
        Seq::<EntityId>::empty().lemma_filter_push(root, missing);
        assert(all.take(1) =~= Seq::<EntityId>::empty().push(root));
        assert(Seq::<EntityId>::empty().filter(missing) =~= Seq::<EntityId>::empty());
    }
    if !contains_entity(node_keys, root) {
        out.push(root);
        assert(out@[0] == root);
    }
    assert(out@ =~= all.take(1).filter(missing));
    proof {
        assert forall|e: EntityId| out@.contains(e) <==> ((e == root || exists|j: int| 0 <= j < 0 && below@[j] == e)
            && is_ancestor_or_self(tree@, root, e) && !node_keys@.contains(e)) by {
            if e == root && !node_keys@.contains(e) {
                assert(out@[0] == e);
            }
        }
    }
    let mut i: usize = 0;
    while i < below.len()
        invariant
            tree.well_formed(),
            is_ancestor_or_self(tree@, root, root),
            below@.no_duplicates(),
            forall|x: EntityId| below@.contains(x) <==> (x != root && is_ancestor_or_self(tree@, root, x)),
            i <= below@.len(),
            all == seq![root] + below@,
            missing == (|e: EntityId| !node_keys@.contains(e)),
            out@ == all.take(i + 1).filter(missing),
            out@.no_duplicates(),
            !node_keys@.contains(root) ==> out@.len() > 0 && out@[0] == root,
            forall|e: EntityId| out@.contains(e) <==> ((e == root || exists|j: int| 0 <= j < i && below@[j] == e)
                && is_ancestor_or_self(tree@, root, e) && !node_keys@.contains(e)),
        decreases below.len() - i,
    {
        let e = below[i];
        assert(below@.contains(e));
        proof {
            all.take(i + 1).lemma_filter_push(e, missing);
            assert(all.take(i + 2) =~= all.take(i + 1).push(e));
        }
        if !contains_entity(node_keys, e) {
            let ghost before = out@;
            proof {
                if before.contains(e) {
                    if e != root {
                        let j = choose|j: int| 0 <= j < i && below@[j] == e;
                        assert(below@[j] == below@[i as int]);
                    }
                }
            }
            out.push(e);
            proof {
                assert forall|a: int, b: int| 0 <= a < b < out@.len() implies out@[a] != out@[b] by {
                    if b == before.len() {
                        assert(before.contains(out@[a]));
                    } else {
                        assert(before[a] != before[b]);
                    }
                }
                assert forall|x: EntityId| out@.contains(x) <==> ((x == root || exists|j: int| 0 <= j < i + 1 && below@[j] == x)
                    && is_ancestor_or_self(tree@, root, x) && !node_keys@.contains(x)) by {
                    if out@.contains(x) && x != e {
                        let k = choose|k: int| 0 <= k < out@.len() && out@[k] == x;
                        assert(before[k] == x);
                        assert(before.contains(x));
                    }
                    if x == e {
                        assert(out@[before.len() as int] == e);
                    }
                    if (exists|j: int| 0 <= j < i + 1 && below@[j] == x) && is_ancestor_or_self(tree@, root, x)
                        && !node_keys@.contains(x) && x != e && x != root {
                        let j = choose|j: int| 0 <= j < i + 1 && below@[j] == x;
                        assert(j < i);
                        assert(before.contains(x));
                        let k = choose|k: int| 0 <= k < before.len() && before[k] == x;
                        assert(out@[k] == x);
                    }
                    if x == root && !node_keys@.contains(x) {
                        assert(before.contains(root));
                        let k = choose|k: int| 0 <= k < before.len() && before[k] == x;
                        assert(out@[k] == x);
                    }
                }
            }
        } else {
            proof {
                assert forall|x: EntityId| out@.contains(x) <==> ((x == root || exists|j: int| 0 <= j < i + 1 && below@[j] == x)
                    && is_ancestor_or_self(tree@, root, x) && !node_keys@.contains(x)) by {
                    if (exists|j: int| 0 <= j < i + 1 && below@[j] == x) && x != e {
                        let j = choose|j: int| 0 <= j < i + 1 && below@[j] == x;
                        assert(j < i);
                    }
                }
            }
        }
        i = i + 1;
    }
    proof {
        assert(all.take(below@.len() as int + 1) =~= all);
        assert forall|x: EntityId| out@.contains(x) <==> (is_ancestor_or_self(tree@, root, x) && !node_keys@.contains(x)) by {
            if is_ancestor_or_self(tree@, root, x) && x != root {
                assert(below@.contains(x));
                let j = choose|j: int| 0 <= j < below@.len() && below@[j] == x;
            }
        }
    }
    out
}

/// A "+" click on node `source`: creation of a transition from it starts,
/// offering the event types of the registered edge types.
pub fn handle_transition_creation_request<P>(
    creation: &mut TransitionCreationState<P>,
    source: EntityId,
    type_paths: &Vec<String>,
)
    ensures
        final(creation).source_entity == Some(source),
        final(creation).awaiting_target_selection,
        final(creation).target_entity is None,
        !final(creation).show_event_dropdown,
        final(creation).dropdown_position is None,
        offered_event_types(strs(final(creation).available_event_types@), strs(type_paths@)),
{
    creation.start_transition(source);
    creation.available_event_types = discover_transition_edge_listener_event_types(type_paths);
}

/// A state has children in the tree.
pub open spec fn has_children(links: Seq<(EntityId, EntityId)>, e: EntityId) -> bool {
    children_in(links, e).len() > 0
}

/// Every child of `e` that has children of its own is among `done`: `e` can
/// be sized once those have been.
pub open spec fn ready_to_size(links: Seq<(EntityId, EntityId)>, done: Seq<EntityId>, e: EntityId) -> bool {
    forall|c: EntityId| #[trigger] children_in(links, e).contains(c) ==> (done.contains(c) || !has_children(links, c))
}

proof fn lemma_distinct_subset_len(a: Seq<EntityId>, b: Seq<EntityId>)
    requires
        a.no_duplicates(),
        forall|x: EntityId| a.contains(x) ==> b.contains(x),
    ensures
        a.len() <= b.len(),
{
    broadcast use vstd::seq_lib::seq_to_set_is_finite;
    a.unique_seq_to_set();
    b.lemma_cardinality_of_set();
    assert(a.to_set().subset_of(b.to_set()));
    vstd::set_lib::lemma_len_subset(a.to_set(), b.to_set());
}

/// Whether `e` can be sized now that the states of `done` have been.
fn can_size(tree: &StateTree, done: &Vec<EntityId>, e: EntityId) -> (r: bool)
    requires
        tree.well_formed(),
    ensures
        r == ready_to_size(tree.link_order(), done@, e),
{
    let children = tree.children_of(e);
    let mut i: usize = 0;
    while i < children.len()
        invariant
            tree.well_formed(),
            children@ == children_in(tree.link_order(), e),
            i <= children@.len(),
            forall|j: int|
                0 <= j < i ==> done@.contains(#[trigger] children@[j]) || !has_children(tree.link_order(), children@[j]),
        decreases children.len() - i,
    {
        let c = children[i];
        let grand = tree.children_of(c);
        if !contains_entity(done, c) && grand.len() > 0 {
            proof {
                assert(children@.contains(c));
            }
            return false;
        }
        i = i + 1;
    }
    proof {
        assert forall|c: EntityId| #[trigger] children@.contains(c) implies (done@.contains(c) || !has_children(
            tree.link_order(),
            c,
        )) by {
            let j = choose|j: int| 0 <= j < children@.len() && children@[j] == c;
        }
    }
    true
}

/// The order in which the regions of a machine are sized to hold their
/// children, bottom up: each state of `node_keys` once, every one after its
/// children that have children of their own. A state below which some
/// region has no node is never ready and is left out; every state left out
/// has such a child.
pub fn sizing_order(tree: &StateTree, node_keys: &Vec<EntityId>) -> (r: Vec<EntityId>)
    requires
        tree.well_formed(),
    ensures
        r@.no_duplicates(),
        forall|k: int| 0 <= k < r@.len() ==> node_keys@.contains(#[trigger] r@[k]),
        forall|k: int| 0 <= k < r@.len() ==> ready_to_size(tree.link_order(), r@.take(k), #[trigger] r@[k]),
        forall|e: EntityId|
            #[trigger] node_keys@.contains(e) && !r@.contains(e) ==> !ready_to_size(tree.link_order(), r@, e),
{
    let ghost links = tree.link_order();
    let mut out: Vec<EntityId> = Vec::new();
    let mut progress = true;
    while progress
        invariant
            tree.well_formed(),
            links == tree.link_order(),
            out@.no_duplicates(),
            forall|k: int| 0 <= k < out@.len() ==> node_keys@.contains(#[trigger] out@[k]),
            forall|k: int| 0 <= k < out@.len() ==> ready_to_size(links, out@.take(k), #[trigger] out@[k]),
            out@.len() <= node_keys@.len(),
            !progress ==> forall|e: EntityId|
                #[trigger] node_keys@.contains(e) && !out@.contains(e) ==> !ready_to_size(links, out@, e),
        decreases node_keys@.len() - out@.len() + (if progress {
            1int
        } else {
            0int
        }),
    {
        let ghost start_len = out@.len();
        let mut added = false;
        let mut i: usize = 0;
        while i < node_keys.len()
            invariant
                tree.well_formed(),
                links == tree.link_order(),
                out@.no_duplicates(),
                forall|k: int| 0 <= k < out@.len() ==> node_keys@.contains(#[trigger] out@[k]),
                forall|k: int| 0 <= k < out@.len() ==> ready_to_size(links, out@.take(k), #[trigger] out@[k]),
                out@.len() <= node_keys@.len(),
                i <= node_keys@.len(),
                added <==> out@.len() > start_len,
                out@.len() >= start_len,
                !added ==> forall|j: int|
                    0 <= j < i ==> out@.contains(#[trigger] node_keys@[j]) || !ready_to_size(links, out@, node_keys@[j]),
            decreases node_keys.len() - i,
        {
            let e = node_keys[i];
            if !contains_entity(&out, e) && can_size(tree, &out, e) {
                proof {
                    assert(node_keys@.contains(e));
                    let pushed = out@.push(e);
                    assert forall|a: int, b: int| 0 <= a < b < pushed.len() implies pushed[a] != pushed[b] by {
                        if b == out@.len() {
                            assert(out@.contains(pushed[a]));
                        }
                    }
                    assert forall|x: EntityId| pushed.contains(x) implies node_keys@.contains(x) by {
                        let k = choose|k: int| 0 <= k < pushed.len() && pushed[k] == x;
                        if k < out@.len() {
                            assert(node_keys@.contains(out@[k]));
                        }
                    }
                    lemma_distinct_subset_len(pushed, node_keys@);
                }
                let ghost before = out@;
                out.push(e);
                proof {
                    assert forall|k: int| 0 <= k < out@.len() implies ready_to_size(links, out@.take(k), #[trigger] out@[k]) by {
                        if k < before.len() {
                            assert(out@.take(k) =~= before.take(k));
                            assert(out@[k] == before[k]);
                        } else {
                            assert(out@.take(k) =~= before);
                        }
                    }
                }
                added = true;
            }
            i = i + 1;
        }
        progress = added;
    }
    out
}

} // verus!
