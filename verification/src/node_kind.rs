use vstd::prelude::*;
use crate::hierarchy::EntityId;

verus! {

/// What kind of state an editor node is: a leaf, a parent with one active
/// child, or a parallel state with all children active.
#[derive(Debug, Clone, Copy, PartialEq, Eq, Structural)]
pub enum NodeKind {
    Leaf,
    Parent,
    Parallel,
}

/// The events that move a node between kinds.
#[derive(Debug, Clone, Copy, PartialEq, Eq, Structural)]
pub enum NodeKindEvent {
    AddChildClicked,
    ChildAdded,
    AllChildrenRemoved,
    MakeParallelClicked,
    MakeParentClicked,
    MakeLeafClicked,
}

/// What the editor does to a state when its kind machine enters a kind.
#[derive(Debug, Clone, Copy, PartialEq, Eq, Structural)]
pub enum NodeKindAction {
    /// Mark the state as parallel.
    InsertParallelMarker,
    /// Remove the parallel marker.
    RemoveParallelMarker,
    /// Remove the state's initial-state pointer.
    RemoveInitialState,
    /// Remove the state's list of children.
    RemoveStateChildren,
    /// Create a child named "New State" below the state, with a leaf node
    /// placed down and to the right of the state's node.
    SpawnDefaultChild,
    /// Point the state's initial state at its first child.
    SetInitialStateToFirstChild,
}

/// The edges of the kind machine: the kind an event leads to from a kind, if
/// an edge leaves that kind on that event.
pub open spec fn kind_transition(kind: NodeKind, event: NodeKindEvent) -> Option<NodeKind> {
    match (kind, event) {
        (NodeKind::Leaf, NodeKindEvent::AddChildClicked) => Some(NodeKind::Parent),
        (NodeKind::Leaf, NodeKindEvent::ChildAdded) => Some(NodeKind::Parent),
        (NodeKind::Leaf, NodeKindEvent::MakeParentClicked) => Some(NodeKind::Parent),
        (NodeKind::Leaf, NodeKindEvent::MakeParallelClicked) => Some(NodeKind::Parallel),
        (NodeKind::Parent, NodeKindEvent::MakeParallelClicked) => Some(NodeKind::Parallel),
        (NodeKind::Parent, NodeKindEvent::AllChildrenRemoved) => Some(NodeKind::Leaf),
        (NodeKind::Parent, NodeKindEvent::MakeLeafClicked) => Some(NodeKind::Leaf),
        (NodeKind::Parallel, NodeKindEvent::MakeParentClicked) => Some(NodeKind::Parent),
        (NodeKind::Parallel, NodeKindEvent::AllChildrenRemoved) => Some(NodeKind::Leaf),
        (NodeKind::Parallel, NodeKindEvent::MakeLeafClicked) => Some(NodeKind::Leaf),
        _ => None,
    }
}

/// The kind of a state after `event`: where an edge leads, or the same kind
/// when no edge leaves it on that event.
pub open spec fn kind_after(kind: NodeKind, event: NodeKindEvent) -> NodeKind {
    match kind_transition(kind, event) {
        Some(k) => k,
        None => kind,
    }
}

/// What entering `kind` does to a state that has (or has no) children.
pub open spec fn enter_actions(kind: NodeKind, has_children: bool) -> Seq<NodeKindAction> {
    match kind {
        NodeKind::Parallel => if has_children {
            seq![NodeKindAction::InsertParallelMarker, NodeKindAction::RemoveInitialState]
        } else {
            seq![
                NodeKindAction::InsertParallelMarker,
                NodeKindAction::RemoveInitialState,
                NodeKindAction::SpawnDefaultChild,
            ]
        },
        NodeKind::Parent => if has_children {
            seq![NodeKindAction::RemoveParallelMarker, NodeKindAction::SetInitialStateToFirstChild]
        } else {
            seq![
                NodeKindAction::RemoveParallelMarker,
                NodeKindAction::SpawnDefaultChild,
                NodeKindAction::SetInitialStateToFirstChild,
            ]
        },
        NodeKind::Leaf => seq![
            NodeKindAction::RemoveParallelMarker,
            NodeKindAction::RemoveInitialState,
            NodeKindAction::RemoveStateChildren,
        ],
    }
}

/// The kind an event leads to from `kind`, if an edge leaves `kind` on it.
pub fn next_kind(kind: NodeKind, event: NodeKindEvent) -> (r: Option<NodeKind>)
    ensures
        r == kind_transition(kind, event),
{
    match (kind, event) {
        (NodeKind::Leaf, NodeKindEvent::AddChildClicked) => Some(NodeKind::Parent),
        (NodeKind::Leaf, NodeKindEvent::ChildAdded) => Some(NodeKind::Parent),
        (NodeKind::Leaf, NodeKindEvent::MakeParentClicked) => Some(NodeKind::Parent),
        (NodeKind::Leaf, NodeKindEvent::MakeParallelClicked) => Some(NodeKind::Parallel),
        (NodeKind::Parent, NodeKindEvent::MakeParallelClicked) => Some(NodeKind::Parallel),
        (NodeKind::Parent, NodeKindEvent::AllChildrenRemoved) => Some(NodeKind::Leaf),
        (NodeKind::Parent, NodeKindEvent::MakeLeafClicked) => Some(NodeKind::Leaf),
        (NodeKind::Parallel, NodeKindEvent::MakeParentClicked) => Some(NodeKind::Parent),
        (NodeKind::Parallel, NodeKindEvent::AllChildrenRemoved) => Some(NodeKind::Leaf),
        (NodeKind::Parallel, NodeKindEvent::MakeLeafClicked) => Some(NodeKind::Leaf),
        _ => None,
    }
}

/// What entering `kind` does to a state, given whether it has children.
pub fn actions_on_enter(kind: NodeKind, has_children: bool) -> (r: Vec<NodeKindAction>)
    ensures
        r@ == enter_actions(kind, has_children),
{
    let mut r: Vec<NodeKindAction> = Vec::new();
    match kind {
        NodeKind::Parallel => {
            r.push(NodeKindAction::InsertParallelMarker);
            r.push(NodeKindAction::RemoveInitialState);
            if !has_children {
                r.push(NodeKindAction::SpawnDefaultChild);
            }
        },
        NodeKind::Parent => {
            r.push(NodeKindAction::RemoveParallelMarker);
            if !has_children {
                r.push(NodeKindAction::SpawnDefaultChild);
            }
            r.push(NodeKindAction::SetInitialStateToFirstChild);
        },
        NodeKind::Leaf => {
            r.push(NodeKindAction::RemoveParallelMarker);
            r.push(NodeKindAction::RemoveInitialState);
            r.push(NodeKindAction::RemoveStateChildren);
        },
    }
    assert(r@ =~= enter_actions(kind, has_children));
    r
}

/// One step of a node's kind machine: the kind after `event`, and what the
/// editor must do to the state. An event without an edge from the current
/// kind changes nothing.
pub fn handle_kind_event(kind: NodeKind, event: NodeKindEvent, has_children: bool) -> (r: (NodeKind, Vec<NodeKindAction>))
    ensures
        r.0 == kind_after(kind, event),
        match kind_transition(kind, event) {
            Some(k) => r.0 == k && r.1@ == enter_actions(k, has_children),
            None => r.0 == kind && r.1@ == Seq::<NodeKindAction>::empty(),
        },
{
    match next_kind(kind, event) {
        Some(k) => (k, actions_on_enter(k, has_children)),
        None => (kind, Vec::new()),
    }
}

/// A node's kind as the editor reads it from its markers: parallel when it
/// carries the parallel marker, a parent when it has an initial state, a leaf
/// otherwise.
pub open spec fn observed_kind(has_initial_state: bool, has_parallel_marker: bool) -> NodeKind {
    if has_parallel_marker {
        NodeKind::Parallel
    } else if has_initial_state {
        NodeKind::Parent
    } else {
        NodeKind::Leaf
    }
}

/// The markers of a state that decide its kind as the editor reads it.
#[derive(Debug, Clone, Copy, PartialEq, Eq, Structural)]
pub struct NodeMarkers {
    pub has_initial_state: bool,
    pub has_parallel_marker: bool,
    pub has_children: bool,
}

/// The markers of a state after one action.
pub open spec fn apply_kind_action(m: NodeMarkers, a: NodeKindAction) -> NodeMarkers {
    match a {
        NodeKindAction::InsertParallelMarker => NodeMarkers { has_parallel_marker: true, ..m },
        NodeKindAction::RemoveParallelMarker => NodeMarkers { has_parallel_marker: false, ..m },
        NodeKindAction::RemoveInitialState => NodeMarkers { has_initial_state: false, ..m },
        NodeKindAction::RemoveStateChildren => NodeMarkers { has_children: false, ..m },
        NodeKindAction::SpawnDefaultChild => NodeMarkers { has_children: true, ..m },
        NodeKindAction::SetInitialStateToFirstChild => if m.has_children {
            NodeMarkers { has_initial_state: true, ..m }
        } else {
            m
        },
    }
}

/// The markers of a state after a list of actions, in order.
pub open spec fn apply_kind_actions(m: NodeMarkers, actions: Seq<NodeKindAction>) -> NodeMarkers
    decreases actions.len(),
{
    if actions.len() == 0 {
        m
    } else {
        apply_kind_actions(apply_kind_action(m, actions[0]), actions.drop_first())
    }
}

/// Law: whatever markers a state had, the actions of entering a kind leave it
/// with markers that the editor reads back as that kind; entering a parent or
/// a parallel state leaves it with at least one child.
pub proof fn law_enter_matches_observed_kind(kind: NodeKind, m: NodeMarkers)
    ensures
        ({
            let after = apply_kind_actions(m, enter_actions(kind, m.has_children));
            &&& observed_kind(after.has_initial_state, after.has_parallel_marker) == kind
            &&& kind != NodeKind::Leaf ==> after.has_children
        }),
{
    reveal_with_fuel(apply_kind_actions, 4);
}

/// Law: "make leaf" always ends in a leaf, "make parent" in a parent and
/// "make parallel" in a parallel state, whatever the kind before.
pub proof fn law_make_kind_events(kind: NodeKind)
    ensures
        kind_transition(kind, NodeKindEvent::MakeLeafClicked) is None ==> kind == NodeKind::Leaf,
        kind_transition(kind, NodeKindEvent::MakeLeafClicked) is Some ==> kind_transition(kind, NodeKindEvent::MakeLeafClicked)->0 == NodeKind::Leaf,
        kind_transition(kind, NodeKindEvent::MakeParentClicked) is None ==> kind == NodeKind::Parent,
        kind_transition(kind, NodeKindEvent::MakeParentClicked) is Some ==> kind_transition(kind, NodeKindEvent::MakeParentClicked)->0 == NodeKind::Parent,
        kind_transition(kind, NodeKindEvent::MakeParallelClicked) is None ==> kind == NodeKind::Parallel,
        kind_transition(kind, NodeKindEvent::MakeParallelClicked) is Some ==> kind_transition(kind, NodeKindEvent::MakeParallelClicked)->0 == NodeKind::Parallel,
{
}

/// Law: losing all children turns a parent or parallel state into a leaf,
/// and adding a child turns a leaf into a parent.
pub proof fn law_children_events(kind: NodeKind)
    ensures
        kind != NodeKind::Leaf ==> kind_transition(kind, NodeKindEvent::AllChildrenRemoved) == Some(NodeKind::Leaf),
        kind == NodeKind::Leaf ==> kind_transition(kind, NodeKindEvent::ChildAdded) == Some(NodeKind::Parent),
        kind == NodeKind::Leaf ==> kind_transition(kind, NodeKindEvent::AddChildClicked) == Some(NodeKind::Parent),
{
}

/// Law: adding a child moves a state only while it is a leaf, and then to a
/// parent; a parent or parallel state keeps its kind when a child is added.
/// Losing all children moves a state only while it is not a leaf, and then
/// to a leaf.
pub proof fn law_child_events_follow_the_children(kind: NodeKind)
    ensures
        kind_transition(kind, NodeKindEvent::AddChildClicked) is Some <==> kind == NodeKind::Leaf,
        kind_transition(kind, NodeKindEvent::ChildAdded) is Some <==> kind == NodeKind::Leaf,
        kind_transition(kind, NodeKindEvent::AllChildrenRemoved) is Some <==> kind != NodeKind::Leaf,
        kind_transition(kind, NodeKindEvent::AddChildClicked) is Some ==> kind_transition(
            kind,
            NodeKindEvent::AddChildClicked,
        )->0 == NodeKind::Parent,
        kind_transition(kind, NodeKindEvent::ChildAdded) is Some ==> kind_transition(kind, NodeKindEvent::ChildAdded)->0
            == NodeKind::Parent,
        kind_transition(kind, NodeKindEvent::AllChildrenRemoved) is Some ==> kind_transition(
            kind,
            NodeKindEvent::AllChildrenRemoved,
        )->0 == NodeKind::Leaf,
{
}

/// Law: every edge of the kind machine changes the kind; an event that would
/// leave a state as it is has no edge, and `handle_kind_event` then asks for
/// no action.
pub proof fn law_edges_change_the_kind(kind: NodeKind, event: NodeKindEvent)
    ensures
        kind_transition(kind, event) is Some ==> kind_transition(kind, event)->0 != kind,
{
}

/// The kind machine of every state of an open machine, by state.
pub struct NodeKindRoots {
    roots: std::collections::HashMap<EntityId, EntityId>,
}

impl View for NodeKindRoots {
    type V = Map<EntityId, EntityId>;

    /// Editor state to the root of its kind machine.
    closed spec fn view(&self) -> Map<EntityId, EntityId> {
        self.roots@
    }
}

impl NodeKindRoots {
    /// No kind machines.
    pub fn new() -> (r: Self)
        ensures
            r@ == Map::<EntityId, EntityId>::empty(),
    {
        NodeKindRoots { roots: std::collections::HashMap::new() }
    }

    /// The kind machine of `state`, if it has one.
    pub fn get(&self, state: EntityId) -> (r: Option<EntityId>)
        ensures
            r == if self@.contains_key(state) {
                Some(self@[state])
            } else {
                None
            },
    {
        broadcast use vstd::std_specs::hash::group_hash_axioms;

        match self.roots.get(&state) {
            Some(root) => Some(*root),
            None => None,
        }
    }

    /// Whether `state` has a kind machine.
    pub fn contains(&self, state: EntityId) -> (r: bool)
        ensures
            r == self@.contains_key(state),
    {
        broadcast use vstd::std_specs::hash::group_hash_axioms;

        self.roots.contains_key(&state)
    }

    /// Records the kind machine of `state`, replacing any earlier one.
    pub fn insert(&mut self, state: EntityId, root: EntityId)
        ensures
            final(self)@ == old(self)@.insert(state, root),
    {
        broadcast use vstd::std_specs::hash::group_hash_axioms;

        self.roots.insert(state, root);
    }

    /// Forgets the kind machine of `state`, handing back its root.
    pub fn remove(&mut self, state: EntityId) -> (r: Option<EntityId>)
        ensures
            final(self)@ == old(self)@.remove(state),
            r == if old(self)@.contains_key(state) {
                Some(old(self)@[state])
            } else {
                None
            },
    {
        broadcast use vstd::std_specs::hash::group_hash_axioms;

        self.roots.remove(&state)
    }
}

impl NodeKindRoots {
    /// The states of `node_keys` that have no kind machine yet, in order:
    /// those a kind machine is made for when a machine's nodes are populated.
    pub fn states_without_kind_machine(&self, node_keys: &Vec<EntityId>) -> (r: Vec<EntityId>)
        ensures
            r@ == node_keys@.filter(|e: EntityId| !self@.contains_key(e)),
    {
        let ghost missing = |e: EntityId| !self@.contains_key(e);
        let mut out: Vec<EntityId> = Vec::new();
        let mut i: usize = 0;
        while i < node_keys.len()
            invariant
                missing == (|e: EntityId| !self@.contains_key(e)),
                i <= node_keys@.len(),
                out@ == node_keys@.take(i as int).filter(missing),
            decreases node_keys.len() - i,
        {
            let e = node_keys[i];
            proof {
                node_keys@.take(i as int).lemma_filter_push(e, missing);
                assert(node_keys@.take(i as int).push(e) =~= node_keys@.take(i as int + 1));
            }
            if !self.contains(e) {
                out.push(e);
            }
            i = i + 1;
        }
        proof {
            assert(node_keys@.take(node_keys@.len() as int) =~= node_keys@);
        }
        out
    }
}

} // verus!
