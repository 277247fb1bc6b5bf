use vstd::prelude::*;
use crate::hierarchy::EntityId;
use crate::editor_state::NodeAction;
use crate::node_kind::{NodeKind, NodeKindEvent, kind_after};

verus! {

/// The entries of a node's context menu.
#[derive(Debug, Clone, Copy, PartialEq, Eq, Structural)]
pub enum NodeMenuItem {
    Inspect,
    Rename,
    MakeParallel,
    MakeParent,
    SaveMachine,
    CloseMachine,
    Separator,
    ResetMachine,
    ResetRegion,
    MakeLeaf,
    AddChild,
    SetAsInitialState,
    DeleteNode,
}

/// What the context menu knows of the node it is opened on.
#[derive(Debug, Clone, Copy, PartialEq, Eq, Structural)]
pub struct NodeMenuContext {
    /// The node has an initial state.
    pub is_parent: bool,
    /// The node is a parallel state.
    pub is_parallel: bool,
    /// The node is the root of an open machine.
    pub is_root: bool,
    /// The node has a parent, and that parent has an initial state.
    pub parent_has_initial_state: bool,
}

/// The node menu, in order: inspect and rename always; for a leaf, make
/// parallel and make parent; for a machine root, save, close, a separator and
/// reset; for a parent, reset region (unless it is the root), make parallel,
/// make leaf and add child; for a parallel state, reset region (unless root),
/// make leaf, make parent and add child; for a child of a parent with an
/// initial state, set as initial state; and delete last.
pub open spec fn node_menu(c: NodeMenuContext) -> Seq<NodeMenuItem> {
    let is_leaf = !c.is_parent && !c.is_parallel;
    let leaf_items = if is_leaf {
        seq![NodeMenuItem::MakeParallel, NodeMenuItem::MakeParent]
    } else {
        seq![]
    };
    let root_items = if c.is_root {
        seq![NodeMenuItem::SaveMachine, NodeMenuItem::CloseMachine, NodeMenuItem::Separator, NodeMenuItem::ResetMachine]
    } else {
        seq![]
    };
    let reset = if c.is_root {
        seq![]
    } else {
        seq![NodeMenuItem::ResetRegion]
    };
    let parent_items = if c.is_parent {
        reset + seq![NodeMenuItem::MakeParallel, NodeMenuItem::MakeLeaf, NodeMenuItem::AddChild]
    } else {
        seq![]
    };
    let parallel_items = if c.is_parallel {
        reset + seq![NodeMenuItem::MakeLeaf, NodeMenuItem::MakeParent, NodeMenuItem::AddChild]
    } else {
        seq![]
    };
    let initial_items = if c.parent_has_initial_state {
        seq![NodeMenuItem::SetAsInitialState]
    } else {
        seq![]
    };
    seq![NodeMenuItem::Inspect, NodeMenuItem::Rename] + leaf_items + root_items + parent_items + parallel_items
        + initial_items + seq![NodeMenuItem::DeleteNode]
}

/// The entries of the context menu of a node.
pub fn node_menu_items(c: NodeMenuContext) -> (r: Vec<NodeMenuItem>)
    ensures
        r@ == node_menu(c),
{
    let mut r: Vec<NodeMenuItem> = Vec::new();
    r.push(NodeMenuItem::Inspect);
    r.push(NodeMenuItem::Rename);
    let is_leaf = !c.is_parent && !c.is_parallel;
    if is_leaf {
        r.push(NodeMenuItem::MakeParallel);
        r.push(NodeMenuItem::MakeParent);
    }
    if c.is_root {
        r.push(NodeMenuItem::SaveMachine);
        r.push(NodeMenuItem::CloseMachine);
        r.push(NodeMenuItem::Separator);
        r.push(NodeMenuItem::ResetMachine);
    }
    if c.is_parent {
        if !c.is_root {
            r.push(NodeMenuItem::ResetRegion);
        }
        r.push(NodeMenuItem::MakeParallel);
        r.push(NodeMenuItem::MakeLeaf);
        r.push(NodeMenuItem::AddChild);
    }
    if c.is_parallel {
        if !c.is_root {
            r.push(NodeMenuItem::ResetRegion);
        }
        r.push(NodeMenuItem::MakeLeaf);
        r.push(NodeMenuItem::MakeParent);
        r.push(NodeMenuItem::AddChild);
    }
    if c.parent_has_initial_state {
        r.push(NodeMenuItem::SetAsInitialState);
    }
    r.push(NodeMenuItem::DeleteNode);
    assert(r@ =~= node_menu(c));
    r
}

/// What clicking a menu entry asks for; every click also closes the menu.
#[derive(Debug, Clone, Copy, PartialEq, Eq, Structural)]
pub enum MenuCommand {
    /// Trigger a node action on the node.
    Action(NodeAction),
    /// Save the machine whose root the node is.
    SaveStateMachine,
    /// Close the machine whose root the node is.
    CloseMachine,
    /// Nothing (a separator).
    Nothing,
}

/// The command behind a node menu entry.
pub open spec fn menu_command(item: NodeMenuItem) -> MenuCommand {
    match item {
        NodeMenuItem::Inspect => MenuCommand::Action(NodeAction::Inspect),
        NodeMenuItem::Rename => MenuCommand::Action(NodeAction::Rename),
        NodeMenuItem::MakeParallel => MenuCommand::Action(NodeAction::MakeParallel),
        NodeMenuItem::MakeParent => MenuCommand::Action(NodeAction::MakeParent),
        NodeMenuItem::SaveMachine => MenuCommand::SaveStateMachine,
        NodeMenuItem::CloseMachine => MenuCommand::CloseMachine,
        NodeMenuItem::Separator => MenuCommand::Nothing,
        NodeMenuItem::ResetMachine => MenuCommand::Action(NodeAction::ResetRegion),
        NodeMenuItem::ResetRegion => MenuCommand::Action(NodeAction::ResetRegion),
        NodeMenuItem::MakeLeaf => MenuCommand::Action(NodeAction::MakeLeaf),
        NodeMenuItem::AddChild => MenuCommand::Action(NodeAction::AddChild),
        NodeMenuItem::SetAsInitialState => MenuCommand::Action(NodeAction::SetAsInitialState),
        NodeMenuItem::DeleteNode => MenuCommand::Action(NodeAction::Delete),
    }
}

/// The command behind a node menu entry.
pub fn node_menu_command(item: NodeMenuItem) -> (r: MenuCommand)
    ensures
        r == menu_command(item),
{
    match item {
        NodeMenuItem::Inspect => MenuCommand::Action(NodeAction::Inspect),
        NodeMenuItem::Rename => MenuCommand::Action(NodeAction::Rename),
        NodeMenuItem::MakeParallel => MenuCommand::Action(NodeAction::MakeParallel),
        NodeMenuItem::MakeParent => MenuCommand::Action(NodeAction::MakeParent),
        NodeMenuItem::SaveMachine => MenuCommand::SaveStateMachine,
        NodeMenuItem::CloseMachine => MenuCommand::CloseMachine,
        NodeMenuItem::Separator => MenuCommand::Nothing,
        NodeMenuItem::ResetMachine => MenuCommand::Action(NodeAction::ResetRegion),
        NodeMenuItem::ResetRegion => MenuCommand::Action(NodeAction::ResetRegion),
        NodeMenuItem::MakeLeaf => MenuCommand::Action(NodeAction::MakeLeaf),
        NodeMenuItem::AddChild => MenuCommand::Action(NodeAction::AddChild),
        NodeMenuItem::SetAsInitialState => MenuCommand::Action(NodeAction::SetAsInitialState),
        NodeMenuItem::DeleteNode => MenuCommand::Action(NodeAction::Delete),
    }
}

/// The entries of a transition's context menu.
#[derive(Debug, Clone, Copy, PartialEq, Eq, Structural)]
pub enum TransitionMenuItem {
    /// Inspect the edge entity of the transition.
    Inspect,
    /// Delete the transition by its edge entity.
    DeleteTransition,
}

/// The entries of the context menu of a transition.
pub fn transition_menu_items() -> (r: Vec<TransitionMenuItem>)
    ensures
        r@ == seq![TransitionMenuItem::Inspect, TransitionMenuItem::DeleteTransition],
{
    let mut r: Vec<TransitionMenuItem> = Vec::new();
    r.push(TransitionMenuItem::Inspect);
    r.push(TransitionMenuItem::DeleteTransition);
    assert(r@ =~= seq![TransitionMenuItem::Inspect, TransitionMenuItem::DeleteTransition]);
    r
}

/// What a node action does in the editor.
#[derive(Debug, Clone, Copy, PartialEq, Eq, Structural)]
pub enum NodeActionEffect {
    /// Show this entity in the inspector.
    SetInspected(EntityId),
    /// Create a child named "New State" below this state, with a leaf node
    /// placed down and to the right of the state's node.
    SpawnChild(EntityId),
    /// Send an event to the kind machine with this root.
    SendKindEvent(EntityId, NodeKindEvent),
    /// Start renaming this entity from its current name.
    StartRename(EntityId),
    /// Make this state its parent's initial state.
    RequestInitialState(EntityId),
    /// Reset the regions of this machine.
    ResetRegion(EntityId),
    /// Delete this node.
    DeleteNode(EntityId),
}

/// What action `action` on `entity` does, given the first open machine and
/// the root of the entity's kind machine, if any. Nothing happens when no
/// machine is open.
pub open spec fn action_effects(
    entity: EntityId,
    action: NodeAction,
    open_machine: Option<EntityId>,
    kind_root: Option<EntityId>,
) -> Seq<NodeActionEffect> {
    match open_machine {
        None => seq![],
        Some(machine) => match action {
            NodeAction::Inspect => seq![NodeActionEffect::SetInspected(entity)],
            NodeAction::AddChild => match kind_root {
                Some(k) => seq![
                    NodeActionEffect::SpawnChild(entity),
                    NodeActionEffect::SendKindEvent(k, NodeKindEvent::AddChildClicked),
                    NodeActionEffect::SendKindEvent(k, NodeKindEvent::ChildAdded),
                ],
                None => seq![NodeActionEffect::SpawnChild(entity)],
            },
            NodeAction::Rename => seq![NodeActionEffect::StartRename(entity)],
            NodeAction::MakeParallel => match kind_root {
                Some(k) => seq![NodeActionEffect::SendKindEvent(k, NodeKindEvent::MakeParallelClicked)],
                None => seq![],
            },
            NodeAction::MakeParent => match kind_root {
                Some(k) => seq![NodeActionEffect::SendKindEvent(k, NodeKindEvent::MakeParentClicked)],
                None => seq![],
            },
            NodeAction::MakeLeaf => match kind_root {
                Some(k) => seq![NodeActionEffect::SendKindEvent(k, NodeKindEvent::MakeLeafClicked)],
                None => seq![],
            },
            NodeAction::SetAsInitialState => seq![NodeActionEffect::RequestInitialState(entity)],
            NodeAction::ResetRegion => seq![NodeActionEffect::ResetRegion(machine)],
            NodeAction::Delete => seq![NodeActionEffect::DeleteNode(entity)],
        },
    }
}

/// What node action `action` on `entity` does.
pub fn handle_node_action(
    entity: EntityId,
    action: NodeAction,
    open_machine: Option<EntityId>,
    kind_root: Option<EntityId>,
) -> (r: Vec<NodeActionEffect>)
    ensures
        r@ == action_effects(entity, action, open_machine, kind_root),
{
    let mut r: Vec<NodeActionEffect> = Vec::new();
    let machine = match open_machine {
        Some(m) => m,
        None => {
            assert(r@ =~= action_effects(entity, action, open_machine, kind_root));
            return r;
        },
    };
    match action {
        NodeAction::Inspect => r.push(NodeActionEffect::SetInspected(entity)),
        NodeAction::AddChild => {
            r.push(NodeActionEffect::SpawnChild(entity));
            if let Some(k) = kind_root {
                r.push(NodeActionEffect::SendKindEvent(k, NodeKindEvent::AddChildClicked));
                r.push(NodeActionEffect::SendKindEvent(k, NodeKindEvent::ChildAdded));
            }
        },
        NodeAction::Rename => r.push(NodeActionEffect::StartRename(entity)),
        NodeAction::MakeParallel => {
            if let Some(k) = kind_root {
                r.push(NodeActionEffect::SendKindEvent(k, NodeKindEvent::MakeParallelClicked));
            }
        },
        NodeAction::MakeParent => {
            if let Some(k) = kind_root {
                r.push(NodeActionEffect::SendKindEvent(k, NodeKindEvent::MakeParentClicked));
            }
        },
        NodeAction::MakeLeaf => {
            if let Some(k) = kind_root {
                r.push(NodeActionEffect::SendKindEvent(k, NodeKindEvent::MakeLeafClicked));
            }
        },
        NodeAction::SetAsInitialState => r.push(NodeActionEffect::RequestInitialState(entity)),
        NodeAction::ResetRegion => r.push(NodeActionEffect::ResetRegion(machine)),
        NodeAction::Delete => r.push(NodeActionEffect::DeleteNode(entity)),
    }
    assert(r@ =~= action_effects(entity, action, open_machine, kind_root));
    r
}

/// What clicking `item` on node `entity` ends in, with machine `machine`
/// open and the node's kind machine rooted at `k`.
pub open spec fn click_effects(item: NodeMenuItem, entity: EntityId, machine: EntityId, k: EntityId) -> Seq<
    NodeActionEffect,
> {
    match menu_command(item) {
        MenuCommand::Action(a) => action_effects(entity, a, Some(machine), Some(k)),
        _ => seq![],
    }
}

/// The kind a state of kind `kind` has after the one kind event among
/// `effects`, sent to kind machine `k`; `None` unless `effects` is exactly
/// that event.
pub open spec fn kind_after_effects(effects: Seq<NodeActionEffect>, k: EntityId, kind: NodeKind) -> Option<NodeKind> {
    if effects.len() == 1 {
        match effects[0] {
            NodeActionEffect::SendKindEvent(r, ev) => if r == k {
                Some(kind_after(kind, ev))
            } else {
                None
            },
            _ => None,
        }
    } else {
        None
    }
}

/// Each entry of a node's menu does what it says, whatever kind the node
/// has: "Make Leaf", "Make Parent" and "Make Parallel" leave the node a
/// leaf, a parent and a parallel state; "Add child" creates a child of the
/// node; "Inspect", "Rename", "Set as Initial State" and "Delete Node" act on
/// the node itself; the two resets reset the open machine; "Save" and
/// "Close" save and close the machine, and the separator does nothing.
pub proof fn law_menu_entries_do_what_they_say(
    item: NodeMenuItem,
    entity: EntityId,
    machine: EntityId,
    k: EntityId,
    kind: NodeKind,
)
    ensures
        item == NodeMenuItem::MakeLeaf ==> kind_after_effects(click_effects(item, entity, machine, k), k, kind)
            == Some(NodeKind::Leaf),
        item == NodeMenuItem::MakeParent ==> kind_after_effects(click_effects(item, entity, machine, k), k, kind)
            == Some(NodeKind::Parent),
        item == NodeMenuItem::MakeParallel ==> kind_after_effects(click_effects(item, entity, machine, k), k, kind)
            == Some(NodeKind::Parallel),
        item == NodeMenuItem::AddChild ==> click_effects(item, entity, machine, k).len() > 0 && click_effects(
            item,
            entity,
            machine,
            k,
        )[0] == NodeActionEffect::SpawnChild(entity),
        item == NodeMenuItem::Inspect ==> click_effects(item, entity, machine, k) == seq![
            NodeActionEffect::SetInspected(entity),
        ],
        item == NodeMenuItem::Rename ==> click_effects(item, entity, machine, k) == seq![
            NodeActionEffect::StartRename(entity),
        ],
        item == NodeMenuItem::SetAsInitialState ==> click_effects(item, entity, machine, k) == seq![
            NodeActionEffect::RequestInitialState(entity),
        ],
        item == NodeMenuItem::DeleteNode ==> click_effects(item, entity, machine, k) == seq![
            NodeActionEffect::DeleteNode(entity),
        ],
        item == NodeMenuItem::ResetMachine || item == NodeMenuItem::ResetRegion ==> click_effects(
            item,
            entity,
            machine,
            k,
        ) == seq![NodeActionEffect::ResetRegion(machine)],
        item == NodeMenuItem::SaveMachine ==> menu_command(item) == MenuCommand::SaveStateMachine,
        item == NodeMenuItem::CloseMachine ==> menu_command(item) == MenuCommand::CloseMachine,
        item == NodeMenuItem::Separator ==> menu_command(item) == MenuCommand::Nothing,
{
}

/// A node's menu opens with "Inspect" and ends with "Delete", and never offers
/// to turn a node into the kind it already is.
pub proof fn law_menu_offers_other_kinds_only(c: NodeMenuContext)
    requires
        !(c.is_parent && c.is_parallel),
    ensures
        node_menu(c)[0] == NodeMenuItem::Inspect,
        node_menu(c).last() == NodeMenuItem::DeleteNode,
        forall|i: int|
            0 <= i < node_menu(c).len() ==> {
                &&& (!c.is_parent && !c.is_parallel ==> #[trigger] node_menu(c)[i] != NodeMenuItem::MakeLeaf)
                &&& (c.is_parent ==> node_menu(c)[i] != NodeMenuItem::MakeParent)
                &&& (c.is_parallel ==> node_menu(c)[i] != NodeMenuItem::MakeParallel)
            },
{
}

} // verus!
