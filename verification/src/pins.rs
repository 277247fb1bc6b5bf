use vstd::prelude::*;
use vstd::string::*;
use crate::hierarchy::EntityId;
use crate::text::{contains_str, has_occurrence, str_eq};
use crate::type_paths::{brackets_ordered, event_type_of, extract_transition_event_type};

verus! {

/// Whether a pin takes connections in or sends them out.
#[derive(Clone, Copy, PartialEq, Eq, Structural, Debug)]
pub enum PinType {
    Input,
    Output,
}

/// A pin on a node of the graph view.
pub struct NodePin {
    pub pin_type: PinType,
    pub pin_index: usize,
    /// What the pin stands for, such as "Input" or an event type.
    pub label: String,
}

/// A connection from an output pin of one node to an input pin of another.
pub struct Connection {
    pub from_entity: EntityId,
    pub from_pin_index: usize,
    pub to_entity: EntityId,
    pub to_pin_index: usize,
    /// The event type the connection stands for, or "InitialState".
    pub connection_type: String,
}

/// The pin index that marks the pin of a state's initial state.
pub open spec fn initial_state_pin_index() -> usize {
    usize::MAX
}

pub type PinView = (PinType, usize, Seq<char>);

pub open spec fn pin_view(p: NodePin) -> PinView {
    (p.pin_type, p.pin_index, p.label@)
}

pub open spec fn pins_view(ps: Seq<NodePin>) -> Seq<PinView> {
    ps.map_values(|p: NodePin| pin_view(p))
}

pub type ConnectionView = (EntityId, usize, EntityId, usize, Seq<char>);

pub open spec fn connection_view(c: Connection) -> ConnectionView {
    (c.from_entity, c.from_pin_index, c.to_entity, c.to_pin_index, c.connection_type@)
}

pub open spec fn connections_view(cs: Seq<Connection>) -> Seq<ConnectionView> {
    cs.map_values(|c: Connection| connection_view(c))
}

/// The component type paths that are transition listeners.
pub open spec fn is_listener_path(p: Seq<char>) -> bool {
    has_occurrence(p, "TransitionListener<"@)
}

pub open spec fn has_input_pin(ps: Seq<PinView>) -> bool {
    exists|i: int| 0 <= i < ps.len() && (#[trigger] ps[i]).0 == PinType::Input
}

pub open spec fn has_output_pin(ps: Seq<PinView>, label: Seq<char>) -> bool {
    exists|i: int| 0 <= i < ps.len() && (#[trigger] ps[i]).0 == PinType::Output && ps[i].2 == label
}

/// The pins after the listener components `paths` have been looked at: each
/// listener whose event type has no output pin yet gets one, numbered by how
/// many such pins were added before it.
pub open spec fn with_listener_pins(base: Seq<PinView>, paths: Seq<Seq<char>>) -> Seq<PinView>
    decreases paths.len(),
{
    if paths.len() == 0 {
        base
    } else {
        let prev = with_listener_pins(base, paths.drop_last());
        let p = paths.last();
        if is_listener_path(p) && !has_output_pin(prev, event_type_of(p)) {
            prev.push((PinType::Output, (prev.len() - base.len()) as usize, event_type_of(p)))
        } else {
            prev
        }
    }
}

/// The pins of a node once discovered: an input pin if it had none; for a
/// state with children or a machine root, an "InitialState" output pin if it
/// had none; then a pin for each new listener event.
pub open spec fn discovered_pins(ps: Seq<PinView>, parent_or_root: bool, paths: Seq<Seq<char>>) -> Seq<PinView> {
    let with_input = if has_input_pin(ps) {
        ps
    } else {
        ps.push((PinType::Input, 0usize, "Input"@))
    };
    let with_initial = if parent_or_root && !has_output_pin(with_input, "InitialState"@) {
        with_input.push((PinType::Output, initial_state_pin_index(), "InitialState"@))
    } else {
        with_input
    };
    with_listener_pins(with_initial, paths)
}

fn has_input(pins: &Vec<NodePin>) -> (r: bool)
    ensures
        r == has_input_pin(pins_view(pins@)),
{
    let ghost pv = pins_view(pins@);
    let mut i: usize = 0;
    while i < pins.len()
        invariant
            pv == pins_view(pins@),
            i <= pins@.len(),
            forall|j: int| 0 <= j < i ==> (#[trigger] pv[j]).0 != PinType::Input,
        decreases pins.len() - i,
    {
        if pins[i].pin_type == PinType::Input {
            assert(pv[i as int].0 == PinType::Input);
            return true;
        }
        i = i + 1;
    }
    false
}

/// The position of the first output pin labelled `label`.
fn output_position(pins: &Vec<NodePin>, label: &str) -> (r: Option<usize>)
    ensures
        match r {
            Some(i) => i < pins@.len() && is_first_output(pins_view(pins@), label@, i as int),
            None => !has_output_pin(pins_view(pins@), label@),
        },
{
    let ghost pv = pins_view(pins@);
    let mut i: usize = 0;
    while i < pins.len()
        invariant
            pv == pins_view(pins@),
            i <= pins@.len(),
            forall|j: int| 0 <= j < i ==> !((#[trigger] pv[j]).0 == PinType::Output && pv[j].2 == label@),
        decreases pins.len() - i,
    {
        if pins[i].pin_type == PinType::Output && str_eq(pins[i].label.as_str(), label) {
            return Some(i);
        }
        i = i + 1;
    }
    None
}

/// `i` is the first output pin labelled `label`.
pub open spec fn is_first_output(ps: Seq<PinView>, label: Seq<char>, i: int) -> bool {
    &&& 0 <= i < ps.len()
    &&& ps[i].0 == PinType::Output && ps[i].2 == label
    &&& forall|j: int| 0 <= j < i ==> !((#[trigger] ps[j]).0 == PinType::Output && ps[j].2 == label)
}

/// The pin a connection for event `label` leaves from: the first output pin
/// with that label, or the first pin when there is none.
pub open spec fn output_pin_for(ps: Seq<PinView>, label: Seq<char>, i: usize) -> bool {
    if has_output_pin(ps, label) {
        is_first_output(ps, label, i as int)
    } else {
        i == 0
    }
}

/// Gives a node the pins its components call for (see `discovered_pins`).
/// `component_paths` are the type paths of the node's components; those of
/// listeners must name their event between `<` and `>`.
pub fn ensure_node_pins(pins: &mut Vec<NodePin>, parent_or_root: bool, component_paths: &Vec<String>)
    requires
        forall|k: int|
            0 <= k < component_paths@.len() && is_listener_path(#[trigger] component_paths@[k]@) ==> brackets_ordered(
                component_paths@[k]@,
            ),
        old(pins)@.len() + component_paths@.len() + 2 <= usize::MAX,
    ensures
        pins_view(final(pins)@) == discovered_pins(
            pins_view(old(pins)@),
            parent_or_root,
            component_paths@.map_values(|s: String| s@),
        ),
{
    let ghost paths = component_paths@.map_values(|s: String| s@);
    if !has_input(pins) {
        let ghost before = pins_view(pins@);
        pins.push(NodePin { pin_type: PinType::Input, pin_index: 0, label: String::from_str("Input") });
        proof {
            reveal_strlit("Input");
            assert(pins_view(pins@) =~= before.push((PinType::Input, 0usize, "Input"@)));
        }
    }
    if parent_or_root {
        match output_position(pins, "InitialState") {
            Some(_) => {},
            None => {
                let ghost before = pins_view(pins@);
                pins.push(
                    NodePin {
                        pin_type: PinType::Output,
                        pin_index: usize::MAX,
                        label: String::from_str("InitialState"),
                    },
                );
                proof {
                    assert(pins_view(pins@) =~= before.push(
                        (PinType::Output, initial_state_pin_index(), "InitialState"@),
                    ));
                }
            },
        }
    }
    let ghost base = pins_view(pins@);
    let base_len = pins.len();
    let mut next_index: usize = 0;
    let mut k: usize = 0;
    while k < component_paths.len()
        invariant
            paths == component_paths@.map_values(|s: String| s@),
            forall|k: int|
                0 <= k < component_paths@.len() && is_listener_path(#[trigger] component_paths@[k]@) ==> brackets_ordered(
                    component_paths@[k]@,
                ),
            base_len == base.len(),
            base_len + component_paths@.len() <= usize::MAX,
            k <= component_paths@.len(),
            pins_view(pins@) == with_listener_pins(base, paths.take(k as int)),
            next_index == pins@.len() - base_len,
            next_index <= k,
        decreases component_paths.len() - k,
    {
        proof {
            assert(paths.take(k as int + 1).drop_last() =~= paths.take(k as int));
            assert(paths.take(k as int + 1).last() == component_paths@[k as int]@);
        }
        let path = component_paths[k].as_str();
        if contains_str(path, "TransitionListener<") {
            let event = extract_transition_event_type(path);
            match output_position(pins, event.as_str()) {
                Some(_) => {},
                None => {
                    let ghost before = pins_view(pins@);
                    pins.push(NodePin { pin_type: PinType::Output, pin_index: next_index, label: event });
                    proof {
                        assert(pins_view(pins@) =~= before.push(
                            (PinType::Output, (before.len() - base.len()) as usize, event_type_of(path@)),
                        ));
                    }
                    next_index = next_index + 1;
                },
            }
        }
        k = k + 1;
    }
    proof {
        assert(paths.take(component_paths@.len() as int) =~= paths);
    }
}

pub open spec fn connection_exists(existing: Seq<ConnectionView>, from: EntityId, to: EntityId, ty: Seq<char>) -> bool {
    exists|i: int| 0 <= i < existing.len() && (#[trigger] existing[i]).0 == from && existing[i].2 == to && existing[i].4 == ty
}

fn connection_known(existing: &Vec<Connection>, from: EntityId, to: EntityId, ty: &str) -> (r: bool)
    ensures
        r == connection_exists(connections_view(existing@), from, to, ty@),
{
    let ghost cv = connections_view(existing@);
    let mut i: usize = 0;
    while i < existing.len()
        invariant
            cv == connections_view(existing@),
            i <= existing@.len(),
            forall|j: int| 0 <= j < i ==> !((#[trigger] cv[j]).0 == from && cv[j].2 == to && cv[j].4 == ty@),
        decreases existing.len() - i,
    {
        let c = &existing[i];
        if c.from_entity == from && c.to_entity == to && str_eq(c.connection_type.as_str(), ty) {
            assert(cv[i as int].0 == from && cv[i as int].2 == to && cv[i as int].4 == ty@);
            return true;
        }
        i = i + 1;
    }
    false
}

/// `c` is the connection made for listener `l` (its type path and target).
pub open spec fn made_for_listener(entity: EntityId, pins: Seq<PinView>, l: (String, EntityId), c: Connection) -> bool {
    &&& c.from_entity == entity && c.to_entity == l.1 && c.to_pin_index == 0
    &&& c.connection_type@ == event_type_of(l.0@)
    &&& output_pin_for(pins, event_type_of(l.0@), c.from_pin_index)
}

/// `r` holds, in order, one connection for each listener at the positions
/// `picked`: exactly the listeners with no connection yet for their target and
/// event, each leaving from the event's output pin (or the first pin).
pub open spec fn picks_listeners(
    entity: EntityId,
    pins: Seq<PinView>,
    listeners: Seq<(String, EntityId)>,
    existing: Seq<ConnectionView>,
    r: Seq<Connection>,
    picked: Seq<int>,
) -> bool {
    &&& picked.len() == r.len()
    &&& forall|a: int, b: int| 0 <= a < b < picked.len() ==> #[trigger] picked[a] < #[trigger] picked[b]
    &&& forall|m: int| 0 <= m < picked.len() ==> 0 <= #[trigger] picked[m] < listeners.len()
    &&& forall|m: int| 0 <= m < picked.len() ==> #[trigger] made_for_listener(entity, pins, listeners[picked[m]], r[m])
    &&& forall|k: int|
        0 <= k < listeners.len() ==> (picked.contains(k) <==> (is_listener_path((#[trigger] listeners[k]).0@)
            && !connection_exists(existing, entity, listeners[k].1, event_type_of(listeners[k].0@))))
}

/// The connections to add for the transition listeners of `entity`, each
/// given by its component type path and the state it targets: one per
/// listener with no connection yet from `entity` to that target for its event,
/// leaving from the event's output pin (or the first pin) and arriving at the
/// target's input pin, in the order the listeners are given.
pub fn listener_connections(
    entity: EntityId,
    pins: &Vec<NodePin>,
    listeners: &Vec<(String, EntityId)>,
    existing: &Vec<Connection>,
) -> (r: Vec<Connection>)
    requires
        forall|k: int|
            0 <= k < listeners@.len() && is_listener_path(#[trigger] listeners@[k].0@) ==> brackets_ordered(listeners@[k].0@),
    ensures
        exists|picked: Seq<int>|
            #[trigger] picks_listeners(entity, pins_view(pins@), listeners@, connections_view(existing@), r@, picked),
{
    let mut out: Vec<Connection> = Vec::new();
    let ghost mut picked: Seq<int> = Seq::empty();
    let mut k: usize = 0;
    while k < listeners.len()
        invariant
            forall|k: int|
                0 <= k < listeners@.len() && is_listener_path(#[trigger] listeners@[k].0@) ==> brackets_ordered(
                    listeners@[k].0@,
                ),
            k <= listeners@.len(),
            picked.len() == out@.len(),
            forall|a: int, b: int| 0 <= a < b < picked.len() ==> #[trigger] picked[a] < #[trigger] picked[b],
            forall|m: int| 0 <= m < picked.len() ==> 0 <= #[trigger] picked[m] < k,
            forall|m: int| 0 <= m < picked.len() ==> #[trigger] made_for_listener(
                entity,
                pins_view(pins@),
                listeners@[picked[m]],
                out@[m],
            ),
            forall|j: int|
                0 <= j < k ==> (picked.contains(j) <==> (is_listener_path((#[trigger] listeners@[j]).0@)
                    && !connection_exists(
                    connections_view(existing@),
                    entity,
                    listeners@[j].1,
                    event_type_of(listeners@[j].0@),
                ))),
            forall|j: int| k <= j ==> !picked.contains(j),
        decreases listeners.len() - k,
    {
        let path = listeners[k].0.as_str();
        let target = listeners[k].1;
        let mut add = false;
        let ghost old_out = out@;
        if contains_str(path, "TransitionListener<") {
            let event = extract_transition_event_type(path);
            if !connection_known(existing, entity, target, event.as_str()) {
                let from_pin = match output_position(pins, event.as_str()) {
                    Some(i) => i,
                    None => 0,
                };
                proof {
                    let pv = pins_view(pins@);
                    if has_output_pin(pv, event@) {
                        assert(from_pin < pins@.len());
                    }
                    assert(output_pin_for(pv, event_type_of(path@), from_pin));
                }
                out.push(
                    Connection {
                        from_entity: entity,
                        from_pin_index: from_pin,
                        to_entity: target,
                        to_pin_index: 0,
                        connection_type: event,
                    },
                );
                proof {
                    assert(path@ == listeners@[k as int].0@);
                    assert(made_for_listener(entity, pins_view(pins@), listeners@[k as int], out@.last()));
                }
                add = true;
            }
        }
        proof {
            let old_picked = picked;
            if add {
                picked = picked.push(k as int);
                assert forall|m: int| 0 <= m < old_picked.len() implies picked[m] == old_picked[m] && out@[m]
                    == old_out[m] by {
                }
                assert(out@[old_picked.len() as int] == out@.last());
                assert forall|m: int| 0 <= m < picked.len() implies #[trigger] made_for_listener(
                    entity,
                    pins_view(pins@),
                    listeners@[picked[m]],
                    out@[m],
                ) by {
                    if m < old_picked.len() {
                        assert(picked[m] == old_picked[m]);
                        assert(out@[m] == old_out[m]);
                        assert(made_for_listener(entity, pins_view(pins@), listeners@[old_picked[m]], old_out[m]));
                    } else {
                        assert(picked[m] == k);
                        assert(out@[m] == out@.last());
                    }
                }
                assert forall|j: int| k + 1 <= j implies !picked.contains(j) by {
                    if picked.contains(j) {
                        let m = choose|m: int| 0 <= m < picked.len() && picked[m] == j;
                        if m < old_picked.len() {
                            assert(old_picked[m] == j);
                        }
                    }
                }
                assert forall|j: int| 0 <= j < k + 1 implies (picked.contains(j) <==> (is_listener_path(
                    (#[trigger] listeners@[j]).0@,
                ) && !connection_exists(
                    connections_view(existing@),
                    entity,
                    listeners@[j].1,
                    event_type_of(listeners@[j].0@),
                ))) by {
                    if j < k {
                        if picked.contains(j) && !old_picked.contains(j) {
                            let m = choose|m: int| 0 <= m < picked.len() && picked[m] == j;
                            if m < old_picked.len() {
                                assert(old_picked[m] == j);
                            }
                        }
                        if old_picked.contains(j) {
                            let m = choose|m: int| 0 <= m < old_picked.len() && old_picked[m] == j;
                            assert(picked[m] == j);
                        }
                    } else {
                        assert(picked[old_picked.len() as int] == k);
                    }
                }
            } else {
                assert forall|j: int| 0 <= j < k + 1 implies (picked.contains(j) <==> (is_listener_path(
                    (#[trigger] listeners@[j]).0@,
                ) && !connection_exists(
                    connections_view(existing@),
                    entity,
                    listeners@[j].1,
                    event_type_of(listeners@[j].0@),
                ))) by {
                }
            }
        }
        k = k + 1;
    }
    assert(picks_listeners(entity, pins_view(pins@), listeners@, connections_view(existing@), out@, picked));
    out
}

/// The connection to add from a state with children (or a machine root) to
/// its initial state, unless one exists already.
pub fn initial_state_connection(
    entity: EntityId,
    parent_or_root: bool,
    initial_state: Option<EntityId>,
    existing: &Vec<Connection>,
) -> (r: Option<Connection>)
    ensures
        match r {
            Some(c) => {
                &&& parent_or_root
                &&& initial_state == Some(c.to_entity)
                &&& !connection_exists(connections_view(existing@), entity, c.to_entity, "InitialState"@)
                &&& connection_view(c) == (entity, initial_state_pin_index(), c.to_entity, 0usize, "InitialState"@)
            },
            None => !parent_or_root || initial_state is None || connection_exists(
                connections_view(existing@),
                entity,
                initial_state->0,
                "InitialState"@,
            ),
        },
{
    if !parent_or_root {
        return None;
    }
    match initial_state {
        None => None,
        Some(target) => {
            if connection_known(existing, entity, target, "InitialState") {
                None
            } else {
                Some(
                    Connection {
                        from_entity: entity,
                        from_pin_index: usize::MAX,
                        to_entity: target,
                        to_pin_index: 0,
                        connection_type: String::from_str("InitialState"),
                    },
                )
            }
        },
    }
}

/// What is known of a state's parent link.
#[derive(Clone, Copy, PartialEq, Eq, Structural, Debug)]
pub struct ParentLink {
    pub parent: EntityId,
    /// The parent entity still exists.
    pub exists: bool,
    /// The parent is itself a state of the graph.
    pub is_state: bool,
}

/// A state other than the root belongs under the root when it has no parent,
/// or its parent is gone, or its parent is neither the root nor a state.
pub open spec fn needs_root_parent(root: EntityId, link: Option<ParentLink>) -> bool {
    match link {
        None => true,
        Some(l) => !l.exists || (l.parent != root && !l.is_state),
    }
}

/// The states to put under `root`, in the order given: every state but the
/// root itself whose parent link is missing or broken.
pub fn orphaned_states(root: EntityId, states: &Vec<(EntityId, Option<ParentLink>)>) -> (r: Vec<EntityId>)
    ensures
        r@ == states@.filter(|s: (EntityId, Option<ParentLink>)| s.0 != root && needs_root_parent(root, s.1)).map_values(
            |s: (EntityId, Option<ParentLink>)| s.0,
        ),
{
    let ghost keep = |s: (EntityId, Option<ParentLink>)| s.0 != root && needs_root_parent(root, s.1);
    let mut out: Vec<EntityId> = Vec::new();
    let mut i: usize = 0;
    while i < states.len()
        invariant
            keep == (|s: (EntityId, Option<ParentLink>)| s.0 != root && needs_root_parent(root, s.1)),
            i <= states@.len(),
            out@ == states@.take(i as int).filter(keep).map_values(|s: (EntityId, Option<ParentLink>)| s.0),
        decreases states.len() - i,
    {
        let s = states[i];
        proof {
            states@.take(i as int).lemma_filter_push(s, keep);
            assert(states@.take(i as int).push(s) =~= states@.take(i as int + 1));
        }
        let needs = match s.1 {
            None => true,
            Some(l) => !l.exists || (l.parent != root && !l.is_state),
        };
        if s.0 != root && needs {
            let ghost before = out@;
            out.push(s.0);
            proof {
                let f = states@.take(i as int).filter(keep);
                assert(f.push(s).map_values(|s: (EntityId, Option<ParentLink>)| s.0) =~= f.map_values(
                    |s: (EntityId, Option<ParentLink>)| s.0,
                ).push(s.0));
            }
        }
        i = i + 1;
    }
    proof {
        assert(states@.take(states@.len() as int) =~= states@);
    }
    out
}

/// What to do about the zone of a state in the graph view.
#[derive(Clone, Copy, PartialEq, Eq, Structural, Debug)]
pub enum ZoneChange {
    /// The state has children and no zone: give it one.
    Add,
    /// The state has a zone but no children any more: take it away.
    Remove,
    Keep,
}

/// A state with children has a zone; one without has none.
pub fn zone_change(has_children: bool, has_zone: bool) -> (r: ZoneChange)
    ensures
        r == if has_children && !has_zone {
            ZoneChange::Add
        } else if has_zone && !has_children {
            ZoneChange::Remove
        } else {
            ZoneChange::Keep
        },
{
    if has_children && !has_zone {
        ZoneChange::Add
    } else if has_zone && !has_children {
        ZoneChange::Remove
    } else {
        ZoneChange::Keep
    }
}

proof fn lemma_listener_pins_extend(base: Seq<PinView>, paths: Seq<Seq<char>>)
    ensures
        with_listener_pins(base, paths).len() >= base.len(),
        forall|i: int| 0 <= i < base.len() ==> #[trigger] with_listener_pins(base, paths)[i] == base[i],
        forall|k: int|
            0 <= k < paths.len() && is_listener_path(#[trigger] paths[k]) ==> has_output_pin(
                with_listener_pins(base, paths),
                event_type_of(paths[k]),
            ),
    decreases paths.len(),
{
    if paths.len() > 0 {
        let prev_paths = paths.drop_last();
        lemma_listener_pins_extend(base, prev_paths);
        let prev = with_listener_pins(base, prev_paths);
        let full = with_listener_pins(base, paths);
        let p = paths.last();
        assert forall|i: int| 0 <= i < prev.len() implies #[trigger] full[i] == prev[i] by {
        }
        assert forall|label: Seq<char>| has_output_pin(prev, label) implies has_output_pin(full, label) by {
            let i = choose|i: int| 0 <= i < prev.len() && (#[trigger] prev[i]).0 == PinType::Output && prev[i].2 == label;
            assert(full[i] == prev[i]);
        }
        assert forall|k: int|
            0 <= k < paths.len() && is_listener_path(#[trigger] paths[k]) implies has_output_pin(full, event_type_of(paths[k])) by {
            if k < paths.len() - 1 {
                assert(prev_paths[k] == paths[k]);
                assert(has_output_pin(prev, event_type_of(prev_paths[k])));
            } else {
                assert(paths[k] == p);
                if !has_output_pin(prev, event_type_of(p)) {
                    assert(full[prev.len() as int].0 == PinType::Output && full[prev.len() as int].2 == event_type_of(p));
                }
            }
        }
    }
}

proof fn lemma_listener_pins_settled(base: Seq<PinView>, paths: Seq<Seq<char>>)
    requires
        forall|k: int|
            0 <= k < paths.len() && is_listener_path(#[trigger] paths[k]) ==> has_output_pin(base, event_type_of(paths[k])),
    ensures
        with_listener_pins(base, paths) == base,
    decreases paths.len(),
{
    if paths.len() > 0 {
        let prev_paths = paths.drop_last();
        assert forall|k: int|
            0 <= k < prev_paths.len() && is_listener_path(#[trigger] prev_paths[k]) implies has_output_pin(
                base,
                event_type_of(prev_paths[k]),
            ) by {
            assert(prev_paths[k] == paths[k]);
        }
        lemma_listener_pins_settled(base, prev_paths);
        let p = paths.last();
        if is_listener_path(p) {
            assert(paths[paths.len() - 1] == p);
        }
    }
}

/// Discovering the pins of a node again, from the same components, changes
/// nothing: the pins are stable from one frame to the next.
pub proof fn law_pin_discovery_is_idempotent(ps: Seq<PinView>, parent_or_root: bool, paths: Seq<Seq<char>>)
    ensures
        discovered_pins(discovered_pins(ps, parent_or_root, paths), parent_or_root, paths) == discovered_pins(
            ps,
            parent_or_root,
            paths,
        ),
{
    let with_input = if has_input_pin(ps) {
        ps
    } else {
        ps.push((PinType::Input, 0usize, "Input"@))
    };
    let with_initial = if parent_or_root && !has_output_pin(with_input, "InitialState"@) {
        with_input.push((PinType::Output, initial_state_pin_index(), "InitialState"@))
    } else {
        with_input
    };
    let once = discovered_pins(ps, parent_or_root, paths);
    assert(once == with_listener_pins(with_initial, paths));
    lemma_listener_pins_extend(with_initial, paths);
    assert forall|i: int| 0 <= i < with_input.len() implies #[trigger] with_initial[i] == with_input[i] by {
    }
    if has_input_pin(ps) {
        let i = choose|i: int| 0 <= i < ps.len() && (#[trigger] ps[i]).0 == PinType::Input;
        assert(once[i] == with_initial[i]);
    } else {
        assert(once[ps.len() as int] == with_initial[ps.len() as int]);
        assert(once[ps.len() as int].0 == PinType::Input);
    }
    assert(has_input_pin(once));
    if parent_or_root {
        if has_output_pin(with_input, "InitialState"@) {
            let i = choose|i: int|
                0 <= i < with_input.len() && (#[trigger] with_input[i]).0 == PinType::Output && with_input[i].2
                    == "InitialState"@;
            assert(once[i] == with_initial[i]);
        } else {
            assert(once[with_input.len() as int] == with_initial[with_input.len() as int]);
        }
        assert(has_output_pin(once, "InitialState"@));
    }
    lemma_listener_pins_settled(once, paths);
}

} // verus!
