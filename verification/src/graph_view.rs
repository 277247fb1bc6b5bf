use vstd::prelude::*;
use crate::hierarchy::EntityId;
use crate::pins::{NodePin, PinType, PinView, pins_view};

verus! {

/// The "Add Component" dialog of the graph view.
pub struct ComponentDialogState {
    /// The entity the dialog adds to, while it is open.
    pub open_for_entity: Option<EntityId>,
    /// The component type picked so far.
    pub selected_component: Option<String>,
}

impl ComponentDialogState {
    /// A closed dialog.
    pub fn new() -> (s: Self)
        ensures
            s.open_for_entity is None,
            s.selected_component is None,
    {
        ComponentDialogState { open_for_entity: None, selected_component: None }
    }

    /// Closes the dialog and forgets the pick.
    pub fn close_dialog(&mut self)
        ensures
            final(self).open_for_entity is None,
            final(self).selected_component is None,
    {
        self.open_for_entity = None;
        self.selected_component = None;
    }

    /// "Add": with the dialog open and a component picked, the dialog closes
    /// and that component is to be added to the entity; otherwise nothing happens.
    pub fn add_clicked(&mut self) -> (r: Option<(EntityId, String)>)
        ensures
            match r {
                Some((e, name)) => {
                    &&& old(self).open_for_entity == Some(e)
                    &&& old(self).selected_component is Some
                    &&& name@ == old(self).selected_component->0@
                    &&& final(self).open_for_entity is None
                    &&& final(self).selected_component is None
                },
                None => (old(self).open_for_entity is None || old(self).selected_component is None) && final(self).open_for_entity == old(self).open_for_entity && final(self).selected_component == old(self).selected_component,
            },
    {
        match (self.open_for_entity, &self.selected_component) {
            (Some(e), Some(name)) => {
                let n = name.clone();
                self.close_dialog();
                Some((e, n))
            },
            _ => None,
        }
    }
}

/// The graph view's "Add Transition Listener" dialog: pick an event, then
/// the target node.
pub struct TransitionCreationState {
    pub source_entity: Option<EntityId>,
    pub selected_event_type: Option<String>,
    /// Whether the next node click picks the target.
    pub selecting_target: bool,
}

impl TransitionCreationState {
    /// Nothing under way.
    pub fn new() -> (s: Self)
        ensures
            s.source_entity is None,
            s.selected_event_type is None,
            !s.selecting_target,
    {
        TransitionCreationState { source_entity: None, selected_event_type: None, selecting_target: false }
    }

    /// Closes the dialog and forgets the source and event.
    pub fn close_dialog(&mut self)
        ensures
            final(self).source_entity is None,
            final(self).selected_event_type is None,
            !final(self).selecting_target,
    {
        self.source_entity = None;
        self.selected_event_type = None;
        self.selecting_target = false;
    }

    /// "Next: Select Target": once an event is picked, the next node click
    /// picks the target.
    pub fn next_clicked(&mut self)
        ensures
            final(self).selecting_target == (old(self).selecting_target || old(self).selected_event_type is Some),
            final(self).source_entity == old(self).source_entity,
            final(self).selected_event_type == old(self).selected_event_type,
    {
        if self.selected_event_type.is_some() {
            self.selecting_target = true;
        }
    }

    /// A node clicked while picking the target. A listener for the picked
    /// event, from the source to `entity`, is to be made when both are known
    /// and `entity` is not the source itself; the dialog then resets.
    pub fn pick_target(&mut self, entity: EntityId) -> (r: Option<(EntityId, EntityId, String)>)
        ensures
            match r {
                Some((s, t, ev)) => {
                    &&& old(self).source_entity == Some(s)
                    &&& s != entity && t == entity
                    &&& old(self).selected_event_type is Some
                    &&& ev@ == old(self).selected_event_type->0@
                    &&& final(self).source_entity is None
                    &&& final(self).selected_event_type is None
                    &&& !final(self).selecting_target
                },
                None => {
                    &&& (old(self).source_entity is None || old(self).selected_event_type is None || old(self).source_entity == Some(entity))
                    &&& final(self).source_entity == old(self).source_entity
                    &&& final(self).selected_event_type == old(self).selected_event_type
                    &&& final(self).selecting_target == old(self).selecting_target
                },
            },
    {
        match (self.source_entity, &self.selected_event_type) {
            (Some(source), Some(event)) => {
                if source != entity {
                    let ev = event.clone();
                    self.close_dialog();
                    Some((source, entity, ev))
                } else {
                    None
                }
            },
            _ => None,
        }
    }
}

/// The output pins of a node with their positions among its pins, in order.
pub fn output_pins(pins: &Vec<NodePin>) -> (r: Vec<(String, usize)>)
    ensures
        r@.map_values(|x: (String, usize)| (x.0@, x.1)) == output_pin_list(pins_view(pins@), 0),
{
    let ghost pv = pins_view(pins@);
    let mut out: Vec<(String, usize)> = Vec::new();
    let mut i: usize = pins.len();
    proof {
        assert(pv.subrange(i as int, pv.len() as int) =~= Seq::<PinView>::empty());
    }
    while i > 0
        invariant
            pv == pins_view(pins@),
            i <= pins@.len(),
            out@.map_values(|x: (String, usize)| (x.0@, x.1)) == output_pin_list(
                pv.subrange(i as int, pv.len() as int),
                i as int,
            ),
        decreases i,
    {
        let j = i - 1;
        let ghost tail = pv.subrange(i as int, pv.len() as int);
        proof {
            assert(pv.subrange(j as int, pv.len() as int).drop_first() =~= tail);
            assert(pv.subrange(j as int, pv.len() as int)[0] == pv[j as int]);
        }
        if pins[j].pin_type == PinType::Output {
            let ghost before = out@;
            out.insert(0, (pins[j].label.clone(), j));
            proof {
                assert(out@.map_values(|x: (String, usize)| (x.0@, x.1)) =~= seq![(pv[j as int].2, j)]
                    + before.map_values(|x: (String, usize)| (x.0@, x.1)));
            }
        }
        i = j;
    }
    proof {
        assert(pv.subrange(0, pv.len() as int) =~= pv);
    }
    out
}

/// The output pins of `ps`, whose first pin sits at position `start`, each
/// with its label and position.
pub open spec fn output_pin_list(ps: Seq<PinView>, start: int) -> Seq<(Seq<char>, usize)>
    decreases ps.len(),
{
    if ps.len() == 0 {
        Seq::empty()
    } else {
        let rest = output_pin_list(ps.drop_first(), start + 1);
        if ps[0].0 == PinType::Output {
            seq![(ps[0].2, start as usize)] + rest
        } else {
            rest
        }
    }
}

/// The edge of a parent zone that the pointer grabs for resizing.
#[derive(Clone, Copy, PartialEq, Eq, Structural, Debug)]
pub enum ResizeEdge {
    Right,
    Bottom,
    /// Both right and bottom.
    Corner,
}

/// Where the pointer is, relative to a zone, as the resize handles see it.
#[derive(Clone, Copy, PartialEq, Eq, Structural, Debug)]
pub struct ZonePointer {
    /// Close to the right edge.
    pub near_right: bool,
    /// Close to the bottom edge.
    pub near_bottom: bool,
    /// Within the zone's width, with the grab margin either side.
    pub in_zone_x: bool,
    /// Within the zone's height, with the grab margin either side.
    pub in_zone_y: bool,
    /// Strictly within the zone's width.
    pub within_x: bool,
    /// Strictly within the zone's height.
    pub within_y: bool,
}

/// The resize handle under the pointer: the corner when near both edges,
/// else the right or bottom edge alongside the zone, else none.
pub fn detect_resize_edge(p: ZonePointer) -> (r: Option<ResizeEdge>)
    ensures
        r == if p.near_right && p.near_bottom && p.in_zone_x && p.in_zone_y {
            Some(ResizeEdge::Corner)
        } else if p.near_right && p.in_zone_y && p.within_y {
            Some(ResizeEdge::Right)
        } else if p.near_bottom && p.in_zone_x && p.within_x {
            Some(ResizeEdge::Bottom)
        } else {
            None
        },
{
    if p.near_right && p.near_bottom && p.in_zone_x && p.in_zone_y {
        Some(ResizeEdge::Corner)
    } else if p.near_right && p.in_zone_y && p.within_y {
        Some(ResizeEdge::Right)
    } else if p.near_bottom && p.in_zone_x && p.within_x {
        Some(ResizeEdge::Bottom)
    } else {
        None
    }
}

/// Ctrl+O opens another editor window, when the primary window exists:
/// `ctrl_held` is whether either Control key is held.
pub fn opens_editor_window(ctrl_held: bool, o_just_pressed: bool, has_primary_window: bool) -> (r: bool)
    ensures
        r == (ctrl_held && o_just_pressed && has_primary_window),
{
    ctrl_held && o_just_pressed && has_primary_window
}

/// How a node of the graph view is tinted.
#[derive(Clone, Copy, PartialEq, Eq, Structural, Debug)]
pub enum NodeTint {
    /// The source of the listener being made.
    Source,
    /// A possible target of the listener being made.
    Candidate,
    Normal,
}

impl TransitionCreationState {
    /// The tint of node `entity`: while a target is being picked, the source
    /// stands out from the candidates.
    pub fn node_tint(&self, entity: EntityId) -> (r: NodeTint)
        ensures
            r == if self.selecting_target {
                if self.source_entity == Some(entity) {
                    NodeTint::Source
                } else {
                    NodeTint::Candidate
                }
            } else {
                NodeTint::Normal
            },
    {
        if self.selecting_target {
            if self.source_entity == Some(entity) {
                NodeTint::Source
            } else {
                NodeTint::Candidate
            }
        } else {
            NodeTint::Normal
        }
    }
}

} // verus!
