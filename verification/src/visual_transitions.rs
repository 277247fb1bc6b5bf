use vstd::prelude::*;
use vstd::string::*;
use crate::hierarchy::EntityId;
use crate::text::str_eq;

verus! {

/// The event pill of a drawn transition: where it sits, and the offset from
/// the nodes' midpoint the user gave it. `R` is a node rectangle. The library
/// decides when a pill is made and when it follows its nodes; the geometry
/// itself lives with the drawing.
pub trait EventPill<R>: Sized {
    /// A pill halfway between the two nodes.
    fn at_midpoint(source: R, target: R) -> Self;

    /// The pill moved with its nodes: their midpoint plus the pill's offset.
    fn follow(&self, source: R, target: R) -> Self;
}

/// A transition as the canvas draws it.
pub struct TransitionConnection<R, P> {
    pub source_entity: EntityId,
    pub edge_entity: EntityId,
    pub target_entity: EntityId,
    /// The label on the event pill.
    pub event_type: String,
    pub source_rect: R,
    pub target_rect: R,
    pub event_node: P,
    /// Whether the user is dragging the event pill.
    pub is_dragging_event_node: bool,
}

/// An edge of the state machine as the ECS holds it: its entity, its two
/// ends, its label and the root of the machine its source belongs to.
pub struct EdgeRecord {
    pub edge: EntityId,
    pub source: EntityId,
    pub target: EntityId,
    pub label: String,
    pub root: EntityId,
}

/// What the contracts know of a drawn transition: source, edge, target,
/// label, whether its pill is being dragged, and the two node rectangles.
/// Its pill is spoken of apart, through `pills_of`.
pub type TransitionView<R> = (EntityId, EntityId, EntityId, Seq<char>, bool, R, R);

pub open spec fn transition_view<R, P>(t: TransitionConnection<R, P>) -> TransitionView<R> {
    (t.source_entity, t.edge_entity, t.target_entity, t.event_type@, t.is_dragging_event_node, t.source_rect, t.target_rect)
}

pub open spec fn transition_views<R, P>(ts: Seq<TransitionConnection<R, P>>) -> Seq<TransitionView<R>> {
    ts.map_values(|t: TransitionConnection<R, P>| transition_view(t))
}

/// The value recorded for `e`: that of the first entry for it.
pub open spec fn first_entry<R>(rects: Seq<(EntityId, R)>, e: EntityId) -> Option<R>
    decreases rects.len(),
{
    if rects.len() == 0 {
        None
    } else if rects[0].0 == e {
        Some(rects[0].1)
    } else {
        first_entry(rects.drop_first(), e)
    }
}

/// The position of the first transition drawn for `edge`; the length when
/// there is none.
pub open spec fn edge_index<R>(vs: Seq<TransitionView<R>>, edge: EntityId) -> int
    decreases vs.len(),
{
    if vs.len() == 0 {
        0
    } else if vs[0].1 == edge {
        0
    } else {
        1 + edge_index(vs.drop_first(), edge)
    }
}

/// The transitions after one edge of the ECS has been taken in: an edge of
/// this machine whose two nodes have rectangles updates the first transition
/// drawn for it (keeping whether its pill is dragged) with the nodes' current
/// rectangles or, when there is none, is added at the end.
pub open spec fn take_in_edge<R>(
    vs: Seq<TransitionView<R>>,
    root: EntityId,
    e: (EntityId, EntityId, EntityId, Seq<char>, EntityId),
    rects: Seq<(EntityId, R)>,
) -> Seq<TransitionView<R>> {
    let (edge, source, target, label, edge_root) = e;
    if edge_root != root || first_entry(rects, source) is None || first_entry(rects, target) is None {
        vs
    } else {
        let sr = first_entry(rects, source)->0;
        let tr = first_entry(rects, target)->0;
        let i = edge_index(vs, edge);
        if i < vs.len() {
            vs.update(i, (source, edge, target, label, vs[i].4, sr, tr))
        } else {
            vs.push((source, edge, target, label, false, sr, tr))
        }
    }
}

pub open spec fn edge_view(e: EdgeRecord) -> (EntityId, EntityId, EntityId, Seq<char>, EntityId) {
    (e.edge, e.source, e.target, e.label@, e.root)
}

/// The transitions after every edge has been taken in, in order.
pub open spec fn take_in_edges<R>(
    vs: Seq<TransitionView<R>>,
    root: EntityId,
    edges: Seq<EdgeRecord>,
    rects: Seq<(EntityId, R)>,
) -> Seq<TransitionView<R>>
    decreases edges.len(),
{
    if edges.len() == 0 {
        vs
    } else {
        take_in_edge(take_in_edges(vs, root, edges.drop_last(), rects), root, edge_view(edges.last()), rects)
    }
}

/// The edges of machine `root` that exist in the ECS.
pub open spec fn edge_of_machine(root: EntityId, edges: Seq<EdgeRecord>, edge: EntityId) -> bool {
    exists|k: int| 0 <= k < edges.len() && (#[trigger] edges[k]).edge == edge && edges[k].root == root
}

/// The transitions whose edge is still one of machine `root`, in order.
pub open spec fn keep_existing<R>(vs: Seq<TransitionView<R>>, root: EntityId, edges: Seq<EdgeRecord>) -> Seq<TransitionView<R>>
    decreases vs.len(),
{
    if vs.len() == 0 {
        vs
    } else {
        let rest = keep_existing(vs.drop_last(), root, edges);
        if edge_of_machine(root, edges, vs.last().1) {
            rest.push(vs.last())
        } else {
            rest
        }
    }
}

/// The transitions left after those from `source` to `target` labelled
/// `event` are taken away, in order.
pub open spec fn without_transition<R>(
    vs: Seq<TransitionView<R>>,
    source: EntityId,
    target: EntityId,
    event: Seq<char>,
) -> Seq<TransitionView<R>>
    decreases vs.len(),
{
    if vs.len() == 0 {
        vs
    } else {
        let rest = without_transition(vs.drop_last(), source, target, event);
        let t = vs.last();
        if t.0 == source && t.2 == target && t.3 == event {
            rest
        } else {
            rest.push(t)
        }
    }
}

/// The pills of the transitions, in order.
pub open spec fn pills_of<R, P>(ts: Seq<TransitionConnection<R, P>>) -> Seq<P> {
    ts.map_values(|t: TransitionConnection<R, P>| t.event_node)
}

/// The pills of the transitions that `keep` holds of, in order: `pills[j]`
/// is the pill of `vs[j]`.
pub open spec fn pills_where<R, P>(
    vs: Seq<TransitionView<R>>,
    pills: Seq<P>,
    keep: spec_fn(TransitionView<R>) -> bool,
) -> Seq<P>
    decreases vs.len(),
{
    if vs.len() == 0 || pills.len() == 0 {
        Seq::empty()
    } else {
        let rest = pills_where(vs.drop_last(), pills.drop_last(), keep);
        if keep(vs.last()) {
            rest.push(pills.last())
        } else {
            rest
        }
    }
}

/// How the pills go from `pills` to `next` when one edge is taken in (see
/// `take_in_edge`): an edge that is passed over leaves them as they were; one
/// that updates a transition moves that transition's pill with its nodes,
/// unless it is being dragged, and leaves the others; one that is added gets
/// a pill halfway between its nodes at the end.
pub open spec fn pill_step<R, P: EventPill<R>>(
    vs: Seq<TransitionView<R>>,
    pills: Seq<P>,
    root: EntityId,
    e: (EntityId, EntityId, EntityId, Seq<char>, EntityId),
    rects: Seq<(EntityId, R)>,
    next: Seq<P>,
) -> bool {
    let (edge, source, target, label, edge_root) = e;
    if edge_root != root || first_entry(rects, source) is None || first_entry(rects, target) is None {
        next == pills
    } else {
        let sr = first_entry(rects, source)->0;
        let tr = first_entry(rects, target)->0;
        let i = edge_index(vs, edge);
        if i < vs.len() {
            &&& next.len() == pills.len()
            &&& forall|j: int| 0 <= j < pills.len() && j != i ==> #[trigger] next[j] == pills[j]
            &&& if vs[i].4 {
                next[i] == pills[i]
            } else {
                call_ensures(P::follow, (&pills[i], sr, tr), next[i])
            }
        } else {
            &&& next.len() == pills.len() + 1
            &&& next.drop_last() == pills
            &&& call_ensures(P::at_midpoint, (sr, tr), next.last())
        }
    }
}

/// `states` lists the pills before the first edge and after each edge is
/// taken in, in order, each step as `pill_step` says.
pub open spec fn pill_history<R, P: EventPill<R>>(
    vs: Seq<TransitionView<R>>,
    pills: Seq<P>,
    root: EntityId,
    edges: Seq<EdgeRecord>,
    rects: Seq<(EntityId, R)>,
    states: Seq<Seq<P>>,
) -> bool {
    &&& states.len() == edges.len() + 1
    &&& states[0] == pills
    &&& forall|k: int|
        0 <= k < edges.len() ==> pill_step(
            take_in_edges(vs, root, edges.take(k), rects),
            #[trigger] states[k],
            root,
            edge_view(edges[k]),
            rects,
            states[k + 1],
        )
}

/// `result` is what a sync leaves of the pills: those reached by the steps
/// of `states`, of the transitions whose edge is still one of machine `root`.
pub open spec fn synced_pills<R, P: EventPill<R>>(
    vs: Seq<TransitionView<R>>,
    pills: Seq<P>,
    root: EntityId,
    edges: Seq<EdgeRecord>,
    rects: Seq<(EntityId, R)>,
    states: Seq<Seq<P>>,
    result: Seq<P>,
) -> bool {
    &&& pill_history(vs, pills, root, edges, rects, states)
    &&& result == pills_where(
        take_in_edges(vs, root, edges, rects),
        states.last(),
        |t: TransitionView<R>| edge_of_machine(root, edges, t.1),
    )
}

/// The transitions that end at `entity`, as (source, target, label), in order.
pub open spec fn incoming<R>(vs: Seq<TransitionView<R>>, entity: EntityId) -> Seq<(EntityId, EntityId, Seq<char>)>
    decreases vs.len(),
{
    if vs.len() == 0 {
        Seq::empty()
    } else {
        let rest = incoming(vs.drop_last(), entity);
        let t = vs.last();
        if t.2 == entity {
            rest.push((t.0, t.2, t.3))
        } else {
            rest
        }
    }
}

proof fn lemma_take_last<A>(s: Seq<A>, i: int)
    requires
        0 <= i < s.len(),
    ensures
        s.take(i + 1).drop_last() == s.take(i),
        s.take(i + 1).last() == s[i],
{
    assert(s.take(i + 1).drop_last() =~= s.take(i));
}

proof fn lemma_first_entry_skip<R>(rects: Seq<(EntityId, R)>, e: EntityId, i: int)
    requires
        0 <= i <= rects.len(),
        forall|j: int| 0 <= j < i ==> (#[trigger] rects[j]).0 != e,
    ensures
        first_entry(rects, e) == first_entry(rects.subrange(i, rects.len() as int), e),
    decreases i,
{
    if i > 0 {
        let rest = rects.drop_first();
        assert forall|j: int| 0 <= j < i - 1 implies (#[trigger] rest[j]).0 != e by {
            assert(rest[j] == rects[j + 1]);
        }
        lemma_first_entry_skip(rest, e, i - 1);
        assert(rest.subrange(i - 1, rest.len() as int) =~= rects.subrange(i, rects.len() as int));
        assert(rects[0].0 != e);
    } else {
        assert(rects.subrange(0, rects.len() as int) =~= rects);
    }
}

proof fn lemma_edge_index_skip<R>(vs: Seq<TransitionView<R>>, edge: EntityId, i: int)
    requires
        0 <= i <= vs.len(),
        forall|j: int| 0 <= j < i ==> (#[trigger] vs[j]).1 != edge,
    ensures
        edge_index(vs, edge) == i + edge_index(vs.subrange(i, vs.len() as int), edge),
    decreases i,
{
    if i > 0 {
        let rest = vs.drop_first();
        assert forall|j: int| 0 <= j < i - 1 implies (#[trigger] rest[j]).1 != edge by {
            assert(rest[j] == vs[j + 1]);
        }
        lemma_edge_index_skip(rest, edge, i - 1);
        assert(rest.subrange(i - 1, rest.len() as int) =~= vs.subrange(i, vs.len() as int));
        assert(vs[0].1 != edge);
    } else {
        assert(vs.subrange(0, vs.len() as int) =~= vs);
    }
}

/// The value recorded for `e`, from the first entry for it.
pub fn entry_for<R: Copy>(entries: &Vec<(EntityId, R)>, e: EntityId) -> (r: Option<R>)
    ensures
        r == first_entry(entries@, e),
{
    let mut i: usize = 0;
    while i < entries.len()
        invariant
            i <= entries@.len(),
            forall|j: int| 0 <= j < i ==> (#[trigger] entries@[j]).0 != e,
        decreases entries.len() - i,
    {
        if entries[i].0 == e {
            proof {
                lemma_first_entry_skip(entries@, e, i as int);
            }
            return Some(entries[i].1);
        }
        i = i + 1;
    }
    proof {
        lemma_first_entry_skip(entries@, e, i as int);
    }
    None
}

/// The position of the first transition drawn for `edge`, if any.
fn find_edge<R, P>(vs: &Vec<TransitionConnection<R, P>>, edge: EntityId) -> (r: Option<usize>)
    ensures
        match r {
            Some(i) => i == edge_index(transition_views(vs@), edge) && i < vs@.len(),
            None => edge_index(transition_views(vs@), edge) == vs@.len(),
        },
{
    let ghost tv = transition_views(vs@);
    let mut i: usize = 0;
    while i < vs.len()
        invariant
            tv == transition_views(vs@),
            i <= vs@.len(),
            forall|j: int| 0 <= j < i ==> (#[trigger] tv[j]).1 != edge,
        decreases vs.len() - i,
    {
        if vs[i].edge_entity == edge {
            proof {
                lemma_edge_index_skip(tv, edge, i as int);
                assert(tv.subrange(i as int, tv.len() as int)[0] == tv[i as int]);
            }
            return Some(i);
        }
        i = i + 1;
    }
    proof {
        lemma_edge_index_skip(tv, edge, i as int);
    }
    None
}

/// A copy of a transition, rectangles and pill included.
fn copy_transition<R: Copy, P: Copy>(t: &TransitionConnection<R, P>) -> (r: TransitionConnection<R, P>)
    ensures
        transition_view(r) == transition_view(*t),
        r.event_node == t.event_node,
{
    TransitionConnection {
        source_entity: t.source_entity,
        edge_entity: t.edge_entity,
        target_entity: t.target_entity,
        event_type: t.event_type.clone(),
        source_rect: t.source_rect,
        target_rect: t.target_rect,
        event_node: t.event_node,
        is_dragging_event_node: t.is_dragging_event_node,
    }
}

/// Brings the drawn transitions of machine `root` in line with the edges of
/// the ECS, keeping what the user did to them: each edge of the machine whose
/// nodes both have rectangles updates the transition drawn for it (its pill
/// following the nodes unless it is being dragged) or gets a new one halfway
/// between its nodes; then transitions whose edge is gone are dropped.
pub fn sync_edge_visuals<R: Copy, P: Copy + EventPill<R>>(
    visuals: &mut Vec<TransitionConnection<R, P>>,
    root: EntityId,
    edges: &Vec<EdgeRecord>,
    node_rects: &Vec<(EntityId, R)>,
)
    ensures
        transition_views(final(visuals)@) == keep_existing(
            take_in_edges(transition_views(old(visuals)@), root, edges@, node_rects@),
            root,
            edges@,
        ),
        exists|states: Seq<Seq<P>>|
            #[trigger] synced_pills(
                transition_views(old(visuals)@),
                pills_of(old(visuals)@),
                root,
                edges@,
                node_rects@,
                states,
                pills_of(final(visuals)@),
            ),
{
    let ghost start = transition_views(visuals@);
    let ghost mut states: Seq<Seq<P>> = seq![pills_of(visuals@)];
    let mut k: usize = 0;
    while k < edges.len()
        invariant
            k <= edges@.len(),
            start == transition_views(old(visuals)@),
            transition_views(visuals@) == take_in_edges(start, root, edges@.take(k as int), node_rects@),
            states.len() == k + 1,
            states[0] == pills_of(old(visuals)@),
            states.last() == pills_of(visuals@),
            forall|j: int|
                0 <= j < k ==> pill_step(
                    take_in_edges(start, root, edges@.take(j), node_rects@),
                    #[trigger] states[j],
                    root,
                    edge_view(edges@[j]),
                    node_rects@,
                    states[j + 1],
                ),
        decreases edges.len() - k,
    {
        proof {
            lemma_take_last(edges@, k as int);
        }
        let ghost before_pills = pills_of(visuals@);
        let e = &edges[k];
        if e.root == root {
            let source_rect = entry_for(node_rects, e.source);
            let target_rect = entry_for(node_rects, e.target);
            match (source_rect, target_rect) {
                (Some(sr), Some(tr)) => {
                    let ghost before = transition_views(visuals@);
                    match find_edge(visuals, e.edge) {
                        Some(i) => {
                            let old_t = copy_transition(&visuals[i]);
                            let pill = if old_t.is_dragging_event_node {
                                old_t.event_node
                            } else {
                                old_t.event_node.follow(sr, tr)
                            };
                            let t = TransitionConnection {
                                source_entity: e.source,
                                edge_entity: e.edge,
                                target_entity: e.target,
                                event_type: e.label.clone(),
                                source_rect: sr,
                                target_rect: tr,
                                event_node: pill,
                                is_dragging_event_node: old_t.is_dragging_event_node,
                            };
                            visuals.set(i, t);
                            proof {
                                assert(transition_views(visuals@) =~= before.update(
                                    i as int,
                                    (e.source, e.edge, e.target, e.label@, before[i as int].4, sr, tr),
                                ));
                                assert(pills_of(visuals@) =~= before_pills.update(i as int, pill));
                            }
                        },
                        None => {
                            let t = TransitionConnection {
                                source_entity: e.source,
                                edge_entity: e.edge,
                                target_entity: e.target,
                                event_type: e.label.clone(),
                                source_rect: sr,
                                target_rect: tr,
                                event_node: P::at_midpoint(sr, tr),
                                is_dragging_event_node: false,
                            };
                            visuals.push(t);
                            proof {
                                assert(transition_views(visuals@) =~= before.push(
                                    (e.source, e.edge, e.target, e.label@, false, sr, tr),
                                ));
                                assert(pills_of(visuals@).drop_last() =~= before_pills);
                            }
                        },
                    }
                },
                _ => {},
            }
        }
        proof {
            let ghost prev = states;
            states = states.push(pills_of(visuals@));
            assert forall|j: int|
                0 <= j < k + 1 implies pill_step(
                take_in_edges(start, root, edges@.take(j), node_rects@),
                #[trigger] states[j],
                root,
                edge_view(edges@[j]),
                node_rects@,
                states[j + 1],
            ) by {
                if j < k {
                    assert(states[j] == prev[j]);
                    assert(states[j + 1] == prev[j + 1]);
                }
            }
        }
        k = k + 1;
    }
    proof {
        assert(edges@.take(edges@.len() as int) =~= edges@);
    }
    let ghost taken = transition_views(visuals@);
    let ghost taken_pills = pills_of(visuals@);
    let ghost keep = |t: TransitionView<R>| edge_of_machine(root, edges@, t.1);
    let mut kept: Vec<TransitionConnection<R, P>> = Vec::new();
    let mut i: usize = 0;
    while i < visuals.len()
        invariant
            taken == transition_views(visuals@),
            taken_pills == pills_of(visuals@),
            keep == (|t: TransitionView<R>| edge_of_machine(root, edges@, t.1)),
            i <= visuals@.len(),
            transition_views(kept@) == keep_existing(taken.take(i as int), root, edges@),
            pills_of(kept@) == pills_where(taken.take(i as int), taken_pills.take(i as int), keep),
        decreases visuals.len() - i,
    {
        proof {
            lemma_take_last(taken, i as int);
            lemma_take_last(taken_pills, i as int);
        }
        let edge = visuals[i].edge_entity;
        let mut found = false;
        let mut j: usize = 0;
        while j < edges.len()
            invariant
                j <= edges@.len(),
                found == exists|m: int| 0 <= m < j && (#[trigger] edges@[m]).edge == edge && edges@[m].root == root,
            decreases edges.len() - j,
        {
            if edges[j].edge == edge && edges[j].root == root {
                found = true;
            }
            j = j + 1;
        }
        assert(found == edge_of_machine(root, edges@, taken[i as int].1));
        if found {
            let ghost before = transition_views(kept@);
            let ghost before_pills = pills_of(kept@);
            let t = copy_transition(&visuals[i]);
            kept.push(t);
            proof {
                assert(transition_views(kept@) =~= before.push(taken[i as int]));
                assert(pills_of(kept@) =~= before_pills.push(taken_pills[i as int]));
            }
        }
        i = i + 1;
    }
    proof {
        assert(taken.take(taken.len() as int) =~= taken);
        assert(taken_pills.take(taken_pills.len() as int) =~= taken_pills);
        assert(synced_pills(start, states[0], root, edges@, node_rects@, states, pills_of(kept@)));
    }
    *visuals = kept;
}

/// Draws a transition that was just created from `source` to `target`, with
/// its pill halfway between them, when both nodes have rectangles.
pub fn add_created_transition<R: Copy, P: EventPill<R>>(
    visuals: &mut Vec<TransitionConnection<R, P>>,
    source: EntityId,
    edge: EntityId,
    target: EntityId,
    event_type: &str,
    node_rects: &Vec<(EntityId, R)>,
) -> (added: bool)
    ensures
        added == (first_entry(node_rects@, source) is Some && first_entry(node_rects@, target) is Some),
        added ==> transition_views(final(visuals)@) == transition_views(old(visuals)@).push(
            (source, edge, target, event_type@, false, first_entry(node_rects@, source)->0, first_entry(node_rects@, target)->0),
        ),
        added ==> pills_of(final(visuals)@).drop_last() == pills_of(old(visuals)@),
        added ==> call_ensures(
            P::at_midpoint,
            (first_entry(node_rects@, source)->0, first_entry(node_rects@, target)->0),
            final(visuals)@.last().event_node,
        ),
        !added ==> final(visuals)@ == old(visuals)@,
{
    match (entry_for(node_rects, source), entry_for(node_rects, target)) {
        (Some(sr), Some(tr)) => {
            let ghost before = transition_views(visuals@);
            visuals.push(
                TransitionConnection {
                    source_entity: source,
                    edge_entity: edge,
                    target_entity: target,
                    event_type: String::from_str(event_type),
                    source_rect: sr,
                    target_rect: tr,
                    event_node: P::at_midpoint(sr, tr),
                    is_dragging_event_node: false,
                },
            );
            proof {
                assert(transition_views(visuals@) =~= before.push((source, edge, target, event_type@, false, sr, tr)));
                assert(pills_of(visuals@).drop_last() =~= pills_of(old(visuals)@));
            }
            true
        },
        _ => false,
    }
}

/// Takes away every drawn transition from `source` to `target` labelled
/// `event_type`; the others keep their order.
pub fn remove_transition<R: Copy, P: Copy>(
    visuals: &mut Vec<TransitionConnection<R, P>>,
    source: EntityId,
    target: EntityId,
    event_type: &str,
)
    ensures
        transition_views(final(visuals)@) == without_transition(
            transition_views(old(visuals)@),
            source,
            target,
            event_type@,
        ),
        pills_of(final(visuals)@) == pills_where(
            transition_views(old(visuals)@),
            pills_of(old(visuals)@),
            |t: TransitionView<R>| !(t.0 == source && t.2 == target && t.3 == event_type@),
        ),
{
    let ghost start = transition_views(visuals@);
    let ghost start_pills = pills_of(visuals@);
    let ghost keep = |t: TransitionView<R>| !(t.0 == source && t.2 == target && t.3 == event_type@);
    let mut kept: Vec<TransitionConnection<R, P>> = Vec::new();
    let mut i: usize = 0;
    while i < visuals.len()
        invariant
            start == transition_views(visuals@),
            start_pills == pills_of(visuals@),
            keep == (|t: TransitionView<R>| !(t.0 == source && t.2 == target && t.3 == event_type@)),
            i <= visuals@.len(),
            transition_views(kept@) == without_transition(start.take(i as int), source, target, event_type@),
            pills_of(kept@) == pills_where(start.take(i as int), start_pills.take(i as int), keep),
        decreases visuals.len() - i,
    {
        proof {
            lemma_take_last(start, i as int);
            lemma_take_last(start_pills, i as int);
        }
        let t = &visuals[i];
        let matches = t.source_entity == source && t.target_entity == target && str_eq(
            t.event_type.as_str(),
            event_type,
        );
        if !matches {
            let ghost before = transition_views(kept@);
            let ghost before_pills = pills_of(kept@);
            kept.push(copy_transition(t));
            proof {
                assert(transition_views(kept@) =~= before.push(start[i as int]));
                assert(pills_of(kept@) =~= before_pills.push(start_pills[i as int]));
            }
        }
        i = i + 1;
    }
    proof {
        assert(start.take(start.len() as int) =~= start);
        assert(start_pills.take(start_pills.len() as int) =~= start_pills);
    }
    *visuals = kept;
}

/// The transitions that end at `entity`, as (source, target, label): those
/// to delete with the node.
pub fn incoming_transitions<R, P>(visuals: &Vec<TransitionConnection<R, P>>, entity: EntityId) -> (r: Vec<
    (EntityId, EntityId, String),
>)
    ensures
        r@.map_values(|x: (EntityId, EntityId, String)| (x.0, x.1, x.2@)) == incoming(
            transition_views(visuals@),
            entity,
        ),
{
    let ghost start = transition_views(visuals@);
    let mut out: Vec<(EntityId, EntityId, String)> = Vec::new();
    let mut i: usize = 0;
    while i < visuals.len()
        invariant
            start == transition_views(visuals@),
            i <= visuals@.len(),
            out@.map_values(|x: (EntityId, EntityId, String)| (x.0, x.1, x.2@)) == incoming(
                start.take(i as int),
                entity,
            ),
        decreases visuals.len() - i,
    {
        proof {
            lemma_take_last(start, i as int);
        }
        let t = &visuals[i];
        if t.target_entity == entity {
            let ghost before = out@;
            out.push((t.source_entity, t.target_entity, t.event_type.clone()));
            proof {
                assert(out@.map_values(|x: (EntityId, EntityId, String)| (x.0, x.1, x.2@)) =~= before.map_values(
                    |x: (EntityId, EntityId, String)| (x.0, x.1, x.2@),
                ).push((start[i as int].0, start[i as int].2, start[i as int].3)));
            }
        }
        i = i + 1;
    }
    proof {
        assert(start.take(start.len() as int) =~= start);
    }
    out
}

proof fn lemma_edge_index<R>(vs: Seq<TransitionView<R>>, edge: EntityId)
    ensures
        0 <= edge_index(vs, edge) <= vs.len(),
        edge_index(vs, edge) < vs.len() ==> vs[edge_index(vs, edge)].1 == edge,
    decreases vs.len(),
{
    if vs.len() > 0 && vs[0].1 != edge {
        lemma_edge_index(vs.drop_first(), edge);
    }
}

proof fn lemma_keep_existing<R>(vs: Seq<TransitionView<R>>, root: EntityId, edges: Seq<EdgeRecord>)
    ensures
        forall|j: int|
            0 <= j < keep_existing(vs, root, edges).len() ==> edge_of_machine(
                root,
                edges,
                (#[trigger] keep_existing(vs, root, edges)[j]).1,
            ),
        forall|t: TransitionView<R>|
            vs.contains(t) && edge_of_machine(root, edges, t.1) ==> #[trigger] keep_existing(vs, root, edges).contains(t),
    decreases vs.len(),
{
    if vs.len() > 0 {
        let prev = vs.drop_last();
        lemma_keep_existing(prev, root, edges);
        let rest = keep_existing(prev, root, edges);
        let full = keep_existing(vs, root, edges);
        assert forall|t: TransitionView<R>| rest.contains(t) implies full.contains(t) by {
            let j = choose|j: int| 0 <= j < rest.len() && rest[j] == t;
            assert(full[j] == rest[j]);
        }
        assert forall|t: TransitionView<R>| vs.contains(t) && edge_of_machine(root, edges, t.1) implies #[trigger] full.contains(t) by {
            let j = choose|j: int| 0 <= j < vs.len() && vs[j] == t;
            if j < vs.len() - 1 {
                assert(prev[j] == t);
            } else {
                assert(full[rest.len() as int] == t);
            }
        }
    }
}

/// Taking in an edge leaves every transition drawn for another edge in place.
proof fn lemma_take_in_keeps_others<R>(
    vs: Seq<TransitionView<R>>,
    root: EntityId,
    e: (EntityId, EntityId, EntityId, Seq<char>, EntityId),
    rects: Seq<(EntityId, R)>,
    t: TransitionView<R>,
)
    requires
        vs.contains(t),
        t.1 != e.0,
    ensures
        take_in_edge(vs, root, e, rects).contains(t),
{
    let r = take_in_edge(vs, root, e, rects);
    let j = choose|j: int| 0 <= j < vs.len() && vs[j] == t;
    lemma_edge_index(vs, e.0);
    assert(r[j] == t);
}

/// Once an edge of the machine whose nodes have rectangles has been taken
/// in, a transition drawn for it with its ends and label stays through the
/// edges taken in after it, as long as no later edge has the same entity.
proof fn lemma_take_in_edges_draws<R>(
    vs: Seq<TransitionView<R>>,
    root: EntityId,
    edges: Seq<EdgeRecord>,
    rects: Seq<(EntityId, R)>,
    k: int,
)
    requires
        0 <= k < edges.len(),
        edges[k].root == root,
        first_entry(rects, edges[k].source) is Some,
        first_entry(rects, edges[k].target) is Some,
        forall|a: int| k < a < edges.len() ==> (#[trigger] edges[a]).edge != edges[k].edge,
    ensures
        exists|d: bool|
            #[trigger] take_in_edges(vs, root, edges, rects).contains(
                (edges[k].source, edges[k].edge, edges[k].target, edges[k].label@, d, first_entry(rects, edges[k].source)->0, first_entry(rects, edges[k].target)->0),
            ),
    decreases edges.len(),
{
    let n = edges.len() - 1;
    let prev = edges.drop_last();
    let before = take_in_edges(vs, root, prev, rects);
    let after = take_in_edges(vs, root, edges, rects);
    assert(after == take_in_edge(before, root, edge_view(edges[n]), rects));
    if k == n {
        let i = edge_index(before, edges[k].edge);
        lemma_edge_index(before, edges[k].edge);
        if i < before.len() {
            let t = (edges[k].source, edges[k].edge, edges[k].target, edges[k].label@, before[i].4, first_entry(rects, edges[k].source)->0, first_entry(rects, edges[k].target)->0);
            assert(after[i] == t);
            assert(after.contains(t));
        } else {
            let t = (edges[k].source, edges[k].edge, edges[k].target, edges[k].label@, false, first_entry(rects, edges[k].source)->0, first_entry(rects, edges[k].target)->0);
            assert(after[before.len() as int] == t);
            assert(after.contains(t));
        }
    } else {
        assert forall|a: int| k < a < prev.len() implies (#[trigger] prev[a]).edge != prev[k].edge by {
            assert(prev[a] == edges[a]);
        }
        assert(prev[k] == edges[k]);
        lemma_take_in_edges_draws(vs, root, prev, rects, k);
        let d = choose|d: bool|
            #[trigger] before.contains((edges[k].source, edges[k].edge, edges[k].target, edges[k].label@, d, first_entry(rects, edges[k].source)->0, first_entry(rects, edges[k].target)->0));
        lemma_take_in_keeps_others(
            before,
            root,
            edge_view(edges[n]),
            rects,
            (edges[k].source, edges[k].edge, edges[k].target, edges[k].label@, d, first_entry(rects, edges[k].source)->0, first_entry(rects, edges[k].target)->0),
        );
        assert(after.contains((edges[k].source, edges[k].edge, edges[k].target, edges[k].label@, d, first_entry(rects, edges[k].source)->0, first_entry(rects, edges[k].target)->0)));
    }
}

/// After syncing, the transitions drawn for machine `root` are drawn for
/// edges of that machine only; and each of its edges whose nodes both have
/// rectangles is drawn with its own ends, label and rectangles, where no two
/// edges share an entity.
pub proof fn law_sync_draws_the_machine_edges<R>(
    vs: Seq<TransitionView<R>>,
    root: EntityId,
    edges: Seq<EdgeRecord>,
    rects: Seq<(EntityId, R)>,
    k: int,
)
    requires
        forall|a: int, b: int| 0 <= a < b < edges.len() ==> (#[trigger] edges[a]).edge != (#[trigger] edges[b]).edge,
    ensures
        forall|j: int|
            0 <= j < keep_existing(take_in_edges(vs, root, edges, rects), root, edges).len() ==> edge_of_machine(
                root,
                edges,
                (#[trigger] keep_existing(take_in_edges(vs, root, edges, rects), root, edges)[j]).1,
            ),
        0 <= k < edges.len() && edges[k].root == root && first_entry(rects, edges[k].source) is Some
            && first_entry(rects, edges[k].target) is Some ==> exists|d: bool|
            #[trigger] keep_existing(take_in_edges(vs, root, edges, rects), root, edges).contains(
                (edges[k].source, edges[k].edge, edges[k].target, edges[k].label@, d, first_entry(rects, edges[k].source)->0, first_entry(rects, edges[k].target)->0),
            ),
{
    let taken = take_in_edges(vs, root, edges, rects);
    lemma_keep_existing(taken, root, edges);
    if 0 <= k < edges.len() && edges[k].root == root && first_entry(rects, edges[k].source) is Some
        && first_entry(rects, edges[k].target) is Some {
        lemma_take_in_edges_draws(vs, root, edges, rects, k);
        let d = choose|d: bool|
            #[trigger] taken.contains((edges[k].source, edges[k].edge, edges[k].target, edges[k].label@, d, first_entry(rects, edges[k].source)->0, first_entry(rects, edges[k].target)->0));
        assert(edge_of_machine(root, edges, edges[k].edge));
        assert(keep_existing(taken, root, edges).contains(
            (edges[k].source, edges[k].edge, edges[k].target, edges[k].label@, d, first_entry(rects, edges[k].source)->0, first_entry(rects, edges[k].target)->0),
        ));
    }
}

/// The position of the first pulse, among pulses listed by (source, target),
/// on the transition from `source` to `target`: the one that colours it.
pub fn find_transition_pulse(pulses: &Vec<(EntityId, EntityId)>, source: EntityId, target: EntityId) -> (r: Option<
    usize,
>)
    ensures
        match r {
            Some(i) => i < pulses@.len() && pulses@[i as int] == (source, target) && forall|j: int|
                0 <= j < i ==> #[trigger] pulses@[j] != (source, target),
            None => !pulses@.contains((source, target)),
        },
{
    let mut i: usize = 0;
    while i < pulses.len()
        invariant
            i <= pulses@.len(),
            forall|j: int| 0 <= j < i ==> #[trigger] pulses@[j] != (source, target),
        decreases pulses.len() - i,
    {
        if pulses[i].0 == source && pulses[i].1 == target {
            return Some(i);
        }
        i = i + 1;
    }
    None
}

/// The position of the first pulse, among pulses listed by the state they
/// light, on `entity`: the one that colours its node.
pub fn find_node_pulse(pulses: &Vec<EntityId>, entity: EntityId) -> (r: Option<usize>)
    ensures
        match r {
            Some(i) => i < pulses@.len() && pulses@[i as int] == entity && forall|j: int|
                0 <= j < i ==> #[trigger] pulses@[j] != entity,
            None => !pulses@.contains(entity),
        },
{
    let mut i: usize = 0;
    while i < pulses.len()
        invariant
            i <= pulses@.len(),
            forall|j: int| 0 <= j < i ==> #[trigger] pulses@[j] != entity,
        decreases pulses.len() - i,
    {
        if pulses[i] == entity {
            return Some(i);
        }
        i = i + 1;
    }
    None
}

/// What the drawing does with the pill after one frame's pointer input.
#[derive(Clone, Copy, PartialEq, Eq, Structural, Debug)]
pub struct PillDrag {
    /// Move the pill by the pointer's movement.
    pub move_pill: bool,
    /// Remember the pill's new offset from the nodes' midpoint.
    pub refresh_offset: bool,
}

impl<R, P> TransitionConnection<R, P> {
    /// One frame of pointer input on the event pill: a drag that starts marks
    /// the pill as dragged, a drag moves it while it is marked, and a drag that
    /// stops unmarks it and keeps the offset where it was left.
    pub fn pill_drag(&mut self, started: bool, dragged: bool, stopped: bool) -> (r: PillDrag)
        ensures
            r.move_pill == (dragged && (started || old(self).is_dragging_event_node)),
            r.refresh_offset == stopped,
            final(self).is_dragging_event_node == (!stopped && (started || old(self).is_dragging_event_node)),
            final(self).source_entity == old(self).source_entity,
            final(self).edge_entity == old(self).edge_entity,
            final(self).target_entity == old(self).target_entity,
            final(self).event_type == old(self).event_type,
            final(self).source_rect == old(self).source_rect,
            final(self).target_rect == old(self).target_rect,
            final(self).event_node == old(self).event_node,
    {
        if started {
            self.is_dragging_event_node = true;
        }
        let move_pill = dragged && self.is_dragging_event_node;
        if stopped {
            self.is_dragging_event_node = false;
        }
        PillDrag { move_pill, refresh_offset: stopped }
    }
}

/// Each drawn transition takes on the current rectangles of its nodes (a
/// node without one keeps the rectangle it had), and its pill follows them
/// unless the user is dragging it.
pub fn follow_nodes<R: Copy, P: Copy + EventPill<R>>(
    visuals: &mut Vec<TransitionConnection<R, P>>,
    node_rects: &Vec<(EntityId, R)>,
)
    ensures
        final(visuals)@.len() == old(visuals)@.len(),
        forall|k: int|
            0 <= k < old(visuals)@.len() ==> {
                let o = #[trigger] old(visuals)@[k];
                let f = final(visuals)@[k];
                &&& f.source_entity == o.source_entity
                &&& f.edge_entity == o.edge_entity
                &&& f.target_entity == o.target_entity
                &&& f.event_type@ == o.event_type@
                &&& f.is_dragging_event_node == o.is_dragging_event_node
                &&& f.source_rect == match first_entry(node_rects@, o.source_entity) {
                    Some(r) => r,
                    None => o.source_rect,
                }
                &&& f.target_rect == match first_entry(node_rects@, o.target_entity) {
                    Some(r) => r,
                    None => o.target_rect,
                }
                &&& o.is_dragging_event_node ==> f.event_node == o.event_node
                &&& !o.is_dragging_event_node ==> call_ensures(
                    P::follow,
                    (&o.event_node, f.source_rect, f.target_rect),
                    f.event_node,
                )
            },
{
    let mut i: usize = 0;
    while i < visuals.len()
        invariant
            i <= visuals@.len(),
            visuals@.len() == old(visuals)@.len(),
            forall|k: int| i <= k < visuals@.len() ==> #[trigger] visuals@[k] == old(visuals)@[k],
            forall|k: int|
                0 <= k < i ==> {
                    let o = #[trigger] old(visuals)@[k];
                    let f = visuals@[k];
                    &&& f.source_entity == o.source_entity
                    &&& f.edge_entity == o.edge_entity
                    &&& f.target_entity == o.target_entity
                    &&& f.event_type@ == o.event_type@
                    &&& f.is_dragging_event_node == o.is_dragging_event_node
                    &&& f.source_rect == match first_entry(node_rects@, o.source_entity) {
                        Some(r) => r,
                        None => o.source_rect,
                    }
                    &&& f.target_rect == match first_entry(node_rects@, o.target_entity) {
                        Some(r) => r,
                        None => o.target_rect,
                    }
                    &&& o.is_dragging_event_node ==> f.event_node == o.event_node
                    &&& !o.is_dragging_event_node ==> call_ensures(
                        P::follow,
                        (&o.event_node, f.source_rect, f.target_rect),
                        f.event_node,
                    )
                },
        decreases visuals.len() - i,
    {
        let mut t = copy_transition(&visuals[i]);
        match entry_for(node_rects, t.source_entity) {
            Some(r) => {
                t.source_rect = r;
            },
            None => {},
        }
        match entry_for(node_rects, t.target_entity) {
            Some(r) => {
                t.target_rect = r;
            },
            None => {},
        }
        if !t.is_dragging_event_node {
            t.event_node = t.event_node.follow(t.source_rect, t.target_rect);
        }
        visuals.set(i, t);
        i = i + 1;
    }
}

} // verus!
