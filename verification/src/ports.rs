use vstd::prelude::*;

verus! {

/// A side of a node's rectangle.
#[derive(Clone, Copy, PartialEq, Eq, Structural, Debug, Hash)]
pub enum EdgeSide {
    Top,
    Right,
    Bottom,
    Left,
}

/// How a connection's path is bent.
#[derive(Clone, Copy, PartialEq, Eq, Structural, Debug)]
pub enum ConnectionShape {
    Straight,
    LShape,
    SShape,
}

/// Which leg of a two-legged path comes first.
#[derive(Clone, Copy, PartialEq, Eq, Structural, Debug)]
pub enum ManhattanRoute {
    HorizontalFirst,
    VerticalFirst,
}

/// Top faces bottom and left faces right.
pub open spec fn opposite(a: EdgeSide, b: EdgeSide) -> bool {
    ||| a == EdgeSide::Top && b == EdgeSide::Bottom
    ||| a == EdgeSide::Bottom && b == EdgeSide::Top
    ||| a == EdgeSide::Left && b == EdgeSide::Right
    ||| a == EdgeSide::Right && b == EdgeSide::Left
}

/// Whether two connection ends leave from the same side of their nodes.
pub fn are_same_edge_side(edge1: EdgeSide, edge2: EdgeSide) -> (r: bool)
    ensures
        r == (edge1 == edge2),
{
    edge1 == edge2
}

/// Whether two sides face each other (top and bottom, or left and right).
pub fn are_opposite_edges(edge1: EdgeSide, edge2: EdgeSide) -> (r: bool)
    ensures
        r == opposite(edge1, edge2),
{
    match (edge1, edge2) {
        (EdgeSide::Top, EdgeSide::Bottom) | (EdgeSide::Bottom, EdgeSide::Top) | (EdgeSide::Left, EdgeSide::Right) | (
            EdgeSide::Right,
            EdgeSide::Left,
        ) => true,
        _ => false,
    }
}

/// The sides a connection leaves and enters by, from how its nodes lie: when
/// they lie more side by side than one above the other, the facing vertical
/// sides (right then left when the target lies to the right); otherwise the
/// facing horizontal sides (bottom then top when the target lies below).
pub fn connection_edges(mostly_horizontal: bool, target_after: bool) -> (r: (EdgeSide, EdgeSide))
    ensures
        r == if mostly_horizontal {
            if target_after {
                (EdgeSide::Right, EdgeSide::Left)
            } else {
                (EdgeSide::Left, EdgeSide::Right)
            }
        } else {
            if target_after {
                (EdgeSide::Bottom, EdgeSide::Top)
            } else {
                (EdgeSide::Top, EdgeSide::Bottom)
            }
        },
        opposite(r.0, r.1),
{
    if mostly_horizontal {
        if target_after {
            (EdgeSide::Right, EdgeSide::Left)
        } else {
            (EdgeSide::Left, EdgeSide::Right)
        }
    } else {
        if target_after {
            (EdgeSide::Bottom, EdgeSide::Top)
        } else {
            (EdgeSide::Top, EdgeSide::Bottom)
        }
    }
}

/// The shape of a connection's path. Straight when its pins are nearly in
/// line and its sides face each other. An L when the pins lie far apart, on
/// sides that neither match nor face each other, and both legs of the L
/// would be long. Otherwise an S when the nodes lie close together, the
/// sides match, a leg would be short, or more than one connection already
/// runs alongside this one; an L for the rest.
pub open spec fn shape_for(
    aligned: bool,
    close: bool,
    far: bool,
    long_legs: bool,
    parallel_count: nat,
    from_edge: EdgeSide,
    to_edge: EdgeSide,
) -> ConnectionShape {
    if aligned && opposite(from_edge, to_edge) {
        ConnectionShape::Straight
    } else if far && from_edge != to_edge && !opposite(from_edge, to_edge) && long_legs {
        ConnectionShape::LShape
    } else if close || from_edge == to_edge || !long_legs || parallel_count > 1 {
        ConnectionShape::SShape
    } else {
        ConnectionShape::LShape
    }
}

/// The shape of a connection's path, from what the canvas measured: whether
/// its pins are nearly in line (`aligned`), whether they lie close together
/// (`close`) or far apart (`far`), whether both legs of an L between them
/// would be long (`long_legs`), and how many routed connections run alongside
/// it between the same sides (`parallel_count`).
pub fn routing_shape(
    aligned: bool,
    close: bool,
    far: bool,
    long_legs: bool,
    parallel_count: usize,
    from_edge: EdgeSide,
    to_edge: EdgeSide,
) -> (r: ConnectionShape)
    ensures
        r == shape_for(aligned, close, far, long_legs, parallel_count as nat, from_edge, to_edge),
{
    let opposite_sides = are_opposite_edges(from_edge, to_edge);
    let same_side = are_same_edge_side(from_edge, to_edge);
    if aligned && opposite_sides {
        return ConnectionShape::Straight;
    }
    if far && !same_side && !opposite_sides && long_legs {
        return ConnectionShape::LShape;
    }
    let needs_s_shape = close || same_side || !long_legs;
    if needs_s_shape || parallel_count > 1 {
        ConnectionShape::SShape
    } else {
        ConnectionShape::LShape
    }
}

/// Of the two ways to route a connection, the one that crosses fewer of the
/// connections already routed; horizontal first on a tie.
pub fn choose_route(horizontal_crossings: usize, vertical_crossings: usize) -> (r: ManhattanRoute)
    ensures
        r == if horizontal_crossings <= vertical_crossings {
            ManhattanRoute::HorizontalFirst
        } else {
            ManhattanRoute::VerticalFirst
        },
{
    if horizontal_crossings <= vertical_crossings {
        ManhattanRoute::HorizontalFirst
    } else {
        ManhattanRoute::VerticalFirst
    }
}

/// The slots of a side that holds `outgoing` then `incoming` ports: the
/// `k`-th at `(k + 1) / (outgoing + incoming + 1)` of the side's length.
pub open spec fn port_slot_seq(outgoing: nat, incoming: nat) -> Seq<(usize, usize)> {
    Seq::new(outgoing + incoming, |k: int| ((k + 1) as usize, (outgoing + incoming + 1) as usize))
}

/// Where the ports of one side of a node go, as fractions of the side's
/// length (numerator, denominator): `outgoing` ports first, then `incoming`,
/// evenly spaced so that `n` ports split the side into `n + 1` equal parts.
/// A single port sits in the middle.
pub fn port_slots(outgoing: usize, incoming: usize) -> (r: Vec<(usize, usize)>)
    requires
        outgoing + incoming + 1 <= usize::MAX,
    ensures
        r@ == port_slot_seq(outgoing as nat, incoming as nat),
        r@.len() == outgoing + incoming,
        forall|k: int| 0 <= k < r@.len() ==> #[trigger] r@[k] == ((k + 1) as usize, (outgoing + incoming + 1) as usize),
{
    let total = outgoing + incoming;
    let mut slots: Vec<(usize, usize)> = Vec::new();
    if total == 0 {
        assert(slots@ =~= port_slot_seq(outgoing as nat, incoming as nat));
        return slots;
    }
    if total == 1 {
        slots.push((1, 2));
        assert(slots@ =~= port_slot_seq(outgoing as nat, incoming as nat));
        return slots;
    }
    let mut i: usize = 0;
    while i < outgoing
        invariant
            total == outgoing + incoming,
            total + 1 <= usize::MAX,
            i <= outgoing,
            slots@.len() == i,
            forall|k: int| 0 <= k < i ==> #[trigger] slots@[k] == ((k + 1) as usize, (total + 1) as usize),
        decreases outgoing - i,
    {
        slots.push((i + 1, total + 1));
        i = i + 1;
    }
    let mut j: usize = 0;
    while j < incoming
        invariant
            total == outgoing + incoming,
            total + 1 <= usize::MAX,
            j <= incoming,
            slots@.len() == outgoing + j,
            forall|k: int| 0 <= k < outgoing + j ==> #[trigger] slots@[k] == ((k + 1) as usize, (total + 1) as usize),
        decreases incoming - j,
    {
        slots.push((outgoing + j + 1, total + 1));
        j = j + 1;
    }
    assert(slots@ =~= port_slot_seq(outgoing as nat, incoming as nat));
    slots
}

/// Where the ports of a side go depends only on how many there are: the
/// slots for `outgoing` ports followed by `incoming` ones are the slots for
/// as many ports of one direction alone.
pub proof fn law_port_slots_depend_on_total(outgoing: nat, incoming: nat)
    ensures
        port_slot_seq(outgoing, incoming) == port_slot_seq(outgoing + incoming, 0),
        port_slot_seq(outgoing, incoming) == port_slot_seq(0, outgoing + incoming),
{
    assert(port_slot_seq(outgoing, incoming) =~= port_slot_seq(outgoing + incoming, 0));
    assert(port_slot_seq(outgoing, incoming) =~= port_slot_seq(0, outgoing + incoming));
}

/// The ports of a side lie strictly inside it, in increasing order, and
/// mirror each other about its middle.
pub proof fn law_port_slots_spread_evenly(slots: Seq<(usize, usize)>, n: nat)
    requires
        slots.len() == n,
        forall|k: int| 0 <= k < n ==> #[trigger] slots[k] == ((k + 1) as usize, (n + 1) as usize),
        n + 1 <= usize::MAX,
    ensures
        forall|k: int| 0 <= k < n ==> 0 < (#[trigger] slots[k]).0 < slots[k].1,
        forall|a: int, b: int| 0 <= a < b < n ==> (#[trigger] slots[a]).0 < (#[trigger] slots[b]).0 && slots[a].1 == slots[b].1,
        forall|k: int| 0 <= k < n ==> (#[trigger] slots[k]).0 + slots[n - 1 - k].0 == slots[k].1,
{
    assert forall|k: int| 0 <= k < n implies (#[trigger] slots[k]).0 + slots[n - 1 - k].0 == slots[k].1 by {
        assert(slots[n - 1 - k] == ((n - 1 - k + 1) as usize, (n + 1) as usize));
    }
}

} // verus!
