use vstd::prelude::*;
use vstd::string::*;
use crate::hierarchy::EntityId;
use crate::text::str_eq;

verus! {

/// Reflection data for one field of a component.
#[derive(Clone)]
pub struct FieldInfo {
    /// The name of the field.
    pub name: String,
    /// The index of this field within the component struct.
    pub field_index: usize,
    /// The type name of the field.
    pub field_type_name: String,
}

/// Reflection data for one component of an entity.
#[derive(Clone)]
pub struct ComponentInfo {
    /// Display name of the component.
    pub name: String,
    /// The full type name of the component.
    pub full_type_name: String,
    /// The fields of this component; those that hold an entity become pins.
    pub fields: Vec<FieldInfo>,
}

/// A node of the graph demo standing for one entity.
pub struct EntityNode {
    /// The entity this node represents.
    pub entity: EntityId,
    /// A display name for the node.
    pub name: String,
    /// The entity's reflectable components.
    pub components: Vec<ComponentInfo>,
}

/// A node of the graph demo.
pub enum DemoNode {
    /// An entity with its reflected components.
    Entity(EntityNode),
}

/// The type path by which a field is recognised as holding an entity.
pub open spec fn entity_type_path() -> Seq<char> {
    "bevy_ecs::entity::Entity"@
}

/// The field holds an entity, and so is an output pin.
pub open spec fn is_entity_field(f: FieldInfo) -> bool {
    f.field_type_name@ == entity_type_path()
}

/// The fields of `fs` that hold an entity, in order.
pub open spec fn entity_fields_of(fs: Seq<FieldInfo>) -> Seq<FieldInfo>
    decreases fs.len(),
{
    if fs.len() == 0 {
        Seq::empty()
    } else {
        let rest = entity_fields_of(fs.drop_last());
        if is_entity_field(fs.last()) {
            rest.push(fs.last())
        } else {
            rest
        }
    }
}

/// The fields that hold an entity over all components, component by
/// component, each in field order: the output pins of a node.
pub open spec fn entity_fields(cs: Seq<ComponentInfo>) -> Seq<FieldInfo>
    decreases cs.len(),
{
    if cs.len() == 0 {
        Seq::empty()
    } else {
        entity_fields(cs.drop_last()) + entity_fields_of(cs.last().fields@)
    }
}

/// The names of a sequence of fields.
pub open spec fn field_names(fs: Seq<FieldInfo>) -> Seq<Seq<char>> {
    fs.map_values(|f: FieldInfo| f.name@)
}

/// The decimal digits of `n`, as `usize`'s `Display` writes them.
pub open spec fn decimal(n: nat) -> Seq<char>
    decreases n,
{
    if n < 10 {
        seq![(48 + n) as char]
    } else {
        decimal(n / 10).push((48 + n % 10) as char)
    }
}

/// The digit `d` as a one-character string.
fn digit_str(d: usize) -> (r: &'static str)
    requires
        d < 10,
    ensures
        r@ == seq![(48 + d) as char],
{
    match d {
        0 => {
            proof {
                reveal_strlit("0");
            }
            "0"
        },
        1 => {
            proof {
                reveal_strlit("1");
            }
            "1"
        },
        2 => {
            proof {
                reveal_strlit("2");
            }
            "2"
        },
        3 => {
            proof {
                reveal_strlit("3");
            }
            "3"
        },
        4 => {
            proof {
                reveal_strlit("4");
            }
            "4"
        },
        5 => {
            proof {
                reveal_strlit("5");
            }
            "5"
        },
        6 => {
            proof {
                reveal_strlit("6");
            }
            "6"
        },
        7 => {
            proof {
                reveal_strlit("7");
            }
            "7"
        },
        8 => {
            proof {
                reveal_strlit("8");
            }
            "8"
        },
        _ => {
            proof {
                reveal_strlit("9");
            }
            "9"
        },
    }
}

/// `n` in decimal.
fn usize_to_string(n: usize) -> (r: String)
    ensures
        r@ == decimal(n as nat),
    decreases n,
{
    let last = digit_str(n % 10);
    if n < 10 {
        String::from_str(last)
    } else {
        let mut s = usize_to_string(n / 10);
        s.append(last);
        s
    }
}

/// Whether a field's type name marks it as holding an entity.
fn field_holds_entity(f: &FieldInfo) -> (r: bool)
    ensures
        r == is_entity_field(*f),
{
    str_eq(f.field_type_name.as_str(), "bevy_ecs::entity::Entity")
}

proof fn lemma_take_step<A>(s: Seq<A>, i: int)
    requires
        0 <= i < s.len(),
    ensures
        s.take(i + 1).drop_last() == s.take(i),
        s.take(i + 1).last() == s[i],
{
    assert(s.take(i + 1).drop_last() =~= s.take(i));
}

/// The names of the fields of `components` that hold an entity, in pin order.
pub fn entity_field_names(components: &Vec<ComponentInfo>) -> (r: Vec<String>)
    ensures
        r@.map_values(|s: String| s@) == field_names(entity_fields(components@)),
{
    let mut out: Vec<String> = Vec::new();
    let mut i: usize = 0;
    while i < components.len()
        invariant
            i <= components@.len(),
            out@.map_values(|s: String| s@) == field_names(entity_fields(components@.take(i as int))),
        decreases components.len() - i,
    {
        let fields = &components[i].fields;
        let ghost before = entity_fields(components@.take(i as int));
        let mut j: usize = 0;
        while j < fields.len()
            invariant
                i < components@.len(),
                fields@ == components@[i as int].fields@,
                j <= fields@.len(),
                before == entity_fields(components@.take(i as int)),
                out@.map_values(|s: String| s@) == field_names(before + entity_fields_of(fields@.take(j as int))),
            decreases fields.len() - j,
        {
            proof {
                lemma_take_step(fields@, j as int);
            }
            let f = &fields[j];
            if field_holds_entity(f) {
                let ghost prev = out@;
                out.push(f.name.clone());
                proof {
                    let acc = before + entity_fields_of(fields@.take(j as int));
                    assert(before + entity_fields_of(fields@.take(j as int + 1)) =~= acc.push(*f));
                    assert(out@ =~= prev.push(out@.last()));
                    assert(out@.map_values(|s: String| s@) =~= prev.map_values(|s: String| s@).push(f.name@));
                    assert(out@.map_values(|s: String| s@) =~= field_names(acc.push(*f)));
                }
            } else {
                proof {
                    assert(entity_fields_of(fields@.take(j as int + 1)) == entity_fields_of(fields@.take(j as int)));
                }
            }
            j = j + 1;
        }
        proof {
            lemma_take_step(components@, i as int);
            assert(fields@.take(fields@.len() as int) =~= fields@);
        }
        i = i + 1;
    }
    proof {
        assert(components@.take(components@.len() as int) =~= components@);
    }
    out
}

impl DemoNode {
    /// The node's display name.
    pub fn name(&self) -> (r: &str)
        ensures
            r@ == (match self {
                DemoNode::Entity(n) => n.name@,
            }),
    {
        match self {
            DemoNode::Entity(entity_node) => entity_node.name.as_str(),
        }
    }

    /// The node's title: its name.
    pub fn title(&self) -> (r: String)
        ensures
            r@ == (match self {
                DemoNode::Entity(n) => n.name@,
            }),
    {
        String::from_str(self.name())
    }

    /// The number of input pins: one, the connection to this entity.
    pub fn inputs(&self) -> (r: usize)
        ensures
            r == 1,
    {
        match self {
            DemoNode::Entity(_) => 1,
        }
    }

    /// The number of output pins: the component fields that hold an entity.
    pub fn outputs(&self) -> (r: usize)
        ensures
            r == (match self {
                DemoNode::Entity(n) => entity_fields(n.components@).len(),
            }),
    {
        match self {
            DemoNode::Entity(entity_node) => {
                let names = entity_field_names(&entity_node.components);
                proof {
                    assert(names@.map_values(|s: String| s@).len() == names@.len());
                }
                names.len()
            },
        }
    }

    /// The label of output pin `output`: the name of the `output`-th field that
    /// holds an entity, or nothing where there is no such pin.
    pub fn output_label(&self, output: usize) -> (r: Option<String>)
        ensures
            (match self {
                DemoNode::Entity(n) => {
                    let pins = entity_fields(n.components@);
                    match r {
                        Some(s) => output < pins.len() && s@ == pins[output as int].name@,
                        None => output >= pins.len(),
                    }
                },
            }),
    {
        match self {
            DemoNode::Entity(entity_node) => {
                let names = entity_field_names(&entity_node.components);
                proof {
                    assert(names@.map_values(|s: String| s@).len() == names@.len());
                }
                if output < names.len() {
                    proof {
                        assert(names@.map_values(|s: String| s@)[output as int] == names@[output as int]@);
                    }
                    Some(names[output].clone())
                } else {
                    None
                }
            },
        }
    }

    /// The hover text of a node: its entity and how many components it has.
    pub fn hover_component_count(&self) -> (r: String)
        ensures
            r@ == (match self {
                DemoNode::Entity(n) => decimal(n.components@.len()) + " components"@,
            }),
    {
        match self {
            DemoNode::Entity(entity_node) => {
                let mut s = usize_to_string(entity_node.components.len());
                s.append(" components");
                s
            },
        }
    }
}

impl EntityNode {
    /// The node that the "Add Entity" menu adds as the `count`-th node of the
    /// graph: named after its place, with no components yet.
    pub fn numbered(entity: EntityId, count: usize) -> (r: Self)
        ensures
            r.entity == entity,
            r.name@ == "Entity "@ + decimal(count as nat),
            r.components@.len() == 0,
    {
        let mut name = String::from_str("Entity ");
        let digits = usize_to_string(count);
        name.append(digits.as_str());
        EntityNode { entity, name, components: Vec::new() }
    }
}

/// An output pin: a node and the position of the pin among its outputs.
#[derive(Clone, Copy, PartialEq, Eq, Structural, Debug)]
pub struct OutPinId {
    pub node: usize,
    pub output: usize,
}

/// An input pin: a node and the position of the pin among its inputs.
#[derive(Clone, Copy, PartialEq, Eq, Structural, Debug)]
pub struct InPinId {
    pub node: usize,
    pub input: usize,
}

/// A change to the wires of the graph.
#[derive(Clone, Copy, PartialEq, Eq, Structural, Debug)]
pub enum WireOp {
    Disconnect(OutPinId, InPinId),
    Connect(OutPinId, InPinId),
}

/// The wires after one change.
pub open spec fn apply_wire_op(wires: Set<(OutPinId, InPinId)>, op: WireOp) -> Set<(OutPinId, InPinId)> {
    match op {
        WireOp::Disconnect(o, i) => wires.remove((o, i)),
        WireOp::Connect(o, i) => wires.insert((o, i)),
    }
}

/// The wires after a list of changes, applied in order.
pub open spec fn apply_wire_ops(wires: Set<(OutPinId, InPinId)>, ops: Seq<WireOp>) -> Set<(OutPinId, InPinId)>
    decreases ops.len(),
{
    if ops.len() == 0 {
        wires
    } else {
        apply_wire_op(apply_wire_ops(wires, ops.drop_last()), ops.last())
    }
}

/// The changes that connecting `from` to `to` makes: an input pin holds one
/// wire, so every wire now reaching `to` (its `remotes`) is cut first, in
/// order, and then `from` is wired to it.
pub fn connect_ops(from: OutPinId, to: InPinId, remotes: &Vec<OutPinId>) -> (r: Vec<WireOp>)
    requires
        remotes@.len() < usize::MAX,
    ensures
        r@.len() == remotes@.len() + 1,
        forall|k: int| 0 <= k < remotes@.len() ==> #[trigger] r@[k] == WireOp::Disconnect(remotes@[k], to),
        r@.last() == WireOp::Connect(from, to),
{
    let mut ops: Vec<WireOp> = Vec::new();
    let mut k: usize = 0;
    while k < remotes.len()
        invariant
            k <= remotes@.len(),
            ops@.len() == k,
            forall|j: int| 0 <= j < k ==> #[trigger] ops@[j] == WireOp::Disconnect(remotes@[j], to),
        decreases remotes.len() - k,
    {
        ops.push(WireOp::Disconnect(remotes[k], to));
        k = k + 1;
    }
    ops.push(WireOp::Connect(from, to));
    ops
}

/// Cutting each wire of `remotes` into `to` leaves no wire into `to` from any
/// of them, and every other wire as it was.
proof fn lemma_disconnect_all(wires: Set<(OutPinId, InPinId)>, to: InPinId, ops: Seq<WireOp>, remotes: Seq<OutPinId>)
    requires
        ops.len() == remotes.len(),
        forall|k: int| 0 <= k < remotes.len() ==> #[trigger] ops[k] == WireOp::Disconnect(remotes[k], to),
    ensures
        forall|w: (OutPinId, InPinId)| #[trigger] apply_wire_ops(wires, ops).contains(w) <==> (wires.contains(w) && !(
            w.1 == to && remotes.contains(w.0))),
    decreases ops.len(),
{
    if ops.len() > 0 {
        let n = ops.len() - 1;
        let rs = remotes.drop_last();
        assert forall|k: int| 0 <= k < rs.len() implies #[trigger] ops.drop_last()[k] == WireOp::Disconnect(rs[k], to) by {
            assert(ops.drop_last()[k] == ops[k]);
        }
        lemma_disconnect_all(wires, to, ops.drop_last(), rs);
        let prev = apply_wire_ops(wires, ops.drop_last());
        assert(ops.last() == WireOp::Disconnect(remotes[n], to));
        assert(apply_wire_ops(wires, ops) == prev.remove((remotes[n], to)));
        assert forall|x: OutPinId| remotes.contains(x) <==> (rs.contains(x) || x == remotes[n]) by {
            if remotes.contains(x) {
                let k = choose|k: int| 0 <= k < remotes.len() && remotes[k] == x;
                if k < n {
                    assert(rs[k] == x);
                }
            }
            if rs.contains(x) {
                let k = choose|k: int| 0 <= k < rs.len() && rs[k] == x;
                assert(remotes[k] == x);
            }
        }
    }
}

/// Connecting `from` to `to`, where `remotes` lists every wire into `to`,
/// leaves `to` with exactly one wire, the one from `from`, and every wire into
/// another input pin as it was.
pub proof fn law_input_holds_one_wire(
    wires: Set<(OutPinId, InPinId)>,
    from: OutPinId,
    to: InPinId,
    remotes: Seq<OutPinId>,
    ops: Seq<WireOp>,
)
    requires
        forall|o: OutPinId| #[trigger] wires.contains((o, to)) ==> remotes.contains(o),
        ops.len() == remotes.len() + 1,
        forall|k: int| 0 <= k < remotes.len() ==> #[trigger] ops[k] == WireOp::Disconnect(remotes[k], to),
        ops.last() == WireOp::Connect(from, to),
    ensures
        forall|o: OutPinId| #[trigger] apply_wire_ops(wires, ops).contains((o, to)) <==> o == from,
        forall|w: (OutPinId, InPinId)| w.1 != to ==> (#[trigger] apply_wire_ops(wires, ops).contains(w) <==> wires.contains(w)),
{
    let cut = ops.drop_last();
    assert forall|k: int| 0 <= k < remotes.len() implies #[trigger] cut[k] == WireOp::Disconnect(remotes[k], to) by {
        assert(cut[k] == ops[k]);
    }
    lemma_disconnect_all(wires, to, cut, remotes);
    assert(apply_wire_ops(wires, ops) == apply_wire_ops(wires, cut).insert((from, to)));
    assert forall|o: OutPinId| #[trigger] apply_wire_ops(wires, ops).contains((o, to)) <==> o == from by {
        assert(apply_wire_ops(wires, cut).contains((o, to)) ==> !remotes.contains(o) && wires.contains((o, to)));
    }
}

} // verus!
