use vstd::prelude::*;
use crate::text::{stable_name_order, name_index_lt, is_permutation, strs};

verus! {

/// What `disqualified::ShortName` prints for a type name: the name with the
/// module path of every type in it left out.
pub uninterp spec fn short_type_name(name: Seq<char>) -> Seq<char>;

/// The short form of a type name, as `disqualified::ShortName` formats it; the
/// result depends on the name alone.
#[verifier::external_body]
pub fn pretty_type_name_str(val: &str) -> (r: String)
    ensures
        r@ == short_type_name(val@),
{
    format!("{:?}", disqualified::ShortName(val))
}

/// The components of an entity as the inspector lists them: each full type
/// name shortened, then sorted by short name, equal names keeping their order.
/// Each entry is the short name and the position of the component it names.
pub fn component_display_order(type_names: &Vec<String>) -> (r: Vec<(String, usize)>)
    ensures
        r@.len() == type_names@.len(),
        is_permutation(r@.map_values(|e: (String, usize)| e.1), type_names@.len()),
        forall|k: int| 0 <= k < r@.len() ==> (#[trigger] r@[k]).0@ == short_type_name(type_names@[r@[k].1 as int]@),
        forall|a: int, b: int|
            0 <= a < b < r@.len() ==> name_index_lt(
                Seq::new(type_names@.len(), |i: int| short_type_name(type_names@[i]@)),
                (#[trigger] r@[a]).1 as int,
                (#[trigger] r@[b]).1 as int,
            ),
{
    let mut short: Vec<String> = Vec::new();
    let mut i: usize = 0;
    while i < type_names.len()
        invariant
            i <= type_names@.len(),
            short@.len() == i,
            forall|j: int| 0 <= j < i ==> (#[trigger] short@[j])@ == short_type_name(type_names@[j]@),
        decreases type_names.len() - i,
    {
        short.push(pretty_type_name_str(type_names[i].as_str()));
        i = i + 1;
    }
    let ghost shorts = Seq::new(type_names@.len(), |i: int| short_type_name(type_names@[i]@));
    assert(strs(short@) =~= shorts);
    let order = stable_name_order(&short);
    let mut out: Vec<(String, usize)> = Vec::new();
    let mut k: usize = 0;
    while k < order.len()
        invariant
            strs(short@) == shorts,
            short@.len() == type_names@.len(),
            forall|j: int| 0 <= j < short@.len() ==> (#[trigger] short@[j])@ == short_type_name(type_names@[j]@),
            is_permutation(order@, short@.len()),
            k <= order@.len(),
            out@.len() == k,
            forall|j: int| 0 <= j < k ==> (#[trigger] out@[j]).1 == order@[j] && out@[j].0@ == short@[order@[j] as int]@,
        decreases order.len() - k,
    {
        let idx = order[k];
        out.push((short[idx].clone(), idx));
        k = k + 1;
    }
    proof {
        let idxs = out@.map_values(|e: (String, usize)| e.1);
        assert(idxs =~= order@);
    }
    out
}

/// Whether the inspector draws a component: it must have a Rust type and
/// take up room (a marker with no data is left out).
pub fn shows_component(has_type_id: bool, size: usize) -> (r: bool)
    ensures
        r == (has_type_id && size != 0),
{
    has_type_id && size != 0
}

} // verus!
