use vstd::prelude::*;
use vstd::string::*;
use crate::text::{str_eq, to_lowercase, lowercase_of, contains_str, has_occurrence, seq_lt, strictly_sorted, strs, str_lt, lemma_seq_lt_total, lemma_seq_lt_transitive, lemma_seq_lt_irreflexive, split_str, split_on};

verus! {

/// One entry of the component catalogue: a registered component type, or a
/// namespace of further entries keyed by path segment.
#[derive(Debug)]
pub enum ComponentNode {
    /// Full type path of a component.
    Component(String),
    /// Nested entries, kept in increasing key order.
    Namespace(Vec<(String, ComponentNode)>),
}

/// Component types organised by their module path.
#[derive(Debug)]
pub struct ComponentHierarchy {
    /// Top-level entries, kept in increasing key order.
    pub components: Vec<(String, ComponentNode)>,
}

/// Keys of a list of catalogue entries.
pub open spec fn entry_keys(e: Seq<(String, ComponentNode)>) -> Seq<Seq<char>> {
    e.map_values(|p: (String, ComponentNode)| p.0@)
}

/// Some entry has this key.
pub open spec fn has_key(e: Seq<(String, ComponentNode)>, key: Seq<char>) -> bool {
    exists|i: int| 0 <= i < e.len() && (#[trigger] e[i]).0@ == key
}

/// The index of an entry with this key (meaningful when there is one).
pub open spec fn key_index(e: Seq<(String, ComponentNode)>, key: Seq<char>) -> int {
    choose|i: int| 0 <= i < e.len() && (#[trigger] e[i]).0@ == key
}

/// The node stored under `key`, if any.
pub open spec fn lookup(e: Seq<(String, ComponentNode)>, key: Seq<char>) -> Option<ComponentNode> {
    if has_key(e, key) {
        Some(e[key_index(e, key)].1)
    } else {
        None
    }
}

/// The node reached by following `path` segment by segment through namespaces.
pub open spec fn lookup_path(e: Seq<(String, ComponentNode)>, path: Seq<Seq<char>>) -> Option<ComponentNode>
    decreases path.len(),
{
    if path.len() == 0 {
        None
    } else {
        match lookup(e, path[0]) {
            None => None,
            Some(n) => if path.len() == 1 {
                Some(n)
            } else {
                match n {
                    ComponentNode::Namespace(v) => lookup_path(v@, path.drop_first()),
                    ComponentNode::Component(_) => None,
                }
            },
        }
    }
}

/// Keys strictly increase at every level of the catalogue.
pub open spec fn entries_well_formed(e: Seq<(String, ComponentNode)>) -> bool
    decreases e,
{
    &&& strictly_sorted(entry_keys(e))
    &&& forall|i: int| 0 <= i < e.len() ==> match (#[trigger] e[i]).1 {
        ComponentNode::Namespace(v) => entries_well_formed(v@),
        ComponentNode::Component(_) => true,
    }
}


/// `a` is a prefix of `b`.
pub open spec fn is_prefix_of(a: Seq<Seq<char>>, b: Seq<Seq<char>>) -> bool {
    a.len() <= b.len() && b.subrange(0, a.len() as int) == a
}

/// Some proper, nonempty prefix of `p` already names a component, so no
/// namespace can be opened there.
pub open spec fn blocked(e: Seq<(String, ComponentNode)>, p: Seq<Seq<char>>) -> bool {
    exists|k: int|
        1 <= k < p.len() && (#[trigger] lookup_path(e, p.subrange(0, k))) is Some && lookup_path(
            e,
            p.subrange(0, k),
        )->0 is Component
}

/// What inserting the component `full` under the segment path `p` leaves in
/// the catalogue `r`, starting from `e`: unless a prefix of `p` is taken by a
/// component, `p` now names `full`, every proper prefix of `p` is a namespace,
/// nothing lies below `p`, and every path unrelated to `p` is unchanged.
pub open spec fn inserted_component(
    e: Seq<(String, ComponentNode)>,
    r: Seq<(String, ComponentNode)>,
    p: Seq<Seq<char>>,
    full: Seq<char>,
) -> bool {
    if blocked(e, p) {
        r == e
    } else {
        placed_component(e, r, p, full)
    }
}

/// `r` is `e` with the component `full` placed at the segment path `p`: `p`
/// names `full`, every proper prefix of `p` is a namespace, nothing lies
/// below `p`, and every path unrelated to `p` is unchanged.
pub open spec fn placed_component(
    e: Seq<(String, ComponentNode)>,
    r: Seq<(String, ComponentNode)>,
    p: Seq<Seq<char>>,
    full: Seq<char>,
) -> bool {
    {
        &&& lookup_path(r, p) is Some
        &&& lookup_path(r, p)->0 is Component
        &&& lookup_path(r, p)->0->Component_0@ == full
        &&& forall|q: Seq<Seq<char>>|
            is_prefix_of(q, p) && 0 < q.len() < p.len() ==> (#[trigger] lookup_path(r, q)) is Some
                && lookup_path(r, q)->0 is Namespace
        &&& forall|q: Seq<Seq<char>>|
            is_prefix_of(p, q) && q.len() > p.len() ==> (#[trigger] lookup_path(r, q)) is None
        &&& forall|q: Seq<Seq<char>>|
            !is_prefix_of(q, p) && !is_prefix_of(p, q) ==> #[trigger] lookup_path(r, q) == lookup_path(e, q)
    }
}

/// With strictly increasing keys, `lookup` finds the entry at `i` under its key.
pub proof fn lemma_lookup_at(e: Seq<(String, ComponentNode)>, i: int)
    requires
        strictly_sorted(entry_keys(e)),
        0 <= i < e.len(),
    ensures
        lookup(e, e[i].0@) == Some(e[i].1),
{
    let key = e[i].0@;
    assert(has_key(e, key));
    let k = key_index(e, key);
    assert(entry_keys(e)[k] == e[k].0@);
    assert(entry_keys(e)[i] == e[i].0@);
    if k < i {
        assert(seq_lt(entry_keys(e)[k], entry_keys(e)[i]));
        lemma_seq_lt_irreflexive(key);
    } else if k > i {
        assert(seq_lt(entry_keys(e)[i], entry_keys(e)[k]));
        lemma_seq_lt_irreflexive(key);
    }
}

/// Replacing the value stored under an existing key.
pub proof fn lemma_lookup_update(e: Seq<(String, ComponentNode)>, pos: int, entry: (String, ComponentNode))
    requires
        strictly_sorted(entry_keys(e)),
        0 <= pos < e.len(),
        entry.0@ == e[pos].0@,
    ensures
        strictly_sorted(entry_keys(e.update(pos, entry))),
        forall|key: Seq<char>|
            #[trigger] lookup(e.update(pos, entry), key) == if key == entry.0@ {
                Some(entry.1)
            } else {
                lookup(e, key)
            },
{
    let n = e.update(pos, entry);
    assert(entry_keys(n) =~= entry_keys(e));
    assert forall|key: Seq<char>|
        #[trigger] lookup(n, key) == if key == entry.0@ { Some(entry.1) } else { lookup(e, key) } by {
        if key == entry.0@ {
            lemma_lookup_at(n, pos);
        } else {
            if has_key(e, key) {
                let k = choose|k: int| 0 <= k < e.len() && (#[trigger] e[k]).0@ == key;
                lemma_lookup_at(e, k);
                lemma_lookup_at(n, k);
            } else {
                assert(!has_key(n, key));
            }
        }
    }
}

/// Adding an entry under a new key at the position that keeps keys increasing.
pub proof fn lemma_lookup_insert(e: Seq<(String, ComponentNode)>, pos: int, entry: (String, ComponentNode))
    requires
        strictly_sorted(entry_keys(e)),
        0 <= pos <= e.len(),
        forall|j: int| 0 <= j < pos ==> seq_lt(#[trigger] e[j].0@, entry.0@),
        forall|j: int| pos <= j < e.len() ==> seq_lt(entry.0@, #[trigger] e[j].0@),
    ensures
        strictly_sorted(entry_keys(e.insert(pos, entry))),
        forall|key: Seq<char>|
            #[trigger] lookup(e.insert(pos, entry), key) == if key == entry.0@ {
                Some(entry.1)
            } else {
                lookup(e, key)
            },
{
    let n = e.insert(pos, entry);
    let ks = entry_keys(n);
    assert forall|a: int, b: int| 0 <= a < b < ks.len() implies seq_lt(#[trigger] ks[a], #[trigger] ks[b]) by {
        assert(ks[a] == n[a].0@);
        assert(ks[b] == n[b].0@);
        if b < pos {
            assert(seq_lt(entry_keys(e)[a], entry_keys(e)[b]));
        } else if b == pos {
        } else if a < pos {
            lemma_seq_lt_transitive(n[a].0@, entry.0@, n[b].0@);
        } else if a == pos {
        } else {
            assert(seq_lt(entry_keys(e)[a - 1], entry_keys(e)[b - 1]));
        }
    }
    assert forall|key: Seq<char>|
        #[trigger] lookup(n, key) == if key == entry.0@ { Some(entry.1) } else { lookup(e, key) } by {
        lemma_seq_lt_irreflexive(entry.0@);
        if key == entry.0@ {
            lemma_lookup_at(n, pos);
        } else {
            if has_key(e, key) {
                let k = choose|k: int| 0 <= k < e.len() && (#[trigger] e[k]).0@ == key;
                lemma_lookup_at(e, k);
                if k < pos {
                    lemma_lookup_at(n, k);
                } else {
                    assert(n[k + 1] == e[k]);
                    lemma_lookup_at(n, k + 1);
                }
            } else {
                if has_key(n, key) {
                    let k = choose|k: int| 0 <= k < n.len() && (#[trigger] n[k]).0@ == key;
                    if k < pos {
                        assert(e[k].0@ == key);
                    } else if k > pos {
                        assert(e[k - 1].0@ == key);
                    }
                }
            }
        }
    }
}

/// A key that is not there is not found.
pub proof fn lemma_lookup_absent(e: Seq<(String, ComponentNode)>, key: Seq<char>)
    requires
        forall|j: int| 0 <= j < e.len() ==> (#[trigger] e[j]).0@ != key,
    ensures
        lookup(e, key) is None,
{
}

/// Two paths that agree on their first segment are prefixes of each other
/// exactly when their tails are.
pub proof fn lemma_prefix_tail(q: Seq<Seq<char>>, p: Seq<Seq<char>>)
    requires
        q.len() > 0,
        p.len() > 0,
        q[0] == p[0],
    ensures
        is_prefix_of(q, p) <==> is_prefix_of(q.drop_first(), p.drop_first()),
{
    if q.len() <= p.len() {
        if p.subrange(0, q.len() as int) == q {
            assert(p.drop_first().subrange(0, q.drop_first().len() as int) =~= q.drop_first());
        }
        if p.drop_first().subrange(0, q.drop_first().len() as int) == q.drop_first() {
            assert forall|j: int| 0 <= j < q.len() implies p.subrange(0, q.len() as int)[j] == q[j] by {
                if j > 0 {
                    assert(p.drop_first().subrange(0, q.drop_first().len() as int)[j - 1] == q.drop_first()[j - 1]);
                }
            }
            assert(p.subrange(0, q.len() as int) =~= q);
        }
    }
}

/// A node whose nested entries, if any, are well formed.
pub open spec fn node_well_formed(n: ComponentNode) -> bool {
    match n {
        ComponentNode::Namespace(v) => entries_well_formed(v@),
        ComponentNode::Component(_) => true,
    }
}

/// Well-formedness survives replacing or adding a well-formed entry in key order.
pub proof fn lemma_well_formed_entries(e: Seq<(String, ComponentNode)>, n: Seq<(String, ComponentNode)>)
    requires
        strictly_sorted(entry_keys(n)),
        forall|i: int| 0 <= i < n.len() ==> node_well_formed(#[trigger] n[i].1),
    ensures
        entries_well_formed(n),
{
}

/// The first position whose key is not below `key`.
pub fn key_position(e: &Vec<(String, ComponentNode)>, key: &String) -> (pos: usize)
    requires
        strictly_sorted(entry_keys(e@)),
    ensures
        pos <= e@.len(),
        forall|j: int| 0 <= j < pos ==> seq_lt(#[trigger] e@[j].0@, key@),
        forall|j: int| pos <= j < e@.len() ==> !seq_lt(#[trigger] e@[j].0@, key@),
{
    let mut pos: usize = 0;
    while pos < e.len()
        invariant
            strictly_sorted(entry_keys(e@)),
            pos <= e@.len(),
            forall|j: int| 0 <= j < pos ==> seq_lt(#[trigger] e@[j].0@, key@),
        ensures
            pos <= e@.len(),
            forall|j: int| 0 <= j < pos ==> seq_lt(#[trigger] e@[j].0@, key@),
            pos < e@.len() ==> !seq_lt(e@[pos as int].0@, key@),
        decreases e.len() - pos,
    {
        if str_lt(e[pos].0.as_str(), key.as_str()) {
            pos = pos + 1;
        } else {
            break;
        }
    }
    proof {
        assert forall|j: int| pos <= j < e@.len() implies !seq_lt(#[trigger] e@[j].0@, key@) by {
            if j > pos {
                assert(seq_lt(entry_keys(e@)[pos as int], entry_keys(e@)[j]));
                lemma_seq_lt_total(e@[pos as int].0@, key@);
                if seq_lt(e@[j].0@, key@) {
                    if e@[pos as int].0@ == key@ {
                    } else {
                        lemma_seq_lt_transitive(key@, e@[pos as int].0@, e@[j].0@);
                        lemma_seq_lt_total(key@, e@[j].0@);
                    }
                    lemma_seq_lt_transitive(e@[pos as int].0@, e@[j].0@, key@);
                    lemma_seq_lt_total(e@[pos as int].0@, key@);
                }
            }
        }
    }
    pos
}


/// Placing a component where the path ends at this level.
proof fn lemma_place_here(
    e: Seq<(String, ComponentNode)>,
    r: Seq<(String, ComponentNode)>,
    p: Seq<Seq<char>>,
    full: String,
)
    requires
        p.len() == 1,
        lookup(r, p[0]) == Some(ComponentNode::Component(full)),
        forall|key: Seq<char>| key != p[0] ==> #[trigger] lookup(r, key) == lookup(e, key),
    ensures
        placed_component(e, r, p, full@),
{
    assert forall|q: Seq<Seq<char>>| is_prefix_of(p, q) && q.len() > p.len() implies (#[trigger] lookup_path(r, q)) is None by {
        assert(q[0] == p[0]);
    }
    assert forall|q: Seq<Seq<char>>|
        !is_prefix_of(q, p) && !is_prefix_of(p, q) implies #[trigger] lookup_path(r, q) == lookup_path(e, q) by {
        if q.len() > 0 {
            if q[0] == p[0] {
                assert(q.subrange(0, 1) =~= p);
            }
            assert(lookup(r, q[0]) == lookup(e, q[0]));
        } else {
            assert(p.subrange(0, 0) =~= q);
        }
    }
}

/// Placing a component below a namespace entry whose contents went from `v`
/// to `child`.
proof fn lemma_place_below(
    e: Seq<(String, ComponentNode)>,
    r: Seq<(String, ComponentNode)>,
    p: Seq<Seq<char>>,
    full: Seq<char>,
    v: Seq<(String, ComponentNode)>,
    child: Vec<(String, ComponentNode)>,
)
    requires
        p.len() > 1,
        lookup(r, p[0]) == Some(ComponentNode::Namespace(child)),
        forall|key: Seq<char>| key != p[0] ==> #[trigger] lookup(r, key) == lookup(e, key),
        placed_component(v, child@, p.drop_first(), full),
        forall|q: Seq<Seq<char>>| q.len() > 0 && q[0] == p[0] ==> #[trigger] lookup_path(e, q) == if q.len() == 1 {
            lookup(e, p[0])
        } else {
            lookup_path(v, q.drop_first())
        },
    ensures
        placed_component(e, r, p, full),
{
    let pt = p.drop_first();
    assert(lookup_path(r, p) == lookup_path(child@, pt));
    assert forall|q: Seq<Seq<char>>|
        is_prefix_of(q, p) && 0 < q.len() < p.len() implies (#[trigger] lookup_path(r, q)) is Some && lookup_path(r, q)->0 is Namespace by {
        assert(q[0] == p.subrange(0, q.len() as int)[0]);
        if q.len() > 1 {
            lemma_prefix_tail(q, p);
            assert(lookup_path(r, q) == lookup_path(child@, q.drop_first()));
            assert(is_prefix_of(q.drop_first(), pt));
        }
    }
    assert forall|q: Seq<Seq<char>>| is_prefix_of(p, q) && q.len() > p.len() implies (#[trigger] lookup_path(r, q)) is None by {
        assert(q[0] == q.subrange(0, p.len() as int)[0]);
        lemma_prefix_tail(p, q);
        assert(lookup_path(r, q) == lookup_path(child@, q.drop_first()));
    }
    assert forall|q: Seq<Seq<char>>|
        !is_prefix_of(q, p) && !is_prefix_of(p, q) implies #[trigger] lookup_path(r, q) == lookup_path(e, q) by {
        if q.len() == 0 {
            assert(p.subrange(0, 0) =~= q);
        } else if q[0] != p[0] {
            assert(lookup(r, q[0]) == lookup(e, q[0]));
        } else {
            if q.len() == 1 {
                assert(p.subrange(0, 1) =~= q);
            }
            lemma_prefix_tail(q, p);
            lemma_prefix_tail(p, q);
            assert(lookup_path(r, q) == lookup_path(child@, q.drop_first()));
            assert(lookup_path(child@, q.drop_first()) == lookup_path(v, q.drop_first()));
        }
    }
}


/// Nothing is found in an empty catalogue.
proof fn lemma_lookup_path_empty(q: Seq<Seq<char>>)
    ensures
        lookup_path(Seq::<(String, ComponentNode)>::empty(), q) is None,
{
    assert(!has_key(Seq::<(String, ComponentNode)>::empty(), q[0]));
}

/// Places the component `full` at the segments `parts[idx..]` of `entries`,
/// opening namespaces on the way.
fn place_component(
    entries: Vec<(String, ComponentNode)>,
    parts: &Vec<String>,
    idx: usize,
    full: &String,
) -> (r: Vec<(String, ComponentNode)>)
    requires
        idx < parts@.len(),
        entries_well_formed(entries@),
        !blocked(entries@, strs(parts@).subrange(idx as int, parts@.len() as int)),
    ensures
        entries_well_formed(r@),
        placed_component(entries@, r@, strs(parts@).subrange(idx as int, parts@.len() as int), full@),
    decreases parts@.len() - idx,
{
    let mut entries = entries;
    let ghost e = entries@;
    let ghost p = strs(parts@).subrange(idx as int, parts@.len() as int);
    let key = parts[idx].clone();
    assert(key@ == p[0]);
    let pos = key_position(&entries, &key);
    let found = pos < entries.len() && entries[pos].0 == key;
    proof {
        if !found {
            assert forall|j: int| pos <= j < e.len() implies seq_lt(key@, #[trigger] e[j].0@) by {
                lemma_seq_lt_total(key@, e[j].0@);
                if j > pos {
                    assert(seq_lt(entry_keys(e)[pos as int], entry_keys(e)[j]));
                    lemma_seq_lt_total(key@, e[pos as int].0@);
                    if e[j].0@ == key@ {
                        lemma_seq_lt_transitive(e[pos as int].0@, e[j].0@, e[pos as int].0@);
                        lemma_seq_lt_irreflexive(e[pos as int].0@);
                    }
                }
            }
            assert forall|j: int| 0 <= j < e.len() implies (#[trigger] e[j]).0@ != key@ by {
                if j < pos {
                    lemma_seq_lt_irreflexive(key@);
                } else {
                    lemma_seq_lt_irreflexive(key@);
                }
            }
            lemma_lookup_absent(e, key@);
        } else {
            lemma_lookup_at(e, pos as int);
        }
    }
    if idx == parts.len() - 1 {
        let entry = (key, ComponentNode::Component(full.clone()));
        if found {
            let _old = entries.remove(pos);
            entries.insert(pos, entry);
            proof {
                assert(entries@ =~= e.update(pos as int, entry));
                lemma_lookup_update(e, pos as int, entry);
            }
        } else {
            entries.insert(pos, entry);
            proof {
                lemma_lookup_insert(e, pos as int, entry);
            }
        }
        proof {
            assert(p.len() == 1);
            lemma_place_here(e, entries@, p, *full);
            assert forall|i: int| 0 <= i < entries@.len() implies node_well_formed(#[trigger] entries@[i].1) by {
                if i != pos {
                    if i < pos {
                        assert(entries@[i] == e[i]);
                    } else if found {
                        assert(entries@[i] == e[i]);
                    } else {
                        assert(entries@[i] == e[i - 1]);
                    }
                }
            }
            lemma_well_formed_entries(e, entries@);
        }
        return entries;
    }
    let ghost pt = p.drop_first();
    assert(pt =~= strs(parts@).subrange(idx + 1, parts@.len() as int));
    if found {
        let (k, node) = entries.remove(pos);
        match node {
            ComponentNode::Namespace(v) => {
                proof {
                    assert(lookup(e, p[0]) == Some(ComponentNode::Namespace(v)));
                    assert(lookup_path(e, p.subrange(0, 1)) == lookup(e, p[0]));
                    if blocked(v@, pt) {
                        let k2 = choose|k2: int|
                            1 <= k2 < pt.len() && (#[trigger] lookup_path(v@, pt.subrange(0, k2))) is Some
                                && lookup_path(v@, pt.subrange(0, k2))->0 is Component;
                        assert(p.subrange(0, k2 + 1).drop_first() =~= pt.subrange(0, k2));
                        assert(lookup_path(e, p.subrange(0, k2 + 1)) == lookup_path(v@, pt.subrange(0, k2)));
                    }
                    assert(entries_well_formed(v@));
                }
                let child = place_component(v, parts, idx + 1, full);
                let entry = (k, ComponentNode::Namespace(child));
                entries.insert(pos, entry);
                proof {
                    assert(entries@ =~= e.update(pos as int, entry));
                    lemma_lookup_update(e, pos as int, entry);
                    assert forall|q: Seq<Seq<char>>| q.len() > 0 && q[0] == p[0] implies #[trigger] lookup_path(e, q) == if q.len() == 1 {
                        lookup(e, p[0])
                    } else {
                        lookup_path(v@, q.drop_first())
                    } by {
                    }
                    lemma_place_below(e, entries@, p, full@, v@, child);
                    assert forall|i: int| 0 <= i < entries@.len() implies node_well_formed(#[trigger] entries@[i].1) by {
                        if i != pos {
                            assert(entries@[i] == e[i]);
                        }
                    }
                    lemma_well_formed_entries(e, entries@);
                }
                entries
            },
            ComponentNode::Component(c) => {
                proof {
                    assert(lookup(e, p[0]) == Some(ComponentNode::Component(c)));
                    assert(lookup_path(e, p.subrange(0, 1)) == lookup(e, p[0]));
                    assert(blocked(e, p));
                }
                entries.insert(pos, (k, ComponentNode::Component(c)));
                entries
            },
        }
    } else {
        let ghost empty = Seq::<(String, ComponentNode)>::empty();
        proof {
            assert forall|q: Seq<Seq<char>>| true implies !(#[trigger] lookup_path(empty, q) is Some) by {
                lemma_lookup_path_empty(q);
            }
        }
        let fresh: Vec<(String, ComponentNode)> = Vec::new();
        assert(fresh@ =~= empty);
        let child = place_component(fresh, parts, idx + 1, full);
        let entry = (key, ComponentNode::Namespace(child));
        entries.insert(pos, entry);
        proof {
            lemma_lookup_insert(e, pos as int, entry);
            assert forall|q: Seq<Seq<char>>| q.len() > 0 && q[0] == p[0] implies #[trigger] lookup_path(e, q) == if q.len() == 1 {
                lookup(e, p[0])
            } else {
                lookup_path(empty, q.drop_first())
            } by {
                lemma_lookup_path_empty(q.drop_first());
            }
            lemma_place_below(e, entries@, p, full@, empty, child);
            assert forall|i: int| 0 <= i < entries@.len() implies node_well_formed(#[trigger] entries@[i].1) by {
                if i < pos {
                    assert(entries@[i] == e[i]);
                } else if i > pos {
                    assert(entries@[i] == e[i - 1]);
                }
            }
            lemma_well_formed_entries(e, entries@);
        }
        entries
    }
}


/// Whether a proper prefix of `parts[idx..]` already names a component.
fn is_blocked(entries: &Vec<(String, ComponentNode)>, parts: &Vec<String>, idx: usize) -> (b: bool)
    requires
        idx < parts@.len(),
        entries_well_formed(entries@),
    ensures
        b == blocked(entries@, strs(parts@).subrange(idx as int, parts@.len() as int)),
    decreases parts@.len() - idx,
{
    let ghost e = entries@;
    let ghost p = strs(parts@).subrange(idx as int, parts@.len() as int);
    if idx == parts.len() - 1 {
        return false;
    }
    let ghost pt = p.drop_first();
    assert(pt =~= strs(parts@).subrange(idx + 1, parts@.len() as int));
    let key = &parts[idx];
    assert(key@ == p[0]);
    let pos = key_position(entries, key);
    if pos < entries.len() && entries[pos].0 == *key {
        proof {
            lemma_lookup_at(e, pos as int);
            assert(lookup_path(e, p.subrange(0, 1)) == lookup(e, p[0]));
        }
        match &entries[pos].1 {
            ComponentNode::Component(_) => true,
            ComponentNode::Namespace(v) => {
                proof {
                    assert(entries_well_formed(v@));
                    assert forall|k: int| 1 <= k < p.len() implies #[trigger] lookup_path(e, p.subrange(0, k)) == if k == 1 {
                        lookup(e, p[0])
                    } else {
                        lookup_path(v@, pt.subrange(0, k - 1))
                    } by {
                        if k > 1 {
                            assert(p.subrange(0, k).drop_first() =~= pt.subrange(0, k - 1));
                        }
                    }
                    if blocked(v@, pt) {
                        let k2 = choose|k2: int|
                            1 <= k2 < pt.len() && (#[trigger] lookup_path(v@, pt.subrange(0, k2))) is Some
                                && lookup_path(v@, pt.subrange(0, k2))->0 is Component;
                        assert(lookup_path(e, p.subrange(0, k2 + 1)) == lookup_path(v@, pt.subrange(0, k2)));
                    }
                    if blocked(e, p) {
                        let k = choose|k: int|
                            1 <= k < p.len() && (#[trigger] lookup_path(e, p.subrange(0, k))) is Some
                                && lookup_path(e, p.subrange(0, k))->0 is Component;
                        assert(lookup_path(v@, pt.subrange(0, k - 1)) is Some);
                    }
                }
                is_blocked(v, parts, idx + 1)
            },
        }
    } else {
        proof {
            assert forall|j: int| 0 <= j < e.len() implies (#[trigger] e[j]).0@ != key@ by {
                if j > pos {
                    assert(seq_lt(entry_keys(e)[pos as int], entry_keys(e)[j]));
                    lemma_seq_lt_total(key@, e[pos as int].0@);
                    if e[j].0@ == key@ {
                        lemma_seq_lt_transitive(e[pos as int].0@, e[j].0@, e[pos as int].0@);
                        lemma_seq_lt_irreflexive(e[pos as int].0@);
                    }
                } else if j < pos {
                    lemma_seq_lt_irreflexive(key@);
                }
            }
            lemma_lookup_absent(e, key@);
            assert forall|k: int| 1 <= k < p.len() implies !(#[trigger] lookup_path(e, p.subrange(0, k)) is Some) by {
                assert(p.subrange(0, k)[0] == p[0]);
            }
        }
        false
    }
}

/// The separator between segments of a type path.
pub open spec fn path_separator() -> Seq<char> {
    seq![':', ':']
}

/// Files the component type `type_path` under its module path, opening
/// namespaces for its segments as needed. Where a leading part of the path
/// already names a component, the catalogue is left as it is.
pub fn insert_component_into_hierarchy(map: &mut Vec<(String, ComponentNode)>, type_path: &str)
    requires
        entries_well_formed(old(map)@),
    ensures
        entries_well_formed(final(map)@),
        inserted_component(old(map)@, final(map)@, split_on(type_path@, path_separator()), type_path@),
{
    proof {
        reveal_strlit("::");
        assert("::"@ =~= path_separator());
    }
    let parts = split_str(type_path, "::");
    proof {
        assert(strs(parts@).subrange(0, parts@.len() as int) =~= strs(parts@));
        let sp = split_on(type_path@, path_separator());
        if crate::text::has_occurrence(type_path@, path_separator()) {
            let w = choose|w: int| crate::text::occurs_at(type_path@, path_separator(), w);
            crate::text::lemma_first_occurrence_exists(type_path@, path_separator(), w);
        }
        assert(sp.len() > 0);
    }
    if is_blocked(map, &parts, 0) {
        return;
    }
    let mut entries: Vec<(String, ComponentNode)> = Vec::new();
    std::mem::swap(&mut entries, map);
    let full = String::from_str(type_path);
    let placed = place_component(entries, &parts, 0, &full);
    *map = placed;
}


/// The names of the components the inspector never offers for removal.
pub open spec fn is_essential_name(n: Seq<char>) -> bool {
    n == "Entity"@ || n == "Transform"@ || n == "GlobalTransform"@ || n == "Parent"@ || n == "Children"@
        || n == "ChildOf"@ || n == "Name"@ || n == "StateMachine"@ || n == "StateMachinePersistentData"@
        || n == "StateMachineTransientData"@
}

/// Components that the inspector never offers for removal: the entity's core
/// transform, its place in the hierarchy, its name, and the state machine's
/// own structure.
pub fn is_essential_component(component_name: &str) -> (r: bool)
    ensures
        r == is_essential_name(component_name@),
{
    str_eq(component_name, "Entity") || str_eq(component_name, "Transform") || str_eq(
        component_name,
        "GlobalTransform",
    ) || str_eq(component_name, "Parent") || str_eq(component_name, "Children") || str_eq(
        component_name,
        "ChildOf",
    ) || str_eq(component_name, "Name") || str_eq(component_name, "StateMachine") || str_eq(
        component_name,
        "StateMachinePersistentData",
    ) || str_eq(component_name, "StateMachineTransientData")
}

/// The components of a catalogue, depth first in key order, whose lower-cased
/// name contains `needle`, each as (name, full type path).
pub open spec fn matching_components(e: Seq<(String, ComponentNode)>, needle: Seq<char>) -> Seq<
    (Seq<char>, Seq<char>),
>
    decreases e,
{
    if e.len() == 0 {
        seq![]
    } else {
        let head = match e[0].1 {
            ComponentNode::Component(full) => if has_occurrence(lowercase_of(e[0].0@), needle) {
                seq![(e[0].0@, full@)]
            } else {
                seq![]
            },
            ComponentNode::Namespace(v) => matching_components(v@, needle),
        };
        head + matching_components(e.drop_first(), needle)
    }
}


/// Appends the matching components of `entries[from..]` to `out`.
fn collect_matching_from(
    entries: &Vec<(String, ComponentNode)>,
    from: usize,
    needle: &str,
    out: &mut Vec<(String, String)>,
)
    requires
        from <= entries@.len(),
    ensures
        pairs_view(final(out)@) == pairs_view(old(out)@) + matching_components(
            entries@.subrange(from as int, entries@.len() as int),
            needle@,
        ),
    decreases entries@.subrange(from as int, entries@.len() as int),
{
    let ghost rest = entries@.subrange(from as int, entries@.len() as int);
    if from == entries.len() {
        assert(rest.len() == 0);
        assert(pairs_view(out@) =~= pairs_view(out@) + Seq::<(Seq<char>, Seq<char>)>::empty());
        return;
    }
    assert(rest[0] == entries@[from as int]);
    assert(rest.drop_first() =~= entries@.subrange(from + 1, entries@.len() as int));
    let ghost before = out@;
    match &entries[from].1 {
        ComponentNode::Component(full) => {
            let lower = to_lowercase(entries[from].0.as_str());
            if contains_str(lower.as_str(), needle) {
                out.push((entries[from].0.clone(), full.clone()));
                assert(pairs_view(out@) =~= pairs_view(before) + seq![(rest[0].0@, full@)]);
            }
        },
        ComponentNode::Namespace(v) => {
            assert(v@ =~= v@.subrange(0, v@.len() as int));
            assert(decreases_to!(rest => rest[0]));
            collect_matching_from(v, 0, needle, out);
        },
    }
    let ghost mid = out@;
    assert(decreases_to!(rest => entries@.subrange(from + 1, entries@.len() as int)));
    collect_matching_from(entries, from + 1, needle, out);
    assert(pairs_view(out@) =~= pairs_view(before) + matching_components(rest, needle@));
}

/// The character sequences of a list of string pairs.
pub open spec fn pairs_view(v: Seq<(String, String)>) -> Seq<(Seq<char>, Seq<char>)> {
    v.map_values(|p: (String, String)| (p.0@, p.1@))
}

/// The components whose lower-cased name contains the lower-cased search
/// text, depth first in key order, each as (name, full type path).
pub fn matching_components_for(components: &Vec<(String, ComponentNode)>, search_text: &str) -> (r: Vec<(String, String)>)
    ensures
        pairs_view(r@) == matching_components(components@, lowercase_of(search_text@)),
{
    let needle = to_lowercase(search_text);
    let mut out: Vec<(String, String)> = Vec::new();
    collect_matching_from(components, 0, needle.as_str(), &mut out);
    assert(components@.subrange(0, components@.len() as int) =~= components@);
    assert(pairs_view(out@) =~= matching_components(components@, needle@));
    out
}


impl ComponentHierarchy {
    /// Keys strictly increase at every level.
    pub open spec fn well_formed(&self) -> bool {
        entries_well_formed(self.components@)
    }
}

impl Default for ComponentHierarchy {
    fn default() -> (h: Self)
        ensures
            h.components@ == Seq::<(String, ComponentNode)>::empty(),
    {
        ComponentHierarchy { components: Vec::new() }
    }
}

/// `result` is what filing `paths` one after another into `start` gives.
pub open spec fn filed_in_order(
    start: Seq<(String, ComponentNode)>,
    paths: Seq<Seq<char>>,
    result: Seq<(String, ComponentNode)>,
) -> bool {
    exists|states: Seq<Seq<(String, ComponentNode)>>|
        {
            &&& states.len() == paths.len() + 1
            &&& states[0] == start
            &&& states[paths.len() as int] == result
            &&& forall|i: int|
                0 <= i < paths.len() ==> inserted_component(
                    #[trigger] states[i],
                    states[i + 1],
                    split_on(paths[i], path_separator()),
                    paths[i],
                )
        }
}

/// Builds the catalogue of the given component type paths, filing them in
/// the order given.
pub fn build_component_hierarchy(type_paths: &Vec<String>) -> (h: ComponentHierarchy)
    ensures
        h.well_formed(),
        filed_in_order(Seq::empty(), strs(type_paths@), h.components@),
{
    let mut h = ComponentHierarchy { components: Vec::new() };
    let ghost mut states: Seq<Seq<(String, ComponentNode)>> = seq![h.components@];
    let mut i: usize = 0;
    while i < type_paths.len()
        invariant
            i <= type_paths@.len(),
            entries_well_formed(h.components@),
            states.len() == i + 1,
            states[0] == Seq::<(String, ComponentNode)>::empty(),
            states[i as int] == h.components@,
            forall|k: int|
                0 <= k < i ==> inserted_component(
                    #[trigger] states[k],
                    states[k + 1],
                    split_on(strs(type_paths@)[k], path_separator()),
                    strs(type_paths@)[k],
                ),
        decreases type_paths.len() - i,
    {
        insert_component_into_hierarchy(&mut h.components, type_paths[i].as_str());
        proof {
            states = states.push(h.components@);
        }
        i = i + 1;
    }
    proof {
        assert(filed_in_order(Seq::empty(), strs(type_paths@), h.components@)) by {
            assert(states.len() == strs(type_paths@).len() + 1);
        }
    }
    h
}

/// Whatever the components of an entity, the "Remove" tab (any list that
/// `removable_components` may return) never offers Bevy's core components
/// (`Entity`, `Transform`, `GlobalTransform`), its hierarchy components
/// (`Parent`, `Children`, `ChildOf`), `Name`, or the state machine's own
/// components, and offers every other component.
pub proof fn law_removal_spares_core_components(names: Seq<Seq<char>>, r: Seq<usize>, i: int)
    requires
        forall|j: int| 0 <= j < names.len() ==> (r.contains(j as usize) <==> !is_essential_name(#[trigger] names[j])),
        0 <= i < names.len(),
    ensures
        ({
            let n = names[i];
            let core = n == "Entity"@ || n == "Transform"@ || n == "GlobalTransform"@;
            let hierarchy = n == "Parent"@ || n == "Children"@ || n == "ChildOf"@;
            let machine = n == "StateMachine"@ || n == "StateMachinePersistentData"@ || n
                == "StateMachineTransientData"@;
            &&& (core || hierarchy || n == "Name"@ || machine) ==> !r.contains(i as usize)
            &&& !(core || hierarchy || n == "Name"@ || machine) ==> r.contains(i as usize)
        }),
{
    assert(names[i] == names[i]);
}

/// The components the "Remove" tab offers, by position: all but the essential ones.
pub fn removable_components(component_names: &Vec<String>) -> (r: Vec<usize>)
    ensures
        forall|k: int| 0 <= k < r@.len() ==> (#[trigger] r@[k]) < component_names@.len(),
        forall|a: int, b: int| 0 <= a < b < r@.len() ==> #[trigger] r@[a] < #[trigger] r@[b],
        forall|i: int|
            0 <= i < component_names@.len() ==> (r@.contains(i as usize) <==> !is_essential_name(
                #[trigger] component_names@[i]@,
            )),
{
    let mut out: Vec<usize> = Vec::new();
    let mut i: usize = 0;
    while i < component_names.len()
        invariant
            i <= component_names@.len(),
            forall|k: int| 0 <= k < out@.len() ==> (#[trigger] out@[k]) < i,
            forall|a: int, b: int| 0 <= a < b < out@.len() ==> #[trigger] out@[a] < #[trigger] out@[b],
            forall|j: int| 0 <= j < i ==> (out@.contains(j as usize) <==> !is_essential_name(#[trigger] component_names@[j]@)),
        decreases component_names.len() - i,
    {
        if !is_essential_component(component_names[i].as_str()) {
            let ghost before = out@;
            out.push(i);
            proof {
                assert forall|j: int| 0 <= j < i + 1 implies (out@.contains(j as usize) <==> !is_essential_name(
                    #[trigger] component_names@[j]@,
                )) by {
                    if j < i {
                        if out@.contains(j as usize) {
                            let k = choose|k: int| 0 <= k < out@.len() && out@[k] == j as usize;
                            if k < before.len() {
                                assert(before[k] == j as usize);
                                assert(before.contains(j as usize));
                            }
                        }
                        if before.contains(j as usize) {
                            let k = choose|k: int| 0 <= k < before.len() && before[k] == j as usize;
                            assert(out@[k] == j as usize);
                        }
                    } else {
                        assert(out@[before.len() as int] == i);
                    }
                }
            }
        } else {
            proof {
                assert forall|j: int| 0 <= j < i + 1 implies (out@.contains(j as usize) <==> !is_essential_name(
                    #[trigger] component_names@[j]@,
                )) by {
                    if j == i && out@.contains(j as usize) {
                        let k = choose|k: int| 0 <= k < out@.len() && out@[k] == j as usize;
                    }
                }
            }
        }
        i = i + 1;
    }
    out
}

} // verus!
