use vstd::prelude::*;
use vstd::string::*;
use crate::text::{stable_name_order, name_index_lt, is_permutation, seq_lt, chars_of, split_str, split_on, has_occurrence, first_occurrence, last_occurrence, occurs_at, lemma_first_occurrence, lemma_last_occurrence, lemma_first_occurrence_exists, find_seq, rfind_seq, substring, strs, strictly_sorted, insert_sorted_unique, contains_str, str_eq};

verus! {

/// The last `::`-separated segment of `s`.
pub open spec fn last_segment(s: Seq<char>) -> Seq<char> {
    split_on(s, seq![':', ':']).last()
}

/// `split_on` always yields at least one piece.
pub proof fn lemma_split_nonempty(s: Seq<char>, sep: Seq<char>)
    requires
        sep.len() > 0,
    ensures
        split_on(s, sep).len() > 0,
{
    if has_occurrence(s, sep) {
        let w = choose|w: int| occurs_at(s, sep, w);
        lemma_first_occurrence_exists(s, sep, w);
    }
}

/// The last `::`-separated segment of `s`.
pub fn last_path_segment(s: &str) -> (r: String)
    ensures
        r@ == last_segment(s@),
{
    proof {
        reveal_strlit("::");
        assert("::"@ =~= seq![':', ':']);
        lemma_split_nonempty(s@, seq![':', ':']);
    }
    let mut parts = split_str(s, "::");
    let n = parts.len();
    parts.remove(n - 1)
}

/// Characters of a string literal, for searching.
fn pattern(s: &str) -> (v: Vec<char>)
    ensures
        v@ == s@,
{
    chars_of(s)
}

/// Whether the first `'<'` of `p` comes before its last `'>'`, whenever both
/// occur; slicing between them is then well defined.
pub open spec fn brackets_ordered(p: Seq<char>) -> bool {
    has_occurrence(p, seq!['<']) && has_occurrence(p, seq!['>']) ==> first_occurrence(p, seq!['<'])
        < last_occurrence(p, seq!['>'])
}

/// The event type named by a listener type path such as
/// `bevy_gearbox::TransitionListener<game::OnInvoke>`: the text between the
/// first `<` and the last `>`, after its last `::`; "Unknown" without both
/// brackets.
pub open spec fn event_type_of(p: Seq<char>) -> Seq<char> {
    if has_occurrence(p, seq!['<']) && has_occurrence(p, seq!['>']) {
        let inner = p.subrange(first_occurrence(p, seq!['<']) + 1, last_occurrence(p, seq!['>']));
        if has_occurrence(inner, seq![':', ':']) {
            inner.subrange(last_occurrence(inner, seq![':', ':']) + 2, inner.len() as int)
        } else {
            inner
        }
    } else {
        "Unknown"@
    }
}

/// Extracts the event type from a listener type path (see `event_type_of`).
pub fn extract_transition_event_type(type_path: &str) -> (r: String)
    requires
        brackets_ordered(type_path@),
    ensures
        r@ == event_type_of(type_path@),
{
    let v = chars_of(type_path);
    let lt = pattern("<");
    let gt = pattern(">");
    let sep = pattern("::");
    proof {
        reveal_strlit("<");
        reveal_strlit(">");
        reveal_strlit("::");
        assert(lt@ =~= seq!['<']);
        assert(gt@ =~= seq!['>']);
        assert(sep@ =~= seq![':', ':']);
    }
    if let Some(start) = find_seq(&v, &lt) {
        if let Some(end) = rfind_seq(&v, &gt) {
            proof {
                lemma_first_occurrence(v@, lt@, start as int);
                lemma_last_occurrence(v@, gt@, end as int);
            }
            let inner = substring(type_path, start + 1, end);
            let iv = chars_of(inner.as_str());
            if let Some(last_colon) = rfind_seq(&iv, &sep) {
                proof {
                    lemma_last_occurrence(iv@, sep@, last_colon as int);
                }
                return substring(inner.as_str(), last_colon + 2, iv.len());
            }
            return inner;
        }
    }
    proof {
        reveal_strlit("Unknown");
    }
    String::from_str("Unknown")
}


/// The event type of an `EventEdge<...>` type path: from just after the first
/// `EventEdge<` to the next `>`, its last `::` segment; none without either.
pub open spec fn edge_event_of(p: Seq<char>) -> Option<Seq<char>> {
    if has_occurrence(p, "EventEdge<"@) {
        let s = first_occurrence(p, "EventEdge<"@);
        let rest = p.subrange(s, p.len() as int);
        if has_occurrence(rest, seq!['>']) {
            Some(last_segment(p.subrange(s + 10, s + first_occurrence(rest, seq!['>']))))
        } else {
            None
        }
    } else {
        None
    }
}

/// The last piece of a split on `::` holds no `::`, ends `s`, and is either
/// all of `s` or comes right after a `::`.
proof fn lemma_last_piece(s: Seq<char>)
    ensures
        ({
            let n = split_on(s, seq![':', ':']).last();
            &&& !has_occurrence(n, seq![':', ':'])
            &&& n.len() <= s.len()
            &&& s.subrange(s.len() - n.len(), s.len() as int) == n
            &&& (n.len() == s.len() || (n.len() + 2 <= s.len() && s.subrange(s.len() - n.len() - 2, s.len() - n.len())
                == seq![':', ':']))
        }),
    decreases s.len(),
{
    let sep = seq![':', ':'];
    if has_occurrence(s, sep) {
        let w = choose|w: int| occurs_at(s, sep, w);
        lemma_first_occurrence_exists(s, sep, w);
        let i = first_occurrence(s, sep);
        let rest = s.subrange(i + 2, s.len() as int);
        lemma_last_piece(rest);
        lemma_split_nonempty(rest, sep);
        assert(split_on(s, sep) == seq![s.subrange(0, i)] + split_on(rest, sep));
        assert(split_on(s, sep).last() == split_on(rest, sep).last());
        let n = split_on(rest, sep).last();
        assert(s.subrange(s.len() - n.len(), s.len() as int) =~= rest.subrange(
            rest.len() - n.len(),
            rest.len() as int,
        ));
        if n.len() == rest.len() {
            assert(s.subrange(s.len() - n.len() - 2, s.len() - n.len()) =~= s.subrange(i, i + 2));
        } else {
            assert(s.subrange(s.len() - n.len() - 2, s.len() - n.len()) =~= rest.subrange(
                rest.len() - n.len() - 2,
                rest.len() - n.len(),
            ));
        }
    } else {
        assert(split_on(s, sep) == seq![s]);
        assert(s.subrange(0, s.len() as int) =~= s);
    }
}

/// The event named by an `EventEdge<...>` type path is the last `::` segment
/// of the text between the first `EventEdge<` and the next `>`: it holds no
/// `::`, that text ends with it, and it is the whole text or follows a `::`.
/// A path names one exactly when it has `EventEdge<` and a `>` after it.
pub proof fn law_edge_event_is_the_last_segment(p: Seq<char>)
    ensures
        edge_event_of(p) is Some <==> (has_occurrence(p, "EventEdge<"@) && has_occurrence(
            p.subrange(first_occurrence(p, "EventEdge<"@), p.len() as int),
            seq!['>'],
        )),
        edge_event_of(p) is Some ==> ({
            let s = first_occurrence(p, "EventEdge<"@);
            let inner = p.subrange(
                s + 10,
                s + first_occurrence(p.subrange(s, p.len() as int), seq!['>']),
            );
            let n = edge_event_of(p)->0;
            &&& !has_occurrence(n, seq![':', ':'])
            &&& n.len() <= inner.len()
            &&& inner.subrange(inner.len() - n.len(), inner.len() as int) == n
            &&& (n == inner || (n.len() + 2 <= inner.len() && inner.subrange(inner.len() - n.len() - 2, inner.len()
                - n.len()) == seq![':', ':']))
        }),
{
    if edge_event_of(p) is Some {
        let s = first_occurrence(p, "EventEdge<"@);
        let inner = p.subrange(s + 10, s + first_occurrence(p.subrange(s, p.len() as int), seq!['>']));
        lemma_last_piece(inner);
        let n = split_on(inner, seq![':', ':']).last();
        if n.len() == inner.len() {
            assert(inner.subrange(0, inner.len() as int) =~= inner);
        }
    }
}

/// The event type of an `EventEdge<...>` type path (see `edge_event_of`).
pub fn edge_event_name(type_path: &str) -> (r: Option<String>)
    ensures
        match r {
            Some(n) => edge_event_of(type_path@) == Some(n@),
            None => edge_event_of(type_path@) is None,
        },
{
    let v = chars_of(type_path);
    let edge = pattern("EventEdge<");
    let gt = pattern(">");
    proof {
        reveal_strlit("EventEdge<");
        reveal_strlit(">");
        assert(gt@ =~= seq!['>']);
        assert(edge@.len() == 10);
    }
    match find_seq(&v, &edge) {
        None => None,
        Some(start) => {
            proof {
                lemma_first_occurrence(v@, edge@, start as int);
            }
            let ghost rest = v@.subrange(start as int, v@.len() as int);
            match crate::text::find_from(&v, &gt, start) {
                None => {
                    proof {
                        assert forall|j: int| !occurs_at(rest, seq!['>'], j) by {
                            crate::text::lemma_occurs_in_suffix(v@, seq!['>'], start as int, j);
                        }
                    }
                    None
                },
                Some(end) => {
                    proof {
                        crate::text::lemma_occurs_in_suffix(v@, seq!['>'], start as int, end - start);
                        assert forall|j: int| 0 <= j < end - start implies !occurs_at(rest, seq!['>'], j) by {
                            crate::text::lemma_occurs_in_suffix(v@, seq!['>'], start as int, j);
                        }
                        lemma_first_occurrence(rest, seq!['>'], end - start);
                        if end < start + 10 {
                            assert(v@.subrange(start as int, start + 10) == edge@);
                            assert(v@[end as int] == v@.subrange(start as int, start + 10)[end - start]);
                            assert(v@.subrange(end as int, end + 1)[0] == v@[end as int]);
                        }
                    }
                    let inner = substring(type_path, start + 10, end);
                    Some(last_path_segment(inner.as_str()))
                },
            }
        },
    }
}

/// The event names that listener type paths mention: for each path containing
/// `TransitionListener<` and a `>`, its `event_type_of`.
pub open spec fn listener_event_set(paths: Seq<Seq<char>>) -> Set<Seq<char>> {
    Set::new(
        |x: Seq<char>|
            exists|i: int|
                0 <= i < paths.len() && has_occurrence(#[trigger] paths[i], "TransitionListener<"@)
                    && has_occurrence(paths[i], seq!['>']) && event_type_of(paths[i]) == x,
    )
}

/// The event types offered for new transition listeners: the distinct event
/// types of the registered `TransitionListener<...>` types, in increasing order.
pub fn collect_available_event_types(type_paths: &Vec<String>) -> (r: Vec<String>)
    requires
        forall|i: int|
            0 <= i < type_paths@.len() && has_occurrence(#[trigger] type_paths@[i]@, "TransitionListener<"@)
                ==> brackets_ordered(type_paths@[i]@),
    ensures
        strictly_sorted(strs(r@)),
        strs(r@).to_set() == listener_event_set(strs(type_paths@)),
{
    let listener = pattern("TransitionListener<");
    let gt = pattern(">");
    proof {
        reveal_strlit(">");
        assert(gt@ =~= seq!['>']);
    }
    let mut out: Vec<String> = Vec::new();
    let mut i: usize = 0;
    while i < type_paths.len()
        invariant
            i <= type_paths@.len(),
            listener@ == "TransitionListener<"@,
            gt@ == seq!['>'],
            forall|k: int|
                0 <= k < type_paths@.len() && has_occurrence(#[trigger] type_paths@[k]@, "TransitionListener<"@)
                    ==> brackets_ordered(type_paths@[k]@),
            strictly_sorted(strs(out@)),
            forall|x: Seq<char>| strs(out@).contains(x) <==> exists|k: int|
                0 <= k < i && has_occurrence(#[trigger] strs(type_paths@)[k], "TransitionListener<"@)
                    && has_occurrence(strs(type_paths@)[k], seq!['>']) && event_type_of(strs(type_paths@)[k]) == x,
        decreases type_paths.len() - i,
    {
        let p = type_paths[i].as_str();
        let v = chars_of(p);
        let has_listener = find_seq(&v, &listener).is_some();
        let has_gt = find_seq(&v, &gt).is_some();
        let ghost pi = strs(type_paths@)[i as int];
        assert(pi == p@);
        if has_listener && has_gt {
            let name = extract_transition_event_type(p);
            insert_sorted_unique(&mut out, name);
        }
        proof {
            assert forall|x: Seq<char>| strs(out@).contains(x) <==> exists|k: int|
                0 <= k < i + 1 && has_occurrence(#[trigger] strs(type_paths@)[k], "TransitionListener<"@)
                    && has_occurrence(strs(type_paths@)[k], seq!['>']) && event_type_of(strs(type_paths@)[k]) == x by {
                if exists|k: int|
                    0 <= k < i + 1 && has_occurrence(#[trigger] strs(type_paths@)[k], "TransitionListener<"@)
                        && has_occurrence(strs(type_paths@)[k], seq!['>']) && event_type_of(strs(type_paths@)[k]) == x {
                    let k = choose|k: int|
                        0 <= k < i + 1 && has_occurrence(#[trigger] strs(type_paths@)[k], "TransitionListener<"@)
                            && has_occurrence(strs(type_paths@)[k], seq!['>']) && event_type_of(strs(type_paths@)[k]) == x;
                    if k == i {
                    }
                }
            }
        }
        i = i + 1;
    }
    proof {
        assert forall|x: Seq<char>| strs(out@).to_set().contains(x) <==> listener_event_set(strs(type_paths@)).contains(x) by {
        }
        assert(strs(out@).to_set() =~= listener_event_set(strs(type_paths@)));
    }
    out
}

/// The event names of the registered `EventEdge<...>` types.
pub open spec fn edge_event_set(paths: Seq<Seq<char>>) -> Set<Seq<char>> {
    Set::new(
        |x: Seq<char>| exists|i: int| 0 <= i < paths.len() && #[trigger] edge_event_of(paths[i]) == Some(x),
    )
}

/// `offered` lists the event types a new transition may use, given the
/// registered type paths (see `discover_transition_edge_listener_event_types`).
pub open spec fn offered_event_types(offered: Seq<Seq<char>>, paths: Seq<Seq<char>>) -> bool {
    let set = edge_event_set(paths);
    if set.contains("Always"@) {
        strictly_sorted(offered) && offered.to_set() == set
    } else {
        offered.len() > 0 && offered[0] == "Always"@ && strictly_sorted(offered.drop_first())
            && offered.drop_first().to_set() == set
    }
}

/// The event types offered when creating a transition: "Always" first unless
/// an edge type already provides it, then the distinct event types of the
/// registered `EventEdge<...>` types in increasing order.
pub fn discover_transition_edge_listener_event_types(type_paths: &Vec<String>) -> (r: Vec<String>)
    ensures
        offered_event_types(strs(r@), strs(type_paths@)),
{
    let mut out: Vec<String> = Vec::new();
    let mut i: usize = 0;
    while i < type_paths.len()
        invariant
            i <= type_paths@.len(),
            strictly_sorted(strs(out@)),
            forall|x: Seq<char>| strs(out@).contains(x) <==> exists|k: int|
                0 <= k < i && #[trigger] edge_event_of(strs(type_paths@)[k]) == Some(x),
        decreases type_paths.len() - i,
    {
        let ghost pi = strs(type_paths@)[i as int];
        assert(pi == type_paths@[i as int]@);
        match edge_event_name(type_paths[i].as_str()) {
            Some(name) => insert_sorted_unique(&mut out, name),
            None => {},
        }
        proof {
            assert forall|x: Seq<char>| strs(out@).contains(x) <==> exists|k: int|
                0 <= k < i + 1 && #[trigger] edge_event_of(strs(type_paths@)[k]) == Some(x) by {
                if exists|k: int| 0 <= k < i + 1 && #[trigger] edge_event_of(strs(type_paths@)[k]) == Some(x) {
                    let k = choose|k: int| 0 <= k < i + 1 && #[trigger] edge_event_of(strs(type_paths@)[k]) == Some(x);
                    if k == i {
                    }
                }
            }
        }
        i = i + 1;
    }
    let ghost set = edge_event_set(strs(type_paths@));
    proof {
        assert(strs(out@).to_set() =~= set);
    }
    let mut has_always = false;
    let mut j: usize = 0;
    while j < out.len()
        invariant
            j <= out@.len(),
            strictly_sorted(strs(out@)),
            strs(out@).to_set() == set,
            has_always == exists|k: int| 0 <= k < j && (#[trigger] out@[k])@ == "Always"@,
        decreases out.len() - j,
    {
        if str_eq(out[j].as_str(), "Always") {
            has_always = true;
        }
        j = j + 1;
    }
    proof {
        if set.contains("Always"@) {
            let k = choose|k: int| 0 <= k < strs(out@).len() && strs(out@)[k] == "Always"@;
            assert(out@[k]@ == "Always"@);
        }
        if has_always {
            let k = choose|k: int| 0 <= k < out@.len() && (#[trigger] out@[k])@ == "Always"@;
            assert(strs(out@)[k] == "Always"@);
        }
    }
    if !has_always {
        let ghost before = out@;
        out.insert(0, String::from_str("Always"));
        assert(strs(out@).drop_first() =~= strs(before));
    }
    out
}


/// The first of `paths` that contains both `marker` and `event_type`.
pub open spec fn is_first_match(paths: Seq<Seq<char>>, marker: Seq<char>, event_type: Seq<char>, i: int) -> bool {
    &&& 0 <= i < paths.len()
    &&& has_occurrence(paths[i], marker) && has_occurrence(paths[i], event_type)
    &&& forall|j: int| 0 <= j < i ==> !(has_occurrence(#[trigger] paths[j], marker) && has_occurrence(paths[j], event_type))
}

/// No path contains both `marker` and `event_type`.
pub open spec fn no_match(paths: Seq<Seq<char>>, marker: Seq<char>, event_type: Seq<char>) -> bool {
    forall|j: int| 0 <= j < paths.len() ==> !(has_occurrence(#[trigger] paths[j], marker) && has_occurrence(paths[j], event_type))
}

/// The index of the first path that contains both `marker` and `event_type`.
pub fn find_first_match(paths: &Vec<String>, marker: &str, event_type: &str) -> (r: Option<usize>)
    ensures
        match r {
            Some(i) => is_first_match(strs(paths@), marker@, event_type@, i as int),
            None => no_match(strs(paths@), marker@, event_type@),
        },
{
    let mut i: usize = 0;
    while i < paths.len()
        invariant
            i <= paths@.len(),
            forall|j: int| 0 <= j < i ==> !(has_occurrence(#[trigger] strs(paths@)[j], marker@) && has_occurrence(strs(paths@)[j], event_type@)),
        decreases paths.len() - i,
    {
        let p = paths[i].as_str();
        assert(strs(paths@)[i as int] == p@);
        if contains_str(p, marker) && contains_str(p, event_type) {
            return Some(i);
        }
        i = i + 1;
    }
    None
}

/// The registered `TransitionListener<...>` type for an event type: the first
/// type path that mentions both.
pub fn find_transition_listener_type(type_paths: &Vec<String>, event_type: &str) -> (r: Option<String>)
    ensures
        match r {
            Some(p) => exists|i: int| is_first_match(strs(type_paths@), "TransitionListener<"@, event_type@, i) && strs(type_paths@)[i] == p@,
            None => no_match(strs(type_paths@), "TransitionListener<"@, event_type@),
        },
{
    match find_first_match(type_paths, "TransitionListener<", event_type) {
        Some(i) => {
            assert(strs(type_paths@)[i as int] == type_paths@[i as int]@);
            Some(type_paths[i].clone())
        },
        None => None,
    }
}

/// How a new transition's edge is made.
pub enum EdgePlan {
    /// An edge taken as soon as its source is active, with no listener.
    Always,
    /// An edge listening for the event, through this registered type.
    EventEdge(String),
}

/// Why a transition edge cannot be made.
#[derive(Debug, Clone, Copy, PartialEq, Eq, Structural)]
pub enum EdgeLookupError {
    /// No registered `EventEdge<...>` type mentions the event type.
    EventEdgeNotFound,
}

/// How to make the edge of a new transition on `event_type`: "Always" needs no
/// listener; any other event uses the first registered type path that mentions
/// both `EventEdge<` and the event type, and fails without one.
pub fn plan_transition_edge(type_paths: &Vec<String>, event_type: &str) -> (r: Result<EdgePlan, EdgeLookupError>)
    ensures
        event_type@ == "Always"@ ==> r matches Ok(EdgePlan::Always),
        event_type@ != "Always"@ ==> match r {
            Ok(EdgePlan::EventEdge(p)) => exists|i: int| is_first_match(strs(type_paths@), "EventEdge<"@, event_type@, i) && strs(type_paths@)[i] == p@,
            Ok(EdgePlan::Always) => false,
            Err(e) => e == EdgeLookupError::EventEdgeNotFound && no_match(strs(type_paths@), "EventEdge<"@, event_type@),
        },
{
    if str_eq(event_type, "Always") {
        return Ok(EdgePlan::Always);
    }
    match find_first_match(type_paths, "EventEdge<", event_type) {
        Some(i) => {
            assert(strs(type_paths@)[i as int] == type_paths@[i as int]@);
            Ok(EdgePlan::EventEdge(type_paths[i].clone()))
        },
        None => Err(EdgeLookupError::EventEdgeNotFound),
    }
}

/// `pre` begins `s`.
pub open spec fn starts_with(s: Seq<char>, pre: Seq<char>) -> bool {
    pre.len() <= s.len() && s.subrange(0, pre.len() as int) == pre
}

/// The listener to look for when deleting a transition on `event_type`: the
/// first short type name that starts with `EventEdge<` and mentions the event.
pub fn find_edge_listener_for_deletion(short_names: &Vec<String>, event_type: &str) -> (r: Option<usize>)
    ensures
        match r {
            Some(i) => i < short_names@.len() && starts_with(short_names@[i as int]@, "EventEdge<"@) && has_occurrence(
                short_names@[i as int]@,
                event_type@,
            ) && forall|j: int|
                0 <= j < i ==> !(starts_with(#[trigger] short_names@[j]@, "EventEdge<"@) && has_occurrence(short_names@[j]@, event_type@)),
            None => forall|j: int|
                0 <= j < short_names@.len() ==> !(starts_with(#[trigger] short_names@[j]@, "EventEdge<"@) && has_occurrence(
                    short_names@[j]@,
                    event_type@,
                )),
        },
{
    let edge = pattern("EventEdge<");
    let mut i: usize = 0;
    while i < short_names.len()
        invariant
            i <= short_names@.len(),
            edge@ == "EventEdge<"@,
            forall|j: int|
                0 <= j < i ==> !(starts_with(#[trigger] short_names@[j]@, "EventEdge<"@) && has_occurrence(short_names@[j]@, event_type@)),
        decreases short_names.len() - i,
    {
        let v = chars_of(short_names[i].as_str());
        let starts = crate::text::matches_at(&v, &edge, 0);
        if starts && contains_str(short_names[i].as_str(), event_type) {
            return Some(i);
        }
        i = i + 1;
    }
    None
}


/// The component types offered in the "add component" dialog, sorted by name
/// as `sort` orders strings.
pub fn collect_available_components(type_paths: &Vec<String>) -> (r: Vec<String>)
    ensures
        r@.len() == type_paths@.len(),
        forall|a: int, b: int| 0 <= a < b < r@.len() ==> !seq_lt(#[trigger] r@[b]@, #[trigger] r@[a]@),
        exists|perm: Seq<usize>|
            is_permutation(perm, type_paths@.len()) && forall|k: int| 0 <= k < r@.len() ==> (#[trigger] r@[k])@ == type_paths@[perm[k] as int]@,
{
    let order = stable_name_order(type_paths);
    let mut out: Vec<String> = Vec::new();
    let mut k: usize = 0;
    while k < order.len()
        invariant
            is_permutation(order@, type_paths@.len()),
            forall|a: int, b: int|
                0 <= a < b < order@.len() ==> name_index_lt(strs(type_paths@), #[trigger] order@[a] as int, #[trigger] order@[b] as int),
            k <= order@.len(),
            out@.len() == k,
            forall|j: int| 0 <= j < k ==> (#[trigger] out@[j])@ == type_paths@[order@[j] as int]@,
        decreases order.len() - k,
    {
        out.push(type_paths[order[k]].clone());
        k = k + 1;
    }
    proof {
        assert forall|a: int, b: int| 0 <= a < b < out@.len() implies !seq_lt(#[trigger] out@[b]@, #[trigger] out@[a]@) by {
            assert(name_index_lt(strs(type_paths@), order@[a] as int, order@[b] as int));
            assert(strs(type_paths@)[order@[a] as int] == out@[a]@);
            assert(strs(type_paths@)[order@[b] as int] == out@[b]@);
            crate::text::lemma_seq_lt_total(out@[a]@, out@[b]@);
            crate::text::lemma_seq_lt_irreflexive(out@[a]@);
        }
    }
    out
}

} // verus!
