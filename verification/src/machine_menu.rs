use vstd::prelude::*;
use vstd::string::*;
use crate::hierarchy::EntityId;
use crate::editor_state::{EditorState, open_entities};
use crate::text::{
    contains_str, has_occurrence, is_permutation, lowercase_of, name_index_lt, stable_name_order, str_eq, strs,
    to_lowercase,
};

verus! {

/// A request to put a machine on the canvas, at a screen position or at the
/// default place.
pub struct OpenMachineRequested<P> {
    pub entity: EntityId,
    pub position: Option<P>,
}

/// The name under which a machine is offered: its name, or a stand-in.
pub open spec fn machine_display_name(name: Option<String>) -> Seq<char> {
    match name {
        Some(n) => n@,
        None => "Unnamed Machine"@,
    }
}

/// The machines that drive node kinds inside the editor; never offered.
pub open spec fn is_internal_machine(name: Option<String>) -> bool {
    name is Some && name->0@ == "NodeKind"@
}

/// An empty search matches every name; otherwise the name must contain the
/// search text, both lower-cased.
pub open spec fn matches_search(name: Seq<char>, search: Seq<char>) -> bool {
    search.len() == 0 || has_occurrence(lowercase_of(name), lowercase_of(search))
}

/// A machine is offered when it is not open, not internal, and matches the search.
pub open spec fn is_pickable(open: Seq<EntityId>, search: Seq<char>, m: (EntityId, Option<String>)) -> bool {
    &&& !open.contains(m.0)
    &&& !is_internal_machine(m.1)
    &&& matches_search(machine_display_name(m.1), search)
}

/// The machines offered, in the order they were given, each with its display name.
pub open spec fn pickable_machines(
    open: Seq<EntityId>,
    search: Seq<char>,
    ms: Seq<(EntityId, Option<String>)>,
) -> Seq<(EntityId, Seq<char>)>
    decreases ms.len(),
{
    if ms.len() == 0 {
        Seq::empty()
    } else {
        let rest = pickable_machines(open, search, ms.drop_last());
        if is_pickable(open, search, ms.last()) {
            rest.push((ms.last().0, machine_display_name(ms.last().1)))
        } else {
            rest
        }
    }
}

/// A list of (machine, name) pairs as values.
pub open spec fn picker_view(r: Seq<(EntityId, String)>) -> Seq<(EntityId, Seq<char>)> {
    r.map_values(|p: (EntityId, String)| (p.0, p.1@))
}

/// `sorted` is `items` put in order by `order`, a stable sort by name.
pub open spec fn is_stable_name_sort(
    sorted: Seq<(EntityId, Seq<char>)>,
    items: Seq<(EntityId, Seq<char>)>,
    order: Seq<usize>,
) -> bool {
    &&& is_permutation(order, items.len())
    &&& sorted.len() == items.len()
    &&& forall|k: int| 0 <= k < sorted.len() ==> #[trigger] sorted[k] == items[order[k] as int]
    &&& forall|a: int, b: int|
        0 <= a < b < order.len() ==> name_index_lt(
            items.map_values(|p: (EntityId, Seq<char>)| p.1),
            #[trigger] order[a] as int,
            #[trigger] order[b] as int,
        )
}

proof fn lemma_take_last<A>(s: Seq<A>, i: int)
    requires
        0 <= i < s.len(),
    ensures
        s.take(i + 1).drop_last() == s.take(i),
        s.take(i + 1).last() == s[i],
{
    assert(s.take(i + 1).drop_last() =~= s.take(i));
}

impl<P: Copy, V: Copy> EditorState<P, V> {
    /// The machines the pickers offer: those not yet open, not internal and
    /// matching the search text, sorted by display name (a stable sort, so
    /// equal names keep the order in which `machines` lists them).
    pub fn available_machines(&self, machines: &Vec<(EntityId, Option<String>)>) -> (r: Vec<(EntityId, String)>)
        ensures
            exists|order: Seq<usize>|
                is_stable_name_sort(
                    picker_view(r@),
                    pickable_machines(open_entities(self.open_machines@), self.machine_search_text@, machines@),
                    order,
                ),
    {
        let ghost open = open_entities(self.open_machines@);
        let ghost search = self.machine_search_text@;
        let searching = self.machine_search_text.unicode_len() > 0;
        let query = to_lowercase(self.machine_search_text.as_str());
        let mut items: Vec<(EntityId, String)> = Vec::new();
        let mut i: usize = 0;
        while i < machines.len()
            invariant
                open == open_entities(self.open_machines@),
                search == self.machine_search_text@,
                searching == (search.len() > 0),
                query@ == lowercase_of(search),
                i <= machines@.len(),
                picker_view(items@) == pickable_machines(open, search, machines@.take(i as int)),
            decreases machines.len() - i,
        {
            proof {
                lemma_take_last(machines@, i as int);
            }
            let entity = machines[i].0;
            let (internal, name) = match &machines[i].1 {
                Some(n) => (str_eq(n.as_str(), "NodeKind"), n.clone()),
                None => (false, String::from_str("Unnamed Machine")),
            };
            assert(internal == is_internal_machine(machines@[i as int].1));
            assert(name@ == machine_display_name(machines@[i as int].1));
            let keep = if self.is_machine_open(entity) || internal {
                false
            } else if searching {
                let lowered = to_lowercase(name.as_str());
                contains_str(lowered.as_str(), query.as_str())
            } else {
                true
            };
            assert(keep == is_pickable(open, search, machines@[i as int]));
            if keep {
                let ghost prev = items@;
                items.push((entity, name));
                proof {
                    assert(picker_view(items@) =~= picker_view(prev).push((entity, name@)));
                }
            }
            i = i + 1;
        }
        proof {
            assert(machines@.take(machines@.len() as int) =~= machines@);
        }
        let ghost listed = picker_view(items@);
        let mut names: Vec<String> = Vec::new();
        let mut j: usize = 0;
        while j < items.len()
            invariant
                listed == picker_view(items@),
                j <= items@.len(),
                names@.len() == j,
                forall|k: int| 0 <= k < j ==> (#[trigger] names@[k])@ == items@[k].1@,
            decreases items.len() - j,
        {
            names.push(items[j].1.clone());
            j = j + 1;
        }
        proof {
            assert(strs(names@) =~= listed.map_values(|p: (EntityId, Seq<char>)| p.1));
        }
        let order = stable_name_order(&names);
        let mut out: Vec<(EntityId, String)> = Vec::new();
        let mut k: usize = 0;
        while k < order.len()
            invariant
                listed == picker_view(items@),
                is_permutation(order@, items@.len()),
                names@.len() == items@.len(),
                k <= order@.len(),
                out@.len() == k,
                forall|m: int| 0 <= m < k ==> (#[trigger] picker_view(out@)[m]) == listed[order@[m] as int],
            decreases order.len() - k,
        {
            let idx = order[k];
            let ghost prev = out@;
            out.push((items[idx].0, items[idx].1.clone()));
            proof {
                assert forall|m: int| 0 <= m < k + 1 implies (#[trigger] picker_view(out@)[m]) == listed[order@[m] as int] by {
                    if m < k {
                        assert(out@[m] == prev[m]);
                        assert(picker_view(prev)[m] == listed[order@[m] as int]);
                    }
                }
            }
            k = k + 1;
        }
        proof {
            assert(is_stable_name_sort(picker_view(out@), listed, order@));
        }
        out
    }

    /// The toolbar's "Open" button: shows the "Open" menu below it with an
    /// empty, focused search.
    pub fn open_menu_button_clicked(&mut self, position: P)
        ensures
            final(self).machine_search_text@.len() == 0,
            *final(self) == (EditorState {
                show_open_menu: true,
                open_menu_position: Some(position),
                suppress_open_menu_outside_close_once: true,
                machine_search_text: final(self).machine_search_text,
                machine_search_should_focus: true,
                ..*old(self)
            }),
    {
        self.open_menu_position = Some(position);
        self.suppress_open_menu_outside_close_once = true;
        self.show_open_menu = true;
        self.machine_search_text = String::new();
        self.machine_search_should_focus = true;
    }

    /// The toolbar's inspector button: shows or hides the world inspector.
    pub fn toggle_world_inspector(&mut self)
        ensures
            *final(self) == (EditorState { show_world_inspector: !old(self).show_world_inspector, ..*old(self) }),
    {
        self.show_world_inspector = !self.show_world_inspector;
    }

    /// The label of the toolbar's inspector button.
    pub fn world_inspector_button_label(&self) -> (r: &'static str)
        ensures
            r@ == (if self.show_world_inspector {
                "Hide Inspector"@
            } else {
                "Show Inspector"@
            }),
    {
        if self.show_world_inspector {
            "Hide Inspector"
        } else {
            "Show Inspector"
        }
    }

    /// Whether the picker's search field should take the focus now; the
    /// request is used up.
    pub fn take_search_focus(&mut self) -> (r: bool)
        ensures
            r == old(self).machine_search_should_focus,
            *final(self) == (EditorState { machine_search_should_focus: false, ..*old(self) }),
    {
        let r = self.machine_search_should_focus;
        self.machine_search_should_focus = false;
        r
    }

    /// A click while the "Open" menu shows, inside it or not. The click that
    /// opened the menu is let through once; after that a click outside closes it.
    pub fn open_menu_click(&mut self, inside: bool)
        ensures
            *final(self) == (EditorState {
                suppress_open_menu_outside_close_once: false,
                show_open_menu: old(self).show_open_menu && (old(self).suppress_open_menu_outside_close_once || inside),
                ..*old(self)
            }),
    {
        if self.suppress_open_menu_outside_close_once {
            self.suppress_open_menu_outside_close_once = false;
            return;
        }
        if !inside {
            self.show_open_menu = false;
        }
    }

    /// A machine picked in the "Open" menu: the menu closes and the machine is
    /// to be opened at the default place.
    pub fn open_menu_pick(&mut self, entity: EntityId) -> (r: OpenMachineRequested<P>)
        ensures
            r.entity == entity,
            r.position is None,
            *final(self) == (EditorState { show_open_menu: false, ..*old(self) }),
    {
        self.show_open_menu = false;
        OpenMachineRequested { entity, position: None }
    }

    /// The background menu's "Open State Machine": shows the machine submenu
    /// with an empty, focused search.
    pub fn background_open_state_machine_clicked(&mut self)
        ensures
            final(self).machine_search_text@.len() == 0,
            *final(self) == (EditorState {
                show_machine_selection_menu: true,
                machine_search_text: final(self).machine_search_text,
                machine_search_should_focus: true,
                ..*old(self)
            }),
    {
        self.machine_search_text = String::new();
        self.machine_search_should_focus = true;
        self.show_machine_selection_menu = true;
    }

    /// The background menu's "Create New Machine", once `entity` has been made:
    /// the machine is to open where the menu was, and the menu closes.
    pub fn background_create_machine_clicked(&mut self, entity: EntityId) -> (r: OpenMachineRequested<P>)
        ensures
            r.entity == entity,
            r.position == old(self).background_context_menu_position,
            *final(self) == (EditorState { background_context_menu_position: None, ..*old(self) }),
            old(self).menus_exclusive() ==> final(self).menus_exclusive(),
    {
        let position = self.background_context_menu_position;
        self.background_context_menu_position = None;
        OpenMachineRequested { entity, position }
    }

    /// A click while the background menu shows: outside it, and with no
    /// submenu open, the menu closes.
    pub fn background_menu_click(&mut self, inside: bool)
        ensures
            *final(self) == (EditorState {
                background_context_menu_position: if !old(self).show_machine_selection_menu && !inside {
                    None
                } else {
                    old(self).background_context_menu_position
                },
                ..*old(self)
            }),
            old(self).menus_exclusive() ==> final(self).menus_exclusive(),
    {
        if !self.show_machine_selection_menu && !inside {
            self.background_context_menu_position = None;
        }
    }

    /// Whether the machine submenu is drawn: it was asked for and the
    /// background menu it hangs from is open.
    pub fn machine_submenu_visible(&self) -> (r: bool)
        ensures
            r == (self.show_machine_selection_menu && self.background_context_menu_position is Some),
    {
        self.show_machine_selection_menu && self.background_context_menu_position.is_some()
    }

    /// A machine picked in the submenu: it is to open where the background
    /// menu was, and both menus close.
    pub fn machine_submenu_pick(&mut self, entity: EntityId) -> (r: OpenMachineRequested<P>)
        ensures
            r.entity == entity,
            r.position == old(self).background_context_menu_position,
            *final(self) == (EditorState {
                background_context_menu_position: None,
                show_machine_selection_menu: false,
                ..*old(self)
            }),
            old(self).menus_exclusive() ==> final(self).menus_exclusive(),
    {
        let position = self.background_context_menu_position;
        self.background_context_menu_position = None;
        self.show_machine_selection_menu = false;
        OpenMachineRequested { entity, position }
    }

    /// A click while the submenu shows: outside both menus, both close.
    pub fn machine_submenu_click(&mut self, inside_menu: bool, inside_submenu: bool)
        ensures
            (!inside_menu && !inside_submenu) ==> *final(self) == (EditorState {
                background_context_menu_position: None,
                show_machine_selection_menu: false,
                ..*old(self)
            }),
            (inside_menu || inside_submenu) ==> *final(self) == *old(self),
            old(self).menus_exclusive() ==> final(self).menus_exclusive(),
    {
        if !inside_menu && !inside_submenu {
            self.background_context_menu_position = None;
            self.show_machine_selection_menu = false;
        }
    }
}

/// Every machine a picker offers is closed, is not an internal machine, and
/// matches the search; and every machine with those three properties is offered.
pub proof fn law_picker_offers_exactly_the_closed_matches(
    open: Seq<EntityId>,
    search: Seq<char>,
    ms: Seq<(EntityId, Option<String>)>,
    e: EntityId,
    name: Seq<char>,
)
    ensures
        pickable_machines(open, search, ms).contains((e, name)) <==> exists|k: int|
            0 <= k < ms.len() && (#[trigger] ms[k]).0 == e && machine_display_name(ms[k].1) == name && is_pickable(
                open,
                search,
                ms[k],
            ),
    decreases ms.len(),
{
    if ms.len() > 0 {
        let n = ms.len() - 1;
        let prev = ms.drop_last();
        law_picker_offers_exactly_the_closed_matches(open, search, prev, e, name);
        let rest = pickable_machines(open, search, prev);
        let full = pickable_machines(open, search, ms);
        let x = (ms.last().0, machine_display_name(ms.last().1));
        assert(ms.last() == ms[n]);
        if is_pickable(open, search, ms.last()) {
            assert(full == rest.push(x));
        } else {
            assert(full == rest);
        }
        assert forall|y: (EntityId, Seq<char>)| rest.contains(y) implies full.contains(y) by {
            let j = choose|j: int| 0 <= j < rest.len() && rest[j] == y;
            assert(full[j] == rest[j]);
        }
        if full.contains((e, name)) {
            if !rest.contains((e, name)) {
                let j = choose|j: int| 0 <= j < full.len() && full[j] == (e, name);
                assert(j == rest.len());
                assert(is_pickable(open, search, ms.last()));
                assert(ms[n].0 == e && machine_display_name(ms[n].1) == name && is_pickable(open, search, ms[n]));
            } else {
                let k = choose|k: int|
                    0 <= k < prev.len() && (#[trigger] prev[k]).0 == e && machine_display_name(prev[k].1) == name
                        && is_pickable(open, search, prev[k]);
                assert(ms[k] == prev[k]);
            }
        }
        if exists|k: int|
            0 <= k < ms.len() && (#[trigger] ms[k]).0 == e && machine_display_name(ms[k].1) == name && is_pickable(
                open,
                search,
                ms[k],
            ) {
            let k = choose|k: int|
                0 <= k < ms.len() && (#[trigger] ms[k]).0 == e && machine_display_name(ms[k].1) == name
                    && is_pickable(open, search, ms[k]);
            if k < n {
                assert(prev[k] == ms[k]);
                assert(rest.contains((e, name)));
            } else {
                assert(x == (e, name));
                assert(full[rest.len() as int] == (e, name));
            }
        }
    }
}

/// The machines of the machine list, in the order given: every machine but
/// the internal ones, each with the name it is shown under.
pub fn machine_list_entries(machines: &Vec<(EntityId, Option<String>)>) -> (r: Vec<(EntityId, String)>)
    ensures
        picker_view(r@) == listed_machines(machines@),
{
    let mut out: Vec<(EntityId, String)> = Vec::new();
    let mut i: usize = 0;
    while i < machines.len()
        invariant
            i <= machines@.len(),
            picker_view(out@) == listed_machines(machines@.take(i as int)),
        decreases machines.len() - i,
    {
        proof {
            lemma_take_last(machines@, i as int);
        }
        let (internal, name) = match &machines[i].1 {
            Some(n) => (str_eq(n.as_str(), "NodeKind"), n.clone()),
            None => (false, String::from_str("Unnamed Machine")),
        };
        assert(internal == is_internal_machine(machines@[i as int].1));
        assert(name@ == machine_display_name(machines@[i as int].1));
        if !internal {
            let ghost prev = out@;
            out.push((machines[i].0, name));
            proof {
                assert(picker_view(out@) =~= picker_view(prev).push((machines@[i as int].0, name@)));
            }
        }
        i = i + 1;
    }
    proof {
        assert(machines@.take(machines@.len() as int) =~= machines@);
    }
    out
}

/// The machines the machine list shows, with their display names.
pub open spec fn listed_machines(ms: Seq<(EntityId, Option<String>)>) -> Seq<(EntityId, Seq<char>)>
    decreases ms.len(),
{
    if ms.len() == 0 {
        Seq::empty()
    } else {
        let rest = listed_machines(ms.drop_last());
        if is_internal_machine(ms.last().1) {
            rest
        } else {
            rest.push((ms.last().0, machine_display_name(ms.last().1)))
        }
    }
}

/// `name` with each space made an underscore.
pub open spec fn underscored(name: Seq<char>) -> Seq<char> {
    name.map_values(|c: char| if c == ' ' { '_' } else { c })
}

/// The file a machine named `name` is saved to: under `assets/`, its name
/// with spaces made underscores and lower-cased, with the scene extension.
pub open spec fn save_path_of(name: Seq<char>) -> Seq<char> {
    "assets/"@ + lowercase_of(underscored(name)) + ".scn.ron"@
}

/// The file a machine named `entity_name` is saved to (see `save_path_of`).
pub fn machine_save_path(entity_name: &str) -> (r: String)
    ensures
        r@ == save_path_of(entity_name@),
{
    let n = entity_name.unicode_len();
    let mut spaced = String::new();
    let mut i: usize = 0;
    while i < n
        invariant
            n == entity_name@.len(),
            i <= n,
            spaced@ == underscored(entity_name@.subrange(0, i as int)),
        decreases n - i,
    {
        let c = entity_name.get_char(i);
        let ghost before = spaced@;
        if c == ' ' {
            spaced.append("_");
            proof {
                reveal_strlit("_");
            }
        } else {
            spaced.append(entity_name.substring_char(i, i + 1));
        }
        proof {
            assert(entity_name@.subrange(0, i as int + 1) =~= entity_name@.subrange(0, i as int).push(c));
            assert(underscored(entity_name@.subrange(0, i as int + 1)) =~= before.push(if c == ' ' { '_' } else { c }));
            assert(spaced@ =~= before.push(if c == ' ' { '_' } else { c }));
        }
        i = i + 1;
    }
    proof {
        assert(entity_name@.subrange(0, n as int) =~= entity_name@);
    }
    let lowered = to_lowercase(spaced.as_str());
    let mut path = String::from_str("assets/");
    path.append(lowered.as_str());
    path.append(".scn.ron");
    path
}

} // verus!
