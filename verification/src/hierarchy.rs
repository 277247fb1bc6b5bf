use vstd::prelude::*;

verus! {

/// An entity of the edited world, by the bits of its ECS identifier.
pub type EntityId = u64;

/// The `k`-th ancestor of `e` in the child-to-parent map `m` (`e` itself for
/// `k == 0`); meaningful while every earlier step had a parent.
pub open spec fn ancestor_at(m: Map<EntityId, EntityId>, e: EntityId, k: nat) -> EntityId
    decreases k,
{
    if k == 0 {
        e
    } else {
        m[ancestor_at(m, e, (k - 1) as nat)]
    }
}

/// Following parents from `e` for `k` steps ends at an entity without parent.
pub open spec fn is_root_after(m: Map<EntityId, EntityId>, e: EntityId, k: nat) -> bool {
    &&& forall|j: nat| j < k ==> m.contains_key(#[trigger] ancestor_at(m, e, j))
    &&& !m.contains_key(ancestor_at(m, e, k))
}

/// The chain of parents above `e` ends.
pub open spec fn has_root(m: Map<EntityId, EntityId>, e: EntityId) -> bool {
    exists|k: nat| is_root_after(m, e, k)
}

/// Every chain of parents ends: the map has no cycle.
pub open spec fn acyclic(m: Map<EntityId, EntityId>) -> bool {
    forall|e: EntityId| #[trigger] has_root(m, e)
}

/// How many parents lie above `e`.
pub open spec fn depth(m: Map<EntityId, EntityId>, e: EntityId) -> nat {
    choose|k: nat| is_root_after(m, e, k)
}

/// The topmost ancestor of `e` (`e` itself when it has no parent).
pub open spec fn root_of(m: Map<EntityId, EntityId>, e: EntityId) -> EntityId {
    ancestor_at(m, e, depth(m, e))
}

/// `a` is `e` or lies above it.
pub open spec fn is_ancestor_or_self(m: Map<EntityId, EntityId>, a: EntityId, e: EntityId) -> bool {
    exists|k: nat| k <= depth(m, e) && #[trigger] ancestor_at(m, e, k) == a
}

/// The number of steps to a root is unique.
pub proof fn lemma_depth_unique(m: Map<EntityId, EntityId>, e: EntityId, k: nat)
    requires
        is_root_after(m, e, k),
    ensures
        depth(m, e) == k,
{
    let d = depth(m, e);
    assert(is_root_after(m, e, d));
    if d < k {
        assert(m.contains_key(ancestor_at(m, e, d)));
    } else if d > k {
        assert(m.contains_key(ancestor_at(m, e, k)));
    }
}

/// In an acyclic map, `depth` counts the steps to the root.
pub proof fn lemma_depth(m: Map<EntityId, EntityId>, e: EntityId)
    requires
        acyclic(m),
    ensures
        is_root_after(m, e, depth(m, e)),
{
    assert(has_root(m, e));
    let k = choose|k: nat| is_root_after(m, e, k);
    lemma_depth_unique(m, e, k);
}

/// Walking `a` steps and then `b` steps is walking `a + b` steps.
pub proof fn lemma_ancestor_compose(m: Map<EntityId, EntityId>, e: EntityId, a: nat, b: nat)
    ensures
        ancestor_at(m, ancestor_at(m, e, a), b) == ancestor_at(m, e, a + b),
    decreases b,
{
    if b > 0 {
        lemma_ancestor_compose(m, e, a, (b - 1) as nat);
        assert((a + b - 1) as nat == a + (b - 1) as nat);
    }
}

/// A child's chain to the root is one step longer than its parent's.
pub proof fn lemma_depth_step(m: Map<EntityId, EntityId>, e: EntityId)
    requires
        acyclic(m),
        m.contains_key(e),
    ensures
        depth(m, e) == depth(m, m[e]) + 1,
        root_of(m, e) == root_of(m, m[e]),
{
    let p = m[e];
    assert(ancestor_at(m, e, 0) == e);
    assert(ancestor_at(m, e, 1) == p);
    lemma_depth(m, p);
    let dp = depth(m, p);
    assert forall|j: nat| j < dp + 1 implies m.contains_key(#[trigger] ancestor_at(m, e, j)) by {
        if j > 0 {
            lemma_ancestor_compose(m, e, 1, (j - 1) as nat);
            assert(ancestor_at(m, e, 1) == p);
            assert(m.contains_key(ancestor_at(m, p, (j - 1) as nat)));
        }
    }
    lemma_ancestor_compose(m, e, 1, dp);
    assert(ancestor_at(m, e, 1) == p);
    lemma_depth_unique(m, e, dp + 1);
}


/// Adding a parent for `c` leaves every chain that avoids `c` as it was.
pub proof fn lemma_chain_unchanged(m: Map<EntityId, EntityId>, c: EntityId, p: EntityId, e: EntityId, d: nat, j: nat)
    requires
        is_root_after(m, e, d),
        j <= d,
        forall|i: nat| i <= j ==> #[trigger] ancestor_at(m, e, i) != c,
    ensures
        ancestor_at(m.insert(c, p), e, j) == ancestor_at(m, e, j),
    decreases j,
{
    if j > 0 {
        let jm = (j - 1) as nat;
        lemma_chain_unchanged(m, c, p, e, d, jm);
        assert(m.contains_key(ancestor_at(m, e, jm)));
        assert(ancestor_at(m, e, jm) != c);
    }
}

/// Giving a parentless entity `c` the parent `p` keeps the map acyclic, unless
/// `c` lies on `p`'s own chain.
pub proof fn lemma_link_keeps_acyclic(m: Map<EntityId, EntityId>, c: EntityId, p: EntityId)
    requires
        acyclic(m),
        !m.contains_key(c),
        !is_ancestor_or_self(m, c, p),
    ensures
        acyclic(m.insert(c, p)),
{
    let n = m.insert(c, p);
    lemma_depth(m, p);
    let dp = depth(m, p);
    assert forall|t: nat| t <= dp implies #[trigger] ancestor_at(m, p, t) != c by {
        if ancestor_at(m, p, t) == c {
            assert(is_ancestor_or_self(m, c, p));
        }
    }
    assert forall|e: EntityId| #[trigger] has_root(n, e) by {
        lemma_depth(m, e);
        let d = depth(m, e);
        if forall|i: nat| i <= d ==> #[trigger] ancestor_at(m, e, i) != c {
            assert forall|j: nat| j < d implies n.contains_key(#[trigger] ancestor_at(n, e, j)) by {
                lemma_chain_unchanged(m, c, p, e, d, j);
            }
            lemma_chain_unchanged(m, c, p, e, d, d);
            assert(is_root_after(n, e, d));
        } else {
            let i = choose|i: nat| i <= d && #[trigger] ancestor_at(m, e, i) == c;
            if i < d {
                assert(m.contains_key(ancestor_at(m, e, i)));
            }
            assert(i == d);
            assert forall|j: nat| j < d implies #[trigger] ancestor_at(n, e, j) == ancestor_at(m, e, j) by {
                assert forall|i2: nat| i2 <= j implies #[trigger] ancestor_at(m, e, i2) != c by {
                    assert(m.contains_key(ancestor_at(m, e, i2)));
                }
                lemma_chain_unchanged(m, c, p, e, d, j);
            }
            if d > 0 {
                let dm = (d - 1) as nat;
                assert(ancestor_at(n, e, dm) == ancestor_at(m, e, dm));
                assert(m.contains_key(ancestor_at(m, e, dm)));
                assert(ancestor_at(m, e, dm) != c);
            }
            assert(ancestor_at(n, e, d) == c);
            assert(ancestor_at(n, e, d + 1) == p);
            assert forall|t: nat| t <= dp implies #[trigger] ancestor_at(n, e, d + 1 + t) == ancestor_at(m, p, t) by {
                lemma_ancestor_compose(n, e, d + 1, t);
                lemma_chain_unchanged(m, c, p, p, dp, t);
            }
            assert forall|j: nat| j < d + 1 + dp implies n.contains_key(#[trigger] ancestor_at(n, e, j)) by {
                if j < d {
                    assert(m.contains_key(ancestor_at(m, e, j)));
                } else if j == d {
                } else {
                    let t = (j - d - 1) as nat;
                    assert(j == d + 1 + t);
                    assert(ancestor_at(n, e, d + 1 + t) == ancestor_at(m, p, t));
                    assert(m.contains_key(ancestor_at(m, p, t)));
                }
            }
            assert(ancestor_at(n, e, d + 1 + dp) == ancestor_at(m, p, dp));
            assert(is_root_after(n, e, d + 1 + dp));
        }
    }
}


/// The entities on a chain to the root are all different.
pub proof fn lemma_chain_distinct(m: Map<EntityId, EntityId>, e: EntityId, d: nat, i: nat, j: nat)
    requires
        is_root_after(m, e, d),
        i < j <= d,
    ensures
        ancestor_at(m, e, i) != ancestor_at(m, e, j),
{
    if ancestor_at(m, e, i) == ancestor_at(m, e, j) {
        let t = (d - j) as nat;
        lemma_ancestor_compose(m, e, i, t);
        lemma_ancestor_compose(m, e, j, t);
        assert(ancestor_at(m, e, i + t) == ancestor_at(m, e, d));
        assert(m.contains_key(ancestor_at(m, e, i + t)));
    }
}

/// A chain to the root is no longer than the number of entities with a parent.
pub proof fn lemma_depth_bound(m: Map<EntityId, EntityId>, e: EntityId, keys: Seq<EntityId>)
    requires
        acyclic(m),
        keys.no_duplicates(),
        forall|c: EntityId| m.contains_key(c) <==> keys.contains(c),
    ensures
        depth(m, e) <= keys.len(),
{
    lemma_depth(m, e);
    let d = depth(m, e);
    let chain = Seq::new(d, |i: int| ancestor_at(m, e, i as nat));
    assert forall|i: int, j: int| 0 <= i < chain.len() && 0 <= j < chain.len() && i != j implies chain[i] != chain[j] by {
        if i < j {
            lemma_chain_distinct(m, e, d, i as nat, j as nat);
        } else {
            lemma_chain_distinct(m, e, d, j as nat, i as nat);
        }
    }
    chain.unique_seq_to_set();
    keys.unique_seq_to_set();
    assert forall|x: EntityId| chain.to_set().contains(x) implies keys.to_set().contains(x) by {
        let i = choose|i: int| 0 <= i < chain.len() && chain[i] == x;
        assert(m.contains_key(ancestor_at(m, e, i as nat)));
    }
    vstd::set_lib::lemma_len_subset(chain.to_set(), keys.to_set());
}

/// The parent relation of the states of a machine: each state has at most one
/// parent, and every chain of parents ends at a root.
pub struct StateTree {
    links: Vec<(EntityId, EntityId)>,
    parents: Ghost<Map<EntityId, EntityId>>,
}

impl View for StateTree {
    type V = Map<EntityId, EntityId>;

    /// Child to parent.
    closed spec fn view(&self) -> Map<EntityId, EntityId> {
        self.parents@
    }
}

impl StateTree {
    /// The (child, parent) links in the order they were added; the children
    /// of a state come in this order.
    pub closed spec fn link_order(&self) -> Seq<(EntityId, EntityId)> {
        self.links@
    }

    /// The links agree with the parent map, list each child once, and form no cycle.
    pub closed spec fn well_formed(&self) -> bool {
        &&& forall|i: int, j: int|
            0 <= i < j < self.links@.len() ==> (#[trigger] self.links@[i]).0 != (#[trigger] self.links@[j]).0
        &&& forall|i: int|
            0 <= i < self.links@.len() ==> self.parents@.contains_key((#[trigger] self.links@[i]).0)
                && self.parents@[self.links@[i].0] == self.links@[i].1
        &&& forall|c: EntityId|
            #[trigger] self.parents@.contains_key(c) ==> exists|i: int|
                0 <= i < self.links@.len() && (#[trigger] self.links@[i]).0 == c
        &&& acyclic(self.parents@)
    }

    /// A well-formed tree has no cycle.
    pub proof fn lemma_well_formed(&self)
        requires
            self.well_formed(),
        ensures
            acyclic(self@),
    {
    }

    /// The children of the links, in order.
    closed spec fn child_keys(&self) -> Seq<EntityId> {
        self.links@.map_values(|l: (EntityId, EntityId)| l.0)
    }

    proof fn lemma_depth_fits(&self, e: EntityId)
        requires
            self.well_formed(),
        ensures
            depth(self@, e) <= self.links@.len(),
    {
        let keys = self.child_keys();
        assert forall|i: int, j: int| 0 <= i < keys.len() && 0 <= j < keys.len() && i != j implies keys[i] != keys[j] by {
            if i < j {
                assert(self.links@[i].0 != self.links@[j].0);
            } else {
                assert(self.links@[j].0 != self.links@[i].0);
            }
        }
        assert forall|c: EntityId| self.parents@.contains_key(c) <==> keys.contains(c) by {
            if self.parents@.contains_key(c) {
                let i = choose|i: int| 0 <= i < self.links@.len() && (#[trigger] self.links@[i]).0 == c;
                assert(keys[i] == c);
            }
            if keys.contains(c) {
                let i = choose|i: int| 0 <= i < keys.len() && keys[i] == c;
                assert(self.links@[i].0 == c);
            }
        }
        lemma_depth_bound(self.parents@, e, keys);
    }

    /// A tree with no links.
    pub fn new() -> (t: Self)
        ensures
            t.well_formed(),
            t@ == Map::<EntityId, EntityId>::empty(),
            t.link_order() == Seq::<(EntityId, EntityId)>::empty(),
    {
        let t = StateTree { links: Vec::new(), parents: Ghost(Map::empty()) };
        assert forall|e: EntityId| #[trigger] has_root(t.parents@, e) by {
            assert(is_root_after(t.parents@, e, 0));
        }
        t
    }

    /// The position of `child`'s link, if it has a parent.
    fn link_index(&self, child: EntityId) -> (r: Option<usize>)
        requires
            self.well_formed(),
        ensures
            match r {
                Some(i) => i < self.links@.len() && self.links@[i as int].0 == child,
                None => !self@.contains_key(child),
            },
    {
        let mut i: usize = 0;
        while i < self.links.len()
            invariant
                i <= self.links@.len(),
                forall|k: int| 0 <= k < i ==> (#[trigger] self.links@[k]).0 != child,
            decreases self.links.len() - i,
        {
            if self.links[i].0 == child {
                return Some(i);
            }
            i = i + 1;
        }
        None
    }

    /// The parent of `e`, if it has one.
    pub fn parent_of(&self, e: EntityId) -> (r: Option<EntityId>)
        requires
            self.well_formed(),
        ensures
            r == if self@.contains_key(e) {
                Some(self@[e])
            } else {
                None
            },
    {
        match self.link_index(e) {
            Some(i) => Some(self.links[i].1),
            None => None,
        }
    }

    /// How many ancestors `e` has.
    pub fn hierarchy_depth(&self, e: EntityId) -> (d: usize)
        requires
            self.well_formed(),
        ensures
            d == depth(self@, e),
    {
        let ghost m = self@;
        proof {
            lemma_depth(m, e);
            self.lemma_depth_fits(e);
        }
        let mut cur = e;
        let mut d: usize = 0;
        let n = self.links.len();
        loop
            invariant
                self.well_formed(),
                m == self@,
                n == self.links@.len(),
                is_root_after(m, e, depth(m, e)),
                depth(m, e) <= self.links@.len(),
                d <= depth(m, e),
                cur == ancestor_at(m, e, d as nat),
            decreases depth(m, e) - d,
        {
            match self.parent_of(cur) {
                Some(p) => {
                    cur = p;
                    d = d + 1;
                },
                None => {
                    return d;
                },
            }
        }
    }

    /// The topmost ancestor of `e` (`e` itself when it has no parent).
    pub fn root_ancestor(&self, e: EntityId) -> (r: EntityId)
        requires
            self.well_formed(),
        ensures
            r == root_of(self@, e),
    {
        let ghost m = self@;
        proof {
            lemma_depth(m, e);
        }
        let mut cur = e;
        let ghost mut d: nat = 0;
        loop
            invariant
                self.well_formed(),
                m == self@,
                is_root_after(m, e, depth(m, e)),
                d <= depth(m, e),
                cur == ancestor_at(m, e, d),
            decreases depth(m, e) - d,
        {
            match self.parent_of(cur) {
                Some(p) => {
                    cur = p;
                    proof {
                        d = d + 1;
                    }
                },
                None => {
                    return cur;
                },
            }
        }
    }

    /// Whether `a` is `e` or one of its ancestors.
    pub fn is_ancestor_or_self(&self, a: EntityId, e: EntityId) -> (r: bool)
        requires
            self.well_formed(),
        ensures
            r == is_ancestor_or_self(self@, a, e),
    {
        let ghost m = self@;
        proof {
            lemma_depth(m, e);
        }
        let mut cur = e;
        let ghost mut d: nat = 0;
        loop
            invariant
                self.well_formed(),
                m == self@,
                is_root_after(m, e, depth(m, e)),
                d <= depth(m, e),
                cur == ancestor_at(m, e, d),
                forall|k: nat| k < d ==> #[trigger] ancestor_at(m, e, k) != a,
            decreases depth(m, e) - d,
        {
            if cur == a {
                return true;
            }
            match self.parent_of(cur) {
                Some(p) => {
                    cur = p;
                    proof {
                        d = d + 1;
                    }
                },
                None => {
                    proof {
                        assert forall|k: nat| k <= depth(m, e) implies #[trigger] ancestor_at(m, e, k) != a by {
                            if k > d {
                                assert(m.contains_key(ancestor_at(m, e, d)));
                            }
                        }
                    }
                    return false;
                },
            }
        }
    }

    /// Gives `child` the parent `parent`. Refused, leaving the tree as it is,
    /// when `child` already has a parent or when `child` is `parent` or one of
    /// its ancestors (the link would close a cycle).
    pub fn add_link(&mut self, child: EntityId, parent: EntityId) -> (added: bool)
        requires
            old(self).well_formed(),
        ensures
            final(self).well_formed(),
            added == (!old(self)@.contains_key(child) && !is_ancestor_or_self(old(self)@, child, parent)),
            added ==> final(self)@ == old(self)@.insert(child, parent) && final(self).link_order()
                == old(self).link_order().push((child, parent)),
            !added ==> final(self)@ == old(self)@ && final(self).link_order() == old(self).link_order(),
    {
        if self.parent_of(child).is_some() {
            return false;
        }
        if self.is_ancestor_or_self(child, parent) {
            return false;
        }
        proof {
            lemma_link_keeps_acyclic(self.parents@, child, parent);
        }
        let ghost old_links = self.links@;
        self.links.push((child, parent));
        self.parents = Ghost(self.parents@.insert(child, parent));
        proof {
            assert forall|c: EntityId| #[trigger] self.parents@.contains_key(c) implies exists|i: int|
                0 <= i < self.links@.len() && (#[trigger] self.links@[i]).0 == c by {
                if c == child {
                    assert(self.links@[old_links.len() as int].0 == c);
                } else {
                    let i = choose|i: int| 0 <= i < old_links.len() && (#[trigger] old_links[i]).0 == c;
                    assert(self.links@[i] == old_links[i]);
                }
            }
        }
        true
    }

    /// The children of `p`, in the order their links were added.
    pub fn children_of(&self, p: EntityId) -> (r: Vec<EntityId>)
        requires
            self.well_formed(),
        ensures
            r@ == children_in(self.link_order(), p),
    {
        let mut out: Vec<EntityId> = Vec::new();
        let mut i: usize = 0;
        while i < self.links.len()
            invariant
                i <= self.links@.len(),
                out@ == children_in(self.links@.subrange(0, i as int), p),
            decreases self.links.len() - i,
        {
            let ghost before = self.links@.subrange(0, i as int);
            assert(self.links@.subrange(0, i + 1).drop_last() =~= before);
            if self.links[i].1 == p {
                out.push(self.links[i].0);
            }
            i = i + 1;
        }
        assert(self.links@.subrange(0, self.links@.len() as int) =~= self.links@);
        out
    }

    /// The first child of `p`, if it has any.
    pub fn first_child(&self, p: EntityId) -> (r: Option<EntityId>)
        requires
            self.well_formed(),
        ensures
            r == if children_in(self.link_order(), p).len() > 0 {
                Some(children_in(self.link_order(), p)[0])
            } else {
                None
            },
    {
        let c = self.children_of(p);
        if c.len() > 0 {
            Some(c[0])
        } else {
            None
        }
    }

    /// Appends the states of `subtrees(cs, fuel)` to `out`.
    fn push_subtrees(&self, cs: &Vec<EntityId>, fuel: usize, out: &mut Vec<EntityId>)
        requires
            self.well_formed(),
        ensures
            final(out)@ == old(out)@ + subtrees(self.link_order(), cs@, fuel as nat),
        decreases fuel,
    {
        let ghost start = out@;
        let mut i: usize = 0;
        while i < cs.len()
            invariant
                self.well_formed(),
                i <= cs@.len(),
                start == old(out)@,
                out@ == start + subtrees(self.links@, cs@.take(i as int), fuel as nat),
            decreases cs.len() - i,
        {
            let c = cs[i];
            let ghost before = out@;
            out.push(c);
            if fuel > 0 {
                let grand = self.children_of(c);
                self.push_subtrees(&grand, fuel - 1, out);
            }
            proof {
                let t = cs@.take(i + 1);
                assert(t.drop_last() =~= cs@.take(i as int));
                assert(t.last() == c);
                let below = if fuel == 0 {
                    Seq::<EntityId>::empty()
                } else {
                    subtrees(self.links@, children_in(self.links@, c), (fuel - 1) as nat)
                };
                assert(subtrees(self.links@, t, fuel as nat) == subtrees(self.links@, cs@.take(i as int), fuel as nat)
                    + seq![c] + below);
                assert(out@ =~= start + subtrees(self.links@, t, fuel as nat));
            }
            i = i + 1;
        }
        proof {
            assert(cs@.take(cs@.len() as int) =~= cs@);
        }
    }

    /// Every state below `e`, depth first: each child of `e` in the order
    /// its link was added, followed by the states below that child. Each
    /// state below `e` is listed once.
    pub fn descendants(&self, e: EntityId) -> (r: Vec<EntityId>)
        requires
            self.well_formed(),
        ensures
            r@ == depth_first(self.link_order(), e),
            r@.no_duplicates(),
            forall|x: EntityId| r@.contains(x) <==> (x != e && is_ancestor_or_self(self@, e, x)),
    {
        let children = self.children_of(e);
        let mut out: Vec<EntityId> = Vec::new();
        self.push_subtrees(&children, self.links.len(), &mut out);
        proof {
            assert(out@ =~= depth_first(self.link_order(), e));
            self.law_depth_first_lists_the_states_below(e);
        }
        out
    }

    /// Depth first, the states below `e` are listed once each, and they are
    /// exactly the states other than `e` that `e` lies above.
    pub proof fn law_depth_first_lists_the_states_below(&self, e: EntityId)
        requires
            self.well_formed(),
        ensures
            depth_first(self.link_order(), e).no_duplicates(),
            forall|x: EntityId|
                #[trigger] depth_first(self.link_order(), e).contains(x) <==> (x != e && is_ancestor_or_self(self@, e, x)),
    {
        let links = self.links@;
        let m = self@;
        assert(links_match(links, m));
        let cs = children_in(links, e);
        lemma_children_are_mapped(links, m, e);
        lemma_subtrees_distinct(links, m, cs, links.len() as nat, e);
        assert forall|x: EntityId|
            #[trigger] depth_first(links, e).contains(x) <==> (x != e && is_ancestor_or_self(m, e, x)) by {
            if depth_first(links, e).contains(x) {
                lemma_subtrees_below(links, m, cs, links.len() as nat, x);
                let c = choose|c: EntityId| #[trigger] cs.contains(c) && is_ancestor_or_self(m, c, x);
                lemma_below_child(m, e, c, x);
            }
            if x != e && is_ancestor_or_self(m, e, x) {
                let k = choose|k: nat| k <= depth(m, x) && #[trigger] ancestor_at(m, x, k) == e;
                assert(ancestor_at(m, x, 0) == x);
                let km = (k - 1) as nat;
                let c = ancestor_at(m, x, km);
                lemma_depth(m, x);
                assert(m.contains_key(c));
                assert(cs.contains(c));
                self.lemma_depth_fits(x);
                lemma_subtrees_reach(links, m, cs, links.len() as nat, c, x, km);
            }
        }
    }

    /// Whether `entity` should be drawn above its siblings because it is the
    /// selected node or one of the selected node's ancestors.
    pub fn should_get_selection_boost(&self, entity: EntityId, selected_node: Option<EntityId>) -> (r: bool)
        requires
            self.well_formed(),
        ensures
            r == match selected_node {
                Some(s) => is_ancestor_or_self(self@, entity, s),
                None => false,
            },
    {
        match selected_node {
            Some(s) => self.is_ancestor_or_self(entity, s),
            None => false,
        }
    }

    /// The state whose content area holds the event pill of a transition
    /// between `source` and `target`: of the two, take the one higher in the
    /// hierarchy (the source when they are level); if the other is its direct
    /// child, that state itself, otherwise its parent, or itself at the root.
    pub fn pill_container(&self, source: EntityId, target: EntityId) -> (r: EntityId)
        requires
            self.well_formed(),
        ensures
            r == pill_container_of(self@, source, target),
    {
        let sd = self.hierarchy_depth(source);
        let td = self.hierarchy_depth(target);
        let higher = if sd <= td { source } else { target };
        let other = if higher == source { target } else { source };
        let direct = match self.parent_of(other) {
            Some(p) => p == higher,
            None => false,
        };
        if direct {
            higher
        } else {
            match self.parent_of(higher) {
                Some(p) => p,
                None => higher,
            }
        }
    }

}


/// The children of `p` among `links`, in link order.
pub open spec fn children_in(links: Seq<(EntityId, EntityId)>, p: EntityId) -> Seq<EntityId>
    decreases links.len(),
{
    if links.len() == 0 {
        Seq::empty()
    } else {
        let rest = children_in(links.drop_last(), p);
        if links.last().1 == p {
            rest.push(links.last().0)
        } else {
            rest
        }
    }
}

/// The states below the children `cs`, depth first: each child in turn,
/// followed by the states below it, `fuel` levels further down at most.
pub open spec fn subtrees(links: Seq<(EntityId, EntityId)>, cs: Seq<EntityId>, fuel: nat) -> Seq<EntityId>
    decreases fuel, cs.len(),
{
    if cs.len() == 0 {
        Seq::empty()
    } else {
        let below = if fuel == 0 {
            Seq::empty()
        } else {
            subtrees(links, children_in(links, cs.last()), (fuel - 1) as nat)
        };
        subtrees(links, cs.drop_last(), fuel) + seq![cs.last()] + below
    }
}

/// The states below `e`, depth first, children in link order. No chain of
/// parents is longer than the links, so every level below `e` is reached.
pub open spec fn depth_first(links: Seq<(EntityId, EntityId)>, e: EntityId) -> Seq<EntityId> {
    subtrees(links, children_in(links, e), links.len())
}

/// The links list each child once and agree with the child-to-parent map.
pub open spec fn links_match(links: Seq<(EntityId, EntityId)>, m: Map<EntityId, EntityId>) -> bool {
    &&& forall|i: int, j: int| 0 <= i < j < links.len() ==> (#[trigger] links[i]).0 != (#[trigger] links[j]).0
    &&& forall|i: int| 0 <= i < links.len() ==> m.contains_key((#[trigger] links[i]).0) && m[links[i].0] == links[i].1
    &&& forall|c: EntityId| #[trigger] m.contains_key(c) ==> exists|i: int| 0 <= i < links.len() && (#[trigger] links[i]).0 == c
}

/// The children of `p` are the entities linked to it.
proof fn lemma_children_in_members(links: Seq<(EntityId, EntityId)>, p: EntityId)
    ensures
        forall|c: EntityId|
            #[trigger] children_in(links, p).contains(c) <==> exists|i: int|
                0 <= i < links.len() && (#[trigger] links[i]).0 == c && links[i].1 == p,
    decreases links.len(),
{
    if links.len() > 0 {
        let prev = links.drop_last();
        let n = links.len() - 1;
        lemma_children_in_members(prev, p);
        let rest = children_in(prev, p);
        assert forall|c: EntityId|
            #[trigger] children_in(links, p).contains(c) <==> exists|i: int|
                0 <= i < links.len() && (#[trigger] links[i]).0 == c && links[i].1 == p by {
            if children_in(links, p).contains(c) {
                if links[n].1 == p && links[n].0 == c {
                } else {
                    if links[n].1 == p {
                        let j = choose|j: int| 0 <= j < rest.push(links[n].0).len() && rest.push(links[n].0)[j] == c;
                        assert(j < rest.len());
                        assert(rest[j] == c);
                    }
                    assert(rest.contains(c));
                    let i = choose|i: int| 0 <= i < prev.len() && (#[trigger] prev[i]).0 == c && prev[i].1 == p;
                    assert(links[i] == prev[i]);
                }
            }
            if exists|i: int| 0 <= i < links.len() && (#[trigger] links[i]).0 == c && links[i].1 == p {
                let i = choose|i: int| 0 <= i < links.len() && (#[trigger] links[i]).0 == c && links[i].1 == p;
                if i == n {
                    assert(children_in(links, p)[rest.len() as int] == c);
                } else {
                    assert(prev[i] == links[i]);
                    assert(rest.contains(c));
                    let j = choose|j: int| 0 <= j < rest.len() && rest[j] == c;
                    assert(children_in(links, p)[j] == c);
                }
            }
        }
    }
}

/// With each child linked once, the children of `p` are listed once each.
proof fn lemma_children_in_distinct(links: Seq<(EntityId, EntityId)>, p: EntityId)
    requires
        forall|i: int, j: int| 0 <= i < j < links.len() ==> (#[trigger] links[i]).0 != (#[trigger] links[j]).0,
    ensures
        children_in(links, p).no_duplicates(),
    decreases links.len(),
{
    if links.len() > 0 {
        let prev = links.drop_last();
        let n = links.len() - 1;
        assert forall|i: int, j: int| 0 <= i < j < prev.len() implies (#[trigger] prev[i]).0 != (#[trigger] prev[j]).0 by {
            assert(prev[i] == links[i] && prev[j] == links[j]);
        }
        lemma_children_in_distinct(prev, p);
        lemma_children_in_members(prev, p);
        let rest = children_in(prev, p);
        if links[n].1 == p {
            if rest.contains(links[n].0) {
                let i = choose|i: int| 0 <= i < prev.len() && (#[trigger] prev[i]).0 == links[n].0 && prev[i].1 == p;
                assert(links[i].0 != links[n].0);
            }
            assert forall|a: int, b: int| 0 <= a < b < rest.push(links[n].0).len() implies rest.push(links[n].0)[a]
                != rest.push(links[n].0)[b] by {
                if b == rest.len() {
                    assert(rest.contains(rest[a]));
                }
            }
        }
    }
}

/// Where the links match the map, the children of `p` are the entities whose
/// parent is `p`, each listed once.
proof fn lemma_children_are_mapped(links: Seq<(EntityId, EntityId)>, m: Map<EntityId, EntityId>, p: EntityId)
    requires
        links_match(links, m),
    ensures
        children_in(links, p).no_duplicates(),
        forall|c: EntityId| #[trigger] children_in(links, p).contains(c) <==> (m.contains_key(c) && m[c] == p),
{
    lemma_children_in_members(links, p);
    lemma_children_in_distinct(links, p);
    assert forall|c: EntityId| #[trigger] children_in(links, p).contains(c) <==> (m.contains_key(c) && m[c] == p) by {
        if m.contains_key(c) && m[c] == p {
            let i = choose|i: int| 0 <= i < links.len() && (#[trigger] links[i]).0 == c;
            assert(links[i].1 == p);
        }
    }
}

/// The `k`-th ancestor of `x` lies `k` levels higher.
proof fn lemma_ancestor_depth(m: Map<EntityId, EntityId>, x: EntityId, k: nat)
    requires
        acyclic(m),
        k <= depth(m, x),
    ensures
        depth(m, ancestor_at(m, x, k)) == depth(m, x) - k,
{
    lemma_depth(m, x);
    let d = depth(m, x);
    let a = ancestor_at(m, x, k);
    assert forall|j: nat| j < d - k implies m.contains_key(#[trigger] ancestor_at(m, a, j)) by {
        lemma_ancestor_compose(m, x, k, j);
    }
    lemma_ancestor_compose(m, x, k, (d - k) as nat);
    lemma_depth_unique(m, a, (d - k) as nat);
}

/// An entity above `x` is the one found by climbing the difference of their depths.
proof fn lemma_ancestor_by_depth(m: Map<EntityId, EntityId>, a: EntityId, x: EntityId)
    requires
        acyclic(m),
        is_ancestor_or_self(m, a, x),
    ensures
        depth(m, a) <= depth(m, x),
        a == ancestor_at(m, x, (depth(m, x) - depth(m, a)) as nat),
{
    let k = choose|k: nat| k <= depth(m, x) && #[trigger] ancestor_at(m, x, k) == a;
    lemma_ancestor_depth(m, x, k);
}

/// What lies below a child of `p` lies below `p`, and is not `p`.
proof fn lemma_below_child(m: Map<EntityId, EntityId>, p: EntityId, c: EntityId, x: EntityId)
    requires
        acyclic(m),
        m.contains_key(c),
        m[c] == p,
        is_ancestor_or_self(m, c, x),
    ensures
        is_ancestor_or_self(m, p, x),
        x != p,
{
    let k = choose|k: nat| k <= depth(m, x) && #[trigger] ancestor_at(m, x, k) == c;
    lemma_ancestor_depth(m, x, k);
    lemma_depth_step(m, c);
    assert(ancestor_at(m, x, k + 1) == p);
    assert(ancestor_at(m, x, 0) == x);
}

/// Everything in the subtrees of `cs` lies below one of `cs`.
proof fn lemma_subtrees_below(
    links: Seq<(EntityId, EntityId)>,
    m: Map<EntityId, EntityId>,
    cs: Seq<EntityId>,
    fuel: nat,
    x: EntityId,
)
    requires
        acyclic(m),
        links_match(links, m),
        subtrees(links, cs, fuel).contains(x),
    ensures
        exists|c: EntityId| #[trigger] cs.contains(c) && is_ancestor_or_self(m, c, x),
    decreases fuel, cs.len(),
{
    let prev = cs.drop_last();
    let cl = cs.last();
    let a = subtrees(links, prev, fuel);
    let below = if fuel == 0 {
        Seq::<EntityId>::empty()
    } else {
        subtrees(links, children_in(links, cl), (fuel - 1) as nat)
    };
    let all = subtrees(links, cs, fuel);
    assert(all == a + seq![cl] + below);
    let i = choose|i: int| 0 <= i < all.len() && all[i] == x;
    assert(cs.contains(cl));
    if i < a.len() {
        assert(a[i] == x);
        lemma_subtrees_below(links, m, prev, fuel, x);
        let c = choose|c: EntityId| #[trigger] prev.contains(c) && is_ancestor_or_self(m, c, x);
        let j = choose|j: int| 0 <= j < prev.len() && prev[j] == c;
        assert(cs[j] == c);
        assert(cs.contains(c) && is_ancestor_or_self(m, c, x));
    } else if i == a.len() {
        assert(ancestor_at(m, x, 0) == x);
        assert(is_ancestor_or_self(m, cl, x));
        assert(cs.contains(cl) && is_ancestor_or_self(m, cl, x));
    } else {
        assert(below[i - a.len() - 1] == x);
        lemma_subtrees_below(links, m, children_in(links, cl), (fuel - 1) as nat, x);
        let c = choose|c: EntityId| #[trigger] children_in(links, cl).contains(c) && is_ancestor_or_self(m, c, x);
        lemma_children_are_mapped(links, m, cl);
        lemma_below_child(m, cl, c, x);
        assert(cs.contains(cl) && is_ancestor_or_self(m, cl, x));
    }
}

/// Everything at most `fuel` levels below one of `cs` is in their subtrees.
proof fn lemma_subtrees_reach(
    links: Seq<(EntityId, EntityId)>,
    m: Map<EntityId, EntityId>,
    cs: Seq<EntityId>,
    fuel: nat,
    c: EntityId,
    x: EntityId,
    k: nat,
)
    requires
        acyclic(m),
        links_match(links, m),
        cs.contains(c),
        ancestor_at(m, x, k) == c,
        k <= fuel,
        k <= depth(m, x),
    ensures
        subtrees(links, cs, fuel).contains(x),
    decreases fuel, cs.len(),
{
    let prev = cs.drop_last();
    let cl = cs.last();
    let a = subtrees(links, prev, fuel);
    let below = if fuel == 0 {
        Seq::<EntityId>::empty()
    } else {
        subtrees(links, children_in(links, cl), (fuel - 1) as nat)
    };
    let all = subtrees(links, cs, fuel);
    assert(all == a + seq![cl] + below);
    if cl == c {
        if k == 0 {
            assert(all[a.len() as int] == x);
        } else {
            let km = (k - 1) as nat;
            let c2 = ancestor_at(m, x, km);
            lemma_depth(m, x);
            assert(m.contains_key(c2));
            lemma_children_are_mapped(links, m, c);
            assert(children_in(links, c).contains(c2));
            lemma_subtrees_reach(links, m, children_in(links, c), (fuel - 1) as nat, c2, x, km);
            let j = choose|j: int| 0 <= j < below.len() && below[j] == x;
            assert(all[a.len() + 1 + j] == x);
        }
    } else {
        let j = choose|j: int| 0 <= j < cs.len() && cs[j] == c;
        assert(prev[j] == c);
        lemma_subtrees_reach(links, m, prev, fuel, c, x, k);
        let i = choose|i: int| 0 <= i < a.len() && a[i] == x;
        assert(all[i] == x);
    }
}

/// The subtrees of distinct children of one state share no entity.
proof fn lemma_subtrees_distinct(
    links: Seq<(EntityId, EntityId)>,
    m: Map<EntityId, EntityId>,
    cs: Seq<EntityId>,
    fuel: nat,
    p: EntityId,
)
    requires
        acyclic(m),
        links_match(links, m),
        cs.no_duplicates(),
        forall|c: EntityId| #[trigger] cs.contains(c) ==> m.contains_key(c) && m[c] == p,
    ensures
        subtrees(links, cs, fuel).no_duplicates(),
    decreases fuel, cs.len(),
{
    if cs.len() > 0 {
        let prev = cs.drop_last();
        let cl = cs.last();
        let a = subtrees(links, prev, fuel);
        let below = if fuel == 0 {
            Seq::<EntityId>::empty()
        } else {
            subtrees(links, children_in(links, cl), (fuel - 1) as nat)
        };
        assert(subtrees(links, cs, fuel) == a + seq![cl] + below);
        assert(cs.contains(cl));
        assert forall|c: EntityId| #[trigger] prev.contains(c) implies m.contains_key(c) && m[c] == p && c != cl by {
            let j = choose|j: int| 0 <= j < prev.len() && prev[j] == c;
            assert(cs[j] == c);
            assert(cs.contains(c));
        }
        lemma_subtrees_distinct(links, m, prev, fuel, p);
        lemma_depth_step(m, cl);
        // Whatever lies below a child of `p` sits below no other child of `p`.
        assert forall|x: EntityId| #[trigger] a.contains(x) implies !is_ancestor_or_self(m, cl, x) by {
            lemma_subtrees_below(links, m, prev, fuel, x);
            let c = choose|c: EntityId| #[trigger] prev.contains(c) && is_ancestor_or_self(m, c, x);
            lemma_depth_step(m, c);
            if is_ancestor_or_self(m, cl, x) {
                lemma_ancestor_by_depth(m, c, x);
                lemma_ancestor_by_depth(m, cl, x);
            }
        }
        assert(ancestor_at(m, cl, 0) == cl);
        assert(is_ancestor_or_self(m, cl, cl));
        assert forall|i: int, j: int| 0 <= i < a.len() && 0 <= j < seq![cl].len() implies a[i] != seq![cl][j] by {
            assert(a.contains(a[i]));
        }
        vstd::seq_lib::lemma_no_dup_in_concat(a, seq![cl]);
        if fuel > 0 {
            let cc = children_in(links, cl);
            lemma_children_are_mapped(links, m, cl);
            lemma_subtrees_distinct(links, m, cc, (fuel - 1) as nat, cl);
            assert forall|i: int, j: int| 0 <= i < (a + seq![cl]).len() && 0 <= j < below.len() implies (a
                + seq![cl])[i] != below[j] by {
                let x = below[j];
                assert(below.contains(x));
                lemma_subtrees_below(links, m, cc, (fuel - 1) as nat, x);
                let c = choose|c: EntityId| #[trigger] cc.contains(c) && is_ancestor_or_self(m, c, x);
                lemma_below_child(m, cl, c, x);
                if i < a.len() {
                    assert(a.contains(a[i]));
                }
            }
            vstd::seq_lib::lemma_no_dup_in_concat(a + seq![cl], below);
        } else {
            assert(a + seq![cl] + below =~= a + seq![cl]);
        }
    }
}

/// The state that contains the event pill of a transition from `source` to
/// `target` (see `StateTree::pill_container`).
pub open spec fn pill_container_of(m: Map<EntityId, EntityId>, source: EntityId, target: EntityId) -> EntityId {
    let higher = if depth(m, source) <= depth(m, target) { source } else { target };
    let other = if higher == source { target } else { source };
    if m.contains_key(other) && m[other] == higher {
        higher
    } else if m.contains_key(higher) {
        m[higher]
    } else {
        higher
    }
}

/// The root a state's machine hangs from has no parent, lies above the state
/// (or is the state itself), and is the root of each state on the way up.
pub proof fn law_root_ancestor_is_a_root(m: Map<EntityId, EntityId>, e: EntityId)
    requires
        acyclic(m),
    ensures
        !m.contains_key(root_of(m, e)),
        is_ancestor_or_self(m, root_of(m, e), e),
        m.contains_key(e) ==> root_of(m, m[e]) == root_of(m, e),
{
    lemma_depth(m, e);
    assert(ancestor_at(m, e, depth(m, e)) == root_of(m, e));
    if m.contains_key(e) {
        lemma_depth_step(m, e);
    }
}

} // verus!
