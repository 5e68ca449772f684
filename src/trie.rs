//! An uncompressed trie with one path component per node, the root included.
use vstd::prelude::*;

use crate::node_path::{IntoComponents, NodePath};

verus! {

/// A trie with one path component per node. The path of a node is the
/// sequence of components from the root to that node, both included.
#[derive(Debug)]
pub struct Trie<P: NodePath, V> {
    component: P::Component,
    value: Option<V>,
    children: Vec<Trie<P, V>>,
}

/// `t` is a chain of single-child nodes spelling `cs`, whose last node holds
/// `value` and `children`.
pub closed spec fn is_chain<P: NodePath, V>(
    t: Trie<P, V>,
    cs: Seq<P::Component>,
    value: Option<V>,
    children: Seq<Trie<P, V>>,
) -> bool
    decreases cs.len(),
{
    &&& cs.len() > 0
    &&& t.component == cs[0]
    &&& if cs.len() == 1 {
        t.value == value && t.children@ == children
    } else {
        &&& t.value.is_none()
        &&& t.children@.len() == 1
        &&& is_chain(t.children@[0], cs.drop_first(), value, children)
    }
}

/// Child `i` of `children` is the first one whose component is `c`.
spec fn first_with<P: NodePath, V>(children: Seq<Trie<P, V>>, c: P::Component, i: int) -> bool {
    &&& 0 <= i < children.len()
    &&& children[i].component == c
    &&& forall|j: int| 0 <= j < i ==> children[j].component != c
}

impl<P: NodePath, V> Trie<P, V> {
    /// The value reached from this node by following `rest`, one component
    /// per level, taking at each level the first child with that component.
    pub closed spec fn walk(&self, rest: Seq<P::Component>) -> Option<V>
        decreases rest.len(),
    {
        if rest.len() == 0 {
            self.value
        } else if exists|i: int| first_with(self.children@, rest[0], i) {
            let i = choose|i: int| first_with(self.children@, rest[0], i);
            self.children@[i].walk(rest.drop_first())
        } else {
            None
        }
    }

    /// The value under `path`: the empty path names the root, and any other
    /// path must start with the root's component.
    pub closed spec fn lookup(&self, path: Seq<P::Component>) -> Option<V> {
        if path.len() == 0 {
            self.value
        } else if path[0] != self.component {
            None
        } else {
            self.walk(path.drop_first())
        }
    }

    /// The number of nodes in the trie.
    pub closed spec fn node_count(&self) -> nat {
        self.count_nodes()
    }

    /// The number of values in the trie.
    pub closed spec fn value_count(&self) -> nat {
        self.count_values()
    }

    /// The entries of the trie in pre-order, where `prefix` is the path above
    /// its root.
    pub closed spec fn entries(&self, prefix: Seq<P::Component>) -> Seq<(Seq<P::Component>, V)> {
        self.entries_at(prefix)
    }

    spec fn count_nodes(&self) -> nat
        decreases self, self.children@.len() + 1,
    {
        1 + self.count_nodes_upto(self.children@.len() as int)
    }

    /// The number of nodes below the first `j` children.
    spec fn count_nodes_upto(&self, j: int) -> nat
        decreases self, j,
    {
        if 0 < j <= self.children@.len() {
            self.count_nodes_upto(j - 1) + self.children@[j - 1].count_nodes()
        } else {
            0
        }
    }

    spec fn count_values(&self) -> nat
        decreases self, self.children@.len() + 1,
    {
        (if self.value.is_some() { 1nat } else { 0nat }) + self.count_values_upto(
            self.children@.len() as int,
        )
    }

    /// The number of values below the first `j` children.
    spec fn count_values_upto(&self, j: int) -> nat
        decreases self, j,
    {
        if 0 < j <= self.children@.len() {
            self.count_values_upto(j - 1) + self.children@[j - 1].count_values()
        } else {
            0
        }
    }

    /// The entries below this node in pre-order, where `prefix` is the path
    /// above it: this node's value first, then those of each child in turn.
    spec fn entries_at(&self, prefix: Seq<P::Component>) -> Seq<(Seq<P::Component>, V)>
        decreases self, self.children@.len() + 1,
    {
        let path = prefix.push(self.component);
        let own = if self.value.is_some() {
            seq![(path, self.value.unwrap())]
        } else {
            Seq::empty()
        };
        own + self.entries_upto(path, self.children@.len() as int)
    }

    /// The entries below the first `j` children, where `path` is this node's
    /// path.
    spec fn entries_upto(&self, path: Seq<P::Component>, j: int) -> Seq<(Seq<P::Component>, V)>
        decreases self, j,
    {
        if 0 < j <= self.children@.len() {
            self.entries_upto(path, j - 1) + self.children@[j - 1].entries_at(path)
        } else {
            Seq::empty()
        }
    }
}

/// `s` in reverse order.
spec fn reversed<A>(s: Seq<A>) -> Seq<A> {
    Seq::new(s.len(), |k: int| s[s.len() - 1 - k])
}

/// The components of a path handed out by iteration.
spec fn path_view<C>(path: Seq<&C>) -> Seq<C> {
    path.map_values(|c: &C| *c)
}

/// An entry handed out by iteration, as a path and a value.
spec fn entry_view<P: NodePath, V>(e: (P, &V)) -> (Seq<P::Component>, V) {
    (e.0.components(), *e.1)
}

/// The entries handed out by iteration, as paths and values.
pub open spec fn entries_view<P: NodePath, V>(s: Seq<(P, &V)>) -> Seq<(Seq<P::Component>, V)> {
    s.map_values(|e: (P, &V)| (e.0.components(), *e.1))
}

impl<P: NodePath, V> Trie<P, V> {
    /// A chain of nodes spelling `component`, without a value.
    pub fn from_component<C: IntoComponents<P>>(component: C) -> (r: Trie<P, V>)
        requires
            component.component_seq().len() > 0,
        ensures
            is_chain(r, component.component_seq(), None, Seq::empty()),
    {
        Self::from_components_vec(component.into_components(), None, Vec::new())
    }

    /// A chain of nodes spelling `component`, whose last node holds `value`.
    pub fn from_component_val<C: IntoComponents<P>>(component: C, value: V) -> (r: Trie<P, V>)
        requires
            component.component_seq().len() > 0,
        ensures
            is_chain(r, component.component_seq(), Some(value), Seq::empty()),
    {
        Self::from_components_vec(component.into_components(), Some(value), Vec::new())
    }

    /// A chain of nodes spelling `component`, whose last node holds `value`
    /// and `children`.
    pub fn from_component_val_children<C: IntoComponents<P>>(
        component: C,
        value: V,
        children: Vec<Trie<P, V>>,
    ) -> (r: Trie<P, V>)
        requires
            component.component_seq().len() > 0,
        ensures
            is_chain(r, component.component_seq(), Some(value), children@),
    {
        Self::from_components_vec(component.into_components(), Some(value), children)
    }

    /// A chain of nodes spelling `component`, whose last node holds
    /// `children` and no value.
    pub fn from_component_children<C: IntoComponents<P>>(component: C, children: Vec<Trie<P, V>>) -> (r:
        Trie<P, V>)
        requires
            component.component_seq().len() > 0,
        ensures
            is_chain(r, component.component_seq(), None, children@),
    {
        Self::from_components_vec(component.into_components(), None, children)
    }

    fn from_components_vec(components: Vec<P::Component>, value: Option<V>, children: Vec<Trie<P, V>>) -> (r:
        Trie<P, V>)
        requires
            components@.len() > 0,
        ensures
            is_chain(r, components@, value, children@),
    {
        let ghost given = components@;
        let mut components = components;
        let mut components_rev: Vec<P::Component> = Vec::new();
        while components.len() > 0
            invariant
                components@.len() + components_rev@.len() == given.len(),
                components@ == given.subrange(0, components@.len() as int),
                forall|k: int|
                    0 <= k < components_rev@.len() ==> #[trigger] components_rev@[k] == given[given.len() - 1 - k],
            decreases components@.len(),
        {
            let c = components.pop().unwrap();
            components_rev.push(c);
        }
        proof {
            assert(reversed(components_rev@) =~= given);
        }
        Self::from_components_vec_impl(components_rev, value, children)
    }

    fn from_components_vec_impl(
        components_rev: Vec<P::Component>,
        value: Option<V>,
        children: Vec<Trie<P, V>>,
    ) -> (r: Trie<P, V>)
        requires
            components_rev@.len() > 0,
        ensures
            is_chain(r, reversed(components_rev@), value, children@),
        decreases components_rev@.len(),
    {
        let ghost cs = reversed(components_rev@);
        let mut components_rev = components_rev;
        let component = components_rev.pop().unwrap();
        proof {
            assert(cs.drop_first() =~= reversed(components_rev@));
        }
        if components_rev.len() == 0 {
            Trie { component, value, children }
        } else {
            let child = Self::from_components_vec_impl(components_rev, value, children);
            let mut nodes: Vec<Trie<P, V>> = Vec::new();
            nodes.push(child);
            Trie { component, value: None, children: nodes }
        }
    }
}

/// A trie hands out one entry per value it holds.
proof fn lemma_entries_count<P: NodePath, V>(t: &Trie<P, V>, prefix: Seq<P::Component>)
    ensures
        t.entries_at(prefix).len() == t.count_values(),
    decreases t, t.children@.len() + 1,
{
    lemma_entries_upto_count(t, prefix.push(t.component), t.children@.len() as int);
}

proof fn lemma_entries_upto_count<P: NodePath, V>(t: &Trie<P, V>, path: Seq<P::Component>, j: int)
    requires
        0 <= j <= t.children@.len(),
    ensures
        t.entries_upto(path, j).len() == t.count_values_upto(j),
    decreases t, j,
{
    if j > 0 {
        lemma_entries_upto_count(t, path, j - 1);
        lemma_entries_count(&t.children@[j - 1], path);
    }
}

proof fn lemma_count_nodes_upto_mono<P: NodePath, V>(t: &Trie<P, V>, j: int, k: int)
    requires
        0 <= j <= k <= t.children@.len(),
    ensures
        t.count_nodes_upto(j) <= t.count_nodes_upto(k),
    decreases k - j,
{
    if j < k {
        lemma_count_nodes_upto_mono(t, j, k - 1);
    }
}

proof fn lemma_count_values_upto_mono<P: NodePath, V>(t: &Trie<P, V>, j: int, k: int)
    requires
        0 <= j <= k <= t.children@.len(),
    ensures
        t.count_values_upto(j) <= t.count_values_upto(k),
    decreases k - j,
{
    if j < k {
        lemma_count_values_upto_mono(t, j, k - 1);
    }
}

impl<P: NodePath, V> Trie<P, V> {
    /// The number of nodes in the trie.
    pub fn num_nodes(&self) -> (r: usize)
        requires
            self.node_count() <= usize::MAX,
        ensures
            r == self.node_count(),
        decreases self,
    {
        let mut child_sum: usize = 0;
        let mut j: usize = 0;
        while j < self.children.len()
            invariant
                j <= self.children@.len(),
                child_sum == self.count_nodes_upto(j as int),
                1 + self.count_nodes_upto(self.children@.len() as int) <= usize::MAX,
            decreases self.children@.len() - j,
        {
            proof {
                lemma_count_nodes_upto_mono(self, j + 1, self.children@.len() as int);
            }
            child_sum = child_sum + self.children[j].num_nodes();
            j = j + 1;
        }
        child_sum + 1
    }

    /// The number of values in the trie.
    pub fn num_values(&self) -> (r: usize)
        requires
            self.value_count() <= usize::MAX,
        ensures
            r == self.value_count(),
        decreases self,
    {
        let mut child_sum: usize = 0;
        let mut j: usize = 0;
        while j < self.children.len()
            invariant
                j <= self.children@.len(),
                child_sum == self.count_values_upto(j as int),
                (if self.value.is_some() { 1nat } else { 0nat }) + self.count_values_upto(
                    self.children@.len() as int,
                ) <= usize::MAX,
            decreases self.children@.len() - j,
        {
            proof {
                lemma_count_values_upto_mono(self, j + 1, self.children@.len() as int);
            }
            child_sum = child_sum + self.children[j].num_values();
            j = j + 1;
        }
        child_sum + if self.value.is_some() { 1 } else { 0 }
    }

    /// The first child whose component is `c`, if any.
    fn find_child(&self, c: &P::Component) -> (r: Option<&Trie<P, V>>)
        ensures
            match r {
                Some(child) => exists|i: int| first_with(self.children@, *c, i) && self.children@[i] == *child,
                None => forall|i: int| 0 <= i < self.children@.len() ==> self.children@[i].component != *c,
            },
    {
        let mut j: usize = 0;
        while j < self.children.len()
            invariant
                j <= self.children@.len(),
                forall|i: int| 0 <= i < j ==> self.children@[i].component != *c,
            decreases self.children@.len() - j,
        {
            if P::same_component(&self.children[j].component, c) {
                proof {
                    assert(first_with(self.children@, *c, j as int));
                }
                return Some(&self.children[j]);
            }
            j = j + 1;
        }
        None
    }

    /// The value under `path`, or `None` if there is none.
    pub fn get(&self, path: P) -> (r: Option<&V>)
        ensures
            r.is_some() == self.lookup(path.components()).is_some(),
            r.is_some() ==> *r.unwrap() == self.lookup(path.components()).unwrap(),
    {
        let components = path.to_components();
        let ghost cs = components@;
        if components.len() == 0 {
            return self.value.as_ref();
        }
        if !P::same_component(&components[0], &self.component) {
            return None;
        }
        let mut current: &Trie<P, V> = self;
        let mut idx: usize = 1;
        proof {
            assert(cs.subrange(1, cs.len() as int) =~= cs.drop_first());
        }
        while idx < components.len()
            invariant
                cs == components@,
                cs == path.components(),
                1 <= idx <= cs.len(),
                cs[0] == self.component,
                current.walk(cs.subrange(idx as int, cs.len() as int)) == self.walk(cs.drop_first()),
            decreases cs.len() - idx,
        {
            let ghost rest = cs.subrange(idx as int, cs.len() as int);
            match current.find_child(&components[idx]) {
                Some(child) => {
                    proof {
                        let i = choose|i: int| first_with(current.children@, cs[idx as int], i) && current.children@[i] == *child;
                        assert(rest.drop_first() =~= cs.subrange(idx + 1, cs.len() as int));
                        assert(first_with(current.children@, rest[0], i));
                        let j = choose|j: int| first_with(current.children@, rest[0], j);
                        assert(i == j) by {
                            if i < j {
                            } else if j < i {
                            }
                        }
                    }
                    current = child;
                },
                None => {
                    proof {
                        assert(rest[0] == cs[idx as int]);
                        assert(!exists|i: int| first_with(current.children@, rest[0], i));
                        assert(current.walk(rest).is_none());
                    }
                    return None;
                },
            }
            idx = idx + 1;
        }
        proof {
            assert(cs.subrange(idx as int, cs.len() as int).len() == 0);
        }
        current.value.as_ref()
    }

    /// Append the entries below `t` to `out`, in pre-order, where `path`
    /// holds the components above `t`.
    fn collect<'a>(t: &'a Trie<P, V>, path: &mut Vec<&'a P::Component>, out: &mut Vec<(P, &'a V)>)
        ensures
            final(path)@ == old(path)@,
            entries_view(final(out)@) == entries_view(old(out)@) + t.entries_at(path_view(old(path)@)),
        decreases t,
    {
        let ghost above = path_view(old(path)@);
        path.push(&t.component);
        proof {
            assert(path_view(path@) =~= above.push(t.component));
        }
        let ghost here = path_view(path@);
        let ghost own: Seq<(Seq<P::Component>, V)> = if t.value.is_some() {
            seq![(here, t.value.unwrap())]
        } else {
            Seq::empty()
        };
        match t.value.as_ref() {
            Some(v) => {
                let key = P::from_components(path);
                out.push((key, v));
            },
            None => {},
        }
        proof {
            assert(entries_view(out@) =~= entries_view(old(out)@) + own);
        }
        let mut j: usize = 0;
        while j < t.children.len()
            invariant
                path@ == old(path)@.push(&t.component),
                here == path_view(path@),
                j <= t.children@.len(),
                entries_view(out@) == entries_view(old(out)@) + own + t.entries_upto(here, j as int),
            decreases t.children@.len() - j,
        {
            let ghost before = entries_view(out@);
            Self::collect(&t.children[j], path, out);
            proof {
                assert(entries_view(out@) =~= entries_view(old(out)@) + own + t.entries_upto(here, j + 1));
            }
            j = j + 1;
        }
        path.pop();
        proof {
            assert(path@ =~= old(path)@);
            assert(entries_view(out@) =~= entries_view(old(out)@) + t.entries_at(above));
        }
    }

    /// The values of the trie with their paths, in pre-order: a node's value
    /// before those below it, and the children in the order in which they
    /// are stored.
    pub fn iter(&self) -> (r: Vec<(P, &V)>)
        ensures
            entries_view(r@) == self.entries(Seq::empty()),
            r@.len() == self.value_count(),
    {
        let mut path: Vec<&P::Component> = Vec::new();
        let mut out: Vec<(P, &V)> = Vec::new();
        Self::collect(self, &mut path, &mut out);
        proof {
            assert(path_view(Seq::<&P::Component>::empty()) =~= Seq::empty());
            assert(entries_view(Seq::<(P, &V)>::empty()) =~= Seq::empty());
            assert(entries_view(out@) =~= self.entries_at(Seq::empty()));
            lemma_entries_count(self, Seq::empty());
        }
        out
    }
}

} // verus!
