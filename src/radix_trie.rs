//! A radix trie (compressed prefix tree) keyed by any `Key`.
use vstd::prelude::*;

use crate::key::{Key, KeyRef};

verus! {

/// The atomic unit of the keys of a trie whose owned key type is `P`.
pub type Unit<P> = <<P as Key>::Ref as KeyRef<P>>::Elem;

/// A radix trie (also known as a radix tree, or compressed prefix trie).
///
/// Each trie is the subtree reached after consuming some prefix of a key:
/// it holds the value stored at exactly that prefix, if any, and a list of
/// child nodes, each with a nonempty edge label. No two children of one trie
/// share a nonempty common prefix, and every trie below the root that has no
/// children holds a value.
#[derive(Debug)]
pub struct RadixTrie<P, V> {
    value: Option<V>,
    nodes: Vec<Node<P, V>>,
}

/// An edge label paired with the subtree reached by consuming it.
#[derive(Debug)]
pub struct Node<P, V> {
    key: P,
    trie: RadixTrie<P, V>,
}

impl<P: Key, V> Node<P, V> {
    /// The edge label as a sequence of key units.
    pub closed spec fn edge(&self) -> Seq<Unit<P>> {
        <P::Ref as KeyRef<P>>::owned_view(&self.key)
    }
}

/// The edge of child `i` of `nodes`.
spec fn edge_at<P: Key, V>(nodes: Seq<Node<P, V>>, i: int) -> Seq<Unit<P>> {
    nodes[i].edge()
}

/// Every edge is nonempty and no two edges start with the same unit (so no
/// two share a nonempty common prefix).
spec fn edges_ok_at<P: Key, V>(nodes: Seq<Node<P, V>>) -> bool {
    &&& forall|i: int| 0 <= i < nodes.len() ==> #[trigger] edge_at(nodes, i).len() > 0
    &&& forall|i: int, j: int|
        0 <= i < nodes.len() && 0 <= j < nodes.len() && i != j
            ==> #[trigger] edge_at(nodes, i)[0] != #[trigger] edge_at(nodes, j)[0]
}

/// Child `i` of `nodes` leads to `k`: its edge is a nonempty prefix of `k`.
spec fn leads_at<P: Key, V>(nodes: Seq<Node<P, V>>, i: int, k: Seq<Unit<P>>) -> bool {
    0 <= i < nodes.len() && edge_at(nodes, i).len() > 0 && edge_at(nodes, i).is_prefix_of(k)
}

/// The value stored under `k` in the subtree with root value `value` and
/// children `nodes`, if any.
spec fn lookup_at<P: Key, V>(value: Option<V>, nodes: Seq<Node<P, V>>, k: Seq<Unit<P>>) -> Option<V>
    decreases k.len(),
{
    if k.len() == 0 {
        value
    } else if exists|i: int| leads_at(nodes, i, k) {
        let i = choose|i: int| leads_at(nodes, i, k);
        lookup_at(
            nodes[i].trie.value,
            nodes[i].trie.nodes@,
            k.skip(edge_at(nodes, i).len() as int),
        )
    } else {
        None
    }
}

impl<P: Key, V> RadixTrie<P, V> {
    /// The edge of child `i`.
    #[verifier::inline]
    spec fn edge_of(&self, i: int) -> Seq<Unit<P>> {
        edge_at(self.nodes@, i)
    }

    /// The edges of the children are nonempty and start with distinct units.
    #[verifier::inline]
    spec fn edges_ok(&self) -> bool {
        edges_ok_at(self.nodes@)
    }

    /// Child `i` leads to `k`.
    #[verifier::inline]
    spec fn leads_to(&self, i: int, k: Seq<Unit<P>>) -> bool {
        leads_at(self.nodes@, i, k)
    }

    /// The value stored under `k` in this subtree, if any.
    #[verifier::inline]
    spec fn lookup(&self, k: Seq<Unit<P>>) -> Option<V> {
        lookup_at(self.value, self.nodes@, k)
    }

    /// The invariants of a trie at the root: its edges are well formed and
    /// each child subtree satisfies `inner_wf`.
    pub closed spec fn root_wf(&self) -> bool {
        &&& self.edges_ok()
        &&& forall|i: int|
            0 <= i < self.nodes@.len() ==> (#[trigger] self.nodes@[i]).trie.inner_wf()
    }

    /// The invariants of a trie below the root: those of the root, and a
    /// trie without a value has at least two children (so every trie
    /// without children holds a value, and no chain of single-child nodes
    /// without values is left uncompressed).
    pub closed spec fn inner_wf(&self) -> bool
        decreases self,
    {
        &&& self.edges_ok()
        &&& (self.value.is_none() ==> self.nodes@.len() >= 2)
        &&& forall|i: int|
            0 <= i < self.nodes@.len() ==> (#[trigger] self.nodes@[i]).trie.inner_wf()
    }
}

/// The entries of subtree `t`, whose keys all start with `prefix`, in
/// pre-order: the value of `t` first, then the entries of each child in the
/// order of the children.
spec fn entries<P: Key, V>(t: &RadixTrie<P, V>, prefix: Seq<Unit<P>>) -> Seq<(Seq<Unit<P>>, V)>
    decreases t, t.nodes@.len() + 1,
{
    own_entries(t, prefix) + entries_from(t, prefix, 0)
}

/// The entry of the value of `t` itself, if it holds one.
spec fn own_entries<P: Key, V>(t: &RadixTrie<P, V>, prefix: Seq<Unit<P>>) -> Seq<(Seq<Unit<P>>, V)> {
    match t.value {
        Some(v) => seq![(prefix, v)],
        None => Seq::empty(),
    }
}

/// The entries of the first `j` children of `t`.
spec fn entries_before<P: Key, V>(t: &RadixTrie<P, V>, prefix: Seq<Unit<P>>, j: int) -> Seq<(Seq<Unit<P>>, V)>
    decreases j,
{
    if 0 < j <= t.nodes@.len() {
        entries_before(t, prefix, j - 1) + entries(&t.nodes@[j - 1].trie, prefix + edge_at(t.nodes@, j - 1))
    } else {
        Seq::empty()
    }
}

/// The entries of the children of `t` from child `j` on.
spec fn entries_from<P: Key, V>(t: &RadixTrie<P, V>, prefix: Seq<Unit<P>>, j: int) -> Seq<(Seq<Unit<P>>, V)>
    decreases t, t.nodes@.len() - j,
{
    if 0 <= j < t.nodes@.len() {
        entries(&t.nodes@[j].trie, prefix + edge_at(t.nodes@, j)) + entries_from(t, prefix, j + 1)
    } else {
        Seq::empty()
    }
}

/// No two children of any node share a nonempty common prefix.
spec fn prefix_free<P: Key, V>(t: &RadixTrie<P, V>) -> bool
    decreases t,
{
    &&& forall|i: int, j: int|
        0 <= i < t.nodes@.len() && 0 <= j < t.nodes@.len() && i != j ==> {
            let a = #[trigger] edge_at(t.nodes@, i);
            let b = #[trigger] edge_at(t.nodes@, j);
            a.len() == 0 || b.len() == 0 || a[0] != b[0]
        }
    &&& forall|i: int| 0 <= i < t.nodes@.len() ==> prefix_free(&(#[trigger] t.nodes@[i]).trie)
}

/// Every node without children holds a value, the root excepted when
/// `is_root`.
spec fn leaves_valued<P: Key, V>(t: &RadixTrie<P, V>, is_root: bool) -> bool
    decreases t,
{
    &&& (!is_root && t.nodes@.len() == 0 ==> t.value.is_some())
    &&& forall|i: int| 0 <= i < t.nodes@.len() ==> leaves_valued(&(#[trigger] t.nodes@[i]).trie, false)
}

proof fn lemma_wf_checks<P: Key, V>(t: &RadixTrie<P, V>, is_root: bool)
    requires
        if is_root { t.root_wf() } else { t.inner_wf() },
    ensures
        prefix_free(t),
        leaves_valued(t, is_root),
    decreases t,
{
    assert forall|i: int| 0 <= i < t.nodes@.len() implies prefix_free(&(#[trigger] t.nodes@[i]).trie)
        && leaves_valued(&t.nodes@[i].trie, false) by {
        lemma_wf_checks(&t.nodes@[i].trie, false);
    }
}

/// `n` is a leaf with edge `k` that holds `v`.
spec fn is_leaf<P: Key, V>(n: Node<P, V>, k: Seq<Unit<P>>, v: V) -> bool {
    n.edge() == k && n.trie.value == Some(v) && n.trie.nodes@.len() == 0
}

/// Node `n` is what inserting `k` (nonempty, starting like the edge of `o`)
/// with value `v` makes of node `o`:
/// - where the edge is a prefix of the key, the edge stays (the insertion
///   goes on below it);
/// - where the key is a proper prefix of the edge, the key becomes the edge,
///   of a subtree that holds `v` and has one child: the rest of the old edge
///   over the old subtree;
/// - otherwise the two part ways after a common prefix, which becomes the
///   edge, of a subtree without a value whose two children are the rest of
///   the old edge over the old subtree, then a leaf with the rest of the key.
spec fn split_shape<P: Key, V>(o: Node<P, V>, n: Node<P, V>, k: Seq<Unit<P>>, v: V) -> bool {
    let e = o.edge();
    if e.is_prefix_of(k) {
        n.key == o.key
    } else if k.is_prefix_of(e) {
        &&& n.edge() == k
        &&& n.trie.value == Some(v)
        &&& n.trie.nodes@.len() == 1
        &&& n.trie.nodes@[0].edge() == e.skip(k.len() as int)
        &&& n.trie.nodes@[0].trie == o.trie
    } else {
        let c = n.edge();
        &&& c.len() > 0
        &&& c.is_prefix_of(e)
        &&& c.is_prefix_of(k)
        &&& e.skip(c.len() as int)[0] != k.skip(c.len() as int)[0]
        &&& n.trie.value.is_none()
        &&& n.trie.nodes@.len() == 2
        &&& n.trie.nodes@[0].edge() == e.skip(c.len() as int)
        &&& n.trie.nodes@[0].trie == o.trie
        &&& is_leaf(n.trie.nodes@[1], k.skip(c.len() as int), v)
    }
}

/// A node, with a value or without, sits at `k` in the subtree whose
/// children are `nodes`: `k` is spelled by edges from its root to that node.
spec fn node_at<P: Key, V>(nodes: Seq<Node<P, V>>, k: Seq<Unit<P>>) -> bool
    decreases k.len(),
{
    if k.len() == 0 {
        true
    } else if exists|i: int| leads_at(nodes, i, k) {
        let i = choose|i: int| leads_at(nodes, i, k);
        node_at(nodes[i].trie.nodes@, k.skip(edge_at(nodes, i).len() as int))
    } else {
        false
    }
}

/// Whether a node sits at a nonempty `k` is decided by the one child whose
/// edge starts with the first unit of `k`, if there is one.
proof fn lemma_node_at_child<P: Key, V>(t: &RadixTrie<P, V>, k: Seq<Unit<P>>, i: int)
    requires
        t.edges_ok(),
        k.len() > 0,
        0 <= i < t.nodes@.len(),
        t.edge_of(i)[0] == k[0],
    ensures
        node_at(t.nodes@, k) == (t.edge_of(i).is_prefix_of(k) && node_at(
            t.nodes@[i].trie.nodes@,
            k.skip(t.edge_of(i).len() as int),
        )),
{
    assert(t.edge_of(i).len() > 0);
    if exists|j: int| t.leads_to(j, k) {
        let j = choose|j: int| t.leads_to(j, k);
        assert(t.edge_of(j)[0] == t.edge_of(j).subrange(0, t.edge_of(j).len() as int)[0]);
        assert(j == i);
    } else {
        assert(!t.leads_to(i, k));
    }
}

proof fn lemma_node_at_none<P: Key, V>(t: &RadixTrie<P, V>, k: Seq<Unit<P>>)
    requires
        k.len() > 0,
        forall|i: int| 0 <= i < t.nodes@.len() ==> #[trigger] t.edge_of(i)[0] != k[0],
    ensures
        !node_at(t.nodes@, k),
{
    if exists|j: int| t.leads_to(j, k) {
        let j = choose|j: int| t.leads_to(j, k);
        assert(t.edge_of(j)[0] == t.edge_of(j).subrange(0, t.edge_of(j).len() as int)[0]);
    }
}

/// `key` agrees with `x` on the first `m` units of `x`.
pub open spec fn shares<A>(key: Seq<A>, x: Seq<A>, m: int) -> bool {
    0 <= m <= x.len() && x.subrange(0, m).is_prefix_of(key)
}

/// Position `pos` is where a new key `x` goes among the entries `es`: before
/// the first entry whose key extends `x`, if there is one; otherwise right
/// after the last of the entries that agree longest with `x`.
pub open spec fn insert_pos_ok<A, V>(es: Seq<(Seq<A>, V)>, x: Seq<A>, pos: int) -> bool {
    &&& 0 <= pos <= es.len()
    &&& if exists|i: int| 0 <= i < es.len() && x.is_prefix_of(#[trigger] es[i].0) {
        &&& pos < es.len()
        &&& x.is_prefix_of(es[pos].0)
        &&& forall|i: int| 0 <= i < pos ==> !x.is_prefix_of(#[trigger] es[i].0)
    } else if es.len() == 0 {
        pos == 0
    } else {
        &&& pos > 0
        &&& exists|m: int|
            {
                &&& #[trigger] shares(es[pos - 1].0, x, m)
                &&& forall|i: int| 0 <= i < es.len() ==> !shares(#[trigger] es[i].0, x, m + 1)
                &&& forall|i: int| pos <= i < es.len() ==> !shares(#[trigger] es[i].0, x, m)
            }
    }
}

/// `after` is `before` with `v` stored under `x`: the entry of `x` updated
/// in place if there is one, otherwise a new entry at the position that
/// `insert_pos_ok` gives.
pub open spec fn placed<A, V>(before: Seq<(Seq<A>, V)>, x: Seq<A>, v: V, after: Seq<(Seq<A>, V)>) -> bool {
    if exists|i: int| 0 <= i < before.len() && (#[trigger] before[i]).0 == x {
        exists|i: int| 0 <= i < before.len() && (#[trigger] before[i]).0 == x && after == before.update(i, (x, v))
    } else {
        exists|pos: int| insert_pos_ok(before, x, pos) && after == before.insert(pos, (x, v))
    }
}

proof fn lemma_shares_mono<A>(key: Seq<A>, x: Seq<A>, a: int, b: int)
    requires
        shares(key, x, a),
        0 <= b <= a,
    ensures
        shares(key, x, b),
{
    assert(x.subrange(0, b) =~= x.subrange(0, a).subrange(0, b));
    assert(key.subrange(0, b) =~= key.subrange(0, a).subrange(0, b));
}

/// Storing `x` in a block `c` of entries that alone agree with `x` on its
/// first `n + 1` units stores it in the whole sequence around that block.
proof fn lemma_placed_lift<A, V>(
    l: Seq<(Seq<A>, V)>,
    c: Seq<(Seq<A>, V)>,
    r: Seq<(Seq<A>, V)>,
    x: Seq<A>,
    v: V,
    c2: Seq<(Seq<A>, V)>,
    n: int,
)
    requires
        0 <= n < x.len(),
        c.len() > 0,
        forall|i: int| 0 <= i < l.len() ==> !shares(#[trigger] l[i].0, x, n + 1),
        forall|i: int| 0 <= i < r.len() ==> !shares(#[trigger] r[i].0, x, n + 1),
        forall|i: int| 0 <= i < c.len() ==> shares(#[trigger] c[i].0, x, n + 1),
        placed(c, x, v, c2),
    ensures
        placed(l + c + r, x, v, l + c2 + r),
{
    let e = l + c + r;
    let o = l.len() as int;
    assert forall|i: int| 0 <= i < e.len() && !(o <= i < o + c.len()) implies !shares(#[trigger] e[i].0, x, n + 1) by {
        if i < o {
            assert(e[i] == l[i]);
        } else {
            assert(e[i] == r[i - o - c.len()]);
        }
    }
    assert forall|i: int| 0 <= i < e.len() && !(o <= i < o + c.len()) implies !(#[trigger] e[i].0 == x) && !x.is_prefix_of(e[i].0) by {
        if e[i].0 == x || x.is_prefix_of(e[i].0) {
            assert(x.subrange(0, n + 1).is_prefix_of(e[i].0)) by {
                assert(e[i].0.subrange(0, n + 1) =~= x.subrange(0, n + 1)) by {
                    if e[i].0 == x {
                    } else {
                        assert(e[i].0.subrange(0, x.len() as int).subrange(0, n + 1) =~= e[i].0.subrange(0, n + 1));
                    }
                }
            }
        }
    }
    assert forall|i: int| 0 <= i < c.len() implies #[trigger] e[o + i] == c[i] by {}
    if exists|i: int| 0 <= i < c.len() && (#[trigger] c[i]).0 == x {
        let i = choose|i: int| 0 <= i < c.len() && (#[trigger] c[i]).0 == x && c2 == c.update(i, (x, v));
        assert(e[o + i].0 == x);
        assert(l + c2 + r =~= e.update(o + i, (x, v)));
    } else {
        assert(!exists|i: int| 0 <= i < e.len() && (#[trigger] e[i]).0 == x) by {
            if exists|i: int| 0 <= i < e.len() && (#[trigger] e[i]).0 == x {
                let i = choose|i: int| 0 <= i < e.len() && (#[trigger] e[i]).0 == x;
                assert(o <= i < o + c.len());
                assert(c[i - o].0 == x);
            }
        }
        let pos = choose|pos: int| insert_pos_ok(c, x, pos) && c2 == c.insert(pos, (x, v));
        assert(l + c2 + r =~= e.insert(o + pos, (x, v)));
        if exists|i: int| 0 <= i < c.len() && x.is_prefix_of(#[trigger] c[i].0) {
            let i = choose|i: int| 0 <= i < c.len() && x.is_prefix_of(#[trigger] c[i].0);
            assert(x.is_prefix_of(e[o + i].0));
            assert(x.is_prefix_of(e[o + pos].0));
            assert forall|j: int| 0 <= j < o + pos implies !x.is_prefix_of(#[trigger] e[j].0) by {
                if j >= o {
                    assert(e[j] == c[j - o]);
                }
            }
            assert(insert_pos_ok(e, x, o + pos));
        } else {
            assert(!exists|i: int| 0 <= i < e.len() && x.is_prefix_of(#[trigger] e[i].0)) by {
                if exists|i: int| 0 <= i < e.len() && x.is_prefix_of(#[trigger] e[i].0) {
                    let i = choose|i: int| 0 <= i < e.len() && x.is_prefix_of(#[trigger] e[i].0);
                    assert(o <= i < o + c.len());
                    assert(x.is_prefix_of(c[i - o].0));
                }
            }
            let m = choose|m: int|
                {
                    &&& #[trigger] shares(c[pos - 1].0, x, m)
                    &&& forall|i: int| 0 <= i < c.len() ==> !shares(#[trigger] c[i].0, x, m + 1)
                    &&& forall|i: int| pos <= i < c.len() ==> !shares(#[trigger] c[i].0, x, m)
                };
            assert(m >= n + 1) by {
                if m < n + 1 {
                    lemma_shares_mono(c[0].0, x, n + 1, m + 1);
                }
            }
            assert(e[o + pos - 1] == c[pos - 1]);
            assert forall|i: int| 0 <= i < e.len() implies !shares(#[trigger] e[i].0, x, m + 1) by {
                if o <= i < o + c.len() {
                    assert(e[i] == c[i - o]);
                } else if shares(e[i].0, x, m + 1) {
                    lemma_shares_mono(e[i].0, x, m + 1, n + 1);
                }
            }
            assert forall|i: int| o + pos <= i < e.len() implies !shares(#[trigger] e[i].0, x, m) by {
                if i < o + c.len() {
                    assert(e[i] == c[i - o]);
                } else if shares(e[i].0, x, m) {
                    lemma_shares_mono(e[i].0, x, m, n + 1);
                }
            }
            assert(insert_pos_ok(e, x, o + pos));
        }
    }
}

proof fn lemma_entries_from_split<P: Key, V>(t: &RadixTrie<P, V>, p: Seq<Unit<P>>, j: int)
    requires
        0 <= j <= t.nodes@.len(),
    ensures
        entries_from(t, p, 0) == entries_before(t, p, j) + entries_from(t, p, j),
    decreases j,
{
    if j > 0 {
        lemma_entries_from_split(t, p, j - 1);
        assert(entries_from(t, p, j - 1) == entries(&t.nodes@[j - 1].trie, p + edge_at(t.nodes@, j - 1))
            + entries_from(t, p, j));
        assert(entries_before(t, p, j - 1) + entries_from(t, p, j - 1) =~= entries_before(t, p, j)
            + entries_from(t, p, j));
    } else {
        assert(entries_before(t, p, 0) + entries_from(t, p, 0) =~= entries_from(t, p, 0));
    }
}

proof fn lemma_before_same<P: Key, V>(a: &RadixTrie<P, V>, b: &RadixTrie<P, V>, p: Seq<Unit<P>>, j: int)
    requires
        0 <= j <= a.nodes@.len(),
        j <= b.nodes@.len(),
        forall|l: int| 0 <= l < j ==> a.nodes@[l] == b.nodes@[l],
    ensures
        entries_before(a, p, j) == entries_before(b, p, j),
    decreases j,
{
    if j > 0 {
        lemma_before_same(a, b, p, j - 1);
        assert(a.nodes@[j - 1] == b.nodes@[j - 1]);
    }
}

proof fn lemma_from_same<P: Key, V>(a: &RadixTrie<P, V>, b: &RadixTrie<P, V>, p: Seq<Unit<P>>, j: int)
    requires
        0 <= j <= a.nodes@.len(),
        a.nodes@.len() == b.nodes@.len(),
        forall|l: int| j <= l < a.nodes@.len() ==> a.nodes@[l] == b.nodes@[l],
    ensures
        entries_from(a, p, j) == entries_from(b, p, j),
    decreases a.nodes@.len() - j,
{
    if j < a.nodes@.len() {
        lemma_from_same(a, b, p, j + 1);
        assert(a.nodes@[j] == b.nodes@[j]);
    }
}

proof fn lemma_entries_nonempty<P: Key, V>(t: &RadixTrie<P, V>, p: Seq<Unit<P>>)
    requires
        t.inner_wf(),
    ensures
        entries(t, p).len() > 0,
    decreases t,
{
    if t.value.is_none() {
        let c = &t.nodes@[0].trie;
        assert(c.inner_wf());
        lemma_entries_nonempty(c, p + edge_at(t.nodes@, 0));
        assert(entries_from(t, p, 0) == entries(c, p + edge_at(t.nodes@, 0)) + entries_from(t, p, 1));
    }
}

/// A key that does not agree with `x` on its first `n + 1` units neither is
/// `x` nor extends it.
proof fn lemma_not_shares<A>(key: Seq<A>, x: Seq<A>, n: int)
    requires
        0 <= n < x.len(),
        !shares(key, x, n + 1),
    ensures
        key != x,
        !x.is_prefix_of(key),
{
    if key == x {
        assert(key.subrange(0, n + 1) =~= x.subrange(0, n + 1));
    }
    if x.is_prefix_of(key) {
        assert(key.subrange(0, x.len() as int).subrange(0, n + 1) =~= key.subrange(0, n + 1));
        assert(x.subrange(0, n + 1).is_prefix_of(key));
    }
}

/// A key that starts with `p` and then differs from `x` does not agree with
/// `x` on its first `p.len() + 1` units.
proof fn lemma_differs_at<A>(key: Seq<A>, x: Seq<A>, n: int)
    requires
        0 <= n < x.len(),
        n < key.len(),
        key[n] != x[n],
    ensures
        !shares(key, x, n + 1),
{
    if shares(key, x, n + 1) {
        assert(key.subrange(0, n + 1)[n] == x.subrange(0, n + 1)[n]);
    }
}

/// The entries of the first `j` children, none of whose edges starts like
/// the rest of `x` after `p`, do not agree with `x` past `p`.
proof fn lemma_before_keys<P: Key, V>(t: &RadixTrie<P, V>, p: Seq<Unit<P>>, j: int, x: Seq<Unit<P>>)
    requires
        t.root_wf(),
        0 <= j <= t.nodes@.len(),
        p.len() < x.len(),
        forall|l: int| 0 <= l < j ==> #[trigger] edge_at(t.nodes@, l)[0] != x[p.len() as int],
    ensures
        forall|i: int|
            0 <= i < entries_before(t, p, j).len() ==> !shares(
                #[trigger] entries_before(t, p, j)[i].0,
                x,
                p.len() + 1 as int,
            ),
    decreases j,
{
    if j > 0 {
        lemma_before_keys(t, p, j - 1, x);
        let e = edge_at(t.nodes@, j - 1);
        let c = &t.nodes@[j - 1].trie;
        assert(c.inner_wf());
        lemma_entries(c, p + e);
        let a = entries_before(t, p, j - 1);
        let b = entries(c, p + e);
        assert(entries_before(t, p, j) == a + b);
        assert forall|i: int| 0 <= i < (a + b).len() implies !shares(#[trigger] (a + b)[i].0, x, p.len() + 1 as int) by {
            if i >= a.len() {
                let key = b[i - a.len()].0;
                assert((p + e).is_prefix_of(key));
                assert(key[p.len() as int] == (p + e)[p.len() as int]);
                lemma_differs_at(key, x, p.len() as int);
            } else {
                assert((a + b)[i] == a[i]);
            }
        }
    }
}

/// The entries of a subtree split around child `i`.
proof fn lemma_entries_around<P: Key, V>(t: &RadixTrie<P, V>, p: Seq<Unit<P>>, i: int)
    requires
        0 <= i < t.nodes@.len(),
    ensures
        entries(t, p) == own_entries(t, p) + entries_before(t, p, i) + entries(
            &t.nodes@[i].trie,
            p + edge_at(t.nodes@, i),
        ) + entries_from(t, p, i + 1),
{
    lemma_entries_from_split(t, p, i);
    assert(entries_from(t, p, i) == entries(&t.nodes@[i].trie, p + edge_at(t.nodes@, i)) + entries_from(t, p, i + 1));
    assert(entries(t, p) =~= own_entries(t, p) + entries_before(t, p, i) + entries(
        &t.nodes@[i].trie,
        p + edge_at(t.nodes@, i),
    ) + entries_from(t, p, i + 1));
}

/// Storing `x` below child `i` of a subtree, where only that child changes,
/// stores it in the entries of the whole subtree.
proof fn lemma_place_child<P: Key, V>(
    a: &RadixTrie<P, V>,
    b: &RadixTrie<P, V>,
    p: Seq<Unit<P>>,
    i: int,
    x: Seq<Unit<P>>,
    v: V,
)
    requires
        a.root_wf(),
        0 <= i < a.nodes@.len(),
        b.nodes@.len() == a.nodes@.len(),
        forall|j: int| 0 <= j < a.nodes@.len() && j != i ==> b.nodes@[j] == a.nodes@[j],
        b.value == a.value,
        (p + edge_at(a.nodes@, i)).is_prefix_of(x) || (p.is_prefix_of(x) && p.len() < x.len() && x[p.len() as int]
            == edge_at(a.nodes@, i)[0]),
        placed(
            entries(&a.nodes@[i].trie, p + edge_at(a.nodes@, i)),
            x,
            v,
            entries(&b.nodes@[i].trie, p + edge_at(b.nodes@, i)),
        ),
    ensures
        placed(entries(a, p), x, v, entries(b, p)),
{
    let n = p.len() as int;
    let e = edge_at(a.nodes@, i);
    let c = &a.nodes@[i].trie;
    assert(e.len() > 0);
    assert(p.is_prefix_of(x) && n < x.len() && x[n] == e[0]) by {
        if (p + e).is_prefix_of(x) {
            assert(x.subrange(0, n) =~= (p + e).subrange(0, n));
            assert(x[n] == x.subrange(0, (p + e).len() as int)[n]);
        }
    }
    assert(c.inner_wf());
    lemma_entries(c, p + e);
    lemma_entries_nonempty(c, p + e);
    lemma_entries_around(a, p, i);
    lemma_entries_around(b, p, i);
    lemma_before_same(a, b, p, i);
    lemma_from_same(a, b, p, i + 1);
    lemma_before_keys(a, p, i, x);
    lemma_entries_from(a, p, i + 1);
    assert(own_entries(a, p) == own_entries(b, p));
    let own = own_entries(a, p);
    let l = own + entries_before(a, p, i);
    let cc = entries(c, p + e);
    let r = entries_from(a, p, i + 1);
    assert forall|j: int| 0 <= j < l.len() implies !shares(#[trigger] l[j].0, x, n + 1) by {
        if j < own.len() {
            assert(l[j].0 == p);
        } else {
            assert(l[j] == entries_before(a, p, i)[j - own.len()]);
        }
    }
    assert forall|j: int| 0 <= j < r.len() implies !shares(#[trigger] r[j].0, x, n + 1) by {
        let key = r[j].0;
        assert(edge_at(a.nodes@, i)[0] != key[n]);
        lemma_differs_at(key, x, n);
    }
    assert forall|j: int| 0 <= j < cc.len() implies shares(#[trigger] cc[j].0, x, n + 1) by {
        let key = cc[j].0;
        assert((p + e).is_prefix_of(key));
        assert(key.subrange(0, n + 1) =~= x.subrange(0, n + 1)) by {
            assert(key.subrange(0, n + 1) =~= key.subrange(0, (p + e).len() as int).subrange(0, n + 1));
            assert(x.subrange(0, n) =~= p);
        }
    }
    lemma_placed_lift(l, cc, r, x, v, entries(&b.nodes@[i].trie, p + edge_at(b.nodes@, i)), n);
    assert(entries(a, p) =~= l + cc + r);
    assert(entries(b, p) =~= l + entries(&b.nodes@[i].trie, p + edge_at(b.nodes@, i)) + r);
}

/// A leaf with edge `k` holding `v` has the one entry `(p + k, v)`.
proof fn lemma_leaf_entries<P: Key, V>(n: Node<P, V>, k: Seq<Unit<P>>, v: V, p: Seq<Unit<P>>)
    requires
        is_leaf(n, k, v),
    ensures
        entries(&n.trie, p + k) == seq![(p + k, v)],
{
    assert(entries_from(&n.trie, p + k, 0) == Seq::<(Seq<Unit<P>>, V)>::empty());
    assert(entries(&n.trie, p + k) =~= seq![(p + k, v)]);
}

/// Setting the value of a subtree's own node places it first.
proof fn lemma_place_value<P: Key, V>(a: &RadixTrie<P, V>, b: &RadixTrie<P, V>, p: Seq<Unit<P>>, v: V)
    requires
        a.root_wf(),
        b.value == Some(v),
        b.nodes@ == a.nodes@,
    ensures
        placed(entries(a, p), p, v, entries(b, p)),
{
    lemma_from_same(a, b, p, 0);
    lemma_entries_from(a, p, 0);
    let f = entries_from(a, p, 0);
    let e = entries(a, p);
    assert(entries(b, p) == seq![(p, v)] + f);
    if a.value.is_some() {
        assert(e[0].0 == p);
        assert(entries(b, p) =~= e.update(0, (p, v)));
    } else {
        assert(e == f);
        assert forall|i: int| 0 <= i < f.len() implies (#[trigger] f[i]).0 != p by {}
        assert(entries(b, p) =~= f.insert(0, (p, v)));
        if f.len() > 0 {
            assert(p.is_prefix_of(f[0].0));
        }
        assert(insert_pos_ok(f, p, 0));
    }
}

/// Appending a leaf for a key that starts like no edge places its entry
/// last.
proof fn lemma_place_push<P: Key, V>(a: &RadixTrie<P, V>, b: &RadixTrie<P, V>, p: Seq<Unit<P>>, k: Seq<Unit<P>>, v: V)
    requires
        a.root_wf(),
        k.len() > 0,
        forall|l: int| 0 <= l < a.nodes@.len() ==> #[trigger] edge_at(a.nodes@, l)[0] != k[0],
        b.value == a.value,
        b.nodes@.len() == a.nodes@.len() + 1,
        b.nodes@.subrange(0, a.nodes@.len() as int) == a.nodes@,
        is_leaf(b.nodes@.last(), k, v),
    ensures
        placed(entries(a, p), p + k, v, entries(b, p)),
{
    let n = a.nodes@.len() as int;
    let x = p + k;
    let np = p.len() as int;
    assert forall|l: int| 0 <= l < n implies a.nodes@[l] == b.nodes@[l] by {
        assert(b.nodes@.subrange(0, n)[l] == b.nodes@[l]);
    }
    lemma_entries_from_split(a, p, n);
    lemma_entries_from_split(b, p, n);
    lemma_before_same(a, b, p, n);
    lemma_leaf_entries(b.nodes@[n], k, v, p);
    assert(edge_at(b.nodes@, n) == k);
    assert(entries_from(b, p, n + 1) == Seq::<(Seq<Unit<P>>, V)>::empty());
    assert(entries_from(b, p, n) == seq![(x, v)]);
    assert(forall|l: int| 0 <= l < n ==> #[trigger] edge_at(a.nodes@, l)[0] != x[np]);
    lemma_before_keys(a, p, n, x);
    lemma_entries_from(a, p, 0);
    let e = entries(a, p);
    let own = own_entries(a, p);
    let f = entries_from(a, p, 0);
    assert(e == own + f);
    assert(entries(b, p) =~= e.insert(e.len() as int, (x, v)));
    assert(x.subrange(0, np) =~= p);
    assert forall|i: int| 0 <= i < e.len() implies !shares(#[trigger] e[i].0, x, np + 1) && shares(e[i].0, x, np) by {
        if i < own.len() {
            assert(e[i].0 == p);
            assert(p.subrange(0, np) =~= p);
        } else {
            assert(e[i] == f[i - own.len()]);
            assert(f == entries_before(a, p, n));
        }
    }
    assert forall|i: int| 0 <= i < e.len() implies (#[trigger] e[i]).0 != x && !x.is_prefix_of(e[i].0) by {
        lemma_not_shares(e[i].0, x, np);
    }
    if e.len() > 0 {
        assert(shares(e[e.len() - 1].0, x, np));
    }
    assert(insert_pos_ok(e, x, e.len() as int));
}

/// A fork whose first child is the old subtree and whose second is a new
/// leaf places the new entry after all of the old subtree's.
proof fn lemma_place_fork<P: Key, V>(
    c: &RadixTrie<P, V>,
    t: &RadixTrie<P, V>,
    q: Seq<Unit<P>>,
    er: Seq<Unit<P>>,
    kr: Seq<Unit<P>>,
    v: V,
)
    requires
        c.inner_wf(),
        er.len() > 0,
        kr.len() > 0,
        er[0] != kr[0],
        t.value.is_none(),
        t.nodes@.len() == 2,
        t.nodes@[0].trie == *c,
        edge_at(t.nodes@, 0) == er,
        is_leaf(t.nodes@[1], kr, v),
    ensures
        placed(entries(c, q + er), q + kr, v, entries(t, q)),
{
    let x = q + kr;
    let nq = q.len() as int;
    lemma_leaf_entries(t.nodes@[1], kr, v, q);
    assert(edge_at(t.nodes@, 1) == kr);
    assert(entries_from(t, q, 2) == Seq::<(Seq<Unit<P>>, V)>::empty());
    assert(entries_from(t, q, 1) == seq![(x, v)]);
    let cc = entries(c, q + er);
    assert(entries(t, q) =~= cc.insert(cc.len() as int, (x, v)));
    lemma_entries(c, q + er);
    lemma_entries_nonempty(c, q + er);
    assert(x.subrange(0, nq) =~= q);
    assert forall|i: int| 0 <= i < cc.len() implies !shares(#[trigger] cc[i].0, x, nq + 1) && shares(cc[i].0, x, nq) by {
        let key = cc[i].0;
        assert((q + er).is_prefix_of(key));
        assert(key[nq] == (q + er)[nq]);
        lemma_differs_at(key, x, nq);
        assert(key.subrange(0, nq) =~= key.subrange(0, (q + er).len() as int).subrange(0, nq));
    }
    assert forall|i: int| 0 <= i < cc.len() implies (#[trigger] cc[i]).0 != x && !x.is_prefix_of(cc[i].0) by {
        lemma_not_shares(cc[i].0, x, nq);
    }
    assert(shares(cc[cc.len() - 1].0, x, nq));
    assert(insert_pos_ok(cc, x, cc.len() as int));
}

/// A new node holding the value above the old subtree places the new entry
/// before all of the old subtree's.
proof fn lemma_place_interior<P: Key, V>(
    c: &RadixTrie<P, V>,
    t: &RadixTrie<P, V>,
    q: Seq<Unit<P>>,
    er: Seq<Unit<P>>,
    v: V,
)
    requires
        c.inner_wf(),
        er.len() > 0,
        t.value == Some(v),
        t.nodes@.len() == 1,
        t.nodes@[0].trie == *c,
        edge_at(t.nodes@, 0) == er,
    ensures
        placed(entries(c, q + er), q, v, entries(t, q)),
{
    assert(entries_from(t, q, 1) == Seq::<(Seq<Unit<P>>, V)>::empty());
    let cc = entries(c, q + er);
    assert(entries(t, q) =~= cc.insert(0, (q, v)));
    lemma_entries(c, q + er);
    lemma_entries_nonempty(c, q + er);
    assert forall|i: int| 0 <= i < cc.len() implies (#[trigger] cc[i]).0 != q && q.is_prefix_of(cc[i].0) by {
        let key = cc[i].0;
        assert((q + er).is_prefix_of(key));
        assert(key.subrange(0, q.len() as int) =~= key.subrange(0, (q + er).len() as int).subrange(0, q.len() as int));
        assert((q + er).subrange(0, q.len() as int) =~= q);
    }
    assert(q.is_prefix_of(cc[0].0));
    assert(insert_pos_ok(cc, q, 0));
}

/// The value under `k` is decided by the one child whose edge starts with
/// the first unit of `k`.
proof fn lemma_lookup_child<P: Key, V>(t: &RadixTrie<P, V>, k: Seq<Unit<P>>, i: int)
    requires
        t.edges_ok(),
        k.len() > 0,
        0 <= i < t.nodes@.len(),
        t.edge_of(i)[0] == k[0],
    ensures
        t.lookup(k) == (if t.edge_of(i).is_prefix_of(k) {
            t.nodes@[i].trie.lookup(k.skip(t.edge_of(i).len() as int))
        } else {
            None
        }),
{
    assert(t.edge_of(i).len() > 0);
    if exists|j: int| t.leads_to(j, k) {
        let j = choose|j: int| t.leads_to(j, k);
        assert(t.edge_of(j)[0] == t.edge_of(j).subrange(0, t.edge_of(j).len() as int)[0]);
        assert(t.edge_of(j)[0] == k[0]);
        assert(j == i);
    } else {
        assert(!t.leads_to(i, k));
    }
}

/// A key whose first unit starts no edge is absent.
proof fn lemma_lookup_none<P: Key, V>(t: &RadixTrie<P, V>, k: Seq<Unit<P>>)
    requires
        k.len() > 0,
        forall|i: int| 0 <= i < t.nodes@.len() ==> #[trigger] t.edge_of(i)[0] != k[0],
    ensures
        t.lookup(k).is_none(),
{
    if exists|j: int| t.leads_to(j, k) {
        let j = choose|j: int| t.leads_to(j, k);
        assert(t.edge_of(j)[0] == t.edge_of(j).subrange(0, t.edge_of(j).len() as int)[0]);
    }
}

/// Two tries with the same value and, for the first unit of `k`, the same
/// child node, hold the same value under `k`.
proof fn lemma_lookup_same_route<P: Key, V>(a: &RadixTrie<P, V>, b: &RadixTrie<P, V>, k: Seq<Unit<P>>)
    requires
        a.edges_ok(),
        b.edges_ok(),
        k.len() > 0,
        forall|i: int|
            0 <= i < a.nodes@.len() && #[trigger] a.edge_of(i)[0] == k[0] ==> exists|j: int|
                0 <= j < b.nodes@.len() && b.nodes@[j] == a.nodes@[i],
        forall|j: int|
            0 <= j < b.nodes@.len() && #[trigger] b.edge_of(j)[0] == k[0] ==> exists|i: int|
                0 <= i < a.nodes@.len() && a.nodes@[i] == b.nodes@[j],
    ensures
        a.lookup(k) == b.lookup(k),
{
    if exists|i: int| 0 <= i < a.nodes@.len() && a.edge_of(i)[0] == k[0] {
        let i = choose|i: int| 0 <= i < a.nodes@.len() && a.edge_of(i)[0] == k[0];
        let j = choose|j: int| 0 <= j < b.nodes@.len() && b.nodes@[j] == a.nodes@[i];
        assert(b.edge_of(j) == a.edge_of(i));
        lemma_lookup_child(a, k, i);
        lemma_lookup_child(b, k, j);
    } else if exists|j: int| 0 <= j < b.nodes@.len() && b.edge_of(j)[0] == k[0] {
        let j = choose|j: int| 0 <= j < b.nodes@.len() && b.edge_of(j)[0] == k[0];
        let i = choose|i: int| 0 <= i < a.nodes@.len() && a.nodes@[i] == b.nodes@[j];
        assert(a.edge_of(i) == b.edge_of(j));
    } else {
        lemma_lookup_none(a, k);
        lemma_lookup_none(b, k);
    }
}

/// Tries whose children agree everywhere but at index `i`, where neither has
/// an edge starting with the first unit of `k`, hold the same value under `k`.
proof fn lemma_lookup_update<P: Key, V>(a: &RadixTrie<P, V>, b: &RadixTrie<P, V>, i: int, k: Seq<Unit<P>>)
    requires
        a.edges_ok(),
        b.edges_ok(),
        k.len() > 0,
        a.nodes@.len() == b.nodes@.len(),
        forall|j: int| 0 <= j < a.nodes@.len() && j != i ==> a.nodes@[j] == b.nodes@[j],
        0 <= i < a.nodes@.len() ==> a.edge_of(i)[0] != k[0] && b.edge_of(i)[0] != k[0],
    ensures
        a.lookup(k) == b.lookup(k),
{
    assert forall|j: int| 0 <= j < a.nodes@.len() && #[trigger] a.edge_of(j)[0] == k[0] implies exists|l: int|
        0 <= l < b.nodes@.len() && b.nodes@[l] == a.nodes@[j] by {
        assert(b.nodes@[j] == a.nodes@[j]);
    }
    assert forall|j: int| 0 <= j < b.nodes@.len() && #[trigger] b.edge_of(j)[0] == k[0] implies exists|l: int|
        0 <= l < a.nodes@.len() && a.nodes@[l] == b.nodes@[j] by {
        assert(b.nodes@[j] == a.nodes@[j]);
    }
    lemma_lookup_same_route(a, b, k);
}

/// How a key runs along two edge fragments laid end to end.
proof fn lemma_prefix_concat<A>(c: Seq<A>, r: Seq<A>, x: Seq<A>)
    ensures
        (c + r).is_prefix_of(x) <==> (c.is_prefix_of(x) && r.is_prefix_of(x.skip(c.len() as int))),
        (c + r).is_prefix_of(x) ==> x.skip((c + r).len() as int) =~= x.skip(c.len() as int).skip(r.len() as int),
        x == c + r <==> (c.is_prefix_of(x) && x.skip(c.len() as int) == r),
{
    if (c + r).is_prefix_of(x) {
        assert(x.subrange(0, c.len() as int) =~= (c + r).subrange(0, c.len() as int));
        assert((c + r).subrange(0, c.len() as int) =~= c);
        assert(x.skip(c.len() as int).subrange(0, r.len() as int) =~= x.subrange(c.len() as int, (c + r).len() as int));
        assert((c + r).subrange(c.len() as int, (c + r).len() as int) =~= r);
    }
    if c.is_prefix_of(x) && r.is_prefix_of(x.skip(c.len() as int)) {
        assert(x.subrange(0, (c + r).len() as int) =~= c + r) by {
            assert(x.skip(c.len() as int).subrange(0, r.len() as int) =~= x.subrange(c.len() as int, (c + r).len() as int));
        }
    }
    if c.is_prefix_of(x) && x.skip(c.len() as int) == r {
        assert(x =~= c + r) by {
            assert(x =~= x.subrange(0, c.len() as int) + x.skip(c.len() as int));
        }
    }
    if x == c + r {
        assert(x.skip(c.len() as int) =~= r);
        assert(x.subrange(0, c.len() as int) =~= c);
    }
}

/// Removing child `i` by moving the last child into its place (and possibly
/// appending a child that starts like child `i` did) keeps the value under
/// every key that does not start like child `i`.
proof fn lemma_lookup_swap_removed<P: Key, V>(a: &RadixTrie<P, V>, b: &RadixTrie<P, V>, i: int, k: Seq<Unit<P>>)
    requires
        a.edges_ok(),
        b.edges_ok(),
        k.len() > 0,
        0 <= i < a.nodes@.len(),
        a.edge_of(i)[0] != k[0],
        b.nodes@.len() == a.nodes@.len() - 1 || (b.nodes@.len() == a.nodes@.len() && b.edge_of(
            a.nodes@.len() - 1,
        )[0] == a.edge_of(i)[0]),
        b.nodes@.subrange(0, a.nodes@.len() - 1) == a.nodes@.update(i, a.nodes@.last()).drop_last(),
    ensures
        a.lookup(k) == b.lookup(k),
{
    let n = a.nodes@.len() - 1;
    assert forall|j: int| 0 <= j < a.nodes@.len() && #[trigger] a.edge_of(j)[0] == k[0] implies exists|l: int|
        0 <= l < b.nodes@.len() && b.nodes@[l] == a.nodes@[j] by {
        if j == n {
            assert(b.nodes@.subrange(0, n)[i] == b.nodes@[i]);
        } else {
            assert(b.nodes@.subrange(0, n)[j] == b.nodes@[j]);
        }
    }
    assert forall|j: int| 0 <= j < b.nodes@.len() && #[trigger] b.edge_of(j)[0] == k[0] implies exists|l: int|
        0 <= l < a.nodes@.len() && a.nodes@[l] == b.nodes@[j] by {
        if j < n {
            assert(b.nodes@.subrange(0, n)[j] == b.nodes@[j]);
            if j == i {
                assert(b.nodes@[j] == a.nodes@[n]);
            } else {
                assert(b.nodes@[j] == a.nodes@[j]);
            }
        }
    }
    lemma_lookup_same_route(a, b, k);
}

/// The entries of a subtree are exactly what it stores, each key once.
proof fn lemma_entries<P: Key, V>(t: &RadixTrie<P, V>, p: Seq<Unit<P>>)
    requires
        t.root_wf(),
    ensures
        forall|a: int|
            0 <= a < entries(t, p).len() ==> p.is_prefix_of(#[trigger] entries(t, p)[a].0) && t.lookup(
                entries(t, p)[a].0.skip(p.len() as int),
            ) == Some(entries(t, p)[a].1),
        forall|a: int, b: int|
            0 <= a < b < entries(t, p).len() ==> #[trigger] entries(t, p)[a].0 != #[trigger] entries(
                t,
                p,
            )[b].0,
        forall|y: Seq<Unit<P>>|
            #[trigger] t.lookup(y).is_some() ==> exists|a: int|
                0 <= a < entries(t, p).len() && entries(t, p)[a] == (p + y, t.lookup(y).unwrap()),
    decreases t, t.nodes@.len() + 1,
{
    lemma_entries_from(t, p, 0);
    let own: Seq<(Seq<Unit<P>>, V)> = match t.value {
        Some(v) => seq![(p, v)],
        None => Seq::empty(),
    };
    let rest = entries_from(t, p, 0);
    let all = entries(t, p);
    assert(all == own + rest);
    assert forall|a: int| 0 <= a < all.len() implies p.is_prefix_of(#[trigger] all[a].0) && t.lookup(
        all[a].0.skip(p.len() as int),
    ) == Some(all[a].1) by {
        if a < own.len() {
            assert(p.skip(p.len() as int).len() == 0);
            assert(p.subrange(0, p.len() as int) =~= p);
        } else {
            assert(all[a] == rest[a - own.len()]);
        }
    }
    assert forall|a: int, b: int| 0 <= a < b < all.len() implies #[trigger] all[a].0 != #[trigger] all[b].0 by {
        if b < own.len() {
        } else if a < own.len() {
            assert(all[b] == rest[b - own.len()]);
        } else {
            assert(all[a] == rest[a - own.len()]);
            assert(all[b] == rest[b - own.len()]);
        }
    }
    assert forall|y: Seq<Unit<P>>| #[trigger] t.lookup(y).is_some() implies exists|a: int|
        0 <= a < all.len() && all[a] == (p + y, t.lookup(y).unwrap()) by {
        if y.len() == 0 {
            assert(p + y =~= p);
            assert(all[0] == own[0]);
        } else {
            assert forall|i: int| 0 <= i < 0 implies #[trigger] edge_at(t.nodes@, i)[0] != y[0] by {}
            let a = choose|a: int| 0 <= a < rest.len() && rest[a] == (p + y, t.lookup(y).unwrap());
            assert(all[a + own.len()] == rest[a]);
        }
    }
}

/// The entries of the children of a subtree from child `j` on are what
/// those children store, each key once, and their keys do not start like
/// the edges of the earlier children.
proof fn lemma_entries_from<P: Key, V>(t: &RadixTrie<P, V>, p: Seq<Unit<P>>, j: int)
    requires
        t.root_wf(),
        0 <= j <= t.nodes@.len(),
    ensures
        forall|a: int|
            0 <= a < entries_from(t, p, j).len() ==> {
                let key = #[trigger] entries_from(t, p, j)[a].0;
                &&& p.is_prefix_of(key)
                &&& key.len() > p.len()
                &&& t.lookup(key.skip(p.len() as int)) == Some(entries_from(t, p, j)[a].1)
                &&& forall|i: int| 0 <= i < j ==> #[trigger] edge_at(t.nodes@, i)[0] != key[p.len() as int]
            },
        forall|a: int, b: int|
            0 <= a < b < entries_from(t, p, j).len() ==> #[trigger] entries_from(t, p, j)[a].0
                != #[trigger] entries_from(t, p, j)[b].0,
        forall|y: Seq<Unit<P>>|
            y.len() > 0 && #[trigger] t.lookup(y).is_some() && (forall|i: int|
                0 <= i < j ==> #[trigger] edge_at(t.nodes@, i)[0] != y[0]) ==> exists|a: int|
                0 <= a < entries_from(t, p, j).len() && entries_from(t, p, j)[a] == (
                    p + y,
                    t.lookup(y).unwrap(),
                ),
    decreases t, t.nodes@.len() - j,
{
    if j < t.nodes@.len() {
        let c = &t.nodes@[j].trie;
        let e = edge_at(t.nodes@, j);
        let q = p + e;
        assert(c.inner_wf());
        lemma_entries(c, q);
        lemma_entries_from(t, p, j + 1);
        let first = entries(c, q);
        let rest = entries_from(t, p, j + 1);
        let all = entries_from(t, p, j);
        assert(all == first + rest);
        assert forall|a: int| 0 <= a < all.len() implies {
            let key = #[trigger] all[a].0;
            &&& p.is_prefix_of(key)
            &&& key.len() > p.len()
            &&& t.lookup(key.skip(p.len() as int)) == Some(all[a].1)
            &&& forall|i: int| 0 <= i < j ==> #[trigger] edge_at(t.nodes@, i)[0] != key[p.len() as int]
        } by {
            if a < first.len() {
                let key = first[a].0;
                lemma_prefix_concat(p, e, key);
                let y = key.skip(p.len() as int);
                assert(e.is_prefix_of(y));
                assert(y[0] == e[0]);
                assert(key[p.len() as int] == y[0]);
                lemma_lookup_child(t, y, j);
            } else {
                assert(all[a] == rest[a - first.len()]);
            }
        }
        assert forall|a: int, b: int| 0 <= a < b < all.len() implies #[trigger] all[a].0 != #[trigger] all[b].0 by {
            if b < first.len() {
            } else if a < first.len() {
                assert(all[b] == rest[b - first.len()]);
                let ka = first[a].0;
                let kb = rest[b - first.len()].0;
                lemma_prefix_concat(p, e, ka);
                assert(ka.skip(p.len() as int)[0] == e[0]);
                assert(ka[p.len() as int] == e[0]);
                assert(kb[p.len() as int] != edge_at(t.nodes@, j)[0]);
            } else {
                assert(all[a] == rest[a - first.len()]);
                assert(all[b] == rest[b - first.len()]);
            }
        }
        assert forall|y: Seq<Unit<P>>|
            y.len() > 0 && #[trigger] t.lookup(y).is_some() && (forall|i: int|
                0 <= i < j ==> #[trigger] edge_at(t.nodes@, i)[0] != y[0]) implies exists|a: int|
            0 <= a < all.len() && all[a] == (p + y, t.lookup(y).unwrap()) by {
            if y[0] == e[0] {
                lemma_lookup_child(t, y, j);
                let z = y.skip(e.len() as int);
                assert(c.lookup(z).is_some());
                let a = choose|a: int| 0 <= a < first.len() && first[a] == (q + z, c.lookup(z).unwrap());
                lemma_prefix_concat(e, z, y);
                assert(y =~= e + z);
                assert(q + z =~= p + y);
                assert(all[a] == first[a]);
            } else {
                let a = choose|a: int| 0 <= a < rest.len() && rest[a] == (p + y, t.lookup(y).unwrap());
                assert(all[a + first.len()] == rest[a]);
            }
        }
    } else {
        assert forall|y: Seq<Unit<P>>|
            y.len() > 0 && #[trigger] t.lookup(y).is_some() && (forall|i: int|
                0 <= i < j ==> #[trigger] edge_at(t.nodes@, i)[0] != y[0]) implies false by {
            lemma_lookup_none(t, y);
        }
    }
}

/// In the entries of a subtree, no key is a prefix of a key that comes
/// before it: a node's entry precedes those below it.
proof fn lemma_entries_order<P: Key, V>(t: &RadixTrie<P, V>, p: Seq<Unit<P>>)
    requires
        t.root_wf(),
    ensures
        forall|a: int, b: int|
            0 <= a < b < entries(t, p).len() ==> !(#[trigger] entries(t, p)[b]).0.is_prefix_of(
                (#[trigger] entries(t, p)[a]).0,
            ),
    decreases t, t.nodes@.len() + 1,
{
    lemma_entries_from(t, p, 0);
    lemma_entries_from_order(t, p, 0);
    let own: Seq<(Seq<Unit<P>>, V)> = match t.value {
        Some(v) => seq![(p, v)],
        None => Seq::empty(),
    };
    let rest = entries_from(t, p, 0);
    let all = entries(t, p);
    assert(all == own + rest);
    assert forall|a: int, b: int| 0 <= a < b < all.len() implies !(#[trigger] all[b]).0.is_prefix_of(
        (#[trigger] all[a]).0,
    ) by {
        assert(all[b] == rest[b - own.len()]);
        if a >= own.len() {
            assert(all[a] == rest[a - own.len()]);
        }
    }
}

proof fn lemma_entries_from_order<P: Key, V>(t: &RadixTrie<P, V>, p: Seq<Unit<P>>, j: int)
    requires
        t.root_wf(),
        0 <= j <= t.nodes@.len(),
    ensures
        forall|a: int, b: int|
            0 <= a < b < entries_from(t, p, j).len() ==> !(#[trigger] entries_from(t, p, j)[b]).0.is_prefix_of(
                (#[trigger] entries_from(t, p, j)[a]).0,
            ),
    decreases t, t.nodes@.len() - j,
{
    if j < t.nodes@.len() {
        let c = &t.nodes@[j].trie;
        let e = edge_at(t.nodes@, j);
        let q = p + e;
        assert(c.inner_wf());
        lemma_entries(c, q);
        lemma_entries_order(c, q);
        lemma_entries_from(t, p, j + 1);
        lemma_entries_from_order(t, p, j + 1);
        let first = entries(c, q);
        let rest = entries_from(t, p, j + 1);
        let all = entries_from(t, p, j);
        assert(all == first + rest);
        assert forall|a: int, b: int| 0 <= a < b < all.len() implies !(#[trigger] all[b]).0.is_prefix_of(
            (#[trigger] all[a]).0,
        ) by {
            if b < first.len() {
            } else if a < first.len() {
                assert(all[b] == rest[b - first.len()]);
                let ka = first[a].0;
                let kb = rest[b - first.len()].0;
                lemma_prefix_concat(p, e, ka);
                assert(ka.skip(p.len() as int)[0] == e[0]);
                assert(ka[p.len() as int] == e[0]);
                assert(kb[p.len() as int] != edge_at(t.nodes@, j)[0]);
                if kb.is_prefix_of(ka) {
                    assert(ka.subrange(0, kb.len() as int)[p.len() as int] == ka[p.len() as int]);
                }
            } else {
                assert(all[a] == rest[a - first.len()]);
                assert(all[b] == rest[b - first.len()]);
            }
        }
    }
}

/// A trie without children holds a value under the empty key only.
proof fn lemma_lookup_leaf<P: Key, V>(t: &RadixTrie<P, V>, k: Seq<Unit<P>>)
    requires
        t.nodes@.len() == 0,
    ensures
        t.lookup(k) == (if k.len() == 0 { t.value } else { None }),
{
    if k.len() > 0 {
        lemma_lookup_none(t, k);
    }
}

/// What removing a key from a subtree reports to the trie above it.
enum RemoveResult<V> {
    /// No child led to the key: nothing changed.
    Skip,
    /// The key was reached: `idx` is the index of the subtree in its parent,
    /// `num_children` and `has_value` describe the subtree after the removal,
    /// and `removed_value` is the value that was stored under the key.
    Done { idx: usize, num_children: usize, has_value: bool, removed_value: Option<V> },
}

impl<P: Key, V> RadixTrie<P, V> {
    fn with_value_and_capacity(value: Option<V>, n: usize) -> (r: RadixTrie<P, V>)
        ensures
            r.value == value,
            r.nodes@.len() == 0,
    {
        RadixTrie { value, nodes: Vec::with_capacity(n) }
    }

    fn with_value(value: V) -> (r: RadixTrie<P, V>)
        ensures
            r.value == Some(value),
            r.nodes@.len() == 0,
    {
        Self::with_value_and_capacity(Some(value), 0)
    }

    fn insert_impl(&mut self, key: &P::Ref, value: V) -> (r: Option<V>)
        requires
            old(self).root_wf(),
        ensures
            final(self).root_wf(),
            final(self).value.is_some() || final(self).nodes@.len() > 0,
            old(self).value.is_some() ==> final(self).value.is_some(),
            final(self).nodes@.len() >= old(self).nodes@.len(),
            key.ref_view().len() == 0 ==> final(self).value == Some(value) && final(self).nodes
                == old(self).nodes,
            key.ref_view().len() > 0 ==> final(self).value == old(self).value,
            key.ref_view().len() > 0 && (forall|i: int|
                0 <= i < old(self).nodes@.len() ==> #[trigger] old(self).edge_of(i)[0]
                    != key.ref_view()[0]) ==> {
                &&& final(self).nodes@.len() == old(self).nodes@.len() + 1
                &&& final(self).nodes@.subrange(0, old(self).nodes@.len() as int) == old(self).nodes@
                &&& is_leaf(final(self).nodes@.last(), key.ref_view(), value)
            },
            forall|i: int|
                0 <= i < old(self).nodes@.len() && key.ref_view().len() > 0 && #[trigger] old(
                    self,
                ).edge_of(i)[0] == key.ref_view()[0] ==> {
                    &&& final(self).nodes@.len() == old(self).nodes@.len()
                    &&& forall|j: int|
                        0 <= j < old(self).nodes@.len() && j != i ==> final(self).nodes@[j] == old(
                            self,
                        ).nodes@[j]
                    &&& split_shape(old(self).nodes@[i], final(self).nodes@[i], key.ref_view(), value)
                },
            forall|p: Seq<Unit<P>>|
                placed(entries(old(self), p), p + key.ref_view(), value, #[trigger] entries(final(self), p)),
            r == old(self).lookup(key.ref_view()),
            forall|x: Seq<Unit<P>>|
                #[trigger] final(self).lookup(x) == (if x == key.ref_view() {
                    Some(value)
                } else {
                    old(self).lookup(x)
                }),
        decreases key.ref_view().len(),
    {
        let ghost k = key.ref_view();
        if key.is_empty() {
            let mut previous = Some(value);
            std::mem::swap(&mut self.value, &mut previous);
            proof {
                assert forall|x: Seq<Unit<P>>| #[trigger] self.lookup(x) == (if x == k {
                    Some(value)
                } else {
                    old(self).lookup(x)
                }) by {
                    if x.len() > 0 {
                        assert(self.nodes == old(self).nodes);
                        assert(self.edges_ok()) by {
                            assert forall|j: int| 0 <= j < self.nodes@.len() implies #[trigger] self.edge_of(j) == old(self).edge_of(j) by {}
                        }
                        lemma_lookup_update(self, old(self), self.nodes@.len() as int, x);
                    } else {
                        assert(x =~= k);
                    }
                }
                assert(self.nodes == old(self).nodes);
                assert(self.edges_ok()) by {
                    assert forall|j: int| 0 <= j < self.nodes@.len() implies #[trigger] self.edge_of(j) == old(self).edge_of(j) by {}
                }
                assert forall|p: Seq<Unit<P>>| placed(entries(old(self), p), p + k, value, #[trigger] entries(self, p)) by {
                    assert(p + k =~= p);
                    lemma_place_value(old(self), self, p, value);
                }
            }
            return previous;
        }
        let mut i: usize = 0;
        while i < self.nodes.len()
            invariant
                self.nodes@ == old(self).nodes@,
                self.value == old(self).value,
                self.root_wf(),
                k == key.ref_view(),
                k.len() > 0,
                i <= self.nodes@.len(),
                forall|j: int| 0 <= j < i ==> #[trigger] self.edge_of(j)[0] != k[0],
            decreases self.nodes@.len() - i,
        {
            let ghost e = self.edge_of(i as int);
            let ghost child = self.nodes@[i as int].trie;
            let node = &mut self.nodes[i];
            let (prefix, node_rest, key_rest) = P::Ref::prefix(node.key.as_key_ref(), key);
            let prefix_empty = prefix.is_empty();
            let node_rest_empty = node_rest.is_empty();
            let key_rest_empty = key_rest.is_empty();
            proof {
                assert(e.len() > 0);
                if !prefix_empty {
                    assert(prefix.ref_view()[0] == e[0]);
                    assert(prefix.ref_view()[0] == k[0]);
                }
            }
            if !prefix_empty {
                if node_rest_empty {
                    // the whole edge is consumed: go down this child
                    proof {
                        assert(e =~= prefix.ref_view());
                        assert(key_rest.ref_view() =~= k.skip(e.len() as int));
                        lemma_lookup_child(old(self), k, i as int);
                    }
                    let r = node.trie.insert_impl(key_rest, value);
                    proof {
                        assert(self.nodes@[i as int].trie.inner_wf());
                        assert(self.edges_ok()) by {
                            assert forall|j: int| 0 <= j < self.nodes@.len() implies #[trigger] self.edge_of(j) == old(self).edge_of(j) by {}
                        }
                        assert forall|x: Seq<Unit<P>>| #[trigger] self.lookup(x) == (if x == k {
                            Some(value)
                        } else {
                            old(self).lookup(x)
                        }) by {
                            if x.len() == 0 {
                            } else if x[0] == e[0] {
                                lemma_lookup_child(self, x, i as int);
                                lemma_lookup_child(old(self), x, i as int);
                                if e.is_prefix_of(x) {
                                    if x.skip(e.len() as int) == key_rest.ref_view() {
                                        assert(x =~= k);
                                    }
                                } else {
                                    assert(x != k);
                                }
                            } else {
                                assert(x != k);
                                lemma_lookup_update(self, old(self), i as int, x);
                            }
                        }
                        assert forall|p: Seq<Unit<P>>| placed(entries(old(self), p), p + k, value, #[trigger] entries(self, p)) by {
                            let q = p + e;
                            assert(q + key_rest.ref_view() =~= p + k);
                            assert(placed(entries(&child, q), q + key_rest.ref_view(), value, entries(&self.nodes@[i as int].trie, q)));
                            assert(edge_at(self.nodes@, i as int) == e);
                            assert((p + k).subrange(0, p.len() as int) =~= p);
                            assert((p + k)[p.len() as int] == e[0]);
                            lemma_place_child(old(self), self, p, i as int, p + k, value);
                        }
                    }
                    return r;
                }
                let left_key = node_rest.to_key();
                let right_key = key_rest.to_key();
                let new_key = prefix.to_key();
                let ghost c = prefix.ref_view();
                let ghost er = node_rest.ref_view();
                let ghost kr = key_rest.ref_view();
                if !key_rest_empty {
                    // the key and the edge part ways inside the edge: fork
                    let mut interior = RadixTrie::with_value_and_capacity(None, 2);
                    std::mem::swap(&mut node.trie, &mut interior);
                    node.key = new_key;
                    node.trie.nodes.push(Node { key: left_key, trie: interior });
                    node.trie.nodes.push(Node { key: right_key, trie: RadixTrie::with_value(value) });
                } else {
                    // the key ends inside the edge: a new interior node holds the value
                    let mut interior = RadixTrie::with_value_and_capacity(Some(value), 1);
                    std::mem::swap(&mut node.trie, &mut interior);
                    node.key = new_key;
                    node.trie.nodes.push(Node { key: left_key, trie: interior });
                }
                proof {
                    let t = self.nodes@[i as int].trie;
                    assert(t.nodes@[0].trie == child);
                    assert(t.edge_of(0) == er);
                    assert(child.inner_wf());
                    if !key_rest_empty {
                        assert(t.edge_of(1) == kr);
                        assert(t.nodes@[1].trie.inner_wf());
                    }
                    assert(t.edges_ok());
                    assert(t.inner_wf());
                    assert(self.edge_of(i as int) == c);
                    assert(self.edges_ok()) by {
                        assert forall|j: int| 0 <= j < self.nodes@.len() && j != i implies #[trigger] self.edge_of(j) == old(self).edge_of(j) by {}
                    }
                    assert(self.root_wf());
                    lemma_lookup_child(old(self), k, i as int);
                    lemma_prefix_concat(c, er, k);
                    assert(!e.is_prefix_of(k)) by {
                        if e.is_prefix_of(k) {
                            lemma_prefix_concat(c, er, k);
                            assert(k.skip(c.len() as int) =~= kr);
                            if !key_rest_empty {
                                assert(kr[0] == er[0]);
                            }
                        }
                    }
                    assert(e =~= c + er);
                    assert(k =~= c + kr);
                    assert(c.is_prefix_of(e) && c.is_prefix_of(k)) by {
                        assert(e.subrange(0, c.len() as int) =~= c);
                        assert(k.subrange(0, c.len() as int) =~= c);
                    }
                    assert(e.skip(c.len() as int) =~= er);
                    assert(k.skip(c.len() as int) =~= kr);
                    if key_rest_empty {
                        assert(k =~= c);
                        assert(k.is_prefix_of(e));
                    } else {
                        assert(!k.is_prefix_of(e)) by {
                            if k.is_prefix_of(e) {
                                assert(e[c.len() as int] == k[c.len() as int]);
                            }
                        }
                    }
                    assert(split_shape(old(self).nodes@[i as int], self.nodes@[i as int], k, value));
                    assert forall|i2: int|
                        0 <= i2 < old(self).nodes@.len() && k.len() > 0 && #[trigger] old(self).edge_of(i2)[0] == k[0]
                        implies i2 == i by {}
                    assert forall|x: Seq<Unit<P>>| #[trigger] self.lookup(x) == (if x == k {
                        Some(value)
                    } else {
                        old(self).lookup(x)
                    }) by {
                        if x.len() == 0 {
                        } else if x[0] == e[0] {
                            lemma_lookup_child(self, x, i as int);
                            lemma_lookup_child(old(self), x, i as int);
                            lemma_prefix_concat(c, er, x);
                            lemma_prefix_concat(c, kr, x);
                            if c.is_prefix_of(x) {
                                let y = x.skip(c.len() as int);
                                if y.len() == 0 {
                                    assert(!er.is_prefix_of(y));
                                } else if y[0] == er[0] {
                                    lemma_lookup_child(&t, y, 0);
                                    if !key_rest_empty {
                                        assert(!kr.is_prefix_of(y));
                                    }
                                } else if !key_rest_empty && y[0] == kr[0] {
                                    lemma_lookup_child(&t, y, 1);
                                    lemma_lookup_leaf(&t.nodes@[1].trie, y.skip(kr.len() as int));
                                    assert(!er.is_prefix_of(y));
                                    if kr.is_prefix_of(y) && y.skip(kr.len() as int).len() == 0 {
                                        assert(y =~= kr);
                                    }
                                } else {
                                    lemma_lookup_none(&t, y);
                                    assert(!er.is_prefix_of(y));
                                    if !key_rest_empty {
                                        assert(!kr.is_prefix_of(y));
                                    }
                                }
                            } else {
                                assert(x != k);
                            }
                        } else {
                            assert(x != k);
                            lemma_lookup_update(self, old(self), i as int, x);
                        }
                    }
                    assert forall|p: Seq<Unit<P>>| placed(entries(old(self), p), p + k, value, #[trigger] entries(self, p)) by {
                        let q = p + c;
                        assert(q + er =~= p + e);
                        if !key_rest_empty {
                            assert(q + kr =~= p + k);
                            assert(er[0] != kr[0]);
                            lemma_place_fork(&child, &t, q, er, kr, value);
                        } else {
                            assert(q =~= p + k);
                            lemma_place_interior(&child, &t, q, er, value);
                        }
                        assert(edge_at(self.nodes@, i as int) == c);
                        assert((p + k).subrange(0, p.len() as int) =~= p);
                        assert((p + k)[p.len() as int] == e[0]);
                        lemma_place_child(old(self), self, p, i as int, p + k, value);
                    }
                }
                return None;
            }
            proof {
                assert(self.nodes@ =~= old(self).nodes@);
            }
            i = i + 1;
        }
        proof {
            lemma_lookup_none(self, k);
        }
        self.nodes.push(Node { key: key.to_key(), trie: RadixTrie::with_value(value) });
        proof {
            let n = old(self).nodes@.len() as int;
            assert(self.edge_of(n) == k);
            assert(self.edges_ok()) by {
                assert forall|j: int| 0 <= j < n implies #[trigger] self.edge_of(j) == old(self).edge_of(j) by {}
            }
            assert(self.nodes@[n].trie.inner_wf());
            assert(self.root_wf());
            assert forall|x: Seq<Unit<P>>| #[trigger] self.lookup(x) == (if x == k {
                Some(value)
            } else {
                old(self).lookup(x)
            }) by {
                if x.len() == 0 {
                } else if x[0] == k[0] {
                    lemma_lookup_child(self, x, n);
                    lemma_lookup_none(old(self), x);
                    lemma_lookup_leaf(&self.nodes@[n].trie, x.skip(k.len() as int));
                    lemma_prefix_concat(k, Seq::empty(), x);
                    assert(k + Seq::<Unit<P>>::empty() =~= k);
                } else {
                    assert forall|j: int| 0 <= j < old(self).nodes@.len() && #[trigger] old(self).edge_of(j)[0] == x[0] implies exists|l: int|
                        0 <= l < self.nodes@.len() && self.nodes@[l] == old(self).nodes@[j] by {
                        assert(self.nodes@[j] == old(self).nodes@[j]);
                    }
                    assert forall|j: int| 0 <= j < self.nodes@.len() && #[trigger] self.edge_of(j)[0] == x[0] implies exists|l: int|
                        0 <= l < old(self).nodes@.len() && old(self).nodes@[l] == self.nodes@[j] by {
                        assert(self.nodes@[j] == old(self).nodes@[j]);
                    }
                    lemma_lookup_same_route(self, old(self), x);
                }
            }
            assert(self.nodes@.subrange(0, n) =~= old(self).nodes@);
            assert forall|p: Seq<Unit<P>>| placed(entries(old(self), p), p + k, value, #[trigger] entries(self, p)) by {
                lemma_place_push(old(self), self, p, k, value);
            }
        }
        None
    }

    fn remove_impl(&mut self, this_idx: usize, key: &P::Ref) -> (r: RemoveResult<V>)
        requires
            old(self).root_wf(),
        ensures
            final(self).root_wf(),
            forall|x: Seq<Unit<P>>|
                #[trigger] final(self).lookup(x) == (if x == key.ref_view() {
                    None
                } else {
                    old(self).lookup(x)
                }),
            match r {
                RemoveResult::Skip => {
                    &&& key.ref_view().len() > 0
                    &&& !node_at(old(self).nodes@, key.ref_view())
                    &&& old(self).lookup(key.ref_view()).is_none()
                    &&& final(self).value == old(self).value
                    &&& final(self).nodes@.len() == old(self).nodes@.len()
                    &&& same_shape(old(self), final(self))
                },
                RemoveResult::Done { idx, num_children, has_value, removed_value } => {
                    &&& node_at(old(self).nodes@, key.ref_view())
                    &&& idx == this_idx
                    &&& num_children == final(self).nodes@.len()
                    &&& has_value == final(self).value.is_some()
                    &&& removed_value == old(self).lookup(key.ref_view())
                },
            },
            key.ref_view().len() == 0 ==> {
                &&& final(self).value.is_none()
                &&& final(self).nodes == old(self).nodes
                &&& match r {
                    RemoveResult::Skip => false,
                    RemoveResult::Done { idx, num_children, has_value, removed_value } => {
                        &&& idx == this_idx
                        &&& num_children == old(self).nodes@.len()
                        &&& !has_value
                        &&& removed_value == old(self).value
                    },
                }
            },
            key.ref_view().len() > 0 ==> final(self).value == old(self).value,
            forall|i: int|
                0 <= i < old(self).nodes@.len() && key.ref_view().len() > 0 && #[trigger] old(
                    self,
                ).edge_of(i)[0] == key.ref_view()[0] && r is Done ==> {
                    let n = old(self).nodes@.len() as int;
                    let rest = old(self).nodes@.update(i, old(self).nodes@.last()).drop_last();
                    // the child is kept, as it still holds a value or has two children or more
                    ||| {
                        &&& final(self).nodes@.len() == n
                        &&& forall|j: int| 0 <= j < n && j != i ==> final(self).nodes@[j] == old(self).nodes@[j]
                        &&& final(self).nodes@[i].key == old(self).nodes@[i].key
                        &&& (final(self).nodes@[i].trie.value.is_some() || final(self).nodes@[i].trie.nodes@.len() >= 2)
                    }
                    // the child, left without a value and without children, is dropped
                    ||| final(self).nodes@ == rest
                    // the child, left without a value and with one child, is replaced,
                    // at the end, by that child, whose edge is extended by the child's
                    ||| {
                        &&& final(self).nodes@.len() == n
                        &&& final(self).nodes@.subrange(0, n - 1) == rest
                        &&& old(self).edge_of(i).is_prefix_of(final(self).edge_of(n - 1))
                        &&& final(self).edge_of(n - 1).len() > old(self).edge_of(i).len()
                    }
                },
        decreases key.ref_view().len(),
    {
        let ghost k = key.ref_view();
        if key.is_empty() {
            // this is the node that holds the key: take its value out and let
            // the parent decide whether this node is still needed
            let removed_value = self.value.take();
            proof {
                assert forall|x: Seq<Unit<P>>| #[trigger] self.lookup(x) == (if x == k {
                    None
                } else {
                    old(self).lookup(x)
                }) by {
                    if x.len() == 0 {
                        assert(x =~= k);
                    }
                }
            }
            return RemoveResult::Done {
                idx: this_idx,
                num_children: self.nodes.len(),
                has_value: false,
                removed_value,
            };
        }
        let mut i: usize = 0;
        while i < self.nodes.len()
            invariant
                self.nodes@ == old(self).nodes@,
                self.value == old(self).value,
                self.root_wf(),
                k == key.ref_view(),
                k.len() > 0,
                i <= self.nodes@.len(),
                forall|j: int| 0 <= j < i ==> #[trigger] self.edge_of(j)[0] != k[0],
            decreases self.nodes@.len() - i,
        {
            let ghost e = self.edge_of(i as int);
            let ghost child = self.nodes@[i as int].trie;
            let node = &mut self.nodes[i];
            let (prefix, node_rest, key_rest) = P::Ref::prefix(node.key.as_key_ref(), key);
            let prefix_empty = prefix.is_empty();
            let node_rest_empty = node_rest.is_empty();
            proof {
                assert(e.len() > 0);
                if !prefix_empty {
                    assert(prefix.ref_view()[0] == e[0]);
                    assert(prefix.ref_view()[0] == k[0]);
                }
            }
            if !prefix_empty {
                proof {
                    lemma_lookup_child(old(self), k, i as int);
                    lemma_node_at_child(old(self), k, i as int);
                }
                if !node_rest_empty {
                    // the key ends inside this edge, or leaves it: it is absent
                    proof {
                        if e.is_prefix_of(k) {
                            let n = prefix.ref_view().len() as int;
                            assert(k.subrange(0, e.len() as int) == e);
                            assert(e =~= prefix.ref_view() + node_rest.ref_view());
                            assert(e[n] == node_rest.ref_view()[0]);
                            assert(k.subrange(0, e.len() as int)[n] == k[n]);
                            assert(k[n] == key_rest.ref_view()[0]);
                        }
                        assert(self.nodes@ =~= old(self).nodes@);
                        lemma_same_shape_same_nodes(old(self), self);
                    }
                    return RemoveResult::Skip;
                }
                proof {
                    assert(e =~= prefix.ref_view());
                    assert(key_rest.ref_view() =~= k.skip(e.len() as int));
                }
                let result = node.trie.remove_impl(i, key_rest);
                proof {
                    assert(self.edges_ok()) by {
                        assert forall|j: int| 0 <= j < self.nodes@.len() implies #[trigger] self.edge_of(j) == old(self).edge_of(j) by {}
                    }
                    assert forall|x: Seq<Unit<P>>| #[trigger] self.lookup(x) == (if x == k {
                        None
                    } else {
                        old(self).lookup(x)
                    }) by {
                        if x.len() == 0 {
                        } else if x[0] == e[0] {
                            lemma_lookup_child(self, x, i as int);
                            lemma_lookup_child(old(self), x, i as int);
                            if e.is_prefix_of(x) {
                                if x.skip(e.len() as int) == key_rest.ref_view() {
                                    assert(x =~= k);
                                }
                            } else {
                                assert(x != k);
                            }
                        } else {
                            assert(x != k);
                            lemma_lookup_update(self, old(self), i as int, x);
                        }
                    }
                }
                match result {
                    RemoveResult::Skip => {
                        proof {
                            assert forall|j: int| 0 <= j < old(self).nodes@.len() implies same_shape(&(#[trigger] old(self).nodes@[j]).trie, &self.nodes@[j].trie) by {
                                if j != i {
                                    assert(self.nodes@[j] == old(self).nodes@[j]);
                                    lemma_same_shape_same_nodes(&old(self).nodes@[j].trie, &old(self).nodes@[j].trie);
                                }
                            }
                            assert forall|j: int| 0 <= j < old(self).nodes@.len() implies (#[trigger] old(self).nodes@[j]).key == self.nodes@[j].key by {
                                if j != i {
                                    assert(self.nodes@[j] == old(self).nodes@[j]);
                                }
                            }
                        }
                        return RemoveResult::Skip;
                    },
                    RemoveResult::Done { idx, num_children, has_value, removed_value } => {
                        let ghost s1 = *self;
                        let ghost c1 = self.nodes@[i as int].trie;
                        if !has_value && num_children == 0 {
                            // an empty leaf is left: drop it
                            self.nodes.swap_remove(idx);
                            proof {
                                assert(self.edges_ok()) by {
                                    let n = s1.nodes@.len() - 1;
                                    assert forall|j: int| 0 <= j < self.nodes@.len() implies #[trigger] self.edge_of(j) == s1.edge_of(if j == i { n } else { j }) by {}
                                    assert forall|j1: int, j2: int| 0 <= j1 < self.nodes@.len() && 0 <= j2 < self.nodes@.len() && j1 != j2 implies #[trigger] self.edge_of(j1)[0] != #[trigger] self.edge_of(j2)[0] by {
                                        assert(s1.edge_of(if j1 == i { n } else { j1 })[0] != s1.edge_of(if j2 == i { n } else { j2 })[0]);
                                    }
                                }
                                assert forall|x: Seq<Unit<P>>| #[trigger] self.lookup(x) == s1.lookup(x) by {
                                    if x.len() == 0 {
                                    } else if x[0] == e[0] {
                                        lemma_lookup_child(&s1, x, i as int);
                                        lemma_lookup_leaf(&c1, x.skip(e.len() as int));
                                        assert forall|j: int| 0 <= j < self.nodes@.len() implies #[trigger] self.edge_of(j)[0] != x[0] by {
                                            let n = s1.nodes@.len() - 1;
                                            assert(self.edge_of(j) == s1.edge_of(if j == i { n } else { j }));
                                            assert(s1.edge_of(i as int) == e);
                                        }
                                        lemma_lookup_none(self, x);
                                    } else {
                                        assert(self.nodes@.subrange(0, s1.nodes@.len() - 1) =~= self.nodes@);
                                        lemma_lookup_swap_removed(&s1, self, i as int, x);
                                    }
                                }
                            }
                        } else if !has_value && num_children == 1 {
                            // an interior node with a single child is left:
                            // absorb it into that child, extending its edge
                            let node = self.nodes.swap_remove(idx);
                            let ghost s2 = self.nodes@;
                            let Node { key: node_key, trie: mut node_trie } = node;
                            let grandchild = node_trie.nodes.pop().unwrap();
                            let Node { key: grandchild_key, trie: grandchild_trie } = grandchild;
                            let merged = Node { key: node_key.concat(grandchild_key), trie: grandchild_trie };
                            self.nodes.push(merged);
                            proof {
                                let g = edge_at(c1.nodes@, 0);
                                let n = s1.nodes@.len() - 1;
                                assert(self.edge_of(n) == e + g);
                                assert(c1.nodes@[0].trie.inner_wf());
                                assert(self.nodes@.subrange(0, n) =~= s2);
                                assert((e + g)[0] == e[0]);
                                assert(self.edges_ok()) by {
                                    assert forall|j: int| 0 <= j < n implies #[trigger] self.edge_of(j) == s1.edge_of(if j == i { n } else { j }) by {
                                        assert(self.nodes@[j] == s2[j]);
                                    }
                                    assert forall|j1: int, j2: int| 0 <= j1 <= n && 0 <= j2 <= n && j1 != j2 implies #[trigger] self.edge_of(j1)[0] != #[trigger] self.edge_of(j2)[0] by {
                                        let m1 = if j1 == n { i as int } else if j1 == i { n } else { j1 };
                                        let m2 = if j2 == n { i as int } else if j2 == i { n } else { j2 };
                                        assert(s1.edge_of(m1)[0] != s1.edge_of(m2)[0]);
                                        assert(self.edge_of(j1)[0] == s1.edge_of(m1)[0]);
                                        assert(self.edge_of(j2)[0] == s1.edge_of(m2)[0]);
                                    }
                                    assert forall|j: int| 0 <= j <= n implies #[trigger] self.edge_of(j).len() > 0 by {
                                        if j < n {
                                            assert(self.nodes@[j] == s2[j]);
                                        }
                                    }
                                }
                                assert forall|x: Seq<Unit<P>>| #[trigger] self.lookup(x) == s1.lookup(x) by {
                                    if x.len() == 0 {
                                    } else if x[0] == e[0] {
                                        lemma_lookup_child(&s1, x, i as int);
                                        lemma_lookup_child(self, x, n);
                                        lemma_prefix_concat(e, g, x);
                                        if e.is_prefix_of(x) {
                                            let y = x.skip(e.len() as int);
                                            if y.len() > 0 {
                                                if y[0] == g[0] {
                                                    lemma_lookup_child(&c1, y, 0);
                                                } else {
                                                    lemma_lookup_none(&c1, y);
                                                    assert(!g.is_prefix_of(y));
                                                }
                                            } else {
                                                assert(!g.is_prefix_of(y));
                                            }
                                        }
                                    } else {
                                        lemma_lookup_swap_removed(&s1, self, i as int, x);
                                    }
                                }
                            }
                        }
                        proof {
                            assert(self.root_wf());
                        }
                        return RemoveResult::Done {
                            idx: this_idx,
                            num_children: self.nodes.len(),
                            has_value: self.value.is_some(),
                            removed_value,
                        };
                    },
                }
            }
            proof {
                assert(self.nodes@ =~= old(self).nodes@);
            }
            i = i + 1;
        }
        proof {
            lemma_lookup_none(self, k);
            lemma_node_at_none(self, k);
            lemma_same_shape_same_nodes(old(self), self);
        }
        RemoveResult::Skip
    }

    fn get_impl(&self, key: &P::Ref) -> (r: Option<&V>)
        requires
            self.root_wf(),
        ensures
            r.is_some() == self.lookup(key.ref_view()).is_some(),
            r.is_some() ==> *r.unwrap() == self.lookup(key.ref_view()).unwrap(),
        decreases key.ref_view().len(),
    {
        if key.is_empty() {
            return self.value.as_ref();
        }
        let ghost k = key.ref_view();
        let mut i: usize = 0;
        while i < self.nodes.len()
            invariant
                self.root_wf(),
                k == key.ref_view(),
                k.len() > 0,
                i <= self.nodes@.len(),
                forall|j: int| 0 <= j < i ==> #[trigger] self.edge_of(j)[0] != k[0],
            decreases self.nodes@.len() - i,
        {
            let node = &self.nodes[i];
            let (prefix, node_rest, key_rest) = P::Ref::prefix(node.key.as_key_ref(), key);
            let prefix_empty = prefix.is_empty();
            let node_rest_empty = node_rest.is_empty();
            proof {
                assert(self.edge_of(i as int).len() > 0);
                if !prefix_empty {
                    assert(prefix.ref_view()[0] == self.edge_of(i as int)[0]);
                    assert(prefix.ref_view()[0] == k[0]);
                }
            }
            if !prefix_empty {
                proof {
                    lemma_lookup_child(self, k, i as int);
                    if !node_rest_empty {
                        let e = self.edge_of(i as int);
                        if e.is_prefix_of(k) {
                            assert(k.subrange(0, e.len() as int) == e);
                            assert(e =~= prefix.ref_view() + node_rest.ref_view());
                            let n = prefix.ref_view().len() as int;
                            assert(e[n] == node_rest.ref_view()[0]);
                            assert(k.subrange(0, e.len() as int)[n] == k[n]);
                            assert(k[n] == node_rest.ref_view()[0]);
                            assert(k[prefix.ref_view().len() as int] == key_rest.ref_view()[0]);
                        }
                    } else {
                        assert(self.edge_of(i as int) =~= prefix.ref_view());
                        assert(self.edge_of(i as int).is_prefix_of(k));
                        assert(key_rest.ref_view() =~= k.skip(self.edge_of(i as int).len() as int));
                    }
                }
                if node_rest_empty {
                    return node.trie.get_impl(key_rest);
                }
                proof {
                    assert forall|j: int| 0 <= j < self.nodes@.len() implies #[trigger] self.edge_of(j)[0] != k[0] || j == i by {}
                }
                return None;
            }
            i = i + 1;
        }
        proof {
            lemma_lookup_none(self, k);
        }
        None
    }
}

/// The key that a path of edge fragments spells.
spec fn path_key<P: Key>(path: Seq<&P::Ref>) -> Seq<Unit<P>> {
    path.map_values(|f: &P::Ref| f.ref_view()).flatten()
}

/// An entry handed out by iteration, as a key and a value.
pub open spec fn entry_view<P: Key, V>(e: (P, &V)) -> (Seq<Unit<P>>, V) {
    (<P::Ref as KeyRef<P>>::owned_view(&e.0), *e.1)
}

/// The entries handed out by iteration, as keys and values.
pub open spec fn entries_view<P: Key, V>(s: Seq<(P, &V)>) -> Seq<(Seq<Unit<P>>, V)> {
    s.map_values(|e: (P, &V)| entry_view(e))
}

proof fn lemma_path_key_push<P: Key>(path: Seq<&P::Ref>, f: &P::Ref)
    ensures
        path_key::<P>(path.push(f)) == path_key::<P>(path) + f.ref_view(),
{
    let views = path.map_values(|f: &P::Ref| f.ref_view());
    assert(path.push(f).map_values(|f: &P::Ref| f.ref_view()) =~= views.push(f.ref_view()));
    views.lemma_flatten_push(f.ref_view());
}

impl<P: Key, V> RadixTrie<P, V> {
    /// Append the entries of `t` to `out`, in pre-order, where `path` holds
    /// the edges from the root to `t`.
    fn collect<'a>(t: &'a RadixTrie<P, V>, path: &mut Vec<&'a P::Ref>, out: &mut Vec<(P, &'a V)>)
        ensures
            final(path)@ == old(path)@,
            entries_view(final(out)@) == entries_view(old(out)@) + entries(t, path_key::<P>(old(path)@)),
        decreases t,
    {
        let ghost pk = path_key::<P>(path@);
        let ghost own: Seq<(Seq<Unit<P>>, V)> = if t.value.is_some() {
            seq![(pk, t.value.unwrap())]
        } else {
            Seq::empty()
        };
        match t.value.as_ref() {
            Some(v) => {
                let key = <P::Ref as KeyRef<P>>::concat(path);
                out.push((key, v));
            },
            None => {},
        }
        proof {
            assert(entries_view(out@) =~= entries_view(old(out)@) + own);
        }
        let mut j: usize = 0;
        while j < t.nodes.len()
            invariant
                path@ == old(path)@,
                pk == path_key::<P>(path@),
                j <= t.nodes@.len(),
                entries_view(out@) + entries_from(t, pk, j as int) == entries_view(old(out)@) + own
                    + entries_from(t, pk, 0),
            decreases t.nodes@.len() - j,
        {
            let node = &t.nodes[j];
            let edge = node.key.as_key_ref();
            path.push(edge);
            proof {
                lemma_path_key_push::<P>(old(path)@, edge);
            }
            let ghost before = entries_view(out@);
            Self::collect(&node.trie, path, out);
            path.pop();
            proof {
                assert(path@ =~= old(path)@);
                let e = edge_at(t.nodes@, j as int);
                assert(entries_from(t, pk, j as int) == entries(&t.nodes@[j as int].trie, pk + e)
                    + entries_from(t, pk, j + 1));
                assert(entries_view(out@) + entries_from(t, pk, j + 1) =~= before + entries_from(t, pk, j as int));
            }
            j = j + 1;
        }
        proof {
            assert(entries_from(t, pk, j as int) == Seq::<(Seq<Unit<P>>, V)>::empty());
            assert(entries_view(out@) =~= entries_view(out@) + entries_from(t, pk, j as int));
            assert(entries(t, pk) == own + entries_from(t, pk, 0));
            assert(entries_view(out@) =~= entries_view(old(out)@) + entries(t, pk));
        }
    }
}

/// `a` and `b` differ at most in the values they hold: the same edges, and
/// a value at the same places.
spec fn same_shape<P: Key, V>(a: &RadixTrie<P, V>, b: &RadixTrie<P, V>) -> bool
    decreases a,
{
    &&& a.value.is_some() == b.value.is_some()
    &&& a.nodes@.len() == b.nodes@.len()
    &&& forall|i: int| 0 <= i < a.nodes@.len() ==> (#[trigger] a.nodes@[i]).key == b.nodes@[i].key
    &&& forall|i: int|
        0 <= i < a.nodes@.len() ==> same_shape(&(#[trigger] a.nodes@[i]).trie, &b.nodes@[i].trie)
}

/// A subtree has the shape of any subtree with the same value presence and
/// the same children.
proof fn lemma_same_shape_same_nodes<P: Key, V>(a: &RadixTrie<P, V>, b: &RadixTrie<P, V>)
    requires
        a.value.is_some() == b.value.is_some(),
        a.nodes@ == b.nodes@,
    ensures
        same_shape(a, b),
    decreases a,
{
    assert forall|i: int| 0 <= i < a.nodes@.len() implies same_shape(&(#[trigger] a.nodes@[i]).trie, &b.nodes@[i].trie) by {
        lemma_same_shape_same_nodes(&a.nodes@[i].trie, &a.nodes@[i].trie);
    }
}

proof fn lemma_same_shape_wf<P: Key, V>(a: &RadixTrie<P, V>, b: &RadixTrie<P, V>, is_root: bool)
    requires
        same_shape(a, b),
        if is_root { a.root_wf() } else { a.inner_wf() },
    ensures
        if is_root { b.root_wf() } else { b.inner_wf() },
    decreases a,
{
    assert forall|i: int| 0 <= i < b.nodes@.len() implies #[trigger] edge_at(b.nodes@, i) == edge_at(a.nodes@, i) by {}
    assert forall|i: int| 0 <= i < b.nodes@.len() implies (#[trigger] b.nodes@[i]).trie.inner_wf() by {
        lemma_same_shape_wf(&a.nodes@[i].trie, &b.nodes@[i].trie, false);
    }
}

/// An entry handed out by mutable iteration, with the value it holds now.
pub open spec fn entry_now<P: Key, V>(e: (P, &mut V)) -> (Seq<Unit<P>>, V) {
    (<P::Ref as KeyRef<P>>::owned_view(&e.0), *e.1)
}

impl<P: Key, V> RadixTrie<P, V> {
    /// Append the entries of `t` to `out` with mutable references to their
    /// values, in pre-order, where `path` holds the edges from the root to
    /// `t`.
    fn collect_mut<'a>(t: &'a mut RadixTrie<P, V>, path: &mut Vec<&'a P::Ref>, out: &mut Vec<(P, &'a mut V)>)
        ensures
            final(path)@ == old(path)@,
            final(out)@.len() >= old(out)@.len(),
            final(out)@.subrange(0, old(out)@.len() as int) == old(out)@,
            final(out)@.skip(old(out)@.len() as int).map_values(|e: (P, &'a mut V)| entry_now(e))
                == entries(old(t), path_key::<P>(old(path)@)),
            entries(final(t), path_key::<P>(old(path)@)).len() == final(out)@.len() - old(out)@.len(),
            forall|i: int|
                old(out)@.len() <= i < final(out)@.len() ==> *final(#[trigger] final(out)@[i].1)
                    == entries(final(t), path_key::<P>(old(path)@))[i - old(out)@.len()].1,
            forall|i: int|
                old(out)@.len() <= i < final(out)@.len() ==> <P::Ref as KeyRef<P>>::owned_view(
                    &(#[trigger] final(out)@[i]).0,
                ) == entries(final(t), path_key::<P>(old(path)@))[i - old(out)@.len()].0,
            same_shape(old(t), final(t)),
        decreases *old(t),
    {
        let ghost t0 = *t;
        let ghost t1 = *final(t);
        proof {
            assert(t0 == *old(t));
        }
        let ghost pk = path_key::<P>(path@);
        let ghost start = out@.len();
        let ghost own0: Seq<(Seq<Unit<P>>, V)> = if t0.value.is_some() {
            seq![(pk, t0.value.unwrap())]
        } else {
            Seq::empty()
        };
        let ghost own1: Seq<(Seq<Unit<P>>, V)> = if t1.value.is_some() {
            seq![(pk, t1.value.unwrap())]
        } else {
            Seq::empty()
        };
        let RadixTrie { value, nodes } = t;
        match value.as_mut() {
            Some(v) => {
                let key = <P::Ref as KeyRef<P>>::concat(path);
                out.push((key, v));
            },
            None => {},
        }
        let mut rest: &'a mut [Node<P, V>] = nodes.as_mut_slice();
        let ghost n = rest@.len();
        let ghost whole = own1 + entries_from(&t1, pk, 0);
        let ghost mut count: int = 0;
        proof {
            assert(t1.nodes@ == final(rest)@);
            assert(out@.skip(start as int).map_values(|e: (P, &'a mut V)| entry_now(e)) =~= own0);
            assert(out@.subrange(0, start as int) =~= old(out)@);
            assert(whole.skip(out@.len() - start) =~= entries_from(&t1, pk, 0));
        }
        while rest.len() > 0
            invariant
                t0 == *old(t),
                path@ == old(path)@,
                pk == path_key::<P>(path@),
                n == t0.nodes@.len(),
                0 <= count <= n,
                rest@ == t0.nodes@.subrange(count, n as int),
                t1.nodes@.len() == count + final(rest)@.len(),
                forall|j: int| count <= j < t1.nodes@.len() ==> t1.nodes@[j] == (#[trigger] final(rest)@[j - count]),
                forall|j: int| 0 <= j < count ==> (#[trigger] t1.nodes@[j]).key == t0.nodes@[j].key && same_shape(&t0.nodes@[j].trie, &t1.nodes@[j].trie),
                out@.len() >= start,
                out@.subrange(0, start as int) == old(out)@,
                out@.skip(start as int).map_values(|e: (P, &'a mut V)| entry_now(e)) + entries_from(&t0, pk, count)
                    == own0 + entries_from(&t0, pk, 0),
                out@.len() - start <= whole.len(),
                whole.skip(out@.len() - start) == entries_from(&t1, pk, count),
                forall|i: int| start <= i < out@.len() ==> *final(#[trigger] out@[i].1) == whole[i - start].1,
                forall|i: int| start <= i < out@.len() ==> <P::Ref as KeyRef<P>>::owned_view(&(#[trigger] out@[i]).0) == whole[i - start].0,
            decreases rest@.len(),
        {
            let ghost k: int = count;
            let ghost before_now = out@.skip(start as int).map_values(|e: (P, &'a mut V)| entry_now(e));
            let ghost before_len = out@.len();
            let ghost before_out = out@;
            let ghost rest_final = final(rest)@;
            proof {
                assert(t1.nodes@.len() == count + rest_final.len());
                assert(rest_final.len() > 0 ==> t1.nodes@[count] == rest_final[count - count]);
            }
            let (head, tail) = rest.split_at_mut(1);
            let ghost tail_final = final(tail)@;
            let ghost head_final = final(head)@;
            let node = head.first_mut().unwrap();
            proof {
                assert(rest_final == head_final + tail_final);
                assert(head_final.len() == 1);
                assert(t1.nodes@[k] == rest_final[0]);
            }
            let ghost node_final = *final(node);
            let Node { key, trie } = node;
            let ghost trie_final = *final(trie);
            let key: &'a P = key;
            let edge = key.as_key_ref();
            path.push(edge);
            proof {
                lemma_path_key_push::<P>(old(path)@, edge);
                assert(*trie == t0.nodes@[k].trie);
                vstd::std_specs::vec::axiom_vec_index_decreases(t0.nodes, k);
                assert(decreases_to!(t0 => t0.nodes@[k].trie));
                assert(decreases_to!(t0 => *trie));
            }
            Self::collect_mut(trie, path, out);
            path.pop();
            proof {
                assert(path@ =~= old(path)@);
                count = count + 1;
                assert(tail@ =~= t0.nodes@.subrange(count, n as int));
                assert(head_final.len() == 1);
                assert(head_final[0] == node_final);
                assert(node_final.trie == trie_final);
                assert(t1.nodes@[k] == node_final);
                assert(t1.nodes@[k].trie == trie_final);
                let e = edge_at(t0.nodes@, k);
                assert(entries_from(&t0, pk, k) == entries(&t0.nodes@[k].trie, pk + e)
                    + entries_from(&t0, pk, k + 1));
                assert(entries_from(&t1, pk, k) == entries(&t1.nodes@[k].trie, pk + e)
                    + entries_from(&t1, pk, k + 1));
                assert(out@.skip(start as int).map_values(|e: (P, &'a mut V)| entry_now(e)) =~= before_now
                    + out@.skip(before_len as int).map_values(|e: (P, &'a mut V)| entry_now(e)));
                assert(edge.ref_view() == e);
                assert(trie_final == t1.nodes@[k].trie);
                let child_entries = entries(&t1.nodes@[k].trie, pk + e);
                assert(out@.len() - before_len == child_entries.len());
                assert(whole.skip(before_len - start) == child_entries + entries_from(&t1, pk, count));
                let a = before_len - start;
                let b = child_entries.len() as int;
                assert(whole.skip(a + b) =~= whole.skip(a).skip(b));
                assert((child_entries + entries_from(&t1, pk, count)).skip(b) =~= entries_from(&t1, pk, count));
                assert(whole.skip(out@.len() - start) =~= entries_from(&t1, pk, count));
                assert forall|i: int| start <= i < out@.len() implies <P::Ref as KeyRef<P>>::owned_view(&(#[trigger] out@[i]).0) == whole[i - start].0 by {
                    if i < before_len {
                        assert(out@.subrange(0, before_len as int)[i] == out@[i]);
                        assert(out@[i] == before_out[i]);
                    } else {
                        assert(whole.skip(a)[i - before_len] == whole[i - start]);
                        assert((child_entries + entries_from(&t1, pk, count))[i - before_len] == child_entries[i - before_len]);
                    }
                }
                assert forall|i: int| start <= i < out@.len() implies *final(#[trigger] out@[i].1) == whole[i - start].1 by {
                    if i < before_len {
                        assert(out@.subrange(0, before_len as int)[i] == out@[i]);
                        assert(out@[i] == before_out[i]);
                    } else {
                        assert(whole.skip(a)[i - before_len] == whole[i - start]);
                        assert((child_entries + entries_from(&t1, pk, count))[i - before_len] == child_entries[i - before_len]);
                    }
                }
                assert forall|j: int| count <= j < t1.nodes@.len() implies t1.nodes@[j] == #[trigger] tail_final[j - count] by {
                    assert(t1.nodes@[j] == rest_final[j - k]);
                }
            }
            rest = tail;
        }
        proof {
            assert(count == n);
            assert(final(rest)@.len() == 0);
        }
    }
}

impl<P: Key, V> View for RadixTrie<P, V> {
    type V = Map<Seq<Unit<P>>, V>;

    /// The keys stored in the trie, each with its value.
    closed spec fn view(&self) -> Map<Seq<Unit<P>>, V> {
        Map::new(|k: Seq<Unit<P>>| self.lookup(k).is_some(), |k: Seq<Unit<P>>| self.lookup(k).unwrap())
    }
}

/// Every entry of the trie is stored in its view.
proof fn lemma_entries_in_view<P: Key, V>(t: &RadixTrie<P, V>)
    requires
        t.root_wf(),
    ensures
        forall|a: int|
            0 <= a < entries(t, Seq::empty()).len() ==> #[trigger] t@.contains_key(
                entries(t, Seq::empty())[a].0,
            ) && t@[entries(t, Seq::empty())[a].0] == entries(t, Seq::empty())[a].1,
{
    let es = entries(t, Seq::empty());
    lemma_entries(t, Seq::empty());
    assert forall|a: int| 0 <= a < es.len() implies #[trigger] t@.contains_key(es[a].0) && t@[es[a].0] == es[a].1 by {
        assert(es[a].0.skip(0) =~= es[a].0);
        assert(t.lookup(es[a].0) == Some(es[a].1));
    }
}

impl<P: Key, V> RadixTrie<P, V> {
    /// The trie's structural invariants hold: no two children of any node
    /// share a nonempty common prefix, and every node below the root without
    /// children holds a value.
    pub closed spec fn well_formed(&self) -> bool {
        self.root_wf()
    }

    /// The entries of the trie in pre-order, each key preceded by `prefix`:
    /// a node's own value first, then the entries below each child, the
    /// children taken in the order in which they are stored.
    pub closed spec fn preorder(&self, prefix: Seq<Unit<P>>) -> Seq<(Seq<Unit<P>>, V)> {
        entries(self, prefix)
    }

    /// `self` and `other` differ at most in the values they hold: the same
    /// edges in the same order, and a value at the same places.
    pub closed spec fn same_shape_as(&self, other: &RadixTrie<P, V>) -> bool {
        same_shape(self, other)
    }

    /// What `check_invariants` checks: no two children of any node share a
    /// nonempty common prefix, and every node below the root without
    /// children holds a value.
    pub closed spec fn invariants_hold(&self) -> bool {
        prefix_free(self) && leaves_valued(self, true)
    }

    /// Create an empty trie.
    pub fn new() -> (r: RadixTrie<P, V>)
        ensures
            r.well_formed(),
            r@ == Map::<Seq<Unit<P>>, V>::empty(),
            r.preorder(Seq::empty()) == Seq::<(Seq<Unit<P>>, V)>::empty(),
    {
        let r = Self::with_value_and_capacity(None, 0);
        proof {
            assert(entries_from(&r, Seq::empty(), 0) == Seq::<(Seq<Unit<P>>, V)>::empty());
            assert(entries(&r, Seq::empty()) =~= Seq::<(Seq<Unit<P>>, V)>::empty());
            assert forall|k: Seq<Unit<P>>| #[trigger] r.lookup(k).is_none() by {
                lemma_lookup_leaf(&r, k);
            }
            assert(r@ =~= Map::<Seq<Unit<P>>, V>::empty());
        }
        r
    }

    /// The value stored under `key`, or `None` if there is none.
    pub fn get(&self, key: &P::Ref) -> (r: Option<&V>)
        requires
            self.well_formed(),
        ensures
            r.is_some() == self@.contains_key(key.ref_view()),
            r.is_some() ==> *r.unwrap() == self@[key.ref_view()],
    {
        self.get_impl(key)
    }

    /// The entries of the trie as `(key, &value)` pairs: each key stored in
    /// the trie comes exactly once, with its value. They come in pre-order:
    /// a node's own value before those below it, and the children in the
    /// order in which they are stored.
    #[verifier::spinoff_prover]
    pub fn iter(&self) -> (r: Vec<(P, &V)>)
        requires
            self.well_formed(),
        ensures
            forall|a: int|
                0 <= a < r@.len() ==> #[trigger] self@.contains_key(
                    <P::Ref as KeyRef<P>>::owned_view(&r@[a].0),
                ) && self@[<P::Ref as KeyRef<P>>::owned_view(&r@[a].0)] == *r@[a].1,
            forall|a: int, b: int|
                0 <= a < b < r@.len() ==> <P::Ref as KeyRef<P>>::owned_view(&(#[trigger] r@[a]).0)
                    != <P::Ref as KeyRef<P>>::owned_view(&(#[trigger] r@[b]).0),
            forall|k: Seq<Unit<P>>|
                #[trigger] self@.contains_key(k) ==> exists|a: int|
                    0 <= a < r@.len() && <P::Ref as KeyRef<P>>::owned_view(&r@[a].0) == k,
            forall|a: int, b: int|
                0 <= a < b < r@.len() ==> !<P::Ref as KeyRef<P>>::owned_view(&(#[trigger] r@[b]).0).is_prefix_of(
                    <P::Ref as KeyRef<P>>::owned_view(&(#[trigger] r@[a]).0),
                ),
            entries_view(r@) == self.preorder(Seq::empty()),
    {
        let mut path: Vec<&P::Ref> = Vec::new();
        let mut out: Vec<(P, &V)> = Vec::new();
        Self::collect(self, &mut path, &mut out);
        proof {
            let root = path_key::<P>(Seq::empty());
            assert(Seq::<&P::Ref>::empty().map_values(|f: &P::Ref| f.ref_view()) =~= Seq::empty());
            assert(root =~= Seq::empty());
            lemma_entries(self, root);
            lemma_entries_order(self, root);
            lemma_entries_in_view(self);
            let es = entries(self, root);
            assert(entries_view(out@) =~= es);
            assert forall|a: int| 0 <= a < out@.len() implies #[trigger] self@.contains_key(
                <P::Ref as KeyRef<P>>::owned_view(&out@[a].0),
            ) && self@[<P::Ref as KeyRef<P>>::owned_view(&out@[a].0)] == *out@[a].1 by {
                assert(es[a] == entry_view(out@[a]));
                assert(self@.contains_key(es[a].0));
            }
            assert forall|a: int, b: int| 0 <= a < b < out@.len() implies <P::Ref as KeyRef<P>>::owned_view(&(#[trigger] out@[a]).0)
                != <P::Ref as KeyRef<P>>::owned_view(&(#[trigger] out@[b]).0) by {
                assert(es[a] == entry_view(out@[a]));
                assert(es[b] == entry_view(out@[b]));
                assert(es[a].0 != es[b].0);
            }
            assert forall|a: int, b: int| 0 <= a < b < out@.len() implies !<P::Ref as KeyRef<P>>::owned_view(&(#[trigger] out@[b]).0).is_prefix_of(
                <P::Ref as KeyRef<P>>::owned_view(&(#[trigger] out@[a]).0),
            ) by {
                assert(es[a] == entry_view(out@[a]));
                assert(es[b] == entry_view(out@[b]));
                assert(!es[b].0.is_prefix_of(es[a].0));
            }
            assert forall|k: Seq<Unit<P>>| #[trigger] self@.contains_key(k) implies exists|a: int|
                0 <= a < out@.len() && <P::Ref as KeyRef<P>>::owned_view(&out@[a].0) == k by {
                assert(self.lookup(k).is_some());
                let a = choose|a: int| 0 <= a < es.len() && es[a] == (root + k, self.lookup(k).unwrap());
                assert(root + k =~= k);
                assert(es[a] == entry_view(out@[a]));
            }
        }
        out
    }

    /// Check at run time the structural invariants of the trie: no two
    /// children of any node share a nonempty common prefix, and every node
    /// below the root without children holds a value. Every trie that the
    /// operations build is well formed, so the check always succeeds.
    pub fn check_invariants(&self) -> (r: bool)
        requires
            self.well_formed(),
        ensures
            r,
            self.invariants_hold(),
    {
        proof {
            lemma_wf_checks(self, true);
        }
        self.check_key_prefix_invariant() && self.check_leaf_node_some_invariant(true)
    }

    /// No two children of any node share a nonempty common prefix.
    fn check_key_prefix_invariant(&self) -> (r: bool)
        requires
            prefix_free(self),
        ensures
            r,
        decreases self,
    {
        let n = self.nodes.len();
        let mut i: usize = 0;
        while i < n
            invariant
                prefix_free(self),
                n == self.nodes@.len(),
                i <= n,
                forall|a: int, b: int|
                    0 <= a < i && 0 <= b < n && a != b ==> {
                        let x = #[trigger] edge_at(self.nodes@, a);
                        let y = #[trigger] edge_at(self.nodes@, b);
                        x.len() == 0 || y.len() == 0 || x[0] != y[0]
                    },
            decreases n - i,
        {
            let mut j: usize = 0;
            while j < n
                invariant
                    prefix_free(self),
                prefix_free(self),
                    n == self.nodes@.len(),
                    i < n,
                    j <= n,
                    forall|a: int, b: int|
                        0 <= a < i && 0 <= b < n && a != b ==> {
                            let x = #[trigger] edge_at(self.nodes@, a);
                            let y = #[trigger] edge_at(self.nodes@, b);
                            x.len() == 0 || y.len() == 0 || x[0] != y[0]
                        },
                    forall|b: int|
                        0 <= b < j && b != i ==> {
                            let x = edge_at(self.nodes@, i as int);
                            let y = #[trigger] edge_at(self.nodes@, b);
                            x.len() == 0 || y.len() == 0 || x[0] != y[0]
                        },
                decreases n - j,
            {
                if i != j {
                    let (prefix, a_rest, b_rest) = P::Ref::prefix(
                        self.nodes[i].key.as_key_ref(),
                        self.nodes[j].key.as_key_ref(),
                    );
                    let shared = !prefix.is_empty();
                    proof {
                        let x = edge_at(self.nodes@, i as int);
                        let y = edge_at(self.nodes@, j as int);
                        if shared {
                            assert(x[0] == prefix.ref_view()[0]);
                            assert(y[0] == prefix.ref_view()[0]);
                        } else {
                            assert(x =~= a_rest.ref_view());
                            assert(y =~= b_rest.ref_view());
                        }
                    }
                    if shared {
                        return false;
                    }
                }
                j = j + 1;
            }
            i = i + 1;
        }
        let mut k: usize = 0;
        while k < n
            invariant
                prefix_free(self),
                n == self.nodes@.len(),
                k <= n,
                forall|a: int| 0 <= a < k ==> prefix_free(&(#[trigger] self.nodes@[a]).trie),
            decreases n - k,
        {
            if !self.nodes[k].trie.check_key_prefix_invariant() {
                return false;
            }
            k = k + 1;
        }
        true
    }

    /// Every node without children holds a value, the root excepted when
    /// `is_root`.
    fn check_leaf_node_some_invariant(&self, is_root: bool) -> (r: bool)
        requires
            leaves_valued(self, is_root),
        ensures
            r,
        decreases self,
    {
        if !is_root && self.nodes.len() == 0 && self.value.is_none() {
            return false;
        }
        let mut k: usize = 0;
        while k < self.nodes.len()
            invariant
                leaves_valued(self, is_root),
                k <= self.nodes@.len(),
                forall|a: int| 0 <= a < k ==> leaves_valued(&(#[trigger] self.nodes@[a]).trie, false),
            decreases self.nodes@.len() - k,
        {
            if !self.nodes[k].trie.check_leaf_node_some_invariant(false) {
                return false;
            }
            k = k + 1;
        }
        true
    }

    /// The entries of the trie as `(key, &mut value)` pairs, as `iter` hands
    /// them out. The values can be changed through the references; the keys
    /// and the shape of the trie stay as they are.
    pub fn iter_mut(&mut self) -> (r: Vec<(P, &mut V)>)
        requires
            old(self).well_formed(),
        ensures
            final(self).well_formed(),
            final(self)@.dom() == old(self)@.dom(),
            forall|a: int|
                0 <= a < r@.len() ==> #[trigger] old(self)@.contains_key(
                    <P::Ref as KeyRef<P>>::owned_view(&r@[a].0),
                ) && old(self)@[<P::Ref as KeyRef<P>>::owned_view(&r@[a].0)] == *r@[a].1
                    && final(self)@[<P::Ref as KeyRef<P>>::owned_view(&r@[a].0)] == *final(r@[a].1),
            forall|a: int, b: int|
                0 <= a < b < r@.len() ==> <P::Ref as KeyRef<P>>::owned_view(&(#[trigger] r@[a]).0)
                    != <P::Ref as KeyRef<P>>::owned_view(&(#[trigger] r@[b]).0),
            forall|k: Seq<Unit<P>>|
                #[trigger] old(self)@.contains_key(k) ==> exists|a: int|
                    0 <= a < r@.len() && <P::Ref as KeyRef<P>>::owned_view(&r@[a].0) == k,
            r@.map_values(|e: (P, &mut V)| entry_now(e)) == old(self).preorder(Seq::empty()),
            old(self).same_shape_as(&*final(self)),
            final(self).preorder(Seq::empty()).len() == r@.len(),
            forall|a: int|
                0 <= a < r@.len() ==> #[trigger] final(self).preorder(Seq::empty())[a] == (
                    <P::Ref as KeyRef<P>>::owned_view(&r@[a].0),
                    *final(r@[a].1),
                ),
    {
        let ghost before = *self;
        let ghost after = *final(self);
        let mut path: Vec<&P::Ref> = Vec::new();
        let mut out: Vec<(P, &mut V)> = Vec::new();
        Self::collect_mut(self, &mut path, &mut out);
        proof {
            let root = path_key::<P>(Seq::empty());
            assert(Seq::<&P::Ref>::empty().map_values(|f: &P::Ref| f.ref_view()) =~= Seq::empty());
            assert(root =~= Seq::empty());
            lemma_same_shape_wf(&before, &after, true);
            lemma_entries(&before, root);
            lemma_entries(&after, root);
            let es = entries(&before, root);
            let fs = entries(&after, root);
            assert(out@.skip(0) =~= out@);
            assert(out@.map_values(|e: (P, &mut V)| entry_now(e)) == es);
            assert forall|a: int| 0 <= a < out@.len() implies #[trigger] before@.contains_key(
                <P::Ref as KeyRef<P>>::owned_view(&out@[a].0),
            ) && before@[<P::Ref as KeyRef<P>>::owned_view(&out@[a].0)] == *out@[a].1
                && after@[<P::Ref as KeyRef<P>>::owned_view(&out@[a].0)] == *final(out@[a].1) by {
                assert(es[a] == entry_now(out@[a]));
                assert(es[a].0.skip(0) =~= es[a].0);
                assert(fs[a].0.skip(0) =~= fs[a].0);
            }
            assert forall|a: int, b: int| 0 <= a < b < out@.len() implies <P::Ref as KeyRef<P>>::owned_view(&(#[trigger] out@[a]).0)
                != <P::Ref as KeyRef<P>>::owned_view(&(#[trigger] out@[b]).0) by {
                assert(es[a] == entry_now(out@[a]));
                assert(es[b] == entry_now(out@[b]));
                assert(es[a].0 != es[b].0);
            }
            assert forall|k: Seq<Unit<P>>| #[trigger] before@.contains_key(k) implies exists|a: int|
                0 <= a < out@.len() && <P::Ref as KeyRef<P>>::owned_view(&out@[a].0) == k by {
                assert(before.lookup(k).is_some());
                let a = choose|a: int| 0 <= a < es.len() && es[a] == (root + k, before.lookup(k).unwrap());
                assert(root + k =~= k);
                assert(es[a] == entry_now(out@[a]));
            }
            assert forall|k: Seq<Unit<P>>| #[trigger] after@.contains_key(k) == before@.contains_key(k) by {
                if before@.contains_key(k) {
                    assert(before.lookup(k).is_some());
                    let a = choose|a: int| 0 <= a < es.len() && es[a] == (root + k, before.lookup(k).unwrap());
                    assert(root + k =~= k);
                    assert(es[a] == entry_now(out@[a]));
                    assert(fs[a].0.skip(0) =~= fs[a].0);
                }
                if after@.contains_key(k) {
                    assert(after.lookup(k).is_some());
                    let a = choose|a: int| 0 <= a < fs.len() && fs[a] == (root + k, after.lookup(k).unwrap());
                    assert(root + k =~= k);
                    assert(es[a] == entry_now(out@[a]));
                    assert(es[a].0.skip(0) =~= es[a].0);
                }
            }
            assert(after@.dom() =~= before@.dom());
        }
        out
    }

    /// Store `value` under `key`. Returns the value that was stored under
    /// `key` before, or `None` if there was none. In the pre-order of the
    /// entries, an existing entry of `key` is updated in place; a new one
    /// comes before the entries whose keys extend `key`, or else right after
    /// the last of the entries that agree longest with `key` (a new child is
    /// appended after its siblings).
    pub fn insert(&mut self, key: P, value: V) -> (r: Option<V>)
        requires
            old(self).well_formed(),
        ensures
            final(self).well_formed(),
            final(self)@ == old(self)@.insert(<P::Ref as KeyRef<P>>::owned_view(&key), value),
            r == old(self)@.get(<P::Ref as KeyRef<P>>::owned_view(&key)),
            placed(
                old(self).preorder(Seq::empty()),
                <P::Ref as KeyRef<P>>::owned_view(&key),
                value,
                final(self).preorder(Seq::empty()),
            ),
    {
        let r = self.insert_impl(key.as_key_ref(), value);
        proof {
            let k = <P::Ref as KeyRef<P>>::owned_view(&key);
            assert(Seq::<Unit<P>>::empty() + k =~= k);
            assert(placed(entries(old(self), Seq::empty()), Seq::empty() + k, value, entries(self, Seq::empty())));
            assert(self@ =~= old(self)@.insert(k, value));
        }
        r
    }

    /// Remove the value stored under `key` and return it, or `None` if there
    /// was none.
    pub fn remove(&mut self, key: &P::Ref) -> (r: Option<V>)
        requires
            old(self).well_formed(),
        ensures
            final(self).well_formed(),
            final(self)@ == old(self)@.remove(key.ref_view()),
            r == old(self)@.get(key.ref_view()),
            !old(self)@.contains_key(key.ref_view()) ==> *final(self) == *old(self),
    {
        if self.get_impl(key).is_none() {
            // nothing is stored under the key: the trie is left exactly as it is
            proof {
                assert(self@ =~= old(self)@.remove(key.ref_view()));
            }
            return None;
        }
        let result = self.remove_impl(0, key);
        proof {
            assert(self@ =~= old(self)@.remove(key.ref_view()));
        }
        match result {
            RemoveResult::Skip => None,
            // the root itself is never dropped, even when it is left
            // without a value and without children
            RemoveResult::Done { removed_value, .. } => removed_value,
        }
    }
}

impl<P: Key, V> Default for RadixTrie<P, V> {
    fn default() -> (r: RadixTrie<P, V>)
        ensures
            r.well_formed(),
            r@ == Map::<Seq<Unit<P>>, V>::empty(),
            r.preorder(Seq::empty()) == Seq::<(Seq<Unit<P>>, V)>::empty(),
    {
        Self::new()
    }
}

/// Storing a value under a key and then looking the key up gives that value
/// back.
pub proof fn lemma_insert_then_get<P: Key, V>(
    before: &RadixTrie<P, V>,
    after: &RadixTrie<P, V>,
    key: Seq<Unit<P>>,
    value: V,
)
    requires
        after@ == before@.insert(key, value),
    ensures
        after@.contains_key(key),
        after@[key] == value,
{
}

/// Removing a key right after storing a value under it hands that value
/// back, and the key is absent afterwards.
pub proof fn lemma_insert_then_remove<P: Key, V>(
    before: &RadixTrie<P, V>,
    inserted: &RadixTrie<P, V>,
    after: &RadixTrie<P, V>,
    key: Seq<Unit<P>>,
    value: V,
    removed: Option<V>,
)
    requires
        inserted@ == before@.insert(key, value),
        after@ == inserted@.remove(key),
        removed == inserted@.get(key),
    ensures
        removed == Some(value),
        !after@.contains_key(key),
{
}

/// Removing a key that is absent hands back nothing and leaves the stored
/// entries as they were.
pub proof fn lemma_remove_absent<P: Key, V>(
    before: &RadixTrie<P, V>,
    after: &RadixTrie<P, V>,
    key: Seq<Unit<P>>,
    removed: Option<V>,
)
    requires
        !before@.contains_key(key),
        after@ == before@.remove(key),
        removed == before@.get(key),
    ensures
        removed.is_none(),
        after@ == before@,
{
    assert(after@ =~= before@);
}

/// A well-formed trie, which every operation leaves behind, has no two
/// children of one node sharing a nonempty common prefix, and no node below
/// the root without children and without a value.
pub proof fn lemma_well_formed_invariants<P: Key, V>(t: &RadixTrie<P, V>)
    requires
        t.well_formed(),
    ensures
        t.invariants_hold(),
{
    lemma_wf_checks(t, true);
}

/// An operation on a map: store a value under a key, look a key up, or
/// remove a key.
pub enum MapOp<K, V> {
    Insert(K, V),
    Get(K),
    Remove(K),
}

/// The map that `op` leaves when applied to `m`.
pub open spec fn apply_op<K, V>(m: Map<K, V>, op: MapOp<K, V>) -> Map<K, V> {
    match op {
        MapOp::Insert(k, v) => m.insert(k, v),
        MapOp::Get(_) => m,
        MapOp::Remove(k) => m.remove(k),
    }
}

/// What `op` hands back when applied to `m`: the value under its key before.
pub open spec fn op_result<K, V>(m: Map<K, V>, op: MapOp<K, V>) -> Option<V> {
    match op {
        MapOp::Insert(k, _) => m.get(k),
        MapOp::Get(k) => m.get(k),
        MapOp::Remove(k) => m.get(k),
    }
}

/// The map that `ops` leave when applied in order to `m`.
pub open spec fn apply_ops<K, V>(m: Map<K, V>, ops: Seq<MapOp<K, V>>) -> Map<K, V>
    decreases ops.len(),
{
    if ops.len() == 0 {
        m
    } else {
        apply_op(apply_ops(m, ops.drop_last()), ops.last())
    }
}

/// A call of `insert`, `get` or `remove`, as `op` names it, took `before` to
/// `after` and handed back `result`, as the call's contract states.
pub open spec fn trie_step<P: Key, V>(
    before: RadixTrie<P, V>,
    op: MapOp<Seq<Unit<P>>, V>,
    result: Option<V>,
    after: RadixTrie<P, V>,
) -> bool {
    match op {
        MapOp::Insert(k, v) => after@ == before@.insert(k, v) && result == before@.get(k),
        MapOp::Get(k) => after == before && result == before@.get(k),
        MapOp::Remove(k) => after@ == before@.remove(k) && result == before@.get(k),
    }
}

/// Running any sequence of operations on a trie gives, at every step, the
/// result that a map gives for the same sequence, and leaves the same
/// entries.
pub proof fn lemma_operations_match_map<P: Key, V>(
    states: Seq<RadixTrie<P, V>>,
    ops: Seq<MapOp<Seq<Unit<P>>, V>>,
    results: Seq<Option<V>>,
)
    requires
        states.len() == ops.len() + 1,
        results.len() == ops.len(),
        forall|i: int|
            0 <= i < ops.len() ==> trie_step(states[i], #[trigger] ops[i], results[i], states[i + 1]),
    ensures
        states.last()@ == apply_ops(states[0]@, ops),
        forall|i: int|
            0 <= i < ops.len() ==> #[trigger] results[i] == op_result(
                apply_ops(states[0]@, ops.take(i)),
                ops[i],
            ),
    decreases ops.len(),
{
    if ops.len() > 0 {
        let n = ops.len() - 1;
        lemma_operations_match_map(states.drop_last(), ops.drop_last(), results.drop_last());
        assert(ops.drop_last() =~= ops.take(n));
        assert forall|i: int| 0 <= i < ops.len() implies #[trigger] results[i] == op_result(
            apply_ops(states[0]@, ops.take(i)),
            ops[i],
        ) by {
            if i < n {
                assert(ops.drop_last().take(i) =~= ops.take(i));
                assert(results.drop_last()[i] == results[i]);
                assert(ops.drop_last()[i] == ops[i]);
            }
            assert(trie_step(states[i], ops[i], results[i], states[i + 1]));
        }
        assert(trie_step(states[n], ops[n], results[n], states[n + 1]));
        assert(states.drop_last().last() == states[n]);
    }
}

/// The key that `op` names.
pub open spec fn op_key<K, V>(op: MapOp<K, V>) -> K {
    match op {
        MapOp::Insert(k, _) => k,
        MapOp::Get(k) => k,
        MapOp::Remove(k) => k,
    }
}

proof fn lemma_value_kept<P: Key, V>(
    states: Seq<RadixTrie<P, V>>,
    ops: Seq<MapOp<Seq<Unit<P>>, V>>,
    results: Seq<Option<V>>,
    from: int,
    to: int,
    key: Seq<Unit<P>>,
    value: V,
)
    requires
        states.len() == ops.len() + 1,
        results.len() == ops.len(),
        forall|i: int|
            0 <= i < ops.len() ==> trie_step(states[i], #[trigger] ops[i], results[i], states[i + 1]),
        0 <= from <= to <= ops.len(),
        states[from]@.contains_key(key) && states[from]@[key] == value,
        forall|i: int| from <= i < to ==> op_key(#[trigger] ops[i]) != key,
    ensures
        states[to]@.contains_key(key) && states[to]@[key] == value,
    decreases to - from,
{
    if from < to {
        assert(trie_step(states[from], ops[from], results[from], states[from + 1]));
        assert(op_key(ops[from]) != key);
        lemma_value_kept(states, ops, results, from + 1, to, key, value);
    }
}

/// Removing a key hands back the value stored by the last insertion under
/// that key, whatever operations on other keys came in between, and leaves
/// the key absent.
pub proof fn lemma_remove_returns_latest<P: Key, V>(
    states: Seq<RadixTrie<P, V>>,
    ops: Seq<MapOp<Seq<Unit<P>>, V>>,
    results: Seq<Option<V>>,
    inserted_at: int,
    key: Seq<Unit<P>>,
    value: V,
)
    requires
        states.len() == ops.len() + 1,
        results.len() == ops.len(),
        forall|i: int|
            0 <= i < ops.len() ==> trie_step(states[i], #[trigger] ops[i], results[i], states[i + 1]),
        0 <= inserted_at < ops.len() - 1,
        ops[inserted_at] == MapOp::<Seq<Unit<P>>, V>::Insert(key, value),
        forall|i: int| inserted_at < i < ops.len() - 1 ==> op_key(#[trigger] ops[i]) != key,
        ops.last() == MapOp::<Seq<Unit<P>>, V>::Remove(key),
    ensures
        results.last() == Some(value),
        !states.last()@.contains_key(key),
{
    let n = ops.len() - 1;
    assert(trie_step(states[inserted_at], ops[inserted_at], results[inserted_at], states[inserted_at + 1]));
    lemma_value_kept(states, ops, results, inserted_at + 1, n, key, value);
    assert(trie_step(states[n], ops[n], results[n], states[n + 1]));
}

} // verus!
