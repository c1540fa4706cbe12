//! The tree of topics in which the broker records which clients subscribed
//! to which topic. A topic is a path of segments (`sensors/temps/kitchen`);
//! every node of the tree stands for one path and holds the clients
//! subscribed to exactly that path.
use std::hash::Hash;
use vstd::laws_eq::obeys_concrete_eq;
use vstd::prelude::*;

verus! {

/// A node of the tree: its own segment name, its children (with pairwise
/// different names) and the clients subscribed at this node (each once).
struct TreeNode<T> where T: PartialEq + Eq + Hash {
    children: Vec<TreeNode<T>>,
    name: String,
    clients: Vec<T>,
}

/// The subscriptions of all clients, and how many (path, client) pairs they
/// number.
pub struct TopicTree<T> where T: PartialEq + Eq + Hash {
    root: TreeNode<T>,
    size: usize,
}

/// The characters of each segment of a path.
pub open spec fn path_view(path: Seq<String>) -> Seq<Seq<char>> {
    path.map_values(|s: String| s@)
}

/// `q` is a prefix of `p` (possibly `p` itself).
pub open spec fn is_prefix(q: Seq<Seq<char>>, p: Seq<Seq<char>>) -> bool {
    q.len() <= p.len() && q == p.subrange(0, q.len() as int)
}

/// Some path of `m` lies strictly below `p`.
pub open spec fn has_descendant<T>(m: Map<Seq<Seq<char>>, Set<T>>, p: Seq<Seq<char>>) -> bool {
    exists|q: Seq<Seq<char>>| #[trigger] m.contains_key(q) && p.len() < q.len() && is_prefix(p, q)
}

/// The subscriptions after `c` subscribes to `p`: every missing prefix of `p`
/// appears with no clients, and `c` joins the clients of `p`.
pub open spec fn spec_insert<T>(m: Map<Seq<Seq<char>>, Set<T>>, p: Seq<Seq<char>>, c: T) -> Map<
    Seq<Seq<char>>,
    Set<T>,
> {
    Map::new(
        |q: Seq<Seq<char>>| m.contains_key(q) || is_prefix(q, p),
        |q: Seq<Seq<char>>|
            {
                let base = if m.contains_key(q) {
                    m[q]
                } else {
                    Set::empty()
                };
                if q == p {
                    base.insert(c)
                } else {
                    base
                }
            },
    )
}

/// The subscriptions after `c` leaves `p`: `c` leaves the clients of `p`, and
/// `p` itself disappears when it is not the root, has no clients left and
/// nothing below it.
pub open spec fn spec_remove<T>(m: Map<Seq<Seq<char>>, Set<T>>, p: Seq<Seq<char>>, c: T) -> Map<
    Seq<Seq<char>>,
    Set<T>,
> {
    if !m.contains_key(p) {
        m
    } else if p.len() > 0 && m[p].remove(c).is_empty() && !has_descendant(m, p) {
        m.remove(p)
    } else {
        m.insert(p, m[p].remove(c))
    }
}

/// The map in which only the clients of `p` change, losing `c`.
pub open spec fn spec_remove_client_only<T>(
    m: Map<Seq<Seq<char>>, Set<T>>,
    p: Seq<Seq<char>>,
    c: T,
) -> Map<Seq<Seq<char>>, Set<T>> {
    if m.contains_key(p) {
        m.insert(p, m[p].remove(c))
    } else {
        m
    }
}

/// The map without `p` and every path below it.
pub open spec fn spec_remove_subtree<T>(m: Map<Seq<Seq<char>>, Set<T>>, p: Seq<Seq<char>>) -> Map<
    Seq<Seq<char>>,
    Set<T>,
> {
    Map::new(|q: Seq<Seq<char>>| m.contains_key(q) && !is_prefix(p, q), |q: Seq<Seq<char>>| m[q])
}

/// The (path, client) subscriptions that a map records.
pub open spec fn subscription_pairs<T>(m: Map<Seq<Seq<char>>, Set<T>>) -> Set<(Seq<Seq<char>>, T)> {
    Set::new(|pc: (Seq<Seq<char>>, T)| m.contains_key(pc.0) && m[pc.0].contains(pc.1))
}

/// Subscribing adds exactly the one pair.
proof fn lemma_pairs_insert<T>(m: Map<Seq<Seq<char>>, Set<T>>, p: Seq<Seq<char>>, c: T)
    ensures
        subscription_pairs(spec_insert(m, p, c)) == subscription_pairs(m).insert((p, c)),
{
    assert(p =~= p.subrange(0, p.len() as int));
    assert(subscription_pairs(spec_insert(m, p, c)) =~= subscription_pairs(m).insert((p, c)));
}

/// Unsubscribing (without pruning) takes away exactly the one pair.
proof fn lemma_pairs_remove_client_only<T>(m: Map<Seq<Seq<char>>, Set<T>>, p: Seq<Seq<char>>, c: T)
    ensures
        subscription_pairs(spec_remove_client_only(m, p, c)) == subscription_pairs(m).remove((p, c)),
{
    assert(subscription_pairs(spec_remove_client_only(m, p, c)) =~= subscription_pairs(m).remove(
        (p, c),
    ));
}

/// Taking out a path without clients takes away no pair.
proof fn lemma_pairs_remove_empty<T>(m: Map<Seq<Seq<char>>, Set<T>>, p: Seq<Seq<char>>)
    requires
        m.contains_key(p),
        m[p].is_empty(),
    ensures
        subscription_pairs(m.remove(p)) == subscription_pairs(m),
{
    assert forall|pc: (Seq<Seq<char>>, T)| subscription_pairs(m).contains(pc) implies subscription_pairs(m.remove(p)).contains(pc) by {
        if pc.0 == p {
            assert(m[p].contains(pc.1));
        }
    }
    assert(subscription_pairs(m.remove(p)) =~= subscription_pairs(m));
}

/// The names of the children are pairwise different.
spec fn distinct_names<T>(children: Seq<TreeNode<T>>) -> bool where T: PartialEq + Eq + Hash {
    forall|i: int, j: int|
        0 <= i < j < children.len() ==> #[trigger] children[i].name@ != #[trigger] children[j].name@
}


/// The position of the child named `name`, if there is one.
spec fn child_index<T>(children: Seq<TreeNode<T>>, name: Seq<char>) -> Option<int> where
    T: PartialEq + Eq + Hash,
 {
    if exists|j: int| 0 <= j < children.len() && #[trigger] children[j].name@ == name {
        Some(choose|j: int| 0 <= j < children.len() && #[trigger] children[j].name@ == name)
    } else {
        None
    }
}

/// The node that `path` leads to from `node`, if any.
spec fn lookup<T>(node: TreeNode<T>, path: Seq<Seq<char>>) -> Option<TreeNode<T>> where
    T: PartialEq + Eq + Hash,
 decreases path.len(),
{
    if path.len() == 0 {
        Some(node)
    } else {
        match child_index(node.children@, path[0]) {
            Some(j) => lookup(node.children@[j], path.drop_first()),
            None => None,
        }
    }
}

/// The subscriptions below `node`: each path that leads to a node, with the
/// clients of that node.
spec fn node_map<T>(node: TreeNode<T>) -> Map<Seq<Seq<char>>, Set<T>> where
    T: PartialEq + Eq + Hash,
 {
    Map::new(
        |q: Seq<Seq<char>>| lookup(node, q) is Some,
        |q: Seq<Seq<char>>| lookup(node, q)->Some_0.clients@.to_set(),
    )
}

/// Every node below `node` (itself included) lists each client once and
/// has children with pairwise different names.
spec fn wf_node<T>(node: TreeNode<T>) -> bool where T: PartialEq + Eq + Hash decreases node {
    &&& node.clients@.no_duplicates()
    &&& distinct_names(node.children@)
    &&& forall|i: int| 0 <= i < node.children@.len() ==> wf_node(#[trigger] node.children@[i])
}

/// The node has no children and no clients.
spec fn empty_node<T>(node: TreeNode<T>) -> bool where T: PartialEq + Eq + Hash {
    node.children@.len() == 0 && node.clients@.len() == 0
}

proof fn lemma_child_index_unique<T>(children: Seq<TreeNode<T>>, name: Seq<char>, j: int) where
    T: PartialEq + Eq + Hash,

    requires
        distinct_names(children),
        0 <= j < children.len(),
        children[j].name@ == name,
    ensures
        child_index(children, name) == Some(j),
{
    let k = choose|k: int| 0 <= k < children.len() && #[trigger] children[k].name@ == name;
    if k < j {
        assert(children[k].name@ != children[j].name@);
    } else if j < k {
        assert(children[j].name@ != children[k].name@);
    }
}

proof fn lemma_child_index_some<T>(children: Seq<TreeNode<T>>, name: Seq<char>) where
    T: PartialEq + Eq + Hash,

    requires
        child_index(children, name) is Some,
    ensures
        0 <= child_index(children, name)->Some_0 < children.len(),
        children[child_index(children, name)->Some_0].name@ == name,
{
}

proof fn lemma_empty_node<T>(node: TreeNode<T>) where T: PartialEq + Eq + Hash
    requires
        empty_node(node),
    ensures
        wf_node(node),
        forall|q: Seq<Seq<char>>| #[trigger] lookup(node, q) is Some <==> q.len() == 0,
{
    assert forall|q: Seq<Seq<char>>| #[trigger] lookup(node, q) is Some <==> q.len() == 0 by {
        if q.len() > 0 {
            assert(child_index(node.children@, q[0]) is None);
        }
    }
}

/// Looking a path up that starts with `a` goes through the child named `a`.
proof fn lemma_lookup_first<T>(node: TreeNode<T>, q: Seq<Seq<char>>) where T: PartialEq + Eq + Hash
    requires
        q.len() > 0,
    ensures
        lookup(node, q) == match child_index(node.children@, q[0]) {
            Some(j) => lookup(node.children@[j], q.drop_first()),
            None => None,
        },
{
}

/// Adding one element to a sequence adds it to the set of its elements.
proof fn lemma_to_set_push<T>(s: Seq<T>, c: T)
    ensures
        s.push(c).to_set() == s.to_set().insert(c),
{
    assert forall|x: T| s.push(c).to_set().contains(x) <==> s.to_set().insert(c).contains(x) by {
        if s.push(c).contains(x) && x != c {
            let i = choose|i: int| 0 <= i < s.push(c).len() && s.push(c)[i] == x;
            assert(s[i] == x);
        }
        if s.contains(x) {
            let i = choose|i: int| 0 <= i < s.len() && s[i] == x;
            assert(s.push(c)[i] == x);
        }
        if x == c {
            assert(s.push(c)[s.len() as int] == c);
        }
    }
    assert(s.push(c).to_set() =~= s.to_set().insert(c));
}

proof fn lemma_prefix_first(q: Seq<Seq<char>>, p: Seq<Seq<char>>)
    requires
        q.len() > 0,
        p.len() > 0,
    ensures
        q[0] == p[0] ==> (is_prefix(q, p) <==> is_prefix(q.drop_first(), p.drop_first())),
        q[0] == p[0] ==> (q == p <==> q.drop_first() == p.drop_first()),
        q[0] != p[0] ==> !is_prefix(q, p) && q != p,
{
    if q[0] == p[0] {
        if is_prefix(q.drop_first(), p.drop_first()) {
            assert(q =~= p.subrange(0, q.len() as int)) by {
                assert forall|i: int| 0 <= i < q.len() implies q[i] == p.subrange(0, q.len() as int)[i] by {
                    if i > 0 {
                        assert(q[i] == q.drop_first()[i - 1]);
                        assert(p[i] == p.drop_first()[i - 1]);
                    }
                }
            }
        }
        if is_prefix(q, p) {
            assert(q.drop_first() =~= p.drop_first().subrange(0, q.drop_first().len() as int));
        }
        if q.drop_first() == p.drop_first() && q.len() == p.len() {
            assert forall|i: int| 0 <= i < q.len() implies q[i] == p[i] by {
                if i > 0 {
                    assert(q[i] == q.drop_first()[i - 1]);
                    assert(p[i] == p.drop_first()[i - 1]);
                }
            }
            assert(q =~= p);
        }
    } else {
        if is_prefix(q, p) {
            assert(q[0] == p.subrange(0, q.len() as int)[0]);
        }
    }
}

/// Replacing one child by a node of the same name changes only the
/// lookups that go through that child.
proof fn lemma_lookup_after_update<T>(n1: TreeNode<T>, n2: TreeNode<T>, idx: int) where
    T: PartialEq + Eq + Hash,

    requires
        distinct_names(n1.children@),
        distinct_names(n2.children@),
        n2.children@.len() == n1.children@.len(),
        0 <= idx < n1.children@.len(),
        n2.children@[idx].name@ == n1.children@[idx].name@,
        forall|j: int| 0 <= j < n1.children@.len() && j != idx ==> n2.children@[j] == n1.children@[j],
    ensures
        forall|q: Seq<Seq<char>>|
            q.len() > 0 && q[0] != n1.children@[idx].name@ ==> #[trigger] lookup(n2, q) == lookup(n1, q),
        forall|q: Seq<Seq<char>>|
            q.len() > 0 && q[0] == n1.children@[idx].name@ ==> #[trigger] lookup(n2, q) == lookup(
                n2.children@[idx],
                q.drop_first(),
            ) && lookup(n1, q) == lookup(n1.children@[idx], q.drop_first()),
{
    let a = n1.children@[idx].name@;
    assert forall|q: Seq<Seq<char>>| q.len() > 0 && q[0] != a implies #[trigger] lookup(n2, q) == lookup(n1, q) by {
        let b = q[0];
        match child_index(n1.children@, b) {
            Some(j) => {
                lemma_child_index_some(n1.children@, b);
                lemma_child_index_unique(n2.children@, b, j);
            },
            None => {
                if child_index(n2.children@, b) is Some {
                    lemma_child_index_some(n2.children@, b);
                    let j = child_index(n2.children@, b)->Some_0;
                    assert(n1.children@[j].name@ == b);
                }
            },
        }
    }
    lemma_child_index_unique(n1.children@, a, idx);
    lemma_child_index_unique(n2.children@, a, idx);
}

/// Adding a child under a new name changes only the lookups that go
/// through that name.
proof fn lemma_lookup_after_push<T>(n1: TreeNode<T>, n2: TreeNode<T>, x: TreeNode<T>) where
    T: PartialEq + Eq + Hash,

    requires
        distinct_names(n2.children@),
        n2.children@ == n1.children@.push(x),
        child_index(n1.children@, x.name@) is None,
    ensures
        forall|q: Seq<Seq<char>>|
            q.len() > 0 && q[0] != x.name@ ==> #[trigger] lookup(n2, q) == lookup(n1, q),
        forall|q: Seq<Seq<char>>|
            q.len() > 0 && q[0] == x.name@ ==> #[trigger] lookup(n2, q) == lookup(x, q.drop_first())
                && lookup(n1, q) is None,
{
    let n = n1.children@.len() as int;
    assert forall|q: Seq<Seq<char>>| q.len() > 0 && q[0] != x.name@ implies #[trigger] lookup(n2, q) == lookup(n1, q) by {
        let b = q[0];
        match child_index(n1.children@, b) {
            Some(j) => {
                lemma_child_index_some(n1.children@, b);
                assert(n2.children@[j] == n1.children@[j]);
                lemma_child_index_unique(n2.children@, b, j);
            },
            None => {
                if child_index(n2.children@, b) is Some {
                    lemma_child_index_some(n2.children@, b);
                    let j = child_index(n2.children@, b)->Some_0;
                    if j < n {
                        assert(n1.children@[j].name@ == b);
                    }
                }
            },
        }
    }
    lemma_child_index_unique(n2.children@, x.name@, n);
}

/// One step of subscribing below a node: its child named `rest[0]` (found
/// or newly made in `mid`) took the subscription for `rest.drop_first()`.
proof fn lemma_insert_step<T>(
    old0: TreeNode<T>,
    mid: TreeNode<T>,
    fin: TreeNode<T>,
    idx: int,
    rest: Seq<Seq<char>>,
    c: T,
) where T: PartialEq + Eq + Hash
    requires
        rest.len() > 0,
        distinct_names(old0.children@),
        distinct_names(mid.children@),
        distinct_names(fin.children@),
        0 <= idx < mid.children@.len(),
        mid.children@[idx].name@ == rest[0],
        mid.clients == old0.clients,
        match child_index(old0.children@, rest[0]) {
            Some(j) => idx == j && mid.children@ == old0.children@,
            None => mid.children@ == old0.children@.push(mid.children@[idx]) && empty_node(
                mid.children@[idx],
            ),
        },
        fin.clients == mid.clients,
        fin.children@.len() == mid.children@.len(),
        fin.children@[idx].name@ == rest[0],
        forall|j: int| 0 <= j < mid.children@.len() && j != idx ==> fin.children@[j] == mid.children@[j],
        node_map(fin.children@[idx]) == spec_insert(node_map(mid.children@[idx]), rest.drop_first(), c),
    ensures
        node_map(fin) == spec_insert(node_map(old0), rest, c),
{
    let a = rest[0];
    let r1 = rest.drop_first();
    let fc = fin.children@[idx];
    let mc = mid.children@[idx];
    let existed = child_index(old0.children@, a) is Some;
    lemma_lookup_after_update(mid, fin, idx);
    if !existed {
        lemma_lookup_after_push(old0, mid, mc);
        lemma_empty_node(mc);
    }
    let lhs = node_map(fin);
    let rhs = spec_insert(node_map(old0), rest, c);
    assert forall|q: Seq<Seq<char>>| #[trigger] lhs.contains_key(q) == rhs.contains_key(q) && (lhs.contains_key(q) ==> lhs[q] == rhs[q]) by {
        if q.len() == 0 {
            assert(lookup(fin, q) == Some(fin));
            assert(lookup(old0, q) == Some(old0));
            assert(q =~= rest.subrange(0, 0));
            assert(q != rest);
        } else {
            lemma_prefix_first(q, rest);
            let q1 = q.drop_first();
            if q[0] == a {
                assert(lookup(fin, q) == lookup(fc, q1));
                assert(node_map(fc).contains_key(q1) == spec_insert(node_map(mc), r1, c).contains_key(q1));
                if existed {
                    assert(mc == old0.children@[idx]);
                    assert(lookup(old0, q) == lookup(mc, q1));
                } else {
                    assert(lookup(old0, q) is None);
                    if q1.len() == 0 {
                        assert(q1 =~= r1.subrange(0, 0));
                    }
                }
                if lhs.contains_key(q) {
                    assert(node_map(fc)[q1] == spec_insert(node_map(mc), r1, c)[q1]);
                }
            } else {
                assert(lookup(fin, q) == lookup(mid, q));
                if !existed {
                    assert(lookup(mid, q) == lookup(old0, q));
                }
            }
        }
    }
    assert(lhs =~= rhs);
}

/// Taking out one child changes only the lookups that go through it.
proof fn lemma_lookup_after_remove<T>(n1: TreeNode<T>, n2: TreeNode<T>, idx: int) where
    T: PartialEq + Eq + Hash,

    requires
        distinct_names(n1.children@),
        0 <= idx < n1.children@.len(),
        n2.children@ == n1.children@.remove(idx),
    ensures
        distinct_names(n2.children@),
        forall|q: Seq<Seq<char>>|
            q.len() > 0 && q[0] != n1.children@[idx].name@ ==> #[trigger] lookup(n2, q) == lookup(n1, q),
        forall|q: Seq<Seq<char>>|
            q.len() > 0 && q[0] == n1.children@[idx].name@ ==> #[trigger] lookup(n2, q) is None,
{
    let a = n1.children@[idx].name@;
    let c1 = n1.children@;
    let c2 = n2.children@;
    assert forall|i: int, j: int| 0 <= i < j < c2.len() implies #[trigger] c2[i].name@ != #[trigger] c2[j].name@ by {
        let i1 = if i < idx { i } else { i + 1 };
        let j1 = if j < idx { j } else { j + 1 };
        assert(c2[i] == c1[i1]);
        assert(c2[j] == c1[j1]);
    }
    assert forall|q: Seq<Seq<char>>| q.len() > 0 && q[0] != a implies #[trigger] lookup(n2, q) == lookup(n1, q) by {
        let b = q[0];
        match child_index(c1, b) {
            Some(j) => {
                lemma_child_index_some(c1, b);
                let j2 = if j < idx { j } else { j - 1 };
                assert(c2[j2] == c1[j]);
                lemma_child_index_unique(c2, b, j2);
            },
            None => {
                if child_index(c2, b) is Some {
                    lemma_child_index_some(c2, b);
                    let j = child_index(c2, b)->Some_0;
                    let j1 = if j < idx { j } else { j + 1 };
                    assert(c2[j] == c1[j1]);
                }
            },
        }
    }
    assert forall|q: Seq<Seq<char>>| q.len() > 0 && q[0] == a implies #[trigger] lookup(n2, q) is None by {
        if child_index(c2, a) is Some {
            lemma_child_index_some(c2, a);
            let j = child_index(c2, a)->Some_0;
            let j1 = if j < idx { j } else { j + 1 };
            assert(c2[j] == c1[j1]);
            assert(c1[j1].name@ != c1[idx].name@);
        }
    }
}

/// The clients of a node, once each: taking one out takes it out of the set.
proof fn lemma_to_set_remove<T>(s: Seq<T>, i: int)
    requires
        s.no_duplicates(),
        0 <= i < s.len(),
    ensures
        s.remove(i).to_set() == s.to_set().remove(s[i]),
        s.remove(i).no_duplicates(),
{
    let r = s.remove(i);
    assert forall|k: int| 0 <= k < r.len() implies #[trigger] r[k] == s[if k < i { k } else { k + 1 }] by {}
    assert forall|x: T| r.to_set().contains(x) <==> s.to_set().remove(s[i]).contains(x) by {
        if r.contains(x) {
            let k = choose|k: int| 0 <= k < r.len() && r[k] == x;
            let k1 = if k < i { k } else { k + 1 };
            assert(s[k1] == x);
        }
        if s.contains(x) && x != s[i] {
            let k = choose|k: int| 0 <= k < s.len() && s[k] == x;
            let k2 = if k < i { k } else { k - 1 };
            assert(r[k2] == x);
        }
    }
    assert(r.to_set() =~= s.to_set().remove(s[i]));
    assert forall|a: int, b: int| 0 <= a < r.len() && 0 <= b < r.len() && a != b implies r[a] != r[b] by {
        let a1 = if a < i { a } else { a + 1 };
        let b1 = if b < i { b } else { b + 1 };
        assert(s[a1] != s[b1]);
    }
}

/// A node reached by a lookup is well formed.
proof fn lemma_lookup_wf<T>(node: TreeNode<T>, q: Seq<Seq<char>>) where T: PartialEq + Eq + Hash
    requires
        wf_node(node),
        lookup(node, q) is Some,
    ensures
        wf_node(lookup(node, q)->Some_0),
    decreases q.len(),
{
    if q.len() > 0 {
        let j = child_index(node.children@, q[0])->Some_0;
        lemma_child_index_some(node.children@, q[0]);
        lemma_lookup_wf(node.children@[j], q.drop_first());
    }
}

/// Looking up `p + r` is looking up `r` from the node that `p` leads to.
proof fn lemma_lookup_append<T>(node: TreeNode<T>, p: Seq<Seq<char>>, r: Seq<Seq<char>>) where
    T: PartialEq + Eq + Hash,

    requires
        lookup(node, p) is Some,
    ensures
        lookup(node, p + r) == lookup(lookup(node, p)->Some_0, r),
    decreases p.len(),
{
    if p.len() > 0 {
        let j = child_index(node.children@, p[0])->Some_0;
        assert((p + r)[0] == p[0]);
        assert((p + r).drop_first() =~= p.drop_first() + r);
        lemma_lookup_append(node.children@[j], p.drop_first(), r);
    } else {
        assert(p + r =~= r);
    }
}

/// A node has children exactly when some path lies strictly below it.
proof fn lemma_children_descendant<T>(node: TreeNode<T>, p: Seq<Seq<char>>) where
    T: PartialEq + Eq + Hash,

    requires
        lookup(node, p) is Some,
    ensures
        lookup(node, p)->Some_0.children@.len() > 0 <==> has_descendant(node_map(node), p),
{
    let n = lookup(node, p)->Some_0;
    let m = node_map(node);
    if n.children@.len() > 0 {
        let a0 = n.children@[0].name@;
        let q = p.push(a0);
        assert(q =~= p + seq![a0]);
        lemma_lookup_append(node, p, seq![a0]);
        assert(child_index(n.children@, a0) is Some);
        lemma_lookup_first(n, seq![a0]);
        let j = child_index(n.children@, a0)->Some_0;
        assert(seq![a0].drop_first() =~= Seq::<Seq<char>>::empty());
        assert(lookup(n.children@[j], Seq::<Seq<char>>::empty()) is Some);
        assert(lookup(n, seq![a0]) is Some);
        assert(p =~= q.subrange(0, p.len() as int));
        assert(m.contains_key(q));
    }
    if has_descendant(m, p) {
        let q = choose|q: Seq<Seq<char>>| #[trigger] m.contains_key(q) && p.len() < q.len() && is_prefix(p, q);
        let r = q.skip(p.len() as int);
        assert(q =~= p + r);
        lemma_lookup_append(node, p, r);
        assert(lookup(n, r) is Some);
        assert(child_index(n.children@, r[0]) is Some);
    }
}

/// One step of unsubscribing below a node: its child named `rest[0]` lost
/// the subscription for `rest.drop_first()`.
proof fn lemma_remove_step<T>(o: TreeNode<T>, f: TreeNode<T>, idx: int, rest: Seq<Seq<char>>, c: T) where
    T: PartialEq + Eq + Hash,

    requires
        rest.len() > 0,
        distinct_names(o.children@),
        distinct_names(f.children@),
        child_index(o.children@, rest[0]) == Some(idx),
        f.clients == o.clients,
        f.children@.len() == o.children@.len(),
        f.children@[idx].name@ == rest[0],
        forall|j: int| 0 <= j < o.children@.len() && j != idx ==> f.children@[j] == o.children@[j],
        node_map(f.children@[idx]) == spec_remove_client_only(
            node_map(o.children@[idx]),
            rest.drop_first(),
            c,
        ),
    ensures
        node_map(f) == spec_remove_client_only(node_map(o), rest, c),
{
    let a = rest[0];
    let r1 = rest.drop_first();
    let fc = f.children@[idx];
    let oc = o.children@[idx];
    lemma_child_index_some(o.children@, a);
    lemma_lookup_after_update(o, f, idx);
    lemma_lookup_first(o, rest);
    let lhs = node_map(f);
    let rhs = spec_remove_client_only(node_map(o), rest, c);
    assert forall|q: Seq<Seq<char>>| #[trigger] lhs.contains_key(q) == rhs.contains_key(q) && (lhs.contains_key(q) ==> lhs[q] == rhs[q]) by {
        if q.len() == 0 {
            assert(lookup(f, q) == Some(f));
            assert(lookup(o, q) == Some(o));
            assert(q != rest);
        } else {
            lemma_prefix_first(q, rest);
            let q1 = q.drop_first();
            if q[0] == a {
                assert(lookup(f, q) == lookup(fc, q1));
                assert(lookup(o, q) == lookup(oc, q1));
                assert(node_map(fc).contains_key(q1) == spec_remove_client_only(node_map(oc), r1, c).contains_key(q1));
                if lhs.contains_key(q) {
                    assert(node_map(fc)[q1] == spec_remove_client_only(node_map(oc), r1, c)[q1]);
                }
            }
        }
    }
    assert(lhs =~= rhs);
}

/// One step of removing a subtree below a node: the subtree lies below its
/// child named `rest[0]`.
proof fn lemma_remove_subtree_step<T>(o: TreeNode<T>, f: TreeNode<T>, idx: int, rest: Seq<Seq<char>>) where
    T: PartialEq + Eq + Hash,

    requires
        rest.len() > 1,
        distinct_names(o.children@),
        distinct_names(f.children@),
        child_index(o.children@, rest[0]) == Some(idx),
        f.clients == o.clients,
        f.children@.len() == o.children@.len(),
        f.children@[idx].name@ == rest[0],
        forall|j: int| 0 <= j < o.children@.len() && j != idx ==> f.children@[j] == o.children@[j],
        node_map(f.children@[idx]) == spec_remove_subtree(node_map(o.children@[idx]), rest.drop_first()),
    ensures
        node_map(f) == spec_remove_subtree(node_map(o), rest),
{
    let a = rest[0];
    let r1 = rest.drop_first();
    let fc = f.children@[idx];
    let oc = o.children@[idx];
    lemma_child_index_some(o.children@, a);
    lemma_lookup_after_update(o, f, idx);
    let lhs = node_map(f);
    let rhs = spec_remove_subtree(node_map(o), rest);
    assert forall|q: Seq<Seq<char>>| #[trigger] lhs.contains_key(q) == rhs.contains_key(q) && (lhs.contains_key(q) ==> lhs[q] == rhs[q]) by {
        if q.len() == 0 {
            assert(lookup(f, q) == Some(f));
            assert(lookup(o, q) == Some(o));
            assert(!is_prefix(rest, q));
        } else {
            lemma_prefix_first(rest, q);
            let q1 = q.drop_first();
            if q[0] == a {
                assert(lookup(f, q) == lookup(fc, q1));
                assert(lookup(o, q) == lookup(oc, q1));
                assert(node_map(fc).contains_key(q1) == spec_remove_subtree(node_map(oc), r1).contains_key(q1));
                if lhs.contains_key(q) {
                    assert(node_map(fc)[q1] == spec_remove_subtree(node_map(oc), r1)[q1]);
                }
            }
        }
    }
    assert(lhs =~= rhs);
}

/// Whether `x` is among `clients`.
fn contains_client<T>(clients: &Vec<T>, x: &T) -> (found: bool) where T: PartialEq + Eq + Hash
    requires
        obeys_concrete_eq::<T>(),
    ensures
        found == clients@.contains(*x),
{
    proof {
        reveal(obeys_concrete_eq);
    }
    let n: usize = clients.len();
    let mut i: usize = 0;
    while i < n
        invariant
            n == clients@.len(),
            i <= n,
            obeys_concrete_eq::<T>(),
            forall|j: int| 0 <= j < i ==> clients@[j] != *x,
        decreases n - i,
    {
        proof {
            reveal(obeys_concrete_eq);
        }
        if clients[i] == *x {
            return true;
        }
        i = i + 1;
    }
    false
}

/// The position of `x` in `clients`, if it is there.
fn client_position<T>(clients: &Vec<T>, x: &T) -> (pos: Option<usize>) where
    T: PartialEq + Eq + Hash,

    requires
        obeys_concrete_eq::<T>(),
    ensures
        match pos {
            Some(i) => i < clients@.len() && clients@[i as int] == *x,
            None => !clients@.contains(*x),
        },
{
    let n: usize = clients.len();
    let mut i: usize = 0;
    while i < n
        invariant
            n == clients@.len(),
            i <= n,
            obeys_concrete_eq::<T>(),
            forall|j: int| 0 <= j < i ==> clients@[j] != *x,
        decreases n - i,
    {
        proof {
            reveal(obeys_concrete_eq);
        }
        if clients[i] == *x {
            return Some(i);
        }
        i = i + 1;
    }
    None
}

impl<T> TreeNode<T> where T: PartialEq + Eq + Hash {
    /// A node with the given name, no children and no clients.
    fn with_name(name: String) -> (node: TreeNode<T>)
        ensures
            node.name == name,
            empty_node(node),
    {
        TreeNode { children: Vec::new(), name, clients: Vec::new() }
    }

    /// The position of the child named `path_segment`, if there is one.
    fn child_position(&self, path_segment: &String) -> (pos: Option<usize>)
        requires
            distinct_names(self.children@),
        ensures
            match pos {
                Some(i) => child_index(self.children@, path_segment@) == Some(i as int),
                None => child_index(self.children@, path_segment@) is None,
            },
    {
        let n: usize = self.children.len();
        let mut i: usize = 0;
        while i < n
            invariant
                n == self.children@.len(),
                i <= n,
                distinct_names(self.children@),
                forall|j: int| 0 <= j < i ==> #[trigger] self.children@[j].name@ != path_segment@,
            decreases n - i,
        {
            if self.children[i].name == *path_segment {
                proof {
                    lemma_child_index_unique(self.children@, path_segment@, i as int);
                }
                return Some(i);
            }
            i = i + 1;
        }
        None
    }

    /// The child named `path_segment`, if there is one.
    fn get_child(&self, path_segment: &String) -> (child: Option<&TreeNode<T>>)
        requires
            distinct_names(self.children@),
        ensures
            match child {
                Some(c) => child_index(self.children@, path_segment@) is Some && *c
                    == self.children@[child_index(self.children@, path_segment@)->Some_0],
                None => child_index(self.children@, path_segment@) is None,
            },
    {
        match self.child_position(path_segment) {
            Some(i) => Some(&self.children[i]),
            None => None,
        }
    }

    /// The position of the child named `path_segment`, which is added (with
    /// no children and no clients) when there is none.
    fn get_or_create_child(&mut self, path_segment: &String) -> (pos: usize)
        requires
            wf_node(*old(self)),
        ensures
            wf_node(*final(self)),
            final(self).name == old(self).name,
            final(self).clients == old(self).clients,
            pos < final(self).children@.len(),
            final(self).children@[pos as int].name@ == path_segment@,
            child_index(final(self).children@, path_segment@) == Some(pos as int),
            match child_index(old(self).children@, path_segment@) {
                Some(j) => pos == j && final(self).children@ == old(self).children@,
                None => pos == old(self).children@.len() && final(self).children@ == old(
                    self,
                ).children@.push(final(self).children@[pos as int]) && empty_node(
                    final(self).children@[pos as int],
                ),
            },
    {
        match self.child_position(path_segment) {
            Some(i) => i,
            None => {
                let child = TreeNode::with_name(path_segment.clone());
                self.children.push(child);
                let pos: usize = self.children.len() - 1;
                proof {
                    let c = self.children@;
                    assert(c == old(self).children@.push(child));
                    assert forall|i: int, j: int| 0 <= i < j < c.len() implies #[trigger] c[i].name@
                        != #[trigger] c[j].name@ by {
                        if j == pos {
                            assert(old(self).children@[i].name@ != path_segment@);
                        } else {
                            assert(old(self).children@[i].name@ != old(self).children@[j].name@);
                        }
                    }
                    lemma_empty_node(child);
                    assert forall|i: int| 0 <= i < c.len() implies wf_node(#[trigger] c[i]) by {
                        if i < pos {
                            assert(c[i] == old(self).children@[i]);
                        }
                    }
                    lemma_child_index_unique(c, path_segment@, pos as int);
                }
                pos
            },
        }
    }

    /// Subscribes `client` to the node that `path[depth..]` leads to from
    /// this node, making the missing nodes on the way. Tells whether the
    /// client was not subscribed there yet.
    fn insert_at(&mut self, path: &[String], depth: usize, client: T) -> (inserted: bool)
        requires
            wf_node(*old(self)),
            depth <= path@.len(),
            obeys_concrete_eq::<T>(),
        ensures
            wf_node(*final(self)),
            final(self).name == old(self).name,
            node_map(*final(self)) == spec_insert(
                node_map(*old(self)),
                path_view(path@).skip(depth as int),
                client,
            ),
            inserted == !(node_map(*old(self)).contains_key(path_view(path@).skip(depth as int))
                && node_map(*old(self))[path_view(path@).skip(depth as int)].contains(client)),
        decreases path@.len() - depth,
    {
        let ghost rest = path_view(path@).skip(depth as int);
        if depth == path.len() {
            let found = contains_client(&self.clients, &client);
            if !found {
                self.clients.push(client);
            }
            proof {
                let o = *old(self);
                let f = *self;
                assert(rest.len() == 0);
                assert(rest =~= Seq::<Seq<char>>::empty());
                lemma_to_set_push(o.clients@, client);
                if !found {
                    assert forall|i: int, j: int| 0 <= i < f.clients@.len() && 0 <= j < f.clients@.len() && i != j
                        implies f.clients@[i] != f.clients@[j] by {
                        if j == o.clients@.len() {
                            assert(o.clients@[i] != client);
                        } else if i == o.clients@.len() {
                            assert(o.clients@[j] != client);
                        } else {
                            assert(o.clients@[i] != o.clients@[j]);
                        }
                    }
                } else {
                    assert(o.clients@.to_set().insert(client) =~= o.clients@.to_set());
                }
                assert forall|q: Seq<Seq<char>>| q.len() > 0 implies #[trigger] lookup(f, q) == lookup(o, q) by {
                    lemma_lookup_first(f, q);
                    lemma_lookup_first(o, q);
                }
                let lhs = node_map(f);
                let rhs = spec_insert(node_map(o), rest, client);
                assert forall|q: Seq<Seq<char>>| #[trigger] lhs.contains_key(q) == rhs.contains_key(q) && (
                lhs.contains_key(q) ==> lhs[q] == rhs[q]) by {
                    if q.len() == 0 {
                        assert(q == rest);
                        assert(lookup(f, q) == Some(f));
                        assert(lookup(o, q) == Some(o));
                    } else {
                        assert(q != rest);
                        assert(!is_prefix(q, rest));
                    }
                }
                assert(lhs =~= rhs);
                assert(lookup(o, rest) == Some(o));
                assert(o.clients@.contains(client) == o.clients@.to_set().contains(client));
            }
            !found
        } else {
            let pos = self.get_or_create_child(&path[depth]);
            let ghost mid = *self;
            let inserted = self.children[pos].insert_at(path, depth + 1, client);
            proof {
                let o = *old(self);
                let f = *self;
                assert(rest[0] == path@[depth as int]@);
                assert(rest.drop_first() =~= path_view(path@).skip(depth + 1));
                let a = rest[0];
                let mc = mid.children@[pos as int];
                let fc = f.children@[pos as int];
                assert(f.children@ == mid.children@.update(pos as int, fc));
                assert forall|i: int, j: int| 0 <= i < j < f.children@.len() implies #[trigger] f.children@[i].name@
                    != #[trigger] f.children@[j].name@ by {
                    assert(mid.children@[i].name@ != mid.children@[j].name@);
                }
                assert forall|i: int| 0 <= i < f.children@.len() implies wf_node(#[trigger] f.children@[i]) by {
                    if i != pos {
                        assert(f.children@[i] == mid.children@[i]);
                    }
                }
                lemma_insert_step(o, mid, f, pos as int, rest, client);
                // whether the client was already subscribed there
                if child_index(o.children@, a) is Some {
                    lemma_lookup_first(o, rest);
                } else {
                    lemma_lookup_after_push(o, mid, mc);
                    lemma_empty_node(mc);
                    assert(lookup(o, rest) is None);
                    if rest.drop_first().len() == 0 {
                        assert(lookup(mc, rest.drop_first()) == Some(mc));
                        assert(mc.clients@.len() == 0);
                        assert(!mc.clients@.to_set().contains(client));
                    }
                }
            }
            inserted
        }
    }

    /// Unsubscribes `client` from the node that `path[depth..]` leads to
    /// from this node, if that node exists. Tells whether the client was
    /// subscribed there.
    fn remove_at(&mut self, path: &[String], depth: usize, client: &T) -> (removed: bool)
        requires
            wf_node(*old(self)),
            depth <= path@.len(),
            obeys_concrete_eq::<T>(),
        ensures
            wf_node(*final(self)),
            final(self).name == old(self).name,
            node_map(*final(self)) == spec_remove_client_only(
                node_map(*old(self)),
                path_view(path@).skip(depth as int),
                *client,
            ),
            removed == (node_map(*old(self)).contains_key(path_view(path@).skip(depth as int))
                && node_map(*old(self))[path_view(path@).skip(depth as int)].contains(*client)),
        decreases path@.len() - depth,
    {
        let ghost rest = path_view(path@).skip(depth as int);
        if depth == path.len() {
            let removed = match client_position(&self.clients, client) {
                Some(i) => {
                    self.clients.remove(i);
                    proof {
                        lemma_to_set_remove(old(self).clients@, i as int);
                    }
                    true
                },
                None => false,
            };
            proof {
                let o = *old(self);
                let f = *self;
                assert(rest =~= Seq::<Seq<char>>::empty());
                if !removed {
                    assert(o.clients@.to_set().remove(*client) =~= o.clients@.to_set());
                }
                assert forall|q: Seq<Seq<char>>| q.len() > 0 implies #[trigger] lookup(f, q) == lookup(o, q) by {
                    lemma_lookup_first(f, q);
                    lemma_lookup_first(o, q);
                }
                let lhs = node_map(f);
                let rhs = spec_remove_client_only(node_map(o), rest, *client);
                assert(lookup(o, rest) == Some(o));
                assert forall|q: Seq<Seq<char>>| #[trigger] lhs.contains_key(q) == rhs.contains_key(q) && (
                lhs.contains_key(q) ==> lhs[q] == rhs[q]) by {
                    if q.len() == 0 {
                        assert(q == rest);
                        assert(lookup(f, q) == Some(f));
                    }
                }
                assert(lhs =~= rhs);
                assert(o.clients@.contains(*client) == o.clients@.to_set().contains(*client));
            }
            removed
        } else {
            match self.child_position(&path[depth]) {
                Some(pos) => {
                    let removed = self.children[pos].remove_at(path, depth + 1, client);
                    proof {
                        let o = *old(self);
                        let f = *self;
                        assert(rest[0] == path@[depth as int]@);
                        assert(rest.drop_first() =~= path_view(path@).skip(depth + 1));
                        let fc = f.children@[pos as int];
                        assert(f.children@ == o.children@.update(pos as int, fc));
                        lemma_child_index_some(o.children@, rest[0]);
                        assert forall|i: int, j: int| 0 <= i < j < f.children@.len() implies #[trigger] f.children@[i].name@
                            != #[trigger] f.children@[j].name@ by {
                            assert(o.children@[i].name@ != o.children@[j].name@);
                        }
                        assert forall|i: int| 0 <= i < f.children@.len() implies wf_node(#[trigger] f.children@[i]) by {
                            if i != pos {
                                assert(f.children@[i] == o.children@[i]);
                            }
                        }
                        lemma_remove_step(o, f, pos as int, rest, *client);
                        lemma_lookup_first(o, rest);
                    }
                    removed
                },
                None => {
                    proof {
                        let o = *old(self);
                        assert(rest[0] == path@[depth as int]@);
                        lemma_lookup_first(o, rest);
                        assert(!node_map(o).contains_key(rest));
                    }
                    false
                },
            }
        }
    }

    /// Takes out the child named `name`, if there is one.
    fn remove_child(&mut self, name: &String) -> (removed: Option<TreeNode<T>>)
        requires
            wf_node(*old(self)),
        ensures
            final(self).name == old(self).name,
            final(self).clients == old(self).clients,
            match child_index(old(self).children@, name@) {
                Some(j) => removed == Some(old(self).children@[j]) && final(self).children@ == old(
                    self,
                ).children@.remove(j),
                None => removed is None && final(self).children@ == old(self).children@,
            },
    {
        match self.child_position(name) {
            Some(i) => Some(self.children.remove(i)),
            None => None,
        }
    }

    /// Takes out the node that `path[depth..]` leads to from this node,
    /// with everything below it, if that node exists.
    fn remove_descendant(&mut self, path: &[String], depth: usize)
        requires
            wf_node(*old(self)),
            depth < path@.len(),
        ensures
            wf_node(*final(self)),
            final(self).name == old(self).name,
            node_map(*final(self)) == spec_remove_subtree(
                node_map(*old(self)),
                path_view(path@).skip(depth as int),
            ),
        decreases path@.len() - depth,
    {
        let ghost rest = path_view(path@).skip(depth as int);
        proof {
            assert(rest[0] == path@[depth as int]@);
            assert(rest.drop_first() =~= path_view(path@).skip(depth + 1));
            lemma_lookup_first(*old(self), rest);
        }
        if depth == path.len() - 1 {
            let _removed = self.remove_child(&path[depth]);
            proof {
                let o = *old(self);
                let f = *self;
                let a = rest[0];
                assert(rest.drop_first().len() == 0);
                let lhs = node_map(f);
                let rhs = spec_remove_subtree(node_map(o), rest);
                match child_index(o.children@, a) {
                    Some(j) => {
                        lemma_child_index_some(o.children@, a);
                        lemma_lookup_after_remove(o, f, j);
                        assert forall|i: int| 0 <= i < f.children@.len() implies wf_node(#[trigger] f.children@[i]) by {
                            if i < j {
                                assert(f.children@[i] == o.children@[i]);
                            } else {
                                assert(f.children@[i] == o.children@[i + 1]);
                            }
                        }
                        assert(lookup(o, rest) == Some(o.children@[j]));
                        assert forall|q: Seq<Seq<char>>| #[trigger] lhs.contains_key(q) == rhs.contains_key(q) && (
                        lhs.contains_key(q) ==> lhs[q] == rhs[q]) by {
                            if q.len() == 0 {
                                assert(lookup(f, q) == Some(f));
                                assert(lookup(o, q) == Some(o));
                                assert(!is_prefix(rest, q));
                            } else {
                                lemma_prefix_first(rest, q);
                                if q[0] == a {
                                    assert(rest.drop_first() =~= q.drop_first().subrange(0, 0));
                                }
                            }
                        }
                    },
                    None => {
                        assert forall|q: Seq<Seq<char>>| #[trigger] lhs.contains_key(q) == rhs.contains_key(q) && (
                        lhs.contains_key(q) ==> lhs[q] == rhs[q]) by {
                            if q.len() == 0 {
                                assert(!is_prefix(rest, q));
                            } else {
                                lemma_prefix_first(rest, q);
                                lemma_lookup_first(o, q);
                            }
                        }
                    },
                }
                assert(lhs =~= rhs);
            }
        } else {
            match self.child_position(&path[depth]) {
                Some(pos) => {
                    self.children[pos].remove_descendant(path, depth + 1);
                    proof {
                        let o = *old(self);
                        let f = *self;
                        let fc = f.children@[pos as int];
                        assert(f.children@ == o.children@.update(pos as int, fc));
                        lemma_child_index_some(o.children@, rest[0]);
                        assert forall|i: int, j: int| 0 <= i < j < f.children@.len() implies #[trigger] f.children@[i].name@
                            != #[trigger] f.children@[j].name@ by {
                            assert(o.children@[i].name@ != o.children@[j].name@);
                        }
                        assert forall|i: int| 0 <= i < f.children@.len() implies wf_node(#[trigger] f.children@[i]) by {
                            if i != pos {
                                assert(f.children@[i] == o.children@[i]);
                            }
                        }
                        lemma_remove_subtree_step(o, f, pos as int, rest);
                    }
                },
                None => {
                    proof {
                        let o = *old(self);
                        let m = node_map(o);
                        assert forall|q: Seq<Seq<char>>| #[trigger] m.contains_key(q) implies !is_prefix(rest, q) by {
                            if is_prefix(rest, q) {
                                lemma_prefix_first(rest, q);
                                lemma_lookup_first(o, q);
                            }
                        }
                        assert(m =~= spec_remove_subtree(m, rest));
                    }
                },
            }
        }
    }
}

/// Taking out a node with no clients and no children below the root takes
/// out its path only.
proof fn lemma_remove_leaf<T>(root: TreeNode<T>, p: Seq<Seq<char>>) where T: PartialEq + Eq + Hash
    requires
        p.len() > 0,
        lookup(root, p) is Some,
        empty_node(lookup(root, p)->Some_0),
    ensures
        node_map(root).contains_key(p),
        node_map(root)[p].is_empty(),
        !has_descendant(node_map(root), p),
        spec_remove_subtree(node_map(root), p) == node_map(root).remove(p),
{
    let m = node_map(root);
    let node = lookup(root, p)->Some_0;
    lemma_children_descendant(root, p);
    assert(node.clients@.to_set() =~= Set::<T>::empty());
    assert forall|q: Seq<Seq<char>>| m.contains_key(q) && is_prefix(p, q) implies q == p by {
        if q.len() > p.len() {
            assert(has_descendant(m, p));
        } else {
            assert(q =~= p);
        }
    }
    assert(p =~= p.subrange(0, p.len() as int));
    assert forall|q: Seq<Seq<char>>| #[trigger] spec_remove_subtree(m, p).contains_key(q) <==> m.remove(p).contains_key(q) by {
        if q == p {
            assert(is_prefix(p, q));
        }
    }
    assert(spec_remove_subtree(m, p) =~= m.remove(p));
}

impl<T> View for TopicTree<T> where T: PartialEq + Eq + Hash {
    type V = Map<Seq<Seq<char>>, Set<T>>;

    /// Each topic path that has a node in the tree, with the clients
    /// subscribed to exactly that path.
    closed spec fn view(&self) -> Map<Seq<Seq<char>>, Set<T>> {
        node_map(self.root)
    }
}

impl<T> TopicTree<T> where T: PartialEq + Eq + Hash {
    /// The tree is well formed: every node lists each client once, sibling
    /// names differ, and the size counts the (path, client) pairs.
    pub closed spec fn wf(&self) -> bool {
        &&& wf_node(self.root)
        &&& subscription_pairs(node_map(self.root)).finite()
        &&& self.size == subscription_pairs(node_map(self.root)).len()
    }

    pub closed spec fn spec_len(&self) -> usize {
        self.size
    }

    /// An empty tree: only the root path, with no clients.
    pub fn new() -> (tree: TopicTree<T>)
        ensures
            tree.wf(),
            tree@ == Map::<Seq<Seq<char>>, Set<T>>::empty().insert(Seq::empty(), Set::empty()),
            tree.len() == 0,
    {
        let root = TreeNode::with_name(String::new());
        proof {
            lemma_empty_node(root);
            assert(root.clients@.to_set() =~= Set::<T>::empty());
            assert forall|q: Seq<Seq<char>>| #[trigger] node_map(root).contains_key(q) <==> q == Seq::<Seq<char>>::empty() by {
                if q.len() == 0 {
                    assert(q =~= Seq::<Seq<char>>::empty());
                }
            }
            assert(lookup(root, Seq::<Seq<char>>::empty()) == Some(root));
            assert(subscription_pairs(node_map(root)) =~= Set::<(Seq<Seq<char>>, T)>::empty());
            assert(node_map(root) =~= Map::<Seq<Seq<char>>, Set<T>>::empty().insert(
                Seq::empty(),
                Set::empty(),
            ));
        }
        TopicTree { root, size: 0 }
    }

    /// The number of (path, client) subscriptions in the tree.
    #[verifier::when_used_as_spec(spec_len)]
    pub fn len(&self) -> (n: usize)
        ensures
            n == self.spec_len(),
    {
        self.size
    }

    /// Subscribes `client` to `path`. Tells whether it was not subscribed
    /// to that path yet; only then does the size grow, by one.
    pub fn insert_client(&mut self, path: &[String], client: T) -> (inserted: bool)
        requires
            old(self).wf(),
            old(self).len() < usize::MAX,
            obeys_concrete_eq::<T>(),
        ensures
            final(self).wf(),
            final(self)@ == spec_insert(old(self)@, path_view(path@), client),
            inserted == !(old(self)@.contains_key(path_view(path@)) && old(
                self,
            )@[path_view(path@)].contains(client)),
            final(self).len() == old(self).len() + if inserted {
                1int
            } else {
                0int
            },
    {
        proof {
            assert(path_view(path@).skip(0) =~= path_view(path@));
        }
        let ghost m = self@;
        let inserted = self.root.insert_at(path, 0, client);
        proof {
            lemma_pairs_insert(m, path_view(path@), client);
        }
        if inserted {
            self.size += 1;
        }
        inserted
    }

    /// Unsubscribes `client` from `path`. Tells whether it was subscribed
    /// there; only then does the size shrink, by one. A node (not the root)
    /// left with no clients and no children is taken out of the tree.
    pub fn remove_client(&mut self, path: &[String], client: &T) -> (removed: bool)
        requires
            old(self).wf(),
            obeys_concrete_eq::<T>(),
        ensures
            final(self).wf(),
            final(self)@ == spec_remove(old(self)@, path_view(path@), *client),
            removed == (old(self)@.contains_key(path_view(path@)) && old(
                self,
            )@[path_view(path@)].contains(*client)),
            final(self).len() == old(self).len() - if removed {
                1int
            } else {
                0int
            },
    {
        proof {
            assert(path_view(path@).skip(0) =~= path_view(path@));
        }
        let ghost m = self@;
        let removed = self.root.remove_at(path, 0, client);
        proof {
            lemma_pairs_remove_client_only(m, path_view(path@), *client);
            if removed {
                assert(subscription_pairs(m).contains((path_view(path@), *client)));
            }
        }
        if removed {
            self.size -= 1;
        }
        let ghost mid = self@;
        self.cleanup(path);
        proof {
            let p = path_view(path@);
            let m = old(self)@;
            assert(mid == spec_remove_client_only(m, p, *client));
            if m.contains_key(p) {
                assert(mid.dom() == m.dom());
                assert(has_descendant(mid, p) == has_descendant(m, p));
            }
        }
        removed
    }

    /// The node that `path` leads to, if there is one.
    fn get_node_at_path(&self, path: &[String]) -> (node: Option<&TreeNode<T>>)
        requires
            self.wf(),
        ensures
            match node {
                Some(n) => lookup(self.root, path_view(path@)) == Some(*n),
                None => lookup(self.root, path_view(path@)) is None,
            },
    {
        let mut current: &TreeNode<T> = &self.root;
        let mut i: usize = 0;
        let n: usize = path.len();
        proof {
            assert(path_view(path@).skip(0) =~= path_view(path@));
        }
        while i < n
            invariant
                n == path@.len(),
                i <= n,
                wf_node(*current),
                lookup(self.root, path_view(path@)) == lookup(*current, path_view(path@).skip(i as int)),
            decreases n - i,
        {
            let ghost rest = path_view(path@).skip(i as int);
            proof {
                assert(rest[0] == path@[i as int]@);
                assert(rest.drop_first() =~= path_view(path@).skip(i + 1));
                lemma_lookup_first(*current, rest);
            }
            match current.get_child(&path[i]) {
                Some(child) => {
                    proof {
                        let j = child_index(current.children@, rest[0])->Some_0;
                        lemma_child_index_some(current.children@, rest[0]);
                        assert(wf_node(current.children@[j]));
                    }
                    current = child;
                },
                None => {
                    return None;
                },
            }
            i = i + 1;
        }
        proof {
            assert(path_view(path@).skip(n as int) =~= Seq::<Seq<char>>::empty());
        }
        Some(current)
    }

    /// The clients subscribed to exactly `path`, if the tree has a node for
    /// it.
    pub fn get_clients_at_path(&self, path: &[String]) -> (clients: Option<&Vec<T>>)
        requires
            self.wf(),
        ensures
            match clients {
                Some(v) => self@.contains_key(path_view(path@)) && v@.to_set() == self@[path_view(
                    path@,
                )] && v@.no_duplicates(),
                None => !self@.contains_key(path_view(path@)),
            },
    {
        match self.get_node_at_path(path) {
            Some(node) => {
                proof {
                    lemma_lookup_wf(self.root, path_view(path@));
                }
                Some(&node.clients)
            },
            None => None,
        }
    }

    /// Takes out the node of `path` when it is not the root and has neither
    /// clients nor children.
    fn cleanup(&mut self, path: &[String])
        requires
            old(self).wf(),
        ensures
            final(self).wf(),
            final(self).size == old(self).size,
            final(self)@ == if path@.len() > 0 && old(self)@.contains_key(path_view(path@)) && old(
                self,
            )@[path_view(path@)].is_empty() && !has_descendant(old(self)@, path_view(path@)) {
                old(self)@.remove(path_view(path@))
            } else {
                old(self)@
            },
    {
        let ghost p = path_view(path@);
        if path.len() == 0 {
            // the root node stays
            return;
        }
        let removable = match self.get_node_at_path(path) {
            Some(node) => {
                proof {
                    lemma_children_descendant(self.root, p);
                    if node.clients@.len() > 0 {
                        assert(node.clients@.to_set().contains(node.clients@[0]));
                    } else {
                        assert(node.clients@.to_set() =~= Set::<T>::empty());
                    }
                }
                node.clients.is_empty() && node.children.is_empty()
            },
            None => false,
        };
        if removable {
            let ghost m = self@;
            proof {
                lemma_remove_leaf(self.root, p);
                assert forall|q: Seq<Seq<char>>| m.contains_key(q) && is_prefix(p, q) implies m[q].is_empty() by {
                    if q != p {
                        assert(!spec_remove_subtree(m, p).contains_key(q));
                        assert(!m.remove(p).contains_key(q));
                    }
                }
            }
            self.remove_node(path);
        }
    }

    /// Takes out the node of `path`, with everything below it; the root
    /// stays. The size is left as it is, so the tree stays well formed
    /// exactly when the subtree held no subscriptions.
    fn remove_node(&mut self, path: &[String])
        requires
            wf_node(old(self).root),
            subscription_pairs(old(self)@).finite(),
        ensures
            wf_node(final(self).root),
            subscription_pairs(final(self)@).finite(),
            final(self).size == old(self).size,
            path@.len() > 0 ==> final(self)@ == spec_remove_subtree(old(self)@, path_view(path@)),
            path@.len() == 0 ==> final(self)@ == old(self)@,
            (path@.len() == 0 || forall|q: Seq<Seq<char>>|
                old(self)@.contains_key(q) && is_prefix(path_view(path@), q) ==> old(self)@[q].is_empty())
                ==> subscription_pairs(final(self)@) == subscription_pairs(old(self)@),
    {
        if path.len() == 0 {
            // the root node stays
            return;
        }
        proof {
            assert(path_view(path@).skip(0) =~= path_view(path@));
        }
        let ghost m = self@;
        let ghost p = path_view(path@);
        self.root.remove_descendant(path, 0);
        proof {
            let m2 = spec_remove_subtree(m, p);
            assert(subscription_pairs(m2).subset_of(subscription_pairs(m)));
            vstd::set_lib::lemma_set_subset_finite(subscription_pairs(m), subscription_pairs(m2));
            if forall|q: Seq<Seq<char>>| m.contains_key(q) && is_prefix(p, q) ==> m[q].is_empty() {
                assert forall|pc: (Seq<Seq<char>>, T)| subscription_pairs(m).contains(pc) implies subscription_pairs(m2).contains(pc) by {
                    if is_prefix(p, pc.0) {
                        assert(m[pc.0].is_empty());
                        assert(m[pc.0].contains(pc.1));
                    }
                }
                assert(subscription_pairs(m2) =~= subscription_pairs(m));
            }
        }
    }
}

impl<T> Default for TopicTree<T> where T: PartialEq + Eq + Hash {
    fn default() -> (tree: Self)
        ensures
            tree.wf(),
            tree@ == Map::<Seq<Seq<char>>, Set<T>>::empty().insert(Seq::empty(), Set::empty()),
            tree.len() == 0,
    {
        TopicTree::new()
    }
}

/// Every prefix of a path that leads to a node leads to a node.
proof fn lemma_lookup_prefix_closed<T>(node: TreeNode<T>, r: Seq<Seq<char>>, q: Seq<Seq<char>>) where
    T: PartialEq + Eq + Hash,

    requires
        lookup(node, q) is Some,
        is_prefix(r, q),
    ensures
        lookup(node, r) is Some,
    decreases r.len(),
{
    if r.len() > 0 {
        lemma_prefix_first(r, q);
        let j = child_index(node.children@, q[0])->Some_0;
        lemma_lookup_prefix_closed(node.children@[j], r.drop_first(), q.drop_first());
    }
}

/// The root path is always in the tree, and with every path the tree holds
/// all its prefixes.
pub proof fn lemma_paths_prefix_closed<T>(t: TopicTree<T>, q: Seq<Seq<char>>, r: Seq<Seq<char>>) where
    T: PartialEq + Eq + Hash,

    requires
        t.wf(),
    ensures
        t@.contains_key(Seq::empty()),
        t@.contains_key(q) && is_prefix(r, q) ==> t@.contains_key(r),
{
    assert(lookup(t.root, Seq::<Seq<char>>::empty()) is Some);
    if t@.contains_key(q) && is_prefix(r, q) {
        lemma_lookup_prefix_closed(t.root, r, q);
    }
}

/// The size of a tree is the number of (path, client) subscriptions it
/// records.
pub proof fn lemma_len_counts_subscriptions<T>(t: TopicTree<T>) where T: PartialEq + Eq + Hash
    requires
        t.wf(),
    ensures
        subscription_pairs(t@).finite(),
        t.len() == subscription_pairs(t@).len(),
{
}

/// After a client subscribes to a path, it is subscribed to that path.
pub proof fn lemma_subscribed_after_insert<T>(t: TopicTree<T>, p: Seq<Seq<char>>, c: T) where
    T: PartialEq + Eq + Hash,

    ensures
        spec_insert(t@, p, c).contains_key(p),
        spec_insert(t@, p, c)[p].contains(c),
{
    assert(p =~= p.subrange(0, p.len() as int));
}

/// After a client unsubscribes from a path, it is not subscribed to that
/// path.
pub proof fn lemma_unsubscribed_after_remove<T>(t: TopicTree<T>, p: Seq<Seq<char>>, c: T) where
    T: PartialEq + Eq + Hash,

    ensures
        !(spec_remove(t@, p, c).contains_key(p) && spec_remove(t@, p, c)[p].contains(c)),
{
}

/// Subscribing a client a second time to the same path changes nothing: the
/// client is already there, so the second subscription is no new one.
pub proof fn lemma_insert_idempotent<T>(t: TopicTree<T>, p: Seq<Seq<char>>, c: T) where
    T: PartialEq + Eq + Hash,

    ensures
        spec_insert(t@, p, c).contains_key(p) && spec_insert(t@, p, c)[p].contains(c),
        spec_insert(spec_insert(t@, p, c), p, c) == spec_insert(t@, p, c),
{
    let m1 = spec_insert(t@, p, c);
    let m2 = spec_insert(m1, p, c);
    assert(p =~= p.subrange(0, p.len() as int));
    assert forall|q: Seq<Seq<char>>| #[trigger] m2.contains_key(q) == m1.contains_key(q) && (m2.contains_key(q) ==> m2[q] == m1[q]) by {
        if q == p {
            assert(m1[q].insert(c) =~= m1[q]);
        }
    }
    assert(m2 =~= m1);
}

/// Subscribing and unsubscribing a client changes the subscriptions of no
/// other path.
pub proof fn lemma_other_paths_unchanged<T>(t: TopicTree<T>, p: Seq<Seq<char>>, q: Seq<Seq<char>>, c: T) where
    T: PartialEq + Eq + Hash,

    requires
        t@.contains_key(q),
        q != p,
    ensures
        spec_insert(t@, p, c).contains_key(q),
        spec_insert(t@, p, c)[q] == t@[q],
        spec_remove(t@, p, c).contains_key(q),
        spec_remove(t@, p, c)[q] == t@[q],
{
}

/// Unsubscribing a client right after subscribing it (when it was not yet
/// subscribed) restores the subscriptions, provided the path already had a
/// node that does not get pruned afterwards: the root, a node with other
/// clients, or a node with paths below it.
pub proof fn lemma_remove_undoes_insert<T>(t: TopicTree<T>, p: Seq<Seq<char>>, c: T) where
    T: PartialEq + Eq + Hash,

    requires
        t.wf(),
        t@.contains_key(p),
        !t@[p].contains(c),
        p.len() == 0 || !t@[p].is_empty() || has_descendant(t@, p),
    ensures
        spec_remove(spec_insert(t@, p, c), p, c) == t@,
{
    let m = t@;
    let m1 = spec_insert(m, p, c);
    assert forall|q: Seq<Seq<char>>| #[trigger] m1.contains_key(q) == m.contains_key(q) by {
        if is_prefix(q, p) {
            lemma_paths_prefix_closed(t, p, q);
        }
    }
    assert(has_descendant(m1, p) == has_descendant(m, p)) by {
        if has_descendant(m1, p) {
            let q = choose|q: Seq<Seq<char>>| #[trigger] m1.contains_key(q) && p.len() < q.len() && is_prefix(p, q);
            assert(m.contains_key(q));
        }
        if has_descendant(m, p) {
            let q = choose|q: Seq<Seq<char>>| #[trigger] m.contains_key(q) && p.len() < q.len() && is_prefix(p, q);
            assert(m1.contains_key(q));
        }
    }
    assert(m1[p].remove(c) =~= m[p]);
    let m2 = spec_remove(m1, p, c);
    assert(m2 == m1.insert(p, m[p]));
    assert forall|q: Seq<Seq<char>>| #[trigger] m2.contains_key(q) == m.contains_key(q) && (m2.contains_key(q) ==> m2[q] == m[q]) by {}
    assert(m2 =~= m);
}

/// Unsubscribing takes away exactly the one (path, client) pair.
pub proof fn lemma_pairs_after_remove<T>(m: Map<Seq<Seq<char>>, Set<T>>, p: Seq<Seq<char>>, c: T)
    ensures
        subscription_pairs(spec_remove(m, p, c)) == subscription_pairs(m).remove((p, c)),
{
    if !m.contains_key(p) {
        assert(subscription_pairs(m).remove((p, c)) =~= subscription_pairs(m));
    } else if p.len() > 0 && m[p].remove(c).is_empty() && !has_descendant(m, p) {
        assert forall|pc: (Seq<Seq<char>>, T)| #[trigger] subscription_pairs(m).remove((p, c)).contains(pc) implies subscription_pairs(m.remove(p)).contains(pc) by {
            if pc.0 == p {
                assert(m[p].remove(c).contains(pc.1));
            }
        }
        assert(subscription_pairs(m.remove(p)) =~= subscription_pairs(m).remove((p, c)));
    } else {
        lemma_pairs_remove_client_only(m, p, c);
    }
}

/// Subscribing a client to a path it is not subscribed to and then
/// unsubscribing it leaves the same (path, client) pairs, and so a tree of
/// the same size.
pub proof fn lemma_unsubscribe_undoes_subscribe<T>(t: TopicTree<T>, p: Seq<Seq<char>>, c: T) where
    T: PartialEq + Eq + Hash,

    requires
        !subscription_pairs(t@).contains((p, c)),
    ensures
        subscription_pairs(spec_remove(spec_insert(t@, p, c), p, c)) == subscription_pairs(t@),
{
    lemma_pairs_insert(t@, p, c);
    lemma_pairs_after_remove(spec_insert(t@, p, c), p, c);
    assert(subscription_pairs(t@).insert((p, c)).remove((p, c)) =~= subscription_pairs(t@));
}

} // verus!
