use vstd::prelude::*;
use crate::art::Art;
use crate::key::ArtKey;
use crate::node::{
    count_mapped, count_some, lemma_get_inner, lemma_witness, strictly_sorted, Node,
    N48_ABSENT,
};

verus! {

/// The map after inserting the pairs of `s` into `m`, first to last.
pub open spec fn inserted<T>(m: Map<Seq<u8>, T>, s: Seq<(Seq<u8>, T)>) -> Map<Seq<u8>, T>
    decreases s.len(),
{
    if s.len() == 0 {
        m
    } else {
        inserted(m, s.drop_last()).insert(s.last().0, s.last().1)
    }
}

/// No two pairs of `s` have the same key.
pub open spec fn distinct_keys<T>(s: Seq<(Seq<u8>, T)>) -> bool {
    forall|i: int, j: int| 0 <= i < j < s.len() ==> s[i].0 != s[j].0
}

/// Every inner node has at least two children and at most its capacity, and exactly
/// `count` of its child slots are taken.
pub proof fn lemma_child_counts<T>(node: Node<T>, d: nat)
    requires
        node.wf(d),
        !node.is_leaf(),
    ensures
        2 <= node.info().count <= node.capacity(),
        match node {
            Node::N4(n) => n.children@.len() == n.info.count,
            Node::N16(n) => n.children@.len() == n.info.count,
            Node::N48(n) => count_some(n.children@) == n.info.count,
            Node::N256(n) => count_some(n.children@) == n.info.count,
            Node::Leaf(_) => true,
        },
{
}

/// The key bytes of a 4-way or 16-way node are strictly ascending, paired with the
/// children in order.
pub proof fn lemma_sorted_keys<T>(node: Node<T>, d: nat)
    requires
        node.wf(d),
    ensures
        match node {
            Node::N4(n) => strictly_sorted(n.key@) && n.key@.len() == n.children@.len() && forall|
                i: int,
            |
                0 <= i < n.key@.len() ==> node.child_at(#[trigger] n.key@[i]) == Some(n.children@[i]),
            Node::N16(n) => strictly_sorted(n.key@) && n.key@.len() == n.children@.len() && forall|
                i: int,
            |
                0 <= i < n.key@.len() ==> node.child_at(#[trigger] n.key@[i]) == Some(n.children@[i]),
            _ => true,
        },
{
    match node {
        Node::N4(n) => crate::inner::lemma_sorted_child(n.key@, n.children@),
        Node::N16(n) => crate::inner::lemma_sorted_child(n.key@, n.children@),
        _ => {},
    }
}

/// In a 48-way node a byte has an entry exactly when its slot holds a child, no two bytes
/// share a slot, and `count` bytes have entries.
pub proof fn lemma_table_entries<T>(node: Node<T>, d: nat)
    requires
        node.wf(d),
    ensures
        match node {
            Node::N48(n) => {
                &&& forall|b: int|
                    0 <= b < 256 ==> (#[trigger] n.key@[b] != N48_ABSENT <==> (n.key@[b] < 48
                        && n.children@[n.key@[b] as int] is Some))
                &&& forall|b1: int, b2: int|
                    0 <= b1 < 256 && 0 <= b2 < 256 && b1 != b2 && #[trigger] n.key@[b1]
                        != N48_ABSENT ==> n.key@[b1] != #[trigger] n.key@[b2]
                &&& count_mapped(n.key@) == n.info.count
            },
            _ => true,
        },
{
}

/// All keys below an inner node run through its whole compressed path, and go on past it.
pub proof fn lemma_keys_share_path<T>(node: Node<T>, d: nat, k1: Seq<u8>, k2: Seq<u8>)
    requires
        node.wf(d),
        !node.is_leaf(),
        node.get(k1, d) is Some,
        node.get(k2, d) is Some,
    ensures
        k1.len() > d + node.plen(),
        k2.len() > d + node.plen(),
        k1.subrange(d as int, (d + node.plen()) as int) == k2.subrange(d as int, (d + node.plen()) as int),
        k1.subrange(d as int, (d + node.plen()) as int) == node.prefix(),
{
    lemma_get_inner(node, k1, d);
    lemma_get_inner(node, k2, d);
}

/// A tree that holds no key has no node.
pub proof fn lemma_empty_tree_has_no_nodes<K: ArtKey, T>(t: Art<K, T>)
    requires
        t.wf(),
        t.view() == Map::<Seq<u8>, T>::empty(),
    ensures
        t.node_count() == 0,
{
    if t.root_node() is Some {
        let k = lemma_witness(t.root_node()->Some_0, 0);
        assert(t.view().contains_key(k));
    }
}

/// After pairs with distinct keys are inserted, each key maps to its value, and every other
/// key keeps what it had.
pub proof fn lemma_inserted<T>(m: Map<Seq<u8>, T>, s: Seq<(Seq<u8>, T)>)
    requires
        distinct_keys(s),
    ensures
        forall|i: int|
            0 <= i < s.len() ==> #[trigger] inserted(m, s).contains_key(s[i].0) && inserted(m, s)[s[i].0]
                == s[i].1,
        forall|k: Seq<u8>|
            (forall|i: int| 0 <= i < s.len() ==> s[i].0 != k) ==> (#[trigger] inserted(
                m,
                s,
            ).contains_key(k) == m.contains_key(k) && (m.contains_key(k) ==> inserted(m, s)[k]
                == m[k])),
    decreases s.len(),
{
    if s.len() > 0 {
        let t = s.drop_last();
        lemma_inserted(m, t);
        assert forall|i: int| 0 <= i < s.len() implies #[trigger] inserted(m, s).contains_key(
            s[i].0,
        ) && inserted(m, s)[s[i].0] == s[i].1 by {
            if i < s.len() - 1 {
                assert(t[i] == s[i]);
                assert(inserted(m, t).contains_key(t[i].0) && inserted(m, t)[t[i].0] == t[i].1);
                assert(s[i].0 != s[s.len() - 1].0);
            }
        }
        assert forall|k: Seq<u8>|
            (forall|i: int| 0 <= i < s.len() ==> s[i].0 != k) implies (#[trigger] inserted(
            m,
            s,
        ).contains_key(k) == m.contains_key(k) && (m.contains_key(k) ==> inserted(m, s)[k]
            == m[k])) by {
            assert(s[s.len() - 1].0 != k);
            assert forall|i: int| 0 <= i < t.len() implies t[i].0 != k by {
                assert(t[i] == s[i]);
            }
            assert(inserted(m, t).contains_key(k) == m.contains_key(k));
        }
    }
}

/// Insert-find round trip: once pairs with distinct keys are inserted, a lookup of each
/// key finds its value.
pub proof fn lemma_round_trip<T>(m: Map<Seq<u8>, T>, s: Seq<(Seq<u8>, T)>, i: int)
    requires
        distinct_keys(s),
        0 <= i < s.len(),
    ensures
        inserted(m, s).contains_key(s[i].0),
        inserted(m, s)[s[i].0] == s[i].1,
{
    lemma_inserted(m, s);
}

/// Insert-find round trip on trees: `ts[i + 1]` is `ts[i]` after the insert of pair `i`,
/// as `Art::insert` states it, starting from an empty tree. The last tree holds each pair,
/// so `Art::find` returns each value.
pub proof fn lemma_tree_round_trip<K: ArtKey, T>(
    ts: Seq<Art<K, T>>,
    s: Seq<(Seq<u8>, T)>,
    i: int,
)
    requires
        ts.len() == s.len() + 1,
        ts[0].view() == Map::<Seq<u8>, T>::empty(),
        forall|j: int| 0 <= j < s.len() ==> #[trigger] ts[j + 1].view() == ts[j].view().insert(s[j].0, s[j].1),
        distinct_keys(s),
        0 <= i < s.len(),
    ensures
        ts.last().view().contains_key(s[i].0),
        ts.last().view()[s[i].0] == s[i].1,
{
    lemma_trees_follow_inserts(ts, s, s.len() as int);
    assert(s.take(s.len() as int) =~= s);
    lemma_inserted(Map::<Seq<u8>, T>::empty(), s);
}

proof fn lemma_trees_follow_inserts<K: ArtKey, T>(ts: Seq<Art<K, T>>, s: Seq<(Seq<u8>, T)>, n: int)
    requires
        ts.len() == s.len() + 1,
        forall|j: int| 0 <= j < s.len() ==> #[trigger] ts[j + 1].view() == ts[j].view().insert(s[j].0, s[j].1),
        0 <= n <= s.len(),
    ensures
        ts[n].view() == inserted(ts[0].view(), s.take(n)),
    decreases n,
{
    if n > 0 {
        lemma_trees_follow_inserts(ts, s, n - 1);
        assert(s.take(n).drop_last() =~= s.take(n - 1));
        assert(ts[(n - 1) + 1].view() == ts[n - 1].view().insert(s[n - 1].0, s[n - 1].1));
    } else {
        assert(s.take(0).len() == 0);
    }
}

/// Overwrite on trees: after two inserts of `k`, as `Art::insert` states them, `Art::find`
/// returns the second value.
pub proof fn lemma_tree_overwrite<K: ArtKey, T>(
    t0: Art<K, T>,
    t1: Art<K, T>,
    t2: Art<K, T>,
    k: Seq<u8>,
    v1: T,
    v2: T,
)
    requires
        t1.view() == t0.view().insert(k, v1),
        t2.view() == t1.view().insert(k, v2),
    ensures
        t2.view() == t0.view().insert(k, v2),
        t2.view().contains_key(k),
        t2.view()[k] == v2,
{
    lemma_overwrite(t0.view(), k, v1, v2);
}

/// Overwrite: the second insert of a key wins.
pub proof fn lemma_overwrite<T>(m: Map<Seq<u8>, T>, k: Seq<u8>, v1: T, v2: T)
    ensures
        m.insert(k, v1).insert(k, v2) == m.insert(k, v2),
        m.insert(k, v1).insert(k, v2)[k] == v2,
{
    assert(m.insert(k, v1).insert(k, v2) =~= m.insert(k, v2));
}

/// Insert-delete idempotence: `t1` is `t0` after an insert of a new key `k`, as
/// `Art::insert` states it, and `t2` is `t1` after a delete of `k`, as `Art::delete` states
/// it; then `t2` holds the keys, values and number of nodes of `t0`.
pub proof fn lemma_insert_then_delete<K: ArtKey, T>(
    t0: Art<K, T>,
    t1: Art<K, T>,
    t2: Art<K, T>,
    k: Seq<u8>,
    v: T,
)
    requires
        !t0.view().contains_key(k),
        t1.view() == t0.view().insert(k, v),
        t1.node_count() == t0.node_count() + t1.nodes_for(k),
        t2.view() == t1.view().remove(k),
        t2.node_count() + t1.nodes_for(k) == t1.node_count(),
    ensures
        t2.view() == t0.view(),
        t2.node_count() == t0.node_count(),
{
    assert(t0.view().insert(k, v).remove(k) =~= t0.view());
}

/// Order independence: pairs with distinct keys give the same map whatever the order in
/// which they are inserted.
pub proof fn lemma_order_independent<T>(
    m: Map<Seq<u8>, T>,
    s1: Seq<(Seq<u8>, T)>,
    s2: Seq<(Seq<u8>, T)>,
)
    requires
        distinct_keys(s1),
        distinct_keys(s2),
        s1.to_multiset() == s2.to_multiset(),
    ensures
        inserted(m, s1) == inserted(m, s2),
{
    lemma_inserted(m, s1);
    lemma_inserted(m, s2);
    assert forall|p: (Seq<u8>, T)| s1.contains(p) <==> s2.contains(p) by {
        s1.to_multiset_ensures();
        s2.to_multiset_ensures();
        assert(s1.to_multiset().count(p) == s2.to_multiset().count(p));
        assert(s1.contains(p) <==> s1.to_multiset().count(p) > 0);
        assert(s2.contains(p) <==> s2.to_multiset().count(p) > 0);
    }
    assert forall|k: Seq<u8>| #[trigger] inserted(m, s1).contains_key(k) == inserted(m, s2).contains_key(k)
        && (inserted(m, s1).contains_key(k) ==> inserted(m, s1)[k] == inserted(m, s2)[k]) by {
        if exists|i: int| 0 <= i < s1.len() && s1[i].0 == k {
            let i = choose|i: int| 0 <= i < s1.len() && s1[i].0 == k;
            assert(s1.contains(s1[i]));
            assert(s2.contains(s1[i]));
            let j = choose|j: int| 0 <= j < s2.len() && s2[j] == s1[i];
            assert(inserted(m, s1).contains_key(s1[i].0));
            assert(inserted(m, s2).contains_key(s2[j].0));
            assert(inserted(m, s2)[s2[j].0] == s2[j].1);
        } else if exists|j: int| 0 <= j < s2.len() && s2[j].0 == k {
            let j = choose|j: int| 0 <= j < s2.len() && s2[j].0 == k;
            assert(s2.contains(s2[j]));
            assert(s1.contains(s2[j]));
            let i = choose|i: int| 0 <= i < s1.len() && s1[i] == s2[j];
            assert(s1[i].0 == k);
        } else {
            assert(inserted(m, s1).contains_key(k) == m.contains_key(k));
            assert(inserted(m, s2).contains_key(k) == m.contains_key(k));
        }
    }
    assert(inserted(m, s1) =~= inserted(m, s2));
}

} // verus!
