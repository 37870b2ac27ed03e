use vstd::prelude::*;
use crate::delete::delete_rec;
use crate::insert::insert_rec;
use crate::key::ArtKey;
use crate::node::{bytes_equal, prefix_free_pair, search, LeafNode, Node};

verus! {

/// Number of nodes in the subtree of `node`, saturated at `usize::MAX`.
fn count_nodes<T>(node: &Node<T>, Ghost(d): Ghost<nat>) -> (r: usize)
    requires
        node.wf(d),
    ensures
        r as nat == if node.size() < usize::MAX {
            node.size()
        } else {
            usize::MAX as nat
        },
    decreases node,
{
    if node.is_leaf_node() {
        return 1;
    }
    let mut total: usize = 1;
    let mut b: usize = 0;
    while b < 256
        invariant
            !node.is_leaf(),
            node.wf(d),
            b <= 256,
            total as nat == if 1 + node.children_size(b as int) < usize::MAX {
                1 + node.children_size(b as int)
            } else {
                usize::MAX as nat
            },
        decreases 256 - b,
    {
        match node.find_child(b as u8) {
            Some(c) => {
                proof {
                    node.lemma_child_decreases(b as u8);
                }
                let s = count_nodes(c, Ghost(d + node.plen() + 1));
                total = total.saturating_add(s);
            },
            None => {},
        }
        b = b + 1;
    }
    total
}

/// A key can join the stored keys: it has a byte, and no stored key is a proper prefix of
/// it or the other way round.
pub open spec fn key_fits<T>(m: Map<Seq<u8>, T>, key: Seq<u8>) -> bool {
    &&& key.len() >= 1
    &&& forall|k: Seq<u8>| #[trigger] m.contains_key(k) ==> prefix_free_pair(k, key)
}

/// Keys of one width always fit: none is a proper prefix of another.
pub proof fn lemma_same_width_fits<T>(m: Map<Seq<u8>, T>, key: Seq<u8>)
    requires
        key.len() >= 1,
        forall|k: Seq<u8>| #[trigger] m.contains_key(k) ==> k.len() == key.len(),
    ensures
        key_fits(m, key),
{
    assert forall|k: Seq<u8>| #[trigger] m.contains_key(k) implies prefix_free_pair(k, key) by {
        assert(k.take(k.len() as int) =~= k);
        assert(key.take(key.len() as int) =~= key);
    }
}

/// An adaptive radix tree mapping keys of type `K`, by their bytes, to values of type `T`.
pub struct Art<K, T> {
    root: Option<Node<T>>,
    key: std::marker::PhantomData<K>,
}

impl<K: ArtKey, T> Art<K, T> {
    /// The root node, if the tree holds a key.
    pub closed spec fn root_node(&self) -> Option<Node<T>> {
        self.root
    }

    /// Every node below the root is well formed.
    pub open spec fn wf(&self) -> bool {
        match self.root_node() {
            Some(n) => n.wf(0),
            None => true,
        }
    }

    /// The stored keys, as byte strings, with their values.
    pub open spec fn view(&self) -> Map<Seq<u8>, T> {
        Map::new(
            |k: Seq<u8>| self.root_node() is Some && self.root_node()->Some_0.get(k, 0) is Some,
            |k: Seq<u8>| self.root_node()->Some_0.get(k, 0)->Some_0,
        )
    }

    /// Number of live nodes, inner nodes and leaves.
    pub open spec fn node_count(&self) -> nat {
        match self.root_node() {
            Some(n) => n.size(),
            None => 0,
        }
    }

    /// Number of children of the inner node whose slot holds the leaf of `k`; 0 when that
    /// leaf is the root or there is none.
    pub open spec fn holder_count(&self, k: Seq<u8>) -> nat {
        match self.root_node() {
            Some(n) => n.holder_count(k, 0),
            None => 0,
        }
    }

    /// Nodes that an insert of a new key adds, and a delete of it removes: its leaf, and the
    /// 4-way node that holds it when that node has just the one other child.
    pub open spec fn nodes_for(&self, k: Seq<u8>) -> nat {
        if self.holder_count(k) == 2 {
            2
        } else {
            1
        }
    }

    /// An empty tree.
    pub fn new() -> (r: Self)
        ensures
            r.wf(),
            r.view() == Map::<Seq<u8>, T>::empty(),
            r.node_count() == 0,
    {
        let r = Art { root: None, key: std::marker::PhantomData };
        proof {
            assert(r.view() =~= Map::<Seq<u8>, T>::empty());
        }
        r
    }

    /// Stores `value` under `key`, replacing the value that `key` had.
    pub fn insert(&mut self, key: K, value: T)
        requires
            old(self).wf(),
            key_fits(old(self).view(), key.key_bytes()),
        ensures
            final(self).wf(),
            final(self).view() == old(self).view().insert(key.key_bytes(), value),
            !old(self).view().contains_key(key.key_bytes()) ==> final(self).node_count()
                == old(self).node_count() + final(self).nodes_for(key.key_bytes()),
            old(self).view().contains_key(key.key_bytes()) ==> final(self).node_count() == old(
                self,
            ).node_count(),
    {
        let ghost old_view = self.view();
        let kb = key.bytes();
        if self.root.is_none() {
            self.root = Some(Node::Leaf(LeafNode::new(value, kb.as_slice())));
            proof {
                assert(self.view() =~= old_view.insert(kb@, value));
            }
            return;
        }
        let ghost old_root = self.root->Some_0;
        proof {
            assert forall|k: Seq<u8>| #[trigger] old_root.get(k, 0) is Some implies prefix_free_pair(k, kb@) by {
                assert(old_view.contains_key(k));
            }
            assert forall|k: Seq<u8>| #[trigger] old_root.get(k, 0) is Some implies k.len() >= 0 && k.take(0) == kb@.take(0) by {
                assert(k.take(0) =~= kb@.take(0));
            }
        }
        let root = self.root.as_mut().unwrap();
        insert_rec(root, &kb, 0, value);
        proof {
            assert(self.view() =~= old_view.insert(kb@, value));
        }
    }

    /// The value stored under `key`, if any: the search checks the stored part of each
    /// compressed path and compares the whole key at the leaf.
    pub fn find(&self, key: K) -> (r: Option<&T>)
        requires
            self.wf(),
        ensures
            r is Some == self.view().contains_key(key.key_bytes()),
            r is Some ==> *r->Some_0 == self.view()[key.key_bytes()],
    {
        let kb = key.bytes();
        match &self.root {
            None => None,
            Some(n) => search(n, &kb, 0),
        }
    }

    /// Removes `key` and its value; a lookup first finds whether `key` is there, and when it
    /// is absent the tree is left as it was.
    pub fn delete(&mut self, key: K)
        requires
            old(self).wf(),
        ensures
            final(self).wf(),
            final(self).view() == old(self).view().remove(key.key_bytes()),
            old(self).view().contains_key(key.key_bytes()) ==> final(self).node_count()
                + old(self).nodes_for(key.key_bytes()) == old(self).node_count(),
            !old(self).view().contains_key(key.key_bytes()) ==> *final(self) == *old(self),
    {
        let ghost old_view = self.view();
        let kb = key.bytes();
        let present = match &self.root {
            None => false,
            Some(n) => search(n, &kb, 0).is_some(),
        };
        if !present {
            proof {
                assert(self.view() =~= old_view.remove(kb@));
            }
            return;
        }
        let root_is_leaf = match &self.root {
            Some(Node::Leaf(l)) => Some(bytes_equal(&l.key, &kb)),
            _ => None,
        };
        match root_is_leaf {
            Some(true) => {
                self.root = None;
            },
            Some(false) => {},
            None => {
                let root = self.root.as_mut().unwrap();
                delete_rec(root, &kb, 0);
            },
        }
        proof {
            assert(self.view() =~= old_view.remove(kb@));
        }
    }

    /// The capacity and the number of children of the root, when it is an inner node.
    pub fn root_layout(&self) -> (r: Option<(usize, usize)>)
        requires
            self.wf(),
        ensures
            r is Some <==> (self.root_node() is Some && !self.root_node()->Some_0.is_leaf()),
            r is Some ==> r->Some_0.0 == self.root_node()->Some_0.capacity() && r->Some_0.1
                == self.root_node()->Some_0.info().count,
    {
        match &self.root {
            None => None,
            Some(Node::Leaf(_)) => None,
            Some(Node::N4(n)) => Some((4, n.info.count)),
            Some(Node::N16(n)) => Some((16, n.info.count)),
            Some(Node::N48(n)) => Some((48, n.info.count)),
            Some(Node::N256(n)) => Some((256, n.info.count)),
        }
    }

    /// Number of live nodes, inner nodes and leaves, saturated at `usize::MAX`.
    pub fn bfs_count(&self) -> (r: usize)
        requires
            self.wf(),
        ensures
            r as nat == if self.node_count() < usize::MAX {
                self.node_count()
            } else {
                usize::MAX as nat
            },
    {
        match &self.root {
            None => 0,
            Some(n) => count_nodes(n, Ghost(0)),
        }
    }
}

} // verus!
