use vstd::prelude::*;
use crate::counting::{
    lemma_count_mapped_absent, lemma_count_mapped_bounds, lemma_count_mapped_update,
    lemma_count_some_bounds, lemma_count_some_mapped, lemma_count_some_none, lemma_count_some_refill,
    lemma_count_some_take,
    lemma_count_some_update,
};
use crate::node::{
    common_prefix, count_mapped, count_some, info_wf, lemma_get_inner, same_path, sorted_child,
    strictly_sorted, Info, Node, Node16, Node256, Node4, Node48, MAX_PREFIX_LEN,
    N48_ABSENT, first_free,
};

verus! {

pub proof fn lemma_sorted_child<T>(keys: Seq<u8>, children: Seq<Node<T>>)
    requires
        keys.len() == children.len(),
        strictly_sorted(keys),
    ensures
        forall|i: int|
            0 <= i < keys.len() ==> #[trigger] sorted_child(keys, children, keys[i]) == Some(
                children[i],
            ),
        forall|b: u8|
            (forall|i: int| 0 <= i < keys.len() ==> keys[i] != b) ==> #[trigger] sorted_child(
                keys,
                children,
                b,
            ) is None,
{
    assert forall|i: int| 0 <= i < keys.len() implies #[trigger] sorted_child(
        keys,
        children,
        keys[i],
    ) == Some(children[i]) by {
        let b = keys[i];
        assert(0 <= i < keys.len() && i < children.len() && keys[i] == b);
        let j = choose|j: int| 0 <= j < keys.len() && j < children.len() && keys[j] == b;
        if j < i {
            assert(keys[j] < keys[i]);
        } else if j > i {
            assert(keys[i] < keys[j]);
        }
    }
}

/// Inserts byte `b` with child `c` into parallel sorted arrays, keeping them sorted.
fn sorted_insert<T>(keys: &mut Vec<u8>, children: &mut Vec<Node<T>>, b: u8, c: Node<T>)
    requires
        old(keys)@.len() == old(children)@.len(),
        old(keys)@.len() < 16,
        strictly_sorted(old(keys)@),
        sorted_child(old(keys)@, old(children)@, b) is None,
    ensures
        final(keys)@.len() == old(keys)@.len() + 1,
        final(children)@.len() == final(keys)@.len(),
        strictly_sorted(final(keys)@),
        forall|x: u8|
            #[trigger] sorted_child(final(keys)@, final(children)@, x) == if x == b {
                Some(c)
            } else {
                sorted_child(old(keys)@, old(children)@, x)
            },
{
    let ghost ok = keys@;
    let ghost oc = children@;
    proof {
        lemma_sorted_child(ok, oc);
        assert forall|i: int| 0 <= i < ok.len() implies ok[i] != b by {
            if ok[i] == b {
                assert(sorted_child(ok, oc, ok[i]) is Some);
            }
        }
    }
    let mut pos: usize = 0;
    while pos < keys.len() && keys[pos] < b
        invariant
            keys@ == ok,
            pos <= ok.len(),
            forall|i: int| 0 <= i < pos ==> ok[i] < b,
        decreases ok.len() - pos,
    {
        pos = pos + 1;
    }
    keys.insert(pos, b);
    children.insert(pos, c);
    proof {
        let nk = keys@;
        let nc = children@;
        assert forall|i: int, j: int| 0 <= i < j < nk.len() implies nk[i] < nk[j] by {
            if j < pos {
            } else if j == pos {
            } else if i < pos {
                assert(ok[i] < b);
                assert(b < ok[pos as int] || pos == ok.len());
                if pos < ok.len() {
                    assert(ok[i] < ok[j - 1] || i == j - 1);
                }
            } else if i == pos {
                assert(ok[pos as int] <= ok[j - 1]);
            } else {
            }
        }
        lemma_sorted_child(nk, nc);
        assert forall|x: u8| #[trigger] sorted_child(nk, nc, x) == if x == b {
            Some(c)
        } else {
            sorted_child(ok, oc, x)
        } by {
            if x == b {
                assert(nk[pos as int] == b);
            } else if exists|i: int| 0 <= i < ok.len() && ok[i] == x {
                let i = choose|i: int| 0 <= i < ok.len() && ok[i] == x;
                if i < pos {
                    assert(nk[i] == x);
                    assert(nc[i] == oc[i]);
                } else {
                    assert(nk[i + 1] == x);
                    assert(nc[i + 1] == oc[i]);
                }
            } else {
                assert forall|i: int| 0 <= i < nk.len() implies nk[i] != x by {
                    if i < pos {
                        assert(nk[i] == ok[i]);
                    } else if i > pos {
                        assert(nk[i] == ok[i - 1]);
                    }
                }
            }
        }
    }
}

/// Removes byte `b` and its child from parallel sorted arrays that hold it.
fn sorted_remove<T>(keys: &mut Vec<u8>, children: &mut Vec<Node<T>>, b: u8) -> (r: Node<T>)
    requires
        old(keys)@.len() == old(children)@.len(),
        strictly_sorted(old(keys)@),
        sorted_child(old(keys)@, old(children)@, b) is Some,
    ensures
        r == sorted_child(old(keys)@, old(children)@, b)->Some_0,
        final(keys)@.len() + 1 == old(keys)@.len(),
        final(children)@.len() == final(keys)@.len(),
        strictly_sorted(final(keys)@),
        forall|x: u8|
            #[trigger] sorted_child(final(keys)@, final(children)@, x) == if x == b {
                None
            } else {
                sorted_child(old(keys)@, old(children)@, x)
            },
{
    let ghost ok = keys@;
    let ghost oc = children@;
    proof {
        lemma_sorted_child(ok, oc);
    }
    let i = sorted_index(keys, b);
    keys.remove(i);
    let r = children.remove(i);
    proof {
        let nk = keys@;
        let nc = children@;
        assert forall|x: int, y: int| 0 <= x < y < nk.len() implies nk[x] < nk[y] by {
            if x < i && y >= i {
                assert(ok[x] < ok[y + 1]);
            } else if x >= i {
                assert(ok[x + 1] < ok[y + 1]);
            }
        }
        lemma_sorted_child(nk, nc);
        assert forall|x: u8| #[trigger] sorted_child(nk, nc, x) == if x == b {
            None
        } else {
            sorted_child(ok, oc, x)
        } by {
            if x == b {
                assert forall|j: int| 0 <= j < nk.len() implies nk[j] != x by {
                    if j < i {
                        assert(ok[j] < ok[i as int]);
                    } else {
                        assert(ok[i as int] < ok[j + 1]);
                    }
                }
            } else if exists|j: int| 0 <= j < ok.len() && ok[j] == x {
                let j = choose|j: int| 0 <= j < ok.len() && ok[j] == x;
                if j < i {
                    assert(nk[j] == x);
                    assert(nc[j] == oc[j]);
                } else {
                    assert(j != i);
                    assert(nk[j - 1] == x);
                    assert(nc[j - 1] == oc[j]);
                }
            } else {
                assert forall|j: int| 0 <= j < nk.len() implies nk[j] != x by {
                    if j < i {
                        assert(nk[j] == ok[j]);
                    } else {
                        assert(nk[j] == ok[j + 1]);
                    }
                }
            }
        }
    }
    r
}

impl<T> Node4<T> {
    /// An empty 4-way node whose compressed path is `prefix`.
    pub fn new(prefix: &[u8]) -> (r: Self)
        ensures
            r.info.partial_len == prefix@.len(),
            r.info.prefix@ == prefix@,
            info_wf(r.info),
            r.info.count == 0,
            r.key@.len() == 0,
            r.children@.len() == 0,
    {
        let n = if prefix.len() < MAX_PREFIX_LEN {
            prefix.len()
        } else {
            MAX_PREFIX_LEN
        };
        let partial = vstd::slice::slice_to_vec(&prefix[0..n]);
        proof {
            assert(partial@ == prefix@.take(n as int));
        }
        Node4 {
            info: Info { count: 0, partial, partial_len: prefix.len(), prefix: Ghost(prefix@) },
            key: Vec::new(),
            children: Vec::new(),
        }
    }

    /// Adds a child for a byte that has none; the node must have room.
    pub fn add(&mut self, b: u8, c: Node<T>)
        requires
            old(self).shape_ok(),
            old(self).info.count < 4,
            sorted_child(old(self).key@, old(self).children@, b) is None,
        ensures
            final(self).shape_ok(),
            final(self).info.count == old(self).info.count + 1,
            same_path(final(self).info, old(self).info),
            forall|x: u8|
                #[trigger] sorted_child(final(self).key@, final(self).children@, x) == if x == b {
                    Some(c)
                } else {
                    sorted_child(old(self).key@, old(self).children@, x)
                },
    {
        sorted_insert(&mut self.key, &mut self.children, b, c);
        self.info.count = self.info.count + 1;
    }

    /// Removes the child of byte `b` and returns it.
    pub fn remove(&mut self, b: u8) -> (r: Node<T>)
        requires
            old(self).shape_ok(),
            sorted_child(old(self).key@, old(self).children@, b) is Some,
        ensures
            r == sorted_child(old(self).key@, old(self).children@, b)->Some_0,
            final(self).shape_ok(),
            final(self).info.count + 1 == old(self).info.count,
            same_path(final(self).info, old(self).info),
            forall|x: u8|
                #[trigger] sorted_child(final(self).key@, final(self).children@, x) == if x == b {
                    None
                } else {
                    sorted_child(old(self).key@, old(self).children@, x)
                },
    {
        let r = sorted_remove(&mut self.key, &mut self.children, b);
        self.info.count = self.info.count - 1;
        r
    }

    /// The 4-way node with the same header and children as a 16-way node of at most 4.
    pub fn shrink_from(n: Node16<T>) -> (r: Self)
        requires
            n.shape_ok(),
            n.info.count <= 4,
        ensures
            r.shape_ok(),
            r.info == n.info,
            r.key@ == n.key@,
            r.children@ == n.children@,
    {
        Node4 { info: n.info, key: n.key, children: n.children }
    }
}

impl<T> Node16<T> {
    /// Adds a child for a byte that has none; the node must have room.
    pub fn add(&mut self, b: u8, c: Node<T>)
        requires
            old(self).shape_ok(),
            old(self).info.count < 16,
            sorted_child(old(self).key@, old(self).children@, b) is None,
        ensures
            final(self).shape_ok(),
            final(self).info.count == old(self).info.count + 1,
            same_path(final(self).info, old(self).info),
            forall|x: u8|
                #[trigger] sorted_child(final(self).key@, final(self).children@, x) == if x == b {
                    Some(c)
                } else {
                    sorted_child(old(self).key@, old(self).children@, x)
                },
    {
        sorted_insert(&mut self.key, &mut self.children, b, c);
        self.info.count = self.info.count + 1;
    }

    /// Removes the child of byte `b` and returns it.
    pub fn remove(&mut self, b: u8) -> (r: Node<T>)
        requires
            old(self).shape_ok(),
            sorted_child(old(self).key@, old(self).children@, b) is Some,
        ensures
            r == sorted_child(old(self).key@, old(self).children@, b)->Some_0,
            final(self).shape_ok(),
            final(self).info.count + 1 == old(self).info.count,
            same_path(final(self).info, old(self).info),
            forall|x: u8|
                #[trigger] sorted_child(final(self).key@, final(self).children@, x) == if x == b {
                    None
                } else {
                    sorted_child(old(self).key@, old(self).children@, x)
                },
    {
        let r = sorted_remove(&mut self.key, &mut self.children, b);
        self.info.count = self.info.count - 1;
        r
    }

    /// The 16-way node with the same header and children as a 4-way node.
    pub fn grow_from(n: Node4<T>) -> (r: Self)
        requires
            n.shape_ok(),
        ensures
            r.shape_ok(),
            r.info == n.info,
            r.key@ == n.key@,
            r.children@ == n.children@,
    {
        Node16 { info: n.info, key: n.key, children: n.children }
    }

    /// The 16-way node with the same header and children as a 48-way node of at most 16,
    /// its bytes in ascending order.
    pub fn shrink_from(n: Node48<T>) -> (r: Self)
        requires
            n.shape_ok(),
            n.info.count <= 16,
        ensures
            r.shape_ok(),
            r.info == n.info,
            forall|x: u8| #[trigger] sorted_child(r.key@, r.children@, x) == n.child(x),
    {
        let ghost old_n = n;
        let Node48 { info, key: k48, children: mut c48 } = n;
        let mut key: Vec<u8> = Vec::new();
        let mut children: Vec<Node<T>> = Vec::new();
        let mut b: usize = 0;
        while b < 256
            invariant
                old_n.shape_ok(),
                k48@ == old_n.key@,
                c48@.len() == 48,
                b <= 256,
                key@.len() == children@.len(),
                key@.len() == count_mapped(k48@.take(b as int)),
                strictly_sorted(key@),
                forall|i: int| 0 <= i < key@.len() ==> key@[i] < b,
                forall|i: int|
                    0 <= i < key@.len() ==> Some(#[trigger] children@[i]) == old_n.child(key@[i]),
                forall|x: int|
                    0 <= x < b && k48@[x] != N48_ABSENT ==> exists|i: int|
                        0 <= i < key@.len() && key@[i] == x,
                forall|x: int|
                    b <= x < 256 && k48@[x] != N48_ABSENT ==> c48@[k48@[x] as int]
                        == old_n.children@[k48@[x] as int],
            decreases 256 - b,
        {
            proof {
                assert(k48@.take(b + 1).drop_last() == k48@.take(b as int));
            }
            let slot = k48[b];
            if slot != N48_ABSENT {
                let c = c48[slot as usize].take().unwrap();
                proof {
                    assert forall|x: int|
                        b < x < 256 && k48@[x] != N48_ABSENT implies c48@[k48@[x] as int]
                            == old_n.children@[k48@[x] as int] by {
                        assert(k48@[x] != k48@[b as int]);
                    }
                }
                let ghost prev = key@;
                key.push(b as u8);
                children.push(c);
                proof {
                    assert forall|x: int| 0 <= x < b + 1 && k48@[x] != N48_ABSENT implies exists|i: int|
                        0 <= i < key@.len() && key@[i] == x by {
                        if x == b {
                            assert(key@[key@.len() - 1] == x);
                        } else {
                            let i = choose|i: int| 0 <= i < prev.len() && prev[i] == x;
                            assert(key@[i] == x);
                        }
                    }
                    assert forall|i: int| 0 <= i < key@.len() implies Some(#[trigger] children@[i]) == old_n.child(key@[i]) by {
                        if i == key@.len() - 1 {
                        }
                    }
                }
            }
            b = b + 1;
        }
        proof {
            assert(k48@.take(256) == k48@);
            lemma_sorted_child(key@, children@);
        }
        let r = Node16 { info, key, children };
        proof {
            assert forall|x: u8| #[trigger] sorted_child(r.key@, r.children@, x) == old_n.child(x) by {
                if old_n.key@[x as int] != N48_ABSENT {
                    let i = choose|i: int| 0 <= i < r.key@.len() && r.key@[i] == x as int;
                    assert(sorted_child(r.key@, r.children@, r.key@[i]) == Some(r.children@[i]));
                } else {
                    assert forall|i: int| 0 <= i < r.key@.len() implies r.key@[i] != x by {
                        assert(Some(r.children@[i]) == old_n.child(r.key@[i]));
                    }
                }
            }
        }
        r
    }
}

/// The position of byte `b` in a sorted key array that holds it.
fn sorted_index(keys: &Vec<u8>, b: u8) -> (r: usize)
    requires
        strictly_sorted(keys@),
        exists|i: int| 0 <= i < keys@.len() && keys@[i] == b,
    ensures
        r < keys@.len(),
        keys@[r as int] == b,
{
    let mut i: usize = 0;
    while i < keys.len()
        invariant
            i <= keys@.len(),
            forall|j: int| 0 <= j < i ==> keys@[j] != b,
            exists|i: int| 0 <= i < keys@.len() && keys@[i] == b,
        decreases keys@.len() - i,
    {
        if keys[i] == b {
            return i;
        }
        i = i + 1;
    }
    proof {
        let j = choose|j: int| 0 <= j < keys@.len() && keys@[j] == b;
        assert(keys@[j] != b);
    }
    0
}

impl<T> Node<T> {
    pub fn is_leaf_node(&self) -> (r: bool)
        ensures
            r == self.is_leaf(),
    {
        match self {
            Node::Leaf(_) => true,
            _ => false,
        }
    }

    /// An inner node with no children, to hold a place while a node is rebuilt.
    pub(crate) fn placeholder() -> (r: Node<T>)
        ensures
            !r.is_leaf(),
    {
        Node::N4(Box::new(Node4 { info: Info { count: 0, partial: Vec::new(), partial_len: 0, prefix: Ghost(Seq::empty()) }, key: Vec::new(), children: Vec::new() }))
    }

    /// Adds a child for byte `b`, which has none, growing the node to the next variant when
    /// it is full.
    pub fn add_child(&mut self, b: u8, c: Node<T>)
        requires
            !old(self).is_leaf(),
            old(self).shape_wf(),
            old(self).child_at(b) is None,
        ensures
            !final(self).is_leaf(),
            final(self).shape_wf(),
            same_path(final(self).info(), old(self).info()),
            final(self).info().count == old(self).info().count + 1,
            forall|x: u8|
                #[trigger] final(self).child_at(x) == if x == b {
                    Some(c)
                } else {
                    old(self).child_at(x)
                },
            final(self).capacity() == if old(self).info().count == old(self).capacity() {
                if old(self).capacity() == 4 {
                    16nat
                } else if old(self).capacity() == 16 {
                    48nat
                } else {
                    256nat
                }
            } else {
                old(self).capacity()
            },
            match (*old(self), *final(self)) {
                (Node::N16(o), Node::N48(f)) => exists|g: Node48<T>|
                    g.laid_out_from(o.key@, o.children@) && #[trigger] f.added(g, b, c),
                (Node::N48(o), Node::N48(f)) => f.added(*o, b, c),
                (Node::N256(o), Node::N256(f)) => f.children@ == o.children@.update(b as int, Some(c)),
                _ => true,
            },
    {
        let mut tmp = Node::placeholder();
        std::mem::swap(self, &mut tmp);
        let r = match tmp {
            Node::Leaf(l) => Node::Leaf(l),
            Node::N4(mut n) => {
                if n.info.count < 4 {
                    n.add(b, c);
                    Node::N4(n)
                } else {
                    let mut g = Node16::grow_from(*n);
                    g.add(b, c);
                    Node::N16(Box::new(g))
                }
            },
            Node::N16(mut n) => {
                if n.info.count < 16 {
                    n.add(b, c);
                    Node::N16(n)
                } else {
                    let mut g = Node48::grow_from(*n);
                    proof {
                        assert(g.child(b) is None);
                        assert(g.key@[b as int] == N48_ABSENT || g.key@[b as int] < 48);
                    }
                    let ghost g0 = g;
                    g.add(b, c);
                    proof {
                        assert(g0.laid_out_from(n.key@, n.children@) && g.added(g0, b, c));
                    }
                    Node::N48(Box::new(g))
                }
            },
            Node::N48(mut n) => {
                proof {
                    assert(n.key@[b as int] == N48_ABSENT || n.key@[b as int] < 48);
                }
                if n.info.count < 48 {
                    n.add(b, c);
                    Node::N48(n)
                } else {
                    let mut g = Node256::grow_from(*n);
                    proof {
                        assert(g.child(b) is None);
                    }
                    g.add(b, c);
                    Node::N256(Box::new(g))
                }
            },
            Node::N256(mut n) => {
                n.add(b, c);
                Node::N256(n)
            },
        };
        *self = r;
    }

    /// Removes the child of byte `b` and returns it, shrinking the node to the next smaller
    /// variant when it falls to the threshold. A 4-way node with two
    /// children is merged instead, by the caller.
    pub fn remove_child(&mut self, b: u8) -> (r: Node<T>)
        requires
            !old(self).is_leaf(),
            old(self).shape_wf(),
            old(self).child_at(b) is Some,
            !(*old(self) is N4 && old(self).info().count == 2),
        ensures
            r == old(self).child_at(b)->Some_0,
            !final(self).is_leaf(),
            final(self).shape_wf(),
            same_path(final(self).info(), old(self).info()),
            final(self).info().count + 1 == old(self).info().count,
            forall|x: u8|
                #[trigger] final(self).child_at(x) == if x == b {
                    None
                } else {
                    old(self).child_at(x)
                },
            final(self).capacity() == if *old(self) is N16 && old(self).info().count == 4 {
                4nat
            } else if *old(self) is N48 && old(self).info().count == 13 {
                16nat
            } else if *old(self) is N256 && old(self).info().count == 36 {
                48nat
            } else {
                old(self).capacity()
            },
            match (*old(self), *final(self)) {
                (Node::N48(o), Node::N48(f)) => f.key@ == o.key@.update(b as int, N48_ABSENT)
                    && f.children@ == o.children@.update(o.key@[b as int] as int, None),
                (Node::N256(o), Node::N256(f)) => f.children@ == o.children@.update(b as int, None),
                (Node::N256(o), Node::N48(f)) => f.compacted_from(o.children@.update(b as int, None)),
                _ => true,
            },
    {
        let mut tmp = Node::placeholder();
        std::mem::swap(self, &mut tmp);
        let (r, n) = match tmp {
            Node::Leaf(l) => {
                proof {
                    assert(false);
                }
                (Node::Leaf(l), Node::placeholder())
            },
            Node::N4(mut n) => {
                let r = n.remove(b);
                (r, Node::N4(n))
            },
            Node::N16(mut n) => {
                let r = n.remove(b);
                if n.info.count == 3 {
                    (r, Node::N4(Box::new(Node4::shrink_from(*n))))
                } else {
                    (r, Node::N16(n))
                }
            },
            Node::N48(mut n) => {
                let r = n.remove(b);
                if n.info.count == 12 {
                    (r, Node::N16(Box::new(Node16::shrink_from(*n))))
                } else {
                    (r, Node::N48(n))
                }
            },
            Node::N256(mut n) => {
                let r = n.remove(b);
                if n.info.count == 35 {
                    (r, Node::N48(Box::new(Node48::shrink_from(*n))))
                } else {
                    (r, Node::N256(n))
                }
            },
        };
        *self = n;
        r
    }

    /// The child slot that byte `b` selects, to descend into or replace in place.
    pub fn child_mut(&mut self, b: u8) -> (r: &mut Node<T>)
        requires
            !old(self).is_leaf(),
            old(self).shape_ok(),
            old(self).child_at(b) is Some,
        ensures
            *r == old(self).child_at(b)->Some_0,
            final(self).child_at(b) == Some(*final(r)),
            forall|x: u8| x != b ==> #[trigger] final(self).child_at(x) == old(self).child_at(x),
            final(self).info() == old(self).info(),
            final(self).shape_ok() == old(self).shape_ok(),
            final(self).shape_wf() == old(self).shape_wf(),
            !final(self).is_leaf(),
    {
        match self {
            Node::Leaf(_) => unreached(),
            Node::N4(n) => {
                proof {
                    lemma_sorted_child(n.key@, n.children@);
                }
                let i = sorted_index(&n.key, b);
                &mut n.children[i]
            },
            Node::N16(n) => {
                proof {
                    lemma_sorted_child(n.key@, n.children@);
                }
                let i = sorted_index(&n.key, b);
                &mut n.children[i]
            },
            Node::N48(n) => {
                let slot = n.key[b as usize];
                proof {
                    lemma_count_some_refill(n.children@, slot as int);
                }
                n.children[slot as usize].as_mut().unwrap()
            },
            Node::N256(n) => {
                proof {
                    lemma_count_some_refill(n.children@, b as int);
                }
                n.children[b as usize].as_mut().unwrap()
            },
        }
    }
}

impl<T> Node<T> {
    /// A byte that selects a child.
    fn some_child_byte(&self) -> (r: u8)
        requires
            !self.is_leaf(),
            self.shape_wf(),
        ensures
            self.child_at(r) is Some,
    {
        match self {
            Node::Leaf(_) => unreached(),
            Node::N4(n) => {
                proof {
                    lemma_sorted_child(n.key@, n.children@);
                }
                n.key[0]
            },
            Node::N16(n) => {
                proof {
                    lemma_sorted_child(n.key@, n.children@);
                }
                n.key[0]
            },
            Node::N48(n) => {
                proof {
                    lemma_count_mapped_bounds(n.key@);
                }
                let mut b: usize = 0;
                while b < 255 && n.key[b] == N48_ABSENT
                    invariant
                        n.shape_wf(),
                        b <= 255,
                        forall|x: int| 0 <= x < b ==> n.key@[x] == N48_ABSENT,
                    decreases 255 - b,
                {
                    b = b + 1;
                }
                proof {
                    if n.key@[b as int] == N48_ABSENT {
                        let x = choose|x: int| 0 <= x < n.key@.len() && n.key@[x] != N48_ABSENT;
                        assert(x < b || x == b || x > b);
                    }
                    assert(n.key@[b as int] < 48);
                }
                b as u8
            },
            Node::N256(n) => {
                proof {
                    lemma_count_some_bounds(n.children@);
                }
                let mut b: usize = 0;
                while b < 255 && n.children[b].is_none()
                    invariant
                        n.shape_wf(),
                        b <= 255,
                        forall|x: int| 0 <= x < b ==> n.children@[x] is None,
                    decreases 255 - b,
                {
                    b = b + 1;
                }
                proof {
                    if n.children@[b as int] is None {
                        let x = choose|x: int| 0 <= x < n.children@.len() && n.children@[x] is Some;
                        assert(x < b || x == b || x > b);
                    }
                }
                b as u8
            },
        }
    }

    /// The key of some leaf below the node, which holds the whole compressed path.
    pub fn any_leaf_key(&self, Ghost(d): Ghost<nat>) -> (r: &Vec<u8>)
        requires
            self.wf(d),
        ensures
            self.get(r@, d) is Some,
        decreases self,
    {
        match self {
            Node::Leaf(l) => &l.key,
            _ => {
                let b = self.some_child_byte();
                let c = self.find_child(b).unwrap();
                proof {
                    self.lemma_child_decreases(b);
                }
                let r = c.any_leaf_key(Ghost(d + self.plen() + 1));
                proof {
                    assert(c.get(r@, d + self.prefix().len() + 1) is Some);
                }
                r
            },
        }
    }

    /// Bytes `from..to` of the compressed path, taken from the header where it stores them
    /// and from a leaf's key otherwise.
    pub fn path_bytes(&self, depth: usize, from: usize, to: usize) -> (r: Vec<u8>)
        requires
            !self.is_leaf(),
            self.wf(depth as nat),
            from <= to <= self.plen(),
        ensures
            r@ == self.prefix().subrange(from as int, to as int),
    {
        let info = self.info_ref();
        if to <= info.partial.len() {
            vstd::slice::slice_to_vec(&info.partial[from..to])
        } else {
            let lk = self.any_leaf_key(Ghost(depth as nat));
            let ll = lk.len();
            proof {
                lemma_get_inner(*self, lk@, depth as nat);
            }
            let r = vstd::slice::slice_to_vec(&lk[depth + from..depth + to]);
            proof {
                assert(r@ == self.prefix().subrange(from as int, to as int));
            }
            r
        }
    }

    /// Number of leading bytes of the compressed path that `key` matches from `depth` on;
    /// past the stored bytes the path is read from a leaf's key.
    pub fn prefix_match(&self, key: &Vec<u8>, depth: usize) -> (r: usize)
        requires
            !self.is_leaf(),
            self.wf(depth as nat),
            depth <= key@.len(),
        ensures
            r <= self.plen(),
            depth + r <= key@.len(),
            key@.subrange(depth as int, depth + r) == self.prefix().take(r as int),
            r < self.plen() && depth + r < key@.len() ==> key@[depth + r] != self.prefix()[r as int],
    {
        let info = self.info_ref();
        let n = common_prefix(info.partial.as_slice(), &key[depth..key.len()]);
        proof {
            assert(info.partial@ == self.prefix().take(info.partial@.len() as int));
            assert(key@.subrange(depth as int, depth + n) == key@.subrange(depth as int, key@.len() as int).take(n as int));
            assert(self.prefix().take(n as int) == info.partial@.take(n as int));
        }
        if n < info.partial.len() || info.partial_len == info.partial.len() {
            return n;
        }
        let lk = self.any_leaf_key(Ghost(depth as nat));
        let ll = lk.len();
        proof {
            lemma_get_inner(*self, lk@, depth as nat);
        }
        let plen = info.partial_len;
        let m = common_prefix(&lk[depth..depth + plen], &key[depth..key.len()]);
        proof {
            assert(lk@.subrange(depth as int, depth + plen) == self.prefix());
            assert(key@.subrange(depth as int, depth + m) == key@.subrange(depth as int, key@.len() as int).take(m as int));
        }
        m
    }

    /// The node with its compressed path replaced.
    pub fn with_path(self, partial: Vec<u8>, plen: usize, Ghost(fp): Ghost<Seq<u8>>) -> (r: Node<T>)
        requires
            !self.is_leaf(),
        ensures
            !r.is_leaf(),
            r.info().partial == partial,
            r.info().partial_len == plen,
            r.info().prefix@ == fp,
            r.info().count == self.info().count,
            r.capacity() == self.capacity(),
            r.shape_wf() == self.shape_wf(),
            r.shape_ok() == self.shape_ok(),
            forall|x: u8| #[trigger] r.child_at(x) == self.child_at(x),
    {
        match self {
            Node::Leaf(l) => Node::Leaf(l),
            Node::N4(mut n) => {
                n.info.partial = partial;
                n.info.partial_len = plen;
                n.info.prefix = Ghost(fp);
                Node::N4(n)
            },
            Node::N16(mut n) => {
                n.info.partial = partial;
                n.info.partial_len = plen;
                n.info.prefix = Ghost(fp);
                Node::N16(n)
            },
            Node::N48(mut n) => {
                n.info.partial = partial;
                n.info.partial_len = plen;
                n.info.prefix = Ghost(fp);
                Node::N48(n)
            },
            Node::N256(mut n) => {
                n.info.partial = partial;
                n.info.partial_len = plen;
                n.info.prefix = Ghost(fp);
                Node::N256(n)
            },
        }
    }
}

/// `n` empty slots.
fn empty_slots<T>(n: usize) -> (r: Vec<Option<Node<T>>>)
    ensures
        r@.len() == n,
        forall|i: int| 0 <= i < n ==> r@[i] is None,
        count_some(r@) == 0,
{
    let mut r: Vec<Option<Node<T>>> = Vec::new();
    while r.len() < n
        invariant
            r@.len() <= n,
            forall|i: int| 0 <= i < r@.len() ==> r@[i] is None,
        decreases n - r@.len(),
    {
        r.push(None);
    }
    proof {
        lemma_count_some_none(r@);
    }
    r
}

/// A 48-way byte table with no entry.
fn empty_table() -> (r: Vec<u8>)
    ensures
        r@.len() == 256,
        forall|i: int| 0 <= i < 256 ==> r@[i] == N48_ABSENT,
        count_mapped(r@) == 0,
{
    let mut r: Vec<u8> = Vec::new();
    while r.len() < 256
        invariant
            r@.len() <= 256,
            forall|i: int| 0 <= i < r@.len() ==> r@[i] == N48_ABSENT,
        decreases 256 - r@.len(),
    {
        r.push(N48_ABSENT);
    }
    proof {
        lemma_count_mapped_absent(r@);
    }
    r
}

impl<T> Node48<T> {
    /// Adds a child for a byte that has none, in the first free slot; the node must have room.
    pub fn add(&mut self, b: u8, c: Node<T>)
        requires
            old(self).shape_ok(),
            old(self).info.count < 48,
            old(self).key@[b as int] == N48_ABSENT,
        ensures
            final(self).shape_ok(),
            final(self).info.count == old(self).info.count + 1,
            same_path(final(self).info, old(self).info),
            forall|x: u8|
                #[trigger] final(self).child(x) == if x == b {
                    Some(c)
                } else {
                    old(self).child(x)
                },
            final(self).added(*old(self), b, c),
    {
        let ghost ok = self.key@;
        let ghost oc = self.children@;
        proof {
            lemma_count_some_bounds(oc);
        }
        let mut i: usize = 0;
        while i < 48 && self.children[i].is_some()
            invariant
                self.children@ == oc,
                self.key@ == ok,
                oc.len() == 48,
                i <= 48,
                forall|j: int| 0 <= j < i ==> oc[j] is Some,
            decreases 48 - i,
        {
            i = i + 1;
        }
        if i == 48 {
            proof {
                let j = choose|j: int| 0 <= j < oc.len() && oc[j] is None;
                assert(oc[j] is Some);
            }
            return;
        }
        self.children.set(i, Some(c));
        self.key.set(b as usize, i as u8);
        self.info.count = self.info.count + 1;
        proof {
            assert(first_free(oc, i as int));
            let nk = self.key@;
            let nc = self.children@;
            lemma_count_some_update(oc, i as int, Some(c));
            lemma_count_mapped_update(ok, b as int, i as u8);
            assert forall|x: int| 0 <= x < 256 && x != b as int && ok[x] != N48_ABSENT implies ok[x]
                != i as u8 by {
                assert(oc[ok[x] as int] is Some);
            }
            assert forall|x: int|
                0 <= x < 256 implies (#[trigger] nk[x] == N48_ABSENT || (nk[x] < 48
                    && nc[nk[x] as int] is Some)) by {
                if x == b as int {
                } else {
                    assert(nk[x] == ok[x]);
                }
            }
            assert forall|b1: int, b2: int|
                0 <= b1 < 256 && 0 <= b2 < 256 && b1 != b2 && #[trigger] nk[b1] != N48_ABSENT
                    implies nk[b1] != #[trigger] nk[b2] by {
                if b1 == b as int {
                    assert(nk[b2] == ok[b2]);
                } else if b2 == b as int {
                    assert(nk[b1] == ok[b1]);
                } else {
                    assert(nk[b1] == ok[b1]);
                    assert(nk[b2] == ok[b2]);
                }
            }
            assert forall|x: u8| #[trigger] self.child(x) == if x == b {
                Some(c)
            } else {
                old(self).child(x)
            } by {
                if x != b {
                    assert(nk[x as int] == ok[x as int]);
                }
            }
        }
    }

    /// Removes the child of byte `b` and returns it.
    pub fn remove(&mut self, b: u8) -> (r: Node<T>)
        requires
            old(self).shape_ok(),
            old(self).child(b) is Some,
        ensures
            r == old(self).child(b)->Some_0,
            final(self).shape_ok(),
            final(self).info.count + 1 == old(self).info.count,
            same_path(final(self).info, old(self).info),
            forall|x: u8|
                #[trigger] final(self).child(x) == if x == b {
                    None
                } else {
                    old(self).child(x)
                },
            final(self).key@ == old(self).key@.update(b as int, N48_ABSENT),
            final(self).children@ == old(self).children@.update(old(self).key@[b as int] as int, None),
    {
        let ghost ok = self.key@;
        let ghost oc = self.children@;
        let slot = self.key[b as usize];
        proof {
            assert(ok[b as int] == N48_ABSENT || ok[b as int] < 48);
            lemma_count_some_update(oc, slot as int, None);
            lemma_count_mapped_update(ok, b as int, N48_ABSENT);
        }
        let r = self.children[slot as usize].take().unwrap();
        self.key.set(b as usize, N48_ABSENT);
        self.info.count = self.info.count - 1;
        proof {
            let nk = self.key@;
            let nc = self.children@;
            assert forall|x: int|
                0 <= x < 256 implies (#[trigger] nk[x] == N48_ABSENT || (nk[x] < 48
                    && nc[nk[x] as int] is Some)) by {
                if x != b as int {
                    assert(nk[x] == ok[x]);
                    if ok[x] != N48_ABSENT {
                        assert(ok[x] != ok[b as int]);
                    }
                }
            }
            assert forall|b1: int, b2: int|
                0 <= b1 < 256 && 0 <= b2 < 256 && b1 != b2 && #[trigger] nk[b1] != N48_ABSENT
                    implies nk[b1] != #[trigger] nk[b2] by {
                assert(nk[b1] == ok[b1]);
                if b2 != b as int {
                    assert(nk[b2] == ok[b2]);
                }
            }
            assert forall|x: u8| #[trigger] self.child(x) == if x == b {
                None
            } else {
                old(self).child(x)
            } by {
                if x != b {
                    assert(nk[x as int] == ok[x as int]);
                    if ok[x as int] != N48_ABSENT {
                        assert(ok[x as int] != ok[b as int]);
                    }
                }
            }
        }
        r
    }

    /// The 48-way node with the same header and children as a 256-way node of at most 48.
    pub fn shrink_from(n: Node256<T>) -> (r: Self)
        requires
            n.shape_ok(),
            n.info.count <= 48,
        ensures
            r.shape_ok(),
            r.info == n.info,
            forall|x: u8| #[trigger] r.child(x) == n.child(x),
            r.compacted_from(n.children@),
    {
        let ghost old_n = n;
        let Node256 { info, children: mut c256 } = n;
        let mut key = empty_table();
        let mut children = empty_slots(48);
        let mut pos: usize = 0;
        let mut b: usize = 0;
        while b < 256
            invariant
                old_n.shape_ok(),
                old_n.info == info,
                info.count <= 48,
                c256@.len() == 256,
                key@.len() == 256,
                children@.len() == 48,
                b <= 256,
                pos == count_some(old_n.children@.take(b as int)),
                pos <= 48,
                forall|x: int| b <= x < 256 ==> c256@[x] == old_n.children@[x],
                forall|x: int| b <= x < 256 ==> key@[x] == N48_ABSENT,
                forall|x: int|
                    0 <= x < b ==> (#[trigger] key@[x] == N48_ABSENT <==> old_n.children@[x] is None),
                forall|x: int|
                    0 <= x < b && key@[x] != N48_ABSENT ==> key@[x] < pos && children@[key@[x] as int]
                        == old_n.children@[x],
                forall|x: int|
                    0 <= x < b && key@[x] != N48_ABSENT ==> key@[x] as nat == count_some(
                        old_n.children@.take(x),
                    ),
                forall|x1: int, x2: int|
                    0 <= x1 < x2 < b && key@[x1] != N48_ABSENT && key@[x2] != N48_ABSENT ==> key@[x1]
                        < key@[x2],
                forall|j: int| 0 <= j < pos ==> children@[j] is Some,
                forall|j: int| pos <= j < 48 ==> children@[j] is None,
                count_some(children@) == pos,
                count_mapped(key@) == pos,
            decreases 256 - b,
        {
            proof {
                assert(old_n.children@.take(b + 1).drop_last() == old_n.children@.take(b as int));
                lemma_count_some_take(old_n.children@, b + 1);
            }
            if c256[b].is_some() {
                let c = c256[b].take();
                proof {
                    lemma_count_some_update(children@, pos as int, c);
                    lemma_count_mapped_update(key@, b as int, pos as u8);
                }
                children.set(pos, c);
                key.set(b, pos as u8);
                pos = pos + 1;
            }
            b = b + 1;
        }
        proof {
            assert(old_n.children@.take(256) == old_n.children@);
        }
        let r = Node48 { info, key, children };
        proof {
            assert forall|x: int|
                0 <= x < 256 implies (#[trigger] r.key@[x] == N48_ABSENT || (r.key@[x] < 48
                    && r.children@[r.key@[x] as int] is Some)) by {
            }
            assert forall|b1: int, b2: int|
                0 <= b1 < 256 && 0 <= b2 < 256 && b1 != b2 && #[trigger] r.key@[b1] != N48_ABSENT
                    implies r.key@[b1] != #[trigger] r.key@[b2] by {
                if r.key@[b2] != N48_ABSENT {
                    if b1 < b2 {
                        assert(r.key@[b1] < r.key@[b2]);
                    } else {
                        assert(r.key@[b2] < r.key@[b1]);
                    }
                }
            }
            assert forall|x: u8| #[trigger] r.child(x) == old_n.child(x) by {
                assert(r.key@[x as int] == N48_ABSENT <==> old_n.children@[x as int] is None);
            }
            assert forall|x: int| 0 <= x < 256 implies if old_n.children@[x] is Some {
                &&& #[trigger] r.key@[x] as nat == count_some(old_n.children@.take(x))
                &&& r.children@[r.key@[x] as int] == old_n.children@[x]
            } else {
                r.key@[x] == N48_ABSENT
            } by {
                assert(r.key@[x] == N48_ABSENT <==> old_n.children@[x] is None);
            }
        }
        r
    }

    /// The 48-way node with the same header and children as a 16-way node.
    pub fn grow_from(n: Node16<T>) -> (r: Self)
        requires
            n.shape_ok(),
        ensures
            r.shape_ok(),
            r.info == n.info,
            forall|x: u8| #[trigger] r.child(x) == sorted_child(n.key@, n.children@, x),
            r.laid_out_from(n.key@, n.children@),
    {
        let Node16 { info, key: k16, children: mut c16 } = n;
        let ghost oc = c16@;
        let cnt = info.count;
        let mut key = empty_table();
        let mut children = empty_slots(48);
        let mut i: usize = cnt;
        while i > 0
            invariant
                cnt == k16@.len(),
                cnt == oc.len(),
                cnt <= 16,
                strictly_sorted(k16@),
                i <= cnt,
                c16@ == oc.take(i as int),
                key@.len() == 256,
                children@.len() == 48,
                forall|j: int| i <= j < cnt ==> children@[j] == Some(oc[j]),
                forall|j: int| 0 <= j < 48 && !(i <= j < cnt) ==> children@[j] is None,
                forall|j: int| i <= j < cnt ==> key@[k16@[j] as int] == j,
                forall|x: int|
                    0 <= x < 256 ==> (#[trigger] key@[x] == N48_ABSENT || (i <= key@[x] < cnt
                        && k16@[key@[x] as int] == x)),
                count_some(children@) == cnt - i,
                count_mapped(key@) == cnt - i,
            decreases i,
        {
            i = i - 1;
            let c = c16.pop().unwrap();
            proof {
                assert(c16@ == oc.take(i as int));
                lemma_count_some_update(children@, i as int, Some(c));
                lemma_count_mapped_update(key@, k16@[i as int] as int, i as u8);
                assert(key@[k16@[i as int] as int] == N48_ABSENT) by {
                    let x = k16@[i as int] as int;
                    if key@[x] != N48_ABSENT {
                        let j = key@[x] as int;
                        assert(k16@[j] == x);
                        assert(k16@[i as int] < k16@[j]);
                    }
                }
            }
            children.set(i, Some(c));
            key.set(k16[i] as usize, i as u8);
            proof {
                assert forall|j: int| i <= j < cnt implies key@[k16@[j] as int] == j by {
                    if j > i {
                        assert(k16@[i as int] < k16@[j]);
                    }
                }
            }
        }
        let r = Node48 { info, key, children };
        proof {
            lemma_sorted_child(k16@, oc);
            assert forall|b1: int, b2: int|
                0 <= b1 < 256 && 0 <= b2 < 256 && b1 != b2 && #[trigger] r.key@[b1] != N48_ABSENT
                    implies r.key@[b1] != #[trigger] r.key@[b2] by {
            }
            assert forall|x: u8| #[trigger] r.child(x) == sorted_child(k16@, oc, x) by {
                if r.key@[x as int] == N48_ABSENT {
                    assert forall|j: int| 0 <= j < k16@.len() implies k16@[j] != x by {
                        assert(r.key@[k16@[j] as int] == j);
                    }
                } else {
                    assert(k16@[r.key@[x as int] as int] == x);
                }
            }
        }
        r
    }
}

impl<T> Node256<T> {
    /// Adds a child for a byte that has none.
    pub fn add(&mut self, b: u8, c: Node<T>)
        requires
            old(self).shape_ok(),
            old(self).children@[b as int] is None,
        ensures
            final(self).shape_ok(),
            final(self).info.count == old(self).info.count + 1,
            same_path(final(self).info, old(self).info),
            final(self).children@ == old(self).children@.update(b as int, Some(c)),
            forall|x: u8|
                #[trigger] final(self).child(x) == if x == b {
                    Some(c)
                } else {
                    old(self).child(x)
                },
    {
        proof {
            lemma_count_some_update(self.children@, b as int, Some(c));
            lemma_count_some_bounds(self.children@.update(b as int, Some(c)));
        }
        self.children.set(b as usize, Some(c));
        self.info.count = self.info.count + 1;
    }

    /// Removes the child of byte `b` and returns it.
    pub fn remove(&mut self, b: u8) -> (r: Node<T>)
        requires
            old(self).shape_ok(),
            old(self).child(b) is Some,
        ensures
            r == old(self).child(b)->Some_0,
            final(self).shape_ok(),
            final(self).info.count + 1 == old(self).info.count,
            same_path(final(self).info, old(self).info),
            forall|x: u8|
                #[trigger] final(self).child(x) == if x == b {
                    None
                } else {
                    old(self).child(x)
                },
            final(self).children@ == old(self).children@.update(b as int, None),
    {
        proof {
            lemma_count_some_update(self.children@, b as int, None);
        }
        let r = self.children[b as usize].take().unwrap();
        self.info.count = self.info.count - 1;
        r
    }

    /// The 256-way node with the same header and children as a 48-way node.
    pub fn grow_from(n: Node48<T>) -> (r: Self)
        requires
            n.shape_ok(),
        ensures
            r.shape_ok(),
            r.info == n.info,
            forall|x: u8| #[trigger] r.child(x) == n.child(x),
    {
        let ghost old_n = n;
        let Node48 { info, key, children: mut c48 } = n;
        let mut children = empty_slots(256);
        let mut b: usize = 0;
        while b < 256
            invariant
                old_n.shape_ok(),
                key@ == old_n.key@,
                c48@.len() == 48,
                children@.len() == 256,
                b <= 256,
                forall|x: int| 0 <= x < b ==> children@[x] == old_n.child(x as u8),
                forall|x: int| b <= x < 256 ==> children@[x] is None,
                forall|x: int|
                    b <= x < 256 && key@[x] != N48_ABSENT ==> c48@[key@[x] as int]
                        == old_n.children@[key@[x] as int],
            decreases 256 - b,
        {
            let slot = key[b];
            if slot != N48_ABSENT {
                let c = c48[slot as usize].take();
                children.set(b, c);
                proof {
                    assert forall|x: int|
                        b < x < 256 && key@[x] != N48_ABSENT implies c48@[key@[x] as int]
                            == old_n.children@[key@[x] as int] by {
                        assert(key@[x] != key@[b as int]);
                    }
                }
            }
            b = b + 1;
        }
        proof {
            lemma_count_some_mapped(children@, key@);
        }
        Node256 { info, children }
    }
}

} // verus!
