use vstd::prelude::*;
use crate::node::{
    agrees_below, bytes_equal, child_keys_ok, common_prefix, compatible_below, is_prefix,
    lemma_get_inner, lemma_replace_child, lemma_size_replace, lemma_size_two, lemma_witness,
    prefix_free_pair, LeafNode, Node, Node4, MAX_PREFIX_LEN,
};

verus! {

/// Replaces leaf `l` by a 4-way node whose compressed path is what its key and `key` share
/// past `depth`, with a leaf for each under the byte where they part.
fn split_leaf<T>(l: LeafNode<T>, key: &Vec<u8>, depth: usize, value: T) -> (r: Node<T>)
    requires
        l.key@ != key@,
        depth <= key@.len(),
        l.key@.len() >= depth,
        l.key@.take(depth as int) == key@.take(depth as int),
        prefix_free_pair(l.key@, key@),
    ensures
        r.wf(depth as nat),
        forall|k: Seq<u8>|
            #[trigger] r.get(k, depth as nat) == if k == key@ {
                Some(value)
            } else {
                Node::Leaf(l).get(k, depth as nat)
            },
        !r.is_leaf(),
        r.size() == 3,
        r.holder_count(key@, depth as nat) == 2,
{
    let ghost old_leaf = Node::Leaf(l);
    let ghost lk = l.key@;
    let m = common_prefix(&l.key[depth..l.key.len()], &key[depth..key.len()]);
    let cm = depth + m;
    proof {
        assert(lk.subrange(depth as int, cm as int) == key@.subrange(depth as int, cm as int)) by {
            assert(lk.subrange(depth as int, cm as int) == lk.subrange(depth as int, lk.len() as int).take(m as int));
            assert(key@.subrange(depth as int, cm as int) == key@.subrange(depth as int, key@.len() as int).take(m as int));
        }
        assert(lk.take(cm as int) == key@.take(cm as int)) by {
            assert forall|i: int| 0 <= i < cm implies lk[i] == key@[i] by {
                if i < depth {
                    assert(lk.take(depth as int)[i] == key@.take(depth as int)[i]);
                } else {
                    assert(lk.subrange(depth as int, cm as int)[i - depth] == key@.subrange(depth as int, cm as int)[i - depth]);
                }
            }
            assert(lk.take(cm as int) =~= key@.take(cm as int));
        }
        if cm == lk.len() {
            assert(lk.take(cm as int) =~= lk);
            assert(is_prefix(lk, key@));
        }
        if cm == key@.len() {
            assert(key@.take(cm as int) =~= key@);
            assert(is_prefix(key@, lk));
        }
    }
    let b_old = l.key[cm];
    let b_new = key[cm];
    proof {
        assert(lk.subrange(depth as int, lk.len() as int)[m as int] == lk[cm as int]);
        assert(key@.subrange(depth as int, key@.len() as int)[m as int] == key@[cm as int]);
    }
    let mut n4 = Node4::new(&key[depth..cm]);
    let new_leaf = Node::Leaf(LeafNode::new(value, key.as_slice()));
    let ghost nl = new_leaf;
    n4.add(b_new, new_leaf);
    n4.add(b_old, Node::Leaf(l));
    let r = Node::N4(Box::new(n4));
    proof {
        let d = depth as nat;
        let fp = key@.subrange(depth as int, cm as int);
        assert(r.prefix() == fp);
        assert(r.plen() + depth == cm);
        assert forall|x: u8| #[trigger] r.child_at(x) is Some implies ({
            let c = r.child_at(x)->Some_0;
            &&& c.wf(d + r.plen() + 1)
            &&& child_keys_ok(c, d, r.prefix(), x)
        }) by {
            let c = r.child_at(x)->Some_0;
            assert(x == b_old || x == b_new);
            assert forall|k: Seq<u8>| #[trigger] c.get(k, d + fp.len() + 1) is Some implies {
                &&& k.len() > d + fp.len()
                &&& k[d + fp.len() as int] == x
                &&& k.subrange(d as int, d + fp.len() as int) == fp
            } by {
            }
        }
        assert(r.wf(depth as nat));
        assert forall|k: Seq<u8>| #[trigger] r.get(k, depth as nat) == if k == key@ {
            Some(value)
        } else {
            old_leaf.get(k, depth as nat)
        } by {
            if k.len() > cm {
                if k[cm as int] == b_old {
                    assert(k != key@);
                    assert(r.child_at(k[cm as int]) == Some(old_leaf));
                    assert(r.get(k, d) == old_leaf.get(k, (cm + 1) as nat));
                } else if k[cm as int] == b_new {
                    assert(k != lk);
                    assert(r.child_at(k[cm as int]) == Some(nl));
                    assert(r.get(k, d) == nl.get(k, (cm + 1) as nat));
                } else {
                    assert(k != lk && k != key@);
                    assert(r.child_at(k[cm as int]) is None);
                }
            } else {
                assert(k != lk && k != key@);
            }
        }
        assert forall|y: u8| y != b_old && y != b_new implies #[trigger] r.child_at(y) is None by {}
        lemma_size_two(r, b_old, b_new, 256);
        assert(r.child_at(key@[cm as int]) == Some(nl));
    }
    r
}

/// Splits the compressed path of `node` where `key` leaves it: a new 4-way node takes the
/// matched bytes and has `node` and a leaf for `key` as children.
fn split_inner<T>(node: Node<T>, key: &Vec<u8>, depth: usize, cm: usize, value: T) -> (r: Node<T>)
    requires
        node.wf(depth as nat),
        !node.is_leaf(),
        cm < node.plen(),
        depth + cm < key@.len(),
        key@.subrange(depth as int, depth + cm) == node.prefix().take(cm as int),
        key@[depth + cm] != node.prefix()[cm as int],
    ensures
        r.wf(depth as nat),
        forall|k: Seq<u8>|
            #[trigger] r.get(k, depth as nat) == if k == key@ {
                Some(value)
            } else {
                node.get(k, depth as nat)
            },
        !r.is_leaf(),
        r.size() == node.size() + 2,
        r.holder_count(key@, depth as nat) == 2,
        r is N4,
        r.info().count == 2,
        r.plen() == cm,
        r.prefix() == key@.subrange(depth as int, depth + cm),
        r.child_at(key@[depth + cm]) is Some,
        r.child_at(key@[depth + cm])->Some_0 is Leaf,
        r.child_at(key@[depth + cm])->Some_0->Leaf_0.key@ == key@,
        r.child_at(key@[depth + cm])->Some_0->Leaf_0.value == value,
        r.child_at(node.prefix()[cm as int]) is Some,
        ({
            let lower = r.child_at(node.prefix()[cm as int])->Some_0;
            &&& !lower.is_leaf()
            &&& lower.capacity() == node.capacity()
            &&& lower.info().count == node.info().count
            &&& forall|x: u8| #[trigger] lower.child_at(x) == node.child_at(x)
            &&& lower.plen() + cm + 1 == node.plen()
            &&& lower.prefix() == node.prefix().subrange(cm + 1, node.plen() as int)
        }),
        forall|y: u8|
            y != node.prefix()[cm as int] && y != key@[depth + cm] ==> #[trigger] r.child_at(y)
                is None,
{
    let ghost fp = node.prefix();
    let ghost d = depth as nat;
    let kl = key.len();
    let plen = node.info_ref().partial_len;
    let split = node.path_bytes(depth, cm, cm + 1);
    let split_byte = split[0];
    let rest_len = if plen - cm - 1 < MAX_PREFIX_LEN {
        plen - cm - 1
    } else {
        MAX_PREFIX_LEN
    };
    let rest = node.path_bytes(depth, cm + 1, cm + 1 + rest_len);
    let ghost lower_fp = fp.subrange(cm + 1, plen as int);
    let lower = node.with_path(rest, plen - cm - 1, Ghost(lower_fp));
    let ghost dl = (depth + cm + 1) as nat;
    proof {
        assert(rest@ == lower_fp.take(rest_len as int));
        assert forall|k: Seq<u8>| #[trigger] lower.get(k, dl) == node.get(k, d) by {
            assert(dl + lower.plen() == d + node.plen());
        }
        assert forall|x: u8| #[trigger] lower.child_at(x) is Some implies ({
            let c = lower.child_at(x)->Some_0;
            &&& c.wf(dl + lower.plen() + 1)
            &&& child_keys_ok(c, dl, lower.prefix(), x)
        }) by {
            let c = lower.child_at(x)->Some_0;
            assert(node.child_at(x) == Some(c));
            assert(dl + lower.plen() + 1 == d + node.plen() + 1);
            assert forall|k: Seq<u8>| #[trigger] c.get(k, dl + lower_fp.len() + 1) is Some implies {
                &&& k.len() > dl + lower_fp.len()
                &&& k[dl + lower_fp.len() as int] == x
                &&& k.subrange(dl as int, dl + lower_fp.len() as int) == lower_fp
            } by {
                assert(c.get(k, d + fp.len() + 1) is Some);
                assert(k.subrange(d as int, d + fp.len() as int) == fp);
                assert(k.subrange(dl as int, dl + lower_fp.len() as int) =~= lower_fp);
            }
        }
        assert(lower.wf(dl));
    }
    let mut n4 = Node4::new(&key[depth..depth + cm]);
    let new_leaf = Node::Leaf(LeafNode::new(value, key.as_slice()));
    let ghost nl = new_leaf;
    let key_byte = key[depth + cm];
    n4.add(key_byte, new_leaf);
    n4.add(split_byte, lower);
    let r = Node::N4(Box::new(n4));
    proof {
        let top_fp = key@.subrange(depth as int, depth + cm);
        assert(r.prefix() == top_fp);
        assert(r.plen() == cm);
        assert forall|x: u8| #[trigger] r.child_at(x) is Some implies ({
            let c = r.child_at(x)->Some_0;
            &&& c.wf(d + r.plen() + 1)
            &&& child_keys_ok(c, d, r.prefix(), x)
        }) by {
            let c = r.child_at(x)->Some_0;
            assert(x == split_byte || x == key_byte);
            assert forall|k: Seq<u8>| #[trigger] c.get(k, d + top_fp.len() + 1) is Some implies {
                &&& k.len() > d + top_fp.len()
                &&& k[d + top_fp.len() as int] == x
                &&& k.subrange(d as int, d + top_fp.len() as int) == top_fp
            } by {
                if x == split_byte {
                    assert(c.get(k, dl) is Some);
                    lemma_get_inner(node, k, d);
                    assert(k.subrange(d as int, d + fp.len() as int)[cm as int] == k[d + cm]);
                    assert(k.subrange(d as int, d + top_fp.len() as int) =~= fp.take(cm as int));
                }
            }
        }
        assert(r.wf(d));
        assert forall|k: Seq<u8>| #[trigger] r.get(k, d) == if k == key@ {
            Some(value)
        } else {
            node.get(k, d)
        } by {
            if k.len() > d + cm {
                if k[d + cm] == split_byte {
                    assert(k != key@);
                    assert(r.child_at(k[d + cm]) == Some(lower));
                    assert(r.get(k, d) == lower.get(k, dl));
                    assert(lower.get(k, dl) == node.get(k, d));
                } else if k[d + cm] == key_byte {
                    assert(r.child_at(k[d + cm]) == Some(nl));
                    assert(r.get(k, d) == nl.get(k, dl));
                    if node.get(k, d) is Some {
                        lemma_get_inner(node, k, d);
                        assert(k.subrange(d as int, d + fp.len() as int)[cm as int] == k[d + cm]);
                    }
                } else {
                    assert(k != key@);
                    assert(r.child_at(k[d + cm]) is None);
                    if node.get(k, d) is Some {
                        lemma_get_inner(node, k, d);
                        assert(k.subrange(d as int, d + fp.len() as int)[cm as int] == k[d + cm]);
                    }
                }
            } else {
                assert(k != key@);
                if node.get(k, d) is Some {
                    lemma_get_inner(node, k, d);
                }
            }
        }
        assert forall|y: u8| y != split_byte && y != key_byte implies #[trigger] r.child_at(y) is None by {}
        lemma_size_two(r, split_byte, key_byte, 256);
        lemma_size_replace(node, lower, 0, 256);
        assert(r.child_at(key@[depth + cm]) == Some(nl));
        assert(split_byte == fp[cm as int]);
        assert(r.child_at(split_byte) == Some(lower));
    }
    r
}

/// Under a compressed path that `key` matches for `cm` bytes, `key` goes on past them: else
/// it would be a proper prefix of every key below.
proof fn lemma_key_goes_on<T>(node: Node<T>, d: nat, key: Seq<u8>, cm: nat)
    requires
        node.wf(d),
        !node.is_leaf(),
        agrees_below(node, d, key),
        compatible_below(node, d, key),
        cm <= node.plen(),
        d + cm <= key.len(),
        key.subrange(d as int, (d + cm) as int) == node.prefix().take(cm as int),
    ensures
        key.len() > d + cm,
{
    let w = lemma_witness(node, d);
    lemma_get_inner(node, w, d);
    if key.len() == d + cm {
        assert(w.take(key.len() as int) =~= key) by {
            assert forall|i: int| 0 <= i < key.len() implies w[i] == key[i] by {
                if i < d {
                    assert(w.take(d as int)[i] == key.take(d as int)[i]);
                } else {
                    assert(w.subrange(d as int, (d + node.plen()) as int)[i - d] == w[i]);
                    assert(key.subrange(d as int, (d + cm) as int)[i - d] == key[i]);
                }
            }
        }
        assert(is_prefix(key, w));
    }
}

/// Inserts `key` with `value` below `node`, reached with `depth` bytes of `key` consumed,
/// or replaces the value of `key`.
pub fn insert_rec<T>(node: &mut Node<T>, key: &Vec<u8>, depth: usize, value: T)
    requires
        old(node).wf(depth as nat),
        depth <= key@.len(),
        agrees_below(*old(node), depth as nat, key@),
        compatible_below(*old(node), depth as nat, key@),
    ensures
        final(node).wf(depth as nat),
        forall|k: Seq<u8>|
            #[trigger] final(node).get(k, depth as nat) == if k == key@ {
                Some(value)
            } else {
                old(node).get(k, depth as nat)
            },
        old(node).get(key@, depth as nat) is None || !old(node).is_leaf() ==> !final(node).is_leaf(),
        old(node).get(key@, depth as nat) is None ==> final(node).size() == old(node).size()
            + if final(node).holder_count(key@, depth as nat) == 2 {
            2nat
        } else {
            1nat
        },
        old(node).get(key@, depth as nat) is Some ==> final(node).size() == old(node).size(),
    decreases key@.len() - depth,
{
    let ghost d = depth as nat;
    let ghost on = *node;
    let kl = key.len();
    if node.is_leaf_node() {
        let mut tmp = Node::placeholder();
        std::mem::swap(node, &mut tmp);
        match tmp {
            Node::Leaf(mut l) => {
                if bytes_equal(&l.key, key) {
                    l.value = value;
                    *node = Node::Leaf(l);
                } else {
                    proof {
                        assert(on.get(l.key@, d) is Some);
                    }
                    *node = split_leaf(l, key, depth, value);
                }
            },
            _ => unreached(),
        }
        return;
    }
    let plen = node.info_ref().partial_len;
    let cm = node.prefix_match(key, depth);
    proof {
        lemma_key_goes_on(on, d, key@, cm as nat);
    }
    if cm < plen {
        proof {
            if on.get(key@, d) is Some {
                lemma_get_inner(on, key@, d);
                assert(key@.subrange(d as int, d + on.plen() as int)[cm as int] == key@[depth + cm]);
            }
        }
        let mut tmp = Node::placeholder();
        std::mem::swap(node, &mut tmp);
        *node = split_inner(tmp, key, depth, cm, value);
        return;
    }
    let p = depth + plen;
    let b = key[p];
    let ghost fp = on.prefix();
    proof {
        assert(key@.subrange(d as int, p as int) == fp);
    }
    if node.find_child(b).is_some() {
        let ghost c = on.child_at(b)->Some_0;
        proof {
            assert forall|k: Seq<u8>| #[trigger] c.get(k, (p + 1) as nat) is Some implies k.len() >= p + 1
                && k.take(p + 1) == key@.take(p + 1) && prefix_free_pair(k, key@) by {
                assert(c.get(k, d + fp.len() + 1) is Some);
                assert(on.get(k, d) == c.get(k, (p + 1) as nat));
                assert(k.take(d as int) == key@.take(d as int));
                assert(k.subrange(d as int, p as int) == fp);
                assert(k.take(p + 1) =~= key@.take(p + 1)) by {
                    assert forall|i: int| 0 <= i < p + 1 implies k[i] == key@[i] by {
                        if i < d {
                            assert(k.take(d as int)[i] == key@.take(d as int)[i]);
                        } else if i < p {
                            assert(k.subrange(d as int, p as int)[i - d] == key@.subrange(d as int, p as int)[i - d]);
                        }
                    }
                }
            }
        }
        let child = node.child_mut(b);
        insert_rec(child, key, p + 1, value);
        proof {
            let nc = node.child_at(b)->Some_0;
            assert forall|k: Seq<u8>| #[trigger] nc.get(k, d + fp.len() + 1) is Some implies {
                &&& k.len() > d + fp.len()
                &&& k[d + fp.len() as int] == b
                &&& k.subrange(d as int, d + fp.len() as int) == fp
            } by {
                assert(nc.get(k, (p + 1) as nat) is Some);
                if k != key@ {
                    assert(c.get(k, d + fp.len() + 1) is Some);
                }
            }
            lemma_replace_child(on, *node, b, d);
            assert forall|k: Seq<u8>| #[trigger] node.get(k, d) == if k == key@ {
                Some(value)
            } else {
                on.get(k, d)
            } by {
                if k.len() > p && k[p as int] == b {
                    assert(node.get(k, d) == nc.get(k, (p + 1) as nat));
                    assert(on.get(k, d) == c.get(k, (p + 1) as nat));
                }
            }
            lemma_size_replace(on, *node, b, 256);
            assert(on.get(key@, d) == c.get(key@, (p + 1) as nat));
            if on.get(key@, d) is None {
                assert(node.holder_count(key@, d) == nc.holder_count(key@, (p + 1) as nat));
            }
        }
    } else {
        let leaf = Node::Leaf(LeafNode::new(value, key.as_slice()));
        let ghost nl = leaf;
        node.add_child(b, leaf);
        proof {
            assert forall|k: Seq<u8>| #[trigger] nl.get(k, d + fp.len() + 1) is Some implies {
                &&& k.len() > d + fp.len()
                &&& k[d + fp.len() as int] == b
                &&& k.subrange(d as int, d + fp.len() as int) == fp
            } by {
            }
            lemma_replace_child(on, *node, b, d);
            assert forall|k: Seq<u8>| #[trigger] node.get(k, d) == if k == key@ {
                Some(value)
            } else {
                on.get(k, d)
            } by {
                if k.len() > p && k[p as int] == b {
                    assert(node.get(k, d) == nl.get(k, (p + 1) as nat));
                    assert(on.get(k, d) is None);
                }
            }
            lemma_size_replace(on, *node, b, 256);
            assert(node.holder_count(key@, d) == node.info().count);
        }
    }
}

} // verus!
