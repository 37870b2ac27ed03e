use vstd::prelude::*;
use crate::node::{
    bytes_equal, child_keys_ok, info_wf, lemma_get_inner, lemma_replace_child,
    lemma_size_replace, lemma_size_two, sorted_child, stored_len, Node, Node4, MAX_PREFIX_LEN,
};

verus! {

/// `r` is what the child of byte `k0` of `parent` becomes when it takes the place of
/// `parent`: a leaf stays as it is; an inner node keeps its layout and children, and its
/// compressed path becomes the parent's path, then `k0`, then its own.
pub open spec fn merged_into<T>(parent: Node<T>, k0: u8, r: Node<T>) -> bool {
    let c = parent.child_at(k0)->Some_0;
    if c.is_leaf() {
        r == c
    } else {
        &&& !r.is_leaf()
        &&& r.capacity() == c.capacity()
        &&& r.info().count == c.info().count
        &&& r.shape_wf() == c.shape_wf()
        &&& forall|x: u8| #[trigger] r.child_at(x) == c.child_at(x)
        &&& r.plen() == parent.plen() + 1 + c.plen()
        &&& r.prefix() == parent.prefix().push(k0) + c.prefix()
        &&& r.info().partial@ == (parent.info().partial@.push(k0) + c.info().partial@).take(
            stored_len(r.plen()) as int,
        )
    }
}

/// A 4-way node left with one child gives way to that child, whose compressed path takes
/// the node's path and the byte between them in front.
fn merge_n4<T>(n: Box<Node4<T>>, b: u8, depth: usize) -> (r: Node<T>)
    requires
        Node::N4(n).wf(depth as nat),
        n.info.count == 2,
        Node::N4(n).child_at(b) is Some,
        Node::N4(n).child_at(b)->Some_0.is_leaf(),
    ensures
        exists|k0: u8|
            k0 != b && #[trigger] Node::N4(n).child_at(k0) is Some && merged_into(
                Node::N4(n),
                k0,
                r,
            ),
        r.size() + 2 == Node::N4(n).size(),
        r.wf(depth as nat),
        forall|k: Seq<u8>|
            #[trigger] r.get(k, depth as nat) == if k.len() > depth + n.info.partial_len && k[depth
                + n.info.partial_len] == b {
                None
            } else {
                Node::N4(n).get(k, depth as nat)
            },
{
    let ghost on = Node::N4(n);
    let ghost d = depth as nat;
    let ghost fp = on.prefix();
    let mut n = n;
    let _removed = n.remove(b);
    let ghost ak = n.key@;
    let ghost ac = n.children@;
    let k0 = n.key[0];
    let c0 = n.children.pop().unwrap();
    let ghost dc = d + on.plen() + 1;
    proof {
        crate::inner::lemma_sorted_child(ak, ac);
        assert(sorted_child(ak, ac, k0) == Some(c0));
        assert(k0 != b);
        assert(on.child_at(k0) == Some(c0));
        assert forall|y: u8| y != b && y != k0 implies #[trigger] on.child_at(y) is None by {
            assert(sorted_child(ak, ac, y) is None);
        }
        lemma_size_two(on, b, k0, 256);
        assert(c0.wf(dc));
        assert(child_keys_ok(c0, d, fp, k0));
    }
    let r = if c0.is_leaf_node() {
        c0
    } else {
        let plen = n.info.partial_len;
        let ll = c0.any_leaf_key(Ghost(dc)).len();
        proof {
            let lk = choose|lk: Seq<u8>| c0.get(lk, dc) is Some && lk.len() == ll;
            lemma_get_inner(c0, lk, dc);
        }
        let cinfo = c0.info_ref();
        let cplen = cinfo.partial_len;
        let ghost cfp = c0.prefix();
        let ghost nfp = fp.push(k0) + cfp;
        let mut partial = vstd::slice::slice_to_vec(n.info.partial.as_slice());
        if partial.len() < MAX_PREFIX_LEN {
            partial.push(k0);
            let mut i: usize = 0;
            while partial.len() < MAX_PREFIX_LEN && i < cinfo.partial.len()
                invariant
                    plen < MAX_PREFIX_LEN,
                    info_wf(*cinfo),
                    cfp == cinfo.prefix@,
                    nfp == fp.push(k0) + cfp,
                    fp.len() == plen,
                    i <= cinfo.partial@.len(),
                    partial@.len() == plen + 1 + i,
                    partial@.len() <= MAX_PREFIX_LEN,
                    partial@ == nfp.take(partial@.len() as int),
                decreases cinfo.partial@.len() - i,
            {
                partial.push(cinfo.partial[i]);
                i = i + 1;
                proof {
                    assert(partial@ =~= nfp.take(partial@.len() as int));
                }
            }
        }
        let new_plen = plen + 1 + cplen;
        proof {
            assert(partial@ =~= nfp.take(stored_len(new_plen as nat) as int));
            let op = on.info().partial@;
            let cp = c0.info().partial@;
            let l = stored_len(new_plen as nat) as int;
            assert(partial@ =~= (op.push(k0) + cp).take(l)) by {
                if plen < MAX_PREFIX_LEN {
                    assert(op =~= fp);
                    assert forall|i: int| 0 <= i < l implies partial@[i] == (op.push(k0) + cp)[i] by {
                        if i > plen {
                            assert(cp[i - plen - 1] == cfp[i - plen - 1]);
                        }
                    }
                }
            }
        }
        let merged = c0.with_path(partial, new_plen, Ghost(nfp));
        proof {
            assert(d + merged.plen() == dc + c0.plen());
            assert forall|x: u8| #[trigger] merged.child_at(x) is Some implies ({
                let c = merged.child_at(x)->Some_0;
                &&& c.wf(d + merged.plen() + 1)
                &&& child_keys_ok(c, d, merged.prefix(), x)
            }) by {
                let c = merged.child_at(x)->Some_0;
                assert(c0.child_at(x) == Some(c));
                assert forall|k: Seq<u8>| #[trigger] c.get(k, d + nfp.len() + 1) is Some implies {
                    &&& k.len() > d + nfp.len()
                    &&& k[d + nfp.len() as int] == x
                    &&& k.subrange(d as int, d + nfp.len() as int) == nfp
                } by {
                    assert(c.get(k, dc + cfp.len() + 1) is Some);
                    assert(c0.get(k, dc) == c.get(k, dc + cfp.len() + 1));
                    assert(c0.get(k, d + fp.len() + 1) is Some);
                    assert(k.subrange(d as int, d + nfp.len() as int) =~= nfp) by {
                        assert(k.subrange(d as int, d + fp.len() as int) == fp);
                        assert(k.subrange(dc as int, dc + cfp.len() as int) == cfp);
                        assert forall|i: int| 0 <= i < nfp.len() implies k[d + i] == nfp[i] by {
                            if i < fp.len() {
                                assert(k.subrange(d as int, d + fp.len() as int)[i] == k[d + i]);
                            } else if i == fp.len() {
                            } else {
                                assert(k.subrange(dc as int, dc + cfp.len() as int)[i - fp.len() - 1] == k[d + i]);
                            }
                        }
                    }
                }
            }
            assert(merged.wf(d));
            lemma_size_replace(c0, merged, 0, 256);
        }
        merged
    };
    proof {
        assert forall|k: Seq<u8>| #[trigger] r.get(k, d) == c0.get(k, dc) by {
        }
        assert forall|k: Seq<u8>| #[trigger] r.get(k, d) == if k.len() > depth + fp.len() && k[depth
            + fp.len()] == b {
            None
        } else {
            on.get(k, d)
        } by {
            if c0.get(k, d + fp.len() + 1) is Some {
                assert(k[d + fp.len() as int] == k0);
            }
            if k.len() > d + fp.len() && k[d + fp.len() as int] == k0 {
                assert(on.get(k, d) == c0.get(k, dc));
            }
            if k.len() > d + fp.len() && k[d + fp.len() as int] != k0 && k[d + fp.len() as int] != b {
                assert(on.child_at(k[d + fp.len() as int]) is None) by {
                    assert(sorted_child(ak, ac, k[d + fp.len() as int]) is None);
                }
            }
        }
    }
    r
}

/// Removes `key`, which is stored below the inner node `node`, reached with `depth` bytes of
/// `key` consumed.
pub fn delete_rec<T>(node: &mut Node<T>, key: &Vec<u8>, depth: usize)
    requires
        old(node).wf(depth as nat),
        !old(node).is_leaf(),
        depth <= key@.len(),
        old(node).get(key@, depth as nat) is Some,
    ensures
        final(node).wf(depth as nat),
        forall|k: Seq<u8>|
            #[trigger] final(node).get(k, depth as nat) == if k == key@ {
                None
            } else {
                old(node).get(k, depth as nat)
            },
        final(node).size() + (if old(node).holder_count(key@, depth as nat) == 2 {
            2nat
        } else {
            1nat
        }) == old(node).size(),
    decreases key@.len() - depth,
{
    let ghost d = depth as nat;
    let ghost on = *node;
    let plen = node.info_ref().partial_len;
    if plen >= key.len() - depth {
        proof {
            assert(on.get(key@, d) is None);
        }
        return;
    }
    let p = depth + plen;
    let b = key[p];
    let (leaf_child, found) = match node.find_child(b) {
        None => {
            proof {
                assert(on.get(key@, d) is None);
            }
            return;
        },
        Some(c) => match c {
            Node::Leaf(l) => (true, bytes_equal(&l.key, key)),
            _ => (false, false),
        },
    };
    let ghost fp = on.prefix();
    let ghost c = on.child_at(b)->Some_0;
    if leaf_child {
        if !found {
            proof {
                assert(on.get(key@, d) == c.get(key@, (p + 1) as nat));
            }
            return;
        }
        let pair = match node {
            Node::N4(n) => n.info.count == 2,
            _ => false,
        };
        if pair {
            let mut tmp = Node::placeholder();
            std::mem::swap(node, &mut tmp);
            match tmp {
                Node::N4(n) => {
                    *node = merge_n4(n, b, depth);
                },
                _ => {
                    *node = tmp;
                },
            }
            proof {
                assert forall|k: Seq<u8>| #[trigger] node.get(k, d) == if k == key@ {
                    None
                } else {
                    on.get(k, d)
                } by {
                    if k.len() > p && k[p as int] == b {
                        assert(on.get(k, d) == c.get(k, (p + 1) as nat));
                    }
                }
                assert(on.holder_count(key@, d) == 2);
            }
        } else {
            let _removed = node.remove_child(b);
            proof {
                lemma_replace_child(on, *node, b, d);
                assert forall|k: Seq<u8>| #[trigger] node.get(k, d) == if k == key@ {
                    None
                } else {
                    on.get(k, d)
                } by {
                    if k.len() > p && k[p as int] == b {
                        assert(on.get(k, d) == c.get(k, (p + 1) as nat));
                    }
                }
                lemma_size_replace(on, *node, b, 256);
                assert(on.holder_count(key@, d) == on.info().count);
            }
        }
    } else {
        proof {
            assert(on.get(key@, d) == c.get(key@, (p + 1) as nat));
        }
        let child = node.child_mut(b);
        delete_rec(child, key, p + 1);
        proof {
            let nc = node.child_at(b)->Some_0;
            assert forall|k: Seq<u8>| #[trigger] nc.get(k, d + fp.len() + 1) is Some implies {
                &&& k.len() > d + fp.len()
                &&& k[d + fp.len() as int] == b
                &&& k.subrange(d as int, d + fp.len() as int) == fp
            } by {
                assert(nc.get(k, (p + 1) as nat) is Some);
                assert(c.get(k, d + fp.len() + 1) is Some);
            }
            lemma_replace_child(on, *node, b, d);
            assert forall|k: Seq<u8>| #[trigger] node.get(k, d) == if k == key@ {
                None
            } else {
                on.get(k, d)
            } by {
                if k.len() > p && k[p as int] == b {
                    assert(node.get(k, d) == nc.get(k, (p + 1) as nat));
                    assert(on.get(k, d) == c.get(k, (p + 1) as nat));
                }
            }
            lemma_size_replace(on, *node, b, 256);
            assert(on.get(key@, d) == c.get(key@, (p + 1) as nat));
            assert(on.holder_count(key@, d) == c.holder_count(key@, (p + 1) as nat));
        }
    }
}

} // verus!
