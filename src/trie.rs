use vstd::prelude::*;
use std::collections::HashMap;
use std::hash::Hash;
use vstd::std_specs::hash::obeys_key_model;

verus! {

broadcast use vstd::std_specs::hash::group_hash_axioms;

/// A plain trie of element sequences, one hash map of children per node.
pub struct TrieNode<T> {
    next: HashMap<T, TrieNode<T>>,
    end: bool,
}

impl<T: Eq + Hash> TrieNode<T> {
    /// `s` was added below this node.
    pub closed spec fn contains(self, s: Seq<T>) -> bool
        decreases s.len(),
    {
        if s.len() == 0 {
            self.end
        } else if self.next@.contains_key(s[0]) {
            self.next@[s[0]].contains(s.drop_first())
        } else {
            false
        }
    }

    /// A proper prefix of `s` was added below this node.
    pub closed spec fn blocked(self, s: Seq<T>) -> bool
        decreases s.len(),
    {
        if s.len() == 0 {
            false
        } else if self.end {
            true
        } else if self.next@.contains_key(s[0]) {
            self.next@[s[0]].blocked(s.drop_first())
        } else {
            false
        }
    }

    /// The sequences added below this node.
    pub open spec fn view(self) -> Set<Seq<T>> {
        Set::new(|s: Seq<T>| self.contains(s))
    }

    /// `blocked` holds exactly when some proper prefix of `s`, the empty one included, was
    /// added.
    pub proof fn lemma_blocked(self, s: Seq<T>)
        ensures
            self.blocked(s) == exists|j: int| 0 <= j < s.len() && #[trigger] self.contains(s.take(j)),
        decreases s.len(),
    {
        if s.len() > 0 {
            assert(s.take(0) =~= Seq::<T>::empty());
            assert(self.contains(s.take(0)) == self.end);
            if self.next@.contains_key(s[0]) {
                let c = self.next@[s[0]];
                let t = s.drop_first();
                c.lemma_blocked(t);
                assert forall|j: int| 1 <= j < s.len() implies #[trigger] self.contains(s.take(j))
                    == c.contains(t.take(j - 1)) by {
                    assert(s.take(j).drop_first() =~= t.take(j - 1));
                }
                if c.blocked(t) {
                    let j = choose|j: int| 0 <= j < t.len() && #[trigger] c.contains(t.take(j));
                    assert(self.contains(s.take(j + 1)));
                }
                if exists|j: int| 0 <= j < s.len() && #[trigger] self.contains(s.take(j)) {
                    let j = choose|j: int| 0 <= j < s.len() && #[trigger] self.contains(s.take(j));
                    if j > 0 {
                        assert(c.contains(t.take(j - 1)));
                    }
                }
            } else {
                assert forall|j: int| 1 <= j < s.len() implies !#[trigger] self.contains(s.take(j)) by {
                    assert(s.take(j)[0] == s[0]);
                }
            }
        }
    }

    pub fn new() -> (r: Self)
        ensures
            r.view() == Set::<Seq<T>>::empty(),
            forall|s: Seq<T>| !#[trigger] r.blocked(s),
    {
        let r = TrieNode { next: HashMap::new(), end: false };
        proof {
            assert forall|s: Seq<T>| !#[trigger] r.contains(s) by {}
            assert(r.view() =~= Set::<Seq<T>>::empty());
        }
        r
    }

    /// Adds `s`, unless a proper prefix of it was added before: a walk down the trie
    /// stops at the first node that ends an added sequence.
    pub fn add(&mut self, s: Vec<T>)
        requires
            obeys_key_model::<T>(),
        ensures
            final(self).view() == if exists|j: int|
                0 <= j < s@.len() && #[trigger] old(self).view().contains(s@.take(j)) {
                old(self).view()
            } else {
                old(self).view().insert(s@)
            },
    {
        let ghost os = s@;
        proof {
            let o = *old(self);
            o.lemma_blocked(os);
            if exists|j: int| 0 <= j < os.len() && #[trigger] o.view().contains(os.take(j)) {
                let j = choose|j: int| 0 <= j < os.len() && #[trigger] o.view().contains(os.take(j));
                assert(o.contains(os.take(j)));
            }
            if o.blocked(os) {
                let j = choose|j: int| 0 <= j < os.len() && #[trigger] o.contains(os.take(j));
                assert(o.view().contains(os.take(j)));
            }
        }
        self.add_seq(s);
        proof {
            assert(self.view() =~= if old(self).blocked(os) {
                old(self).view()
            } else {
                old(self).view().insert(os)
            });
        }
    }

    fn add_seq(&mut self, s: Vec<T>)
        requires
            obeys_key_model::<T>(),
        ensures
            forall|t: Seq<T>|
                #[trigger] final(self).contains(t) == (old(self).contains(t) || (t == s@
                    && !old(self).blocked(s@))),
        decreases s@.len(),
    {
        let mut s = s;
        if s.len() == 0 || self.end {
            let ghost on = *self;
            self.end = true;
            proof {
                assert forall|t: Seq<T>| #[trigger] self.contains(t) == (on.contains(t) || (t == s@
                    && !on.blocked(s@))) by {
                    if t.len() == 0 && s@.len() == 0 {
                        assert(t =~= s@);
                    }
                }
            }
            return;
        }
        let ghost os = s@;
        let ghost on = *self;
        let c = s.remove(0);
        proof {
            assert(s@ == os.drop_first());
        }
        let fresh = TrieNode::new();
        proof {
            assert forall|t: Seq<T>| !#[trigger] fresh.contains(t) by {
                assert(!fresh.view().contains(t));
            }
        }
        let ghost fresh_g = fresh;
        let child = self.next.entry(c).or_insert(fresh);
        let ghost child0 = *child;
        proof {
            assert(child0 == if on.next@.contains_key(c) {
                on.next@[c]
            } else {
                fresh_g
            });
        }
        child.add_seq(s);
        proof {
            let nc = self.next@[c];
            assert(self.next@ == on.next@.insert(c, nc));
            assert(!on.end);
            assert(on.blocked(os) == (on.next@.contains_key(c) && on.next@[c].blocked(s@)));
            assert forall|t: Seq<T>| #[trigger] self.contains(t) == (on.contains(t) || (t == os
                && !on.blocked(os))) by {
                if t.len() > 0 && t[0] == c {
                    assert(self.contains(t) == nc.contains(t.drop_first()));
                    if t.drop_first() == s@ {
                        assert forall|i: int| 0 <= i < t.len() implies t[i] == os[i] by {
                            if i > 0 {
                                assert(t[i] == t.drop_first()[i - 1]);
                                assert(os[i] == os.drop_first()[i - 1]);
                            }
                        }
                        assert(t =~= os);
                    }
                    if t == os {
                        assert(t.drop_first() == s@);
                    }
                } else if t.len() > 0 {
                    assert(self.next@.contains_key(t[0]) == on.next@.contains_key(t[0]));
                } else {
                    assert(t != os);
                }
            }
        }
    }

    /// Whether `s` was added (and not shadowed by an added proper prefix).
    pub fn find(&self, s: &[T]) -> (r: bool)
        requires
            obeys_key_model::<T>(),
        ensures
            r == self.view().contains(s@),
    {
        proof {
            assert(s@.skip(0) =~= s@);
        }
        self.find_from(s, 0)
    }

    fn find_from(&self, s: &[T], i: usize) -> (r: bool)
        requires
            obeys_key_model::<T>(),
            i <= s@.len(),
        ensures
            r == self.contains(s@.skip(i as int)),
        decreases s@.len() - i,
    {
        if i == s.len() {
            return self.end;
        }
        proof {
            assert(s@.skip(i as int)[0] == s@[i as int]);
            assert(s@.skip(i as int).drop_first() == s@.skip(i + 1));
        }
        match self.next.get(&s[i]) {
            Some(n) => n.find_from(s, i + 1),
            None => false,
        }
    }
}

} // verus!
