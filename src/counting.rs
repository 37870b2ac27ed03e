use vstd::prelude::*;
use crate::node::{count_mapped, count_some, N48_ABSENT};

verus! {

pub proof fn lemma_count_some_update<A>(s: Seq<Option<A>>, i: int, x: Option<A>)
    requires
        0 <= i < s.len(),
    ensures
        count_some(s.update(i, x)) + (if s[i] is Some { 1int } else { 0int }) == count_some(s) + (
        if x is Some {
            1int
        } else {
            0int
        }),
    decreases s.len(),
{
    let t = s.update(i, x);
    if i == s.len() - 1 {
        assert(t.drop_last() == s.drop_last());
    } else {
        assert(t.drop_last() == s.drop_last().update(i, x));
        lemma_count_some_update(s.drop_last(), i, x);
    }
}

pub proof fn lemma_count_some_bounds<A>(s: Seq<Option<A>>)
    ensures
        count_some(s) <= s.len(),
        count_some(s) < s.len() ==> exists|i: int| 0 <= i < s.len() && s[i] is None,
        count_some(s) > 0 ==> exists|i: int| 0 <= i < s.len() && s[i] is Some,
    decreases s.len(),
{
    if s.len() > 0 {
        lemma_count_some_bounds(s.drop_last());
        if count_some(s.drop_last()) < s.drop_last().len() {
            let i = choose|i: int| 0 <= i < s.drop_last().len() && s.drop_last()[i] is None;
            assert(s[i] is None);
        }
        if count_some(s.drop_last()) > 0 {
            let i = choose|i: int| 0 <= i < s.drop_last().len() && s.drop_last()[i] is Some;
            assert(s[i] is Some);
        }
    }
}

pub proof fn lemma_count_some_none<A>(s: Seq<Option<A>>)
    requires
        forall|i: int| 0 <= i < s.len() ==> s[i] is None,
    ensures
        count_some(s) == 0,
    decreases s.len(),
{
    if s.len() > 0 {
        lemma_count_some_none(s.drop_last());
    }
}

pub proof fn lemma_count_mapped_update(s: Seq<u8>, i: int, x: u8)
    requires
        0 <= i < s.len(),
    ensures
        count_mapped(s.update(i, x)) + (if s[i] != N48_ABSENT { 1int } else { 0int }) == count_mapped(s)
            + (if x != N48_ABSENT {
            1int
        } else {
            0int
        }),
    decreases s.len(),
{
    let t = s.update(i, x);
    if i == s.len() - 1 {
        assert(t.drop_last() == s.drop_last());
    } else {
        assert(t.drop_last() == s.drop_last().update(i, x));
        lemma_count_mapped_update(s.drop_last(), i, x);
    }
}

pub proof fn lemma_count_mapped_bounds(s: Seq<u8>)
    ensures
        count_mapped(s) <= s.len(),
        count_mapped(s) > 0 ==> exists|i: int| 0 <= i < s.len() && s[i] != N48_ABSENT,
    decreases s.len(),
{
    if s.len() > 0 {
        lemma_count_mapped_bounds(s.drop_last());
        if count_mapped(s.drop_last()) > 0 {
            let i = choose|i: int| 0 <= i < s.drop_last().len() && s.drop_last()[i] != N48_ABSENT;
            assert(s[i] != N48_ABSENT);
        }
    }
}

pub proof fn lemma_count_mapped_absent(s: Seq<u8>)
    requires
        forall|i: int| 0 <= i < s.len() ==> s[i] == N48_ABSENT,
    ensures
        count_mapped(s) == 0,
    decreases s.len(),
{
    if s.len() > 0 {
        lemma_count_mapped_absent(s.drop_last());
    }
}

/// Refilling an occupied slot keeps the count.
pub proof fn lemma_count_some_refill<A>(s: Seq<Option<A>>, i: int)
    requires
        0 <= i < s.len(),
        s[i] is Some,
    ensures
        forall|x: A| #[trigger] count_some(s.update(i, Some(x))) == count_some(s),
{
    assert forall|x: A| #[trigger] count_some(s.update(i, Some(x))) == count_some(s) by {
        lemma_count_some_update(s, i, Some(x));
    }
}

pub proof fn lemma_count_some_take<A>(s: Seq<Option<A>>, b: int)
    requires
        0 <= b <= s.len(),
    ensures
        count_some(s.take(b)) <= count_some(s),
    decreases s.len(),
{
    if b < s.len() {
        assert(s.drop_last().take(b) == s.take(b));
        lemma_count_some_take(s.drop_last(), b);
    } else {
        assert(s.take(b) == s);
    }
}

/// A slot array and a byte table that are occupied at the same places count alike.
pub proof fn lemma_count_some_mapped<A>(s: Seq<Option<A>>, t: Seq<u8>)
    requires
        s.len() == t.len(),
        forall|i: int| 0 <= i < s.len() ==> (s[i] is Some <==> t[i] != N48_ABSENT),
    ensures
        count_some(s) == count_mapped(t),
    decreases s.len(),
{
    if s.len() > 0 {
        lemma_count_some_mapped(s.drop_last(), t.drop_last());
    }
}

} // verus!
