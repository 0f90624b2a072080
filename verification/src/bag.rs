//! Lists as collections without order.

use vstd::prelude::*;
use vstd::multiset::Multiset;

verus! {

broadcast use vstd::multiset::group_multiset_axioms;

/// The members of a list as a collection without order: each as often as
/// the list holds it.
pub open spec fn bag<A>(list: Seq<A>) -> Multiset<A>
    decreases list.len(),
{
    if list.len() == 0 {
        Multiset::empty()
    } else {
        bag(list.drop_last()).insert(list.last())
    }
}

/// A list has as many members as its collection.
pub proof fn lemma_bag_len<A>(a: Seq<A>)
    ensures
        bag(a).len() == a.len(),
    decreases a.len(),
{
    if a.len() > 0 {
        lemma_bag_len(a.drop_last());
    }
}

/// Every member of a list is in its collection.
pub proof fn lemma_bag_member<A>(b: Seq<A>, j: int)
    requires
        0 <= j < b.len(),
    ensures
        bag(b).count(b[j]) > 0,
    decreases b.len(),
{
    if j < b.len() - 1 {
        lemma_bag_member(b.drop_last(), j);
    }
}

/// What is in the collection of a list is a member of the list.
pub proof fn lemma_bag_has<A>(b: Seq<A>, x: A)
    requires
        bag(b).count(x) > 0,
    ensures
        exists|j: int| 0 <= j < b.len() && b[j] == x,
    decreases b.len(),
{
    if b.len() > 0 {
        if b.last() == x {
            assert(b[b.len() - 1] == x);
        } else {
            lemma_bag_has(b.drop_last(), x);
            let j = choose|j: int| 0 <= j < b.drop_last().len() && b.drop_last()[j] == x;
            assert(b[j] == x);
        }
    }
}

/// A list without its member at `j` holds that member once less.
pub proof fn lemma_bag_without<A>(b: Seq<A>, j: int)
    requires
        0 <= j < b.len(),
    ensures
        bag(b.remove(j)) == bag(b).remove(b[j]),
    decreases b.len(),
{
    if j == b.len() - 1 {
        assert(b.remove(j) =~= b.drop_last());
        assert(bag(b).remove(b[j]) =~= bag(b.drop_last()));
    } else {
        let shorter = b.drop_last();
        lemma_bag_without(shorter, j);
        lemma_bag_member(shorter, j);
        assert(b.remove(j).drop_last() =~= shorter.remove(j));
        assert(b.remove(j).last() == b.last());
        assert(shorter[j] == b[j]);
        assert(bag(b.remove(j)) =~= bag(b).remove(b[j]));
    }
}

/// Two lists with the same members, the second without the member that is
/// the last of the first: the rest of both has the same members.
pub proof fn lemma_bag_peel<A>(a: Seq<A>, b: Seq<A>) -> (j: int)
    requires
        bag(a) == bag(b),
        a.len() > 0,
    ensures
        0 <= j < b.len(),
        b[j] == a.last(),
        bag(a.drop_last()) == bag(b.remove(j)),
{
    lemma_bag_member(a, a.len() - 1);
    lemma_bag_has(b, a.last());
    let j = choose|j: int| 0 <= j < b.len() && b[j] == a.last();
    lemma_bag_without(b, j);
    lemma_bag_without(a, a.len() - 1);
    assert(a.remove(a.len() - 1) =~= a.drop_last());
    j
}

} // verus!
