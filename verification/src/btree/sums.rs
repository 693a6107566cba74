use vstd::prelude::*;
use vstd::multiset::Multiset;

verus! {

/// The values of all of `bs`, taken together.
pub open spec fn total<T>(bs: Seq<Multiset<T>>) -> Multiset<T>
    decreases bs.len(),
{
    if bs.len() == 0 {
        Multiset::empty()
    } else {
        total(bs.drop_last()).add(bs.last())
    }
}

/// A sequence without a value holds nothing.
pub proof fn lemma_empty_bag<T>(s: Seq<T>)
    requires
        s.len() == 0,
    ensures
        s.to_multiset() == Multiset::<T>::empty(),
{
    s.to_multiset_ensures();
    assert forall|e: T| s.to_multiset().count(e) == 0 by {
        if s.to_multiset().count(e) > 0 {
            assert(s.contains(e));
        }
    }
    assert(s.to_multiset() =~= Multiset::<T>::empty());
}

pub proof fn lemma_total_one<T>(b: Multiset<T>)
    ensures
        total(seq![b]) == b,
{
    assert(seq![b].drop_last() =~= Seq::<Multiset<T>>::empty());
    assert(total(seq![b].drop_last()) =~= Multiset::<T>::empty());
    assert(seq![b].last() == b);
    assert(Multiset::<T>::empty().add(b) =~= b);
}

/// The total of two sequences put together is the sum of their totals.
pub proof fn lemma_total_concat<T>(a: Seq<Multiset<T>>, b: Seq<Multiset<T>>)
    ensures
        total(a + b) == total(a).add(total(b)),
    decreases b.len(),
{
    if b.len() == 0 {
        assert(a + b =~= a);
        assert(total(a).add(Multiset::<T>::empty()) =~= total(a));
    } else {
        assert((a + b).drop_last() =~= a + b.drop_last());
        assert((a + b).last() == b.last());
        lemma_total_concat(a, b.drop_last());
        assert(total(a).add(total(b.drop_last())).add(b.last()) =~= total(a).add(
            total(b.drop_last()).add(b.last()),
        ));
    }
}

/// A sequence cut in two keeps its total.
pub proof fn lemma_total_split<T>(bs: Seq<Multiset<T>>, at: int)
    requires
        0 <= at <= bs.len(),
    ensures
        total(bs) == total(bs.subrange(0, at)).add(total(bs.subrange(at, bs.len() as int))),
{
    assert(bs =~= bs.subrange(0, at) + bs.subrange(at, bs.len() as int));
    lemma_total_concat(bs.subrange(0, at), bs.subrange(at, bs.len() as int));
}

/// One more member adds its values to the total.
pub proof fn lemma_total_insert<T>(bs: Seq<Multiset<T>>, at: int, b: Multiset<T>)
    requires
        0 <= at <= bs.len(),
    ensures
        total(bs.insert(at, b)) == total(bs).add(b),
{
    let front = bs.subrange(0, at);
    let back = bs.subrange(at, bs.len() as int);
    lemma_total_split(bs, at);
    assert(bs.insert(at, b) =~= front + seq![b] + back);
    lemma_total_concat(front + seq![b], back);
    lemma_total_concat(front, seq![b]);
    lemma_total_one(b);
    assert(total(front).add(b).add(total(back)) =~= total(front).add(total(back)).add(b));
}

/// A member that is exchanged takes its values with it and leaves those
/// of the new one.
pub proof fn lemma_total_update<T>(bs: Seq<Multiset<T>>, at: int, b: Multiset<T>)
    requires
        0 <= at < bs.len(),
    ensures
        total(bs.update(at, b)).add(bs[at]) == total(bs).add(b),
{
    let front = bs.subrange(0, at);
    let back = bs.subrange(at + 1, bs.len() as int);
    assert(bs =~= front + seq![bs[at]] + back);
    assert(bs.update(at, b) =~= front + seq![b] + back);
    lemma_total_concat(front + seq![bs[at]], back);
    lemma_total_concat(front, seq![bs[at]]);
    lemma_total_concat(front + seq![b], back);
    lemma_total_concat(front, seq![b]);
    lemma_total_one(b);
    lemma_total_one(bs[at]);
    assert(total(front).add(b).add(total(back)).add(bs[at]) =~= total(front).add(bs[at]).add(
        total(back),
    ).add(b));
}

/// What is in the total is in one of the members, and the other way round.
pub proof fn lemma_total_member<T>(bs: Seq<Multiset<T>>, e: T)
    ensures
        total(bs).count(e) > 0 <==> exists|j: int| 0 <= j < bs.len() && (#[trigger] bs[j]).count(e) > 0,
    decreases bs.len(),
{
    if bs.len() == 0 {
    } else {
        lemma_total_member(bs.drop_last(), e);
        if total(bs).count(e) > 0 {
            if bs.last().count(e) > 0 {
                assert(bs[bs.len() - 1].count(e) > 0);
            } else {
                let j = choose|j: int|
                    0 <= j < bs.drop_last().len() && (#[trigger] bs.drop_last()[j]).count(e) > 0;
                assert(bs[j].count(e) > 0);
            }
        }
        if exists|j: int| 0 <= j < bs.len() && (#[trigger] bs[j]).count(e) > 0 {
            let j = choose|j: int| 0 <= j < bs.len() && (#[trigger] bs[j]).count(e) > 0;
            if j < bs.len() - 1 {
                assert(bs.drop_last()[j].count(e) > 0);
            }
        }
    }
}

} // verus!
