use vstd::prelude::*;

verus! {

/// A key type with a total order that executable code can decide.
pub trait TotalOrder: Sized + Copy {
    /// `self` comes no later than `other`.
    spec fn le(self, other: Self) -> bool;

    proof fn le_reflexive(a: Self)
        ensures
            a.le(a),
    ;

    proof fn le_transitive(a: Self, b: Self, c: Self)
        requires
            a.le(b),
            b.le(c),
        ensures
            a.le(c),
    ;

    proof fn le_antisymmetric(a: Self, b: Self)
        requires
            a.le(b),
            b.le(a),
        ensures
            a == b,
    ;

    proof fn le_total(a: Self, b: Self)
        ensures
            a.le(b) || b.le(a),
    ;

    /// Strictly less: `other` does not come before or beside `self`.
    fn less(&self, other: &Self) -> (b: bool)
        ensures
            b == !other.le(*self),
    ;

    fn same(&self, other: &Self) -> (b: bool)
        ensures
            b == (*self == *other),
    ;
}

/// No element of `s` comes after a later one.
pub open spec fn sorted<T: TotalOrder>(s: Seq<T>) -> bool {
    forall|i: int, j: int| 0 <= i <= j < s.len() ==> (#[trigger] s[i]).le(#[trigger] s[j])
}

/// `s` with `v` put behind the last element that is not greater than `v`:
/// among equal keys the newest comes last.
pub open spec fn placed<T: TotalOrder>(s: Seq<T>, v: T) -> Seq<T>
    decreases s.len(),
{
    if s.len() == 0 {
        seq![v]
    } else if s.last().le(v) {
        s.push(v)
    } else {
        placed(s.drop_last(), v).push(s.last())
    }
}

/// Where `v` enters `s`, told by what stands on either side of it.
pub proof fn lemma_placed_at<T: TotalOrder>(s: Seq<T>, v: T, p: int)
    requires
        0 <= p <= s.len(),
        forall|j: int| 0 <= j < p ==> (#[trigger] s[j]).le(v),
        forall|j: int| p <= j < s.len() ==> !(#[trigger] s[j]).le(v),
    ensures
        placed(s, v) == s.insert(p, v),
    decreases s.len(),
{
    if s.len() == 0 {
        assert(s.insert(p, v) =~= seq![v]);
    } else if p == s.len() {
        assert(s.last() == s[p - 1]);
        assert(s.insert(p, v) =~= s.push(v));
    } else {
        assert(s.last() == s[s.len() - 1]);
        lemma_placed_at(s.drop_last(), v, p);
        assert(s.drop_last().insert(p, v).push(s.last()) =~= s.insert(p, v));
    }
}

/// In a sorted sequence it does not matter which occurrence of a value leaves.
pub proof fn lemma_remove_any_occurrence<T: TotalOrder>(s: Seq<T>, v: T, q: int)
    requires
        sorted(s),
        0 <= q < s.len(),
        s[q] == v,
    ensures
        s.remove_value(v) == s.remove(q),
        s.contains(v),
{
    s.index_of_first_ensures(v);
    assert(s.contains(v));
    let f = s.index_of_first(v).unwrap();
    assert(f <= q) by {
        if q < f {
            assert(s[q] != v);
        }
    }
    assert forall|i: int| f <= i <= q implies s[i] == v by {
        assert(s[f].le(s[i]));
        assert(s[i].le(s[q]));
        T::le_antisymmetric(s[i], v);
    }
    assert(s.remove(f) =~= s.remove(q));
}

/// Taking an element out of a sorted sequence leaves it sorted.
pub proof fn lemma_remove_keeps_sorted<T: TotalOrder>(s: Seq<T>, q: int)
    requires
        sorted(s),
        0 <= q < s.len(),
    ensures
        sorted(s.remove(q)),
{
    let r = s.remove(q);
    assert forall|i: int, j: int| 0 <= i <= j < r.len() implies (#[trigger] r[i]).le(
        #[trigger] r[j],
    ) by {
        let a = if i < q { i } else { i + 1 };
        let b = if j < q { j } else { j + 1 };
        assert(r[i] == s[a]);
        assert(r[j] == s[b]);
        assert(s[a].le(s[b]));
    }
}

impl TotalOrder for i32 {
    open spec fn le(self, other: Self) -> bool {
        self <= other
    }

    proof fn le_reflexive(a: Self) {
    }

    proof fn le_transitive(a: Self, b: Self, c: Self) {
    }

    proof fn le_antisymmetric(a: Self, b: Self) {
    }

    proof fn le_total(a: Self, b: Self) {
    }

    fn less(&self, other: &Self) -> (b: bool) {
        *self < *other
    }

    fn same(&self, other: &Self) -> (b: bool) {
        *self == *other
    }
}

impl TotalOrder for i64 {
    open spec fn le(self, other: Self) -> bool {
        self <= other
    }

    proof fn le_reflexive(a: Self) {
    }

    proof fn le_transitive(a: Self, b: Self, c: Self) {
    }

    proof fn le_antisymmetric(a: Self, b: Self) {
    }

    proof fn le_total(a: Self, b: Self) {
    }

    fn less(&self, other: &Self) -> (b: bool) {
        *self < *other
    }

    fn same(&self, other: &Self) -> (b: bool) {
        *self == *other
    }
}

impl TotalOrder for u32 {
    open spec fn le(self, other: Self) -> bool {
        self <= other
    }

    proof fn le_reflexive(a: Self) {
    }

    proof fn le_transitive(a: Self, b: Self, c: Self) {
    }

    proof fn le_antisymmetric(a: Self, b: Self) {
    }

    proof fn le_total(a: Self, b: Self) {
    }

    fn less(&self, other: &Self) -> (b: bool) {
        *self < *other
    }

    fn same(&self, other: &Self) -> (b: bool) {
        *self == *other
    }
}

impl TotalOrder for u64 {
    open spec fn le(self, other: Self) -> bool {
        self <= other
    }

    proof fn le_reflexive(a: Self) {
    }

    proof fn le_transitive(a: Self, b: Self, c: Self) {
    }

    proof fn le_antisymmetric(a: Self, b: Self) {
    }

    proof fn le_total(a: Self, b: Self) {
    }

    fn less(&self, other: &Self) -> (b: bool) {
        *self < *other
    }

    fn same(&self, other: &Self) -> (b: bool) {
        *self == *other
    }
}

impl TotalOrder for usize {
    open spec fn le(self, other: Self) -> bool {
        self <= other
    }

    proof fn le_reflexive(a: Self) {
    }

    proof fn le_transitive(a: Self, b: Self, c: Self) {
    }

    proof fn le_antisymmetric(a: Self, b: Self) {
    }

    proof fn le_total(a: Self, b: Self) {
    }

    fn less(&self, other: &Self) -> (b: bool) {
        *self < *other
    }

    fn same(&self, other: &Self) -> (b: bool) {
        *self == *other
    }
}

impl TotalOrder for char {
    open spec fn le(self, other: Self) -> bool {
        self <= other
    }

    proof fn le_reflexive(a: Self) {
    }

    proof fn le_transitive(a: Self, b: Self, c: Self) {
    }

    proof fn le_antisymmetric(a: Self, b: Self) {
    }

    proof fn le_total(a: Self, b: Self) {
    }

    fn less(&self, other: &Self) -> (b: bool) {
        *self < *other
    }

    fn same(&self, other: &Self) -> (b: bool) {
        *self == *other
    }
}

} // verus!
