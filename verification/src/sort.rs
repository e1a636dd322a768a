//! A stable insertion sort for any type whose values can say which of two
//! must go first.
use vstd::prelude::*;

verus! {

broadcast use vstd::seq_lib::group_seq_properties;

/// Values that can be put in order.  `precedes(a, b)` says that `a` must go
/// strictly before `b`; values where neither precedes the other rank equally
/// and keep their relative order when sorted.
pub trait Ordered: View + Sized {
    spec fn precedes(a: Self::V, b: Self::V) -> bool;

    proof fn lemma_precedes_transitive(a: Self::V, b: Self::V, c: Self::V)
        requires
            Self::precedes(a, b),
            Self::precedes(b, c),
        ensures
            Self::precedes(a, c),
    ;

    proof fn lemma_precedes_asymmetric(a: Self::V, b: Self::V)
        requires
            Self::precedes(a, b),
        ensures
            !Self::precedes(b, a),
    ;

    proof fn lemma_not_precedes_transitive(a: Self::V, b: Self::V, c: Self::V)
        requires
            !Self::precedes(b, a),
            !Self::precedes(c, b),
        ensures
            !Self::precedes(c, a),
    ;

    fn goes_before(&self, other: &Self) -> (r: bool)
        ensures
            r == Self::precedes(self@, other@),
    ;

    fn duplicate(&self) -> (r: Self)
        ensures
            r@ == self@,
    ;
}

/// `e` inserted into `s` behind every value that it does not precede.
pub open spec fn insert_ordered<T: Ordered>(s: Seq<T::V>, e: T::V) -> Seq<T::V>
    decreases s.len(),
{
    if s.len() == 0 {
        seq![e]
    } else if T::precedes(e, s.last()) {
        insert_ordered::<T>(s.drop_last(), e).push(s.last())
    } else {
        s.push(e)
    }
}

/// The stable sort of `s`: its values inserted one after another.
pub open spec fn sort_ordered<T: Ordered>(s: Seq<T::V>) -> Seq<T::V>
    decreases s.len(),
{
    if s.len() == 0 {
        Seq::empty()
    } else {
        insert_ordered::<T>(sort_ordered::<T>(s.drop_last()), s.last())
    }
}

/// No value of `s` is preceded by a value that comes after it.
pub open spec fn is_ordered<T: Ordered>(s: Seq<T::V>) -> bool {
    forall|i: int, j: int| 0 <= i < j < s.len() ==> !T::precedes(#[trigger] s[j], #[trigger] s[i])
}

/// `x` and `y` rank equally: neither precedes the other.
pub open spec fn same_rank<T: Ordered>(x: T::V, y: T::V) -> bool {
    !T::precedes(x, y) && !T::precedes(y, x)
}

/// Picks the values that rank equally with `k`.
pub open spec fn rank_class<T: Ordered>(k: T::V) -> spec_fn(T::V) -> bool {
    |x: T::V| same_rank::<T>(x, k)
}

pub proof fn lemma_ordered_drop_last<T: Ordered>(s: Seq<T::V>)
    requires
        is_ordered::<T>(s),
        s.len() > 0,
    ensures
        is_ordered::<T>(s.drop_last()),
{
    let t = s.drop_last();
    assert forall|i: int, j: int| 0 <= i < j < t.len() implies !T::precedes(#[trigger] t[j], #[trigger] t[i]) by {
        assert(t[i] == s[i] && t[j] == s[j]);
    }
}

/// Two sequences in order that agree on each class of equally ranked values
/// (same values, in the same order) are the same sequence.
pub proof fn lemma_ordered_equal<T: Ordered>(s: Seq<T::V>, t: Seq<T::V>)
    requires
        is_ordered::<T>(s),
        is_ordered::<T>(t),
        forall|k: T::V| s.filter(rank_class::<T>(k)) == t.filter(rank_class::<T>(k)),
    ensures
        s == t,
    decreases s.len() + t.len(),
{
    reveal(Seq::filter);
    if s.len() == 0 && t.len() == 0 {
        assert(s =~= t);
    } else if s.len() == 0 || t.len() == 0 {
        let (u, v) = if s.len() == 0 { (t, s) } else { (s, t) };
        let k = u.last();
        if T::precedes(k, k) {
            T::lemma_precedes_asymmetric(k, k);
        }
        assert(rank_class::<T>(k)(k));
        assert(u.filter(rank_class::<T>(k)).len() > 0);
        assert(v.filter(rank_class::<T>(k)).len() == 0);
        assert(s.filter(rank_class::<T>(k)) == t.filter(rank_class::<T>(k)));
    } else {
        let x = s.last();
        let y = t.last();
        let s1 = s.drop_last();
        let t1 = t.drop_last();
        if T::precedes(x, x) {
            T::lemma_precedes_asymmetric(x, x);
        }
        if T::precedes(y, y) {
            T::lemma_precedes_asymmetric(y, y);
        }
        let cx = rank_class::<T>(x);
        let cy = rank_class::<T>(y);
        assert(cx(x) && cy(y));
        // `x` lies in `t`, so it does not come after `y`; and the other way round.
        assert(s.filter(cx) == s1.filter(cx).push(x));
        assert(t.filter(cx) == s.filter(cx));
        assert(t.filter(cx).contains(x));
        t.lemma_filter_contains_rev(cx, x);
        let m = choose|m: int| 0 <= m < t.len() && t[m] == x;
        if m < t.len() - 1 {
            assert(!T::precedes(t[t.len() - 1], t[m]));
        }
        assert(t.filter(cy) == t1.filter(cy).push(y));
        assert(s.filter(cy) == t.filter(cy));
        assert(s.filter(cy).contains(y));
        s.lemma_filter_contains_rev(cy, y);
        let n = choose|n: int| 0 <= n < s.len() && s[n] == y;
        if n < s.len() - 1 {
            assert(!T::precedes(s[s.len() - 1], s[n]));
        }
        assert(cx(y));
        assert(t.filter(cx) == t1.filter(cx).push(y));
        let fs = s.filter(cx);
        let ft = t.filter(cx);
        assert(fs[fs.len() - 1] == x);
        assert(ft[ft.len() - 1] == y);
        assert(x == y);
        lemma_ordered_drop_last::<T>(s);
        lemma_ordered_drop_last::<T>(t);
        assert forall|k: T::V| s1.filter(rank_class::<T>(k)) == t1.filter(rank_class::<T>(k)) by {
            let c = rank_class::<T>(k);
            assert(s.filter(c) == t.filter(c));
            if c(x) {
                assert(s.filter(c) == s1.filter(c).push(x));
                assert(t.filter(c) == t1.filter(c).push(x));
                assert(s1.filter(c) =~= s.filter(c).drop_last());
                assert(t1.filter(c) =~= t.filter(c).drop_last());
            } else {
                assert(s.filter(c) == s1.filter(c));
                assert(t.filter(c) == t1.filter(c));
            }
        }
        lemma_ordered_equal::<T>(s1, t1);
        assert(s =~= s1.push(x));
        assert(t =~= t1.push(y));
    }
}

/// Where `precedes` relates any two different values, there is only one
/// ordered arrangement of given values.
pub proof fn lemma_ordered_unique<T: Ordered>(a: Seq<T::V>, b: Seq<T::V>)
    requires
        is_ordered::<T>(a),
        is_ordered::<T>(b),
        a.to_multiset() == b.to_multiset(),
        forall|x: T::V, y: T::V| x != y ==> T::precedes(x, y) || T::precedes(y, x),
    ensures
        a == b,
    decreases a.len(),
{
    broadcast use vstd::seq::Seq::to_multiset_ensures;
    broadcast use vstd::multiset::group_multiset_axioms;

    if a.len() == 0 {
        assert(b.to_multiset().len() == 0);
        assert(b =~= a);
    } else {
        assert(a.to_multiset().len() == a.len());
        assert(b.to_multiset().len() == b.len());
        let x = a.last();
        let y = b.last();
        assert(a.contains(x));
        assert(b.to_multiset().count(x) > 0);
        let k = choose|k: int| 0 <= k < b.len() && b[k] == x;
        if k < b.len() - 1 {
            assert(!T::precedes(b[b.len() - 1], b[k]));
        }
        assert(b.contains(y));
        assert(a.to_multiset().count(y) > 0);
        let m = choose|m: int| 0 <= m < a.len() && a[m] == y;
        if m < a.len() - 1 {
            assert(!T::precedes(a[a.len() - 1], a[m]));
        }
        if T::precedes(x, x) {
            T::lemma_precedes_asymmetric(x, x);
        }
        assert(x == y);
        let a1 = a.drop_last();
        let b1 = b.drop_last();
        assert(a1.push(x) =~= a);
        assert(b1.push(y) =~= b);
        assert(a1.to_multiset() =~= a.to_multiset().remove(x));
        assert(b1.to_multiset() =~= b.to_multiset().remove(y));
        lemma_ordered_drop_last::<T>(a);
        lemma_ordered_drop_last::<T>(b);
        lemma_ordered_unique::<T>(a1, b1);
    }
}

pub proof fn lemma_insert_at<T: Ordered>(s: Seq<T::V>, e: T::V, j: int)
    requires
        0 <= j <= s.len(),
        forall|k: int| j <= k < s.len() ==> T::precedes(e, #[trigger] s[k]),
        j == 0 || !T::precedes(e, s[j - 1]),
    ensures
        insert_ordered::<T>(s, e) == s.take(j).push(e) + s.skip(j),
    decreases s.len(),
{
    if s.len() == 0 {
        assert(s.take(j).push(e) + s.skip(j) =~= seq![e]);
    } else if j == s.len() {
        assert(s.take(j).push(e) + s.skip(j) =~= s.push(e));
    } else {
        assert(T::precedes(e, s[s.len() - 1]));
        let t = s.drop_last();
        assert forall|k: int| j <= k < t.len() implies T::precedes(e, #[trigger] t[k]) by {
            assert(t[k] == s[k]);
        }
        lemma_insert_at::<T>(t, e, j);
        assert((t.take(j).push(e) + t.skip(j)).push(s.last()) =~= s.take(j).push(e) + s.skip(j));
    }
}

pub proof fn lemma_insert_to_multiset<T: Ordered>(s: Seq<T::V>, e: T::V)
    ensures
        insert_ordered::<T>(s, e).to_multiset() =~= s.to_multiset().insert(e),
    decreases s.len(),
{
    broadcast use vstd::seq::Seq::to_multiset_ensures;

    if s.len() > 0 && T::precedes(e, s.last()) {
        lemma_insert_to_multiset::<T>(s.drop_last(), e);
        assert(s.drop_last().push(s.last()) =~= s);
    }
}

pub proof fn lemma_sort_to_multiset<T: Ordered>(s: Seq<T::V>)
    ensures
        sort_ordered::<T>(s).to_multiset() =~= s.to_multiset(),
    decreases s.len(),
{
    broadcast use vstd::seq::Seq::to_multiset_ensures;

    if s.len() > 0 {
        lemma_sort_to_multiset::<T>(s.drop_last());
        lemma_insert_to_multiset::<T>(sort_ordered::<T>(s.drop_last()), s.last());
        assert(s.drop_last().push(s.last()) =~= s);
    }
}

/// Every value of the stable sort of `s` is a value of `s`.
pub proof fn lemma_sort_member<T: Ordered>(s: Seq<T::V>, i: int)
    requires
        0 <= i < sort_ordered::<T>(s).len(),
    ensures
        s.contains(sort_ordered::<T>(s)[i]),
{
    broadcast use vstd::seq::Seq::to_multiset_ensures;

    let u = sort_ordered::<T>(s);
    lemma_sort_to_multiset::<T>(s);
    assert(u.contains(u[i]));
    assert(u.to_multiset().count(u[i]) > 0);
    assert(s.to_multiset().count(u[i]) > 0);
}

pub proof fn lemma_insert_len<T: Ordered>(s: Seq<T::V>, e: T::V)
    ensures
        insert_ordered::<T>(s, e).len() == s.len() + 1,
    decreases s.len(),
{
    if s.len() > 0 && T::precedes(e, s.last()) {
        lemma_insert_len::<T>(s.drop_last(), e);
    }
}

pub proof fn lemma_sort_len<T: Ordered>(s: Seq<T::V>)
    ensures
        sort_ordered::<T>(s).len() == s.len(),
    decreases s.len(),
{
    if s.len() > 0 {
        lemma_sort_len::<T>(s.drop_last());
        lemma_insert_len::<T>(sort_ordered::<T>(s.drop_last()), s.last());
    }
}

pub proof fn lemma_insert_keeps_order<T: Ordered>(s: Seq<T::V>, e: T::V)
    requires
        is_ordered::<T>(s),
    ensures
        is_ordered::<T>(insert_ordered::<T>(s, e)),
    decreases s.len(),
{
    if s.len() > 0 && T::precedes(e, s.last()) {
        let t = s.drop_last();
        lemma_ordered_drop_last::<T>(s);
        lemma_insert_keeps_order::<T>(t, e);
        let u = insert_ordered::<T>(t, e);
        lemma_insert_to_multiset::<T>(t, e);
        lemma_insert_len::<T>(t, e);
        let r = u.push(s.last());
        assert forall|i: int, j: int| 0 <= i < j < r.len() implies !T::precedes(#[trigger] r[j], #[trigger] r[i]) by {
            if j == r.len() - 1 {
                // every value of `u` is `e` or a value of `t`
                assert(u.to_multiset().count(u[i]) > 0);
                assert(u.contains(u[i]));
                if u[i] == e {
                    T::lemma_precedes_asymmetric(e, s.last());
                } else {
                    assert(t.to_multiset().count(u[i]) > 0);
                    assert(t.contains(u[i]));
                    let k = choose|k: int| 0 <= k < t.len() && t[k] == u[i];
                    assert(s[k] == t[k]);
                    assert(!T::precedes(s[s.len() - 1], s[k]));
                }
            }
        }
    } else if s.len() > 0 {
        let r = s.push(e);
        assert forall|i: int, j: int| 0 <= i < j < r.len() implies !T::precedes(#[trigger] r[j], #[trigger] r[i]) by {
            if j == r.len() - 1 && i < s.len() - 1 {
                assert(!T::precedes(s[s.len() - 1], s[i]));
                T::lemma_not_precedes_transitive(s[i], s[s.len() - 1], e);
            }
        }
    }
}

/// The stable sort of any sequence is in order.
pub proof fn lemma_sort_is_ordered<T: Ordered>(s: Seq<T::V>)
    ensures
        is_ordered::<T>(sort_ordered::<T>(s)),
    decreases s.len(),
{
    if s.len() > 0 {
        lemma_sort_is_ordered::<T>(s.drop_last());
        lemma_insert_keeps_order::<T>(sort_ordered::<T>(s.drop_last()), s.last());
    }
}

/// Inserting a value leaves the values that rank equally with `k` in their
/// relative order (`p` picks exactly those values).
pub proof fn lemma_insert_stable<T: Ordered>(s: Seq<T::V>, e: T::V, k: T::V, p: spec_fn(T::V) -> bool)
    requires
        is_ordered::<T>(s),
        forall|x: T::V| #[trigger] p(x) == same_rank::<T>(x, k),
    ensures
        insert_ordered::<T>(s, e).filter(p) == if p(e) {
            s.filter(p).push(e)
        } else {
            s.filter(p)
        },
    decreases s.len(),
{
    if s.len() == 0 {
        assert(seq![e] =~= Seq::<T::V>::empty().push(e));
        Seq::<T::V>::empty().lemma_filter_push(e, p);
        reveal(Seq::filter);
    } else if T::precedes(e, s.last()) {
        let t = s.drop_last();
        lemma_ordered_drop_last::<T>(s);
        lemma_insert_stable::<T>(t, e, k, p);
        let u = insert_ordered::<T>(t, e);
        u.lemma_filter_push(s.last(), p);
        t.lemma_filter_push(s.last(), p);
        assert(t.push(s.last()) =~= s);
        if p(e) && p(s.last()) {
            T::lemma_not_precedes_transitive(s.last(), k, e);
        }
        if p(e) {
            assert(!p(s.last()));
        }
    } else {
        s.lemma_filter_push(e, p);
    }
}

/// Sorting keeps values of equal rank in the order in which they came: `p`
/// picks the values that rank equally with `k`.
pub proof fn lemma_sort_stable<T: Ordered>(s: Seq<T::V>, k: T::V, p: spec_fn(T::V) -> bool)
    requires
        forall|x: T::V| #[trigger] p(x) == same_rank::<T>(x, k),
    ensures
        sort_ordered::<T>(s).filter(p) == s.filter(p),
    decreases s.len(),
{
    if s.len() == 0 {
        reveal(Seq::filter);
    } else {
        let t = s.drop_last();
        lemma_sort_stable::<T>(t, k, p);
        lemma_sort_is_ordered::<T>(t);
        lemma_insert_stable::<T>(sort_ordered::<T>(t), s.last(), k, p);
        t.lemma_filter_push(s.last(), p);
        assert(t.push(s.last()) =~= s);
    }
}

/// Sorts `v` stably: the result is `sort_ordered` of its values.
pub fn sort_stable<T: Ordered>(v: &[T]) -> (r: Vec<T>)
    ensures
        r@.map_values(|x: T| x@) == sort_ordered::<T>(v@.map_values(|x: T| x@)),
{
    let mut r: Vec<T> = Vec::new();
    let ghost vs = v@.map_values(|x: T| x@);
    let mut i: usize = 0;
    while i < v.len()
        invariant
            i <= v.len(),
            vs == v@.map_values(|x: T| x@),
            r@.map_values(|x: T| x@) == sort_ordered::<T>(vs.take(i as int)),
        decreases v.len() - i,
    {
        let e = v[i].duplicate();
        let ghost rs = r@.map_values(|x: T| x@);
        let mut j: usize = r.len();
        while j > 0 && e.goes_before(&r[j - 1])
            invariant
                j <= r.len(),
                rs == r@.map_values(|x: T| x@),
                forall|k: int| j <= k < rs.len() ==> T::precedes(e@, #[trigger] rs[k]),
            decreases j,
        {
            j = j - 1;
        }
        proof {
            lemma_insert_at::<T>(rs, e@, j as int);
            assert(vs.take(i + 1).drop_last() =~= vs.take(i as int));
        }
        r.insert(j, e);
        assert(r@.map_values(|x: T| x@) =~= rs.take(j as int).push(e@) + rs.skip(j as int));
        i = i + 1;
    }
    assert(vs.take(v.len() as int) =~= vs);
    r
}

} // verus!
