use vstd::prelude::*;

verus! {

broadcast use vstd::seq_lib::to_multiset_insert;

/// `x` placed into `s` just after the last element that `x` is not less than:
/// inserting into a sorted sequence keeps it sorted, and elements that compare
/// equal keep the order in which they arrived.
pub open spec fn insert_by<T>(s: Seq<T>, x: T, lt: spec_fn(T, T) -> bool) -> Seq<T>
    decreases s.len(),
{
    if s.len() == 0 {
        seq![x]
    } else if lt(x, s.last()) {
        insert_by(s.drop_last(), x, lt).push(s.last())
    } else {
        s.push(x)
    }
}

/// The stable sort of `s` by the strict order `lt`.
pub open spec fn stable_sort<T>(s: Seq<T>, lt: spec_fn(T, T) -> bool) -> Seq<T>
    decreases s.len(),
{
    if s.len() == 0 {
        s
    } else {
        insert_by(stable_sort(s.drop_last(), lt), s.last(), lt)
    }
}

/// No element is less than an element before it.
pub open spec fn sorted_by<T>(s: Seq<T>, lt: spec_fn(T, T) -> bool) -> bool {
    forall|i: int, j: int| 0 <= i < j < s.len() ==> !(#[trigger] lt(s[j], s[i]))
}

/// `lt` is a strict weak order: asymmetric, and "not less" is transitive.
pub open spec fn strict_weak<T>(lt: spec_fn(T, T) -> bool) -> bool {
    &&& forall|a: T, b: T| #[trigger] lt(a, b) ==> !lt(b, a)
    &&& forall|a: T, b: T, c: T|
        #![trigger lt(b, a), lt(c, b)]
        !lt(b, a) && !lt(c, b) ==> !lt(c, a)
}

/// The place where insertion of `x` lands: everything from `j` on is greater than `x`,
/// the element just before `j` is not.
pub open spec fn insert_point<T>(s: Seq<T>, x: T, lt: spec_fn(T, T) -> bool, j: int) -> bool {
    &&& 0 <= j <= s.len()
    &&& forall|k: int| j <= k < s.len() ==> #[trigger] lt(x, s[k])
    &&& j > 0 ==> !lt(x, s[j - 1])
}

pub proof fn lemma_insert_at<T>(s: Seq<T>, x: T, lt: spec_fn(T, T) -> bool, j: int)
    requires
        insert_point(s, x, lt, j),
    ensures
        insert_by(s, x, lt) == s.insert(j, x),
    decreases s.len(),
{
    if s.len() == 0 {
        assert(s.insert(j, x) =~= seq![x]);
    } else if j == s.len() {
        assert(s.insert(j, x) =~= s.push(x));
    } else {
        assert(lt(x, s[s.len() - 1]));
        lemma_insert_at(s.drop_last(), x, lt, j);
        assert(s.drop_last().insert(j, x).push(s.last()) =~= s.insert(j, x));
    }
}

pub proof fn lemma_insert_point_exists<T>(s: Seq<T>, x: T, lt: spec_fn(T, T) -> bool) -> (j: int)
    ensures
        insert_point(s, x, lt, j),
    decreases s.len(),
{
    if s.len() == 0 {
        0
    } else if lt(x, s.last()) {
        let j = lemma_insert_point_exists(s.drop_last(), x, lt);
        assert forall|k: int| j <= k < s.len() implies #[trigger] lt(x, s[k]) by {
            if k < s.len() - 1 {
                assert(s[k] == s.drop_last()[k]);
            }
        }
        if j > 0 {
            assert(s[j - 1] == s.drop_last()[j - 1]);
        }
        j
    } else {
        s.len() as int
    }
}

pub proof fn lemma_insert_multiset<T>(s: Seq<T>, x: T, lt: spec_fn(T, T) -> bool)
    ensures
        insert_by(s, x, lt).to_multiset() == s.to_multiset().insert(x),
        insert_by(s, x, lt).len() == s.len() + 1,
{
    let j = lemma_insert_point_exists(s, x, lt);
    lemma_insert_at(s, x, lt, j);
}

/// Sorting keeps every element, as often as it occurs.
pub proof fn lemma_sort_multiset<T>(s: Seq<T>, lt: spec_fn(T, T) -> bool)
    ensures
        stable_sort(s, lt).to_multiset() == s.to_multiset(),
        stable_sort(s, lt).len() == s.len(),
    decreases s.len(),
{
    broadcast use vstd::seq_lib::to_multiset_build;
    if s.len() > 0 {
        lemma_sort_multiset(s.drop_last(), lt);
        lemma_insert_multiset(stable_sort(s.drop_last(), lt), s.last(), lt);
        assert(s.drop_last().push(s.last()) =~= s);
    }
}

pub proof fn lemma_insert_sorted<T>(s: Seq<T>, x: T, lt: spec_fn(T, T) -> bool)
    requires
        strict_weak(lt),
        sorted_by(s, lt),
    ensures
        sorted_by(insert_by(s, x, lt), lt),
{
    let j = lemma_insert_point_exists(s, x, lt);
    lemma_insert_at(s, x, lt, j);
    let r = s.insert(j, x);
    assert forall|p: int, q: int| 0 <= p < q < r.len() implies !(#[trigger] lt(r[q], r[p])) by {
        if q < j {
        } else if q == j {
            if p < j - 1 {
                assert(!lt(s[j - 1], s[p]));
                assert(!lt(x, s[j - 1]));
            }
        } else if p < j {
            assert(r[q] == s[q - 1]);
            assert(!lt(s[q - 1], s[p]));
        } else if p == j {
            assert(lt(x, s[q - 1]));
        } else {
            assert(!lt(s[q - 1], s[p - 1]));
        }
    }
}

/// The stable sort is sorted.
pub proof fn lemma_sort_sorted<T>(s: Seq<T>, lt: spec_fn(T, T) -> bool)
    requires
        strict_weak(lt),
    ensures
        sorted_by(stable_sort(s, lt), lt),
    decreases s.len(),
{
    if s.len() > 0 {
        lemma_sort_sorted(s.drop_last(), lt);
        lemma_insert_sorted(stable_sort(s.drop_last(), lt), s.last(), lt);
    }
}

/// Neither of `a` and `b` is less than the other.
pub open spec fn equivalent<T>(a: T, b: T, lt: spec_fn(T, T) -> bool) -> bool {
    !lt(a, b) && !lt(b, a)
}

/// The elements of `s` equivalent to `x`, in their order in `s`.
pub open spec fn class_of<T>(s: Seq<T>, x: T, lt: spec_fn(T, T) -> bool) -> Seq<T>
    decreases s.len(),
{
    if s.len() == 0 {
        Seq::empty()
    } else if equivalent(x, s.last(), lt) {
        class_of(s.drop_last(), x, lt).push(s.last())
    } else {
        class_of(s.drop_last(), x, lt)
    }
}

proof fn lemma_class_insert<T>(u: Seq<T>, z: T, x: T, lt: spec_fn(T, T) -> bool)
    requires
        strict_weak(lt),
    ensures
        class_of(insert_by(u, z, lt), x, lt) == if equivalent(x, z, lt) {
            class_of(u, x, lt).push(z)
        } else {
            class_of(u, x, lt)
        },
    decreases u.len(),
{
    if u.len() == 0 {
        assert(seq![z].drop_last() =~= u);
    } else if lt(z, u.last()) {
        let w = u.last();
        lemma_class_insert(u.drop_last(), z, x, lt);
        assert(insert_by(u.drop_last(), z, lt).push(w).drop_last() =~= insert_by(u.drop_last(), z, lt));
        if equivalent(x, z, lt) {
            // z is equivalent to x and less than w, so x is less than w
            assert(!lt(z, x));
            assert(lt(x, w));
            assert(!equivalent(x, w, lt));
        }
    } else {
        assert(u.push(z).drop_last() =~= u);
    }
}

/// The stable sort keeps elements that compare equal in the order they came in: for every
/// `x`, the elements equivalent to `x` appear in the sorted sequence exactly as in `s`.
pub proof fn law_sort_stable<T>(s: Seq<T>, x: T, lt: spec_fn(T, T) -> bool)
    requires
        strict_weak(lt),
    ensures
        class_of(stable_sort(s, lt), x, lt) == class_of(s, x, lt),
    decreases s.len(),
{
    if s.len() > 0 {
        law_sort_stable(s.drop_last(), x, lt);
        lemma_class_insert(stable_sort(s.drop_last(), lt), s.last(), x, lt);
    }
}

} // verus!
