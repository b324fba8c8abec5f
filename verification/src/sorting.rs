use vstd::prelude::*;

verus! {

/// A type with a strict order by which its values are sorted.
pub trait Ranked: Sized {
    /// `self` comes strictly before `other`.
    spec fn comes_before(self, other: Self) -> bool;

    /// Decides [`Ranked::comes_before`].
    fn is_before(&self, other: &Self) -> (b: bool)
        ensures
            b == self.comes_before(*other),
    ;
}

/// Where `x` goes into `s`: behind the last element that `x` does not come
/// before.
pub open spec fn insertion_point<T: Ranked>(s: Seq<T>, x: T) -> int
    decreases s.len(),
{
    if s.len() == 0 {
        0
    } else if x.comes_before(s.last()) {
        insertion_point(s.drop_last(), x)
    } else {
        s.len() as int
    }
}

/// The elements of `s` sorted by insertion, one after another: an element
/// stays behind those before it that it does not come before.
pub open spec fn sorted_seq<T: Ranked>(s: Seq<T>) -> Seq<T>
    decreases s.len(),
{
    if s.len() == 0 {
        Seq::empty()
    } else {
        let rest = sorted_seq(s.drop_last());
        rest.insert(insertion_point(rest, s.last()), s.last())
    }
}

/// No element of `s` comes before an earlier one.
pub open spec fn ordered<T: Ranked>(s: Seq<T>) -> bool {
    forall|i: int, j: int| 0 <= i < j < s.len() ==> !(#[trigger] s[j]).comes_before(#[trigger] s[i])
}

/// Among the values that `valid` admits the order is a strict weak order:
/// irreflexive and transitive, with a transitive complement.
pub open spec fn weakly_ordered<T: Ranked>(valid: spec_fn(T) -> bool) -> bool {
    &&& forall|a: T| valid(a) ==> !(#[trigger] a.comes_before(a))
    &&& forall|a: T, b: T, c: T|
        #![trigger a.comes_before(b), b.comes_before(c)]
        valid(a) && valid(b) && valid(c) && a.comes_before(b) && b.comes_before(c)
            ==> a.comes_before(c)
    &&& forall|a: T, b: T, c: T|
        #![trigger a.comes_before(b), b.comes_before(c)]
        valid(a) && valid(b) && valid(c) && !a.comes_before(b) && !b.comes_before(c)
            ==> !a.comes_before(c)
}

/// `valid` admits every element of `s`.
pub open spec fn all_valid<T>(s: Seq<T>, valid: spec_fn(T) -> bool) -> bool {
    forall|i: int| 0 <= i < s.len() ==> valid(#[trigger] s[i])
}

/// The insertion point lies in the sequence or at its end, before an
/// element that `x` comes before and behind one that it does not come
/// before.
pub proof fn lemma_insertion_point_range<T: Ranked>(s: Seq<T>, x: T)
    ensures
        0 <= insertion_point(s, x) <= s.len(),
        insertion_point(s, x) < s.len() ==> x.comes_before(s[insertion_point(s, x)]),
        insertion_point(s, x) > 0 ==> !x.comes_before(s[insertion_point(s, x) - 1]),
    decreases s.len(),
{
    if s.len() > 0 && x.comes_before(s.last()) {
        lemma_insertion_point_range(s.drop_last(), x);
    }
}

/// Sorting keeps the elements, each as often as it was there.
pub proof fn lemma_sorted_seq_permutes<T: Ranked>(s: Seq<T>)
    ensures
        sorted_seq(s).len() == s.len(),
        sorted_seq(s).to_multiset() == s.to_multiset(),
    decreases s.len(),
{
    broadcast use vstd::seq_lib::group_to_multiset_ensures;

    if s.len() == 0 {
    } else {
        let rest = sorted_seq(s.drop_last());
        lemma_sorted_seq_permutes(s.drop_last());
        lemma_insertion_point_range(rest, s.last());
        assert(s.drop_last().push(s.last()) =~= s);
    }
}

/// Every element of the sorted sequence is one of `s`, and every element
/// of `s` is in the sorted sequence.
pub proof fn lemma_sorted_seq_contains<T: Ranked>(s: Seq<T>, x: T)
    ensures
        sorted_seq(s).contains(x) == s.contains(x),
{
    lemma_sorted_seq_permutes(s);
    vstd::seq_lib::to_multiset_contains(s, x);
    vstd::seq_lib::to_multiset_contains(sorted_seq(s), x);
}

/// Sorting keeps what holds of every element.
pub proof fn lemma_sorted_seq_valid<T: Ranked>(s: Seq<T>, valid: spec_fn(T) -> bool)
    requires
        all_valid(s, valid),
    ensures
        all_valid(sorted_seq(s), valid),
{
    let r = sorted_seq(s);
    assert forall|i: int| 0 <= i < r.len() implies valid(#[trigger] r[i]) by {
        lemma_sorted_seq_contains(s, r[i]);
        assert(r.contains(r[i]));
        let j = choose|j: int| 0 <= j < s.len() && s[j] == r[i];
        assert(valid(s[j]));
    }
}

/// Where the order is a strict weak order among the elements, the sorted
/// sequence is ordered.
pub proof fn lemma_sorted_seq_ordered<T: Ranked>(s: Seq<T>, valid: spec_fn(T) -> bool)
    requires
        weakly_ordered::<T>(valid),
        all_valid(s, valid),
    ensures
        ordered(sorted_seq(s)),
    decreases s.len(),
{
    if s.len() == 0 {
    } else {
        let rest = sorted_seq(s.drop_last());
        let x = s.last();
        let k = insertion_point(rest, x);
        assert(all_valid(s.drop_last(), valid)) by {
            assert forall|i: int| 0 <= i < s.drop_last().len() implies valid(
                #[trigger] s.drop_last()[i],
            ) by {
                assert(s.drop_last()[i] == s[i]);
            }
        }
        lemma_sorted_seq_ordered(s.drop_last(), valid);
        lemma_sorted_seq_valid(s.drop_last(), valid);
        assert(valid(x));
        lemma_insertion_point_range(rest, x);
        let r = rest.insert(k, x);
        rest.insert_ensures(k, x);
        lemma_sorted_seq_permutes(s.drop_last());
        assert forall|i: int, j: int| 0 <= i < j < r.len() implies !(#[trigger] r[j]).comes_before(
            #[trigger] r[i],
        ) by {
            assert(r.len() == rest.len() + 1);
            if j == k {
                assert(r[i] == rest[i]);
                if i < k - 1 {
                    assert(!rest[k - 1].comes_before(rest[i]));
                }
            } else if i == k {
                assert(r[j] == rest[j - 1]);
                assert(x.comes_before(rest[k]));
                if rest[j - 1].comes_before(x) {
                    assert(rest[j - 1].comes_before(rest[k]));
                    if j - 1 > k {
                        assert(!rest[j - 1].comes_before(rest[k]));
                    }
                }
            } else if j < k {
                assert(r[i] == rest[i] && r[j] == rest[j]);
            } else if i < k {
                assert(r[i] == rest[i] && r[j] == rest[j - 1]);
            } else {
                assert(r[i] == rest[i - 1] && r[j] == rest[j - 1]);
            }
        }
    }
}

/// Elements at different places have different keys.
pub open spec fn distinct_keys<T, K>(s: Seq<T>, key: spec_fn(T) -> K) -> bool {
    forall|i: int, j: int|
        0 <= i < s.len() && 0 <= j < s.len() && i != j ==> key(#[trigger] s[i]) != key(
            #[trigger] s[j],
        )
}

/// Sorting keeps keys distinct.
pub proof fn lemma_sorted_seq_distinct<T: Ranked, K>(s: Seq<T>, key: spec_fn(T) -> K)
    requires
        distinct_keys(s, key),
    ensures
        distinct_keys(sorted_seq(s), key),
{
    let r = sorted_seq(s);
    lemma_sorted_seq_permutes(s);
    assert(s.no_duplicates());
    s.lemma_multiset_has_no_duplicates();
    r.lemma_multiset_has_no_duplicates_conv();
    assert forall|i: int, j: int| 0 <= i < r.len() && 0 <= j < r.len() && i != j implies key(
        #[trigger] r[i],
    ) != key(#[trigger] r[j]) by {
        lemma_sorted_seq_contains(s, r[i]);
        lemma_sorted_seq_contains(s, r[j]);
        assert(r.contains(r[i]) && r.contains(r[j]));
        let a = choose|a: int| 0 <= a < s.len() && s[a] == r[i];
        let b = choose|b: int| 0 <= b < s.len() && s[b] == r[j];
        assert(r[i] != r[j]);
        assert(a != b);
    }
}

/// Sorts by insertion.
pub fn sort<T: Ranked + Copy>(v: &Vec<T>) -> (r: Vec<T>)
    ensures
        r@ == sorted_seq(v@),
{
    let mut r: Vec<T> = Vec::new();
    let mut i: usize = 0;
    while i < v.len()
        invariant
            i <= v.len(),
            r@ == sorted_seq(v@.take(i as int)),
        decreases v.len() - i,
    {
        let x = v[i];
        proof {
            lemma_sorted_seq_permutes(v@.take(i as int));
        }
        let mut k: usize = r.len();
        proof {
            assert(r@.take(r.len() as int) =~= r@);
        }
        while k > 0 && x.is_before(&r[k - 1])
            invariant
                k <= r.len(),
                insertion_point(r@, x) == insertion_point(r@.take(k as int), x),
            decreases k,
        {
            assert(r@.take(k as int).drop_last() =~= r@.take(k as int - 1));
            k -= 1;
        }
        proof {
            assert(v@.take(i as int + 1).drop_last() =~= v@.take(i as int));
        }
        r.insert(k, x);
        i += 1;
    }
    proof {
        assert(v@.take(v.len() as int) =~= v@);
    }
    r
}

} // verus!
