//! Arrangements of a sequence: factorials and the single exchange both
//! engines are built from.
use vstd::prelude::*;

verus! {

/// n! as a mathematical integer.
pub open spec fn fact(n: nat) -> nat
    decreases n,
{
    if n == 0 {
        1
    } else {
        n * fact((n - 1) as nat)
    }
}

/// `s` with the elements at `i` and `j` exchanged.
pub open spec fn swapped<T>(s: Seq<T>, i: int, j: int) -> Seq<T> {
    s.update(i, s[j]).update(j, s[i])
}

/// Every factorial is at least one.
pub proof fn lemma_fact_positive(n: nat)
    ensures
        fact(n) >= 1,
    decreases n,
{
    if n > 0 {
        lemma_fact_positive((n - 1) as nat);
        assert(n * fact((n - 1) as nat) >= 1) by (nonlinear_arith)
            requires
                n >= 1,
                fact((n - 1) as nat) >= 1,
        ;
    }
}

/// Factorials do not decrease.
pub proof fn lemma_fact_monotone(m: nat, n: nat)
    requires
        m <= n,
    ensures
        fact(m) <= fact(n),
    decreases n,
{
    if m < n {
        lemma_fact_monotone(m, (n - 1) as nat);
        lemma_fact_positive((n - 1) as nat);
        assert(fact((n - 1) as nat) <= n * fact((n - 1) as nat)) by (nonlinear_arith)
            requires
                n >= 1,
        ;
    }
}

/// An exchange of two elements keeps every element and its multiplicity.
pub proof fn lemma_swapped_multiset<T>(s: Seq<T>, i: int, j: int)
    requires
        0 <= i < s.len(),
        0 <= j < s.len(),
    ensures
        swapped(s, i, j).to_multiset() == s.to_multiset(),
        swapped(s, i, j).len() == s.len(),
{
    broadcast use vstd::seq_lib::group_to_multiset_ensures;

    let t = s.update(i, s[j]);
    vstd::seq_lib::to_multiset_update(s, i, s[j]);
    vstd::seq_lib::to_multiset_update(t, j, s[i]);
    assert(t[j] == if i == j { s[j] } else { s[j] });
    assert(t.to_multiset() == s.to_multiset().remove(s[i]).insert(s[j]));
    assert(swapped(s, i, j).to_multiset() == t.to_multiset().remove(s[j]).insert(s[i]));
    assert(swapped(s, i, j).to_multiset() =~= s.to_multiset());
}

/// Relies on `<[T]>::swap`: it exchanges the elements at `i` and `j`, and
/// panics when either index is out of bounds.
#[verifier::external_body]
pub(crate) fn swap_at<T>(xs: &mut [T], i: usize, j: usize)
    requires
        i < old(xs)@.len(),
        j < old(xs)@.len(),
    ensures
        final(xs)@ == swapped(old(xs)@, i as int, j as int),
{
    xs.swap(i, j)
}

/// Exchanges the elements at `i` and `j`; the slice keeps its elements.
pub(crate) fn exchange<T>(xs: &mut [T], i: usize, j: usize)
    requires
        i < old(xs)@.len(),
        j < old(xs)@.len(),
    ensures
        final(xs)@ == swapped(old(xs)@, i as int, j as int),
        final(xs)@.to_multiset() == old(xs)@.to_multiset(),
        final(xs)@.len() == old(xs)@.len(),
{
    proof {
        lemma_swapped_multiset(xs@, i as int, j as int);
    }
    swap_at(xs, i, j);
}

/// Computes n!, the number of arrangements of n distinct elements.
///
/// The result is exact whenever n! fits in a `usize`, which this function
/// requires.
pub fn factorial(n: usize) -> (r: usize)
    requires
        fact(n as nat) <= usize::MAX,
    ensures
        r == fact(n as nat),
{
    let mut acc: usize = 1;
    let mut k: usize = 0;
    while k < n
        invariant
            k <= n,
            acc == fact(k as nat),
            fact(n as nat) <= usize::MAX,
        decreases n - k,
    {
        k = k + 1;
        proof {
            lemma_fact_monotone(k as nat, n as nat);
        }
        assert(fact(k as nat) == k * fact((k - 1) as nat));
        acc = k * acc;
    }
    acc
}

} // verus!
