//! The next arrangement in lexicographic order, as an alternative to Heap's
//! order: it can resume from any known arrangement and walks them sorted.
use vstd::prelude::*;
use crate::arrange::{exchange, lemma_swapped_multiset, swapped};

verus! {

/// The last index `i < k` with `s[i] < s[i + 1]`, or -1 when `s[0..=k]`
/// never rises.
pub open spec fn last_ascent(s: Seq<u64>, k: int) -> int
    decreases k,
{
    if k <= 0 {
        -1
    } else if s[k - 1] < s[k] {
        k - 1
    } else {
        last_ascent(s, k - 1)
    }
}

/// The last index `q` with `p < q <= k` and `s[q] > s[p]`, or `p` when
/// there is none.
pub open spec fn last_above(s: Seq<u64>, p: int, k: int) -> int
    decreases k - p,
{
    if k <= p {
        p
    } else if s[k] > s[p] {
        k
    } else {
        last_above(s, p, k - 1)
    }
}

/// Whether `s` has a lexicographic successor: some element is followed by a
/// larger one.
pub open spec fn has_successor(s: Seq<u64>) -> bool {
    exists|i: int| 0 <= i && i + 1 < s.len() && #[trigger] s[i] < s[i + 1]
}

/// The next arrangement of `s` in lexicographic order: with `p` the last
/// ascent and `q` the last position after it holding a larger element than
/// `s[p]`, exchange the two and reverse everything after `p`.
pub open spec fn lexical_successor(s: Seq<u64>) -> Seq<u64> {
    let n = s.len() as int;
    let p = last_ascent(s, n - 1);
    let t = swapped(s, p, last_above(s, p, n - 1));
    t.subrange(0, p + 1) + t.subrange(p + 1, n).reverse()
}

proof fn lemma_last_ascent(s: Seq<u64>, k: int)
    requires
        k < s.len(),
    ensures
        -1 <= last_ascent(s, k) < k || (k <= 0 && last_ascent(s, k) == -1),
        last_ascent(s, k) >= 0 ==> s[last_ascent(s, k)] < s[last_ascent(s, k) + 1],
        forall|i: int| last_ascent(s, k) < i < k ==> #[trigger] s[i] >= s[i + 1],
    decreases k,
{
    if k > 0 && !(s[k - 1] < s[k]) {
        lemma_last_ascent(s, k - 1);
    }
}

proof fn lemma_last_above(s: Seq<u64>, p: int, k: int)
    requires
        0 <= p,
        k < s.len(),
    ensures
        p <= last_above(s, p, k) <= if k < p { p } else { k },
        last_above(s, p, k) > p ==> s[last_above(s, p, k)] > s[p],
        forall|i: int| last_above(s, p, k) < i <= k ==> s[i] <= s[p],
    decreases k - p,
{
    if k > p && !(s[k] > s[p]) {
        lemma_last_above(s, p, k - 1);
    }
}

/// Whether `a` comes before `b` in lexicographic order: they agree up to
/// some index, where `a` holds the smaller element.
pub open spec fn lex_less(a: Seq<u64>, b: Seq<u64>) -> bool {
    exists|i: int|
        0 <= i < a.len() && i < b.len() && a.subrange(0, i) == b.subrange(0, i) && #[trigger] a[i]
            < b[i]
}

/// Keeping a head and reversing the rest keeps every element.
proof fn lemma_head_reversed_tail_multiset(t: Seq<u64>, p: int)
    requires
        0 <= p < t.len(),
    ensures
        (t.subrange(0, p + 1) + t.subrange(p + 1, t.len() as int).reverse()).to_multiset()
            == t.to_multiset(),
{
    let head = t.subrange(0, p + 1);
    let tail = t.subrange(p + 1, t.len() as int);
    assert(t == head + tail);
    vstd::seq_lib::lemma_multiset_commutative(head, tail);
    vstd::seq_lib::lemma_multiset_commutative(head, tail.reverse());
    tail.lemma_reverse_to_multiset();
}

/// The lexicographic successor of an arrangement that has one is a
/// rearrangement of it that comes after it in lexicographic order.
#[verifier::rlimit(40)]
pub proof fn lemma_successor_is_larger_rearrangement(s: Seq<u64>)
    requires
        has_successor(s),
    ensures
        lexical_successor(s).len() == s.len(),
        lexical_successor(s).to_multiset() == s.to_multiset(),
        lex_less(s, lexical_successor(s)),
{
    let n = s.len() as int;
    let w = choose|i: int| 0 <= i && i + 1 < s.len() && #[trigger] s[i] < s[i + 1];
    lemma_last_ascent(s, n - 1);
    if last_ascent(s, n - 1) < 0 {
        assert(s[w] >= s[w + 1]);
    }
    let p = last_ascent(s, n - 1);
    lemma_last_above(s, p, n - 1);
    let q = last_above(s, p, n - 1);
    assert(q > p) by {
        if q == p {
            assert(s[p + 1] <= s[p]);
        }
    }
    let t = swapped(s, p, q);
    lemma_swapped_multiset(s, p, q);
    let r = lexical_successor(s);
    assert(r == t.subrange(0, p + 1) + t.subrange(p + 1, n).reverse());
    lemma_head_reversed_tail_multiset(t, p);
    assert(r.subrange(0, p) =~= s.subrange(0, p));
    assert(r[p] == s[q]);
}

/// Where two rearrangements agree up to `j`, the element of `b` at `j`
/// stands somewhere in `a` at or after `j`.
proof fn lemma_tail_member(a: Seq<u64>, b: Seq<u64>, j: int)
    requires
        a.to_multiset() == b.to_multiset(),
        a.len() == b.len(),
        0 <= j < a.len(),
        a.subrange(0, j) == b.subrange(0, j),
    ensures
        exists|k: int| j <= k < a.len() && #[trigger] a[k] == b[j],
{
    broadcast use vstd::seq_lib::group_to_multiset_ensures;
    broadcast use vstd::multiset::group_multiset_axioms;

    let n = a.len() as int;
    let a0 = a.subrange(0, j);
    let a1 = a.subrange(j, n);
    let b0 = b.subrange(0, j);
    let b1 = b.subrange(j, n);
    assert(a == a0 + a1);
    assert(b == b0 + b1);
    vstd::seq_lib::lemma_multiset_commutative(a0, a1);
    vstd::seq_lib::lemma_multiset_commutative(b0, b1);
    assert(a1.to_multiset() =~= b1.to_multiset()) by {
        assert forall|x: u64| a1.to_multiset().count(x) == b1.to_multiset().count(x) by {
            assert(a.to_multiset().count(x) == a0.to_multiset().count(x) + a1.to_multiset().count(
                x,
            ));
            assert(b.to_multiset().count(x) == b0.to_multiset().count(x) + b1.to_multiset().count(
                x,
            ));
        }
    }
    assert(b1[0] == b[j]);
    assert(b1.contains(b[j]));
    assert(b1.to_multiset().count(b[j]) > 0);
    assert(a1.to_multiset().count(b[j]) > 0);
    assert(a1.contains(b[j]));
    let k1 = choose|k1: int| 0 <= k1 < a1.len() && a1[k1] == b[j];
    assert(a[j + k1] == b[j]);
}

/// No two sequences each come before the other.
proof fn lemma_lex_asymmetric(a: Seq<u64>, b: Seq<u64>)
    requires
        lex_less(a, b),
    ensures
        !lex_less(b, a),
{
    if lex_less(b, a) {
        let i = choose|i: int|
            0 <= i < a.len() && i < b.len() && a.subrange(0, i) == b.subrange(0, i) && #[trigger] a[i]
                < b[i];
        let j = choose|j: int|
            0 <= j < b.len() && j < a.len() && b.subrange(0, j) == a.subrange(0, j) && #[trigger] b[j]
                < a[j];
        if i < j {
            assert(a.subrange(0, j)[i] == a[i]);
            assert(b.subrange(0, j)[i] == b[i]);
        } else if j < i {
            assert(a.subrange(0, i)[j] == a[j]);
            assert(b.subrange(0, i)[j] == b[j]);
        }
    }
}

/// Along a stretch after `p` where no element is followed by a larger one,
/// later elements are no larger than earlier ones.
proof fn lemma_run_down(s: Seq<u64>, p: int, i: int, k: int)
    requires
        p < i <= k < s.len(),
        forall|m: int| p < m < s.len() - 1 ==> #[trigger] s[m] >= s[m + 1],
    ensures
        s[k] <= s[i],
    decreases k - i,
{
    if k > i {
        lemma_run_down(s, p, i, k - 1);
        assert(s[k - 1] >= s[k]);
    }
}

/// The shape of the successor: with `p` the last ascent and `q` the last
/// position after it above `s[p]`, it keeps `s` before `p`, holds `s[q]`
/// at `p`, and after `p` holds the exchanged suffix backwards, which never
/// falls.
proof fn lemma_successor_shape(s: Seq<u64>)
    requires
        has_successor(s),
    ensures
        ({
            let n = s.len() as int;
            let p = last_ascent(s, n - 1);
            let q = last_above(s, p, n - 1);
            let sw = swapped(s, p, q);
            let r = lexical_successor(s);
            &&& 0 <= p < q < n
            &&& s[p] < s[q]
            &&& forall|m: int| p < m < n - 1 ==> #[trigger] s[m] >= s[m + 1]
            &&& forall|m: int| q < m < n ==> #[trigger] s[m] <= s[p]
            &&& forall|m: int| p < m < n - 1 ==> #[trigger] sw[m] >= sw[m + 1]
            &&& r.len() == n
            &&& r.to_multiset() == s.to_multiset()
            &&& r.subrange(0, p) == s.subrange(0, p)
            &&& r[p] == s[q]
            &&& forall|m: int| p < m < n ==> #[trigger] r[m] == sw[n + p - m]
        }),
{
    lemma_successor_is_larger_rearrangement(s);
    let n = s.len() as int;
    lemma_last_ascent(s, n - 1);
    let p = last_ascent(s, n - 1);
    if p < 0 {
        let w = choose|i: int| 0 <= i && i + 1 < s.len() && #[trigger] s[i] < s[i + 1];
        assert(s[w] >= s[w + 1]);
    }
    lemma_last_above(s, p, n - 1);
    let q = last_above(s, p, n - 1);
    assert(q > p) by {
        if q == p {
            assert(s[p + 1] <= s[p]);
        }
    }
    let sw = swapped(s, p, q);
    let head = sw.subrange(0, p + 1);
    let tail = sw.subrange(p + 1, n);
    let r = lexical_successor(s);
    assert(r == head + tail.reverse());
    assert(r.subrange(0, p) =~= s.subrange(0, p));
    assert forall|m: int| p < m < n - 1 implies #[trigger] sw[m] >= sw[m + 1] by {
        if m == q - 1 {
            assert(s[m] >= s[m + 1]);
        } else if m == q {
            assert(s[q + 1] <= s[p]);
        } else {
            assert(s[m] >= s[m + 1]);
        }
    }
}

/// The case of `lemma_successor_is_next` where `t` agrees with the
/// successor up to and including `p`.
proof fn lemma_next_same_head(s: Seq<u64>, t: Seq<u64>, r: Seq<u64>, sw: Seq<u64>, p: int)
    requires
        0 <= p,
        r.len() == t.len(),
        p < r.len(),
        r.to_multiset() == t.to_multiset(),
        r.subrange(0, p + 1) == t.subrange(0, p + 1),
        forall|m: int| p < m < r.len() - 1 ==> #[trigger] sw[m] >= sw[m + 1],
        sw.len() == r.len(),
        forall|m: int| p < m < r.len() ==> #[trigger] r[m] == sw[r.len() + p - m],
    ensures
        !lex_less(t, r),
{
    let n = r.len() as int;
    if lex_less(t, r) {
        let j = choose|j: int|
            0 <= j < t.len() && j < r.len() && t.subrange(0, j) == r.subrange(0, j) && #[trigger] t[j]
                < r[j];
        if j <= p {
            let rh = r.subrange(0, p + 1);
            let th = t.subrange(0, p + 1);
            assert(rh[j] == r[j]);
            assert(th[j] == t[j]);
            assert(rh[j] == th[j]);
            assert(r[j] == t[j]);
            assert(false);
        } else {
            lemma_tail_member(r, t, j);
            let k2 = choose|k2: int| j <= k2 < r.len() && #[trigger] r[k2] == t[j];
            assert(r[j] == sw[n + p - j]);
            assert(r[k2] == sw[n + p - k2]);
            if k2 > j {
                lemma_run_down(sw, p, n + p - k2, n + p - j);
                assert(sw[n + p - j] <= sw[n + p - k2]);
            }
            assert(r[j] <= t[j]);
            assert(false);
        }
    }
}

/// The case of `lemma_successor_is_next` where `t` leaves `s` before the
/// last ascent.
proof fn lemma_next_before_pivot(s: Seq<u64>, t: Seq<u64>, i: int)
    requires
        has_successor(s),
        t.len() == s.len(),
        t.to_multiset() == s.to_multiset(),
        0 <= i < s.len(),
        s.subrange(0, i) == t.subrange(0, i),
        s[i] < t[i],
        i < last_ascent(s, s.len() - 1),
    ensures
        !lex_less(t, lexical_successor(s)),
{
    lemma_successor_shape(s);
    let n = s.len() as int;
    let p = last_ascent(s, n - 1);
    let q = last_above(s, p, n - 1);
    let sw = swapped(s, p, q);
    let r = lexical_successor(s);
    assert(r.subrange(0, i) =~= t.subrange(0, i)) by {
        assert forall|m: int| 0 <= m < i implies r.subrange(0, i)[m] == t.subrange(0, i)[m] by {
            assert(r.subrange(0, p)[m] == s.subrange(0, p)[m]);
            assert(s.subrange(0, i)[m] == t.subrange(0, i)[m]);
        }
    }
    assert(r[i] == r.subrange(0, p)[i]);
    assert(r[i] == s[i]);
    assert(lex_less(r, t));
    lemma_lex_asymmetric(r, t);
}

/// The case of `lemma_successor_is_next` where `t` leaves `s` at the last
/// ascent.
proof fn lemma_next_at_pivot(s: Seq<u64>, t: Seq<u64>, i: int)
    requires
        has_successor(s),
        t.len() == s.len(),
        t.to_multiset() == s.to_multiset(),
        0 <= i < s.len(),
        s.subrange(0, i) == t.subrange(0, i),
        s[i] < t[i],
        i == last_ascent(s, s.len() - 1),
    ensures
        !lex_less(t, lexical_successor(s)),
{
    lemma_successor_shape(s);
    let n = s.len() as int;
    let p = last_ascent(s, n - 1);
    let q = last_above(s, p, n - 1);
    let sw = swapped(s, p, q);
    let r = lexical_successor(s);
    lemma_tail_member(s, t, p);
    let k = choose|k: int| p <= k < s.len() && #[trigger] s[k] == t[p];
    assert(k > p);
    assert(k <= q) by {
        if k > q {
            assert(s[k] <= s[p]);
        }
    }
    if k < q {
        lemma_run_down(s, p, k, q);
    }
    if t[p] > s[q] {
        assert(r.subrange(0, p) =~= t.subrange(0, p));
        assert(lex_less(r, t));
        lemma_lex_asymmetric(r, t);
    } else {
        assert(r.subrange(0, p + 1) =~= t.subrange(0, p + 1)) by {
            assert forall|m: int| 0 <= m < p + 1 implies r[m] == t[m] by {
                if m < p {
                    assert(r.subrange(0, p)[m] == s.subrange(0, p)[m]);
                    assert(s.subrange(0, p)[m] == t.subrange(0, p)[m]);
                }
            }
        }
        lemma_next_same_head(s, t, r, sw, p);
    }
}

/// Nothing lies between an arrangement and its lexicographic successor:
/// every rearrangement that comes after `s` comes no earlier than the
/// successor.
pub proof fn lemma_successor_is_next(s: Seq<u64>, t: Seq<u64>)
    requires
        has_successor(s),
        t.len() == s.len(),
        t.to_multiset() == s.to_multiset(),
        lex_less(s, t),
    ensures
        !lex_less(t, lexical_successor(s)),
{
    lemma_successor_shape(s);
    let n = s.len() as int;
    let p = last_ascent(s, n - 1);
    let i = choose|i: int|
        0 <= i < s.len() && i < t.len() && s.subrange(0, i) == t.subrange(0, i) && #[trigger] s[i]
            < t[i];
    if i < p {
        lemma_next_before_pivot(s, t, i);
    } else if i > p {
        lemma_tail_member(s, t, i);
        let k = choose|k: int| i <= k < s.len() && #[trigger] s[k] == t[i];
        lemma_run_down(s, p, i, k);
    } else {
        lemma_next_at_pivot(s, t, i);
    }
}

/// Rearranges `xs` into the next arrangement in lexicographic order under
/// `<` and returns `true`; when `xs` is already the largest (it never
/// rises), leaves it unchanged and returns `false`.
pub fn next_in_lexical_order(xs: &mut [u64]) -> (r: bool)
    ensures
        r == has_successor(old(xs)@),
        r ==> final(xs)@ == lexical_successor(old(xs)@),
        !r ==> final(xs)@ == old(xs)@,
        final(xs)@.to_multiset() == old(xs)@.to_multiset(),
{
    let ghost s = xs@;
    let n = xs.len();
    if n < 2 {
        return false;
    }
    let mut i: usize = n - 1;
    while i > 0 && xs[i - 1] >= xs[i]
        invariant
            xs@ == s,
            n == s.len(),
            i < n,
            last_ascent(s, n - 1) == last_ascent(s, i as int),
        decreases i,
    {
        i = i - 1;
    }
    proof {
        lemma_last_ascent(s, n - 1);
    }
    if i == 0 {
        return false;
    }
    let p: usize = i - 1;
    assert(p as int == last_ascent(s, n - 1));
    let mut q: usize = n - 1;
    while xs[q] <= xs[p]
        invariant
            xs@ == s,
            n == s.len(),
            p < q < n,
            s[p as int] < s[p as int + 1],
            last_above(s, p as int, n - 1) == last_above(s, p as int, q as int),
        decreases q,
    {
        q = q - 1;
    }
    exchange(xs, p, q);
    let ghost t = xs@;
    let mut a: usize = p + 1;
    let mut b: usize = n - 1;
    while a < b
        invariant
            xs@.len() == n,
            t.len() == n,
            p < a,
            b < n,
            a + b == n + p,
            forall|k: int| 0 <= k <= p ==> xs@[k] == t[k],
            forall|k: int| a <= k <= b ==> xs@[k] == t[k],
            forall|k: int| p < k < a ==> xs@[k] == t[n + p - k],
            forall|k: int| b < k < n ==> xs@[k] == t[n + p - k],
            xs@.to_multiset() == s.to_multiset(),
        decreases b + 1 - a,
    {
        exchange(xs, a, b);
        a = a + 1;
        b = b - 1;
    }
    assert(xs@ =~= t.subrange(0, p + 1) + t.subrange(p + 1, n as int).reverse());
    true
}

} // verus!
