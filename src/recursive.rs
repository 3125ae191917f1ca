//! Heap's algorithm as a full enumeration that hands each arrangement to a
//! callback.
use vstd::prelude::*;
use crate::arrange::{exchange, fact, lemma_swapped_multiset, swapped};
use crate::control::ControlFlow;

verus! {

/// The index exchanged with `n - 1` after round `i` of the enumeration of
/// the first `n` elements: `i` when `n` is even, the front when it is odd.
pub open spec fn round_partner(n: nat, i: nat) -> int {
    if n % 2 == 0 {
        i as int
    } else {
        0
    }
}

/// The arrangement left once every arrangement of the first `n` elements of
/// `s` has been visited.
pub open spec fn heap_end<T>(s: Seq<T>, n: nat) -> Seq<T>
    decreases n, 1nat, 0nat,
{
    if n <= 1 {
        s
    } else {
        heap_end(heap_rounds(s, n, (n - 1) as nat), (n - 1) as nat)
    }
}

/// The arrangement after `i` rounds of the enumeration of the first `n`
/// elements of `s`: a round visits every arrangement of the first `n - 1`
/// elements, then exchanges the element at `n - 1` with the one at
/// `round_partner(n, round)`.
pub open spec fn heap_rounds<T>(s: Seq<T>, n: nat, i: nat) -> Seq<T>
    decreases n, 0nat, i,
{
    if n == 0 || i == 0 {
        s
    } else {
        swapped(
            heap_end(heap_rounds(s, n, (i - 1) as nat), (n - 1) as nat),
            round_partner(n, (i - 1) as nat),
            n - 1,
        )
    }
}

proof fn lemma_heap_small<T>(s: Seq<T>)
    ensures
        heap_end(s, 0) == s,
        heap_end(s, 1) == s,
        heap_end(s, 2) == swapped(s, 0, 1),
        heap_end(s, 3) == swapped(
            swapped(swapped(swapped(swapped(s, 0, 1), 0, 2), 0, 1), 0, 2),
            0,
            1,
        ),
{
    reveal_with_fuel(heap_end, 3);
    reveal_with_fuel(heap_rounds, 4);
    let a = swapped(s, 0, 1);
    assert(heap_rounds(s, 2, 1) == a);
    assert(heap_end(s, 2) == heap_end(heap_rounds(s, 2, 1), 1));
    assert(heap_rounds(s, 3, 1) == swapped(heap_end(s, 2), 0, 2));
    let b = swapped(a, 0, 2);
    assert(heap_rounds(s, 3, 2) == swapped(heap_end(b, 2), 0, 2));
    assert(heap_end(b, 2) == swapped(b, 0, 1));
    let c = swapped(swapped(b, 0, 1), 0, 2);
    assert(heap_end(s, 3) == heap_end(c, 2));
    assert(heap_end(c, 2) == swapped(c, 0, 1));
}

/// Every arrangement visited while enumerating the first `n` elements of
/// `s`, in order.
pub open spec fn heap_visits<T>(s: Seq<T>, n: nat) -> Seq<Seq<T>>
    decreases n, 1nat, 0nat,
{
    if n <= 1 {
        seq![s]
    } else {
        heap_visit_rounds(s, n, n)
    }
}

/// The arrangements visited in the first `i` rounds of the enumeration of
/// the first `n` elements of `s`.
pub open spec fn heap_visit_rounds<T>(s: Seq<T>, n: nat, i: nat) -> Seq<Seq<T>>
    decreases n, 0nat, i,
{
    if n == 0 || i == 0 {
        seq![]
    } else {
        heap_visit_rounds(s, n, (i - 1) as nat) + heap_visits(
            heap_rounds(s, n, (i - 1) as nat),
            (n - 1) as nat,
        )
    }
}

proof fn lemma_visit_rounds_len<T>(s: Seq<T>, n: nat, i: nat)
    requires
        n >= 2,
        i <= n,
    ensures
        heap_visit_rounds(s, n, i).len() == i * fact((n - 1) as nat),
    decreases n, 0nat, i,
{
    if i > 0 {
        lemma_visit_rounds_len(s, n, (i - 1) as nat);
        lemma_visits_len(heap_rounds(s, n, (i - 1) as nat), (n - 1) as nat);
        let f = fact((n - 1) as nat) as int;
        assert((i - 1) * f + f == i * f) by (nonlinear_arith);
        assert(heap_visit_rounds(s, n, i) == heap_visit_rounds(s, n, (i - 1) as nat) + heap_visits(
            heap_rounds(s, n, (i - 1) as nat),
            (n - 1) as nat,
        ));
    } else {
        assert(0 * fact((n - 1) as nat) == 0);
    }
}

/// Enumerating the first `n` elements of any arrangement visits exactly n!
/// arrangements.
pub proof fn lemma_visits_len<T>(s: Seq<T>, n: nat)
    ensures
        heap_visits(s, n).len() == fact(n),
    decreases n, 1nat, 0nat,
{
    reveal_with_fuel(fact, 2);
    if n >= 2 {
        lemma_visit_rounds_len(s, n, n);
    }
}

proof fn lemma_visit_rounds_ends<T>(s: Seq<T>, n: nat, i: nat)
    requires
        n >= 2,
        1 <= i <= n,
    ensures
        heap_visit_rounds(s, n, i).len() > 0,
        heap_visit_rounds(s, n, i)[0] == s,
        heap_visit_rounds(s, n, i).last() == heap_end(
            heap_rounds(s, n, (i - 1) as nat),
            (n - 1) as nat,
        ),
    decreases n, 0nat, i,
{
    let prev = heap_visit_rounds(s, n, (i - 1) as nat);
    let block = heap_visits(heap_rounds(s, n, (i - 1) as nat), (n - 1) as nat);
    lemma_visits_ends(heap_rounds(s, n, (i - 1) as nat), (n - 1) as nat);
    if i > 1 {
        lemma_visit_rounds_ends(s, n, (i - 1) as nat);
    }
    assert(heap_visit_rounds(s, n, i) == prev + block);
    assert(heap_rounds(s, n, 0) == s);
}

/// Enumeration starts at the arrangement it is given and ends at
/// `heap_end`, the arrangement the slice is left in.
pub proof fn lemma_visits_ends<T>(s: Seq<T>, n: nat)
    ensures
        heap_visits(s, n).len() > 0,
        heap_visits(s, n)[0] == s,
        heap_visits(s, n).last() == heap_end(s, n),
    decreases n, 1nat, 0nat,
{
    if n >= 2 {
        lemma_visit_rounds_ends(s, n, n);
    }
}

/// With at most three elements, the last arrangement visited is the input
/// reversed. (From four elements on it is not: `[1, 2, 3, 4]` ends at
/// `[2, 3, 4, 1]`.)
pub proof fn lemma_last_is_reversal_up_to_three<T>(s: Seq<T>)
    requires
        s.len() <= 3,
    ensures
        heap_visits(s, s.len()).last() == s.reverse(),
        heap_end(s, s.len()) == s.reverse(),
{
    lemma_heap_small(s);
    lemma_visits_ends(s, s.len());
    if s.len() == 3 {
        assert(heap_end(s, 3) =~= s.reverse());
    } else if s.len() == 2 {
        assert(heap_end(s, 2) =~= s.reverse());
    } else {
        assert(heap_end(s, s.len()) =~= s.reverse());
    }
}

proof fn lemma_end_rearranges<T>(s: Seq<T>, n: nat)
    requires
        n <= s.len(),
    ensures
        heap_end(s, n).len() == s.len(),
        heap_end(s, n).to_multiset() == s.to_multiset(),
    decreases n, 1nat, 0nat,
{
    if n > 1 {
        lemma_rounds_rearrange(s, n, (n - 1) as nat);
        lemma_end_rearranges(heap_rounds(s, n, (n - 1) as nat), (n - 1) as nat);
    }
}

proof fn lemma_rounds_rearrange<T>(s: Seq<T>, n: nat, i: nat)
    requires
        1 <= n <= s.len(),
        i <= n - 1,
    ensures
        heap_rounds(s, n, i).len() == s.len(),
        heap_rounds(s, n, i).to_multiset() == s.to_multiset(),
    decreases n, 0nat, i,
{
    if i > 0 {
        let prev = heap_rounds(s, n, (i - 1) as nat);
        lemma_rounds_rearrange(s, n, (i - 1) as nat);
        lemma_end_rearranges(prev, (n - 1) as nat);
        lemma_swapped_multiset(
            heap_end(prev, (n - 1) as nat),
            round_partner(n, (i - 1) as nat),
            n - 1,
        );
    }
}

proof fn lemma_visit_rounds_rearrange<T>(s: Seq<T>, n: nat, i: nat)
    requires
        2 <= n <= s.len(),
        i <= n,
    ensures
        forall|k: int|
            0 <= k < heap_visit_rounds(s, n, i).len() ==> {
                &&& (#[trigger] heap_visit_rounds(s, n, i)[k]).len() == s.len()
                &&& heap_visit_rounds(s, n, i)[k].to_multiset() == s.to_multiset()
            },
    decreases n, 0nat, i,
{
    if i > 0 {
        let prev = heap_visit_rounds(s, n, (i - 1) as nat);
        let t = heap_rounds(s, n, (i - 1) as nat);
        let block = heap_visits(t, (n - 1) as nat);
        lemma_visit_rounds_rearrange(s, n, (i - 1) as nat);
        lemma_rounds_rearrange(s, n, (i - 1) as nat);
        lemma_visits_rearrange(t, (n - 1) as nat);
        assert(heap_visit_rounds(s, n, i) == prev + block);
        assert forall|k: int| 0 <= k < (prev + block).len() implies {
            &&& (#[trigger] (prev + block)[k]).len() == s.len()
            &&& (prev + block)[k].to_multiset() == s.to_multiset()
        } by {
            if k < prev.len() {
                assert((prev + block)[k] == prev[k]);
            } else {
                assert((prev + block)[k] == block[k - prev.len()]);
            }
        }
    }
}

/// Every arrangement visited while enumerating the first `n` elements of
/// `s` holds the elements of `s`, each as often as `s` does.
pub proof fn lemma_visits_rearrange<T>(s: Seq<T>, n: nat)
    requires
        n <= s.len(),
    ensures
        forall|k: int|
            0 <= k < heap_visits(s, n).len() ==> {
                &&& (#[trigger] heap_visits(s, n)[k]).len() == s.len()
                &&& heap_visits(s, n)[k].to_multiset() == s.to_multiset()
            },
    decreases n, 1nat, 0nat,
{
    if n >= 2 {
        lemma_visit_rounds_rearrange(s, n, n);
        assert(heap_visits(s, n) == heap_visit_rounds(s, n, n));
    } else {
        assert(heap_visits(s, n) == seq![s]);
        assert forall|k: int| 0 <= k < heap_visits(s, n).len() implies {
            &&& (#[trigger] heap_visits(s, n)[k]).len() == s.len()
            &&& heap_visits(s, n)[k].to_multiset() == s.to_multiset()
        } by {
            assert(heap_visits(s, n)[k] == s);
        }
    }
}

/// The arrangement at position `i * (n - 1)! + w` of the enumeration of
/// the first `n` elements is the one at `w` in round `i`.
pub proof fn lemma_visit_index<T>(s: Seq<T>, n: nat, j: nat, i: nat, w: int)
    requires
        n >= 2,
        i < j <= n,
        0 <= w < fact((n - 1) as nat),
    ensures
        i * fact((n - 1) as nat) + w < heap_visit_rounds(s, n, j).len(),
        heap_visit_rounds(s, n, j)[i * fact((n - 1) as nat) + w] == heap_visits(
            heap_rounds(s, n, i),
            (n - 1) as nat,
        )[w],
    decreases j,
{
    let f = fact((n - 1) as nat) as int;
    lemma_visit_rounds_len(s, n, (j - 1) as nat);
    lemma_visit_rounds_len(s, n, j);
    lemma_visits_len(heap_rounds(s, n, (j - 1) as nat), (n - 1) as nat);
    assert(heap_visit_rounds(s, n, j) == heap_visit_rounds(s, n, (j - 1) as nat) + heap_visits(
        heap_rounds(s, n, (j - 1) as nat),
        (n - 1) as nat,
    ));
    assert(i * f + w < j * f) by (nonlinear_arith)
        requires
            0 <= i,
            i + 1 <= j,
            0 <= w < f,
    ;
    if i + 1 == j {
    } else {
        lemma_visit_index(s, n, (j - 1) as nat, i, w);
        assert(i * f + w < (j - 1) * f) by (nonlinear_arith)
            requires
                0 <= i,
                i + 1 <= j - 1,
                0 <= w < f,
        ;
    }
}

/// Whether some call of `f` on a slice holding `t` has returned `o`.
pub open spec fn answered<T, C, F: FnMut(&[T]) -> C>(f: F, t: Seq<T>, o: C) -> bool {
    exists|a: &[T]| a@ == t && #[trigger] call_ensures(f, (a,), o)
}

/// Whether some call of `f` on a slice holding `t` has returned a value
/// that lets the enumeration go on.
pub open spec fn went_on<T, C: ControlFlow, F: FnMut(&[T]) -> C>(f: F, t: Seq<T>) -> bool {
    exists|o: C| !o.breaks() && #[trigger] answered(f, t, o)
}

/// Whether `f` may be called on every slice holding `t`.
pub open spec fn accepts<T, C, F: FnMut(&[T]) -> C>(f: F, t: Seq<T>) -> bool {
    forall|a: &[T]| a@ == t ==> #[trigger] call_requires(f, (a,))
}

/// Whether `x` is an arrangement of `v` before which `f` let every
/// arrangement of `v` go on: where a walk over `v` that stops at the first
/// stop answer can have stopped.
pub open spec fn stopped_in<T, C: ControlFlow, F: FnMut(&[T]) -> C>(
    f: F,
    v: Seq<Seq<T>>,
    x: Seq<T>,
) -> bool {
    exists|k: int|
        0 <= k < v.len() && x == #[trigger] v[k] && forall|i: int|
            0 <= i < k ==> went_on(f, #[trigger] v[i])
}

proof fn lemma_visit_rounds_prefix<T>(s: Seq<T>, n: nat, i: nat, j: nat)
    requires
        n >= 2,
        i <= j <= n,
    ensures
        heap_visit_rounds(s, n, i).len() <= heap_visit_rounds(s, n, j).len(),
        forall|k: int|
            0 <= k < heap_visit_rounds(s, n, i).len() ==> heap_visit_rounds(s, n, j)[k]
                == #[trigger] heap_visit_rounds(s, n, i)[k],
    decreases j,
{
    if i < j {
        lemma_visit_rounds_prefix(s, n, i, (j - 1) as nat);
        assert(heap_visit_rounds(s, n, j) == heap_visit_rounds(s, n, (j - 1) as nat) + heap_visits(
            heap_rounds(s, n, (j - 1) as nat),
            (n - 1) as nat,
        ));
    }
}

/// A stop inside round `i` is a stop of the whole enumeration, once every
/// arrangement of the earlier rounds went on.
proof fn lemma_lift_stop<T, C: ControlFlow, F: FnMut(&[T]) -> C>(
    f: F,
    s: Seq<T>,
    n: nat,
    i: nat,
    x: Seq<T>,
)
    requires
        n >= 2,
        i < n,
        forall|k: int|
            0 <= k < heap_visit_rounds(s, n, i).len() ==> went_on(
                f,
                #[trigger] heap_visit_rounds(s, n, i)[k],
            ),
        stopped_in(f, heap_visits(heap_rounds(s, n, i), (n - 1) as nat), x),
    ensures
        stopped_in(f, heap_visits(s, n), x),
{
    let prev = heap_visit_rounds(s, n, i);
    let block = heap_visits(heap_rounds(s, n, i), (n - 1) as nat);
    let whole = heap_visit_rounds(s, n, n);
    assert(heap_visit_rounds(s, n, i + 1) == prev + block);
    lemma_visit_rounds_prefix(s, n, i + 1, n);
    let k2 = choose|k: int|
        0 <= k < block.len() && x == #[trigger] block[k] && forall|j: int|
            0 <= j < k ==> went_on(f, #[trigger] block[j]);
    let g = prev.len() + k2;
    assert((prev + block)[g] == block[k2]);
    assert(whole[g] == (prev + block)[g]);
    assert forall|j: int| 0 <= j < g implies went_on(f, #[trigger] whole[j]) by {
        assert(whole[j] == (prev + block)[j]);
        if j < prev.len() {
            assert((prev + block)[j] == prev[j]);
        } else {
            assert((prev + block)[j] == block[j - prev.len()]);
        }
    }
    assert(heap_visits(s, n) == whole);
}

/// `f` accepts every arrangement of round `i` when it accepts every
/// arrangement of the whole enumeration.
proof fn lemma_round_accepts<T, C, F: FnMut(&[T]) -> C>(f: F, s: Seq<T>, n: nat, i: nat)
    requires
        n >= 2,
        i < n,
        forall|k: int|
            0 <= k < heap_visits(s, n).len() ==> accepts(f, #[trigger] heap_visits(s, n)[k]),
    ensures
        forall|w: int|
            0 <= w < heap_visits(heap_rounds(s, n, i), (n - 1) as nat).len() ==> accepts(
                f,
                #[trigger] heap_visits(heap_rounds(s, n, i), (n - 1) as nat)[w],
            ),
{
    let block = heap_visits(heap_rounds(s, n, i), (n - 1) as nat);
    lemma_visits_len(heap_rounds(s, n, i), (n - 1) as nat);
    assert(heap_visits(s, n) == heap_visit_rounds(s, n, n));
    assert forall|w: int| 0 <= w < block.len() implies accepts(f, #[trigger] block[w]) by {
        lemma_visit_index(s, n, n, i, w);
        let g = i * fact((n - 1) as nat) + w;
        assert(heap_visits(s, n)[g] == block[w]);
    }
}

/// Extends "every arrangement went on" from the first `i` rounds to `i + 1`.
proof fn lemma_extend_went_on<T, C: ControlFlow, F: FnMut(&[T]) -> C>(
    f: F,
    s: Seq<T>,
    n: nat,
    i: nat,
)
    requires
        n >= 2,
        i < n,
        forall|k: int|
            0 <= k < heap_visit_rounds(s, n, i).len() ==> went_on(
                f,
                #[trigger] heap_visit_rounds(s, n, i)[k],
            ),
        forall|k: int|
            0 <= k < heap_visits(heap_rounds(s, n, i), (n - 1) as nat).len() ==> went_on(
                f,
                #[trigger] heap_visits(heap_rounds(s, n, i), (n - 1) as nat)[k],
            ),
    ensures
        forall|k: int|
            0 <= k < heap_visit_rounds(s, n, (i + 1) as nat).len() ==> went_on(
                f,
                #[trigger] heap_visit_rounds(s, n, (i + 1) as nat)[k],
            ),
{
    let prev = heap_visit_rounds(s, n, i);
    let block = heap_visits(heap_rounds(s, n, i), (n - 1) as nat);
    assert(heap_visit_rounds(s, n, (i + 1) as nat) == prev + block);
    assert forall|k: int| 0 <= k < (prev + block).len() implies went_on(
        f,
        #[trigger] (prev + block)[k],
    ) by {
        if k < prev.len() {
            assert((prev + block)[k] == prev[k]);
        } else {
            assert((prev + block)[k] == block[k - prev.len()]);
        }
    }
}

proof fn lemma_visits_small<T>(s: Seq<T>)
    ensures
        heap_visits(s, 0) == seq![s],
        heap_visits(s, 1) == seq![s],
        heap_visits(s, 2) == seq![s, swapped(s, 0, 1)],
        ({
            let a1 = swapped(s, 0, 1);
            let a2 = swapped(a1, 0, 2);
            let a3 = swapped(a2, 0, 1);
            let a4 = swapped(a3, 0, 2);
            let a5 = swapped(a4, 0, 1);
            heap_visits(s, 3) == seq![s, a1, a2, a3, a4, a5]
        }),
{
    assert forall|x: Seq<T>| heap_visits(x, 2) == seq![x, swapped(x, 0, 1)] by {
        reveal_with_fuel(heap_visit_rounds, 3);
        reveal_with_fuel(heap_rounds, 2);
        assert(heap_visits(x, 2) == heap_visit_rounds(x, 2, 2));
        assert(heap_visit_rounds(x, 2, 1) =~= seq![x]);
        assert(heap_rounds(x, 2, 1) == swapped(heap_end(x, 1), 0, 1));
        assert(heap_visit_rounds(x, 2, 2) =~= seq![x, swapped(x, 0, 1)]);
    }
    lemma_heap_small(s);
    let a1 = swapped(s, 0, 1);
    let a2 = swapped(a1, 0, 2);
    let a3 = swapped(a2, 0, 1);
    let a4 = swapped(a3, 0, 2);
    let a5 = swapped(a4, 0, 1);
    lemma_heap_small(a2);
    assert(heap_rounds(s, 3, 1) == swapped(heap_end(heap_rounds(s, 3, 0), 2), 0, 2));
    assert(heap_rounds(s, 3, 1) == a2);
    assert(heap_rounds(s, 3, 2) == swapped(heap_end(heap_rounds(s, 3, 1), 2), 0, 2));
    assert(heap_rounds(s, 3, 2) == a4);
    assert(heap_rounds(s, 3, 0) == s);
    assert(heap_visit_rounds(s, 3, 0) == Seq::<Seq<T>>::empty());
    assert(heap_visit_rounds(s, 3, 1) == heap_visit_rounds(s, 3, 0) + heap_visits(s, 2));
    assert(heap_visits(s, 2) == seq![s, a1]);
    assert(heap_visit_rounds(s, 3, 1) =~= seq![s, a1]);
    assert(heap_visit_rounds(s, 3, 2) == heap_visit_rounds(s, 3, 1) + heap_visits(a2, 2));
    assert(heap_visits(a2, 2) == seq![a2, a3]);
    assert(heap_visit_rounds(s, 3, 2) =~= seq![s, a1, a2, a3]);
    assert(heap_visit_rounds(s, 3, 3) == heap_visit_rounds(s, 3, 2) + heap_visits(a4, 2));
    assert(heap_visits(a4, 2) == seq![a4, a5]);
    assert(heap_visit_rounds(s, 3, 3) =~= seq![s, a1, a2, a3, a4, a5]);
    assert(heap_visits(s, 3) == heap_visit_rounds(s, 3, 3));
}

/// Visits every arrangement of the first `n` elements of `xs`, calling `f`
/// on the whole slice each time, and stops as soon as `f` asks to.
fn heap_unrolled_<T, C: ControlFlow, F: FnMut(&[T]) -> C>(n: usize, xs: &mut [T], f: &mut F) -> (r: C)
    requires
        3 <= n <= old(xs)@.len(),
        forall|k: int|
            0 <= k < heap_visits(old(xs)@, n as nat).len() ==> accepts(
                *old(f),
                #[trigger] heap_visits(old(xs)@, n as nat)[k],
            ),
    ensures
        final(xs)@.len() == old(xs)@.len(),
        final(xs)@.to_multiset() == old(xs)@.to_multiset(),
        answered(*old(f), final(xs)@, r),
        r.breaks() ==> stopped_in(*old(f), heap_visits(old(xs)@, n as nat), final(xs)@),
        !r.breaks() ==> final(xs)@ == heap_end(old(xs)@, n as nat),
        !r.breaks() ==> forall|k: int|
            0 <= k < heap_visits(old(xs)@, n as nat).len() ==> went_on(
                *old(f),
                #[trigger] heap_visits(old(xs)@, n as nat)[k],
            ),
        *final(f) == *old(f),
    decreases n,
{
    broadcast use vstd::function::group_function_axioms;

    let ghost s0 = xs@;
    if n == 3 {
        let ghost v = heap_visits(s0, 3);
        proof {
            lemma_heap_small(s0);
            lemma_visits_small(s0);
        }
        let ghost x0 = xs@;
        assert(x0 == v[0]);
        assert(accepts(*f, v[0]));
        let r = f(xs);
        assert(answered(*f, xs@, r));
        if r.should_break() {
            proof {
                assert(0 <= 0 < v.len() && xs@ == v[0]);
            }
            return r;
        }
        assert(went_on(*f, x0));
        exchange(xs, 0, 1);
        let ghost x1 = xs@;
        assert(x1 == v[1]);
        assert(accepts(*f, v[1]));
        let r = f(xs);
        assert(answered(*f, xs@, r));
        if r.should_break() {
            proof {
                assert forall|i: int| 0 <= i < 1 implies went_on(*f, #[trigger] v[i]) by {
                    if i == 0 {
                        assert(v[0] == x0);
                    }
                }
                assert(0 <= 1 < v.len() && xs@ == v[1]);
            }
            return r;
        }
        assert(went_on(*f, x1));
        exchange(xs, 0, 2);
        let ghost x2 = xs@;
        assert(x2 == v[2]);
        assert(accepts(*f, v[2]));
        let r = f(xs);
        assert(answered(*f, xs@, r));
        if r.should_break() {
            proof {
                assert forall|i: int| 0 <= i < 2 implies went_on(*f, #[trigger] v[i]) by {
                    if i == 0 {
                        assert(v[0] == x0);
                    } else if i == 1 {
                        assert(v[1] == x1);
                    }
                }
                assert(0 <= 2 < v.len() && xs@ == v[2]);
            }
            return r;
        }
        assert(went_on(*f, x2));
        exchange(xs, 0, 1);
        let ghost x3 = xs@;
        assert(x3 == v[3]);
        assert(accepts(*f, v[3]));
        let r = f(xs);
        assert(answered(*f, xs@, r));
        if r.should_break() {
            proof {
                assert forall|i: int| 0 <= i < 3 implies went_on(*f, #[trigger] v[i]) by {
                    if i == 0 {
                        assert(v[0] == x0);
                    } else if i == 1 {
                        assert(v[1] == x1);
                    } else if i == 2 {
                        assert(v[2] == x2);
                    }
                }
                assert(0 <= 3 < v.len() && xs@ == v[3]);
            }
            return r;
        }
        assert(went_on(*f, x3));
        exchange(xs, 0, 2);
        let ghost x4 = xs@;
        assert(x4 == v[4]);
        assert(accepts(*f, v[4]));
        let r = f(xs);
        assert(answered(*f, xs@, r));
        if r.should_break() {
            proof {
                assert forall|i: int| 0 <= i < 4 implies went_on(*f, #[trigger] v[i]) by {
                    if i == 0 {
                        assert(v[0] == x0);
                    } else if i == 1 {
                        assert(v[1] == x1);
                    } else if i == 2 {
                        assert(v[2] == x2);
                    } else if i == 3 {
                        assert(v[3] == x3);
                    }
                }
                assert(0 <= 4 < v.len() && xs@ == v[4]);
            }
            return r;
        }
        assert(went_on(*f, x4));
        exchange(xs, 0, 1);
        let ghost x5 = xs@;
        assert(x5 == v[5]);
        assert(accepts(*f, v[5]));
        let r = f(xs);
        assert(answered(*f, xs@, r));
        proof {
            assert forall|i: int| 0 <= i < 5 implies went_on(*f, #[trigger] v[i]) by {
                if i == 0 {
                    assert(v[0] == x0);
                } else if i == 1 {
                    assert(v[1] == x1);
                } else if i == 2 {
                    assert(v[2] == x2);
                } else if i == 3 {
                    assert(v[3] == x3);
                } else if i == 4 {
                    assert(v[4] == x4);
                }
            }
            if !r.breaks() {
                assert(went_on(*f, x5));
                assert forall|i: int| 0 <= i < v.len() implies went_on(*f, #[trigger] v[i]) by {
                    if i == 5 {
                        assert(v[5] == x5);
                    }
                }
            } else {
                assert(0 <= 5 < v.len() && xs@ == v[5]);
            }
        }
        r
    } else {
        let mut i: usize = 0;
        while i < n - 1
            invariant
                4 <= n <= xs@.len(),
                i <= n - 1,
                xs@ == heap_rounds(s0, n as nat, i as nat),
                xs@.len() == s0.len(),
                xs@.to_multiset() == s0.to_multiset(),
                *f == *old(f),
                s0 == old(xs)@,
                forall|k: int|
                    0 <= k < heap_visits(s0, n as nat).len() ==> accepts(
                        *f,
                        #[trigger] heap_visits(s0, n as nat)[k],
                    ),
                forall|k: int|
                    0 <= k < heap_visit_rounds(s0, n as nat, i as nat).len() ==> went_on(
                        *f,
                        #[trigger] heap_visit_rounds(s0, n as nat, i as nat)[k],
                    ),
            decreases n - 1 - i,
        {
            proof {
                lemma_round_accepts(*f, s0, n as nat, i as nat);
            }
            let r = heap_unrolled_(n - 1, xs, f);
            if r.should_break() {
                proof {
                    lemma_lift_stop(*f, s0, n as nat, i as nat, xs@);
                }
                return r;
            }
            proof {
                lemma_extend_went_on(*f, s0, n as nat, i as nat);
            }
            let ghost done = heap_visit_rounds(s0, n as nat, (i + 1) as nat);
            let j: usize = if n % 2 == 0 { i } else { 0 };
            exchange(xs, j, n - 1);
            i = i + 1;
            assert(heap_visit_rounds(s0, n as nat, i as nat) == done);
            assert forall|k: int| 0 <= k < done.len() implies went_on(*f, #[trigger] done[k]) by {}
        }
        proof {
            lemma_round_accepts(*f, s0, n as nat, (n - 1) as nat);
        }
        let r = heap_unrolled_(n - 1, xs, f);
        proof {
            if r.breaks() {
                lemma_lift_stop(*f, s0, n as nat, (n - 1) as nat, xs@);
            } else {
                lemma_extend_went_on(*f, s0, n as nat, (n - 1) as nat);
                let whole = heap_visit_rounds(s0, n as nat, n as nat);
                assert(heap_visits(s0, n as nat) == whole);
                assert forall|k: int| 0 <= k < whole.len() implies went_on(*f, #[trigger] whole[k]) by {
                    assert(whole == heap_visit_rounds(s0, n as nat, ((n - 1) + 1) as nat));
                }
            }
        }
        r
    }
}

/// Visits every arrangement of `xs` in Heap's order, `heap_visits`, calling
/// `f` once on each: n! calls for n elements, each arrangement one exchange
/// away from the one before. `f` is only ever handed those arrangements.
///
/// The walk stops at the first call whose answer asks to stop: that answer
/// is returned, every earlier arrangement got an answer that went on, and
/// the slice is left as `f` saw it, with no further exchange. Otherwise
/// every arrangement got an answer that went on, the last one is returned,
/// and the slice is left in the last arrangement, `heap_end`. The slice
/// keeps its elements either way.
pub fn heap_recursive<T, C: ControlFlow, F: FnMut(&[T]) -> C>(xs: &mut [T], f: F) -> (r: C)
    requires
        forall|s: &[T]|
            heap_visits(old(xs)@, old(xs)@.len()).contains(s@) ==> call_requires(f, (s,)),
    ensures
        final(xs)@.len() == old(xs)@.len(),
        final(xs)@.to_multiset() == old(xs)@.to_multiset(),
        answered(f, final(xs)@, r),
        r.breaks() ==> stopped_in(f, heap_visits(old(xs)@, old(xs)@.len()), final(xs)@),
        !r.breaks() ==> final(xs)@ == heap_end(old(xs)@, old(xs)@.len()),
        !r.breaks() ==> forall|k: int|
            0 <= k < heap_visits(old(xs)@, old(xs)@.len()).len() ==> went_on(
                f,
                #[trigger] heap_visits(old(xs)@, old(xs)@.len())[k],
            ),
{
    broadcast use vstd::function::group_function_axioms;

    let ghost f0 = f;
    let mut f = f;
    let n = xs.len();
    let ghost s0 = xs@;
    let ghost v = heap_visits(s0, s0.len());
    proof {
        lemma_heap_small(s0);
        lemma_visits_small(s0);
        assert forall|k: int| 0 <= k < v.len() implies accepts(f0, #[trigger] v[k]) by {
            assert forall|a: &[T]| a@ == v[k] implies #[trigger] call_requires(f0, (a,)) by {
                assert(v.contains(a@));
            }
        }
    }
    if n <= 1 {
        assert(xs@ == v[0]);
        assert(accepts(f0, v[0]));
        let r = f(xs);
        assert(answered(f0, xs@, r));
        proof {
            if r.breaks() {
                assert(0 <= 0 < v.len() && xs@ == v[0]);
            } else {
                assert(went_on(f0, xs@));
                assert forall|k: int| 0 <= k < v.len() implies went_on(f0, #[trigger] v[k]) by {}
            }
        }
        r
    } else if n == 2 {
        let ghost x0 = xs@;
        assert(x0 == v[0]);
        assert(accepts(f0, v[0]));
        let r = f(xs);
        assert(answered(f0, xs@, r));
        if r.should_break() {
            assert(0 <= 0 < v.len() && xs@ == v[0]);
            return r;
        }
        assert(went_on(f0, x0));
        exchange(xs, 0, 1);
        let ghost x1 = xs@;
        assert(x1 == v[1]);
        assert(accepts(f0, v[1]));
        let r = f(xs);
        assert(answered(f0, xs@, r));
        proof {
            assert forall|i: int| 0 <= i < 1 implies went_on(f0, #[trigger] v[i]) by {
                assert(v[0] == x0);
            }
            if r.breaks() {
                assert(0 <= 1 < v.len() && xs@ == v[1]);
            } else {
                assert(went_on(f0, x1));
                assert forall|k: int| 0 <= k < v.len() implies went_on(f0, #[trigger] v[k]) by {
                    if k == 0 {
                        assert(v[0] == x0);
                    } else {
                        assert(v[1] == x1);
                    }
                }
            }
        }
        r
    } else {
        heap_unrolled_(n, xs, &mut f)
    }
}

} // verus!
