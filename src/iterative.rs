//! Heap's algorithm as a resumable walker over a borrowed slice.
use vstd::prelude::*;
use crate::arrange::{fact, lemma_fact_positive, lemma_swapped_multiset, swap_at, swapped};
use crate::recursive::{
    heap_end, heap_rounds, heap_visit_rounds, heap_visits, lemma_visit_index, lemma_visits_ends,
    lemma_visits_len, round_partner,
};

verus! {

/// The longest slice a `Heap` walks: one counter per level below the top.
pub const MAXHEAP: usize = 16;

/// Number of counters a `Heap` keeps.
pub const LEVELS: usize = 15;

/// The level the next step works at: the lowest level at or above `k`, and
/// below `m`, whose counter has not finished its cycle (`c[k] <= k`); `m` when
/// every one of them has.
pub open spec fn open_level(c: Seq<u8>, k: int, m: int) -> int
    decreases m - k,
{
    if k >= m {
        m
    } else if c[k] as int <= k {
        k
    } else {
        open_level(c, k + 1, m)
    }
}

/// The index exchanged with `level + 1` at a step at `level`: the level's
/// counter at an even level, the front at an odd one.
pub open spec fn partner(c: Seq<u8>, level: int) -> int {
    if level % 2 == 0 {
        c[level] as int
    } else {
        0
    }
}

/// The counters after a step at `level`: those below it cleared, its own one
/// higher, the rest as they were.
pub open spec fn stepped_counters(c: Seq<u8>, level: int) -> Seq<u8> {
    Seq::new(
        c.len(),
        |k: int|
            if k < level {
                0u8
            } else if k == level {
                (c[k] + 1) as u8
            } else {
                c[k]
            },
    )
}

/// How many arrangements the counters of the `m` lowest levels stand for:
/// level `k` counts `c[k]` blocks of `(k + 1)!` arrangements each.
pub open spec fn weight(c: Seq<u8>, m: int) -> int
    decreases m,
{
    if m <= 0 {
        0
    } else {
        weight(c, m - 1) + c[m - 1] * fact(m as nat)
    }
}

proof fn lemma_fact_small()
    ensures
        fact(0) == 1,
        fact(1) == 1,
{
    reveal_with_fuel(fact, 2);
}

proof fn lemma_weight_zero(c: Seq<u8>, m: int)
    requires
        m <= c.len(),
        forall|k: int| 0 <= k < m ==> c[k] == 0,
    ensures
        weight(c, m) == 0,
    decreases m,
{
    if m > 0 {
        lemma_weight_zero(c, m - 1);
    }
}

proof fn lemma_weight_full(c: Seq<u8>, m: int)
    requires
        0 <= m <= c.len(),
        forall|k: int| 0 <= k < m ==> c[k] as int == k + 1,
    ensures
        weight(c, m) == fact((m + 1) as nat) - 1,
    decreases m,
{
    reveal_with_fuel(fact, 2);
    if m > 0 {
        lemma_weight_full(c, m - 1);
        assert(c[m - 1] as int == m);
        assert(weight(c, m) == weight(c, m - 1) + m * fact(m as nat));
        assert(fact((m + 1) as nat) == (m + 1) * fact(m as nat));
        assert(m * fact(m as nat) + fact(m as nat) == (m + 1) * fact(m as nat))
            by (nonlinear_arith);
    }
}

proof fn lemma_weight_bound(c: Seq<u8>, m: int)
    requires
        0 <= m <= c.len(),
        forall|k: int| 0 <= k < m ==> c[k] as int <= k + 1,
    ensures
        0 <= weight(c, m) <= fact((m + 1) as nat) - 1,
    decreases m,
{
    reveal_with_fuel(fact, 2);
    if m > 0 {
        lemma_weight_bound(c, m - 1);
        lemma_fact_positive(m as nat);
        let x = c[m - 1] as int;
        let f = fact(m as nat) as int;
        assert(0 <= x * f <= m * f) by (nonlinear_arith)
            requires
                0 <= x <= m,
                f >= 1,
        ;
        assert(fact((m + 1) as nat) == (m + 1) * fact(m as nat));
        assert(m * f + f == (m + 1) * f) by (nonlinear_arith);
        assert(weight(c, m) == weight(c, m - 1) + x * f);
    }
}

/// A step at `level` adds exactly one to the weight of any range of levels
/// that holds it.
proof fn lemma_weight_step(c: Seq<u8>, level: int, m: int)
    requires
        0 <= level < m <= c.len(),
        forall|k: int| 0 <= k < level ==> c[k] as int == k + 1,
        c[level] as int <= level,
        level < 255,
    ensures
        weight(stepped_counters(c, level), m) == weight(c, m) + 1,
    decreases m,
{
    let d = stepped_counters(c, level);
    if m == level + 1 {
        lemma_weight_full(c, level);
        lemma_weight_zero(d, level);
        let x = c[level] as int;
        let f = fact(m as nat) as int;
        assert((x + 1) * f == x * f + f) by (nonlinear_arith);
    } else {
        lemma_weight_step(c, level, m - 1);
    }
}

/// All levels from `k` up to `m` (exclusive) below the open level have
/// finished their cycle.
proof fn lemma_open_level(c: Seq<u8>, k: int, m: int)
    requires
        0 <= k <= m <= c.len(),
    ensures
        k <= open_level(c, k, m) <= m,
        forall|i: int| k <= i < open_level(c, k, m) ==> c[i] as int > i,
        open_level(c, k, m) < m ==> c[open_level(c, k, m)] as int <= open_level(c, k, m),
    decreases m - k,
{
    if k < m && c[k] as int > k {
        lemma_open_level(c, k + 1, m);
    }
}

proof fn lemma_open_level_shrink(c: Seq<u8>, k: int, m: int)
    requires
        0 <= k <= m,
        m <= c.len(),
        open_level(c, k, m) < m - 1,
    ensures
        open_level(c, k, m - 1) == open_level(c, k, m),
    decreases m - k,
{
    if k < m && c[k] as int > k {
        lemma_open_level_shrink(c, k + 1, m);
    }
}

/// One step of the walker moves Heap's order on by one: from the
/// arrangement at position `weight(c, n - 1)`, exchanging the elements at
/// `partner(c, level)` and `level + 1` gives the next one.
pub proof fn lemma_visit_step<T>(s: Seq<T>, n: nat, c: Seq<u8>)
    requires
        n >= 2,
        n - 1 <= c.len(),
        forall|k: int| 0 <= k < n - 1 ==> c[k] as int <= k + 1,
        open_level(c, 0, n - 1) < n - 1,
    ensures
        weight(c, n - 1) + 1 < fact(n),
        heap_visits(s, n)[weight(c, n - 1) + 1] == swapped(
            heap_visits(s, n)[weight(c, n - 1)],
            partner(c, open_level(c, 0, n - 1)),
            open_level(c, 0, n - 1) + 1,
        ),
    decreases n,
{
    let top = n - 2;
    let i = c[top] as nat;
    let f = fact((n - 1) as nat) as int;
    let lower = weight(c, top);
    let level = open_level(c, 0, n - 1);
    assert(weight(c, n - 1) == lower + i * f);
    lemma_weight_bound(c, top);
    lemma_open_level(c, 0, n - 1);
    lemma_fact_positive((n - 1) as nat);
    assert(fact(n) == n * f);
    assert(heap_visits(s, n) == heap_visit_rounds(s, n, n));
    if level < top {
        lemma_open_level_shrink(c, 0, n - 1);
        let t = heap_rounds(s, n, i);
        lemma_visit_step(t, (n - 1) as nat, c);
        lemma_visit_index(s, n, n, i, lower);
        lemma_visit_index(s, n, n, i, lower + 1);
        assert(i * f + lower + 1 < fact(n)) by (nonlinear_arith)
            requires
                0 <= i <= n - 1,
                lower + 1 < f,
                fact(n) == n * f,
        ;
    } else {
        assert forall|k: int| 0 <= k < top implies c[k] as int == k + 1 by {}
        lemma_weight_full(c, top);
        let t = heap_rounds(s, n, i);
        lemma_visits_len(t, (n - 1) as nat);
        lemma_visits_ends(t, (n - 1) as nat);
        lemma_visits_ends(heap_rounds(s, n, i + 1), (n - 1) as nat);
        lemma_visit_index(s, n, n, i, f - 1);
        lemma_visit_index(s, n, n, i + 1, 0);
        assert(i * f + (f - 1) + 1 == (i + 1) * f) by (nonlinear_arith);
        assert((i + 1) * f < fact(n)) by (nonlinear_arith)
            requires
                0 <= i,
                i + 1 <= n - 1,
                f >= 1,
                fact(n) == n * f,
        ;
        assert(heap_rounds(s, n, i + 1) == swapped(
            heap_end(heap_rounds(s, n, i), (n - 1) as nat),
            round_partner(n, i),
            n - 1,
        ));
    }
}

/// Heap's algorithm over a borrowed slice, one arrangement per step.
///
/// The walker keeps one counter per level and a marker that is `u32::MAX`
/// until the first arrangement has been handed out, `0` between steps, and
/// the top level once the walk is over.
pub struct Heap<'a, T> {
    data: &'a mut [T],
    n: u32,
    c: Vec<u8>,
    origin: Ghost<Seq<T>>,
}

impl<'a, T> Heap<'a, T> {
    /// The current arrangement of the borrowed slice.
    pub closed spec fn arrangement(&self) -> Seq<T> {
        self.data@
    }

    /// The arrangement the walk started from: the slice as it was handed to
    /// `new`, or as it stood at the last `reset`.
    pub closed spec fn origin(&self) -> Seq<T> {
        self.origin@
    }

    /// Whether the slice holds the arrangement of Heap's order from
    /// `origin` that the counters stand for: the origin before the first
    /// step, the one at position `weight` between steps, the last one once
    /// the walk is over. Changes made through `get_mut` may break this.
    pub closed spec fn on_course(&self) -> bool {
        let len = self.data@.len();
        &&& self.origin@.len() == len
        &&& self.n == u32::MAX ==> self.data@ == self.origin@
        &&& self.n == 0 ==> self.data@ == heap_visits(self.origin@, len)[weight(self.c@, len - 1)]
        &&& self.n != 0 && self.n != u32::MAX ==> self.data@ == heap_visits(
            self.origin@,
            len,
        ).last()
    }

    /// The counters, one per level.
    pub closed spec fn counters(&self) -> Seq<u8> {
        self.c@
    }

    /// Whether the first arrangement has been handed out.
    pub closed spec fn started(&self) -> bool {
        self.n != u32::MAX
    }

    /// How many more arrangements the walker will hand out.
    pub closed spec fn remaining(&self) -> nat {
        let len = self.data@.len();
        if self.n == u32::MAX {
            fact(len)
        } else if self.n == 0 {
            (fact(len) - 1 - weight(self.c@, len - 1)) as nat
        } else {
            0
        }
    }

    /// The walker's invariant.
    pub closed spec fn wf(&self) -> bool {
        let len = self.data@.len();
        &&& len <= MAXHEAP
        &&& self.c@.len() == LEVELS
        &&& forall|k: int| 0 <= k < LEVELS ==> self.c@[k] as int <= k + 1
        &&& forall|k: int| 0 <= k < LEVELS && len - 1 <= k ==> self.c@[k] == 0
        &&& self.n == u32::MAX ==> forall|k: int| 0 <= k < LEVELS ==> self.c@[k] == 0
        &&& self.n != u32::MAX && self.n != 0 ==> {
            &&& self.n as int == len - 1
            &&& forall|k: int| 0 <= k < LEVELS ==> self.c@[k] == 0
        }
    }

    /// Wraps `data`; the first step hands it out as it is.
    pub fn new(data: &'a mut [T]) -> (r: Self)
        requires
            old(data)@.len() <= MAXHEAP,
        ensures
            r.wf(),
            r.arrangement() == old(data)@,
            !r.started(),
            r.remaining() == fact(old(data)@.len()),
            r.counters() == Seq::new(LEVELS as nat, |k: int| 0u8),
            r.origin() == old(data)@,
            r.on_course(),
    {
        let c: Vec<u8> = vec![0u8; LEVELS];
        assert(c@ =~= Seq::new(LEVELS as nat, |k: int| 0u8));
        let r = Heap { origin: Ghost(data@), data, n: u32::MAX, c };
        assert(r.counters() =~= Seq::new(LEVELS as nat, |k: int| 0u8));
        r
    }

    /// The borrowed slice, as it stands.
    pub fn get(&self) -> (r: &[T])
        ensures
            r@ == self.arrangement(),
    {
        self.data
    }

    /// Restarts the walk from the slice as it stands now, not from the order
    /// the walker was given: the counters are cleared and the next step hands
    /// the current arrangement out unchanged.
    pub fn reset(&mut self)
        requires
            old(self).wf(),
        ensures
            final(self).wf(),
            final(self).arrangement() == old(self).arrangement(),
            !final(self).started(),
            final(self).remaining() == fact(old(self).arrangement().len()),
            final(self).counters() == Seq::new(LEVELS as nat, |k: int| 0u8),
            final(self).origin() == old(self).arrangement(),
            final(self).on_course(),
    {
        self.n = u32::MAX;
        self.origin = Ghost(self.data@);
        let mut k: usize = 0;
        while k < LEVELS
            invariant
                self.c@.len() == LEVELS,
                k <= LEVELS,
                self.n == u32::MAX,
                self.data@ == old(self).data@,
                self.origin@ == self.data@,
                self.data@.len() <= MAXHEAP,
                forall|i: int| 0 <= i < k ==> self.c@[i] == 0,
            decreases LEVELS - k,
        {
            self.c.set(k, 0);
            k = k + 1;
        }
        assert(self.c@ =~= Seq::new(LEVELS as nat, |k: int| 0u8));
    }

    /// Steps the slice to the next arrangement in Heap's order and hands it
    /// out; `None` once all n! arrangements have been handed out, with the
    /// slice left as it is.
    ///
    /// The first step hands the slice out unchanged. Each later one finds
    /// the lowest level whose counter has not finished its cycle, clears the
    /// counters below it, exchanges the element at `level + 1` with the one
    /// at `partner`, and advances that level's counter.
    pub fn next_permutation(&mut self) -> (r: Option<&[T]>)
        requires
            old(self).wf(),
        ensures
            final(self).wf(),
            final(self).started(),
            r is Some <==> old(self).remaining() > 0,
            r is Some ==> final(self).remaining() == old(self).remaining() - 1,
            r is None ==> final(self).remaining() == 0,
            r matches Some(s) ==> s@ == final(self).arrangement(),
            r is None ==> final(self).arrangement() == old(self).arrangement(),
            final(self).arrangement().to_multiset() == old(self).arrangement().to_multiset(),
            final(self).arrangement().len() == old(self).arrangement().len(),
            !old(self).started() ==> final(self).arrangement() == old(self).arrangement(),
            !old(self).started() ==> final(self).counters() == old(self).counters(),
            final(self).origin() == old(self).origin(),
            old(self).on_course() ==> final(self).on_course(),
            old(self).on_course() && r is Some ==> final(self).arrangement() == heap_visits(
                old(self).origin(),
                old(self).arrangement().len(),
            )[fact(old(self).arrangement().len()) - old(self).remaining()],
            old(self).on_course() && r is None ==> final(self).arrangement() == heap_end(
                old(self).origin(),
                old(self).arrangement().len(),
            ),
            ({
                let len = old(self).arrangement().len() as int;
                let c = old(self).counters();
                let level = open_level(c, 0, len - 1);
                old(self).started() && r is Some ==> {
                    &&& 0 <= level < len - 1
                    &&& final(self).arrangement() == swapped(
                        old(self).arrangement(),
                        partner(c, level),
                        level + 1,
                    )
                    &&& final(self).counters() == stepped_counters(c, level)
                }
            }),
    {
        let len = self.data.len();
        if self.n == u32::MAX {
            self.n = 0;
            proof {
                lemma_weight_zero(self.c@, len - 1);
                lemma_fact_positive(len as nat);
                lemma_visits_ends(self.origin@, len as nat);
            }
            return Some(&*self.data);
        }
        if self.n != 0 {
            // the walk is over: the marker stands at the top level
            proof {
                lemma_visits_ends(self.origin@, len as nat);
            }
            return None;
        }
        let ghost c0 = self.c@;
        let ghost n0 = self.n;
        proof {
            reveal_with_fuel(fact, 2);
            if len >= 1 {
                lemma_open_level(c0, 0, len - 1);
                lemma_weight_bound(c0, len - 1);
            }
        }
        while 1 + (self.n as usize) < len
            invariant
                len == self.data@.len(),
                self.data@ == old(self).data@,
                len <= MAXHEAP,
                self.c@.len() == LEVELS,
                n0 == 0,
                self.n <= len,
                n0 == 0 && len >= 1 ==> self.n as int <= open_level(c0, 0, len - 1),
                n0 == 0 && len >= 1 ==> open_level(c0, 0, len - 1) <= len - 1,
                n0 == 0 && len >= 1 ==> forall|i: int|
                    0 <= i < open_level(c0, 0, len - 1) ==> c0[i] as int > i,
                n0 == 0 && len >= 1 && open_level(c0, 0, len - 1) < len - 1 ==> c0[open_level(
                    c0,
                    0,
                    len - 1,
                )] as int <= open_level(c0, 0, len - 1),
                forall|i: int| 0 <= i < self.n ==> c0[i] as int == i + 1,
                forall|i: int| 0 <= i < self.n ==> #[trigger] self.c@[i] == 0,
                forall|i: int| self.n <= i < LEVELS ==> self.c@[i] == c0[i],
                old(self).wf(),
                c0 == old(self).c@,
                n0 == old(self).n,
                self.origin@ == old(self).origin@,
                n0 != u32::MAX,
            decreases len - self.n,
        {
            let nu = self.n as usize;
            let cn = self.c[nu];
            assert(c0[nu as int] == cn);
            if (cn as usize) <= nu {
                assert(nu as int == open_level(c0, 0, len - 1));
                let ghost before = self.c@;
                let j: usize = if nu % 2 == 0 { cn as usize } else { 0 };
                swap_at(self.data, j, nu + 1);
                self.c.set(nu, cn + 1);
                self.n = 0;
                proof {
                    lemma_swapped_multiset(old(self).data@, j as int, nu as int + 1);
                    assert(self.c@ == before.update(nu as int, (cn + 1) as u8));
                    assert forall|i: int| 0 <= i < LEVELS implies #[trigger] self.c@[i]
                        == stepped_counters(c0, nu as int)[i] by {
                        if i < nu {
                            assert(before[i] == 0);
                        } else if i == nu {
                        } else {
                            assert(before[i] == c0[i]);
                        }
                    }
                    assert(self.c@ =~= stepped_counters(c0, nu as int));
                    lemma_weight_step(c0, nu as int, len - 1);
                    lemma_weight_bound(self.c@, len - 1);
                    if old(self).on_course() {
                        lemma_visit_step(self.origin@, len as nat, c0);
                    }
                }
                return Some(&*self.data);
            } else {
                self.c.set(nu, 0);
                self.n = self.n + 1;
            }
        }
        proof {
            reveal_with_fuel(fact, 2);
            lemma_visits_ends(self.origin@, len as nat);
            if len >= 2 {
                assert(self.n as int == len - 1);
                lemma_weight_full(c0, len - 1);
                lemma_visits_len(self.origin@, len as nat);
                assert forall|i: int| 0 <= i < LEVELS implies self.c@[i] == 0 by {
                    if i < self.n {
                        assert(self.c@[i] == 0);
                    } else {
                        assert(self.c@[i] == c0[i]);
                        assert(len - 1 <= i);
                    }
                }
            } else {
                assert(self.n == 0);
                assert(self.c@ =~= c0);
                assert(weight(c0, len - 1) == 0);
                lemma_fact_small();
                assert(fact(len as nat) == 1);
            }
        }
        None
    }

    /// The borrowed slice, open to changes in place. What the caller writes
    /// through it is where the walk goes on from.
    pub fn get_mut(&mut self) -> (r: &mut [T])
        requires
            old(self).wf(),
        ensures
            r@ == old(self).arrangement(),
            final(self).arrangement() == final(r)@,
            final(self).counters() == old(self).counters(),
            final(self).started() == old(self).started(),
            final(self).origin() == old(self).origin(),
            final(r)@.len() == r@.len() ==> final(self).wf(),
            final(r)@.len() == r@.len() ==> final(self).remaining() == old(self).remaining(),
    {
        self.data
    }

    /// Steps as `next_permutation` does and hands out a copy of the new
    /// arrangement.
    pub fn next(&mut self) -> (r: Option<Vec<T>>)
        where
            T: Copy,
        requires
            old(self).wf(),
        ensures
            final(self).wf(),
            final(self).started(),
            r is Some <==> old(self).remaining() > 0,
            r is Some ==> final(self).remaining() == old(self).remaining() - 1,
            r is None ==> final(self).remaining() == 0,
            r matches Some(v) ==> v@ == final(self).arrangement(),
            r is None ==> final(self).arrangement() == old(self).arrangement(),
            final(self).arrangement().to_multiset() == old(self).arrangement().to_multiset(),
            final(self).arrangement().len() == old(self).arrangement().len(),
            !old(self).started() ==> final(self).arrangement() == old(self).arrangement(),
            !old(self).started() ==> final(self).counters() == old(self).counters(),
            final(self).origin() == old(self).origin(),
            old(self).on_course() ==> final(self).on_course(),
            old(self).on_course() && r is Some ==> final(self).arrangement() == heap_visits(
                old(self).origin(),
                old(self).arrangement().len(),
            )[fact(old(self).arrangement().len()) - old(self).remaining()],
            old(self).on_course() && r is None ==> final(self).arrangement() == heap_end(
                old(self).origin(),
                old(self).arrangement().len(),
            ),
            ({
                let len = old(self).arrangement().len() as int;
                let c = old(self).counters();
                let level = open_level(c, 0, len - 1);
                old(self).started() && r is Some ==> {
                    &&& 0 <= level < len - 1
                    &&& final(self).arrangement() == swapped(
                        old(self).arrangement(),
                        partner(c, level),
                        level + 1,
                    )
                    &&& final(self).counters() == stepped_counters(c, level)
                }
            }),
    {
        match self.next_permutation() {
            None => None,
            Some(s) => {
                let mut v: Vec<T> = Vec::new();
                let mut i: usize = 0;
                while i < s.len()
                    invariant
                        i <= s@.len(),
                        v@ == s@.subrange(0, i as int),
                    decreases s@.len() - i,
                {
                    v.push(s[i]);
                    i = i + 1;
                    assert(v@ =~= s@.subrange(0, i as int));
                }
                assert(v@ =~= s@);
                Some(v)
            },
        }
    }
}

} // verus!
