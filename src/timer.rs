use vstd::prelude::*;

verus! {

/// Sum of a sequence of durations.
pub open spec fn sum_of(s: Seq<u32>) -> nat
    decreases s.len(),
{
    if s.len() == 0 {
        0
    } else {
        sum_of(s.drop_last()) + s.last() as nat
    }
}

/// Time at which interval `i` starts within one cycle.
pub open spec fn prefix(s: Seq<u32>, i: int) -> nat {
    sum_of(s.take(i))
}

/// Sum of `k` intervals taken cyclically from index `i`.
pub open spec fn cyclic_sum(s: Seq<u32>, i: int, k: nat) -> nat
    decreases k,
{
    if k == 0 {
        0
    } else {
        cyclic_sum(s, i, (k - 1) as nat) + s[(i + k - 1) % s.len() as int] as nat
    }
}

/// The catch-up loop: while the elapsed time covers the current interval,
/// consume it and move to the next one, wrapping around.
pub open spec fn settle(s: Seq<u32>, e: nat, i: int, fuel: nat) -> (nat, int)
    decreases fuel,
{
    if fuel == 0 || e < s[i] {
        (e, i)
    } else {
        settle(s, (e - s[i]) as nat, (i + 1) % s.len() as int, (fuel - 1) as nat)
    }
}

/// Abstract state of a timer.
pub struct TimerState {
    pub elapsed: nat,
    pub intervals: Seq<u32>,
    pub index: int,
}

pub open spec fn degenerate(s: Seq<u32>) -> bool {
    s.len() == 0 || sum_of(s) == 0
}

/// State after one tick of `delta`, and whether the index changed.
pub open spec fn tick_spec(t: TimerState, delta: nat) -> (TimerState, bool) {
    if degenerate(t.intervals) {
        (t, false)
    } else {
        let e = (t.elapsed + delta) % sum_of(t.intervals);
        let (e2, i2) = settle(t.intervals, e, t.index, t.intervals.len());
        (TimerState { elapsed: e2, intervals: t.intervals, index: i2 }, i2 != t.index)
    }
}

pub open spec fn fresh(s: Seq<u32>) -> TimerState {
    TimerState { elapsed: 0, intervals: s, index: 0 }
}

/// State after `m` ticks of one unit each.
pub open spec fn unit_ticks(t: TimerState, m: nat) -> TimerState
    decreases m,
{
    if m == 0 {
        t
    } else {
        tick_spec(unit_ticks(t, (m - 1) as nat), 1).0
    }
}

/// Position of a timer within its cycle.
pub open spec fn phase(t: TimerState) -> nat {
    prefix(t.intervals, t.index) + t.elapsed
}

pub open spec fn all_positive(s: Seq<u32>) -> bool {
    forall|i: int| 0 <= i < s.len() ==> s[i] > 0
}

/// A running timer sits inside its current interval.
pub open spec fn inside(t: TimerState) -> bool {
    0 <= t.index < t.intervals.len() && t.elapsed < t.intervals[t.index]
}

/// A cyclic scheduler over a list of intervals (in milliseconds).
#[derive(Debug)]
pub struct Timer {
    pub elapsed: u128,
    pub intervals: Vec<u32>,
    pub total: u128,
    pub index: usize,
}

impl Timer {
    pub open spec fn state(&self) -> TimerState {
        TimerState { elapsed: self.elapsed as nat, intervals: self.intervals@, index: self.index as int }
    }

    pub open spec fn wf(&self) -> bool {
        &&& self.total == sum_of(self.intervals@)
        &&& if self.intervals@.len() == 0 { self.index == 0 } else { self.index < self.intervals@.len() }
        &&& !degenerate(self.intervals@) ==> self.elapsed < self.intervals@[self.index as int]
            || (self.index == 0 && self.elapsed == 0)
        &&& degenerate(self.intervals@) ==> self.elapsed == 0
    }

    pub fn new(intervals: Vec<u32>) -> (r: Timer)
        ensures
            r.wf(),
            r.state() == fresh(intervals@),
    {
        let mut total: u128 = 0;
        let mut i: usize = 0;
        while i < intervals.len()
            invariant
                i <= intervals@.len(),
                total == sum_of(intervals@.take(i as int)),
                total <= i * 0x1_0000_0000,
            decreases intervals@.len() - i,
        {
            proof {
                assert(intervals@.take(i + 1).drop_last() == intervals@.take(i as int));
            }
            total = total + intervals[i] as u128;
            i = i + 1;
        }
        assert(intervals@.take(i as int) == intervals@);
        Timer { elapsed: 0, intervals, total, index: 0 }
    }

    /// Advances the timer by `delta` milliseconds; returns whether the
    /// current index changed.
    pub fn tick(&mut self, delta: u64) -> (changed: bool)
        requires
            old(self).wf(),
        ensures
            final(self).wf(),
            (final(self).state(), changed) == tick_spec(old(self).state(), delta as nat),
            !degenerate(old(self).intervals@) ==> inside(final(self).state()),
    {
        if self.intervals.len() == 0 || self.total == 0 {
            return false;
        }
        let ghost iv = self.intervals@;
        let n = self.intervals.len();
        let prev = self.index;
        proof {
            lemma_cyclic_sum_full(iv, prev as int);
            lemma_sum_bound(iv);
            vstd::arithmetic::div_mod::lemma_small_mod(prev as nat, n as nat);
            assert(iv.len() * 0xFFFF_FFFF <= 0xFFFF_FFFF_FFFF_FFFF * 0xFFFF_FFFF) by (nonlinear_arith)
                requires iv.len() <= 0xFFFF_FFFF_FFFF_FFFF;
        }
        let e0 = (self.elapsed % self.total + delta as u128 % self.total) % self.total;
        proof {
            lemma_mod_sum(self.elapsed as nat, delta as nat, self.total as nat);
        }
        self.elapsed = e0;
        let ghost mut steps: nat = 0;
        while self.elapsed >= self.intervals[self.index] as u128
            invariant
                self.intervals@ == iv,
                n == iv.len(),
                n > 0,
                self.total == sum_of(iv),
                self.total > 0,
                self.index < n,
                prev < n,
                steps < n,
                e0 < self.total,
                e0 == self.elapsed + cyclic_sum(iv, prev as int, steps),
                self.index as int == (prev + steps) % n as int,
                settle(iv, self.elapsed as nat, self.index as int, (n - steps) as nat)
                    == settle(iv, e0 as nat, prev as int, n as nat),
                cyclic_sum(iv, prev as int, n as nat) == sum_of(iv),
            decreases n - steps,
        {
            proof {
                lemma_cyclic_sum_mono(iv, prev as int, steps + 1, n as nat);
                assert(cyclic_sum(iv, prev as int, steps + 1) == cyclic_sum(iv, prev as int, steps)
                    + iv[(prev + steps) % n as int]);
                if steps + 1 >= n {
                    lemma_cyclic_sum_mono(iv, prev as int, n as nat, steps + 1);
                }
                lemma_mod_step(prev as int, steps as int, n as int);
            }
            self.elapsed = self.elapsed - self.intervals[self.index] as u128;
            self.index = (self.index + 1) % n;
            proof {
                steps = steps + 1;
            }
        }
        self.index != prev
    }

    /// Fraction of the current interval that has elapsed, as a pair
    /// (elapsed, length); (0, 0) when there is no current interval or it is empty.
    pub fn progress(&self) -> (r: (u128, u128))
        requires
            self.wf(),
        ensures
            if self.intervals@.len() == 0 || self.intervals@[self.index as int] == 0 {
                r == (0u128, 0u128)
            } else {
                r == (self.elapsed, self.intervals@[self.index as int] as u128)
            },
    {
        if self.intervals.len() == 0 || self.intervals[self.index] == 0 {
            return (0, 0);
        }
        (self.elapsed, self.intervals[self.index] as u128)
    }
}

proof fn lemma_mod_sum(a: nat, b: nat, m: nat)
    requires
        m > 0,
    ensures
        ((a % m) + (b % m)) % m == (a + b) % m,
{
    vstd::arithmetic::div_mod::lemma_add_mod_noop(a as int, b as int, m as int);
}

proof fn lemma_mod_step(p: int, s: int, n: int)
    requires
        0 <= p < n,
        0 <= s,
    ensures
        ((p + s) % n + 1) % n == (p + s + 1) % n,
{
    vstd::arithmetic::div_mod::lemma_add_mod_noop(p + s, 1, n);
    if n == 1 {
        vstd::arithmetic::div_mod::lemma_mod_self_0(1);
        assert(((p + s) % n + 1) % n == 0) by {
            vstd::arithmetic::div_mod::lemma_mod_is_zero(((p + s) % n + 1) as nat, 1);
        }
        assert((p + s + 1) % n == 0) by {
            vstd::arithmetic::div_mod::lemma_mod_is_zero((p + s + 1) as nat, 1);
        }
    } else {
        vstd::arithmetic::div_mod::lemma_small_mod(1, n as nat);
    }
}

pub proof fn lemma_cyclic_sum_mono(s: Seq<u32>, i: int, a: nat, b: nat)
    requires
        a <= b,
        s.len() > 0,
    ensures
        cyclic_sum(s, i, a) <= cyclic_sum(s, i, b),
    decreases b - a,
{
    if a < b {
        lemma_cyclic_sum_mono(s, i, a, (b - 1) as nat);
    }
}

pub proof fn lemma_sum_bound(s: Seq<u32>)
    ensures
        sum_of(s) <= s.len() * 0xFFFF_FFFF,
    decreases s.len(),
{
    if s.len() > 0 {
        lemma_sum_bound(s.drop_last());
    }
}

pub proof fn lemma_sum_append(a: Seq<u32>, b: Seq<u32>)
    ensures
        sum_of(a + b) == sum_of(a) + sum_of(b),
    decreases b.len(),
{
    if b.len() > 0 {
        assert((a + b).drop_last() == a + b.drop_last());
        lemma_sum_append(a, b.drop_last());
    } else {
        assert(a + b == a);
    }
}

/// Summing cyclically from `i` over a whole cycle gives the total.
pub proof fn lemma_cyclic_sum_full(s: Seq<u32>, i: int)
    requires
        0 <= i < s.len(),
    ensures
        cyclic_sum(s, i, s.len()) == sum_of(s),
{
    let n = s.len() as int;
    lemma_cyclic_sum_split(s, i, n as nat);
    lemma_sum_append(s.take(i), s.subrange(i, n));
    assert(s.take(i) + s.subrange(i, n) == s);
}

proof fn lemma_cyclic_sum_split(s: Seq<u32>, i: int, k: nat)
    requires
        0 <= i < s.len(),
        k <= s.len(),
    ensures
        k <= s.len() - i ==> cyclic_sum(s, i, k) == sum_of(s.subrange(i, i + k)),
        k > s.len() - i ==> cyclic_sum(s, i, k) == sum_of(s.subrange(i, s.len() as int)) + sum_of(
            s.take(k - (s.len() - i)),
        ),
    decreases k,
{
    let n = s.len() as int;
    if k > 0 {
        lemma_cyclic_sum_split(s, i, (k - 1) as nat);
        if k <= n - i {
            assert(s.subrange(i, i + k).drop_last() == s.subrange(i, i + k - 1));
            vstd::arithmetic::div_mod::lemma_small_mod((i + k - 1) as nat, n as nat);
        } else {
            let j = k - (n - i);
            let b = i + k - 1 - n;
            vstd::arithmetic::div_mod::lemma_mod_add_multiples_vanish(b, n);
            assert(n + b == i + k - 1);
            vstd::arithmetic::div_mod::lemma_small_mod(b as nat, n as nat);
            assert(b == j - 1);
            if j == 1 {
                assert(s.take(0) == Seq::<u32>::empty());
                assert(s.subrange(i, i + (k - 1)) == s.subrange(i, n));
            }
            assert(s.take(j).drop_last() == s.take(j - 1));
            assert(sum_of(s.take(j)) == sum_of(s.take(j - 1)) + s[j - 1]);
            assert(cyclic_sum(s, i, k) == cyclic_sum(s, i, (k - 1) as nat) + s[b]);
            if j > 1 {
                assert(cyclic_sum(s, i, (k - 1) as nat) == sum_of(s.subrange(i, n)) + sum_of(s.take(j - 1)));
            } else {
                assert(cyclic_sum(s, i, (k - 1) as nat) == sum_of(s.subrange(i, n)));
            }
        }
    }
}

/// A tick of whole cycles plus `r` from a fresh timer lands where a tick of
/// `r` alone does.
pub proof fn lemma_tick_skips_whole_cycles(intervals: Seq<u32>, k: nat, r: nat)
    ensures
        tick_spec(fresh(intervals), sum_of(intervals) * k + r) == tick_spec(fresh(intervals), r),
{
    if !degenerate(intervals) {
        let t = sum_of(intervals) as int;
        vstd::arithmetic::div_mod::lemma_mod_multiples_vanish(k as int, r as int, t);
        assert(0 + (t * k + r) == k * t + r) by (nonlinear_arith);
    }
}

/// One unit tick of a timer inside its interval moves its phase forward by
/// one (wrapping at the total), and its index forward by at most one.
pub proof fn lemma_unit_tick(t: TimerState)
    requires
        all_positive(t.intervals),
        inside(t),
    ensures
        inside(tick_spec(t, 1).0),
        phase(tick_spec(t, 1).0) == (phase(t) + 1) % sum_of(t.intervals),
        tick_spec(t, 1).0.intervals == t.intervals,
        tick_spec(t, 1).0.index == if tick_spec(t, 1).1 {
            (t.index + 1) % t.intervals.len() as int
        } else {
            t.index
        },
{
    let s = t.intervals;
    let n = s.len() as int;
    let i = t.index;
    let e = t.elapsed;
    let total = sum_of(s);
    lemma_prefix_split(s, i);
    lemma_prefix_step(s, i);
    lemma_sum_split_first(s.subrange(i, n));
    assert(s.subrange(i, n).drop_first() == s.subrange(i + 1, n));
    lemma_sum_ge_len(s.subrange(i + 1, n));
    lemma_sum_ge_len(s.take(i));
    assert(!degenerate(s));
    if e + 1 < s[i] {
        vstd::arithmetic::div_mod::lemma_small_mod((e + 1) as nat, total);
        vstd::arithmetic::div_mod::lemma_small_mod((phase(t) + 1) as nat, total);
    } else if e + 1 == total {
        vstd::arithmetic::div_mod::lemma_mod_self_0(total as int);
        assert(n == 1 && i == 0);
        assert(phase(t) + 1 == total);
    } else {
        vstd::arithmetic::div_mod::lemma_small_mod((e + 1) as nat, total);
        assert(n >= 2);
        let j = (i + 1) % n;
        if i + 1 < n {
            vstd::arithmetic::div_mod::lemma_small_mod((i + 1) as nat, n as nat);
            lemma_prefix_split(s, i + 1);
            assert(s.subrange(i + 1, n).len() > 0);
            vstd::arithmetic::div_mod::lemma_small_mod((phase(t) + 1) as nat, total);
        } else {
            vstd::arithmetic::div_mod::lemma_mod_self_0(n);
            vstd::arithmetic::div_mod::lemma_mod_self_0(total as int);
            assert(s.take(i + 1) == s);
            assert(s.take(0) == Seq::<u32>::empty());
        }
        assert(settle(s, 0, j, (n - 1) as nat) == (0nat, j));
    }
}

/// Ticking a fresh timer one unit at a time: after `m` units its phase is `m`
/// modulo the total, so its index is the interval that contains instant `m`;
/// the intervals are visited one after the other, and after a whole cycle the
/// timer is fresh again.
pub proof fn lemma_unit_ticks_visit_in_order(intervals: Seq<u32>, m: nat)
    requires
        intervals.len() > 0,
        all_positive(intervals),
    ensures
        inside(unit_ticks(fresh(intervals), m)),
        unit_ticks(fresh(intervals), m).intervals == intervals,
        phase(unit_ticks(fresh(intervals), m)) == m % sum_of(intervals),
        prefix(intervals, unit_ticks(fresh(intervals), m).index) <= m % sum_of(intervals)
            < prefix(intervals, unit_ticks(fresh(intervals), m).index + 1),
        m == sum_of(intervals) ==> unit_ticks(fresh(intervals), m) == fresh(intervals),
    decreases m,
{
    let total = sum_of(intervals);
    lemma_sum_ge_len(intervals);
    if m == 0 {
        assert(intervals.take(0) == Seq::<u32>::empty());
        vstd::arithmetic::div_mod::lemma_small_mod(0, total);
    } else {
        lemma_unit_ticks_visit_in_order(intervals, (m - 1) as nat);
        lemma_unit_tick(unit_ticks(fresh(intervals), (m - 1) as nat));
        vstd::arithmetic::div_mod::lemma_add_mod_noop((m - 1) as int, 1, total as int);
        if total > 1 {
            vstd::arithmetic::div_mod::lemma_small_mod(1, total);
        }
        if total == 1 {
            vstd::arithmetic::div_mod::lemma_small_mod(0, 1);
            assert(1nat % 1 == 0) by (nonlinear_arith);
            assert(((m - 1) % 1 + 1) % 1 == m % 1) by (nonlinear_arith);
        }
    }
    let u = unit_ticks(fresh(intervals), m);
    lemma_prefix_step(intervals, u.index);
    if m == total {
        vstd::arithmetic::div_mod::lemma_mod_self_0(total as int);
        lemma_sum_ge_len(intervals.take(u.index));
        assert(u.index == 0);
        assert(u == fresh(intervals));
    }
}

pub proof fn lemma_prefix_step(s: Seq<u32>, i: int)
    requires
        0 <= i < s.len(),
    ensures
        prefix(s, i + 1) == prefix(s, i) + s[i],
{
    assert(s.take(i + 1).drop_last() == s.take(i));
}

pub proof fn lemma_prefix_split(s: Seq<u32>, i: int)
    requires
        0 <= i <= s.len(),
    ensures
        prefix(s, i) + sum_of(s.subrange(i, s.len() as int)) == sum_of(s),
{
    lemma_sum_append(s.take(i), s.subrange(i, s.len() as int));
    assert(s.take(i) + s.subrange(i, s.len() as int) == s);
}

pub proof fn lemma_sum_split_first(s: Seq<u32>)
    requires
        s.len() > 0,
    ensures
        sum_of(s) == s[0] + sum_of(s.drop_first()),
{
    lemma_sum_append(seq![s[0]], s.drop_first());
    assert(seq![s[0]] + s.drop_first() == s);
    assert(seq![s[0]].drop_last() == Seq::<u32>::empty());
    assert(sum_of(Seq::<u32>::empty()) == 0);
    assert(seq![s[0]].last() == s[0]);
    assert(sum_of(seq![s[0]]) == s[0]);
}

pub proof fn lemma_sum_ge_len(s: Seq<u32>)
    requires
        all_positive(s),
    ensures
        sum_of(s) >= s.len(),
    decreases s.len(),
{
    if s.len() > 0 {
        lemma_sum_ge_len(s.drop_last());
    }
}

/// With no intervals, or only empty ones, a tick changes nothing and
/// reports no change; a fresh timer of that kind stays at index 0.
pub proof fn lemma_degenerate_tick(t: TimerState, delta: nat)
    requires
        degenerate(t.intervals),
    ensures
        tick_spec(t, delta) == (t, false),
        tick_spec(fresh(t.intervals), delta).0.index == 0,
{
}

/// State after ticks of the given lengths, one after the other.
pub open spec fn run(t: TimerState, ds: Seq<nat>) -> TimerState
    decreases ds.len(),
{
    if ds.len() == 0 {
        t
    } else {
        tick_spec(run(t, ds.drop_last()), ds.last()).0
    }
}

/// A timer with no intervals, or only empty ones, stays fresh whatever
/// ticks it has had, and its next tick reports no change.
pub proof fn lemma_degenerate_run(intervals: Seq<u32>, ds: Seq<nat>, d: nat)
    requires
        degenerate(intervals),
    ensures
        run(fresh(intervals), ds) == fresh(intervals),
        tick_spec(run(fresh(intervals), ds), d) == (fresh(intervals), false),
    decreases ds.len(),
{
    if ds.len() > 0 {
        lemma_degenerate_run(intervals, ds.drop_last(), d);
    }
}

pub open spec fn below_all(s: Seq<u32>, d: nat) -> bool {
    forall|j: int| 0 <= j < s.len() ==> d < #[trigger] s[j]
}

/// A tick shorter than every interval moves the phase forward by its length
/// (wrapping at the total), and the index forward by at most one.
pub proof fn lemma_short_tick(t: TimerState, d: nat)
    requires
        all_positive(t.intervals),
        inside(t),
        below_all(t.intervals, d),
    ensures
        inside(tick_spec(t, d).0),
        phase(tick_spec(t, d).0) == (phase(t) + d) % sum_of(t.intervals),
        tick_spec(t, d).0.intervals == t.intervals,
        tick_spec(t, d).0.index == if tick_spec(t, d).1 {
            (t.index + 1) % t.intervals.len() as int
        } else {
            t.index
        },
{
    let s = t.intervals;
    let n = s.len() as int;
    let i = t.index;
    let e = t.elapsed;
    let total = sum_of(s);
    lemma_prefix_split(s, i);
    lemma_prefix_step(s, i);
    lemma_sum_split_first(s.subrange(i, n));
    assert(s.subrange(i, n).drop_first() == s.subrange(i + 1, n));
    lemma_sum_ge_len(s.subrange(i + 1, n));
    lemma_sum_ge_len(s.take(i));
    assert(!degenerate(s));
    assert(d < s[i]);
    if e + d < s[i] {
        vstd::arithmetic::div_mod::lemma_small_mod((e + d) as nat, total);
        vstd::arithmetic::div_mod::lemma_small_mod((phase(t) + d) as nat, total);
    } else if n == 1 {
        assert(i == 0);
        assert(s.take(0) == Seq::<u32>::empty());
        assert(s.subrange(1, 1) == Seq::<u32>::empty());
        assert(total == s[0]);
        let r = (e + d - total) as nat;
        vstd::arithmetic::div_mod::lemma_mod_add_multiples_vanish(r as int, total as int);
        vstd::arithmetic::div_mod::lemma_small_mod(r, total);
        assert(settle(s, r, 0, 1) == (r, 0int));
    } else {
        let j = (i + 1) % n;
        let r = (e + d - s[i]) as nat;
        if i + 1 < n {
            vstd::arithmetic::div_mod::lemma_small_mod((i + 1) as nat, n as nat);
            lemma_prefix_split(s, i + 1);
            lemma_sum_split_first(s.subrange(i + 1, n));
            lemma_prefix_step(s, i + 1);
            assert(s.subrange(i + 1, n).drop_first() == s.subrange(i + 2, n));
            assert(e + d < total);
            vstd::arithmetic::div_mod::lemma_small_mod((e + d) as nat, total);
            vstd::arithmetic::div_mod::lemma_small_mod((phase(t) + d) as nat, total);
        } else {
            vstd::arithmetic::div_mod::lemma_mod_self_0(n);
            assert(s.take(i + 1) == s);
            lemma_prefix_step(s, 0);
            assert(s.take(0) == Seq::<u32>::empty());
            lemma_prefix_mono(s, 1, i);
            assert(e + d < total);
            vstd::arithmetic::div_mod::lemma_small_mod((e + d) as nat, total);
            vstd::arithmetic::div_mod::lemma_mod_add_multiples_vanish(r as int, total as int);
            vstd::arithmetic::div_mod::lemma_small_mod(r, total);
            assert(phase(t) + d == total + r);
        }
        assert(settle(s, r, j, (n - 1) as nat) == (r, j));
    }
}

pub proof fn lemma_prefix_mono(s: Seq<u32>, i: int, j: int)
    requires
        0 <= i <= j <= s.len(),
    ensures
        prefix(s, i) <= prefix(s, j),
    decreases j - i,
{
    if i < j {
        lemma_prefix_mono(s, i, j - 1);
        lemma_prefix_step(s, j - 1);
    }
}

pub open spec fn total_of(ds: Seq<nat>) -> nat
    decreases ds.len(),
{
    if ds.len() == 0 {
        0
    } else {
        total_of(ds.drop_last()) + ds.last()
    }
}

/// Ticking a fresh timer by lengths each shorter than every interval: its
/// phase is the time ticked modulo the total, so its index is the interval
/// holding that instant; each tick moves the index forward by at most one,
/// and once the ticks add up to a whole cycle the timer is fresh again.
pub proof fn lemma_short_ticks_visit_in_order(intervals: Seq<u32>, ds: Seq<nat>)
    requires
        intervals.len() > 0,
        all_positive(intervals),
        forall|k: int| 0 <= k < ds.len() ==> below_all(intervals, #[trigger] ds[k]),
    ensures
        inside(run(fresh(intervals), ds)),
        run(fresh(intervals), ds).intervals == intervals,
        phase(run(fresh(intervals), ds)) == total_of(ds) % sum_of(intervals),
        prefix(intervals, run(fresh(intervals), ds).index) <= total_of(ds) % sum_of(intervals)
            < prefix(intervals, run(fresh(intervals), ds).index + 1),
        ds.len() > 0 ==> {
            let before = run(fresh(intervals), ds.drop_last());
            let after = run(fresh(intervals), ds);
            after.index == before.index || after.index == (before.index + 1) % intervals.len() as int
        },
        total_of(ds) == sum_of(intervals) ==> run(fresh(intervals), ds) == fresh(intervals),
    decreases ds.len(),
{
    let total = sum_of(intervals);
    lemma_sum_ge_len(intervals);
    if ds.len() == 0 {
        assert(intervals.take(0) == Seq::<u32>::empty());
        vstd::arithmetic::div_mod::lemma_small_mod(0, total);
    } else {
        let init = ds.drop_last();
        assert forall|k: int| 0 <= k < init.len() implies below_all(intervals, #[trigger] init[k]) by {
            assert(init[k] == ds[k]);
        }
        lemma_short_ticks_visit_in_order(intervals, init);
        lemma_short_tick(run(fresh(intervals), init), ds.last());
        vstd::arithmetic::div_mod::lemma_add_mod_noop(total_of(init) as int, ds.last() as int, total as int);
        vstd::arithmetic::div_mod::lemma_mod_twice(ds.last() as int, total as int);
        assert(((total_of(init) % total) + ds.last()) % total == (total_of(init) + ds.last()) % total) by {
            vstd::arithmetic::div_mod::lemma_add_mod_noop_right(ds.last() as int, (total_of(init) % total) as int, total as int);
            vstd::arithmetic::div_mod::lemma_add_mod_noop_right(ds.last() as int, total_of(init) as int, total as int);
            vstd::arithmetic::div_mod::lemma_mod_twice(total_of(init) as int, total as int);
        }
    }
    let u = run(fresh(intervals), ds);
    lemma_prefix_step(intervals, u.index);
    if total_of(ds) == total {
        vstd::arithmetic::div_mod::lemma_mod_self_0(total as int);
        lemma_sum_ge_len(intervals.take(u.index));
        assert(u.index == 0);
        assert(u == fresh(intervals));
    }
}

} // verus!
