//! A rolling-window counter of tokens.

use crate::budget::double::{no_share, share, share_of, BOUND};
use crate::budget::weighting::{
    share_is_at_most_the_count, share_is_less_than_one_away, shares_keep_order,
    whole_share_is_the_count,
};
use crate::window::Window;
use vstd::arithmetic::div_mod::{
    lemma_div_is_ordered, lemma_fundamental_div_mod, lemma_mod_bound,
};
use vstd::prelude::*;

verus! {

/// What a counter holds, as numbers.
pub struct WindowState {
    /// The length of a window in milliseconds.
    pub window_ms: int,
    /// Which fixed window, counted from time zero, `current` belongs to.
    pub bucket: int,
    /// Tokens counted in that window.
    pub current: nat,
    /// Tokens counted in the window before it.
    pub previous: nat,
}

impl WindowState {
    /// A counter that has counted nothing, at a window that no clock is in yet.
    pub open spec fn fresh(window_ms: int) -> WindowState {
        WindowState { window_ms, bucket: i64::MIN as int, current: 0, previous: 0 }
    }

    /// The window length is one that a clock can be divided by.
    pub open spec fn valid(self) -> bool {
        self.window_ms >= 1
    }

    /// The fixed window that the moment `now_ms` falls into.
    pub open spec fn bucket_of(self, now_ms: int) -> int {
        now_ms / self.window_ms
    }

    /// The counter brought to the moment `now_ms`: in the next window the
    /// current count becomes the previous one, and in any other window nothing
    /// of the counts is left.
    pub open spec fn rolled(self, now_ms: int) -> WindowState {
        let bucket = self.bucket_of(now_ms);
        if bucket == self.bucket {
            self
        } else if bucket == self.bucket + 1 {
            WindowState { bucket, current: 0, previous: self.current, ..self }
        } else {
            WindowState { bucket, current: 0, previous: 0, ..self }
        }
    }

    /// When the fixed window that `current` belongs to starts.
    pub open spec fn start(self) -> int {
        self.bucket * self.window_ms
    }

    /// How far into that window the moment `now_ms` is, in milliseconds: not at all
    /// where it comes before the window, and all the way where it comes after.
    pub open spec fn elapsed(self, now_ms: int) -> int {
        if now_ms < self.start() {
            0
        } else if now_ms > self.start() + self.window_ms {
            self.window_ms
        } else {
            now_ms - self.start()
        }
    }

    /// How much of the previous window the rolling window that ends at `now_ms`
    /// still covers, in milliseconds.
    pub open spec fn overlap(self, now_ms: int) -> nat {
        (self.window_ms - self.elapsed(now_ms)) as nat
    }

    /// The tokens of the previous window that still count at `now_ms`: the
    /// share of it that the rolling window covers.
    pub open spec fn carried(self, now_ms: int) -> nat {
        share_of(self.previous, self.overlap(now_ms), self.window_ms as nat) as nat
    }

    /// The tokens in the rolling window that ends at `now_ms`, by a counter as it
    /// is.
    pub open spec fn total(self, now_ms: int) -> nat {
        self.current + self.carried(now_ms)
    }

    /// The counter after `amount` tokens at `now_ms`.
    pub open spec fn added(self, amount: nat, now_ms: int) -> WindowState {
        let rolled = self.rolled(now_ms);
        WindowState { current: rolled.current + amount, ..rolled }
    }

    /// The tokens in the rolling window at `now_ms`.
    pub open spec fn estimated(self, now_ms: int) -> nat {
        self.rolled(now_ms).total(now_ms)
    }

    /// Counting `amount` tokens at `now_ms` stays within the machine's integers:
    /// the window is valid, its start is a moment that can be represented, and
    /// so is the total.
    pub open spec fn countable(self, amount: nat, now_ms: int) -> bool {
        &&& self.valid()
        &&& self.bucket_of(now_ms) * self.window_ms >= i64::MIN
        &&& self.added(amount, now_ms).total(now_ms) <= u64::MAX
    }
}

/// The start of the window that a moment falls into is the moment less the
/// remainder, and fits wherever the moment does, but for the least of them.
proof fn lemma_bucket(now_ms: i64, window_ms: int)
    requires
        window_ms >= 1,
    ensures
        i64::MIN <= now_ms as int / window_ms <= i64::MAX,
        (now_ms as int / window_ms) * window_ms == now_ms - now_ms as int % window_ms,
        0 <= now_ms as int % window_ms < window_ms,
{
    let q = now_ms as int / window_ms;
    lemma_fundamental_div_mod(now_ms as int, window_ms);
    assert(q * window_ms == window_ms * q) by (nonlinear_arith);
    assert(q <= now_ms || q <= 0) by (nonlinear_arith)
        requires
            q * window_ms <= now_ms,
            window_ms >= 1,
    ;
    assert(q >= now_ms || q >= 0) by (nonlinear_arith)
        requires
            q * window_ms > now_ms - window_ms,
            window_ms >= 1,
    ;
}

/// In its own window a moment is as far in as its remainder says.
proof fn lemma_elapsed(state: WindowState, now_ms: int)
    requires
        state.valid(),
        state.bucket == state.bucket_of(now_ms),
    ensures
        state.elapsed(now_ms) == now_ms % state.window_ms,
        0 <= now_ms % state.window_ms < state.window_ms,
        state.start() == now_ms - now_ms % state.window_ms,
{
    let w = state.window_ms;
    lemma_fundamental_div_mod(now_ms, w);
    lemma_mod_bound(now_ms, w);
    assert(state.start() == w * (now_ms / w)) by (nonlinear_arith)
        requires
            state.start() == (now_ms / w) * w,
    ;
}

/// Approximates a rolling-window rate limiter using two fixed windows,
/// weighting the previous window's count by how much of it still overlaps the
/// current rolling window. It takes the same memory however much is counted.
#[derive(Clone, Copy, Debug)]
pub struct SlidingWindowCounter {
    window_ms: i64,
    bucket_index: i64,
    current_count: u64,
    previous_count: u64,
}

impl View for SlidingWindowCounter {
    type V = WindowState;

    closed spec fn view(&self) -> WindowState {
        WindowState {
            window_ms: self.window_ms as int,
            bucket: self.bucket_index as int,
            current: self.current_count as nat,
            previous: self.previous_count as nat,
        }
    }
}

/// The window length that a counter works with: at least one millisecond, and
/// cut down to sixty-four bits.
pub open spec fn counter_millis(window: Window) -> i64 {
    if window.millis() < 1 {
        1
    } else {
        window.millis() as i64
    }
}

impl SlidingWindowCounter {
    /// A counter for windows of the given length, with nothing counted.
    pub fn new(window: Window) -> (counter: Self)
        ensures
            counter@ == WindowState::fresh(counter_millis(window) as int),
            window.millis() <= i64::MAX ==> counter@.valid(),
            1 <= window.millis() <= i64::MAX ==> counter@.window_ms == window.millis(),
            window.millis() == 0 ==> counter@.window_ms == 1,
            counter@.current == 0,
            counter@.previous == 0,
    {
        let millis = window.as_millis();
        let window_ms = if millis < 1 {
            1i64
        } else {
            #[verifier::truncate]
            (millis as i64)
        };
        SlidingWindowCounter {
            window_ms,
            bucket_index: i64::MIN,
            current_count: 0,
            previous_count: 0,
        }
    }

    /// Whether `amount` tokens can be counted at `now_ms` without leaving the
    /// range of the machine's integers.
    pub fn can_count(&self, amount: u64, now_ms: i64) -> (ok: bool)
        ensures
            ok == self@.countable(amount as nat, now_ms as int),
    {
        if self.window_ms < 1 {
            return false;
        }
        proof {
            lemma_bucket(now_ms, self.window_ms as int);
        }
        let index: i64 = now_ms.checked_div_euclid(self.window_ms).unwrap();
        if index.checked_mul(self.window_ms).is_none() {
            return false;
        }
        let mut counter = *self;
        counter.roll_if_needed(now_ms);
        match counter.current_count.checked_add(amount) {
            Some(current) => current.checked_add(counter.carried_at(now_ms)).is_some(),
            None => false,
        }
    }

    /// Counts `amount` tokens at `now_ms` and returns the tokens then in the
    /// rolling window.
    pub fn add(&mut self, amount: u64, now_ms: i64) -> (total: u64)
        requires
            old(self)@.countable(amount as nat, now_ms as int),
        ensures
            final(self)@ == old(self)@.added(amount as nat, now_ms as int),
            total == final(self)@.total(now_ms as int),
    {
        self.roll_if_needed(now_ms);
        self.current_count = self.current_count + amount;
        proof {
            lemma_bucket(now_ms, self.window_ms as int);
        }
        self.weighted_total(self.current_count, now_ms)
    }

    /// The tokens in the rolling window at `now_ms`.
    pub fn estimate(&mut self, now_ms: i64) -> (total: u64)
        requires
            old(self)@.countable(0, now_ms as int),
        ensures
            final(self)@ == old(self)@.rolled(now_ms as int),
            total == old(self)@.estimated(now_ms as int),
    {
        self.roll_if_needed(now_ms);
        proof {
            lemma_bucket(now_ms, self.window_ms as int);
        }
        self.weighted_total(self.current_count, now_ms)
    }

    /// Brings the counter to the window that `now_ms` falls into.
    fn roll_if_needed(&mut self, now_ms: i64)
        requires
            old(self)@.valid(),
        ensures
            final(self)@ == old(self)@.rolled(now_ms as int),
    {
        proof {
            lemma_bucket(now_ms, self.window_ms as int);
        }
        let new_index: i64 = now_ms.checked_div_euclid(self.window_ms).unwrap();
        let old_index: i64 = self.bucket_index;
        if old_index == new_index {
            return;
        }
        self.bucket_index = new_index;
        if old_index < i64::MAX && new_index == old_index + 1 {
            let carried: u64 = self.current_count;
            self.current_count = 0;
            self.previous_count = carried;
        } else {
            self.current_count = 0;
            self.previous_count = 0;
        }
    }

    /// The share of the previous window's count that the rolling window at
    /// `now_ms` still covers.
    fn carried_at(&self, now_ms: i64) -> (carried: u64)
        requires
            self@.valid(),
            i64::MIN <= self@.start() <= i64::MAX,
            i64::MIN <= now_ms - self@.start() <= i64::MAX,
        ensures
            carried == self@.carried(now_ms as int),
    {
        let bucket_start_ms: i64 = self.bucket_index * self.window_ms;
        let since_start_ms: i64 = now_ms - bucket_start_ms;
        let elapsed_ms: i64 = if since_start_ms < 0 {
            0
        } else if since_start_ms > self.window_ms {
            self.window_ms
        } else {
            since_start_ms
        };
        let remaining_ms: i64 = self.window_ms - elapsed_ms;
        share(self.previous_count, remaining_ms as u64, self.window_ms as u64)
    }

    /// `current` tokens together with the share of the previous window's count
    /// that the rolling window at `now_ms` still covers.
    fn weighted_total(&self, current: u64, now_ms: i64) -> (total: u64)
        requires
            self@.valid(),
            i64::MIN <= self@.start() <= i64::MAX,
            i64::MIN <= now_ms - self@.start() <= i64::MAX,
            current + self@.carried(now_ms as int) <= u64::MAX,
        ensures
            total == current + self@.carried(now_ms as int),
    {
        current + self.carried_at(now_ms)
    }
}

/// Amounts counted within one window add up, whatever their order, as if they
/// had been counted at once.
pub proof fn adds_within_a_window_accumulate(
    state: WindowState,
    first: nat,
    second: nat,
    earlier_ms: int,
    later_ms: int,
)
    requires
        state.valid(),
        state.bucket_of(earlier_ms) == state.bucket_of(later_ms),
    ensures
        state.added(first, earlier_ms).added(second, later_ms) == state.added(
            first + second,
            later_ms,
        ),
        state.added(first, earlier_ms).added(second, later_ms) == state.added(
            second,
            later_ms,
        ).added(first, earlier_ms),
{
}

/// Counting raises the tokens in the rolling window by the amount counted.
pub proof fn add_raises_the_estimate_by_the_amount(state: WindowState, amount: nat, now_ms: int)
    requires
        state.valid(),
    ensures
        state.added(amount, now_ms).total(now_ms) == state.estimated(now_ms) + amount,
        state.added(amount, now_ms).estimated(now_ms) == state.estimated(now_ms) + amount,
{
}

/// Looking at a counter changes no later answer for the same moment or for any
/// later count at it.
pub proof fn estimate_is_stable(state: WindowState, amount: nat, now_ms: int)
    requires
        state.valid(),
    ensures
        state.rolled(now_ms).estimated(now_ms) == state.estimated(now_ms),
        state.rolled(now_ms).rolled(now_ms) == state.rolled(now_ms),
        state.rolled(now_ms).added(amount, now_ms) == state.added(amount, now_ms),
{
}

/// In the window after the one counted in, what was counted there contributes
/// the share of it that the rolling window still covers.
pub proof fn rollover_carries_the_overlapping_share(state: WindowState, now_ms: int)
    requires
        state.valid(),
        state.bucket_of(now_ms) == state.bucket + 1,
    ensures
        state.estimated(now_ms) == share_of(
            state.current,
            (state.window_ms - now_ms % state.window_ms) as nat,
            state.window_ms as nat,
        ),
{
    lemma_elapsed(state.rolled(now_ms), now_ms);
}

/// Once the clock is in neither the window counted in nor the next one, nothing
/// counts any more.
pub proof fn gap_resets_to_zero(state: WindowState, now_ms: int)
    requires
        state.valid(),
        state.bucket_of(now_ms) != state.bucket,
        state.bucket_of(now_ms) != state.bucket + 1,
    ensures
        state.estimated(now_ms) == 0,
{
    let rolled = state.rolled(now_ms);
    no_share(0, rolled.overlap(now_ms), rolled.window_ms as nat);
}

/// A fresh counter reports just what is counted first.
pub proof fn fresh_counter_counts_from_zero(window_ms: int, amount: nat, now_ms: int)
    requires
        window_ms >= 1,
    ensures
        WindowState::fresh(window_ms).estimated(now_ms) == 0,
        WindowState::fresh(window_ms).added(amount, now_ms).total(now_ms) == amount,
{
    let rolled = WindowState::fresh(window_ms).rolled(now_ms);
    no_share(0, rolled.overlap(now_ms), rolled.window_ms as nat);
}

/// Bringing a counter to a moment has three outcomes: within its window nothing
/// changes; in the next one the count becomes the previous count, and the one before
/// is dropped; in any other, later or earlier, nothing of the counts is left.
pub proof fn rolling_has_three_outcomes(state: WindowState, now_ms: int)
    requires
        state.valid(),
    ensures
        ({
            let rolled = state.rolled(now_ms);
            let bucket = now_ms / state.window_ms;
            &&& rolled.bucket == bucket
            &&& rolled.window_ms == state.window_ms
            &&& rolled.current == if bucket == state.bucket {
                state.current
            } else {
                0
            }
            &&& rolled.previous == if bucket == state.bucket {
                state.previous
            } else if bucket == state.bucket + 1 {
                state.current
            } else {
                0
            }
            &&& rolled.rolled(now_ms) == rolled
        }),
{
}

/// With nothing counted in between, the tokens in the rolling window only get
/// fewer as time goes on. (A count past `2^53` may round up when it is carried.)
pub proof fn usage_only_decays(state: WindowState, earlier_ms: int, later_ms: int)
    requires
        state.valid(),
        state.current <= BOUND,
        state.bucket <= state.bucket_of(earlier_ms),
        earlier_ms <= later_ms,
    ensures
        state.estimated(later_ms) <= state.estimated(earlier_ms),
{
    let w = state.window_ms;
    let earlier = state.rolled(earlier_ms);
    let later = state.rolled(later_ms);
    lemma_div_is_ordered(earlier_ms, later_ms, w);
    lemma_elapsed(earlier, earlier_ms);
    lemma_elapsed(later, later_ms);
    if earlier.bucket == later.bucket {
        shares_keep_order(
            later.previous,
            later.overlap(later_ms),
            earlier.previous,
            earlier.overlap(earlier_ms),
            w as nat,
        );
    } else if later.bucket == state.bucket + 1 {
        share_is_at_most_the_count(state.current, later.overlap(later_ms), w as nat);
    } else {
        no_share(0, later.overlap(later_ms), w as nat);
    }
}

/// What is carried over from the previous window is never more than was counted
/// there, all of it at the start of the window and before, none of it at the end and
/// after, and in between less than one token away from the exact proportion.
pub proof fn carried_share_is_proportional(state: WindowState, now_ms: int)
    requires
        state.valid(),
        16 * state.previous <= BOUND,
    ensures
        state.carried(now_ms) <= state.previous,
        state.elapsed(now_ms) == 0 ==> state.carried(now_ms) == state.previous,
        state.elapsed(now_ms) == state.window_ms ==> state.carried(now_ms) == 0,
        state.carried(now_ms) * state.window_ms < state.previous * state.overlap(now_ms)
            + state.window_ms,
        state.previous * state.overlap(now_ms) < state.carried(now_ms) * state.window_ms
            + state.window_ms,
{
    let w = state.window_ms as nat;
    share_is_at_most_the_count(state.previous, state.overlap(now_ms), w);
    share_is_less_than_one_away(state.previous, state.overlap(now_ms), w);
    whole_share_is_the_count(state.previous, w);
    no_share(state.previous, 0, w);
}

/// A counter's window is as long as it was asked for, to the millisecond, and one
/// millisecond where that is less.
pub proof fn counters_keep_the_length_of_their_window(window: Window)
    requires
        window.millis() <= i64::MAX,
    ensures
        window.millis() >= 1 ==> counter_millis(window) == window.millis(),
        window.millis() < 1 ==> counter_millis(window) == 1,
{
}

/// What is counted in a fixed window of the length that was asked for still counts
/// whole at every other moment of that window, and not at all from two windows on.
pub proof fn a_count_lasts_through_its_window(
    window: Window,
    amount: nat,
    now_ms: int,
    then_ms: int,
)
    requires
        1 <= window.millis() <= i64::MAX,
    ensures
        ({
            let length = window.millis() as int;
            let counted = WindowState::fresh(counter_millis(window) as int).added(amount, now_ms);
            &&& then_ms / length == now_ms / length ==> counted.estimated(then_ms) == amount
            &&& then_ms / length >= now_ms / length + 2 ==> counted.estimated(then_ms) == 0
            &&& then_ms / length < now_ms / length ==> counted.estimated(then_ms) == 0
        }),
{
    let length = window.millis() as int;
    let counted = WindowState::fresh(length).added(amount, now_ms);
    let rolled = counted.rolled(then_ms);
    no_share(0, rolled.overlap(then_ms), length as nat);
}

/// Counting adds the amount to the window that the moment falls into, and nothing
/// else: what was counted there before stays, what was counted in the window before
/// stays apart, and what is older is gone.
pub proof fn adding_counts_the_amount_and_nothing_else(
    state: WindowState,
    amount: nat,
    now_ms: int,
)
    requires
        state.valid(),
    ensures
        ({
            let after = state.added(amount, now_ms);
            let bucket = now_ms / state.window_ms;
            &&& after.window_ms == state.window_ms
            &&& after.bucket == bucket
            &&& bucket == state.bucket ==> after.current == state.current + amount
                && after.previous == state.previous
            &&& bucket == state.bucket + 1 ==> after.current == amount && after.previous
                == state.current
            &&& bucket != state.bucket && bucket != state.bucket + 1 ==> after.current == amount
                && after.previous == 0
        }),
{
}

/// At a moment of its own window a counter reports all that is counted there, and of
/// the window before the share that the part not yet left behind is of a whole one.
pub proof fn an_estimate_is_the_count_and_the_share_before(state: WindowState, now_ms: int)
    requires
        state.valid(),
        now_ms / state.window_ms == state.bucket,
    ensures
        state.estimated(now_ms) == state.current + share_of(
            state.previous,
            (state.window_ms - now_ms % state.window_ms) as nat,
            state.window_ms as nat,
        ),
        state.total(now_ms) == state.estimated(now_ms),
{
    lemma_elapsed(state, now_ms);
}

/// A moment before a counter's window leaves all of the previous window to count, and
/// one after it none.
pub proof fn moments_outside_the_window_count_at_its_ends(state: WindowState, now_ms: int)
    requires
        state.valid(),
        state.previous <= BOUND,
    ensures
        now_ms <= state.bucket * state.window_ms ==> state.total(now_ms) == state.current
            + state.previous,
        now_ms >= state.bucket * state.window_ms + state.window_ms ==> state.total(now_ms)
            == state.current,
{
    whole_share_is_the_count(state.previous, state.window_ms as nat);
    no_share(state.previous, 0, state.window_ms as nat);
}

/// An amount counted now is seen by every later moment: whole on top of what there is
/// in the same window, and in the next one as a part of what that window carries.
pub proof fn later_moments_see_the_amount(
    state: WindowState,
    amount: nat,
    now_ms: int,
    later_ms: int,
)
    requires
        state.valid(),
    ensures
        ({
            let after = state.added(amount, now_ms);
            let window = state.window_ms;
            let counted = if now_ms / window == state.bucket {
                state.current + amount
            } else {
                amount
            };
            &&& later_ms / window == now_ms / window ==> after.estimated(later_ms)
                == state.estimated(later_ms) + amount
            &&& later_ms / window == now_ms / window + 1 ==> after.estimated(later_ms) == share_of(
                counted,
                (window - later_ms % window) as nat,
                window as nat,
            )
            &&& later_ms / window > now_ms / window + 1 ==> after.estimated(later_ms) == 0
        }),
{
    let after = state.added(amount, now_ms);
    lemma_elapsed(after.rolled(later_ms), later_ms);
    no_share(0, after.rolled(later_ms).overlap(later_ms), state.window_ms as nat);
}

/// Looking at a counter changes what no later moment sees, while the clock does not
/// go back.
pub proof fn looking_changes_no_later_moment(state: WindowState, now_ms: int, later_ms: int)
    requires
        state.valid(),
        state.bucket <= now_ms / state.window_ms,
        now_ms <= later_ms,
    ensures
        state.rolled(now_ms).estimated(later_ms) == state.estimated(later_ms),
{
    lemma_div_is_ordered(now_ms, later_ms, state.window_ms);
}

/// A count fits if and only if the window has a length, it starts at a moment that can
/// be represented, and the amount fits with all that counts at that moment.
pub proof fn whatever_fits_is_counted(state: WindowState, amount: nat, now_ms: int)
    ensures
        state.countable(amount, now_ms) <==> {
            &&& state.window_ms >= 1
            &&& (now_ms / state.window_ms) * state.window_ms >= i64::MIN
            &&& state.estimated(now_ms) + amount <= u64::MAX
        },
{
    if state.window_ms >= 1 {
        add_raises_the_estimate_by_the_amount(state, amount, now_ms);
    }
}

} // verus!
