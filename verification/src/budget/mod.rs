//! Tenants' token budgets.

pub mod double;
pub mod sliding_window;
pub mod weighting;

use crate::budget::double::share_of;
use crate::budget::sliding_window::{
    add_raises_the_estimate_by_the_amount, adding_counts_the_amount_and_nothing_else,
    counter_millis, estimate_is_stable, fresh_counter_counts_from_zero,
    later_moments_see_the_amount, looking_changes_no_later_moment, SlidingWindowCounter,
    WindowState,
};
use crate::config::{BudgetLimit, TenantLimits};
use crate::error::WeirError;
use crate::shared::{limits_held, SwapCell};
use crate::window::Window;
use dashmap::DashMap;
use std::sync::Arc;
use vstd::prelude::*;

verus! {

/// `dashmap::DashMap`, a hash map in shards that are locked one by one.
#[verifier::external_type_specification]
#[verifier::external_body]
#[verifier::reject_recursive_types(K)]
#[verifier::reject_recursive_types(V)]
#[verifier::reject_recursive_types(S)]
pub struct ExDashMap<K, V, S>(dashmap::DashMap<K, V, S>);

/// A counter and the window that it was made for.
pub type Entry = (Window, SlidingWindowCounter);

/// The entries of the tenants that have one.
pub type Entries = Map<Seq<char>, Entry>;

/// The entries that a `DashMap` holds, by tenant. A map of this crate belongs to
/// one registry, which changes it only with the map borrowed for writing, so the
/// entries of a map that is borrowed for reading stay as they are.
pub uninterp spec fn counters_in(counters: DashMap<String, Entry>) -> Entries;

/// Calls `DashMap::new`, which makes an empty map.
#[verifier::external_body]
fn no_counters() -> (counters: DashMap<String, Entry>)
    ensures
        counters_in(counters) == Entries::empty(),
{
    DashMap::new()
}

/// Calls `DashMap::get`, which finds the entry of a key where there is one, and
/// copies the entry out.
#[verifier::external_body]
fn find_counter(
    counters: &DashMap<String, Entry>,
    tenant: &str,
) -> (found: Option<Entry>)
    ensures
        found == (if counters_in(*counters).contains_key(tenant@) {
            Some(counters_in(*counters)[tenant@])
        } else {
            None
        }),
{
    counters.get(tenant).map(|entry| *entry.value())
}

/// Calls `DashMap::insert`, which gives a key its entry in place of any that it
/// had, and leaves the other entries alone. With the map borrowed for writing
/// no other thread is in it.
#[verifier::external_body]
fn put_counter(
    counters: &mut DashMap<String, Entry>,
    tenant: String,
    entry: Entry,
)
    ensures
        counters_in(*final(counters)) == counters_in(*old(counters)).insert(tenant@, entry),
{
    counters.insert(tenant, entry);
}

/// Calls `DashMap::get_mut`, which finds the entry of a key for writing where there
/// is one, and overwrites that entry. The result says whether there is one. The key
/// is only borrowed.
#[verifier::external_body]
fn replace_counter(
    counters: &mut DashMap<String, Entry>,
    tenant: &str,
    entry: Entry,
) -> (found: bool)
    ensures
        found == counters_in(*old(counters)).contains_key(tenant@),
        counters_in(*final(counters)) == (if found {
            counters_in(*old(counters)).insert(tenant@, entry)
        } else {
            counters_in(*old(counters))
        }),
{
    counters.get_mut(tenant).map(|mut found| *found.value_mut() = entry).is_some()
}

/// What one tenant has used, and the window that it is counted over.
pub struct Usage {
    /// The length of the window in nanoseconds.
    pub window: nat,
    /// The counter.
    pub counter: WindowState,
}

/// Each tenant's usage.
pub type UsageMap = Map<Seq<char>, Usage>;

/// The counter for a tenant under a window: the one at hand if it was made for
/// a window of that length, and a fresh one otherwise. What was counted under
/// another window does not map onto this one.
pub open spec fn counter_under(usage: UsageMap, tenant: Seq<char>, window: Window) -> WindowState {
    if usage.contains_key(tenant) && usage[tenant].window == window.as_nanos() {
        usage[tenant].counter
    } else {
        WindowState::fresh(counter_millis(window) as int)
    }
}

/// Each tenant's usage, with the tenant's counter replaced.
pub open spec fn with_counter(
    usage: UsageMap,
    tenant: Seq<char>,
    window: Window,
    counter: WindowState,
) -> UsageMap {
    usage.insert(tenant, Usage { window: window.as_nanos(), counter })
}

/// Each tenant's token usage, held against budgets that may be replaced at any
/// time.
pub struct BudgetRegistry {
    limits: Arc<SwapCell<TenantLimits>>,
    // Each counter goes with the window that it was made for, so a reload that
    // changes a tenant's window starts a new counter instead of going on with
    // one that runs against the old window.
    counters: DashMap<String, Entry>,
}

impl View for BudgetRegistry {
    type V = UsageMap;

    closed spec fn view(&self) -> UsageMap {
        counters_in(self.counters).map_values(
            |entry: Entry| Usage {
                window: entry.0.as_nanos(),
                counter: entry.1@,
            },
        )
    }
}

/// The budget of a tenant.
pub open spec fn limit_of(
    limits: Map<Seq<char>, BudgetLimit>,
    tenant: Seq<char>,
) -> Option<BudgetLimit> {
    if limits.contains_key(tenant) {
        Some(limits[tenant])
    } else {
        None
    }
}

/// Each tenant's usage after an admission check, and its answer: whether the
/// tenant is below its ceiling. A tenant without a budget is unknown. There is
/// no answer where the counter's arithmetic would leave the machine's integers.
pub open spec fn admission(
    usage: UsageMap,
    limit: Option<BudgetLimit>,
    tenant: Seq<char>,
    now_ms: int,
) -> (UsageMap, Result<Option<bool>, WeirError>) {
    match limit {
        None => (usage, Err(WeirError::UnknownTenant)),
        Some(limit) => {
            let counter = counter_under(usage, tenant, limit.window);
            if counter.countable(0, now_ms) {
                (
                    with_counter(usage, tenant, limit.window, counter.rolled(now_ms)),
                    Ok(Some(counter.estimated(now_ms) < limit.max_tokens)),
                )
            } else {
                (usage, Ok(None))
            }
        },
    }
}

/// Each tenant's usage after `amount` tokens are recorded, and the answer:
/// whether the tenant is still at or below its ceiling. A tenant without a
/// budget is unknown. There is no answer, and nothing is recorded, where the
/// counter's arithmetic would leave the machine's integers.
pub open spec fn recording(
    usage: UsageMap,
    limit: Option<BudgetLimit>,
    tenant: Seq<char>,
    amount: nat,
    now_ms: int,
) -> (UsageMap, Result<Option<bool>, WeirError>) {
    match limit {
        None => (usage, Err(WeirError::UnknownTenant)),
        Some(limit) => {
            let counter = counter_under(usage, tenant, limit.window);
            if counter.countable(amount, now_ms) {
                let after = counter.added(amount, now_ms);
                (
                    with_counter(usage, tenant, limit.window, after),
                    Ok(Some(after.total(now_ms) <= limit.max_tokens)),
                )
            } else {
                (usage, Ok(None))
            }
        },
    }
}

impl BudgetRegistry {
    /// The cell that the budgets are read from.
    pub closed spec fn budgets(self) -> Arc<SwapCell<TenantLimits>> {
        self.limits
    }

    /// A registry with no usage, under the budgets in `limits`.
    pub fn new(limits: Arc<SwapCell<TenantLimits>>) -> (registry: Self)
        ensures
            registry@ == UsageMap::empty(),
            registry.budgets() == limits,
    {
        let registry = BudgetRegistry { limits, counters: no_counters() };
        assert(registry@ =~= UsageMap::empty());
        registry
    }

    /// The counter for a tenant under `window`.
    fn counter_for(&self, tenant: &str, window: Window) -> (counter: SlidingWindowCounter)
        ensures
            counter@ == counter_under(self@, tenant@, window),
    {
        match find_counter(&self.counters, tenant) {
            Some(existing) => {
                if existing.0.same_length(&window) {
                    existing.1
                } else {
                    SlidingWindowCounter::new(window)
                }
            },
            None => SlidingWindowCounter::new(window),
        }
    }

    /// Makes `counter` the tenant's counter under `window`.
    fn keep_counter(&mut self, tenant: &str, window: Window, counter: SlidingWindowCounter)
        ensures
            final(self)@ == with_counter(old(self)@, tenant@, window, counter@),
            final(self).budgets() == old(self).budgets(),
    {
        // The key is owned only where the tenant has no entry yet: this runs for
        // every chunk.
        if !replace_counter(&mut self.counters, tenant, (window, counter)) {
            put_counter(&mut self.counters, tenant.to_string(), (window, counter));
        }
        assert(self@ =~= with_counter(old(self)@, tenant@, window, counter@));
    }

    /// The budget of a tenant in `limits`.
    fn limit_for(limits: &TenantLimits, tenant: &str) -> (limit: Result<BudgetLimit, WeirError>)
        ensures
            limit == (match limit_of(limits@, tenant@) {
                Some(found) => Ok(found),
                None => Err(WeirError::UnknownTenant),
            }),
    {
        match limits.get(tenant) {
            Some(limit) => Ok(*limit),
            None => Err(WeirError::UnknownTenant),
        }
    }

    /// Whether a tenant may start another request at `now_ms`, under the
    /// budgets in `limits`.
    pub fn is_within_budget_under(
        &mut self,
        limits: &TenantLimits,
        tenant: &str,
        now_ms: i64,
    ) -> (within: Result<Option<bool>, WeirError>)
        ensures
            (final(self)@, within) == admission(
                old(self)@,
                limit_of(limits@, tenant@),
                tenant@,
                now_ms as int,
            ),
            final(self).budgets() == old(self).budgets(),
    {
        let limit = match Self::limit_for(limits, tenant) {
            Ok(limit) => limit,
            Err(error) => return Err(error),
        };
        let mut counter = self.counter_for(tenant, limit.window);
        if !counter.can_count(0, now_ms) {
            return Ok(None);
        }
        let total: u64 = counter.estimate(now_ms);
        self.keep_counter(tenant, limit.window, counter);
        Ok(Some(total < limit.max_tokens))
    }

    /// Records `amount` tokens of a tenant at `now_ms`, under the budgets in
    /// `limits`.
    ///
    /// A chunk that brings the tenant's usage to exactly `max_tokens` is still
    /// allowed through; the tenant is blocked starting with the next admission
    /// check. This lets a tenant consume its full budget rather than being cut
    /// off one token short of it.
    pub fn record_under(
        &mut self,
        limits: &TenantLimits,
        tenant: &str,
        amount: u64,
        now_ms: i64,
    ) -> (within: Result<Option<bool>, WeirError>)
        ensures
            (final(self)@, within) == recording(
                old(self)@,
                limit_of(limits@, tenant@),
                tenant@,
                amount as nat,
                now_ms as int,
            ),
            final(self).budgets() == old(self).budgets(),
    {
        let limit = match Self::limit_for(limits, tenant) {
            Ok(limit) => limit,
            Err(error) => return Err(error),
        };
        let mut counter = self.counter_for(tenant, limit.window);
        if !counter.can_count(amount, now_ms) {
            return Ok(None);
        }
        let total: u64 = counter.add(amount, now_ms);
        self.keep_counter(tenant, limit.window, counter);
        Ok(Some(total <= limit.max_tokens))
    }

    /// The budgets in force when the call is made: some that the cell holds at one
    /// time or another.
    pub(crate) fn limits_in_force(&self) -> (limits: Arc<TenantLimits>)
        ensures
            limits_held(*self.budgets()).contains(limits@),
    {
        self.limits.load()
    }

    /// Whether a tenant may start another request at `now_ms`, under the
    /// budgets in force when the call is made.
    pub fn is_within_budget(&mut self, tenant: &str, now_ms: i64) -> (within: Result<
        Option<bool>,
        WeirError,
    >)
        ensures
            exists|limits: Map<Seq<char>, BudgetLimit>| #[trigger]
                limits_held(*old(self).budgets()).contains(limits) && (final(self)@, within) == admission(
                    old(self)@,
                    limit_of(limits, tenant@),
                    tenant@,
                    now_ms as int,
                ),
            final(self).budgets() == old(self).budgets(),
    {
        let limits = self.limits_in_force();
        self.is_within_budget_under(&limits, tenant, now_ms)
    }

    /// Records `amount` tokens of a tenant at `now_ms`, under the budgets in
    /// force when the call is made.
    pub fn record(&mut self, tenant: &str, amount: u64, now_ms: i64) -> (within: Result<
        Option<bool>,
        WeirError,
    >)
        ensures
            exists|limits: Map<Seq<char>, BudgetLimit>| #[trigger]
                limits_held(*old(self).budgets()).contains(limits) && (final(self)@, within) == recording(
                    old(self)@,
                    limit_of(limits, tenant@),
                    tenant@,
                    amount as nat,
                    now_ms as int,
                ),
            final(self).budgets() == old(self).budgets(),
    {
        let limits = self.limits_in_force();
        self.record_under(&limits, tenant, amount, now_ms)
    }
}

/// An admission check right after a recording sees what was recorded: it
/// answers whether the total is below the ceiling, where the recording answered
/// whether it is at or below. So a tenant that lands exactly at its ceiling is
/// let through once more, and blocked from the next admission check on; and a
/// tenant whose recording went over is blocked.
pub proof fn ceiling_is_usable_and_then_blocks(
    usage: UsageMap,
    limit: BudgetLimit,
    tenant: Seq<char>,
    amount: nat,
    now_ms: int,
)
    requires
        counter_under(usage, tenant, limit.window).countable(amount, now_ms),
    ensures
        ({
            let total = counter_under(usage, tenant, limit.window).added(amount, now_ms).total(
                now_ms,
            );
            let (after, recorded) = recording(usage, Some(limit), tenant, amount, now_ms);
            let (_, admitted) = admission(after, Some(limit), tenant, now_ms);
            &&& recorded == Ok::<Option<bool>, WeirError>(Some(total <= limit.max_tokens))
            &&& admitted == Ok::<Option<bool>, WeirError>(Some(total < limit.max_tokens))
        }),
{
    let counter = counter_under(usage, tenant, limit.window);
    let (after, _) = recording(usage, Some(limit), tenant, amount, now_ms);
    assert(counter_under(after, tenant, limit.window) == counter.added(amount, now_ms));
    add_raises_the_estimate_by_the_amount(counter.added(amount, now_ms), 0, now_ms);
}

/// A recording raises a tenant's total by exactly the amount, so a tenant that
/// was at or below its ceiling is over it by at most that one amount afterwards.
pub proof fn overshoot_is_at_most_one_amount(
    usage: UsageMap,
    limit: BudgetLimit,
    tenant: Seq<char>,
    amount: nat,
    now_ms: int,
)
    requires
        counter_under(usage, tenant, limit.window).countable(amount, now_ms),
        counter_under(usage, tenant, limit.window).estimated(now_ms) <= limit.max_tokens,
    ensures
        ({
            let (after, _) = recording(usage, Some(limit), tenant, amount, now_ms);
            let used = counter_under(after, tenant, limit.window).estimated(now_ms);
            used <= limit.max_tokens + amount
        }),
{
    let counter = counter_under(usage, tenant, limit.window);
    let (after, _) = recording(usage, Some(limit), tenant, amount, now_ms);
    assert(counter_under(after, tenant, limit.window) == counter.added(amount, now_ms));
    add_raises_the_estimate_by_the_amount(counter, amount, now_ms);
}

/// Under a window of another length a tenant's usage starts from nothing, as it
/// does for a tenant that has used nothing yet.
pub proof fn changing_the_window_resets_usage(
    usage: UsageMap,
    limit: BudgetLimit,
    tenant: Seq<char>,
    amount: nat,
    now_ms: int,
)
    requires
        usage.contains_key(tenant) ==> usage[tenant].window != limit.window.as_nanos(),
        counter_under(usage, tenant, limit.window).countable(amount, now_ms),
    ensures
        recording(usage, Some(limit), tenant, amount, now_ms).1 == Ok::<Option<bool>, WeirError>(
            Some(amount <= limit.max_tokens),
        ),
{
    fresh_counter_counts_from_zero(counter_millis(limit.window) as int, amount, now_ms);
}

/// A tenant's counter is kept for as long as its window keeps its length, whatever
/// the ceiling. Under a window of another length there is a fresh one, at nothing at
/// every moment, and once that is kept the old one is gone, even if the old window
/// comes back. The counters of other tenants stay.
pub proof fn a_counter_lasts_as_long_as_its_window(
    usage: UsageMap,
    tenant: Seq<char>,
    other: Seq<char>,
    first: Window,
    second: Window,
    counter: WindowState,
    next: WindowState,
)
    requires
        other != tenant,
    ensures
        ({
            let kept = with_counter(usage, tenant, first, counter);
            let again = counter_under(kept, tenant, second);
            let replaced = with_counter(kept, tenant, second, next);
            let same = first.as_nanos() == second.as_nanos();
            &&& same ==> again == counter
            &&& !same ==> again == WindowState::fresh(counter_millis(second) as int)
            &&& !same && again.valid() ==> forall|now_ms: int| #[trigger]
                again.estimated(now_ms) == 0
            &&& !same ==> counter_under(replaced, tenant, first) == WindowState::fresh(
                counter_millis(first) as int,
            )
            &&& counter_under(replaced, other, first) == counter_under(usage, other, first)
            &&& counter_under(replaced, other, second) == counter_under(usage, other, second)
        }),
{
    let kept = with_counter(usage, tenant, first, counter);
    let again = counter_under(kept, tenant, second);
    if first.as_nanos() != second.as_nanos() && again.valid() {
        assert forall|now_ms: int| #[trigger] again.estimated(now_ms) == 0 by {
            fresh_counter_counts_from_zero(counter_millis(second) as int, 0, now_ms);
        }
    }
}

/// What one tenant does leaves every other tenant's usage as it was.
pub proof fn tenants_do_not_affect_each_other(
    usage: UsageMap,
    limit: Option<BudgetLimit>,
    tenant: Seq<char>,
    other: Seq<char>,
    amount: nat,
    now_ms: int,
)
    requires
        other != tenant,
    ensures
        ({
            let (recorded, _) = recording(usage, limit, tenant, amount, now_ms);
            let (checked, _) = admission(usage, limit, tenant, now_ms);
            &&& recorded.contains_key(other) == usage.contains_key(other)
            &&& checked.contains_key(other) == usage.contains_key(other)
            &&& recorded[other] == usage[other]
            &&& checked[other] == usage[other]
        }),
{
}

/// A check between two recordings at the same moment does not change what the
/// second one finds.
pub proof fn checking_does_not_use_budget(
    usage: UsageMap,
    limit: BudgetLimit,
    tenant: Seq<char>,
    amount: nat,
    now_ms: int,
)
    ensures
        ({
            let (checked, _) = admission(usage, Some(limit), tenant, now_ms);
            recording(checked, Some(limit), tenant, amount, now_ms).1 == recording(
                usage,
                Some(limit),
                tenant,
                amount,
                now_ms,
            ).1
        }),
{
    let counter = counter_under(usage, tenant, limit.window);
    if counter.countable(0, now_ms) {
        let (checked, _) = admission(usage, Some(limit), tenant, now_ms);
        assert(counter_under(checked, tenant, limit.window) == counter.rolled(now_ms));
        estimate_is_stable(counter, amount, now_ms);
    }
}

/// The counter that a registry goes on with for a tenant under a window: the
/// tenant's own, where that is for a window of the same length, and otherwise one
/// with nothing in it whose window has the length asked for.
pub proof fn a_tenant_goes_on_with_its_own_counter(
    usage: UsageMap,
    tenant: Seq<char>,
    window: Window,
)
    ensures
        ({
            let counter = counter_under(usage, tenant, window);
            let own = usage.contains_key(tenant) && usage[tenant].window == window.as_nanos();
            &&& own ==> counter == usage[tenant].counter
            &&& !own ==> counter.current == 0 && counter.previous == 0
            &&& !own && 1 <= window.millis() <= i64::MAX ==> counter.window_ms == window.millis()
            &&& !own && window.millis() == 0 ==> counter.window_ms == 1
        }),
{
}

/// A tenant that has no budget is refused, whatever is asked, and nothing changes.
pub proof fn tenants_without_a_budget_are_refused(
    usage: UsageMap,
    limits: Map<Seq<char>, BudgetLimit>,
    tenant: Seq<char>,
    amount: nat,
    now_ms: int,
)
    requires
        !limits.contains_key(tenant),
    ensures
        recording(usage, limit_of(limits, tenant), tenant, amount, now_ms) == (
            usage,
            Err::<Option<bool>, WeirError>(WeirError::UnknownTenant),
        ),
        admission(usage, limit_of(limits, tenant), tenant, now_ms) == (
            usage,
            Err::<Option<bool>, WeirError>(WeirError::UnknownTenant),
        ),
{
}

/// A tenant that has a budget is held to that one.
pub proof fn tenants_are_held_to_their_own_budget(
    limits: Map<Seq<char>, BudgetLimit>,
    tenant: Seq<char>,
)
    requires
        limits.contains_key(tenant),
    ensures
        limit_of(limits, tenant) == Some(limits[tenant]),
{
}

/// A recording puts the amount into the tenant's current window and nothing else: the
/// counter that is kept differs from the one before, brought to the moment, by the
/// amount in the current window's count alone. So at every later moment of the same
/// window it reports the amount more than it would have, and in the next window the
/// share of all that was counted in this one. It is answered by whether the total is
/// at or below the ceiling.
pub proof fn a_recording_adds_the_amount_and_nothing_else(
    usage: UsageMap,
    limit: BudgetLimit,
    tenant: Seq<char>,
    amount: nat,
    now_ms: int,
    later_ms: int,
)
    requires
        counter_under(usage, tenant, limit.window).countable(amount, now_ms),
    ensures
        ({
            let before = counter_under(usage, tenant, limit.window);
            let (recorded, answer) = recording(usage, Some(limit), tenant, amount, now_ms);
            let after = recorded[tenant].counter;
            let window = before.window_ms;
            let bucket = now_ms / window;
            &&& answer == Ok::<Option<bool>, WeirError>(
                Some(before.estimated(now_ms) + amount <= limit.max_tokens),
            )
            &&& recorded.contains_key(tenant)
            &&& recorded[tenant].window == limit.window.as_nanos()
            &&& after.window_ms == window
            &&& after.bucket == bucket
            &&& after.current == if bucket == before.bucket {
                before.current + amount
            } else {
                amount
            }
            &&& after.previous == if bucket == before.bucket {
                before.previous
            } else if bucket == before.bucket + 1 {
                before.current
            } else {
                0
            }
            &&& later_ms / window == bucket ==> after.estimated(later_ms) == before.estimated(
                later_ms,
            ) + amount
            &&& later_ms / window == bucket + 1 ==> after.estimated(later_ms) == share_of(
                after.current,
                (window - later_ms % window) as nat,
                window as nat,
            )
            &&& later_ms / window > bucket + 1 ==> after.estimated(later_ms) == 0
        }),
{
    let before = counter_under(usage, tenant, limit.window);
    add_raises_the_estimate_by_the_amount(before, amount, now_ms);
    adding_counts_the_amount_and_nothing_else(before, amount, now_ms);
    later_moments_see_the_amount(before, amount, now_ms, later_ms);
}

/// Where an amount does not fit, there is no answer and nothing is recorded.
pub proof fn what_does_not_fit_is_not_recorded(
    usage: UsageMap,
    limit: BudgetLimit,
    tenant: Seq<char>,
    amount: nat,
    now_ms: int,
)
    requires
        !counter_under(usage, tenant, limit.window).countable(amount, now_ms),
    ensures
        recording(usage, Some(limit), tenant, amount, now_ms) == (
            usage,
            Ok::<Option<bool>, WeirError>(None),
        ),
        amount == 0 ==> admission(usage, Some(limit), tenant, now_ms) == (
            usage,
            Ok::<Option<bool>, WeirError>(None),
        ),
{
}

/// An admission check says whether the tenant is below its ceiling, and changes what
/// no later moment sees while the clock does not go back.
pub proof fn an_admission_check_only_looks(
    usage: UsageMap,
    limit: BudgetLimit,
    tenant: Seq<char>,
    now_ms: int,
    later_ms: int,
)
    requires
        counter_under(usage, tenant, limit.window).countable(0, now_ms),
        counter_under(usage, tenant, limit.window).bucket <= now_ms / counter_under(
            usage,
            tenant,
            limit.window,
        ).window_ms,
        now_ms <= later_ms,
    ensures
        ({
            let before = counter_under(usage, tenant, limit.window);
            let (checked, answer) = admission(usage, Some(limit), tenant, now_ms);
            let after = counter_under(checked, tenant, limit.window);
            &&& answer == Ok::<Option<bool>, WeirError>(
                Some(before.estimated(now_ms) < limit.max_tokens),
            )
            &&& after.window_ms == before.window_ms
            &&& after.bucket == now_ms / before.window_ms
            &&& after.estimated(later_ms) == before.estimated(later_ms)
        }),
{
    let before = counter_under(usage, tenant, limit.window);
    looking_changes_no_later_moment(before, now_ms, later_ms);
}

/// An admission check brings the tenant's counter to the moment and counts nothing:
/// within its window the counts stay, in the next window the count becomes the
/// previous one, and in any other window nothing is left.
pub proof fn an_admission_check_brings_the_counter_to_the_moment(
    usage: UsageMap,
    limit: BudgetLimit,
    tenant: Seq<char>,
    now_ms: int,
)
    requires
        counter_under(usage, tenant, limit.window).countable(0, now_ms),
    ensures
        ({
            let before = counter_under(usage, tenant, limit.window);
            let (checked, answer) = admission(usage, Some(limit), tenant, now_ms);
            let after = checked[tenant].counter;
            let bucket = now_ms / before.window_ms;
            &&& answer == Ok::<Option<bool>, WeirError>(
                Some(before.estimated(now_ms) < limit.max_tokens),
            )
            &&& checked.contains_key(tenant)
            &&& checked[tenant].window == limit.window.as_nanos()
            &&& after.window_ms == before.window_ms
            &&& after.bucket == bucket
            &&& after.current == if bucket == before.bucket {
                before.current
            } else {
                0
            }
            &&& after.previous == if bucket == before.bucket {
                before.previous
            } else if bucket == before.bucket + 1 {
                before.current
            } else {
                0
            }
        }),
{
}

} // verus!
