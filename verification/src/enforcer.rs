//! Holds a streamed answer to its tenant's budget, chunk by chunk.

use crate::budget::sliding_window::add_raises_the_estimate_by_the_amount;
use crate::budget::{counter_under, limit_of, recording, BudgetRegistry, UsageMap};
use crate::config::{BudgetLimit, TenantLimits};
use crate::error::WeirError;
use crate::provider::ChunkCost;
use crate::shared::limits_held;
use vstd::prelude::*;

verus! {

/// The event that ends a stream whose tenant has run out of budget.
pub const BUDGET_EXCEEDED_EVENT: &'static str =
    "event: error\ndata: {\"error\":\"budget_exceeded\"}\n\n";

/// What is to happen to a chunk.
pub enum Verdict {
    /// It is passed on.
    Forward,
    /// It would breach the ceiling: in its place comes `BUDGET_EXCEEDED_EVENT`,
    /// and the stream ends.
    Trip,
    /// Its cost could not be recorded: the stream ends with the error.
    Fail(WeirError),
    /// The stream has ended already.
    Done,
}

/// What a stream puts out.
pub enum Output<B> {
    /// A chunk, as it came.
    Chunk(B),
    /// `BUDGET_EXCEEDED_EVENT`.
    BudgetExceeded,
    /// An error.
    Error(WeirError),
}

impl Verdict {
    /// What is put out for a chunk that is judged so.
    pub open spec fn output<B>(self, raw: B) -> Option<Output<B>> {
        match self {
            Verdict::Forward => Some(Output::Chunk(raw)),
            Verdict::Trip => Some(Output::BudgetExceeded),
            Verdict::Fail(error) => Some(Output::Error(error)),
            Verdict::Done => None,
        }
    }

    /// What is put out for a chunk that is judged so.
    pub fn into_output<B>(self, raw: B) -> (output: Option<Output<B>>)
        ensures
            output == self.output(raw),
    {
        match self {
            Verdict::Forward => Some(Output::Chunk(raw)),
            Verdict::Trip => Some(Output::BudgetExceeded),
            Verdict::Fail(error) => Some(Output::Error(error)),
            Verdict::Done => None,
        }
    }
}

/// How far a stream has come.
pub struct StreamState {
    /// The tokens of the stream that have been recorded.
    pub recorded: nat,
    /// Whether nothing of the stream is passed on any more.
    pub ended: bool,
}

/// The tokens that a chunk adds to what is recorded of its stream: what the
/// provider's total has above it, or the estimate where there is no total.
pub open spec fn delta_of(recorded: nat, cost: ChunkCost) -> nat {
    match cost.authoritative_total {
        Some(total) => if total > recorded {
            (total - recorded) as nat
        } else {
            0
        },
        None => cost.estimated_tokens as nat,
    }
}

/// The tokens recorded of a stream after a chunk.
pub open spec fn recorded_after(recorded: nat, cost: ChunkCost) -> nat {
    match cost.authoritative_total {
        Some(total) => total as nat,
        None => recorded + cost.estimated_tokens as nat,
    }
}

/// What happens to a chunk, and what it leaves of the stream and of each
/// tenant's usage. Its cost is recorded before it is passed on. There is no
/// verdict, and nothing changes, where a sum leaves the machine's integers.
pub open spec fn judgement(
    state: StreamState,
    usage: UsageMap,
    limit: Option<BudgetLimit>,
    tenant: Seq<char>,
    cost: ChunkCost,
    now_ms: int,
) -> (StreamState, UsageMap, Option<Verdict>) {
    let recorded = recorded_after(state.recorded, cost);
    let delta = delta_of(state.recorded, cost);
    let (after, answer) = recording(usage, limit, tenant, delta, now_ms);
    if state.ended {
        (state, usage, Some(Verdict::Done))
    } else if recorded > u64::MAX {
        (state, usage, None)
    } else {
        match answer {
            Ok(Some(true)) => (
                StreamState { recorded, ended: false },
                after,
                Some(Verdict::Forward),
            ),
            Ok(Some(false)) => (StreamState { recorded, ended: true }, after, Some(Verdict::Trip)),
            Ok(None) => (state, usage, None),
            Err(error) => (
                StreamState { recorded, ended: true },
                after,
                Some(Verdict::Fail(error)),
            ),
        }
    }
}

/// Enforces a tenant's budget on one stream. Each chunk's cost is recorded
/// against the budget before the chunk is passed on; a chunk that would breach
/// the ceiling never is.
pub struct Enforcer {
    tenant: String,
    recorded_so_far: u64,
    ended: bool,
}

impl View for Enforcer {
    type V = StreamState;

    closed spec fn view(&self) -> StreamState {
        StreamState { recorded: self.recorded_so_far as nat, ended: self.ended }
    }
}

impl Enforcer {
    /// The tenant whose budget is enforced.
    pub closed spec fn tenant(self) -> Seq<char> {
        self.tenant@
    }

    /// Starts on a stream of which nothing has come.
    pub fn new(tenant: String) -> (enforcer: Self)
        ensures
            enforcer.tenant() == tenant@,
            enforcer@ == (StreamState { recorded: 0, ended: false }),
    {
        Enforcer { tenant, recorded_so_far: 0, ended: false }
    }

    /// Ends the stream because the upstream provider failed, and returns the
    /// error to end it with.
    pub fn on_upstream_error(&mut self, cause: String) -> (error: WeirError)
        ensures
            error == WeirError::Upstream(cause),
            final(self)@ == (StreamState { ended: true, ..old(self)@ }),
            final(self).tenant() == old(self).tenant(),
    {
        self.ended = true;
        WeirError::Upstream(cause)
    }

    /// What recording a chunk's cost comes to: the tokens that it adds, and the
    /// tokens recorded with it.
    fn accounted(&self, cost: &ChunkCost) -> (sums: Option<(u64, u64)>)
        ensures
            match sums {
                Some((delta, recorded)) => {
                    &&& delta == delta_of(self@.recorded, *cost)
                    &&& recorded == recorded_after(self@.recorded, *cost)
                },
                None => recorded_after(self@.recorded, *cost) > u64::MAX,
            },
    {
        match cost.authoritative_total {
            Some(total) => Some((total.saturating_sub(self.recorded_so_far), total)),
            None => match self.recorded_so_far.checked_add(cost.estimated_tokens) {
                Some(recorded) => Some((cost.estimated_tokens, recorded)),
                None => None,
            },
        }
    }

    /// Judges a chunk of the given cost at `now_ms`, under the budgets in
    /// `limits`.
    pub fn on_chunk_under(
        &mut self,
        budget: &mut BudgetRegistry,
        limits: &TenantLimits,
        cost: &ChunkCost,
        now_ms: i64,
    ) -> (verdict: Option<Verdict>)
        ensures
            (final(self)@, final(budget)@, verdict) == judgement(
                old(self)@,
                old(budget)@,
                limit_of(limits@, old(self).tenant()),
                old(self).tenant(),
                *cost,
                now_ms as int,
            ),
            final(self).tenant() == old(self).tenant(),
            final(budget).budgets() == old(budget).budgets(),
    {
        if self.ended {
            return Some(Verdict::Done);
        }
        let (delta, recorded) = match self.accounted(cost) {
            Some(sums) => sums,
            None => return None,
        };
        match budget.record_under(limits, self.tenant.as_str(), delta, now_ms) {
            Ok(Some(within)) => {
                self.recorded_so_far = recorded;
                if within {
                    Some(Verdict::Forward)
                } else {
                    self.ended = true;
                    Some(Verdict::Trip)
                }
            },
            Ok(None) => None,
            Err(error) => {
                self.recorded_so_far = recorded;
                self.ended = true;
                Some(Verdict::Fail(error))
            },
        }
    }

    /// Judges a chunk of the given cost at `now_ms`, under the budgets in force
    /// when the call is made.
    pub fn on_chunk(&mut self, budget: &mut BudgetRegistry, cost: &ChunkCost, now_ms: i64) -> (
    verdict: Option<Verdict>)
        ensures
            exists|limits: Map<Seq<char>, BudgetLimit>| #[trigger]
                limits_held(*old(budget).budgets()).contains(limits) && (
                final(self)@,
                final(budget)@,
                verdict,
                ) == judgement(
                    old(self)@,
                    old(budget)@,
                    limit_of(limits, old(self).tenant()),
                    old(self).tenant(),
                    *cost,
                    now_ms as int,
                ),
            final(self).tenant() == old(self).tenant(),
            final(budget).budgets() == old(budget).budgets(),
    {
        let limits = budget.limits_in_force();
        self.on_chunk_under(budget, &limits, cost, now_ms)
    }
}

/// A chunk of a stream as it comes: its cost, the tenant's budget in force at
/// that moment, and the moment.
pub struct Arrival {
    pub cost: ChunkCost,
    pub limit: Option<BudgetLimit>,
    pub now_ms: int,
}

/// What a stream's chunks leave of the stream and of each tenant's usage.
pub open spec fn after_all(
    state: StreamState,
    usage: UsageMap,
    tenant: Seq<char>,
    arrivals: Seq<Arrival>,
) -> (StreamState, UsageMap)
    decreases arrivals.len(),
{
    if arrivals.len() == 0 {
        (state, usage)
    } else {
        let (before, used) = after_all(state, usage, tenant, arrivals.drop_last());
        let last = arrivals.last();
        let (after, left, _) = judgement(before, used, last.limit, tenant, last.cost, last.now_ms);
        (after, left)
    }
}

/// What happens to the chunk at `index` of a stream.
pub open spec fn verdict_at(
    state: StreamState,
    usage: UsageMap,
    tenant: Seq<char>,
    arrivals: Seq<Arrival>,
    index: int,
) -> Option<Verdict> {
    let (before, used) = after_all(state, usage, tenant, arrivals.take(index));
    let arrival = arrivals[index];
    judgement(before, used, arrival.limit, tenant, arrival.cost, arrival.now_ms).2
}

/// While a stream goes on, a chunk of a tenant with a budget is passed on if the
/// tenant's total with the chunk's cost in it is at or below the ceiling, and
/// ends the stream otherwise. Either way the usage then holds that total.
pub proof fn only_chunks_within_budget_are_forwarded(
    state: StreamState,
    usage: UsageMap,
    limit: BudgetLimit,
    tenant: Seq<char>,
    cost: ChunkCost,
    now_ms: int,
)
    requires
        !state.ended,
        recorded_after(state.recorded, cost) <= u64::MAX,
        counter_under(usage, tenant, limit.window).countable(
            delta_of(state.recorded, cost),
            now_ms,
        ),
    ensures
        ({
            let delta = delta_of(state.recorded, cost);
            let counter = counter_under(usage, tenant, limit.window);
            let total = counter.estimated(now_ms) + delta;
            let (after, left, verdict) = judgement(
                state,
                usage,
                Some(limit),
                tenant,
                cost,
                now_ms,
            );
            &&& verdict == Some(
                if total <= limit.max_tokens {
                    Verdict::Forward
                } else {
                    Verdict::Trip
                },
            )
            &&& after.ended == (total > limit.max_tokens)
            &&& counter_under(left, tenant, limit.window).estimated(now_ms) == total
        }),
{
    let delta = delta_of(state.recorded, cost);
    let counter = counter_under(usage, tenant, limit.window);
    let (left, _) = recording(usage, Some(limit), tenant, delta, now_ms);
    assert(counter_under(left, tenant, limit.window) == counter.added(delta, now_ms));
    add_raises_the_estimate_by_the_amount(counter, delta, now_ms);
}

/// A chunk is passed on only for a tenant with a budget, and only with its cost
/// recorded and the tenant's total at or below the ceiling.
pub proof fn a_forwarded_chunk_is_recorded_and_within_budget(
    state: StreamState,
    usage: UsageMap,
    limit: Option<BudgetLimit>,
    tenant: Seq<char>,
    cost: ChunkCost,
    now_ms: int,
)
    requires
        judgement(state, usage, limit, tenant, cost, now_ms).2 == Some(Verdict::Forward),
    ensures
        !state.ended,
        limit is Some,
        ({
            let window = limit->0.window;
            let left = judgement(state, usage, limit, tenant, cost, now_ms).1;
            let before = counter_under(usage, tenant, window).estimated(now_ms);
            let total = counter_under(left, tenant, window).estimated(now_ms);
            &&& total == before + delta_of(state.recorded, cost)
            &&& total <= limit->0.max_tokens
        }),
{
    only_chunks_within_budget_are_forwarded(state, usage, limit->0, tenant, cost, now_ms);
}

/// A chunk that is not passed on although the stream goes on, ends the stream.
pub proof fn a_stream_ends_unless_it_forwards(
    state: StreamState,
    usage: UsageMap,
    limit: Option<BudgetLimit>,
    tenant: Seq<char>,
    cost: ChunkCost,
    now_ms: int,
)
    ensures
        ({
            let (after, _, verdict) = judgement(state, usage, limit, tenant, cost, now_ms);
            verdict matches Some(verdict) ==> after.ended == !(verdict is Forward)
        }),
{
}

/// Once a stream has ended, no chunk of it is passed on or recorded.
pub proof fn nothing_follows_the_end(
    state: StreamState,
    usage: UsageMap,
    tenant: Seq<char>,
    arrivals: Seq<Arrival>,
)
    requires
        state.ended,
    ensures
        after_all(state, usage, tenant, arrivals) == (state, usage),
        forall|i: int|
            0 <= i < arrivals.len() ==> #[trigger] verdict_at(state, usage, tenant, arrivals, i)
                == Some(Verdict::Done),
    decreases arrivals.len(),
{
    if arrivals.len() > 0 {
        nothing_follows_the_end(state, usage, tenant, arrivals.drop_last());
    }
    assert forall|i: int| 0 <= i < arrivals.len() implies #[trigger] verdict_at(
        state,
        usage,
        tenant,
        arrivals,
        i,
    ) == Some(Verdict::Done) by {
        let front = arrivals.take(i);
        assert(front.len() < arrivals.len());
        nothing_follows_the_end(state, usage, tenant, front);
    }
}

/// The chunks passed on are the first ones of the stream: where one is judged
/// otherwise, no later one is passed on.
pub proof fn forwarded_chunks_come_first(
    state: StreamState,
    usage: UsageMap,
    tenant: Seq<char>,
    arrivals: Seq<Arrival>,
    earlier: int,
    later: int,
)
    requires
        0 <= earlier < later < arrivals.len(),
        verdict_at(state, usage, tenant, arrivals, earlier) matches Some(verdict) && !(
        verdict is Forward),
    ensures
        verdict_at(state, usage, tenant, arrivals, later) == Some(Verdict::Done),
{
    let taken = arrivals.take(earlier + 1);
    assert(taken.drop_last() =~= arrivals.take(earlier));
    assert(taken.last() == arrivals[earlier]);
    assert(after_all(state, usage, tenant, taken).0.ended);
    lemma_end_lasts(state, usage, tenant, arrivals, earlier + 1, later);
}

/// A stream that has ended after some chunks has ended after more of them.
proof fn lemma_end_lasts(
    state: StreamState,
    usage: UsageMap,
    tenant: Seq<char>,
    arrivals: Seq<Arrival>,
    low: int,
    high: int,
)
    requires
        0 <= low <= high <= arrivals.len(),
        after_all(state, usage, tenant, arrivals.take(low)).0.ended,
    ensures
        after_all(state, usage, tenant, arrivals.take(high)).0.ended,
    decreases high - low,
{
    if low < high {
        lemma_end_lasts(state, usage, tenant, arrivals, low, high - 1);
        assert(arrivals.take(high).drop_last() =~= arrivals.take(high - 1));
    }
}

/// The tokens recorded of a stream after chunks of these costs.
pub open spec fn recorded_through(recorded: nat, costs: Seq<ChunkCost>) -> nat
    decreases costs.len(),
{
    if costs.len() == 0 {
        recorded
    } else {
        recorded_after(recorded_through(recorded, costs.drop_last()), costs.last())
    }
}

/// The tokens that the tenant is charged for chunks of these costs.
pub open spec fn charged(recorded: nat, costs: Seq<ChunkCost>) -> nat
    decreases costs.len(),
{
    if costs.len() == 0 {
        0
    } else {
        charged(recorded, costs.drop_last()) + delta_of(
            recorded_through(recorded, costs.drop_last()),
            costs.last(),
        )
    }
}

/// A tenant is charged for a stream at least what the provider's last total
/// comes to, and exactly that where no total falls below what was recorded
/// before it: estimates are made good by the totals, and nothing is charged
/// twice.
pub proof fn totals_reconcile_estimates(recorded: nat, costs: Seq<ChunkCost>)
    ensures
        recorded_through(recorded, costs) <= recorded + charged(recorded, costs),
        (forall|i: int|
            0 <= i < costs.len() ==> ((#[trigger] costs[i]).authoritative_total matches Some(total)
                ==> total >= recorded_through(recorded, costs.take(i)))) ==> recorded_through(
            recorded,
            costs,
        ) == recorded + charged(recorded, costs),
    decreases costs.len(),
{
    if costs.len() > 0 {
        let front = costs.drop_last();
        totals_reconcile_estimates(recorded, front);
        if forall|i: int|
            0 <= i < costs.len() ==> ((#[trigger] costs[i]).authoritative_total matches Some(total)
                ==> total >= recorded_through(recorded, costs.take(i))) {
            assert forall|i: int| 0 <= i < front.len() implies ((
            #[trigger] front[i]).authoritative_total matches Some(total) ==> total
                >= recorded_through(recorded, front.take(i))) by {
                assert(front.take(i) =~= costs.take(i));
                assert(costs[i] == front[i]);
            }
            assert(costs[costs.len() - 1] == costs.last());
            assert(costs.take(costs.len() - 1) =~= front);
        }
    }
}

/// The costs of chunks.
pub open spec fn costs_of(arrivals: Seq<Arrival>) -> Seq<ChunkCost> {
    arrivals.map_values(|arrival: Arrival| arrival.cost)
}

/// A stream that is passed on whole, at one moment and under one budget, adds to
/// its tenant's total what the tenant is charged for its chunks, and nothing else.
pub proof fn a_stream_uses_what_it_is_charged(
    state: StreamState,
    usage: UsageMap,
    limit: BudgetLimit,
    tenant: Seq<char>,
    arrivals: Seq<Arrival>,
    now_ms: int,
)
    requires
        counter_under(usage, tenant, limit.window).valid(),
        forall|i: int|
            0 <= i < arrivals.len() ==> {
                &&& (#[trigger] arrivals[i]).limit == Some(limit)
                &&& arrivals[i].now_ms == now_ms
            },
        forall|i: int|
            0 <= i < arrivals.len() ==> #[trigger] verdict_at(state, usage, tenant, arrivals, i)
                == Some(Verdict::Forward),
    ensures
        ({
            let (after, left) = after_all(state, usage, tenant, arrivals);
            let costs = costs_of(arrivals);
            &&& after.recorded == recorded_through(state.recorded, costs)
            &&& counter_under(left, tenant, limit.window).valid()
            &&& counter_under(left, tenant, limit.window).estimated(now_ms) == counter_under(
                usage,
                tenant,
                limit.window,
            ).estimated(now_ms) + charged(state.recorded, costs)
        }),
    decreases arrivals.len(),
{
    if arrivals.len() > 0 {
        let front = arrivals.drop_last();
        let end = arrivals.len() - 1;
        assert forall|i: int| 0 <= i < front.len() implies #[trigger] verdict_at(
            state,
            usage,
            tenant,
            front,
            i,
        ) == Some(Verdict::Forward) by {
            assert(front.take(i) =~= arrivals.take(i));
            assert(verdict_at(state, usage, tenant, arrivals, i) == Some(Verdict::Forward));
        }
        assert forall|i: int| 0 <= i < front.len() implies {
            &&& (#[trigger] front[i]).limit == Some(limit)
            &&& front[i].now_ms == now_ms
        } by {
            assert(front[i] == arrivals[i]);
        }
        a_stream_uses_what_it_is_charged(state, usage, limit, tenant, front, now_ms);
        assert(costs_of(arrivals).drop_last() =~= costs_of(front));
        assert(arrivals.take(end) =~= front);
        assert(verdict_at(state, usage, tenant, arrivals, end) == Some(Verdict::Forward));
        let last = arrivals[end];
        let (before, used) = after_all(state, usage, tenant, front);
        let counter = counter_under(used, tenant, limit.window);
        let delta = delta_of(before.recorded, last.cost);
        let (left, _) = recording(used, Some(limit), tenant, delta, now_ms);
        assert(counter_under(left, tenant, limit.window) == counter.added(delta, now_ms));
        add_raises_the_estimate_by_the_amount(counter, delta, now_ms);
    }
}

/// Where a stream ends with the provider's total, and no total falls below what
/// was recorded before it, the tenant's total is up by exactly that.
pub proof fn a_stream_uses_what_the_provider_says(
    usage: UsageMap,
    limit: BudgetLimit,
    tenant: Seq<char>,
    arrivals: Seq<Arrival>,
    now_ms: int,
    total: u64,
)
    requires
        counter_under(usage, tenant, limit.window).valid(),
        arrivals.len() > 0,
        arrivals.last().cost.authoritative_total == Some(total),
        forall|i: int|
            0 <= i < arrivals.len() ==> {
                &&& (#[trigger] arrivals[i]).limit == Some(limit)
                &&& arrivals[i].now_ms == now_ms
            },
        forall|i: int|
            0 <= i < arrivals.len() ==> #[trigger] verdict_at(
                StreamState { recorded: 0, ended: false },
                usage,
                tenant,
                arrivals,
                i,
            ) == Some(Verdict::Forward),
        forall|i: int|
            0 <= i < arrivals.len() ==> ((
            #[trigger] costs_of(arrivals)[i]).authoritative_total matches Some(said) ==> said
                >= recorded_through(0, costs_of(arrivals).take(i))),
    ensures
        ({
            let (_, left) = after_all(
                StreamState { recorded: 0, ended: false },
                usage,
                tenant,
                arrivals,
            );
            counter_under(left, tenant, limit.window).estimated(now_ms) == counter_under(
                usage,
                tenant,
                limit.window,
            ).estimated(now_ms) + total
        }),
{
    let state = StreamState { recorded: 0, ended: false };
    a_stream_uses_what_it_is_charged(state, usage, limit, tenant, arrivals, now_ms);
    totals_reconcile_estimates(0, costs_of(arrivals));
    assert(costs_of(arrivals).last() == arrivals.last().cost);
}

/// What the upstream provider gives: a chunk, or its failure.
pub enum Received<B> {
    Chunk { raw: B, arrival: Arrival },
    Failure { cause: String },
}

/// What an item leaves of the stream and of each tenant's usage, and what is put out
/// for it. There is no answer where a sum leaves the machine's integers.
#[verifier::opaque]
pub open spec fn handled<B>(
    state: StreamState,
    usage: UsageMap,
    tenant: Seq<char>,
    item: Received<B>,
) -> (StreamState, UsageMap, Option<Option<Output<B>>>) {
    match item {
        Received::Chunk { raw, arrival } => {
            let (after, left, verdict) = judgement(
                state,
                usage,
                arrival.limit,
                tenant,
                arrival.cost,
                arrival.now_ms,
            );
            match verdict {
                Some(verdict) => (after, left, Some(verdict.output(raw))),
                None => (after, left, None),
            }
        },
        Received::Failure { cause } => if state.ended {
            (state, usage, Some(None))
        } else {
            (
                StreamState { ended: true, ..state },
                usage,
                Some(Some(Output::Error(WeirError::Upstream(cause)))),
            )
        },
    }
}

/// What items, one after the other, leave of a stream and of each tenant's usage,
/// and all that is put out for them.
pub open spec fn streamed<B>(
    state: StreamState,
    usage: UsageMap,
    tenant: Seq<char>,
    items: Seq<Received<B>>,
) -> (StreamState, UsageMap, Seq<Output<B>>)
    decreases items.len(),
{
    if items.len() == 0 {
        (state, usage, Seq::empty())
    } else {
        let (before, used, out) = streamed(state, usage, tenant, items.drop_last());
        let (after, left, answer) = handled(before, used, tenant, items.last());
        match answer {
            Some(Some(output)) => (after, left, out.push(output)),
            _ => (after, left, out),
        }
    }
}

/// The answer to the item at `index` of a stream.
pub open spec fn answer_at<B>(
    state: StreamState,
    usage: UsageMap,
    tenant: Seq<char>,
    items: Seq<Received<B>>,
    index: int,
) -> Option<Option<Output<B>>> {
    let (before, used, _) = streamed(state, usage, tenant, items.take(index));
    handled(before, used, tenant, items[index]).2
}

/// The first `k` items are passed on as they came. If there are more, the next one
/// ends the stream: one more thing is put out, which is no chunk, and nothing after
/// it.
pub open spec fn passes_on<B>(
    state: StreamState,
    usage: UsageMap,
    tenant: Seq<char>,
    items: Seq<Received<B>>,
    k: int,
) -> bool {
    let (after, left, out) = streamed(state, usage, tenant, items);
    &&& 0 <= k <= items.len()
    &&& after.ended == (k < items.len())
    &&& out.len() == if k < items.len() {
        k + 1
    } else {
        k
    }
    &&& forall|i: int|
        0 <= i < k ==> {
            &&& (#[trigger] items[i]) matches Received::Chunk { raw, arrival }
            &&& out[i] == Output::Chunk(raw)
            &&& answer_at(state, usage, tenant, items, i) == Some(Some(Output::Chunk(raw)))
        }
    &&& k < items.len() ==> {
        &&& answer_at(state, usage, tenant, items, k) == Some(Some(out[k]))
        &&& !(out[k] is Chunk)
        &&& items[k] matches Received::Failure { cause } ==> out[k] == Output::<B>::Error(
            WeirError::Upstream(cause),
        )
        &&& (after, left) == ({
            let (ended, used, _) = streamed(state, usage, tenant, items.take(k + 1));
            (ended, used)
        })
    }
}

/// An item of a stream that goes on is passed on, or ends the stream with something
/// that is no chunk; of a stream that has ended it changes nothing.
proof fn lemma_handled<B>(
    state: StreamState,
    usage: UsageMap,
    tenant: Seq<char>,
    item: Received<B>,
)
    ensures
        ({
            let (after, left, answer) = handled(state, usage, tenant, item);
            &&& state.ended ==> (after, left) == (state, usage) && answer == Some(
                None::<Output<B>>,
            )
            &&& !state.ended && answer is Some ==> {
                &&& answer->0 is Some
                &&& after.ended == !(answer->0->0 is Chunk)
                &&& answer->0->0 matches Output::Chunk(passed) ==> (item matches Received::Chunk {
                    raw,
                    arrival,
                } && raw == passed)
                &&& item matches Received::Failure { cause } ==> answer->0->0 == Output::<B>::Error(
                    WeirError::Upstream(cause),
                )
            }
        }),
{
    reveal(handled);
}

/// The answers to the items of a front part do not depend on what follows.
proof fn lemma_answers_of_front<B>(
    state: StreamState,
    usage: UsageMap,
    tenant: Seq<char>,
    items: Seq<Received<B>>,
)
    requires
        items.len() > 0,
    ensures
        forall|i: int|
            0 <= i < items.len() - 1 ==> #[trigger] answer_at(
                state,
                usage,
                tenant,
                items.drop_last(),
                i,
            ) == answer_at(state, usage, tenant, items, i),
{
    let front = items.drop_last();
    assert forall|i: int| 0 <= i < front.len() implies #[trigger] answer_at(
        state,
        usage,
        tenant,
        front,
        i,
    ) == answer_at(state, usage, tenant, items, i) by {
        assert(front.take(i) =~= items.take(i));
    }
}

/// One item more.
#[verifier::spinoff_prover]
#[verifier::rlimit(60)]
proof fn lemma_passes_on<B>(
    state: StreamState,
    usage: UsageMap,
    tenant: Seq<char>,
    items: Seq<Received<B>>,
    k: int,
)
    requires
        items.len() > 0,
        passes_on(state, usage, tenant, items.drop_last(), k),
        answer_at(state, usage, tenant, items, items.len() - 1) is Some,
    ensures
        exists|k: int| passes_on(state, usage, tenant, items, k),
{
    let front = items.drop_last();
    let end = items.len() - 1;
    let (before, used, out) = streamed(state, usage, tenant, front);
    let (after, left, all) = streamed(state, usage, tenant, items);
    let answer = handled(before, used, tenant, items.last()).2;
    assert(items.take(end) =~= front);
    lemma_handled(before, used, tenant, items.last());
    lemma_answers_of_front(state, usage, tenant, items);
    assert forall|i: int| 0 <= i < k implies {
        &&& (#[trigger] items[i]) matches Received::Chunk { raw, arrival }
        &&& all[i] == Output::Chunk(raw)
        &&& answer_at(state, usage, tenant, items, i) == Some(Some(Output::Chunk(raw)))
    } by {
        assert(front[i] == items[i]);
        assert(answer_at(state, usage, tenant, front, i) == answer_at(
            state,
            usage,
            tenant,
            items,
            i,
        ));
    }
    if k < front.len() {
        assert(answer_at(state, usage, tenant, front, k) == answer_at(
            state,
            usage,
            tenant,
            items,
            k,
        ));
        assert(items.take(k + 1) =~= front.take(k + 1));
        assert(items[k] == front[k]);
        assert(all == out);
        assert(passes_on(state, usage, tenant, items, k));
    } else {
        assert(answer_at(state, usage, tenant, items, end) == answer);
        assert(all == out.push(answer->0->0));
        assert(items.take(end + 1) =~= items);
        if after.ended {
            assert(passes_on(state, usage, tenant, items, end));
        } else {
            assert(passes_on(state, usage, tenant, items, end + 1));
        }
    }
}

/// What a stream puts out is a first part of what it receives, unchanged and in
/// order, and after that at most one thing more: the event that the budget is
/// exceeded, or an error of the recording or of the upstream provider. That comes if
/// and only if not everything is passed on; after it nothing is recorded.
pub proof fn a_stream_puts_out_a_first_part_and_one_end<B>(
    state: StreamState,
    usage: UsageMap,
    tenant: Seq<char>,
    items: Seq<Received<B>>,
)
    requires
        !state.ended,
        forall|i: int|
            0 <= i < items.len() ==> #[trigger] answer_at(state, usage, tenant, items, i) is Some,
    ensures
        exists|k: int| passes_on(state, usage, tenant, items, k),
    decreases items.len(),
{
    if items.len() == 0 {
        assert(passes_on(state, usage, tenant, items, 0));
    } else {
        let front = items.drop_last();
        lemma_answers_of_front(state, usage, tenant, items);
        assert forall|i: int| 0 <= i < front.len() implies #[trigger] answer_at(
            state,
            usage,
            tenant,
            front,
            i,
        ) is Some by {
            assert(answer_at(state, usage, tenant, items, i) is Some);
        }
        a_stream_puts_out_a_first_part_and_one_end(state, usage, tenant, front);
        let k = choose|k: int| passes_on(state, usage, tenant, front, k);
        lemma_passes_on(state, usage, tenant, items, k);
    }
}

/// What is put out for a chunk tells what its recording said: the chunk itself that
/// the tenant is within its budget, the event that the recording went over the
/// ceiling, and an error that the recording failed.
pub proof fn the_output_tells_what_the_recording_said<B>(
    state: StreamState,
    usage: UsageMap,
    tenant: Seq<char>,
    raw: B,
    arrival: Arrival,
)
    requires
        !state.ended,
        recorded_after(state.recorded, arrival.cost) <= u64::MAX,
    ensures
        ({
            let delta = delta_of(state.recorded, arrival.cost);
            let answer = recording(usage, arrival.limit, tenant, delta, arrival.now_ms).1;
            let item = Received::Chunk { raw, arrival };
            handled(state, usage, tenant, item).2 == (match answer {
                Ok(Some(true)) => Some(Some(Output::Chunk(raw))),
                Ok(Some(false)) => Some(Some(Output::BudgetExceeded)),
                Ok(None) => None,
                Err(error) => Some(Some(Output::Error(error))),
            })
        }),
{
    reveal(handled);
}

/// A chunk for which the provider gives no total is charged the tokens that are
/// estimated for it, all of them and whatever else is known of it: so many are
/// recorded against the tenant, and by so many the stream's own count rises. What the recording answers decides: the
/// chunk is passed on, trips the stream, or fails it with the error.
pub proof fn a_chunk_is_charged_its_estimate(
    state: StreamState,
    usage: UsageMap,
    limit: Option<BudgetLimit>,
    tenant: Seq<char>,
    cost: ChunkCost,
    now_ms: int,
)
    requires
        !state.ended,
        cost.authoritative_total is None,
    ensures
        ({
            let tokens = cost.estimated_tokens as nat;
            let (left, answer) = recording(usage, limit, tenant, tokens, now_ms);
            let (after, used, verdict) = judgement(state, usage, limit, tenant, cost, now_ms);
            if state.recorded + tokens <= u64::MAX && answer != Ok::<Option<bool>, WeirError>(
                None,
            ) {
                &&& answer == Ok::<Option<bool>, WeirError>(Some(true)) ==> verdict == Some(
                    Verdict::Forward,
                )
                &&& answer == Ok::<Option<bool>, WeirError>(Some(false)) ==> verdict == Some(
                    Verdict::Trip,
                )
                &&& answer matches Err(error) ==> verdict == Some(Verdict::Fail(error))
                &&& used == left
                &&& after.recorded == state.recorded + tokens
                &&& after.ended == (answer != Ok::<Option<bool>, WeirError>(Some(true)))
            } else {
                verdict is None && used == usage && after == state
            }
        }),
{
}

/// A chunk with which the provider gives a total is charged what the total has above
/// what is recorded of the stream, and nothing where it has not; and the total is what
/// is recorded of the stream from there on.
pub proof fn a_chunk_is_charged_up_to_the_total(
    state: StreamState,
    usage: UsageMap,
    limit: Option<BudgetLimit>,
    tenant: Seq<char>,
    cost: ChunkCost,
    now_ms: int,
    total: u64,
)
    requires
        !state.ended,
        cost.authoritative_total == Some(total),
    ensures
        ({
            let tokens: nat = if total <= state.recorded {
                0
            } else {
                (total - state.recorded) as nat
            };
            let (left, answer) = recording(usage, limit, tenant, tokens, now_ms);
            let (after, used, verdict) = judgement(state, usage, limit, tenant, cost, now_ms);
            if answer != Ok::<Option<bool>, WeirError>(None) {
                &&& answer == Ok::<Option<bool>, WeirError>(Some(true)) ==> verdict == Some(
                    Verdict::Forward,
                )
                &&& answer == Ok::<Option<bool>, WeirError>(Some(false)) ==> verdict == Some(
                    Verdict::Trip,
                )
                &&& answer matches Err(error) ==> verdict == Some(Verdict::Fail(error))
                &&& used == left
                &&& after.recorded == total
                &&& after.ended == (answer != Ok::<Option<bool>, WeirError>(Some(true)))
            } else {
                verdict is None && used == usage && after == state
            }
        }),
{
}

/// A chunk without a total is passed on if and only if the tenant's total with the
/// chunk's estimate is at or below the ceiling, and trips the stream otherwise. Either
/// way the tenant's total has gone up by the estimate.
pub proof fn an_estimate_is_held_to_the_ceiling(
    state: StreamState,
    usage: UsageMap,
    limit: BudgetLimit,
    tenant: Seq<char>,
    cost: ChunkCost,
    now_ms: int,
)
    requires
        !state.ended,
        cost.authoritative_total is None,
        state.recorded + cost.estimated_tokens <= u64::MAX,
        counter_under(usage, tenant, limit.window).countable(
            cost.estimated_tokens as nat,
            now_ms,
        ),
    ensures
        ({
            let before = counter_under(usage, tenant, limit.window).estimated(now_ms);
            let (after, left, verdict) = judgement(
                state,
                usage,
                Some(limit),
                tenant,
                cost,
                now_ms,
            );
            let within = before + cost.estimated_tokens <= limit.max_tokens;
            &&& within ==> verdict == Some(Verdict::Forward) && !after.ended
            &&& !within ==> verdict == Some(Verdict::Trip) && after.ended
            &&& after.recorded == state.recorded + cost.estimated_tokens
            &&& counter_under(left, tenant, limit.window).estimated(now_ms) == before
                + cost.estimated_tokens
        }),
{
    only_chunks_within_budget_are_forwarded(state, usage, limit, tenant, cost, now_ms);
}

/// A chunk with a total is passed on if and only if the tenant's total, with what the
/// chunk's total has above what is recorded of the stream, is at or below the ceiling.
pub proof fn a_total_is_held_to_the_ceiling(
    state: StreamState,
    usage: UsageMap,
    limit: BudgetLimit,
    tenant: Seq<char>,
    cost: ChunkCost,
    now_ms: int,
    total: u64,
    more: nat,
)
    requires
        !state.ended,
        cost.authoritative_total == Some(total),
        more == if total >= state.recorded {
            total - state.recorded
        } else {
            0
        },
        counter_under(usage, tenant, limit.window).countable(more, now_ms),
    ensures
        ({
            let before = counter_under(usage, tenant, limit.window).estimated(now_ms);
            let (after, left, verdict) = judgement(
                state,
                usage,
                Some(limit),
                tenant,
                cost,
                now_ms,
            );
            let within = before + more <= limit.max_tokens;
            &&& within ==> verdict == Some(Verdict::Forward) && !after.ended
            &&& !within ==> verdict == Some(Verdict::Trip) && after.ended
            &&& after.recorded == total
            &&& counter_under(left, tenant, limit.window).estimated(now_ms) == before + more
        }),
{
    only_chunks_within_budget_are_forwarded(state, usage, limit, tenant, cost, now_ms);
}

/// A stream that has ended is done, whatever comes: nothing is recorded and nothing
/// changes.
pub proof fn an_ended_stream_is_done(
    state: StreamState,
    usage: UsageMap,
    limit: Option<BudgetLimit>,
    tenant: Seq<char>,
    cost: ChunkCost,
    now_ms: int,
)
    requires
        state.ended,
    ensures
        judgement(state, usage, limit, tenant, cost, now_ms) == (
            state,
            usage,
            Some(Verdict::Done),
        ),
{
}

/// Each verdict has an output of its own: a chunk that is passed on comes out as it
/// came, one that trips the stream as the event, one that fails it as the error, and
/// of a stream that is done nothing comes.
pub proof fn verdicts_come_out_as_they_are<B>(verdict: Verdict, raw: B)
    ensures
        verdict is Forward <==> verdict.output(raw) == Some(Output::Chunk(raw)),
        verdict is Trip <==> verdict.output(raw) == Some(Output::<B>::BudgetExceeded),
        verdict is Done <==> verdict.output(raw) is None,
        verdict matches Verdict::Fail(error) ==> verdict.output(raw) == Some(
            Output::<B>::Error(error),
        ),
{
}

} // verus!
