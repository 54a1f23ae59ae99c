//! What Anthropic's answers cost.

use crate::provider::sse::{
    cutting_bytes_between_lines_changes_nothing, cutting_lossy_bytes_between_lines_changes_nothing,
    data_payloads, lossy_text, payloads_in, payloads_of,
};
use crate::provider::tokenizer::{encodes, ordinary_tokens, Tokenizer};
use crate::provider::{texts, ChunkCost, NonStreamingCost};
use std::sync::Arc;
use tiktoken_rs::CoreBPE;
use vstd::prelude::*;
use vstd::utf8::valid_utf8;

verus! {

/// An event of a streamed answer, as far as its cost depends on it.
#[derive(Debug)]
pub enum AnthropicEvent {
    /// The answer starts, and the input it answers has been counted.
    MessageStart { message: AnthropicMessageStart },
    /// A part of the answer starts.
    ContentBlockStart { content_block: AnthropicContentBlockStart },
    /// A part of the answer goes on.
    ContentBlockDelta { delta: AnthropicDelta },
    /// The output so far has been counted.
    MessageDelta { usage: AnthropicOutputUsage },
    /// Anything else.
    Other,
}

/// The part of an answer that starts.
#[derive(Debug)]
pub enum AnthropicContentBlockStart {
    /// The use of the tool of this name.
    ToolUse { name: String },
    /// Anything else.
    Other,
}

/// The start of an answer.
#[derive(Debug)]
pub struct AnthropicMessageStart {
    pub usage: AnthropicInputUsage,
}

/// The tokens of the input.
#[derive(Debug)]
pub struct AnthropicInputUsage {
    pub input_tokens: u64,
}

/// A fragment of an answer.
#[derive(Debug)]
pub struct AnthropicDelta {
    pub text: Option<String>,
    // Present on tool-use content blocks: incremental fragments of the tool
    // call's JSON input, streamed the same way `text` is streamed for a text
    // content block. Counted too, or a tool-call-heavy stream's interim
    // estimate stays near zero.
    pub partial_json: Option<String>,
}

/// The tokens of the output.
#[derive(Debug)]
pub struct AnthropicOutputUsage {
    pub output_tokens: u64,
}

/// A complete answer, as far as its cost depends on it.
#[derive(Debug)]
pub struct NonStreamingResponse {
    pub content: Vec<NonStreamingContentBlock>,
    pub usage: NonStreamingUsage,
}

/// A part of a complete answer.
#[derive(Debug)]
pub enum NonStreamingContentBlock {
    /// The use of the tool of this name.
    ToolUse { name: String },
    /// Anything else.
    Other,
}

/// The tokens of a complete answer.
#[derive(Debug)]
pub struct NonStreamingUsage {
    pub input_tokens: u64,
    pub output_tokens: u64,
}

/// How many tokens a text has, if there is one.
pub open spec fn tokens_of(tokenizer: CoreBPE, text: Option<String>) -> nat {
    match text {
        Some(text) => ordinary_tokens(tokenizer, text@).len(),
        None => 0,
    }
}

/// A text, if there is one, can be counted.
pub open spec fn is_countable(tokenizer: CoreBPE, text: Option<String>) -> bool {
    text matches Some(text) ==> encodes(tokenizer, text@)
}

/// The texts of an event can be counted.
pub open spec fn texts_countable(tokenizer: CoreBPE, event: Option<AnthropicEvent>) -> bool {
    event matches Some(AnthropicEvent::ContentBlockDelta { delta }) ==> is_countable(
        tokenizer,
        delta.text,
    ) && is_countable(tokenizer, delta.partial_json)
}

/// How many tokens an event adds to the answer, by the tokenizer's count. A
/// payload that is no event adds none.
pub open spec fn event_tokens(tokenizer: CoreBPE, event: Option<AnthropicEvent>) -> nat {
    match event {
        Some(AnthropicEvent::ContentBlockDelta { delta }) => tokens_of(tokenizer, delta.text)
            + tokens_of(tokenizer, delta.partial_json),
        _ => 0,
    }
}

/// How many tokens events add to the answer.
pub open spec fn estimate(tokenizer: CoreBPE, events: Seq<Option<AnthropicEvent>>) -> nat
    decreases events.len(),
{
    if events.len() == 0 {
        0
    } else {
        estimate(tokenizer, events.drop_last()) + event_tokens(tokenizer, events.last())
    }
}

/// The tokens of the input once events have come: as the last start of an
/// answer says, or as known before.
pub open spec fn input_after(input: nat, events: Seq<Option<AnthropicEvent>>) -> nat
    decreases events.len(),
{
    if events.len() == 0 {
        input
    } else {
        match events.last() {
            Some(
                AnthropicEvent::MessageStart { message },
            ) => message.usage.input_tokens as nat,
            _ => input_after(input, events.drop_last()),
        }
    }
}

/// The tokens of the whole exchange as the last event to count them says: the
/// input at the start of an answer, and input and output later on.
pub open spec fn total_after(input: nat, events: Seq<Option<AnthropicEvent>>) -> Option<nat>
    decreases events.len(),
{
    if events.len() == 0 {
        None
    } else {
        let front = events.drop_last();
        match events.last() {
            Some(
                AnthropicEvent::MessageStart { message },
            ) => Some(message.usage.input_tokens as nat),
            Some(AnthropicEvent::MessageDelta { usage }) => Some(
                input_after(input, front) + usage.output_tokens as nat,
            ),
            _ => total_after(input, front),
        }
    }
}

/// The names of the tools that events start to use, in order.
pub open spec fn tools_used(events: Seq<Option<AnthropicEvent>>) -> Seq<Seq<char>>
    decreases events.len(),
{
    if events.len() == 0 {
        Seq::empty()
    } else {
        let front = tools_used(events.drop_last());
        match events.last() {
            Some(
                AnthropicEvent::ContentBlockStart {
                    content_block: AnthropicContentBlockStart::ToolUse { name },
                },
            ) => front.push(name@),
            _ => front,
        }
    }
}

/// The texts of the events can be counted, and no sum over them leaves the range of a
/// `u64`.
pub open spec fn priceable(
    tokenizer: CoreBPE,
    input: nat,
    events: Seq<Option<AnthropicEvent>>,
) -> bool
    decreases events.len(),
{
    events.len() > 0 ==> {
        &&& priceable(tokenizer, input, events.drop_last())
        &&& texts_countable(tokenizer, events.last())
        &&& estimate(tokenizer, events) <= u64::MAX
        &&& total_after(input, events) matches Some(total) ==> total <= u64::MAX
    }
}

/// The count of a total, where there is one.
pub open spec fn as_count(total: Option<u64>) -> Option<nat> {
    match total {
        Some(total) => Some(total as nat),
        None => None,
    }
}

/// What events cost an adapter that knows of `input` tokens, and what it knows
/// afterwards. There is no cost, and nothing is learnt, where the events have no
/// price.
pub open spec fn costs(
    tokenizer: CoreBPE,
    input: nat,
    events: Seq<Option<AnthropicEvent>>,
    cost: Option<ChunkCost>,
    input_now: nat,
) -> bool {
    match cost {
        Some(cost) => {
            &&& priceable(tokenizer, input, events)
            &&& cost.estimated_tokens == estimate(tokenizer, events)
            &&& as_count(cost.authoritative_total) == total_after(input, events)
            &&& texts(cost.tool_calls@) == tools_used(events)
            &&& input_now == input_after(input, events)
        },
        None => !priceable(tokenizer, input, events) && input_now == input,
    }
}

/// The names of the tools that the parts of an answer use, in order.
pub open spec fn tools_in(blocks: Seq<NonStreamingContentBlock>) -> Seq<Seq<char>>
    decreases blocks.len(),
{
    if blocks.len() == 0 {
        Seq::empty()
    } else {
        let front = tools_in(blocks.drop_last());
        match blocks.last() {
            NonStreamingContentBlock::ToolUse { name } => front.push(name@),
            NonStreamingContentBlock::Other => front,
        }
    }
}

/// What a complete answer costs: the input and output together, and the tools
/// that it uses. What is no answer has no total and uses no tools. There is no
/// cost where the sum leaves the range of a `u64`.
pub open spec fn response_costs(
    response: Option<NonStreamingResponse>,
    cost: Option<NonStreamingCost>,
) -> bool {
    match response {
        Some(parsed) => {
            let total = parsed.usage.input_tokens + parsed.usage.output_tokens;
            match cost {
                Some(cost) => {
                    &&& total <= u64::MAX
                    &&& cost.total_tokens == Some(total as u64)
                    &&& texts(cost.tool_calls@) == tools_in(parsed.content@)
                },
                None => total > u64::MAX,
            }
        },
        None => cost matches Some(cost) && cost.total_tokens is None && cost.tool_calls@.len() == 0,
    }
}

/// `event` is what `decode` may make of a payload.
pub open spec fn decodes_to<F: Fn(&str) -> Option<AnthropicEvent>>(
    decode: F,
    text: Seq<char>,
    event: Option<AnthropicEvent>,
) -> bool {
    exists|payload: &str| payload@ == text && #[trigger] call_ensures(decode, (payload,), event)
}

/// `events` are what `decode` makes of the payloads, one by one.
pub open spec fn decoded<F: Fn(&str) -> Option<AnthropicEvent>>(
    decode: F,
    payloads: Seq<Seq<char>>,
    events: Seq<Option<AnthropicEvent>>,
) -> bool {
    &&& events.len() == payloads.len()
    &&& forall|i: int|
        0 <= i < events.len() ==> decodes_to(decode, payloads[i], #[trigger] events[i])
}

/// What a chunk costs whose data lines hold these payloads, if `decode` makes the
/// events of them.
pub open spec fn chunk_costs<F: Fn(&str) -> Option<AnthropicEvent>>(
    decode: F,
    tokenizer: CoreBPE,
    input: nat,
    payloads: Seq<Seq<char>>,
    cost: Option<ChunkCost>,
    input_now: nat,
) -> bool {
    exists|events: Seq<Option<AnthropicEvent>>| #[trigger]
        decoded(decode, payloads, events) && costs(tokenizer, input, events, cost, input_now)
}

/// `decode` makes no two things of one payload.
pub open spec fn is_deterministic<F: Fn(&str) -> Option<AnthropicEvent>>(decode: F) -> bool {
    forall|text: Seq<char>, one: Option<AnthropicEvent>, other: Option<AnthropicEvent>|
        #![trigger decodes_to(decode, text, one), decodes_to(decode, text, other)]
        decodes_to(decode, text, one) && decodes_to(decode, text, other) ==> one == other
}

/// Prices Anthropic's answers.
pub struct AnthropicAdapter {
    tokenizer: Arc<Tokenizer>,
    input_tokens: u64,
}

impl AnthropicAdapter {
    /// The tokenizer that texts are counted with.
    pub closed spec fn tokenizer(self) -> CoreBPE {
        self.tokenizer.bpe()
    }

    /// The tokens of the input, as far as known.
    pub closed spec fn input(self) -> nat {
        self.input_tokens as nat
    }

    /// An adapter that knows of no input yet.
    pub fn new(tokenizer: Arc<Tokenizer>) -> (adapter: Self)
        ensures
            adapter.tokenizer() == tokenizer.bpe(),
            adapter.input() == 0,
    {
        AnthropicAdapter { tokenizer, input_tokens: 0 }
    }

    /// How many tokens a text has, if there is one, unless it cannot be counted.
    fn count(&self, text: &Option<String>) -> (tokens: Option<usize>)
        ensures
            match tokens {
                Some(tokens) => {
                    &&& is_countable(self.tokenizer(), *text)
                    &&& tokens == tokens_of(self.tokenizer(), *text)
                },
                None => !is_countable(self.tokenizer(), *text),
            },
    {
        match text {
            Some(text) => self.tokenizer.count(text.as_str()),
            None => Some(0),
        }
    }

    /// `before` and the tokens of a fragment of an answer, unless that does not fit
    /// or a text cannot be counted.
    fn with_delta(&self, before: u64, delta: &AnthropicDelta) -> (sum: Option<u64>)
        ensures
            ({
                let total = before + tokens_of(self.tokenizer(), delta.text) + tokens_of(
                    self.tokenizer(),
                    delta.partial_json,
                );
                match sum {
                    Some(sum) => {
                        &&& is_countable(self.tokenizer(), delta.text)
                        &&& is_countable(self.tokenizer(), delta.partial_json)
                        &&& sum == total
                    },
                    None => {
                        ||| !is_countable(self.tokenizer(), delta.text)
                        ||| !is_countable(self.tokenizer(), delta.partial_json)
                        ||| total > u64::MAX
                    },
                }
            }),
    {
        let text: usize = match self.count(&delta.text) {
            Some(tokens) => tokens,
            None => return None,
        };
        let json: usize = match self.count(&delta.partial_json) {
            Some(tokens) => tokens,
            None => return None,
        };
        match before.checked_add(text as u64) {
            Some(sum) => sum.checked_add(json as u64),
            None => None,
        }
    }

    /// What events cost.
    pub fn events_cost(&mut self, events: Vec<Option<AnthropicEvent>>) -> (cost: Option<ChunkCost>)
        ensures
            costs(old(self).tokenizer(), old(self).input(), events@, cost, final(self).input()),
            final(self).tokenizer() == old(self).tokenizer(),
    {
        let ghost all = events@;
        let ghost input = self.input();
        let ghost bpe = self.tokenizer();
        let mut input_tokens: u64 = self.input_tokens;
        let mut estimated_tokens: u64 = 0;
        let mut authoritative_total: Option<u64> = None;
        let mut tool_calls: Vec<String> = Vec::new();
        assert(texts(tool_calls@) =~= tools_used(all.take(0)));
        for event in rest: events.into_iter()
            invariant
                rest.seq() == all,
                *self == *old(self),
                bpe == self.tokenizer(),
                input == self.input(),
                priceable(bpe, input, all.take(rest.index() as int)),
                input_tokens == input_after(input, all.take(rest.index() as int)),
                estimated_tokens == estimate(bpe, all.take(rest.index() as int)),
                as_count(authoritative_total) == total_after(input, all.take(rest.index() as int)),
                texts(tool_calls@) == tools_used(all.take(rest.index() as int)),
        {
            let ghost index = rest.index() as int;
            let ghost seen = all.take(index + 1);
            proof {
                assert(seen.drop_last() =~= all.take(index));
                assert(seen.last() == event);
            }
            match event {
                Some(AnthropicEvent::MessageStart { message }) => {
                    input_tokens = message.usage.input_tokens;
                    authoritative_total = Some(input_tokens);
                },
                Some(AnthropicEvent::ContentBlockStart { content_block }) => {
                    if let AnthropicContentBlockStart::ToolUse { name } = content_block {
                        let ghost before = tool_calls@;
                        tool_calls.push(name);
                        assert(texts(tool_calls@) =~= texts(before).push(name@));
                    }
                },
                Some(AnthropicEvent::ContentBlockDelta { delta }) => {
                    match self.with_delta(estimated_tokens, &delta) {
                        Some(sum) => {
                            estimated_tokens = sum;
                        },
                        None => {
                            proof {
                                lemma_priceable(bpe, input, all, index + 1);
                            }
                            return None;
                        },
                    }
                },
                Some(AnthropicEvent::MessageDelta { usage }) => {
                    match input_tokens.checked_add(usage.output_tokens) {
                        Some(total) => {
                            authoritative_total = Some(total);
                        },
                        None => {
                            proof {
                                lemma_priceable(bpe, input, all, index + 1);
                            }
                            return None;
                        },
                    }
                },
                Some(AnthropicEvent::Other) => {},
                None => {},
            }
        }
        assert(all.take(all.len() as int) =~= all);
        self.input_tokens = input_tokens;
        Some(ChunkCost { estimated_tokens, authoritative_total, tool_calls })
    }

    /// What a chunk of server-sent events costs, where `decode` makes an event
    /// of what a data line holds, if it is one.
    pub fn chunk_cost(
        &mut self,
        raw: &[u8],
        decode: impl Fn(&str) -> Option<AnthropicEvent>,
    ) -> (cost: Option<ChunkCost>)
        requires
            forall|payload: &str| call_requires(decode, (payload,)),
        ensures
            chunk_costs(
                decode,
                old(self).tokenizer(),
                old(self).input(),
                payloads_of(raw@),
                cost,
                final(self).input(),
            ),
            valid_utf8(raw@) ==> chunk_costs(
                decode,
                old(self).tokenizer(),
                old(self).input(),
                payloads_in(raw@),
                cost,
                final(self).input(),
            ),
            final(self).tokenizer() == old(self).tokenizer(),
    {
        let payloads = data_payloads(raw);
        let mut events: Vec<Option<AnthropicEvent>> = Vec::new();
        let mut i: usize = 0;
        while i < payloads.len()
            invariant
                i <= payloads.len(),
                texts(payloads@) == payloads_of(raw@),
                valid_utf8(raw@) ==> payloads_of(raw@) == payloads_in(raw@),
                forall|payload: &str| call_requires(decode, (payload,)),
                decoded(decode, payloads_of(raw@).take(i as int), events@),
                *self == *old(self),
            decreases payloads.len() - i,
        {
            let ghost before = events@;
            let payload = payloads[i].as_str();
            let event = decode(payload);
            events.push(event);
            proof {
                let all = payloads_of(raw@);
                assert(all[i as int] == texts(payloads@)[i as int]);
                assert(decodes_to(decode, all[i as int], event));
                assert forall|k: int| 0 <= k < events@.len() implies decodes_to(
                    decode,
                    all.take(i + 1)[k],
                    #[trigger] events@[k],
                ) by {
                    if k < i {
                        assert(before[k] == events@[k]);
                    }
                }
            }
            i = i + 1;
        }
        proof {
            assert(payloads_of(raw@).take(i as int) =~= payloads_of(raw@));
        }
        self.events_cost(events)
    }

    /// What a complete answer costs, or that it is no answer at all.
    pub fn response_cost(&self, response: Option<NonStreamingResponse>) -> (cost: Option<
        NonStreamingCost,
    >)
        ensures
            response_costs(response, cost),
    {
        let parsed = match response {
            Some(parsed) => parsed,
            None => return Some(NonStreamingCost { total_tokens: None, tool_calls: Vec::new() }),
        };
        let total: u64 = match parsed.usage.input_tokens.checked_add(parsed.usage.output_tokens) {
            Some(total) => total,
            None => return None,
        };
        let ghost blocks = parsed.content@;
        let mut tool_calls: Vec<String> = Vec::new();
        assert(texts(tool_calls@) =~= tools_in(blocks.take(0)));
        for block in rest: parsed.content.into_iter()
            invariant
                rest.seq() == blocks,
                texts(tool_calls@) == tools_in(blocks.take(rest.index() as int)),
        {
            assert(blocks.take(rest.index() + 1).drop_last() =~= blocks.take(rest.index() as int));
            if let NonStreamingContentBlock::ToolUse { name } = block {
                let ghost before = tool_calls@;
                tool_calls.push(name);
                assert(texts(tool_calls@) =~= texts(before).push(name@));
            }
        }
        assert(blocks.take(blocks.len() as int) =~= blocks);
        Some(NonStreamingCost { total_tokens: Some(total), tool_calls })
    }

    /// What a complete answer costs, where `decode` takes the body apart, if it
    /// is an answer.
    pub fn non_streaming_cost(
        &self,
        body: &[u8],
        decode: impl FnOnce(&[u8]) -> Option<NonStreamingResponse>,
    ) -> (cost: Option<NonStreamingCost>)
        requires
            call_requires(decode, (body,)),
        ensures
            exists|response: Option<NonStreamingResponse>|
                #[trigger] call_ensures(decode, (body,), response) && response_costs(
                    response,
                    cost,
                ),
    {
        let response = decode(body);
        self.response_cost(response)
    }
}

/// Where some of the events have no price, all of them have none.
proof fn lemma_priceable(
    tokenizer: CoreBPE,
    input: nat,
    events: Seq<Option<AnthropicEvent>>,
    count: int,
)
    requires
        0 <= count <= events.len(),
        !priceable(tokenizer, input, events.take(count)),
    ensures
        !priceable(tokenizer, input, events),
    decreases events.len() - count,
{
    if count < events.len() {
        let more = events.take(count + 1);
        assert(more.drop_last() =~= events.take(count));
        assert(!priceable(tokenizer, input, more));
        lemma_priceable(tokenizer, input, events, count + 1);
    } else {
        assert(events.take(count) =~= events);
    }
}

/// Where a stream of events is cut into chunks does not matter: the estimates
/// add up, the tools follow one another, and the totals are those of the stream.
pub proof fn cutting_a_stream_into_chunks_changes_nothing(
    tokenizer: CoreBPE,
    input: nat,
    first: Seq<Option<AnthropicEvent>>,
    second: Seq<Option<AnthropicEvent>>,
)
    ensures
        estimate(tokenizer, first + second) == estimate(tokenizer, first) + estimate(
            tokenizer,
            second,
        ),
        tools_used(first + second) == tools_used(first) + tools_used(second),
        input_after(input, first + second) == input_after(input_after(input, first), second),
        total_after(input, first + second) == (match total_after(
            input_after(input, first),
            second,
        ) {
            Some(total) => Some(total),
            None => total_after(input, first),
        }),
    decreases second.len(),
{
    let both = first + second;
    if second.len() == 0 {
        assert(both =~= first);
        assert(tools_used(first) + tools_used(second) =~= tools_used(first));
    } else {
        assert(both.drop_last() =~= first + second.drop_last());
        assert(both.last() == second.last());
        cutting_a_stream_into_chunks_changes_nothing(tokenizer, input, first, second.drop_last());
        assert(tools_used(both) =~= tools_used(first) + tools_used(second));
    }
}

/// Each tool that is reported is the name in an event that starts its use, so
/// nothing of a call's arguments, nor of any text, is reported.
pub proof fn only_tool_names_are_reported(events: Seq<Option<AnthropicEvent>>, k: int)
    requires
        0 <= k < tools_used(events).len(),
    ensures
        exists|i: int|
            0 <= i < events.len() && (#[trigger] events[i] matches Some(
                AnthropicEvent::ContentBlockStart {
                    content_block: AnthropicContentBlockStart::ToolUse { name },
                },
            ) && name@ == tools_used(events)[k]),
    decreases events.len(),
{
    let front = events.drop_last();
    if k < tools_used(front).len() {
        only_tool_names_are_reported(front, k);
        let i = choose|i: int|
            0 <= i < front.len() && (#[trigger] front[i] matches Some(
                AnthropicEvent::ContentBlockStart {
                    content_block: AnthropicContentBlockStart::ToolUse { name },
                },
            ) && name@ == tools_used(front)[k]);
        assert(events[i] == front[i]);
    } else {
        assert(events[events.len() - 1] == events.last());
    }
}

/// The cost of a chunk, and what the adapter knows of the input afterwards.
pub struct Priced {
    pub cost: ChunkCost,
    pub input: nat,
}

/// A chunk costs what its parts cost one after the other: the estimates add up, the
/// tools follow one another, the last total counts, and the adapter knows the same
/// input afterwards.
pub open spec fn adds_up(whole: Priced, first: Priced, second: Priced) -> bool {
    &&& whole.cost.estimated_tokens == first.cost.estimated_tokens + second.cost.estimated_tokens
    &&& texts(whole.cost.tool_calls@) == texts(first.cost.tool_calls@) + texts(
        second.cost.tool_calls@,
    )
    &&& whole.cost.authoritative_total == (match second.cost.authoritative_total {
        Some(total) => Some(total),
        None => first.cost.authoritative_total,
    })
    &&& whole.input == second.input
}

/// Payloads that come in two parts cost together what they cost at once.
proof fn lemma_payloads_in_parts<F: Fn(&str) -> Option<AnthropicEvent>>(
    decode: F,
    tokenizer: CoreBPE,
    input: nat,
    first_payloads: Seq<Seq<char>>,
    second_payloads: Seq<Seq<char>>,
    whole: Priced,
    first: Priced,
    second: Priced,
)
    requires
        is_deterministic(decode),
        chunk_costs(
            decode,
            tokenizer,
            input,
            first_payloads + second_payloads,
            Some(whole.cost),
            whole.input,
        ),
        chunk_costs(decode, tokenizer, input, first_payloads, Some(first.cost), first.input),
        chunk_costs(
            decode,
            tokenizer,
            first.input,
            second_payloads,
            Some(second.cost),
            second.input,
        ),
    ensures
        adds_up(whole, first, second),
{
    let payloads = first_payloads + second_payloads;
    let all = choose|events: Seq<Option<AnthropicEvent>>| #[trigger]
        decoded(decode, payloads, events) && costs(
            tokenizer,
            input,
            events,
            Some(whole.cost),
            whole.input,
        );
    let front = choose|events: Seq<Option<AnthropicEvent>>| #[trigger]
        decoded(decode, first_payloads, events) && costs(
            tokenizer,
            input,
            events,
            Some(first.cost),
            first.input,
        );
    let back = choose|events: Seq<Option<AnthropicEvent>>| #[trigger]
        decoded(decode, second_payloads, events) && costs(
            tokenizer,
            first.input,
            events,
            Some(second.cost),
            second.input,
        );
    let both = front + back;
    assert forall|i: int| 0 <= i < all.len() implies all[i] == both[i] by {
        let text = payloads[i];
        assert(decodes_to(decode, text, all[i]));
        if i < front.len() {
            assert(decodes_to(decode, text, front[i]));
        } else {
            assert(decodes_to(decode, text, back[i - front.len()]));
        }
    }
    assert(all =~= both);
    cutting_a_stream_into_chunks_changes_nothing(tokenizer, input, front, back);
}

/// Where a chunk of UTF-8 is cut between two lines, it costs what its parts cost one
/// after the other.
pub proof fn cutting_a_chunk_between_lines_changes_nothing<F: Fn(&str) -> Option<AnthropicEvent>>(
    decode: F,
    tokenizer: CoreBPE,
    input: nat,
    first_bytes: Seq<u8>,
    second_bytes: Seq<u8>,
    whole: Priced,
    first: Priced,
    second: Priced,
)
    requires
        is_deterministic(decode),
        valid_utf8(first_bytes),
        valid_utf8(second_bytes),
        first_bytes.len() > 0 ==> first_bytes.last() == 0x0a,
        chunk_costs(
            decode,
            tokenizer,
            input,
            payloads_in(first_bytes + second_bytes),
            Some(whole.cost),
            whole.input,
        ),
        chunk_costs(
            decode,
            tokenizer,
            input,
            payloads_in(first_bytes),
            Some(first.cost),
            first.input,
        ),
        chunk_costs(
            decode,
            tokenizer,
            first.input,
            payloads_in(second_bytes),
            Some(second.cost),
            second.input,
        ),
    ensures
        adds_up(whole, first, second),
{
    cutting_bytes_between_lines_changes_nothing(first_bytes, second_bytes);
    lemma_payloads_in_parts(
        decode,
        tokenizer,
        input,
        payloads_in(first_bytes),
        payloads_in(second_bytes),
        whole,
        first,
        second,
    );
}

/// The same of any chunk whose parts decode to one text after the other, whatever in
/// them is not UTF-8.
pub proof fn cutting_a_lossy_chunk_between_lines_changes_nothing<
    F: Fn(&str) -> Option<AnthropicEvent>,
>(
    decode: F,
    tokenizer: CoreBPE,
    input: nat,
    first_bytes: Seq<u8>,
    second_bytes: Seq<u8>,
    whole: Priced,
    first: Priced,
    second: Priced,
)
    requires
        is_deterministic(decode),
        lossy_text(first_bytes + second_bytes) == lossy_text(first_bytes) + lossy_text(
            second_bytes,
        ),
        lossy_text(first_bytes).len() > 0 ==> lossy_text(first_bytes).last() == '\n',
        chunk_costs(
            decode,
            tokenizer,
            input,
            payloads_of(first_bytes + second_bytes),
            Some(whole.cost),
            whole.input,
        ),
        chunk_costs(
            decode,
            tokenizer,
            input,
            payloads_of(first_bytes),
            Some(first.cost),
            first.input,
        ),
        chunk_costs(
            decode,
            tokenizer,
            first.input,
            payloads_of(second_bytes),
            Some(second.cost),
            second.input,
        ),
    ensures
        adds_up(whole, first, second),
{
    cutting_lossy_bytes_between_lines_changes_nothing(first_bytes, second_bytes);
    lemma_payloads_in_parts(
        decode,
        tokenizer,
        input,
        payloads_of(first_bytes),
        payloads_of(second_bytes),
        whole,
        first,
        second,
    );
}

/// A fragment of an answer costs the tokens of its text and those of its partial
/// JSON, all of either that is there, and tells nothing else. It has no cost only where
/// one of them cannot be counted or the two do not fit.
pub proof fn a_fragment_costs_its_tokens(
    tokenizer: CoreBPE,
    input: nat,
    delta: AnthropicDelta,
    cost: Option<ChunkCost>,
    input_now: nat,
)
    requires
        costs(
            tokenizer,
            input,
            seq![Some(AnthropicEvent::ContentBlockDelta { delta })],
            cost,
            input_now,
        ),
    ensures
        ({
            let text: nat = if delta.text is Some {
                ordinary_tokens(tokenizer, delta.text->0@).len()
            } else {
                0
            };
            let json: nat = if delta.partial_json is Some {
                ordinary_tokens(tokenizer, delta.partial_json->0@).len()
            } else {
                0
            };
            &&& input_now == input
            &&& cost matches Some(cost) ==> {
                &&& cost.estimated_tokens == text + json
                &&& cost.authoritative_total is None
                &&& cost.tool_calls@.len() == 0
            }
            &&& cost is None <==> {
                ||| delta.text is Some && !encodes(tokenizer, delta.text->0@)
                ||| delta.partial_json is Some && !encodes(tokenizer, delta.partial_json->0@)
                ||| text + json > u64::MAX
            }
        }),
{
    let event = Some(AnthropicEvent::ContentBlockDelta { delta });
    lemma_one_event(tokenizer, input, event);
    if let Some(cost) = cost {
        assert(texts(cost.tool_calls@).len() == cost.tool_calls@.len());
    }
}

/// The start of an answer tells the tokens of the input, which are the total so far
/// and what the adapter knows from there on. It adds no tokens of its own.
pub proof fn a_start_tells_the_input(
    tokenizer: CoreBPE,
    input: nat,
    message: AnthropicMessageStart,
    cost: Option<ChunkCost>,
    input_now: nat,
)
    requires
        costs(
            tokenizer,
            input,
            seq![Some(AnthropicEvent::MessageStart { message })],
            cost,
            input_now,
        ),
    ensures
        input_now == message.usage.input_tokens,
        cost matches Some(cost) && {
            &&& cost.estimated_tokens == 0
            &&& cost.authoritative_total == Some(message.usage.input_tokens)
            &&& cost.tool_calls@.len() == 0
        },
{
    let event = Some(AnthropicEvent::MessageStart { message });
    lemma_one_event(tokenizer, input, event);
    assert(texts(cost->0.tool_calls@).len() == cost->0.tool_calls@.len());
}

/// A count of the output makes the total: the input that the adapter knows of and the
/// output together. It has no cost only where they do not fit.
pub proof fn an_output_count_makes_the_total(
    tokenizer: CoreBPE,
    input: nat,
    usage: AnthropicOutputUsage,
    cost: Option<ChunkCost>,
    input_now: nat,
)
    requires
        costs(
            tokenizer,
            input,
            seq![Some(AnthropicEvent::MessageDelta { usage })],
            cost,
            input_now,
        ),
    ensures
        input_now == input,
        cost is None <==> input + usage.output_tokens > u64::MAX,
        cost matches Some(cost) ==> {
            &&& cost.estimated_tokens == 0
            &&& cost.authoritative_total == Some((input + usage.output_tokens) as u64)
            &&& cost.tool_calls@.len() == 0
        },
{
    let event = Some(AnthropicEvent::MessageDelta { usage });
    lemma_one_event(tokenizer, input, event);
    if let Some(cost) = cost {
        assert(texts(cost.tool_calls@).len() == cost.tool_calls@.len());
    }
}

/// The start of a tool's use tells the tool's name, and nothing else.
pub proof fn a_tool_use_tells_the_name(
    tokenizer: CoreBPE,
    input: nat,
    name: String,
    cost: Option<ChunkCost>,
    input_now: nat,
)
    requires
        costs(
            tokenizer,
            input,
            seq![
                Some(
                    AnthropicEvent::ContentBlockStart {
                        content_block: AnthropicContentBlockStart::ToolUse { name },
                    },
                ),
            ],
            cost,
            input_now,
        ),
    ensures
        input_now == input,
        cost matches Some(cost) && {
            &&& cost.estimated_tokens == 0
            &&& cost.authoritative_total is None
            &&& cost.tool_calls@.len() == 1
            &&& cost.tool_calls@[0]@ == name@
        },
{
    let event = Some(
        AnthropicEvent::ContentBlockStart {
            content_block: AnthropicContentBlockStart::ToolUse { name },
        },
    );
    lemma_one_event(tokenizer, input, event);
    let reported = cost->0.tool_calls@;
    assert(texts(reported).len() == reported.len());
    assert(texts(reported)[0] == reported[0]@);
}

/// Any other event, and what is no event, costs nothing and tells nothing.
pub proof fn other_events_cost_nothing(
    tokenizer: CoreBPE,
    input: nat,
    event: Option<AnthropicEvent>,
    cost: Option<ChunkCost>,
    input_now: nat,
)
    requires
        event is None || event == Some(AnthropicEvent::Other) || event == Some(
            AnthropicEvent::ContentBlockStart { content_block: AnthropicContentBlockStart::Other },
        ),
        costs(tokenizer, input, seq![event], cost, input_now),
    ensures
        input_now == input,
        cost matches Some(cost) && {
            &&& cost.estimated_tokens == 0
            &&& cost.authoritative_total is None
            &&& cost.tool_calls@.len() == 0
        },
{
    lemma_one_event(tokenizer, input, event);
    assert(texts(cost->0.tool_calls@).len() == cost->0.tool_calls@.len());
}

/// What is said of no events and of one event.
proof fn lemma_one_event(tokenizer: CoreBPE, input: nat, event: Option<AnthropicEvent>)
    ensures
        ({
            let one = seq![event];
            let none = Seq::<Option<AnthropicEvent>>::empty();
            &&& one.drop_last() == none
            &&& one.last() == event
            &&& estimate(tokenizer, one) == event_tokens(tokenizer, event)
            &&& tools_used(none) == Seq::<Seq<char>>::empty()
            &&& input_after(input, none) == input
            &&& total_after(input, none) is None
            &&& priceable(tokenizer, input, none)
        }),
{
    let one = seq![event];
    assert(one.drop_last() =~= Seq::empty());
    assert(estimate(tokenizer, one.drop_last()) == 0);
}

/// No events cost nothing.
pub proof fn no_events_cost_nothing(
    tokenizer: CoreBPE,
    input: nat,
    cost: Option<ChunkCost>,
    input_now: nat,
)
    requires
        costs(tokenizer, input, Seq::<Option<AnthropicEvent>>::empty(), cost, input_now),
    ensures
        input_now == input,
        cost matches Some(cost) && {
            &&& cost.estimated_tokens == 0
            &&& cost.authoritative_total is None
            &&& cost.tool_calls@.len() == 0
        },
{
    assert(texts(cost->0.tool_calls@).len() == cost->0.tool_calls@.len());
}

/// Events have a price if and only if those before and those after any cut have one,
/// and the estimates of the two fit together.
proof fn lemma_priceable_in_parts(
    tokenizer: CoreBPE,
    input: nat,
    first: Seq<Option<AnthropicEvent>>,
    second: Seq<Option<AnthropicEvent>>,
)
    ensures
        priceable(tokenizer, input, first + second) <==> {
            &&& priceable(tokenizer, input, first)
            &&& priceable(tokenizer, input_after(input, first), second)
            &&& estimate(tokenizer, first) + estimate(tokenizer, second) <= u64::MAX
        },
    decreases second.len(),
{
    let both = first + second;
    if second.len() == 0 {
        assert(both =~= first);
        assert(estimate(tokenizer, second) == 0);
        if first.len() == 0 {
            assert(estimate(tokenizer, first) == 0);
        }
    } else {
        let shorter = second.drop_last();
        assert(both.drop_last() =~= first + shorter);
        assert(both.last() == second.last());
        lemma_priceable_in_parts(tokenizer, input, first, shorter);
        cutting_a_stream_into_chunks_changes_nothing(tokenizer, input, first, second);
        cutting_a_stream_into_chunks_changes_nothing(tokenizer, input, first, shorter);
    }
}

/// Events cost what their parts cost one after the other: the estimates add up, the
/// tools follow one another, the last total counts, and the input known is the same.
/// They have a cost if and only if both parts have one and the two estimates fit
/// together.
pub proof fn events_cost_what_their_parts_cost(
    tokenizer: CoreBPE,
    input: nat,
    first: Seq<Option<AnthropicEvent>>,
    second: Seq<Option<AnthropicEvent>>,
    whole_cost: Option<ChunkCost>,
    whole_input: nat,
    first_cost: Option<ChunkCost>,
    first_input: nat,
    second_cost: Option<ChunkCost>,
    second_input: nat,
)
    requires
        costs(tokenizer, input, first + second, whole_cost, whole_input),
        costs(tokenizer, input, first, first_cost, first_input),
        first_cost is Some ==> costs(tokenizer, first_input, second, second_cost, second_input),
    ensures
        whole_cost is Some <==> {
            &&& first_cost is Some
            &&& second_cost is Some
            &&& first_cost->0.estimated_tokens + second_cost->0.estimated_tokens <= u64::MAX
        },
        whole_cost is None ==> whole_input == input,
        whole_cost matches Some(whole) ==> {
            let before = first_cost->0;
            let after = second_cost->0;
            &&& whole.estimated_tokens == before.estimated_tokens + after.estimated_tokens
            &&& after.authoritative_total is Some ==> whole.authoritative_total
                == after.authoritative_total
            &&& after.authoritative_total is None ==> whole.authoritative_total
                == before.authoritative_total
            &&& whole.tool_calls@.len() == before.tool_calls@.len() + after.tool_calls@.len()
            &&& forall|i: int|
                0 <= i < before.tool_calls@.len() ==> (#[trigger] whole.tool_calls@[i])@
                    == before.tool_calls@[i]@
            &&& forall|i: int|
                before.tool_calls@.len() <= i < whole.tool_calls@.len() ==> (
                #[trigger] whole.tool_calls@[i])@ == after.tool_calls@[i
                    - before.tool_calls@.len()]@
            &&& whole_input == second_input
        },
{
    lemma_priceable_in_parts(tokenizer, input, first, second);
    cutting_a_stream_into_chunks_changes_nothing(tokenizer, input, first, second);
    if let Some(whole) = whole_cost {
        let all = whole.tool_calls@;
        let before = first_cost->0.tool_calls@;
        let after = second_cost->0.tool_calls@;
        assert(texts(all) == texts(before) + texts(after));
        assert(texts(all).len() == all.len());
        assert(texts(before).len() == before.len());
        assert(texts(after).len() == after.len());
        assert forall|i: int| 0 <= i < before.len() implies (#[trigger] all[i])@ == before[i]@ by {
            assert(texts(all)[i] == texts(before)[i]);
        }
        assert forall|i: int| before.len() <= i < all.len() implies (#[trigger] all[i])@ == after[i
            - before.len()]@ by {
            assert(texts(all)[i] == texts(after)[i - before.len()]);
        }
    }
}

/// A chunk with one payload costs what the event costs that is made of it, and one
/// without payloads costs what no events cost.
pub proof fn a_payload_costs_what_its_event_costs<F: Fn(&str) -> Option<AnthropicEvent>>(
    decode: F,
    tokenizer: CoreBPE,
    input: nat,
    payload: Seq<char>,
    cost: Option<ChunkCost>,
    input_now: nat,
)
    ensures
        chunk_costs(decode, tokenizer, input, seq![payload], cost, input_now) <==> exists|
            event: Option<AnthropicEvent>,
        | #[trigger]
            decodes_to(decode, payload, event) && costs(
                tokenizer,
                input,
                seq![event],
                cost,
                input_now,
            ),
        chunk_costs(decode, tokenizer, input, Seq::<Seq<char>>::empty(), cost, input_now) <==> costs(
            tokenizer,
            input,
            Seq::<Option<AnthropicEvent>>::empty(),
            cost,
            input_now,
        ),
{
    let one = seq![payload];
    if chunk_costs(decode, tokenizer, input, one, cost, input_now) {
        let events = choose|events: Seq<Option<AnthropicEvent>>| #[trigger]
            decoded(decode, one, events) && costs(tokenizer, input, events, cost, input_now);
        assert(events =~= seq![events[0]]);
        assert(decodes_to(decode, payload, events[0]));
    }
    if exists|event: Option<AnthropicEvent>| #[trigger]
        decodes_to(decode, payload, event) && costs(
            tokenizer,
            input,
            seq![event],
            cost,
            input_now,
        ) {
        let event = choose|event: Option<AnthropicEvent>| #[trigger]
            decodes_to(decode, payload, event) && costs(
                tokenizer,
                input,
                seq![event],
                cost,
                input_now,
            );
        assert(decoded(decode, one, seq![event]));
    }
    let none = Seq::<Seq<char>>::empty();
    let nothing = Seq::<Option<AnthropicEvent>>::empty();
    if chunk_costs(decode, tokenizer, input, none, cost, input_now) {
        let events = choose|events: Seq<Option<AnthropicEvent>>| #[trigger]
            decoded(decode, none, events) && costs(tokenizer, input, events, cost, input_now);
        assert(events =~= nothing);
    }
    assert(decoded(decode, none, nothing));
}

/// A complete answer costs its input and its output together, and has no cost only
/// where they do not fit. What is no answer has no total and no tools.
pub proof fn an_answer_costs_input_and_output(
    response: Option<NonStreamingResponse>,
    cost: Option<NonStreamingCost>,
)
    requires
        response_costs(response, cost),
    ensures
        response matches Some(answer) ==> {
            let total = answer.usage.input_tokens + answer.usage.output_tokens;
            &&& cost is None <==> total > u64::MAX
            &&& cost matches Some(cost) ==> cost.total_tokens == Some(total as u64)
        },
        response is None ==> (cost matches Some(cost) && cost.total_tokens is None
            && cost.tool_calls@.len() == 0),
{
}

/// Of a complete answer with one part the tool is reported that the part uses, and no
/// tool where it uses none; of one without parts, none.
pub proof fn a_part_of_an_answer_reports_its_tool(
    response: NonStreamingResponse,
    cost: NonStreamingCost,
)
    requires
        response_costs(Some(response), Some(cost)),
        response.content@.len() <= 1,
    ensures
        response.content@.len() == 1 ==> (response.content@[0] matches
            NonStreamingContentBlock::ToolUse { name } ==> cost.tool_calls@.len() == 1
            && cost.tool_calls@[0]@ == name@),
        response.content@.len() == 0 || response.content@[0] is Other ==> cost.tool_calls@.len()
            == 0,
{
    let blocks = response.content@;
    let reported = cost.tool_calls@;
    assert(texts(reported).len() == reported.len());
    if blocks.len() == 1 {
        assert(blocks.drop_last() =~= Seq::empty());
        assert(tools_in(blocks.drop_last()) == Seq::<Seq<char>>::empty());
        if blocks[0] is ToolUse {
            assert(texts(reported)[0] == reported[0]@);
        }
    }
}

/// The tools of parts, one after the other.
proof fn lemma_tools_in_both(
    first: Seq<NonStreamingContentBlock>,
    second: Seq<NonStreamingContentBlock>,
)
    ensures
        tools_in(first + second) == tools_in(first) + tools_in(second),
    decreases second.len(),
{
    let both = first + second;
    if second.len() == 0 {
        assert(both =~= first);
        assert(tools_in(first) + Seq::<Seq<char>>::empty() =~= tools_in(first));
    } else {
        assert(both.drop_last() =~= first + second.drop_last());
        assert(both.last() == second.last());
        lemma_tools_in_both(first, second.drop_last());
        assert(tools_in(both) =~= tools_in(first) + tools_in(second));
    }
}

/// Every tool of a complete answer is reported: where its parts are those of two
/// answers one after the other, so are the tools.
pub proof fn an_answer_reports_the_tools_of_all_its_parts(
    whole: NonStreamingResponse,
    first: NonStreamingResponse,
    second: NonStreamingResponse,
    whole_cost: NonStreamingCost,
    first_cost: NonStreamingCost,
    second_cost: NonStreamingCost,
)
    requires
        whole.content@ == first.content@ + second.content@,
        response_costs(Some(whole), Some(whole_cost)),
        response_costs(Some(first), Some(first_cost)),
        response_costs(Some(second), Some(second_cost)),
    ensures
        ({
            let all = whole_cost.tool_calls@;
            let before = first_cost.tool_calls@;
            let after = second_cost.tool_calls@;
            &&& all.len() == before.len() + after.len()
            &&& forall|i: int|
                0 <= i < before.len() ==> (#[trigger] all[i])@ == before[i]@
            &&& forall|i: int|
                before.len() <= i < all.len() ==> (#[trigger] all[i])@ == after[i
                    - before.len()]@
        }),
{
    lemma_tools_in_both(first.content@, second.content@);
    let all = whole_cost.tool_calls@;
    let before = first_cost.tool_calls@;
    let after = second_cost.tool_calls@;
    assert(texts(all) == texts(before) + texts(after));
    assert(texts(all).len() == all.len());
    assert(texts(before).len() == before.len());
    assert(texts(after).len() == after.len());
    assert forall|i: int| 0 <= i < before.len() implies (#[trigger] all[i])@ == before[i]@ by {
        assert(texts(all)[i] == texts(before)[i]);
    }
    assert forall|i: int| before.len() <= i < all.len() implies (#[trigger] all[i])@ == after[i
        - before.len()]@ by {
        assert(texts(all)[i] == texts(after)[i - before.len()]);
    }
}

/// The part at `i` of a complete answer, if it uses a tool, is reported behind the
/// tools of the parts before it, so there are as many tools as parts that use one.
pub proof fn an_answer_reports_as_many_tools_as_it_uses(
    response: NonStreamingResponse,
    cost: NonStreamingCost,
)
    requires
        response_costs(Some(response), Some(cost)),
    ensures
        ({
            let uses_tool = |block: NonStreamingContentBlock| block is ToolUse;
            let blocks = response.content@;
            &&& cost.tool_calls@.len() == blocks.filter(uses_tool).len()
            &&& forall|i: int|
                0 <= i < cost.tool_calls@.len() ==> (blocks.filter(uses_tool)[i] matches
                    NonStreamingContentBlock::ToolUse { name } && (
                #[trigger] cost.tool_calls@[i])@ == name@)
        }),
{
    let uses_tool = |block: NonStreamingContentBlock| block is ToolUse;
    let reported = cost.tool_calls@;
    lemma_tools_are_those_used(response.content@);
    assert(texts(reported).len() == reported.len());
    assert forall|i: int| 0 <= i < reported.len() implies (response.content@.filter(
        uses_tool,
    )[i] matches NonStreamingContentBlock::ToolUse { name } && (#[trigger] reported[i])@
        == name@) by {
        assert(texts(reported)[i] == reported[i]@);
    }
}

/// The tools are the names in the parts that use one.
proof fn lemma_tools_are_those_used(blocks: Seq<NonStreamingContentBlock>)
    ensures
        ({
            let used = blocks.filter(|block: NonStreamingContentBlock| block is ToolUse);
            &&& tools_in(blocks).len() == used.len()
            &&& forall|i: int|
                0 <= i < used.len() ==> (used[i] matches NonStreamingContentBlock::ToolUse {
                    name,
                } && name@ == #[trigger] tools_in(blocks)[i])
        }),
    decreases blocks.len(),
{
    reveal(Seq::filter);
    if blocks.len() > 0 {
        lemma_tools_are_those_used(blocks.drop_last());
    }
}

} // verus!
