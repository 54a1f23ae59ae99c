use bytes::Bytes;
use serde_json::Value;
use std::sync::Arc;
use weir::provider::anthropic::{
    AnthropicAdapter, AnthropicContentBlockStart, AnthropicDelta, AnthropicEvent,
    AnthropicInputUsage, AnthropicMessageStart, AnthropicOutputUsage, NonStreamingContentBlock,
    NonStreamingResponse, NonStreamingUsage,
};
use weir::provider::tokenizer::{Tokenizer, Vocabulary};

fn tokenizer() -> Arc<Tokenizer> {
    Arc::new(Tokenizer::new(Vocabulary::Cl100kBase))
}

/// The tool that a content block uses, if it uses one.
fn tool(block: &Value) -> Option<Option<String>> {
    match block.get("type")?.as_str()? {
        "tool_use" => Some(Some(block.get("name")?.as_str()?.to_string())),
        _ => Some(None),
    }
}

/// Makes an event of what a data line holds.
fn event(payload: &str) -> Option<AnthropicEvent> {
    let value: Value = serde_json::from_str(payload).ok()?;
    let text = |value: &Value, name: &str| value.get(name)?.as_str().map(str::to_string);
    match value.get("type")?.as_str()? {
        "message_start" => {
            let input_tokens = value.get("message")?.get("usage")?.get("input_tokens")?.as_u64()?;
            let usage = AnthropicInputUsage { input_tokens };
            Some(AnthropicEvent::MessageStart { message: AnthropicMessageStart { usage } })
        }
        "content_block_start" => {
            let content_block = match tool(value.get("content_block")?)? {
                Some(name) => AnthropicContentBlockStart::ToolUse { name },
                None => AnthropicContentBlockStart::Other,
            };
            Some(AnthropicEvent::ContentBlockStart { content_block })
        }
        "content_block_delta" => {
            let delta = value.get("delta")?;
            let (text, partial_json) = (text(delta, "text"), text(delta, "partial_json"));
            let delta = AnthropicDelta { text, partial_json };
            Some(AnthropicEvent::ContentBlockDelta { delta })
        }
        "message_delta" => {
            let output_tokens = value.get("usage")?.get("output_tokens")?.as_u64()?;
            Some(AnthropicEvent::MessageDelta { usage: AnthropicOutputUsage { output_tokens } })
        }
        _ => Some(AnthropicEvent::Other),
    }
}

/// Takes the body of a complete answer apart.
fn response(body: &[u8]) -> Option<NonStreamingResponse> {
    let value: Value = serde_json::from_slice(body).ok()?;
    let mut content = Vec::new();
    if let Some(blocks) = value.get("content") {
        for block in blocks.as_array()? {
            content.push(match tool(block)? {
                Some(name) => NonStreamingContentBlock::ToolUse { name },
                None => NonStreamingContentBlock::Other,
            });
        }
    }
    let usage = value.get("usage")?;
    let usage = NonStreamingUsage {
        input_tokens: usage.get("input_tokens")?.as_u64()?,
        output_tokens: usage.get("output_tokens")?.as_u64()?,
    };
    Some(NonStreamingResponse { content, usage })
}

fn text_delta(text: &str) -> Option<AnthropicEvent> {
    let delta = AnthropicDelta { text: Some(text.to_string()), partial_json: None };
    Some(AnthropicEvent::ContentBlockDelta { delta })
}

fn message_start(input_tokens: u64) -> Option<AnthropicEvent> {
    let message = AnthropicMessageStart { usage: AnthropicInputUsage { input_tokens } };
    Some(AnthropicEvent::MessageStart { message })
}

fn message_delta(output_tokens: u64) -> Option<AnthropicEvent> {
    Some(AnthropicEvent::MessageDelta { usage: AnthropicOutputUsage { output_tokens } })
}

fn tool_use(name: &str) -> Option<AnthropicEvent> {
    let content_block = AnthropicContentBlockStart::ToolUse { name: name.to_string() };
    Some(AnthropicEvent::ContentBlockStart { content_block })
}

#[test]
fn message_start_sets_authoritative_baseline() {
    let mut adapter = AnthropicAdapter::new(tokenizer());
    let raw = Bytes::from_static(
        b"event: message_start\ndata: {\"type\":\"message_start\",\"message\":{\"usage\":{\"input_tokens\":25,\"output_tokens\":1}}}\n\n",
    );
    let cost = adapter.chunk_cost(&raw, event).unwrap();
    assert_eq!(cost.authoritative_total, Some(25));
}

#[test]
fn content_block_delta_contributes_estimate() {
    let mut adapter = AnthropicAdapter::new(tokenizer());
    let raw = Bytes::from_static(
        b"event: content_block_delta\ndata: {\"type\":\"content_block_delta\",\"delta\":{\"type\":\"text_delta\",\"text\":\"Hello\"}}\n\n",
    );
    let cost = adapter.chunk_cost(&raw, event).unwrap();
    assert!(cost.estimated_tokens >= 1);
    assert_eq!(cost.authoritative_total, None);
}

#[test]
fn message_delta_combines_input_baseline_with_output_tokens() {
    let mut adapter = AnthropicAdapter::new(tokenizer());
    let start = Bytes::from_static(
        b"event: message_start\ndata: {\"type\":\"message_start\",\"message\":{\"usage\":{\"input_tokens\":25,\"output_tokens\":1}}}\n\n",
    );
    adapter.chunk_cost(&start, event);

    let delta = Bytes::from_static(
        b"event: message_delta\ndata: {\"type\":\"message_delta\",\"delta\":{\"stop_reason\":\"end_turn\"},\"usage\":{\"output_tokens\":15}}\n\n",
    );
    let cost = adapter.chunk_cost(&delta, event).unwrap();
    assert_eq!(cost.authoritative_total, Some(40)); // 25 input + 15 output
}

#[test]
fn estimates_tokens_from_tool_use_partial_json() {
    let mut adapter = AnthropicAdapter::new(tokenizer());
    let raw = Bytes::from_static(
        b"event: content_block_delta\ndata: {\"type\":\"content_block_delta\",\"delta\":{\"type\":\"input_json_delta\",\"partial_json\":\"{\\\"location\\\": \\\"San Francisco, CA\\\"}\"}}\n\n",
    );
    let cost = adapter.chunk_cost(&raw, event).unwrap();
    assert!(
        cost.estimated_tokens >= 3,
        "tool-use partial_json should tokenize to a meaningful count, got {}",
        cost.estimated_tokens
    );
    assert_eq!(cost.authoritative_total, None);
}

#[test]
fn non_streaming_cost_combines_input_and_output_tokens() {
    let adapter = AnthropicAdapter::new(tokenizer());
    let body = Bytes::from_static(
        b"{\"content\":[{\"type\":\"text\",\"text\":\"Hi\"}],\"usage\":{\"input_tokens\":25,\"output_tokens\":15}}",
    );
    assert_eq!(adapter.non_streaming_cost(&body, response).unwrap().total_tokens, Some(40));
}

#[test]
fn non_streaming_cost_returns_none_for_unparseable_body() {
    let adapter = AnthropicAdapter::new(tokenizer());
    let body = Bytes::from_static(b"not json at all");
    let cost = adapter.non_streaming_cost(&body, response).unwrap();
    assert_eq!(cost.total_tokens, None);
    assert!(cost.tool_calls.is_empty());
}

#[test]
fn chunk_cost_reports_tool_use_name_from_content_block_start() {
    let mut adapter = AnthropicAdapter::new(tokenizer());
    let raw = Bytes::from_static(
        b"event: content_block_start\ndata: {\"type\":\"content_block_start\",\"index\":1,\"content_block\":{\"type\":\"tool_use\",\"id\":\"toolu_01\",\"name\":\"get_weather\",\"input\":{}}}\n\n",
    );
    let cost = adapter.chunk_cost(&raw, event).unwrap();
    assert_eq!(cost.tool_calls, vec!["get_weather".to_string()]);
}

#[test]
fn non_streaming_cost_reports_tool_use_names() {
    let adapter = AnthropicAdapter::new(tokenizer());
    let body = Bytes::from_static(
        b"{\"content\":[{\"type\":\"text\",\"text\":\"Hi\"},{\"type\":\"tool_use\",\"id\":\"toolu_01\",\"name\":\"get_weather\",\"input\":{}}],\"usage\":{\"input_tokens\":25,\"output_tokens\":15}}",
    );
    let cost = adapter.non_streaming_cost(&body, response).unwrap();
    assert_eq!(cost.tool_calls, vec!["get_weather".to_string()]);
    assert_eq!(cost.total_tokens, Some(40));
}

#[test]
fn content_block_start_for_text_block_is_ignored() {
    let mut adapter = AnthropicAdapter::new(tokenizer());
    let raw = Bytes::from_static(
        b"event: content_block_start\ndata: {\"type\":\"content_block_start\",\"index\":0,\"content_block\":{\"type\":\"text\",\"text\":\"\"}}\n\n",
    );
    let cost = adapter.chunk_cost(&raw, event).unwrap();
    assert!(cost.tool_calls.is_empty());
    assert_eq!(cost.estimated_tokens, 0);
}

#[test]
fn texts_are_counted_in_tokens_of_the_vocabulary() {
    let mut adapter = AnthropicAdapter::new(tokenizer());
    let cost = adapter.events_cost(vec![text_delta("Hello"), text_delta("hello world")]).unwrap();
    assert_eq!(cost.estimated_tokens, 3);

    let delta = AnthropicDelta {
        text: Some("hello world".to_string()),
        partial_json: Some("Hello".to_string()),
    };
    let cost = adapter
        .events_cost(vec![Some(AnthropicEvent::ContentBlockDelta { delta }), text_delta("")])
        .unwrap();
    assert_eq!(cost.estimated_tokens, 3);
    assert_eq!(cost.authoritative_total, None);
}

#[test]
fn a_chunk_of_many_events_costs_what_they_cost_together() {
    let mut adapter = AnthropicAdapter::new(tokenizer());
    let raw = b"data: {\"type\":\"message_start\",\"message\":{\"usage\":{\"input_tokens\":5}}}\n\n\
        data: {\"type\":\"ping\"}\n\ndata: not json\n\nnothing: {\"type\":\"message_delta\"}\n\n\
        data: {\"type\":\"content_block_start\",\"content_block\":{\"type\":\"tool_use\",\"name\":\"a\"}}\n\n\
        data: {\"type\":\"content_block_delta\",\"delta\":{\"text\":\"hello world\"}}\r\n\r\n\
        data: {\"type\":\"content_block_start\",\"content_block\":{\"type\":\"tool_use\",\"name\":\"b\"}}\n\n\
        data: {\"type\":\"message_delta\",\"usage\":{\"output_tokens\":7}}";
    let cost = adapter.chunk_cost(raw, event).unwrap();
    assert_eq!(cost.estimated_tokens, 2);
    assert_eq!(cost.authoritative_total, Some(12));
    assert_eq!(cost.tool_calls, vec!["a".to_string(), "b".to_string()]);
}

#[test]
fn the_last_event_to_count_tokens_counts() {
    let mut adapter = AnthropicAdapter::new(tokenizer());
    let cost = adapter.events_cost(vec![message_delta(9), message_start(5)]).unwrap();
    assert_eq!(cost.authoritative_total, Some(5));
    let cost = adapter.events_cost(vec![message_delta(1), message_delta(3), None]).unwrap();
    assert_eq!(cost.authoritative_total, Some(8));
    let cost = adapter.events_cost(vec![Some(AnthropicEvent::Other)]).unwrap();
    assert_eq!(cost.authoritative_total, None);
}

#[test]
fn where_a_stream_is_cut_does_not_matter() {
    let events = || {
        vec![
            message_start(25),
            text_delta("hello world"),
            tool_use("get_weather"),
            None,
            message_delta(3),
            tool_use("send_email"),
            text_delta("Hello"),
            message_delta(15),
        ]
    };
    let tokenizer = tokenizer();
    let whole = AnthropicAdapter::new(tokenizer.clone()).events_cost(events()).unwrap();
    assert_eq!(whole.estimated_tokens, 3);
    assert_eq!(whole.authoritative_total, Some(40));
    for cut in 0..=events().len() {
        let mut adapter = AnthropicAdapter::new(tokenizer.clone());
        let mut front = events();
        let back = front.split_off(cut);
        let first = adapter.events_cost(front).unwrap();
        let second = adapter.events_cost(back).unwrap();
        assert_eq!(first.estimated_tokens + second.estimated_tokens, whole.estimated_tokens);
        assert_eq!(
            second.authoritative_total.or(first.authoritative_total),
            whole.authoritative_total
        );
        let tools: Vec<String> = first.tool_calls.into_iter().chain(second.tool_calls).collect();
        assert_eq!(tools, whole.tool_calls);
    }
}

#[test]
fn sums_of_a_chunk_that_do_not_fit_have_no_cost_and_teach_nothing() {
    let mut adapter = AnthropicAdapter::new(tokenizer());
    assert!(adapter.events_cost(vec![message_start(25)]).is_some());
    assert!(adapter.events_cost(vec![message_start(u64::MAX), message_delta(1)]).is_none());
    let cost = adapter.events_cost(vec![message_delta(15)]).unwrap();
    assert_eq!(cost.authoritative_total, Some(40));
    let cost = adapter.events_cost(vec![message_start(u64::MAX), message_delta(0)]).unwrap();
    assert_eq!(cost.authoritative_total, Some(u64::MAX));
}

#[test]
fn sums_of_an_answer_that_do_not_fit_have_no_cost() {
    let adapter = AnthropicAdapter::new(tokenizer());
    let answer = |input_tokens, output_tokens| NonStreamingResponse {
        content: Vec::new(),
        usage: NonStreamingUsage { input_tokens, output_tokens },
    };
    assert!(adapter.response_cost(Some(answer(u64::MAX, 1))).is_none());
    let cost = adapter.response_cost(Some(answer(u64::MAX, 0))).unwrap();
    assert_eq!(cost.total_tokens, Some(u64::MAX));
    let cost = adapter.response_cost(None).unwrap();
    assert_eq!(cost.total_tokens, None);
    assert!(cost.tool_calls.is_empty());
}

#[test]
fn cutting_a_chunk_between_lines_costs_the_same() {
    let whole = "event: message_start\r\n\
        data: {\"type\":\"message_start\",\"message\":{\"usage\":{\"input_tokens\":5}}}\n\n\
        data: {\"type\":\"content_block_delta\",\"delta\":{\"text\":\"hello \u{4f60}\u{597d}\"}}\n\n\
        data: {\"type\":\"content_block_start\",\"content_block\":{\"type\":\"tool_use\",\"name\":\"a\"}}\n\n\
        data: {\"type\":\"content_block_delta\",\"delta\":{\"text\":\"hello world\"}}\n\n\
        data: {\"type\":\"message_delta\",\"usage\":{\"output_tokens\":7}}\n"
        .as_bytes();
    let tokenizer = tokenizer();
    let expected = AnthropicAdapter::new(tokenizer.clone()).chunk_cost(whole, event).unwrap();
    assert_eq!(expected.authoritative_total, Some(12));
    for cut in (0..=whole.len()).filter(|cut| *cut == 0 || whole[cut - 1] == b'\n') {
        let mut adapter = AnthropicAdapter::new(tokenizer.clone());
        let first = adapter.chunk_cost(&whole[..cut], event).unwrap();
        let second = adapter.chunk_cost(&whole[cut..], event).unwrap();
        assert_eq!(first.estimated_tokens + second.estimated_tokens, expected.estimated_tokens);
        assert_eq!(
            second.authoritative_total.or(first.authoritative_total),
            expected.authoritative_total
        );
        let tools: Vec<String> = first.tool_calls.into_iter().chain(second.tool_calls).collect();
        assert_eq!(tools, expected.tool_calls);
    }
}

#[test]
fn a_text_with_a_piece_that_is_too_long_has_no_cost() {
    let spaces = " ".repeat(999_001);
    let mut adapter = AnthropicAdapter::new(tokenizer());
    assert!(adapter.events_cost(vec![message_start(25)]).is_some());
    assert!(adapter.events_cost(vec![message_start(1), text_delta(&spaces)]).is_none());
    let delta = AnthropicDelta { text: None, partial_json: Some(spaces) };
    assert!(adapter
        .events_cost(vec![Some(AnthropicEvent::ContentBlockDelta { delta })])
        .is_none());
    let cost = adapter.events_cost(vec![message_delta(15)]).unwrap();
    assert_eq!(cost.authoritative_total, Some(40));
}

#[test]
fn a_long_text_has_a_cost() {
    let mut adapter = AnthropicAdapter::new(tokenizer());
    let cost = adapter.events_cost(vec![text_delta(&" a".repeat(600_000))]).unwrap();
    assert_eq!(cost.estimated_tokens, 600_000);
}

#[test]
fn cutting_a_chunk_that_is_not_utf8_costs_the_same() {
    let whole = b"data: \xff\ndata: {\"type\":\"content_block_delta\",\"delta\":{\"text\":\"a\xffb\"}}\n\
        \xf0\x9f\ndata: {\"type\":\"message_delta\",\"usage\":{\"output_tokens\":7}}\n";
    let tokenizer = tokenizer();
    let expected = AnthropicAdapter::new(tokenizer.clone()).chunk_cost(whole, event).unwrap();
    assert_eq!(expected.authoritative_total, Some(7));
    assert!(expected.estimated_tokens >= 2);
    for cut in (0..=whole.len()).filter(|cut| *cut == 0 || whole[cut - 1] == b'\n') {
        let mut adapter = AnthropicAdapter::new(tokenizer.clone());
        let first = adapter.chunk_cost(&whole[..cut], event).unwrap();
        let second = adapter.chunk_cost(&whole[cut..], event).unwrap();
        assert_eq!(first.estimated_tokens + second.estimated_tokens, expected.estimated_tokens);
        assert_eq!(
            second.authoritative_total.or(first.authoritative_total),
            expected.authoritative_total
        );
    }
}
