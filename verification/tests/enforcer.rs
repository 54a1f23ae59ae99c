use weir::budget::BudgetRegistry;
use weir::config::{on_change, BudgetLimit, TenantLimits};
use weir::enforcer::{Enforcer, Output, Verdict, BUDGET_EXCEEDED_EVENT};
use weir::error::WeirError;
use weir::provider::sse::data_payloads;
use weir::provider::ChunkCost;
use weir::shared::share;
use weir::window::Window;

fn limits_with(tenant: &str, max_tokens: u64) -> TenantLimits {
    let mut limits = TenantLimits::new();
    limits.insert(
        tenant.to_string(),
        BudgetLimit { max_tokens, window: Window::from_secs(60) },
    );
    limits
}

fn budget_with(tenant: &str, max_tokens: u64) -> BudgetRegistry {
    BudgetRegistry::new(share(limits_with(tenant, max_tokens)))
}

fn estimated(tokens: u64) -> ChunkCost {
    ChunkCost { estimated_tokens: tokens, authoritative_total: None, tool_calls: Vec::new() }
}

fn counted(total: u64) -> ChunkCost {
    ChunkCost { estimated_tokens: 7, authoritative_total: Some(total), tool_calls: Vec::new() }
}

/// What comes out of a stream whose chunks each cost `cost_per_chunk`.
fn enforce(
    tenant: &str,
    upstream: Vec<&str>,
    cost_per_chunk: u64,
    budget: &mut BudgetRegistry,
) -> Vec<Result<String, WeirError>> {
    let mut enforcer = Enforcer::new(tenant.to_string());
    let mut out = Vec::new();
    for chunk in upstream {
        let verdict = enforcer.on_chunk(budget, &estimated(cost_per_chunk), 0).unwrap();
        match verdict.into_output(chunk) {
            Some(Output::Chunk(chunk)) => out.push(Ok(chunk.to_string())),
            Some(Output::BudgetExceeded) => out.push(Ok(BUDGET_EXCEEDED_EVENT.to_string())),
            Some(Output::Error(error)) => out.push(Err(error)),
            None => {}
        }
    }
    out
}

#[test]
fn forwards_chunks_within_budget() {
    let mut budget = budget_with("acct_1", 1000);

    let out = enforce("acct_1", vec!["chunk1", "chunk2"], 10, &mut budget);

    assert_eq!(out.len(), 2);
    assert!(out.iter().all(|r| r.is_ok()));
}

#[test]
fn trips_before_forwarding_over_budget_chunk() {
    let mut budget = budget_with("acct_1", 15);

    // The second chunk pushes the total to 20, over the ceiling of 15, and the
    // third must never be forwarded.
    let out = enforce("acct_1", vec!["chunk1", "chunk2", "chunk3"], 10, &mut budget);

    assert_eq!(out.len(), 2, "chunk1 forwarded, then trip event — chunk3 never reached");
    assert_eq!(out[0].as_ref().unwrap(), "chunk1");
    let trip_event = out[1].as_ref().unwrap();
    assert!(trip_event.contains("budget_exceeded"));
}

#[test]
fn the_last_event_tells_why_the_stream_ends() {
    assert_eq!(
        BUDGET_EXCEEDED_EVENT,
        "event: error\ndata: {\"error\":\"budget_exceeded\"}\n\n"
    );
    assert_eq!(
        data_payloads(BUDGET_EXCEEDED_EVENT.as_bytes()),
        vec!["{\"error\":\"budget_exceeded\"}"]
    );
}

#[test]
fn a_chunk_that_lands_on_the_ceiling_is_forwarded() {
    let mut budget = budget_with("acct_1", 20);
    let out = enforce("acct_1", vec!["chunk1", "chunk2", "chunk3"], 10, &mut budget);
    assert_eq!(out.len(), 3);
    assert_eq!(out[1].as_ref().unwrap(), "chunk2");
    assert_eq!(out[2].as_ref().unwrap(), BUDGET_EXCEEDED_EVENT);
}

#[test]
fn a_stream_of_an_unknown_tenant_fails() {
    let mut budget = budget_with("acct_1", 1000);
    let out = enforce("acct_2", vec!["chunk1", "chunk2"], 10, &mut budget);
    assert_eq!(out.len(), 1);
    assert!(matches!(out[0], Err(WeirError::UnknownTenant)));
}

#[test]
fn totals_make_estimates_good() {
    let limits = limits_with("acct_1", 100);
    let mut budget = budget_with("acct_1", 100);
    let mut enforcer = Enforcer::new("acct_1".to_string());
    // 25, then 25 + 30, then 60 altogether: the last total adds only 5.
    for cost in [counted(25), estimated(30), counted(60)] {
        let verdict = enforcer.on_chunk_under(&mut budget, &limits, &cost, 0);
        assert!(matches!(verdict, Some(Verdict::Forward)));
    }
    assert!(budget.record("acct_1", 40, 0).unwrap().unwrap());
    assert!(!budget.is_within_budget("acct_1", 0).unwrap().unwrap());
}

#[test]
fn a_total_below_the_estimates_charges_nothing_and_is_gone_on_from() {
    let mut budget = budget_with("acct_1", 100);
    let mut enforcer = Enforcer::new("acct_1".to_string());
    // 50, nothing, then from 20 to 30: 60 altogether.
    for cost in [estimated(50), counted(20), counted(30)] {
        let verdict = enforcer.on_chunk(&mut budget, &cost, 0);
        assert!(matches!(verdict, Some(Verdict::Forward)));
    }
    assert!(budget.record("acct_1", 40, 0).unwrap().unwrap());
    assert!(!budget.record("acct_1", 1, 0).unwrap().unwrap());
}

#[test]
fn nothing_is_recorded_once_a_stream_has_ended() {
    let mut budget = budget_with("acct_1", 100);
    let mut enforcer = Enforcer::new("acct_1".to_string());
    let error = enforcer.on_upstream_error("connection closed".to_string());
    assert_eq!(error.to_text(), "upstream provider request failed: connection closed");
    assert!(matches!(enforcer.on_chunk(&mut budget, &estimated(60), 0), Some(Verdict::Done)));
    assert!(budget.record("acct_1", 100, 0).unwrap().unwrap());
}

#[test]
fn a_tripped_stream_has_recorded_the_chunk_it_tripped_on() {
    let mut budget = budget_with("acct_1", 100);
    let out = enforce("acct_1", vec!["chunk1", "chunk2"], 150, &mut budget);
    assert_eq!(out.len(), 1);
    assert!(!budget.is_within_budget("acct_1", 0).unwrap().unwrap());
}

#[test]
fn streams_of_a_tenant_share_its_budget() {
    let mut budget = budget_with("acct_1", 10_000);
    let mut streams: Vec<Enforcer> =
        (0..40).map(|_| Enforcer::new("acct_1".to_string())).collect();
    let mut forwarded: u64 = 0;
    for _ in 0..10 {
        for stream in &mut streams {
            if let Verdict::Forward = stream.on_chunk(&mut budget, &estimated(50), 0).unwrap() {
                forwarded += 50;
            }
        }
    }
    assert_eq!(forwarded, 10_000);
    assert!(!budget.is_within_budget("acct_1", 0).unwrap().unwrap());
}

#[test]
fn a_budget_that_is_lowered_ends_a_stream() {
    let shared = share(limits_with("acct_1", 100));
    let mut budget = BudgetRegistry::new(shared.clone());
    let mut enforcer = Enforcer::new("acct_1".to_string());
    assert!(matches!(
        enforcer.on_chunk(&mut budget, &estimated(50), 0),
        Some(Verdict::Forward)
    ));
    on_change(&shared, true, || Ok(limits_with("acct_1", 60)));
    assert!(matches!(enforcer.on_chunk(&mut budget, &estimated(20), 0), Some(Verdict::Trip)));
}

#[test]
fn costs_that_do_not_fit_have_no_verdict() {
    let mut budget = budget_with("acct_1", u64::MAX);
    let mut enforcer = Enforcer::new("acct_1".to_string());
    assert!(matches!(
        enforcer.on_chunk(&mut budget, &estimated(u64::MAX), 0),
        Some(Verdict::Forward)
    ));
    assert!(enforcer.on_chunk(&mut budget, &estimated(1), 0).is_none());
    // Another stream fits by itself, but not with what the tenant has used.
    let mut other = Enforcer::new("acct_1".to_string());
    assert!(other.on_chunk(&mut budget, &estimated(1), 0).is_none());
    assert!(matches!(other.on_chunk(&mut budget, &counted(0), 0), Some(Verdict::Forward)));
}

#[test]
fn a_stream_puts_out_a_first_part_and_then_its_end() {
    // Each way to end after two chunks: over the ceiling, upstream, or not at all.
    for (ceiling, failure) in [(25, None), (1000, Some(2)), (1000, None)] {
        let mut budget = budget_with("acct_1", ceiling);
        let mut enforcer = Enforcer::new("acct_1".to_string());
        let mut chunks = Vec::new();
        let mut ends = Vec::new();
        for (i, chunk) in ["chunk1", "chunk2", "chunk3", "chunk4"].into_iter().enumerate() {
            if failure == Some(i) {
                ends.push(enforcer.on_upstream_error("reset".to_string()).to_text());
            }
            match enforcer.on_chunk(&mut budget, &estimated(10), 0).unwrap().into_output(chunk) {
                Some(Output::Chunk(chunk)) => chunks.push(chunk),
                Some(Output::BudgetExceeded) => ends.push("exceeded".to_string()),
                Some(Output::Error(error)) => ends.push(error.to_text()),
                None => {}
            }
        }
        let (first, end): (usize, Vec<&str>) = match (ceiling, failure) {
            (25, _) => (2, vec!["exceeded"]),
            (_, Some(_)) => (2, vec!["upstream provider request failed: reset"]),
            _ => (4, Vec::new()),
        };
        assert_eq!(chunks, ["chunk1", "chunk2", "chunk3", "chunk4"][..first]);
        assert_eq!(ends, end);
    }
}
