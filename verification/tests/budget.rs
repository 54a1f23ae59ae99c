use std::sync::Arc;
use weir::budget::BudgetRegistry;
use weir::config::{on_change, BudgetLimit, Change, TenantLimits};
use weir::error::WeirError;
use weir::shared::share;
use weir::window::Window;

fn limits_with(tenant: &str, max_tokens: u64, window_secs: u64) -> TenantLimits {
    let mut limits = TenantLimits::new();
    limits.insert(
        tenant.to_string(),
        BudgetLimit { max_tokens, window: Window::from_secs(window_secs) },
    );
    limits
}

fn registry_with(tenant: &str, max_tokens: u64, window_secs: u64) -> BudgetRegistry {
    BudgetRegistry::new(share(limits_with(tenant, max_tokens, window_secs)))
}

#[test]
fn unknown_tenant_is_rejected() {
    let mut registry = registry_with("acct_1", 1000, 60);
    let result = registry.is_within_budget("acct_unknown", 0);
    assert!(matches!(result, Err(WeirError::UnknownTenant)));
}

#[test]
fn records_and_trips_at_ceiling() {
    let mut registry = registry_with("acct_1", 100, 60);
    assert!(registry.record("acct_1", 60, 0).unwrap().unwrap());
    assert!(registry.record("acct_1", 30, 0).unwrap().unwrap()); // 90, still within
    assert!(!registry.record("acct_1", 20, 0).unwrap().unwrap()); // 110, over
}

#[test]
fn record_allows_exact_ceiling_then_blocks_next_admission() {
    let mut registry = registry_with("acct_1", 100, 60);
    assert!(registry.record("acct_1", 100, 0).unwrap().unwrap()); // lands exactly at ceiling: allowed
    assert!(!registry.is_within_budget("acct_1", 0).unwrap().unwrap()); // now at ceiling: blocked
}

#[test]
fn changing_window_recreates_counter_and_resets_usage() {
    let tenant = "acct_1";
    let mut limits = TenantLimits::new();
    limits.insert(
        tenant.to_string(),
        BudgetLimit { max_tokens: 100, window: Window::from_secs(60) },
    );
    let shared = share(limits);
    let mut registry = BudgetRegistry::new(shared.clone());

    registry.record(tenant, 50, 0).unwrap().unwrap();
    assert!(registry.is_within_budget(tenant, 0).unwrap().unwrap());

    // Change the tenant's window: the stale counter must be recreated, not
    // silently kept alive against its old window.
    let mut new_limits = TenantLimits::new();
    new_limits.insert(
        tenant.to_string(),
        BudgetLimit { max_tokens: 100, window: Window::from_secs(120) },
    );
    assert!(matches!(on_change(&shared, true, || Ok(new_limits)), Change::Reloaded));

    // Usage resets because the window changed: old accumulated state doesn't
    // cleanly carry over to a differently-sized window.
    assert!(registry.record(tenant, 100, 0).unwrap().unwrap()); // fresh counter: 100 <= 100 ok
}

#[test]
fn changing_the_ceiling_keeps_usage() {
    let shared = share(limits_with("acct_1", 100, 60));
    let mut registry = BudgetRegistry::new(shared.clone());
    assert!(registry.record("acct_1", 80, 0).unwrap().unwrap());
    on_change(&shared, true, || Ok(limits_with("acct_1", 90, 60)));
    assert!(registry.is_within_budget("acct_1", 0).unwrap().unwrap());
    assert!(!registry.record("acct_1", 20, 0).unwrap().unwrap()); // 100, over the new ceiling
    on_change(&shared, true, || Ok(limits_with("acct_1", 101, 60)));
    assert!(registry.is_within_budget("acct_1", 0).unwrap().unwrap());
}

#[test]
fn a_tenant_that_is_taken_out_becomes_unknown() {
    let shared = share(limits_with("acct_1", 100, 60));
    let mut registry = BudgetRegistry::new(shared.clone());
    assert!(registry.record("acct_1", 80, 0).unwrap().unwrap());
    on_change(&shared, true, || Ok(limits_with("acct_2", 100, 60)));
    assert!(matches!(registry.record("acct_1", 1, 0), Err(WeirError::UnknownTenant)));
    assert!(registry.record("acct_2", 100, 0).unwrap().unwrap());
    // Back again, with what it had used.
    on_change(&shared, true, || Ok(limits_with("acct_1", 100, 60)));
    assert!(!registry.record("acct_1", 21, 0).unwrap().unwrap());
}

#[test]
fn tenants_have_budgets_of_their_own() {
    let mut limits = limits_with("acct_1", 100, 60);
    limits.insert(
        "acct_2".to_string(),
        BudgetLimit { max_tokens: 10, window: Window::from_secs(60) },
    );
    let mut registry = BudgetRegistry::new(share(limits));
    assert!(!registry.record("acct_2", 11, 0).unwrap().unwrap());
    assert!(!registry.is_within_budget("acct_2", 0).unwrap().unwrap());
    assert!(registry.is_within_budget("acct_1", 0).unwrap().unwrap());
    assert!(registry.record("acct_1", 100, 0).unwrap().unwrap());
}

#[test]
fn a_ceiling_of_nothing_admits_nothing() {
    let mut registry = registry_with("acct_1", 0, 60);
    assert!(!registry.is_within_budget("acct_1", 0).unwrap().unwrap());
    assert!(registry.record("acct_1", 0, 0).unwrap().unwrap());
    assert!(!registry.record("acct_1", 1, 0).unwrap().unwrap());
}

#[test]
fn budget_comes_back_as_the_window_moves_on() {
    let mut registry = registry_with("acct_1", 100, 1);
    assert!(registry.record("acct_1", 100, 0).unwrap().unwrap());
    assert!(!registry.is_within_budget("acct_1", 1_000).unwrap().unwrap());
    assert!(registry.is_within_budget("acct_1", 1_500).unwrap().unwrap()); // 50 left of it
    assert!(registry.record("acct_1", 50, 1_500).unwrap().unwrap());
    assert!(!registry.record("acct_1", 1, 1_500).unwrap().unwrap());
}

#[test]
fn checking_uses_no_budget() {
    let mut registry = registry_with("acct_1", 100, 60);
    assert!(registry.record("acct_1", 99, 0).unwrap().unwrap());
    for _ in 0..10 {
        assert!(registry.is_within_budget("acct_1", 0).unwrap().unwrap());
    }
    assert!(registry.record("acct_1", 1, 0).unwrap().unwrap());
}

#[test]
fn sums_that_do_not_fit_have_no_answer_and_record_nothing() {
    let mut registry = registry_with("acct_1", u64::MAX, 60);
    assert!(registry.record("acct_1", u64::MAX - 1, 0).unwrap().unwrap());
    assert!(registry.record("acct_1", 2, 0).unwrap().is_none());
    assert!(registry.is_within_budget("acct_1", 0).unwrap().unwrap());
    assert!(registry.record("acct_1", 1, 0).unwrap().unwrap());
    assert!(!registry.is_within_budget("acct_1", 0).unwrap().unwrap());
    assert!(registry.is_within_budget("acct_1", i64::MIN).unwrap().is_none());
}

#[test]
fn the_ceiling_is_exceeded_by_at_most_one_amount() {
    let limits = limits_with("acct_1", 10_000, 60);
    let mut registry = BudgetRegistry::new(share(TenantLimits::new()));
    let mut recorded: u64 = 0;
    while registry.record_under(&limits, "acct_1", 70, 0).unwrap().unwrap() {
        recorded += 70;
        assert!(recorded <= 10_000);
    }
    assert!(recorded + 70 > 10_000 && recorded + 70 <= 10_000 + 70);
    assert!(!registry.is_within_budget_under(&limits, "acct_1", 0).unwrap().unwrap());
}

#[test]
fn a_registry_reads_the_cell_it_was_given() {
    let shared = share(limits_with("acct_1", 100, 60));
    let other = share(TenantLimits::new());
    let mut registry = BudgetRegistry::new(Arc::clone(&shared));
    on_change(&other, true, || Ok(limits_with("acct_2", 100, 60)));
    assert!(registry.is_within_budget("acct_2", 0).is_err());
    assert!(registry.is_within_budget("acct_1", 0).is_ok());
}

#[test]
fn a_counter_is_gone_once_its_window_has_changed() {
    let shared = share(limits_with("acct_1", 100, 60));
    let mut registry = BudgetRegistry::new(shared.clone());
    assert!(registry.record("acct_1", 60, 0).unwrap().unwrap());
    shared.store(Arc::new(limits_with("acct_1", 100, 120)));
    assert!(registry.record("acct_1", 60, 0).unwrap().unwrap());
    shared.store(Arc::new(limits_with("acct_1", 100, 60)));
    assert!(registry.record("acct_1", 100, 0).unwrap().unwrap());
}
