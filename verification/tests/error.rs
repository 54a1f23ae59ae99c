use axum::http::StatusCode;
use weir::error::SymfynityError;

#[test]
fn budget_exceeded_maps_to_429() {
    let response = SymfynityError::BudgetExceeded("acct_1".into()).into_response();
    assert_eq!(response.status, StatusCode::TOO_MANY_REQUESTS);
}

#[test]
fn unknown_tenant_maps_to_401() {
    let response = SymfynityError::UnknownTenant.into_response();
    assert_eq!(response.status, StatusCode::UNAUTHORIZED);
}

#[test]
fn policy_violation_maps_to_403() {
    let response = SymfynityError::PolicyViolation {
        tenant: "acct_1".into(),
        reason: "blocked_tool: send_email".into(),
    }
    .into_response();
    assert_eq!(response.status, StatusCode::FORBIDDEN);
}

#[test]
fn upstream_maps_to_502_and_config_to_500() {
    let response = SymfynityError::Upstream("connection closed".into()).into_response();
    assert_eq!(response.status, StatusCode::BAD_GATEWAY);
    let response = SymfynityError::Config("no tenants".into()).into_response();
    assert_eq!(response.status, StatusCode::INTERNAL_SERVER_ERROR);
}

#[test]
fn each_error_has_a_code_and_a_message() {
    let told = |error: SymfynityError| {
        let text = error.to_text();
        let response = error.into_response();
        assert_eq!(response.message, text);
        (response.error, text)
    };
    assert_eq!(
        told(SymfynityError::BudgetExceeded("acct_1".into())),
        ("budget_exceeded", "tenant 'acct_1' has exceeded its token budget".to_string())
    );
    assert_eq!(
        told(SymfynityError::UnknownTenant),
        (
            "unknown_tenant",
            "unknown tenant or missing X-Symfynity-Tenant header".to_string()
        )
    );
    assert_eq!(
        told(SymfynityError::Upstream("connection closed".into())),
        ("upstream_error", "upstream provider request failed: connection closed".to_string())
    );
    assert_eq!(
        told(SymfynityError::Config("no tenants".into())),
        ("config_error", "invalid configuration: no tenants".to_string())
    );
    assert_eq!(
        told(SymfynityError::PolicyViolation {
            tenant: "acct_1".into(),
            reason: "blocked_tool: send_email".into(),
        }),
        (
            "policy_violation",
            "tenant 'acct_1' violated policy: blocked_tool: send_email".to_string()
        )
    );
}
