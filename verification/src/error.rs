//! What can go wrong, and how a client is told.

use vstd::prelude::*;
use vstd::string::*;

verus! {

/// Why a request is refused or cannot be served.
#[derive(Debug)]
pub enum SymfynityError {
    /// The tenant of this name has no budget left.
    BudgetExceeded(String),
    /// The request names no tenant, or one without a budget.
    UnknownTenant,
    /// The upstream provider could not be reached, and why.
    Upstream(String),
    /// The configuration cannot be used, and why.
    Config(String),
    /// The tenant asked for something its policy blocks.
    PolicyViolation { tenant: String, reason: String },
}

/// The error type as the rest of the crate calls it.
pub type WeirError = SymfynityError;

/// What a client is sent.
#[derive(Debug)]
pub struct ErrorResponse {
    /// The HTTP status.
    pub status: u16,
    /// A code for machines.
    pub error: &'static str,
    /// A message for people.
    pub message: String,
}

impl SymfynityError {
    /// The message for a person.
    pub open spec fn message(self) -> Seq<char> {
        match self {
            SymfynityError::BudgetExceeded(tenant) => "tenant '"@ + tenant@
                + "' has exceeded its token budget"@,
            SymfynityError::UnknownTenant => "unknown tenant or missing X-Symfynity-Tenant header"@,
            SymfynityError::Upstream(cause) => "upstream provider request failed: "@ + cause@,
            SymfynityError::Config(cause) => "invalid configuration: "@ + cause@,
            SymfynityError::PolicyViolation { tenant, reason } => "tenant '"@ + tenant@
                + "' violated policy: "@ + reason@,
        }
    }

    /// The HTTP status for the error.
    pub open spec fn status(self) -> u16 {
        match self {
            SymfynityError::BudgetExceeded(_) => 429,
            SymfynityError::UnknownTenant => 401,
            SymfynityError::Upstream(_) => 502,
            SymfynityError::Config(_) => 500,
            SymfynityError::PolicyViolation { .. } => 403,
        }
    }

    /// The machine-readable code for the error.
    pub open spec fn code(self) -> Seq<char> {
        match self {
            SymfynityError::BudgetExceeded(_) => "budget_exceeded"@,
            SymfynityError::UnknownTenant => "unknown_tenant"@,
            SymfynityError::Upstream(_) => "upstream_error"@,
            SymfynityError::Config(_) => "config_error"@,
            SymfynityError::PolicyViolation { .. } => "policy_violation"@,
        }
    }

    /// The error as text.
    pub fn to_text(&self) -> (text: String)
        ensures
            text@ == self.message(),
    {
        match self {
            SymfynityError::BudgetExceeded(tenant) => {
                String::from_str("tenant '").concat(tenant.as_str()).concat(
                    "' has exceeded its token budget",
                )
            },
            SymfynityError::UnknownTenant => {
                String::from_str("unknown tenant or missing X-Symfynity-Tenant header")
            },
            SymfynityError::Upstream(cause) => {
                String::from_str("upstream provider request failed: ").concat(cause.as_str())
            },
            SymfynityError::Config(cause) => {
                String::from_str("invalid configuration: ").concat(cause.as_str())
            },
            SymfynityError::PolicyViolation { tenant, reason } => {
                String::from_str("tenant '").concat(tenant.as_str()).concat(
                    "' violated policy: ",
                ).concat(reason.as_str())
            },
        }
    }

    /// The response that tells a client of the error.
    pub fn into_response(self) -> (response: ErrorResponse)
        ensures
            response.status == self.status(),
            response.error@ == self.code(),
            response.message@ == self.message(),
    {
        let message = self.to_text();
        let (status, error) = match &self {
            SymfynityError::BudgetExceeded(_) => (429u16, "budget_exceeded"),
            SymfynityError::UnknownTenant => (401u16, "unknown_tenant"),
            SymfynityError::Upstream(_) => (502u16, "upstream_error"),
            SymfynityError::Config(_) => (500u16, "config_error"),
            SymfynityError::PolicyViolation { .. } => (403u16, "policy_violation"),
        };
        ErrorResponse { status, error, message }
    }
}

/// Each error has a status and a code of its own, whatever it holds: too many
/// requests for a tenant over its budget, unauthorized for one that is unknown,
/// forbidden for one that violates its policy, a bad gateway for a failure upstream,
/// and an internal error for a configuration that cannot be used.
pub proof fn each_error_has_its_own_status_and_code(
    tenant: String,
    cause: String,
    reason: String,
)
    ensures
        SymfynityError::BudgetExceeded(tenant).status() == 429,
        SymfynityError::BudgetExceeded(tenant).code() == "budget_exceeded"@,
        SymfynityError::UnknownTenant.status() == 401,
        SymfynityError::UnknownTenant.code() == "unknown_tenant"@,
        SymfynityError::Upstream(cause).status() == 502,
        SymfynityError::Upstream(cause).code() == "upstream_error"@,
        SymfynityError::Config(cause).status() == 500,
        SymfynityError::Config(cause).code() == "config_error"@,
        (SymfynityError::PolicyViolation { tenant, reason }).status() == 403,
        (SymfynityError::PolicyViolation { tenant, reason }).code() == "policy_violation"@,
{
}

/// A message holds what the error holds, whole and in its place between the same words.
pub proof fn messages_hold_what_the_error_holds(tenant: String, cause: String, reason: String)
    ensures
        SymfynityError::BudgetExceeded(tenant).message() == "tenant '"@ + tenant@
            + "' has exceeded its token budget"@,
        SymfynityError::UnknownTenant.message()
            == "unknown tenant or missing X-Symfynity-Tenant header"@,
        SymfynityError::Upstream(cause).message() == "upstream provider request failed: "@ + cause@,
        SymfynityError::Config(cause).message() == "invalid configuration: "@ + cause@,
        (SymfynityError::PolicyViolation { tenant, reason }).message() == "tenant '"@ + tenant@
            + "' violated policy: "@ + reason@,
{
}

} // verus!
