//! Token budgets for the tenants of a gateway to language models.
//!
//! A tenant may use so many tokens in a rolling window. Each chunk of a streamed
//! answer is priced and recorded against its tenant's budget before it is passed
//! on, and a chunk that would breach the ceiling never is.

pub mod budget;
pub mod config;
pub mod enforcer;
pub mod error;
pub mod provider;
pub mod shared;
pub mod window;
