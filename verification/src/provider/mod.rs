//! What a model provider's answers cost.

pub mod anthropic;
pub mod sse;
pub mod tokenizer;

use vstd::prelude::*;

verus! {

/// The texts of a sequence of strings.
pub open spec fn texts(strings: Seq<String>) -> Seq<Seq<char>> {
    strings.map_values(|string: String| string@)
}

/// What one chunk of a streamed answer costs.
#[derive(Debug)]
pub struct ChunkCost {
    /// Tokens in the chunk by the tokenizer's count.
    pub estimated_tokens: u64,
    /// Tokens of the whole answer so far, where the provider says.
    pub authoritative_total: Option<u64>,
    /// Names of any tools that the chunk invokes: never call arguments, only
    /// the tool's name.
    pub tool_calls: Vec<String>,
}

/// What a complete answer costs.
#[derive(Debug)]
pub struct NonStreamingCost {
    /// Tokens of the answer, where the provider says.
    pub total_tokens: Option<u64>,
    /// Names of any tools that the answer invokes: never call arguments.
    pub tool_calls: Vec<String>,
}

} // verus!
