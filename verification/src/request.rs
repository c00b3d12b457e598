//! Requests for a chat.

use vstd::prelude::*;

verus! {

/// Who says something.
#[derive(Debug, Clone, Copy, PartialEq, Eq, Structural)]
pub enum Role {
    System,
    User,
    Assistant,
    Tool,
}

/// Something said.
#[derive(Debug, Clone)]
pub struct Message {
    pub role: Role,
    pub content: String,
}

/// How an answer is to be generated.
#[derive(Debug, Clone)]
pub struct SamplingParams {
    pub max_tokens: Option<usize>,
}

impl Default for SamplingParams {
    fn default() -> (p: Self)
        ensures
            p.max_tokens is None,
    {
        SamplingParams { max_tokens: None }
    }
}

/// A request for the next message of a chat.
#[derive(Debug, Clone)]
pub struct ChatRequest {
    pub model: String,
    pub messages: Vec<Message>,
    pub stream: bool,
    pub sampling: SamplingParams,
    /// How many tokens the answer may have, unless `sampling` says it.
    pub max_tokens: Option<usize>,
}

impl ChatRequest {
    /// How many tokens the answer may have: what `sampling` says, else what the request
    /// says, else `default_cap`.
    pub open spec fn token_limit(&self, default_cap: usize) -> usize {
        match self.sampling.max_tokens {
            Some(n) => n,
            None => match self.max_tokens {
                Some(n) => n,
                None => default_cap,
            },
        }
    }

    /// How many tokens the answer may have.
    pub fn effective_max_tokens(&self, default_cap: usize) -> (n: usize)
        ensures
            n == self.token_limit(default_cap),
            self.sampling.max_tokens is Some ==> n == self.sampling.max_tokens->0,
            self.sampling.max_tokens is None && self.max_tokens is Some ==> n
                == self.max_tokens->0,
            self.sampling.max_tokens is None && self.max_tokens is None ==> n == default_cap,
    {
        match self.sampling.max_tokens {
            Some(n) => n,
            None => match self.max_tokens {
                Some(n) => n,
                None => default_cap,
            },
        }
    }
}

} // verus!
