//! Sequences: the unit the engine schedules.

use vstd::prelude::*;

verus! {

/// The number that identifies a sequence.
#[derive(Debug, Clone, Copy, PartialEq, Eq, Hash, PartialOrd, Ord, Structural)]
pub struct SeqId(pub u64);

/// The state of one request inside the engine.
#[derive(Debug, Clone)]
pub struct ReqState {
    pub seq: SeqId,
    /// The tokens of the prompt.
    pub prompt_tokens: Vec<u32>,
    /// The handle of the sequence in the cache pool.
    pub kv_handle: Option<u64>,
    /// The tokens generated so far.
    pub generated: Vec<u32>,
    pub max_new_tokens: usize,
}

/// A request as a mathematical value.
pub struct ReqView {
    pub seq: SeqId,
    pub prompt_tokens: Seq<u32>,
    pub kv_handle: Option<u64>,
    pub generated: Seq<u32>,
    pub max_new_tokens: nat,
}

impl View for ReqState {
    type V = ReqView;

    open spec fn view(&self) -> ReqView {
        ReqView {
            seq: self.seq,
            prompt_tokens: self.prompt_tokens@,
            kv_handle: self.kv_handle,
            generated: self.generated@,
            max_new_tokens: self.max_new_tokens as nat,
        }
    }
}

} // verus!
