//! The actions that the scheduler asks the engine to perform.

use vstd::prelude::*;

use crate::seq::SeqId;

verus! {

/// One action of the engine.
#[derive(Debug, Clone, PartialEq, Eq)]
pub enum Step {
    /// Prefill `len` tokens of the prompt of `seq`, from token `start` on.
    Prefill { seq: SeqId, start: usize, len: usize },
    /// One decode step over the running batch.
    Decode { seqs: Vec<SeqId> },
    /// `seq` was swapped out and its cache pages were reclaimed.
    Preempt { seq: SeqId },
    /// Change the memory budget.
    Resize { moe_cache_slots: Option<usize>, kv_pages: Option<u32> },
    /// Nothing to do.
    Idle,
}

/// A step as a mathematical value.
pub enum StepView {
    Prefill { seq: SeqId, start: nat, len: nat },
    Decode { seqs: Seq<SeqId> },
    Preempt { seq: SeqId },
    Resize { moe_cache_slots: Option<usize>, kv_pages: Option<u32> },
    Idle,
}

impl View for Step {
    type V = StepView;

    open spec fn view(&self) -> StepView {
        match self {
            Step::Prefill { seq, start, len } => StepView::Prefill {
                seq: *seq,
                start: *start as nat,
                len: *len as nat,
            },
            Step::Decode { seqs } => StepView::Decode { seqs: seqs@ },
            Step::Preempt { seq } => StepView::Preempt { seq: *seq },
            Step::Resize { moe_cache_slots, kv_pages } => StepView::Resize {
                moe_cache_slots: *moe_cache_slots,
                kv_pages: *kv_pages,
            },
            Step::Idle => StepView::Idle,
        }
    }
}

impl Step {
    /// Whether there is nothing to do.
    pub fn is_idle(&self) -> (b: bool)
        ensures
            b == (self@ == StepView::Idle),
    {
        matches!(self, Step::Idle)
    }
}

} // verus!
