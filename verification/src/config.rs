//! The fixed properties of a model.

use vstd::prelude::*;

use crate::dtype::Dtype;

verus! {

/// The properties of the layers with experts.
#[derive(Debug, Clone)]
pub struct MoeConfig {
    pub num_experts: usize,
    pub num_experts_per_tok: usize,
    /// The hidden size of an expert.
    pub expert_hidden: usize,
    /// The layers with experts; empty where all layers have them.
    pub moe_layers: Vec<usize>,
}

/// The properties of a model.
#[derive(Debug, Clone)]
pub struct ModelConfig {
    pub arch: String,
    pub num_layers: usize,
    pub hidden_size: usize,
    pub vocab_size: usize,
    pub max_seq_len: usize,
    pub moe: Option<MoeConfig>,
    /// The format of the weights of experts.
    pub quant: Option<Dtype>,
    /// The kind of attention.
    pub attn_kind: String,
}

impl ModelConfig {
    /// The layers with experts.
    pub open spec fn layers_with_experts(&self) -> Seq<usize> {
        match self.moe {
            None => Seq::empty(),
            Some(m) => if m.moe_layers@.len() == 0 {
                Seq::new(self.num_layers as nat, |i: int| i as usize)
            } else {
                m.moe_layers@
            },
        }
    }

    /// The layers with experts: none without experts, all layers where none are named,
    /// else those that are named.
    pub fn moe_layers(&self) -> (r: Vec<usize>)
        ensures
            r@ == self.layers_with_experts(),
            self.moe is None ==> r@.len() == 0,
            self.moe is Some && self.moe->0.moe_layers@.len() > 0 ==> r@ == self.moe->0.moe_layers@,
            self.moe is Some && self.moe->0.moe_layers@.len() == 0 ==> r@.len() == self.num_layers
                && forall|i: int| 0 <= i < r@.len() ==> #[trigger] r@[i] == i,
    {
        match &self.moe {
            None => Vec::new(),
            Some(m) => {
                if m.moe_layers.len() == 0 {
                    let mut r: Vec<usize> = Vec::new();
                    for i in 0..self.num_layers
                        invariant
                            r@ == Seq::new(i as nat, |k: int| k as usize),
                    {
                        r.push(i);
                    }
                    r
                } else {
                    m.moe_layers.clone()
                }
            },
        }
    }
}

} // verus!
