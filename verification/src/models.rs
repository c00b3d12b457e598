//! The model architectures that are known to work.

use vstd::prelude::*;

use crate::text;

verus! {

/// The architectures that are known to work.
pub const KNOWN_ARCHS: [&'static str; 4] = [
    "DeepseekV4ForCausalLM",
    "Glm5MoeForCausalLM",
    "Qwen3MoeForCausalLM",
    "Gemma4ForCausalLM",
];

/// Whether an architecture is known to work.
pub fn is_known(arch: &str) -> (b: bool)
    ensures
        b == (arch@ == "DeepseekV4ForCausalLM"@ || arch@ == "Glm5MoeForCausalLM"@ || arch@
            == "Qwen3MoeForCausalLM"@ || arch@ == "Gemma4ForCausalLM"@),
{
    let known = KNOWN_ARCHS;
    let mut found: bool = false;
    for i in 0..4
        invariant
            known == KNOWN_ARCHS,
            found == exists|j: int| 0 <= j < i && (#[trigger] known@[j])@ == arch@,
    {
        if text::equal(known[i], arch) {
            found = true;
        }
    }
    proof {
        assert(known@[0]@ == "DeepseekV4ForCausalLM"@);
        assert(known@[1]@ == "Glm5MoeForCausalLM"@);
        assert(known@[2]@ == "Qwen3MoeForCausalLM"@);
        assert(known@[3]@ == "Gemma4ForCausalLM"@);
    }
    found
}

} // verus!
