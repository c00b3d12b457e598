//! The ways to run experts, and their names in profiles.

use vstd::prelude::*;
use vstd::string::StringExecFns;

use crate::text;

verus! {

/// A way to run experts.
#[derive(Debug, Clone, Copy, PartialEq, Eq, Structural)]
pub enum BackendKind {
    Fused,
    Offload,
    Cpu,
    Hybrid,
}

/// The name of a way to run experts.
pub open spec fn kind_name(k: BackendKind) -> Seq<char> {
    match k {
        BackendKind::Fused => "fused"@,
        BackendKind::Offload => "offload"@,
        BackendKind::Cpu => "cpu"@,
        BackendKind::Hybrid => "hybrid"@,
    }
}

/// The name that a profile has for a way to run experts.
pub fn backend_name(k: BackendKind) -> (s: &'static str)
    ensures
        s@ == kind_name(k),
        k == BackendKind::Fused ==> s@ == "fused"@,
        k == BackendKind::Offload ==> s@ == "offload"@,
        k == BackendKind::Cpu ==> s@ == "cpu"@,
        k == BackendKind::Hybrid ==> s@ == "hybrid"@,
{
    match k {
        BackendKind::Fused => "fused",
        BackendKind::Offload => "offload",
        BackendKind::Cpu => "cpu",
        BackendKind::Hybrid => "hybrid",
    }
}

/// The way to run experts that a profile names, or the sentence for a name that there is
/// not.
pub fn backend_named(s: &str) -> (r: Result<BackendKind, String>)
    ensures
        match r {
            Ok(k) => kind_name(k) == s@,
            Err(m) => {
                &&& forall|k: BackendKind| #[trigger] kind_name(k) != s@
                &&& m@ == "unknown backend in profile: "@ + s@
            },
        },
        s@ == "fused"@ ==> r == Ok::<BackendKind, String>(BackendKind::Fused),
        s@ == "offload"@ ==> r == Ok::<BackendKind, String>(BackendKind::Offload),
        s@ == "cpu"@ ==> r == Ok::<BackendKind, String>(BackendKind::Cpu),
        s@ == "hybrid"@ ==> r == Ok::<BackendKind, String>(BackendKind::Hybrid),
{
    proof {
        reveal_strlit("fused");
        reveal_strlit("offload");
        reveal_strlit("cpu");
        reveal_strlit("hybrid");
        assert("fused"@.len() == 5 && "offload"@.len() == 7 && "cpu"@.len() == 3 && "hybrid"@.len()
            == 6);
    }
    if text::equal(s, "hybrid") {
        Ok(BackendKind::Hybrid)
    } else if text::equal(s, "offload") {
        Ok(BackendKind::Offload)
    } else if text::equal(s, "cpu") {
        Ok(BackendKind::Cpu)
    } else if text::equal(s, "fused") {
        Ok(BackendKind::Fused)
    } else {
        let mut m = "unknown backend in profile: ".to_owned();
        m.append(s);
        Err(m)
    }
}

/// No two ways to run experts have the same name: what is read from a profile is what
/// was written to it.
pub proof fn law_names_differ(a: BackendKind, b: BackendKind)
    requires
        kind_name(a) == kind_name(b),
    ensures
        a == b,
{
    reveal_strlit("fused");
    reveal_strlit("offload");
    reveal_strlit("cpu");
    reveal_strlit("hybrid");
    assert("fused"@.len() == 5 && "offload"@.len() == 7 && "cpu"@.len() == 3 && "hybrid"@.len()
        == 6);
}

} // verus!
