//! The backends for attention, and which of them serves which kind.

use vstd::prelude::*;

verus! {

/// A kind of attention.
#[derive(Debug, Clone, Copy, PartialEq, Eq, Structural)]
pub enum AttnKind {
    Full,
    /// Over a sliding window.
    Swa,
    /// Sparse.
    Dsa,
    /// With a recurrent state.
    LinearState,
}

/// Computes one kind of attention.
pub trait AttentionBackend: Send + Sync {
    /// The kind it computes.
    fn kind(&self) -> AttnKind;

    /// Whether it runs on devices of the given major version.
    fn supports(&self, sm_major: u32) -> bool;
}

/// A backend and the kind of attention it computes.
pub struct BackendEntry {
    pub name: &'static str,
    pub kind: AttnKind,
}

/// The backends there are, by name and kind; the first of a kind is preferred.
pub open spec fn backends() -> Seq<(Seq<char>, AttnKind)> {
    seq![
        ("fa"@, AttnKind::Full),
        ("trtllm"@, AttnKind::Full),
        ("dsv4_sparse"@, AttnKind::Dsa),
        ("dsa"@, AttnKind::Dsa),
    ]
}

/// The backends there are; the first of a kind is preferred.
pub fn known_backends() -> (v: Vec<BackendEntry>)
    ensures
        v@.map_values(|b: BackendEntry| (b.name@, b.kind)) == backends(),
        v@.len() == 4,
        v@[0].name@ == "fa"@ && v@[0].kind == AttnKind::Full,
        v@[1].name@ == "trtllm"@ && v@[1].kind == AttnKind::Full,
        v@[2].name@ == "dsv4_sparse"@ && v@[2].kind == AttnKind::Dsa,
        v@[3].name@ == "dsa"@ && v@[3].kind == AttnKind::Dsa,
{
    let v: Vec<BackendEntry> = vec![
        BackendEntry { name: "fa", kind: AttnKind::Full },
        BackendEntry { name: "trtllm", kind: AttnKind::Full },
        BackendEntry { name: "dsv4_sparse", kind: AttnKind::Dsa },
        BackendEntry { name: "dsa", kind: AttnKind::Dsa },
    ];
    proof {
        assert(v@.map_values(|b: BackendEntry| (b.name@, b.kind)) =~= backends());
    }
    v
}

/// The name of the preferred backend for a kind of attention, among `known`; `fa` where
/// there is none.
pub open spec fn preferred(known: Seq<(Seq<char>, AttnKind)>, kind: AttnKind) -> Seq<char>
    decreases known.len(),
{
    if known.len() == 0 {
        "fa"@
    } else if known[0].1 == kind {
        known[0].0
    } else {
        preferred(known.skip(1), kind)
    }
}

/// The name of the preferred backend for a kind of attention; `fa` where there is none.
pub fn auto_pick(kind: AttnKind) -> (name: &'static str)
    ensures
        name@ == preferred(backends(), kind),
        kind == AttnKind::Dsa ==> name@ == "dsv4_sparse"@,
        kind != AttnKind::Dsa ==> name@ == "fa"@,
{
    let known = known_backends();
    let ghost all = backends();
    proof {
        assert(all.skip(0) =~= all);
    }
    for i in 0..known.len()
        invariant
            known@.map_values(|b: BackendEntry| (b.name@, b.kind)) == all,
            preferred(backends(), kind) == preferred(all.skip(i as int), kind),
    {
        proof {
            assert(all.skip(i as int).skip(1) =~= all.skip(i + 1));
            law_preferred(kind);
            assert(all[i as int] == (known@[i as int].name@, known@[i as int].kind));
        }
        if known[i].kind == kind {
            return known[i].name;
        }
    }
    proof {
        law_preferred(kind);
    }
    "fa"
}

/// Sparse attention has a backend of its own; every other kind is served by `fa`.
pub proof fn law_preferred(kind: AttnKind)
    ensures
        kind == AttnKind::Dsa ==> preferred(backends(), kind) == "dsv4_sparse"@,
        kind != AttnKind::Dsa ==> preferred(backends(), kind) == "fa"@,
{
    reveal_with_fuel(preferred, 6);
}

} // verus!
