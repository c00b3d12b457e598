//! The plan for one layer: which of its experts are in the cache, which of the others
//! are fetched, and which are computed where they are.

use vstd::prelude::*;

verus! {

/// What is done for an expert that is not in the cache.
#[derive(Debug, Clone, Copy, PartialEq, Eq, Structural)]
pub enum MissAction {
    /// The expert is brought into the cache.
    Fetch { expert_id: u32 },
    /// The expert is computed in main memory.
    CpuCompute { expert_id: u32 },
}

/// The experts of one layer, by what is done for them.
#[derive(Debug, Clone, PartialEq, Eq)]
pub struct MoePlan {
    pub cache_hits: Vec<u32>,
    pub misses: Vec<MissAction>,
}

/// A plan as a mathematical value.
#[verifier::ext_equal]
pub struct PlanView {
    pub cache_hits: Seq<u32>,
    pub misses: Seq<MissAction>,
}

impl View for MoePlan {
    type V = PlanView;

    open spec fn view(&self) -> PlanView {
        PlanView { cache_hits: self.cache_hits@, misses: self.misses@ }
    }
}

impl Default for MoePlan {
    fn default() -> (p: Self)
        ensures
            p@ == (PlanView { cache_hits: Seq::empty(), misses: Seq::empty() }),
    {
        MoePlan { cache_hits: Vec::new(), misses: Vec::new() }
    }
}

/// The experts whose flag is `want`, in their order.
pub open spec fn picked(routed: Seq<u32>, cached: Seq<bool>, want: bool) -> Seq<u32>
    decreases routed.len(),
{
    if routed.len() == 0 {
        Seq::empty()
    } else {
        let n = routed.len() - 1;
        let before = picked(routed.take(n), cached.take(n), want);
        if cached[n] == want {
            before.push(routed[n])
        } else {
            before
        }
    }
}

/// The first `n_fetch` of the missing experts are fetched, the others computed.
pub open spec fn split(missing: Seq<u32>, n_fetch: nat) -> Seq<MissAction> {
    Seq::new(
        missing.len(),
        |i: int|
            if i < n_fetch {
                MissAction::Fetch { expert_id: missing[i] }
            } else {
                MissAction::CpuCompute { expert_id: missing[i] }
            },
    )
}

/// The plan for `routed`, of which those with a flag are in the cache and `n_fetch` of
/// the others are fetched.
pub open spec fn plan_of(routed: Seq<u32>, cached: Seq<bool>, n_fetch: nat) -> PlanView {
    PlanView {
        cache_hits: picked(routed, cached, true),
        misses: split(picked(routed, cached, false), n_fetch),
    }
}

/// The experts that a plan fetches.
pub open spec fn fetched(misses: Seq<MissAction>) -> Seq<u32>
    decreases misses.len(),
{
    if misses.len() == 0 {
        Seq::empty()
    } else {
        let before = fetched(misses.drop_last());
        match misses.last() {
            MissAction::Fetch { expert_id } => before.push(expert_id),
            MissAction::CpuCompute { .. } => before,
        }
    }
}

/// The experts that a plan computes in main memory.
pub open spec fn computed(misses: Seq<MissAction>) -> Seq<u32>
    decreases misses.len(),
{
    if misses.len() == 0 {
        Seq::empty()
    } else {
        let before = computed(misses.drop_last());
        match misses.last() {
            MissAction::Fetch { .. } => before,
            MissAction::CpuCompute { expert_id } => before.push(expert_id),
        }
    }
}

/// The flags are answers of `is_cached` for the routed experts.
pub open spec fn answered<F: Fn(u32) -> bool>(
    is_cached: F,
    routed: Seq<u32>,
    cached: Seq<bool>,
) -> bool {
    &&& cached.len() == routed.len()
    &&& forall|i: int|
        0 <= i < routed.len() ==> call_ensures(is_cached, (routed[i],), #[trigger] cached[i])
}

proof fn lemma_picked_len(routed: Seq<u32>, cached: Seq<bool>)
    requires
        routed.len() == cached.len(),
    ensures
        picked(routed, cached, true).len() + picked(routed, cached, false).len() == routed.len(),
    decreases routed.len(),
{
    if routed.len() > 0 {
        let n = routed.len() - 1;
        lemma_picked_len(routed.take(n), cached.take(n));
    }
}

impl MoePlan {
    /// The plan for the experts `routed`. `is_cached` tells which of them are in the
    /// cache, and `q` how many of a number of missing experts are fetched.
    pub fn build<F: Fn(u32) -> bool, Q: Fn(usize) -> usize>(
        routed: &[u32],
        is_cached: F,
        q: &Q,
    ) -> (plan: Self)
        requires
            forall|i: int| 0 <= i < routed@.len() ==> call_requires(is_cached, (#[trigger] routed@[i],)),
            forall|n: usize| n <= routed@.len() ==> #[trigger] call_requires(*q, (n,)),
        ensures
            exists|cached: Seq<bool>, n_fetch: usize| #[trigger]
                answered(is_cached, routed@, cached) && #[trigger] call_ensures(
                    *q,
                    (picked(routed@, cached, false).len() as usize,),
                    n_fetch,
                ) && plan@ == plan_of(routed@, cached, n_fetch as nat),
    {
        let mut cached: Vec<bool> = Vec::new();
        let mut n_miss: usize = 0;
        for i in 0..routed.len()
            invariant
                forall|k: int|
                    0 <= k < routed@.len() ==> call_requires(is_cached, (#[trigger] routed@[k],)),
                cached@.len() == i,
                forall|k: int|
                    0 <= k < i ==> call_ensures(is_cached, (routed@[k],), #[trigger] cached@[k]),
                n_miss <= i,
                n_miss == picked(routed@.take(i as int), cached@, false).len(),
        {
            let c: bool = is_cached(routed[i]);
            let ghost before = cached@;
            cached.push(c);
            if !c {
                n_miss = n_miss + 1;
            }
            proof {
                assert(routed@.take(i + 1).take(i as int) =~= routed@.take(i as int));
                assert(cached@.take(i as int) =~= before);
            }
        }
        proof {
            assert(routed@.take(routed@.len() as int) =~= routed@);
        }
        let n_fetch: usize = q(n_miss);
        proof {
            assert(answered(is_cached, routed@, cached@));
            assert(call_ensures(
                *q,
                (picked(routed@, cached@, false).len() as usize,),
                n_fetch,
            ));
        }
        Self::from_flags(routed, cached.as_slice(), n_fetch)
    }

    /// The plan for the experts `routed`, of which those with a flag in `cached` are in
    /// the cache and the first `n_fetch` of the others are fetched.
    pub fn from_flags(routed: &[u32], cached: &[bool], n_fetch: usize) -> (plan: Self)
        requires
            cached@.len() == routed@.len(),
        ensures
            plan@ == plan_of(routed@, cached@, n_fetch as nat),
    {
        let mut cache_hits: Vec<u32> = Vec::new();
        let mut misses: Vec<MissAction> = Vec::new();
        for i in 0..routed.len()
            invariant
                cached@.len() == routed@.len(),
                cache_hits@ == picked(routed@.take(i as int), cached@.take(i as int), true),
                misses@ == split(
                    picked(routed@.take(i as int), cached@.take(i as int), false),
                    n_fetch as nat,
                ),
        {
            proof {
                assert(routed@.take(i + 1).take(i as int) =~= routed@.take(i as int));
                assert(cached@.take(i + 1).take(i as int) =~= cached@.take(i as int));
            }
            let e: u32 = routed[i];
            if cached[i] {
                cache_hits.push(e);
            } else if misses.len() < n_fetch {
                misses.push(MissAction::Fetch { expert_id: e });
            } else {
                misses.push(MissAction::CpuCompute { expert_id: e });
            }
        }
        proof {
            assert(routed@.take(routed@.len() as int) =~= routed@);
            assert(cached@.take(cached@.len() as int) =~= cached@);
        }
        MoePlan { cache_hits, misses }
    }

    /// The experts that are in the cache once the plan is carried out: the hits, then those
    /// that are fetched.
    pub fn cached_experts(&self) -> (v: Vec<u32>)
        ensures
            v@ == self@.cache_hits + fetched(self@.misses),
    {
        let mut v: Vec<u32> = self.cache_hits.clone();
        let ghost hits = v@;
        proof {
            assert(hits =~= self.cache_hits@);
            assert(hits + fetched(self.misses@.take(0)) =~= hits);
        }
        for i in 0..self.misses.len()
            invariant
                v@ == hits + fetched(self.misses@.take(i as int)),
        {
            proof {
                assert(self.misses@.take(i + 1).drop_last() =~= self.misses@.take(i as int));
            }
            if let MissAction::Fetch { expert_id } = self.misses[i] {
                v.push(expert_id);
            }
            proof {
                assert(v@ =~= hits + fetched(self.misses@.take(i + 1)));
            }
        }
        proof {
            assert(self.misses@.take(self.misses@.len() as int) =~= self.misses@);
        }
        v
    }

    /// How many experts are hits, how many are fetched and how many are computed in main
    /// memory.
    pub fn stats(&self) -> (r: (usize, usize, usize))
        ensures
            r.0 == self@.cache_hits.len(),
            r.1 == fetched(self@.misses).len(),
            r.2 == computed(self@.misses).len(),
    {
        let mut fetch: usize = 0;
        let mut cpu: usize = 0;
        for i in 0..self.misses.len()
            invariant
                fetch == fetched(self.misses@.take(i as int)).len(),
                cpu == computed(self.misses@.take(i as int)).len(),
                fetch + cpu == i,
        {
            proof {
                assert(self.misses@.take(i + 1).drop_last() =~= self.misses@.take(i as int));
            }
            match self.misses[i] {
                MissAction::Fetch { .. } => {
                    fetch = fetch + 1;
                },
                MissAction::CpuCompute { .. } => {
                    cpu = cpu + 1;
                },
            }
        }
        proof {
            assert(self.misses@.take(self.misses@.len() as int) =~= self.misses@);
        }
        (self.cache_hits.len(), fetch, cpu)
    }
}

proof fn lemma_split(missing: Seq<u32>, n_fetch: nat)
    ensures
        fetched(split(missing, n_fetch)) == missing.take(
            if n_fetch <= missing.len() {
                n_fetch as int
            } else {
                missing.len() as int
            },
        ),
        computed(split(missing, n_fetch)) == missing.skip(
            if n_fetch <= missing.len() {
                n_fetch as int
            } else {
                missing.len() as int
            },
        ),
    decreases missing.len(),
{
    if missing.len() > 0 {
        let m = missing.drop_last();
        lemma_split(m, n_fetch);
        assert(split(missing, n_fetch).drop_last() =~= split(m, n_fetch));
        let k = if n_fetch <= m.len() {
            n_fetch as int
        } else {
            m.len() as int
        };
        if n_fetch < missing.len() {
            assert(missing.take(k) =~= m.take(k));
            assert(missing.skip(k) =~= m.skip(k).push(missing.last()));
        } else {
            assert(missing.take(missing.len() as int) =~= m.take(k).push(missing.last()));
            assert(missing.skip(missing.len() as int) =~= m.skip(k));
        }
    }
}

/// A missing expert is fetched or computed: the first ones are fetched, as many as were
/// allowed, and the rest are computed.
pub proof fn law_split(routed: Seq<u32>, cached: Seq<bool>, n_fetch: nat)
    requires
        routed.len() == cached.len(),
    ensures
        ({
            let p = plan_of(routed, cached, n_fetch);
            let missing = picked(routed, cached, false);
            let n = if n_fetch <= missing.len() {
                n_fetch
            } else {
                missing.len()
            };
            &&& fetched(p.misses) == missing.take(n as int)
            &&& computed(p.misses) == missing.skip(n as int)
            &&& p.cache_hits.len() + fetched(p.misses).len() + computed(p.misses).len()
                == routed.len()
        }),
{
    lemma_split(picked(routed, cached, false), n_fetch);
    lemma_picked_len(routed, cached);
}

/// A plan names every routed expert as often as it was routed, and no other.
pub proof fn law_plan_covers(routed: Seq<u32>, cached: Seq<bool>, n_fetch: nat)
    requires
        routed.len() == cached.len(),
    ensures
        ({
            let p = plan_of(routed, cached, n_fetch);
            p.cache_hits.to_multiset().add(fetched(p.misses).to_multiset()).add(
                computed(p.misses).to_multiset(),
            ) == routed.to_multiset()
        }),
{
    let p = plan_of(routed, cached, n_fetch);
    let missing = picked(routed, cached, false);
    let n = if n_fetch <= missing.len() {
        n_fetch as int
    } else {
        missing.len() as int
    };
    lemma_split(missing, n_fetch);
    vstd::seq_lib::lemma_multiset_commutative(missing.take(n), missing.skip(n));
    assert(missing.take(n) + missing.skip(n) =~= missing);
    lemma_picked_multiset(routed, cached);
    assert(p.cache_hits.to_multiset().add(fetched(p.misses).to_multiset()).add(
        computed(p.misses).to_multiset(),
    ) =~= routed.to_multiset());
}

proof fn lemma_picked_multiset(routed: Seq<u32>, cached: Seq<bool>)
    requires
        routed.len() == cached.len(),
    ensures
        picked(routed, cached, true).to_multiset().add(picked(routed, cached, false).to_multiset())
            == routed.to_multiset(),
    decreases routed.len(),
{
    broadcast use vstd::seq_lib::group_to_multiset_ensures;

    if routed.len() > 0 {
        let n = routed.len() - 1;
        lemma_picked_multiset(routed.take(n), cached.take(n));
        assert(routed =~= routed.take(n).push(routed[n]));
        assert(picked(routed, cached, true).to_multiset().add(
            picked(routed, cached, false).to_multiset(),
        ) =~= routed.take(n).push(routed[n]).to_multiset());
    } else {
        assert(routed.to_multiset() =~= picked(routed, cached, true).to_multiset().add(
            picked(routed, cached, false).to_multiset(),
        ));
    }
}

/// What a plan is made of, place by place: the hits are the routed experts with a flag, in
/// their order; every other routed expert is a miss, in the order of the routing; and of the
/// misses the first `n_fetch` are fetched and the rest computed.
pub proof fn law_plan_parts(routed: Seq<u32>, cached: Seq<bool>, n_fetch: nat)
    requires
        routed.len() == cached.len(),
    ensures
        ({
            let p = plan_of(routed, cached, n_fetch);
            let flagged = routed.zip_with(cached);
            let missing = flagged.filter(|x: (u32, bool)| !x.1);
            &&& p.cache_hits == flagged.filter(|x: (u32, bool)| x.1).map_values(
                |x: (u32, bool)| x.0,
            )
            &&& p.misses.len() == missing.len()
            &&& forall|i: int|
                0 <= i < missing.len() && i < n_fetch ==> #[trigger] p.misses[i]
                    == (MissAction::Fetch { expert_id: missing[i].0 })
            &&& forall|i: int|
                n_fetch <= i < missing.len() ==> #[trigger] p.misses[i]
                    == (MissAction::CpuCompute { expert_id: missing[i].0 })
        }),
{
    lemma_picked_filter(routed, cached);
}

proof fn lemma_picked_filter(routed: Seq<u32>, cached: Seq<bool>)
    requires
        routed.len() == cached.len(),
    ensures
        picked(routed, cached, true) == routed.zip_with(cached).filter(
            |x: (u32, bool)| x.1,
        ).map_values(|x: (u32, bool)| x.0),
        picked(routed, cached, false) == routed.zip_with(cached).filter(
            |x: (u32, bool)| !x.1,
        ).map_values(|x: (u32, bool)| x.0),
    decreases routed.len(),
{
    reveal(Seq::filter);
    let yes = |x: (u32, bool)| x.1;
    let no = |x: (u32, bool)| !x.1;
    let first = |x: (u32, bool)| x.0;
    let all = routed.zip_with(cached);
    if routed.len() == 0 {
        assert(picked(routed, cached, true) =~= all.filter(yes).map_values(first));
        assert(picked(routed, cached, false) =~= all.filter(no).map_values(first));
    } else {
        let n = routed.len() - 1;
        lemma_picked_filter(routed.take(n), cached.take(n));
        assert(all.drop_last() =~= routed.take(n).zip_with(cached.take(n)));
        assert(all.last() == (routed[n], cached[n]));
        assert(picked(routed, cached, true) =~= all.filter(yes).map_values(first));
        assert(picked(routed, cached, false) =~= all.filter(no).map_values(first));
    }
}

/// The experts that a plan fetches and those that it computes are those of its misses of
/// that kind, in their order.
pub proof fn law_fetched_and_computed(misses: Seq<MissAction>)
    ensures
        fetched(misses) == misses.filter(|m: MissAction| m is Fetch).map_values(
            |m: MissAction| m->Fetch_expert_id,
        ),
        computed(misses) == misses.filter(|m: MissAction| m is CpuCompute).map_values(
            |m: MissAction| m->CpuCompute_expert_id,
        ),
    decreases misses.len(),
{
    reveal(Seq::filter);
    let f = |m: MissAction| m is Fetch;
    let c = |m: MissAction| m is CpuCompute;
    let fid = |m: MissAction| m->Fetch_expert_id;
    let cid = |m: MissAction| m->CpuCompute_expert_id;
    if misses.len() == 0 {
        assert(fetched(misses) =~= misses.filter(f).map_values(fid));
        assert(computed(misses) =~= misses.filter(c).map_values(cid));
    } else {
        law_fetched_and_computed(misses.drop_last());
        assert(fetched(misses) =~= misses.filter(f).map_values(fid));
        assert(computed(misses) =~= misses.filter(c).map_values(cid));
    }
}

/// The flags by which a plan is made are what `is_cached` says of each of the routed experts,
/// and the number of them without a flag is how many are missing.
pub proof fn law_answers<F: Fn(u32) -> bool>(is_cached: F, routed: Seq<u32>, cached: Seq<bool>)
    requires
        answered(is_cached, routed, cached),
    ensures
        cached.len() == routed.len(),
        forall|i: int|
            0 <= i < routed.len() ==> call_ensures(is_cached, (routed[i],), #[trigger] cached[i]),
        picked(routed, cached, false).len() == cached.filter(|c: bool| !c).len(),
{
    lemma_unflagged(routed, cached);
}

proof fn lemma_unflagged(routed: Seq<u32>, cached: Seq<bool>)
    requires
        routed.len() == cached.len(),
    ensures
        picked(routed, cached, false).len() == cached.filter(|c: bool| !c).len(),
    decreases routed.len(),
{
    reveal(Seq::filter);
    if routed.len() > 0 {
        let n = routed.len() - 1;
        lemma_unflagged(routed.take(n), cached.take(n));
        assert(cached.take(n) =~= cached.drop_last());
    }
}

} // verus!
