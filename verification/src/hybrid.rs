//! Decides layer by layer which experts are hits, fetched or computed, keeps the cache
//! up to date and counts.

use vstd::prelude::*;

use crate::cache;
use crate::cache::{CacheView, ExpertKey, LruExpertCache};
use crate::plan;
use crate::plan::{MissAction, MoePlan, PlanView};

verus! {

/// How many experts were hits, fetched and computed in main memory.
#[derive(Debug, Clone, Copy)]
pub struct HybridStats {
    pub hits: u64,
    pub fetches: u64,
    pub cpu_misses: u64,
}

impl Default for HybridStats {
    fn default() -> (s: Self)
        ensures
            s == (HybridStats { hits: 0, fetches: 0, cpu_misses: 0 }),
    {
        HybridStats { hits: 0, fetches: 0, cpu_misses: 0 }
    }
}

impl HybridStats {
    /// How many experts there were.
    pub open spec fn sum(self) -> int {
        self.hits + self.fetches + self.cpu_misses
    }

    /// How many experts there were.
    pub fn total(&self) -> (n: u64)
        requires
            self.sum() <= u64::MAX,
        ensures
            n == self.sum(),
    {
        self.hits + self.fetches + self.cpu_misses
    }
}

/// Decides for one layer at a time. `q` tells how many of a number of missing experts
/// are fetched.
pub struct HybridRuntime<Q> {
    cache: LruExpertCache,
    q: Q,
    stats: HybridStats,
}

/// A runtime as a mathematical value.
pub struct HybridView<Q> {
    pub cache: CacheView,
    pub q: Q,
    pub stats: HybridStats,
}

/// Which of the routed experts of a layer are in the cache.
pub open spec fn flags(c: CacheView, layer: u32, routed: Seq<u32>) -> Seq<bool> {
    routed.map_values(|e: u32| c.order.contains(ExpertKey { layer, expert: e }))
}

/// The number of routed experts of a layer that are not in the cache.
pub open spec fn miss_count(c: CacheView, layer: u32, routed: Seq<u32>) -> nat {
    plan::picked(routed, flags(c, layer, routed), false).len()
}

/// The cache after all the given experts of a layer were looked up.
pub open spec fn touched_all(c: CacheView, layer: u32, experts: Seq<u32>) -> CacheView
    decreases experts.len(),
{
    if experts.len() == 0 {
        c
    } else {
        touched_all(c, layer, experts.drop_last()).touched(
            ExpertKey { layer, expert: experts.last() },
        )
    }
}

/// The cache after all the given experts of a layer were put in.
pub open spec fn inserted_all(c: CacheView, layer: u32, experts: Seq<u32>) -> CacheView
    decreases experts.len(),
{
    if experts.len() == 0 {
        c
    } else {
        inserted_all(c, layer, experts.drop_last()).inserted(
            ExpertKey { layer, expert: experts.last() },
        )
    }
}

impl<Q> HybridView<Q> {
    /// The plan for a layer when `n_fetch` missing experts are fetched.
    pub open spec fn plan(self, layer: u32, routed: Seq<u32>, n_fetch: nat) -> PlanView {
        plan::plan_of(routed, flags(self.cache, layer, routed), n_fetch)
    }

    /// The runtime after a layer was planned: hits are looked up in the cache, then what
    /// is fetched is put in; and everything is counted.
    pub open spec fn planned(self, layer: u32, p: PlanView) -> HybridView<Q> {
        HybridView {
            cache: inserted_all(
                touched_all(self.cache, layer, p.cache_hits),
                layer,
                plan::fetched(p.misses),
            ),
            q: self.q,
            stats: HybridStats {
                hits: (self.stats.hits + p.cache_hits.len()) as u64,
                fetches: (self.stats.fetches + plan::fetched(p.misses).len()) as u64,
                cpu_misses: (self.stats.cpu_misses + plan::computed(p.misses).len()) as u64,
            },
        }
    }

    /// There is room to count `n` more experts of each kind.
    pub open spec fn can_count(self, n: nat) -> bool {
        &&& self.stats.hits + n <= u64::MAX
        &&& self.stats.fetches + n <= u64::MAX
        &&& self.stats.cpu_misses + n <= u64::MAX
    }
}

impl<Q> View for HybridRuntime<Q> {
    type V = HybridView<Q>;

    closed spec fn view(&self) -> HybridView<Q> {
        HybridView { cache: self.cache@, q: self.q, stats: self.stats }
    }
}

impl<Q> HybridRuntime<Q> {
    /// The cache is in order.
    pub closed spec fn inv(&self) -> bool {
        self.cache.inv()
    }

    /// A runtime with an empty cache and nothing counted.
    pub fn new(cache_slots: usize, q: Q) -> (rt: Self)
        ensures
            rt.inv(),
            rt@ == (HybridView {
                cache: CacheView { cap: cache_slots as nat, order: Seq::empty() },
                q,
                stats: HybridStats { hits: 0, fetches: 0, cpu_misses: 0 },
            }),
    {
        HybridRuntime { cache: LruExpertCache::new(cache_slots), q, stats: HybridStats::default() }
    }

    /// What was counted.
    pub fn stats(&self) -> (s: &HybridStats)
        ensures
            *s == self@.stats,
    {
        &self.stats
    }

    /// How many experts are in the cache.
    pub fn cache_len(&self) -> (n: usize)
        requires
            self.inv(),
        ensures
            n == self@.cache.order.len(),
    {
        self.cache.len()
    }

    /// Forgets what was counted; the cache stays as it is.
    pub fn reset_stats(&mut self)
        requires
            old(self).inv(),
        ensures
            final(self).inv(),
            final(self)@ == (HybridView {
                stats: HybridStats { hits: 0, fetches: 0, cpu_misses: 0 },
                ..old(self)@
            }),
    {
        self.stats = HybridStats::default();
    }

    fn cached_flags(&self, layer: u32, routed: &[u32]) -> (r: (Vec<bool>, usize))
        requires
            self.inv(),
        ensures
            r.0@ == flags(self@.cache, layer, routed@),
            r.1 == miss_count(self@.cache, layer, routed@),
    {
        let mut cached: Vec<bool> = Vec::new();
        let mut n_miss: usize = 0;
        for i in 0..routed.len()
            invariant
                self.inv(),
                cached@ == flags(self@.cache, layer, routed@.take(i as int)),
                n_miss <= i,
                n_miss == plan::picked(routed@.take(i as int), cached@, false).len(),
        {
            let c: bool = self.cache.contains(ExpertKey { layer, expert: routed[i] });
            let ghost before = cached@;
            cached.push(c);
            if !c {
                n_miss = n_miss + 1;
            }
            proof {
                assert(routed@.take(i + 1).take(i as int) =~= routed@.take(i as int));
                assert(cached@.take(i as int) =~= before);
                assert(cached@ =~= flags(self@.cache, layer, routed@.take(i + 1)));
            }
        }
        proof {
            assert(routed@.take(routed@.len() as int) =~= routed@);
        }
        (cached, n_miss)
    }

    /// Plans a layer in which `n_fetch` missing experts are fetched, and updates the cache
    /// and the counts.
    pub fn plan_layer_with(&mut self, layer: u32, routed: &[u32], n_fetch: usize) -> (p: MoePlan)
        requires
            old(self).inv(),
            old(self)@.can_count(routed@.len()),
        ensures
            final(self).inv(),
            p@ == old(self)@.plan(layer, routed@, n_fetch as nat),
            final(self)@ == old(self)@.planned(layer, p@),
    {
        let ghost pre = self@;
        let (cached, _) = self.cached_flags(layer, routed);
        let p = MoePlan::from_flags(routed, cached.as_slice(), n_fetch);
        let (h, f, c) = p.stats();
        proof {
            plan::law_split(routed@, cached@, n_fetch as nat);
        }
        self.stats.hits = self.stats.hits + h as u64;
        self.stats.fetches = self.stats.fetches + f as u64;
        self.stats.cpu_misses = self.stats.cpu_misses + c as u64;
        let ghost stats = self.stats;
        for i in 0..p.cache_hits.len()
            invariant
                self.inv(),
                self@.q == pre.q,
                self.stats == stats,
                self@.cache == touched_all(pre.cache, layer, p.cache_hits@.take(i as int)),
        {
            proof {
                assert(p.cache_hits@.take(i + 1).drop_last() =~= p.cache_hits@.take(i as int));
            }
            self.cache.touch(ExpertKey { layer, expert: p.cache_hits[i] });
        }
        proof {
            assert(p.cache_hits@.take(p.cache_hits@.len() as int) =~= p.cache_hits@);
        }
        let ghost mid = self@.cache;
        for i in 0..p.misses.len()
            invariant
                self.inv(),
                self@.q == pre.q,
                self.stats == stats,
                self@.cache == inserted_all(
                    mid,
                    layer,
                    plan::fetched(p.misses@.take(i as int)),
                ),
        {
            proof {
                assert(p.misses@.take(i + 1).drop_last() =~= p.misses@.take(i as int));
            }
            if let MissAction::Fetch { expert_id } = p.misses[i] {
                proof {
                    let before = plan::fetched(p.misses@.take(i as int));
                    assert(before.push(expert_id).drop_last() =~= before);
                }
                self.cache.insert(ExpertKey { layer, expert: expert_id });
            }
        }
        proof {
            assert(p.misses@.take(p.misses@.len() as int) =~= p.misses@);
        }
        p
    }

    /// The experts that a plan computes in main memory, as an array of `k` numbers for a
    /// kernel; where there are fewer, the rest is -1.
    pub fn cpu_ids(p: &MoePlan, k: usize) -> (ids: Vec<i32>)
        ensures
            ids@ == Seq::new(
                k as nat,
                |i: int|
                    if i < plan::computed(p@.misses).len() {
                        plan::computed(p@.misses)[i] as i32
                    } else {
                        -1i32
                    },
            ),
    {
        let mut ids: Vec<i32> = Vec::new();
        for i in 0..p.misses.len()
            invariant
                ids@.len() == if plan::computed(p.misses@.take(i as int)).len() <= k {
                    plan::computed(p.misses@.take(i as int)).len()
                } else {
                    k as nat
                },
                forall|j: int|
                    0 <= j < ids@.len() ==> #[trigger] ids@[j] == plan::computed(
                        p.misses@.take(i as int),
                    )[j] as i32,
        {
            proof {
                assert(p.misses@.take(i + 1).drop_last() =~= p.misses@.take(i as int));
            }
            if let MissAction::CpuCompute { expert_id } = p.misses[i] {
                if ids.len() < k {
                    ids.push(#[verifier::truncate] (expert_id as i32));
                }
            }
        }
        proof {
            assert(p.misses@.take(p.misses@.len() as int) =~= p.misses@);
        }
        let ghost full = ids@;
        while ids.len() < k
            invariant
                full.len() <= ids@.len() <= k,
                forall|j: int| 0 <= j < full.len() ==> #[trigger] ids@[j] == full[j],
                forall|j: int| full.len() <= j < ids@.len() ==> #[trigger] ids@[j] == -1i32,
            decreases k - ids.len(),
        {
            ids.push(-1);
        }
        ids
    }
}

/// Whether a kernel has anything to compute: whether any of the numbers is an expert.
pub fn any_expert(ids: &[i32]) -> (b: bool)
    ensures
        b == exists|i: int| 0 <= i < ids@.len() && #[trigger] ids@[i] >= 0,
{
    for i in 0..ids.len()
        invariant
            forall|j: int| 0 <= j < i ==> #[trigger] ids@[j] < 0,
    {
        if ids[i] >= 0 {
            return true;
        }
    }
    false
}

impl<Q: Fn(usize) -> usize> HybridRuntime<Q> {
    /// Plans a layer, with as many missing experts fetched as `q` says, and updates the
    /// cache and the counts.
    pub fn plan_layer(&mut self, layer: u32, routed: &[u32]) -> (p: MoePlan)
        requires
            old(self).inv(),
            old(self)@.can_count(routed@.len()),
            call_requires(
                old(self)@.q,
                (miss_count(old(self)@.cache, layer, routed@) as usize,),
            ),
        ensures
            final(self).inv(),
            planned_by_q(old(self)@, layer, routed@, p@),
            final(self)@ == old(self)@.planned(layer, p@),
    {
        let (_, n_miss) = self.cached_flags(layer, routed);
        let n_fetch: usize = (self.q)(n_miss);
        let p = self.plan_layer_with(layer, routed, n_fetch);
        p
    }
}

/// `p` is a plan in which as many missing experts are fetched as `q` says.
pub open spec fn planned_by_q<Q: Fn(usize) -> usize>(
    pre: HybridView<Q>,
    layer: u32,
    routed: Seq<u32>,
    p: PlanView,
) -> bool {
    exists|n_fetch: usize| #[trigger]
        call_ensures(pre.q, (miss_count(pre.cache, layer, routed) as usize,), n_fetch) && p
            == pre.plan(layer, routed, n_fetch as nat)
}

/// A plan counts no more experts of a kind than were routed.
pub proof fn lemma_plan_len<Q: Fn(usize) -> usize>(
    pre: HybridView<Q>,
    layer: u32,
    routed: Seq<u32>,
    p: PlanView,
)
    requires
        planned_by_q(pre, layer, routed, p),
    ensures
        p.cache_hits.len() + plan::fetched(p.misses).len() + plan::computed(p.misses).len()
            == routed.len(),
{
    let n_fetch = choose|n_fetch: usize| #[trigger]
        call_ensures(pre.q, (miss_count(pre.cache, layer, routed) as usize,), n_fetch) && p
            == pre.plan(layer, routed, n_fetch as nat);
    plan::law_split(routed, flags(pre.cache, layer, routed), n_fetch as nat);
}

proof fn lemma_touched_all(c: CacheView, layer: u32, experts: Seq<u32>)
    requires
        c.wf(),
    ensures
        touched_all(c, layer, experts).wf(),
        touched_all(c, layer, experts).cap == c.cap,
    decreases experts.len(),
{
    if experts.len() > 0 {
        lemma_touched_all(c, layer, experts.drop_last());
        cache::law_cache_wf(
            touched_all(c, layer, experts.drop_last()),
            ExpertKey { layer, expert: experts.last() },
        );
    }
}

/// The expert put in as number `i` stands no further from the back than there are
/// experts put in after it.
proof fn lemma_inserted_all(c: CacheView, layer: u32, experts: Seq<u32>, i: int)
    requires
        c.wf(),
        experts.len() <= c.cap,
        0 <= i < experts.len(),
    ensures
        ({
            let now = inserted_all(c, layer, experts);
            let k = ExpertKey { layer, expert: experts[i] };
            &&& now.wf()
            &&& now.cap == c.cap
            &&& now.order.contains(k)
            &&& now.order.index_of(k) >= now.order.len() - (experts.len() - i)
        }),
    decreases experts.len(),
{
    let before = experts.drop_last();
    let mid = inserted_all(c, layer, before);
    let last = ExpertKey { layer, expert: experts.last() };
    let k = ExpertKey { layer, expert: experts[i] };
    let now = mid.inserted(last);
    lemma_inserted_wf(c, layer, before);
    cache::law_cache_wf(mid, last);
    cache::law_hit_after_insert(mid, last);
    if k == last {
        assert(now.order[now.order.len() - 1] == k);
        assert(now.order.index_of(k) == now.order.len() - 1);
    } else {
        lemma_inserted_all(c, layer, before, i);
        let at = mid.order.index_of(k);
        assert(mid.order[at] == k);
        if mid.order.contains(last) {
            let gone = mid.order.index_of(last);
            assert(mid.order[gone] == last);
            if at < gone {
                assert(now.order[at] == k);
                assert(now.order.index_of(k) == at);
            } else {
                assert(now.order[at - 1] == k);
                assert(now.order.index_of(k) == at - 1);
            }
        } else if mid.order.len() >= mid.cap {
            assert(now.order[at - 1] == k);
            assert(now.order.index_of(k) == at - 1);
        } else {
            assert(now.order[at] == k);
            assert(now.order.index_of(k) == at);
        }
    }
}

proof fn lemma_inserted_wf(c: CacheView, layer: u32, experts: Seq<u32>)
    requires
        c.wf(),
    ensures
        inserted_all(c, layer, experts).wf(),
        inserted_all(c, layer, experts).cap == c.cap,
    decreases experts.len(),
{
    if experts.len() > 0 {
        lemma_inserted_wf(c, layer, experts.drop_last());
        cache::law_cache_wf(
            inserted_all(c, layer, experts.drop_last()),
            ExpertKey { layer, expert: experts.last() },
        );
    }
}

/// Planning a layer counts each of its experts once, keeps the cache in order, and never
/// makes it larger than its room.
pub proof fn law_layer_counted<Q>(
    pre: HybridView<Q>,
    layer: u32,
    routed: Seq<u32>,
    n_fetch: nat,
)
    requires
        pre.cache.wf(),
        pre.can_count(routed.len()),
    ensures
        ({
            let post = pre.planned(layer, pre.plan(layer, routed, n_fetch));
            &&& post.stats.sum() == pre.stats.sum() + routed.len()
            &&& post.cache.wf()
            &&& post.cache.cap == pre.cache.cap
        }),
{
    let p = pre.plan(layer, routed, n_fetch);
    plan::law_split(routed, flags(pre.cache, layer, routed), n_fetch);
    lemma_touched_all(pre.cache, layer, p.cache_hits);
    lemma_inserted_wf(
        touched_all(pre.cache, layer, p.cache_hits),
        layer,
        plan::fetched(p.misses),
    );
}

/// What a layer fetched is in the cache afterwards, as long as there is room for all of
/// it: the same experts are hits in the next step.
pub proof fn law_fetched_hit_next<Q>(
    pre: HybridView<Q>,
    layer: u32,
    routed: Seq<u32>,
    n_fetch: nat,
    i: int,
)
    requires
        pre.cache.wf(),
        ({
            let f = plan::fetched(pre.plan(layer, routed, n_fetch).misses);
            f.len() <= pre.cache.cap && 0 <= i < f.len()
        }),
    ensures
        ({
            let p = pre.plan(layer, routed, n_fetch);
            pre.planned(layer, p).cache.order.contains(
                ExpertKey { layer, expert: plan::fetched(p.misses)[i] },
            )
        }),
{
    let p = pre.plan(layer, routed, n_fetch);
    lemma_touched_all(pre.cache, layer, p.cache_hits);
    lemma_inserted_all(
        touched_all(pre.cache, layer, p.cache_hits),
        layer,
        plan::fetched(p.misses),
        i,
    );
}

/// The keys of experts of a layer.
pub open spec fn keys(layer: u32, experts: Seq<u32>) -> Set<ExpertKey> {
    experts.map_values(|e: u32| ExpertKey { layer, expert: e }).to_set()
}

/// What plans of the given layers fetched.
pub open spec fn fetched_keys(layers: Seq<u32>, plans: Seq<PlanView>) -> Set<ExpertKey>
    decreases plans.len(),
{
    if plans.len() == 0 {
        Set::empty()
    } else {
        fetched_keys(layers.drop_last(), plans.drop_last()).union(
            keys(layers.last(), plan::fetched(plans.last().misses)),
        )
    }
}

/// One layer is planned, whatever number of missing experts is fetched. Counts may be
/// forgotten afterwards.
pub open spec fn plan_taken<Q>(
    pre: HybridView<Q>,
    layer: u32,
    routed: Seq<u32>,
    p: PlanView,
    post: HybridView<Q>,
) -> bool {
    &&& exists|n_fetch: nat| p == #[trigger] pre.plan(layer, routed, n_fetch)
    &&& post.cache == pre.planned(layer, p).cache
}

/// Plans that follow one another.
pub open spec fn plans_taken<Q>(
    states: Seq<HybridView<Q>>,
    layers: Seq<u32>,
    routed: Seq<Seq<u32>>,
    plans: Seq<PlanView>,
) -> bool {
    &&& layers.len() == plans.len()
    &&& routed.len() == plans.len()
    &&& states.len() == plans.len() + 1
    &&& forall|i: int|
        0 <= i < plans.len() ==> plan_taken(
            states[i],
            layers[i],
            routed[i],
            #[trigger] plans[i],
            states[i + 1],
        )
}

/// Whether a plan of the same layer before plan `i` fetched an expert.
pub open spec fn fetched_before(layers: Seq<u32>, plans: Seq<PlanView>, i: int, e: u32) -> bool {
    exists|j: int|
        0 <= j < i && layers[j] == layers[i] && plan::fetched((#[trigger] plans[j]).misses).contains(e)
}

/// From an empty cache on, and as long as it has room for all that was fetched, the hits of
/// a plan are exactly the routed experts that an earlier plan of the same layer fetched.
pub proof fn law_hits_were_fetched<Q>(
    states: Seq<HybridView<Q>>,
    layers: Seq<u32>,
    routed: Seq<Seq<u32>>,
    plans: Seq<PlanView>,
    i: int,
)
    requires
        plans_taken(states, layers, routed, plans),
        states[0].cache.order.len() == 0,
        0 <= i < plans.len(),
        fetched_keys(layers.take(i), plans.take(i)).len() <= states[0].cache.cap,
    ensures
        plans[i].cache_hits == plan::picked(
            routed[i],
            routed[i].map_values(|e: u32| fetched_before(layers, plans, i, e)),
            true,
        ),
{
    lemma_all_kept(states, layers, routed, plans, i);
    let c = states[i].cache;
    let layer = layers[i];
    assert(plan_taken(states[i], layer, routed[i], plans[i], states[i + 1]));
    assert forall|e: u32|
        #![trigger fetched_before(layers, plans, i, e)]
        fetched_before(layers, plans, i, e) == c.order.contains(
            ExpertKey { layer, expert: e },
        ) by {
        let k = ExpertKey { layer, expert: e };
        lemma_fetched_keys(layers.take(i), plans.take(i), k);
        assert(c.order.to_set().contains(k) == c.order.contains(k));
        if fetched_before(layers, plans, i, e) {
            let j = choose|j: int|
                0 <= j < i && layers[j] == layers[i] && plan::fetched(
                    (#[trigger] plans[j]).misses,
                ).contains(e);
            assert(plans.take(i)[j] == plans[j]);
        }
        if c.order.contains(k) {
            let j = choose|j: int|
                0 <= j < i && layers.take(i)[j] == k.layer && plan::fetched(
                    (#[trigger] plans.take(i)[j]).misses,
                ).contains(k.expert);
            assert(plans[j] == plans.take(i)[j]);
        }
    }
    assert(routed[i].map_values(|e: u32| fetched_before(layers, plans, i, e)) =~= flags(
        c,
        layer,
        routed[i],
    ));
}

proof fn lemma_keys(layer: u32, experts: Seq<u32>, k: ExpertKey)
    ensures
        keys(layer, experts).contains(k) == (k.layer == layer && experts.contains(k.expert)),
        keys(layer, experts).finite(),
{
    let s = experts.map_values(|e: u32| ExpertKey { layer, expert: e });
    vstd::seq_lib::seq_to_set_is_finite(s);
    if s.contains(k) {
        let j = s.index_of(k);
        assert(experts[j] == k.expert);
    }
    if k.layer == layer && experts.contains(k.expert) {
        let j = experts.index_of(k.expert);
        assert(s[j] == k);
    }
}

proof fn lemma_fetched_keys(layers: Seq<u32>, plans: Seq<PlanView>, k: ExpertKey)
    requires
        layers.len() == plans.len(),
    ensures
        fetched_keys(layers, plans).finite(),
        fetched_keys(layers, plans).contains(k) == exists|j: int|
            0 <= j < plans.len() && layers[j] == k.layer && plan::fetched(
                (#[trigger] plans[j]).misses,
            ).contains(k.expert),
    decreases plans.len(),
{
    if plans.len() > 0 {
        let l = layers.drop_last();
        let p = plans.drop_last();
        let n = p.len() as int;
        lemma_fetched_keys(l, p, k);
        lemma_keys(layers.last(), plan::fetched(plans.last().misses), k);
        if fetched_keys(l, p).contains(k) {
            let j = choose|j: int|
                0 <= j < p.len() && l[j] == k.layer && plan::fetched(
                    (#[trigger] p[j]).misses,
                ).contains(k.expert);
            assert(plans[j] == p[j]);
        }
        if keys(layers.last(), plan::fetched(plans.last().misses)).contains(k) {
            assert(plans[n] == plans.last());
        }
        if exists|j: int|
            0 <= j < plans.len() && layers[j] == k.layer && plan::fetched(
                (#[trigger] plans[j]).misses,
            ).contains(k.expert) {
            let j = choose|j: int|
                0 <= j < plans.len() && layers[j] == k.layer && plan::fetched(
                    (#[trigger] plans[j]).misses,
                ).contains(k.expert);
            if j < n {
                assert(p[j] == plans[j]);
            }
        }
    }
}

/// Looking experts up neither adds nor drops one.
proof fn lemma_touched_set(c: CacheView, layer: u32, experts: Seq<u32>)
    requires
        c.wf(),
    ensures
        touched_all(c, layer, experts).order.to_set() == c.order.to_set(),
    decreases experts.len(),
{
    if experts.len() > 0 {
        let k = ExpertKey { layer, expert: experts.last() };
        let mid = touched_all(c, layer, experts.drop_last());
        lemma_touched_set(c, layer, experts.drop_last());
        lemma_touched_all(c, layer, experts.drop_last());
        lemma_touch_set(mid, k);
    }
}

proof fn lemma_touch_set(c: CacheView, k: ExpertKey)
    requires
        c.wf(),
    ensures
        c.touched(k).order.to_set() == c.order.to_set(),
{
    if c.order.contains(k) {
        let at = c.order.index_of(k);
        let now = cache::to_back(c.order, k);
        assert forall|x: ExpertKey| now.contains(x) == c.order.contains(x) by {
            if c.order.contains(x) {
                let j = c.order.index_of(x);
                if j < at {
                    assert(now[j] == x);
                } else if j == at {
                    assert(now[now.len() - 1] == x);
                } else {
                    assert(now[j - 1] == x);
                }
            }
            if now.contains(x) {
                let j = now.index_of(x);
                if j == now.len() - 1 {
                    assert(c.order[at] == x);
                } else if j < at {
                    assert(c.order[j] == x);
                } else {
                    assert(c.order[j + 1] == x);
                }
            }
        }
        assert(now.to_set() =~= c.order.to_set());
    }
}

/// Experts that there is room for are put in and nothing is dropped.
proof fn lemma_inserted_set(c: CacheView, layer: u32, experts: Seq<u32>)
    requires
        c.wf(),
        c.order.to_set().union(keys(layer, experts)).len() <= c.cap,
    ensures
        inserted_all(c, layer, experts).order.to_set() == c.order.to_set().union(
            keys(layer, experts),
        ),
    decreases experts.len(),
{
    let held = c.order.to_set();
    vstd::seq_lib::seq_to_set_is_finite(c.order);
    if experts.len() == 0 {
        assert(keys(layer, experts) =~= Set::empty()) by {
            assert forall|k: ExpertKey| !keys(layer, experts).contains(k) by {
                lemma_keys(layer, experts, k);
            }
        }
        assert(held.union(keys(layer, experts)) =~= held);
    } else {
        let before = experts.drop_last();
        let last = ExpertKey { layer, expert: experts.last() };
        let some = held.union(keys(layer, before));
        let all = held.union(keys(layer, experts));
        lemma_keys(layer, before, last);
        lemma_keys(layer, experts, last);
        assert(all =~= some.insert(last)) by {
            assert forall|k: ExpertKey| all.contains(k) == some.insert(last).contains(k) by {
                lemma_keys(layer, before, k);
                lemma_keys(layer, experts, k);
                assert(experts =~= before.push(experts.last()));
                if before.contains(k.expert) {
                    let j = before.index_of(k.expert);
                    assert(experts[j] == k.expert);
                }
                if experts.contains(k.expert) {
                    let j = experts.index_of(k.expert);
                    if j < before.len() {
                        assert(before[j] == k.expert);
                    }
                }
                if k == last {
                    assert(experts[experts.len() - 1] == k.expert);
                }
            }
        }
        assert(some.len() <= all.len());
        lemma_inserted_set(c, layer, before);
        lemma_inserted_wf(c, layer, before);
        let mid = inserted_all(c, layer, before);
        mid.order.unique_seq_to_set();
        assert(mid.order.to_set().contains(last) == mid.order.contains(last));
        if mid.order.contains(last) {
            lemma_touch_set(mid, last);
            assert(some.insert(last) =~= some);
        } else {
            assert(mid.order.len() + 1 <= mid.cap);
            let now = mid.order.push(last);
            assert forall|k: ExpertKey| now.contains(k) == mid.order.to_set().insert(
                last,
            ).contains(k) by {
                if mid.order.contains(k) {
                    let j = mid.order.index_of(k);
                    assert(now[j] == k);
                }
                if now.contains(k) {
                    let j = now.index_of(k);
                    if j < mid.order.len() {
                        assert(mid.order[j] == k);
                    }
                }
                if k == last {
                    assert(now[now.len() - 1] == k);
                }
            }
            assert(now.to_set() =~= some.insert(last));
        }
    }
}

/// As long as there is room, the cache holds what was fetched.
proof fn lemma_all_kept<Q>(
    states: Seq<HybridView<Q>>,
    layers: Seq<u32>,
    routed: Seq<Seq<u32>>,
    plans: Seq<PlanView>,
    i: int,
)
    requires
        plans_taken(states, layers, routed, plans),
        states[0].cache.order.len() == 0,
        0 <= i <= plans.len(),
        fetched_keys(layers.take(i), plans.take(i)).len() <= states[0].cache.cap,
    ensures
        states[i].cache.wf(),
        states[i].cache.cap == states[0].cache.cap,
        states[i].cache.order.to_set() == fetched_keys(layers.take(i), plans.take(i)),
    decreases i,
{
    if i == 0 {
        assert(states[0].cache.order.to_set() =~= Set::empty());
    } else {
        let p = i - 1;
        let l1 = layers.take(i);
        let p1 = plans.take(i);
        assert(l1.drop_last() =~= layers.take(p));
        assert(p1.drop_last() =~= plans.take(p));
        let some = fetched_keys(layers.take(p), plans.take(p));
        let all = fetched_keys(l1, p1);
        let any = ExpertKey { layer: 0, expert: 0 };
        lemma_fetched_keys(layers.take(p), plans.take(p), any);
        lemma_fetched_keys(l1, p1, any);
        vstd::set_lib::lemma_len_subset(some, all);
        lemma_all_kept(states, layers, routed, plans, p);
        assert(plan_taken(states[p], layers[p], routed[p], plans[p], states[p + 1]));
        let c = states[p].cache;
        let plan = plans[p];
        let touched = touched_all(c, layers[p], plan.cache_hits);
        lemma_touched_all(c, layers[p], plan.cache_hits);
        lemma_touched_set(c, layers[p], plan.cache_hits);
        lemma_inserted_wf(touched, layers[p], plan::fetched(plan.misses));
        lemma_inserted_set(touched, layers[p], plan::fetched(plan.misses));
    }
}

/// The experts that a plan uses: its hits, then those that it fetches, in order.
pub open spec fn uses_of(layer: u32, p: PlanView) -> Seq<ExpertKey> {
    (p.cache_hits + p.misses.filter(|m: MissAction| m is Fetch).map_values(
        |m: MissAction| m->Fetch_expert_id,
    )).map_values(|e: u32| ExpertKey { layer, expert: e })
}

/// The experts that plans of the given layers use, in order.
pub open spec fn all_uses(layers: Seq<u32>, plans: Seq<PlanView>) -> Seq<ExpertKey>
    decreases plans.len(),
{
    if plans.len() == 0 {
        Seq::empty()
    } else {
        all_uses(layers.drop_last(), plans.drop_last()) + uses_of(layers.last(), plans.last())
    }
}

/// Whether an expert is among those used last: whether it was used, and from its last use on
/// no more different experts were used than there is room for.
pub open spec fn used_lately(uses: Seq<ExpertKey>, cap: nat, k: ExpertKey) -> bool {
    exists|i: int| 0 <= i < uses.len() && #[trigger] uses[i] == k && uses.skip(i).to_set().len() <= cap
}

/// From an empty cache on, also when it is full: the cache holds exactly the experts that
/// were used last, as many as it has room for, where a hit is a use as much as a fetch is. So
/// the hits of a plan are exactly the routed experts that were used lately, in their order,
/// and all other routed experts are missed.
pub proof fn law_cache_holds_last_used<Q>(
    states: Seq<HybridView<Q>>,
    layers: Seq<u32>,
    routed: Seq<Seq<u32>>,
    plans: Seq<PlanView>,
    i: int,
)
    requires
        plans_taken(states, layers, routed, plans),
        states[0].cache.order.len() == 0,
        0 <= i <= plans.len(),
    ensures
        states[i].cache.cap == states[0].cache.cap,
        forall|k: ExpertKey| #[trigger]
            states[i].cache.order.contains(k) <==> exists|u: int|
                0 <= u < all_uses(layers.take(i), plans.take(i)).len() && #[trigger] all_uses(
                    layers.take(i),
                    plans.take(i),
                )[u] == k && all_uses(layers.take(i), plans.take(i)).skip(u).to_set().len()
                    <= states[0].cache.cap,
        i < plans.len() ==> plans[i].cache_hits == routed[i].filter(
            |e: u32|
                used_lately(
                    all_uses(layers.take(i), plans.take(i)),
                    states[0].cache.cap,
                    ExpertKey { layer: layers[i], expert: e },
                ),
        ),
        i < plans.len() ==> plans[i].misses.len() == routed[i].len() - plans[i].cache_hits.len(),
{
    lemma_cache_after(states, layers, routed, plans, i);
    let uses = all_uses(layers.take(i), plans.take(i));
    let cap = states[0].cache.cap;
    let c = states[i].cache;
    assert forall|k: ExpertKey| #[trigger] c.order.contains(k) <==> exists|u: int|
        0 <= u < uses.len() && #[trigger] uses[u] == k && uses.skip(u).to_set().len() <= cap by {
        cache::law_held_by_recency(cap, uses, k);
    }
    if i < plans.len() {
        let layer = layers[i];
        assert(plan_taken(states[i], layer, routed[i], plans[i], states[i + 1]));
        let n_fetch = choose|n_fetch: nat| plans[i] == #[trigger] states[i].plan(
            layer,
            routed[i],
            n_fetch,
        );
        let held = |e: u32| used_lately(uses, cap, ExpertKey { layer, expert: e });
        assert forall|e: u32| #[trigger] held(e) == c.order.contains(
            ExpertKey { layer, expert: e },
        ) by {
            cache::law_held_by_recency(cap, uses, ExpertKey { layer, expert: e });
        }
        lemma_hits_filter(c, layer, routed[i], held);
        plan::law_split(routed[i], flags(c, layer, routed[i]), n_fetch);
        lemma_miss_len(routed[i], flags(c, layer, routed[i]), n_fetch);
    }
}

proof fn lemma_miss_len(routed: Seq<u32>, cached: Seq<bool>, n_fetch: nat)
    requires
        routed.len() == cached.len(),
    ensures
        plan::plan_of(routed, cached, n_fetch).misses.len() == routed.len() - plan::plan_of(
            routed,
            cached,
            n_fetch,
        ).cache_hits.len(),
{
    let p = plan::plan_of(routed, cached, n_fetch);
    plan::law_split(routed, cached, n_fetch);
    lemma_kinds_len(p.misses);
}

proof fn lemma_kinds_len(misses: Seq<MissAction>)
    ensures
        plan::fetched(misses).len() + plan::computed(misses).len() == misses.len(),
    decreases misses.len(),
{
    if misses.len() > 0 {
        lemma_kinds_len(misses.drop_last());
    }
}

proof fn lemma_hits_filter(c: CacheView, layer: u32, routed: Seq<u32>, held: spec_fn(u32) -> bool)
    requires
        forall|e: u32| #[trigger] held(e) == c.order.contains(ExpertKey { layer, expert: e }),
    ensures
        plan::picked(routed, flags(c, layer, routed), true) == routed.filter(held),
    decreases routed.len(),
{
    reveal(Seq::filter);
    if routed.len() > 0 {
        let n = routed.len() - 1;
        lemma_hits_filter(c, layer, routed.drop_last(), held);
        assert(routed.take(n) =~= routed.drop_last());
        assert(flags(c, layer, routed).take(n) =~= flags(c, layer, routed.drop_last()));
        assert(held(routed[n]) == c.order.contains(ExpertKey { layer, expert: routed[n] }));
    } else {
        assert(plan::picked(routed, flags(c, layer, routed), true) =~= routed.filter(held));
    }
}

proof fn lemma_cache_after<Q>(
    states: Seq<HybridView<Q>>,
    layers: Seq<u32>,
    routed: Seq<Seq<u32>>,
    plans: Seq<PlanView>,
    i: int,
)
    requires
        plans_taken(states, layers, routed, plans),
        states[0].cache.order.len() == 0,
        0 <= i <= plans.len(),
    ensures
        states[i].cache.wf(),
        states[i].cache == cache::after(
            CacheView { cap: states[0].cache.cap, order: Seq::empty() },
            all_uses(layers.take(i), plans.take(i)),
        ),
        states[i].cache.cap == states[0].cache.cap,
    decreases i,
{
    let empty = CacheView { cap: states[0].cache.cap, order: Seq::<ExpertKey>::empty() };
    if i == 0 {
        assert(states[0].cache.order =~= Seq::empty());
    } else {
        let p = i - 1;
        lemma_cache_after(states, layers, routed, plans, p);
        assert(plan_taken(states[p], layers[p], routed[p], plans[p], states[p + 1]));
        assert(layers.take(i).drop_last() =~= layers.take(p));
        assert(plans.take(i).drop_last() =~= plans.take(p));
        let c = states[p].cache;
        let layer = layers[p];
        let now = plans[p];
        let n_fetch = choose|n_fetch: nat| now == #[trigger] states[p].plan(
            layer,
            routed[p],
            n_fetch,
        );
        lemma_hits_held(c, layer, routed[p]);
        lemma_touch_is_use(c, layer, now.cache_hits);
        lemma_touched_all(c, layer, now.cache_hits);
        let mid = touched_all(c, layer, now.cache_hits);
        lemma_insert_is_use(mid, layer, plan::fetched(now.misses));
        lemma_inserted_wf(mid, layer, plan::fetched(now.misses));
        plan::law_fetched_and_computed(now.misses);
        let key = |e: u32| ExpertKey { layer, expert: e };
        let f = plan::fetched(now.misses);
        assert(uses_of(layer, now) =~= now.cache_hits.map_values(key) + f.map_values(key));
        cache::law_uses_in_turn(c, now.cache_hits.map_values(key), f.map_values(key));
        cache::law_uses_in_turn(
            empty,
            all_uses(layers.take(p), plans.take(p)),
            uses_of(layer, now),
        );
    }
}

proof fn lemma_hits_held(c: CacheView, layer: u32, routed: Seq<u32>)
    ensures
        forall|j: int|
            #![trigger plan::picked(routed, flags(c, layer, routed), true)[j]]
            0 <= j < plan::picked(routed, flags(c, layer, routed), true).len()
                ==> c.order.contains(
                ExpertKey { layer, expert: plan::picked(routed, flags(c, layer, routed), true)[j] },
            ),
    decreases routed.len(),
{
    if routed.len() > 0 {
        let n = routed.len() - 1;
        lemma_hits_held(c, layer, routed.take(n));
        assert(flags(c, layer, routed).take(n) =~= flags(c, layer, routed.take(n)));
    }
}

proof fn lemma_touch_is_use(c: CacheView, layer: u32, experts: Seq<u32>)
    requires
        c.wf(),
        forall|j: int|
            0 <= j < experts.len() ==> c.order.contains(
                ExpertKey { layer, expert: #[trigger] experts[j] },
            ),
    ensures
        touched_all(c, layer, experts) == cache::after(
            c,
            experts.map_values(|e: u32| ExpertKey { layer, expert: e }),
        ),
    decreases experts.len(),
{
    let key = |e: u32| ExpertKey { layer, expert: e };
    if experts.len() > 0 {
        let init = experts.drop_last();
        assert forall|j: int| 0 <= j < init.len() implies c.order.contains(
            ExpertKey { layer, expert: #[trigger] init[j] },
        ) by {
            assert(init[j] == experts[j]);
        }
        lemma_touch_is_use(c, layer, init);
        lemma_touched_set(c, layer, init);
        let mid = touched_all(c, layer, init);
        let k = ExpertKey { layer, expert: experts[experts.len() - 1] };
        assert(c.order.contains(k));
        assert(mid.order.to_set().contains(k));
        assert(experts.map_values(key).drop_last() =~= init.map_values(key));
    }
}

proof fn lemma_insert_is_use(c: CacheView, layer: u32, experts: Seq<u32>)
    ensures
        inserted_all(c, layer, experts) == cache::after(
            c,
            experts.map_values(|e: u32| ExpertKey { layer, expert: e }),
        ),
    decreases experts.len(),
{
    let key = |e: u32| ExpertKey { layer, expert: e };
    if experts.len() > 0 {
        lemma_insert_is_use(c, layer, experts.drop_last());
        assert(experts.map_values(key).drop_last() =~= experts.drop_last().map_values(key));
    }
}

/// Whatever the cache holds, the hits of a plan are the routed experts that are in it, in
/// their order. Of the others the first `n_fetch` are fetched and the rest computed, and each
/// is counted as what it was.
pub proof fn law_layer_parts<Q>(pre: HybridView<Q>, layer: u32, routed: Seq<u32>, n_fetch: nat)
    requires
        pre.can_count(routed.len()),
    ensures
        ({
            let p = pre.plan(layer, routed, n_fetch);
            let post = pre.planned(layer, p);
            let held = |e: u32| pre.cache.order.contains(ExpertKey { layer, expert: e });
            let missed = |e: u32| !pre.cache.order.contains(ExpertKey { layer, expert: e });
            let missing = routed.filter(missed);
            let n = if n_fetch <= missing.len() {
                n_fetch as int
            } else {
                missing.len() as int
            };
            &&& p.cache_hits == routed.filter(held)
            &&& p.misses.len() == missing.len()
            &&& forall|i: int|
                0 <= i < n ==> #[trigger] p.misses[i] == (MissAction::Fetch {
                    expert_id: missing[i],
                })
            &&& forall|i: int|
                n <= i < missing.len() ==> #[trigger] p.misses[i] == (MissAction::CpuCompute {
                    expert_id: missing[i],
                })
            &&& miss_count(pre.cache, layer, routed) == missing.len()
            &&& post.stats.hits == pre.stats.hits + routed.filter(held).len()
            &&& post.stats.fetches == pre.stats.fetches + n
            &&& post.stats.cpu_misses == pre.stats.cpu_misses + missing.len() - n
            &&& post.q == pre.q
        }),
{
    let marks = flags(pre.cache, layer, routed);
    let held = |e: u32| pre.cache.order.contains(ExpertKey { layer, expert: e });
    let missed = |e: u32| !pre.cache.order.contains(ExpertKey { layer, expert: e });
    lemma_picked_held(pre.cache, layer, routed);
    plan::law_split(routed, marks, n_fetch);
    assert(plan::picked(routed, marks, true) == routed.filter(held));
    assert(plan::picked(routed, marks, false) == routed.filter(missed));
}

proof fn lemma_picked_held(c: CacheView, layer: u32, routed: Seq<u32>)
    ensures
        plan::picked(routed, flags(c, layer, routed), true) == routed.filter(
            |e: u32| c.order.contains(ExpertKey { layer, expert: e }),
        ),
        plan::picked(routed, flags(c, layer, routed), false) == routed.filter(
            |e: u32| !c.order.contains(ExpertKey { layer, expert: e }),
        ),
    decreases routed.len(),
{
    reveal(Seq::filter);
    let held = |e: u32| c.order.contains(ExpertKey { layer, expert: e });
    let missed = |e: u32| !c.order.contains(ExpertKey { layer, expert: e });
    let marks = flags(c, layer, routed);
    if routed.len() > 0 {
        let n = routed.len() - 1;
        let init = routed.drop_last();
        lemma_picked_held(c, layer, init);
        assert(routed.take(n) =~= init);
        assert(marks.take(n) =~= flags(c, layer, init));
        assert(marks[n] == held(routed[n]));
    }
    assert(plan::picked(routed, marks, true) =~= routed.filter(held));
    assert(plan::picked(routed, marks, false) =~= routed.filter(missed));
}

/// How many missing experts are fetched is what `q` says for the number of routed experts
/// that are not in the cache.
pub proof fn law_fetches_by_q<Q: Fn(usize) -> usize>(
    pre: HybridView<Q>,
    layer: u32,
    routed: Seq<u32>,
    p: PlanView,
)
    requires
        planned_by_q(pre, layer, routed, p),
    ensures
        ({
            let missing = routed.filter(
                |e: u32| !pre.cache.order.contains(ExpertKey { layer, expert: e }),
            ).len();
            exists|n_fetch: usize| #[trigger]
                call_ensures(pre.q, (missing as usize,), n_fetch) && p == pre.plan(
                    layer,
                    routed,
                    n_fetch as nat,
                )
        }),
{
    lemma_picked_held(pre.cache, layer, routed);
}

} // verus!
