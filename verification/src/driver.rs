//! Drives the layers of one decoded token: plan, then compute.

use vstd::prelude::*;

use crate::hybrid;
use crate::hybrid::{HybridRuntime, HybridView};
use crate::plan::{MoePlan, PlanView};

verus! {

/// Computes one layer. Each kernel says for itself what computing does to it.
pub trait MoeKernel: Sized {
    /// What `compute` does to the kernel; a kernel may leave it open.
    open spec fn compute_post(pre: Self, plan: PlanView, layer: u32, post: Self) -> bool {
        true
    }

    /// Computes a layer by its plan.
    fn compute(&mut self, plan: &MoePlan, layer: u32)
        ensures
            Self::compute_post(*old(self), plan@, layer, *final(self)),
    ;
}

/// Connects the decisions of a runtime to a kernel.
pub struct DecodeDriver<K: MoeKernel, Q: Fn(usize) -> usize> {
    pub rt: HybridRuntime<Q>,
    pub kernel: K,
    pub layers: usize,
}

/// The router gives at most `n` experts for any layer.
pub open spec fn routes_at_most<R: FnMut(u32) -> Vec<u32>>(router: R, n: nat) -> bool {
    forall|layer: u32, routed: Vec<u32>| #[trigger]
        call_ensures(router, (layer,), routed) ==> routed@.len() <= n
}

/// One layer with the experts `routed`: the runtime plans them, the kernel computes.
pub open spec fn layer_run<K: MoeKernel, Q: Fn(usize) -> usize>(
    layer: u32,
    routed: Seq<u32>,
    pre: (HybridView<Q>, K),
    post: (HybridView<Q>, K),
) -> bool {
    exists|p: PlanView| #[trigger]
        hybrid::planned_by_q(pre.0, layer, routed, p) && post.0 == pre.0.planned(layer, p)
            && K::compute_post(pre.1, p, layer, post.1)
}

/// One layer with experts that the router names.
pub open spec fn layer_done<K: MoeKernel, Q: Fn(usize) -> usize, R: FnMut(u32) -> Vec<u32>>(
    router: R,
    layer: u32,
    pre: (HybridView<Q>, K),
    post: (HybridView<Q>, K),
) -> bool {
    exists|routed: Vec<u32>| #[trigger]
        call_ensures(router, (layer,), routed) && layer_run(layer, routed@, pre, post)
}

/// The states of runtime and kernel between the layers of one token.
pub open spec fn layers_done<K: MoeKernel, Q: Fn(usize) -> usize, R: FnMut(u32) -> Vec<u32>>(
    router: R,
    states: Seq<(HybridView<Q>, K)>,
) -> bool {
    forall|l: int|
        0 <= l < states.len() - 1 ==> layer_done(
            router,
            l as u32,
            #[trigger] states[l],
            states[l + 1],
        )
}

proof fn lemma_push_layer<K: MoeKernel, Q: Fn(usize) -> usize, R: FnMut(u32) -> Vec<u32>>(
    router: R,
    states: Seq<(HybridView<Q>, K)>,
    post: (HybridView<Q>, K),
)
    requires
        states.len() > 0,
        layers_done(router, states),
        layer_done(router, (states.len() - 1) as u32, states.last(), post),
    ensures
        layers_done(router, states.push(post)),
{
    let all = states.push(post);
    assert forall|k: int| 0 <= k < all.len() - 1 implies layer_done(
        router,
        k as u32,
        #[trigger] all[k],
        all[k + 1],
    ) by {
        assert(all[k] == states[k]);
        if k < states.len() - 1 {
            assert(all[k + 1] == states[k + 1]);
        }
    }
}

proof fn lemma_count_room(n: nat, l: nat, total: nat)
    requires
        l < total,
    ensures
        n * total - n * l >= n,
        n * (l + 1) == n * l + n,
{
    assert(n * total - n * l >= n) by (nonlinear_arith)
        requires
            l < total,
    ;
    assert(n * (l + 1) == n * l + n) by (nonlinear_arith);
}

impl<K: MoeKernel, Q: Fn(usize) -> usize> DecodeDriver<K, Q> {
    /// A driver with an empty cache.
    pub fn new(cache_slots: usize, q: Q, kernel: K, layers: usize) -> (d: Self)
        ensures
            d.rt.inv(),
            d.rt@.cache.cap == cache_slots,
            d.rt@.cache.order.len() == 0,
            d.rt@.q == q,
            d.rt@.stats.sum() == 0,
            d.kernel == kernel,
            d.layers == layers,
    {
        DecodeDriver { rt: HybridRuntime::new(cache_slots, q), kernel, layers }
    }

    /// Plans and computes one layer with the experts `routed`.
    pub fn decode_layer(&mut self, layer: u32, routed: &[u32])
        requires
            old(self).rt.inv(),
            old(self).rt@.can_count(routed@.len()),
            forall|n: usize| #[trigger] call_requires(old(self).rt@.q, (n,)),
        ensures
            final(self).rt.inv(),
            final(self).rt@.q == old(self).rt@.q,
            final(self).layers == old(self).layers,
            layer_run(
                layer,
                routed@,
                (old(self).rt@, old(self).kernel),
                (final(self).rt@, final(self).kernel),
            ),
            forall|n: nat|
                n >= routed@.len() && #[trigger] old(self).rt@.can_count(n)
                    ==> final(self).rt@.can_count((n - routed@.len()) as nat),
    {
        let ghost pre = (self.rt@, self.kernel);
        let p = self.rt.plan_layer(layer, routed);
        self.kernel.compute(&p, layer);
        proof {
            let post = (self.rt@, self.kernel);
            hybrid::lemma_plan_len(pre.0, layer, routed@, p@);
            assert(hybrid::planned_by_q(pre.0, layer, routed@, p@));
            assert(post.0 == pre.0.planned(layer, p@));
            assert(K::compute_post(pre.1, p@, layer, post.1));
        }
    }

    /// Plans and computes every layer in turn; `router` gives the experts of a layer.
    pub fn decode_token<R: FnMut(u32) -> Vec<u32>>(&mut self, mut router: R)
        requires
            old(self).rt.inv(),
            forall|l: int|
                0 <= l < old(self).layers ==> #[trigger] call_requires(router, (l as u32,)),
            forall|n: usize| #[trigger] call_requires(old(self).rt@.q, (n,)),
            exists|n: nat| #[trigger]
                routes_at_most(router, n) && old(self).rt@.can_count(n * old(self).layers as nat),
        ensures
            final(self).rt.inv(),
            final(self).rt@.q == old(self).rt@.q,
            final(self).layers == old(self).layers,
            forall|n: nat, m: nat|
                #![trigger routes_at_most(router, n), old(self).rt@.can_count(m)]
                routes_at_most(router, n) && old(self).rt@.can_count(m) && n * old(
                    self,
                ).layers as nat <= m ==> final(self).rt@.can_count(
                    (m - n * old(self).layers as nat) as nat,
                ),
            exists|states: Seq<(HybridView<Q>, K)>| #[trigger]
                layers_done(router, states) && states.len() == old(self).layers + 1 && states[0] == (
                    old(self).rt@,
                    old(self).kernel,
                ) && states.last() == (final(self).rt@, final(self).kernel),
    {
        let ghost router0 = router;
        let ghost n = choose|n: nat| #[trigger]
            routes_at_most(router, n) && self.rt@.can_count(n * self.layers as nat);
        let ghost mut states: Seq<(HybridView<Q>, K)> = seq![(self.rt@, self.kernel)];
        let total: usize = self.layers;
        let mut l: usize = 0;
        proof {
            assert forall|b: nat, m: nat|
                #![trigger routes_at_most(router, b), self.rt@.can_count(m)]
                routes_at_most(router, b) && self.rt@.can_count(m) && b * 0 <= m implies self.rt@.can_count(
                (m - b * 0) as nat,
            ) by {}
        }
        while l < total
            invariant
                l <= total,
                router == router0,
                self.layers == total,
                total == old(self).layers,
                self.rt.inv(),
                self.rt@.q == old(self).rt@.q,
                forall|k: int|
                    0 <= k < total ==> #[trigger] call_requires(router0, (k as u32,)),
                forall|m: usize| #[trigger] call_requires(old(self).rt@.q, (m,)),
                routes_at_most(router0, n),
                old(self).rt@.can_count(n * total as nat),
                forall|b: nat, m: nat|
                    #![trigger routes_at_most(router0, b), old(self).rt@.can_count(m)]
                    routes_at_most(router0, b) && old(self).rt@.can_count(m) && b * l as nat <= m
                        ==> self.rt@.can_count((m - b * l as nat) as nat),
                states.len() == l + 1,
                states[0] == (old(self).rt@, old(self).kernel),
                states.last() == (self.rt@, self.kernel),
                layers_done(router0, states),
            decreases total - l,
        {
            let layer: u32 = #[verifier::truncate] (l as u32);
            let routed: Vec<u32> = router(layer);
            let ghost before = self.rt@;
            proof {
                lemma_count_room(n, l as nat, total as nat);
                assert(before.can_count((n * total as nat - n * l as nat) as nat));
                assert(routed@.len() <= n);
            }
            self.decode_layer(layer, routed.as_slice());
            proof {
                let now = (self.rt@, self.kernel);
                assert(layer_done(router0, layer, states.last(), now));
                lemma_push_layer(router0, states, now);
                states = states.push(now);
                assert forall|b: nat, m: nat|
                    #![trigger routes_at_most(router0, b), old(self).rt@.can_count(m)]
                    routes_at_most(router0, b) && old(self).rt@.can_count(m) && b * (l + 1) as nat <= m
                    implies self.rt@.can_count((m - b * (l + 1) as nat) as nat) by {
                    lemma_count_room(b, l as nat, l as nat + 1);
                    assert(routed@.len() <= b);
                    assert(before.can_count((m - b * l as nat) as nat));
                }
            }
            l = l + 1;
        }
    }
}

/// Layer after layer, the router is asked for the experts of that layer, the runtime plans
/// just these for it, and the kernel computes that plan for it.
pub proof fn law_layers_in_turn<K: MoeKernel, Q: Fn(usize) -> usize, R: FnMut(u32) -> Vec<u32>>(
    router: R,
    states: Seq<(HybridView<Q>, K)>,
    l: int,
)
    requires
        layers_done(router, states),
        0 <= l < states.len() - 1,
    ensures
        exists|routed: Vec<u32>, p: PlanView|
            call_ensures(router, (l as u32,), routed) && #[trigger] hybrid::planned_by_q(
                states[l].0,
                l as u32,
                routed@,
                p,
            ) && states[l + 1].0 == states[l].0.planned(l as u32, p) && K::compute_post(
                states[l].1,
                p,
                l as u32,
                states[l + 1].1,
            ),
{
    let (pre, post) = (states[l], states[l + 1]);
    assert(layer_done(router, l as u32, pre, post));
    let routed = choose|routed: Vec<u32>| #[trigger]
        call_ensures(router, (l as u32,), routed) && layer_run(l as u32, routed@, pre, post);
    let p = choose|p: PlanView| #[trigger]
        hybrid::planned_by_q(pre.0, l as u32, routed@, p) && post.0 == pre.0.planned(l as u32, p)
            && K::compute_post(pre.1, p, l as u32, post.1);
    assert(hybrid::planned_by_q(pre.0, l as u32, routed@, p));
}

} // verus!
