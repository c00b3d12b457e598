//! Experts: the cache, plans, checks of inputs, and the choice of experts.

use blend::cache::{ExpertKey, LruExpertCache};
use blend::cpu;
use blend::error::FtError;
use blend::hybrid::{any_expert, HybridRuntime};
use blend::plan::{MissAction, MoePlan};
use blend::policy::{backend_name, backend_named, BackendKind};
use blend::routing;

fn k(l: u32, e: u32) -> ExpertKey {
    ExpertKey { layer: l, expert: e }
}

fn fetch_count(misses: usize) -> usize {
    let overlap_pcie = 57.7 * 0.6;
    let overlap_cpu = 124.4 * 1.19;
    let fraction: f64 = overlap_pcie / (overlap_pcie + overlap_cpu);
    (misses as f64 * fraction).round() as usize
}

#[test]
fn miss_then_hit_after_insert() {
    let mut c = LruExpertCache::new(2);
    assert!(!c.touch(k(0, 1)));
    c.insert(k(0, 1));
    assert!(c.touch(k(0, 1)));
    assert_eq!(c.len(), 1);
}

#[test]
fn evicts_least_recent() {
    let mut c = LruExpertCache::new(2);
    c.insert(k(0, 1));
    c.insert(k(0, 2));
    c.touch(k(0, 1));
    c.insert(k(0, 3));
    assert!(c.contains(k(0, 1)));
    assert!(!c.contains(k(0, 2)));
    assert!(c.contains(k(0, 3)));
}

#[test]
fn zero_cap_never_hits() {
    let mut c = LruExpertCache::new(0);
    c.insert(k(0, 1));
    assert!(!c.touch(k(0, 1)));
    assert_eq!(c.len(), 0);
}

#[test]
fn layers_have_experts_of_their_own() {
    let mut c = LruExpertCache::new(3);
    c.insert(k(1, 0));
    assert!(!c.contains(k(0, 1)));
    assert!(!c.contains(k(0, 0)));
    assert!(c.contains(k(1, 0)));
    c.insert(k(1, 0));
    assert_eq!((c.len(), c.cap()), (1, 3));
    c.insert(k(u32::MAX, u32::MAX));
    assert!(c.contains(k(u32::MAX, u32::MAX)));
}

#[test]
fn cache_holds_what_was_used_last() {
    let mut c = LruExpertCache::new(3);
    for e in [5, 6, 7, 5, 8, 5, 9] {
        c.insert(k(0, e));
    }
    let held: Vec<u32> = (0..12).filter(|e| c.contains(k(0, *e))).collect();
    assert_eq!(held, vec![5, 8, 9]);
}

#[test]
fn plan_splits_misses_by_qstar() {
    let routed: Vec<u32> = (0..100).collect();
    let cached = |e: u32| e < 88;
    let plan = MoePlan::build(&routed, cached, &fetch_count);
    let (hits, fetch, cpu) = plan.stats();
    assert_eq!(hits, 88);
    assert_eq!(fetch + cpu, 12);
    assert_eq!(fetch, fetch_count(12));
    assert_eq!(cpu, 12 - fetch);
}

#[test]
fn all_hit_no_miss() {
    let plan = MoePlan::build(&[1, 2, 3], |_| true, &fetch_count);
    assert_eq!(plan.stats(), (3, 0, 0));
}

#[test]
fn plan_keeps_the_order_of_the_experts() {
    let plan = MoePlan::from_flags(&[9, 4, 7, 2], &[false, true, false, false], 2);
    assert_eq!(
        plan,
        MoePlan {
            cache_hits: vec![4],
            misses: vec![
                MissAction::Fetch { expert_id: 9 },
                MissAction::Fetch { expert_id: 7 },
                MissAction::CpuCompute { expert_id: 2 },
            ],
        }
    );
    assert_eq!(plan.cached_experts(), vec![4, 9, 7]);
    assert_eq!(MoePlan::default().stats(), (0, 0, 0));
}

#[test]
fn warmup_then_hits_with_sticky_routing() {
    let mut rt = HybridRuntime::new(64, fetch_count);
    let sticky = [1u32, 2, 3, 4, 5];
    for step in 0..12 {
        let mut routed = sticky.to_vec();
        routed.push(10 + step);
        rt.plan_layer(0, &routed);
    }
    let before = rt.stats().hits;
    for step in 12..20 {
        let mut routed = sticky.to_vec();
        routed.push(30 + step);
        rt.plan_layer(0, &routed);
    }
    let after = rt.stats().hits - before;
    assert!(after >= 8 * 3, "expected sticky hits, got {after}");
}

#[test]
fn every_expert_of_a_layer_is_counted() {
    let mut rt = HybridRuntime::new(4, |n: usize| n / 2);
    let p = rt.plan_layer(3, &[1, 2, 3, 4]);
    assert_eq!(p.stats(), (0, 2, 2));
    let p = rt.plan_layer(3, &[1, 2, 3]);
    assert_eq!(p.cache_hits, vec![1, 2]);
    assert_eq!(rt.stats().total(), 7);
    let p = rt.plan_layer_with(3, &[8, 9], 5);
    assert_eq!(p.stats(), (0, 2, 0));
    assert_eq!(rt.cache_len(), 4);
}

#[test]
fn experts_for_a_kernel_are_padded() {
    let plan = MoePlan::from_flags(&[5, 6, 7], &[false, false, false], 1);
    let ids = HybridRuntime::<fn(usize) -> usize>::cpu_ids(&plan, 4);
    assert_eq!(ids, vec![6, 7, -1, -1]);
    assert!(any_expert(&ids));
    let ids = HybridRuntime::<fn(usize) -> usize>::cpu_ids(&plan, 1);
    assert_eq!(ids, vec![6]);
    let none = MoePlan::from_flags(&[5], &[true], 0);
    assert!(!any_expert(&HybridRuntime::<fn(usize) -> usize>::cpu_ids(&none, 2)));
}

#[test]
fn rejects_bad_shapes_and_ids() {
    // h has the wrong length
    assert!(matches!(cpu::check_inputs(3, 1, 2, 2, &[0], 1, 1), Err(FtError::Invalid(_))));
    // topk has the wrong length
    assert!(matches!(cpu::check_inputs(2, 1, 2, 2, &[], 0, 1), Err(FtError::Invalid(_))));
    // there is no such expert
    assert!(matches!(cpu::check_inputs(2, 1, 2, 2, &[5], 1, 1), Err(FtError::Invalid(_))));
}

#[test]
fn refused_inputs_say_why() {
    let said = |r: Result<(), FtError>| r.unwrap_err().message();
    assert_eq!(said(cpu::check_inputs(3, 1, 2, 2, &[0], 1, 1)), "invalid request: h size mismatch");
    assert_eq!(
        said(cpu::check_inputs(2, 1, 2, 2, &[0], 2, 1)),
        "invalid request: topk/weights size mismatch"
    );
    assert_eq!(
        said(cpu::check_inputs(4, 2, 2, 3, &[2, 3], 2, 1)),
        "invalid request: expert id 3 >= 3"
    );
    assert!(cpu::check_inputs(4, 2, 2, 3, &[2, 0], 2, 1).is_ok());
    assert_eq!(cpu::check_expert(7, 8).unwrap(), 7);
}

#[test]
fn rows_of_weights() {
    // hidden 4, inter 2
    assert_eq!(cpu::gate_up_row(0, 0, 4, 2), 0);
    assert_eq!(cpu::gate_up_row(2, 3, 4, 2), (2 * 4 + 3) * 4);
    assert_eq!(cpu::down_row(2, 3, 4, 2), (2 * 4 + 3) * 2);
    assert_eq!(cpu::row_start(5, 7), 35);
}

#[test]
fn greatest_keys_first_and_equal_ones_in_order() {
    assert_eq!(routing::top_k(&[3, 9, 9, -1, 4], 3), vec![1, 2, 4]);
    assert_eq!(routing::top_k(&[0, 0, 0], 2), vec![0, 1]);
    assert_eq!(routing::top_k(&[5], 0), Vec::<usize>::new());
    assert_eq!(routing::top_k(&[1, 2, 3, 4], 4), vec![3, 2, 1, 0]);
}

#[test]
fn float_keys_order_as_the_numbers_do() {
    let numbers = [-1e9f32, -2.5, -1.0, -1e-30, -0.0, 0.0, 1e-30, 0.5, 1.0, 3.0e38];
    for a in numbers {
        for b in numbers {
            let by_key = routing::float_key(a.to_bits()) < routing::float_key(b.to_bits());
            assert_eq!(by_key, a < b);
        }
    }
}

#[test]
fn backends_are_named_and_found() {
    for kind in [BackendKind::Fused, BackendKind::Offload, BackendKind::Cpu, BackendKind::Hybrid] {
        assert_eq!(backend_named(backend_name(kind)), Ok(kind));
    }
    assert_eq!(backend_name(BackendKind::Hybrid), "hybrid");
    assert_eq!(backend_named("gpu"), Err("unknown backend in profile: gpu".to_string()));
}

#[test]
fn routes_of_trial_runs() {
    assert_eq!(routing::first_routes(2, 3, 256), vec![vec![0, 31, 62], vec![17, 48, 79]]);
    assert_eq!(routing::next_route(3, 40, 256), ((3 * 13 + 40 * 7) % 256) as u32);
    assert_eq!(routing::cyclic_experts(5, 3), vec![0, 1, 2, 0, 1]);
    assert_eq!(routing::prompt_tokens(3, 151936), vec![3, 20, 37]);
    assert_eq!(routing::prompt_tokens(3, 10), vec![3, 0, 7]);
    assert_eq!(routing::kv_head(31), 3);
    assert_eq!(routing::kv_head(7), 0);
}

#[test]
fn made_up_numbers() {
    let mut g = routing::Xorshift { state: 1 };
    assert_eq!(g.next(), 1082269761);
    assert_eq!(g.next(), 1152992998833853505);
    assert_eq!(g.state, 1152992998833853505);
}

#[test]
fn hits_were_fetched_for_the_same_layer() {
    let mut rt = HybridRuntime::new(3, |n: usize| n);
    assert!(rt.plan_layer_with(0, &[1, 2, 3], 2).cache_hits.is_empty());
    assert!(rt.plan_layer_with(1, &[1, 2], 1).cache_hits.is_empty());
    rt.reset_stats();
    assert_eq!(rt.plan_layer_with(0, &[3, 2, 1], 0).cache_hits, vec![2, 1]);
    assert_eq!(rt.plan_layer_with(1, &[2, 1], 0).cache_hits, vec![1]);
    assert_eq!(rt.cache_len(), 3);
}
