//! The scheduler, its steps, and the driver of layers.

use blend::driver::{DecodeDriver, MoeKernel};
use blend::error::FtError;
use blend::kv::SimpleKvPool;
use blend::plan::MoePlan;
use blend::rounds::{round, Round};
use blend::scheduler::{Scheduler, SchedulerConfig};
use blend::seq::{ReqState, SeqId};
use blend::step::Step;

fn req(prompt: usize, max_new: usize) -> ReqState {
    ReqState {
        seq: SeqId(0),
        prompt_tokens: vec![0; prompt],
        kv_handle: None,
        generated: vec![],
        max_new_tokens: max_new,
    }
}

/// The share of missing experts that is fetched on the machine that was measured: 57.7
/// GB/s over the bus, 124.4 GB/s from memory.
fn measured_fetch(misses: usize) -> usize {
    let overlap_pcie = 57.7 * 0.6;
    let overlap_cpu = 124.4 * 1.19;
    let fraction: f64 = overlap_pcie / (overlap_pcie + overlap_cpu);
    (misses as f64 * fraction).round() as usize
}

#[test]
fn admit_prefill_then_decode_then_finish() {
    let mut s = Scheduler::new(SchedulerConfig::default(), SimpleKvPool::new(64));
    let sid = s.submit(req(10, 2));
    match s.next_step().unwrap() {
        Step::Prefill { seq, start, len } => {
            assert_eq!((seq, start, len), (sid, 0, 10));
        }
        other => panic!("expected prefill, got {other:?}"),
    }
    assert!(matches!(s.next_step().unwrap(), Step::Decode { .. }));
    assert!(s.on_decode_token(sid, 7).is_none());
    let done = s.on_decode_token(sid, 8).unwrap();
    assert_eq!(done.generated, vec![7, 8]);
    assert!(s.is_idle());
    assert_eq!(s.stats().total_finished, 1);
}

#[test]
fn chunked_prefill_splits_long_prompt() {
    let mut s = Scheduler::new(
        SchedulerConfig { chunk_tokens: 4, ..Default::default() },
        SimpleKvPool::new(64),
    );
    let sid = s.submit(req(10, 1));
    match s.next_step().unwrap() {
        Step::Prefill { seq, start, len } => assert_eq!((seq, start, len), (sid, 0, 4)),
        other => panic!("{other:?}"),
    }
    match s.next_step().unwrap() {
        Step::Prefill { seq, start, len } => assert_eq!((seq, start, len), (sid, 4, 4)),
        other => panic!("{other:?}"),
    }
    match s.next_step().unwrap() {
        Step::Prefill { seq, start, len } => assert_eq!((seq, start, len), (sid, 8, 2)),
        other => panic!("{other:?}"),
    }
    assert!(matches!(s.next_step().unwrap(), Step::Decode { .. }));
}

#[test]
fn max_running_limits_admission() {
    let mut s = Scheduler::new(
        SchedulerConfig { max_running: 1, ..Default::default() },
        SimpleKvPool::new(64),
    );
    s.submit(req(1, 100));
    s.submit(req(1, 100));
    s.next_step().unwrap();
    match s.next_step().unwrap() {
        Step::Decode { seqs } => assert_eq!(seqs.len(), 1),
        other => panic!("expected decode, got {other:?}"),
    }
    assert_eq!(s.queue_len(), 1);
    assert_eq!(s.running_len(), 1);
}

#[test]
fn preempt_requeues() {
    let mut s = Scheduler::new(SchedulerConfig::default(), SimpleKvPool::new(64));
    s.submit(req(1, 100));
    s.next_step().unwrap();
    assert!(s.preempt_youngest().is_some());
    assert_eq!(s.queue_len(), 1);
    assert_eq!(s.running_len(), 0);
    assert_eq!(s.stats().total_preempted, 1);
}

#[test]
fn idle_detection() {
    assert!(Step::Idle.is_idle());
    assert!(!Step::Decode { seqs: vec![SeqId(1)] }.is_idle());
}

#[test]
fn nothing_to_do_is_idle() {
    let mut s = Scheduler::new(SchedulerConfig::default(), SimpleKvPool::new(1));
    assert!(s.next_step().unwrap().is_idle());
    assert!(s.preempt_youngest().is_none());
    assert!(s.on_decode_token(SeqId(1), 5).is_none());
    let mut closed = Scheduler::new(
        SchedulerConfig { max_running: 0, ..Default::default() },
        SimpleKvPool::new(1),
    );
    closed.submit(req(1, 1));
    assert!(closed.next_step().unwrap().is_idle());
    assert_eq!(closed.queue_len(), 1);
}

#[test]
fn default_limits() {
    let c = SchedulerConfig::default();
    assert_eq!((c.max_running, c.chunk_tokens, c.kv_reserve_tokens), (4, 8192, 8192));
}

#[test]
fn requests_run_in_the_order_of_submission() {
    let mut s = Scheduler::new(SchedulerConfig::default(), SimpleKvPool::new(64));
    let a = s.submit(req(1, 1));
    let b = s.submit(req(1, 1));
    assert_eq!((a, b), (SeqId(1), SeqId(2)));
    assert_eq!(s.next_step().unwrap(), Step::Prefill { seq: a, start: 0, len: 1 });
    assert_eq!(s.next_step().unwrap(), Step::Decode { seqs: vec![a] });
    assert!(s.on_decode_token(a, 1).is_some());
    assert_eq!(s.next_step().unwrap(), Step::Prefill { seq: b, start: 0, len: 1 });
    assert_eq!(s.stats().total_admitted, 2);
    assert_eq!(s.stats().total_decode_tokens, 1);
}

#[test]
fn request_too_large_for_the_pool_is_dropped() {
    let mut s = Scheduler::new(SchedulerConfig::default(), SimpleKvPool::new(1));
    s.submit(req(17, 1));
    let next = s.submit(req(16, 1));
    match s.next_step() {
        Err(FtError::Oom(m)) => assert_eq!(m, "kv pool: need 2 pages, 1 free of 1"),
        _ => panic!("must be refused"),
    }
    assert_eq!(s.queue_len(), 1);
    assert_eq!(s.next_step().unwrap(), Step::Prefill { seq: next, start: 0, len: 16 });
}

#[test]
fn finished_and_preempted_sequences_give_their_pages_back() {
    let mut s = Scheduler::new(SchedulerConfig::default(), SimpleKvPool::new(1));
    for _ in 0..5 {
        let sid = s.submit(req(16, 1));
        s.next_step().unwrap();
        assert_eq!(s.preempt_youngest(), Some(Step::Preempt { seq: sid }));
        assert_eq!(s.next_step().unwrap(), Step::Prefill { seq: sid, start: 0, len: 16 });
        assert!(s.on_decode_token(sid, 3).is_some());
    }
    assert_eq!(s.stats().total_finished, 5);
    assert_eq!(s.stats().total_preempted, 5);
    assert_eq!(s.stats().total_admitted, 10);
}

#[test]
fn preempted_sequence_keeps_its_tokens() {
    let mut s = Scheduler::new(SchedulerConfig::default(), SimpleKvPool::new(4));
    let mut r = req(3, 2);
    r.kv_handle = Some(5);
    let sid = s.submit(r);
    s.next_step().unwrap();
    assert!(s.on_decode_token(sid, 11).is_none());
    s.preempt_youngest().unwrap();
    s.next_step().unwrap();
    let done = s.on_decode_token(sid, 12).unwrap();
    assert_eq!(done.generated, vec![11, 12]);
    assert_eq!(done.kv_handle, None);
    assert_eq!(done.seq, sid);
}

struct CountingKernel {
    calls: usize,
}

impl MoeKernel for CountingKernel {
    fn compute(&mut self, _plan: &MoePlan, _layer: u32) {
        self.calls += 1;
    }
}

#[test]
fn driver_invokes_kernel_per_layer() {
    let mut d = DecodeDriver::new(32, measured_fetch, CountingKernel { calls: 0 }, 4);
    d.decode_token(|l| vec![l, l + 1]);
    assert_eq!(d.kernel.calls, 4);
    assert!(d.rt.stats().total() > 0);
}

struct LayerLog {
    layers: Vec<u32>,
    hits: Vec<usize>,
}

impl MoeKernel for LayerLog {
    fn compute(&mut self, plan: &MoePlan, layer: u32) {
        self.layers.push(layer);
        self.hits.push(plan.cache_hits.len());
    }
}

#[test]
fn driver_walks_the_layers_in_order() {
    let log = LayerLog { layers: vec![], hits: vec![] };
    let mut d = DecodeDriver::new(8, |n: usize| n, log, 3);
    let mut asked = Vec::new();
    d.decode_token(|l| {
        asked.push(l);
        vec![l, 7]
    });
    d.decode_token(|l| vec![l, 7]);
    assert_eq!(asked, vec![0, 1, 2]);
    assert_eq!(d.kernel.layers, vec![0, 1, 2, 0, 1, 2]);
    assert_eq!(d.kernel.hits, vec![0, 0, 0, 2, 2, 2]);
    assert_eq!(d.rt.stats().hits, 6);
    assert_eq!(d.rt.stats().fetches, 6);
    d.rt.reset_stats();
    assert_eq!(d.rt.stats().total(), 0);
    assert_eq!(d.rt.cache_len(), 6);
    d.decode_layer(0, &[0, 9]);
    assert_eq!(d.rt.stats().hits, 1);
}

#[test]
fn request_is_served_in_its_rounds() {
    let cfg = SchedulerConfig { chunk_tokens: 4, ..Default::default() };
    let mut s = Scheduler::new(cfg, SimpleKvPool::new(4));
    let sid = s.submit(req(10, 2));
    assert!(matches!(round(&mut s, 1), Round::Prefill));
    assert!(matches!(round(&mut s, 2), Round::Prefill));
    assert!(matches!(round(&mut s, 3), Round::Prefill));
    assert!(matches!(round(&mut s, 4), Round::Token));
    match round(&mut s, 5) {
        Round::Finished(done) => {
            assert_eq!(done.seq, sid);
            assert_eq!(done.generated, vec![4, 5]);
        }
        other => panic!("expected the end, got {other:?}"),
    }
    assert!(matches!(round(&mut s, 6), Round::Stopped));
    assert_eq!(s.stats().total_decode_tokens, 2);
    assert_eq!(s.stats().total_finished, 1);
}

#[test]
fn round_fails_without_pages() {
    let mut s = Scheduler::new(SchedulerConfig::default(), SimpleKvPool::new(1));
    s.submit(req(17, 1));
    match round(&mut s, 1) {
        Round::Failed(FtError::Oom(m)) => assert_eq!(m, "kv pool: need 2 pages, 1 free of 1"),
        other => panic!("expected an error, got {other:?}"),
    }
    assert!(matches!(round(&mut s, 1), Round::Stopped));
}

#[test]
fn one_token_is_the_least() {
    let mut s = Scheduler::new(SchedulerConfig::default(), SimpleKvPool::new(1));
    s.submit(req(3, 0));
    assert!(matches!(round(&mut s, 8), Round::Prefill));
    match round(&mut s, 9) {
        Round::Finished(done) => assert_eq!(done.generated, vec![9]),
        other => panic!("expected the end, got {other:?}"),
    }
}

#[test]
fn every_routed_expert_is_counted() {
    let mut d = DecodeDriver::new(32, measured_fetch, CountingKernel { calls: 0 }, 4);
    d.decode_token(|l| vec![l, l + 1]);
    assert_eq!(d.rt.stats().total(), 8);
}

#[test]
fn submits_between_rounds_change_nothing() {
    let cfg = SchedulerConfig { chunk_tokens: 4, ..Default::default() };
    let mut s = Scheduler::new(cfg, SimpleKvPool::new(4));
    let first = s.submit(req(6, 2));
    assert_eq!(first, SeqId(1));
    assert!(matches!(round(&mut s, 1), Round::Prefill));
    assert_eq!(s.submit(req(1, 1)), SeqId(2));
    assert!(matches!(round(&mut s, 2), Round::Prefill));
    assert!(matches!(round(&mut s, 3), Round::Token));
    assert_eq!(s.submit(req(1, 1)), SeqId(3));
    match round(&mut s, 4) {
        Round::Finished(done) => assert_eq!((done.seq, done.generated), (first, vec![3, 4])),
        other => panic!("expected the end, got {other:?}"),
    }
}

#[test]
fn tokens_reported_while_prefilling_do_not_move_the_chunks() {
    let cfg = SchedulerConfig { chunk_tokens: 4, ..Default::default() };
    let mut s = Scheduler::new(cfg, SimpleKvPool::new(4));
    let sid = s.submit(req(10, 5));
    let mut seen = Vec::new();
    for _ in 0..3 {
        match s.next_step().unwrap() {
            Step::Prefill { seq, start, len } => seen.push((seq, start, len)),
            other => panic!("{other:?}"),
        }
        assert!(s.on_decode_token(sid, 9).is_none());
        s.submit(req(2, 2));
    }
    assert_eq!(seen, vec![(sid, 0, 4), (sid, 4, 4), (sid, 8, 2)]);
    assert!(matches!(s.next_step().unwrap(), Step::Decode { .. }));
}

#[test]
fn admissions_balance() {
    let cfg = SchedulerConfig { max_running: 1, ..Default::default() };
    let mut s = Scheduler::new(cfg, SimpleKvPool::new(4));
    for n in 1..6 {
        assert_eq!(s.submit(req(3, 1)), SeqId(n));
    }
    for turn in 0..30 {
        if turn % 7 == 3 {
            s.preempt_youngest();
        }
        round(&mut s, turn);
        let st = s.stats();
        assert!(s.running_len() <= 1);
        let left = st.total_finished + st.total_preempted;
        assert_eq!(st.total_admitted, s.running_len() as u64 + left);
    }
    assert_eq!(s.stats().total_finished, 5);
    let mut none = Scheduler::new(
        SchedulerConfig { max_running: 0, ..Default::default() },
        SimpleKvPool::new(4),
    );
    none.submit(req(1, 1));
    assert!(matches!(round(&mut none, 0), Round::Stopped));
    assert_eq!(none.running_len(), 0);
}
