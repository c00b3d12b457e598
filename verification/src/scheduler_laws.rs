//! What holds of a scheduler over its whole life.

use vstd::prelude::*;

use crate::error::ErrorView;
use crate::kv;
use crate::kv::{EntryView, KvPool, SimpleKvPool};
use crate::scheduler;
use crate::scheduler::{RunView, SchedView};
use crate::seq::{ReqView, SeqId};
use crate::step::StepView;

verus! {

/// A step is idle exactly when nothing runs and nothing may be admitted.
pub proof fn law_idle_step<K: KvPool>(
    pre: SchedView<K>,
    post: SchedView<K>,
    r: Result<StepView, ErrorView>,
)
    requires
        pre.wf(),
        scheduler::next_step_post(pre, post, r),
    ensures
        r == Ok::<StepView, ErrorView>(StepView::Idle) <==> pre.running.len() == 0 && (
        pre.queue.len() == 0 || pre.cfg.max_running == 0),
{
    scheduler::lemma_first_run(pre);
}

/// Requests are admitted in the order they were submitted: one that is admitted has
/// a smaller id than every one that still waits.
pub proof fn law_admission_order<K: KvPool>(
    pre: SchedView<K>,
    post: SchedView<K>,
    r: Result<StepView, ErrorView>,
    waiting: int,
)
    requires
        pre.wf(),
        scheduler::next_step_post(pre, post, r),
        pre.running.len() == 0,
        post.running.len() == 1,
        0 <= waiting < post.queue.len(),
    ensures
        post.running[0].state == pre.queue[0],
        post.queue == pre.queue.skip(1),
        post.running[0].state.seq.0 < post.queue[waiting].seq.0,
{
    scheduler::lemma_first_run(pre);
    assert(pre.ids()[0] == pre.queue[0].seq.0);
    assert(pre.ids()[waiting + 1] == pre.queue[waiting + 1].seq.0);
}

/// A sequence of steps, each taken from where the one before it ended.
pub open spec fn steps<K: KvPool>(
    states: Seq<SchedView<K>>,
    results: Seq<Result<StepView, ErrorView>>,
) -> bool {
    &&& states.len() == results.len() + 1
    &&& states[0].wf()
    &&& forall|i: int|
        0 <= i < states.len() ==> (#[trigger] states[i]).stats.total_admitted < u64::MAX
    &&& forall|i: int|
        0 <= i < results.len() ==> scheduler::next_step_post(
            states[i],
            states[i as int + 1],
            #[trigger] results[i],
        )
}

/// The step that a prompt of `n` tokens is at after `i` steps, in chunks of `chunk`.
pub open spec fn chunk_step(seq: SeqId, n: nat, chunk: nat, i: nat) -> StepView {
    if i == 0 || i * chunk < n {
        StepView::Prefill {
            seq,
            start: i * chunk,
            len: scheduler::min((n - i * chunk) as nat, chunk),
        }
    } else {
        StepView::Decode { seqs: seq![seq] }
    }
}

/// Prefill covers a prompt from its first token to its last, in chunks that follow one
/// another without a gap or an overlap, and only then is the sequence decoded.
pub proof fn law_prefill_chunks<K: KvPool>(
    states: Seq<SchedView<K>>,
    results: Seq<Result<StepView, ErrorView>>,
    i: nat,
)
    requires
        steps(states, results),
        states[0].running.len() == 0,
        states[0].queue.len() > 0,
        states[0].cfg.max_running > 0,
        states[0].cfg.chunk_tokens > 0,
        results[0] is Ok,
        i < results.len(),
    ensures
        results[i as int] == Ok::<StepView, ErrorView>(
            chunk_step(
                states[0].queue[0].seq,
                states[0].queue[0].prompt_tokens.len(),
                states[0].cfg.chunk_tokens as nat,
                i,
            ),
        ),
        ({
            let seq = states[0].queue[0].seq;
            let rest = states[0].queue[0].prompt_tokens.len() - i * states[0].cfg.chunk_tokens;
            let chunk = states[0].cfg.chunk_tokens as int;
            let start = (i * states[0].cfg.chunk_tokens) as nat;
            &&& rest > 0 || i == 0 ==> results[i as int] == Ok::<StepView, ErrorView>(
                StepView::Prefill {
                    seq,
                    start,
                    len: if rest <= chunk {
                        rest as nat
                    } else {
                        chunk as nat
                    },
                },
            )
            &&& rest <= 0 && i > 0 ==> results[i as int] == Ok::<StepView, ErrorView>(
                StepView::Decode { seqs: seq![seq] },
            )
        }),
{
    lemma_chunks(states, results, i);
    lemma_chunk_step(
        states[0].queue[0].seq,
        states[0].queue[0].prompt_tokens.len(),
        states[0].cfg.chunk_tokens as nat,
        i,
    );
}

proof fn lemma_chunk_step(seq: SeqId, n: nat, chunk: nat, i: nat)
    requires
        chunk > 0,
    ensures
        i == 0 || i * chunk < n ==> chunk_step(seq, n, chunk, i) == (StepView::Prefill {
            seq,
            start: i * chunk,
            len: if n - i * chunk <= chunk {
                (n - i * chunk) as nat
            } else {
                chunk
            },
        }),
        i > 0 && i * chunk >= n ==> chunk_step(seq, n, chunk, i) == (StepView::Decode {
            seqs: seq![seq],
        }),
        i == 0 ==> i * chunk == 0,
{
    if i == 0 {
        assert(i * chunk == 0) by (nonlinear_arith)
            requires
                i == 0,
        ;
    }
}

proof fn lemma_chunks<K: KvPool>(
    states: Seq<SchedView<K>>,
    results: Seq<Result<StepView, ErrorView>>,
    i: nat,
)
    requires
        steps(states, results),
        states[0].running.len() == 0,
        states[0].queue.len() > 0,
        states[0].cfg.max_running > 0,
        states[0].cfg.chunk_tokens > 0,
        results[0] is Ok,
        i < results.len(),
    ensures
        ({
            let req = states[0].queue[0];
            let n = req.prompt_tokens.len();
            let chunk = states[0].cfg.chunk_tokens as nat;
            let next = states[i as int + 1];
            &&& next.wf()
            &&& next.cfg == states[0].cfg
            &&& next.running.len() == 1
            &&& next.running[0].state == req
            &&& next.running[0].prefilled == scheduler::min(n, (i + 1) * chunk)
            &&& results[i as int] == Ok::<StepView, ErrorView>(chunk_step(req.seq, n, chunk, i))
        }),
    decreases i,
{
    let req = states[0].queue[0];
    let n = req.prompt_tokens.len();
    let chunk = states[0].cfg.chunk_tokens as nat;
    assert(scheduler::next_step_post(states[i as int], states[i as int + 1], results[i as int]));
    assert(states[i as int].stats.total_admitted < u64::MAX);
    assert(0 <= i * chunk) by (nonlinear_arith);
    assert((i + 1) * chunk == i * chunk + chunk) by (nonlinear_arith);
    if i == 0 {
        assert(i * chunk == 0) by (nonlinear_arith)
            requires
                i == 0,
        ;
        scheduler::lemma_first_run(states[0]);
        assert(states[1].running[0].prefilled == scheduler::min(n, chunk));
    } else {
        lemma_chunks(states, results, (i - 1) as nat);
        assert(((i - 1) as nat) + 1 == i);
        let now = states[i as int];
        scheduler::lemma_first_run(now);
        if now.running[0].prefilled < n {
            reveal_with_fuel(SchedView::first_run, 2);
        }
    }
    scheduler::lemma_next_step_wf(states[i as int], states[i as int + 1], results[i as int]);
}

/// How many requests are waiting, running or finished.
pub open spec fn known<K>(v: SchedView<K>) -> int {
    v.queue.len() + v.running.len() + v.stats.total_finished
}

/// No request is lost or made up: submitting adds one, a step that finds no pages for a
/// request drops that one, and everything else keeps their number.
pub proof fn law_requests_conserved<K: KvPool>(pre: SchedView<K>, post: SchedView<K>)
    requires
        pre.wf(),
        pre.stats.total_finished < u64::MAX,
    ensures
        forall|req: ReqView, id: SeqId| #[trigger]
            scheduler::submit_post(pre, req, post, id) ==> known(post) == known(pre) + 1,
        forall|s: StepView| #[trigger]
            scheduler::next_step_post(pre, post, Ok(s)) ==> known(post) == known(pre),
        forall|e: ErrorView| #[trigger]
            scheduler::next_step_post(pre, post, Err(e)) ==> known(post) == known(pre) - 1,
        forall|seq: SeqId, token: u32, r: Option<ReqView>| #[trigger]
            scheduler::token_post(pre, seq, token, post, r) ==> known(post) == known(pre),
        forall|r: Option<StepView>| #[trigger]
            scheduler::preempt_post(pre, post, r) ==> known(post) == known(pre),
{
    scheduler::lemma_first_run(pre);
    assert forall|seq: SeqId, token: u32, r: Option<ReqView>| #[trigger]
        scheduler::token_post(pre, seq, token, post, r) implies known(post) == known(pre) by {
        reveal_with_fuel(SchedView::position, 2);
    }
}

/// The pages of the sequences that run.
pub open spec fn entries<K>(v: SchedView<K>) -> Seq<EntryView> {
    v.running.map_values(|r: RunView| r.entry)
}

/// Every page of the pool is either free or held by one running sequence, and each
/// running sequence holds the pages of its prompt.
pub open spec fn pages_kept(v: SchedView<SimpleKvPool>) -> bool {
    &&& kv::accounted(v.kv@, entries(v))
    &&& forall|i: int|
        0 <= i < v.running.len() ==> {
            let r = #[trigger] v.running[i];
            &&& r.entry.seq == r.state.seq
            &&& r.entry.num_tokens == r.state.prompt_tokens.len()
            &&& r.entry.pages.len() == kv::pages_for(r.state.prompt_tokens.len())
        }
}

/// No page is ever lost or handed out twice, whatever the scheduler does.
pub proof fn law_pages_kept(pre: SchedView<SimpleKvPool>, post: SchedView<SimpleKvPool>)
    requires
        pre.wf(),
        pages_kept(pre),
    ensures
        forall|req: ReqView, id: SeqId| #[trigger]
            scheduler::submit_post(pre, req, post, id) ==> pages_kept(post),
        forall|r: Result<StepView, ErrorView>| #[trigger]
            scheduler::next_step_post(pre, post, r) ==> pages_kept(post),
        forall|seq: SeqId, token: u32, r: Option<ReqView>| #[trigger]
            scheduler::token_post(pre, seq, token, post, r) ==> pages_kept(post),
        forall|r: Option<StepView>| #[trigger]
            scheduler::preempt_post(pre, post, r) ==> pages_kept(post),
{
    scheduler::lemma_first_run(pre);
    assert forall|req: ReqView, id: SeqId| #[trigger]
        scheduler::submit_post(pre, req, post, id) implies pages_kept(post) by {
        assert(entries(post) =~= entries(pre));
    }
    assert forall|r: Result<StepView, ErrorView>| #[trigger]
        scheduler::next_step_post(pre, post, r) implies pages_kept(post) by {
        lemma_step_pages(pre, post, r);
    }
    assert forall|seq: SeqId, token: u32, r: Option<ReqView>| #[trigger]
        scheduler::token_post(pre, seq, token, post, r) implies pages_kept(post) by {
        reveal_with_fuel(SchedView::position, 2);
        if r is Some {
            assert(entries(pre)[0] == pre.running[0].entry);
            kv::law_free_accounted(pre.kv, entries(pre), 0, post.kv);
            assert(entries(post) =~= entries(pre).remove(0));
        } else {
            assert(entries(post) =~= entries(pre));
        }
    }
    assert forall|r: Option<StepView>| #[trigger] scheduler::preempt_post(pre, post, r) implies pages_kept(
        post,
    ) by {
        if pre.running.len() > 0 {
            assert(entries(pre)[0] == pre.running[0].entry);
            kv::law_free_accounted(pre.kv, entries(pre), 0, post.kv);
            assert(entries(post) =~= entries(pre).remove(0));
        }
    }
}

proof fn lemma_step_pages(
    pre: SchedView<SimpleKvPool>,
    post: SchedView<SimpleKvPool>,
    r: Result<StepView, ErrorView>,
)
    requires
        pre.wf(),
        pages_kept(pre),
        scheduler::next_step_post(pre, post, r),
    ensures
        pages_kept(post),
{
    scheduler::lemma_first_run(pre);
    if pre.running.len() == 0 && pre.queue.len() > 0 && pre.cfg.max_running > 0 {
        let req = pre.queue[0];
        let n = req.prompt_tokens.len();
        let a = choose|a: Result<EntryView, ErrorView>| #[trigger]
            SimpleKvPool::allocate_post(pre.kv, req.seq, n, post.kv, a) && (match a {
                Ok(e) => post.running.len() == 1 && post.running[0].entry == e
                    && post.running[0].state == req,
                Err(_) => post.running == pre.running,
            });
        kv::law_allocate_accounted(pre.kv, entries(pre), req.seq, n, post.kv, a);
        if a is Ok {
            assert(entries(post) =~= entries(pre).push(a->Ok_0));
        } else {
            assert(entries(post) =~= entries(pre));
        }
    } else {
        assert(entries(post) =~= entries(pre));
    }
}

/// When nothing runs, every page is free.
pub proof fn law_idle_pages_free(v: SchedView<SimpleKvPool>)
    requires
        pages_kept(v),
        v.running.len() == 0,
    ensures
        v.kv@.free.len() == v.kv@.total,
{
    broadcast use vstd::seq_lib::group_to_multiset_ensures;

    assert(entries(v) =~= Seq::empty());
    assert(v.kv@.free.to_multiset().add(kv::held(entries(v))) =~= v.kv@.free.to_multiset());
    assert(v.kv@.free.to_multiset().len() == v.kv@.free.len());
}

/// A sequence that was swapped out is the next to be admitted: its own pages were given
/// back, so it starts again from the first token of its prompt, and keeps what it has
/// generated.
pub proof fn law_preempted_runs_next(
    pre: SchedView<SimpleKvPool>,
    mid: SchedView<SimpleKvPool>,
    post: SchedView<SimpleKvPool>,
    p: Option<StepView>,
    r: Result<StepView, ErrorView>,
)
    requires
        pre.wf(),
        pages_kept(pre),
        pre.running.len() > 0,
        pre.cfg.max_running > 0,
        pre.stats.total_admitted < u64::MAX,
        scheduler::preempt_post(pre, mid, p),
        scheduler::next_step_post(mid, post, r),
    ensures
        ({
            let state = pre.running[0].state;
            &&& p == Some(StepView::Preempt { seq: state.seq })
            &&& r == Ok::<StepView, ErrorView>(
                StepView::Prefill {
                    seq: state.seq,
                    start: 0,
                    len: scheduler::min(state.prompt_tokens.len(), pre.cfg.chunk_tokens as nat),
                },
            )
            &&& post.running.len() == 1
            &&& post.running[0].state == (ReqView { kv_handle: None, ..state })
            &&& post.queue == pre.queue
        }),
{
    scheduler::lemma_preempt_wf(pre, mid, p);
    scheduler::lemma_first_run(mid);
    assert(mid.queue[0] == (ReqView { kv_handle: None, ..pre.running[0].state }));
    assert(mid.queue.skip(1) =~= pre.queue);
    assert(mid.kv@.free.len() >= pre.running[0].entry.pages.len());
}

/// One operation on a scheduler, and what it returned.
pub enum Op {
    Submit { req: ReqView, id: SeqId },
    Step(Result<StepView, ErrorView>),
    Token { seq: SeqId, token: u32, done: Option<ReqView> },
    Preempt(Option<StepView>),
}

/// What an operation does.
pub open spec fn op_post<K: KvPool>(pre: SchedView<K>, op: Op, post: SchedView<K>) -> bool {
    match op {
        Op::Submit { req, id } => scheduler::submit_post(pre, req, post, id),
        Op::Step(r) => scheduler::next_step_post(pre, post, r),
        Op::Token { seq, token, done } => scheduler::token_post(pre, seq, token, post, done),
        Op::Preempt(r) => scheduler::preempt_post(pre, post, r),
    }
}

/// Whether every count of a scheduler can still go up.
pub open spec fn can_count<K>(v: SchedView<K>) -> bool {
    &&& v.next_seq < u64::MAX
    &&& v.stats.total_admitted < u64::MAX
    &&& v.stats.total_finished < u64::MAX
    &&& v.stats.total_preempted < u64::MAX
    &&& v.stats.total_decode_tokens < u64::MAX
}

/// Operations that follow one another, each from where the one before it ended.
pub open spec fn history<K: KvPool>(states: Seq<SchedView<K>>, ops: Seq<Op>) -> bool {
    &&& states.len() == ops.len() + 1
    &&& states[0].wf()
    &&& forall|i: int| 0 <= i < states.len() ==> can_count(#[trigger] states[i])
    &&& forall|i: int|
        0 <= i < ops.len() ==> op_post(states[i], #[trigger] ops[i], states[i + 1])
}

/// A scheduler that has done nothing.
pub open spec fn fresh<K>(v: SchedView<K>) -> bool {
    &&& v.queue.len() == 0
    &&& v.running.len() == 0
    &&& v.next_seq == 1
    &&& v.stats.total_admitted == 0
    &&& v.stats.total_finished == 0
    &&& v.stats.total_preempted == 0
    &&& v.stats.total_decode_tokens == 0
}

proof fn lemma_op_wf<K: KvPool>(pre: SchedView<K>, op: Op, post: SchedView<K>)
    requires
        pre.wf(),
        can_count(pre),
        op_post(pre, op, post),
    ensures
        post.wf(),
        post.cfg == pre.cfg,
{
    scheduler::lemma_first_run(pre);
    match op {
        Op::Submit { req, id } => scheduler::lemma_submit_wf(pre, req, post, id),
        Op::Step(r) => scheduler::lemma_next_step_wf(pre, post, r),
        Op::Token { seq, token, done } => {
            scheduler::lemma_token_wf(pre, seq, token, post, done);
        },
        Op::Preempt(r) => scheduler::lemma_preempt_wf(pre, post, r),
    }
}

proof fn lemma_history_wf<K: KvPool>(states: Seq<SchedView<K>>, ops: Seq<Op>, i: int)
    requires
        history(states, ops),
        0 <= i < states.len(),
    ensures
        states[i].wf(),
        states[i].cfg == states[0].cfg,
    decreases i,
{
    if i > 0 {
        lemma_history_wf(states, ops, i - 1);
        assert(can_count(states[i - 1]));
        assert(op_post(states[i - 1], ops[i - 1], states[i]));
        lemma_op_wf(states[i - 1], ops[i - 1], states[i]);
    }
}

/// Every sequence that was ever admitted runs, is finished, or was swapped out.
pub proof fn law_admissions_balance<K: KvPool>(states: Seq<SchedView<K>>, ops: Seq<Op>, i: int)
    requires
        history(states, ops),
        fresh(states[0]),
        0 <= i < states.len(),
    ensures
        states[i].stats.total_admitted == states[i].running.len() + states[i].stats.total_finished
            + states[i].stats.total_preempted,
    decreases i,
{
    if i > 0 {
        law_admissions_balance(states, ops, i - 1);
        lemma_history_wf(states, ops, i - 1);
        assert(can_count(states[i - 1]));
        assert(op_post(states[i - 1], ops[i - 1], states[i]));
        scheduler::lemma_first_run(states[i - 1]);
        reveal_with_fuel(SchedView::position, 2);
    }
}

/// No more sequences run at once than may.
pub proof fn law_running_limited<K: KvPool>(states: Seq<SchedView<K>>, ops: Seq<Op>, i: int)
    requires
        history(states, ops),
        fresh(states[0]),
        0 <= i < states.len(),
    ensures
        states[i].running.len() <= states[0].cfg.max_running,
    decreases i,
{
    if i > 0 {
        law_running_limited(states, ops, i - 1);
        lemma_history_wf(states, ops, i - 1);
        assert(op_post(states[i - 1], ops[i - 1], states[i]));
        scheduler::lemma_first_run(states[i - 1]);
        reveal_with_fuel(SchedView::position, 2);
    }
}

/// How many of the first `i` operations submit a request.
pub open spec fn submits(ops: Seq<Op>, i: nat) -> nat
    decreases i,
{
    if i == 0 {
        0
    } else {
        submits(ops, (i - 1) as nat) + if ops[i - 1] is Submit {
            1nat
        } else {
            0nat
        }
    }
}

/// The requests are numbered from 1 on in the order in which they are submitted.
pub proof fn law_ids_count_submits<K: KvPool>(states: Seq<SchedView<K>>, ops: Seq<Op>, i: nat)
    requires
        history(states, ops),
        fresh(states[0]),
        i < ops.len(),
    ensures
        ops[i as int] matches Op::Submit { id, .. } ==> id.0 == submits(ops, i) + 1,
{
    lemma_next_seq(states, ops, i);
    assert(op_post(states[i as int], ops[i as int], states[i as int + 1]));
}

proof fn lemma_next_seq<K: KvPool>(states: Seq<SchedView<K>>, ops: Seq<Op>, i: nat)
    requires
        history(states, ops),
        fresh(states[0]),
        i < states.len(),
    ensures
        states[i as int].next_seq == submits(ops, i) + 1,
    decreases i,
{
    if i > 0 {
        lemma_next_seq(states, ops, (i - 1) as nat);
        assert(op_post(states[i - 1], ops[i - 1], states[i as int]));
    }
}

/// How many of the first `i` operations are steps.
pub open spec fn steps_taken(ops: Seq<Op>, i: nat) -> nat
    decreases i,
{
    if i == 0 {
        0
    } else {
        steps_taken(ops, (i - 1) as nat) + if ops[i - 1] is Step {
            1nat
        } else {
            0nat
        }
    }
}

/// Whether a sequence runs from the first operation on up to operation `i`.
pub open spec fn keeps_running<K>(states: Seq<SchedView<K>>, seq: SeqId, i: int) -> bool {
    forall|j: int|
        1 <= j <= i ==> (#[trigger] states[j]).running.len() == 1 && states[j].running[0].state.seq
            == seq
}

/// Prefill covers a prompt without a gap or an overlap, and only then is the sequence
/// decoded, also where requests are submitted and tokens reported between the steps: as long
/// as the admitted sequence runs, each step depends only on how many there were before it.
pub proof fn law_prefill_among_others<K: KvPool>(
    states: Seq<SchedView<K>>,
    ops: Seq<Op>,
    i: nat,
)
    requires
        history(states, ops),
        states[0].running.len() == 0,
        states[0].queue.len() > 0,
        states[0].cfg.max_running > 0,
        states[0].cfg.chunk_tokens > 0,
        0 < ops.len(),
        ops[0] matches Op::Step(r) && r is Ok,
        i < ops.len(),
        keeps_running(states, states[0].queue[0].seq, i as int),
    ensures
        ops[i as int] matches Op::Step(r) ==> r == Ok::<StepView, ErrorView>(
            chunk_step(
                states[0].queue[0].seq,
                states[0].queue[0].prompt_tokens.len(),
                states[0].cfg.chunk_tokens as nat,
                steps_taken(ops, i),
            ),
        ),
        ({
            let k = steps_taken(ops, i);
            let seq = states[0].queue[0].seq;
            let chunk = states[0].cfg.chunk_tokens as nat;
            let rest = states[0].queue[0].prompt_tokens.len() - k * chunk;
            ops[i as int] matches Op::Step(r) ==> {
                &&& rest > 0 || k == 0 ==> r == Ok::<StepView, ErrorView>(
                    StepView::Prefill {
                        seq,
                        start: k * chunk,
                        len: if rest <= chunk {
                            rest as nat
                        } else {
                            chunk
                        },
                    },
                )
                &&& rest <= 0 && k > 0 ==> r == Ok::<StepView, ErrorView>(
                    StepView::Decode { seqs: seq![seq] },
                )
            }
        }),
{
    lemma_chunk_step(
        states[0].queue[0].seq,
        states[0].queue[0].prompt_tokens.len(),
        states[0].cfg.chunk_tokens as nat,
        steps_taken(ops, i),
    );
    let req = states[0].queue[0];
    let n = req.prompt_tokens.len();
    let chunk = states[0].cfg.chunk_tokens as nat;
    assert(op_post(states[i as int], ops[i as int], states[i as int + 1]));
    if i == 0 {
        scheduler::lemma_first_run(states[0]);
        assert(0 * chunk == 0) by (nonlinear_arith);
    } else {
        lemma_prefilled(states, ops, i);
        let now = states[i as int];
        let k = steps_taken(ops, i);
        assert(now.running.len() == 1);
        lemma_history_wf(states, ops, i as int);
        scheduler::lemma_first_run(now);
        reveal_with_fuel(SchedView::first_run, 2);
        assert(0 <= k * chunk) by (nonlinear_arith);
    }
}

proof fn lemma_prefilled<K: KvPool>(states: Seq<SchedView<K>>, ops: Seq<Op>, i: nat)
    requires
        history(states, ops),
        states[0].running.len() == 0,
        states[0].queue.len() > 0,
        states[0].cfg.max_running > 0,
        states[0].cfg.chunk_tokens > 0,
        0 < ops.len(),
        ops[0] matches Op::Step(r) && r is Ok,
        0 < i < states.len(),
        keeps_running(states, states[0].queue[0].seq, i as int),
    ensures
        ({
            let req = states[0].queue[0];
            let run = states[i as int].running[0];
            &&& steps_taken(ops, i) > 0
            &&& run.state.prompt_tokens == req.prompt_tokens
            &&& run.prefilled == scheduler::min(
                req.prompt_tokens.len(),
                steps_taken(ops, i) * states[0].cfg.chunk_tokens as nat,
            )
        }),
    decreases i,
{
    let req = states[0].queue[0];
    let n = req.prompt_tokens.len();
    let chunk = states[0].cfg.chunk_tokens as nat;
    let p = (i - 1) as nat;
    let pre = states[p as int];
    let post = states[i as int];
    assert(op_post(pre, ops[p as int], post));
    assert(post.running.len() == 1);
    lemma_history_wf(states, ops, p as int);
    scheduler::lemma_first_run(pre);
    if p == 0 {
        assert(steps_taken(ops, 0) == 0);
        assert(steps_taken(ops, i) == 1);
        assert(1 * chunk == chunk) by (nonlinear_arith);
    } else {
        lemma_prefilled(states, ops, p);
        assert(pre.running.len() == 1 && pre.running[0].state.seq == req.seq);
        let k = steps_taken(ops, p);
        assert((k + 1) * chunk == k * chunk + chunk) by (nonlinear_arith);
        assert(0 <= k * chunk) by (nonlinear_arith);
        reveal_with_fuel(SchedView::first_run, 2);
        reveal_with_fuel(SchedView::position, 2);
    }
}

/// Whether a sequence runs.
pub open spec fn runs<K>(v: SchedView<K>, id: SeqId) -> bool {
    exists|k: int| 0 <= k < v.running.len() && (#[trigger] v.running[k]).state.seq == id
}

/// The tokens that were reported for a sequence while it ran, from operation `from` up to
/// operation `to`.
pub open spec fn reported<K>(
    states: Seq<SchedView<K>>,
    ops: Seq<Op>,
    id: SeqId,
    from: int,
    to: int,
) -> Seq<u32>
    decreases to - from,
{
    if to <= from {
        Seq::empty()
    } else {
        let before = reported(states, ops, id, from, to - 1);
        match ops[to - 1] {
            Op::Token { seq, token, .. } => if seq == id && runs(states[to - 1], id) {
                before.push(token)
            } else {
                before
            },
            _ => before,
        }
    }
}

/// A submitted request goes through the scheduler unchanged but for its id. From its submit
/// on, whatever else is done, a token that is reported while it runs is added to it; it is
/// handed back exactly when it then has the tokens that were asked for, and at least one;
/// and it is handed back with the prompt and the limit that were submitted, and with all of
/// its tokens.
pub proof fn law_submitted_handed_back<K: KvPool>(
    states: Seq<SchedView<K>>,
    ops: Seq<Op>,
    i: int,
    j: int,
)
    requires
        history(states, ops),
        0 <= i < j < ops.len(),
        ops[i] is Submit,
        ops[j] is Token,
        ops[j]->Token_seq == ops[i]->id,
    ensures
        ({
            let req = ops[i]->req;
            let id = ops[i]->id;
            let generated = req.generated + reported(states, ops, id, i + 1, j).push(
                ops[j]->token,
            );
            let done = ops[j]->done;
            if runs(states[j], id) && generated.len() >= req.max_new_tokens {
                &&& done is Some
                &&& done->0.seq == id
                &&& done->0.prompt_tokens == req.prompt_tokens
                &&& done->0.max_new_tokens == req.max_new_tokens
                &&& done->0.kv_handle is None
                &&& done->0.generated == generated
                &&& done->0.generated.len() >= req.max_new_tokens
                &&& done->0.generated.len() >= req.generated.len() + 1
                &&& done->0.generated.len() == req.max_new_tokens || done->0.generated.len()
                    == req.generated.len() + 1
            } else {
                done is None
            }
        }),
{
    lemma_request_kept(states, ops, i, j);
    lemma_history_wf(states, ops, j);
    let id = ops[i]->id;
    let pre = states[j];
    assert(op_post(pre, ops[j], states[j + 1]));
    reveal_with_fuel(SchedView::position, 2);
    if pre.running.len() > 0 && pre.running[0].state.seq == id {
        assert(runs(pre, id));
        let before = reported(states, ops, id, i + 1, j);
        let req = ops[i]->req;
        assert((req.generated + before).push(ops[j]->token) =~= req.generated + before.push(
            ops[j]->token,
        ));
    }
}

/// Whether a request is the submitted one, with tokens added to it, and not finished.
spec fn is_kept(q: ReqView, req: ReqView, generated: Seq<u32>) -> bool {
    &&& q.prompt_tokens == req.prompt_tokens
    &&& q.max_new_tokens == req.max_new_tokens
    &&& q.generated == generated
    &&& generated.len() == req.generated.len() || generated.len() < req.max_new_tokens
}

proof fn lemma_request_kept<K: KvPool>(states: Seq<SchedView<K>>, ops: Seq<Op>, i: int, j: int)
    requires
        history(states, ops),
        0 <= i < j < states.len(),
        ops[i] is Submit,
    ensures
        ({
            let id = ops[i]->id;
            let req = ops[i]->req;
            let generated = req.generated + reported(states, ops, id, i + 1, j);
            let v = states[j];
            &&& id.0 < v.next_seq
            &&& forall|k: int|
                0 <= k < v.queue.len() && (#[trigger] v.queue[k]).seq == id ==> is_kept(
                    v.queue[k],
                    req,
                    generated,
                )
            &&& forall|k: int|
                0 <= k < v.running.len() && (#[trigger] v.running[k]).state.seq == id ==> is_kept(
                    v.running[k].state,
                    req,
                    generated,
                )
        }),
    decreases j - i,
{
    let id = ops[i]->id;
    let req = ops[i]->req;
    let p = j - 1;
    let pre = states[p];
    let post = states[j];
    lemma_history_wf(states, ops, p);
    lemma_history_wf(states, ops, j);
    assert(op_post(pre, ops[p], post));
    assert(can_count(pre));
    scheduler::lemma_first_run(pre);
    let now = reported(states, ops, id, i + 1, j);
    if p == i {
        assert(req.generated + now =~= req.generated);
        assert forall|k: int| 0 <= k < post.queue.len() && (#[trigger] post.queue[k]).seq
            == id implies is_kept(post.queue[k], req, req.generated) by {
            if k < pre.queue.len() {
                let at = pre.running.len() + k;
                assert(pre.ids()[at] == pre.queue[k].seq.0);
            }
        }
        assert forall|k: int| 0 <= k < post.running.len() && (#[trigger] post.running[k]).state.seq
            == id implies is_kept(post.running[k].state, req, req.generated) by {
            assert(pre.ids()[k] == pre.running[k].state.seq.0);
        }
    } else {
        lemma_request_kept(states, ops, i, p);
        let before = reported(states, ops, id, i + 1, p);
        match ops[p] {
            Op::Submit { .. } => {
                assert forall|k: int| 0 <= k < post.queue.len() && (#[trigger] post.queue[k]).seq
                    == id implies is_kept(post.queue[k], req, req.generated + now) by {
                    if k < pre.queue.len() {
                        assert(post.queue[k] == pre.queue[k]);
                    }
                }
            },
            Op::Step(_) => {
                assert forall|k: int| 0 <= k < post.queue.len() && (#[trigger] post.queue[k]).seq
                    == id implies is_kept(post.queue[k], req, req.generated + now) by {
                    if post.queue.len() < pre.queue.len() {
                        assert(post.queue[k] == pre.queue[k + 1]);
                    }
                }
                assert forall|k: int|
                    0 <= k < post.running.len() && (#[trigger] post.running[k]).state.seq
                        == id implies is_kept(post.running[k].state, req, req.generated + now) by {
                    if pre.running.len() == 0 {
                        assert(post.running[k].state == pre.queue[0]);
                    } else {
                        assert(post.running[k].state == pre.running[k].state);
                    }
                }
            },
            Op::Token { seq, token, done } => {
                reveal_with_fuel(SchedView::position, 2);
                if seq == id && runs(pre, id) {
                    assert(pre.running[0].state.seq == id);
                    assert(now == before.push(token));
                    assert((req.generated + before).push(token) =~= req.generated + now);
                    assert forall|k: int|
                        0 <= k < post.queue.len() && (#[trigger] post.queue[k]).seq
                            == id implies is_kept(post.queue[k], req, req.generated + now) by {
                        assert(pre.ids()[0] == id.0);
                        assert(pre.ids()[pre.running.len() + k] == pre.queue[k].seq.0);
                    }
                } else {
                    assert(now == before);
                    if pre.running.len() > 0 && pre.running[0].state.seq == id {
                        assert(runs(pre, id));
                    }
                }
            },
            Op::Preempt(_) => {
                assert forall|k: int| 0 <= k < post.queue.len() && (#[trigger] post.queue[k]).seq
                    == id implies is_kept(post.queue[k], req, req.generated + now) by {
                    if pre.running.len() > 0 {
                        if k == 0 {
                            assert(pre.running[0].state.seq == id);
                        } else {
                            assert(post.queue[k] == pre.queue[k - 1]);
                        }
                    }
                }
            },
        }
    }
}

/// A running sequence whose prompt is prefilled is decoded, and the step is counted; nothing
/// else changes.
pub proof fn law_decode_step<K: KvPool>(
    pre: SchedView<K>,
    post: SchedView<K>,
    r: Result<StepView, ErrorView>,
)
    requires
        pre.wf(),
        pre.stats.total_decode_tokens < u64::MAX,
        pre.running.len() == 1,
        pre.running[0].prefilled == pre.running[0].state.prompt_tokens.len(),
        scheduler::next_step_post(pre, post, r),
    ensures
        r == Ok::<StepView, ErrorView>(StepView::Decode { seqs: seq![pre.running[0].state.seq] }),
        post.stats.total_decode_tokens == pre.stats.total_decode_tokens + 1,
        post.stats.total_admitted == pre.stats.total_admitted,
        post.stats.total_finished == pre.stats.total_finished,
        post.stats.total_preempted == pre.stats.total_preempted,
        post.running == pre.running,
        post.queue == pre.queue,
        post.kv == pre.kv,
        post.cfg == pre.cfg,
        post.next_seq == pre.next_seq,
{
    scheduler::lemma_first_run(pre);
    reveal_with_fuel(SchedView::first_run, 2);
}

/// A running sequence whose prompt is not prefilled gets the next tokens of its prompt
/// prefilled, as many as are left and a step may take; nothing else changes.
pub proof fn law_prefill_step<K: KvPool>(
    pre: SchedView<K>,
    post: SchedView<K>,
    r: Result<StepView, ErrorView>,
)
    requires
        pre.wf(),
        pre.running.len() == 1,
        pre.running[0].prefilled < pre.running[0].state.prompt_tokens.len(),
        scheduler::next_step_post(pre, post, r),
    ensures
        ({
            let run = pre.running[0];
            let len = post.running[0].prefilled - run.prefilled;
            let rest = run.state.prompt_tokens.len() - run.prefilled;
            &&& r == Ok::<StepView, ErrorView>(
                StepView::Prefill { seq: run.state.seq, start: run.prefilled, len: len as nat },
            )
            &&& len <= rest && len <= pre.cfg.chunk_tokens
            &&& len == rest || len == pre.cfg.chunk_tokens
            &&& post.running.len() == 1
            &&& post.running[0].state == run.state
            &&& post.running[0].entry == run.entry
            &&& post.running[0].admitted_at == run.admitted_at
            &&& post.stats == pre.stats
            &&& post.queue == pre.queue
            &&& post.kv == pre.kv
            &&& post.cfg == pre.cfg
            &&& post.next_seq == pre.next_seq
        }),
{
    scheduler::lemma_first_run(pre);
    reveal_with_fuel(SchedView::first_run, 2);
}

/// Where nothing runs, the request that waits longest is admitted exactly if the pool has the
/// pages for its prompt. It then holds the least number of pages that its prompt needs, and
/// its first tokens are prefilled, as many as there are and a step may take. Else it is
/// dropped, and the pool stays as it is.
pub proof fn law_admission_step(
    pre: SchedView<SimpleKvPool>,
    post: SchedView<SimpleKvPool>,
    r: Result<StepView, ErrorView>,
)
    requires
        pre.wf(),
        pre.stats.total_admitted < u64::MAX,
        pre.running.len() == 0,
        pre.queue.len() > 0,
        pre.cfg.max_running > 0,
        scheduler::next_step_post(pre, post, r),
    ensures
        ({
            let req = pre.queue[0];
            let n = req.prompt_tokens.len();
            &&& r is Ok <==> 16 * pre.kv@.free.len() >= n
            &&& post.queue == pre.queue.skip(1)
            &&& post.cfg == pre.cfg
            &&& post.next_seq == pre.next_seq
            &&& post.stats.total_finished == pre.stats.total_finished
            &&& post.stats.total_preempted == pre.stats.total_preempted
            &&& post.stats.total_decode_tokens == pre.stats.total_decode_tokens
            &&& r is Ok ==> {
                let run = post.running[0];
                &&& post.running.len() == 1
                &&& r == Ok::<StepView, ErrorView>(
                    StepView::Prefill { seq: req.seq, start: 0, len: run.prefilled },
                )
                &&& run.prefilled <= n && run.prefilled <= pre.cfg.chunk_tokens
                &&& run.prefilled == n || run.prefilled == pre.cfg.chunk_tokens
                &&& run.state == req
                &&& run.admitted_at == pre.stats.total_admitted
                &&& run.entry.seq == req.seq
                &&& run.entry.num_tokens == n
                &&& 16 * run.entry.pages.len() >= n
                &&& run.entry.pages.len() == 0 || 16 * (run.entry.pages.len() - 1) < n
                &&& post.kv@.free + run.entry.pages == pre.kv@.free
                &&& post.stats.total_admitted == pre.stats.total_admitted + 1
            }
            &&& r is Err ==> {
                &&& r->Err_0 is Oom
                &&& post.running.len() == 0
                &&& post.kv@.free == pre.kv@.free
                &&& post.stats == pre.stats
            }
        }),
{
    scheduler::lemma_first_run(pre);
    let req = pre.queue[0];
    let n = req.prompt_tokens.len();
    let a = choose|a: Result<EntryView, ErrorView>| #[trigger]
        SimpleKvPool::allocate_post(pre.kv, req.seq, n, post.kv, a) && (match a {
            Ok(e) => r is Ok && post.running.len() == 1 && post.running[0].entry == (EntryView {
                seq: req.seq,
                ..e
            }),
            Err(e) => r == Err::<StepView, ErrorView>(e) && post.running == pre.running,
        });
    kv::law_allocate_takes_least(pre.kv, req.seq, n, post.kv, a);
}

/// A token for a sequence that runs is added behind those that it has. If it then has as many
/// as were asked for, it leaves, gives back its pages and is counted as finished; else it
/// runs on. A token for another sequence changes nothing.
pub proof fn law_token_added<K: KvPool>(
    pre: SchedView<K>,
    seq: SeqId,
    token: u32,
    post: SchedView<K>,
    done: Option<ReqView>,
)
    requires
        pre.wf(),
        pre.stats.total_finished < u64::MAX,
        scheduler::token_post(pre, seq, token, post, done),
    ensures
        !runs(pre, seq) ==> done is None && post == pre,
        post.queue == pre.queue,
        post.cfg == pre.cfg,
        post.next_seq == pre.next_seq,
        post.stats.total_admitted == pre.stats.total_admitted,
        post.stats.total_preempted == pre.stats.total_preempted,
        post.stats.total_decode_tokens == pre.stats.total_decode_tokens,
        runs(pre, seq) ==> {
            let run = pre.running[0];
            let generated = run.state.generated.push(token);
            if run.state.generated.len() + 1 >= run.state.max_new_tokens {
                &&& done is Some
                &&& done->0.generated == generated
                &&& done->0.seq == seq
                &&& done->0.prompt_tokens == run.state.prompt_tokens
                &&& done->0.max_new_tokens == run.state.max_new_tokens
                &&& done->0.kv_handle is None
                &&& post.running.len() == 0
                &&& K::free_post(pre.kv, run.entry, post.kv)
                &&& post.stats.total_finished == pre.stats.total_finished + 1
            } else {
                &&& done is None
                &&& post.running.len() == 1
                &&& post.running[0].state.generated == generated
                &&& post.running[0].state.seq == seq
                &&& post.running[0].state.prompt_tokens == run.state.prompt_tokens
                &&& post.running[0].state.max_new_tokens == run.state.max_new_tokens
                &&& post.running[0].state.kv_handle == run.state.kv_handle
                &&& post.running[0].prefilled == run.prefilled
                &&& post.running[0].admitted_at == run.admitted_at
                &&& post.running[0].entry == run.entry
                &&& post.kv == pre.kv
                &&& post.stats.total_finished == pre.stats.total_finished
            }
        },
{
    reveal_with_fuel(SchedView::position, 2);
    if pre.running.len() > 0 && pre.running[0].state.seq == seq {
        assert(runs(pre, seq));
    }
}

/// The sequence that runs is swapped out: it gives back its pages and waits in front of all
/// others, with the tokens it has. Where none runs, nothing happens.
pub proof fn law_swapped_out<K: KvPool>(
    pre: SchedView<K>,
    post: SchedView<K>,
    r: Option<StepView>,
)
    requires
        pre.wf(),
        pre.stats.total_preempted < u64::MAX,
        scheduler::preempt_post(pre, post, r),
    ensures
        pre.running.len() == 0 ==> r is None && post == pre,
        post.cfg == pre.cfg,
        post.next_seq == pre.next_seq,
        post.stats.total_admitted == pre.stats.total_admitted,
        post.stats.total_finished == pre.stats.total_finished,
        post.stats.total_decode_tokens == pre.stats.total_decode_tokens,
        pre.running.len() > 0 ==> {
            let run = pre.running[0];
            &&& r == Some(StepView::Preempt { seq: run.state.seq })
            &&& post.running.len() == 0
            &&& post.queue.len() == pre.queue.len() + 1
            &&& post.queue.skip(1) == pre.queue
            &&& post.queue[0].seq == run.state.seq
            &&& post.queue[0].prompt_tokens == run.state.prompt_tokens
            &&& post.queue[0].generated == run.state.generated
            &&& post.queue[0].max_new_tokens == run.state.max_new_tokens
            &&& post.queue[0].kv_handle is None
            &&& K::free_post(pre.kv, run.entry, post.kv)
            &&& post.stats.total_preempted == pre.stats.total_preempted + 1
        },
{
    if pre.running.len() > 0 {
        assert(post.queue.skip(1) =~= pre.queue);
    }
}

/// The counts of a scheduler are those of what it was asked and what it answered: decode
/// steps, requests that were handed back, and sequences that were swapped out.
pub proof fn law_counts<K: KvPool>(states: Seq<SchedView<K>>, ops: Seq<Op>, i: int)
    requires
        history(states, ops),
        fresh(states[0]),
        0 <= i < states.len(),
    ensures
        states[i].stats.total_decode_tokens == ops.take(i).filter(
            |op: Op| op matches Op::Step(r) && r is Ok && r->Ok_0 is Decode,
        ).len(),
        states[i].stats.total_finished == ops.take(i).filter(
            |op: Op| op is Token && op->done is Some,
        ).len(),
        states[i].stats.total_preempted == ops.take(i).filter(
            |op: Op| op matches Op::Preempt(r) && r is Some,
        ).len(),
    decreases i,
{
    reveal(Seq::filter);
    let done = ops.take(i);
    if i > 0 {
        law_counts(states, ops, i - 1);
        lemma_history_wf(states, ops, i - 1);
        let pre = states[i - 1];
        assert(can_count(pre));
        assert(op_post(pre, ops[i - 1], states[i]));
        assert(done.drop_last() =~= ops.take(i - 1));
        assert(done.last() == ops[i - 1]);
        scheduler::lemma_first_run(pre);
        reveal_with_fuel(SchedView::first_run, 2);
        reveal_with_fuel(SchedView::position, 2);
    } else {
        assert(done =~= Seq::empty());
    }
}

} // verus!
