//! Drives a scheduler round by round: take the next step, and hand a decoded token back.

use vstd::prelude::*;

use crate::error::{ErrorView, FtError};
use crate::kv::KvPool;
use crate::scheduler;
use crate::scheduler::{RunView, SchedView, Scheduler};
use crate::seq::{ReqState, ReqView, SeqId};
use crate::step::{Step, StepView};

verus! {

/// What a round did.
#[derive(Debug)]
pub enum Round {
    /// A chunk of a prompt is to be prefilled.
    Prefill,
    /// A sequence got a token.
    Token,
    /// A sequence got its last token.
    Finished(ReqState),
    /// There was nothing to prefill or to decode.
    Stopped,
    /// The next step could not be taken.
    Failed(FtError),
}

/// What a round did, as a mathematical value.
pub enum RoundView {
    Prefill,
    Token,
    Finished(ReqView),
    Stopped,
    Failed(ErrorView),
}

impl View for Round {
    type V = RoundView;

    open spec fn view(&self) -> RoundView {
        match self {
            Round::Prefill => RoundView::Prefill,
            Round::Token => RoundView::Token,
            Round::Finished(q) => RoundView::Finished(q@),
            Round::Stopped => RoundView::Stopped,
            Round::Failed(e) => RoundView::Failed(e@),
        }
    }
}

/// What a round does once its step is known: only a decode step changes more, by handing
/// the token to the sequence that was decoded.
pub open spec fn after_step<K: KvPool>(
    mid: SchedView<K>,
    step: Result<StepView, ErrorView>,
    token: u32,
    post: SchedView<K>,
    r: RoundView,
) -> bool {
    match step {
        Ok(StepView::Prefill { .. }) => r == RoundView::Prefill && post == mid,
        Ok(StepView::Decode { seqs }) => match r {
            RoundView::Token => scheduler::token_post(mid, seqs[0], token, post, None),
            RoundView::Finished(q) => scheduler::token_post(mid, seqs[0], token, post, Some(q)),
            _ => false,
        },
        Ok(_) => r == RoundView::Stopped && post == mid,
        Err(e) => r == RoundView::Failed(e) && post == mid,
    }
}

/// What a round does.
pub open spec fn round_post<K: KvPool>(
    pre: SchedView<K>,
    token: u32,
    post: SchedView<K>,
    r: RoundView,
) -> bool {
    exists|mid: SchedView<K>, step: Result<StepView, ErrorView>| #[trigger]
        scheduler::next_step_post(pre, mid, step) && after_step(mid, step, token, post, r)
}

/// Whether every count of a scheduler can still go up.
pub open spec fn can_count<K>(v: SchedView<K>) -> bool {
    &&& v.stats.total_admitted < u64::MAX
    &&& v.stats.total_finished < u64::MAX
    &&& v.stats.total_decode_tokens < u64::MAX
}

/// Takes the next step, and hands `token` to the sequence if one was decoded.
pub fn round<K: KvPool>(sched: &mut Scheduler<K>, token: u32) -> (r: Round)
    requires
        old(sched)@.wf(),
        can_count(old(sched)@),
    ensures
        final(sched)@.wf(),
        round_post(old(sched)@, token, final(sched)@, r@),
{
    let ghost pre = sched@;
    let step = sched.next_step();
    let ghost mid = sched@;
    let ghost taken = scheduler::step_result(step);
    assert(scheduler::next_step_post(pre, mid, taken));
    match step {
        Ok(Step::Prefill { .. }) => Round::Prefill,
        Ok(Step::Decode { seqs }) => match sched.on_decode_token(seqs[0], token) {
            Some(done) => Round::Finished(done),
            None => Round::Token,
        },
        Ok(_) => Round::Stopped,
        Err(e) => Round::Failed(e),
    }
}

/// How many prefill steps `rest` tokens of a prompt take.
pub open spec fn chunks_left(rest: nat, chunk: nat) -> nat
    decreases rest,
{
    if rest == 0 || chunk == 0 {
        0
    } else {
        1 + chunks_left((rest - scheduler::min(rest, chunk)) as nat, chunk)
    }
}

/// How many tokens a sequence gets before it leaves: at least one.
pub open spec fn tokens_left(state: ReqView) -> nat {
    if state.generated.len() + 1 >= state.max_new_tokens {
        1
    } else {
        (state.max_new_tokens - state.generated.len()) as nat
    }
}

/// How many rounds a running sequence takes until it leaves.
pub open spec fn rounds_left(run: RunView, chunk: nat) -> nat {
    chunks_left((run.state.prompt_tokens.len() - run.prefilled) as nat, chunk) + tokens_left(
        run.state,
    )
}

/// A round with its token and what it did, or a request that is submitted.
pub enum Event {
    Round { token: u32, done: RoundView },
    Submit { req: ReqView, id: SeqId },
}

/// What an event does.
pub open spec fn event_post<K: KvPool>(pre: SchedView<K>, e: Event, post: SchedView<K>) -> bool {
    match e {
        Event::Round { token, done } => round_post(pre, token, post, done),
        Event::Submit { req, id } => scheduler::submit_post(pre, req, post, id),
    }
}

/// Events that follow one another, each from where the one before it ended.
pub open spec fn served<K: KvPool>(states: Seq<SchedView<K>>, events: Seq<Event>) -> bool {
    &&& states.len() == events.len() + 1
    &&& states[0].wf()
    &&& forall|i: int| 0 <= i < states.len() ==> can_count(#[trigger] states[i])
    &&& forall|i: int|
        0 <= i < events.len() ==> event_post(states[i], #[trigger] events[i], states[i + 1])
}

/// The tokens of the rounds among the first `i` events.
pub open spec fn tokens_in(events: Seq<Event>, i: nat) -> Seq<u32>
    decreases i,
{
    if i == 0 {
        Seq::empty()
    } else {
        match events[i - 1] {
            Event::Round { token, .. } => tokens_in(events, (i - 1) as nat).push(token),
            Event::Submit { .. } => tokens_in(events, (i - 1) as nat),
        }
    }
}

/// A round with a running sequence is one round less for it: a chunk of its prompt is
/// prefilled, or it gets the token, and leaves with it if this was its last round.
proof fn lemma_round<K: KvPool>(pre: SchedView<K>, token: u32, post: SchedView<K>, r: RoundView)
    requires
        pre.wf(),
        can_count(pre),
        pre.running.len() == 1,
        pre.cfg.chunk_tokens > 0,
        round_post(pre, token, post, r),
    ensures
        ({
            let run = pre.running[0];
            let chunk = pre.cfg.chunk_tokens as nat;
            let state = ReqView { generated: run.state.generated.push(token), ..run.state };
            &&& post.wf()
            &&& post.cfg == pre.cfg
            &&& post.queue == pre.queue
            &&& if run.prefilled < run.state.prompt_tokens.len() {
                &&& r == RoundView::Prefill
                &&& post.running.len() == 1
                &&& post.running[0].state == run.state
                &&& rounds_left(post.running[0], chunk) + 1 == rounds_left(run, chunk)
            } else if rounds_left(run, chunk) == 1 {
                &&& r == RoundView::Finished(ReqView { kv_handle: None, ..state })
                &&& post.running.len() == 0
            } else {
                &&& r == RoundView::Token
                &&& post.running.len() == 1
                &&& post.running[0].state == state
                &&& post.running[0].prefilled == run.prefilled
                &&& rounds_left(post.running[0], chunk) + 1 == rounds_left(run, chunk)
            }
        }),
{
    let (mid, step) = choose|mid: SchedView<K>, step: Result<StepView, ErrorView>| #[trigger]
        scheduler::next_step_post(pre, mid, step) && after_step(mid, step, token, post, r);
    scheduler::lemma_first_run(pre);
    scheduler::lemma_next_step_wf(pre, mid, step);
    reveal_with_fuel(SchedView::first_run, 2);
    reveal_with_fuel(SchedView::position, 2);
    let run = pre.running[0];
    if run.prefilled == run.state.prompt_tokens.len() {
        assert(mid.running == pre.running);
        let q = match r {
            RoundView::Finished(q) => Some(q),
            _ => None,
        };
        scheduler::lemma_token_wf(mid, run.state.seq, token, post, q);
    }
}

/// A request that runs is served in a fixed number of rounds, whatever requests are submitted
/// between them: no round before the last of them ends it, and in the last it leaves with
/// what it had generated, followed by the tokens of its decode rounds.
pub proof fn law_request_served<K: KvPool>(
    states: Seq<SchedView<K>>,
    events: Seq<Event>,
    i: nat,
)
    requires
        served(states, events),
        states[0].running.len() == 1,
        states[0].cfg.chunk_tokens > 0,
        i < events.len(),
        tokens_in(events, i).len() < rounds_left(
            states[0].running[0],
            states[0].cfg.chunk_tokens as nat,
        ),
    ensures
        events[i as int] matches Event::Round { token, done } ==> {
            let run = states[0].running[0];
            let n = rounds_left(run, states[0].cfg.chunk_tokens as nat);
            let prefills = n - tokens_left(run.state);
            let tokens = tokens_in(events, i).push(token);
            if tokens.len() <= prefills {
                done == RoundView::Prefill
            } else if tokens.len() < n {
                done == RoundView::Token
            } else {
                done == RoundView::Finished(
                    ReqView {
                        kv_handle: None,
                        generated: run.state.generated + tokens.skip(prefills),
                        ..run.state
                    },
                )
            }
        },
{
    lemma_served(states, events, i);
    let run = states[0].running[0];
    let n = rounds_left(run, states[0].cfg.chunk_tokens as nat);
    let prefills = n - tokens_left(run.state);
    assert(event_post(states[i as int], events[i as int], states[i as int + 1]));
    if let Event::Round { token, done } = events[i as int] {
        lemma_round(states[i as int], token, states[i as int + 1], done);
        let before = tokens_in(events, i);
        if before.len() >= prefills {
            assert((run.state.generated + before.skip(prefills)).push(token) =~= run.state.generated
                + before.push(token).skip(prefills));
        }
    }
}

/// Where a running sequence stands after `i` events.
proof fn lemma_served<K: KvPool>(states: Seq<SchedView<K>>, events: Seq<Event>, i: nat)
    requires
        served(states, events),
        states[0].running.len() == 1,
        states[0].cfg.chunk_tokens > 0,
        i < states.len(),
        tokens_in(events, i).len() < rounds_left(
            states[0].running[0],
            states[0].cfg.chunk_tokens as nat,
        ),
    ensures
        ({
            let run = states[0].running[0];
            let chunk = states[0].cfg.chunk_tokens as nat;
            let n = rounds_left(run, chunk);
            let prefills = n - tokens_left(run.state);
            let tokens = tokens_in(events, i);
            let now = states[i as int].running[0];
            &&& states[i as int].wf()
            &&& states[i as int].cfg == states[0].cfg
            &&& states[i as int].running.len() == 1
            &&& rounds_left(now, chunk) == n - tokens.len()
            &&& tokens.len() <= prefills ==> now.state == run.state
            &&& tokens.len() >= prefills ==> now.state == (ReqView {
                generated: run.state.generated + tokens.skip(prefills),
                ..run.state
            })
            &&& tokens.len() >= prefills ==> now.prefilled == now.state.prompt_tokens.len()
        }),
    decreases i,
{
    let run = states[0].running[0];
    let chunk = states[0].cfg.chunk_tokens as nat;
    let n = rounds_left(run, chunk);
    let prefills = n - tokens_left(run.state);
    let tokens = tokens_in(events, i);
    if i == 0 {
        if prefills == 0 {
            assert(run.state.generated + tokens.skip(0) =~= run.state.generated);
        }
    } else {
        let p = (i - 1) as nat;
        let before = tokens_in(events, p);
        let pre = states[p as int];
        let post = states[i as int];
        lemma_served(states, events, p);
        assert(can_count(pre));
        assert(event_post(pre, events[p as int], post));
        match events[p as int] {
            Event::Round { token, done } => {
                lemma_round(pre, token, post, done);
                if tokens.len() == prefills {
                    assert(run.state.generated + tokens.skip(prefills) =~= run.state.generated);
                } else if tokens.len() > prefills {
                    assert(run.state.generated + tokens.skip(prefills) =~= (run.state.generated
                        + before.skip(prefills)).push(token));
                }
            },
            Event::Submit { req, id } => {
                scheduler::lemma_submit_wf(pre, req, post, id);
            },
        }
    }
}

/// Prefilling takes the least number of steps that covers what is left of a prompt, and
/// decoding as many rounds as tokens are still to come, and at least one.
pub proof fn law_rounds_left(run: RunView, chunk: nat)
    requires
        chunk > 0,
        run.prefilled <= run.state.prompt_tokens.len(),
    ensures
        ({
            let rest = run.state.prompt_tokens.len() - run.prefilled;
            let wanted = run.state.max_new_tokens - run.state.generated.len();
            let tokens = if wanted > 1 {
                wanted
            } else {
                1
            };
            let steps = rounds_left(run, chunk) - tokens;
            &&& steps >= 0
            &&& steps * chunk >= rest
            &&& steps > 0 ==> (steps - 1) * chunk < rest
            &&& tokens_left(run.state) == tokens
        }),
{
    lemma_chunks_left((run.state.prompt_tokens.len() - run.prefilled) as nat, chunk);
}

proof fn lemma_chunks_left(rest: nat, chunk: nat)
    requires
        chunk > 0,
    ensures
        chunks_left(rest, chunk) * chunk >= rest,
        chunks_left(rest, chunk) > 0 ==> (chunks_left(rest, chunk) - 1) * chunk < rest,
        chunks_left(rest, chunk) == 0 <==> rest == 0,
    decreases rest,
{
    let c = chunks_left(rest, chunk) as int;
    if rest > 0 {
        let less = (rest - scheduler::min(rest, chunk)) as nat;
        lemma_chunks_left(less, chunk);
        assert(c * chunk == (c - 1) * chunk + chunk) by (nonlinear_arith);
        if c - 1 > 0 {
            assert((c - 1) * chunk == (c - 2) * chunk + chunk) by (nonlinear_arith);
        } else {
            assert((c - 1) * chunk == 0) by (nonlinear_arith)
                requires
                    c - 1 == 0,
            ;
        }
    } else {
        assert(c * chunk >= 0) by (nonlinear_arith)
            requires
                c >= 0,
        ;
    }
}

/// A round stops exactly where nothing runs and nothing may be admitted, and then changes
/// nothing. A round in which nothing ran prefills the first tokens of the request that it
/// admits, or fails with the error that the request was dropped for.
pub proof fn law_round_without_running<K: KvPool>(
    pre: SchedView<K>,
    token: u32,
    post: SchedView<K>,
    r: RoundView,
)
    requires
        pre.wf(),
        can_count(pre),
        pre.running.len() == 0,
        round_post(pre, token, post, r),
    ensures
        pre.queue.len() == 0 || pre.cfg.max_running == 0 ==> r == RoundView::Stopped && post == pre,
        pre.queue.len() > 0 && pre.cfg.max_running > 0 ==> {
            &&& r is Prefill || r is Failed
            &&& post.queue == pre.queue.skip(1)
            &&& r is Prefill ==> post.running.len() == 1 && post.running[0].state == pre.queue[0]
            &&& r is Failed ==> post.running.len() == 0 && scheduler::next_step_post(
                pre,
                post,
                Err(r->Failed_0),
            )
        },
{
    scheduler::lemma_first_run(pre);
}

} // verus!
