//! Continuous batching: decode goes first, prefill runs in chunks, and the youngest
//! sequence is swapped out when memory runs short.

use std::collections::VecDeque;
use vstd::prelude::*;

use crate::error::{ErrorView, FtError};
use crate::kv::{EntryView, KvPool, SeqEntry};
use crate::seq::{ReqState, ReqView, SeqId};
use crate::step::{Step, StepView};

verus! {

/// The limits of a scheduler.
#[derive(Debug, Clone)]
pub struct SchedulerConfig {
    /// How many sequences may run at once.
    pub max_running: usize,
    /// How many tokens one prefill step may take.
    pub chunk_tokens: usize,
    /// The cache tokens to keep in reserve for each sequence.
    pub kv_reserve_tokens: usize,
}

impl Default for SchedulerConfig {
    fn default() -> (c: Self)
        ensures
            c == (SchedulerConfig { max_running: 4, chunk_tokens: 8192, kv_reserve_tokens: 8192 }),
    {
        SchedulerConfig { max_running: 4, chunk_tokens: 8192, kv_reserve_tokens: 8192 }
    }
}

/// A sequence that has been admitted.
#[derive(Debug)]
pub struct RunningReq {
    pub state: ReqState,
    /// How many tokens of the prompt have been prefilled.
    pub prefilled: usize,
    /// How many sequences had been admitted before this one.
    pub admitted_at: u64,
    /// The cache pages of the sequence.
    pub entry: SeqEntry,
}

/// An admitted sequence as a mathematical value.
pub struct RunView {
    pub state: ReqView,
    pub prefilled: nat,
    pub admitted_at: nat,
    pub entry: EntryView,
}

impl View for RunningReq {
    type V = RunView;

    open spec fn view(&self) -> RunView {
        RunView {
            state: self.state@,
            prefilled: self.prefilled as nat,
            admitted_at: self.admitted_at as nat,
            entry: self.entry@,
        }
    }
}

/// What a scheduler has done so far.
#[derive(Debug)]
pub struct SchedulerStats {
    pub total_admitted: u64,
    pub total_finished: u64,
    pub total_preempted: u64,
    pub total_decode_tokens: u64,
}

impl Default for SchedulerStats {
    fn default() -> (s: Self)
        ensures
            s == (SchedulerStats {
                total_admitted: 0,
                total_finished: 0,
                total_preempted: 0,
                total_decode_tokens: 0,
            }),
    {
        SchedulerStats {
            total_admitted: 0,
            total_finished: 0,
            total_preempted: 0,
            total_decode_tokens: 0,
        }
    }
}

/// Requests wait in a queue, run, and leave when they have all their tokens.
pub struct Scheduler<K: KvPool> {
    cfg: SchedulerConfig,
    kv: K,
    queue: VecDeque<ReqState>,
    running: Vec<RunningReq>,
    stats: SchedulerStats,
    next_seq: u64,
}

/// A scheduler as a mathematical value.
pub struct SchedView<K> {
    pub cfg: SchedulerConfig,
    pub kv: K,
    pub queue: Seq<ReqView>,
    pub running: Seq<RunView>,
    pub stats: SchedulerStats,
    pub next_seq: nat,
}

impl<K> SchedView<K> {
    /// The ids of all sequences: those that run, then those that wait.
    pub open spec fn ids(self) -> Seq<u64> {
        self.running.map_values(|r: RunView| r.state.seq.0) + self.queue.map_values(
            |q: ReqView| q.seq.0,
        )
    }

    /// At most one sequence runs; no sequence has more tokens prefilled than its prompt
    /// has; the pages of a sequence are held under its id; ids are handed out upwards and
    /// leave in the order they were handed out; and running sequences stand in the order of
    /// their admission.
    pub open spec fn wf(self) -> bool {
        &&& self.running.len() <= 1
        &&& 1 <= self.next_seq
        &&& forall|i: int|
            0 <= i < self.running.len() ==> (#[trigger] self.running[i]).prefilled
                <= self.running[i].state.prompt_tokens.len()
        &&& forall|i: int|
            0 <= i < self.running.len() ==> (#[trigger] self.running[i]).entry.seq
                == self.running[i].state.seq
        &&& forall|i: int, j: int|
            0 <= i < j < self.ids().len() ==> #[trigger] self.ids()[i] < #[trigger] self.ids()[j]
        &&& forall|i: int|
            0 <= i < self.ids().len() ==> 1 <= #[trigger] self.ids()[i] < self.next_seq
        &&& forall|i: int, j: int|
            0 <= i < j < self.running.len() ==> (#[trigger] self.running[i]).admitted_at < (
            #[trigger] self.running[j]).admitted_at
        &&& forall|i: int|
            0 <= i < self.running.len() ==> (#[trigger] self.running[i]).admitted_at
                < self.stats.total_admitted
    }

    /// The first running sequence, at or after position `from`, whose prompt is all
    /// prefilled (`done`) or not (`!done`).
    pub open spec fn first_run(self, done: bool, from: int) -> Option<int>
        decreases self.running.len() - from,
    {
        if from < 0 || from >= self.running.len() {
            None
        } else if (self.running[from].prefilled == self.running[from].state.prompt_tokens.len())
            == done {
            Some(from)
        } else {
            self.first_run(done, from + 1)
        }
    }

    /// The first running sequence with the given id, at or after position `from`.
    pub open spec fn position(self, seq: SeqId, from: int) -> Option<int>
        decreases self.running.len() - from,
    {
        if from < 0 || from >= self.running.len() {
            None
        } else if self.running[from].state.seq == seq {
            Some(from)
        } else {
            self.position(seq, from + 1)
        }
    }
}

/// The lesser of two numbers.
pub open spec fn min(a: nat, b: nat) -> nat {
    if a <= b {
        a
    } else {
        b
    }
}

impl<K: KvPool> View for Scheduler<K> {
    type V = SchedView<K>;

    closed spec fn view(&self) -> SchedView<K> {
        SchedView {
            cfg: self.cfg,
            kv: self.kv,
            queue: self.queue@.map_values(|q: ReqState| q@),
            running: self.running@.map_values(|r: RunningReq| r@),
            stats: self.stats,
            next_seq: self.next_seq as nat,
        }
    }
}

/// What a step returned, as a mathematical value.
pub open spec fn step_result(r: Result<Step, FtError>) -> Result<StepView, ErrorView> {
    match r {
        Ok(s) => Ok(s@),
        Err(e) => Err(e@),
    }
}

/// What `submit` does: the request gets the next id and goes to the end of the queue.
pub open spec fn submit_post<K>(
    pre: SchedView<K>,
    req: ReqView,
    post: SchedView<K>,
    id: SeqId,
) -> bool {
    &&& id.0 == pre.next_seq
    &&& post == (SchedView {
        queue: pre.queue.push(ReqView { seq: id, ..req }),
        next_seq: pre.next_seq + 1,
        ..pre
    })
}

/// What `next_step` does. A running sequence whose prompt is prefilled is decoded;
/// else a running sequence gets its next chunk prefilled; else the first waiting
/// request is admitted with its first chunk, if the pool has its pages, which are then
/// held under the id of the sequence.
pub open spec fn next_step_post<K: KvPool>(
    pre: SchedView<K>,
    post: SchedView<K>,
    r: Result<StepView, ErrorView>,
) -> bool {
    if let Some(i) = pre.first_run(true, 0) {
        &&& r == Ok::<StepView, ErrorView>(
            StepView::Decode { seqs: seq![pre.running[i].state.seq] },
        )
        &&& post == (SchedView {
            stats: SchedulerStats {
                total_decode_tokens: (pre.stats.total_decode_tokens + 1) as u64,
                ..pre.stats
            },
            ..pre
        })
    } else if let Some(i) = pre.first_run(false, 0) {
        let run = pre.running[i];
        let len = min(
            (run.state.prompt_tokens.len() - run.prefilled) as nat,
            pre.cfg.chunk_tokens as nat,
        );
        &&& r == Ok::<StepView, ErrorView>(
            StepView::Prefill { seq: run.state.seq, start: run.prefilled, len },
        )
        &&& post == (SchedView {
            running: pre.running.update(i, RunView { prefilled: run.prefilled + len, ..run }),
            ..pre
        })
    } else if pre.queue.len() > 0 && pre.running.len() < pre.cfg.max_running {
        let req = pre.queue[0];
        let n = req.prompt_tokens.len();
        let len = min(n, pre.cfg.chunk_tokens as nat);
        exists|alloc_r: Result<EntryView, ErrorView>| #[trigger]
            K::allocate_post(pre.kv, req.seq, n, post.kv, alloc_r) && match alloc_r {
                Ok(entry) => {
                    &&& r == Ok::<StepView, ErrorView>(
                        StepView::Prefill { seq: req.seq, start: 0, len },
                    )
                    &&& post == (SchedView {
                        kv: post.kv,
                        queue: pre.queue.skip(1),
                        running: pre.running.push(
                            RunView {
                                state: req,
                                prefilled: len,
                                admitted_at: pre.stats.total_admitted as nat,
                                entry: EntryView { seq: req.seq, ..entry },
                            },
                        ),
                        stats: SchedulerStats {
                            total_admitted: (pre.stats.total_admitted + 1) as u64,
                            ..pre.stats
                        },
                        ..pre
                    })
                },
                Err(e) => {
                    &&& r == Err::<StepView, ErrorView>(e)
                    &&& post == (SchedView { kv: post.kv, queue: pre.queue.skip(1), ..pre })
                },
            }
    } else {
        &&& r == Ok::<StepView, ErrorView>(StepView::Idle)
        &&& post == pre
    }
}

/// What `on_decode_token` does: the token is added to its sequence, which leaves and
/// gives its pages back when it then has all the tokens it may have.
pub open spec fn token_post<K: KvPool>(
    pre: SchedView<K>,
    seq: SeqId,
    token: u32,
    post: SchedView<K>,
    r: Option<ReqView>,
) -> bool {
    match pre.position(seq, 0) {
        None => r is None && post == pre,
        Some(i) => {
            let run = pre.running[i];
            let state = ReqView { generated: run.state.generated.push(token), ..run.state };
            if state.generated.len() >= state.max_new_tokens {
                &&& r == Some(ReqView { kv_handle: None, ..state })
                &&& K::free_post(pre.kv, run.entry, post.kv)
                &&& post == (SchedView {
                    kv: post.kv,
                    running: pre.running.remove(i),
                    stats: SchedulerStats {
                        total_finished: (pre.stats.total_finished + 1) as u64,
                        ..pre.stats
                    },
                    ..pre
                })
            } else {
                &&& r is None
                &&& post == (SchedView {
                    running: pre.running.update(i, RunView { state, ..run }),
                    ..pre
                })
            }
        },
    }
}

/// What `preempt_youngest` does: the sequence admitted last gives its pages back and
/// goes to the front of the queue, with the tokens it has generated.
pub open spec fn preempt_post<K: KvPool>(
    pre: SchedView<K>,
    post: SchedView<K>,
    r: Option<StepView>,
) -> bool {
    if pre.running.len() == 0 {
        r is None && post == pre
    } else {
        let run = pre.running.last();
        &&& r == Some(StepView::Preempt { seq: run.state.seq })
        &&& K::free_post(pre.kv, run.entry, post.kv)
        &&& post == (SchedView {
            kv: post.kv,
            queue: seq![ReqView { kv_handle: None, ..run.state }] + pre.queue,
            running: pre.running.drop_last(),
            stats: SchedulerStats {
                total_preempted: (pre.stats.total_preempted + 1) as u64,
                ..pre.stats
            },
            ..pre
        })
    }
}

impl<K: KvPool> Scheduler<K> {
    /// A scheduler with nothing to do.
    pub fn new(cfg: SchedulerConfig, kv: K) -> (s: Self)
        ensures
            s@.wf(),
            s@ == (SchedView {
                cfg,
                kv,
                queue: Seq::empty(),
                running: Seq::empty(),
                stats: SchedulerStats {
                    total_admitted: 0,
                    total_finished: 0,
                    total_preempted: 0,
                    total_decode_tokens: 0,
                },
                next_seq: 1,
            }),
    {
        let s = Scheduler {
            cfg,
            kv,
            queue: VecDeque::new(),
            running: Vec::new(),
            stats: SchedulerStats::default(),
            next_seq: 1,
        };
        proof {
            assert(s@.queue =~= Seq::empty());
            assert(s@.running =~= Seq::empty());
            assert(s@.ids() =~= Seq::empty());
        }
        s
    }

    /// What the scheduler has done so far.
    pub fn stats(&self) -> (r: &SchedulerStats)
        ensures
            *r == self@.stats,
    {
        &self.stats
    }

    /// How many requests wait.
    pub fn queue_len(&self) -> (n: usize)
        ensures
            n == self@.queue.len(),
    {
        self.queue.len()
    }

    /// How many sequences run.
    pub fn running_len(&self) -> (n: usize)
        ensures
            n == self@.running.len(),
    {
        self.running.len()
    }

    /// Whether nothing waits and nothing runs.
    pub fn is_idle(&self) -> (b: bool)
        ensures
            b == (self@.queue.len() == 0 && self@.running.len() == 0),
    {
        self.queue.len() == 0 && self.running.len() == 0
    }

    /// Puts a request at the end of the queue and returns the id it was given.
    pub fn submit(&mut self, req: ReqState) -> (id: SeqId)
        requires
            old(self)@.wf(),
            old(self)@.next_seq < u64::MAX,
        ensures
            final(self)@.wf(),
            submit_post(old(self)@, req@, final(self)@, id),
            id.0 == old(self)@.next_seq,
            final(self)@.next_seq == old(self)@.next_seq + 1,
            final(self)@.queue.len() == old(self)@.queue.len() + 1,
            final(self)@.queue.take(old(self)@.queue.len() as int) == old(self)@.queue,
            final(self)@.queue.last().seq == id,
            final(self)@.queue.last().prompt_tokens == req.prompt_tokens@,
            final(self)@.queue.last().kv_handle == req.kv_handle,
            final(self)@.queue.last().generated == req.generated@,
            final(self)@.queue.last().max_new_tokens == req.max_new_tokens,
            final(self)@.running == old(self)@.running,
            final(self)@.kv == old(self)@.kv,
            final(self)@.cfg == old(self)@.cfg,
            final(self)@.stats == old(self)@.stats,
    {
        let mut req = req;
        req.seq = SeqId(self.next_seq);
        self.next_seq = self.next_seq + 1;
        let sid = req.seq;
        self.queue.push_back(req);
        proof {
            assert(self@.queue =~= old(self)@.queue.push(req@));
            lemma_submit_wf(old(self)@, req@, self@, sid);
        }
        sid
    }

    /// Decides the next step. Decoding goes before prefilling, and prefilling before
    /// the admission of another request.
    pub fn next_step(&mut self) -> (r: Result<Step, FtError>)
        requires
            old(self)@.wf(),
            old(self)@.stats.total_decode_tokens < u64::MAX,
            old(self)@.stats.total_admitted < u64::MAX,
        ensures
            final(self)@.wf(),
            next_step_post(old(self)@, final(self)@, step_result(r)),
    {
        let ghost pre = self@;
        let n: usize = self.running.len();
        let mut i: usize = 0;
        while i < n
            invariant
                self@ == pre,
                n == pre.running.len(),
                n == self.running@.len(),
                i <= n,
                pre.first_run(true, 0) == pre.first_run(true, i as int),
                self.stats.total_decode_tokens < u64::MAX,
                pre.stats.total_admitted < u64::MAX,
                pre.wf(),
                pre == old(self)@,
            decreases n - i,
        {
            proof {
                assert(pre.running[i as int] == self.running@[i as int]@);
            }
            if self.running[i].prefilled == self.running[i].state.prompt_tokens.len() {
                let seqs: Vec<SeqId> = vec![self.running[i].state.seq];
                self.stats.total_decode_tokens = self.stats.total_decode_tokens + seqs.len() as u64;
                proof {
                    assert(seqs@ =~= seq![pre.running[i as int].state.seq]);
                    lemma_next_step_wf(
                        pre,
                        self@,
                        Ok::<StepView, ErrorView>(StepView::Decode { seqs: seqs@ }),
                    );
                }
                return Ok(Step::Decode { seqs });
            }
            i = i + 1;
        }
        let mut j: usize = 0;
        while j < n
            invariant
                self@ == pre,
                n == pre.running.len(),
                n == self.running@.len(),
                j <= n,
                pre.first_run(true, 0) is None,
                pre.first_run(false, 0) == pre.first_run(false, j as int),
                pre.stats.total_admitted < u64::MAX,
                pre.wf(),
                pre == old(self)@,
            decreases n - j,
        {
            proof {
                assert(pre.running[j as int] == self.running@[j as int]@);
            }
            let have: usize = self.running[j].prefilled;
            let total: usize = self.running[j].state.prompt_tokens.len();
            if have < total {
                let seq = self.running[j].state.seq;
                let rest: usize = total - have;
                let len: usize = if rest <= self.cfg.chunk_tokens {
                    rest
                } else {
                    self.cfg.chunk_tokens
                };
                self.running[j].prefilled = have + len;
                proof {
                    let run = pre.running[j as int];
                    assert(self@.running =~= pre.running.update(
                        j as int,
                        RunView { prefilled: run.prefilled + len as nat, ..run },
                    ));
                    lemma_next_step_wf(
                        pre,
                        self@,
                        Ok::<StepView, ErrorView>(
                            StepView::Prefill { seq, start: have as nat, len: len as nat },
                        ),
                    );
                }
                return Ok(Step::Prefill { seq, start: have, len });
            }
            j = j + 1;
        }
        if self.queue.len() > 0 && self.running.len() < self.cfg.max_running {
            let req = self.queue.pop_front().unwrap();
            let n: usize = req.prompt_tokens.len();
            let seq = req.seq;
            let len: usize = if n <= self.cfg.chunk_tokens {
                n
            } else {
                self.cfg.chunk_tokens
            };
            proof {
                assert(req@ == pre.queue[0]);
            }
            match self.kv.allocate(seq, n) {
                Ok(entry) => {
                    let admitted_at = self.stats.total_admitted;
                    let ghost given = entry@;
                    let mut entry = entry;
                    entry.seq = seq;
                    self.running.push(RunningReq { state: req, prefilled: len, admitted_at, entry });
                    self.stats.total_admitted = self.stats.total_admitted + 1;
                    proof {
                        let r = Ok::<StepView, ErrorView>(
                            StepView::Prefill { seq, start: 0, len: len as nat },
                        );
                        assert(self@.queue =~= pre.queue.skip(1));
                        assert(self@.running =~= pre.running.push(
                            RunView {
                                state: req@,
                                prefilled: len as nat,
                                admitted_at: admitted_at as nat,
                                entry: entry@,
                            },
                        ));
                        assert(K::allocate_post(pre.kv, seq, n as nat, self@.kv, Ok(given)));
                        lemma_next_step_wf(pre, self@, r);
                    }
                    Ok(Step::Prefill { seq, start: 0, len })
                },
                Err(e) => {
                    proof {
                        assert(self@.queue =~= pre.queue.skip(1));
                        assert(K::allocate_post(pre.kv, seq, n as nat, self@.kv, Err(e@)));
                        lemma_next_step_wf(pre, self@, Err::<StepView, ErrorView>(e@));
                    }
                    Err(e)
                },
            }
        } else {
            Ok(Step::Idle)
        }
    }

    /// Adds a decoded token to its sequence; returns the request when it is finished.
    pub fn on_decode_token(&mut self, seq: SeqId, token: u32) -> (r: Option<ReqState>)
        requires
            old(self)@.wf(),
            old(self)@.stats.total_finished < u64::MAX,
        ensures
            final(self)@.wf(),
            token_post(
                old(self)@,
                seq,
                token,
                final(self)@,
                match r {
                    Some(q) => Some(q@),
                    None => None,
                },
            ),
    {
        let ghost pre = self@;
        let n: usize = self.running.len();
        let mut i: usize = 0;
        while i < n && self.running[i].state.seq != seq
            invariant
                self@ == pre,
                n == pre.running.len(),
                n == self.running@.len(),
                i <= n,
                pre.position(seq, 0) == pre.position(seq, i as int),
                forall|k: int| 0 <= k < n ==> pre.running[k] == (#[trigger] self.running@[k])@,
            decreases n - i,
        {
            i = i + 1;
        }
        if i == n {
            return None;
        }
        let ghost run = pre.running[i as int];
        self.running[i].state.generated.push(token);
        proof {
            assert(self@.running =~= pre.running.update(
                i as int,
                RunView {
                    state: ReqView { generated: run.state.generated.push(token), ..run.state },
                    ..run
                },
            ));
        }
        if self.running[i].state.generated.len() >= self.running[i].state.max_new_tokens {
            let done = self.running.remove(i);
            let RunningReq { state, prefilled: _, admitted_at: _, entry } = done;
            let mut state = state;
            self.kv.free(entry);
            state.kv_handle = None;
            self.stats.total_finished = self.stats.total_finished + 1;
            proof {
                assert(self@.running =~= pre.running.remove(i as int));
                assert(self@.queue == pre.queue);
                lemma_token_wf(pre, seq, token, self@, Some(state@));
            }
            Some(state)
        } else {
            proof {
                lemma_token_wf(pre, seq, token, self@, None);
            }
            None
        }
    }

    /// Swaps the sequence that was admitted last out, to the front of the queue.
    pub fn preempt_youngest(&mut self) -> (r: Option<Step>)
        requires
            old(self)@.wf(),
            old(self)@.stats.total_preempted < u64::MAX,
        ensures
            final(self)@.wf(),
            preempt_post(
                old(self)@,
                final(self)@,
                match r {
                    Some(s) => Some(s@),
                    None => None,
                },
            ),
    {
        let ghost pre = self@;
        let n: usize = self.running.len();
        if n == 0 {
            return None;
        }
        let mut youngest: usize = 0;
        for i in 1..n
            invariant
                self@ == pre,
                pre.wf(),
                n == self.running@.len(),
                n == pre.running.len(),
                youngest == i - 1,
                forall|k: int| 0 <= k < n ==> pre.running[k] == (#[trigger] self.running@[k])@,
        {
            if self.running[i].admitted_at >= self.running[youngest].admitted_at {
                youngest = i;
            }
        }
        let r = self.running.remove(youngest);
        let RunningReq { state, prefilled: _, admitted_at: _, entry } = r;
        self.kv.free(entry);
        let mut back = state;
        let seq = back.seq;
        back.kv_handle = None;
        self.stats.total_preempted = self.stats.total_preempted + 1;
        self.queue.push_front(back);
        proof {
            assert(self@.running =~= pre.running.drop_last());
            assert(self@.queue =~= seq![back@] + pre.queue);
            lemma_preempt_wf(pre, self@, Some(StepView::Preempt { seq }));
        }
        Some(Step::Preempt { seq })
    }
}

/// A submitted request keeps a scheduler in order.
pub proof fn lemma_submit_wf<K>(pre: SchedView<K>, req: ReqView, post: SchedView<K>, id: SeqId)
    requires
        pre.wf(),
        submit_post(pre, req, post, id),
    ensures
        post.wf(),
{
    assert(post.ids() =~= pre.ids().push(id.0));
    assert(post.running == pre.running);
}

/// A sequence that runs is either all prefilled or not, so that one of the two searches
/// finds it; and what they find is at position 0.
pub proof fn lemma_first_run<K>(v: SchedView<K>)
    requires
        v.wf(),
    ensures
        v.running.len() == 0 ==> v.first_run(true, 0) is None && v.first_run(false, 0) is None,
        v.running.len() == 1 ==> v.first_run(true, 0) == Some(0int) || (v.first_run(true, 0) is None
            && v.first_run(false, 0) == Some(0int)),
{
    reveal_with_fuel(SchedView::first_run, 2);
}

/// A step keeps a scheduler in order.
pub proof fn lemma_next_step_wf<K: KvPool>(
    pre: SchedView<K>,
    post: SchedView<K>,
    r: Result<StepView, ErrorView>,
)
    requires
        pre.wf(),
        pre.stats.total_admitted < u64::MAX,
        next_step_post(pre, post, r),
    ensures
        post.wf(),
{
    lemma_first_run(pre);
    if pre.first_run(true, 0) is Some {
        assert(post.running == pre.running);
        assert(post.ids() =~= pre.ids());
    } else if pre.first_run(false, 0) is Some {
        assert(post.ids() =~= pre.ids());
    } else if pre.queue.len() > 0 && pre.running.len() < pre.cfg.max_running {
        let alloc_r = choose|a: Result<EntryView, ErrorView>| #[trigger]
            K::allocate_post(
                pre.kv,
                pre.queue[0].seq,
                pre.queue[0].prompt_tokens.len(),
                post.kv,
                a,
            ) && (match a {
                Ok(_) => r is Ok,
                Err(_) => r is Err,
            });
        assert(r is Ok ==> post.ids() =~= pre.ids());
        assert(r is Err ==> post.ids() =~= pre.ids().skip(1));
    }
}

/// A token keeps a scheduler in order.
pub proof fn lemma_token_wf<K: KvPool>(
    pre: SchedView<K>,
    seq: SeqId,
    token: u32,
    post: SchedView<K>,
    r: Option<ReqView>,
)
    requires
        pre.wf(),
        token_post(pre, seq, token, post, r),
    ensures
        post.wf(),
{
    reveal_with_fuel(SchedView::position, 2);
    if r is Some {
        assert(post.ids() =~= pre.ids().skip(1));
    } else {
        assert(post.ids() =~= pre.ids());
    }
}

/// Swapping a sequence out keeps a scheduler in order.
pub proof fn lemma_preempt_wf<K: KvPool>(pre: SchedView<K>, post: SchedView<K>, r: Option<StepView>)
    requires
        pre.wf(),
        preempt_post(pre, post, r),
    ensures
        post.wf(),
{
    assert(post.ids() =~= pre.ids());
}

} // verus!
