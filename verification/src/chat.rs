//! Chat requests: what is asked of the engine, what it answers, and what is made of the
//! answer.

use vstd::prelude::*;

use crate::request::{ChatRequest, Message};
use crate::seq::SeqId;
use crate::text;

verus! {

/// How many tokens an answer may have when a request does not say it.
pub const DEFAULT_MAX_TOKENS: usize = 64;

/// What is asked of the engine.
#[derive(Debug)]
pub struct ChatJob {
    pub prompt_words: Vec<String>,
    pub max_tokens: usize,
}

/// What the engine answers.
#[derive(Debug)]
pub enum EngineEvent {
    Token { seq: SeqId, text: String },
    Done { seq: SeqId },
}

/// What the engine answers, as a mathematical value.
pub enum EventView {
    Token { seq: SeqId, text: Seq<char> },
    Done { seq: SeqId },
}

impl View for EngineEvent {
    type V = EventView;

    open spec fn view(&self) -> EventView {
        match self {
            EngineEvent::Token { seq, text } => EventView::Token { seq: *seq, text: text@ },
            EngineEvent::Done { seq } => EventView::Done { seq: *seq },
        }
    }
}

/// Events as mathematical values.
pub open spec fn event_views(v: Seq<EngineEvent>) -> Seq<EventView> {
    v.map_values(|e: EngineEvent| e@)
}

/// What the messages of a request say.
pub open spec fn contents(messages: Seq<Message>) -> Seq<Seq<char>> {
    messages.map_values(|m: Message| m.content@)
}

/// The words of a request: those of all its messages.
pub open spec fn request_words(messages: Seq<Message>) -> Seq<Seq<char>> {
    text::words(text::join(contents(messages), " "@))
}

/// What a request asks of the engine; the status 400 for a request without words.
pub fn job_for(req: &ChatRequest) -> (r: Result<ChatJob, u16>)
    ensures
        match r {
            Ok(job) => {
                &&& request_words(req.messages@).len() > 0
                &&& text::views(job.prompt_words@) == request_words(req.messages@)
                &&& job.max_tokens == req.token_limit(DEFAULT_MAX_TOKENS)
                &&& req.sampling.max_tokens is Some ==> job.max_tokens
                    == req.sampling.max_tokens->0
                &&& req.sampling.max_tokens is None && req.max_tokens is Some ==> job.max_tokens
                    == req.max_tokens->0
                &&& req.sampling.max_tokens is None && req.max_tokens is None ==> job.max_tokens
                    == 64
            },
            Err(status) => request_words(req.messages@).len() == 0 && status == 400,
        },
{
    let mut parts: Vec<String> = Vec::new();
    for i in 0..req.messages.len()
        invariant
            parts@.len() == i,
            forall|j: int| 0 <= j < i ==> (#[trigger] parts@[j])@ == req.messages@[j].content@,
    {
        parts.push(req.messages[i].content.clone());
    }
    proof {
        assert(text::views(parts@) =~= contents(req.messages@));
    }
    let all = text::joined(parts.as_slice());
    let words = text::split_whitespace(all.as_str());
    proof {
        assert(text::views(words@).len() == words@.len());
    }
    if words.len() == 0 {
        return Err(400);
    }
    Ok(ChatJob { prompt_words: words, max_tokens: req.effective_max_tokens(DEFAULT_MAX_TOKENS) })
}

/// What the engine says to a prompt: its words, and after the last of them `[done]`, until
/// there are as many tokens as were asked for.
pub open spec fn answer(prompt: Seq<Seq<char>>, max_tokens: nat) -> Seq<Seq<char>> {
    Seq::new(
        max_tokens,
        |i: int|
            if i < prompt.len() {
                prompt[i]
            } else {
                "[done]"@
            },
    )
}

/// What the engine says to a prompt.
pub fn answer_words(job: &ChatJob) -> (v: Vec<String>)
    ensures
        text::views(v@) == answer(text::views(job.prompt_words@), job.max_tokens as nat),
        v@.len() == job.max_tokens,
        forall|i: int|
            0 <= i < v@.len() ==> (#[trigger] v@[i])@ == (if i < job.prompt_words@.len() {
                job.prompt_words@[i]@
            } else {
                "[done]"@
            }),
{
    let mut v: Vec<String> = Vec::new();
    let n: usize = job.prompt_words.len();
    let ghost prompt = text::views(job.prompt_words@);
    for i in 0..job.max_tokens
        invariant
            n == job.prompt_words@.len(),
            prompt == text::views(job.prompt_words@),
            v@.len() == i,
            forall|j: int|
                0 <= j < i ==> (#[trigger] v@[j])@ == (if j < prompt.len() {
                    prompt[j]
                } else {
                    "[done]"@
                }),
    {
        if i < n {
            v.push(job.prompt_words[i].clone());
        } else {
            v.push("[done]".to_owned());
        }
    }
    proof {
        assert(text::views(v@) =~= answer(prompt, job.max_tokens as nat));
    }
    v
}

/// The events of an answer: its tokens, then the end.
pub open spec fn answer_events(seq: SeqId, words: Seq<Seq<char>>) -> Seq<EventView> {
    words.map_values(|w: Seq<char>| EventView::Token { seq, text: w }).push(EventView::Done { seq })
}

/// The engine: it answers one job after the other.
pub struct Engine {
    next_seq: u64,
}

impl View for Engine {
    type V = nat;

    /// The number of the next sequence.
    closed spec fn view(&self) -> nat {
        self.next_seq as nat
    }
}

impl Engine {
    /// An engine that has not answered yet; its first sequence has number 1.
    pub fn new() -> (e: Self)
        ensures
            e@ == 1,
    {
        Engine { next_seq: 1 }
    }

    /// The events of the answer to a job, in the order in which they are sent.
    pub fn respond(&mut self, job: &ChatJob) -> (v: Vec<EngineEvent>)
        requires
            old(self)@ < u64::MAX,
        ensures
            final(self)@ == old(self)@ + 1,
            event_views(v@) == answer_events(
                SeqId(old(self)@ as u64),
                answer(text::views(job.prompt_words@), job.max_tokens as nat),
            ),
            v@.len() == job.max_tokens + 1,
            v@.last()@ == (EventView::Done { seq: SeqId(old(self)@ as u64) }),
            forall|i: int|
                0 <= i < job.max_tokens ==> (#[trigger] v@[i])@ == (EventView::Token {
                    seq: SeqId(old(self)@ as u64),
                    text: if i < job.prompt_words@.len() {
                        job.prompt_words@[i]@
                    } else {
                        "[done]"@
                    },
                }),
    {
        let seq = SeqId(self.next_seq);
        self.next_seq = self.next_seq + 1;
        let words = answer_words(job);
        let ghost said = text::views(words@);
        let mut v: Vec<EngineEvent> = Vec::new();
        proof {
            assert(event_views(v@) =~= said.take(0).map_values(
                |w: Seq<char>| EventView::Token { seq, text: w },
            ));
        }
        for w in it: words
            invariant
                text::views(it.seq()) == said,
                v@.len() == it.index(),
                forall|j: int|
                    0 <= j < v@.len() ==> (#[trigger] v@[j])@ == (EventView::Token {
                        seq,
                        text: said[j],
                    }),
        {
            proof {
                assert(said[it.index()] == w@);
            }
            v.push(EngineEvent::Token { seq, text: w });
        }
        v.push(EngineEvent::Done { seq });
        proof {
            assert(event_views(v@) =~= answer_events(seq, said));
        }
        v
    }
}

/// The tokens that come before the end of an answer.
pub open spec fn tokens_of(events: Seq<EventView>) -> Seq<Seq<char>>
    decreases events.len(),
{
    if events.len() == 0 {
        Seq::empty()
    } else {
        match events[0] {
            EventView::Token { text, .. } => seq![text] + tokens_of(events.skip(1)),
            EventView::Done { .. } => Seq::empty(),
        }
    }
}

/// An answer as it is collected.
pub struct Reply {
    parts: Vec<String>,
    done: bool,
}

impl Reply {
    /// The tokens that have come.
    pub closed spec fn parts(&self) -> Seq<Seq<char>> {
        text::views(self.parts@)
    }

    /// Whether the end has come.
    pub closed spec fn ended(&self) -> bool {
        self.done
    }

    /// An answer of which nothing has come.
    pub fn new() -> (r: Self)
        ensures
            r.parts() == Seq::<Seq<char>>::empty(),
            !r.ended(),
    {
        let r = Reply { parts: Vec::new(), done: false };
        proof {
            assert(r.parts() =~= Seq::empty());
        }
        r
    }

    /// Takes the next event in; whether the answer is then complete.
    pub fn take(&mut self, event: EngineEvent) -> (done: bool)
        requires
            !old(self).ended(),
        ensures
            done == final(self).ended(),
            match event@ {
                EventView::Token { text, .. } => final(self).parts() == old(self).parts().push(
                    text,
                ) && !done,
                EventView::Done { .. } => final(self).parts() == old(self).parts() && done,
            },
    {
        match event {
            EngineEvent::Token { text, .. } => {
                proof {
                    assert(text::views(self.parts@.push(text)) =~= text::views(self.parts@).push(
                        text@,
                    ));
                }
                self.parts.push(text);
            },
            EngineEvent::Done { .. } => {
                self.done = true;
            },
        }
        self.done
    }

    /// Collects the events of an answer up to its end.
    pub fn collect(events: Vec<EngineEvent>) -> (r: Self)
        ensures
            r.parts() == tokens_of(event_views(events@)),
    {
        let mut r = Reply::new();
        let ghost all = event_views(events@);
        proof {
            assert(all.skip(0) =~= all);
            assert(r.parts() + tokens_of(all) =~= tokens_of(all));
        }
        for event in it: events
            invariant
                event_views(it.seq()) == all,
                tokens_of(all) == r.parts() + (if r.ended() {
                    Seq::empty()
                } else {
                    tokens_of(all.skip(it.index()))
                }),
        {
            if !r.done {
                proof {
                    let i = it.index();
                    assert(all.skip(i)[0] == event@);
                    assert(all.skip(i).skip(1) =~= all.skip(i + 1));
                    if event@ is Token {
                        let t = event@->text;
                        assert(r.parts() + (seq![t] + tokens_of(all.skip(i + 1))) =~= r.parts().push(
                            t,
                        ) + tokens_of(all.skip(i + 1)));
                    }
                }
                r.take(event);
            }
        }
        proof {
            assert(all.skip(all.len() as int) =~= Seq::empty());
            assert(tokens_of(all) =~= r.parts());
        }
        r
    }

    /// The answer as text: its tokens with a space between them.
    pub fn content(&self) -> (s: String)
        ensures
            s@ == text::join(self.parts(), " "@),
    {
        text::joined(self.parts.as_slice())
    }

    /// How many tokens have come.
    pub fn completion_tokens(&self) -> (n: usize)
        ensures
            n == self.parts().len(),
    {
        self.parts.len()
    }
}

/// What is sent to a client that reads the answer as a stream.
pub open spec fn stream_text(e: EventView) -> Seq<char> {
    match e {
        EventView::Token { text, .. } => text,
        EventView::Done { .. } => "[DONE]"@,
    }
}

/// What is sent to a client that reads the answer as a stream: the text of a token, or
/// `[DONE]` at the end.
pub fn stream_data(event: EngineEvent) -> (s: String)
    ensures
        s@ == stream_text(event@),
        event matches EngineEvent::Token { text, .. } ==> s@ == text@,
        event is Done ==> s@ == "[DONE]"@,
{
    match event {
        EngineEvent::Token { text, .. } => text,
        EngineEvent::Done { .. } => "[DONE]".to_owned(),
    }
}

/// The answer to a request has as many tokens as were asked for: the words of the
/// request first, then `[done]`; and collecting its events gives just these.
pub proof fn law_answer_collected(seq: SeqId, prompt: Seq<Seq<char>>, max_tokens: nat)
    ensures
        answer(prompt, max_tokens).len() == max_tokens,
        forall|i: int|
            0 <= i < max_tokens && i < prompt.len() ==> #[trigger] answer(prompt, max_tokens)[i]
                == prompt[i],
        forall|i: int|
            prompt.len() <= i < max_tokens ==> #[trigger] answer(prompt, max_tokens)[i]
                == "[done]"@,
        tokens_of(answer_events(seq, answer(prompt, max_tokens))) == answer(prompt, max_tokens),
{
    lemma_tokens(seq, answer(prompt, max_tokens));
}

proof fn lemma_tokens(seq: SeqId, words: Seq<Seq<char>>)
    ensures
        tokens_of(answer_events(seq, words)) == words,
    decreases words.len(),
{
    let events = answer_events(seq, words);
    if words.len() == 0 {
        assert(tokens_of(events) =~= words);
    } else {
        lemma_tokens(seq, words.skip(1));
        assert(events.skip(1) =~= answer_events(seq, words.skip(1)));
        assert(events[0] == (EventView::Token { seq, text: words[0] }));
        assert(seq![words[0]] + words.skip(1) =~= words);
    }
}

/// A request without messages has no words, and one more message adds its words behind
/// those of the messages in front of it.
pub proof fn law_request_words(messages: Seq<Message>, m: Message)
    ensures
        request_words(seq![]) == Seq::<Seq<char>>::empty(),
        request_words(messages.push(m)) == request_words(messages) + text::words(m.content@),
{
    reveal_strlit(" ");
    let before = contents(messages);
    let a = text::join(before, " "@);
    let b = m.content@;
    text::law_words(a, ' ', b);
    assert(contents(seq![]) =~= Seq::empty());
    assert(contents(messages.push(m)) =~= before + seq![b]);
    text::law_join(before, seq![b], b, " "@);
    if messages.len() == 0 {
        assert(before + seq![b] =~= seq![b]);
        assert(a =~= Seq::empty());
        assert(request_words(messages) + text::words(b) =~= text::words(b));
    } else {
        assert(a + " "@ + b =~= a.push(' ') + b);
    }
}

/// What is collected of an answer are the texts of the tokens up to its end, or of all
/// where the end has not come.
pub proof fn law_tokens_until_done(events: Seq<EventView>, k: int)
    requires
        0 <= k <= events.len(),
        forall|i: int| 0 <= i < k ==> #[trigger] events[i] is Token,
        k < events.len() ==> events[k] is Done,
    ensures
        tokens_of(events) == events.take(k).map_values(|e: EventView| e->text),
    decreases k,
{
    let texts = events.take(k).map_values(|e: EventView| e->text);
    if k > 0 {
        let rest = events.skip(1);
        assert forall|i: int| 0 <= i < k - 1 implies #[trigger] rest[i] is Token by {
            assert(rest[i] == events[i + 1]);
        }
        law_tokens_until_done(rest, k - 1);
        assert(events[0] is Token);
        assert(texts =~= seq![events[0]->text] + rest.take(k - 1).map_values(
            |e: EventView| e->text,
        ));
    } else {
        assert(texts =~= Seq::empty());
    }
}

} // verus!
