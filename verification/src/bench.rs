//! Measuring a service: what is sent, and what is made of the answers.

use vstd::prelude::*;
use vstd::string::StringExecFns;

use crate::json;
use crate::json::Json;
use crate::loader;
use crate::text;
use crate::text::Class;

verus! {

/// The numbers in a list of numbers with commas: what is not a number, or is zero, is
/// left out.
pub open spec fn listed(pieces: Seq<Seq<char>>) -> Seq<usize>
    decreases pieces.len(),
{
    if pieces.len() == 0 {
        Seq::empty()
    } else {
        let before = listed(pieces.drop_last());
        match text::number(text::trim(pieces.last()), usize::MAX as nat) {
            Some(n) => if n > 0 {
                before.push(n as usize)
            } else {
                before
            },
            None => before,
        }
    }
}

/// The numbers in a list of numbers with commas.
pub fn parse_list(s: &str) -> (v: Vec<usize>)
    ensures
        v@ == listed(text::split(s@, Class::One(','))),
{
    let cs = text::chars_of(s);
    let pieces = text::split_at_class(cs.as_slice(), Class::One(','));
    let ghost all = text::views(pieces@);
    let mut v: Vec<usize> = Vec::new();
    for i in 0..pieces.len()
        invariant
            all == text::views(pieces@),
            v@ == listed(all.take(i as int)),
    {
        proof {
            assert(all.take(i + 1).drop_last() =~= all.take(i as int));
            assert(all[i as int] == pieces@[i as int]@);
        }
        let p = text::chars_of(pieces[i].as_str());
        match text::parse_number(text::trimmed(p.as_slice()), usize::MAX as u64) {
            Some(n) => {
                if n > 0 {
                    v.push(n as usize);
                }
            },
            None => {},
        }
    }
    proof {
        assert(all.take(all.len() as int) =~= all);
    }
    v
}

/// One answer: how long it took, in nanoseconds, and how many tokens it had; `None` where
/// there was none.
pub type Sample = Option<(u64, u64)>;

/// What one request amounts to, from the status of its answer, its time, and the tokens
/// that the answer reports where it could be read: a status other than of success counts
/// as no answer.
pub fn sample_of(status: u16, ns: u64, tokens: Result<u64, String>) -> (s: Sample)
    ensures
        s == (match tokens {
            Ok(t) => if 200 <= status < 300 {
                Some((ns, t))
            } else {
                None
            },
            Err(_) => None,
        }),
{
    match tokens {
        Ok(t) => {
            if 200 <= status && status < 300 {
                Some((ns, t))
            } else {
                None
            }
        },
        Err(_) => None,
    }
}

/// The times of the answers that came.
pub open spec fn times(samples: Seq<Sample>) -> Seq<u64>
    decreases samples.len(),
{
    if samples.len() == 0 {
        Seq::empty()
    } else {
        match samples.last() {
            Some((ns, _)) => times(samples.drop_last()).push(ns),
            None => times(samples.drop_last()),
        }
    }
}

/// The tokens of the answers that came.
pub open spec fn token_sum(samples: Seq<Sample>) -> nat
    decreases samples.len(),
{
    if samples.len() == 0 {
        0
    } else {
        match samples.last() {
            Some((_, t)) => token_sum(samples.drop_last()) + t as nat,
            None => token_sum(samples.drop_last()),
        }
    }
}

/// Whether times are in ascending order.
pub open spec fn ascending(t: Seq<u64>) -> bool {
    forall|i: int, j: int| 0 <= i <= j < t.len() ==> #[trigger] t[i] <= #[trigger] t[j]
}

/// The place of a percentile among `n` times in ascending order: the nearest one, and of
/// two that are equally near the later.
pub open spec fn percentile_place(n: nat, percent: nat) -> int {
    ((n - 1) * percent * 2 + 100) / 200
}

/// `v` is a percentile of the times: what stands at its place when they are put in
/// ascending order. It is 0 without times.
pub open spec fn is_percentile(t: Seq<u64>, percent: nat, v: u64) -> bool {
    if t.len() == 0 {
        v == 0
    } else {
        exists|s: Seq<u64>| #[trigger]
            ascending(s) && s.to_multiset() == t.to_multiset() && v == s[percentile_place(
                t.len(),
                percent,
            )]
    }
}

/// What was measured at one number of requests at a time.
#[derive(Debug, Clone, Copy)]
pub struct Level {
    /// The 50th percentile of the times, in nanoseconds.
    pub p50_ns: u64,
    /// The 99th percentile of the times, in nanoseconds.
    pub p99_ns: u64,
    pub ok: u32,
    pub fail: u32,
    /// The tokens of all answers.
    pub tokens: u64,
}

fn sort_times(t: Vec<u64>) -> (r: Vec<u64>)
    ensures
        ascending(r@),
        r@.to_multiset() == t@.to_multiset(),
        r@.len() == t@.len(),
{
    let mut r: Vec<u64> = Vec::new();
    proof {
        assert(t@.take(0) =~= r@);
    }
    for i in 0..t.len()
        invariant
            ascending(r@),
            r@.len() == i,
            r@.to_multiset() == t@.take(i as int).to_multiset(),
    {
        let x: u64 = t[i];
        let ghost before = r@;
        let mut at: usize = r.len();
        while at > 0 && r[at - 1] > x
            invariant
                r@ == before,
                at <= before.len(),
                forall|j: int| at <= j < before.len() ==> before[j] > x,
            decreases at,
        {
            at = at - 1;
        }
        r.insert(at, x);
        proof {
            broadcast use vstd::seq_lib::group_to_multiset_ensures;

            let now = r@;
            assert(now =~= before.take(at as int).push(x) + before.skip(at as int));
            vstd::seq_lib::lemma_multiset_commutative(
                before.take(at as int).push(x),
                before.skip(at as int),
            );
            vstd::seq_lib::lemma_multiset_commutative(
                before.take(at as int),
                before.skip(at as int),
            );
            assert(before.take(at as int) + before.skip(at as int) =~= before);
            assert(now.to_multiset() =~= before.to_multiset().insert(x));
            assert(t@.take(i + 1) =~= t@.take(i as int).push(x));
            assert forall|a: int, b: int| 0 <= a <= b < now.len() implies #[trigger] now[a]
                <= #[trigger] now[b] by {
                let pa = if a < at {
                    a
                } else {
                    a - 1
                };
                let pb = if b < at {
                    b
                } else {
                    b - 1
                };
                if a == at && b == at {
                } else if a == at {
                    assert(now[b] == before[pb]);
                } else if b == at {
                    assert(now[a] == before[pa]);
                    assert(before[pa] <= before[at - 1]);
                } else {
                    assert(now[a] == before[pa] && now[b] == before[pb]);
                }
            }
        }
    }
    proof {
        assert(t@.take(t@.len() as int) =~= t@);
    }
    r
}

fn percentile(sorted: &[u64], percent: usize) -> (v: u64)
    requires
        percent <= 100,
        ascending(sorted@),
    ensures
        is_percentile(sorted@, percent as nat, v),
{
    let n: usize = sorted.len();
    if n == 0 {
        return 0;
    }
    proof {
        let a = n - 1;
        assert(0 <= a * percent <= a * 100) by (nonlinear_arith)
            requires
                0 <= a,
                0 <= percent <= 100,
        ;
    }
    let place: u128 = ((n - 1) as u128 * percent as u128 * 2 + 100) / 200;
    proof {
        law_percentile_in_range(n as nat, percent as nat);
        assert(place == percentile_place(n as nat, percent as nat));
    }
    let v: u64 = sorted[place as usize];
    proof {
        assert(ascending(sorted@));
    }
    v
}

/// What the answers to a number of requests at a time amount to.
pub fn summarize(samples: &[Sample]) -> (l: Level)
    requires
        token_sum(samples@) <= u64::MAX,
        samples@.len() - times(samples@).len() <= u32::MAX,
    ensures
        l.ok == times(samples@).len() as u32,
        l.fail == samples@.len() - times(samples@).len(),
        l.tokens == token_sum(samples@),
        is_percentile(times(samples@), 50, l.p50_ns),
        is_percentile(times(samples@), 99, l.p99_ns),
{
    let mut lats: Vec<u64> = Vec::new();
    let mut tokens: u64 = 0;
    let mut fail: u32 = 0;
    for i in 0..samples.len()
        invariant
            token_sum(samples@) <= u64::MAX,
            samples@.len() - times(samples@).len() <= u32::MAX,
            lats@ == times(samples@.take(i as int)),
            tokens == token_sum(samples@.take(i as int)),
            fail == i - lats@.len(),
            lats@.len() <= i,
    {
        proof {
            assert(samples@.take(i + 1).drop_last() =~= samples@.take(i as int));
            lemma_token_sum(samples@, i + 1);
            lemma_failures(samples@, i + 1);
        }
        match samples[i] {
            Some((ns, t)) => {
                lats.push(ns);
                tokens = tokens + t;
            },
            None => {
                fail = fail + 1;
            },
        }
    }
    proof {
        assert(samples@.take(samples@.len() as int) =~= samples@);
    }
    let ok: u32 = #[verifier::truncate] (lats.len() as u32);
    let sorted = sort_times(lats);
    let p50_ns = percentile(sorted.as_slice(), 50);
    let p99_ns = percentile(sorted.as_slice(), 99);
    Level { p50_ns, p99_ns, ok, fail, tokens }
}

proof fn lemma_token_sum(samples: Seq<Sample>, k: int)
    requires
        0 <= k <= samples.len(),
    ensures
        token_sum(samples.take(k)) <= token_sum(samples),
    decreases samples.len(),
{
    if k == samples.len() {
        assert(samples.take(k) =~= samples);
    } else {
        lemma_token_sum(samples.drop_last(), k);
        assert(samples.drop_last().take(k) =~= samples.take(k));
    }
}

proof fn lemma_failures(samples: Seq<Sample>, k: int)
    requires
        0 <= k <= samples.len(),
    ensures
        k - times(samples.take(k)).len() <= samples.len() - times(samples).len(),
    decreases samples.len(),
{
    if k == samples.len() {
        assert(samples.take(k) =~= samples);
    } else {
        lemma_failures(samples.drop_last(), k);
        assert(samples.drop_last().take(k) =~= samples.take(k));
    }
}

/// The place of a percentile is one of the places there are.
pub proof fn law_percentile_in_range(n: nat, percent: nat)
    requires
        n > 0,
        percent <= 100,
    ensures
        0 <= percentile_place(n, percent) < n,
        percentile_place(n, 0) == 0,
        percentile_place(n, 100) == n - 1,
{
    let a = n - 1;
    assert(0 <= a * percent <= a * 100) by (nonlinear_arith)
        requires
            0 <= a,
            0 <= percent <= 100,
    ;
}

/// The number of tokens that an answer reports, 0 where it reports none.
pub open spec fn reported_tokens(j: Json) -> u64 {
    match j.member("usage"@) {
        Some(u) => match u.member("completion_tokens"@) {
            Some(n) => match n.integer() {
                Some(n) => n,
                None => 0,
            },
            None => 0,
        },
        None => 0,
    }
}

/// The number of tokens that an answer reports, from its bytes; the error of the parser
/// where they are not JSON.
pub fn completion_tokens(body: &[u8]) -> (r: Result<u64, String>)
    ensures
        match json::parsed(body@) {
            Ok(j) => r == Ok::<u64, String>(reported_tokens(j)),
            Err(e) => r is Err && r->Err_0@ == e,
        },
{
    match json::parse(body) {
        Ok(v) => Ok(tokens_in(&v)),
        Err(e) => Err(e),
    }
}

/// The number of tokens that a parsed answer reports.
pub fn tokens_in(v: &serde_json::Value) -> (n: u64)
    ensures
        n == reported_tokens(json::tree(*v)),
{
    match json::member(v, "usage") {
        Some(u) => match json::member(u, "completion_tokens") {
            Some(n) => match json::integer(n) {
                Some(n) => n,
                None => 0,
            },
            None => 0,
        },
        None => 0,
    }
}

/// The text that a piece of a streamed answer adds.
pub open spec fn added_text(j: Json) -> Option<Seq<char>> {
    match j.member("choices"@) {
        Some(c) => match c.element(0) {
            Some(f) => match f.member("delta"@) {
                Some(d) => match d.member("content"@) {
                    Some(t) => t.text(),
                    None => None,
                },
                None => None,
            },
            None => None,
        },
        None => None,
    }
}

/// The text that a parsed piece of a streamed answer adds.
pub fn delta_in(v: &serde_json::Value) -> (r: Option<String>)
    ensures
        added_text(json::tree(*v)) == (match r {
            Some(s) => Some(s@),
            None => None,
        }),
{
    match json::member(v, "choices") {
        Some(c) => match json::element(c, 0) {
            Some(f) => match json::member(f, "delta") {
                Some(d) => match json::member(d, "content") {
                    Some(t) => json::text_of(t),
                    None => None,
                },
                None => None,
            },
            None => None,
        },
        None => None,
    }
}

/// What a line of a stream carries: what follows `data:`, without white space around it;
/// nothing for other lines, for empty ones and for `[DONE]`.
pub open spec fn payload(line: Seq<char>) -> Option<Seq<char>> {
    let l = text::trim(line);
    if "data:"@.is_prefix_of(l) {
        let rest = text::trim(l.skip(5));
        if rest == "[DONE]"@ || rest.len() == 0 {
            None
        } else {
            Some(rest)
        }
    } else {
        None
    }
}

/// What a line of a stream carries.
pub fn line_payload(line: &[char]) -> (r: Option<String>)
    ensures
        payload(line@) == (match r {
            Some(s) => Some(s@),
            None => None,
        }),
{
    proof {
        reveal_strlit("data:");
    }
    let l = text::trimmed(line);
    match text::after_prefix(l, "data:") {
        None => None,
        Some(rest) => {
            let rest = text::trimmed(rest);
            if text::same(rest, "[DONE]") || rest.len() == 0 {
                None
            } else {
                Some(text::string_of(rest))
            }
        },
    }
}

/// The text that a line of a stream adds, if it adds any.
pub open spec fn line_text(line: Seq<char>) -> Option<Seq<char>> {
    match payload(line) {
        Some(p) => match json::parsed(vstd::utf8::encode_utf8(p)) {
            Ok(j) => added_text(j),
            Err(_) => None,
        },
        None => None,
    }
}

/// The texts that the lines of a stream add.
pub open spec fn lines_text(lines: Seq<Seq<char>>) -> Seq<Seq<char>>
    decreases lines.len(),
{
    if lines.len() == 0 {
        Seq::empty()
    } else {
        match line_text(lines.last()) {
            Some(t) => lines_text(lines.drop_last()).push(t),
            None => lines_text(lines.drop_last()),
        }
    }
}

/// The texts that a part of a stream adds, in order.
pub fn stream_texts(chunk: &str) -> (v: Vec<String>)
    ensures
        text::views(v@) == lines_text(text::lines(chunk@)),
{
    let lines = text::text_lines(chunk);
    let ghost all = lines@.map_values(|l: Vec<char>| l@);
    let mut v: Vec<String> = Vec::new();
    proof {
        assert(text::views(v@) =~= Seq::empty());
    }
    for i in 0..lines.len()
        invariant
            all == lines@.map_values(|l: Vec<char>| l@),
            text::views(v@) == lines_text(all.take(i as int)),
    {
        proof {
            assert(all.take(i + 1).drop_last() =~= all.take(i as int));
            assert(all[i as int] == lines@[i as int]@);
        }
        match line_payload(lines[i].as_slice()) {
            None => {},
            Some(p) => {
                match json::parse(p.as_str().as_bytes()) {
                    Err(_) => {},
                    Ok(j) => match delta_in(&j) {
                        None => {},
                        Some(t) => {
                            proof {
                                assert(text::views(v@.push(t)) =~= text::views(v@).push(t@));
                            }
                            v.push(t);
                        },
                    },
                }
            },
        }
    }
    proof {
        assert(all.take(all.len() as int) =~= all);
    }
    v
}

/// The texts that the bytes of a part of a stream add, in order.
pub fn chunk_texts(chunk: &[u8]) -> (v: Vec<String>)
    ensures
        text::views(v@) == lines_text(text::lines(text::lossy_text(chunk@))),
{
    let s = text::lossy(chunk);
    stream_texts(s.as_str())
}

/// The session of request `i` of `n` at a time.
pub fn level_session(n: usize, i: usize) -> (s: String)
    ensures
        s@ == "conc-"@ + text::dec(n as nat) + "-"@ + text::dec(i as nat),
{
    let mut s = "conc-".to_owned();
    text::push_dec(&mut s, n as u64);
    s.append("-");
    text::push_dec(&mut s, i as u64);
    s
}

/// The session of a turn: the same for all turns, or one for each.
pub open spec fn turn_session_of(sticky: bool, turn: nat) -> Seq<char> {
    if sticky {
        "agent-sess-v23"@
    } else {
        "agent-sess-v23-turn-"@ + text::dec(turn)
    }
}

/// The session of a turn.
pub fn turn_session(sticky: bool, turn: usize) -> (s: String)
    ensures
        s@ == turn_session_of(sticky, turn as nat),
        sticky ==> s@ == "agent-sess-v23"@,
        !sticky ==> s@ == "agent-sess-v23-turn-"@ + text::dec(turn as nat),
{
    if sticky {
        "agent-sess-v23".to_owned()
    } else {
        let mut s = "agent-sess-v23-turn-".to_owned();
        text::push_dec(&mut s, turn as u64);
        s
    }
}

/// What is said after turn `turn`, counted from 0.
pub fn next_prompt(turn: usize) -> (s: String)
    requires
        turn + 2 <= usize::MAX,
    ensures
        s@ == "Continue with point number "@ + text::dec(turn as nat + 2) + "."@,
{
    let mut s = "Continue with point number ".to_owned();
    text::push_dec(&mut s, (turn + 2) as u64);
    s.append(".");
    s
}

/// The path that `p` stands for, where a tilde at its beginning is the home directory.
pub open spec fn expanded(p: Seq<char>, home: Option<Seq<char>>) -> Seq<char> {
    match home {
        Some(h) => if "~/"@.is_prefix_of(p) {
            loader::path_join(h, p.skip(2))
        } else {
            p
        },
        None => p,
    }
}

/// The path that `p` stands for, where a tilde at its beginning is the home directory.
pub fn expand_tilde(p: &str, home: Option<&str>) -> (s: String)
    ensures
        s@ == expanded(
            p@,
            match home {
                Some(h) => Some(h@),
                None => None,
            },
        ),
{
    proof {
        reveal_strlit("~/");
    }
    if let Some(h) = home {
        let cs = text::chars_of(p);
        if let Some(rest) = text::after_prefix(cs.as_slice(), "~/") {
            let rest = text::string_of(rest);
            return loader::join_path(h, rest.as_str());
        }
    }
    p.to_owned()
}

/// What is listed are the numbers that the pieces stand for, without white space around
/// them and in their order, but for zeros and for what is no number.
pub proof fn law_listed(pieces: Seq<Seq<char>>)
    ensures
        listed(pieces) == pieces.map_values(
            |p: Seq<char>| text::number(text::trim(p), usize::MAX as nat),
        ).filter(|n: Option<nat>| n is Some && n->0 > 0).map_values(|n: Option<nat>| n->0 as usize),
    decreases pieces.len(),
{
    reveal(Seq::filter);
    let read = |p: Seq<char>| text::number(text::trim(p), usize::MAX as nat);
    let kept = |n: Option<nat>| n is Some && n->0 > 0;
    let value = |n: Option<nat>| n->0 as usize;
    let all = pieces.map_values(read);
    if pieces.len() > 0 {
        law_listed(pieces.drop_last());
        assert(all.drop_last() =~= pieces.drop_last().map_values(read));
        let before = all.drop_last().filter(kept);
        assert(before.push(all.last()).map_values(value) =~= before.map_values(value).push(
            value(all.last()),
        ));
    }
    assert(listed(pieces) =~= all.filter(kept).map_values(value));
}

/// A comma parts a list in two, whose numbers follow each other.
pub proof fn law_comma_parts(a: Seq<char>, b: Seq<char>)
    ensures
        listed(text::split(a.push(',') + b, Class::One(','))) == listed(
            text::split(a, Class::One(',')),
        ) + listed(text::split(b, Class::One(','))),
{
    text::law_split(a, ',', b, Class::One(','));
    lemma_listed_concat(text::split(a, Class::One(',')), text::split(b, Class::One(',')));
}

proof fn lemma_listed_concat(a: Seq<Seq<char>>, b: Seq<Seq<char>>)
    ensures
        listed(a + b) == listed(a) + listed(b),
    decreases b.len(),
{
    if b.len() == 0 {
        assert(a + b =~= a);
        assert(listed(a) + listed(b) =~= listed(a));
    } else {
        lemma_listed_concat(a, b.drop_last());
        assert((a + b).drop_last() =~= a + b.drop_last());
        assert(listed(a + b) =~= listed(a) + listed(b));
    }
}

/// The times are those of the answers that came, in their order.
pub proof fn law_times(samples: Seq<Sample>)
    ensures
        times(samples) == samples.filter(|s: Sample| s is Some).map_values(|s: Sample| (s->0).0),
    decreases samples.len(),
{
    reveal(Seq::filter);
    let came = |s: Sample| s is Some;
    let time = |s: Sample| (s->0).0;
    if samples.len() > 0 {
        law_times(samples.drop_last());
        let before = samples.drop_last().filter(came);
        assert(before.push(samples.last()).map_values(time) =~= before.map_values(time).push(
            time(samples.last()),
        ));
    }
    assert(times(samples) =~= samples.filter(came).map_values(time));
}

/// The tokens of an answer are counted, those of no answer are none, and those of two runs
/// of requests add up.
pub proof fn law_token_sum(a: Seq<Sample>, b: Seq<Sample>, ns: u64, tokens: u64)
    ensures
        token_sum(seq![]) == 0,
        token_sum(seq![None]) == 0,
        token_sum(seq![Some((ns, tokens))]) == tokens,
        token_sum(a + b) == token_sum(a) + token_sum(b),
    decreases b.len(),
{
    reveal_with_fuel(token_sum, 2);
    assert(seq![None::<(u64, u64)>].drop_last() =~= seq![]);
    assert(seq![Some((ns, tokens))].drop_last() =~= seq![]);
    if b.len() == 0 {
        assert(a + b =~= a);
    } else {
        law_token_sum(a, b.drop_last(), ns, tokens);
        assert((a + b).drop_last() =~= a + b.drop_last());
    }
}

/// A percentile of times is what stands, when they are put in ascending order, at the place
/// nearest to that share of the way from the first to the last, and of two that are equally
/// near at the later.
pub proof fn law_percentile(t: Seq<u64>, percent: nat, v: u64)
    requires
        t.len() > 0,
        percent <= 100,
        is_percentile(t, percent, v),
    ensures
        exists|s: Seq<u64>, place: int|
            s.to_multiset() == t.to_multiset() && s.len() == t.len() && (forall|i: int, j: int|
                0 <= i <= j < s.len() ==> s[i] <= s[j]) && 0 <= place < s.len() && -50 < 100 * place
                - (t.len() - 1) * percent <= 50 && v == #[trigger] s[place],
{
    let s = choose|s: Seq<u64>| #[trigger]
        ascending(s) && s.to_multiset() == t.to_multiset() && v == s[percentile_place(
            t.len(),
            percent,
        )];
    broadcast use vstd::seq_lib::group_to_multiset_ensures;

    assert(s.len() == s.to_multiset().len());
    law_percentile_in_range(t.len(), percent);
    let place = percentile_place(t.len(), percent);
    assert(v == s[place]);
}

/// An answer reports the number that its member `usage` has as `completion_tokens`, and
/// none where there is no such number.
pub proof fn law_reported_tokens(j: Json)
    ensures
        ({
            let reports = |n: u64|
                exists|m: Map<Seq<char>, Json>, u: Map<Seq<char>, Json>, shown: Seq<char>|
                    j == Json::Object(m) && #[trigger] m.contains_pair(
                        "usage"@,
                        Json::Object(u),
                    ) && #[trigger] u.contains_pair(
                        "completion_tokens"@,
                        Json::Number(Some(n), shown),
                    );
            &&& forall|n: u64| #[trigger] reports(n) ==> reported_tokens(j) == n
            &&& (forall|n: u64| !#[trigger] reports(n)) ==> reported_tokens(j) == 0
        }),
{
    if reported_tokens(j) != 0 {
        let m = j->Object_0;
        let u = m["usage"@]->Object_0;
        let shown = u["completion_tokens"@]->Number_1;
        assert(j == Json::Object(m) && m.contains_pair("usage"@, Json::Object(u))
            && u.contains_pair(
            "completion_tokens"@,
            Json::Number(Some(reported_tokens(j)), shown),
        ));
        let reports = |n: u64|
            exists|m: Map<Seq<char>, Json>, u: Map<Seq<char>, Json>, shown: Seq<char>|
                j == Json::Object(m) && #[trigger] m.contains_pair(
                    "usage"@,
                    Json::Object(u),
                ) && #[trigger] u.contains_pair(
                    "completion_tokens"@,
                    Json::Number(Some(n), shown),
                );
        assert(reports(reported_tokens(j)));
    }
}

/// A piece of a streamed answer adds the text that is the member `content` of the member
/// `delta` of the first of its `choices`, and nothing where there is no such text.
pub proof fn law_added_text(j: Json, t: Seq<char>)
    ensures
        added_text(j) == Some(t) <==> exists|
            m: Map<Seq<char>, Json>,
            choices: Seq<Json>,
            first: Map<Seq<char>, Json>,
            delta: Map<Seq<char>, Json>,
        |
            j == Json::Object(m) && #[trigger] m.contains_pair("choices"@, Json::List(choices))
                && choices.len() > 0 && choices[0] == Json::Object(first)
                && #[trigger] first.contains_pair("delta"@, Json::Object(delta))
                && #[trigger] delta.contains_pair("content"@, Json::Text(t)),
{
    if added_text(j) == Some(t) {
        let m = j->Object_0;
        let choices = m["choices"@]->List_0;
        let first = choices[0]->Object_0;
        let delta = first["delta"@]->Object_0;
        assert(m.contains_pair("choices"@, Json::List(choices)));
        assert(first.contains_pair("delta"@, Json::Object(delta)));
        assert(delta.contains_pair("content"@, Json::Text(t)));
    }
}

/// A line of a stream carries what follows `data:`, whatever white space stands around
/// either, unless that is nothing or `[DONE]`. A line that begins otherwise carries nothing.
pub proof fn law_payload(line: Seq<char>, a: Seq<char>, b: Seq<char>, p: Seq<char>, c: Seq<char>)
    requires
        forall|i: int| 0 <= i < a.len() ==> Class::White.has(#[trigger] a[i]),
        forall|i: int| 0 <= i < b.len() ==> Class::White.has(#[trigger] b[i]),
        forall|i: int| 0 <= i < c.len() ==> Class::White.has(#[trigger] c[i]),
        p.len() > 0,
        !Class::White.has(p[0]) && !Class::White.has(p.last()),
    ensures
        p != "[DONE]"@ ==> payload(a + ("data:"@ + b + p) + c) == Some(p),
        p == "[DONE]"@ ==> payload(a + ("data:"@ + b + p) + c) is None,
        payload(a + "data:"@ + c) is None,
        !"data:"@.is_prefix_of(text::trim(line)) ==> payload(line) is None,
{
    reveal_strlit("data:");
    let s = "data:"@ + b + p;
    assert(s[0] == 'd' && s.last() == p.last());
    text::law_trim(a, s, c);
    assert("data:"@ =~= s.subrange(0, 5));
    assert(s.skip(5) =~= b + p + Seq::<char>::empty());
    text::law_trim(b, p, Seq::empty());
    text::law_trim(a, "data:"@, c);
    let none = Seq::<char>::empty();
    assert("data:"@ =~= "data:"@.subrange(0, 5));
    assert("data:"@.skip(5) =~= none + none + none);
    text::law_trim(none, none, none);
}

/// The texts of a stream are those of the lines that add one, in their order. A line adds
/// what the document that it carries adds.
pub proof fn law_stream_texts(lines: Seq<Seq<char>>, line: Seq<char>, p: Seq<char>)
    ensures
        lines_text(lines) == lines.map_values(|l: Seq<char>| line_text(l)).filter(
            |t: Option<Seq<char>>| t is Some,
        ).map_values(|t: Option<Seq<char>>| t->0),
        payload(line) == Some(p) ==> line_text(line) == (match json::parsed(
            vstd::utf8::encode_utf8(p),
        ) {
            Ok(j) => added_text(j),
            Err(_) => None,
        }),
        payload(line) is None ==> line_text(line) is None,
    decreases lines.len(),
{
    reveal(Seq::filter);
    let read = |l: Seq<char>| line_text(l);
    let some = |t: Option<Seq<char>>| t is Some;
    let value = |t: Option<Seq<char>>| t->0;
    let all = lines.map_values(read);
    if lines.len() > 0 {
        law_stream_texts(lines.drop_last(), line, p);
        assert(all.drop_last() =~= lines.drop_last().map_values(read));
        let before = all.drop_last().filter(some);
        assert(before.push(all.last()).map_values(value) =~= before.map_values(value).push(
            value(all.last()),
        ));
    }
    assert(lines_text(lines) =~= all.filter(some).map_values(value));
}

/// A tilde and a slash at the beginning of a path stand for the home directory, where there
/// is one; any other path stands for itself.
pub proof fn law_expanded(p: Seq<char>, rest: Seq<char>, home: Seq<char>)
    ensures
        expanded("~/"@ + rest, Some(home)) == loader::path_join(home, rest),
        expanded(p, None) == p,
        p.len() < 2 || p[0] != '~' || p[1] != '/' ==> expanded(p, Some(home)) == p,
{
    reveal_strlit("~/");
    let s = "~/"@ + rest;
    assert("~/"@ =~= s.subrange(0, 2));
    assert(s.skip(2) =~= rest);
    if "~/"@.is_prefix_of(p) {
        assert(p.subrange(0, 2)[0] == p[0] && p.subrange(0, 2)[1] == p[1]);
    }
}

} // verus!
