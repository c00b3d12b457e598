//! The gateway in front of the workers: which worker gets a request, and what is passed
//! on to it and back.

use vstd::prelude::*;
use vstd::string::StringExecFns;

use crate::text;
use crate::text::Class;

verus! {

/// The largest body of a request, in bytes.
pub const BODY_LIMIT: usize = 16777216;

/// The address of a worker: what stands before `#`, which begins a description of the
/// worker, without slashes at the end.
pub open spec fn address(w: Seq<char>) -> Seq<char> {
    text::trim_end(w.take(text::lead(w, Class::One('#'), false) as int), Class::One('/'))
}

/// The workers as they were given, descriptions included, but without slashes at the end;
/// those of which nothing is left are dropped.
pub open spec fn listed(workers: Seq<Seq<char>>) -> Seq<Seq<char>>
    decreases workers.len(),
{
    if workers.len() == 0 {
        Seq::empty()
    } else {
        let before = listed(workers.drop_last());
        let w = text::trim_end(workers.last(), Class::One('/'));
        if w.len() == 0 {
            before
        } else {
            before.push(w)
        }
    }
}

/// Whether an address holds no description of a worker.
pub open spec fn is_plain(a: Seq<char>) -> bool {
    forall|i: int| 0 <= i < a.len() ==> #[trigger] a[i] != '#'
}

/// An address without slashes at its end.
pub fn base_url(url: &str) -> (s: String)
    ensures
        s@ == text::trim_end(url@, Class::One('/')),
{
    let cs = text::chars_of(url);
    text::string_of(text::without_end(cs.as_slice(), Class::One('/')))
}

fn worker_address(w: &str) -> (s: String)
    ensures
        s@ == address(w@),
{
    let cs = text::chars_of(w);
    let before = text::before_class(cs.as_slice(), Class::One('#'));
    text::string_of(text::without_end(before, Class::One('/')))
}

proof fn lemma_trim_end_part(s: Seq<char>, class: Class)
    ensures
        text::trim_end(s, class).len() <= s.len(),
        text::trim_end(s, class) == s.take(text::trim_end(s, class).len() as int),
    decreases s.len(),
{
    if s.len() > 0 && class.has(s.last()) {
        lemma_trim_end_part(s.drop_last(), class);
        let n = text::trim_end(s, class).len() as int;
        assert(s.drop_last().take(n) =~= s.take(n));
    } else {
        assert(s.take(s.len() as int) =~= s);
    }
}

proof fn lemma_address_plain(w: Seq<char>)
    ensures
        is_plain(address(w)),
{
    let n = text::lead(w, Class::One('#'), false);
    text::lemma_lead_all(w, Class::One('#'), false);
    let before = w.take(n as int);
    lemma_trim_end_part(before, Class::One('/'));
    let a = address(w);
    assert forall|i: int| 0 <= i < a.len() implies #[trigger] a[i] != '#' by {
        assert(a[i] == before.take(a.len() as int)[i]);
        assert(Class::One('#').has(w[i]) == false);
    }
}

/// What follows `#` describes a worker and is no part of its address, and no address
/// holds it.
pub proof fn law_description_ignored(w: Seq<char>, description: Seq<char>)
    requires
        is_plain(w),
    ensures
        address(w.push('#') + description) == address(w),
        address(w) == text::trim_end(w, Class::One('/')),
        is_plain(address(w)),
{
    let class = Class::One('#');
    let all = w.push('#') + description;
    text::lemma_lead(w, class, false, w.len() as int);
    text::lemma_lead(all, class, false, w.len() as int);
    assert(all.take(w.len() as int) =~= w);
    assert(w.take(w.len() as int) =~= w);
    lemma_address_plain(w);
}

/// Passes requests on to one of several workers.
pub struct Gateway {
    workers: Vec<String>,
}

/// The sentence for a gateway without workers.
pub open spec fn no_worker() -> Seq<char> {
    "至少需要一个 --worker"@
}

/// The FNV-1a hash of bytes.
pub open spec fn byte_hash(bytes: Seq<u8>) -> u64
    decreases bytes.len(),
{
    if bytes.len() == 0 {
        0xcbf29ce484222325
    } else {
        let h = byte_hash(bytes.drop_last()) ^ (bytes.last() as u64);
        ((h * 0x100000001b3) % 0x1_0000_0000_0000_0000) as u64
    }
}

/// Whether a byte may stand in a header that is read as text.
pub open spec fn is_visible(b: u8) -> bool {
    32 <= b < 127 || b == 9
}

/// Whether a header can be read as text.
pub open spec fn is_text(value: Seq<u8>) -> bool {
    forall|i: int| 0 <= i < value.len() ==> is_visible(#[trigger] value[i])
}

/// The session of a request: the first of its two headers that is there, if it can be
/// read as text.
pub open spec fn session_of(blend: Option<Seq<u8>>, plain: Option<Seq<u8>>) -> Option<Seq<u8>> {
    let first = match blend {
        Some(v) => Some(v),
        None => plain,
    };
    match first {
        Some(v) => if is_text(v) {
            Some(v)
        } else {
            None
        },
        None => None,
    }
}

/// The bytes of a header, if it is there.
pub open spec fn header_view(v: Option<&[u8]>) -> Option<Seq<u8>> {
    match v {
        Some(b) => Some(b@),
        None => None,
    }
}

/// The worker of a request: that of its session, else the one whose turn it is.
pub open spec fn worker_index(n: nat, session: Option<Seq<u8>>, turn: usize) -> int {
    match session {
        Some(key) => (byte_hash(key) as usize) as int % n as int,
        None => turn as int % n as int,
    }
}

fn readable(value: &[u8]) -> (b: bool)
    ensures
        b == is_text(value@),
{
    for i in 0..value.len()
        invariant
            forall|j: int| 0 <= j < i ==> is_visible(#[trigger] value@[j]),
    {
        let c: u8 = value[i];
        if !((32 <= c && c < 127) || c == 9) {
            proof {
                assert(!is_visible(value@[i as int]));
            }
            return false;
        }
    }
    true
}

/// The session of a request, from the headers `x-blend-session` and `x-session-id`.
pub fn session_key<'a>(blend: Option<&'a [u8]>, plain: Option<&'a [u8]>) -> (r: Option<&'a [u8]>)
    ensures
        header_view(r) == session_of(header_view(blend), header_view(plain)),
{
    let first: Option<&'a [u8]> = match blend {
        Some(v) => Some(v),
        None => plain,
    };
    match first {
        Some(v) => {
            if readable(v) {
                Some(v)
            } else {
                None
            }
        },
        None => None,
    }
}

fn hash_bytes(bytes: &[u8]) -> (h: u64)
    ensures
        h == byte_hash(bytes@),
{
    let mut h: u64 = 0xcbf29ce484222325;
    for i in 0..bytes.len()
        invariant
            h == byte_hash(bytes@.take(i as int)),
    {
        proof {
            assert(bytes@.take(i + 1).drop_last() =~= bytes@.take(i as int));
        }
        h = h ^ (bytes[i] as u64);
        h = h.wrapping_mul(0x100000001b3);
    }
    proof {
        assert(bytes@.take(bytes@.len() as int) =~= bytes@);
    }
    h
}

impl View for Gateway {
    type V = Seq<Seq<char>>;

    /// The workers.
    closed spec fn view(&self) -> Seq<Seq<char>> {
        text::views(self.workers@)
    }
}

impl Gateway {
    /// There is a worker.
    #[verifier::type_invariant]
    spec fn inv(&self) -> bool {
        self@.len() > 0
    }

    /// A gateway in front of the given workers; fails when none is left.
    pub fn new(workers: Vec<String>) -> (r: Result<Gateway, String>)
        ensures
            match r {
                Ok(g) => g@ == listed(text::views(workers@)) && g@.len() > 0,
                Err(e) => listed(text::views(workers@)).len() == 0 && e@ == no_worker() && e@
                    == "至少需要一个 --worker"@,
            },
    {
        let mut kept: Vec<String> = Vec::new();
        let ghost all = text::views(workers@);
        for w in it: workers
            invariant
                text::views(it.seq()) == all,
                text::views(kept@) == listed(all.take(it.index())),
        {
            proof {
                let i = it.index();
                assert(all.take(i + 1).drop_last() =~= all.take(i));
                assert(all.take(i + 1).last() == w@);
            }
            let base = base_url(w.as_str());
            if base.as_str().unicode_len() > 0 {
                proof {
                    assert(text::views(kept@.push(base)) =~= text::views(kept@).push(base@));
                }
                kept.push(base);
            }
        }
        proof {
            assert(all.take(all.len() as int) =~= all);
        }
        if kept.len() == 0 {
            return Err("至少需要一个 --worker".to_owned());
        }
        Ok(Gateway { workers: kept })
    }

    /// The workers, as they were given.
    pub fn workers(&self) -> (r: &Vec<String>)
        ensures
            text::views(r@) == self@,
    {
        &self.workers
    }

    /// The worker of a request: that of its session, else the one whose turn it is.
    pub fn pick(&self, session: Option<&[u8]>, turn: usize) -> (w: &str)
        ensures
            self@.len() > 0,
            w@ == self@[worker_index(self@.len(), header_view(session), turn)],
            session is None ==> w@ == self@[turn as int % self@.len() as int],
            session is Some ==> w@ == self@[(byte_hash(session->0@) as usize) as int
                % self@.len() as int],
    {
        proof {
            use_type_invariant(self);
        }
        let n: usize = self.workers.len();
        let i: usize = match session {
            Some(key) => (#[verifier::truncate] (hash_bytes(key) as usize)) % n,
            None => turn % n,
        };
        self.workers[i].as_str()
    }
}

/// The turn after a request: it moves only with a request without a session, and starts
/// again from 0 after the last.
pub open spec fn turn_of_next(session: Option<Seq<u8>>, turn: usize) -> usize {
    if session is Some {
        turn
    } else if turn < usize::MAX {
        (turn + 1) as usize
    } else {
        0
    }
}

/// The turn after a request.
pub fn next_turn(session: Option<&[u8]>, turn: usize) -> (t: usize)
    ensures
        t == turn_of_next(header_view(session), turn),
        session is Some ==> t == turn,
        session is None && turn < usize::MAX ==> t == turn + 1,
        session is None && turn == usize::MAX ==> t == 0,
{
    match session {
        Some(_) => turn,
        None => turn.wrapping_add(1),
    }
}

/// The address that a request for `path` is passed on to: the path at the address of the
/// worker, without the description that the worker may have been given with.
pub fn target_url(worker: &str, path: &str) -> (u: String)
    ensures
        u@ == address(worker@) + path@,
        is_plain(address(worker@)),
{
    proof {
        lemma_address_plain(worker@);
    }
    let mut u = worker_address(worker);
    u.append(path);
    u
}

/// A character, in lower case where it is a Latin letter.
pub open spec fn lower(c: char) -> char {
    if 'A' <= c <= 'Z' {
        (c as int + 32) as char
    } else {
        c
    }
}

/// A name, with Latin letters in lower case.
pub open spec fn lower_case(s: Seq<char>) -> Seq<char> {
    s.map_values(|c: char| lower(c))
}

/// Whether a header concerns only the connection it came over.
pub open spec fn is_hop(name: Seq<char>) -> bool {
    let n = lower_case(name);
    ||| n == "host"@
    ||| n == "connection"@
    ||| n == "keep-alive"@
    ||| n == "proxy-connection"@
    ||| n == "transfer-encoding"@
    ||| n == "upgrade"@
    ||| n == "te"@
    ||| n == "trailer"@
}

/// Whether a header concerns only the connection it came over, and is not passed on.
pub fn skip_hop(name: &str) -> (b: bool)
    ensures
        b == is_hop(name@),
        ({
            let low = name@.map_values(
                |c: char|
                    if 'A' <= c <= 'Z' {
                        (c as int + 32) as char
                    } else {
                        c
                    },
            );
            b == (low == "host"@ || low == "connection"@ || low == "keep-alive"@ || low
                == "proxy-connection"@ || low == "transfer-encoding"@ || low == "upgrade"@ || low
                == "te"@ || low == "trailer"@)
        }),
{
    proof {
        law_hop_names(name@);
    }
    let cs = text::chars_of(name);
    let mut low: Vec<char> = Vec::new();
    for i in 0..cs.len()
        invariant
            low@ == lower_case(cs@.take(i as int)),
    {
        let c: char = cs[i];
        let d: char = if 'A' <= c && c <= 'Z' {
            (c as u8 + 32) as char
        } else {
            c
        };
        low.push(d);
        proof {
            assert(low@ =~= lower_case(cs@.take(i + 1)));
        }
    }
    proof {
        assert(cs@.take(cs@.len() as int) =~= cs@);
    }
    let l = low.as_slice();
    text::same(l, "host") || text::same(l, "connection") || text::same(l, "keep-alive")
        || text::same(l, "proxy-connection") || text::same(l, "transfer-encoding") || text::same(
        l,
        "upgrade",
    ) || text::same(l, "te") || text::same(l, "trailer")
}

/// A header: its name and its value.
pub type Header = (String, Vec<u8>);

/// Headers as mathematical values.
pub open spec fn header_views(h: Seq<Header>) -> Seq<(Seq<char>, Seq<u8>)> {
    h.map_values(|e: Header| (e.0@, e.1@))
}

/// The headers that are passed on.
pub open spec fn passed_on(h: Seq<(Seq<char>, Seq<u8>)>) -> Seq<(Seq<char>, Seq<u8>)>
    decreases h.len(),
{
    if h.len() == 0 {
        Seq::empty()
    } else if is_hop(h.last().0) {
        passed_on(h.drop_last())
    } else {
        passed_on(h.drop_last()).push(h.last())
    }
}

/// The headers that are passed on, in their order.
pub fn forward_headers(headers: Vec<Header>) -> (r: Vec<Header>)
    ensures
        header_views(r@) == passed_on(header_views(headers@)),
        header_views(r@) == header_views(headers@).filter(
            |h: (Seq<char>, Seq<u8>)| !is_hop(h.0),
        ),
{
    proof {
        lemma_passed_on(header_views(headers@));
    }
    let mut r: Vec<Header> = Vec::new();
    let ghost all = header_views(headers@);
    proof {
        assert(header_views(r@) =~= Seq::empty());
    }
    for h in it: headers
        invariant
            header_views(it.seq()) == all,
            header_views(r@) == passed_on(all.take(it.index())),
    {
        proof {
            let i = it.index();
            assert(all.take(i + 1).drop_last() =~= all.take(i));
            assert(all.take(i + 1).last() == (h.0@, h.1@));
        }
        if !skip_hop(h.0.as_str()) {
            proof {
                assert(header_views(r@.push(h)) =~= header_views(r@).push((h.0@, h.1@)));
            }
            r.push(h);
        }
    }
    proof {
        assert(all.take(all.len() as int) =~= all);
    }
    r
}

/// The status that is passed back: that of the worker where it is a status, else 502.
pub fn relay_status(status: u16) -> (r: u16)
    ensures
        r == if 100 <= status <= 999 {
            status
        } else {
            502
        },
{
    if 100 <= status && status <= 999 {
        status
    } else {
        502
    }
}

/// Whether a character may stand in a header: a tab may, and every one from the space on but
/// the delete character.
pub open spec fn header_char(c: char) -> bool {
    (c as int >= 32 && c as int != 127) || c == '\t'
}

/// Whether a text may stand in a header.
pub open spec fn header_text(s: Seq<char>) -> bool {
    forall|i: int| 0 <= i < s.len() ==> header_char(#[trigger] s[i])
}

/// The header that names the worker in an answer: the worker as it was given, or `ok` where
/// that cannot stand in a header.
pub fn worker_label(worker: &str) -> (s: String)
    ensures
        s@ == if header_text(worker@) {
            worker@
        } else {
            "ok"@
        },
        (forall|i: int|
            0 <= i < worker@.len() ==> #[trigger] worker@[i] >= ' ' && worker@[i] != '\u{7f}'
                || worker@[i] == '\t') ==> s@ == worker@,
        !(forall|i: int|
            0 <= i < worker@.len() ==> #[trigger] worker@[i] >= ' ' && worker@[i] != '\u{7f}'
                || worker@[i] == '\t') ==> s@ == "ok"@,
{
    proof {
        lemma_header_text(worker@);
    }
    let cs = text::chars_of(worker);
    for i in 0..cs.len()
        invariant
            cs@ == worker@,
            forall|j: int| 0 <= j < i ==> header_char(#[trigger] worker@[j]),
    {
        let c: char = cs[i];
        if !((' ' <= c && c != '\u{7f}') || c == '\t') {
            proof {
                assert(!header_char(worker@[i as int]));
            }
            return "ok".to_owned();
        }
    }
    worker.to_owned()
}

/// The sentence for a worker that could not be reached.
pub fn worker_error(worker: &str, reason: &str) -> (s: String)
    ensures
        s@ == "worker "@ + worker@ + ": "@ + reason@,
{
    let mut s = "worker ".to_owned();
    s.append(worker);
    s.append(": ");
    s.append(reason);
    s
}

/// All requests of a session go to the same worker, whoever's turn it is.
pub proof fn law_session_sticks(n: nat, key: Seq<u8>, t1: usize, t2: usize)
    requires
        n > 0,
    ensures
        worker_index(n, Some(key), t1) == worker_index(n, Some(key), t2),
        0 <= worker_index(n, Some(key), t1) < n,
{
}

/// The turn that a count from `first` comes to after `j` requests without a session.
pub open spec fn turn_at(first: usize, j: nat) -> usize {
    ((first + j) % (usize::MAX + 1)) as usize
}

/// Requests without a session go round: they go to the workers in their order, and as many
/// in a row as there are workers go to each of them once. The count of turns may start
/// again from 0 on the way only where the number of its values is a multiple of that of
/// the workers.
pub proof fn law_turns_go_round(n: nat, first: usize)
    requires
        n > 0,
        first + n <= usize::MAX + 1 || (usize::MAX + 1) % n as int == 0,
    ensures
        forall|j: nat|
            j < n ==> #[trigger] worker_index(n, None, turn_at(first, j)) == (worker_index(
                n,
                None,
                first,
            ) + j) % n as int,
        forall|w: int|
            #![trigger served(n, first, w)]
            0 <= w < n ==> served(n, first, w),
        forall|a: nat, b: nat|
            a < b < n ==> #[trigger] worker_index(n, None, turn_at(first, a))
                != #[trigger] worker_index(n, None, turn_at(first, b)),
{
    let m = n as int;
    let r = first as int % m;
    assert forall|j: nat| j < n implies #[trigger] worker_index(n, None, turn_at(first, j)) == (r + j)
        % m by {
        lemma_turn(n, first, j);
    }
    assert forall|w: int| #![trigger served(n, first, w)] 0 <= w < n implies served(n, first, w) by {
        let j = if w >= r {
            (w - r) as nat
        } else {
            (w - r + m) as nat
        };
        lemma_within(r, j as int, m);
        assert(worker_index(n, None, turn_at(first, j)) == w);
    }
    assert forall|a: nat, b: nat| a < b < n implies #[trigger] worker_index(
        n,
        None,
        turn_at(first, a),
    ) != #[trigger] worker_index(n, None, turn_at(first, b)) by {
        lemma_within(r, a as int, m);
        lemma_within(r, b as int, m);
    }
}

/// A worker gets one of as many requests without a session as there are workers.
pub open spec fn served(n: nat, first: usize, w: int) -> bool {
    exists|j: nat| j < n && #[trigger] worker_index(n, None, turn_at(first, j)) == w
}

proof fn lemma_within(r: int, j: int, m: int)
    requires
        0 <= r < m,
        0 <= j < m,
    ensures
        (r + j) % m == if r + j < m {
            r + j
        } else {
            r + j - m
        },
{
    if r + j < m {
        vstd::arithmetic::div_mod::lemma_small_mod((r + j) as nat, m as nat);
    } else {
        vstd::arithmetic::div_mod::lemma_fundamental_div_mod_converse(r + j, m, 1, r + j - m);
    }
}

proof fn lemma_turn(n: nat, first: usize, j: nat)
    requires
        j < n,
        first + n <= usize::MAX + 1 || (usize::MAX + 1) % n as int == 0,
    ensures
        worker_index(n, None, turn_at(first, j)) == (first as int % n as int + j) % n as int,
{
    let m = n as int;
    let x = first + j;
    let all = usize::MAX + 1;
    vstd::arithmetic::div_mod::lemma_add_mod_noop(first as int, j as int, m);
    vstd::arithmetic::div_mod::lemma_small_mod(j, n);
    if x < all {
        vstd::arithmetic::div_mod::lemma_small_mod(x as nat, all as nat);
    } else {
        let k = all / m;
        vstd::arithmetic::div_mod::lemma_fundamental_div_mod(all, m);
        assert(k > 0) by (nonlinear_arith)
            requires
                all == m * k,
                all > 0,
                m > 0,
        ;
        vstd::arithmetic::div_mod::lemma_mod_mod(x, m, k);
    }
}

/// The turn after a number of requests.
pub open spec fn turn_after(first: usize, sessions: Seq<Option<Seq<u8>>>) -> usize
    decreases sessions.len(),
{
    if sessions.len() == 0 {
        first
    } else {
        turn_of_next(sessions.last(), turn_after(first, sessions.drop_last()))
    }
}

/// How many requests have no session.
pub open spec fn unpinned(sessions: Seq<Option<Seq<u8>>>) -> nat
    decreases sessions.len(),
{
    if sessions.len() == 0 {
        0
    } else {
        unpinned(sessions.drop_last()) + if sessions.last() is None {
            1nat
        } else {
            0nat
        }
    }
}

/// A request of a session does not move the turn: whatever requests came before, a request
/// without a session has the turn that only those without a session have counted to.
pub proof fn law_sessions_keep_turns(first: usize, sessions: Seq<Option<Seq<u8>>>)
    ensures
        turn_after(first, sessions) == turn_at(first, unpinned(sessions)),
    decreases sessions.len(),
{
    let all = usize::MAX + 1;
    if sessions.len() == 0 {
        vstd::arithmetic::div_mod::lemma_small_mod(first as nat, all as nat);
    } else {
        let init = sessions.drop_last();
        law_sessions_keep_turns(first, init);
        if sessions.last() is None {
            let x = first + unpinned(init);
            let t = turn_at(first, unpinned(init));
            vstd::arithmetic::div_mod::lemma_mod_bound(x, all);
            vstd::arithmetic::div_mod::lemma_add_mod_noop(x, 1, all);
            vstd::arithmetic::div_mod::lemma_small_mod(1, all as nat);
            if t < usize::MAX {
                vstd::arithmetic::div_mod::lemma_small_mod((t + 1) as nat, all as nat);
            } else {
                vstd::arithmetic::div_mod::lemma_mod_self_0(all);
            }
        }
    }
}

/// Every header is passed on, in its place, but for those that concern only the
/// connection.
pub proof fn law_only_hops_dropped(a: Seq<(Seq<char>, Seq<u8>)>, h: (Seq<char>, Seq<u8>), b: Seq<
    (Seq<char>, Seq<u8>),
>)
    ensures
        is_hop(h.0) ==> passed_on(a.push(h) + b) == passed_on(a) + passed_on(b),
        !is_hop(h.0) ==> passed_on(a.push(h) + b) == passed_on(a).push(h) + passed_on(b),
    decreases b.len(),
{
    let all = a.push(h) + b;
    if b.len() == 0 {
        assert(all.drop_last() =~= a);
        assert(all.last() == h);
        assert(passed_on(a) + passed_on(b) =~= passed_on(a));
        assert(passed_on(a).push(h) + passed_on(b) =~= passed_on(a).push(h));
    } else {
        law_only_hops_dropped(a, h, b.drop_last());
        assert(all.drop_last() =~= a.push(h) + b.drop_last());
        assert(all.last() == b.last());
        if is_hop(h.0) {
            assert(passed_on(all) =~= passed_on(a) + passed_on(b));
        } else {
            assert(passed_on(all) =~= passed_on(a).push(h) + passed_on(b));
        }
    }
}

/// The headers that concern only a connection are exactly these eight, in whatever case
/// their letters are written; all others are passed on.
pub proof fn law_hop_names(name: Seq<char>)
    ensures
        ({
            let low = name.map_values(
                |c: char|
                    if 'A' <= c <= 'Z' {
                        (c as int + 32) as char
                    } else {
                        c
                    },
            );
            is_hop(name) == (low == "host"@ || low == "connection"@ || low == "keep-alive"@ || low
                == "proxy-connection"@ || low == "transfer-encoding"@ || low == "upgrade"@ || low
                == "te"@ || low == "trailer"@)
        }),
{
    let low = name.map_values(
        |c: char|
            if 'A' <= c <= 'Z' {
                (c as int + 32) as char
            } else {
                c
            },
    );
    assert(lower_case(name) =~= low);
}

proof fn lemma_passed_on(h: Seq<(Seq<char>, Seq<u8>)>)
    ensures
        passed_on(h) == h.filter(|e: (Seq<char>, Seq<u8>)| !is_hop(e.0)),
    decreases h.len(),
{
    reveal(Seq::filter);
    if h.len() == 0 {
        assert(passed_on(h) =~= h.filter(|e: (Seq<char>, Seq<u8>)| !is_hop(e.0)));
    } else {
        lemma_passed_on(h.drop_last());
    }
}

/// A header of any other name than the eight of a connection is passed on with its value, in
/// its place; and nothing is passed on that did not come.
pub proof fn law_other_headers_kept(h: Seq<(Seq<char>, Seq<u8>)>)
    ensures
        passed_on(h) == h.filter(
            |e: (Seq<char>, Seq<u8>)|
                {
                    let low = e.0.map_values(
                        |c: char|
                            if 'A' <= c <= 'Z' {
                                (c as int + 32) as char
                            } else {
                                c
                            },
                    );
                    !(low == "host"@ || low == "connection"@ || low == "keep-alive"@ || low
                        == "proxy-connection"@ || low == "transfer-encoding"@ || low == "upgrade"@
                        || low == "te"@ || low == "trailer"@)
                },
        ),
    decreases h.len(),
{
    reveal(Seq::filter);
    if h.len() == 0 {
        assert(passed_on(h) =~= h);
    } else {
        law_other_headers_kept(h.drop_last());
        law_hop_names(h.last().0);
    }
}

proof fn lemma_header_text(s: Seq<char>)
    ensures
        header_text(s) <==> forall|i: int|
            0 <= i < s.len() ==> #[trigger] s[i] >= ' ' && s[i] != '\u{7f}' || s[i] == '\t',
{
    if header_text(s) {
        assert forall|i: int| 0 <= i < s.len() implies #[trigger] s[i] >= ' ' && s[i] != '\u{7f}'
            || s[i] == '\t' by {
            assert(header_char(s[i]));
        }
    }
}

/// Slashes, `k` of them.
pub open spec fn slashes(k: nat) -> Seq<char> {
    Seq::new(k, |i: int| '/')
}

proof fn lemma_slashes(base: Seq<char>, k: nat)
    requires
        base.len() > 0 ==> base.last() != '/',
    ensures
        text::trim_end(base + slashes(k), Class::One('/')) == base,
    decreases k,
{
    let s = base + slashes(k);
    if k == 0 {
        assert(s =~= base);
    } else {
        lemma_slashes(base, (k - 1) as nat);
        assert(s.last() == '/');
        assert(s.drop_last() =~= base + slashes((k - 1) as nat));
    }
}

/// Slashes at the end of an address, and what a worker is described with behind `#`, are no
/// part of it; all else is.
pub proof fn law_address(base: Seq<char>, k: nat, description: Seq<char>)
    requires
        is_plain(base),
        base.len() > 0 ==> base.last() != '/',
    ensures
        text::trim_end(base + slashes(k), Class::One('/')) == base,
        address(base + slashes(k)) == base,
        address((base + slashes(k)).push('#') + description) == base,
{
    let w = base + slashes(k);
    lemma_slashes(base, k);
    assert forall|i: int| 0 <= i < w.len() implies #[trigger] w[i] != '#' by {
        if i < base.len() {
            assert(w[i] == base[i]);
        }
    }
    law_description_ignored(w, description);
}

/// The workers are those that were given, in their order and without slashes at the end,
/// but for those of which nothing is left.
pub proof fn law_listed(workers: Seq<Seq<char>>)
    ensures
        listed(workers) == workers.map_values(
            |w: Seq<char>| text::trim_end(w, Class::One('/')),
        ).filter(|w: Seq<char>| w.len() > 0),
    decreases workers.len(),
{
    reveal(Seq::filter);
    let cut = |w: Seq<char>| text::trim_end(w, Class::One('/'));
    let left = |w: Seq<char>| w.len() > 0;
    let all = workers.map_values(cut);
    if workers.len() > 0 {
        law_listed(workers.drop_last());
        assert(all.drop_last() =~= workers.drop_last().map_values(cut));
    }
    assert(listed(workers) =~= all.filter(left));
}

/// The hash of no bytes is fixed. One more byte is joined to the hash by exclusive or, and
/// the result multiplied by a prime, modulo 2^64.
pub proof fn law_byte_hash(bytes: Seq<u8>, b: u8)
    ensures
        byte_hash(seq![]) == 0xcbf29ce484222325,
        byte_hash(bytes.push(b)) == ((byte_hash(bytes) ^ (b as u64)) * 0x100000001b3)
            % 0x1_0000_0000_0000_0000,
{
    assert(bytes.push(b).drop_last() =~= bytes);
}

/// A request has the session of the header for sessions of this gateway, or where that is
/// missing of the plain one, if all its bytes are visible ones or tabs; else it has none.
pub proof fn law_session_of(blend: Option<Seq<u8>>, plain: Option<Seq<u8>>, v: Seq<u8>)
    ensures
        session_of(blend, plain) == Some(v) <==> (blend == Some(v) || (blend is None && plain
            == Some(v))) && forall|i: int|
            0 <= i < v.len() ==> 32 <= #[trigger] v[i] < 127 || v[i] == 9,
{
    if is_text(v) {
        assert forall|i: int| 0 <= i < v.len() implies 32 <= #[trigger] v[i] < 127 || v[i] == 9 by {
            assert(is_visible(v[i]));
        }
    }
}

} // verus!
