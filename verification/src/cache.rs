//! The cache of experts that all layers share: the one that was not used for longest
//! makes room for a new one.

use std::collections::{HashMap, VecDeque};
use vstd::prelude::*;

verus! {

broadcast use vstd::std_specs::hash::group_hash_axioms;

/// One expert of one layer.
#[derive(Debug, Clone, Copy, PartialEq, Eq, Hash, Structural)]
pub struct ExpertKey {
    pub layer: u32,
    pub expert: u32,
}

/// A cache with room for a fixed number of experts. A hit moves an expert to the back;
/// when there is no room, the one at the front is dropped.
pub struct LruExpertCache {
    cap: usize,
    map: HashMap<u64, ()>,
    order: VecDeque<ExpertKey>,
}

/// A cache as a mathematical value.
pub struct CacheView {
    pub cap: nat,
    /// The experts in the cache; the one that was not used for longest comes first.
    pub order: Seq<ExpertKey>,
}

/// The number under which an expert is looked up.
pub open spec fn packed(k: ExpertKey) -> u64 {
    (k.layer * 0x1_0000_0000 + k.expert) as u64
}

fn pack(k: ExpertKey) -> (n: u64)
    ensures
        n == packed(k),
{
    k.layer as u64 * 0x1_0000_0000 + k.expert as u64
}

/// `order` with `k`, which it holds, moved to the back.
pub open spec fn to_back(order: Seq<ExpertKey>, k: ExpertKey) -> Seq<ExpertKey> {
    order.remove(order.index_of(k)).push(k)
}

impl CacheView {
    /// No expert is in the cache twice, and no more are in it than it has room for.
    pub open spec fn wf(self) -> bool {
        self.order.no_duplicates() && self.order.len() <= self.cap
    }

    /// The cache after `k` was looked up.
    pub open spec fn touched(self, k: ExpertKey) -> CacheView {
        if self.order.contains(k) {
            CacheView { order: to_back(self.order, k), ..self }
        } else {
            self
        }
    }

    /// The cache after `k` was put in.
    pub open spec fn inserted(self, k: ExpertKey) -> CacheView {
        if self.order.contains(k) {
            self.touched(k)
        } else if self.cap == 0 {
            self
        } else if self.order.len() >= self.cap {
            CacheView { order: self.order.skip(1).push(k), ..self }
        } else {
            CacheView { order: self.order.push(k), ..self }
        }
    }
}

impl View for LruExpertCache {
    type V = CacheView;

    closed spec fn view(&self) -> CacheView {
        CacheView { cap: self.cap as nat, order: self.order@ }
    }
}

impl LruExpertCache {
    /// The lookup table names the experts of the order and no others.
    pub closed spec fn inv(&self) -> bool {
        &&& self@.wf()
        &&& forall|n: u64| #[trigger]
            self.map@.dom().contains(n) <==> exists|k: ExpertKey|
                self.order@.contains(k) && packed(k) == n
        &&& self.map@.dom().finite()
        &&& self.map@.dom().len() == self.order@.len()
    }

    /// An empty cache with room for `cap` experts.
    pub fn new(cap: usize) -> (c: Self)
        ensures
            c.inv(),
            c@ == (CacheView { cap: cap as nat, order: Seq::empty() }),
    {
        LruExpertCache { cap, map: HashMap::new(), order: VecDeque::new() }
    }

    /// How many experts there is room for.
    pub fn cap(&self) -> (n: usize)
        ensures
            n == self@.cap,
    {
        self.cap
    }

    /// How many experts are in the cache.
    pub fn len(&self) -> (n: usize)
        requires
            self.inv(),
        ensures
            n == self@.order.len(),
    {
        self.map.len()
    }

    /// Whether an expert is in the cache.
    pub fn contains(&self, k: ExpertKey) -> (b: bool)
        requires
            self.inv(),
        ensures
            b == self@.order.contains(k),
    {
        let n = pack(k);
        proof {
            if self.map@.dom().contains(n) {
                let o = choose|o: ExpertKey| self.order@.contains(o) && packed(o) == n;
                assert(o == k);
            }
        }
        self.map.contains_key(&n)
    }

    /// Whether an expert is in the cache; if so it is now the one used last.
    pub fn touch(&mut self, k: ExpertKey) -> (hit: bool)
        requires
            old(self).inv(),
        ensures
            final(self).inv(),
            hit == old(self)@.order.contains(k),
            final(self)@ == old(self)@.touched(k),
    {
        if !self.contains(k) {
            return false;
        }
        let ghost order0 = self.order@;
        let mut pos: usize = 0;
        while pos < self.order.len() && self.order[pos] != k
            invariant
                self.order@ == order0,
                pos <= order0.len(),
                forall|j: int| 0 <= j < pos ==> order0[j] != k,
            decreases order0.len() - pos,
        {
            pos = pos + 1;
        }
        proof {
            let at = order0.index_of(k);
            assert(order0[at] == k);
            assert(pos < order0.len());
            assert(pos == at);
        }
        self.order.remove(pos);
        self.order.push_back(k);
        proof {
            assert(self.order@ == to_back(order0, k));
            lemma_to_back(order0, k);
        }
        true
    }

    /// Puts an expert in. It is now the one used last; without room, the one that was
    /// not used for longest is dropped.
    pub fn insert(&mut self, k: ExpertKey)
        requires
            old(self).inv(),
        ensures
            final(self).inv(),
            final(self)@ == old(self)@.inserted(k),
    {
        if self.contains(k) {
            self.touch(k);
            return;
        }
        let ghost pre = *self;
        if self.map.len() >= self.cap && self.cap > 0 {
            if let Some(old_key) = self.order.pop_front() {
                proof {
                    assert(pre.order@.contains(old_key)) by {
                        assert(pre.order@[0] == old_key);
                    }
                    assert(pre.map@.dom().contains(packed(old_key)));
                }
                let n = pack(old_key);
                self.map.remove(&n);
                proof {
                    let rest = self.order@;
                    assert(rest =~= pre.order@.skip(1));
                    assert forall|m: u64| #[trigger]
                        self.map@.dom().contains(m) <==> exists|o: ExpertKey|
                            rest.contains(o) && packed(o) == m by {
                        if self.map@.dom().contains(m) {
                            assert(pre.map@.dom().contains(m));
                            let o = choose|o: ExpertKey| pre.order@.contains(o) && packed(o) == m;
                            let j = pre.order@.index_of(o);
                            assert(pre.order@[j] == o);
                            assert(j != 0);
                            assert(rest[j - 1] == o);
                            assert(rest.contains(o));
                        }
                        if exists|o: ExpertKey| rest.contains(o) && packed(o) == m {
                            let o = choose|o: ExpertKey| rest.contains(o) && packed(o) == m;
                            let j = rest.index_of(o);
                            assert(rest[j] == o);
                            assert(pre.order@[j + 1] == o);
                            assert(pre.order@.contains(o));
                            assert(pre.map@.dom().contains(m));
                            assert(pre.order@[0] != pre.order@[j + 1]);
                        }
                    }
                    assert(!rest.contains(k)) by {
                        if rest.contains(k) {
                            let j = rest.index_of(k);
                            assert(pre.order@[j + 1] == k);
                        }
                    }
                }
            }
        }
        if self.cap > 0 {
            let n = pack(k);
            let ghost mid = *self;
            self.map.insert(n, ());
            self.order.push_back(k);
            proof {
                let now = self.order@;
                assert(!mid.map@.dom().contains(n)) by {
                    if mid.map@.dom().contains(n) {
                        let o = choose|o: ExpertKey| mid.order@.contains(o) && packed(o) == n;
                        assert(o == k);
                    }
                }
                assert forall|m: u64| #[trigger]
                    self.map@.dom().contains(m) <==> exists|o: ExpertKey|
                        now.contains(o) && packed(o) == m by {
                    if self.map@.dom().contains(m) {
                        if m == n {
                            assert(now.last() == k);
                            assert(now.contains(k));
                        } else {
                            assert(mid.map@.dom().contains(m));
                            let o = choose|o: ExpertKey| mid.order@.contains(o) && packed(o) == m;
                            let j = mid.order@.index_of(o);
                            assert(now[j] == o);
                        }
                    }
                    if exists|o: ExpertKey| now.contains(o) && packed(o) == m {
                        let o = choose|o: ExpertKey| now.contains(o) && packed(o) == m;
                        let j = now.index_of(o);
                        if j < mid.order@.len() {
                            assert(mid.order@[j] == o);
                            assert(mid.order@.contains(o));
                            assert(mid.map@.dom().contains(m));
                        }
                    }
                }
            }
        }
    }
}

proof fn lemma_to_back(order: Seq<ExpertKey>, k: ExpertKey)
    requires
        order.no_duplicates(),
        order.contains(k),
    ensures
        to_back(order, k).no_duplicates(),
        to_back(order, k).len() == order.len(),
        forall|o: ExpertKey| #[trigger] to_back(order, k).contains(o) <==> order.contains(o),
{
    let at = order.index_of(k);
    assert(order[at] == k);
    let now = to_back(order, k);
    assert(now.len() == order.len());
    assert forall|o: ExpertKey| #[trigger] now.contains(o) <==> order.contains(o) by {
        if now.contains(o) {
            let j = now.index_of(o);
            if j < at {
                assert(order[j] == o);
            } else if j < now.len() - 1 {
                assert(order[j + 1] == o);
            }
        }
        if order.contains(o) {
            let j = order.index_of(o);
            if j < at {
                assert(now[j] == o);
            } else if j > at {
                assert(now[j - 1] == o);
            } else {
                assert(now.last() == o);
            }
        }
    }
}

/// Looking up and putting in keep a cache well-formed and its room the same.
pub proof fn law_cache_wf(c: CacheView, k: ExpertKey)
    requires
        c.wf(),
    ensures
        c.touched(k).wf(),
        c.inserted(k).wf(),
        c.touched(k).cap == c.cap,
        c.inserted(k).cap == c.cap,
{
    if c.order.contains(k) {
        lemma_to_back(c.order, k);
    } else {
        assert forall|i: int| 0 <= i < c.order.len() implies #[trigger] c.order[i] != k by {
            assert(c.order.contains(c.order[i]));
        }
        assert(c.inserted(k).order.no_duplicates());
    }
}

/// What was put in is hit afterwards, and it is the last that would be dropped; a cache
/// without room never hits.
pub proof fn law_hit_after_insert(c: CacheView, k: ExpertKey)
    requires
        c.wf(),
    ensures
        c.cap > 0 ==> c.inserted(k).order.contains(k) && c.inserted(k).order.last() == k,
        c.cap == 0 ==> !c.order.contains(k) && c.inserted(k) == c,
{
    if c.cap > 0 {
        assert(c.inserted(k).order.last() == k);
    }
}

/// Only the expert that was not used for longest is dropped, and only for a new one
/// when there is no room; looking up drops nothing.
pub proof fn law_evicts_least_recent(c: CacheView, k: ExpertKey, o: ExpertKey)
    requires
        c.wf(),
        c.order.contains(o),
    ensures
        c.touched(k).order.contains(o),
        !c.inserted(k).order.contains(o) <==> o == c.order[0] && c.order.len() == c.cap
            && !c.order.contains(k),
{
    let i = c.order.index_of(o);
    assert(c.order[i] == o);
    if c.order.contains(k) {
        lemma_to_back(c.order, k);
    } else if c.order.len() >= c.cap {
        let now = c.inserted(k).order;
        if i > 0 {
            assert(now[i - 1] == o);
        } else if now.contains(o) {
            let j = now.index_of(o);
            assert(now[j] == o);
            assert(c.order[j + 1] == o || j == now.len() - 1);
        }
    } else {
        assert(c.inserted(k).order[i] == o);
    }
}

/// The experts of `uses`, each once, in the order of their last use.
pub open spec fn recent(uses: Seq<ExpertKey>) -> Seq<ExpertKey>
    decreases uses.len(),
{
    if uses.len() == 0 {
        Seq::empty()
    } else {
        let before = recent(uses.drop_last());
        if before.contains(uses.last()) {
            to_back(before, uses.last())
        } else {
            before.push(uses.last())
        }
    }
}

/// The cache after all of `uses` were put in, one after the other.
pub open spec fn after(c: CacheView, uses: Seq<ExpertKey>) -> CacheView
    decreases uses.len(),
{
    if uses.len() == 0 {
        c
    } else {
        after(c, uses.drop_last()).inserted(uses.last())
    }
}

/// A cache holds the experts that were used last, as many as it has room for.
pub proof fn law_holds_most_recent(cap: nat, uses: Seq<ExpertKey>)
    ensures
        ({
            let r = recent(uses);
            let c = after(CacheView { cap, order: Seq::empty() }, uses);
            let m = if r.len() <= cap {
                r.len()
            } else {
                cap
            };
            &&& r.no_duplicates()
            &&& c.cap == cap
            &&& c.order == r.skip(r.len() - m)
        }),
    decreases uses.len(),
{
    let empty = CacheView { cap, order: Seq::empty() };
    let r = recent(uses);
    let c = after(empty, uses);
    if uses.len() == 0 {
        assert(c.order =~= r.skip(0));
    } else {
        law_holds_most_recent(cap, uses.drop_last());
        let k = uses.last();
        let r0 = recent(uses.drop_last());
        let c0 = after(empty, uses.drop_last());
        let m0 = if r0.len() <= cap {
            r0.len()
        } else {
            cap
        };
        let lo = r0.len() - m0;
        if r0.contains(k) {
            lemma_to_back(r0, k);
            let at = r0.index_of(k);
            assert(r0[at] == k);
            if at >= lo {
                assert(c0.order[at - lo] == k);
                assert(c0.order.contains(k));
                let at0 = c0.order.index_of(k);
                assert(c0.order[at0] == r0[at0 + lo]);
                assert(at0 == at - lo);
                assert(c.order =~= r.skip(lo));
            } else {
                assert(!c0.order.contains(k)) by {
                    if c0.order.contains(k) {
                        let j = c0.order.index_of(k);
                        assert(r0[j + lo] == k);
                    }
                }
                assert(c.order =~= r.skip(lo));
            }
        } else {
            assert(!c0.order.contains(k)) by {
                if c0.order.contains(k) {
                    let j = c0.order.index_of(k);
                    assert(r0[j + lo] == k);
                }
            }
            assert forall|i: int| 0 <= i < r0.len() implies #[trigger] r0[i] != k by {
                assert(r0.contains(r0[i]));
            }
            let m = if r.len() <= cap {
                r.len()
            } else {
                cap
            };
            assert(c.order =~= r.skip(r.len() - m));
        }
    }
}

/// An expert is in a cache that was used since it was empty exactly if no more different
/// experts were used from its last use on than there is room for.
pub proof fn law_held_by_recency(cap: nat, uses: Seq<ExpertKey>, k: ExpertKey)
    ensures
        after(CacheView { cap, order: Seq::empty() }, uses).order.contains(k) <==> exists|i: int|
            0 <= i < uses.len() && #[trigger] uses[i] == k && uses.skip(i).to_set().len() <= cap,
{
    law_holds_most_recent(cap, uses);
    let r = recent(uses);
    let order = after(CacheView { cap, order: Seq::empty() }, uses).order;
    let m = if r.len() <= cap {
        r.len()
    } else {
        cap
    };
    let lo = r.len() - m;
    lemma_recent_contains(uses, k);
    if uses.contains(k) {
        let last = lemma_last_use(uses, k);
        let at = r.index_of(k);
        let tail = r.skip(at);
        tail.unique_seq_to_set();
        assert(uses.skip(last).to_set().len() == r.len() - at);
        if at >= lo {
            assert(order[at - lo] == k);
            assert(uses[last] == k);
        } else {
            assert(!order.contains(k)) by {
                if order.contains(k) {
                    let j = order.index_of(k);
                    assert(r[j + lo] == k);
                }
            }
            assert forall|i: int| 0 <= i < uses.len() && #[trigger] uses[i]
                == k implies uses.skip(i).to_set().len() > cap by {
                assert(i <= last);
                vstd::seq_lib::seq_to_set_is_finite(uses.skip(i));
                assert(uses.skip(last).to_set().subset_of(uses.skip(i).to_set())) by {
                    assert forall|x: ExpertKey| uses.skip(last).contains(x) implies uses.skip(
                        i,
                    ).contains(x) by {
                        let j = uses.skip(last).index_of(x);
                        assert(uses.skip(i)[j + last - i] == x);
                    }
                }
                vstd::set_lib::lemma_len_subset(uses.skip(last).to_set(), uses.skip(i).to_set());
            }
        }
    } else {
        assert(!order.contains(k)) by {
            if order.contains(k) {
                let j = order.index_of(k);
                assert(r[j + lo] == k);
            }
        }
    }
}

proof fn lemma_recent_contains(uses: Seq<ExpertKey>, k: ExpertKey)
    ensures
        recent(uses).contains(k) == uses.contains(k),
        recent(uses).no_duplicates(),
    decreases uses.len(),
{
    if uses.len() > 0 {
        let init = uses.drop_last();
        let x = uses.last();
        let before = recent(init);
        lemma_recent_contains(init, k);
        lemma_recent_contains(init, x);
        law_holds_most_recent(0, uses);
        if before.contains(x) {
            lemma_to_back(before, x);
        } else {
            let now = before.push(x);
            if before.contains(k) {
                let j = before.index_of(k);
                assert(now[j] == k);
            }
            if now.contains(k) {
                let j = now.index_of(k);
                if j < before.len() {
                    assert(before[j] == k);
                }
            }
            if k == x {
                assert(now[before.len() as int] == k);
            }
        }
        if init.contains(k) {
            let j = init.index_of(k);
            assert(uses[j] == k);
        }
        if uses.contains(k) {
            let j = uses.index_of(k);
            if j < init.len() {
                assert(init[j] == k);
            }
        }
        if k == x {
            assert(uses[uses.len() - 1] == k);
        }
    }
}

/// The experts used from the last use of `k` on are those that follow it in the order of
/// last uses, and itself.
proof fn lemma_last_use(uses: Seq<ExpertKey>, k: ExpertKey) -> (last: int)
    requires
        uses.contains(k),
    ensures
        0 <= last < uses.len(),
        uses[last] == k,
        forall|i: int| last < i < uses.len() ==> #[trigger] uses[i] != k,
        recent(uses).contains(k),
        uses.skip(last).to_set() == recent(uses).skip(recent(uses).index_of(k)).to_set(),
    decreases uses.len(),
{
    let init = uses.drop_last();
    let x = uses.last();
    let r0 = recent(init);
    let r = recent(uses);
    lemma_recent_contains(init, x);
    lemma_recent_contains(init, k);
    lemma_recent_contains(uses, k);
    if r0.contains(x) {
        lemma_to_back(r0, x);
    }
    if k == x {
        let last = uses.len() - 1;
        assert(r[r.len() - 1] == k);
        assert(r.index_of(k) == r.len() - 1);
        assert(uses.skip(last) =~= seq![k]);
        assert(r.skip(r.len() - 1) =~= seq![k]);
        last
    } else {
        let j = uses.index_of(k);
        assert(init[j] == k);
        let last = lemma_last_use(init, k);
        let at0 = r0.index_of(k);
        assert(r0[at0] == k);
        let at = if r0.contains(x) && r0.index_of(x) < at0 {
            at0 - 1
        } else {
            at0
        };
        assert(r[at] == k);
        assert(r.index_of(k) == at);
        let a = uses.skip(last);
        let b = r.skip(at);
        assert forall|y: ExpertKey| a.contains(y) == b.contains(y) by {
            let a0 = init.skip(last);
            let b0 = r0.skip(at0);
            assert(a0.to_set().contains(y) == b0.to_set().contains(y));
            assert(a =~= a0.push(x));
            if a0.contains(y) {
                let t = a0.index_of(y);
                assert(a[t] == y);
            }
            if a.contains(y) && y != x {
                let t = a.index_of(y);
                assert(a0[t] == y);
            }
            if y == x {
                assert(a[a.len() - 1] == x);
                assert(b[b.len() - 1] == x);
            }
            if b0.contains(y) && y != x {
                let t = b0.index_of(y);
                assert(r0[t + at0] == y);
                if r0.contains(x) {
                    let xi = r0.index_of(x);
                    if t + at0 < xi {
                        assert(r[t + at0] == y);
                        assert(b[t + at0 - at] == y);
                    } else {
                        assert(r[t + at0 - 1] == y);
                        assert(b[t + at0 - 1 - at] == y);
                    }
                } else {
                    assert(b[t] == y);
                }
            }
            if b.contains(y) && y != x {
                let t = b.index_of(y);
                assert(r[t + at] == y);
                if r0.contains(x) {
                    let xi = r0.index_of(x);
                    if t + at < xi {
                        assert(r0[t + at] == y);
                        assert(b0[t + at - at0] == y);
                    } else {
                        assert(r0[t + at + 1] == y);
                        assert(b0[t + at + 1 - at0] == y);
                    }
                } else {
                    assert(b0[t] == y);
                }
            }
        }
        assert(a.to_set() =~= b.to_set());
        assert forall|i: int| last < i < uses.len() implies #[trigger] uses[i] != k by {
            if i < init.len() {
                assert(init[i] == uses[i]);
            }
        }
        last
    }
}

/// Uses that follow others start from the cache that these left.
pub proof fn law_uses_in_turn(c: CacheView, a: Seq<ExpertKey>, b: Seq<ExpertKey>)
    ensures
        after(c, a + b) == after(after(c, a), b),
    decreases b.len(),
{
    if b.len() == 0 {
        assert(a + b =~= a);
    } else {
        law_uses_in_turn(c, a, b.drop_last());
        assert((a + b).drop_last() =~= a + b.drop_last());
    }
}

/// A hit moves an expert behind all others and keeps their order; a look-up that does not hit
/// changes nothing. What is put in anew comes behind all others, and where there is no room
/// the first of them makes way for it.
pub proof fn law_order_after(c: CacheView, k: ExpertKey)
    requires
        c.wf(),
    ensures
        c.order.contains(k) ==> {
            &&& c.touched(k).order == c.order.filter(|o: ExpertKey| o != k).push(k)
            &&& c.inserted(k).order == c.order.filter(|o: ExpertKey| o != k).push(k)
        },
        !c.order.contains(k) ==> {
            &&& c.touched(k) == c
            &&& c.order.len() < c.cap ==> c.inserted(k).order == c.order.push(k)
            &&& c.order.len() == c.cap && c.cap > 0 ==> c.inserted(k).order == c.order.skip(1).push(
                k,
            )
            &&& c.cap == 0 ==> c.inserted(k) == c
        },
{
    if c.order.contains(k) {
        let at = c.order.index_of(k);
        assert(c.order[at] == k);
        lemma_without(c.order, k, at);
    }
}

proof fn lemma_without(order: Seq<ExpertKey>, k: ExpertKey, at: int)
    requires
        order.no_duplicates(),
        0 <= at < order.len(),
        order[at] == k,
    ensures
        order.remove(at) == order.filter(|o: ExpertKey| o != k),
    decreases order.len(),
{
    reveal(Seq::filter);
    let other = |o: ExpertKey| o != k;
    let init = order.drop_last();
    if at == order.len() - 1 {
        lemma_all_others(init, k);
        assert(order.remove(at) =~= init);
    } else {
        assert(init[at] == k);
        lemma_without(init, k, at);
        assert(order.last() != k);
        assert(order.remove(at) =~= init.remove(at).push(order.last()));
    }
}

proof fn lemma_all_others(s: Seq<ExpertKey>, k: ExpertKey)
    requires
        forall|i: int| 0 <= i < s.len() ==> #[trigger] s[i] != k,
    ensures
        s.filter(|o: ExpertKey| o != k) == s,
    decreases s.len(),
{
    reveal(Seq::filter);
    if s.len() > 0 {
        lemma_all_others(s.drop_last(), k);
        assert(s[s.len() - 1] != k);
        assert(s.drop_last().push(s.last()) =~= s);
    }
}

} // verus!
