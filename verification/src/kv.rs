//! The paged pool that sequences take their cache pages from.

use vstd::multiset::Multiset;
use vstd::prelude::*;
use vstd::string::StringExecFns;

use crate::error::{ErrorView, FtError};
use crate::seq::SeqId;
use crate::text;

verus! {

/// The number of tokens that one page holds.
pub const PAGE_TOKENS: usize = 16;

/// The pages of one sequence.
#[derive(Debug, Clone)]
pub struct SeqEntry {
    pub seq: SeqId,
    /// The pages the sequence occupies, in the order of its tokens.
    pub pages: Vec<u32>,
    pub num_tokens: usize,
}

/// The pages of one sequence as a mathematical value.
pub struct EntryView {
    pub seq: SeqId,
    pub pages: Seq<u32>,
    pub num_tokens: nat,
}

impl View for SeqEntry {
    type V = EntryView;

    open spec fn view(&self) -> EntryView {
        EntryView { seq: self.seq, pages: self.pages@, num_tokens: self.num_tokens as nat }
    }
}

/// How many pages a pool has and how many of them are in use.
#[derive(Debug, Clone, Copy, PartialEq, Eq, Structural)]
pub struct KvStats {
    pub total_pages: u32,
    pub used_pages: u32,
}

/// The number of pages that hold `tokens` tokens.
pub open spec fn pages_for(tokens: nat) -> nat {
    (tokens + 15) / 16
}

/// A pool of cache pages: pages are handed out, added to, given back, and found
/// again for a prompt seen before. Each pool says for itself what its operations do,
/// as a relation between the pool before, the pool after and the result.
pub trait KvPool: Sized + Send {
    /// What `allocate` does.
    spec fn allocate_post(
        pre: Self,
        seq: SeqId,
        num_tokens: nat,
        post: Self,
        r: Result<EntryView, ErrorView>,
    ) -> bool;

    /// What `extend` does to the pool and to the entry.
    spec fn extend_post(
        pre: Self,
        entry: EntryView,
        extra_tokens: nat,
        post: Self,
        after: EntryView,
        r: Result<(), ErrorView>,
    ) -> bool;

    /// What `free` does.
    spec fn free_post(pre: Self, entry: EntryView, post: Self) -> bool;

    /// What `match_prefix` returns.
    spec fn match_post(self, tokens: Seq<u32>, r: Option<(u32, nat)>) -> bool;

    /// When `stats` may be asked.
    spec fn stats_pre(self) -> bool;

    /// What `stats` returns.
    spec fn stats_post(self, r: KvStats) -> bool;

    /// Takes the pages for `num_tokens` tokens.
    fn allocate(&mut self, seq: SeqId, num_tokens: usize) -> (r: Result<SeqEntry, FtError>)
        ensures
            Self::allocate_post(*old(self), seq, num_tokens as nat, *final(self), entry_result(r)),
    ;

    /// Takes the pages that `extra_tokens` more tokens need.
    fn extend(&mut self, entry: &mut SeqEntry, extra_tokens: usize) -> (r: Result<(), FtError>)
        requires
            old(entry).num_tokens + extra_tokens <= usize::MAX,
        ensures
            Self::extend_post(
                *old(self),
                old(entry)@,
                extra_tokens as nat,
                *final(self),
                final(entry)@,
                unit_result(r),
            ),
    ;

    /// Gives the pages of an entry back.
    fn free(&mut self, entry: SeqEntry)
        ensures
            Self::free_post(*old(self), entry@, *final(self)),
    ;

    /// The number of pages that can be used again, and the number of tokens that match.
    fn match_prefix(&self, tokens: &[u32]) -> (r: Option<(u32, usize)>)
        ensures
            self.match_post(tokens@, match_result(r)),
    ;

    /// How many pages the pool has and how many of them are in use.
    fn stats(&self) -> (r: KvStats)
        requires
            self.stats_pre(),
        ensures
            self.stats_post(r),
    ;
}

/// The result of an allocation as a mathematical value.
pub open spec fn entry_result(r: Result<SeqEntry, FtError>) -> Result<EntryView, ErrorView> {
    match r {
        Ok(e) => Ok(e@),
        Err(e) => Err(e@),
    }
}

/// The result of an extension as a mathematical value.
pub open spec fn unit_result(r: Result<(), FtError>) -> Result<(), ErrorView> {
    match r {
        Ok(_) => Ok(()),
        Err(e) => Err(e@),
    }
}

/// The result of a prefix match as a mathematical value.
pub open spec fn match_result(r: Option<(u32, usize)>) -> Option<(u32, nat)> {
    match r {
        Some((p, n)) => Some((p, n as nat)),
        None => None,
    }
}

/// A pool that hands out single pages from a stack, and knows a prompt again only
/// when all of it is the same.
pub struct SimpleKvPool {
    total_pages: u32,
    free_pages: Vec<u32>,
    registry: Vec<(u64, Vec<u32>)>,
}

/// The state of a simple pool as a mathematical value.
pub struct PoolView {
    pub total: nat,
    /// The free pages; the last one is handed out first.
    pub free: Seq<u32>,
    /// The prompts that are known, by hash, with their pages.
    pub registry: Seq<(u64, Seq<u32>)>,
}

/// The sentence for a pool with fewer free pages than are needed.
pub open spec fn oom_text(need: nat, free: nat, total: nat) -> Seq<char> {
    "kv pool: need "@ + text::dec(need) + " pages, "@ + text::dec(free) + " free of "@ + text::dec(
        total,
    )
}

/// The hash of a prompt: FNV-1a over its tokens.
pub open spec fn token_hash(tokens: Seq<u32>) -> u64
    decreases tokens.len(),
{
    if tokens.len() == 0 {
        0xcbf29ce484222325
    } else {
        let h = token_hash(tokens.drop_last()) ^ (tokens.last() as u64);
        ((h * 0x100000001b3) % 0x1_0000_0000_0000_0000) as u64
    }
}

/// The first registered prompt with the given hash.
pub open spec fn first_match(registry: Seq<(u64, Seq<u32>)>, h: u64) -> Option<Seq<u32>>
    decreases registry.len(),
{
    if registry.len() == 0 {
        None
    } else if registry[0].0 == h {
        Some(registry[0].1)
    } else {
        first_match(registry.skip(1), h)
    }
}

impl View for SimpleKvPool {
    type V = PoolView;

    closed spec fn view(&self) -> PoolView {
        PoolView {
            total: self.total_pages as nat,
            free: self.free_pages@,
            registry: self.registry@.map_values(|e: (u64, Vec<u32>)| (e.0, e.1@)),
        }
    }
}

impl SimpleKvPool {
    /// A pool of `total_pages` pages, all of them free; page 0 is handed out first.
    pub fn new(total_pages: u32) -> (pool: Self)
        ensures
            pool@.total == total_pages,
            pool@.free == Seq::new(total_pages as nat, |i: int| (total_pages - 1 - i) as u32),
            pool@.registry == Seq::<(u64, Seq<u32>)>::empty(),
    {
        let mut free_pages: Vec<u32> = Vec::new();
        let mut p: u32 = total_pages;
        while p > 0
            invariant
                p <= total_pages,
                free_pages@ == Seq::new((total_pages - p) as nat, |i: int| (total_pages - 1 - i) as u32),
            decreases p,
        {
            p = p - 1;
            free_pages.push(p);
        }
        SimpleKvPool { total_pages, free_pages, registry: Vec::new() }
    }

    fn take_pages(&mut self, n: usize) -> (r: Result<Vec<u32>, FtError>)
        ensures
            final(self)@.total == old(self)@.total,
            final(self)@.registry == old(self)@.registry,
            match r {
                Ok(pages) => {
                    &&& n <= old(self)@.free.len()
                    &&& pages@ == old(self)@.free.skip(old(self)@.free.len() - n)
                    &&& final(self)@.free == old(self)@.free.take(old(self)@.free.len() - n)
                },
                Err(e) => {
                    &&& n > old(self)@.free.len()
                    &&& e@ == ErrorView::Oom(
                        oom_text(n as nat, old(self)@.free.len(), old(self)@.total),
                    )
                    &&& final(self)@.free == old(self)@.free
                },
            },
    {
        let have = self.free_pages.len();
        if n > have {
            let mut m = "kv pool: need ".to_owned();
            text::push_dec(&mut m, n as u64);
            m.append(" pages, ");
            text::push_dec(&mut m, have as u64);
            m.append(" free of ");
            text::push_dec(&mut m, self.total_pages as u64);
            return Err(FtError::Oom(m));
        }
        Ok(self.free_pages.split_off(have - n))
    }
}

fn hash_tokens(tokens: &[u32]) -> (h: u64)
    ensures
        h == token_hash(tokens@),
{
    let mut h: u64 = 0xcbf29ce484222325;
    for i in 0..tokens.len()
        invariant
            h == token_hash(tokens@.take(i as int)),
    {
        proof {
            assert(tokens@.take(i + 1).drop_last() =~= tokens@.take(i as int));
        }
        h = h ^ (tokens[i] as u64);
        h = h.wrapping_mul(0x100000001b3);
    }
    proof {
        assert(tokens@.take(tokens@.len() as int) =~= tokens@);
    }
    h
}

/// The number of pages that hold `tokens` tokens.
fn pages_needed(tokens: usize) -> (n: usize)
    ensures
        n == pages_for(tokens as nat),
{
    let full: usize = tokens / PAGE_TOKENS;
    if tokens % PAGE_TOKENS != 0 {
        full + 1
    } else {
        full
    }
}

impl KvPool for SimpleKvPool {
    /// The pages come from the end of the free list, all or none.
    open spec fn allocate_post(
        pre: Self,
        seq: SeqId,
        num_tokens: nat,
        post: Self,
        r: Result<EntryView, ErrorView>,
    ) -> bool {
        let need = pages_for(num_tokens);
        let have = pre@.free.len();
        if need <= have {
            &&& r == Ok::<EntryView, ErrorView>(
                EntryView { seq, pages: pre@.free.skip(have - need), num_tokens },
            )
            &&& post@ == PoolView { free: pre@.free.take(have - need), ..pre@ }
        } else {
            &&& r == Err::<EntryView, ErrorView>(
                ErrorView::Oom(oom_text(need, have, pre@.total)),
            )
            &&& post@ == pre@
        }
    }

    /// Missing pages are moved one by one from the end of the free list to the end
    /// of the entry. When they run out, those that were moved stay with the entry and
    /// its number of tokens is unchanged.
    open spec fn extend_post(
        pre: Self,
        entry: EntryView,
        extra_tokens: nat,
        post: Self,
        after: EntryView,
        r: Result<(), ErrorView>,
    ) -> bool {
        let total = entry.num_tokens + extra_tokens;
        let missing = missing_pages(entry, extra_tokens);
        let have = pre@.free.len();
        let moved = if missing <= have { missing } else { have };
        &&& post@ == PoolView { free: pre@.free.take(have - moved), ..pre@ }
        &&& after.seq == entry.seq
        &&& after.pages == entry.pages + pre@.free.skip(have - moved).reverse()
        &&& if missing <= have {
            &&& r == Ok::<(), ErrorView>(())
            &&& after.num_tokens == total
        } else {
            &&& r == Err::<(), ErrorView>(ErrorView::Oom(oom_text(1, 0, pre@.total)))
            &&& after.num_tokens == entry.num_tokens
        }
    }

    /// The pages go to the end of the free list.
    open spec fn free_post(pre: Self, entry: EntryView, post: Self) -> bool {
        post@ == PoolView { free: pre@.free + entry.pages, ..pre@ }
    }

    /// A prompt matches as a whole or not at all.
    open spec fn match_post(self, tokens: Seq<u32>, r: Option<(u32, nat)>) -> bool {
        match first_match(self@.registry, token_hash(tokens)) {
            Some(pages) => r == Some((pages.len() as u32, tokens.len())),
            None => r is None,
        }
    }

    /// No more pages are free than there are.
    open spec fn stats_pre(self) -> bool {
        self@.free.len() <= self@.total
    }

    open spec fn stats_post(self, r: KvStats) -> bool {
        &&& r.total_pages == self@.total
        &&& r.used_pages == self@.total - self@.free.len()
    }

    fn allocate(&mut self, seq: SeqId, num_tokens: usize) -> (r: Result<SeqEntry, FtError>) {
        let need = pages_needed(num_tokens);
        match self.take_pages(need) {
            Ok(pages) => Ok(SeqEntry { seq, pages, num_tokens }),
            Err(e) => Err(e),
        }
    }

    fn extend(&mut self, entry: &mut SeqEntry, extra_tokens: usize) -> (r: Result<(), FtError>) {
        let new_total: usize = entry.num_tokens + extra_tokens;
        let need = pages_needed(new_total);
        let ghost free0 = self@.free;
        let ghost pages0 = entry.pages@;
        let ghost mut moved: int = 0;
        proof {
            assert(free0.take(free0.len() as int) =~= free0);
            assert(pages0 + free0.skip(free0.len() as int).reverse() =~= pages0);
        }
        while entry.pages.len() < need
            invariant
                0 <= moved <= free0.len(),
                self@.total == old(self)@.total,
                self@.registry == old(self)@.registry,
                free0 == old(self)@.free,
                pages0 == old(entry).pages@,
                self@.free == free0.take(free0.len() - moved),
                entry.pages@ == pages0 + free0.skip(free0.len() - moved).reverse(),
                entry.seq == old(entry).seq,
                entry.num_tokens == old(entry).num_tokens,
                need == pages_for((old(entry).num_tokens + extra_tokens) as nat),
                pages0.len() + moved <= need || moved == 0,
            decreases need - entry.pages.len(),
        {
            match self.take_pages(1) {
                Ok(p) => {
                    let ghost at = free0.len() - moved - 1;
                    proof {
                        assert(p@ =~= seq![free0[at]]);
                        assert(free0.take(free0.len() - moved).take(at) =~= free0.take(at));
                        assert((pages0 + free0.skip(at + 1).reverse()) + p@ =~= pages0 + free0.skip(
                            at,
                        ).reverse());
                        moved = moved + 1;
                    }
                    entry.pages.extend_from_slice(p.as_slice());
                },
                Err(e) => {
                    return Err(e);
                },
            }
        }
        entry.num_tokens = new_total;
        Ok(())
    }

    fn free(&mut self, entry: SeqEntry) {
        let mut entry = entry;
        self.free_pages.append(&mut entry.pages);
    }

    fn match_prefix(&self, tokens: &[u32]) -> (r: Option<(u32, usize)>) {
        let h = hash_tokens(tokens);
        let ghost reg = self@.registry;
        proof {
            assert(reg.skip(0) =~= reg);
        }
        for i in 0..self.registry.len()
            invariant
                reg == self@.registry,
                h == token_hash(tokens@),
                first_match(reg, h) == first_match(reg.skip(i as int), h),
        {
            proof {
                assert(reg.skip(i as int).skip(1) =~= reg.skip(i + 1));
                assert(reg.skip(i as int)[0] == (self.registry@[i as int].0, self.registry@[i as int].1@));
            }
            if self.registry[i].0 == h {
                return Some((self.registry[i].1.len() as u32, tokens.len()));
            }
        }
        None
    }

    fn stats(&self) -> (r: KvStats) {
        KvStats {
            total_pages: self.total_pages,
            used_pages: self.total_pages - self.free_pages.len() as u32,
        }
    }
}

/// The pages an entry lacks for `extra_tokens` more tokens.
pub open spec fn missing_pages(entry: EntryView, extra_tokens: nat) -> nat {
    let need = pages_for(entry.num_tokens + extra_tokens);
    if entry.pages.len() < need {
        (need - entry.pages.len()) as nat
    } else {
        0
    }
}

/// All the pages that the given entries hold, each as often as it is held.
pub open spec fn held(entries: Seq<EntryView>) -> Multiset<u32>
    decreases entries.len(),
{
    if entries.len() == 0 {
        Multiset::empty()
    } else {
        held(entries.drop_last()).add(entries.last().pages.to_multiset())
    }
}

/// The free pages and the pages of the entries in use are together the pages
/// `0..total`, each of them once: nothing is lost and nothing is handed out twice.
pub open spec fn accounted(pool: PoolView, entries: Seq<EntryView>) -> bool {
    pool.free.to_multiset().add(held(entries)) == Seq::new(
        pool.total,
        |i: int| i as u32,
    ).to_multiset()
}

proof fn lemma_held_split(entries: Seq<EntryView>, i: int)
    requires
        0 <= i < entries.len(),
    ensures
        held(entries) == held(entries.remove(i)).add(entries[i].pages.to_multiset()),
    decreases entries.len(),
{
    let n = entries.len() - 1;
    if i == n {
        assert(entries.remove(i) =~= entries.drop_last());
    } else {
        lemma_held_split(entries.drop_last(), i);
        assert(entries.remove(i).drop_last() =~= entries.drop_last().remove(i));
        assert(entries.remove(i).last() == entries.last());
        assert(held(entries) =~= held(entries.remove(i)).add(entries[i].pages.to_multiset()));
    }
}

/// In a fresh pool every page is free.
pub proof fn law_new_accounted(pool: PoolView)
    requires
        pool.total <= u32::MAX,
        pool.free == Seq::new(pool.total, |i: int| (pool.total - 1 - i) as u32),
    ensures
        accounted(pool, Seq::empty()),
{
    let up = Seq::new(pool.total, |i: int| i as u32);
    assert(pool.free =~= up.reverse());
    up.lemma_reverse_to_multiset();
    assert(pool.free.to_multiset().add(held(Seq::empty())) =~= up.to_multiset());
}

/// An allocation that succeeds moves pages from the free ones to the new entry, and
/// one that fails moves none.
pub proof fn law_allocate_accounted(
    pre: SimpleKvPool,
    entries: Seq<EntryView>,
    seq: SeqId,
    num_tokens: nat,
    post: SimpleKvPool,
    r: Result<EntryView, ErrorView>,
)
    requires
        accounted(pre@, entries),
        SimpleKvPool::allocate_post(pre, seq, num_tokens, post, r),
    ensures
        match r {
            Ok(e) => accounted(post@, entries.push(e)),
            Err(_) => accounted(post@, entries),
        },
{
    if r is Ok {
        let e = r->Ok_0;
        let at = pre@.free.len() - pages_for(num_tokens);
        vstd::seq_lib::lemma_multiset_commutative(pre@.free.take(at), pre@.free.skip(at));
        assert(pre@.free.take(at) + pre@.free.skip(at) =~= pre@.free);
        assert(entries.push(e).drop_last() =~= entries);
        assert(post@.free.to_multiset().add(held(entries.push(e))) =~= pre@.free.to_multiset().add(
            held(entries),
        ));
    }
}

/// An extension moves pages from the free ones to the entry, whether it succeeds or not.
pub proof fn law_extend_accounted(
    pre: SimpleKvPool,
    entries: Seq<EntryView>,
    i: int,
    extra_tokens: nat,
    post: SimpleKvPool,
    after: EntryView,
    r: Result<(), ErrorView>,
)
    requires
        accounted(pre@, entries),
        0 <= i < entries.len(),
        SimpleKvPool::extend_post(pre, entries[i], extra_tokens, post, after, r),
    ensures
        accounted(post@, entries.update(i, after)),
{
    let missing = missing_pages(entries[i], extra_tokens);
    let have = pre@.free.len();
    let moved = if missing <= have { missing } else { have };
    let at = have - moved;
    let tail = pre@.free.skip(at);
    vstd::seq_lib::lemma_multiset_commutative(pre@.free.take(at), tail);
    assert(pre@.free.take(at) + tail =~= pre@.free);
    tail.lemma_reverse_to_multiset();
    vstd::seq_lib::lemma_multiset_commutative(entries[i].pages, tail.reverse());
    lemma_held_split(entries, i);
    lemma_held_split(entries.update(i, after), i);
    assert(entries.update(i, after).remove(i) =~= entries.remove(i));
    assert(post@.free.to_multiset().add(held(entries.update(i, after)))
        =~= pre@.free.to_multiset().add(held(entries)));
}

/// Freeing an entry gives all of its pages back.
pub proof fn law_free_accounted(pre: SimpleKvPool, entries: Seq<EntryView>, i: int, post: SimpleKvPool)
    requires
        accounted(pre@, entries),
        0 <= i < entries.len(),
        SimpleKvPool::free_post(pre, entries[i], post),
    ensures
        accounted(post@, entries.remove(i)),
{
    vstd::seq_lib::lemma_multiset_commutative(pre@.free, entries[i].pages);
    lemma_held_split(entries, i);
    assert(post@.free.to_multiset().add(held(entries.remove(i))) =~= pre@.free.to_multiset().add(
        held(entries),
    ));
}

/// Where every page is accounted for, the counts can be asked, a page in use is not
/// free, no two entries share a page and no entry holds a page twice.
pub proof fn law_pages_unshared(pool: SimpleKvPool, entries: Seq<EntryView>)
    requires
        accounted(pool@, entries),
        pool@.total <= u32::MAX,
    ensures
        pool.stats_pre(),
        pool@.free.no_duplicates(),
        forall|i: int| 0 <= i < entries.len() ==> #[trigger] entries[i].pages.no_duplicates(),
        forall|i: int, p: u32|
            0 <= i < entries.len() && #[trigger] entries[i].pages.contains(p) ==> p < pool@.total
                && !pool@.free.contains(p),
        forall|i: int, j: int, p: u32|
            0 <= i < j < entries.len() && #[trigger] entries[i].pages.contains(p)
                ==> !#[trigger] entries[j].pages.contains(p),
{
    broadcast use vstd::seq_lib::group_to_multiset_ensures;

    let all = Seq::new(pool@.total, |i: int| i as u32);
    let free = pool@.free.to_multiset();
    assert(all.no_duplicates()) by {
        assert forall|a: int, b: int| 0 <= a < all.len() && 0 <= b < all.len() && a != b implies all[a]
            != all[b] by {
            assert(all[a] as int == a && all[b] as int == b);
        }
    }
    all.lemma_multiset_has_no_duplicates();
    assert forall|p: u32| #[trigger] free.count(p) + held(entries).count(p) <= 1 by {
        assert(free.add(held(entries)).count(p) == free.count(p) + held(entries).count(p));
    }
    assert(free.len() + held(entries).len() == all.to_multiset().len());
    assert forall|x: u32| pool@.free.to_multiset().contains(x) implies pool@.free.to_multiset().count(x)
        == 1 by {
        assert(free.count(x) + held(entries).count(x) <= 1);
    }
    pool@.free.lemma_multiset_has_no_duplicates_conv();
    assert forall|i: int| 0 <= i < entries.len() implies #[trigger] entries[i].pages.no_duplicates() by {
        lemma_held_split(entries, i);
        let ms = entries[i].pages.to_multiset();
        assert forall|x: u32| ms.contains(x) implies ms.count(x) == 1 by {
            assert(free.count(x) + held(entries).count(x) <= 1);
        }
        entries[i].pages.lemma_multiset_has_no_duplicates_conv();
    }
    assert forall|i: int, p: u32|
        0 <= i < entries.len() && #[trigger] entries[i].pages.contains(p) implies p < pool@.total
        && !pool@.free.contains(p) by {
        lemma_held_split(entries, i);
        assert(entries[i].pages.to_multiset().count(p) > 0);
        assert(free.count(p) + held(entries).count(p) <= 1);
        assert(free.add(held(entries)).count(p) > 0);
        assert(all.contains(p));
    }
    assert forall|i: int, j: int, p: u32|
        0 <= i < j < entries.len() && #[trigger] entries[i].pages.contains(
            p,
        ) implies !#[trigger] entries[j].pages.contains(p) by {
        lemma_held_split(entries, i);
        lemma_held_split(entries.remove(i), j - 1);
        assert(entries.remove(i)[j - 1] == entries[j]);
        assert(entries[i].pages.to_multiset().count(p) > 0);
        assert(free.count(p) + held(entries).count(p) <= 1);
        if entries[j].pages.contains(p) {
            assert(entries[j].pages.to_multiset().count(p) > 0);
        }
    }
}

/// What was allocated and freed again leaves the pool as it was.
pub proof fn law_allocate_free(
    pre: SimpleKvPool,
    seq: SeqId,
    num_tokens: nat,
    mid: SimpleKvPool,
    e: EntryView,
    post: SimpleKvPool,
)
    requires
        SimpleKvPool::allocate_post(pre, seq, num_tokens, mid, Ok(e)),
        SimpleKvPool::free_post(mid, e, post),
    ensures
        post@ == pre@,
{
    let at = pre@.free.len() - pages_for(num_tokens);
    assert(pre@.free.take(at) + pre@.free.skip(at) =~= pre@.free);
}

/// An allocation succeeds exactly when there are as many free pages as its tokens need, and
/// then takes the least number of pages that holds them; else it takes none.
pub proof fn law_allocate_takes_least(
    pre: SimpleKvPool,
    seq: SeqId,
    num_tokens: nat,
    post: SimpleKvPool,
    r: Result<EntryView, ErrorView>,
)
    requires
        SimpleKvPool::allocate_post(pre, seq, num_tokens, post, r),
    ensures
        r is Ok <==> 16 * pre@.free.len() >= num_tokens,
        post@.total == pre@.total,
        post@.registry == pre@.registry,
        match r {
            Ok(e) => {
                &&& e.seq == seq
                &&& e.num_tokens == num_tokens
                &&& 16 * e.pages.len() >= num_tokens
                &&& e.pages.len() == 0 || 16 * (e.pages.len() - 1) < num_tokens
                &&& post@.free + e.pages == pre@.free
            },
            Err(e) => {
                &&& post@.free == pre@.free
                &&& e == ErrorView::Oom(
                    "kv pool: need "@ + text::dec((num_tokens + 15) / 16) + " pages, "@ + text::dec(
                        pre@.free.len(),
                    ) + " free of "@ + text::dec(pre@.total),
                )
            },
        },
{
    if r is Ok {
        let at = pre@.free.len() - pages_for(num_tokens);
        assert(pre@.free.take(at) + pre@.free.skip(at) =~= pre@.free);
    }
}

/// An extension takes only pages that the entry lacks: after one that succeeds the entry has
/// the pages that it had, and no more than these, or the least number of pages that holds the
/// tokens that it then has. It succeeds exactly when the pages that it lacks are free, and
/// keeps those that the entry had in their places. One that fails takes all pages that are
/// free.
pub proof fn law_extend_takes_least(
    pre: SimpleKvPool,
    entry: EntryView,
    extra_tokens: nat,
    post: SimpleKvPool,
    after: EntryView,
    r: Result<(), ErrorView>,
)
    requires
        SimpleKvPool::extend_post(pre, entry, extra_tokens, post, after, r),
    ensures
        r is Ok <==> 16 * (entry.pages.len() + pre@.free.len()) >= entry.num_tokens + extra_tokens,
        after.seq == entry.seq,
        after.pages.take(entry.pages.len() as int) == entry.pages,
        after.pages.len() - entry.pages.len() == pre@.free.len() - post@.free.len(),
        post@.total == pre@.total,
        post@.registry == pre@.registry,
        r is Ok ==> {
            &&& after.num_tokens == entry.num_tokens + extra_tokens
            &&& 16 * after.pages.len() >= entry.num_tokens + extra_tokens
            &&& after.pages.len() == entry.pages.len() || 16 * (after.pages.len() - 1)
                < entry.num_tokens + extra_tokens
        },
        r is Err ==> {
            &&& after.num_tokens == entry.num_tokens
            &&& post@.free.len() == 0
            &&& r->Err_0 == ErrorView::Oom(
                "kv pool: need "@ + text::dec(1) + " pages, "@ + text::dec(0) + " free of "@
                    + text::dec(pre@.total),
            )
        },
        post@.free == pre@.free.take(post@.free.len() as int),
        forall|k: int|
            0 <= k < after.pages.len() - entry.pages.len() ==> after.pages[entry.pages.len() + k]
                == #[trigger] pre@.free[pre@.free.len() - 1 - k],
{
    assert(after.pages.take(entry.pages.len() as int) =~= entry.pages);
}

/// Taking pages for `n` tokens and then for `k` more takes as many as taking them for `n + k`
/// tokens at once, and succeeds in the same pools.
pub proof fn law_extend_as_allocate(
    pre: SimpleKvPool,
    seq: SeqId,
    n: nat,
    k: nat,
    mid: SimpleKvPool,
    e: EntryView,
    post: SimpleKvPool,
    after: EntryView,
    r: Result<(), ErrorView>,
    other: SimpleKvPool,
    whole: Result<EntryView, ErrorView>,
)
    requires
        SimpleKvPool::allocate_post(pre, seq, n, mid, Ok(e)),
        SimpleKvPool::extend_post(mid, e, k, post, after, r),
        SimpleKvPool::allocate_post(pre, seq, n + k, other, whole),
    ensures
        r is Ok <==> whole is Ok,
        r is Ok ==> after.pages.len() == whole->Ok_0.pages.len() && after.num_tokens
            == whole->Ok_0.num_tokens && post@.free == other@.free,
{
    law_allocate_takes_least(pre, seq, n, mid, Ok(e));
    law_allocate_takes_least(pre, seq, n + k, other, whole);
    law_extend_takes_least(mid, e, k, post, after, r);
    if r is Ok {
        assert(post@.free =~= other@.free);
    }
}

/// The pages in use are those that were taken and not given back: the counts of a pool go
/// up and down by the pages of the entries.
pub proof fn law_used_pages(
    pre: SimpleKvPool,
    entry: EntryView,
    post: SimpleKvPool,
    before: KvStats,
    now: KvStats,
)
    requires
        SimpleKvPool::free_post(pre, entry, post),
        pre.stats_post(before),
        post.stats_post(now),
    ensures
        now.total_pages == before.total_pages,
        now.used_pages == before.used_pages - entry.pages.len(),
        post@.free == pre@.free + entry.pages,
        post@.registry == pre@.registry,
{
}

/// The hash of no tokens is fixed. One more token is joined to the hash by exclusive or, and
/// the result multiplied by a prime, modulo 2^64.
pub proof fn law_token_hash(tokens: Seq<u32>, t: u32)
    ensures
        token_hash(seq![]) == 0xcbf29ce484222325,
        token_hash(tokens.push(t)) == ((token_hash(tokens) ^ (t as u64)) * 0x100000001b3)
            % 0x1_0000_0000_0000_0000,
{
    assert(tokens.push(t).drop_last() =~= tokens);
}

/// A prompt matches exactly if one with its hash is known; it then matches with all of its
/// tokens, and with the pages of the first that is known with the hash.
pub proof fn law_match(pool: SimpleKvPool, tokens: Seq<u32>, r: Option<(u32, nat)>)
    requires
        pool.match_post(tokens, r),
    ensures
        match r {
            Some((pages, n)) => n == tokens.len() && exists|i: int|
                0 <= i < pool@.registry.len() && (#[trigger] pool@.registry[i]).0 == token_hash(
                    tokens,
                ) && pages == pool@.registry[i].1.len() as u32 && forall|j: int|
                    0 <= j < i ==> (#[trigger] pool@.registry[j]).0 != token_hash(tokens),
            None => forall|i: int|
                0 <= i < pool@.registry.len() ==> (#[trigger] pool@.registry[i]).0 != token_hash(
                    tokens,
                ),
        },
{
    lemma_first_match(pool@.registry, token_hash(tokens));
}

proof fn lemma_first_match(registry: Seq<(u64, Seq<u32>)>, h: u64)
    ensures
        match first_match(registry, h) {
            Some(pages) => exists|i: int|
                0 <= i < registry.len() && #[trigger] registry[i] == (h, pages) && forall|j: int|
                    0 <= j < i ==> (#[trigger] registry[j]).0 != h,
            None => forall|i: int| 0 <= i < registry.len() ==> (#[trigger] registry[i]).0 != h,
        },
    decreases registry.len(),
{
    if registry.len() > 0 && registry[0].0 != h {
        let rest = registry.skip(1);
        lemma_first_match(rest, h);
        if first_match(rest, h) is Some {
            let pages = first_match(rest, h)->0;
            let i = choose|i: int|
                0 <= i < rest.len() && #[trigger] rest[i] == (h, pages) && forall|j: int|
                    0 <= j < i ==> (#[trigger] rest[j]).0 != h;
            assert(registry[i + 1] == (h, pages));
            assert forall|j: int| 0 <= j < i + 1 implies (#[trigger] registry[j]).0 != h by {
                if j > 0 {
                    assert(rest[j - 1] == registry[j]);
                }
            }
        } else {
            assert forall|j: int| 0 <= j < registry.len() implies (#[trigger] registry[j]).0 != h by {
                if j > 0 {
                    assert(rest[j - 1] == registry[j]);
                }
            }
        }
    } else if registry.len() > 0 {
        assert(registry[0] == (h, registry[0].1));
    }
}

/// The counts of a pool are all of its pages and those that are not free.
pub proof fn law_stats(pool: SimpleKvPool, r: KvStats)
    requires
        pool.stats_pre(),
        pool.stats_post(r),
    ensures
        r.total_pages == pool@.total,
        r.used_pages + pool@.free.len() == pool@.total,
{
}

} // verus!
