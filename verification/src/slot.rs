//! A table of slots whose handles carry a generation, so that a handle to a slot that
//! was given up is told apart from a handle to what the slot holds now.

use vstd::prelude::*;
use vstd::string::StringExecFns;

use crate::error::{ErrorView, FtError};
use crate::text;

verus! {

/// A slot and the generation of what was put into it.
#[derive(Debug, Clone, Copy, PartialEq, Eq, Hash, Structural)]
pub struct Handle {
    pub index: u32,
    pub gen: u32,
}

/// A table of slots. A slot keeps its generation when its value is taken out.
#[derive(Debug)]
pub struct SlotTable<T> {
    entries: Vec<Option<T>>,
    gens: Vec<u32>,
    free: Vec<u32>,
    live: usize,
}

/// A table as a mathematical value.
pub struct SlotView<T> {
    /// What each slot holds.
    pub entries: Seq<Option<T>>,
    /// How often each slot was filled, modulo 2^32.
    pub gens: Seq<u32>,
    /// The free slots; the last one is filled first.
    pub free: Seq<u32>,
    /// The number of slots in use.
    pub live: nat,
}

/// The number of slots that hold a value.
pub open spec fn filled<T>(entries: Seq<Option<T>>) -> nat
    decreases entries.len(),
{
    if entries.len() == 0 {
        0
    } else {
        filled(entries.drop_last()) + if entries.last() is Some {
            1nat
        } else {
            0nat
        }
    }
}

impl<T> SlotView<T> {
    /// The free slots are empty and listed once, the slots in use are counted, and
    /// together they are all slots that a handle can name.
    pub open spec fn wf(self) -> bool {
        &&& self.gens.len() == self.entries.len()
        &&& self.entries.len() <= usize::MAX
        &&& self.free.no_duplicates()
        &&& forall|i: int|
            0 <= i < self.free.len() ==> {
                let s = #[trigger] self.free[i];
                s < self.entries.len() && self.entries[s as int] is None
            }
        &&& self.live == filled(self.entries)
        &&& self.live + self.free.len() == self.entries.len() as u32
    }

    /// Whether a handle names what its slot holds.
    pub open spec fn valid(self, h: Handle) -> bool {
        &&& h.index < self.entries.len()
        &&& self.entries[h.index as int] is Some
        &&& self.gens[h.index as int] == h.gen
    }

    /// The error for a handle that is not valid.
    pub open spec fn stale(self, h: Handle) -> ErrorView {
        ErrorView::StaleHandle {
            handle: h.gen,
            current: if h.index < self.entries.len() {
                self.gens[h.index as int]
            } else {
                0
            },
        }
    }
}

/// The sentence for a table without a free slot.
pub open spec fn full_text(capacity: nat) -> Seq<char> {
    "slot table full ("@ + text::dec(capacity) + ")"@
}

/// What a successful `insert` does: the last free slot is filled, in a new generation.
pub open spec fn insert_post<T>(pre: SlotView<T>, v: T, post: SlotView<T>, h: Handle) -> bool {
    &&& pre.free.len() > 0
    &&& h.index == pre.free.last()
    &&& h.gen == (pre.gens[h.index as int] + 1) % 0x1_0000_0000
    &&& post == (SlotView {
        entries: pre.entries.update(h.index as int, Some(v)),
        gens: pre.gens.update(h.index as int, h.gen),
        free: pre.free.drop_last(),
        live: pre.live + 1,
    })
}

/// What a successful `remove` does: the slot is emptied and is the next to be filled.
pub open spec fn remove_post<T>(pre: SlotView<T>, h: Handle, post: SlotView<T>, v: T) -> bool {
    &&& pre.valid(h)
    &&& pre.entries[h.index as int] == Some(v)
    &&& post == (SlotView {
        entries: pre.entries.update(h.index as int, None),
        gens: pre.gens,
        free: pre.free.push(h.index),
        live: (pre.live - 1) as nat,
    })
}

/// What writing through a handle does: the slot holds another value.
pub open spec fn write_post<T>(pre: SlotView<T>, h: Handle, post: SlotView<T>, v: T) -> bool {
    &&& pre.valid(h)
    &&& post == (SlotView { entries: pre.entries.update(h.index as int, Some(v)), ..pre })
}

impl<T> View for SlotTable<T> {
    type V = SlotView<T>;

    closed spec fn view(&self) -> SlotView<T> {
        SlotView {
            entries: self.entries@,
            gens: self.gens@,
            free: self.free@,
            live: self.live as nat,
        }
    }
}

proof fn lemma_filled_update<T>(entries: Seq<Option<T>>, i: int, v: Option<T>)
    requires
        0 <= i < entries.len(),
    ensures
        filled(entries.update(i, v)) + (if entries[i] is Some {
            1int
        } else {
            0
        }) == filled(entries) + (if v is Some {
            1int
        } else {
            0
        }),
    decreases entries.len(),
{
    let e2 = entries.update(i, v);
    if i == entries.len() - 1 {
        assert(e2.drop_last() =~= entries.drop_last());
    } else {
        lemma_filled_update(entries.drop_last(), i, v);
        assert(e2.drop_last() =~= entries.drop_last().update(i, v));
    }
}

proof fn lemma_filled_none<T>(entries: Seq<Option<T>>)
    requires
        forall|i: int| 0 <= i < entries.len() ==> #[trigger] entries[i] is None,
    ensures
        filled(entries) == 0,
    decreases entries.len(),
{
    if entries.len() > 0 {
        lemma_filled_none(entries.drop_last());
    }
}

/// A table that is well-formed stays so when a slot is filled.
pub proof fn lemma_insert_wf<T>(pre: SlotView<T>, v: T, post: SlotView<T>, h: Handle)
    requires
        pre.wf(),
        insert_post(pre, v, post, h),
    ensures
        post.wf(),
        post.valid(h),
{
    let k = pre.free.len() - 1;
    assert(pre.free[k] == h.index);
    lemma_filled_update(pre.entries, h.index as int, Some(v));
    assert forall|i: int| 0 <= i < post.free.len() implies {
        let s = #[trigger] post.free[i];
        s < post.entries.len() && post.entries[s as int] is None
    } by {
        assert(pre.free[i] != pre.free[k]);
    }
}

/// A table that is well-formed stays so when a slot is emptied.
pub proof fn lemma_remove_wf<T>(pre: SlotView<T>, h: Handle, post: SlotView<T>, v: T)
    requires
        pre.wf(),
        remove_post(pre, h, post, v),
    ensures
        post.wf(),
        pre.live >= 1,
{
    lemma_filled_update(pre.entries, h.index as int, None);
    assert forall|i: int| 0 <= i < pre.free.len() implies #[trigger] pre.free[i] != h.index by {
        assert(pre.entries[pre.free[i] as int] is None);
    }
    assert forall|i: int| 0 <= i < post.free.len() implies {
        let s = #[trigger] post.free[i];
        s < post.entries.len() && post.entries[s as int] is None
    } by {
        if i < pre.free.len() {
            assert(pre.free[i] < pre.entries.len());
        }
    }
}

/// A table that is well-formed stays so when a value is replaced.
pub proof fn lemma_write_wf<T>(pre: SlotView<T>, h: Handle, post: SlotView<T>, v: T)
    requires
        pre.wf(),
        write_post(pre, h, post, v),
    ensures
        post.wf(),
{
    lemma_filled_update(pre.entries, h.index as int, Some(v));
    assert forall|i: int| 0 <= i < post.free.len() implies {
        let s = #[trigger] post.free[i];
        s < post.entries.len() && post.entries[s as int] is None
    } by {
        assert(pre.entries[pre.free[i] as int] is None);
    }
}

impl<T> SlotTable<T> {
    /// A table of `cap` empty slots; slot 0 is filled first.
    pub fn with_capacity(cap: usize) -> (t: Self)
        ensures
            t@.wf(),
            t@.entries == Seq::new(cap as nat, |i: int| None::<T>),
            t@.gens == Seq::new(cap as nat, |i: int| 0u32),
            t@.free == Seq::new(
                (cap as u32) as nat,
                |i: int| (cap as u32 - 1 - i) as u32,
            ),
            t@.live == 0,
    {
        let mut entries: Vec<Option<T>> = Vec::new();
        let mut gens: Vec<u32> = Vec::new();
        for i in 0..cap
            invariant
                entries@ == Seq::new(i as nat, |k: int| None::<T>),
                gens@ == Seq::new(i as nat, |k: int| 0u32),
        {
            entries.push(None);
            gens.push(0);
        }
        let top: u32 = #[verifier::truncate] (cap as u32);
        let mut free: Vec<u32> = Vec::new();
        let mut p: u32 = top;
        while p > 0
            invariant
                p <= top,
                top == cap as u32,
                free@ == Seq::new((top - p) as nat, |i: int| (top - 1 - i) as u32),
            decreases p,
        {
            p = p - 1;
            free.push(p);
        }
        let t = SlotTable { entries, gens, free, live: 0 };
        proof {
            lemma_filled_none(t@.entries);
            assert(cap as u32 <= cap) by (bit_vector);
            assert(t@.free.no_duplicates());
        }
        t
    }

    /// The number of slots in use.
    pub fn len(&self) -> (n: usize)
        ensures
            n == self@.live,
    {
        self.live
    }

    /// Whether no slot is in use.
    pub fn is_empty(&self) -> (b: bool)
        ensures
            b == (self@.live == 0),
    {
        self.live == 0
    }

    /// The number of slots.
    pub fn capacity(&self) -> (n: usize)
        ensures
            n == self@.entries.len(),
    {
        self.entries.len()
    }

    /// The number of slots that can still be filled.
    pub fn remaining(&self) -> (n: usize)
        ensures
            n == self@.free.len(),
    {
        self.free.len()
    }

    /// Puts a value into a free slot; fails when there is none.
    pub fn insert(&mut self, v: T) -> (r: Result<Handle, FtError>)
        requires
            old(self)@.wf(),
        ensures
            final(self)@.wf(),
            match r {
                Ok(h) => insert_post(old(self)@, v, final(self)@, h),
                Err(e) => {
                    &&& old(self)@.free.len() == 0
                    &&& e@ == ErrorView::Oom(full_text(old(self)@.entries.len()))
                    &&& e@ == ErrorView::Oom(
                        "slot table full ("@ + text::dec(old(self)@.entries.len()) + ")"@,
                    )
                    &&& final(self)@ == old(self)@
                },
            },
    {
        let ghost pre = self@;
        match self.free.pop() {
            None => {
                let mut m = "slot table full (".to_owned();
                text::push_dec(&mut m, self.entries.len() as u64);
                m.append(")");
                Err(FtError::Oom(m))
            },
            Some(idx) => {
                let i = idx as usize;
                proof {
                    assert(pre.free[pre.free.len() - 1] == idx);
                    assert(pre.live + 1 <= u32::MAX);
                }
                let gen: u32 = self.gens[i].wrapping_add(1);
                self.gens[i] = gen;
                self.entries[i] = Some(v);
                self.live = self.live + 1;
                let h = Handle { index: idx, gen };
                proof {
                    lemma_insert_wf(pre, v, self@, h);
                }
                Ok(h)
            },
        }
    }

    fn check(&self, h: Handle) -> (r: Result<(), FtError>)
        requires
            self@.wf(),
        ensures
            match r {
                Ok(_) => self@.valid(h),
                Err(e) => !self@.valid(h) && e@ == self@.stale(h),
            },
    {
        let i = h.index as usize;
        if i < self.entries.len() {
            if self.entries[i].is_none() || self.gens[i] != h.gen {
                Err(FtError::StaleHandle { handle: h.gen, current: self.gens[i] })
            } else {
                Ok(())
            }
        } else {
            Err(FtError::StaleHandle { handle: h.gen, current: 0 })
        }
    }

    /// What the slot of a handle holds; fails for a handle that is not valid.
    pub fn get(&self, h: Handle) -> (r: Result<&T, FtError>)
        requires
            self@.wf(),
        ensures
            match r {
                Ok(v) => self@.valid(h) && self@.entries[h.index as int] == Some(*v),
                Err(e) => !self@.valid(h) && e@ == self@.stale(h),
            },
    {
        match self.check(h) {
            Ok(_) => Ok(self.entries[h.index as usize].as_ref().unwrap()),
            Err(e) => Err(e),
        }
    }

    /// What the slot of a handle holds, to be changed; fails for a handle that is not
    /// valid.
    pub fn get_mut(&mut self, h: Handle) -> (r: Result<&mut T, FtError>)
        requires
            old(self)@.wf(),
        ensures
            match r {
                Ok(v) => {
                    &&& old(self)@.valid(h)
                    &&& old(self)@.entries[h.index as int] == Some(*v)
                    &&& write_post(old(self)@, h, final(self)@, *final(v))
                    &&& final(self)@.wf()
                },
                Err(e) => {
                    &&& !old(self)@.valid(h)
                    &&& e@ == old(self)@.stale(h)
                    &&& final(self)@ == old(self)@
                },
            },
    {
        match self.check(h) {
            Ok(_) => {
                proof {
                    assert forall|x: T|
                        SlotView { entries: #[trigger] self@.entries.update(h.index as int, Some(x)), ..self@ }.wf() by {
                        lemma_write_wf(
                            self@,
                            h,
                            SlotView { entries: self@.entries.update(h.index as int, Some(x)), ..self@ },
                            x,
                        );
                    }
                }
                Ok(self.entries[h.index as usize].as_mut().unwrap())
            },
            Err(e) => Err(e),
        }
    }

    /// Takes the value out of the slot of a handle; fails for a handle that is not valid.
    pub fn remove(&mut self, h: Handle) -> (r: Result<T, FtError>)
        requires
            old(self)@.wf(),
        ensures
            final(self)@.wf(),
            match r {
                Ok(v) => remove_post(old(self)@, h, final(self)@, v),
                Err(e) => {
                    &&& !old(self)@.valid(h)
                    &&& e@ == old(self)@.stale(h)
                    &&& final(self)@ == old(self)@
                },
            },
    {
        let ghost pre = self@;
        match self.check(h) {
            Err(e) => Err(e),
            Ok(_) => {
                let v = self.entries[h.index as usize].take().unwrap();
                proof {
                    lemma_remove_wf(
                        pre,
                        h,
                        SlotView {
                            entries: pre.entries.update(h.index as int, None),
                            gens: pre.gens,
                            free: pre.free.push(h.index),
                            live: (pre.live - 1) as nat,
                        },
                        v,
                    );
                }
                self.live = self.live - 1;
                self.free.push(h.index);
                Ok(v)
            },
        }
    }
}

/// What was inserted is found under its handle, and no other handle loses or gains
/// anything.
pub proof fn law_insert_then_get<T>(pre: SlotView<T>, v: T, post: SlotView<T>, h: Handle)
    requires
        pre.wf(),
        insert_post(pre, v, post, h),
    ensures
        !pre.valid(h),
        post.valid(h),
        post.entries[h.index as int] == Some(v),
        forall|o: Handle|
            o != h ==> (#[trigger] post.valid(o) <==> pre.valid(o)) && (pre.valid(o)
                ==> post.entries[o.index as int] == pre.entries[o.index as int]),
{
    let k = pre.free.len() - 1;
    assert(pre.free[k] == h.index);
    assert(pre.entries[h.index as int] is None);
}

/// A handle is no longer valid once its value was taken out, and every other handle
/// is as it was.
pub proof fn law_removed_is_stale<T>(pre: SlotView<T>, h: Handle, post: SlotView<T>, v: T)
    requires
        pre.wf(),
        remove_post(pre, h, post, v),
    ensures
        !post.valid(h),
        forall|o: Handle|
            o != h ==> (#[trigger] post.valid(o) <==> pre.valid(o)) && (pre.valid(o)
                ==> post.entries[o.index as int] == pre.entries[o.index as int]),
{
    assert forall|o: Handle| o != h implies (#[trigger] post.valid(o) <==> pre.valid(o)) && (pre.valid(o)
        ==> post.entries[o.index as int] == pre.entries[o.index as int]) by {
        if o.index == h.index {
            assert(o.gen != h.gen);
        }
    }
}

/// The number of slots in use and of those that can still be filled is always the same,
/// and up to the largest slot number it is the capacity.
pub proof fn law_slots_conserved<T>(v: SlotView<T>)
    requires
        v.wf(),
    ensures
        v.live + v.free.len() == v.entries.len() as u32,
        v.entries.len() <= u32::MAX ==> v.live + v.free.len() == v.entries.len(),
{
}

/// One operation on a table.
pub open spec fn changed<T>(a: SlotView<T>, b: SlotView<T>) -> bool {
    ||| a == b
    ||| exists|v: T, h: Handle| #[trigger] insert_post(a, v, b, h)
    ||| exists|v: T, h: Handle| #[trigger] remove_post(a, h, b, v)
    ||| exists|v: T, h: Handle| #[trigger] write_post(a, h, b, v)
}

/// Every state comes from the one before it by one operation.
pub open spec fn history<T>(states: Seq<SlotView<T>>) -> bool {
    &&& states.len() > 0
    &&& states[0].wf()
    &&& forall|i: int| 0 <= i < states.len() - 1 ==> #[trigger] changed(states[i], states[i + 1])
}

/// How often a slot was filled in the first `k` operations.
pub open spec fn fills<T>(states: Seq<SlotView<T>>, slot: u32, k: nat) -> nat
    decreases k,
{
    if k == 0 {
        0
    } else {
        fills(states, slot, (k - 1) as nat) + if fills_slot(states[k - 1], states[k as int], slot) {
            1nat
        } else {
            0nat
        }
    }
}

/// Whether an operation fills a slot.
pub open spec fn fills_slot<T>(a: SlotView<T>, b: SlotView<T>, slot: u32) -> bool {
    exists|v: T, h: Handle| #[trigger] insert_post(a, v, b, h) && h.index == slot
}

/// A handle whose value was taken out stays invalid, whatever is done with the table, until
/// its slot has been filled 2^32 times; and after that it is valid at most where the slot
/// has been filled a multiple of 2^32 times.
pub proof fn law_stale_stays_stale<T>(states: Seq<SlotView<T>>, h: Handle, k: nat)
    requires
        history(states),
        h.index < states[0].entries.len(),
        states[0].gens[h.index as int] == h.gen,
        states[0].entries[h.index as int] is None,
        k < states.len(),
    ensures
        fills(states, h.index, k) < 0x1_0000_0000 ==> !states[k as int].valid(h),
        states[k as int].valid(h) ==> fills(states, h.index, k) % 0x1_0000_0000 == 0,
{
    lemma_generation(states, h, k);
}

proof fn lemma_generation<T>(states: Seq<SlotView<T>>, h: Handle, k: nat)
    requires
        history(states),
        h.index < states[0].entries.len(),
        states[0].gens[h.index as int] == h.gen,
        states[0].entries[h.index as int] is None,
        k < states.len(),
    ensures
        states[k as int].wf(),
        states[k as int].entries.len() == states[0].entries.len(),
        states[k as int].gens[h.index as int] == (h.gen + fills(states, h.index, k))
            % 0x1_0000_0000,
        fills(states, h.index, k) == 0 ==> states[k as int].entries[h.index as int] is None,
    decreases k,
{
    if k > 0 {
        let p = (k - 1) as nat;
        lemma_generation(states, h, p);
        let a = states[p as int];
        let b = states[k as int];
        assert(changed(states[p as int], states[p as int + 1]));
        if exists|v: T, o: Handle| #[trigger] insert_post(a, v, b, o) {
            let (v, o) = choose|v: T, o: Handle| #[trigger] insert_post(a, v, b, o);
            lemma_insert_wf(a, v, b, o);
            assert(a.free[a.free.len() - 1] == o.index);
            assert(fills_slot(a, b, h.index) == (o.index == h.index));
        } else if exists|v: T, o: Handle| #[trigger] remove_post(a, o, b, v) {
            let (v, o) = choose|v: T, o: Handle| #[trigger] remove_post(a, o, b, v);
            lemma_remove_wf(a, o, b, v);
        } else if exists|v: T, o: Handle| #[trigger] write_post(a, o, b, v) {
            let (v, o) = choose|v: T, o: Handle| #[trigger] write_post(a, o, b, v);
            lemma_write_wf(a, o, b, v);
        }
    }
}

/// The slot that was emptied last is filled first, in the generation after that of the value
/// that it held; a slot keeps its generation while it is empty.
pub proof fn law_last_emptied_first_filled<T>(
    pre: SlotView<T>,
    h: Handle,
    mid: SlotView<T>,
    v: T,
    w: T,
    post: SlotView<T>,
    k: Handle,
)
    requires
        pre.wf(),
        remove_post(pre, h, mid, v),
        insert_post(mid, w, post, k),
    ensures
        pre.entries[h.index as int] == Some(v),
        k.index == h.index,
        k.gen == (h.gen + 1) % 0x1_0000_0000,
        post.entries == pre.entries.update(h.index as int, Some(w)),
        post.free == pre.free,
        post.live == pre.live,
        mid.live == pre.live - 1,
        mid.free.len() == pre.free.len() + 1,
{
    lemma_remove_wf(pre, h, mid, v);
    assert(mid.free.drop_last() =~= pre.free);
    assert(post.entries =~= pre.entries.update(h.index as int, Some(w)));
}

/// A handle is valid exactly if its slot is in use in the generation of the handle. The error
/// for another names its generation and that of the slot, or 0 where there is no such slot.
pub proof fn law_valid<T>(v: SlotView<T>, h: Handle)
    ensures
        v.valid(h) <==> h.index < v.entries.len() && v.entries[h.index as int] is Some
            && v.gens[h.index as int] == h.gen,
        h.index < v.entries.len() ==> v.stale(h) == (ErrorView::StaleHandle {
            handle: h.gen,
            current: v.gens[h.index as int],
        }),
        h.index >= v.entries.len() ==> v.stale(h) == (ErrorView::StaleHandle {
            handle: h.gen,
            current: 0,
        }),
{
}

/// Writing through a handle changes what its slot holds and nothing else.
pub proof fn law_written<T>(pre: SlotView<T>, h: Handle, post: SlotView<T>, v: T)
    requires
        pre.wf(),
        write_post(pre, h, post, v),
    ensures
        post.valid(h),
        post.entries[h.index as int] == Some(v),
        post.gens == pre.gens,
        post.free == pre.free,
        post.live == pre.live,
        forall|o: Handle|
            o != h ==> (#[trigger] post.valid(o) <==> pre.valid(o)) && (pre.valid(o)
                ==> post.entries[o.index as int] == pre.entries[o.index as int]),
{
}

/// The slots in use are those that hold a value.
pub proof fn law_live<T>(v: SlotView<T>)
    requires
        v.wf(),
    ensures
        v.live == v.entries.filter(|e: Option<T>| e is Some).len(),
{
    lemma_filled_filter(v.entries);
}

proof fn lemma_filled_filter<T>(entries: Seq<Option<T>>)
    ensures
        filled(entries) == entries.filter(|e: Option<T>| e is Some).len(),
    decreases entries.len(),
{
    reveal(Seq::filter);
    if entries.len() > 0 {
        lemma_filled_filter(entries.drop_last());
    }
}

} // verus!
