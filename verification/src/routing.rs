//! Chooses the experts of a token, and the routes and prompts of trial runs.

use vstd::prelude::*;

use crate::weights::{HEADS, KV_HEADS};

verus! {

/// A number by which 32-bit floating-point numbers are ordered, from their bits: the
/// magnitude, with the sign. The two zeros have the same.
pub open spec fn key_of(bits: u32) -> int {
    if bits < 0x8000_0000 {
        bits as int
    } else {
        -(bits - 0x8000_0000)
    }
}

/// A number by which 32-bit floating-point numbers are ordered, from their bits.
pub fn float_key(bits: u32) -> (k: i64)
    ensures
        k == key_of(bits),
{
    if bits < 0x8000_0000 {
        bits as i64
    } else {
        -((bits - 0x8000_0000) as i64)
    }
}

/// Whether place `a` comes before place `b`: it has the greater key, or the same and
/// stands further in front.
pub open spec fn ahead(keys: Seq<i64>, a: int, b: int) -> bool {
    keys[a] > keys[b] || (keys[a] == keys[b] && a < b)
}

/// `r` are the places of the `k` greatest keys, the greatest first, and of equal ones
/// those further in front.
pub open spec fn are_top(keys: Seq<i64>, k: nat, r: Seq<usize>) -> bool {
    &&& r.len() == k
    &&& forall|i: int| 0 <= i < k ==> 0 <= #[trigger] r[i] < keys.len()
    &&& forall|i: int, j: int|
        0 <= i < j < k ==> ahead(keys, #[trigger] r[i] as int, #[trigger] r[j] as int)
    &&& forall|i: int, x: usize|
        0 <= i < k && x < keys.len() && !r.contains(x) ==> #[trigger] ahead(
            keys,
            r[i] as int,
            x as int,
        )
}

/// The places of the `k` greatest keys, the greatest first.
pub fn top_k(keys: &[i64], k: usize) -> (r: Vec<usize>)
    requires
        k <= keys@.len(),
    ensures
        are_top(keys@, k as nat, r@),
{
    let mut order: Vec<usize> = Vec::new();
    for i in 0..keys.len()
        invariant
            are_top(keys@.take(i as int), i as nat, order@),
    {
        let ghost before = order@;
        let ghost some = keys@.take(i as int);
        let ghost more = keys@.take(i + 1);
        let mut at: usize = order.len();
        let mut stop: bool = false;
        while at > 0 && !stop
            invariant
                order@ == before,
                i < keys@.len(),
                some == keys@.take(i as int),
                are_top(some, i as nat, before),
                at <= before.len(),
                forall|j: int| at <= j < before.len() ==> keys@[#[trigger] before[j] as int]
                    < keys@[i as int],
                stop ==> at > 0 && keys@[before[at - 1] as int] >= keys@[i as int],
            decreases at + if stop {
                0int
            } else {
                1int
            },
        {
            if keys[order[at - 1]] < keys[i] {
                at = at - 1;
            } else {
                stop = true;
            }
        }
        order.insert(at, i);
        proof {
            let now = order@;
            assert(now =~= before.insert(at as int, i));
            assert forall|a: int, b: int| 0 <= a < b < now.len() implies ahead(
                more,
                #[trigger] now[a] as int,
                #[trigger] now[b] as int,
            ) by {
                let pa = if a < at {
                    a
                } else {
                    a - 1
                };
                let pb = if b < at {
                    b
                } else {
                    b - 1
                };
                if a == at {
                    assert(now[b] == before[pb]);
                } else if b == at {
                    assert(now[a] == before[pa]);
                    if a < at - 1 {
                        assert(ahead(some, before[a] as int, before[at - 1] as int));
                    }
                } else {
                    assert(now[a] == before[pa] && now[b] == before[pb]);
                    assert(ahead(some, before[pa] as int, before[pb] as int));
                }
            }
            assert forall|a: int| 0 <= a < now.len() implies 0 <= #[trigger] now[a] < more.len() by {
                if a < at {
                    assert(now[a] == before[a]);
                } else if a > at {
                    assert(now[a] == before[a - 1]);
                }
            }
            lemma_all_places(more, now);
        }
    }
    proof {
        assert(keys@.take(keys@.len() as int) =~= keys@);
    }
    let ghost all = order@;
    order.truncate(k);
    proof {
        let r = order@;
        assert(r =~= all.take(k as int));
        assert forall|i: int, x: usize|
            0 <= i < k && x < keys@.len() && !r.contains(x) implies #[trigger] ahead(
            keys@,
            r[i] as int,
            x as int,
        ) by {
            if all.contains(x) {
                let j = all.index_of(x);
                assert(all[j] == x);
                if j < k {
                    assert(r[j] == x);
                }
                assert(ahead(keys@, all[i] as int, all[j] as int));
            } else {
                assert(ahead(keys@, all[i] as int, x as int));
            }
        }
    }
    order
}

/// An order of as many different places as there are holds all of them.
proof fn lemma_all_places(keys: Seq<i64>, r: Seq<usize>)
    requires
        r.len() == keys.len(),
        forall|i: int| 0 <= i < r.len() ==> 0 <= #[trigger] r[i] < keys.len(),
        forall|i: int, j: int|
            0 <= i < j < r.len() ==> ahead(keys, #[trigger] r[i] as int, #[trigger] r[j] as int),
    ensures
        forall|x: usize| x < keys.len() ==> #[trigger] r.contains(x),
{
    assert(r.no_duplicates());
    r.unique_seq_to_set();
    let n = keys.len() as int;
    let mine = r.map_values(|x: usize| x as int);
    assert(mine.no_duplicates());
    mine.unique_seq_to_set();
    let range = vstd::set_lib::set_int_range(0, n);
    vstd::set_lib::lemma_int_range(0, n);
    assert(mine.to_set().subset_of(range)) by {
        assert forall|x: int| mine.to_set().contains(x) implies range.contains(x) by {
            let i = mine.index_of(x);
            assert(mine[i] == r[i] as int);
        }
    }
    vstd::set_lib::lemma_subset_equality(mine.to_set(), range);
    assert forall|x: usize| x < keys.len() implies #[trigger] r.contains(x) by {
        assert(range.contains(x as int));
        assert(mine.contains(x as int));
        let i = mine.index_of(x as int);
        assert(mine[i] == r[i] as int);
        assert(r[i] == x);
    }
}

/// There is only one choice of the greatest keys.
pub proof fn law_top_unique(keys: Seq<i64>, k: nat, a: Seq<usize>, b: Seq<usize>)
    requires
        are_top(keys, k, a),
        are_top(keys, k, b),
    ensures
        a == b,
{
    assert forall|i: int| 0 <= i < k implies a[i] == b[i] by {
        lemma_same_top(keys, k, a, b, i);
    }
    assert(a =~= b);
}

proof fn lemma_same_top(keys: Seq<i64>, k: nat, a: Seq<usize>, b: Seq<usize>, i: int)
    requires
        are_top(keys, k, a),
        are_top(keys, k, b),
        0 <= i < k,
    ensures
        forall|j: int| 0 <= j <= i ==> a[j] == b[j],
    decreases i,
{
    if i > 0 {
        lemma_same_top(keys, k, a, b, i - 1);
    }
    if a[i] != b[i] {
        lemma_not_later(keys, k, b, a, i);
        lemma_not_later(keys, k, a, b, i);
    }
}

proof fn lemma_not_later(keys: Seq<i64>, k: nat, a: Seq<usize>, b: Seq<usize>, i: int)
    requires
        are_top(keys, k, a),
        are_top(keys, k, b),
        0 <= i < k,
        forall|j: int| 0 <= j < i ==> a[j] == b[j],
    ensures
        !ahead(keys, b[i] as int, a[i] as int),
{
    let x = b[i];
    if a.contains(x) {
        let j = a.index_of(x);
        assert(a[j] == x);
        if j < i {
            assert(b[j] == x);
            assert(ahead(keys, b[j] as int, b[i] as int));
        } else if j > i {
            assert(ahead(keys, a[i] as int, a[j] as int));
        }
    } else {
        assert(ahead(keys, a[i] as int, x as int));
    }
}

/// The head of keys and values that a head of queries uses.
pub fn kv_head(head: usize) -> (h: usize)
    ensures
        h == head / 8,
        head < HEADS ==> h < KV_HEADS,
{
    head / (HEADS / KV_HEADS)
}

/// The token of a made-up prompt at place `t`.
pub open spec fn prompt_token(t: nat, vocab: nat) -> nat {
    (t * 17 + 3) % (if vocab <= 10000 {
        vocab
    } else {
        10000
    })
}

/// A made-up prompt.
pub fn prompt_tokens(len: usize, vocab: usize) -> (v: Vec<usize>)
    requires
        vocab > 0,
        (len - 1) * 17 + 3 <= usize::MAX,
    ensures
        v@ == Seq::new(len as nat, |t: int| prompt_token(t as nat, vocab as nat) as usize),
        vocab <= 10000 ==> v@ == Seq::new(
            len as nat,
            |t: int| ((t * 17 + 3) % vocab as int) as usize,
        ),
        vocab > 10000 ==> v@ == Seq::new(len as nat, |t: int| ((t * 17 + 3) % 10000) as usize),
{
    let m: usize = if vocab <= 10000 {
        vocab
    } else {
        10000
    };
    let mut v: Vec<usize> = Vec::new();
    for t in 0..len
        invariant
            vocab > 0,
            m == if vocab <= 10000 {
                vocab
            } else {
                10000
            },
            (len - 1) * 17 + 3 <= usize::MAX,
            v@ == Seq::new(t as nat, |i: int| prompt_token(i as nat, vocab as nat) as usize),
    {
        v.push((t * 17 + 3) % m);
    }
    v
}

/// The expert that a trial run begins with in a layer, at place `i`.
pub open spec fn first_route(layer: nat, i: nat, experts: nat) -> nat {
    (layer * 17 + i * 31) % experts
}

/// The experts that a trial run begins with.
pub fn first_routes(layers: usize, k: usize, experts: usize) -> (v: Vec<Vec<u32>>)
    requires
        0 < experts,
        (layers - 1) * 17 + (k - 1) * 31 <= usize::MAX,
    ensures
        v@.len() == layers,
        forall|l: int|
            0 <= l < layers ==> (#[trigger] v@[l])@ == Seq::new(
                k as nat,
                |i: int| first_route(l as nat, i as nat, experts as nat) as u32,
            ),
        forall|l: int|
            0 <= l < layers ==> (#[trigger] v@[l])@ == Seq::new(
                k as nat,
                |i: int| ((l * 17 + i * 31) % experts as int) as u32,
            ),
{
    let mut v: Vec<Vec<u32>> = Vec::new();
    for layer in 0..layers
        invariant
            0 < experts,
            (layers - 1) * 17 + (k - 1) * 31 <= usize::MAX,
            v@.len() == layer,
            forall|l: int|
                0 <= l < layer ==> (#[trigger] v@[l])@ == Seq::new(
                    k as nat,
                    |i: int| first_route(l as nat, i as nat, experts as nat) as u32,
                ),
    {
        let mut r: Vec<u32> = Vec::new();
        for i in 0..k
            invariant
                0 < experts,
                layer < layers,
                (layers - 1) * 17 + (k - 1) * 31 <= usize::MAX,
                r@ == Seq::new(
                    i as nat,
                    |j: int| first_route(layer as nat, j as nat, experts as nat) as u32,
                ),
        {
            r.push(#[verifier::truncate] (((layer * 17 + i * 31) % experts) as u32));
        }
        v.push(r);
    }
    v
}

/// The expert that takes the last place of a layer in a later step of a trial run.
pub fn next_route(layer: usize, step: usize, experts: usize) -> (e: u32)
    requires
        0 < experts,
        layer * 13 + step * 7 <= usize::MAX,
    ensures
        e == ((layer * 13 + step * 7) % experts as int) as u32,
{
    #[verifier::truncate]
    (((layer * 13 + step * 7) % experts) as u32)
}

/// The experts `0..experts`, over and over, `n` of them.
pub fn cyclic_experts(n: usize, experts: usize) -> (v: Vec<u32>)
    requires
        0 < experts,
    ensures
        v@ == Seq::new(n as nat, |i: int| (i % experts as int) as u32),
{
    let mut v: Vec<u32> = Vec::new();
    for i in 0..n
        invariant
            0 < experts,
            v@ == Seq::new(i as nat, |j: int| (j % experts as int) as u32),
    {
        v.push(#[verifier::truncate] ((i % experts) as u32));
    }
    v
}

/// The next state of a generator of made-up numbers.
pub open spec fn stirred(x: u64) -> u64 {
    let a = x ^ (x << 13);
    let b = a ^ (a >> 7);
    b ^ (b << 17)
}

/// A generator of made-up numbers.
pub struct Xorshift {
    pub state: u64,
}

impl Xorshift {
    /// The next number, which is the next state.
    pub fn next(&mut self) -> (n: u64)
        ensures
            final(self).state == stirred(old(self).state),
            ({
                let a = old(self).state ^ (old(self).state << 13);
                let b = a ^ (a >> 7);
                n == b ^ (b << 17)
            }),
            n == final(self).state,
    {
        self.state = self.state ^ (self.state << 13);
        self.state = self.state ^ (self.state >> 7);
        self.state = self.state ^ (self.state << 17);
        self.state
    }
}

/// The generator never stops at zero unless it began there, and no two states are
/// followed by the same one.
pub proof fn law_stirred(x: u64, y: u64)
    ensures
        stirred(x) == 0 <==> x == 0,
        stirred(x) == stirred(y) ==> x == y,
{
    lemma_shift_left_one(x, y);
    lemma_shift_right_one(x ^ (x << 13), y ^ (y << 13));
    let a = x ^ (x << 13);
    let b = a ^ (a >> 7);
    let c = y ^ (y << 13);
    let d = c ^ (c >> 7);
    lemma_shift_left_other(b, d);
    assert(0u64 ^ (0u64 << 13) == 0) by (bit_vector);
    assert(0u64 ^ (0u64 >> 7) == 0) by (bit_vector);
    assert(0u64 ^ (0u64 << 17) == 0) by (bit_vector);
    lemma_shift_left_one(x, 0);
    lemma_shift_right_one(a, 0);
    lemma_shift_left_other(b, 0);
}

proof fn lemma_shift_left_one(x: u64, y: u64)
    ensures
        x ^ (x << 13) == y ^ (y << 13) ==> x == y,
{
    assert(x ^ (x << 13) == y ^ (y << 13) ==> x == y) by (bit_vector);
}

proof fn lemma_shift_right_one(x: u64, y: u64)
    ensures
        x ^ (x >> 7) == y ^ (y >> 7) ==> x == y,
{
    assert(x ^ (x >> 7) == y ^ (y >> 7) ==> x == y) by (bit_vector);
}

proof fn lemma_shift_left_other(x: u64, y: u64)
    ensures
        x ^ (x << 17) == y ^ (y << 17) ==> x == y,
{
    assert(x ^ (x << 17) == y ^ (y << 17) ==> x == y) by (bit_vector);
}

/// The keys of floating-point numbers are in the order of the numbers: negative numbers have
/// negative keys, positive ones positive, and both zeros have zero; of two positive numbers
/// the one with the greater bits has the greater key, and of two negative ones the other.
pub proof fn law_key_of(a: u32, b: u32)
    ensures
        key_of(0) == 0,
        key_of(0x8000_0000) == 0,
        a < 0x8000_0000 ==> key_of(a) == a,
        a >= 0x8000_0000 ==> key_of(a) == 0x8000_0000 - a,
        a < b < 0x8000_0000 ==> key_of(a) < key_of(b),
        0x8000_0000 <= a < b ==> key_of(b) < key_of(a),
        a < 0x8000_0000 < b ==> key_of(b) < key_of(a) || key_of(a) == 0 && key_of(b) < 0,
{
}

/// The places of the greatest keys are all different, and stand in falling order of their
/// keys; of equal keys the one further in front comes first. No place that is left out has a
/// greater key than one that is not, nor an equal one further in front.
pub proof fn law_top(keys: Seq<i64>, k: nat, r: Seq<usize>)
    requires
        are_top(keys, k, r),
    ensures
        r.len() == k,
        r.no_duplicates(),
        forall|i: int| 0 <= i < k ==> #[trigger] r[i] < keys.len(),
        forall|i: int, j: int|
            0 <= i < j < k ==> keys[#[trigger] r[i] as int] >= keys[#[trigger] r[j] as int],
        forall|i: int, j: int|
            0 <= i < j < k && keys[#[trigger] r[i] as int] == keys[#[trigger] r[j] as int] ==> r[i]
                < r[j],
        forall|i: int, x: usize|
            #![trigger r[i], r.contains(x)]
            0 <= i < k && x < keys.len() && !r.contains(x) ==> keys[x as int] < keys[r[i] as int]
                || keys[x as int] == keys[r[i] as int] && r[i] < x,
{
    assert forall|i: int, j: int| 0 <= i < j < k implies ahead(
        keys,
        #[trigger] r[i] as int,
        #[trigger] r[j] as int,
    ) by {}
    assert forall|i: int, x: usize|
        #![trigger r[i], r.contains(x)]
        0 <= i < k && x < keys.len() && !r.contains(x) implies keys[x as int] < keys[r[i] as int]
        || keys[x as int] == keys[r[i] as int] && r[i] < x by {
        assert(ahead(keys, r[i] as int, x as int));
    }
}

} // verus!
