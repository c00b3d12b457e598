//! Sums over a large buffer, taken in parts that can be computed side by side.

use vstd::prelude::*;

verus! {

/// The sum of numbers.
pub open spec fn total(s: Seq<u64>) -> nat
    decreases s.len(),
{
    if s.len() == 0 {
        0
    } else {
        total(s.drop_last()) + s.last() as nat
    }
}

/// The sum of numbers modulo 2^64.
pub open spec fn wrapped(s: Seq<u64>) -> u64 {
    (total(s) % 0x1_0000_0000_0000_0000) as u64
}

/// The sum of numbers modulo 2^64.
pub fn wrapping_sum(s: &[u64]) -> (n: u64)
    ensures
        n == wrapped(s@),
{
    let mut n: u64 = 0;
    for i in 0..s.len()
        invariant
            n == wrapped(s@.take(i as int)),
    {
        proof {
            assert(s@.take(i + 1).drop_last() =~= s@.take(i as int));
        }
        n = n.wrapping_add(s[i]);
    }
    proof {
        assert(s@.take(s@.len() as int) =~= s@);
    }
    n
}

/// The parts of `len` places, `size` places long each, and the last as long as is left.
pub open spec fn parts(len: nat, size: nat) -> Seq<(int, int)>
    recommends
        size > 0,
{
    Seq::new(
        ((len + size - 1) / (size as int)) as nat,
        |i: int|
            (
                i * size,
                if i * size + size <= len {
                    i * size + size
                } else {
                    len as int
                },
            ),
    )
}

/// The parts that `threads` threads take of a buffer of `len` places: each is a
/// `threads`-th of it, and what is left over is one more.
pub fn thread_parts(len: usize, threads: usize) -> (v: Vec<(usize, usize)>)
    requires
        0 < threads <= len,
    ensures
        v@.map_values(|p: (usize, usize)| (p.0 as int, p.1 as int)) == parts(
            len as nat,
            (len / threads) as nat,
        ),
{
    proof {
        assert(len / threads >= 1) by (nonlinear_arith)
            requires
                0 < threads <= len,
        ;
    }
    let size: usize = len / threads;
    let mut v: Vec<(usize, usize)> = Vec::new();
    let mut at: usize = 0;
    let ghost mut k: int = 0;
    while at < len
        invariant
            size >= 1,
            at <= len,
            k >= 0,
            at == k * size || (at == len && at < k * size),
            k > 0 ==> (k - 1) * size < len,
            v@.len() == k,
            forall|i: int|
                0 <= i < k ==> {
                    let p = #[trigger] v@[i];
                    p.0 == i * size && p.1 == (if i * size + size <= len {
                        i * size + size
                    } else {
                        len as int
                    })
                },
        decreases len - at,
    {
        let end: usize = if size <= len - at {
            at + size
        } else {
            len
        };
        proof {
            assert(at == k * size);
            assert((k + 1) * size == k * size + size) by (nonlinear_arith);
        }
        v.push((at, end));
        at = end;
        proof {
            k = k + 1;
        }
    }
    proof {
        let n = len as int;
        let m = size as int;
        assert(k * m >= n);
        if k > 0 {
            assert((k - 1) * m == k * m - m) by (nonlinear_arith);
            vstd::arithmetic::div_mod::lemma_fundamental_div_mod_converse(
                n + m - 1,
                m,
                k,
                n + m - 1 - k * m,
            );
        }
        assert(v@.map_values(|p: (usize, usize)| (p.0 as int, p.1 as int)) =~= parts(
            len as nat,
            size as nat,
        ));
    }
    v
}

/// The sums of the parts of a buffer, modulo 2^64.
pub open spec fn part_sums(buf: Seq<u64>, p: Seq<(int, int)>) -> Seq<u64> {
    p.map_values(|r: (int, int)| wrapped(buf.subrange(r.0, r.1)))
}

proof fn lemma_total_concat(a: Seq<u64>, b: Seq<u64>)
    ensures
        total(a + b) == total(a) + total(b),
    decreases b.len(),
{
    if b.len() == 0 {
        assert(a + b =~= a);
    } else {
        lemma_total_concat(a, b.drop_last());
        assert((a + b).drop_last() =~= a + b.drop_last());
    }
}

/// The sum over the whole buffer is the sum of the sums of its parts, however many
/// threads take them.
pub proof fn law_parts_sum(buf: Seq<u64>, size: nat)
    requires
        size > 0,
    ensures
        wrapped(part_sums(buf, parts(buf.len(), size))) == wrapped(buf),
{
    let p = parts(buf.len(), size);
    let n = buf.len() as int;
    let m = size as int;
    lemma_part_sums(buf, size, p.len());
    if n == 0 {
        assert((n + m - 1) / m == 0) by (nonlinear_arith)
            requires
                n == 0,
                m > 0,
        ;
        assert(p.take(0) =~= p);
    } else {
        let k = (n + m - 1) / m;
        vstd::arithmetic::div_mod::lemma_fundamental_div_mod(n + m - 1, m);
        assert(m * k >= n) by (nonlinear_arith)
            requires
                n + m - 1 == m * k + (n + m - 1) % m,
                0 <= (n + m - 1) % m < m,
        ;
        assert(k * m == m * k) by (nonlinear_arith);
        assert(k >= 0) by (nonlinear_arith)
            requires
                m * k >= n,
                n >= 0,
                m > 0,
        ;
        assert(p.take(p.len() as int) =~= p);
        assert(buf.take(n) =~= buf);
    }
}

proof fn lemma_part_sums(buf: Seq<u64>, size: nat, k: nat)
    requires
        size > 0,
        k <= parts(buf.len(), size).len(),
    ensures
        ({
            let upto = if k as int * size <= buf.len() {
                k as int * size
            } else {
                buf.len() as int
            };
            &&& 0 <= upto
            &&& wrapped(part_sums(buf, parts(buf.len(), size).take(k as int))) == wrapped(
                buf.take(upto),
            )
        }),
    decreases k,
{
    let p = parts(buf.len(), size);
    let n = buf.len() as int;
    let m = size as int;
    assert(0 <= k as int * m) by (nonlinear_arith)
        requires
            k >= 0,
            m > 0,
    ;
    if k == 0 {
        assert(k as int * m == 0) by (nonlinear_arith)
            requires
                k == 0,
        ;
        assert(part_sums(buf, p.take(0)) =~= buf.take(0));
    } else {
        let j = (k - 1) as nat;
        lemma_part_sums(buf, size, j);
        assert(k as int * m == j as int * m + m) by (nonlinear_arith)
            requires
                k == j + 1,
        ;
        vstd::arithmetic::div_mod::lemma_fundamental_div_mod(n + m - 1, m);
        let c = (n + m - 1) / m;
        assert(j as int * m < n) by (nonlinear_arith)
            requires
                j + 1 <= c,
                n + m - 1 == m * c + (n + m - 1) % m,
                0 <= (n + m - 1) % m,
                m > 0,
        ;
        assert(0 <= j as int * m) by (nonlinear_arith)
            requires
                j >= 0,
                m > 0,
        ;
        let (a, b) = p[j as int];
        assert(a == j as int * m);
        let sums = part_sums(buf, p.take(k as int));
        assert(sums.drop_last() =~= part_sums(buf, p.take(j as int)));
        assert(sums.last() == wrapped(buf.subrange(a, b)));
        assert(buf.take(b) =~= buf.take(a) + buf.subrange(a, b));
        lemma_total_concat(buf.take(a), buf.subrange(a, b));
        let x = total(sums.drop_last()) as int;
        let y = total(buf.subrange(a, b)) as int;
        let z = total(buf.take(a)) as int;
        assert(wrapped(sums.drop_last()) == wrapped(buf.take(a)));
        assert(x % 0x1_0000_0000_0000_0000 == z % 0x1_0000_0000_0000_0000);
        assert((x + y % 0x1_0000_0000_0000_0000) % 0x1_0000_0000_0000_0000 == (z + y)
            % 0x1_0000_0000_0000_0000);
        assert(total(sums) == x + wrapped(buf.subrange(a, b)));
        assert(b == if k as int * m <= n {
            k as int * m
        } else {
            n
        });
    }
}

/// The sum of one number is the number, and the sum of two runs of numbers is what both
/// come to together.
pub proof fn law_total(a: Seq<u64>, b: Seq<u64>, x: u64)
    ensures
        total(Seq::empty()) == 0,
        total(seq![x]) == x,
        total(a + b) == total(a) + total(b),
        wrapped(a) == total(a) % 0x1_0000_0000_0000_0000,
{
    reveal_with_fuel(total, 2);
    assert(seq![x].drop_last() =~= Seq::empty());
    lemma_total_concat(a, b);
}

/// The parts follow each other without a gap from the first place to the last. All have the
/// given length but the last, which is not longer and not empty.
pub proof fn law_parts(len: nat, size: nat)
    requires
        size > 0,
        len > 0,
    ensures
        ({
            let p = parts(len, size);
            &&& p.len() > 0
            &&& p[0].0 == 0
            &&& p.last().1 == len
            &&& 0 < p.last().1 - p.last().0 <= size
            &&& forall|i: int|
                0 <= i < p.len() - 1 ==> (#[trigger] p[i]).1 == p[i + 1].0 && p[i].1 - p[i].0
                    == size
        }),
{
    let p = parts(len, size);
    let n = len as int;
    let m = size as int;
    let k = (n + m - 1) / m;
    vstd::arithmetic::div_mod::lemma_fundamental_div_mod(n + m - 1, m);
    assert(k * m >= n && (k - 1) * m < n) by (nonlinear_arith)
        requires
            n + m - 1 == m * k + (n + m - 1) % m,
            0 <= (n + m - 1) % m < m,
    ;
    assert(k > 0) by (nonlinear_arith)
        requires
            k * m >= n,
            n > 0,
            m > 0,
    ;
    assert(0 * m == 0) by (nonlinear_arith);
    assert((k - 1) * m + m == k * m) by (nonlinear_arith);
    assert forall|i: int| 0 <= i < p.len() - 1 implies (#[trigger] p[i]).1 == p[i + 1].0 && p[i].1
        - p[i].0 == size by {
        assert((i + 1) * m == i * m + m) by (nonlinear_arith);
        assert((i + 1) * m <= (k - 1) * m) by (nonlinear_arith)
            requires
                i + 1 <= k - 1,
                m > 0,
        ;
    }
}

} // verus!
