//! 16-bit floating-point numbers that are the upper half of a 32-bit one, as bits.

use vstd::prelude::*;

verus! {

/// The 32-bit number with the same value.
pub open spec fn widened(b: u16) -> u32 {
    (b * 0x1_0000) as u32
}

/// The upper half of 32 bits, rounded to the nearest, and to the even one of two that
/// are equally near.
pub open spec fn narrowed(u: u32) -> int {
    let hi = u as int / 0x1_0000;
    let lo = u as int % 0x1_0000;
    if lo > 0x8000 || (lo == 0x8000 && hi % 2 == 1) {
        hi + 1
    } else {
        hi
    }
}

/// Whether the bits can be rounded: all but the last of those that have a sign and stand
/// for no number.
pub open spec fn can_narrow(u: u32) -> bool {
    u + 0x7fff + (u as int / 0x1_0000) % 2 <= u32::MAX
}

/// The 32-bit number with the same value as the given 16-bit one.
pub fn widen(b: u16) -> (u: u32)
    ensures
        u == widened(b),
{
    b as u32 * 0x1_0000
}

/// The 16-bit number nearest to the given 32-bit one.
pub fn narrow(u: u32) -> (b: u16)
    requires
        can_narrow(u),
    ensures
        b == narrowed(u),
{
    let lsb: u32 = (u / 0x1_0000) % 2;
    ((u + 0x7fff + lsb) / 0x1_0000) as u16
}

/// Whether the bits can be rounded.
pub fn rounds(u: u32) -> (b: bool)
    ensures
        b == can_narrow(u),
{
    let lsb: u32 = (u / 0x1_0000) % 2;
    u <= u32::MAX - 0x7fff - lsb
}

/// A number that fits is given back.
pub proof fn law_round_trip(b: u16)
    ensures
        can_narrow(widened(b)),
        narrowed(widened(b)) == b,
{
}

/// The result is as near as any 16-bit number, and even where two are equally near.
pub proof fn law_nearest(u: u32, other: u16)
    requires
        can_narrow(u),
    ensures
        0 <= narrowed(u) <= u16::MAX,
        ({
            let mine = narrowed(u) * 0x1_0000 - u;
            let theirs = other * 0x1_0000 - u;
            let m = if mine < 0 {
                -mine
            } else {
                mine
            };
            let t = if theirs < 0 {
                -theirs
            } else {
                theirs
            };
            &&& m <= t
            &&& m == t && narrowed(u) != other ==> narrowed(u) % 2 == 0
        }),
{
}

/// The 32-bit numbers with the same values.
pub fn widen_all(bits: &[u16]) -> (r: Vec<u32>)
    ensures
        r@ == bits@.map_values(|b: u16| widened(b)),
{
    let mut r: Vec<u32> = Vec::new();
    for i in 0..bits.len()
        invariant
            r@ == bits@.take(i as int).map_values(|b: u16| widened(b)),
    {
        proof {
            assert(bits@.take(i + 1) =~= bits@.take(i as int).push(bits@[i as int]));
        }
        r.push(widen(bits[i]));
        proof {
            assert(r@ =~= bits@.take(i + 1).map_values(|b: u16| widened(b)));
        }
    }
    proof {
        assert(bits@.take(bits@.len() as int) =~= bits@);
    }
    r
}

/// The 16-bit numbers nearest to the given 32-bit ones.
pub fn narrow_all(bits: &[u32]) -> (r: Vec<u16>)
    requires
        forall|i: int| 0 <= i < bits@.len() ==> can_narrow(#[trigger] bits@[i]),
    ensures
        r@.len() == bits@.len(),
        forall|i: int| 0 <= i < bits@.len() ==> #[trigger] r@[i] == narrowed(bits@[i]),
{
    let mut r: Vec<u16> = Vec::new();
    for i in 0..bits.len()
        invariant
            forall|k: int| 0 <= k < bits@.len() ==> can_narrow(#[trigger] bits@[k]),
            r@.len() == i,
            forall|k: int| 0 <= k < i ==> #[trigger] r@[k] == narrowed(bits@[k]),
    {
        r.push(narrow(bits[i]));
    }
    r
}

/// The 32-bit number is the 16-bit one followed by 16 bits that are zero. The bits that
/// cannot be rounded are the last ones, for which no 16-bit number is left.
pub proof fn law_widened(b: u16, u: u32)
    ensures
        widened(b) == b * 65536,
        can_narrow(u) <==> u < 0xffff_8000,
        can_narrow(u) <==> narrowed(u) <= 0xffff,
{
}

} // verus!
