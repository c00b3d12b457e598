//! What the library makes of the answers of compute kernels.

use vstd::prelude::*;
use vstd::string::StringExecFns;

use crate::error::{ErrorView, FtError};
use crate::text;

verus! {

/// What computes.
#[derive(Debug, Clone, Copy, PartialEq, Eq, Structural)]
pub enum KernelBackend {
    /// Kernels on a GPU.
    CudaKernels,
    /// The reference on the CPU.
    CpuReference,
}

/// What computes in this build, which has no kernels for a GPU.
pub fn detect() -> (b: KernelBackend)
    ensures
        b == KernelBackend::CpuReference,
{
    KernelBackend::CpuReference
}

/// A GPU.
#[derive(Debug, Clone)]
pub struct DeviceInfo {
    pub name: String,
    pub index: i32,
}

/// Turns the status of a call into a result: zero is success.
pub fn check(code: i32, what: &str) -> (r: Result<(), FtError>)
    ensures
        match r {
            Ok(_) => code == 0,
            Err(e) => code != 0 && e@ == ErrorView::Kernel(
                what@ + ": cuda status "@ + text::dec_signed(code as int),
            ),
        },
{
    if code == 0 {
        return Ok(());
    }
    let mut m = what.to_owned();
    m.append(": cuda status ");
    text::push_dec_signed(&mut m, code);
    Err(FtError::Kernel(m))
}

/// Turns what a kernel returned into a result: zero is success.
pub fn kernel_result(code: i32, kernel: &str) -> (r: Result<(), FtError>)
    ensures
        match r {
            Ok(_) => code == 0,
            Err(e) => code != 0 && e@ == ErrorView::Kernel(
                kernel@ + ": "@ + text::dec_signed(code as int),
            ),
        },
{
    if code == 0 {
        return Ok(());
    }
    let mut m = kernel.to_owned();
    m.append(": ");
    text::push_dec_signed(&mut m, code);
    Err(FtError::Kernel(m))
}

/// The number of devices, none where a negative number was counted.
pub fn device_total(n: i32) -> (r: usize)
    ensures
        r == if n >= 0 {
            n as int
        } else {
            0
        },
{
    if n >= 0 {
        n as usize
    } else {
        0
    }
}

/// The length of the beginning of `raw` before its first zero.
pub open spec fn before_zero(raw: Seq<u8>) -> nat
    decreases raw.len(),
{
    if raw.len() == 0 || raw[0] == 0 {
        0
    } else {
        1 + before_zero(raw.skip(1))
    }
}

/// The bytes of a name that ends with a zero, or fills its field.
pub fn name_bytes(raw: &[u8]) -> (v: Vec<u8>)
    ensures
        v@ == raw@.take(before_zero(raw@) as int),
{
    let mut v: Vec<u8> = Vec::new();
    let mut i: usize = 0;
    proof {
        assert(raw@.skip(0) =~= raw@);
    }
    while i < raw.len() && raw[i] != 0
        invariant
            i <= raw@.len(),
            v@ == raw@.take(i as int),
            before_zero(raw@) == i + before_zero(raw@.skip(i as int)),
        decreases raw@.len() - i,
    {
        proof {
            assert(raw@.skip(i as int).skip(1) =~= raw@.skip(i + 1));
        }
        v.push(raw[i]);
        i = i + 1;
    }
    v
}

/// The name in a field of a device, which ends with a zero or fills the field.
pub fn device_name(raw: &[u8]) -> (s: String)
    ensures
        s@ == text::lossy_text(raw@.take(before_zero(raw@) as int)),
{
    let bytes = name_bytes(raw);
    text::lossy(bytes.as_slice())
}

/// The bytes of the weights of one expert, at `elem` bytes for each.
pub open spec fn expert_weight_bytes(hidden: nat, inter: nat, elem: nat) -> nat {
    (2 * (inter * hidden) + hidden * inter) * elem
}

/// The bytes of the weights of one expert, at `elem` bytes for each.
pub fn expert_bytes(hidden: usize, inter: usize, elem: usize) -> (n: usize)
    requires
        expert_weight_bytes(hidden as nat, inter as nat, elem as nat) <= usize::MAX,
        2 * (inter * hidden) + hidden * inter <= usize::MAX,
    ensures
        n == expert_weight_bytes(hidden as nat, inter as nat, elem as nat),
        n == 3 * (hidden * inter) * elem,
{
    proof {
        assert(hidden * inter == inter * hidden) by (nonlinear_arith);
        assert(0 <= inter * hidden) by (nonlinear_arith);
    }
    let one: usize = inter * hidden;
    (2 * one + one) * elem
}

/// The slot that takes the next expert, of `slots` that are filled in turn.
pub fn next_slot(counter: usize, slots: usize) -> (s: usize)
    requires
        slots > 0,
    ensures
        s == counter % slots,
{
    counter % slots
}

/// The name in a field ends in front of the first zero, or with the field where it holds
/// none.
pub proof fn law_name_ends(raw: Seq<u8>)
    ensures
        ({
            let n = before_zero(raw);
            &&& n <= raw.len()
            &&& !raw.take(n as int).contains(0u8)
            &&& n < raw.len() ==> raw[n as int] == 0
        }),
    decreases raw.len(),
{
    if raw.len() > 0 && raw[0] != 0 {
        law_name_ends(raw.skip(1));
        let n = before_zero(raw) as int;
        let rest = raw.skip(1).take(n - 1);
        if raw.take(n).contains(0u8) {
            let i = raw.take(n).index_of(0u8);
            assert(raw[i] == 0);
            assert(rest[i - 1] == 0);
            assert(rest.contains(0u8));
        }
    }
}

} // verus!
