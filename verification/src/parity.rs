//! Checks on recorded inputs and on the tensors of single experts, before anything is
//! compared.

use vstd::prelude::*;
use vstd::string::StringExecFns;

use crate::json;
use crate::json::Json;
use crate::text;

verus! {

/// The sizes of a recorded layer.
#[derive(Debug, Clone, Copy, PartialEq, Eq, Structural)]
pub struct Dims {
    pub tokens: u64,
    pub hidden: u64,
    pub inter: u64,
    pub num_experts: u64,
    pub k: u64,
}

/// A size in a manifest.
pub open spec fn entry(j: Json, key: Seq<char>) -> Option<u64> {
    match j.member(key) {
        Some(v) => v.integer(),
        None => None,
    }
}

/// The sizes in a manifest, or the name of the first that is missing.
pub open spec fn dims_of(j: Json) -> Result<Dims, Seq<char>> {
    match entry(j, "tokens"@) {
        None => Err("tokens"@),
        Some(tokens) => match entry(j, "hidden"@) {
            None => Err("hidden"@),
            Some(hidden) => match entry(j, "inter"@) {
                None => Err("inter"@),
                Some(inter) => match entry(j, "num_experts"@) {
                    None => Err("num_experts"@),
                    Some(num_experts) => match entry(j, "k"@) {
                        None => Err("k"@),
                        Some(k) => Ok(Dims { tokens, hidden, inter, num_experts, k }),
                    },
                },
            },
        },
    }
}

fn size(v: &serde_json::Value, key: &str) -> (r: Option<u64>)
    ensures
        r == entry(json::tree(*v), key@),
{
    match json::member(v, key) {
        Some(x) => json::integer(x),
        None => None,
    }
}

/// The sizes in a parsed manifest, or the name of the first that is missing.
pub fn dims_in(v: &serde_json::Value) -> (r: Result<Dims, String>)
    ensures
        dims_of(json::tree(*v)) == (match r {
            Ok(d) => Ok(d),
            Err(e) => Err(e@),
        }),
{
    let tokens: u64 = match size(v, "tokens") {
        Some(n) => n,
        None => {
            return Err("tokens".to_owned());
        },
    };
    let hidden: u64 = match size(v, "hidden") {
        Some(n) => n,
        None => {
            return Err("hidden".to_owned());
        },
    };
    let inter: u64 = match size(v, "inter") {
        Some(n) => n,
        None => {
            return Err("inter".to_owned());
        },
    };
    let num_experts: u64 = match size(v, "num_experts") {
        Some(n) => n,
        None => {
            return Err("num_experts".to_owned());
        },
    };
    let k: u64 = match size(v, "k") {
        Some(n) => n,
        None => {
            return Err("k".to_owned());
        },
    };
    Ok(Dims { tokens, hidden, inter, num_experts, k })
}

/// The sizes in a manifest, from its bytes; else the error of the parser, or the name of
/// the first size that is missing.
pub fn read_manifest(bytes: &[u8]) -> (r: Result<Dims, String>)
    ensures
        (match r {
            Ok(d) => Ok(d),
            Err(e) => Err(e@),
        }) == (match json::parsed(bytes@) {
            Ok(j) => dims_of(j),
            Err(e) => Err(e),
        }),
{
    match json::parse(bytes) {
        Ok(v) => dims_in(&v),
        Err(e) => Err(e),
    }
}

/// The first recorded input that does not have its size, in the order of checking.
pub open spec fn wrong_size(d: Dims, h_in: nat, topk: nat, w13: nat, w2: nat) -> Option<Seq<char>> {
    let t = d.tokens as nat;
    let h = d.hidden as nat;
    let i = d.inter as nat;
    let e = d.num_experts as nat;
    if h_in != t * h {
        Some("h_in size"@)
    } else if topk != t * d.k as nat {
        Some("topk size"@)
    } else if w13 != e * (2 * (i * h)) {
        Some("w13 size"@)
    } else if w2 != e * (h * i) {
        Some("w2 size"@)
    } else {
        None
    }
}

fn product_is(a: u64, b: u64, n: usize) -> (r: bool)
    ensures
        r == (n == a as nat * b as nat),
{
    proof {
        assert(0 <= a as int * b as int <= 0xffff_ffff_ffff_ffff * 0xffff_ffff_ffff_ffff)
            by (nonlinear_arith)
            requires
                0 <= a <= 0xffff_ffff_ffff_ffff,
                0 <= b <= 0xffff_ffff_ffff_ffff,
        ;
    }
    let p: u128 = a as u128 * b as u128;
    p == n as u128
}

/// Checks the sizes of recorded inputs; the first that is wrong is named.
pub fn check_sizes(d: Dims, h_in: usize, topk: usize, w13: usize, w2: usize) -> (r: Option<
    &'static str,
>)
    requires
        2 * (d.inter as nat * d.hidden as nat) <= u64::MAX,
    ensures
        wrong_size(d, h_in as nat, topk as nat, w13 as nat, w2 as nat) == (match r {
            Some(s) => Some(s@),
            None => None,
        }),
{
    proof {
        assert(d.hidden * d.inter == d.inter * d.hidden) by (nonlinear_arith);
        assert(0 <= d.inter * d.hidden) by (nonlinear_arith);
    }
    let block: u64 = d.inter * d.hidden;
    if !product_is(d.tokens, d.hidden, h_in) {
        Some("h_in size")
    } else if !product_is(d.tokens, d.k, topk) {
        Some("topk size")
    } else if !product_is(d.num_experts, 2 * block, w13) {
        Some("w13 size")
    } else if !product_is(d.num_experts, block, w2) {
        Some("w2 size")
    } else {
        None
    }
}

/// A list of sizes, as it is shown.
pub open spec fn shown(s: Seq<usize>) -> Seq<char> {
    "["@ + listed(s) + "]"@
}

/// Sizes with commas between them.
pub open spec fn listed(s: Seq<usize>) -> Seq<char>
    decreases s.len(),
{
    if s.len() == 0 {
        Seq::empty()
    } else if s.len() == 1 {
        text::dec(s[0] as nat)
    } else {
        listed(s.drop_last()) + ", "@ + text::dec(s.last() as nat)
    }
}

fn push_sizes(m: &mut String, s: &[usize])
    ensures
        final(m)@ == old(m)@ + shown(s@),
{
    let ghost before = m@;
    m.append("[");
    let ghost start = m@;
    proof {
        assert(start + listed(s@.take(0)) =~= start);
    }
    for i in 0..s.len()
        invariant
            m@ == start + listed(s@.take(i as int)),
    {
        let ghost now = m@;
        proof {
            assert(s@.take(i + 1).drop_last() =~= s@.take(i as int));
        }
        if i > 0 {
            m.append(", ");
        }
        text::push_dec(m, s[i] as u64);
        proof {
            assert(m@ =~= start + listed(s@.take(i + 1)));
        }
    }
    proof {
        assert(s@.take(s@.len() as int) =~= s@);
    }
    m.append("]");
    proof {
        assert(m@ =~= before + shown(s@));
    }
}

/// The sentence for an expert whose tensors do not fit together.
pub open spec fn mismatch(gate: Seq<usize>, up: Seq<usize>, down: Seq<usize>) -> Seq<char> {
    "shape mismatch gate="@ + shown(gate) + " up="@ + shown(up) + " down="@ + shown(down)
}

/// Whether two shapes are the same.
fn same_shape(a: &[usize], b: &[usize]) -> (r: bool)
    ensures
        r == (a@ == b@),
{
    if a.len() != b.len() {
        return false;
    }
    for i in 0..a.len()
        invariant
            a@.len() == b@.len(),
            forall|j: int| 0 <= j < i ==> a@[j] == b@[j],
    {
        if a[i] != b[i] {
            return false;
        }
    }
    proof {
        assert(a@ =~= b@);
    }
    true
}

/// The inner and the hidden size of an expert, from the shapes of its tensors: gate and up
/// are inner by hidden, down is hidden by inner.
pub fn expert_sizes(gate: &[usize], up: &[usize], down: &[usize]) -> (r: Result<
    (usize, usize),
    String,
>)
    requires
        gate@.len() >= 2,
        up@ == gate@ ==> down@.len() >= 2,
    ensures
        match r {
            Ok((inter, hidden)) => {
                &&& inter == gate@[0] && hidden == gate@[1]
                &&& up@ == gate@ && down@[0] == hidden && down@[1] == inter
            },
            Err(m) => {
                &&& !(up@ == gate@ && down@[0] == gate@[1] && down@[1] == gate@[0])
                &&& m@ == mismatch(gate@, up@, down@)
            },
        },
{
    let inter: usize = gate[0];
    let hidden: usize = gate[1];
    if !same_shape(up, gate) || down[0] != hidden || down[1] != inter {
        let mut m = "shape mismatch gate=".to_owned();
        push_sizes(&mut m, gate);
        m.append(" up=");
        push_sizes(&mut m, up);
        m.append(" down=");
        push_sizes(&mut m, down);
        return Err(m);
    }
    Ok((inter, hidden))
}

/// Checks that there is a kernel of a name, in a build that has the plain one alone.
pub fn check_kernel(kernel: &str) -> (r: Result<(), String>)
    ensures
        match r {
            Ok(_) => kernel@ == "naive"@,
            Err(m) => kernel@ != "naive"@ && m@ == "unknown kernel '"@ + kernel@
                + "' (available: naive)"@,
        },
{
    if text::equal(kernel, "naive") {
        return Ok(());
    }
    let mut m = "unknown kernel '".to_owned();
    m.append(kernel);
    m.append("' (available: naive)");
    Err(m)
}

/// The sizes are found under their names, and the first name without a size is reported.
pub proof fn law_dims(j: Json)
    ensures
        ({
            let at = |key: Seq<char>| match j.member(key) {
                Some(v) => v.integer(),
                None => None,
            };
            &&& dims_of(j) matches Ok(d) ==> {
                &&& at("tokens"@) == Some(d.tokens) && at("hidden"@) == Some(d.hidden)
                &&& at("inter"@) == Some(d.inter) && at("num_experts"@) == Some(d.num_experts)
                &&& at("k"@) == Some(d.k)
            }
            &&& dims_of(j) matches Err(name) ==> {
                ||| name == "tokens"@ && at("tokens"@) is None
                ||| name == "hidden"@ && at("tokens"@) is Some && at("hidden"@) is None
                ||| name == "inter"@ && at("tokens"@) is Some && at("hidden"@) is Some && at(
                    "inter"@,
                ) is None
                ||| name == "num_experts"@ && at("tokens"@) is Some && at("hidden"@) is Some && at(
                    "inter"@,
                ) is Some && at("num_experts"@) is None
                ||| name == "k"@ && at("tokens"@) is Some && at("hidden"@) is Some && at(
                    "inter"@,
                ) is Some && at("num_experts"@) is Some && at("k"@) is None
            }
        }),
{
}

/// Recorded inputs fit exactly if there are `hidden` numbers and `k` choices for each token,
/// two blocks of `inter` by `hidden` numbers in the first weights of each expert, and one in
/// the second. The first input that does not fit is named.
pub proof fn law_sizes(d: Dims, h_in: nat, topk: nat, w13: nat, w2: nat)
    ensures
        ({
            let hs = h_in == d.tokens * d.hidden;
            let ks = topk == d.tokens * d.k;
            let firsts = w13 == d.num_experts * (2 * (d.inter * d.hidden));
            let seconds = w2 == d.num_experts * (d.hidden * d.inter);
            let wrong = wrong_size(d, h_in, topk, w13, w2);
            &&& wrong is None <==> hs && ks && firsts && seconds
            &&& !hs ==> wrong == Some("h_in size"@)
            &&& hs && !ks ==> wrong == Some("topk size"@)
            &&& hs && ks && !firsts ==> wrong == Some("w13 size"@)
            &&& hs && ks && firsts && !seconds ==> wrong == Some("w2 size"@)
        }),
{
}

/// A list of sizes is shown in brackets, with a comma and a space between them, and the
/// shapes of the three tensors stand in the order of gate, up and down.
pub proof fn law_shown(s: Seq<usize>, n: usize, up: Seq<usize>, down: Seq<usize>)
    ensures
        shown(seq![]) == "["@ + "]"@,
        shown(seq![n]) == "["@ + text::dec(n as nat) + "]"@,
        s.len() > 0 ==> shown(s.push(n)) == shown(s).drop_last() + ", "@ + text::dec(n as nat)
            + "]"@,
        mismatch(s, up, down) == "shape mismatch gate="@ + shown(s) + " up="@ + shown(up)
            + " down="@ + shown(down),
{
    reveal_strlit("]");
    assert(shown(seq![]) =~= "["@ + "]"@);
    assert(s.push(n).drop_last() =~= s);
    if s.len() > 0 {
        assert(shown(s).drop_last() =~= "["@ + listed(s));
        assert(shown(s.push(n)) =~= shown(s).drop_last() + ", "@ + text::dec(n as nat) + "]"@);
    }
}

} // verus!
