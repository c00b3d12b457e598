//! What a layer of experts asks of its inputs before anything is computed.

use vstd::prelude::*;
use vstd::string::StringExecFns;

use crate::error::{ErrorView, FtError};
use crate::text;

verus! {

/// The error of an expert that there is not.
pub open spec fn no_such_expert(e: u32, num_experts: nat) -> ErrorView {
    ErrorView::Invalid("expert id "@ + text::dec(e as nat) + " >= "@ + text::dec(num_experts))
}

/// The sizes that the inputs of a layer must have.
pub open spec fn shape_error(
    h_len: nat,
    topk_len: nat,
    weights_len: nat,
    num_tokens: nat,
    hidden: nat,
    k: nat,
) -> Option<ErrorView> {
    if h_len != num_tokens * hidden {
        Some(ErrorView::Invalid("h size mismatch"@))
    } else if topk_len != num_tokens * k || weights_len != num_tokens * k {
        Some(ErrorView::Invalid("topk/weights size mismatch"@))
    } else {
        None
    }
}

/// The first expert, among the first `n`, that there is not.
pub open spec fn first_bad(topk: Seq<u32>, num_experts: nat, n: int) -> Option<int>
    decreases n,
{
    if n <= 0 {
        None
    } else {
        match first_bad(topk, num_experts, n - 1) {
            Some(i) => Some(i),
            None => if topk[n - 1] >= num_experts {
                Some(n - 1)
            } else {
                None
            },
        }
    }
}

/// Checks the sizes of the inputs of a layer: a vector of `hidden` numbers and `k` experts
/// with as many weights for each token.
pub fn check_shapes(
    h_len: usize,
    topk_len: usize,
    weights_len: usize,
    num_tokens: usize,
    hidden: usize,
    k: usize,
) -> (r: Result<(), FtError>)
    requires
        num_tokens * hidden <= usize::MAX,
        h_len == num_tokens * hidden ==> num_tokens * k <= usize::MAX,
    ensures
        match r {
            Ok(_) => shape_error(
                h_len as nat,
                topk_len as nat,
                weights_len as nat,
                num_tokens as nat,
                hidden as nat,
                k as nat,
            ) is None,
            Err(e) => shape_error(
                h_len as nat,
                topk_len as nat,
                weights_len as nat,
                num_tokens as nat,
                hidden as nat,
                k as nat,
            ) == Some(e@),
        },
{
    if h_len != num_tokens * hidden {
        return Err(FtError::Invalid("h size mismatch".to_owned()));
    }
    if topk_len != num_tokens * k || weights_len != num_tokens * k {
        return Err(FtError::Invalid("topk/weights size mismatch".to_owned()));
    }
    Ok(())
}

/// Checks that there is an expert of a number.
pub fn check_expert(expert: u32, num_experts: usize) -> (r: Result<usize, FtError>)
    ensures
        match r {
            Ok(e) => expert < num_experts && e == expert,
            Err(e) => expert >= num_experts && e@ == no_such_expert(expert, num_experts as nat)
                && e@ == ErrorView::Invalid(
                "expert id "@ + text::dec(expert as nat) + " >= "@ + text::dec(num_experts as nat),
            ),
        },
{
    let e: usize = expert as usize;
    if e >= num_experts {
        let mut m = "expert id ".to_owned();
        text::push_dec(&mut m, expert as u64);
        m.append(" >= ");
        text::push_dec(&mut m, num_experts as u64);
        return Err(FtError::Invalid(m));
    }
    Ok(e)
}

/// Checks the inputs of a layer: their sizes, then the experts of the tokens in order.
pub fn check_inputs(
    h_len: usize,
    num_tokens: usize,
    hidden: usize,
    num_experts: usize,
    topk: &[u32],
    weights_len: usize,
    k: usize,
) -> (r: Result<(), FtError>)
    requires
        num_tokens * hidden <= usize::MAX,
        h_len == num_tokens * hidden ==> num_tokens * k <= usize::MAX,
    ensures
        ({
            let shape = shape_error(
                h_len as nat,
                topk@.len(),
                weights_len as nat,
                num_tokens as nat,
                hidden as nat,
                k as nat,
            );
            let bad = first_bad(topk@, num_experts as nat, topk@.len() as int);
            match r {
                Ok(_) => shape is None && bad is None,
                Err(e) => if shape is Some {
                    shape == Some(e@)
                } else {
                    bad is Some && e@ == no_such_expert(topk@[bad->0], num_experts as nat)
                },
            }
        }),
{
    match check_shapes(h_len, topk.len(), weights_len, num_tokens, hidden, k) {
        Err(e) => {
            return Err(e);
        },
        Ok(_) => {},
    }
    for i in 0..topk.len()
        invariant
            first_bad(topk@, num_experts as nat, i as int) is None,
            shape_error(
                h_len as nat,
                topk@.len(),
                weights_len as nat,
                num_tokens as nat,
                hidden as nat,
                k as nat,
            ) is None,
    {
        match check_expert(topk[i], num_experts) {
            Ok(_) => {},
            Err(e) => {
                proof {
                    assert(first_bad(topk@, num_experts as nat, i + 1) == Some(i as int));
                    lemma_first_bad(topk@, num_experts as nat, i + 1, topk@.len() as int);
                }
                return Err(e);
            },
        }
    }
    Ok(())
}

proof fn lemma_first_bad(topk: Seq<u32>, num_experts: nat, a: int, b: int)
    requires
        a <= b,
        first_bad(topk, num_experts, a) is Some,
    ensures
        first_bad(topk, num_experts, b) == first_bad(topk, num_experts, a),
    decreases b - a,
{
    if a < b {
        lemma_first_bad(topk, num_experts, a, b - 1);
    }
}

/// Inputs are refused for an expert exactly when there is none of its number.
pub proof fn law_bad_expert(topk: Seq<u32>, num_experts: nat)
    ensures
        match first_bad(topk, num_experts, topk.len() as int) {
            Some(i) => 0 <= i < topk.len() && topk[i] >= num_experts && forall|j: int|
                0 <= j < i ==> #[trigger] topk[j] < num_experts,
            None => forall|j: int| 0 <= j < topk.len() ==> #[trigger] topk[j] < num_experts,
        },
{
    lemma_bad_expert(topk, num_experts, topk.len() as int);
}

proof fn lemma_bad_expert(topk: Seq<u32>, num_experts: nat, n: int)
    requires
        0 <= n <= topk.len(),
    ensures
        match first_bad(topk, num_experts, n) {
            Some(i) => 0 <= i < n && topk[i] >= num_experts && forall|j: int|
                0 <= j < i ==> #[trigger] topk[j] < num_experts,
            None => forall|j: int| 0 <= j < n ==> #[trigger] topk[j] < num_experts,
        },
    decreases n,
{
    if n > 0 {
        lemma_bad_expert(topk, num_experts, n - 1);
    }
}

/// Where row `row` of a matrix with rows of `width` elements begins.
pub fn row_start(row: usize, width: usize) -> (at: usize)
    requires
        row * width + width <= usize::MAX,
    ensures
        at == row * width,
{
    proof {
        assert(0 <= row * width) by (nonlinear_arith);
    }
    row * width
}

/// Where row `i` of the first weights of an expert begins, of the rows for gating below
/// `inter` and those for scaling up from `inter` on: `hidden` elements each.
pub fn gate_up_row(expert: usize, i: usize, hidden: usize, inter: usize) -> (at: usize)
    requires
        i < 2 * inter,
        expert * (2 * inter) + i <= usize::MAX,
        (expert * (2 * inter) + i) * hidden + hidden <= usize::MAX,
        2 * inter <= usize::MAX,
    ensures
        at == (expert * (2 * inter) + i) * hidden,
{
    proof {
        let w = 2 * inter as int;
        assert(0 <= expert * w) by (nonlinear_arith)
            requires
                0 <= expert,
                0 <= w,
        ;
    }
    row_start(expert * (2 * inter) + i, hidden)
}

/// Where row `o` of the second weights of an expert begins: `inter` elements for each of
/// `hidden` outputs.
pub fn down_row(expert: usize, o: usize, hidden: usize, inter: usize) -> (at: usize)
    requires
        o < hidden,
        expert * hidden + o <= usize::MAX,
        (expert * hidden + o) * inter + inter <= usize::MAX,
    ensures
        at == (expert * hidden + o) * inter,
{
    proof {
        assert(0 <= expert * hidden) by (nonlinear_arith);
    }
    row_start(expert * hidden + o, inter)
}

/// A row of a matrix lies inside of it.
pub proof fn law_row_inside(rows: nat, width: nat, row: nat)
    requires
        row < rows,
    ensures
        row * width + width <= rows * width,
{
    assert(row * width + width <= rows * width) by (nonlinear_arith)
        requires
            row < rows,
    ;
}

/// The rows of a matrix do not overlap.
pub proof fn law_rows_apart(width: nat, a: nat, b: nat)
    requires
        a < b,
    ensures
        a * width + width <= b * width,
{
    assert(a * width + width <= b * width) by (nonlinear_arith)
        requires
            a < b,
    ;
}

/// Every element of a matrix stands in one of its rows.
pub proof fn law_rows_cover(rows: nat, width: nat, at: nat)
    requires
        at < rows * width,
    ensures
        exists|r: nat| r < rows && #[trigger] (r * width) <= at < r * width + width,
{
    assert(width > 0) by (nonlinear_arith)
        requires
            at < rows * width,
    ;
    let r = at / width;
    vstd::arithmetic::div_mod::lemma_fundamental_div_mod(at as int, width as int);
    assert(r * width == width * r) by (nonlinear_arith);
    assert(r < rows) by (nonlinear_arith)
        requires
            r * width <= at,
            at < rows * width,
            width > 0,
    ;
    assert(r * width <= at < r * width + width);
}

/// The inputs of a layer have the right sizes exactly if there are `hidden` numbers, `k`
/// experts and `k` weights for each token. A wrong number of numbers is reported before a
/// wrong number of experts or weights.
pub proof fn law_shapes(
    h_len: nat,
    topk_len: nat,
    weights_len: nat,
    num_tokens: nat,
    hidden: nat,
    k: nat,
)
    ensures
        ({
            let e = shape_error(h_len, topk_len, weights_len, num_tokens, hidden, k);
            &&& e is None <==> h_len == num_tokens * hidden && topk_len == num_tokens * k
                && weights_len == num_tokens * k
            &&& h_len != num_tokens * hidden ==> e == Some(ErrorView::Invalid("h size mismatch"@))
            &&& h_len == num_tokens * hidden && (topk_len != num_tokens * k || weights_len
                != num_tokens * k) ==> e == Some(
                ErrorView::Invalid("topk/weights size mismatch"@),
            )
        }),
{
}

} // verus!
