//! The weights of the layers of a model: how their tensors are named, and where each of
//! them goes.

use vstd::prelude::*;
use vstd::string::StringExecFns;

use crate::text;
use crate::tokenizer;

verus! {

/// The attention heads of a layer.
pub const HEADS: usize = 32;

/// The heads that keys and values are shared by.
pub const KV_HEADS: usize = 4;

/// The size of a head.
pub const HEAD_DIM: usize = 128;

/// The bits of the number one.
pub const ONE: u16 = 0x3f80;

/// A tensor of a layer.
#[derive(Debug, Clone, Copy, PartialEq, Eq, Structural)]
pub enum Part {
    InputNorm,
    PostNorm,
    Query,
    Key,
    Value,
    Output,
    QueryNorm,
    KeyNorm,
    Gate,
    ExpertGate(usize),
    ExpertUp(usize),
    ExpertDown(usize),
}

/// The end of the name of a tensor.
pub open spec fn part_name(part: Part) -> Seq<char> {
    match part {
        Part::InputNorm => ".input_layernorm.weight"@,
        Part::PostNorm => ".post_attention_layernorm.weight"@,
        Part::Query => ".self_attn.q_proj.weight"@,
        Part::Key => ".self_attn.k_proj.weight"@,
        Part::Value => ".self_attn.v_proj.weight"@,
        Part::Output => ".self_attn.o_proj.weight"@,
        Part::QueryNorm => ".self_attn.q_norm.weight"@,
        Part::KeyNorm => ".self_attn.k_norm.weight"@,
        Part::Gate => ".mlp.gate.weight"@,
        Part::ExpertGate(e) => ".mlp.experts."@ + text::dec(e as nat) + ".gate_proj.weight"@,
        Part::ExpertUp(e) => ".mlp.experts."@ + text::dec(e as nat) + ".up_proj.weight"@,
        Part::ExpertDown(e) => ".mlp.experts."@ + text::dec(e as nat) + ".down_proj.weight"@,
    }
}

/// The name of a tensor of a layer.
pub open spec fn name_of(layer: nat, part: Part) -> Seq<char> {
    "model.layers."@ + text::dec(layer) + part_name(part)
}

/// How the tensors of a layer are named.
pub proof fn law_names(layer: nat, part: Part)
    ensures
        part is InputNorm ==> name_of(layer, part) == "model.layers."@ + text::dec(layer)
            + ".input_layernorm.weight"@,
        part is PostNorm ==> name_of(layer, part) == "model.layers."@ + text::dec(layer)
            + ".post_attention_layernorm.weight"@,
        part is Query ==> name_of(layer, part) == "model.layers."@ + text::dec(layer)
            + ".self_attn.q_proj.weight"@,
        part is Key ==> name_of(layer, part) == "model.layers."@ + text::dec(layer)
            + ".self_attn.k_proj.weight"@,
        part is Value ==> name_of(layer, part) == "model.layers."@ + text::dec(layer)
            + ".self_attn.v_proj.weight"@,
        part is Output ==> name_of(layer, part) == "model.layers."@ + text::dec(layer)
            + ".self_attn.o_proj.weight"@,
        part is QueryNorm ==> name_of(layer, part) == "model.layers."@ + text::dec(layer)
            + ".self_attn.q_norm.weight"@,
        part is KeyNorm ==> name_of(layer, part) == "model.layers."@ + text::dec(layer)
            + ".self_attn.k_norm.weight"@,
        part is Gate ==> name_of(layer, part) == "model.layers."@ + text::dec(layer)
            + ".mlp.gate.weight"@,
        part matches Part::ExpertGate(e) ==> name_of(layer, part) == "model.layers."@ + text::dec(layer)
            + ".mlp.experts."@ + text::dec(e as nat) + ".gate_proj.weight"@,
        part matches Part::ExpertUp(e) ==> name_of(layer, part) == "model.layers."@ + text::dec(layer)
            + ".mlp.experts."@ + text::dec(e as nat) + ".up_proj.weight"@,
        part matches Part::ExpertDown(e) ==> name_of(layer, part) == "model.layers."@ + text::dec(layer)
            + ".mlp.experts."@ + text::dec(e as nat) + ".down_proj.weight"@,
{
    match part {
        Part::ExpertGate(e) | Part::ExpertUp(e) | Part::ExpertDown(e) => {
            let head = "model.layers."@ + text::dec(layer);
            assert(name_of(layer, Part::ExpertGate(e)) =~= head + ".mlp.experts."@ + text::dec(
                e as nat,
            ) + ".gate_proj.weight"@);
            assert(name_of(layer, Part::ExpertUp(e)) =~= head + ".mlp.experts."@ + text::dec(
                e as nat,
            ) + ".up_proj.weight"@);
            assert(name_of(layer, Part::ExpertDown(e)) =~= head + ".mlp.experts."@ + text::dec(
                e as nat,
            ) + ".down_proj.weight"@);
        },
        _ => {},
    }
}

/// The name of a tensor of a layer.
pub fn tensor_name(layer: usize, part: Part) -> (s: String)
    ensures
        s@ == name_of(layer as nat, part),
        part is InputNorm ==> s@ == "model.layers."@ + text::dec(layer as nat)
            + ".input_layernorm.weight"@,
        part is PostNorm ==> s@ == "model.layers."@ + text::dec(layer as nat)
            + ".post_attention_layernorm.weight"@,
        part is Query ==> s@ == "model.layers."@ + text::dec(layer as nat)
            + ".self_attn.q_proj.weight"@,
        part is Key ==> s@ == "model.layers."@ + text::dec(layer as nat)
            + ".self_attn.k_proj.weight"@,
        part is Value ==> s@ == "model.layers."@ + text::dec(layer as nat)
            + ".self_attn.v_proj.weight"@,
        part is Output ==> s@ == "model.layers."@ + text::dec(layer as nat)
            + ".self_attn.o_proj.weight"@,
        part is QueryNorm ==> s@ == "model.layers."@ + text::dec(layer as nat)
            + ".self_attn.q_norm.weight"@,
        part is KeyNorm ==> s@ == "model.layers."@ + text::dec(layer as nat)
            + ".self_attn.k_norm.weight"@,
        part is Gate ==> s@ == "model.layers."@ + text::dec(layer as nat) + ".mlp.gate.weight"@,
        part matches Part::ExpertGate(e) ==> s@ == "model.layers."@ + text::dec(layer as nat)
            + ".mlp.experts."@ + text::dec(e as nat) + ".gate_proj.weight"@,
        part matches Part::ExpertUp(e) ==> s@ == "model.layers."@ + text::dec(layer as nat)
            + ".mlp.experts."@ + text::dec(e as nat) + ".up_proj.weight"@,
        part matches Part::ExpertDown(e) ==> s@ == "model.layers."@ + text::dec(layer as nat)
            + ".mlp.experts."@ + text::dec(e as nat) + ".down_proj.weight"@,
{
    proof {
        law_names(layer as nat, part);
    }
    let mut s = "model.layers.".to_owned();
    text::push_dec(&mut s, layer as u64);
    let ghost head = s@;
    match part {
        Part::InputNorm => s.append(".input_layernorm.weight"),
        Part::PostNorm => s.append(".post_attention_layernorm.weight"),
        Part::Query => s.append(".self_attn.q_proj.weight"),
        Part::Key => s.append(".self_attn.k_proj.weight"),
        Part::Value => s.append(".self_attn.v_proj.weight"),
        Part::Output => s.append(".self_attn.o_proj.weight"),
        Part::QueryNorm => s.append(".self_attn.q_norm.weight"),
        Part::KeyNorm => s.append(".self_attn.k_norm.weight"),
        Part::Gate => s.append(".mlp.gate.weight"),
        Part::ExpertGate(e) => expert_suffix(&mut s, e, ".gate_proj.weight"),
        Part::ExpertUp(e) => expert_suffix(&mut s, e, ".up_proj.weight"),
        Part::ExpertDown(e) => expert_suffix(&mut s, e, ".down_proj.weight"),
    }
    proof {
        assert(s@ =~= head + part_name(part));
    }
    s
}

fn expert_suffix(s: &mut String, e: usize, end: &str)
    ensures
        final(s)@ == old(s)@ + (".mlp.experts."@ + text::dec(e as nat) + end@),
{
    let ghost head = s@;
    s.append(".mlp.experts.");
    text::push_dec(s, e as u64);
    s.append(end);
    proof {
        assert(s@ =~= head + (".mlp.experts."@ + text::dec(e as nat) + end@));
    }
}

/// The tensors of the experts of a layer, up to expert `e`: gate, up and down of each.
pub open spec fn expert_parts(e: nat) -> Seq<Part> {
    Seq::new(
        3 * e,
        |i: int|
            if i % 3 == 0 {
                Part::ExpertGate((i / 3) as usize)
            } else if i % 3 == 1 {
                Part::ExpertUp((i / 3) as usize)
            } else {
                Part::ExpertDown((i / 3) as usize)
            },
    )
}

/// The tensors of a layer with `e` experts, in the order in which they are looked for.
pub open spec fn layer_parts(e: nat) -> Seq<Part> {
    seq![
        Part::InputNorm,
        Part::PostNorm,
        Part::Query,
        Part::Key,
        Part::Value,
        Part::Output,
        Part::QueryNorm,
        Part::KeyNorm,
        Part::Gate,
    ] + expert_parts(e)
}

/// The tensors of the experts of a layer.
pub fn parts_of_experts(e: usize) -> (v: Vec<Part>)
    requires
        3 * e <= usize::MAX,
    ensures
        v@ == expert_parts(e as nat),
{
    let mut v: Vec<Part> = Vec::new();
    for i in 0..e
        invariant
            3 * e <= usize::MAX,
            v@ == expert_parts(i as nat),
    {
        v.push(Part::ExpertGate(i));
        v.push(Part::ExpertUp(i));
        v.push(Part::ExpertDown(i));
        proof {
            assert(v@ =~= expert_parts(i as nat + 1));
        }
    }
    v
}

/// The tensors of a layer with `e` experts.
pub fn parts_of_layer(e: usize) -> (v: Vec<Part>)
    requires
        3 * e <= usize::MAX,
    ensures
        v@ == layer_parts(e as nat),
{
    let mut v: Vec<Part> = vec![
        Part::InputNorm,
        Part::PostNorm,
        Part::Query,
        Part::Key,
        Part::Value,
        Part::Output,
        Part::QueryNorm,
        Part::KeyNorm,
        Part::Gate,
    ];
    let mut rest = parts_of_experts(e);
    v.append(&mut rest);
    v
}

/// The sizes of the layers of a model.
#[derive(Debug, Clone, Copy, PartialEq, Eq, Structural)]
pub struct Shape {
    pub hidden: usize,
    /// The number of experts.
    pub experts: usize,
    /// The inner size of an expert.
    pub inter: usize,
}

impl Shape {
    /// The elements of one of the three tensors of an expert.
    pub open spec fn block(self) -> nat {
        self.inter as nat * self.hidden as nat
    }

    /// All tensors of a layer have a size that a machine can count.
    pub open spec fn countable(self) -> bool {
        &&& HEADS as nat * HEAD_DIM as nat * self.hidden as nat <= usize::MAX
        &&& self.experts as nat * self.hidden as nat <= usize::MAX
        &&& 2 * (self.experts as nat * self.block()) <= usize::MAX
    }
}

/// The weights of a layer, as the bits of 16-bit floating-point numbers.
#[derive(Debug)]
pub struct Layer {
    pub q: Vec<u16>,
    pub k: Vec<u16>,
    pub v: Vec<u16>,
    pub o: Vec<u16>,
    pub q_norm: Vec<u16>,
    pub k_norm: Vec<u16>,
    pub in_norm: Vec<u16>,
    pub post_norm: Vec<u16>,
    pub gate: Vec<u16>,
    /// For each expert its gate weights, then its up weights.
    pub w13: Vec<u16>,
    /// For each expert its down weights.
    pub w2: Vec<u16>,
}

/// The weights of a layer as a mathematical value.
#[verifier::ext_equal]
pub struct LayerView {
    pub q: Seq<u16>,
    pub k: Seq<u16>,
    pub v: Seq<u16>,
    pub o: Seq<u16>,
    pub q_norm: Seq<u16>,
    pub k_norm: Seq<u16>,
    pub in_norm: Seq<u16>,
    pub post_norm: Seq<u16>,
    pub gate: Seq<u16>,
    pub w13: Seq<u16>,
    pub w2: Seq<u16>,
}

impl View for Layer {
    type V = LayerView;

    open spec fn view(&self) -> LayerView {
        LayerView {
            q: self.q@,
            k: self.k@,
            v: self.v@,
            o: self.o@,
            q_norm: self.q_norm@,
            k_norm: self.k_norm@,
            in_norm: self.in_norm@,
            post_norm: self.post_norm@,
            gate: self.gate@,
            w13: self.w13@,
            w2: self.w2@,
        }
    }
}

/// `n` times the same bits.
pub open spec fn filled(n: nat, x: u16) -> Seq<u16> {
    Seq::new(n, |i: int| x)
}

/// A layer before any of its tensors was read: norms are one, everything else is zero.
pub open spec fn blank(s: Shape) -> LayerView {
    let h = s.hidden as nat;
    let hq = HEADS as nat * HEAD_DIM as nat * h;
    let hk = KV_HEADS as nat * HEAD_DIM as nat * h;
    LayerView {
        q: filled(hq, 0),
        k: filled(hk, 0),
        v: filled(hk, 0),
        o: filled(hq, 0),
        q_norm: filled(HEAD_DIM as nat, ONE),
        k_norm: filled(HEAD_DIM as nat, ONE),
        in_norm: filled(h, ONE),
        post_norm: filled(h, ONE),
        gate: filled(s.experts as nat * h, 0),
        w13: filled(2 * (s.experts as nat * s.block()), 0),
        w2: filled(s.experts as nat * s.block(), 0),
    }
}

/// `dst` with `bits` written over it from place `off` on.
pub open spec fn spliced(dst: Seq<u16>, off: int, bits: Seq<u16>) -> Seq<u16> {
    Seq::new(
        dst.len(),
        |i: int|
            if off <= i < off + bits.len() {
                bits[i - off]
            } else {
                dst[i]
            },
    )
}

/// Where the weights of an expert begin: gate and up in `w13`, down in `w2`.
pub open spec fn offset(part: Part, s: Shape) -> int {
    match part {
        Part::ExpertGate(e) => 2 * (e as int * s.block()),
        Part::ExpertUp(e) => 2 * (e as int * s.block()) + s.block(),
        Part::ExpertDown(e) => e as int * s.block(),
        _ => 0,
    }
}

/// Whether a tensor of `n` elements can be put in its place.
pub open spec fn fits(part: Part, n: nat, s: Shape) -> bool {
    match part {
        Part::ExpertGate(e) | Part::ExpertUp(e) | Part::ExpertDown(e) => e < s.experts && n
            == s.block(),
        _ => true,
    }
}

/// The layer with a tensor put in its place.
pub open spec fn placed(l: LayerView, part: Part, bits: Seq<u16>, s: Shape) -> LayerView {
    match part {
        Part::InputNorm => LayerView { in_norm: bits, ..l },
        Part::PostNorm => LayerView { post_norm: bits, ..l },
        Part::Query => LayerView { q: bits, ..l },
        Part::Key => LayerView { k: bits, ..l },
        Part::Value => LayerView { v: bits, ..l },
        Part::Output => LayerView { o: bits, ..l },
        Part::QueryNorm => LayerView { q_norm: bits, ..l },
        Part::KeyNorm => LayerView { k_norm: bits, ..l },
        Part::Gate => LayerView { gate: bits, ..l },
        Part::ExpertGate(_) | Part::ExpertUp(_) => LayerView {
            w13: spliced(l.w13, offset(part, s), bits),
            ..l
        },
        Part::ExpertDown(_) => LayerView { w2: spliced(l.w2, offset(part, s), bits), ..l },
    }
}

fn fill(n: usize, x: u16) -> (v: Vec<u16>)
    ensures
        v@ == filled(n as nat, x),
{
    let mut v: Vec<u16> = Vec::new();
    for i in 0..n
        invariant
            v@ == filled(i as nat, x),
    {
        v.push(x);
    }
    v
}

fn splice(dst: &mut Vec<u16>, off: usize, bits: &[u16])
    requires
        off + bits@.len() <= old(dst)@.len(),
    ensures
        final(dst)@ == spliced(old(dst)@, off as int, bits@),
{
    let ghost before = dst@;
    let room: usize = dst.len();
    for i in 0..bits.len()
        invariant
            before == old(dst)@,
            before.len() == room,
            off + bits@.len() <= before.len(),
            dst@.len() == before.len(),
            dst@ == spliced(before, off as int, bits@.take(i as int)),
    {
        dst.set(off + i, bits[i]);
        proof {
            assert(dst@ =~= spliced(before, off as int, bits@.take(i + 1)));
        }
    }
    proof {
        assert(bits@.take(bits@.len() as int) =~= bits@);
    }
}

proof fn lemma_expert_room(e: int, s: Shape)
    requires
        0 <= e < s.experts,
    ensures
        e * s.block() + s.block() <= s.experts as nat * s.block(),
        0 <= e * s.block(),
{
    let b = s.block() as int;
    let n = s.experts as int;
    assert(e * b + b <= n * b) by (nonlinear_arith)
        requires
            0 <= e < n,
            0 <= b,
    ;
    assert(0 <= e * b) by (nonlinear_arith)
        requires
            0 <= e,
            0 <= b,
    ;
}

proof fn lemma_sizes(s: Shape)
    requires
        s.countable(),
    ensures
        KV_HEADS as nat * HEAD_DIM as nat * s.hidden as nat <= usize::MAX,
        s.experts as nat * s.block() <= usize::MAX,
        s.experts > 0 ==> s.block() <= usize::MAX,
{
    let b = s.block() as int;
    let n = s.experts as int;
    let h = s.hidden as nat;
    assert(HEADS as nat * HEAD_DIM as nat * h == 4096 * h);
    assert(KV_HEADS as nat * HEAD_DIM as nat * h == 512 * h);
    if n > 0 {
        assert(b <= n * b) by (nonlinear_arith)
            requires
                n >= 1,
                b >= 0,
        ;
    }
}

impl Layer {
    /// A layer before any of its tensors was read.
    pub fn empty(s: Shape) -> (l: Self)
        requires
            s.countable(),
        ensures
            l@ == blank(s),
    {
        proof {
            lemma_sizes(s);
        }
        let hq: usize = 4096 * s.hidden;
        let hk: usize = 512 * s.hidden;
        let weights: usize = if s.experts == 0 {
            0
        } else {
            s.experts * (s.inter * s.hidden)
        };
        proof {
            assert(s.experts == 0 ==> s.experts as nat * s.block() == 0);
        }
        Layer {
            q: fill(hq, 0),
            k: fill(hk, 0),
            v: fill(hk, 0),
            o: fill(hq, 0),
            q_norm: fill(HEAD_DIM, ONE),
            k_norm: fill(HEAD_DIM, ONE),
            in_norm: fill(s.hidden, ONE),
            post_norm: fill(s.hidden, ONE),
            gate: fill(s.experts * s.hidden, 0),
            w13: fill(2 * weights, 0),
            w2: fill(weights, 0),
        }
    }

    /// Puts a tensor in its place.
    pub fn place(&mut self, part: Part, bits: Vec<u16>, s: Shape)
        requires
            s.countable(),
            old(self)@.w13.len() == 2 * (s.experts as nat * s.block()),
            old(self)@.w2.len() == s.experts as nat * s.block(),
            fits(part, bits@.len(), s),
        ensures
            final(self)@ == placed(old(self)@, part, bits@, s),
    {
        match part {
            Part::InputNorm => {
                self.in_norm = bits;
            },
            Part::PostNorm => {
                self.post_norm = bits;
            },
            Part::Query => {
                self.q = bits;
            },
            Part::Key => {
                self.k = bits;
            },
            Part::Value => {
                self.v = bits;
            },
            Part::Output => {
                self.o = bits;
            },
            Part::QueryNorm => {
                self.q_norm = bits;
            },
            Part::KeyNorm => {
                self.k_norm = bits;
            },
            Part::Gate => {
                self.gate = bits;
            },
            Part::ExpertGate(e) => {
                let block: usize = bits.len();
                proof {
                    lemma_expert_room(e as int, s);
                }
                splice(&mut self.w13, 2 * (e * block), bits.as_slice());
            },
            Part::ExpertUp(e) => {
                let block: usize = bits.len();
                proof {
                    lemma_expert_room(e as int, s);
                }
                splice(&mut self.w13, 2 * (e * block) + block, bits.as_slice());
            },
            Part::ExpertDown(e) => {
                let block: usize = bits.len();
                proof {
                    lemma_expert_room(e as int, s);
                }
                splice(&mut self.w2, e * block, bits.as_slice());
            },
        }
    }
}

/// Whether a tensor of `n` elements can be put in its place.
pub fn can_place(part: Part, n: usize, s: Shape) -> (b: bool)
    requires
        s.countable(),
    ensures
        b == fits(part, n as nat, s),
{
    match part {
        Part::ExpertGate(e) | Part::ExpertUp(e) | Part::ExpertDown(e) => {
            if e < s.experts {
                proof {
                    lemma_sizes(s);
                }
                n == s.inter * s.hidden
            } else {
                false
            }
        },
        _ => true,
    }
}

/// The weights of an expert stand together: its gate weights are followed by its up
/// weights, and nothing else of the layer is changed by putting one of them in place.
pub proof fn law_expert_block(l: LayerView, part: Part, bits: Seq<u16>, s: Shape)
    requires
        fits(part, bits.len(), s),
        l.w13.len() == 2 * (s.experts as nat * s.block()),
        l.w2.len() == s.experts as nat * s.block(),
    ensures
        ({
            let now = placed(l, part, bits, s);
            let off = offset(part, s);
            match part {
                Part::ExpertGate(_) | Part::ExpertUp(_) => {
                    &&& 0 <= off && off + s.block() <= l.w13.len()
                    &&& now.w13.subrange(off, off + s.block()) == bits
                    &&& now == (LayerView { w13: now.w13, ..l })
                    &&& forall|i: int|
                        0 <= i < l.w13.len() && !(off <= i < off + s.block())
                            ==> #[trigger] now.w13[i] == l.w13[i]
                },
                Part::ExpertDown(_) => {
                    &&& 0 <= off && off + s.block() <= l.w2.len()
                    &&& now.w2.subrange(off, off + s.block()) == bits
                    &&& now == (LayerView { w2: now.w2, ..l })
                    &&& forall|i: int|
                        0 <= i < l.w2.len() && !(off <= i < off + s.block())
                            ==> #[trigger] now.w2[i] == l.w2[i]
                },
                _ => now.w13 == l.w13 && now.w2 == l.w2,
            }
        }),
{
    match part {
        Part::ExpertGate(e) | Part::ExpertUp(e) | Part::ExpertDown(e) => {
            lemma_expert_room(e as int, s);
            let off = offset(part, s);
            let now = placed(l, part, bits, s);
            if part is ExpertDown {
                assert(now.w2.subrange(off, off + s.block()) =~= bits);
            } else {
                assert(now.w13.subrange(off, off + s.block()) =~= bits);
            }
        },
        _ => {},
    }
}

proof fn lemma_blocks_apart(a: int, b: int, s: Shape)
    requires
        0 <= a < b,
    ensures
        a * s.block() + s.block() <= b * s.block(),
{
    let n = s.block() as int;
    assert(a * n + n <= b * n) by (nonlinear_arith)
        requires
            0 <= a < b,
            0 <= n,
    ;
}

/// Two different tensors do not disturb each other: it does not matter which of them is
/// put in its place first.
pub proof fn law_places_commute(
    l: LayerView,
    p: Part,
    p_bits: Seq<u16>,
    q: Part,
    q_bits: Seq<u16>,
    s: Shape,
)
    requires
        p != q,
        fits(p, p_bits.len(), s),
        fits(q, q_bits.len(), s),
    ensures
        placed(placed(l, p, p_bits, s), q, q_bits, s) == placed(
            placed(l, q, q_bits, s),
            p,
            p_bits,
            s,
        ),
{
    let one = placed(placed(l, p, p_bits, s), q, q_bits, s);
    let two = placed(placed(l, q, q_bits, s), p, p_bits, s);
    match (p, q) {
        (Part::ExpertGate(a), Part::ExpertGate(b)) | (Part::ExpertGate(a), Part::ExpertUp(b)) | (
            Part::ExpertUp(a),
            Part::ExpertGate(b),
        ) | (Part::ExpertUp(a), Part::ExpertUp(b)) => {
            if a < b {
                lemma_blocks_apart(a as int, b as int, s);
            } else if b < a {
                lemma_blocks_apart(b as int, a as int, s);
            }
            assert(one.w13 =~= two.w13);
        },
        (Part::ExpertDown(a), Part::ExpertDown(b)) => {
            if a < b {
                lemma_blocks_apart(a as int, b as int, s);
            } else {
                lemma_blocks_apart(b as int, a as int, s);
            }
            assert(one.w2 =~= two.w2);
        },
        _ => {},
    }
    assert(one =~= two);
}

/// A tensor that is to be read.
#[derive(Debug)]
pub struct Item {
    pub layer: usize,
    pub part: Part,
    pub name: String,
}

/// A tensor that is to be read, as a mathematical value.
#[verifier::ext_equal]
pub struct ItemView {
    pub layer: nat,
    pub part: Part,
    pub name: Seq<char>,
}

impl View for Item {
    type V = ItemView;

    open spec fn view(&self) -> ItemView {
        ItemView { layer: self.layer as nat, part: self.part, name: self.name@ }
    }
}

/// Items as mathematical values.
pub open spec fn item_views(v: Seq<Item>) -> Seq<ItemView> {
    v.map_values(|i: Item| i@)
}

/// The given tensors of a layer.
pub open spec fn items_of(layer: nat, parts: Seq<Part>) -> Seq<ItemView> {
    parts.map_values(|p: Part| ItemView { layer, part: p, name: name_of(layer, p) })
}

/// The given tensors of each of the first `n` layers.
pub open spec fn items_of_layers(n: nat, parts: Seq<Part>) -> Seq<ItemView>
    decreases n,
{
    if n == 0 {
        Seq::empty()
    } else {
        items_of_layers((n - 1) as nat, parts) + items_of((n - 1) as nat, parts)
    }
}

/// The given tensors of each of the first `n` layers, with their names.
pub fn items(n: usize, parts: &[Part]) -> (v: Vec<Item>)
    ensures
        item_views(v@) == items_of_layers(n as nat, parts@),
{
    let mut v: Vec<Item> = Vec::new();
    proof {
        assert(item_views(v@) =~= Seq::empty());
    }
    for layer in 0..n
        invariant
            item_views(v@) == items_of_layers(layer as nat, parts@),
    {
        let ghost before = item_views(v@);
        proof {
            assert(before + items_of(layer as nat, parts@.take(0)) =~= before);
        }
        for i in 0..parts.len()
            invariant
                item_views(v@) == before + items_of(layer as nat, parts@.take(i as int)),
        {
            let item = Item { layer, part: parts[i], name: tensor_name(layer, parts[i]) };
            proof {
                assert(item_views(v@.push(item)) =~= item_views(v@).push(item@));
                assert(items_of(layer as nat, parts@.take(i + 1)) =~= items_of(
                    layer as nat,
                    parts@.take(i as int),
                ).push(item@));
            }
            v.push(item);
        }
        proof {
            assert(parts@.take(parts@.len() as int) =~= parts@);
        }
    }
    v
}

/// The tensors that are read from one file.
#[derive(Debug)]
pub struct Group {
    pub shard: String,
    pub items: Vec<Item>,
}

/// The tensors that are read from the given file.
pub open spec fn items_for(
    located: Seq<(ItemView, Seq<char>)>,
    shard: Seq<char>,
) -> Seq<ItemView>
    decreases located.len(),
{
    if located.len() == 0 {
        Seq::empty()
    } else if located.last().1 == shard {
        items_for(located.drop_last(), shard).push(located.last().0)
    } else {
        items_for(located.drop_last(), shard)
    }
}

/// Tensors with the files that hold them, as mathematical values.
pub open spec fn located_view(v: Seq<(Item, String)>) -> Seq<(ItemView, Seq<char>)> {
    v.map_values(|e: (Item, String)| (e.0@, e.1@))
}

/// The files of the groups.
pub open spec fn group_shards(g: Seq<Group>) -> Seq<Seq<char>> {
    g.map_values(|x: Group| x.shard@)
}

/// The files that hold the tensors.
pub open spec fn located_shards(l: Seq<(ItemView, Seq<char>)>) -> Seq<Seq<char>> {
    l.map_values(|e: (ItemView, Seq<char>)| e.1)
}

/// Whether tensors are grouped: a group for each file, in the order in which the files
/// come first, with all tensors of the file in their order.
pub open spec fn grouped(located: Seq<(ItemView, Seq<char>)>, g: Seq<Group>) -> bool {
    &&& group_shards(g) == tokenizer::interned(located_shards(located))
    &&& forall|i: int|
        0 <= i < g.len() ==> item_views((#[trigger] g[i]).items@) == items_for(located, g[i].shard@)
}

/// Groups tensors by the file that holds them, so that each file is opened once.
pub fn group_by_shard(located: Vec<(Item, String)>) -> (g: Vec<Group>)
    ensures
        grouped(located_view(located@), g@),
{
    let mut g: Vec<Group> = Vec::new();
    let ghost all = located_view(located@);
    proof {
        assert(group_shards(g@) =~= Seq::empty());
        assert(located_shards(all.take(0)) =~= Seq::empty());
    }
    for entry in it: located
        invariant
            located_view(it.seq()) == all,
            grouped(all.take(it.index()), g@),
    {
        let ghost i = it.index();
        let ghost before = g@;
        let ghost done = all.take(i);
        let (item, shard) = entry;
        proof {
            assert(all.take(i + 1).drop_last() =~= done);
            assert(all.take(i + 1).last() == (item@, shard@));
            assert(located_shards(all.take(i + 1)) =~= located_shards(done).push(shard@));
            assert(located_shards(all.take(i + 1)).drop_last() =~= located_shards(done));
            tokenizer::law_interned_once(located_shards(done));
        }
        let mut at: usize = 0;
        while at < g.len() && !text::equal(g[at].shard.as_str(), shard.as_str())
            invariant
                g@ == before,
                at <= g@.len(),
                forall|k: int| 0 <= k < at ==> (#[trigger] before[k]).shard@ != shard@,
            decreases g@.len() - at,
        {
            at = at + 1;
        }
        let ghost names = group_shards(before);
        if at < g.len() {
            proof {
                assert(names[at as int] == shard@);
                assert(names.contains(shard@));
                assert(item_views(before[at as int].items@.push(item)) =~= item_views(
                    before[at as int].items@,
                ).push(item@));
            }
            g[at].items.push(item);
            proof {
                assert(group_shards(g@) =~= names);
                assert forall|k: int| 0 <= k < g@.len() implies item_views((#[trigger] g@[k]).items@)
                    == items_for(all.take(i + 1), g@[k].shard@) by {
                    if k != at {
                        assert(names[k] != names[at as int]);
                        assert(g@[k] == before[k]);
                    }
                }
            }
        } else {
            proof {
                assert(!names.contains(shard@)) by {
                    if names.contains(shard@) {
                        let k = names.index_of(shard@);
                        assert(before[k].shard@ == shard@);
                    }
                }
                lemma_items_for_none(done, shard@);
                assert(!located_shards(done).contains(shard@));
            }
            let mut items: Vec<Item> = Vec::new();
            proof {
                assert(item_views(items@.push(item)) =~= items_for(done, shard@).push(item@));
            }
            items.push(item);
            g.push(Group { shard, items });
            proof {
                assert(group_shards(g@) =~= names.push(shard@));
                assert forall|k: int| 0 <= k < g@.len() implies item_views((#[trigger] g@[k]).items@)
                    == items_for(all.take(i + 1), g@[k].shard@) by {
                    if k < before.len() {
                        assert(g@[k] == before[k]);
                        assert(names[k] != shard@);
                    }
                }
            }
        }
    }
    proof {
        assert(all.take(all.len() as int) =~= all);
    }
    g
}

proof fn lemma_items_for_none(located: Seq<(ItemView, Seq<char>)>, shard: Seq<char>)
    ensures
        !located_shards(located).contains(shard) ==> items_for(located, shard).len() == 0,
    decreases located.len(),
{
    if located.len() > 0 {
        let init = located.drop_last();
        lemma_items_for_none(init, shard);
        let names = located_shards(located);
        assert(names[located.len() - 1] == located.last().1);
        if !names.contains(shard) && located_shards(init).contains(shard) {
            let k = located_shards(init).index_of(shard);
            assert(names[k] == shard);
        }
    }
}

/// Every tensor is read from its file, once, and from no other.
pub proof fn law_groups_cover(located: Seq<(ItemView, Seq<char>)>, g: Seq<Group>, i: int)
    requires
        grouped(located, g),
        0 <= i < located.len(),
    ensures
        exists|k: int|
            0 <= k < g.len() && (#[trigger] g[k]).shard@ == located[i].1 && item_views(
                g[k].items@,
            ).contains(located[i].0),
        forall|a: int, b: int|
            0 <= a < b < g.len() ==> (#[trigger] g[a]).shard@ != (#[trigger] g[b]).shard@,
{
    let names = located_shards(located);
    tokenizer::law_interned_once(names);
    assert(names[i] == located[i].1);
    assert(names.contains(located[i].1));
    let shards = group_shards(g);
    assert(shards.contains(located[i].1));
    let k = shards.index_of(located[i].1);
    assert(g[k].shard@ == located[i].1);
    lemma_items_for_has(located, i);
    assert forall|a: int, b: int| 0 <= a < b < g.len() implies (#[trigger] g[a]).shard@ != (
    #[trigger] g[b]).shard@ by {
        assert(shards[a] != shards[b]);
    }
}

proof fn lemma_items_for_has(located: Seq<(ItemView, Seq<char>)>, i: int)
    requires
        0 <= i < located.len(),
    ensures
        items_for(located, located[i].1).contains(located[i].0),
    decreases located.len(),
{
    let shard = located[i].1;
    let now = items_for(located, shard);
    if i == located.len() - 1 {
        assert(now.last() == located[i].0);
    } else {
        lemma_items_for_has(located.drop_last(), i);
        let before = items_for(located.drop_last(), shard);
        let k = before.index_of(located[i].0);
        assert(now[k] == located[i].0);
    }
}

/// The tensors of a layer are its nine own and, for each expert in turn, gate, up and down:
/// every one of them once.
pub proof fn law_parts(e: nat)
    requires
        e <= usize::MAX,
    ensures
        layer_parts(e).len() == 9 + 3 * e,
        layer_parts(e).take(9) == seq![
            Part::InputNorm,
            Part::PostNorm,
            Part::Query,
            Part::Key,
            Part::Value,
            Part::Output,
            Part::QueryNorm,
            Part::KeyNorm,
            Part::Gate,
        ],
        layer_parts(e).skip(9) == expert_parts(e),
        expert_parts(e).len() == 3 * e,
        forall|x: nat|
            x < e ==> #[trigger] expert_parts(e)[3 * x as int] == Part::ExpertGate(x as usize)
                && expert_parts(e)[3 * x as int + 1] == Part::ExpertUp(x as usize)
                && expert_parts(e)[3 * x as int + 2] == Part::ExpertDown(x as usize),
{
    assert(layer_parts(e).skip(9) =~= expert_parts(e));
    assert(layer_parts(e).take(9) =~= seq![
        Part::InputNorm,
        Part::PostNorm,
        Part::Query,
        Part::Key,
        Part::Value,
        Part::Output,
        Part::QueryNorm,
        Part::KeyNorm,
        Part::Gate,
    ]);
}

/// The given tensors of the first `n` layers stand layer after layer, each with its layer, its
/// part and its name.
pub proof fn law_items(n: nat, parts: Seq<Part>, layer: nat, i: int)
    requires
        layer < n,
        0 <= i < parts.len(),
    ensures
        items_of_layers(n, parts).len() == n * parts.len(),
        0 <= layer * parts.len() + i < n * parts.len(),
        items_of_layers(n, parts)[layer * parts.len() + i].layer == layer,
        items_of_layers(n, parts)[layer * parts.len() + i].part == parts[i],
        items_of_layers(n, parts)[layer * parts.len() + i].name == name_of(layer, parts[i]),
    decreases n,
{
    let m = parts.len();
    let k = (n - 1) as nat;
    lemma_items_len(k, parts);
    lemma_items_len(n, parts);
    assert(n * m == k * m + m) by (nonlinear_arith)
        requires
            n == k + 1,
    ;
    assert(0 <= layer * m) by (nonlinear_arith);
    if layer == k {
        assert(items_of(k, parts)[i].part == parts[i]);
    } else {
        law_items(k, parts, layer, i);
    }
}

proof fn lemma_items_len(n: nat, parts: Seq<Part>)
    ensures
        items_of_layers(n, parts).len() == n * parts.len(),
    decreases n,
{
    if n == 0 {
        assert(n * parts.len() == 0) by (nonlinear_arith)
            requires
                n == 0,
        ;
    } else {
        let k = (n - 1) as nat;
        lemma_items_len(k, parts);
        assert(n * parts.len() == k * parts.len() + parts.len()) by (nonlinear_arith)
            requires
                n == k + 1,
        ;
    }
}

/// Where a tensor of an expert goes. Each expert has a stretch of twice its inner size times
/// the hidden size in `w13`, its gate weights first and its up weights after them, and one of
/// the inner size times the hidden size in `w2`.
pub proof fn law_places(l: LayerView, bits: Seq<u16>, s: Shape, e: usize)
    requires
        e < s.experts,
        bits.len() == s.inter as nat * s.hidden as nat,
        l.w13.len() == 2 * (s.experts as nat * (s.inter as nat * s.hidden as nat)),
        l.w2.len() == s.experts as nat * (s.inter as nat * s.hidden as nat),
    ensures
        ({
            let n = s.inter as int * s.hidden as int;
            let at = e as int * n;
            let gate = placed(l, Part::ExpertGate(e), bits, s);
            let up = placed(l, Part::ExpertUp(e), bits, s);
            let down = placed(l, Part::ExpertDown(e), bits, s);
            &&& 0 <= at && at + n <= l.w2.len() && 2 * at + 2 * n <= l.w13.len()
            &&& gate == (LayerView {
                w13: l.w13.take(2 * at) + bits + l.w13.skip(2 * at + n),
                ..l
            })
            &&& up == (LayerView {
                w13: l.w13.take(2 * at + n) + bits + l.w13.skip(2 * at + 2 * n),
                ..l
            })
            &&& down == (LayerView { w2: l.w2.take(at) + bits + l.w2.skip(at + n), ..l })
        }),
{
    lemma_expert_room(e as int, s);
    let n = s.inter as int * s.hidden as int;
    let at = e as int * n;
    assert(placed(l, Part::ExpertGate(e), bits, s).w13 =~= l.w13.take(2 * at) + bits + l.w13.skip(
        2 * at + n,
    ));
    assert(placed(l, Part::ExpertUp(e), bits, s).w13 =~= l.w13.take(2 * at + n) + bits
        + l.w13.skip(2 * at + 2 * n));
    assert(placed(l, Part::ExpertDown(e), bits, s).w2 =~= l.w2.take(at) + bits + l.w2.skip(at + n));
}

/// A layer before any of its tensors was read: every element of a norm is one, every other
/// element is zero, and the sizes are those of 32 heads and 4 heads for keys and values, of
/// 128 elements each.
pub proof fn law_blank(s: Shape)
    ensures
        ({
            let l = blank(s);
            let h = s.hidden as int;
            let w = s.experts as int * (s.inter as int * h);
            &&& l.q.len() == 4096 * h && l.o.len() == 4096 * h
            &&& l.k.len() == 512 * h && l.v.len() == 512 * h
            &&& l.q_norm.len() == 128 && l.k_norm.len() == 128
            &&& l.in_norm.len() == h && l.post_norm.len() == h
            &&& l.gate.len() == s.experts as int * h
            &&& l.w13.len() == 2 * w && l.w2.len() == w
            &&& forall|i: int| 0 <= i < l.q.len() ==> #[trigger] l.q[i] == 0
            &&& forall|i: int| 0 <= i < l.k.len() ==> #[trigger] l.k[i] == 0
            &&& forall|i: int| 0 <= i < l.v.len() ==> #[trigger] l.v[i] == 0
            &&& forall|i: int| 0 <= i < l.o.len() ==> #[trigger] l.o[i] == 0
            &&& forall|i: int| 0 <= i < l.gate.len() ==> #[trigger] l.gate[i] == 0
            &&& forall|i: int| 0 <= i < l.w13.len() ==> #[trigger] l.w13[i] == 0
            &&& forall|i: int| 0 <= i < l.w2.len() ==> #[trigger] l.w2[i] == 0
            &&& forall|i: int| 0 <= i < l.q_norm.len() ==> #[trigger] l.q_norm[i] == 0x3f80
            &&& forall|i: int| 0 <= i < l.k_norm.len() ==> #[trigger] l.k_norm[i] == 0x3f80
            &&& forall|i: int| 0 <= i < l.in_norm.len() ==> #[trigger] l.in_norm[i] == 0x3f80
            &&& forall|i: int| 0 <= i < l.post_norm.len() ==> #[trigger] l.post_norm[i] == 0x3f80
        }),
{
    let w = s.experts as nat * s.block();
    assert(0 <= w) by (nonlinear_arith)
        requires
            w == s.experts as nat * s.block(),
    ;
}

/// A tensor can be put in its place if it has the elements of its expert, or is of no expert.
pub proof fn law_fits(part: Part, n: nat, s: Shape)
    ensures
        fits(part, n, s) == match part {
            Part::ExpertGate(e) => e < s.experts && n == s.inter as nat * s.hidden as nat,
            Part::ExpertUp(e) => e < s.experts && n == s.inter as nat * s.hidden as nat,
            Part::ExpertDown(e) => e < s.experts && n == s.inter as nat * s.hidden as nat,
            _ => true,
        },
{
}

/// A group has exactly the tensors that its file holds, in their order.
pub proof fn law_group_contents(located: Seq<(ItemView, Seq<char>)>, g: Seq<Group>, k: int)
    requires
        grouped(located, g),
        0 <= k < g.len(),
    ensures
        ({
            let shard = g[k].shard@;
            item_views(g[k].items@) == located.filter(
                |e: (ItemView, Seq<char>)| e.1 == shard,
            ).map_values(|e: (ItemView, Seq<char>)| e.0)
        }),
        item_views(g[k].items@).len() > 0,
{
    lemma_items_for_filter(located, g[k].shard@);
    let names = located_shards(located);
    tokenizer::law_interned_once(names);
    assert(group_shards(g)[k] == g[k].shard@);
    assert(tokenizer::interned(names).contains(g[k].shard@));
    let i = names.index_of(g[k].shard@);
    assert(located[i].1 == g[k].shard@);
    lemma_items_for_has(located, i);
}

proof fn lemma_items_for_filter(located: Seq<(ItemView, Seq<char>)>, shard: Seq<char>)
    ensures
        items_for(located, shard) == located.filter(
            |e: (ItemView, Seq<char>)| e.1 == shard,
        ).map_values(|e: (ItemView, Seq<char>)| e.0),
    decreases located.len(),
{
    reveal(Seq::filter);
    let of = |e: (ItemView, Seq<char>)| e.1 == shard;
    let item = |e: (ItemView, Seq<char>)| e.0;
    if located.len() == 0 {
        assert(items_for(located, shard) =~= located.filter(of).map_values(item));
    } else {
        lemma_items_for_filter(located.drop_last(), shard);
        assert(items_for(located, shard) =~= located.filter(of).map_values(item));
    }
}

/// A tensor of attention, a norm or the router is taken whole, whatever its size, and nothing
/// else of the layer changes.
pub proof fn law_taken_whole(l: LayerView, bits: Seq<u16>, s: Shape)
    ensures
        placed(l, Part::InputNorm, bits, s) == (LayerView { in_norm: bits, ..l }),
        placed(l, Part::PostNorm, bits, s) == (LayerView { post_norm: bits, ..l }),
        placed(l, Part::Query, bits, s) == (LayerView { q: bits, ..l }),
        placed(l, Part::Key, bits, s) == (LayerView { k: bits, ..l }),
        placed(l, Part::Value, bits, s) == (LayerView { v: bits, ..l }),
        placed(l, Part::Output, bits, s) == (LayerView { o: bits, ..l }),
        placed(l, Part::QueryNorm, bits, s) == (LayerView { q_norm: bits, ..l }),
        placed(l, Part::KeyNorm, bits, s) == (LayerView { k_norm: bits, ..l }),
        placed(l, Part::Gate, bits, s) == (LayerView { gate: bits, ..l }),
{
}

/// The groups stand in the order in which their files come first: a tensor of the file of one
/// group comes before any of the file of a later group.
pub proof fn law_group_order(
    located: Seq<(ItemView, Seq<char>)>,
    g: Seq<Group>,
    a: int,
    b: int,
)
    requires
        grouped(located, g),
        0 <= a < b < g.len(),
    ensures
        exists|p: int|
            0 <= p < located.len() && (#[trigger] located[p]).1 == g[a].shard@ && forall|q: int|
                0 <= q <= p ==> (#[trigger] located[q]).1 != g[b].shard@,
{
    let names = located_shards(located);
    let shards = group_shards(g);
    assert(shards[a] == g[a].shard@ && shards[b] == g[b].shard@);
    tokenizer::law_interned_in_order(names, a, b);
    let p = choose|p: int|
        0 <= p < names.len() && names[p] == shards[a] && !(#[trigger] names.take(p + 1)).contains(
            shards[b],
        );
    assert(located[p].1 == names[p]);
    assert forall|q: int| 0 <= q <= p implies (#[trigger] located[q]).1 != g[b].shard@ by {
        assert(names.take(p + 1)[q] == located[q].1);
    }
}

} // verus!
