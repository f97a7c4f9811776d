//! Devices that work token by token: what they make of the first tokens of a
//! batch does not depend on the ones after.
use vstd::prelude::*;

use super::config::Config;
use super::fitting::{grouped, lemma_grouped, lemma_takes, takes};
use super::layer::{AttentionW, LayerW, LinearW, MixerW};
use super::pass::Net;
use crate::device::{Device, Mat};

verus! {

/// Whether a batch is `n` vectors of a width, of which there is one numbered
/// `j`.
pub open spec fn vectors(x: Seq<u32>, n: nat, j: nat, width: nat) -> bool {
    j < n && x.len() == n * width
}

/// The vector numbered `j`.
pub open spec fn vector(x: Seq<u32>, j: nat, width: nat) -> Seq<u32> {
    x.subrange((j * width) as int, ((j + 1) * width) as int)
}

/// Whether a function makes of each vector of a batch what it makes of that
/// vector alone.
pub open spec fn each(f: spec_fn(Seq<u32>) -> Seq<u32>, width: nat, out: nat) -> bool {
    forall|x: Seq<u32>, n: nat, j: nat| #[trigger]
        vectors(x, n, j, width) ==> {
            &&& f(x).len() == n * out
            &&& vector(f(x), j, out) == f(vector(x, j, width))
        }
}

/// Whether a batch is `n` vectors of a width, of which `k` are some.
pub open spec fn begins(x: Seq<u32>, n: nat, k: nat, width: nat) -> bool {
    0 < k <= n && x.len() == n * width
}

/// Whether there are as many of one as of another, and `k` are some.
pub open spec fn both(x: Seq<u32>, y: Seq<u32>, k: nat) -> bool {
    x.len() == y.len() && k <= x.len()
}

/// Whether a function of two vectors goes element by element.
pub open spec fn pairwise(f: spec_fn(Seq<u32>, Seq<u32>) -> Seq<u32>) -> bool {
    forall|x: Seq<u32>, y: Seq<u32>, k: nat| #[trigger]
        both(x, y, k) ==> {
            &&& f(x, y).len() == x.len()
            &&& f(x, y).take(k as int) == f(x.take(k as int), y.take(k as int))
        }
}

/// What goes vector by vector goes by the first of them.
pub proof fn lemma_first(
    f: spec_fn(Seq<u32>) -> Seq<u32>,
    width: nat,
    out: nat,
    x: Seq<u32>,
    n: nat,
    k: nat,
)
    requires
        each(f, width, out),
        begins(x, n, k, width),
    ensures
        f(x).len() == n * out,
        f(x).take((k * out) as int) == f(x.take((k * width) as int)),
        f(x.take((k * width) as int)).len() == k * out,
        k * width <= n * width,
        k * out <= n * out,
{
    assert(k * width <= n * width && k * out <= n * out) by (nonlinear_arith)
        requires
            k <= n,
    ;
    let y = x.take((k * width) as int);
    assert(vectors(x, n, 0, width));
    assert(vectors(y, k, 0, width));
    let (fx, fy) = (f(x), f(y));
    assert forall|i: int| 0 <= i < k * out implies #[trigger] fx[i] == fy[i] by {
        let o = out as int;
        let q = i / o;
        let r = i % o;
        assert(o > 0) by (nonlinear_arith)
            requires
                0 <= i < k * out,
                o == out,
        ;
        vstd::arithmetic::div_mod::lemma_fundamental_div_mod(i, o);
        assert(0 <= q < k && 0 <= r < o) by (nonlinear_arith)
            requires
                0 <= i < k * o,
                o > 0,
                q == i / o,
                r == i % o,
        ;
        let j = q as nat;
        assert(out * j == j * out) by (nonlinear_arith);
        assert((j + 1) * width <= k * width && (j + 1) * out <= k * out && j * width >= 0 && j * out
            >= 0 && (j + 1) * out == j * out + out && (j + 1) * width == j * width + width)
            by (nonlinear_arith)
            requires
                j + 1 <= k,
        ;
        assert(vectors(x, n, j, width));
        assert(vectors(y, k, j, width));
        assert(vector(x, j, width) =~= vector(y, j, width));
        assert(vector(fx, j, out)[r] == fx[i]);
        assert(vector(fy, j, out)[r] == fy[i]);
    }
    assert(fx.take((k * out) as int) =~= fy);
}

/// A product with a matrix, as a function of the batch.
pub open spec fn dotting<D: Device>(d: &D, m: Mat) -> spec_fn(Seq<u32>) -> Seq<u32> {
    |x: Seq<u32>| d.dot(m, x)
}

/// A normalization, as a function of the batch.
pub open spec fn norming<D: Device>(d: &D, w: Seq<u32>, eps: u32) -> spec_fn(Seq<u32>) -> Seq<u32> {
    |x: Seq<u32>| d.rms(x, w, eps)
}

/// A normalization by length, as a function of the batch.
pub open spec fn shortening<D: Device>(d: &D, dim: nat, eps: u32) -> spec_fn(Seq<u32>) -> Seq<u32> {
    |x: Seq<u32>| d.l2(x, dim, eps)
}

/// The transform, as a function of the batch.
pub open spec fn turning<D: Device>(d: &D, signs: Seq<u32>, inverse: bool) -> spec_fn(
    Seq<u32>,
) -> Seq<u32> {
    |x: Seq<u32>| d.turned(x, signs, inverse)
}

/// A normalization and the transform, as a function of the batch.
pub open spec fn norm_turning<D: Device>(
    d: &D,
    w: Seq<u32>,
    signs: Seq<u32>,
    eps: u32,
) -> spec_fn(Seq<u32>) -> Seq<u32> {
    |x: Seq<u32>| d.norm_turned(x, w, signs, eps)
}

/// Whether a product goes vector by vector.
pub open spec fn dots<D: Device>(d: &D, m: Mat) -> bool {
    each(dotting(d, m), m.cols, m.rows)
}

/// Whether a normalization goes vector by vector.
pub open spec fn norms<D: Device>(d: &D, w: Seq<u32>, eps: u32) -> bool {
    each(norming(d, w, eps), w.len(), w.len())
}

/// Whether the transform goes vector by vector.
pub open spec fn turns<D: Device>(d: &D, signs: Seq<u32>, inverse: bool) -> bool {
    each(turning(d, signs, inverse), signs.len(), signs.len())
}

/// Whether a normalization and the transform go vector by vector.
pub open spec fn norm_turns<D: Device>(d: &D, w: Seq<u32>, signs: Seq<u32>, eps: u32) -> bool {
    each(norm_turning(d, w, signs, eps), signs.len(), signs.len())
}

/// Whether the rotation of heads does not look past a token.
pub open spec fn ropes<D: Device>(
    d: &D,
    table: Seq<u32>,
    pos: nat,
    heads: nat,
    dim: nat,
    rot: nat,
) -> bool {
    forall|x: Seq<u32>, n: nat, k: nat| #[trigger]
        begins(x, n, k, heads * dim) && (pos + n) * rot <= table.len() ==> {
            let all = d.roped(x, table, pos, heads, dim, rot);
            let some = x.take((k * (heads * dim)) as int);
            &&& all.len() == n * (heads * dim)
            &&& all.take((k * (heads * dim)) as int) == d.roped(some, table, pos, heads, dim, rot)
        }
}

/// Whether queries are those of a batch of `n` tokens, of which `c` are some,
/// and keys and values reach up to the last of them.
pub open spec fn reaches(
    q: Seq<u32>,
    k: Seq<u16>,
    v: Seq<u16>,
    n: nat,
    c: nat,
    pos: nat,
    width: nat,
    kv: nat,
) -> bool {
    &&& 0 < c <= n
    &&& q.len() == n * width
    &&& k.len() == (pos + n) * kv
    &&& v.len() == (pos + n) * kv
}

/// Whether attention does not look past a token.
pub open spec fn attends<D: Device>(d: &D, pos: nat, heads: nat, dim: nat, kv: nat) -> bool {
    forall|q: Seq<u32>, k: Seq<u16>, v: Seq<u16>, n: nat, c: nat| #[trigger]
        reaches(q, k, v, n, c, pos, heads * dim, kv * dim) ==> {
            let end = ((pos + c) * (kv * dim)) as int;
            let all = d.attended(q, k, v, pos, heads, dim, kv);
            let some = q.take((c * (heads * dim)) as int);
            &&& all.len() == n * (heads * dim)
            &&& all.take((c * (heads * dim)) as int) == d.attended(
                some,
                k.take(end),
                v.take(end),
                pos,
                heads,
                dim,
                kv,
            )
        }
}

/// Whether projections are those of a batch of `n` tokens, of which `c` are
/// some, with a convolution state before them.
pub open spec fn convolvable(
    x: Seq<u32>,
    state: Seq<u32>,
    n: nat,
    c: nat,
    kd: nat,
    vd: nat,
) -> bool {
    &&& 0 < c <= n
    &&& x.len() == n * (2 * kd + vd)
    &&& state.len() == 3 * (2 * kd + vd)
}

/// Whether a convolution does not look past a token.
pub open spec fn convolves<D: Device>(d: &D, weight: Seq<u32>, kd: nat, vd: nat) -> bool {
    forall|x: Seq<u32>, state: Seq<u32>, n: nat, c: nat| #[trigger]
        convolvable(x, state, n, c, kd, vd) ==> {
            let all = d.convolved(x, state, weight, n * kd, n * kd);
            let part = x.take((c * (2 * kd + vd)) as int);
            let some = d.convolved(part, state, weight, c * kd, c * kd);
            &&& all.0.len() == n * kd
            &&& all.1.len() == n * kd
            &&& all.2.len() == n * vd
            &&& all.0.take((c * kd) as int) == some.0
            &&& all.1.take((c * kd) as int) == some.1
            &&& all.2.take((c * vd) as int) == some.2
        }
}

/// Whether queries, keys, values and gates are those of a batch of `n` tokens,
/// of which `c` are some, with a recurrent state before them.
pub open spec fn recurrent(
    q: Seq<u32>,
    k: Seq<u32>,
    v: Seq<u32>,
    gates: Seq<u32>,
    state: Seq<u32>,
    n: nat,
    c: nat,
    nk: nat,
    nv: nat,
    dim: nat,
) -> bool {
    &&& 0 < c <= n
    &&& q.len() == n * (nk * dim)
    &&& k.len() == n * (nk * dim)
    &&& v.len() == n * (nv * dim)
    &&& gates.len() == n * (2 * nv)
    &&& state.len() == nv * dim * dim
}

/// Whether linear attention does not look past a token.
pub open spec fn recurs<D: Device>(d: &D, decay: Seq<u32>, nk: nat, nv: nat, dim: nat) -> bool {
    forall|
        q: Seq<u32>,
        k: Seq<u32>,
        v: Seq<u32>,
        gates: Seq<u32>,
        state: Seq<u32>,
        n: nat,
        c: nat,
    | #[trigger]
        recurrent(q, k, v, gates, state, n, c, nk, nv, dim) ==> {
            let all = d.delta(q, k, v, gates, decay, state, nk, nv, dim);
            let some = d.delta(
                q.take((c * (nk * dim)) as int),
                k.take((c * (nk * dim)) as int),
                v.take((c * (nv * dim)) as int),
                gates.take((c * (2 * nv)) as int),
                decay,
                state,
                nk,
                nv,
                dim,
            );
            &&& all.0.len() == n * (nv * dim)
            &&& all.0.take((c * (nv * dim)) as int) == some.0
        }
}

/// Whether full attention works token by token on a device.
pub open spec fn attention_by_token<D: Device>(d: &D, net: Net, w: AttentionW) -> bool {
    &&& dots(d, w.q)
    &&& dots(d, w.gate)
    &&& dots(d, w.k)
    &&& dots(d, w.v)
    &&& dots(d, w.o)
    &&& norms(d, w.q_norm, net.eps)
    &&& norms(d, w.k_norm, net.eps)
}

/// Whether linear attention works token by token on a device.
pub open spec fn linear_by_token<D: Device>(
    d: &D,
    c: &Config,
    net: Net,
    w: LinearW,
    norm: Seq<u32>,
) -> bool {
    &&& dots(d, w.qkv)
    &&& dots(d, w.z)
    &&& dots(d, w.ab)
    &&& dots(d, w.out)
    &&& norms(d, norm, net.eps)
    &&& norms(d, w.norm, net.eps)
    &&& convolves(d, w.conv, c.k_dim() as nat, c.v_dim() as nat)
    &&& recurs(d, w.decay, c.k_heads as nat, c.v_heads as nat, c.state_dim as nat)
}

/// Whether a layer works token by token on a device.
pub open spec fn layer_by_token<D: Device>(d: &D, c: &Config, net: Net, w: LayerW) -> bool {
    &&& norm_turns(d, w.attn_norm, net.signs, net.eps)
    &&& norm_turns(d, w.mlp_norm, net.signs, net.eps)
    &&& dots(d, w.gate)
    &&& dots(d, w.up)
    &&& dots(d, w.down)
    &&& match w.mixer {
        MixerW::Attention(a) => attention_by_token(d, net, a),
        MixerW::Linear(l) => linear_by_token(d, c, net, l, w.attn_norm),
    }
}

/// Whether a device works token by token on a model, from a position on: every
/// operation of a pass makes of the first tokens of a batch the first of what
/// it makes of the batch. Sums in another order, or in another precision, for
/// batches of other sizes do not.
pub open spec fn tokenwise<D: Device>(d: &D, c: &Config, net: Net, pos: nat) -> bool {
    let (heads, kv, dim, rot) = (
        c.heads as nat,
        c.kv_heads as nat,
        c.head_dim as nat,
        c.rot_dim as nat,
    );
    &&& forall|i: int|
        0 <= i < net.layers.len() ==> layer_by_token(d, c, net, #[trigger] net.layers[i])
    &&& dots(d, net.head)
    &&& norm_turns(d, net.norm, net.signs, net.eps)
    &&& turns(d, net.signs, true)
    &&& turns(d, net.signs_q, false)
    &&& turns(d, net.signs_v, false)
    &&& turns(d, net.signs_ffn, false)
    &&& each(shortening(d, c.state_dim as nat, net.eps), c.state_dim as nat, c.state_dim as nat)
    &&& pairwise(|x: Seq<u32>, y: Seq<u32>| d.sum(x, y))
    &&& pairwise(|x: Seq<u32>, y: Seq<u32>| d.silu(x, y))
    &&& pairwise(|x: Seq<u32>, y: Seq<u32>| d.sigmoid(x, y))
    &&& ropes(d, net.rope, pos, heads, dim, rot)
    &&& ropes(d, net.rope, pos, kv, dim, rot)
    &&& attends(d, pos, heads, dim, kv)
    &&& forall|row: Seq<u8>, width: nat| (#[trigger] d.unpacked(row, width)).len() == width
}

/// What goes vector by vector goes by the several vectors of a token: a token
/// is `q` of them.
proof fn lemma_several(
    f: spec_fn(Seq<u32>) -> Seq<u32>,
    width: nat,
    out: nat,
    q: nat,
    x: Seq<u32>,
    n: nat,
    j: nat,
)
    requires
        each(f, width, out),
        vectors(x, n, j, q * width),
        q > 0,
    ensures
        f(x).len() == n * (q * out),
        vector(f(x), j, q * out) == f(vector(x, j, q * width)),
{
    let (w, o) = (q * width, q * out);
    assert(n * w == (n * q) * width && n * o == (n * q) * out && n * q > 0) by (nonlinear_arith)
        requires
            w == q * width,
            o == q * out,
            n > 0,
            q > 0,
    ;
    assert((j + 1) * w <= n * w && (j + 1) * w == j * w + w && j * w >= 0) by (nonlinear_arith)
        requires
            j + 1 <= n,
    ;
    assert((j + 1) * o <= n * o && (j + 1) * o == j * o + o && j * o >= 0) by (nonlinear_arith)
        requires
            j + 1 <= n,
    ;
    let y = vector(x, j, w);
    assert(vectors(x, n * q, 0, width));
    assert(vectors(y, q, 0, width));
    let (fx, fy) = (f(x), f(y));
    let one = vector(fx, j, o);
    assert forall|i: int| 0 <= i < o implies #[trigger] one[i] == fy[i] by {
        assert(one[i] == fx[j * o + i]);
        let (e, r) = (i / out as int, i % out as int);
        assert(out > 0) by (nonlinear_arith)
            requires
                0 <= i < q * out,
        ;
        vstd::arithmetic::div_mod::lemma_fundamental_div_mod(i, out as int);
        assert(0 <= e < q && 0 <= r < out && i == e * out + r) by (nonlinear_arith)
            requires
                0 <= i < q * out,
                out > 0,
                i == out * e + r,
                r == i % out as int,
        ;
        let (k, g) = (e as nat, j * q + e as nat);
        assert(g + 1 <= n * q && g * width == j * w + k * width && (g + 1) * width == g * width
            + width && (k + 1) * width <= w && (k + 1) * width == k * width + width && k * width
            >= 0 && g * width >= 0) by (nonlinear_arith)
            requires
                j + 1 <= n,
                k + 1 <= q,
                g == j * q + k,
                w == q * width,
        ;
        assert((g + 1) * width <= (n * q) * width) by (nonlinear_arith)
            requires
                g + 1 <= n * q,
        ;
        assert(g * out == j * o + k * out && (g + 1) * out == g * out + out && (k + 1) * out <= o
            && (k + 1) * out == k * out + out && k * out >= 0) by (nonlinear_arith)
            requires
                k + 1 <= q,
                g == j * q + k,
                o == q * out,
        ;
        assert((g + 1) * out <= (n * q) * out) by (nonlinear_arith)
            requires
                g + 1 <= n * q,
        ;
        assert(vectors(x, n * q, g, width));
        assert(vectors(y, q, k, width));
        assert(vector(x, g, width) =~= vector(y, k, width));
        assert(vector(fx, g, out)[r] == fx[j * o + i]);
        assert(vector(fy, k, out)[r] == fy[i]);
    }
    assert(one =~= fy);
}

/// Products by one token.
pub proof fn lemma_dot_one<D: Device>(
    d: &D,
    m: Mat,
    x: Seq<u32>,
    n: nat,
    j: nat,
    from: nat,
    to: nat,
)
    requires
        dots(d, m),
        takes(m, from as int, to as int),
        from > 0,
        vectors(x, n, j, from),
    ensures
        vector(d.dot(m, x), j, to) == d.dot(m, vector(x, j, from)),
{
    let q = (from as int / m.cols as int) as nat;
    lemma_takes(m, n as int, from as int, to as int);
    assert(q > 0) by (nonlinear_arith)
        requires
            from == q * m.cols,
            from > 0,
    ;
    lemma_several(dotting(d, m), m.cols, m.rows, q, x, n, j);
}

/// Products by the first tokens.
pub proof fn lemma_dot<D: Device>(
    d: &D,
    m: Mat,
    x: Seq<u32>,
    n: nat,
    k: nat,
    from: nat,
    to: nat,
)
    requires
        dots(d, m),
        takes(m, from as int, to as int),
        from > 0,
        begins(x, n, k, from),
    ensures
        d.dot(m, x).len() == n * to,
        d.dot(m, x).take((k * to) as int) == d.dot(m, x.take((k * from) as int)),
{
    let q = (from as int / m.cols as int) as nat;
    lemma_takes(m, n as int, from as int, to as int);
    lemma_takes(m, k as int, from as int, to as int);
    assert(q > 0) by (nonlinear_arith)
        requires
            from == q * m.cols,
            from > 0,
    ;
    lemma_heads(n, k, q, m.cols);
    lemma_heads(n, k, q, m.rows);
    lemma_first(dotting(d, m), m.cols, m.rows, x, n * q, k * q);
}

/// Normalizations of heads by the first tokens.
pub proof fn lemma_norm<D: Device>(
    d: &D,
    w: Seq<u32>,
    eps: u32,
    x: Seq<u32>,
    n: nat,
    k: nat,
    width: nat,
)
    requires
        norms(d, w, eps),
        grouped(w, width as int),
        width > 0,
        begins(x, n, k, width),
    ensures
        d.rms(x, w, eps).len() == n * width,
        d.rms(x, w, eps).take((k * width) as int) == d.rms(x.take((k * width) as int), w, eps),
{
    let heads = (width as int / w.len() as int) as nat;
    lemma_grouped(w, n as int, width as int);
    assert(heads > 0) by (nonlinear_arith)
        requires
            width == heads * w.len(),
            width > 0,
    ;
    lemma_heads(n, k, heads, w.len());
    lemma_first(norming(d, w, eps), w.len(), w.len(), x, n * heads, k * heads);
}

/// Tokens of heads are vectors of a head's width.
pub proof fn lemma_heads(n: nat, k: nat, heads: nat, dim: nat)
    requires
        0 < k <= n,
        0 < heads,
    ensures
        n * (heads * dim) == (n * heads) * dim,
        k * (heads * dim) == (k * heads) * dim,
        0 < k * heads <= n * heads,
{
    assert(n * (heads * dim) == (n * heads) * dim) by (nonlinear_arith);
    assert(k * (heads * dim) == (k * heads) * dim) by (nonlinear_arith);
    assert(0 < k * heads <= n * heads) by (nonlinear_arith)
        requires
            0 < k <= n,
            0 < heads,
    ;
}

/// Normalizations of heads by length, by the first tokens.
pub proof fn lemma_shorten<D: Device>(
    d: &D,
    dim: nat,
    eps: u32,
    x: Seq<u32>,
    n: nat,
    k: nat,
    heads: nat,
)
    requires
        each(shortening(d, dim, eps), dim, dim),
        0 < k <= n,
        0 < heads,
        x.len() == n * (heads * dim),
    ensures
        d.l2(x, dim, eps).len() == n * (heads * dim),
        d.l2(x, dim, eps).take((k * (heads * dim)) as int) == d.l2(
            x.take((k * (heads * dim)) as int),
            dim,
            eps,
        ),
{
    lemma_heads(n, k, heads, dim);
    lemma_first(shortening(d, dim, eps), dim, dim, x, n * heads, k * heads);
}

/// The transform by the first tokens.
pub proof fn lemma_turn<D: Device>(
    d: &D,
    signs: Seq<u32>,
    inverse: bool,
    x: Seq<u32>,
    n: nat,
    k: nat,
)
    requires
        turns(d, signs, inverse),
        begins(x, n, k, signs.len()),
    ensures
        d.turned(x, signs, inverse).len() == n * signs.len(),
        d.turned(x, signs, inverse).take((k * signs.len()) as int) == d.turned(
            x.take((k * signs.len()) as int),
            signs,
            inverse,
        ),
{
    lemma_first(turning(d, signs, inverse), signs.len(), signs.len(), x, n, k);
}

/// A normalization and the transform by the first tokens.
pub proof fn lemma_norm_turn<D: Device>(
    d: &D,
    w: Seq<u32>,
    signs: Seq<u32>,
    eps: u32,
    x: Seq<u32>,
    n: nat,
    k: nat,
)
    requires
        norm_turns(d, w, signs, eps),
        begins(x, n, k, signs.len()),
    ensures
        d.norm_turned(x, w, signs, eps).len() == n * signs.len(),
        d.norm_turned(x, w, signs, eps).take((k * signs.len()) as int) == d.norm_turned(
            x.take((k * signs.len()) as int),
            w,
            signs,
            eps,
        ),
{
    lemma_first(norm_turning(d, w, signs, eps), signs.len(), signs.len(), x, n, k);
}

} // verus!
