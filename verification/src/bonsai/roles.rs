//! What each weight is for: how what a pass gives follows its weights.
use vstd::prelude::*;

use super::config::Config;
use super::dims::BATCH;
use super::layer::{layer_of, AttentionW, LayerW, LinearW, MixerW};
use super::pass::{
    all_logits, attend, attending, batch, embedded, emitted, feed, forwarded, gated, last_logits,
    looked_up, projected, recur, step, Mem, Net,
};
use super::placing::named;
use super::tensors::{floats_of, ternary_of};
use crate::device::{Device, Mat};
use crate::gguf::Gguf;

verus! {

/// Activations, each through a function.
pub open spec fn each<T>(x: Seq<T>, f: spec_fn(T) -> T) -> Seq<T> {
    x.map_values(f)
}

/// Whether a product goes through where what it multiplies does, as one does
/// that is scaled.
pub open spec fn product_follows<D: Device>(d: &D, m: Mat, f: spec_fn(u32) -> u32) -> bool {
    forall|x: Seq<u32>| #[trigger] d.dot(m, each(x, f)) == each(d.dot(m, x), f)
}

/// Whether the transform goes through where what it turns does.
pub open spec fn turn_follows<D: Device>(d: &D, signs: Seq<u32>, f: spec_fn(u32) -> u32) -> bool {
    forall|x: Seq<u32>| #[trigger]
        d.turned(each(x, f), signs, false) == each(d.turned(x, signs, false), f)
}

/// Whether a vector times the SiLU of another goes through where that vector
/// does.
pub open spec fn silu_follows<D: Device>(d: &D, f: spec_fn(u32) -> u32) -> bool {
    forall|g: Seq<u32>, u: Seq<u32>| #[trigger] d.silu(g, each(u, f)) == each(d.silu(g, u), f)
}

/// Whether a vector times the sigmoid of another goes through where that
/// vector does.
pub open spec fn sigmoid_follows<D: Device>(d: &D, f: spec_fn(u32) -> u32) -> bool {
    forall|x: Seq<u32>, g: Seq<u32>| #[trigger] d.sigmoid(each(x, f), g) == each(d.sigmoid(x, g), f)
}

/// Whether products of a matrix with two vectors differ where the vectors do.
pub open spec fn product_tells<D: Device>(d: &D, m: Mat) -> bool {
    forall|x: Seq<u32>, y: Seq<u32>| #[trigger] d.dot(m, x) == #[trigger] d.dot(m, y) ==> x == y
}

/// Whether two vectors that differ are turned into ones that do.
pub open spec fn turn_tells<D: Device>(d: &D, signs: Seq<u32>, inverse: bool) -> bool {
    forall|x: Seq<u32>, y: Seq<u32>| #[trigger]
        d.turned(x, signs, inverse) == #[trigger] d.turned(y, signs, inverse) ==> x == y
}

/// Whether a device makes of a matrix what it makes of another, each through a
/// function: of the same matrix scaled, say.
pub open spec fn matrix_follows<D: Device>(
    d: &D,
    a: Mat,
    b: Mat,
    f: spec_fn(u32) -> u32,
) -> bool {
    forall|x: Seq<u32>| #[trigger] d.dot(b, x) == each(d.dot(a, x), f)
}

/// What the feed-forward network adds follows `ffn_up`: where the products with
/// it are scaled, say, what the network adds is scaled. The nonlinearity is on
/// `ffn_gate`.
pub proof fn law_feed_forward_follows_up<D: Device>(
    d: &D,
    c: &Config,
    net: Net,
    g1: &Gguf,
    g2: &Gguf,
    i: int,
    x: Seq<u32>,
    f: spec_fn(u32) -> u32,
)
    requires
        ternary_of(g1, named(i, ".ffn_gate.weight"@)) == ternary_of(
            g2,
            named(i, ".ffn_gate.weight"@),
        ),
        ternary_of(g1, named(i, ".ffn_down.weight"@)) == ternary_of(
            g2,
            named(i, ".ffn_down.weight"@),
        ),
        floats_of(g1, named(i, ".post_attention_norm.weight"@)) == floats_of(
            g2,
            named(i, ".post_attention_norm.weight"@),
        ),
        matrix_follows(
            d,
            ternary_of(g1, named(i, ".ffn_up.weight"@)),
            ternary_of(g2, named(i, ".ffn_up.weight"@)),
            f,
        ),
        silu_follows(d, f),
        turn_follows(d, net.signs_ffn, f),
        product_follows(d, ternary_of(g1, named(i, ".ffn_down.weight"@)), f),
    ensures
        feed(d, net, layer_of(g2, c, i), x) == each(feed(d, net, layer_of(g1, c, i), x), f),
{
    let (a, b) = (layer_of(g1, c, i), layer_of(g2, c, i));
    let xh = d.norm_turned(x, a.mlp_norm, net.signs, net.eps);
    assert(d.dot(b.up, xh) == each(d.dot(a.up, xh), f));
}

/// The units of the feed-forward network are the products with `ffn_up` times
/// the SiLU of those with `ffn_gate`, of the normalized activations, which are
/// turned; and what the network adds tells units apart that differ.
pub proof fn law_feed_forward_has_its_units<D: Device>(
    d: &D,
    c: &Config,
    net: Net,
    g1: &Gguf,
    g2: &Gguf,
    i: int,
    x1: Seq<u32>,
    x2: Seq<u32>,
)
    requires
        ternary_of(g1, named(i, ".ffn_down.weight"@)) == ternary_of(
            g2,
            named(i, ".ffn_down.weight"@),
        ),
        product_tells(d, ternary_of(g1, named(i, ".ffn_down.weight"@))),
        turn_tells(d, net.signs_ffn, false),
    ensures
        ({
            let n1 = floats_of(g1, named(i, ".post_attention_norm.weight"@));
            let n2 = floats_of(g2, named(i, ".post_attention_norm.weight"@));
            let (h1, h2) = (
                d.norm_turned(x1, n1, net.signs, net.eps),
                d.norm_turned(x2, n2, net.signs, net.eps),
            );
            let gate1 = d.dot(ternary_of(g1, named(i, ".ffn_gate.weight"@)), h1);
            let gate2 = d.dot(ternary_of(g2, named(i, ".ffn_gate.weight"@)), h2);
            let up1 = d.dot(ternary_of(g1, named(i, ".ffn_up.weight"@)), h1);
            let up2 = d.dot(ternary_of(g2, named(i, ".ffn_up.weight"@)), h2);
            feed(d, net, layer_of(g1, c, i), x1) == feed(d, net, layer_of(g2, c, i), x2) <==> d.silu(
                gate1,
                up1,
            ) == d.silu(gate2, up2)
        }),
{
    let (a, b) = (layer_of(g1, c, i), layer_of(g2, c, i));
    let (h1, h2) = (
        d.norm_turned(x1, a.mlp_norm, net.signs, net.eps),
        d.norm_turned(x2, b.mlp_norm, net.signs, net.eps),
    );
    let (u1, u2) = (
        d.silu(d.dot(a.gate, h1), d.dot(a.up, h1)),
        d.silu(d.dot(b.gate, h2), d.dot(b.up, h2)),
    );
    let (t1, t2) = (d.turned(u1, net.signs_ffn, false), d.turned(u2, net.signs_ffn, false));
    if d.dot(a.down, t1) == d.dot(b.down, t2) {
        assert(t1 == t2);
        assert(u1 == u2);
    }
}

/// The keys and values of a token are kept at its position, in half precision,
/// the keys rotated by it; those of other positions stay.
pub proof fn law_keys_and_values_are_kept_by_position<D: Device>(
    d: &D,
    c: &Config,
    net: Net,
    w: AttentionW,
    k0: Seq<u16>,
    v0: Seq<u16>,
    xh: Seq<u32>,
    pos: nat,
    n: nat,
    j: int,
)
    requires
        0 <= j < k0.len(),
        k0.len() == v0.len(),
        d.dot(w.v, xh).len() == n * (c.kv_heads * c.head_dim),
        d.roped(
            d.rms(d.dot(w.k, xh), w.k_norm, net.eps),
            net.rope,
            pos,
            c.kv_heads as nat,
            c.head_dim as nat,
            c.rot_dim as nat,
        ).len() == n * (c.kv_heads * c.head_dim),
    ensures
        ({
            let kv = c.kv_heads * c.head_dim;
            let (_, k, v) = attend(d, c, net, w, k0, v0, xh, pos, n);
            let fresh = d.roped(
                d.rms(d.dot(w.k, xh), w.k_norm, net.eps),
                net.rope,
                pos,
                c.kv_heads as nat,
                c.head_dim as nat,
                c.rot_dim as nat,
            );
            &&& k.len() == k0.len()
            &&& v.len() == v0.len()
            &&& pos * kv <= j < (pos + n) * kv ==> k[j] == d.half(fresh[j - pos * kv]) && v[j]
                == d.half(d.dot(w.v, xh)[j - pos * kv])
            &&& !(pos * kv <= j < (pos + n) * kv) ==> k[j] == k0[j] && v[j] == v0[j]
        }),
{
    let kv = c.kv_heads * c.head_dim;
    assert((pos + n) * kv == pos * kv + n * kv) by (nonlinear_arith);
}

/// What full attention gives: each token's queries, normalized and rotated by
/// its position, over the keys and values up to the last token's, times the
/// sigmoid of its gates, turned, and put through `attn_output`; what it gives
/// tells apart what differs before that.
pub proof fn law_attention_is_gated<D: Device>(
    d: &D,
    c: &Config,
    net: Net,
    w1: AttentionW,
    w2: AttentionW,
    k1: Seq<u16>,
    v1: Seq<u16>,
    k2: Seq<u16>,
    v2: Seq<u16>,
    x1: Seq<u32>,
    x2: Seq<u32>,
    pos: nat,
    n: nat,
)
    requires
        w1.o == w2.o,
        product_tells(d, w1.o),
        turn_tells(d, net.signs_q, false),
    ensures
        ({
            let a = attend(d, c, net, w1, k1, v1, x1, pos, n);
            let b = attend(d, c, net, w2, k2, v2, x2, pos, n);
            let end = (pos + n) * (c.kv_heads * c.head_dim);
            let (heads, dim, kv) = (c.heads as nat, c.head_dim as nat, c.kv_heads as nat);
            let rot = c.rot_dim as nat;
            let qa = d.rms(d.dot(w1.q, x1), w1.q_norm, net.eps);
            let qb = d.rms(d.dot(w2.q, x2), w2.q_norm, net.eps);
            a.0 == b.0 <==> d.sigmoid(
                d.attended(
                    d.roped(qa, net.rope, pos, heads, dim, rot),
                    a.1.take(end),
                    a.2.take(end),
                    pos,
                    heads,
                    dim,
                    kv,
                ),
                d.dot(w1.gate, x1),
            ) == d.sigmoid(
                d.attended(
                    d.roped(qb, net.rope, pos, heads, dim, rot),
                    b.1.take(end),
                    b.2.take(end),
                    pos,
                    heads,
                    dim,
                    kv,
                ),
                d.dot(w2.gate, x2),
            )
        }),
{
    let a = attend(d, c, net, w1, k1, v1, x1, pos, n);
    let b = attend(d, c, net, w2, k2, v2, x2, pos, n);
    let end = (pos + n) * (c.kv_heads * c.head_dim);
    let (heads, dim, kv) = (c.heads as nat, c.head_dim as nat, c.kv_heads as nat);
    let rot = c.rot_dim as nat;
    let qa = d.roped(d.rms(d.dot(w1.q, x1), w1.q_norm, net.eps), net.rope, pos, heads, dim, rot);
    let qb = d.roped(d.rms(d.dot(w2.q, x2), w2.q_norm, net.eps), net.rope, pos, heads, dim, rot);
    let ya = d.sigmoid(
        d.attended(qa, a.1.take(end), a.2.take(end), pos, heads, dim, kv),
        d.dot(w1.gate, x1),
    );
    let yb = d.sigmoid(
        d.attended(qb, b.1.take(end), b.2.take(end), pos, heads, dim, kv),
        d.dot(w2.gate, x2),
    );
    let (ta, tb) = (d.turned(ya, net.signs_q, false), d.turned(yb, net.signs_q, false));
    assert(a.0 == d.dot(w1.o, ta));
    assert(b.0 == d.dot(w2.o, tb));
    if a.0 == b.0 {
        assert(ta == tb);
        assert(ya == yb);
    }
}

/// Queries and keys are normalized: scaled, they leave what full attention
/// gives as it is, and what is kept.
pub proof fn law_queries_and_keys_are_normalized<D: Device>(
    d: &D,
    c: &Config,
    net: Net,
    w: AttentionW,
    q: Mat,
    k: Mat,
    k0: Seq<u16>,
    v0: Seq<u16>,
    xh: Seq<u32>,
    pos: nat,
    n: nat,
    f: spec_fn(u32) -> u32,
)
    requires
        matrix_follows(d, w.q, q, f),
        matrix_follows(d, w.k, k, f),
        forall|x: Seq<u32>| #[trigger] d.rms(each(x, f), w.q_norm, net.eps) == d.rms(
            x,
            w.q_norm,
            net.eps,
        ),
        forall|x: Seq<u32>| #[trigger] d.rms(each(x, f), w.k_norm, net.eps) == d.rms(
            x,
            w.k_norm,
            net.eps,
        ),
    ensures
        attend(d, c, net, AttentionW { q, k, ..w }, k0, v0, xh, pos, n) == attend(
            d,
            c,
            net,
            w,
            k0,
            v0,
            xh,
            pos,
            n,
        ),
{
    assert(d.dot(q, xh) == each(d.dot(w.q, xh), f));
    assert(d.dot(k, xh) == each(d.dot(w.k, xh), f));
}

/// What full attention gives follows its values: where those of all positions
/// are scaled, say, what it gives is scaled, and the keys stay.
pub proof fn law_attention_follows_values<D: Device>(
    d: &D,
    c: &Config,
    net: Net,
    w: AttentionW,
    v: Mat,
    k0: Seq<u16>,
    v0: Seq<u16>,
    xh: Seq<u32>,
    pos: nat,
    n: nat,
    f: spec_fn(u32) -> u32,
    half: spec_fn(u16) -> u16,
)
    requires
        matrix_follows(d, w.v, v, f),
        forall|x: u32| #[trigger] d.half(f(x)) == half(d.half(x)),
        forall|q: Seq<u32>, k: Seq<u16>, v: Seq<u16>|
            #![trigger d.attended(
                q,
                k,
                each(v, half),
                pos,
                c.heads as nat,
                c.head_dim as nat,
                c.kv_heads as nat,
            )]
            d.attended(
                q,
                k,
                each(v, half),
                pos,
                c.heads as nat,
                c.head_dim as nat,
                c.kv_heads as nat,
            ) == each(
                d.attended(
                    q,
                    k,
                    v,
                    pos,
                    c.heads as nat,
                    c.head_dim as nat,
                    c.kv_heads as nat,
                ),
                f,
            ),
        sigmoid_follows(d, f),
        turn_follows(d, net.signs_q, f),
        product_follows(d, w.o, f),
        d.dot(w.v, xh).len() == n * (c.kv_heads * c.head_dim),
        (pos + n) * (c.kv_heads * c.head_dim) <= v0.len(),
    ensures
        ({
            let a = attend(d, c, net, w, k0, v0, xh, pos, n);
            let b = attend(d, c, net, AttentionW { v, ..w }, k0, each(v0, half), xh, pos, n);
            &&& b.0 == each(a.0, f)
            &&& b.1 == a.1
            &&& b.2 == each(a.2, half)
        }),
{
    let kv = c.kv_heads * c.head_dim;
    let end = (pos + n) * kv;
    let a = attend(d, c, net, w, k0, v0, xh, pos, n);
    let b = attend(d, c, net, AttentionW { v, ..w }, k0, each(v0, half), xh, pos, n);
    assert(kv >= 0) by (nonlinear_arith)
        requires
            kv == c.kv_heads * c.head_dim,
    ;
    assert(end == pos * kv + n * kv && 0 <= pos * kv && 0 <= n * kv) by (nonlinear_arith)
        requires
            end == (pos + n) * kv,
            kv >= 0,
    ;
    let (x, y) = (d.dot(w.v, xh), d.dot(v, xh));
    assert(y == each(x, f));
    assert(b.2 =~= each(a.2, half));
    assert(b.2.take(end) =~= each(a.2.take(end), half));
}

/// What linear attention gives: its outputs normalized, times the SiLU of its
/// gates, turned, and put through `ssm_out`; what it gives tells apart what
/// differs before that.
pub proof fn law_linear_attention_is_gated<D: Device>(
    d: &D,
    net: Net,
    w1: LinearW,
    w2: LinearW,
    att1: Seq<u32>,
    att2: Seq<u32>,
    x1: Seq<u32>,
    x2: Seq<u32>,
)
    requires
        w1.out == w2.out,
        product_tells(d, w1.out),
        turn_tells(d, net.signs_v, false),
    ensures
        emitted(d, net, w1, att1, x1) == emitted(d, net, w2, att2, x2) <==> d.silu(
            d.dot(w1.z, x1),
            d.rms(att1, w1.norm, net.eps),
        ) == d.silu(d.dot(w2.z, x2), d.rms(att2, w2.norm, net.eps)),
{
    let u1 = d.silu(d.dot(w1.z, x1), d.rms(att1, w1.norm, net.eps));
    let u2 = d.silu(d.dot(w2.z, x2), d.rms(att2, w2.norm, net.eps));
    let (t1, t2) = (d.turned(u1, net.signs_v, false), d.turned(u2, net.signs_v, false));
    if d.dot(w1.out, t1) == d.dot(w2.out, t2) {
        assert(t1 == t2);
        assert(u1 == u2);
    }
}

/// What linear attention gives follows the weights of its normalization: the
/// nonlinearity is on its gates.
pub proof fn law_linear_attention_follows_its_norm<D: Device>(
    d: &D,
    net: Net,
    w: LinearW,
    att: Seq<u32>,
    xh: Seq<u32>,
    f: spec_fn(u32) -> u32,
)
    requires
        d.rms(att, each(w.norm, f), net.eps) == each(d.rms(att, w.norm, net.eps), f),
        silu_follows(d, f),
        turn_follows(d, net.signs_v, f),
        product_follows(d, w.out, f),
    ensures
        emitted(d, net, LinearW { norm: each(w.norm, f), ..w }, att, xh) == each(
            emitted(d, net, w, att, xh),
            f,
        ),
{
}

/// The queries and keys that the convolution makes are normalized by length
/// before the recurrence takes them, the values are not, and the queries leave
/// the state alone on a device whose recurrence they do.
pub proof fn law_recurrence_takes_directions<D: Device>(
    d: &D,
    c: &Config,
    net: Net,
    w1: LinearW,
    w2: LinearW,
    conv1: Seq<u32>,
    conv2: Seq<u32>,
    ssm: Seq<u32>,
    qkv1: Seq<u32>,
    qkv2: Seq<u32>,
    ab: Seq<u32>,
    n: nat,
)
    requires
        w1.decay == w2.decay,
    ensures
        ({
            let width = (n * (c.k_heads * c.state_dim)) as nat;
            let dim = c.state_dim as nat;
            let a = d.convolved(qkv1, conv1, w1.conv, width, width);
            let b = d.convolved(qkv2, conv2, w2.conv, width, width);
            let x = recur(d, c, net, w1, conv1, ssm, qkv1, ab, n);
            let y = recur(d, c, net, w2, conv2, ssm, qkv2, ab, n);
            let keys = d.l2(a.1, dim, net.eps) == d.l2(b.1, dim, net.eps);
            let queries = d.l2(a.0, dim, net.eps) == d.l2(b.0, dim, net.eps);
            &&& keys && queries && a.2 == b.2 ==> x.0 == y.0 && x.2 == y.2
            &&& a.3 == b.3 <==> x.1 == y.1
            &&& keys && a.2 == b.2 && queries_leave_state(d) ==> x.2 == y.2
            &&& queries && a.2 == b.2 && keys_alone_leave_output(d) ==> x.0 == y.0
        }),
{
    let width = (n * c.k_dim()) as nat;
    let dim = c.state_dim as nat;
    let a = d.convolved(qkv1, conv1, w1.conv, width, width);
    let b = d.convolved(qkv2, conv2, w2.conv, width, width);
    let (qa, qb) = (d.l2(a.0, dim, net.eps), d.l2(b.0, dim, net.eps));
    let (ka, kb) = (d.l2(a.1, dim, net.eps), d.l2(b.1, dim, net.eps));
    let (nk, nv) = (c.k_heads as nat, c.v_heads as nat);
    if queries_leave_state(d) && ka == kb && a.2 == b.2 {
        assert(d.delta(qa, ka, a.2, ab, w1.decay, ssm, nk, nv, dim).1 == d.delta(
            qb,
            ka,
            a.2,
            ab,
            w1.decay,
            ssm,
            nk,
            nv,
            dim,
        ).1);
    }
    if keys_alone_leave_output(d) && qa == qb && a.2 == b.2 {
        assert(d.delta(qa, ka, a.2, ab, w1.decay, ssm, nk, nv, dim).0 == d.delta(
            qa,
            kb,
            a.2,
            ab,
            w1.decay,
            ssm,
            nk,
            nv,
            dim,
        ).0);
    }
}

/// Whether on a device the state of the recurrence does not depend on the
/// queries.
pub open spec fn queries_leave_state<D: Device>(d: &D) -> bool {
    forall|
        q1: Seq<u32>,
        q2: Seq<u32>,
        k: Seq<u32>,
        v: Seq<u32>,
        g: Seq<u32>,
        decay: Seq<u32>,
        s: Seq<u32>,
        nk: nat,
        nv: nat,
        dim: nat,
    |
        (#[trigger] d.delta(q1, k, v, g, decay, s, nk, nv, dim)).1 == (#[trigger] d.delta(
            q2,
            k,
            v,
            g,
            decay,
            s,
            nk,
            nv,
            dim,
        )).1
}

/// Whether on a device what the recurrence gives does not depend on the keys.
pub open spec fn keys_alone_leave_output<D: Device>(d: &D) -> bool {
    forall|
        q: Seq<u32>,
        k1: Seq<u32>,
        k2: Seq<u32>,
        v: Seq<u32>,
        g: Seq<u32>,
        decay: Seq<u32>,
        s: Seq<u32>,
        nk: nat,
        nv: nat,
        dim: nat,
    |
        (#[trigger] d.delta(q, k1, v, g, decay, s, nk, nv, dim)).0 == (#[trigger] d.delta(
            q,
            k2,
            v,
            g,
            decay,
            s,
            nk,
            nv,
            dim,
        )).0
}

/// Whether products of a matrix add nothing.
pub open spec fn adds_nothing<D: Device>(d: &D, m: Mat) -> bool {
    forall|x: Seq<u32>, y: Seq<u32>| #[trigger] d.sum(x, d.dot(m, y)) == x
}

/// The matrix that what mixes the tokens of a layer is put through.
pub open spec fn last_of(w: LayerW) -> Mat {
    match w.mixer {
        MixerW::Attention(a) => a.o,
        MixerW::Linear(l) => l.out,
    }
}

/// A network with another matrix in place of the `ffn_down` of a layer.
pub open spec fn with_down(net: Net, i: int, m: Mat) -> Net {
    Net { layers: net.layers.update(i, LayerW { down: m, ..net.layers[i] }), ..net }
}

/// A layer adds to the residual stream: where what mixes its tokens and its
/// feed-forward network add nothing, the stream goes through as it is; where
/// only the network adds anything, it adds what it makes of the stream.
pub proof fn law_layer_adds<D: Device>(
    d: &D,
    c: &Config,
    net: Net,
    i: int,
    m: Mem,
    x: Seq<u32>,
    pos: nat,
    n: nat,
    verify: bool,
)
    requires
        adds_nothing(d, last_of(net.layers[i])),
    ensures
        step(d, c, net, i, m, x, pos, n, verify).1 == d.sum(x, feed(d, net, net.layers[i], x)),
        adds_nothing(d, net.layers[i].down) ==> step(d, c, net, i, m, x, pos, n, verify).1 == x,
{
    let w = net.layers[i];
    let xh = d.norm_turned(x, w.attn_norm, net.signs, net.eps);
    match w.mixer {
        MixerW::Attention(a) => {
            let at = attending(c, i);
            let xb = attend(d, c, net, a, m.k[at], m.v[at], xh, pos, n).0;
            assert(d.sum(x, xb) == x);
        },
        MixerW::Linear(l) => {
            let at = i - attending(c, i);
            let qkv = projected(d, l, xh);
            let ab = gated(d, net, l, w.attn_norm, x);
            let att = recur(d, c, net, l, m.conv[at], m.ssm[at], qkv, ab, n).0;
            assert(d.sum(x, emitted(d, net, l, att, xh)) == x);
        },
    }
}

/// The feed-forward network of a layer sees the stream once its tokens are
/// mixed, and nothing else: with one that adds nothing in its place, that
/// stream is what the layer gives, and where it is the same, so is what the
/// layer gives.
pub proof fn law_feed_forward_sees_the_mixed<D: Device>(
    d: &D,
    c: &Config,
    net: Net,
    i: int,
    nothing: Mat,
    m: Mem,
    x: Seq<u32>,
    pos: nat,
    n: nat,
    verify: bool,
)
    requires
        0 <= i < net.layers.len(),
        adds_nothing(d, nothing),
    ensures
        ({
            let mixed = step(d, c, with_down(net, i, nothing), i, m, x, pos, n, verify);
            let whole = step(d, c, net, i, m, x, pos, n, verify);
            &&& whole.0 == mixed.0
            &&& whole.1 == d.sum(mixed.1, feed(d, net, net.layers[i], mixed.1))
        }),
{
    let other = with_down(net, i, nothing);
    let w = net.layers[i];
    assert(other.layers[i] == (LayerW { down: nothing, ..w }));
    let xh = d.norm_turned(x, w.attn_norm, net.signs, net.eps);
    match w.mixer {
        MixerW::Attention(a) => {
            let at = attending(c, i);
            let r = attend(d, c, net, a, m.k[at], m.v[at], xh, pos, n);
            assert(r == attend(d, c, other, a, m.k[at], m.v[at], xh, pos, n));
            let mixed = d.sum(x, r.0);
            assert(d.sum(mixed, feed(d, other, other.layers[i], mixed)) == mixed);
        },
        MixerW::Linear(l) => {
            let at = i - attending(c, i);
            let qkv = projected(d, l, xh);
            let ab = gated(d, net, l, w.attn_norm, x);
            let r = recur(d, c, net, l, m.conv[at], m.ssm[at], qkv, ab, n);
            assert(r == recur(d, c, other, l, m.conv[at], m.ssm[at], qkv, ab, n));
            let mixed = d.sum(x, emitted(d, net, l, r.0, xh));
            assert(d.sum(mixed, feed(d, other, other.layers[i], mixed)) == mixed);
        },
    }
}

/// What a layer keeps: a layer of full attention its keys and values, a linear
/// one its states, or of a draft its projections and gates, which are of the
/// activations normalized by its own weights; and nothing that is another's.
pub proof fn law_layer_keeps_its_own<D: Device>(
    d: &D,
    c: &Config,
    net: Net,
    i: int,
    m: Mem,
    x: Seq<u32>,
    pos: nat,
    n: nat,
    verify: bool,
    j: int,
)
    requires
        net.layers[i].mixer is Attention ==> 0 <= attending(c, i) < m.k.len() && m.k.len()
            == m.v.len(),
        net.layers[i].mixer is Linear ==> 0 <= i - attending(c, i) < m.conv.len() && m.conv.len()
            == m.ssm.len() && m.conv.len() == m.draft_qkv.len() && m.conv.len() == m.draft_ab.len(),
    ensures
        ({
            let after = step(d, c, net, i, m, x, pos, n, verify).0;
            let w = net.layers[i];
            let (cache, slot) = (attending(c, i), i - attending(c, i));
            match w.mixer {
                MixerW::Attention(_) => {
                    &&& after.conv == m.conv
                    &&& after.ssm == m.ssm
                    &&& after.draft_qkv == m.draft_qkv
                    &&& after.draft_ab == m.draft_ab
                    &&& 0 <= j < m.k.len() && j != cache ==> after.k[j] == m.k[j]
                    &&& 0 <= j < m.v.len() && j != cache ==> after.v[j] == m.v[j]
                },
                MixerW::Linear(l) => {
                    &&& after.k == m.k
                    &&& after.v == m.v
                    &&& verify ==> after.conv == m.conv && after.ssm == m.ssm
                    &&& !verify ==> after.draft_qkv == m.draft_qkv && after.draft_ab == m.draft_ab
                    &&& 0 <= j < m.conv.len() && j != slot ==> after.conv[j] == m.conv[j]
                    &&& 0 <= j < m.ssm.len() && j != slot ==> after.ssm[j] == m.ssm[j]
                    &&& verify ==> {
                        &&& after.draft_qkv[slot] == d.dot(
                            l.qkv,
                            d.norm_turned(x, w.attn_norm, net.signs, net.eps),
                        )
                        &&& after.draft_ab[slot] == d.dot(l.ab, d.rms(x, w.attn_norm, net.eps))
                    }
                },
            }
        }),
{
}

/// The logits after a batch are those of its last token: they follow from the
/// last of the residual stream alone, normalized by `output_norm` and turned,
/// and tell apart what differs there.
pub proof fn law_logits_are_of_the_last_token<D: Device>(
    d: &D,
    c: &Config,
    net: Net,
    before: Seq<u32>,
    last: Seq<u32>,
    other: Seq<u32>,
    x: Seq<u32>,
)
    requires
        last.len() == c.hidden,
        x.len() == c.hidden,
        product_tells(d, net.head),
    ensures
        last_logits(d, c, net, before + last) == last_logits(d, c, net, other + x) <==> d.norm_turned(
            last,
            net.norm,
            net.signs,
            net.eps,
        ) == d.norm_turned(x, net.norm, net.signs, net.eps),
        last_logits(d, c, net, before + last) == all_logits(d, net, last),
{
    let (a, b) = (before + last, other + x);
    assert(a.subrange(a.len() - c.hidden, a.len() as int) =~= last);
    assert(b.subrange(b.len() - c.hidden, b.len() as int) =~= x);
}

/// A token starts as its row of the embedding table, in its place among the
/// tokens of its batch, turned back.
pub proof fn law_tokens_start_as_their_rows<D: Device>(
    d: &D,
    c: &Config,
    net: Net,
    tokens: Seq<u32>,
    j: int,
)
    requires
        0 <= j < tokens.len(),
        forall|row: Seq<u8>| (#[trigger] d.unpacked(row, c.hidden as nat)).len() == c.hidden,
    ensures
        ({
            let x = looked_up(d, c, net, tokens);
            let at = tokens[j] * net.row;
            &&& x.len() == tokens.len() * c.hidden
            &&& x.subrange(j * c.hidden, j * c.hidden + c.hidden) == d.unpacked(
                net.table.subrange(at, at + net.row),
                c.hidden as nat,
            )
            &&& embedded(d, c, net, tokens) == d.turned(x, net.signs, true)
        }),
    decreases tokens.len(),
{
    let h = c.hidden as int;
    let x = looked_up(d, c, net, tokens);
    let first = tokens.drop_last();
    let y = looked_up(d, c, net, first);
    let last = tokens.len() - 1;
    assert(tokens.len() * h == last * h + h && 0 <= last * h) by (nonlinear_arith)
        requires
            last == tokens.len() - 1,
            last >= 0,
            h >= 0,
    ;
    if first.len() == 0 {
        assert(y =~= Seq::empty());
        assert(last * h == 0) by (nonlinear_arith)
            requires
                last == 0,
        ;
    } else {
        law_tokens_start_as_their_rows(
            d,
            c,
            net,
            first,
            if j < last {
                j
            } else {
                0
            },
        );
    }
    let part = x.subrange(j * h, j * h + h);
    if j < last {
        assert(j * h + h <= last * h && 0 <= j * h) by (nonlinear_arith)
            requires
                0 <= j,
                j + 1 <= last,
                h >= 0,
        ;
        assert(part =~= y.subrange(j * h, j * h + h));
        assert(first[j] == tokens[j]);
    } else {
        let at = tokens.last() as int * net.row;
        assert(part =~= d.unpacked(net.table.subrange(at, at + net.row), c.hidden as nat));
    }
}

/// Tokens go through in batches, one after another: running the first batches
/// and then the rest is running them all.
pub proof fn law_batches_follow_one_another<D: Device>(
    d: &D,
    c: &Config,
    net: Net,
    m: Mem,
    tokens: Seq<u32>,
    pos: nat,
    k: nat,
)
    requires
        0 < k * 64 < tokens.len(),
    ensures
        ({
            let cut = (k * 64) as int;
            let (before, _) = forwarded(d, c, net, m, tokens.take(cut), pos);
            forwarded(d, c, net, m, tokens, pos) == forwarded(
                d,
                c,
                net,
                before,
                tokens.skip(cut),
                pos + cut as nat,
            )
        }),
    decreases tokens.len(),
{
    let cut = (k * 64) as int;
    let rest = tokens.skip(cut);
    let end = (tokens.len() - 1) / BATCH as int * BATCH;
    let (before, _) = forwarded(d, c, net, m, tokens.take(cut), pos);
    assert(end >= cut);
    if end == cut {
        assert(rest.len() <= BATCH);
    } else {
        let more = rest.len();
        assert((more - 1) / BATCH as int * BATCH == end - cut);
        law_batches_follow_one_another(d, c, net, m, tokens.take(end), pos, k);
        assert(tokens.take(end).take(cut) =~= tokens.take(cut));
        assert(tokens.take(end).skip(cut) =~= rest.take(end - cut));
        assert(rest.skip(end - cut) =~= tokens.skip(end));
    }
}

/// Tokens of one batch leave what the batch leaves, and give the logits after
/// the last of them.
pub proof fn law_short_runs_are_one_batch<D: Device>(
    d: &D,
    c: &Config,
    net: Net,
    m: Mem,
    tokens: Seq<u32>,
    pos: nat,
)
    requires
        0 < tokens.len() <= 64,
    ensures
        forwarded(d, c, net, m, tokens, pos).0 == batch(d, c, net, m, tokens, pos, false).0,
        forwarded(d, c, net, m, tokens, pos).1 == last_logits(
            d,
            c,
            net,
            batch(d, c, net, m, tokens, pos, false).1,
        ),
{
}

} // verus!
