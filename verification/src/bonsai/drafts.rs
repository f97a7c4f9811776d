//! What a draft that stands in part leaves, on a device that works token by
//! token.
use vstd::prelude::*;

use super::alike::{
    agree, alike, law_positions_past_the_sequence_are_not_read, layered, lemma_model_extents,
    lemma_slot_of, rooms,
};
use super::config::Config;
use super::fitting::takes;
use super::layer::{AttentionW, LinearW, MixerW};
use super::network::{lemma_attending, Model};
use super::pass::{
    all_logits, attend, attending, batch, committed, embedded, emitted, feed, forwarded, gated, laid,
    last_logits, looked_up, projected, recur, rounded, settled, step, steps, Mem, Net,
};
use super::tokenwise::{
    attention_by_token, begins, both, convolvable, lemma_dot, lemma_dot_one, lemma_norm,
    lemma_norm_turn, lemma_shorten, lemma_turn, linear_by_token, pairwise, reaches, recurrent,
    tokenwise, vector, vectors,
};
use crate::device::Device;
use crate::model::VERIFY;

verus! {

/// Whether the weights and signs are of the sizes of an architecture.
pub open spec fn sized(c: &Config, net: Net) -> bool {
    &&& forall|i: int| 0 <= i < net.layers.len() ==> (#[trigger] net.layers[i]).shaped(c)
    &&& net.norm.len() == c.hidden
    &&& takes(net.head, c.hidden as int, c.vocab as int)
    &&& c.hidden > 0
    &&& net.signs.len() == c.hidden
    &&& net.signs_q.len() == c.q_dim()
    &&& net.signs_v.len() == c.v_dim()
    &&& net.signs_ffn.len() == c.intermediate
}

/// Sums by the first tokens.
proof fn lemma_sum<D: Device>(d: &D, x: Seq<u32>, y: Seq<u32>, k: nat)
    requires
        pairwise(|x: Seq<u32>, y: Seq<u32>| d.sum(x, y)),
        both(x, y, k),
    ensures
        d.sum(x, y).len() == x.len(),
        d.sum(x, y).take(k as int) == d.sum(x.take(k as int), y.take(k as int)),
{
}

/// Widths of tokens.
proof fn lemma_widths(n: nat, k: nat, w: nat)
    requires
        k <= n,
    ensures
        0 <= k * w <= n * w,
{
    assert(0 <= k * w <= n * w) by (nonlinear_arith)
        requires
            k <= n,
    ;
}

/// The feed-forward network by the first tokens.
proof fn lemma_feed_first<D: Device>(
    d: &D,
    c: &Config,
    net: Net,
    i: int,
    x: Seq<u32>,
    pos: nat,
    n: nat,
    k: nat,
)
    requires
        tokenwise(d, c, net, pos),
        sized(c, net),
        0 <= i < net.layers.len(),
        begins(x, n, k, c.hidden as nat),
    ensures
        feed(d, net, net.layers[i], x).len() == n * c.hidden,
        feed(d, net, net.layers[i], x).take(k * c.hidden) == feed(
            d,
            net,
            net.layers[i],
            x.take(k * c.hidden),
        ),
{
    let w = net.layers[i];
    let (h, f) = (c.hidden as nat, c.intermediate as nat);
    let xh = d.norm_turned(x, w.mlp_norm, net.signs, net.eps);
    lemma_norm_turn(d, w.mlp_norm, net.signs, net.eps, x, n, k);
    lemma_dot(d, w.gate, xh, n, k, h, f);
    lemma_dot(d, w.up, xh, n, k, h, f);
    let (g, u) = (d.dot(w.gate, xh), d.dot(w.up, xh));
    lemma_widths(n, k, f);
    assert(both(g, u, k * f));
    let up = d.silu(g, u);
    assert(up.take((k * f) as int) == d.silu(g.take((k * f) as int), u.take((k * f) as int)));
    lemma_turn(d, net.signs_ffn, false, up, n, k);
    lemma_dot(d, w.down, d.turned(up, net.signs_ffn, false), n, k, f, h);
}

/// What is laid on a cache for the first tokens of a batch agrees with what is
/// laid on it for the batch, up to their end.
proof fn lemma_laid_first(s: Seq<u16>, at: int, all: Seq<u16>, some: Seq<u16>, n: int, k: int)
    requires
        0 <= at,
        0 <= k <= n,
        at + n <= s.len(),
        all.len() == n,
        some == all.take(k),
    ensures
        agree(laid(s, at, all, n), laid(s, at, some, k), at + k),
        laid(s, at, all, n).take(at + n).take(at + k) == laid(s, at, some, k).take(at + k),
        laid(s, at, all, n).len() == s.len(),
        laid(s, at, some, k).len() == s.len(),
{
    let (a, b) = (laid(s, at, all, n), laid(s, at, some, k));
    assert forall|i: int| 0 <= i < at + k implies a[i] == #[trigger] b[i] by {
        if at <= i {
            assert(some[i - at] == all[i - at]);
        }
    }
    assert(a.take(at + k) =~= b.take(at + k));
    assert(a.take(at + n).take(at + k) =~= a.take(at + k));
}

/// Full attention by the first tokens.
#[verifier::rlimit(40)]
proof fn lemma_attend_first<D: Device>(
    d: &D,
    c: &Config,
    net: Net,
    w: AttentionW,
    k0: Seq<u16>,
    v0: Seq<u16>,
    xh: Seq<u32>,
    pos: nat,
    n: nat,
    k: nat,
)
    requires
        tokenwise(d, c, net, pos),
        sized(c, net),
        w.shaped(c),
        attention_by_token(d, net, w),
        begins(xh, n, k, c.hidden as nat),
        (pos + n) * c.rope_dim() <= net.rope.len(),
        (pos + n) * c.kv_dim() <= k0.len(),
        (pos + n) * c.kv_dim() <= v0.len(),
    ensures
        ({
            let (xa, ka, va) = attend(d, c, net, w, k0, v0, xh, pos, n);
            let (xb, kb, vb) = attend(d, c, net, w, k0, v0, xh.take(k * c.hidden), pos, k);
            &&& xa.len() == n * c.hidden
            &&& xb == xa.take(k * c.hidden)
            &&& agree(ka, kb, (pos + k) * c.kv_dim())
            &&& agree(va, vb, (pos + k) * c.kv_dim())
            &&& ka.len() == k0.len()
            &&& kb.len() == k0.len()
            &&& va.len() == v0.len()
            &&& vb.len() == v0.len()
        }),
{
    let (heads, kvh, dim, rot) = (
        c.heads as nat,
        c.kv_heads as nat,
        c.head_dim as nat,
        c.rot_dim as nat,
    );
    let (qw, kw) = (heads * dim, kvh * dim);
    let xb = xh.take(k * c.hidden);
    let h = c.hidden as nat;
    assert(qw > 0 && kw > 0) by (nonlinear_arith)
        requires
            heads > 0,
            kvh > 0,
            dim > 0,
            qw == heads * dim,
            kw == kvh * dim,
    ;
    lemma_widths(n, k, qw);
    lemma_widths(n, k, kw);
    assert((pos + n) * kw == pos * kw + n * kw && (pos + k) * kw == pos * kw + k * kw && pos * kw
        >= 0) by (nonlinear_arith);
    // Queries.
    lemma_dot(d, w.q, xh, n, k, h, qw);
    let q1 = d.dot(w.q, xh);
    lemma_norm(d, w.q_norm, net.eps, q1, n, k, qw);
    let q2 = d.rms(q1, w.q_norm, net.eps);
    assert(begins(q2, n, k, qw));
    let q = d.roped(q2, net.rope, pos, heads, dim, rot);
    assert(q.take((k * qw) as int) == d.roped(
        q2.take((k * qw) as int),
        net.rope,
        pos,
        heads,
        dim,
        rot,
    ));
    // Keys.
    lemma_dot(d, w.k, xh, n, k, h, kw);
    let k1 = d.dot(w.k, xh);
    lemma_norm(d, w.k_norm, net.eps, k1, n, k, kw);
    let k2 = d.rms(k1, w.k_norm, net.eps);
    assert(begins(k2, n, k, kw));
    let k3 = d.roped(k2, net.rope, pos, kvh, dim, rot);
    let k4 = d.roped(k2.take((k * kw) as int), net.rope, pos, kvh, dim, rot);
    assert(k3.take((k * kw) as int) == k4);
    // Values.
    lemma_dot(d, w.v, xh, n, k, h, kw);
    let v1 = d.dot(w.v, xh);
    let v2 = d.dot(w.v, xb);
    assert(rounded(d, k4) =~= rounded(d, k3).take((k * kw) as int));
    assert(rounded(d, v2) =~= rounded(d, v1).take((k * kw) as int));
    let at = (pos * kw) as int;
    lemma_laid_first(k0, at, rounded(d, k3), rounded(d, k4), (n * kw) as int, (k * kw) as int);
    lemma_laid_first(v0, at, rounded(d, v1), rounded(d, v2), (n * kw) as int, (k * kw) as int);
    let (_, ka, va) = attend(d, c, net, w, k0, v0, xh, pos, n);
    let (_, kb, vb) = attend(d, c, net, w, k0, v0, xb, pos, k);
    let end = ((pos + n) * kw) as int;
    let mid = ((pos + k) * kw) as int;
    assert(ka == laid(k0, at, rounded(d, k3), (n * kw) as int));
    assert(kb == laid(k0, at, rounded(d, k4), (k * kw) as int));
    assert(va == laid(v0, at, rounded(d, v1), (n * kw) as int));
    assert(vb == laid(v0, at, rounded(d, v2), (k * kw) as int));
    assert(reaches(q, ka.take(end), va.take(end), n, k, pos, qw, kw));
    let att = d.attended(q, ka.take(end), va.take(end), pos, heads, dim, kvh);
    let att2 = d.attended(
        q.take((k * qw) as int),
        kb.take(mid),
        vb.take(mid),
        pos,
        heads,
        dim,
        kvh,
    );
    assert(att.take((k * qw) as int) == att2);
    // What attention gives.
    lemma_dot(d, w.gate, xh, n, k, h, qw);
    let g = d.dot(w.gate, xh);
    assert(both(att, g, k * qw));
    let s = d.sigmoid(att, g);
    assert(s.take((k * qw) as int) == d.sigmoid(att2, g.take((k * qw) as int)));
    lemma_turn(d, net.signs_q, false, s, n, k);
    lemma_dot(d, w.o, d.turned(s, net.signs_q, false), n, k, qw, h);
}

/// The convolution and the recurrence by the first tokens.
#[verifier::rlimit(40)]
proof fn lemma_recur_first<D: Device>(
    d: &D,
    c: &Config,
    net: Net,
    w: LinearW,
    norm: Seq<u32>,
    conv0: Seq<u32>,
    ssm0: Seq<u32>,
    qkv: Seq<u32>,
    ab: Seq<u32>,
    pos: nat,
    n: nat,
    k: nat,
)
    requires
        tokenwise(d, c, net, pos),
        c.groups_fit(),
        linear_by_token(d, c, net, w, norm),
        begins(qkv, n, k, c.channels() as nat),
        begins(ab, n, k, (2 * c.v_heads) as nat),
        conv0.len() == c.conv_width(),
        ssm0.len() == c.ssm_width(),
    ensures
        ({
            let (a, _, _) = recur(d, c, net, w, conv0, ssm0, qkv, ab, n);
            let (b, _, _) = recur(
                d,
                c,
                net,
                w,
                conv0,
                ssm0,
                qkv.take(k * c.channels()),
                ab.take(k * (2 * c.v_heads)),
                k,
            );
            &&& a.len() == n * c.v_dim()
            &&& b == a.take(k * c.v_dim())
        }),
{
    let (nk, nv, dim) = (c.k_heads as nat, c.v_heads as nat, c.state_dim as nat);
    let (kd, vd) = (nk * dim, nv * dim);
    assert(kd == c.k_dim() && vd == c.v_dim());
    assert(convolvable(qkv, conv0, n, k, kd, vd));
    let (q, kk, v, _) = d.convolved(qkv, conv0, w.conv, n * kd, n * kd);
    let (q2, kk2, v2, _) = d.convolved(
        qkv.take((k * (2 * kd + vd)) as int),
        conv0,
        w.conv,
        k * kd,
        k * kd,
    );
    lemma_shorten(d, dim, net.eps, q, n, k, nk);
    lemma_shorten(d, dim, net.eps, kk, n, k, nk);
    let (qs, ks) = (d.l2(q, dim, net.eps), d.l2(kk, dim, net.eps));
    assert(recurrent(qs, ks, v, ab, ssm0, n, k, nk, nv, dim));
}

/// Linear attention by the first tokens: its projections and gates, and what
/// it gives.
#[verifier::rlimit(40)]
proof fn lemma_linear_first<D: Device>(
    d: &D,
    c: &Config,
    net: Net,
    w: LinearW,
    norm: Seq<u32>,
    conv0: Seq<u32>,
    ssm0: Seq<u32>,
    x: Seq<u32>,
    xh: Seq<u32>,
    pos: nat,
    n: nat,
    k: nat,
)
    requires
        tokenwise(d, c, net, pos),
        sized(c, net),
        w.shaped(c),
        norm.len() == c.hidden,
        linear_by_token(d, c, net, w, norm),
        begins(x, n, k, c.hidden as nat),
        begins(xh, n, k, c.hidden as nat),
        conv0.len() == c.conv_width(),
        ssm0.len() == c.ssm_width(),
    ensures
        ({
            let (x2, xh2) = (x.take(k * c.hidden), xh.take(k * c.hidden));
            let (qkv, ab) = (projected(d, w, xh), gated(d, net, w, norm, x));
            let (qkv2, ab2) = (projected(d, w, xh2), gated(d, net, w, norm, x2));
            let (a, _, _) = recur(d, c, net, w, conv0, ssm0, qkv, ab, n);
            let (b, _, _) = recur(d, c, net, w, conv0, ssm0, qkv2, ab2, k);
            &&& qkv.len() == n * c.channels()
            &&& ab.len() == n * (2 * c.v_heads)
            &&& qkv2 == qkv.take(k * c.channels())
            &&& ab2 == ab.take(k * (2 * c.v_heads))
            &&& emitted(d, net, w, a, xh).len() == n * c.hidden
            &&& emitted(d, net, w, b, xh2) == emitted(d, net, w, a, xh).take(k * c.hidden)
        }),
{
    let (x2, xh2) = (x.take(k * c.hidden), xh.take(k * c.hidden));
    let (qkv, ab) = (projected(d, w, xh), gated(d, net, w, norm, x));
    let (h, vw) = (c.hidden as nat, (c.v_heads * c.state_dim) as nat);
    assert(vw > 0) by (nonlinear_arith)
        requires
            vw == c.v_heads * c.state_dim,
            c.v_heads > 0,
            c.state_dim > 0,
    ;
    lemma_dot(d, w.qkv, xh, n, k, h, c.channels() as nat);
    super::run::lemma_multiple(1, h as int);
    lemma_norm(d, norm, net.eps, x, n, k, h);
    lemma_dot(d, w.ab, d.rms(x, norm, net.eps), n, k, h, (2 * c.v_heads) as nat);
    lemma_recur_first(d, c, net, w, norm, conv0, ssm0, qkv, ab, pos, n, k);
    let (a, _, _) = recur(d, c, net, w, conv0, ssm0, qkv, ab, n);
    lemma_widths(n, k, vw);
    lemma_norm(d, w.norm, net.eps, a, n, k, vw);
    lemma_dot(d, w.z, xh, n, k, h, vw);
    let (z, y) = (d.dot(w.z, xh), d.rms(a, w.norm, net.eps));
    assert(both(z, y, k * vw));
    let s = d.silu(z, y);
    assert(s.take((k * vw) as int) == d.silu(z.take((k * vw) as int), y.take((k * vw) as int)));
    lemma_turn(d, net.signs_v, false, s, n, k);
    lemma_dot(d, w.out, d.turned(s, net.signs_v, false), n, k, vw, h);
}

/// Whether a memory has the states of an architecture, and room for `room`
/// positions.
pub open spec fn holds(c: &Config, net: Net, m: Mem, room: int) -> bool {
    &&& layered(c, net, m)
    &&& m.conv.len() == net.layers.len() - attending(c, net.layers.len() as int)
    &&& m.ssm.len() == m.conv.len()
    &&& m.draft_qkv.len() == m.conv.len()
    &&& m.draft_ab.len() == m.conv.len()
    &&& forall|j: int| 0 <= j < m.k.len() ==> (#[trigger] m.k[j]).len() >= room * c.kv_dim()
    &&& forall|j: int| 0 <= j < m.v.len() ==> (#[trigger] m.v[j]).len() >= room * c.kv_dim()
    &&& forall|j: int| 0 <= j < m.conv.len() ==> (#[trigger] m.conv[j]).len() == c.conv_width()
    &&& forall|j: int| 0 <= j < m.ssm.len() ==> (#[trigger] m.ssm[j]).len() == c.ssm_width()
}

/// Whether the states of a linear layer, in a memory `b`, are what the first
/// `k` of the `n` tokens of the draft in `a` make of those in `m`.
spec fn caught_up<D: Device>(
    d: &D,
    c: &Config,
    net: Net,
    m: Mem,
    a: Mem,
    b: Mem,
    j: int,
    n: nat,
    k: nat,
) -> bool {
    let at = j - attending(c, j);
    let (_, conv, ssm) = recur(
        d,
        c,
        net,
        net.layers[j].mixer->Linear_0,
        m.conv[at],
        m.ssm[at],
        a.draft_qkv[at].take(k * c.channels()),
        a.draft_ab[at].take(k * (2 * c.v_heads)),
        k,
    );
    &&& a.draft_qkv[at].len() == n * c.channels()
    &&& a.draft_ab[at].len() == n * (2 * c.v_heads)
    &&& b.conv[at] == conv
    &&& b.ssm[at] == ssm
}

/// Whether caches agree where layers have been through them, and are what they
/// were elsewhere.
spec fn kept_up(
    start: Seq<Seq<u16>>,
    a: Seq<Seq<u16>>,
    b: Seq<Seq<u16>>,
    done: int,
    width: int,
) -> bool {
    &&& a.len() == start.len()
    &&& b.len() == start.len()
    &&& forall|j: int|
        0 <= j < done && j < start.len() ==> agree(#[trigger] a[j], b[j], width) && a[j].len()
            == start[j].len() && b[j].len() == start[j].len()
    &&& forall|j: int| done <= j < start.len() ==> #[trigger] a[j] == start[j] && b[j] == start[j]
}

/// Where a draft of `n` tokens and the first `k` of them run plainly are, when
/// both have gone through the first `i` layers.
spec fn abreast<D: Device>(
    d: &D,
    c: &Config,
    net: Net,
    m: Mem,
    a: (Mem, Seq<u32>),
    b: (Mem, Seq<u32>),
    i: int,
    pos: nat,
    n: nat,
    k: nat,
) -> bool {
    let done = attending(c, i);
    &&& a.1.len() == n * c.hidden
    &&& b.1 == a.1.take(k * c.hidden)
    &&& a.0.conv == m.conv
    &&& a.0.ssm == m.ssm
    &&& a.0.draft_qkv.len() == m.conv.len()
    &&& a.0.draft_ab.len() == m.conv.len()
    &&& b.0.conv.len() == m.conv.len()
    &&& b.0.ssm.len() == m.conv.len()
    &&& kept_up(m.k, a.0.k, b.0.k, done, (pos + k) * c.kv_dim())
    &&& kept_up(m.v, a.0.v, b.0.v, done, (pos + k) * c.kv_dim())
    &&& forall|j: int|
        0 <= j < i && !(#[trigger] c.attends(j)) ==> caught_up(d, c, net, m, a.0, b.0, j, n, k)
    &&& forall|j: int| i - done <= j < m.conv.len() ==> #[trigger] b.0.conv[j] == m.conv[j]
    &&& forall|j: int| i - done <= j < m.ssm.len() ==> #[trigger] b.0.ssm[j] == m.ssm[j]
}

/// A layer keeps a draft and its first tokens abreast.
#[verifier::rlimit(60)]
proof fn lemma_step_abreast<D: Device>(
    d: &D,
    c: &Config,
    net: Net,
    m: Mem,
    a: (Mem, Seq<u32>),
    b: (Mem, Seq<u32>),
    i: int,
    pos: nat,
    n: nat,
    k: nat,
)
    requires
        tokenwise(d, c, net, pos),
        sized(c, net),
        holds(c, net, m, (pos + n) as int),
        (pos + n) * c.rope_dim() <= net.rope.len(),
        0 < k <= n,
        0 <= i < net.layers.len(),
        abreast(d, c, net, m, a, b, i, pos, n, k),
    ensures
        abreast(
            d,
            c,
            net,
            m,
            step(d, c, net, i, a.0, a.1, pos, n, true),
            step(d, c, net, i, b.0, b.1, pos, k, false),
            i + 1,
            pos,
            n,
            k,
        ),
{
    let l = net.layers.len() as int;
    lemma_attending(c, i, l);
    lemma_attending(c, i + 1, l);
    let w = net.layers[i];
    let h = c.hidden as nat;
    assert(w.shaped(c));
    assert((w.mixer is Attention) == c.attends(i));
    lemma_widths(n, k, h);
    let (x, y) = (a.1, b.1);
    assert(begins(x, n, k, h));
    lemma_norm_turn(d, w.attn_norm, net.signs, net.eps, x, n, k);
    let xh = d.norm_turned(x, w.attn_norm, net.signs, net.eps);
    let yh = d.norm_turned(y, w.attn_norm, net.signs, net.eps);
    assert(yh == xh.take(k * c.hidden));
    let a2 = step(d, c, net, i, a.0, x, pos, n, true);
    let b2 = step(d, c, net, i, b.0, y, pos, k, false);
    let (xm, ym) = match w.mixer {
        MixerW::Attention(t) => {
            let at = attending(c, i);
            assert(a.0.k[at] == m.k[at] && b.0.k[at] == m.k[at]);
            assert(a.0.v[at] == m.v[at] && b.0.v[at] == m.v[at]);
            assert(m.k[at].len() >= (pos + n) * c.kv_dim());
            assert(m.v[at].len() >= (pos + n) * c.kv_dim());
            lemma_attend_first(d, c, net, t, m.k[at], m.v[at], xh, pos, n, k);
            (
                attend(d, c, net, t, m.k[at], m.v[at], xh, pos, n).0,
                attend(d, c, net, t, m.k[at], m.v[at], yh, pos, k).0,
            )
        },
        MixerW::Linear(t) => {
            let at = i - attending(c, i);
            assert(b.0.conv[at] == m.conv[at] && b.0.ssm[at] == m.ssm[at]);
            assert(m.conv[at].len() == c.conv_width());
            assert(m.ssm[at].len() == c.ssm_width());
            lemma_linear_first(
                d,
                c,
                net,
                t,
                w.attn_norm,
                m.conv[at],
                m.ssm[at],
                x,
                xh,
                pos,
                n,
                k,
            );
            let (p, _, _) = recur(
                d,
                c,
                net,
                t,
                m.conv[at],
                m.ssm[at],
                projected(d, t, xh),
                gated(d, net, t, w.attn_norm, x),
                n,
            );
            let (q, _, _) = recur(
                d,
                c,
                net,
                t,
                m.conv[at],
                m.ssm[at],
                projected(d, t, yh),
                gated(d, net, t, w.attn_norm, y),
                k,
            );
            (emitted(d, net, t, p, xh), emitted(d, net, t, q, yh))
        },
    };
    lemma_sum(d, x, xm, k * h);
    let mixed = d.sum(x, xm);
    assert(mixed.take((k * h) as int) == d.sum(y, ym));
    lemma_feed_first(d, c, net, i, mixed, pos, n, k);
    lemma_sum(d, mixed, feed(d, net, w, mixed), k * h);
    assert forall|j: int| 0 <= j < i + 1 && !(#[trigger] c.attends(j)) implies caught_up(
        d,
        c,
        net,
        m,
        a2.0,
        b2.0,
        j,
        n,
        k,
    ) by {
        lemma_attending(c, j, i);
        if j < i {
            lemma_attending(c, j + 1, i);
            assert(caught_up(d, c, net, m, a.0, b.0, j, n, k));
        }
    }
    let done = attending(c, i + 1);
    let width = (pos + k) * c.kv_dim();
    lemma_kept_up(m.k, a.0.k, b.0.k, a2.0.k, b2.0.k, attending(c, i), done, width);
    lemma_kept_up(m.v, a.0.v, b.0.v, a2.0.v, b2.0.v, attending(c, i), done, width);
    assert(a2.1.len() == n * c.hidden);
    assert(b2.1 == a2.1.take(k * c.hidden));
    assert forall|j: int| i + 1 - done <= j < m.conv.len() implies #[trigger] b2.0.conv[j]
        == m.conv[j] by {
        assert(b.0.conv[j] == m.conv[j]);
    }
    assert forall|j: int| i + 1 - done <= j < m.ssm.len() implies #[trigger] b2.0.ssm[j]
        == m.ssm[j] by {
        assert(b.0.ssm[j] == m.ssm[j]);
    }
}

/// Caches stay in step when a layer goes through one more of them, or none.
proof fn lemma_kept_up(
    start: Seq<Seq<u16>>,
    a: Seq<Seq<u16>>,
    b: Seq<Seq<u16>>,
    a2: Seq<Seq<u16>>,
    b2: Seq<Seq<u16>>,
    was: int,
    done: int,
    width: int,
)
    requires
        kept_up(start, a, b, was, width),
        0 <= was <= done <= start.len(),
        done == was ==> a2 == a && b2 == b,
        done > was ==> done == was + 1 && a2 == a.update(was, a2[was]) && b2 == b.update(was, b2[was])
            && agree(a2[was], b2[was], width) && a2[was].len() == start[was].len() && b2[was].len()
            == start[was].len(),
    ensures
        kept_up(start, a2, b2, done, width),
{
    assert forall|j: int| 0 <= j < done && j < start.len() implies agree(
        #[trigger] a2[j],
        b2[j],
        width,
    ) && a2[j].len() == start[j].len() && b2[j].len() == start[j].len() by {
        if j < was {
            assert(agree(a[j], b[j], width));
        }
    }
    assert forall|j: int| done <= j < start.len() implies #[trigger] a2[j] == start[j] && b2[j]
        == start[j] by {
        assert(a[j] == start[j]);
    }
}

/// Layers keep a draft and its first tokens abreast.
proof fn lemma_steps_abreast<D: Device>(
    d: &D,
    c: &Config,
    net: Net,
    i: int,
    m: Mem,
    x: Seq<u32>,
    pos: nat,
    n: nat,
    k: nat,
)
    requires
        tokenwise(d, c, net, pos),
        sized(c, net),
        holds(c, net, m, (pos + n) as int),
        (pos + n) * c.rope_dim() <= net.rope.len(),
        0 < k <= n,
        0 <= i <= net.layers.len(),
        x.len() == n * c.hidden,
    ensures
        abreast(
            d,
            c,
            net,
            m,
            steps(d, c, net, i, m, x, pos, n, true),
            steps(d, c, net, i, m, x.take(k * c.hidden), pos, k, false),
            i,
            pos,
            n,
            k,
        ),
    decreases i,
{
    if i > 0 {
        lemma_steps_abreast(d, c, net, i - 1, m, x, pos, n, k);
        lemma_step_abreast(
            d,
            c,
            net,
            m,
            steps(d, c, net, i - 1, m, x, pos, n, true),
            steps(d, c, net, i - 1, m, x.take(k * c.hidden), pos, k, false),
            i - 1,
            pos,
            n,
            k,
        );
    }
}

/// The rows of the embedding table for the first tokens.
proof fn lemma_looked_up<D: Device>(
    d: &D,
    c: &Config,
    net: Net,
    tokens: Seq<u32>,
    pos: nat,
    k: nat,
)
    requires
        tokenwise(d, c, net, pos),
        k <= tokens.len(),
    ensures
        looked_up(d, c, net, tokens).len() == tokens.len() * c.hidden,
        looked_up(d, c, net, tokens).take(k * c.hidden) == looked_up(
            d,
            c,
            net,
            tokens.take(k as int),
        ),
    decreases tokens.len(),
{
    let all = looked_up(d, c, net, tokens);
    let n = tokens.len();
    if n > 0 {
        let before = tokens.drop_last();
        let h = c.hidden as nat;
        assert(n * h == (n - 1) * h + h) by (nonlinear_arith);
        lemma_widths((n - 1) as nat, 0, h);
        if k < n {
            lemma_looked_up(d, c, net, before, pos, k);
            lemma_widths((n - 1) as nat, k, h);
            assert(before.take(k as int) =~= tokens.take(k as int));
            assert(all.take(k * c.hidden) =~= looked_up(d, c, net, before).take(k * c.hidden));
        } else {
            lemma_looked_up(d, c, net, before, pos, 0);
            assert(tokens.take(k as int) =~= tokens);
            assert(all.take(k * c.hidden) =~= all);
        }
    } else {
        assert(tokens.take(k as int) =~= tokens);
        assert(all.take(k * c.hidden) =~= all);
    }
}

/// A draft and its first tokens run plainly, through all layers.
proof fn lemma_batch_abreast<D: Device>(
    d: &D,
    c: &Config,
    net: Net,
    m: Mem,
    tokens: Seq<u32>,
    pos: nat,
    k: nat,
)
    requires
        tokenwise(d, c, net, pos),
        sized(c, net),
        holds(c, net, m, (pos + tokens.len()) as int),
        (pos + tokens.len()) * c.rope_dim() <= net.rope.len(),
        0 < k <= tokens.len(),
    ensures
        abreast(
            d,
            c,
            net,
            m,
            batch(d, c, net, m, tokens, pos, true),
            batch(d, c, net, m, tokens.take(k as int), pos, false),
            net.layers.len() as int,
            pos,
            tokens.len(),
            k,
        ),
{
    let n = tokens.len();
    lemma_looked_up(d, c, net, tokens, pos, k);
    let rows = looked_up(d, c, net, tokens);
    lemma_turn(d, net.signs, true, rows, n, k);
    lemma_steps_abreast(
        d,
        c,
        net,
        net.layers.len() as int,
        m,
        embedded(d, c, net, tokens),
        pos,
        n,
        k,
    );
}

/// What committing the first `k` tokens of a draft does, layer by layer.
proof fn lemma_stood<D: Device>(d: &D, c: &Config, net: Net, i: int, m: Mem, k: nat)
    requires
        0 <= i <= net.layers.len(),
        layered(c, net, m),
        m.conv.len() == net.layers.len() - attending(c, net.layers.len() as int),
        m.ssm.len() == m.conv.len(),
    ensures
        ({
            let after = committed(d, c, net, i, m, k);
            &&& after.k == m.k
            &&& after.v == m.v
            &&& after.conv.len() == m.conv.len()
            &&& after.ssm.len() == m.ssm.len()
            &&& forall|j: int|
                0 <= j < i && !(#[trigger] c.attends(j)) ==> {
                    let at = j - attending(c, j);
                    let (_, conv, ssm) = recur(
                        d,
                        c,
                        net,
                        net.layers[j].mixer->Linear_0,
                        m.conv[at],
                        m.ssm[at],
                        m.draft_qkv[at].take(k * c.channels()),
                        m.draft_ab[at].take(k * (2 * c.v_heads)),
                        k,
                    );
                    after.conv[at] == conv && after.ssm[at] == ssm
                }
        }),
    decreases i,
{
    if i > 0 {
        lemma_stood(d, c, net, i - 1, m, k);
        let l = net.layers.len() as int;
        lemma_attending(c, i - 1, l);
        lemma_attending(c, i, l);
        let before = committed(d, c, net, i - 1, m, k);
        let after = committed(d, c, net, i, m, k);
        assert((net.layers[i - 1].mixer is Attention) == c.attends(i - 1));
        assert forall|j: int| 0 <= j < i && !(#[trigger] c.attends(j)) implies {
            let at = j - attending(c, j);
            let (_, conv, ssm) = recur(
                d,
                c,
                net,
                net.layers[j].mixer->Linear_0,
                m.conv[at],
                m.ssm[at],
                m.draft_qkv[at].take(k * c.channels()),
                m.draft_ab[at].take(k * (2 * c.v_heads)),
                k,
            );
            after.conv[at] == conv && after.ssm[at] == ssm
        } by {
            lemma_attending(c, j, i - 1);
            if j < i - 1 {
                lemma_attending(c, j + 1, i - 1);
            }
        }
    }
}

/// A model's weights are of its sizes, and its memory has the states of its
/// architecture.
proof fn lemma_model_holds<'a, D: Device>(m: &Model<'a, D>, len: nat)
    requires
        m.wf(),
        len <= m.room(),
    ensures
        sized(&m.config, m.net()),
        holds(&m.config, m.net(), settled(m.mem()), len as int),
        len * m.config.rope_dim() <= m.net().rope.len(),
{
    let c = &m.config;
    lemma_model_extents(m, len);
    assert forall|i: int| 0 <= i < m.net().layers.len() implies (
    #[trigger] m.net().layers[i]).shaped(c) by {
        assert(super::network::placed(m.layers@[i], c, i));
    }
    let r = c.rope_dim();
    assert(len * r <= m.state.max_len * r) by (nonlinear_arith)
        requires
            len <= m.state.max_len,
            r >= 0,
    ;
    assert(c.kv_dim() >= 0) by (nonlinear_arith)
        requires
            c.kv_dim() == c.kv_heads * c.head_dim,
    ;
    let (mem, e) = (settled(m.mem()), m.extents());
    assert forall|j: int| 0 <= j < mem.k.len() implies (#[trigger] mem.k[j]).len() >= len
        * c.kv_dim() by {
        assert(m.mem().k[j].len() >= len * e.kv);
    }
    assert forall|j: int| 0 <= j < mem.v.len() implies (#[trigger] mem.v[j]).len() >= len
        * c.kv_dim() by {
        assert(m.mem().v[j].len() >= len * e.kv);
    }
}

/// On a device that works token by token, the logits after each token of a
/// draft are those after the same tokens run plainly.
pub proof fn law_draft_logits_are_plain<'a, D: Device>(
    model: &Model<'a, D>,
    tokens: Seq<u32>,
    j: nat,
)
    requires
        model.wf(),
        tokenwise(&model.device, &model.config, model.net(), model.tokens().len()),
        j < tokens.len() <= VERIFY,
        model.tokens().len() + tokens.len() <= model.room(),
    ensures
        ({
            let (d, c, net) = (&model.device, &model.config, model.net());
            let (m, pos) = (settled(model.mem()), model.tokens().len());
            let (_, x) = batch(d, c, net, m, tokens, pos, true);
            let (_, plain) = forwarded(d, c, net, m, tokens.take((j + 1) as int), pos);
            vector(all_logits(d, net, x), j, c.vocab as nat) == plain
        }),
{
    let (d, c, net) = (&model.device, &model.config, model.net());
    let (m, pos) = (settled(model.mem()), model.tokens().len());
    let n = tokens.len();
    lemma_model_holds(model, pos + n);
    lemma_batch_abreast(d, c, net, m, tokens, pos, j + 1);
    let (_, x) = batch(d, c, net, m, tokens, pos, true);
    let (_, y) = batch(d, c, net, m, tokens.take((j + 1) as int), pos, false);
    let h = c.hidden as nat;
    assert(y == x.take(((j + 1) * h) as int));
    lemma_widths(n, j + 1, h);
    assert((j + 1) * h == j * h + h && j * h >= 0) by (nonlinear_arith);
    assert(y.subrange(y.len() - h, y.len() as int) =~= vector(x, j, h));
    assert(vectors(x, n, j, h));
    let t = d.norm_turned(x, net.norm, net.signs, net.eps);
    assert(vector(t, j, h) == d.norm_turned(vector(x, j, h), net.norm, net.signs, net.eps));
    assert(vectors(t, n, j, h));
    lemma_dot_one(d, net.head, t, n, j, h, c.vocab as nat);
    assert(last_logits(d, c, net, y) == d.dot(net.head, vector(t, j, h)));
}

/// On a device that works token by token, committing the first tokens of a
/// draft is as if they had been run plainly: the states of the linear layers
/// are the same, and the keys and values of all positions up to their end, and
/// so are the logits after whatever comes next.
pub proof fn law_part_of_a_draft_is_forward<'a, D: Device>(
    model: &Model<'a, D>,
    tokens: Seq<u32>,
    count: nat,
    more: Seq<u32>,
)
    requires
        model.wf(),
        tokenwise(&model.device, &model.config, model.net(), model.tokens().len()),
        0 < count <= tokens.len() <= VERIFY,
        model.tokens().len() + tokens.len() <= model.room(),
        model.tokens().len() + count + more.len() <= model.room(),
    ensures
        ({
            let (d, c, net) = (&model.device, &model.config, model.net());
            let (m, pos) = (settled(model.mem()), model.tokens().len());
            let (kept, _) = batch(d, c, net, m, tokens, pos, true);
            let stood = settled(committed(d, c, net, c.layers as int, kept, count));
            let (plain, _) = forwarded(d, c, net, m, tokens.take(count as int), pos);
            let (_, got) = forwarded(d, c, net, settled(stood), more, pos + count);
            let (_, want) = forwarded(d, c, net, settled(plain), more, pos + count);
            &&& alike(c, stood, plain, (pos + count) as int)
            &&& got == want
        }),
{
    let (d, c, net) = (&model.device, &model.config, model.net());
    let (m, pos) = (settled(model.mem()), model.tokens().len());
    let (n, l) = (tokens.len(), net.layers.len() as int);
    let room = model.room() as int;
    lemma_model_holds(model, pos + n);
    lemma_model_holds(model, model.room());
    lemma_batch_abreast(d, c, net, m, tokens, pos, count);
    let (kept, _) = batch(d, c, net, m, tokens, pos, true);
    let (plain, _) = batch(d, c, net, m, tokens.take(count as int), pos, false);
    assert(layered(c, net, kept));
    lemma_stood(d, c, net, l, kept, count);
    let stood = settled(committed(d, c, net, l, kept, count));
    assert forall|slot: int| 0 <= slot < m.conv.len() implies #[trigger] stood.conv[slot]
        == plain.conv[slot] && stood.ssm[slot] == plain.ssm[slot] by {
        let i = lemma_slot_of(c, slot, l);
        assert(!c.attends(i));
        assert(caught_up(d, c, net, m, kept, plain, i, n, count));
    }
    assert(stood.conv =~= plain.conv);
    assert forall|slot: int| 0 <= slot < m.ssm.len() implies #[trigger] stood.ssm[slot]
        == plain.ssm[slot] by {
        assert(stood.conv[slot] == plain.conv[slot]);
    }
    assert(stood.ssm =~= plain.ssm);
    assert(alike(c, stood, plain, (pos + count) as int));
    let (a, b) = (settled(stood), settled(plain));
    let kv = c.kv_dim();
    assert forall|j: int| 0 <= j < a.k.len() implies (#[trigger] a.k[j]).len() >= room * kv by {
        assert(agree(kept.k[j], plain.k[j], (pos + count) * kv));
        assert(m.k[j].len() >= room * kv);
    }
    assert forall|j: int| 0 <= j < a.v.len() implies (#[trigger] a.v[j]).len() >= room * kv by {
        assert(agree(kept.v[j], plain.v[j], (pos + count) * kv));
        assert(m.v[j].len() >= room * kv);
    }
    assert forall|j: int| 0 <= j < b.k.len() implies (#[trigger] b.k[j]).len() >= room * kv by {
        assert(agree(kept.k[j], plain.k[j], (pos + count) * kv));
        assert(m.k[j].len() >= room * kv);
    }
    assert forall|j: int| 0 <= j < b.v.len() implies (#[trigger] b.v[j]).len() >= room * kv by {
        assert(agree(kept.v[j], plain.v[j], (pos + count) * kv));
        assert(m.v[j].len() >= room * kv);
    }
    assert(rooms(c, a, room) && rooms(c, b, room));
    assert(alike(c, a, b, (pos + count) as int)) by {
        assert(a.k == stood.k && b.k == plain.k);
    }
    law_positions_past_the_sequence_are_not_read(d, c, net, a, b, more, pos + count, room);
}

} // verus!
