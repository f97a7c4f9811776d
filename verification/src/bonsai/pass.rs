//! What a pass through the model computes, over what the device's operations
//! compute.
use vstd::prelude::*;

use super::config::Config;
use super::dims::BATCH;
use super::layer::{AttentionW, LayerW, LinearW, MixerW};
use crate::device::{Device, Mat};

verus! {

/// The weights of a model, and what else a pass takes that stays the same.
pub ghost struct Net {
    pub layers: Seq<LayerW>,
    pub norm: Seq<u32>,
    pub head: Mat,
    /// The signs of the rotation for the residual stream, for what attention
    /// gives, for what linear attention gives, and for the feed-forward
    /// network.
    pub signs: Seq<u32>,
    pub signs_q: Seq<u32>,
    pub signs_v: Seq<u32>,
    pub signs_ffn: Seq<u32>,
    pub rope: Seq<u32>,
    pub eps: u32,
    /// The embedding table, and the bytes of a row of it.
    pub table: Seq<u8>,
    pub row: nat,
}

/// What a model keeps of a sequence: the keys and values of each full
/// attention layer, the convolution state and the recurrent state of each
/// linear layer, and of the last draft verified each linear layer's
/// projections and gates.
pub ghost struct Mem {
    pub k: Seq<Seq<u16>>,
    pub v: Seq<Seq<u16>>,
    pub conv: Seq<Seq<u32>>,
    pub ssm: Seq<Seq<u32>>,
    pub draft_qkv: Seq<Seq<u32>>,
    pub draft_ab: Seq<Seq<u32>>,
}

/// How many layers of the first `i` are full attention.
pub open spec fn attending(c: &Config, i: int) -> int
    decreases i,
{
    if i <= 0 {
        0
    } else {
        attending(c, i - 1) + if c.attends(i - 1) {
            1int
        } else {
            0int
        }
    }
}

/// Halves of activations.
pub open spec fn rounded<D: Device>(d: &D, x: Seq<u32>) -> Seq<u16> {
    x.map_values(|v: u32| d.half(v))
}

/// A sequence with the first `n` of another in place of some of it.
pub open spec fn laid<T>(s: Seq<T>, at: int, t: Seq<T>, n: int) -> Seq<T> {
    Seq::new(
        s.len(),
        |i: int|
            if at <= i < at + n {
                t[i - at]
            } else {
                s[i]
            },
    )
}

/// Full attention over a batch of `n` tokens from position `pos` on: what it
/// gives, and the keys and values after it.
pub open spec fn attend<D: Device>(
    d: &D,
    c: &Config,
    net: Net,
    w: AttentionW,
    k0: Seq<u16>,
    v0: Seq<u16>,
    xh: Seq<u32>,
    pos: nat,
    n: nat,
) -> (Seq<u32>, Seq<u16>, Seq<u16>) {
    let (heads, kv, dim, rot) = (
        c.heads as nat,
        c.kv_heads as nat,
        c.head_dim as nat,
        c.rot_dim as nat,
    );
    let q = d.roped(
        d.rms(d.dot(w.q, xh), w.q_norm, net.eps),
        net.rope,
        pos,
        heads,
        dim,
        rot,
    );
    let k = d.roped(
        d.rms(d.dot(w.k, xh), w.k_norm, net.eps),
        net.rope,
        pos,
        kv,
        dim,
        rot,
    );
    let keys = laid(k0, pos * c.kv_dim(), rounded(d, k), n * c.kv_dim());
    let values = laid(v0, pos * c.kv_dim(), rounded(d, d.dot(w.v, xh)), n * c.kv_dim());
    let end = (pos + n) * c.kv_dim();
    let att = d.attended(q, keys.take(end), values.take(end), pos, heads, dim, kv);
    let gated = d.turned(d.sigmoid(att, d.dot(w.gate, xh)), net.signs_q, false);
    (d.dot(w.o, gated), keys, values)
}

/// The convolution and the recurrence of linear attention over a batch's
/// projections and gates: what they give, and their states after it.
pub open spec fn recur<D: Device>(
    d: &D,
    c: &Config,
    net: Net,
    w: LinearW,
    conv0: Seq<u32>,
    ssm0: Seq<u32>,
    qkv: Seq<u32>,
    ab: Seq<u32>,
    n: nat,
) -> (Seq<u32>, Seq<u32>, Seq<u32>) {
    let width = (n * c.k_dim()) as nat;
    let (q, k, v, conv) = d.convolved(qkv, conv0, w.conv, width, width);
    let dim = c.state_dim as nat;
    let (att, ssm) = d.delta(
        d.l2(q, dim, net.eps),
        d.l2(k, dim, net.eps),
        v,
        ab,
        w.decay,
        ssm0,
        c.k_heads as nat,
        c.v_heads as nat,
        dim,
    );
    (att, conv, ssm)
}

/// The projections that linear attention makes of a batch.
pub open spec fn projected<D: Device>(d: &D, w: LinearW, xh: Seq<u32>) -> Seq<u32> {
    d.dot(w.qkv, xh)
}

/// The gates that linear attention makes of a batch.
pub open spec fn gated<D: Device>(d: &D, net: Net, w: LinearW, norm: Seq<u32>, x: Seq<u32>) -> Seq<
    u32,
> {
    d.dot(w.ab, d.rms(x, norm, net.eps))
}

/// What linear attention makes of what its recurrence gives.
pub open spec fn emitted<D: Device>(d: &D, net: Net, w: LinearW, att: Seq<u32>, xh: Seq<u32>) -> Seq<
    u32,
> {
    let z = d.silu(d.dot(w.z, xh), d.rms(att, w.norm, net.eps));
    d.dot(w.out, d.turned(z, net.signs_v, false))
}

/// The feed-forward network.
pub open spec fn feed<D: Device>(d: &D, net: Net, w: LayerW, x: Seq<u32>) -> Seq<u32> {
    let xh = d.norm_turned(x, w.mlp_norm, net.signs, net.eps);
    let up = d.silu(d.dot(w.gate, xh), d.dot(w.up, xh));
    d.dot(w.down, d.turned(up, net.signs_ffn, false))
}

/// Layer `i` over a batch of `n` tokens from position `pos` on: the memory
/// and the residual stream after it. Verifying a draft, linear attention
/// leaves its states as they are, and its projections and gates are kept.
pub open spec fn step<D: Device>(
    d: &D,
    c: &Config,
    net: Net,
    i: int,
    m: Mem,
    x: Seq<u32>,
    pos: nat,
    n: nat,
    verify: bool,
) -> (Mem, Seq<u32>) {
    let w = net.layers[i];
    let xh = d.norm_turned(x, w.attn_norm, net.signs, net.eps);
    let (after, xb) = match w.mixer {
        MixerW::Attention(a) => {
            let at = attending(c, i);
            let (xb, k, v) = attend(d, c, net, a, m.k[at], m.v[at], xh, pos, n);
            (Mem { k: m.k.update(at, k), v: m.v.update(at, v), ..m }, xb)
        },
        MixerW::Linear(l) => {
            let at = i - attending(c, i);
            let qkv = projected(d, l, xh);
            let ab = gated(d, net, l, w.attn_norm, x);
            let (att, conv, ssm) = recur(d, c, net, l, m.conv[at], m.ssm[at], qkv, ab, n);
            let xb = emitted(d, net, l, att, xh);
            if verify {
                (
                    Mem {
                        draft_qkv: m.draft_qkv.update(at, qkv),
                        draft_ab: m.draft_ab.update(at, ab),
                        ..m
                    },
                    xb,
                )
            } else {
                (Mem { conv: m.conv.update(at, conv), ssm: m.ssm.update(at, ssm), ..m }, xb)
            }
        },
    };
    let mixed = d.sum(x, xb);
    (after, d.sum(mixed, feed(d, net, w, mixed)))
}

/// The first `i` layers over a batch.
pub open spec fn steps<D: Device>(
    d: &D,
    c: &Config,
    net: Net,
    i: int,
    m: Mem,
    x: Seq<u32>,
    pos: nat,
    n: nat,
    verify: bool,
) -> (Mem, Seq<u32>)
    decreases i,
{
    if i <= 0 {
        (m, x)
    } else {
        let (before, y) = steps(d, c, net, i - 1, m, x, pos, n, verify);
        step(d, c, net, i - 1, before, y, pos, n, verify)
    }
}

/// The rows of the embedding table for tokens.
pub open spec fn looked_up<D: Device>(d: &D, c: &Config, net: Net, tokens: Seq<u32>) -> Seq<u32>
    decreases tokens.len(),
{
    if tokens.len() == 0 {
        Seq::empty()
    } else {
        let at = tokens.last() as int * net.row;
        looked_up(d, c, net, tokens.drop_last()) + d.unpacked(
            net.table.subrange(at, at + net.row),
            c.hidden as nat,
        )
    }
}

/// The residual stream that tokens start with.
pub open spec fn embedded<D: Device>(d: &D, c: &Config, net: Net, tokens: Seq<u32>) -> Seq<u32> {
    d.turned(looked_up(d, c, net, tokens), net.signs, true)
}

/// A batch through the model: the memory, and the residual stream.
pub open spec fn batch<D: Device>(
    d: &D,
    c: &Config,
    net: Net,
    m: Mem,
    tokens: Seq<u32>,
    pos: nat,
    verify: bool,
) -> (Mem, Seq<u32>) {
    steps(
        d,
        c,
        net,
        net.layers.len() as int,
        m,
        embedded(d, c, net, tokens),
        pos,
        tokens.len(),
        verify,
    )
}

/// The logits after the last token of a batch.
pub open spec fn last_logits<D: Device>(d: &D, c: &Config, net: Net, x: Seq<u32>) -> Seq<u32> {
    d.dot(
        net.head,
        d.norm_turned(x.subrange(x.len() - c.hidden, x.len() as int), net.norm, net.signs, net.eps),
    )
}

/// The logits after every token of a batch.
pub open spec fn all_logits<D: Device>(d: &D, net: Net, x: Seq<u32>) -> Seq<u32> {
    d.dot(net.head, d.norm_turned(x, net.norm, net.signs, net.eps))
}

/// Tokens through the model, batch by batch: the memory after them, and the
/// logits after the last of them.
pub open spec fn forwarded<D: Device>(
    d: &D,
    c: &Config,
    net: Net,
    m: Mem,
    tokens: Seq<u32>,
    pos: nat,
) -> (Mem, Seq<u32>)
    decreases tokens.len(),
{
    if tokens.len() <= BATCH {
        let (after, x) = batch(d, c, net, m, tokens, pos, false);
        (after, last_logits(d, c, net, x))
    } else {
        let cut = (tokens.len() - 1) / BATCH as int * BATCH;
        let (before, _) = forwarded(d, c, net, m, tokens.take(cut), pos);
        let (after, x) = batch(d, c, net, before, tokens.skip(cut), pos + cut as nat, false);
        (after, last_logits(d, c, net, x))
    }
}

/// The memory with no draft.
pub open spec fn settled(m: Mem) -> Mem {
    Mem {
        draft_qkv: Seq::new(m.draft_qkv.len(), |i: int| Seq::<u32>::empty()),
        draft_ab: Seq::new(m.draft_ab.len(), |i: int| Seq::<u32>::empty()),
        ..m
    }
}

/// The logits after the last of some runs of tokens, from position `pos` on.
pub open spec fn spoken<D: Device>(
    d: &D,
    c: &Config,
    net: Net,
    m: Mem,
    runs: Seq<Seq<u32>>,
    pos: nat,
) -> Seq<u32>
    decreases runs.len(),
{
    if runs.len() == 0 {
        Seq::empty()
    } else {
        let (after, logits) = forwarded(d, c, net, settled(m), runs[0], pos);
        if runs.len() == 1 {
            logits
        } else {
            spoken(d, c, net, after, runs.drop_first(), pos + runs[0].len())
        }
    }
}

/// The memory once the first `count` tokens of the draft stand: each linear
/// layer's states after their projections and gates.
pub open spec fn committed<D: Device>(d: &D, c: &Config, net: Net, i: int, m: Mem, count: nat) -> Mem
    decreases i,
{
    if i <= 0 {
        m
    } else {
        let before = committed(d, c, net, i - 1, m, count);
        match net.layers[i - 1].mixer {
            MixerW::Attention(_) => before,
            MixerW::Linear(l) => {
                let at = i - 1 - attending(c, i - 1);
                let (_, conv, ssm) = recur(
                    d,
                    c,
                    net,
                    l,
                    m.conv[at],
                    m.ssm[at],
                    m.draft_qkv[at].take(count * c.channels()),
                    m.draft_ab[at].take(count * (2 * c.v_heads)),
                    count,
                );
                Mem { conv: before.conv.update(at, conv), ssm: before.ssm.update(at, ssm), ..before }
            },
        }
    }
}

} // verus!
