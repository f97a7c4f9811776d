//! A batch through a layer.
use vstd::arithmetic::div_mod::{lemma_div_multiples_vanish, lemma_mod_multiples_basic};
use vstd::prelude::*;

use super::config::Config;
use super::dims::{Dims, BATCH};
use super::fitting::{lemma_grouped, lemma_takes};
use super::layer::{Attention, Layer, Linear, Mixer};
use super::pass::{attend, attending, emitted, feed, gated, projected, recur, step, Mem, Net};
use super::state::{
    contents, each_holds, halves, larger, lemma_each_holds, lemma_within, wider, State,
};
use crate::device::Device;
use crate::model::VERIFY;

verus! {

/// The signs of the rotation, by what they apply to.
pub struct Signs<'a, D: Device> {
    pub hidden: &'a D::Buffer,
    pub q: &'a D::Buffer,
    pub v: &'a D::Buffer,
    pub ffn: &'a D::Buffer,
}

impl<'a, D: Device> Signs<'a, D> {
    /// Whether the signs are those of a model.
    pub open spec fn of(&self, c: &Config, net: Net) -> bool {
        &&& D::data(self.hidden) == net.signs
        &&& D::data(self.q) == net.signs_q
        &&& D::data(self.v) == net.signs_v
        &&& D::data(self.ffn) == net.signs_ffn
        &&& net.signs.len() == c.hidden
        &&& net.signs_q.len() == c.q_dim()
        &&& net.signs_v.len() == c.v_dim()
        &&& net.signs_ffn.len() == c.intermediate
    }
}

/// A multiple divided, and what is left over.
pub proof fn lemma_multiple(n: int, width: int)
    requires
        width > 0,
    ensures
        (n * width) % width == 0,
        (n * width) / width == n,
{
    lemma_mod_multiples_basic(n, width);
    lemma_div_multiples_vanish(n, width);
    assert(n * width == width * n) by (nonlinear_arith);
}

impl<D: Device> State<D> {
    /// Whether the buffers of the residual stream and the projections from it
    /// are sized for `n` tokens.
    pub open spec fn flows(&self, c: &Config, n: int) -> bool {
        &&& D::data(&self.x).len() == n * c.hidden
        &&& D::data(&self.xb).len() == n * c.hidden
        &&& D::data(&self.xh).len() == n * c.hidden
        &&& D::data(&self.qkv).len() == n * c.channels()
        &&& D::data(&self.z).len() == n * c.v_dim()
        &&& D::data(&self.ab).len() == n * (2 * c.v_heads)
        &&& D::data(&self.up).len() == n * c.intermediate
        &&& D::data(&self.gate_ffn).len() == n * c.intermediate
    }

    /// Whether all buffers of a batch are sized for `n` tokens: those of the
    /// residual stream and its projections, and those that full and linear
    /// attention both use, as wide as the wider of the two needs them.
    pub open spec fn sized(&self, c: &Config, n: int) -> bool {
        &&& self.flows(c, n)
        &&& D::data(&self.q).len() == n * wider(c.q_dim(), c.k_dim())
        &&& D::data(&self.gate).len() == n * c.q_dim()
        &&& D::data(&self.k).len() == n * wider(c.kv_dim(), c.k_dim())
        &&& D::data(&self.v).len() == n * wider(c.kv_dim(), c.v_dim())
        &&& D::data(&self.att).len() == n * wider(c.q_dim(), c.v_dim())
    }

    /// Sizes the buffers for a batch of `n` tokens.
    pub fn batch(&mut self, d: &D, c: &Config, dims: &Dims, n: usize)
        requires
            old(self).roomy(c),
            n <= BATCH,
            c.countable(0),
            dims.of(c),
        ensures
            final(self).roomy(c),
            final(self).sized(c, n as int),
            *final(self) == (State {
                x: final(self).x,
                xb: final(self).xb,
                xh: final(self).xh,
                q: final(self).q,
                gate: final(self).gate,
                k: final(self).k,
                v: final(self).v,
                att: final(self).att,
                qkv: final(self).qkv,
                z: final(self).z,
                ab: final(self).ab,
                up: final(self).up,
                gate_ffn: final(self).gate_ffn,
                ..*old(self)
            }),
    {
        let s = self;
        proof {
            let (a, b, h) = (c.k_heads as int, c.v_heads as int, c.state_dim as int);
            assert(a * h >= 0 && b * h >= 0) by (nonlinear_arith)
                requires
                    a >= 0,
                    b >= 0,
                    h >= 0,
            ;
            lemma_within(n as int, BATCH as int, c.hidden as int);
            lemma_within(n as int, BATCH as int, c.channels());
            lemma_within(n as int, BATCH as int, c.v_dim());
            lemma_within(n as int, BATCH as int, 2 * c.v_heads);
            lemma_within(n as int, BATCH as int, c.intermediate as int);
            let (e, f, g) = (c.heads as int, c.kv_heads as int, c.head_dim as int);
            assert(e * g >= 0 && f * g >= 0) by (nonlinear_arith)
                requires
                    e >= 0,
                    f >= 0,
                    g >= 0,
            ;
            lemma_within(n as int, BATCH as int, c.q_dim());
            lemma_within(n as int, BATCH as int, c.kv_dim());
            lemma_within(n as int, BATCH as int, c.k_dim());
        }
        d.resize(&mut s.x, n * c.hidden);
        d.resize(&mut s.xb, n * c.hidden);
        d.resize(&mut s.xh, n * c.hidden);
        d.resize(&mut s.q, n * larger(dims.q_dim, dims.k_dim));
        d.resize(&mut s.gate, n * dims.q_dim);
        d.resize(&mut s.k, n * larger(dims.kv_dim, dims.k_dim));
        d.resize(&mut s.v, n * larger(dims.kv_dim, dims.v_dim));
        d.resize(&mut s.att, n * larger(dims.q_dim, dims.v_dim));
        d.resize(&mut s.qkv, n * dims.channels);
        d.resize(&mut s.z, n * dims.v_dim);
        d.resize(&mut s.ab, n * (2 * c.v_heads));
        d.resize(&mut s.up, n * c.intermediate);
        d.resize(&mut s.gate_ffn, n * c.intermediate);
    }

    /// The feed-forward network on the residual stream, added back into it.
    fn feed_forward(
        &mut self,
        d: &D,
        layer: &Layer<D>,
        signs: &Signs<D>,
        eps: u32,
        c: &Config,
        net: Ghost<Net>,
        n: Ghost<int>,
    )
        requires
            old(self).roomy(c),
            old(self).flows(c, n@),
            n@ >= 0,
            c.hidden > 0,
            layer.w().shaped(c),
            signs.of(c, net@),
            eps == net@.eps,
        ensures
            final(self).roomy(c),
            final(self).flows(c, n@),
            D::data(&final(self).x) == d.sum(
                D::data(&old(self).x),
                feed(d, net@, layer.w(), D::data(&old(self).x)),
            ),
            *final(self) == (State {
                x: final(self).x,
                xh: final(self).xh,
                up: final(self).up,
                gate_ffn: final(self).gate_ffn,
                xb: final(self).xb,
                ..*old(self)
            }),
    {
        let s = self;
        proof {
            let (w, h, f) = (layer.w(), c.hidden as int, c.intermediate as int);
            lemma_multiple(n@, h);
            lemma_multiple(n@, f);
            lemma_takes(w.gate, n@, h, f);
            lemma_takes(w.up, n@, h, f);
            lemma_takes(w.down, n@, f, h);
        }
        d.norm_rotate(&mut s.xh, &s.x, &layer.mlp_norm, signs.hidden, eps);
        d.matmul(&mut s.up, &layer.gate, &s.xh);
        d.matmul(&mut s.gate_ffn, &layer.up, &s.xh);
        d.silu_mul(&mut s.up, &s.gate_ffn);
        d.hadamard(&mut s.up, signs.ffn, false);
        d.matmul(&mut s.xb, &layer.down, &s.up);
        d.add(&mut s.x, &s.xb);
    }

    /// Full attention over a batch.
    fn attend(
        &mut self,
        d: &D,
        m: &Attention<D>,
        signs: &Signs<D>,
        eps: u32,
        c: &Config,
        dims: &Dims,
        pos: usize,
        n: usize,
        net: Ghost<Net>,
    )
        requires
            old(self).roomy(c),
            old(self).keeps(c, old(self).k_cache@.len() as int, old(self).ssm_state@.len() as int),
            old(self).flows(c, n as int),
            0 < n <= BATCH,
            pos + n <= old(self).max_len,
            c.runs(old(self).max_len as int),
            dims.of(c),
            m.w().shaped(c),
            m.cache < old(self).k_cache@.len(),
            signs.of(c, net@),
            eps == net@.eps,
            D::data(&old(self).rope) == net@.rope,
        ensures
            final(self).roomy(c),
            final(self).flows(c, n as int),
            ({
                let (xb, keys, values) = attend(
                    d,
                    c,
                    net@,
                    m.w(),
                    D::cached(&old(self).k_cache@[m.cache as int]),
                    D::cached(&old(self).v_cache@[m.cache as int]),
                    D::data(&old(self).xh),
                    pos as nat,
                    n as nat,
                );
                &&& D::data(&final(self).xb) == xb
                &&& final(self).k_cache@.len() == old(self).k_cache@.len()
                &&& final(self).v_cache@.len() == old(self).v_cache@.len()
                &&& halves::<D>(final(self).k_cache@) == halves::<D>(old(self).k_cache@).update(
                    m.cache as int,
                    keys,
                )
                &&& halves::<D>(final(self).v_cache@) == halves::<D>(old(self).v_cache@).update(
                    m.cache as int,
                    values,
                )
                &&& keys.len() == values.len() == old(self).max_len * c.kv_dim()
            }),
            *final(self) == (State {
                q: final(self).q,
                gate: final(self).gate,
                k: final(self).k,
                v: final(self).v,
                att: final(self).att,
                xb: final(self).xb,
                k_cache: final(self).k_cache,
                v_cache: final(self).v_cache,
                ..*old(self)
            }),
    {
        let s = self;
        let at: usize = m.cache;
        let ghost kv = c.kv_dim();
        proof {
            let (a, b, h) = (c.heads as int, c.kv_heads as int, c.head_dim as int);
            assert(a * h > 0) by (nonlinear_arith)
                requires
                    a > 0,
                    h > 0,
            ;
            assert(b * h > 0) by (nonlinear_arith)
                requires
                    b > 0,
                    h > 0,
            ;
            lemma_within(n as int, BATCH as int, c.q_dim());
            lemma_within(n as int, BATCH as int, kv);
            lemma_within(pos + n, s.max_len as int, kv);
            lemma_within(pos as int, pos + n, kv);
            lemma_within(pos + n, s.max_len as int, c.rot_dim as int);
            assert(c.rope_dim() == c.rot_dim);
            let (w, hidden) = (m.w(), c.hidden as int);
            lemma_takes(w.q, n as int, hidden, a * h);
            lemma_takes(w.gate, n as int, hidden, a * h);
            lemma_takes(w.k, n as int, hidden, b * h);
            lemma_takes(w.v, n as int, hidden, b * h);
            lemma_takes(w.o, n as int, a * h, hidden);
            lemma_grouped(w.q_norm, n as int, a * h);
            lemma_grouped(w.k_norm, n as int, b * h);
            assert((pos + n) * kv == pos * kv + n * kv) by (nonlinear_arith);
            lemma_multiple(n as int, c.hidden as int);
            lemma_multiple(n as int, c.q_dim());
            lemma_multiple(n as int, kv);
        }
        d.resize(&mut s.q, n * dims.q_dim);
        d.resize(&mut s.gate, n * dims.q_dim);
        d.resize(&mut s.k, n * dims.kv_dim);
        d.resize(&mut s.v, n * dims.kv_dim);
        d.resize(&mut s.att, n * dims.q_dim);
        d.matmul(&mut s.q, &m.q, &s.xh);
        d.matmul(&mut s.gate, &m.gate, &s.xh);
        d.matmul(&mut s.k, &m.k, &s.xh);
        d.matmul(&mut s.v, &m.v, &s.xh);
        d.rmsnorm(&mut s.q, &m.q_norm, eps);
        d.rmsnorm(&mut s.k, &m.k_norm, eps);
        d.rope(&mut s.q, &s.rope, pos, c.heads, c.head_dim, c.rot_dim);
        d.rope(&mut s.k, &s.rope, pos, c.kv_heads, c.head_dim, c.rot_dim);
        d.store(&mut s.k_cache[at], pos * dims.kv_dim, &s.k);
        d.store(&mut s.v_cache[at], pos * dims.kv_dim, &s.v);
        d.attention(
            &mut s.att,
            &s.q,
            &s.k_cache[at],
            &s.v_cache[at],
            pos,
            c.heads,
            c.head_dim,
            c.kv_heads,
        );
        d.sigmoid_mul(&mut s.att, &s.gate);
        d.hadamard(&mut s.att, signs.q, false);
        d.matmul(&mut s.xb, &m.o, &s.att);
        proof {
            let (xb, keys, values) = attend(
                d,
                c,
                net@,
                m.w(),
                D::cached(&old(self).k_cache@[at as int]),
                D::cached(&old(self).v_cache@[at as int]),
                D::data(&old(self).xh),
                pos as nat,
                n as nat,
            );
            assert(D::cached(&s.k_cache@[at as int]) =~= keys);
            assert(D::cached(&s.v_cache@[at as int]) =~= values);
            assert(halves::<D>(s.k_cache@) =~= halves::<D>(old(self).k_cache@).update(
                at as int,
                keys,
            ));
            assert(halves::<D>(s.v_cache@) =~= halves::<D>(old(self).v_cache@).update(
                at as int,
                values,
            ));
        }
    }

    /// The projections that the convolution takes.
    pub open spec fn inputs(&self, slot: int, stash: bool) -> Seq<u32> {
        if stash {
            D::data(&self.stash_qkv@[slot])
        } else {
            D::data(&self.qkv)
        }
    }

    /// The gates that the recurrence takes.
    pub open spec fn gates(&self, slot: int, stash: bool) -> Seq<u32> {
        if stash {
            D::data(&self.stash_ab@[slot])
        } else {
            D::data(&self.ab)
        }
    }

    /// The convolution states that the batch leaves for the next.
    pub open spec fn conv_out(&self) -> Seq<Seq<u32>> {
        if self.parity {
            contents::<D>(self.conv_b@)
        } else {
            contents::<D>(self.conv_a@)
        }
    }

    /// The convolution and the recurrence of a linear layer over `n` tokens,
    /// whose projections and gates are in the stash or in the batch's buffers.
    /// The convolution reads the tokens before the batch from one state buffer
    /// and leaves the ones after it in the other; the recurrence may run on a
    /// scratch copy of its state.
    pub fn recur(
        &mut self,
        d: &D,
        m: &Linear<D>,
        eps: u32,
        c: &Config,
        dims: &Dims,
        n: usize,
        stash: bool,
        scratch: bool,
        net: Ghost<Net>,
    )
        requires
            old(self).roomy(c),
            old(self).conv_a@.len() == old(self).ssm_state@.len(),
            old(self).conv_b@.len() == old(self).ssm_state@.len(),
            old(self).stash_qkv@.len() == old(self).ssm_state@.len(),
            old(self).stash_ab@.len() == old(self).ssm_state@.len(),
            each_holds::<D>(old(self).conv_a@, c.conv_width()),
            each_holds::<D>(old(self).conv_b@, c.conv_width()),
            each_holds::<D>(old(self).ssm_state@, c.ssm_width()),
            m.slot < old(self).ssm_state@.len(),
            0 < n <= BATCH,
            old(self).inputs(m.slot as int, stash).len() == n * c.channels(),
            old(self).gates(m.slot as int, stash).len() == n * (2 * c.v_heads),
            c.countable(0),
            dims.of(c),
            m.w().shaped(c),
            eps == net@.eps,
        ensures
            final(self).roomy(c),
            ({
                let slot = m.slot as int;
                let (att, conv, ssm) = recur(
                    d,
                    c,
                    net@,
                    m.w(),
                    old(self).conv()[slot],
                    D::data(&old(self).ssm_state@[slot]),
                    old(self).inputs(slot, stash),
                    old(self).gates(slot, stash),
                    n as nat,
                );
                &&& D::data(&final(self).att) == att
                &&& att.len() == n * c.v_dim()
                &&& final(self).conv() == old(self).conv()
                &&& final(self).conv_out() == old(self).conv_out().update(slot, conv)
                &&& contents::<D>(final(self).ssm_state@) == if scratch {
                    contents::<D>(old(self).ssm_state@)
                } else {
                    contents::<D>(old(self).ssm_state@).update(slot, ssm)
                }
            }),
            final(self).conv_a@.len() == old(self).conv_a@.len(),
            final(self).conv_b@.len() == old(self).conv_b@.len(),
            final(self).ssm_state@.len() == old(self).ssm_state@.len(),
            each_holds::<D>(final(self).conv_a@, c.conv_width()),
            each_holds::<D>(final(self).conv_b@, c.conv_width()),
            each_holds::<D>(final(self).ssm_state@, c.ssm_width()),
            *final(self) == (State {
                q: final(self).q,
                k: final(self).k,
                v: final(self).v,
                att: final(self).att,
                conv_a: final(self).conv_a,
                conv_b: final(self).conv_b,
                ssm_state: final(self).ssm_state,
                scratch_state: final(self).scratch_state,
                ..*old(self)
            }),
    {
        let s = self;
        let slot: usize = m.slot;
        proof {
            let (a, b, h) = (c.k_heads as int, c.v_heads as int, c.state_dim as int);
            assert(a * h > 0) by (nonlinear_arith)
                requires
                    a > 0,
                    h > 0,
            ;
            assert(b * h > 0) by (nonlinear_arith)
                requires
                    b > 0,
                    h > 0,
            ;
            let (k, v, w) = (c.k_dim(), c.v_dim(), c.channels());
            assert(n * w == n * k + n * k + n * v) by (nonlinear_arith)
                requires
                    w == 2 * k + v,
            ;
            assert(n * w > 0) by (nonlinear_arith)
                requires
                    n > 0,
                    w > 0,
            ;
            lemma_within(n as int, BATCH as int, k);
            lemma_within(n as int, BATCH as int, v);
            lemma_multiple(n as int, w);
            lemma_multiple(n as int, v);
            lemma_multiple(k, n as int);
            lemma_multiple(v, n as int);
            assert(n * k == k * n) by (nonlinear_arith);
            assert(n * v == v * n) by (nonlinear_arith);
            assert(n * (a * h) == (n * a) * h) by (nonlinear_arith);
            lemma_multiple(n * a, h);
        }
        d.resize(&mut s.q, n * dims.k_dim);
        d.resize(&mut s.k, n * dims.k_dim);
        d.resize(&mut s.v, n * dims.v_dim);
        d.resize(&mut s.att, n * dims.v_dim);
        let qkv: &D::Buffer = if stash {
            &s.stash_qkv[slot]
        } else {
            &s.qkv
        };
        if s.parity {
            d.conv(
                &mut s.q,
                &mut s.k,
                &mut s.v,
                &mut s.conv_b[slot],
                qkv,
                &s.conv_a[slot],
                &m.conv,
            );
        } else {
            d.conv(
                &mut s.q,
                &mut s.k,
                &mut s.v,
                &mut s.conv_a[slot],
                qkv,
                &s.conv_b[slot],
                &m.conv,
            );
        }
        d.l2norm(&mut s.q, c.state_dim, eps);
        d.l2norm(&mut s.k, c.state_dim, eps);
        let ab: &D::Buffer = if stash {
            &s.stash_ab[slot]
        } else {
            &s.ab
        };
        if scratch {
            d.copy(&mut s.scratch_state, 0, &s.ssm_state[slot], 0, dims.ssm_width);
            proof {
                assert(D::data(&s.scratch_state) =~= D::data(&s.ssm_state@[slot as int]));
            }
            d.delta_net(
                &mut s.att,
                &s.q,
                &s.k,
                &s.v,
                ab,
                &m.decay,
                &mut s.scratch_state,
                c.k_heads,
                c.v_heads,
                c.state_dim,
            );
        } else {
            d.delta_net(
                &mut s.att,
                &s.q,
                &s.k,
                &s.v,
                ab,
                &m.decay,
                &mut s.ssm_state[slot],
                c.k_heads,
                c.v_heads,
                c.state_dim,
            );
        }
        proof {
            let (att, conv, ssm) = recur(
                d,
                c,
                net@,
                m.w(),
                old(self).conv()[slot as int],
                D::data(&old(self).ssm_state@[slot as int]),
                old(self).inputs(slot as int, stash),
                old(self).gates(slot as int, stash),
                n as nat,
            );
            let at = slot as int;
            assert(D::data(&old(self).conv_a@[at]).len() == c.conv_width());
            assert(D::data(&old(self).conv_b@[at]).len() == c.conv_width());
            assert(D::data(&old(self).ssm_state@[at]).len() == c.ssm_width());
            if s.parity {
                lemma_each_holds::<D>(old(self).conv_b@, s.conv_b@, at, c.conv_width());
            } else {
                lemma_each_holds::<D>(old(self).conv_a@, s.conv_a@, at, c.conv_width());
            }
            if !scratch {
                lemma_each_holds::<D>(old(self).ssm_state@, s.ssm_state@, at, c.ssm_width());
            }
            assert(s.conv() =~= old(self).conv());
            assert(s.conv_out() =~= old(self).conv_out().update(slot as int, conv));
            if scratch {
                assert(s.ssm_state == old(self).ssm_state);
            } else {
                assert(contents::<D>(s.ssm_state@) =~= contents::<D>(
                    old(self).ssm_state@,
                ).update(slot as int, ssm));
            }
        }
    }

    /// Linear attention over a batch. Verifying a draft, the recurrence runs
    /// on a scratch copy of its state, and the projections and gates are kept.
    fn linear(
        &mut self,
        d: &D,
        m: &Linear<D>,
        norm: &D::Buffer,
        signs: &Signs<D>,
        eps: u32,
        c: &Config,
        dims: &Dims,
        n: usize,
        verify: bool,
        net: Ghost<Net>,
    )
        requires
            old(self).roomy(c),
            old(self).keeps(c, old(self).k_cache@.len() as int, old(self).ssm_state@.len() as int),
            old(self).flows(c, n as int),
            0 < n <= BATCH,
            verify ==> n <= VERIFY,
            c.runs(old(self).max_len as int),
            dims.of(c),
            m.w().shaped(c),
            m.slot < old(self).ssm_state@.len(),
            D::data(norm).len() == c.hidden,
            signs.of(c, net@),
            eps == net@.eps,
        ensures
            final(self).roomy(c),
            final(self).keeps(
                c,
                old(self).k_cache@.len() as int,
                old(self).ssm_state@.len() as int,
            ),
            final(self).flows(c, n as int),
            ({
                let slot = m.slot as int;
                let qkv = projected(d, m.w(), D::data(&old(self).xh));
                let ab = gated(d, net@, m.w(), D::data(norm), D::data(&old(self).x));
                let (att, conv, ssm) = recur(
                    d,
                    c,
                    net@,
                    m.w(),
                    old(self).conv()[slot],
                    D::data(&old(self).ssm_state@[slot]),
                    qkv,
                    ab,
                    n as nat,
                );
                &&& D::data(&final(self).xb) == emitted(
                    d,
                    net@,
                    m.w(),
                    att,
                    D::data(&old(self).xh),
                )
                &&& final(self).conv() == old(self).conv()
                &&& final(self).conv_out() == old(self).conv_out().update(slot, conv)
                &&& contents::<D>(final(self).ssm_state@) == if verify {
                    contents::<D>(old(self).ssm_state@)
                } else {
                    contents::<D>(old(self).ssm_state@).update(slot, ssm)
                }
                &&& final(self).stash_qkv@.len() == old(self).stash_qkv@.len()
                &&& final(self).stash_ab@.len() == old(self).stash_ab@.len()
                &&& forall|i: int|
                    0 <= i < old(self).stash_qkv@.len() && (i != slot || !verify)
                        ==> #[trigger] final(self).stash_qkv@[i] == old(self).stash_qkv@[i]
                &&& forall|i: int|
                    0 <= i < old(self).stash_ab@.len() && (i != slot || !verify)
                        ==> #[trigger] final(self).stash_ab@[i] == old(self).stash_ab@[i]
                &&& verify ==> D::data(&final(self).stash_qkv@[slot]).take(n * c.channels()) == qkv
                &&& verify ==> D::data(&final(self).stash_ab@[slot]).take(n * (2 * c.v_heads)) == ab
            }),
            *final(self) == (State {
                q: final(self).q,
                k: final(self).k,
                v: final(self).v,
                att: final(self).att,
                qkv: final(self).qkv,
                z: final(self).z,
                ab: final(self).ab,
                xb: final(self).xb,
                conv_a: final(self).conv_a,
                conv_b: final(self).conv_b,
                ssm_state: final(self).ssm_state,
                scratch_state: final(self).scratch_state,
                stash_qkv: final(self).stash_qkv,
                stash_ab: final(self).stash_ab,
                ..*old(self)
            }),
    {
        let s = self;
        let slot: usize = m.slot;
        let ghost x = D::data(&s.x);
        let ghost (w, u) = (c.channels(), 2 * c.v_heads);
        proof {
            let (a, b, h) = (c.k_heads as int, c.v_heads as int, c.state_dim as int);
            assert(a * h > 0) by (nonlinear_arith)
                requires
                    a > 0,
                    h > 0,
            ;
            assert(b * h > 0) by (nonlinear_arith)
                requires
                    b > 0,
                    h > 0,
            ;
            lemma_multiple(n as int, c.hidden as int);
            lemma_multiple(n as int, c.v_dim());
            let (p, hidden) = (m.w(), c.hidden as int);
            lemma_takes(p.qkv, n as int, hidden, w);
            lemma_takes(p.z, n as int, hidden, b * h);
            lemma_takes(p.ab, n as int, hidden, u);
            lemma_takes(p.out, n as int, b * h, hidden);
            lemma_grouped(p.norm, n as int, b * h);
            lemma_within(n as int, BATCH as int, w);
            lemma_within(n as int, BATCH as int, u);
            lemma_within(n as int, BATCH as int, c.hidden as int);
            if verify {
                lemma_within(n as int, VERIFY as int, w);
                lemma_within(n as int, VERIFY as int, u);
            }
            assert(0 * c.kv_dim() == 0) by (nonlinear_arith);
        }
        d.matmul(&mut s.qkv, &m.qkv, &s.xh);
        d.matmul(&mut s.z, &m.z, &s.xh);
        d.copy(&mut s.xb, 0, &s.x, 0, n * c.hidden);
        proof {
            assert(D::data(&s.xb) =~= x);
        }
        d.rmsnorm(&mut s.xb, norm, eps);
        d.matmul(&mut s.ab, &m.ab, &s.xb);
        if verify {
            assert(D::data(&s.stash_qkv@[slot as int]).len() == VERIFY * w);
            assert(D::data(&s.stash_ab@[slot as int]).len() == VERIFY * u);
            d.copy(&mut s.stash_qkv[slot], 0, &s.qkv, 0, n * dims.channels);
            d.copy(&mut s.stash_ab[slot], 0, &s.ab, 0, n * (2 * c.v_heads));
            proof {
                assert(D::data(&s.stash_qkv@[slot as int]).take(n * w) =~= D::data(&s.qkv));
                assert(D::data(&s.stash_ab@[slot as int]).take(n * u) =~= D::data(&s.ab));
                lemma_each_holds::<D>(
                    old(self).stash_qkv@,
                    s.stash_qkv@,
                    slot as int,
                    VERIFY * w,
                );
                lemma_each_holds::<D>(old(self).stash_ab@, s.stash_ab@, slot as int, VERIFY * u);
            }
        }
        s.recur(d, m, eps, c, dims, n, false, verify, net);
        d.rmsnorm(&mut s.att, &m.norm, eps);
        d.silu_mul(&mut s.z, &s.att);
        d.hadamard(&mut s.z, signs.v, false);
        d.matmul(&mut s.xb, &m.out, &s.z);
    }

    /// Whether, once a batch of `n` tokens has gone through the first `i`
    /// layers, what is kept is `m`, where it started as it is in `before`. Of
    /// the convolution, states for the next batch stand beside those that this
    /// one started from.
    pub open spec fn tracks(
        &self,
        c: &Config,
        before: &State<D>,
        m: Mem,
        i: int,
        n: int,
        verify: bool,
    ) -> bool {
        let done = i - attending(c, i);
        let slots = before.ssm_state@.len();
        let old = before.mem(c);
        &&& self.parity == before.parity
        &&& self.verified == before.verified
        &&& self.max_len == before.max_len
        &&& self.rope == before.rope
        &&& halves::<D>(self.k_cache@) == m.k
        &&& halves::<D>(self.v_cache@) == m.v
        &&& contents::<D>(self.ssm_state@) == m.ssm
        &&& self.conv() == before.conv()
        &&& m.conv.len() == slots
        &&& m.draft_qkv.len() == slots
        &&& m.draft_ab.len() == slots
        &&& forall|j: int|
            0 <= j < slots ==> #[trigger] m.conv[j] == if j < done && !verify {
                self.conv_out()[j]
            } else {
                old.conv[j]
            }
        &&& !verify ==> m.draft_qkv == old.draft_qkv && m.draft_ab == old.draft_ab
        &&& !verify ==> self.stash_qkv@ == before.stash_qkv@ && self.stash_ab@ == before.stash_ab@
        &&& verify ==> forall|j: int|
            0 <= j < slots && j < done ==> D::data(&#[trigger] self.stash_qkv@[j]).take(
                n * c.channels(),
            ) == m.draft_qkv[j]
        &&& verify ==> forall|j: int|
            0 <= j < slots && j < done ==> D::data(&#[trigger] self.stash_ab@[j]).take(
                n * (2 * c.v_heads),
            ) == m.draft_ab[j]
    }

    /// A batch through layer `i`.
    pub fn layer(
        &mut self,
        d: &D,
        layer: &Layer<D>,
        signs: &Signs<D>,
        eps: u32,
        c: &Config,
        dims: &Dims,
        pos: usize,
        n: usize,
        verify: bool,
        net: Ghost<Net>,
        before: Ghost<State<D>>,
        m: Ghost<Mem>,
        i: Ghost<int>,
    )
        requires
            old(self).roomy(c),
            old(self).keeps(c, before@.k_cache@.len() as int, before@.ssm_state@.len() as int),
            old(self).flows(c, n as int),
            old(self).tracks(c, &before@, m@, i@, n as int, verify),
            0 < n <= BATCH,
            verify ==> n <= VERIFY,
            pos + n <= before@.max_len,
            c.runs(before@.max_len as int),
            dims.of(c),
            0 <= i@ < net@.layers.len(),
            layer.w() == net@.layers[i@],
            layer.w().shaped(c),
            (layer.w().mixer is Attention) == c.attends(i@),
            layer.mixer matches Mixer::Attention(a) ==> a.cache == attending(c, i@)
                && 0 <= a.cache < before@.k_cache@.len(),
            layer.mixer matches Mixer::Linear(l) ==> l.slot == i@ - attending(c, i@)
                && 0 <= l.slot < before@.ssm_state@.len(),
            signs.of(c, net@),
            eps == net@.eps,
            D::data(&before@.rope) == net@.rope,
        ensures
            final(self).roomy(c),
            final(self).keeps(c, before@.k_cache@.len() as int, before@.ssm_state@.len() as int),
            final(self).flows(c, n as int),
            ({
                let (after, x) = step(
                    d,
                    c,
                    net@,
                    i@,
                    m@,
                    D::data(&old(self).x),
                    pos as nat,
                    n as nat,
                    verify,
                );
                &&& final(self).tracks(c, &before@, after, i@ + 1, n as int, verify)
                &&& D::data(&final(self).x) == x
            }),
    {
        let s = self;
        proof {
            lemma_multiple(n as int, c.hidden as int);
        }
        let ghost x = D::data(&s.x);
        d.norm_rotate(&mut s.xh, &s.x, &layer.attn_norm, signs.hidden, eps);
        let ghost entry = *s;
        assert(entry.conv() == old(self).conv());
        assert(entry.conv_out() == old(self).conv_out());
        match &layer.mixer {
            Mixer::Attention(a) => {
                s.attend(d, a, signs, eps, c, dims, pos, n, net);
                proof {
                    assert forall|j: int| 0 <= j < s.k_cache@.len() implies (#[trigger] D::cached(
                        &s.k_cache@[j],
                    )).len() == s.max_len * c.kv_dim() by {
                        assert(D::cached(&entry.k_cache@[j]).len() == s.max_len * c.kv_dim());
                        assert(D::cached(&s.k_cache@[j]) == halves::<D>(s.k_cache@)[j]);
                    }
                    assert forall|j: int| 0 <= j < s.v_cache@.len() implies (#[trigger] D::cached(
                        &s.v_cache@[j],
                    )).len() == s.max_len * c.kv_dim() by {
                        assert(D::cached(&entry.v_cache@[j]).len() == s.max_len * c.kv_dim());
                        assert(D::cached(&s.v_cache@[j]) == halves::<D>(s.v_cache@)[j]);
                    }
                    assert(s.conv() == entry.conv());
                    assert(s.conv_out() == entry.conv_out());
                    assert(halves::<D>(entry.k_cache@)[a.cache as int] == D::cached(
                        &entry.k_cache@[a.cache as int],
                    ));
                    assert(halves::<D>(entry.v_cache@)[a.cache as int] == D::cached(
                        &entry.v_cache@[a.cache as int],
                    ));
                }
            },
            Mixer::Linear(l) => {
                s.linear(d, l, &layer.attn_norm, signs, eps, c, dims, n, verify, net);
                proof {
                    let slot = l.slot as int;
                    assert(contents::<D>(entry.ssm_state@)[slot] == D::data(
                        &entry.ssm_state@[slot],
                    ));
                    assert(m@.conv[slot] == entry.conv()[slot]);
                    if !verify {
                        assert(s.stash_qkv@ =~= entry.stash_qkv@);
                        assert(s.stash_ab@ =~= entry.stash_ab@);
                    }
                }
            },
        }
        let ghost mixed = *s;
        let ghost (after, _) = step(d, c, net@, i@, m@, x, pos as nat, n as nat, verify);
        d.add(&mut s.x, &s.xb);
        s.feed_forward(d, layer, signs, eps, c, net, Ghost(n as int));
        proof {
            assert(s.conv() == mixed.conv());
            assert(s.conv_out() == mixed.conv_out());
            assert(s.tracks(c, &before@, after, i@ + 1, n as int, verify));
        }
    }
}

} // verus!
