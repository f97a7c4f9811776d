//! Tokens through the model.
use vstd::prelude::*;

use super::config::Config;
use super::dims::{Dims, BATCH};
use super::fitting::lemma_takes;
use super::network::{lemma_attending, placed, Model};
use super::pass::{all_logits, batch, embedded, forwarded, last_logits, looked_up, settled, steps};
use super::rotation::{find_signs, listed, signs_for};
use super::run::{lemma_multiple, Signs};
use super::state::{lemma_within, State};
use crate::bytes::push_all;
use crate::device::Device;
use crate::model::VERIFY;

verus! {

impl<'a, D: Device> Model<'a, D> {
    /// The rows of the embedding table for tokens.
    fn look_up(&self, tokens: &[u32]) -> (x: Vec<u32>)
        requires
            self.built(),
            tokens@.len() <= BATCH,
            forall|i: int| 0 <= i < tokens@.len() ==> #[trigger] tokens@[i] < self.config.vocab,
        ensures
            x@ == looked_up(&self.device, &self.config, self.net(), tokens@),
            x@.len() == tokens@.len() * self.config.hidden,
    {
        let mut x: Vec<u32> = Vec::new();
        let mut i: usize = 0;
        let ghost (d, c, net) = (&self.device, &self.config, self.net());
        proof {
            assert(tokens@.take(0) =~= Seq::empty());
            assert(0 * self.config.hidden == 0) by (nonlinear_arith);
        }
        while i < tokens.len()
            invariant
                i <= tokens@.len(),
                self.built(),
                d == &self.device,
                c == &self.config,
                net == self.net(),
                forall|i: int| 0 <= i < tokens@.len() ==> #[trigger] tokens@[i] < self.config.vocab,
                x@ == looked_up(d, c, net, tokens@.take(i as int)),
                x@.len() == i * self.config.hidden,
            decreases tokens@.len() - i,
        {
            let token: usize = tokens[i] as usize;
            proof {
                let (t, row, n) = (token as int, self.row as int, self.config.vocab as int);
                assert(t * row + row <= n * row && 0 <= t * row) by (nonlinear_arith)
                    requires
                        0 <= t,
                        t + 1 <= n,
                        row >= 0,
                ;
                assert(i * c.hidden + c.hidden == (i + 1) * c.hidden) by (nonlinear_arith);
                assert(tokens@.take(i + 1).drop_last() =~= tokens@.take(i as int));
            }
            let len: usize = self.table.len();
            let at: usize = token * self.row;
            let bytes = vstd::slice::slice_subrange(self.table, at, at + self.row);
            let row = self.device.dequantize_row(bytes, self.config.hidden);
            push_all(&mut x, row.as_slice());
            i = i + 1;
        }
        assert(tokens@.take(tokens@.len() as int) =~= tokens@);
        x
    }

    /// The signs of the rotation, by what they apply to.
    fn all_signs<'s>(signs: &'s Vec<(usize, D::Buffer)>, c: &Config, dims: &Dims) -> (r: Signs<
        's,
        D,
    >)
        requires
            dims.of(c),
            signs_for(listed::<D>(signs@), c.hidden as int) is Some,
            signs_for(listed::<D>(signs@), c.q_dim()) is Some,
            signs_for(listed::<D>(signs@), c.v_dim()) is Some,
            signs_for(listed::<D>(signs@), c.intermediate as int) is Some,
        ensures
            Some(D::data(r.hidden)) == signs_for(listed::<D>(signs@), c.hidden as int),
            Some(D::data(r.q)) == signs_for(listed::<D>(signs@), c.q_dim()),
            Some(D::data(r.v)) == signs_for(listed::<D>(signs@), c.v_dim()),
            Some(D::data(r.ffn)) == signs_for(listed::<D>(signs@), c.intermediate as int),
    {
        Signs {
            hidden: find_signs::<D>(signs, c.hidden).unwrap(),
            q: find_signs::<D>(signs, dims.q_dim).unwrap(),
            v: find_signs::<D>(signs, dims.v_dim).unwrap(),
            ffn: find_signs::<D>(signs, c.intermediate).unwrap(),
        }
    }

    /// Whether all but the state is as it was.
    pub open spec fn same_but_state(&self, before: &Self) -> bool {
        *self == (Model { state: self.state, ..*before })
    }

    /// Runs a batch through the layers, leaving the residual stream.
    fn run_layers(&mut self, tokens: &[u32], pos: usize, verify: bool)
        requires
            old(self).built(),
            old(self).state.wf(&old(self).config, old(self).caches(), old(self).slots()),
            0 < tokens@.len() <= BATCH,
            verify ==> tokens@.len() <= VERIFY,
            pos + tokens@.len() <= old(self).state.max_len,
            forall|i: int| 0 <= i < tokens@.len() ==> #[trigger] tokens@[i]
                < old(self).config.vocab,
        ensures
            final(self).same_but_state(old(self)),
            final(self).state.wf(&old(self).config, old(self).caches(), old(self).slots()),
            final(self).state.flows(&old(self).config, tokens@.len() as int),
            final(self).state.max_len == old(self).state.max_len,
            final(self).state.rope == old(self).state.rope,
            final(self).state.verified == if verify {
                tokens@.len() as int
            } else {
                old(self).state.verified as int
            },
            ({
                let (m, x) = batch(
                    &old(self).device,
                    &old(self).config,
                    old(self).net(),
                    old(self).mem(),
                    tokens@,
                    pos as nat,
                    verify,
                );
                &&& D::data(&final(self).state.x) == x
                &&& final(self).mem() == m
            }),
    {
        let n: usize = tokens.len();
        let ghost (d, c, net) = (old(self).device, old(self).config, old(self).net());
        proof {
            assert(0 * c.kv_dim() == 0) by (nonlinear_arith);
            lemma_multiple(n as int, c.hidden as int);
        }
        self.state.batch(&self.device, &self.config, &self.dims, n);
        // Embeddings are looked up on the CPU and rotated back on the device.
        let x = self.look_up(tokens);
        self.device.write(&mut self.state.x, x.as_slice());
        let signs = find_signs::<D>(&self.signs, self.config.hidden).unwrap();
        self.device.hadamard(&mut self.state.x, signs, true);
        let ghost before = self.state;
        let ghost mut m = old(self).mem();
        proof {
            assert(before.conv() == old(self).state.conv());
            let start = before.mem(&c);
            assert(start.draft_qkv =~= m.draft_qkv);
            assert(start.draft_ab =~= m.draft_ab);
            assert(start == m);
            assert(D::data(&self.state.x) == embedded(&d, &c, net, tokens@));
        }
        let mut i: usize = 0;
        while i < self.layers.len()
            invariant
                i <= self.layers@.len() == c.layers,
                n == tokens@.len(),
                0 < n <= BATCH,
                verify ==> n <= VERIFY,
                self.same_but_state(old(self)),
                self.built(),
                d == self.device,
                c == self.config,
                net == self.net(),
                net == old(self).net(),
                self.state.roomy(&c),
                self.state.keeps(&c, self.caches(), self.slots()),
                self.state.flows(&c, n as int),
                before.k_cache@.len() == self.caches(),
                before.ssm_state@.len() == self.slots(),
                before.max_len == old(self).state.max_len,
                before.rope == old(self).state.rope,
                before.verified == old(self).state.verified,
                D::data(&before.rope) == net.rope,
                pos + n <= before.max_len,
                c.runs(before.max_len as int),
                self.state.tracks(&c, &before, m, i as int, n as int, verify),
                (m, D::data(&self.state.x)) == steps(
                    &d,
                    &c,
                    net,
                    i as int,
                    old(self).mem(),
                    embedded(&d, &c, net, tokens@),
                    pos as nat,
                    n as nat,
                    verify,
                ),
            decreases self.layers@.len() - i,
        {
            proof {
                lemma_attending(&c, i as int, c.layers as int);
                lemma_attending(&c, i + 1, c.layers as int);
                assert(placed(self.layers@[i as int], &c, i as int));
                assert(net.layers[i as int] == self.layers@[i as int].w());
            }
            let ghost state = self.state;
            let signs = Self::all_signs(&self.signs, &self.config, &self.dims);
            self.state.layer(
                &self.device,
                &self.layers[i],
                &signs,
                self.eps,
                &self.config,
                &self.dims,
                pos,
                n,
                verify,
                Ghost(net),
                Ghost(before),
                Ghost(m),
                Ghost(i as int),
            );
            proof {
                let (after, x) = super::pass::step(
                    &d,
                    &c,
                    net,
                    i as int,
                    m,
                    D::data(&state.x),
                    pos as nat,
                    n as nat,
                    verify,
                );
                m = after;
            }
            i = i + 1;
        }
        let ghost ran = self.state;
        if verify {
            self.state.verified = n;
            proof {
                let kept = self.state.mem(&c);
                assert(self.state.conv() == before.conv());
                assert(kept.conv =~= m.conv);
                assert(kept.draft_qkv =~= m.draft_qkv);
                assert(kept.draft_ab =~= m.draft_ab);
                assert(kept == m);
            }
        } else {
            self.state.parity = !self.state.parity;
            proof {
                let kept = self.state.mem(&c);
                assert(self.state.conv() == ran.conv_out());
                assert(kept.conv =~= m.conv);
                assert(kept.draft_qkv =~= m.draft_qkv);
                assert(kept.draft_ab =~= m.draft_ab);
                assert(kept == m);
            }
        }
    }

    /// The logits after the last token of a batch that has run.
    fn last(&mut self, n: usize) -> (logits: Vec<u32>)
        requires
            old(self).built(),
            old(self).state.wf(&old(self).config, old(self).caches(), old(self).slots()),
            old(self).state.flows(&old(self).config, n as int),
            0 < n <= BATCH,
        ensures
            final(self).same_but_state(old(self)),
            final(self).state.wf(&old(self).config, old(self).caches(), old(self).slots()),
            final(self).net() == old(self).net(),
            final(self).mem() == old(self).mem(),
            final(self).state.max_len == old(self).state.max_len,
            final(self).state.verified == old(self).state.verified,
            logits@ == last_logits(
                &old(self).device,
                &old(self).config,
                old(self).net(),
                D::data(&old(self).state.x),
            ),
            logits@.len() == old(self).config.vocab,
    {
        let h: usize = self.config.hidden;
        let ghost start = self.state;
        let ghost x = D::data(&self.state.x);
        proof {
            let a = h as int;
            assert((n - 1) * a + a == n * a && 0 <= (n - 1) * a) by (nonlinear_arith)
                requires
                    n >= 1,
                    a >= 0,
            ;
            lemma_within(n as int, BATCH as int, a);
            lemma_multiple(1, a);
            lemma_takes(D::matrix(&self.lm_head), 1, a, self.config.vocab as int);
        }
        self.device.resize(&mut self.state.xb, h);
        self.device.resize(&mut self.state.xh, h);
        self.device.copy(&mut self.state.xb, 0, &self.state.x, (n - 1) * h, h);
        assert(D::data(&self.state.xb) =~= x.subrange(x.len() - h, x.len() as int));
        let signs = find_signs::<D>(&self.signs, h).unwrap();
        self.device.norm_rotate(&mut self.state.xh, &self.state.xb, &self.norm, signs, self.eps);
        self.device.matmul(&mut self.state.logits, &self.lm_head, &self.state.xh);
        assert(self.state.mem(&self.config) == start.mem(&self.config)) by {
            assert(self.state.mem(&self.config).draft_qkv =~= start.mem(&self.config).draft_qkv);
            assert(self.state.mem(&self.config).draft_ab =~= start.mem(&self.config).draft_ab);
        }
        self.device.read(&self.state.logits)
    }

    /// The logits after every token of a batch that has run.
    fn every(&mut self, n: usize) -> (logits: Vec<u32>)
        requires
            old(self).built(),
            old(self).state.wf(&old(self).config, old(self).caches(), old(self).slots()),
            old(self).state.flows(&old(self).config, n as int),
            0 < n <= VERIFY,
        ensures
            final(self).same_but_state(old(self)),
            final(self).state.wf(&old(self).config, old(self).caches(), old(self).slots()),
            final(self).net() == old(self).net(),
            final(self).mem() == old(self).mem(),
            final(self).state.max_len == old(self).state.max_len,
            final(self).state.verified == old(self).state.verified,
            logits@ == all_logits(
                &old(self).device,
                old(self).net(),
                D::data(&old(self).state.x),
            ),
            logits@.len() == n * old(self).config.vocab,
    {
        let ghost start = self.state;
        proof {
            let (h, v) = (self.config.hidden as int, self.config.vocab as int);
            lemma_multiple(n as int, h);
            lemma_within(n as int, VERIFY as int, v);
            lemma_takes(D::matrix(&self.lm_head), n as int, h, v);
        }
        let signs = find_signs::<D>(&self.signs, self.config.hidden).unwrap();
        self.device.norm_rotate(&mut self.state.xh, &self.state.x, &self.norm, signs, self.eps);
        self.device.resize(&mut self.state.verify_logits, n * self.config.vocab);
        self.device.matmul(&mut self.state.verify_logits, &self.lm_head, &self.state.xh);
        assert(self.state.mem(&self.config) == start.mem(&self.config)) by {
            assert(self.state.mem(&self.config).draft_qkv =~= start.mem(&self.config).draft_qkv);
            assert(self.state.mem(&self.config).draft_ab =~= start.mem(&self.config).draft_ab);
        }
        self.device.read(&self.state.verify_logits)
    }

    /// Forgets the draft.
    pub fn settle(&mut self)
        requires
            old(self).wf(),
        ensures
            final(self).wf(),
            final(self).config == old(self).config,
            final(self).device == old(self).device,
            final(self).net() == old(self).net(),
            final(self).room() == old(self).room(),
            final(self).tokens() == old(self).tokens(),
            final(self).drafted() == Seq::<u32>::empty(),
            final(self).mem() == settled(old(self).mem()),
            *final(self) == (Model {
                state: State { verified: 0, ..old(self).state },
                draft: Ghost(Seq::empty()),
                ..*old(self)
            }),
    {
        let ghost (c, m) = (self.config, settled(old(self).mem()));
        self.state.verified = 0;
        self.draft = Ghost(Seq::empty());
        proof {
            let now = self.mem();
            assert(0 * c.channels() == 0) by (nonlinear_arith);
            assert(0 * (2 * c.v_heads) == 0) by (nonlinear_arith);
            assert forall|i: int| 0 <= i < now.draft_qkv.len() implies #[trigger] now.draft_qkv[i]
                == m.draft_qkv[i] by {
                assert(now.draft_qkv[i] =~= Seq::empty());
            }
            assert forall|i: int| 0 <= i < now.draft_ab.len() implies #[trigger] now.draft_ab[i]
                == m.draft_ab[i] by {
                assert(now.draft_ab[i] =~= Seq::empty());
            }
            assert(now.draft_qkv =~= m.draft_qkv);
            assert(now.draft_ab =~= m.draft_ab);
            assert(now.conv =~= m.conv);
        }
    }

    /// Runs tokens through the model, in batches of up to [`BATCH`], and gives
    /// the logits after the last of them.
    pub fn run(&mut self, tokens: &[u32], pos: usize) -> (logits: Vec<u32>)
        requires
            old(self).wf(),
            pos == old(self).tokens().len(),
            0 < tokens@.len(),
            pos + tokens@.len() <= old(self).room(),
            forall|i: int| 0 <= i < tokens@.len() ==> #[trigger] tokens@[i]
                < old(self).config.vocab,
        ensures
            final(self).wf(),
            final(self).config == old(self).config,
            final(self).device == old(self).device,
            final(self).net() == old(self).net(),
            final(self).room() == old(self).room(),
            final(self).tokens() == old(self).tokens() + tokens@,
            final(self).drafted() == Seq::<u32>::empty(),
            (final(self).mem(), logits@) == forwarded(
                &old(self).device,
                &old(self).config,
                old(self).net(),
                settled(old(self).mem()),
                tokens@,
                pos as nat,
            ),
            logits@.len() == old(self).config.vocab,
    {
        self.settle();
        let n: usize = tokens.len();
        let ghost (d, c, net) = (old(self).device, old(self).config, old(self).net());
        let ghost m = settled(old(self).mem());
        let ghost fixed = *self;
        let mut logits: Vec<u32> = Vec::new();
        let mut i: usize = 0;
        while i < n
            invariant
                n == tokens@.len(),
                i <= n,
                i < n ==> i % BATCH == 0,
                pos + n <= fixed.room(),
                self.same_but_state(&fixed),
                fixed.wf(),
                fixed.state.verified == 0,
                self.built(),
                self.state.wf(&c, self.caches(), self.slots()),
                self.state.verified == 0,
                self.room() == fixed.room(),
                d == self.device,
                c == self.config,
                net == self.net(),
                forall|i: int| 0 <= i < n ==> #[trigger] tokens@[i] < c.vocab,
                i == 0 ==> self.mem() == m,
                i > 0 ==> (self.mem(), logits@) == forwarded(
                    &d,
                    &c,
                    net,
                    m,
                    tokens@.take(i as int),
                    pos as nat,
                ),
                i > 0 ==> logits@.len() == c.vocab,
            decreases n - i,
        {
            let k: usize = if n - i > BATCH {
                BATCH
            } else {
                n - i
            };
            let part = vstd::slice::slice_subrange(tokens, i, i + k);
            proof {
                let all = tokens@.take(i + k);
                assert(all.take(i as int) =~= tokens@.take(i as int));
                assert(all.skip(i as int) =~= part@);
                if i == 0 {
                    assert(all =~= part@);
                } else {
                    assert((all.len() - 1) / BATCH as int * BATCH == i);
                }
            }
            self.run_layers(part, pos + i, false);
            logits = self.last(k);
            i = i + k;
        }
        assert(tokens@.take(n as int) =~= tokens@);
        self.fed = Ghost(self.fed@ + tokens@);
        logits
    }

    /// Runs a draft through the model, and gives the logits after each of its
    /// tokens, leaving the sequence as it is.
    pub fn try_draft(&mut self, tokens: &[u32], pos: usize) -> (logits: Vec<u32>)
        requires
            old(self).wf(),
            pos == old(self).tokens().len(),
            0 < tokens@.len() <= VERIFY,
            pos + tokens@.len() <= old(self).room(),
            forall|i: int| 0 <= i < tokens@.len() ==> #[trigger] tokens@[i]
                < old(self).config.vocab,
        ensures
            final(self).wf(),
            final(self).config == old(self).config,
            final(self).device == old(self).device,
            final(self).net() == old(self).net(),
            final(self).room() == old(self).room(),
            final(self).tokens() == old(self).tokens(),
            final(self).drafted() == tokens@,
            ({
                let (m, x) = batch(
                    &old(self).device,
                    &old(self).config,
                    old(self).net(),
                    settled(old(self).mem()),
                    tokens@,
                    pos as nat,
                    true,
                );
                &&& final(self).mem() == m
                &&& logits@ == all_logits(&old(self).device, old(self).net(), x)
            }),
            logits@.len() == tokens@.len() * old(self).config.vocab,
    {
        self.settle();
        self.run_layers(tokens, pos, true);
        let logits = self.every(tokens.len());
        self.draft = Ghost(tokens@);
        logits
    }
}

} // verus!
