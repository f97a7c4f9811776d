//! Committing a draft.
use vstd::prelude::*;

use super::config::Config;
use super::layer::{Linear, Mixer};
use super::network::{lemma_attending, placed, Model};
use super::pass::{attending, committed, recur, settled, Mem};
use super::state::{contents, lemma_each_holds, lemma_within, State};
use crate::device::Device;
use crate::model::VERIFY;

verus! {

impl<D: Device> State<D> {
    /// Whether, once the first `count` tokens of a draft have gone through the
    /// states of the first `i` layers, what is kept is `m`, where it was `old`
    /// in the state `before`.
    spec fn commits(&self, c: &Config, before: &State<D>, old: Mem, m: Mem, i: int) -> bool {
        let done = i - attending(c, i);
        let slots = before.ssm_state@.len() as int;
        &&& self.parity == before.parity
        &&& self.verified == before.verified
        &&& self.max_len == before.max_len
        &&& self.rope == before.rope
        &&& self.k_cache == before.k_cache
        &&& self.v_cache == before.v_cache
        &&& m.k == old.k
        &&& m.v == old.v
        &&& contents::<D>(self.ssm_state@) == m.ssm
        &&& self.conv() == before.conv()
        &&& m.conv.len() == slots
        &&& m.draft_qkv == old.draft_qkv
        &&& m.draft_ab == old.draft_ab
        &&& forall|j: int|
            0 <= j < slots ==> #[trigger] m.conv[j] == if j < done {
                self.conv_out()[j]
            } else {
                old.conv[j]
            }
        &&& forall|j: int| done <= j < slots ==> #[trigger] m.ssm[j] == old.ssm[j]
        &&& forall|j: int|
            done <= j < slots ==> #[trigger] self.stash_qkv@[j] == before.stash_qkv@[j]
        &&& forall|j: int|
            done <= j < slots ==> #[trigger] self.stash_ab@[j] == before.stash_ab@[j]
    }
}

impl<'a, D: Device> Model<'a, D> {
    /// Takes the first `count` tokens of the draft through the states of a
    /// linear layer, whose projections and gates were kept.
    fn commit_layer(
        &mut self,
        at: usize,
        slot: usize,
        count: usize,
        before: Ghost<State<D>>,
        m: Ghost<Mem>,
    )
        requires
            old(self).built(),
            old(self).state.wf(&old(self).config, old(self).caches(), old(self).slots()),
            before@.wf(&old(self).config, old(self).caches(), old(self).slots()),
            at < old(self).layers@.len(),
            old(self).layers@[at as int].mixer matches Mixer::Linear(l) && l.slot == slot,
            0 < count <= before@.verified,
            old(self).state.commits(
                &old(self).config,
                &before@,
                before@.mem(&old(self).config),
                m@,
                at as int,
            ),
        ensures
            final(self).same_but_state(old(self)),
            final(self).state.wf(&old(self).config, old(self).caches(), old(self).slots()),
            ({
                let c = &old(self).config;
                let kept = before@.mem(c);
                let w = old(self).layers@[at as int].mixer->Linear_0.w();
                let (_, conv, ssm) = recur(
                    &old(self).device,
                    c,
                    old(self).net(),
                    w,
                    kept.conv[slot as int],
                    kept.ssm[slot as int],
                    kept.draft_qkv[slot as int].take(count * c.channels()),
                    kept.draft_ab[slot as int].take(count * (2 * c.v_heads)),
                    count as nat,
                );
                final(self).state.commits(
                    c,
                    &before@,
                    kept,
                    Mem {
                        conv: m@.conv.update(slot as int, conv),
                        ssm: m@.ssm.update(slot as int, ssm),
                        ..m@
                    },
                    at + 1,
                )
            }),
    {
        let ghost c = self.config;
        let ghost kept = before@.mem(&c);
        let ghost (w, u) = (c.channels(), 2 * c.v_heads);
        let ghost verified = before@.verified as int;
        proof {
            lemma_attending(&c, at as int, c.layers as int);
            lemma_attending(&c, at + 1, c.layers as int);
            assert(placed(self.layers@[at as int], &c, at as int));
            assert(c.k_dim() >= 0) by (nonlinear_arith)
                requires
                    c.k_dim() == c.k_heads * c.state_dim,
            ;
            assert(c.v_dim() >= 0) by (nonlinear_arith)
                requires
                    c.v_dim() == c.v_heads * c.state_dim,
            ;
            lemma_within(count as int, verified, w);
            lemma_within(verified, VERIFY as int, w);
            lemma_within(count as int, verified, u);
            lemma_within(verified, VERIFY as int, u);
            assert(0 * c.kv_dim() == 0) by (nonlinear_arith);
        }
        let ghost entry = self.state;
        let width: usize = self.dims.channels;
        let gates: usize = 2 * self.config.v_heads;
        self.device.resize(&mut self.state.stash_qkv[slot], count * width);
        self.device.resize(&mut self.state.stash_ab[slot], count * gates);
        proof {
            assert(D::data(&entry.stash_qkv@[slot as int]).len() == VERIFY * w);
            assert(D::data(&entry.stash_ab@[slot as int]).len() == VERIFY * u);
            assert(self.state.inputs(slot as int, true) =~= kept.draft_qkv[slot as int].take(
                count * w,
            ));
            assert(self.state.gates(slot as int, true) =~= kept.draft_ab[slot as int].take(
                count * u,
            ));
            assert(self.state.conv() == entry.conv());
            assert(self.state.conv_out() == entry.conv_out());
            assert(contents::<D>(entry.ssm_state@)[slot as int] == D::data(
                &entry.ssm_state@[slot as int],
            ));
            assert(entry.conv()[slot as int] == kept.conv[slot as int]);
        }
        let ghost net = self.net();
        match &self.layers[at].mixer {
            Mixer::Linear(l) => {
                self.state.recur(
                    &self.device,
                    l,
                    self.eps,
                    &self.config,
                    &self.dims,
                    count,
                    true,
                    false,
                    Ghost(net),
                );
            },
            Mixer::Attention(_) => {
                assert(false);
            },
        }
        let ghost ran = self.state;
        self.device.resize(&mut self.state.stash_qkv[slot], VERIFY * width);
        self.device.resize(&mut self.state.stash_ab[slot], VERIFY * gates);
        proof {
            let now = self.state;
            lemma_each_holds::<D>(entry.stash_qkv@, now.stash_qkv@, slot as int, VERIFY * w);
            lemma_each_holds::<D>(entry.stash_ab@, now.stash_ab@, slot as int, VERIFY * u);
            assert(now.conv() == ran.conv());
            assert(now.conv_out() == ran.conv_out());
        }
    }

    /// Has the first `count` tokens of the draft stand: the attention layers'
    /// caches hold every token of the draft by position and the ones past
    /// `count` are never read; the linear layers' states, which the draft left
    /// as they were, take the first `count` tokens' projections now.
    pub fn stand(&mut self, count: usize)
        requires
            old(self).wf(),
            count <= old(self).drafted().len(),
        ensures
            final(self).wf(),
            final(self).config == old(self).config,
            final(self).device == old(self).device,
            final(self).net() == old(self).net(),
            final(self).room() == old(self).room(),
            final(self).tokens() == old(self).tokens() + old(self).drafted().take(count as int),
            final(self).drafted() == Seq::<u32>::empty(),
            final(self).mem() == settled(
                if count == 0 {
                    old(self).mem()
                } else {
                    committed(
                        &old(self).device,
                        &old(self).config,
                        old(self).net(),
                        old(self).config.layers as int,
                        old(self).mem(),
                        count as nat,
                    )
                },
            ),
    {
        if count == 0 {
            self.settle();
            proof {
                let (fed, draft) = (old(self).tokens(), old(self).drafted());
                assert(fed + draft.take(0) =~= fed);
            }
            return;
        }
        let ghost (d, c, net) = (self.device, self.config, self.net());
        let ghost before = self.state;
        let ghost kept = self.mem();
        let ghost mut m = kept;
        let mut i: usize = 0;
        let mut slot: usize = 0;
        proof {
            lemma_attending(&c, 0, c.layers as int);
            assert(contents::<D>(before.ssm_state@) == kept.ssm);
        }
        while i < self.layers.len()
            invariant
                i <= self.layers@.len() == c.layers,
                slot == i - attending(&c, i as int),
                slot <= i,
                0 < count <= before.verified,
                self.same_but_state(old(self)),
                self.built(),
                self.state.wf(&c, self.caches(), self.slots()),
                before.wf(&c, self.caches(), self.slots()),
                d == self.device,
                c == self.config,
                before.mem(&c) == kept,
                self.state.commits(&c, &before, kept, m, i as int),
                net == self.net(),
                m == committed(&d, &c, net, i as int, kept, count as nat),
            decreases self.layers@.len() - i,
        {
            proof {
                lemma_attending(&c, i as int, c.layers as int);
                lemma_attending(&c, i + 1, c.layers as int);
                assert(placed(self.layers@[i as int], &c, i as int));
                assert(net.layers[i as int] == self.layers@[i as int].w());
            }
            let linear = match &self.layers[i].mixer {
                Mixer::Linear(_) => true,
                Mixer::Attention(_) => false,
            };
            if linear {
                self.commit_layer(i, slot, count, Ghost(before), Ghost(m));
                slot = slot + 1;
            }
            proof {
                m = committed(&d, &c, net, i + 1, kept, count as nat);
            }
            i = i + 1;
        }
        let ghost ran = self.state;
        self.state.parity = !self.state.parity;
        self.state.verified = 0;
        self.fed = Ghost(self.fed@ + self.draft@.take(count as int));
        self.draft = Ghost(Seq::empty());
        proof {
            let now = self.mem();
            let want = settled(m);
            assert(self.state.conv() == ran.conv_out());
            assert(now.conv =~= want.conv);
            assert(0 * c.channels() == 0) by (nonlinear_arith);
            assert(0 * (2 * c.v_heads) == 0) by (nonlinear_arith);
            assert forall|i: int| 0 <= i < now.draft_qkv.len() implies #[trigger] now.draft_qkv[i]
                == want.draft_qkv[i] by {
                assert(now.draft_qkv[i] =~= Seq::empty());
            }
            assert forall|i: int| 0 <= i < now.draft_ab.len() implies #[trigger] now.draft_ab[i]
                == want.draft_ab[i] by {
                assert(now.draft_ab[i] =~= Seq::empty());
            }
            assert(now.draft_qkv =~= want.draft_qkv);
            assert(now.draft_ab =~= want.draft_ab);
            assert(now.k =~= want.k);
            assert(now.v =~= want.v);
        }
    }
}

} // verus!
