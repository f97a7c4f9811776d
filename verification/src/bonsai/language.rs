//! The model as one that predicts the next token.
use vstd::prelude::*;

use super::alike::{lemma_draft_alike, lemma_model_extents, lemma_spoken_alike};
use super::config::Config;
use super::network::Model;
use super::pass::{all_logits, batch, committed, embedded, forwarded, settled, spoken, Mem, Net};
use super::saved::{field, image, taken_up, unsaved};
use super::state::{contents, each_holds, lemma_each_holds};
use crate::device::{zeros, Device};
use crate::model::{amount, LanguageModel};

verus! {

/// The memory of a sequence that is forgotten: the states of the linear layers
/// are zeros again, and keys and values are written before they are read.
pub open spec fn forgotten(m: Mem, conv: nat, ssm: nat) -> Mem {
    Mem {
        conv: Seq::new(m.conv.len(), |i: int| zeros(conv)),
        ssm: Seq::new(m.ssm.len(), |i: int| zeros(ssm)),
        ..settled(m)
    }
}

/// The memory once the first `count` tokens of the draft stand, if any do.
pub open spec fn standing<D: Device>(d: &D, c: &Config, net: Net, m: Mem, count: nat) -> Mem {
    if count == 0 {
        m
    } else {
        committed(d, c, net, c.layers as int, m, count)
    }
}

/// A draft that is dropped leaves what a model says as it was.
proof fn lemma_spoken_settled<D: Device>(
    d: &D,
    c: &Config,
    net: Net,
    m: Mem,
    runs: Seq<Seq<u32>>,
    pos: nat,
)
    ensures
        spoken(d, c, net, settled(m), runs, pos) == spoken(d, c, net, m, runs, pos),
{
    assert(settled(settled(m)).draft_qkv =~= settled(m).draft_qkv);
    assert(settled(settled(m)).draft_ab =~= settled(m).draft_ab);
}

/// Fills buffers with zeros.
fn clear<D: Device>(d: &D, bufs: &mut Vec<D::Buffer>, len: usize)
    requires
        each_holds::<D>(old(bufs)@, len as int),
    ensures
        final(bufs)@.len() == old(bufs)@.len(),
        each_holds::<D>(final(bufs)@, len as int),
        contents::<D>(final(bufs)@) == Seq::new(old(bufs)@.len(), |i: int| zeros(len as nat)),
{
    let mut blank: Vec<u32> = Vec::new();
    let mut k: usize = 0;
    while k < len
        invariant
            k <= len,
            blank@ == zeros(k as nat),
        decreases len - k,
    {
        blank.push(0);
        k = k + 1;
        assert(blank@ =~= zeros(k as nat));
    }
    let n: usize = bufs.len();
    let mut i: usize = 0;
    while i < n
        invariant
            i <= n == bufs@.len(),
            n == old(bufs)@.len(),
            blank@ == zeros(len as nat),
            each_holds::<D>(bufs@, len as int),
            forall|j: int| 0 <= j < i ==> #[trigger] D::data(&bufs@[j]) == zeros(len as nat),
        decreases n - i,
    {
        let ghost before = bufs@;
        assert(D::data(&before[i as int]).len() == len);
        d.write(&mut bufs[i], blank.as_slice());
        proof {
            lemma_each_holds::<D>(before, bufs@, i as int, len as int);
            assert forall|j: int| 0 <= j < i + 1 implies #[trigger] D::data(&bufs@[j]) == zeros(
                len as nat,
            ) by {
                if j < i {
                    assert(bufs@[j] == before[j]);
                    assert(D::data(&before[j]) == zeros(len as nat));
                }
            }
        }
        i = i + 1;
    }
    assert(contents::<D>(bufs@) =~= Seq::new(n as nat, |i: int| zeros(len as nat)));
}

impl<'a, D: Device> Model<'a, D> {
    /// Whether all but the state of the sequence is as it was.
    pub open spec fn same_model(&self, before: &Self) -> bool {
        &&& self.config == before.config
        &&& self.device == before.device
        &&& self.net() == before.net()
    }
}

impl<'a, D: Device> LanguageModel for Model<'a, D> {
    open spec fn ready(&self) -> bool {
        self.wf()
    }

    open spec fn fed(&self) -> Seq<u32> {
        self.tokens()
    }

    open spec fn draft(&self) -> Seq<u32> {
        self.drafted()
    }

    open spec fn limit(&self) -> nat {
        self.room()
    }

    open spec fn size(&self) -> nat {
        self.config.vocab as nat
    }

    open spec fn saved(&self, len: nat) -> Option<Seq<u8>> {
        Some(image(self.extents(), self.mem(), len))
    }

    open spec fn opened(&self, state: Seq<u8>) -> Result<nat, Seq<char>> {
        match unsaved(state, self.extents(), self.room()) {
            Some(e) => Err(e),
            None => Ok(field(state, 0)),
        }
    }

    open spec fn says(&self, runs: Seq<Seq<u32>>) -> Seq<u32> {
        spoken(
            &self.device,
            &self.config,
            self.net(),
            self.mem(),
            runs,
            self.tokens().len(),
        )
    }

    open spec fn says_from(&self, state: Seq<u8>, runs: Seq<Seq<u32>>) -> Seq<u32> {
        spoken(
            &self.device,
            &self.config,
            self.net(),
            taken_up(state, self.extents(), self.mem()),
            runs,
            field(state, 0),
        )
    }

    open spec fn says_anew(&self, runs: Seq<Seq<u32>>) -> Seq<u32> {
        spoken(
            &self.device,
            &self.config,
            self.net(),
            forgotten(
                self.mem(),
                self.config.conv_width() as nat,
                self.config.ssm_width() as nat,
            ),
            runs,
            0,
        )
    }

    open spec fn says_standing(&self, count: nat, runs: Seq<Seq<u32>>) -> Seq<u32> {
        spoken(
            &self.device,
            &self.config,
            self.net(),
            standing(&self.device, &self.config, self.net(), self.mem(), count),
            runs,
            self.tokens().len() + count,
        )
    }

    open spec fn tried(&self, tokens: Seq<u32>) -> Option<Seq<u32>> {
        let (_, x) = batch(
            &self.device,
            &self.config,
            self.net(),
            settled(self.mem()),
            tokens,
            self.tokens().len(),
            true,
        );
        Some(all_logits(&self.device, self.net(), x))
    }

    fn save(&self, len: usize) -> (r: Option<Vec<u8>>)
        ensures
            r matches Some(out) && out@ == image(self.extents(), self.mem(), len as nat),
    {
        Some(self.dump(len))
    }

    fn restore(&mut self, state: &[u8]) -> (r: Result<usize, String>)
        ensures
            final(self).same_model(old(self)),
            match r {
                Ok(len) => {
                    &&& unsaved(state@, old(self).extents(), old(self).room()) is None
                    &&& len == field(state@, 0)
                    &&& final(self).mem() == taken_up(state@, old(self).extents(), old(self).mem())
                },
                Err(e) => {
                    &&& unsaved(state@, old(self).extents(), old(self).room()) == Some(e@)
                    &&& *final(self) == *old(self)
                },
            },
    {
        self.take_up(state)
    }

    fn verify(&mut self, tokens: &[u32], pos: usize) -> (r: Option<Vec<u32>>)
        ensures
            final(self).same_model(old(self)),
            ({
                let (m, x) = batch(
                    &old(self).device,
                    &old(self).config,
                    old(self).net(),
                    settled(old(self).mem()),
                    tokens@,
                    pos as nat,
                    true,
                );
                &&& final(self).mem() == m
                &&& r matches Some(logits) && logits@ == all_logits(
                    &old(self).device,
                    old(self).net(),
                    x,
                )
            }),
    {
        let logits = self.try_draft(tokens, pos);
        proof {
            let (d, c, net) = (&old(self).device, &old(self).config, old(self).net());
            let (m, room) = (old(self).mem(), old(self).room() as int);
            lemma_model_extents(old(self), pos as nat);
            lemma_draft_alike(
                d,
                c,
                net,
                net.layers.len() as int,
                settled(m),
                embedded(d, c, net, tokens@),
                pos as nat,
                tokens@.len(),
                room,
            );
            assert forall|more: Seq<Seq<u32>>|
                more.len() > 0 && pos + amount(more) <= old(self).limit() implies #[trigger] self.says(
                more,
            ) == old(self).says(more) by {
                lemma_spoken_alike(d, c, net, m, self.mem(), more, pos as nat, room);
            }
        }
        Some(logits)
    }

    fn commit(&mut self, count: usize)
        ensures
            final(self).same_model(old(self)),
            final(self).mem() == settled(
                standing(
                    &old(self).device,
                    &old(self).config,
                    old(self).net(),
                    old(self).mem(),
                    count as nat,
                ),
            ),
    {
        let ghost d = self.device;
        let ghost c = self.config;
        let ghost net = self.net();
        let ghost m = standing(&d, &c, net, self.mem(), count as nat);
        let ghost pos = self.tokens().len() + count as nat;
        self.stand(count);
        proof {
            assert forall|more: Seq<Seq<u32>>| more.len() > 0 implies #[trigger] self.says(more)
                == spoken(&d, &c, net, m, more, pos) by {
                lemma_spoken_settled(&d, &c, net, m, more, pos);
            }
        }
    }

    fn forward(&mut self, tokens: &[u32], pos: usize) -> (logits: Vec<u32>)
        ensures
            final(self).same_model(old(self)),
            (final(self).mem(), logits@) == forwarded(
                &old(self).device,
                &old(self).config,
                old(self).net(),
                settled(old(self).mem()),
                tokens@,
                pos as nat,
            ),
    {
        let logits = self.run(tokens, pos);
        proof {
            assert forall|more: Seq<Seq<u32>>| more.len() > 0 implies #[trigger] self.says(more)
                == old(self).says(seq![tokens@] + more) by {
                assert((seq![tokens@] + more).drop_first() =~= more);
            }
        }
        logits
    }

    fn reset(&mut self)
        ensures
            final(self).same_model(old(self)),
            final(self).mem() == forgotten(
                old(self).mem(),
                old(self).config.conv_width() as nat,
                old(self).config.ssm_width() as nat,
            ),
    {
        self.settle();
        let ghost kept = self.mem();
        let ghost c = self.config;
        clear(&self.device, &mut self.state.conv_a, self.dims.conv_width);
        clear(&self.device, &mut self.state.conv_b, self.dims.conv_width);
        clear(&self.device, &mut self.state.ssm_state, self.dims.ssm_width);
        self.fed = Ghost(Seq::empty());
        proof {
            let now = self.mem();
            let want = forgotten(old(self).mem(), c.conv_width() as nat, c.ssm_width() as nat);
            assert(now.draft_qkv =~= kept.draft_qkv);
            assert(now.draft_ab =~= kept.draft_ab);
            assert(now.conv =~= want.conv);
            assert(now.ssm =~= want.ssm);
            assert(now.k =~= want.k);
            assert(now.v =~= want.v);
            assert(now == want);
        }
    }

    fn max_len(&self) -> (n: usize) {
        self.state.max_len
    }
}

} // verus!
