//! What of a sequence's memory the tokens after it depend on.
use vstd::prelude::*;

use super::config::Config;
use super::dims::BATCH;
use super::language::forgotten;
use super::laws::{law_saved_state_reads_back, of_extents, tellable};
use super::layer::MixerW;
use super::network::{lemma_attending, Model};
use super::pass::{
    attend, attending, batch, committed, embedded, forwarded, laid, recur, rounded, settled, spoken,
    step, steps, Mem, Net,
};
use super::saved::{image, taken_up};
use super::state::blank;
use crate::device::Device;
use crate::model::{amount, LanguageModel};

verus! {

/// Whether two caches are the same up to a width.
pub open spec fn agree(a: Seq<u16>, b: Seq<u16>, width: int) -> bool {
    a.len() >= width && b.len() >= width && a.take(width) == b.take(width)
}

/// Whether two memories are the same but for keys and values past the first
/// `len` positions, and for drafts.
pub open spec fn alike(c: &Config, a: Mem, b: Mem, len: int) -> bool {
    &&& a.conv == b.conv
    &&& a.ssm == b.ssm
    &&& a.k.len() == b.k.len()
    &&& a.v.len() == b.v.len()
    &&& forall|j: int| 0 <= j < a.k.len() ==> agree(#[trigger] a.k[j], b.k[j], len * c.kv_dim())
    &&& forall|j: int| 0 <= j < a.v.len() ==> agree(#[trigger] a.v[j], b.v[j], len * c.kv_dim())
}

/// Whether a memory has room for `len` positions.
pub open spec fn rooms(c: &Config, m: Mem, len: int) -> bool {
    &&& forall|j: int| 0 <= j < m.k.len() ==> (#[trigger] m.k[j]).len() >= len * c.kv_dim()
    &&& forall|j: int| 0 <= j < m.v.len() ==> (#[trigger] m.v[j]).len() >= len * c.kv_dim()
}

/// Whether the weights are those of an architecture, and a memory has a cache
/// for each of its layers of full attention.
pub open spec fn layered(c: &Config, net: Net, m: Mem) -> bool {
    &&& forall|i: int|
        0 <= i < net.layers.len() ==> ((#[trigger] net.layers[i]).mixer is Attention) == c.attends(i)
    &&& m.k.len() == attending(c, net.layers.len() as int)
    &&& m.v.len() == attending(c, net.layers.len() as int)
}

/// Whether two memories are the same in the middle of a batch of `n` tokens
/// from position `pos` on, when it has gone through the first `i` layers.
spec fn meanwhile(c: &Config, a: Mem, b: Mem, i: int, pos: int, n: int) -> bool {
    let done = attending(c, i);
    &&& a.conv == b.conv
    &&& a.ssm == b.ssm
    &&& a.k.len() == b.k.len()
    &&& a.v.len() == b.v.len()
    &&& forall|j: int|
        0 <= j < a.k.len() ==> agree(
            #[trigger] a.k[j],
            b.k[j],
            if j < done {
                (pos + n) * c.kv_dim()
            } else {
                pos * c.kv_dim()
            },
        )
    &&& forall|j: int|
        0 <= j < a.v.len() ==> agree(
            #[trigger] a.v[j],
            b.v[j],
            if j < done {
                (pos + n) * c.kv_dim()
            } else {
                pos * c.kv_dim()
            },
        )
}

/// What is laid on caches that agree up to there agrees up to its end.
proof fn lemma_laid(a: Seq<u16>, b: Seq<u16>, at: int, t: Seq<u16>, n: int)
    requires
        0 <= at,
        0 <= n,
        agree(a, b, at),
        a.len() >= at + n,
        b.len() >= at + n,
    ensures
        laid(a, at, t, n).take(at + n) == laid(b, at, t, n).take(at + n),
        agree(laid(a, at, t, n), laid(b, at, t, n), at + n),
{
    assert forall|i: int| 0 <= i < at + n implies laid(a, at, t, n)[i] == laid(b, at, t, n)[i] by {
        if i < at {
            assert(a.take(at)[i] == b.take(at)[i]);
        }
    }
    assert(laid(a, at, t, n).take(at + n) =~= laid(b, at, t, n).take(at + n));
}

/// A layer does the same to memories that are the same.
proof fn lemma_step_alike<D: Device>(
    d: &D,
    c: &Config,
    net: Net,
    i: int,
    a: Mem,
    b: Mem,
    x: Seq<u32>,
    pos: nat,
    n: nat,
    room: int,
)
    requires
        0 <= i < net.layers.len(),
        layered(c, net, a),
        pos + n <= room,
        rooms(c, a, room),
        rooms(c, b, room),
        meanwhile(c, a, b, i, pos as int, n as int),
        c.kv_dim() >= 0,
    ensures
        ({
            let (ma, xa) = step(d, c, net, i, a, x, pos, n, false);
            let (mb, xb) = step(d, c, net, i, b, x, pos, n, false);
            &&& xa == xb
            &&& meanwhile(c, ma, mb, i + 1, pos as int, n as int)
            &&& layered(c, net, ma)
            &&& rooms(c, ma, room)
            &&& rooms(c, mb, room)
        }),
{
    let w = net.layers[i];
    let xh = d.norm_turned(x, w.attn_norm, net.signs, net.eps);
    let kv = c.kv_dim();
    lemma_attending(c, i, net.layers.len() as int);
    lemma_attending(c, i + 1, net.layers.len() as int);
    assert((pos + n) * kv <= room * kv) by (nonlinear_arith)
        requires
            pos + n <= room,
            kv >= 0,
    ;
    match w.mixer {
        MixerW::Attention(l) => {
            let at = attending(c, i);
            assert(c.attends(i));
            assert(agree(a.k[at], b.k[at], pos * kv));
            assert(agree(a.v[at], b.v[at], pos * kv));
            assert((pos + n) * kv == pos * kv + n * kv) by (nonlinear_arith);
            assert(pos * kv >= 0 && n * kv >= 0) by (nonlinear_arith)
                requires
                    kv >= 0,
            ;
            let (_, ka, va) = attend(d, c, net, l, a.k[at], a.v[at], xh, pos, n);
            let (_, kb, vb) = attend(d, c, net, l, b.k[at], b.v[at], xh, pos, n);
            assert(a.k[at].len() >= room * kv);
            assert(b.k[at].len() >= room * kv);
            assert(a.v[at].len() >= room * kv);
            assert(b.v[at].len() >= room * kv);
            let k = d.roped(
                d.rms(d.dot(l.k, xh), l.k_norm, net.eps),
                net.rope,
                pos,
                c.kv_heads as nat,
                c.head_dim as nat,
                c.rot_dim as nat,
            );
            lemma_laid(a.k[at], b.k[at], pos * kv, rounded(d, k), n * kv);
            lemma_laid(a.v[at], b.v[at], pos * kv, rounded(d, d.dot(l.v, xh)), n * kv);
            assert(agree(ka, kb, (pos + n) * kv));
            assert(agree(va, vb, (pos + n) * kv));
        },
        MixerW::Linear(_) => {
            assert(!c.attends(i));
        },
    }
    let (ma, xa) = step(d, c, net, i, a, x, pos, n, false);
    let (mb, xb) = step(d, c, net, i, b, x, pos, n, false);
    assert forall|j: int| 0 <= j < ma.k.len() implies agree(
        #[trigger] ma.k[j],
        mb.k[j],
        if j < attending(c, i + 1) {
            (pos + n) * kv
        } else {
            pos * kv
        },
    ) by {
        assert(agree(
            a.k[j],
            b.k[j],
            if j < attending(c, i) {
                (pos + n) * kv
            } else {
                pos * kv
            },
        ));
    }
    assert forall|j: int| 0 <= j < ma.v.len() implies agree(
        #[trigger] ma.v[j],
        mb.v[j],
        if j < attending(c, i + 1) {
            (pos + n) * kv
        } else {
            pos * kv
        },
    ) by {
        assert(agree(
            a.v[j],
            b.v[j],
            if j < attending(c, i) {
                (pos + n) * kv
            } else {
                pos * kv
            },
        ));
    }
    assert forall|j: int| 0 <= j < ma.k.len() implies (#[trigger] ma.k[j]).len() >= room * kv by {
        assert(a.k[j].len() >= room * kv);
    }
    assert forall|j: int| 0 <= j < mb.k.len() implies (#[trigger] mb.k[j]).len() >= room * kv by {
        assert(b.k[j].len() >= room * kv);
    }
    assert forall|j: int| 0 <= j < ma.v.len() implies (#[trigger] ma.v[j]).len() >= room * kv by {
        assert(a.v[j].len() >= room * kv);
    }
    assert forall|j: int| 0 <= j < mb.v.len() implies (#[trigger] mb.v[j]).len() >= room * kv by {
        assert(b.v[j].len() >= room * kv);
    }
}

/// Layers do the same to memories that are the same.
proof fn lemma_steps_alike<D: Device>(
    d: &D,
    c: &Config,
    net: Net,
    i: int,
    a: Mem,
    b: Mem,
    x: Seq<u32>,
    pos: nat,
    n: nat,
    room: int,
)
    requires
        0 <= i <= net.layers.len(),
        layered(c, net, a),
        pos + n <= room,
        rooms(c, a, room),
        rooms(c, b, room),
        alike(c, a, b, pos as int),
        c.kv_dim() >= 0,
    ensures
        ({
            let (ma, xa) = steps(d, c, net, i, a, x, pos, n, false);
            let (mb, xb) = steps(d, c, net, i, b, x, pos, n, false);
            &&& xa == xb
            &&& meanwhile(c, ma, mb, i, pos as int, n as int)
            &&& layered(c, net, ma)
            &&& rooms(c, ma, room)
            &&& rooms(c, mb, room)
        }),
    decreases i,
{
    if i > 0 {
        lemma_steps_alike(d, c, net, i - 1, a, b, x, pos, n, room);
        let (ma, xa) = steps(d, c, net, i - 1, a, x, pos, n, false);
        let (mb, xb) = steps(d, c, net, i - 1, b, x, pos, n, false);
        lemma_step_alike(d, c, net, i - 1, ma, mb, xa, pos, n, room);
    }
}

/// A batch does the same to memories that are the same.
proof fn lemma_batch_alike<D: Device>(
    d: &D,
    c: &Config,
    net: Net,
    a: Mem,
    b: Mem,
    tokens: Seq<u32>,
    pos: nat,
    room: int,
)
    requires
        layered(c, net, a),
        pos + tokens.len() <= room,
        rooms(c, a, room),
        rooms(c, b, room),
        alike(c, a, b, pos as int),
        c.kv_dim() >= 0,
    ensures
        ({
            let (ma, xa) = batch(d, c, net, a, tokens, pos, false);
            let (mb, xb) = batch(d, c, net, b, tokens, pos, false);
            &&& xa == xb
            &&& alike(c, ma, mb, (pos + tokens.len()) as int)
            &&& layered(c, net, ma)
            &&& rooms(c, ma, room)
            &&& rooms(c, mb, room)
        }),
{
    let x = embedded(d, c, net, tokens);
    lemma_steps_alike(
        d,
        c,
        net,
        net.layers.len() as int,
        a,
        b,
        x,
        pos,
        tokens.len(),
        room,
    );
}

/// What tokens do to the memory of a sequence, and the logits after them,
/// depend on its convolution and recurrent states and on the keys and values
/// of its positions, and on nothing else in it: positions past the sequence
/// are written before they are read.
pub proof fn law_positions_past_the_sequence_are_not_read<D: Device>(
    d: &D,
    c: &Config,
    net: Net,
    a: Mem,
    b: Mem,
    tokens: Seq<u32>,
    pos: nat,
    room: int,
)
    requires
        layered(c, net, a),
        pos + tokens.len() <= room,
        rooms(c, a, room),
        rooms(c, b, room),
        alike(c, a, b, pos as int),
    ensures
        ({
            let (ma, la) = forwarded(d, c, net, a, tokens, pos);
            let (mb, lb) = forwarded(d, c, net, b, tokens, pos);
            &&& la == lb
            &&& alike(c, ma, mb, (pos + tokens.len()) as int)
            &&& layered(c, net, ma)
            &&& rooms(c, ma, room)
            &&& rooms(c, mb, room)
        }),
    decreases tokens.len(),
{
    assert(c.kv_dim() >= 0) by (nonlinear_arith)
        requires
            c.kv_dim() == c.kv_heads * c.head_dim,
    ;
    if tokens.len() <= BATCH {
        lemma_batch_alike(d, c, net, a, b, tokens, pos, room);
    } else {
        let cut = (tokens.len() - 1) / BATCH as int * BATCH;
        law_positions_past_the_sequence_are_not_read(
            d,
            c,
            net,
            a,
            b,
            tokens.take(cut),
            pos,
            room,
        );
        let (ma, _) = forwarded(d, c, net, a, tokens.take(cut), pos);
        let (mb, _) = forwarded(d, c, net, b, tokens.take(cut), pos);
        lemma_batch_alike(d, c, net, ma, mb, tokens.skip(cut), pos + cut as nat, room);
    }
}

/// A model's memory is of its dimensions, and they can be told.
pub(super) proof fn lemma_model_extents<'a, D: Device>(m: &Model<'a, D>, len: nat)
    requires
        m.wf(),
        len <= m.room(),
    ensures
        of_extents(m.extents(), m.mem(), len),
        tellable(m.extents(), len),
        rooms(&m.config, m.mem(), m.room() as int),
        layered(&m.config, m.net(), m.mem()),
{
    let e = m.extents();
    let c = &m.config;
    let kv = c.kv_dim();
    let s = &m.state;
    assert(kv >= 0) by (nonlinear_arith)
        requires
            kv == c.kv_heads * c.head_dim,
    ;
    assert(len * kv <= s.max_len * kv) by (nonlinear_arith)
        requires
            len <= s.max_len,
            kv >= 0,
    ;
    assert(s.k_cache.len() == s.k_cache@.len());
    assert(s.ssm_state.len() == s.ssm_state@.len());
    let mem = m.mem();
    assert forall|j: int| 0 <= j < mem.k.len() implies (#[trigger] mem.k[j]).len() == s.max_len
        * kv by {
        assert(D::cached(&s.k_cache@[j]).len() == s.max_len * kv);
    }
    assert forall|j: int| 0 <= j < mem.v.len() implies (#[trigger] mem.v[j]).len() == s.max_len
        * kv by {
        assert(D::cached(&s.v_cache@[j]).len() == s.max_len * kv);
    }
    assert forall|j: int| 0 <= j < e.slots implies (#[trigger] mem.conv[j]).len() == e.conv by {
        assert(D::data(&s.conv_a@[j]).len() == c.conv_width());
        assert(D::data(&s.conv_b@[j]).len() == c.conv_width());
    }
    assert forall|j: int| 0 <= j < e.slots implies (#[trigger] mem.ssm[j]).len() == e.ssm by {
        assert(D::data(&s.ssm_state@[j]).len() == c.ssm_width());
    }
    assert forall|i: int| 0 <= i < m.net().layers.len() implies ((
    #[trigger] m.net().layers[i]).mixer is Attention) == c.attends(i) by {
        assert(super::network::placed(m.layers@[i], c, i));
    }
}

/// Memories that are alike say the same.
pub(super) proof fn lemma_spoken_alike<D: Device>(
    d: &D,
    c: &Config,
    net: Net,
    a: Mem,
    b: Mem,
    runs: Seq<Seq<u32>>,
    pos: nat,
    room: int,
)
    requires
        layered(c, net, a),
        pos + amount(runs) <= room,
        rooms(c, a, room),
        rooms(c, b, room),
        alike(c, a, b, pos as int),
    ensures
        spoken(d, c, net, a, runs, pos) == spoken(d, c, net, b, runs, pos),
    decreases runs.len(),
{
    if runs.len() > 0 {
        law_positions_past_the_sequence_are_not_read(
            d,
            c,
            net,
            settled(a),
            settled(b),
            runs[0],
            pos,
            room,
        );
        let (ma, _) = forwarded(d, c, net, settled(a), runs[0], pos);
        let (mb, _) = forwarded(d, c, net, settled(b), runs[0], pos);
        lemma_spoken_alike(d, c, net, ma, mb, runs.drop_first(), pos + runs[0].len(), room);
    }
}

/// A model that takes up from another's saved state goes on as the other does:
/// it takes the state, it holds as many positions, and whatever is fed to both
/// from there on, both say the same.
pub proof fn law_restored_goes_on_alike<'a, 'b, D: Device>(
    whole: &Model<'a, D>,
    resumed: &Model<'b, D>,
    runs: Seq<Seq<u32>>,
)
    requires
        whole.wf(),
        resumed.wf(),
        whole.config == resumed.config,
        whole.device == resumed.device,
        whole.net() == resumed.net(),
        whole.tokens().len() + amount(runs) <= whole.room(),
        whole.tokens().len() + amount(runs) <= resumed.room(),
    ensures
        whole.saved(whole.tokens().len()) matches Some(state) && resumed.opened(state) == Ok::<
            nat,
            Seq<char>,
        >(whole.tokens().len()) && resumed.says_from(state, runs) == whole.says(runs),
{
    let len = whole.tokens().len();
    let c = &whole.config;
    let kv = c.kv_dim();
    let e = whole.extents();
    lemma_model_extents(whole, len);
    lemma_model_extents(resumed, len);
    assert(resumed.extents() == e);
    law_saved_state_reads_back(e, whole.mem(), len, resumed.mem(), resumed.room());
    let saved = image(e, whole.mem(), len);
    let back = taken_up(saved, e, resumed.mem());
    let (a, b) = (whole.mem(), back);
    let room = (len + amount(runs)) as int;
    assert(kv >= 0) by (nonlinear_arith)
        requires
            kv == c.kv_heads * c.head_dim,
    ;
    let (ra, rb) = (whole.room() as int, resumed.room() as int);
    assert(room * kv <= ra * kv && room * kv <= rb * kv && len * kv <= room * kv)
        by (nonlinear_arith)
        requires
            room <= ra,
            room <= rb,
            len <= room,
            kv >= 0,
    ;
    assert forall|j: int| 0 <= j < a.k.len() implies agree(#[trigger] a.k[j], b.k[j], len * kv) by {
        assert(back.k[j].take((len * e.kv) as int) == whole.mem().k[j].take((len * e.kv) as int));
        assert(resumed.mem().k[j].len() >= rb * kv);
        assert(whole.mem().k[j].len() >= ra * kv);
    }
    assert forall|j: int| 0 <= j < a.v.len() implies agree(#[trigger] a.v[j], b.v[j], len * kv) by {
        assert(back.v[j].take((len * e.kv) as int) == whole.mem().v[j].take((len * e.kv) as int));
        assert(resumed.mem().v[j].len() >= rb * kv);
        assert(whole.mem().v[j].len() >= ra * kv);
    }
    assert(alike(c, a, b, len as int));
    assert forall|j: int| 0 <= j < a.k.len() implies (#[trigger] a.k[j]).len() >= room * kv by {
        assert(whole.mem().k[j].len() >= ra * kv);
    }
    assert forall|j: int| 0 <= j < a.v.len() implies (#[trigger] a.v[j]).len() >= room * kv by {
        assert(whole.mem().v[j].len() >= ra * kv);
    }
    assert forall|j: int| 0 <= j < b.k.len() implies (#[trigger] b.k[j]).len() >= room * kv by {
        assert(resumed.mem().k[j].len() >= rb * kv);
    }
    assert forall|j: int| 0 <= j < b.v.len() implies (#[trigger] b.v[j]).len() >= room * kv by {
        assert(resumed.mem().v[j].len() >= rb * kv);
    }
    lemma_spoken_alike(&whole.device, c, whole.net(), a, b, runs, len, room);
}

/// A model that has forgotten its sequence says what a model says that has
/// just been loaded.
pub proof fn law_forgotten_says_as_new<'a, 'b, D: Device>(
    used: &Model<'a, D>,
    fresh: &Model<'b, D>,
    runs: Seq<Seq<u32>>,
)
    requires
        used.wf(),
        fresh.wf(),
        used.config == fresh.config,
        used.device == fresh.device,
        used.net() == fresh.net(),
        amount(runs) <= used.room(),
        amount(runs) <= fresh.room(),
        fresh.tokens().len() == 0,
        fresh.mem() == blank(
            &fresh.config,
            fresh.caches() as nat,
            fresh.slots() as nat,
            fresh.room() as int,
        ),
    ensures
        used.says_anew(runs) == fresh.says(runs),
{
    let c = &used.config;
    let kv = c.kv_dim();
    lemma_model_extents(used, 0);
    lemma_model_extents(fresh, 0);
    let b = fresh.mem();
    let a = forgotten(used.mem(), c.conv_width() as nat, c.ssm_width() as nat);
    let room = amount(runs) as int;
    assert(kv >= 0 && 0 * kv == 0) by (nonlinear_arith)
        requires
            kv == c.kv_heads * c.head_dim,
    ;
    let (ra, rb) = (used.room() as int, fresh.room() as int);
    assert(room * kv <= ra * kv && room * kv <= rb * kv) by (nonlinear_arith)
        requires
            room <= ra,
            room <= rb,
            kv >= 0,
    ;
    assert(a.conv =~= b.conv);
    assert(a.ssm =~= b.ssm);
    assert forall|j: int| 0 <= j < a.k.len() implies agree(#[trigger] a.k[j], b.k[j], 0 * kv) by {
        assert(a.k[j].take(0) =~= b.k[j].take(0));
    }
    assert forall|j: int| 0 <= j < a.v.len() implies agree(#[trigger] a.v[j], b.v[j], 0 * kv) by {
        assert(a.v[j].take(0) =~= b.v[j].take(0));
    }
    assert forall|j: int| 0 <= j < a.k.len() implies (#[trigger] a.k[j]).len() >= room * kv by {
        assert(used.mem().k[j].len() >= ra * kv);
    }
    assert forall|j: int| 0 <= j < a.v.len() implies (#[trigger] a.v[j]).len() >= room * kv by {
        assert(used.mem().v[j].len() >= ra * kv);
    }
    assert forall|j: int| 0 <= j < b.k.len() implies (#[trigger] b.k[j]).len() >= room * kv by {
        assert(fresh.mem().k[j].len() >= rb * kv);
    }
    assert forall|j: int| 0 <= j < b.v.len() implies (#[trigger] b.v[j]).len() >= room * kv by {
        assert(fresh.mem().v[j].len() >= rb * kv);
    }
    lemma_spoken_alike(&used.device, c, used.net(), a, b, runs, 0, room);
}

/// Whether what was kept of a draft of `n` tokens is of their size.
pub open spec fn drafts(c: &Config, m: Mem, n: int) -> bool {
    &&& forall|j: int|
        0 <= j < m.draft_qkv.len() ==> (#[trigger] m.draft_qkv[j]).len() == n * c.channels()
    &&& forall|j: int|
        0 <= j < m.draft_ab.len() ==> (#[trigger] m.draft_ab[j]).len() == n * (2 * c.v_heads)
}

/// What a linear layer's states come to when a draft runs through them.
spec fn ended<D: Device>(d: &D, c: &Config, net: Net, i: int, start: Mem, kept: Mem, n: nat) -> (
    Seq<u32>,
    Seq<u32>,
) {
    let at = i - attending(c, i);
    let (_, conv, ssm) = recur(
        d,
        c,
        net,
        net.layers[i].mixer->Linear_0,
        start.conv[at],
        start.ssm[at],
        kept.draft_qkv[at],
        kept.draft_ab[at],
        n,
    );
    (conv, ssm)
}

/// A draft and the same tokens run plainly, layer by layer.
proof fn lemma_draft_steps<D: Device>(
    d: &D,
    c: &Config,
    net: Net,
    i: int,
    m: Mem,
    x: Seq<u32>,
    pos: nat,
    n: nat,
)
    requires
        0 <= i <= net.layers.len(),
        layered(c, net, m),
        m.conv.len() == net.layers.len() - attending(c, net.layers.len() as int),
        m.ssm.len() == m.conv.len(),
        m.draft_qkv.len() == m.conv.len(),
        m.draft_ab.len() == m.conv.len(),
    ensures
        ({
            let (mv, xv) = steps(d, c, net, i, m, x, pos, n, true);
            let (mf, xf) = steps(d, c, net, i, m, x, pos, n, false);
            &&& xv == xf
            &&& mv.k == mf.k
            &&& mv.v == mf.v
            &&& mv.conv == m.conv
            &&& mv.ssm == m.ssm
            &&& mf.conv.len() == m.conv.len()
            &&& mf.ssm.len() == m.ssm.len()
            &&& mv.draft_qkv.len() == m.conv.len()
            &&& mv.draft_ab.len() == m.conv.len()
            &&& forall|j: int|
                0 <= j < i && !(#[trigger] c.attends(j)) ==> ended(d, c, net, j, m, mv, n) == (
                    mf.conv[j - attending(c, j)],
                    mf.ssm[j - attending(c, j)],
                )
            &&& forall|j: int|
                i - attending(c, i) <= j < m.conv.len() ==> #[trigger] mf.conv[j] == m.conv[j]
            &&& forall|j: int|
                i - attending(c, i) <= j < m.ssm.len() ==> #[trigger] mf.ssm[j] == m.ssm[j]
        }),
    decreases i,
{
    if i > 0 {
        lemma_draft_steps(d, c, net, i - 1, m, x, pos, n);
        let l = net.layers.len() as int;
        lemma_attending(c, i - 1, l);
        lemma_attending(c, i, l);
        let (mv0, xv0) = steps(d, c, net, i - 1, m, x, pos, n, true);
        let (mf0, xf0) = steps(d, c, net, i - 1, m, x, pos, n, false);
        let (mv, xv) = steps(d, c, net, i, m, x, pos, n, true);
        let (mf, xf) = steps(d, c, net, i, m, x, pos, n, false);
        let at = i - 1 - attending(c, i - 1);
        assert((net.layers[i - 1].mixer is Attention) == c.attends(i - 1));
        assert forall|j: int| 0 <= j < i && !(#[trigger] c.attends(j)) implies ended(
            d,
            c,
            net,
            j,
            m,
            mv,
            n,
        ) == (mf.conv[j - attending(c, j)], mf.ssm[j - attending(c, j)]) by {
            lemma_attending(c, j, i - 1);
            if j < i - 1 {
                lemma_attending(c, j + 1, i - 1);
                assert(ended(d, c, net, j, m, mv0, n) == (
                    mf0.conv[j - attending(c, j)],
                    mf0.ssm[j - attending(c, j)],
                ));
            }
        }
    }
}

/// What committing a draft does, layer by layer.
proof fn lemma_committed<D: Device>(d: &D, c: &Config, net: Net, i: int, m: Mem, n: nat)
    requires
        0 <= i <= net.layers.len(),
        layered(c, net, m),
        m.conv.len() == net.layers.len() - attending(c, net.layers.len() as int),
        m.ssm.len() == m.conv.len(),
        m.draft_qkv.len() == m.conv.len(),
        m.draft_ab.len() == m.conv.len(),
        drafts(c, m, n as int),
    ensures
        ({
            let after = committed(d, c, net, i, m, n);
            &&& after.k == m.k
            &&& after.v == m.v
            &&& after.conv.len() == m.conv.len()
            &&& after.ssm.len() == m.ssm.len()
            &&& forall|j: int|
                0 <= j < i && !(#[trigger] c.attends(j)) ==> ended(d, c, net, j, m, m, n) == (
                    after.conv[j - attending(c, j)],
                    after.ssm[j - attending(c, j)],
                )
        }),
    decreases i,
{
    if i > 0 {
        lemma_committed(d, c, net, i - 1, m, n);
        let l = net.layers.len() as int;
        lemma_attending(c, i - 1, l);
        lemma_attending(c, i, l);
        let before = committed(d, c, net, i - 1, m, n);
        let after = committed(d, c, net, i, m, n);
        let at = i - 1 - attending(c, i - 1);
        assert((net.layers[i - 1].mixer is Attention) == c.attends(i - 1));
        if !c.attends(i - 1) {
            assert(m.draft_qkv[at].len() == n * c.channels());
            assert(m.draft_ab[at].len() == n * (2 * c.v_heads));
            assert(m.draft_qkv[at].take(n * c.channels()) =~= m.draft_qkv[at]);
            assert(m.draft_ab[at].take(n * (2 * c.v_heads)) =~= m.draft_ab[at]);
        }
        assert forall|j: int| 0 <= j < i && !(#[trigger] c.attends(j)) implies ended(
            d,
            c,
            net,
            j,
            m,
            m,
            n,
        ) == (after.conv[j - attending(c, j)], after.ssm[j - attending(c, j)]) by {
            lemma_attending(c, j, i - 1);
            if j < i - 1 {
                lemma_attending(c, j + 1, i - 1);
                assert(ended(d, c, net, j, m, m, n) == (
                    before.conv[j - attending(c, j)],
                    before.ssm[j - attending(c, j)],
                ));
            }
        }
    }
}

/// Every state is that of some linear layer.
pub(super) proof fn lemma_slot_of(c: &Config, slot: int, n: int) -> (i: int)
    requires
        0 <= n,
        0 <= slot < n - attending(c, n),
    ensures
        0 <= i < n,
        !c.attends(i),
        i - attending(c, i) == slot,
    decreases n,
{
    lemma_attending(c, n - 1, n);
    if slot == n - 1 - attending(c, n - 1) && !c.attends(n - 1) {
        n - 1
    } else {
        lemma_slot_of(c, slot, n - 1)
    }
}

/// A draft that stands whole leaves what running its tokens plainly leaves:
/// the same residual stream while it ran, and the same keys, values and
/// states once it is committed.
pub proof fn law_whole_draft_is_forward<D: Device>(
    d: &D,
    c: &Config,
    net: Net,
    m: Mem,
    tokens: Seq<u32>,
    pos: nat,
)
    requires
        layered(c, net, m),
        m.conv.len() == net.layers.len() - attending(c, net.layers.len() as int),
        m.ssm.len() == m.conv.len(),
        m.draft_qkv.len() == m.conv.len(),
        m.draft_ab.len() == m.conv.len(),
        ({
            let (kept, _) = batch(d, c, net, m, tokens, pos, true);
            drafts(c, kept, tokens.len() as int)
        }),
    ensures
        ({
            let (kept, xv) = batch(d, c, net, m, tokens, pos, true);
            let (plain, xf) = batch(d, c, net, m, tokens, pos, false);
            let stood = committed(d, c, net, net.layers.len() as int, kept, tokens.len());
            &&& xv == xf
            &&& stood.k == plain.k
            &&& stood.v == plain.v
            &&& stood.conv == plain.conv
            &&& stood.ssm == plain.ssm
        }),
{
    let x = embedded(d, c, net, tokens);
    let l = net.layers.len() as int;
    let n = tokens.len();
    lemma_draft_steps(d, c, net, l, m, x, pos, n);
    let (kept, _) = batch(d, c, net, m, tokens, pos, true);
    let (plain, _) = batch(d, c, net, m, tokens, pos, false);
    lemma_draft_layered(d, c, net, l, m, x, pos, n);
    lemma_committed(d, c, net, l, kept, n);
    let stood = committed(d, c, net, l, kept, n);
    assert forall|slot: int| 0 <= slot < m.conv.len() implies #[trigger] stood.conv[slot]
        == plain.conv[slot] && stood.ssm[slot] == plain.ssm[slot] by {
        let i = lemma_slot_of(c, slot, l);
        assert(!c.attends(i));
        assert(ended(d, c, net, i, m, kept, n) == ended(d, c, net, i, kept, kept, n));
    }
    assert(stood.conv =~= plain.conv);
    assert forall|slot: int| 0 <= slot < m.conv.len() implies #[trigger] stood.ssm[slot]
        == plain.ssm[slot] by {
        assert(stood.conv[slot] == plain.conv[slot]);
    }
    assert(stood.ssm =~= plain.ssm);
}

/// A draft leaves the states of the linear layers, and the keys and values of
/// the positions before it.
pub(super) proof fn lemma_draft_alike<D: Device>(
    d: &D,
    c: &Config,
    net: Net,
    i: int,
    m: Mem,
    x: Seq<u32>,
    pos: nat,
    n: nat,
    room: int,
)
    requires
        0 <= i <= net.layers.len(),
        layered(c, net, m),
        rooms(c, m, room),
        pos <= room,
    ensures
        ({
            let (after, _) = steps(d, c, net, i, m, x, pos, n, true);
            &&& layered(c, net, after)
            &&& rooms(c, after, room)
            &&& alike(c, m, after, pos as int)
        }),
    decreases i,
{
    let kv = c.kv_dim();
    assert(0 <= pos * kv <= room * kv) by (nonlinear_arith)
        requires
            pos <= room,
            kv == c.kv_heads * c.head_dim,
    ;
    if i > 0 {
        let l = net.layers.len() as int;
        lemma_draft_alike(d, c, net, i - 1, m, x, pos, n, room);
        lemma_draft_layered(d, c, net, i, m, x, pos, n);
        lemma_attending(c, i - 1, l);
        lemma_attending(c, i, l);
        let (before, _) = steps(d, c, net, i - 1, m, x, pos, n, true);
        let (after, _) = steps(d, c, net, i, m, x, pos, n, true);
        let at = attending(c, i - 1);
        assert((net.layers[i - 1].mixer is Attention) == c.attends(i - 1));
        assert forall|j: int| 0 <= j < m.k.len() implies agree(
            #[trigger] m.k[j],
            after.k[j],
            pos * kv,
        ) && after.k[j].len() >= room * kv by {
            assert(agree(m.k[j], before.k[j], pos * kv));
            assert(before.k[j].len() >= room * kv);
            if j == at {
                assert(after.k[j].take(pos * kv) =~= before.k[j].take(pos * kv));
            }
        }
        assert forall|j: int| 0 <= j < m.v.len() implies agree(
            #[trigger] m.v[j],
            after.v[j],
            pos * kv,
        ) && after.v[j].len() >= room * kv by {
            assert(agree(m.v[j], before.v[j], pos * kv));
            assert(before.v[j].len() >= room * kv);
            if j == at {
                assert(after.v[j].take(pos * kv) =~= before.v[j].take(pos * kv));
            }
        }
        assert forall|j: int| 0 <= j < after.k.len() implies (#[trigger] after.k[j]).len() >= room
            * kv by {
            assert(agree(m.k[j], after.k[j], pos * kv));
        }
        assert forall|j: int| 0 <= j < after.v.len() implies (#[trigger] after.v[j]).len() >= room
            * kv by {
            assert(agree(m.v[j], after.v[j], pos * kv));
        }
    } else {
        assert forall|j: int| 0 <= j < m.k.len() implies agree(
            #[trigger] m.k[j],
            m.k[j],
            pos * kv,
        ) by {
            assert(m.k[j].len() >= room * kv);
        }
        assert forall|j: int| 0 <= j < m.v.len() implies agree(
            #[trigger] m.v[j],
            m.v[j],
            pos * kv,
        ) by {
            assert(m.v[j].len() >= room * kv);
        }
    }
}

/// A draft leaves as many caches.
proof fn lemma_draft_layered<D: Device>(
    d: &D,
    c: &Config,
    net: Net,
    i: int,
    m: Mem,
    x: Seq<u32>,
    pos: nat,
    n: nat,
)
    requires
        0 <= i <= net.layers.len(),
        layered(c, net, m),
    ensures
        layered(c, net, steps(d, c, net, i, m, x, pos, n, true).0),
    decreases i,
{
    if i > 0 {
        lemma_draft_layered(d, c, net, i - 1, m, x, pos, n);
        lemma_attending(c, i - 1, net.layers.len() as int);
        lemma_attending(c, i, net.layers.len() as int);
        assert((net.layers[i - 1].mixer is Attention) == c.attends(i - 1));
    }
}

} // verus!
