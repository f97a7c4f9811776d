//! The buffers that a pass computes in, and what is kept of a sequence.
use vstd::prelude::*;

use super::config::Config;
use super::dims::{Dims, BATCH};
use super::pass::Mem;
use crate::device::{zeros, Device};
use crate::model::VERIFY;

verus! {

/// Buffers the forward pass computes in, with room for a batch of [`BATCH`]
/// tokens; the key/value caches of the attention layers, holding every
/// position seen so far in half precision; the convolution and recurrent
/// states of the linear attention layers; and the rotary position embedding
/// table for every position there is room for.
pub struct State<D: Device> {
    pub x: D::Buffer,
    pub xb: D::Buffer,
    pub xh: D::Buffer,
    pub q: D::Buffer,
    pub gate: D::Buffer,
    pub k: D::Buffer,
    pub v: D::Buffer,
    pub att: D::Buffer,
    pub qkv: D::Buffer,
    pub z: D::Buffer,
    pub ab: D::Buffer,
    /// The feed-forward network's two projections.
    pub up: D::Buffer,
    pub gate_ffn: D::Buffer,
    pub logits: D::Buffer,
    pub k_cache: Vec<D::Cache>,
    pub v_cache: Vec<D::Cache>,
    /// Two per linear layer, the batch's inputs coming from one and its
    /// outputs going to the other, swapping every batch.
    pub conv_a: Vec<D::Buffer>,
    pub conv_b: Vec<D::Buffer>,
    /// Whether the inputs come from the first.
    pub parity: bool,
    pub ssm_state: Vec<D::Buffer>,
    /// For verifying a draft: each linear layer's projections and gates for
    /// its tokens, a recurrent state to run on in place of the layer's own,
    /// and room for every token's logits; and how many tokens the draft has.
    pub stash_qkv: Vec<D::Buffer>,
    pub stash_ab: Vec<D::Buffer>,
    pub scratch_state: D::Buffer,
    pub verify_logits: D::Buffer,
    pub verified: usize,
    pub rope: D::Buffer,
    pub max_len: usize,
}

/// What buffers hold.
pub open spec fn contents<D: Device>(bufs: Seq<D::Buffer>) -> Seq<Seq<u32>> {
    Seq::new(bufs.len(), |i: int| D::data(&bufs[i]))
}

/// What caches hold.
pub open spec fn halves<D: Device>(caches: Seq<D::Cache>) -> Seq<Seq<u16>> {
    Seq::new(caches.len(), |i: int| D::cached(&caches[i]))
}

/// Whether every buffer holds `len` activations, and can.
pub open spec fn each_holds<D: Device>(bufs: Seq<D::Buffer>, len: int) -> bool {
    forall|i: int|
        0 <= i < bufs.len() ==> (#[trigger] D::data(&bufs[i])).len() == len && D::cap(&bufs[i])
            == len
}

/// Buffers still hold as much when one is replaced by one that does.
pub proof fn lemma_each_holds<D: Device>(a: Seq<D::Buffer>, b: Seq<D::Buffer>, j: int, len: int)
    requires
        each_holds::<D>(a, len),
        a.len() == b.len(),
        0 <= j < a.len(),
        forall|i: int| 0 <= i < a.len() && i != j ==> #[trigger] b[i] == a[i],
        D::data(&b[j]).len() == len,
        D::cap(&b[j]) == len,
    ensures
        each_holds::<D>(b, len),
{
    assert forall|i: int| 0 <= i < b.len() implies (#[trigger] D::data(&b[i])).len() == len
        && D::cap(&b[i]) == len by {
        assert(D::data(&a[i]).len() == len);
        if i != j {
            assert(b[i] == a[i]);
        }
    }
}

/// Whether every cache holds `len` halves.
pub open spec fn each_caches<D: Device>(caches: Seq<D::Cache>, len: int) -> bool {
    forall|i: int| 0 <= i < caches.len() ==> (#[trigger] D::cached(&caches[i])).len() == len
}

impl<D: Device> State<D> {
    /// Whether every buffer has room for a batch.
    pub open spec fn roomy(&self, c: &Config) -> bool {
        &&& D::cap(&self.x) >= BATCH * c.hidden
        &&& D::cap(&self.xb) >= BATCH * c.hidden
        &&& D::cap(&self.xh) >= BATCH * c.hidden
        &&& D::cap(&self.q) >= BATCH * c.q_dim()
        &&& D::cap(&self.q) >= BATCH * c.k_dim()
        &&& D::cap(&self.gate) >= BATCH * c.q_dim()
        &&& D::cap(&self.k) >= BATCH * c.kv_dim()
        &&& D::cap(&self.k) >= BATCH * c.k_dim()
        &&& D::cap(&self.v) >= BATCH * c.kv_dim()
        &&& D::cap(&self.v) >= BATCH * c.v_dim()
        &&& D::cap(&self.att) >= BATCH * c.q_dim()
        &&& D::cap(&self.att) >= BATCH * c.v_dim()
        &&& D::cap(&self.qkv) >= BATCH * c.channels()
        &&& D::cap(&self.z) >= BATCH * c.v_dim()
        &&& D::cap(&self.ab) >= BATCH * (2 * c.v_heads)
        &&& D::cap(&self.up) >= BATCH * c.intermediate
        &&& D::cap(&self.gate_ffn) >= BATCH * c.intermediate
        &&& D::data(&self.logits).len() == c.vocab
        &&& D::cap(&self.verify_logits) >= VERIFY * c.vocab
        &&& D::data(&self.scratch_state).len() == c.ssm_width()
    }

    /// Whether what is kept is of the sizes of an architecture, with `caches`
    /// layers of full attention and `slots` linear ones.
    pub open spec fn keeps(&self, c: &Config, caches: int, slots: int) -> bool {
        &&& self.k_cache@.len() == caches
        &&& self.v_cache@.len() == caches
        &&& each_caches::<D>(self.k_cache@, self.max_len * c.kv_dim())
        &&& each_caches::<D>(self.v_cache@, self.max_len * c.kv_dim())
        &&& self.conv_a@.len() == slots
        &&& self.conv_b@.len() == slots
        &&& each_holds::<D>(self.conv_a@, c.conv_width())
        &&& each_holds::<D>(self.conv_b@, c.conv_width())
        &&& self.ssm_state@.len() == slots
        &&& each_holds::<D>(self.ssm_state@, c.ssm_width())
        &&& self.stash_qkv@.len() == slots
        &&& self.stash_ab@.len() == slots
        &&& each_holds::<D>(self.stash_qkv@, VERIFY * c.channels())
        &&& each_holds::<D>(self.stash_ab@, VERIFY * (2 * c.v_heads))
        &&& self.verified <= VERIFY
        &&& D::data(&self.rope).len() == self.max_len * c.rope_dim()
    }

    /// Whether all holds together.
    pub open spec fn wf(&self, c: &Config, caches: int, slots: int) -> bool {
        self.roomy(c) && self.keeps(c, caches, slots)
    }

    /// The convolution states that the next batch starts from.
    pub open spec fn conv(&self) -> Seq<Seq<u32>> {
        if self.parity {
            contents::<D>(self.conv_a@)
        } else {
            contents::<D>(self.conv_b@)
        }
    }

    /// What is kept of the sequence.
    pub open spec fn mem(&self, c: &Config) -> Mem {
        Mem {
            k: halves::<D>(self.k_cache@),
            v: halves::<D>(self.v_cache@),
            conv: self.conv(),
            ssm: contents::<D>(self.ssm_state@),
            draft_qkv: Seq::new(
                self.stash_qkv@.len(),
                |i: int| D::data(&self.stash_qkv@[i]).take(self.verified * c.channels()),
            ),
            draft_ab: Seq::new(
                self.stash_ab@.len(),
                |i: int| D::data(&self.stash_ab@[i]).take(self.verified * (2 * c.v_heads)),
            ),
        }
    }
}

/// `n` buffers of `len` zeros each.
fn buffers<D: Device>(d: &D, n: usize, len: usize) -> (bufs: Vec<D::Buffer>)
    ensures
        bufs@.len() == n,
        each_holds::<D>(bufs@, len as int),
        forall|i: int| 0 <= i < n ==> #[trigger] D::data(&bufs@[i]) == zeros(len as nat),
{
    let mut bufs: Vec<D::Buffer> = Vec::new();
    let mut i: usize = 0;
    while i < n
        invariant
            i <= n,
            bufs@.len() == i,
            each_holds::<D>(bufs@, len as int),
            forall|j: int| 0 <= j < i ==> #[trigger] D::data(&bufs@[j]) == zeros(len as nat),
        decreases n - i,
    {
        bufs.push(d.alloc_buffer(len));
        i = i + 1;
    }
    bufs
}

/// `n` caches of `len` zeros each.
fn caches<D: Device>(d: &D, n: usize, len: usize) -> (list: Vec<D::Cache>)
    ensures
        list@.len() == n,
        each_caches::<D>(list@, len as int),
        forall|i: int|
            0 <= i < n ==> #[trigger] D::cached(&list@[i]) == Seq::new(len as nat, |j: int| 0u16),
{
    let mut list: Vec<D::Cache> = Vec::new();
    let mut i: usize = 0;
    while i < n
        invariant
            i <= n,
            list@.len() == i,
            each_caches::<D>(list@, len as int),
            forall|j: int|
                0 <= j < i ==> #[trigger] D::cached(&list@[j]) == Seq::new(
                    len as nat,
                    |j: int| 0u16,
                ),
        decreases n - i,
    {
        list.push(d.alloc_cache(len));
        i = i + 1;
    }
    list
}

/// The larger of two numbers.
pub open spec fn wider(a: int, b: int) -> int {
    if a > b {
        a
    } else {
        b
    }
}

/// The larger of two numbers.
pub(super) fn larger(a: usize, b: usize) -> (r: usize)
    ensures
        r == wider(a as int, b as int),
{
    if a > b {
        a
    } else {
        b
    }
}

/// A batch of a width is no more than the whole.
pub proof fn lemma_within(n: int, most: int, width: int)
    requires
        0 <= n <= most,
        0 <= width,
    ensures
        0 <= n * width <= most * width,
{
    assert(0 <= n * width <= most * width) by (nonlinear_arith)
        requires
            0 <= n <= most,
            0 <= width,
    ;
}

/// Nothing is kept of a sequence that has not begun.
pub open spec fn blank(c: &Config, caches: nat, slots: nat, max_len: int) -> Mem {
    Mem {
        k: Seq::new(caches, |i: int| Seq::new((max_len * c.kv_dim()) as nat, |j: int| 0u16)),
        v: Seq::new(caches, |i: int| Seq::new((max_len * c.kv_dim()) as nat, |j: int| 0u16)),
        conv: Seq::new(slots, |i: int| zeros(c.conv_width() as nat)),
        ssm: Seq::new(slots, |i: int| zeros(c.ssm_width() as nat)),
        draft_qkv: Seq::new(slots, |i: int| Seq::<u32>::empty()),
        draft_ab: Seq::new(slots, |i: int| Seq::<u32>::empty()),
    }
}

impl<D: Device> State<D> {
    /// Allocates state for sequences of up to `max_len` tokens.
    pub fn new(
        c: &Config,
        dims: &Dims,
        d: &D,
        max_len: usize,
        n_caches: usize,
        slots: usize,
        table: &[u32],
    ) -> (s: State<D>)
        requires
            c.countable(max_len as int),
            dims.of(c),
            table@.len() == max_len * c.rope_dim(),
        ensures
            s.wf(c, n_caches as int, slots as int),
            s.mem(c) == blank(c, n_caches as nat, slots as nat, max_len as int),
            s.verified == 0,
            s.max_len == max_len,
            D::data(&s.rope) == table@,
    {
        proof {
            lemma_within(1, BATCH as int, dims.channels as int);
            assert(c.k_dim() >= 0) by (nonlinear_arith)
                requires
                    c.k_dim() == c.k_heads * c.state_dim,
            ;
            assert(c.v_dim() >= 0) by (nonlinear_arith)
                requires
                    c.v_dim() == c.v_heads * c.state_dim,
            ;
        }
        let mut rope = d.alloc_buffer(table.len());
        d.write(&mut rope, table);
        let s = State {
            x: d.alloc_buffer(BATCH * c.hidden),
            xb: d.alloc_buffer(BATCH * c.hidden),
            xh: d.alloc_buffer(BATCH * c.hidden),
            q: d.alloc_buffer(BATCH * larger(dims.q_dim, dims.k_dim)),
            gate: d.alloc_buffer(BATCH * dims.q_dim),
            k: d.alloc_buffer(BATCH * larger(dims.kv_dim, dims.k_dim)),
            v: d.alloc_buffer(BATCH * larger(dims.kv_dim, dims.v_dim)),
            att: d.alloc_buffer(BATCH * larger(dims.q_dim, dims.v_dim)),
            qkv: d.alloc_buffer(BATCH * dims.channels),
            z: d.alloc_buffer(BATCH * dims.v_dim),
            ab: d.alloc_buffer(BATCH * (2 * c.v_heads)),
            up: d.alloc_buffer(BATCH * c.intermediate),
            gate_ffn: d.alloc_buffer(BATCH * c.intermediate),
            logits: d.alloc_buffer(c.vocab),
            k_cache: caches(d, n_caches, max_len * dims.kv_dim),
            v_cache: caches(d, n_caches, max_len * dims.kv_dim),
            conv_a: buffers(d, slots, dims.conv_width),
            conv_b: buffers(d, slots, dims.conv_width),
            parity: false,
            ssm_state: buffers(d, slots, dims.ssm_width),
            stash_qkv: buffers(d, slots, VERIFY * dims.channels),
            stash_ab: buffers(d, slots, VERIFY * (2 * c.v_heads)),
            scratch_state: d.alloc_buffer(dims.ssm_width),
            verify_logits: d.alloc_buffer(VERIFY * c.vocab),
            verified: 0,
            rope,
            max_len,
        };
        proof {
            let want = blank(c, n_caches as nat, slots as nat, max_len as int);
            let m = s.mem(c);
            assert(m.k =~= want.k);
            assert(m.v =~= want.v);
            assert(m.conv =~= want.conv);
            assert(m.ssm =~= want.ssm);
            assert(0 * c.channels() == 0) by (nonlinear_arith);
            assert(0 * (2 * c.v_heads) == 0) by (nonlinear_arith);
            assert forall|i: int| 0 <= i < slots implies #[trigger] m.draft_qkv[i]
                == want.draft_qkv[i] by {
                assert(D::data(&s.stash_qkv@[i]).take(0) =~= Seq::empty());
            }
            assert forall|i: int| 0 <= i < slots implies #[trigger] m.draft_ab[i]
                == want.draft_ab[i] by {
                assert(D::data(&s.stash_ab@[i]).take(0) =~= Seq::empty());
            }
            assert(m.draft_qkv =~= want.draft_qkv);
            assert(m.draft_ab =~= want.draft_ab);
        }
        s
    }
}

} // verus!
