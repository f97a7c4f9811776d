//! How long each kernel takes at the model's sizes.
use vstd::prelude::*;

use super::checks::{buffer, cache, plain, rows_drawn, ternary, EPS};
use super::draws::{after, decay_drawn, high_halves, values, Rng};
use super::speed::{
    draw_ternary, greater, made_times, most, note, time_product, timed, Timing,
};
use crate::bonsai::run::lemma_multiple;
use crate::clock::{nanos_since, now};
use crate::device::{splice, zeros, Device};
use crate::tensor::Tensor;
use crate::text::{digits, own, push_decimal};

verus! {

/// An operation on the buffers of a [`Bench`].
#[derive(Clone, Copy, Debug)]
pub enum Op {
    NormRotate,
    TurnValues,
    TurnInner,
    NormHidden,
    NormQueries,
    NormKeys,
    NormValues,
    Add,
    Copy,
    SiluInner,
    SiluValues,
    Sigmoid,
    Shorten,
    RopeQueries,
    RopeKeys,
    Store,
    Attend,
    AttendLong,
    Convolve,
    Recur,
    Gates,
}

/// The operations that are timed, in order.
pub open spec fn ops() -> Seq<Op> {
    seq![
        Op::NormRotate,
        Op::TurnValues,
        Op::TurnInner,
        Op::NormHidden,
        Op::NormQueries,
        Op::NormKeys,
        Op::NormValues,
        Op::Add,
        Op::Copy,
        Op::SiluInner,
        Op::SiluValues,
        Op::Sigmoid,
        Op::Shorten,
        Op::RopeQueries,
        Op::RopeKeys,
        Op::Store,
        Op::Attend,
        Op::AttendLong,
        Op::Convolve,
        Op::Recur,
        Op::Gates,
    ]
}

impl Op {
    /// The name that the operation goes by, and how often a batch calls it.
    pub open spec fn label(self) -> (Seq<char>, int) {
        match self {
            Op::NormRotate => ("norm_rotate 5120"@, 129),
            Op::TurnValues => ("hadamard 6144"@, 64),
            Op::TurnInner => ("hadamard 17408"@, 64),
            Op::NormHidden => ("rmsnorm 5120"@, 48),
            Op::NormQueries => ("rmsnorm 6144 by 256"@, 16),
            Op::NormKeys => ("rmsnorm 1024 by 256"@, 16),
            Op::NormValues => ("rmsnorm 6144 by 128"@, 48),
            Op::Add => ("add 5120"@, 128),
            Op::Copy => ("copy 5120"@, 48),
            Op::SiluInner => ("silu_mul 17408"@, 64),
            Op::SiluValues => ("silu_mul 6144"@, 48),
            Op::Sigmoid => ("sigmoid_mul 6144"@, 16),
            Op::Shorten => ("l2norm 2048 by 128"@, 96),
            Op::RopeQueries => ("rope 24 heads"@, 16),
            Op::RopeKeys => ("rope 4 heads"@, 16),
            Op::Store => ("store 1024"@, 32),
            Op::Attend => ("attention at 1024"@, 16),
            Op::AttendLong => ("attention at 4096"@, 16),
            Op::Convolve => ("conv 10240"@, 48),
            Op::Recur => ("delta_net 48 heads"@, 48),
            Op::Gates => ("matmul bf16 96x5120"@, 48),
        }
    }

    /// The name that the operation goes by, and how often a batch calls it.
    fn named(&self) -> (r: (&'static str, usize))
        ensures
            (r.0@, r.1 as int) == self.label(),
    {
        match self {
            Op::NormRotate => ("norm_rotate 5120", 129),
            Op::TurnValues => ("hadamard 6144", 64),
            Op::TurnInner => ("hadamard 17408", 64),
            Op::NormHidden => ("rmsnorm 5120", 48),
            Op::NormQueries => ("rmsnorm 6144 by 256", 16),
            Op::NormKeys => ("rmsnorm 1024 by 256", 16),
            Op::NormValues => ("rmsnorm 6144 by 128", 48),
            Op::Add => ("add 5120", 128),
            Op::Copy => ("copy 5120", 48),
            Op::SiluInner => ("silu_mul 17408", 64),
            Op::SiluValues => ("silu_mul 6144", 48),
            Op::Sigmoid => ("sigmoid_mul 6144", 16),
            Op::Shorten => ("l2norm 2048 by 128", 96),
            Op::RopeQueries => ("rope 24 heads", 16),
            Op::RopeKeys => ("rope 4 heads", 16),
            Op::Store => ("store 1024", 32),
            Op::Attend => ("attention at 1024", 16),
            Op::AttendLong => ("attention at 4096", 16),
            Op::Convolve => ("conv 10240", 48),
            Op::Recur => ("delta_net 48 heads", 48),
            Op::Gates => ("matmul bf16 96x5120", 48),
        }
    }
}

/// What the operations of a batch of `n` tokens work on: a hidden width of
/// 5120 and an inner one of 17408, 24 query and 4 key heads of 256, and 16 key
/// and 48 value heads of 128.
pub struct Bench<D: Device> {
    pub n: usize,
    pub sync: D::Buffer,
    pub h: D::Buffer,
    pub inner: D::Buffer,
    pub q: D::Buffer,
    pub v: D::Buffer,
    pub k: D::Buffer,
    pub h2: D::Buffer,
    pub inner2: D::Buffer,
    pub v2: D::Buffer,
    pub signs_h: D::Buffer,
    pub signs_inner: D::Buffer,
    pub signs_v: D::Buffer,
    pub norm_h: D::Buffer,
    pub norm_head: D::Buffer,
    pub norm_state: D::Buffer,
    pub out_h: D::Buffer,
    pub keys: D::Buffer,
    pub table: D::Buffer,
    pub k_cache: D::Cache,
    pub v_cache: D::Cache,
    pub att: D::Buffer,
    pub k_long: D::Cache,
    pub v_long: D::Cache,
    pub conv_q: D::Buffer,
    pub conv_k: D::Buffer,
    pub conv_v: D::Buffer,
    pub conv_x: D::Buffer,
    pub conv_state: D::Buffer,
    pub conv_weight: D::Buffer,
    pub conv_out: D::Buffer,
    pub gates: D::Buffer,
    pub decay: D::Buffer,
    pub state: D::Buffer,
    pub out_v: D::Buffer,
    pub ab: D::Weight,
    pub out_ab: D::Buffer,
}

/// How many numbers are drawn for part `i` of a [`Bench`], the parts counted in
/// the order they are drawn in.
pub open spec fn size_drawn(n: nat, i: int) -> nat {
    if i == 0 || i == 5 {
        n * 5120
    } else if i == 1 || i == 6 {
        n * 17408
    } else if i == 2 || i == 3 || i == 7 {
        n * 6144
    } else if i == 4 {
        n * 1024
    } else if i == 8 || i == 11 {
        5120
    } else if i == 9 {
        17408
    } else if i == 10 {
        6144
    } else if i == 12 {
        256
    } else if i == 13 {
        128
    } else if i == 14 {
        n * 2048
    } else if i == 15 {
        (1024 + n) * 64
    } else if i == 16 || i == 17 {
        (1024 + n) * 1024
    } else if i == 18 || i == 19 {
        (4096 + n) * 1024
    } else if i == 20 {
        n * 10240
    } else if i == 21 {
        30_720
    } else if i == 22 {
        40_960
    } else if i == 23 {
        n * 96
    } else if i == 24 {
        96
    } else if i == 25 {
        786_432
    } else if i == 26 {
        491_520
    } else {
        0
    }
}

/// The state that part `i` of a [`Bench`] is drawn from.
#[verifier::opaque]
pub open spec fn drawn_from(s: u64, n: nat, i: int) -> u64
    decreases i,
{
    if i <= 0 {
        s
    } else {
        after(drawn_from(s, n, i - 1), size_drawn(n, i - 1))
    }
}

/// The numbers that part `i` of a [`Bench`] is.
#[verifier::opaque]
pub open spec fn part_drawn(s: u64, n: nat, i: int) -> Seq<u32> {
    values(drawn_from(s, n, i), size_drawn(n, i))
}

/// What a cache of the device keeps of some numbers.
#[verifier::opaque]
pub open spec fn halved<D: Device>(gpu: &D, data: Seq<u32>) -> Seq<u16> {
    data.map_values(|x: u32| gpu.half(x))
}

impl<D: Device> Bench<D> {
    /// Whether everything is what was drawn from a state, and what was not is
    /// zeros.
    pub open spec fn fresh(&self, gpu: &D, s: u64) -> bool {
        let n = self.n as nat;
        &&& D::data(&self.sync) == zeros(1)
        &&& D::data(&self.h) == part_drawn(s, n, 0)
        &&& D::data(&self.inner) == part_drawn(s, n, 1)
        &&& D::data(&self.q) == part_drawn(s, n, 2)
        &&& D::data(&self.v) == part_drawn(s, n, 3)
        &&& D::data(&self.k) == part_drawn(s, n, 4)
        &&& D::data(&self.h2) == part_drawn(s, n, 5)
        &&& D::data(&self.inner2) == part_drawn(s, n, 6)
        &&& D::data(&self.v2) == part_drawn(s, n, 7)
        &&& D::data(&self.signs_h) == part_drawn(s, n, 8)
        &&& D::data(&self.signs_inner) == part_drawn(s, n, 9)
        &&& D::data(&self.signs_v) == part_drawn(s, n, 10)
        &&& D::data(&self.norm_h) == part_drawn(s, n, 11)
        &&& D::data(&self.norm_head) == part_drawn(s, n, 12)
        &&& D::data(&self.norm_state) == part_drawn(s, n, 13)
        &&& D::data(&self.out_h) == zeros(n * 5120)
        &&& D::data(&self.keys) == part_drawn(s, n, 14)
        &&& D::data(&self.table) == part_drawn(s, n, 15)
        &&& D::cached(&self.k_cache) == halved(gpu, part_drawn(s, n, 16))
        &&& D::cached(&self.v_cache) == halved(gpu, part_drawn(s, n, 17))
        &&& D::data(&self.att) == zeros(n * 6144)
        &&& D::cached(&self.k_long) == halved(gpu, part_drawn(s, n, 18))
        &&& D::cached(&self.v_long) == halved(gpu, part_drawn(s, n, 19))
        &&& D::data(&self.conv_q) == zeros(n * 2048)
        &&& D::data(&self.conv_k) == zeros(n * 2048)
        &&& D::data(&self.conv_v) == zeros(n * 6144)
        &&& D::data(&self.conv_x) == part_drawn(s, n, 20)
        &&& D::data(&self.conv_state) == part_drawn(s, n, 21)
        &&& D::data(&self.conv_weight) == part_drawn(s, n, 22)
        &&& D::data(&self.conv_out) == zeros(30_720)
        &&& D::data(&self.gates) == part_drawn(s, n, 23)
        &&& D::data(&self.decay) == decay_drawn(drawn_from(s, n, 24), 48)
        &&& D::data(&self.state) == part_drawn(s, n, 25)
        &&& D::data(&self.out_v) == zeros(n * 6144)
        &&& D::matrix(&self.ab) == plain(96, 5120, high_halves(drawn_from(s, n, 26), 491_520))
        &&& D::data(&self.out_ab) == zeros(n * 96)
    }

    /// Whether everything has the size that it is used with.
    pub open spec fn wf(&self) -> bool {
        let n = self.n as int;
        &&& n > 0
        &&& n * 17408 <= usize::MAX
        &&& D::data(&self.h).len() == n * 5120
        &&& D::data(&self.inner).len() == n * 17408
        &&& D::data(&self.q).len() == n * 6144
        &&& D::data(&self.v).len() == n * 6144
        &&& D::data(&self.k).len() == n * 1024
        &&& D::data(&self.h2).len() == n * 5120
        &&& D::data(&self.inner2).len() == n * 17408
        &&& D::data(&self.v2).len() == n * 6144
        &&& D::data(&self.signs_h).len() == 5120
        &&& D::data(&self.signs_inner).len() == 17408
        &&& D::data(&self.signs_v).len() == 6144
        &&& D::data(&self.norm_h).len() == 5120
        &&& D::data(&self.norm_head).len() == 256
        &&& D::data(&self.norm_state).len() == 128
        &&& D::data(&self.out_h).len() == n * 5120
        &&& D::data(&self.keys).len() == n * 2048
        &&& D::data(&self.table).len() == (1024 + n) * 64
        &&& D::cached(&self.k_cache).len() == (1024 + n) * 1024
        &&& D::cached(&self.v_cache).len() == (1024 + n) * 1024
        &&& D::data(&self.att).len() == n * 6144
        &&& D::cached(&self.k_long).len() == (4096 + n) * 1024
        &&& D::cached(&self.v_long).len() == (4096 + n) * 1024
        &&& D::data(&self.conv_q).len() == n * 2048
        &&& D::data(&self.conv_k).len() == n * 2048
        &&& D::data(&self.conv_v).len() == n * 6144
        &&& D::data(&self.conv_x).len() == n * 10240
        &&& D::data(&self.conv_state).len() == 30_720
        &&& D::data(&self.conv_weight).len() == 40_960
        &&& D::data(&self.conv_out).len() == 30_720
        &&& D::data(&self.gates).len() == n * 96
        &&& D::data(&self.decay).len() == 96
        &&& D::data(&self.state).len() == 786_432
        &&& D::data(&self.out_v).len() == n * 6144
        &&& D::matrix(&self.ab).rows == 96
        &&& D::matrix(&self.ab).cols == 5120
        &&& D::data(&self.out_ab).len() == n * 96
    }

    /// Sets everything up, of numbers drawn.
    #[verifier::rlimit(40)]
    fn new(gpu: &D, rng: &mut Rng, n: usize) -> (b: Self)
        requires
            n > 0,
            n * 17408 <= usize::MAX,
        ensures
            b.wf(),
            b.n == n,
            b.fresh(gpu, old(rng).state),
            final(rng).state == drawn_from(old(rng).state, n as nat, 27),
    {
        let ghost s = rng.state;
        let ghost m = n as nat;
        assert(rng.state == drawn_from(s, m, 0)) by {
            reveal(drawn_from);
        }
        let sync = gpu.alloc_buffer(1);
        let h = part(gpu, rng, n * 5120, Ghost(s), Ghost(m), Ghost(0));
        let inner = part(gpu, rng, n * 17408, Ghost(s), Ghost(m), Ghost(1));
        let q = part(gpu, rng, n * 6144, Ghost(s), Ghost(m), Ghost(2));
        let v = part(gpu, rng, n * 6144, Ghost(s), Ghost(m), Ghost(3));
        let k = part(gpu, rng, n * 1024, Ghost(s), Ghost(m), Ghost(4));
        let h2 = part(gpu, rng, n * 5120, Ghost(s), Ghost(m), Ghost(5));
        let inner2 = part(gpu, rng, n * 17408, Ghost(s), Ghost(m), Ghost(6));
        let v2 = part(gpu, rng, n * 6144, Ghost(s), Ghost(m), Ghost(7));
        let signs_h = part(gpu, rng, 5120, Ghost(s), Ghost(m), Ghost(8));
        let signs_inner = part(gpu, rng, 17408, Ghost(s), Ghost(m), Ghost(9));
        let signs_v = part(gpu, rng, 6144, Ghost(s), Ghost(m), Ghost(10));
        let norm_h = part(gpu, rng, 5120, Ghost(s), Ghost(m), Ghost(11));
        let norm_head = part(gpu, rng, 256, Ghost(s), Ghost(m), Ghost(12));
        let norm_state = part(gpu, rng, 128, Ghost(s), Ghost(m), Ghost(13));
        let out_h = gpu.alloc_buffer(n * 5120);
        let keys = part(gpu, rng, n * 2048, Ghost(s), Ghost(m), Ghost(14));
        let table = part(gpu, rng, (1024 + n) * 64, Ghost(s), Ghost(m), Ghost(15));
        let k_cache = cache_part(gpu, rng, (1024 + n) * 1024, Ghost(s), Ghost(m), Ghost(16));
        let v_cache = cache_part(gpu, rng, (1024 + n) * 1024, Ghost(s), Ghost(m), Ghost(17));
        let att = gpu.alloc_buffer(n * 6144);
        let k_long = cache_part(gpu, rng, (4096 + n) * 1024, Ghost(s), Ghost(m), Ghost(18));
        let v_long = cache_part(gpu, rng, (4096 + n) * 1024, Ghost(s), Ghost(m), Ghost(19));
        let conv_q = gpu.alloc_buffer(n * 2048);
        let conv_k = gpu.alloc_buffer(n * 2048);
        let conv_v = gpu.alloc_buffer(n * 6144);
        let conv_x = part(gpu, rng, n * 10240, Ghost(s), Ghost(m), Ghost(20));
        let conv_state = part(gpu, rng, 30_720, Ghost(s), Ghost(m), Ghost(21));
        let conv_weight = part(gpu, rng, 40_960, Ghost(s), Ghost(m), Ghost(22));
        let conv_out = gpu.alloc_buffer(30_720);
        let gates = part(gpu, rng, n * 96, Ghost(s), Ghost(m), Ghost(23));
        let data = rng.decay(48);
        assert(rng.state == drawn_from(s, m, 25)) by {
            reveal(drawn_from);
        }
        let decay = buffer(gpu, data.as_slice());
        let state = part(gpu, rng, 786_432, Ghost(s), Ghost(m), Ghost(25));
        let out_v = gpu.alloc_buffer(n * 6144);
        let mut shape: Vec<usize> = Vec::new();
        shape.push(96);
        shape.push(5120);
        let halves = rng.bf16(491_520);
        assert(rng.state == drawn_from(s, m, 27)) by {
            reveal(drawn_from);
        }
        let ab = gpu.upload(Tensor::Bf16 { shape, data: halves });
        let out_ab = gpu.alloc_buffer(n * 96);
        Bench {
            n,
            sync,
            h,
            inner,
            q,
            v,
            k,
            h2,
            inner2,
            v2,
            signs_h,
            signs_inner,
            signs_v,
            norm_h,
            norm_head,
            norm_state,
            out_h,
            keys,
            table,
            k_cache,
            v_cache,
            att,
            k_long,
            v_long,
            conv_q,
            conv_k,
            conv_v,
            conv_x,
            conv_state,
            conv_weight,
            conv_out,
            gates,
            decay,
            state,
            out_v,
            ab,
            out_ab,
        }
    }

    /// Whether an operation has been run: what it gives holds what the device
    /// makes of what it takes, and everything else is as it was.
    pub open spec fn has_run(&self, before: &Self, gpu: &D, op: Op) -> bool {
        let b = before;
        match op {
            Op::NormRotate => {
                &&& *self == (Bench { out_h: self.out_h, ..*b })
                &&& D::data(&self.out_h) == gpu.norm_turned(
                    D::data(&b.h),
                    D::data(&b.norm_h),
                    D::data(&b.signs_h),
                    EPS,
                )
            },
            Op::TurnValues => {
                &&& *self == (Bench { v: self.v, ..*b })
                &&& D::data(&self.v) == gpu.turned(D::data(&b.v), D::data(&b.signs_v), false)
            },
            Op::TurnInner => {
                &&& *self == (Bench { inner: self.inner, ..*b })
                &&& D::data(&self.inner) == gpu.turned(
                    D::data(&b.inner),
                    D::data(&b.signs_inner),
                    false,
                )
            },
            Op::NormHidden => {
                &&& *self == (Bench { h: self.h, ..*b })
                &&& D::data(&self.h) == gpu.rms(D::data(&b.h), D::data(&b.norm_h), EPS)
            },
            Op::NormQueries => {
                &&& *self == (Bench { q: self.q, ..*b })
                &&& D::data(&self.q) == gpu.rms(D::data(&b.q), D::data(&b.norm_head), EPS)
            },
            Op::NormKeys => {
                &&& *self == (Bench { k: self.k, ..*b })
                &&& D::data(&self.k) == gpu.rms(D::data(&b.k), D::data(&b.norm_head), EPS)
            },
            Op::NormValues => {
                &&& *self == (Bench { v: self.v, ..*b })
                &&& D::data(&self.v) == gpu.rms(D::data(&b.v), D::data(&b.norm_state), EPS)
            },
            Op::Add => {
                &&& *self == (Bench { h: self.h, ..*b })
                &&& D::data(&self.h) == gpu.sum(D::data(&b.h), D::data(&b.h2))
            },
            Op::Copy => {
                &&& *self == (Bench { h: self.h, ..*b })
                &&& D::data(&self.h) == D::data(&b.h2)
            },
            Op::SiluInner => {
                &&& *self == (Bench { inner: self.inner, ..*b })
                &&& D::data(&self.inner) == gpu.silu(D::data(&b.inner), D::data(&b.inner2))
            },
            Op::SiluValues => {
                &&& *self == (Bench { v: self.v, ..*b })
                &&& D::data(&self.v) == gpu.silu(D::data(&b.v), D::data(&b.v2))
            },
            Op::Sigmoid => {
                &&& *self == (Bench { q: self.q, ..*b })
                &&& D::data(&self.q) == gpu.sigmoid(D::data(&b.q), D::data(&b.v2))
            },
            Op::Shorten => {
                &&& *self == (Bench { keys: self.keys, ..*b })
                &&& D::data(&self.keys) == gpu.l2(D::data(&b.keys), 128, EPS)
            },
            Op::RopeQueries => {
                &&& *self == (Bench { q: self.q, ..*b })
                &&& D::data(&self.q) == gpu.roped(
                    D::data(&b.q),
                    D::data(&b.table),
                    500,
                    24,
                    256,
                    64,
                )
            },
            Op::RopeKeys => {
                &&& *self == (Bench { k: self.k, ..*b })
                &&& D::data(&self.k) == gpu.roped(
                    D::data(&b.k),
                    D::data(&b.table),
                    500,
                    4,
                    256,
                    64,
                )
            },
            Op::Store => {
                &&& *self == (Bench { k_cache: self.k_cache, ..*b })
                &&& D::cached(&self.k_cache) == splice(
                    D::cached(&b.k_cache),
                    512_000,
                    D::data(&b.k).map_values(|x: u32| gpu.half(x)),
                )
            },
            Op::Attend => {
                &&& *self == (Bench { att: self.att, ..*b })
                &&& D::data(&self.att) == gpu.attended(
                    D::data(&b.q),
                    D::cached(&b.k_cache).take((1023 + b.n) * 1024),
                    D::cached(&b.v_cache).take((1023 + b.n) * 1024),
                    1023,
                    24,
                    256,
                    4,
                )
            },
            Op::AttendLong => {
                &&& *self == (Bench { att: self.att, ..*b })
                &&& D::data(&self.att) == gpu.attended(
                    D::data(&b.q),
                    D::cached(&b.k_long).take((4095 + b.n) * 1024),
                    D::cached(&b.v_long).take((4095 + b.n) * 1024),
                    4095,
                    24,
                    256,
                    4,
                )
            },
            Op::Convolve => {
                &&& *self == (Bench {
                    conv_q: self.conv_q,
                    conv_k: self.conv_k,
                    conv_v: self.conv_v,
                    conv_out: self.conv_out,
                    ..*b
                })
                &&& (
                    D::data(&self.conv_q),
                    D::data(&self.conv_k),
                    D::data(&self.conv_v),
                    D::data(&self.conv_out),
                ) == gpu.convolved(
                    D::data(&b.conv_x),
                    D::data(&b.conv_state),
                    D::data(&b.conv_weight),
                    b.n as nat * 2048,
                    b.n as nat * 2048,
                )
            },
            Op::Recur => {
                &&& *self == (Bench { out_v: self.out_v, state: self.state, ..*b })
                &&& (D::data(&self.out_v), D::data(&self.state)) == gpu.delta(
                    D::data(&b.conv_q),
                    D::data(&b.conv_k),
                    D::data(&b.conv_v),
                    D::data(&b.gates),
                    D::data(&b.decay),
                    D::data(&b.state),
                    16,
                    48,
                    128,
                )
            },
            Op::Gates => {
                &&& *self == (Bench { out_ab: self.out_ab, ..*b })
                &&& D::data(&self.out_ab) == gpu.dot(D::matrix(&b.ab), D::data(&b.h))
            },
        }
    }

    /// Runs an operation.
    #[verifier::rlimit(30)]
    fn run(&mut self, gpu: &D, op: Op)
        requires
            old(self).wf(),
        ensures
            final(self).wf(),
            final(self).has_run(old(self), gpu, op),
    {
        let n: usize = self.n;
        proof {
            lemma_multiple(n as int, 5120);
            lemma_multiple(n as int, 17408);
            lemma_multiple(n as int, 6144);
            lemma_multiple(n as int, 10240);
            lemma_multiple(24 * n as int, 256);
            lemma_multiple(4 * n as int, 256);
            lemma_multiple(48 * n as int, 128);
            lemma_multiple(16 * n as int, 128);
            lemma_multiple(n as int, 1024);
            lemma_multiple(2048, n as int);
            lemma_multiple(6144, n as int);
            let tokens = D::data(&self.q).len() / ((24usize * 256usize) as nat);
            assert(tokens == n);
            assert(4usize * 256usize == 1024);
            assert((1023 + tokens) * (4usize * 256usize) <= (1024 + n) * 1024);
            assert((4095 + tokens) * (4usize * 256usize) <= (4096 + n) * 1024);
            let h2 = D::data(&self.h2);
            assert(splice(D::data(&self.h), 0, h2.subrange(0, n * 5120)) =~= h2);
        }
        match op {
            Op::NormRotate => gpu.norm_rotate(
                &mut self.out_h,
                &self.h,
                &self.norm_h,
                &self.signs_h,
                EPS,
            ),
            Op::TurnValues => gpu.hadamard(&mut self.v, &self.signs_v, false),
            Op::TurnInner => gpu.hadamard(&mut self.inner, &self.signs_inner, false),
            Op::NormHidden => gpu.rmsnorm(&mut self.h, &self.norm_h, EPS),
            Op::NormQueries => gpu.rmsnorm(&mut self.q, &self.norm_head, EPS),
            Op::NormKeys => gpu.rmsnorm(&mut self.k, &self.norm_head, EPS),
            Op::NormValues => gpu.rmsnorm(&mut self.v, &self.norm_state, EPS),
            Op::Add => gpu.add(&mut self.h, &self.h2),
            Op::Copy => gpu.copy(&mut self.h, 0, &self.h2, 0, n * 5120),
            Op::SiluInner => gpu.silu_mul(&mut self.inner, &self.inner2),
            Op::SiluValues => gpu.silu_mul(&mut self.v, &self.v2),
            Op::Sigmoid => gpu.sigmoid_mul(&mut self.q, &self.v2),
            Op::Shorten => gpu.l2norm(&mut self.keys, 128, EPS),
            Op::RopeQueries => gpu.rope(&mut self.q, &self.table, 500, 24, 256, 64),
            Op::RopeKeys => gpu.rope(&mut self.k, &self.table, 500, 4, 256, 64),
            Op::Store => gpu.store(&mut self.k_cache, 512_000, &self.k),
            Op::Attend => gpu.attention(
                &mut self.att,
                &self.q,
                &self.k_cache,
                &self.v_cache,
                1023,
                24,
                256,
                4,
            ),
            Op::AttendLong => gpu.attention(
                &mut self.att,
                &self.q,
                &self.k_long,
                &self.v_long,
                4095,
                24,
                256,
                4,
            ),
            Op::Convolve => gpu.conv(
                &mut self.conv_q,
                &mut self.conv_k,
                &mut self.conv_v,
                &mut self.conv_out,
                &self.conv_x,
                &self.conv_state,
                &self.conv_weight,
            ),
            Op::Recur => gpu.delta_net(
                &mut self.out_v,
                &self.conv_q,
                &self.conv_k,
                &self.conv_v,
                &self.gates,
                &self.decay,
                &mut self.state,
                16,
                48,
                128,
            ),
            Op::Gates => gpu.matmul(&mut self.out_ab, &self.ab, &self.h),
        }
    }
}

/// A buffer of numbers drawn.
fn drawn<D: Device>(gpu: &D, rng: &mut Rng, len: usize) -> (b: D::Buffer)
    ensures
        D::data(&b) == values(old(rng).state, len as nat),
        final(rng).state == after(old(rng).state, len as nat),
{
    let data = rng.floats(len);
    buffer(gpu, data.as_slice())
}

/// A part of a bench: a buffer of numbers drawn.
fn part<D: Device>(
    gpu: &D,
    rng: &mut Rng,
    len: usize,
    Ghost(s): Ghost<u64>,
    Ghost(n): Ghost<nat>,
    Ghost(i): Ghost<int>,
) -> (b: D::Buffer)
    requires
        i >= 0,
        size_drawn(n, i) == len,
        old(rng).state == drawn_from(s, n, i),
    ensures
        D::data(&b) == part_drawn(s, n, i),
        D::data(&b).len() == len,
        final(rng).state == drawn_from(s, n, i + 1),
{
    reveal(drawn_from);
    reveal(part_drawn);
    drawn(gpu, rng, len)
}

/// A part of a bench: a cache of numbers drawn.
fn cache_part<D: Device>(
    gpu: &D,
    rng: &mut Rng,
    len: usize,
    Ghost(s): Ghost<u64>,
    Ghost(n): Ghost<nat>,
    Ghost(i): Ghost<int>,
) -> (c: D::Cache)
    requires
        i >= 0,
        size_drawn(n, i) == len,
        old(rng).state == drawn_from(s, n, i),
    ensures
        D::cached(&c) == halved(gpu, part_drawn(s, n, i)),
        D::cached(&c).len() == len,
        final(rng).state == drawn_from(s, n, i + 1),
{
    reveal(drawn_from);
    reveal(part_drawn);
    reveal(halved);
    let data = rng.floats(len);
    cache(gpu, data.as_slice(), 0)
}

/// How many runs an operation on a batch of `n` tokens is timed over.
pub open spec fn runs_of(n: int) -> int {
    most(500int / n, 20)
}

/// How many runs an operation on a batch of `n` tokens takes in all, those
/// before the clocks are up included.
pub open spec fn all_runs(n: int) -> nat {
    (most(200int / n, 20) + runs_of(n)) as nat
}

/// The ternary products that are timed behind the operations: their rows and
/// columns, and how often a batch makes them.
pub open spec fn shapes() -> Seq<(usize, usize, usize)> {
    seq![(5120, 17408, 64), (6144, 5120, 80), (10240, 5120, 48), (1024, 5120, 32)]
}

/// The name that a ternary product goes by.
pub open spec fn product_name(rows: usize, cols: usize) -> Seq<char> {
    "matmul "@ + digits(rows as nat) + "x"@ + digits(cols as nat)
}

/// The kernels that are timed for a batch of `n` tokens, with how often the
/// batch calls them, and how many runs each is timed over.
pub open spec fn kernels_timed(n: int) -> Seq<(Seq<char>, int, int)> {
    Seq::new(21, |i: int| (ops()[i].label().0, ops()[i].label().1, runs_of(n))) + Seq::new(
        4,
        |i: int|
            {
                let (rows, cols, calls) = shapes()[i];
                (product_name(rows, cols), calls as int, runs_of(n))
            },
    )
}

/// The state that a ternary product's matrix is drawn from.
pub open spec fn product_from(n: nat, i: int) -> u64
    decreases i,
{
    if i <= 0 {
        drawn_from(23, n, 27)
    } else {
        let (rows, cols, _) = shapes()[i - 1];
        after(after(product_from(n, i - 1), rows as nat * cols as nat), n * cols as nat)
    }
}

/// Whether a ternary product of what was drawn from a state has been made for a
/// batch of `n` tokens as often as it is timed.
pub open spec fn multiplied_from<D: Device>(gpu: &D, s: u64, n: nat, rows: nat, cols: nat) -> bool {
    made_times(
        gpu,
        ternary(rows, cols, rows_drawn(gpu, s, rows, cols)),
        values(after(s, rows * cols), n * cols),
        all_runs(n as int),
    )
}

/// Whether the ternary product that is timed in place `i` has been made as
/// often as it is timed.
pub open spec fn product_made<D: Device>(gpu: &D, n: nat, i: int) -> bool {
    let (rows, cols, _) = shapes()[i];
    multiplied_from(gpu, product_from(n, i), n, rows as nat, cols as nat)
}

/// Whether each of some benches but the first is the one before it once an
/// operation has been run on it.
pub open spec fn each_run<D: Device>(benches: Seq<Bench<D>>, gpu: &D, op: Op) -> bool {
    forall|i: int|
        0 <= i < benches.len() - 1 ==> (#[trigger] benches[i + 1]).has_run(&benches[i], gpu, op)
}

impl<D: Device> Bench<D> {
    /// Whether an operation has been run `k` times.
    pub open spec fn has_run_times(&self, before: &Self, gpu: &D, op: Op, k: nat) -> bool {
        exists|benches: Seq<Self>| #[trigger]
            each_run(benches, gpu, op) && benches.len() == k + 1 && benches[0] == *before
                && benches[k as int] == *self
    }

    /// Times an operation, once it has run often enough for the clocks to be
    /// up, and notes how long it took under its name.
    fn time(&mut self, gpu: &D, op: Op, list: &mut Vec<Timing>)
        requires
            old(self).wf(),
        ensures
            final(self).wf(),
            final(self).n == old(self).n,
            final(self).has_run_times(old(self), gpu, op, all_runs(old(self).n as int)),
            timed(final(list)@) == timed(old(list)@).push(
                (op.label().0, op.label().1, runs_of(old(self).n as int)),
            ),
    {
        let n: usize = self.n;
        let ghost mut benches = seq![*self];
        let warm: usize = greater(200 / n, 20);
        for i in 0..warm
            invariant
                self.wf(),
                self.n == n,
                each_run(benches, gpu, op),
                benches.len() == i + 1,
                benches[0] == *old(self),
                benches[i as int] == *self,
        {
            self.run(gpu, op);
            proof {
                benches = benches.push(*self);
            }
        }
        let _ = gpu.read(&self.sync);
        let runs: usize = greater(500 / n, 20);
        let start = now();
        for i in 0..runs
            invariant
                self.wf(),
                self.n == n,
                each_run(benches, gpu, op),
                benches.len() == warm + i + 1,
                benches[0] == *old(self),
                benches[warm + i] == *self,
        {
            self.run(gpu, op);
            proof {
                benches = benches.push(*self);
            }
        }
        let _ = gpu.read(&self.sync);
        let nanos: u64 = nanos_since(&start);
        let (name, calls): (&str, usize) = op.named();
        note(list, name, calls, runs, nanos);
    }
}

/// Whether operations have been timed on benches: the first is of what was
/// drawn, and each other is the one before it once an operation has been run
/// on it as often as it is timed.
pub open spec fn benched<D: Device>(gpu: &D, n: int, benches: Seq<Bench<D>>) -> bool {
    &&& benches.len() == 22
    &&& benches[0].n == n
    &&& benches[0].fresh(gpu, 23)
    &&& forall|i: int|
        0 <= i < 21 ==> (#[trigger] benches[i + 1]).has_run_times(
            &benches[i],
            gpu,
            ops()[i],
            all_runs(n),
        )
}

/// Times a ternary product for a batch of `n` tokens, and notes how long it
/// took.
fn time_ternary<D: Device>(
    gpu: &D,
    rng: &mut Rng,
    n: usize,
    rows: usize,
    cols: usize,
    calls: usize,
    list: &mut Vec<Timing>,
)
    requires
        n > 0,
        0 < rows <= 17408,
        0 < cols <= 17408,
        n * 17408 <= usize::MAX,
    ensures
        timed(final(list)@) == timed(old(list)@).push(
            (product_name(rows, cols), calls as int, runs_of(n as int)),
        ),
        multiplied_from(gpu, old(rng).state, n as nat, rows as nat, cols as nat),
        final(rng).state == after(
            after(old(rng).state, rows as nat * cols as nat),
            n as nat * cols as nat,
        ),
{
    proof {
        assert(n * rows <= n * 17408) by (nonlinear_arith)
            requires
                rows <= 17408,
        ;
        assert(n * cols <= n * 17408) by (nonlinear_arith)
            requires
                cols <= 17408,
        ;
        lemma_multiple(n as int, cols as int);
    }
    let (tensor, _): (Tensor, usize) = draw_ternary(gpu, rng, rows, cols);
    let weight = gpu.upload(tensor);
    let x = drawn(gpu, rng, n * cols);
    let mut out = gpu.alloc_buffer(n * rows);
    let runs: usize = greater(500 / n, 20);
    let nanos: u64 = time_product(gpu, &weight, &x, &mut out, greater(200 / n, 20), runs);
    let mut name = own("matmul ");
    push_decimal(&mut name, rows as u64);
    name.append("x");
    push_decimal(&mut name, cols as u64);
    note(list, &name, calls, runs, nanos);
}

/// Times every kernel at the model's shapes for a batch of `n` tokens, the
/// ternary matmuls other than the largest included.
pub fn kernel_speed<D: Device>(gpu: &D, n: usize) -> (list: Vec<Timing>)
    requires
        n > 0,
        n * 17408 <= usize::MAX,
    ensures
        timed(list@) == kernels_timed(n as int),
        exists|benches: Seq<Bench<D>>| #[trigger] benched(gpu, n as int, benches),
        forall|i: int| 0 <= i < 4 ==> #[trigger] product_made(gpu, n as nat, i),
{
    let ghost want = kernels_timed(n as int);
    let mut rng = Rng { state: 23 };
    let mut list: Vec<Timing> = Vec::new();
    assert(timed(list@) =~= want.take(0));
    let mut b = Bench::new(gpu, &mut rng, n);
    let ghost mut benches = seq![b];
    let order: [Op; 21] = [
        Op::NormRotate,
        Op::TurnValues,
        Op::TurnInner,
        Op::NormHidden,
        Op::NormQueries,
        Op::NormKeys,
        Op::NormValues,
        Op::Add,
        Op::Copy,
        Op::SiluInner,
        Op::SiluValues,
        Op::Sigmoid,
        Op::Shorten,
        Op::RopeQueries,
        Op::RopeKeys,
        Op::Store,
        Op::Attend,
        Op::AttendLong,
        Op::Convolve,
        Op::Recur,
        Op::Gates,
    ];
    assert(order@ =~= ops());
    let mut i: usize = 0;
    while i < 21
        invariant
            i <= 21,
            order@ == ops(),
            want == kernels_timed(n as int),
            b.wf(),
            b.n == n,
            benches.len() == i + 1,
            benches[i as int] == b,
            benches[0].n == n,
            benches[0].fresh(gpu, 23),
            forall|j: int|
                0 <= j < i ==> (#[trigger] benches[j + 1]).has_run_times(
                    &benches[j],
                    gpu,
                    ops()[j],
                    all_runs(n as int),
                ),
            timed(list@) == want.take(i as int),
        decreases 21 - i,
    {
        let ghost before = b;
        b.time(gpu, order[i], &mut list);
        proof {
            let old_benches = benches;
            benches = benches.push(b);
            assert forall|j: int| 0 <= j < i + 1 implies (#[trigger] benches[j
                + 1]).has_run_times(&benches[j], gpu, ops()[j], all_runs(n as int)) by {
                if j < i {
                    assert(benches[j + 1] == old_benches[j + 1]);
                    assert(benches[j] == old_benches[j]);
                } else {
                    assert(benches[j] == before);
                    assert(benches[j + 1] == b);
                }
            }
            assert(want.take(i + 1) =~= want.take(i as int).push(want[i as int]));
        }
        i = i + 1;
    }
    assert(benched(gpu, n as int, benches));
    let sizes: [(usize, usize, usize); 4] = [
        (5120, 17408, 64),
        (6144, 5120, 80),
        (10240, 5120, 48),
        (1024, 5120, 32),
    ];
    assert(sizes@ =~= shapes());
    let mut j: usize = 0;
    while j < 4
        invariant
            j <= 4,
            n > 0,
            n * 17408 <= usize::MAX,
            sizes@ == shapes(),
            want == kernels_timed(n as int),
            rng.state == product_from(n as nat, j as int),
            timed(list@) == want.take(21 + j),
            forall|k: int| 0 <= k < j ==> #[trigger] product_made(gpu, n as nat, k),
        decreases 4 - j,
    {
        let (rows, cols, calls): (usize, usize, usize) = sizes[j];
        assert(0 < rows <= 17408 && 0 < cols <= 17408) by {
            assert((rows, cols, calls) == shapes()[j as int]);
        }
        time_ternary(gpu, &mut rng, n, rows, cols, calls, &mut list);
        proof {
            assert((rows, cols, calls) == shapes()[j as int]);
            assert(product_made(gpu, n as nat, j as int));
            assert(product_from(n as nat, j + 1) == rng.state);
            assert(want.take(22 + j) =~= want.take(21 + j).push(want[21 + j]));
        }
        j = j + 1;
    }
    assert(want.take(25) =~= want);
    list
}

} // verus!
