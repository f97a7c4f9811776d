//! What a device has to do for the model to run on it. Activations are given
//! as the bits of floating-point numbers.
use vstd::prelude::*;

use crate::tensor::Tensor;

verus! {

/// Taps of the convolution of a linear layer.
pub const CONV_KERNEL: usize = 4;

/// The weights of a matrix, row by row.
pub ghost enum Weights {
    Bf16(Seq<u16>),
    Ternary(Seq<u8>),
}

/// A matrix.
pub ghost struct Mat {
    pub rows: nat,
    pub cols: nat,
    pub weights: Weights,
}

/// What a tensor of two dimensions is as a matrix.
pub open spec fn mat_of(t: Tensor) -> Mat {
    match t {
        Tensor::Bf16 { shape, data } => Mat {
            rows: shape@[0] as nat,
            cols: shape@[1] as nat,
            weights: Weights::Bf16(data@),
        },
        Tensor::Ternary { shape, data } => Mat {
            rows: shape@[0] as nat,
            cols: shape@[1] as nat,
            weights: Weights::Ternary(data@),
        },
    }
}

/// Whether a tensor has two dimensions.
pub open spec fn is_matrix(t: Tensor) -> bool {
    match t {
        Tensor::Bf16 { shape, .. } => shape@.len() == 2,
        Tensor::Ternary { shape, .. } => shape@.len() == 2,
    }
}

/// `n` zeros.
pub open spec fn zeros(n: nat) -> Seq<u32> {
    Seq::new(n, |i: int| 0u32)
}

/// A sequence with another in place of some of it.
pub open spec fn splice<T>(s: Seq<T>, at: int, t: Seq<T>) -> Seq<T> {
    Seq::new(
        s.len(),
        |i: int|
            if at <= i < at + t.len() {
                t[i - at]
            } else {
                s[i]
            },
    )
}

/// A device that the model runs on: memory for activations, weights and
/// caches, and the operations on them. What an operation computes is a
/// function of what its operands hold; how exactly is the device's own, and so
/// are the values of the functions that stand for it: an ordinary
/// implementation leaves them unsaid.
pub trait Device: Sized {
    /// A vector of activations in the device's memory.
    type Buffer;

    /// A weight matrix in the device's memory.
    type Weight;

    /// A cache of activations in half precision in the device's memory.
    type Cache;

    /// The activations that a buffer holds.
    closed spec fn data(b: &Self::Buffer) -> Seq<u32> {
        arbitrary()
    }

    /// The most activations that a buffer can hold.
    closed spec fn cap(b: &Self::Buffer) -> nat {
        arbitrary()
    }

    /// The matrix that a weight is.
    closed spec fn matrix(w: &Self::Weight) -> Mat {
        arbitrary()
    }

    /// The halves that a cache holds.
    closed spec fn cached(c: &Self::Cache) -> Seq<u16> {
        arbitrary()
    }

    /// What the rows of a matrix make of each vector.
    closed spec fn dot(&self, m: Mat, x: Seq<u32>) -> Seq<u32> {
        arbitrary()
    }

    /// Two vectors added.
    closed spec fn sum(&self, x: Seq<u32>, y: Seq<u32>) -> Seq<u32> {
        arbitrary()
    }

    /// Vectors normalized by their root mean square, and weighted.
    closed spec fn rms(&self, x: Seq<u32>, weight: Seq<u32>, eps: u32) -> Seq<u32> {
        arbitrary()
    }

    /// Vectors of a dimension normalized by their length.
    closed spec fn l2(&self, x: Seq<u32>, dim: nat, eps: u32) -> Seq<u32> {
        arbitrary()
    }

    /// Heads rotated by their position.
    closed spec fn roped(
        &self,
        x: Seq<u32>,
        table: Seq<u32>,
        pos: nat,
        heads: nat,
        head_dim: nat,
        rot_dim: nat,
    ) -> Seq<u32> {
        arbitrary()
    }

    /// What queries make of the keys and values up to their positions.
    closed spec fn attended(
        &self,
        q: Seq<u32>,
        k: Seq<u16>,
        v: Seq<u16>,
        pos: nat,
        heads: nat,
        head_dim: nat,
        kv_heads: nat,
    ) -> Seq<u32> {
        arbitrary()
    }

    /// One vector through the SiLU, times another.
    closed spec fn silu(&self, gate: Seq<u32>, up: Seq<u32>) -> Seq<u32> {
        arbitrary()
    }

    /// One vector times the sigmoid of another.
    closed spec fn sigmoid(&self, x: Seq<u32>, gate: Seq<u32>) -> Seq<u32> {
        arbitrary()
    }

    /// Vectors through the blockwise Hadamard transform with signs, or back.
    closed spec fn turned(&self, x: Seq<u32>, signs: Seq<u32>, inverse: bool) -> Seq<u32> {
        arbitrary()
    }

    /// Vectors normalized by their root mean square, weighted, and turned.
    closed spec fn norm_turned(&self, x: Seq<u32>, weight: Seq<u32>, signs: Seq<u32>, eps: u32) -> Seq<u32> {
        arbitrary()
    }

    /// The queries, keys and values that a causal convolution makes, and the
    /// tokens that it leaves for the next batch.
    closed spec fn convolved(
        &self,
        x: Seq<u32>,
        state: Seq<u32>,
        weight: Seq<u32>,
        q_dim: nat,
        k_dim: nat,
    ) -> (Seq<u32>, Seq<u32>, Seq<u32>, Seq<u32>) {
        arbitrary()
    }

    /// What linear attention makes, and the recurrent state that it leaves. A
    /// token's gates are what its state decays by, a value head after another,
    /// and then how strongly it is written, in the same order; the decay's rate
    /// for each value head comes before its bias for each.
    closed spec fn delta(
        &self,
        q: Seq<u32>,
        k: Seq<u32>,
        v: Seq<u32>,
        gates: Seq<u32>,
        decay: Seq<u32>,
        state: Seq<u32>,
        k_heads: nat,
        v_heads: nat,
        head_dim: nat,
    ) -> (Seq<u32>, Seq<u32>) {
        arbitrary()
    }

    /// An activation in half precision.
    closed spec fn half(&self, x: u32) -> u16 {
        arbitrary()
    }

    /// An activation rounded to half precision and back.
    closed spec fn through_half(&self, x: u32) -> u32 {
        arbitrary()
    }

    /// The activations that a row of ternary weights stands for.
    closed spec fn unpacked(&self, row: Seq<u8>, width: nat) -> Seq<u32> {
        arbitrary()
    }

    /// The ternary weights nearest to a row of activations.
    closed spec fn packed(&self, values: Seq<u32>) -> Seq<u8> {
        arbitrary()
    }

    /// Copies a matrix to the device.
    fn upload(&self, tensor: Tensor) -> (w: Self::Weight)
        requires
            is_matrix(tensor),
        ensures
            Self::matrix(&w) == mat_of(tensor),
    ;

    /// A buffer of `len` zeros.
    fn alloc_buffer(&self, len: usize) -> (b: Self::Buffer)
        ensures
            Self::data(&b) == zeros(len as nat),
            Self::cap(&b) == len,
    ;

    /// A cache of `len` zeros.
    fn alloc_cache(&self, len: usize) -> (c: Self::Cache)
        ensures
            Self::cached(&c) == Seq::new(len as nat, |i: int| 0u16),
    ;

    /// Has a buffer hold `len` activations, the first of them what they were.
    fn resize(&self, buf: &mut Self::Buffer, len: usize)
        requires
            len <= Self::cap(old(buf)),
        ensures
            Self::cap(final(buf)) == Self::cap(old(buf)),
            Self::data(final(buf)).len() == len,
            forall|i: int|
                0 <= i < len && i < Self::data(old(buf)).len() ==> #[trigger] Self::data(
                    final(buf),
                )[i] == Self::data(old(buf))[i],
    ;

    /// What a buffer holds.
    fn read(&self, buf: &Self::Buffer) -> (out: Vec<u32>)
        ensures
            out@ == Self::data(buf),
    ;

    /// Has a buffer hold `data`.
    fn write(&self, buf: &mut Self::Buffer, data: &[u32])
        requires
            Self::data(old(buf)).len() == data@.len(),
        ensures
            Self::cap(final(buf)) == Self::cap(old(buf)),
            Self::data(final(buf)) == data@,
    ;

    /// Copies a range of one buffer into another.
    fn copy(
        &self,
        dst: &mut Self::Buffer,
        dst_offset: usize,
        src: &Self::Buffer,
        src_offset: usize,
        len: usize,
    )
        requires
            dst_offset + len <= Self::data(old(dst)).len(),
            src_offset + len <= Self::data(src).len(),
        ensures
            Self::cap(final(dst)) == Self::cap(old(dst)),
            Self::data(final(dst)) == splice(
                Self::data(old(dst)),
                dst_offset as int,
                Self::data(src).subrange(src_offset as int, src_offset + len),
            ),
    ;

    /// Stores activations in a cache, rounded to half precision.
    fn store(&self, cache: &mut Self::Cache, offset: usize, src: &Self::Buffer)
        requires
            offset + Self::data(src).len() <= Self::cached(old(cache)).len(),
        ensures
            Self::cached(final(cache)) == splice(
                Self::cached(old(cache)),
                offset as int,
                Self::data(src).map_values(|x: u32| self.half(x)),
            ),
    ;

    /// The first `len` halves of a cache.
    fn read_cache(&self, cache: &Self::Cache, len: usize) -> (out: Vec<u16>)
        requires
            len <= Self::cached(cache).len(),
        ensures
            out@ == Self::cached(cache).take(len as int),
    ;

    /// Has a cache start with `data`.
    fn write_cache(&self, cache: &mut Self::Cache, data: &[u16])
        requires
            data@.len() <= Self::cached(old(cache)).len(),
        ensures
            Self::cached(final(cache)) == splice(Self::cached(old(cache)), 0, data@),
    ;

    /// Multiplies each vector of `x` by a matrix.
    fn matmul(&self, out: &mut Self::Buffer, w: &Self::Weight, x: &Self::Buffer)
        requires
            Self::matrix(w).cols > 0,
            Self::data(x).len() % Self::matrix(w).cols == 0,
            Self::data(old(out)).len() == Self::data(x).len() / Self::matrix(w).cols
                * Self::matrix(w).rows,
        ensures
            Self::cap(final(out)) == Self::cap(old(out)),
            Self::data(final(out)).len() == Self::data(old(out)).len(),
            Self::data(final(out)) == self.dot(Self::matrix(w), Self::data(x)),
    ;

    /// Adds one vector to another.
    fn add(&self, x: &mut Self::Buffer, y: &Self::Buffer)
        requires
            Self::data(old(x)).len() == Self::data(y).len(),
        ensures
            Self::cap(final(x)) == Self::cap(old(x)),
            Self::data(final(x)).len() == Self::data(old(x)).len(),
            Self::data(final(x)) == self.sum(Self::data(old(x)), Self::data(y)),
    ;

    /// Normalizes vectors of the weight's length by their root mean square.
    fn rmsnorm(&self, x: &mut Self::Buffer, weight: &Self::Buffer, eps: u32)
        requires
            Self::data(weight).len() > 0,
            Self::data(old(x)).len() % Self::data(weight).len() == 0,
        ensures
            Self::cap(final(x)) == Self::cap(old(x)),
            Self::data(final(x)).len() == Self::data(old(x)).len(),
            Self::data(final(x)) == self.rms(Self::data(old(x)), Self::data(weight), eps),
    ;

    /// Normalizes vectors of a dimension by their length.
    fn l2norm(&self, x: &mut Self::Buffer, dim: usize, eps: u32)
        requires
            dim > 0,
            Self::data(old(x)).len() % (dim as nat) == 0,
        ensures
            Self::cap(final(x)) == Self::cap(old(x)),
            Self::data(final(x)).len() == Self::data(old(x)).len(),
            Self::data(final(x)) == self.l2(Self::data(old(x)), dim as nat, eps),
    ;

    /// Rotates the heads of tokens from a position on.
    fn rope(
        &self,
        x: &mut Self::Buffer,
        table: &Self::Buffer,
        pos: usize,
        n_heads: usize,
        head_dim: usize,
        rot_dim: usize,
    )
        requires
            n_heads * head_dim > 0,
            Self::data(old(x)).len() % ((n_heads * head_dim) as nat) == 0,
            rot_dim <= head_dim,
            rot_dim % 2 == 0,
            (pos + Self::data(old(x)).len() / ((n_heads * head_dim) as nat)) * rot_dim
                <= Self::data(table).len(),
        ensures
            Self::cap(final(x)) == Self::cap(old(x)),
            Self::data(final(x)).len() == Self::data(old(x)).len(),
            Self::data(final(x)) == self.roped(
                Self::data(old(x)),
                Self::data(table),
                pos as nat,
                n_heads as nat,
                head_dim as nat,
                rot_dim as nat,
            ),
    ;

    /// Attends over the positions up to each token's, of which there are
    /// caches.
    fn attention(
        &self,
        out: &mut Self::Buffer,
        q: &Self::Buffer,
        k_cache: &Self::Cache,
        v_cache: &Self::Cache,
        pos: usize,
        n_heads: usize,
        head_dim: usize,
        n_kv_heads: usize,
    )
        requires
            n_heads * head_dim > 0,
            n_kv_heads > 0,
            Self::data(q).len() % ((n_heads * head_dim) as nat) == 0,
            Self::data(old(out)).len() == Self::data(q).len(),
            (pos + Self::data(q).len() / ((n_heads * head_dim) as nat)) * (n_kv_heads * head_dim)
                <= Self::cached(k_cache).len(),
            (pos + Self::data(q).len() / ((n_heads * head_dim) as nat)) * (n_kv_heads * head_dim)
                <= Self::cached(v_cache).len(),
        ensures
            Self::cap(final(out)) == Self::cap(old(out)),
            Self::data(final(out)).len() == Self::data(old(out)).len(),
            Self::data(final(out)) == self.attended(
                Self::data(q),
                Self::cached(k_cache).take(
                    (pos + Self::data(q).len() / ((n_heads * head_dim) as nat)) * (n_kv_heads
                        * head_dim),
                ),
                Self::cached(v_cache).take(
                    (pos + Self::data(q).len() / ((n_heads * head_dim) as nat)) * (n_kv_heads
                        * head_dim),
                ),
                pos as nat,
                n_heads as nat,
                head_dim as nat,
                n_kv_heads as nat,
            ),
    ;

    /// Puts a vector through the SiLU and multiplies it by another.
    fn silu_mul(&self, gate: &mut Self::Buffer, up: &Self::Buffer)
        requires
            Self::data(old(gate)).len() == Self::data(up).len(),
        ensures
            Self::cap(final(gate)) == Self::cap(old(gate)),
            Self::data(final(gate)).len() == Self::data(old(gate)).len(),
            Self::data(final(gate)) == self.silu(Self::data(old(gate)), Self::data(up)),
    ;

    /// Multiplies a vector by the sigmoid of another.
    fn sigmoid_mul(&self, x: &mut Self::Buffer, gate: &Self::Buffer)
        requires
            Self::data(old(x)).len() == Self::data(gate).len(),
        ensures
            Self::cap(final(x)) == Self::cap(old(x)),
            Self::data(final(x)).len() == Self::data(old(x)).len(),
            Self::data(final(x)) == self.sigmoid(Self::data(old(x)), Self::data(gate)),
    ;

    /// Puts vectors of as many activations as there are signs through the
    /// blockwise Hadamard transform, or back.
    fn hadamard(&self, x: &mut Self::Buffer, signs: &Self::Buffer, inverse: bool)
        requires
            Self::data(signs).len() > 0,
            Self::data(old(x)).len() % Self::data(signs).len() == 0,
        ensures
            Self::cap(final(x)) == Self::cap(old(x)),
            Self::data(final(x)).len() == Self::data(old(x)).len(),
            Self::data(final(x)) == self.turned(Self::data(old(x)), Self::data(signs), inverse),
    ;

    /// Normalizes vectors, and puts them through the transform.
    fn norm_rotate(
        &self,
        out: &mut Self::Buffer,
        x: &Self::Buffer,
        weight: &Self::Buffer,
        signs: &Self::Buffer,
        eps: u32,
    )
        requires
            Self::data(signs).len() > 0,
            Self::data(x).len() % Self::data(signs).len() == 0,
            Self::data(old(out)).len() == Self::data(x).len(),
            Self::data(weight).len() == Self::data(signs).len(),
        ensures
            Self::cap(final(out)) == Self::cap(old(out)),
            Self::data(final(out)).len() == Self::data(old(out)).len(),
            Self::data(final(out)) == self.norm_turned(
                Self::data(x),
                Self::data(weight),
                Self::data(signs),
                eps,
            ),
    ;

    /// Convolves the tokens of a batch with those before it, splitting the
    /// channels into queries, keys and values.
    fn conv(
        &self,
        q: &mut Self::Buffer,
        k: &mut Self::Buffer,
        v: &mut Self::Buffer,
        state_out: &mut Self::Buffer,
        x: &Self::Buffer,
        state: &Self::Buffer,
        weight: &Self::Buffer,
    )
        requires
            Self::data(weight).len() > 0,
            Self::data(weight).len() % 4 == 0,
            Self::data(x).len() > 0,
            Self::data(x).len() % (Self::data(weight).len() / 4) == 0,
            Self::data(state).len() == 3 * (Self::data(weight).len() / 4),
            Self::data(old(state_out)).len() == 3 * (Self::data(weight).len() / 4),
            Self::data(old(q)).len() % (Self::data(x).len() / (Self::data(weight).len() / 4)) == 0,
            Self::data(old(k)).len() % (Self::data(x).len() / (Self::data(weight).len() / 4)) == 0,
            Self::data(old(v)).len() % (Self::data(x).len() / (Self::data(weight).len() / 4)) == 0,
            Self::data(old(q)).len() + Self::data(old(k)).len() + Self::data(old(v)).len()
                == Self::data(x).len(),
        ensures
            Self::cap(final(q)) == Self::cap(old(q)),
            Self::cap(final(k)) == Self::cap(old(k)),
            Self::cap(final(v)) == Self::cap(old(v)),
            Self::cap(final(state_out)) == Self::cap(old(state_out)),
            Self::data(final(q)).len() == Self::data(old(q)).len(),
            Self::data(final(k)).len() == Self::data(old(k)).len(),
            Self::data(final(v)).len() == Self::data(old(v)).len(),
            Self::data(final(state_out)).len() == Self::data(old(state_out)).len(),
            (
                Self::data(final(q)),
                Self::data(final(k)),
                Self::data(final(v)),
                Self::data(final(state_out)),
            ) == self.convolved(
                Self::data(x),
                Self::data(state),
                Self::data(weight),
                Self::data(old(q)).len(),
                Self::data(old(k)).len(),
            ),
    ;

    /// Runs linear attention over the tokens of a batch, whose gates are those
    /// of the decay and then those of the writing, for each value head.
    fn delta_net(
        &self,
        out: &mut Self::Buffer,
        q: &Self::Buffer,
        k: &Self::Buffer,
        v: &Self::Buffer,
        gates: &Self::Buffer,
        decay: &Self::Buffer,
        state: &mut Self::Buffer,
        n_k_heads: usize,
        n_v_heads: usize,
        head_dim: usize,
    )
        requires
            n_v_heads * head_dim > 0,
            Self::data(v).len() % ((n_v_heads * head_dim) as nat) == 0,
            Self::data(q).len() == Self::data(v).len() / ((n_v_heads * head_dim) as nat) * (n_k_heads
                * head_dim),
            Self::data(gates).len() == Self::data(v).len() / ((n_v_heads * head_dim) as nat) * (2
                * n_v_heads),
            Self::data(k).len() == Self::data(q).len(),
            Self::data(old(out)).len() == Self::data(v).len(),
            Self::data(decay).len() == 2 * n_v_heads,
            Self::data(old(state)).len() == n_v_heads * head_dim * head_dim,
        ensures
            Self::cap(final(out)) == Self::cap(old(out)),
            Self::cap(final(state)) == Self::cap(old(state)),
            Self::data(final(out)).len() == Self::data(old(out)).len(),
            Self::data(final(state)).len() == Self::data(old(state)).len(),
            (Self::data(final(out)), Self::data(final(state))) == self.delta(
                Self::data(q),
                Self::data(k),
                Self::data(v),
                Self::data(gates),
                Self::data(decay),
                Self::data(old(state)),
                n_k_heads as nat,
                n_v_heads as nat,
                head_dim as nat,
            ),
    ;

    /// An activation rounded to half precision and back.
    fn round_half(&self, x: u32) -> (r: u32)
        ensures
            r == self.through_half(x),
    ;

    /// The activations that a row of ternary weights stands for.
    fn dequantize_row(&self, row: &[u8], width: usize) -> (out: Vec<u32>)
        ensures
            out@ == self.unpacked(row@, width as nat),
            out@.len() == width,
    ;

    /// The ternary weights nearest to a row of activations.
    fn quantize_row(&self, values: &[u32]) -> (out: Vec<u8>)
        ensures
            out@ == self.packed(values@),
    ;
}

/// Whether a buffer of a device, with room for `cap` activations, has come to
/// hold some.
pub open spec fn held<D: Device>(data: Seq<u32>, cap: nat) -> bool {
    exists|b: D::Buffer| #[trigger] D::data(&b) == data && D::cap(&b) == cap
}

} // verus!
