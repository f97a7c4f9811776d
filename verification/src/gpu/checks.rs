//! Checks of a device's operations against those of a reference, on numbers
//! that are always the same. What both give comes back as bits, for the caller
//! to hold against each other.
use vstd::prelude::*;

use super::draws::{
    after, high_halves, lemma_after, signs_drawn, values, weights_drawn, Rng,
};
use crate::bonsai::run::lemma_multiple;
use crate::bytes::{copy_range, push_all};
use crate::device::{held, splice, zeros, Device, Mat, Weights};
use crate::tensor::Tensor;

verus! {

/// What a device gives, and what the reference gives.
#[derive(Debug)]
pub struct Pair {
    pub got: Vec<u32>,
    pub want: Vec<u32>,
}

/// Bits of a millionth: what is added where a norm divides.
pub const EPS: u32 = 0x3586_37bd;

/// A buffer that holds `data`.
pub(super) fn buffer<D: Device>(gpu: &D, data: &[u32]) -> (b: D::Buffer)
    ensures
        D::data(&b) == data@,
        D::cap(&b) == data@.len(),
{
    let mut buf = gpu.alloc_buffer(data.len());
    gpu.write(&mut buf, data);
    buf
}

/// A cache that holds `data`, stored in two parts split at `split`, as the
/// prompt and then the tokens after it are.
pub(super) fn cache<D: Device>(gpu: &D, data: &[u32], split: usize) -> (c: D::Cache)
    requires
        split <= data@.len(),
    ensures
        D::cached(&c) == data@.map_values(|x: u32| gpu.half(x)),
{
    let n: usize = data.len();
    let mut c = gpu.alloc_cache(n);
    if split > 0 {
        let part = buffer(gpu, vstd::slice::slice_subrange(data, 0, split));
        gpu.store(&mut c, 0, &part);
    }
    if split < n {
        let part = buffer(gpu, vstd::slice::slice_subrange(data, split, n));
        gpu.store(&mut c, split, &part);
    }
    assert(D::cached(&c) =~= data@.map_values(|x: u32| gpu.half(x)));
    c
}

/// What is written is read back: what was written, and what a buffer of the
/// device then held.
pub fn write_and_read_round_trip<D: Device>(gpu: &D) -> (r: Pair)
    ensures
        r.want@ == values(1, 100_003),
        held::<D>(r.got@, 100_003),
        r.got@ == r.want@,
{
    let mut rng = Rng { state: 1 };
    let data = rng.floats(100_003);
    let buf = buffer(gpu, data.as_slice());
    assert(held::<D>(D::data(&buf), 100_003));
    Pair { got: gpu.read(&buf), want: data }
}

/// What is allocated is zeros, and a copy moves a range: the zeros, and a copy
/// into the middle of some.
pub fn alloc_is_zeroed_and_copy_moves_ranges<D: Device, C: Device>(gpu: &D, cpu: &C) -> (r: (
    Vec<u32>,
    Pair,
))
    ensures
        held::<D>(r.0@, 1000),
        r.0@ == zeros(1000),
        held::<D>(values(2, 50), 50),
        held::<D>(r.1.got@, 100),
        held::<C>(values(2, 50), 50),
        held::<C>(r.1.want@, 100),
        r.1.got@ == splice(zeros(100), 30, values(2, 50).subrange(10, 30)),
        r.1.want@ == r.1.got@,
{
    let zero = gpu.alloc_buffer(1000);
    let blank = gpu.read(&zero);
    assert(held::<D>(D::data(&zero), 1000));
    let mut rng = Rng { state: 2 };
    let data = rng.floats(50);
    let src = buffer(gpu, data.as_slice());
    let mut dst = gpu.alloc_buffer(100);
    gpu.copy(&mut dst, 30, &src, 10, 20);
    assert(held::<D>(D::data(&src), 50));
    assert(held::<D>(D::data(&dst), 100));
    let src = buffer(cpu, data.as_slice());
    let mut want = cpu.alloc_buffer(100);
    cpu.copy(&mut want, 30, &src, 10, 20);
    assert(held::<C>(C::data(&src), 50));
    assert(held::<C>(C::data(&want), 100));
    (blank, Pair { got: gpu.read(&dst), want: cpu.read(&want) })
}

/// A buffer holds fewer activations when it is resized, and as many again: how
/// many it then held.
pub fn resize_keeps_capacity<D: Device>(gpu: &D) -> (r: (usize, usize))
    ensures
        r == (16usize, 64usize),
        exists|small: D::Buffer, large: D::Buffer|
            {
                &&& #[trigger] D::cap(&small) == 64
                &&& #[trigger] D::cap(&large) == 64
                &&& D::data(&small).len() == r.0
                &&& D::data(&large).len() == r.1
                &&& forall|i: int|
                    0 <= i < r.0 ==> D::data(&small)[i] == 0 && #[trigger] D::data(&large)[i] == 0
            },
{
    let mut buf = gpu.alloc_buffer(64);
    gpu.resize(&mut buf, 16);
    let small: usize = gpu.read(&buf).len();
    let ghost before = buf;
    gpu.resize(&mut buf, 64);
    assert(D::cap(&before) == 64 && D::cap(&buf) == 64);
    (small, gpu.read(&buf).len())
}

/// A matrix in bf16.
pub open spec fn plain(rows: nat, cols: nat, data: Seq<u16>) -> Mat {
    Mat { rows, cols, weights: Weights::Bf16(data) }
}

/// A ternary matrix.
pub open spec fn ternary(rows: nat, cols: nat, data: Seq<u8>) -> Mat {
    Mat { rows, cols, weights: Weights::Ternary(data) }
}

/// A tensor with the same in it.
pub(super) fn again(t: &Tensor) -> (r: Tensor)
    ensures
        crate::device::is_matrix(*t) ==> crate::device::is_matrix(r) && crate::device::mat_of(r)
            == crate::device::mat_of(*t),
{
    match t {
        Tensor::Bf16 { shape, data } => {
            let r = Tensor::Bf16 {
                shape: copy_range(shape.as_slice(), 0, shape.len()),
                data: copy_range(data.as_slice(), 0, data.len()),
            };
            proof {
                assert(r->Bf16_shape@ =~= shape@);
                assert(r->Bf16_data@ =~= data@);
            }
            r
        },
        Tensor::Ternary { shape, data } => {
            let r = Tensor::Ternary {
                shape: copy_range(shape.as_slice(), 0, shape.len()),
                data: copy_range(data.as_slice(), 0, data.len()),
            };
            proof {
                assert(r->Ternary_shape@ =~= shape@);
                assert(r->Ternary_data@ =~= data@);
            }
            r
        },
    }
}

/// A product on a device.
pub(super) fn product<D: Device>(d: &D, w: Tensor, rows: usize, cols: usize, n: usize, x: &[u32]) -> (out: Vec<
    u32,
>)
    requires
        crate::device::is_matrix(w),
        crate::device::mat_of(w).rows == rows,
        crate::device::mat_of(w).cols == cols,
        cols > 0,
        x@.len() == n * cols,
        n * rows <= usize::MAX,
    ensures
        out@ == d.dot(crate::device::mat_of(w), x@),
{
    proof {
        lemma_multiple(n as int, cols as int);
    }
    let weight = d.upload(w);
    let x = buffer(d, x);
    let mut out = d.alloc_buffer(n * rows);
    d.matmul(&mut out, &weight, &x);
    d.read(&out)
}

/// A product of a matrix in bf16 on both devices.
fn matmul_case<D: Device, C: Device>(
    gpu: &D,
    cpu: &C,
    rng: &mut Rng,
    rows: usize,
    cols: usize,
    n: usize,
) -> (r: Pair)
    requires
        cols > 0,
        rows * cols <= usize::MAX,
        n * cols <= usize::MAX,
        n * rows <= usize::MAX,
    ensures
        ({
            let w = plain(
                rows as nat,
                cols as nat,
                high_halves(old(rng).state, (rows * cols) as nat),
            );
            let x = values(after(old(rng).state, (rows * cols) as nat), (n * cols) as nat);
            &&& r.got@ == gpu.dot(w, x)
            &&& r.want@ == cpu.dot(w, x)
        }),
        final(rng).state == after(
            after(old(rng).state, (rows * cols) as nat),
            (n * cols) as nat,
        ),
{
    let mut shape: Vec<usize> = Vec::new();
    shape.push(rows);
    shape.push(cols);
    let w = Tensor::Bf16 { shape, data: rng.bf16(rows * cols) };
    let x = rng.floats(n * cols);
    let same = again(&w);
    let want = product(cpu, same, rows, cols, n, x.as_slice());
    let got = product(gpu, w, rows, cols, n, x.as_slice());
    Pair { got, want }
}

/// What a product of a matrix in bf16 gives on both devices, with numbers
/// drawn from a state.
pub open spec fn multiplies<D: Device, C: Device>(
    gpu: &D,
    cpu: &C,
    s: u64,
    rows: nat,
    cols: nat,
    n: nat,
    r: Pair,
) -> bool {
    let w = plain(rows, cols, high_halves(s, rows * cols));
    let x = values(after(s, rows * cols), n * cols);
    r.got@ == gpu.dot(w, x) && r.want@ == cpu.dot(w, x)
}

/// Products of matrices in bf16, of which a single token's, with a row or
/// with many, and a few tokens'.
pub fn matmul_matches_cpu<D: Device, C: Device>(gpu: &D, cpu: &C) -> (r: Vec<Pair>)
    ensures
        ({
            let s1 = after(after(4, 8), 8);
            let s2 = after(after(s1, 38_400), 192);
            let s3 = after(after(s2, 79_464), 3_096);
            &&& r@.len() == 4
            &&& multiplies(gpu, cpu, 4, 1, 8, 1, r@[0])
            &&& multiplies(gpu, cpu, s1, 200, 192, 1, r@[1])
            &&& multiplies(gpu, cpu, s2, 77, 1032, 3, r@[2])
            &&& multiplies(gpu, cpu, s3, 70_000, 8, 2, r@[3])
        }),
{
    let mut rng = Rng { state: 4 };
    let mut list: Vec<Pair> = Vec::new();
    let pair = matmul_case(gpu, cpu, &mut rng, 1, 8, 1);
    list.push(pair);
    let pair = matmul_case(gpu, cpu, &mut rng, 200, 192, 1);
    list.push(pair);
    let pair = matmul_case(gpu, cpu, &mut rng, 77, 1032, 3);
    list.push(pair);
    let pair = matmul_case(gpu, cpu, &mut rng, 70_000, 8, 2);
    list.push(pair);
    list
}

/// Rows of ternary weights nearest to numbers drawn from a state.
pub open spec fn rows_drawn<C: Device>(cpu: &C, s: u64, rows: nat, cols: nat) -> Seq<u8>
    decreases rows,
{
    if rows == 0 {
        Seq::empty()
    } else {
        let before = (rows - 1) as nat;
        rows_drawn(cpu, s, before, cols) + cpu.packed(values(after(s, before * cols), cols))
    }
}

/// Draws rows of ternary weights.
pub(super) fn draw_rows<C: Device>(cpu: &C, rng: &mut Rng, rows: usize, cols: usize) -> (data: Vec<u8>)
    ensures
        data@ == rows_drawn(cpu, old(rng).state, rows as nat, cols as nat),
        final(rng).state == after(old(rng).state, (rows * cols) as nat),
{
    let mut data: Vec<u8> = Vec::new();
    let mut r: usize = 0;
    assert(0 * cols == 0) by (nonlinear_arith);
    while r < rows
        invariant
            r <= rows,
            data@ == rows_drawn(cpu, old(rng).state, r as nat, cols as nat),
            rng.state == after(old(rng).state, (r * cols) as nat),
        decreases rows - r,
    {
        proof {
            assert((r + 1) * cols == r * cols + cols) by (nonlinear_arith);
            assert(r * cols >= 0) by (nonlinear_arith);
            lemma_after(old(rng).state, (r * cols) as nat, cols as nat);
        }
        let row = rng.floats(cols);
        let bytes = cpu.quantize_row(row.as_slice());
        push_all(&mut data, bytes.as_slice());
        r = r + 1;
    }
    data
}

/// What a product of a ternary matrix gives on both devices, with numbers
/// drawn from a state.
pub open spec fn ternary_multiplies<D: Device, C: Device>(
    gpu: &D,
    cpu: &C,
    s: u64,
    case: (usize, usize, usize),
    r: Pair,
) -> bool {
    let (rows, cols, n) = (case.0 as nat, case.1 as nat, case.2 as nat);
    let w = ternary(rows, cols, rows_drawn(cpu, s, rows, cols));
    let x = values(after(s, rows * cols), n * cols);
    r.got@ == gpu.dot(w, x) && r.want@ == cpu.dot(w, x)
}

/// Whether a buffer held as many activations as it should each time it was
/// resized.
pub fn kept_capacity(held: (usize, usize)) -> (r: bool)
    ensures
        r == (held == (16usize, 64usize)),
{
    held.0 == 16 && held.1 == 64
}

/// The shapes of ternary products: single tokens, small batches, and batches
/// of half a tile of tokens or more at the edges of the tiles: a whole one,
/// partial row and token tiles, and the model's width.
pub open spec fn ternary_cases() -> Seq<(usize, usize, usize)> {
    seq![
        (1, 128, 1),
        (200, 5120, 1),
        (77, 1024, 3),
        (70_000, 128, 2),
        (200, 5120, 8),
        (64, 128, 16),
        (100, 256, 47),
        (1030, 1152, 33),
        (300, 1152, 130),
        (2500, 5120, 64),
    ]
}

/// The state that a case's numbers are drawn from.
pub open spec fn ternary_state(i: int) -> u64
    decreases i,
{
    if i <= 0 {
        14
    } else {
        let c = ternary_cases()[i - 1];
        let (rows, cols, n) = (c.0 as nat, c.1 as nat, c.2 as nat);
        after(after(ternary_state(i - 1), rows * cols), n * cols)
    }
}

/// Whether a shape can be counted on any machine.
spec fn countable(c: (usize, usize, usize)) -> bool {
    0 < c.1 && c.0 * c.1 <= 0x7fff_ffff && c.2 * c.1 <= 0x7fff_ffff && c.2 * c.0 <= 0x7fff_ffff
}

/// Products of ternary matrices.
pub fn ternary_matmul_matches_cpu<D: Device, C: Device>(gpu: &D, cpu: &C) -> (r: Vec<Pair>)
    ensures
        r@.len() == ternary_cases().len(),
        forall|i: int|
            0 <= i < r@.len() ==> ternary_multiplies(
                gpu,
                cpu,
                ternary_state(i),
                ternary_cases()[i],
                #[trigger] r@[i],
            ),
{
    let cases: [(usize, usize, usize); 10] = [
        (1, 128, 1),
        (200, 5120, 1),
        (77, 1024, 3),
        (70_000, 128, 2),
        (200, 5120, 8),
        (64, 128, 16),
        (100, 256, 47),
        (1030, 1152, 33),
        (300, 1152, 130),
        (2500, 5120, 64),
    ];
    assert(cases@ =~= ternary_cases());
    assert forall|i: int| 0 <= i < 10 implies countable(#[trigger] cases@[i]) by {
        assert(countable(cases@[0]) && countable(cases@[1]) && countable(cases@[2]));
        assert(countable(cases@[3]) && countable(cases@[4]) && countable(cases@[5]));
        assert(countable(cases@[6]) && countable(cases@[7]) && countable(cases@[8]));
        assert(countable(cases@[9]));
    }
    let mut rng = Rng { state: 14 };
    let mut list: Vec<Pair> = Vec::new();
    let mut i: usize = 0;
    while i < 10
        invariant
            i <= 10,
            cases@ == ternary_cases(),
            cases@.len() == 10,
            forall|i: int| 0 <= i < 10 ==> countable(#[trigger] cases@[i]),
            rng.state == ternary_state(i as int),
            list@.len() == i,
            forall|j: int|
                0 <= j < i ==> ternary_multiplies(
                    gpu,
                    cpu,
                    ternary_state(j),
                    ternary_cases()[j],
                    #[trigger] list@[j],
                ),
        decreases 10 - i,
    {
        let (rows, cols, n): (usize, usize, usize) = cases[i];
        assert(countable(cases@[i as int]));
        let mut shape: Vec<usize> = Vec::new();
        shape.push(rows);
        shape.push(cols);
        let w = Tensor::Ternary { shape, data: draw_rows(cpu, &mut rng, rows, cols) };
        let x = rng.floats(n * cols);
        let same = again(&w);
        let want = product(cpu, same, rows, cols, n, x.as_slice());
        let got = product(gpu, w, rows, cols, n, x.as_slice());
        list.push(Pair { got, want });
        i = i + 1;
    }
    list
}

/// Which of the ternary products take a batch of tokens, which a device may
/// multiply in half precision.
pub fn ternary_batches() -> (r: Vec<bool>)
    ensures
        r@ == ternary_cases().map_values(|c: (usize, usize, usize)| c.2 >= 2),
{
    let tokens: [usize; 10] = [1, 1, 3, 2, 8, 16, 47, 33, 130, 64];
    let mut list: Vec<bool> = Vec::new();
    let mut i: usize = 0;
    while i < 10
        invariant
            i <= 10,
            list@.len() == i,
            forall|j: int| 0 <= j < i ==> #[trigger] list@[j] == (tokens@[j] >= 2),
        decreases 10 - i,
    {
        list.push(tokens[i] >= 2);
        i = i + 1;
    }
    assert forall|j: int| 0 <= j < 10 implies #[trigger] tokens@[j] == ternary_cases()[j].2 by {
        assert(tokens@ =~= seq![1, 1, 3, 2, 8, 16, 47, 33, 130, 64]);
    }
    assert(list@ =~= ternary_cases().map_values(|c: (usize, usize, usize)| c.2 >= 2));
    list
}

/// What a normalization by the root mean square gives on both devices.
pub open spec fn norms<D: Device, C: Device>(
    gpu: &D,
    cpu: &C,
    s: u64,
    dim: nat,
    rows: nat,
    r: Pair,
) -> bool {
    let w = values(s, dim);
    let x = values(after(s, dim), dim * rows);
    r.got@ == gpu.rms(x, w, EPS) && r.want@ == cpu.rms(x, w, EPS)
}

/// A normalization by the root mean square on both devices.
fn norm_case<D: Device, C: Device>(gpu: &D, cpu: &C, rng: &mut Rng, dim: usize, rows: usize) -> (r:
    Pair)
    requires
        dim > 0,
        dim * rows <= usize::MAX,
    ensures
        norms(gpu, cpu, old(rng).state, dim as nat, rows as nat, r),
        final(rng).state == after(after(old(rng).state, dim as nat), (dim * rows) as nat),
{
    proof {
        lemma_multiple(rows as int, dim as int);
        assert(rows * dim == dim * rows) by (nonlinear_arith);
    }
    let w = rng.floats(dim);
    let x = rng.floats(dim * rows);
    let weight = buffer(cpu, w.as_slice());
    let mut want = buffer(cpu, x.as_slice());
    cpu.rmsnorm(&mut want, &weight, EPS);
    let weight = buffer(gpu, w.as_slice());
    let mut buf = buffer(gpu, x.as_slice());
    gpu.rmsnorm(&mut buf, &weight, EPS);
    Pair { got: gpu.read(&buf), want: cpu.read(&want) }
}

/// Normalizations by the root mean square.
pub fn rmsnorm_matches_cpu<D: Device, C: Device>(gpu: &D, cpu: &C) -> (r: Vec<Pair>)
    ensures
        ({
            let s1 = after(after(5, 128), 640);
            let s2 = after(after(s1, 1024), 3072);
            &&& r@.len() == 3
            &&& norms(gpu, cpu, 5, 128, 5, r@[0])
            &&& norms(gpu, cpu, s1, 1024, 3, r@[1])
            &&& norms(gpu, cpu, s2, 8, 1, r@[2])
        }),
{
    let mut rng = Rng { state: 5 };
    let mut list: Vec<Pair> = Vec::new();
    let pair = norm_case(gpu, cpu, &mut rng, 128, 5);
    list.push(pair);
    let pair = norm_case(gpu, cpu, &mut rng, 1024, 3);
    list.push(pair);
    let pair = norm_case(gpu, cpu, &mut rng, 8, 1);
    list.push(pair);
    list
}

/// What a normalization by the length gives on both devices.
pub open spec fn shortens<D: Device, C: Device>(
    gpu: &D,
    cpu: &C,
    s: u64,
    dim: nat,
    rows: nat,
    r: Pair,
) -> bool {
    let x = values(s, dim * rows);
    r.got@ == gpu.l2(x, dim, EPS) && r.want@ == cpu.l2(x, dim, EPS)
}

/// A normalization by the length on both devices.
fn l2_case<D: Device, C: Device>(gpu: &D, cpu: &C, rng: &mut Rng, dim: usize, rows: usize) -> (r:
    Pair)
    requires
        dim > 0,
        dim * rows <= usize::MAX,
    ensures
        shortens(gpu, cpu, old(rng).state, dim as nat, rows as nat, r),
        final(rng).state == after(old(rng).state, (dim * rows) as nat),
{
    proof {
        lemma_multiple(rows as int, dim as int);
        assert(rows * dim == dim * rows) by (nonlinear_arith);
    }
    let x = rng.floats(dim * rows);
    let mut want = buffer(cpu, x.as_slice());
    cpu.l2norm(&mut want, dim, EPS);
    let mut buf = buffer(gpu, x.as_slice());
    gpu.l2norm(&mut buf, dim, EPS);
    Pair { got: gpu.read(&buf), want: cpu.read(&want) }
}

/// Normalizations by the length.
pub fn l2norm_matches_cpu<D: Device, C: Device>(gpu: &D, cpu: &C) -> (r: Vec<Pair>)
    ensures
        ({
            let s1 = after(15, 640);
            let s2 = after(s1, 3072);
            &&& r@.len() == 3
            &&& shortens(gpu, cpu, 15, 128, 5, r@[0])
            &&& shortens(gpu, cpu, s1, 1024, 3, r@[1])
            &&& shortens(gpu, cpu, s2, 8, 1, r@[2])
        }),
{
    let mut rng = Rng { state: 15 };
    let mut list: Vec<Pair> = Vec::new();
    let pair = l2_case(gpu, cpu, &mut rng, 128, 5);
    list.push(pair);
    let pair = l2_case(gpu, cpu, &mut rng, 1024, 3);
    list.push(pair);
    let pair = l2_case(gpu, cpu, &mut rng, 8, 1);
    list.push(pair);
    list
}

/// Operations on each of the elements of two vectors: one through the SiLU
/// times the other, one times the sigmoid of the other, and both added.
pub fn elementwise_match_cpu<D: Device, C: Device>(gpu: &D, cpu: &C) -> (r: (Pair, Pair, Pair))
    ensures
        ({
            let a = values(8, 3001);
            let b = values(after(8, 3001), 3001);
            &&& r.0.got@ == gpu.silu(a, b)
            &&& r.0.want@ == cpu.silu(a, b)
            &&& r.1.got@ == gpu.sigmoid(a, b)
            &&& r.1.want@ == cpu.sigmoid(a, b)
            &&& r.2.got@ == gpu.sum(a, b)
            &&& r.2.want@ == cpu.sum(a, b)
        }),
{
    let mut rng = Rng { state: 8 };
    let a = rng.floats(3001);
    let b = rng.floats(3001);
    let other = buffer(cpu, b.as_slice());
    let up = buffer(gpu, b.as_slice());
    let mut want = buffer(cpu, a.as_slice());
    cpu.silu_mul(&mut want, &other);
    let mut gate = buffer(gpu, a.as_slice());
    gpu.silu_mul(&mut gate, &up);
    let one = Pair { got: gpu.read(&gate), want: cpu.read(&want) };
    let mut want = buffer(cpu, a.as_slice());
    cpu.sigmoid_mul(&mut want, &other);
    let mut x = buffer(gpu, a.as_slice());
    gpu.sigmoid_mul(&mut x, &up);
    let two = Pair { got: gpu.read(&x), want: cpu.read(&want) };
    let mut want = buffer(cpu, a.as_slice());
    cpu.add(&mut want, &other);
    let mut x = buffer(gpu, a.as_slice());
    gpu.add(&mut x, &up);
    (one, two, Pair { got: gpu.read(&x), want: cpu.read(&want) })
}

/// What the blockwise transform gives on both devices, there and back, and
/// what the reference gives there and back in turn.
#[derive(Debug)]
pub struct Turns {
    pub there: Pair,
    pub back: Pair,
    pub undone: Pair,
}

/// What the blockwise transform of numbers drawn from a state gives.
pub open spec fn turns<D: Device, C: Device>(
    gpu: &D,
    cpu: &C,
    s: u64,
    width: nat,
    rows: nat,
    r: Turns,
) -> bool {
    let signs = signs_drawn(s, width);
    let x = values(after(s, width), width * rows);
    &&& r.there.got@ == gpu.turned(x, signs, false)
    &&& r.there.want@ == cpu.turned(x, signs, false)
    &&& r.back.got@ == gpu.turned(x, signs, true)
    &&& r.back.want@ == cpu.turned(x, signs, true)
    &&& r.undone.got@ == cpu.turned(cpu.turned(x, signs, false), signs, true)
    &&& r.undone.want@ == x
}

/// The transform of vectors one way, on a device.
fn turn<D: Device>(d: &D, x: &[u32], signs: &[u32], inverse: bool) -> (out: Vec<u32>)
    requires
        signs@.len() > 0,
        x@.len() % signs@.len() == 0,
    ensures
        out@ == d.turned(x@, signs@, inverse),
        out@.len() == x@.len(),
{
    let signs = buffer(d, signs);
    let mut buf = buffer(d, x);
    d.hadamard(&mut buf, &signs, inverse);
    d.read(&buf)
}

/// The blockwise transform on both devices.
fn turn_case<D: Device, C: Device>(gpu: &D, cpu: &C, rng: &mut Rng, width: usize, rows: usize) -> (r:
    Turns)
    requires
        width > 0,
        width * rows <= usize::MAX,
    ensures
        turns(gpu, cpu, old(rng).state, width as nat, rows as nat, r),
        final(rng).state == after(after(old(rng).state, width as nat), (width * rows) as nat),
{
    proof {
        lemma_multiple(rows as int, width as int);
        assert(rows * width == width * rows) by (nonlinear_arith);
    }
    let signs = rng.signs(width);
    let x = rng.floats(width * rows);
    let (a, b) = (x.as_slice(), signs.as_slice());
    let there = Pair { got: turn(gpu, a, b, false), want: turn(cpu, a, b, false) };
    let back = Pair { got: turn(gpu, a, b, true), want: turn(cpu, a, b, true) };
    let undone = turn(cpu, there.want.as_slice(), b, true);
    Turns { there, back, undone: Pair { got: undone, want: x } }
}

/// The blockwise transform, whose blocks are `block` wide, of one vector of a
/// block and of three of five blocks.
pub fn hadamard_matches_cpu<D: Device, C: Device>(gpu: &D, cpu: &C, block: usize) -> (r: (
    Turns,
    Turns,
))
    requires
        block > 0,
        15 * block <= usize::MAX,
    ensures
        turns(gpu, cpu, 10, block as nat, 1, r.0),
        turns(
            gpu,
            cpu,
            after(after(10, block as nat), block as nat),
            (5 * block) as nat,
            3,
            r.1,
        ),
{
    let mut rng = Rng { state: 10 };
    let one = turn_case(gpu, cpu, &mut rng, block, 1);
    let two = turn_case(gpu, cpu, &mut rng, 5 * block, 3);
    (one, two)
}

/// What the normalization and the transform together give on both devices.
pub open spec fn norm_turns<D: Device, C: Device>(
    gpu: &D,
    cpu: &C,
    s: u64,
    width: nat,
    rows: nat,
    r: Pair,
) -> bool {
    let signs = signs_drawn(s, width);
    let weight = weights_drawn(after(s, width), width);
    let x = values(after(after(s, width), width), width * rows);
    &&& r.got@ == gpu.norm_turned(x, weight, signs, EPS)
    &&& r.want@ == cpu.norm_turned(x, weight, signs, EPS)
}

/// The normalization and the transform together, on a device.
fn norm_turn<D: Device>(d: &D, x: &[u32], weight: &[u32], signs: &[u32]) -> (out: Vec<u32>)
    requires
        signs@.len() > 0,
        x@.len() % signs@.len() == 0,
        weight@.len() == signs@.len(),
    ensures
        out@ == d.norm_turned(x@, weight@, signs@, EPS),
{
    let n: usize = x.len();
    let mut out = d.alloc_buffer(n);
    let x = buffer(d, x);
    let weight = buffer(d, weight);
    let signs = buffer(d, signs);
    d.norm_rotate(&mut out, &x, &weight, &signs, EPS);
    d.read(&out)
}

/// The normalization and the transform together on both devices.
fn norm_turn_case<D: Device, C: Device>(
    gpu: &D,
    cpu: &C,
    rng: &mut Rng,
    width: usize,
    rows: usize,
) -> (r: Pair)
    requires
        width > 0,
        width * rows <= usize::MAX,
    ensures
        norm_turns(gpu, cpu, old(rng).state, width as nat, rows as nat, r),
        final(rng).state == after(
            after(after(old(rng).state, width as nat), width as nat),
            (width * rows) as nat,
        ),
{
    proof {
        lemma_multiple(rows as int, width as int);
        assert(rows * width == width * rows) by (nonlinear_arith);
    }
    let signs = rng.signs(width);
    let weight = rng.weights(width);
    let x = rng.floats(width * rows);
    let (a, b, c) = (x.as_slice(), weight.as_slice(), signs.as_slice());
    Pair { got: norm_turn(gpu, a, b, c), want: norm_turn(cpu, a, b, c) }
}

/// The normalization and the blockwise transform together, whose blocks are
/// `block` wide, of one vector of a block and of three of five blocks.
pub fn norm_rotate_matches_cpu<D: Device, C: Device>(gpu: &D, cpu: &C, block: usize) -> (r: (
    Pair,
    Pair,
))
    requires
        block > 0,
        15 * block <= usize::MAX,
    ensures
        norm_turns(gpu, cpu, 13, block as nat, 1, r.0),
        norm_turns(
            gpu,
            cpu,
            after(after(after(13, block as nat), block as nat), block as nat),
            (5 * block) as nat,
            3,
            r.1,
        ),
{
    let mut rng = Rng { state: 13 };
    let one = norm_turn_case(gpu, cpu, &mut rng, block, 1);
    let two = norm_turn_case(gpu, cpu, &mut rng, 5 * block, 3);
    (one, two)
}

} // verus!
