//! How long a device takes over its operations, at the sizes the model has.
//! The times come back with what was timed, for the caller to show.
use vstd::prelude::*;

use super::checks::{buffer, draw_rows, rows_drawn, ternary};
use super::draws::{after, lemma_after, values, Rng};
use crate::bonsai::run::lemma_multiple;
use crate::clock::{nanos_since, now};
use crate::device::{held, is_matrix, mat_of, zeros, Device, Mat};
use crate::tensor::Tensor;
use crate::text::own;

verus! {

/// An operation timed: how often a batch calls it, and how long so many runs
/// of it took.
#[derive(Debug)]
pub struct Timing {
    pub name: String,
    pub calls: usize,
    pub runs: usize,
    pub nanos: u64,
}

/// What was timed: the names, the calls and the runs.
pub open spec fn timed(list: Seq<Timing>) -> Seq<(Seq<char>, int, int)> {
    list.map_values(|t: Timing| (t.name@, t.calls as int, t.runs as int))
}

/// The greater of two numbers.
pub open spec fn most(a: int, b: int) -> int {
    if a > b {
        a
    } else {
        b
    }
}

/// The greater of two numbers.
pub(super) fn greater(a: usize, b: usize) -> (r: usize)
    ensures
        r == most(a as int, b as int),
{
    if a > b {
        a
    } else {
        b
    }
}

/// Notes how long an operation took.
pub(super) fn note(list: &mut Vec<Timing>, name: &str, calls: usize, runs: usize, nanos: u64)
    ensures
        timed(final(list)@) == timed(old(list)@).push((name@, calls as int, runs as int)),
{
    let t = Timing { name: own(name), calls, runs, nanos };
    let ghost before = list@;
    let ghost last = (t.name@, t.calls as int, t.runs as int);
    list.push(t);
    assert(timed(list@) =~= timed(before).push(last));
}

/// One vector with another added to it `k` times.
pub open spec fn sums<D: Device>(gpu: &D, x: Seq<u32>, y: Seq<u32>, k: nat) -> Seq<u32>
    decreases k,
{
    if k == 0 {
        x
    } else {
        gpu.sum(sums(gpu, x, y, (k - 1) as nat), y)
    }
}

/// Times a run of small elementwise operations, for the cost of an operation
/// itself: adds of a token's width of activations, back to back.
pub fn dispatch_overhead<D: Device>(gpu: &D) -> (t: Timing)
    ensures
        t.name@ == "add of 5120"@,
        t.calls == 1,
        t.runs == 4000,
        held::<D>(sums(gpu, values(22, 5120), values(after(22, 5120), 5120), 6000), 5120),
{
    let mut rng = Rng { state: 22 };
    let data = rng.floats(5120);
    let mut x = buffer(gpu, data.as_slice());
    let data = rng.floats(5120);
    let y = buffer(gpu, data.as_slice());
    let ghost (a, b) = (D::data(&x), D::data(&y));
    for i in 0..2000usize
        invariant
            a.len() == b.len(),
            b == D::data(&y),
            D::cap(&x) == 5120,
            D::data(&x).len() == b.len(),
            D::data(&x) == sums(gpu, a, b, i as nat),
    {
        gpu.add(&mut x, &y);
    }
    let _ = gpu.read(&x);
    let runs: usize = 4000;
    let start = now();
    for i in 0..runs
        invariant
            a.len() == b.len(),
            b == D::data(&y),
            D::cap(&x) == 5120,
            D::data(&x).len() == b.len(),
            D::data(&x) == sums(gpu, a, b, (2000 + i) as nat),
    {
        gpu.add(&mut x, &y);
    }
    let _ = gpu.read(&x);
    assert(held::<D>(D::data(&x), 5120));
    Timing { name: own("add of 5120"), calls: 1, runs, nanos: nanos_since(&start) }
}

/// A product timed: its matrix, how many tokens it takes, how many bytes the
/// matrix has, and how long so many runs of it took.
#[derive(Debug)]
pub struct Product {
    pub rows: usize,
    pub cols: usize,
    pub n: usize,
    pub bytes: usize,
    pub runs: usize,
    pub nanos: u64,
}

/// What was timed: the rows, the columns, the tokens, the bytes and the runs.
pub open spec fn multiplied(list: Seq<Product>) -> Seq<(int, int, int, int, int)> {
    list.map_values(
        |p: Product|
            (p.rows as int, p.cols as int, p.n as int, p.bytes as int, p.runs as int),
    )
}

/// Whether a buffer is another once a product has been made in it.
pub open spec fn holds_product<D: Device>(
    out: D::Buffer,
    before: D::Buffer,
    gpu: &D,
    m: Mat,
    x: Seq<u32>,
) -> bool {
    D::data(&out) == gpu.dot(m, x) && D::cap(&out) == D::cap(&before)
}

/// Whether each of some buffers but the first is the one before it once a
/// product has been made in it.
pub open spec fn each_product<D: Device>(
    outs: Seq<D::Buffer>,
    gpu: &D,
    m: Mat,
    x: Seq<u32>,
) -> bool {
    forall|i: int|
        0 <= i < outs.len() - 1 ==> holds_product(#[trigger] outs[i + 1], outs[i], gpu, m, x)
}

/// Whether a product has been made `k` times in a buffer of its size that held
/// zeros: there are the buffer as it was, and what it was after each time.
pub open spec fn made_times<D: Device>(gpu: &D, m: Mat, x: Seq<u32>, k: nat) -> bool {
    exists|outs: Seq<D::Buffer>| #[trigger]
        each_product(outs, gpu, m, x) && outs.len() == k + 1 && D::data(&outs[0]) == zeros(
            x.len() / m.cols * m.rows,
        ) && D::cap(&outs[0]) == x.len() / m.cols * m.rows
}

/// Times a product in a buffer of zeros, once it has been made often enough for
/// the clocks to be up. Of the time nothing is known.
pub(super) fn time_product<D: Device>(
    gpu: &D,
    weight: &D::Weight,
    x: &D::Buffer,
    out: &mut D::Buffer,
    warm: usize,
    runs: usize,
) -> (nanos: u64)
    requires
        D::matrix(weight).cols > 0,
        D::data(x).len() % D::matrix(weight).cols == 0,
        D::data(old(out)) == zeros(
            D::data(x).len() / D::matrix(weight).cols * D::matrix(weight).rows,
        ),
        D::cap(old(out)) == D::data(x).len() / D::matrix(weight).cols * D::matrix(weight).rows,
    ensures
        made_times(gpu, D::matrix(weight), D::data(x), (warm + runs) as nat),
{
    let ghost m = D::matrix(weight);
    let ghost v = D::data(x);
    let ghost len = v.len() / m.cols * m.rows;
    let ghost mut outs = seq![*out];
    for i in 0..warm
        invariant
            m == D::matrix(weight),
            v == D::data(x),
            m.cols > 0,
            v.len() % m.cols == 0,
            len == v.len() / m.cols * m.rows,
            D::data(out).len() == len,
            each_product(outs, gpu, m, v),
            outs.len() == i + 1,
            outs[0] == *old(out),
            outs[i as int] == *out,
    {
        gpu.matmul(out, weight, x);
        proof {
            outs = outs.push(*out);
        }
    }
    let _ = gpu.read(out);
    let start = now();
    for i in 0..runs
        invariant
            m == D::matrix(weight),
            v == D::data(x),
            m.cols > 0,
            v.len() % m.cols == 0,
            len == v.len() / m.cols * m.rows,
            D::data(out).len() == len,
            each_product(outs, gpu, m, v),
            outs.len() == warm + i + 1,
            outs[0] == *old(out),
            outs[warm + i] == *out,
    {
        gpu.matmul(out, weight, x);
        proof {
            outs = outs.push(*out);
        }
    }
    let _ = gpu.read(out);
    nanos_since(&start)
}

/// A ternary matrix of numbers drawn, as a tensor, and its bytes.
pub(super) fn draw_ternary<D: Device>(gpu: &D, rng: &mut Rng, rows: usize, cols: usize) -> (r: (Tensor, usize))
    ensures
        is_matrix(r.0),
        mat_of(r.0) == ternary(
            rows as nat,
            cols as nat,
            rows_drawn(gpu, old(rng).state, rows as nat, cols as nat),
        ),
        r.1 == rows_drawn(gpu, old(rng).state, rows as nat, cols as nat).len(),
        final(rng).state == after(old(rng).state, (rows * cols) as nat),
{
    let mut shape: Vec<usize> = Vec::new();
    shape.push(rows);
    shape.push(cols);
    let data = draw_rows(gpu, rng, rows, cols);
    let bytes: usize = data.len();
    (Tensor::Ternary { shape, data }, bytes)
}

/// The batches of tokens that the largest product is timed for.
pub open spec fn batches() -> Seq<usize> {
    seq![1, 4, 8, 16, 32, 64, 96, 128, 256]
}

/// The model's other shapes, which are timed for a single token.
pub open spec fn other_shapes() -> Seq<(usize, usize)> {
    seq![(5120, 17408), (6144, 5120), (10240, 5120), (1024, 5120)]
}

/// The state that another shape's matrix is drawn from.
pub open spec fn shape_state(i: int) -> u64
    decreases i,
{
    if i <= 0 {
        after(after(21, 89_128_960), 605 * 5120)
    } else {
        let (rows, cols) = other_shapes()[i - 1];
        after(after(shape_state(i - 1), rows as nat * cols as nat), cols as nat)
    }
}

/// What is timed of ternary products: the largest for batches of tokens, then
/// the model's other shapes.
pub open spec fn products_timed<D: Device>(gpu: &D) -> Seq<(int, int, int, int, int)> {
    let bytes = rows_drawn(gpu, 21, 17408, 5120).len() as int;
    let large = Seq::new(
        9,
        |i: int|
            (17408int, 5120int, batches()[i] as int, bytes, most(800int / batches()[i] as int, 20)),
    );
    let others = Seq::new(
        4,
        |i: int|
            {
                let (rows, cols) = other_shapes()[i];
                let data = rows_drawn(gpu, shape_state(i), rows as nat, cols as nat);
                (rows as int, cols as int, 1int, data.len() as int, 2000int)
            },
    );
    large + others
}

/// What each product that is timed is of: its matrix, and its vectors.
pub open spec fn operands<D: Device>(gpu: &D, i: int) -> (Mat, Seq<u32>) {
    if i < 9 {
        (
            ternary(17408, 5120, rows_drawn(gpu, 21, 17408, 5120)),
            values(
                after(after(21, 89_128_960), tokens_before(i) * 5120),
                batches()[i] as nat * 5120,
            ),
        )
    } else {
        let (rows, cols) = other_shapes()[i - 9];
        let s = shape_state(i - 9);
        (
            ternary(rows as nat, cols as nat, rows_drawn(gpu, s, rows as nat, cols as nat)),
            values(after(s, rows as nat * cols as nat), cols as nat),
        )
    }
}

/// How often each product that is timed is made, the times before the clocks
/// are up included.
pub open spec fn times_made(i: int) -> nat {
    if i < 9 {
        let n = batches()[i] as int;
        (most(1600int / n, 40) + most(800int / n, 20)) as nat
    } else {
        4000
    }
}

/// Whether a product that is timed has been made as often as it is timed.
pub open spec fn made<D: Device>(gpu: &D, i: int) -> bool {
    let (m, x) = operands(gpu, i);
    made_times(gpu, m, x, times_made(i))
}

/// Tokens of the first of the batches.
pub open spec fn tokens_before(i: int) -> nat
    decreases i,
{
    if i <= 0 {
        0
    } else {
        tokens_before(i - 1) + batches()[i - 1] as nat
    }
}

/// Times the ternary matmul on the model's largest matrix for batches of
/// tokens, and on its other shapes for a single one: the ones with fewer rows
/// take other kernels.
pub fn ternary_matmul_speed<D: Device>(gpu: &D) -> (list: Vec<Product>)
    ensures
        multiplied(list@) == products_timed(gpu),
        forall|i: int| 0 <= i < list@.len() ==> #[trigger] made(gpu, i),
{
    let ghost want = products_timed(gpu);
    let mut list: Vec<Product> = Vec::new();
    let mut rng = Rng { state: 21 };
    let (tensor, bytes): (Tensor, usize) = draw_ternary(gpu, &mut rng, 17408, 5120);
    let weight = gpu.upload(tensor);
    let sizes: [usize; 9] = [1, 4, 8, 16, 32, 64, 96, 128, 256];
    assert(sizes@ =~= batches());
    assert(rng.state == after(after(21, 89_128_960), tokens_before(0) * 5120));
    let mut i: usize = 0;
    while i < 9
        invariant
            i <= 9,
            sizes@ == batches(),
            want == products_timed(gpu),
            D::matrix(&weight) == ternary(17408, 5120, rows_drawn(gpu, 21, 17408, 5120)),
            forall|j: int| 0 <= j < i ==> #[trigger] made(gpu, j),
            bytes == rows_drawn(gpu, 21, 17408, 5120).len(),
            rng.state == after(after(21, 89_128_960), tokens_before(i as int) * 5120),
            list@.len() == i,
            multiplied(list@) == want.take(i as int),
        decreases 9 - i,
    {
        let n: usize = sizes[i];
        assert(0 < n <= 256) by {
            assert(n == batches()[i as int]);
        }
        let data = rng.floats(n * 5120);
        proof {
            lemma_multiple(n as int, 5120);
            lemma_after(
                after(21, 89_128_960),
                tokens_before(i as int) * 5120,
                (n * 5120) as nat,
            );
        }
        let x = buffer(gpu, data.as_slice());
        let mut out = gpu.alloc_buffer(n * 17408);
        let runs: usize = greater(800 / n, 20);
        let nanos: u64 = time_product(gpu, &weight, &x, &mut out, greater(1600 / n, 40), runs);
        proof {
            let (m, v) = operands(gpu, i as int);
            assert(m == D::matrix(&weight));
            assert(v == D::data(&x));
            assert(made(gpu, i as int));
        }
        let p = Product { rows: 17408, cols: 5120, n, bytes, runs, nanos };
        list.push(p);
        i = i + 1;
        assert(want[i - 1] == (17408int, 5120int, n as int, bytes as int, runs as int));
        assert(multiplied(list@) =~= want.take(i as int));
    }
    let shapes: [(usize, usize); 4] = [(5120, 17408), (6144, 5120), (10240, 5120), (1024, 5120)];
    assert(shapes@ =~= other_shapes());
    assert(tokens_before(9) == 605) by {
        reveal_with_fuel(tokens_before, 10);
    }
    let mut j: usize = 0;
    while j < 4
        invariant
            j <= 4,
            shapes@ == other_shapes(),
            want == products_timed(gpu),
            rng.state == shape_state(j as int),
            forall|k: int| 0 <= k < 9 + j ==> #[trigger] made(gpu, k),
            list@.len() == 9 + j,
            multiplied(list@) == want.take(9 + j),
        decreases 4 - j,
    {
        let (rows, cols): (usize, usize) = shapes[j];
        assert(0 < rows <= 17408 && 0 < cols <= 17408) by {
            assert((rows, cols) == other_shapes()[j as int]);
        }
        let (tensor, bytes): (Tensor, usize) = draw_ternary(gpu, &mut rng, rows, cols);
        let weight = gpu.upload(tensor);
        let data = rng.floats(cols);
        proof {
            lemma_multiple(1, cols as int);
            assert(shape_state(j + 1) == after(
                after(shape_state(j as int), rows as nat * cols as nat),
                cols as nat,
            ));
        }
        let x = buffer(gpu, data.as_slice());
        let mut out = gpu.alloc_buffer(rows);
        let nanos: u64 = time_product(gpu, &weight, &x, &mut out, 2000, 2000);
        proof {
            let (m, v) = operands(gpu, 9 + j);
            assert(m == D::matrix(&weight));
            assert(v == D::data(&x));
            assert(made(gpu, 9 + j));
        }
        list.push(Product { rows, cols, n: 1, bytes, runs: 2000, nanos });
        j = j + 1;
        assert(want[8 + j] == (rows as int, cols as int, 1int, bytes as int, 2000int));
        assert(multiplied(list@) =~= want.take(9 + j));
    }
    assert(want.take(13) =~= want);
    list
}

} // verus!
