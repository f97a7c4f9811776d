//! How far the products of batches are from a reference.
use vstd::prelude::*;

use super::checks::{again, draw_rows, product, rows_drawn, ternary};
use super::draws::{after, values, Rng};
use crate::device::Device;
use crate::tensor::Tensor;

verus! {

/// A product of a ternary matrix with a batch: what a device gives, and what
/// the reference gives on the activations as they are, and on them rounded to
/// half precision first.
#[derive(Debug)]
pub struct Tiled {
    pub rows: usize,
    pub cols: usize,
    pub n: usize,
    pub got: Vec<u32>,
    pub want: Vec<u32>,
    pub want_half: Vec<u32>,
}

/// The shapes of the products: partial tiles, and the model's width.
pub open spec fn tile_cases() -> Seq<(usize, usize, usize)> {
    seq![(100, 256, 47), (1030, 1152, 33), (2500, 5120, 64)]
}

/// The state that a case's numbers are drawn from.
pub open spec fn tile_state(i: int) -> u64
    decreases i,
{
    if i <= 0 {
        14
    } else {
        let (rows, cols, n) = tile_cases()[i - 1];
        after(after(tile_state(i - 1), rows as nat * cols as nat), n as nat * cols as nat)
    }
}

/// Whether a product is that of a shape, with numbers drawn from a state.
pub open spec fn tiles<D: Device, C: Device>(
    gpu: &D,
    cpu: &C,
    s: u64,
    case: (usize, usize, usize),
    t: Tiled,
) -> bool {
    let (rows, cols, n) = (case.0 as nat, case.1 as nat, case.2 as nat);
    let w = ternary(rows, cols, rows_drawn(cpu, s, rows, cols));
    let x = values(after(s, rows * cols), n * cols);
    &&& (t.rows, t.cols, t.n) == case
    &&& t.got@ == gpu.dot(w, x)
    &&& t.want@ == cpu.dot(w, x)
    &&& t.want_half@ == cpu.dot(w, x.map_values(|v: u32| cpu.through_half(v)))
}

/// Rounds activations to half precision and back.
fn rounded<C: Device>(cpu: &C, x: &[u32]) -> (out: Vec<u32>)
    ensures
        out@ == x@.map_values(|v: u32| cpu.through_half(v)),
{
    let mut out: Vec<u32> = Vec::new();
    let n: usize = x.len();
    for i in 0..n
        invariant
            n == x@.len(),
            out@.len() == i,
            forall|k: int| 0 <= k < i ==> #[trigger] out@[k] == cpu.through_half(x@[k]),
    {
        out.push(cpu.round_half(x[i]));
    }
    assert(out@ =~= x@.map_values(|v: u32| cpu.through_half(v)));
    out
}

/// Products of batches on a device and on the reference, for how far the one
/// is from the other, and how much of that is the rounding to half precision.
pub fn tile_error<D: Device, C: Device>(gpu: &D, cpu: &C) -> (list: Vec<Tiled>)
    ensures
        list@.len() == tile_cases().len(),
        forall|i: int|
            0 <= i < list@.len() ==> tiles(
                gpu,
                cpu,
                tile_state(i),
                tile_cases()[i],
                #[trigger] list@[i],
            ),
{
    let cases: [(usize, usize, usize); 3] = [(100, 256, 47), (1030, 1152, 33), (2500, 5120, 64)];
    assert(cases@ =~= tile_cases());
    let mut rng = Rng { state: 14 };
    let mut list: Vec<Tiled> = Vec::new();
    let mut i: usize = 0;
    while i < 3
        invariant
            i <= 3,
            cases@ == tile_cases(),
            rng.state == tile_state(i as int),
            list@.len() == i,
            forall|j: int|
                0 <= j < i ==> tiles(
                    gpu,
                    cpu,
                    tile_state(j),
                    tile_cases()[j],
                    #[trigger] list@[j],
                ),
        decreases 3 - i,
    {
        let (rows, cols, n): (usize, usize, usize) = cases[i];
        proof {
            assert((rows, cols, n) == tile_cases()[i as int]);
            assert(tile_state(i + 1) == after(
                after(tile_state(i as int), rows as nat * cols as nat),
                n as nat * cols as nat,
            ));
        }
        let mut shape: Vec<usize> = Vec::new();
        shape.push(rows);
        shape.push(cols);
        let w = Tensor::Ternary { shape, data: draw_rows(cpu, &mut rng, rows, cols) };
        let x = rng.floats(n * cols);
        let half = rounded(cpu, x.as_slice());
        let same = again(&w);
        let want = product(cpu, same, rows, cols, n, x.as_slice());
        let same = again(&w);
        let want_half = product(cpu, same, rows, cols, n, half.as_slice());
        let got = product(gpu, w, rows, cols, n, x.as_slice());
        list.push(Tiled { rows, cols, n, got, want, want_half });
        i = i + 1;
    }
    list
}

} // verus!
