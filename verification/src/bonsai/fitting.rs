//! Whether weights fit the activations that they work on.
use vstd::arithmetic::div_mod::lemma_fundamental_div_mod;
use vstd::prelude::*;

use super::run::lemma_multiple;
use crate::device::Mat;

verus! {

/// Whether a matrix takes activations of one width to activations of another:
/// they are as many of its rows' vectors, and what it makes of those.
pub open spec fn takes(m: Mat, from: int, to: int) -> bool {
    m.cols > 0 && from % (m.cols as int) == 0 && from / (m.cols as int) * m.rows == to
}

/// Whether activations of a width are groups of as many as there are weights.
pub open spec fn grouped(w: Seq<u32>, width: int) -> bool {
    w.len() > 0 && width % (w.len() as int) == 0
}

/// Whether a matrix of so many rows and columns takes activations of one width
/// to activations of another.
pub fn is_taken(rows: usize, cols: usize, from: usize, to: usize, m: Ghost<Mat>) -> (r: bool)
    requires
        m@.rows == rows,
        m@.cols == cols,
    ensures
        r == takes(m@, from as int, to as int),
{
    if cols == 0 || from % cols != 0 {
        return false;
    }
    match (from / cols).checked_mul(rows) {
        Some(n) => n == to,
        None => false,
    }
}

/// Whether activations of a width are groups of as many as there are weights.
pub fn is_grouped(w: &[u32], width: usize) -> (r: bool)
    ensures
        r == grouped(w@, width as int),
{
    w.len() > 0 && width % w.len() == 0
}

/// A matrix takes the activations of a batch of tokens as it takes those of
/// one.
pub proof fn lemma_takes(m: Mat, n: int, from: int, to: int)
    requires
        takes(m, from, to),
        n >= 0,
        from >= 0,
    ensures
        (n * from) % (m.cols as int) == 0,
        (n * from) / (m.cols as int) * m.rows == n * to,
        n * from == (n * (from / (m.cols as int))) * m.cols,
        from == from / (m.cols as int) * m.cols,
{
    let (c, r) = (m.cols as int, m.rows as int);
    let q = from / c;
    lemma_fundamental_div_mod(from, c);
    assert(c * q == q * c) by (nonlinear_arith);
    assert(n * (q * c) == (n * q) * c) by (nonlinear_arith);
    lemma_multiple(n * q, c);
    assert((n * q) * r == n * (q * r)) by (nonlinear_arith);
}

/// The activations of a batch of tokens are groups as those of one are.
pub proof fn lemma_grouped(w: Seq<u32>, n: int, width: int)
    requires
        grouped(w, width),
    ensures
        (n * width) % (w.len() as int) == 0,
        width == width / (w.len() as int) * w.len(),
{
    let l = w.len() as int;
    let q = width / l;
    lemma_fundamental_div_mod(width, l);
    assert(l * q == q * l) by (nonlinear_arith);
    assert(n * (q * l) == (n * q) * l) by (nonlinear_arith);
    lemma_multiple(n * q, l);
}

} // verus!
