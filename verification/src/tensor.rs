//! Matrices as they are held in files and on devices.
use vstd::prelude::*;

verus! {

/// How a ternary matrix is packed: a row is blocks of `block` weights, and a
/// block is `block_bytes` bytes.
#[derive(Clone, Copy, Debug, PartialEq, Eq)]
pub struct Packing {
    pub block: usize,
    pub block_bytes: usize,
}

impl Packing {
    /// A block holds something.
    pub open spec fn wf(self) -> bool {
        self.block > 0
    }

    /// Bytes of a row of `cols` weights.
    pub open spec fn row(self, cols: nat) -> nat {
        cols / self.block as nat * self.block_bytes as nat
    }

    /// Bytes of a row of `cols` weights, where the machine can count them.
    pub fn row_bytes(&self, cols: usize) -> (r: Option<usize>)
        requires
            self.wf(),
        ensures
            match r {
                Some(n) => n == self.row(cols as nat),
                None => self.row(cols as nat) > usize::MAX,
            },
    {
        (cols / self.block).checked_mul(self.block_bytes)
    }
}

/// A matrix: its shape with the rows first, and its weights row by row.
#[allow(inconsistent_fields)]
#[derive(Debug, PartialEq, Eq)]
pub enum Tensor {
    Bf16 { shape: Vec<usize>, data: Vec<u16> },
    Ternary { shape: Vec<usize>, data: Vec<u8> },
}

} // verus!
