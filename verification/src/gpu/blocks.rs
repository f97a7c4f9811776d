//! The order of ternary blocks on the GPU.
use vstd::arithmetic::div_mod::{
    lemma_fundamental_div_mod, lemma_fundamental_div_mod_converse, lemma_mod_bound,
};
use vstd::prelude::*;

use crate::bytes::push_all;

verus! {

/// Blocks of a row that are read together, for the cache's sake.
pub const TOGETHER: usize = 8;

/// Where a byte of the block-major order stands among rows of `blocks` blocks
/// of `size` bytes each: every row's first block comes first, then every row's
/// second, and so on.
pub open spec fn row_major_at(i: int, rows: int, blocks: int, size: int) -> int {
    let block = i / size;
    ((block % rows) * blocks + block / rows) * size + i % size
}

/// Rows of blocks in block-major order.
pub open spec fn block_majored(data: Seq<u8>, rows: int, blocks: int, size: int) -> Seq<u8> {
    Seq::new(data.len(), |i: int| data[row_major_at(i, rows, blocks, size)])
}

/// A byte of a block of a row, in both orders.
proof fn lemma_place(r: int, b: int, k: int, rows: int, blocks: int, size: int)
    requires
        0 <= r < rows,
        0 <= b < blocks,
        0 <= k < size,
    ensures
        0 <= (b * rows + r) * size + k < rows * blocks * size,
        0 <= (r * blocks + b) * size + k < rows * blocks * size,
        row_major_at((b * rows + r) * size + k, rows, blocks, size) == (r * blocks + b) * size + k,
{
    let c = b * rows + r;
    let d = r * blocks + b;
    assert(0 <= c < rows * blocks) by (nonlinear_arith)
        requires
            c == b * rows + r,
            0 <= r < rows,
            0 <= b < blocks,
    ;
    assert(0 <= d < rows * blocks) by (nonlinear_arith)
        requires
            d == r * blocks + b,
            0 <= r < rows,
            0 <= b < blocks,
    ;
    let n = rows * blocks;
    assert(0 <= c * size + k < n * size) by (nonlinear_arith)
        requires
            0 <= c < n,
            0 <= k < size,
    ;
    assert(0 <= d * size + k < n * size) by (nonlinear_arith)
        requires
            0 <= d < n,
            0 <= k < size,
    ;
    lemma_fundamental_div_mod_converse(c * size + k, size, c, k);
    lemma_fundamental_div_mod_converse(c, rows, b, r);
}

/// The part of the block-major order that has the blocks of `TOGETHER` columns
/// from `first` on, or as many as are left.
pub open spec fn part_of(data: Seq<u8>, rows: int, blocks: int, size: int, i: int) -> Seq<u8> {
    let from = i * TOGETHER;
    let to = if from + TOGETHER < blocks {
        from + TOGETHER
    } else {
        blocks
    };
    block_majored(data, rows, blocks, size).subrange(from * rows * size, to * rows * size)
}

/// Puts the blocks of one column after the other, of each row in turn: part
/// `i` of the block-major order, for whichever thread takes it.
pub fn block_major_part(data: &[u8], rows: usize, blocks: usize, size: usize, i: usize) -> (out: Vec<
    u8,
>)
    requires
        data@.len() == rows * blocks * size,
        i * TOGETHER < blocks,
    ensures
        out@ == part_of(data@, rows as int, blocks as int, size as int, i as int),
{
    let n: usize = data.len();
    let first: usize = i * TOGETHER;
    let last: usize = if blocks - first > TOGETHER {
        first + TOGETHER
    } else {
        blocks
    };
    let ghost whole = block_majored(data@, rows as int, blocks as int, size as int);
    let ghost start = first * rows * size;
    let mut out: Vec<u8> = Vec::new();
    let mut b: usize = first;
    proof {
        lemma_cut(first as int, last as int, rows as int, blocks as int, size as int);
        assert(out@ =~= whole.subrange(start, start));
    }
    while b < last
        invariant
            n == data@.len() == rows * blocks * size,
            whole == block_majored(data@, rows as int, blocks as int, size as int),
            first <= b <= last <= blocks,
            start == first * rows * size,
            0 <= start <= b * rows * size <= n,
            out@ == whole.subrange(start, b * rows * size),
        decreases last - b,
    {
        let mut r: usize = 0;
        proof {
            assert(b * rows * size == (b * rows + 0) * size) by (nonlinear_arith);
        }
        while r < rows
            invariant
                n == data@.len() == rows * blocks * size,
                whole == block_majored(data@, rows as int, blocks as int, size as int),
                first <= b < last <= blocks,
                r <= rows,
                0 <= start <= (b * rows + r) * size <= n,
                out@ == whole.subrange(start, (b * rows + r) * size),
            decreases rows - r,
        {
            let ghost at = (b * rows + r) * size;
            proof {
                if size > 0 {
                    lemma_place(
                        r as int,
                        b as int,
                        size - 1,
                        rows as int,
                        blocks as int,
                        size as int,
                    );
                }
                assert((b * rows + (r + 1)) * size == at + size) by (nonlinear_arith)
                    requires
                        at == (b * rows + r) * size,
                ;
                let d = r * blocks + b;
                assert(0 <= d <= n || size == 0) by (nonlinear_arith)
                    requires
                        d == r * blocks + b,
                        0 <= r < rows,
                        0 <= b < blocks,
                        n == rows * blocks * size,
                ;
                assert(0 <= r * blocks <= d) by (nonlinear_arith)
                    requires
                        d == r * blocks + b,
                        b >= 0,
                        r >= 0,
                        blocks >= 0,
                ;
                assert(size == 0 ==> (b * rows + r) * size == 0) by (nonlinear_arith);
            }
            if size > 0 {
                let from: usize = (r * blocks + b) * size;
                let block = vstd::slice::slice_subrange(data, from, from + size);
                proof {
                    assert forall|k: int| 0 <= k < size implies #[trigger] block@[k] == whole[at
                        + k] by {
                        lemma_place(
                            r as int,
                            b as int,
                            k,
                            rows as int,
                            blocks as int,
                            size as int,
                        );
                    }
                    assert(out@ + block@ =~= whole.subrange(start, at + size));
                }
                push_all(&mut out, block);
            }
            r = r + 1;
        }
        proof {
            assert((b * rows + rows) * size == (b + 1) * rows * size) by (nonlinear_arith);
        }
        b = b + 1;
    }
    out
}

/// Columns of blocks are some of all.
proof fn lemma_cut(first: int, last: int, rows: int, blocks: int, size: int)
    requires
        0 <= first <= last <= blocks,
        0 <= rows,
        0 <= size,
    ensures
        0 <= first * rows * size <= last * rows * size <= rows * blocks * size,
{
    assert(0 <= first * rows * size <= last * rows * size) by (nonlinear_arith)
        requires
            0 <= first <= last,
            0 <= rows,
            0 <= size,
    ;
    assert(last * rows * size <= blocks * rows * size) by (nonlinear_arith)
        requires
            0 <= last <= blocks,
            0 <= rows,
            0 <= size,
    ;
    assert(blocks * rows * size == rows * blocks * size) by (nonlinear_arith);
}

/// Reorders rows of ternary blocks into block-major order: every row's first
/// block, then every row's second, and so on, so that the lanes of a kernel
/// that take consecutive rows read consecutive blocks.
pub fn block_major(data: &[u8], rows: usize, blocks: usize, size: usize) -> (out: Vec<u8>)
    requires
        data@.len() == rows * blocks * size,
    ensures
        out@ == block_majored(data@, rows as int, blocks as int, size as int),
{
    let ghost whole = block_majored(data@, rows as int, blocks as int, size as int);
    let mut out: Vec<u8> = Vec::new();
    let mut i: usize = 0;
    let mut done: usize = 0;
    proof {
        assert(0 * rows * size == 0) by (nonlinear_arith);
        assert(out@ =~= whole.take(0));
    }
    while done < blocks
        invariant
            data@.len() == rows * blocks * size,
            whole == block_majored(data@, rows as int, blocks as int, size as int),
            done <= blocks,
            done < blocks ==> done == i * TOGETHER,
            out@ == whole.take(done * rows * size),
            0 <= done * rows * size <= whole.len(),
        decreases blocks - done,
    {
        let part = block_major_part(data, rows, blocks, size, i);
        let next: usize = if blocks - done > TOGETHER {
            done + TOGETHER
        } else {
            blocks
        };
        proof {
            lemma_cut(done as int, next as int, rows as int, blocks as int, size as int);
            assert(out@ + part@ =~= whole.take(next * rows * size));
        }
        push_all(&mut out, part.as_slice());
        done = next;
        i = i + 1;
    }
    proof {
        assert(blocks * rows * size == rows * blocks * size) by (nonlinear_arith);
        assert(whole.take(whole.len() as int) =~= whole);
    }
    out
}

/// The block-major order has every byte of every row's blocks: each stands
/// somewhere, and no two in one place.
pub proof fn law_block_major_keeps_bytes(data: Seq<u8>, rows: int, blocks: int, size: int)
    requires
        0 < rows,
        0 < blocks,
        0 < size,
        data.len() == rows * blocks * size,
    ensures
        forall|r: int, b: int, k: int|
            0 <= r < rows && 0 <= b < blocks && 0 <= k < size ==> block_majored(
                data,
                rows,
                blocks,
                size,
            )[#[trigger] ((b * rows + r) * size + k)] == data[(r * blocks + b) * size + k],
        forall|i: int, j: int|
            0 <= i < data.len() && 0 <= j < data.len() && #[trigger] row_major_at(
                i,
                rows,
                blocks,
                size,
            ) == #[trigger] row_major_at(j, rows, blocks, size) ==> i == j,
{
    assert forall|r: int, b: int, k: int|
        0 <= r < rows && 0 <= b < blocks && 0 <= k < size implies block_majored(
        data,
        rows,
        blocks,
        size,
    )[#[trigger] ((b * rows + r) * size + k)] == data[(r * blocks + b) * size + k] by {
        lemma_place(r, b, k, rows, blocks, size);
    }
    assert forall|i: int, j: int|
        0 <= i < data.len() && 0 <= j < data.len() && #[trigger] row_major_at(
            i,
            rows,
            blocks,
            size,
        ) == #[trigger] row_major_at(j, rows, blocks, size) implies i == j by {
        lemma_unplace(i, rows, blocks, size);
        lemma_unplace(j, rows, blocks, size);
    }
}

/// What a byte's place in the row-major order tells of it.
proof fn lemma_unplace(i: int, rows: int, blocks: int, size: int)
    requires
        0 < rows,
        0 < blocks,
        0 < size,
        0 <= i < rows * blocks * size,
    ensures
        ({
            let at = row_major_at(i, rows, blocks, size);
            let (r, b, k) = (at / size / blocks, at / size % blocks, at % size);
            i == (b * rows + r) * size + k
        }),
{
    let c = i / size;
    let k = i % size;
    lemma_fundamental_div_mod(i, size);
    lemma_mod_bound(i, size);
    let n = rows * blocks;
    assert(0 <= c < n) by (nonlinear_arith)
        requires
            i == size * c + k,
            0 <= k < size,
            0 <= i < n * size,
            size > 0,
    ;
    let r = c % rows;
    let b = c / rows;
    lemma_fundamental_div_mod(c, rows);
    lemma_mod_bound(c, rows);
    assert(0 <= b < blocks) by (nonlinear_arith)
        requires
            c == rows * b + r,
            0 <= r < rows,
            0 <= c < rows * blocks,
            rows > 0,
    ;
    let d = r * blocks + b;
    lemma_fundamental_div_mod_converse(d * size + k, size, d, k);
    lemma_fundamental_div_mod_converse(d, blocks, r, b);
    assert(rows * b == b * rows) by (nonlinear_arith);
    assert(size * c == c * size) by (nonlinear_arith);
}

} // verus!
