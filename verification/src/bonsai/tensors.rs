//! Tensors as the file has them, and as the model takes them.
use vstd::prelude::*;

use super::config::{fault_if, first};
use super::heads::{arranged, untile, untiled};
use crate::bytes::{copy_range, push_all, words};
use crate::device::{Mat, Weights};
use crate::gguf::file::Lack;
use crate::gguf::{Gguf, BF16, F32, PTQ1_0};
use crate::tensor::Tensor;
use crate::text::{decimal, digits, join3};

verus! {

/// The name of a tensor of a layer.
pub open spec fn part(layer: int, suffix: Seq<char>) -> Seq<char> {
    "blk."@ + digits(layer as nat) + suffix
}

/// The name of a tensor of a layer.
pub fn part_name(layer: usize, suffix: &str) -> (name: String)
    ensures
        name@ == part(layer as int, suffix@),
{
    join3("blk.", &decimal(layer as u64), suffix)
}

/// What keeps a tensor's bytes, in words.
pub open spec fn lack_text(why: Lack, name: Seq<char>) -> Seq<char> {
    match why {
        Lack::Size(e) => e.text(),
        Lack::Past => "tensor '"@ + name + "' runs past the end of the file"@,
    }
}

/// What is said of a tensor that is not of the shape it should be.
pub open spec fn misshapen(name: Seq<char>) -> Seq<char> {
    "tensor '"@ + name + "' has the wrong shape"@
}

/// What is wrong with a tensor that should be floating-point numbers.
pub open spec fn no_floats(g: &Gguf, name: Seq<char>) -> Option<Seq<char>> {
    if !g.tensor_map().contains_key(name) {
        Some("missing tensor '"@ + name + "'"@)
    } else {
        let d = g.tensor_map()[name];
        if d.dtype != F32 {
            Some("tensor '"@ + name + "' is not f32"@)
        } else {
            match g.holds(d) {
                Err(why) => Some(lack_text(why, name)),
                Ok(_) => None,
            }
        }
    }
}

/// What is wrong with a tensor that should be `len` floating-point numbers.
pub open spec fn no_floats_of(g: &Gguf, name: Seq<char>, len: int) -> Option<Seq<char>> {
    first(no_floats(g, name), fault_if(floats_of(g, name).len() != len, misshapen(name)))
}

/// The bytes of a tensor.
pub open spec fn bytes_of(g: &Gguf, name: Seq<char>) -> Seq<u8> {
    g.holds(g.tensor_map()[name])->Ok_0
}

/// The floating-point numbers of a tensor, as their bits.
pub open spec fn floats_of(g: &Gguf, name: Seq<char>) -> Seq<u32> {
    let s = bytes_of(g, name);
    Seq::new(s.len() / 4, |i: int| words(s, 4)[i] as u32)
}

/// Copies out floating-point numbers.
pub fn read_floats(g: &Gguf, name: &str) -> (r: Result<Vec<u32>, String>)
    requires
        g.wf(),
    ensures
        match r {
            Ok(out) => no_floats(g, name@) is None && out@ == floats_of(g, name@),
            Err(e) => no_floats(g, name@) == Some(e@),
        },
{
    match g.f32s(name) {
        Ok(out) => {
            assert(out@ =~= floats_of(g, name@));
            Ok(out)
        },
        Err(e) => Err(e.message()),
    }
}

/// Copies out `len` floating-point numbers.
pub fn read_floats_of(g: &Gguf, name: &str, len: usize) -> (r: Result<Vec<u32>, String>)
    requires
        g.wf(),
    ensures
        match r {
            Ok(out) => no_floats_of(g, name@, len as int) is None && out@ == floats_of(g, name@)
                && out@.len() == len,
            Err(e) => no_floats_of(g, name@, len as int) == Some(e@),
        },
{
    match read_floats(g, name) {
        Ok(out) => if out.len() == len {
            Ok(out)
        } else {
            Err(join3("tensor '", name, "' has the wrong shape"))
        },
        Err(e) => Err(e),
    }
}

/// What is wrong with a tensor that should be a ternary matrix.
pub open spec fn no_ternary(g: &Gguf, name: Seq<char>) -> Option<Seq<char>> {
    if !g.tensor_map().contains_key(name) {
        Some("missing tensor '"@ + name + "'"@)
    } else {
        let d = g.tensor_map()[name];
        if d.dtype != PTQ1_0 || d.dims.len() != 2 {
            Some("tensor '"@ + name + "' is not a ternary matrix"@)
        } else {
            match g.holds(d) {
                Err(why) => Some(lack_text(why, name)),
                Ok(_) => None,
            }
        }
    }
}

/// Rows of a matrix in the file.
pub open spec fn rows_of(g: &Gguf, name: Seq<char>) -> int {
    g.tensor_map()[name].dims[1] as int
}

/// Columns of a matrix in the file.
pub open spec fn cols_of(g: &Gguf, name: Seq<char>) -> int {
    g.tensor_map()[name].dims[0] as int
}

/// Bytes of a row of a ternary matrix in the file.
pub open spec fn row_of(g: &Gguf, name: Seq<char>) -> int {
    g.packs().row(cols_of(g, name) as nat) as int
}

/// A ternary matrix of some bytes.
pub open spec fn ternary_mat(rows: int, cols: int, data: Seq<u8>) -> Mat {
    Mat { rows: rows as nat, cols: cols as nat, weights: Weights::Ternary(data) }
}

/// A ternary matrix as the file has it.
pub open spec fn ternary_of(g: &Gguf, name: Seq<char>) -> Mat {
    ternary_mat(rows_of(g, name), cols_of(g, name), bytes_of(g, name))
}

/// A matrix of the file: its rows, its columns, and its weights.
pub struct Matrix<T> {
    pub rows: usize,
    pub cols: usize,
    pub data: Vec<T>,
}

/// Copies out a ternary matrix.
pub fn read_ternary(g: &Gguf, name: &str) -> (r: Result<Matrix<u8>, String>)
    requires
        g.wf(),
    ensures
        match r {
            Ok(m) => {
                &&& no_ternary(g, name@) is None
                &&& m.rows == rows_of(g, name@)
                &&& m.cols == cols_of(g, name@)
                &&& m.data@ == bytes_of(g, name@)
            },
            Err(e) => no_ternary(g, name@) == Some(e@),
        },
{
    match g.ternary(name) {
        Ok(Tensor::Ternary { shape, data }) => Ok(
            Matrix { rows: shape[0], cols: shape[1], data },
        ),
        Ok(Tensor::Bf16 { .. }) => {
            assert(false);
            Err(join3("tensor '", name, "' is not a ternary matrix"))
        },
        Err(e) => Err(e.message()),
    }
}

/// What is wrong with a tensor that should be a matrix in bf16.
pub open spec fn no_bf16(g: &Gguf, name: Seq<char>) -> Option<Seq<char>> {
    if !g.tensor_map().contains_key(name) {
        Some("missing tensor '"@ + name + "'"@)
    } else {
        let d = g.tensor_map()[name];
        if d.dtype != BF16 || d.dims.len() != 2 {
            Some("tensor '"@ + name + "' is not a bf16 matrix"@)
        } else {
            match g.holds(d) {
                Err(why) => Some(lack_text(why, name)),
                Ok(_) => None,
            }
        }
    }
}

/// The weights of a matrix in bf16.
pub open spec fn halves_of(g: &Gguf, name: Seq<char>) -> Seq<u16> {
    let s = bytes_of(g, name);
    Seq::new(s.len() / 2, |i: int| words(s, 2)[i] as u16)
}

/// Copies out a matrix in bf16.
pub fn read_bf16(g: &Gguf, name: &str) -> (r: Result<Matrix<u16>, String>)
    requires
        g.wf(),
    ensures
        match r {
            Ok(m) => {
                &&& no_bf16(g, name@) is None
                &&& m.rows == rows_of(g, name@)
                &&& m.cols == cols_of(g, name@)
                &&& m.data@ == halves_of(g, name@)
            },
            Err(e) => no_bf16(g, name@) == Some(e@),
        },
{
    match g.bf16(name) {
        Ok(Tensor::Bf16 { shape, data }) => {
            assert(data@ =~= halves_of(g, name@));
            Ok(Matrix { rows: shape[0], cols: shape[1], data })
        },
        Ok(Tensor::Ternary { .. }) => {
            assert(false);
            Err(join3("tensor '", name, "' is not a bf16 matrix"))
        },
        Err(e) => Err(e.message()),
    }
}

/// Bytes of the heads of `dim` rows each of a ternary matrix, where the machine
/// can count them.
pub fn head_bytes(g: &Gguf, dim: usize, cols: usize) -> (r: Option<usize>)
    requires
        g.wf(),
    ensures
        match r {
            Some(n) => n == dim * g.packs().row(cols as nat),
            None => dim * g.packs().row(cols as nat) > usize::MAX,
        },
{
    if dim == 0 {
        assert(0 * g.packs().row(cols as nat) == 0) by (nonlinear_arith);
        return Some(0);
    }
    match g.row_bytes(cols) {
        Some(n) => dim.checked_mul(n),
        None => {
            let ghost row = g.packs().row(cols as nat) as int;
            assert(dim * row >= row) by (nonlinear_arith)
                requires
                    dim > 0,
                    row >= 0,
            ;
            None
        },
    }
}

/// The pairs of heads of `head` bytes each that bytes start with.
pub open spec fn paired(data: Seq<u8>, head: int) -> Seq<u8> {
    data.take(data.len() as int / (2 * head) * (2 * head))
}

/// Of heads that come in pairs of `head` bytes, the first or the second of
/// each pair.
pub open spec fn every_other(data: Seq<u8>, head: int, second: bool) -> Seq<u8> {
    Seq::new(
        data.len() / 2,
        |i: int|
            data[(i / head) * (2 * head) + (if second {
                head
            } else {
                0
            }) + i % head],
    )
}

/// Splits heads that come in pairs of `head` bytes into the first of each
/// pair and the second. What is left over of a pair goes.
pub fn split_heads(data: &[u8], head: usize) -> (r: (Vec<u8>, Vec<u8>))
    requires
        head > 0,
    ensures
        r.0@ == every_other(paired(data@, head as int), head as int, false),
        r.1@ == every_other(paired(data@, head as int), head as int, true),
{
    let n: usize = data.len();
    let ghost (len, two) = (n as int, 2 * head);
    proof {
        vstd::arithmetic::div_mod::lemma_fundamental_div_mod(len, two);
        assert(two * (len / two) == len / two * two) by (nonlinear_arith);
    }
    let pairs: usize = n / head / 2;
    proof {
        vstd::arithmetic::div_mod::lemma_div_denominator(len, head as int, 2);
        assert(head * 2 == two);
        vstd::arithmetic::div_mod::lemma_mod_bound(len, two);
        assert(pairs * two >= 0) by (nonlinear_arith)
            requires
                two > 0,
        ;
        assert(pairs * two == pairs * head + pairs * head) by (nonlinear_arith)
            requires
                two == 2 * head,
        ;
        assert(pairs * head >= 0) by (nonlinear_arith);
    }
    let some = vstd::slice::slice_subrange(data, 0, pairs * head * 2);
    assert(some@ =~= paired(data@, head as int));
    split_pairs(some, pairs, head)
}

/// Splits `pairs` pairs of heads of `head` bytes into the first of each pair
/// and the second.
fn split_pairs(data: &[u8], pairs: usize, head: usize) -> (r: (Vec<u8>, Vec<u8>))
    requires
        data@.len() == pairs * (2 * head),
    ensures
        r.0@ == every_other(data@, head as int, false),
        r.1@ == every_other(data@, head as int, true),
{
    let n: usize = data.len();
    let mut a: Vec<u8> = Vec::new();
    let mut b: Vec<u8> = Vec::new();
    let ghost one = every_other(data@, head as int, false);
    let ghost two = every_other(data@, head as int, true);
    let mut p: usize = 0;
    proof {
        assert(pairs * (2 * head) == 2 * (pairs * head)) by (nonlinear_arith);
        assert(0 * head == 0) by (nonlinear_arith);
        assert(one.take(0) =~= Seq::empty());
        assert(two.take(0) =~= Seq::empty());
    }
    let mut at: usize = 0;
    while p < pairs
        invariant
            p <= pairs,
            n == data@.len() == pairs * (2 * head) == 2 * (pairs * head),
            at == p * (2 * head) == 2 * (p * head),
            one == every_other(data@, head as int, false),
            two == every_other(data@, head as int, true),
            a@ == one.take(p * head),
            b@ == two.take(p * head),
        decreases pairs - p,
    {
        proof {
            assert((p + 1) * (2 * head) == p * (2 * head) + 2 * head) by (nonlinear_arith);
            assert((p + 1) * head == p * head + head) by (nonlinear_arith);
            assert((p + 1) * (2 * head) <= pairs * (2 * head)) by (nonlinear_arith)
                requires
                    p + 1 <= pairs,
            ;
            assert(p * head >= 0) by (nonlinear_arith);
        }
        let first = copy_range(data, at, at + head);
        let second = copy_range(data, at + head, at + head + head);
        proof {
            assert forall|i: int| 0 <= i < head implies #[trigger] one[p * head + i] == data@[at
                + i] && two[p * head + i] == data@[at + head + i] by {
                vstd::arithmetic::div_mod::lemma_fundamental_div_mod_converse(
                    p * head + i,
                    head as int,
                    p as int,
                    i,
                );
            }
            assert forall|i: int| 0 <= i < head implies #[trigger] first@[i] == one[p * head
                + i] by {
                assert(one[p * head + i] == data@[at + i]);
            }
            assert(a@ + first@ =~= one.take((p + 1) * head));
            assert forall|i: int| 0 <= i < head implies #[trigger] second@[i] == two[p * head
                + i] by {
                assert(one[p * head + i] == data@[at + i]);
            }
            assert(b@ + second@ =~= two.take((p + 1) * head));
        }
        push_all(&mut a, first.as_slice());
        push_all(&mut b, second.as_slice());
        at = at + head + head;
        p = p + 1;
    }
    assert(one.take(pairs * head) =~= one);
    assert(two.take(pairs * head) =~= two);
    (a, b)
}

/// What comes after the first elements, from the tiled order of value heads
/// into the grouped.
pub open spec fn untiled_from<T>(data: Seq<T>, at: int, n_k: int, n_v: int, per_head: int) -> Seq<
    T,
> {
    data.take(at) + untiled(data.skip(at), n_k, n_v, per_head)
}

/// Reorders what comes after the first elements.
pub fn untile_from<T: Copy>(
    data: &[T],
    at: usize,
    n_k: usize,
    n_v: usize,
    per_head: usize,
) -> (out: Vec<T>)
    requires
        data@.len() == at + n_v * per_head,
        arranged(n_k as int, n_v as int),
    ensures
        out@ == untiled_from(data@, at as int, n_k as int, n_v as int, per_head as int),
        out@.len() == data@.len(),
{
    let n: usize = data.len();
    assert(n_v * per_head >= 0) by (nonlinear_arith);
    let mut out = copy_range(data, 0, at);
    let rest = untile(vstd::slice::slice_subrange(data, at, n), n_k, n_v, per_head);
    assert(data@.subrange(at as int, n as int) =~= data@.skip(at as int));
    assert(out@ =~= data@.take(at as int));
    push_all(&mut out, rest.as_slice());
    out
}

} // verus!
