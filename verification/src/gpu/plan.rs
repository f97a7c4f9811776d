//! How each operation is spread over workgroups.
use vstd::prelude::*;

use crate::device::CONV_KERNEL;

verus! {

/// Rows of ternary weights one workgroup of the single-token and batch matmul
/// kernels takes.
pub const TERNARY_ROWS: usize = 8;

/// Rows of a tile of the tiled matmul.
pub const TERNARY_TILE_ROWS: usize = 64;

/// Tokens of a tile of the tiled matmul; a batch of at least half a tile's
/// tokens goes through it.
pub const TERNARY_TILE_TOKENS: usize = 64;

/// Workgroup memory the tile kernel takes: the rows' and the tokens' block as
/// half floats.
pub const TERNARY_TILE_MEMORY: usize = 32768;

/// Most tokens the kernel for a few tokens takes at once.
pub const TERNARY_FEW_TOKENS: usize = 8;

/// Most words of packed activations a batch through the tile kernel or the
/// kernel for a few tokens has, two tokens to a word: the size of the buffer
/// they are packed into.
pub const PACKED: usize = 0x10_0000;

/// Positions one workgroup of the attention kernel takes.
pub const CHUNK: usize = 128;

/// Most floats of attention partials one dispatch writes, one chunk's maximum,
/// sum, and weighted values per head of each token: the size of the partials
/// buffer. Longer batches are dispatched a few tokens at a time.
pub const PARTIALS: usize = 0x100_0000;

/// The kernels, each one operation or a part of one.
#[derive(Clone, Copy, Debug, PartialEq, Eq, Hash)]
pub enum Kernel {
    Matmul,
    MatmulTernary,
    MatmulTernaryBatch,
    MatmulTernaryTile,
    MatmulTernaryFew,
    PackHalves,
    Add,
    Rmsnorm,
    L2norm,
    Rope,
    Attention,
    AttentionCombine,
    SiluMul,
    SigmoidMul,
    Store,
    Hadamard,
    NormRotate,
    Conv,
    DeltaNet,
}

/// A kernel to run: over how many workgroups across and down, and with which
/// push constants.
#[derive(Debug)]
pub struct Dispatch {
    pub kernel: Kernel,
    pub params: Vec<u32>,
    pub width: u32,
    pub height: u32,
}

/// A kernel to run, as numbers.
pub ghost struct Planned {
    pub kernel: Kernel,
    pub params: Seq<int>,
    pub width: int,
    pub height: int,
}

impl View for Dispatch {
    type V = Planned;

    open spec fn view(&self) -> Planned {
        Planned {
            kernel: self.kernel,
            params: self.params@.map_values(|p: u32| p as int),
            width: self.width as int,
            height: self.height as int,
        }
    }
}

/// The low 32 bits of a number.
pub open spec fn low(n: int) -> int {
    n % 0x1_0000_0000
}

/// The low 32 bits of a number.
pub fn low_bits(n: usize) -> (r: u32)
    ensures
        r == low(n as int),
{
    (n as u64 % 0x1_0000_0000) as u32
}

/// A number divided by another, rounded up.
pub open spec fn ceil(a: int, b: int) -> int {
    (a + b - 1) / b
}

/// A number divided by another, rounded up.
pub fn div_ceil(a: usize, b: usize) -> (r: usize)
    requires
        b > 0,
    ensures
        r == ceil(a as int, b as int),
        r <= a,
        a <= r * b,
{
    let q: usize = a / b;
    let m: usize = a % b;
    proof {
        vstd::arithmetic::div_mod::lemma_fundamental_div_mod(a as int, b as int);
        vstd::arithmetic::div_mod::lemma_mod_bound(a as int, b as int);
        assert(b * q == q * b) by (nonlinear_arith);
        if m == 0 {
            vstd::arithmetic::div_mod::lemma_fundamental_div_mod_converse(
                a + b - 1,
                b as int,
                q as int,
                b - 1,
            );
        } else {
            assert((q + 1) * b == q * b + b) by (nonlinear_arith);
            vstd::arithmetic::div_mod::lemma_fundamental_div_mod_converse(
                a + b - 1,
                b as int,
                q + 1,
                m - 1,
            );
        }
        assert(q <= q * b) by (nonlinear_arith)
            requires
                b >= 1,
                q >= 0,
        ;
    }
    if m == 0 {
        q
    } else {
        q + 1
    }
}

/// A kernel over as many workgroups as `count` items of work take in one
/// dimension, if the GPU allows so many.
pub open spec fn in_a_row(
    kernel: Kernel,
    params: Seq<int>,
    count: int,
    per_group: int,
    max_groups: int,
) -> Option<Planned> {
    let groups = ceil(count, per_group);
    if groups <= max_groups {
        Some(Planned { kernel, params, width: groups, height: 1 })
    } else {
        None
    }
}

/// Whether a dispatch, or none, is what was planned.
pub open spec fn meets(r: Option<Dispatch>, plan: Option<Planned>) -> bool {
    match (r, plan) {
        (Some(d), Some(p)) => d@ == p,
        (None, None) => true,
        _ => false,
    }
}

/// Plans a kernel over `count` items of work in one dimension.
pub fn row(kernel: Kernel, params: Vec<u32>, count: usize, per_group: usize, max_groups: u32) -> (r:
    Option<Dispatch>)
    requires
        per_group > 0,
    ensures
        meets(
            r,
            in_a_row(
                kernel,
                params@.map_values(|p: u32| p as int),
                count as int,
                per_group as int,
                max_groups as int,
            ),
        ),
{
    let groups: usize = div_ceil(count, per_group);
    if groups as u64 > max_groups as u64 {
        return None;
    }
    Some(Dispatch { kernel, params, width: groups as u32, height: 1 })
}

/// Two numbers as push constants.
pub fn two(a: u32, b: u32) -> (v: Vec<u32>)
    ensures
        v@.map_values(|p: u32| p as int) == seq![a as int, b as int],
{
    let mut v: Vec<u32> = Vec::new();
    v.push(a);
    v.push(b);
    assert(v@.map_values(|p: u32| p as int) =~= seq![a as int, b as int]);
    v
}

/// Four numbers as push constants.
pub fn four(a: u32, b: u32, c: u32, d: u32) -> (v: Vec<u32>)
    ensures
        v@.map_values(|p: u32| p as int) == seq![a as int, b as int, c as int, d as int],
{
    let mut v: Vec<u32> = Vec::new();
    v.push(a);
    v.push(b);
    v.push(c);
    v.push(d);
    assert(v@.map_values(|p: u32| p as int) =~= seq![a as int, b as int, c as int, d as int]);
    v
}

/// An operation on each of as many elements of two vectors.
pub open spec fn each_of(kernel: Kernel, x: int, y: int, max_groups: int) -> Option<Planned> {
    if x != y {
        None
    } else {
        in_a_row(kernel, seq![low(x)], x, 256, max_groups)
    }
}

/// Plans an operation on each of the elements of two vectors, if they are as
/// many.
pub fn elementwise(kernel: Kernel, x: usize, y: usize, max_groups: u32) -> (r: Option<Dispatch>)
    ensures
        meets(r, each_of(kernel, x as int, y as int, max_groups as int)),
{
    if x != y {
        return None;
    }
    let mut params: Vec<u32> = Vec::new();
    params.push(low_bits(x));
    assert(params@.map_values(|p: u32| p as int) =~= seq![low(x as int)]);
    row(kernel, params, x, 256, max_groups)
}

/// A normalization of vectors of a dimension, a workgroup for each.
pub open spec fn normed(kernel: Kernel, x: int, dim: int, eps: u32, max_groups: int) -> Option<
    Planned,
> {
    if dim == 0 || x % dim != 0 {
        None
    } else {
        in_a_row(kernel, seq![low(dim), eps as int], x / dim, 1, max_groups)
    }
}

/// Plans a normalization of vectors of a dimension, if there are whole ones.
pub fn norm(kernel: Kernel, x: usize, dim: usize, eps: u32, max_groups: u32) -> (r: Option<
    Dispatch,
>)
    ensures
        meets(r, normed(kernel, x as int, dim as int, eps, max_groups as int)),
{
    if dim == 0 || x % dim != 0 {
        return None;
    }
    row(kernel, two(low_bits(dim), eps), x / dim, 1, max_groups)
}

/// The rotation of heads by their positions.
pub open spec fn roped(
    x: int,
    pos: int,
    n_heads: int,
    head_dim: int,
    rot_dim: int,
    max_groups: int,
) -> Option<Planned> {
    let width = n_heads * head_dim;
    let n = x / width;
    if width == 0 || width > usize::MAX || x % width != 0 || rot_dim > head_dim || rot_dim % 2
        != 0 {
        None
    } else {
        in_a_row(
            Kernel::Rope,
            seq![low(n_heads), low(head_dim), low(rot_dim), low(pos), low(n)],
            n * n_heads * rot_dim / 2,
            256,
            max_groups,
        )
    }
}

/// Plans the rotation of heads by their positions, if there are whole tokens.
pub fn rope(
    x: usize,
    pos: usize,
    n_heads: usize,
    head_dim: usize,
    rot_dim: usize,
    max_groups: u32,
) -> (r: Option<Dispatch>)
    ensures
        meets(
            r,
            roped(
                x as int,
                pos as int,
                n_heads as int,
                head_dim as int,
                rot_dim as int,
                max_groups as int,
            ),
        ),
{
    let width: usize = match n_heads.checked_mul(head_dim) {
        Some(width) => width,
        None => {
            return None;
        },
    };
    if width == 0 || x % width != 0 || rot_dim > head_dim || rot_dim % 2 != 0 {
        return None;
    }
    let n: usize = x / width;
    proof {
        vstd::arithmetic::div_mod::lemma_fundamental_div_mod(x as int, width as int);
        let (a, b, h, r) = (n as int, n_heads as int, head_dim as int, rot_dim as int);
        assert(a * b * r <= a * b * h) by (nonlinear_arith)
            requires
                0 <= a,
                0 <= b,
                0 <= r <= h,
        ;
        assert(a * b * h == (b * h) * a) by (nonlinear_arith);
        assert(a * b <= a * b * h) by (nonlinear_arith)
            requires
                0 <= a,
                0 <= b,
                1 <= h,
        ;
        assert(h >= 1) by (nonlinear_arith)
            requires
                b * h > 0,
                b >= 0,
                h >= 0,
        ;
        assert(a * b >= 0) by (nonlinear_arith)
            requires
                0 <= a,
                0 <= b,
        ;
    }
    let mut params: Vec<u32> = Vec::new();
    params.push(low_bits(n_heads));
    params.push(low_bits(head_dim));
    params.push(low_bits(rot_dim));
    params.push(low_bits(pos));
    params.push(low_bits(n));
    assert(params@.map_values(|p: u32| p as int) =~= seq![
        low(n_heads as int),
        low(head_dim as int),
        low(rot_dim as int),
        low(pos as int),
        low(n as int),
    ]);
    row(Kernel::Rope, params, n * n_heads * rot_dim / 2, 256, max_groups)
}

/// The storing of activations in a cache, two to a word.
pub open spec fn stored(cache: int, offset: int, src: int, max_groups: int) -> Option<Planned> {
    if offset + src > cache || offset % 2 != 0 || src % 2 != 0 {
        None
    } else {
        in_a_row(Kernel::Store, seq![low(offset), low(src)], src / 2, 256, max_groups)
    }
}

/// Plans the storing of activations in a cache, if they fit in whole words.
pub fn store(cache: usize, offset: usize, src: usize, max_groups: u32) -> (r: Option<Dispatch>)
    ensures
        meets(r, stored(cache as int, offset as int, src as int, max_groups as int)),
{
    if offset > cache || src > cache - offset || offset % 2 != 0 || src % 2 != 0 {
        return None;
    }
    row(Kernel::Store, two(low_bits(offset), low_bits(src)), src / 2, 256, max_groups)
}

/// Whether one number is a multiple of another.
pub open spec fn multiple(a: int, b: int) -> bool {
    if b == 0 {
        a == 0
    } else {
        a % b == 0
    }
}

/// Whether one number is a multiple of another.
fn is_multiple(a: usize, b: usize) -> (r: bool)
    ensures
        r == multiple(a as int, b as int),
{
    if b == 0 {
        a == 0
    } else {
        a % b == 0
    }
}

/// The blockwise transform of vectors `width` wide, a workgroup for each
/// block.
pub open spec fn turned(x: int, width: int, block: int, inverse: bool, max_groups: int) -> Option<
    Planned,
> {
    if !multiple(x, width) || !multiple(width, block) {
        None
    } else {
        in_a_row(
            Kernel::Hadamard,
            seq![
                low(width),
                if inverse {
                    1
                } else {
                    0
                },
            ],
            x / block,
            1,
            max_groups,
        )
    }
}

/// Plans the blockwise transform, if there are whole vectors of whole blocks.
pub fn hadamard(x: usize, width: usize, block: usize, inverse: bool, max_groups: u32) -> (r: Option<
    Dispatch,
>)
    requires
        block > 0,
    ensures
        meets(r, turned(x as int, width as int, block as int, inverse, max_groups as int)),
{
    if !is_multiple(x, width) || !is_multiple(width, block) {
        return None;
    }
    let way: u32 = if inverse {
        1
    } else {
        0
    };
    row(Kernel::Hadamard, two(low_bits(width), way), x / block, 1, max_groups)
}

/// The normalization and the transform of vectors together.
pub open spec fn norm_turned(
    out: int,
    x: int,
    weight: int,
    width: int,
    block: int,
    eps: u32,
    max_groups: int,
) -> Option<Planned> {
    if !multiple(x, width) || !multiple(width, block) || out != x || weight != width {
        None
    } else {
        in_a_row(Kernel::NormRotate, seq![low(width), eps as int], x / block, 1, max_groups)
    }
}

/// Plans the normalization and the transform of vectors together.
pub fn norm_rotate(
    out: usize,
    x: usize,
    weight: usize,
    width: usize,
    block: usize,
    eps: u32,
    max_groups: u32,
) -> (r: Option<Dispatch>)
    requires
        block > 0,
    ensures
        meets(
            r,
            norm_turned(
                out as int,
                x as int,
                weight as int,
                width as int,
                block as int,
                eps,
                max_groups as int,
            ),
        ),
{
    if !is_multiple(x, width) || !is_multiple(width, block) || out != x || weight != width {
        return None;
    }
    row(Kernel::NormRotate, two(low_bits(width), eps), x / block, 1, max_groups)
}

/// The convolution of a batch, by the lengths of what it takes and gives.
pub open spec fn convolved(
    q: int,
    k: int,
    v: int,
    state_out: int,
    x: int,
    state: int,
    weight: int,
    max_groups: int,
) -> Option<Planned> {
    let channels = weight / 4;
    let n = x / channels;
    if channels == 0 || x % channels != 0 || n == 0 || state != 3 * channels || state_out != state
        || q / n + k / n + v / n != channels {
        None
    } else {
        in_a_row(
            Kernel::Conv,
            seq![low(n), low(channels), low(q / n), low(k / n)],
            x,
            256,
            max_groups,
        )
    }
}

/// Plans the convolution of a batch, if what it takes and gives is of sizes
/// that go together.
pub fn conv(
    q: usize,
    k: usize,
    v: usize,
    state_out: usize,
    x: usize,
    state: usize,
    weight: usize,
    max_groups: u32,
) -> (r: Option<Dispatch>)
    ensures
        meets(
            r,
            convolved(
                q as int,
                k as int,
                v as int,
                state_out as int,
                x as int,
                state as int,
                weight as int,
                max_groups as int,
            ),
        ),
{
    let channels: usize = weight / CONV_KERNEL;
    if channels == 0 || x % channels != 0 || x / channels == 0 {
        return None;
    }
    let n: usize = x / channels;
    if state != (CONV_KERNEL - 1) * channels || state_out != state {
        return None;
    }
    let (q_dim, k_dim, v_dim): (usize, usize, usize) = (q / n, k / n, v / n);
    if q_dim > channels || k_dim > channels - q_dim || v_dim != channels - q_dim - k_dim {
        return None;
    }
    row(
        Kernel::Conv,
        four(low_bits(n), low_bits(channels), low_bits(q_dim), low_bits(k_dim)),
        x,
        256,
        max_groups,
    )
}

/// The lengths of what linear attention takes and gives.
#[derive(Clone, Copy, Debug)]
pub struct DeltaLens {
    pub out: usize,
    pub q: usize,
    pub k: usize,
    pub v: usize,
    pub gates: usize,
    pub decay: usize,
    pub state: usize,
}

/// Linear attention over a batch: a workgroup for each value head. The kernel
/// is written for heads of one width.
pub open spec fn recurred(l: DeltaLens, n_k: int, n_v: int, dim: int, max_groups: int) -> Option<
    Planned,
> {
    let width = n_v * dim;
    let n = l.v as int / width;
    if width == 0 || width > usize::MAX || l.v as int % width != 0 || l.q != n * (n_k * dim) || l.k
        != l.q || l.out != l.v || l.gates != n * (2 * n_v) || l.decay != 2 * n_v || l.state
        != width * dim || dim != 128 {
        None
    } else {
        in_a_row(
            Kernel::DeltaNet,
            seq![low(n), low(n_k), low(n_v), low(dim)],
            n_v,
            1,
            max_groups,
        )
    }
}

/// Whether a number is the product of three others.
fn is_product(n: usize, a: usize, b: usize, c: usize) -> (r: bool)
    ensures
        r == (n == a * (b * c)),
{
    if a == 0 {
        assert(0 * (b * c) == 0) by (nonlinear_arith);
        return n == 0;
    }
    assert(a * (b * c) >= b * c) by (nonlinear_arith)
        requires
            a >= 1,
            b >= 0,
            c >= 0,
    ;
    match b.checked_mul(c) {
        Some(m) => match a.checked_mul(m) {
            Some(p) => n == p,
            None => false,
        },
        None => false,
    }
}

/// Plans linear attention over a batch, if what it takes and gives is of sizes
/// that go together.
pub fn delta_net(l: DeltaLens, n_k: usize, n_v: usize, dim: usize, max_groups: u32) -> (r: Option<
    Dispatch,
>)
    ensures
        meets(r, recurred(l, n_k as int, n_v as int, dim as int, max_groups as int)),
{
    let width: usize = match n_v.checked_mul(dim) {
        Some(width) => width,
        None => {
            return None;
        },
    };
    if width == 0 || l.v % width != 0 {
        return None;
    }
    let n: usize = l.v / width;
    if !is_product(l.q, n, n_k, dim) || l.k != l.q || l.out != l.v || !is_product(l.gates, n, 2, n_v)
        || !is_product(l.decay, 1, 2, n_v) || !is_product(l.state, 1, width, dim) || dim != 128 {
        return None;
    }
    row(
        Kernel::DeltaNet,
        four(low_bits(n), low_bits(n_k), low_bits(n_v), low_bits(dim)),
        n_v,
        1,
        max_groups,
    )
}

} // verus!
