//! What is planned for operations of given sizes: the kernel, what it is told,
//! and that there is a workgroup for all of the work.
use vstd::arithmetic::div_mod::{
    lemma_div_basics_3, lemma_div_pos_is_pos, lemma_fundamental_div_mod,
    lemma_fundamental_div_mod_converse, lemma_mod_bound, lemma_small_mod,
};
use vstd::prelude::*;

use super::plan::{
    ceil, convolved, each_of, in_a_row, low, norm_turned, normed, recurred, roped, stored, turned,
    DeltaLens, Kernel, Planned,
};
use super::spread::{multiplied, product, Heads};

verus! {

/// Whether a size is one that a kernel can be told.
pub open spec fn tellable(n: int) -> bool {
    0 <= n < 0x1_0000_0000
}

/// A size that can be told is told as it is.
proof fn lemma_low(n: int)
    requires
        tellable(n),
    ensures
        low(n) == n,
{
    lemma_small_mod(n as nat, 0x1_0000_0000);
}

/// Whether workgroups are enough for items of work, and none goes without.
pub open spec fn just_cover(groups: int, per_group: int, count: int) -> bool {
    groups * per_group >= count && groups * per_group < count + per_group
}

/// Rounding up covers, and no more.
proof fn lemma_just_cover(count: int, per_group: int)
    requires
        count >= 0,
        per_group > 0,
    ensures
        just_cover(ceil(count, per_group), per_group, count),
        ceil(count, per_group) >= 0,
{
    let q = ceil(count, per_group);
    lemma_fundamental_div_mod(count + per_group - 1, per_group);
    lemma_mod_bound(count + per_group - 1, per_group);
    assert(per_group * q == q * per_group) by (nonlinear_arith);
    lemma_div_pos_is_pos(count + per_group - 1, per_group);
}

/// Rounding up what is as many as it takes leaves it as it is.
proof fn lemma_one_each(count: int)
    ensures
        ceil(count, 1) == count,
{
    lemma_div_basics_3(count);
}

/// A kernel over items of work has workgroups in a row that are enough for all
/// of them, with none to spare, and is not run where the GPU does not allow as
/// many.
pub proof fn law_work_is_covered(
    kernel: Kernel,
    params: Seq<int>,
    count: int,
    per_group: int,
    max_groups: int,
    groups: int,
)
    requires
        count >= 0,
        per_group > 0,
        just_cover(groups, per_group, count),
    ensures
        groups <= max_groups ==> in_a_row(kernel, params, count, per_group, max_groups) == Some(
            Planned { kernel, params, width: groups, height: 1 },
        ),
        groups > max_groups ==> in_a_row(kernel, params, count, per_group, max_groups) is None,
{
    lemma_just_cover(count, per_group);
    let q = ceil(count, per_group);
    assert(q == groups) by (nonlinear_arith)
        requires
            per_group > 0,
            q * per_group >= count,
            q * per_group < count + per_group,
            groups * per_group >= count,
            groups * per_group < count + per_group,
    ;
}

/// Whole parts of a whole.
proof fn lemma_parts(n: int, width: int)
    requires
        n >= 0,
        width > 0,
    ensures
        (n * width) / width == n,
        (n * width) % width == 0,
{
    lemma_fundamental_div_mod_converse(n * width, width, n, 0);
}

/// An operation on each element of two vectors takes them where they are as
/// long as each other.
pub proof fn law_elements_are_planned(kernel: Kernel, x: int, y: int, max_groups: int)
    requires
        tellable(x),
    ensures
        x != y ==> each_of(kernel, x, y, max_groups) is None,
        each_of(kernel, x, x, max_groups) matches Some(p) ==> p.kernel == kernel && p.params
            == seq![x] && just_cover(p.width, 256, x) && p.height == 1,
{
    lemma_low(x);
    lemma_just_cover(x, 256);
}

/// A normalization has a workgroup for each vector, and is told how long a
/// vector is and what is added to its square.
pub proof fn law_normalization_is_planned(
    kernel: Kernel,
    count: int,
    dim: int,
    eps: u32,
    max_groups: int,
)
    requires
        0 <= count <= max_groups,
        0 < dim,
        tellable(dim),
    ensures
        normed(kernel, count * dim, dim, eps, max_groups) == Some(
            Planned { kernel, params: seq![dim, eps as int], width: count, height: 1 },
        ),
{
    lemma_parts(count, dim);
    lemma_low(dim);
    lemma_one_each(count);
}

/// The rotation of positions is told the heads, their width, how much of it
/// turns, the first position and how many there are, and covers a pair each.
pub proof fn law_positions_are_planned(
    n: int,
    pos: int,
    heads: int,
    head_dim: int,
    rot_dim: int,
    max_groups: int,
)
    requires
        0 <= n,
        0 < heads,
        0 < head_dim,
        0 <= rot_dim <= head_dim,
        rot_dim % 2 == 0,
        heads * head_dim <= usize::MAX,
        tellable(n),
        tellable(pos),
        tellable(heads),
        tellable(head_dim),
    ensures
        roped(n * (heads * head_dim), pos, heads, head_dim, rot_dim, max_groups) matches Some(p)
            ==> p.kernel == Kernel::Rope && p.params == seq![heads, head_dim, rot_dim, pos, n]
            && just_cover(p.width, 256, n * heads * rot_dim / 2) && p.height == 1,
{
    assert(heads * head_dim > 0) by (nonlinear_arith)
        requires
            heads > 0,
            head_dim > 0,
    ;
    lemma_parts(n, heads * head_dim);
    lemma_low(n);
    lemma_low(pos);
    lemma_low(heads);
    lemma_low(head_dim);
    lemma_low(rot_dim);
    assert(n * heads * rot_dim >= 0) by (nonlinear_arith)
        requires
            n >= 0,
            heads > 0,
            rot_dim >= 0,
    ;
    lemma_just_cover(n * heads * rot_dim / 2, 256);
}

/// Storing is told where it starts and how much there is, takes two at a time,
/// and never goes past the end of the cache.
pub proof fn law_storing_is_planned(cache: int, pairs_before: int, pairs: int, max_groups: int)
    requires
        0 <= pairs_before,
        0 <= pairs,
        tellable(2 * pairs_before),
        tellable(2 * pairs),
    ensures
        ({
            let r = stored(cache, 2 * pairs_before, 2 * pairs, max_groups);
            &&& 2 * pairs_before + 2 * pairs > cache ==> r is None
            &&& r matches Some(p) ==> p.kernel == Kernel::Store && p.params == seq![
                2 * pairs_before,
                2 * pairs,
            ] && just_cover(p.width, 256, pairs) && p.height == 1
        }),
{
    lemma_low(2 * pairs_before);
    lemma_low(2 * pairs);
    lemma_just_cover(pairs, 256);
}

/// How many blocks vectors have.
proof fn lemma_blocks(n: int, per: int, block: int)
    requires
        n >= 0,
        per > 0,
        block > 0,
    ensures
        (n * (per * block)) / block == n * per,
        (n * (per * block)) % (per * block) == 0,
        (per * block) % block == 0,
        per * block > 0,
        n * per >= 0,
{
    assert(n * (per * block) == (n * per) * block) by (nonlinear_arith);
    assert(per * block > 0 && n * per >= 0) by (nonlinear_arith)
        requires
            n >= 0,
            per > 0,
            block > 0,
    ;
    lemma_parts(n * per, block);
    lemma_parts(n, per * block);
    lemma_parts(per, block);
}

/// A rotation has a workgroup for each block of each vector, and is told how
/// wide the vectors are and whether it turns back.
pub proof fn law_rotation_is_planned(
    n: int,
    per: int,
    block: int,
    inverse: bool,
    max_groups: int,
)
    requires
        0 <= n,
        0 < per,
        0 < block,
        tellable(per * block),
        n * per <= max_groups,
    ensures
        turned(n * (per * block), per * block, block, inverse, max_groups) == Some(
            Planned {
                kernel: Kernel::Hadamard,
                params: seq![
                    per * block,
                    if inverse {
                        1
                    } else {
                        0
                    },
                ],
                width: n * per,
                height: 1,
            },
        ),
{
    lemma_blocks(n, per, block);
    lemma_low(per * block);
    lemma_one_each(n * per);
}

/// A normalization with a rotation has a workgroup for each block, takes as
/// many activations as it gives, and a weight for each place of a vector.
pub proof fn law_normalized_rotation_is_planned(
    out: int,
    n: int,
    weight: int,
    per: int,
    block: int,
    eps: u32,
    max_groups: int,
)
    requires
        0 <= n,
        0 < per,
        0 < block,
        tellable(per * block),
        n * per <= max_groups,
    ensures
        ({
            let r = norm_turned(
                out,
                n * (per * block),
                weight,
                per * block,
                block,
                eps,
                max_groups,
            );
            if out == n * (per * block) && weight == per * block {
                r == Some(
                    Planned {
                        kernel: Kernel::NormRotate,
                        params: seq![per * block, eps as int],
                        width: n * per,
                        height: 1,
                    },
                )
            } else {
                r is None
            }
        }),
{
    lemma_blocks(n, per, block);
    lemma_low(per * block);
    lemma_one_each(n * per);
}

/// The convolution of `n` tokens is told how many they are, how many channels
/// there are and how many of those are queries and keys; it has four taps and
/// three tokens before the batch for each channel.
pub proof fn law_convolution_is_planned(n: int, q: int, k: int, v: int, max_groups: int)
    requires
        0 < n,
        0 <= q,
        0 <= k,
        0 <= v,
        0 < q + k + v,
        tellable(n),
        tellable(q + k + v),
    ensures
        ({
            let channels = q + k + v;
            convolved(
                n * q,
                n * k,
                n * v,
                3 * channels,
                n * channels,
                3 * channels,
                4 * channels,
                max_groups,
            ) matches Some(p) ==> p.kernel == Kernel::Conv && p.params == seq![n, channels, q, k]
                && just_cover(p.width, 256, n * channels) && p.height == 1
        }),
        ({
            let channels = q + k + v;
            ceil(n * channels, 256) <= max_groups ==> convolved(
                n * q,
                n * k,
                n * v,
                3 * channels,
                n * channels,
                3 * channels,
                4 * channels,
                max_groups,
            ) is Some
        }),
{
    let channels = q + k + v;
    lemma_parts(n, channels);
    assert(n * q == q * n && n * k == k * n && n * v == v * n && n * channels >= 0)
        by (nonlinear_arith)
        requires
            n > 0,
            channels > 0,
    ;
    lemma_parts(q, n);
    lemma_parts(k, n);
    lemma_parts(v, n);
    assert((4 * channels) / 4 == channels);
    lemma_low(n);
    lemma_low(channels);
    lemma_low(q);
    lemma_low(k);
    lemma_just_cover(n * channels, 256);
}

/// Linear attention over `n` tokens has a workgroup for each value head, and is
/// told how many tokens, key heads and value heads there are and how wide a
/// head is. A token has two gates for each value head, and the recurrence a
/// square matrix.
pub proof fn law_linear_attention_is_planned(
    l: DeltaLens,
    n: int,
    n_k: int,
    n_v: int,
    max_groups: int,
)
    requires
        0 <= n,
        0 < n_v <= max_groups,
        0 <= n_k,
        n_v * 128 <= usize::MAX,
        tellable(n),
        tellable(n_k),
        tellable(n_v),
        l.v == n * (n_v * 128),
        l.out == n * (n_v * 128),
        l.q == n * (n_k * 128),
        l.k == n * (n_k * 128),
        l.gates == n * (2 * n_v),
        l.decay == 2 * n_v,
        l.state == n_v * 128 * 128,
    ensures
        recurred(l, n_k, n_v, 128, max_groups) == Some(
            Planned {
                kernel: Kernel::DeltaNet,
                params: seq![n, n_k, n_v, 128],
                width: n_v,
                height: 1,
            },
        ),
{
    lemma_parts(n, n_v * 128);
    lemma_low(n);
    lemma_low(n_k);
    lemma_low(n_v);
    lemma_low(128);
    lemma_one_each(n_v);
}

/// The kernel of a product is told the matrix's rows and columns, how many
/// tokens there are and how wide the grid is. It goes by the tokens: through a
/// ternary matrix one alone, up to eight together, up to thirty-one one after
/// another, and from then on in tiles.
pub proof fn law_product_goes_by_tokens(
    rows: int,
    cols: int,
    n: int,
    ternary: bool,
    max_groups: int,
)
    requires
        0 < n,
        tellable(rows),
        tellable(cols),
        tellable(n),
        tellable(max_groups),
    ensures
        product(rows, cols, n, ternary, max_groups) matches Some(p) ==> {
            &&& !ternary ==> p.kernel == Kernel::Matmul
            &&& ternary && n == 1 ==> p.kernel == Kernel::MatmulTernary
            &&& ternary && 2 <= n <= 8 ==> p.kernel == Kernel::MatmulTernaryFew
            &&& ternary && 9 <= n <= 31 ==> p.kernel == Kernel::MatmulTernaryBatch
            &&& ternary && n >= 32 ==> p.kernel == Kernel::MatmulTernaryTile
            &&& p.params == seq![rows, cols, n, p.width]
            &&& 0 < p.width <= max_groups
        },
{
    lemma_low(rows);
    lemma_low(cols);
    lemma_low(n);
    if let Some(p) = product(rows, cols, n, ternary, max_groups) {
        lemma_just_cover(rows, super::spread::product_kernel(ternary, n).1);
        assert(0 < p.width <= max_groups);
        lemma_low(p.width);
    }
}

/// A product takes whole tokens and gives a row's result for each of them, and
/// packs the tokens first where a ternary matrix takes them together.
pub proof fn law_product_packs_its_tokens(
    rows: int,
    cols: int,
    n: int,
    out: int,
    ternary: bool,
    max_groups: int,
)
    requires
        0 < n,
        0 < cols,
        cols % 8 == 0,
        tellable(cols),
        tellable(n),
    ensures
        out != n * rows ==> multiplied(rows, cols, n * cols, out, ternary, max_groups) is None,
        multiplied(rows, cols, n * cols, n * rows, ternary, max_groups) matches Some(list) ==> {
            &&& list.len() > 0
            &&& product(rows, cols, n, ternary, max_groups) == Some(list.last())
            &&& if ternary && (2 <= n <= 8 || n >= 32) {
                &&& list.len() == 2
                &&& list[0].kernel == Kernel::PackHalves
                &&& list[0].params == seq![n, cols]
            } else {
                list.len() == 1
            }
        },
{
    lemma_parts(n, cols);
    lemma_low(n);
    lemma_low(cols);
}

/// A part of attention is told the heads, their width, the heads of the keys,
/// where the batch and where the part starts and into how many chunks the
/// positions are cut. It has a workgroup for each token's, each key head's and
/// each chunk's work, and where there is more than one chunk, one for each
/// token's and head's to put them together.
pub proof fn law_attention_is_planned(h: Heads, n: int, first: int, tokens: int)
    requires
        0 <= first,
        0 < tokens,
        first + tokens <= n,
        tellable(h.n_heads as int),
        tellable(h.head_dim as int),
        tellable(h.n_kv_heads as int),
        tellable(h.pos + n),
    ensures
        ({
            let list = h.part(n, first, tokens);
            let chunks = h.chunks(n);
            let told = seq![
                h.n_heads as int,
                h.head_dim as int,
                h.n_kv_heads as int,
                h.pos as int,
                first,
                chunks,
            ];
            &&& just_cover(chunks, 128, h.pos + n)
            &&& list[0].kernel == Kernel::Attention
            &&& list[0].params == told
            &&& list[0].width == tokens * h.n_kv_heads * chunks
            &&& list[0].height == 1
            &&& h.pos + n <= 128 ==> list.len() == 1
            &&& h.pos + n > 128 ==> {
                &&& list.len() == 2
                &&& list[1].kernel == Kernel::AttentionCombine
                &&& list[1].params == told
                &&& list[1].width == tokens * h.n_heads
                &&& list[1].height == 1
            }
        }),
{
    lemma_just_cover(h.pos + n, 128);
    lemma_low(h.n_heads as int);
    lemma_low(h.head_dim as int);
    lemma_low(h.n_kv_heads as int);
    lemma_low(h.pos as int);
    lemma_low(first);
    lemma_low(h.chunks(n));
}

/// Attention over `n` tokens takes as many of them at once as the partials of
/// fit into 2 to the 24 floats: for each head and chunk of a token two and as
/// many as a head is wide. Heads are whole words of four and no wider than 256,
/// and no more than eight of them share the keys of one.
pub proof fn law_attention_takes_whole_tokens(
    h: Heads,
    n: int,
    out: int,
    at_once: int,
    max_groups: int,
)
    requires
        0 < n,
        0 < h.n_heads * h.head_dim <= usize::MAX,
        0 < h.n_kv_heads,
        at_once * (h.n_heads * h.chunks(n) * (h.head_dim + 2)) <= 0x100_0000,
        (at_once + 1) * (h.n_heads * h.chunks(n) * (h.head_dim + 2)) > 0x100_0000,
        at_once > 0,
    ensures
        ({
            let q = n * (h.n_heads * h.head_dim);
            let fits = out == q && h.head_dim % 4 == 0 && h.head_dim <= 256 && h.n_heads as int
                / h.n_kv_heads as int <= 8;
            h.attended(q, out, max_groups) == if fits {
                h.parts(n, 0, at_once, max_groups)
            } else {
                None
            }
        }),
{
    let width = h.n_heads * h.head_dim;
    let per = h.per_token(n);
    lemma_parts(n, width);
    assert(per > 0 && per <= 0x100_0000) by (nonlinear_arith)
        requires
            at_once > 0,
            at_once * per <= 0x100_0000,
            (at_once + 1) * per > 0x100_0000,
    ;
    let rest = 0x100_0000 - at_once * per;
    assert((at_once + 1) * per == at_once * per + per) by (nonlinear_arith);
    lemma_fundamental_div_mod_converse(0x100_0000, per, at_once, rest);
}

} // verus!
