//! Where the weights of the file go: which rows of which tensor are which rows
//! of the matrices that the model runs on.
use vstd::arithmetic::div_mod::{lemma_fundamental_div_mod, lemma_fundamental_div_mod_converse};
use vstd::prelude::*;

use super::config::Config;
use super::heads::{tiled, untiled};
use super::layer::{layer_of, MixerW};
use super::network::net_of;
use super::rotation::{signs_for, signs_in};
use super::tensors::{
    bytes_of, every_other, floats_of, halves_of, paired, row_of, untiled_from,
};
use crate::bytes::le;
use crate::device::{Mat, Weights};
use crate::gguf::Gguf;
use crate::text::digits;

verus! {

/// The name of a tensor of a layer.
pub open spec fn named(i: int, suffix: Seq<char>) -> Seq<char> {
    "blk."@ + digits(i as nat) + suffix
}

/// A row of a matrix that is laid out row by row.
pub open spec fn row_at<T>(data: Seq<T>, r: int, width: int) -> Seq<T> {
    data.subrange(r * width, r * width + width)
}

/// Whether value head `h` of the model is head `t` of the file: the file has
/// the heads of one key head after another `n_k` apart, and the model has
/// them in a row.
pub open spec fn same_head(h: int, t: int, n_k: int, n_v: int) -> bool {
    &&& 0 <= h < n_v
    &&& 0 <= t < n_v
    &&& 0 < n_k
    &&& n_v % n_k == 0
    &&& t % n_k == h / (n_v / n_k)
    &&& t / n_k == h % (n_v / n_k)
}

/// What is at a place within a head.
proof fn lemma_untiled<T>(data: Seq<T>, n_k: int, n_v: int, per: int, h: int, t: int, k: int)
    requires
        same_head(h, t, n_k, n_v),
        0 <= k < per,
        data.len() == n_v * per,
    ensures
        0 <= h * per + k < data.len(),
        0 <= t * per + k < data.len(),
        untiled(data, n_k, n_v, per)[h * per + k] == data[t * per + k],
{
    lemma_fundamental_div_mod_converse(h * per + k, per, h, k);
    lemma_fundamental_div_mod(t, n_k);
    assert(n_k * (t / n_k) == (t / n_k) * n_k) by (nonlinear_arith);
    assert(tiled(h, n_k, n_v) == t);
    assert(0 <= h * per && (h + 1) * per <= n_v * per && (h + 1) * per == h * per + per)
        by (nonlinear_arith)
        requires
            0 <= h,
            h + 1 <= n_v,
            per > 0,
    ;
    assert(0 <= t * per && (t + 1) * per <= n_v * per && (t + 1) * per == t * per + per)
        by (nonlinear_arith)
        requires
            0 <= t,
            t + 1 <= n_v,
            per > 0,
    ;
}

/// A row within a head of so many rows.
proof fn lemma_untiled_row<T>(
    data: Seq<T>,
    n_k: int,
    n_v: int,
    dim: int,
    width: int,
    h: int,
    t: int,
    r: int,
)
    requires
        same_head(h, t, n_k, n_v),
        0 <= r < dim,
        0 <= width,
        data.len() == n_v * (dim * width),
    ensures
        row_at(untiled(data, n_k, n_v, dim * width), h * dim + r, width) == row_at(
            data,
            t * dim + r,
            width,
        ),
        0 <= (h * dim + r) * width,
        (h * dim + r) * width + width <= data.len(),
        0 <= (t * dim + r) * width,
        (t * dim + r) * width + width <= data.len(),
{
    let per = dim * width;
    let all = untiled(data, n_k, n_v, per);
    assert((h * dim + r) * width == h * per + r * width && (t * dim + r) * width == t * per + r
        * width) by (nonlinear_arith)
        requires
            per == dim * width,
    ;
    assert(0 <= r * width && r * width + width <= per) by (nonlinear_arith)
        requires
            0 <= r,
            r + 1 <= dim,
            0 <= width,
            per == dim * width,
    ;
    assert(0 <= h * per && (h + 1) * per <= n_v * per && (h + 1) * per == h * per + per)
        by (nonlinear_arith)
        requires
            0 <= h,
            h + 1 <= n_v,
            per >= 0,
    ;
    assert(0 <= t * per && (t + 1) * per <= n_v * per && (t + 1) * per == t * per + per)
        by (nonlinear_arith)
        requires
            0 <= t,
            t + 1 <= n_v,
            per >= 0,
    ;
    let (a, b) = (row_at(all, h * dim + r, width), row_at(data, t * dim + r, width));
    assert forall|j: int| 0 <= j < width implies #[trigger] a[j] == b[j] by {
        lemma_untiled(data, n_k, n_v, per, h, t, r * width + j);
    }
    assert(a =~= b);
}

/// The decay and forget projections of a linear layer are one matrix on the
/// device, whose first rows are those of the decay, a row for each value head,
/// and whose other rows are those of the write strength. The gates of a token
/// come in that order: row `h` is the row of `ssm_alpha` for the head that is
/// head `h` of the model, and row `v_heads + h` that of `ssm_beta`.
pub proof fn law_gates_are_alpha_then_beta(g: &Gguf, c: &Config, i: int, h: int, t: int)
    requires
        !c.attends(i),
        same_head(h, t, c.k_heads as int, c.v_heads as int),
        halves_of(g, named(i, ".ssm_alpha.weight"@)).len() == c.v_heads * c.hidden,
        halves_of(g, named(i, ".ssm_beta.weight"@)).len() == c.v_heads * c.hidden,
    ensures
        ({
            let hidden = c.hidden as int;
            let alpha = halves_of(g, named(i, ".ssm_alpha.weight"@));
            let beta = halves_of(g, named(i, ".ssm_beta.weight"@));
            &&& layer_of(g, c, i).mixer matches MixerW::Linear(w)
            &&& w.ab.weights matches Weights::Bf16(ab)
            &&& ab.len() == 2 * (c.v_heads * c.hidden)
            &&& row_at(ab, h, hidden) == row_at(alpha, t, hidden)
            &&& row_at(ab, c.v_heads + h, hidden) == row_at(beta, t, hidden)
        }),
{
    let (nk, nv, d) = (c.k_heads as int, c.v_heads as int, c.hidden as int);
    let alpha = halves_of(g, named(i, ".ssm_alpha.weight"@));
    let beta = halves_of(g, named(i, ".ssm_beta.weight"@));
    let (a, b) = (untiled(alpha, nk, nv, d), untiled(beta, nk, nv, d));
    let ab = a + b;
    assert(1 * d == d);
    lemma_untiled_row(alpha, nk, nv, 1, d, h, t, 0);
    lemma_untiled_row(beta, nk, nv, 1, d, h, t, 0);
    assert((nv + h) * d == nv * d + h * d) by (nonlinear_arith);
    assert(row_at(ab, h, d) =~= row_at(a, h, d));
    assert(row_at(ab, nv + h, d) =~= row_at(b, h, d));
    assert(layer_of(g, c, i).mixer->Linear_0.ab.weights == Weights::Bf16(ab));
}

/// The decay rates of the value heads come first, and their biases behind.
pub proof fn law_decay_is_rate_then_bias(g: &Gguf, c: &Config, i: int, h: int, t: int)
    requires
        !c.attends(i),
        same_head(h, t, c.k_heads as int, c.v_heads as int),
        floats_of(g, named(i, ".ssm_a"@)).len() == c.v_heads,
        floats_of(g, named(i, ".ssm_dt.bias"@)).len() == c.v_heads,
    ensures
        layer_of(g, c, i).mixer matches MixerW::Linear(w) && w.decay.len() == 2 * c.v_heads
            && w.decay[h] == floats_of(g, named(i, ".ssm_a"@))[t] && w.decay[c.v_heads + h]
            == floats_of(g, named(i, ".ssm_dt.bias"@))[t],
{
    let (nk, nv) = (c.k_heads as int, c.v_heads as int);
    let rate = floats_of(g, named(i, ".ssm_a"@));
    let bias = floats_of(g, named(i, ".ssm_dt.bias"@));
    lemma_untiled(rate, nk, nv, 1, h, t, 0);
    lemma_untiled(bias, nk, nv, 1, h, t, 0);
    let w = layer_of(g, c, i).mixer->Linear_0;
    assert(w.decay == untiled(rate, nk, nv, 1) + untiled(bias, nk, nv, 1));
}

/// The convolution has four taps for each channel: those of the queries and
/// keys are as the file has them, and those of a value head are those of the
/// same head in the file.
pub proof fn law_taps_go_with_their_channels(
    g: &Gguf,
    c: &Config,
    i: int,
    h: int,
    t: int,
    r: int,
    tap: int,
)
    requires
        !c.attends(i),
        same_head(h, t, c.k_heads as int, c.v_heads as int),
        floats_of(g, named(i, ".ssm_conv1d.weight"@)).len() == 4 * (2 * (c.k_heads * c.state_dim)
            + c.v_heads * c.state_dim),
        0 <= r < c.state_dim,
        0 <= tap < 4,
    ensures
        ({
            let file = floats_of(g, named(i, ".ssm_conv1d.weight"@));
            let first = 2 * (c.k_heads * c.state_dim);
            &&& layer_of(g, c, i).mixer matches MixerW::Linear(w)
            &&& w.conv.len() == file.len()
            &&& forall|j: int| 0 <= j < 4 * first ==> #[trigger] w.conv[j] == file[j]
            &&& w.conv[4 * (first + h * c.state_dim + r) + tap] == file[4 * (first + t * c.state_dim
                + r) + tap]
        }),
{
    let (nk, nv, dim) = (c.k_heads as int, c.v_heads as int, c.state_dim as int);
    let file = floats_of(g, named(i, ".ssm_conv1d.weight"@));
    let first = 2 * (c.k_heads * c.state_dim);
    let at = first * 4;
    let rest = file.skip(at);
    let w = layer_of(g, c, i).mixer->Linear_0;
    assert(first >= 0) by (nonlinear_arith)
        requires
            first == 2 * (c.k_heads * c.state_dim),
    ;
    assert(nv * (dim * 4) == 4 * (nv * dim)) by (nonlinear_arith);
    assert(nv * dim >= 0) by (nonlinear_arith)
        requires
            nv >= 0,
            dim >= 0,
    ;
    assert(w.conv == untiled_from(file, 2 * c.k_dim() * 4, nk, nv, dim * 4));
    assert(2 * c.k_dim() * 4 == at);
    lemma_untiled(rest, nk, nv, dim * 4, h, t, 4 * r + tap);
    assert(h * (dim * 4) == 4 * (h * dim) && t * (dim * 4) == 4 * (t * dim)) by (nonlinear_arith);
    let a = 4 * (first + h * dim + r) + tap;
    let b = 4 * (first + t * dim + r) + tap;
    assert(a - at == h * (dim * 4) + (4 * r + tap));
    assert(b - at == t * (dim * 4) + (4 * r + tap));
    assert(untiled(rest, nk, nv, dim * 4).len() == rest.len());
    assert(w.conv[a] == untiled(rest, nk, nv, dim * 4)[a - at]);
    assert(file[b] == rest[b - at]);
}

/// The projection into queries, keys and values: the rows of the queries and
/// keys are as the file has them, and the rows of a value head are those of
/// the same head in the file.
pub proof fn law_values_are_grouped(g: &Gguf, c: &Config, i: int, h: int, t: int, r: int)
    requires
        !c.attends(i),
        same_head(h, t, c.k_heads as int, c.v_heads as int),
        bytes_of(g, named(i, ".attn_qkv.weight"@)).len() == (2 * (c.k_heads * c.state_dim)
            + c.v_heads * c.state_dim) * row_of(g, named(i, ".attn_qkv.weight"@)),
        0 <= r < c.state_dim,
    ensures
        ({
            let name = named(i, ".attn_qkv.weight"@);
            let (file, row) = (bytes_of(g, name), row_of(g, name));
            let first = 2 * (c.k_heads * c.state_dim);
            &&& layer_of(g, c, i).mixer matches MixerW::Linear(w)
            &&& w.qkv.rows == g.tensor_map()[name].dims[1]
            &&& w.qkv.cols == g.tensor_map()[name].dims[0]
            &&& w.qkv.weights matches Weights::Ternary(data)
            &&& data.len() == file.len()
            &&& data.take(first * row) == file.take(first * row)
            &&& row_at(data, first + (h * c.state_dim + r), row) == row_at(
                file,
                first + (t * c.state_dim + r),
                row,
            )
        }),
{
    let (nk, nv, dim) = (c.k_heads as int, c.v_heads as int, c.state_dim as int);
    let name = named(i, ".attn_qkv.weight"@);
    let (file, row) = (bytes_of(g, name), row_of(g, name));
    let first = 2 * (c.k_heads * c.state_dim);
    let at = first * row;
    let rest = file.skip(at);
    let w = layer_of(g, c, i).mixer->Linear_0;
    let data = w.qkv.weights->Ternary_0;
    assert(first >= 0) by (nonlinear_arith)
        requires
            first == 2 * (c.k_heads * c.state_dim),
    ;
    assert(row >= 0);
    assert(at >= 0) by (nonlinear_arith)
        requires
            at == first * row,
            first >= 0,
            row >= 0,
    ;
    assert((first + nv * dim) * row == at + nv * (dim * row)) by (nonlinear_arith)
        requires
            at == first * row,
    ;
    assert(nv * (dim * row) >= 0) by (nonlinear_arith)
        requires
            nv >= 0,
            dim >= 0,
            row >= 0,
    ;
    assert(2 * c.k_heads * (c.state_dim * row) == at) by (nonlinear_arith)
        requires
            at == first * row,
            first == 2 * (c.k_heads * c.state_dim),
    ;
    assert(data == untiled_from(file, at, nk, nv, dim * row));
    let part = untiled(rest, nk, nv, dim * row);
    lemma_untiled_row(rest, nk, nv, dim, row, h, t, r);
    let (a, b) = (first + (h * dim + r), first + (t * dim + r));
    assert(a * row == at + (h * dim + r) * row && b * row == at + (t * dim + r) * row)
        by (nonlinear_arith)
        requires
            a == first + (h * dim + r),
            b == first + (t * dim + r),
            at == first * row,
    ;
    assert(data.take(at) =~= file.take(at));
    assert(row_at(data, a, row) =~= row_at(part, h * dim + r, row));
    assert(row_at(file, b, row) =~= row_at(rest, t * dim + r, row));
}

/// The output gate of linear attention: the rows of a value head are those of
/// the same head in the file.
pub proof fn law_output_gates_are_grouped(g: &Gguf, c: &Config, i: int, h: int, t: int, r: int)
    requires
        !c.attends(i),
        same_head(h, t, c.k_heads as int, c.v_heads as int),
        bytes_of(g, named(i, ".attn_gate.weight"@)).len() == c.v_heads * (c.state_dim * row_of(
            g,
            named(i, ".attn_gate.weight"@),
        )),
        0 <= r < c.state_dim,
    ensures
        ({
            let name = named(i, ".attn_gate.weight"@);
            let (file, row) = (bytes_of(g, name), row_of(g, name));
            &&& layer_of(g, c, i).mixer matches MixerW::Linear(w)
            &&& w.z.rows == g.tensor_map()[name].dims[1]
            &&& w.z.cols == g.tensor_map()[name].dims[0]
            &&& w.z.weights matches Weights::Ternary(data)
            &&& data.len() == file.len()
            &&& row_at(data, h * c.state_dim + r, row) == row_at(file, t * c.state_dim + r, row)
        }),
{
    let name = named(i, ".attn_gate.weight"@);
    let (file, row) = (bytes_of(g, name), row_of(g, name));
    lemma_untiled_row(
        file,
        c.k_heads as int,
        c.v_heads as int,
        c.state_dim as int,
        row,
        h,
        t,
        r,
    );
}

/// The queries of full attention and their output gates stand head by head in
/// one matrix of the file, the rows of a head's query before those of its
/// gate: row `r` of head `h` of the queries is row `r` of its even parts, and
/// that of the gates row `r` of its odd parts.
pub proof fn law_queries_come_before_their_gates(g: &Gguf, c: &Config, i: int, h: int, r: int)
    requires
        c.attends(i),
        0 <= r < c.head_dim,
        0 <= h,
        row_of(g, named(i, ".attn_q.weight"@)) > 0,
        (h + 1) * (2 * (c.head_dim * row_of(g, named(i, ".attn_q.weight"@)))) <= bytes_of(
            g,
            named(i, ".attn_q.weight"@),
        ).len(),
    ensures
        ({
            let name = named(i, ".attn_q.weight"@);
            let (file, row, dim) = (bytes_of(g, name), row_of(g, name), c.head_dim as int);
            &&& layer_of(g, c, i).mixer matches MixerW::Attention(w)
            &&& w.q.rows == g.tensor_map()[name].dims[1] / 2
            &&& w.gate.rows == g.tensor_map()[name].dims[1] / 2
            &&& w.q.cols == g.tensor_map()[name].dims[0]
            &&& w.gate.cols == g.tensor_map()[name].dims[0]
            &&& w.q.weights matches Weights::Ternary(q)
            &&& w.gate.weights matches Weights::Ternary(gate)
            &&& row_at(q, h * dim + r, row) == row_at(file, 2 * h * dim + r, row)
            &&& row_at(gate, h * dim + r, row) == row_at(file, (2 * h + 1) * dim + r, row)
        }),
{
    let name = named(i, ".attn_q.weight"@);
    let (file, row, dim) = (bytes_of(g, name), row_of(g, name), c.head_dim as int);
    let head = c.head_dim * row;
    let two = 2 * head;
    let len = file.len() as int;
    let both = paired(file, head);
    assert(head > 0) by (nonlinear_arith)
        requires
            head == dim * row,
            dim > 0,
            row > 0,
    ;
    lemma_fundamental_div_mod(len, two);
    vstd::arithmetic::div_mod::lemma_mod_bound(len, two);
    let n = len / two;
    assert(two * n == n * two) by (nonlinear_arith);
    assert(h + 1 <= n) by (nonlinear_arith)
        requires
            (h + 1) * two <= len,
            len == two * n + len % two,
            len % two < two,
            two > 0,
    ;
    assert((h + 1) * two <= n * two && h * two + two == (h + 1) * two && 0 <= h * two)
        by (nonlinear_arith)
        requires
            0 <= h,
            h + 1 <= n,
            two > 0,
    ;
    assert(n * two / 2 == n * head) by {
        assert(n * two == 2 * (n * head)) by (nonlinear_arith)
            requires
                two == 2 * head,
        ;
    }
    let (q, gate) = (every_other(both, head, false), every_other(both, head, true));
    assert(h * head + head <= n * head && 0 <= h * head) by (nonlinear_arith)
        requires
            0 <= h,
            h + 1 <= n,
            head > 0,
    ;
    assert(0 <= r * row && r * row + row <= head) by (nonlinear_arith)
        requires
            0 <= r,
            r + 1 <= dim,
            row > 0,
            head == dim * row,
    ;
    assert((h * dim + r) * row == h * head + r * row && (2 * h * dim + r) * row == h * two + r * row
        && ((2 * h + 1) * dim + r) * row == h * two + head + r * row) by (nonlinear_arith)
        requires
            head == dim * row,
            two == 2 * head,
    ;
    let (a, b) = (row_at(q, h * dim + r, row), row_at(gate, h * dim + r, row));
    let (x, y) = (row_at(file, 2 * h * dim + r, row), row_at(file, (2 * h + 1) * dim + r, row));
    assert forall|j: int| 0 <= j < row implies #[trigger] a[j] == x[j] && b[j] == y[j] by {
        let at = h * head + (r * row + j);
        lemma_fundamental_div_mod_converse(at, head, h, r * row + j);
        assert(q[at] == both[h * two + (r * row + j)]);
        assert(gate[at] == both[h * two + head + (r * row + j)]);
    }
    assert(a =~= x);
    assert forall|j: int| 0 <= j < row implies #[trigger] b[j] == y[j] by {
        assert(a[j] == x[j]);
    }
    assert(b =~= y);
}

/// Whether a matrix is a tensor of the file as it is.
pub open spec fn is_tensor(g: &Gguf, m: Mat, name: Seq<char>) -> bool {
    &&& m.rows == g.tensor_map()[name].dims[1]
    &&& m.cols == g.tensor_map()[name].dims[0]
    &&& m.weights == Weights::Ternary(g.holds(g.tensor_map()[name])->Ok_0)
}

/// Whether numbers are those of a tensor of the file, each of four bytes, the
/// lowest first.
pub open spec fn are_floats(g: &Gguf, w: Seq<u32>, name: Seq<char>) -> bool {
    let bytes = g.holds(g.tensor_map()[name])->Ok_0;
    &&& w.len() == bytes.len() / 4
    &&& forall|j: int|
        0 <= j < w.len() ==> (#[trigger] w[j]) as int == bytes[4 * j] + 256 * bytes[4 * j + 1]
            + 65536 * bytes[4 * j + 2] + 16777216 * bytes[4 * j + 3]
}

/// Numbers of four bytes.
proof fn lemma_floats(g: &Gguf, name: Seq<char>)
    ensures
        are_floats(g, floats_of(g, name), name),
{
    let bytes = bytes_of(g, name);
    let w = floats_of(g, name);
    assert forall|j: int| 0 <= j < w.len() implies (#[trigger] w[j]) as int == bytes[4 * j] + 256
        * bytes[4 * j + 1] + 65536 * bytes[4 * j + 2] + 16777216 * bytes[4 * j + 3] by {
        let s = bytes.subrange(4 * j, 4 * j + 4);
        reveal_with_fuel(le, 5);
        let (a, b, d) = (s.drop_first(), s.drop_first().drop_first(), s.drop_first().drop_first().drop_first());
        assert(s[0] == bytes[4 * j] && a[0] == bytes[4 * j + 1] && b[0] == bytes[4 * j + 2] && d[0]
            == bytes[4 * j + 3]);
        assert(d.drop_first().len() == 0);
    }
}

/// The other weights of a layer are the tensors of their names, as the file
/// has them.
pub proof fn law_weights_go_by_their_names(g: &Gguf, c: &Config, i: int)
    ensures
        ({
            let w = layer_of(g, c, i);
            &&& are_floats(g, w.attn_norm, named(i, ".attn_norm.weight"@))
            &&& are_floats(g, w.mlp_norm, named(i, ".post_attention_norm.weight"@))
            &&& is_tensor(g, w.gate, named(i, ".ffn_gate.weight"@))
            &&& is_tensor(g, w.up, named(i, ".ffn_up.weight"@))
            &&& is_tensor(g, w.down, named(i, ".ffn_down.weight"@))
            &&& match w.mixer {
                MixerW::Attention(a) => {
                    &&& c.attends(i)
                    &&& is_tensor(g, a.k, named(i, ".attn_k.weight"@))
                    &&& is_tensor(g, a.v, named(i, ".attn_v.weight"@))
                    &&& is_tensor(g, a.o, named(i, ".attn_output.weight"@))
                    &&& are_floats(g, a.q_norm, named(i, ".attn_q_norm.weight"@))
                    &&& are_floats(g, a.k_norm, named(i, ".attn_k_norm.weight"@))
                },
                MixerW::Linear(l) => {
                    &&& !c.attends(i)
                    &&& are_floats(g, l.norm, named(i, ".ssm_norm.weight"@))
                    &&& is_tensor(g, l.out, named(i, ".ssm_out.weight"@))
                    &&& l.ab.rows == 2 * g.tensor_map()[named(i, ".ssm_alpha.weight"@)].dims[1]
                    &&& l.ab.cols == g.tensor_map()[named(i, ".ssm_alpha.weight"@)].dims[0]
                },
            }
        }),
{
    lemma_floats(g, named(i, ".attn_norm.weight"@));
    lemma_floats(g, named(i, ".post_attention_norm.weight"@));
    lemma_floats(g, named(i, ".attn_q_norm.weight"@));
    lemma_floats(g, named(i, ".attn_k_norm.weight"@));
    lemma_floats(g, named(i, ".ssm_norm.weight"@));
}

/// The weights of the model are those of its layers, in order, and of the head;
/// every so many layers, the last is full attention.
pub proof fn law_layers_come_in_order(g: &Gguf, c: &Config, eps: u32, rope: Seq<u32>, i: int)
    requires
        0 <= i < c.layers,
        c.full_attention_interval > 0,
    ensures
        ({
            let net = net_of(g, c, eps, rope);
            &&& net.layers.len() == c.layers
            &&& net.layers[i] == layer_of(g, c, i)
            &&& (net.layers[i].mixer is Attention) == ((i + 1) % (c.full_attention_interval as int)
                == 0)
            &&& are_floats(g, net.norm, "output_norm.weight"@)
            &&& is_tensor(g, net.head, "output.weight"@)
        }),
{
    lemma_floats(g, "output_norm.weight"@);
}

/// The numbers of a tensor in bf16 are of two bytes each, the lower first.
pub proof fn law_halves_are_pairs_of_bytes(g: &Gguf, name: Seq<char>, j: int)
    requires
        0 <= j < halves_of(g, name).len(),
    ensures
        ({
            let bytes = g.holds(g.tensor_map()[name])->Ok_0;
            &&& halves_of(g, name).len() == bytes.len() / 2
            &&& halves_of(g, name)[j] as int == bytes[2 * j] + 256 * bytes[2 * j + 1]
        }),
{
    let bytes = bytes_of(g, name);
    let s = bytes.subrange(2 * j, 2 * j + 2);
    reveal_with_fuel(le, 3);
    assert(s[0] == bytes[2 * j] && s.drop_first()[0] == bytes[2 * j + 1]);
    assert(s.drop_first().drop_first().len() == 0);
}

/// What is turned is turned with the signs of its own width: the residual
/// stream, what full attention and what linear attention give, and the units
/// of the feed-forward network. The rows of the embedding table are those of
/// `token_embd.weight`.
pub proof fn law_signs_go_by_what_is_turned(g: &Gguf, c: &Config, eps: u32, rope: Seq<u32>)
    requires
        g.holds(g.tensor_map()["token_embd.weight"@]) is Ok,
    ensures
        ({
            let net = net_of(g, c, eps, rope);
            let list = signs_in(g.meta_map());
            &&& signs_for(list, c.hidden as int) matches Some(s) ==> net.signs == s
            &&& signs_for(list, c.heads * c.head_dim) matches Some(s) ==> net.signs_q == s
            &&& signs_for(list, c.v_heads * c.state_dim) matches Some(s) ==> net.signs_v == s
            &&& signs_for(list, c.intermediate as int) matches Some(s) ==> net.signs_ffn == s
            &&& net.table == g.holds(g.tensor_map()["token_embd.weight"@])->Ok_0
            &&& net.eps == eps
            &&& net.rope == rope
        }),
{
}

} // verus!
