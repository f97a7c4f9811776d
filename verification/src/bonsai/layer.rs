//! A layer's weights: what they are in the file, and on the device.
use vstd::prelude::*;

use super::config::{fault_if, first, multiple, Config};
use super::dims::Dims;
use super::fitting::{grouped, is_taken, takes};
use super::heads::{lemma_arranged, untile, untiled};
use super::loader::Loader;
use super::tensors::{
    bytes_of, cols_of, every_other, floats_of, halves_of, head_bytes, misshapen, no_bf16, no_floats,
    no_floats_of, no_ternary, paired, part, part_name, read_bf16, read_floats_of, read_ternary,
    row_of, rows_of, split_heads, ternary_mat, ternary_of, untile_from, untiled_from, Matrix,
};
use crate::bytes::push_all;
use crate::device::{Device, Mat, Weights};
use crate::gguf::Gguf;
use crate::tensor::Tensor;
use crate::text::{join3, texts};

verus! {

/// The weights of full attention.
pub ghost struct AttentionW {
    pub q: Mat,
    pub gate: Mat,
    pub k: Mat,
    pub v: Mat,
    pub o: Mat,
    pub q_norm: Seq<u32>,
    pub k_norm: Seq<u32>,
}

/// The weights of linear attention.
pub ghost struct LinearW {
    pub qkv: Mat,
    pub z: Mat,
    pub ab: Mat,
    pub conv: Seq<u32>,
    pub decay: Seq<u32>,
    pub norm: Seq<u32>,
    pub out: Mat,
}

/// The weights of what mixes the tokens in a layer.
pub ghost enum MixerW {
    Attention(AttentionW),
    Linear(LinearW),
}

/// The weights of a layer.
pub ghost struct LayerW {
    pub attn_norm: Seq<u32>,
    pub mixer: MixerW,
    pub mlp_norm: Seq<u32>,
    pub gate: Mat,
    pub up: Mat,
    pub down: Mat,
}

impl AttentionW {
    /// Whether the weights fit the activations of an architecture.
    pub open spec fn shaped(self, c: &Config) -> bool {
        &&& c.heads_fit()
        &&& takes(self.q, c.hidden as int, c.q_dim())
        &&& takes(self.gate, c.hidden as int, c.q_dim())
        &&& takes(self.k, c.hidden as int, c.kv_dim())
        &&& takes(self.v, c.hidden as int, c.kv_dim())
        &&& takes(self.o, c.q_dim(), c.hidden as int)
        &&& grouped(self.q_norm, c.q_dim())
        &&& grouped(self.k_norm, c.kv_dim())
    }
}

impl LinearW {
    /// Whether the weights fit the activations of an architecture.
    pub open spec fn shaped(self, c: &Config) -> bool {
        &&& c.groups_fit()
        &&& takes(self.qkv, c.hidden as int, c.channels())
        &&& takes(self.z, c.hidden as int, c.v_dim())
        &&& takes(self.ab, c.hidden as int, 2 * c.v_heads)
        &&& self.conv.len() == 4 * c.channels()
        &&& self.decay.len() == 2 * c.v_heads
        &&& grouped(self.norm, c.v_dim())
        &&& takes(self.out, c.v_dim(), c.hidden as int)
    }
}

impl LayerW {
    /// Whether the weights fit the activations of an architecture.
    pub open spec fn shaped(self, c: &Config) -> bool {
        &&& self.attn_norm.len() == c.hidden
        &&& self.mlp_norm.len() == c.hidden
        &&& c.intermediate > 0
        &&& takes(self.gate, c.hidden as int, c.intermediate as int)
        &&& takes(self.up, c.hidden as int, c.intermediate as int)
        &&& takes(self.down, c.intermediate as int, c.hidden as int)
        &&& match self.mixer {
            MixerW::Attention(w) => w.shaped(c),
            MixerW::Linear(w) => w.shaped(c),
        }
    }
}

/// What is wrong with a ternary matrix whose rows should be heads in pairs.
pub open spec fn no_pairs(g: &Gguf, c: &Config, name: Seq<char>) -> Option<Seq<char>> {
    let head = c.head_dim * row_of(g, name);
    first(
        no_ternary(g, name),
        fault_if(
            head == 0 || head > usize::MAX || rows_of(g, name) / 2 % (c.head_dim as int) != 0,
            misshapen(name),
        ),
    )
}

/// What is wrong with a ternary matrix whose rows should be so many heads of
/// linear attention, to be grouped by key heads.
pub open spec fn no_heads(g: &Gguf, c: &Config, name: Seq<char>, heads: int) -> Option<Seq<char>> {
    let head = c.state_dim * row_of(g, name);
    first(
        no_ternary(g, name),
        fault_if(
            c.k_heads == 0 || head > usize::MAX || bytes_of(g, name).len() != heads * head,
            misshapen(name),
        ),
    )
}

/// What is wrong with the weights of full attention in the file.
pub open spec fn no_attention(g: &Gguf, c: &Config, i: int) -> Option<Seq<char>> {
    first(
        no_pairs(g, c, part(i, ".attn_q.weight"@)),
        first(
            no_ternary(g, part(i, ".attn_k.weight"@)),
            first(
                no_ternary(g, part(i, ".attn_v.weight"@)),
                first(
                    no_ternary(g, part(i, ".attn_output.weight"@)),
                    first(
                        no_floats(g, part(i, ".attn_q_norm.weight"@)),
                        no_floats(g, part(i, ".attn_k_norm.weight"@)),
                    ),
                ),
            ),
        ),
    )
}

/// The weights of full attention. The query projection of the file puts each
/// head's gate after its query.
pub open spec fn attention_of(g: &Gguf, c: &Config, i: int) -> AttentionW {
    let name = part(i, ".attn_q.weight"@);
    let head = c.head_dim * row_of(g, name);
    let both = paired(bytes_of(g, name), head);
    let (rows, cols) = (rows_of(g, name) / 2, cols_of(g, name));
    AttentionW {
        q: ternary_mat(rows, cols, every_other(both, head, false)),
        gate: ternary_mat(rows, cols, every_other(both, head, true)),
        k: ternary_of(g, part(i, ".attn_k.weight"@)),
        v: ternary_of(g, part(i, ".attn_v.weight"@)),
        o: ternary_of(g, part(i, ".attn_output.weight"@)),
        q_norm: floats_of(g, part(i, ".attn_q_norm.weight"@)),
        k_norm: floats_of(g, part(i, ".attn_k_norm.weight"@)),
    }
}

/// What is wrong with the decay and forget projections in the file.
pub open spec fn no_gates(g: &Gguf, c: &Config, i: int) -> Option<Seq<char>> {
    let (a, b) = (part(i, ".ssm_alpha.weight"@), part(i, ".ssm_beta.weight"@));
    let len = c.v_heads * c.hidden;
    first(
        no_bf16(g, a),
        first(
            no_bf16(g, b),
            first(
                fault_if(
                    halves_of(g, a).len() != len || 2 * rows_of(g, a) > usize::MAX,
                    misshapen(a),
                ),
                fault_if(halves_of(g, b).len() != len, misshapen(b)),
            ),
        ),
    )
}

/// What is wrong with the weights of linear attention in the file.
pub open spec fn no_linear(g: &Gguf, c: &Config, i: int) -> Option<Seq<char>> {
    let heads = c.v_heads as int;
    first(
        no_heads(g, c, part(i, ".attn_qkv.weight"@), 2 * c.k_heads + heads),
        first(
            no_heads(g, c, part(i, ".attn_gate.weight"@), heads),
            first(
                no_gates(g, c, i),
                first(
                    no_floats_of(g, part(i, ".ssm_conv1d.weight"@), 4 * c.channels()),
                    first(
                        no_floats_of(g, part(i, ".ssm_a"@), heads),
                        first(
                            no_floats_of(g, part(i, ".ssm_dt.bias"@), heads),
                            first(
                                no_floats(g, part(i, ".ssm_norm.weight"@)),
                                no_ternary(g, part(i, ".ssm_out.weight"@)),
                            ),
                        ),
                    ),
                ),
            ),
        ),
    )
}

/// The projection into queries, keys and values of linear attention, its value
/// heads grouped.
pub open spec fn qkv_of(g: &Gguf, c: &Config, name: Seq<char>) -> Mat {
    let head = c.state_dim * row_of(g, name);
    ternary_mat(
        rows_of(g, name),
        cols_of(g, name),
        untiled_from(
            bytes_of(g, name),
            2 * c.k_heads * head,
            c.k_heads as int,
            c.v_heads as int,
            head,
        ),
    )
}

/// The output gate of linear attention, its value heads grouped.
pub open spec fn z_of(g: &Gguf, c: &Config, name: Seq<char>) -> Mat {
    ternary_mat(
        rows_of(g, name),
        cols_of(g, name),
        untiled(
            bytes_of(g, name),
            c.k_heads as int,
            c.v_heads as int,
            c.state_dim * row_of(g, name),
        ),
    )
}

/// The decay and forget projections in one matrix, their value heads grouped.
pub open spec fn gates_of(g: &Gguf, c: &Config, i: int) -> Mat {
    let (a, b) = (part(i, ".ssm_alpha.weight"@), part(i, ".ssm_beta.weight"@));
    let (h, nk, nv) = (c.hidden as int, c.k_heads as int, c.v_heads as int);
    Mat {
        rows: (2 * rows_of(g, a)) as nat,
        cols: cols_of(g, a) as nat,
        weights: Weights::Bf16(
            untiled(halves_of(g, a), nk, nv, h) + untiled(halves_of(g, b), nk, nv, h),
        ),
    }
}

/// The weights of linear attention. The value heads, and everything per value
/// head, are grouped; the output projection is as the file has it.
pub open spec fn linear_of(g: &Gguf, c: &Config, i: int) -> LinearW {
    let (nk, nv, dim) = (c.k_heads as int, c.v_heads as int, c.state_dim as int);
    LinearW {
        qkv: qkv_of(g, c, part(i, ".attn_qkv.weight"@)),
        z: z_of(g, c, part(i, ".attn_gate.weight"@)),
        ab: gates_of(g, c, i),
        conv: untiled_from(
            floats_of(g, part(i, ".ssm_conv1d.weight"@)),
            2 * c.k_dim() * 4,
            nk,
            nv,
            dim * 4,
        ),
        decay: untiled(floats_of(g, part(i, ".ssm_a"@)), nk, nv, 1) + untiled(
            floats_of(g, part(i, ".ssm_dt.bias"@)),
            nk,
            nv,
            1,
        ),
        norm: floats_of(g, part(i, ".ssm_norm.weight"@)),
        out: ternary_of(g, part(i, ".ssm_out.weight"@)),
    }
}

/// What is wrong with a layer's weights in the file.
pub open spec fn no_layer(g: &Gguf, c: &Config, i: int) -> Option<Seq<char>> {
    first(
        no_floats(g, part(i, ".attn_norm.weight"@)),
        first(
            if c.attends(i) {
                no_attention(g, c, i)
            } else {
                no_linear(g, c, i)
            },
            first(
                no_floats(g, part(i, ".post_attention_norm.weight"@)),
                first(
                    no_ternary(g, part(i, ".ffn_gate.weight"@)),
                    first(
                        no_ternary(g, part(i, ".ffn_up.weight"@)),
                        no_ternary(g, part(i, ".ffn_down.weight"@)),
                    ),
                ),
            ),
        ),
    )
}

/// A layer's weights.
pub open spec fn layer_of(g: &Gguf, c: &Config, i: int) -> LayerW {
    LayerW {
        attn_norm: floats_of(g, part(i, ".attn_norm.weight"@)),
        mixer: if c.attends(i) {
            MixerW::Attention(attention_of(g, c, i))
        } else {
            MixerW::Linear(linear_of(g, c, i))
        },
        mlp_norm: floats_of(g, part(i, ".post_attention_norm.weight"@)),
        gate: ternary_of(g, part(i, ".ffn_gate.weight"@)),
        up: ternary_of(g, part(i, ".ffn_up.weight"@)),
        down: ternary_of(g, part(i, ".ffn_down.weight"@)),
    }
}

/// The weights of a layer's mixer that take rotated activations.
pub open spec fn rotated_mixer(c: &Config, i: int) -> Seq<Seq<char>> {
    if c.attends(i) {
        seq![
            part(i, ".attn_q.weight"@),
            part(i, ".attn_k.weight"@),
            part(i, ".attn_v.weight"@),
            part(i, ".attn_output.weight"@),
        ]
    } else {
        seq![
            part(i, ".attn_qkv.weight"@),
            part(i, ".attn_gate.weight"@),
            part(i, ".ssm_out.weight"@),
        ]
    }
}

/// The weights of a layer that take rotated activations.
pub open spec fn rotated_layer(c: &Config, i: int) -> Seq<Seq<char>> {
    rotated_mixer(c, i) + seq![
        part(i, ".ffn_gate.weight"@),
        part(i, ".ffn_up.weight"@),
        part(i, ".ffn_down.weight"@),
    ]
}

/// How many tensors of a layer are counted off.
pub open spec fn ticks(c: &Config, i: int) -> int {
    if c.attends(i) {
        11
    } else {
        12
    }
}

/// A layer on the device.
pub struct Layer<D: Device> {
    pub attn_norm: D::Buffer,
    pub mixer: Mixer<D>,
    pub mlp_norm: D::Buffer,
    pub gate: D::Weight,
    pub up: D::Weight,
    pub down: D::Weight,
}

/// Full attention on the device.
pub struct Attention<D: Device> {
    pub q: D::Weight,
    /// The output gate, projected alongside the query.
    pub gate: D::Weight,
    pub k: D::Weight,
    pub v: D::Weight,
    pub o: D::Weight,
    pub q_norm: D::Buffer,
    pub k_norm: D::Buffer,
    /// Which key/value cache is the layer's.
    pub cache: usize,
}

/// Linear attention on the device.
pub struct Linear<D: Device> {
    pub qkv: D::Weight,
    /// The output gate.
    pub z: D::Weight,
    /// The decay and forget projections, `alpha` then `beta`, in one bf16
    /// matrix.
    pub ab: D::Weight,
    /// The convolution taps, four per channel.
    pub conv: D::Buffer,
    /// `a` for each value head, then `dt_bias` for each.
    pub decay: D::Buffer,
    pub norm: D::Buffer,
    pub out: D::Weight,
    /// Which recurrent state is the layer's.
    pub slot: usize,
}

/// What mixes the tokens in a layer.
pub enum Mixer<D: Device> {
    Attention(Attention<D>),
    Linear(Linear<D>),
}

impl<D: Device> Attention<D> {
    /// The weights.
    pub open spec fn w(&self) -> AttentionW {
        AttentionW {
            q: D::matrix(&self.q),
            gate: D::matrix(&self.gate),
            k: D::matrix(&self.k),
            v: D::matrix(&self.v),
            o: D::matrix(&self.o),
            q_norm: D::data(&self.q_norm),
            k_norm: D::data(&self.k_norm),
        }
    }
}

impl<D: Device> Linear<D> {
    /// The weights.
    pub open spec fn w(&self) -> LinearW {
        LinearW {
            qkv: D::matrix(&self.qkv),
            z: D::matrix(&self.z),
            ab: D::matrix(&self.ab),
            conv: D::data(&self.conv),
            decay: D::data(&self.decay),
            norm: D::data(&self.norm),
            out: D::matrix(&self.out),
        }
    }
}

impl<D: Device> Mixer<D> {
    /// The weights.
    pub open spec fn w(&self) -> MixerW {
        match self {
            Mixer::Attention(m) => MixerW::Attention(m.w()),
            Mixer::Linear(m) => MixerW::Linear(m.w()),
        }
    }
}

impl<D: Device> Layer<D> {
    /// The weights.
    pub open spec fn w(&self) -> LayerW {
        LayerW {
            attn_norm: D::data(&self.attn_norm),
            mixer: self.mixer.w(),
            mlp_norm: D::data(&self.mlp_norm),
            gate: D::matrix(&self.gate),
            up: D::matrix(&self.up),
            down: D::matrix(&self.down),
        }
    }
}

impl<'a, 'g, D: Device, F: FnMut(u64, u64)> Loader<'a, 'g, D, F> {
    /// Uploads the query projection of full attention, and the output gate
    /// that the file has beside it.
    fn queries(&mut self, c: &Config, d: &Dims, i: usize) -> (r: Result<
        (D::Weight, D::Weight),
        String,
    >)
        requires
            old(self).wf(),
            old(self).done < u64::MAX,
            d.of(c),
        ensures
            final(self).wf(),
            final(self).same(old(self)),
            ({
                let name = part(i as int, ".attn_q.weight"@);
                let w = attention_of(old(self).gguf, c, i as int);
                match r {
                    Ok((q, gate)) => {
                        &&& no_pairs(old(self).gguf, c, name) is None
                        &&& final(self).done == old(self).done + 1
                        &&& texts(final(self).rotated@) == texts(old(self).rotated@).push(name)
                        &&& D::matrix(&q) == w.q
                        &&& D::matrix(&gate) == w.gate
                        &&& final(self).fit == (old(self).fit && takes(
                            w.q,
                            c.hidden as int,
                            c.q_dim(),
                        ))
                    },
                    Err(e) => no_pairs(old(self).gguf, c, name) == Some(e@),
                }
            }),
    {
        let name = part_name(i, ".attn_q.weight");
        let both = match read_ternary(self.gguf, &name) {
            Ok(m) => m,
            Err(e) => {
                return Err(e);
            },
        };
        let head: usize = match head_bytes(self.gguf, c.head_dim, both.cols) {
            Some(n) => n,
            None => 0,
        };
        assert(0 * row_of(self.gguf, name@) == 0) by (nonlinear_arith);
        if head == 0 || both.rows / 2 % c.head_dim != 0 {
            return Err(join3("tensor '", &name, "' has the wrong shape"));
        }
        let (q, gate) = split_heads(both.data.as_slice(), head);
        let (rows, cols): (usize, usize) = (both.rows / 2, both.cols);
        let q = self.rotated(&name, Matrix { rows, cols, data: q }, c.hidden, d.q_dim);
        let mut shape: Vec<usize> = Vec::new();
        shape.push(rows);
        shape.push(cols);
        let gate = self.device.upload(Tensor::Ternary { shape, data: gate });
        Ok((q, gate))
    }

    /// Uploads the weights of full attention.
    pub fn attention(&mut self, c: &Config, d: &Dims, i: usize, cache: usize) -> (r: Result<
        Attention<D>,
        String,
    >)
        requires
            old(self).wf(),
            old(self).done + 6 <= u64::MAX,
            d.of(c),
            c.attends(i as int),
        ensures
            final(self).wf(),
            final(self).same(old(self)),
            match r {
                Ok(m) => {
                    &&& no_attention(old(self).gguf, c, i as int) is None
                    &&& final(self).done == old(self).done + 6
                    &&& texts(final(self).rotated@) == texts(old(self).rotated@) + rotated_mixer(
                        c,
                        i as int,
                    )
                    &&& m.w() == attention_of(old(self).gguf, c, i as int)
                    &&& final(self).fit == (old(self).fit && m.w().shaped(c))
                    &&& m.cache == cache
                },
                Err(e) => no_attention(old(self).gguf, c, i as int) == Some(e@),
            },
    {
        let (q, gate) = match self.queries(c, d, i) {
            Ok(both) => both,
            Err(e) => {
                return Err(e);
            },
        };
        let k = match self.weight(&part_name(i, ".attn_k.weight"), c.hidden, d.kv_dim) {
            Ok(w) => w,
            Err(e) => {
                return Err(e);
            },
        };
        let v = match self.weight(&part_name(i, ".attn_v.weight"), c.hidden, d.kv_dim) {
            Ok(w) => w,
            Err(e) => {
                return Err(e);
            },
        };
        let o = match self.weight(&part_name(i, ".attn_output.weight"), d.q_dim, c.hidden) {
            Ok(w) => w,
            Err(e) => {
                return Err(e);
            },
        };
        let q_norm = match self.group_norm(&part_name(i, ".attn_q_norm.weight"), d.q_dim) {
            Ok(b) => b,
            Err(e) => {
                return Err(e);
            },
        };
        let k_norm = match self.group_norm(&part_name(i, ".attn_k_norm.weight"), d.kv_dim) {
            Ok(b) => b,
            Err(e) => {
                return Err(e);
            },
        };
        self.fit = self.fit && c.fits_heads();
        proof {
            assert(texts(self.rotated@) =~= texts(old(self).rotated@) + rotated_mixer(
                c,
                i as int,
            ));
        }
        Ok(Attention { q, gate, k, v, o, q_norm, k_norm, cache })
    }

    /// Reads a ternary matrix whose rows are so many heads of linear attention,
    /// and how many bytes a head has.
    fn heads(&self, c: &Config, name: &str, heads: usize) -> (r: Result<(Matrix<u8>, usize), String>)
        requires
            self.wf(),
        ensures
            match r {
                Ok((m, head)) => {
                    &&& no_heads(self.gguf, c, name@, heads as int) is None
                    &&& m.rows == rows_of(self.gguf, name@)
                    &&& m.cols == cols_of(self.gguf, name@)
                    &&& m.data@ == bytes_of(self.gguf, name@)
                    &&& head == c.state_dim * row_of(self.gguf, name@)
                    &&& m.data@.len() == heads * head
                    &&& c.k_heads > 0
                },
                Err(e) => no_heads(self.gguf, c, name@, heads as int) == Some(e@),
            },
    {
        let m = match read_ternary(self.gguf, name) {
            Ok(m) => m,
            Err(e) => {
                return Err(e);
            },
        };
        let len: usize = m.data.len();
        match head_bytes(self.gguf, c.state_dim, m.cols) {
            Some(head) => if c.k_heads > 0 && heads.checked_mul(head) == Some(len) {
                return Ok((m, head));
            },
            None => {},
        }
        Err(join3("tensor '", name, "' has the wrong shape"))
    }

    /// Reads the projections into queries, keys and values, and the output
    /// gate, of linear attention, and uploads them.
    fn projections(&mut self, c: &Config, d: &Dims, i: usize) -> (r: Result<
        (D::Weight, D::Weight),
        String,
    >)
        requires
            old(self).wf(),
            old(self).done + 2 <= u64::MAX,
            multiple(c.v_heads as int, c.k_heads as int),
            2 * c.k_heads + c.v_heads <= usize::MAX,
            d.of(c),
        ensures
            final(self).wf(),
            final(self).same(old(self)),
            ({
                let g = old(self).gguf;
                let (a, b) = (
                    part(i as int, ".attn_qkv.weight"@),
                    part(i as int, ".attn_gate.weight"@),
                );
                let fault = first(
                    no_heads(g, c, a, 2 * c.k_heads + c.v_heads),
                    no_heads(g, c, b, c.v_heads as int),
                );
                match r {
                    Ok((qkv, z)) => {
                        &&& fault is None
                        &&& final(self).done == old(self).done + 2
                        &&& texts(final(self).rotated@) == texts(old(self).rotated@).push(a).push(b)
                        &&& D::matrix(&qkv) == qkv_of(g, c, a)
                        &&& D::matrix(&z) == z_of(g, c, b)
                        &&& final(self).fit == (old(self).fit && takes(
                            qkv_of(g, c, a),
                            c.hidden as int,
                            c.channels(),
                        ) && takes(z_of(g, c, b), c.hidden as int, c.v_dim()))
                        &&& c.k_heads > 0
                    },
                    Err(e) => fault == Some(e@),
                }
            }),
    {
        let name = part_name(i, ".attn_qkv.weight");
        let (m, head): (Matrix<u8>, usize) = match self.heads(c, &name, 2 * c.k_heads + c.v_heads) {
            Ok(both) => both,
            Err(e) => {
                return Err(e);
            },
        };
        proof {
            let (nk, nv, e) = (c.k_heads as int, c.v_heads as int, head as int);
            lemma_arranged(nk, nv);
            assert((2 * nk + nv) * e == 2 * nk * e + nv * e && 2 * nk * e >= 0 && nv * e >= 0)
                by (nonlinear_arith)
                requires
                    nk >= 0,
                    nv >= 0,
                    e >= 0,
            ;
        }
        let data = untile_from(
            m.data.as_slice(),
            2 * c.k_heads * head,
            c.k_heads,
            c.v_heads,
            head,
        );
        let qkv = self.rotated(
            &name,
            Matrix { rows: m.rows, cols: m.cols, data },
            c.hidden,
            d.channels,
        );
        let name = part_name(i, ".attn_gate.weight");
        let (m, head): (Matrix<u8>, usize) = match self.heads(c, &name, c.v_heads) {
            Ok(both) => both,
            Err(e) => {
                return Err(e);
            },
        };
        let data = untile(m.data.as_slice(), c.k_heads, c.v_heads, head);
        let z = self.rotated(
            &name,
            Matrix { rows: m.rows, cols: m.cols, data },
            c.hidden,
            d.v_dim,
        );
        Ok((qkv, z))
    }

    /// Reads the decay and forget projections, and uploads them as one matrix.
    fn gates(&mut self, c: &Config, i: usize) -> (r: Result<D::Weight, String>)
        requires
            old(self).wf(),
            old(self).done + 1 <= u64::MAX,
            c.k_heads > 0,
            c.v_heads % c.k_heads == 0,
            c.countable(0),
        ensures
            final(self).wf(),
            final(self).same(old(self)),
            final(self).rotated == old(self).rotated,
            ({
                let g = old(self).gguf;
                let w = gates_of(g, c, i as int);
                match r {
                    Ok(ab) => {
                        &&& no_gates(g, c, i as int) is None
                        &&& final(self).done == old(self).done + 1
                        &&& D::matrix(&ab) == w
                        &&& final(self).fit == (old(self).fit && takes(
                            w,
                            c.hidden as int,
                            2 * c.v_heads,
                        ))
                    },
                    Err(e) => no_gates(g, c, i as int) == Some(e@),
                }
            }),
    {
        proof {
            lemma_arranged(c.k_heads as int, c.v_heads as int);
        }
        let first_name = part_name(i, ".ssm_alpha.weight");
        let second_name = part_name(i, ".ssm_beta.weight");
        let alpha = match read_bf16(self.gguf, &first_name) {
            Ok(m) => m,
            Err(e) => {
                return Err(e);
            },
        };
        let beta = match read_bf16(self.gguf, &second_name) {
            Ok(m) => m,
            Err(e) => {
                return Err(e);
            },
        };
        let len: Option<usize> = c.v_heads.checked_mul(c.hidden);
        let rows: usize = match alpha.rows.checked_mul(2) {
            Some(n) => n,
            None => {
                return Err(join3("tensor '", &first_name, "' has the wrong shape"));
            },
        };
        if len != Some(alpha.data.len()) {
            return Err(join3("tensor '", &first_name, "' has the wrong shape"));
        }
        if len != Some(beta.data.len()) {
            return Err(join3("tensor '", &second_name, "' has the wrong shape"));
        }
        let mut data = untile(alpha.data.as_slice(), c.k_heads, c.v_heads, c.hidden);
        let rest = untile(beta.data.as_slice(), c.k_heads, c.v_heads, c.hidden);
        push_all(&mut data, rest.as_slice());
        let cols: usize = alpha.cols;
        let mut shape: Vec<usize> = Vec::new();
        shape.push(rows);
        shape.push(cols);
        let ab = self.device.upload(Tensor::Bf16 { shape, data });
        self.tick();
        let ghost w = gates_of(self.gguf, c, i as int);
        assert(D::matrix(&ab) == w);
        let fit = is_taken(rows, cols, c.hidden, 2 * c.v_heads, Ghost(w));
        self.fit = self.fit && fit;
        Ok(ab)
    }

    /// Reads the taps of the convolution and what decays, and uploads them.
    fn taps(&mut self, c: &Config, d: &Dims, i: usize) -> (r: Result<
        (D::Buffer, D::Buffer),
        String,
    >)
        requires
            old(self).wf(),
            old(self).done + 2 <= u64::MAX,
            c.k_heads > 0,
            c.v_heads % c.k_heads == 0,
            c.countable(0),
            d.of(c),
        ensures
            final(self).wf(),
            final(self).same(old(self)),
            final(self).rotated == old(self).rotated,
            final(self).fit == old(self).fit,
            ({
                let g = old(self).gguf;
                let heads = c.v_heads as int;
                let fault = first(
                    no_floats_of(g, part(i as int, ".ssm_conv1d.weight"@), 4 * c.channels()),
                    first(
                        no_floats_of(g, part(i as int, ".ssm_a"@), heads),
                        no_floats_of(g, part(i as int, ".ssm_dt.bias"@), heads),
                    ),
                );
                match r {
                    Ok((conv, decay)) => {
                        &&& fault is None
                        &&& final(self).done == old(self).done + 2
                        &&& D::data(&conv) == linear_of(g, c, i as int).conv
                        &&& D::data(&conv).len() == 4 * c.channels()
                        &&& D::data(&decay) == linear_of(g, c, i as int).decay
                        &&& D::data(&decay).len() == 2 * c.v_heads
                    },
                    Err(e) => fault == Some(e@),
                }
            }),
    {
        proof {
            let (nk, nv, dim) = (c.k_heads as int, c.v_heads as int, c.state_dim as int);
            lemma_arranged(nk, nv);
            assert(nk * dim >= dim) by (nonlinear_arith)
                requires
                    nk > 0,
                    dim >= 0,
            ;
            assert(nv * dim >= 0) by (nonlinear_arith)
                requires
                    nv >= 0,
                    dim >= 0,
            ;
            assert((nv * dim) * 4 == nv * (dim * 4)) by (nonlinear_arith);
            assert(nv * 1 == nv);
        }
        let values = match read_floats_of(
            self.gguf,
            &part_name(i, ".ssm_conv1d.weight"),
            4 * d.channels,
        ) {
            Ok(values) => values,
            Err(e) => {
                return Err(e);
            },
        };
        let values = untile_from(
            values.as_slice(),
            2 * d.k_dim * 4,
            c.k_heads,
            c.v_heads,
            c.state_dim * 4,
        );
        let conv = self.buffer(values);
        let a = match read_floats_of(self.gguf, &part_name(i, ".ssm_a"), c.v_heads) {
            Ok(values) => values,
            Err(e) => {
                return Err(e);
            },
        };
        let dt = match read_floats_of(self.gguf, &part_name(i, ".ssm_dt.bias"), c.v_heads) {
            Ok(values) => values,
            Err(e) => {
                return Err(e);
            },
        };
        let mut values = untile(a.as_slice(), c.k_heads, c.v_heads, 1);
        let rest = untile(dt.as_slice(), c.k_heads, c.v_heads, 1);
        push_all(&mut values, rest.as_slice());
        let decay = self.buffer(values);
        Ok((conv, decay))
    }

    /// Uploads the weights of linear attention.
    pub fn linear(&mut self, c: &Config, d: &Dims, i: usize, slot: usize) -> (r: Result<
        Linear<D>,
        String,
    >)
        requires
            old(self).wf(),
            old(self).done + 7 <= u64::MAX,
            multiple(c.v_heads as int, c.k_heads as int),
            2 * c.k_heads + c.v_heads <= usize::MAX,
            c.countable(0),
            d.of(c),
            !c.attends(i as int),
        ensures
            final(self).wf(),
            final(self).same(old(self)),
            match r {
                Ok(m) => {
                    &&& no_linear(old(self).gguf, c, i as int) is None
                    &&& final(self).done == old(self).done + 7
                    &&& texts(final(self).rotated@) == texts(old(self).rotated@) + rotated_mixer(
                        c,
                        i as int,
                    )
                    &&& m.w() == linear_of(old(self).gguf, c, i as int)
                    &&& final(self).fit == (old(self).fit && m.w().shaped(c))
                    &&& m.slot == slot
                },
                Err(e) => no_linear(old(self).gguf, c, i as int) == Some(e@),
            },
    {
        let (qkv, z) = match self.projections(c, d, i) {
            Ok(both) => both,
            Err(e) => {
                return Err(e);
            },
        };
        let ab = match self.gates(c, i) {
            Ok(w) => w,
            Err(e) => {
                return Err(e);
            },
        };
        let (conv, decay) = match self.taps(c, d, i) {
            Ok(both) => both,
            Err(e) => {
                return Err(e);
            },
        };
        let norm = match self.group_norm(&part_name(i, ".ssm_norm.weight"), d.v_dim) {
            Ok(b) => b,
            Err(e) => {
                return Err(e);
            },
        };
        let out = match self.weight(&part_name(i, ".ssm_out.weight"), d.v_dim, c.hidden) {
            Ok(w) => w,
            Err(e) => {
                return Err(e);
            },
        };
        self.fit = self.fit && c.fits_groups();
        proof {
            assert(texts(self.rotated@) =~= texts(old(self).rotated@) + rotated_mixer(
                c,
                i as int,
            ));
        }
        Ok(Linear { qkv, z, ab, conv, decay, norm, out, slot })
    }

    /// Uploads the weights of a layer. Full attention has the key/value cache
    /// `cache`, linear attention the recurrent state `slot`.
    pub fn layer(&mut self, c: &Config, d: &Dims, i: usize, cache: usize, slot: usize) -> (r: Result<
        Layer<D>,
        String,
    >)
        requires
            old(self).wf(),
            old(self).done + 12 <= u64::MAX,
            multiple(c.v_heads as int, c.k_heads as int),
            2 * c.k_heads + c.v_heads <= usize::MAX,
            c.countable(0),
            d.of(c),
            i < usize::MAX,
        ensures
            final(self).wf(),
            final(self).same(old(self)),
            match r {
                Ok(layer) => {
                    &&& no_layer(old(self).gguf, c, i as int) is None
                    &&& final(self).done == old(self).done + ticks(c, i as int)
                    &&& texts(final(self).rotated@) == texts(old(self).rotated@) + rotated_layer(
                        c,
                        i as int,
                    )
                    &&& layer.w() == layer_of(old(self).gguf, c, i as int)
                    &&& final(self).fit == (old(self).fit && layer.w().shaped(c))
                    &&& match layer.mixer {
                        Mixer::Attention(m) => m.cache == cache,
                        Mixer::Linear(m) => m.slot == slot,
                    }
                },
                Err(e) => no_layer(old(self).gguf, c, i as int) == Some(e@),
            },
    {
        let attn_norm = match self.norm(&part_name(i, ".attn_norm.weight"), c.hidden) {
            Ok(b) => b,
            Err(e) => {
                return Err(e);
            },
        };
        let mixer = if c.is_attention(i) {
            match self.attention(c, d, i, cache) {
                Ok(m) => Mixer::Attention(m),
                Err(e) => {
                    return Err(e);
                },
            }
        } else {
            match self.linear(c, d, i, slot) {
                Ok(m) => Mixer::Linear(m),
                Err(e) => {
                    return Err(e);
                },
            }
        };
        let mlp_norm = match self.norm(&part_name(i, ".post_attention_norm.weight"), c.hidden) {
            Ok(b) => b,
            Err(e) => {
                return Err(e);
            },
        };
        let gate = match self.weight(&part_name(i, ".ffn_gate.weight"), c.hidden, c.intermediate) {
            Ok(w) => w,
            Err(e) => {
                return Err(e);
            },
        };
        let up = match self.weight(&part_name(i, ".ffn_up.weight"), c.hidden, c.intermediate) {
            Ok(w) => w,
            Err(e) => {
                return Err(e);
            },
        };
        let down = match self.weight(&part_name(i, ".ffn_down.weight"), c.intermediate, c.hidden) {
            Ok(w) => w,
            Err(e) => {
                return Err(e);
            },
        };
        self.fit = self.fit && c.intermediate > 0;
        proof {
            assert(texts(self.rotated@) =~= texts(old(self).rotated@) + rotated_layer(
                c,
                i as int,
            ));
        }
        Ok(Layer { attn_norm, mixer, mlp_norm, gate, up, down })
    }
}

} // verus!
