//! The model and the checks of devices, on a device of plain arithmetic.
use dwim::bonsai::config::Config;
use dwim::bonsai::network::{Model, Numbers};
use dwim::bonsai::untile;
use dwim::device::{Device, CONV_KERNEL};
use dwim::gguf::{writer, Gguf, Number, Value, BF16, F32, PTQ1_0};
use dwim::gpu::checks::{self, Pair};
use dwim::gpu::kernels::kernel_speed;
use dwim::gpu::speed::{dispatch_overhead, ternary_matmul_speed};
use dwim::gpu::tile::tile_error;
use dwim::gpu::token_checks;
use dwim::model::LanguageModel;
use dwim::tensor::{Packing, Tensor};
use rayon::prelude::{IndexedParallelIterator, IntoParallelIterator, ParallelIterator, ParallelSliceMut};

/// How ternary matrices are packed: the digits of 128 weights, five to a
/// byte, and their scale as a half.
const PACKING: Packing = Packing { block: 128, block_bytes: 28 };

/// Activations that the rotation turns together.
const HADAMARD_BLOCK: usize = 1024;

/// A device of plain arithmetic. A quick one only sketches the products of
/// matrices and attention, which take most of the time.
struct Cpu {
    quick: bool,
}

/// Activations, with room behind them.
struct Buffer {
    all: Vec<f32>,
    len: usize,
}

impl Buffer {
    fn get(&self) -> &[f32] {
        &self.all[..self.len]
    }

    fn put(&mut self) -> &mut [f32] {
        &mut self.all[..self.len]
    }
}

/// A matrix, row by row: scales of so many weights each, and the weights.
struct Weight {
    rows: usize,
    cols: usize,
    block: usize,
    scales: Vec<f32>,
    weights: Vec<f32>,
}

/// A number in half precision, rounded to the nearest, the largest where it is
/// larger than that.
fn to_half(x: f32) -> u16 {
    let bits = x.to_bits();
    let sign = ((bits >> 16) & 0x8000) as u16;
    let size = f32::from_bits(bits & 0x7fff_ffff);
    if size >= 65520.0 {
        return sign | 0x7bff;
    }
    if size < 2.0f32.powi(-14) {
        return sign | (size * 2.0f32.powi(24)).round_ties_even() as u16;
    }
    let bits = size.to_bits();
    let mut half = (bits >> 13) as i32 - (112 << 10);
    let rest = bits & 0x1fff;
    if rest > 0x1000 || (rest == 0x1000 && half & 1 == 1) {
        half += 1;
    }
    sign | half as u16
}

fn from_half(h: u16) -> f32 {
    let sign = if h & 0x8000 != 0 { -1.0 } else { 1.0 };
    let (exp, rest) = ((h >> 10) & 0x1f, (h & 0x3ff) as f32);
    match exp {
        0 => sign * rest * 2.0f32.powi(-24),
        31 => sign * f32::INFINITY,
        _ => sign * (1.0 + rest / 1024.0) * 2.0f32.powi(exp as i32 - 15),
    }
}

/// Packs a row of weights.
fn quantize(values: &[f32]) -> Vec<u8> {
    let mut out = Vec::new();
    for block in values.chunks(PACKING.block) {
        let scale = from_half(to_half(block.iter().fold(0.0f32, |m, v| m.max(v.abs()))));
        let digits: Vec<u8> = block
            .iter()
            .map(|v| if scale == 0.0 { 1 } else { ((v / scale).round() + 1.0) as u8 })
            .collect();
        for five in digits.chunks(5) {
            out.push(five.iter().rev().fold(0, |n, d| 3 * n + d));
        }
        out.extend(to_half(scale).to_le_bytes());
    }
    out
}

/// The scale and the weights of a block.
fn dequantize(block: &[u8]) -> (f32, Vec<f32>) {
    let scale = from_half(u16::from_le_bytes([block[26], block[27]]));
    let mut weights = Vec::with_capacity(130);
    for &byte in &block[..26] {
        let mut rest = byte;
        for _ in 0..5 {
            weights.push((rest % 3) as f32 - 1.0);
            rest /= 3;
        }
    }
    weights.truncate(PACKING.block);
    (scale, weights)
}

fn sigmoid(x: f32) -> f32 {
    1.0 / (1.0 + (-x).exp())
}

/// Turns a block in place.
fn walsh(x: &mut [f32]) {
    let mut half = 1;
    while half < x.len() {
        for pair in x.chunks_mut(2 * half) {
            let (a, b) = pair.split_at_mut(half);
            for (a, b) in a.iter_mut().zip(b) {
                (*a, *b) = (*a + *b, *a - *b);
            }
        }
        half *= 2;
    }
    let scale = 1.0 / (x.len() as f32).sqrt();
    for v in x {
        *v *= scale;
    }
}

fn floats(bits: &[u32]) -> Vec<f32> {
    bits.iter().map(|&b| f32::from_bits(b)).collect()
}

fn bits(values: &[f32]) -> Vec<u32> {
    values.iter().map(|v| v.to_bits()).collect()
}

impl Device for Cpu {
    type Buffer = Buffer;
    type Weight = Weight;
    type Cache = Vec<u16>;

    fn upload(&self, tensor: Tensor) -> Weight {
        match tensor {
            Tensor::Bf16 { shape, data } => Weight {
                rows: shape[0],
                cols: shape[1],
                block: shape[1],
                scales: vec![1.0; shape[0]],
                weights: data.iter().map(|&v| f32::from_bits((v as u32) << 16)).collect(),
            },
            Tensor::Ternary { shape, data } => {
                let (mut scales, mut weights) = (Vec::new(), Vec::new());
                for block in data.chunks(PACKING.block_bytes) {
                    let (scale, more) = dequantize(block);
                    scales.push(scale);
                    weights.extend(more);
                }
                Weight { rows: shape[0], cols: shape[1], block: PACKING.block, scales, weights }
            }
        }
    }

    fn alloc_buffer(&self, len: usize) -> Buffer {
        Buffer { all: vec![0.0; len], len }
    }

    fn alloc_cache(&self, len: usize) -> Vec<u16> {
        vec![0; len]
    }

    fn resize(&self, buf: &mut Buffer, len: usize) {
        assert!(len <= buf.all.len());
        buf.len = len;
    }

    fn read(&self, buf: &Buffer) -> Vec<u32> {
        bits(buf.get())
    }

    fn write(&self, buf: &mut Buffer, data: &[u32]) {
        buf.put().copy_from_slice(&floats(data));
    }

    fn copy(&self, dst: &mut Buffer, dst_offset: usize, src: &Buffer, src_offset: usize, len: usize) {
        dst.put()[dst_offset..][..len].copy_from_slice(&src.get()[src_offset..][..len]);
    }

    fn store(&self, cache: &mut Vec<u16>, offset: usize, src: &Buffer) {
        for (to, from) in cache[offset..][..src.len].iter_mut().zip(src.get()) {
            *to = to_half(*from);
        }
    }

    fn read_cache(&self, cache: &Vec<u16>, len: usize) -> Vec<u16> {
        cache[..len].to_vec()
    }

    fn write_cache(&self, cache: &mut Vec<u16>, data: &[u16]) {
        cache[..data.len()].copy_from_slice(data);
    }

    fn matmul(&self, out: &mut Buffer, w: &Weight, x: &Buffer) {
        let tokens = x.len / w.cols;
        assert_eq!(out.len, tokens * w.rows);
        let x = x.get();
        if self.quick {
            for (i, v) in out.put().iter_mut().enumerate() {
                *v = w.weights[i % w.weights.len()] * w.scales[0] + x[i % x.len()];
            }
            return;
        }
        let row = |r: usize, t: usize| -> f32 {
            let weights = &w.weights[r * w.cols..][..w.cols];
            let blocks = w.cols / w.block;
            let mut sum = 0.0;
            for b in 0..blocks {
                let (a, x) = (&weights[b * w.block..][..w.block], &x[t * w.cols + b * w.block..][..w.block]);
                let mut parts = [0.0f32; 8];
                for (a, x) in a.chunks_exact(8).zip(x.chunks_exact(8)) {
                    for i in 0..8 {
                        parts[i] += a[i] * x[i];
                    }
                }
                sum += w.scales[r * blocks + b] * parts.iter().sum::<f32>();
            }
            sum
        };
        let rows: Vec<Vec<f32>> = (0..w.rows)
            .into_par_iter()
            .with_min_len(16)
            .map(|r| (0..tokens).map(|t| row(r, t)).collect())
            .collect();
        for (t, out) in out.put().chunks_mut(w.rows).enumerate() {
            for (v, row) in out.iter_mut().zip(&rows) {
                *v = row[t];
            }
        }
    }

    fn add(&self, x: &mut Buffer, y: &Buffer) {
        for (x, y) in x.put().iter_mut().zip(y.get()) {
            *x += y;
        }
    }

    fn rmsnorm(&self, x: &mut Buffer, weight: &Buffer, eps: u32) {
        for x in x.put().chunks_mut(weight.len) {
            let mean = x.iter().map(|v| v * v).sum::<f32>() / x.len() as f32;
            let scale = 1.0 / (mean + f32::from_bits(eps)).sqrt();
            for (v, w) in x.iter_mut().zip(weight.get()) {
                *v *= scale * w;
            }
        }
    }

    fn l2norm(&self, x: &mut Buffer, dim: usize, eps: u32) {
        for x in x.put().chunks_mut(dim) {
            let scale = 1.0 / (x.iter().map(|v| v * v).sum::<f32>() + f32::from_bits(eps)).sqrt();
            for v in x {
                *v *= scale;
            }
        }
    }

    fn rope(&self, x: &mut Buffer, table: &Buffer, pos: usize, n_heads: usize, head_dim: usize, rot_dim: usize) {
        for (t, token) in x.put().chunks_mut(n_heads * head_dim).enumerate() {
            let row = &table.get()[(pos + t) * rot_dim..][..rot_dim];
            for head in token.chunks_mut(head_dim) {
                for i in 0..rot_dim / 2 {
                    let (cos, sin) = (row[2 * i], row[2 * i + 1]);
                    let (a, b) = (head[i], head[i + rot_dim / 2]);
                    (head[i], head[i + rot_dim / 2]) = (a * cos - b * sin, a * sin + b * cos);
                }
            }
        }
    }

    fn attention(
        &self,
        out: &mut Buffer,
        q: &Buffer,
        k_cache: &Vec<u16>,
        v_cache: &Vec<u16>,
        pos: usize,
        n_heads: usize,
        head_dim: usize,
        n_kv_heads: usize,
    ) {
        let q = q.get();
        let kv_dim = n_kv_heads * head_dim;
        let width = n_heads * head_dim;
        if self.quick {
            let held = (pos + q.len() / width) * kv_dim;
            for (i, v) in out.put().iter_mut().enumerate() {
                *v = q[i] + from_half(k_cache[i % held]) + from_half(v_cache[i % held]);
            }
            return;
        }
        out.put().par_chunks_mut(head_dim).enumerate().for_each(|(at, out)| {
            let (t, h) = (at * head_dim / width, at % n_heads);
            let shared = h / (n_heads / n_kv_heads) * head_dim;
            let q = &q[at * head_dim..][..head_dim];
            let mut scores: Vec<f32> = (0..=pos + t)
                .map(|p| {
                    let k = &k_cache[p * kv_dim + shared..][..head_dim];
                    q.iter().zip(k).map(|(q, k)| q * from_half(*k)).sum::<f32>() / (head_dim as f32).sqrt()
                })
                .collect();
            let max = scores.iter().fold(f32::NEG_INFINITY, |m, s| m.max(*s));
            let mut sum = 0.0;
            for s in &mut scores {
                *s = (*s - max).exp();
                sum += *s;
            }
            out.fill(0.0);
            for (p, s) in scores.iter().enumerate() {
                for (o, v) in out.iter_mut().zip(&v_cache[p * kv_dim + shared..][..head_dim]) {
                    *o += s / sum * from_half(*v);
                }
            }
        });
    }

    fn silu_mul(&self, gate: &mut Buffer, up: &Buffer) {
        for (g, u) in gate.put().iter_mut().zip(up.get()) {
            *g = *g * sigmoid(*g) * u;
        }
    }

    fn sigmoid_mul(&self, x: &mut Buffer, gate: &Buffer) {
        for (x, g) in x.put().iter_mut().zip(gate.get()) {
            *x *= sigmoid(*g);
        }
    }

    fn hadamard(&self, x: &mut Buffer, signs: &Buffer, inverse: bool) {
        for x in x.put().chunks_mut(signs.len) {
            let flip = |x: &mut [f32]| x.iter_mut().zip(signs.get()).for_each(|(x, s)| *x *= s);
            if !inverse {
                flip(x);
            }
            x.chunks_mut(HADAMARD_BLOCK).for_each(walsh);
            if inverse {
                flip(x);
            }
        }
    }

    fn norm_rotate(&self, out: &mut Buffer, x: &Buffer, weight: &Buffer, signs: &Buffer, eps: u32) {
        out.put().copy_from_slice(x.get());
        self.rmsnorm(out, weight, eps);
        self.hadamard(out, signs, false);
    }

    fn conv(
        &self,
        q: &mut Buffer,
        k: &mut Buffer,
        v: &mut Buffer,
        state_out: &mut Buffer,
        x: &Buffer,
        state: &Buffer,
        weight: &Buffer,
    ) {
        let channels = weight.len / CONV_KERNEL;
        let all = [state.get(), x.get()].concat();
        let tokens = x.len / channels;
        let (q_dim, k_dim, v_dim) = (q.len / tokens, k.len / tokens, v.len / tokens);
        for t in 0..tokens {
            for c in 0..channels {
                let sum: f32 = (0..CONV_KERNEL)
                    .map(|i| weight.get()[c * CONV_KERNEL + i] * all[(t + i) * channels + c])
                    .sum();
                let y = sum * sigmoid(sum);
                if c < q_dim {
                    q.put()[t * q_dim + c] = y;
                } else if c < q_dim + k_dim {
                    k.put()[t * k_dim + c - q_dim] = y;
                } else {
                    v.put()[t * v_dim + c - q_dim - k_dim] = y;
                }
            }
        }
        state_out.put().copy_from_slice(&all[tokens * channels..]);
    }

    fn delta_net(
        &self,
        out: &mut Buffer,
        q: &Buffer,
        k: &Buffer,
        v: &Buffer,
        gates: &Buffer,
        decay: &Buffer,
        state: &mut Buffer,
        n_k_heads: usize,
        n_v_heads: usize,
        head_dim: usize,
    ) {
        let tokens = v.len / (n_v_heads * head_dim);
        for t in 0..tokens {
            for h in 0..n_v_heads {
                let shared = h / (n_v_heads / n_k_heads);
                let q = &q.get()[(t * n_k_heads + shared) * head_dim..][..head_dim];
                let k = &k.get()[(t * n_k_heads + shared) * head_dim..][..head_dim];
                let v = &v.get()[(t * n_v_heads + h) * head_dim..][..head_dim];
                let a = gates.get()[t * 2 * n_v_heads + h];
                let beta = sigmoid(gates.get()[t * 2 * n_v_heads + n_v_heads + h]);
                let (rate, bias) = (decay.get()[h], decay.get()[n_v_heads + h]);
                let keep = (rate * (1.0 + (a + bias).exp()).ln()).exp();
                let state = &mut state.put()[h * head_dim * head_dim..][..head_dim * head_dim];
                let mut held = vec![0.0; head_dim];
                for (row, k) in state.chunks_mut(head_dim).zip(k) {
                    for (s, held) in row.iter_mut().zip(&mut held) {
                        *s *= keep;
                        *held += *s * k;
                    }
                }
                let change: Vec<f32> = v.iter().zip(&held).map(|(v, held)| (v - held) * beta).collect();
                let out = &mut out.put()[(t * n_v_heads + h) * head_dim..][..head_dim];
                out.fill(0.0);
                for ((row, k), q) in state.chunks_mut(head_dim).zip(k).zip(q) {
                    for ((s, c), o) in row.iter_mut().zip(&change).zip(out.iter_mut()) {
                        *s += k * c;
                        *o += *s * q / (head_dim as f32).sqrt();
                    }
                }
            }
        }
    }

    fn round_half(&self, x: u32) -> u32 {
        from_half(to_half(f32::from_bits(x))).to_bits()
    }

    fn dequantize_row(&self, row: &[u8], width: usize) -> Vec<u32> {
        let mut out = Vec::new();
        for block in row.chunks(PACKING.block_bytes) {
            let (scale, weights) = dequantize(block);
            out.extend(weights.iter().map(|w| (scale * w).to_bits()));
        }
        out.truncate(width);
        out
    }

    fn quantize_row(&self, values: &[u32]) -> Vec<u8> {
        quantize(&floats(values))
    }
}

struct Rng(u64);

impl Rng {
    fn next(&mut self) -> f32 {
        self.0 = self.0.wrapping_mul(6364136223846793005).wrapping_add(1442695040888963407);
        ((self.0 >> 40) as f32 / (1u64 << 24) as f32) * 2.0 - 1.0
    }

    fn floats(&mut self, n: usize, scale: f32, offset: f32) -> Vec<u8> {
        (0..n).flat_map(|_| (self.next() * scale + offset).to_le_bytes()).collect()
    }

    fn bf16(&mut self, n: usize, scale: f32) -> Vec<u8> {
        (0..n).flat_map(|_| (((self.next() * scale).to_bits() >> 16) as u16).to_le_bytes()).collect()
    }

    fn ternary(&mut self, rows: usize, cols: usize, scale: f32) -> Vec<u8> {
        let mut data = Vec::new();
        for _ in 0..rows {
            let values: Vec<f32> = (0..cols).map(|_| self.next() * scale).collect();
            data.extend(quantize(&values));
        }
        data
    }
}

/// What is changed of the tiny model before it is written.
type Change = fn(&mut Vec<(&'static str, Value)>, &mut Vec<(String, Vec<usize>, u32, Vec<u8>)>);

/// A tiny random model in the file format, four layers of which the last is
/// full attention.
fn synthetic(change: Change) -> Vec<u8> {
    let (hidden, inter, layers, heads, kv_heads, head_dim, rot_dim) = (1024, 1024, 4, 4, 2, 256, 64);
    let (k_heads, v_heads, state_dim, vocab) = (2, 8, 128, 64);
    let (k_dim, v_dim) = (k_heads * state_dim, v_heads * state_dim);
    let mut rng = Rng(42);
    let mut signs = Vec::new();
    for _ in 0..hidden {
        signs.push(Value::I32(if rng.next() < 0.0 { -1 } else { 1 }));
    }
    let mut names = Vec::new();
    let mut tensors: Vec<(String, Vec<usize>, u32, Vec<u8>)> = Vec::new();
    // Weights are small so that the activations stay sane through the layers;
    // ternary scales are their largest magnitude.
    let mut tern = |name: &str, rows: usize, cols: usize, names: &mut Vec<Value>| {
        names.push(Value::Str(name.to_string()));
        let scale = 1.0 / (cols as f32).sqrt();
        tensors.push((name.to_string(), vec![cols, rows], PTQ1_0, rng.ternary(rows, cols, scale)));
    };
    tern("output.weight", vocab, hidden, &mut names);
    for i in 0..layers {
        let p = format!("blk.{i}");
        if (i + 1) % 4 == 0 {
            tern(&format!("{p}.attn_q.weight"), heads * head_dim * 2, hidden, &mut names);
            tern(&format!("{p}.attn_k.weight"), kv_heads * head_dim, hidden, &mut names);
            tern(&format!("{p}.attn_v.weight"), kv_heads * head_dim, hidden, &mut names);
            tern(&format!("{p}.attn_output.weight"), hidden, heads * head_dim, &mut names);
        } else {
            tern(&format!("{p}.attn_qkv.weight"), 2 * k_dim + v_dim, hidden, &mut names);
            tern(&format!("{p}.attn_gate.weight"), v_dim, hidden, &mut names);
            tern(&format!("{p}.ssm_out.weight"), hidden, v_dim, &mut names);
        }
        tern(&format!("{p}.ffn_gate.weight"), inter, hidden, &mut names);
        tern(&format!("{p}.ffn_up.weight"), inter, hidden, &mut names);
        tern(&format!("{p}.ffn_down.weight"), hidden, inter, &mut names);
    }
    let mut rng = Rng(7);
    let mut put = |name: String, dims: Vec<usize>, dtype: u32, data: Vec<u8>| tensors.push((name, dims, dtype, data));
    put("token_embd.weight".into(), vec![hidden, vocab], PTQ1_0, rng.ternary(vocab, hidden, 0.5));
    put("output_norm.weight".into(), vec![hidden], F32, rng.floats(hidden, 0.1, 1.0));
    for i in 0..layers {
        let p = format!("blk.{i}");
        put(format!("{p}.attn_norm.weight"), vec![hidden], F32, rng.floats(hidden, 0.1, 1.0));
        put(format!("{p}.post_attention_norm.weight"), vec![hidden], F32, rng.floats(hidden, 0.1, 1.0));
        if (i + 1) % 4 == 0 {
            put(format!("{p}.attn_q_norm.weight"), vec![head_dim], F32, rng.floats(head_dim, 0.1, 1.0));
            put(format!("{p}.attn_k_norm.weight"), vec![head_dim], F32, rng.floats(head_dim, 0.1, 1.0));
        } else {
            put(format!("{p}.ssm_alpha.weight"), vec![hidden, v_heads], BF16, rng.bf16(v_heads * hidden, 0.05));
            put(format!("{p}.ssm_beta.weight"), vec![hidden, v_heads], BF16, rng.bf16(v_heads * hidden, 0.05));
            let channels = 2 * k_dim + v_dim;
            put(format!("{p}.ssm_conv1d.weight"), vec![CONV_KERNEL, channels], F32, rng.floats(channels * CONV_KERNEL, 0.5, 0.0));
            put(format!("{p}.ssm_a"), vec![v_heads], F32, rng.floats(v_heads, 0.5, -0.6));
            put(format!("{p}.ssm_dt.bias"), vec![v_heads], F32, rng.floats(v_heads, 2.0, 0.0));
            put(format!("{p}.ssm_norm.weight"), vec![state_dim], F32, rng.floats(state_dim, 0.1, 1.0));
        }
    }
    let n = |v: usize| Value::U32(v as u32);
    let text = |s: &str| Value::Str(s.to_string());
    let mut meta = vec![
        ("general.architecture", text("qwen35")),
        ("qwen35.block_count", n(layers)),
        ("qwen35.context_length", n(256)),
        ("qwen35.embedding_length", n(hidden)),
        ("qwen35.feed_forward_length", n(inter)),
        ("qwen35.attention.head_count", n(heads)),
        ("qwen35.attention.head_count_kv", n(kv_heads)),
        ("qwen35.attention.key_length", n(head_dim)),
        ("qwen35.rope.dimension_count", n(rot_dim)),
        ("qwen35.rope.freq_base", Value::F32(10000.0f32.to_bits())),
        ("qwen35.attention.layer_norm_rms_epsilon", Value::F32(1e-6f32.to_bits())),
        ("qwen35.ssm.conv_kernel", n(CONV_KERNEL)),
        ("qwen35.ssm.state_size", n(state_dim)),
        ("qwen35.ssm.group_count", n(k_heads)),
        ("qwen35.ssm.time_step_rank", n(v_heads)),
        ("qwen35.ssm.inner_size", n(v_dim)),
        ("qwen35.full_attention_interval", n(4)),
        ("prism.hadamard.version", n(1)),
        ("prism.hadamard.block_size", n(HADAMARD_BLOCK)),
        ("prism.hadamard.transform", text("normalized-sylvester-walsh-hadamard")),
        ("prism.hadamard.axis", text("input-last-dimension")),
        ("prism.hadamard.sign_mode", text("explicit")),
        ("prism.hadamard.weight_names", Value::Array(names)),
        ("prism.hadamard.sign_widths", Value::Array(vec![n(hidden)])),
        ("prism.hadamard.sign_values", Value::Array(signs)),
        ("prism.hadamard.inverse_weight_names", Value::Array(vec![text("token_embd.weight")])),
        ("prism.hadamard.gdn_v_grouped", Value::Bool(true)),
    ];
    change(&mut meta, &mut tensors);
    writer::write(&meta, &tensors)
}

/// The numbers that a model needs worked out: what its norms add, and the
/// cosines and sines that its heads rotate by.
fn numbers(c: &Config, max_len: usize) -> Numbers {
    let float = |n: Number| match n {
        Number::F32(b) => f32::from_bits(b),
        Number::F64(b) => f64::from_bits(b) as f32,
        Number::Int(i) => i as f32,
    };
    let theta = float(c.rope_theta);
    let mut rope = Vec::new();
    for pos in 0..max_len {
        for i in 0..c.rot_dim / 2 {
            let freq = 1.0 / theta.powf((2 * i) as f32 / c.rot_dim as f32);
            let (sin, cos) = (pos as f32 * freq).sin_cos();
            rope.extend([cos.to_bits(), sin.to_bits()]);
        }
    }
    Numbers { eps: float(c.eps).to_bits(), rope }
}

fn load<'a>(file: &'a [u8], quick: bool) -> Result<Model<'a, Cpu>, String> {
    let gguf = Gguf::open(file, PACKING).unwrap();
    Model::load(&gguf, Cpu { quick }, HADAMARD_BLOCK, 64, numbers, |_, _| {})
}

fn forward(model: &mut Model<'_, Cpu>, tokens: &[u32], pos: usize) -> Vec<f32> {
    floats(&model.forward(tokens, pos))
}

#[test]
fn restores_a_saved_state() {
    let file = synthetic(|_, _| {});
    // A conversation of two batches, and one that takes up from the first's
    // saved state: the same logits, since the state holds the caches exactly.
    let mut whole = load(&file, false).unwrap();
    forward(&mut whole, &[3, 17, 42, 7, 9], 0);
    let state = whole.save(5).unwrap();
    let want = forward(&mut whole, &[11, 2], 5);
    let mut resumed = load(&file, false).unwrap();
    assert_eq!(resumed.restore(&state).unwrap(), 5);
    assert_eq!(forward(&mut resumed, &[11, 2], 5), want);
    assert!(resumed.restore(&state[..100]).is_err());
}

#[test]
fn verifies_a_draft_and_commits_part_of_it() {
    let file = synthetic(|_, _| {});
    // One model runs a draft of four tokens after a prompt and commits two;
    // another runs the prompt and those two tokens plainly. The draft's
    // logits are the plain ones token by token, and both models agree on the
    // token after.
    let mut drafted = load(&file, false).unwrap();
    let mut plain = load(&file, false).unwrap();
    let prompt = [3, 17, 42, 7, 9];
    forward(&mut drafted, &prompt, 0);
    forward(&mut plain, &prompt, 0);
    let draft = [11, 2, 30, 5];
    let logits = floats(&drafted.verify(&draft, 5).unwrap());
    let vocab = logits.len() / draft.len();
    for (i, &token) in draft.iter().enumerate() {
        let want = forward(&mut plain, &[token], 5 + i);
        for (a, b) in logits[i * vocab..][..vocab].iter().zip(&want) {
            assert!((a - b).abs() <= 1e-5 * (1.0 + a.abs()), "token {i}: {a} vs {b}");
        }
    }
    drafted.commit(2);
    let mut plain = load(&file, false).unwrap();
    forward(&mut plain, &prompt, 0);
    forward(&mut plain, &draft[..2], 5);
    let (a, b) = (forward(&mut drafted, &[8], 7), forward(&mut plain, &[8], 7));
    for (a, b) in a.iter().zip(&b) {
        assert!((a - b).abs() <= 1e-5 * (1.0 + a.abs()), "{a} vs {b}");
    }
}

#[test]
fn gpu_agrees_with_cpu() {
    let file = synthetic(|_, _| {});
    let mut model = load(&file, false).unwrap();
    // A batch of several tokens, then one more, then a batch of many, each
    // carrying the state.
    let first = forward(&mut model, &[3, 17, 42, 7, 9], 0);
    let second = forward(&mut model, &[11], 5);
    let many: Vec<u32> = (0..40).map(|i| (i * 5 % 43) as u32).collect();
    let third = forward(&mut model, &many, 6);
    assert!(first.iter().all(|v| v.is_finite()));
    assert!(first.iter().any(|&v| v != 0.0));
    assert_ne!(first, second);
    assert!(third.iter().all(|v| v.is_finite()));
}

#[test]
fn untiling_puts_value_heads_back_by_key_head() {
    // Tiled: head j shares key head j % 2; grouped: head h shares h / 3.
    let tiled: Vec<u32> = vec![0, 1, 0, 1, 0, 1];
    let grouped = untile(&tiled, 2, 6, 1);
    assert_eq!(grouped, [0, 0, 0, 1, 1, 1]);
    let tiled: Vec<u32> = (0..6).collect();
    assert_eq!(untile(&tiled, 2, 6, 1), [0, 2, 4, 1, 3, 5]);
}

#[test]
fn drops_a_draft_that_nothing_stands_of() {
    let file = synthetic(|_, _| {});
    let mut model = load(&file, true).unwrap();
    forward(&mut model, &[3, 17], 0);
    let before = model.save(2).unwrap();
    model.verify(&[1, 2, 3], 2).unwrap();
    model.commit(0);
    assert_eq!(model.save(2).unwrap(), before);
    let mut other = load(&file, true).unwrap();
    forward(&mut other, &[3, 17], 0);
    other.verify(&[4, 4], 2).unwrap();
    other.commit(0);
    let mut never = load(&file, true).unwrap();
    forward(&mut never, &[3, 17], 0);
    assert_eq!(forward(&mut other, &[6], 2), forward(&mut never, &[6], 2));
    // A whole draft leaves what running it would.
    model.verify(&[1, 2, 3], 2).unwrap();
    model.commit(3);
    let mut plain = load(&file, true).unwrap();
    forward(&mut plain, &[3, 17], 0);
    forward(&mut plain, &[1, 2, 3], 2);
    assert_eq!(model.save(5).unwrap(), plain.save(5).unwrap());
}

#[test]
fn forgets_a_sequence() {
    let file = synthetic(|_, _| {});
    let mut model = load(&file, true).unwrap();
    let first = forward(&mut model, &[3, 17, 5], 0);
    forward(&mut model, &[1, 1], 3);
    model.reset();
    assert_eq!(forward(&mut model, &[3, 17, 5], 0), first);
    assert_eq!(model.max_len(), 64);
}

#[test]
fn refuses_saved_states_that_do_not_fit() {
    let file = synthetic(|_, _| {});
    let mut model = load(&file, true).unwrap();
    forward(&mut model, &[3, 17, 5], 0);
    let state = model.save(3).unwrap();
    let mut refused = |change: &dyn Fn(&mut Vec<u8>)| {
        let mut other = state.clone();
        change(&mut other);
        model.restore(&other).unwrap_err()
    };
    assert_eq!(refused(&|s| s[0] = b'x'), "not a saved state");
    assert_eq!(refused(&|s| s[8] = 9), "a saved state of another version");
    assert_eq!(refused(&|s| s[20] = 7), "a saved state of another model");
    assert_eq!(refused(&|s| s[12] = 65), "a saved state of 65 tokens does not fit in the context");
    assert_eq!(refused(&|s| s.truncate(5)), "the saved state is cut short");
    assert_eq!(refused(&|s| s.truncate(s.len() - 1)), "the saved state is cut short");
    // What was refused has changed nothing.
    assert_eq!(model.save(3).unwrap(), state);
}

/// Sets a value of the metadata.
fn set(meta: &mut Vec<(&'static str, Value)>, key: &'static str, value: Value) {
    meta.retain(|(k, _)| *k != key);
    meta.push((key, value));
}

#[test]
fn refuses_files_it_cannot_run() {
    let said = |change: Change| match load(&synthetic(change), true) {
        Ok(_) => panic!("it is loaded"),
        Err(e) => e,
    };
    assert_eq!(
        said(|m, _| set(m, "general.architecture", Value::Str("llama".into()))),
        "the 'llama' architecture is not supported"
    );
    assert_eq!(
        said(|m, _| set(m, "qwen35.ssm.conv_kernel", Value::U32(3))),
        "the convolution kernel is not four wide"
    );
    assert_eq!(
        said(|m, _| set(m, "qwen35.ssm.inner_size", Value::U32(3))),
        "the linear attention sizes disagree"
    );
    assert_eq!(
        said(|m, _| set(m, "qwen35.ssm.group_count", Value::U32(3))),
        "value heads are not a multiple of key heads"
    );
    assert_eq!(
        said(|m, _| set(m, "prism.hadamard.axis", Value::Str("x".into()))),
        "prism.hadamard.axis is 'x', not 'input-last-dimension'"
    );
    assert_eq!(
        said(|m, _| set(m, "prism.hadamard.version", Value::U32(2))),
        "the weights are rotated in a way the model does not implement"
    );
    assert_eq!(
        said(|m, _| set(m, "prism.hadamard.gdn_v_grouped", Value::Bool(false))),
        "the linear attention output projection is not in the checkpoint's head order"
    );
    assert_eq!(
        said(|m, _| set(m, "prism.hadamard.weight_names", Value::Array(vec![Value::Str("x".into())]))),
        "the rotated weights are not the ones the model expects"
    );
    assert_eq!(
        said(|m, _| set(m, "prism.hadamard.inverse_weight_names", Value::Array(vec![Value::Str("x".into())]))),
        "the embedding table is not rotated as the model expects"
    );
    assert_eq!(
        said(|m, _| set(m, "prism.hadamard.sign_values", Value::Array(vec![Value::I32(1)]))),
        "too few rotation signs"
    );
    assert_eq!(
        said(|m, _| set(m, "qwen35.attention.head_count", Value::U32(0))),
        "no rotation signs for activations 0 wide"
    );
    assert_eq!(
        said(|m, _| set(m, "qwen35.feed_forward_length", Value::U32(u32::MAX))),
        "no rotation signs for activations 4294967295 wide"
    );
    assert_eq!(
        said(|_, t| t.retain(|t| t.0 != "blk.2.ffn_up.weight")),
        "missing tensor 'blk.2.ffn_up.weight'"
    );
    // Heads that cannot be told apart.
    assert_eq!(
        said(|_, t| shorten(t, "blk.3.attn_q.weight", 1792)),
        "tensor 'blk.3.attn_q.weight' has the wrong shape"
    );
    assert_eq!(
        said(|_, t| shorten(t, "blk.0.attn_gate.weight", 512)),
        "tensor 'blk.0.attn_gate.weight' has the wrong shape"
    );
    assert_eq!(
        said(|_, t| shorten(t, "blk.1.ssm_a", 7)),
        "tensor 'blk.1.ssm_a' has the wrong shape"
    );
    let file = synthetic(|_, _| {});
    let gguf = Gguf::open(&file, PACKING).unwrap();
    match Model::load(&gguf, Cpu { quick: true }, HADAMARD_BLOCK, usize::MAX, numbers, |_, _| {}) {
        Ok(_) => panic!("it is loaded"),
        Err(e) => assert_eq!(e, "the model's sizes do not fit in memory"),
    }
}

/// Cuts a tensor down to some rows, or to some elements where it has no rows.
fn shorten(tensors: &mut [(String, Vec<usize>, u32, Vec<u8>)], name: &str, len: usize) {
    let (_, dims, _, data) = tensors.iter_mut().find(|t| t.0 == name).unwrap();
    let last = dims.last_mut().unwrap();
    data.truncate(data.len() / *last * len);
    *last = len;
}

#[test]
fn tells_whether_the_weights_fit() {
    let fits = |change: Change| load(&synthetic(change), true).unwrap().fit;
    assert!(fits(|_, _| {}));
    // An odd width of the rotary embedding, where a layer has one.
    assert!(!fits(|m, _| set(m, "qwen35.rope.dimension_count", Value::U32(63))));
    assert!(!fits(|_, t| shorten(t, "blk.0.ffn_gate.weight", 512)));
    assert!(!fits(|_, t| shorten(t, "blk.3.attn_k.weight", 256)));
    assert!(!fits(|_, t| shorten(t, "output_norm.weight", 512)));
    assert!(!fits(|_, t| shorten(t, "output.weight", 63)));
    assert!(!fits(|_, t| shorten(t, "blk.0.ssm_norm.weight", 100)));
    assert!(!fits(|m, _| set(m, "qwen35.attention.head_count_kv", Value::U32(3))));
    // The state of a model is kept whether or not it can be run.
    let file = synthetic(|_, t| shorten(t, "output_norm.weight", 512));
    let mut model = load(&file, true).unwrap();
    let state = model.dump(0);
    assert_eq!(model.take_up(&state), Ok(0));
}

#[test]
fn runs_with_norms_of_part_of_a_head() {
    let file = synthetic(|_, t| shorten(t, "blk.3.attn_q_norm.weight", 128));
    let mut model = load(&file, false).unwrap();
    assert!(model.fit);
    let logits = forward(&mut model, &[3, 17, 42], 0);
    assert_eq!(logits.len(), 64);
    assert!(logits.iter().all(|x| x.is_finite()));
    let whole = synthetic(|_, _| {});
    assert_ne!(forward(&mut load(&whole, false).unwrap(), &[3, 17, 42], 0), logits);
}

#[test]
fn runs_without_full_attention() {
    let file = synthetic(|m, t| {
        set(m, "qwen35.block_count", Value::U32(3));
        set(m, "qwen35.rope.dimension_count", Value::U32(63));
        t.retain(|t| !t.0.starts_with("blk.3."));
        let names = &mut m.iter_mut().find(|m| m.0 == "prism.hadamard.weight_names").unwrap().1;
        if let Value::Array(names) = names {
            names.retain(|n| !matches!(n, Value::Str(s) if s.starts_with("blk.3.")));
        }
    });
    let mut model = load(&file, false).unwrap();
    assert!(model.fit);
    let whole = forward(&mut model, &[3, 17, 42, 7], 0);
    let mut model = load(&file, false).unwrap();
    forward(&mut model, &[3, 17], 0);
    let parts = forward(&mut model, &[42, 7], 2);
    assert!(whole.iter().zip(&parts).all(|(a, b)| (a - b).abs() <= 1e-4 * (1.0 + b.abs())));
}

#[test]
fn counts_off_what_it_loads() {
    let file = synthetic(|_, _| {});
    let gguf = Gguf::open(&file, PACKING).unwrap();
    let mut ticks = Vec::new();
    let model = Model::load(&gguf, Cpu { quick: true }, HADAMARD_BLOCK, 64, numbers, |done, total| {
        ticks.push((done, total))
    });
    assert!(model.is_ok());
    let total = ticks[0].1;
    assert_eq!(ticks, (1..=total).map(|done| (done, total)).collect::<Vec<_>>());
}

/// Whether a device came as close to the reference as it should.
fn close(pair: &Pair, tolerance: f32) {
    assert_eq!(pair.got.len(), pair.want.len());
    assert!(!pair.got.is_empty());
    for (a, b) in floats(&pair.got).iter().zip(&floats(&pair.want)) {
        assert!((a - b).abs() <= tolerance * (1.0 + b.abs()), "{a} vs {b}");
    }
}

#[test]
fn checks_of_memory() {
    let cpu = Cpu { quick: false };
    close(&checks::write_and_read_round_trip(&cpu), 0.0);
    let (zero, moved) = checks::alloc_is_zeroed_and_copy_moves_ranges(&cpu, &cpu);
    assert_eq!(zero, [0; 1000]);
    close(&moved, 0.0);
    assert_eq!(checks::resize_keeps_capacity(&cpu), (16, 64));
    assert!(checks::kept_capacity((16, 64)));
    assert!(!checks::kept_capacity((64, 64)));
    let caching = token_checks::cache_round_trips(&cpu, &cpu);
    assert_eq!(caching.all, caching.want);
    assert_eq!(caching.start, caching.want[..7]);
    let mut expect = caching.want.clone();
    for i in 0..500 {
        expect[i] = i as u16 * 3;
    }
    assert_eq!(caching.written, expect);
    assert!(caching.holds());
    let mut other = token_checks::cache_round_trips(&cpu, &cpu);
    other.written[500] ^= 1;
    assert!(!other.holds());
    let batches = checks::ternary_batches();
    assert_eq!(batches, [false, false, true, true, true, true, true, true, true, true]);
    close(&token_checks::store_rounds_like_cpu(&cpu, &cpu), 0.0);
}

#[test]
fn checks_of_operations() {
    let cpu = Cpu { quick: false };
    checks::matmul_matches_cpu(&cpu, &cpu).iter().for_each(|p| close(p, 1e-4));
    checks::rmsnorm_matches_cpu(&cpu, &cpu).iter().for_each(|p| close(p, 1e-5));
    checks::l2norm_matches_cpu(&cpu, &cpu).iter().for_each(|p| close(p, 1e-5));
    let (silu, sigmoid, sum) = checks::elementwise_match_cpu(&cpu, &cpu);
    [silu, sigmoid, sum].iter().for_each(|p| close(p, 1e-6));
    let (one, five) = checks::hadamard_matches_cpu(&cpu, &cpu, HADAMARD_BLOCK);
    for turns in [one, five] {
        close(&turns.there, 1e-5);
        close(&turns.back, 1e-5);
        // The inverse undoes the rotation.
        close(&turns.undone, 1e-5);
    }
    let (one, five) = checks::norm_rotate_matches_cpu(&cpu, &cpu, HADAMARD_BLOCK);
    close(&one, 1e-5);
    close(&five, 1e-5);
    let (narrow, wide) = token_checks::rope_matches_cpu(&cpu, &cpu);
    close(&narrow, 1e-5);
    close(&wide, 1e-5);
    for (got, want) in token_checks::conv_matches_cpu(&cpu, &cpu) {
        assert_eq!((got.q, got.k, got.v, got.state), (want.q, want.k, want.v, want.state));
    }
    for (got, want) in token_checks::delta_net_matches_cpu(&cpu, &cpu) {
        assert_eq!((got.out, got.state), (want.out, want.state));
    }
}

#[test]
fn checks_of_long_operations() {
    let cpu = Cpu { quick: true };
    let pairs = checks::ternary_matmul_matches_cpu(&cpu, &cpu);
    let sizes: Vec<usize> = pairs.iter().map(|p| p.got.len()).collect();
    assert_eq!(sizes, [1, 200, 231, 140_000, 1600, 1024, 4700, 33_990, 39_000, 160_000]);
    pairs.iter().for_each(|p| close(p, 0.0));
    let pairs = token_checks::attention_matches_cpu(&cpu, &cpu);
    let sizes: Vec<usize> = pairs.iter().map(|p| p.got.len()).collect();
    assert_eq!(sizes, [96, 4096, 256, 18_432, 144, 131_072]);
    pairs.iter().for_each(|p| close(p, 0.0));
}

#[test]
fn tiles_come_close() {
    let cpu = Cpu { quick: false };
    for t in tile_error(&cpu, &cpu) {
        assert_eq!(t.got, t.want);
        assert_eq!(t.got.len(), t.n * t.rows);
        // Rounding the activations moves the products a little.
        assert_ne!(t.want_half, t.want);
        close(&Pair { got: t.want_half, want: t.want }, 5e-2);
    }
}

#[test]
fn times_what_it_says() {
    let cpu = Cpu { quick: true };
    let t = dispatch_overhead(&cpu);
    assert_eq!((t.name.as_str(), t.calls, t.runs), ("add of 5120", 1, 4000));
    assert!(t.nanos > 0);
    let list = kernel_speed(&cpu, 64);
    assert_eq!(list.len(), 25);
    assert_eq!((list[0].name.as_str(), list[0].calls, list[0].runs), ("norm_rotate 5120", 129, 20));
    assert_eq!((list[24].name.as_str(), list[24].calls), ("matmul 1024x5120", 32));
    assert!(list.iter().all(|t| t.nanos > 0));
}

#[test]
fn times_products_of_every_shape() {
    let cpu = Cpu { quick: true };
    let list = ternary_matmul_speed(&cpu);
    let shapes: Vec<(usize, usize, usize, usize)> = list.iter().map(|p| (p.rows, p.cols, p.n, p.runs)).collect();
    assert_eq!(shapes[0], (17408, 5120, 1, 800));
    assert_eq!(shapes[8], (17408, 5120, 256, 20));
    assert_eq!(shapes[9], (5120, 17408, 1, 2000));
    assert_eq!(shapes.len(), 13);
    for p in &list {
        assert_eq!(p.bytes, p.rows * p.cols / 128 * 28);
    }
}

#[test]
fn halves_round_to_the_nearest() {
    for h in 0..0x7c00u16 {
        assert_eq!(to_half(from_half(h)), h);
    }
    assert_eq!(to_half(1.0 + 2.0f32.powi(-11)), 0x3c00);
    assert_eq!(to_half(1.0 + 3.0 * 2.0f32.powi(-11)), 0x3c02);
}

#[test]
fn a_boxed_model_verifies_as_the_model_does() {
    let file = synthetic(|_, _| {});
    let mut plain = load(&file, true).unwrap();
    let mut boxed = Box::new(load(&file, true).unwrap());
    forward(&mut plain, &[3, 17], 0);
    LanguageModel::forward(&mut boxed, &[3, 17], 0);
    let logits = LanguageModel::verify(&mut boxed, &[5, 8, 1], 2);
    assert!(logits.is_some());
    assert_eq!(logits, plain.verify(&[5, 8, 1], 2));
    // Nothing of the draft stands: what comes next is as if it had not been.
    let mut fresh = load(&file, true).unwrap();
    forward(&mut fresh, &[3, 17], 0);
    assert_eq!(LanguageModel::forward(&mut boxed, &[9], 2), fresh.forward(&[9], 2));
}
