//! What runs on a GPU, and in what order.
use dwim::gpu::blocks::{block_major, block_major_part, TOGETHER};
use dwim::gpu::draws::Rng;
use dwim::gpu::plan::{self, Dispatch, DeltaLens, Kernel};
use dwim::gpu::ring::{chunks, Ring, STAGING, SUBMIT_EVERY};
use dwim::gpu::select::{check, compute_family, memory_type, pick, Abilities, Kind};
use dwim::gpu::spread::{matmul, Heads};

/// The most workgroups across that a GPU has to allow.
const MAX: u32 = 65535;

/// A kernel's push constants and workgroups.
fn shown(d: &Dispatch) -> (Kernel, &[u32], u32, u32) {
    (d.kernel, &d.params, d.width, d.height)
}

/// A single kernel's push constants and workgroups.
fn one(d: Option<Dispatch>) -> (Kernel, Vec<u32>, u32, u32) {
    let d = d.unwrap();
    (d.kernel, d.params, d.width, d.height)
}

#[test]
fn prefers_discrete_devices() {
    assert_eq!(pick(&[Kind::Other, Kind::Integrated, Kind::Discrete, Kind::Discrete]), Some(2));
    assert_eq!(pick(&[Kind::Virtual, Kind::Integrated]), Some(1));
    assert_eq!(pick(&[Kind::Other, Kind::Virtual]), Some(1));
    assert_eq!(pick(&[Kind::Other, Kind::Other]), Some(0));
    assert_eq!(pick(&[]), None);
}

/// A GPU with all that the kernels use.
fn able() -> Abilities {
    Abilities {
        name: "GPU".to_string(),
        api_version: (1 << 22) | (1 << 12),
        subgroup_operations: 0xff,
        subgroup_size: 32,
        shared_memory: 32 << 10,
        extensions: vec!["VK_KHR_shader_float16_int8".to_string(), "VK_KHR_push_descriptor".to_string()],
        float16: true,
    }
}

#[test]
fn says_what_a_device_lacks() {
    assert_eq!(check(&able()), Ok(()));
    let lacks = |change: &dyn Fn(&mut Abilities)| {
        let mut a = able();
        change(&mut a);
        check(&a).unwrap_err()
    };
    assert_eq!(lacks(&|a| a.api_version = 1 << 22), "GPU does not support Vulkan 1.1");
    assert_eq!(lacks(&|a| a.subgroup_operations = 0x11), "GPU lacks the subgroup operations the kernels use");
    assert_eq!(lacks(&|a| a.subgroup_size = 8), "GPU lacks the subgroup operations the kernels use");
    assert_eq!(
        lacks(&|a| a.shared_memory = (32 << 10) - 1),
        "GPU has less than the 32 KB of workgroup memory the kernels use"
    );
    assert_eq!(lacks(&|a| a.extensions.clear()), "GPU lacks VK_KHR_push_descriptor");
    assert_eq!(lacks(&|a| a.extensions.truncate(1)), "GPU lacks VK_KHR_push_descriptor");
    assert_eq!(
        lacks(&|a| {
            a.extensions.remove(0);
        }),
        "GPU lacks VK_KHR_shader_float16_int8"
    );
    assert_eq!(lacks(&|a| a.float16 = false), "GPU lacks 16-bit float arithmetic, which the kernels use");
}

#[test]
fn finds_queues_and_memory() {
    assert_eq!(compute_family(&[1, 4, 7, 2]), Ok(2));
    assert_eq!(compute_family(&[1, 4]), Err("no compute queue".to_string()));
    assert_eq!(memory_type(&[1, 6, 7], 0b110, 6), Ok(1));
    assert_eq!(memory_type(&[1, 6, 7], 0b100, 6), Ok(2));
    assert_eq!(memory_type(&[1, 6, 7], 0b001, 6), Err("no suitable memory type".to_string()));
}

#[test]
fn plans_elementwise_operations() {
    assert_eq!(one(plan::elementwise(Kernel::Add, 1000, 1000, MAX)), (Kernel::Add, vec![1000], 4, 1));
    assert!(plan::elementwise(Kernel::Add, 1000, 999, MAX).is_none());
    assert!(plan::elementwise(Kernel::Add, 257, 257, 1).is_none());
    let eps = 1e-6f32.to_bits();
    assert_eq!(one(plan::norm(Kernel::Rmsnorm, 640, 128, eps, MAX)), (Kernel::Rmsnorm, vec![128, eps], 5, 1));
    assert!(plan::norm(Kernel::L2norm, 641, 128, eps, MAX).is_none());
    assert!(plan::norm(Kernel::L2norm, 641, 0, eps, MAX).is_none());
}

#[test]
fn plans_operations_on_tokens() {
    assert_eq!(
        one(plan::rope(3 * 4 * 16, 7, 4, 16, 16, MAX)),
        (Kernel::Rope, vec![4, 16, 16, 7, 3], 1, 1)
    );
    assert!(plan::rope(3 * 4 * 16, 7, 4, 16, 15, MAX).is_none());
    assert!(plan::rope(3 * 4 * 16, 7, 4, 16, 18, MAX).is_none());
    assert_eq!(one(plan::store(4096, 1024, 2048, MAX)), (Kernel::Store, vec![1024, 2048], 4, 1));
    assert!(plan::store(4096, 1024, 4096, MAX).is_none());
    assert!(plan::store(4096, 1, 2, MAX).is_none());
    assert_eq!(
        one(plan::hadamard(3 * 5120, 5120, 1024, true, MAX)),
        (Kernel::Hadamard, vec![5120, 1], 15, 1)
    );
    assert!(plan::hadamard(3 * 5120, 5120, 1000, true, MAX).is_none());
    let eps = 1e-6f32.to_bits();
    assert_eq!(
        one(plan::norm_rotate(5120, 5120, 5120, 5120, 1024, eps, MAX)),
        (Kernel::NormRotate, vec![5120, eps], 5, 1)
    );
    assert!(plan::norm_rotate(5120, 5120, 1024, 5120, 1024, eps, MAX).is_none());
    assert_eq!(
        one(plan::conv(32, 32, 96, 240, 160, 240, 320, MAX)),
        (Kernel::Conv, vec![2, 80, 16, 16], 1, 1)
    );
    assert!(plan::conv(32, 32, 95, 240, 160, 240, 320, MAX).is_none());
    let lens = DeltaLens { out: 3840, q: 1280, k: 1280, v: 3840, gates: 60, decay: 12, state: 98304 };
    assert_eq!(one(plan::delta_net(lens, 2, 6, 128, MAX)), (Kernel::DeltaNet, vec![5, 2, 6, 128], 6, 1));
    let lens = DeltaLens { out: 1920, q: 640, k: 640, v: 1920, gates: 60, decay: 12, state: 24576 };
    assert!(plan::delta_net(lens, 2, 6, 64, MAX).is_none(), "the kernel is written for 128-wide heads");
}

#[test]
fn spreads_products_over_kernels() {
    let plan = |rows: usize, cols: usize, n: usize, ternary: bool, max: u32| matmul(rows, cols, n * cols, n * rows, ternary, max);
    // A row each in bf16, in a grid as wide as the GPU allows.
    let p = plan(70_000, 8, 2, false, MAX).unwrap();
    assert_eq!(p.len(), 1);
    assert_eq!(shown(&p[0]), (Kernel::Matmul, [70_000, 8, 2, 65535].as_slice(), 65535, 2));
    // Eight rows each of ternary weights for a single token.
    let p = plan(200, 5120, 1, true, MAX).unwrap();
    assert_eq!(shown(&p[0]), (Kernel::MatmulTernary, [200, 5120, 1, 25].as_slice(), 25, 1));
    // A few tokens, packed first.
    let p = plan(200, 5120, 8, true, MAX).unwrap();
    assert_eq!(p.len(), 2);
    assert_eq!(shown(&p[0]), (Kernel::PackHalves, [8, 5120].as_slice(), 20, 4));
    assert_eq!(shown(&p[1]), (Kernel::MatmulTernaryFew, [200, 5120, 8, 25].as_slice(), 25, 1));
    // More than a few and less than half a tile.
    let p = plan(64, 128, 16, true, MAX).unwrap();
    assert_eq!(p.len(), 1);
    assert_eq!(shown(&p[0]), (Kernel::MatmulTernaryBatch, [64, 128, 16, 8].as_slice(), 8, 1));
    // Tiles, each row of the grid once for every tile of tokens.
    let p = plan(300, 1152, 130, true, MAX).unwrap();
    assert_eq!(shown(&p[0]), (Kernel::PackHalves, [130, 1152].as_slice(), 5, 68));
    assert_eq!(shown(&p[1]), (Kernel::MatmulTernaryTile, [300, 1152, 130, 5].as_slice(), 5, 3));
    assert!(plan(64, 12, 1, false, MAX).is_none(), "columns come in eights");
    assert!(matmul(64, 16, 17, 64, false, MAX).is_none());
    assert!(matmul(64, 16, 16, 65, false, MAX).is_none());
    assert!(plan(64, 1 << 18, 64, true, MAX).is_none(), "more than the tile kernel packs");
}

#[test]
fn spreads_attention_over_dispatches() {
    let heads = Heads { pos: 5, n_heads: 4, head_dim: 8, n_kv_heads: 2 };
    let p = heads.attention(3 * 32, 3 * 32, MAX).unwrap();
    assert_eq!(p.len(), 1);
    assert_eq!(shown(&p[0]), (Kernel::Attention, [4, 8, 2, 5, 0, 1].as_slice(), 6, 1));
    // Over more positions than a chunk, the chunks are combined.
    let heads = Heads { pos: 300, n_heads: 16, head_dim: 128, n_kv_heads: 8 };
    let p = heads.attention(2 * 2048, 2 * 2048, MAX).unwrap();
    assert_eq!(p.len(), 2);
    assert_eq!(shown(&p[0]), (Kernel::Attention, [16, 128, 8, 300, 0, 3].as_slice(), 48, 1));
    assert_eq!(shown(&p[1]), (Kernel::AttentionCombine, [16, 128, 8, 300, 0, 3].as_slice(), 32, 1));
    // And over more than the partials of all tokens fit, a few at a time.
    let heads = Heads { pos: 32704, n_heads: 16, head_dim: 128, n_kv_heads: 4 };
    let p = heads.attention(64 * 2048, 64 * 2048, MAX).unwrap();
    let firsts: Vec<u32> = p.iter().step_by(2).map(|d| d.params[4]).collect();
    assert_eq!(firsts, [0, 31, 62]);
    let tokens: Vec<u32> = p.iter().skip(1).step_by(2).map(|d| d.width / 16).collect();
    assert_eq!(tokens, [31, 31, 2]);
    let odd = Heads { pos: 0, n_heads: 2, head_dim: 6, n_kv_heads: 1 };
    assert!(odd.attention(12, 12, MAX).is_none());
    let many = Heads { pos: 0, n_heads: 9, head_dim: 8, n_kv_heads: 1 };
    assert!(many.attention(72, 72, MAX).is_none());
}

#[test]
fn goes_round_the_ring() {
    let mut ring = Ring::new();
    for round in 0..6 {
        let o = ring.open();
        assert_eq!((o.buffer, o.begin, o.wait), (round % 4, true, round >= 4));
        let again = ring.open();
        assert_eq!((again.begin, again.wait), (false, false));
        for i in 1..=SUBMIT_EVERY {
            assert_eq!(ring.count(), i == SUBMIT_EVERY);
        }
        assert_eq!(ring.submit(), Some(round % 4));
    }
    assert_eq!(ring.submit(), None);
    ring.open();
    let f = ring.flush();
    assert_eq!((f.submit, f.wait), (Some(2), [true; 4]));
    assert_eq!(ring.in_flight, [false; 4]);
}

#[test]
fn takes_turns_with_staging() {
    let mut ring = Ring::new();
    let mut waits = Vec::new();
    for _ in 0..4 {
        let s = ring.stage();
        waits.push((s.which, s.wait));
        let slot = ring.open().buffer;
        ring.submit();
        ring.staged(s.which, slot);
    }
    assert_eq!(waits, [(0, None), (1, None), (0, Some(0)), (1, Some(1))]);
    ring.flush();
    assert_eq!(ring.stage().wait, None);
}

#[test]
fn copies_in_chunks() {
    assert_eq!(chunks(0), []);
    assert_eq!(chunks(STAGING), [(0, STAGING)]);
    assert_eq!(chunks(2 * STAGING + 5), [(0, STAGING), (STAGING, STAGING), (2 * STAGING, 5)]);
}

#[test]
fn puts_blocks_before_rows() {
    let (rows, blocks, size) = (3, 10, 2);
    let data: Vec<u8> = (0..rows * blocks * size).map(|i| i as u8).collect();
    let out = block_major(&data, rows, blocks, size);
    let mut want: Vec<u8> = Vec::new();
    for b in 0..blocks {
        for r in 0..rows {
            want.extend(&data[(r * blocks + b) * size..][..size]);
        }
    }
    assert_eq!(out, want);
    // In parts, it is the same.
    let parts: Vec<u8> = (0..blocks.div_ceil(TOGETHER))
        .flat_map(|i| block_major_part(&data, rows, blocks, size, i))
        .collect();
    assert_eq!(parts, want);
}

/// The numbers as floating-point arithmetic gives them.
struct Plain(u64);

impl Plain {
    fn next(&mut self) -> f32 {
        self.0 = self.0.wrapping_mul(6364136223846793005).wrapping_add(1442695040888963407);
        ((self.0 >> 40) as f32 / (1u64 << 24) as f32) * 2.0 - 1.0
    }
}

fn floats(bits: &[u32]) -> Vec<f32> {
    bits.iter().map(|&b| f32::from_bits(b)).collect()
}

#[test]
fn draws_as_arithmetic_does() {
    let n = 5000;
    let mut plain = Plain(4);
    let want: Vec<f32> = (0..n).map(|_| plain.next()).collect();
    assert_eq!(floats(&Rng { state: 4 }.floats(n)), want);
    let halves: Vec<u16> = want.iter().map(|v| (v.to_bits() >> 16) as u16).collect();
    assert_eq!(Rng { state: 4 }.bf16(n), halves);
    let signs: Vec<f32> = want.iter().map(|&v| if v < 0.0 { -1.0 } else { 1.0 }).collect();
    assert_eq!(floats(&Rng { state: 4 }.signs(n)), signs);
    let weights: Vec<u32> = want.iter().map(|v| (1.0 + 0.2 * v).to_bits()).collect();
    assert_eq!(Rng { state: 4 }.weights(n), weights);
    let decay: Vec<f32> = (0..n).map(|i| if i < n / 2 { -want[i].abs() } else { 4.0 * want[i] }).collect();
    assert_eq!(floats(&Rng { state: 4 }.decay(n / 2)), decay);
}
