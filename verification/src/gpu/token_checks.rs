//! Checks of the operations in which tokens meet: positions, attention, the
//! caches it reads, and the convolution and recurrence of linear attention.
use vstd::prelude::*;

use super::checks::{buffer, cache, Pair};
use super::draws::{after, decay_drawn, values, Rng};
use crate::bonsai::run::lemma_multiple;
use crate::bytes::copy_range;
use crate::device::{splice, zeros, Device};

verus! {

/// Heads that are rotated: how many, how wide, how much of each, of how many
/// tokens, and from which position on.
#[derive(Clone, Copy, Debug)]
pub struct Rotation {
    pub n_heads: usize,
    pub head_dim: usize,
    pub rot_dim: usize,
    pub n: usize,
    pub pos: usize,
}

impl Rotation {
    /// Numbers of the table.
    pub open spec fn table(self) -> nat {
        ((self.pos + self.n) * self.rot_dim) as nat
    }

    /// Numbers of the tokens.
    pub open spec fn x(self) -> nat {
        (self.n * (self.n_heads * self.head_dim)) as nat
    }

    /// What the rotation of numbers drawn from a state gives on both devices.
    pub open spec fn rotates<D: Device, C: Device>(self, gpu: &D, cpu: &C, s: u64, r: Pair) -> bool {
        let table = values(s, self.table());
        let x = values(after(s, self.table()), self.x());
        let (heads, dim, rot, pos) = (
            self.n_heads as nat,
            self.head_dim as nat,
            self.rot_dim as nat,
            self.pos as nat,
        );
        &&& r.got@ == gpu.roped(x, table, pos, heads, dim, rot)
        &&& r.want@ == cpu.roped(x, table, pos, heads, dim, rot)
    }

    /// Whether the sizes go together, and can be counted.
    pub open spec fn sound(self) -> bool {
        &&& self.n_heads * self.head_dim > 0
        &&& self.rot_dim <= self.head_dim
        &&& self.rot_dim % 2 == 0
        &&& self.pos + self.n <= usize::MAX
        &&& self.n_heads * self.head_dim <= usize::MAX
        &&& self.table() <= usize::MAX
        &&& self.x() <= usize::MAX
    }

    /// The rotation on a device.
    fn run<D: Device>(&self, d: &D, table: &[u32], x: &[u32]) -> (out: Vec<u32>)
        requires
            self.sound(),
            table@.len() == self.table(),
            x@.len() == self.x(),
        ensures
            out@ == d.roped(
                x@,
                table@,
                self.pos as nat,
                self.n_heads as nat,
                self.head_dim as nat,
                self.rot_dim as nat,
            ),
    {
        proof {
            lemma_multiple(self.n as int, self.n_heads * self.head_dim);
        }
        let table = buffer(d, table);
        let mut buf = buffer(d, x);
        d.rope(&mut buf, &table, self.pos, self.n_heads, self.head_dim, self.rot_dim);
        d.read(&buf)
    }

    /// The rotation on both devices.
    fn case<D: Device, C: Device>(&self, gpu: &D, cpu: &C, rng: &mut Rng) -> (r: Pair)
        requires
            self.sound(),
        ensures
            self.rotates(gpu, cpu, old(rng).state, r),
            final(rng).state == after(after(old(rng).state, self.table()), self.x()),
    {
        let table = rng.floats((self.pos + self.n) * self.rot_dim);
        let x = rng.floats(self.n * (self.n_heads * self.head_dim));
        let (a, b) = (table.as_slice(), x.as_slice());
        Pair { got: self.run(gpu, a, b), want: self.run(cpu, a, b) }
    }
}

/// The rotation of heads, the whole of each and a part of each.
pub fn rope_matches_cpu<D: Device, C: Device>(gpu: &D, cpu: &C) -> (r: (Pair, Pair))
    ensures
        (Rotation { n_heads: 4, head_dim: 16, rot_dim: 16, n: 3, pos: 7 }).rotates(gpu, cpu, 6, r.0),
        (Rotation { n_heads: 3, head_dim: 256, rot_dim: 64, n: 2, pos: 5 }).rotates(
            gpu,
            cpu,
            after(after(6, 160), 192),
            r.1,
        ),
{
    let mut rng = Rng { state: 6 };
    let whole = Rotation { n_heads: 4, head_dim: 16, rot_dim: 16, n: 3, pos: 7 };
    let part = Rotation { n_heads: 3, head_dim: 256, rot_dim: 64, n: 2, pos: 5 };
    let one = whole.case(gpu, cpu, &mut rng);
    let two = part.case(gpu, cpu, &mut rng);
    (one, two)
}

/// Activations in a device's half precision.
pub open spec fn halved<D: Device>(d: &D, x: Seq<u32>) -> Seq<u16> {
    x.map_values(|v: u32| d.half(v))
}

/// Attention: over how many heads, how wide, sharing how many keys and values,
/// of how many tokens, and from which position on.
#[derive(Clone, Copy, Debug)]
pub struct Attending {
    pub n_heads: usize,
    pub head_dim: usize,
    pub n_kv_heads: usize,
    pub n: usize,
    pub pos: usize,
}

impl Attending {
    /// Numbers of the queries.
    pub open spec fn q(self) -> nat {
        (self.n * (self.n_heads * self.head_dim)) as nat
    }

    /// Numbers of the keys, and of the values.
    pub open spec fn kv(self) -> nat {
        ((self.pos + self.n) * (self.n_kv_heads * self.head_dim)) as nat
    }

    /// What attention over numbers drawn from a state gives on a device.
    pub open spec fn on<D: Device>(self, d: &D, s: u64) -> Seq<u32> {
        let s1 = after(s, self.q());
        let s2 = after(s1, self.kv());
        d.attended(
            values(s, self.q()),
            halved(d, values(s1, self.kv())),
            halved(d, values(s2, self.kv())),
            self.pos as nat,
            self.n_heads as nat,
            self.head_dim as nat,
            self.n_kv_heads as nat,
        )
    }

    /// The state after its numbers are drawn.
    pub open spec fn drawn_from(self, s: u64) -> u64 {
        after(after(after(s, self.q()), self.kv()), self.kv())
    }

    /// Whether the sizes are some, and can be counted on any machine.
    pub open spec fn sound(self) -> bool {
        &&& 0 < self.n_heads <= 0xffff
        &&& 0 < self.head_dim <= 0x1000
        &&& 0 < self.n_kv_heads <= 0xffff
        &&& self.n <= 0x1000
        &&& self.pos <= 0xffff
        &&& self.q() <= 0x7fff_ffff
        &&& self.kv() <= 0x7fff_ffff
    }

    /// Attention on a device.
    fn run<D: Device>(&self, d: &D, q: &[u32], k: &[u32], v: &[u32]) -> (out: Vec<u32>)
        requires
            self.sound(),
            q@.len() == self.q(),
            k@.len() == self.kv(),
            v@.len() == self.kv(),
        ensures
            out@ == d.attended(
                q@,
                halved(d, k@),
                halved(d, v@),
                self.pos as nat,
                self.n_heads as nat,
                self.head_dim as nat,
                self.n_kv_heads as nat,
            ),
    {
        let ghost (a, b) = (self.n_heads * self.head_dim, self.n_kv_heads * self.head_dim);
        proof {
            let (h, g, d, p, n) = (
                self.n_heads as int,
                self.n_kv_heads as int,
                self.head_dim as int,
                self.pos as int,
                self.n as int,
            );
            assert(0 < h * d <= 0xffff * 0x1000) by (nonlinear_arith)
                requires
                    0 < h <= 0xffff,
                    0 < d <= 0x1000,
            ;
            assert(0 < g * d <= 0xffff * 0x1000) by (nonlinear_arith)
                requires
                    0 < g <= 0xffff,
                    0 < d <= 0x1000,
            ;
            lemma_multiple(n, a);
            assert(p * b <= (p + n) * b && 0 <= p * b) by (nonlinear_arith)
                requires
                    p >= 0,
                    n >= 0,
                    b >= 0,
            ;
        }
        let width: usize = self.n_kv_heads * self.head_dim;
        let split: usize = self.pos * width;
        let kc = cache(d, k, split);
        let vc = cache(d, v, split);
        let n: usize = q.len();
        let q = buffer(d, q);
        let mut out = d.alloc_buffer(n);
        assert(halved(d, k@).take(k@.len() as int) =~= halved(d, k@));
        assert(halved(d, v@).take(v@.len() as int) =~= halved(d, v@));
        d.attention(
            &mut out,
            &q,
            &kc,
            &vc,
            self.pos,
            self.n_heads,
            self.head_dim,
            self.n_kv_heads,
        );
        d.read(&out)
    }

    /// Attention on both devices.
    fn case<D: Device, C: Device>(&self, gpu: &D, cpu: &C, rng: &mut Rng) -> (r: Pair)
        requires
            self.sound(),
        ensures
            r.got@ == self.on(gpu, old(rng).state),
            r.want@ == self.on(cpu, old(rng).state),
            final(rng).state == self.drawn_from(old(rng).state),
    {
        proof {
            let (h, g, d) = (
                self.n_heads as int,
                self.n_kv_heads as int,
                self.head_dim as int,
            );
            assert(0 < h * d <= 0xffff * 0x1000) by (nonlinear_arith)
                requires
                    0 < h <= 0xffff,
                    0 < d <= 0x1000,
            ;
            assert(0 < g * d <= 0xffff * 0x1000) by (nonlinear_arith)
                requires
                    0 < g <= 0xffff,
                    0 < d <= 0x1000,
            ;
        }
        let q = rng.floats(self.n * (self.n_heads * self.head_dim));
        let k = rng.floats((self.pos + self.n) * (self.n_kv_heads * self.head_dim));
        let v = rng.floats((self.pos + self.n) * (self.n_kv_heads * self.head_dim));
        let (a, b, c) = (q.as_slice(), k.as_slice(), v.as_slice());
        Pair { got: self.run(gpu, a, b, c), want: self.run(cpu, a, b, c) }
    }
}

/// What attention is checked over: the last attends over more positions than
/// one dispatch has scores for, all its tokens at once.
pub open spec fn attending_cases() -> Seq<Attending> {
    seq![
        Attending { n_heads: 4, head_dim: 8, n_kv_heads: 2, n: 3, pos: 5 },
        Attending { n_heads: 16, head_dim: 128, n_kv_heads: 8, n: 2, pos: 300 },
        Attending { n_heads: 2, head_dim: 128, n_kv_heads: 1, n: 1, pos: 0 },
        Attending { n_heads: 24, head_dim: 256, n_kv_heads: 4, n: 3, pos: 1000 },
        Attending { n_heads: 3, head_dim: 24, n_kv_heads: 1, n: 2, pos: 9 },
        Attending { n_heads: 16, head_dim: 128, n_kv_heads: 4, n: 64, pos: 32704 },
    ]
}

/// The state that a case's numbers are drawn from.
pub open spec fn attending_state(i: int) -> u64
    decreases i,
{
    if i <= 0 {
        7
    } else {
        attending_cases()[i - 1].drawn_from(attending_state(i - 1))
    }
}

/// Attention over caches.
pub fn attention_matches_cpu<D: Device, C: Device>(gpu: &D, cpu: &C) -> (r: Vec<Pair>)
    ensures
        r@.len() == attending_cases().len(),
        forall|i: int|
            0 <= i < r@.len() ==> (#[trigger] r@[i]).got@ == attending_cases()[i].on(
                gpu,
                attending_state(i),
            ) && r@[i].want@ == attending_cases()[i].on(cpu, attending_state(i)),
{
    let cases: [Attending; 6] = [
        Attending { n_heads: 4, head_dim: 8, n_kv_heads: 2, n: 3, pos: 5 },
        Attending { n_heads: 16, head_dim: 128, n_kv_heads: 8, n: 2, pos: 300 },
        Attending { n_heads: 2, head_dim: 128, n_kv_heads: 1, n: 1, pos: 0 },
        Attending { n_heads: 24, head_dim: 256, n_kv_heads: 4, n: 3, pos: 1000 },
        Attending { n_heads: 3, head_dim: 24, n_kv_heads: 1, n: 2, pos: 9 },
        Attending { n_heads: 16, head_dim: 128, n_kv_heads: 4, n: 64, pos: 32704 },
    ];
    assert(cases@ =~= attending_cases());
    assert forall|i: int| 0 <= i < 6 implies (#[trigger] cases@[i]).sound() by {
        assert(cases@[0].sound() && cases@[1].sound() && cases@[2].sound());
        assert(cases@[3].sound() && cases@[4].sound() && cases@[5].sound());
    }
    let mut rng = Rng { state: 7 };
    let mut list: Vec<Pair> = Vec::new();
    let mut i: usize = 0;
    while i < 6
        invariant
            i <= 6,
            cases@ == attending_cases(),
            cases@.len() == 6,
            forall|i: int| 0 <= i < 6 ==> (#[trigger] cases@[i]).sound(),
            rng.state == attending_state(i as int),
            list@.len() == i,
            forall|j: int|
                0 <= j < i ==> (#[trigger] list@[j]).got@ == attending_cases()[j].on(
                    gpu,
                    attending_state(j),
                ) && list@[j].want@ == attending_cases()[j].on(cpu, attending_state(j)),
        decreases 6 - i,
    {
        assert(cases@[i as int].sound());
        let pair = cases[i].case(gpu, cpu, &mut rng);
        list.push(pair);
        i = i + 1;
    }
    list
}

/// Values at the edges of half precision: past its range, at its end, between
/// two of its numbers, below its smallest, and minus zero.
pub open spec fn edges() -> Seq<u32> {
    seq![
        0x4974_2400u32,
        0xc974_2400,
        0x477f_e000,
        0x477f_f000,
        0x3f80_1000,
        0x3f80_3000,
        0x3dcc_cccd,
        0x3089_705f,
        0xb4a1_0fb0,
        0x387f_ff58,
        0x8000_0000,
    ]
}

/// Attention over a single position on a device, with a query of zeros.
fn read_through<D: Device>(d: &D, v: &[u32]) -> (out: Vec<u32>)
    requires
        v@.len() == 128,
    ensures
        out@ == d.attended(zeros(128), halved(d, v@), halved(d, v@), 0, 1, 128, 1),
{
    let c = cache(d, v, 0);
    let q = d.alloc_buffer(128);
    let mut out = d.alloc_buffer(128);
    proof {
        assert(halved(d, v@).take(128) =~= halved(d, v@));
        assert((1usize * 128usize) as nat == 128);
        assert(128nat % 128nat == 0 && 128nat / 128nat == 1);
        assert((0usize + 1nat) * (1usize * 128usize) == 128);
    }
    d.attention(&mut out, &q, &c, &c, 0, 1, 128, 1);
    d.read(&out)
}

/// Attention over a single position weighs its value by exactly one, so it
/// reads back what the value cache holds.
pub fn store_rounds_like_cpu<D: Device, C: Device>(gpu: &D, cpu: &C) -> (r: Pair)
    ensures
        ({
            let v = splice(values(9, 128), 0, edges());
            &&& r.got@ == gpu.attended(zeros(128), halved(gpu, v), halved(gpu, v), 0, 1, 128, 1)
            &&& r.want@ == cpu.attended(zeros(128), halved(cpu, v), halved(cpu, v), 0, 1, 128, 1)
        }),
{
    let edge: [u32; 11] = [
        0x4974_2400,
        0xc974_2400,
        0x477f_e000,
        0x477f_f000,
        0x3f80_1000,
        0x3f80_3000,
        0x3dcc_cccd,
        0x3089_705f,
        0xb4a1_0fb0,
        0x387f_ff58,
        0x8000_0000,
    ];
    assert(edge@ =~= edges());
    let mut rng = Rng { state: 9 };
    let drawn = rng.floats(128);
    let mut v: Vec<u32> = copy_range(edge.as_slice(), 0, 11);
    let rest = copy_range(drawn.as_slice(), 11, 128);
    crate::bytes::push_all(&mut v, rest.as_slice());
    assert(v@ =~= splice(values(9, 128), 0, edges()));
    Pair { got: read_through(gpu, v.as_slice()), want: read_through(cpu, v.as_slice()) }
}

/// What a cache holds when it is read, all of it and its start, and all of it
/// when its start has been written.
#[derive(Debug)]
pub struct Caching {
    pub all: Vec<u16>,
    pub start: Vec<u16>,
    pub written: Vec<u16>,
    /// What the reference stored.
    pub want: Vec<u16>,
}

/// Every third number.
pub open spec fn thirds() -> Seq<u16> {
    Seq::new(500, |i: int| (i * 3) as u16)
}

/// Whether two lists are the same.
fn same(a: &[u16], b: &[u16]) -> (r: bool)
    ensures
        r == (a@ == b@),
{
    if a.len() != b.len() {
        return false;
    }
    let mut i: usize = 0;
    while i < a.len()
        invariant
            i <= a@.len() == b@.len(),
            forall|j: int| 0 <= j < i ==> #[trigger] a@[j] == b@[j],
        decreases a@.len() - i,
    {
        if a[i] != b[i] {
            assert(a@[i as int] != b@[i as int]);
            return false;
        }
        i = i + 1;
    }
    assert(a@ =~= b@);
    true
}

impl Caching {
    /// Whether the cache gave back what the reference stored, all of it and
    /// its start, and then what was written over its start.
    pub fn holds(&self) -> (r: bool)
        ensures
            r == {
                &&& self.want@.len() == 1002
                &&& self.all@ == self.want@
                &&& self.start@ == self.want@.take(7)
                &&& self.written@ == splice(self.want@, 0, thirds())
            },
    {
        if self.want.len() != 1002 || self.written.len() != 1002 {
            assert(splice(self.want@, 0, thirds()).len() == self.want@.len());
            return false;
        }
        let start = vstd::slice::slice_subrange(self.want.as_slice(), 0, 7);
        assert(start@ =~= self.want@.take(7));
        if !same(self.all.as_slice(), self.want.as_slice()) || !same(self.start.as_slice(), start) {
            return false;
        }
        let ghost expect = splice(self.want@, 0, thirds());
        let mut i: usize = 0;
        while i < 1002
            invariant
                i <= 1002,
                self.want@.len() == 1002,
                self.written@.len() == 1002,
                expect == splice(self.want@, 0, thirds()),
                forall|j: int| 0 <= j < i ==> #[trigger] self.written@[j] == expect[j],
            decreases 1002 - i,
        {
            let v: u16 = if i < 500 {
                i as u16 * 3
            } else {
                self.want[i]
            };
            assert(v == expect[i as int]);
            if self.written[i] != v {
                assert(self.written@[i as int] != expect[i as int]);
                return false;
            }
            i = i + 1;
        }
        assert(self.written@ =~= expect);
        true
    }
}

/// A cache gives back what was stored in it, and what was written to it.
pub fn cache_round_trips<D: Device, C: Device>(gpu: &D, cpu: &C) -> (r: Caching)
    ensures
        ({
            let data = values(10, 1002);
            &&& r.want@ == halved(cpu, data)
            &&& r.all@ == halved(gpu, data)
            &&& r.start@ == halved(gpu, data).take(7)
            &&& r.written@ == splice(halved(gpu, data), 0, thirds())
        }),
{
    let mut rng = Rng { state: 10 };
    let data = rng.floats(1002);
    let other = cache(cpu, data.as_slice(), 300);
    let want = cpu.read_cache(&other, 1002);
    assert(halved(cpu, data@).take(1002) =~= halved(cpu, data@));
    let mut c = cache(gpu, data.as_slice(), 300);
    let all = gpu.read_cache(&c, 1002);
    assert(halved(gpu, data@).take(1002) =~= halved(gpu, data@));
    let start = gpu.read_cache(&c, 7);
    let mut bits: Vec<u16> = Vec::new();
    let mut i: u16 = 0;
    while i < 500
        invariant
            i <= 500,
            bits@.len() == i,
            forall|j: int| 0 <= j < i ==> #[trigger] bits@[j] == j * 3,
        decreases 500 - i,
    {
        bits.push(i * 3);
        i = i + 1;
    }
    assert(bits@ =~= thirds());
    gpu.write_cache(&mut c, bits.as_slice());
    let written = gpu.read_cache(&c, 1002);
    let ghost after_write = splice(halved(gpu, data@), 0, thirds());
    assert(after_write.take(1002) =~= after_write);
    Caching { all, start, written, want }
}

/// What a convolution gives: queries, keys, values, and the state it leaves.
#[derive(Debug)]
pub struct Convolved {
    pub q: Vec<u32>,
    pub k: Vec<u32>,
    pub v: Vec<u32>,
    pub state: Vec<u32>,
}

impl Convolved {
    /// What it gives, as a whole.
    pub open spec fn all(self) -> (Seq<u32>, Seq<u32>, Seq<u32>, Seq<u32>) {
        (self.q@, self.k@, self.v@, self.state@)
    }
}

/// What the convolution of `n` tokens of numbers drawn from a state gives on a
/// device: sixteen channels of queries, as many of keys, and three times as
/// many of values.
pub open spec fn convolves<D: Device>(d: &D, s: u64, n: nat) -> (
    Seq<u32>,
    Seq<u32>,
    Seq<u32>,
    Seq<u32>,
) {
    let s1 = after(s, n * 80);
    let s2 = after(s1, 240);
    d.convolved(values(s, n * 80), values(s1, 240), values(s2, 320), n * 16, n * 16)
}

/// A convolution on a device.
fn convolve<D: Device>(d: &D, n: usize, x: &[u32], state: &[u32], weight: &[u32]) -> (r: Convolved)
    requires
        0 < n <= 0xffff,
        x@.len() == n * 80,
        state@.len() == 240,
        weight@.len() == 320,
    ensures
        r.all() == d.convolved(x@, state@, weight@, (n * 16) as nat, (n * 16) as nat),
{
    let mut q = d.alloc_buffer(n * 16);
    let mut k = d.alloc_buffer(n * 16);
    let mut v = d.alloc_buffer(n * 48);
    let mut state_out = d.alloc_buffer(240);
    let x = buffer(d, x);
    let state = buffer(d, state);
    let weight = buffer(d, weight);
    proof {
        lemma_multiple(n as int, 80);
        lemma_multiple(16, n as int);
        lemma_multiple(48, n as int);
        assert(320nat / 4 == 80);
    }
    d.conv(&mut q, &mut k, &mut v, &mut state_out, &x, &state, &weight);
    Convolved { q: d.read(&q), k: d.read(&k), v: d.read(&v), state: d.read(&state_out) }
}

/// A convolution on both devices.
fn conv_case<D: Device, C: Device>(gpu: &D, cpu: &C, rng: &mut Rng, n: usize) -> (r: (
    Convolved,
    Convolved,
))
    requires
        0 < n <= 0xffff,
    ensures
        r.0.all() == convolves(gpu, old(rng).state, n as nat),
        r.1.all() == convolves(cpu, old(rng).state, n as nat),
        final(rng).state == after(after(after(old(rng).state, (n * 80) as nat), 240), 320),
{
    let x = rng.floats(n * 80);
    let state = rng.floats(240);
    let weight = rng.floats(320);
    let (a, b, c) = (x.as_slice(), state.as_slice(), weight.as_slice());
    (convolve(gpu, n, a, b, c), convolve(cpu, n, a, b, c))
}

/// The convolution of one token, of two, and of seven: what the device gives,
/// and what the reference gives.
pub fn conv_matches_cpu<D: Device, C: Device>(gpu: &D, cpu: &C) -> (r: Vec<(Convolved, Convolved)>)
    ensures
        ({
            let s1 = after(after(after(11, 80), 240), 320);
            let s2 = after(after(after(s1, 160), 240), 320);
            &&& r@.len() == 3
            &&& r@[0].0.all() == convolves(gpu, 11, 1) && r@[0].1.all() == convolves(cpu, 11, 1)
            &&& r@[1].0.all() == convolves(gpu, s1, 2) && r@[1].1.all() == convolves(cpu, s1, 2)
            &&& r@[2].0.all() == convolves(gpu, s2, 7) && r@[2].1.all() == convolves(cpu, s2, 7)
        }),
{
    let mut rng = Rng { state: 11 };
    let mut list: Vec<(Convolved, Convolved)> = Vec::new();
    let both = conv_case(gpu, cpu, &mut rng, 1);
    list.push(both);
    let both = conv_case(gpu, cpu, &mut rng, 2);
    list.push(both);
    let both = conv_case(gpu, cpu, &mut rng, 7);
    list.push(both);
    list
}

/// What linear attention gives: its output, and the state it leaves.
#[derive(Debug)]
pub struct Recurred {
    pub out: Vec<u32>,
    pub state: Vec<u32>,
}

impl Recurred {
    /// What it gives, as a whole.
    pub open spec fn all(self) -> (Seq<u32>, Seq<u32>) {
        (self.out@, self.state@)
    }
}

/// What linear attention takes, drawn from a state for `n` tokens: two key
/// heads and six value heads.
pub open spec fn recurs<D: Device>(d: &D, s: u64, n: nat) -> (Seq<u32>, Seq<u32>) {
    let s1 = after(s, n * 256);
    let s2 = after(s1, n * 256);
    let s3 = after(s2, n * 768);
    let s4 = after(s3, n * 12);
    let s5 = after(s4, 12);
    d.delta(
        values(s, n * 256),
        values(s1, n * 256),
        values(s2, n * 768),
        values(s3, n * 12),
        decay_drawn(s4, 6),
        values(s5, 98_304),
        2,
        6,
        128,
    )
}

/// The state after what linear attention takes is drawn.
pub open spec fn recurs_after(s: u64, n: nat) -> u64 {
    let s3 = after(after(after(s, n * 256), n * 256), n * 768);
    after(after(after(s3, n * 12), 12), 98_304)
}

/// What linear attention takes.
struct Recurrence {
    q: Vec<u32>,
    k: Vec<u32>,
    v: Vec<u32>,
    gates: Vec<u32>,
    decay: Vec<u32>,
    state: Vec<u32>,
}

/// Linear attention on a device.
fn recur<D: Device>(d: &D, n: usize, i: &Recurrence) -> (r: Recurred)
    requires
        0 < n <= 0xffff,
        i.q@.len() == n * 256,
        i.k@.len() == n * 256,
        i.v@.len() == n * 768,
        i.gates@.len() == n * 12,
        i.decay@.len() == 12,
        i.state@.len() == 98_304,
    ensures
        r.all() == d.delta(i.q@, i.k@, i.v@, i.gates@, i.decay@, i.state@, 2, 6, 128),
{
    let mut out = d.alloc_buffer(n * 768);
    let q = buffer(d, i.q.as_slice());
    let k = buffer(d, i.k.as_slice());
    let v = buffer(d, i.v.as_slice());
    let gates = buffer(d, i.gates.as_slice());
    let decay = buffer(d, i.decay.as_slice());
    let mut state = buffer(d, i.state.as_slice());
    proof {
        lemma_multiple(n as int, 768);
        assert((6usize * 128usize) as nat == 768);
    }
    d.delta_net(&mut out, &q, &k, &v, &gates, &decay, &mut state, 2, 6, 128);
    Recurred { out: d.read(&out), state: d.read(&state) }
}

/// Linear attention on both devices.
fn recur_case<D: Device, C: Device>(gpu: &D, cpu: &C, rng: &mut Rng, n: usize) -> (r: (
    Recurred,
    Recurred,
))
    requires
        0 < n <= 0xffff,
    ensures
        r.0.all() == recurs(gpu, old(rng).state, n as nat),
        r.1.all() == recurs(cpu, old(rng).state, n as nat),
        final(rng).state == recurs_after(old(rng).state, n as nat),
{
    let q = rng.floats(n * 256);
    let k = rng.floats(n * 256);
    let v = rng.floats(n * 768);
    let gates = rng.floats(n * 12);
    let decay = rng.decay(6);
    let state = rng.floats(98_304);
    let i = Recurrence { q, k, v, gates, decay, state };
    (recur(gpu, n, &i), recur(cpu, n, &i))
}

/// Linear attention over one token and over five: what the device gives, and
/// what the reference gives.
pub fn delta_net_matches_cpu<D: Device, C: Device>(gpu: &D, cpu: &C) -> (r: Vec<
    (Recurred, Recurred),
>)
    ensures
        ({
            let s1 = recurs_after(12, 1);
            &&& r@.len() == 2
            &&& r@[0].0.all() == recurs(gpu, 12, 1) && r@[0].1.all() == recurs(cpu, 12, 1)
            &&& r@[1].0.all() == recurs(gpu, s1, 5) && r@[1].1.all() == recurs(cpu, s1, 5)
        }),
{
    let mut rng = Rng { state: 12 };
    let mut list: Vec<(Recurred, Recurred)> = Vec::new();
    let both = recur_case(gpu, cpu, &mut rng, 1);
    list.push(both);
    let both = recur_case(gpu, cpu, &mut rng, 5);
    list.push(both);
    list
}

} // verus!
