//! Numbers to check a device with: pseudo-random, and always the same.
//! Floating-point numbers are given as their bits.
use vstd::prelude::*;

verus! {

/// The state after another.
pub open spec fn follows(s: u64) -> u64 {
    s.wrapping_mul(6364136223846793005).wrapping_add(1442695040888963407)
}

/// The state after `n` draws.
pub open spec fn after(s: u64, n: nat) -> u64
    decreases n,
{
    if n == 0 {
        s
    } else {
        follows(after(s, (n - 1) as nat))
    }
}

/// Draws add up.
pub proof fn lemma_after(s: u64, a: nat, b: nat)
    ensures
        after(after(s, a), b) == after(s, a + b),
    decreases b,
{
    if b > 0 {
        lemma_after(s, a, (b - 1) as nat);
    }
}

/// Two to the `n`.
pub open spec fn two_to(n: nat) -> nat
    decreases n,
{
    if n == 0 {
        1
    } else {
        2 * two_to((n - 1) as nat)
    }
}

/// A number times two to the `e`, with the number doubled until it has 24
/// bits.
pub open spec fn scaled(a: nat, e: int) -> (nat, int)
    decreases 0x100_0000 - a,
{
    if a >= 0x80_0000 || a == 0 {
        (a, e)
    } else {
        scaled(2 * a, e - 1)
    }
}

/// The bits of `a` times two to the `e` in single precision, where it is one
/// of its normal numbers.
pub open spec fn bits_of(negative: bool, a: nat, e: int) -> int {
    let sign = if negative {
        0x8000_0000int
    } else {
        0int
    };
    if a == 0 {
        sign
    } else {
        let (m, x) = scaled(a, e);
        sign + (x + 150) * 0x80_0000 + (m - 0x80_0000)
    }
}

/// The bits of `a` times two to the `e`.
fn to_bits(negative: bool, a: u32, e: i32) -> (b: u32)
    requires
        a <= 0x100_0000,
        -49 <= e <= 23,
    ensures
        b == bits_of(negative, a as nat, e as int),
        negative <==> b >= 0x8000_0000,
        a == 0 ==> b == if negative {
            0x8000_0000u32
        } else {
            0
        },
{
    let sign: u32 = if negative {
        0x8000_0000
    } else {
        0
    };
    if a == 0 {
        return sign;
    }
    let mut m: u32 = a;
    let mut x: i32 = e;
    let mut j: u32 = 0;
    proof {
        reveal_with_fuel(two_to, 25);
    }
    while m < 0x80_0000
        invariant
            0 < m <= 0x100_0000,
            j <= 23,
            x == e - j,
            m >= two_to(j as nat),
            two_to(23) == 0x80_0000,
            scaled(a as nat, e as int) == scaled(m as nat, x as int),
            a > 0,
            -49 <= e <= 23,
        decreases 0x100_0000 - m,
    {
        assert(two_to((j + 1) as nat) == 2 * two_to(j as nat));
        assert(j < 23);
        m = 2 * m;
        x = x - 1;
        j = j + 1;
    }
    let up: u32 = (x + 150) as u32;
    sign + up * 0x80_0000 + (m - 0x80_0000)
}

/// What is drawn in a state: a number of 24 bits, less half of what there are.
pub open spec fn draw(s: u64) -> int {
    s as int / 0x100_0000_0000 - 0x80_0000
}

/// How large a number is.
pub open spec fn size(k: int) -> nat {
    (if k < 0 {
        -k
    } else {
        k
    }) as nat
}

/// The bits of a drawn number, as one from minus one up to one.
pub open spec fn unit_bits(k: int) -> int {
    bits_of(k < 0, size(k), -23)
}

/// The bits of what is drawn in a state.
pub open spec fn value(s: u64) -> u32 {
    unit_bits(draw(s)) as u32
}

/// The bits of `n` numbers drawn one after the other.
pub open spec fn values(s: u64, n: nat) -> Seq<u32> {
    Seq::new(n, |i: int| value(after(s, (i + 1) as nat)))
}

/// A power of two by which a number is a number of 24 bits and a rest.
pub open spec fn rest_bits(n: nat) -> nat
    decreases n,
{
    if n < 0x100_0000 {
        0
    } else {
        1 + rest_bits(n / 2)
    }
}

/// The first 24 bits of a number, rounded to the nearest, and to an even
/// number where two are as near.
pub open spec fn nearest(n: nat) -> nat {
    let u = two_to(rest_bits(n));
    let (q, r) = (n / u, n % u);
    if 2 * r > u || (2 * r == u && q % 2 == 1) {
        q + 1
    } else {
        q
    }
}

/// Halving over and over is dividing by a power of two.
proof fn lemma_halves(n: nat, j: nat)
    ensures
        two_to(j) > 0,
        n / two_to(j) / 2 == n / two_to(j + 1),
    decreases j,
{
    if j > 0 {
        lemma_halves(n, (j - 1) as nat);
    }
    let u = two_to(j);
    assert(two_to(j + 1) == 2 * u);
    vstd::arithmetic::div_mod::lemma_div_denominator(n as int, u as int, 2);
    assert(u * 2 == 2 * u);
}

/// The first 24 bits of a number, rounded, and by which power of two they are
/// to be taken.
fn round(n: u64) -> (r: (u32, u32))
    requires
        n < 0x4_0000_0000_0000,
    ensures
        r.0 == nearest(n as nat),
        r.1 == rest_bits(n as nat) <= 26,
        r.0 <= 0x100_0000,
{
    let mut t: u64 = n;
    let mut u: u64 = 1;
    let mut j: u32 = 0;
    proof {
        reveal_with_fuel(two_to, 28);
    }
    while t >= 0x100_0000
        invariant
            n < 0x4_0000_0000_0000,
            j <= 26,
            u == two_to(j as nat),
            0 < u <= 0x400_0000,
            two_to(26) == 0x400_0000,
            t == n as nat / two_to(j as nat),
            rest_bits(n as nat) == j + rest_bits(t as nat),
        decreases t,
    {
        proof {
            lemma_halves(n as nat, j as nat);
            lemma_small(n as nat, j as nat);
            reveal_with_fuel(two_to, 28);
            assert(two_to((j + 1) as nat) == 2 * two_to(j as nat));
            lemma_grows((j + 1) as nat, 26);
        }
        t = t / 2;
        u = 2 * u;
        j = j + 1;
    }
    let r: u64 = n % u;
    let up = 2 * r > u || (2 * r == u && t % 2 == 1);
    if up {
        ((t + 1) as u32, j)
    } else {
        (t as u32, j)
    }
}

/// A number of fifty bits has not so many left over.
proof fn lemma_small(n: nat, j: nat)
    requires
        n < 0x4_0000_0000_0000,
        n / two_to(j) >= 0x100_0000,
        j <= 26,
    ensures
        j < 26,
{
    reveal_with_fuel(two_to, 28);
    if j == 26 {
        assert(two_to(26) == 0x400_0000);
        assert(n / 0x400_0000 < 0x100_0000);
    }
}

/// Powers of two grow.
proof fn lemma_grows(a: nat, b: nat)
    requires
        a <= b,
    ensures
        two_to(a) <= two_to(b),
    decreases b,
{
    if a < b {
        lemma_grows(a, (b - 1) as nat);
    }
}

/// The bits of a drawn number put around one: a fifth of it in single
/// precision, added to one.
pub open spec fn around_one(k: int) -> int {
    let fifth = 13421773 * size(k);
    let part = (nearest(fifth) * two_to(rest_bits(fifth))) as int;
    let sum = (if k < 0 {
        0x2_0000_0000_0000 - part
    } else {
        0x2_0000_0000_0000 + part
    }) as nat;
    bits_of(false, nearest(sum), rest_bits(sum) - 49)
}

/// Pseudo-random numbers, always the same from the same state.
#[derive(Debug)]
pub struct Rng {
    pub state: u64,
}

impl Rng {
    /// Draws a number of 24 bits, less half of what there are.
    fn pick(&mut self) -> (k: i32)
        ensures
            final(self).state == follows(old(self).state),
            k == draw(final(self).state),
            -0x80_0000 <= k < 0x80_0000,
    {
        self.state = self.state.wrapping_mul(6364136223846793005).wrapping_add(
            1442695040888963407,
        );
        let s: u64 = self.state;
        assert(s >> 40 == s / 0x100_0000_0000) by (bit_vector);
        (s >> 40) as i32 - 0x80_0000
    }

    /// Draws a number from minus one up to one.
    pub fn next(&mut self) -> (b: u32)
        ensures
            final(self).state == follows(old(self).state),
            b == value(final(self).state),
            b == unit_bits(draw(final(self).state)),
            draw(final(self).state) < 0 <==> b >= 0x8000_0000,
    {
        let k: i32 = self.pick();
        if k < 0 {
            to_bits(true, (-k) as u32, -23)
        } else {
            to_bits(false, k as u32, -23)
        }
    }

    /// Draws `n` numbers from minus one up to one.
    pub fn floats(&mut self, n: usize) -> (v: Vec<u32>)
        ensures
            v@ == values(old(self).state, n as nat),
            final(self).state == after(old(self).state, n as nat),
    {
        let mut v: Vec<u32> = Vec::new();
        let mut i: usize = 0;
        while i < n
            invariant
                i <= n,
                v@ == values(old(self).state, i as nat),
                self.state == after(old(self).state, i as nat),
            decreases n - i,
        {
            let b: u32 = self.next();
            v.push(b);
            i = i + 1;
            assert(v@ =~= values(old(self).state, i as nat));
        }
        v
    }

    /// Draws `n` numbers in bf16: the high half of each one's bits.
    pub fn bf16(&mut self, n: usize) -> (v: Vec<u16>)
        ensures
            v@ == high_halves(old(self).state, n as nat),
            final(self).state == after(old(self).state, n as nat),
    {
        let mut v: Vec<u16> = Vec::new();
        let mut i: usize = 0;
        while i < n
            invariant
                i <= n,
                v@ == high_halves(old(self).state, i as nat),
                self.state == after(old(self).state, i as nat),
            decreases n - i,
        {
            let b: u32 = self.next();
            v.push((b / 0x1_0000) as u16);
            i = i + 1;
            assert(v@ =~= high_halves(old(self).state, i as nat));
        }
        v
    }

    /// Draws `n` signs: minus one where a number below zero is drawn, and one
    /// otherwise.
    pub fn signs(&mut self, n: usize) -> (v: Vec<u32>)
        ensures
            v@ == signs_drawn(old(self).state, n as nat),
            final(self).state == after(old(self).state, n as nat),
    {
        let mut v: Vec<u32> = Vec::new();
        let mut i: usize = 0;
        while i < n
            invariant
                i <= n,
                v@ == signs_drawn(old(self).state, i as nat),
                self.state == after(old(self).state, i as nat),
            decreases n - i,
        {
            let k: i32 = self.pick();
            v.push(
                if k < 0 {
                    0xbf80_0000
                } else {
                    0x3f80_0000
                },
            );
            i = i + 1;
            assert(v@ =~= signs_drawn(old(self).state, i as nat));
        }
        v
    }

    /// Draws `n` numbers around one.
    pub fn weights(&mut self, n: usize) -> (v: Vec<u32>)
        ensures
            v@ == weights_drawn(old(self).state, n as nat),
            final(self).state == after(old(self).state, n as nat),
    {
        let mut v: Vec<u32> = Vec::new();
        let mut i: usize = 0;
        while i < n
            invariant
                i <= n,
                v@ == weights_drawn(old(self).state, i as nat),
                self.state == after(old(self).state, i as nat),
            decreases n - i,
        {
            let k: i32 = self.pick();
            v.push(near_one(k));
            i = i + 1;
            assert(v@ =~= weights_drawn(old(self).state, i as nat));
        }
        v
    }

    /// Draws what decays for each of `heads` heads: a number not above zero
    /// for each, then one from minus four up to four for each.
    pub fn decay(&mut self, heads: usize) -> (v: Vec<u32>)
        requires
            2 * heads <= usize::MAX,
        ensures
            v@ == decay_drawn(old(self).state, heads as nat),
            final(self).state == after(old(self).state, (2 * heads) as nat),
    {
        let mut v: Vec<u32> = Vec::new();
        let mut i: usize = 0;
        while i < 2 * heads
            invariant
                i <= 2 * heads <= usize::MAX,
                v@ == decay_drawn(old(self).state, heads as nat).take(i as int),
                self.state == after(old(self).state, i as nat),
            decreases 2 * heads - i,
        {
            let k: i32 = self.pick();
            let a: u32 = if k < 0 {
                (-k) as u32
            } else {
                k as u32
            };
            v.push(
                if i < heads {
                    to_bits(true, a, -23)
                } else {
                    to_bits(k < 0, a, -21)
                },
            );
            i = i + 1;
            assert(v@ =~= decay_drawn(old(self).state, heads as nat).take(i as int));
        }
        assert(v@ =~= decay_drawn(old(self).state, heads as nat));
        v
    }
}

/// `n` numbers in bf16 drawn one after the other.
pub open spec fn high_halves(s: u64, n: nat) -> Seq<u16> {
    Seq::new(n, |i: int| (value(after(s, (i + 1) as nat)) / 0x1_0000) as u16)
}

/// `n` signs drawn one after the other.
pub open spec fn signs_drawn(s: u64, n: nat) -> Seq<u32> {
    Seq::new(
        n,
        |i: int|
            if draw(after(s, (i + 1) as nat)) < 0 {
                0xbf80_0000u32
            } else {
                0x3f80_0000u32
            },
    )
}

/// `n` numbers around one drawn one after the other.
pub open spec fn weights_drawn(s: u64, n: nat) -> Seq<u32> {
    Seq::new(n, |i: int| around_one(draw(after(s, (i + 1) as nat))) as u32)
}

/// What decays for each of `heads` heads, drawn one after the other.
pub open spec fn decay_drawn(s: u64, heads: nat) -> Seq<u32> {
    Seq::new(
        2 * heads,
        |i: int|
            {
                let k = draw(after(s, (i + 1) as nat));
                (if i < heads {
                    bits_of(true, size(k), -23)
                } else {
                    bits_of(k < 0, size(k), -21)
                }) as u32
            },
    )
}

/// Rounding moves a number by no more than a bit of what is left over.
proof fn lemma_nearest(n: nat)
    requires
        n < 0x8000_0000_0000,
    ensures
        nearest(n) * two_to(rest_bits(n)) < 0x9000_0000_0000,
        rest_bits(n) <= 23,
{
    assert(two_to(23) == 0x80_0000) by {
        reveal_with_fuel(two_to, 25);
    }
    lemma_rest_bits(n, 23);
    let u = two_to(rest_bits(n));
    lemma_grows(rest_bits(n), 23);
    lemma_halves(n, rest_bits(n));
    let q = n / u;
    let near = nearest(n);
    vstd::arithmetic::div_mod::lemma_fundamental_div_mod(n as int, u as int);
    vstd::arithmetic::div_mod::lemma_mod_bound(n as int, u as int);
    assert(near * u <= q * u + u) by (nonlinear_arith)
        requires
            near <= q + 1,
            u > 0,
    ;
    assert(q * u == u * q) by (nonlinear_arith);
}

/// A number of up to 24 bits more has no more bits left over.
proof fn lemma_rest_bits(n: nat, j: nat)
    requires
        n < 0x100_0000 * two_to(j),
    ensures
        rest_bits(n) <= j,
    decreases j,
{
    if n >= 0x100_0000 {
        if j == 0 {
            assert(two_to(0) == 1);
        } else {
            assert(two_to(j) == 2 * two_to((j - 1) as nat));
            lemma_rest_bits(n / 2, (j - 1) as nat);
        }
    }
}

/// The bits of a drawn number put around one.
fn near_one(k: i32) -> (b: u32)
    requires
        -0x80_0000 <= k < 0x80_0000,
    ensures
        b == around_one(k as int),
{
    let a: u64 = if k < 0 {
        (-k) as u64
    } else {
        k as u64
    };
    let fifth: u64 = 13421773 * a;
    let (q, j): (u32, u32) = round(fifth);
    proof {
        lemma_nearest(fifth as nat);
    }
    let mut u: u64 = 1;
    let mut i: u32 = 0;
    proof {
        reveal_with_fuel(two_to, 28);
    }
    while i < j
        invariant
            i <= j <= 26,
            u == two_to(i as nat),
            two_to(26) == 0x400_0000,
        decreases j - i,
    {
        proof {
            assert(two_to((i + 1) as nat) == 2 * two_to(i as nat));
            lemma_grows(i as nat, 26);
        }
        u = 2 * u;
        i = i + 1;
    }
    let part: u64 = q as u64 * u;
    let sum: u64 = if k < 0 {
        0x2_0000_0000_0000 - part
    } else {
        0x2_0000_0000_0000 + part
    };
    let (m, x): (u32, u32) = round(sum);
    to_bits(false, m, x as i32 - 49)
}

} // verus!
