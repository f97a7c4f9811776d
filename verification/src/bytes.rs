//! Little-endian integers in byte sequences.
use vstd::prelude::*;

verus! {

/// The number a byte sequence stands for, least significant byte first.
pub open spec fn le(s: Seq<u8>) -> nat
    decreases s.len(),
{
    if s.len() == 0 {
        0
    } else {
        s[0] as nat + 256 * le(s.drop_first())
    }
}

/// The `k` bytes of a number, least significant first.
pub open spec fn le_bytes(n: nat, k: nat) -> Seq<u8>
    decreases k,
{
    if k == 0 {
        Seq::empty()
    } else {
        seq![(n % 256) as u8] + le_bytes(n / 256, (k - 1) as nat)
    }
}

/// 256 to the `k`.
pub open spec fn base(k: nat) -> nat
    decreases k,
{
    if k == 0 {
        1
    } else {
        256 * base((k - 1) as nat)
    }
}

/// The values of `base` that machine integers reach.
pub proof fn lemma_base()
    ensures
        base(1) == 0x100,
        base(2) == 0x1_0000,
        base(4) == 0x1_0000_0000,
        base(8) == 0x1_0000_0000_0000_0000,
{
    reveal_with_fuel(base, 9);
}

/// A sequence of `k` bytes stands for a number below 256 to the `k`.
pub proof fn lemma_le_bound(s: Seq<u8>)
    ensures
        le(s) < base(s.len()),
    decreases s.len(),
{
    if s.len() > 0 {
        lemma_le_bound(s.drop_first());
    }
}

/// `le_bytes` has the length asked for.
pub broadcast proof fn lemma_le_bytes_len(n: nat, k: nat)
    ensures
        #[trigger] le_bytes(n, k).len() == k,
    decreases k,
{
    if k > 0 {
        lemma_le_bytes_len(n / 256, (k - 1) as nat);
    }
}

/// Reading the bytes of a number gives the number back.
pub proof fn lemma_le_of_bytes(n: nat, k: nat)
    requires
        n < base(k),
    ensures
        le(le_bytes(n, k)) == n,
    decreases k,
{
    if k > 0 {
        lemma_le_bytes_len(n / 256, (k - 1) as nat);
        lemma_le_of_bytes(n / 256, (k - 1) as nat);
        assert(le_bytes(n, k).drop_first() =~= le_bytes(n / 256, (k - 1) as nat));
    }
}

/// The bytes of the number that bytes stand for are those bytes.
pub proof fn lemma_bytes_of_le(s: Seq<u8>)
    ensures
        le_bytes(le(s), s.len()) == s,
    decreases s.len(),
{
    if s.len() > 0 {
        lemma_bytes_of_le(s.drop_first());
        assert(le(s) % 256 == s[0]);
        assert(le(s) / 256 == le(s.drop_first()));
        assert(le_bytes(le(s), s.len()) =~= s);
    } else {
        assert(le_bytes(le(s), s.len()) =~= s);
    }
}

/// The number that `k` bytes stand for in two's complement.
pub open spec fn signed(n: nat, k: nat) -> int {
    if 2 * n < base(k) {
        n as int
    } else {
        n - base(k)
    }
}

/// The two's complement of a number in `k` bytes.
pub open spec fn unsigned(n: int, k: nat) -> nat {
    if n >= 0 {
        n as nat
    } else {
        (n + base(k)) as nat
    }
}

/// Reads `k` bytes of `data` from `at` as a number.
pub fn read_le(data: &[u8], at: usize, k: usize) -> (n: u64)
    requires
        k <= 8,
        at + k <= data@.len(),
    ensures
        n == le(data@.subrange(at as int, at + k)),
{
    let len: usize = data.len();
    let mut n: u64 = 0;
    let mut i: usize = k;
    proof {
        reveal_with_fuel(base, 9);
        assert(data@.subrange(at + k, at + k) =~= Seq::empty());
    }
    while i > 0
        invariant
            i <= k <= 8,
            at + k <= data@.len() == len,
            n == le(data@.subrange(at + i, at + k)),
        decreases i,
    {
        i = i - 1;
        proof {
            let rest = data@.subrange(at + i, at + k);
            assert(rest.drop_first() =~= data@.subrange(at + i + 1, at + k));
            lemma_le_bound(rest.drop_first());
            reveal_with_fuel(base, 9);
            lemma_le_bound(rest);
        }
        n = n * 256 + data[at + i] as u64;
    }
    n
}

/// Appends the `k` bytes of a number.
pub fn push_le(out: &mut Vec<u8>, value: u64, k: usize)
    ensures
        final(out)@ == old(out)@ + le_bytes(value as nat, k as nat),
{
    let mut n: u64 = value;
    let mut i: usize = 0;
    proof {
        assert(old(out)@ + le_bytes(value as nat, k as nat) =~= out@ + le_bytes(n as nat, k as nat));
    }
    while i < k
        invariant
            i <= k,
            old(out)@ + le_bytes(value as nat, k as nat) == out@ + le_bytes(n as nat, (k - i) as nat),
        decreases k - i,
    {
        let ghost before = out@;
        out.push((n % 256) as u8);
        proof {
            assert(before + le_bytes(n as nat, (k - i) as nat) =~= out@ + le_bytes(
                (n / 256) as nat,
                (k - i - 1) as nat,
            ));
        }
        n = n / 256;
        i = i + 1;
    }
    proof {
        assert(out@ + le_bytes(n as nat, 0) =~= out@);
    }
}

/// Appends a copy of `data`.
pub fn push_all<T: Copy>(out: &mut Vec<T>, data: &[T])
    ensures
        final(out)@ == old(out)@ + data@,
{
    let mut i: usize = 0;
    assert(out@ =~= old(out)@ + data@.take(0));
    while i < data.len()
        invariant
            i <= data@.len(),
            out@ == old(out)@ + data@.take(i as int),
        decreases data@.len() - i,
    {
        out.push(data[i]);
        assert(data@.take(i + 1) =~= data@.take(i as int).push(data@[i as int]));
        assert(out@ =~= old(out)@ + data@.take(i + 1));
        i = i + 1;
    }
    assert(data@.take(data@.len() as int) =~= data@);
}

/// A copy of `data` from `from` up to `to`.
pub fn copy_range<T: Copy>(data: &[T], from: usize, to: usize) -> (out: Vec<T>)
    requires
        from <= to <= data@.len(),
    ensures
        out@ == data@.subrange(from as int, to as int),
{
    let mut out: Vec<T> = Vec::new();
    let mut i: usize = from;
    assert(out@ =~= data@.subrange(from as int, from as int));
    while i < to
        invariant
            from <= i <= to <= data@.len(),
            out@ == data@.subrange(from as int, i as int),
        decreases to - i,
    {
        out.push(data[i]);
        assert(data@.subrange(from as int, i + 1) =~= data@.subrange(from as int, i as int).push(
            data@[i as int],
        ));
        i = i + 1;
    }
    out
}

/// Whether two slices hold the same.
pub fn same(a: &[u8], b: &[u8]) -> (r: bool)
    ensures
        r == (a@ == b@),
{
    if a.len() != b.len() {
        return false;
    }
    let mut i: usize = 0;
    while i < a.len()
        invariant
            i <= a@.len() == b@.len(),
            a@.take(i as int) == b@.take(i as int),
        decreases a@.len() - i,
    {
        if a[i] != b[i] {
            return false;
        }
        assert(a@.take(i + 1) =~= a@.take(i as int).push(a@[i as int]));
        assert(b@.take(i + 1) =~= b@.take(i as int).push(b@[i as int]));
        i = i + 1;
    }
    assert(a@.take(a@.len() as int) =~= a@);
    assert(b@.take(b@.len() as int) =~= b@);
    true
}

/// The numbers that bytes stand for, `k` bytes each.
pub open spec fn words(data: Seq<u8>, k: nat) -> Seq<nat> {
    Seq::new(data.len() / k, |i: int| le(data.subrange(k * i, k * i + k)))
}

/// The numbers that bytes stand for, four bytes each.
pub fn u32s(data: &[u8]) -> (out: Vec<u32>)
    ensures
        out@.len() == words(data@, 4).len(),
        forall|i: int| 0 <= i < out@.len() ==> #[trigger] out@[i] == words(data@, 4)[i],
{
    let len: usize = data.len();
    let n: usize = len / 4;
    let mut out: Vec<u32> = Vec::new();
    let mut i: usize = 0;
    while i < n
        invariant
            i <= n == data@.len() / 4,
            data@.len() == len,
            out@.len() == i,
            forall|j: int| 0 <= j < i ==> #[trigger] out@[j] == words(data@, 4)[j],
        decreases n - i,
    {
        proof {
            lemma_base();
            lemma_le_bound(data@.subrange(4 * i, 4 * i + 4));
        }
        out.push(read_le(data, 4 * i, 4) as u32);
        i = i + 1;
    }
    out
}

/// The numbers that bytes stand for, two bytes each.
pub fn u16s(data: &[u8]) -> (out: Vec<u16>)
    ensures
        out@.len() == words(data@, 2).len(),
        forall|i: int| 0 <= i < out@.len() ==> #[trigger] out@[i] == words(data@, 2)[i],
{
    let len: usize = data.len();
    let n: usize = len / 2;
    let mut out: Vec<u16> = Vec::new();
    let mut i: usize = 0;
    while i < n
        invariant
            i <= n == data@.len() / 2,
            data@.len() == len,
            out@.len() == i,
            forall|j: int| 0 <= j < i ==> #[trigger] out@[j] == words(data@, 2)[j],
        decreases n - i,
    {
        proof {
            lemma_base();
            lemma_le_bound(data@.subrange(2 * i, 2 * i + 2));
        }
        out.push(read_le(data, 2 * i, 2) as u16);
        i = i + 1;
    }
    out
}

/// The bytes of numbers, `k` each.
pub open spec fn pack(s: Seq<nat>, k: nat) -> Seq<u8>
    decreases s.len(),
{
    if s.len() == 0 {
        Seq::empty()
    } else {
        pack(s.drop_last(), k) + le_bytes(s.last(), k)
    }
}

/// Numbers of 16 bits as numbers.
pub open spec fn nats16(s: Seq<u16>) -> Seq<nat> {
    s.map_values(|x: u16| x as nat)
}

/// Numbers of 32 bits as numbers.
pub open spec fn nats32(s: Seq<u32>) -> Seq<nat> {
    s.map_values(|x: u32| x as nat)
}

/// Numbers take `k` bytes each.
pub proof fn lemma_pack_len(s: Seq<nat>, k: nat)
    ensures
        pack(s, k).len() == k * s.len(),
    decreases s.len(),
{
    if s.len() > 0 {
        lemma_pack_len(s.drop_last(), k);
        lemma_le_bytes_len(s.last(), k);
        let n = s.len() as int;
        assert(k * (n - 1) + k == k * n) by (nonlinear_arith);
    } else {
        assert(k * 0 == 0) by (nonlinear_arith);
    }
}

/// Reading the bytes of numbers gives the numbers back.
pub proof fn lemma_words_of_pack(s: Seq<nat>, k: nat)
    requires
        k > 0,
        forall|i: int| 0 <= i < s.len() ==> #[trigger] s[i] < base(k),
    ensures
        words(pack(s, k), k) == s,
    decreases s.len(),
{
    lemma_pack_len(s, k);
    let n = s.len() as int;
    vstd::arithmetic::div_mod::lemma_div_multiples_vanish(n, k as int);
    if n > 0 {
        let t = s.drop_last();
        lemma_pack_len(t, k);
        assert forall|i: int| 0 <= i < t.len() implies #[trigger] t[i] < base(k) by {
            assert(s[i] < base(k));
        }
        lemma_words_of_pack(t, k);
        lemma_le_bytes_len(s.last(), k);
        lemma_le_of_bytes(s.last(), k);
        let b = pack(s, k);
        let a = pack(t, k);
        assert(k * (n - 1) + k == k * n) by (nonlinear_arith);
        assert forall|i: int| 0 <= i < n implies #[trigger] words(b, k)[i] == s[i] by {
            if i == n - 1 {
                assert(b.subrange(k * i, k * i + k) =~= le_bytes(s.last(), k));
            } else {
                assert(k * i + k <= k * (n - 1) && 0 <= k * i) by (nonlinear_arith)
                    requires
                        0 <= i < n - 1,
                        k > 0,
                ;
                assert(b.subrange(k * i, k * i + k) =~= a.subrange(k * i, k * i + k));
                assert(words(a, k)[i] == t[i]);
            }
        }
    }
    assert(words(pack(s, k), k) =~= s);
}

/// Appends the bytes of numbers of 16 bits.
pub fn push_u16s(out: &mut Vec<u8>, data: &[u16])
    ensures
        final(out)@ == old(out)@ + pack(nats16(data@), 2),
{
    let mut i: usize = 0;
    let ghost all = nats16(data@);
    assert(out@ =~= old(out)@ + pack(all.take(0), 2));
    while i < data.len()
        invariant
            i <= data@.len(),
            all == nats16(data@),
            out@ == old(out)@ + pack(all.take(i as int), 2),
        decreases data@.len() - i,
    {
        push_le(out, data[i] as u64, 2);
        assert(all.take(i + 1).drop_last() =~= all.take(i as int));
        assert(out@ =~= old(out)@ + pack(all.take(i + 1), 2));
        i = i + 1;
    }
    assert(all.take(all.len() as int) =~= all);
}

/// Appends the bytes of numbers of 32 bits.
pub fn push_u32s(out: &mut Vec<u8>, data: &[u32])
    ensures
        final(out)@ == old(out)@ + pack(nats32(data@), 4),
{
    let mut i: usize = 0;
    let ghost all = nats32(data@);
    assert(out@ =~= old(out)@ + pack(all.take(0), 4));
    while i < data.len()
        invariant
            i <= data@.len(),
            all == nats32(data@),
            out@ == old(out)@ + pack(all.take(i as int), 4),
        decreases data@.len() - i,
    {
        push_le(out, data[i] as u64, 4);
        assert(all.take(i + 1).drop_last() =~= all.take(i as int));
        assert(out@ =~= old(out)@ + pack(all.take(i + 1), 4));
        i = i + 1;
    }
    assert(all.take(all.len() as int) =~= all);
}

} // verus!
