//! What holds of a sequence's memory across calls.
use vstd::prelude::*;

use super::saved::{
    cache_at, field, floats_at, halves_at, header, image, keys, slot_at, state_magic, states,
    taken_up, unsaved, Extents, STATE_VERSION,
};
use super::pass::Mem;
use crate::bytes::{
    le, le_bytes, lemma_base, lemma_le_bytes_len, lemma_le_of_bytes, lemma_pack_len,
    lemma_words_of_pack, nats16, nats32, pack,
};

verus! {

/// Whether a memory is of some dimensions, with `len` positions in it.
pub open spec fn of_extents(e: Extents, m: Mem, len: nat) -> bool {
    &&& m.k.len() == e.caches
    &&& m.v.len() == e.caches
    &&& m.conv.len() == e.slots
    &&& m.ssm.len() == e.slots
    &&& forall|j: int| 0 <= j < e.caches ==> (#[trigger] m.k[j]).len() >= len * e.kv
    &&& forall|j: int| 0 <= j < e.caches ==> (#[trigger] m.v[j]).len() >= len * e.kv
    &&& forall|j: int| 0 <= j < e.slots ==> (#[trigger] m.conv[j]).len() == e.conv
    &&& forall|j: int| 0 <= j < e.slots ==> (#[trigger] m.ssm[j]).len() == e.ssm
}

/// Whether the dimensions can be told in a header.
pub open spec fn tellable(e: Extents, len: nat) -> bool {
    &&& e.caches <= u64::MAX
    &&& e.slots <= u64::MAX
    &&& e.kv <= u64::MAX
    &&& e.conv <= u64::MAX
    &&& e.ssm <= u64::MAX
    &&& len <= u64::MAX
}

/// Where a cache's halves are among those of all.
proof fn lemma_key(k: Seq<Seq<u16>>, n: int, width: int, j: int)
    requires
        0 <= j < n <= k.len(),
        0 <= width,
        forall|j: int| 0 <= j < n ==> (#[trigger] k[j]).len() >= width,
    ensures
        0 <= j * (2 * width),
        j * (2 * width) + 2 * width <= n * (2 * width),
        keys(k, n, width).subrange(j * (2 * width), j * (2 * width) + 2 * width) == pack(
            nats16(k[j].take(width)),
            2,
        ),
    decreases n,
{
    let w = 2 * width;
    lemma_keys_len(k, n, width);
    lemma_keys_len(k, n - 1, width);
    let last = pack(nats16(k[n - 1].take(width)), 2);
    assert(k[n - 1].len() >= width);
    lemma_pack_len(nats16(k[n - 1].take(width)), 2);
    let all = keys(k, n, width);
    let rest = keys(k, n - 1, width);
    assert(all == rest + last);
    assert(0 <= j * w && j * w + w <= n * w) by (nonlinear_arith)
        requires
            0 <= j < n,
            w >= 0,
    ;
    if j < n - 1 {
        lemma_key(k, n - 1, width, j);
        assert(all.subrange(j * w, j * w + w) =~= rest.subrange(j * w, j * w + w));
    } else {
        assert((n - 1) * w + w == n * w) by (nonlinear_arith);
        assert(all.subrange(j * w, j * w + w) =~= last);
    }
}

/// How long caches' halves are together.
proof fn lemma_keys_len(k: Seq<Seq<u16>>, n: int, width: int)
    requires
        0 <= n <= k.len(),
        0 <= width,
        forall|j: int| 0 <= j < n ==> (#[trigger] k[j]).len() >= width,
    ensures
        keys(k, n, width).len() == n * (2 * width),
    decreases n,
{
    let w = 2 * width;
    if n > 0 {
        lemma_keys_len(k, n - 1, width);
        assert(k[n - 1].len() >= width);
        lemma_pack_len(nats16(k[n - 1].take(width)), 2);
        assert((n - 1) * w + w == n * w) by (nonlinear_arith);
    } else {
        assert(0 * w == 0) by (nonlinear_arith);
    }
}

/// How long linear layers' states are together.
proof fn lemma_states_len(conv: Seq<Seq<u32>>, ssm: Seq<Seq<u32>>, n: int, a: int, b: int)
    requires
        0 <= n <= conv.len(),
        n <= ssm.len(),
        forall|j: int| 0 <= j < n ==> (#[trigger] conv[j]).len() == a,
        forall|j: int| 0 <= j < n ==> (#[trigger] ssm[j]).len() == b,
    ensures
        states(conv, ssm, n).len() == n * (4 * a + 4 * b),
    decreases n,
{
    let w = 4 * a + 4 * b;
    if n > 0 {
        lemma_states_len(conv, ssm, n - 1, a, b);
        assert(conv[n - 1].len() == a);
        assert(ssm[n - 1].len() == b);
        lemma_pack_len(nats32(conv[n - 1]), 4);
        lemma_pack_len(nats32(ssm[n - 1]), 4);
        assert((n - 1) * w + w == n * w) by (nonlinear_arith);
    } else {
        assert(0 * w == 0) by (nonlinear_arith);
    }
}

/// Where a linear layer's states are among those of all.
proof fn lemma_state(conv: Seq<Seq<u32>>, ssm: Seq<Seq<u32>>, n: int, a: int, b: int, j: int)
    requires
        0 <= j < n <= conv.len(),
        n <= ssm.len(),
        0 <= a,
        0 <= b,
        forall|j: int| 0 <= j < n ==> (#[trigger] conv[j]).len() == a,
        forall|j: int| 0 <= j < n ==> (#[trigger] ssm[j]).len() == b,
    ensures
        ({
            let all = states(conv, ssm, n);
            let at = j * (4 * a + 4 * b);
            &&& 0 <= at
            &&& at + 4 * a + 4 * b <= n * (4 * a + 4 * b)
            &&& all.subrange(at, at + 4 * a) == pack(nats32(conv[j]), 4)
            &&& all.subrange(at + 4 * a, at + 4 * a + 4 * b) == pack(nats32(ssm[j]), 4)
        }),
    decreases n,
{
    let w = 4 * a + 4 * b;
    lemma_states_len(conv, ssm, n, a, b);
    lemma_states_len(conv, ssm, n - 1, a, b);
    assert(conv[n - 1].len() == a);
    assert(ssm[n - 1].len() == b);
    let one = pack(nats32(conv[n - 1]), 4);
    let two = pack(nats32(ssm[n - 1]), 4);
    lemma_pack_len(nats32(conv[n - 1]), 4);
    lemma_pack_len(nats32(ssm[n - 1]), 4);
    let all = states(conv, ssm, n);
    let rest = states(conv, ssm, n - 1);
    assert(all == rest + one + two);
    let at = j * w;
    assert(0 <= j * w && j * w + w <= n * w) by (nonlinear_arith)
        requires
            0 <= j < n,
            w >= 0,
    ;
    if j < n - 1 {
        lemma_state(conv, ssm, n - 1, a, b, j);
        assert(all.subrange(at, at + 4 * a) =~= rest.subrange(at, at + 4 * a));
        assert(all.subrange(at + 4 * a, at + 4 * a + 4 * b) =~= rest.subrange(
            at + 4 * a,
            at + 4 * a + 4 * b,
        ));
    } else {
        assert((n - 1) * w + w == n * w) by (nonlinear_arith);
        assert(all.subrange(at, at + 4 * a) =~= one);
        assert(all.subrange(at + 4 * a, at + 4 * a + 4 * b) =~= two);
    }
}

/// What a header tells.
proof fn lemma_header(e: Extents, len: nat, b: Seq<u8>)
    requires
        tellable(e, len),
        b.len() >= 60,
        b.take(60) == header(e, len),
    ensures
        header(e, len).len() == 60,
        b.take(8) == state_magic(),
        le(b.subrange(8, 12)) == STATE_VERSION,
        field(b, 0) == len,
        field(b, 1) == e.caches,
        field(b, 2) == e.slots,
        field(b, 3) == e.kv,
        field(b, 4) == e.conv,
        field(b, 5) == e.ssm,
{
    lemma_base();
    lemma_le_bytes_len(STATE_VERSION as nat, 4);
    lemma_le_of_bytes(STATE_VERSION as nat, 4);
    lemma_le_bytes_len(len, 8);
    lemma_le_of_bytes(len, 8);
    lemma_le_bytes_len(e.caches, 8);
    lemma_le_of_bytes(e.caches, 8);
    lemma_le_bytes_len(e.slots, 8);
    lemma_le_of_bytes(e.slots, 8);
    lemma_le_bytes_len(e.kv, 8);
    lemma_le_of_bytes(e.kv, 8);
    lemma_le_bytes_len(e.conv, 8);
    lemma_le_of_bytes(e.conv, 8);
    lemma_le_bytes_len(e.ssm, 8);
    lemma_le_of_bytes(e.ssm, 8);
    let h = header(e, len);
    assert forall|i: int| 0 <= i < 60 implies #[trigger] b[i] == h[i] by {
        assert(b.take(60)[i] == h[i]);
    }
    let fields = le_bytes(len, 8) + le_bytes(e.caches, 8) + le_bytes(e.slots, 8) + le_bytes(
        e.kv,
        8,
    ) + le_bytes(e.conv, 8) + le_bytes(e.ssm, 8);
    assert(h =~= state_magic() + le_bytes(STATE_VERSION as nat, 4) + fields);
    assert(fields.subrange(0, 8) =~= le_bytes(len, 8));
    assert(b.take(8) =~= state_magic());
    assert(b.subrange(8, 12) =~= le_bytes(STATE_VERSION as nat, 4));
    assert(b.subrange(12, 20) =~= le_bytes(len, 8));
    assert(b.subrange(20, 28) =~= le_bytes(e.caches, 8));
    assert(b.subrange(28, 36) =~= le_bytes(e.slots, 8));
    assert(b.subrange(36, 44) =~= le_bytes(e.kv, 8));
    assert(b.subrange(44, 52) =~= le_bytes(e.conv, 8));
    assert(b.subrange(52, 60) =~= le_bytes(e.ssm, 8));
}

/// The length of a header.
proof fn lemma_header_len(e: Extents, len: nat)
    ensures
        header(e, len).len() == 60,
{
    lemma_le_bytes_len(STATE_VERSION as nat, 4);
    lemma_le_bytes_len(len, 8);
    lemma_le_bytes_len(e.caches, 8);
    lemma_le_bytes_len(e.slots, 8);
    lemma_le_bytes_len(e.kv, 8);
    lemma_le_bytes_len(e.conv, 8);
    lemma_le_bytes_len(e.ssm, 8);
}

/// Halves that were packed read back.
proof fn lemma_halves_back(b: Seq<u8>, at: int, s: Seq<u16>)
    requires
        0 <= at,
        at + 2 * s.len() <= b.len(),
        b.subrange(at, at + 2 * s.len()) == pack(nats16(s), 2),
    ensures
        halves_at(b, at, s.len()) == s,
{
    lemma_base();
    lemma_words_of_pack(nats16(s), 2);
    assert(halves_at(b, at, s.len()) =~= s);
}

/// Activations that were packed read back.
proof fn lemma_floats_back(b: Seq<u8>, at: int, s: Seq<u32>)
    requires
        0 <= at,
        at + 4 * s.len() <= b.len(),
        b.subrange(at, at + 4 * s.len()) == pack(nats32(s), 4),
    ensures
        floats_at(b, at, s.len()) == s,
{
    lemma_base();
    lemma_words_of_pack(nats32(s), 4);
    assert(floats_at(b, at, s.len()) =~= s);
}

/// A saved state is taken up by every model of the same dimensions with room
/// for its positions: nothing is wrong with it, and it holds the positions
/// that were saved, with their keys and values and the states of the linear
/// layers exactly.
pub proof fn law_saved_state_reads_back(e: Extents, m: Mem, len: nat, other: Mem, max_len: nat)
    requires
        tellable(e, len),
        len <= max_len,
        of_extents(e, m, len),
        of_extents(e, other, len),
    ensures
        unsaved(image(e, m, len), e, max_len) is None,
        field(image(e, m, len), 0) == len,
        ({
            let after = taken_up(image(e, m, len), e, other);
            &&& after.conv == m.conv
            &&& after.ssm == m.ssm
            &&& forall|j: int|
                0 <= j < e.caches ==> (#[trigger] after.k[j]).take((len * e.kv) as int)
                    == m.k[j].take((len * e.kv) as int)
            &&& forall|j: int|
                0 <= j < e.caches ==> (#[trigger] after.v[j]).take((len * e.kv) as int)
                    == m.v[j].take((len * e.kv) as int)
        }),
{
    let b = image(e, m, len);
    let (n, width, slots) = (e.caches as int, (len * e.kv) as int, e.slots as int);
    let w = 2 * width;
    let (h, k, v, s) = (
        header(e, len),
        keys(m.k, n, width),
        keys(m.v, n, width),
        states(m.conv, m.ssm, slots),
    );
    let (p, q) = (e.conv as int, e.ssm as int);
    lemma_header_len(e, len);
    lemma_keys_len(m.k, n, width);
    lemma_keys_len(m.v, n, width);
    lemma_states_len(m.conv, m.ssm, slots, p, q);
    assert(n * w >= 0) by (nonlinear_arith)
        requires
            n >= 0,
            w >= 0,
    ;
    assert(b == h + k + v + s);
    assert(b.take(60) =~= h);
    lemma_header(e, len, b);
    assert(b.len() == slot_at(e, len, slots));
    let after = taken_up(b, e, other);
    assert forall|j: int| 0 <= j < n implies (#[trigger] after.k[j]).take(width) == m.k[j].take(
        width,
    ) by {
        lemma_key(m.k, n, width, j);
        let at = cache_at(e, len, j);
        assert(m.k[j].len() >= width);
        assert(other.k[j].len() >= width);
        assert(b.subrange(at, at + w) =~= k.subrange(j * w, j * w + w));
        lemma_halves_back(b, at, m.k[j].take(width));
        assert(after.k[j].take(width) =~= m.k[j].take(width));
    }
    assert forall|j: int| 0 <= j < n implies (#[trigger] after.v[j]).take(width) == m.v[j].take(
        width,
    ) by {
        lemma_key(m.v, n, width, j);
        let at = cache_at(e, len, n + j);
        assert((n + j) * w == n * w + j * w) by (nonlinear_arith);
        assert(m.v[j].len() >= width);
        assert(other.v[j].len() >= width);
        assert(b.subrange(at, at + w) =~= v.subrange(j * w, j * w + w));
        lemma_halves_back(b, at, m.v[j].take(width));
        assert(after.v[j].take(width) =~= m.v[j].take(width));
    }
    assert forall|j: int| 0 <= j < slots implies #[trigger] after.conv[j] == m.conv[j]
        && after.ssm[j] == m.ssm[j] by {
        lemma_state(m.conv, m.ssm, slots, p, q, j);
        let at = slot_at(e, len, j);
        let from = j * (4 * p + 4 * q);
        assert(m.conv[j].len() == p);
        assert(m.ssm[j].len() == q);
        assert(b.subrange(at, at + 4 * p) =~= s.subrange(from, from + 4 * p));
        assert(b.subrange(at + 4 * p, at + 4 * p + 4 * q) =~= s.subrange(
            from + 4 * p,
            from + 4 * p + 4 * q,
        ));
        lemma_floats_back(b, at, m.conv[j]);
        lemma_floats_back(b, at + 4 * p, m.ssm[j]);
    }
    assert(after.conv =~= m.conv);
    assert forall|j: int| 0 <= j < slots implies #[trigger] after.ssm[j] == m.ssm[j] by {
        assert(after.conv[j] == m.conv[j]);
    }
    assert(after.ssm =~= m.ssm);
}

/// How long a saved state is, and that it starts with its header.
proof fn lemma_image(e: Extents, m: Mem, len: nat)
    requires
        tellable(e, len),
        of_extents(e, m, len),
    ensures
        image(e, m, len).len() == slot_at(e, len, e.slots as int),
        image(e, m, len).len() >= 60,
        image(e, m, len).take(60) == header(e, len),
{
    let b = image(e, m, len);
    let (n, width, slots) = (e.caches as int, (len * e.kv) as int, e.slots as int);
    lemma_header_len(e, len);
    lemma_keys_len(m.k, n, width);
    lemma_keys_len(m.v, n, width);
    lemma_states_len(m.conv, m.ssm, slots, e.conv as int, e.ssm as int);
    assert(b.take(60) =~= header(e, len));
}

/// A saved state is not taken up by a model of other dimensions, nor where
/// there is no room for its positions, nor once any of it is missing at the
/// end.
pub proof fn law_other_states_are_refused(
    e: Extents,
    m: Mem,
    len: nat,
    other: Extents,
    max_len: nat,
    n: int,
)
    requires
        tellable(e, len),
        of_extents(e, m, len),
        0 <= n < image(e, m, len).len(),
    ensures
        other != e ==> unsaved(image(e, m, len), other, max_len) is Some,
        len > max_len ==> unsaved(image(e, m, len), e, max_len) is Some,
        unsaved(image(e, m, len).take(n), e, max_len) is Some,
{
    let b = image(e, m, len);
    lemma_image(e, m, len);
    lemma_header(e, len, b);
    let part = b.take(n);
    if n >= 60 {
        assert(part.take(60) =~= b.take(60));
        lemma_header(e, len, part);
    }
}

/// Bytes that do not start with the word `dwimstat` and a one of four bytes are
/// no saved state.
pub proof fn law_states_are_marked(b: Seq<u8>, e: Extents, max_len: nat)
    requires
        unsaved(b, e, max_len) is None,
    ensures
        b.len() >= 60,
        b[0] == 'd' as u8 && b[1] == 'w' as u8 && b[2] == 'i' as u8 && b[3] == 'm' as u8,
        b[4] == 's' as u8 && b[5] == 't' as u8 && b[6] == 'a' as u8 && b[7] == 't' as u8,
        b[8] == 1 && b[9] == 0 && b[10] == 0 && b[11] == 0,
{
    let s = b.subrange(8, 12);
    reveal_with_fuel(le, 5);
    let x = s.drop_first();
    let y = x.drop_first();
    let z = y.drop_first();
    assert forall|i: int| 0 <= i < 8 implies #[trigger] b[i] == state_magic()[i] by {
        assert(b.take(8)[i] == b[i]);
    }
    assert(s[0] == b[8] && x[0] == b[9] && y[0] == b[10] && z[0] == b[11]);
    assert(z.drop_first().len() == 0);
}

} // verus!
