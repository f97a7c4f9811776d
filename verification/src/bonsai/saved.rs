//! The state of a sequence as bytes: a header of the layout's version and the
//! model's dimensions, then each attention layer's keys and values for the
//! positions, then each linear layer's convolution state and recurrent state.
use vstd::prelude::*;

use super::config::{fault_if, first};
use super::pass::Mem;
use crate::bytes::{le, le_bytes, nats16, nats32, pack, words};
use crate::text::digits;

verus! {

/// The first bytes of a saved state.
pub open spec fn state_magic() -> Seq<u8> {
    seq![0x64u8, 0x77, 0x69, 0x6d, 0x73, 0x74, 0x61, 0x74]
}

/// The version of its layout.
pub const STATE_VERSION: u32 = 1;

/// The dimensions that a saved state tells: how many layers are full
/// attention and how many linear, how wide keys are, and how wide the states
/// of a linear layer.
pub ghost struct Extents {
    pub caches: nat,
    pub slots: nat,
    pub kv: nat,
    pub conv: nat,
    pub ssm: nat,
}

/// The header of a saved state of `len` positions.
pub open spec fn header(e: Extents, len: nat) -> Seq<u8> {
    state_magic() + le_bytes(STATE_VERSION as nat, 4) + le_bytes(len, 8) + le_bytes(e.caches, 8)
        + le_bytes(e.slots, 8) + le_bytes(e.kv, 8) + le_bytes(e.conv, 8) + le_bytes(e.ssm, 8)
}

/// The first `width` halves of each of the first `n` caches.
pub open spec fn keys(k: Seq<Seq<u16>>, n: int, width: int) -> Seq<u8>
    decreases n,
{
    if n <= 0 {
        Seq::empty()
    } else {
        keys(k, n - 1, width) + pack(nats16(k[n - 1].take(width)), 2)
    }
}

/// The states of the first `n` linear layers.
pub open spec fn states(conv: Seq<Seq<u32>>, ssm: Seq<Seq<u32>>, n: int) -> Seq<u8>
    decreases n,
{
    if n <= 0 {
        Seq::empty()
    } else {
        states(conv, ssm, n - 1) + pack(nats32(conv[n - 1]), 4) + pack(nats32(ssm[n - 1]), 4)
    }
}

/// What is kept after `len` positions, as bytes.
pub open spec fn image(e: Extents, m: Mem, len: nat) -> Seq<u8> {
    header(e, len) + keys(m.k, e.caches as int, (len * e.kv) as int) + keys(
        m.v,
        e.caches as int,
        (len * e.kv) as int,
    ) + states(m.conv, m.ssm, e.slots as int)
}

/// Where the keys of a cache start, or its values, the caches of values coming
/// after those of keys.
pub open spec fn cache_at(e: Extents, len: nat, j: int) -> int {
    60 + j * (2 * (len * e.kv))
}

/// Where the states of a linear layer start.
pub open spec fn slot_at(e: Extents, len: nat, j: int) -> int {
    60 + e.caches * (2 * (len * e.kv)) + e.caches * (2 * (len * e.kv)) + j * (4 * e.conv + 4
        * e.ssm)
}

/// The number at a place in the header.
pub open spec fn field(b: Seq<u8>, i: int) -> nat {
    le(b.subrange(12 + 8 * i, 20 + 8 * i))
}

/// What is wrong with bytes that should be a saved state of a model with room
/// for `max_len` positions.
pub open spec fn unsaved(b: Seq<u8>, e: Extents, max_len: nat) -> Option<Seq<char>> {
    let short = "the saved state is cut short"@;
    let len = field(b, 0);
    first(
        fault_if(b.len() < 8, short),
        first(
            fault_if(b.take(8) != state_magic(), "not a saved state"@),
            first(
                fault_if(b.len() < 12, short),
                first(
                    fault_if(
                        le(b.subrange(8, 12)) != STATE_VERSION,
                        "a saved state of another version"@,
                    ),
                    first(
                        fault_if(b.len() < 60, short),
                        first(
                            fault_if(
                                !(field(b, 1) == e.caches && field(b, 2) == e.slots && field(b, 3)
                                    == e.kv && field(b, 4) == e.conv && field(b, 5) == e.ssm),
                                "a saved state of another model"@,
                            ),
                            first(
                                fault_if(
                                    len > max_len,
                                    "a saved state of "@ + digits(len)
                                        + " tokens does not fit in the context"@,
                                ),
                                fault_if(b.len() < slot_at(e, len, e.slots as int), short),
                            ),
                        ),
                    ),
                ),
            ),
        ),
    )
}

/// Halves at a place.
pub open spec fn halves_at(b: Seq<u8>, at: int, n: nat) -> Seq<u16> {
    Seq::new(n, |i: int| words(b.subrange(at, at + 2 * n), 2)[i] as u16)
}

/// Activations at a place.
pub open spec fn floats_at(b: Seq<u8>, at: int, n: nat) -> Seq<u32> {
    Seq::new(n, |i: int| words(b.subrange(at, at + 4 * n), 4)[i] as u32)
}

/// What is kept once a saved state has been taken up, where `m` was: of the
/// keys and values those past the saved positions are what they were.
pub open spec fn taken_up(b: Seq<u8>, e: Extents, m: Mem) -> Mem {
    let len = field(b, 0);
    let width = (len * e.kv) as nat;
    Mem {
        k: Seq::new(
            m.k.len(),
            |j: int| crate::device::splice(m.k[j], 0, halves_at(b, cache_at(e, len, j), width)),
        ),
        v: Seq::new(
            m.v.len(),
            |j: int|
                crate::device::splice(
                    m.v[j],
                    0,
                    halves_at(b, cache_at(e, len, e.caches + j), width),
                ),
        ),
        conv: Seq::new(m.conv.len(), |j: int| floats_at(b, slot_at(e, len, j), e.conv)),
        ssm: Seq::new(
            m.ssm.len(),
            |j: int| floats_at(b, slot_at(e, len, j) + 4 * e.conv, e.ssm),
        ),
        draft_qkv: Seq::new(m.draft_qkv.len(), |j: int| Seq::<u32>::empty()),
        draft_ab: Seq::new(m.draft_ab.len(), |j: int| Seq::<u32>::empty()),
    }
}

} // verus!
