//! What the bytes of a file say: each function reads one piece of it at a
//! position, and gives what stands there with the bytes it takes, or what is
//! wrong with it first.
use vstd::prelude::*;
use vstd::utf8::{decode_utf8, valid_utf8};

use super::value::Val;
use crate::bytes::{le, signed};
use crate::text::{begun, whole, wrong};

verus! {

/// What is wrong with a file's head.
#[derive(Clone, Copy, Debug, PartialEq, Eq, Structural)]
pub enum Malformed {
    /// It ends before what it announces.
    Short,
    /// A string is not UTF-8: how many bytes of it are wrong, from which on.
    Utf8(u64, u64),
    /// A string ends within a character, which starts at a byte of it.
    BrokenOff(u64),
    /// A metadata type that is not known.
    Kind(u32),
    /// It does not start as a GGUF file does.
    Magic,
    /// A version that is not supported.
    Version(u32),
    /// A dimension that the machine cannot count to.
    Dimension(u64),
    /// An alignment that tensor data cannot start at a multiple of.
    Alignment(u64),
}

/// What a head says of a tensor.
pub ghost struct Desc {
    pub dims: Seq<usize>,
    pub dtype: u32,
    pub offset: u64,
}

/// What a head says: the keys and the tensors in the order they stand in, and
/// how long it is.
pub ghost struct Head {
    pub meta: Seq<(Seq<char>, Val)>,
    pub tensors: Seq<(Seq<char>, Desc)>,
    pub size: nat,
}

/// Bytes left from a position on.
pub open spec fn left(b: Seq<u8>, at: nat) -> nat {
    if at <= b.len() {
        (b.len() - at) as nat
    } else {
        0
    }
}

/// A number of `k` bytes.
pub open spec fn number_at(b: Seq<u8>, at: nat, k: nat) -> Result<(nat, nat), Malformed> {
    if at + k > b.len() {
        Err(Malformed::Short)
    } else {
        Ok((le(b.subrange(at as int, (at + k) as int)), k))
    }
}

/// What is wrong with bytes that are not text.
pub open spec fn unreadable(text: Seq<u8>) -> Malformed {
    if begun(text.skip(whole(text) as int)) {
        Malformed::BrokenOff(whole(text) as u64)
    } else {
        Malformed::Utf8(wrong(text) as u64, whole(text) as u64)
    }
}

/// A length and as many bytes of text.
pub open spec fn string_at(b: Seq<u8>, at: nat) -> Result<(Seq<char>, nat), Malformed> {
    match number_at(b, at, 8) {
        Err(e) => Err(e),
        Ok((len, _)) => {
            let from = at + 8;
            if from + len > b.len() {
                Err(Malformed::Short)
            } else {
                let text = b.subrange(from as int, (from + len) as int);
                if valid_utf8(text) {
                    Ok((decode_utf8(text), 8 + len))
                } else {
                    Err(unreadable(text))
                }
            }
        },
    }
}

/// A value of a kind.
pub open spec fn value_at(b: Seq<u8>, at: nat, kind: u32) -> Result<(Val, nat), Malformed>
    decreases left(b, at), 0nat,
{
    if kind == 9 {
        match number_at(b, at, 4) {
            Err(e) => Err(e),
            Ok((inner, _)) => match number_at(b, at + 4, 8) {
                Err(e) => Err(e),
                Ok((n, _)) => match values_at(b, at + 12, inner as u32, n) {
                    Err(e) => Err(e),
                    Ok((values, size)) => Ok((Val::Array(values), 12 + size)),
                },
            },
        }
    } else if kind == 8 {
        match string_at(b, at) {
            Err(e) => Err(e),
            Ok((s, size)) => Ok((Val::Str(s), size)),
        }
    } else if kind > 12 {
        Err(Malformed::Kind(kind))
    } else {
        match number_at(b, at, width(kind)) {
            Err(e) => Err(e),
            Ok((n, size)) => Ok((scalar(n, kind), size)),
        }
    }
}

/// `n` values of one kind.
pub open spec fn values_at(b: Seq<u8>, at: nat, kind: u32, n: nat) -> Result<
    (Seq<Val>, nat),
    Malformed,
>
    decreases left(b, at), n,
{
    if n == 0 {
        Ok((Seq::empty(), 0))
    } else {
        match values_at(b, at, kind, (n - 1) as nat) {
            Err(e) => Err(e),
            Ok((values, size)) => match value_at(b, at + size, kind) {
                Err(e) => Err(e),
                Ok((v, more)) => Ok((values.push(v), size + more)),
            },
        }
    }
}

/// Bytes of a value that is neither text nor an array.
pub open spec fn width(kind: u32) -> nat {
    if kind == 0 || kind == 1 || kind == 7 {
        1
    } else if kind == 2 || kind == 3 {
        2
    } else if kind == 4 || kind == 5 || kind == 6 {
        4
    } else {
        8
    }
}

/// The value that a number stands for.
pub open spec fn scalar(n: nat, kind: u32) -> Val {
    if kind == 0 {
        Val::U8(n as u8)
    } else if kind == 1 {
        Val::I8(signed(n, 1) as i8)
    } else if kind == 2 {
        Val::U16(n as u16)
    } else if kind == 3 {
        Val::I16(signed(n, 2) as i16)
    } else if kind == 4 {
        Val::U32(n as u32)
    } else if kind == 5 {
        Val::I32(signed(n, 4) as i32)
    } else if kind == 6 {
        Val::F32(n as u32)
    } else if kind == 7 {
        Val::Bool(n != 0)
    } else if kind == 10 {
        Val::U64(n as u64)
    } else if kind == 11 {
        Val::I64(signed(n, 8) as i64)
    } else {
        Val::F64(n as u64)
    }
}

/// A key and its value.
pub open spec fn meta_at(b: Seq<u8>, at: nat) -> Result<((Seq<char>, Val), nat), Malformed> {
    match string_at(b, at) {
        Err(e) => Err(e),
        Ok((key, size)) => match number_at(b, at + size, 4) {
            Err(e) => Err(e),
            Ok((kind, _)) => match value_at(b, at + size + 4, kind as u32) {
                Err(e) => Err(e),
                Ok((v, more)) => Ok(((key, v), size + 4 + more)),
            },
        },
    }
}

/// `n` keys and their values.
pub open spec fn metas_at(b: Seq<u8>, at: nat, n: nat) -> Result<
    (Seq<(Seq<char>, Val)>, nat),
    Malformed,
>
    decreases n,
{
    if n == 0 {
        Ok((Seq::empty(), 0))
    } else {
        match metas_at(b, at, (n - 1) as nat) {
            Err(e) => Err(e),
            Ok((items, size)) => match meta_at(b, at + size) {
                Err(e) => Err(e),
                Ok((item, more)) => Ok((items.push(item), size + more)),
            },
        }
    }
}

/// `n` dimensions.
pub open spec fn dims_at(b: Seq<u8>, at: nat, n: nat) -> Result<(Seq<usize>, nat), Malformed>
    decreases n,
{
    if n == 0 {
        Ok((Seq::empty(), 0))
    } else {
        match dims_at(b, at, (n - 1) as nat) {
            Err(e) => Err(e),
            Ok((dims, size)) => match number_at(b, at + size, 8) {
                Err(e) => Err(e),
                Ok((d, _)) => if d > usize::MAX {
                    Err(Malformed::Dimension(d as u64))
                } else {
                    Ok((dims.push(d as usize), size + 8))
                },
            },
        }
    }
}

/// A tensor's name and what is said of it.
pub open spec fn tensor_at(b: Seq<u8>, at: nat) -> Result<((Seq<char>, Desc), nat), Malformed> {
    match string_at(b, at) {
        Err(e) => Err(e),
        Ok((name, size)) => match number_at(b, at + size, 4) {
            Err(e) => Err(e),
            Ok((n, _)) => match dims_at(b, at + size + 4, n) {
                Err(e) => Err(e),
                Ok((dims, more)) => {
                    let next = at + size + 4 + more;
                    match number_at(b, next, 4) {
                        Err(e) => Err(e),
                        Ok((dtype, _)) => match number_at(b, next + 4, 8) {
                            Err(e) => Err(e),
                            Ok((offset, _)) => Ok(
                                (
                                    (
                                        name,
                                        Desc { dims, dtype: dtype as u32, offset: offset as u64 },
                                    ),
                                    size + 4 + more + 12,
                                ),
                            ),
                        },
                    }
                },
            },
        },
    }
}

/// `n` tensors.
pub open spec fn tensors_at(b: Seq<u8>, at: nat, n: nat) -> Result<
    (Seq<(Seq<char>, Desc)>, nat),
    Malformed,
>
    decreases n,
{
    if n == 0 {
        Ok((Seq::empty(), 0))
    } else {
        match tensors_at(b, at, (n - 1) as nat) {
            Err(e) => Err(e),
            Ok((items, size)) => match tensor_at(b, at + size) {
                Err(e) => Err(e),
                Ok((item, more)) => Ok((items.push(item), size + more)),
            },
        }
    }
}

/// The four bytes that a file starts with.
pub open spec fn magic() -> Seq<u8> {
    seq![0x47u8, 0x47, 0x55, 0x46]
}

/// A whole head.
pub open spec fn head(b: Seq<u8>) -> Result<Head, Malformed> {
    if b.len() < 4 {
        Err(Malformed::Short)
    } else if b.subrange(0, 4) != magic() {
        Err(Malformed::Magic)
    } else {
        match number_at(b, 4, 4) {
            Err(e) => Err(e),
            Ok((version, _)) => if version != 3 {
                Err(Malformed::Version(version as u32))
            } else {
                match number_at(b, 8, 8) {
                    Err(e) => Err(e),
                    Ok((n_tensors, _)) => match number_at(b, 16, 8) {
                        Err(e) => Err(e),
                        Ok((n_meta, _)) => match metas_at(b, 24, n_meta) {
                            Err(e) => Err(e),
                            Ok((meta, size)) => match tensors_at(b, 24 + size, n_tensors) {
                                Err(e) => Err(e),
                                Ok((tensors, more)) => Ok(
                                    Head { meta, tensors, size: 24 + size + more },
                                ),
                            },
                        },
                    },
                }
            },
        }
    }
}

/// Where several stand under one name, the last is meant.
pub open spec fn table<T>(items: Seq<(Seq<char>, T)>) -> Map<Seq<char>, T>
    decreases items.len(),
{
    if items.len() == 0 {
        Map::empty()
    } else {
        table(items.drop_last()).insert(items.last().0, items.last().1)
    }
}

/// The multiple that tensor data starts at.
pub open spec fn alignment(meta: Map<Seq<char>, Val>) -> nat {
    if meta.contains_key("general.alignment"@) {
        match meta["general.alignment"@].integer() {
            Some(n) => crate::bytes::unsigned(n as int, 8),
            None => 32,
        }
    } else {
        32
    }
}

/// The first multiple of `k` that is not below `n`.
pub open spec fn round_up(n: nat, k: nat) -> nat {
    ((n + k - 1) / k as int * k) as nat
}

/// What fails stays failed however many more are asked for.
pub proof fn lemma_values_err(b: Seq<u8>, at: nat, kind: u32, m: nat, n: nat)
    requires
        m <= n,
        values_at(b, at, kind, m) is Err,
    ensures
        values_at(b, at, kind, n) == values_at(b, at, kind, m),
    decreases n,
{
    if m < n {
        lemma_values_err(b, at, kind, m, (n - 1) as nat);
    }
}

/// What fails stays failed however many more are asked for.
pub proof fn lemma_metas_err(b: Seq<u8>, at: nat, m: nat, n: nat)
    requires
        m <= n,
        metas_at(b, at, m) is Err,
    ensures
        metas_at(b, at, n) == metas_at(b, at, m),
    decreases n,
{
    if m < n {
        lemma_metas_err(b, at, m, (n - 1) as nat);
    }
}

/// What fails stays failed however many more are asked for.
pub proof fn lemma_dims_err(b: Seq<u8>, at: nat, m: nat, n: nat)
    requires
        m <= n,
        dims_at(b, at, m) is Err,
    ensures
        dims_at(b, at, n) == dims_at(b, at, m),
    decreases n,
{
    if m < n {
        lemma_dims_err(b, at, m, (n - 1) as nat);
    }
}

/// What fails stays failed however many more are asked for.
pub proof fn lemma_tensors_err(b: Seq<u8>, at: nat, m: nat, n: nat)
    requires
        m <= n,
        tensors_at(b, at, m) is Err,
    ensures
        tensors_at(b, at, n) == tensors_at(b, at, m),
    decreases n,
{
    if m < n {
        lemma_tensors_err(b, at, m, (n - 1) as nat);
    }
}

} // verus!
