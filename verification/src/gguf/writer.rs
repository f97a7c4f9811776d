//! Writing a file, and that reading it gives back what was written.
use vstd::prelude::*;
use vstd::utf8::{encode_utf8, encode_utf8_decode_utf8, encode_utf8_valid_utf8};

pub use super::sizes::writable;

use super::file::parsed;
use super::layout::{
    alignment, dims_at, head, magic, metas_at, number_at, round_up, string_at, table, tensor_at,
    tensors_at, value_at, values_at, width, Desc, Head, Malformed,
};
use super::value::{lemma_vals, vals, Val, Value};
use crate::bytes::{
    base, le_bytes, lemma_base, lemma_le_bytes_len, lemma_le_of_bytes, push_all, push_le, unsigned,
};

verus! {

/// The multiple that the data of every tensor starts at.
pub const ALIGNMENT: usize = 32;

/// A tensor to write.
pub ghost struct Piece {
    pub name: Seq<char>,
    pub dims: Seq<usize>,
    pub dtype: u32,
    pub data: Seq<u8>,
}

/// A length and as many bytes of text.
pub open spec fn encode_string(s: Seq<char>) -> Seq<u8> {
    le_bytes(encode_utf8(s).len(), 8) + encode_utf8(s)
}

/// The number that stands for a value which is neither text nor an array.
pub open spec fn number_of(v: Val) -> nat {
    match v {
        Val::U8(n) => n as nat,
        Val::I8(n) => unsigned(n as int, 1),
        Val::U16(n) => n as nat,
        Val::I16(n) => unsigned(n as int, 2),
        Val::U32(n) => n as nat,
        Val::I32(n) => unsigned(n as int, 4),
        Val::F32(n) => n as nat,
        Val::Bool(n) => if n {
            1
        } else {
            0
        },
        Val::U64(n) => n as nat,
        Val::I64(n) => unsigned(n as int, 8),
        Val::F64(n) => n as nat,
        _ => 0,
    }
}

/// The bytes of a value.
pub open spec fn encode(v: Val) -> Seq<u8>
    decreases v,
{
    match v {
        Val::Str(s) => encode_string(s),
        Val::Array(values) => le_bytes(values[0].kind() as nat, 4) + le_bytes(values.len(), 8)
            + encodes(values),
        _ => le_bytes(number_of(v), width(v.kind())),
    }
}

/// The bytes of values in a row.
pub open spec fn encodes(values: Seq<Val>) -> Seq<u8>
    decreases values,
{
    if values.len() == 0 {
        Seq::empty()
    } else {
        encodes(values.drop_last()) + encode(values.last())
    }
}

/// The bytes of a key and its value.
pub open spec fn encode_meta(item: (Seq<char>, Val)) -> Seq<u8> {
    encode_string(item.0) + le_bytes(item.1.kind() as nat, 4) + encode(item.1)
}

/// The bytes of keys and their values.
pub open spec fn encode_metas(items: Seq<(Seq<char>, Val)>) -> Seq<u8>
    decreases items.len(),
{
    if items.len() == 0 {
        Seq::empty()
    } else {
        encode_metas(items.drop_last()) + encode_meta(items.last())
    }
}

/// The bytes of dimensions.
pub open spec fn encode_dims(dims: Seq<usize>) -> Seq<u8>
    decreases dims.len(),
{
    if dims.len() == 0 {
        Seq::empty()
    } else {
        encode_dims(dims.drop_last()) + le_bytes(dims.last() as nat, 8)
    }
}

/// Where the data behind that of `pieces` starts.
pub open spec fn offset(pieces: Seq<Piece>) -> nat
    decreases pieces.len(),
{
    if pieces.len() == 0 {
        0
    } else {
        offset(pieces.drop_last()) + round_up(pieces.last().data.len(), 32)
    }
}

/// The bytes of what is said of a tensor whose data starts at an offset.
pub open spec fn encode_desc(piece: Piece, at: nat) -> Seq<u8> {
    encode_string(piece.name) + le_bytes(piece.dims.len(), 4) + encode_dims(piece.dims) + le_bytes(
        piece.dtype as nat,
        4,
    ) + le_bytes(at, 8)
}

/// The bytes of what is said of tensors.
pub open spec fn encode_descs(pieces: Seq<Piece>) -> Seq<u8>
    decreases pieces.len(),
{
    if pieces.len() == 0 {
        Seq::empty()
    } else {
        encode_descs(pieces.drop_last()) + encode_desc(
            pieces.last(),
            offset(pieces.drop_last()),
        )
    }
}

/// The bytes up to the alignment, the rest of them zero.
pub open spec fn padded(b: Seq<u8>) -> Seq<u8> {
    b + Seq::new((round_up(b.len(), 32) - b.len()) as nat, |i: int| 0u8)
}

/// The data of tensors.
pub open spec fn bodies(pieces: Seq<Piece>) -> Seq<u8>
    decreases pieces.len(),
{
    if pieces.len() == 0 {
        Seq::empty()
    } else {
        bodies(pieces.drop_last()) + padded(pieces.last().data)
    }
}

/// The bytes of a head.
pub open spec fn encode_head(meta: Seq<(Seq<char>, Val)>, pieces: Seq<Piece>) -> Seq<u8> {
    magic() + le_bytes(3, 4) + le_bytes(pieces.len(), 8) + le_bytes(meta.len(), 8)
        + encode_metas(meta) + encode_descs(pieces)
}

/// The bytes of a file.
pub open spec fn image(meta: Seq<(Seq<char>, Val)>, pieces: Seq<Piece>) -> Seq<u8> {
    padded(encode_head(meta, pieces)) + bodies(pieces)
}

/// Whether no array in a value is empty: the kind of its first element is
/// written for all of them.
pub open spec fn filled(v: Val) -> bool
    decreases v,
{
    match v {
        Val::Array(values) => values.len() > 0 && all_filled(values),
        _ => true,
    }
}

/// Whether no array in values is empty.
pub open spec fn all_filled(values: Seq<Val>) -> bool
    decreases values,
{
    values.len() == 0 || (all_filled(values.drop_last()) && filled(values.last()))
}

/// Rounding up reaches a multiple, and goes no further than the next.
pub proof fn lemma_round_up(n: nat)
    ensures
        n <= round_up(n, 32) < n + 32,
        round_up(n, 32) % 32 == 0,
        n % 32 == 0 ==> round_up(n, 32) == n,
{
}

/// Appends a length and as many bytes of text.
fn put_string(out: &mut Vec<u8>, s: &str)
    ensures
        final(out)@ == old(out)@ + encode_string(s@),
{
    let text = s.as_bytes();
    push_le(out, text.len() as u64, 8);
    push_all(out, text);
    assert(out@ =~= old(out)@ + encode_string(s@));
}

/// The number by which a file names the kind of a value.
fn kind(v: &Value) -> (n: u32)
    ensures
        n == v.val().kind(),
{
    match v {
        Value::U8(_) => 0,
        Value::I8(_) => 1,
        Value::U16(_) => 2,
        Value::I16(_) => 3,
        Value::U32(_) => 4,
        Value::I32(_) => 5,
        Value::F32(_) => 6,
        Value::Bool(_) => 7,
        Value::Str(_) => 8,
        Value::Array(_) => 9,
        Value::U64(_) => 10,
        Value::I64(_) => 11,
        Value::F64(_) => 12,
    }
}

/// Appends a value.
fn put_value(out: &mut Vec<u8>, v: &Value)
    requires
        filled(v.val()),
    ensures
        final(out)@ == old(out)@ + encode(v.val()),
    decreases v,
{
    proof {
        lemma_base();
    }
    match v {
        Value::U8(n) => push_le(out, *n as u64, 1),
        Value::I8(n) => {
            let m: i8 = *n;
            assert(m >= 0 ==> m as u8 == m) by (bit_vector);
            assert(m < 0 ==> m as u8 == m + 0x100) by (bit_vector);
            push_le(out, m as u8 as u64, 1)
        },
        Value::U16(n) => push_le(out, *n as u64, 2),
        Value::I16(n) => {
            let m: i16 = *n;
            assert(m >= 0 ==> m as u16 == m) by (bit_vector);
            assert(m < 0 ==> m as u16 == m + 0x1_0000) by (bit_vector);
            push_le(out, m as u16 as u64, 2)
        },
        Value::U32(n) => push_le(out, *n as u64, 4),
        Value::I32(n) => {
            let m: i32 = *n;
            assert(m >= 0 ==> m as u32 == m) by (bit_vector);
            assert(m < 0 ==> m as u32 == m + 0x1_0000_0000) by (bit_vector);
            push_le(out, m as u32 as u64, 4)
        },
        Value::F32(n) => push_le(out, *n as u64, 4),
        Value::Bool(n) => push_le(out, if *n {
            1
        } else {
            0
        }, 1),
        Value::Str(s) => put_string(out, s),
        Value::Array(values) => {
            proof {
                lemma_vals(values@);
            }
            push_le(out, kind(&values[0]) as u64, 4);
            push_le(out, values.len() as u64, 8);
            let ghost start = out@;
            let mut i: usize = 0;
            assert(values@.take(0) =~= Seq::empty());
            assert(start + encodes(vals(values@.take(0))) =~= out@);
            while i < values.len()
                invariant
                    i <= values@.len(),
                    *v == Value::Array(*values),
                    all_filled(vals(values@)),
                    out@ == start + encodes(vals(values@.take(i as int))),
                decreases values@.len() - i,
            {
                proof {
                    assert(decreases_to!(*v => v->Array_0));
                    assert(decreases_to!(values => values@));
                    assert(decreases_to!(values@ => values@[i as int]));
                    lemma_vals(values@);
                    lemma_all_filled(vals(values@), i as int);
                    let now = values@.take(i + 1);
                    assert(now.drop_last() =~= values@.take(i as int));
                    let before = vals(values@.take(i as int));
                    assert(vals(now) == before.push(values@[i as int].val()));
                    assert(vals(now).drop_last() =~= before);
                }
                put_value(out, &values[i]);
                i = i + 1;
                assert(out@ =~= start + encodes(vals(values@.take(i as int))));
            }
            assert(values@.take(values@.len() as int) =~= values@);
            assert(out@ =~= old(out)@ + encode(v.val()));
        },
        Value::U64(n) => push_le(out, *n, 8),
        Value::I64(n) => {
            let m: i64 = *n;
            assert(m >= 0 ==> m as u64 == m) by (bit_vector);
            assert(m < 0 ==> m as u64 == m + 0x1_0000_0000_0000_0000) by (bit_vector);
            push_le(out, m as u64, 8)
        },
        Value::F64(n) => push_le(out, *n, 8),
    }
}

/// Each of values that are all filled is.
pub proof fn lemma_all_filled(values: Seq<Val>, i: int)
    requires
        all_filled(values),
        0 <= i < values.len(),
    ensures
        filled(values[i]),
    decreases values.len(),
{
    if i < values.len() - 1 {
        lemma_all_filled(values.drop_last(), i);
    }
}

/// Appends zeros up to the alignment.
fn pad(out: &mut Vec<u8>)
    requires
        round_up(old(out)@.len(), 32) <= usize::MAX,
    ensures
        final(out)@ == padded(old(out)@),
{
    proof {
        lemma_round_up(old(out)@.len());
    }
    let ghost start = out@;
    assert(start + Seq::new(0, |i: int| 0u8) =~= start);
    let ghost mut n: nat = 0;
    while out.len() % ALIGNMENT != 0
        invariant
            out@ == start + Seq::new(n, |i: int| 0u8),
            start.len() + n == out@.len() <= round_up(start.len(), 32) <= usize::MAX,
            round_up(start.len(), 32) % 32 == 0,
            start.len() <= round_up(start.len(), 32) < start.len() + 32,
        decreases round_up(start.len(), 32) - out@.len(),
    {
        out.push(0);
        proof {
            n = n + 1;
            assert(out@ =~= start + Seq::new(n, |i: int| 0u8));
        }
    }
    assert(out@.len() == round_up(start.len(), 32));
}

/// The keys and values to write.
pub open spec fn meta_of(meta: Seq<(&str, Value)>) -> Seq<(Seq<char>, Val)> {
    meta.map_values(|m: (&str, Value)| (m.0@, m.1.val()))
}

/// The tensors to write.
pub open spec fn pieces_of(tensors: Seq<(String, Vec<usize>, u32, Vec<u8>)>) -> Seq<Piece> {
    tensors.map_values(
        |t: (String, Vec<usize>, u32, Vec<u8>)|
            Piece { name: t.0@, dims: t.1@, dtype: t.2, data: t.3@ },
    )
}

/// The data of tensors takes what its offsets count.
pub proof fn lemma_bodies_len(pieces: Seq<Piece>)
    ensures
        bodies(pieces).len() == offset(pieces),
        offset(pieces) % 32 == 0,
    decreases pieces.len(),
{
    if pieces.len() > 0 {
        lemma_bodies_len(pieces.drop_last());
        lemma_round_up(pieces.last().data.len());
    }
}

/// Offsets grow along tensors.
proof fn lemma_offset_grows(pieces: Seq<Piece>, i: int)
    requires
        0 <= i <= pieces.len(),
    ensures
        offset(pieces.take(i)) <= offset(pieces),
    decreases pieces.len(),
{
    if i == pieces.len() {
        assert(pieces.take(i) =~= pieces);
    } else {
        lemma_offset_grows(pieces.drop_last(), i);
        assert(pieces.drop_last().take(i) =~= pieces.take(i));
    }
}

/// Padding behind whole multiples pads what stands behind them.
proof fn lemma_padded_behind(a: Seq<u8>, b: Seq<u8>)
    requires
        a.len() % 32 == 0,
    ensures
        padded(a + b) == a + padded(b),
        round_up((a + b).len(), 32) == a.len() + round_up(b.len(), 32),
{
    assert(padded(a + b) =~= a + padded(b));
}

/// Writes a file: the metadata, and tensors given by name, dimensions
/// (innermost first), type, and data.
pub fn write(
    meta: &[(&str, Value)],
    tensors: &[(String, Vec<usize>, u32, Vec<u8>)],
) -> (out: Vec<u8>)
    requires
        forall|i: int| 0 <= i < meta@.len() ==> filled(#[trigger] meta_of(meta@)[i].1),
        forall|i: int|
            0 <= i < tensors@.len() ==> (#[trigger] pieces_of(tensors@)[i]).dims.len() <= u32::MAX,
        image(meta_of(meta@), pieces_of(tensors@)).len() <= usize::MAX,
    ensures
        out@ == image(meta_of(meta@), pieces_of(tensors@)),
{
    let ghost m = meta_of(meta@);
    let ghost p = pieces_of(tensors@);
    let mut out: Vec<u8> = Vec::new();
    out.push(0x47);
    out.push(0x47);
    out.push(0x55);
    out.push(0x46);
    push_le(&mut out, 3, 4);
    push_le(&mut out, tensors.len() as u64, 8);
    push_le(&mut out, meta.len() as u64, 8);
    let ghost top = magic() + le_bytes(3, 4) + le_bytes(p.len(), 8) + le_bytes(
        m.len(),
        8,
    );
    assert(out@ =~= top);
    proof {
        lemma_bodies_len(p);
    }
    put_metas(&mut out, meta);
    put_descs(&mut out, tensors);
    assert(out@ =~= encode_head(m, p));
    proof {
        lemma_round_up(encode_head(m, p).len());
    }
    pad(&mut out);
    let ghost start = out@;
    let mut i: usize = 0;
    assert(p.take(0) =~= Seq::empty());
    assert(start + bodies(p.take(0)) =~= start);
    while i < tensors.len()
        invariant
            i <= tensors@.len(),
            p == pieces_of(tensors@),
            start.len() % 32 == 0,
            out@ == start + bodies(p.take(i as int)),
            start.len() + offset(p) <= usize::MAX,
        decreases tensors@.len() - i,
    {
        let ghost before = out@;
        let ghost data = tensors@[i as int].3@;
        proof {
            lemma_bodies_len(p.take(i as int));
            lemma_padded_behind(before, data);
            lemma_offset_grows(p, i + 1);
            assert(p.take(i + 1).drop_last() =~= p.take(i as int));
            assert(p.take(i + 1).last().data == data);
        }
        push_all(&mut out, tensors[i].3.as_slice());
        pad(&mut out);
        i = i + 1;
        assert(out@ =~= start + bodies(p.take(i as int)));
    }
    assert(p.take(p.len() as int) =~= p);
    out
}

/// Appends keys and their values.
fn put_metas(out: &mut Vec<u8>, meta: &[(&str, Value)])
    requires
        forall|i: int| 0 <= i < meta@.len() ==> filled(#[trigger] meta_of(meta@)[i].1),
    ensures
        final(out)@ == old(out)@ + encode_metas(meta_of(meta@)),
{
    let ghost m = meta_of(meta@);
    let ghost start = out@;
    let mut i: usize = 0;
    assert(m.take(0) =~= Seq::empty());
    assert(start + encode_metas(m.take(0)) =~= start);
    while i < meta.len()
        invariant
            i <= meta@.len(),
            m == meta_of(meta@),
            forall|i: int| 0 <= i < meta@.len() ==> filled(#[trigger] m[i].1),
            out@ == start + encode_metas(m.take(i as int)),
        decreases meta@.len() - i,
    {
        let ghost before = out@;
        assert(filled(m[i as int].1));
        put_string(out, meta[i].0);
        push_le(out, kind(&meta[i].1) as u64, 4);
        put_value(out, &meta[i].1);
        proof {
            assert(m.take(i + 1).drop_last() =~= m.take(i as int));
            assert(m.take(i + 1).last() == m[i as int]);
            assert(out@ =~= before + encode_meta(m[i as int]));
        }
        i = i + 1;
        assert(out@ =~= start + encode_metas(m.take(i as int)));
    }
    assert(m.take(m.len() as int) =~= m);
}

/// Appends what is said of tensors.
fn put_descs(out: &mut Vec<u8>, tensors: &[(String, Vec<usize>, u32, Vec<u8>)])
    requires
        forall|i: int|
            0 <= i < tensors@.len() ==> (#[trigger] pieces_of(tensors@)[i]).dims.len() <= u32::MAX,
        offset(pieces_of(tensors@)) <= u64::MAX,
    ensures
        final(out)@ == old(out)@ + encode_descs(pieces_of(tensors@)),
{
    let ghost p = pieces_of(tensors@);
    let ghost start = out@;
    let mut offset: u64 = 0;
    let mut i: usize = 0;
    assert(p.take(0) =~= Seq::empty());
    assert(start + encode_descs(p.take(0)) =~= start);
    while i < tensors.len()
        invariant
            i <= tensors@.len(),
            p == pieces_of(tensors@),
            forall|i: int| 0 <= i < p.len() ==> (#[trigger] p[i]).dims.len() <= u32::MAX,
            self::offset(p) <= u64::MAX,
            offset == self::offset(p.take(i as int)),
            out@ == start + encode_descs(p.take(i as int)),
        decreases tensors@.len() - i,
    {
        let ghost before = out@;
        let ghost piece = p[i as int];
        let t = &tensors[i];
        put_desc(out, t, offset);
        proof {
            assert(p.take(i + 1).drop_last() =~= p.take(i as int));
            assert(p.take(i + 1).last() == piece);
            assert(encode_descs(p.take(i + 1)) == encode_descs(p.take(i as int)) + encode_desc(
                piece,
                offset as nat,
            ));
            assert(out@ =~= start + encode_descs(p.take(i + 1)));
            lemma_offset_grows(p, i + 1);
            lemma_round_up(piece.data.len());
        }
        let len: u64 = t.3.len() as u64;
        let rest: u64 = len % 32;
        offset = offset + (if rest == 0 {
            len
        } else {
            len - rest + 32
        });
        i = i + 1;
    }
    assert(p.take(p.len() as int) =~= p);
}

/// Appends what is said of a tensor whose data starts at an offset.
fn put_desc(out: &mut Vec<u8>, t: &(String, Vec<usize>, u32, Vec<u8>), offset: u64)
    requires
        t.1@.len() <= u32::MAX,
    ensures
        final(out)@ == old(out)@ + encode_desc(
            Piece { name: t.0@, dims: t.1@, dtype: t.2, data: t.3@ },
            offset as nat,
        ),
{
    put_string(out, t.0.as_str());
    push_le(out, t.1.len() as u64, 4);
    put_dims(out, t.1.as_slice());
    push_le(out, t.2 as u64, 4);
    push_le(out, offset, 8);
    assert(out@ =~= old(out)@ + encode_desc(
        Piece { name: t.0@, dims: t.1@, dtype: t.2, data: t.3@ },
        offset as nat,
    ));
}

/// Appends dimensions.
fn put_dims(out: &mut Vec<u8>, dims: &[usize])
    ensures
        final(out)@ == old(out)@ + encode_dims(dims@),
{
    let ghost start = out@;
    let mut i: usize = 0;
    assert(dims@.take(0) =~= Seq::empty());
    assert(start + encode_dims(dims@.take(0)) =~= start);
    while i < dims.len()
        invariant
            i <= dims@.len(),
            out@ == start + encode_dims(dims@.take(i as int)),
        decreases dims@.len() - i,
    {
        push_le(out, dims[i] as u64, 8);
        i = i + 1;
        assert(dims@.take(i as int).drop_last() =~= dims@.take(i - 1));
        assert(out@ =~= start + encode_dims(dims@.take(i as int)));
    }
    assert(dims@.take(dims@.len() as int) =~= dims@);
}

/// Whether bytes stand at a position of a file.
pub open spec fn stands(b: Seq<u8>, at: nat, s: Seq<u8>) -> bool {
    at + s.len() <= b.len() && b.subrange(at as int, (at + s.len()) as int) == s
}

/// What stands in two parts stands part by part.
proof fn lemma_stands(b: Seq<u8>, at: nat, s: Seq<u8>, t: Seq<u8>)
    requires
        stands(b, at, s + t),
    ensures
        stands(b, at, s),
        stands(b, at + s.len(), t),
{
    let whole = b.subrange(at as int, (at + (s + t).len()) as int);
    assert(b.subrange(at as int, (at + s.len()) as int) =~= whole.subrange(0, s.len() as int));
    assert((s + t).subrange(0, s.len() as int) =~= s);
    assert(b.subrange((at + s.len()) as int, (at + s.len() + t.len()) as int) =~= whole.subrange(
        s.len() as int,
        (s + t).len() as int,
    ));
    assert((s + t).subrange(s.len() as int, (s + t).len() as int) =~= t);
}

/// A number reads back.
proof fn lemma_number_back(b: Seq<u8>, at: nat, n: nat, k: nat)
    requires
        n < base(k),
        stands(b, at, le_bytes(n, k)),
    ensures
        number_at(b, at, k) == Ok::<(nat, nat), Malformed>((n, k)),
{
    lemma_le_bytes_len(n, k);
    lemma_le_of_bytes(n, k);
}

/// Text reads back.
proof fn lemma_string_back(b: Seq<u8>, at: nat, s: Seq<char>)
    requires
        encode_utf8(s).len() <= u64::MAX,
        stands(b, at, encode_string(s)),
    ensures
        string_at(b, at) == Ok::<(Seq<char>, nat), Malformed>((s, encode_string(s).len())),
{
    lemma_base();
    let text = encode_utf8(s);
    lemma_le_bytes_len(text.len(), 8);
    lemma_stands(b, at, le_bytes(text.len(), 8), text);
    lemma_number_back(b, at, text.len(), 8);
    encode_utf8_valid_utf8(s);
    encode_utf8_decode_utf8(s);
}

/// Whether a value can be read back: its text and its arrays can be counted,
/// and an array holds something, all of one kind.
pub open spec fn storable(v: Val) -> bool
    decreases v,
{
    match v {
        Val::Str(s) => encode_utf8(s).len() <= u64::MAX,
        Val::Array(values) => 0 < values.len() <= u64::MAX && storables(values, values[0].kind()),
        _ => true,
    }
}

/// Whether values of one kind can all be read back.
pub open spec fn storables(values: Seq<Val>, kind: u32) -> bool
    decreases values,
{
    values.len() == 0 || (storables(values.drop_last(), kind) && storable(values.last())
        && values.last().kind() == kind)
}

/// A value reads back.
pub proof fn lemma_value_back(b: Seq<u8>, at: nat, v: Val)
    requires
        storable(v),
        stands(b, at, encode(v)),
    ensures
        value_at(b, at, v.kind()) == Ok::<(Val, nat), Malformed>((v, encode(v).len())),
    decreases v,
{
    lemma_base();
    match v {
        Val::Str(s) => {
            lemma_string_back(b, at, s);
        },
        Val::Array(values) => {
            let kind = values[0].kind();
            let one = le_bytes(kind as nat, 4);
            let two = le_bytes(values.len(), 8);
            lemma_le_bytes_len(kind as nat, 4);
            lemma_le_bytes_len(values.len(), 8);
            lemma_stands(b, at, one + two, encodes(values));
            lemma_stands(b, at, one, two);
            lemma_number_back(b, at, kind as nat, 4);
            lemma_number_back(b, at + 4, values.len(), 8);
            lemma_values_back(b, at + 12, values, kind);
        },
        _ => {
            lemma_number_back(b, at, number_of(v), width(v.kind()));
            lemma_le_bytes_len(number_of(v), width(v.kind()));
        },
    }
}

/// Values of one kind read back.
proof fn lemma_values_back(b: Seq<u8>, at: nat, values: Seq<Val>, kind: u32)
    requires
        storables(values, kind),
        stands(b, at, encodes(values)),
    ensures
        values_at(b, at, kind, values.len()) == Ok::<(Seq<Val>, nat), Malformed>(
            (values, encodes(values).len()),
        ),
    decreases values,
{
    if values.len() > 0 {
        let some = values.drop_last();
        lemma_stands(b, at, encodes(some), encode(values.last()));
        lemma_values_back(b, at, some, kind);
        lemma_value_back(b, at + encodes(some).len(), values.last());
        assert(some.push(values.last()) =~= values);
    } else {
        assert(values =~= Seq::empty());
    }
}

/// Whether keys and values can all be read back.
pub open spec fn meta_storable(meta: Seq<(Seq<char>, Val)>) -> bool {
    forall|i: int|
        0 <= i < meta.len() ==> encode_utf8((#[trigger] meta[i]).0).len() <= u64::MAX && storable(
            meta[i].1,
        )
}

/// Keys and values read back.
proof fn lemma_metas_back(b: Seq<u8>, at: nat, meta: Seq<(Seq<char>, Val)>)
    requires
        meta_storable(meta),
        stands(b, at, encode_metas(meta)),
    ensures
        metas_at(b, at, meta.len()) == Ok::<(Seq<(Seq<char>, Val)>, nat), Malformed>(
            (meta, encode_metas(meta).len()),
        ),
    decreases meta.len(),
{
    if meta.len() > 0 {
        let some = meta.drop_last();
        let (key, v) = meta.last();
        assert(meta[meta.len() - 1] == meta.last());
        assert forall|i: int| 0 <= i < some.len() implies encode_utf8((#[trigger] some[i]).0).len()
            <= u64::MAX && storable(some[i].1) by {
            assert(some[i] == meta[i]);
        }
        lemma_base();
        lemma_stands(b, at, encode_metas(some), encode_meta(meta.last()));
        lemma_metas_back(b, at, some);
        let here = at + encode_metas(some).len();
        let one = encode_string(key);
        let two = le_bytes(v.kind() as nat, 4);
        lemma_le_bytes_len(v.kind() as nat, 4);
        lemma_stands(b, here, one + two, encode(v));
        lemma_stands(b, here, one, two);
        lemma_string_back(b, here, key);
        lemma_number_back(b, here + one.len(), v.kind() as nat, 4);
        lemma_value_back(b, here + one.len() + 4, v);
        assert(some.push(meta.last()) =~= meta);
    } else {
        assert(meta =~= Seq::empty());
    }
}

/// Dimensions read back.
proof fn lemma_dims_back(b: Seq<u8>, at: nat, dims: Seq<usize>)
    requires
        stands(b, at, encode_dims(dims)),
    ensures
        dims_at(b, at, dims.len()) == Ok::<(Seq<usize>, nat), Malformed>(
            (dims, encode_dims(dims).len()),
        ),
    decreases dims.len(),
{
    if dims.len() > 0 {
        let some = dims.drop_last();
        let d = dims.last() as nat;
        lemma_base();
        lemma_le_bytes_len(d, 8);
        lemma_stands(b, at, encode_dims(some), le_bytes(d, 8));
        lemma_dims_back(b, at, some);
        lemma_number_back(b, at + encode_dims(some).len(), d, 8);
        assert(some.push(dims.last()) =~= dims);
    } else {
        assert(dims =~= Seq::empty());
    }
}

/// What a file says of a tensor whose data starts at an offset.
pub open spec fn desc_of(piece: Piece, at: nat) -> (Seq<char>, Desc) {
    (piece.name, Desc { dims: piece.dims, dtype: piece.dtype, offset: at as u64 })
}

/// What a file says of tensors.
pub open spec fn descs_of(pieces: Seq<Piece>) -> Seq<(Seq<char>, Desc)>
    decreases pieces.len(),
{
    if pieces.len() == 0 {
        Seq::empty()
    } else {
        descs_of(pieces.drop_last()).push(desc_of(pieces.last(), offset(pieces.drop_last())))
    }
}

/// Whether what is said of tensors can be read back.
pub open spec fn pieces_storable(pieces: Seq<Piece>) -> bool {
    forall|i: int|
        0 <= i < pieces.len() ==> encode_utf8((#[trigger] pieces[i]).name).len() <= u64::MAX
            && pieces[i].dims.len() <= u32::MAX
}

/// What is said of a tensor reads back.
proof fn lemma_desc_back(b: Seq<u8>, at: nat, piece: Piece, offset: nat)
    requires
        encode_utf8(piece.name).len() <= u64::MAX,
        piece.dims.len() <= u32::MAX,
        offset <= u64::MAX,
        stands(b, at, encode_desc(piece, offset)),
    ensures
        tensor_at(b, at) == Ok::<((Seq<char>, Desc), nat), Malformed>(
            (desc_of(piece, offset), encode_desc(piece, offset).len()),
        ),
{
    lemma_base();
    let one = encode_string(piece.name);
    let two = le_bytes(piece.dims.len(), 4);
    let three = encode_dims(piece.dims);
    let four = le_bytes(piece.dtype as nat, 4);
    let five = le_bytes(offset, 8);
    lemma_le_bytes_len(piece.dims.len(), 4);
    lemma_le_bytes_len(piece.dtype as nat, 4);
    lemma_le_bytes_len(offset, 8);
    lemma_stands(b, at, one + two + three + four, five);
    lemma_stands(b, at, one + two + three, four);
    lemma_stands(b, at, one + two, three);
    lemma_stands(b, at, one, two);
    lemma_string_back(b, at, piece.name);
    lemma_number_back(b, at + one.len(), piece.dims.len(), 4);
    lemma_dims_back(b, at + one.len() + 4, piece.dims);
    lemma_number_back(b, at + one.len() + 4 + three.len(), piece.dtype as nat, 4);
    lemma_number_back(b, at + one.len() + 4 + three.len() + 4, offset, 8);
}

/// What is said of tensors reads back.
proof fn lemma_descs_back(b: Seq<u8>, at: nat, pieces: Seq<Piece>)
    requires
        pieces_storable(pieces),
        offset(pieces) <= u64::MAX,
        stands(b, at, encode_descs(pieces)),
    ensures
        tensors_at(b, at, pieces.len()) == Ok::<(Seq<(Seq<char>, Desc)>, nat), Malformed>(
            (descs_of(pieces), encode_descs(pieces).len()),
        ),
    decreases pieces.len(),
{
    if pieces.len() > 0 {
        let some = pieces.drop_last();
        assert(pieces[pieces.len() - 1] == pieces.last());
        assert forall|i: int| 0 <= i < some.len() implies encode_utf8(
            (#[trigger] some[i]).name,
        ).len() <= u64::MAX && some[i].dims.len() <= u32::MAX by {
            assert(some[i] == pieces[i]);
        }
        lemma_stands(b, at, encode_descs(some), encode_desc(pieces.last(), offset(some)));
        lemma_descs_back(b, at, some);
        lemma_desc_back(b, at + encode_descs(some).len(), pieces.last(), offset(some));
    }
}

/// The parts of a head stand one behind another.
proof fn lemma_head_parts(b: Seq<u8>, meta: Seq<(Seq<char>, Val)>, pieces: Seq<Piece>)
    requires
        stands(b, 0, encode_head(meta, pieces)),
    ensures
        stands(b, 0, magic()),
        stands(b, 4, le_bytes(3, 4)),
        stands(b, 8, le_bytes(pieces.len(), 8)),
        stands(b, 16, le_bytes(meta.len(), 8)),
        stands(b, 24, encode_metas(meta)),
        stands(b, 24 + encode_metas(meta).len(), encode_descs(pieces)),
        encode_head(meta, pieces).len() == 24 + encode_metas(meta).len() + encode_descs(
            pieces,
        ).len(),
{
    let one = magic();
    let two = le_bytes(3, 4);
    let three = le_bytes(pieces.len(), 8);
    let four = le_bytes(meta.len(), 8);
    let five = encode_metas(meta);
    let six = encode_descs(pieces);
    lemma_le_bytes_len(3, 4);
    lemma_le_bytes_len(pieces.len(), 8);
    lemma_le_bytes_len(meta.len(), 8);
    lemma_stands(b, 0, one + two + three + four + five, six);
    lemma_stands(b, 0, one + two + three + four, five);
    lemma_stands(b, 0, one + two + three, four);
    lemma_stands(b, 0, one + two, three);
    lemma_stands(b, 0, one, two);
}

/// A head reads back.
proof fn lemma_head_back(b: Seq<u8>, meta: Seq<(Seq<char>, Val)>, pieces: Seq<Piece>)
    requires
        meta_storable(meta),
        pieces_storable(pieces),
        offset(pieces) <= u64::MAX,
        meta.len() <= u64::MAX,
        pieces.len() <= u64::MAX,
        stands(b, 0, encode_head(meta, pieces)),
    ensures
        head(b) == Ok::<Head, Malformed>(
            Head { meta, tensors: descs_of(pieces), size: encode_head(meta, pieces).len() },
        ),
{
    lemma_base();
    lemma_head_parts(b, meta, pieces);
    lemma_number_back(b, 4, 3, 4);
    lemma_number_back(b, 8, pieces.len(), 8);
    lemma_number_back(b, 16, meta.len(), 8);
    lemma_metas_back(b, 24, meta);
    lemma_descs_back(b, 24 + encode_metas(meta).len(), pieces);
    assert(b.subrange(0, 4) == magic());
}

/// What was written is read back: every key and value, and what was said of
/// every tensor, in the order they were given in.
#[verifier::rlimit(40)]
#[verifier::spinoff_prover]
pub proof fn law_head_reads_back(meta: Seq<(Seq<char>, Val)>, pieces: Seq<Piece>)
    requires
        meta_storable(meta),
        pieces_storable(pieces),
        alignment(table(meta)) == ALIGNMENT,
        image(meta, pieces).len() <= u64::MAX,
        meta.len() <= u64::MAX,
        pieces.len() <= u64::MAX,
    ensures
        parsed(image(meta, pieces)) == Ok::<(Head, nat), Malformed>(
            (
                Head { meta, tensors: descs_of(pieces), size: encode_head(meta, pieces).len() },
                padded(encode_head(meta, pieces)).len(),
            ),
        ),
{
    let b = image(meta, pieces);
    let h = encode_head(meta, pieces);
    lemma_bodies_len(pieces);
    lemma_head_first(h, bodies(pieces));
    lemma_head_back(b, meta, pieces);
}

/// A head stands in front of the data that it is padded for.
pub proof fn lemma_head_first(h: Seq<u8>, data: Seq<u8>)
    ensures
        stands(padded(h) + data, 0, h),
        padded(h).len() == round_up(h.len(), 32),
{
    lemma_round_up(h.len());
    assert((padded(h) + data).subrange(0, h.len() as int) =~= h);
}

/// Where the file says that a tensor's data is, it is.
pub proof fn law_data_reads_back(meta: Seq<(Seq<char>, Val)>, pieces: Seq<Piece>, i: int)
    requires
        0 <= i < pieces.len(),
        image(meta, pieces).len() <= u64::MAX,
    ensures
        descs_of(pieces)[i] == desc_of(pieces[i], offset(pieces.take(i))),
        descs_of(pieces)[i].1.offset == offset(pieces.take(i)),
        stands(
            image(meta, pieces),
            padded(encode_head(meta, pieces)).len() + offset(pieces.take(i)),
            pieces[i].data,
        ),
{
    lemma_bodies_len(pieces);
    lemma_offset_grows(pieces, i);
    lemma_body(pieces, i);
    let top = padded(encode_head(meta, pieces));
    let data = pieces[i].data;
    let at = offset(pieces.take(i));
    assert(image(meta, pieces).subrange(
        (top.len() + at) as int,
        (top.len() + at + data.len()) as int,
    ) =~= bodies(pieces).subrange(at as int, (at + data.len()) as int));
}

/// The data of a tensor stands at its offset among the data of all.
proof fn lemma_body(pieces: Seq<Piece>, i: int)
    requires
        0 <= i < pieces.len(),
    ensures
        descs_of(pieces).len() == pieces.len(),
        descs_of(pieces)[i] == desc_of(pieces[i], offset(pieces.take(i))),
        stands(bodies(pieces), offset(pieces.take(i)), pieces[i].data),
    decreases pieces.len(),
{
    let some = pieces.drop_last();
    lemma_bodies_len(some);
    lemma_descs_len(some);
    if i == pieces.len() - 1 {
        assert(pieces.take(i) =~= some);
        let data = pieces[i].data;
        lemma_round_up(data.len());
        assert(bodies(pieces).subrange(
            offset(some) as int,
            (offset(some) + data.len()) as int,
        ) =~= data);
    } else {
        lemma_body(some, i);
        assert(some.take(i) =~= pieces.take(i));
        let at = offset(pieces.take(i)) as int;
        let n = pieces[i].data.len() as int;
        assert(bodies(pieces).subrange(at, at + n) =~= bodies(some).subrange(at, at + n));
    }
}

/// Something is said of every tensor.
pub proof fn lemma_descs_len(pieces: Seq<Piece>)
    ensures
        descs_of(pieces).len() == pieces.len(),
    decreases pieces.len(),
{
    if pieces.len() > 0 {
        lemma_descs_len(pieces.drop_last());
    }
}

} // verus!
