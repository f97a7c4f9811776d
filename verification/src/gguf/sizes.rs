//! How long a file to be written is, and whether it can be written.
use vstd::prelude::*;
use vstd::utf8::encode_utf8;

use super::layout::round_up;
use super::value::{lemma_vals, vals, Val, Value};
use super::writer::{
    all_filled, bodies, encode, encode_desc, encode_descs, encode_dims, encode_head, encode_meta,
    encode_metas, encode_string, encodes, filled, image, lemma_all_filled, lemma_bodies_len,
    lemma_head_first, lemma_round_up, meta_of, offset, pieces_of, Piece,
};
use crate::bytes::lemma_le_bytes_len;

verus! {

/// A number, where the machine can count to it.
pub open spec fn counted(n: nat) -> Option<usize> {
    if n <= usize::MAX {
        Some(n as usize)
    } else {
        None
    }
}

/// Two numbers added, where the machine can count to them.
fn plus(
    a: Option<usize>,
    b: Option<usize>,
    Ghost(x): Ghost<nat>,
    Ghost(y): Ghost<nat>,
) -> (r: Option<usize>)
    requires
        a == counted(x),
        b == counted(y),
    ensures
        r == counted(x + y),
{
    match (a, b) {
        (Some(a), Some(b)) => a.checked_add(b),
        _ => None,
    }
}

/// The bytes that a string takes.
fn string_size(s: &str) -> (r: Option<usize>)
    ensures
        r == counted(encode_string(s@).len()),
{
    proof {
        lemma_le_bytes_len(encode_utf8(s@).len(), 8);
    }
    let text = s.as_bytes();
    plus(Some(8), Some(text.len()), Ghost(8), Ghost(text@.len()))
}

/// The bytes that a value takes.
fn value_size(v: &Value) -> (r: Option<usize>)
    ensures
        r == counted(encode(v.val()).len()),
    decreases v,
{
    let small: usize = match v {
        Value::Str(s) => {
            return string_size(s);
        },
        Value::Array(values) => {
            let ghost list = vals(values@);
            proof {
                lemma_vals(values@);
                lemma_le_bytes_len(list[0].kind() as nat, 4);
                lemma_le_bytes_len(list.len(), 8);
                assert(values@.take(0) =~= Seq::empty());
                assert(vals(values@.take(0)) =~= Seq::empty());
            }
            let mut all: Option<usize> = Some(12);
            let mut i: usize = 0;
            while i < values.len()
                invariant
                    i <= values@.len(),
                    *v == Value::Array(*values),
                    all == counted(12 + encodes(vals(values@.take(i as int))).len()),
                decreases values@.len() - i,
            {
                let ghost before = vals(values@.take(i as int));
                proof {
                    assert(decreases_to!(*v => v->Array_0));
                    assert(decreases_to!(values => values@));
                    assert(decreases_to!(values@ => values@[i as int]));
                    let now = values@.take(i + 1);
                    lemma_vals(now);
                    lemma_vals(values@.take(i as int));
                    assert(now.drop_last() =~= values@.take(i as int));
                    assert(vals(now) =~= before.push(values@[i as int].val()));
                    assert(vals(now).drop_last() =~= before);
                }
                let one: Option<usize> = value_size(&values[i]);
                all = plus(
                    all,
                    one,
                    Ghost(12 + encodes(before).len()),
                    Ghost(encode(values@[i as int].val()).len()),
                );
                i = i + 1;
            }
            assert(values@.take(values@.len() as int) =~= values@);
            return all;
        },
        Value::U8(_) => 1,
        Value::I8(_) => 1,
        Value::Bool(_) => 1,
        Value::U16(_) => 2,
        Value::I16(_) => 2,
        Value::U32(_) => 4,
        Value::I32(_) => 4,
        Value::F32(_) => 4,
        Value::U64(_) => 8,
        Value::I64(_) => 8,
        Value::F64(_) => 8,
    };
    proof {
        lemma_le_bytes_len(super::writer::number_of(v.val()), small as nat);
    }
    Some(small)
}

/// Whether no array in a value is empty.
fn is_filled(v: &Value) -> (r: bool)
    ensures
        r == filled(v.val()),
    decreases v,
{
    match v {
        Value::Array(values) => {
            let ghost list = vals(values@);
            proof {
                lemma_vals(values@);
            }
            if values.len() == 0 {
                return false;
            }
            let mut i: usize = 0;
            assert(vals(values@.take(0)) =~= Seq::empty()) by {
                lemma_vals(values@.take(0));
            }
            while i < values.len()
                invariant
                    i <= values@.len(),
                    *v == Value::Array(*values),
                    list == vals(values@),
                    v.val() == Val::Array(list),
                    all_filled(vals(values@.take(i as int))),
                decreases values@.len() - i,
            {
                proof {
                    assert(decreases_to!(*v => v->Array_0));
                    assert(decreases_to!(values => values@));
                    assert(decreases_to!(values@ => values@[i as int]));
                    let now = values@.take(i + 1);
                    lemma_vals(values@);
                    lemma_vals(now);
                    lemma_vals(values@.take(i as int));
                    assert(vals(now).drop_last() =~= vals(values@.take(i as int)));
                    assert(vals(now).last() == values@[i as int].val());
                }
                if !is_filled(&values[i]) {
                    proof {
                        if all_filled(list) {
                            lemma_all_filled(list, i as int);
                        }
                    }
                    return false;
                }
                i = i + 1;
            }
            assert(values@.take(values@.len() as int) =~= values@);
            true
        },
        _ => true,
    }
}

/// Dimensions take eight bytes each.
proof fn lemma_dims_len(dims: Seq<usize>)
    ensures
        encode_dims(dims).len() == 8 * dims.len(),
    decreases dims.len(),
{
    if dims.len() > 0 {
        lemma_dims_len(dims.drop_last());
        lemma_le_bytes_len(dims.last() as nat, 8);
    }
}

/// The bytes of what is said of a tensor.
proof fn lemma_desc_len(piece: Piece, at: nat)
    ensures
        encode_desc(piece, at).len() == encode_string(piece.name).len() + 16 + 8 * piece.dims.len(),
{
    lemma_dims_len(piece.dims);
    lemma_le_bytes_len(piece.dims.len(), 4);
    lemma_le_bytes_len(piece.dtype as nat, 4);
    lemma_le_bytes_len(at, 8);
}

/// The bytes that keys and their values take, on top of `start`.
fn metas_size(meta: &[(&str, Value)], start: usize) -> (r: Option<usize>)
    ensures
        r == counted(start as nat + encode_metas(meta_of(meta@)).len()),
{
    let ghost m = meta_of(meta@);
    let mut all: Option<usize> = Some(start);
    let mut i: usize = 0;
    assert(m.take(0) =~= Seq::empty());
    while i < meta.len()
        invariant
            i <= meta@.len(),
            m == meta_of(meta@),
            all == counted(start as nat + encode_metas(m.take(i as int)).len()),
        decreases meta@.len() - i,
    {
        let ghost before = start as nat + encode_metas(m.take(i as int)).len();
        let ghost item = m[i as int];
        proof {
            assert(m.take(i + 1).drop_last() =~= m.take(i as int));
            assert(m.take(i + 1).last() == item);
            lemma_le_bytes_len(item.1.kind() as nat, 4);
            assert(encode_meta(item).len() == encode_string(item.0).len() + 4 + encode(item.1).len());
        }
        let name: Option<usize> = string_size(meta[i].0);
        let value: Option<usize> = value_size(&meta[i].1);
        let ghost (a, b) = (encode_string(item.0).len(), encode(item.1).len());
        let key: Option<usize> = plus(name, Some(4), Ghost(a), Ghost(4));
        let both: Option<usize> = plus(key, value, Ghost(a + 4), Ghost(b));
        all = plus(all, both, Ghost(before), Ghost(a + 4 + b));
        i = i + 1;
    }
    assert(m.take(m.len() as int) =~= m);
    all
}

/// The bytes that what is said of tensors takes, on top of `start`.
fn descs_size(tensors: &[(String, Vec<usize>, u32, Vec<u8>)], start: usize) -> (r: Option<usize>)
    ensures
        r == counted(start as nat + encode_descs(pieces_of(tensors@)).len()),
{
    let ghost p = pieces_of(tensors@);
    let mut all: Option<usize> = Some(start);
    let mut i: usize = 0;
    assert(p.take(0) =~= Seq::empty());
    while i < tensors.len()
        invariant
            i <= tensors@.len(),
            p == pieces_of(tensors@),
            all == counted(start as nat + encode_descs(p.take(i as int)).len()),
        decreases tensors@.len() - i,
    {
        let ghost before = start as nat + encode_descs(p.take(i as int)).len();
        let ghost piece = p[i as int];
        proof {
            assert(p.take(i + 1).drop_last() =~= p.take(i as int));
            assert(p.take(i + 1).last() == piece);
            lemma_desc_len(piece, offset(p.take(i as int)));
        }
        let name: Option<usize> = string_size(&tensors[i].0);
        let n: usize = tensors[i].1.len();
        let ghost a = encode_string(piece.name).len();
        let rest: Option<usize> = plus(name, Some(16), Ghost(a), Ghost(16));
        let dims: Option<usize> = n.checked_mul(8);
        let both: Option<usize> = plus(rest, dims, Ghost(a + 16), Ghost((8 * n) as nat));
        all = plus(all, both, Ghost(before), Ghost(a + 16 + 8 * n as nat));
        i = i + 1;
    }
    assert(p.take(p.len() as int) =~= p);
    all
}

/// A number rounded up to the alignment, where the machine can count to it.
fn rounded(n: usize) -> (r: Option<usize>)
    ensures
        r == counted(round_up(n as nat, 32)),
{
    proof {
        lemma_round_up(n as nat);
    }
    let over: usize = n % 32;
    if over == 0 {
        Some(n)
    } else {
        n.checked_add(32 - over)
    }
}

/// The bytes that the data of tensors takes.
fn bodies_size(tensors: &[(String, Vec<usize>, u32, Vec<u8>)]) -> (r: Option<usize>)
    ensures
        r == counted(bodies(pieces_of(tensors@)).len()),
{
    let ghost p = pieces_of(tensors@);
    let mut all: Option<usize> = Some(0);
    let mut i: usize = 0;
    assert(p.take(0) =~= Seq::empty());
    while i < tensors.len()
        invariant
            i <= tensors@.len(),
            p == pieces_of(tensors@),
            all == counted(offset(p.take(i as int))),
        decreases tensors@.len() - i,
    {
        proof {
            assert(p.take(i + 1).drop_last() =~= p.take(i as int));
            assert(p.take(i + 1).last() == p[i as int]);
        }
        let n: usize = tensors[i].3.len();
        let one: Option<usize> = rounded(n);
        all = plus(all, one, Ghost(offset(p.take(i as int))), Ghost(round_up(n as nat, 32)));
        i = i + 1;
    }
    assert(p.take(p.len() as int) =~= p);
    proof {
        lemma_bodies_len(p);
    }
    all
}

/// The bytes that a file takes, where the machine can count them.
fn image_size(
    meta: &[(&str, Value)],
    tensors: &[(String, Vec<usize>, u32, Vec<u8>)],
) -> (r: Option<usize>)
    ensures
        r == counted(image(meta_of(meta@), pieces_of(tensors@)).len()),
{
    let ghost m = meta_of(meta@);
    let ghost p = pieces_of(tensors@);
    proof {
        lemma_le_bytes_len(3, 4);
        lemma_le_bytes_len(p.len(), 8);
        lemma_le_bytes_len(m.len(), 8);
        lemma_head_first(encode_head(m, p), bodies(p));
        lemma_round_up(encode_head(m, p).len());
        assert(encode_head(m, p).len() == 24 + encode_metas(m).len() + encode_descs(p).len());
    }
    let top: usize = match metas_size(meta, 24) {
        Some(n) => n,
        None => {
            return None;
        },
    };
    let top: usize = match descs_size(tensors, top) {
        Some(n) => n,
        None => {
            return None;
        },
    };
    let head: Option<usize> = rounded(top);
    let data: Option<usize> = bodies_size(tensors);
    plus(head, data, Ghost(round_up(top as nat, 32)), Ghost(bodies(p).len()))
}

/// Whether a file of keys and tensors can be written: no array in a value is
/// empty, dimensions can be counted, and so can the bytes of the whole.
pub fn writable(
    meta: &[(&str, Value)],
    tensors: &[(String, Vec<usize>, u32, Vec<u8>)],
) -> (r: bool)
    ensures
        r == {
            &&& forall|i: int| 0 <= i < meta@.len() ==> filled(#[trigger] meta_of(meta@)[i].1)
            &&& forall|i: int|
                0 <= i < tensors@.len() ==> (#[trigger] pieces_of(tensors@)[i]).dims.len()
                    <= u32::MAX
            &&& image(meta_of(meta@), pieces_of(tensors@)).len() <= usize::MAX
        },
{
    let mut i: usize = 0;
    while i < meta.len()
        invariant
            i <= meta@.len(),
            forall|j: int| 0 <= j < i ==> filled(#[trigger] meta_of(meta@)[j].1),
        decreases meta@.len() - i,
    {
        if !is_filled(&meta[i].1) {
            assert(!filled(meta_of(meta@)[i as int].1));
            return false;
        }
        i = i + 1;
    }
    i = 0;
    while i < tensors.len()
        invariant
            i <= tensors@.len(),
            forall|j: int| 0 <= j < meta@.len() ==> filled(#[trigger] meta_of(meta@)[j].1),
            forall|j: int|
                0 <= j < i ==> (#[trigger] pieces_of(tensors@)[j]).dims.len() <= u32::MAX,
        decreases tensors@.len() - i,
    {
        if tensors[i].1.len() as u64 > u32::MAX as u64 {
            assert(pieces_of(tensors@)[i as int].dims.len() > u32::MAX);
            return false;
        }
        i = i + 1;
    }
    image_size(meta, tensors).is_some()
}

} // verus!
