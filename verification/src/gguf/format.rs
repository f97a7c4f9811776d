//! What stands where in a file.
use vstd::prelude::*;
use vstd::utf8::{
    decode_utf8_encode_utf8, encode_utf8, encode_utf8_decode_utf8, encode_utf8_valid_utf8,
};

use super::file::{extent, parsed, product, Gguf};
use super::layout::{
    alignment, dims_at, head, meta_at, metas_at, string_at, table, tensor_at, tensors_at, value_at,
    values_at, Desc, Malformed,
};
use super::value::Val;
use crate::bytes::{base, le};

verus! {

/// The number of two bytes from a place on, the low one first.
pub open spec fn two(b: Seq<u8>, at: int) -> int {
    b[at] + 256 * b[at + 1]
}

/// The number of four bytes from a place on, the low ones first.
pub open spec fn four(b: Seq<u8>, at: int) -> int {
    two(b, at) + 65536 * two(b, at + 2)
}

/// The number of eight bytes from a place on, the low ones first.
pub open spec fn eight(b: Seq<u8>, at: int) -> int {
    four(b, at) + 4294967296 * four(b, at + 4)
}

/// A number and its lowest byte.
proof fn lemma_low(s: Seq<u8>)
    requires
        s.len() > 0,
    ensures
        le(s) == s[0] + 256 * le(s.skip(1)),
{
    assert(s.skip(1) =~= s.drop_first());
}

/// Numbers of one, two, four and eight bytes.
proof fn lemma_numbers(b: Seq<u8>, at: int)
    requires
        0 <= at,
    ensures
        at + 1 <= b.len() ==> le(b.subrange(at, at + 1)) == b[at],
        at + 2 <= b.len() ==> le(b.subrange(at, at + 2)) == two(b, at),
        at + 4 <= b.len() ==> le(b.subrange(at, at + 4)) == four(b, at),
        at + 8 <= b.len() ==> le(b.subrange(at, at + 8)) == eight(b, at),
{
    assert(le(Seq::<u8>::empty()) == 0);
    if at + 1 <= b.len() {
        lemma_split(b, at, 1);
    }
    if at + 2 <= b.len() {
        lemma_split(b, at, 2);
        lemma_split(b, at + 1, 1);
    }
    if at + 4 <= b.len() {
        lemma_four(b, at, 4);
        assert(b.subrange(at + 4, at + 4) =~= Seq::empty());
    }
    if at + 8 <= b.len() {
        lemma_four(b, at, 8);
        lemma_four(b, at + 4, 4);
        assert(b.subrange(at + 8, at + 8) =~= Seq::empty());
    }
}

/// A number of bytes and the rest of it.
proof fn lemma_split(b: Seq<u8>, at: int, k: int)
    requires
        0 <= at,
        0 < k,
        at + k <= b.len(),
    ensures
        le(b.subrange(at, at + k)) == b[at] + 256 * le(b.subrange(at + 1, at + k)),
        k == 1 ==> le(b.subrange(at + 1, at + k)) == 0,
{
    let s = b.subrange(at, at + k);
    lemma_low(s);
    assert(s.skip(1) =~= b.subrange(at + 1, at + k));
}

/// Four bytes of a number and the rest of it.
proof fn lemma_four(b: Seq<u8>, at: int, k: int)
    requires
        0 <= at,
        4 <= k,
        at + k <= b.len(),
    ensures
        le(b.subrange(at, at + k)) == four(b, at) + 4294967296 * le(b.subrange(at + 4, at + k)),
{
    lemma_split(b, at, k);
    lemma_split(b, at + 1, k - 1);
    lemma_split(b, at + 2, k - 2);
    lemma_split(b, at + 3, k - 3);
}

/// A text is its length in eight bytes, and as many bytes of UTF-8.
pub proof fn law_texts_are_counted(b: Seq<u8>, at: nat, s: Seq<char>, size: nat)
    ensures
        string_at(b, at) == Ok::<_, Malformed>((s, size)) <==> at + size <= b.len() && size == 8
            + encode_utf8(s).len() && eight(b, at as int) == encode_utf8(s).len() && b.subrange(
            at as int + 8,
            (at + size) as int,
        ) == encode_utf8(s),
{
    lemma_numbers(b, at as int);
    let e = encode_utf8(s);
    encode_utf8_valid_utf8(s);
    encode_utf8_decode_utf8(s);
    if string_at(b, at) == Ok::<_, Malformed>((s, size)) {
        let len = le(b.subrange(at as int, (at + 8) as int));
        let text = b.subrange((at + 8) as int, (at + 8 + len) as int);
        decode_utf8_encode_utf8(text);
        assert(text == e);
    }
}

/// A value of a kind that is neither text nor an array is a number of so many
/// bytes, the low ones first, and of those with a sign in two's complement.
pub proof fn law_values_go_by_kind(b: Seq<u8>, at: nat, kind: u32, v: Val, size: nat)
    requires
        value_at(b, at, kind) == Ok::<_, Malformed>((v, size)),
        kind != 8 && kind != 9,
    ensures
        at + size <= b.len(),
        match kind {
            0 => size == 1 && v == Val::U8(b[at as int]),
            1 => size == 1 && (v matches Val::I8(n) && (n == b[at as int] || n == b[at as int] - 256)),
            2 => size == 2 && (v matches Val::U16(n) && n == two(b, at as int)),
            3 => size == 2 && (v matches Val::I16(n) && (n == two(b, at as int) || n == two(
                b,
                at as int,
            ) - 65536)),
            4 => size == 4 && (v matches Val::U32(n) && n == four(b, at as int)),
            5 => size == 4 && (v matches Val::I32(n) && (n == four(b, at as int) || n == four(
                b,
                at as int,
            ) - 4294967296)),
            6 => size == 4 && (v matches Val::F32(n) && n == four(b, at as int)),
            7 => size == 1 && v == Val::Bool(b[at as int] != 0),
            10 => size == 8 && (v matches Val::U64(n) && n == eight(b, at as int)),
            11 => size == 8 && (v matches Val::I64(n) && (n == eight(b, at as int) || n == eight(
                b,
                at as int,
            ) - 18446744073709551616)),
            12 => size == 8 && (v matches Val::F64(n) && n == eight(b, at as int)),
            _ => false,
        },
{
    lemma_numbers(b, at as int);
    reveal_with_fuel(base, 9);
}

/// Whether a value stands at a place, and ends by another.
pub open spec fn value_stands(b: Seq<u8>, at: nat, kind: u32, v: Val, end: nat) -> bool {
    value_at(b, at, kind) matches Ok((w, size)) && w == v && at + size <= end
}

/// An array is the kind of its elements in four bytes, their number in eight,
/// and its elements, which have one kind.
pub proof fn law_arrays_name_their_kind(b: Seq<u8>, at: nat, v: Val, size: nat, j: int)
    requires
        value_at(b, at, 9) == Ok::<_, Malformed>((v, size)),
    ensures
        v matches Val::Array(values) && values.len() == eight(b, at as int + 4) && (0 <= j
            < values.len() ==> exists|i: nat|
            at + 12 <= i && (j == 0 ==> i == at + 12) && #[trigger] value_stands(
                b,
                i,
                four(b, at as int) as u32,
                values[j],
                at + size,
            )),
{
    lemma_numbers(b, at as int);
    lemma_numbers(b, at as int + 4);
    reveal_with_fuel(value_at, 2);
    let kind = four(b, at as int) as u32;
    let n = eight(b, at as int + 4) as nat;
    lemma_values(b, at + 12, kind, n, j);
    let (values, more) = values_at(b, at + 12, kind, n)->Ok_0;
    assert(v == Val::Array(values) && at + size == at + 12 + more);
    if 0 <= j < values.len() {
        let i = choose|i: nat|
            at + 12 <= i && (j == 0 ==> i == at + 12) && #[trigger] value_stands(
                b,
                i,
                kind,
                values[j],
                at + 12 + more,
            );
        assert(value_stands(b, i, kind, values[j], at + size));
    }
}

/// The elements of an array.
proof fn lemma_values(b: Seq<u8>, at: nat, kind: u32, n: nat, j: int)
    requires
        values_at(b, at, kind, n) is Ok,
    ensures
        ({
            let (values, size) = values_at(b, at, kind, n)->Ok_0;
            &&& values.len() == n
            &&& 0 <= j < n ==> exists|i: nat|
                at <= i && (j == 0 ==> i == at) && #[trigger] value_stands(
                    b,
                    i,
                    kind,
                    values[j],
                    at + size,
                )
        }),
    decreases n,
{
    reveal_with_fuel(values_at, 2);
    if n > 0 {
        let m = (n - 1) as nat;
        lemma_values(b, at, kind, m, j);
        let (values, size) = values_at(b, at, kind, m)->Ok_0;
        let (v, more) = value_at(b, at + size, kind)->Ok_0;
        let (all, total) = values_at(b, at, kind, n)->Ok_0;
        assert(all == values.push(v) && total == size + more);
        if j == m {
            if m == 0 {
                assert(size == 0);
            }
            assert(all[j] == v);
            assert(value_stands(b, at + size, kind, all[j], at + total));
        } else if 0 <= j < m {
            let i = choose|i: nat|
                at <= i && (j == 0 ==> i == at) && #[trigger] value_stands(
                    b,
                    i,
                    kind,
                    values[j],
                    at + size,
                );
            assert(all[j] == values[j]);
            assert(value_stands(b, i, kind, all[j], at + total));
        }
    }
}

/// A text stands as a value as it stands elsewhere.
pub proof fn law_texts_are_values(b: Seq<u8>, at: nat)
    ensures
        value_at(b, at, 8) == match string_at(b, at) {
            Ok((s, size)) => Ok((Val::Str(s), size)),
            Err(e) => Err(e),
        },
{
}

/// A key stands before its value, with the kind of it between them in four
/// bytes.
pub proof fn law_keys_stand_before_values(b: Seq<u8>, at: nat, key: Seq<char>, v: Val, size: nat)
    requires
        meta_at(b, at) == Ok::<_, Malformed>(((key, v), size)),
    ensures
        ({
            let k = (8 + encode_utf8(key).len()) as nat;
            &&& string_at(b, at) == Ok::<_, Malformed>((key, k))
            &&& size >= k + 4
            &&& value_at(b, at + k + 4, four(b, (at + k) as int) as u32) == Ok::<_, Malformed>(
                (v, (size - k - 4) as nat),
            )
        }),
{
    let k = string_at(b, at)->Ok_0.1;
    law_texts_are_counted(b, at, key, k);
    lemma_numbers(b, (at + k) as int);
}

/// What is said of a tensor: its name; how many dimensions it has in four
/// bytes, and each of them in eight, in order; its type in four; and where its
/// data starts in eight.
pub proof fn law_tensors_are_described(b: Seq<u8>, at: nat, name: Seq<char>, d: Desc, size: nat)
    requires
        tensor_at(b, at) == Ok::<_, Malformed>(((name, d), size)),
    ensures
        ({
            let k = (8 + encode_utf8(name).len()) as nat;
            let dims = (at + k + 4) as int;
            let end = dims + 8 * d.dims.len();
            &&& string_at(b, at) == Ok::<_, Malformed>((name, k))
            &&& d.dims.len() == four(b, (at + k) as int)
            &&& forall|j: int|
                0 <= j < d.dims.len() ==> #[trigger] d.dims[j] == eight(b, dims + 8 * j)
            &&& d.dtype == four(b, end)
            &&& d.offset == eight(b, end + 4)
            &&& at + size == end + 12
        }),
{
    let k = string_at(b, at)->Ok_0.1;
    law_texts_are_counted(b, at, name, k);
    lemma_numbers(b, (at + k) as int);
    let n = four(b, (at + k) as int) as nat;
    lemma_dims(b, at + k + 4, n);
    let end = (at + k + 4 + 8 * n) as int;
    lemma_numbers(b, end);
    lemma_numbers(b, end + 4);
}

/// The dimensions of a tensor.
proof fn lemma_dims(b: Seq<u8>, at: nat, n: nat)
    requires
        dims_at(b, at, n) is Ok,
    ensures
        ({
            let (dims, size) = dims_at(b, at, n)->Ok_0;
            &&& dims.len() == n
            &&& size == 8 * n
            &&& forall|j: int| 0 <= j < n ==> #[trigger] dims[j] == eight(b, at + 8 * j)
        }),
    decreases n,
{
    if n > 0 {
        lemma_dims(b, at, (n - 1) as nat);
        lemma_numbers(b, at + 8 * (n - 1));
    }
}

/// A file starts with `GGUF` and the number of its version, which is three, in
/// four bytes; how many tensors it has, in eight; and how many keys, in eight.
/// The first key stands behind that, and the first tensor behind the keys.
pub proof fn law_file_starts_as_it_should(b: Seq<u8>)
    requires
        head(b) is Ok,
    ensures
        ({
            let h = head(b)->Ok_0;
            &&& b[0] == 'G' as u8 && b[1] == 'G' as u8 && b[2] == 'U' as u8 && b[3] == 'F' as u8
            &&& four(b, 4) == 3
            &&& h.tensors.len() == eight(b, 8)
            &&& h.meta.len() == eight(b, 16)
            &&& metas_at(b, 24, h.meta.len()) matches Ok((meta, k))
            &&& meta == h.meta
            &&& tensors_at(b, 24 + k, h.tensors.len()) matches Ok((tensors, l))
            &&& tensors == h.tensors
            &&& h.size == 24 + k + l
        }),
{
    lemma_numbers(b, 4);
    lemma_numbers(b, 8);
    lemma_numbers(b, 16);
    let start = b.subrange(0, 4);
    assert(start[0] == b[0] && start[1] == b[1] && start[2] == b[2] && start[3] == b[3]);
    lemma_metas_len(b, 24, eight(b, 16) as nat);
    let k = metas_at(b, 24, eight(b, 16) as nat)->Ok_0.1;
    lemma_tensors_len(b, 24 + k, eight(b, 8) as nat);
}

/// As many keys as are read.
proof fn lemma_metas_len(b: Seq<u8>, at: nat, n: nat)
    requires
        metas_at(b, at, n) is Ok,
    ensures
        metas_at(b, at, n)->Ok_0.0.len() == n,
    decreases n,
{
    if n > 0 {
        lemma_metas_len(b, at, (n - 1) as nat);
    }
}

/// As many tensors as are read.
proof fn lemma_tensors_len(b: Seq<u8>, at: nat, n: nat)
    requires
        tensors_at(b, at, n) is Ok,
    ensures
        tensors_at(b, at, n)->Ok_0.0.len() == n,
    decreases n,
{
    if n > 0 {
        lemma_tensors_len(b, at, (n - 1) as nat);
    }
}

/// Keys stand one behind another, and so do tensors: the next one starts where
/// the one before it ends.
pub proof fn law_items_stand_in_a_row(b: Seq<u8>, at: nat, n: nat)
    ensures
        metas_at(b, at, n + 1) matches Ok((items, size)) ==> (metas_at(b, at, n) matches Ok(
            (some, k),
        ) && items.drop_last() == some && meta_at(b, at + k) == Ok::<_, Malformed>(
            (items.last(), (size - k) as nat),
        )),
        tensors_at(b, at, n + 1) matches Ok((items, size)) ==> (tensors_at(b, at, n) matches Ok(
            (some, k),
        ) && items.drop_last() == some && tensor_at(b, at + k) == Ok::<_, Malformed>(
            (items.last(), (size - k) as nat),
        )),
{
    if let Ok((some, k)) = metas_at(b, at, n) {
        if let Ok((item, more)) = meta_at(b, at + k) {
            assert(some.push(item).drop_last() =~= some);
        }
    }
    if let Ok((some, k)) = tensors_at(b, at, n) {
        if let Ok((item, more)) = tensor_at(b, at + k) {
            assert(some.push(item).drop_last() =~= some);
        }
    }
}

/// Tensor data starts at the first multiple of the alignment that is not
/// within the head; of 32 where the file does not say.
pub proof fn law_data_is_aligned(b: Seq<u8>)
    requires
        parsed(b) is Ok,
    ensures
        ({
            let (h, start) = parsed(b)->Ok_0;
            let k = alignment(table(h.meta));
            &&& k > 0
            &&& start % k == 0
            &&& h.size <= start < h.size + k
            &&& !table(h.meta).contains_key("general.alignment"@) ==> k == 32
            &&& table(h.meta).contains_key("general.alignment"@) ==> (
            table(h.meta)["general.alignment"@] matches Val::U32(n) ==> k == n)
        }),
{
    let (h, start) = parsed(b)->Ok_0;
    let k = alignment(table(h.meta));
    let n = h.size + k - 1;
    vstd::arithmetic::div_mod::lemma_fundamental_div_mod(n as int, k as int);
    vstd::arithmetic::div_mod::lemma_mod_bound(n as int, k as int);
    let q = n as int / k as int;
    assert(k as int * q == q * k as int) by (nonlinear_arith);
    assert(q >= 0) by (nonlinear_arith)
        requires
            k as int * q + n as int % k as int == n,
            n as int % (k as int) < k,
            n >= 0,
            k > 0,
    ;
    assert(q * k as int >= 0) by (nonlinear_arith)
        requires
            q >= 0,
            k > 0,
    ;
    assert(start == q * k as int);
    vstd::arithmetic::div_mod::lemma_mod_multiples_basic(q, k as int);
}

/// The bytes of a tensor are those of the file from its offset on behind the
/// start of the data: four for each number of type 0, two for each of type
/// 30, and of type 143 as many for each row as the blocks of it take.
pub proof fn law_tensor_has_its_bytes(g: &Gguf, d: Desc, bytes: Seq<u8>)
    requires
        g.holds(d) == Ok::<_, super::file::Lack>(bytes),
    ensures
        ({
            let at = g.start() + d.offset;
            let rows = product(d.dims.drop_first());
            &&& d.dims.len() > 0
            &&& at + bytes.len() <= g.file().len()
            &&& bytes == g.file().subrange(at as int, at + bytes.len())
            &&& d.dtype == 0 || d.dtype == 30 || d.dtype == 143
            &&& d.dtype == 0 ==> bytes.len() == 4 * (d.dims[0] * rows)
            &&& d.dtype == 30 ==> bytes.len() == 2 * (d.dims[0] * rows)
            &&& d.dtype == 143 ==> bytes.len() == rows * (d.dims[0] as nat / g.packs().block as nat
                * g.packs().block_bytes as nat)
            &&& d.dims.len() == 2 ==> rows == d.dims[1]
        }),
{
    let rows = product(d.dims.drop_first());
    let n = extent(d, g.packs())->Ok_0;
    assert(rows * (d.dims[0] * 4) == 4 * (d.dims[0] * rows)) by (nonlinear_arith);
    assert(rows * (d.dims[0] * 2) == 2 * (d.dims[0] * rows)) by (nonlinear_arith);
    if d.dims.len() == 2 {
        reveal_with_fuel(product, 2);
        let rest = d.dims.drop_first();
        assert(rest.drop_last() =~= Seq::empty());
        assert(rest.last() == d.dims[1]);
        assert(product(rest) == 1 * d.dims[1] as nat);
    }
}

} // verus!
