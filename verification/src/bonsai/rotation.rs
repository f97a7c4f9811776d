//! What the file says of the rotation: which weights it was folded into, and
//! its signs.
use vstd::multiset::Multiset;
use vstd::prelude::*;

use super::config::{fault_if, first, Meta};
use crate::device::Device;
use crate::gguf::value::{lemma_vals, vals, Val};
use crate::gguf::{Gguf, Number, Value};
use crate::text::{own, same_text, texts};

verus! {

/// The bits of one.
pub const ONE: u32 = 0x3f80_0000;

/// The bits of minus one.
pub const MINUS_ONE: u32 = 0xbf80_0000;

/// What is wrong with the array under a key.
pub open spec fn no_array(meta: Meta, key: Seq<char>) -> Option<Seq<char>> {
    if !meta.contains_key(key) {
        Some("missing metadata '"@ + key + "'"@)
    } else {
        fault_if(!(meta[key] is Array), "metadata '"@ + key + "' is not an array"@)
    }
}

/// The array under a key, or what is wrong with it.
fn read_array<'b>(gguf: &'b Gguf, key: &str) -> (r: Result<&'b [Value], String>)
    ensures
        match r {
            Ok(values) => no_array(gguf.meta_map(), key@) is None && gguf.meta_map()[key@]->Array_0
                == vals(values@),
            Err(e) => no_array(gguf.meta_map(), key@) == Some(e@),
        },
{
    match gguf.array(key) {
        Ok(values) => Ok(values),
        Err(e) => Err(e.message()),
    }
}

/// The texts among values.
pub open spec fn strings(values: Seq<Val>) -> Seq<Seq<char>>
    decreases values.len(),
{
    if values.len() == 0 {
        Seq::empty()
    } else {
        let rest = strings(values.drop_last());
        match values.last() {
            Val::Str(s) => rest.push(s),
            _ => rest,
        }
    }
}

/// What is wrong with the names of the rotated weights, where those that the
/// forward pass rotates activations for are `rotated`: they must be the same,
/// in whatever order.
pub open spec fn misnamed(meta: Meta, rotated: Seq<Seq<char>>) -> Option<Seq<char>> {
    let listed = meta["prism.hadamard.weight_names"@]->Array_0;
    first(
        no_array(meta, "prism.hadamard.weight_names"@),
        first(
            fault_if(
                exists|i: int| 0 <= i < listed.len() && !(#[trigger] listed[i] is Str),
                "invalid weight name"@,
            ),
            fault_if(
                strings(listed).to_multiset() != rotated.to_multiset(),
                "the rotated weights are not the ones the model expects"@,
            ),
        ),
    )
}

/// What is wrong with the names of the weights that are rotated back.
pub open spec fn misnamed_inverse(meta: Meta) -> Option<Seq<char>> {
    first(
        no_array(meta, "prism.hadamard.inverse_weight_names"@),
        fault_if(
            strings(meta["prism.hadamard.inverse_weight_names"@]->Array_0) != seq![
                "token_embd.weight"@,
            ],
            "the embedding table is not rotated as the model expects"@,
        ),
    )
}

/// Takes each of `names` out of a pool, and tells whether that empties it.
fn same_names(names: &[Value], rotated: Vec<String>) -> (r: bool)
    requires
        forall|i: int| 0 <= i < names@.len() ==> #[trigger] vals(names@)[i] is Str,
    ensures
        r == (strings(vals(names@)).to_multiset() == texts(rotated@).to_multiset()),
{
    let ghost all = texts(rotated@).to_multiset();
    let mut pool = rotated;
    let n: usize = names.len();
    let mut i: usize = 0;
    let ghost list = vals(names@);
    proof {
        lemma_vals(names@);
        assert(list.take(0) =~= Seq::empty());
        Seq::<Seq<char>>::empty().to_multiset_ensures();
        assert(Seq::<Seq<char>>::empty().to_multiset() =~= Multiset::empty());
        assert(Multiset::empty().add(all) =~= all);
    }
    while i < n
        invariant
            n == names@.len(),
            i <= n,
            list == vals(names@),
            all == texts(rotated@).to_multiset(),
            list.len() == n,
            forall|j: int| 0 <= j < n ==> #[trigger] list[j] == names@[j].val(),
            forall|j: int| 0 <= j < n ==> #[trigger] list[j] is Str,
            strings(list.take(i as int)).to_multiset().add(texts(pool@).to_multiset()) == all,
        decreases n - i,
    {
        assert(list[i as int] is Str);
        let name: &str = match names[i].as_str() {
            Some(s) => s,
            None => {
                return false;
            },
        };
        let mut j: usize = 0;
        while j < pool.len() && !same_text(&pool[j], name)
            invariant
                j <= pool@.len(),
                forall|k: int| 0 <= k < j ==> (#[trigger] pool@[k])@ != name@,
            decreases pool@.len() - j,
        {
            j = j + 1;
        }
        let ghost before = strings(list.take(i as int));
        let ghost after = strings(list.take(i + 1));
        proof {
            assert(list.take(i + 1).drop_last() =~= list.take(i as int));
            assert(after == before.push(name@));
            before.to_multiset_ensures();
            texts(pool@).to_multiset_ensures();
        }
        if j == pool.len() {
            proof {
                assert(!texts(pool@).contains(name@));
                // One name more than there are in the pool.
                lemma_strings_grow(list, i + 1);
                assert(list.take(list.len() as int) =~= list);
                assert(strings(list).to_multiset().count(name@) >= after.to_multiset().count(
                    name@,
                ));
                assert(all.count(name@) == before.to_multiset().count(name@));
            }
            return false;
        }
        proof {
            assert(texts(pool@.remove(j as int)) =~= texts(pool@).remove(j as int));
            let rest = texts(pool@).remove(j as int).to_multiset();
            assert(after.to_multiset().add(rest) =~= before.to_multiset().add(
                texts(pool@).to_multiset(),
            ));
        }
        pool.remove(j);
        i = i + 1;
    }
    proof {
        assert(list.take(n as int) =~= list);
        texts(pool@).to_multiset_ensures();
        let left = texts(pool@).to_multiset();
        let taken = strings(list).to_multiset();
        if pool@.len() == 0 {
            assert(texts(pool@) =~= Seq::empty());
            assert(taken.add(left) =~= taken);
        } else {
            let x = texts(pool@)[0];
            assert(texts(pool@).contains(x));
            assert(left.count(x) > 0);
            assert(all.count(x) == taken.count(x) + left.count(x));
        }
    }
    pool.len() == 0
}

/// More values have more texts among them.
proof fn lemma_strings_grow(list: Seq<Val>, i: int)
    requires
        0 <= i <= list.len(),
    ensures
        forall|s: Seq<char>| #[trigger]
            strings(list).to_multiset().count(s) >= strings(list.take(i)).to_multiset().count(s),
    decreases list.len() - i,
{
    if i < list.len() {
        lemma_strings_grow(list, i + 1);
        assert(list.take(i + 1).drop_last() =~= list.take(i));
        strings(list.take(i)).to_multiset_ensures();
    } else {
        assert(list.take(i) =~= list);
    }
}

/// That the file names the weights that the model has rotated, or what is
/// wrong with its names.
pub fn check_names(gguf: &Gguf, rotated: Vec<String>) -> (r: Result<(), String>)
    ensures
        match r {
            Ok(_) => misnamed(gguf.meta_map(), texts(rotated@)) is None,
            Err(e) => misnamed(gguf.meta_map(), texts(rotated@)) == Some(e@),
        },
{
    let listed = match read_array(gguf, "prism.hadamard.weight_names") {
        Ok(values) => values,
        Err(e) => {
            return Err(e);
        },
    };
    proof {
        lemma_vals(listed@);
    }
    let mut i: usize = 0;
    while i < listed.len()
        invariant
            i <= listed@.len(),
            vals(listed@).len() == listed@.len(),
            forall|j: int| 0 <= j < listed@.len() ==> #[trigger] vals(listed@)[j] == listed@[j].val(),
            forall|j: int| 0 <= j < i ==> #[trigger] vals(listed@)[j] is Str,
            no_array(gguf.meta_map(), "prism.hadamard.weight_names"@) is None,
            gguf.meta_map()["prism.hadamard.weight_names"@]->Array_0 == vals(listed@),
        decreases listed@.len() - i,
    {
        if listed[i].as_str().is_none() {
            assert(!(vals(listed@)[i as int] is Str));
            return Err(own("invalid weight name"));
        }
        assert(vals(listed@)[i as int] is Str);
        i = i + 1;
    }
    if same_names(listed, rotated) {
        Ok(())
    } else {
        Err(own("the rotated weights are not the ones the model expects"))
    }
}

/// That the embedding table alone is rotated back, or what is wrong.
pub fn check_inverse(gguf: &Gguf) -> (r: Result<(), String>)
    ensures
        match r {
            Ok(_) => misnamed_inverse(gguf.meta_map()) is None,
            Err(e) => misnamed_inverse(gguf.meta_map()) == Some(e@),
        },
{
    let listed = match read_array(gguf, "prism.hadamard.inverse_weight_names") {
        Ok(values) => values,
        Err(e) => {
            return Err(e);
        },
    };
    let ghost list = vals(listed@);
    proof {
        lemma_vals(listed@);
        assert(list.take(0) =~= Seq::empty());
    }
    let mut count: usize = 0;
    let mut same: bool = true;
    let mut i: usize = 0;
    while i < listed.len()
        invariant
            i <= listed@.len(),
            list == vals(listed@),
            list.len() == listed@.len(),
            forall|j: int| 0 <= j < listed@.len() ==> #[trigger] list[j] == listed@[j].val(),
            count <= i,
            strings(list.take(i as int)).len() == count,
            same == forall|j: int|
                0 <= j < count ==> #[trigger] strings(list.take(i as int))[j]
                    == "token_embd.weight"@,
        decreases listed@.len() - i,
    {
        let ghost before = strings(list.take(i as int));
        proof {
            assert(list.take(i + 1).drop_last() =~= list.take(i as int));
            assert(list.take(i + 1).last() == listed@[i as int].val());
        }
        match listed[i].as_str() {
            Some(s) => {
                let ghost after = strings(list.take(i + 1));
                assert(after == before.push(s@));
                proof {
                    if same && s@ == "token_embd.weight"@ {
                        assert forall|j: int| 0 <= j < count + 1 implies #[trigger] after[j]
                            == "token_embd.weight"@ by {
                            if j < count {
                                assert(after[j] == before[j]);
                            }
                        }
                    } else if same {
                        assert(after[count as int] != "token_embd.weight"@);
                    } else {
                        let j = choose|j: int|
                            0 <= j < count && #[trigger] before[j] != "token_embd.weight"@;
                        assert(after[j] == before[j]);
                    }
                }
                same = same && same_text(s, "token_embd.weight");
                count = count + 1;
            },
            None => {},
        }
        i = i + 1;
    }
    proof {
        assert(list.take(list.len() as int) =~= list);
        let all = strings(list);
        if count == 1 && same {
            assert(all[0] == "token_embd.weight"@);
            assert(all =~= seq!["token_embd.weight"@]);
        } else if all == seq!["token_embd.weight"@] {
            assert(all.len() == 1);
            assert(!same);
        }
    }
    if count == 1 && same {
        Ok(())
    } else {
        Err(own("the embedding table is not rotated as the model expects"))
    }
}

/// The bits of one or of minus one, where a value, as a number of 32 bits, is
/// either. Of the numbers of 64 bits, those that round to one are meant.
pub open spec fn sign_of(v: Val) -> Option<u32> {
    match v.number() {
        Some(Number::F32(b)) => if b == ONE || b == MINUS_ONE {
            Some(b)
        } else {
            None
        },
        Some(Number::F64(b)) => if 0x3fef_ffff_f000_0000 <= b <= 0x3ff0_0000_1000_0000 {
            Some(ONE)
        } else if 0xbfef_ffff_f000_0000 <= b <= 0xbff0_0000_1000_0000 {
            Some(MINUS_ONE)
        } else {
            None
        },
        Some(Number::Int(n)) => if n == 1 {
            Some(ONE)
        } else if n == -1 {
            Some(MINUS_ONE)
        } else {
            None
        },
        None => None,
    }
}

/// The bits of a sign.
fn read_sign(v: &Value) -> (r: Option<u32>)
    ensures
        r == sign_of(v.val()),
{
    match v.number() {
        Some(Number::F32(b)) => if b == ONE || b == MINUS_ONE {
            Some(b)
        } else {
            None
        },
        Some(Number::F64(b)) => if 0x3fef_ffff_f000_0000 <= b && b <= 0x3ff0_0000_1000_0000 {
            Some(ONE)
        } else if 0xbfef_ffff_f000_0000 <= b && b <= 0xbff0_0000_1000_0000 {
            Some(MINUS_ONE)
        } else {
            None
        },
        Some(Number::Int(n)) => if n == 1 {
            Some(ONE)
        } else if n == -1 {
            Some(MINUS_ONE)
        } else {
            None
        },
        None => None,
    }
}

/// Signs by the width of the activations they apply to.
pub type SignList = Seq<(int, Seq<u32>)>;

/// The signs for the first `k` widths, taken in turn from the values, and how
/// many values they take; or what is wrong with them.
pub open spec fn signs_upto(widths: Seq<Val>, values: Seq<Val>, k: int) -> Result<
    (SignList, int),
    Seq<char>,
>
    decreases k,
{
    if k <= 0 {
        Ok((Seq::empty(), 0))
    } else {
        match signs_upto(widths, values, k - 1) {
            Err(e) => Err(e),
            Ok((list, at)) => match widths[k - 1].integer() {
                None => Err("invalid sign width"@),
                Some(w) => if w < 0 || at + w > values.len() {
                    Err("too few rotation signs"@)
                } else if exists|i: int| at <= i < at + w && sign_of(#[trigger] values[i]) is None {
                    Err("rotation signs must be 1 or -1"@)
                } else {
                    Ok(
                        (
                            list.push(
                                (
                                    w as int,
                                    Seq::new(w as nat, |i: int| sign_of(values[at + i])->0),
                                ),
                            ),
                            at + w,
                        ),
                    )
                },
            },
        }
    }
}

/// A fault in the first widths stays one.
proof fn lemma_signs_err(widths: Seq<Val>, values: Seq<Val>, k: int, n: int)
    requires
        k <= n,
        signs_upto(widths, values, k) is Err,
    ensures
        signs_upto(widths, values, n) == signs_upto(widths, values, k),
    decreases n - k,
{
    if k < n {
        if n > 0 {
            lemma_signs_err(widths, values, k, n - 1);
        }
    }
}

/// What is wrong with the signs.
pub open spec fn no_signs(meta: Meta) -> Option<Seq<char>> {
    let widths = meta["prism.hadamard.sign_widths"@]->Array_0;
    let values = meta["prism.hadamard.sign_values"@]->Array_0;
    first(
        no_array(meta, "prism.hadamard.sign_widths"@),
        first(
            no_array(meta, "prism.hadamard.sign_values"@),
            match signs_upto(widths, values, widths.len() as int) {
                Ok(_) => None,
                Err(e) => Some(e),
            },
        ),
    )
}

/// The signs.
pub open spec fn signs_in(meta: Meta) -> SignList {
    let widths = meta["prism.hadamard.sign_widths"@]->Array_0;
    let values = meta["prism.hadamard.sign_values"@]->Array_0;
    let (list, _) = signs_upto(widths, values, widths.len() as int)->Ok_0;
    list
}

/// What signs on a device are.
pub open spec fn listed<D: Device>(signs: Seq<(usize, D::Buffer)>) -> SignList {
    Seq::new(signs.len(), |i: int| (signs[i].0 as int, D::data(&signs[i].1)))
}

/// Copies out `n` signs from a place on, or nothing where one is none.
fn take_signs(values: &[Value], at: usize, n: usize) -> (r: Option<Vec<u32>>)
    requires
        at + n <= values@.len(),
    ensures
        match r {
            Some(out) => (forall|i: int|
                at <= i < at + n ==> sign_of(#[trigger] vals(values@)[i]) is Some) && out@
                == Seq::new(n as nat, |i: int| sign_of(vals(values@)[at + i])->0),
            None => exists|i: int|
                at <= i < at + n && sign_of(#[trigger] vals(values@)[i]) is None,
        },
{
    proof {
        lemma_vals(values@);
    }
    let len: usize = values.len();
    let mut out: Vec<u32> = Vec::new();
    let mut i: usize = 0;
    while i < n
        invariant
            i <= n,
            at + n <= len == values@.len(),
            vals(values@).len() == values@.len(),
            forall|j: int| 0 <= j < values@.len() ==> #[trigger] vals(values@)[j] == values@[j].val(),
            out@.len() == i,
            forall|j: int|
                at <= j < at + i ==> sign_of(#[trigger] vals(values@)[j]) == Some(out@[j - at]),
        decreases n - i,
    {
        assert(vals(values@)[at + i] == values@[at + i].val());
        match read_sign(&values[at + i]) {
            Some(b) => out.push(b),
            None => {
                return None;
            },
        }
        i = i + 1;
    }
    proof {
        let want = Seq::new(n as nat, |i: int| sign_of(vals(values@)[at + i])->0);
        assert forall|j: int| 0 <= j < n implies #[trigger] out@[j] == want[j] by {
            assert(sign_of(vals(values@)[at + j]) == Some(out@[at + j - at]));
        }
        assert(out@ =~= want);
    }
    Some(out)
}

/// Uploads the signs, or tells what is wrong with them.
pub fn read_signs<D: Device>(gguf: &Gguf, d: &D) -> (r: Result<Vec<(usize, D::Buffer)>, String>)
    ensures
        match r {
            Ok(signs) => no_signs(gguf.meta_map()) is None && listed::<D>(signs@) == signs_in(
                gguf.meta_map(),
            ),
            Err(e) => no_signs(gguf.meta_map()) == Some(e@),
        },
{
    let widths = match read_array(gguf, "prism.hadamard.sign_widths") {
        Ok(values) => values,
        Err(e) => {
            return Err(e);
        },
    };
    let values = match read_array(gguf, "prism.hadamard.sign_values") {
        Ok(values) => values,
        Err(e) => {
            return Err(e);
        },
    };
    let ghost (ws, vs) = (vals(widths@), vals(values@));
    proof {
        lemma_vals(widths@);
        lemma_vals(values@);
    }
    let count: usize = values.len();
    let mut signs: Vec<(usize, D::Buffer)> = Vec::new();
    let mut at: usize = 0;
    let mut k: usize = 0;
    assert(listed::<D>(signs@) =~= Seq::empty());
    while k < widths.len()
        invariant
            k <= widths@.len(),
            at <= count == values@.len(),
            ws == vals(widths@),
            vs == vals(values@),
            ws.len() == widths@.len(),
            vs.len() == values@.len(),
            forall|j: int| 0 <= j < ws.len() ==> #[trigger] ws[j] == widths@[j].val(),
            signs_upto(ws, vs, k as int) == Ok::<(SignList, int), Seq<char>>(
                (listed::<D>(signs@), at as int),
            ),
            no_array(gguf.meta_map(), "prism.hadamard.sign_widths"@) is None,
            no_array(gguf.meta_map(), "prism.hadamard.sign_values"@) is None,
            gguf.meta_map()["prism.hadamard.sign_widths"@]->Array_0 == ws,
            gguf.meta_map()["prism.hadamard.sign_values"@]->Array_0 == vs,
        decreases widths@.len() - k,
    {
        assert(ws[k as int] == widths@[k as int].val());
        let width: i64 = match widths[k].as_i64() {
            Some(w) => w,
            None => {
                proof {
                    lemma_signs_err(ws, vs, k + 1, ws.len() as int);
                }
                return Err(own("invalid sign width"));
            },
        };
        if width < 0 || width as u64 > (count - at) as u64 {
            proof {
                lemma_signs_err(ws, vs, k + 1, ws.len() as int);
            }
            return Err(own("too few rotation signs"));
        }
        let width: usize = width as usize;
        let bits = match take_signs(values, at, width) {
            Some(bits) => bits,
            None => {
                proof {
                    lemma_signs_err(ws, vs, k + 1, ws.len() as int);
                }
                return Err(own("rotation signs must be 1 or -1"));
            },
        };
        let mut buf = d.alloc_buffer(width);
        d.write(&mut buf, bits.as_slice());
        proof {
            assert(forall|i: int|
                at <= i < at + width ==> sign_of(#[trigger] vs[i]) is Some);
            assert(listed::<D>(signs@.push((width, buf))) =~= listed::<D>(signs@).push(
                (width as int, D::data(&buf)),
            ));
        }
        signs.push((width, buf));
        at = at + width;
        k = k + 1;
    }
    Ok(signs)
}

/// The signs for activations of a width: the first of that width.
pub open spec fn signs_for(list: SignList, width: int) -> Option<Seq<u32>>
    decreases list.len(),
{
    if list.len() == 0 {
        None
    } else if list[0].0 == width {
        Some(list[0].1)
    } else {
        signs_for(list.drop_first(), width)
    }
}

/// Signs are as many as their width.
pub proof fn lemma_signs_for(list: SignList, width: int)
    requires
        forall|i: int| 0 <= i < list.len() ==> (#[trigger] list[i]).1.len() == list[i].0,
    ensures
        signs_for(list, width) matches Some(s) ==> s.len() == width,
    decreases list.len(),
{
    if list.len() > 0 && list[0].0 != width {
        assert forall|i: int| 0 <= i < list.len() - 1 implies (
        #[trigger] list.drop_first()[i]).1.len() == list.drop_first()[i].0 by {
            assert(list[i + 1].1.len() == list[i + 1].0);
        }
        lemma_signs_for(list.drop_first(), width);
    }
}

/// Signs that are read are as many as their width.
pub proof fn lemma_signs_read(widths: Seq<Val>, values: Seq<Val>, k: int)
    ensures
        signs_upto(widths, values, k) matches Ok((list, at)) ==> forall|i: int|
            0 <= i < list.len() ==> (#[trigger] list[i]).1.len() == list[i].0,
    decreases k,
{
    if k > 0 {
        lemma_signs_read(widths, values, k - 1);
    }
}

/// Finds the signs for activations of a width.
pub fn find_signs<D: Device>(signs: &Vec<(usize, D::Buffer)>, width: usize) -> (r: Option<
    &D::Buffer,
>)
    ensures
        match r {
            Some(b) => signs_for(listed::<D>(signs@), width as int) == Some(D::data(b)),
            None => signs_for(listed::<D>(signs@), width as int) is None,
        },
{
    let ghost list = listed::<D>(signs@);
    let mut i: usize = 0;
    assert(list.skip(0) =~= list);
    while i < signs.len()
        invariant
            i <= signs@.len(),
            list == listed::<D>(signs@),
            signs_for(list, width as int) == signs_for(list.skip(i as int), width as int),
        decreases signs@.len() - i,
    {
        if signs[i].0 == width {
            return Some(&signs[i].1);
        }
        assert(list.skip(i as int).drop_first() =~= list.skip(i + 1));
        i = i + 1;
    }
    None
}

} // verus!
