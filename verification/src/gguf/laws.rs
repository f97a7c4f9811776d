//! What was written to a file is what is found in it.
use vstd::prelude::*;

use super::file::{extent, parsed, Gguf, Lack};
use super::layout::{alignment, table};
use super::value::Val;
use super::writer::{
    desc_of, descs_of, image, law_data_reads_back, law_head_reads_back, lemma_descs_len,
    meta_storable, offset, pieces_storable, Piece, ALIGNMENT,
};

verus! {

/// Whether no two of some items have one name.
pub open spec fn distinct<T>(items: Seq<(Seq<char>, T)>) -> bool {
    forall|i: int, j: int|
        0 <= i < j < items.len() ==> (#[trigger] items[i]).0 != (#[trigger] items[j]).0
}

/// Whether an item has a name.
pub open spec fn named<T>(items: Seq<(Seq<char>, T)>, name: Seq<char>) -> bool {
    exists|i: int| 0 <= i < items.len() && (#[trigger] items[i]).0 == name
}

/// A table has the names of its items and no others, and where no two have
/// one name, it has every item under its own.
proof fn lemma_table<T>(items: Seq<(Seq<char>, T)>)
    requires
        distinct(items),
    ensures
        forall|i: int|
            0 <= i < items.len() ==> table(items).contains_key((#[trigger] items[i]).0)
                && table(items)[items[i].0] == items[i].1,
        forall|name: Seq<char>| #[trigger]
            table(items).contains_key(name) <==> named(items, name),
    decreases items.len(),
{
    if items.len() > 0 {
        let some = items.drop_last();
        let last = items.last();
        lemma_table(some);
        assert forall|i: int| 0 <= i < items.len() implies table(items).contains_key(
            (#[trigger] items[i]).0,
        ) && table(items)[items[i].0] == items[i].1 by {
            if i < some.len() {
                assert(some[i] == items[i]);
                assert(items[i].0 != items[items.len() - 1].0);
            }
        }
        assert forall|name: Seq<char>| #[trigger]
            table(items).contains_key(name) <==> named(items, name) by {
            if table(items).contains_key(name) && name != last.0 {
                assert(table(some).contains_key(name));
                let i = choose|i: int| 0 <= i < some.len() && (#[trigger] some[i]).0 == name;
                assert(items[i].0 == name);
            }
            if name == last.0 {
                assert(items[items.len() - 1].0 == name);
            }
            if named(items, name) && name != last.0 {
                let i = choose|i: int| 0 <= i < items.len() && (#[trigger] items[i]).0 == name;
                assert(some[i].0 == name);
            }
        }
    }
}

/// A file that is written of keys and tensors reads, and what is asked of it
/// is what was written: every key has its value and no other key has one,
/// there is a tensor of every name and no other, what is said of each is what
/// was given, and its bytes are the data, where there is as much of it as its
/// dimensions and its type call for.
pub proof fn law_written_is_read<'a>(
    g: &Gguf<'a>,
    meta: Seq<(Seq<char>, Val)>,
    pieces: Seq<Piece>,
)
    requires
        meta_storable(meta),
        pieces_storable(pieces),
        distinct(meta),
        forall|i: int, j: int|
            0 <= i < j < pieces.len() ==> (#[trigger] pieces[i]).name != (#[trigger] pieces[j]).name,
        alignment(table(meta)) == ALIGNMENT,
        image(meta, pieces).len() <= u64::MAX,
        meta.len() <= u64::MAX,
        pieces.len() <= u64::MAX,
    ensures
        parsed(image(meta, pieces)) is Ok,
        g.reads(image(meta, pieces)) ==> {
            &&& forall|i: int|
                0 <= i < meta.len() ==> g.meta_map().contains_key((#[trigger] meta[i]).0)
                    && g.meta_map()[meta[i].0] == meta[i].1
            &&& forall|key: Seq<char>| #[trigger]
                g.meta_map().contains_key(key) <==> named(meta, key)
            &&& forall|i: int|
                0 <= i < pieces.len() ==> g.tensor_map().contains_key((#[trigger] pieces[i]).name)
                    && {
                    let d = g.tensor_map()[pieces[i].name];
                    &&& d.dims == pieces[i].dims
                    &&& d.dtype == pieces[i].dtype
                    &&& (extent(d, g.packs()) matches Ok(n) && n == pieces[i].data.len()
                        <= usize::MAX) ==> g.holds(d) == Ok::<Seq<u8>, Lack>(pieces[i].data)
                }
            &&& forall|name: Seq<char>| #[trigger]
                g.tensor_map().contains_key(name) <==> exists|i: int|
                    0 <= i < pieces.len() && (#[trigger] pieces[i]).name == name
        },
{
    let b = image(meta, pieces);
    law_head_reads_back(meta, pieces);
    if g.reads(b) {
        let descs = descs_of(pieces);
        lemma_descs_len(pieces);
        assert forall|i: int| 0 <= i < pieces.len() implies #[trigger] descs[i] == desc_of(
            pieces[i],
            offset(pieces.take(i)),
        ) by {
            law_data_reads_back(meta, pieces, i);
        }
        assert(distinct(descs)) by {
            assert forall|i: int, j: int| 0 <= i < j < descs.len() implies (#[trigger] descs[i]).0
                != (#[trigger] descs[j]).0 by {
                assert(pieces[i].name != pieces[j].name);
            }
        }
        lemma_table(meta);
        lemma_table(descs);
        assert forall|i: int| 0 <= i < pieces.len() implies g.tensor_map().contains_key(
            (#[trigger] pieces[i]).name,
        ) && {
            let d = g.tensor_map()[pieces[i].name];
            &&& d.dims == pieces[i].dims
            &&& d.dtype == pieces[i].dtype
            &&& (extent(d, g.packs()) matches Ok(n) && n == pieces[i].data.len() <= usize::MAX)
                ==> g.holds(d) == Ok::<Seq<u8>, Lack>(pieces[i].data)
        } by {
            law_data_reads_back(meta, pieces, i);
            assert(descs[i].0 == pieces[i].name);
        }
        assert forall|name: Seq<char>| #[trigger]
            g.tensor_map().contains_key(name) <==> exists|i: int|
                0 <= i < pieces.len() && (#[trigger] pieces[i]).name == name by {
            if named(descs, name) {
                let i = choose|i: int| 0 <= i < descs.len() && (#[trigger] descs[i]).0 == name;
                assert(pieces[i].name == name);
            }
            if exists|i: int| 0 <= i < pieces.len() && (#[trigger] pieces[i]).name == name {
                let i = choose|i: int| 0 <= i < pieces.len() && (#[trigger] pieces[i]).name == name;
                assert(descs[i].0 == name);
            }
        }
    }
}

} // verus!
