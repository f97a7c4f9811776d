//! The files of a directory, as the model is told of them.
use vstd::prelude::*;
use vstd::seq_lib::{group_to_multiset_ensures, to_multiset_insert};

use crate::text::{
    chars, is_before, lemma_ordered_total, lemma_ordered_trans, ordered, own, texts,
};

verus! {

/// Most of the files in the working directory the system prompt lists.
pub const MAX_FILES: usize = 50;

/// A name in a directory, and whether it is that of a directory.
pub type Named = (String, bool);

/// How a name is listed: not at all if it is hidden, and with a slash if it is
/// that of a directory.
pub open spec fn listed(name: Seq<char>, dir: bool) -> Option<Seq<char>> {
    if name.len() > 0 && name[0] == '.' {
        None
    } else if dir {
        Some(name + "/"@)
    } else {
        Some(name)
    }
}

/// The names that are listed, in the order they come in.
pub open spec fn all_listed(names: Seq<Named>) -> Seq<Seq<char>>
    decreases names.len(),
{
    if names.len() == 0 {
        Seq::empty()
    } else {
        let before = all_listed(names.drop_last());
        match listed(names.last().0@, names.last().1) {
            Some(s) => before.push(s),
            None => before,
        }
    }
}

/// Whether no text stands before one that it comes behind.
pub open spec fn in_order(s: Seq<Seq<char>>) -> bool {
    forall|i: int, j: int| 0 <= i < j < s.len() ==> !ordered(#[trigger] s[j], #[trigger] s[i])
}

/// Texts with a space between any two.
pub open spec fn spaced(s: Seq<Seq<char>>) -> Seq<char>
    decreases s.len(),
{
    if s.len() == 0 {
        Seq::empty()
    } else if s.len() == 1 {
        s[0]
    } else {
        spaced(s.drop_last()) + " "@ + s.last()
    }
}

/// The first of the names, and an ellipsis if there are more.
pub open spec fn listing(s: Seq<Seq<char>>) -> Seq<char> {
    if s.len() > MAX_FILES {
        spaced(s.take(MAX_FILES as int).push("…"@))
    } else {
        spaced(s)
    }
}

/// Puts a text behind those that do not come after it.
fn put(names: &mut Vec<String>, name: String)
    requires
        in_order(texts(old(names)@)),
    ensures
        in_order(texts(final(names)@)),
        texts(final(names)@).to_multiset() == texts(old(names)@).to_multiset().insert(name@),
{
    let ghost before = texts(names@);
    let mut p: usize = names.len();
    while p > 0 && is_before(name.as_str(), names[p - 1].as_str())
        invariant
            p <= names@.len(),
            names@ == old(names)@,
            before == texts(names@),
            forall|i: int| p <= i < before.len() ==> ordered(name@, #[trigger] before[i]),
        decreases p,
    {
        p = p - 1;
    }
    let ghost t = name@;
    names.insert(p, name);
    proof {
        let after = texts(names@);
        assert(after =~= before.insert(p as int, t));
        to_multiset_insert(before, p as int, t);
        assert forall|i: int, j: int| 0 <= i < j < after.len() implies !ordered(
            #[trigger] after[j],
            #[trigger] after[i],
        ) by {
            if j < p {
                assert(after[i] == before[i] && after[j] == before[j]);
            } else if j == p {
                // What stands before the place does not come after the text:
                // the last of it does not, and the rest not after that.
                assert(after[i] == before[i]);
                lemma_ordered_total(t, before[p - 1]);
                lemma_ordered_total(t, before[i]);
                if ordered(t, before[i]) && i < p - 1 {
                    lemma_ordered_total(before[i], before[p - 1]);
                    if before[i] != before[p - 1] {
                        lemma_ordered_trans(t, before[i], before[p - 1]);
                    }
                }
            } else if i < p {
                assert(after[i] == before[i] && after[j] == before[j - 1]);
            } else if i == p {
                assert(after[j] == before[j - 1]);
                lemma_ordered_total(t, before[j - 1]);
            } else {
                assert(after[i] == before[i - 1] && after[j] == before[j - 1]);
            }
        }
    }
}

/// Texts with a space between any two.
fn join(names: &[String]) -> (s: String)
    ensures
        s@ == spaced(texts(names@)),
{
    let ghost t = texts(names@);
    let mut s = String::new();
    let mut i: usize = 0;
    assert(t.take(0) =~= Seq::empty());
    while i < names.len()
        invariant
            i <= names@.len(),
            t == texts(names@),
            s@ == spaced(t.take(i as int)),
        decreases names@.len() - i,
    {
        if i > 0 {
            s.append(" ");
        }
        s.append(names[i].as_str());
        proof {
            assert(t.take(i + 1).drop_last() =~= t.take(i as int));
            assert(s@ =~= spaced(t.take(i + 1)));
        }
        i = i + 1;
    }
    assert(t.take(t.len() as int) =~= t);
    s
}

/// The files and directories of a directory, directories with a trailing
/// slash, leaving out hidden ones: in order, and the first of them if there
/// are many.
pub fn files(entries: &[Named]) -> (out: String)
    ensures
        exists|s: Seq<Seq<char>>|
            in_order(s) && s.to_multiset() == all_listed(entries@).to_multiset() && out@
                == #[trigger] listing(s),
{
    let mut names: Vec<String> = Vec::new();
    let mut i: usize = 0;
    assert(entries@.take(0) =~= Seq::empty());
    assert(texts(names@) =~= Seq::empty());
    while i < entries.len()
        invariant
            i <= entries@.len(),
            in_order(texts(names@)),
            texts(names@).to_multiset() == all_listed(entries@.take(i as int)).to_multiset(),
        decreases entries@.len() - i,
    {
        proof {
            assert(entries@.take(i + 1).drop_last() =~= entries@.take(i as int));
            assert(entries@.take(i + 1).last() == entries@[i as int]);
        }
        let ghost before = all_listed(entries@.take(i as int));
        let entry = &entries[i];
        let name = chars(entry.0.as_str());
        if name.len() > 0 && name[0] == '.' {
        } else {
            let mut s = own(entry.0.as_str());
            if entry.1 {
                s.append("/");
            }
            proof {
                broadcast use group_to_multiset_ensures;

                let t = s@;
                assert(before.push(t).to_multiset() =~= before.to_multiset().insert(t));
            }
            put(&mut names, s);
        }
        i = i + 1;
    }
    assert(entries@.take(entries@.len() as int) =~= entries@);
    let ghost s = texts(names@);
    if names.len() > MAX_FILES {
        names.truncate(MAX_FILES);
        names.push(own("…"));
        assert(texts(names@) =~= s.take(MAX_FILES as int).push("…"@));
    }
    let out = join(names.as_slice());
    assert(out@ == listing(s));
    out
}

} // verus!
