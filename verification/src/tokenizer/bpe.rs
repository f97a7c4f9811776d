//! Merging the tokens of a word.
use std::collections::HashMap;

use vstd::prelude::*;

verus! {

/// What pairs of adjacent tokens merge to: for a pair's key, the merge's rank
/// and the merged token.
pub type Merges = HashMap<u64, (usize, u32)>;

/// The number a pair of tokens is found by.
pub open spec fn pair_key(a: u32, b: u32) -> u64 {
    (a * 0x1_0000_0000 + b) as u64
}

/// Pairs that differ have keys that differ.
pub proof fn lemma_pair_key(a: u32, b: u32, c: u32, d: u32)
    ensures
        pair_key(a, b) == pair_key(c, d) <==> a == c && b == d,
{
}

/// The number a pair of tokens is found by.
pub fn key(a: u32, b: u32) -> (k: u64)
    ensures
        k == pair_key(a, b),
{
    a as u64 * 0x1_0000_0000 + b as u64
}

/// What the pair at a position merges to.
pub open spec fn merge_at(merges: Map<u64, (usize, u32)>, parts: Seq<u32>, i: int) -> Option<
    (usize, u32),
> {
    if 0 <= i < parts.len() - 1 && merges.contains_key(pair_key(parts[i], parts[i + 1])) {
        Some(merges[pair_key(parts[i], parts[i + 1])])
    } else {
        None
    }
}

/// Whether the pair at a position is the one to merge next: of the lowest
/// rank, and the first of those.
pub open spec fn is_next(merges: Map<u64, (usize, u32)>, parts: Seq<u32>, i: int) -> bool {
    &&& merge_at(merges, parts, i) is Some
    &&& forall|j: int|
        (#[trigger] merge_at(merges, parts, j)) matches Some((rank, _)) ==> {
            let (own, _) = merge_at(merges, parts, i)->0;
            own < rank || (own == rank && i <= j)
        }
}

/// The parts with the pair at a position replaced by one token.
pub open spec fn merged(parts: Seq<u32>, i: int, token: u32) -> Seq<u32> {
    parts.update(i, token).remove(i + 1)
}

/// The parts once no merge applies.
pub open spec fn bpe(merges: Map<u64, (usize, u32)>, parts: Seq<u32>) -> Seq<u32>
    decreases parts.len(),
{
    if exists|i: int| is_next(merges, parts, i) {
        let i = choose|i: int| is_next(merges, parts, i);
        bpe(merges, merged(parts, i, (merge_at(merges, parts, i)->0).1))
    } else {
        parts
    }
}

/// The tokens of single bytes.
pub open spec fn singles(bytes: Seq<u32>, word: Seq<u8>) -> Seq<u32> {
    Seq::new(word.len(), |i: int| bytes[word[i] as int])
}

/// Appends the tokens of a word.
pub fn merge(merges: &Merges, bytes: &[u32], word: &[u8], out: &mut Vec<u32>)
    requires
        bytes@.len() == 256,
    ensures
        final(out)@ == old(out)@ + bpe(merges@, singles(bytes@, word@)),
{
    broadcast use vstd::std_specs::hash::group_hash_axioms;

    let mut parts: Vec<u32> = Vec::new();
    let mut i: usize = 0;
    while i < word.len()
        invariant
            i <= word@.len(),
            bytes@.len() == 256,
            parts@ == singles(bytes@, word@).take(i as int),
        decreases word@.len() - i,
    {
        parts.push(bytes[word[i] as usize]);
        i = i + 1;
        assert(parts@ =~= singles(bytes@, word@).take(i as int));
    }
    assert(parts@ =~= singles(bytes@, word@));
    let mut done = false;
    while !done
        invariant
            bpe(merges@, singles(bytes@, word@)) == bpe(merges@, parts@),
            done ==> bpe(merges@, parts@) == parts@,
        decreases
            parts@.len() + if done {
                0int
            } else {
                1int
            },
    {
        match next(merges, parts.as_slice()) {
            Some((i, token)) => {
                proof {
                    let j = choose|j: int| is_next(merges@, parts@, j);
                    assert(merge_at(merges@, parts@, i as int) is Some);
                    assert(merge_at(merges@, parts@, j) is Some);
                    assert(i == j);
                }
                parts.set(i, token);
                let _ = parts.remove(i + 1);
            },
            None => {
                done = true;
            },
        }
    }
    crate::bytes::push_all(out, parts.as_slice());
}

/// The position of the pair to merge next, and what it merges to.
fn next(merges: &Merges, parts: &[u32]) -> (r: Option<(usize, u32)>)
    ensures
        match r {
            Some((i, token)) => is_next(merges@, parts@, i as int) && (merge_at(
                merges@,
                parts@,
                i as int,
            )->0).1 == token,
            None => !exists|i: int| is_next(merges@, parts@, i),
        },
{
    broadcast use vstd::std_specs::hash::group_hash_axioms;

    let mut best: Option<(usize, usize, u32)> = None;
    let mut i: usize = 0;
    while i < parts.len() && i + 1 < parts.len()
        invariant
            i <= parts@.len(),
            match best {
                Some((rank, at, token)) => at < i && merge_at(merges@, parts@, at as int) == Some(
                    (rank, token),
                ) && forall|j: int|
                    j < i ==> ((#[trigger] merge_at(merges@, parts@, j)) matches Some((other, _))
                        ==> rank < other || (rank == other && at <= j)),
                None => forall|j: int| j < i ==> (#[trigger] merge_at(merges@, parts@, j)) is None,
            },
        decreases parts@.len() - i,
    {
        let found = merges.get(&key(parts[i], parts[i + 1]));
        assert(merge_at(merges@, parts@, i as int) == match found {
            Some(v) => Some(*v),
            None => None,
        });
        if let Some(pair) = found {
            let rank: usize = pair.0;
            let token: u32 = pair.1;
            let better = match best {
                Some((low, _, _)) => rank < low,
                None => true,
            };
            if better {
                best = Some((rank, i, token));
            }
        }
        i = i + 1;
    }
    match best {
        Some((_, at, token)) => Some((at, token)),
        None => None,
    }
}

} // verus!
