//! What becomes of bytes: how they are written, and how they merge.
use vstd::prelude::*;
use vstd::utf8::encode_utf8;

use super::bpe::{bpe, is_next, merge_at, merged, pair_key, singles};
use super::level::{byte_char, char_byte, hidden_below};
use super::vocab::{array_of, entries, merge_entries, split_once, token_bytes, vocab};
use crate::gguf::value::Val;

verus! {

/// How many bytes below one are not printable, in closed form.
proof fn lemma_hidden(byte: nat)
    requires
        byte <= 256,
    ensures
        hidden_below(byte) == if byte <= 33 {
            byte
        } else if byte <= 127 {
            33
        } else if byte <= 161 {
            (byte - 94) as nat
        } else if byte <= 173 {
            67
        } else {
            68
        },
    decreases byte,
{
    if byte > 0 {
        lemma_hidden((byte - 1) as nat);
    }
}

/// A byte that can be seen is written as itself, and the others in a row from
/// code point 256 on: those up to the space, those from delete to the
/// no-break space, and the soft hyphen.
pub proof fn law_bytes_are_written(byte: u8)
    ensures
        byte_char(byte as nat) as int == if byte <= 32 {
            256 + byte
        } else if byte <= 126 {
            byte as int
        } else if byte <= 160 {
            byte + 162
        } else if byte == 173 {
            323
        } else {
            byte as int
        },
{
    lemma_hidden(byte as nat);
}

/// What the pair of tokens at a place merges to, if it does: how soon, and to
/// which token.
pub open spec fn pair_at(merges: Map<u64, (usize, u32)>, parts: Seq<u32>, i: int) -> Option<
    (usize, u32),
> {
    let k = (parts[i] * 0x1_0000_0000 + parts[i + 1]) as u64;
    if merges.contains_key(k) {
        Some(merges[k])
    } else {
        None
    }
}

/// The pair that merges is the one of the lowest rank, and of several of that
/// rank the first: what the tokens come to is what they come to with that
/// pair merged.
pub proof fn law_lowest_rank_merges_first(
    merges: Map<u64, (usize, u32)>,
    parts: Seq<u32>,
    i: int,
    rank: usize,
    token: u32,
)
    requires
        0 <= i < parts.len() - 1,
        pair_at(merges, parts, i) == Some((rank, token)),
        forall|j: int|
            0 <= j < parts.len() - 1 ==> ((#[trigger] pair_at(merges, parts, j)) matches Some(
                (other, _),
            ) ==> rank < other || (rank == other && i <= j)),
    ensures
        bpe(merges, parts) == bpe(merges, parts.take(i) + seq![token] + parts.skip(i + 2)),
{
    assert(merge_at(merges, parts, i) == Some((rank, token)));
    assert forall|j: int| (#[trigger] merge_at(merges, parts, j)) is Some implies rank < (merge_at(
        merges,
        parts,
        j,
    )->0).0 || (rank == (merge_at(merges, parts, j)->0).0 && i <= j) by {
        assert(pair_at(merges, parts, j) == merge_at(merges, parts, j));
    }
    assert(is_next(merges, parts, i));
    let k = choose|k: int| is_next(merges, parts, k);
    assert(merge_at(merges, parts, k) is Some);
    assert(k == i);
    assert(merged(parts, i, token) =~= parts.take(i) + seq![token] + parts.skip(i + 2));
}

/// Merging goes on until no pair is left that merges.
pub proof fn law_nothing_is_left_to_merge(
    merges: Map<u64, (usize, u32)>,
    parts: Seq<u32>,
    i: int,
)
    requires
        0 <= i < bpe(merges, parts).len() - 1,
    ensures
        pair_at(merges, bpe(merges, parts), i) is None,
    decreases parts.len(),
{
    if exists|j: int| is_next(merges, parts, j) {
        let j = choose|j: int| is_next(merges, parts, j);
        law_nothing_is_left_to_merge(merges, merged(parts, j, (merge_at(merges, parts, j)->0).1), i);
    } else if pair_at(merges, parts, i) is Some {
        assert(merge_at(merges, parts, i) == pair_at(merges, parts, i));
        lemma_some_next(merges, parts, parts.len() - 1, i);
    }
}

/// Where a pair merges, one is the next to.
proof fn lemma_some_next(merges: Map<u64, (usize, u32)>, parts: Seq<u32>, n: int, i: int)
    requires
        0 <= i < n <= parts.len() - 1,
        merge_at(merges, parts, i) is Some,
        n == parts.len() - 1,
    ensures
        exists|j: int| is_next(merges, parts, j),
{
    let j = lemma_best(merges, parts, n, i);
    assert(is_next(merges, parts, j));
}

/// The best of the first pairs.
proof fn lemma_best(merges: Map<u64, (usize, u32)>, parts: Seq<u32>, n: int, i: int) -> (j: int)
    requires
        0 <= i < n <= parts.len() - 1,
        merge_at(merges, parts, i) is Some,
    ensures
        0 <= j < n,
        merge_at(merges, parts, j) is Some,
        forall|k: int|
            k < n && (#[trigger] merge_at(merges, parts, k)) is Some ==> {
                let (own, other) = (
                    (merge_at(merges, parts, j)->0).0,
                    (merge_at(merges, parts, k)->0).0,
                );
                own < other || (own == other && j <= k)
            },
    decreases n,
{
    let last = n - 1;
    if exists|k: int| 0 <= k < last && (#[trigger] merge_at(merges, parts, k)) is Some {
        let k = choose|k: int| 0 <= k < last && (#[trigger] merge_at(merges, parts, k)) is Some;
        let j = lemma_best(merges, parts, last, k);
        if merge_at(merges, parts, last) is Some && (merge_at(merges, parts, last)->0).0 < (merge_at(
            merges,
            parts,
            j,
        )->0).0 {
            last
        } else {
            j
        }
    } else {
        i
    }
}

/// A word starts as the tokens of its bytes, one for each.
pub proof fn law_words_start_as_bytes(bytes: Seq<u32>, word: Seq<u8>, i: int)
    requires
        0 <= i < word.len(),
    ensures
        singles(bytes, word).len() == word.len(),
        singles(bytes, word)[i] == bytes[word[i] as int],
{
}

/// The tokens of a vocabulary are those of the file, in order. A token whose
/// type is control or user-defined, which are 3 and 4, is special, and stands
/// for its text as it is written; any other stands for the bytes that its
/// characters are written for.
pub proof fn law_tokens_are_those_of_the_file(meta: Map<Seq<char>, Val>, i: int)
    requires
        vocab(meta) is Ok,
        0 <= i < array_of(meta, "tokenizer.ggml.tokens"@)->Ok_0.len(),
    ensures
        ({
            let v = vocab(meta)->Ok_0;
            let texts = array_of(meta, "tokenizer.ggml.tokens"@)->Ok_0;
            let kinds = array_of(meta, "tokenizer.ggml.token_type"@)->Ok_0;
            &&& v.tokens.len() == texts.len()
            &&& texts.len() == kinds.len()
            &&& texts[i] matches Val::Str(s)
            &&& kinds[i].integer() matches Some(k)
            &&& if k == 3 || k == 4 {
                v.tokens[i] == encode_utf8(s) && v.special.contains_key(s)
            } else {
                v.tokens[i].len() == s.len() && forall|j: int|
                    0 <= j < s.len() ==> byte_char((#[trigger] v.tokens[i][j]) as nat) == s[j]
            }
        }),
{
    let texts = array_of(meta, "tokenizer.ggml.tokens"@)->Ok_0;
    let kinds = array_of(meta, "tokenizer.ggml.token_type"@)->Ok_0;
    lemma_entry_at(texts, kinds, texts.len(), i);
}

/// What was read of a token.
proof fn lemma_entry_at(texts: Seq<Val>, kinds: Seq<Val>, n: nat, i: int)
    requires
        entries(texts, kinds, n) is Ok,
        0 <= i < n,
        n <= texts.len(),
        texts.len() == kinds.len(),
    ensures
        ({
            let t = entries(texts, kinds, n)->Ok_0;
            &&& t.tokens.len() == n
            &&& texts[i] matches Val::Str(s)
            &&& kinds[i].integer() matches Some(k)
            &&& if k == 3 || k == 4 {
                t.tokens[i] == encode_utf8(s) && t.special.contains_key(s)
            } else {
                t.tokens[i].len() == s.len() && forall|j: int|
                    0 <= j < s.len() ==> byte_char((#[trigger] t.tokens[i][j]) as nat) == s[j]
            }
        }),
    decreases n,
{
    let m = (n - 1) as nat;
    let t = entries(texts, kinds, m)->Ok_0;
    lemma_entries_len(texts, kinds, m);
    if i < m {
        lemma_entry_at(texts, kinds, m, i);
        assert(entries(texts, kinds, n)->Ok_0.tokens[i] == t.tokens[i]);
    } else {
        let s = texts[i]->Str_0;
        if let Some(bytes) = token_bytes(s) {
            assert forall|j: int| 0 <= j < s.len() implies byte_char(
                (#[trigger] bytes[j]) as nat,
            ) == s[j] by {
                assert(char_byte(s[j]) is Some);
            }
        }
    }
}

/// As many tokens as were read.
proof fn lemma_entries_len(texts: Seq<Val>, kinds: Seq<Val>, n: nat)
    requires
        entries(texts, kinds, n) is Ok,
    ensures
        entries(texts, kinds, n)->Ok_0.tokens.len() == n,
    decreases n,
{
    if n > 0 {
        lemma_entries_len(texts, kinds, (n - 1) as nat);
    }
}

/// A merge of the file is a merge of the vocabulary, unless one of the same two
/// tokens comes later: its rank is its place in the list, and what its two
/// tokens merge to is the token of their texts in a row.
pub proof fn law_merges_rank_by_their_order(meta: Map<Seq<char>, Val>, ids: Map<Seq<char>, u32>, i: int)
    requires
        vocab(meta) is Ok,
        ({
            let texts = array_of(meta, "tokenizer.ggml.tokens"@)->Ok_0;
            let kinds = array_of(meta, "tokenizer.ggml.token_type"@)->Ok_0;
            ids == entries(texts, kinds, texts.len())->Ok_0.ids
        }),
        0 <= i < array_of(meta, "tokenizer.ggml.merges"@)->Ok_0.len() <= usize::MAX,
        unmatched(ids, array_of(meta, "tokenizer.ggml.merges"@)->Ok_0, i),
    ensures
        ({
            let v = vocab(meta)->Ok_0;
            let list = array_of(meta, "tokenizer.ggml.merges"@)->Ok_0;
            &&& list[i] matches Val::Str(s)
            &&& split_once(s) matches Some((a, b))
            &&& s == a + seq![' '] + b
            &&& !a.contains(' ')
            &&& ids.contains_key(a) && ids.contains_key(b) && ids.contains_key(a + b)
            &&& v.merges.contains_key((ids[a] * 0x1_0000_0000 + ids[b]) as u64)
            &&& v.merges[(ids[a] * 0x1_0000_0000 + ids[b]) as u64] == (i as usize, ids[a + b])
        }),
{
    let list = array_of(meta, "tokenizer.ggml.merges"@)->Ok_0;
    lemma_merge_at(ids, list, list.len(), i);
}

/// Whether no later merge of a list is of the same two tokens as one.
pub open spec fn unmatched(ids: Map<Seq<char>, u32>, list: Seq<Val>, i: int) -> bool {
    forall|j: int|
        i < j < list.len() ==> match (list[i], #[trigger] list[j]) {
            (Val::Str(s), Val::Str(t)) => match (split_once(s), split_once(t)) {
                (Some((a, b)), Some((c, d))) => ids[a] != ids[c] || ids[b] != ids[d],
                _ => true,
            },
            _ => true,
        }
}

/// What was read of a merge.
proof fn lemma_merge_at(ids: Map<Seq<char>, u32>, list: Seq<Val>, n: nat, i: int)
    requires
        merge_entries(ids, list, n) is Ok,
        0 <= i < n,
        n <= list.len() <= usize::MAX,
        unmatched(ids, list, i),
    ensures
        ({
            let m = merge_entries(ids, list, n)->Ok_0;
            &&& list[i] matches Val::Str(s)
            &&& split_once(s) matches Some((a, b))
            &&& s == a + seq![' '] + b
            &&& !a.contains(' ')
            &&& ids.contains_key(a) && ids.contains_key(b) && ids.contains_key(a + b)
            &&& m.contains_key(pair_key(ids[a], ids[b]))
            &&& m[pair_key(ids[a], ids[b])] == (i as usize, ids[a + b])
        }),
    decreases n,
{
    let k = (n - 1) as nat;
    if i < k {
        lemma_merge_at(ids, list, k, i);
        let (a, b) = split_once(list[i]->Str_0)->0;
        let (c, d) = split_once(list[k as int]->Str_0)->0;
        super::bpe::lemma_pair_key(ids[a], ids[b], ids[c], ids[d]);
        assert(list[k as int] == list[n - 1]);
    } else {
        let s = list[i]->Str_0;
        let at = s.index_of_first(' ')->0;
        s.index_of_first_ensures(' ');
        let (a, b) = split_once(s)->0;
        assert(s =~= a + seq![' '] + b);
        if a.contains(' ') {
            let j = choose|j: int| 0 <= j < a.len() && a[j] == ' ';
            assert(s[j] == ' ');
        }
    }
}

} // verus!
