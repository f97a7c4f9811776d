//! What holds of text that is turned into tokens and back.
use vstd::prelude::*;
use vstd::utf8::encode_utf8;

use super::bpe::{bpe, is_next, lemma_pair_key, merge_at, merged, pair_key, singles};
use super::coder::{cut, encode_all, encode_segs, is_next_special, occurs, Seg};
use super::level::{byte_char, char_byte, law_bytes_read_back};
use super::vocab::{
    array_of, entries, entry, merge_entries, split_once, token_bytes, vocab, Table, Vocab,
};
use crate::gguf::value::Val;
use crate::text::{concat, lemma_encode_concat};

verus! {

/// The bytes of tokens in a row.
pub open spec fn flat(v: Vocab, tokens: Seq<u32>) -> Seq<u8>
    decreases tokens.len(),
{
    if tokens.len() == 0 {
        Seq::empty()
    } else {
        flat(v, tokens.drop_last()) + v.tokens[tokens.last() as int]
    }
}

/// Whether a token is in the vocabulary, and not a special one.
pub open spec fn plain(v: Vocab, token: u32) -> bool {
    token < v.tokens.len() && forall|c: Seq<char>|
        v.special.contains_key(c) ==> #[trigger] v.special[c] != token
}

/// Whether the token of every byte is that byte, that of every merge is its
/// parts in a row, and none of them is special.
pub open spec fn faithful(v: Vocab) -> bool {
    &&& v.bytes.len() == 256
    &&& forall|b: u8|
        plain(v, #[trigger] v.bytes[b as int]) && v.tokens[v.bytes[b as int] as int] == seq![b]
    &&& forall|a: u32, b: u32|
        v.merges.contains_key(#[trigger] pair_key(a, b)) ==> {
            let (_, m) = v.merges[pair_key(a, b)];
            plain(v, m) && v.tokens[m as int] == v.tokens[a as int] + v.tokens[b as int]
        }
}

/// Whether all tokens are plain ones.
pub open spec fn all_plain(v: Vocab, tokens: Seq<u32>) -> bool {
    forall|i: int| 0 <= i < tokens.len() ==> plain(v, #[trigger] tokens[i])
}

/// The bytes of two runs of tokens are those of one and the other.
proof fn lemma_flat_concat(v: Vocab, a: Seq<u32>, b: Seq<u32>)
    ensures
        flat(v, a + b) == flat(v, a) + flat(v, b),
    decreases b.len(),
{
    if b.len() == 0 {
        assert(a + b =~= a);
        assert(flat(v, a) + flat(v, b) =~= flat(v, a));
    } else {
        lemma_flat_concat(v, a, b.drop_last());
        assert((a + b).drop_last() =~= a + b.drop_last());
        assert(flat(v, a + b) =~= flat(v, a) + flat(v, b));
    }
}

/// The bytes of one token.
proof fn lemma_flat_one(v: Vocab, t: u32)
    ensures
        flat(v, seq![t]) == v.tokens[t as int],
{
    reveal_with_fuel(flat, 2);
    assert(seq![t].drop_last() =~= Seq::empty());
    assert(Seq::<u8>::empty() + v.tokens[t as int] =~= v.tokens[t as int]);
}

/// A merge changes no bytes.
proof fn lemma_merge_flat(v: Vocab, parts: Seq<u32>, i: int)
    requires
        faithful(v),
        all_plain(v, parts),
        merge_at(v.merges, parts, i) is Some,
    ensures
        ({
            let (_, m) = merge_at(v.merges, parts, i)->0;
            flat(v, merged(parts, i, m)) == flat(v, parts) && all_plain(v, merged(parts, i, m))
        }),
{
    let (_, m) = merge_at(v.merges, parts, i)->0;
    let (a, b) = (parts[i], parts[i + 1]);
    assert(v.merges.contains_key(pair_key(a, b)));
    let head = parts.take(i);
    let tail = parts.skip(i + 2);
    assert(parts =~= head + (seq![a] + seq![b]) + tail);
    assert(merged(parts, i, m) =~= head + seq![m] + tail);
    lemma_flat_concat(v, head + (seq![a] + seq![b]), tail);
    lemma_flat_concat(v, head, seq![a] + seq![b]);
    lemma_flat_concat(v, seq![a], seq![b]);
    lemma_flat_concat(v, head + seq![m], tail);
    lemma_flat_concat(v, head, seq![m]);
    lemma_flat_one(v, a);
    lemma_flat_one(v, b);
    lemma_flat_one(v, m);
    let after = merged(parts, i, m);
    assert forall|j: int| 0 <= j < after.len() implies plain(v, #[trigger] after[j]) by {
        if j < i {
            assert(after[j] == parts[j]);
        } else if j > i {
            assert(after[j] == parts[j + 1]);
        }
    }
}

/// Merging changes no bytes.
proof fn lemma_bpe_flat(v: Vocab, parts: Seq<u32>)
    requires
        faithful(v),
        all_plain(v, parts),
    ensures
        flat(v, bpe(v.merges, parts)) == flat(v, parts),
        all_plain(v, bpe(v.merges, parts)),
    decreases parts.len(),
{
    if exists|i: int| is_next(v.merges, parts, i) {
        let i = choose|i: int| is_next(v.merges, parts, i);
        lemma_merge_flat(v, parts, i);
        let (_, m) = merge_at(v.merges, parts, i)->0;
        lemma_bpe_flat(v, merged(parts, i, m));
    }
}

/// The tokens of bytes are those bytes.
proof fn lemma_singles_flat(v: Vocab, word: Seq<u8>)
    requires
        faithful(v),
    ensures
        flat(v, singles(v.bytes, word)) == word,
        all_plain(v, singles(v.bytes, word)),
    decreases word.len(),
{
    let parts = singles(v.bytes, word);
    if word.len() > 0 {
        lemma_singles_flat(v, word.drop_last());
        assert(parts.drop_last() =~= singles(v.bytes, word.drop_last()));
        assert(parts.last() == v.bytes[word.last() as int]);
        assert(flat(v, parts) =~= word);
    } else {
        assert(flat(v, parts) =~= word);
    }
    assert forall|j: int| 0 <= j < parts.len() implies plain(v, #[trigger] parts[j]) by {
        assert(parts[j] == v.bytes[word[j] as int]);
    }
}

/// The tokens of words stand for the bytes of the words, and none of them is
/// special: a tag in text stays text.
pub proof fn law_words_survive(v: Vocab, words: Seq<Seq<char>>)
    requires
        faithful(v),
    ensures
        flat(v, encode_all(v, words)) == encode_utf8(concat(words)),
        all_plain(v, encode_all(v, words)),
    decreases words.len(),
{
    if words.len() > 0 {
        let some = words.drop_last();
        let bytes = encode_utf8(words.last());
        law_words_survive(v, some);
        lemma_singles_flat(v, bytes);
        lemma_bpe_flat(v, singles(v.bytes, bytes));
        lemma_flat_concat(v, encode_all(v, some), bpe(v.merges, singles(v.bytes, bytes)));
        lemma_encode_concat(concat(some), words.last());
    }
}

/// Whether no merge, and no byte, is written as a special token is.
pub open spec fn apart(meta: Map<Seq<char>, Val>, special: Map<Seq<char>, u32>) -> bool {
    &&& forall|b: u8| !special.contains_key(#[trigger] seq![byte_char(b as nat)])
    &&& array_of(meta, "tokenizer.ggml.merges"@) matches Ok(list) ==> forall|i: int|
        0 <= i < list.len() ==> ((#[trigger] list[i]) matches Val::Str(s) ==> (split_once(
            s,
        ) matches Some((a, b)) ==> !special.contains_key(a) && !special.contains_key(b)
            && !special.contains_key(a + b)))
}

/// What holds of a table of tokens: an id is that of the text it was given
/// to; a text that is not special stands for its bytes, and a special one for
/// itself.
pub open spec fn sound(t: Table, texts: Seq<Val>, n: nat) -> bool {
    &&& t.tokens.len() == n
    &&& forall|s: Seq<char>|
        #[trigger] t.ids.contains_key(s) ==> t.ids[s] < n && texts[t.ids[s] as int] == Val::Str(s)
    &&& forall|s: Seq<char>|
        #[trigger] t.special.contains_key(s) ==> t.special[s] < n && texts[t.special[s] as int]
            == Val::Str(s) && t.tokens[t.special[s] as int] == encode_utf8(s)
    &&& forall|s: Seq<char>|
        t.ids.contains_key(s) && !t.special.contains_key(s) ==> token_bytes(s) == Some(
            #[trigger] t.tokens[t.ids[s] as int],
        )
}

/// Every table of tokens is sound.
proof fn lemma_entries_sound(texts: Seq<Val>, kinds: Seq<Val>, n: nat)
    requires
        n <= texts.len() <= 0x1_0000_0000,
        entries(texts, kinds, n) is Ok,
    ensures
        sound(entries(texts, kinds, n)->Ok_0, texts, n),
    decreases n,
{
    if n > 0 {
        let m = (n - 1) as nat;
        lemma_entries_sound(texts, kinds, m);
        let t = entries(texts, kinds, m)->Ok_0;
        let u = entries(texts, kinds, n)->Ok_0;
        let s = texts[n - 1]->Str_0;
        assert(u == entry(t, texts[n - 1], kinds[n - 1], (n - 1) as u32)->Ok_0);
        assert forall|x: Seq<char>|
            u.ids.contains_key(x) && !u.special.contains_key(x) implies token_bytes(x) == Some(
            #[trigger] u.tokens[u.ids[x] as int],
        ) by {
            if x != s {
                assert(t.ids.contains_key(x));
                assert(t.tokens[t.ids[x] as int] == u.tokens[u.ids[x] as int]);
            }
        }
        assert forall|x: Seq<char>| #[trigger] u.special.contains_key(x) implies u.special[x] < n
            && texts[u.special[x] as int] == Val::Str(x) && u.tokens[u.special[x] as int]
            == encode_utf8(x) by {
            if x != s || !(u.special[x] == n - 1) {
                assert(t.special.contains_key(x));
            }
        }
    }
}

/// Whether the merges so far join the bytes of plain tokens.
spec fn joins(t: Table, merges: Map<u64, (usize, u32)>) -> bool {
    forall|a: u32, b: u32|
        merges.contains_key(#[trigger] pair_key(a, b)) ==> {
            let (_, m) = merges[pair_key(a, b)];
            &&& m < t.tokens.len()
            &&& forall|c: Seq<char>| t.special.contains_key(c) ==> #[trigger] t.special[c] != m
            &&& t.tokens[m as int] == t.tokens[a as int] + t.tokens[b as int]
        }
}

/// The bytes of two byte-level texts in a row.
proof fn lemma_token_bytes_concat(a: Seq<char>, b: Seq<char>)
    requires
        token_bytes(a) is Some,
        token_bytes(b) is Some,
    ensures
        token_bytes(a + b) == Some(token_bytes(a)->0 + token_bytes(b)->0),
{
    let s = a + b;
    assert forall|i: int| 0 <= i < s.len() implies (#[trigger] char_byte(s[i])) is Some by {
        if i < a.len() {
            assert(char_byte(a[i]) is Some);
        } else {
            assert(char_byte(b[i - a.len()]) is Some);
        }
    }
    assert(token_bytes(s)->0 =~= token_bytes(a)->0 + token_bytes(b)->0);
}

/// The id of a text that is not special is no special token's.
proof fn lemma_id_plain(t: Table, texts: Seq<Val>, n: nat, s: Seq<char>)
    requires
        sound(t, texts, n),
        t.ids.contains_key(s),
        !t.special.contains_key(s),
    ensures
        t.ids[s] < t.tokens.len(),
        forall|c: Seq<char>| t.special.contains_key(c) ==> #[trigger] t.special[c] != t.ids[s],
{
    assert forall|c: Seq<char>| t.special.contains_key(c) implies #[trigger] t.special[c]
        != t.ids[s] by {
        assert(texts[t.special[c] as int] == Val::Str(c));
        assert(texts[t.ids[s] as int] == Val::Str(s));
    }
}

/// The merges of a vocabulary whose special tokens stand apart join bytes.
proof fn lemma_merges_join(t: Table, texts: Seq<Val>, list: Seq<Val>, k: nat)
    requires
        sound(t, texts, texts.len()),
        k <= list.len(),
        merge_entries(t.ids, list, k) is Ok,
        forall|i: int|
            0 <= i < list.len() ==> ((#[trigger] list[i]) matches Val::Str(s) ==> (split_once(
                s,
            ) matches Some((a, b)) ==> !t.special.contains_key(a) && !t.special.contains_key(b)
                && !t.special.contains_key(a + b))),
    ensures
        joins(t, merge_entries(t.ids, list, k)->Ok_0),
    decreases k,
{
    if k > 0 {
        let j = (k - 1) as nat;
        lemma_merges_join(t, texts, list, j);
        let old_merges = merge_entries(t.ids, list, j)->Ok_0;
        let new_merges = merge_entries(t.ids, list, k)->Ok_0;
        let s = list[k - 1]->Str_0;
        assert(list[k - 1] is Str);
        let (x, y) = split_once(s)->0;
        let n = texts.len();
        lemma_id_plain(t, texts, n, x);
        lemma_id_plain(t, texts, n, y);
        lemma_id_plain(t, texts, n, x + y);
        assert(token_bytes(x) == Some(t.tokens[t.ids[x] as int]));
        assert(token_bytes(y) == Some(t.tokens[t.ids[y] as int]));
        assert(token_bytes(x + y) == Some(t.tokens[t.ids[x + y] as int]));
        lemma_token_bytes_concat(x, y);
        assert forall|a: u32, b: u32|
            new_merges.contains_key(#[trigger] pair_key(a, b)) implies ({
            let (_, m) = new_merges[pair_key(a, b)];
            &&& m < t.tokens.len()
            &&& forall|c: Seq<char>| t.special.contains_key(c) ==> #[trigger] t.special[c] != m
            &&& t.tokens[m as int] == t.tokens[a as int] + t.tokens[b as int]
        }) by {
            lemma_pair_key(a, b, t.ids[x], t.ids[y]);
            if !(a == t.ids[x] && b == t.ids[y]) {
                assert(old_merges.contains_key(pair_key(a, b)));
            }
        }
    }
}

/// A vocabulary that was loaded is faithful where no merge, and no byte, is
/// written as a special token is; and a special token stands for its content.
pub proof fn law_loaded_is_faithful(meta: Map<Seq<char>, Val>)
    requires
        vocab(meta) is Ok,
        apart(meta, vocab(meta)->Ok_0.special),
    ensures
        faithful(vocab(meta)->Ok_0),
        carries(vocab(meta)->Ok_0),
{
    let v = vocab(meta)->Ok_0;
    let texts = array_of(meta, "tokenizer.ggml.tokens"@)->Ok_0;
    let kinds = array_of(meta, "tokenizer.ggml.token_type"@)->Ok_0;
    let list = array_of(meta, "tokenizer.ggml.merges"@)->Ok_0;
    let t = entries(texts, kinds, texts.len())->Ok_0;
    lemma_entries_sound(texts, kinds, texts.len());
    lemma_merges_join(t, texts, list, list.len());
    assert forall|b: u8|
        plain(v, #[trigger] v.bytes[b as int]) && v.tokens[v.bytes[b as int] as int]
            == seq![b] by {
        let s = seq![byte_char(b as nat)];
        assert(t.ids.contains_key(s));
        lemma_id_plain(t, texts, texts.len(), s);
        law_bytes_read_back(b);
        assert(v.bytes[b as int] == t.ids[s]);
        assert(token_bytes(s) == Some(t.tokens[t.ids[s] as int]));
        assert(char_byte(s[0]) == Some(b));
        assert(token_bytes(s)->0 =~= seq![b]);
    }
}

/// Whether every special token stands for its content.
pub open spec fn carries(v: Vocab) -> bool {
    forall|c: Seq<char>|
        v.special.contains_key(c) ==> v.tokens[#[trigger] v.special[c] as int] == encode_utf8(c)
}

/// The bytes that pieces of text stand for.
pub open spec fn written(v: Vocab, pieces: Seq<Seg>) -> Seq<u8>
    decreases pieces.len(),
{
    if pieces.len() == 0 {
        Seq::empty()
    } else {
        (match pieces[0] {
            Seg::Plain(s) => encode_utf8(s),
            Seg::Special(id) => v.tokens[id as int],
        }) + written(v, pieces.drop_first())
    }
}

/// Cutting a text at its special tokens loses nothing of it.
pub proof fn law_cut_loses_nothing(v: Vocab, text: Seq<char>)
    requires
        carries(v),
    ensures
        written(v, cut(v.special, text)) == encode_utf8(text),
    decreases text.len(),
{
    let pieces = cut(v.special, text);
    if text.len() == 0 {
    } else if exists|at: int, content: Seq<char>|
        is_next_special(v.special, text, at, content) && content.len() > 0 {
        let (at, content) = choose|at: int, content: Seq<char>|
            is_next_special(v.special, text, at, content) && content.len() > 0;
        let rest = text.skip(at + content.len());
        law_cut_loses_nothing(v, rest);
        assert(occurs(text, content, at));
        assert(text =~= text.take(at) + (content + rest));
        lemma_encode_concat(text.take(at), content + rest);
        lemma_encode_concat(content, rest);
        let two = pieces.drop_first();
        assert(two.drop_first() =~= cut(v.special, rest));
        assert(two[0] == Seg::Special(v.special[content]));
        assert(written(v, two) == encode_utf8(content) + encode_utf8(rest));
        assert(pieces[0] == Seg::Plain(text.take(at)));
    } else {
        reveal_with_fuel(written, 2);
        assert(pieces.drop_first() =~= Seq::empty());
        assert(written(v, pieces) =~= encode_utf8(text));
    }
}

/// The tokens of pieces are those of some of them and of the rest.
proof fn lemma_segs_concat(v: Vocab, a: Seq<Seg>, b: Seq<Seg>)
    ensures
        encode_segs(v, a + b) == match (encode_segs(v, a), encode_segs(v, b)) {
            (Some(s), Some(t)) => Some(s + t),
            _ => None,
        },
    decreases b.len(),
{
    if b.len() == 0 {
        assert(a + b =~= a);
        if let Some(s) = encode_segs(v, a) {
            assert(s + Seq::<u32>::empty() =~= s);
        }
    } else {
        lemma_segs_concat(v, a, b.drop_last());
        assert((a + b).drop_last() =~= a + b.drop_last());
        if let (Some(s), Some(t)) = (encode_segs(v, a), encode_segs(v, b.drop_last())) {
            match b.last() {
                Seg::Special(id) => {
                    assert((s + t).push(id) =~= s + t.push(id));
                },
                Seg::Plain(text) => {
                    if let Some(more) = super::coder::encoded(v, text) {
                        assert((s + t) + more =~= s + (t + more));
                    }
                },
            }
        }
    }
}

/// A special token written in a text is encoded by id: the text before the
/// first one is encoded as text, then comes the longest special token that
/// starts there, and then the rest of the text likewise.
pub proof fn law_special_by_id(v: Vocab, before: Seq<char>, content: Seq<char>, rest: Seq<char>)
    requires
        content.len() > 0,
        is_next_special(v.special, before + content + rest, before.len() as int, content),
    ensures
        encode_segs(v, cut(v.special, before + content + rest)) == match (
            super::coder::encoded(v, before),
            encode_segs(v, cut(v.special, rest)),
        ) {
            (Some(a), Some(b)) => Some(a + seq![v.special[content]] + b),
            _ => None,
        },
{
    let text = before + content + rest;
    let n = before.len() as int;
    let (at, first) = choose|at: int, first: Seq<char>|
        is_next_special(v.special, text, at, first) && first.len() > 0;
    assert(is_next_special(v.special, text, n, content) && content.len() > 0);
    assert(occurs(text, content, n));
    assert(occurs(text, first, at));
    assert(at == n && first.len() == content.len());
    assert(first == content);
    assert(text.take(n) =~= before);
    assert(text.skip(n + content.len()) =~= rest);
    let id = v.special[content];
    let two = seq![Seg::Plain(before), Seg::Special(id)];
    lemma_segs_concat(v, two, cut(v.special, rest));
    assert(two.drop_last() =~= seq![Seg::Plain(before)]);
    assert(two.drop_last().drop_last() =~= Seq::empty());
    reveal_with_fuel(encode_segs, 3);
    if let Some(a) = super::coder::encoded(v, before) {
        assert(Seq::<u32>::empty() + a =~= a);
        assert(encode_segs(v, two) == Some(a.push(id)));
        assert(a.push(id) =~= a + seq![id]);
    }
}

/// Text without special tokens in it is encoded the same either way. Of no
/// text there are no tokens.
pub proof fn law_without_tags(v: Vocab, text: Seq<char>)
    requires
        forall|c: Seq<char>, at: int| v.special.contains_key(c) ==> !#[trigger] occurs(text, c, at),
    ensures
        text.len() > 0 ==> encode_segs(v, cut(v.special, text)) == super::coder::encoded(v, text),
        text.len() == 0 ==> encode_segs(v, cut(v.special, text)) == Some(Seq::<u32>::empty()),
{
    if text.len() > 0 {
        assert forall|at: int, c: Seq<char>| !is_next_special(v.special, text, at, c) by {
            if is_next_special(v.special, text, at, c) {
                assert(occurs(text, c, at));
            }
        }
        reveal_with_fuel(encode_segs, 2);
        let pieces = seq![Seg::Plain(text)];
        assert(cut(v.special, text) == pieces);
        assert(pieces.drop_last() =~= Seq::empty());
        match super::coder::encoded(v, text) {
            Some(tokens) => {
                assert(Seq::<u32>::empty() + tokens =~= tokens);
            },
            None => {},
        }
    }
}

/// Whether a vocabulary speaks of tokens it has, and of no two special ones
/// by one id.
pub open spec fn valid(v: Vocab) -> bool {
    &&& v.tokens.len() <= 0x1_0000_0000
    &&& v.bytes.len() == 256
    &&& forall|b: int| 0 <= b < 256 ==> #[trigger] v.bytes[b] < v.tokens.len()
    &&& forall|k: u64| #[trigger] v.merges.contains_key(k) ==> v.merges[k].1 < v.tokens.len()
    &&& forall|c: Seq<char>| #[trigger] v.special.contains_key(c) ==> v.special[c] < v.tokens.len()
    &&& forall|c: Seq<char>, d: Seq<char>| #[trigger]
        v.special.contains_key(c) && #[trigger] v.special.contains_key(d) && v.special[c]
            == v.special[d] ==> c == d
}

/// Merges lead to tokens that have ids.
proof fn lemma_merges_bound(ids: Map<Seq<char>, u32>, list: Seq<Val>, k: nat, n: nat)
    requires
        merge_entries(ids, list, k) is Ok,
        forall|s: Seq<char>| #[trigger] ids.contains_key(s) ==> ids[s] < n,
    ensures
        forall|key: u64| #[trigger]
            merge_entries(ids, list, k)->Ok_0.contains_key(key) ==> merge_entries(ids, list, k)->Ok_0[key].1
                < n,
    decreases k,
{
    if k > 0 {
        lemma_merges_bound(ids, list, (k - 1) as nat, n);
    }
}

/// A vocabulary that was loaded speaks of tokens it has, and of no two special
/// ones by one id.
pub proof fn law_loaded_is_valid(meta: Map<Seq<char>, Val>)
    requires
        vocab(meta) is Ok,
    ensures
        valid(vocab(meta)->Ok_0),
{
    let v = vocab(meta)->Ok_0;
    let texts = array_of(meta, "tokenizer.ggml.tokens"@)->Ok_0;
    let kinds = array_of(meta, "tokenizer.ggml.token_type"@)->Ok_0;
    let list = array_of(meta, "tokenizer.ggml.merges"@)->Ok_0;
    let t = entries(texts, kinds, texts.len())->Ok_0;
    lemma_entries_sound(texts, kinds, texts.len());
    lemma_merges_bound(t.ids, list, list.len(), texts.len());
    assert forall|b: int| 0 <= b < 256 implies #[trigger] v.bytes[b] < v.tokens.len() by {
        let c = b as u8;
        assert(t.ids.contains_key(seq![byte_char(c as nat)]));
    }
    assert forall|c: Seq<char>, d: Seq<char>| #[trigger]
        v.special.contains_key(c) && #[trigger] v.special.contains_key(d) && v.special[c]
            == v.special[d] implies c == d by {
        assert(texts[v.special[c] as int] == Val::Str(c));
        assert(texts[v.special[d] as int] == Val::Str(d));
    }
}

/// Whether all tokens are in a vocabulary.
pub open spec fn within(tokens: Seq<u32>, n: nat) -> bool {
    forall|i: int| 0 <= i < tokens.len() ==> #[trigger] tokens[i] < n
}

/// Merging stays in the vocabulary.
proof fn lemma_bpe_within(v: Vocab, parts: Seq<u32>)
    requires
        valid(v),
        within(parts, v.tokens.len()),
    ensures
        within(bpe(v.merges, parts), v.tokens.len()),
    decreases parts.len(),
{
    if exists|i: int| is_next(v.merges, parts, i) {
        let i = choose|i: int| is_next(v.merges, parts, i);
        let (_, m) = merge_at(v.merges, parts, i)->0;
        let after = merged(parts, i, m);
        assert forall|j: int| 0 <= j < after.len() implies #[trigger] after[j]
            < v.tokens.len() by {
            if j < i {
                assert(after[j] == parts[j]);
            } else if j > i {
                assert(after[j] == parts[j + 1]);
            }
        }
        lemma_bpe_within(v, after);
    }
}

/// Words are encoded into tokens of the vocabulary.
pub proof fn law_words_within(v: Vocab, words: Seq<Seq<char>>)
    requires
        valid(v),
    ensures
        within(encode_all(v, words), v.tokens.len()),
    decreases words.len(),
{
    if words.len() > 0 {
        law_words_within(v, words.drop_last());
        let parts = singles(v.bytes, encode_utf8(words.last()));
        lemma_bpe_within(v, parts);
    }
}

/// Pieces of text are encoded into tokens of the vocabulary.
pub proof fn law_pieces_within(v: Vocab, pieces: Seq<Seg>)
    requires
        valid(v),
        forall|i: int|
            0 <= i < pieces.len() ==> ((#[trigger] pieces[i]) matches Seg::Special(id) ==> id
                < v.tokens.len()),
    ensures
        encode_segs(v, pieces) matches Some(tokens) ==> within(tokens, v.tokens.len()),
    decreases pieces.len(),
{
    if pieces.len() > 0 {
        let some = pieces.drop_last();
        assert forall|i: int| 0 <= i < some.len() implies ((#[trigger] some[i]) matches Seg::Special(
            id,
        ) ==> id < v.tokens.len()) by {
            assert(some[i] == pieces[i]);
        }
        law_pieces_within(v, some);
        assert(pieces[pieces.len() - 1] == pieces.last());
        if let Seg::Plain(text) = pieces.last() {
            match super::words::found(super::words::QWEN_PATTERN@, text) {
                Ok(words) => {
                    law_words_within(v, words);
                },
                Err(_) => {},
            }
        }
    }
}

/// The special tokens that a text is cut at are in the vocabulary.
pub proof fn law_cut_within(v: Vocab, text: Seq<char>)
    requires
        valid(v),
    ensures
        encode_segs(v, cut(v.special, text)) matches Some(tokens) ==> within(
            tokens,
            v.tokens.len(),
        ),
{
    lemma_cut_within(v, text);
    law_pieces_within(v, cut(v.special, text));
}

/// Every piece of a cut that is special is in the vocabulary.
proof fn lemma_cut_within(v: Vocab, text: Seq<char>)
    requires
        valid(v),
    ensures
        forall|i: int|
            0 <= i < cut(v.special, text).len() ==> ((#[trigger] cut(
                v.special,
                text,
            )[i]) matches Seg::Special(id) ==> id < v.tokens.len()),
    decreases text.len(),
{
    if text.len() > 0 && exists|at: int, content: Seq<char>|
        is_next_special(v.special, text, at, content) && content.len() > 0 {
        let (at, content) = choose|at: int, content: Seq<char>|
            is_next_special(v.special, text, at, content) && content.len() > 0;
        let rest = text.skip(at + content.len());
        lemma_cut_within(v, rest);
        let pieces = cut(v.special, text);
        assert forall|i: int| 0 <= i < pieces.len() implies ((
        #[trigger] pieces[i]) matches Seg::Special(id) ==> id < v.tokens.len()) by {
            if i >= 2 {
                assert(pieces[i] == cut(v.special, rest)[i - 2]);
            }
        }
    }
}

} // verus!
