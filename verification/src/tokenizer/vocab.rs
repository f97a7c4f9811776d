//! Vocabularies, as files carry them.
use vstd::hash_map::StringHashMap;
use vstd::prelude::*;
use vstd::utf8::encode_utf8;

use super::bpe::{key, pair_key, Merges};
use super::level::{byte_char, byte_chars, char_byte, to_byte};
use super::words::{objection, QWEN_PATTERN};
use crate::bytes::push_all;
use crate::gguf::value::{lemma_vals, vals, Val, Value};
use crate::gguf::{self};
use crate::text::{chars, insert_sorted, join3, own, sorted, string, texts};

verus! {

/// Token types in a vocabulary that stand for special tokens: control tokens
/// such as `<|im_start|>`, and user-defined ones such as `<tool_call>`.
pub const CONTROL: i64 = 3;

pub const USER_DEFINED: i64 = 4;

/// Why there is no tokenizer, or no tokens.
#[derive(Debug, PartialEq, Eq)]
pub enum Error {
    File(gguf::Error),
    Pre(String),
    Lengths,
    TooMany,
    Token,
    TokenType,
    ByteLevel,
    ByteToken,
    Merge,
    UnknownToken,
    Pattern(String),
    Words(String),
    MissingSpecial(String),
}

/// Why there is no tokenizer, as mathematics.
pub ghost enum Refusal {
    Missing(Seq<char>),
    NotString(Seq<char>),
    NotArray(Seq<char>),
    Pre(Seq<char>),
    Lengths,
    TooMany,
    Token,
    TokenType,
    ByteLevel,
    ByteToken,
    Merge,
    UnknownToken,
    Pattern(Seq<char>),
    Other,
}

impl Error {
    /// What the error says of a vocabulary.
    pub open spec fn refusal(self) -> Refusal {
        match self {
            Error::File(gguf::Error::MissingKey(k)) => Refusal::Missing(k@),
            Error::File(gguf::Error::NotString(k)) => Refusal::NotString(k@),
            Error::File(gguf::Error::NotArray(k)) => Refusal::NotArray(k@),
            Error::Pre(s) => Refusal::Pre(s@),
            Error::Lengths => Refusal::Lengths,
            Error::TooMany => Refusal::TooMany,
            Error::Token => Refusal::Token,
            Error::TokenType => Refusal::TokenType,
            Error::ByteLevel => Refusal::ByteLevel,
            Error::ByteToken => Refusal::ByteToken,
            Error::Merge => Refusal::Merge,
            Error::UnknownToken => Refusal::UnknownToken,
            Error::Pattern(s) => Refusal::Pattern(s@),
            _ => Refusal::Other,
        }
    }

    /// The error in words.
    pub open spec fn text(self) -> Seq<char> {
        match self {
            Error::File(e) => e.text(),
            Error::Pre(pre) => "the '"@ + pre@ + "' pre-tokenizer is not supported"@,
            Error::Lengths => "tokens and token types differ in number"@,
            Error::TooMany => "more tokens than can be numbered"@,
            Error::Token => "invalid token"@,
            Error::TokenType => "invalid token type"@,
            Error::ByteLevel => "invalid byte-level token"@,
            Error::ByteToken => "missing byte token"@,
            Error::Merge => "invalid merge"@,
            Error::UnknownToken => "merge refers to an unknown token"@,
            Error::Pattern(s) => s@,
            Error::Words(s) => s@,
            Error::MissingSpecial(content) => "missing special token '"@ + content@ + "'"@,
        }
    }

    /// The error in words.
    pub fn message(&self) -> (s: String)
        ensures
            s@ == self.text(),
    {
        match self {
            Error::File(e) => e.message(),
            Error::Pre(pre) => join3("the '", pre, "' pre-tokenizer is not supported"),
            Error::Lengths => own("tokens and token types differ in number"),
            Error::TooMany => own("more tokens than can be numbered"),
            Error::Token => own("invalid token"),
            Error::TokenType => own("invalid token type"),
            Error::ByteLevel => own("invalid byte-level token"),
            Error::ByteToken => own("missing byte token"),
            Error::Merge => own("invalid merge"),
            Error::UnknownToken => own("merge refers to an unknown token"),
            Error::Pattern(s) => own(s),
            Error::Words(s) => own(s),
            Error::MissingSpecial(content) => join3("missing special token '", content, "'"),
        }
    }
}

/// What a tokenizer knows.
#[verifier::ext_equal]
pub ghost struct Vocab {
    /// Bytes of every token, indexed by id.
    pub tokens: Seq<Seq<u8>>,
    /// Token id of every single byte.
    pub bytes: Seq<u32>,
    /// For each pair of adjacent tokens that can merge: the merge's rank and
    /// the merged token.
    pub merges: Map<u64, (usize, u32)>,
    /// Ids of special tokens such as `<|im_start|>`, by content.
    pub special: Map<Seq<char>, u32>,
}

/// The tokens of a vocabulary: their bytes, the id of each text, and that of
/// each special one.
#[verifier::ext_equal]
pub ghost struct Table {
    pub tokens: Seq<Seq<u8>>,
    pub ids: Map<Seq<char>, u32>,
    pub special: Map<Seq<char>, u32>,
}

/// The bytes that a byte-level text stands for.
pub open spec fn token_bytes(text: Seq<char>) -> Option<Seq<u8>> {
    if exists|i: int| 0 <= i < text.len() && (#[trigger] char_byte(text[i])) is None {
        None
    } else {
        Some(Seq::new(text.len(), |i: int| char_byte(text[i])->0))
    }
}

/// The tokens with one more.
pub open spec fn entry(t: Table, text: Val, kind: Val, id: u32) -> Result<Table, Refusal> {
    match text {
        Val::Str(s) => match kind.integer() {
            None => Err(Refusal::TokenType),
            Some(k) => if k == CONTROL || k == USER_DEFINED {
                Ok(
                    Table {
                        tokens: t.tokens.push(encode_utf8(s)),
                        ids: t.ids.insert(s, id),
                        special: t.special.insert(s, id),
                    },
                )
            } else {
                match token_bytes(s) {
                    None => Err(Refusal::ByteLevel),
                    Some(b) => Ok(
                        Table {
                            tokens: t.tokens.push(b),
                            ids: t.ids.insert(s, id),
                            special: t.special,
                        },
                    ),
                }
            },
        },
        _ => Err(Refusal::Token),
    }
}

/// The first `n` tokens.
pub open spec fn entries(texts: Seq<Val>, kinds: Seq<Val>, n: nat) -> Result<Table, Refusal>
    decreases n,
{
    if n == 0 {
        Ok(Table { tokens: Seq::empty(), ids: Map::empty(), special: Map::empty() })
    } else {
        match entries(texts, kinds, (n - 1) as nat) {
            Err(e) => Err(e),
            Ok(t) => entry(t, texts[n - 1], kinds[n - 1], (n - 1) as u32),
        }
    }
}

/// The tokens of single bytes.
pub open spec fn byte_tokens(ids: Map<Seq<char>, u32>) -> Result<Seq<u32>, Refusal> {
    if exists|b: u8| !(#[trigger] ids.contains_key(seq![byte_char(b as nat)])) {
        Err(Refusal::ByteToken)
    } else {
        Ok(Seq::new(256, |b: int| ids[seq![byte_char(b as nat)]]))
    }
}

/// The two texts round the first space.
pub open spec fn split_once(s: Seq<char>) -> Option<(Seq<char>, Seq<char>)> {
    match s.index_of_first(' ') {
        Some(i) => Some((s.take(i), s.skip(i + 1))),
        None => None,
    }
}

/// The merges with one more.
pub open spec fn merge_entry(
    ids: Map<Seq<char>, u32>,
    merges: Map<u64, (usize, u32)>,
    merge: Val,
    rank: usize,
) -> Result<Map<u64, (usize, u32)>, Refusal> {
    match merge {
        Val::Str(s) => match split_once(s) {
            None => Err(Refusal::Merge),
            Some((a, b)) => if ids.contains_key(a) && ids.contains_key(b) && ids.contains_key(
                a + b,
            ) {
                Ok(merges.insert(pair_key(ids[a], ids[b]), (rank, ids[a + b])))
            } else {
                Err(Refusal::UnknownToken)
            },
        },
        _ => Err(Refusal::Merge),
    }
}

/// The first `n` merges.
pub open spec fn merge_entries(ids: Map<Seq<char>, u32>, merges: Seq<Val>, n: nat) -> Result<
    Map<u64, (usize, u32)>,
    Refusal,
>
    decreases n,
{
    if n == 0 {
        Ok(Map::empty())
    } else {
        match merge_entries(ids, merges, (n - 1) as nat) {
            Err(e) => Err(e),
            Ok(m) => merge_entry(ids, m, merges[n - 1], (n - 1) as usize),
        }
    }
}

/// The array under a key.
pub open spec fn array_of(meta: Map<Seq<char>, Val>, key: Seq<char>) -> Result<Seq<Val>, Refusal> {
    if !meta.contains_key(key) {
        Err(Refusal::Missing(key))
    } else {
        match meta[key] {
            Val::Array(values) => Ok(values),
            _ => Err(Refusal::NotArray(key)),
        }
    }
}

/// Whether the metadata names a way to split words that is supported.
pub open spec fn pre_of(meta: Map<Seq<char>, Val>) -> Result<(), Refusal> {
    let key = "tokenizer.ggml.pre"@;
    if !meta.contains_key(key) {
        Err(Refusal::Missing(key))
    } else {
        match meta[key] {
            Val::Str(s) => if s == "qwen2"@ || s == "qwen35"@ {
                Ok(())
            } else {
                Err(Refusal::Pre(s))
            },
            _ => Err(Refusal::NotString(key)),
        }
    }
}

/// The vocabulary that a file's metadata carries, or the first thing that is
/// wrong with it.
pub open spec fn vocab(meta: Map<Seq<char>, Val>) -> Result<Vocab, Refusal> {
    match pre_of(meta) {
        Err(e) => Err(e),
        Ok(_) => match array_of(meta, "tokenizer.ggml.tokens"@) {
            Err(e) => Err(e),
            Ok(texts) => match array_of(meta, "tokenizer.ggml.token_type"@) {
                Err(e) => Err(e),
                Ok(kinds) => if texts.len() != kinds.len() {
                    Err(Refusal::Lengths)
                } else if texts.len() > 0x1_0000_0000 {
                    Err(Refusal::TooMany)
                } else {
                    match entries(texts, kinds, texts.len()) {
                        Err(e) => Err(e),
                        Ok(t) => match byte_tokens(t.ids) {
                            Err(e) => Err(e),
                            Ok(bytes) => match array_of(meta, "tokenizer.ggml.merges"@) {
                                Err(e) => Err(e),
                                Ok(list) => match merge_entries(t.ids, list, list.len()) {
                                    Err(e) => Err(e),
                                    Ok(merges) => match objection(QWEN_PATTERN@) {
                                        None => Ok(
                                            Vocab {
                                                tokens: t.tokens,
                                                bytes,
                                                merges,
                                                special: t.special,
                                            },
                                        ),
                                        Some(s) => Err(Refusal::Pattern(s)),
                                    },
                                },
                            },
                        },
                    }
                },
            },
        },
    }
}

/// What fails stays failed for more tokens.
proof fn lemma_entries_err(texts: Seq<Val>, kinds: Seq<Val>, m: nat, n: nat)
    requires
        m <= n,
        entries(texts, kinds, m) is Err,
    ensures
        entries(texts, kinds, n) == entries(texts, kinds, m),
    decreases n,
{
    if m < n {
        lemma_entries_err(texts, kinds, m, (n - 1) as nat);
    }
}

/// What fails stays failed for more merges.
proof fn lemma_merges_err(ids: Map<Seq<char>, u32>, merges: Seq<Val>, m: nat, n: nat)
    requires
        m <= n,
        merge_entries(ids, merges, m) is Err,
    ensures
        merge_entries(ids, merges, n) == merge_entries(ids, merges, m),
    decreases n,
{
    if m < n {
        lemma_merges_err(ids, merges, m, (n - 1) as nat);
    }
}

/// The bytes of every token.
pub open spec fn rows(tokens: Seq<Vec<u8>>) -> Seq<Seq<u8>> {
    tokens.map_values(|t: Vec<u8>| t@)
}

/// The tokens of a vocabulary as they are read.
pub struct Tokens {
    pub tokens: Vec<Vec<u8>>,
    pub ids: StringHashMap<u32>,
    pub special: StringHashMap<u32>,
    pub contents: Vec<String>,
}

impl Tokens {
    /// What has been read.
    pub open spec fn table(self) -> Table {
        Table { tokens: rows(self.tokens@), ids: self.ids@, special: self.special@ }
    }

    /// The contents are those of the special tokens, in order.
    pub open spec fn wf(self) -> bool {
        &&& sorted(texts(self.contents@))
        &&& texts(self.contents@).to_set() == self.special@.dom()
    }
}

/// The bytes that a byte-level text stands for.
fn decode_text(text: &str) -> (r: Option<Vec<u8>>)
    ensures
        match r {
            Some(b) => token_bytes(text@) == Some(b@),
            None => token_bytes(text@) is None,
        },
{
    let list = chars(text);
    let mut out: Vec<u8> = Vec::new();
    let mut i: usize = 0;
    while i < list.len()
        invariant
            i <= list@.len(),
            list@ == text@,
            out@.len() == i,
            forall|j: int| 0 <= j < i ==> #[trigger] char_byte(text@[j]) == Some(out@[j]),
        decreases list@.len() - i,
    {
        match to_byte(list[i]) {
            Some(b) => out.push(b),
            None => {
                assert(char_byte(text@[i as int]) is None);
                return None;
            },
        }
        i = i + 1;
    }
    assert(out@ =~= Seq::new(text@.len(), |i: int| char_byte(text@[i])->0));
    Some(out)
}

/// Reads the tokens of a vocabulary.
pub fn read_tokens(values: &[Value], kinds: &[Value]) -> (r: Result<Tokens, Error>)
    requires
        values@.len() == kinds@.len() <= 0x1_0000_0000,
    ensures
        match (r, entries(vals(values@), vals(kinds@), values@.len())) {
            (Ok(t), Ok(table)) => t.wf() && t.table() == table,
            (Err(e), Err(f)) => e.refusal() == f,
            _ => false,
        },
{
    let ghost v = vals(values@);
    let ghost k = vals(kinds@);
    proof {
        lemma_vals(values@);
        lemma_vals(kinds@);
    }
    let mut t = Tokens {
        tokens: Vec::new(),
        ids: StringHashMap::new(),
        special: StringHashMap::new(),
        contents: Vec::new(),
    };
    proof {
        assert(t.table() =~= Table {
            tokens: Seq::empty(),
            ids: Map::empty(),
            special: Map::empty(),
        });
        assert(texts(t.contents@).to_set() =~= t.special@.dom());
    }
    let mut i: usize = 0;
    while i < values.len()
        invariant
            i <= values@.len() == kinds@.len() <= 0x1_0000_0000,
            v == vals(values@),
            k == vals(kinds@),
            v.len() == k.len() == values@.len(),
            forall|i: int| 0 <= i < values@.len() ==> #[trigger] v[i] == values@[i].val(),
            forall|i: int| 0 <= i < kinds@.len() ==> #[trigger] k[i] == kinds@[i].val(),
            t.wf(),
            entries(v, k, i as nat) == Ok::<Table, Refusal>(t.table()),
        decreases values@.len() - i,
    {
        let ghost before = t.table();
        assert(v[i as int] == values@[i as int].val());
        assert(k[i as int] == kinds@[i as int].val());
        let text = match values[i].as_str() {
            Some(s) => s,
            None => {
                proof {
                    lemma_entries_err(v, k, (i + 1) as nat, v.len());
                }
                return Err(Error::Token);
            },
        };
        let kind: i64 = match kinds[i].as_i64() {
            Some(n) => n,
            None => {
                proof {
                    lemma_entries_err(v, k, (i + 1) as nat, v.len());
                }
                return Err(Error::TokenType);
            },
        };
        if kind == CONTROL || kind == USER_DEFINED {
            let mut bytes: Vec<u8> = Vec::new();
            push_all(&mut bytes, text.as_bytes());
            assert(bytes@ =~= encode_utf8(text@));
            let ghost dom = t.special@.dom();
            insert_sorted(&mut t.contents, text);
            t.special.insert(own(text), i as u32);
            assert(t.special@.dom() =~= dom.insert(text@));
            t.tokens.push(bytes);
            assert(rows(t.tokens@) =~= before.tokens.push(encode_utf8(text@)));
        } else {
            match decode_text(text) {
                Some(bytes) => {
                    let ghost b = bytes@;
                    t.tokens.push(bytes);
                    assert(rows(t.tokens@) =~= before.tokens.push(b));
                },
                None => {
                    proof {
                        lemma_entries_err(v, k, (i + 1) as nat, v.len());
                    }
                    return Err(Error::ByteLevel);
                },
            }
        }
        t.ids.insert(own(text), i as u32);
        i = i + 1;
        assert(entries(v, k, i as nat) == entry(before, v[i - 1], k[i - 1], (i - 1) as u32));
    }
    Ok(t)
}

/// Finds the tokens of single bytes.
pub fn read_bytes(ids: &StringHashMap<u32>) -> (r: Result<Vec<u32>, Error>)
    ensures
        match (r, byte_tokens(ids@)) {
            (Ok(bytes), Ok(b)) => bytes@ == b,
            (Err(e), Err(f)) => e.refusal() == f,
            _ => false,
        },
{
    let list = byte_chars();
    let mut out: Vec<u32> = Vec::new();
    let mut i: usize = 0;
    while i < 256
        invariant
            i <= 256,
            list@ == Seq::new(256, |b: int| byte_char(b as nat)),
            out@.len() == i,
            forall|b: u8| b < i ==> #[trigger] ids@.contains_key(seq![byte_char(b as nat)]),
            forall|j: int|
                0 <= j < i ==> #[trigger] out@[j] == ids@[seq![byte_char(j as nat)]],
        decreases 256 - i,
    {
        let mut text = String::new();
        text.push(list[i]);
        assert(text@ =~= seq![byte_char(i as nat)]);
        match ids.get(&text) {
            Some(id) => out.push(*id),
            None => {
                proof {
                    let b = i as u8;
                    assert(!ids@.contains_key(seq![byte_char(b as nat)]));
                }
                return Err(Error::ByteToken);
            },
        }
        i = i + 1;
    }
    assert(out@ =~= Seq::new(256, |b: int| ids@[seq![byte_char(b as nat)]]));
    Ok(out)
}

/// The two texts round the first space.
fn split_space(s: &str) -> (r: Option<(String, String)>)
    ensures
        match r {
            Some((a, b)) => split_once(s@) == Some((a@, b@)),
            None => split_once(s@) is None,
        },
{
    let list = chars(s);
    let mut i: usize = 0;
    while i < list.len()
        invariant
            i <= list@.len(),
            list@ == s@,
            forall|j: int| 0 <= j < i ==> list@[j] != ' ',
        decreases list@.len() - i,
    {
        if list[i] == ' ' {
            proof {
                s@.index_of_first_ensures(' ');
                assert(s@.contains(' '));
            }
            let a = string(vstd::slice::slice_subrange(list.as_slice(), 0, i));
            let b = string(vstd::slice::slice_subrange(list.as_slice(), i + 1, list.len()));
            assert(a@ =~= s@.take(i as int));
            assert(b@ =~= s@.skip(i + 1));
            return Some((a, b));
        }
        i = i + 1;
    }
    proof {
        s@.index_of_first_ensures(' ');
    }
    None
}

/// Reads the merges of a vocabulary.
pub fn read_merges(ids: &StringHashMap<u32>, list: &[Value]) -> (r: Result<Merges, Error>)
    ensures
        match (r, merge_entries(ids@, vals(list@), list@.len())) {
            (Ok(merges), Ok(m)) => merges@ == m,
            (Err(e), Err(f)) => e.refusal() == f,
            _ => false,
        },
{
    broadcast use vstd::std_specs::hash::group_hash_axioms;

    let ghost v = vals(list@);
    proof {
        lemma_vals(list@);
    }
    let mut merges: Merges = Merges::new();
    let mut i: usize = 0;
    while i < list.len()
        invariant
            i <= list@.len() == v.len(),
            forall|i: int| 0 <= i < list@.len() ==> #[trigger] v[i] == list@[i].val(),
            v == vals(list@),
            merge_entries(ids@, v, i as nat) == Ok::<Map<u64, (usize, u32)>, Refusal>(merges@),
        decreases list@.len() - i,
    {
        assert(v[i as int] == list@[i as int].val());
        let split = match list[i].as_str() {
            Some(s) => split_space(s),
            None => None,
        };
        let (a, b) = match split {
            Some(parts) => parts,
            None => {
                proof {
                    lemma_merges_err(ids@, v, (i + 1) as nat, v.len());
                }
                return Err(Error::Merge);
            },
        };
        let mut whole = own(&a);
        whole.append(&b);
        match (ids.get(&a), ids.get(&b), ids.get(&whole)) {
            (Some(x), Some(y), Some(z)) => {
                merges.insert(key(*x, *y), (i, *z));
            },
            _ => {
                proof {
                    lemma_merges_err(ids@, v, (i + 1) as nat, v.len());
                }
                return Err(Error::UnknownToken);
            },
        }
        i = i + 1;
    }
    Ok(merges)
}

} // verus!
