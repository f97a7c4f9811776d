//! A tokenizer over a tiny vocabulary, for tests.
use vstd::prelude::*;
use vstd::utf8::{encode_scalar, encode_utf8};

use super::coder::Tokenizer;
use super::laws::valid;
use super::level::{byte_char, byte_chars, char_byte, law_bytes_read_back};
use super::vocab::{
    array_of, entries, merge_entries, pre_of, token_bytes, vocab, Error, Refusal, Vocab, CONTROL,
    USER_DEFINED,
};
use super::words::{objection, QWEN_PATTERN};
use crate::bytes::lemma_le_bytes_len;
use crate::gguf::layout::{alignment, table};
use crate::gguf::value::{lemma_vals, vals, Val, Value};
use crate::gguf::writer::{
    all_filled, encode, encode_descs, encode_head, encode_meta, encode_metas, encodes, filled,
    image, law_head_reads_back, lemma_round_up, meta_of, meta_storable, pieces_of, storable,
    storables, Piece,
};
use crate::gguf::Gguf;
use crate::tensor::Packing;
use crate::text::own;

verus! {

/// The special tokens of the chat format.
pub open spec fn tiny_special() -> Seq<Seq<char>> {
    seq![
        "<|endoftext|>"@,
        "<|im_start|>"@,
        "<|im_end|>"@,
        "<tool_call>"@,
        "</tool_call>"@,
        "<tool_response>"@,
        "</tool_response>"@,
        "<think>"@,
        "</think>"@,
    ]
}

/// A token per byte, one merge, and the special tokens.
pub open spec fn tiny_tokens() -> Seq<Val> {
    Seq::new(256, |b: int| Val::Str(seq![byte_char(b as nat)])) + seq![Val::Str("hi"@)]
        + tiny_special().map_values(|s: Seq<char>| Val::Str(s))
}

/// The types of the tokens.
pub open spec fn tiny_types() -> Seq<Val> {
    Seq::new(257, |b: int| Val::I32(1)) + Seq::new(
        9,
        |i: int|
            if i < 3 {
                Val::I32(3)
            } else {
                Val::I32(4)
            },
    )
}

/// The metadata of a file with the tiny vocabulary.
pub open spec fn tiny_meta() -> Seq<(Seq<char>, Val)> {
    seq![
        ("tokenizer.ggml.pre"@, Val::Str("qwen2"@)),
        ("tokenizer.ggml.tokens"@, Val::Array(tiny_tokens())),
        ("tokenizer.ggml.token_type"@, Val::Array(tiny_types())),
        ("tokenizer.ggml.merges"@, Val::Array(seq![Val::Str("h i"@)])),
    ]
}

/// A character takes at most four bytes.
proof fn lemma_encode_len(s: Seq<char>)
    ensures
        encode_utf8(s).len() <= 4 * s.len(),
    decreases s.len(),
{
    if s.len() > 0 {
        lemma_encode_len(s.drop_first());
        assert(encode_scalar(s[0] as u32).len() <= 4);
    }
}

/// Short texts and numbers.
spec fn small(v: Val) -> bool {
    match v {
        Val::Str(s) => s.len() <= 20,
        Val::I32(_) => true,
        _ => false,
    }
}

/// What small values take.
proof fn lemma_small(v: Val)
    requires
        small(v),
    ensures
        encode(v).len() <= 100,
        filled(v),
        storable(v),
{
    match v {
        Val::Str(s) => {
            lemma_encode_len(s);
            lemma_le_bytes_len(encode_utf8(s).len(), 8);
        },
        _ => {
            lemma_le_bytes_len(crate::gguf::writer::number_of(v), 4);
        },
    }
}

/// What arrays of small values of one kind take.
proof fn lemma_smalls(values: Seq<Val>, kind: u32)
    requires
        forall|i: int| 0 <= i < values.len() ==> small(#[trigger] values[i]),
        forall|i: int| 0 <= i < values.len() ==> (#[trigger] values[i]).kind() == kind,
    ensures
        encodes(values).len() <= 100 * values.len(),
        all_filled(values),
        storables(values, kind),
    decreases values.len(),
{
    if values.len() > 0 {
        lemma_smalls(values.drop_last(), kind);
        lemma_small(values.last());
    }
}

/// What an array of small values takes.
proof fn lemma_small_array(values: Seq<Val>, kind: u32)
    requires
        0 < values.len() <= 1000,
        forall|i: int| 0 <= i < values.len() ==> small(#[trigger] values[i]),
        forall|i: int| 0 <= i < values.len() ==> (#[trigger] values[i]).kind() == kind,
    ensures
        encode(Val::Array(values)).len() <= 12 + 100 * values.len(),
        filled(Val::Array(values)),
        storable(Val::Array(values)),
{
    lemma_smalls(values, kind);
    lemma_le_bytes_len(values[0].kind() as nat, 4);
    lemma_le_bytes_len(values.len(), 8);
}

/// What a key and its value take.
proof fn lemma_meta_len(key: Seq<char>, v: Val)
    requires
        key.len() <= 30,
    ensures
        encode_meta((key, v)).len() <= 200 + encode(v).len(),
        encode_utf8(key).len() <= 120,
{
    lemma_encode_len(key);
    lemma_le_bytes_len(encode_utf8(key).len(), 8);
    lemma_le_bytes_len(v.kind() as nat, 4);
}

/// The metadata of the tiny vocabulary can be written and read back.
proof fn lemma_tiny_meta()
    ensures
        meta_storable(tiny_meta()),
        forall|i: int| 0 <= i < tiny_meta().len() ==> filled(#[trigger] tiny_meta()[i].1),
        image(tiny_meta(), Seq::<Piece>::empty()).len() <= 100_000,
        alignment(table(tiny_meta())) == 32,
{
    reveal_strlit("tokenizer.ggml.pre");
    reveal_strlit("tokenizer.ggml.tokens");
    reveal_strlit("tokenizer.ggml.token_type");
    reveal_strlit("tokenizer.ggml.merges");
    reveal_strlit("general.alignment");
    reveal_strlit("qwen2");
    reveal_strlit("hi");
    reveal_strlit("h i");
    lemma_tiny_special();
    let meta = tiny_meta();
    let tokens = tiny_tokens();
    let types = tiny_types();
    let merges = seq![Val::Str("h i"@)];
    assert forall|i: int| 0 <= i < tokens.len() implies small(#[trigger] tokens[i])
        && tokens[i].kind() == 8 by {
        if i >= 257 {
            assert(tokens[i] == Val::Str(tiny_special()[i - 257]));
        }
    }
    lemma_small_array(tokens, 8);
    lemma_small_array(types, 5);
    lemma_small_array(merges, 8);
    lemma_small(meta[0].1);
    lemma_meta_len(meta[0].0, meta[0].1);
    lemma_meta_len(meta[1].0, meta[1].1);
    lemma_meta_len(meta[2].0, meta[2].1);
    lemma_meta_len(meta[3].0, meta[3].1);
    let m3 = meta.drop_last();
    let m2 = m3.drop_last();
    let m1 = m2.drop_last();
    assert(m1.drop_last() =~= Seq::empty());
    assert(encode_metas(m1.drop_last()).len() == 0);
    assert(encode_metas(m1).len() <= 400);
    assert(encode_metas(m2).len() <= 40_000);
    assert(encode_metas(m3).len() <= 80_000);
    assert(encode_metas(meta).len() <= 81_000);
    assert(encode_descs(Seq::<Piece>::empty()).len() == 0);
    lemma_le_bytes_len(3, 4);
    lemma_le_bytes_len(0, 8);
    lemma_le_bytes_len(4, 8);
    lemma_round_up(encode_head(meta, Seq::<Piece>::empty()).len());
    assert(!table(m1.drop_last()).contains_key("general.alignment"@));
    assert(!table(m1).contains_key("general.alignment"@));
    assert(!table(m2).contains_key("general.alignment"@));
    assert(!table(m3).contains_key("general.alignment"@));
}

/// The special tokens are short.
proof fn lemma_tiny_special()
    ensures
        forall|i: int| 0 <= i < 9 ==> 0 < (#[trigger] tiny_special()[i]).len() <= 20,
{
    reveal_strlit("<|endoftext|>");
    reveal_strlit("<|im_start|>");
    reveal_strlit("<|im_end|>");
    reveal_strlit("<tool_call>");
    reveal_strlit("</tool_call>");
    reveal_strlit("<tool_response>");
    reveal_strlit("</tool_response>");
    reveal_strlit("<think>");
    reveal_strlit("</think>");
}

/// A character of a letter is that of its byte.
proof fn lemma_tiny_letters()
    ensures
        byte_char(104) == 'h',
        byte_char(105) == 'i',
        "hi"@ == seq!['h', 'i'],
        token_bytes("hi"@) is Some,
{
    reveal_strlit("hi");
    law_bytes_read_back(104);
    law_bytes_read_back(105);
    assert("hi"@ =~= seq!['h', 'i']);
    assert(char_byte("hi"@[0]) is Some && char_byte("hi"@[1]) is Some);
}

/// The first tokens of the tiny vocabulary: all of them have ids, and the
/// special ones are those of the chat format.
proof fn lemma_tiny_entries(n: nat)
    requires
        n <= 266,
    ensures
        entries(tiny_tokens(), tiny_types(), n) matches Ok(t) && {
            &&& forall|i: int| #![trigger tiny_tokens()[i]]
                0 <= i < n ==> t.ids.contains_key(tiny_tokens()[i]->Str_0)
            &&& forall|i: int| #![trigger tiny_special()[i]]
                0 <= i < n - 257 ==> t.special.contains_key(tiny_special()[i])
            &&& forall|c: Seq<char>| #[trigger]
                t.special.contains_key(c) ==> tiny_special().contains(c)
        },
    decreases n,
{
    if n > 0 {
        lemma_tiny_entries((n - 1) as nat);
        let i = n - 1;
        let s = tiny_tokens()[i]->Str_0;
        if i < 256 {
            law_bytes_read_back(i as u8);
            assert(s == seq![byte_char(i as nat)]);
            assert(char_byte(s[0]) is Some);
            assert(token_bytes(s) is Some);
            assert(tiny_types()[i] == Val::I32(1));
        } else if i == 256 {
            lemma_tiny_letters();
            assert(s == "hi"@);
            assert(tiny_types()[i] == Val::I32(1));
        } else {
            assert(s == tiny_special()[i - 257]);
            assert(tiny_types()[i].integer() == Some(3i64) || tiny_types()[i].integer() == Some(4i64));
        }
    }
}

/// The tiny vocabulary is one, if the words of a text can be found.
proof fn lemma_tiny_vocab()
    ensures
        match vocab(table(tiny_meta())) {
            Ok(v) => {
                &&& objection(QWEN_PATTERN@) is None
                &&& v.tokens.len() == 266
                &&& v.special.dom() == tiny_special().to_set()
                &&& !v.special.contains_key(Seq::empty())
            },
            Err(e) => objection(QWEN_PATTERN@) matches Some(s) && e == Refusal::Pattern(s),
        },
{
    reveal_strlit("tokenizer.ggml.pre");
    reveal_strlit("tokenizer.ggml.tokens");
    reveal_strlit("tokenizer.ggml.token_type");
    reveal_strlit("tokenizer.ggml.merges");
    reveal_strlit("h i");
    let meta = tiny_meta();
    let m3 = meta.drop_last();
    let m2 = m3.drop_last();
    let m1 = m2.drop_last();
    assert(m1.drop_last() =~= Seq::empty());
    let map = table(meta);
    assert("tokenizer.ggml.pre"@.len() == 18 && "tokenizer.ggml.token_type"@.len() == 25);
    assert("tokenizer.ggml.tokens"@.len() == 21 && "tokenizer.ggml.merges"@.len() == 21);
    assert("tokenizer.ggml.tokens"@[15] == 't' && "tokenizer.ggml.merges"@[15] == 'm');
    assert(table(m1)["tokenizer.ggml.pre"@] == meta[0].1);
    assert(table(m2)["tokenizer.ggml.pre"@] == meta[0].1);
    assert(table(m3)["tokenizer.ggml.pre"@] == meta[0].1);
    assert(pre_of(map) is Ok);
    assert(table(m2)["tokenizer.ggml.tokens"@] == meta[1].1);
    assert(table(m3)["tokenizer.ggml.tokens"@] == meta[1].1);
    assert(array_of(map, "tokenizer.ggml.tokens"@) == Ok::<Seq<Val>, Refusal>(tiny_tokens()));
    assert(table(m3)["tokenizer.ggml.token_type"@] == meta[2].1);
    assert(array_of(map, "tokenizer.ggml.token_type"@) == Ok::<Seq<Val>, Refusal>(tiny_types()));
    let list = seq![Val::Str("h i"@)];
    assert(array_of(map, "tokenizer.ggml.merges"@) == Ok::<Seq<Val>, Refusal>(list));
    lemma_tiny_entries(266);
    lemma_tiny_letters();
    let t = entries(tiny_tokens(), tiny_types(), 266)->Ok_0;
    assert forall|b: u8| #[trigger] t.ids.contains_key(seq![byte_char(b as nat)]) by {
        assert(tiny_tokens()[b as int]->Str_0 == seq![byte_char(b as nat)]);
    }
    assert(tiny_tokens()[256]->Str_0 == "hi"@);
    let s = "h i"@;
    assert(s[1] == ' ' && s[0] == 'h');
    assert(s.contains(' '));
    s.index_of_first_ensures(' ');
    assert(s.index_of_first(' ') == Some(1int));
    assert(s.take(1) =~= seq![byte_char(104)]);
    assert(s.skip(2) =~= seq![byte_char(105)]);
    assert(t.ids.contains_key(seq![byte_char(104u8 as nat)]));
    assert(t.ids.contains_key(seq![byte_char(105u8 as nat)]));
    assert(s.take(1) + s.skip(2) =~= "hi"@);
    assert(merge_entries(t.ids, list, 0) is Ok);
    assert(merge_entries(t.ids, list, 1) is Ok);
    lemma_tiny_count(266);
    assert forall|c: Seq<char>| tiny_special().to_set().contains(c) implies #[trigger] t.special.contains_key(c) by {
        let i = choose|i: int| 0 <= i < tiny_special().len() && tiny_special()[i] == c;
        assert(t.special.contains_key(tiny_special()[i]));
    }
    assert(t.special.dom() =~= tiny_special().to_set());
    lemma_tiny_special();
}

/// As many tokens as have been read.
proof fn lemma_tiny_count(n: nat)
    requires
        n <= 266,
    ensures
        entries(tiny_tokens(), tiny_types(), n) matches Ok(t) ==> t.tokens.len() == n,
    decreases n,
{
    if n > 0 {
        lemma_tiny_count((n - 1) as nat);
    }
}

/// A text value.
fn text(s: &str) -> (v: Value)
    ensures
        v.val() == Val::Str(s@),
{
    Value::Str(own(s))
}

/// The values of the tokens.
fn token_values() -> (out: Vec<Value>)
    ensures
        vals(out@) == tiny_tokens(),
{
    let list = byte_chars();
    let mut out: Vec<Value> = Vec::new();
    let mut i: usize = 0;
    while i < 256
        invariant
            i <= 256,
            list@ == Seq::new(256, |b: int| byte_char(b as nat)),
            out@.len() == i,
            forall|j: int|
                0 <= j < i ==> (#[trigger] out@[j]).val() == Val::Str(seq![byte_char(j as nat)]),
        decreases 256 - i,
    {
        let mut s = String::new();
        s.push(list[i]);
        assert(s@ =~= seq![byte_char(i as nat)]);
        out.push(Value::Str(s));
        i = i + 1;
    }
    out.push(text("hi"));
    out.push(text("<|endoftext|>"));
    out.push(text("<|im_start|>"));
    out.push(text("<|im_end|>"));
    out.push(text("<tool_call>"));
    out.push(text("</tool_call>"));
    out.push(text("<tool_response>"));
    out.push(text("</tool_response>"));
    out.push(text("<think>"));
    out.push(text("</think>"));
    proof {
        lemma_vals(out@);
        assert(vals(out@) =~= tiny_tokens());
    }
    out
}

/// The values of the types of the tokens.
fn type_values() -> (out: Vec<Value>)
    ensures
        vals(out@) == tiny_types(),
{
    let mut out: Vec<Value> = Vec::new();
    let mut i: usize = 0;
    while i < 266
        invariant
            i <= 266,
            out@.len() == i,
            forall|j: int| 0 <= j < i ==> (#[trigger] out@[j]).val() == tiny_types()[j],
        decreases 266 - i,
    {
        out.push(
            Value::I32(
                if i < 257 {
                    1
                } else if i < 260 {
                    CONTROL as i32
                } else {
                    USER_DEFINED as i32
                },
            ),
        );
        i = i + 1;
    }
    proof {
        lemma_vals(out@);
        assert(vals(out@) =~= tiny_types());
    }
    out
}

impl Tokenizer {
    /// A tokenizer over a tiny vocabulary for tests: a token per byte, one
    /// merge, and the special tokens of the chat format.
    #[verifier::rlimit(60)]
    #[verifier::spinoff_prover]
    pub fn tiny() -> (r: Result<Tokenizer, Error>)
        ensures
            match r {
                Ok(t) => {
                    &&& objection(QWEN_PATTERN@) is None
                    &&& t.wf()
                    &&& vocab(table(tiny_meta())) == Ok::<Vocab, Refusal>(t.vocab())
                    &&& valid(t.vocab())
                    &&& t.vocab().tokens.len() == 266
                    &&& t.vocab().special.dom() == tiny_special().to_set()
                    &&& !t.vocab().special.contains_key(Seq::empty())
                },
                Err(e) => e matches Error::Pattern(s) && objection(QWEN_PATTERN@) == Some(s@),
            },
    {
        let mut merges: Vec<Value> = Vec::new();
        merges.push(text("h i"));
        let mut meta: Vec<(&str, Value)> = Vec::new();
        proof {
            lemma_vals(merges@);
            assert(vals(merges@) =~= seq![Val::Str("h i"@)]);
        }
        meta.push(("tokenizer.ggml.pre", text("qwen2")));
        meta.push(("tokenizer.ggml.tokens", Value::Array(token_values())));
        meta.push(("tokenizer.ggml.token_type", Value::Array(type_values())));
        meta.push(("tokenizer.ggml.merges", Value::Array(merges)));
        let tensors: Vec<(String, Vec<usize>, u32, Vec<u8>)> = Vec::new();
        proof {
            assert(meta_of(meta@) =~= tiny_meta());
            assert(pieces_of(tensors@) =~= Seq::empty());
            lemma_tiny_meta();
            law_head_reads_back(tiny_meta(), Seq::empty());
        }
        let file = crate::gguf::writer::write(meta.as_slice(), tensors.as_slice());
        match Gguf::open(file.as_slice(), Packing { block: 1, block_bytes: 1 }) {
            Ok(g) => {
                assert(g.meta_map() == table(tiny_meta()));
                let r = Tokenizer::from_gguf(&g);
                proof {
                    lemma_tiny_vocab();
                }
                r
            },
            Err(_) => Err(Error::Merge),
        }
    }
}

} // verus!
