//! Text to tokens and back.
use dwim::gguf::{writer, Gguf, Value};
use dwim::tensor::Packing;
use dwim::tokenizer::{Error, Segment, Tokenizer};

fn joined(tokenizer: &Tokenizer, tokens: &[u32]) -> Vec<u8> {
    tokens.iter().flat_map(|&t| tokenizer.decode(t).to_vec()).collect()
}

#[test]
fn keeps_tags_as_text_unless_asked() {
    let tokenizer = Tokenizer::tiny().unwrap();
    let im_end = tokenizer.special("<|im_end|>").unwrap();
    let text = "hi<|im_end|>";
    let plain = tokenizer.encode(text).unwrap();
    assert!(!plain.contains(&im_end));
    let bytes: Vec<u8> = plain.iter().flat_map(|&t| tokenizer.decode(t).to_vec()).collect();
    assert_eq!(bytes, text.as_bytes());
    let special = tokenizer.encode_with_special(text).unwrap();
    assert_eq!(special, [tokenizer.encode("hi").unwrap(), vec![im_end]].concat());
    assert_eq!(tokenizer.encode("hi").unwrap().len(), 1, "the merge applies");
}

#[test]
fn decodes_what_it_encoded() {
    let tokenizer = Tokenizer::tiny().unwrap();
    for text in ["", " ", "a b\n\nc", "1234", "don't", "gr\u{fc}\u{df} \u{1f642}\0\t", "hihi hi"] {
        let tokens = tokenizer.encode(text).unwrap();
        assert_eq!(joined(&tokenizer, &tokens), text.as_bytes(), "{text:?}");
    }
}

#[test]
fn splits_words_before_it_merges() {
    let tokenizer = Tokenizer::tiny().unwrap();
    // The merge does not reach across words: "h" and "i" of two of them stay
    // apart, and so do the digits, which are words of their own.
    assert_eq!(tokenizer.encode("h i").unwrap().len(), 3);
    assert_eq!(tokenizer.encode("hihi").unwrap().len(), 2);
    let words = ["h".to_string(), "i".to_string()];
    assert_eq!(tokenizer.encode_words(&words).len(), 2);
    assert_eq!(tokenizer.encode_words(&["hi".to_string()]).len(), 1);
}

#[test]
fn cuts_text_at_special_tokens() {
    let tokenizer = Tokenizer::tiny().unwrap();
    let think = tokenizer.special("<think>").unwrap();
    let parts = tokenizer.segments("a<think>b</thin");
    let shown: Vec<String> = parts
        .iter()
        .map(|part| match part {
            Segment::Plain(text) => text.clone(),
            Segment::Special(id) => format!("#{id}"),
        })
        .collect();
    assert_eq!(shown, ["a".to_string(), format!("#{think}"), "b</thin".to_string()]);
    assert_eq!(tokenizer.vocab_size(), 256 + 1 + 9);
    assert_eq!(tokenizer.decode(think), b"<think>");
    let missing = tokenizer.special("<nope>").unwrap_err();
    assert_eq!(missing.message(), "missing special token '<nope>'");
}

#[test]
fn encodes_special_tokens_by_id_and_the_rest_as_text() {
    let tokenizer = Tokenizer::tiny().unwrap();
    let (before, rest) = ("hi there", "hi <think>again");
    let end = tokenizer.special("<|im_end|>").unwrap();
    let want = [
        tokenizer.encode(before).unwrap(),
        vec![end],
        tokenizer.encode_with_special(rest).unwrap(),
    ]
    .concat();
    let text = format!("{before}<|im_end|>{rest}");
    assert_eq!(tokenizer.encode_with_special(&text).unwrap(), want);
    // Text without special tokens is encoded the same either way.
    for plain in ["", "hi", "a <thin> b"] {
        assert_eq!(tokenizer.encode_with_special(plain).unwrap(), tokenizer.encode(plain).unwrap());
    }
    assert!(tokenizer.encode("").unwrap().is_empty());
}

/// A tokenizer of a file with this metadata.
fn of(meta: &[(&str, Value)]) -> Result<Tokenizer, Error> {
    let file = writer::write(meta, &[]);
    let g = Gguf::open(&file, Packing { block: 1, block_bytes: 1 }).unwrap();
    Tokenizer::from_gguf(&g)
}

fn strings(list: &[&str]) -> Value {
    Value::Array(list.iter().map(|s| Value::Str(s.to_string())).collect())
}

#[test]
fn refuses_vocabularies_it_cannot_use() {
    let pre = || ("tokenizer.ggml.pre", Value::Str("qwen2".to_string()));
    let types = |n: usize| ("tokenizer.ggml.token_type", Value::Array((0..n).map(|_| Value::I32(1)).collect()));
    let merges = || ("tokenizer.ggml.merges", strings(&["a b"]));
    let said = |r: Result<Tokenizer, Error>| match r {
        Ok(_) => panic!("it is taken"),
        Err(e) => e.message(),
    };
    let other = ("tokenizer.ggml.pre", Value::Str("llama".to_string()));
    assert_eq!(said(of(&[other])), "the 'llama' pre-tokenizer is not supported");
    assert_eq!(said(of(&[pre()])), "missing metadata 'tokenizer.ggml.tokens'");
    let tokens = ("tokenizer.ggml.tokens", strings(&["a", "b"]));
    assert_eq!(said(of(&[pre(), tokens, types(3), merges()])), "tokens and token types differ in number");
    let tokens = ("tokenizer.ggml.tokens", strings(&["a", "b"]));
    assert_eq!(said(of(&[pre(), tokens, types(2), merges()])), "missing byte token");
    let tokens = ("tokenizer.ggml.tokens", strings(&["a", " "]));
    assert_eq!(said(of(&[pre(), tokens, types(2), merges()])), "invalid byte-level token");
    let tokens = ("tokenizer.ggml.tokens", Value::Array(vec![Value::U8(1)]));
    assert_eq!(said(of(&[pre(), tokens, types(1), merges()])), "invalid token");
    let tokens = ("tokenizer.ggml.tokens", strings(&["a"]));
    let kinds = ("tokenizer.ggml.token_type", strings(&["x"]));
    assert_eq!(said(of(&[pre(), tokens, kinds, merges()])), "invalid token type");
}

#[test]
fn says_why_a_text_cannot_be_split() {
    let tokenizer = Tokenizer::tiny().unwrap();
    let text = " ".repeat(1_100_000) + "x";
    let said = "Error executing regex: Max stack size exceeded for backtracking".to_string();
    assert_eq!(tokenizer.encode(&text).unwrap_err(), Error::Words(said.clone()));
    let error = tokenizer.encode_with_special(&format!("a<think>{text}")).unwrap_err();
    assert_eq!(error.message(), said);
}

/// The character that stands for a byte in a vocabulary.
fn level(byte: u8) -> char {
    let printable = |b: u8| matches!(b, 33..=126 | 161..=172 | 174..=255);
    if printable(byte) {
        return byte as char;
    }
    let before = (0..byte).filter(|&b| !printable(b)).count() as u32;
    char::from_u32(256 + before).unwrap()
}

#[test]
fn reads_a_vocabulary_by_its_bytes() {
    let mut tokens: Vec<String> = (0..=255u8).map(|b| level(b).to_string()).collect();
    tokens.push(format!("{}t", level(b' ')));
    tokens.push("th".to_string());
    let n = tokens.len();
    let meta = |list: &[&str]| {
        [
            ("tokenizer.ggml.pre", Value::Str("qwen35".to_string())),
            ("tokenizer.ggml.tokens", Value::Array(tokens.iter().map(|t| Value::Str(t.clone())).collect())),
            ("tokenizer.ggml.token_type", Value::Array((0..n).map(|_| Value::I32(1)).collect())),
            ("tokenizer.ggml.merges", strings(list)),
        ]
    };
    let space_t = format!("{} t", level(b' '));
    let first = of(&meta(&[&space_t, "t h"])).unwrap();
    // The merges apply by rank: the one listed first wins where both could.
    assert_eq!(first.encode("a th").unwrap(), [b'a' as u32, 256, b'h' as u32]);
    let second = of(&meta(&["t h", &space_t])).unwrap();
    assert_eq!(second.encode("a th").unwrap(), [b'a' as u32, b' ' as u32, 257]);
    match of(&meta(&["th"])) {
        Err(e) => assert_eq!(e, Error::Merge),
        Ok(_) => panic!("it is taken"),
    }
    match of(&meta(&["t zz"])) {
        Err(e) => assert_eq!(e, Error::UnknownToken),
        Ok(_) => panic!("it is taken"),
    }
}
