//! Turning text into tokens and back.
use fancy_regex::Regex;
use vstd::hash_map::StringHashMap;
use vstd::prelude::*;
use vstd::utf8::encode_utf8;

use super::bpe::{bpe, is_next, merge, singles, Merges};
use super::vocab::{read_bytes, read_merges, read_tokens, rows, vocab, Error, Vocab};
use super::laws::{law_loaded_is_valid, valid};
use super::words::{compile, compiled_from, find_words, found, QWEN_PATTERN};
use crate::gguf::value::lemma_vals;
use crate::gguf::Gguf;
use crate::text::{chars, own, same_text, sorted, string, texts};

verus! {

/// A byte-level BPE tokenizer.
pub struct Tokenizer {
    /// Splits text into words.
    pattern: Regex,
    /// Bytes of every token, indexed by id.
    tokens: Vec<Vec<u8>>,
    /// Token id of every single byte.
    bytes: Vec<u32>,
    /// For each pair of adjacent tokens that can merge: the merge's rank and
    /// the merged token.
    merges: Merges,
    /// Ids of special tokens such as `<|im_start|>`, by content.
    special: StringHashMap<u32>,
    /// Contents of special tokens, in order.
    contents: Vec<String>,
}

/// A piece of text that is meant to contain special tokens.
#[derive(Debug, PartialEq, Eq)]
pub enum Segment {
    /// Text without any.
    Plain(String),
    /// A special token, by id.
    Special(u32),
}

/// A piece of text that is meant to contain special tokens, as mathematics.
pub ghost enum Seg {
    Plain(Seq<char>),
    Special(u32),
}

impl Segment {
    /// What the piece holds.
    pub open spec fn seg(self) -> Seg {
        match self {
            Segment::Plain(s) => Seg::Plain(s@),
            Segment::Special(id) => Seg::Special(id),
        }
    }
}

/// What each piece holds.
pub open spec fn segs(s: Seq<Segment>) -> Seq<Seg> {
    s.map_values(|p: Segment| p.seg())
}

/// The tokens of words.
pub open spec fn encode_all(v: Vocab, words: Seq<Seq<char>>) -> Seq<u32>
    decreases words.len(),
{
    if words.len() == 0 {
        Seq::empty()
    } else {
        encode_all(v, words.drop_last()) + bpe(
            v.merges,
            singles(v.bytes, encode_utf8(words.last())),
        )
    }
}

/// Words of nothing have no tokens.
proof fn lemma_nothing(v: Vocab, words: Seq<Seq<char>>)
    requires
        forall|i: int| 0 <= i < words.len() ==> (#[trigger] words[i]).len() == 0,
    ensures
        encode_all(v, words).len() == 0,
    decreases words.len(),
{
    if words.len() > 0 {
        assert(words[words.len() - 1].len() == 0);
        assert forall|i: int| 0 <= i < words.drop_last().len() implies (
        #[trigger] words.drop_last()[i]).len() == 0 by {
            assert(words[i].len() == 0);
        }
        lemma_nothing(v, words.drop_last());
        let parts = singles(v.bytes, encode_utf8(words.last()));
        assert(encode_utf8(words.last()).len() == 0);
        assert(!exists|i: int| is_next(v.merges, parts, i));
    }
}

/// The tokens of a text, unless it cannot be split into words.
pub open spec fn encoded(v: Vocab, text: Seq<char>) -> Option<Seq<u32>> {
    match found(QWEN_PATTERN@, text) {
        Ok(words) => Some(encode_all(v, words)),
        Err(_) => None,
    }
}

/// Whether an error is what is said of some text that cannot be split into
/// words.
pub open spec fn unsplit(e: Error) -> bool {
    e matches Error::Words(s) && exists|text: Seq<char>| #[trigger]
        found(QWEN_PATTERN@, text) == Err::<Seq<Seq<char>>, Seq<char>>(s@)
}

/// Whether a content stands in a text at a position.
pub open spec fn occurs(text: Seq<char>, content: Seq<char>, at: int) -> bool {
    0 <= at && at + content.len() <= text.len() && text.subrange(at, at + content.len()) == content
}

/// Whether a special token is the next in a text: the earliest, and the
/// longest of those that start there.
pub open spec fn is_next_special(
    special: Map<Seq<char>, u32>,
    text: Seq<char>,
    at: int,
    content: Seq<char>,
) -> bool {
    &&& special.contains_key(content)
    &&& occurs(text, content, at)
    &&& forall|other: Seq<char>, j: int|
        special.contains_key(other) && #[trigger] occurs(text, other, j) ==> at < j || (at == j
            && other.len() <= content.len())
}

/// A text cut at the special tokens written in it.
pub open spec fn cut(special: Map<Seq<char>, u32>, text: Seq<char>) -> Seq<Seg>
    decreases text.len(),
{
    if text.len() == 0 {
        Seq::empty()
    } else if exists|at: int, content: Seq<char>|
        is_next_special(special, text, at, content) && content.len() > 0 {
        let (at, content) = choose|at: int, content: Seq<char>|
            is_next_special(special, text, at, content) && content.len() > 0;
        seq![Seg::Plain(text.take(at)), Seg::Special(special[content])] + cut(
            special,
            text.skip(at + content.len()),
        )
    } else {
        seq![Seg::Plain(text)]
    }
}

/// The tokens of pieces, unless one cannot be split into words.
pub open spec fn encode_segs(v: Vocab, pieces: Seq<Seg>) -> Option<Seq<u32>>
    decreases pieces.len(),
{
    if pieces.len() == 0 {
        Some(Seq::empty())
    } else {
        match encode_segs(v, pieces.drop_last()) {
            None => None,
            Some(tokens) => match pieces.last() {
                Seg::Special(id) => Some(tokens.push(id)),
                Seg::Plain(text) => match encoded(v, text) {
                    Some(more) => Some(tokens + more),
                    None => None,
                },
            },
        }
    }
}

/// Pieces that cannot be encoded stay so with more of them.
proof fn lemma_segs_none(v: Vocab, pieces: Seq<Seg>, n: int)
    requires
        0 <= n <= pieces.len(),
        encode_segs(v, pieces.take(n)) is None,
    ensures
        encode_segs(v, pieces) is None,
    decreases pieces.len(),
{
    if n == pieces.len() {
        assert(pieces.take(n) =~= pieces);
    } else {
        assert(pieces.drop_last().take(n) =~= pieces.take(n));
        lemma_segs_none(v, pieces.drop_last(), n);
    }
}

impl Tokenizer {
    /// What the tokenizer knows.
    pub closed spec fn vocab(&self) -> Vocab {
        Vocab {
            tokens: rows(self.tokens@),
            bytes: self.bytes@,
            merges: self.merges@,
            special: self.special@,
        }
    }

    /// There is a token for every byte, and the contents are those of the
    /// special tokens.
    pub closed spec fn wf(&self) -> bool {
        &&& self.bytes@.len() == 256
        &&& sorted(texts(self.contents@))
        &&& texts(self.contents@).to_set() == self.special@.dom()
        &&& compiled_from(self.pattern) == Some(QWEN_PATTERN@)
    }

    /// Loads the vocabulary a GGUF file carries: its tokens, their types, and
    /// the merges.
    pub fn from_gguf(file: &Gguf) -> (r: Result<Tokenizer, Error>)
        ensures
            match (r, vocab(file.meta_map())) {
                (Ok(t), Ok(v)) => t.wf() && t.vocab() == v && valid(v),
                (Err(e), Err(f)) => e.refusal() == f,
                _ => false,
            },
    {
        let pre = match file.str("tokenizer.ggml.pre") {
            Ok(s) => s,
            Err(e) => {
                return Err(Error::File(e));
            },
        };
        if !same_text(pre, "qwen2") && !same_text(pre, "qwen35") {
            return Err(Error::Pre(own(pre)));
        }
        let values = match file.array("tokenizer.ggml.tokens") {
            Ok(values) => values,
            Err(e) => {
                return Err(Error::File(e));
            },
        };
        let kinds = match file.array("tokenizer.ggml.token_type") {
            Ok(values) => values,
            Err(e) => {
                return Err(Error::File(e));
            },
        };
        proof {
            lemma_vals(values@);
            lemma_vals(kinds@);
        }
        if values.len() != kinds.len() {
            return Err(Error::Lengths);
        }
        if values.len() as u64 > 0x1_0000_0000 {
            return Err(Error::TooMany);
        }
        let t = match read_tokens(values, kinds) {
            Ok(t) => t,
            Err(e) => {
                return Err(e);
            },
        };
        let bytes = match read_bytes(&t.ids) {
            Ok(bytes) => bytes,
            Err(e) => {
                return Err(e);
            },
        };
        let list = match file.array("tokenizer.ggml.merges") {
            Ok(values) => values,
            Err(e) => {
                return Err(Error::File(e));
            },
        };
        proof {
            lemma_vals(list@);
        }
        let merges = match read_merges(&t.ids, list) {
            Ok(merges) => merges,
            Err(e) => {
                return Err(e);
            },
        };
        match compile(QWEN_PATTERN) {
            Ok(pattern) => {
                proof {
                    law_loaded_is_valid(file.meta_map());
                }
                Ok(
                    Tokenizer {
                        pattern,
                        tokens: t.tokens,
                        bytes,
                        merges,
                        special: t.special,
                        contents: t.contents,
                    },
                )
            },
            Err(e) => Err(Error::Pattern(e)),
        }
    }

    /// Encodes text into tokens. Special tokens in the text are treated as
    /// plain text; insert them by id with [`special`](Self::special), or
    /// encode text that is meant to contain them with
    /// [`encode_with_special`](Self::encode_with_special).
    pub fn encode(&self, text: &str) -> (r: Result<Vec<u32>, Error>)
        requires
            self.wf(),
        ensures
            match r {
                Ok(tokens) => encoded(self.vocab(), text@) == Some(tokens@) && (text@.len() == 0
                    ==> tokens@.len() == 0),
                Err(e) => encoded(self.vocab(), text@) is None && unsplit(e) && (
                e matches Error::Words(s) && found(QWEN_PATTERN@, text@) == Err::<
                    Seq<Seq<char>>,
                    Seq<char>,
                >(s@)),
            },
    {
        match find_words(&self.pattern, text) {
            Ok(words) => {
                proof {
                    if text@.len() == 0 {
                        assert forall|i: int| 0 <= i < words@.len() implies (#[trigger] texts(
                            words@,
                        )[i]).len() == 0 by {
                            let at = choose|at: int| occurs(text@, words@[i]@, at);
                            assert(occurs(text@, words@[i]@, at));
                        }
                        lemma_nothing(self.vocab(), texts(words@));
                    }
                }
                Ok(self.encode_words(words.as_slice()))
            },
            Err(e) => Err(Error::Words(e)),
        }
    }

    /// Encodes words into tokens.
    pub fn encode_words(&self, words: &[String]) -> (out: Vec<u32>)
        requires
            self.wf(),
        ensures
            out@ == encode_all(self.vocab(), texts(words@)),
    {
        let ghost w = texts(words@);
        let mut out: Vec<u32> = Vec::new();
        let mut i: usize = 0;
        assert(w.take(0) =~= Seq::empty());
        while i < words.len()
            invariant
                i <= words@.len(),
                self.wf(),
                w == texts(words@),
                out@ == encode_all(self.vocab(), w.take(i as int)),
            decreases words@.len() - i,
        {
            merge(
                &self.merges,
                self.bytes.as_slice(),
                words[i].as_str().as_bytes(),
                &mut out,
            );
            i = i + 1;
            assert(w.take(i as int).drop_last() =~= w.take(i - 1));
        }
        assert(w.take(w.len() as int) =~= w);
        out
    }

    /// Encodes text like [`encode`](Self::encode), but with special tokens
    /// written in it, such as `<tool_call>`, encoded by id. For text of the
    /// chat template, not text from the user, who could otherwise end a turn.
    pub fn encode_with_special(&self, text: &str) -> (r: Result<Vec<u32>, Error>)
        requires
            self.wf(),
            !self.vocab().special.contains_key(Seq::empty()),
        ensures
            match r {
                Ok(tokens) => encode_segs(self.vocab(), cut(self.vocab().special, text@)) == Some(
                    tokens@,
                ),
                Err(e) => encode_segs(self.vocab(), cut(self.vocab().special, text@)) is None
                    && unsplit(e),
            },
    {
        let pieces = self.segments(text);
        let ghost p = segs(pieces@);
        let mut out: Vec<u32> = Vec::new();
        let mut i: usize = 0;
        assert(p.take(0) =~= Seq::empty());
        while i < pieces.len()
            invariant
                i <= pieces@.len(),
                self.wf(),
                p == segs(pieces@),
                p == cut(self.vocab().special, text@),
                encode_segs(self.vocab(), p.take(i as int)) == Some(out@),
            decreases pieces@.len() - i,
        {
            assert(p.take(i + 1).drop_last() =~= p.take(i as int));
            assert(p.take(i + 1).last() == pieces@[i as int].seg());
            match &pieces[i] {
                Segment::Special(id) => out.push(*id),
                Segment::Plain(s) => match self.encode(s) {
                    Ok(tokens) => crate::bytes::push_all(&mut out, tokens.as_slice()),
                    Err(e) => {
                        proof {
                            lemma_segs_none(self.vocab(), p, i + 1);
                        }
                        return Err(e);
                    },
                },
            }
            i = i + 1;
        }
        assert(p.take(p.len() as int) =~= p);
        Ok(out)
    }

    /// Cuts a text at the special tokens written in it: at the earliest, and
    /// at the longest of those that start there; and then what is behind it.
    pub fn segments(&self, text: &str) -> (out: Vec<Segment>)
        requires
            self.wf(),
            !self.vocab().special.contains_key(Seq::empty()),
        ensures
            segs(out@) == cut(self.vocab().special, text@),
    {
        let list = chars(text);
        let ghost special = self.special@;
        let mut out: Vec<Segment> = Vec::new();
        let mut from: usize = 0;
        assert(list@.skip(0) =~= text@);
        assert(segs(out@) + cut(special, text@) =~= cut(special, text@));
        while from < list.len()
            invariant
                from <= list@.len(),
                self.wf(),
                special == self.vocab().special,
                !special.contains_key(Seq::empty()),
                segs(out@) + cut(special, list@.skip(from as int)) == cut(special, text@),
            decreases list@.len() - from,
        {
            let ghost rest = list@.skip(from as int);
            let ghost before = segs(out@);
            match self.next_special(list.as_slice(), from) {
                Some((at, len, id)) => {
                    let plain = string(vstd::slice::slice_subrange(list.as_slice(), from, at));
                    proof {
                        let content = rest.subrange(at - from, at - from + len);
                        assert(is_next_special(special, rest, at - from, content)
                            && content.len() > 0);
                        let (a, c) = choose|a: int, c: Seq<char>|
                            is_next_special(special, rest, a, c) && c.len() > 0;
                        assert(occurs(rest, c, a));
                        assert(occurs(rest, content, at - from));
                        assert(a == at - from);
                        assert(c =~= content);
                        assert(plain@ =~= rest.take(a));
                        assert(rest.skip(a + c.len()) =~= list@.skip(at + len));
                    }
                    out.push(Segment::Plain(plain));
                    out.push(Segment::Special(id));
                    from = at + len;
                    proof {
                        assert(segs(out@) =~= before + seq![
                            Seg::Plain(plain@),
                            Seg::Special(id),
                        ]);
                        assert(segs(out@) + cut(special, list@.skip(from as int)) =~= before + (seq![
                            Seg::Plain(plain@),
                            Seg::Special(id),
                        ] + cut(special, list@.skip(from as int))));
                    }
                },
                None => {
                    let plain = string(
                        vstd::slice::slice_subrange(list.as_slice(), from, list.len()),
                    );
                    assert(plain@ =~= rest);
                    out.push(Segment::Plain(plain));
                    from = list.len();
                    proof {
                        assert(list@.skip(from as int) =~= Seq::empty());
                        assert(segs(out@) =~= before + seq![Seg::Plain(rest)]);
                        assert(segs(out@) + cut(special, list@.skip(from as int)) =~= before + seq![
                            Seg::Plain(rest),
                        ]);
                    }
                },
            }
        }
        proof {
            assert(segs(out@) + cut(special, list@.skip(from as int)) =~= segs(out@));
        }
        out
    }

    /// The next special token from a position on: where it starts, how long
    /// it is, and its id.
    fn next_special(&self, list: &[char], from: usize) -> (r: Option<(usize, usize, u32)>)
        requires
            self.wf(),
            from <= list@.len(),
            !self.vocab().special.contains_key(Seq::empty()),
        ensures
            match r {
                Some((at, len, id)) => {
                    let rest = list@.skip(from as int);
                    let content = rest.subrange(at - from, at - from + len);
                    &&& from <= at
                    &&& at + len <= list@.len()
                    &&& len > 0
                    &&& is_next_special(self.vocab().special, rest, at - from, content)
                    &&& id == self.vocab().special[content]
                },
                None => !exists|at: int, content: Seq<char>|
                    is_next_special(
                        self.vocab().special,
                        list@.skip(from as int),
                        at,
                        content,
                    ),
            },
    {
        let ghost special = self.special@;
        let ghost rest = list@.skip(from as int);
        let mut at: usize = from;
        while at < list.len()
            invariant
                from <= at <= list@.len(),
                self.wf(),
                special == self.special@,
                special == self.vocab().special,
                !special.contains_key(Seq::empty()),
                rest == list@.skip(from as int),
                forall|c: Seq<char>, j: int|
                    special.contains_key(c) && #[trigger] occurs(rest, c, j) ==> j >= at - from,
            decreases list@.len() - at,
        {
            if let Some((len, id)) = self.special_at(list, at) {
                proof {
                    let content = list@.subrange(at as int, at + len);
                    assert(rest.subrange(at - from, at - from + len) =~= content);
                    assert forall|other: Seq<char>, j: int|
                        special.contains_key(other) && #[trigger] occurs(
                            rest,
                            other,
                            j,
                        ) implies at - from < j || (at - from == j && other.len()
                        <= content.len()) by {
                        if j == at - from {
                            assert(list@.subrange(at as int, at + other.len()) =~= other);
                            assert(occurs(list@, other, at as int));
                        }
                    }
                }
                return Some((at, len, id));
            }
            proof {
                assert forall|c: Seq<char>, j: int|
                    special.contains_key(c) && #[trigger] occurs(rest, c, j) implies j >= at + 1
                    - from by {
                    if j == at - from {
                        assert(list@.subrange(at as int, at + c.len()) =~= c);
                        assert(occurs(list@, c, at as int));
                    }
                }
            }
            at = at + 1;
        }
        proof {
            assert forall|a: int, c: Seq<char>| !is_next_special(special, rest, a, c) by {
                if is_next_special(special, rest, a, c) {
                    assert(occurs(rest, c, a));
                    assert(c.len() == 0);
                    assert(c =~= Seq::empty());
                }
            }
        }
        None
    }

    /// The longest special token that starts at a position, and its id.
    fn special_at(&self, list: &[char], at: usize) -> (r: Option<(usize, u32)>)
        requires
            self.wf(),
            at < list@.len(),
            !self.vocab().special.contains_key(Seq::empty()),
        ensures
            match r {
                Some((len, id)) => {
                    let content = list@.subrange(at as int, at + len);
                    &&& len > 0
                    &&& at + len <= list@.len()
                    &&& self.vocab().special.contains_key(content)
                    &&& self.vocab().special[content] == id
                    &&& forall|c: Seq<char>|
                        self.vocab().special.contains_key(c) && #[trigger] occurs(
                            list@,
                            c,
                            at as int,
                        ) ==> c.len() <= len
                },
                None => forall|c: Seq<char>|
                    self.vocab().special.contains_key(c) ==> !#[trigger] occurs(
                        list@,
                        c,
                        at as int,
                    ),
            },
    {
        let ghost special = self.special@;
        let ghost names = texts(self.contents@);
        let mut best: Option<(usize, u32)> = None;
        let mut i: usize = 0;
        while i < self.contents.len()
            invariant
                i <= self.contents@.len(),
                self.wf(),
                at < list@.len(),
                special == self.special@,
                special == self.vocab().special,
                names == texts(self.contents@),
                !special.contains_key(Seq::empty()),
                match best {
                    Some((len, id)) => {
                        let content = list@.subrange(at as int, at + len);
                        &&& len > 0
                        &&& at + len <= list@.len()
                        &&& special.contains_key(content)
                        &&& special[content] == id
                        &&& forall|j: int|
                            0 <= j < i && #[trigger] occurs(list@, names[j], at as int)
                                ==> names[j].len() <= len
                    },
                    None => forall|j: int|
                        0 <= j < i ==> !#[trigger] occurs(list@, names[j], at as int),
                },
            decreases self.contents@.len() - i,
        {
            let content = &self.contents[i];
            proof {
                assert(names[i as int] == content@);
                assert(names.to_set().contains(names[i as int]));
            }
            let c = chars(content);
            if starts_at(list, at, c.as_slice()) {
                proof {
                    if c@.len() == 0 {
                        assert(c@ =~= Seq::empty());
                    }
                }
                let longer = match best {
                    Some((len, _)) => c.len() > len,
                    None => true,
                };
                if longer {
                    if let Some(id) = self.special.get(content) {
                        best = Some((c.len(), *id));
                    }
                }
            }
            i = i + 1;
        }
        proof {
            assert forall|c: Seq<char>|
                special.contains_key(c) && #[trigger] occurs(list@, c, at as int) implies exists|
                j: int,
            | 0 <= j < names.len() && names[j] == c by {
                assert(names.to_set().contains(c));
            }
        }
        best
    }

    /// Bytes a token stands for. A token can end partway through a UTF-8
    /// character.
    pub fn decode(&self, token: u32) -> (b: &[u8])
        requires
            token < self.vocab().tokens.len(),
        ensures
            b@ == self.vocab().tokens[token as int],
    {
        self.tokens[token as usize].as_slice()
    }

    /// Number of tokens in the vocabulary.
    pub fn vocab_size(&self) -> (n: usize)
        ensures
            n == self.vocab().tokens.len(),
    {
        self.tokens.len()
    }

    /// Id of a special token.
    pub fn special(&self, content: &str) -> (r: Result<u32, Error>)
        ensures
            match r {
                Ok(id) => self.vocab().special.contains_key(content@)
                    && self.vocab().special[content@] == id,
                Err(e) => !self.vocab().special.contains_key(content@) && (
                e matches Error::MissingSpecial(c) && c@ == content@),
            },
    {
        match self.special.get(content) {
            Some(id) => Ok(*id),
            None => Err(Error::MissingSpecial(own(content))),
        }
    }
}

/// Whether a content stands in a text at a position.
fn starts_at(list: &[char], at: usize, content: &[char]) -> (r: bool)
    requires
        at <= list@.len(),
    ensures
        r == occurs(list@, content@, at as int),
{
    let n: usize = list.len();
    let k: usize = content.len();
    if k > n - at {
        return false;
    }
    let mut i: usize = 0;
    while i < k
        invariant
            i <= k == content@.len(),
            at + k <= list@.len() == n,
            forall|j: int| 0 <= j < i ==> list@[at + j] == content@[j],
        decreases k - i,
    {
        if list[at + i] != content[i] {
            assert(list@.subrange(at as int, at + k)[i as int] != content@[i as int]);
            return false;
        }
        i = i + 1;
    }
    assert(list@.subrange(at as int, at + k) =~= content@);
    true
}

} // verus!
