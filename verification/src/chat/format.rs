//! How turns of a conversation are written as tokens.
use vstd::prelude::*;

use crate::bytes::push_all;
use crate::text::{own, texts};
use crate::tokenizer::coder::{encoded, unsplit};
use crate::tokenizer::vocab::Vocab;
use crate::tokenizer::{Error, Tokenizer};

verus! {

/// The tags of the format, as the ids of their special tokens.
pub struct Tags {
    pub im_start: u32,
    pub im_end: u32,
    pub end_of_text: u32,
    pub think: u32,
    pub think_end: u32,
    pub tool_call: u32,
    pub tool_call_end: u32,
    /// The tags around a tool's result: their special tokens, or the tags as
    /// text in a vocabulary without them.
    pub tool_response: Vec<u32>,
    pub tool_response_end: Vec<u32>,
}

/// A turn of a conversation, as a transcript of it keeps them: what the user
/// said; what the model replied, as the text it showed and the tool calls it
/// made as written, without the thought behind them; and what the tools
/// returned.
#[derive(Clone, Debug, PartialEq)]
pub enum Turn {
    User(String),
    Reply { text: String, calls: Vec<String> },
    Results(Vec<String>),
}

/// A turn round its content: the tokens of its role, the content, and those
/// of a line break.
pub open spec fn framed(t: Tags, role: Seq<u32>, content: Seq<u32>, line: Seq<u32>) -> Seq<u32> {
    seq![t.im_start] + role + content + seq![t.im_end] + line
}

/// A turn round its content, unless its texts cannot be encoded.
pub open spec fn turn_of(t: Tags, v: Vocab, role: Seq<char>, content: Seq<u32>) -> Option<Seq<u32>> {
    match encoded(v, role + "\n"@) {
        None => None,
        Some(r) => match encoded(v, "\n"@) {
            None => None,
            Some(n) => Some(framed(t, r, content, n)),
        },
    }
}

/// A message from the user as a turn.
pub open spec fn user_turn(t: Tags, v: Vocab, message: Seq<char>) -> Option<Seq<u32>> {
    match encoded(v, message) {
        None => None,
        Some(content) => turn_of(t, v, "user"@, content),
    }
}

/// A tool's result in its tags.
pub open spec fn response(t: Tags, body: Seq<u32>) -> Seq<u32> {
    t.tool_response@ + body + t.tool_response_end@
}

/// The results of tool calls in their tags, a line break between any two.
pub open spec fn responses(t: Tags, v: Vocab, outputs: Seq<Seq<char>>) -> Option<Seq<u32>>
    decreases outputs.len(),
{
    if outputs.len() == 0 {
        Some(Seq::empty())
    } else {
        match responses(t, v, outputs.drop_last()) {
            None => None,
            Some(before) => match encoded(v, "\n"@ + outputs.last() + "\n"@) {
                None => None,
                Some(body) => if outputs.len() == 1 {
                    Some(before + response(t, body))
                } else {
                    match encoded(v, "\n"@) {
                        None => None,
                        Some(n) => Some(before + n + response(t, body)),
                    }
                },
            },
        }
    }
}

/// The results of tool calls as a turn.
pub open spec fn results_turn(t: Tags, v: Vocab, outputs: Seq<Seq<char>>) -> Option<Seq<u32>> {
    match responses(t, v, outputs) {
        None => None,
        Some(content) => turn_of(t, v, "user"@, content),
    }
}

/// Tool calls in their tags, a line break between any two.
pub open spec fn written_calls(t: Tags, v: Vocab, calls: Seq<Seq<char>>) -> Option<Seq<u32>>
    decreases calls.len(),
{
    if calls.len() == 0 {
        Some(Seq::empty())
    } else {
        match written_calls(t, v, calls.drop_last()) {
            None => None,
            Some(before) => match encoded(v, calls.last()) {
                None => None,
                Some(body) => if calls.len() == 1 {
                    Some(before + (seq![t.tool_call] + body + seq![t.tool_call_end]))
                } else {
                    match encoded(v, "\n"@) {
                        None => None,
                        Some(n) => Some(
                            before + n + (seq![t.tool_call] + body + seq![t.tool_call_end]),
                        ),
                    }
                },
            },
        }
    }
}

/// A thought that is empty, and what is written behind it.
pub open spec fn unthought(t: Tags, gap: Seq<u32>, rest: Seq<u32>) -> Seq<u32> {
    seq![t.think] + gap + seq![t.think_end] + rest
}

/// A reply already made as a turn: an empty thought, its text, and its tool
/// calls as written.
pub open spec fn reply_turn(
    t: Tags,
    v: Vocab,
    text: Seq<char>,
    calls: Seq<Seq<char>>,
) -> Option<Seq<u32>> {
    match encoded(v, "\n\n"@) {
        None => None,
        Some(gap) => match encoded(v, "\n\n"@ + text) {
            None => None,
            Some(body) => match written_calls(t, v, calls) {
                None => None,
                Some(made) => turn_of(t, v, "assistant"@, unthought(t, gap, body) + made),
            },
        },
    }
}

/// A turn of a transcript as tokens.
pub open spec fn turn_tokens(t: Tags, v: Vocab, turn: Turn) -> Option<Seq<u32>> {
    match turn {
        Turn::User(message) => user_turn(t, v, message@),
        Turn::Reply { text, calls } => reply_turn(t, v, text@, texts(calls@)),
        Turn::Results(outputs) => results_turn(t, v, texts(outputs@)),
    }
}

/// A transcript as tokens.
pub open spec fn transcript(t: Tags, v: Vocab, turns: Seq<Turn>) -> Option<Seq<u32>>
    decreases turns.len(),
{
    if turns.len() == 0 {
        Some(Seq::empty())
    } else {
        match transcript(t, v, turns.drop_last()) {
            None => None,
            Some(before) => match turn_tokens(t, v, turns.last()) {
                None => None,
                Some(turn) => Some(before + turn),
            },
        }
    }
}

/// How the template opens a reply, with the thought open.
pub open spec fn opening(t: Tags, v: Vocab) -> Option<Seq<u32>> {
    match encoded(v, "assistant\n"@) {
        None => None,
        Some(role) => match encoded(v, "\n"@) {
            None => None,
            Some(n) => Some(seq![t.im_start] + role + seq![t.think] + n),
        },
    }
}

/// How the template opens a reply made without thinking.
pub open spec fn plain_opening(t: Tags, v: Vocab) -> Option<Seq<u32>> {
    match encoded(v, "assistant\n"@) {
        None => None,
        Some(role) => match encoded(v, "\n\n"@) {
            None => None,
            Some(gap) => Some(seq![t.im_start] + role + unthought(t, gap, gap)),
        },
    }
}

/// How a reply is ended, whether or not its thought is.
pub open spec fn closing(t: Tags, line: Seq<u32>, gap: Seq<u32>, thinking: bool) -> Seq<u32> {
    (if thinking {
        line + seq![t.think_end] + gap
    } else {
        Seq::empty()
    }) + seq![t.im_end] + line
}

/// A tag of the chat format as tokens: its special token if the vocabulary
/// has one, and otherwise the tag as text.
pub open spec fn tag_of(v: Vocab, text: Seq<char>) -> Option<Seq<u32>> {
    if v.special.contains_key(text) {
        Some(seq![v.special[text]])
    } else {
        encoded(v, text)
    }
}

/// A tag of the chat format as tokens.
pub fn tag(tokenizer: &Tokenizer, text: &str) -> (r: Result<Vec<u32>, Error>)
    requires
        tokenizer.wf(),
    ensures
        match r {
            Ok(tokens) => tag_of(tokenizer.vocab(), text@) == Some(tokens@),
            Err(e) => tag_of(tokenizer.vocab(), text@) is None && unsplit(e),
        },
{
    match tokenizer.special(text) {
        Ok(id) => {
            let mut out: Vec<u32> = Vec::new();
            out.push(id);
            assert(out@ =~= seq![id]);
            Ok(out)
        },
        Err(_) => tokenizer.encode(text),
    }
}

impl Tags {
    /// Encodes a turn of the conversation around its content's tokens.
    pub fn frame(&self, role: &[u32], content: &[u32], line: &[u32]) -> (out: Vec<u32>)
        ensures
            out@ == framed(*self, role@, content@, line@),
    {
        let mut out: Vec<u32> = Vec::new();
        out.push(self.im_start);
        push_all(&mut out, role);
        push_all(&mut out, content);
        out.push(self.im_end);
        push_all(&mut out, line);
        assert(out@ =~= framed(*self, role@, content@, line@));
        out
    }

    /// Encodes a turn of the conversation around its content's tokens.
    pub fn turn(&self, tokenizer: &Tokenizer, role: &str, content: &[u32]) -> (r: Result<
        Vec<u32>,
        Error,
    >)
        requires
            tokenizer.wf(),
        ensures
            match r {
                Ok(out) => turn_of(*self, tokenizer.vocab(), role@, content@) == Some(out@),
                Err(e) => turn_of(*self, tokenizer.vocab(), role@, content@) is None && unsplit(e),
            },
    {
        let mut name = own(role);
        name.append("\n");
        let role_tokens = match tokenizer.encode(&name) {
            Ok(tokens) => tokens,
            Err(e) => {
                return Err(e);
            },
        };
        match tokenizer.encode("\n") {
            Ok(line) => Ok(self.frame(role_tokens.as_slice(), content, line.as_slice())),
            Err(e) => Err(e),
        }
    }

    /// A message from the user as a turn.
    pub fn user(&self, tokenizer: &Tokenizer, message: &str) -> (r: Result<Vec<u32>, Error>)
        requires
            tokenizer.wf(),
        ensures
            match r {
                Ok(out) => user_turn(*self, tokenizer.vocab(), message@) == Some(out@),
                Err(e) => user_turn(*self, tokenizer.vocab(), message@) is None && unsplit(e),
            },
    {
        match tokenizer.encode(message) {
            Ok(content) => self.turn(tokenizer, "user", content.as_slice()),
            Err(e) => Err(e),
        }
    }

    /// The results of tool calls as a turn: a `<tool_response>` block each.
    pub fn results(&self, tokenizer: &Tokenizer, outputs: &[String]) -> (r: Result<Vec<u32>, Error>)
        requires
            tokenizer.wf(),
        ensures
            match r {
                Ok(out) => results_turn(*self, tokenizer.vocab(), texts(outputs@)) == Some(out@),
                Err(e) => results_turn(*self, tokenizer.vocab(), texts(outputs@)) is None && unsplit(e),
            },
    {
        let ghost v = tokenizer.vocab();
        let ghost o = texts(outputs@);
        let mut content: Vec<u32> = Vec::new();
        let mut i: usize = 0;
        assert(o.take(0) =~= Seq::empty());
        while i < outputs.len()
            invariant
                i <= outputs@.len(),
                tokenizer.wf(),
                v == tokenizer.vocab(),
                o == texts(outputs@),
                responses(*self, v, o.take(i as int)) == Some(content@),
            decreases outputs@.len() - i,
        {
            let ghost before = content@;
            proof {
                assert(o.take(i + 1).drop_last() =~= o.take(i as int));
                assert(o.take(i + 1).last() == outputs@[i as int]@);
            }
            if i > 0 {
                match tokenizer.encode("\n") {
                    Ok(line) => push_all(&mut content, line.as_slice()),
                    Err(e) => {
                        proof {
                            lemma_responses_none(*self, v, o, i + 1);
                        }
                        return Err(e);
                    },
                }
            }
            let ghost lined = content@;
            let mut text = own("\n");
            text.append(outputs[i].as_str());
            text.append("\n");
            match tokenizer.encode(&text) {
                Ok(body) => {
                    push_all(&mut content, self.tool_response.as_slice());
                    push_all(&mut content, body.as_slice());
                    push_all(&mut content, self.tool_response_end.as_slice());
                    assert(content@ =~= lined + response(*self, body@));
                },
                Err(e) => {
                    proof {
                        lemma_responses_none(*self, v, o, i + 1);
                    }
                    return Err(e);
                },
            }
            i = i + 1;
        }
        assert(o.take(o.len() as int) =~= o);
        self.turn(tokenizer, "user", content.as_slice())
    }

    /// A reply already made as a turn: an empty thought, its text, and its
    /// tool calls as written, each in a `<tool_call>` block.
    pub fn reply(&self, tokenizer: &Tokenizer, text: &str, calls: &[String]) -> (r: Result<
        Vec<u32>,
        Error,
    >)
        requires
            tokenizer.wf(),
        ensures
            match r {
                Ok(out) => reply_turn(*self, tokenizer.vocab(), text@, texts(calls@)) == Some(out@),
                Err(e) => reply_turn(*self, tokenizer.vocab(), text@, texts(calls@)) is None && unsplit(e),
            },
    {
        let ghost v = tokenizer.vocab();
        let ghost c = texts(calls@);
        let mut content: Vec<u32> = Vec::new();
        content.push(self.think);
        let gap = match tokenizer.encode("\n\n") {
            Ok(tokens) => tokens,
            Err(e) => {
                return Err(e);
            },
        };
        push_all(&mut content, gap.as_slice());
        content.push(self.think_end);
        let mut behind = own("\n\n");
        behind.append(text);
        let body = match tokenizer.encode(&behind) {
            Ok(tokens) => tokens,
            Err(e) => {
                return Err(e);
            },
        };
        push_all(&mut content, body.as_slice());
        let ghost start = unthought(*self, gap@, body@);
        assert(content@ =~= start);
        let ghost mut made: Seq<u32> = Seq::empty();
        let mut i: usize = 0;
        assert(c.take(0) =~= Seq::empty());
        assert(content@ =~= start + made);
        while i < calls.len()
            invariant
                i <= calls@.len(),
                tokenizer.wf(),
                v == tokenizer.vocab(),
                c == texts(calls@),
                written_calls(*self, v, c.take(i as int)) == Some(made),
                content@ == start + made,
            decreases calls@.len() - i,
        {
            proof {
                assert(c.take(i + 1).drop_last() =~= c.take(i as int));
                assert(c.take(i + 1).last() == calls@[i as int]@);
            }
            if i > 0 {
                match tokenizer.encode("\n") {
                    Ok(line) => {
                        push_all(&mut content, line.as_slice());
                        proof {
                            made = made + line@;
                            assert(content@ =~= start + made);
                        }
                    },
                    Err(e) => {
                        proof {
                            lemma_calls_none(*self, v, c, i + 1);
                        }
                        return Err(e);
                    },
                }
            }
            match tokenizer.encode(calls[i].as_str()) {
                Ok(body) => {
                    content.push(self.tool_call);
                    push_all(&mut content, body.as_slice());
                    content.push(self.tool_call_end);
                    proof {
                        made = made + (seq![self.tool_call] + body@ + seq![self.tool_call_end]);
                        assert(content@ =~= start + made);
                    }
                },
                Err(e) => {
                    proof {
                        lemma_calls_none(*self, v, c, i + 1);
                    }
                    return Err(e);
                },
            }
            i = i + 1;
        }
        assert(c.take(c.len() as int) =~= c);
        self.turn(tokenizer, "assistant", content.as_slice())
    }

    /// A turn of a transcript as tokens.
    pub fn tokens(&self, tokenizer: &Tokenizer, turn: &Turn) -> (r: Result<Vec<u32>, Error>)
        requires
            tokenizer.wf(),
        ensures
            match r {
                Ok(out) => turn_tokens(*self, tokenizer.vocab(), *turn) == Some(out@),
                Err(e) => turn_tokens(*self, tokenizer.vocab(), *turn) is None && unsplit(e),
            },
    {
        match turn {
            Turn::User(message) => self.user(tokenizer, message),
            Turn::Reply { text, calls } => self.reply(tokenizer, text, calls.as_slice()),
            Turn::Results(outputs) => self.results(tokenizer, outputs.as_slice()),
        }
    }
}

/// Results that cannot be encoded stay so with more of them.
proof fn lemma_responses_none(t: Tags, v: Vocab, outputs: Seq<Seq<char>>, n: int)
    requires
        0 <= n <= outputs.len(),
        responses(t, v, outputs.take(n)) is None,
    ensures
        responses(t, v, outputs) is None,
    decreases outputs.len(),
{
    if n == outputs.len() {
        assert(outputs.take(n) =~= outputs);
    } else {
        assert(outputs.drop_last().take(n) =~= outputs.take(n));
        lemma_responses_none(t, v, outputs.drop_last(), n);
    }
}

/// Calls that cannot be encoded stay so with more of them.
proof fn lemma_calls_none(t: Tags, v: Vocab, calls: Seq<Seq<char>>, n: int)
    requires
        0 <= n <= calls.len(),
        written_calls(t, v, calls.take(n)) is None,
    ensures
        written_calls(t, v, calls) is None,
    decreases calls.len(),
{
    if n == calls.len() {
        assert(calls.take(n) =~= calls);
    } else {
        assert(calls.drop_last().take(n) =~= calls.take(n));
        lemma_calls_none(t, v, calls.drop_last(), n);
    }
}

/// Turns that cannot be encoded stay so with more of them.
pub proof fn lemma_transcript_none(t: Tags, v: Vocab, turns: Seq<Turn>, n: int)
    requires
        0 <= n <= turns.len(),
        transcript(t, v, turns.take(n)) is None,
    ensures
        transcript(t, v, turns) is None,
    decreases turns.len(),
{
    if n == turns.len() {
        assert(turns.take(n) =~= turns);
    } else {
        assert(turns.drop_last().take(n) =~= turns.take(n));
        lemma_transcript_none(t, v, turns.drop_last(), n);
    }
}

} // verus!
