//! A reply as it is generated: what each token that the model says means.
use vstd::prelude::*;

use super::format::Tags;
use super::stream::{pushed, Utf8Stream};
use crate::text::{blank, is_blank, texts};
use crate::tokenizer::vocab::Vocab;

verus! {

/// What tokens fed to the model count as.
#[derive(Clone, Copy, Debug, PartialEq, Eq, Structural)]
pub enum Kind {
    Prompt,
    Thought,
    Answer,
}

/// A piece of the model's reply, as it is generated.
pub enum Chunk<'a> {
    /// Part of the model's thought, before it replies.
    Thought(&'a str),
    /// Part of the reply itself.
    Text(&'a str),
}

/// A piece of the model's reply to show.
#[derive(Debug, PartialEq, Eq)]
pub enum Shown {
    Thought(String),
    Text(String),
}

/// What a token that the model says asks for.
#[derive(Debug, PartialEq, Eq)]
pub enum Step {
    /// The reply is over.
    Stop,
    /// Another token is to be picked in its place.
    Again,
    /// A token is to be fed, once what there is of it has been shown.
    Feed { token: u32, kind: Kind, shown: Option<Shown> },
}

/// A piece of the reply, as mathematics.
pub ghost enum Part {
    Thought(Seq<char>),
    Text(Seq<char>),
}

/// What a token asks for, as mathematics.
pub ghost enum Move {
    Stop,
    Again,
    Feed(u32, Kind, Option<Part>),
}

/// Where a reply is, as mathematics.
#[verifier::ext_equal]
pub ghost struct Talk {
    /// Bytes held back until their character is whole.
    pub pending: Seq<u8>,
    /// The tool calls made.
    pub calls: Seq<Seq<char>>,
    /// Whether the model is inside its `<think>` block.
    pub thinking: bool,
    /// The body of the tool call being written, if the model is in one.
    pub call: Option<Seq<char>>,
    /// Whether the reply has shown any text, or called a tool.
    pub replied: bool,
    /// Whether the model tried to end the reply without doing either, and
    /// must write out its answer before it may end.
    pub answering: bool,
}

impl<'a> Chunk<'a> {
    /// What is shown.
    pub open spec fn part(self) -> Part {
        match self {
            Chunk::Thought(s) => Part::Thought(s@),
            Chunk::Text(s) => Part::Text(s@),
        }
    }
}

impl Shown {
    /// What is shown.
    pub open spec fn part(self) -> Part {
        match self {
            Shown::Thought(s) => Part::Thought(s@),
            Shown::Text(s) => Part::Text(s@),
        }
    }
}

impl Step {
    /// What is asked for.
    pub open spec fn view(&self) -> Move {
        match self {
            Step::Stop => Move::Stop,
            Step::Again => Move::Again,
            Step::Feed { token, kind, shown } => Move::Feed(
                *token,
                *kind,
                match shown {
                    Some(s) => Some(s.part()),
                    None => None,
                },
            ),
        }
    }
}

/// Where a reply starts: the template opens the thought for the model.
pub open spec fn start() -> Talk {
    Talk {
        pending: Seq::empty(),
        calls: Seq::empty(),
        thinking: true,
        call: None,
        replied: false,
        answering: false,
    }
}

/// The tokens that the model may not say next: one that has answered only in
/// its thought has to write the answer out, as text rather than another tool
/// call, before it may end.
pub open spec fn masked(t: Tags, s: Talk) -> Seq<u32> {
    if s.answering && !s.replied {
        seq![t.im_end, t.end_of_text, t.tool_call]
    } else {
        Seq::empty()
    }
}

/// What tokens count as while the reply is where it is.
pub open spec fn kind_of(s: Talk) -> Kind {
    if s.thinking {
        Kind::Thought
    } else {
        Kind::Answer
    }
}

/// What a token that ends a reply comes to: within a thought, it closes the
/// thought instead, so that the model goes on to reply; behind a reply, it
/// ends it; and where nothing has been shown, the model has to answer first.
pub open spec fn step(t: Tags, s: Talk, token: u32, bytes: Seq<u8>) -> (Talk, Move) {
    if token == t.im_end || token == t.end_of_text {
        if s.thinking {
            (Talk { thinking: false, ..s }, Move::Feed(t.think_end, kind_of(s), None))
        } else if s.replied {
            (s, Move::Stop)
        } else {
            (Talk { answering: true, ..s }, Move::Again)
        }
    } else if token == t.think {
        (Talk { thinking: true, ..s }, Move::Feed(token, kind_of(s), None))
    } else if token == t.think_end {
        (Talk { thinking: false, ..s }, Move::Feed(token, kind_of(s), None))
    } else {
        spoken(t, s, token, bytes)
    }
}

/// What a token comes to that neither ends the reply nor opens or closes a
/// thought. A tool call contemplated in the thought is not made: its tags are
/// part of the thought, shown as written.
pub open spec fn spoken(t: Tags, s: Talk, token: u32, bytes: Seq<u8>) -> (Talk, Move) {
    let (text, pending) = pushed(s.pending, bytes);
    if (token == t.tool_call || token == t.tool_call_end) && s.thinking {
        (Talk { pending, ..s }, Move::Feed(token, kind_of(s), Some(Part::Thought(text))))
    } else if token == t.tool_call {
        (
            Talk { replied: true, call: Some(Seq::empty()), ..s },
            Move::Feed(token, kind_of(s), None),
        )
    } else if token == t.tool_call_end {
        (
            Talk {
                calls: match s.call {
                    Some(call) => s.calls.push(call),
                    None => s.calls,
                },
                call: None,
                ..s
            },
            Move::Feed(token, kind_of(s), None),
        )
    } else {
        match s.call {
            Some(call) => (
                Talk { pending, call: Some(call + text), ..s },
                Move::Feed(token, kind_of(s), None),
            ),
            None => if text.len() == 0 {
                (Talk { pending, ..s }, Move::Feed(token, kind_of(s), None))
            } else if s.thinking {
                (Talk { pending, ..s }, Move::Feed(token, kind_of(s), Some(Part::Thought(text))))
            } else {
                (
                    Talk { pending, replied: s.replied || !blank(text), ..s },
                    Move::Feed(token, kind_of(s), Some(Part::Text(text))),
                )
            },
        }
    }
}

/// A reply as it is generated.
#[derive(Debug)]
pub struct Reply {
    pub stream: Utf8Stream,
    pub calls: Vec<String>,
    pub thinking: bool,
    pub call: Option<String>,
    pub replied: bool,
    pub answering: bool,
}

impl Reply {
    /// Where the reply is.
    pub open spec fn talk(self) -> Talk {
        Talk {
            pending: self.stream.pending@,
            calls: texts(self.calls@),
            thinking: self.thinking,
            call: match self.call {
                Some(s) => Some(s@),
                None => None,
            },
            replied: self.replied,
            answering: self.answering,
        }
    }

    /// A reply of which nothing has been said.
    pub fn new() -> (r: Self)
        ensures
            r.talk() == start(),
    {
        let r = Reply {
            stream: Utf8Stream::default(),
            calls: Vec::new(),
            thinking: true,
            call: None,
            replied: false,
            answering: false,
        };
        assert(r.talk() =~= start());
        r
    }

    /// The tokens that the model may not say next.
    pub fn mask(&self, tags: &Tags) -> (m: Vec<u32>)
        ensures
            m@ == masked(*tags, self.talk()),
    {
        let mut m: Vec<u32> = Vec::new();
        if self.answering && !self.replied {
            m.push(tags.im_end);
            m.push(tags.end_of_text);
            m.push(tags.tool_call);
        }
        assert(m@ =~= masked(*tags, self.talk()));
        m
    }

    /// Takes a token that the model says, and the bytes it stands for.
    pub fn take(&mut self, tags: &Tags, token: u32, bytes: &[u8]) -> (r: Step)
        ensures
            (final(self).talk(), r@) == step(*tags, old(self).talk(), token, bytes@),
    {
        let kind = if self.thinking {
            Kind::Thought
        } else {
            Kind::Answer
        };
        if token == tags.im_end || token == tags.end_of_text {
            if self.thinking {
                self.thinking = false;
                return Step::Feed { token: tags.think_end, kind, shown: None };
            }
            if self.replied {
                return Step::Stop;
            }
            self.answering = true;
            return Step::Again;
        }
        if token == tags.think {
            self.thinking = true;
            return Step::Feed { token, kind, shown: None };
        }
        if token == tags.think_end {
            self.thinking = false;
            return Step::Feed { token, kind, shown: None };
        }
        if (token == tags.tool_call || token == tags.tool_call_end) && self.thinking {
            let chunk = self.stream.push(bytes);
            return Step::Feed { token, kind, shown: Some(Shown::Thought(chunk)) };
        }
        if token == tags.tool_call {
            self.replied = true;
            self.call = Some(String::new());
            assert(self.talk() =~= step(*tags, old(self).talk(), token, bytes@).0);
            return Step::Feed { token, kind, shown: None };
        }
        if token == tags.tool_call_end {
            let mut made: Option<String> = None;
            std::mem::swap(&mut made, &mut self.call);
            if let Some(call) = made {
                self.calls.push(call);
            }
            assert(self.talk() =~= step(*tags, old(self).talk(), token, bytes@).0);
            return Step::Feed { token, kind, shown: None };
        }
        let chunk = self.stream.push(bytes);
        let mut body: Option<String> = None;
        std::mem::swap(&mut body, &mut self.call);
        match body {
            Some(mut call) => {
                call.append(&chunk);
                self.call = Some(call);
                Step::Feed { token, kind, shown: None }
            },
            None => {
                if chunk.as_str().unicode_len() == 0 {
                    Step::Feed { token, kind, shown: None }
                } else if self.thinking {
                    Step::Feed { token, kind, shown: Some(Shown::Thought(chunk)) }
                } else {
                    if !is_blank(&chunk) {
                        self.replied = true;
                    }
                    Step::Feed { token, kind, shown: Some(Shown::Text(chunk)) }
                }
            },
        }
    }
}

/// What has come of a reply: where it is, the tokens fed and what each counts
/// as, what was shown, and whether it is over: by its own end, or because it
/// was broken off.
#[verifier::ext_equal]
pub ghost struct Said {
    pub talk: Talk,
    pub fed: Seq<u32>,
    pub kinds: Seq<Kind>,
    pub shown: Seq<Part>,
    pub stopped: bool,
    pub broken: bool,
}

/// What comes of the tokens that were picked, each with whether showing what
/// there was of it broke the reply off.
pub open spec fn said(t: Tags, v: Vocab, picks: Seq<(u32, bool)>) -> Said
    decreases picks.len(),
{
    if picks.len() == 0 {
        Said {
            talk: start(),
            fed: Seq::empty(),
            kinds: Seq::empty(),
            shown: Seq::empty(),
            stopped: false,
            broken: false,
        }
    } else {
        let s = said(t, v, picks.drop_last());
        let (token, broke) = picks.last();
        let (talk, m) = step(t, s.talk, token, v.tokens[token as int]);
        match m {
            Move::Stop => Said { talk, stopped: true, ..s },
            Move::Again => Said { talk, ..s },
            Move::Feed(fed, kind, part) => Said {
                talk,
                fed: s.fed.push(fed),
                kinds: s.kinds.push(kind),
                shown: match part {
                    Some(p) => s.shown.push(p),
                    None => s.shown,
                },
                stopped: s.stopped,
                broken: s.broken || (part is Some && broke),
            },
        }
    }
}

/// Whether tokens could have been picked one after another: none of them was
/// masked, and none came once the reply was over.
pub open spec fn proper(t: Tags, v: Vocab, picks: Seq<(u32, bool)>) -> bool
    decreases picks.len(),
{
    picks.len() > 0 ==> {
        let s = said(t, v, picks.drop_last());
        &&& proper(t, v, picks.drop_last())
        &&& !s.stopped
        &&& !s.broken
        &&& picks.last().0 < v.tokens.len()
        &&& !masked(t, s.talk).contains(picks.last().0)
    }
}

/// How many tokens count as a kind.
pub open spec fn counted(kinds: Seq<Kind>, kind: Kind) -> nat
    decreases kinds.len(),
{
    if kinds.len() == 0 {
        0
    } else {
        counted(kinds.drop_last(), kind) + if kinds.last() == kind {
            1nat
        } else {
            0nat
        }
    }
}

} // verus!
