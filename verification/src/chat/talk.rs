//! A conversation: what has been said, and what the model says next.

use vstd::prelude::*;

use super::format::{
    lemma_transcript_none, tag, tag_of, transcript, turn_of, turn_tokens, Tags, Turn,
};
use super::reply::{start, Kind};
use super::within::{lemma_transcript_within, lemma_turn_within};
use crate::bytes::push_all;
use crate::clock::{nanos_since, now};
use crate::model::{goes_on, lemma_goes_on, lemma_stayed, stays, LanguageModel};
use crate::sampler::{alike, Sample};
use crate::text::own;
use crate::tokenizer::coder::{cut, encode_segs, encoded, unsplit};
use crate::tokenizer::laws::{law_cut_within, valid, within};
use crate::tokenizer::vocab::Vocab;
use crate::tokenizer::{Error as TokenError, Tokenizer};

verus! {

/// Most tokens fed to the model at once while it reads a prompt, between
/// progress reports.
pub const BATCH: usize = 64;

/// Tokens of one kind, and the nanoseconds the model took over them.
#[derive(Clone, Copy, Debug, PartialEq, Eq)]
pub struct Tally {
    pub tokens: usize,
    pub nanos: u64,
}

/// Where a conversation's time has gone: the tokens the model read as
/// prompts, the ones it generated while thinking, and the ones it generated
/// as replies, with the time spent on each.
#[derive(Clone, Copy, Debug, PartialEq, Eq)]
pub struct Stats {
    /// Tokens taken from a saved state rather than read.
    pub cached: Tally,
    pub prompt: Tally,
    pub thought: Tally,
    pub answer: Tally,
    /// Tokens drafted, and how many of them were taken.
    pub drafted: usize,
    pub accepted: usize,
}

/// What keeps a conversation from going on.
#[derive(Debug, PartialEq, Eq)]
pub enum Error {
    /// Text that cannot be encoded, or a vocabulary without the tags.
    Tokens(TokenError),
    Started,
    Full,
    /// What the model says, in words.
    Model(String),
}

impl Error {
    /// The error in words.
    pub open spec fn text(self) -> Seq<char> {
        match self {
            Error::Tokens(e) => e.text(),
            Error::Started => "the conversation has already started"@,
            Error::Full => "the conversation no longer fits in the context window"@,
            Error::Model(e) => e@,
        }
    }

    /// The error in words.
    pub fn message(&self) -> (s: String)
        ensures
            s@ == self.text(),
    {
        match self {
            Error::Tokens(e) => e.message(),
            Error::Started => own("the conversation has already started"),
            Error::Full => own("the conversation no longer fits in the context window"),
            Error::Model(e) => e.clone(),
        }
    }
}

/// A count that stays where it is once it is as high as it can be.
pub open spec fn capped(n: int) -> usize {
    if n > usize::MAX {
        usize::MAX
    } else {
        n as usize
    }
}

/// Whether counts have grown by so many tokens of each kind.
pub open spec fn tallied(
    before: Stats,
    after: Stats,
    prompt: nat,
    thought: nat,
    answer: nat,
) -> bool {
    &&& after.prompt.tokens == capped(before.prompt.tokens + prompt)
    &&& after.thought.tokens == capped(before.thought.tokens + thought)
    &&& after.answer.tokens == capped(before.answer.tokens + answer)
    &&& after.cached == before.cached
    &&& after.drafted == before.drafted
    &&& after.accepted == before.accepted
}

impl Tally {
    /// No tokens, and no time.
    pub fn new() -> (t: Self)
        ensures
            t.tokens == 0,
            t.nanos == 0,
    {
        Tally { tokens: 0, nanos: 0 }
    }

    /// Counts more tokens and the time they took.
    pub fn count(&mut self, tokens: usize, nanos: u64)
        ensures
            final(self).tokens == capped(old(self).tokens + tokens),
            final(self).nanos == if old(self).nanos + nanos > u64::MAX {
                u64::MAX as int
            } else {
                old(self).nanos + nanos
            },
    {
        self.tokens = self.tokens.saturating_add(tokens);
        self.nanos = self.nanos.saturating_add(nanos);
    }
}

impl Stats {
    /// Nothing counted yet.
    pub fn new() -> (s: Self)
        ensures
            s.cached == (Tally { tokens: 0, nanos: 0 }),
            s.prompt == s.cached,
            s.thought == s.cached,
            s.answer == s.cached,
            s.drafted == 0,
            s.accepted == 0,
    {
        Stats {
            cached: Tally::new(),
            prompt: Tally::new(),
            thought: Tally::new(),
            answer: Tally::new(),
            drafted: 0,
            accepted: 0,
        }
    }
}

/// Tokens as the batches that they are read in.
pub open spec fn batched(tokens: Seq<u32>) -> Seq<Seq<u32>>
    decreases tokens.len(),
{
    if tokens.len() == 0 {
        Seq::empty()
    } else {
        let cut = (tokens.len() - 1) / BATCH as int * BATCH;
        batched(tokens.take(cut)).push(tokens.skip(cut))
    }
}

/// Whether it has been reported how many of `n` tokens had been read: none of
/// them at first, and after each batch how many so far, up to `read`.
pub open spec fn reported<F: FnMut(usize, usize)>(listener: F, read: int, n: usize) -> bool {
    forall|i: usize|
        i <= read && (i % BATCH == 0 || i == n) ==> #[trigger] call_ensures(listener, (i, n), ())
}

/// Whether what came of something is what is said of a text that cannot be
/// split into words.
pub open spec fn wordless<T>(r: Result<T, Error>) -> bool {
    r matches Err(Error::Tokens(e)) && unsplit(e)
}

/// Whether tags are those of a vocabulary.
pub open spec fn tags_of(v: Vocab, t: Tags) -> bool {
    &&& v.special.contains_key("<|im_start|>"@) && t.im_start == v.special["<|im_start|>"@]
    &&& v.special.contains_key("<|im_end|>"@) && t.im_end == v.special["<|im_end|>"@]
    &&& v.special.contains_key("<|endoftext|>"@) && t.end_of_text == v.special["<|endoftext|>"@]
    &&& v.special.contains_key("<think>"@) && t.think == v.special["<think>"@]
    &&& v.special.contains_key("</think>"@) && t.think_end == v.special["</think>"@]
    &&& v.special.contains_key("<tool_call>"@) && t.tool_call == v.special["<tool_call>"@]
    &&& v.special.contains_key("</tool_call>"@) && t.tool_call_end == v.special["</tool_call>"@]
    &&& tag_of(v, "<tool_response>"@) == Some(t.tool_response@)
    &&& tag_of(v, "</tool_response>"@) == Some(t.tool_response_end@)
}

/// The first tag of the chat format that a vocabulary lacks.
pub open spec fn lacking(v: Vocab) -> Option<Seq<char>> {
    if !v.special.contains_key("<|im_start|>"@) {
        Some("<|im_start|>"@)
    } else if !v.special.contains_key("<|im_end|>"@) {
        Some("<|im_end|>"@)
    } else if !v.special.contains_key("<|endoftext|>"@) {
        Some("<|endoftext|>"@)
    } else if !v.special.contains_key("<think>"@) {
        Some("<think>"@)
    } else if !v.special.contains_key("</think>"@) {
        Some("</think>"@)
    } else if !v.special.contains_key("<tool_call>"@) {
        Some("<tool_call>"@)
    } else if !v.special.contains_key("</tool_call>"@) {
        Some("</tool_call>"@)
    } else {
        None
    }
}

/// Whether a vocabulary can write everything that the format needs at hand.
pub open spec fn writes(v: Vocab) -> bool {
    &&& tag_of(v, "<tool_response>"@) is Some
    &&& tag_of(v, "</tool_response>"@) is Some
    &&& encoded(v, "\n"@) is Some
    &&& encoded(v, "\n\n"@) is Some
}

/// A conversation with an instruction-tuned model.
///
/// The model thinks inside `<think>` tags before it replies: its chat template
/// opens the tag for it, and the thought is streamed apart from the reply. It
/// may also call tools, if the system prompt describes them, by replying with
/// `<tool_call>` blocks. Their results go back to it in a user turn of
/// `<tool_response>` blocks. `Chat` only speaks the format: what the tools are
/// and running them is up to the caller.
///
/// The tags of the format are special tokens, which `Chat` puts in by id. What
/// the user and the tools say is encoded as text, so that a message which
/// spells out a tag stays text: a command that prints `<|im_end|>` cannot end
/// the turn or start another.
///
/// The whole conversation, including earlier thoughts, stays in the model's
/// state. Each turn runs the model over only its new tokens.
pub struct Chat<M: LanguageModel, S: Sample> {
    pub model: M,
    pub tokenizer: Tokenizer,
    pub sampler: S,
    /// Number of tokens in the conversation so far.
    pub len: usize,
    /// Tokens of the context kept free by stopping a reply short of them.
    pub reserve: usize,
    /// Whether the last reply was stopped short for room.
    pub cut: bool,
    /// Tokens it takes to end a reply, at most.
    pub ending: usize,
    pub tags: Tags,
    pub stats: Stats,
}

impl<M: LanguageModel, S: Sample> Chat<M, S> {
    /// What the tokenizer knows.
    pub open spec fn vocab(&self) -> Vocab {
        self.tokenizer.vocab()
    }

    /// The tokens of a line break.
    pub open spec fn line(&self) -> Seq<u32> {
        encoded(self.vocab(), "\n"@)->0
    }

    /// The tokens of an empty line.
    pub open spec fn gap(&self) -> Seq<u32> {
        encoded(self.vocab(), "\n\n"@)->0
    }

    /// The conversation is what the model holds, within its room; the model
    /// and the tokenizer speak of the same tokens; and the tags are there.
    pub open spec fn wf(&self) -> bool {
        &&& self.tokenizer.wf()
        &&& valid(self.vocab())
        &&& self.model.ready()
        &&& self.len == self.model.fed().len()
        &&& self.len <= self.model.limit()
        &&& self.model.size() == self.vocab().tokens.len()
        &&& tags_of(self.vocab(), self.tags)
        &&& writes(self.vocab())
        &&& self.ending == capped(
            (2 * self.line().len() + self.gap().len() + 2) as int,
        )
    }

    /// Whether all is the same but what has been said and counted.
    pub open spec fn kept(&self, other: &Self) -> bool {
        &&& self.tokenizer == other.tokenizer
        &&& self.reserve == other.reserve
        &&& self.ending == other.ending
        &&& self.tags == other.tags
        &&& self.model.limit() == other.model.limit()
        &&& self.model.size() == other.model.size()
        &&& alike(&self.sampler, &other.sampler)
    }

    /// Whether nothing has changed of the conversation.
    pub open spec fn unchanged(&self, other: &Self) -> bool {
        &&& self.model.fed() == other.model.fed()
        &&& stays(&self.model, &other.model)
        &&& self.stats == other.stats
        &&& self.cut == other.cut
    }

    /// Starts a conversation.
    pub fn new(model: M, tokenizer: Tokenizer, sampler: S) -> (r: Result<Self, Error>)
        requires
            tokenizer.wf(),
            valid(tokenizer.vocab()),
            model.size() == tokenizer.vocab().tokens.len(),
            model.ready(),
            model.fed().len() == 0,
        ensures
            match r {
                Ok(c) => {
                    &&& c.wf()
                    &&& c.model == model
                    &&& c.tokenizer == tokenizer
                    &&& c.sampler == sampler
                    &&& c.len == 0
                    &&& c.reserve == 0
                    &&& !c.cut
                    &&& tallied(c.stats, c.stats, 0, 0, 0)
                    &&& c.stats.prompt.tokens == 0
                    &&& c.stats.thought.tokens == 0
                    &&& c.stats.answer.tokens == 0
                    &&& c.stats.cached.tokens == 0
                },
                Err(e) => match lacking(tokenizer.vocab()) {
                    Some(tag) => e matches Error::Tokens(TokenError::MissingSpecial(c)) && c@ == tag,
                    None => !writes(tokenizer.vocab()) && (e matches Error::Tokens(f) && unsplit(f)),
                },
            },
    {
        let im_start: u32 = match tokenizer.special("<|im_start|>") {
            Ok(id) => id,
            Err(e) => {
                return Err(Error::Tokens(e));
            },
        };
        let im_end: u32 = match tokenizer.special("<|im_end|>") {
            Ok(id) => id,
            Err(e) => {
                return Err(Error::Tokens(e));
            },
        };
        let end_of_text: u32 = match tokenizer.special("<|endoftext|>") {
            Ok(id) => id,
            Err(e) => {
                return Err(Error::Tokens(e));
            },
        };
        let think: u32 = match tokenizer.special("<think>") {
            Ok(id) => id,
            Err(e) => {
                return Err(Error::Tokens(e));
            },
        };
        let think_end: u32 = match tokenizer.special("</think>") {
            Ok(id) => id,
            Err(e) => {
                return Err(Error::Tokens(e));
            },
        };
        let tool_call: u32 = match tokenizer.special("<tool_call>") {
            Ok(id) => id,
            Err(e) => {
                return Err(Error::Tokens(e));
            },
        };
        let tool_call_end: u32 = match tokenizer.special("</tool_call>") {
            Ok(id) => id,
            Err(e) => {
                return Err(Error::Tokens(e));
            },
        };
        let tool_response = match tag(&tokenizer, "<tool_response>") {
            Ok(tokens) => tokens,
            Err(e) => {
                return Err(Error::Tokens(e));
            },
        };
        let tool_response_end = match tag(&tokenizer, "</tool_response>") {
            Ok(tokens) => tokens,
            Err(e) => {
                return Err(Error::Tokens(e));
            },
        };
        let line = match tokenizer.encode("\n") {
            Ok(tokens) => tokens,
            Err(e) => {
                return Err(Error::Tokens(e));
            },
        };
        let gap = match tokenizer.encode("\n\n") {
            Ok(tokens) => tokens,
            Err(e) => {
                return Err(Error::Tokens(e));
            },
        };
        // A newline, the end of the thought, two newlines, the end of the
        // turn, and a newline.
        let ending: usize = line.len().saturating_add(line.len()).saturating_add(
            gap.len(),
        ).saturating_add(2);
        Ok(
            Chat {
                model,
                tokenizer,
                sampler,
                len: 0,
                reserve: 0,
                cut: false,
                ending,
                tags: Tags {
                    im_start,
                    im_end,
                    end_of_text,
                    think,
                    think_end,
                    tool_call,
                    tool_call_end,
                    tool_response,
                    tool_response_end,
                },
                stats: Stats::new(),
            },
        )
    }

    /// Number of tokens in the conversation so far.
    pub fn tokens(&self) -> (n: usize)
        ensures
            n == self.len,
    {
        self.len
    }

    /// Number of tokens the conversation has room for in all.
    pub fn capacity(&self) -> (n: usize)
        ensures
            n == self.model.limit(),
    {
        self.model.max_len()
    }

    /// Keeps `tokens` of the context free: a reply stops short of them, so
    /// that there is always room after it for a short exchange, such as one
    /// that compacts the conversation.
    pub fn reserve(&mut self, tokens: usize)
        requires
            old(self).wf(),
        ensures
            *final(self) == (Self { reserve: tokens, ..*old(self) }),
            final(self).wf(),
    {
        self.reserve = tokens;
    }

    /// Whether the last reply was stopped short because the context was full,
    /// but for the reserve.
    pub fn cut(&self) -> (r: bool)
        ensures
            r == self.cut,
    {
        self.cut
    }

    /// Where the conversation's time has gone so far.
    pub fn stats(&self) -> (s: Stats)
        ensures
            s == self.stats,
    {
        self.stats
    }

    /// Whether a reply may go on: whether there is room for one more token
    /// and `ending` tokens to end the reply, keeping `reserve` free.
    pub open spec fn has_room(&self, ending: int, reserve: int) -> bool {
        self.len + 1 + ending <= if self.model.limit() > reserve {
            self.model.limit() - reserve
        } else {
            0
        }
    }

    /// Whether a reply may go on: whether there is room for one more token
    /// and `ending` tokens to end the reply, keeping `reserve` free.
    pub(crate) fn room(&self, ending: usize, reserve: usize) -> (r: bool)
        ensures
            r == self.has_room(ending as int, reserve as int),
    {
        let limit: usize = self.model.max_len();
        self.len as u128 + 1 + ending as u128 <= limit.saturating_sub(reserve) as u128
    }

    /// The conversation so far as the model's state, for `restore` to take up
    /// from, if the model can give it.
    pub fn save(&self) -> (r: Option<Vec<u8>>)
        requires
            self.wf(),
        ensures
            match r {
                Some(out) => self.model.saved(self.len as nat) == Some(out@),
                None => self.model.saved(self.len as nat) is None,
            },
    {
        self.model.save(self.len)
    }

    /// Opens the conversation from a state `save` gave, in place of the system
    /// prompt that produced it.
    pub fn restore(&mut self, state: &[u8]) -> (r: Result<(), Error>)
        requires
            old(self).wf(),
        ensures
            final(self).wf(),
            final(self).kept(old(self)),
            final(self).cut == old(self).cut,
            if old(self).len != 0 {
                r == Err::<(), Error>(Error::Started) && final(self).unchanged(old(self))
            } else {
                match old(self).model.opened(state@) {
                    Ok(n) => {
                        &&& r is Ok
                        &&& final(self).len == n
                        &&& forall|more: Seq<Seq<u32>>|
                            more.len() > 0 ==> #[trigger] final(self).model.says(more) == old(
                                self,
                            ).model.says_from(state@, more)
                        &&& final(self).stats.cached.tokens == n
                        &&& final(self).stats == (Stats {
                            cached: final(self).stats.cached,
                            ..old(self).stats
                        })
                    },
                    Err(e) => (r matches Err(Error::Model(m)) && m@ == e) && final(self).unchanged(
                        old(self),
                    ),
                }
            },
    {
        if self.len != 0 {
            return Err(Error::Started);
        }
        let start = now();
        match self.model.restore(state) {
            Ok(n) => {
                self.len = n;
                self.stats.cached = Tally { tokens: n, nanos: nanos_since(&start) };
                Ok(())
            },
            Err(e) => Err(Error::Model(e)),
        }
    }

    /// Forgets the conversation, so that a system prompt or a saved state can
    /// open another.
    pub fn clear(&mut self)
        requires
            old(self).wf(),
        ensures
            final(self).wf(),
            final(self).kept(old(self)),
            final(self).len == 0,
            forall|more: Seq<Seq<u32>>|
                more.len() > 0 ==> #[trigger] final(self).model.says(more) == old(
                    self,
                ).model.says_anew(more),
            final(self).stats == old(self).stats,
            final(self).cut == old(self).cut,
    {
        self.model.reset();
        self.len = 0;
    }

    /// Runs tokens through the model, returning the logits after the last
    /// one, and counts them and their time as `kind`.
    pub(crate) fn feed(&mut self, tokens: &[u32], kind: Kind) -> (r: Result<Vec<u32>, Error>)
        requires
            old(self).wf(),
            0 < tokens@.len(),
            within(tokens@, old(self).model.size()),
        ensures
            final(self).wf(),
            final(self).kept(old(self)),
            final(self).cut == old(self).cut,
            final(self).sampler == old(self).sampler,
            match r {
                Ok(logits) => {
                    &&& old(self).len + tokens@.len() <= old(self).model.limit()
                    &&& final(self).model.fed() == old(self).model.fed() + tokens@
                    &&& logits@.len() == old(self).model.size()
                    &&& logits@ == old(self).model.says(seq![tokens@])
                    &&& goes_on(&final(self).model, &old(self).model, seq![tokens@])
                    &&& tallied(
                        old(self).stats,
                        final(self).stats,
                        if kind == Kind::Prompt {
                            tokens@.len()
                        } else {
                            0
                        },
                        if kind == Kind::Thought {
                            tokens@.len()
                        } else {
                            0
                        },
                        if kind == Kind::Answer {
                            tokens@.len()
                        } else {
                            0
                        },
                    )
                },
                Err(e) => e == Error::Full && old(self).len + tokens@.len()
                    > old(self).model.limit() && final(self).unchanged(old(self)),
            },
    {
        let limit: usize = self.model.max_len();
        if tokens.len() > limit - self.len {
            return Err(Error::Full);
        }
        let start = now();
        let logits = self.model.forward(tokens, self.len);
        let nanos: u64 = nanos_since(&start);
        match kind {
            Kind::Prompt => self.stats.prompt.count(tokens.len(), nanos),
            Kind::Thought => self.stats.thought.count(tokens.len(), nanos),
            Kind::Answer => self.stats.answer.count(tokens.len(), nanos),
        }
        self.len = self.len + tokens.len();
        Ok(logits)
    }

    /// How many of `n` tokens have been fed in batches once the next does not
    /// fit.
    pub open spec fn batches(&self) -> int {
        (self.model.limit() - self.len) / 64 * 64
    }

    /// Whether tokens have been read: all of them, or if they do not all fit,
    /// the batches that do.
    pub open spec fn has_read<F: FnMut(usize, usize)>(
        &self,
        before: &Self,
        tokens: Seq<u32>,
        listener: F,
        r: Result<(), Error>,
    ) -> bool {
        let n = if before.len + tokens.len() <= before.model.limit() {
            tokens.len() as int
        } else {
            before.batches()
        };
        &&& self.model.fed() == before.model.fed() + tokens.take(n)
        &&& goes_on(&self.model, &before.model, batched(tokens.take(n)))
        &&& self.cut == before.cut
        &&& tallied(before.stats, self.stats, n as nat, 0, 0)
        &&& reported(listener, n, tokens.len() as usize)
        &&& r == if before.len + tokens.len() <= before.model.limit() {
            Ok::<(), Error>(())
        } else {
            Err(Error::Full)
        }
    }

    /// Feeds `tokens` a batch at a time, reporting how many so far, out of how
    /// many, as it goes.
    fn read(&mut self, tokens: &[u32], on_progress: impl FnMut(usize, usize)) -> (r: Result<
        (),
        Error,
    >)
        requires
            old(self).wf(),
            within(tokens@, old(self).model.size()),
            forall|a: usize, b: usize| call_requires(on_progress, (a, b)),
        ensures
            final(self).wf(),
            final(self).kept(old(self)),
            final(self).has_read(old(self), tokens@, on_progress, r),
    {
        let n: usize = tokens.len();
        let mut report = on_progress;
        report(0, n);
        let mut i: usize = 0;
        proof {
            assert(tokens@.take(0) =~= Seq::empty());
            assert(old(self).model.fed() + tokens@.take(0) =~= old(self).model.fed());
            assert forall|more: Seq<Seq<u32>>| more.len() > 0 implies #[trigger] self.model.says(
                more,
            ) == old(self).model.says(batched(tokens@.take(0)) + more) by {
                assert(batched(tokens@.take(0)) + more =~= more);
            }
        }
        while i < n
            invariant
                i <= n == tokens@.len(),
                i % 64 == 0 || i == n,
                self.wf(),
                self.kept(old(self)),
                old(self).wf(),
                within(tokens@, old(self).model.size()),
                forall|a: usize, b: usize| call_requires(on_progress, (a, b)),
                old(self).len + i <= old(self).model.limit(),
                self.model.fed() == old(self).model.fed() + tokens@.take(i as int),
                goes_on(&self.model, &old(self).model, batched(tokens@.take(i as int))),
                self.cut == old(self).cut,
                tallied(old(self).stats, self.stats, i as nat, 0, 0),
                report == on_progress,
                reported(on_progress, i as int, n),
            decreases n - i,
        {
            let k: usize = if n - i < BATCH {
                n - i
            } else {
                BATCH
            };
            let batch = vstd::slice::slice_subrange(tokens, i, i + k);
            proof {
                assert forall|j: int| 0 <= j < batch@.len() implies #[trigger] batch@[j]
                    < self.model.size() by {
                    assert(batch@[j] == tokens@[i + j]);
                }
                assert(tokens@.take(i as int) + batch@ =~= tokens@.take(i + k));
                assert(old(self).model.fed() + tokens@.take(i as int) + batch@
                    =~= old(self).model.fed() + tokens@.take(i + k));
            }
            let ghost mid = self.model;
            match self.feed(batch, Kind::Prompt) {
                Ok(_) => {
                    proof {
                        let now = tokens@.take(i + k);
                        assert((now.len() - 1) / 64 * 64 == i);
                        assert(now.take(i as int) =~= tokens@.take(i as int));
                        assert(now.skip(i as int) =~= batch@);
                        let before = batched(tokens@.take(i as int));
                        lemma_goes_on(&self.model, &mid, &old(self).model, before, seq![batch@]);
                        assert(before + seq![batch@] =~= batched(now));
                    }
                },
                Err(e) => {
                    proof {
                        lemma_stayed(&self.model, &mid, &old(self).model, batched(tokens@.take(i as int)));
                        let left = old(self).model.limit() - old(self).len;
                        assert(i <= left < i + 64);
                        assert(left / 64 * 64 == i);
                    }
                    return Err(e);
                },
            }
            i = i + k;
            report(i, n);
        }
        assert(tokens@.take(n as int) =~= tokens@);
        Ok(())
    }

    /// Opens the conversation with a system prompt, reporting how many of its
    /// tokens the model has read so far, out of how many, as it goes. Tags in
    /// the prompt, such as `<tool_call>`, are encoded as special tokens.
    pub fn system(&mut self, text: &str, on_progress: impl FnMut(usize, usize)) -> (r: Result<
        (),
        Error,
    >)
        requires
            old(self).wf(),
            !old(self).vocab().special.contains_key(Seq::empty()),
            forall|a: usize, b: usize| call_requires(on_progress, (a, b)),
        ensures
            final(self).wf(),
            final(self).kept(old(self)),
            if old(self).len != 0 {
                r == Err::<(), Error>(Error::Started) && final(self).unchanged(old(self))
            } else {
                match encode_segs(old(self).vocab(), cut(old(self).vocab().special, text@)) {
                    None => wordless(r) && final(self).unchanged(old(self)),
                    Some(content) => match turn_of(
                        old(self).tags,
                        old(self).vocab(),
                        "system"@,
                        content,
                    ) {
                        None => wordless(r) && final(self).unchanged(old(self)),
                        Some(turn) => final(self).has_read(old(self), turn, on_progress, r),
                    },
                }
            },
    {
        if self.len != 0 {
            return Err(Error::Started);
        }
        let content = match self.tokenizer.encode_with_special(text) {
            Ok(tokens) => tokens,
            Err(e) => {
                return Err(Error::Tokens(e));
            },
        };
        let turn = match self.tags.turn(&self.tokenizer, "system", content.as_slice()) {
            Ok(tokens) => tokens,
            Err(e) => {
                return Err(Error::Tokens(e));
            },
        };
        proof {
            law_cut_within(self.vocab(), text@);
            lemma_turn_within(self.tags, self.vocab(), "system"@, content@);
        }
        self.read(turn.as_slice(), on_progress)
    }

    /// Feeds `turns` to the model as the conversation so far, reporting
    /// progress as `system` does, without a reply to them. A reply is written
    /// as the chat template writes a reply already made, with an empty thought
    /// before it, as the template leaves earlier thoughts out when it writes a
    /// conversation over.
    pub fn replay(&mut self, turns: &[Turn], on_progress: impl FnMut(usize, usize)) -> (r: Result<
        (),
        Error,
    >)
        requires
            old(self).wf(),
            forall|a: usize, b: usize| call_requires(on_progress, (a, b)),
        ensures
            final(self).wf(),
            final(self).kept(old(self)),
            match transcript(old(self).tags, old(self).vocab(), turns@) {
                None => wordless(r) && final(self).unchanged(old(self)),
                Some(tokens) => final(self).has_read(old(self), tokens, on_progress, r),
            },
    {
        let mut tokens: Vec<u32> = Vec::new();
        let mut i: usize = 0;
        assert(turns@.take(0) =~= Seq::empty());
        while i < turns.len()
            invariant
                i <= turns@.len(),
                self.wf(),
                *self == *old(self),
                transcript(self.tags, self.vocab(), turns@.take(i as int)) == Some(tokens@),
            decreases turns@.len() - i,
        {
            proof {
                assert(turns@.take(i + 1).drop_last() =~= turns@.take(i as int));
                assert(turns@.take(i + 1).last() == turns@[i as int]);
            }
            match self.tags.tokens(&self.tokenizer, &turns[i]) {
                Ok(turn) => push_all(&mut tokens, turn.as_slice()),
                Err(e) => {
                    proof {
                        lemma_transcript_none(self.tags, self.vocab(), turns@, i + 1);
                    }
                    return Err(Error::Tokens(e));
                },
            }
            i = i + 1;
        }
        proof {
            assert(turns@.take(turns@.len() as int) =~= turns@);
            lemma_transcript_within(self.tags, self.vocab(), turns@);
        }
        self.read(tokens.as_slice(), on_progress)
    }

    /// Number of tokens `turn` takes when fed, as `replay` writes it.
    pub fn measure(&self, turn: &Turn) -> (r: Result<usize, Error>)
        requires
            self.wf(),
        ensures
            match turn_tokens(self.tags, self.vocab(), *turn) {
                None => wordless(r),
                Some(tokens) => r matches Ok(n) && n == tokens.len(),
            },
    {
        match self.tags.tokens(&self.tokenizer, turn) {
            Ok(tokens) => Ok(tokens.len()),
            Err(e) => Err(Error::Tokens(e)),
        }
    }
}

} // verus!
