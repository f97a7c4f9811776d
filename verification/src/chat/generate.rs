//! Having the model speak.
use std::ops::ControlFlow;

use vstd::prelude::*;

use super::format::{closing, opening, plain_opening, results_turn, user_turn, Tags};
use super::reply::{
    counted, masked, proper, said, start, step, Chunk, Kind, Move, Part, Reply, Shown, Step,
};
use super::stream::{pushed, Utf8Stream};
use super::talk::{tags_of, tallied, wordless, Chat, Error, Stats};
use super::within::{
    lemma_closing_within, lemma_encoded_within, lemma_opening_within, lemma_plain_opening_within,
    lemma_results_within, lemma_tags_within, lemma_user_within,
};
use crate::bytes::push_all;
use crate::model::{goes_on, lemma_goes_on, lemma_stayed, LanguageModel};
use crate::sampler::Sample;
use crate::text::texts;
use crate::tokenizer::laws::{valid, within};
use crate::tokenizer::vocab::Vocab;

verus! {

/// Counts that have grown twice have grown by both.
proof fn lemma_tallied(a: Stats, b: Stats, c: Stats, p: nat, q: nat, t: nat, w: nat)
    requires
        tallied(a, b, p, 0, 0),
        tallied(b, c, q, t, w),
    ensures
        tallied(a, c, p + q, t, w),
{
}

/// The tags that a model must not confuse have ids of their own.
proof fn lemma_tags_differ(v: Vocab, t: Tags)
    requires
        valid(v),
        tags_of(v, t),
    ensures
        t.think_end != t.im_end,
        t.think_end != t.end_of_text,
        t.think_end != t.tool_call,
        t.im_end != t.think,
        t.im_end != t.tool_call,
        t.im_end != t.tool_call_end,
        t.think_end != t.think,
{
    reveal_strlit("</think>");
    reveal_strlit("<think>");
    reveal_strlit("<|im_end|>");
    reveal_strlit("<|endoftext|>");
    reveal_strlit("<tool_call>");
    reveal_strlit("</tool_call>");
    assert("</tool_call>"@.len() == 12);
    assert("</think>"@.len() == 8 && "<think>"@.len() == 7 && "<|im_end|>"@.len() == 10
        && "<|endoftext|>"@.len() == 13 && "<tool_call>"@.len() == 11);
}

/// Tokens that are fed one by one.
pub open spec fn singly(tokens: Seq<u32>) -> Seq<Seq<u32>> {
    Seq::new(tokens.len(), |i: int| seq![tokens[i]])
}

/// One more token fed by itself.
proof fn lemma_singly(lead: Seq<Seq<u32>>, tokens: Seq<u32>, token: u32)
    ensures
        lead + singly(tokens) + seq![seq![token]] == lead + singly(tokens.push(token)),
{
    assert(singly(tokens.push(token)) =~= singly(tokens) + seq![seq![token]]);
    assert(lead + singly(tokens) + seq![seq![token]] =~= lead + singly(tokens.push(token)));
}

/// Runs of tokens one after another.
pub open spec fn joined(runs: Seq<Seq<u32>>) -> Seq<u32>
    decreases runs.len(),
{
    if runs.len() == 0 {
        Seq::empty()
    } else {
        joined(runs.drop_last()) + runs.last()
    }
}

/// One run is itself.
proof fn lemma_joined_one(a: Seq<u32>)
    ensures
        joined(seq![a]) == a,
{
    reveal_with_fuel(joined, 2);
    assert(seq![a].drop_last() =~= Seq::empty());
    assert(Seq::<u32>::empty() + a =~= a);
}

/// Two runs are one behind the other.
proof fn lemma_joined_two(a: Seq<u32>, b: Seq<u32>)
    ensures
        joined(seq![a, b]) == a + b,
{
    lemma_joined_one(a);
    assert(seq![a, b].drop_last() =~= seq![a]);
}

/// Whether a listener that is shown a piece of the reply breaks it off, or
/// lets it go on.
pub open spec fn answers<F: FnMut(Chunk<'_>) -> ControlFlow<()>>(
    listener: F,
    part: Part,
    breaks: bool,
) -> bool {
    exists|c: Chunk, flow: ControlFlow<()>|
        c.part() == part && breaks == (flow is Break) && #[trigger] call_ensures(
            listener,
            (c,),
            flow,
        )
}

/// Whether tokens were picked as a reply goes: each by the sampler, of what
/// the model says once all before it have been fed, without those that are
/// masked; and whether one of them broke the reply off is up to the listener,
/// who is shown what there is to show of each.
pub open spec fn picked<
    M: LanguageModel,
    S: Sample,
    F: FnMut(Chunk<'_>) -> ControlFlow<()>,
>(
    chat: &Chat<M, S>,
    lead: Seq<Seq<u32>>,
    listener: F,
    picks: Seq<(u32, bool)>,
) -> bool
    decreases picks.len(),
{
    picks.len() > 0 ==> {
        let s = said(chat.tags, chat.vocab(), picks.drop_last());
        let (token, broke) = picks.last();
        &&& picked(chat, lead, listener, picks.drop_last())
        &&& chat.sampler.may(
            chat.model.says(lead + singly(s.fed)),
            masked(chat.tags, s.talk),
            token,
        )
        &&& match step(chat.tags, s.talk, token, chat.vocab().tokens[token as int]).1 {
            Move::Feed(_, _, Some(part)) => answers(listener, part, broke),
            _ => !broke,
        }
    }
}

impl<M: LanguageModel, S: Sample> Chat<M, S> {
    /// How much of the context a reply may use.
    pub open spec fn free(&self) -> int {
        if self.model.limit() > self.reserve {
            self.model.limit() - self.reserve
        } else {
            0
        }
    }

    /// Whether a reply has been generated behind `lead`, out of tokens that
    /// were picked: it has been fed as far as it was shown, and ended the way
    /// the chat format expects; it was cut exactly if it ended neither by
    /// itself nor by being broken off, and then there was no more room; and it
    /// made the calls written in it only if it ended by itself.
    pub open spec fn has_replied<F: FnMut(Chunk<'_>) -> ControlFlow<()>>(
        &self,
        before: &Self,
        lead: Seq<Seq<u32>>,
        listener: F,
        picks: Seq<(u32, bool)>,
        calls: Seq<Seq<char>>,
    ) -> bool {
        let s = said(before.tags, before.vocab(), picks);
        let end = closing(before.tags, before.line(), before.gap(), s.talk.thinking);
        let len = before.len + joined(lead).len() + s.fed.len();
        &&& proper(before.tags, before.vocab(), picks)
        &&& picked(before, lead, listener, picks)
        &&& self.model.fed() == before.model.fed() + joined(lead) + s.fed + end
        &&& goes_on(&self.model, &before.model, lead + singly(s.fed) + seq![end])
        &&& tallied(
            before.stats,
            self.stats,
            joined(lead).len() + end.len(),
            counted(s.kinds, Kind::Thought),
            counted(s.kinds, Kind::Answer),
        )
        &&& self.cut == (!s.stopped && !s.broken)
        &&& self.cut ==> len + 1 + before.ending > before.free()
        &&& s.fed.len() > 0 ==> len + before.ending <= before.free()
        &&& calls == if s.stopped {
            s.talk.calls
        } else {
            Seq::empty()
        }
    }

    /// Whether a reply has been generated behind `lead`, out of some tokens.
    pub open spec fn replied<F: FnMut(Chunk<'_>) -> ControlFlow<()>>(
        &self,
        before: &Self,
        lead: Seq<Seq<u32>>,
        listener: F,
        calls: Seq<Seq<char>>,
    ) -> bool {
        exists|picks: Seq<(u32, bool)>| #[trigger]
            self.has_replied(before, lead, listener, picks, calls)
    }

    /// Whether a reply did not even start behind `lead`, for want of room to
    /// end it.
    pub open spec fn has_no_room(&self, before: &Self, lead: Seq<Seq<u32>>) -> bool {
        let end = closing(before.tags, before.line(), before.gap(), true);
        let len = before.len + joined(lead).len();
        &&& self.model.fed() == before.model.fed() + joined(lead)
        &&& goes_on(&self.model, &before.model, lead)
        &&& tallied(before.stats, self.stats, joined(lead).len(), 0, 0)
        &&& self.cut
        &&& len + 1 + before.ending > before.free()
        &&& len + end.len() > before.model.limit()
    }

    /// Generates the assistant's reply to the conversation so far. Where there
    /// is room for it to start and end, it stops short of the reserve, its end
    /// included; where it was cut for want of room, it makes no calls.
    #[verifier::rlimit(60)]
    pub fn generate(&mut self, mut on_chunk: impl FnMut(Chunk<'_>) -> ControlFlow<()>) -> (r: Result<
        Vec<String>,
        Error,
    >)
        requires
            old(self).wf(),
            forall|c: Chunk| call_requires(on_chunk, (c,)),
        ensures
            final(self).wf(),
            final(self).kept(old(self)),
            match opening(old(self).tags, old(self).vocab()) {
                None => wordless(r) && final(
                    self).unchanged(old(self)),
                Some(open) => if old(self).len + open.len() > old(self).model.limit() {
                    r == Err::<Vec<String>, Error>(Error::Full) && final(self).unchanged(old(self))
                } else {
                    match r {
                        Ok(calls) => {
                            let (was, now) = (*old(self), *final(self));
                            let need = was.len + open.len() + was.ending;
                            &&& now.replied(&was, seq![open], on_chunk, texts(calls@))
                            &&& need <= was.free() ==> now.len <= was.free()
                            &&& now.cut ==> calls@.len() == 0
                        },
                        Err(e) => e == Error::Full && final(self).has_no_room(
                            old(self),
                            seq![open],
                        ),
                    }
                },
            },
    {
        let ghost v = self.vocab();
        let ghost tags = self.tags;
        let ghost fed0 = self.model.fed();
        let ghost listener = on_chunk;
        // The template opens the thought for the model.
        let mut prompt: Vec<u32> = Vec::new();
        prompt.push(self.tags.im_start);
        let role = match self.tokenizer.encode("assistant\n") {
            Ok(tokens) => tokens,
            Err(e) => {
                return Err(Error::Tokens(e));
            },
        };
        push_all(&mut prompt, role.as_slice());
        prompt.push(self.tags.think);
        let line = match self.tokenizer.encode("\n") {
            Ok(tokens) => tokens,
            Err(e) => {
                return Err(Error::Tokens(e));
            },
        };
        push_all(&mut prompt, line.as_slice());
        let ghost open = opening(tags, v)->0;
        let ghost lead = seq![open];
        proof {
            assert(prompt@ =~= open);
            lemma_joined_one(open);
            lemma_opening_within(tags, v);
            lemma_encoded_within(v, "\n"@);
            lemma_encoded_within(v, "\n\n"@);
            lemma_tags_within(v, tags);
            lemma_tags_differ(v, tags);
        }
        let mut logits = match self.feed(prompt.as_slice(), Kind::Prompt) {
            Ok(logits) => logits,
            Err(e) => {
                return Err(e);
            },
        };
        let mut reply = Reply::new();
        let mut interrupted = false;
        let mut going = true;
        self.cut = false;
        let ghost mut picks: Seq<(u32, bool)> = Seq::empty();
        proof {
            assert(said(tags, v, picks).talk == start());
            assert(fed0 + open + said(tags, v, picks).fed =~= fed0 + open);
            assert(lead + singly(said(tags, v, picks).fed) =~= lead);
        }
        while going
            invariant
                self.wf(),
                self.kept(old(self)),
                v == self.vocab(),
                v == old(self).vocab(),
                tags == self.tags,
                fed0 == old(self).model.fed(),
                old(self).wf(),
                old(self).len + open.len() <= old(self).model.limit(),
                forall|c: Chunk| call_requires(on_chunk, (c,)),
                logits@.len() == self.model.size(),
                proper(tags, v, picks),
                on_chunk == listener,
                picked(old(self), lead, listener, picks),
                reply.talk() == said(tags, v, picks).talk,
                going ==> logits@ == old(self).model.says(lead + singly(said(tags, v, picks).fed)),
                goes_on(
                    &self.model,
                    &old(self).model,
                    lead + singly(said(tags, v, picks).fed),
                ),
                self.model.fed() == fed0 + open + said(tags, v, picks).fed,
                tallied(
                    old(self).stats,
                    self.stats,
                    open.len(),
                    counted(said(tags, v, picks).kinds, Kind::Thought),
                    counted(said(tags, v, picks).kinds, Kind::Answer),
                ),
                said(tags, v, picks).fed.len() > 0 ==> self.len + self.ending <= old(self).free(),
                going ==> !said(tags, v, picks).stopped && !said(tags, v, picks).broken
                    && !self.cut && !interrupted,
                !going ==> {
                    ||| said(tags, v, picks).stopped && !said(tags, v, picks).broken
                        && !interrupted && !self.cut
                    ||| said(tags, v, picks).broken && !said(tags, v, picks).stopped && interrupted
                        && !self.cut
                    ||| self.cut && interrupted && !said(tags, v, picks).stopped && !said(
                        tags,
                        v,
                        picks,
                    ).broken && self.len + 1 + self.ending > old(self).free()
                },
                tags.think_end < self.model.size(),
                tags.think_end != tags.im_end,
                tags.think_end != tags.end_of_text,
                tags.think_end != tags.tool_call,
            decreases
                4 * (self.model.limit() - self.len) + (if reply.answering {
                    0int
                } else {
                    2int
                }) + (if going {
                    1int
                } else {
                    0int
                }),
        {
            if !self.room(self.ending, self.reserve) {
                // The reply is stopped short, as if interrupted: what it has
                // said stands, and what it was about to call is not run, since
                // the results would not fit either.
                self.cut = true;
                interrupted = true;
                going = false;
            } else {
                let mask = reply.mask(&self.tags);
                proof {
                    assert(!mask@.contains(tags.think_end));
                }
                let token: u32 = self.sampler.sample(logits.as_slice(), mask.as_slice());
                let ghost before = picks;
                let ghost was = reply.talk();
                let next = reply.take(&self.tags, token, self.tokenizer.decode(token));
                proof {
                    assert(masked(tags, was) == mask@);
                    assert(before.push((token, false)).drop_last() =~= before);
                    assert(before.push((token, true)).drop_last() =~= before);
                    assert((reply.talk(), next@) == step(tags, was, token, v.tokens[token as int]));
                }
                match next {
                    Step::Stop => {
                        going = false;
                        proof {
                            picks = before.push((token, false));
                        }
                    },
                    Step::Again => {
                        proof {
                            picks = before.push((token, false));
                            if was.answering && !was.replied {
                                assert(mask@ == seq![tags.im_end, tags.end_of_text, tags.tool_call]);
                                assert(mask@[0] == tags.im_end);
                                assert(mask@[1] == tags.end_of_text);
                            }
                            assert(!was.answering);
                        }
                    },
                    Step::Feed { token: fed, kind, shown } => {
                        let flow = match &shown {
                            Some(Shown::Thought(s)) => on_chunk(Chunk::Thought(s.as_str())),
                            Some(Shown::Text(s)) => on_chunk(Chunk::Text(s.as_str())),
                            None => ControlFlow::Continue(()),
                        };
                        let broke = match flow {
                            ControlFlow::Break(_) => true,
                            ControlFlow::Continue(_) => false,
                        };
                        let ghost s0 = said(tags, v, before);
                        let ghost mid = self.model;
                        proof {
                            if let Some(part) = step(tags, was, token, v.tokens[token as int]).1->Feed_2 {
                                assert(answers(on_chunk, part, broke));
                            }
                            picks = before.push((token, broke));
                            let s1 = said(tags, v, picks);
                            assert(s1.fed == s0.fed.push(fed));
                            assert(s1.kinds == s0.kinds.push(kind));
                            assert(s1.kinds.drop_last() =~= s0.kinds);
                            assert(fed < self.model.size());
                            assert(kind != Kind::Prompt);
                        }
                        let mut one: Vec<u32> = Vec::new();
                        one.push(fed);
                        assert(within(one@, self.model.size()));
                        // Feed the token even if the reply ends here, so that
                        // the model remembers the reply exactly as far as it
                        // was shown.
                        match self.feed(one.as_slice(), kind) {
                            Ok(l) => {
                                logits = l;
                            },
                            Err(e) => {
                                assert(false);
                                return Err(e);
                            },
                        }
                        proof {
                            assert(fed0 + open + s0.fed + one@ =~= fed0 + open + s0.fed.push(fed));
                            assert(one@ =~= seq![fed]);
                            lemma_singly(lead, s0.fed, fed);
                            lemma_goes_on(
                                &self.model,
                                &mid,
                                &old(self).model,
                                lead + singly(s0.fed),
                                seq![one@],
                            );
                        }
                        if broke {
                            interrupted = true;
                            going = false;
                        }
                    },
                }
            }
        }
        // End the reply the way the chat format expects, ready for the next
        // message, even if it was cut short.
        let mut end: Vec<u32> = Vec::new();
        let line = match self.tokenizer.encode("\n") {
            Ok(tokens) => tokens,
            Err(e) => {
                return Err(Error::Tokens(e));
            },
        };
        if reply.thinking {
            push_all(&mut end, line.as_slice());
            end.push(self.tags.think_end);
            match self.tokenizer.encode("\n\n") {
                Ok(gap) => push_all(&mut end, gap.as_slice()),
                Err(e) => {
                    return Err(Error::Tokens(e));
                },
            }
        }
        end.push(self.tags.im_end);
        push_all(&mut end, line.as_slice());
        let ghost s = said(tags, v, picks);
        proof {
            assert(end@ =~= closing(tags, old(self).line(), old(self).gap(), s.talk.thinking));
            lemma_closing_within(tags, v, old(self).line(), old(self).gap(), s.talk.thinking);
        }
        let limit: usize = self.model.max_len();
        proof {
            if s.fed.len() > 0 {
                assert(self.len + self.ending <= limit);
                assert(self.len > 0);
                assert(end@.len() <= self.ending);
            }
        }
        let ghost mid = self.model;
        match self.feed(end.as_slice(), Kind::Prompt) {
            Ok(_) => {},
            Err(e) => {
                proof {
                    assert(s.fed.len() == 0);
                    lemma_unfed(tags, v, picks);
                    assert(lead + singly(s.fed) =~= lead);
                    lemma_stayed(&self.model, &mid, &old(self).model, lead);
                }
                return Err(e);
            },
        }
        proof {
            lemma_goes_on(
                &self.model,
                &mid,
                &old(self).model,
                lead + singly(s.fed),
                seq![end@],
            );
        }
        let calls = if interrupted {
            Vec::new()
        } else {
            reply.calls
        };
        proof {
            assert(texts(calls@) =~= if s.stopped {
                s.talk.calls
            } else {
                Seq::empty()
            });
            assert(self.has_replied(old(self), lead, on_chunk, picks, texts(calls@)));
            assert(self.replied(old(self), lead, on_chunk, texts(calls@)));
            if s.fed.len() == 0 {
                lemma_unfed(tags, v, picks);
            }
            assert(end@.len() <= self.ending);
        }
        Ok(calls)
    }
}

/// A reply of which nothing was fed is still thinking, and nothing counts.
pub proof fn lemma_unfed(t: Tags, v: Vocab, picks: Seq<(u32, bool)>)
    requires
        said(t, v, picks).fed.len() == 0,
    ensures
        said(t, v, picks).talk.thinking,
        said(t, v, picks).kinds.len() == 0,
        !said(t, v, picks).stopped,
        !said(t, v, picks).broken,
    decreases picks.len(),
{
    if picks.len() > 0 {
        lemma_unfed(t, v, picks.drop_last());
    }
}

/// What an answer is so far: its text, and the bytes held back.
pub open spec fn answered(v: Vocab, tokens: Seq<u32>) -> (Seq<char>, Seq<u8>)
    decreases tokens.len(),
{
    if tokens.len() == 0 {
        (Seq::empty(), Seq::empty())
    } else {
        let (text, pending) = answered(v, tokens.drop_last());
        let (more, rest) = pushed(pending, v.tokens[tokens.last() as int]);
        (text + more, rest)
    }
}

/// The tokens that the model may not say in an answer: the start and the end of
/// a thought, and of a tool call.
pub open spec fn unspoken(t: Tags) -> Seq<u32> {
    seq![t.think, t.think_end, t.tool_call, t.tool_call_end]
}

/// Whether a token ends an answer.
pub open spec fn ends(t: Tags, token: u32) -> bool {
    token == t.im_end || token == t.end_of_text
}

/// The piece of an answer that a token behind others adds.
pub open spec fn piece(v: Vocab, tokens: Seq<u32>, token: u32) -> Seq<char> {
    pushed(answered(v, tokens).1, v.tokens[token as int]).0
}

/// Why an answer is over: the model ended it, with a token that is not fed;
/// the listener broke it off; there was no more room; or it was as long as it
/// may be.
pub ghost enum Over {
    Ended(u32),
    Broken,
    Full,
    Long,
}

/// Whether tokens were picked as an answer goes: each by the sampler, of what
/// the model says once all before it have been fed, without those that are
/// masked, and none of them an end; and the listener, who is shown the piece
/// that each adds, let it go on at all of them, but for the last if it broke
/// the answer off there.
pub open spec fn given<
    M: LanguageModel,
    S: Sample,
    F: FnMut(Chunk<'_>) -> ControlFlow<()>,
>(
    chat: &Chat<M, S>,
    lead: Seq<Seq<u32>>,
    listener: F,
    tokens: Seq<u32>,
    broken: bool,
) -> bool
    decreases tokens.len(),
{
    if tokens.len() == 0 {
        !broken
    } else {
        let (some, token) = (tokens.drop_last(), tokens.last());
        &&& given(chat, lead, listener, some, false)
        &&& token < chat.vocab().tokens.len()
        &&& !ends(chat.tags, token)
        &&& !unspoken(chat.tags).contains(token)
        &&& chat.sampler.may(chat.model.says(lead + singly(some)), unspoken(chat.tags), token)
        &&& answers(listener, Part::Text(piece(chat.vocab(), some, token)), broken)
    }
}

impl<M: LanguageModel, S: Sample> Chat<M, S> {
    /// What comes of a turn that the model is to reply to: it is refused where
    /// it cannot be encoded or does not fit, and the reply behind it is
    /// refused likewise, once the turn has been fed.
    pub open spec fn has_taken<F: FnMut(Chunk<'_>) -> ControlFlow<()>>(
        &self,
        before: &Self,
        turn: Option<Seq<u32>>,
        listener: F,
        r: Result<Vec<String>, Error>,
    ) -> bool {
        match turn {
            None => wordless(r)
                && self.unchanged(before),
            Some(turn) => if before.len + turn.len() > before.model.limit() {
                r == Err::<Vec<String>, Error>(Error::Full) && self.unchanged(before)
            } else {
                match opening(before.tags, before.vocab()) {
                    None => wordless(r)
                        && self.has_fed(before, turn),
                    Some(open) => if before.len + turn.len() + open.len() > before.model.limit() {
                        r == Err::<Vec<String>, Error>(Error::Full) && self.has_fed(before, turn)
                    } else {
                        match r {
                            Ok(calls) => self.replied(
                                before,
                                seq![turn, open],
                                listener,
                                texts(calls@),
                            ),
                            Err(e) => e == Error::Full && self.has_no_room(
                                before,
                                seq![turn, open],
                            ),
                        }
                    },
                }
            },
        }
    }

    /// Whether tokens have been fed as a prompt, and no more.
    pub open spec fn has_fed(&self, before: &Self, tokens: Seq<u32>) -> bool {
        &&& self.model.fed() == before.model.fed() + tokens
        &&& goes_on(&self.model, &before.model, seq![tokens])
        &&& tallied(before.stats, self.stats, tokens.len(), 0, 0)
        &&& self.cut == before.cut
    }

    /// Tokens picked behind a turn are picked behind both from before the turn.
    proof fn lemma_picked_behind<F: FnMut(Chunk<'_>) -> ControlFlow<()>>(
        mid: &Self,
        before: &Self,
        turn: Seq<u32>,
        open: Seq<u32>,
        listener: F,
        picks: Seq<(u32, bool)>,
    )
        requires
            mid.kept(before),
            goes_on(&mid.model, &before.model, seq![turn]),
            picked(mid, seq![open], listener, picks),
        ensures
            picked(before, seq![turn, open], listener, picks),
        decreases picks.len(),
    {
        if picks.len() > 0 {
            Self::lemma_picked_behind(mid, before, turn, open, listener, picks.drop_last());
            let runs = seq![open] + singly(
                said(before.tags, before.vocab(), picks.drop_last()).fed,
            );
            assert(mid.model.says(runs) == before.model.says(seq![turn] + runs));
            assert(seq![turn] + runs =~= seq![turn, open] + singly(
                said(before.tags, before.vocab(), picks.drop_last()).fed,
            ));
        }
    }

    /// A reply behind a turn is one behind both from before the turn.
    proof fn lemma_behind_turn<F: FnMut(Chunk<'_>) -> ControlFlow<()>>(
        self,
        mid: &Self,
        before: &Self,
        turn: Seq<u32>,
        open: Seq<u32>,
        listener: F,
        calls: Seq<Seq<char>>,
    )
        requires
            mid.kept(before),
            mid.has_fed(before, turn),
            mid.len == before.len + turn.len(),
        ensures
            self.replied(mid, seq![open], listener, calls) ==> self.replied(
                before,
                seq![turn, open],
                listener,
                calls,
            ),
            self.has_no_room(mid, seq![open]) ==> self.has_no_room(before, seq![turn, open]),
    {
        lemma_joined_one(open);
        lemma_joined_two(turn, open);
        assert(before.model.fed() + turn + open =~= before.model.fed() + (turn + open));
        if self.replied(mid, seq![open], listener, calls) {
            let picks = choose|picks: Seq<(u32, bool)>|
                #[trigger] self.has_replied(mid, seq![open], listener, picks, calls);
            let s = said(before.tags, before.vocab(), picks);
            let end = closing(before.tags, before.line(), before.gap(), s.talk.thinking);
            lemma_tallied(
                before.stats,
                mid.stats,
                self.stats,
                turn.len(),
                open.len() + end.len(),
                counted(s.kinds, Kind::Thought),
                counted(s.kinds, Kind::Answer),
            );
            Self::lemma_picked_behind(mid, before, turn, open, listener, picks);
            let runs = seq![open] + singly(s.fed) + seq![end];
            lemma_goes_on(&self.model, &mid.model, &before.model, seq![turn], runs);
            assert(seq![turn] + runs =~= seq![turn, open] + singly(s.fed) + seq![end]);
            assert(self.has_replied(before, seq![turn, open], listener, picks, calls));
        }
        if self.has_no_room(mid, seq![open]) {
            lemma_tallied(before.stats, mid.stats, self.stats, turn.len(), open.len(), 0, 0);
            lemma_goes_on(&self.model, &mid.model, &before.model, seq![turn], seq![open]);
            assert(seq![turn] + seq![open] =~= seq![turn, open]);
        }
    }

    /// Sends a message from the user, streaming the reply to `on_chunk` as it
    /// is generated, and returns the tool calls the reply made, as the model
    /// wrote them. The reply ends early if `on_chunk` breaks, and then makes
    /// no calls.
    pub fn send(
        &mut self,
        message: &str,
        on_chunk: impl FnMut(Chunk<'_>) -> ControlFlow<()>,
    ) -> (r: Result<Vec<String>, Error>)
        requires
            old(self).wf(),
            forall|c: Chunk| call_requires(on_chunk, (c,)),
        ensures
            final(self).wf(),
            final(self).kept(old(self)),
            final(self).has_taken(
                old(self),
                user_turn(old(self).tags, old(self).vocab(), message@),
                on_chunk,
                r,
            ),
    {
        let turn = match self.tags.user(&self.tokenizer, message) {
            Ok(turn) => turn,
            Err(e) => {
                return Err(Error::Tokens(e));
            },
        };
        proof {
            lemma_user_within(self.tags, self.vocab(), message@);
        }
        self.reply_to(turn, on_chunk)
    }

    /// Sends the results of the tool calls the last reply made, in order, and
    /// streams the reply to them like `send`. Each result goes in a
    /// `<tool_response>` block, as text: a result that contains the text of a
    /// tag is not mistaken for the tag.
    pub fn respond(
        &mut self,
        outputs: &[String],
        on_chunk: impl FnMut(Chunk<'_>) -> ControlFlow<()>,
    ) -> (r: Result<Vec<String>, Error>)
        requires
            old(self).wf(),
            forall|c: Chunk| call_requires(on_chunk, (c,)),
        ensures
            final(self).wf(),
            final(self).kept(old(self)),
            final(self).has_taken(
                old(self),
                results_turn(old(self).tags, old(self).vocab(), texts(outputs@)),
                on_chunk,
                r,
            ),
    {
        let turn = match self.tags.results(&self.tokenizer, outputs) {
            Ok(turn) => turn,
            Err(e) => {
                return Err(Error::Tokens(e));
            },
        };
        proof {
            lemma_results_within(self.tags, self.vocab(), texts(outputs@));
        }
        self.reply_to(turn, on_chunk)
    }

    /// Feeds a turn, and generates the reply to it.
    fn reply_to(
        &mut self,
        turn: Vec<u32>,
        on_chunk: impl FnMut(Chunk<'_>) -> ControlFlow<()>,
    ) -> (r: Result<Vec<String>, Error>)
        requires
            old(self).wf(),
            0 < turn@.len(),
            within(turn@, old(self).model.size()),
            forall|c: Chunk| call_requires(on_chunk, (c,)),
        ensures
            final(self).wf(),
            final(self).kept(old(self)),
            final(self).has_taken(old(self), Some(turn@), on_chunk, r),
    {
        match self.feed(turn.as_slice(), Kind::Prompt) {
            Ok(_) => {},
            Err(e) => {
                return Err(e);
            },
        }
        let ghost mid = *self;
        let r = self.generate(on_chunk);
        proof {
            if let Some(open) = opening(mid.tags, mid.vocab()) {
                self.lemma_behind_turn(
                    &mid,
                    old(self),
                    turn@,
                    open,
                    on_chunk,
                    texts(r->Ok_0@),
                );
            }
        }
        r
    }

    /// Whether an answer has been given behind `lead`: its tokens, for as long
    /// as nothing made it be over, and the end of a turn.
    pub open spec fn has_answered<F: FnMut(Chunk<'_>) -> ControlFlow<()>>(
        &self,
        before: &Self,
        lead: Seq<Seq<u32>>,
        most: int,
        listener: F,
        tokens: Seq<u32>,
        over: Over,
        answer: Seq<char>,
    ) -> bool {
        let end = seq![before.tags.im_end] + before.line();
        let len = before.len + joined(lead).len() + tokens.len();
        &&& given(before, lead, listener, tokens, over is Broken)
        &&& answer == answered(before.vocab(), tokens).0
        &&& self.model.fed() == before.model.fed() + joined(lead) + tokens + end
        &&& goes_on(&self.model, &before.model, lead + singly(tokens) + seq![end])
        &&& tallied(before.stats, self.stats, joined(lead).len() + end.len(), 0, tokens.len())
        &&& self.cut == (over is Full)
        &&& tokens.len() <= most
        &&& tokens.len() > 0 ==> len + end.len() <= before.model.limit()
        &&& match over {
            Over::Ended(token) => {
                &&& tokens.len() < most
                &&& len + 1 + end.len() <= before.model.limit()
                &&& ends(before.tags, token)
                &&& before.sampler.may(
                    before.model.says(lead + singly(tokens)),
                    unspoken(before.tags),
                    token,
                )
            },
            Over::Broken => true,
            Over::Full => tokens.len() < most && len + 1 + end.len() > before.model.limit(),
            Over::Long => tokens.len() == most,
        }
    }

    /// Whether an answer has been given behind `lead`, out of some tokens.
    pub open spec fn gave<F: FnMut(Chunk<'_>) -> ControlFlow<()>>(
        &self,
        before: &Self,
        lead: Seq<Seq<u32>>,
        most: int,
        listener: F,
        answer: Seq<char>,
    ) -> bool {
        exists|tokens: Seq<u32>, over: Over| #[trigger]
            self.has_answered(before, lead, most, listener, tokens, over, answer)
    }

    /// Whether there was no room to end an answer behind `lead`.
    pub open spec fn has_no_end(&self, before: &Self, lead: Seq<Seq<u32>>, most: int) -> bool {
        let len = before.len + joined(lead).len();
        &&& self.model.fed() == before.model.fed() + joined(lead)
        &&& goes_on(&self.model, &before.model, lead)
        &&& tallied(before.stats, self.stats, joined(lead).len(), 0, 0)
        &&& len + 1 + before.line().len() > before.model.limit()
        &&& self.cut == (most > 0)
    }

    /// What comes of a message that is to be answered plainly.
    pub open spec fn has_asked<F: FnMut(Chunk<'_>) -> ControlFlow<()>>(
        &self,
        before: &Self,
        turn: Option<Seq<u32>>,
        most: int,
        listener: F,
        r: Result<String, Error>,
    ) -> bool {
        match turn {
            None => wordless(r) && self.unchanged(
                before,
            ),
            Some(turn) => if before.len + turn.len() > before.model.limit() {
                r == Err::<String, Error>(Error::Full) && self.unchanged(before)
            } else {
                match plain_opening(before.tags, before.vocab()) {
                    None => wordless(r)
                        && self.has_fed(before, turn),
                    Some(open) => if before.len + turn.len() + open.len() > before.model.limit() {
                        r == Err::<String, Error>(Error::Full) && self.has_fed(before, turn)
                    } else {
                        match r {
                            Ok(answer) => self.gave(
                                before,
                                seq![turn, open],
                                most,
                                listener,
                                answer@,
                            ),
                            Err(e) => e == Error::Full && self.has_no_end(
                                before,
                                seq![turn, open],
                                most,
                            ),
                        }
                    },
                }
            },
        }
    }

    /// Sends a message from the user and has the model answer it plainly:
    /// without thinking, without tool calls, and in at most `limit` tokens,
    /// streaming the answer to `on_chunk` as text. Returns the answer.
    pub fn answer(
        &mut self,
        message: &str,
        limit: usize,
        mut on_chunk: impl FnMut(Chunk<'_>) -> ControlFlow<()>,
    ) -> (r: Result<String, Error>)
        requires
            old(self).wf(),
            forall|c: Chunk| call_requires(on_chunk, (c,)),
        ensures
            final(self).wf(),
            final(self).kept(old(self)),
            final(self).has_asked(
                old(self),
                user_turn(old(self).tags, old(self).vocab(), message@),
                limit as int,
                on_chunk,
                r,
            ),
    {
        let ghost v = self.vocab();
        let ghost tags = self.tags;
        let ghost fed0 = self.model.fed();
        let ghost listener = on_chunk;
        let turn = match self.tags.user(&self.tokenizer, message) {
            Ok(turn) => turn,
            Err(e) => {
                return Err(Error::Tokens(e));
            },
        };
        proof {
            lemma_user_within(tags, v, message@);
            lemma_plain_opening_within(tags, v);
            lemma_encoded_within(v, "\n"@);
            lemma_encoded_within(v, "\n\n"@);
            lemma_tags_within(v, tags);
            lemma_tags_differ(v, tags);
        }
        match self.feed(turn.as_slice(), Kind::Prompt) {
            Ok(_) => {},
            Err(e) => {
                return Err(e);
            },
        }
        // The template's opening of a reply, with the thought closed at once,
        // as it writes a reply made without thinking.
        let mut prompt: Vec<u32> = Vec::new();
        prompt.push(self.tags.im_start);
        match self.tokenizer.encode("assistant\n") {
            Ok(role) => push_all(&mut prompt, role.as_slice()),
            Err(e) => {
                return Err(Error::Tokens(e));
            },
        }
        let gap = match self.tokenizer.encode("\n\n") {
            Ok(gap) => gap,
            Err(e) => {
                return Err(Error::Tokens(e));
            },
        };
        prompt.push(self.tags.think);
        push_all(&mut prompt, gap.as_slice());
        prompt.push(self.tags.think_end);
        push_all(&mut prompt, gap.as_slice());
        let ghost open = plain_opening(tags, v)->0;
        let ghost lead = seq![turn@, open];
        assert(prompt@ =~= open);
        let ghost mid = *self;
        let mut logits = match self.feed(prompt.as_slice(), Kind::Prompt) {
            Ok(logits) => logits,
            Err(e) => {
                return Err(e);
            },
        };
        proof {
            lemma_tallied(old(self).stats, mid.stats, self.stats, turn@.len(), open.len(), 0, 0);
            lemma_joined_two(turn@, open);
            assert(fed0 + turn@ + open =~= fed0 + joined(lead));
            lemma_goes_on(&self.model, &mid.model, &old(self).model, seq![turn@], seq![open]);
            assert(mid.model.says(seq![open]) == old(self).model.says(seq![turn@] + seq![open]));
            assert(seq![turn@] + seq![open] =~= lead);
        }
        let mut text = Utf8Stream::default();
        let mut answer = String::new();
        let mut end: Vec<u32> = Vec::new();
        end.push(self.tags.im_end);
        match self.tokenizer.encode("\n") {
            Ok(line) => push_all(&mut end, line.as_slice()),
            Err(e) => {
                return Err(Error::Tokens(e));
            },
        }
        assert(end@ =~= seq![tags.im_end] + old(self).line());
        let mut mask: Vec<u32> = Vec::new();
        mask.push(self.tags.think);
        mask.push(self.tags.think_end);
        mask.push(self.tags.tool_call);
        mask.push(self.tags.tool_call_end);
        assert(mask@ =~= unspoken(tags));
        // The answer is what the reserve is for, so it may use it.
        self.cut = false;
        let ghost mut tokens: Seq<u32> = Seq::empty();
        let mut i: usize = 0;
        let mut going = true;
        let ghost mut over = Over::Long;
        assert(fed0 + joined(lead) + tokens =~= fed0 + joined(lead));
        assert(lead + singly(tokens) =~= lead);
        assert(answer@ =~= answered(v, tokens).0);
        assert(text.pending@ =~= answered(v, tokens).1);
        while going && i < limit
            invariant
                self.wf(),
                self.kept(old(self)),
                old(self).wf(),
                v == self.vocab(),
                v == old(self).vocab(),
                tags == self.tags,
                fed0 == old(self).model.fed(),
                forall|c: Chunk| call_requires(on_chunk, (c,)),
                logits@.len() == self.model.size(),
                end@ == seq![tags.im_end] + old(self).line(),
                mask@ == unspoken(tags),
                on_chunk == listener,
                going ==> logits@ == old(self).model.says(lead + singly(tokens)),
                goes_on(&self.model, &old(self).model, lead + singly(tokens)),
                given(old(self), lead, listener, tokens, over is Broken),
                self.cut == (over is Full),
                going ==> over is Long,
                tags.im_end < self.model.size(),
                tags.im_end != tags.think,
                tags.im_end != tags.think_end,
                tags.im_end != tags.tool_call,
                tags.im_end != tags.tool_call_end,
                tokens.len() <= i <= limit,
                (answer@, text.pending@) == answered(v, tokens),
                self.model.fed() == fed0 + joined(lead) + tokens,
                self.len == old(self).len + joined(lead).len() + tokens.len(),
                tallied(old(self).stats, self.stats, joined(lead).len(), 0, tokens.len()),
                going ==> tokens.len() == i,
                !going ==> match over {
                    Over::Ended(token) => {
                        &&& tokens.len() < limit
                        &&& self.len + 1 + end@.len() <= self.model.limit()
                        &&& ends(tags, token)
                        &&& old(self).sampler.may(
                            old(self).model.says(lead + singly(tokens)),
                            mask@,
                            token,
                        )
                    },
                    Over::Broken => true,
                    Over::Full => tokens.len() < limit && self.len + 1 + end@.len()
                        > self.model.limit(),
                    Over::Long => false,
                },
                tokens.len() > 0 ==> self.len + end@.len() <= self.model.limit(),
            decreases
                limit - i + if going {
                    1int
                } else {
                    0int
                },
        {
            if !self.room(end.len(), 0) {
                self.cut = true;
                going = false;
                proof {
                    over = Over::Full;
                }
            } else {
                assert(!mask@.contains(tags.im_end));
                let token: u32 = self.sampler.sample(logits.as_slice(), mask.as_slice());
                if token == self.tags.im_end || token == self.tags.end_of_text {
                    going = false;
                    proof {
                        over = Over::Ended(token);
                    }
                } else {
                    let chunk = text.push(self.tokenizer.decode(token));
                    answer.append(&chunk);
                    let flow = on_chunk(Chunk::Text(chunk.as_str()));
                    let mut one: Vec<u32> = Vec::new();
                    one.push(token);
                    assert(within(one@, self.model.size()));
                    let ghost before = tokens;
                    let ghost mid = self.model;
                    match self.feed(one.as_slice(), Kind::Answer) {
                        Ok(l) => {
                            logits = l;
                        },
                        Err(e) => {
                            assert(false);
                            return Err(e);
                        },
                    }
                    proof {
                        tokens = before.push(token);
                        assert(tokens.drop_last() =~= before);
                        assert(fed0 + joined(lead) + before + one@ =~= fed0 + joined(lead)
                            + tokens);
                        assert(one@ =~= seq![token]);
                        lemma_singly(lead, before, token);
                        lemma_goes_on(
                            &self.model,
                            &mid,
                            &old(self).model,
                            lead + singly(before),
                            seq![one@],
                        );
                        assert(answers(
                            listener,
                            Part::Text(piece(v, before, token)),
                            flow is Break,
                        ));
                    }
                    if let ControlFlow::Break(_) = flow {
                        going = false;
                        proof {
                            over = Over::Broken;
                        }
                    }
                }
            }
            i = i + 1;
        }
        proof {
            assert forall|j: int| 0 <= j < end@.len() implies #[trigger] end@[j]
                < self.model.size() by {
                if j > 0 {
                    assert(end@[j] == old(self).line()[j - 1]);
                }
            }
        }
        let ghost mid = self.model;
        match self.feed(end.as_slice(), Kind::Prompt) {
            Ok(_) => {},
            Err(e) => {
                proof {
                    assert(tokens.len() == 0);
                    assert(fed0 + joined(lead) + tokens =~= fed0 + joined(lead));
                    assert(lead + singly(tokens) =~= lead);
                    lemma_stayed(&self.model, &mid, &old(self).model, lead);
                }
                return Err(e);
            },
        }
        proof {
            lemma_goes_on(
                &self.model,
                &mid,
                &old(self).model,
                lead + singly(tokens),
                seq![end@],
            );
            assert(self.has_answered(
                old(self),
                lead,
                limit as int,
                listener,
                tokens,
                over,
                answer@,
            ));
            assert(self.gave(old(self), lead, limit as int, listener, answer@));
        }
        Ok(answer)
    }
}

} // verus!
