//! How replies and answers come about, and why they end.
use std::ops::ControlFlow;

use vstd::prelude::*;
use vstd::utf8::encode_utf8;

use super::format::closing;
use super::generate::{given, joined, picked, singly, Over};
use super::meaning::law_answer_is_what_was_said;
use super::reply::{masked, said, Chunk};
use super::talk::{Chat, Error};
use crate::model::LanguageModel;
use crate::sampler::Sample;
use crate::tokenizer::laws::flat;

verus! {

/// A reply is over because the model ended it, because it was broken off, or
/// because there is no room for one more token, the end, and what is to be
/// kept free: only then is it cut. The calls that it made are those written in
/// it if the model ended it, and else none. What the model was fed is what was
/// said, and the end of the turn.
pub proof fn law_reply_ends_for_a_reason<
    M: LanguageModel,
    S: Sample,
    F: FnMut(Chunk<'_>) -> ControlFlow<()>,
>(
    before: &Chat<M, S>,
    after: &Chat<M, S>,
    lead: Seq<Seq<u32>>,
    listener: F,
    picks: Seq<(u32, bool)>,
    calls: Seq<Seq<char>>,
)
    requires
        after.has_replied(before, lead, listener, picks, calls),
    ensures
        ({
            let s = said(before.tags, before.vocab(), picks);
            let end = closing(before.tags, before.line(), before.gap(), s.talk.thinking);
            let len = before.len + joined(lead).len() + s.fed.len();
            &&& after.cut ==> !s.stopped && !s.broken
            &&& !after.cut ==> s.stopped || s.broken
            &&& after.cut ==> len + 1 + before.ending + before.reserve > before.model.limit()
            &&& s.stopped ==> calls == s.talk.calls
            &&& !s.stopped ==> calls.len() == 0
            &&& after.model.fed() == before.model.fed() + joined(lead) + s.fed + end
        }),
{
}

/// Every token of a reply is one that the sampler may pick of what the model
/// says behind all before it, without those that may not be said there.
pub proof fn law_replies_are_sampled<
    M: LanguageModel,
    S: Sample,
    F: FnMut(Chunk<'_>) -> ControlFlow<()>,
>(
    chat: &Chat<M, S>,
    lead: Seq<Seq<u32>>,
    listener: F,
    picks: Seq<(u32, bool)>,
    i: int,
)
    requires
        picked(chat, lead, listener, picks),
        0 <= i < picks.len(),
    ensures
        ({
            let s = said(chat.tags, chat.vocab(), picks.take(i));
            chat.sampler.may(
                chat.model.says(lead + Seq::new(s.fed.len(), |j: int| seq![s.fed[j]])),
                masked(chat.tags, s.talk),
                picks[i].0,
            )
        }),
    decreases picks.len(),
{
    let first = picks.drop_last();
    if i == picks.len() - 1 {
        assert(picks.take(i) =~= first);
        let s = said(chat.tags, chat.vocab(), first);
        assert(singly(s.fed) =~= Seq::new(s.fed.len(), |j: int| seq![s.fed[j]]));
    } else {
        law_replies_are_sampled(chat, lead, listener, first, i);
        assert(first.take(i) =~= picks.take(i));
    }
}

/// Every token of an answer is one that the sampler may pick of what the model
/// says behind all before it, without the tags of thoughts and calls.
pub proof fn law_answers_are_sampled<
    M: LanguageModel,
    S: Sample,
    F: FnMut(Chunk<'_>) -> ControlFlow<()>,
>(
    chat: &Chat<M, S>,
    lead: Seq<Seq<u32>>,
    listener: F,
    tokens: Seq<u32>,
    broken: bool,
    i: int,
)
    requires
        given(chat, lead, listener, tokens, broken),
        0 <= i < tokens.len(),
    ensures
        ({
            let t = chat.tags;
            chat.sampler.may(
                chat.model.says(lead + Seq::new(i as nat, |j: int| seq![tokens[j]])),
                seq![t.think, t.think_end, t.tool_call, t.tool_call_end],
                tokens[i],
            )
        }),
    decreases tokens.len(),
{
    let first = tokens.drop_last();
    let ahead = Seq::new(i as nat, |j: int| seq![tokens[j]]);
    if i == tokens.len() - 1 {
        assert(singly(first) =~= ahead);
    } else {
        law_answers_are_sampled(chat, lead, listener, first, false, i);
        assert(Seq::new(i as nat, |j: int| seq![first[j]]) =~= ahead);
    }
}

/// An answer is over because the model ended it, with a token that is not fed;
/// because it was broken off; because it is as long as it may be; or because
/// there is no room for one more token and the end: only then is it cut. It is
/// what its tokens stand for, and the model was fed them and the end of the
/// turn.
pub proof fn law_answer_ends_for_a_reason<
    M: LanguageModel,
    S: Sample,
    F: FnMut(Chunk<'_>) -> ControlFlow<()>,
>(
    before: &Chat<M, S>,
    after: &Chat<M, S>,
    lead: Seq<Seq<u32>>,
    most: int,
    listener: F,
    tokens: Seq<u32>,
    over: Over,
    answer: Seq<char>,
    text: Seq<char>,
)
    requires
        after.has_answered(before, lead, most, listener, tokens, over, answer),
    ensures
        ({
            let len = before.len + joined(lead).len() + tokens.len();
            let end = 1 + before.line().len();
            &&& after.cut ==> over is Full && tokens.len() < most && len + 1 + end
                > before.model.limit()
            &&& !after.cut ==> over is Broken || tokens.len() == most || (over matches Over::Ended(
                token,
            ) && (token == before.tags.im_end || token == before.tags.end_of_text))
            &&& flat(before.vocab(), tokens) == encode_utf8(text) ==> answer == text
            &&& after.model.fed() == before.model.fed() + joined(lead) + tokens
                + seq![before.tags.im_end] + before.line()
        }),
{
    if flat(before.vocab(), tokens) == encode_utf8(text) {
        law_answer_is_what_was_said(before.vocab(), tokens, text);
    }
    assert(after.model.fed() =~= before.model.fed() + joined(lead) + tokens
        + seq![before.tags.im_end] + before.line());
}

/// Tokens are read as far as there is room for them: all of them, or else as
/// many batches of 64 as fit, and then the conversation is said to be full.
pub proof fn law_reading_stops_at_the_room<M: LanguageModel, S: Sample, F: FnMut(usize, usize)>(
    before: &Chat<M, S>,
    after: &Chat<M, S>,
    tokens: Seq<u32>,
    listener: F,
    r: Result<(), Error>,
    k: int,
)
    requires
        after.has_read(before, tokens, listener, r),
        before.len <= before.model.limit(),
        0 <= 64 * k,
        before.len + 64 * k <= before.model.limit() < before.len + 64 * k + 64,
    ensures
        before.len + tokens.len() <= before.model.limit() ==> r is Ok && after.model.fed()
            == before.model.fed() + tokens,
        before.len + tokens.len() > before.model.limit() ==> r == Err::<(), Error>(Error::Full)
            && after.model.fed() == before.model.fed() + tokens.take(64 * k),
        after.cut == before.cut,
{
    assert(tokens.take(tokens.len() as int) =~= tokens);
}

} // verus!
