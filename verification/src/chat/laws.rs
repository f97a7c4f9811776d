//! What holds of every conversation.
use std::ops::ControlFlow;

use vstd::prelude::*;

use super::format::{
    closing, responses, results_turn, transcript, turn_of, turn_tokens, user_turn, Tags, Turn,
};
use super::generate::{given, joined, lemma_unfed, unspoken, Over};
use super::reply::{counted, said, step, Chunk, Kind, Talk};
use super::talk::{batched, tags_of, tallied, Chat, Error, BATCH};
use crate::model::LanguageModel;
use crate::sampler::Sample;
use crate::tokenizer::coder::encoded;
use crate::tokenizer::laws::{all_plain, faithful, law_words_survive, plain};
use crate::tokenizer::vocab::Vocab;
use crate::tokenizer::words::{found, QWEN_PATTERN};

verus! {

/// A tool call contemplated in a thought is not made: whatever the model says
/// while it thinks, the calls made stay what they were.
pub proof fn law_no_calls_in_thoughts(t: Tags, s: Talk, token: u32, bytes: Seq<u8>)
    requires
        s.thinking,
    ensures
        step(t, s, token, bytes).0.calls == s.calls,
{
}

/// A reply does not end while the model thinks, nor before it has shown
/// anything or called a tool.
pub proof fn law_no_end_without_reply(t: Tags, s: Talk, token: u32, bytes: Seq<u8>)
    ensures
        step(t, s, token, bytes).1 is Stop ==> !s.thinking && s.replied,
{
}

/// A reply for which there was room stops short of the reserve, its end
/// included.
pub proof fn law_reply_keeps_reserve<
    M: LanguageModel,
    S: Sample,
    F: FnMut(Chunk<'_>) -> ControlFlow<()>,
>(
    before: Chat<M, S>,
    after: Chat<M, S>,
    lead: Seq<Seq<u32>>,
    listener: F,
    picks: Seq<(u32, bool)>,
    calls: Seq<Seq<char>>,
)
    requires
        before.wf(),
        after.wf(),
        after.kept(&before),
        before.model.limit() <= usize::MAX,
        after.has_replied(&before, lead, listener, picks, calls),
        before.len + joined(lead).len() + before.ending + before.reserve <= before.model.limit(),
    ensures
        after.model.fed().len() + before.reserve <= before.model.limit(),
        after.model.fed().len() <= before.free(),
{
    let s = said(before.tags, before.vocab(), picks);
    let end = closing(before.tags, before.line(), before.gap(), s.talk.thinking);
    if s.fed.len() == 0 {
        lemma_unfed(before.tags, before.vocab(), picks);
    }
    assert(end.len() <= before.ending || before.ending == usize::MAX);
}

/// A conversation only grows: what was said before a reply still stands where
/// it stood.
pub proof fn law_conversation_grows<
    M: LanguageModel,
    S: Sample,
    F: FnMut(Chunk<'_>) -> ControlFlow<()>,
>(
    before: Chat<M, S>,
    after: Chat<M, S>,
    lead: Seq<Seq<u32>>,
    listener: F,
    picks: Seq<(u32, bool)>,
    calls: Seq<Seq<char>>,
)
    requires
        after.has_replied(&before, lead, listener, picks, calls),
    ensures
        before.model.fed().is_prefix_of(after.model.fed()),
{
    let n = before.model.fed().len() as int;
    assert(after.model.fed().take(n) =~= before.model.fed());
}

/// A reply that was broken off, or stopped short for room, makes no calls.
pub proof fn law_interrupted_makes_no_calls<
    M: LanguageModel,
    S: Sample,
    F: FnMut(Chunk<'_>) -> ControlFlow<()>,
>(
    before: Chat<M, S>,
    after: Chat<M, S>,
    lead: Seq<Seq<u32>>,
    listener: F,
    picks: Seq<(u32, bool)>,
    calls: Seq<Seq<char>>,
)
    requires
        after.has_replied(&before, lead, listener, picks, calls),
        after.cut || (said(before.tags, before.vocab(), picks).broken && !said(
            before.tags,
            before.vocab(),
            picks,
        ).stopped),
    ensures
        calls.len() == 0,
{
}

/// Tokens of an answer are none that may not stand in one.
proof fn lemma_given<M: LanguageModel, S: Sample, F: FnMut(Chunk<'_>) -> ControlFlow<()>>(
    chat: &Chat<M, S>,
    lead: Seq<Seq<u32>>,
    listener: F,
    tokens: Seq<u32>,
    broken: bool,
    i: int,
)
    requires
        given(chat, lead, listener, tokens, broken),
        0 <= i < tokens.len(),
    ensures
        !unspoken(chat.tags).contains(tokens[i]),
        tokens[i] != chat.tags.im_end,
        tokens[i] != chat.tags.end_of_text,
    decreases tokens.len(),
{
    if i < tokens.len() - 1 {
        lemma_given(chat, lead, listener, tokens.drop_last(), false, i);
        assert(tokens.drop_last()[i] == tokens[i]);
    }
}

/// An answer is plain: it has at most as many tokens as it may have, and it
/// neither thinks nor calls a tool.
pub proof fn law_answer_is_plain<
    M: LanguageModel,
    S: Sample,
    F: FnMut(Chunk<'_>) -> ControlFlow<()>,
>(
    before: Chat<M, S>,
    after: Chat<M, S>,
    lead: Seq<Seq<u32>>,
    most: int,
    listener: F,
    tokens: Seq<u32>,
    over: Over,
    answer: Seq<char>,
)
    requires
        after.has_answered(&before, lead, most, listener, tokens, over, answer),
    ensures
        tokens.len() <= most,
        forall|i: int|
            0 <= i < tokens.len() ==> {
                let token = #[trigger] tokens[i];
                &&& token != before.tags.think
                &&& token != before.tags.think_end
                &&& token != before.tags.tool_call
                &&& token != before.tags.tool_call_end
                &&& token != before.tags.im_end
                &&& token != before.tags.end_of_text
            },
{
    assert forall|i: int| 0 <= i < tokens.len() implies {
        let token = #[trigger] tokens[i];
        &&& token != before.tags.think
        &&& token != before.tags.think_end
        &&& token != before.tags.tool_call
        &&& token != before.tags.tool_call_end
        &&& token != before.tags.im_end
        &&& token != before.tags.end_of_text
    } by {
        lemma_given(&before, lead, listener, tokens, over is Broken, i);
        let m = unspoken(before.tags);
        assert(m[0] == before.tags.think);
        assert(m[1] == before.tags.think_end);
        assert(m[2] == before.tags.tool_call);
        assert(m[3] == before.tags.tool_call_end);
    }
}

/// The lengths of turns added up.
pub open spec fn measured(t: Tags, v: Vocab, turns: Seq<Turn>) -> nat
    decreases turns.len(),
{
    if turns.len() == 0 {
        0
    } else {
        measured(t, v, turns.drop_last()) + (turn_tokens(t, v, turns.last())->0).len()
    }
}

/// A transcript takes as many tokens as its turns do.
pub proof fn law_measures_add_up(t: Tags, v: Vocab, turns: Seq<Turn>)
    requires
        transcript(t, v, turns) is Some,
    ensures
        (transcript(t, v, turns)->0).len() == measured(t, v, turns),
    decreases turns.len(),
{
    if turns.len() > 0 {
        law_measures_add_up(t, v, turns.drop_last());
    }
}

/// How far reading so many tokens has come once `i` batches of them are read.
pub open spec fn batches_read(i: nat, n: nat) -> nat {
    if BATCH * i < n {
        (BATCH * i) as nat
    } else {
        n
    }
}

/// A transcript for which there is room is replayed: the conversation grows by
/// as many tokens as its turns are measured to take, which are those of the
/// turns and none of a reply, and progress is reported before the first batch
/// and after each, the last of which ends with all of them read.
pub proof fn law_replay_grows_by_measures<
    M: LanguageModel,
    S: Sample,
    F: FnMut(usize, usize),
>(before: Chat<M, S>, after: Chat<M, S>, turns: Seq<Turn>, listener: F, r: Result<(), Error>)
    requires
        before.wf(),
        after.wf(),
        transcript(before.tags, before.vocab(), turns) is Some,
        before.model.limit() <= usize::MAX,
        before.len + measured(before.tags, before.vocab(), turns) <= before.model.limit(),
        after.has_read(
            &before,
            transcript(before.tags, before.vocab(), turns)->0,
            listener,
            r,
        ),
    ensures
        ({
            let n = measured(before.tags, before.vocab(), turns);
            &&& r == Ok::<(), Error>(())
            &&& after.len == before.len + n
            &&& after.model.fed() == before.model.fed() + transcript(
                before.tags,
                before.vocab(),
                turns,
            )->0
            &&& tallied(before.stats, after.stats, n, 0, 0)
            &&& forall|i: nat| #[trigger]
                call_ensures(listener, (batches_read(i, n) as usize, n as usize), ())
            &&& forall|i: nat| BATCH * i >= n ==> #[trigger] batches_read(i, n) == n
        }),
{
    let tokens = transcript(before.tags, before.vocab(), turns)->0;
    let n = measured(before.tags, before.vocab(), turns);
    law_measures_add_up(before.tags, before.vocab(), turns);
    assert(tokens.take(n as int) =~= tokens);
    assert forall|i: nat| #[trigger]
        call_ensures(listener, (batches_read(i, n) as usize, n as usize), ()) by {
        let k = batches_read(i, n) as usize;
        if BATCH * i < n {
            assert(k == 64 * i);
            assert(k % 64 == 0);
        }
        assert(k <= n && (k % BATCH == 0 || k == n));
    }
}

/// The tokens that are not plain, in order: the tags that a model sees.
pub open spec fn marks(v: Vocab, s: Seq<u32>) -> Seq<u32>
    decreases s.len(),
{
    if s.len() == 0 {
        Seq::empty()
    } else if plain(v, s.last()) {
        marks(v, s.drop_last())
    } else {
        marks(v, s.drop_last()).push(s.last())
    }
}

/// The tags of two runs are those of one and the other.
proof fn lemma_marks_concat(v: Vocab, a: Seq<u32>, b: Seq<u32>)
    ensures
        marks(v, a + b) == marks(v, a) + marks(v, b),
    decreases b.len(),
{
    if b.len() == 0 {
        assert(a + b =~= a);
        assert(marks(v, a) + marks(v, b) =~= marks(v, a));
    } else {
        lemma_marks_concat(v, a, b.drop_last());
        assert((a + b).drop_last() =~= a + b.drop_last());
        assert(marks(v, a + b) =~= marks(v, a) + marks(v, b));
    }
}

/// Plain tokens hold no tags.
proof fn lemma_marks_plain(v: Vocab, s: Seq<u32>)
    requires
        all_plain(v, s),
    ensures
        marks(v, s) == Seq::<u32>::empty(),
    decreases s.len(),
{
    if s.len() > 0 {
        assert(plain(v, s[s.len() - 1]));
        assert forall|i: int| 0 <= i < s.drop_last().len() implies plain(
            v,
            #[trigger] s.drop_last()[i],
        ) by {
            assert(s.drop_last()[i] == s[i]);
        }
        lemma_marks_plain(v, s.drop_last());
    }
}

/// Text that is encoded holds no tags.
proof fn lemma_marks_encoded(v: Vocab, text: Seq<char>)
    requires
        faithful(v),
    ensures
        encoded(v, text) matches Some(tokens) ==> marks(v, tokens) == Seq::<u32>::empty(),
{
    if let Ok(words) = found(QWEN_PATTERN@, text) {
        law_words_survive(v, words);
        lemma_marks_plain(v, encoded(v, text)->0);
    }
}

/// A special token is a tag.
proof fn lemma_marks_special(v: Vocab, c: Seq<char>)
    requires
        v.special.contains_key(c),
    ensures
        marks(v, seq![v.special[c]]) == seq![v.special[c]],
{
    reveal_with_fuel(marks, 2);
    let id = v.special[c];
    assert(!plain(v, id));
    assert(seq![id].drop_last() =~= Seq::empty());
    assert(marks(v, seq![id]) =~= seq![id]);
}

/// The tags of a turn are those of its frame and of its content.
proof fn lemma_marks_turn(t: Tags, v: Vocab, role: Seq<char>, content: Seq<u32>)
    requires
        faithful(v),
        tags_of(v, t),
    ensures
        turn_of(t, v, role, content) matches Some(turn) ==> marks(v, turn) == seq![t.im_start]
            + marks(v, content) + seq![t.im_end],
{
    if let Some(turn) = turn_of(t, v, role, content) {
        let r = encoded(v, role + "\n"@)->0;
        let n = encoded(v, "\n"@)->0;
        lemma_marks_encoded(v, role + "\n"@);
        lemma_marks_encoded(v, "\n"@);
        lemma_marks_special(v, "<|im_start|>"@);
        lemma_marks_special(v, "<|im_end|>"@);
        lemma_marks_concat(v, seq![t.im_start] + r + content + seq![t.im_end], n);
        lemma_marks_concat(v, seq![t.im_start] + r + content, seq![t.im_end]);
        lemma_marks_concat(v, seq![t.im_start] + r, content);
        lemma_marks_concat(v, seq![t.im_start], r);
        assert(marks(v, turn) =~= seq![t.im_start] + marks(v, content) + seq![t.im_end]);
    }
}

/// Tags in a user's message stay text: the only tags in the turn are the two
/// round it.
pub proof fn law_message_stays_text(t: Tags, v: Vocab, message: Seq<char>)
    requires
        faithful(v),
        tags_of(v, t),
        user_turn(t, v, message) is Some,
    ensures
        marks(v, user_turn(t, v, message)->0) == seq![t.im_start, t.im_end],
{
    let content = encoded(v, message)->0;
    lemma_marks_encoded(v, message);
    lemma_marks_turn(t, v, "user"@, content);
    assert(seq![t.im_start] + marks(v, content) + seq![t.im_end] =~= seq![t.im_start, t.im_end]);
}

/// The tags round `n` results.
pub open spec fn response_marks(t: Tags, v: Vocab, n: nat) -> Seq<u32>
    decreases n,
{
    if n == 0 {
        Seq::empty()
    } else {
        response_marks(t, v, (n - 1) as nat) + marks(v, t.tool_response@) + marks(
            v,
            t.tool_response_end@,
        )
    }
}

/// The tags of results are those round each of them.
proof fn lemma_marks_responses(t: Tags, v: Vocab, outputs: Seq<Seq<char>>)
    requires
        faithful(v),
        tags_of(v, t),
    ensures
        responses(t, v, outputs) matches Some(content) ==> marks(v, content) == response_marks(
            t,
            v,
            outputs.len(),
        ),
    decreases outputs.len(),
{
    if outputs.len() > 0 {
        let some = outputs.drop_last();
        lemma_marks_responses(t, v, some);
        let text = "\n"@ + outputs.last() + "\n"@;
        lemma_marks_encoded(v, text);
        lemma_marks_encoded(v, "\n"@);
        if let Some(content) = responses(t, v, outputs) {
            let before = responses(t, v, some)->0;
            let body = encoded(v, text)->0;
            let n = encoded(v, "\n"@)->0;
            let (a, b) = (t.tool_response@, t.tool_response_end@);
            lemma_marks_concat(v, a + body, b);
            lemma_marks_concat(v, a, body);
            if outputs.len() == 1 {
                lemma_marks_concat(v, before, a + body + b);
            } else {
                lemma_marks_concat(v, before + n, a + body + b);
                lemma_marks_concat(v, before, n);
            }
            assert(marks(v, content) =~= response_marks(t, v, outputs.len()));
        }
    }
}

/// Tags in the results of tools stay text: the only tags in the turn are the
/// two round it and those round each result.
pub proof fn law_results_stay_text(t: Tags, v: Vocab, outputs: Seq<Seq<char>>)
    requires
        faithful(v),
        tags_of(v, t),
        results_turn(t, v, outputs) is Some,
    ensures
        marks(v, results_turn(t, v, outputs)->0) == seq![t.im_start] + response_marks(
            t,
            v,
            outputs.len(),
        ) + seq![t.im_end],
{
    let content = responses(t, v, outputs)->0;
    lemma_marks_responses(t, v, outputs);
    lemma_marks_turn(t, v, "user"@, content);
}

/// Tokens are read in batches of 64, but the last, which is what is left: one
/// behind another they are the tokens, and none is empty.
pub proof fn law_batches_are_the_tokens(tokens: Seq<u32>)
    ensures
        joined(batched(tokens)) == tokens,
        forall|i: int|
            0 <= i < batched(tokens).len() ==> 0 < (#[trigger] batched(tokens)[i]).len() <= 64,
        forall|i: int|
            0 <= i < batched(tokens).len() - 1 ==> (#[trigger] batched(tokens)[i]).len() == 64,
    decreases tokens.len(),
{
    if tokens.len() > 0 {
        let cut = (tokens.len() - 1) / BATCH as int * BATCH;
        let front = tokens.take(cut);
        let all = batched(tokens);
        law_batches_are_the_tokens(front);
        assert(all.drop_last() =~= batched(front));
        assert(front + tokens.skip(cut) =~= tokens);
        assert forall|i: int| 0 <= i < all.len() - 1 implies (#[trigger] all[i]).len() == 64 by {
            assert(all[i] == batched(front)[i]);
            if i == all.len() - 2 {
                lemma_last_batch(front);
            }
        }
        assert forall|i: int| 0 <= i < all.len() implies 0 < (#[trigger] all[i]).len() <= 64 by {
            if i < all.len() - 1 {
                assert(all[i] == batched(front)[i]);
            }
        }
    }
}

/// The last batch of as many tokens as fill batches is a whole one.
proof fn lemma_last_batch(tokens: Seq<u32>)
    requires
        tokens.len() > 0,
        tokens.len() % 64 == 0,
    ensures
        batched(tokens).len() > 0,
        batched(tokens).last().len() == 64,
{
}

/// Tokens of one kind, counted.
proof fn lemma_counted(kinds: Seq<Kind>, kind: Kind)
    ensures
        counted(kinds, kind) == kinds.filter(|k: Kind| k == kind).len(),
    decreases kinds.len(),
{
    reveal(Seq::filter);
    if kinds.len() > 0 {
        lemma_counted(kinds.drop_last(), kind);
    }
}

/// Tokens of either kind are all of them.
proof fn lemma_all_counted(kinds: Seq<Kind>)
    requires
        forall|i: int|
            0 <= i < kinds.len() ==> #[trigger] kinds[i] == Kind::Thought || kinds[i]
                == Kind::Answer,
    ensures
        counted(kinds, Kind::Thought) + counted(kinds, Kind::Answer) == kinds.len(),
    decreases kinds.len(),
{
    if kinds.len() > 0 {
        assert(kinds.last() == kinds[kinds.len() - 1]);
        lemma_all_counted(kinds.drop_last());
    }
}

/// Every token of a turn is counted once, as far as a machine can count: what
/// the model thought as thought, what it answered as answer, and the rest as
/// prompt, together as many as the model was fed.
pub proof fn law_tokens_are_counted<
    M: LanguageModel,
    S: Sample,
    F: FnMut(Chunk<'_>) -> ControlFlow<()>,
>(
    after: &Chat<M, S>,
    before: &Chat<M, S>,
    lead: Seq<Seq<u32>>,
    listener: F,
    picks: Seq<(u32, bool)>,
    calls: Seq<Seq<char>>,
)
    requires
        after.has_replied(before, lead, listener, picks, calls),
        before.stats.prompt.tokens + after.model.fed().len() <= usize::MAX,
        before.stats.thought.tokens + after.model.fed().len() <= usize::MAX,
        before.stats.answer.tokens + after.model.fed().len() <= usize::MAX,
    ensures
        ({
            let kinds = said(before.tags, before.vocab(), picks).kinds;
            let (a, b) = (before.stats, after.stats);
            &&& b.thought.tokens - a.thought.tokens == kinds.filter(
                |k: Kind| k == Kind::Thought,
            ).len()
            &&& b.answer.tokens - a.answer.tokens == kinds.filter(|k: Kind| k == Kind::Answer).len()
            &&& (b.prompt.tokens - a.prompt.tokens) + (b.thought.tokens - a.thought.tokens) + (
            b.answer.tokens - a.answer.tokens) == after.model.fed().len() - before.model.fed().len()
            &&& b.cached == a.cached
        }),
{
    let s = said(before.tags, before.vocab(), picks);
    lemma_counted(s.kinds, Kind::Thought);
    lemma_counted(s.kinds, Kind::Answer);
    lemma_fed_of_a_kind(before.tags, before.vocab(), picks);
    lemma_all_counted(s.kinds);
}

/// Each token that is fed is thought or answer.
proof fn lemma_fed_of_a_kind(t: Tags, v: Vocab, picks: Seq<(u32, bool)>)
    ensures
        said(t, v, picks).fed.len() == said(t, v, picks).kinds.len(),
        forall|i: int|
            0 <= i < said(t, v, picks).kinds.len() ==> #[trigger] said(t, v, picks).kinds[i]
                == Kind::Thought || said(t, v, picks).kinds[i] == Kind::Answer,
    decreases picks.len(),
{
    if picks.len() > 0 {
        lemma_fed_of_a_kind(t, v, picks.drop_last());
    }
}

} // verus!
