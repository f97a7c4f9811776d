//! What the chat writes is within the vocabulary.
use vstd::prelude::*;

use super::format::{
    closing, opening, plain_opening, reply_turn, responses, results_turn, transcript, turn_of,
    unthought, user_turn, written_calls, Tags, Turn,
};
use super::talk::tags_of;
use crate::text::texts;
use crate::tokenizer::coder::encoded;
use crate::tokenizer::laws::{law_words_within, valid, within};
use crate::tokenizer::vocab::Vocab;
use crate::tokenizer::words::{found, QWEN_PATTERN};

verus! {

/// Whether all tags are tokens of a vocabulary.
pub open spec fn tags_within(t: Tags, n: nat) -> bool {
    &&& t.im_start < n
    &&& t.im_end < n
    &&& t.end_of_text < n
    &&& t.think < n
    &&& t.think_end < n
    &&& t.tool_call < n
    &&& t.tool_call_end < n
    &&& within(t.tool_response@, n)
    &&& within(t.tool_response_end@, n)
}

/// Text is encoded into tokens of the vocabulary.
pub proof fn lemma_encoded_within(v: Vocab, text: Seq<char>)
    requires
        valid(v),
    ensures
        encoded(v, text) matches Some(tokens) ==> within(tokens, v.tokens.len()),
{
    match found(QWEN_PATTERN@, text) {
        Ok(words) => {
            law_words_within(v, words);
        },
        Err(_) => {},
    }
}

/// The tags of a vocabulary are tokens of it.
pub proof fn lemma_tags_within(v: Vocab, t: Tags)
    requires
        valid(v),
        tags_of(v, t),
    ensures
        tags_within(t, v.tokens.len()),
{
    lemma_encoded_within(v, "<tool_response>"@);
    lemma_encoded_within(v, "</tool_response>"@);
}

/// A turn is within the vocabulary where its content is.
pub proof fn lemma_turn_within(t: Tags, v: Vocab, role: Seq<char>, content: Seq<u32>)
    requires
        valid(v),
        tags_of(v, t),
        within(content, v.tokens.len()),
    ensures
        turn_of(t, v, role, content) matches Some(turn) ==> within(turn, v.tokens.len())
            && turn.len() > 0,
{
    lemma_tags_within(v, t);
    lemma_encoded_within(v, role + "\n"@);
    lemma_encoded_within(v, "\n"@);
}

/// A user's turn is within the vocabulary.
pub proof fn lemma_user_within(t: Tags, v: Vocab, message: Seq<char>)
    requires
        valid(v),
        tags_of(v, t),
    ensures
        user_turn(t, v, message) matches Some(turn) ==> within(turn, v.tokens.len()) && turn.len()
            > 0,
{
    lemma_encoded_within(v, message);
    if let Some(content) = encoded(v, message) {
        lemma_turn_within(t, v, "user"@, content);
    }
}

/// Results are within the vocabulary.
proof fn lemma_responses_within(t: Tags, v: Vocab, outputs: Seq<Seq<char>>)
    requires
        valid(v),
        tags_of(v, t),
    ensures
        responses(t, v, outputs) matches Some(content) ==> within(content, v.tokens.len()),
    decreases outputs.len(),
{
    if outputs.len() > 0 {
        lemma_responses_within(t, v, outputs.drop_last());
        lemma_tags_within(v, t);
        lemma_encoded_within(v, "\n"@);
        lemma_encoded_within(v, "\n"@ + outputs.last() + "\n"@);
    }
}

/// A turn of results is within the vocabulary.
pub proof fn lemma_results_within(t: Tags, v: Vocab, outputs: Seq<Seq<char>>)
    requires
        valid(v),
        tags_of(v, t),
    ensures
        results_turn(t, v, outputs) matches Some(turn) ==> within(turn, v.tokens.len())
            && turn.len() > 0,
{
    lemma_responses_within(t, v, outputs);
    if let Some(content) = responses(t, v, outputs) {
        lemma_turn_within(t, v, "user"@, content);
    }
}

/// Calls are within the vocabulary.
proof fn lemma_calls_within(t: Tags, v: Vocab, calls: Seq<Seq<char>>)
    requires
        valid(v),
        tags_of(v, t),
    ensures
        written_calls(t, v, calls) matches Some(content) ==> within(content, v.tokens.len()),
    decreases calls.len(),
{
    if calls.len() > 0 {
        lemma_calls_within(t, v, calls.drop_last());
        lemma_tags_within(v, t);
        lemma_encoded_within(v, "\n"@);
        lemma_encoded_within(v, calls.last());
    }
}

/// A turn of a reply is within the vocabulary.
proof fn lemma_reply_within(t: Tags, v: Vocab, text: Seq<char>, calls: Seq<Seq<char>>)
    requires
        valid(v),
        tags_of(v, t),
    ensures
        reply_turn(t, v, text, calls) matches Some(turn) ==> within(turn, v.tokens.len()),
{
    lemma_tags_within(v, t);
    lemma_calls_within(t, v, calls);
    lemma_encoded_within(v, "\n\n"@);
    lemma_encoded_within(v, "\n\n"@ + text);
    if reply_turn(t, v, text, calls) is Some {
        let gap = encoded(v, "\n\n"@)->0;
        let body = encoded(v, "\n\n"@ + text)->0;
        let made = written_calls(t, v, calls)->0;
        lemma_turn_within(t, v, "assistant"@, unthought(t, gap, body) + made);
    }
}

/// A transcript is within the vocabulary.
pub proof fn lemma_transcript_within(t: Tags, v: Vocab, turns: Seq<Turn>)
    requires
        valid(v),
        tags_of(v, t),
    ensures
        transcript(t, v, turns) matches Some(tokens) ==> within(tokens, v.tokens.len()),
    decreases turns.len(),
{
    if turns.len() > 0 {
        lemma_transcript_within(t, v, turns.drop_last());
        match turns.last() {
            Turn::User(message) => {
                lemma_user_within(t, v, message@);
            },
            Turn::Reply { text, calls } => {
                lemma_reply_within(t, v, text@, texts(calls@));
            },
            Turn::Results(outputs) => {
                lemma_results_within(t, v, texts(outputs@));
            },
        }
    }
}

/// The opening of a reply is within the vocabulary.
pub proof fn lemma_opening_within(t: Tags, v: Vocab)
    requires
        valid(v),
        tags_of(v, t),
    ensures
        opening(t, v) matches Some(tokens) ==> within(tokens, v.tokens.len()) && tokens.len() > 0,
{
    lemma_tags_within(v, t);
    lemma_encoded_within(v, "assistant\n"@);
    lemma_encoded_within(v, "\n"@);
}

/// The opening of a reply without a thought is within the vocabulary.
pub proof fn lemma_plain_opening_within(t: Tags, v: Vocab)
    requires
        valid(v),
        tags_of(v, t),
    ensures
        plain_opening(t, v) matches Some(tokens) ==> within(tokens, v.tokens.len())
            && tokens.len() > 0,
{
    lemma_tags_within(v, t);
    lemma_encoded_within(v, "assistant\n"@);
    lemma_encoded_within(v, "\n\n"@);
}

/// The closing of a reply is within the vocabulary.
pub proof fn lemma_closing_within(t: Tags, v: Vocab, line: Seq<u32>, gap: Seq<u32>, thinking: bool)
    requires
        valid(v),
        tags_of(v, t),
        within(line, v.tokens.len()),
        within(gap, v.tokens.len()),
    ensures
        within(closing(t, line, gap, thinking), v.tokens.len()),
        closing(t, line, gap, thinking).len() == if thinking {
            2 * line.len() + gap.len() + 2
        } else {
            line.len() + 1
        },
{
    lemma_tags_within(v, t);
}

} // verus!
