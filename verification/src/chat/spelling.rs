//! What the turns of a conversation spell out: the text of the chat format.
use vstd::prelude::*;
use vstd::utf8::encode_utf8;

use super::format::{
    closing, opening, plain_opening, reply_turn, response, responses, results_turn, tag_of, turn_of,
    unthought, user_turn, written_calls, Tags,
};
use super::talk::tags_of;
use crate::text::{concat, lemma_encode_concat};
use crate::tokenizer::coder::encoded;
use crate::tokenizer::laws::{carries, faithful, flat, law_words_survive};
use crate::tokenizer::vocab::Vocab;
use crate::tokenizer::words::{found, QWEN_PATTERN};

verus! {

/// Whether the words that text is split into are all of it, and the tokens of a
/// vocabulary are the bytes that they are written for.
pub open spec fn spells(v: Vocab) -> bool {
    &&& faithful(v)
    &&& carries(v)
    &&& forall|s: Seq<char>|
        (#[trigger] found(QWEN_PATTERN@, s)) matches Ok(words) ==> concat(words) == s
}

/// Whether tokens spell a text.
pub open spec fn spelling(v: Vocab, tokens: Seq<u32>, text: Seq<char>) -> bool {
    flat(v, tokens) == encode_utf8(text)
}

/// Texts with a line break between any two.
pub open spec fn by_lines(parts: Seq<Seq<char>>) -> Seq<char>
    decreases parts.len(),
{
    if parts.len() == 0 {
        Seq::empty()
    } else if parts.len() == 1 {
        parts[0]
    } else {
        by_lines(parts.drop_last()) + "\n"@ + parts.last()
    }
}

/// The bytes of two runs of tokens are those of one and the other.
proof fn lemma_flat(v: Vocab, a: Seq<u32>, b: Seq<u32>)
    ensures
        flat(v, a + b) == flat(v, a) + flat(v, b),
    decreases b.len(),
{
    if b.len() == 0 {
        assert(a + b =~= a);
        assert(flat(v, a) + flat(v, b) =~= flat(v, a));
    } else {
        lemma_flat(v, a, b.drop_last());
        assert((a + b).drop_last() =~= a + b.drop_last());
        assert(flat(v, a + b) =~= flat(v, a) + flat(v, b));
    }
}

/// What two runs of tokens spell.
proof fn lemma_spelling(v: Vocab, a: Seq<u32>, b: Seq<u32>, s: Seq<char>, t: Seq<char>)
    requires
        spelling(v, a, s),
        spelling(v, b, t),
    ensures
        spelling(v, a + b, s + t),
{
    lemma_flat(v, a, b);
    lemma_encode_concat(s, t);
}

/// What text is encoded as spells it.
proof fn lemma_encoded(v: Vocab, s: Seq<char>)
    requires
        spells(v),
    ensures
        encoded(v, s) matches Some(tokens) ==> spelling(v, tokens, s),
{
    if let Ok(words) = found(QWEN_PATTERN@, s) {
        law_words_survive(v, words);
    }
}

/// What a special token spells.
proof fn lemma_special(v: Vocab, c: Seq<char>)
    requires
        carries(v),
        v.special.contains_key(c),
    ensures
        spelling(v, seq![v.special[c]], c),
{
    reveal_with_fuel(flat, 2);
    let id = v.special[c];
    assert(seq![id].drop_last() =~= Seq::empty());
    assert(flat(v, seq![id]) =~= v.tokens[id as int]);
}

/// What a tag spells.
proof fn lemma_tag(v: Vocab, c: Seq<char>)
    requires
        spells(v),
    ensures
        tag_of(v, c) matches Some(tokens) ==> spelling(v, tokens, c),
{
    if v.special.contains_key(c) {
        lemma_special(v, c);
    } else {
        lemma_encoded(v, c);
    }
}

/// A turn spells its role behind a tag and a line break, its content, and a tag
/// and a line break.
pub proof fn law_turn_spells_its_frame(
    t: Tags,
    v: Vocab,
    role: Seq<char>,
    content: Seq<u32>,
    text: Seq<char>,
)
    requires
        spells(v),
        tags_of(v, t),
        spelling(v, content, text),
        turn_of(t, v, role, content) is Some,
    ensures
        spelling(
            v,
            turn_of(t, v, role, content)->0,
            "<|im_start|>"@ + (role + "\n"@) + text + "<|im_end|>"@ + "\n"@,
        ),
{
    let r = encoded(v, role + "\n"@)->0;
    let n = encoded(v, "\n"@)->0;
    let (a, b) = (seq![t.im_start], seq![t.im_end]);
    lemma_special(v, "<|im_start|>"@);
    lemma_special(v, "<|im_end|>"@);
    lemma_encoded(v, role + "\n"@);
    lemma_encoded(v, "\n"@);
    let (x, y) = ("<|im_start|>"@, "<|im_end|>"@);
    lemma_spelling(v, a, r, x, role + "\n"@);
    lemma_spelling(v, a + r, content, x + (role + "\n"@), text);
    lemma_spelling(v, a + r + content, b, x + (role + "\n"@) + text, y);
    lemma_spelling(v, a + r + content + b, n, x + (role + "\n"@) + text + y, "\n"@);
}

/// A message from the user spells `<|im_start|>user`, the message from the next
/// line on as it is, `<|im_end|>`, and a line break.
pub proof fn law_message_is_spelled(t: Tags, v: Vocab, message: Seq<char>)
    requires
        spells(v),
        tags_of(v, t),
        user_turn(t, v, message) is Some,
    ensures
        spelling(
            v,
            user_turn(t, v, message)->0,
            "<|im_start|>user\n"@ + message + "<|im_end|>\n"@,
        ),
{
    lemma_encoded(v, message);
    law_turn_spells_its_frame(t, v, "user"@, encoded(v, message)->0, message);
    reveal_strlit("<|im_start|>");
    reveal_strlit("user");
    reveal_strlit("\n");
    reveal_strlit("<|im_end|>");
    reveal_strlit("<|im_start|>user\n");
    reveal_strlit("<|im_end|>\n");
    assert("<|im_start|>"@ + ("user"@ + "\n"@) + message + "<|im_end|>"@ + "\n"@
        =~= "<|im_start|>user\n"@ + message + "<|im_end|>\n"@);
}

/// A tool's output in its tags, on lines of its own.
pub open spec fn boxed(output: Seq<char>) -> Seq<char> {
    "<tool_response>"@ + ("\n"@ + output + "\n"@) + "</tool_response>"@
}

/// What results spell.
proof fn lemma_responses(t: Tags, v: Vocab, outputs: Seq<Seq<char>>)
    requires
        spells(v),
        tags_of(v, t),
    ensures
        responses(t, v, outputs) matches Some(content) ==> spelling(
            v,
            content,
            by_lines(Seq::new(outputs.len(), |i: int| boxed(outputs[i]))),
        ),
    decreases outputs.len(),
{
    let parts = Seq::new(outputs.len(), |i: int| boxed(outputs[i]));
    if outputs.len() == 0 {
        assert(flat(v, Seq::<u32>::empty()) =~= encode_utf8(by_lines(parts)));
    } else if let Some(content) = responses(t, v, outputs) {
        let some = outputs.drop_last();
        lemma_responses(t, v, some);
        assert(parts.drop_last() =~= Seq::new(some.len(), |i: int| boxed(some[i])));
        let before = responses(t, v, some)->0;
        let text = "\n"@ + outputs.last() + "\n"@;
        let body = encoded(v, text)->0;
        lemma_encoded(v, text);
        lemma_encoded(v, "\n"@);
        lemma_tag(v, "<tool_response>"@);
        lemma_tag(v, "</tool_response>"@);
        let (a, b) = (t.tool_response@, t.tool_response_end@);
        lemma_spelling(v, a, body, "<tool_response>"@, text);
        lemma_spelling(v, a + body, b, "<tool_response>"@ + text, "</tool_response>"@);
        assert(parts.last() == boxed(outputs.last()));
        if outputs.len() == 1 {
            assert(some =~= Seq::empty());
            assert(before + response(t, body) =~= response(t, body));
        } else {
            let n = encoded(v, "\n"@)->0;
            let first = by_lines(parts.drop_last());
            lemma_spelling(v, before, n, first, "\n"@);
            lemma_spelling(v, before + n, response(t, body), first + "\n"@, boxed(outputs.last()));
        }
    }
}

/// The results of tools spell a turn of the user, in which each stands in its
/// tags on lines of its own, as it is, in order.
pub proof fn law_results_are_spelled(t: Tags, v: Vocab, outputs: Seq<Seq<char>>)
    requires
        spells(v),
        tags_of(v, t),
        results_turn(t, v, outputs) is Some,
    ensures
        spelling(
            v,
            results_turn(t, v, outputs)->0,
            "<|im_start|>user\n"@ + by_lines(Seq::new(outputs.len(), |i: int| boxed(outputs[i])))
                + "<|im_end|>\n"@,
        ),
{
    let text = by_lines(Seq::new(outputs.len(), |i: int| boxed(outputs[i])));
    lemma_responses(t, v, outputs);
    law_turn_spells_its_frame(t, v, "user"@, responses(t, v, outputs)->0, text);
    reveal_strlit("<|im_start|>");
    reveal_strlit("user");
    reveal_strlit("\n");
    reveal_strlit("<|im_end|>");
    reveal_strlit("<|im_start|>user\n");
    reveal_strlit("<|im_end|>\n");
    assert("<|im_start|>"@ + ("user"@ + "\n"@) + text + "<|im_end|>"@ + "\n"@
        =~= "<|im_start|>user\n"@ + text + "<|im_end|>\n"@);
}

/// A call in its tags.
pub open spec fn tagged(call: Seq<char>) -> Seq<char> {
    "<tool_call>"@ + call + "</tool_call>"@
}

/// What calls spell.
proof fn lemma_calls(t: Tags, v: Vocab, calls: Seq<Seq<char>>)
    requires
        spells(v),
        tags_of(v, t),
    ensures
        written_calls(t, v, calls) matches Some(made) ==> spelling(
            v,
            made,
            by_lines(Seq::new(calls.len(), |i: int| tagged(calls[i]))),
        ),
    decreases calls.len(),
{
    let parts = Seq::new(calls.len(), |i: int| tagged(calls[i]));
    if calls.len() == 0 {
        assert(flat(v, Seq::<u32>::empty()) =~= encode_utf8(by_lines(parts)));
    } else if let Some(made) = written_calls(t, v, calls) {
        let some = calls.drop_last();
        lemma_calls(t, v, some);
        assert(parts.drop_last() =~= Seq::new(some.len(), |i: int| tagged(some[i])));
        let before = written_calls(t, v, some)->0;
        let body = encoded(v, calls.last())->0;
        lemma_encoded(v, calls.last());
        lemma_encoded(v, "\n"@);
        lemma_special(v, "<tool_call>"@);
        lemma_special(v, "</tool_call>"@);
        let (a, b) = (seq![t.tool_call], seq![t.tool_call_end]);
        lemma_spelling(v, a, body, "<tool_call>"@, calls.last());
        lemma_spelling(v, a + body, b, "<tool_call>"@ + calls.last(), "</tool_call>"@);
        assert(parts.last() == tagged(calls.last()));
        if calls.len() == 1 {
            assert(some =~= Seq::empty());
            assert(before + (a + body + b) =~= a + body + b);
        } else {
            let n = encoded(v, "\n"@)->0;
            let first = by_lines(parts.drop_last());
            lemma_spelling(v, before, n, first, "\n"@);
            lemma_spelling(v, before + n, a + body + b, first + "\n"@, tagged(calls.last()));
        }
    }
}

/// A reply already made spells a turn of the assistant: an empty thought, the
/// text as it is, and the calls in their tags, in order.
pub proof fn law_reply_is_spelled(t: Tags, v: Vocab, text: Seq<char>, calls: Seq<Seq<char>>)
    requires
        spells(v),
        tags_of(v, t),
        reply_turn(t, v, text, calls) is Some,
    ensures
        spelling(
            v,
            reply_turn(t, v, text, calls)->0,
            "<|im_start|>assistant\n<think>\n\n</think>\n\n"@ + text + by_lines(
                Seq::new(calls.len(), |i: int| tagged(calls[i])),
            ) + "<|im_end|>\n"@,
        ),
{
    let gap = encoded(v, "\n\n"@)->0;
    let body = encoded(v, "\n\n"@ + text)->0;
    let made = written_calls(t, v, calls)->0;
    let tail = by_lines(Seq::new(calls.len(), |i: int| tagged(calls[i])));
    lemma_encoded(v, "\n\n"@);
    lemma_encoded(v, "\n\n"@ + text);
    lemma_special(v, "<think>"@);
    lemma_special(v, "</think>"@);
    lemma_calls(t, v, calls);
    let (a, b) = (seq![t.think], seq![t.think_end]);
    let s = "<think>"@ + "\n\n"@ + "</think>"@ + ("\n\n"@ + text);
    lemma_spelling(v, a, gap, "<think>"@, "\n\n"@);
    lemma_spelling(v, a + gap, b, "<think>"@ + "\n\n"@, "</think>"@);
    lemma_spelling(v, a + gap + b, body, "<think>"@ + "\n\n"@ + "</think>"@, "\n\n"@ + text);
    lemma_spelling(v, unthought(t, gap, body), made, s, tail);
    law_turn_spells_its_frame(t, v, "assistant"@, unthought(t, gap, body) + made, s + tail);
    reveal_strlit("<|im_start|>");
    reveal_strlit("assistant");
    reveal_strlit("\n");
    reveal_strlit("\n\n");
    reveal_strlit("<think>");
    reveal_strlit("</think>");
    reveal_strlit("<|im_end|>");
    reveal_strlit("<|im_start|>assistant\n<think>\n\n</think>\n\n");
    reveal_strlit("<|im_end|>\n");
    assert("<|im_start|>"@ + ("assistant"@ + "\n"@) + s
        =~= "<|im_start|>assistant\n<think>\n\n</think>\n\n"@ + text);
    assert("<|im_start|>"@ + ("assistant"@ + "\n"@) + (s + tail) =~= "<|im_start|>"@ + ("assistant"@
        + "\n"@) + s + tail);
    let lead = "<|im_start|>assistant\n<think>\n\n</think>\n\n"@ + text + tail;
    assert(lead + "<|im_end|>"@ + "\n"@ =~= lead + "<|im_end|>\n"@);
}

/// A reply is opened with the thought open, or with an empty one.
pub proof fn law_openings_are_spelled(t: Tags, v: Vocab)
    requires
        spells(v),
        tags_of(v, t),
    ensures
        opening(t, v) matches Some(open) ==> spelling(v, open, "<|im_start|>assistant\n<think>\n"@),
        plain_opening(t, v) matches Some(open) ==> spelling(
            v,
            open,
            "<|im_start|>assistant\n<think>\n\n</think>\n\n"@,
        ),
{
    let role = encoded(v, "assistant\n"@)->0;
    let line = encoded(v, "\n"@)->0;
    let gap = encoded(v, "\n\n"@)->0;
    lemma_encoded(v, "assistant\n"@);
    lemma_encoded(v, "\n"@);
    lemma_encoded(v, "\n\n"@);
    lemma_special(v, "<|im_start|>"@);
    lemma_special(v, "<think>"@);
    lemma_special(v, "</think>"@);
    let (a, b, c) = (seq![t.im_start], seq![t.think], seq![t.think_end]);
    let x = "<|im_start|>"@ + "assistant\n"@;
    reveal_strlit("<|im_start|>");
    reveal_strlit("assistant\n");
    reveal_strlit("\n");
    reveal_strlit("\n\n");
    reveal_strlit("<think>");
    reveal_strlit("</think>");
    reveal_strlit("<|im_start|>assistant\n<think>\n");
    reveal_strlit("<|im_start|>assistant\n<think>\n\n</think>\n\n");
    if encoded(v, "assistant\n"@) is Some {
        lemma_spelling(v, a, role, "<|im_start|>"@, "assistant\n"@);
        if encoded(v, "\n"@) is Some {
            lemma_spelling(v, a + role, b, x, "<think>"@);
            lemma_spelling(v, a + role + b, line, x + "<think>"@, "\n"@);
            assert(x + "<think>"@ + "\n"@ =~= "<|im_start|>assistant\n<think>\n"@);
        }
        if encoded(v, "\n\n"@) is Some {
            let y = "<think>"@ + "\n\n"@ + "</think>"@ + "\n\n"@;
            lemma_spelling(v, b, gap, "<think>"@, "\n\n"@);
            lemma_spelling(v, b + gap, c, "<think>"@ + "\n\n"@, "</think>"@);
            lemma_spelling(v, b + gap + c, gap, "<think>"@ + "\n\n"@ + "</think>"@, "\n\n"@);
            lemma_spelling(v, a + role, unthought(t, gap, gap), x, y);
            assert(x + y =~= "<|im_start|>assistant\n<think>\n\n</think>\n\n"@);
        }
    }
}

/// A reply is ended with the end of its turn, and its thought closed before
/// where it is open.
pub proof fn law_closings_are_spelled(t: Tags, v: Vocab, line: Seq<u32>, gap: Seq<u32>)
    requires
        spells(v),
        tags_of(v, t),
        encoded(v, "\n"@) == Some(line),
        encoded(v, "\n\n"@) == Some(gap),
    ensures
        spelling(v, closing(t, line, gap, false), "<|im_end|>\n"@),
        spelling(v, closing(t, line, gap, true), "\n</think>\n\n<|im_end|>\n"@),
{
    lemma_encoded(v, "\n"@);
    lemma_encoded(v, "\n\n"@);
    lemma_special(v, "<|im_end|>"@);
    lemma_special(v, "</think>"@);
    let (a, b) = (seq![t.think_end], seq![t.im_end]);
    reveal_strlit("\n");
    reveal_strlit("\n\n");
    reveal_strlit("</think>");
    reveal_strlit("<|im_end|>");
    reveal_strlit("<|im_end|>\n");
    reveal_strlit("\n</think>\n\n<|im_end|>\n");
    lemma_spelling(v, b, line, "<|im_end|>"@, "\n"@);
    assert("<|im_end|>"@ + "\n"@ =~= "<|im_end|>\n"@);
    assert(closing(t, line, gap, false) =~= b + line);
    let x = "\n"@ + "</think>"@ + "\n\n"@;
    lemma_spelling(v, line, a, "\n"@, "</think>"@);
    lemma_spelling(v, line + a, gap, "\n"@ + "</think>"@, "\n\n"@);
    lemma_spelling(v, line + a + gap, b, x, "<|im_end|>"@);
    lemma_spelling(v, line + a + gap + b, line, x + "<|im_end|>"@, "\n"@);
    assert(x + "<|im_end|>"@ + "\n"@ =~= "\n</think>\n\n<|im_end|>\n"@);
}

} // verus!
