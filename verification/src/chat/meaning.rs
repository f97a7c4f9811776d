//! What a reply comes to: what is shown of it, and what it calls.
use vstd::prelude::*;
use vstd::utf8::{encode_utf8, encode_utf8_decode_utf8, encode_utf8_valid_utf8, valid_utf8};

use super::format::Tags;
use super::generate::answered;
use super::reply::{masked, proper, said, step, Kind, Move, Part, Said};
use super::stream::{law_text_goes_through, pushed};
use crate::text::{blank, lemma_encode_concat, space};
use crate::tokenizer::laws::flat;
use crate::tokenizer::vocab::Vocab;

verus! {

/// Whether something of a reply has been shown that is not white space.
pub open spec fn visible(shown: Seq<Part>) -> bool {
    exists|i: int|
        0 <= i < shown.len() && match #[trigger] shown[i] {
            Part::Text(s) => exists|j: int| 0 <= j < s.len() && !space(#[trigger] s[j]),
            Part::Thought(_) => false,
        }
}

/// Whether a tool has been called, outside of a thought.
pub open spec fn calling(t: Tags, fed: Seq<u32>, kinds: Seq<Kind>) -> bool {
    exists|i: int|
        0 <= i < fed.len() && i < kinds.len() && #[trigger] fed[i] == t.tool_call && kinds[i]
            == Kind::Answer
}

/// Whether a reply has anything to it: text that can be seen, or a call.
pub open spec fn given(t: Tags, s: Said) -> bool {
    visible(s.shown) || calling(t, s.fed, s.kinds)
}

/// Whether the tag of a call is none of the tags that are about a thought.
pub open spec fn tags_apart(t: Tags) -> bool {
    t.tool_call != t.think && t.tool_call != t.think_end
}

/// What was shown stays shown.
proof fn lemma_visible(shown: Seq<Part>, p: Part)
    ensures
        visible(shown) ==> visible(shown.push(p)),
        p matches Part::Text(s) && !blank(s) ==> visible(shown.push(p)),
        visible(shown.push(p)) ==> visible(shown) || (p matches Part::Text(s) && !blank(s)),
{
    let all = shown.push(p);
    if visible(shown) {
        let i = choose|i: int|
            0 <= i < shown.len() && match #[trigger] shown[i] {
                Part::Text(s) => exists|j: int| 0 <= j < s.len() && !space(#[trigger] s[j]),
                Part::Thought(_) => false,
            };
        assert(all[i] == shown[i]);
    }
    if let Part::Text(s) = p {
        if !blank(s) {
            assert(all[shown.len() as int] == p);
        }
    }
    if visible(all) {
        let i = choose|i: int|
            0 <= i < all.len() && match #[trigger] all[i] {
                Part::Text(s) => exists|j: int| 0 <= j < s.len() && !space(#[trigger] s[j]),
                Part::Thought(_) => false,
            };
        if i < shown.len() {
            assert(all[i] == shown[i]);
        }
    }
}

/// What was called stays called.
proof fn lemma_calling(t: Tags, fed: Seq<u32>, kinds: Seq<Kind>, token: u32, kind: Kind)
    requires
        fed.len() == kinds.len(),
    ensures
        calling(t, fed.push(token), kinds.push(kind)) <==> calling(t, fed, kinds) || (token
            == t.tool_call && kind == Kind::Answer),
{
    let (a, b) = (fed.push(token), kinds.push(kind));
    if calling(t, fed, kinds) {
        let i = choose|i: int|
            0 <= i < fed.len() && i < kinds.len() && #[trigger] fed[i] == t.tool_call && kinds[i]
                == Kind::Answer;
        assert(a[i] == fed[i] && b[i] == kinds[i]);
    }
    if token == t.tool_call && kind == Kind::Answer {
        assert(a[fed.len() as int] == token && b[fed.len() as int] == kind);
    }
    if calling(t, a, b) {
        let i = choose|i: int|
            0 <= i < a.len() && i < b.len() && #[trigger] a[i] == t.tool_call && b[i] == Kind::Answer;
        if i < fed.len() {
            assert(a[i] == fed[i] && b[i] == kinds[i]);
        }
    }
}

/// A reply counts as one once there is anything to it.
proof fn lemma_given(t: Tags, v: Vocab, picks: Seq<(u32, bool)>)
    ensures
        said(t, v, picks).fed.len() == said(t, v, picks).kinds.len(),
        said(t, v, picks).talk.replied ==> given(t, said(t, v, picks)),
        tags_apart(t) && given(t, said(t, v, picks)) ==> said(t, v, picks).talk.replied,
        said(t, v, picks).stopped ==> said(t, v, picks).talk.replied,
    decreases picks.len(),
{
    let now = said(t, v, picks);
    if picks.len() > 0 {
        let s = said(t, v, picks.drop_last());
        lemma_given(t, v, picks.drop_last());
        let (token, broke) = picks.last();
        let (talk, m) = step(t, s.talk, token, v.tokens[token as int]);
        match m {
            Move::Feed(fed, kind, part) => {
                lemma_calling(t, s.fed, s.kinds, fed, kind);
                if let Some(p) = part {
                    lemma_visible(s.shown, p);
                    let text = pushed(s.talk.pending, v.tokens[token as int]).0;
                    assert(p == Part::Text(text) || p == Part::Thought(text));
                }
            },
            _ => {},
        }
    } else {
        assert(!given(t, now));
    }
}

/// A reply that ends by itself has something to it: it has shown text that is
/// not white space, or called a tool outside of a thought.
pub proof fn law_no_empty_reply(t: Tags, v: Vocab, picks: Seq<(u32, bool)>)
    requires
        said(t, v, picks).stopped,
    ensures
        visible(said(t, v, picks).shown) || calling(
            t,
            said(t, v, picks).fed,
            said(t, v, picks).kinds,
        ),
{
    lemma_given(t, v, picks);
}

/// A reply that has something to it ends where the model ends it, outside of a
/// thought; nothing more of it is fed or shown.
pub proof fn law_reply_ends(t: Tags, v: Vocab, picks: Seq<(u32, bool)>, token: u32, broke: bool)
    requires
        tags_apart(t),
        given(t, said(t, v, picks)),
        !said(t, v, picks).talk.thinking,
        token == t.im_end || token == t.end_of_text,
    ensures
        ({
            let s = said(t, v, picks);
            let now = said(t, v, picks.push((token, broke)));
            &&& now.stopped
            &&& now.fed == s.fed
            &&& now.shown == s.shown
            &&& now.talk.calls == s.talk.calls
        }),
{
    lemma_given(t, v, picks);
    assert(picks.push((token, broke)).drop_last() =~= picks);
}

/// A model that would end its reply within its thought has the thought closed
/// for it, and goes on.
pub proof fn law_thought_is_closed(
    t: Tags,
    v: Vocab,
    picks: Seq<(u32, bool)>,
    token: u32,
    broke: bool,
)
    requires
        said(t, v, picks).talk.thinking,
        token == t.im_end || token == t.end_of_text,
    ensures
        ({
            let s = said(t, v, picks);
            let now = said(t, v, picks.push((token, broke)));
            &&& now.stopped == s.stopped
            &&& !now.talk.thinking
            &&& now.fed == s.fed.push(t.think_end)
            &&& now.shown == s.shown
            &&& now.talk.calls == s.talk.calls
        }),
{
    assert(picks.push((token, broke)).drop_last() =~= picks);
}

/// A model that has to answer still has to, whatever it says next.
proof fn lemma_answering(t: Tags, v: Vocab, picks: Seq<(u32, bool)>, more: Seq<(u32, bool)>)
    requires
        said(t, v, picks).talk.answering,
    ensures
        said(t, v, picks + more).talk.answering,
    decreases more.len(),
{
    if more.len() == 0 {
        assert(picks + more =~= picks);
    } else {
        assert((picks + more).drop_last() =~= picks + more.drop_last());
        lemma_answering(t, v, picks, more.drop_last());
    }
}

/// A model that would end its reply, outside of a thought, with nothing to it,
/// is made to answer: the reply goes on, and as long as there is nothing to
/// it, whatever else the model says, it can neither end it nor call a tool.
pub proof fn law_made_to_answer(
    t: Tags,
    v: Vocab,
    picks: Seq<(u32, bool)>,
    end: (u32, bool),
    more: Seq<(u32, bool)>,
    next: (u32, bool),
)
    requires
        !said(t, v, picks).talk.thinking,
        end.0 == t.im_end || end.0 == t.end_of_text,
        !given(t, said(t, v, picks.push(end) + more)),
        proper(t, v, (picks.push(end) + more).push(next)),
    ensures
        !said(t, v, picks.push(end) + more).stopped,
        next.0 != t.im_end,
        next.0 != t.end_of_text,
        next.0 != t.tool_call,
{
    let first = picks.push(end);
    let all = first + more;
    assert(first.drop_last() =~= picks);
    assert(all.push(next).drop_last() =~= all);
    lemma_given(t, v, all);
    lemma_given(t, v, picks);
    lemma_given(t, v, first);
    if said(t, v, picks).talk.replied {
        lemma_replied(t, v, picks, seq![end] + more);
        assert(picks + (seq![end] + more) =~= all);
    }
    lemma_answering(t, v, first, more);
    let m = masked(t, said(t, v, all).talk);
    assert(m[0] == t.im_end && m[1] == t.end_of_text && m[2] == t.tool_call);
}

/// What counts as a reply goes on to.
proof fn lemma_replied(t: Tags, v: Vocab, picks: Seq<(u32, bool)>, more: Seq<(u32, bool)>)
    requires
        said(t, v, picks).talk.replied,
    ensures
        said(t, v, picks + more).talk.replied,
    decreases more.len(),
{
    if more.len() == 0 {
        assert(picks + more =~= picks);
    } else {
        assert((picks + more).drop_last() =~= picks + more.drop_last());
        lemma_replied(t, v, picks, more.drop_last());
    }
}

/// Whether a token is one of the tags that mean something in a reply.
pub open spec fn is_tag(t: Tags, token: u32) -> bool {
    ||| token == t.im_end
    ||| token == t.end_of_text
    ||| token == t.think
    ||| token == t.think_end
    ||| token == t.tool_call
    ||| token == t.tool_call_end
}

/// Tokens picked, with nothing broken off.
pub open spec fn picked_all(tokens: Seq<u32>) -> Seq<(u32, bool)> {
    tokens.map_values(|token: u32| (token, false))
}

/// What parts say, in a row.
pub open spec fn words(parts: Seq<Part>) -> Seq<char>
    decreases parts.len(),
{
    if parts.len() == 0 {
        Seq::empty()
    } else {
        words(parts.drop_last()) + match parts.last() {
            Part::Thought(s) => s,
            Part::Text(s) => s,
        }
    }
}

/// Whether parts are all of a thought, or all of the reply itself.
pub open spec fn all_of(parts: Seq<Part>, thought: bool) -> bool {
    forall|i: int| 0 <= i < parts.len() ==> (#[trigger] parts[i] is Thought) == thought
}

/// Whether between two points of a reply nothing was said but some words: they
/// are in the call that is being written, if there is one, and shown as what
/// they are else.
pub open spec fn only_said(s: Said, now: Said, tokens: Seq<u32>, e: Seq<char>) -> bool {
    let n = s.shown.len() as int;
    &&& now.fed == s.fed + tokens
    &&& now.kinds.len() == s.kinds.len() + tokens.len()
    &&& now.kinds.take(s.kinds.len() as int) == s.kinds
    &&& forall|i: int|
        s.kinds.len() <= i < now.kinds.len() ==> #[trigger] now.kinds[i] == if s.talk.thinking {
            Kind::Thought
        } else {
            Kind::Answer
        }
    &&& now.stopped == s.stopped
    &&& now.broken == s.broken
    &&& now.talk.thinking == s.talk.thinking
    &&& now.talk.calls == s.talk.calls
    &&& n <= now.shown.len()
    &&& now.shown.take(n) == s.shown
    &&& match s.talk.call {
        Some(call) => now.talk.call == Some(call + e) && now.shown == s.shown,
        None => {
            &&& now.talk.call is None
            &&& all_of(now.shown.skip(n), s.talk.thinking)
            &&& words(now.shown.skip(n)) == e
        },
    }
}

/// Whether one token more has some words more to it.
spec fn one_more(mid: Said, now: Said, token: u32, text: Seq<char>) -> bool {
    &&& now.fed == mid.fed.push(token)
    &&& now.kinds == mid.kinds.push(
        if mid.talk.thinking {
            Kind::Thought
        } else {
            Kind::Answer
        },
    )
    &&& now.stopped == mid.stopped
    &&& now.broken == mid.broken
    &&& now.talk.thinking == mid.talk.thinking
    &&& now.talk.calls == mid.talk.calls
    &&& match mid.talk.call {
        Some(call) => now.talk.call == Some(call + text) && now.shown == mid.shown,
        None => {
            &&& now.talk.call is None
            &&& now.shown == if text.len() == 0 {
                mid.shown
            } else if mid.talk.thinking {
                mid.shown.push(Part::Thought(text))
            } else {
                mid.shown.push(Part::Text(text))
            }
        },
    }
}

/// Words and some words more are words.
proof fn lemma_one_more(
    s: Said,
    mid: Said,
    now: Said,
    tokens: Seq<u32>,
    token: u32,
    e: Seq<char>,
    text: Seq<char>,
)
    requires
        s.fed.len() == s.kinds.len(),
        only_said(s, mid, tokens, e),
        one_more(mid, now, token, text),
    ensures
        only_said(s, now, tokens.push(token), e + text),
{
    let n = s.shown.len() as int;
    let k = s.kinds.len() as int;
    assert(now.fed =~= s.fed + tokens.push(token));
    assert(now.kinds.take(k) =~= mid.kinds.take(k));
    assert forall|i: int| s.kinds.len() <= i < now.kinds.len() implies #[trigger] now.kinds[i]
        == if s.talk.thinking {
        Kind::Thought
    } else {
        Kind::Answer
    } by {
        if i < mid.kinds.len() {
            assert(now.kinds[i] == mid.kinds[i]);
        }
    }
    match s.talk.call {
        Some(call) => {
            assert(call + e + text =~= call + (e + text));
        },
        None => {
            let (a, b) = (mid.shown.skip(n), now.shown.skip(n));
            assert(now.shown.take(n) =~= mid.shown.take(n));
            if text.len() == 0 {
                assert(e + text =~= e);
            } else {
                assert(b.drop_last() =~= a);
                assert(b.last() == now.shown.last());
                assert forall|i: int| 0 <= i < b.len() implies (#[trigger] b[i] is Thought)
                    == s.talk.thinking by {
                    if i < a.len() {
                        assert(b[i] == a[i]);
                    }
                }
            }
        },
    }
}

/// A token that is no tag has the words more to it that are whole by then.
proof fn lemma_step(t: Tags, v: Vocab, picks: Seq<(u32, bool)>, token: u32)
    requires
        !is_tag(t, token),
    ensures
        ({
            let mid = said(t, v, picks);
            let now = said(t, v, picks.push((token, false)));
            let (text, pending) = pushed(mid.talk.pending, v.tokens[token as int]);
            &&& one_more(mid, now, token, text)
            &&& now.talk.pending == pending
        }),
{
    assert(picks.push((token, false)).drop_last() =~= picks);
}

/// Nothing said is nothing.
proof fn lemma_nothing(s: Said)
    ensures
        only_said(s, s, Seq::empty(), Seq::empty()),
{
    let n = s.shown.len() as int;
    assert(s.shown.take(n) =~= s.shown);
    assert(s.shown.skip(n) =~= Seq::empty());
    assert(s.fed + Seq::empty() =~= s.fed);
    assert(s.kinds.take(s.kinds.len() as int) =~= s.kinds);
    if let Some(call) = s.talk.call {
        assert(call + Seq::empty() =~= call);
    }
}

/// Words go where they belong as their tokens are said, but for the bytes that
/// are held back.
proof fn lemma_words(
    t: Tags,
    v: Vocab,
    picks: Seq<(u32, bool)>,
    tokens: Seq<u32>,
    rest: Seq<u8>,
) -> (e: Seq<char>)
    requires
        said(t, v, picks).talk.pending.len() == 0,
        said(t, v, picks).fed.len() == said(t, v, picks).kinds.len(),
        forall|i: int| 0 <= i < tokens.len() ==> !is_tag(t, #[trigger] tokens[i]),
        valid_utf8(flat(v, tokens) + rest),
    ensures
        only_said(said(t, v, picks), said(t, v, picks + picked_all(tokens)), tokens, e),
        encode_utf8(e) + said(t, v, picks + picked_all(tokens)).talk.pending == flat(v, tokens),
        valid_utf8(said(t, v, picks + picked_all(tokens)).talk.pending + rest),
        rest.len() == 0 ==> said(t, v, picks + picked_all(tokens)).talk.pending.len() == 0,
    decreases tokens.len(),
{
    let s = said(t, v, picks);
    let all = picks + picked_all(tokens);
    if tokens.len() == 0 {
        assert(all =~= picks);
        assert(tokens =~= Seq::empty());
        lemma_nothing(s);
        let e = Seq::<char>::empty();
        assert(encode_utf8(e) + s.talk.pending =~= flat(v, tokens));
        assert(s.talk.pending + rest =~= flat(v, tokens) + rest);
        e
    } else {
        let first = tokens.drop_last();
        let token = tokens.last();
        let bytes = v.tokens[token as int];
        assert(flat(v, first) + (bytes + rest) =~= flat(v, tokens) + rest);
        let e0 = lemma_words(t, v, picks, first, bytes + rest);
        let before = picks + picked_all(first);
        let pending = said(t, v, before).talk.pending;
        assert(all =~= before.push((token, false)));
        assert(!is_tag(t, tokens[tokens.len() - 1]));
        lemma_step(t, v, before, token);
        let text = pushed(pending, bytes).0;
        lemma_one_more(s, said(t, v, before), said(t, v, all), first, token, e0, text);
        assert(first.push(token) =~= tokens);
        lemma_bytes(e0, pending, bytes, flat(v, first), rest);
        e0 + text
    }
}

/// The bytes of words are those of their tokens, but for what is held back.
proof fn lemma_bytes(
    e: Seq<char>,
    pending: Seq<u8>,
    bytes: Seq<u8>,
    before: Seq<u8>,
    rest: Seq<u8>,
)
    requires
        encode_utf8(e) + pending == before,
        valid_utf8(pending + (bytes + rest)),
    ensures
        ({
            let (text, held) = pushed(pending, bytes);
            &&& encode_utf8(e + text) + held == before + bytes
            &&& valid_utf8(held + rest)
            &&& rest.len() == 0 ==> held.len() == 0
        }),
{
    let some = pending + bytes;
    let none = Seq::<u8>::empty();
    assert(pending + (bytes + rest) =~= some + rest);
    assert(none + some =~= some);
    law_text_goes_through(none, some, pending, bytes, rest);
    let (text, held) = pushed(pending, bytes);
    lemma_encode_concat(e, text);
    assert(encode_utf8(e) + encode_utf8(text) + held =~= encode_utf8(e) + (encode_utf8(text) + held));
    assert(encode_utf8(e) + (pending + bytes) =~= encode_utf8(e) + pending + bytes);
}

/// What the model says goes where it belongs, character for character, however
/// its tokens cut it: within a call, into its body; within a thought, shown as
/// thought; else shown as text. Nothing of it is lost, and nothing is added.
pub proof fn law_words_go_where_they_belong(
    t: Tags,
    v: Vocab,
    picks: Seq<(u32, bool)>,
    tokens: Seq<u32>,
    text: Seq<char>,
)
    requires
        said(t, v, picks).talk.pending.len() == 0,
        forall|i: int| 0 <= i < tokens.len() ==> !is_tag(t, #[trigger] tokens[i]),
        flat(v, tokens) == encode_utf8(text),
    ensures
        only_said(said(t, v, picks), said(t, v, picks + picked_all(tokens)), tokens, text),
        said(t, v, picks + picked_all(tokens)).talk.pending.len() == 0,
{
    let none = Seq::<u8>::empty();
    encode_utf8_valid_utf8(text);
    assert(flat(v, tokens) + none =~= flat(v, tokens));
    lemma_given(t, v, picks);
    let e = lemma_words(t, v, picks, tokens, none);
    let now = said(t, v, picks + picked_all(tokens));
    assert(encode_utf8(e) + now.talk.pending =~= encode_utf8(e));
    encode_utf8_decode_utf8(e);
    encode_utf8_decode_utf8(text);
}

/// A call that the model writes outside of a thought is made: its body is what
/// stands between its tags, character for character. Nothing of it is shown.
pub proof fn law_call_is_made(
    t: Tags,
    v: Vocab,
    picks: Seq<(u32, bool)>,
    open: (u32, bool),
    tokens: Seq<u32>,
    close: (u32, bool),
    text: Seq<char>,
)
    requires
        !said(t, v, picks).talk.thinking,
        said(t, v, picks).talk.pending.len() == 0,
        open.0 == t.tool_call,
        close.0 == t.tool_call_end,
        t.tool_call != t.im_end && t.tool_call != t.end_of_text && tags_apart(t),
        t.tool_call_end != t.im_end && t.tool_call_end != t.end_of_text,
        t.tool_call_end != t.think && t.tool_call_end != t.think_end,
        t.tool_call_end != t.tool_call,
        forall|i: int| 0 <= i < tokens.len() ==> !is_tag(t, #[trigger] tokens[i]),
        flat(v, tokens) == encode_utf8(text),
    ensures
        ({
            let s = said(t, v, picks);
            let now = said(t, v, (picks.push(open) + picked_all(tokens)).push(close));
            &&& now.talk.calls == s.talk.calls.push(text)
            &&& now.talk.call is None
            &&& now.shown == s.shown
            &&& now.fed == (s.fed.push(t.tool_call) + tokens).push(t.tool_call_end)
            &&& now.stopped == s.stopped
            &&& !now.talk.thinking
        }),
{
    let a = picks.push(open);
    assert(a.drop_last() =~= picks);
    let b = a + picked_all(tokens);
    law_words_go_where_they_belong(t, v, a, tokens, text);
    assert(b.push(close).drop_last() =~= b);
    assert(Seq::<char>::empty() + text =~= text);
}

/// The tags of a call within a thought are part of the thought: nothing is
/// called, and they are shown as they are written.
pub proof fn law_call_in_thought_is_shown(
    t: Tags,
    v: Vocab,
    picks: Seq<(u32, bool)>,
    pick: (u32, bool),
    text: Seq<char>,
)
    requires
        said(t, v, picks).talk.thinking,
        said(t, v, picks).talk.pending.len() == 0,
        pick.0 == t.tool_call || pick.0 == t.tool_call_end,
        pick.0 != t.im_end && pick.0 != t.end_of_text && pick.0 != t.think && pick.0 != t.think_end,
        v.tokens[pick.0 as int] == encode_utf8(text),
    ensures
        ({
            let s = said(t, v, picks);
            let now = said(t, v, picks.push(pick));
            &&& now.shown == s.shown.push(Part::Thought(text))
            &&& now.talk.calls == s.talk.calls
            &&& now.talk.call == s.talk.call
            &&& now.talk.thinking
            &&& now.fed == s.fed.push(pick.0)
        }),
{
    let s = said(t, v, picks);
    let bytes = v.tokens[pick.0 as int];
    let none = Seq::<u8>::empty();
    assert(picks.push(pick).drop_last() =~= picks);
    encode_utf8_valid_utf8(text);
    assert(s.talk.pending + bytes =~= bytes);
    assert(none + bytes =~= bytes);
    assert(bytes + none =~= bytes);
    law_text_goes_through(none, bytes, s.talk.pending, bytes, none);
    let (e, pending) = pushed(s.talk.pending, bytes);
    assert(encode_utf8(e) + pending =~= encode_utf8(e));
    encode_utf8_decode_utf8(e);
    encode_utf8_decode_utf8(text);
}

/// The tags of a thought open it and close it: they are fed, and not shown, and
/// what is said behind them is thought, or is not.
pub proof fn law_thoughts_open_and_close(
    t: Tags,
    v: Vocab,
    picks: Seq<(u32, bool)>,
    pick: (u32, bool),
)
    requires
        pick.0 == t.think || pick.0 == t.think_end,
        t.think != t.think_end,
        pick.0 != t.im_end && pick.0 != t.end_of_text,
    ensures
        ({
            let s = said(t, v, picks);
            let now = said(t, v, picks.push(pick));
            &&& now.talk.thinking == (pick.0 == t.think)
            &&& now.fed == s.fed.push(pick.0)
            &&& now.shown == s.shown
            &&& now.talk.calls == s.talk.calls
            &&& now.talk.pending == s.talk.pending
            &&& now.stopped == s.stopped
            &&& now.broken == s.broken
        }),
{
    assert(picks.push(pick).drop_last() =~= picks);
}

/// A reply starts within a thought, and a token counts as part of the thought
/// or of the answer by where the reply was when it was said.
pub proof fn law_tokens_count_where_they_stand(
    t: Tags,
    v: Vocab,
    picks: Seq<(u32, bool)>,
    pick: (u32, bool),
)
    ensures
        picks.len() == 0 ==> said(t, v, picks).talk.thinking,
        ({
            let s = said(t, v, picks);
            let now = said(t, v, picks.push(pick));
            &&& now.fed.len() == now.kinds.len()
            &&& now.fed != s.fed ==> now.kinds == s.kinds.push(
                if s.talk.thinking {
                    Kind::Thought
                } else {
                    Kind::Answer
                },
            ) && now.fed.drop_last() == s.fed
            &&& now.fed == s.fed ==> now.kinds == s.kinds && now.shown == s.shown
        }),
{
    let s = said(t, v, picks);
    let now = said(t, v, picks.push(pick));
    assert(picks.push(pick).drop_last() =~= picks);
    lemma_given(t, v, picks.push(pick));
    lemma_given(t, v, picks);
    if now.fed == s.fed {
        assert(now.fed.len() == s.fed.len());
    } else {
        assert(now.fed.drop_last() =~= s.fed);
    }
}

/// An answer that is broken off, or ends, or goes on, is the text that its
/// tokens stand for, however they cut it.
pub proof fn law_answer_is_what_was_said(v: Vocab, tokens: Seq<u32>, text: Seq<char>)
    requires
        flat(v, tokens) == encode_utf8(text),
    ensures
        answered(v, tokens) == (text, Seq::<u8>::empty()),
{
    let none = Seq::<u8>::empty();
    encode_utf8_valid_utf8(text);
    assert(flat(v, tokens) + none =~= flat(v, tokens));
    lemma_answer(v, tokens, none);
    let (e, pending) = answered(v, tokens);
    assert(pending =~= none);
    assert(encode_utf8(e) + pending =~= encode_utf8(e));
    encode_utf8_decode_utf8(e);
    encode_utf8_decode_utf8(text);
}

/// An answer is the bytes of its tokens, but for what is held back.
proof fn lemma_answer(v: Vocab, tokens: Seq<u32>, rest: Seq<u8>)
    requires
        valid_utf8(flat(v, tokens) + rest),
    ensures
        encode_utf8(answered(v, tokens).0) + answered(v, tokens).1 == flat(v, tokens),
        valid_utf8(answered(v, tokens).1 + rest),
        rest.len() == 0 ==> answered(v, tokens).1.len() == 0,
    decreases tokens.len(),
{
    let none = Seq::<u8>::empty();
    if tokens.len() == 0 {
        assert(encode_utf8(Seq::<char>::empty()) + none =~= flat(v, tokens));
        assert(none + rest =~= flat(v, tokens) + rest);
    } else {
        let first = tokens.drop_last();
        let bytes = v.tokens[tokens.last() as int];
        assert(flat(v, first) + (bytes + rest) =~= flat(v, tokens) + rest);
        lemma_answer(v, first, bytes + rest);
        let (e, pending) = answered(v, first);
        lemma_bytes(e, pending, bytes, flat(v, first), rest);
    }
}

} // verus!
