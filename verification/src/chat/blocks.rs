//! Tool calls as they are written, and what is read of them.
use serde_json::Value as Json;
use vstd::prelude::*;

use super::call::{
    block, find_from, holds, inner, lemma_find_from, lemma_trim_start_len, parameters, split,
    starts, texts_are, CallError,
};
use super::json::{fields, string_in};
use crate::gguf::layout::table;
use crate::text::{blank, space, trim, trim_start};

verus! {

/// A parameter as it is written in a `<function=name>` block: its key and its
/// value, the white space before it, and whether its value starts on a line of
/// its own, and whether its end tag stands on one.
pub ghost struct Parameter {
    pub gap: Seq<char>,
    pub key: Seq<char>,
    pub value: Seq<char>,
    pub opened: bool,
    pub closed: bool,
}

/// Whether a text stands nowhere in another.
pub open spec fn absent(s: Seq<char>, p: Seq<char>) -> bool {
    forall|i: int| 0 <= i && i + p.len() <= s.len() ==> #[trigger] s.subrange(i, i + p.len()) != p
}

impl Parameter {
    /// Whether the parameter can be told from what stands round it: its key
    /// has no angle bracket that would close it, its value no end tag, and a
    /// line break at an end of the value is not the one next to the tag.
    pub open spec fn clear(self) -> bool {
        &&& blank(self.gap)
        &&& !self.key.contains('>')
        &&& absent(self.value, "</parameter>"@)
        &&& !self.opened && self.value.len() > 0 ==> self.value[0] != '\n'
        &&& !self.closed && self.value.len() > 0 ==> self.value.last() != '\n'
    }

    /// What stands between the tags.
    pub open spec fn raw(self) -> Seq<char> {
        let s = if self.opened {
            seq!['\n'] + self.value
        } else {
            self.value
        };
        if self.closed {
            s.push('\n')
        } else {
            s
        }
    }
}

/// Parameters as they are written, and the end tag of their block.
pub open spec fn body(params: Seq<Parameter>, gap: Seq<char>) -> Seq<char>
    decreases params.len(),
{
    if params.len() == 0 {
        gap + "</function>"@
    } else {
        let p = params[0];
        p.gap + ("<parameter="@ + (p.key + ">"@ + (p.raw() + "</parameter>"@ + body(
            params.drop_first(),
            gap,
        ))))
    }
}

/// A `<function=name>` block as it is written.
pub open spec fn written(name: Seq<char>, params: Seq<Parameter>, gap: Seq<char>) -> Seq<char> {
    "<function="@ + (name + ">"@ + body(params, gap))
}

/// The keys and values of parameters.
pub open spec fn pairs_of(params: Seq<Parameter>) -> Seq<(Seq<char>, Seq<char>)> {
    Seq::new(params.len(), |i: int| (params[i].key, params[i].value))
}

/// White space goes from the start of a text.
proof fn lemma_gap(gap: Seq<char>, rest: Seq<char>)
    requires
        blank(gap),
        rest.len() > 0,
        !space(rest[0]),
    ensures
        trim_start(gap + rest) == rest,
    decreases gap.len(),
{
    if gap.len() == 0 {
        assert(gap + rest =~= rest);
    } else {
        assert(space(gap[0]));
        assert((gap + rest).drop_first() =~= gap.drop_first() + rest);
        assert forall|i: int| 0 <= i < gap.drop_first().len() implies space(
            #[trigger] gap.drop_first()[i],
        ) by {
            assert(gap[i + 1] == gap.drop_first()[i]);
        }
        lemma_gap(gap.drop_first(), rest);
    }
}

/// A text is the white space that it starts with, and the rest.
proof fn lemma_gap_of(s: Seq<char>) -> (gap: Seq<char>)
    ensures
        blank(gap),
        s == gap + trim_start(s),
    decreases s.len(),
{
    if s.len() > 0 && space(s[0]) {
        let more = lemma_gap_of(s.drop_first());
        let gap = seq![s[0]] + more;
        let rest = s.drop_first();
        assert(s =~= seq![s[0]] + rest);
        assert(seq![s[0]] + (more + trim_start(rest)) =~= gap + trim_start(rest));
        gap
    } else {
        assert(s =~= Seq::<char>::empty() + s);
        Seq::empty()
    }
}

/// A text is split at the first place where another stands in it.
proof fn lemma_split(a: Seq<char>, p: Seq<char>, b: Seq<char>)
    requires
        p.len() > 0,
        forall|i: int| 0 <= i < a.len() ==> !starts(#[trigger] (a + p + b).skip(i), p),
    ensures
        split(a + p + b, p) == Some((a, b)),
{
    let s = a + p + b;
    assert(s.skip(a.len() as int).take(p.len() as int) =~= p);
    lemma_find_to(s, p, 0, a.len());
    assert(s.take(a.len() as int) =~= a);
    assert(s.skip((a.len() + p.len()) as int) =~= b);
}

/// A text is found where it first stands.
proof fn lemma_find_to(s: Seq<char>, p: Seq<char>, from: nat, to: nat)
    requires
        from <= to,
        to + p.len() <= s.len(),
        p.len() > 0,
        starts(s.skip(to as int), p),
        forall|i: int| from <= i < to ==> !starts(#[trigger] s.skip(i), p),
    ensures
        find_from(s, p, from) == Some(to),
    decreases to - from,
{
    if from < to {
        assert(!starts(s.skip(from as int), p));
        lemma_find_to(s, p, from + 1, to);
    }
}

/// What a text is split into is all of it, and nothing of what it is split at
/// stands before.
proof fn lemma_splits(s: Seq<char>, p: Seq<char>, from: nat)
    requires
        p.len() > 0,
        find_from(s, p, from) is Some,
    ensures
        ({
            let i = find_from(s, p, from)->0;
            &&& from <= i
            &&& i + p.len() <= s.len()
            &&& s == s.take(i as int) + p + s.skip((i + p.len()) as int)
            &&& forall|j: int| from <= j < i ==> !starts(#[trigger] s.skip(j), p)
        }),
    decreases s.len() - from,
{
    if starts(s.skip(from as int), p) {
        assert(s =~= s.take(from as int) + p + s.skip((from + p.len()) as int)) by {
            let t = s.skip(from as int).take(p.len() as int);
            assert forall|k: int| 0 <= k < p.len() implies p[k] == #[trigger] s[from + k] by {
                assert(t[k] == s[from + k]);
            }
        }
    } else {
        lemma_splits(s, p, from + 1);
    }
}

/// What stands between the tags, without the line breaks next to them.
proof fn lemma_inner(p: Parameter)
    requires
        p.clear(),
    ensures
        inner(p.raw()) == p.value,
{
    let raw = p.raw();
    let v = p.value;
    if p.opened {
        assert(raw.drop_first() =~= if p.closed {
            v.push('\n')
        } else {
            v
        });
        if p.closed {
            assert(v.push('\n').drop_last() =~= v);
        }
    } else if p.closed {
        if v.len() == 0 {
            assert(raw.drop_first() =~= v);
        } else {
            assert(raw[0] == v[0]);
            assert(raw.drop_last() =~= v);
        }
    }
}

/// The end tag of a value does not stand within it, nor over its end.
proof fn lemma_value_ends(p: Parameter, rest: Seq<char>, i: int)
    requires
        p.clear(),
        0 <= i < p.raw().len(),
    ensures
        !starts((p.raw() + "</parameter>"@ + rest).skip(i), "</parameter>"@),
{
    reveal_strlit("</parameter>");
    let tag = "</parameter>"@;
    let raw = p.raw();
    let s = raw + tag + rest;
    if starts(s.skip(i), tag) {
        let here = s.skip(i).take(12);
        assert(here == tag);
        if i + 12 > raw.len() {
            let k = raw.len() - i;
            assert(here[k] == s[raw.len() as int]);
            assert(s[raw.len() as int] == tag[0]);
            assert(tag[k] != '<');
        } else {
            let off = if p.opened {
                1int
            } else {
                0int
            };
            assert(here[0] == raw[i]);
            assert(here[11] == raw[i + 11]);
            assert(raw[i] == '<' && raw[i + 11] == '>');
            assert(i >= off);
            assert(i + 12 - off <= p.value.len());
            assert forall|k: int| 0 <= k < 12 implies p.value[i - off + k] == #[trigger] tag[k] by {
                assert(here[k] == raw[i + k]);
            }
            assert(p.value.subrange(i - off, i - off + 12) =~= tag);
        }
    }
}

/// A name ends at the first angle bracket.
proof fn lemma_name_ends(name: Seq<char>, rest: Seq<char>)
    requires
        !name.contains('>'),
    ensures
        split(name + ">"@ + rest, ">"@) == Some((name, rest)),
{
    reveal_strlit(">");
    let s = name + ">"@ + rest;
    assert forall|i: int| 0 <= i < name.len() implies !starts(#[trigger] s.skip(i), ">"@) by {
        if starts(s.skip(i), ">"@) {
            assert(s.skip(i).take(1)[0] == name[i]);
            assert(name.contains(name[i]));
        }
    }
    lemma_split(name, ">"@, rest);
}

/// What parameters are written as reads back as they are.
proof fn lemma_body(params: Seq<Parameter>, gap: Seq<char>)
    requires
        forall|i: int| 0 <= i < params.len() ==> (#[trigger] params[i]).clear(),
        blank(gap),
    ensures
        parameters(body(params, gap)) == Ok::<_, CallError>(pairs_of(params)),
    decreases params.len(),
{
    let text = body(params, gap);
    reveal_strlit("</function>");
    reveal_strlit("<parameter=");
    reveal_strlit("</parameter>");
    let close = "</function>"@;
    let open = "<parameter="@;
    if params.len() == 0 {
        lemma_gap(gap, close);
        assert(close.take(close.len() as int) =~= close);
        assert(close.skip(close.len() as int) =~= Seq::empty());
        assert(pairs_of(params) =~= Seq::empty());
    } else {
        let p = params[0];
        let more = params.drop_first();
        let rest = body(more, gap);
        let on = p.raw() + "</parameter>"@ + rest;
        let named = p.key + ">"@ + on;
        let here = open + named;
        assert(p.clear());
        lemma_gap(p.gap, here);
        assert(here.take(open.len() as int) =~= open);
        assert(here.skip(open.len() as int) =~= named);
        assert(here.take(close.len() as int)[1] == 'p');
        assert(!starts(here, close));
        lemma_name_ends(p.key, on);
        assert forall|i: int| 0 <= i < p.raw().len() implies !starts(
            #[trigger] on.skip(i),
            "</parameter>"@,
        ) by {
            lemma_value_ends(p, rest, i);
        }
        lemma_split(p.raw(), "</parameter>"@, rest);
        lemma_inner(p);
        assert forall|i: int| 0 <= i < more.len() implies (#[trigger] more[i]).clear() by {
            assert(params[i + 1] == more[i]);
        }
        lemma_body(more, gap);
        assert(pairs_of(params) =~= seq![(p.key, p.value)] + pairs_of(more));
    }
}

/// Nothing goes from the ends of a text that has no white space there.
proof fn lemma_untrimmed(s: Seq<char>)
    requires
        s.len() > 0,
        !space(s[0]),
        !space(s.last()),
    ensures
        trim(s) == s,
{
}

/// The last character of parameters as they are written.
proof fn lemma_body_ends(params: Seq<Parameter>, gap: Seq<char>)
    ensures
        body(params, gap).len() > 0,
        body(params, gap).last() == '>',
    decreases params.len(),
{
    reveal_strlit("</function>");
    if params.len() > 0 {
        lemma_body_ends(params.drop_first(), gap);
    }
}

/// A call that is written as a block reads back as it was written: the name,
/// and each key with its value, character for character, however many lines
/// it has, with only the line breaks next to its tags left out.
pub proof fn law_call_reads_back(name: Seq<char>, params: Seq<Parameter>, gap: Seq<char>)
    requires
        !name.contains('>'),
        forall|i: int| 0 <= i < params.len() ==> (#[trigger] params[i]).clear(),
        blank(gap),
    ensures
        trim(written(name, params, gap)) == written(name, params, gap),
        !starts(written(name, params, gap), "{"@),
        block(written(name, params, gap)) == Ok::<_, CallError>((name, pairs_of(params))),
{
    reveal_strlit("<function=");
    reveal_strlit("{");
    reveal_strlit(">");
    let open = "<function="@;
    let rest = body(params, gap);
    let text = written(name, params, gap);
    lemma_body_ends(params, gap);
    lemma_untrimmed(text);
    assert(text.take(open.len() as int) =~= open);
    assert(text.skip(open.len() as int) =~= name + ">"@ + rest);
    assert(text.take(1)[0] == '<');
    lemma_name_ends(name, rest);
    lemma_body(params, gap);
}

/// Parameters that are read are written.
proof fn lemma_only_bodies(rest: Seq<char>) -> (r: (Seq<Parameter>, Seq<char>, Seq<char>))
    requires
        parameters(rest) is Ok,
    ensures
        rest == body(r.0, r.1) + r.2,
        forall|i: int| 0 <= i < r.0.len() ==> (#[trigger] r.0[i]).clear(),
        blank(r.1),
        blank(r.2),
        parameters(rest) == Ok::<_, CallError>(pairs_of(r.0)),
    decreases rest.len(),
{
    reveal_strlit("</function>");
    reveal_strlit("<parameter=");
    reveal_strlit("</parameter>");
    reveal_strlit(">");
    let close = "</function>"@;
    let open = "<parameter="@;
    let end = "</parameter>"@;
    let here = trim_start(rest);
    let gap = lemma_gap_of(rest);
    lemma_trim_start_len(rest);
    if starts(here, close) {
        let none = Seq::<Parameter>::empty();
        let tail = here.skip(close.len() as int);
        assert(here =~= here.take(close.len() as int) + tail);
        assert(rest =~= body(none, gap) + tail);
        assert(pairs_of(none) =~= Seq::empty());
        (none, gap, tail)
    } else {
        let named = here.skip(open.len() as int);
        assert(here =~= here.take(open.len() as int) + named);
        lemma_find_from(named, ">"@, 0);
        lemma_splits(named, ">"@, 0);
        let (key, on) = split(named, ">"@)->0;
        lemma_find_from(on, end, 0);
        lemma_splits(on, end, 0);
        let (raw, after) = split(on, end)->0;
        assert(named == key + ">"@ + on);
        assert(on == raw + end + after);
        let (params, last, tail) = lemma_only_bodies(after);
        let p = lemma_raw(gap, key, raw, named, on, after);
        let all = seq![p] + params;
        assert(all.drop_first() =~= params);
        let more = body(params, last);
        assert(rest =~= body(all, last) + tail) by {
            assert(on =~= raw + end + more + tail);
            assert(named =~= key + ">"@ + (raw + end + more) + tail);
            assert(here =~= open + (key + ">"@ + (raw + end + more)) + tail);
        }
        assert(pairs_of(all) =~= seq![(p.key, p.value)] + pairs_of(params));
        assert forall|i: int| 0 <= i < all.len() implies (#[trigger] all[i]).clear() by {
            if i > 0 {
                assert(all[i] == params[i - 1]);
            }
        }
        (all, last, tail)
    }
}

/// What stands between tags is a value, and maybe line breaks next to them.
proof fn lemma_raw(
    gap: Seq<char>,
    key: Seq<char>,
    raw: Seq<char>,
    named: Seq<char>,
    on: Seq<char>,
    after: Seq<char>,
) -> (p: Parameter)
    requires
        blank(gap),
        named == key + ">"@ + on,
        on == raw + "</parameter>"@ + after,
        forall|j: int| 0 <= j < key.len() ==> !starts(#[trigger] named.skip(j), ">"@),
        forall|j: int| 0 <= j < raw.len() ==> !starts(#[trigger] on.skip(j), "</parameter>"@),
    ensures
        p.clear(),
        p.gap == gap,
        p.key == key,
        p.raw() == raw,
        p.value == inner(raw),
{
    reveal_strlit("</parameter>");
    reveal_strlit(">");
    let end = "</parameter>"@;
    let opened = raw.len() > 0 && raw[0] == '\n';
    let s = if opened {
        raw.drop_first()
    } else {
        raw
    };
    let closed = s.len() > 0 && s.last() == '\n';
    let p = Parameter { gap, key, value: inner(raw), opened, closed };
    if opened {
        assert(raw =~= seq!['\n'] + s);
    }
    if closed {
        assert(s =~= s.drop_last().push('\n'));
    }
    assert(p.raw() =~= raw);
    if key.contains('>') {
        let j = choose|j: int| 0 <= j < key.len() && key[j] == '>';
        assert(named.skip(j).take(1) =~= ">"@);
        assert(starts(named.skip(j), ">"@));
    }
    let off = if opened {
        1int
    } else {
        0int
    };
    assert forall|i: int| 0 <= i && i + end.len() <= p.value.len() implies #[trigger] p.value.subrange(
        i,
        i + end.len(),
    ) != end by {
        let part = p.value.subrange(i, i + end.len());
        if part == end {
            assert(on.skip(i + off).take(end.len() as int) =~= part) by {
                assert forall|k: int| 0 <= k < end.len() implies on[i + off + k] == #[trigger] part[k] by {
                    assert(part[k] == p.value[i + k]);
                    assert(raw[i + off + k] == p.value[i + k]);
                }
            }
            assert(!starts(on.skip(i + off), end));
        }
    }
    p
}

/// Nothing else is read as a block: what reads as one is written as one, with
/// that name, those keys and those values, and white space at most behind it.
pub proof fn law_only_calls_are_read(text: Seq<char>) -> (r: (Seq<Parameter>, Seq<char>, Seq<char>))
    requires
        block(text) is Ok,
    ensures
        ({
            let (name, pairs) = block(text)->Ok_0;
            &&& text == written(name, r.0, r.1) + r.2
            &&& !name.contains('>')
            &&& pairs == pairs_of(r.0)
            &&& forall|i: int| 0 <= i < r.0.len() ==> (#[trigger] r.0[i]).clear()
            &&& blank(r.1)
            &&& blank(r.2)
        }),
{
    reveal_strlit("<function=");
    reveal_strlit(">");
    let open = "<function="@;
    let named = text.skip(open.len() as int);
    assert(text =~= text.take(open.len() as int) + named);
    lemma_splits(named, ">"@, 0);
    let (name, rest) = split(named, ">"@)->0;
    let r = lemma_only_bodies(rest);
    if name.contains('>') {
        let j = choose|j: int| 0 <= j < name.len() && name[j] == '>';
        assert(named.skip(j).take(1) =~= ">"@);
        assert(starts(named.skip(j), ">"@));
    }
    assert(text =~= written(name, r.0, r.1) + r.2);
    r
}

/// The arguments of a call are texts: of each key the value that was given
/// last, and no other keys.
pub proof fn law_last_argument_stands(v: Json, pairs: Seq<(Seq<char>, Seq<char>)>, i: int)
    requires
        holds(v, pairs),
        0 <= i < pairs.len(),
        forall|j: int| i < j < pairs.len() ==> (#[trigger] pairs[j]).0 != pairs[i].0,
    ensures
        fields(v) is Some,
        fields(v)->0.contains_key(pairs[i].0),
        string_in(fields(v)->0[pairs[i].0]) == Some(pairs[i].1),
        forall|k: Seq<char>| #[trigger]
            fields(v)->0.contains_key(k) ==> exists|j: int|
                0 <= j < pairs.len() && (#[trigger] pairs[j]).0 == k,
{
    lemma_last(pairs, i);
    lemma_keys(pairs);
    let m = fields(v)->0;
    assert(texts_are(m, table(pairs)));
    assert(table(pairs).contains_key(pairs[i].0));
    assert forall|k: Seq<char>| #[trigger] m.contains_key(k) implies exists|j: int|
        0 <= j < pairs.len() && (#[trigger] pairs[j]).0 == k by {
        assert(table(pairs).dom().contains(k));
        assert(table(pairs).contains_key(k));
    }
}

/// A table has of each key what was given last.
proof fn lemma_last(pairs: Seq<(Seq<char>, Seq<char>)>, i: int)
    requires
        0 <= i < pairs.len(),
        forall|j: int| i < j < pairs.len() ==> (#[trigger] pairs[j]).0 != pairs[i].0,
    ensures
        table(pairs).contains_key(pairs[i].0),
        table(pairs)[pairs[i].0] == pairs[i].1,
    decreases pairs.len(),
{
    if i < pairs.len() - 1 {
        let some = pairs.drop_last();
        assert(some[i] == pairs[i]);
        assert forall|j: int| i < j < some.len() implies (#[trigger] some[j]).0 != some[i].0 by {
            assert(some[j] == pairs[j]);
        }
        lemma_last(some, i);
        assert(pairs.last() == pairs[pairs.len() - 1]);
        assert(pairs[pairs.len() - 1].0 != pairs[i].0);
    }
}

/// A table has no keys but those that were given.
proof fn lemma_keys(pairs: Seq<(Seq<char>, Seq<char>)>)
    ensures
        forall|k: Seq<char>| #[trigger]
            table(pairs).contains_key(k) ==> exists|j: int|
                0 <= j < pairs.len() && (#[trigger] pairs[j]).0 == k,
    decreases pairs.len(),
{
    if pairs.len() > 0 {
        let some = pairs.drop_last();
        lemma_keys(some);
        assert forall|k: Seq<char>| #[trigger] table(pairs).contains_key(k) implies exists|j: int|
            0 <= j < pairs.len() && (#[trigger] pairs[j]).0 == k by {
            if k == pairs.last().0 {
                assert(pairs[pairs.len() - 1].0 == k);
            } else {
                assert(table(some).contains_key(k));
                let j = choose|j: int| 0 <= j < some.len() && (#[trigger] some[j]).0 == k;
                assert(pairs[j].0 == k);
            }
        }
    }
}

} // verus!
