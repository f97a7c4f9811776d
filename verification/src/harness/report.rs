//! Where a conversation's time has gone, in words.
use vstd::prelude::*;

use crate::chat::Stats as ModelStats;
use crate::text::{
    chars, decimal, digits, own, skip_space_back, space, string, texts, trim_end,
};

verus! {

/// Where a conversation's time has gone: the model's, by what it was doing,
/// and the tools'.
#[derive(Clone, Copy, Debug, PartialEq, Eq)]
pub struct Stats {
    pub model: ModelStats,
    /// Tool calls run, and the nanoseconds they took.
    pub calls: usize,
    pub tool_nanos: u64,
}

/// The seconds that things took, each as it is to be written.
#[derive(Debug)]
pub struct Seconds {
    pub loading: String,
    pub cached: String,
    pub prompt: String,
    pub thought: String,
    pub answer: String,
    pub drafted: String,
    pub tools: String,
    pub other: String,
    pub total: String,
}

/// The tokens a second of each kind, each as it is to be written.
#[derive(Debug)]
pub struct Rates {
    pub prompt: String,
    pub thought: String,
    pub answer: String,
}

/// `n` spaces.
pub open spec fn spaces(n: int) -> Seq<char> {
    Seq::new(
        if n > 0 {
            n as nat
        } else {
            0
        },
        |i: int| ' ',
    )
}

/// A text with spaces behind it, up to a width.
pub open spec fn left(s: Seq<char>, width: int) -> Seq<char> {
    s + spaces(width - s.len())
}

/// A text with spaces in front of it, up to a width.
pub open spec fn right(s: Seq<char>, width: int) -> Seq<char> {
    spaces(width - s.len()) + s
}

/// A line of the accounting.
pub open spec fn row(
    name: Seq<char>,
    count: Seq<char>,
    seconds: Seq<char>,
    rate: Seq<char>,
) -> Seq<char> {
    trim_end(left(name, 8) + right(count, 13) + right(seconds, 8) + " s"@ + right(rate, 11))
}

/// A number of things.
pub open spec fn amount(n: usize, unit: Seq<char>) -> Seq<char> {
    digits(n as nat) + unit
}

/// The accounting as lines.
pub open spec fn lines(s: Stats, t: Seconds, r: Rates) -> Seq<Seq<char>> {
    let none = Seq::<char>::empty();
    let m = s.model;
    seq![
        row("loading"@, none, t.loading@, none),
        row("cached"@, amount(m.cached.tokens, " tokens"@), t.cached@, none),
        row("prompt"@, amount(m.prompt.tokens, " tokens"@), t.prompt@, r.prompt@ + " tok/s"@),
        row("thought"@, amount(m.thought.tokens, " tokens"@), t.thought@, r.thought@ + " tok/s"@),
        row("answer"@, amount(m.answer.tokens, " tokens"@), t.answer@, r.answer@ + " tok/s"@),
        row("drafted"@, amount(m.drafted, " tokens"@), t.drafted@, amount(m.accepted, " taken"@)),
        row("tools"@, amount(s.calls, " calls"@), t.tools@, none),
        row("other"@, none, t.other@, none),
        row("total"@, none, t.total@, none),
    ]
}

/// Appends spaces for a text of `len` characters, up to a width.
fn push_spaces(out: &mut String, len: usize, width: usize)
    ensures
        final(out)@ == old(out)@ + spaces(width - len),
{
    let ghost start = out@;
    let mut i: usize = len;
    assert(start + spaces(0) =~= start);
    if len >= width {
        assert(out@ =~= start + spaces(width - len));
        return ;
    }
    while i < width
        invariant
            len <= i <= width,
            out@ == start + spaces(i - len),
        decreases width - i,
    {
        out.push(' ');
        i = i + 1;
        assert(out@ =~= start + spaces(i - len));
    }
}

/// Writes a line of the accounting.
fn write_row(name: &str, count: &str, seconds: &str, rate: &str) -> (out: String)
    ensures
        out@ == row(name@, count@, seconds@, rate@),
{
    let mut line = own(name);
    push_spaces(&mut line, name.unicode_len(), 8);
    push_spaces(&mut line, count.unicode_len(), 13);
    line.append(count);
    push_spaces(&mut line, seconds.unicode_len(), 8);
    line.append(seconds);
    line.append(" s");
    push_spaces(&mut line, rate.unicode_len(), 11);
    line.append(rate);
    let ghost whole = left(name@, 8) + right(count@, 13) + right(seconds@, 8) + " s"@ + right(
        rate@,
        11,
    );
    assert(line@ =~= whole);
    let list = chars(&line);
    let n: usize = list.len();
    let end: usize = skip_space_back(list.as_slice(), 0, n);
    assert(list@.subrange(0, n as int) =~= whole);
    string(vstd::slice::slice_subrange(list.as_slice(), 0, end))
}

/// Writes a number of things.
fn write_amount(n: usize, unit: &str) -> (out: String)
    ensures
        out@ == amount(n, unit@),
{
    let mut out = decimal(n as u64);
    out.append(unit);
    out
}

/// Writes a rate.
fn write_rate(rate: &str) -> (out: String)
    ensures
        out@ == rate@ + " tok/s"@,
{
    let mut out = own(rate);
    out.append(" tok/s");
    out
}

impl Stats {
    /// The nanoseconds that are accounted for, given those that loading the
    /// model took.
    pub open spec fn accounted(self, loading: u64) -> int {
        let m = self.model;
        loading + m.cached.nanos + m.prompt.nanos + m.thought.nanos + m.answer.nanos
            + self.tool_nanos
    }

    /// What is left over of the nanoseconds that everything took: the time
    /// outside the model and the tools.
    pub fn other(&self, loading: u64, total: u64) -> (n: u64)
        ensures
            n == if total > self.accounted(loading) {
                total - self.accounted(loading)
            } else {
                0
            },
    {
        let m = &self.model;
        let accounted: u128 = loading as u128 + m.cached.nanos as u128 + m.prompt.nanos as u128
            + m.thought.nanos as u128 + m.answer.nanos as u128 + self.tool_nanos as u128;
        if total as u128 > accounted {
            total - accounted as u64
        } else {
            0
        }
    }

    /// The accounting as lines, given how long each thing took and at what
    /// rate.
    pub fn report(&self, t: &Seconds, r: &Rates) -> (out: Vec<String>)
        ensures
            texts(out@) == lines(*self, *t, *r),
    {
        let m = &self.model;
        let none = String::new();
        let mut out: Vec<String> = Vec::new();
        out.push(write_row("loading", &none, &t.loading, &none));
        out.push(write_row("cached", &write_amount(m.cached.tokens, " tokens"), &t.cached, &none));
        out.push(
            write_row(
                "prompt",
                &write_amount(m.prompt.tokens, " tokens"),
                &t.prompt,
                &write_rate(&r.prompt),
            ),
        );
        out.push(
            write_row(
                "thought",
                &write_amount(m.thought.tokens, " tokens"),
                &t.thought,
                &write_rate(&r.thought),
            ),
        );
        out.push(
            write_row(
                "answer",
                &write_amount(m.answer.tokens, " tokens"),
                &t.answer,
                &write_rate(&r.answer),
            ),
        );
        out.push(
            write_row(
                "drafted",
                &write_amount(m.drafted, " tokens"),
                &t.drafted,
                &write_amount(m.accepted, " taken"),
            ),
        );
        out.push(write_row("tools", &write_amount(self.calls, " calls"), &t.tools, &none));
        out.push(write_row("other", &none, &t.other, &none));
        out.push(write_row("total", &none, &t.total, &none));
        assert(texts(out@) =~= lines(*self, *t, *r));
        out
    }
}

/// Whether text stands at the start of a line, with spaces behind it up to a
/// column.
pub open spec fn starts_with(line: Seq<char>, text: Seq<char>, to: int) -> bool {
    &&& text.len() <= to <= line.len()
    &&& line.take(text.len() as int) == text
    &&& forall|i: int| text.len() <= i < to ==> #[trigger] line[i] == ' '
}

/// Whether text stands right up to a column of a line, with spaces before it
/// down to another.
pub open spec fn ends_at(line: Seq<char>, text: Seq<char>, from: int, to: int) -> bool {
    &&& from <= to - text.len()
    &&& to <= line.len()
    &&& line.subrange(to - text.len(), to) == text
    &&& forall|i: int| from <= i < to - text.len() ==> #[trigger] line[i] == ' '
}

/// Whether a line shows what was done, how much of it, how long it took and at
/// what rate, each in its column.
pub open spec fn shows(
    line: Seq<char>,
    name: Seq<char>,
    count: Seq<char>,
    seconds: Seq<char>,
    rate: Seq<char>,
) -> bool {
    &&& starts_with(line, name, 8)
    &&& ends_at(line, count, 8, 21)
    &&& ends_at(line, seconds, 21, 29)
    &&& line[29] == ' '
    &&& line[30] == 's'
    &&& if rate.len() == 0 {
        line.len() == 31
    } else {
        line.len() == 42 && ends_at(line, rate, 31, 42)
    }
}

/// Text and the spaces behind it.
proof fn lemma_trimmed(s: Seq<char>, n: int)
    requires
        s.len() > 0,
        !space(s.last()),
        n >= 0,
    ensures
        trim_end(s + spaces(n)) == s,
    decreases n,
{
    let all = s + spaces(n);
    if n == 0 {
        assert(all =~= s);
    } else {
        assert(all.last() == ' ');
        assert(all.drop_last() =~= s + spaces(n - 1));
        lemma_trimmed(s, n - 1);
    }
}

/// A line whose parts fit their columns shows them there.
proof fn lemma_shows(name: Seq<char>, count: Seq<char>, seconds: Seq<char>, rate: Seq<char>)
    requires
        name.len() <= 8,
        count.len() <= 13,
        seconds.len() <= 8,
        rate.len() <= 11,
        rate.len() > 0 ==> !space(rate.last()),
    ensures
        shows(row(name, count, seconds, rate), name, count, seconds, rate),
{
    reveal_strlit(" s");
    let head = left(name, 8) + right(count, 13) + right(seconds, 8) + " s"@;
    let whole = head + right(rate, 11);
    if rate.len() == 0 {
        assert(right(rate, 11) =~= spaces(11));
        lemma_trimmed(head, 11);
    } else {
        assert(whole.last() == rate.last());
        lemma_trimmed(whole, 0);
        assert(whole + spaces(0) =~= whole);
        assert(whole.subrange(42 - rate.len(), 42) =~= rate);
    }
    let line = row(name, count, seconds, rate);
    assert(line.take(name.len() as int) =~= name);
    assert(line.subrange(21 - count.len(), 21) =~= count);
    assert(line.subrange(29 - seconds.len(), 29) =~= seconds);
}

/// Whether the parts of the accounting fit their columns.
pub open spec fn fits(s: Stats, t: Seconds, r: Rates) -> bool {
    let m = s.model;
    &&& t.loading@.len() <= 8 && t.cached@.len() <= 8 && t.prompt@.len() <= 8
    &&& t.thought@.len() <= 8 && t.answer@.len() <= 8 && t.drafted@.len() <= 8
    &&& t.tools@.len() <= 8 && t.other@.len() <= 8 && t.total@.len() <= 8
    &&& r.prompt@.len() <= 5 && r.thought@.len() <= 5 && r.answer@.len() <= 5
    &&& digits(m.cached.tokens as nat).len() <= 6 && digits(m.prompt.tokens as nat).len() <= 6
    &&& digits(m.thought.tokens as nat).len() <= 6 && digits(m.answer.tokens as nat).len() <= 6
    &&& digits(m.drafted as nat).len() <= 6 && digits(m.accepted as nat).len() <= 5
    &&& digits(s.calls as nat).len() <= 7
}

/// The accounting has a line for loading, one for each thing the model does,
/// with how many tokens it was and how many a second, one for the drafts, with
/// how many of their tokens were taken, one for the tools, with how many calls
/// there were, and one each for the rest and for all together, where its parts
/// fit their columns.
pub proof fn law_accounting_is_shown(s: Stats, t: Seconds, r: Rates)
    requires
        fits(s, t, r),
    ensures
        ({
            let out = lines(s, t, r);
            let m = s.model;
            let none = Seq::<char>::empty();
            let tokens = |n: usize| digits(n as nat) + " tokens"@;
            &&& out.len() == 9
            &&& shows(out[0], "loading"@, none, t.loading@, none)
            &&& shows(out[1], "cached"@, tokens(m.cached.tokens), t.cached@, none)
            &&& shows(
                out[2],
                "prompt"@,
                tokens(m.prompt.tokens),
                t.prompt@,
                r.prompt@ + " tok/s"@,
            )
            &&& shows(
                out[3],
                "thought"@,
                tokens(m.thought.tokens),
                t.thought@,
                r.thought@ + " tok/s"@,
            )
            &&& shows(
                out[4],
                "answer"@,
                tokens(m.answer.tokens),
                t.answer@,
                r.answer@ + " tok/s"@,
            )
            &&& shows(
                out[5],
                "drafted"@,
                tokens(m.drafted),
                t.drafted@,
                digits(m.accepted as nat) + " taken"@,
            )
            &&& shows(out[6], "tools"@, digits(s.calls as nat) + " calls"@, t.tools@, none)
            &&& shows(out[7], "other"@, none, t.other@, none)
            &&& shows(out[8], "total"@, none, t.total@, none)
        }),
{
    let m = s.model;
    let none = Seq::<char>::empty();
    reveal_strlit("loading");
    reveal_strlit("cached");
    reveal_strlit("prompt");
    reveal_strlit("thought");
    reveal_strlit("answer");
    reveal_strlit("drafted");
    reveal_strlit("tools");
    reveal_strlit("other");
    reveal_strlit("total");
    reveal_strlit(" tokens");
    reveal_strlit(" tok/s");
    reveal_strlit(" taken");
    reveal_strlit(" calls");
    lemma_shows("loading"@, none, t.loading@, none);
    lemma_shows("cached"@, amount(m.cached.tokens, " tokens"@), t.cached@, none);
    lemma_shows(
        "prompt"@,
        amount(m.prompt.tokens, " tokens"@),
        t.prompt@,
        r.prompt@ + " tok/s"@,
    );
    lemma_shows(
        "thought"@,
        amount(m.thought.tokens, " tokens"@),
        t.thought@,
        r.thought@ + " tok/s"@,
    );
    lemma_shows(
        "answer"@,
        amount(m.answer.tokens, " tokens"@),
        t.answer@,
        r.answer@ + " tok/s"@,
    );
    lemma_shows(
        "drafted"@,
        amount(m.drafted, " tokens"@),
        t.drafted@,
        amount(m.accepted, " taken"@),
    );
    lemma_shows("tools"@, amount(s.calls, " calls"@), t.tools@, none);
    lemma_shows("other"@, none, t.other@, none);
    lemma_shows("total"@, none, t.total@, none);
}

/// Each time counts once: what the model took for cached, prompted, thought
/// and answered tokens, what the tools took and what loading took make up the
/// time that is accounted for, and nothing else does.
pub proof fn law_times_add_up(a: Stats, b: Stats, loading: u64, more: u64)
    ensures
        a.accounted(loading) - b.accounted(more) == (loading - more) + (a.model.cached.nanos
            - b.model.cached.nanos) + (a.model.prompt.nanos - b.model.prompt.nanos) + (
        a.model.thought.nanos - b.model.thought.nanos) + (a.model.answer.nanos
            - b.model.answer.nanos) + (a.tool_nanos - b.tool_nanos),
        a.model.cached.nanos == 0 && a.model.prompt.nanos == 0 && a.model.thought.nanos == 0
            && a.model.answer.nanos == 0 && a.tool_nanos == 0 ==> a.accounted(loading) == loading,
{
}

} // verus!
