//! What holds of an exchange with its tools, of dates, and of what the model is
//! told.
use vstd::prelude::*;

use super::agent::REPEATED;
use super::calendar::{date_text, is_date, zeros};
use super::exchange::{advanced, heard_all, told, News, Phase, Standing, Task};
use super::listing::{all_listed, listed, listing, spaced, Named};
use super::prompt::{environment_text, prompt_text, INSTRUCTIONS};
use crate::chat::json::json_text;
use crate::chat::spelling::by_lines;
use crate::chat::ToolCall;
use crate::text::{all_digits, digits, digits_value, law_decimal_reads_back, trim};

verus! {

/// What is to be done once the model has got something back for a call: the
/// next call of its reply is read, or it is given all that it gets back.
pub open spec fn next_call(s: Standing) -> Task {
    if s.outputs.len() < s.calls.len() {
        Task::Read(s.calls[s.outputs.len() as int])
    } else {
        Task::Respond(s.outputs)
    }
}

/// The calls of a reply are read in order, from the first on, and an exchange
/// whose reply makes none is over.
pub proof fn law_calls_are_read_in_order(s: Standing, calls: Seq<Seq<char>>)
    requires
        s.phase == Phase::Replying,
    ensures
        ({
            let (now, task) = advanced(s, News::Replied(calls));
            &&& now.calls == calls
            &&& now.outputs.len() == 0
            &&& now.ran == s.ran
            &&& calls.len() > 0 ==> task == Task::Read(calls[0]) && now.phase == Phase::Reading
            &&& calls.len() == 0 ==> task == Task::Over && now.phase == Phase::Over
        }),
{
}

/// A call that can be read, and is not the last one run, is announced, and
/// run as it was read; what it returns is shown, and is what the model gets
/// back for it.
pub proof fn law_call_is_run(s: Standing, call: ToolCall, out: Seq<char>)
    requires
        s.phase == Phase::Reading,
        s.outputs.len() < s.calls.len(),
        s.ran != Some((call.name@, json_text(call.arguments))),
    ensures
        ({
            let news = seq![News::Read(Ok(call)), News::Shown(true), News::Ran(out), News::Shown(true)];
            let now = heard_all(s, news);
            &&& told(s, news.take(1)) == Task::Announce
            &&& told(s, news.take(2)) == Task::Run(call)
            &&& told(s, news.take(3)) == Task::Show(out)
            &&& told(s, news) == next_call(now)
            &&& now.outputs == s.outputs.push(out)
            &&& now.calls == s.calls
            &&& now.ran == Some((call.name@, json_text(call.arguments)))
        }),
{
    let news = seq![News::Read(Ok(call)), News::Shown(true), News::Ran(out), News::Shown(true)];
    reveal_with_fuel(heard_all, 5);
    assert(news.drop_last() =~= news.take(3));
    assert(news.take(3).drop_last() =~= news.take(2));
    assert(news.take(2).drop_last() =~= news.take(1));
    assert(news.take(1).drop_last() =~= Seq::empty());
}

/// A call that is the last one run is announced, and not run again: the model
/// gets told so.
pub proof fn law_repeated_call_is_not_run(s: Standing, call: ToolCall)
    requires
        s.phase == Phase::Reading,
        s.outputs.len() < s.calls.len(),
        s.ran == Some((call.name@, json_text(call.arguments))),
    ensures
        ({
            let news = seq![News::Read(Ok(call)), News::Shown(true), News::Shown(true)];
            let now = heard_all(s, news);
            &&& told(s, news.take(1)) == Task::Announce
            &&& told(s, news.take(2)) == Task::Show(REPEATED@)
            &&& told(s, news) == next_call(now)
            &&& now.outputs == s.outputs.push(REPEATED@)
            &&& now.calls == s.calls
            &&& now.ran == s.ran
        }),
{
    let news = seq![News::Read(Ok(call)), News::Shown(true), News::Shown(true)];
    reveal_with_fuel(heard_all, 4);
    assert(news.drop_last() =~= news.take(2));
    assert(news.take(2).drop_last() =~= news.take(1));
    assert(news.take(1).drop_last() =~= Seq::empty());
}

/// A call that cannot be read is not run: what is wrong with it is shown, and
/// is what the model gets back for it.
pub proof fn law_unreadable_call_is_told(s: Standing, wrong: Seq<char>)
    requires
        s.phase == Phase::Reading,
        s.outputs.len() < s.calls.len(),
    ensures
        ({
            let news = seq![News::Read(Err(wrong)), News::Shown(true)];
            let now = heard_all(s, news);
            &&& told(s, news.take(1)) == Task::Show(wrong)
            &&& told(s, news) == next_call(now)
            &&& now.outputs == s.outputs.push(wrong)
            &&& now.calls == s.calls
            &&& now.ran == s.ran
        }),
{
    let news = seq![News::Read(Err(wrong)), News::Shown(true)];
    reveal_with_fuel(heard_all, 3);
    assert(news.drop_last() =~= news.take(1));
    assert(news.take(1).drop_last() =~= Seq::empty());
}

/// An exchange that is broken off where something is shown is over, and
/// nothing runs.
pub proof fn law_broken_off_is_over(s: Standing)
    ensures
        advanced(s, News::Shown(false)).1 == Task::Over,
        advanced(s, News::Shown(false)).0.phase == Phase::Over,
        advanced(s, News::Shown(false)).0.ran == s.ran,
{
}

/// A number with zeros in front reads as the number.
proof fn lemma_zeros(n: nat, width: nat)
    ensures
        all_digits(zeros(digits(n), width)),
        digits_value(zeros(digits(n), width)) == n,
        zeros(digits(n), width).len() >= width,
        digits(n).len() <= width ==> zeros(digits(n), width).len() == width,
{
    law_decimal_reads_back(n);
    let s = digits(n);
    if s.len() < width {
        let front = Seq::new((width - s.len()) as nat, |i: int| '0');
        lemma_front(front, s);
    }
}

/// Zeros in front of digits leave their number as it is.
proof fn lemma_front(front: Seq<char>, s: Seq<char>)
    requires
        forall|i: int| 0 <= i < front.len() ==> #[trigger] front[i] == '0',
    ensures
        digits_value(front + s) == digits_value(s),
    decreases front.len() + s.len(),
{
    let all = front + s;
    if s.len() > 0 {
        assert(all.drop_last() =~= front + s.drop_last());
        lemma_front(front, s.drop_last());
    } else if front.len() > 0 {
        assert(all.drop_last() =~= front.drop_last() + s);
        lemma_front(front.drop_last(), s);
        assert(all.last() == front[front.len() - 1]);
    }
}

/// A small number has few digits.
proof fn lemma_few_digits(n: nat)
    ensures
        n < 100 ==> digits(n).len() <= 2,
        n < 10000 ==> digits(n).len() <= 4,
{
    reveal_with_fuel(digits, 5);
}

/// A date of a year of up to four digits is written as ten characters: the
/// year, the month and the day, with dashes between them.
pub proof fn law_date_is_written(y: int, m: int, d: int)
    requires
        is_date(y, m, d),
        0 <= y <= 9999,
    ensures
        ({
            let s = date_text(y, m, d);
            &&& s.len() == 10
            &&& s[4] == '-' && s[7] == '-'
            &&& all_digits(s.take(4)) && digits_value(s.take(4)) == y
            &&& all_digits(s.subrange(5, 7)) && digits_value(s.subrange(5, 7)) == m
            &&& all_digits(s.skip(8)) && digits_value(s.skip(8)) == d
        }),
{
    let s = date_text(y, m, d);
    reveal_strlit("-");
    lemma_zeros(y as nat, 4);
    lemma_zeros(m as nat, 2);
    lemma_zeros(d as nat, 2);
    lemma_few_digits(y as nat);
    lemma_few_digits(m as nat);
    lemma_few_digits(d as nat);
    assert(s.take(4) =~= zeros(digits(y as nat), 4));
    assert(s.subrange(5, 7) =~= zeros(digits(m as nat), 2));
    assert(s.skip(8) =~= zeros(digits(d as nat), 2));
}

/// Whether an entry is listed under a name: it is not hidden, and the name is
/// its own, with a slash behind if it is a directory.
pub open spec fn goes_by(entry: Named, name: Seq<char>) -> bool {
    &&& !(entry.0@.len() > 0 && entry.0@[0] == '.')
    &&& name == if entry.1 {
        entry.0@.push('/')
    } else {
        entry.0@
    }
}

/// The names that are listed are those of the entries that are not hidden: all
/// of them, and no others.
pub proof fn law_names_are_listed(names: Seq<Named>, name: Seq<char>)
    ensures
        all_listed(names).contains(name) <==> exists|i: int|
            0 <= i < names.len() && goes_by(#[trigger] names[i], name),
    decreases names.len(),
{
    let all = all_listed(names);
    if names.len() > 0 {
        let some = names.drop_last();
        let last = names.last();
        law_names_are_listed(some, name);
        reveal_strlit("/");
        assert(last.0@ + "/"@ =~= last.0@.push('/'));
        let before = all_listed(some);
        let one = listed(last.0@, last.1);
        assert(names[names.len() - 1] == last);
        if before.contains(name) {
            let i = choose|i: int| 0 <= i < some.len() && goes_by(#[trigger] some[i], name);
            assert(goes_by(names[i], name));
        }
        if exists|i: int| 0 <= i < names.len() && goes_by(#[trigger] names[i], name) {
            let i = choose|i: int| 0 <= i < names.len() && goes_by(#[trigger] names[i], name);
            if i < some.len() {
                assert(goes_by(some[i], name));
            }
        }
        if let Some(x) = one {
            assert(all == before.push(x));
            if before.contains(name) {
                let j = choose|j: int| 0 <= j < before.len() && before[j] == name;
                assert(all[j] == name);
            }
            assert(all[before.len() as int] == x);
            if all.contains(name) && x != name {
                let j = choose|j: int| 0 <= j < all.len() && all[j] == name;
                assert(before[j] == name);
            }
        }
    }
}

/// The system prompt starts with the tools, says how to behave and where the
/// agent is, and ends with that, or with the project's own instructions: all
/// of them, but for white space round them, where they take no more than 4000
/// bytes.
pub proof fn law_prompt_holds_its_parts(
    tools: Seq<char>,
    environment: Seq<char>,
    instructions: Option<String>,
)
    ensures
        ({
            let p = prompt_text(tools, environment, instructions);
            let start = tools + "\n\n"@ + INSTRUCTIONS@ + "\n\n"@ + environment;
            &&& start.is_prefix_of(p)
            &&& instructions is None ==> p == start
            &&& instructions matches Some(s) ==> vstd::utf8::encode_utf8(trim(s@)).len() <= 4000 ==> p
                == start + "\n\n# Project instructions\n\nFrom AGENTS.md:\n\n"@ + trim(s@)
        }),
{
    let p = prompt_text(tools, environment, instructions);
    let start = tools + "\n\n"@ + INSTRUCTIONS@ + "\n\n"@ + environment;
    if let Some(s) = instructions {
        crate::text::law_cut_is_marked(trim(s@), 4000);
    }
    assert(p.take(start.len() as int) =~= start);
}

/// The listing has the first fifty names, in order and a space between any two,
/// and says if there are more.
pub proof fn law_listing_has_the_first(names: Seq<Seq<char>>, one: Seq<char>)
    ensures
        listing(Seq::empty()) == Seq::<char>::empty(),
        listing(seq![one]) == one,
        0 < names.len() < 50 ==> listing(names.push(one)) == listing(names) + " "@ + one,
        names.len() == 50 ==> listing(names.push(one)) == listing(names) + " …"@,
        names.len() > 50 ==> listing(names.push(one)) == listing(names),
{
    reveal_strlit(" ");
    reveal_strlit("…");
    reveal_strlit(" …");
    assert(names.push(one).drop_last() =~= names);
    if names.len() == 50 {
        let cut = names.push(one).take(50).push("…"@);
        assert(names.push(one).take(50) =~= names);
        assert(cut.drop_last() =~= names);
        assert(spaced(names) + " "@ + "…"@ =~= spaced(names) + " …"@);
    }
    if names.len() > 50 {
        assert(names.push(one).take(50) =~= names.take(50));
    }
}

/// The lines of texts that start with one.
proof fn lemma_by_lines(parts: Seq<Seq<char>>, last: Seq<char>)
    requires
        parts.len() > 0,
    ensures
        by_lines(parts.push(last)) == by_lines(parts) + "\n"@ + last,
{
    assert(parts.push(last).drop_last() =~= parts);
}

/// Where the agent is, is told line by line: its directory, the files in it,
/// whether that is a repository and of which branch, the platform, and the
/// date.
pub proof fn law_environment_is_told(
    dir: Seq<char>,
    files: Seq<char>,
    branch: Option<String>,
    os: Seq<char>,
    date: Seq<char>,
    repository: Seq<char>,
    system: Seq<char>,
)
    requires
        branch is None ==> repository == "no"@,
        branch matches Some(b) ==> repository == if b@.len() == 0 {
            "yes"@
        } else {
            "yes, on branch "@ + b@
        },
        os == "macos"@ ==> system == "macOS"@,
        os == "linux"@ ==> system == "Linux"@,
        os != "macos"@ && os != "linux"@ ==> system == os,
    ensures
        environment_text(dir, files, branch, os, date) == by_lines(
            seq![
                "# Environment"@,
                Seq::empty(),
                "Working directory: "@ + dir,
                "Files: "@ + files,
                "Git repository: "@ + repository,
                "Platform: "@ + system,
                "Date: "@ + date,
            ],
        ),
{
    let a = seq!["# Environment"@];
    let b = a.push(Seq::empty());
    let c = b.push("Working directory: "@ + dir);
    let d = c.push("Files: "@ + files);
    let e = d.push("Git repository: "@ + repository);
    let f = e.push("Platform: "@ + system);
    let g = f.push("Date: "@ + date);
    lemma_by_lines(a, Seq::empty());
    lemma_by_lines(b, "Working directory: "@ + dir);
    lemma_by_lines(c, "Files: "@ + files);
    lemma_by_lines(d, "Git repository: "@ + repository);
    lemma_by_lines(e, "Platform: "@ + system);
    lemma_by_lines(f, "Date: "@ + date);
    assert(g =~= seq![
        "# Environment"@,
        Seq::empty(),
        "Working directory: "@ + dir,
        "Files: "@ + files,
        "Git repository: "@ + repository,
        "Platform: "@ + system,
        "Date: "@ + date,
    ]);
    reveal_strlit("\n");
    reveal_strlit("# Environment");
    reveal_strlit("Working directory: ");
    reveal_strlit("# Environment\n\nWorking directory: ");
    reveal_strlit("Files: ");
    reveal_strlit("\nFiles: ");
    reveal_strlit("Git repository: ");
    reveal_strlit("\nGit repository: ");
    reveal_strlit("Platform: ");
    reveal_strlit("\nPlatform: ");
    reveal_strlit("Date: ");
    reveal_strlit("\nDate: ");
    assert("# Environment\n\nWorking directory: "@ =~= "# Environment"@ + "\n"@ + "\n"@
        + "Working directory: "@);
    assert("\nFiles: "@ =~= "\n"@ + "Files: "@);
    assert("\nGit repository: "@ =~= "\n"@ + "Git repository: "@);
    assert("\nPlatform: "@ =~= "\n"@ + "Platform: "@);
    assert("\nDate: "@ =~= "\n"@ + "Date: "@);
    assert(environment_text(dir, files, branch, os, date) =~= by_lines(g));
}

} // verus!
