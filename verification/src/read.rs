//! The `read` tool: a file, a page of numbered lines at a time, with where the
//! next page starts. The page is fixed and the model is told its size, so it
//! knows what it will get before it asks and never has to guess at a range: it
//! reads the next page, or starts from a line.
use serde_json::Value as Json;
use vstd::prelude::*;
use vstd::utf8::{encode_scalar, encode_utf8};

use crate::chat::json::{
    as_string, as_unsigned, fields, member, string_in, string_member, string_under, unsigned_in,
};
use crate::text::{
    chars, clip, clipped, digit, digits, fit, from_utf8_lossy, join3, lemma_encode_concat,
    lemma_fit, number_in, own, parse_number, push_decimal, readable, size, skip_space,
    skip_space_back, trim,
};

verus! {

/// Most lines in a page.
pub const PAGE: usize = 200;

/// Most bytes in a page: a page of long lines ends early, so that one page
/// can't take up much of the context.
pub const BYTES: usize = 16384;

/// Most bytes of a line shown; a longer line is cut there, with a mark.
pub const LINE: usize = 300;

/// The tool as the system prompt declares it.
pub const SIGNATURE: &'static str =
    r#"{"type": "function", "function": {"name": "read", "description": "Read a file, a page of up to 200 numbered lines (or 16 KB) at a time. The result says how many lines the file has and where the next page starts.", "parameters": {"type": "object", "properties": {"path": {"type": "string", "description": "The file to read."}, "start": {"type": "integer", "description": "The line to start from, counting from 1. The first line if left out."}}, "required": ["path"]}}}"#;

/// Where the first line of bytes ends: at its line break, or with the bytes.
pub open spec fn line_end(data: Seq<u8>) -> nat
    decreases data.len(),
{
    if data.len() == 0 || data[0] == 10 {
        0
    } else {
        1 + line_end(data.drop_first())
    }
}

/// A line ends within the bytes, and has no line break before its end.
proof fn lemma_line_end(data: Seq<u8>)
    ensures
        line_end(data) <= data.len(),
    decreases data.len(),
{
    if data.len() > 0 && data[0] != 10 {
        lemma_line_end(data.drop_first());
    }
}

/// What is behind the first line.
pub open spec fn behind_line(data: Seq<u8>) -> Seq<u8> {
    if line_end(data) < data.len() {
        data.skip(line_end(data) as int + 1)
    } else {
        Seq::empty()
    }
}

/// The lines of a file. A last line without a line break counts.
pub open spec fn lines_of(data: Seq<u8>) -> Seq<Seq<u8>>
    decreases data.len(),
{
    if data.len() == 0 {
        Seq::empty()
    } else {
        seq![data.take(line_end(data) as int)] + lines_of(behind_line(data))
    }
}

/// A line without the carriage return at its end.
pub open spec fn bare(line: Seq<u8>) -> Seq<u8> {
    if line.len() > 0 && line.last() == 13 {
        line.drop_last()
    } else {
        line
    }
}

/// A line as it is shown: behind its number and a tab.
pub open spec fn entry(number: nat, line: Seq<u8>) -> Seq<char> {
    digits(number) + "\t"@ + clipped(readable(bare(line)), LINE as nat) + "\n"@
}

/// Whether a line is cut for its length.
pub open spec fn is_long(line: Seq<u8>) -> bool {
    size(readable(bare(line))) > LINE
}

/// How many more lines a page shows, from a line on, behind `shown` lines that
/// take `bytes` bytes.
pub open spec fn taken(lines: Seq<Seq<u8>>, at: nat, shown: nat, bytes: nat) -> nat
    decreases lines.len() - at,
{
    if at >= lines.len() {
        0
    } else {
        let more = size(entry(at + 1, lines[at as int]));
        if shown == PAGE || (shown > 0 && bytes + more > BYTES) {
            0
        } else {
            1 + taken(lines, at + 1, shown + 1, bytes + more)
        }
    }
}

/// `n` lines from a line on, as they are shown.
pub open spec fn entries(lines: Seq<Seq<u8>>, at: nat, n: nat) -> Seq<char>
    decreases n,
{
    if n == 0 {
        Seq::empty()
    } else {
        entries(lines, at, (n - 1) as nat) + entry(at + n, lines[at + n - 1])
    }
}

/// How many of `n` lines from a line on are cut.
pub open spec fn cuts(lines: Seq<Seq<u8>>, at: nat, n: nat) -> nat
    decreases n,
{
    if n == 0 {
        0
    } else {
        cuts(lines, at, (n - 1) as nat) + if is_long(lines[at + n - 1]) {
            1nat
        } else {
            0nat
        }
    }
}

/// A word, or its plural if there is not one of it.
pub open spec fn plural_of(n: nat, word: Seq<char>) -> Seq<char> {
    if n == 1 {
        word
    } else {
        word + "s"@
    }
}

/// Where a page of `shown` lines from line `start` sits in a file of `total`
/// lines, and where the next page starts, but for the bracket at the end.
pub open spec fn place(path: Seq<char>, start: nat, shown: nat, total: nat) -> Seq<char> {
    if total == 0 {
        "["@ + path + " is empty"@
    } else if shown == 0 {
        "["@ + path + " has "@ + digits(total) + " "@ + plural_of(total, "line"@)
            + "; nothing from line "@ + digits(start)
    } else if start + shown - 1 < total {
        "[lines "@ + digits(start) + "–"@ + digits((start + shown - 1) as nat) + " of "@ + digits(
            total,
        ) + " in "@ + path + "; next: read "@ + path + " from line "@ + digits(start + shown)
    } else {
        "[lines "@ + digits(start) + "–"@ + digits((start + shown - 1) as nat) + " of "@ + digits(
            total,
        ) + " in "@ + path + "; end of file"@
    }
}

/// How many lines were cut, if any were.
pub open spec fn cut_note(n: nat) -> Seq<char> {
    if n == 0 {
        Seq::empty()
    } else {
        "; "@ + digits(n) + " "@ + plural_of(n, "line"@) + " longer than "@ + digits(LINE as nat)
            + " bytes cut"@
    }
}

/// The page of a file's lines from a line on.
pub open spec fn page_of(lines: Seq<Seq<u8>>, path: Seq<char>, start: nat) -> Seq<char> {
    let at = (start - 1) as nat;
    let n = taken(lines, at, 0, 0);
    entries(lines, at, n) + place(path, start, n, lines.len()) + cut_note(cuts(lines, at, n)) + "]"@
}

/// `word`, or its plural if `n` is not one.
pub fn plural(n: u64, word: &str) -> (s: String)
    ensures
        s@ == plural_of(n as nat, word@),
{
    let mut s = own(word);
    if n != 1 {
        s.append("s");
    }
    s
}

/// Where the line that starts at a position ends.
fn find_end(data: &[u8], from: usize) -> (end: usize)
    requires
        from <= data@.len(),
    ensures
        from <= end <= data@.len(),
        end - from == line_end(data@.skip(from as int)),
{
    let n: usize = data.len();
    let mut end: usize = from;
    while end < n && data[end] != 10
        invariant
            from <= end <= n == data@.len(),
            line_end(data@.skip(from as int)) == end - from + line_end(data@.skip(end as int)),
        decreases n - end,
    {
        proof {
            assert(data@.skip(end as int)[0] == data@[end as int]);
            assert(data@.skip(end as int).drop_first() =~= data@.skip(end + 1));
        }
        end = end + 1;
    }
    proof {
        if end < n {
            assert(data@.skip(end as int)[0] == data@[end as int]);
        }
    }
    end
}

/// Number of lines left from a position on. A last line without a newline
/// counts.
pub fn count(data: &[u8], from: usize) -> (lines: u64)
    requires
        from <= data@.len(),
    ensures
        lines == lines_of(data@.skip(from as int)).len(),
{
    let n: usize = data.len();
    let mut at: usize = from;
    let mut lines: u64 = 0;
    while at < n
        invariant
            from <= at <= n == data@.len(),
            lines + lines_of(data@.skip(at as int)).len() == lines_of(
                data@.skip(from as int),
            ).len(),
            lines <= at - from,
        decreases n - at,
    {
        let end: usize = find_end(data, at);
        proof {
            lemma_next_line(data@, at as int, end as int);
        }
        at = if end < n {
            end + 1
        } else {
            n
        };
        lines = lines + 1;
    }
    assert(data@.skip(n as int) =~= Seq::empty());
    lines
}

/// The lines from a position on are the one there and those behind it.
proof fn lemma_next_line(data: Seq<u8>, at: int, end: int)
    requires
        0 <= at < data.len(),
        at <= end <= data.len(),
        end - at == line_end(data.skip(at)),
    ensures
        lines_of(data.skip(at)) == seq![data.subrange(at, end)] + lines_of(
            data.skip(
                if end < data.len() {
                    end + 1
                } else {
                    data.len() as int
                },
            ),
        ),
        end == data.len() || data[end] == 10,
{
    let rest = data.skip(at);
    assert(rest.take(line_end(rest) as int) =~= data.subrange(at, end));
    let next = if end < data.len() {
        end + 1
    } else {
        data.len() as int
    };
    assert(behind_line(rest) =~= data.skip(next));
    lemma_at_break(rest);
    if end < data.len() {
        assert(rest[line_end(rest) as int] == data[end]);
    }
}

/// There are no more lines than bytes.
proof fn lemma_lines_len(data: Seq<u8>)
    ensures
        lines_of(data).len() <= data.len(),
    decreases data.len(),
{
    if data.len() > 0 {
        lemma_lines_len(behind_line(data));
    }
}

/// A line that ends before the bytes do ends at a line break.
proof fn lemma_at_break(data: Seq<u8>)
    ensures
        line_end(data) <= data.len(),
        line_end(data) < data.len() ==> data[line_end(data) as int] == 10,
    decreases data.len(),
{
    if data.len() > 0 && data[0] != 10 {
        lemma_at_break(data.drop_first());
    }
}

/// The entries of a line as they are written.
fn write_entry(number: u64, line: &[u8]) -> (r: (String, bool))
    ensures
        r.0@ == entry(number as nat, line@),
        r.1 == is_long(line@),
{
    let n: usize = line.len();
    let end: usize = if n > 0 && line[n - 1] == 13 {
        n - 1
    } else {
        n
    };
    let content = vstd::slice::slice_subrange(line, 0, end);
    assert(content@ =~= bare(line@));
    let text = from_utf8_lossy(content);
    let long = text.as_str().as_bytes().len() > LINE;
    let mut out = String::new();
    push_decimal(&mut out, number);
    out.append("\t");
    out.append(&clip(&text, LINE));
    out.append("\n");
    assert(Seq::<char>::empty() + digits(number as nat) =~= digits(number as nat));
    (out, long)
}

/// Where a page sits in its file, but for the bracket at the end.
fn write_place(path: &str, start: u64, shown: u64, total: u64) -> (out: String)
    requires
        start >= 1,
        shown > 0 ==> start + shown - 1 <= total,
    ensures
        out@ == place(path@, start as nat, shown as nat, total as nat),
{
    if total == 0 {
        return join3("[", path, " is empty");
    }
    if shown == 0 {
        let mut out = join3("[", path, " has ");
        push_decimal(&mut out, total);
        out.append(" ");
        out.append(&plural(total, "line"));
        out.append("; nothing from line ");
        push_decimal(&mut out, start);
        return out;
    }
    let end: u64 = start + (shown - 1);
    let mut out = own("[lines ");
    push_decimal(&mut out, start);
    out.append("–");
    push_decimal(&mut out, end);
    out.append(" of ");
    push_decimal(&mut out, total);
    out.append(" in ");
    out.append(path);
    if end < total {
        out.append("; next: read ");
        out.append(path);
        out.append(" from line ");
        push_decimal(&mut out, end + 1);
    } else {
        out.append("; end of file");
    }
    out
}

/// How many lines were cut, if any were.
fn write_cut_note(n: u64) -> (out: String)
    ensures
        out@ == cut_note(n as nat),
{
    if n == 0 {
        return String::new();
    }
    let mut out = own("; ");
    push_decimal(&mut out, n);
    out.append(" ");
    out.append(&plural(n, "line"));
    out.append(" longer than ");
    push_decimal(&mut out, LINE as u64);
    out.append(" bytes cut");
    out
}

/// The page of a file from line `start`: its lines, each after its number and
/// a tab, up to [`PAGE`] of them or [`BYTES`] in all, then a line of where the
/// page sits in the file and where the next page starts.
pub fn page(data: &[u8], path: &str, start: u64) -> (out: String)
    requires
        start >= 1,
    ensures
        out@ == page_of(lines_of(data@), path@, start as nat),
{
    let ghost all = lines_of(data@);
    let ghost first = (start - 1) as nat;
    let n: usize = data.len();
    let mut text = String::new();
    let mut at: usize = 0;
    // Lines read so far, shown in the page, and cut for length.
    let mut lines: u64 = 0;
    let mut shown: u64 = 0;
    let mut cut: u64 = 0;
    let mut done = false;
    proof {
        assert(data@.skip(0) =~= data@);
        assert(all.skip(0) =~= all);
        lemma_lines_len(data@);
    }
    while !done && at < n
        invariant
            at <= n == data@.len(),
            start >= 1,
            first == start - 1,
            all == lines_of(data@),
            all.len() <= n,
            !done ==> lines <= at && all.skip(lines as int) == lines_of(data@.skip(at as int)) && lines
                <= all.len(),
            shown == if lines > first && !done {
                (lines - first) as int
            } else {
                shown as int
            },
            shown > 0 ==> lines >= first + shown,
            lines <= first ==> shown == 0,
            cut <= shown,
            text@ == entries(all, first, shown as nat),
            cut == cuts(all, first, shown as nat),
            !done ==> taken(all, first, 0, 0) == shown + taken(
                all,
                if lines > first {
                    lines as nat
                } else {
                    first
                },
                shown as nat,
                size(text@),
            ),
            done ==> taken(all, first, 0, 0) == shown && lines == all.len(),
        decreases
            n - at + if done {
                0int
            } else {
                1int
            },
    {
        let end: usize = find_end(data, at);
        let next: usize = if end < n {
            end + 1
        } else {
            n
        };
        let ghost here = lines as int;
        proof {
            lemma_next_line(data@, at as int, end as int);
            assert(all.skip(here)[0] == data@.subrange(at as int, end as int));
            assert(all.skip(here).drop_first() =~= lines_of(data@.skip(next as int)));
            assert(all.skip(here).drop_first() =~= all.skip(here + 1));
        }
        lines = lines + 1;
        if lines >= start {
            let line = vstd::slice::slice_subrange(data, at, end);
            let (entry, long) = write_entry(lines, line);
            proof {
                assert(line@ == all[here]);
                lemma_encode_concat(text@, entry@);
            }
            if shown == PAGE as u64 || (shown > 0 && text.as_str().as_bytes().len() as u128
                + entry.as_str().as_bytes().len() as u128 > BYTES as u128) {
                // The file goes on past the page: count the rest.
                let rest: u64 = count(data, next);
                lines = lines + rest;
                done = true;
            } else {
                text.append(&entry);
                shown = shown + 1;
                if long {
                    cut = cut + 1;
                }
            }
        }
        at = next;
    }
    proof {
        if !done {
            assert(data@.skip(at as int) =~= Seq::empty());
            assert(all.skip(lines as int).len() == 0);
        }
    }
    text.append(&write_place(path, start, shown, lines));
    text.append(&write_cut_note(cut));
    text.append("]");
    text
}

/// The `start` argument as a line number.
pub open spec fn start_of(arguments: Json) -> Option<u64> {
    match fields(arguments) {
        Some(f) => if f.contains_key("start"@) {
            let v = f["start"@];
            match unsigned_in(v) {
                Some(n) => Some(n),
                None => match string_in(v) {
                    Some(s) => number_in(trim(s)),
                    None => None,
                },
            }
        } else {
            None
        },
        None => None,
    }
}

/// Whether there is a `start` argument.
pub open spec fn starts_somewhere(arguments: Json) -> bool {
    fields(arguments) matches Some(f) && f.contains_key("start"@)
}

/// The `start` argument as a line number, written as a number or, as the
/// `<function=…>` call format writes every argument, as a string.
pub fn start(arguments: &Json) -> (r: Option<u64>)
    ensures
        r == start_of(*arguments),
{
    let v = match member(arguments, "start") {
        Some(v) => v,
        None => {
            return None;
        },
    };
    if let Some(n) = as_unsigned(v) {
        return Some(n);
    }
    match as_string(v) {
        Some(s) => parse_trimmed(s),
        None => None,
    }
}

/// The number that a text is written as, but for white space round it.
pub fn parse_trimmed(s: &str) -> (r: Option<u64>)
    ensures
        r == number_in(trim(s@)),
{
    let list = chars(s);
    let n: usize = list.len();
    let from: usize = skip_space(list.as_slice(), 0, n);
    let to: usize = skip_space_back(list.as_slice(), from, n);
    assert(list@.subrange(0, n as int) =~= s@);
    parse_number(vstd::slice::slice_subrange(list.as_slice(), from, to))
}

/// What a call of the tool asks for.
#[derive(Debug, PartialEq, Eq)]
pub enum Request {
    /// Nothing that can be done: what the model should see.
    Refused(String),
    /// The page of a file from a line on.
    Read { path: String, start: u64 },
}

/// Reads what the arguments ask for.
pub fn request(arguments: &Json) -> (r: Request)
    ensures
        match string_under(*arguments, "path"@) {
            None => r matches Request::Refused(s) && s@ == "error: read needs a 'path' string"@,
            Some(p) => if !starts_somewhere(*arguments) {
                r matches Request::Read { path, start } && path@ == p && start == 1
            } else {
                match start_of(*arguments) {
                    None => r matches Request::Refused(s) && s@
                        == "error: 'start' is a line number"@,
                    Some(n) => r matches Request::Read { path, start } && path@ == p && start
                        == if n < 1 {
                        1
                    } else {
                        n
                    },
                }
            },
        },
{
    let path = match string_member(arguments, "path") {
        Some(path) => path,
        None => {
            return Request::Refused(own("error: read needs a 'path' string"));
        },
    };
    let from: u64 = match member(arguments, "start") {
        None => 1,
        Some(_) => match start(arguments) {
            Some(n) => if n < 1 {
                1
            } else {
                n
            },
            None => {
                return Request::Refused(own("error: 'start' is a line number"));
            },
        },
    };
    Request::Read { path: own(path), start: from }
}

/// What became of a file that was to be read.
#[derive(Debug, PartialEq, Eq)]
pub enum Opened {
    /// It could not be opened, for a reason in words.
    Closed(String),
    Directory,
    /// It could not be read to its end, for a reason in words.
    Broken(String),
    Read(Vec<u8>),
}

/// What the model should see of a file.
pub open spec fn seen(path: Seq<char>, start: nat, file: Opened) -> Seq<char> {
    match file {
        Opened::Closed(e) => "error: cannot read "@ + path + ": "@ + e@,
        Opened::Directory => "error: "@ + path + " is a directory; list it with ls"@,
        Opened::Broken(e) => "error: reading "@ + path + ": "@ + e@,
        Opened::Read(data) => page_of(lines_of(data@), path, start),
    }
}

/// What the model should see of a file from a line on.
pub fn show(path: &str, start: u64, file: &Opened) -> (out: String)
    requires
        start >= 1,
    ensures
        out@ == seen(path@, start as nat, *file),
{
    match file {
        Opened::Closed(e) => {
            let mut out = join3("error: cannot read ", path, ": ");
            out.append(e.as_str());
            out
        },
        Opened::Directory => join3("error: ", path, " is a directory; list it with ls"),
        Opened::Broken(e) => {
            let mut out = join3("error: reading ", path, ": ");
            out.append(e.as_str());
            out
        },
        Opened::Read(data) => page(data.as_slice(), path, start),
    }
}

/// A page shows something wherever there is a line to start from, and nothing
/// past the file.
pub proof fn law_page_moves_on(lines: Seq<Seq<u8>>, at: nat)
    ensures
        at < lines.len() ==> 1 <= taken(lines, at, 0, 0) <= lines.len() - at,
        at >= lines.len() ==> taken(lines, at, 0, 0) == 0,
{
    lemma_taken_bound(lines, at, 0, 0);
}

/// A page does not reach past the file, nor past the most lines of a page.
proof fn lemma_taken_bound(lines: Seq<Seq<u8>>, at: nat, shown: nat, bytes: nat)
    requires
        shown <= PAGE,
    ensures
        at <= lines.len() ==> taken(lines, at, shown, bytes) <= lines.len() - at,
        taken(lines, at, shown, bytes) + shown <= PAGE,
    decreases lines.len() - at,
{
    if at < lines.len() && shown < PAGE {
        let more = size(entry(at + 1, lines[at as int]));
        lemma_taken_bound(lines, at + 1, shown + 1, bytes + more);
    }
}

/// The lines that are seen by reading a page, and then the next one it names,
/// as long as there is one.
pub open spec fn followed(lines: Seq<Seq<u8>>, at: nat) -> Seq<nat>
    decreases lines.len() - at,
{
    if at >= lines.len() {
        Seq::empty()
    } else {
        let n = taken(lines, at, 0, 0);
        proof {
            law_page_moves_on(lines, at);
        }
        Seq::new(n, |i: int| (at + i) as nat) + followed(lines, at + n)
    }
}

/// Following the cursor covers the file exactly once.
pub proof fn law_cursor_covers(lines: Seq<Seq<u8>>, at: nat)
    requires
        at <= lines.len(),
    ensures
        followed(lines, at) == Seq::new((lines.len() - at) as nat, |i: int| (at + i) as nat),
    decreases lines.len() - at,
{
    if at < lines.len() {
        law_page_moves_on(lines, at);
        law_cursor_covers(lines, at + taken(lines, at, 0, 0));
    }
    assert(followed(lines, at) =~= Seq::new((lines.len() - at) as nat, |i: int| (at + i) as nat));
}

/// How many digits a number has at most.
proof fn lemma_digits_len(n: nat, k: nat)
    requires
        k >= 1,
        n < tens(k),
    ensures
        digits(n).len() <= k,
    decreases k,
{
    if n >= 10 {
        reveal_with_fuel(tens, 3);
        lemma_digits_len(n / 10, (k - 1) as nat);
    }
}

/// Ten to the `k`.
spec fn tens(k: nat) -> nat
    decreases k,
{
    if k == 0 {
        1
    } else {
        10 * tens((k - 1) as nat)
    }
}

/// Digits and the other characters that pages are written in take one byte.
proof fn lemma_digits_size(n: nat)
    ensures
        size(digits(n)) == digits(n).len(),
    decreases n,
{
    reveal_with_fuel(encode_utf8, 2);
    if n < 10 {
        assert(digits(n).drop_first() =~= Seq::empty());
        assert(encode_scalar(digit(n) as u32).len() == 1);
    } else {
        lemma_digits_size(n / 10);
        let last = seq![digit(n % 10)];
        assert(digits(n) =~= digits(n / 10) + last);
        lemma_encode_concat(digits(n / 10), last);
        assert(last.drop_first() =~= Seq::empty());
        assert(encode_scalar(digit(n % 10) as u32).len() == 1);
    }
}

/// A line takes no more than a page has room for.
proof fn lemma_entry_size(number: nat, line: Seq<u8>)
    requires
        number <= u64::MAX,
    ensures
        size(entry(number, line)) <= 325,
{
    reveal_with_fuel(tens, 21);
    reveal_with_fuel(encode_utf8, 2);
    reveal_strlit("\t");
    reveal_strlit("\n");
    lemma_digits_len(number, 20);
    lemma_digits_size(number);
    let text = readable(bare(line));
    let shown = clipped(text, LINE as nat);
    lemma_fit(text, LINE as nat);
    if size(text) > LINE {
        let kept = text.take(fit(text, LINE as nat) as int);
        let dots = seq!['\u{2026}'];
        assert(shown =~= kept + dots);
        lemma_encode_concat(kept, dots);
        assert(dots.drop_first() =~= Seq::empty());
        assert(size(dots) <= 4);
    }
    assert("\t"@.drop_first() =~= Seq::empty());
    assert("\n"@.drop_first() =~= Seq::empty());
    assert(size("\t"@) == 1);
    assert(size("\n"@) == 1);
    lemma_encode_concat(digits(number) + "\t"@ + shown, "\n"@);
    lemma_encode_concat(digits(number) + "\t"@, shown);
    lemma_encode_concat(digits(number), "\t"@);
}

/// The lines of a page take no more than it has room for.
pub proof fn law_page_fits(lines: Seq<Seq<u8>>, at: nat)
    requires
        lines.len() <= u64::MAX,
    ensures
        size(entries(lines, at, taken(lines, at, 0, 0))) <= BYTES,
        taken(lines, at, 0, 0) <= PAGE,
{
    assert(size(entries(lines, at, 0)) == 0);
    lemma_page_fits(lines, at, 0);
    lemma_taken_bound(lines, at, 0, 0);
}

/// The lines of a page take no more than it has room for, from some of them
/// on.
proof fn lemma_page_fits(lines: Seq<Seq<u8>>, at: nat, shown: nat)
    requires
        lines.len() <= u64::MAX,
        size(entries(lines, at, shown)) <= BYTES,
        shown <= PAGE,
    ensures
        size(
            entries(
                lines,
                at,
                shown + taken(lines, at + shown, shown, size(entries(lines, at, shown))),
            ),
        ) <= BYTES,
    decreases lines.len() - at - shown,
{
    let bytes = size(entries(lines, at, shown));
    if at + shown < lines.len() {
        let line = entry(at + shown + 1, lines[(at + shown) as int]);
        lemma_entry_size(at + shown + 1, lines[(at + shown) as int]);
        lemma_encode_concat(entries(lines, at, shown), line);
        if !(shown == PAGE || (shown > 0 && bytes + size(line) > BYTES)) {
            assert(entries(lines, at, shown + 1) == entries(lines, at, shown) + line);
            lemma_page_fits(lines, at, shown + 1);
        }
    }
}

} // verus!
