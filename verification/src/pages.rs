//! What the pages of a file show of its text.
use serde_json::Value as Json;
use vstd::prelude::*;
use vstd::utf8::{
    char_u32_cast, encode_scalar, encode_utf8, encode_utf8_decode_utf8, encode_utf8_valid_utf8,
};

use crate::chat::json::{fields, string_in, unsigned_in};
use crate::read::{
    bare, behind_line, cut_note, cuts, entries, entry, line_end, lines_of, page_of, place, start_of,
    taken, BYTES, LINE, PAGE,
};
use crate::text::{
    blank, clipped, concat, digits, fit, law_decimal_reads_back, law_trim_keeps_the_middle,
    lemma_encode_concat, lemma_fit, lemma_next_does_not_fit, readable, size, space, trim,
};

verus! {

/// A line of a text file: its text, and whether a carriage return stands before
/// its line break.
pub ghost struct Row {
    pub text: Seq<char>,
    pub returned: bool,
}

impl Row {
    /// Whether the text is that of one line: there is no line break in it, and
    /// a carriage return at its end is the one that is told apart.
    pub open spec fn plain(self) -> bool {
        &&& !self.text.contains('\n')
        &&& self.text.len() > 0 && self.text.last() == '\r' ==> self.returned
    }

    /// The line as the file has it, but for the line break.
    pub open spec fn bytes(self) -> Seq<u8> {
        encode_utf8(
            if self.returned {
                self.text.push('\r')
            } else {
                self.text
            },
        )
    }
}

/// A text file: its lines, each with a line break behind it, but the last one
/// only where the file ends in one.
pub open spec fn file_of(rows: Seq<Row>, ended: bool) -> Seq<u8>
    decreases rows.len(),
{
    if rows.len() == 0 {
        Seq::empty()
    } else if rows.len() == 1 && !ended {
        rows[0].bytes()
    } else {
        rows[0].bytes() + seq![10u8] + file_of(rows.drop_first(), ended)
    }
}

/// Whether a text is shown as another: whole where it takes no more than 300
/// bytes; else as many characters of it as fit, and an ellipsis.
pub open spec fn abridged(text: Seq<char>, shown: Seq<char>) -> bool {
    if encode_utf8(text).len() <= 300 {
        shown == text
    } else {
        exists|k: int|
            0 <= k < text.len() && #[trigger] text.take(k).push('\u{2026}') == shown && encode_utf8(
                text.take(k),
            ).len() <= 300 && encode_utf8(text.take(k + 1)).len() > 300
    }
}

/// Lines behind their numbers, which count from `start` on.
pub open spec fn numbered(shown: Seq<Seq<char>>, start: nat) -> Seq<char> {
    concat(Seq::new(shown.len(), |j: int| digits((start + j) as nat) + seq!['\t'] + shown[j] + seq!['\n']))
}

/// How many of some lines are too long to be shown whole.
pub open spec fn too_long(rows: Seq<Row>) -> nat
    decreases rows.len(),
{
    if rows.len() == 0 {
        0
    } else {
        too_long(rows.drop_last()) + if encode_utf8(rows.last().text).len() > 300 {
            1nat
        } else {
            0nat
        }
    }
}

/// A byte of a character below `0x80` is the character.
proof fn lemma_low_byte(c: char, i: int)
    requires
        0 <= i < encode_scalar(c as u32).len(),
        encode_scalar(c as u32)[i] < 0x80,
    ensures
        c as u32 == encode_scalar(c as u32)[i] as u32,
        encode_scalar(c as u32).len() == 1,
{
    let s = c as u32;
    assert((0xC0u8 | ((s >> 6) & 0x1F) as u8) >= 0x80) by (bit_vector);
    assert((0xE0u8 | ((s >> 12) & 0x0F) as u8) >= 0x80) by (bit_vector);
    assert((0xF0u8 | ((s >> 18) & 0x07) as u8) >= 0x80) by (bit_vector);
    assert((0x80u8 | (s & 0x3F) as u8) >= 0x80) by (bit_vector);
    assert((0x80u8 | ((s >> 6) & 0x3F) as u8) >= 0x80) by (bit_vector);
    assert((0x80u8 | ((s >> 12) & 0x3F) as u8) >= 0x80) by (bit_vector);
    assert(s < 0x80 ==> (s & 0x7F) as u8 as u32 == s) by (bit_vector);
}

/// A byte below `0x80` in what a text is written in is one of its characters.
proof fn lemma_low_bytes(text: Seq<char>, i: int)
    requires
        0 <= i < encode_utf8(text).len(),
        encode_utf8(text)[i] < 0x80,
    ensures
        exists|j: int| 0 <= j < text.len() && #[trigger] text[j] as u32 == encode_utf8(text)[i] as u32,
        i == encode_utf8(text).len() - 1 ==> text.last() as u32 == encode_utf8(text)[i] as u32,
    decreases text.len(),
{
    let one = encode_scalar(text[0] as u32);
    let rest = text.drop_first();
    if i < one.len() {
        lemma_low_byte(text[0], i);
        if i == encode_utf8(text).len() - 1 {
            if rest.len() > 0 {
                assert(encode_scalar(rest[0] as u32).len() > 0);
            }
        }
    } else {
        lemma_low_bytes(rest, i - one.len());
        let j = choose|j: int|
            0 <= j < rest.len() && #[trigger] rest[j] as u32 == encode_utf8(rest)[i - one.len()] as u32;
        assert(text[j + 1] == rest[j]);
        assert(rest.last() == text.last());
    }
}

/// A line of text has no line break in what it is written in, and what it is
/// without its carriage return is its text.
proof fn lemma_row(row: Row)
    requires
        row.plain(),
    ensures
        !row.bytes().contains(10u8),
        bare(row.bytes()) == encode_utf8(row.text),
        readable(bare(row.bytes())) == row.text,
{
    let text = if row.returned {
        row.text.push('\r')
    } else {
        row.text
    };
    let bytes = row.bytes();
    if bytes.contains(10u8) {
        let i = choose|i: int| 0 <= i < bytes.len() && bytes[i] == 10u8;
        lemma_low_bytes(text, i);
        let j = choose|j: int| 0 <= j < text.len() && #[trigger] text[j] as u32 == 10;
        char_u32_cast(text[j], 10);
        assert(text[j] == '\n');
        assert(row.text[j] == '\n');
    }
    if row.returned {
        let cr = seq!['\r'];
        assert(text =~= row.text + cr);
        lemma_encode_concat(row.text, cr);
        reveal_with_fuel(encode_utf8, 2);
        assert(cr.drop_first() =~= Seq::empty());
        assert((13u32 & 0x7F) as u8 == 13u8) by (bit_vector);
        assert(encode_scalar('\r' as u32) =~= seq![13u8]);
        assert(encode_utf8(cr) =~= seq![13u8]);
        assert(bytes.drop_last() =~= encode_utf8(row.text));
    } else if bytes.len() > 0 && bytes.last() == 13 {
        lemma_low_bytes(text, bytes.len() - 1);
        char_u32_cast(text.last(), 13);
        assert(text.last() == '\r');
    }
    encode_utf8_valid_utf8(row.text);
    encode_utf8_decode_utf8(row.text);
}

/// Where a line ends that has its line break behind it, or nothing.
proof fn lemma_end_of(line: Seq<u8>, rest: Seq<u8>)
    requires
        !line.contains(10u8),
        rest.len() > 0 ==> rest[0] == 10,
    ensures
        line_end(line + rest) == line.len(),
    decreases line.len(),
{
    let all = line + rest;
    if line.len() > 0 {
        assert(line[0] != 10) by {
            assert(line.contains(line[0]));
        }
        assert(all.drop_first() =~= line.drop_first() + rest);
        assert forall|b: u8| line.drop_first().contains(b) implies line.contains(b) by {
            let i = choose|i: int| 0 <= i < line.drop_first().len() && line.drop_first()[i] == b;
            assert(line[i + 1] == b);
        }
        lemma_end_of(line.drop_first(), rest);
    }
}

/// The lines of a text file.
proof fn lemma_lines(rows: Seq<Row>, ended: bool)
    requires
        forall|i: int| 0 <= i < rows.len() ==> (#[trigger] rows[i]).plain(),
        rows.len() > 0 && !ended ==> rows.last().bytes().len() > 0,
    ensures
        lines_of(file_of(rows, ended)) == Seq::new(rows.len(), |i: int| rows[i].bytes()),
    decreases rows.len(),
{
    let lines = Seq::new(rows.len(), |i: int| rows[i].bytes());
    let data = file_of(rows, ended);
    if rows.len() == 0 {
        assert(lines_of(data) =~= lines);
    } else {
        let first = rows[0].bytes();
        lemma_row(rows[0]);
        let more = rows.drop_first();
        if rows.len() == 1 && !ended {
            assert(data =~= first + Seq::empty());
            lemma_end_of(first, Seq::empty());
            assert(lines_of(behind_line(data)) =~= Seq::empty());
            assert(data.take(line_end(data) as int) =~= first);
            assert(lines_of(data) =~= lines);
        } else {
            let rest = file_of(more, ended);
            assert(data =~= first + (seq![10u8] + rest));
            lemma_end_of(first, seq![10u8] + rest);
            assert(behind_line(data) =~= rest);
            assert(data.take(line_end(data) as int) =~= first);
            lemma_lines(more, ended);
            assert(lines_of(data) =~= lines);
        }
    }
}

/// What a line is cut down to.
proof fn lemma_abridged(text: Seq<char>)
    ensures
        abridged(text, clipped(text, LINE as nat)),
{
    lemma_fit(text, LINE as nat);
    if size(text) > LINE {
        let k = fit(text, LINE as nat) as int;
        lemma_next_does_not_fit(text, LINE as nat);
        assert(text.take(k).push('\u{2026}') == clipped(text, LINE as nat));
    }
}

/// The lines that are shown, line by line.
proof fn lemma_entries(rows: Seq<Row>, lines: Seq<Seq<u8>>, at: nat, n: nat)
    requires
        forall|i: int| 0 <= i < rows.len() ==> (#[trigger] rows[i]).plain(),
        lines == Seq::new(rows.len(), |i: int| rows[i].bytes()),
        at + n <= rows.len(),
    ensures
        entries(lines, at, n) == numbered(
            Seq::new(n, |j: int| clipped(rows[at + j].text, LINE as nat)),
            at + 1,
        ),
        cuts(lines, at, n) == too_long(rows.subrange(at as int, (at + n) as int)),
    decreases n,
{
    let shown = Seq::new(n, |j: int| clipped(rows[at + j].text, LINE as nat));
    let parts = Seq::new(
        n,
        |j: int| digits((at + 1 + j) as nat) + seq!['\t'] + shown[j] + seq!['\n'],
    );
    if n == 0 {
        assert(numbered(shown, at + 1) =~= Seq::empty());
    } else {
        let m = (n - 1) as nat;
        lemma_entries(rows, lines, at, m);
        lemma_row(rows[at as int + m]);
        let before = Seq::new(m, |j: int| clipped(rows[at + j].text, LINE as nat));
        reveal_strlit("\t");
        reveal_strlit("\n");
        assert("\t"@ =~= seq!['\t']);
        assert("\n"@ =~= seq!['\n']);
        assert(parts.drop_last() =~= Seq::new(
            m,
            |j: int| digits((at + 1 + j) as nat) + seq!['\t'] + before[j] + seq!['\n'],
        ));
        assert(numbered(shown, at + 1) == concat(parts)) by {
            assert(parts =~= Seq::new(
                shown.len(),
                |j: int| digits((at + 1 + j) as nat) + seq!['\t'] + shown[j] + seq!['\n'],
            ));
        }
        assert(parts.last() == entry(at + n, lines[at + n - 1]));
        let some = rows.subrange(at as int, (at + n) as int);
        assert(some.drop_last() =~= rows.subrange(at as int, (at + m) as int));
        assert(some.last() == rows[at as int + m]);
    }
}

/// A page ends where there is nothing more to show, or no more room.
proof fn lemma_taken_all(lines: Seq<Seq<u8>>, at: nat, shown: nat)
    requires
        shown <= PAGE,
        at + shown <= lines.len(),
    ensures
        ({
            let n = shown + taken(lines, at + shown, shown, size(entries(lines, at, shown)));
            at + n < lines.len() ==> n == PAGE || (n > 0 && size(entries(lines, at, n + 1)) > BYTES)
        }),
    decreases lines.len() - at - shown,
{
    let bytes = size(entries(lines, at, shown));
    if at + shown < lines.len() {
        let line = entry(at + shown + 1, lines[(at + shown) as int]);
        assert(entries(lines, at, shown + 1) == entries(lines, at, shown) + line);
        lemma_encode_concat(entries(lines, at, shown), line);
        if !(shown == PAGE || (shown > 0 && bytes + size(line) > BYTES)) {
            lemma_taken_all(lines, at, shown + 1);
        }
    }
}

/// A page shows a text file as it is: its lines from `start` on, in order, each
/// behind its number and a tab, character for character, or as much of it as
/// is shown of a long line; as many of them as there are, up to 200, and up to
/// 16384 bytes, but at least one. Behind them it says which lines they are, of
/// how many, and which line comes next.
pub proof fn law_page_shows_the_file(
    rows: Seq<Row>,
    ended: bool,
    path: Seq<char>,
    start: nat,
) -> (shown: Seq<Seq<char>>)
    requires
        forall|i: int| 0 <= i < rows.len() ==> (#[trigger] rows[i]).plain(),
        rows.len() > 0 && !ended ==> rows.last().bytes().len() > 0,
        1 <= start <= rows.len() <= u64::MAX,
    ensures
        ({
            let n = shown.len();
            let end = (start + n - 1) as nat;
            let long = too_long(rows.subrange(start - 1, end as int));
            &&& 1 <= n <= 200
            &&& end <= rows.len()
            &&& forall|j: int| 0 <= j < n ==> abridged(rows[start - 1 + j].text, #[trigger] shown[j])
            &&& encode_utf8(numbered(shown, start)).len() <= 16384
            &&& end < rows.len() && n < 200 ==> forall|next: Seq<char>|
                abridged(rows[end as int].text, next) ==> encode_utf8(
                    #[trigger] numbered(shown.push(next), start),
                ).len() > 16384
            &&& page_of(lines_of(file_of(rows, ended)), path, start) == numbered(shown, start)
                + "[lines "@ + digits(start) + "–"@ + digits(end) + " of "@ + digits(rows.len())
                + " in "@ + path + (if end < rows.len() {
                "; next: read "@ + path + " from line "@ + digits(end + 1)
            } else {
                "; end of file"@
            }) + (if long == 0 {
                Seq::empty()
            } else if long == 1 {
                "; 1 line longer than 300 bytes cut"@
            } else {
                "; "@ + digits(long) + " lines longer than 300 bytes cut"@
            }) + "]"@
        }),
{
    let lines = lines_of(file_of(rows, ended));
    let at = (start - 1) as nat;
    lemma_lines(rows, ended);
    let n = taken(lines, at, 0, 0);
    crate::read::law_page_moves_on(lines, at);
    crate::read::law_page_fits(lines, at);
    assert(size(entries(lines, at, 0)) == 0);
    lemma_taken_all(lines, at, 0);
    lemma_entries(rows, lines, at, n);
    let shown = Seq::new(n, |j: int| clipped(rows[at + j].text, LINE as nat));
    assert forall|j: int| 0 <= j < n implies abridged(
        rows[start - 1 + j].text,
        #[trigger] shown[j],
    ) by {
        lemma_abridged(rows[at + j].text);
    }
    let end = (start + n - 1) as nat;
    if end < rows.len() && n < 200 {
        lemma_entries(rows, lines, at, n + 1);
        let more = Seq::new(n + 1, |j: int| clipped(rows[at + j].text, LINE as nat));
        lemma_abridged(rows[end as int].text);
        assert forall|next: Seq<char>| abridged(rows[end as int].text, next) implies encode_utf8(
            #[trigger] numbered(shown.push(next), start),
        ).len() > 16384 by {
            lemma_abridged_one(rows[end as int].text, next, clipped(rows[end as int].text, LINE as nat));
            assert(shown.push(next) =~= more);
        }
    }
    let long = too_long(rows.subrange(start - 1, end as int));
    lemma_note(long);
    lemma_place(numbered(shown, start), path, start, n, rows.len());
    shown
}

/// Texts in a row are the same however they are taken together.
proof fn lemma_row_of(a: Seq<char>, b: Seq<char>, c: Seq<char>)
    ensures
        a + (b + c) == a + b + c,
{
    assert(a + (b + c) =~= a + b + c);
}

/// Where a page sits, behind what it shows.
proof fn lemma_place(e: Seq<char>, path: Seq<char>, start: nat, n: nat, total: nat)
    requires
        1 <= n,
        1 <= start,
        start + n - 1 <= total,
    ensures
        ({
            let end = (start + n - 1) as nat;
            e + place(path, start, n, total) == e + "[lines "@ + digits(start) + "–"@ + digits(end)
                + " of "@ + digits(total) + " in "@ + path + (if end < total {
                "; next: read "@ + path + " from line "@ + digits(end + 1)
            } else {
                "; end of file"@
            })
        }),
{
    let end = (start + n - 1) as nat;
    let a = "[lines "@;
    let b = a + digits(start);
    let c = b + "–"@;
    let d = c + digits(end);
    let f = d + " of "@;
    let g = f + digits(total);
    let h = g + " in "@;
    let i = h + path;
    lemma_row_of(e, a, digits(start));
    lemma_row_of(e, b, "–"@);
    lemma_row_of(e, c, digits(end));
    lemma_row_of(e, d, " of "@);
    lemma_row_of(e, f, digits(total));
    lemma_row_of(e, g, " in "@);
    lemma_row_of(e, h, path);
    if end < total {
        let x = "; next: read "@;
        let y = x + path;
        let z = y + " from line "@;
        lemma_row_of(i, x, path);
        lemma_row_of(i, y, " from line "@);
        lemma_row_of(i, z, digits(end + 1));
        lemma_row_of(e, i, z + digits(end + 1));
    } else {
        lemma_row_of(e, i, "; end of file"@);
    }
}

/// What a text is shown as is one thing.
proof fn lemma_abridged_one(text: Seq<char>, a: Seq<char>, b: Seq<char>)
    requires
        abridged(text, a),
        abridged(text, b),
    ensures
        a == b,
{
    if encode_utf8(text).len() > 300 {
        let j = choose|k: int|
            0 <= k < text.len() && #[trigger] text.take(k).push('\u{2026}') == a && encode_utf8(
                text.take(k),
            ).len() <= 300 && encode_utf8(text.take(k + 1)).len() > 300;
        let k = choose|k: int|
            0 <= k < text.len() && #[trigger] text.take(k).push('\u{2026}') == b && encode_utf8(
                text.take(k),
            ).len() <= 300 && encode_utf8(text.take(k + 1)).len() > 300;
        if j < k {
            lemma_part_is_shorter(text, j + 1, k);
        } else if k < j {
            lemma_part_is_shorter(text, k + 1, j);
        }
    }
}

/// Fewer characters take no more bytes.
proof fn lemma_part_is_shorter(text: Seq<char>, j: int, k: int)
    requires
        0 <= j <= k <= text.len(),
    ensures
        encode_utf8(text.take(j)).len() <= encode_utf8(text.take(k)).len(),
{
    assert(text.take(k) =~= text.take(j) + text.subrange(j, k));
    lemma_encode_concat(text.take(j), text.subrange(j, k));
}

/// What is said of lines that were cut.
proof fn lemma_note(n: nat)
    ensures
        cut_note(n) == if n == 0 {
            Seq::empty()
        } else if n == 1 {
            "; 1 line longer than 300 bytes cut"@
        } else {
            "; "@ + digits(n) + " lines longer than 300 bytes cut"@
        },
{
    reveal_with_fuel(digits, 4);
    reveal_strlit("; ");
    reveal_strlit(" ");
    reveal_strlit("line");
    reveal_strlit("s");
    reveal_strlit(" longer than ");
    reveal_strlit(" bytes cut");
    reveal_strlit("; 1 line longer than 300 bytes cut");
    reveal_strlit(" lines longer than 300 bytes cut");
    assert(digits(300) =~= seq!['3', '0', '0']);
    if n == 1 {
        assert(digits(1) =~= seq!['1']);
        assert(cut_note(n) =~= "; 1 line longer than 300 bytes cut"@);
    } else if n > 1 {
        let d = digits(n);
        assert(cut_note(n) =~= "; "@ + d + " lines longer than 300 bytes cut"@);
    }
}

/// Of an empty file there is nothing to show, nor past the end of one: what is
/// said then is that, and how many lines it has.
pub proof fn law_nothing_past_the_file(rows: Seq<Row>, ended: bool, path: Seq<char>, start: nat)
    requires
        forall|i: int| 0 <= i < rows.len() ==> (#[trigger] rows[i]).plain(),
        rows.len() > 0 && !ended ==> rows.last().bytes().len() > 0,
        rows.len() < start,
    ensures
        page_of(lines_of(file_of(rows, ended)), path, start) == if rows.len() == 0 {
            "["@ + path + " is empty]"@
        } else if rows.len() == 1 {
            "["@ + path + " has 1 line; nothing from line "@ + digits(start) + "]"@
        } else {
            "["@ + path + " has "@ + digits(rows.len()) + " lines; nothing from line "@ + digits(start)
                + "]"@
        },
{
    let lines = lines_of(file_of(rows, ended));
    lemma_lines(rows, ended);
    reveal_strlit(" is empty");
    reveal_strlit(" is empty]");
    reveal_strlit("]");
    reveal_strlit(" ");
    reveal_strlit("line");
    reveal_strlit("s");
    reveal_strlit(" has ");
    reveal_strlit("; nothing from line ");
    reveal_strlit(" has 1 line; nothing from line ");
    reveal_strlit(" lines; nothing from line ");
    let page = page_of(lines, path, start);
    if rows.len() == 0 {
        assert(page =~= "["@ + path + " is empty]"@);
    } else if rows.len() == 1 {
        reveal_with_fuel(digits, 2);
        assert(digits(1) =~= seq!['1']);
        assert(page =~= "["@ + path + " has 1 line; nothing from line "@ + digits(start) + "]"@);
    } else {
        let d = digits(rows.len());
        assert(page =~= "["@ + path + " has "@ + d + " lines; nothing from line "@ + digits(start)
            + "]"@);
    }
}

/// Where white space stands round a text that has none at its ends, what is
/// left without it is the text.
proof fn lemma_trimmed(a: Seq<char>, s: Seq<char>, b: Seq<char>)
    requires
        blank(a),
        blank(b),
        s.len() > 0,
        !space(s[0]),
        !space(s.last()),
    ensures
        trim(a + s + b) == s,
{
    let all = a + s + b;
    let (x, y) = law_trim_keeps_the_middle(all);
    let t = trim(all);
    assert(all[a.len() as int] == s[0]);
    assert(all[a.len() + s.len() - 1] == s.last());
    assert(x.len() <= a.len()) by {
        if x.len() > a.len() {
            assert(x[a.len() as int] == all[a.len() as int]);
        }
    }
    assert(y.len() <= b.len()) by {
        if y.len() > b.len() {
            let i = a.len() + s.len() - 1 - x.len() - t.len();
            assert(y[i] == all[a.len() + s.len() - 1]);
        }
    }
    assert(t.len() > 0);
    assert(t[0] == all[x.len() as int]);
    assert(t.last() == all[x.len() + t.len() - 1]);
    if x.len() < a.len() {
        assert(all[x.len() as int] == a[x.len() as int]);
    }
    if y.len() < b.len() {
        assert(all[x.len() + t.len() - 1] == b[b.len() - y.len() - 1]);
    }
    assert(x.len() == a.len() && y.len() == b.len() && t.len() == s.len());
    assert forall|i: int| 0 <= i < s.len() implies t[i] == s[i] by {
        assert((x + t + y)[x.len() + i] == t[i]);
        assert((a + s + b)[a.len() + i] == s[i]);
    }
    assert(t =~= s);
}

/// The line to start from is the number that the argument is, or the number
/// that its text says in decimal, whatever white space is round it; what is
/// neither a number nor a text names no line.
pub proof fn law_start_is_read(
    arguments: Json,
    members: Map<Seq<char>, Json>,
    n: u64,
    a: Seq<char>,
    b: Seq<char>,
)
    requires
        fields(arguments) == Some(members),
        members.contains_key("start"@),
        blank(a),
        blank(b),
    ensures
        unsigned_in(members["start"@]) == Some(n) ==> start_of(arguments) == Some(n),
        unsigned_in(members["start"@]) is None && string_in(members["start"@]) == Some(
            a + digits(n as nat) + b,
        ) ==> start_of(arguments) == Some(n),
        unsigned_in(members["start"@]) is None && string_in(members["start"@]) is None
            ==> start_of(arguments) is None,
{
    let s = digits(n as nat);
    law_decimal_reads_back(n as nat);
    assert(48 <= s[0] as int <= 57 && 48 <= s[s.len() - 1] as int <= 57);
    lemma_trimmed(a, s, b);
}

} // verus!
