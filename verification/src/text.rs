//! Text as sequences of characters, and the bytes it is written in.
use vstd::prelude::*;
use vstd::utf8::{
    decode_utf8, decode_utf8_encode_utf8, encode_scalar, encode_utf8, encode_utf8_decode_utf8,
    encode_utf8_valid_utf8, length_of_first_scalar, pop_first_scalar, valid_first_scalar,
    valid_utf8,
};

verus! {

/// Specifies `String::push`: it appends the character.
pub assume_specification[ String::push ](s: &mut String, c: char)
    ensures
        final(s)@ == old(s)@.push(c),
;

/// Wraps `String::from_utf8`: text comes back exactly when the bytes are valid
/// UTF-8, and it holds the characters they encode.
#[verifier::external_body]
pub(crate) fn from_utf8(bytes: &[u8]) -> (r: Option<String>)
    ensures
        match r {
            Some(s) => valid_utf8(bytes@) && s@ == decode_utf8(bytes@),
            None => !valid_utf8(bytes@),
        },
{
    String::from_utf8(bytes.to_vec()).ok()
}

/// The characters of `s`.
pub fn chars(s: &str) -> (out: Vec<char>)
    ensures
        out@ == s@,
{
    let mut out: Vec<char> = Vec::new();
    for c in it: s.chars()
        invariant
            out@ == it.seq().take(it.index() as int),
            it.seq() == s@,
    {
        assert(it.seq().take(it.index() + 1) =~= it.seq().take(it.index() as int).push(c));
        out.push(c);
    }
    assert(out@ =~= s@);
    out
}

/// The text of `chars`.
pub fn string(chars: &[char]) -> (out: String)
    ensures
        out@ == chars@,
{
    let mut out = String::new();
    let mut i: usize = 0;
    assert(out@ =~= chars@.take(0));
    while i < chars.len()
        invariant
            i <= chars@.len(),
            out@ == chars@.take(i as int),
        decreases chars@.len() - i,
    {
        out.push(chars[i]);
        assert(chars@.take(i + 1) =~= chars@.take(i as int).push(chars@[i as int]));
        i = i + 1;
    }
    assert(chars@.take(chars@.len() as int) =~= chars@);
    out
}

/// An owned copy.
pub fn own(s: &str) -> (out: String)
    ensures
        out@ == s@,
{
    s.to_owned()
}

/// Whether two texts are the same.
pub fn same_text(a: &str, b: &str) -> (r: bool)
    ensures
        r == (a@ == b@),
{
    proof {
        vstd::utf8::encode_utf8_decode_utf8(a@);
        vstd::utf8::encode_utf8_decode_utf8(b@);
    }
    crate::bytes::same(a.as_bytes(), b.as_bytes())
}

/// The code point of a character.
pub fn code(c: char) -> (n: u32)
    ensures
        n as int == c as int,
{
    c as u32
}

/// The character of a digit.
pub open spec fn digit(d: nat) -> char {
    (48 + d) as char
}

/// A number in decimal.
pub open spec fn digits(n: nat) -> Seq<char>
    decreases n,
{
    if n < 10 {
        seq![digit(n)]
    } else {
        digits(n / 10).push(digit(n % 10))
    }
}

/// Appends a number in decimal.
pub fn push_decimal(out: &mut String, n: u64)
    ensures
        final(out)@ == old(out)@ + digits(n as nat),
    decreases n,
{
    if n >= 10 {
        push_decimal(out, n / 10);
    }
    out.push((48 + (n % 10) as u8) as char);
    assert(out@ =~= old(out)@ + digits(n as nat));
}

/// A number in decimal.
pub fn decimal(n: u64) -> (out: String)
    ensures
        out@ == digits(n as nat),
{
    let mut out = String::new();
    push_decimal(&mut out, n);
    assert(Seq::<char>::empty() + digits(n as nat) =~= digits(n as nat));
    out
}

/// Two texts in a row.
pub fn join2(a: &str, b: &str) -> (out: String)
    ensures
        out@ == a@ + b@,
{
    let mut out = own(a);
    out.append(b);
    out
}

/// Three texts in a row.
pub fn join3(a: &str, b: &str, c: &str) -> (out: String)
    ensures
        out@ == a@ + b@ + c@,
{
    let mut out = own(a);
    out.append(b);
    out.append(c);
    out
}

/// Whether one text stands before another: at the first character they do not
/// share, by its code point; and a text before what it starts.
pub open spec fn ordered(a: Seq<char>, b: Seq<char>) -> bool
    decreases a.len(),
{
    if b.len() == 0 {
        false
    } else if a.len() == 0 {
        true
    } else if a[0] != b[0] {
        (a[0] as int) < (b[0] as int)
    } else {
        ordered(a.drop_first(), b.drop_first())
    }
}

/// Texts in order, none twice.
pub open spec fn sorted(names: Seq<Seq<char>>) -> bool {
    forall|i: int, j: int| 0 <= i < j < names.len() ==> ordered(names[i], names[j])
}

/// What each of `s` holds.
pub open spec fn texts(s: Seq<String>) -> Seq<Seq<char>> {
    s.map_values(|t: String| t@)
}

/// Of two texts that differ, exactly one stands before the other.
pub proof fn lemma_ordered_total(a: Seq<char>, b: Seq<char>)
    ensures
        a != b ==> (ordered(a, b) <==> !ordered(b, a)),
        a == b ==> !ordered(a, b),
    decreases a.len(),
{
    if a.len() == 0 || b.len() == 0 {
        if a.len() == 0 && b.len() == 0 {
            assert(a =~= b);
        }
    } else if a[0] == b[0] {
        lemma_ordered_total(a.drop_first(), b.drop_first());
        if a.drop_first() == b.drop_first() {
            assert(a =~= seq![a[0]] + a.drop_first());
            assert(b =~= seq![b[0]] + b.drop_first());
        }
    }
}

/// What stands before a text stands before what that stands before.
pub proof fn lemma_ordered_trans(a: Seq<char>, b: Seq<char>, c: Seq<char>)
    requires
        ordered(a, b),
        ordered(b, c),
    ensures
        ordered(a, c),
    decreases a.len(),
{
    if a.len() > 0 && b.len() > 0 && c.len() > 0 && a[0] == b[0] && b[0] == c[0] {
        lemma_ordered_trans(a.drop_first(), b.drop_first(), c.drop_first());
    }
}

/// Whether one text stands before another.
pub fn is_before(a: &str, b: &str) -> (r: bool)
    ensures
        r == ordered(a@, b@),
{
    let x = chars(a);
    let y = chars(b);
    let mut i: usize = 0;
    assert(x@.skip(0) =~= a@);
    assert(y@.skip(0) =~= b@);
    while i < x.len() && i < y.len()
        invariant
            i <= x@.len(),
            i <= y@.len(),
            ordered(a@, b@) == ordered(x@.skip(i as int), y@.skip(i as int)),
        decreases x@.len() - i,
    {
        let c: char = x[i];
        let d: char = y[i];
        if c != d {
            return code(c) < code(d);
        }
        assert(x@.skip(i as int).drop_first() =~= x@.skip(i + 1));
        assert(y@.skip(i as int).drop_first() =~= y@.skip(i + 1));
        i = i + 1;
    }
    i < y.len()
}

/// Puts a text where it belongs among texts in order, unless it is there.
pub fn insert_sorted(names: &mut Vec<String>, name: &str)
    requires
        sorted(texts(old(names)@)),
    ensures
        sorted(texts(final(names)@)),
        texts(final(names)@).to_set() == texts(old(names)@).to_set().insert(name@),
{
    let mut p: usize = 0;
    while p < names.len() && is_before(names[p].as_str(), name)
        invariant
            p <= names@.len(),
            names@ == old(names)@,
            forall|i: int| 0 <= i < p ==> ordered(#[trigger] names@[i]@, name@),
        decreases names@.len() - p,
    {
        p = p + 1;
    }
    let ghost before = texts(names@);
    if p < names.len() && same_text(names[p].as_str(), name) {
        assert(before[p as int] == name@);
        assert(before.to_set().insert(name@) =~= before.to_set());
        return ;
    }
    names.insert(p, own(name));
    proof {
        let after = texts(names@);
        assert(after =~= before.insert(p as int, name@));
        assert forall|i: int, j: int| 0 <= i < j < after.len() implies ordered(
            after[i],
            after[j],
        ) by {
            if p < before.len() {
                lemma_ordered_total(before[p as int], name@);
                if j > p + 1 && i == p {
                    lemma_ordered_trans(name@, before[p as int], before[j - 1]);
                }
            }
        }
        assert(after.to_set() =~= before.to_set().insert(name@)) by {
            assert forall|t: Seq<char>| after.contains(t) <==> (before.contains(t) || t == name@) by {
                if before.contains(t) {
                    let k = choose|k: int| 0 <= k < before.len() && before[k] == t;
                    if k < p {
                        assert(after[k] == t);
                    } else {
                        assert(after[k + 1] == t);
                    }
                }
                if after.contains(t) {
                    let k = choose|k: int| 0 <= k < after.len() && after[k] == t;
                    if k < p {
                        assert(before[k] == t);
                    } else if k > p {
                        assert(before[k - 1] == t);
                    }
                }
                assert(after[p as int] == name@);
            }
        }
    }
}

/// Text written in a row is the bytes in a row.
pub proof fn lemma_encode_concat(a: Seq<char>, b: Seq<char>)
    ensures
        encode_utf8(a + b) == encode_utf8(a) + encode_utf8(b),
    decreases a.len(),
{
    if a.len() == 0 {
        assert(a + b =~= b);
        assert(encode_utf8(a) + encode_utf8(b) =~= encode_utf8(b));
    } else {
        lemma_encode_concat(a.drop_first(), b);
        assert((a + b).drop_first() =~= a.drop_first() + b);
        assert(encode_utf8(a + b) =~= encode_utf8(a) + encode_utf8(b));
    }
}

/// Texts in a row.
pub open spec fn concat(s: Seq<Seq<char>>) -> Seq<char>
    decreases s.len(),
{
    if s.len() == 0 {
        Seq::empty()
    } else {
        concat(s.drop_last()) + s.last()
    }
}

/// Whether a character is white space, as Unicode's `White_Space` property
/// has it.
pub open spec fn space(c: char) -> bool {
    let n = c as int;
    9 <= n <= 13 || n == 0x20 || n == 0x85 || n == 0xa0 || n == 0x1680 || 0x2000 <= n <= 0x200a || n
        == 0x2028 || n == 0x2029 || n == 0x202f || n == 0x205f || n == 0x3000
}

/// Whether a text is white space throughout.
pub open spec fn blank(s: Seq<char>) -> bool {
    forall|i: int| 0 <= i < s.len() ==> space(#[trigger] s[i])
}

/// A text without the white space it starts with.
pub open spec fn trim_start(s: Seq<char>) -> Seq<char>
    decreases s.len(),
{
    if s.len() > 0 && space(s[0]) {
        trim_start(s.drop_first())
    } else {
        s
    }
}

/// A text without the white space it ends with.
pub open spec fn trim_end(s: Seq<char>) -> Seq<char>
    decreases s.len(),
{
    if s.len() > 0 && space(s.last()) {
        trim_end(s.drop_last())
    } else {
        s
    }
}

/// A text without the white space round it.
pub open spec fn trim(s: Seq<char>) -> Seq<char> {
    trim_end(trim_start(s))
}

/// Whether a character is white space.
pub fn is_space(c: char) -> (r: bool)
    ensures
        r == space(c),
{
    let n: u32 = code(c);
    (9 <= n && n <= 13) || n == 0x20 || n == 0x85 || n == 0xa0 || n == 0x1680 || (0x2000 <= n && n
        <= 0x200a) || n == 0x2028 || n == 0x2029 || n == 0x202f || n == 0x205f || n == 0x3000
}

/// Whether a text is white space throughout.
pub fn is_blank(s: &str) -> (r: bool)
    ensures
        r == blank(s@),
{
    let list = chars(s);
    let mut i: usize = 0;
    while i < list.len()
        invariant
            i <= list@.len(),
            list@ == s@,
            forall|j: int| 0 <= j < i ==> space(#[trigger] list@[j]),
        decreases list@.len() - i,
    {
        if !is_space(list[i]) {
            assert(!space(s@[i as int]));
            return false;
        }
        i = i + 1;
    }
    true
}

/// Where the white space that a run of characters starts with ends.
pub fn skip_space(list: &[char], from: usize, to: usize) -> (at: usize)
    requires
        from <= to <= list@.len(),
    ensures
        from <= at <= to,
        trim_start(list@.subrange(from as int, to as int)) == list@.subrange(at as int, to as int),
{
    let mut at: usize = from;
    while at < to && is_space(list[at])
        invariant
            from <= at <= to <= list@.len(),
            trim_start(list@.subrange(from as int, to as int)) == trim_start(
                list@.subrange(at as int, to as int),
            ),
        decreases to - at,
    {
        assert(list@.subrange(at as int, to as int).drop_first() =~= list@.subrange(
            at + 1,
            to as int,
        ));
        at = at + 1;
    }
    at
}

/// Where the white space that a run of characters ends with starts.
pub fn skip_space_back(list: &[char], from: usize, to: usize) -> (at: usize)
    requires
        from <= to <= list@.len(),
    ensures
        from <= at <= to,
        trim_end(list@.subrange(from as int, to as int)) == list@.subrange(from as int, at as int),
{
    let mut at: usize = to;
    while at > from && is_space(list[at - 1])
        invariant
            from <= at <= to <= list@.len(),
            trim_end(list@.subrange(from as int, to as int)) == trim_end(
                list@.subrange(from as int, at as int),
            ),
        decreases at - from,
    {
        assert(list@.subrange(from as int, at as int).drop_last() =~= list@.subrange(
            from as int,
            at - 1,
        ));
        at = at - 1;
    }
    at
}

/// The bytes as text, with what is not UTF-8 replaced, as
/// `String::from_utf8_lossy` does it.
pub uninterp spec fn lossy(bytes: Seq<u8>) -> Seq<char>;

/// Wraps `String::from_utf8_lossy`: its text is a matter of the bytes alone,
/// and bytes that are UTF-8 are the text they encode.
#[verifier::external_body]
pub(crate) fn from_utf8_lossy(bytes: &[u8]) -> (s: String)
    ensures
        s@ == lossy(bytes@),
        valid_utf8(bytes@) ==> s@ == decode_utf8(bytes@),
{
    String::from_utf8_lossy(bytes).into_owned()
}

/// The bytes as text: the text they encode, or with what is not UTF-8
/// replaced.
pub open spec fn readable(bytes: Seq<u8>) -> Seq<char> {
    if valid_utf8(bytes) {
        decode_utf8(bytes)
    } else {
        lossy(bytes)
    }
}

/// Whether bytes are the start of a character, but not all of it.
pub open spec fn begun(s: Seq<u8>) -> bool {
    0 < s.len() && exists|c: char|
        s.len() < (#[trigger] encode_scalar(c as u32)).len() && encode_scalar(c as u32).take(
            s.len() as int,
        ) == s
}

/// How many bytes the whole characters take that bytes start with.
pub open spec fn whole(bytes: Seq<u8>) -> nat
    decreases bytes.len(),
{
    if bytes.len() > 0 && valid_first_scalar(bytes) {
        (length_of_first_scalar(bytes) + whole(pop_first_scalar(bytes))) as nat
    } else {
        0
    }
}

/// The whole characters that bytes start with are text, and they are all of
/// the bytes exactly if those are text.
pub proof fn lemma_whole(bytes: Seq<u8>)
    ensures
        whole(bytes) <= bytes.len(),
        valid_utf8(bytes.take(whole(bytes) as int)),
        whole(bytes) == bytes.len() <==> valid_utf8(bytes),
    decreases bytes.len(),
{
    if bytes.len() > 0 && valid_first_scalar(bytes) {
        let n = length_of_first_scalar(bytes);
        let rest = pop_first_scalar(bytes);
        lemma_whole(rest);
        let start = bytes.take(whole(bytes) as int);
        assert(valid_first_scalar(start));
        assert(pop_first_scalar(start) =~= rest.take(whole(rest) as int));
    }
}

/// What bytes are to a reader of UTF-8: text; or broken off within a character,
/// with where that starts; or not text, with where that starts and how long it
/// is.
pub enum Scan {
    Whole,
    BrokenOff(usize),
    Invalid(usize, usize),
}

/// How many bytes are wrong where bytes stop being UTF-8, as
/// `Utf8Error::error_len` counts them.
pub uninterp spec fn wrong(bytes: Seq<u8>) -> nat;

/// Wraps `std::str::from_utf8` for what it says of bytes: whether they are
/// UTF-8; and if not, whether that is because they end within a character,
/// which `Utf8Error::error_len` tells apart from bytes that no more bytes could
/// make right, of which it counts one to three. The whole characters before
/// them end at `Utf8Error::valid_up_to`.
#[verifier::external_body]
pub(crate) fn scan_utf8(bytes: &[u8]) -> (r: Scan)
    ensures
        match r {
            Scan::Whole => whole(bytes@) == bytes@.len(),
            Scan::BrokenOff(at) => at == whole(bytes@) < bytes@.len() && begun(
                bytes@.skip(at as int),
            ),
            Scan::Invalid(at, n) => at == whole(bytes@) < bytes@.len() && !begun(
                bytes@.skip(at as int),
            ) && n == wrong(bytes@) && 1 <= n <= 3,
        },
{
    match std::str::from_utf8(bytes) {
        Ok(_) => Scan::Whole,
        Err(e) => match e.error_len() {
            None => Scan::BrokenOff(e.valid_up_to()),
            Some(n) => Scan::Invalid(e.valid_up_to(), n),
        },
    }
}

/// Bytes that a text takes.
pub open spec fn size(s: Seq<char>) -> nat {
    encode_utf8(s).len()
}

/// How many characters of a text fit in so many bytes.
pub open spec fn fit(s: Seq<char>, n: nat) -> nat
    decreases s.len(),
{
    if s.len() > 0 && encode_scalar(s[0] as u32).len() <= n {
        1 + fit(s.drop_first(), (n - encode_scalar(s[0] as u32).len()) as nat)
    } else {
        0
    }
}

/// A text cut down to at most so many bytes, between characters, and the cut
/// marked with an ellipsis.
pub open spec fn clipped(s: Seq<char>, max: nat) -> Seq<char> {
    if size(s) <= max {
        s
    } else {
        s.take(fit(s, max) as int).push('\u{2026}')
    }
}

/// Bytes that a character takes.
pub fn char_size(c: char) -> (n: usize)
    ensures
        n == encode_scalar(c as u32).len(),
        1 <= n <= 4,
{
    let code: u32 = c as u32;
    if code < 0x80 {
        1
    } else if code < 0x800 {
        2
    } else if code < 0x1_0000 {
        3
    } else {
        4
    }
}

/// Characters that fit are of the text, and are all that do.
pub proof fn lemma_fit(s: Seq<char>, n: nat)
    ensures
        fit(s, n) <= s.len(),
        size(s.take(fit(s, n) as int)) <= n,
        fit(s, n) == s.len() <==> size(s) <= n,
    decreases s.len(),
{
    if s.len() > 0 {
        let k = encode_scalar(s[0] as u32).len();
        if k <= n {
            let rest = s.drop_first();
            lemma_fit(rest, (n - k) as nat);
            let t = s.take(fit(s, n) as int);
            assert(t.drop_first() =~= rest.take(fit(rest, (n - k) as nat) as int));
        } else {
            assert(s.take(0) =~= Seq::empty());
        }
    } else {
        assert(s.take(0) =~= Seq::empty());
    }
}

/// Cuts a text down to at most `max` bytes, on a character boundary, marking
/// the cut with an ellipsis.
pub fn clip(text: &str, max: usize) -> (out: String)
    ensures
        out@ == clipped(text@, max as nat),
{
    if text.as_bytes().len() <= max {
        return own(text);
    }
    let list = chars(text);
    let mut out = String::new();
    let mut left: usize = max;
    let mut i: usize = 0;
    assert(list@.skip(0) =~= text@);
    while i < list.len() && char_size(list[i]) <= left
        invariant
            i <= list@.len(),
            list@ == text@,
            out@ == text@.take(i as int),
            fit(text@, max as nat) == i + fit(text@.skip(i as int), left as nat),
        decreases list@.len() - i,
    {
        proof {
            assert(text@.skip(i as int)[0] == text@[i as int]);
            assert(text@.skip(i as int).drop_first() =~= text@.skip(i + 1));
        }
        left = left - char_size(list[i]);
        out.push(list[i]);
        i = i + 1;
        assert(out@ =~= text@.take(i as int));
    }
    proof {
        if i < list@.len() {
            assert(text@.skip(i as int)[0] == text@[i as int]);
        }
    }
    out.push('\u{2026}');
    out
}

/// The number that decimal digits stand for, most significant first.
pub open spec fn digits_value(s: Seq<char>) -> nat
    decreases s.len(),
{
    if s.len() == 0 {
        0
    } else {
        10 * digits_value(s.drop_last()) + (s.last() as int - 48) as nat
    }
}

/// Whether a text is decimal digits throughout.
pub open spec fn all_digits(s: Seq<char>) -> bool {
    forall|i: int| 0 <= i < s.len() ==> 48 <= #[trigger] s[i] as int <= 57
}

/// The number of 64 bits that decimal digits stand for.
pub open spec fn digits_number(d: Seq<char>) -> Option<u64> {
    if d.len() > 0 && all_digits(d) && digits_value(d) <= u64::MAX {
        Some(digits_value(d) as u64)
    } else {
        None
    }
}

/// The number that a text is written as: decimal digits, maybe behind a plus
/// sign, of 64 bits.
pub open spec fn number_in(s: Seq<char>) -> Option<u64> {
    if s.len() > 0 && s[0] == '+' {
        digits_number(s.drop_first())
    } else {
        digits_number(s)
    }
}

/// More digits do not make a number smaller.
proof fn lemma_digits_grow(s: Seq<char>, n: int)
    requires
        0 <= n <= s.len(),
        all_digits(s),
    ensures
        digits_value(s.take(n)) <= digits_value(s),
    decreases s.len(),
{
    if n == s.len() {
        assert(s.take(n) =~= s);
    } else {
        assert(s.drop_last().take(n) =~= s.take(n));
        lemma_digits_grow(s.drop_last(), n);
    }
}

/// Reads the number that a run of characters is written as.
pub fn parse_number(list: &[char]) -> (r: Option<u64>)
    ensures
        r == number_in(list@),
{
    let n: usize = list.len();
    let from: usize = if n > 0 && list[0] == '+' {
        1
    } else {
        0
    };
    let ghost d = if list@.len() > 0 && list@[0] == '+' {
        list@.drop_first()
    } else {
        list@
    };
    assert(d =~= list@.skip(from as int));
    if from == n {
        return None;
    }
    let mut k: usize = from;
    while k < n
        invariant
            from <= k <= n == list@.len(),
            d == list@.skip(from as int),
            number_in(list@) == digits_number(d),
            forall|j: int| 0 <= j < k - from ==> 48 <= #[trigger] d[j] as int <= 57,
        decreases n - k,
    {
        let c: u32 = code(list[k]);
        if c < 48 || c > 57 {
            assert(d[k - from] == list@[k as int]);
            return None;
        }
        assert(d[k - from] == list@[k as int]);
        k = k + 1;
    }
    let mut value: u64 = 0;
    let mut i: usize = from;
    assert(d.take(0) =~= Seq::empty());
    while i < n
        invariant
            from <= i <= n == list@.len(),
            d == list@.skip(from as int),
            number_in(list@) == digits_number(d),
            all_digits(d),
            value == digits_value(d.take(i - from)),
        decreases n - i,
    {
        assert(d[i - from] == list@[i as int]);
        let digit: u64 = (code(list[i]) - 48) as u64;
        proof {
            let t = d.take(i + 1 - from);
            assert(t.drop_last() =~= d.take(i - from));
            assert(digits_value(t) == 10 * value + digit);
            lemma_digits_grow(d, i + 1 - from);
        }
        if value > (u64::MAX - digit) / 10 {
            return None;
        }
        value = value * 10 + digit;
        i = i + 1;
    }
    assert(d.take(n - from) =~= d);
    Some(value)
}

/// A number in decimal reads back as it is, and has no zeros in front.
pub proof fn law_decimal_reads_back(n: nat)
    ensures
        all_digits(digits(n)),
        digits_value(digits(n)) == n,
        digits(n).len() >= 1,
        digits(n).len() > 1 ==> digits(n)[0] != '0',
        n <= u64::MAX ==> number_in(digits(n)) == Some(n as u64),
    decreases n,
{
    let s = digits(n);
    if n < 10 {
        assert(s.drop_last() =~= Seq::empty());
        assert(digits_value(s.drop_last()) == 0);
    } else {
        law_decimal_reads_back(n / 10);
        assert(s.drop_last() =~= digits(n / 10));
        if digits(n / 10).len() == 1 {
            assert(n / 10 < 10) by {
                if n / 10 >= 10 {
                    law_decimal_reads_back(n / 10 / 10);
                }
            }
        }
        assert forall|i: int| 0 <= i < s.len() implies 48 <= #[trigger] s[i] as int <= 57 by {
            if i < s.len() - 1 {
                assert(s[i] == digits(n / 10)[i]);
            }
        }
    }
    assert(48 <= s[0] as int <= 57);
}

/// A text without the white space round it is what is left of it between white
/// space, and neither starts nor ends with any.
pub proof fn law_trim_keeps_the_middle(s: Seq<char>) -> (r: (Seq<char>, Seq<char>))
    ensures
        s == r.0 + trim(s) + r.1,
        blank(r.0),
        blank(r.1),
        trim(s).len() > 0 ==> !space(trim(s)[0]) && !space(trim(s).last()),
{
    let a = lemma_trimmed_start(s);
    let t = trim_start(s);
    let b = lemma_trimmed_end(t);
    assert(s =~= a + trim(s) + b);
    if trim(s).len() > 0 {
        assert(trim(s)[0] == t[0]);
    }
    (a, b)
}

/// The white space that a text starts with.
proof fn lemma_trimmed_start(s: Seq<char>) -> (gap: Seq<char>)
    ensures
        blank(gap),
        s == gap + trim_start(s),
        trim_start(s).len() > 0 ==> !space(trim_start(s)[0]),
    decreases s.len(),
{
    if s.len() > 0 && space(s[0]) {
        let rest = s.drop_first();
        let more = lemma_trimmed_start(rest);
        let gap = seq![s[0]] + more;
        assert(s =~= seq![s[0]] + rest);
        assert(seq![s[0]] + (more + trim_start(rest)) =~= gap + trim_start(rest));
        gap
    } else {
        assert(s =~= Seq::<char>::empty() + s);
        Seq::empty()
    }
}

/// The white space that a text ends with.
proof fn lemma_trimmed_end(s: Seq<char>) -> (gap: Seq<char>)
    ensures
        blank(gap),
        s == trim_end(s) + gap,
        trim_end(s).len() > 0 ==> !space(trim_end(s).last()),
    decreases s.len(),
{
    if s.len() > 0 && space(s.last()) {
        let rest = s.drop_last();
        let more = lemma_trimmed_end(rest);
        let gap = more.push(s.last());
        assert(s =~= rest.push(s.last()));
        assert((trim_end(rest) + more).push(s.last()) =~= trim_end(rest) + gap);
        gap
    } else {
        assert(s =~= s + Seq::<char>::empty());
        Seq::empty()
    }
}

/// A text that takes no more bytes than it may is left as it is; of a longer
/// one as many characters are left as take no more, and an ellipsis.
pub proof fn law_cut_is_marked(s: Seq<char>, max: nat)
    ensures
        encode_utf8(s).len() <= max ==> clipped(s, max) == s,
        encode_utf8(s).len() > max ==> ({
            let k = clipped(s, max).len() - 1;
            &&& 0 <= k < s.len()
            &&& clipped(s, max) == s.take(k).push('\u{2026}')
            &&& encode_utf8(s.take(k)).len() <= max
            &&& encode_utf8(s.take(k + 1)).len() > max
        }),
{
    lemma_fit(s, max);
    if size(s) > max {
        lemma_next_does_not_fit(s, max);
    }
}

/// One character more than fit does not.
pub proof fn lemma_next_does_not_fit(s: Seq<char>, n: nat)
    requires
        fit(s, n) < s.len(),
    ensures
        size(s.take(fit(s, n) as int + 1)) > n,
    decreases s.len(),
{
    let k = encode_scalar(s[0] as u32).len();
    let rest = s.drop_first();
    let t = s.take(fit(s, n) as int + 1);
    if k <= n {
        lemma_next_does_not_fit(rest, (n - k) as nat);
        assert(t.drop_first() =~= rest.take(fit(rest, (n - k) as nat) as int + 1));
    } else {
        assert(t.drop_first() =~= Seq::empty());
    }
}

/// Bytes that are text read as that text, and no other bytes do; of what is no
/// text, as much is read as the standard library does.
pub proof fn law_bytes_read_as_text(bytes: Seq<u8>, text: Seq<char>)
    ensures
        bytes == encode_utf8(text) ==> readable(bytes) == text,
        valid_utf8(bytes) ==> encode_utf8(readable(bytes)) == bytes,
        !valid_utf8(bytes) ==> readable(bytes) == lossy(bytes),
{
    encode_utf8_valid_utf8(text);
    encode_utf8_decode_utf8(text);
    if valid_utf8(bytes) {
        decode_utf8_encode_utf8(bytes);
    }
}

} // verus!
