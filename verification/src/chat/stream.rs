//! Text out of bytes that arrive in pieces.
use vstd::prelude::*;
use vstd::utf8::{
    decode_first_scalar, decode_utf8, decode_utf8_encode_utf8, decode_utf8_first_scalar,
    encode_scalar, encode_utf8, encode_utf8_decode_utf8, encode_utf8_first_scalar,
    encode_utf8_valid_utf8, is_char_boundary, is_char_boundary_iff_not_is_continuation_byte,
    is_continuation_byte, length_of_first_scalar, pop_first_scalar, take_first_scalar,
    valid_first_scalar, valid_utf8, valid_utf8_split,
};

use crate::bytes::{copy_range, push_all};
use crate::text::{begun, from_utf8_lossy, lemma_whole, readable, scan_utf8, whole, Scan};

verus! {

/// How many of the bytes at hand are text already: all of them, but for the
/// start of a character at their end, whatever stands before it.
pub open spec fn complete(bytes: Seq<u8>) -> nat {
    if exists|n: nat| n < bytes.len() && #[trigger] begun(bytes.skip(n as int)) {
        choose|n: nat| n < bytes.len() && #[trigger] begun(bytes.skip(n as int))
    } else {
        bytes.len()
    }
}

/// The text that more bytes make of what was held back, and what is held back
/// then.
pub open spec fn pushed(pending: Seq<u8>, bytes: Seq<u8>) -> (Seq<char>, Seq<u8>) {
    let all = pending + bytes;
    let n = complete(all) as int;
    (readable(all.take(n)), all.skip(n))
}

/// Turns a stream of bytes into text, holding back a UTF-8 character split
/// across tokens until the rest of it arrives.
#[derive(Debug)]
pub struct Utf8Stream {
    pub pending: Vec<u8>,
}

impl Default for Utf8Stream {
    /// A stream that nothing has come of yet.
    fn default() -> (s: Self)
        ensures
            s.pending@ == Seq::<u8>::empty(),
    {
        Utf8Stream { pending: Vec::new() }
    }
}

impl Utf8Stream {
    /// Takes more bytes, and gives the text that is whole.
    pub fn push(&mut self, bytes: &[u8]) -> (text: String)
        ensures
            (text@, final(self).pending@) == pushed(old(self).pending@, bytes@),
    {
        push_all(&mut self.pending, bytes);
        let ghost all = self.pending@;
        let len: usize = self.pending.len();
        let n: usize = find_begun(self.pending.as_slice());
        let text = from_utf8_lossy(vstd::slice::slice_subrange(self.pending.as_slice(), 0, n));
        assert(all.subrange(0, n as int) =~= all.take(n as int));
        self.pending = copy_range(self.pending.as_slice(), n, len);
        assert(self.pending@ =~= all.skip(n as int));
        text
    }
}

/// Where the character starts that is not all there yet, to wait for the rest
/// of it: with one of the last three bytes, or nowhere.
fn find_begun(bytes: &[u8]) -> (n: usize)
    ensures
        n == complete(bytes@),
{
    let len: usize = bytes.len();
    let mut n: usize = len;
    while n > 0 && len - n < 3
        invariant
            n <= len == bytes@.len(),
            forall|m: nat| n <= m < len ==> !(#[trigger] begun(bytes@.skip(m as int))),
        decreases n,
    {
        n = n - 1;
        let rest = vstd::slice::slice_subrange(bytes, n, len);
        assert(rest@ =~= bytes@.skip(n as int));
        proof {
            if begun(rest@) {
                lemma_begun(rest@);
            }
        }
        if let Scan::BrokenOff(at) = scan_utf8(rest) {
            if at == 0 {
                proof {
                    assert(rest@.skip(0) =~= rest@);
                    lemma_complete(bytes@, n as nat);
                }
                return n;
            }
        }
        proof {
            if whole(rest@) == 0 {
                assert(rest@.skip(0) =~= rest@);
            }
        }
    }
    proof {
        assert forall|m: nat| m < len implies !(#[trigger] begun(bytes@.skip(m as int))) by {
            if begun(bytes@.skip(m as int)) {
                lemma_begun(bytes@.skip(m as int));
            }
        }
    }
    len
}

/// The start of a character is a byte that starts one of several bytes, and
/// bytes that go on with it; it is not a character itself.
proof fn lemma_begun(s: Seq<u8>)
    requires
        begun(s),
    ensures
        0 < s.len() <= 3,
        s[0] >= 0xc0,
        forall|i: int| 0 < i < s.len() ==> is_continuation_byte(#[trigger] s[i]),
        !valid_first_scalar(s),
        whole(s) == 0,
{
    let c = choose|c: char|
        s.len() < (#[trigger] encode_scalar(c as u32)).len() && encode_scalar(c as u32).take(
            s.len() as int,
        ) == s;
    let e = encode_scalar(c as u32);
    lemma_scalar(c);
    assert forall|i: int| 0 <= i < s.len() implies s[i] == #[trigger] e[i] by {
        assert(e.take(s.len() as int)[i] == e[i]);
    }
    assert(s[0] == e[0]);
    assert forall|i: int| 0 < i < s.len() implies is_continuation_byte(#[trigger] s[i]) by {
        assert(s[i] == e[i]);
    }
}

/// A character as bytes: one that starts it, and by its width as many that go
/// on with it.
proof fn lemma_scalar(c: char)
    ensures
        ({
            let e = encode_scalar(c as u32);
            &&& 1 <= e.len() <= 4
            &&& encode_utf8(seq![c]) == e
            &&& valid_first_scalar(e)
            &&& length_of_first_scalar(e) == e.len()
            &&& forall|i: int| 0 < i < e.len() ==> is_continuation_byte(#[trigger] e[i])
        }),
{
    let e = encode_scalar(c as u32);
    reveal_with_fuel(encode_utf8, 2);
    assert(seq![c].drop_first() =~= Seq::empty());
    assert(encode_utf8(seq![c]) =~= e);
    encode_utf8_first_scalar(seq![c]);
}

/// Only one start of a character is at the end of bytes.
proof fn lemma_complete(bytes: Seq<u8>, n: nat)
    requires
        n < bytes.len(),
        begun(bytes.skip(n as int)),
    ensures
        complete(bytes) == n,
{
    let m = complete(bytes);
    assert(begun(bytes.skip(m as int)));
    lemma_begun(bytes.skip(n as int));
    lemma_begun(bytes.skip(m as int));
    let (a, b) = (bytes.skip(n as int), bytes.skip(m as int));
    if m < n {
        assert(b[n - m] == a[0]);
    } else if n < m {
        assert(a[m - n] == b[0]);
    }
}

/// Of text, what comes first is whole characters and maybe the start of one.
proof fn lemma_prefix_of_text(s: Seq<u8>, t: Seq<u8>)
    requires
        valid_utf8(s + t),
    ensures
        whole(s) == s.len() || begun(s.skip(whole(s) as int)),
    decreases s.len(),
{
    if s.len() > 0 {
        let w = s + t;
        let n = length_of_first_scalar(w);
        if n <= s.len() {
            assert(valid_first_scalar(s));
            let rest = pop_first_scalar(s);
            assert(rest + t =~= pop_first_scalar(w));
            lemma_prefix_of_text(rest, t);
            lemma_whole(rest);
            assert(whole(s) == n + whole(rest));
            if whole(rest) < rest.len() {
                assert(rest.skip(whole(rest) as int) =~= s.skip(whole(s) as int));
            }
        } else {
            assert(!valid_first_scalar(s));
            decode_utf8_first_scalar(w);
            let c = decode_first_scalar(w) as char;
            assert(encode_scalar(c as u32) == take_first_scalar(w));
            assert(take_first_scalar(w).take(s.len() as int) =~= s);
            assert(s.len() < encode_scalar(c as u32).len());
            assert(begun(s));
            assert(whole(s) == 0);
            assert(s.skip(0) =~= s);
        }
    }
}

/// Of the start of a text behind other bytes, all is text already but the
/// start of a character at its end.
proof fn lemma_behind(junk: Seq<u8>, s: Seq<u8>, rest: Seq<u8>)
    requires
        valid_utf8(s + rest),
        junk.len() == 0 || s.len() > 0,
    ensures
        complete(junk + s) == junk.len() + whole(s),
{
    let all = junk + s;
    lemma_whole(s);
    lemma_prefix_of_text(s, rest);
    let n = junk.len() + whole(s);
    if whole(s) < s.len() {
        assert(all.skip(n as int) =~= s.skip(whole(s) as int));
        lemma_complete(all, n);
    } else {
        assert forall|m: nat| m < all.len() implies !(#[trigger] begun(all.skip(m as int))) by {
            if begun(all.skip(m as int)) {
                let tail = all.skip(m as int);
                lemma_begun(tail);
                if m < junk.len() {
                    assert(tail[junk.len() - m] == s[0]);
                    assert(valid_first_scalar(s));
                } else {
                    let at = m - junk.len();
                    assert(tail =~= s.skip(at));
                    assert(tail[0] == s[at]);
                    is_char_boundary_iff_not_is_continuation_byte(s, at);
                    assert(is_char_boundary(s, at));
                    valid_utf8_split(s, at);
                    assert(s.subrange(at, s.len() as int) =~= tail);
                    assert(valid_utf8(tail));
                }
            }
        }
    }
}

/// Text goes through, whatever bytes came before it: of a text of which some
/// has come by now, at the end of bytes that are no text, the bytes given out
/// are whole characters, nothing of it is lost, what is held back is text with
/// what is still to come, and at the end nothing is held back.
pub proof fn law_text_goes_through(
    junk: Seq<u8>,
    some: Seq<u8>,
    pending: Seq<u8>,
    bytes: Seq<u8>,
    rest: Seq<u8>,
)
    requires
        pending + bytes == junk + some,
        valid_utf8(some + rest),
        junk.len() == 0 || some.len() > 0,
    ensures
        ({
            let all = pending + bytes;
            let n = complete(all) as int;
            let j = junk.len() as int;
            &&& j <= n <= all.len()
            &&& pushed(pending, bytes).1 == all.skip(n)
            &&& valid_utf8(all.subrange(j, n))
            &&& encode_utf8(decode_utf8(all.subrange(j, n))) + all.skip(n) == some
            &&& j == 0 ==> pushed(pending, bytes).0 == decode_utf8(all.subrange(j, n))
            &&& valid_utf8(all.skip(n) + rest)
            &&& rest.len() == 0 ==> all.skip(n).len() == 0
        }),
{
    let all = pending + bytes;
    let n = complete(all) as int;
    let j = junk.len() as int;
    lemma_behind(junk, some, rest);
    lemma_whole(some);
    let given = all.subrange(j, n);
    assert(given =~= some.take(whole(some) as int));
    decode_utf8_encode_utf8(given);
    assert(given + all.skip(n) =~= some);
    lemma_behind_text(given, all.skip(n) + rest);
    assert(given + (all.skip(n) + rest) =~= some + rest);
    if rest.len() == 0 {
        assert(some + rest =~= some);
    }
    if j == 0 {
        assert(all.take(n) =~= given);
    }
}

/// A character that is split is held back until the rest of it arrives,
/// whatever bytes came before it: then it is given out, and nothing is held
/// back.
pub proof fn law_split_character_is_held(before: Seq<u8>, c: char, k: int)
    requires
        0 < k < encode_scalar(c as u32).len(),
    ensures
        ({
            let e = encode_scalar(c as u32);
            &&& complete(before + e.take(k)) == before.len()
            &&& pushed(before, e.take(k)).1 == e.take(k)
            &&& complete(e.take(k) + e.skip(k)) == e.len()
            &&& pushed(e.take(k), e.skip(k)) == (seq![c], Seq::<u8>::empty())
        }),
{
    let e = encode_scalar(c as u32);
    lemma_scalar(c);
    encode_utf8_valid_utf8(seq![c]);
    encode_utf8_decode_utf8(seq![c]);
    let first = e.take(k);
    assert(first.len() < e.len() && e.take(first.len() as int) == first);
    assert(begun(first));
    assert((before + first).skip(before.len() as int) =~= first);
    lemma_complete(before + first, before.len());
    let none = Seq::<u8>::empty();
    assert(none + e =~= e);
    assert(e + none =~= e);
    lemma_behind(none, e, none);
    lemma_whole(e);
    assert(first + e.skip(k) =~= e);
    assert(e.take(e.len() as int) =~= e);
    assert(e.skip(e.len() as int) =~= none);
}

/// What stands behind text in text is text.
proof fn lemma_behind_text(a: Seq<u8>, b: Seq<u8>)
    ensures
        valid_utf8(a) && valid_utf8(a + b) ==> valid_utf8(b),
    decreases a.len(),
{
    if valid_utf8(a) && valid_utf8(a + b) {
        if a.len() > 0 {
            assert(pop_first_scalar(a + b) =~= pop_first_scalar(a) + b);
            lemma_behind_text(pop_first_scalar(a), b);
        } else {
            assert(a + b =~= b);
        }
    }
}

} // verus!
