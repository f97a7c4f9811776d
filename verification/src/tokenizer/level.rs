//! The characters that byte-level vocabularies write bytes in.
use vstd::prelude::*;

use crate::text::code;

verus! {

/// Specifies `char::from_u32`: a character comes back exactly for the code
/// points that are scalar values, and it is the one at that code point.
pub assume_specification[ char::from_u32 ](i: u32) -> (r: Option<char>)
    ensures
        match r {
            Some(c) => c as int == i,
            None => 0xd800 <= i <= 0xdfff || i > 0x10ffff,
        },
;

/// Whether a byte is printable, and so stands for itself.
pub open spec fn printable(byte: nat) -> bool {
    33 <= byte <= 126 || 161 <= byte <= 172 || 174 <= byte <= 255
}

/// How many bytes below one are not printable.
pub open spec fn hidden_below(byte: nat) -> nat
    decreases byte,
{
    if byte == 0 {
        0
    } else {
        hidden_below((byte - 1) as nat) + if printable((byte - 1) as nat) {
            0nat
        } else {
            1nat
        }
    }
}

/// The code point of the character a byte is written as: printable bytes
/// stand for themselves, and the rest are shifted past 255 in order.
pub open spec fn byte_code(byte: nat) -> nat {
    if printable(byte) {
        byte
    } else {
        256 + hidden_below(byte)
    }
}

/// The character a byte is written as.
pub open spec fn byte_char(byte: nat) -> char {
    byte_code(byte) as char
}

/// How many bytes below one are not printable, in closed form.
proof fn lemma_hidden_below(byte: nat)
    requires
        byte <= 256,
    ensures
        hidden_below(byte) == if byte <= 33 {
            byte
        } else if byte <= 127 {
            33
        } else if byte <= 161 {
            (byte - 94) as nat
        } else if byte <= 173 {
            67
        } else {
            68
        },
    decreases byte,
{
    if byte > 0 {
        lemma_hidden_below((byte - 1) as nat);
    }
}

/// The byte that a character stands for.
pub open spec fn char_byte(c: char) -> Option<u8> {
    if exists|b: u8| byte_char(b as nat) == c {
        Some(choose|b: u8| byte_char(b as nat) == c)
    } else {
        None
    }
}

/// Every byte is written as a character of its own.
pub proof fn law_bytes_read_back(byte: u8)
    ensures
        char_byte(byte_char(byte as nat)) == Some(byte),
        byte_char(byte as nat) as int == byte_code(byte as nat),
{
    let c = byte_char(byte as nat);
    assert(byte_char(byte as nat) == c);
    let b = choose|b: u8| byte_char(b as nat) == c;
    assert(byte_char(b as nat) == c);
    lemma_hidden_below(byte as nat);
    lemma_hidden_below(b as nat);
}

/// The mapping from bytes to printable characters, which byte-level
/// vocabularies are written in.
pub fn byte_chars() -> (chars: Vec<char>)
    ensures
        chars@ == Seq::new(256, |b: int| byte_char(b as nat)),
{
    let mut chars: Vec<char> = Vec::new();
    let mut next: u32 = 256;
    let mut byte: u32 = 0;
    while byte < 256
        invariant
            byte <= 256,
            next == 256 + hidden_below(byte as nat),
            chars@ == Seq::new(byte as nat, |b: int| byte_char(b as nat)),
        decreases 256 - byte,
    {
        let shown = (33 <= byte && byte <= 126) || (161 <= byte && byte <= 172) || (174 <= byte
            && byte <= 255);
        proof {
            lemma_hidden_below(byte as nat);
        }
        let c: char = if shown {
            byte as u8 as char
        } else {
            next = next + 1;
            match char::from_u32(next - 1) {
                Some(c) => c,
                None => '?',
            }
        };
        assert(c as int == byte_code(byte as nat));
        chars.push(c);
        byte = byte + 1;
        assert(chars@ =~= Seq::new(byte as nat, |b: int| byte_char(b as nat)));
    }
    chars
}

/// The byte that a character stands for.
pub fn to_byte(c: char) -> (r: Option<u8>)
    ensures
        r == char_byte(c),
{
    let n: u32 = code(c);
    let byte: u32 = if (33 <= n && n <= 126) || (161 <= n && n <= 172) || (174 <= n && n <= 255) {
        n
    } else if 256 <= n && n <= 288 {
        n - 256
    } else if 289 <= n && n <= 322 {
        n - 162
    } else if n == 323 {
        173
    } else {
        proof {
            assert forall|b: u8| byte_char(b as nat) != c by {
                lemma_hidden_below(b as nat);
            }
        }
        return None;
    };
    proof {
        lemma_hidden_below(byte as nat);
        assert(byte_char(byte as nat) as int == n);
        law_bytes_read_back(byte as u8);
    }
    Some(byte as u8)
}

} // verus!
