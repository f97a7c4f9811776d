//! Reading the pieces of a file's head in turn.
use vstd::prelude::*;

use super::layout::{
    dims_at, lemma_dims_err, lemma_values_err, number_at, scalar, string_at, value_at, values_at,
    width, Malformed,
};
use super::value::{vals, Value};
use crate::bytes::{lemma_base, lemma_le_bound, read_le};
use crate::text::{from_utf8, lemma_whole, scan_utf8, Scan};

verus! {

/// Bytes, and how many of them have been read.
pub struct Reader<'a> {
    pub data: &'a [u8],
    pub read: usize,
}

impl<'a> Reader<'a> {
    /// What has been read lies in the bytes.
    pub open spec fn wf(self) -> bool {
        self.read <= self.data@.len()
    }

    /// The next `n` bytes.
    pub fn bytes(&mut self, n: usize) -> (r: Result<&'a [u8], Malformed>)
        requires
            old(self).wf(),
        ensures
            final(self).wf(),
            final(self).data == old(self).data,
            match r {
                Ok(s) => old(self).read + n <= old(self).data@.len() && s@
                    == old(self).data@.subrange(old(self).read as int, old(self).read + n)
                    && final(self).read == old(self).read + n,
                Err(e) => old(self).read + n > old(self).data@.len() && e == Malformed::Short
                    && final(self).read == old(self).read,
            },
    {
        let len: usize = self.data.len();
        if n > len - self.read {
            return Err(Malformed::Short);
        }
        let s = vstd::slice::slice_subrange(self.data, self.read, self.read + n);
        self.read = self.read + n;
        Ok(s)
    }

    /// The next `k` bytes as a number.
    fn number(&mut self, k: usize) -> (r: Result<u64, Malformed>)
        requires
            old(self).wf(),
            k <= 8,
        ensures
            final(self).wf(),
            final(self).data == old(self).data,
            match r {
                Ok(n) => number_at(old(self).data@, old(self).read as nat, k as nat) == Ok::<
                    (nat, nat),
                    Malformed,
                >((n as nat, k as nat)) && final(self).read == old(self).read + k,
                Err(e) => number_at(old(self).data@, old(self).read as nat, k as nat) == Err::<
                    (nat, nat),
                    Malformed,
                >(e),
            },
    {
        let len: usize = self.data.len();
        if k > len - self.read {
            return Err(Malformed::Short);
        }
        let n: u64 = read_le(self.data, self.read, k);
        self.read = self.read + k;
        Ok(n)
    }

    /// The next four bytes as a number.
    pub fn u32(&mut self) -> (r: Result<u32, Malformed>)
        requires
            old(self).wf(),
        ensures
            final(self).wf(),
            final(self).data == old(self).data,
            match r {
                Ok(n) => number_at(old(self).data@, old(self).read as nat, 4) == Ok::<
                    (nat, nat),
                    Malformed,
                >((n as nat, 4)) && final(self).read == old(self).read + 4,
                Err(e) => number_at(old(self).data@, old(self).read as nat, 4) == Err::<
                    (nat, nat),
                    Malformed,
                >(e),
            },
    {
        match self.number(4) {
            Ok(n) => {
                proof {
                    lemma_base();
                    lemma_le_bound(
                        old(self).data@.subrange(old(self).read as int, old(self).read + 4),
                    );
                }
                Ok(n as u32)
            },
            Err(e) => Err(e),
        }
    }

    /// The next eight bytes as a number.
    pub fn u64(&mut self) -> (r: Result<u64, Malformed>)
        requires
            old(self).wf(),
        ensures
            final(self).wf(),
            final(self).data == old(self).data,
            match r {
                Ok(n) => number_at(old(self).data@, old(self).read as nat, 8) == Ok::<
                    (nat, nat),
                    Malformed,
                >((n as nat, 8)) && final(self).read == old(self).read + 8,
                Err(e) => number_at(old(self).data@, old(self).read as nat, 8) == Err::<
                    (nat, nat),
                    Malformed,
                >(e),
            },
    {
        self.number(8)
    }

    /// A length and as many bytes of text.
    pub fn string(&mut self) -> (r: Result<String, Malformed>)
        requires
            old(self).wf(),
        ensures
            final(self).wf(),
            final(self).data == old(self).data,
            match r {
                Ok(s) => final(self).read >= old(self).read && string_at(
                    old(self).data@,
                    old(self).read as nat,
                ) == Ok::<(Seq<char>, nat), Malformed>(
                    (s@, (final(self).read - old(self).read) as nat),
                ),
                Err(e) => string_at(old(self).data@, old(self).read as nat) == Err::<
                    (Seq<char>, nat),
                    Malformed,
                >(e),
            },
    {
        let len: u64 = match self.u64() {
            Ok(n) => n,
            Err(e) => {
                return Err(e);
            },
        };
        let size: usize = self.data.len();
        if len > (size - self.read) as u64 {
            return Err(Malformed::Short);
        }
        let text = match self.bytes(len as usize) {
            Ok(s) => s,
            Err(e) => {
                return Err(e);
            },
        };
        match from_utf8(text) {
            Some(s) => Ok(s),
            None => {
                proof {
                    lemma_whole(text@);
                }
                match scan_utf8(text) {
                    Scan::BrokenOff(at) => Err(Malformed::BrokenOff(at as u64)),
                    Scan::Invalid(at, n) => Err(Malformed::Utf8(n as u64, at as u64)),
                    Scan::Whole => Err(Malformed::Short),
                }
            },
        }
    }

    /// A value of a kind.
    pub fn value(&mut self, kind: u32) -> (r: Result<Value, Malformed>)
        requires
            old(self).wf(),
        ensures
            final(self).wf(),
            final(self).data == old(self).data,
            match r {
                Ok(v) => final(self).read >= old(self).read && value_at(
                    old(self).data@,
                    old(self).read as nat,
                    kind,
                ) == Ok::<(super::value::Val, nat), Malformed>(
                    (v.val(), (final(self).read - old(self).read) as nat),
                ),
                Err(e) => value_at(old(self).data@, old(self).read as nat, kind) == Err::<
                    (super::value::Val, nat),
                    Malformed,
                >(e),
            },
        decreases old(self).data@.len() - old(self).read,
    {
        if kind == 9 {
            let inner: u32 = match self.u32() {
                Ok(n) => n,
                Err(e) => {
                    return Err(e);
                },
            };
            let n: u64 = match self.u64() {
                Ok(n) => n,
                Err(e) => {
                    return Err(e);
                },
            };
            let ghost b = self.data@;
            let ghost at = self.read as nat;
            let mut values: Vec<Value> = Vec::new();
            let mut i: u64 = 0;
            while i < n
                invariant
                    i <= n,
                    self.wf(),
                    self.data == old(self).data,
                    b == self.data@,
                    at == old(self).read + 12,
                    old(self).wf(),
                    self.read >= at,
                    values_at(b, at, inner, i as nat) == Ok::<
                        (Seq<super::value::Val>, nat),
                        Malformed,
                    >((vals(values@), (self.read - at) as nat)),
                    value_at(b, old(self).read as nat, kind) == match values_at(
                        b,
                        at,
                        inner,
                        n as nat,
                    ) {
                        Err(e) => Err(e),
                        Ok((values, size)) => Ok((super::value::Val::Array(values), 12 + size)),
                    },
                decreases n - i,
            {
                match self.value(inner) {
                    Ok(v) => {
                        proof {
                            assert(values@.push(v).drop_last() =~= values@);
                        }
                        values.push(v);
                    },
                    Err(e) => {
                        proof {
                            assert(values_at(b, at, inner, (i + 1) as nat) is Err);
                            lemma_values_err(b, at, inner, (i + 1) as nat, n as nat);
                        }
                        return Err(e);
                    },
                }
                i = i + 1;
            }
            return Ok(Value::Array(values));
        }
        if kind == 8 {
            return match self.string() {
                Ok(s) => Ok(Value::Str(s)),
                Err(e) => Err(e),
            };
        }
        if kind > 12 {
            return Err(Malformed::Kind(kind));
        }
        let k: usize = if kind == 0 || kind == 1 || kind == 7 {
            1
        } else if kind == 2 || kind == 3 {
            2
        } else if kind == 4 || kind == 5 || kind == 6 {
            4
        } else {
            8
        };
        match self.number(k) {
            Ok(n) => {
                proof {
                    lemma_base();
                    lemma_le_bound(
                        old(self).data@.subrange(old(self).read as int, old(self).read + k),
                    );
                }
                Ok(Self::scalar(n, kind))
            },
            Err(e) => Err(e),
        }
    }

    /// The value that a number stands for.
    fn scalar(n: u64, kind: u32) -> (v: Value)
        requires
            n < crate::bytes::base(width(kind)),
            kind <= 12,
            kind != 8,
            kind != 9,
        ensures
            v.val() == scalar(n as nat, kind),
    {
        proof {
            lemma_base();
        }
        match kind {
            0 => Value::U8(n as u8),
            1 => {
                let m: u8 = n as u8;
                assert(m < 0x80 ==> m as i8 == m) by (bit_vector);
                assert(m >= 0x80 ==> m as i8 == m - 0x100) by (bit_vector);
                Value::I8(m as i8)
            },
            2 => Value::U16(n as u16),
            3 => {
                let m: u16 = n as u16;
                assert(m < 0x8000 ==> m as i16 == m) by (bit_vector);
                assert(m >= 0x8000 ==> m as i16 == m - 0x1_0000) by (bit_vector);
                Value::I16(m as i16)
            },
            4 => Value::U32(n as u32),
            5 => {
                let m: u32 = n as u32;
                assert(m < 0x8000_0000 ==> m as i32 == m) by (bit_vector);
                assert(m >= 0x8000_0000 ==> m as i32 == m - 0x1_0000_0000) by (bit_vector);
                Value::I32(m as i32)
            },
            6 => Value::F32(n as u32),
            7 => Value::Bool(n != 0),
            10 => Value::U64(n),
            11 => {
                assert(n < 0x8000_0000_0000_0000 ==> n as i64 == n) by (bit_vector);
                assert(n >= 0x8000_0000_0000_0000 ==> n as i64 == n - 0x1_0000_0000_0000_0000)
                    by (bit_vector);
                Value::I64(n as i64)
            },
            _ => Value::F64(n),
        }
    }

    /// `n` dimensions.
    pub fn dims(&mut self, n: u32) -> (r: Result<Vec<usize>, Malformed>)
        requires
            old(self).wf(),
        ensures
            final(self).wf(),
            final(self).data == old(self).data,
            match r {
                Ok(dims) => final(self).read >= old(self).read && dims_at(
                    old(self).data@,
                    old(self).read as nat,
                    n as nat,
                ) == Ok::<(Seq<usize>, nat), Malformed>(
                    (dims@, (final(self).read - old(self).read) as nat),
                ),
                Err(e) => dims_at(old(self).data@, old(self).read as nat, n as nat) == Err::<
                    (Seq<usize>, nat),
                    Malformed,
                >(e),
            },
    {
        let ghost b = self.data@;
        let ghost at = self.read as nat;
        let mut dims: Vec<usize> = Vec::new();
        let mut i: u32 = 0;
        while i < n
            invariant
                i <= n,
                self.wf(),
                self.data == old(self).data,
                b == self.data@,
                at == old(self).read,
                self.read >= at,
                dims_at(b, at, i as nat) == Ok::<(Seq<usize>, nat), Malformed>(
                    (dims@, (self.read - at) as nat),
                ),
            decreases n - i,
        {
            match self.u64() {
                Ok(d) => {
                    if d > usize::MAX as u64 {
                        proof {
                            lemma_dims_err(b, at, (i + 1) as nat, n as nat);
                        }
                        return Err(Malformed::Dimension(d));
                    }
                    dims.push(d as usize);
                },
                Err(e) => {
                    proof {
                        lemma_dims_err(b, at, (i + 1) as nat, n as nat);
                    }
                    return Err(e);
                },
            }
            i = i + 1;
        }
        Ok(dims)
    }
}

} // verus!
