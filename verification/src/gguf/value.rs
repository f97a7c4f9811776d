//! Metadata values, and what they are as mathematics.
use vstd::prelude::*;

use crate::bytes::signed;

verus! {

/// A metadata value. Floating-point numbers are held as their bits.
#[derive(Debug, PartialEq)]
pub enum Value {
    U8(u8),
    I8(i8),
    U16(u16),
    I16(i16),
    U32(u32),
    I32(i32),
    F32(u32),
    Bool(bool),
    Str(String),
    Array(Vec<Value>),
    U64(u64),
    I64(i64),
    F64(u64),
}

/// What a metadata value holds.
pub ghost enum Val {
    U8(u8),
    I8(i8),
    U16(u16),
    I16(i16),
    U32(u32),
    I32(i32),
    F32(u32),
    Bool(bool),
    Str(Seq<char>),
    Array(Seq<Val>),
    U64(u64),
    I64(i64),
    F64(u64),
}

/// A number as a file gives it: the bits of one of two widths, or an integer.
#[derive(Clone, Copy, Debug, PartialEq, Eq)]
pub enum Number {
    F32(u32),
    F64(u64),
    Int(i64),
}

/// What each of `values` holds.
pub open spec fn vals(values: Seq<Value>) -> Seq<Val>
    decreases values,
{
    if values.len() == 0 {
        Seq::empty()
    } else {
        vals(values.drop_last()).push(values.last().val())
    }
}

/// `vals` goes element by element.
pub proof fn lemma_vals(values: Seq<Value>)
    ensures
        vals(values).len() == values.len(),
        forall|i: int| 0 <= i < values.len() ==> #[trigger] vals(values)[i] == values[i].val(),
    decreases values.len(),
{
    if values.len() > 0 {
        lemma_vals(values.drop_last());
    }
}

impl Value {
    /// What the value holds.
    pub open spec fn val(self) -> Val
        decreases self,
    {
        match self {
            Value::U8(v) => Val::U8(v),
            Value::I8(v) => Val::I8(v),
            Value::U16(v) => Val::U16(v),
            Value::I16(v) => Val::I16(v),
            Value::U32(v) => Val::U32(v),
            Value::I32(v) => Val::I32(v),
            Value::F32(v) => Val::F32(v),
            Value::Bool(v) => Val::Bool(v),
            Value::Str(s) => Val::Str(s@),
            Value::Array(values) => Val::Array(vals(values@)),
            Value::U64(v) => Val::U64(v),
            Value::I64(v) => Val::I64(v),
            Value::F64(v) => Val::F64(v),
        }
    }

    /// The value as an integer, whichever width it was written in. One of 64
    /// unsigned bits is read in two's complement.
    pub fn as_i64(&self) -> (r: Option<i64>)
        ensures
            r == self.val().integer(),
    {
        match self {
            Value::U8(v) => Some(*v as i64),
            Value::I8(v) => Some(*v as i64),
            Value::U16(v) => Some(*v as i64),
            Value::I16(v) => Some(*v as i64),
            Value::U32(v) => Some(*v as i64),
            Value::I32(v) => Some(*v as i64),
            Value::U64(v) => {
                let n: u64 = *v;
                proof {
                    crate::bytes::lemma_base();
                    assert(n < 0x8000_0000_0000_0000 ==> n as i64 == n) by (bit_vector);
                    assert(n >= 0x8000_0000_0000_0000 ==> n as i64 == n - 0x1_0000_0000_0000_0000)
                        by (bit_vector);
                }
                Some(n as i64)
            },
            Value::I64(v) => Some(*v),
            _ => None,
        }
    }

    /// The value as a number of whichever kind.
    pub fn number(&self) -> (r: Option<Number>)
        ensures
            r == self.val().number(),
    {
        match self {
            Value::F32(v) => Some(Number::F32(*v)),
            Value::F64(v) => Some(Number::F64(*v)),
            _ => match self.as_i64() {
                Some(v) => Some(Number::Int(v)),
                None => None,
            },
        }
    }

    /// The value as a truth value.
    pub fn as_bool(&self) -> (r: Option<bool>)
        ensures
            r == match self.val() {
                Val::Bool(v) => Some(v),
                _ => None,
            },
    {
        match self {
            Value::Bool(v) => Some(*v),
            _ => None,
        }
    }

    /// The value as text.
    pub fn as_str(&self) -> (r: Option<&str>)
        ensures
            match r {
                Some(s) => self.val() == Val::Str(s@),
                None => !(self.val() is Str),
            },
    {
        match self {
            Value::Str(s) => Some(s.as_str()),
            _ => None,
        }
    }
}

impl Clone for Value {
    fn clone(&self) -> (r: Self)
        ensures
            r.val() == self.val(),
        decreases self,
    {
        match self {
            Value::U8(v) => Value::U8(*v),
            Value::I8(v) => Value::I8(*v),
            Value::U16(v) => Value::U16(*v),
            Value::I16(v) => Value::I16(*v),
            Value::U32(v) => Value::U32(*v),
            Value::I32(v) => Value::I32(*v),
            Value::F32(v) => Value::F32(*v),
            Value::Bool(v) => Value::Bool(*v),
            Value::Str(s) => Value::Str(s.clone()),
            Value::Array(values) => {
                let mut out: Vec<Value> = Vec::new();
                let mut i: usize = 0;
                while i < values.len()
                    invariant
                        i <= values@.len(),
                        *self == Value::Array(*values),
                        vals(out@) == vals(values@.take(i as int)),
                    decreases values@.len() - i,
                {
                    proof {
                        assert(decreases_to!(*self => self->Array_0));
                        assert(decreases_to!(values => values@));
                        assert(decreases_to!(values@ => values@[i as int]));
                    }
                    let v = values[i].clone();
                    proof {
                        assert(out@.push(v).drop_last() =~= out@);
                        assert(values@.take(i + 1).drop_last() =~= values@.take(i as int));
                    }
                    out.push(v);
                    i = i + 1;
                }
                proof {
                    assert(values@.take(values@.len() as int) =~= values@);
                }
                Value::Array(out)
            },
            Value::U64(v) => Value::U64(*v),
            Value::I64(v) => Value::I64(*v),
            Value::F64(v) => Value::F64(*v),
        }
    }
}

impl Val {
    /// The integer, whichever width it was written in.
    pub open spec fn integer(self) -> Option<i64> {
        match self {
            Val::U8(v) => Some(v as i64),
            Val::I8(v) => Some(v as i64),
            Val::U16(v) => Some(v as i64),
            Val::I16(v) => Some(v as i64),
            Val::U32(v) => Some(v as i64),
            Val::I32(v) => Some(v as i64),
            Val::U64(v) => Some(signed(v as nat, 8) as i64),
            Val::I64(v) => Some(v),
            _ => None,
        }
    }

    /// The number, of whichever kind.
    pub open spec fn number(self) -> Option<Number> {
        match self {
            Val::F32(v) => Some(Number::F32(v)),
            Val::F64(v) => Some(Number::F64(v)),
            _ => match self.integer() {
                Some(v) => Some(Number::Int(v)),
                None => None,
            },
        }
    }

    /// The number by which a file names the kind of value.
    pub open spec fn kind(self) -> u32 {
        match self {
            Val::U8(_) => 0,
            Val::I8(_) => 1,
            Val::U16(_) => 2,
            Val::I16(_) => 3,
            Val::U32(_) => 4,
            Val::I32(_) => 5,
            Val::F32(_) => 6,
            Val::Bool(_) => 7,
            Val::Str(_) => 8,
            Val::Array(_) => 9,
            Val::U64(_) => 10,
            Val::I64(_) => 11,
            Val::F64(_) => 12,
        }
    }
}

} // verus!
