//! A file whose head has been read.
use vstd::hash_map::StringHashMap;
use vstd::prelude::*;

use super::layout::{
    alignment, head, lemma_metas_err, lemma_tensors_err, metas_at, round_up, table, tensor_at,
    tensors_at, Desc, Head, Malformed,
};
use super::reader::Reader;
use super::value::{vals, Number, Val, Value};
use crate::bytes::{copy_range, same, u16s, u32s, unsigned, words};
use crate::tensor::{Packing, Tensor};
use crate::text::{decimal, digits, insert_sorted, join2, join3, own, sorted, texts};

verus! {

/// The tensor types the model uses.
pub const F32: u32 = 0;

pub const BF16: u32 = 30;

pub const PTQ1_0: u32 = 143;

/// What cannot be had of a file.
#[derive(Debug, PartialEq, Eq)]
pub enum Error {
    MissingKey(String),
    NotInteger(String),
    OutOfRange,
    NotNumber(String),
    NotString(String),
    NotArray(String),
    MissingTensor(String),
    NoDimensions,
    Type(u32),
    TooLarge,
    PastEnd(String),
    NotF32(String),
    NotBf16(String),
    NotTernary(String),
}

impl Error {
    /// The error in words.
    pub open spec fn text(self) -> Seq<char> {
        match self {
            Error::MissingKey(key) => "missing metadata '"@ + key@ + "'"@,
            Error::NotInteger(key) => "metadata '"@ + key@ + "' is not an integer"@,
            Error::OutOfRange => "out of range integral type conversion attempted"@,
            Error::NotNumber(key) => "metadata '"@ + key@ + "' is not a number"@,
            Error::NotString(key) => "metadata '"@ + key@ + "' is not a string"@,
            Error::NotArray(key) => "metadata '"@ + key@ + "' is not an array"@,
            Error::MissingTensor(name) => "missing tensor '"@ + name@ + "'"@,
            Error::NoDimensions => "a tensor has dimensions"@,
            Error::Type(n) => "tensor type "@ + digits(n as nat) + " is not supported"@,
            Error::TooLarge => "a tensor is larger than memory"@,
            Error::PastEnd(name) => "tensor '"@ + name@ + "' runs past the end of the file"@,
            Error::NotF32(name) => "tensor '"@ + name@ + "' is not f32"@,
            Error::NotBf16(name) => "tensor '"@ + name@ + "' is not a bf16 matrix"@,
            Error::NotTernary(name) => "tensor '"@ + name@ + "' is not a ternary matrix"@,
        }
    }

    /// The error in words.
    pub fn message(&self) -> (s: String)
        ensures
            s@ == self.text(),
    {
        match self {
            Error::MissingKey(key) => join3("missing metadata '", key, "'"),
            Error::NotInteger(key) => join3("metadata '", key, "' is not an integer"),
            Error::OutOfRange => own("out of range integral type conversion attempted"),
            Error::NotNumber(key) => join3("metadata '", key, "' is not a number"),
            Error::NotString(key) => join3("metadata '", key, "' is not a string"),
            Error::NotArray(key) => join3("metadata '", key, "' is not an array"),
            Error::MissingTensor(name) => join3("missing tensor '", name, "'"),
            Error::NoDimensions => own("a tensor has dimensions"),
            Error::Type(n) => join3("tensor type ", &decimal(*n as u64), " is not supported"),
            Error::TooLarge => own("a tensor is larger than memory"),
            Error::PastEnd(name) => join3("tensor '", name, "' runs past the end of the file"),
            Error::NotF32(name) => join3("tensor '", name, "' is not f32"),
            Error::NotBf16(name) => join3("tensor '", name, "' is not a bf16 matrix"),
            Error::NotTernary(name) => join3("tensor '", name, "' is not a ternary matrix"),
        }
    }
}

impl Malformed {
    /// What is wrong with the head of the file at `path`, in words.
    pub open spec fn text(self, path: Seq<char>) -> Seq<char> {
        match self {
            Malformed::Short => "failed to fill whole buffer"@,
            Malformed::Utf8(n, at) => "invalid utf-8 sequence of "@ + digits(n as nat)
                + " bytes from index "@ + digits(at as nat),
            Malformed::BrokenOff(at) => "incomplete utf-8 byte sequence from index "@ + digits(
                at as nat,
            ),
            Malformed::Kind(n) => "unknown metadata type "@ + digits(n as nat),
            Malformed::Magic => path + " is not a GGUF file"@,
            Malformed::Version(n) => "GGUF version "@ + digits(n as nat) + " is not supported"@,
            Malformed::Dimension(n) => "dimension "@ + digits(n as nat) + " is too large"@,
            Malformed::Alignment(n) => "alignment "@ + digits(n as nat) + " is not supported"@,
        }
    }

    /// What is wrong with the head of the file at `path`, in words.
    pub fn message(&self, path: &str) -> (s: String)
        ensures
            s@ == self.text(path@),
    {
        match self {
            Malformed::Short => own("failed to fill whole buffer"),
            Malformed::Utf8(n, at) => {
                let start = join3("invalid utf-8 sequence of ", &decimal(*n), " bytes from index ");
                join2(&start, &decimal(*at))
            },
            Malformed::BrokenOff(at) => join2(
                "incomplete utf-8 byte sequence from index ",
                &decimal(*at),
            ),
            Malformed::Kind(n) => join2("unknown metadata type ", &decimal(*n as u64)),
            Malformed::Magic => join2(path, " is not a GGUF file"),
            Malformed::Version(n) => join3(
                "GGUF version ",
                &decimal(*n as u64),
                " is not supported",
            ),
            Malformed::Dimension(n) => join3("dimension ", &decimal(*n), " is too large"),
            Malformed::Alignment(n) => join3("alignment ", &decimal(*n), " is not supported"),
        }
    }
}

/// Where a tensor is and what it holds.
#[derive(Debug, PartialEq, Eq)]
pub struct Info {
    /// Innermost first: `dims[0]` is the length of a row.
    pub dims: Vec<usize>,
    pub dtype: u32,
    pub offset: u64,
}

/// All dimensions multiplied.
pub open spec fn product(dims: Seq<usize>) -> nat
    decreases dims.len(),
{
    if dims.len() == 0 {
        1
    } else {
        product(dims.drop_last()) * dims.last() as nat
    }
}

/// Bytes that a tensor takes.
pub open spec fn extent(d: Desc, packing: Packing) -> Result<nat, Error> {
    if d.dims.len() == 0 {
        Err(Error::NoDimensions)
    } else {
        let rows = product(d.dims.drop_first());
        if d.dtype == F32 {
            Ok(rows * (d.dims[0] * 4) as nat)
        } else if d.dtype == BF16 {
            Ok(rows * (d.dims[0] * 2) as nat)
        } else if d.dtype == PTQ1_0 {
            Ok(rows * packing.row(d.dims[0] as nat))
        } else {
            Err(Error::Type(d.dtype))
        }
    }
}

/// A product with a factor of zero is zero.
proof fn lemma_product_zero(dims: Seq<usize>, i: int)
    requires
        0 <= i < dims.len(),
        dims[i] == 0,
    ensures
        product(dims) == 0,
    decreases dims.len(),
{
    if i < dims.len() - 1 {
        lemma_product_zero(dims.drop_last(), i);
        assert(0 * dims.last() as nat == 0) by (nonlinear_arith);
    } else {
        let p = product(dims.drop_last());
        assert(p * 0 == 0) by (nonlinear_arith);
    }
}

/// A product does not shrink by factors above zero.
proof fn lemma_product_grows(dims: Seq<usize>, i: int)
    requires
        0 <= i <= dims.len(),
        forall|j: int| 0 <= j < dims.len() ==> dims[j] > 0,
    ensures
        0 < product(dims.take(i)) <= product(dims),
    decreases dims.len(),
{
    if i == dims.len() {
        assert(dims.take(i) =~= dims);
        if dims.len() > 0 {
            lemma_product_grows(dims.drop_last(), i - 1);
            assert(dims.drop_last().take(i - 1) =~= dims.drop_last());
            let p = product(dims.drop_last());
            let q = dims.last() as nat;
            assert(p * q > 0) by (nonlinear_arith)
                requires
                    p > 0,
                    q > 0,
            ;
        }
    } else {
        lemma_product_grows(dims.drop_last(), i);
        assert(dims.drop_last().take(i) =~= dims.take(i));
        let p = product(dims.drop_last());
        let q = dims.last() as nat;
        assert(p * q >= p) by (nonlinear_arith)
            requires
                q > 0,
        ;
    }
}

impl Info {
    /// What is said of the tensor.
    pub open spec fn desc(self) -> Desc {
        Desc { dims: self.dims@, dtype: self.dtype, offset: self.offset }
    }

    /// The shape with the rows first, as [`Tensor`] has it.
    pub fn shape(&self) -> (shape: Vec<usize>)
        ensures
            shape@ == self.dims@.reverse(),
    {
        let n: usize = self.dims.len();
        let mut shape: Vec<usize> = Vec::new();
        let mut i: usize = 0;
        while i < n
            invariant
                i <= n == self.dims@.len(),
                shape@ == self.dims@.reverse().take(i as int),
            decreases n - i,
        {
            shape.push(self.dims[n - 1 - i]);
            i = i + 1;
            assert(shape@ =~= self.dims@.reverse().take(i as int));
        }
        assert(shape@ =~= self.dims@.reverse());
        shape
    }

    /// Bytes the tensor takes.
    pub fn size(&self, packing: &Packing) -> (r: Result<usize, Error>)
        requires
            packing.wf(),
        ensures
            match extent(self.desc(), *packing) {
                Ok(n) => r == if n <= usize::MAX {
                    Ok::<usize, Error>(n as usize)
                } else {
                    Err(Error::TooLarge)
                },
                Err(e) => r == Err::<usize, Error>(e),
            },
    {
        let n: usize = self.dims.len();
        if n == 0 {
            return Err(Error::NoDimensions);
        }
        let cols: usize = self.dims[0];
        let row: Option<usize> = match self.dtype {
            F32 => cols.checked_mul(4),
            BF16 => cols.checked_mul(2),
            PTQ1_0 => packing.row_bytes(cols),
            other => {
                return Err(Error::Type(other));
            },
        };
        let ghost rest = self.dims@.drop_first();
        let ghost unit: nat = if self.dtype == F32 {
            (cols * 4) as nat
        } else if self.dtype == BF16 {
            (cols * 2) as nat
        } else {
            packing.row(cols as nat)
        };
        let mut i: usize = 1;
        while i < n
            invariant
                1 <= i <= n == self.dims@.len(),
                rest == self.dims@.drop_first(),
                extent(self.desc(), *packing) == Ok::<nat, Error>(product(rest) * unit),
                forall|j: int| 0 <= j < i - 1 ==> rest[j] > 0,
            decreases n - i,
        {
            if self.dims[i] == 0 {
                proof {
                    lemma_product_zero(rest, i - 1);
                    assert(0 * unit == 0) by (nonlinear_arith);
                }
                return Ok(0);
            }
            i = i + 1;
        }
        let row: usize = match row {
            Some(row) => row,
            None => {
                proof {
                    lemma_product_grows(rest, 0);
                    let p = product(rest);
                    assert(p * unit >= unit) by (nonlinear_arith)
                        requires
                            p > 0,
                    ;
                }
                return Err(Error::TooLarge);
            },
        };
        if row == 0 {
            assert(product(rest) * 0 == 0) by (nonlinear_arith);
            return Ok(0);
        }
        let mut total: usize = row;
        i = 1;
        assert(rest.take(0) =~= Seq::empty());
        assert(1 * unit == unit) by (nonlinear_arith);
        while i < n
            invariant
                1 <= i <= n == self.dims@.len(),
                rest == self.dims@.drop_first(),
                extent(self.desc(), *packing) == Ok::<nat, Error>(product(rest) * unit),
                forall|j: int| 0 <= j < rest.len() ==> rest[j] > 0,
                row == unit > 0,
                total == product(rest.take(i - 1)) * unit,
            decreases n - i,
        {
            let d: usize = self.dims[i];
            proof {
                assert(rest.take(i as int).drop_last() =~= rest.take(i - 1));
                let p = product(rest.take(i - 1));
                let q = d as nat;
                assert((p * q) * unit == (p * unit) * q) by (nonlinear_arith);
                assert(product(rest.take(i as int)) * unit == total * d);
            }
            total = match total.checked_mul(d) {
                Some(t) => t,
                None => {
                    proof {
                        lemma_product_grows(rest, i as int);
                        let p = product(rest.take(i as int));
                        let q = product(rest);
                        assert(p * unit <= q * unit) by (nonlinear_arith)
                            requires
                                p <= q,
                        ;
                    }
                    return Err(Error::TooLarge);
                },
            };
            i = i + 1;
        }
        assert(rest.take(n - 1) =~= rest);
        Ok(total)
    }
}

/// What keeps a tensor's bytes.
pub ghost enum Lack {
    Size(Error),
    Past,
}

/// Whether an error says of the tensor of a name what keeps its bytes.
pub open spec fn lacks(e: Error, why: Lack, name: Seq<char>) -> bool {
    match why {
        Lack::Size(f) => e == f,
        Lack::Past => e matches Error::PastEnd(n) && n@ == name,
    }
}

/// A file: its bytes, and what its head says of them.
pub struct Gguf<'a> {
    data: &'a [u8],
    packing: Packing,
    data_start: u64,
    meta: StringHashMap<Value>,
    tensors: StringHashMap<Info>,
    names: Vec<String>,
}

/// What a file's bytes are read as: its head, and where tensor data starts.
pub open spec fn parsed(b: Seq<u8>) -> Result<(Head, nat), Malformed> {
    match head(b) {
        Err(e) => Err(e),
        Ok(h) => {
            let k = alignment(table(h.meta));
            if k == 0 || round_up(h.size, k) > u64::MAX {
                Err(Malformed::Alignment(k as u64))
            } else {
                Ok((h, round_up(h.size, k)))
            }
        },
    }
}

/// The table of what comes last under each name, with one more.
proof fn lemma_table_push<T>(items: Seq<(Seq<char>, T)>, item: (Seq<char>, T))
    ensures
        table(items.push(item)) == table(items).insert(item.0, item.1),
{
    assert(items.push(item).drop_last() =~= items);
}

impl<'a> Gguf<'a> {
    /// The metadata by key.
    pub closed spec fn meta_map(&self) -> Map<Seq<char>, Val> {
        self.meta@.map_values(|v: Value| v.val())
    }

    /// What is said of each tensor, by name.
    pub closed spec fn tensor_map(&self) -> Map<Seq<char>, Desc> {
        self.tensors@.map_values(|i: Info| i.desc())
    }

    /// The whole file.
    pub closed spec fn file(&self) -> Seq<u8> {
        self.data@
    }

    /// Where tensor data starts in it.
    pub closed spec fn start(&self) -> nat {
        self.data_start as nat
    }

    /// How its ternary matrices are packed.
    pub closed spec fn packs(&self) -> Packing {
        self.packing
    }

    /// The names are those of the tensors, in order.
    pub closed spec fn wf(&self) -> bool {
        &&& self.packing.wf()
        &&& sorted(texts(self.names@))
        &&& texts(self.names@).to_set() == self.tensors@.dom()
    }

    /// Whether the file has the bytes `b`, and has been read as they say.
    pub open spec fn reads(&self, b: Seq<u8>) -> bool {
        match parsed(b) {
            Ok((h, start)) => self.file() == b && self.meta_map() == table(h.meta)
                && self.tensor_map() == table(h.tensors) && self.start() == start,
            Err(_) => false,
        }
    }

    /// Reads the head of a file. Of what stands twice under one name, the last
    /// is meant. Tensor data starts at the first multiple of the alignment
    /// past the head.
    pub fn open(data: &'a [u8], packing: Packing) -> (r: Result<Gguf<'a>, Malformed>)
        requires
            packing.wf(),
        ensures
            match r {
                Ok(g) => g.wf() && g.packs() == packing && g.reads(data@),
                Err(e) => parsed(data@) == Err::<(Head, nat), Malformed>(e),
            },
    {
        let ghost b = data@;
        let mut r = Reader { data, read: 0 };
        match r.bytes(4) {
            Ok(s) => {
                let magic: [u8; 4] = [0x47, 0x47, 0x55, 0x46];
                assert(magic@ =~= super::layout::magic());
                if !same(s, magic.as_slice()) {
                    return Err(Malformed::Magic);
                }
            },
            Err(e) => {
                return Err(e);
            },
        }
        match r.u32() {
            Ok(version) => {
                if version != 3 {
                    return Err(Malformed::Version(version));
                }
            },
            Err(e) => {
                return Err(e);
            },
        }
        let n_tensors: u64 = match r.u64() {
            Ok(n) => n,
            Err(e) => {
                return Err(e);
            },
        };
        let n_meta: u64 = match r.u64() {
            Ok(n) => n,
            Err(e) => {
                return Err(e);
            },
        };
        let meta = match Self::read_meta(&mut r, n_meta) {
            Ok(meta) => meta,
            Err(e) => {
                return Err(e);
            },
        };
        let ghost middle = r.read as nat;
        let (tensors, names) = match Self::read_tensors(&mut r, n_tensors) {
            Ok(t) => t,
            Err(e) => {
                return Err(e);
            },
        };
        let ghost h = head(b)->Ok_0;
        proof {
            assert(r.read == h.size);
            assert(meta@.map_values(|v: Value| v.val()) == table(h.meta));
            if meta@.contains_key("general.alignment"@) {
                assert(table(h.meta)["general.alignment"@]
                    == meta@["general.alignment"@].val());
            } else {
                assert(!table(h.meta).contains_key("general.alignment"@));
            }
        }
        let k: u64 = match meta.get("general.alignment") {
            Some(v) => match v.as_i64() {
                Some(n) => Self::wrap(n),
                None => 32,
            },
            None => 32,
        };
        if k == 0 {
            return Err(Malformed::Alignment(k));
        }
        match Self::align(r.read as u64, k) {
            Some(data_start) => Ok(Gguf { data, packing, data_start, meta, tensors, names }),
            None => Err(Malformed::Alignment(k)),
        }
    }

    /// The bits of a signed number as those of one that is not.
    fn wrap(n: i64) -> (r: u64)
        ensures
            r == unsigned(n as int, 8),
    {
        proof {
            crate::bytes::lemma_base();
            assert(n >= 0 ==> n as u64 == n) by (bit_vector);
            assert(n < 0 ==> n as u64 == n + 0x1_0000_0000_0000_0000) by (bit_vector);
        }
        n as u64
    }

    /// The first multiple of `k` that is not below `n`, where it can be counted.
    fn align(n: u64, k: u64) -> (r: Option<u64>)
        requires
            k > 0,
        ensures
            match r {
                Some(m) => m == round_up(n as nat, k as nat),
                None => round_up(n as nat, k as nat) > u64::MAX,
            },
    {
        let rest: u64 = n % k;
        proof {
            let q = (n / k) as int;
            vstd::arithmetic::div_mod::lemma_fundamental_div_mod(n as int, k as int);
            assert(q * k == k * q) by (nonlinear_arith);
            if rest == 0 {
                vstd::arithmetic::div_mod::lemma_fundamental_div_mod_converse(
                    n + k - 1,
                    k as int,
                    q,
                    k - 1,
                );
            } else {
                assert((q + 1) * k == q * k + k) by (nonlinear_arith);
                vstd::arithmetic::div_mod::lemma_fundamental_div_mod_converse(
                    n + k - 1,
                    k as int,
                    q + 1,
                    rest - 1,
                );
            }
        }
        if rest == 0 {
            Some(n)
        } else {
            n.checked_add(k - rest)
        }
    }

    /// Reads `n` keys and their values.
    fn read_meta(r: &mut Reader<'a>, n: u64) -> (out: Result<StringHashMap<Value>, Malformed>)
        requires
            old(r).wf(),
        ensures
            final(r).wf(),
            final(r).data == old(r).data,
            match (out, metas_at(old(r).data@, old(r).read as nat, n as nat)) {
                (Ok(meta), Ok((items, size))) => final(r).read == old(r).read + size
                    && meta@.map_values(|v: Value| v.val()) == table(items),
                (Err(e), Err(f)) => e == f,
                _ => false,
            },
    {
        let ghost b = r.data@;
        let ghost at = r.read as nat;
        let mut meta: StringHashMap<Value> = StringHashMap::new();
        let ghost mut items: Seq<(Seq<char>, Val)> = Seq::empty();
        assert(meta@.map_values(|v: Value| v.val()) =~= table(items));
        let mut i: u64 = 0;
        while i < n
            invariant
                i <= n,
                r.wf(),
                r.data == old(r).data,
                b == r.data@,
                at == old(r).read <= r.read,
                metas_at(b, at, i as nat) == Ok::<(Seq<(Seq<char>, Val)>, nat), Malformed>(
                    (items, (r.read - at) as nat),
                ),
                meta@.map_values(|v: Value| v.val()) == table(items),
            decreases n - i,
        {
            let ghost here = r.read as nat;
            let key = match r.string() {
                Ok(key) => key,
                Err(e) => {
                    proof {
                        lemma_metas_err(b, at, (i + 1) as nat, n as nat);
                    }
                    return Err(e);
                },
            };
            let kind: u32 = match r.u32() {
                Ok(kind) => kind,
                Err(e) => {
                    proof {
                        lemma_metas_err(b, at, (i + 1) as nat, n as nat);
                    }
                    return Err(e);
                },
            };
            let v = match r.value(kind) {
                Ok(v) => v,
                Err(e) => {
                    proof {
                        lemma_metas_err(b, at, (i + 1) as nat, n as nat);
                    }
                    return Err(e);
                },
            };
            proof {
                let item = (key@, v.val());
                lemma_table_push(items, item);
                items = items.push(item);
                assert(meta@.insert(key@, v).map_values(|v: Value| v.val())
                    =~= meta@.map_values(|v: Value| v.val()).insert(key@, v.val()));
            }
            meta.insert(key, v);
            i = i + 1;
        }
        Ok(meta)
    }

    /// Reads what is said of `n` tensors.
    fn read_tensors(r: &mut Reader<'a>, n: u64) -> (out: Result<
        (StringHashMap<Info>, Vec<String>),
        Malformed,
    >)
        requires
            old(r).wf(),
        ensures
            final(r).wf(),
            final(r).data == old(r).data,
            match (out, tensors_at(old(r).data@, old(r).read as nat, n as nat)) {
                (Ok((tensors, names)), Ok((items, size))) => final(r).read == old(r).read + size
                    && tensors@.map_values(|i: Info| i.desc()) == table(items) && sorted(
                    texts(names@),
                ) && texts(names@).to_set() == tensors@.dom(),
                (Err(e), Err(f)) => e == f,
                _ => false,
            },
    {
        let ghost b = r.data@;
        let ghost at = r.read as nat;
        let mut tensors: StringHashMap<Info> = StringHashMap::new();
        let mut names: Vec<String> = Vec::new();
        let ghost mut items: Seq<(Seq<char>, Desc)> = Seq::empty();
        assert(tensors@.map_values(|i: Info| i.desc()) =~= table(items));
        assert(texts(names@).to_set() =~= tensors@.dom());
        let mut i: u64 = 0;
        while i < n
            invariant
                i <= n,
                r.wf(),
                r.data == old(r).data,
                b == r.data@,
                at == old(r).read <= r.read,
                tensors_at(b, at, i as nat) == Ok::<(Seq<(Seq<char>, Desc)>, nat), Malformed>(
                    (items, (r.read - at) as nat),
                ),
                tensors@.map_values(|i: Info| i.desc()) == table(items),
                sorted(texts(names@)),
                texts(names@).to_set() == tensors@.dom(),
            decreases n - i,
        {
            match Self::read_tensor(r) {
                Ok((name, info)) => {
                    proof {
                        let item = (name@, info.desc());
                        lemma_table_push(items, item);
                        items = items.push(item);
                        assert(tensors@.insert(name@, info).map_values(|i: Info| i.desc())
                            =~= tensors@.map_values(|i: Info| i.desc()).insert(
                            name@,
                            info.desc(),
                        ));
                        assert(tensors@.insert(name@, info).dom() =~= tensors@.dom().insert(name@));
                    }
                    insert_sorted(&mut names, &name);
                    tensors.insert(name, info);
                },
                Err(e) => {
                    proof {
                        lemma_tensors_err(b, at, (i + 1) as nat, n as nat);
                    }
                    return Err(e);
                },
            }
            i = i + 1;
        }
        Ok((tensors, names))
    }

    /// Reads what is said of a tensor.
    fn read_tensor(r: &mut Reader<'a>) -> (out: Result<(String, Info), Malformed>)
        requires
            old(r).wf(),
        ensures
            final(r).wf(),
            final(r).data == old(r).data,
            match (out, tensor_at(old(r).data@, old(r).read as nat)) {
                (Ok((name, info)), Ok((item, size))) => final(r).read == old(r).read + size
                    && item == (name@, info.desc()),
                (Err(e), Err(f)) => e == f,
                _ => false,
            },
    {
        let name = match r.string() {
            Ok(name) => name,
            Err(e) => {
                return Err(e);
            },
        };
        let n: u32 = match r.u32() {
            Ok(n) => n,
            Err(e) => {
                return Err(e);
            },
        };
        let dims = match r.dims(n) {
            Ok(dims) => dims,
            Err(e) => {
                return Err(e);
            },
        };
        let dtype: u32 = match r.u32() {
            Ok(n) => n,
            Err(e) => {
                return Err(e);
            },
        };
        let offset: u64 = match r.u64() {
            Ok(n) => n,
            Err(e) => {
                return Err(e);
            },
        };
        Ok((name, Info { dims, dtype, offset }))
    }

    /// The value of a key.
    pub fn get(&self, key: &str) -> (r: Option<&Value>)
        ensures
            match r {
                Some(v) => self.meta_map().contains_key(key@) && v.val() == self.meta_map()[key@],
                None => !self.meta_map().contains_key(key@),
            },
    {
        self.meta.get(key)
    }

    /// The value of a key that has to be there.
    pub fn need(&self, key: &str) -> (r: Result<&Value, Error>)
        ensures
            match r {
                Ok(v) => self.meta_map().contains_key(key@) && v.val() == self.meta_map()[key@],
                Err(e) => !self.meta_map().contains_key(key@) && missing(e, key@),
            },
    {
        match self.get(key) {
            Some(v) => Ok(v),
            None => Err(Error::MissingKey(own(key))),
        }
    }

    /// The value of a key as a number of 32 bits without a sign.
    pub fn u32(&self, key: &str) -> (r: Result<u32, Error>)
        ensures
            match r {
                Ok(n) => integer_of(self.meta_map(), key@) == Some(n as int),
                Err(e) => match integer_of(self.meta_map(), key@) {
                    Some(n) => !(0 <= n <= u32::MAX) && e == Error::OutOfRange,
                    None => if self.meta_map().contains_key(key@) {
                        e matches Error::NotInteger(k) && k@ == key@
                    } else {
                        missing(e, key@)
                    },
                },
            },
    {
        let v = match self.need(key) {
            Ok(v) => v,
            Err(e) => {
                return Err(e);
            },
        };
        match v.as_i64() {
            Some(n) => if 0 <= n && n <= u32::MAX as i64 {
                Ok(n as u32)
            } else {
                Err(Error::OutOfRange)
            },
            None => Err(Error::NotInteger(own(key))),
        }
    }

    /// The value of a key as a number of whichever kind.
    pub fn number(&self, key: &str) -> (r: Result<Number, Error>)
        ensures
            match r {
                Ok(n) => self.meta_map().contains_key(key@) && self.meta_map()[key@].number()
                    == Some(n),
                Err(e) => if self.meta_map().contains_key(key@) {
                    self.meta_map()[key@].number() is None && (e matches Error::NotNumber(k) && k@
                        == key@)
                } else {
                    missing(e, key@)
                },
            },
    {
        let v = match self.need(key) {
            Ok(v) => v,
            Err(e) => {
                return Err(e);
            },
        };
        match v.number() {
            Some(n) => Ok(n),
            None => Err(Error::NotNumber(own(key))),
        }
    }

    /// The value of a key as text.
    pub fn str(&self, key: &str) -> (r: Result<&str, Error>)
        ensures
            match r {
                Ok(s) => self.meta_map().contains_key(key@) && self.meta_map()[key@] == Val::Str(s@),
                Err(e) => if self.meta_map().contains_key(key@) {
                    !(self.meta_map()[key@] is Str) && (e matches Error::NotString(k) && k@
                        == key@)
                } else {
                    missing(e, key@)
                },
            },
    {
        let v = match self.need(key) {
            Ok(v) => v,
            Err(e) => {
                return Err(e);
            },
        };
        match v.as_str() {
            Some(s) => Ok(s),
            None => Err(Error::NotString(own(key))),
        }
    }

    /// The value of a key as an array.
    pub fn array(&self, key: &str) -> (r: Result<&[Value], Error>)
        ensures
            match r {
                Ok(values) => self.meta_map().contains_key(key@) && self.meta_map()[key@]
                    == Val::Array(vals(values@)),
                Err(e) => if self.meta_map().contains_key(key@) {
                    !(self.meta_map()[key@] is Array) && (e matches Error::NotArray(k) && k@
                        == key@)
                } else {
                    missing(e, key@)
                },
            },
    {
        match self.need(key) {
            Ok(v) => match v {
                Value::Array(values) => Ok(values.as_slice()),
                _ => Err(Error::NotArray(own(key))),
            },
            Err(e) => Err(e),
        }
    }

    /// Names of every tensor, in order.
    pub fn tensors(&self) -> (names: &[String])
        requires
            self.wf(),
        ensures
            sorted(texts(names@)),
            texts(names@).to_set() == self.tensor_map().dom(),
    {
        assert(self.tensor_map().dom() =~= self.tensors@.dom());
        self.names.as_slice()
    }

    /// What is said of a tensor.
    pub fn info(&self, name: &str) -> (r: Result<&Info, Error>)
        ensures
            match r {
                Ok(info) => self.tensor_map().contains_key(name@) && info.desc()
                    == self.tensor_map()[name@],
                Err(e) => !self.tensor_map().contains_key(name@) && no_tensor(e, name@),
            },
    {
        match self.tensors.get(name) {
            Some(info) => Ok(info),
            None => Err(Error::MissingTensor(own(name))),
        }
    }

    /// The raw bytes of a tensor.
    pub fn bytes(&self, name: &str) -> (r: Result<&'a [u8], Error>)
        requires
            self.wf(),
        ensures
            if !self.tensor_map().contains_key(name@) {
                r matches Err(e) && no_tensor(e, name@)
            } else {
                let d = self.tensor_map()[name@];
                match self.holds(d) {
                    Ok(s) => r matches Ok(t) && t@ == s,
                    Err(why) => r matches Err(e) && lacks(e, why, name@),
                }
            },
    {
        let info = match self.info(name) {
            Ok(info) => info,
            Err(e) => {
                return Err(e);
            },
        };
        let size: usize = match info.size(&self.packing) {
            Ok(n) => n,
            Err(e) => {
                return Err(e);
            },
        };
        let len: usize = self.data.len();
        if info.offset > len as u64 || self.data_start > len as u64 - info.offset {
            return Err(Error::PastEnd(own(name)));
        }
        let start: u64 = self.data_start + info.offset;
        if size as u64 > len as u64 - start {
            return Err(Error::PastEnd(own(name)));
        }
        Ok(vstd::slice::slice_subrange(self.data, start as usize, start as usize + size))
    }

    /// None of the file's bytes.
    pub fn nothing(&self) -> (r: &'a [u8])
        ensures
            r@ == Seq::<u8>::empty(),
    {
        let r = vstd::slice::slice_subrange(self.data, 0, 0);
        assert(r@ =~= Seq::empty());
        r
    }

    /// Bytes of a row of `cols` ternary weights, where the machine can count
    /// them.
    pub fn row_bytes(&self, cols: usize) -> (r: Option<usize>)
        requires
            self.wf(),
        ensures
            match r {
                Some(n) => n == self.packs().row(cols as nat),
                None => self.packs().row(cols as nat) > usize::MAX,
            },
    {
        self.packing.row_bytes(cols)
    }

    /// The bytes of a tensor of which `d` is said, or what keeps them: an
    /// extent that is not one or that memory cannot hold, or the file's end.
    pub open spec fn holds(&self, d: Desc) -> Result<Seq<u8>, Lack> {
        match extent(d, self.packs()) {
            Err(e) => Err(Lack::Size(e)),
            Ok(n) => if n > usize::MAX {
                Err(Lack::Size(Error::TooLarge))
            } else if self.start() + d.offset + n > self.file().len() {
                Err(Lack::Past)
            } else {
                Ok(
                    self.file().subrange(
                        (self.start() + d.offset) as int,
                        (self.start() + d.offset + n) as int,
                    ),
                )
            },
        }
    }

    /// Copies out the bits of an f32 tensor.
    pub fn f32s(&self, name: &str) -> (r: Result<Vec<u32>, Error>)
        requires
            self.wf(),
        ensures
            if !self.tensor_map().contains_key(name@) {
                r matches Err(e) && no_tensor(e, name@)
            } else {
                let d = self.tensor_map()[name@];
                if d.dtype != F32 {
                    r matches Err(Error::NotF32(n)) && n@ == name@
                } else {
                    match self.holds(d) {
                        Ok(s) => r matches Ok(out) && out@.len() == s.len() / 4 && forall|i: int|
                            0 <= i < out@.len() ==> #[trigger] out@[i] == words(s, 4)[i],
                        Err(why) => r matches Err(e) && lacks(e, why, name@),
                    }
                }
            },
    {
        let info = match self.info(name) {
            Ok(info) => info,
            Err(e) => {
                return Err(e);
            },
        };
        if info.dtype != F32 {
            return Err(Error::NotF32(own(name)));
        }
        match self.bytes(name) {
            Ok(s) => Ok(u32s(s)),
            Err(e) => Err(e),
        }
    }

    /// Copies out a bf16 matrix.
    pub fn bf16(&self, name: &str) -> (r: Result<Tensor, Error>)
        requires
            self.wf(),
        ensures
            if !self.tensor_map().contains_key(name@) {
                r matches Err(e) && no_tensor(e, name@)
            } else {
                let d = self.tensor_map()[name@];
                if d.dtype != BF16 || d.dims.len() != 2 {
                    r matches Err(Error::NotBf16(n)) && n@ == name@
                } else {
                    match self.holds(d) {
                        Ok(s) => r matches Ok(Tensor::Bf16 { shape, data }) && shape@ == seq![
                            d.dims[1],
                            d.dims[0],
                        ] && data@.len() == s.len() / 2 && forall|i: int|
                            0 <= i < data@.len() ==> #[trigger] data@[i] == words(s, 2)[i],
                        Err(why) => r matches Err(e) && lacks(e, why, name@),
                    }
                }
            },
    {
        let info = match self.info(name) {
            Ok(info) => info,
            Err(e) => {
                return Err(e);
            },
        };
        if info.dtype != BF16 || info.dims.len() != 2 {
            return Err(Error::NotBf16(own(name)));
        }
        match self.bytes(name) {
            Ok(s) => {
                let shape = info.shape();
                assert(shape@ =~= seq![info.dims@[1], info.dims@[0]]);
                Ok(Tensor::Bf16 { shape, data: u16s(s) })
            },
            Err(e) => Err(e),
        }
    }

    /// Copies out a ternary matrix.
    pub fn ternary(&self, name: &str) -> (r: Result<Tensor, Error>)
        requires
            self.wf(),
        ensures
            if !self.tensor_map().contains_key(name@) {
                r matches Err(e) && no_tensor(e, name@)
            } else {
                let d = self.tensor_map()[name@];
                if d.dtype != PTQ1_0 || d.dims.len() != 2 {
                    r matches Err(Error::NotTernary(n)) && n@ == name@
                } else {
                    match self.holds(d) {
                        Ok(s) => r matches Ok(Tensor::Ternary { shape, data }) && shape@ == seq![
                            d.dims[1],
                            d.dims[0],
                        ] && data@ == s,
                        Err(why) => r matches Err(e) && lacks(e, why, name@),
                    }
                }
            },
    {
        let info = match self.info(name) {
            Ok(info) => info,
            Err(e) => {
                return Err(e);
            },
        };
        if info.dtype != PTQ1_0 || info.dims.len() != 2 {
            return Err(Error::NotTernary(own(name)));
        }
        match self.bytes(name) {
            Ok(s) => {
                let shape = info.shape();
                assert(shape@ =~= seq![info.dims@[1], info.dims@[0]]);
                Ok(Tensor::Ternary { shape, data: copy_range(s, 0, s.len()) })
            },
            Err(e) => Err(e),
        }
    }
}

/// The integer under a key.
pub open spec fn integer_of(meta: Map<Seq<char>, Val>, key: Seq<char>) -> Option<int> {
    if meta.contains_key(key) {
        match meta[key].integer() {
            Some(n) => Some(n as int),
            None => None,
        }
    } else {
        None
    }
}

/// The error of a key that is not there.
pub open spec fn missing(e: Error, key: Seq<char>) -> bool {
    e matches Error::MissingKey(k) && k@ == key
}

/// The error of a tensor that is not there.
pub open spec fn no_tensor(e: Error, name: Seq<char>) -> bool {
    e matches Error::MissingTensor(n) && n@ == name
}

} // verus!
