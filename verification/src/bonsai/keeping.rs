//! Saving the state of a sequence, and taking it up again.
use vstd::prelude::*;

use super::network::Model;
use super::saved::{
    cache_at, field, floats_at, halves_at, header, image, keys, state_magic, states, taken_up,
    unsaved, Extents, STATE_VERSION,
};
use super::state::{contents, each_caches, each_holds, halves, lemma_each_holds, lemma_within};
use crate::bytes::{push_all, push_le, push_u16s, push_u32s, read_le, same, u16s, u32s};
use crate::device::{splice, Device};
use crate::text::{decimal, join3, own};

verus! {

/// What is left once `times` runs of `n` items of `k` bytes each are taken, if
/// there is as much.
fn take_off(left: usize, times: usize, n: usize, k: usize) -> (r: Option<usize>)
    requires
        k > 0,
    ensures
        match r {
            Some(rest) => times * (k * n) <= left && rest == left - times * (k * n),
            None => times * (k * n) > left,
        },
{
    let ghost size = k * n;
    let mut rest: usize = left;
    let mut i: usize = 0;
    proof {
        assert(size >= 0) by (nonlinear_arith)
            requires
                size == k * n,
        ;
        assert(0 * size == 0) by (nonlinear_arith);
    }
    while i < times
        invariant
            k > 0,
            size == k * n,
            size >= 0,
            i <= times,
            rest == left - i * size,
            i * size >= 0,
        decreases times - i,
    {
        proof {
            vstd::arithmetic::div_mod::lemma_fundamental_div_mod(rest as int, k as int);
            let q = (rest / k) as int;
            let r = (rest % k) as int;
            if n <= q {
                assert(k * n <= k * q) by (nonlinear_arith)
                    requires
                        n <= q,
                        k > 0,
                ;
            } else {
                assert(k * n >= k * q + k) by (nonlinear_arith)
                    requires
                        n >= q + 1,
                        k > 0,
                ;
            }
            assert((i + 1) * size == i * size + size) by (nonlinear_arith);
            assert((i + 1) * size <= times * size) by (nonlinear_arith)
                requires
                    i + 1 <= times,
                    size >= 0,
            ;
        }
        if n > rest / k {
            return None;
        }
        rest = rest - k * n;
        i = i + 1;
    }
    Some(rest)
}

impl<'a, D: Device> Model<'a, D> {
    /// The dimensions that a saved state tells.
    pub open spec fn extents(&self) -> Extents {
        Extents {
            caches: self.caches() as nat,
            slots: self.slots() as nat,
            kv: self.config.kv_dim() as nat,
            conv: self.config.conv_width() as nat,
            ssm: self.config.ssm_width() as nat,
        }
    }

    /// Appends the first `width` halves of each cache.
    fn push_caches(&self, out: &mut Vec<u8>, caches: &Vec<D::Cache>, width: usize)
        requires
            forall|i: int|
                0 <= i < caches@.len() ==> (#[trigger] D::cached(&caches@[i])).len() >= width,
        ensures
            final(out)@ == old(out)@ + keys(
                halves::<D>(caches@),
                caches@.len() as int,
                width as int,
            ),
    {
        let ghost k = halves::<D>(caches@);
        let mut i: usize = 0;
        assert(out@ =~= old(out)@ + keys(k, 0, width as int));
        while i < caches.len()
            invariant
                i <= caches@.len(),
                k == halves::<D>(caches@),
                forall|i: int|
                    0 <= i < caches@.len() ==> (#[trigger] D::cached(&caches@[i])).len() >= width,
                out@ == old(out)@ + keys(k, i as int, width as int),
            decreases caches@.len() - i,
        {
            assert(D::cached(&caches@[i as int]).len() >= width);
            let list = self.device.read_cache(&caches[i], width);
            push_u16s(out, list.as_slice());
            assert(out@ =~= old(out)@ + keys(k, i + 1, width as int));
            i = i + 1;
        }
    }

    /// Appends the states of the linear layers.
    fn push_states(&self, out: &mut Vec<u8>, conv: &Vec<D::Buffer>)
        requires
            conv@.len() == self.state.ssm_state@.len(),
        ensures
            final(out)@ == old(out)@ + states(
                contents::<D>(conv@),
                contents::<D>(self.state.ssm_state@),
                conv@.len() as int,
            ),
    {
        let ghost a = contents::<D>(conv@);
        let ghost b = contents::<D>(self.state.ssm_state@);
        let mut i: usize = 0;
        assert(out@ =~= old(out)@ + states(a, b, 0));
        while i < conv.len()
            invariant
                i <= conv@.len() == self.state.ssm_state@.len(),
                a == contents::<D>(conv@),
                b == contents::<D>(self.state.ssm_state@),
                out@ == old(out)@ + states(a, b, i as int),
            decreases conv@.len() - i,
        {
            let one = self.device.read(&conv[i]);
            push_u32s(out, one.as_slice());
            let two = self.device.read(&self.state.ssm_state[i]);
            push_u32s(out, two.as_slice());
            assert(out@ =~= old(out)@ + states(a, b, i + 1));
            i = i + 1;
        }
    }

    /// The state after the first `len` positions, as bytes.
    pub fn dump(&self, len: usize) -> (out: Vec<u8>)
        requires
            self.loaded(),
            len <= self.room(),
        ensures
            out@ == image(self.extents(), self.mem(), len as nat),
    {
        let c = &self.config;
        let s = &self.state;
        let kv: usize = self.dims.kv_dim;
        proof {
            lemma_within(len as int, s.max_len as int, c.kv_dim());
        }
        let ghost e = self.extents();
        let magic: [u8; 8] = [0x64, 0x77, 0x69, 0x6d, 0x73, 0x74, 0x61, 0x74];
        assert(magic@ =~= state_magic());
        let mut out: Vec<u8> = Vec::new();
        push_all(&mut out, magic.as_slice());
        push_le(&mut out, STATE_VERSION as u64, 4);
        push_le(&mut out, len as u64, 8);
        push_le(&mut out, s.k_cache.len() as u64, 8);
        push_le(&mut out, s.ssm_state.len() as u64, 8);
        push_le(&mut out, kv as u64, 8);
        push_le(&mut out, self.dims.conv_width as u64, 8);
        push_le(&mut out, self.dims.ssm_width as u64, 8);
        assert(out@ =~= header(e, len as nat));
        self.push_caches(&mut out, &s.k_cache, len * kv);
        self.push_caches(&mut out, &s.v_cache, len * kv);
        if s.parity {
            self.push_states(&mut out, &s.conv_a);
        } else {
            self.push_states(&mut out, &s.conv_b);
        }
        out
    }

    /// How many positions a saved state has, or what is wrong with it.
    fn check(&self, state: &[u8]) -> (r: Result<usize, String>)
        requires
            self.loaded(),
        ensures
            match r {
                Ok(len) => unsaved(state@, self.extents(), self.room()) is None && len == field(
                    state@,
                    0,
                ),
                Err(e) => unsaved(state@, self.extents(), self.room()) == Some(e@),
            },
    {
        let s = &self.state;
        let n: usize = state.len();
        let ghost e = self.extents();
        if n < 8 {
            return Err(own("the saved state is cut short"));
        }
        let magic: [u8; 8] = [0x64, 0x77, 0x69, 0x6d, 0x73, 0x74, 0x61, 0x74];
        assert(magic@ =~= state_magic());
        let start = vstd::slice::slice_subrange(state, 0, 8);
        assert(start@ =~= state@.take(8));
        if !same(start, magic.as_slice()) {
            return Err(own("not a saved state"));
        }
        if n < 12 {
            return Err(own("the saved state is cut short"));
        }
        if read_le(state, 8, 4) != STATE_VERSION as u64 {
            return Err(own("a saved state of another version"));
        }
        if n < 60 {
            return Err(own("the saved state is cut short"));
        }
        let len: u64 = read_le(state, 12, 8);
        let caches: u64 = read_le(state, 20, 8);
        let slots: u64 = read_le(state, 28, 8);
        let kv: u64 = read_le(state, 36, 8);
        let conv: u64 = read_le(state, 44, 8);
        let ssm: u64 = read_le(state, 52, 8);
        proof {
            let c = &self.config;
            assert(c.kv_dim() >= 0) by (nonlinear_arith)
                requires
                    c.kv_dim() == c.kv_heads * c.head_dim,
            ;
        }
        if caches != s.k_cache.len() as u64 || slots != s.ssm_state.len() as u64 || kv
            != self.dims.kv_dim as u64 || conv != self.dims.conv_width as u64 || ssm
            != self.dims.ssm_width as u64 {
            return Err(own("a saved state of another model"));
        }
        if len > s.max_len as u64 {
            return Err(
                join3(
                    "a saved state of ",
                    &decimal(len),
                    " tokens does not fit in the context",
                ),
            );
        }
        let len: usize = len as usize;
        proof {
            lemma_within(len as int, s.max_len as int, self.config.kv_dim());
            let width = (len * e.kv) as int;
            let (a, b, slots) = (e.conv as int, e.ssm as int, e.slots as int);
            assert(slots * (4 * a + 4 * b) == slots * (4 * a) + slots * (4 * b))
                by (nonlinear_arith);
            let caches = e.caches as int;
            assert(caches * (2 * width) >= 0) by (nonlinear_arith)
                requires
                    caches >= 0,
                    width >= 0,
            ;
            assert(slots * (4 * a) >= 0) by (nonlinear_arith)
                requires
                    slots >= 0,
                    a >= 0,
            ;
            assert(slots * (4 * b) >= 0) by (nonlinear_arith)
                requires
                    slots >= 0,
                    b >= 0,
            ;
        }
        let width: usize = len * self.dims.kv_dim;
        let rest: usize = match take_off(n - 60, s.k_cache.len(), width, 2) {
            Some(rest) => rest,
            None => {
                return Err(own("the saved state is cut short"));
            },
        };
        let rest: usize = match take_off(rest, s.v_cache.len(), width, 2) {
            Some(rest) => rest,
            None => {
                return Err(own("the saved state is cut short"));
            },
        };
        let rest: usize = match take_off(rest, s.ssm_state.len(), self.dims.conv_width, 4) {
            Some(rest) => rest,
            None => {
                return Err(own("the saved state is cut short"));
            },
        };
        match take_off(rest, s.ssm_state.len(), self.dims.ssm_width, 4) {
            Some(_) => Ok(len),
            None => Err(own("the saved state is cut short")),
        }
    }

    /// Writes saved halves into the start of each cache.
    fn fill_caches(
        d: &D,
        caches: &mut Vec<D::Cache>,
        state: &[u8],
        at: usize,
        width: usize,
        room: Ghost<int>,
    )
        requires
            each_caches::<D>(old(caches)@, room@),
            width <= room@,
            at + old(caches)@.len() * (2 * width) <= state@.len(),
        ensures
            final(caches)@.len() == old(caches)@.len(),
            each_caches::<D>(final(caches)@, room@),
            halves::<D>(final(caches)@) == Seq::new(
                old(caches)@.len(),
                |j: int|
                    splice(
                        D::cached(&old(caches)@[j]),
                        0,
                        halves_at(state@, at + j * (2 * width), width as nat),
                    ),
            ),
    {
        let total: usize = state.len();
        let n: usize = caches.len();
        let ghost first = caches@;
        let mut i: usize = 0;
        let mut from: usize = at;
        assert(0 * (2 * width) == 0) by (nonlinear_arith);
        while i < n
            invariant
                total == state@.len(),
                n == first.len() == caches@.len(),
                first == old(caches)@,
                i <= n,
                at + n * (2 * width) <= total,
                from == at + i * (2 * width),
                width <= room@,
                each_caches::<D>(first, room@),
                each_caches::<D>(caches@, room@),
                forall|j: int| i <= j < n ==> #[trigger] caches@[j] == first[j],
                forall|j: int|
                    0 <= j < i ==> #[trigger] D::cached(&caches@[j]) == splice(
                        D::cached(&first[j]),
                        0,
                        halves_at(state@, at + j * (2 * width), width as nat),
                    ),
            decreases n - i,
        {
            proof {
                assert((i + 1) * (2 * width) == i * (2 * width) + 2 * width) by (nonlinear_arith);
                assert((i + 1) * (2 * width) <= n * (2 * width)) by (nonlinear_arith)
                    requires
                        i + 1 <= n,
                ;
                assert(0 <= i * (2 * width)) by (nonlinear_arith);
            }
            let list = u16s(vstd::slice::slice_subrange(state, from, from + 2 * width));
            assert(list@ =~= halves_at(state@, from as int, width as nat));
            let ghost before = caches@;
            assert(D::cached(&before[i as int]).len() == room@);
            d.write_cache(&mut caches[i], list.as_slice());
            proof {
                assert forall|j: int| 0 <= j < n implies (#[trigger] D::cached(
                    &caches@[j],
                )).len() == room@ by {
                    assert(D::cached(&before[j]).len() == room@);
                }
                assert forall|j: int| 0 <= j < i + 1 implies #[trigger] D::cached(&caches@[j])
                    == splice(
                    D::cached(&first[j]),
                    0,
                    halves_at(state@, at + j * (2 * width), width as nat),
                ) by {
                    if j < i {
                        assert(caches@[j] == before[j]);
                        assert(D::cached(&before[j]) == splice(
                            D::cached(&first[j]),
                            0,
                            halves_at(state@, at + j * (2 * width), width as nat),
                        ));
                    }
                }
            }
            from = from + 2 * width;
            i = i + 1;
        }
        proof {
            assert(halves::<D>(caches@) =~= Seq::new(
                first.len(),
                |j: int|
                    splice(
                        D::cached(&first[j]),
                        0,
                        halves_at(state@, at + j * (2 * width), width as nat),
                    ),
            ));
        }
    }

    /// Writes saved activations into each of two lists of buffers in turn.
    fn fill_buffers(
        d: &D,
        one: &mut Vec<D::Buffer>,
        two: &mut Vec<D::Buffer>,
        state: &[u8],
        at: usize,
        a: usize,
        b: usize,
    )
        requires
            old(one)@.len() == old(two)@.len(),
            each_holds::<D>(old(one)@, a as int),
            each_holds::<D>(old(two)@, b as int),
            at + old(one)@.len() * (4 * a + 4 * b) <= state@.len(),
        ensures
            final(one)@.len() == old(one)@.len(),
            final(two)@.len() == old(two)@.len(),
            each_holds::<D>(final(one)@, a as int),
            each_holds::<D>(final(two)@, b as int),
            contents::<D>(final(one)@) == Seq::new(
                old(one)@.len(),
                |j: int| floats_at(state@, at + j * (4 * a + 4 * b), a as nat),
            ),
            contents::<D>(final(two)@) == Seq::new(
                old(two)@.len(),
                |j: int| floats_at(state@, at + j * (4 * a + 4 * b) + 4 * a, b as nat),
            ),
    {
        let total: usize = state.len();
        let n: usize = one.len();
        let ghost step = 4 * a + 4 * b;
        let mut i: usize = 0;
        let mut from: usize = at;
        assert(0 * step == 0) by (nonlinear_arith);
        while i < n
            invariant
                total == state@.len(),
                n == one@.len() == two@.len(),
                i <= n,
                step == 4 * a + 4 * b,
                at + n * step <= total,
                from == at + i * step,
                each_holds::<D>(one@, a as int),
                each_holds::<D>(two@, b as int),
                forall|j: int|
                    0 <= j < i ==> #[trigger] D::data(&one@[j]) == floats_at(
                        state@,
                        at + j * step,
                        a as nat,
                    ),
                forall|j: int|
                    0 <= j < i ==> #[trigger] D::data(&two@[j]) == floats_at(
                        state@,
                        at + j * step + 4 * a,
                        b as nat,
                    ),
            decreases n - i,
        {
            proof {
                assert((i + 1) * step == i * step + step) by (nonlinear_arith);
                assert((i + 1) * step <= n * step) by (nonlinear_arith)
                    requires
                        i + 1 <= n,
                        step >= 0,
                ;
                assert(0 <= i * step) by (nonlinear_arith)
                    requires
                        step >= 0,
                ;
            }
            let middle: usize = from + 4 * a;
            let list = u32s(vstd::slice::slice_subrange(state, from, middle));
            assert(list@ =~= floats_at(state@, from as int, a as nat));
            let ghost (one0, two0) = (one@, two@);
            assert(D::data(&one0[i as int]).len() == a);
            assert(D::data(&two0[i as int]).len() == b);
            d.write(&mut one[i], list.as_slice());
            let list = u32s(vstd::slice::slice_subrange(state, middle, middle + 4 * b));
            assert(list@ =~= floats_at(state@, middle as int, b as nat));
            d.write(&mut two[i], list.as_slice());
            proof {
                lemma_each_holds::<D>(one0, one@, i as int, a as int);
                lemma_each_holds::<D>(two0, two@, i as int, b as int);
                assert forall|j: int| 0 <= j < i + 1 implies #[trigger] D::data(&one@[j])
                    == floats_at(state@, at + j * step, a as nat) by {
                    if j < i {
                        assert(one@[j] == one0[j]);
                        assert(D::data(&one0[j]) == floats_at(state@, at + j * step, a as nat));
                    }
                }
                assert forall|j: int| 0 <= j < i + 1 implies #[trigger] D::data(&two@[j])
                    == floats_at(state@, at + j * step + 4 * a, b as nat) by {
                    if j < i {
                        assert(two@[j] == two0[j]);
                        assert(D::data(&two0[j]) == floats_at(
                            state@,
                            at + j * step + 4 * a,
                            b as nat,
                        ));
                    }
                }
            }
            from = middle + 4 * b;
            i = i + 1;
        }
        proof {
            assert(contents::<D>(one@) =~= Seq::new(
                one@.len(),
                |j: int| floats_at(state@, at + j * step, a as nat),
            ));
            assert(contents::<D>(two@) =~= Seq::new(
                two@.len(),
                |j: int| floats_at(state@, at + j * step + 4 * a, b as nat),
            ));
        }
    }

    /// Takes up a saved state, and gives how many positions it holds. Where
    /// something is wrong with it, nothing is taken up.
    pub fn take_up(&mut self, state: &[u8]) -> (r: Result<usize, String>)
        requires
            old(self).loaded(),
        ensures
            final(self).loaded(),
            final(self).fit == old(self).fit,
            final(self).config == old(self).config,
            final(self).device == old(self).device,
            final(self).net() == old(self).net(),
            final(self).room() == old(self).room(),
            match r {
                Ok(len) => {
                    &&& unsaved(state@, old(self).extents(), old(self).room()) is None
                    &&& len == field(state@, 0)
                    &&& final(self).mem() == taken_up(state@, old(self).extents(), old(self).mem())
                    &&& final(self).tokens().len() == len
                    &&& final(self).drafted() == Seq::<u32>::empty()
                },
                Err(e) => {
                    &&& unsaved(state@, old(self).extents(), old(self).room()) == Some(e@)
                    &&& *final(self) == *old(self)
                },
            },
    {
        let len: usize = match self.check(state) {
            Ok(len) => len,
            Err(e) => {
                return Err(e);
            },
        };
        let ghost e = self.extents();
        let ghost c = self.config;
        let ghost room = self.state.max_len * c.kv_dim();
        let ghost kept = self.mem();
        let ghost conv0 = self.state.conv_b@;
        proof {
            lemma_within(len as int, self.state.max_len as int, c.kv_dim());
        }
        let width: usize = len * self.dims.kv_dim;
        let n: usize = self.state.k_cache.len();
        let a: usize = self.dims.conv_width;
        let b: usize = self.dims.ssm_width;
        let total: usize = state.len();
        proof {
            let w = 2 * width as int;
            let (k, slots, step) = (n as int, e.slots as int, 4 * a + 4 * b);
            assert(k * w >= 0) by (nonlinear_arith)
                requires
                    k >= 0,
                    w >= 0,
            ;
            assert(slots * step >= 0) by (nonlinear_arith)
                requires
                    slots >= 0,
                    step >= 0,
            ;
            assert forall|j: int| #[trigger] cache_at(e, len as nat, k + j) == 60 + k * w + j
                * w by {
                assert((k + j) * w == k * w + j * w) by (nonlinear_arith);
            }
        }
        assert(n * (2 * width) <= total - 60);
        let size: usize = if n == 0 {
            0
        } else {
            assert(2 * width <= n * (2 * width)) by (nonlinear_arith)
                requires
                    n >= 1,
            ;
            n * (2 * width)
        };
        assert(size == n * (2 * width)) by {
            assert(0 * (2 * width) == 0) by (nonlinear_arith);
        }
        let middle: usize = 60 + size;
        Self::fill_caches(&self.device, &mut self.state.k_cache, state, 60, width, Ghost(room));
        Self::fill_caches(&self.device, &mut self.state.v_cache, state, middle, width, Ghost(room));
        let end: usize = middle + size;
        Self::fill_buffers(
            &self.device,
            &mut self.state.conv_a,
            &mut self.state.ssm_state,
            state,
            end,
            a,
            b,
        );
        self.state.parity = true;
        self.state.verified = 0;
        // What the tokens were is not told.
        self.fed = Ghost(Seq::new(len as nat, |i: int| 0u32));
        self.draft = Ghost(Seq::empty());
        proof {
            let now = self.mem();
            let want = taken_up(state@, e, kept);
            assert(now.k =~= want.k);
            assert forall|j: int| 0 <= j < now.v.len() implies #[trigger] now.v[j] == want.v[j] by {
                assert(cache_at(e, len as nat, n as int + j) == 60 + n * (2 * width) + j * (2
                    * width));
            }
            assert(now.v =~= want.v);
            assert(now.conv =~= want.conv);
            assert(now.ssm =~= want.ssm);
            assert(0 * c.channels() == 0) by (nonlinear_arith);
            assert(0 * (2 * c.v_heads) == 0) by (nonlinear_arith);
            assert forall|i: int| 0 <= i < now.draft_qkv.len() implies #[trigger] now.draft_qkv[i]
                == want.draft_qkv[i] by {
                assert(now.draft_qkv[i] =~= Seq::empty());
            }
            assert forall|i: int| 0 <= i < now.draft_ab.len() implies #[trigger] now.draft_ab[i]
                == want.draft_ab[i] by {
                assert(now.draft_ab[i] =~= Seq::empty());
            }
            assert(now.draft_qkv =~= want.draft_qkv);
            assert(now.draft_ab =~= want.draft_ab);
            assert(now == want);
        }
        Ok(len)
    }
}

} // verus!
