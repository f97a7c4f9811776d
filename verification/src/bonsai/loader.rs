//! Weights on their way to the device.
use vstd::prelude::*;

use super::fitting::{grouped, is_grouped, is_taken, takes};
use super::tensors::{
    floats_of, no_floats, no_ternary, read_floats, read_ternary, ternary_mat, ternary_of, Matrix,
};
use crate::device::Device;
use crate::gguf::Gguf;
use crate::tensor::Tensor;
use crate::text::{own, texts};

verus! {

/// Whether a listener has been told of every tensor up to `done`, out of
/// `total`.
pub open spec fn told<F: FnMut(u64, u64)>(listener: F, done: u64, total: u64) -> bool {
    forall|k: u64| 1 <= k <= done ==> #[trigger] call_ensures(listener, (k, total), ())
}

/// Uploads the weights, counting them off.
pub struct Loader<'a, 'g, D: Device, F: FnMut(u64, u64)> {
    pub device: &'a D,
    pub gguf: &'a Gguf<'g>,
    pub done: u64,
    pub total: u64,
    pub on_progress: F,
    /// Every weight that takes rotated activations.
    pub rotated: Vec<String>,
    /// Whether all that has been loaded fits the activations it works on.
    pub fit: bool,
}

impl<'a, 'g, D: Device, F: FnMut(u64, u64)> Loader<'a, 'g, D, F> {
    /// Whether progress can be told, and has been told of all that is done.
    pub open spec fn wf(&self) -> bool {
        &&& self.gguf.wf()
        &&& forall|a: u64, b: u64| call_requires(self.on_progress, (a, b))
        &&& told(self.on_progress, self.done, self.total)
    }

    /// Whether all is the same but what is counted off, what takes rotated
    /// activations, and whether all fits.
    pub open spec fn same(&self, other: &Self) -> bool {
        &&& self.device == other.device
        &&& self.gguf == other.gguf
        &&& self.total == other.total
        &&& self.on_progress == other.on_progress
    }

    /// Tells that one more is done.
    pub fn tick(&mut self)
        requires
            old(self).wf(),
            old(self).done < u64::MAX,
        ensures
            final(self).wf(),
            final(self).same(old(self)),
            final(self).done == old(self).done + 1,
            final(self).rotated == old(self).rotated,
            final(self).fit == old(self).fit,
    {
        self.done = self.done + 1;
        (self.on_progress)(self.done, self.total);
    }

    /// Uploads a matrix, read from the named tensor, that takes rotated
    /// activations of one width to activations of another.
    pub fn rotated(&mut self, name: &str, m: Matrix<u8>, from: usize, to: usize) -> (w: D::Weight)
        requires
            old(self).wf(),
            old(self).done < u64::MAX,
        ensures
            final(self).wf(),
            final(self).same(old(self)),
            final(self).done == old(self).done + 1,
            texts(final(self).rotated@) == texts(old(self).rotated@).push(name@),
            D::matrix(&w) == ternary_mat(m.rows as int, m.cols as int, m.data@),
            final(self).fit == (old(self).fit && takes(D::matrix(&w), from as int, to as int)),
    {
        let fit = is_taken(m.rows, m.cols, from, to, Ghost(ternary_mat(m.rows as int, m.cols as int, m.data@)));
        let mut shape: Vec<usize> = Vec::new();
        shape.push(m.rows);
        shape.push(m.cols);
        let name = own(name);
        proof {
            assert(texts(self.rotated@.push(name)) =~= texts(self.rotated@).push(name@));
        }
        self.rotated.push(name);
        let w = self.device.upload(Tensor::Ternary { shape, data: m.data });
        self.tick();
        self.fit = self.fit && fit;
        w
    }

    /// Uploads a ternary matrix that takes rotated activations of one width to
    /// activations of another.
    pub fn weight(&mut self, name: &str, from: usize, to: usize) -> (r: Result<D::Weight, String>)
        requires
            old(self).wf(),
            old(self).done < u64::MAX,
        ensures
            final(self).wf(),
            final(self).same(old(self)),
            match r {
                Ok(w) => {
                    &&& no_ternary(old(self).gguf, name@) is None
                    &&& final(self).done == old(self).done + 1
                    &&& texts(final(self).rotated@) == texts(old(self).rotated@).push(name@)
                    &&& D::matrix(&w) == ternary_of(old(self).gguf, name@)
                    &&& final(self).fit == (old(self).fit && takes(
                        D::matrix(&w),
                        from as int,
                        to as int,
                    ))
                },
                Err(e) => no_ternary(old(self).gguf, name@) == Some(e@),
            },
    {
        match read_ternary(self.gguf, name) {
            Ok(m) => Ok(self.rotated(name, m, from, to)),
            Err(e) => Err(e),
        }
    }

    /// Uploads values.
    pub fn buffer(&mut self, values: Vec<u32>) -> (b: D::Buffer)
        requires
            old(self).wf(),
            old(self).done < u64::MAX,
        ensures
            final(self).wf(),
            final(self).same(old(self)),
            final(self).done == old(self).done + 1,
            final(self).rotated == old(self).rotated,
            final(self).fit == old(self).fit,
            D::data(&b) == values@,
            D::cap(&b) == values@.len(),
    {
        let mut buf = self.device.alloc_buffer(values.len());
        self.device.write(&mut buf, values.as_slice());
        self.tick();
        buf
    }

    /// Uploads the weights of a normalization of vectors of a width.
    pub fn norm(&mut self, name: &str, width: usize) -> (r: Result<D::Buffer, String>)
        requires
            old(self).wf(),
            old(self).done < u64::MAX,
        ensures
            final(self).wf(),
            final(self).same(old(self)),
            final(self).rotated == old(self).rotated,
            match r {
                Ok(b) => {
                    &&& no_floats(old(self).gguf, name@) is None
                    &&& final(self).done == old(self).done + 1
                    &&& D::data(&b) == floats_of(old(self).gguf, name@)
                    &&& final(self).fit == (old(self).fit && D::data(&b).len() == width)
                },
                Err(e) => no_floats(old(self).gguf, name@) == Some(e@),
            },
    {
        match read_floats(self.gguf, name) {
            Ok(values) => {
                let fit = values.len() == width;
                let b = self.buffer(values);
                self.fit = self.fit && fit;
                Ok(b)
            },
            Err(e) => Err(e),
        }
    }

    /// Uploads the weights of a normalization of the groups of vectors of a
    /// width.
    pub fn group_norm(&mut self, name: &str, width: usize) -> (r: Result<D::Buffer, String>)
        requires
            old(self).wf(),
            old(self).done < u64::MAX,
        ensures
            final(self).wf(),
            final(self).same(old(self)),
            final(self).rotated == old(self).rotated,
            match r {
                Ok(b) => {
                    &&& no_floats(old(self).gguf, name@) is None
                    &&& final(self).done == old(self).done + 1
                    &&& D::data(&b) == floats_of(old(self).gguf, name@)
                    &&& final(self).fit == (old(self).fit && grouped(D::data(&b), width as int))
                },
                Err(e) => no_floats(old(self).gguf, name@) == Some(e@),
            },
    {
        match read_floats(self.gguf, name) {
            Ok(values) => {
                let fit = is_grouped(values.as_slice(), width);
                let b = self.buffer(values);
                self.fit = self.fit && fit;
                Ok(b)
            },
            Err(e) => Err(e),
        }
    }
}

} // verus!
