//! The sizes that follow from the architecture.
use vstd::prelude::*;

use super::config::Config;
use crate::model::VERIFY;

verus! {

/// Most tokens a forward pass runs through the model at once. Running a
/// batch of tokens together reads each weight once for the whole batch,
/// rather than once per token; the activations are allocated for this many.
/// A batch is one submission to the device, which a driver may abandon as
/// hung if it runs for seconds, so batches are kept short.
pub const BATCH: usize = 64;

/// Activations per token and per layer.
#[derive(Clone, Copy, Debug)]
pub struct Dims {
    /// Queries of full attention per token.
    pub q_dim: usize,
    /// Its keys, and its values, per token.
    pub kv_dim: usize,
    /// Queries of linear attention, and its keys, per token.
    pub k_dim: usize,
    /// Its values per token.
    pub v_dim: usize,
    /// What its convolution takes per token: all three.
    pub channels: usize,
    /// Activations of a linear layer's convolution state: the tokens before
    /// the batch, a row of channels each.
    pub conv_width: usize,
    /// Activations of a linear layer's recurrent state: a matrix per value
    /// head.
    pub ssm_width: usize,
}

impl Config {
    /// Queries of full attention per token.
    pub open spec fn q_dim(&self) -> int {
        self.heads * self.head_dim
    }

    /// Its keys, and its values, per token.
    pub open spec fn kv_dim(&self) -> int {
        self.kv_heads * self.head_dim
    }

    /// Queries of linear attention, and its keys, per token.
    pub open spec fn k_dim(&self) -> int {
        self.k_heads * self.state_dim
    }

    /// Its values per token.
    pub open spec fn v_dim(&self) -> int {
        self.v_heads * self.state_dim
    }

    /// What its convolution takes per token.
    pub open spec fn channels(&self) -> int {
        2 * self.k_dim() + self.v_dim()
    }

    /// Activations of a linear layer's convolution state.
    pub open spec fn conv_width(&self) -> int {
        3 * self.channels()
    }

    /// Activations of a linear layer's recurrent state.
    pub open spec fn ssm_width(&self) -> int {
        self.v_dim() * self.state_dim
    }

    /// Numbers of the rotary table per position: one for each half of the
    /// pairs that are rotated.
    pub open spec fn rope_dim(&self) -> int {
        2 * (self.rot_dim / 2)
    }

    /// Whether full attention can work with the sizes: there are heads, and
    /// pairs of a head are rotated.
    pub open spec fn heads_fit(&self) -> bool {
        &&& self.heads > 0
        &&& self.kv_heads > 0
        &&& self.head_dim > 0
        &&& self.rot_dim <= self.head_dim
        &&& self.rot_dim % 2 == 0
    }

    /// Whether linear attention can work with the sizes: there are heads, and
    /// key heads divide the value heads.
    pub open spec fn groups_fit(&self) -> bool {
        &&& self.k_heads > 0
        &&& self.v_heads > 0
        &&& self.state_dim > 0
        &&& self.v_heads % self.k_heads == 0
    }

    /// Whether a machine can count the activations of a batch, and the keys
    /// of a sequence of `max_len` tokens.
    pub open spec fn countable(&self, max_len: int) -> bool {
        &&& BATCH * self.hidden <= usize::MAX
        &&& BATCH * self.intermediate <= usize::MAX
        &&& BATCH * self.q_dim() <= usize::MAX
        &&& BATCH * self.kv_dim() <= usize::MAX
        &&& BATCH * self.channels() <= usize::MAX
        &&& BATCH * (2 * self.v_heads) <= usize::MAX
        &&& BATCH * (2 * self.k_heads) <= usize::MAX
        &&& self.ssm_width() <= usize::MAX
        &&& VERIFY * self.vocab <= usize::MAX
        &&& max_len * self.kv_dim() <= usize::MAX
    }

    /// Whether there are activations, and a sequence of `max_len` tokens can be
    /// run.
    pub open spec fn runs(&self, max_len: int) -> bool {
        self.hidden > 0 && self.countable(max_len)
    }
}

impl Dims {
    /// Whether the sizes are those of an architecture.
    pub open spec fn of(&self, c: &Config) -> bool {
        &&& self.q_dim == c.q_dim()
        &&& self.kv_dim == c.kv_dim()
        &&& self.k_dim == c.k_dim()
        &&& self.v_dim == c.v_dim()
        &&& self.channels == c.channels()
        &&& self.conv_width == c.conv_width()
        &&& self.ssm_width == c.ssm_width()
    }
}

/// A product, where it can be counted `times` over.
fn fits(a: usize, b: usize, times: usize) -> (r: Option<usize>)
    requires
        times > 0,
    ensures
        match r {
            Some(n) => n == a * b && times * (a * b) <= usize::MAX,
            None => times * (a * b) > usize::MAX,
        },
{
    assert(a * b >= 0) by (nonlinear_arith);
    match a.checked_mul(b) {
        Some(n) => {
            assert(times * (a * b) == n * times) by (nonlinear_arith)
                requires
                    n == a * b,
            ;
            match n.checked_mul(times) {
                Some(_) => Some(n),
                None => None,
            }
        },
        None => {
            assert(times * (a * b) >= a * b) by (nonlinear_arith)
                requires
                    times >= 1,
                    a * b >= 0,
            ;
            None
        },
    }
}

impl Config {
    /// Whether full attention can work with the sizes.
    pub fn fits_heads(&self) -> (r: bool)
        ensures
            r == self.heads_fit(),
    {
        self.heads > 0 && self.kv_heads > 0 && self.head_dim > 0 && self.rot_dim <= self.head_dim
            && self.rot_dim % 2 == 0
    }

    /// Whether linear attention can work with the sizes.
    pub fn fits_groups(&self) -> (r: bool)
        ensures
            r == self.groups_fit(),
    {
        self.k_heads > 0 && self.v_heads > 0 && self.state_dim > 0 && self.v_heads % self.k_heads
            == 0
    }

    /// The sizes, where the machine can count them.
    pub fn dims(&self) -> (r: Option<Dims>)
        ensures
            match r {
                Some(d) => self.countable(0) && d.of(self),
                None => !self.countable(0),
            },
    {
        assert(0 * self.kv_dim() == 0) by (nonlinear_arith);
        if self.hidden.checked_mul(BATCH).is_none() || self.intermediate.checked_mul(
            BATCH,
        ).is_none() || self.v_heads.checked_mul(2 * BATCH).is_none() || self.k_heads.checked_mul(
            2 * BATCH,
        ).is_none() || self.vocab.checked_mul(VERIFY).is_none() {
            return None;
        }
        let q_dim: usize = match fits(self.heads, self.head_dim, BATCH) {
            Some(n) => n,
            None => {
                return None;
            },
        };
        let kv_dim: usize = match fits(self.kv_heads, self.head_dim, BATCH) {
            Some(n) => n,
            None => {
                return None;
            },
        };
        proof {
            let (k, v) = (self.k_dim(), self.v_dim());
            assert(k >= 0) by (nonlinear_arith)
                requires
                    k == self.k_heads * self.state_dim,
            ;
            assert(v >= 0) by (nonlinear_arith)
                requires
                    v == self.v_heads * self.state_dim,
            ;
            assert(2 * BATCH * k == BATCH * (2 * k));
        }
        let k_dim: usize = match fits(self.k_heads, self.state_dim, 2 * BATCH) {
            Some(n) => n,
            None => {
                return None;
            },
        };
        let v_dim: usize = match fits(self.v_heads, self.state_dim, BATCH) {
            Some(n) => n,
            None => {
                return None;
            },
        };
        let channels: usize = match (2 * k_dim).checked_add(v_dim) {
            Some(n) => n,
            None => {
                return None;
            },
        };
        if channels.checked_mul(BATCH).is_none() {
            return None;
        }
        match v_dim.checked_mul(self.state_dim) {
            Some(ssm_width) => Some(
                Dims { q_dim, kv_dim, k_dim, v_dim, channels, conv_width: 3 * channels, ssm_width },
            ),
            None => None,
        }
    }
}

} // verus!
