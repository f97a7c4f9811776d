//! How matrix products and attention are spread over workgroups.
use vstd::prelude::*;

use super::plan::{
    ceil, div_ceil, four, low, low_bits, two, Dispatch, Kernel, Planned, CHUNK, PACKED, PARTIALS,
    TERNARY_FEW_TOKENS, TERNARY_ROWS, TERNARY_TILE_ROWS, TERNARY_TILE_TOKENS,
};

verus! {

/// The smaller of two numbers.
pub open spec fn least(a: int, b: int) -> int {
    if a <= b {
        a
    } else {
        b
    }
}

/// Whether dispatches, or none, are what was planned.
pub open spec fn all_meet(r: Option<Vec<Dispatch>>, plan: Option<Seq<Planned>>) -> bool {
    match (r, plan) {
        (Some(list), Some(want)) => planned(list@) == want,
        (None, None) => true,
        _ => false,
    }
}

/// Dispatches as numbers.
pub open spec fn planned(list: Seq<Dispatch>) -> Seq<Planned> {
    list.map_values(|d: Dispatch| d@)
}

/// Whether a few tokens go through a ternary matrix together.
pub open spec fn is_few(ternary: bool, n: int) -> bool {
    ternary && 2 <= n <= TERNARY_FEW_TOKENS
}

/// Whether many tokens go through a ternary matrix in tiles.
pub open spec fn is_tiled(ternary: bool, n: int) -> bool {
    ternary && n >= TERNARY_TILE_TOKENS / 2
}

/// Rows of packed activations: two tokens to a word, rounded up to four.
pub open spec fn packed_rows(n: int) -> int {
    ceil(ceil(n, 2), 4) * 4
}

/// The packing of a batch's activations as half floats.
pub open spec fn packing(n: int, cols: int) -> Planned {
    Planned {
        kernel: Kernel::PackHalves,
        params: seq![low(n), low(cols)],
        width: low(ceil(cols, 256)),
        height: low(packed_rows(n)),
    }
}

/// The kernel of a product, and how many rows a workgroup of it takes.
pub open spec fn product_kernel(ternary: bool, n: int) -> (Kernel, int) {
    if is_few(ternary, n) {
        (Kernel::MatmulTernaryFew, TERNARY_ROWS as int)
    } else if is_tiled(ternary, n) {
        (Kernel::MatmulTernaryTile, TERNARY_TILE_ROWS as int)
    } else if ternary && n > 1 {
        (Kernel::MatmulTernaryBatch, TERNARY_ROWS as int)
    } else if ternary {
        (Kernel::MatmulTernary, TERNARY_ROWS as int)
    } else {
        (Kernel::Matmul, 1)
    }
}

/// A product: the groups of rows across the grid and down it, as wide as the
/// GPU allows, and in tiles each row of the grid again for every tile of
/// tokens.
pub open spec fn product(rows: int, cols: int, n: int, ternary: bool, max_groups: int) -> Option<
    Planned,
> {
    let (kernel, per_group) = product_kernel(ternary, n);
    let count = ceil(rows, per_group);
    let width = least(count, max_groups);
    let tiles = if is_tiled(ternary, n) && !is_few(ternary, n) {
        ceil(n, TERNARY_TILE_TOKENS as int)
    } else {
        1
    };
    let height = ceil(count, width) * tiles;
    if width == 0 || (kernel == Kernel::MatmulTernaryTile && height > max_groups) {
        None
    } else {
        Some(
            Planned {
                kernel,
                params: seq![low(rows), low(cols), low(n), low(width)],
                width,
                height: low(height),
            },
        )
    }
}

/// The dispatches of a product, by the lengths of what it takes and gives.
pub open spec fn multiplied(
    rows: int,
    cols: int,
    x: int,
    out: int,
    ternary: bool,
    max_groups: int,
) -> Option<Seq<Planned>> {
    let n = x / cols;
    let packs = is_few(ternary, n) || is_tiled(ternary, n);
    if cols == 0 || x % cols != 0 || out != n * rows || cols % 8 != 0 {
        None
    } else if packs && packed_rows(n) * cols > PACKED {
        None
    } else {
        match product(rows, cols, n, ternary, max_groups) {
            None => None,
            Some(p) => Some(
                if packs {
                    seq![packing(n, cols), p]
                } else {
                    seq![p]
                },
            ),
        }
    }
}

/// Plans the packing of a batch's activations, if they fit.
fn pack(n: usize, cols: usize) -> (r: Option<Dispatch>)
    ensures
        match r {
            Some(d) => packed_rows(n as int) * cols <= PACKED && d@ == packing(
                n as int,
                cols as int,
            ),
            None => packed_rows(n as int) * cols > PACKED,
        },
{
    let half: usize = div_ceil(n, 2);
    let quads: usize = div_ceil(half, 4);
    let pairs: usize = match quads.checked_mul(4) {
        Some(pairs) => pairs,
        None => {
            assert(half <= n);
            assert(false);
            return None;
        },
    };
    let words: usize = match pairs.checked_mul(cols) {
        Some(words) => words,
        None => {
            return None;
        },
    };
    if words > PACKED {
        return None;
    }
    Some(
        Dispatch {
            kernel: Kernel::PackHalves,
            params: two(low_bits(n), low_bits(cols)),
            width: low_bits(div_ceil(cols, 256)),
            height: low_bits(pairs),
        },
    )
}

/// Plans a product of `n` tokens.
fn multiply(rows: usize, cols: usize, n: usize, ternary: bool, max_groups: u32) -> (r: Option<
    Dispatch,
>)
    requires
        n * rows <= usize::MAX,
    ensures
        super::plan::meets(
            r,
            product(rows as int, cols as int, n as int, ternary, max_groups as int),
        ),
{
    let few = ternary && 2 <= n && n <= TERNARY_FEW_TOKENS;
    let tiled = ternary && n >= TERNARY_TILE_TOKENS / 2;
    let (kernel, per_group): (Kernel, usize) = if few {
        (Kernel::MatmulTernaryFew, TERNARY_ROWS)
    } else if tiled {
        (Kernel::MatmulTernaryTile, TERNARY_TILE_ROWS)
    } else if ternary && n > 1 {
        (Kernel::MatmulTernaryBatch, TERNARY_ROWS)
    } else if ternary {
        (Kernel::MatmulTernary, TERNARY_ROWS)
    } else {
        (Kernel::Matmul, 1)
    };
    let count: usize = div_ceil(rows, per_group);
    let width: usize = if count as u64 <= max_groups as u64 {
        count
    } else {
        max_groups as usize
    };
    if width == 0 {
        return None;
    }
    let tall: usize = div_ceil(count, width);
    let height: usize = if tiled && !few {
        let tiles: usize = div_ceil(n, TERNARY_TILE_TOKENS);
        proof {
            let (a, b, p, q) = (tall as int, tiles as int, rows as int, n as int);
            assert(a * b <= q * p) by (nonlinear_arith)
                requires
                    0 <= a <= p,
                    0 <= b <= q,
            ;
        }
        tall * tiles
    } else {
        tall
    };
    if tiled && !few && height as u64 > max_groups as u64 {
        return None;
    }
    Some(
        Dispatch {
            kernel,
            params: four(low_bits(rows), low_bits(cols), low_bits(n), low_bits(width)),
            width: width as u32,
            height: low_bits(height),
        },
    )
}

/// Plans a product, by the lengths of what it takes and gives, if they go
/// together. A batch of tokens through ternary weights multiplies the
/// activations packed as half floats: a few tokens by the kernel that reads
/// the weights once for up to eight, and many as a tiled matrix product.
pub fn matmul(
    rows: usize,
    cols: usize,
    x: usize,
    out: usize,
    ternary: bool,
    max_groups: u32,
) -> (r: Option<Vec<Dispatch>>)
    ensures
        all_meet(
            r,
            multiplied(
                rows as int,
                cols as int,
                x as int,
                out as int,
                ternary,
                max_groups as int,
            ),
        ),
{
    if cols == 0 || x % cols != 0 || cols % 8 != 0 {
        return None;
    }
    let n: usize = x / cols;
    match n.checked_mul(rows) {
        Some(want) => if out != want {
            return None;
        },
        None => {
            return None;
        },
    }
    let mut list: Vec<Dispatch> = Vec::new();
    if ternary && (2 <= n && n <= TERNARY_FEW_TOKENS || n >= TERNARY_TILE_TOKENS / 2) {
        match pack(n, cols) {
            Some(d) => list.push(d),
            None => {
                return None;
            },
        }
    }
    let ghost before = planned(list@);
    match multiply(rows, cols, n, ternary, max_groups) {
        Some(d) => {
            proof {
                assert(planned(list@.push(d)) =~= before.push(d@));
                if is_few(ternary, n as int) || is_tiled(ternary, n as int) {
                    assert(before.push(d@) =~= seq![packing(n as int, cols as int), d@]);
                } else {
                    assert(before.push(d@) =~= seq![d@]);
                }
            }
            list.push(d);
            Some(list)
        },
        None => None,
    }
}

/// The heads of attention, and where it starts.
#[derive(Clone, Copy, Debug)]
pub struct Heads {
    pub pos: usize,
    pub n_heads: usize,
    pub head_dim: usize,
    pub n_kv_heads: usize,
}

impl Heads {
    /// How many chunks of positions the last of `n` tokens attends over.
    pub open spec fn chunks(self, n: int) -> int {
        ceil(self.pos + n, CHUNK as int)
    }

    /// The partials of a token.
    pub open spec fn per_token(self, n: int) -> int {
        self.n_heads * self.chunks(n) * (self.head_dim + 2)
    }

    /// The push constants of a dispatch whose first token is `first`.
    pub open spec fn params(self, n: int, first: int) -> Seq<int> {
        seq![
            low(self.n_heads as int),
            low(self.head_dim as int),
            low(self.n_kv_heads as int),
            low(self.pos as int),
            low(first),
            low(self.chunks(n)),
        ]
    }

    /// The dispatches for `tokens` of `n` tokens from `first` on: the chunks
    /// of each, and where there are several, what puts them together.
    pub open spec fn part(self, n: int, first: int, tokens: int) -> Seq<Planned> {
        let one = Planned {
            kernel: Kernel::Attention,
            params: self.params(n, first),
            width: tokens * self.n_kv_heads * self.chunks(n),
            height: 1,
        };
        if self.chunks(n) > 1 {
            seq![
                one,
                Planned {
                    kernel: Kernel::AttentionCombine,
                    params: self.params(n, first),
                    width: tokens * self.n_heads,
                    height: 1,
                },
            ]
        } else {
            seq![one]
        }
    }

    /// Whether the GPU allows the dispatches for so many tokens.
    pub open spec fn allowed(self, n: int, tokens: int, max_groups: int) -> bool {
        &&& tokens * self.n_kv_heads * self.chunks(n) <= max_groups
        &&& self.chunks(n) > 1 ==> tokens * self.n_heads <= max_groups
    }

    /// The dispatches for the tokens from `first` on, as many at a time as the
    /// partials fit.
    pub open spec fn parts(self, n: int, first: int, at_once: int, max_groups: int) -> Option<
        Seq<Planned>,
    >
        decreases n - first,
    {
        if first >= n || at_once <= 0 {
            Some(Seq::empty())
        } else {
            let tokens = least(at_once, n - first);
            if !self.allowed(n, tokens, max_groups) {
                None
            } else {
                match self.parts(n, first + tokens, at_once, max_groups) {
                    None => None,
                    Some(rest) => Some(self.part(n, first, tokens) + rest),
                }
            }
        }
    }

    /// The dispatches of attention, by the lengths of what it takes and gives.
    pub open spec fn attended(self, q: int, out: int, max_groups: int) -> Option<Seq<Planned>> {
        let width = self.n_heads * self.head_dim;
        let n = q / width;
        if width == 0 || width > usize::MAX || q % width != 0 || out != q || self.head_dim % 4 != 0
            || self.head_dim > 256 || self.n_kv_heads == 0 || self.n_heads as int
            / self.n_kv_heads as int > 8 || self.pos + n == 0 || self.per_token(n) > PARTIALS {
            None
        } else {
            self.parts(n, 0, PARTIALS as int / self.per_token(n), max_groups)
        }
    }
}

impl Heads {
    /// Plans one part of attention.
    fn plan_part(
        &self,
        n: usize,
        chunks: usize,
        first: usize,
        tokens: usize,
        max_groups: u32,
        list: &mut Vec<Dispatch>,
    ) -> (r: bool)
        requires
            chunks == self.chunks(n as int),
            chunks > 0,
            tokens * (self.n_heads * chunks) <= PARTIALS,
        ensures
            r == self.allowed(n as int, tokens as int, max_groups as int),
            r ==> planned(final(list)@) == planned(old(list)@) + self.part(
                n as int,
                first as int,
                tokens as int,
            ),
    {
        let ghost before = planned(list@);
        let groups: usize = match tokens.checked_mul(self.n_kv_heads) {
            Some(m) => match m.checked_mul(chunks) {
                Some(groups) => groups,
                None => {
                    return false;
                },
            },
            None => {
                proof {
                    let (a, b) = (tokens * self.n_kv_heads, chunks as int);
                    assert(a * b >= a) by (nonlinear_arith)
                        requires
                            b >= 1,
                            a >= 0,
                    ;
                }
                return false;
            },
        };
        if groups as u64 > max_groups as u64 {
            return false;
        }
        let mut params: Vec<u32> = Vec::new();
        params.push(low_bits(self.n_heads));
        params.push(low_bits(self.head_dim));
        params.push(low_bits(self.n_kv_heads));
        params.push(low_bits(self.pos));
        params.push(low_bits(first));
        params.push(low_bits(chunks));
        assert(params@.map_values(|p: u32| p as int) =~= self.params(n as int, first as int));
        let again = crate::bytes::copy_range(params.as_slice(), 0, params.len());
        assert(again@ =~= params@);
        let one = Dispatch { kernel: Kernel::Attention, params, width: groups as u32, height: 1 };
        if chunks > 1 {
            proof {
                let (a, b, k) = (tokens as int, self.n_heads as int, chunks as int);
                assert(a * b <= a * (b * k)) by (nonlinear_arith)
                    requires
                        a >= 0,
                        b >= 0,
                        k >= 1,
                ;
            }
            let heads: usize = tokens * self.n_heads;
            if heads as u64 > max_groups as u64 {
                return false;
            }
            let two = Dispatch {
                kernel: Kernel::AttentionCombine,
                params: again,
                width: heads as u32,
                height: 1,
            };
            proof {
                assert(planned(list@.push(one).push(two)) =~= before + self.part(
                    n as int,
                    first as int,
                    tokens as int,
                ));
            }
            list.push(one);
            list.push(two);
        } else {
            proof {
                assert(planned(list@.push(one)) =~= before + self.part(
                    n as int,
                    first as int,
                    tokens as int,
                ));
            }
            list.push(one);
        }
        true
    }

    /// Plans attention over a batch, by the lengths of what it takes and
    /// gives, if they go together. Every token's heads get as many chunks as
    /// the last token attends over, as many tokens to a dispatch as the
    /// partials fit.
    pub fn attention(&self, q: usize, out: usize, max_groups: u32) -> (r: Option<Vec<Dispatch>>)
        ensures
            all_meet(r, self.attended(q as int, out as int, max_groups as int)),
    {
        let width: usize = match self.n_heads.checked_mul(self.head_dim) {
            Some(width) => width,
            None => {
                return None;
            },
        };
        if width == 0 || q % width != 0 || out != q || self.head_dim % 4 != 0 || self.head_dim > 256
            || self.n_kv_heads == 0 || self.n_heads / self.n_kv_heads > 8 {
            return None;
        }
        let n: usize = q / width;
        let (heads, dim): (usize, usize) = (self.n_heads, self.head_dim + 2);
        proof {
            assert(heads > 0) by (nonlinear_arith)
                requires
                    heads * self.head_dim > 0,
                    heads >= 0,
            ;
        }
        let end: usize = match self.pos.checked_add(n) {
            Some(end) => end,
            None => {
                proof {
                    let k = self.chunks(n as int);
                    assert(k > PARTIALS);
                    let (h, d) = (heads as int, dim as int);
                    assert(h * k * d >= k) by (nonlinear_arith)
                        requires
                            h >= 1,
                            d >= 1,
                            k >= 0,
                    ;
                }
                return None;
            },
        };
        if end == 0 {
            return None;
        }
        let chunks: usize = div_ceil(end, CHUNK);
        proof {
            assert(chunks > 0);
            let (h, k, d) = (heads as int, chunks as int, dim as int);
            assert(h * k > 0) by (nonlinear_arith)
                requires
                    h > 0,
                    k > 0,
            ;
            assert(h * k * d >= h * k) by (nonlinear_arith)
                requires
                    h * k > 0,
                    d >= 1,
            ;
        }
        let per_token: usize = match heads.checked_mul(chunks) {
            Some(m) => match m.checked_mul(dim) {
                Some(p) => p,
                None => {
                    return None;
                },
            },
            None => {
                return None;
            },
        };
        if per_token > PARTIALS {
            return None;
        }
        let at_once: usize = PARTIALS / per_token;
        proof {
            vstd::arithmetic::div_mod::lemma_fundamental_div_mod(PARTIALS as int, per_token as int);
            let (q, p) = (at_once as int, per_token as int);
            assert(q >= 1) by (nonlinear_arith)
                requires
                    PARTIALS == p * q + PARTIALS as int % p,
                    0 < p <= PARTIALS,
                    0 <= PARTIALS as int % p < p,
            ;
        }
        let mut list: Vec<Dispatch> = Vec::new();
        let mut first: usize = 0;
        let ghost want = self.parts(n as int, 0, at_once as int, max_groups as int);
        assert(planned(list@) =~= Seq::empty());
        proof {
            if let Some(all) = want {
                assert(Seq::<Planned>::empty() + all =~= all);
            }
        }
        while first < n
            invariant
                first <= n,
                at_once >= 1,
                chunks > 0,
                chunks == self.chunks(n as int),
                heads == self.n_heads,
                dim == self.head_dim + 2,
                per_token == heads * chunks * dim,
                at_once * per_token <= PARTIALS,
                self.attended(q as int, out as int, max_groups as int) == want,
                match (want, self.parts(
                    n as int,
                    first as int,
                    at_once as int,
                    max_groups as int,
                )) {
                    (Some(all), Some(rest)) => all == planned(list@) + rest,
                    (None, None) => true,
                    _ => false,
                },
            decreases n - first,
        {
            let tokens: usize = if at_once <= n - first {
                at_once
            } else {
                n - first
            };
            proof {
                let (t, a, h, k, d) = (
                    tokens as int,
                    at_once as int,
                    heads as int,
                    chunks as int,
                    dim as int,
                );
                assert(t * (h * k) <= a * (h * k * d)) by (nonlinear_arith)
                    requires
                        0 <= t <= a,
                        h >= 0,
                        k >= 0,
                        d >= 1,
                ;
            }
            let ghost before = planned(list@);
            let ghost part = self.part(n as int, first as int, tokens as int);
            if !self.plan_part(n, chunks, first, tokens, max_groups, &mut list) {
                return None;
            }
            proof {
                let rest = self.parts(
                    n as int,
                    first + tokens,
                    at_once as int,
                    max_groups as int,
                );
                if let Some(r) = rest {
                    assert(before + (part + r) =~= (before + part) + r);
                }
            }
            first = first + tokens;
        }
        proof {
            if let Some(all) = want {
                assert(planned(list@) + Seq::empty() =~= planned(list@));
            }
        }
        Some(list)
    }
}

/// Every row of a product is some workgroup's: the grid, in groups of the
/// kernel's rows, is no smaller than the matrix.
pub proof fn law_grid_covers_rows(rows: int, cols: int, n: int, ternary: bool, max_groups: int)
    requires
        0 <= rows,
        0 <= n,
        0 <= max_groups,
    ensures
        ({
            let (_, per_group) = product_kernel(ternary, n);
            let count = ceil(rows, per_group);
            let width = least(count, max_groups);
            product(rows, cols, n, ternary, max_groups) is Some ==> width * ceil(count, width)
                * per_group >= rows
        }),
{
    let (_, per_group) = product_kernel(ternary, n);
    let count = ceil(rows, per_group);
    let width = least(count, max_groups);
    if product(rows, cols, n, ternary, max_groups) is Some {
        lemma_ceil(rows, per_group);
        assert(width > 0) by {
            assert(count >= 0) by {
                vstd::arithmetic::div_mod::lemma_div_pos_is_pos(rows + per_group - 1, per_group);
            }
        }
        lemma_ceil(count, width);
        let tall = ceil(count, width);
        assert(tall * width * per_group >= count * per_group) by (nonlinear_arith)
            requires
                tall * width >= count,
                per_group >= 1,
        ;
        assert(tall * width == width * tall) by (nonlinear_arith);
    }
}

/// As many runs of a length as rounding up gives cover the whole.
proof fn lemma_ceil(a: int, b: int)
    requires
        a >= 0,
        b > 0,
    ensures
        ceil(a, b) * b >= a,
        ceil(a, b) >= 0,
{
    vstd::arithmetic::div_mod::lemma_fundamental_div_mod(a + b - 1, b);
    vstd::arithmetic::div_mod::lemma_mod_bound(a + b - 1, b);
    let q = ceil(a, b);
    assert(b * q == q * b) by (nonlinear_arith);
    vstd::arithmetic::div_mod::lemma_div_pos_is_pos(a + b - 1, b);
}

/// The tokens of attention's parts are all of the batch's, in order and each
/// once: a part starts where the one before it ends, and the last ends with
/// the batch.
pub proof fn law_parts_take_turns(h: Heads, n: int, first: int, at_once: int, max_groups: int)
    requires
        0 <= first < n,
        0 < at_once,
        h.parts(n, first, at_once, max_groups) is Some,
    ensures
        ({
            let tokens = least(at_once, n - first);
            let all = h.parts(n, first, at_once, max_groups)->0;
            &&& 0 < tokens
            &&& first + tokens <= n
            &&& h.parts(n, first + tokens, at_once, max_groups) matches Some(rest) && all
                == h.part(n, first, tokens) + rest
            &&& first + tokens == n ==> all == h.part(n, first, tokens)
        }),
{
    let tokens = least(at_once, n - first);
    let rest = h.parts(n, first + tokens, at_once, max_groups)->0;
    if first + tokens == n {
        assert(h.part(n, first, tokens) + rest =~= h.part(n, first, tokens));
    }
}

} // verus!
