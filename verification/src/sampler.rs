//! Picking the next token from a model's logits, as far as whole numbers go.
use vstd::prelude::*;

verus! {

/// Where the bits of a floating-point number stand in the order of numbers.
pub open spec fn rank(bits: u32) -> int {
    if bits < 0x8000_0000 {
        bits as int
    } else {
        0x8000_0000 - bits
    }
}

/// Where the bits of a floating-point number stand in the order of numbers.
pub fn order(bits: u32) -> (r: i64)
    ensures
        r == rank(bits),
{
    if bits < 0x8000_0000 {
        bits as i64
    } else {
        0x8000_0000 - bits as i64
    }
}

/// Whether one token goes before another: by its logit, and of two with the
/// same, by its id.
pub open spec fn ahead(a: (u32, u32), b: (u32, u32)) -> bool {
    rank(a.1) > rank(b.1) || (rank(a.1) == rank(b.1) && a.0 < b.0)
}

/// Whether tokens are the first of a vocabulary: in order, each with its
/// logit, and ahead of all the others.
pub open spec fn leads(c: Seq<(u32, u32)>, logits: Seq<u32>) -> bool {
    &&& forall|j: int|
        0 <= j < c.len() ==> (#[trigger] c[j]).0 < logits.len() && c[j].1 == logits[c[j].0 as int]
    &&& forall|i: int, j: int| 0 <= i < j < c.len() ==> ahead(#[trigger] c[i], #[trigger] c[j])
    &&& forall|t: int|
        0 <= t < logits.len() ==> lists(c, t) || forall|j: int|
            0 <= j < c.len() ==> ahead(#[trigger] c[j], (t as u32, #[trigger] logits[t]))
}

/// Whether a token is among those.
pub open spec fn lists(c: Seq<(u32, u32)>, t: int) -> bool {
    exists|j: int| 0 <= j < c.len() && (#[trigger] c[j]).0 == t
}

/// How many candidates there are.
pub open spec fn width(top_k: nat, n: nat) -> nat {
    if top_k < 1 {
        1
    } else if top_k > n {
        n
    } else {
        top_k
    }
}

/// The `top_k` most likely tokens in order, with their logits, in one pass
/// over the logits (a vocabulary is a quarter of a million entries, and k is
/// twenty).
pub fn top(logits: &[u32], top_k: usize) -> (c: Vec<(u32, u32)>)
    requires
        0 < logits@.len() <= 0x1_0000_0000,
    ensures
        c@.len() == width(top_k as nat, logits@.len()),
        leads(c@, logits@),
{
    let n: usize = logits.len();
    let k: usize = if top_k < 1 {
        1
    } else if top_k > n {
        n
    } else {
        top_k
    };
    let mut c: Vec<(u32, u32)> = Vec::new();
    let mut i: usize = 0;
    while i < n
        invariant
            i <= n == logits@.len() <= 0x1_0000_0000,
            1 <= k <= n,
            c@.len() == if i < k {
                i as int
            } else {
                k as int
            },
            leads(c@, logits@.take(i as int)),
            i <= k ==> lists_all(c@, logits@.take(i as int)),
        decreases n - i,
    {
        let logit: u32 = logits[i];
        let ghost before = c@;
        let ghost seen = logits@.take(i as int);
        let ghost now = logits@.take(i + 1);
        let ghost new = (i as u32, logit);
        if c.len() == k && order(logit) <= order(c[k - 1].1) {
            proof {
                assert forall|t: int| 0 <= t < now.len() implies lists(c@, t) || forall|j: int|
                    0 <= j < c@.len() ==> ahead(#[trigger] c@[j], (t as u32, #[trigger] now[t])) by {
                    if t < i {
                        assert(now[t] == seen[t]);
                    } else {
                        assert forall|j: int| 0 <= j < c@.len() implies ahead(
                            #[trigger] c@[j],
                            new,
                        ) by {
                            if j < k - 1 {
                                assert(ahead(c@[j], c@[k - 1]));
                            }
                        }
                    }
                }
            }
        } else {
            let mut at: usize = 0;
            while at < c.len() && order(c[at].1) >= order(logit)
                invariant
                    at <= c@.len(),
                    c@ == before,
                    forall|j: int| 0 <= j < at ==> rank((#[trigger] before[j]).1) >= rank(logit),
                decreases c@.len() - at,
            {
                at = at + 1;
            }
            proof {
                assert forall|j: int| at <= j < before.len() implies ahead(
                    new,
                    #[trigger] before[j],
                ) by {
                    if j > at {
                        assert(ahead(before[at as int], before[j]));
                    }
                }
            }
            c.insert(at, (i as u32, logit));
            let ghost longer = c@;
            proof {
                assert(now =~= seen.push(logit));
                lemma_inserted(before, longer, at as int, new, seen, now);
            }
            if c.len() > k {
                c.truncate(k);
                proof {
                    assert(c@ =~= longer.drop_last());
                    lemma_dropped(longer, now);
                }
            }
        }
        i = i + 1;
    }
    assert(logits@.take(n as int) =~= logits@);
    c
}

/// A token put in where it belongs.
proof fn lemma_inserted(
    before: Seq<(u32, u32)>,
    after: Seq<(u32, u32)>,
    at: int,
    new: (u32, u32),
    seen: Seq<u32>,
    now: Seq<u32>,
)
    requires
        leads(before, seen),
        0 <= at <= before.len(),
        after == before.insert(at, new),
        now == seen.push(new.1),
        new.0 == seen.len(),
        now.len() <= 0x1_0000_0000,
        forall|j: int| 0 <= j < at ==> rank((#[trigger] before[j]).1) >= rank(new.1),
        forall|j: int| at <= j < before.len() ==> ahead(new, #[trigger] before[j]),
        lists_all(before, seen) || (at < before.len()),
    ensures
        leads(after, now),
        lists_all(before, seen) ==> lists_all(after, now),
{
    assert forall|j: int| 0 <= j < after.len() implies (#[trigger] after[j]).0 < now.len()
        && after[j].1 == now[after[j].0 as int] by {
        if j < at {
            assert(after[j] == before[j]);
        } else if j > at {
            assert(after[j] == before[j - 1]);
        }
    }
    assert forall|i: int, j: int| 0 <= i < j < after.len() implies ahead(
        #[trigger] after[i],
        #[trigger] after[j],
    ) by {
        if j < at {
            assert(after[i] == before[i] && after[j] == before[j]);
        } else if j == at {
            assert(after[i] == before[i]);
        } else if i == at {
            assert(after[j] == before[j - 1]);
        } else if i < at {
            assert(after[i] == before[i] && after[j] == before[j - 1]);
        } else {
            assert(after[i] == before[i - 1] && after[j] == before[j - 1]);
        }
    }
    assert forall|t: int| 0 <= t < now.len() && (t == seen.len() || lists(before, t)) implies lists(
        after,
        t,
    ) by {
        if t == seen.len() {
            assert(after[at].0 == t);
        } else {
            let j = choose|j: int| 0 <= j < before.len() && (#[trigger] before[j]).0 == t;
            if j < at {
                assert(after[j] == before[j]);
            } else {
                assert(after[j + 1] == before[j]);
            }
        }
    }
    assert forall|t: int| 0 <= t < now.len() implies lists(after, t) || forall|j: int|
        0 <= j < after.len() ==> ahead(#[trigger] after[j], (t as u32, #[trigger] now[t])) by {
        if t == seen.len() {
            assert(after[at].0 == t);
        } else {
            assert(now[t] == seen[t]);
            if lists(before, t) {
                let j = choose|j: int| 0 <= j < before.len() && (#[trigger] before[j]).0 == t;
                if j < at {
                    assert(after[j] == before[j]);
                } else {
                    assert(after[j + 1] == before[j]);
                }
            } else {
                assert forall|j: int| 0 <= j < after.len() implies ahead(
                    #[trigger] after[j],
                    (t as u32, now[t]),
                ) by {
                    if j < at {
                        assert(after[j] == before[j]);
                    } else if j > at {
                        assert(after[j] == before[j - 1]);
                    } else {
                        assert(ahead(before[at], (t as u32, seen[t])));
                        assert(ahead(new, before[at]));
                    }
                }
            }
        }
    }
}

/// Whether every token is among those.
spec fn lists_all(c: Seq<(u32, u32)>, logits: Seq<u32>) -> bool {
    forall|t: int| 0 <= t < logits.len() ==> lists(c, t)
}

/// The last of the first tokens left out.
proof fn lemma_dropped(c: Seq<(u32, u32)>, logits: Seq<u32>)
    requires
        leads(c, logits),
        c.len() > 0,
    ensures
        leads(c.drop_last(), logits),
{
    let d = c.drop_last();
    assert forall|t: int| 0 <= t < logits.len() implies lists(d, t) || forall|j: int|
        0 <= j < d.len() ==> ahead(#[trigger] d[j], (t as u32, #[trigger] logits[t])) by {
        if lists(c, t) {
            let j = choose|j: int| 0 <= j < c.len() && (#[trigger] c[j]).0 == t;
            if j < d.len() {
                assert(d[j].0 == t);
            } else {
                assert forall|i: int| 0 <= i < d.len() implies ahead(
                    #[trigger] d[i],
                    (t as u32, logits[t]),
                ) by {
                    assert(ahead(c[i], c[j]));
                    assert(c[j] == (t as u32, logits[t]));
                }
            }
        } else {
            assert forall|i: int| 0 <= i < d.len() implies ahead(
                #[trigger] d[i],
                (t as u32, logits[t]),
            ) by {
                assert(ahead(c[i], (t as u32, logits[t])));
            }
        }
    }
}

/// A way to pick the next token: of a vocabulary's logits, given as the bits
/// of floating-point numbers, without those that are masked.
pub trait Sample {
    /// Whether a token may be picked.
    closed spec fn may(&self, logits: Seq<u32>, masked: Seq<u32>, token: u32) -> bool {
        arbitrary()
    }

    /// Picks a token that is not masked. What may be picked stays the same.
    fn sample(&mut self, logits: &[u32], masked: &[u32]) -> (token: u32)
        requires
            logits@.len() <= 0x1_0000_0000,
            exists|t: u32| t < logits@.len() && !masked@.contains(t),
        ensures
            token < logits@.len(),
            !masked@.contains(token),
            old(self).may(logits@, masked@, token),
            forall|l: Seq<u32>, m: Seq<u32>, t: u32|
                #[trigger] final(self).may(l, m, t) == old(self).may(l, m, t),
    ;
}

/// Whether two samplers may pick the same.
pub open spec fn alike<S: Sample>(a: &S, b: &S) -> bool {
    forall|l: Seq<u32>, m: Seq<u32>, t: u32| #[trigger] a.may(l, m, t) == b.may(l, m, t)
}

/// Always picks the most likely token, the first of several.
#[derive(Clone, Copy, Debug)]
pub struct Greedy {}

/// Whether a number is among those.
fn contains(list: &[u32], n: u32) -> (r: bool)
    ensures
        r == list@.contains(n),
{
    let mut i: usize = 0;
    while i < list.len()
        invariant
            i <= list@.len(),
            forall|j: int| 0 <= j < i ==> list@[j] != n,
        decreases list@.len() - i,
    {
        if list[i] == n {
            assert(list@.contains(n));
            return true;
        }
        i = i + 1;
    }
    false
}

impl Sample for Greedy {
    open spec fn may(&self, logits: Seq<u32>, masked: Seq<u32>, token: u32) -> bool {
        &&& token < logits.len()
        &&& !masked.contains(token)
        &&& forall|t: u32|
            t < logits.len() && !masked.contains(t) && t != token ==> ahead(
                (token, logits[token as int]),
                (t, #[trigger] logits[t as int]),
            )
    }

    fn sample(&mut self, logits: &[u32], masked: &[u32]) -> (token: u32)
        ensures
            *final(self) == *old(self),
    {
        let mut best: Option<u32> = None;
        let mut i: usize = 0;
        while i < logits.len()
            invariant
                i <= logits@.len() <= 0x1_0000_0000,
                match best {
                    Some(b) => b < i && !masked@.contains(b) && forall|t: u32|
                        t < i && !masked@.contains(t) && t != b ==> ahead(
                            (b, logits@[b as int]),
                            (t, #[trigger] logits@[t as int]),
                        ),
                    None => forall|t: u32| t < i ==> masked@.contains(t),
                },
            decreases logits@.len() - i,
        {
            let t: u32 = i as u32;
            if !contains(masked, t) {
                let better = match best {
                    Some(b) => order(logits[i]) > order(logits[b as usize]),
                    None => true,
                };
                if better {
                    best = Some(t);
                }
            }
            i = i + 1;
        }
        match best {
            Some(b) => b,
            None => {
                proof {
                    let t = choose|t: u32| t < logits@.len() && !masked@.contains(t);
                    assert(masked@.contains(t));
                }
                0
            },
        }
    }
}

/// There is only one token that is the most likely.
pub proof fn law_greedy_picks_one(g: Greedy, logits: Seq<u32>, masked: Seq<u32>, a: u32, b: u32)
    requires
        g.may(logits, masked, a),
        g.may(logits, masked, b),
    ensures
        a == b,
{
    if a != b {
        assert(ahead((a, logits[a as int]), (b, logits[b as int])));
        assert(ahead((b, logits[b as int]), (a, logits[a as int])));
    }
}

/// The order of the bits is that of the numbers, whose top bit is the sign and
/// whose other bits are the size: positive numbers go by their size and
/// negative ones against it, a negative number comes before a positive one,
/// and the two zeros are one.
pub proof fn law_bits_go_in_order(a: u32, b: u32)
    ensures
        a < 0x8000_0000 && b < 0x8000_0000 ==> (rank(a) < rank(b) <==> a < b),
        a >= 0x8000_0000 && b >= 0x8000_0000 ==> (rank(a) < rank(b) <==> b < a),
        a >= 0x8000_0000 && b < 0x8000_0000 ==> rank(a) <= rank(b),
        rank(a) == rank(b) <==> (a == b || (a % 0x8000_0000 == 0 && b % 0x8000_0000 == 0)),
{
}

/// The first tokens of a vocabulary are as many as were asked for, at least
/// one and at most all of them; none comes twice, none is less likely than one
/// behind it or than one that is left out, and of two that are as likely the
/// one with the smaller id comes first or stays.
pub proof fn law_top_are_the_likeliest(c: Seq<(u32, u32)>, logits: Seq<u32>, top_k: nat)
    requires
        0 < logits.len() <= 0x1_0000_0000,
        c.len() == width(top_k, logits.len()),
        leads(c, logits),
    ensures
        1 <= c.len() <= logits.len(),
        1 <= top_k <= logits.len() ==> c.len() == top_k,
        top_k > logits.len() ==> c.len() == logits.len(),
        top_k == 0 ==> c.len() == 1,
        forall|i: int, j: int|
            0 <= i < j < c.len() ==> (#[trigger] c[i]).0 != (#[trigger] c[j]).0 && rank(
                logits[c[i].0 as int],
            ) >= rank(logits[c[j].0 as int]),
        forall|i: int, j: int|
            0 <= i < j < c.len() && rank(logits[c[i].0 as int]) == rank(logits[c[j].0 as int])
                ==> (#[trigger] c[i]).0 < (#[trigger] c[j]).0,
        forall|i: int, t: int|
            0 <= i < c.len() && 0 <= t < logits.len() && !lists(c, t) ==> rank(
                #[trigger] logits[t],
            ) <= rank(logits[(#[trigger] c[i]).0 as int]),
        forall|i: int, t: int|
            0 <= i < c.len() && 0 <= t < logits.len() && !lists(c, t) && rank(
                #[trigger] logits[t],
            ) == rank(logits[(#[trigger] c[i]).0 as int]) ==> c[i].0 < t,
{
    assert forall|i: int, j: int| 0 <= i < j < c.len() implies (#[trigger] c[i]).0 != (
    #[trigger] c[j]).0 && rank(logits[c[i].0 as int]) >= rank(logits[c[j].0 as int]) by {
        assert(ahead(c[i], c[j]));
    }
    assert forall|i: int, j: int|
        0 <= i < j < c.len() && rank(logits[c[i].0 as int]) == rank(
            logits[c[j].0 as int],
        ) implies (#[trigger] c[i]).0 < (#[trigger] c[j]).0 by {
        assert(ahead(c[i], c[j]));
    }
    assert forall|i: int, t: int|
        0 <= i < c.len() && 0 <= t < logits.len() && !lists(c, t) implies ahead(
        #[trigger] c[i],
        (t as u32, #[trigger] logits[t]),
    ) by {
        assert(lists(c, t) || forall|j: int|
            0 <= j < c.len() ==> ahead(#[trigger] c[j], (t as u32, #[trigger] logits[t])));
    }
}

/// What greedy picking picks is not masked, and no token that is not masked is
/// more likely, nor is one before it as likely.
pub proof fn law_greedy_picks_the_likeliest(
    g: Greedy,
    logits: Seq<u32>,
    masked: Seq<u32>,
    token: u32,
    t: u32,
)
    requires
        g.may(logits, masked, token),
        t < logits.len(),
        !masked.contains(t),
    ensures
        !masked.contains(token),
        rank(logits[t as int]) <= rank(logits[token as int]),
        t < token ==> rank(logits[t as int]) < rank(logits[token as int]),
{
    if t != token {
        assert(ahead((token, logits[token as int]), (t, logits[t as int])));
    }
}

/// The state of xorshift64* after one more step.
pub open spec fn xorshift(s: u64) -> u64 {
    let a = s ^ (s >> 12);
    let b = a ^ (a << 25);
    b ^ (b >> 27)
}

/// xorshift64*.
#[derive(Clone, Copy, Debug)]
pub struct Rng {
    pub state: u64,
}

impl Rng {
    /// Starts from a seed, which zero would never leave.
    pub fn new(seed: u64) -> (r: Self)
        ensures
            r.state == if seed == 0 {
                1
            } else {
                seed
            },
    {
        Rng {
            state: if seed == 0 {
                1
            } else {
                seed
            },
        }
    }

    /// The next 24 bits, which over 2 to the 24 are uniform in [0, 1).
    pub fn next(&mut self) -> (bits: u32)
        ensures
            final(self).state == xorshift(old(self).state),
            bits == xorshift(old(self).state).wrapping_mul(0x2545F4914F6CDD1D) >> 40,
            bits < 0x100_0000,
    {
        let a: u64 = self.state ^ (self.state >> 12);
        let b: u64 = a ^ (a << 25);
        self.state = b ^ (b >> 27);
        let bits: u64 = self.state.wrapping_mul(0x2545F4914F6CDD1D);
        assert(bits >> 40 < 0x100_0000) by (bit_vector);
        (bits >> 40) as u32
    }
}

} // verus!
