//! The order of value heads.
//!
//! The file keeps the value heads of linear attention tiled: head `j` shares
//! key head `j % n_k`. The model has them grouped: head `h` shares key head
//! `h / (n_v / n_k)`.
use vstd::arithmetic::div_mod::{
    lemma_div_is_ordered, lemma_fundamental_div_mod, lemma_fundamental_div_mod_converse,
    lemma_mod_bound,
};
use vstd::prelude::*;

verus! {

/// Where in the tiled order head `h` of the grouped order stands.
pub open spec fn tiled(h: int, n_k: int, n_v: int) -> int {
    (h % (n_v / n_k)) * n_k + h / (n_v / n_k)
}

/// Heads of `per_head` elements each, from the tiled order into the grouped.
pub open spec fn untiled<T>(data: Seq<T>, n_k: int, n_v: int, per_head: int) -> Seq<T> {
    Seq::new(
        data.len(),
        |i: int| data[tiled(i / per_head, n_k, n_v) * per_head + i % per_head],
    )
}

/// Whether every head of the grouped order stands somewhere in the tiled.
pub open spec fn arranged(n_k: int, n_v: int) -> bool {
    n_v > 0 ==> 0 < n_k <= n_v && forall|h: int|
        0 <= h < n_v ==> 0 <= #[trigger] tiled(h, n_k, n_v) < n_v
}

/// Reorders `n_v` heads of `per_head` elements each from the tiled order,
/// where head `j` shares key head `j % n_k`, into the grouped order, where
/// head `h` shares key head `h / (n_v / n_k)`.
pub fn untile<T: Copy>(data: &[T], n_k: usize, n_v: usize, per_head: usize) -> (out: Vec<T>)
    requires
        data@.len() == n_v * per_head,
        arranged(n_k as int, n_v as int),
    ensures
        out@ == untiled(data@, n_k as int, n_v as int, per_head as int),
{
    let mut out: Vec<T> = Vec::new();
    let n: usize = data.len();
    if n_v == 0 {
        assert(0 * per_head == 0) by (nonlinear_arith);
        return out;
    }
    let rep: usize = n_v / n_k;
    let ghost whole = untiled(data@, n_k as int, n_v as int, per_head as int);
    proof {
        lemma_div_is_ordered(n_k as int, n_v as int, n_k as int);
        lemma_fundamental_div_mod_converse(n_k as int, n_k as int, 1, 0);
        assert(0 * per_head == 0) by (nonlinear_arith);
        assert(whole.take(0) =~= Seq::empty());
    }
    let mut h: usize = 0;
    while h < n_v
        invariant
            0 < n_k <= n_v,
            rep == n_v / n_k,
            rep > 0,
            arranged(n_k as int, n_v as int),
            n == data@.len() == n_v * per_head,
            whole == untiled(data@, n_k as int, n_v as int, per_head as int),
            h <= n_v,
            out@ == whole.take(h * per_head),
        decreases n_v - h,
    {
        let ghost j = tiled(h as int, n_k as int, n_v as int);
        proof {
            lemma_mod_bound(h as int, rep as int);
            lemma_fundamental_div_mod(n_v as int, n_k as int);
            let m = (h % rep) as int;
            assert(m * n_k <= rep * n_k == n_k * rep) by (nonlinear_arith)
                requires
                    0 <= m <= rep,
                    n_k > 0,
            ;
            lemma_mod_bound(n_v as int, n_k as int);
            assert(j < n_v);
            assert(j * per_head + per_head <= n_v * per_head) by (nonlinear_arith)
                requires
                    j + 1 <= n_v,
            ;
            assert(0 <= j * per_head) by (nonlinear_arith)
                requires
                    0 <= j,
            ;
            assert(h * per_head + per_head == (h + 1) * per_head) by (nonlinear_arith);
            assert((h + 1) * per_head <= n_v * per_head) by (nonlinear_arith)
                requires
                    h + 1 <= n_v,
            ;
            assert(0 <= h * per_head) by (nonlinear_arith);
        }
        let at: usize = ((h % rep) * n_k + h / rep) * per_head;
        let mut i: usize = 0;
        while i < per_head
            invariant
                n == data@.len() == n_v * per_head,
                whole == untiled(data@, n_k as int, n_v as int, per_head as int),
                h < n_v,
                j == tiled(h as int, n_k as int, n_v as int),
                at == j * per_head,
                at + per_head <= n,
                0 <= h * per_head <= n - per_head,
                i <= per_head,
                out@ == whole.take(h * per_head + i),
            decreases per_head - i,
        {
            proof {
                lemma_fundamental_div_mod_converse(
                    h * per_head + i,
                    per_head as int,
                    h as int,
                    i as int,
                );
                assert(whole[h * per_head + i] == data@[at + i]);
            }
            out.push(data[at + i]);
            i = i + 1;
            assert(out@ =~= whole.take(h * per_head + i));
        }
        h = h + 1;
    }
    assert(whole.take(n as int) =~= whole);
    out
}

/// Where key heads divide the value heads, every head of the grouped order
/// stands in the tiled order at a head that shares the same key head, and
/// every head of the tiled order is met once.
pub proof fn law_untiling_keeps_key_heads(h: int, n_k: int, n_v: int)
    requires
        0 < n_k,
        n_v % n_k == 0,
        0 <= h < n_v,
    ensures
        0 <= tiled(h, n_k, n_v) < n_v,
        tiled(h, n_k, n_v) % n_k == h / (n_v / n_k),
        forall|g: int|
            0 <= g < n_v && #[trigger] tiled(g, n_k, n_v) == tiled(h, n_k, n_v) ==> g == h,
{
    let rep = n_v / n_k;
    lemma_fundamental_div_mod(n_v, n_k);
    assert(rep > 0) by (nonlinear_arith)
        requires
            n_v == n_k * rep,
            n_v > 0,
            n_k > 0,
    ;
    lemma_tiled_parts(h, n_k, n_v);
    assert forall|g: int|
        0 <= g < n_v && #[trigger] tiled(g, n_k, n_v) == tiled(h, n_k, n_v) implies g == h by {
        lemma_tiled_parts(g, n_k, n_v);
        lemma_fundamental_div_mod(g, rep);
        lemma_fundamental_div_mod(h, rep);
    }
}

/// The tiled position of a head divided by the number of key heads.
proof fn lemma_tiled_parts(h: int, n_k: int, n_v: int)
    requires
        0 < n_k,
        n_v == n_k * (n_v / n_k),
        n_v / n_k > 0,
        0 <= h < n_v,
    ensures
        0 <= tiled(h, n_k, n_v) < n_v,
        tiled(h, n_k, n_v) % n_k == h / (n_v / n_k),
        tiled(h, n_k, n_v) / n_k == h % (n_v / n_k),
{
    let rep = n_v / n_k;
    let m = h % rep;
    let q = h / rep;
    lemma_mod_bound(h, rep);
    lemma_fundamental_div_mod(h, rep);
    assert(0 <= q < n_k) by (nonlinear_arith)
        requires
            h == rep * q + m,
            0 <= m < rep,
            0 <= h < n_k * rep,
            rep > 0,
    ;
    assert(m * n_k + q < n_v) by (nonlinear_arith)
        requires
            n_v == n_k * rep,
            0 <= m < rep,
            0 <= q < n_k,
    ;
    assert(0 <= m * n_k) by (nonlinear_arith)
        requires
            0 <= m,
            0 < n_k,
    ;
    lemma_fundamental_div_mod_converse(tiled(h, n_k, n_v), n_k, m, q);
}

/// Where key heads divide the value heads, every head stands somewhere.
pub proof fn lemma_arranged(n_k: int, n_v: int)
    requires
        0 < n_k,
        n_v % n_k == 0,
    ensures
        arranged(n_k, n_v),
{
    if n_v > 0 {
        let rep = n_v / n_k;
        lemma_fundamental_div_mod(n_v, n_k);
        assert(n_k <= n_v && rep > 0) by (nonlinear_arith)
            requires
                n_v == n_k * rep,
                n_v > 0,
                n_k > 0,
        ;
        assert forall|h: int| 0 <= h < n_v implies 0 <= #[trigger] tiled(h, n_k, n_v) < n_v by {
            lemma_tiled_parts(h, n_k, n_v);
        }
    }
}

} // verus!
