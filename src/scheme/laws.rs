use vstd::arithmetic::div_mod::*;
use vstd::prelude::*;

use super::shamirs::{basis_defined, basis_value, product_except, reconstructed, weighted_sum};
use crate::share::Share;

verus! {

/// The two sequences hold shares at the same positions.
pub open spec fn same_positions(a: Seq<Share>, b: Seq<Share>) -> bool {
    &&& a.len() == b.len()
    &&& forall|i: int| 0 <= i < a.len() ==> (#[trigger] a[i]).x == b[i].x
}

proof fn lemma_product_except_positions(a: Seq<Share>, b: Seq<Share>, i: int, v: int, k: int)
    requires
        same_positions(a, b),
        k <= a.len(),
    ensures
        product_except(a, i, v, k) == product_except(b, i, v, k),
    decreases k,
{
    if k > 0 {
        lemma_product_except_positions(a, b, i, v, k - 1);
        assert(a[k - 1].x == b[k - 1].x);
    }
}

proof fn lemma_basis_positions(a: Seq<Share>, b: Seq<Share>, i: int, p: int)
    requires
        same_positions(a, b),
        0 <= i < a.len(),
    ensures
        basis_value(a, i, 0, p) == basis_value(b, i, 0, p),
        basis_defined(a, i, p) == basis_defined(b, i, p),
{
    assert(a[i].x == b[i].x);
    lemma_product_except_positions(a, b, i, 0, a.len() as int);
    lemma_product_except_positions(a, b, i, a[i].x as int, a.len() as int);
}

proof fn lemma_take_positions(a: Seq<Share>, b: Seq<Share>, t: int)
    requires
        same_positions(a, b),
        0 <= t <= a.len(),
    ensures
        same_positions(a.take(t), b.take(t)),
{
    assert forall|i: int| 0 <= i < t implies (#[trigger] a.take(t)[i]).x == b.take(t)[i].x by {
        assert(a[i].x == b[i].x);
    }
}

proof fn lemma_scaled_sum(a: Seq<Share>, b: Seq<Share>, c: int, p: int, k: int)
    requires
        p > 1,
        same_positions(a, b),
        0 <= k <= a.len(),
        forall|i: int| 0 <= i < a.len() ==> (#[trigger] b[i]).y == (a[i].y * c) % p,
    ensures
        weighted_sum(b, p, k) % p == (c * weighted_sum(a, p, k)) % p,
    decreases k,
{
    if k == 0 {
        assert(c * 0 == 0);
    } else {
        lemma_scaled_sum(a, b, c, p, k - 1);
        lemma_basis_positions(a, b, k - 1, p);
        let sa = weighted_sum(a, p, k - 1);
        let sb = weighted_sum(b, p, k - 1);
        let y = a[k - 1].y as int;
        let w = basis_value(a, k - 1, 0, p);
        assert(b[k - 1].y == (y * c) % p);
        lemma_mul_mod_noop_left(y * c, w, p);
        lemma_add_mod_noop(sb, b[k - 1].y * w, p);
        lemma_add_mod_noop(c * sa, y * c * w, p);
        assert(c * (sa + y * w) == c * sa + y * c * w) by (nonlinear_arith);
    }
}

proof fn lemma_summed_sum(a1: Seq<Share>, a2: Seq<Share>, b: Seq<Share>, p: int, k: int)
    requires
        p > 1,
        same_positions(a1, b),
        same_positions(a2, b),
        0 <= k <= b.len(),
        forall|i: int| 0 <= i < b.len() ==> (#[trigger] b[i]).y == (a1[i].y + a2[i].y) % p,
    ensures
        weighted_sum(b, p, k) % p == (weighted_sum(a1, p, k) + weighted_sum(a2, p, k)) % p,
    decreases k,
{
    if k > 0 {
        lemma_summed_sum(a1, a2, b, p, k - 1);
        lemma_basis_positions(a1, b, k - 1, p);
        lemma_basis_positions(a2, b, k - 1, p);
        let s1 = weighted_sum(a1, p, k - 1);
        let s2 = weighted_sum(a2, p, k - 1);
        let sb = weighted_sum(b, p, k - 1);
        let y1 = a1[k - 1].y as int;
        let y2 = a2[k - 1].y as int;
        let w = basis_value(b, k - 1, 0, p);
        assert(b[k - 1].y == (y1 + y2) % p);
        lemma_mul_mod_noop_left(y1 + y2, w, p);
        lemma_add_mod_noop(sb, b[k - 1].y * w, p);
        lemma_add_mod_noop(s1 + s2, (y1 + y2) * w, p);
        assert((s1 + y1 * w) + (s2 + y2 * w) == (s1 + s2) + (y1 + y2) * w) by (nonlinear_arith);
    }
}

/// Scaling every share by a public constant `c` scales what they reconstruct
/// to by `c`, modulo `p`.
pub proof fn law_scale_by_constant(a: Seq<Share>, b: Seq<Share>, c: u64, t: int, p: int)
    requires
        p > 1,
        t >= 1,
        a.len() == b.len(),
        forall|i: int| 0 <= i < a.len() ==> (#[trigger] a[i]).valid(p),
        forall|i: int|
            0 <= i < a.len() ==> (#[trigger] b[i]).x == (a[i].x as int) % p && b[i].y == (a[i].y * c) % p,
    ensures
        reconstructed(b, t, p) is Some <==> reconstructed(a, t, p) is Some,
        reconstructed(a, t, p) is Some ==> reconstructed(b, t, p)->0 == (c * reconstructed(
            a,
            t,
            p,
        )->0) % p,
{
    assert forall|i: int| 0 <= i < a.len() implies (#[trigger] a[i]).x == b[i].x by {
        assert(a[i].valid(p));
        lemma_small_mod(a[i].x as nat, p as nat);
    }
    if 0 <= t <= a.len() {
        let ta = a.take(t);
        let tb = b.take(t);
        lemma_take_positions(a, b, t);
        assert forall|i: int| 0 <= i < t implies basis_defined(ta, i, p) == basis_defined(tb, i, p) by {
            lemma_basis_positions(ta, tb, i, p);
        }
        lemma_scaled_sum(ta, tb, c as int, p, t);
        lemma_mul_mod_noop_right(c as int, weighted_sum(ta, p, t), p);
        lemma_mod_twice(weighted_sum(tb, p, t), p);
    }
}

/// Adding two share sets position by position adds what they reconstruct to,
/// modulo `p`.
pub proof fn law_add_shares(a1: Seq<Share>, a2: Seq<Share>, b: Seq<Share>, t: int, p: int)
    requires
        p > 1,
        t >= 1,
        a1.len() == b.len(),
        a2.len() == b.len(),
        forall|i: int| 0 <= i < b.len() ==> (#[trigger] a1[i]).valid(p),
        forall|i: int|
            0 <= i < b.len() ==> (#[trigger] b[i]).x == (a1[i].x as int) % p && a2[i].x == a1[i].x && b[i].y
                == (a1[i].y + a2[i].y) % p,
    ensures
        reconstructed(b, t, p) is Some <==> reconstructed(a1, t, p) is Some,
        reconstructed(b, t, p) is Some <==> reconstructed(a2, t, p) is Some,
        reconstructed(b, t, p) is Some ==> reconstructed(b, t, p)->0 == (reconstructed(a1, t, p)->0
            + reconstructed(a2, t, p)->0) % p,
{
    assert forall|i: int| 0 <= i < b.len() implies (#[trigger] a1[i]).x == b[i].x && a2[i].x
        == b[i].x by {
        assert(a1[i].valid(p));
        lemma_small_mod(a1[i].x as nat, p as nat);
    }
    if 0 <= t <= b.len() {
        let t1 = a1.take(t);
        let t2 = a2.take(t);
        let tb = b.take(t);
        lemma_take_positions(a1, b, t);
        lemma_take_positions(a2, b, t);
        assert forall|i: int| 0 <= i < t implies basis_defined(t1, i, p) == basis_defined(tb, i, p)
            && basis_defined(t2, i, p) == basis_defined(tb, i, p) by {
            lemma_basis_positions(t1, tb, i, p);
            lemma_basis_positions(t2, tb, i, p);
        }
        lemma_summed_sum(t1, t2, tb, p, t);
        lemma_add_mod_noop(weighted_sum(t1, p, t), weighted_sum(t2, p, t), p);
        lemma_mod_twice(weighted_sum(tb, p, t), p);
    }
}

} // verus!
