use vstd::arithmetic::div_mod::*;
use vstd::prelude::*;

use super::field::{has_inverse, inverse, FiniteField};
use crate::share::Share;

verus! {

/// The difference `xi - xj` of two sample positions has an inverse modulo `p`.
pub open spec fn pair_invertible(pts: Seq<Share>, i: int, j: int, p: int) -> bool {
    has_inverse((pts[i].x - pts[j].x) % p, p)
}

/// Every pair of distinct samples has an invertible difference of positions.
pub open spec fn all_pairs_invertible(pts: Seq<Share>, p: int) -> bool {
    forall|i: int, j: int|
        0 <= i < pts.len() && 0 <= j < pts.len() && i != j ==> #[trigger] pair_invertible(
            pts,
            i,
            j,
            p,
        )
}

/// The factor `(x - xj) / (xi - xj)` of the `i`-th Lagrange basis polynomial.
pub open spec fn basis_factor(pts: Seq<Share>, i: int, j: int, x: int, p: int) -> int {
    ((x - pts[j].x) % p) * inverse((pts[i].x - pts[j].x) % p, p)
}

/// The product of the factors of the `i`-th basis polynomial over `j < k`, `j != i`.
pub open spec fn basis_product(pts: Seq<Share>, i: int, x: int, p: int, k: int) -> int
    decreases k,
{
    if k <= 0 {
        1
    } else if k - 1 == i {
        basis_product(pts, i, x, p, k - 1)
    } else {
        basis_product(pts, i, x, p, k - 1) * basis_factor(pts, i, k - 1, x, p)
    }
}

/// The sum over the first `k` samples of `yi` times the `i`-th basis polynomial at `x`.
pub open spec fn interpolation_sum(pts: Seq<Share>, x: int, p: int, k: int) -> int
    decreases k,
{
    if k <= 0 {
        0
    } else {
        interpolation_sum(pts, x, p, k - 1) + pts[k - 1].y * basis_product(
            pts,
            k - 1,
            x,
            p,
            pts.len() as int,
        )
    }
}

/// The value at `x` of the polynomial through the samples `pts`, by Lagrange's
/// formula over the integers modulo `field.prime`; `None` when some difference
/// of positions has no inverse.
pub fn lagrange_interpolate(field: &FiniteField, points: &[Share], x: u64) -> (r: Option<u64>)
    requires
        field.wf(),
    ensures
        r is Some <==> all_pairs_invertible(points@, field.prime as int),
        r is Some ==> r->0 == interpolation_sum(
            points@,
            x as int,
            field.prime as int,
            points@.len() as int,
        ) % (field.prime as int),
{
    let ghost p = field.prime as int;
    let ghost pts = points@;
    let n = points.len();
    let mut result: u64 = 0;
    proof {
        lemma_small_mod(0, p as nat);
    }
    let mut i: usize = 0;
    while i < n
        invariant
            field.wf(),
            p == field.prime,
            pts == points@,
            n == pts.len(),
            i <= n,
            result == interpolation_sum(pts, x as int, p, i as int) % p,
            forall|a: int, b: int|
                0 <= a < i && 0 <= b < n && a != b ==> #[trigger] pair_invertible(pts, a, b, p),
        decreases n - i,
    {
        let mut term: u64 = points[i].y;
        assert(pts[i as int].y * 1 == pts[i as int].y);
        let mut j: usize = 0;
        while j < n
            invariant
                field.wf(),
                p == field.prime,
                pts == points@,
                n == pts.len(),
                i < n,
                j <= n,
                (term as int) % p == (pts[i as int].y * basis_product(pts, i as int, x as int, p, j as int)) % p,
                forall|b: int| 0 <= b < j && b != i ==> #[trigger] pair_invertible(pts, i as int, b, p),
            decreases n - j,
        {
            if i != j {
                let numerator = field.subtract(x, points[j].x);
                let denominator = field.subtract(points[i].x, points[j].x);
                match field.mod_inverse(denominator) {
                    Some(inv_denominator) => {
                        let f = field.multiply(numerator, inv_denominator);
                        proof {
                            let bp = basis_product(pts, i as int, x as int, p, j as int);
                            let yb = pts[i as int].y * bp;
                            let fi = basis_factor(pts, i as int, j as int, x as int, p);
                            assert(f == fi % p);
                            lemma_mul_mod_noop(yb, fi, p);
                            lemma_mul_mod_noop(term as int, fi, p);
                            lemma_mod_twice(term * fi, p);
                            assert(yb * fi == pts[i as int].y * (bp * fi)) by (nonlinear_arith)
                                requires
                                    yb == pts[i as int].y * bp,
                            ;
                        }
                        let ghost old_term = term;
                        term = field.multiply(term, f);
                        proof {
                            let bp = basis_product(pts, i as int, x as int, p, j as int);
                            let yb = pts[i as int].y * bp;
                            let fi = basis_factor(pts, i as int, j as int, x as int, p);
                            lemma_small_mod(term as nat, p as nat);
                            lemma_mul_mod_noop_right(old_term as int, fi, p);
                            lemma_mul_mod_noop_left(old_term as int, fi, p);
                            lemma_mul_mod_noop_left(yb, fi, p);
                            assert(term == (yb * fi) % p);
                            assert(basis_product(pts, i as int, x as int, p, j + 1) == bp * fi);
                        }
                    },
                    None => {
                        proof {
                            assert(!pair_invertible(pts, i as int, j as int, p));
                        }
                        return None;
                    },
                }
            }
            j = j + 1;
        }
        proof {
            lemma_add_mod_noop_right(result as int, term as int, p);
            lemma_add_mod_noop_right(result as int, pts[i as int].y * basis_product(pts, i as int, x as int, p, n as int), p);
            lemma_add_mod_noop(
                interpolation_sum(pts, x as int, p, i as int),
                pts[i as int].y * basis_product(pts, i as int, x as int, p, n as int),
                p,
            );
        }
        result = field.add(result, term);
        i = i + 1;
    }
    Some(result)
}

} // verus!
