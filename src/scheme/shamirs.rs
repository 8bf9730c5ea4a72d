use rand::Rng;
use vstd::arithmetic::div_mod::*;
use vstd::arithmetic::power::pow;
use vstd::prelude::*;

use crate::error::Error;
use crate::math::field::{has_inverse, inverse, FiniteField};
use crate::math::polynomial::poly_eval;
use crate::share::Share;

verus! {

/// Relies on rand's `thread_rng().gen_range(0..bound)`: a value drawn from
/// `[0, bound)`; the range must not be empty.
#[verifier::external_body]
fn random_below(bound: u64) -> (r: u64)
    requires
        bound > 0,
    ensures
        r < bound,
{
    rand::thread_rng().gen_range(0..bound)
}

/// Adding one coefficient to a prefix adds its monomial to the value.
proof fn lemma_poly_eval_take(c: Seq<u64>, x: int, k: int)
    requires
        0 <= k < c.len(),
    ensures
        poly_eval(c.take(k + 1), x) == poly_eval(c.take(k), x) + c[k] * pow(x, k as nat),
    decreases k,
{
    reveal(pow);
    if k == 0 {
        assert(c.take(1).drop_first() =~= Seq::<u64>::empty());
        assert(c.take(0) =~= Seq::<u64>::empty());
        assert(poly_eval(Seq::<u64>::empty(), x) == 0);
        assert(poly_eval(c.take(1), x) == c[0] + x * poly_eval(c.take(1).drop_first(), x));
        assert(pow(x, 0) == 1);
    } else {
        let d = c.drop_first();
        lemma_poly_eval_take(d, x, k - 1);
        assert(c.take(k + 1).drop_first() =~= d.take(k));
        assert(c.take(k).drop_first() =~= d.take(k - 1));
        let a = poly_eval(d.take(k - 1), x);
        let w = pow(x, (k - 1) as nat);
        assert(d[k - 1] == c[k]);
        assert(pow(x, k as nat) == x * w);
        assert(poly_eval(c.take(k + 1), x) == c[0] + x * poly_eval(d.take(k), x));
        assert(poly_eval(c.take(k), x) == c[0] + x * a);
        assert(x * (a + c[k] * w) == x * a + c[k] * (x * w)) by (nonlinear_arith);
    }
}

/// The product `(a - x_j)` over the shares `j < k` other than `i`.
pub open spec fn product_except(pts: Seq<Share>, i: int, a: int, k: int) -> int
    decreases k,
{
    if k <= 0 {
        1
    } else if k - 1 == i {
        product_except(pts, i, a, k - 1)
    } else {
        product_except(pts, i, a, k - 1) * (a - pts[k - 1].x)
    }
}

/// The denominator of the `i`-th Lagrange basis polynomial, reduced modulo `p`.
pub open spec fn basis_denominator(pts: Seq<Share>, i: int, p: int) -> int {
    product_except(pts, i, pts[i].x as int, pts.len() as int) % p
}

/// The denominator of the `i`-th basis polynomial has an inverse modulo `p`.
pub open spec fn basis_defined(pts: Seq<Share>, i: int, p: int) -> bool {
    has_inverse(basis_denominator(pts, i, p), p)
}

/// The `i`-th Lagrange basis polynomial at `x`, modulo `p`.
pub open spec fn basis_value(pts: Seq<Share>, i: int, x: int, p: int) -> int {
    ((product_except(pts, i, x, pts.len() as int) % p) * inverse(basis_denominator(pts, i, p), p))
        % p
}

/// The sum of `y_i` times the `i`-th basis polynomial at zero, over `i < k`.
pub open spec fn weighted_sum(pts: Seq<Share>, p: int, k: int) -> int
    decreases k,
{
    if k <= 0 {
        0
    } else {
        weighted_sum(pts, p, k - 1) + pts[k - 1].y * basis_value(pts, k - 1, 0, p)
    }
}

/// What the first `t` of `shares` reconstruct to modulo `p`: `None` when there
/// are fewer than `t` of them or a basis polynomial has no inverse denominator.
pub open spec fn reconstructed(shares: Seq<Share>, t: int, p: int) -> Option<int> {
    let pts = shares.take(t);
    if shares.len() < t {
        None
    } else if forall|i: int| 0 <= i < t ==> #[trigger] basis_defined(pts, i, p) {
        Some(weighted_sum(pts, p, t) % p)
    } else {
        None
    }
}

/// `shares` are the values at `x = 1, ..., n` of the polynomial with
/// coefficients `c`, each coordinate reduced modulo `p`.
pub open spec fn shares_of(shares: Seq<Share>, c: Seq<u64>, n: int, p: int) -> bool {
    &&& shares.len() == n
    &&& forall|i: int|
        0 <= i < n ==> (#[trigger] shares[i]).x == (i + 1) % p && shares[i].y == poly_eval(
            c,
            i + 1,
        ) % p
}

/// A (t, n) threshold secret-sharing scheme over the integers modulo a prime.
pub struct ShamirSecretSharing {
    field: FiniteField,
    threshold: usize,
    total_shares: usize,
}

impl ShamirSecretSharing {
    /// The modulus of the field.
    pub closed spec fn prime(&self) -> int {
        self.field.prime as int
    }

    /// The number of shares needed to reconstruct.
    pub closed spec fn threshold(&self) -> int {
        self.threshold as int
    }

    /// The number of shares a split produces.
    pub closed spec fn total_shares(&self) -> int {
        self.total_shares as int
    }

    /// `1 <= threshold <= total_shares` over a modulus of at least 2.
    pub open spec fn wf(&self) -> bool {
        &&& self.prime() > 1
        &&& 1 <= self.threshold() <= self.total_shares()
    }

    /// Creates the scheme; fails when `threshold` is zero or exceeds `total_shares`.
    pub fn new(threshold: usize, total_shares: usize, prime: u64) -> (r: Result<Self, Error>)
        requires
            prime > 1,
        ensures
            r is Err <==> threshold == 0 || threshold > total_shares,
            r is Err ==> r->Err_0 is InvalidThreshold,
            r is Ok ==> r->Ok_0.wf() && r->Ok_0.prime() == prime && r->Ok_0.threshold()
                == threshold && r->Ok_0.total_shares() == total_shares,
    {
        if threshold == 0 {
            return Err(Error::InvalidThreshold("Threshold must be positive".to_owned()));
        }
        if threshold > total_shares {
            return Err(Error::InvalidThreshold("Threshold must not exceed total shares".to_owned()));
        }
        Ok(ShamirSecretSharing { field: FiniteField::new(prime), threshold, total_shares })
    }

    /// A coefficient drawn from the field.
    fn random_coefficient(&self) -> (r: Result<u64, Error>)
        requires
            self.wf(),
        ensures
            r is Ok,
            r->Ok_0 < self.prime(),
    {
        Ok(random_below(self.field.prime))
    }

    /// The value at `x` of the polynomial with `coefficients`, reduced into the
    /// field, summed term by term with running powers of `x`.
    fn evaluate_polynomial(&self, coefficients: &[u64], x: u64) -> (r: u64)
        requires
            self.wf(),
            coefficients@.len() >= 1,
            forall|i: int| 0 <= i < coefficients@.len() ==> #[trigger] coefficients@[i] < self.prime(),
        ensures
            r == poly_eval(coefficients@, x as int) % self.prime(),
    {
        let ghost p = self.prime();
        let ghost c = coefficients@;
        let mut result: u64 = coefficients[0];
        let mut power: u64 = 1;
        proof {
            reveal(pow);
            lemma_poly_eval_take(c, x as int, 0);
            assert(c.take(0) =~= Seq::<u64>::empty());
            lemma_small_mod(result as nat, p as nat);
            lemma_small_mod(1, p as nat);
        }
        let mut i: usize = 1;
        while i < coefficients.len()
            invariant
                self.wf(),
                p == self.prime(),
                p == self.field.prime,
                c == coefficients@,
                1 <= i <= c.len(),
                forall|k: int| 0 <= k < c.len() ==> #[trigger] c[k] < p,
                result == poly_eval(c.take(i as int), x as int) % p,
                power == pow(x as int, (i - 1) as nat) % p,
            decreases c.len() - i,
        {
            let coeff = coefficients[i];
            let ghost pw = pow(x as int, (i - 1) as nat);
            let ghost prev = poly_eval(c.take(i as int), x as int);
            power = self.field.multiply(power, x);
            let term = self.field.multiply(coeff, power);
            result = self.field.add(result, term);
            proof {
                reveal(pow);
                assert(pow(x as int, i as nat) == x * pw);
                lemma_mul_mod_noop_left(pw, x as int, p);
                assert(pw * x == x * pw) by (nonlinear_arith);
                lemma_mul_mod_noop_right(coeff as int, x * pw, p);
                lemma_add_mod_noop(prev, coeff * (x * pw), p);
                lemma_mod_twice(prev, p);
                lemma_mod_twice(coeff * (x * pw), p);
                lemma_poly_eval_take(c, x as int, i as int);
            }
            i = i + 1;
        }
        assert(c.take(c.len() as int) =~= c);
        result
    }

    /// The shares `x = 1, ..., total_shares` of the polynomial with the given
    /// coefficients (constant term first).
    pub fn shares_from_coefficients(&self, coefficients: &[u64]) -> (r: Vec<Share>)
        requires
            self.wf(),
            coefficients@.len() >= 1,
            forall|i: int| 0 <= i < coefficients@.len() ==> #[trigger] coefficients@[i] < self.prime(),
        ensures
            shares_of(r@, coefficients@, self.total_shares(), self.prime()),
    {
        let ghost p = self.prime();
        let mut shares: Vec<Share> = Vec::new();
        let mut i: usize = 0;
        while i < self.total_shares
            invariant
                self.wf(),
                p == self.prime(),
                p == self.field.prime,
                i <= self.total_shares,
                coefficients@.len() >= 1,
                forall|k: int| 0 <= k < coefficients@.len() ==> #[trigger] coefficients@[k] < p,
                shares@.len() == i,
                forall|k: int|
                    0 <= k < i ==> (#[trigger] shares@[k]).x == (k + 1) % p && shares@[k].y
                        == poly_eval(coefficients@, k + 1) % p,
            decreases self.total_shares - i,
        {
            let x: u64 = i as u64 + 1;
            let y = self.evaluate_polynomial(coefficients, x);
            proof {
                lemma_small_mod(y as nat, p as nat);
            }
            shares.push(Share::new(x, y, self.field.prime));
            i = i + 1;
        }
        shares
    }

    /// Splits `secret` into `total_shares` shares, any `threshold` of which
    /// reconstruct it; fails when the secret is not a field element.
    pub fn split_secret(&self, secret: u64) -> (r: Result<Vec<Share>, Error>)
        requires
            self.wf(),
        ensures
            r is Err <==> secret >= self.prime(),
            r is Err ==> r->Err_0 is FieldError,
            r is Ok ==> exists|c: Seq<u64>|
                {
                    &&& c.len() == self.threshold()
                    &&& c[0] == secret
                    &&& forall|i: int| 0 <= i < c.len() ==> #[trigger] c[i] < self.prime()
                    &&& shares_of(r->Ok_0@, c, self.total_shares(), self.prime())
                },
    {
        if secret >= self.field.prime {
            return Err(Error::FieldError("Secret too large for field".to_owned()));
        }
        let mut coefficients: Vec<u64> = vec![secret];
        let mut k: usize = 1;
        while k < self.threshold
            invariant
                self.wf(),
                1 <= k <= self.threshold,
                coefficients@.len() == k,
                coefficients@[0] == secret,
                forall|i: int| 0 <= i < coefficients@.len() ==> #[trigger] coefficients@[i] < self.prime(),
            decreases self.threshold - k,
        {
            let c = self.random_coefficient()?;
            coefficients.push(c);
            k = k + 1;
        }
        let shares = self.shares_from_coefficients(&coefficients);
        assert(shares_of(shares@, coefficients@, self.total_shares(), self.prime()));
        Ok(shares)
    }

    /// The `idx`-th Lagrange basis polynomial of `shares` at `x`, or `None`
    /// when its denominator has no inverse.
    fn lagrange_basis(&self, shares: &[Share], x: u64, idx: usize) -> (r: Option<u64>)
        requires
            self.wf(),
            idx < shares@.len(),
        ensures
            r is Some <==> basis_defined(shares@, idx as int, self.prime()),
            r is Some ==> r->0 == basis_value(shares@, idx as int, x as int, self.prime()),
    {
        let ghost p = self.prime();
        let ghost pts = shares@;
        let mut numerator: u64 = 1;
        let mut denominator: u64 = 1;
        proof {
            lemma_small_mod(1, p as nat);
        }
        let mut j: usize = 0;
        while j < shares.len()
            invariant
                self.wf(),
                p == self.prime(),
                p == self.field.prime,
                pts == shares@,
                idx < pts.len(),
                j <= pts.len(),
                numerator == product_except(pts, idx as int, x as int, j as int) % p,
                denominator == product_except(pts, idx as int, pts[idx as int].x as int, j as int)
                    % p,
            decreases pts.len() - j,
        {
            if j != idx {
                let xj = shares[j].x;
                let xi = shares[idx].x;
                proof {
                    lemma_mul_mod_noop(
                        product_except(pts, idx as int, x as int, j as int),
                        x - xj,
                        p,
                    );
                    lemma_mul_mod_noop(
                        product_except(pts, idx as int, xi as int, j as int),
                        xi - xj,
                        p,
                    );
                }
                numerator = self.field.multiply(numerator, self.field.subtract(x, xj));
                denominator = self.field.multiply(denominator, self.field.subtract(xi, xj));
            }
            j = j + 1;
        }
        self.field.divide(numerator, denominator)
    }

    /// Reconstructs the secret from the first `threshold` of `shares` by
    /// Lagrange interpolation at zero.
    pub fn reconstruct_secret(&self, shares: &[Share]) -> (r: Result<u64, Error>)
        requires
            self.wf(),
        ensures
            r is Ok <==> reconstructed(shares@, self.threshold(), self.prime()) is Some,
            r is Ok ==> r->Ok_0 == reconstructed(shares@, self.threshold(), self.prime())->0,
            r is Err ==> (shares@.len() < self.threshold() <==> r->Err_0 is InsufficientShares),
            r is Err ==> (shares@.len() >= self.threshold() <==> r->Err_0 is FieldError),
    {
        if shares.len() < self.threshold {
            return Err(Error::InsufficientShares);
        }
        let ghost p = self.prime();
        let used = &shares[0..self.threshold];
        let ghost pts = used@;
        assert(pts =~= shares@.take(self.threshold()));
        let t = self.threshold;
        let mut secret: u64 = 0;
        proof {
            lemma_small_mod(0, p as nat);
        }
        let mut i: usize = 0;
        while i < t
            invariant
                self.wf(),
                p == self.prime(),
                p == self.field.prime,
                pts == used@,
                t == pts.len(),
                t == self.threshold(),
                shares@.len() >= t,
                pts == shares@.take(t as int),
                i <= t,
                secret == weighted_sum(pts, p, i as int) % p,
                forall|k: int| 0 <= k < i ==> #[trigger] basis_defined(pts, k, p),
            decreases t - i,
        {
            match self.lagrange_basis(used, 0, i) {
                Some(basis) => {
                    let y = used[i].y;
                    let ghost b = basis_value(pts, i as int, 0, p);
                    let ghost prev = weighted_sum(pts, p, i as int);
                    proof {
                        lemma_mul_mod_noop_right(y as int, b, p);
                        lemma_mod_twice(b, p);
                        lemma_add_mod_noop(prev, y * b, p);
                        lemma_mod_twice(prev, p);
                        lemma_mod_twice(y * b, p);
                    }
                    secret = self.field.add(secret, self.field.multiply(y, basis));
                },
                None => {
                    assert(!basis_defined(pts, i as int, p));
                    return Err(Error::FieldError("Lagrange interpolation failed".to_owned()));
                },
            }
            i = i + 1;
        }
        Ok(secret)
    }
}

} // verus!
