use vstd::arithmetic::div_mod::*;
use vstd::prelude::*;

verus! {

/// `a` has a multiplicative inverse modulo `p`.
pub open spec fn has_inverse(a: int, p: int) -> bool {
    exists|t: int| 0 <= t < p && #[trigger] ((a * t) % p) == 1
}

/// The inverse of `a` modulo `p` in `[0, p)`, where one exists.
pub open spec fn inverse(a: int, p: int) -> int {
    choose|t: int| 0 <= t < p && #[trigger] ((a * t) % p) == 1
}

/// A modulus `p > 1` has at most one inverse of `a` in `[0, p)`.
pub proof fn lemma_inverse_unique(a: int, p: int, t: int)
    requires
        p > 1,
        0 <= t < p,
        (a * t) % p == 1,
    ensures
        has_inverse(a, p),
        inverse(a, p) == t,
{
    assert(has_inverse(a, p));
    let u = inverse(a, p);
    // t == t * (a * u) == (a * t) * u == u  (mod p)
    assert(0 <= u < p && (a * u) % p == 1);
    lemma_mul_mod_noop_right(t, a * u, p);
    assert(t * 1 == t);
    lemma_mul_mod_noop_left(a * t, u, p);
    assert(t * (a * u) == (a * t) * u) by (nonlinear_arith);
    lemma_small_mod(t as nat, p as nat);
    lemma_small_mod(u as nat, p as nat);
    assert((t * (a * u)) % p == t);
    assert(((a * t) * u) % p == u);
}

/// Where `a` has an inverse modulo `p`, multiplying by it gives one.
pub proof fn law_inverse_multiplies_to_one(a: int, p: int)
    requires
        p > 1,
        has_inverse(a, p),
    ensures
        0 <= inverse(a, p) < p,
        (a * inverse(a, p)) % p == 1,
{
}

/// `r > 1` is not a unit of the integers.
proof fn lemma_not_unit(r: int, y: int)
    requires
        r > 1,
    ensures
        r * y != 1,
{
    if y >= 1 {
        assert(r * y >= r) by (nonlinear_arith)
            requires
                r > 1,
                y >= 1,
        ;
    } else {
        assert(r * y <= 0) by (nonlinear_arith)
            requires
                r > 1,
                y <= 0,
        ;
    }
}

/// When `a` and `p` share a divisor `r > 1` (so `gcd(a, p) != 1`, as for
/// `a = 0`), `a` has no inverse modulo `p`.
pub proof fn law_common_divisor_no_inverse(a: int, p: int, r: int, ca: int, cp: int)
    requires
        p > 1,
        r > 1,
        a == ca * r,
        p == cp * r,
    ensures
        !has_inverse(a, p),
{
    if has_inverse(a, p) {
        let t = choose|t: int| 0 <= t < p && #[trigger] ((a * t) % p) == 1;
        let k = (a * t) / p;
        lemma_fundamental_div_mod(a * t, p);
        assert(a * t == p * k + 1);
        assert(r * (ca * t - cp * k) == a * t - p * k) by (nonlinear_arith)
            requires
                a == ca * r,
                p == cp * r,
        ;
        lemma_not_unit(r, ca * t - cp * k);
    }
}

/// One step of the extended Euclidean algorithm keeps both remainders
/// congruent to multiples of `a`, and keeps `p` and `a` combinations of them.
proof fn lemma_euclid_step(
    a: int,
    p: int,
    t: int,
    newt: int,
    r: int,
    newr: int,
    kt: int,
    kn: int,
    ca: int,
    cb: int,
    cc: int,
    cd: int,
    q: int,
    m: int,
    nt: int,
    nr: int,
)
    requires
        t * a - r == kt * p,
        newt * a - newr == kn * p,
        p == ca * r + cb * newr,
        a == cc * r + cd * newr,
        nt == t - q * newt + m * p,
        r == q * newr + nr,
    ensures
        nt * a - nr == (kt - q * kn + m * a) * p,
        p == (ca * q + cb) * newr + ca * nr,
        a == (cc * q + cd) * newr + cc * nr,
{
    assert(nt * a - nr == (kt - q * kn + m * a) * p) by (nonlinear_arith)
        requires
            t * a - r == kt * p,
            newt * a - newr == kn * p,
            nt == t - q * newt + m * p,
            r == q * newr + nr,
    ;
    assert(p == (ca * q + cb) * newr + ca * nr) by (nonlinear_arith)
        requires
            p == ca * r + cb * newr,
            r == q * newr + nr,
    ;
    assert(a == (cc * q + cd) * newr + cc * nr) by (nonlinear_arith)
        requires
            a == cc * r + cd * newr,
            r == q * newr + nr,
    ;
}

/// The product of two `u64` values fits in a `u128`.
pub proof fn lemma_u64_product(a: u64, b: u64)
    ensures
        a * b <= 0xffff_ffff_ffff_ffffu64 * 0xffff_ffff_ffff_ffffu64,
{
    assert(a * b <= 0xffff_ffff_ffff_ffffu64 * 0xffff_ffff_ffff_ffffu64) by (nonlinear_arith)
        requires
            a <= 0xffff_ffff_ffff_ffffu64,
            b <= 0xffff_ffff_ffff_ffffu64,
            a >= 0,
            b >= 0,
    ;
}

/// A prime field: integers modulo `prime`.
pub struct FiniteField {
    pub prime: u64,
}

impl FiniteField {
    /// The modulus is at least 2.
    pub open spec fn wf(&self) -> bool {
        self.prime > 1
    }

    /// Creates the field of integers modulo `prime`.
    pub fn new(prime: u64) -> (r: Self)
        requires
            prime > 1,
        ensures
            r.prime == prime,
            r.wf(),
    {
        FiniteField { prime }
    }

    /// `(a + b) mod p`.
    pub fn add(&self, a: u64, b: u64) -> (r: u64)
        requires
            self.wf(),
        ensures
            r == (a + b) % (self.prime as int),
    {
        ((a as u128 + b as u128) % self.prime as u128) as u64
    }

    /// `(a - b) mod p`, wrapping below zero.
    pub fn subtract(&self, a: u64, b: u64) -> (r: u64)
        requires
            self.wf(),
        ensures
            r == (a - b) % (self.prime as int),
    {
        let p = self.prime;
        let result = if a >= b {
            a - b
        } else {
            proof {
                lemma_sub_mod_noop_right(0, (b - a) as int, p as int);
                lemma_mod_add_multiples_vanish(-((b - a) % (p as int)), p as int);
            }
            p - ((b - a) % p)
        };
        result % p
    }

    /// `(a * b) mod p`.
    pub fn multiply(&self, a: u64, b: u64) -> (r: u64)
        requires
            self.wf(),
        ensures
            r == (a * b) % (self.prime as int),
    {
        proof {
            lemma_u64_product(a, b);
        }
        ((a as u128 * b as u128) % self.prime as u128) as u64
    }

    /// `a / b` in the field: `a` times the inverse of `b`, if `b` has one.
    pub fn divide(&self, a: u64, b: u64) -> (r: Option<u64>)
        requires
            self.wf(),
        ensures
            r is Some <==> has_inverse(b as int, self.prime as int),
            r is Some ==> r->0 == (a * inverse(b as int, self.prime as int)) % (self.prime as int),
    {
        match self.mod_inverse(b) {
            Some(b_inv) => Some(self.multiply(a, b_inv)),
            None => None,
        }
    }

    /// The inverse of `a` modulo `p` by the extended Euclidean algorithm,
    /// or `None` when `gcd(a, p) != 1`.
    pub fn mod_inverse(&self, a: u64) -> (r: Option<u64>)
        requires
            self.wf(),
        ensures
            r is Some <==> has_inverse(a as int, self.prime as int),
            r is Some ==> r->0 < self.prime && r->0 == inverse(a as int, self.prime as int),
            r is Some ==> (a * r->0) % (self.prime as int) == 1,
    {
        let p = self.prime;
        let a0 = a % p;
        // Bezout coefficients are kept reduced modulo p.
        let mut t: u64 = 0;
        let mut newt: u64 = 1;
        let mut r: u64 = p;
        let mut newr: u64 = a0;
        let ghost mut kt: int = -1;
        let ghost mut kn: int = 0;
        let ghost mut ca: int = 1;
        let ghost mut cb: int = 0;
        let ghost mut cc: int = 0;
        let ghost mut cd: int = 1;
        proof {
            lemma_fundamental_div_mod(a as int, p as int);
        }
        while newr != 0
            invariant
                p == self.prime,
                p > 1,
                a0 < p,
                t < p,
                newt < p,
                0 < r <= p,
                newr < r,
                t * a0 - r == kt * p,
                newt * a0 - newr == kn * p,
                p == ca * r + cb * newr,
                a0 == cc * r + cd * newr,
            decreases newr,
        {
            let q = r / newr;
            let nr = r % newr;
            proof {
                lemma_u64_product(q, newt);
            }
            let s = ((q as u128 * newt as u128) % p as u128) as u64;
            let nt = ((t as u128 + p as u128 - s as u128) % p as u128) as u64;
            proof {
                lemma_fundamental_div_mod(r as int, newr as int);
                lemma_fundamental_div_mod(q * newt, p as int);
                lemma_fundamental_div_mod(t + p - s, p as int);
                let m = 1 + (q * newt) / (p as int) - (t + p - s) / (p as int);
                let x1 = (q * newt) / (p as int);
                let x2 = (t + p - s) / (p as int);
                assert(nt == t - q * newt + m * p) by (nonlinear_arith)
                    requires
                        m == 1 + x1 - x2,
                        q * newt == p * x1 + s,
                        t + p - s == p * x2 + nt,
                ;
                lemma_euclid_step(
                    a0 as int, p as int, t as int, newt as int, r as int, newr as int,
                    kt, kn, ca, cb, cc, cd, q as int, m, nt as int, nr as int,
                );
                let kn2 = kt - q * kn + m * a0;
                kt = kn;
                kn = kn2;
                let ca2 = ca * q + cb;
                cb = ca;
                ca = ca2;
                let cc2 = cc * q + cd;
                cd = cc;
                cc = cc2;
            }
            t = newt;
            newt = nt;
            r = newr;
            newr = nr;
        }
        proof {
            // a and a0 have the same products modulo p
            assert forall|u: int| #[trigger] ((a * u) % (p as int)) == (a0 * u) % (p as int) by {
                lemma_mul_mod_noop_left(a as int, u, p as int);
            }
        }
        if r > 1 {
            proof {
                law_common_divisor_no_inverse(a0 as int, p as int, r as int, cc, ca);
                if has_inverse(a as int, p as int) {
                    let u = choose|u: int| 0 <= u < p && #[trigger] ((a * u) % (p as int)) == 1;
                    assert((a0 * u) % (p as int) == 1);
                }
            }
            return None;
        }
        proof {
            lemma_fundamental_div_mod_converse(t * a0, p as int, kt, 1);
            assert((a * t) % (p as int) == 1);
            lemma_inverse_unique(a as int, p as int, t as int);
        }
        Some(t)
    }
}

} // verus!
