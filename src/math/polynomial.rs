use vstd::arithmetic::div_mod::*;
use vstd::prelude::*;

use super::field::FiniteField;

verus! {

/// The value at `x` of the polynomial whose coefficients are `c`, constant
/// term first: `c[0] + x * (c[1] + x * (...))`.
pub open spec fn poly_eval(c: Seq<u64>, x: int) -> int
    decreases c.len(),
{
    if c.len() == 0 {
        0
    } else {
        c[0] + x * poly_eval(c.drop_first(), x)
    }
}

/// A polynomial over a prime field, constant term first.
pub struct Polynomial {
    coefficients: Vec<u64>,
    field: FiniteField,
}

impl Polynomial {
    /// The coefficients, constant term first.
    pub closed spec fn coefficients_view(&self) -> Seq<u64> {
        self.coefficients@
    }

    /// The modulus of the field the polynomial lives in.
    pub closed spec fn prime(&self) -> int {
        self.field.prime as int
    }

    /// The field is valid and every coefficient is one of its elements.
    pub open spec fn wf(&self) -> bool {
        &&& self.prime() > 1
        &&& forall|i: int|
            0 <= i < self.coefficients_view().len() ==> #[trigger] self.coefficients_view()[i]
                < self.prime()
    }

    /// Creates the polynomial with the given coefficients over `field`.
    pub fn new(coefficients: Vec<u64>, field: FiniteField) -> (r: Self)
        requires
            field.wf(),
            forall|i: int| 0 <= i < coefficients@.len() ==> #[trigger] coefficients@[i] < field.prime,
        ensures
            r.coefficients_view() == coefficients@,
            r.prime() == field.prime,
            r.wf(),
    {
        Polynomial { coefficients, field }
    }

    /// The value of the polynomial at `x`, reduced into the field, by Horner's
    /// method; zero for no coefficients.
    pub fn evalute(&self, x: u64) -> (r: u64)
        requires
            self.wf(),
        ensures
            r == poly_eval(self.coefficients_view(), x as int) % self.prime(),
    {
        let c = &self.coefficients;
        let n = c.len();
        let ghost p = self.field.prime as int;
        if n == 0 {
            proof {
                lemma_small_mod(0, p as nat);
            }
            return 0;
        }
        let mut result: u64 = c[n - 1];
        proof {
            let s = c@.subrange(n - 1, n as int);
            assert(s.drop_first() =~= Seq::<u64>::empty());
            assert(poly_eval(s.drop_first(), x as int) == 0);
            assert(self.coefficients_view()[n - 1] < self.prime());
            lemma_small_mod(result as nat, p as nat);
        }
        let mut i: usize = n - 1;
        while i > 0
            invariant
                c == &self.coefficients,
                self.wf(),
                p == self.field.prime,
                n == c@.len(),
                i < n,
                result == poly_eval(c@.subrange(i as int, n as int), x as int) % p,
            decreases i,
        {
            let ghost rest = poly_eval(c@.subrange(i as int, n as int), x as int);
            let coeff = c[i - 1];
            result = self.field.multiply(result, x);
            result = self.field.add(result, coeff);
            proof {
                let s = c@.subrange(i - 1, n as int);
                assert(s.drop_first() =~= c@.subrange(i as int, n as int));
                lemma_mul_mod_noop_left(rest, x as int, p);
                lemma_add_mod_noop(rest * x, coeff as int, p);
                assert(self.coefficients_view()[i - 1] < self.prime());
                lemma_small_mod(coeff as nat, p as nat);
                lemma_mod_twice(rest * x, p);
                assert(rest * x == x * rest) by (nonlinear_arith);
            }
            i = i - 1;
        }
        assert(c@.subrange(0, n as int) =~= c@);
        result
    }
}

} // verus!
