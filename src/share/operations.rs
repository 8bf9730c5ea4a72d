use vstd::arithmetic::div_mod::*;
use vstd::prelude::*;

use super::Share;
use crate::math::field::lemma_u64_product;

verus! {

/// The sum of the `y` values of a sequence of shares.
pub open spec fn sum_y(shares: Seq<Share>) -> int
    decreases shares.len(),
{
    if shares.len() == 0 {
        0
    } else {
        sum_y(shares.drop_last()) + shares.last().y
    }
}

/// All shares of the sequence lie at the same `x`.
pub open spec fn same_x(shares: Seq<Share>) -> bool {
    forall|i: int| 0 <= i < shares.len() ==> #[trigger] shares[i].x == shares[0].x
}

/// Operations that combine several shares taken at one `x`.
pub trait ShareOperations {
    /// Sums shares that all lie at the same `x`; `None` if there are none or
    /// their `x` values differ.
    fn combine_shares(shares: &[Share], prime: u64) -> (r: Option<Share>)
        requires
            prime > 0,
        ensures
            r is Some <==> shares@.len() > 0 && same_x(shares@),
            r is Some ==> r->0.x == shares@[0].x % prime,
            r is Some ==> r->0.y == sum_y(shares@) % (prime as int),
    ;

    /// Multiplies two shares at the same `x`; `None` if their `x` values differ.
    fn multiply_shares(share1: &Share, share2: &Share, prime: u64) -> (r: Option<Share>)
        requires
            prime > 0,
        ensures
            r is Some <==> share1.x == share2.x,
            r is Some ==> r->0.x == share1.x % prime,
            r is Some ==> r->0.y == (share1.y * share2.y) % (prime as int),
    ;
}

impl ShareOperations for Share {
    fn combine_shares(shares: &[Share], prime: u64) -> (r: Option<Share>) {
        if shares.len() == 0 {
            return None;
        }
        let x = shares[0].x;
        let mut i: usize = 0;
        while i < shares.len()
            invariant
                0 <= i <= shares@.len(),
                x == shares@[0].x,
                forall|k: int| 0 <= k < i ==> #[trigger] shares@[k].x == x,
            decreases shares@.len() - i,
        {
            if shares[i].x != x {
                return None;
            }
            i = i + 1;
        }
        let mut combined_y: u64 = 0;
        let mut j: usize = 0;
        assert(shares@.take(0) =~= Seq::<Share>::empty());
        proof {
            lemma_small_mod(0, prime as nat);
        }
        while j < shares.len()
            invariant
                prime > 0,
                0 <= j <= shares@.len(),
                combined_y == sum_y(shares@.take(j as int)) % (prime as int),
            decreases shares@.len() - j,
        {
            proof {
                let s = shares@.take(j as int + 1);
                assert(s.drop_last() =~= shares@.take(j as int));
                lemma_add_mod_noop_right(
                    shares@[j as int].y as int,
                    sum_y(shares@.take(j as int)),
                    prime as int,
                );
            }
            combined_y = ((combined_y as u128 + shares[j].y as u128) % prime as u128) as u64;
            j = j + 1;
        }
        assert(shares@.take(shares@.len() as int) =~= shares@);
        proof {
            lemma_small_mod(combined_y as nat, prime as nat);
        }
        Some(Share::new(x, combined_y, prime))
    }

    fn multiply_shares(share1: &Share, share2: &Share, prime: u64) -> (r: Option<Share>) {
        if share1.x != share2.x {
            return None;
        }
        proof {
            lemma_u64_product(share1.y, share2.y);
        }
        let y = ((share1.y as u128 * share2.y as u128) % prime as u128) as u64;
        proof {
            lemma_small_mod(y as nat, prime as nat);
        }
        Some(Share::new(share1.x, y, prime))
    }
}

} // verus!
