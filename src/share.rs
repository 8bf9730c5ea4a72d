//! Shares: points of the secret-encoding polynomial, and their homomorphic operations.
pub mod operations;

use vstd::arithmetic::div_mod::*;
use vstd::prelude::*;

use crate::math::field::lemma_u64_product;

verus! {

/// One point `(x, y)` of the polynomial that encodes a secret.
#[derive(Debug, Clone, PartialEq, Eq, Structural)]
pub struct Share {
    pub x: u64,
    pub y: u64,
}

impl Share {
    /// Both coordinates are elements of the field of integers modulo `prime`.
    pub open spec fn valid(&self, prime: int) -> bool {
        self.x < prime && self.y < prime
    }

    /// Creates the share `(x mod prime, y mod prime)`.
    pub fn new(x: u64, y: u64, prime: u64) -> (r: Share)
        requires
            prime > 0,
        ensures
            r.x == x % prime,
            r.y == y % prime,
            r.valid(prime as int),
    {
        Share { x: x % prime, y: y % prime }
    }

    /// Adds two shares taken at the same `x`: `y = (self.y + other.y) mod prime`.
    pub fn add(&self, other: &Share, prime: u64) -> (r: Share)
        requires
            prime > 0,
            self.x == other.x,
        ensures
            r.x == self.x % prime,
            r.y == (self.y + other.y) % (prime as int),
            r.valid(prime as int),
    {
        let y = ((self.y as u128 + other.y as u128) % prime as u128) as u64;
        proof {
            lemma_small_mod(y as nat, prime as nat);
        }
        Share::new(self.x, y, prime)
    }

    /// Adds a public constant to the share: `y = (self.y + constant) mod prime`.
    pub fn add_constant(&self, constant: u64, prime: u64) -> (r: Share)
        requires
            prime > 0,
        ensures
            r.x == self.x % prime,
            r.y == (self.y + constant) % (prime as int),
            r.valid(prime as int),
    {
        let y = ((self.y as u128 + constant as u128) % prime as u128) as u64;
        proof {
            lemma_small_mod(y as nat, prime as nat);
        }
        Share::new(self.x, y, prime)
    }

    /// Scales the share by a public constant: `y = (self.y * constant) mod prime`.
    pub fn multiply_by_constant(&self, constant: u64, prime: u64) -> (r: Share)
        requires
            prime > 0,
        ensures
            r.x == self.x % prime,
            r.y == (self.y * constant) % (prime as int),
            r.valid(prime as int),
    {
        proof {
            lemma_u64_product(self.y, constant);
        }
        let y = ((self.y as u128 * constant as u128) % prime as u128) as u64;
        proof {
            lemma_small_mod(y as nat, prime as nat);
        }
        Share::new(self.x, y, prime)
    }
}

} // verus!
