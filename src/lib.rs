//! A fixed-base Miller-Rabin primality test on arbitrary-precision naturals.
//!
//! Numbers are held as little-endian base-2^32 limbs ([`BigNat`]); the
//! arithmetic on them is delegated to `num-bigint`. The number theory that
//! shows every prime to pass the test is in [`number_theory`].

pub mod natural;
pub mod number_theory;
pub mod primality;

pub use natural::BigNat;
pub use primality::{miller_rabin_biguint, miller_rabin_with_base, split_off_twos};
