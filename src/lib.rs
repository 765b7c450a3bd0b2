//! Prime factorization and factorization-based GCD / LCM of lists of
//! unsigned integers.

pub mod calc;
pub mod multiplicity;
pub mod prime;
pub mod text;
