//! Exact, arbitrary-precision signed decimal arithmetic.
//!
//! A magnitude is a sequence of base-10 digits, least significant first
//! ([`unsigned`], [`long_div`]); a [`BigNum`] is a sign, a magnitude and a
//! scale, always in lowest terms. Every executable function carries a
//! contract over the number that its operands denote: the value of a digit
//! sequence ([`magnitude`]) and the [`decimal::Decimal`] that a `BigNum` is
//! viewed as. The algebra of the operations is proved in [`laws`].

pub mod big_num;
pub mod big_uint;
pub mod decimal;
pub mod digit;
pub mod error;
pub mod laws;
pub mod long_div;
pub mod magnitude;
pub mod operators;
pub mod text;
pub mod unsigned;

pub use big_num::BigNum;
pub use decimal::FLOAT_PRECISION;
