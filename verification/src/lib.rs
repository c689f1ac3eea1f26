//! An arbitrary-precision unsigned integer engine over 64-bit limbs, with
//! Barrett and Montgomery modular reduction built on top of it. Every
//! operation carries a contract over the mathematical value of its operands,
//! and the reducers are proved to agree with plain modular reduction.

pub mod error;
pub mod limbs;
pub mod integer_au;
pub mod shift;
pub mod bitwise;
pub mod divmod;
pub mod barrett;
pub mod montgomery;
pub mod random;
pub mod decimal;
pub mod laws;
