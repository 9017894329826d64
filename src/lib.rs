//! Number-theoretic transforms over prime fields: modular arithmetic, a
//! naive quadratic transform and a fast recursive one.
pub mod ntt;
pub mod num;
