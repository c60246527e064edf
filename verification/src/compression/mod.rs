//! Bit-level compression of timestamps and of doubles.
pub mod bits;
pub mod code_laws;
pub mod delta;
pub mod simd;
pub mod xor_float;
