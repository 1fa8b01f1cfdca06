//! A parametrized software floating-point engine.
//!
//! The crate models IEEE-754-style binary floating-point formats with
//! arbitrary exponent and significand widths, decodes and classifies bit
//! patterns, converts between bit patterns and decimal/hex/binary text, and
//! performs correctly-rounded addition and subtraction with IEEE
//! exception-flag semantics.
pub mod bignum;
pub mod bits;
pub mod fenv;
pub mod floats;
pub mod laws;
pub mod ops;
pub mod render;
pub mod round;
pub mod str_conv;
