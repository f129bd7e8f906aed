//! A verified library for building, serializing and simulating the reversible
//! 5-bit Shor ECDLP oracle circuit over the curve y^2 = x^3 + 7 mod 31.
pub mod circuit;
pub mod ops_io;
pub mod curve;
pub mod shor_oracle;
pub mod sim;
pub mod eval;
pub mod group;
