//! Helper primitives for DSA signatures: SHA-1 blocks and base-256 arithmetic.
pub mod divide;
pub mod number;
pub mod primitives;
pub mod sha;
