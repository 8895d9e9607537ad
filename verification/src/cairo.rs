//! The Cairo binding: what is checked before a call reaches the library, how
//! its objects are named by handles, and how pixels move in and out.
//!
//! The library's objects come in as addresses and its answers as plain values.
pub mod bridge;
pub mod checks;
pub mod ffi;
pub mod handles;
pub mod pixels;
pub mod resources;
