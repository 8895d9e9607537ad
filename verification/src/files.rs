//! File attributes and directory enumeration.
//!
//! What is read from the file system comes in as plain values; what is decided
//! and computed from it is here.
pub mod attributes;
pub mod codes;
pub mod convert;
pub mod dir;
pub mod fapath;
pub mod stat;
