//! Verified cores of the virtual machine's plugins: the 2D blitter, the
//! digital signature primitives, file attributes and the Cairo binding.
//!
//! Everything that decides or computes is here, on plain values. What talks to
//! the interpreter, the file system or a shared library stays outside.
#![allow(non_snake_case, non_camel_case_types)]
#![allow(unused_imports, unused_variables)]

pub mod bitblt;
pub mod cairo;
pub mod dsa;
pub mod files;
pub mod prim;
