//! The 2D blitter.
//!
//! [`memory`] is what the blitter reads and writes, [`state`] its registers and
//! tables. [`rules`], [`color`] and [`merge`] are the combination rules on single
//! words; [`engine`], [`copy`], [`pixmap`] and [`blend`] the loops that apply
//! them; [`setup`] and [`dispatch`] prepare a loop and pick it. [`warp`] and
//! [`warploop`] are the affine warp. [`load`] takes a blit in, [`surface`] locks
//! what it draws on; [`blit`], [`line`], [`text`] and [`pixel`] are whole
//! operations.
//!
//! What the loops come to, pixel by pixel, is stated in [`forms`] for fills, in
//! [`copies`] for copies, in [`maps`] for copies that change depth or color, in
//! [`blends`] for blends, in [`warps`] for warps, and in [`clips`] for blits from
//! the object that describes them; [`bits`] and [`grid`] are what those rest on.
//! [`blits`] says it of whole blits, [`words`] of blits of 32-bit pixels by any
//! rule, [`strokes`] of lines, [`glyphs`] of strings, [`turns`] of warps that flip
//! and turn, and [`smooths`] of warps that smooth. [`loads`] is what the object that
//! describes a blit comes to, [`colors`] what colors pixels come to, [`alphas`] what
//! blends come to in numbers; [`components`] and [`mixing`] say what the rules on
//! colors keep.
pub mod alphas;
pub mod bits;
pub mod blend;
pub mod blends;
pub mod blit;
pub mod blits;
pub mod clips;
pub mod color;
pub mod colors;
pub mod components;
pub mod copies;
pub mod copy;
pub mod dispatch;
pub mod engine;
pub mod forms;
pub mod glyphs;
pub mod grid;
pub mod line;
pub mod load;
pub mod loads;
pub mod maps;
pub mod memory;
pub mod merge;
pub mod mixing;
pub mod pixel;
pub mod pixmap;
pub mod rules;
pub mod setup;
pub mod smooths;
pub mod state;
pub mod strokes;
pub mod surface;
pub mod text;
pub mod turns;
pub mod warp;
pub mod warploop;
pub mod warps;
pub mod words;
