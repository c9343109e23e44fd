//! Core logic of a small fixed-function game console: the pure parts of the
//! hardware-abstraction layer (framebuffer addressing, keyboard edge
//! detection, scratch-memory model), the deterministic tile-merging game
//! engine with its xorshift generator, the renderer, and the program-image
//! encoder. All hardware access itself (volatile reads and writes of the
//! memory-mapped registers) lives outside this crate; the library works on
//! plain values and in-memory models of the peripherals.
pub mod display;
pub mod game;
pub mod keyboard;
pub mod line;
pub mod render;
pub mod rng;
pub mod rom;
pub mod scratch;
