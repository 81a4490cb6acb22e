//! Key-combination binding resolver.
//!
//! The `combination` module parses human-written key-chord descriptions
//! such as `"Ctrl + Shift + X"` into a canonical modifier-set plus key
//! identity. The `resolver` module compiles a declared keymap into a fast
//! lookup structure and resolves live key-press events against it.

pub mod combination;
pub mod resolver;
