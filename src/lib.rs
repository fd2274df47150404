//! Reading and splitting flat directory-table archives, and reading
//! six-bit colour palettes.

pub mod bytes;
pub mod pak;
pub mod extract;
pub mod palette;
