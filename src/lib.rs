//! Discovery and normalization of collected command identifiers.
//!
//! The scan phase turns parsed source files into per-member manifest text; the
//! generation phase reads manifest text back and folds it into a sorted,
//! duplicate-free registry of command paths.

pub mod emit;
pub mod ident;
pub mod manifest;
pub mod phases;
pub mod registry;
pub mod scan;
pub mod workspace;
