//! Dead-code elimination for WebAssembly modules: find what the exports, the
//! start function and the segments reach, drop the rest, and renumber every
//! surviving index.
pub mod model;
pub mod imports;
pub mod numbering;
pub mod analyze;
pub mod remap;
pub mod shrink;
pub mod soundness;
pub mod fixpoint;
