//! A build-time linker for WebAssembly modules: decodes a module's
//! import/export table, matches the required imports against linkage
//! declarations extracted from candidate host libraries, and prepares
//! the pieces of the generated glue artifact.

pub mod ast;
pub mod definitions;
pub mod imports_map;
pub mod library;
pub mod linkage;
pub mod wasm;
