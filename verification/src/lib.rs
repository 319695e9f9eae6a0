//! luaux-lsp — the LuauX language server.
//!
//! It owns `.luaux`, answers every question that is about the markup, and
//! forwards everything that is about Luau to a stock `luau-lsp` with positions
//! translated in both directions. This is the logic behind that; reading and
//! writing is left to the program around it.

use vstd::prelude::*;

pub mod analysis;
pub mod api;
pub mod bindings;
pub mod classes;
pub mod code_actions;
pub mod completion;
pub mod coverage;
pub mod decimal;
pub mod document;
pub mod holes;
pub mod hover;
pub mod json;
pub mod jsonrpc;
pub mod line_index;
pub mod luau;
pub mod map_builder;
pub mod messages;
pub mod naming;
pub mod parameters;
pub mod pieces;
pub mod project;
pub mod prose;
pub mod regions;
pub mod remap;
pub mod rename;
pub mod resolving;
pub mod scan;
pub mod semantic_tokens;
pub mod settings;
pub mod snags;
pub mod sourcemap;
pub mod symbols;
pub mod syntax;
pub mod text;
pub mod tree;
pub mod versions;
pub mod walk;
pub mod workspace;

verus! {

/// Version of this server.
pub const VERSION: &'static str = "0.1.1";

/// Version of the compiler it was built against.
///
/// Reported on startup and in `initialize`, because a server built against a
/// different compiler than the one producing `build/` reports diagnostics the
/// build does not — and that mismatch is otherwise invisible.
pub const LUAUX_VERSION: &'static str = "0.1.3";

} // verus!
