//! Crisol's verified core: the module graph, the typed SSA IR and its verifier, and the
//! pixel bookkeeping the renderer's tests read back.

use vstd::prelude::*;

pub mod codegen;
pub mod cycles;
pub mod graph;
pub mod tarjan;
pub mod ir;
pub mod loader;
pub mod ordering;
pub mod pixels;
pub mod selection;
pub mod text;

pub use graph::{ModuleGraph, ModuleId};

verus! {

} // verus!
