//! Extraction of a symbol graph from GDScript source text.

pub mod balance;
pub mod bases;
pub mod buffers;
pub mod calling;
pub mod docstring;
pub mod events;
pub mod extending;
pub mod gdscript;
pub mod graph;
pub mod ids;
pub mod inheritance;
pub mod kinds;
pub mod laws;
pub mod mentions;
pub mod naming;
pub mod nesting;
pub mod order;
pub mod origins;
pub mod outline;
pub mod parser;
pub mod passing;
pub mod placement;
pub mod promises;
pub mod readings;
pub mod recorded;
pub mod shapes;
pub mod soundness;
pub mod sources;
pub mod statics;
pub mod steps;
pub mod syntax;
pub mod textutil;
pub mod uses;
pub mod walker;

pub use buffers::EmitOut;
pub use gdscript::extract;
pub use walker::Walker;
