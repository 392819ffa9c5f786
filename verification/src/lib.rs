//! Reconstruction of embedded source text from a token tree, together with a
//! position index that maps byte offsets in the reconstructed text back to the
//! original source locations of the tokens that produced them.

pub mod content_map;
pub mod laws;
pub mod model;
pub mod token;

pub use content_map::{ReconstructError, Tree, build};
pub use token::{Delim, Group, Leaf, LineCol, Span, Token};
