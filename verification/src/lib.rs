//! A verified persistence core for a tree of hierarchical content blocks:
//! block construction, a flat block table with a dense sibling-order
//! invariant, sibling reordering, recursive tree hydration, and the
//! workspace/home-page bootstrap.

pub mod block;
pub mod clock;
pub mod codec;
pub mod content;
pub mod errors;
pub mod ids;
pub mod store;
pub mod text;
