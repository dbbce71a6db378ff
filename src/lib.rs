//! A typed document model (pages made of block-quotes) held in an entity
//! store, with a resolver that turns client selections into result trees
//! under a per-edge depth policy and a hard depth ceiling, and a flat
//! serialized form for those trees.
use vstd::prelude::*;

pub mod value;
pub mod store;
pub mod resolve;
pub mod query;
pub mod laws;
pub mod codec;

verus! {

} // verus!
