//! An embeddable time-series store: labeled metric records are buffered in an
//! in-memory block with an inverted index, selected through AND/OR predicate
//! trees, and frozen blocks are encoded to a self-describing byte layout.
use vstd::prelude::*;

pub mod bitmap;
pub mod block;
pub mod block_index;
pub mod codec;
pub mod order;
pub mod predicate;
pub mod record;
pub mod result_set;
pub mod series;
pub mod store;

verus! {

} // verus!
