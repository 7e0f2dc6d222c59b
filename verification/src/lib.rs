//! Tallies of completion states over collections of keyed status maps.
//!
//! A [`StatusMap`] maps text keys to a [`Progress`]. [`count_iterator`]
//! counts the keys of one map that have a given status, and
//! [`count_collection`] does so over a whole collection of maps. The module
//! `fork_join` cuts a collection into chunks for a pool of workers and adds
//! up what they counted; its laws say that this gives the count of one
//! pass. The module `generator` makes the maps that measurements are run
//! on.

pub mod collection;
pub mod decimal;
pub mod fork_join;
pub mod generator;
pub mod progress;
pub mod status_map;

pub use crate::collection::{count_collection, count_entries};
pub use crate::fork_join::{combine_counts, count_collection_chunked, plan_chunks};
pub use crate::generator::{get_map, get_vec_map};
pub use crate::progress::Progress;
pub use crate::status_map::{count_iterator, StatusMap};
