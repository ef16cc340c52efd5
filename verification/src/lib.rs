//! In-memory secondary indexes over a stream of immutable events, with a
//! resolver that answers filtered, newest-first, paginated queries.
//!
//! An admitted event is given a surrogate key, a compact stand-in for its
//! identifier, and is filed under that key by kind, by author, by creation
//! time and by tag. A query looks each of its predicates up in the matching
//! index, keeps what the answers have in common, retains the newest keys as
//! far as its limit allows, and resolves them to event identifiers.
//!
//! - [`ident`]: surrogate keys, composite keys and the index order
//! - [`order`]: the index order as the comparison of composite keys
//! - [`keyset`]: ordered sets of composite keys
//! - [`assoc`]: the association list behind the indexes by author and by tag
//! - [`buckets`]: the indexes by kind, by author and by creation time
//! - [`tags`]: the index by tag
//! - [`mapping`]: surrogate key to event identifier
//! - [`event`]: events, filters and indexing results as plain values
//! - [`query`]: what a query answers, and the steps shared in computing it
//! - [`database`]: the engine that holds all of these together

pub mod assoc;
pub mod buckets;
pub mod database;
pub mod event;
pub mod ident;
pub mod keyset;
pub mod mapping;
pub mod order;
pub mod query;
pub mod tags;

pub use crate::database::DatabaseIndexes;
pub use crate::event::{Event, EventId, EventIndexResult, Filter, PublicKey, Tag};
pub use crate::ident::{MappingIdentifier, SmallerIdentifier};
