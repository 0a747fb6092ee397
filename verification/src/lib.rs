//! An in-memory index over an object-centric event log.
//!
//! The log is a set of typed events and typed objects connected by qualified
//! relationships. The index resolves string identifiers to dense positions,
//! groups entities by type, and materialises the relation graph in both
//! directions so that traversals and intersection queries need no string
//! lookups.

pub mod index;
pub mod log;
pub mod resolve;
pub mod association;
pub mod catalog;
pub mod relations;
pub mod symmetric;
pub mod summary;
pub mod dangling;
pub mod linked;
pub mod order;
pub mod query;
pub mod node;
pub mod info;
pub mod slot;

pub use association::get_object_events_map;
pub use dangling::MalformedReference;
pub use index::{EventIndex, ObjectIndex, ObjectOrEventIndex};
pub use info::OCELInfo;
pub use linked::{link_ocel_info, IndexLinkedOCEL};
pub use log::{
    get_event_relationships, get_object_relationships, OCELEvent, OCELObject, OCELRelationship,
    OCELType, OCEL,
};
pub use node::{OCELNode, OCELNodeRef};
pub use query::{get_events_of_type_associated_with_objects, type_set};
pub use slot::{get_events_from_state, load_ocel_file_to_state, with_ocel_from_state, QueryError};
pub use summary::{get_object_rels_per_type, QualifierAndObjectType};
