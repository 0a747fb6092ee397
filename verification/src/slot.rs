//! The slot that holds the index of the current log.
//!
//! A service keeps one slot and guards it with a lock of its own. The
//! functions here say what a load does to the slot's content and what a
//! reader gets from it: a load replaces the index whole or leaves it alone,
//! and a reader is told apart whether there is no index or whether its
//! question makes no sense for the index that there is.

use vstd::prelude::*;
use vstd::hash_set::StringHashSet;
use crate::index::{EventIndex, ObjectIndex};
use crate::info::OCELInfo;
use crate::linked::IndexLinkedOCEL;
use crate::log::{LogModel, OCEL};
use crate::query::{ascending, get_events_of_type_associated_with_objects};

verus! {

/// Why a query on the slot gave no answer.
#[derive(Debug, Clone, Copy, PartialEq, Eq, Structural)]
pub enum QueryError {
    /// No log has been loaded yet.
    NoIndexLoaded,
    /// One of the objects asked for is no object of the loaded log.
    ObjectOutOfRange,
}

impl LogModel {
    /// Each of `objects` is an object of this log.
    pub open spec fn knows_objects(self, objects: Seq<ObjectIndex>) -> bool {
        forall|i: int| 0 <= i < objects.len() ==> (#[trigger] objects[i]).0 < self.objects.len()
    }
}

/// Puts the index of a freshly loaded log into the slot and returns the
/// log's summary. Where loading gave no log, the slot keeps what it held.
pub fn load_ocel_file_to_state(loaded: Option<OCEL>, state: &mut Option<IndexLinkedOCEL>) -> (info:
    Option<OCELInfo>)
    ensures
        match loaded {
            Some(ocel) => (*final(state)) is Some && (*final(state))->0@ == ocel@ && info is Some
                && info->0.describes(&ocel),
            None => *final(state) == *old(state) && info is None,
        },
{
    match loaded {
        Some(ocel) => {
            let ocel_info = OCELInfo::from(&ocel);
            *state = Some(IndexLinkedOCEL::new(ocel));
            Some(ocel_info)
        },
        None => None,
    }
}

/// Applies `f` to the index in the slot; nothing where the slot is empty.
pub fn with_ocel_from_state<T, F: FnOnce(&IndexLinkedOCEL) -> T>(
    state: &Option<IndexLinkedOCEL>,
    f: F,
) -> (result: Option<T>)
    requires
        state is Some ==> f.requires((&state->0,)),
    ensures
        match result {
            Some(value) => state is Some && f.ensures((&state->0,), value),
            None => state is None,
        },
{
    match state {
        Some(ocel_ref) => Some(f(ocel_ref)),
        None => None,
    }
}

/// Whether each of `object_indices` is an object of the indexed log.
pub fn knows_objects(linked_ocel: &IndexLinkedOCEL, object_indices: &[ObjectIndex]) -> (known: bool)
    ensures
        known == linked_ocel@.knows_objects(object_indices@),
{
    let mut i: usize = 0;
    while i < object_indices.len()
        invariant
            i <= object_indices@.len(),
            forall|j: int| 0 <= j < i ==> (#[trigger] object_indices@[j]).0 < linked_ocel@.objects.len(),
        decreases object_indices@.len() - i,
    {
        if linked_ocel.ob_by_index(&object_indices[i]).is_none() {
            return false;
        }
        i += 1;
    }
    true
}

/// The query, asked of the slot. It answers where there is an index and every
/// object asked for is one of its log; otherwise it says which of the two
/// failed, the missing index first.
pub fn get_events_from_state(
    state: &Option<IndexLinkedOCEL>,
    event_types: &StringHashSet,
    object_indices: &[ObjectIndex],
) -> (answer: Result<Vec<EventIndex>, QueryError>)
    ensures
        match answer {
            Ok(events) => state is Some && state->0@.knows_objects(object_indices@) && ascending(
                events@,
            ) && events@.to_set() == state->0@.events_of_types_for_objects(
                event_types@,
                object_indices@,
            ),
            Err(QueryError::NoIndexLoaded) => state is None,
            Err(QueryError::ObjectOutOfRange) => state is Some && !state->0@.knows_objects(
                object_indices@,
            ),
        },
{
    match state {
        None => Err(QueryError::NoIndexLoaded),
        Some(linked_ocel) => {
            if knows_objects(linked_ocel, object_indices) {
                Ok(get_events_of_type_associated_with_objects(linked_ocel, event_types, object_indices))
            } else {
                Err(QueryError::ObjectOutOfRange)
            }
        },
    }
}

} // verus!
