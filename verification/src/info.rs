//! A summary of a log: how much it holds and what it calls things.

use vstd::prelude::*;
use crate::log::{OCELType, OCEL};
use crate::resolve::entity_ids;

verus! {

/// The sizes, declared types and identifiers of a log.
#[derive(Debug)]
pub struct OCELInfo {
    pub num_objects: usize,
    pub num_events: usize,
    pub object_types: Vec<OCELType>,
    pub event_types: Vec<OCELType>,
    pub object_ids: Vec<String>,
    pub event_ids: Vec<String>,
}

/// The mathematical content of a list of strings.
pub open spec fn string_views(list: Seq<String>) -> Seq<Seq<char>> {
    list.map_values(|text: String| text@)
}

/// The mathematical content of a list of declared types.
pub open spec fn type_views(list: Seq<OCELType>) -> Seq<Seq<char>> {
    list.map_values(|declared: OCELType| declared@)
}

impl OCELInfo {
    /// This summary is the summary of `ocel`.
    pub open spec fn describes(&self, ocel: &OCEL) -> bool {
        &&& self.num_objects == ocel@.objects.len()
        &&& self.num_events == ocel@.events.len()
        &&& type_views(self.object_types@) == ocel@.object_types
        &&& type_views(self.event_types@) == ocel@.event_types
        &&& string_views(self.object_ids@) == entity_ids(ocel@.objects)
        &&& string_views(self.event_ids@) == entity_ids(ocel@.events)
    }
}

/// A copy of a list of declared types.
fn clone_types(types: &Vec<OCELType>) -> (copy: Vec<OCELType>)
    ensures
        type_views(copy@) == type_views(types@),
{
    let mut copy: Vec<OCELType> = Vec::new();
    let mut i: usize = 0;
    while i < types.len()
        invariant
            i <= types@.len(),
            copy@.len() == i,
            forall|j: int| 0 <= j < i ==> (#[trigger] copy@[j])@ == types@[j]@,
        decreases types@.len() - i,
    {
        copy.push(types[i].clone());
        i += 1;
    }
    assert(type_views(copy@) =~= type_views(types@));
    copy
}

impl vstd::std_specs::convert::FromSpecImpl<&OCEL> for OCELInfo {
    /// What `from` returns is stated on `from` itself, through `describes`.
    open spec fn obeys_from_spec() -> bool {
        false
    }

    open spec fn from_spec(val: &OCEL) -> Self {
        choose|info: OCELInfo| info.describes(val)
    }
}

impl From<&OCEL> for OCELInfo {
    fn from(val: &OCEL) -> (info: Self)
        ensures
            info.describes(val),
    {
        let mut event_ids: Vec<String> = Vec::new();
        let mut e: usize = 0;
        while e < val.events.len()
            invariant
                e <= val.events@.len(),
                event_ids@.len() == e,
                forall|j: int| 0 <= j < e ==> (#[trigger] event_ids@[j])@ == val.events@[j].id@,
            decreases val.events@.len() - e,
        {
            event_ids.push(val.events[e].id.clone());
            e += 1;
        }
        let mut object_ids: Vec<String> = Vec::new();
        let mut o: usize = 0;
        while o < val.objects.len()
            invariant
                o <= val.objects@.len(),
                object_ids@.len() == o,
                forall|j: int| 0 <= j < o ==> (#[trigger] object_ids@[j])@ == val.objects@[j].id@,
            decreases val.objects@.len() - o,
        {
            object_ids.push(val.objects[o].id.clone());
            o += 1;
        }
        let info = OCELInfo {
            num_objects: val.objects.len(),
            num_events: val.events.len(),
            object_types: clone_types(&val.object_types),
            event_types: clone_types(&val.event_types),
            event_ids,
            object_ids,
        };
        assert(type_views(val.object_types@) =~= val@.object_types);
        assert(type_views(val.event_types@) =~= val@.event_types);
        assert(string_views(info.object_ids@) =~= entity_ids(val@.objects));
        assert(string_views(info.event_ids@) =~= entity_ids(val@.events));
        info
    }
}

} // verus!
