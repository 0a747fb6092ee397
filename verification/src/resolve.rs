//! Identity resolution: from string identifiers to dense positions.
//!
//! Identifiers are expected to be unique within a log. Logs that repeat one
//! are not rejected: the identifier then stands for its last occurrence.

use vstd::prelude::*;
use vstd::hash_map::StringHashMap;
use crate::index::{EventIndex, ObjectIndex};
use crate::log::{EntityModel, LogModel, OCEL};

verus! {

/// The identifiers of a list of entities, in order.
pub open spec fn entity_ids(entities: Seq<EntityModel>) -> Seq<Seq<char>> {
    entities.map_values(|e: EntityModel| e.id)
}

/// `position` is the last place in `ids` that holds `id`.
pub open spec fn is_last_occurrence(ids: Seq<Seq<char>>, id: Seq<char>, position: int) -> bool {
    &&& 0 <= position < ids.len()
    &&& ids[position] == id
    &&& forall|later: int| position < later < ids.len() ==> ids[later] != id
}

/// What an identifier table says of `id`.
pub open spec fn lookup(table: Map<Seq<char>, ObjectIndex>, id: Seq<char>) -> Option<ObjectIndex> {
    if table.contains_key(id) {
        Some(table[id])
    } else {
        None
    }
}

impl LogModel {
    /// Every entity can be addressed by a machine-sized position.
    pub open spec fn fits(self) -> bool {
        self.events.len() <= usize::MAX && self.objects.len() <= usize::MAX
    }

    /// The object that `id` stands for, if any.
    pub open spec fn object_named(self, id: Seq<char>) -> Option<ObjectIndex> {
        if exists|o: ObjectIndex| is_last_occurrence(entity_ids(self.objects), id, o.0 as int) {
            Some(
                choose|o: ObjectIndex| is_last_occurrence(entity_ids(self.objects), id, o.0 as int),
            )
        } else {
            None
        }
    }

    /// The event that `id` stands for, if any.
    pub open spec fn event_named(self, id: Seq<char>) -> Option<EventIndex> {
        if exists|e: EventIndex| is_last_occurrence(entity_ids(self.events), id, e.0 as int) {
            Some(choose|e: EventIndex| is_last_occurrence(entity_ids(self.events), id, e.0 as int))
        } else {
            None
        }
    }

    /// The identifier-to-object table of this log.
    pub open spec fn object_index(self) -> Map<Seq<char>, ObjectIndex> {
        Map::new(
            |id: Seq<char>| self.object_named(id) is Some,
            |id: Seq<char>| self.object_named(id)->0,
        )
    }

    /// The identifier-to-event table of this log.
    pub open spec fn event_index(self) -> Map<Seq<char>, EventIndex> {
        Map::new(
            |id: Seq<char>| self.event_named(id) is Some,
            |id: Seq<char>| self.event_named(id)->0,
        )
    }
}

/// An identifier stands for an object exactly when that object is the last
/// one carrying it, so resolution yields valid positions only.
pub proof fn lemma_object_named(log: LogModel, id: Seq<char>, o: ObjectIndex)
    ensures
        log.object_named(id) == Some(o) <==> is_last_occurrence(
            entity_ids(log.objects),
            id,
            o.0 as int,
        ),
        log.object_named(id) == Some(o) ==> o.0 < log.objects.len() && log.objects[o.0 as int].id
            == id,
{
    let ids = entity_ids(log.objects);
    if is_last_occurrence(ids, id, o.0 as int) {
        let chosen = choose|c: ObjectIndex| is_last_occurrence(ids, id, c.0 as int);
        assert(chosen.0 == o.0);
    }
}

/// An identifier stands for an event exactly when that event is the last one
/// carrying it.
pub proof fn lemma_event_named(log: LogModel, id: Seq<char>, e: EventIndex)
    ensures
        log.event_named(id) == Some(e) <==> is_last_occurrence(
            entity_ids(log.events),
            id,
            e.0 as int,
        ),
        log.event_named(id) == Some(e) ==> e.0 < log.events.len() && log.events[e.0 as int].id
            == id,
{
    let ids = entity_ids(log.events);
    if is_last_occurrence(ids, id, e.0 as int) {
        let chosen = choose|c: EventIndex| is_last_occurrence(ids, id, c.0 as int);
        assert(chosen.0 == e.0);
    }
}

/// Where no later object repeats its identifier, an object's identifier
/// leads back to the object: on logs with unique identifiers, resolving is
/// the inverse of looking an object up by position.
pub proof fn lemma_object_resolves_back(log: LogModel, o: ObjectIndex)
    requires
        o.0 < log.objects.len(),
        forall|later: int|
            o.0 < later < log.objects.len() ==> (#[trigger] log.objects[later]).id
                != log.objects[o.0 as int].id,
    ensures
        log.object_named(log.objects[o.0 as int].id) == Some(o),
{
    lemma_object_named(log, log.objects[o.0 as int].id, o);
}

/// Where no later event repeats its identifier, an event's identifier leads
/// back to the event.
pub proof fn lemma_event_resolves_back(log: LogModel, e: EventIndex)
    requires
        e.0 < log.events.len(),
        forall|later: int|
            e.0 < later < log.events.len() ==> (#[trigger] log.events[later]).id
                != log.events[e.0 as int].id,
    ensures
        log.event_named(log.events[e.0 as int].id) == Some(e),
{
    lemma_event_named(log, log.events[e.0 as int].id, e);
}

/// Builds the identifier-to-object table. Of two objects with one
/// identifier the later wins.
pub fn object_index_map(ocel: &OCEL) -> (map: StringHashMap<ObjectIndex>)
    ensures
        map@ == ocel@.object_index(),
{
    let ghost ids = entity_ids(ocel@.objects);
    let mut map: StringHashMap<ObjectIndex> = StringHashMap::new();
    let mut i: usize = 0;
    while i < ocel.objects.len()
        invariant
            i <= ocel.objects.len(),
            ids == entity_ids(ocel@.objects),
            ids.len() == ocel.objects.len(),
            forall|id: Seq<char>| #[trigger]
                map@.contains_key(id) <==> exists|j: int| 0 <= j < i && ids[j] == id,
            forall|id: Seq<char>| #[trigger]
                map@.contains_key(id) ==> is_last_occurrence(ids.take(i as int), id, map@[id].0 as int),
        decreases ocel.objects.len() - i,
    {
        let ghost before = map@;
        let ghost key = ocel.objects[i as int].id@;
        assert(ids[i as int] == key);
        map.insert(ocel.objects[i].id.clone(), ObjectIndex(i));
        assert forall|id: Seq<char>| #[trigger]
            map@.contains_key(id) implies is_last_occurrence(
            ids.take(i + 1),
            id,
            map@[id].0 as int,
        ) by {
            if id != key {
                assert(before.contains_key(id));
                assert(is_last_occurrence(ids.take(i as int), id, before[id].0 as int));
            }
        }
        assert forall|id: Seq<char>| #[trigger]
            map@.contains_key(id) <==> exists|j: int| 0 <= j < i + 1 && ids[j] == id by {
            if id != key && before.contains_key(id) {
                let j = choose|j: int| 0 <= j < i && ids[j] == id;
                assert(0 <= j < i + 1 && ids[j] == id);
            }
        }
        i += 1;
    }
    proof {
        assert(ids.take(i as int) =~= ids);
        let target = ocel@.object_index();
        assert forall|id: Seq<char>| map@.contains_key(id) <==> target.contains_key(id) by {
            if map@.contains_key(id) {
                lemma_object_named(ocel@, id, map@[id]);
            }
            if target.contains_key(id) {
                let o = ocel@.object_named(id)->0;
                lemma_object_named(ocel@, id, o);
                assert(0 <= o.0 < i && ids[o.0 as int] == id);
            }
        }
        assert forall|id: Seq<char>| map@.contains_key(id) implies map@[id] == target[id] by {
            lemma_object_named(ocel@, id, map@[id]);
        }
        assert(map@ =~= target);
    }
    map
}

/// Builds the identifier-to-event table. Of two events with one identifier
/// the later wins.
pub fn event_index_map(ocel: &OCEL) -> (map: StringHashMap<EventIndex>)
    ensures
        map@ == ocel@.event_index(),
{
    let ghost ids = entity_ids(ocel@.events);
    let mut map: StringHashMap<EventIndex> = StringHashMap::new();
    let mut i: usize = 0;
    while i < ocel.events.len()
        invariant
            i <= ocel.events.len(),
            ids == entity_ids(ocel@.events),
            ids.len() == ocel.events.len(),
            forall|id: Seq<char>| #[trigger]
                map@.contains_key(id) <==> exists|j: int| 0 <= j < i && ids[j] == id,
            forall|id: Seq<char>| #[trigger]
                map@.contains_key(id) ==> is_last_occurrence(ids.take(i as int), id, map@[id].0 as int),
        decreases ocel.events.len() - i,
    {
        let ghost before = map@;
        let ghost key = ocel.events[i as int].id@;
        assert(ids[i as int] == key);
        map.insert(ocel.events[i].id.clone(), EventIndex(i));
        assert forall|id: Seq<char>| #[trigger]
            map@.contains_key(id) implies is_last_occurrence(
            ids.take(i + 1),
            id,
            map@[id].0 as int,
        ) by {
            if id != key {
                assert(before.contains_key(id));
                assert(is_last_occurrence(ids.take(i as int), id, before[id].0 as int));
            }
        }
        assert forall|id: Seq<char>| #[trigger]
            map@.contains_key(id) <==> exists|j: int| 0 <= j < i + 1 && ids[j] == id by {
            if id != key && before.contains_key(id) {
                let j = choose|j: int| 0 <= j < i && ids[j] == id;
                assert(0 <= j < i + 1 && ids[j] == id);
            }
        }
        i += 1;
    }
    proof {
        assert(ids.take(i as int) =~= ids);
        let target = ocel@.event_index();
        assert forall|id: Seq<char>| map@.contains_key(id) <==> target.contains_key(id) by {
            if map@.contains_key(id) {
                lemma_event_named(ocel@, id, map@[id]);
            }
            if target.contains_key(id) {
                let e = ocel@.event_named(id)->0;
                lemma_event_named(ocel@, id, e);
                assert(0 <= e.0 < i && ids[e.0 as int] == id);
            }
        }
        assert forall|id: Seq<char>| map@.contains_key(id) implies map@[id] == target[id] by {
            lemma_event_named(ocel@, id, map@[id]);
        }
        assert(map@ =~= target);
    }
    map
}

} // verus!
