//! The type catalog: entities grouped by their declared type.

use vstd::prelude::*;
use vstd::hash_map::StringHashMap;
use crate::index::{EventIndex, ObjectIndex};
use crate::log::{EntityModel, LogModel, OCEL};

verus! {

/// The type names of a list of entities, in order.
pub open spec fn entity_kinds(entities: Seq<EntityModel>) -> Seq<Seq<char>> {
    entities.map_values(|e: EntityModel| e.kind)
}

/// The positions among the first `count` of `kinds` that hold `name`,
/// ascending.
pub open spec fn positions_of(kinds: Seq<Seq<char>>, name: Seq<char>, count: nat) -> Seq<usize>
    decreases count,
{
    if count == 0 {
        Seq::empty()
    } else {
        let earlier = positions_of(kinds, name, (count - 1) as nat);
        if kinds[count - 1] == name {
            earlier.push((count - 1) as usize)
        } else {
            earlier
        }
    }
}

impl LogModel {
    /// The events of type `name`, in log order.
    pub open spec fn events_of_type(self, name: Seq<char>) -> Seq<EventIndex> {
        positions_of(entity_kinds(self.events), name, self.events.len()).map_values(
            |p: usize| EventIndex(p),
        )
    }

    /// The objects of type `name`, in log order.
    pub open spec fn objects_of_type(self, name: Seq<char>) -> Seq<ObjectIndex> {
        positions_of(entity_kinds(self.objects), name, self.objects.len()).map_values(
            |p: usize| ObjectIndex(p),
        )
    }

    /// Every event carries a declared type.
    pub open spec fn event_types_declared(self) -> bool {
        forall|e: int| 0 <= e < self.events.len() ==> self.event_types.contains(#[trigger] self.events[e].kind)
    }

    /// Every object carries a declared type.
    pub open spec fn object_types_declared(self) -> bool {
        forall|o: int| 0 <= o < self.objects.len() ==> self.object_types.contains(#[trigger] self.objects[o].kind)
    }
}

/// A catalog list holds exactly the positions that carry its name, each once
/// and in ascending order.
pub proof fn lemma_positions_of(kinds: Seq<Seq<char>>, name: Seq<char>, count: nat)
    requires
        count <= kinds.len() <= usize::MAX,
    ensures
        forall|p: usize| #[trigger]
            positions_of(kinds, name, count).contains(p) <==> p < count && kinds[p as int] == name,
        forall|i: int, j: int|
            0 <= i < j < positions_of(kinds, name, count).len() ==> positions_of(
                kinds,
                name,
                count,
            )[i] < positions_of(kinds, name, count)[j],
    decreases count,
{
    let list = positions_of(kinds, name, count);
    if count > 0 {
        let earlier = positions_of(kinds, name, (count - 1) as nat);
        lemma_positions_of(kinds, name, (count - 1) as nat);
        let last = (count - 1) as usize;
        assert forall|p: usize| #[trigger]
            list.contains(p) <==> p < count && kinds[p as int] == name by {
            if list.contains(p) {
                let i = choose|i: int| 0 <= i < list.len() && list[i] == p;
                if i < earlier.len() {
                    assert(earlier[i] == p);
                    assert(earlier.contains(p));
                }
            }
            if p < count && kinds[p as int] == name {
                if p < count - 1 {
                    assert(earlier.contains(p));
                    let i = choose|i: int| 0 <= i < earlier.len() && earlier[i] == p;
                    assert(list[i] == p);
                } else {
                    assert(list[earlier.len() as int] == p);
                }
            }
        }
        assert forall|i: int, j: int| 0 <= i < j < list.len() implies list[i] < list[j] by {
            if j >= earlier.len() {
                assert(earlier.contains(earlier[i]));
            }
        }
    }
}

/// The event catalog sorts every event under its own type and no other:
/// an event is in the list of `name` exactly when `name` is its type, and no
/// list names an event twice.
pub proof fn lemma_events_of_type(log: LogModel, name: Seq<char>)
    requires
        log.fits(),
    ensures
        forall|e: EventIndex| #[trigger]
            log.events_of_type(name).contains(e) <==> e.0 < log.events.len() && log.events[e.0 as int].kind
                == name,
        log.events_of_type(name).no_duplicates(),
        forall|i: int, j: int|
            0 <= i < j < log.events_of_type(name).len() ==> log.events_of_type(name)[i].0
                < log.events_of_type(name)[j].0,
{
    let kinds = entity_kinds(log.events);
    let positions = positions_of(kinds, name, log.events.len());
    let list = log.events_of_type(name);
    lemma_positions_of(kinds, name, log.events.len());
    assert forall|e: EventIndex| #[trigger]
        list.contains(e) <==> e.0 < log.events.len() && log.events[e.0 as int].kind
        == name by {
        if list.contains(e) {
            let i = choose|i: int| 0 <= i < list.len() && list[i] == e;
            assert(positions.contains(positions[i]));
        }
        if e.0 < log.events.len() && log.events[e.0 as int].kind == name {
            assert(positions.contains(e.0));
            let i = choose|i: int| 0 <= i < positions.len() && positions[i] == e.0;
            assert(list[i] == e);
        }
    }
}

/// The object catalog sorts every object under its own type and no other:
/// an object is in the list of `name` exactly when `name` is its type, and no
/// list names an object twice.
pub proof fn lemma_objects_of_type(log: LogModel, name: Seq<char>)
    requires
        log.fits(),
    ensures
        forall|o: ObjectIndex| #[trigger]
            log.objects_of_type(name).contains(o) <==> o.0 < log.objects.len() && log.objects[o.0 as int].kind
                == name,
        log.objects_of_type(name).no_duplicates(),
        forall|i: int, j: int|
            0 <= i < j < log.objects_of_type(name).len() ==> log.objects_of_type(name)[i].0
                < log.objects_of_type(name)[j].0,
{
    let kinds = entity_kinds(log.objects);
    let positions = positions_of(kinds, name, log.objects.len());
    let list = log.objects_of_type(name);
    lemma_positions_of(kinds, name, log.objects.len());
    assert forall|o: ObjectIndex| #[trigger]
        list.contains(o) <==> o.0 < log.objects.len() && log.objects[o.0 as int].kind
        == name by {
        if list.contains(o) {
            let i = choose|i: int| 0 <= i < list.len() && list[i] == o;
            assert(positions.contains(positions[i]));
        }
        if o.0 < log.objects.len() && log.objects[o.0 as int].kind == name {
            assert(positions.contains(o.0));
            let i = choose|i: int| 0 <= i < positions.len() && positions[i] == o.0;
            assert(list[i] == o);
        }
    }
}

/// Where every event carries a declared type, the catalog lists of the
/// declared types split the events: each event is in the list of one declared
/// type, its own, and in no other list.
pub proof fn lemma_event_catalog_partitions(log: LogModel, e: EventIndex)
    requires
        log.fits(),
        log.event_types_declared(),
        e.0 < log.events.len(),
    ensures
        log.event_types.contains(log.events[e.0 as int].kind),
        log.events_of_type(log.events[e.0 as int].kind).contains(e),
        forall|name: Seq<char>| #[trigger]
            log.events_of_type(name).contains(e) ==> name == log.events[e.0 as int].kind,
{
    lemma_events_of_type(log, log.events[e.0 as int].kind);
    assert forall|name: Seq<char>| #[trigger]
        log.events_of_type(name).contains(e) implies name == log.events[e.0 as int].kind by {
        lemma_events_of_type(log, name);
    }
}

/// Where every object carries a declared type, the catalog lists of the
/// declared types split the objects: each object is in the list of one
/// declared type, its own, and in no other list.
pub proof fn lemma_object_catalog_partitions(log: LogModel, o: ObjectIndex)
    requires
        log.fits(),
        log.object_types_declared(),
        o.0 < log.objects.len(),
    ensures
        log.object_types.contains(log.objects[o.0 as int].kind),
        log.objects_of_type(log.objects[o.0 as int].kind).contains(o),
        forall|name: Seq<char>| #[trigger]
            log.objects_of_type(name).contains(o) ==> name == log.objects[o.0 as int].kind,
{
    lemma_objects_of_type(log, log.objects[o.0 as int].kind);
    assert forall|name: Seq<char>| #[trigger]
        log.objects_of_type(name).contains(o) implies name == log.objects[o.0 as int].kind by {
        lemma_objects_of_type(log, name);
    }
}

/// Groups the events of `ocel` by type: one list per declared event type,
/// empty where no event has that type.
pub fn catalog_events(ocel: &OCEL) -> (catalog: StringHashMap<Vec<EventIndex>>)
    ensures
        forall|name: Seq<char>| #[trigger]
            catalog@.contains_key(name) <==> ocel@.event_types.contains(name),
        forall|name: Seq<char>| #[trigger]
            catalog@.contains_key(name) ==> catalog@[name]@ == ocel@.events_of_type(name),
{
    let ghost declared = ocel@.event_types;
    let ghost kinds = entity_kinds(ocel@.events);
    let mut catalog: StringHashMap<Vec<EventIndex>> = StringHashMap::new();
    let mut t: usize = 0;
    while t < ocel.event_types.len()
        invariant
            t <= ocel.event_types.len(),
            declared == ocel@.event_types,
            kinds == entity_kinds(ocel@.events),
            forall|name: Seq<char>| #[trigger]
                catalog@.contains_key(name) <==> declared.take(t as int).contains(name),
            forall|name: Seq<char>| #[trigger]
                catalog@.contains_key(name) ==> catalog@[name]@ == ocel@.events_of_type(name),
        decreases ocel.event_types.len() - t,
    {
        let name = &ocel.event_types[t].name;
        let mut list: Vec<EventIndex> = Vec::new();
        let mut i: usize = 0;
        while i < ocel.events.len()
            invariant
                i <= ocel.events.len(),
                kinds == entity_kinds(ocel@.events),
                list@ == positions_of(kinds, name@, i as nat).map_values(|p: usize| EventIndex(p)),
            decreases ocel.events.len() - i,
        {
            let ghost earlier = positions_of(kinds, name@, i as nat);
            if ocel.events[i].event_type == *name {
                list.push(EventIndex(i));
                assert(list@ =~= earlier.push(i).map_values(|p: usize| EventIndex(p)));
            }
            i += 1;
        }
        let ghost before = catalog@;
        catalog.insert(name.clone(), list);
        proof {
            let fresh = declared[t as int];
            let sooner = declared.take(t as int);
            let later = declared.take(t + 1);
            assert(fresh == name@);
            assert forall|other: Seq<char>| #[trigger]
                catalog@.contains_key(other) <==> later.contains(other) by {
                if later.contains(other) {
                    let j = choose|j: int| 0 <= j < later.len() && later[j] == other;
                    if j < t {
                        assert(sooner[j] == other);
                    }
                }
                if other != fresh && before.contains_key(other) {
                    let j = choose|j: int| 0 <= j < sooner.len() && sooner[j] == other;
                    assert(later[j] == other);
                }
                if other == fresh {
                    assert(later[t as int] == other);
                }
            }
        }
        t += 1;
    }
    assert(declared.take(t as int) =~= declared);
    catalog
}

/// Groups the objects of `ocel` by type: one list per declared object type,
/// empty where no object has that type.
pub fn catalog_objects(ocel: &OCEL) -> (catalog: StringHashMap<Vec<ObjectIndex>>)
    ensures
        forall|name: Seq<char>| #[trigger]
            catalog@.contains_key(name) <==> ocel@.object_types.contains(name),
        forall|name: Seq<char>| #[trigger]
            catalog@.contains_key(name) ==> catalog@[name]@ == ocel@.objects_of_type(name),
{
    let ghost declared = ocel@.object_types;
    let ghost kinds = entity_kinds(ocel@.objects);
    let mut catalog: StringHashMap<Vec<ObjectIndex>> = StringHashMap::new();
    let mut t: usize = 0;
    while t < ocel.object_types.len()
        invariant
            t <= ocel.object_types.len(),
            declared == ocel@.object_types,
            kinds == entity_kinds(ocel@.objects),
            forall|name: Seq<char>| #[trigger]
                catalog@.contains_key(name) <==> declared.take(t as int).contains(name),
            forall|name: Seq<char>| #[trigger]
                catalog@.contains_key(name) ==> catalog@[name]@ == ocel@.objects_of_type(name),
        decreases ocel.object_types.len() - t,
    {
        let name = &ocel.object_types[t].name;
        let mut list: Vec<ObjectIndex> = Vec::new();
        let mut i: usize = 0;
        while i < ocel.objects.len()
            invariant
                i <= ocel.objects.len(),
                kinds == entity_kinds(ocel@.objects),
                list@ == positions_of(kinds, name@, i as nat).map_values(|p: usize| ObjectIndex(p)),
            decreases ocel.objects.len() - i,
        {
            let ghost earlier = positions_of(kinds, name@, i as nat);
            if ocel.objects[i].object_type == *name {
                list.push(ObjectIndex(i));
                assert(list@ =~= earlier.push(i).map_values(|p: usize| ObjectIndex(p)));
            }
            i += 1;
        }
        let ghost before = catalog@;
        catalog.insert(name.clone(), list);
        proof {
            let fresh = declared[t as int];
            let sooner = declared.take(t as int);
            let later = declared.take(t + 1);
            assert(fresh == name@);
            assert forall|other: Seq<char>| #[trigger]
                catalog@.contains_key(other) <==> later.contains(other) by {
                if later.contains(other) {
                    let j = choose|j: int| 0 <= j < later.len() && later[j] == other;
                    if j < t {
                        assert(sooner[j] == other);
                    }
                }
                if other != fresh && before.contains_key(other) {
                    let j = choose|j: int| 0 <= j < sooner.len() && sooner[j] == other;
                    assert(later[j] == other);
                }
                if other == fresh {
                    assert(later[t as int] == other);
                }
            }
        }
        t += 1;
    }
    assert(declared.take(t as int) =~= declared);
    catalog
}

} // verus!
