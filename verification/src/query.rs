//! The query engine: which events of given types relate to all of a set of
//! objects.

use std::collections::HashSet;
use vstd::prelude::*;
use vstd::hash_set::StringHashSet;
use vstd::seq_lib::to_multiset_contains;
use crate::association::{lemma_association_membership, lemma_association_ordered};
use crate::catalog::lemma_events_of_type;
use crate::index::{EventIndex, ObjectIndex};
use crate::linked::IndexLinkedOCEL;
use crate::log::LogModel;
use crate::order::{of_size, sorted_by_size};

verus! {

broadcast use vstd::std_specs::hash::group_hash_axioms;

impl LogModel {
    /// Event `e` exists and its type is one of `types`.
    pub open spec fn event_has_type_in(self, e: EventIndex, types: Set<Seq<char>>) -> bool {
        e.0 < self.events.len() && types.contains(self.events[e.0 as int].kind)
    }

    /// Event `e` relates to every one of `objects`.
    pub open spec fn event_relates_to_all(self, e: EventIndex, objects: Seq<ObjectIndex>) -> bool {
        forall|i: int| 0 <= i < objects.len() ==> self.event_relates_to(e, #[trigger] objects[i])
    }

    /// Each of `objects` with the length of its association list.
    pub open spec fn sized(self, objects: Seq<ObjectIndex>) -> Seq<(usize, ObjectIndex)> {
        objects.map_values(|o: ObjectIndex| (self.association_list(o).len() as usize, o))
    }

    /// The events whose type is one of `types` and that relate to every one
    /// of `objects`. With no objects given, these are all events of those
    /// types.
    pub open spec fn events_of_types_for_objects(
        self,
        types: Set<Seq<char>>,
        objects: Seq<ObjectIndex>,
    ) -> Set<EventIndex> {
        Set::new(
            |e: EventIndex| self.event_has_type_in(e, types) && self.event_relates_to_all(e, objects),
        )
    }
}

/// The events of `list` come in strictly ascending order.
pub open spec fn ascending(list: Seq<EventIndex>) -> bool {
    forall|i: int, j: int| 0 <= i < j < list.len() ==> list[i].0 < list[j].0
}

/// One of the pairs of `sorted` is for object `o`.
pub open spec fn holds_object(sorted: Seq<(usize, ObjectIndex)>, o: ObjectIndex) -> bool {
    exists|j: int| 0 <= j < sorted.len() && (#[trigger] sorted[j]).1 == o
}

/// Event `e` relates to each of the first `count` objects of `sorted`.
spec fn relates_to_first(
    log: LogModel,
    e: EventIndex,
    sorted: Seq<(usize, ObjectIndex)>,
    count: int,
) -> bool {
    forall|j: int| 0 <= j < count ==> log.event_relates_to(e, (#[trigger] sorted[j]).1)
}

/// The set of the given type names.
pub fn type_set(names: &[String]) -> (set: StringHashSet)
    ensures
        set@ == names@.map_values(|name: String| name@).to_set(),
{
    let ghost views = names@.map_values(|name: String| name@);
    let mut set = StringHashSet::new();
    let mut i: usize = 0;
    while i < names.len()
        invariant
            i <= names@.len(),
            views == names@.map_values(|name: String| name@),
            set@ == views.take(i as int).to_set(),
        decreases names@.len() - i,
    {
        set.insert(names[i].clone());
        proof {
            let sooner = views.take(i as int);
            let later = views.take(i + 1);
            assert(later =~= sooner.push(views[i as int]));
            assert forall|name: Seq<char>| later.to_set().contains(name) <==> sooner.to_set().insert(
                views[i as int],
            ).contains(name) by {
                if later.contains(name) {
                    let j = choose|j: int| 0 <= j < later.len() && later[j] == name;
                    if j < i {
                        assert(sooner[j] == name);
                    }
                }
                if sooner.contains(name) {
                    let j = choose|j: int| 0 <= j < sooner.len() && sooner[j] == name;
                    assert(later[j] == name);
                }
                if name == views[i as int] {
                    assert(later[i as int] == name);
                }
            }
            assert(set@ =~= later.to_set());
        }
        i += 1;
    }
    assert(views.take(i as int) =~= views);
    set
}

/// The given objects, each with the length of its association list, ordered
/// by that length, shortest first. Objects whose lists are equally long stay
/// in the order in which they were given.
pub fn by_association_size(linked_ocel: &IndexLinkedOCEL, object_indices: &[ObjectIndex]) -> (sorted:
    Vec<(usize, ObjectIndex)>)
    requires
        forall|i: int|
            0 <= i < object_indices@.len() ==> (#[trigger] object_indices@[i]).0
                < linked_ocel@.objects.len(),
    ensures
        sorted@.to_multiset() == linked_ocel@.sized(object_indices@).to_multiset(),
        forall|size: usize| #[trigger]
            of_size(sorted@, size) == of_size(linked_ocel@.sized(object_indices@), size),
        sorted@.len() == object_indices@.len(),
        forall|j: int|
            0 <= j < sorted@.len() ==> object_indices@.contains((#[trigger] sorted@[j]).1)
                && sorted@[j].0 == linked_ocel@.association_list(sorted@[j].1).len(),
        forall|i: int|
            0 <= i < object_indices@.len() ==> holds_object(sorted@, #[trigger] object_indices@[i]),
        forall|i: int, j: int| 0 <= i <= j < sorted@.len() ==> sorted@[i].0 <= sorted@[j].0,
{
    let mut entries: Vec<(usize, ObjectIndex)> = Vec::new();
    let mut i: usize = 0;
    while i < object_indices.len()
        invariant
            i <= object_indices@.len(),
            entries@.len() == i,
            forall|j: int|
                0 <= j < object_indices@.len() ==> (#[trigger] object_indices@[j]).0
                    < linked_ocel@.objects.len(),
            forall|j: int|
                0 <= j < i ==> (#[trigger] entries@[j]).1 == object_indices@[j] && entries@[j].0
                    == linked_ocel@.association_list(object_indices@[j]).len(),
        decreases object_indices@.len() - i,
    {
        let size = match linked_ocel.events_of_object(&object_indices[i]) {
            Some(list) => list.len(),
            None => unreached(),
        };
        entries.push((size, object_indices[i]));
        i += 1;
    }
    assert(entries@ =~= linked_ocel@.sized(object_indices@));
    let sorted = sorted_by_size(entries);
    proof {
        sorted@.to_multiset_ensures();
        entries@.to_multiset_ensures();
        assert forall|j: int| 0 <= j < sorted@.len() implies object_indices@.contains(
            (#[trigger] sorted@[j]).1,
        ) && sorted@[j].0 == linked_ocel@.association_list(sorted@[j].1).len() by {
            assert(sorted@.contains(sorted@[j]));
            to_multiset_contains(sorted@, sorted@[j]);
            to_multiset_contains(entries@, sorted@[j]);
            assert(entries@.contains(sorted@[j]));
            let k = choose|k: int| 0 <= k < entries@.len() && entries@[k] == sorted@[j];
            assert(entries@[k].1 == object_indices@[k]);
        }
        assert forall|i: int| 0 <= i < object_indices@.len() implies holds_object(
            sorted@,
            #[trigger] object_indices@[i],
        ) by {
            assert(entries@.contains(entries@[i]));
            to_multiset_contains(entries@, entries@[i]);
            to_multiset_contains(sorted@, entries@[i]);
            assert(sorted@.contains(entries@[i]));
            let j = choose|j: int| 0 <= j < sorted@.len() && sorted@[j] == entries@[i];
            assert(sorted@[j].1 == object_indices@[i]);
        }
    }
    sorted
}

/// All events whose type is one of `event_types`, in log order.
fn events_of_types(linked_ocel: &IndexLinkedOCEL, event_types: &StringHashSet) -> (events: Vec<
    EventIndex,
>)
    ensures
        ascending(events@),
        forall|e: EventIndex| #[trigger]
            events@.contains(e) <==> linked_ocel@.event_has_type_in(e, event_types@),
{
    let ocel = linked_ocel.ocel();
    let ghost log = ocel@;
    let mut events: Vec<EventIndex> = Vec::new();
    let mut i: usize = 0;
    while i < ocel.events.len()
        invariant
            i <= ocel.events.len(),
            log == ocel@,
            ascending(events@),
            forall|j: int| 0 <= j < events@.len() ==> (#[trigger] events@[j]).0 < i,
            forall|e: EventIndex| #[trigger]
                events@.contains(e) <==> e.0 < i && log.event_has_type_in(e, event_types@),
        decreases ocel.events.len() - i,
    {
        let ghost before = events@;
        if event_types.contains(ocel.events[i].event_type.as_str()) {
            events.push(EventIndex(i));
        }
        proof {
            assert forall|e: EventIndex| #[trigger]
                events@.contains(e) <==> e.0 < i + 1 && log.event_has_type_in(e, event_types@) by {
                if events@.contains(e) {
                    let j = choose|j: int| 0 <= j < events@.len() && events@[j] == e;
                    if j < before.len() {
                        assert(before[j] == e);
                        assert(before.contains(e));
                    }
                }
                if e.0 < i + 1 && log.event_has_type_in(e, event_types@) {
                    if e.0 < i {
                        assert(before.contains(e));
                        let j = choose|j: int| 0 <= j < before.len() && before[j] == e;
                        assert(events@[j] == e);
                    } else {
                        assert(events@[before.len() as int] == e);
                    }
                }
            }
        }
        i += 1;
    }
    events
}

/// The events on the association list of `first` whose type is one of
/// `event_types`, each once, in log order.
fn events_of_types_for_object(
    linked_ocel: &IndexLinkedOCEL,
    event_types: &StringHashSet,
    first: ObjectIndex,
) -> (events: Vec<EventIndex>)
    requires
        first.0 < linked_ocel@.objects.len(),
    ensures
        ascending(events@),
        forall|e: EventIndex| #[trigger]
            events@.contains(e) <==> linked_ocel@.event_has_type_in(e, event_types@)
                && linked_ocel@.event_relates_to(e, first),
{
    let ocel = linked_ocel.ocel();
    let ghost log = ocel@;
    let mut events: Vec<EventIndex> = Vec::new();
    match linked_ocel.events_of_object(&first) {
        Some(list) => {
            let mut i: usize = 0;
            while i < list.len()
                invariant
                    i <= list@.len(),
                    log == ocel@,
                    log == linked_ocel@,
                    log.fits(),
                    list@ == log.association_list(first),
                    ascending(events@),
                    forall|j: int|
                        0 <= j < events@.len() ==> exists|q: int|
                            0 <= q < i && list@[q] == #[trigger] events@[j],
                    forall|e: EventIndex| #[trigger]
                        events@.contains(e) <==> log.event_has_type_in(e, event_types@) && exists|
                            q: int,
                        | 0 <= q < i && list@[q] == e,
                decreases list@.len() - i,
            {
                let ghost before = events@;
                let e = list[i];
                proof {
                    lemma_association_ordered(log, first, i as int, i as int);
                }
                let wanted = match linked_ocel.ev_by_index(&e) {
                    Some(event) => event_types.contains(event.event_type.as_str()),
                    None => unreached(),
                };
                let repeated = events.len() > 0 && events[events.len() - 1].0 == e.0;
                if wanted && !repeated {
                    proof {
                        // Whatever is listed so far comes from an earlier place, so it
                        // is no later than `e`; the last listed is not `e`, so all are
                        // earlier.
                        assert forall|j: int| 0 <= j < before.len() implies (#[trigger] before[j]).0
                            < e.0 by {
                            let last = before[before.len() - 1];
                            let q = choose|q: int| 0 <= q < i && list@[q] == last;
                            lemma_association_ordered(log, first, q, i as int);
                        }
                    }
                    events.push(e);
                }
                proof {
                    assert forall|j: int| 0 <= j < events@.len() implies exists|q: int|
                        0 <= q < i + 1 && list@[q] == #[trigger] events@[j] by {
                        if j < before.len() {
                            let q = choose|q: int| 0 <= q < i && list@[q] == before[j];
                            assert(0 <= q < i + 1 && list@[q] == events@[j]);
                        } else {
                            assert(list@[i as int] == events@[j]);
                        }
                    }
                    assert forall|x: EventIndex| #[trigger]
                        events@.contains(x) <==> log.event_has_type_in(x, event_types@) && exists|
                            q: int,
                        | 0 <= q < i + 1 && list@[q] == x by {
                        if events@.contains(x) {
                            let j = choose|j: int| 0 <= j < events@.len() && events@[j] == x;
                            if j < before.len() {
                                assert(before[j] == x);
                                assert(before.contains(x));
                                let q = choose|q: int| 0 <= q < i && list@[q] == x;
                                assert(0 <= q < i + 1 && list@[q] == x);
                            } else {
                                assert(list@[i as int] == x);
                            }
                        }
                        if log.event_has_type_in(x, event_types@) && exists|q: int|
                            0 <= q < i + 1 && list@[q] == x {
                            let q = choose|q: int| 0 <= q < i + 1 && list@[q] == x;
                            if q < i {
                                assert(before.contains(x));
                                let j = choose|j: int| 0 <= j < before.len() && before[j] == x;
                                assert(events@[j] == x);
                            } else if repeated {
                                assert(events@[events@.len() - 1] == x);
                            } else {
                                assert(events@[before.len() as int] == x);
                            }
                        }
                    }
                }
                i += 1;
            }
            proof {
                assert forall|e: EventIndex| #[trigger]
                    events@.contains(e) <==> log.event_has_type_in(e, event_types@)
                        && log.event_relates_to(e, first) by {
                    lemma_association_membership(log, first, e);
                    if list@.contains(e) {
                        let q = choose|q: int| 0 <= q < list@.len() && list@[q] == e;
                        assert(0 <= q < i && list@[q] == e);
                    }
                }
            }
        },
        None => unreached(),
    }
    events
}

/// The positions of the events of `list`, ready for lookup.
fn lookup_set(list: &Vec<EventIndex>) -> (set: HashSet<usize>)
    ensures
        forall|e: EventIndex| set@.contains(e.0) <==> list@.contains(e),
{
    let mut set: HashSet<usize> = HashSet::new();
    let mut i: usize = 0;
    while i < list.len()
        invariant
            i <= list@.len(),
            forall|e: EventIndex|
                set@.contains(e.0) <==> exists|j: int| 0 <= j < i && list@[j] == e,
        decreases list@.len() - i,
    {
        let ghost before = set@;
        set.insert(list[i].0);
        proof {
            assert forall|e: EventIndex|
                set@.contains(e.0) <==> exists|j: int| 0 <= j < i + 1 && list@[j] == e by {
                if before.contains(e.0) {
                    let j = choose|j: int| 0 <= j < i && list@[j] == e;
                    assert(0 <= j < i + 1 && list@[j] == e);
                }
                if e.0 == list@[i as int].0 {
                    assert(list@[i as int] == e);
                }
            }
        }
        i += 1;
    }
    set
}

/// The events of `kept` whose position is in `set`, in the same order.
fn retain_listed(kept: &Vec<EventIndex>, set: &HashSet<usize>) -> (events: Vec<EventIndex>)
    requires
        ascending(kept@),
    ensures
        ascending(events@),
        forall|e: EventIndex| #[trigger]
            events@.contains(e) <==> kept@.contains(e) && set@.contains(e.0),
{
    let mut events: Vec<EventIndex> = Vec::new();
    let mut i: usize = 0;
    while i < kept.len()
        invariant
            i <= kept@.len(),
            ascending(kept@),
            ascending(events@),
            forall|j: int|
                0 <= j < events@.len() ==> exists|q: int|
                    0 <= q < i && kept@[q] == #[trigger] events@[j],
            forall|e: EventIndex| #[trigger]
                events@.contains(e) <==> set@.contains(e.0) && exists|q: int|
                    0 <= q < i && kept@[q] == e,
        decreases kept@.len() - i,
    {
        let ghost before = events@;
        let e = kept[i];
        let found = set.contains(&e.0);
        if found {
            proof {
                assert forall|j: int| 0 <= j < before.len() implies (#[trigger] before[j]).0
                    < e.0 by {
                    let q = choose|q: int| 0 <= q < i && kept@[q] == before[j];
                }
            }
            events.push(e);
        }
        proof {
            assert forall|j: int| 0 <= j < events@.len() implies exists|q: int|
                0 <= q < i + 1 && kept@[q] == #[trigger] events@[j] by {
                if j < before.len() {
                    let q = choose|q: int| 0 <= q < i && kept@[q] == before[j];
                    assert(0 <= q < i + 1 && kept@[q] == events@[j]);
                } else {
                    assert(kept@[i as int] == events@[j]);
                }
            }
            assert forall|x: EventIndex| #[trigger]
                events@.contains(x) <==> set@.contains(x.0) && exists|q: int|
                    0 <= q < i + 1 && kept@[q] == x by {
                if events@.contains(x) {
                    let j = choose|j: int| 0 <= j < events@.len() && events@[j] == x;
                    if j < before.len() {
                        assert(before[j] == x);
                        assert(before.contains(x));
                        let q = choose|q: int| 0 <= q < i && kept@[q] == x;
                        assert(0 <= q < i + 1 && kept@[q] == x);
                    } else {
                        assert(kept@[i as int] == x);
                    }
                }
                if set@.contains(x.0) && exists|q: int| 0 <= q < i + 1 && kept@[q] == x {
                    let q = choose|q: int| 0 <= q < i + 1 && kept@[q] == x;
                    if q < i {
                        assert(before.contains(x));
                        let j = choose|j: int| 0 <= j < before.len() && before[j] == x;
                        assert(events@[j] == x);
                    } else {
                        assert(events@[before.len() as int] == x);
                    }
                }
            }
        }
        i += 1;
    }
    proof {
        assert forall|e: EventIndex| #[trigger]
            events@.contains(e) <==> kept@.contains(e) && set@.contains(e.0) by {
            if kept@.contains(e) {
                let q = choose|q: int| 0 <= q < kept@.len() && kept@[q] == e;
                assert(0 <= q < i && kept@[q] == e);
            }
        }
    }
    events
}

/// The events whose type is one of `event_types` and that relate to every
/// object of `object_indices`; with no objects given, all events of those
/// types. Each such event comes once, in log order.
///
/// The objects are taken in the order of their association lists' lengths,
/// shortest first: the shortest list seeds the result, and every further
/// object can only strike events out.
///
/// To ask for an object that the log does not have is a fault of the caller.
/// Callers that cannot rule it out ask through `get_events_from_state`.
pub fn get_events_of_type_associated_with_objects(
    linked_ocel: &IndexLinkedOCEL,
    event_types: &StringHashSet,
    object_indices: &[ObjectIndex],
) -> (events: Vec<EventIndex>)
    requires
        forall|i: int|
            0 <= i < object_indices@.len() ==> (#[trigger] object_indices@[i]).0
                < linked_ocel@.objects.len(),
    ensures
        ascending(events@),
        events@.to_set() == linked_ocel@.events_of_types_for_objects(
            event_types@,
            object_indices@,
        ),
{
    let ghost log = linked_ocel@;
    let ghost wanted = log.events_of_types_for_objects(event_types@, object_indices@);
    if object_indices.len() == 0 {
        let events = events_of_types(linked_ocel, event_types);
        assert(events@.to_set() =~= wanted);
        return events;
    }
    let ocel = linked_ocel.ocel();
    let sorted = by_association_size(linked_ocel, object_indices);
    let mut intersection = events_of_types_for_object(linked_ocel, event_types, sorted[0].1);
    let mut i: usize = 1;
    while i < sorted.len() && intersection.len() > 0
        invariant
            1 <= i <= sorted@.len(),
            log == linked_ocel@,
            log.fits(),
            ascending(intersection@),
            forall|j: int|
                0 <= j < sorted@.len() ==> object_indices@.contains((#[trigger] sorted@[j]).1),
            forall|k: int|
                0 <= k < object_indices@.len() ==> holds_object(
                    sorted@,
                    #[trigger] object_indices@[k],
                ),
            forall|k: int|
                0 <= k < object_indices@.len() ==> (#[trigger] object_indices@[k]).0
                    < log.objects.len(),
            forall|e: EventIndex| #[trigger]
                intersection@.contains(e) <==> log.event_has_type_in(e, event_types@)
                    && relates_to_first(log, e, sorted@, i as int),
        decreases sorted@.len() - i,
    {
        let other = sorted[i].1;
        let ghost before = intersection@;
        proof {
            assert(object_indices@.contains(sorted@[i as int].1));
            let k = choose|k: int| 0 <= k < object_indices@.len() && object_indices@[k] == other;
            assert(object_indices@[k].0 < log.objects.len());
        }
        match linked_ocel.events_of_object(&other) {
            Some(list) => {
                let other_set = lookup_set(list);
                intersection = retain_listed(&intersection, &other_set);
                proof {
                    assert forall|e: EventIndex| #[trigger]
                        intersection@.contains(e) <==> log.event_has_type_in(e, event_types@)
                            && relates_to_first(log, e, sorted@, i + 1) by {
                        lemma_association_membership(log, other, e);
                        assert(before.contains(e) <==> log.event_has_type_in(e, event_types@)
                            && relates_to_first(log, e, sorted@, i as int));
                        assert(other_set@.contains(e.0) <==> list@.contains(e));
                        if relates_to_first(log, e, sorted@, i + 1) {
                            assert(log.event_relates_to(e, sorted@[i as int].1));
                        }
                    }
                }
            },
            None => unreached(),
        }
        i += 1;
    }
    proof {
        assert forall|e: EventIndex| intersection@.to_set().contains(e) <==> wanted.contains(e) by {
            assert(intersection@.contains(e) <==> log.event_has_type_in(e, event_types@)
                && relates_to_first(log, e, sorted@, i as int));
            if wanted.contains(e) {
                assert forall|j: int| 0 <= j < sorted@.len() implies log.event_relates_to(
                    e,
                    (#[trigger] sorted@[j]).1,
                ) by {
                    let o = sorted@[j].1;
                    assert(object_indices@.contains(o));
                    let k = choose|k: int| 0 <= k < object_indices@.len() && object_indices@[k] == o;
                    assert(log.event_relates_to(e, object_indices@[k]));
                }
                assert(relates_to_first(log, e, sorted@, i as int));
                assert(intersection@.contains(e));
            }
            if intersection@.contains(e) {
                assert(intersection@.len() > 0);
                assert(i == sorted@.len());
                assert forall|k: int| 0 <= k < object_indices@.len() implies log.event_relates_to(
                    e,
                    #[trigger] object_indices@[k],
                ) by {
                    assert(holds_object(sorted@, object_indices@[k]));
                    let j = choose|j: int|
                        0 <= j < sorted@.len() && (#[trigger] sorted@[j]).1 == object_indices@[k];
                    assert(log.event_relates_to(e, sorted@[j].1));
                }
            }
        }
        assert(intersection@.to_set() =~= wanted);
    }
    intersection
}

/// With no objects given, the query returns the events of the requested
/// types: the union of the lists that the catalog's grouping gives for them.
pub proof fn lemma_no_objects_is_type_union(log: LogModel, types: Set<Seq<char>>)
    requires
        log.fits(),
    ensures
        log.events_of_types_for_objects(types, Seq::empty()) == Set::new(
            |e: EventIndex|
                exists|name: Seq<char>|
                    types.contains(name) && #[trigger] log.events_of_type(name).contains(e),
        ),
{
    let union = Set::new(
        |e: EventIndex|
            exists|name: Seq<char>|
                types.contains(name) && #[trigger] log.events_of_type(name).contains(e),
    );
    let result = log.events_of_types_for_objects(types, Seq::empty());
    assert forall|e: EventIndex| result.contains(e) <==> union.contains(e) by {
        if result.contains(e) {
            let name = log.events[e.0 as int].kind;
            lemma_events_of_type(log, name);
            assert(types.contains(name) && log.events_of_type(name).contains(e));
        }
        if union.contains(e) {
            let name = choose|name: Seq<char>|
                types.contains(name) && #[trigger] log.events_of_type(name).contains(e);
            lemma_events_of_type(log, name);
        }
    }
    assert(result =~= union);
}

/// Where every event carries a declared type, the query with no objects
/// returns the union of the catalog lists of the requested types, a type that
/// the log does not declare having no list.
pub proof fn lemma_no_objects_is_catalog_union(log: LogModel, types: Set<Seq<char>>)
    requires
        log.fits(),
        log.event_types_declared(),
    ensures
        log.events_of_types_for_objects(types, Seq::empty()) == Set::new(
            |e: EventIndex|
                exists|name: Seq<char>|
                    types.contains(name) && log.event_types.contains(name)
                        && #[trigger] log.events_of_type(name).contains(e),
        ),
{
    let union = Set::new(
        |e: EventIndex|
            exists|name: Seq<char>|
                types.contains(name) && log.event_types.contains(name)
                    && #[trigger] log.events_of_type(name).contains(e),
    );
    let result = log.events_of_types_for_objects(types, Seq::empty());
    assert forall|e: EventIndex| result.contains(e) <==> union.contains(e) by {
        if result.contains(e) {
            let name = log.events[e.0 as int].kind;
            lemma_events_of_type(log, name);
            assert(types.contains(name) && log.event_types.contains(name) && log.events_of_type(
                name,
            ).contains(e));
        }
        if union.contains(e) {
            let name = choose|name: Seq<char>|
                types.contains(name) && log.event_types.contains(name)
                    && #[trigger] log.events_of_type(name).contains(e);
            lemma_events_of_type(log, name);
        }
    }
    assert(result =~= union);
}

/// For a single object, the query returns the events of its association list
/// that have one of the requested types.
pub proof fn lemma_one_object_is_filtered_association(
    log: LogModel,
    types: Set<Seq<char>>,
    o: ObjectIndex,
)
    requires
        log.fits(),
    ensures
        log.events_of_types_for_objects(types, seq![o]) == Set::new(
            |e: EventIndex| log.association_list(o).contains(e) && log.event_has_type_in(e, types),
        ),
{
    let filtered = Set::new(
        |e: EventIndex| log.association_list(o).contains(e) && log.event_has_type_in(e, types),
    );
    let result = log.events_of_types_for_objects(types, seq![o]);
    let one = seq![o];
    assert forall|e: EventIndex| result.contains(e) <==> filtered.contains(e) by {
        lemma_association_membership(log, o, e);
        if result.contains(e) {
            assert(log.event_relates_to(e, one[0]));
        }
    }
    assert(result =~= filtered);
}

/// The query does not depend on the order in which the objects are given,
/// nor on how often one is named: two lists that name the same objects give
/// the same events.
pub proof fn lemma_object_order_irrelevant(
    log: LogModel,
    types: Set<Seq<char>>,
    objects: Seq<ObjectIndex>,
    permuted: Seq<ObjectIndex>,
)
    requires
        objects.to_set() == permuted.to_set(),
    ensures
        log.events_of_types_for_objects(types, objects) == log.events_of_types_for_objects(
            types,
            permuted,
        ),
{
    let first = log.events_of_types_for_objects(types, objects);
    let second = log.events_of_types_for_objects(types, permuted);
    assert forall|e: EventIndex| first.contains(e) <==> second.contains(e) by {
        if log.event_relates_to_all(e, objects) {
            lemma_relates_to_all_by_set(log, e, objects, permuted);
        }
        if log.event_relates_to_all(e, permuted) {
            lemma_relates_to_all_by_set(log, e, permuted, objects);
        }
    }
    assert(first =~= second);
}

/// An event that relates to all of `objects` relates to all of any list that
/// names no other object.
proof fn lemma_relates_to_all_by_set(
    log: LogModel,
    e: EventIndex,
    objects: Seq<ObjectIndex>,
    others: Seq<ObjectIndex>,
)
    requires
        objects.to_set() == others.to_set(),
        log.event_relates_to_all(e, objects),
    ensures
        log.event_relates_to_all(e, others),
{
    assert forall|i: int| 0 <= i < others.len() implies log.event_relates_to(
        e,
        #[trigger] others[i],
    ) by {
        assert(others.to_set().contains(others[i]));
        assert(objects.contains(others[i]));
        let k = choose|k: int| 0 <= k < objects.len() && objects[k] == others[i];
        assert(log.event_relates_to(e, objects[k]));
    }
}

/// A set of events has one ascending listing only.
pub proof fn lemma_ascending_unique(first: Seq<EventIndex>, second: Seq<EventIndex>)
    requires
        ascending(first),
        ascending(second),
        first.to_set() == second.to_set(),
    ensures
        first == second,
    decreases first.len(),
{
    if first.len() == 0 {
        if second.len() > 0 {
            assert(second.to_set().contains(second[0]));
            assert(first.contains(second[0]));
        }
        assert(first =~= second);
    } else {
        let top = first.last();
        assert(first.to_set().contains(top));
        assert(second.contains(top));
        let at = choose|at: int| 0 <= at < second.len() && second[at] == top;
        if at < second.len() - 1 {
            let higher = second.last();
            assert(second.to_set().contains(higher));
            assert(first.contains(higher));
            let back = choose|back: int| 0 <= back < first.len() && first[back] == higher;
            assert(first[back].0 <= top.0);
        }
        let shorter = first.drop_last();
        let other = second.drop_last();
        assert forall|e: EventIndex| shorter.to_set().contains(e) <==> other.to_set().contains(
            e,
        ) by {
            if shorter.contains(e) {
                let i = choose|i: int| 0 <= i < shorter.len() && shorter[i] == e;
                assert(first[i] == e);
                assert(first.to_set().contains(e));
                assert(second.contains(e));
                let j = choose|j: int| 0 <= j < second.len() && second[j] == e;
                assert(e.0 < top.0);
                assert(other[j] == e);
            }
            if other.contains(e) {
                let j = choose|j: int| 0 <= j < other.len() && other[j] == e;
                assert(second[j] == e);
                assert(second.to_set().contains(e));
                assert(first.contains(e));
                let i = choose|i: int| 0 <= i < first.len() && first[i] == e;
                assert(e.0 < top.0);
                assert(shorter[i] == e);
            }
        }
        assert(shorter.to_set() =~= other.to_set());
        lemma_ascending_unique(shorter, other);
        assert(first =~= shorter.push(top));
        assert(second =~= other.push(top));
    }
}

/// What the query returns is settled by the set of objects asked for: two
/// answers for lists that name the same objects are the same list of events.
pub proof fn lemma_answers_agree(
    log: LogModel,
    types: Set<Seq<char>>,
    objects: Seq<ObjectIndex>,
    permuted: Seq<ObjectIndex>,
    first: Seq<EventIndex>,
    second: Seq<EventIndex>,
)
    requires
        objects.to_set() == permuted.to_set(),
        ascending(first),
        first.to_set() == log.events_of_types_for_objects(types, objects),
        ascending(second),
        second.to_set() == log.events_of_types_for_objects(types, permuted),
    ensures
        first == second,
{
    lemma_object_order_irrelevant(log, types, objects, permuted);
    lemma_ascending_unique(first, second);
}

} // verus!
