//! The association index: for every object, the events that relate to it.

use vstd::prelude::*;
use vstd::hash_map::StringHashMap;
use crate::index::{EventIndex, ObjectIndex};
use crate::log::{declared_relationships, EntityModel, LogModel, RelationshipModel, OCEL};
use crate::resolve::lookup;

verus! {

/// Whether some relationship of `rels` points at `o` under `table`.
pub open spec fn relates_to(
    table: Map<Seq<char>, ObjectIndex>,
    rels: Seq<RelationshipModel>,
    o: ObjectIndex,
) -> bool {
    exists|k: int| 0 <= k < rels.len() && lookup(table, (#[trigger] rels[k]).object_id) == Some(o)
}

/// The entries that one event adds to the association list of `o`: the
/// event itself, once for each of its relationships that points at `o`.
pub open spec fn hits(
    table: Map<Seq<char>, ObjectIndex>,
    rels: Seq<RelationshipModel>,
    o: ObjectIndex,
    e: EventIndex,
) -> Seq<EventIndex>
    decreases rels.len(),
{
    if rels.len() == 0 {
        Seq::empty()
    } else {
        let earlier = hits(table, rels.drop_last(), o, e);
        if lookup(table, rels.last().object_id) == Some(o) {
            earlier.push(e)
        } else {
            earlier
        }
    }
}

/// The association list of `o` as far as the first `count` events fill it.
pub open spec fn association_via(
    events: Seq<EntityModel>,
    table: Map<Seq<char>, ObjectIndex>,
    o: ObjectIndex,
    count: nat,
) -> Seq<EventIndex>
    decreases count,
{
    if count == 0 {
        Seq::empty()
    } else {
        association_via(events, table, o, (count - 1) as nat) + hits(
            table,
            events[count - 1].relationships,
            o,
            EventIndex((count - 1) as usize),
        )
    }
}

impl LogModel {
    /// The association list of `o`: the events that relate to it, in log
    /// order, each once per relationship that resolves to `o`.
    pub open spec fn association_list(self, o: ObjectIndex) -> Seq<EventIndex> {
        association_via(self.events, self.object_index(), o, self.events.len())
    }

    /// Event `e` declares a relationship that resolves to object `o`.
    pub open spec fn event_relates_to(self, e: EventIndex, o: ObjectIndex) -> bool {
        e.0 < self.events.len() && relates_to(
            self.object_index(),
            self.events[e.0 as int].relationships,
            o,
        )
    }
}

/// One event's entries for `o` are copies of that event, and there is one
/// exactly when the event points at `o`.
pub proof fn lemma_hits(
    table: Map<Seq<char>, ObjectIndex>,
    rels: Seq<RelationshipModel>,
    o: ObjectIndex,
    e: EventIndex,
)
    ensures
        forall|i: int| 0 <= i < hits(table, rels, o, e).len() ==> hits(table, rels, o, e)[i] == e,
        hits(table, rels, o, e).len() > 0 <==> relates_to(table, rels, o),
    decreases rels.len(),
{
    if rels.len() > 0 {
        let front = rels.drop_last();
        lemma_hits(table, front, o, e);
        if relates_to(table, front, o) {
            let k = choose|k: int|
                0 <= k < front.len() && lookup(table, (#[trigger] front[k]).object_id) == Some(o);
            assert(rels[k] == front[k]);
        }
        if relates_to(table, rels, o) {
            let k = choose|k: int|
                0 <= k < rels.len() && lookup(table, (#[trigger] rels[k]).object_id) == Some(o);
            if k < front.len() {
                assert(front[k] == rels[k]);
            }
        }
        if lookup(table, rels.last().object_id) == Some(o) {
            assert(rels[rels.len() - 1] == rels.last());
        }
    }
}

/// Membership and order in an association list: it holds exactly the events
/// among the first `count` that point at `o`, and it never steps back.
pub proof fn lemma_association_via(
    events: Seq<EntityModel>,
    table: Map<Seq<char>, ObjectIndex>,
    o: ObjectIndex,
    count: nat,
)
    requires
        count <= events.len() <= usize::MAX,
    ensures
        forall|e: EventIndex|
            association_via(events, table, o, count).contains(e) <==> e.0 < count && relates_to(
                table,
                events[e.0 as int].relationships,
                o,
            ),
        forall|i: int, j: int|
            0 <= i <= j < association_via(events, table, o, count).len() ==> association_via(
                events,
                table,
                o,
                count,
            )[i].0 <= association_via(events, table, o, count)[j].0,
    decreases count,
{
    let list = association_via(events, table, o, count);
    if count > 0 {
        let before = association_via(events, table, o, (count - 1) as nat);
        let last = EventIndex((count - 1) as usize);
        let added = hits(table, events[count - 1].relationships, o, last);
        lemma_association_via(events, table, o, (count - 1) as nat);
        lemma_hits(table, events[count - 1].relationships, o, last);
        assert(list == before + added);
        assert forall|e: EventIndex| list.contains(e) <==> e.0 < count && relates_to(
            table,
            events[e.0 as int].relationships,
            o,
        ) by {
            if list.contains(e) {
                let i = choose|i: int| 0 <= i < list.len() && list[i] == e;
                if i < before.len() {
                    assert(before[i] == e);
                    assert(before.contains(e));
                } else {
                    assert(added[i - before.len()] == e);
                }
            }
            if e.0 < count && relates_to(table, events[e.0 as int].relationships, o) {
                if e.0 < count - 1 {
                    assert(before.contains(e));
                    let i = choose|i: int| 0 <= i < before.len() && before[i] == e;
                    assert(list[i] == e);
                } else {
                    assert(e == last);
                    assert(list[before.len() as int] == added[0]);
                }
            }
        }
        assert forall|i: int, j: int| 0 <= i <= j < list.len() implies list[i].0 <= list[j].0 by {
            if j >= before.len() {
                assert(list[j] == added[j - before.len()]);
                if i < before.len() {
                    assert(before.contains(before[i]));
                } else {
                    assert(list[i] == added[i - before.len()]);
                }
            }
        }
    }
}

/// An event is in the association list of an object exactly when it declares
/// a relationship that resolves to that object; relationships that resolve
/// to nothing put it on no list.
pub proof fn lemma_association_membership(log: LogModel, o: ObjectIndex, e: EventIndex)
    requires
        log.fits(),
    ensures
        log.association_list(o).contains(e) <==> log.event_relates_to(e, o),
{
    lemma_association_via(log.events, log.object_index(), o, log.events.len());
}

/// An association list lists events in log order.
pub proof fn lemma_association_ordered(log: LogModel, o: ObjectIndex, i: int, j: int)
    requires
        log.fits(),
        0 <= i <= j < log.association_list(o).len(),
    ensures
        log.association_list(o)[i].0 <= log.association_list(o)[j].0,
        log.association_list(o)[j].0 < log.events.len(),
{
    lemma_association_via(log.events, log.object_index(), o, log.events.len());
    let list = log.association_list(o);
    assert(list.contains(list[j]));
}

/// Builds one association list per object of `ocel`, resolving relationship
/// targets through `object_map`. Targets that `object_map` does not know, or
/// sends outside the object list, are passed over.
pub fn get_object_events_map(ocel: &OCEL, object_map: &StringHashMap<ObjectIndex>) -> (lists: Vec<
    Vec<EventIndex>,
>)
    ensures
        lists@.len() == ocel@.objects.len(),
        forall|o: int|
            0 <= o < lists@.len() ==> (#[trigger] lists@[o])@ == association_via(
                ocel@.events,
                object_map@,
                ObjectIndex(o as usize),
                ocel@.events.len(),
            ),
{
    let n = ocel.objects.len();
    let mut lists: Vec<Vec<EventIndex>> = Vec::new();
    let mut o: usize = 0;
    while o < n
        invariant
            o <= n,
            lists@.len() == o,
            forall|p: int| 0 <= p < o ==> (#[trigger] lists@[p])@ == Seq::<EventIndex>::empty(),
        decreases n - o,
    {
        lists.push(Vec::new());
        o += 1;
    }
    let ghost events = ocel@.events;
    let ghost table = object_map@;
    let mut e_index: usize = 0;
    while e_index < ocel.events.len()
        invariant
            e_index <= ocel.events.len(),
            n == ocel.objects.len(),
            events == ocel@.events,
            table == object_map@,
            lists@.len() == n,
            forall|p: int|
                0 <= p < n ==> (#[trigger] lists@[p])@ == association_via(
                    events,
                    table,
                    ObjectIndex(p as usize),
                    e_index as nat,
                ),
        decreases ocel.events.len() - e_index,
    {
        let rels = declared_relationships(&ocel.events[e_index].relationships);
        let ghost models = events[e_index as int].relationships;
        let e = EventIndex(e_index);
        let mut k: usize = 0;
        while k < rels.len()
            invariant
                k <= rels.len(),
                e_index < ocel.events.len(),
                e == EventIndex(e_index),
                events == ocel@.events,
                table == object_map@,
                models == events[e_index as int].relationships,
                models.len() == rels@.len(),
                forall|j: int| 0 <= j < rels@.len() ==> models[j] == (#[trigger] rels@[j])@,
                lists@.len() == n,
                forall|p: int|
                    0 <= p < n ==> (#[trigger] lists@[p])@ == association_via(
                        events,
                        table,
                        ObjectIndex(p as usize),
                        e_index as nat,
                    ) + hits(table, models.take(k as int), ObjectIndex(p as usize), e),
            decreases rels.len() - k,
        {
            let ghost before = lists@;
            assert(models.take(k + 1).drop_last() =~= models.take(k as int));
            assert(models.take(k + 1).last() == rels@[k as int]@);
            match object_map.get(rels[k].object_id.as_str()) {
                Some(ob_index) => {
                    if ob_index.0 < n {
                        lists[ob_index.0].push(e);
                    }
                },
                None => {},
            }
            assert forall|p: int| 0 <= p < n implies (#[trigger] lists@[p])@ == association_via(
                events,
                table,
                ObjectIndex(p as usize),
                e_index as nat,
            ) + hits(table, models.take(k + 1), ObjectIndex(p as usize), e) by {
                let earlier = hits(table, models.take(k as int), ObjectIndex(p as usize), e);
                let prefix = association_via(events, table, ObjectIndex(p as usize), e_index as nat);
                assert(before[p]@ == prefix + earlier);
                if lookup(table, rels@[k as int]@.object_id) == Some(ObjectIndex(p as usize)) {
                    assert(lists@[p]@ == before[p]@.push(e));
                    assert(lists@[p]@ =~= prefix + earlier.push(e));
                } else {
                    assert(lists@[p]@ == before[p]@);
                }
            }
            k += 1;
        }
        assert(models.take(k as int) =~= models);
        e_index += 1;
    }
    lists
}

} // verus!
