//! The index over one log, and the accessors that read it.
//!
//! An index is built once from a log and never changes; every table in it is
//! a function of that log. Its mathematical content is therefore the log
//! itself, and each accessor says which function of the log it returns.

use vstd::prelude::*;
use vstd::hash_map::StringHashMap;
use crate::association::get_object_events_map;
use crate::catalog::{catalog_events, catalog_objects};
use crate::dangling::{malformed_references, reference_views, MalformedReference};
use crate::index::{EventIndex, ObjectIndex, ObjectOrEventIndex};
use crate::log::{LogModel, OCELEvent, OCELObject, OCEL};
use crate::node::{NodeModel, OCELNodeRef};
use crate::relations::{directed_relations, edge_views, lemma_relations_in_range, relation_model, NodeTable};
use crate::resolve::{event_index_map, lemma_object_named, lemma_event_named, object_index_map};
use crate::summary::{get_object_rels_per_type, pair_views, QualifierAndObjectType};
use crate::symmetric::{entry_views, symmetric_closure};

verus! {

/// A log together with its lookup tables.
pub struct IndexLinkedOCEL {
    pub(crate) object_events_map: Vec<Vec<EventIndex>>,
    pub(crate) object_rels_per_type: StringHashMap<Vec<QualifierAndObjectType>>,
    pub(crate) events_of_type: StringHashMap<Vec<EventIndex>>,
    pub(crate) objects_of_type: StringHashMap<Vec<ObjectIndex>>,
    pub(crate) ocel: OCEL,
    pub(crate) event_index_map: StringHashMap<EventIndex>,
    pub(crate) object_index_map: StringHashMap<ObjectIndex>,
    /// Relations from objects and events to objects; not symmetric.
    pub(crate) rels: NodeTable<Vec<(ObjectIndex, String)>>,
    /// The same relations, entered at both ends; the flag is set where an
    /// entry runs against the relation.
    pub(crate) symmetric_rels: NodeTable<Vec<(ObjectOrEventIndex, bool, String)>>,
}

impl View for IndexLinkedOCEL {
    type V = LogModel;

    closed spec fn view(&self) -> LogModel {
        self.ocel@
    }
}

impl IndexLinkedOCEL {
    /// Every table is the one that belongs to the log.
    #[verifier::type_invariant]
    closed spec fn tables_match_log(&self) -> bool {
        let log = self.ocel@;
        &&& self.object_index_map@ == log.object_index()
        &&& self.event_index_map@ == log.event_index()
        &&& self.object_events_map@.len() == log.objects.len()
        &&& forall|o: int|
            0 <= o < log.objects.len() ==> (#[trigger] self.object_events_map@[o])@
                == log.association_list(ObjectIndex(o as usize))
        &&& forall|name: Seq<char>| #[trigger]
            self.events_of_type@.contains_key(name) <==> log.event_types.contains(name)
        &&& forall|name: Seq<char>| #[trigger]
            self.events_of_type@.contains_key(name) ==> self.events_of_type@[name]@
                == log.events_of_type(name)
        &&& forall|name: Seq<char>| #[trigger]
            self.objects_of_type@.contains_key(name) <==> log.object_types.contains(name)
        &&& forall|name: Seq<char>| #[trigger]
            self.objects_of_type@.contains_key(name) ==> self.objects_of_type@[name]@
                == log.objects_of_type(name)
        &&& forall|name: Seq<char>| #[trigger]
            self.object_rels_per_type@.contains_key(name) <==> log.object_types.contains(name)
        &&& forall|name: Seq<char>| #[trigger]
            self.object_rels_per_type@.contains_key(name) ==> pair_views(
                self.object_rels_per_type@[name]@,
            ).no_duplicates() && pair_views(self.object_rels_per_type@[name]@).to_set()
                == log.relation_summary(name)
        &&& relation_model(self.rels) == log.relations()
        &&& self.symmetric_rels.events@.len() == log.events.len()
        &&& self.symmetric_rels.objects@.len() == log.objects.len()
        &&& forall|node: ObjectOrEventIndex|
            self.symmetric_rels.has(node) ==> (#[trigger] entry_views(
                self.symmetric_rels.at(node)@,
            )).no_duplicates() && entry_views(self.symmetric_rels.at(node)@).to_set()
                == log.relations().symmetric(node)
    }

    /// Indexes `ocel`.
    pub fn new(ocel: OCEL) -> (index: Self)
        ensures
            index@ == ocel@,
    {
        link_ocel_info(ocel)
    }

    /// The relationships of the indexed log that resolve to no object: those
    /// of the events in log order, then those of the objects. None of them
    /// is in any table of the index.
    pub fn malformed_references(&self) -> (found: Vec<MalformedReference>)
        ensures
            reference_views(found@) == self@.malformed_references(),
    {
        proof {
            use_type_invariant(self);
        }
        malformed_references(&self.ocel, &self.object_index_map)
    }

    /// The log that this index was built from.
    pub fn ocel(&self) -> (ocel: &OCEL)
        ensures
            ocel@ == self@,
            self@.fits(),
    {
        assert(self.ocel.events.len() <= usize::MAX);
        assert(self.ocel.objects.len() <= usize::MAX);
        &self.ocel
    }

    /// The event at `index`, if the log has that many events.
    pub fn ev_by_index<'a>(&'a self, index: &EventIndex) -> (event: Option<&'a OCELEvent>)
        ensures
            match event {
                Some(ev) => index.0 < self@.events.len() && ev@ == self@.events[index.0 as int],
                None => index.0 >= self@.events.len(),
            },
    {
        if index.0 < self.ocel.events.len() {
            Some(&self.ocel.events[index.0])
        } else {
            None
        }
    }

    /// The object at `index`, if the log has that many objects.
    pub fn ob_by_index<'a>(&'a self, index: &ObjectIndex) -> (object: Option<&'a OCELObject>)
        ensures
            match object {
                Some(ob) => index.0 < self@.objects.len() && ob@ == self@.objects[index.0 as int],
                None => index.0 >= self@.objects.len(),
            },
    {
        if index.0 < self.ocel.objects.len() {
            Some(&self.ocel.objects[index.0])
        } else {
            None
        }
    }

    /// The position of the object that `ob_id` stands for.
    pub fn index_of_ob<'a>(&'a self, ob_id: &String) -> (index: Option<&'a ObjectIndex>)
        ensures
            match index {
                Some(found) => self@.object_named(ob_id@) == Some(*found) && found.0
                    < self@.objects.len(),
                None => self@.object_named(ob_id@) is None,
            },
    {
        proof {
            use_type_invariant(self);
        }
        let index = self.object_index_map.get(ob_id.as_str());
        proof {
            if let Some(found) = index {
                lemma_object_named(self.ocel@, ob_id@, *found);
            }
        }
        index
    }

    /// The object that `ob_id` stands for.
    pub fn ob_by_id<'a>(&'a self, ob_id: &String) -> (object: Option<&'a OCELObject>)
        ensures
            match self@.object_named(ob_id@) {
                Some(index) => index.0 < self@.objects.len() && object is Some && object->0@
                    == self@.objects[index.0 as int],
                None => object is None,
            },
    {
        match self.index_of_ob(ob_id) {
            Some(index) => self.ob_by_index(index),
            None => None,
        }
    }

    /// The position of the event that `ev_id` stands for.
    pub fn index_of_ev<'a>(&'a self, ev_id: &String) -> (index: Option<&'a EventIndex>)
        ensures
            match index {
                Some(found) => self@.event_named(ev_id@) == Some(*found) && found.0
                    < self@.events.len(),
                None => self@.event_named(ev_id@) is None,
            },
    {
        proof {
            use_type_invariant(self);
        }
        let index = self.event_index_map.get(ev_id.as_str());
        proof {
            if let Some(found) = index {
                lemma_event_named(self.ocel@, ev_id@, *found);
            }
        }
        index
    }

    /// The event or object at `index`, if the log has one there.
    pub fn ob_or_ev_by_index(&self, index: ObjectOrEventIndex) -> (node: Option<OCELNodeRef<'_>>)
        ensures
            match node {
                Some(found) => match index {
                    ObjectOrEventIndex::Object(o) => o.0 < self@.objects.len() && found@
                        == NodeModel::Object(self@.objects[o.0 as int]),
                    ObjectOrEventIndex::Event(e) => e.0 < self@.events.len() && found@
                        == NodeModel::Event(self@.events[e.0 as int]),
                },
                None => match index {
                    ObjectOrEventIndex::Object(o) => o.0 >= self@.objects.len(),
                    ObjectOrEventIndex::Event(e) => e.0 >= self@.events.len(),
                },
            },
    {
        match index {
            ObjectOrEventIndex::Object(ob_index) => {
                match self.ob_by_index(&ob_index) {
                    Some(ob) => Some(OCELNodeRef::Object(ob)),
                    None => None,
                }
            },
            ObjectOrEventIndex::Event(ev_index) => {
                match self.ev_by_index(&ev_index) {
                    Some(ev) => Some(OCELNodeRef::Event(ev)),
                    None => None,
                }
            },
        }
    }

    /// The events of type `name`, in log order; nothing for a type that the
    /// log does not declare.
    pub fn events_of_type<'a>(&'a self, name: &str) -> (events: Option<&'a Vec<EventIndex>>)
        ensures
            match events {
                Some(list) => self@.event_types.contains(name@) && list@ == self@.events_of_type(
                    name@,
                ),
                None => !self@.event_types.contains(name@),
            },
    {
        proof {
            use_type_invariant(self);
        }
        self.events_of_type.get(name)
    }

    /// The objects of type `name`, in log order; nothing for a type that the
    /// log does not declare.
    pub fn objects_of_type<'a>(&'a self, name: &str) -> (objects: Option<&'a Vec<ObjectIndex>>)
        ensures
            match objects {
                Some(list) => self@.object_types.contains(name@) && list@
                    == self@.objects_of_type(name@),
                None => !self@.object_types.contains(name@),
            },
    {
        proof {
            use_type_invariant(self);
        }
        self.objects_of_type.get(name)
    }

    /// The association list of the object at `index`: the events that relate
    /// to it.
    pub fn events_of_object<'a>(&'a self, index: &ObjectIndex) -> (events: Option<
        &'a Vec<EventIndex>,
    >)
        ensures
            match events {
                Some(list) => index.0 < self@.objects.len() && list@ == self@.association_list(
                    *index,
                ),
                None => index.0 >= self@.objects.len(),
            },
    {
        proof {
            use_type_invariant(self);
        }
        if index.0 < self.object_events_map.len() {
            Some(&self.object_events_map[index.0])
        } else {
            None
        }
    }

    /// The relation summary of the object type `name`; nothing for a type
    /// that the log does not declare.
    pub fn object_rels_of_type<'a>(&'a self, name: &str) -> (pairs: Option<
        &'a Vec<QualifierAndObjectType>,
    >)
        ensures
            match pairs {
                Some(list) => self@.object_types.contains(name@) && pair_views(
                    list@,
                ).no_duplicates() && pair_views(list@).to_set() == self@.relation_summary(name@),
                None => !self@.object_types.contains(name@),
            },
    {
        proof {
            use_type_invariant(self);
        }
        self.object_rels_per_type.get(name)
    }

    /// The relations that leave `node`, in the order in which the log
    /// declares them; nothing where there are none.
    pub fn rels_of<'a>(&'a self, node: &ObjectOrEventIndex) -> (edges: Option<
        &'a Vec<(ObjectIndex, String)>,
    >)
        ensures
            match edges {
                Some(list) => list@.len() > 0 && edge_views(list@) == self@.relations().edges(
                    *node,
                ),
                None => self@.relations().edges(*node).len() == 0,
            },
    {
        proof {
            use_type_invariant(self);
        }
        match self.rels.get(*node) {
            Some(list) => {
                if list.len() > 0 {
                    Some(list)
                } else {
                    None
                }
            },
            None => None,
        }
    }

    /// The symmetric relations of `node`; nothing where there are none.
    fn symmetric_rels_of<'a>(&'a self, node: ObjectOrEventIndex) -> (entries: Option<
        &'a Vec<(ObjectOrEventIndex, bool, String)>,
    >)
        ensures
            match entries {
                Some(list) => list@.len() > 0 && entry_views(list@).no_duplicates() && entry_views(
                    list@,
                ).to_set() == self@.relations().symmetric(node),
                None => self@.relations().symmetric(node) == Set::<
                    (ObjectOrEventIndex, bool, Seq<char>),
                >::empty(),
            },
    {
        proof {
            use_type_invariant(self);
        }
        match self.symmetric_rels.get(node) {
            Some(list) => {
                if list.len() > 0 {
                    Some(list)
                } else {
                    assert(entry_views(list@).to_set() =~= Set::empty());
                    None
                }
            },
            None => {
                proof {
                    let model = self.ocel@.relations();
                    assert forall|entry: (ObjectOrEventIndex, bool, Seq<char>)|
                        !model.symmetric(node).contains(entry) by {
                        if model.links(node, entry) {
                            if entry.1 {
                                lemma_relations_in_range(self.ocel@);
                                let edges = model.edges(entry.0);
                                let target = node->Object_0;
                                let k = choose|k: int|
                                    0 <= k < edges.len() && edges[k] == (target, entry.2);
                                assert(model.edges(entry.0)[k].0 == target);
                            }
                        }
                    }
                    assert(model.symmetric(node) =~= Set::empty());
                }
                None
            },
        }
    }

    /// The symmetric relations of the object at `index`: what it points at,
    /// and what points at it. Nothing where there are none.
    pub fn get_symmetric_rels_ob(&self, index: &ObjectIndex) -> (entries: Option<
        &Vec<(ObjectOrEventIndex, bool, String)>,
    >)
        ensures
            match entries {
                Some(list) => list@.len() > 0 && entry_views(list@).no_duplicates() && entry_views(
                    list@,
                ).to_set() == self@.relations().symmetric(ObjectOrEventIndex::Object(*index)),
                None => self@.relations().symmetric(ObjectOrEventIndex::Object(*index)) == Set::<
                    (ObjectOrEventIndex, bool, Seq<char>),
                >::empty(),
            },
    {
        self.symmetric_rels_of(ObjectOrEventIndex::Object(*index))
    }

    /// The symmetric relations of the event at `index`: the objects it points
    /// at. Nothing where there are none.
    pub fn get_symmetric_rels_ev(&self, index: &EventIndex) -> (entries: Option<
        &Vec<(ObjectOrEventIndex, bool, String)>,
    >)
        ensures
            match entries {
                Some(list) => list@.len() > 0 && entry_views(list@).no_duplicates() && entry_views(
                    list@,
                ).to_set() == self@.relations().symmetric(ObjectOrEventIndex::Event(*index)),
                None => self@.relations().symmetric(ObjectOrEventIndex::Event(*index)) == Set::<
                    (ObjectOrEventIndex, bool, Seq<char>),
                >::empty(),
            },
    {
        self.symmetric_rels_of(ObjectOrEventIndex::Event(*index))
    }
}

/// Builds the index of `ocel`: resolves identifiers, groups events and
/// objects by type, and derives the association lists, the relation summary
/// and both relation tables. Relationships that point at no object of the log
/// are left out of every table; nothing makes the construction fail.
pub fn link_ocel_info(ocel: OCEL) -> (index: IndexLinkedOCEL)
    ensures
        index@ == ocel@,
{
    let events_of_type = catalog_events(&ocel);
    let objects_of_type = catalog_objects(&ocel);
    let event_index_map = event_index_map(&ocel);
    let object_index_map = object_index_map(&ocel);
    let object_events_map = get_object_events_map(&ocel, &object_index_map);
    let object_rels_per_type = get_object_rels_per_type(&ocel, &object_index_map);
    let rels = directed_relations(&ocel, &object_index_map);
    let symmetric_rels = symmetric_closure(&rels);
    proof {
        let log = ocel@;
        assert(relation_model(rels).events =~= log.relations().events);
        assert(relation_model(rels).objects =~= log.relations().objects);
        assert(relation_model(rels) == log.relations());
    }
    IndexLinkedOCEL {
        events_of_type,
        objects_of_type,
        object_events_map,
        object_rels_per_type,
        ocel,
        event_index_map,
        object_index_map,
        rels,
        symmetric_rels,
    }
}

} // verus!
