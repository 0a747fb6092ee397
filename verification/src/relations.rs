//! The directed relation table: for every event and object, the objects it
//! points at.

use vstd::prelude::*;
use vstd::hash_map::StringHashMap;
use crate::resolve::{lemma_object_named, lookup};
use crate::index::{ObjectIndex, ObjectOrEventIndex};
use crate::log::{declared_relationships, LogModel, OCELRelationship, RelationshipModel, relationship_models, OCEL};

verus! {

/// One slot per node of the graph: a list for the events and a list for the
/// objects, each addressed by position.
pub struct NodeTable<T> {
    pub events: Vec<T>,
    pub objects: Vec<T>,
}

impl<T> NodeTable<T> {
    /// The table has a slot for `node`.
    pub open spec fn has(&self, node: ObjectOrEventIndex) -> bool {
        match node {
            ObjectOrEventIndex::Object(o) => o.0 < self.objects@.len(),
            ObjectOrEventIndex::Event(e) => e.0 < self.events@.len(),
        }
    }

    /// The slot of `node`.
    pub open spec fn at(&self, node: ObjectOrEventIndex) -> T
        recommends
            self.has(node),
    {
        match node {
            ObjectOrEventIndex::Object(o) => self.objects@[o.0 as int],
            ObjectOrEventIndex::Event(e) => self.events@[e.0 as int],
        }
    }

    /// The slot of `node`, if the table has one.
    pub fn get(&self, node: ObjectOrEventIndex) -> (slot: Option<&T>)
        ensures
            match slot {
                Some(found) => self.has(node) && *found == self.at(node),
                None => !self.has(node),
            },
    {
        match node {
            ObjectOrEventIndex::Object(o) => {
                if o.0 < self.objects.len() {
                    Some(&self.objects[o.0])
                } else {
                    None
                }
            },
            ObjectOrEventIndex::Event(e) => {
                if e.0 < self.events.len() {
                    Some(&self.events[e.0])
                } else {
                    None
                }
            },
        }
    }
}

/// The directed edges of a graph, source by source: each edge is the object
/// pointed at and the qualifier of the relationship.
pub struct RelationModel {
    pub events: Seq<Seq<(ObjectIndex, Seq<char>)>>,
    pub objects: Seq<Seq<(ObjectIndex, Seq<char>)>>,
}

impl RelationModel {
    /// `node` is a node of the graph.
    pub open spec fn has(self, node: ObjectOrEventIndex) -> bool {
        match node {
            ObjectOrEventIndex::Object(o) => o.0 < self.objects.len(),
            ObjectOrEventIndex::Event(e) => e.0 < self.events.len(),
        }
    }

    /// The edges that leave `node`, in the order of its relationships; none
    /// for what is no node.
    pub open spec fn edges(self, node: ObjectOrEventIndex) -> Seq<(ObjectIndex, Seq<char>)> {
        match node {
            ObjectOrEventIndex::Object(o) => if o.0 < self.objects.len() {
                self.objects[o.0 as int]
            } else {
                Seq::empty()
            },
            ObjectOrEventIndex::Event(e) => if e.0 < self.events.len() {
                self.events[e.0 as int]
            } else {
                Seq::empty()
            },
        }
    }

    /// There is an edge from `source` to `target` with this qualifier.
    pub open spec fn has_edge(
        self,
        source: ObjectOrEventIndex,
        target: ObjectIndex,
        qualifier: Seq<char>,
    ) -> bool {
        self.edges(source).contains((target, qualifier))
    }

    /// Every edge ends at an object of the graph.
    pub open spec fn targets_in_range(self) -> bool {
        forall|node: ObjectOrEventIndex, k: int|
            0 <= k < self.edges(node).len() ==> (#[trigger] self.edges(node)[k]).0.0
                < self.objects.len()
    }
}

/// The mathematical content of a list of edges.
pub open spec fn edge_views(list: Seq<(ObjectIndex, String)>) -> Seq<(ObjectIndex, Seq<char>)> {
    list.map_values(|edge: (ObjectIndex, String)| (edge.0, edge.1@))
}

/// The mathematical content of a directed relation table.
pub open spec fn relation_model(table: NodeTable<Vec<(ObjectIndex, String)>>) -> RelationModel {
    RelationModel {
        events: table.events@.map_values(|list: Vec<(ObjectIndex, String)>| edge_views(list@)),
        objects: table.objects@.map_values(|list: Vec<(ObjectIndex, String)>| edge_views(list@)),
    }
}

/// The edges that a list of relationships gives rise to: one for each
/// relationship whose target `table` sends to one of the first `objects`
/// objects, in order. The others leave no edge.
pub open spec fn directed_via(
    table: Map<Seq<char>, ObjectIndex>,
    objects: nat,
    rels: Seq<RelationshipModel>,
) -> Seq<(ObjectIndex, Seq<char>)>
    decreases rels.len(),
{
    if rels.len() == 0 {
        Seq::empty()
    } else {
        let earlier = directed_via(table, objects, rels.drop_last());
        match lookup(table, rels.last().object_id) {
            Some(target) => if target.0 < objects {
                earlier.push((target, rels.last().qualifier))
            } else {
                earlier
            },
            None => earlier,
        }
    }
}

impl LogModel {
    /// The directed relation graph of this log: the declared relationships
    /// whose targets resolve.
    pub open spec fn relations(self) -> RelationModel {
        RelationModel {
            events: Seq::new(
                self.events.len(),
                |e: int|
                    directed_via(
                        self.object_index(),
                        self.objects.len(),
                        self.events[e].relationships,
                    ),
            ),
            objects: Seq::new(
                self.objects.len(),
                |o: int|
                    directed_via(
                        self.object_index(),
                        self.objects.len(),
                        self.objects[o].relationships,
                    ),
            ),
        }
    }
}

/// An edge is kept for exactly the relationships whose target is known and
/// within the object list; every kept edge ends inside that list.
pub proof fn lemma_directed_via(
    table: Map<Seq<char>, ObjectIndex>,
    objects: nat,
    rels: Seq<RelationshipModel>,
    target: ObjectIndex,
    qualifier: Seq<char>,
)
    ensures
        directed_via(table, objects, rels).contains((target, qualifier)) <==> target.0 < objects
            && exists|k: int|
            0 <= k < rels.len() && lookup(table, (#[trigger] rels[k]).object_id) == Some(target)
                && rels[k].qualifier == qualifier,
        directed_via(table, objects, rels).len() <= rels.len(),
    decreases rels.len(),
{
    let list = directed_via(table, objects, rels);
    if rels.len() > 0 {
        let front = rels.drop_last();
        let earlier = directed_via(table, objects, front);
        lemma_directed_via(table, objects, front, target, qualifier);
        let kept = match lookup(table, rels.last().object_id) {
            Some(found) => found.0 < objects,
            None => false,
        };
        if list.contains((target, qualifier)) {
            let i = choose|i: int| 0 <= i < list.len() && list[i] == (target, qualifier);
            if i < earlier.len() {
                assert(earlier[i] == (target, qualifier));
                assert(earlier.contains((target, qualifier)));
                let k = choose|k: int|
                    0 <= k < front.len() && lookup(table, (#[trigger] front[k]).object_id) == Some(
                        target,
                    ) && front[k].qualifier == qualifier;
                assert(rels[k] == front[k]);
            } else {
                assert(kept);
                assert(rels[rels.len() - 1] == rels.last());
            }
        }
        if target.0 < objects && exists|k: int|
            0 <= k < rels.len() && lookup(table, (#[trigger] rels[k]).object_id) == Some(target)
                && rels[k].qualifier == qualifier {
            let k = choose|k: int|
                0 <= k < rels.len() && lookup(table, (#[trigger] rels[k]).object_id) == Some(target)
                    && rels[k].qualifier == qualifier;
            if k < front.len() {
                assert(front[k] == rels[k]);
                assert(earlier.contains((target, qualifier)));
                let i = choose|i: int| 0 <= i < earlier.len() && earlier[i] == (target, qualifier);
                assert(list[i] == (target, qualifier));
            } else {
                assert(list[earlier.len() as int] == (target, qualifier));
            }
        }
    }
}

/// Every edge that `directed_via` keeps ends among the first `objects`
/// objects.
pub proof fn lemma_directed_in_range(
    table: Map<Seq<char>, ObjectIndex>,
    objects: nat,
    rels: Seq<RelationshipModel>,
)
    ensures
        forall|k: int|
            0 <= k < directed_via(table, objects, rels).len() ==> (#[trigger] directed_via(
                table,
                objects,
                rels,
            )[k]).0.0 < objects,
    decreases rels.len(),
{
    if rels.len() > 0 {
        let list = directed_via(table, objects, rels);
        let earlier = directed_via(table, objects, rels.drop_last());
        lemma_directed_in_range(table, objects, rels.drop_last());
        assert forall|k: int| 0 <= k < list.len() implies (#[trigger] list[k]).0.0 < objects by {
            if k < earlier.len() {
                assert(list[k] == earlier[k]);
            }
        }
    }
}

impl LogModel {
    /// The relationships that `node` declares; none for what is no node.
    pub open spec fn relationships_of(self, node: ObjectOrEventIndex) -> Seq<RelationshipModel> {
        match node {
            ObjectOrEventIndex::Object(o) => if o.0 < self.objects.len() {
                self.objects[o.0 as int].relationships
            } else {
                Seq::empty()
            },
            ObjectOrEventIndex::Event(e) => if e.0 < self.events.len() {
                self.events[e.0 as int].relationships
            } else {
                Seq::empty()
            },
        }
    }

    /// `source` declares a relationship with this qualifier whose target
    /// resolves to `target`.
    pub open spec fn declares(
        self,
        source: ObjectOrEventIndex,
        target: ObjectIndex,
        qualifier: Seq<char>,
    ) -> bool {
        exists|k: int|
            0 <= k < self.relationships_of(source).len() && self.object_named(
                (#[trigger] self.relationships_of(source)[k]).object_id,
            ) == Some(target) && self.relationships_of(source)[k].qualifier == qualifier
    }
}

/// The relation graph holds an edge exactly for the declared relationships
/// that resolve: dangling ones leave none, and nothing else is dropped.
pub proof fn lemma_edge_declared(
    log: LogModel,
    source: ObjectOrEventIndex,
    target: ObjectIndex,
    qualifier: Seq<char>,
)
    ensures
        log.relations().has_edge(source, target, qualifier) <==> log.declares(
            source,
            target,
            qualifier,
        ),
{
    let rels = log.relationships_of(source);
    let table = log.object_index();
    lemma_directed_via(table, log.objects.len(), rels, target, qualifier);
    assert(log.relations().edges(source) == directed_via(table, log.objects.len(), rels));
    if log.declares(source, target, qualifier) {
        let k = choose|k: int|
            0 <= k < rels.len() && log.object_named((#[trigger] rels[k]).object_id) == Some(target)
                && rels[k].qualifier == qualifier;
        lemma_object_named(log, rels[k].object_id, target);
        assert(lookup(table, rels[k].object_id) == Some(target));
    }
    if log.relations().has_edge(source, target, qualifier) {
        let k = choose|k: int|
            0 <= k < rels.len() && lookup(table, (#[trigger] rels[k]).object_id) == Some(target)
                && rels[k].qualifier == qualifier;
        assert(log.object_named(rels[k].object_id) == Some(target));
    }
}

/// Every edge of a log's relation graph ends at an object of the log.
pub proof fn lemma_relations_in_range(log: LogModel)
    ensures
        log.relations().targets_in_range(),
        log.relations().events.len() == log.events.len(),
        log.relations().objects.len() == log.objects.len(),
{
    let model = log.relations();
    assert forall|node: ObjectOrEventIndex, k: int|
        0 <= k < model.edges(node).len() implies (#[trigger] model.edges(node)[k]).0.0
        < model.objects.len() by {
        match node {
            ObjectOrEventIndex::Object(o) => {
                lemma_directed_in_range(
                    log.object_index(),
                    log.objects.len(),
                    log.objects[o.0 as int].relationships,
                );
            },
            ObjectOrEventIndex::Event(e) => {
                lemma_directed_in_range(
                    log.object_index(),
                    log.objects.len(),
                    log.events[e.0 as int].relationships,
                );
            },
        }
    }
}

/// The edges of a list of relationships: resolves each target through
/// `object_map` and keeps those that land among the first `objects` objects.
pub fn resolve_relationships(
    rels: &[OCELRelationship],
    object_map: &StringHashMap<ObjectIndex>,
    objects: usize,
) -> (edges: Vec<(ObjectIndex, String)>)
    ensures
        edge_views(edges@) == directed_via(
            object_map@,
            objects as nat,
            relationship_models(rels@),
        ),
{
    let ghost models = relationship_models(rels@);
    let ghost table = object_map@;
    let mut edges: Vec<(ObjectIndex, String)> = Vec::new();
    let mut k: usize = 0;
    assert(edge_views(edges@) =~= directed_via(table, objects as nat, models.take(0)));
    while k < rels.len()
        invariant
            k <= rels.len(),
            models == relationship_models(rels@),
            table == object_map@,
            edge_views(edges@) == directed_via(table, objects as nat, models.take(k as int)),
        decreases rels.len() - k,
    {
        let ghost earlier = edge_views(edges@);
        assert(models.take(k + 1).drop_last() =~= models.take(k as int));
        assert(models.take(k + 1).last() == rels@[k as int]@);
        match object_map.get(rels[k].object_id.as_str()) {
            Some(target) => {
                if target.0 < objects {
                    edges.push((*target, rels[k].qualifier.clone()));
                    assert(edge_views(edges@) =~= earlier.push((*target, rels@[k as int]@.qualifier)));
                }
            },
            None => {},
        }
        k += 1;
    }
    assert(models.take(k as int) =~= models);
    edges
}

/// Builds the directed relation table of `ocel`, resolving relationship
/// targets through `object_map`. Relationships whose target is unknown leave
/// no edge.
pub fn directed_relations(ocel: &OCEL, object_map: &StringHashMap<ObjectIndex>) -> (table:
    NodeTable<Vec<(ObjectIndex, String)>>)
    ensures
        relation_model(table).events.len() == ocel@.events.len(),
        relation_model(table).objects.len() == ocel@.objects.len(),
        forall|e: int|
            0 <= e < ocel@.events.len() ==> #[trigger] relation_model(table).events[e]
                == directed_via(
                object_map@,
                ocel@.objects.len(),
                ocel@.events[e].relationships,
            ),
        forall|o: int|
            0 <= o < ocel@.objects.len() ==> #[trigger] relation_model(table).objects[o]
                == directed_via(
                object_map@,
                ocel@.objects.len(),
                ocel@.objects[o].relationships,
            ),
        relation_model(table).targets_in_range(),
{
    let n = ocel.objects.len();
    let mut events: Vec<Vec<(ObjectIndex, String)>> = Vec::new();
    let mut e: usize = 0;
    while e < ocel.events.len()
        invariant
            e <= ocel.events.len(),
            n == ocel.objects.len(),
            events@.len() == e,
            forall|i: int|
                0 <= i < e ==> edge_views((#[trigger] events@[i])@) == directed_via(
                    object_map@,
                    n as nat,
                    ocel@.events[i].relationships,
                ),
        decreases ocel.events.len() - e,
    {
        let rels = declared_relationships(&ocel.events[e].relationships);
        events.push(resolve_relationships(rels, object_map, n));
        e += 1;
    }
    let mut objects: Vec<Vec<(ObjectIndex, String)>> = Vec::new();
    let mut o: usize = 0;
    while o < n
        invariant
            o <= n,
            n == ocel.objects.len(),
            objects@.len() == o,
            forall|i: int|
                0 <= i < o ==> edge_views((#[trigger] objects@[i])@) == directed_via(
                    object_map@,
                    n as nat,
                    ocel@.objects[i].relationships,
                ),
        decreases n - o,
    {
        let rels = declared_relationships(&ocel.objects[o].relationships);
        objects.push(resolve_relationships(rels, object_map, n));
        o += 1;
    }
    let table = NodeTable { events, objects };
    proof {
        let model = relation_model(table);
        assert forall|node: ObjectOrEventIndex, k: int|
            0 <= k < model.edges(node).len() implies (#[trigger] model.edges(node)[k]).0.0
            < model.objects.len() by {
            match node {
                ObjectOrEventIndex::Object(o) => {
                    lemma_directed_in_range(
                        object_map@,
                        n as nat,
                        ocel@.objects[o.0 as int].relationships,
                    );
                },
                ObjectOrEventIndex::Event(e) => {
                    lemma_directed_in_range(
                        object_map@,
                        n as nat,
                        ocel@.events[e.0 as int].relationships,
                    );
                },
            }
        }
    }
    table
}

} // verus!
