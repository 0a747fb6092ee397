//! Relationships that point at no object of the log.
//!
//! Such a relationship is a fault in the data, not in the caller: it is left
//! out of every table and reported, and indexing goes on.

use vstd::prelude::*;
use vstd::hash_map::StringHashMap;
use vstd::string::StringExecFns;
use crate::resolve::lookup;
use crate::index::{EventIndex, ObjectIndex, ObjectOrEventIndex};
use crate::log::{declared_relationships, EntityModel, LogModel, OCELRelationship, RelationshipModel, relationship_models, OCEL};
use crate::relations::directed_via;

verus! {

/// A relationship of `source` whose target identifier belongs to no object.
#[derive(Debug, PartialEq, Eq)]
pub struct MalformedReference {
    pub source: ObjectOrEventIndex,
    pub source_id: String,
    pub target_id: String,
}

/// Mathematical content of a malformed reference.
pub struct MalformedReferenceModel {
    pub source: ObjectOrEventIndex,
    pub source_id: Seq<char>,
    pub target_id: Seq<char>,
}

impl View for MalformedReference {
    type V = MalformedReferenceModel;

    open spec fn view(&self) -> MalformedReferenceModel {
        MalformedReferenceModel {
            source: self.source,
            source_id: self.source_id@,
            target_id: self.target_id@,
        }
    }
}

/// The mathematical content of a list of malformed references.
pub open spec fn reference_views(list: Seq<MalformedReference>) -> Seq<MalformedReferenceModel> {
    list.map_values(|found: MalformedReference| found@)
}

/// `table` sends the target of `rel` to one of the first `objects` objects.
pub open spec fn resolves(
    table: Map<Seq<char>, ObjectIndex>,
    objects: nat,
    rel: RelationshipModel,
) -> bool {
    match lookup(table, rel.object_id) {
        Some(target) => target.0 < objects,
        None => false,
    }
}

/// The malformed references among the relationships `rels` of `source`, in
/// order.
pub open spec fn dangling_via(
    table: Map<Seq<char>, ObjectIndex>,
    objects: nat,
    source: ObjectOrEventIndex,
    source_id: Seq<char>,
    rels: Seq<RelationshipModel>,
) -> Seq<MalformedReferenceModel>
    decreases rels.len(),
{
    if rels.len() == 0 {
        Seq::empty()
    } else {
        let earlier = dangling_via(table, objects, source, source_id, rels.drop_last());
        if resolves(table, objects, rels.last()) {
            earlier
        } else {
            earlier.push(
                MalformedReferenceModel { source, source_id, target_id: rels.last().object_id },
            )
        }
    }
}

/// The malformed references of the first `count` events.
pub open spec fn dangling_in_events(
    table: Map<Seq<char>, ObjectIndex>,
    objects: nat,
    events: Seq<EntityModel>,
    count: nat,
) -> Seq<MalformedReferenceModel>
    decreases count,
{
    if count == 0 {
        Seq::empty()
    } else {
        dangling_in_events(table, objects, events, (count - 1) as nat) + dangling_via(
            table,
            objects,
            ObjectOrEventIndex::Event(EventIndex((count - 1) as usize)),
            events[count - 1].id,
            events[count - 1].relationships,
        )
    }
}

/// The malformed references of the first `count` of `sources`, taken as
/// objects.
pub open spec fn dangling_in_objects(
    table: Map<Seq<char>, ObjectIndex>,
    objects: nat,
    sources: Seq<EntityModel>,
    count: nat,
) -> Seq<MalformedReferenceModel>
    decreases count,
{
    if count == 0 {
        Seq::empty()
    } else {
        dangling_in_objects(table, objects, sources, (count - 1) as nat) + dangling_via(
            table,
            objects,
            ObjectOrEventIndex::Object(ObjectIndex((count - 1) as usize)),
            sources[count - 1].id,
            sources[count - 1].relationships,
        )
    }
}

/// The malformed references of a log under `table`: those of its events in
/// log order, then those of its objects.
pub open spec fn dangling_in_log(table: Map<Seq<char>, ObjectIndex>, log: LogModel) -> Seq<
    MalformedReferenceModel,
> {
    dangling_in_events(table, log.objects.len(), log.events, log.events.len())
        + dangling_in_objects(table, log.objects.len(), log.objects, log.objects.len())
}

impl LogModel {
    /// The relationships of this log that resolve to no object.
    pub open spec fn malformed_references(self) -> Seq<MalformedReferenceModel> {
        dangling_in_log(self.object_index(), self)
    }
}

/// Every relationship either leaves an edge or is reported: a malformed
/// reference lowers the number of edges by one and does nothing else.
pub proof fn lemma_edge_or_dangling(
    table: Map<Seq<char>, ObjectIndex>,
    objects: nat,
    source: ObjectOrEventIndex,
    source_id: Seq<char>,
    rels: Seq<RelationshipModel>,
)
    ensures
        directed_via(table, objects, rels).len() + dangling_via(
            table,
            objects,
            source,
            source_id,
            rels,
        ).len() == rels.len(),
    decreases rels.len(),
{
    if rels.len() > 0 {
        lemma_edge_or_dangling(table, objects, source, source_id, rels.drop_last());
    }
}

/// In the relation graph of a log, a node has one edge for each of its
/// relationships but the malformed ones.
pub proof fn lemma_dangling_lower_edge_count(
    log: LogModel,
    node: ObjectOrEventIndex,
    node_id: Seq<char>,
)
    ensures
        log.relations().edges(node).len() + dangling_via(
            log.object_index(),
            log.objects.len(),
            node,
            node_id,
            log.relationships_of(node),
        ).len() == log.relationships_of(node).len(),
{
    lemma_edge_or_dangling(
        log.object_index(),
        log.objects.len(),
        node,
        node_id,
        log.relationships_of(node),
    );
}

/// Appends to `found` the malformed references among `rels`.
fn collect_dangling(
    found: &mut Vec<MalformedReference>,
    rels: &[OCELRelationship],
    object_map: &StringHashMap<ObjectIndex>,
    objects: usize,
    source: ObjectOrEventIndex,
    source_id: &String,
)
    ensures
        reference_views(final(found)@) == reference_views(old(found)@) + dangling_via(
            object_map@,
            objects as nat,
            source,
            source_id@,
            relationship_models(rels@),
        ),
{
    let ghost start = reference_views(found@);
    let ghost models = relationship_models(rels@);
    let ghost table = object_map@;
    let mut k: usize = 0;
    assert(reference_views(found@) =~= start + dangling_via(
        table,
        objects as nat,
        source,
        source_id@,
        models.take(0),
    ));
    while k < rels.len()
        invariant
            k <= rels@.len(),
            models == relationship_models(rels@),
            table == object_map@,
            reference_views(found@) == start + dangling_via(
                table,
                objects as nat,
                source,
                source_id@,
                models.take(k as int),
            ),
        decreases rels@.len() - k,
    {
        let ghost before = reference_views(found@);
        let ghost earlier = dangling_via(
            table,
            objects as nat,
            source,
            source_id@,
            models.take(k as int),
        );
        assert(models.take(k + 1).drop_last() =~= models.take(k as int));
        assert(models.take(k + 1).last() == rels@[k as int]@);
        let known = match object_map.get(rels[k].object_id.as_str()) {
            Some(target) => target.0 < objects,
            None => false,
        };
        if !known {
            let reference = MalformedReference {
                source,
                source_id: source_id.clone(),
                target_id: rels[k].object_id.clone(),
            };
            let ghost model = reference@;
            found.push(reference);
            assert(reference_views(found@) =~= before.push(model));
            assert(before.push(model) =~= start + earlier.push(model));
        }
        k += 1;
    }
    assert(models.take(k as int) =~= models);
}

/// The relationships of `ocel` whose target `object_map` does not send to an
/// object of the log: those of the events in log order, then those of the
/// objects.
pub fn malformed_references(ocel: &OCEL, object_map: &StringHashMap<ObjectIndex>) -> (found: Vec<
    MalformedReference,
>)
    ensures
        reference_views(found@) == dangling_in_log(object_map@, ocel@),
{
    let n = ocel.objects.len();
    let ghost table = object_map@;
    let ghost log = ocel@;
    let mut found: Vec<MalformedReference> = Vec::new();
    let mut e: usize = 0;
    assert(reference_views(found@) =~= dangling_in_events(table, n as nat, log.events, 0));
    while e < ocel.events.len()
        invariant
            e <= ocel.events.len(),
            n == ocel.objects.len(),
            table == object_map@,
            log == ocel@,
            reference_views(found@) == dangling_in_events(table, n as nat, log.events, e as nat),
        decreases ocel.events.len() - e,
    {
        let rels = declared_relationships(&ocel.events[e].relationships);
        collect_dangling(
            &mut found,
            rels,
            object_map,
            n,
            ObjectOrEventIndex::Event(EventIndex(e)),
            &ocel.events[e].id,
        );
        e += 1;
    }
    let ghost of_events = reference_views(found@);
    let mut o: usize = 0;
    assert(reference_views(found@) =~= of_events + dangling_in_objects(
        table,
        n as nat,
        log.objects,
        0,
    ));
    while o < n
        invariant
            o <= n,
            n == ocel.objects.len(),
            table == object_map@,
            log == ocel@,
            reference_views(found@) == of_events + dangling_in_objects(
                table,
                n as nat,
                log.objects,
                o as nat,
            ),
        decreases n - o,
    {
        let ghost before = dangling_in_objects(table, n as nat, log.objects, o as nat);
        let rels = declared_relationships(&ocel.objects[o].relationships);
        collect_dangling(
            &mut found,
            rels,
            object_map,
            n,
            ObjectOrEventIndex::Object(ObjectIndex(o)),
            &ocel.objects[o].id,
        );
        proof {
            let added = dangling_via(
                table,
                n as nat,
                ObjectOrEventIndex::Object(ObjectIndex(o)),
                log.objects[o as int].id,
                log.objects[o as int].relationships,
            );
            assert((of_events + before) + added =~= of_events + (before + added));
        }
        o += 1;
    }
    found
}

impl MalformedReference {
    /// The warning for this reference, as one line of text.
    pub fn message(&self) -> (text: String)
        ensures
            text@ == match self.source {
                ObjectOrEventIndex::Event(_) => "Malformed OCEL: Event "@ + self.source_id@
                    + " relates to object ID "@ + self.target_id@
                    + ", which does not belong to any object."@,
                ObjectOrEventIndex::Object(_) => "Malformed OCEL: Object "@ + self.source_id@
                    + " has relationship to object ID "@ + self.target_id@
                    + ", which does not belong to any object"@,
            },
    {
        match self.source {
            ObjectOrEventIndex::Event(_) => {
                let mut text = String::from_str("Malformed OCEL: Event ");
                text.append(self.source_id.as_str());
                text.append(" relates to object ID ");
                text.append(self.target_id.as_str());
                text.append(", which does not belong to any object.");
                text
            },
            ObjectOrEventIndex::Object(_) => {
                let mut text = String::from_str("Malformed OCEL: Object ");
                text.append(self.source_id.as_str());
                text.append(" has relationship to object ID ");
                text.append(self.target_id.as_str());
                text.append(", which does not belong to any object");
                text
            },
        }
    }
}

} // verus!
