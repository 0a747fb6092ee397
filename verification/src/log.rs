//! The raw object-centric event log, as handed over by a loader.
//!
//! Events and objects are kept in two flat lists; everything else in this
//! crate refers to them by position. Attributes and timestamps play no part in
//! indexing and are not carried.

use vstd::prelude::*;

verus! {

/// Mathematical content of a relationship: the identifier it points at and
/// the role it plays.
pub struct RelationshipModel {
    pub object_id: Seq<char>,
    pub qualifier: Seq<char>,
}

/// Mathematical content of an event or of an object. A missing relationship
/// list and an empty one are the same thing here.
pub struct EntityModel {
    pub id: Seq<char>,
    pub kind: Seq<char>,
    pub relationships: Seq<RelationshipModel>,
}

/// Mathematical content of a whole log.
pub struct LogModel {
    pub event_types: Seq<Seq<char>>,
    pub object_types: Seq<Seq<char>>,
    pub events: Seq<EntityModel>,
    pub objects: Seq<EntityModel>,
}

/// A qualified reference from an event or object to an object identifier.
#[derive(Debug, PartialEq, Eq)]
pub struct OCELRelationship {
    pub object_id: String,
    pub qualifier: String,
}

/// A declared event type or object type.
#[derive(Debug, PartialEq, Eq)]
pub struct OCELType {
    pub name: String,
}

#[derive(Debug, PartialEq, Eq)]
pub struct OCELEvent {
    pub id: String,
    pub event_type: String,
    pub relationships: Option<Vec<OCELRelationship>>,
}

#[derive(Debug, PartialEq, Eq)]
pub struct OCELObject {
    pub id: String,
    pub object_type: String,
    pub relationships: Option<Vec<OCELRelationship>>,
}

#[derive(Debug, PartialEq, Eq)]
pub struct OCEL {
    pub event_types: Vec<OCELType>,
    pub object_types: Vec<OCELType>,
    pub events: Vec<OCELEvent>,
    pub objects: Vec<OCELObject>,
}

impl View for OCELRelationship {
    type V = RelationshipModel;

    open spec fn view(&self) -> RelationshipModel {
        RelationshipModel { object_id: self.object_id@, qualifier: self.qualifier@ }
    }
}

/// The models of a list of relationships, in order.
pub open spec fn relationship_models(rels: Seq<OCELRelationship>) -> Seq<RelationshipModel> {
    rels.map_values(|r: OCELRelationship| r@)
}

/// The models of an optional list of relationships; none when the list is
/// missing.
pub open spec fn optional_relationship_models(
    rels: Option<Vec<OCELRelationship>>,
) -> Seq<RelationshipModel> {
    match rels {
        Some(list) => relationship_models(list@),
        None => Seq::empty(),
    }
}

impl View for OCELType {
    type V = Seq<char>;

    open spec fn view(&self) -> Seq<char> {
        self.name@
    }
}

impl View for OCELEvent {
    type V = EntityModel;

    open spec fn view(&self) -> EntityModel {
        EntityModel {
            id: self.id@,
            kind: self.event_type@,
            relationships: optional_relationship_models(self.relationships),
        }
    }
}

impl View for OCELObject {
    type V = EntityModel;

    open spec fn view(&self) -> EntityModel {
        EntityModel {
            id: self.id@,
            kind: self.object_type@,
            relationships: optional_relationship_models(self.relationships),
        }
    }
}

impl View for OCEL {
    type V = LogModel;

    open spec fn view(&self) -> LogModel {
        LogModel {
            event_types: self.event_types@.map_values(|t: OCELType| t@),
            object_types: self.object_types@.map_values(|t: OCELType| t@),
            events: self.events@.map_values(|e: OCELEvent| e@),
            objects: self.objects@.map_values(|o: OCELObject| o@),
        }
    }
}

impl Clone for OCELRelationship {
    fn clone(&self) -> (copy: Self)
        ensures
            copy@ == self@,
    {
        OCELRelationship { object_id: self.object_id.clone(), qualifier: self.qualifier.clone() }
    }
}

impl Clone for OCELType {
    fn clone(&self) -> (copy: Self)
        ensures
            copy@ == self@,
    {
        OCELType { name: self.name.clone() }
    }
}

impl Clone for OCELEvent {
    fn clone(&self) -> (copy: Self)
        ensures
            copy@ == self@,
    {
        OCELEvent {
            id: self.id.clone(),
            event_type: self.event_type.clone(),
            relationships: match &self.relationships {
                Some(rels) => Some(clone_relationships(rels)),
                None => None,
            },
        }
    }
}

impl Clone for OCELObject {
    fn clone(&self) -> (copy: Self)
        ensures
            copy@ == self@,
    {
        OCELObject {
            id: self.id.clone(),
            object_type: self.object_type.clone(),
            relationships: match &self.relationships {
                Some(rels) => Some(clone_relationships(rels)),
                None => None,
            },
        }
    }
}

/// The relationships behind an optional list, without copying them.
pub fn declared_relationships(rels: &Option<Vec<OCELRelationship>>) -> (declared: &[OCELRelationship])
    ensures
        relationship_models(declared@) == optional_relationship_models(*rels),
{
    match rels {
        Some(list) => list.as_slice(),
        None => &[],
    }
}

/// A copy of a list of relationships.
pub fn clone_relationships(rels: &Vec<OCELRelationship>) -> (copy: Vec<OCELRelationship>)
    ensures
        relationship_models(copy@) == relationship_models(rels@),
{
    let mut copy: Vec<OCELRelationship> = Vec::new();
    let mut k: usize = 0;
    while k < rels.len()
        invariant
            k <= rels.len(),
            copy@.len() == k,
            forall|j: int| 0 <= j < k ==> copy@[j]@ == rels@[j]@,
        decreases rels.len() - k,
    {
        copy.push(rels[k].clone());
        k += 1;
    }
    assert(relationship_models(copy@) =~= relationship_models(rels@));
    copy
}

/// The relationships that an event declares; an empty list when it declares
/// none.
pub fn get_event_relationships(ev: &OCELEvent) -> (rels: Vec<OCELRelationship>)
    ensures
        relationship_models(rels@) == ev@.relationships,
{
    match &ev.relationships {
        Some(rels) => clone_relationships(rels),
        None => {
            let rels: Vec<OCELRelationship> = Vec::new();
            assert(relationship_models(rels@) =~= ev@.relationships);
            rels
        },
    }
}

/// The relationships that an object declares; an empty list when it declares
/// none.
pub fn get_object_relationships(obj: &OCELObject) -> (rels: Vec<OCELRelationship>)
    ensures
        relationship_models(rels@) == obj@.relationships,
{
    match &obj.relationships {
        Some(rels) => clone_relationships(rels),
        None => {
            let rels: Vec<OCELRelationship> = Vec::new();
            assert(relationship_models(rels@) =~= obj@.relationships);
            rels
        },
    }
}

} // verus!
