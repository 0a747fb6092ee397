use std::cmp::Ordering;

use linked_ocel::order::compare_sizes;
use linked_ocel::{
    get_event_relationships, get_object_relationships, EventIndex, IndexLinkedOCEL, OCELEvent,
    OCELInfo, OCELNode, OCELNodeRef, OCELObject, OCELRelationship, OCELType, ObjectIndex,
    ObjectOrEventIndex, OCEL,
};

fn rel(target: &str, qualifier: &str) -> OCELRelationship {
    OCELRelationship { object_id: target.to_string(), qualifier: qualifier.to_string() }
}

fn small() -> OCEL {
    OCEL {
        event_types: vec![OCELType { name: "place".to_string() }],
        object_types: vec![OCELType { name: "order".to_string() }, OCELType { name: "item".to_string() }],
        events: vec![OCELEvent {
            id: "e1".to_string(),
            event_type: "place".to_string(),
            relationships: Some(vec![rel("o1", "creates"), rel("i1", "holds")]),
        }],
        objects: vec![
            OCELObject { id: "o1".to_string(), object_type: "order".to_string(), relationships: None },
            OCELObject {
                id: "i1".to_string(),
                object_type: "item".to_string(),
                relationships: Some(vec![rel("o1", "part of")]),
            },
        ],
    }
}

#[test]
fn relationships_of_an_event() {
    let ocel = small();
    assert_eq!(
        get_event_relationships(&ocel.events[0]),
        vec![rel("o1", "creates"), rel("i1", "holds")]
    );
    let bare = OCELEvent { id: "e".to_string(), event_type: "t".to_string(), relationships: None };
    assert_eq!(get_event_relationships(&bare), vec![]);
}

#[test]
fn relationships_of_an_object() {
    let ocel = small();
    assert_eq!(get_object_relationships(&ocel.objects[0]), vec![]);
    assert_eq!(get_object_relationships(&ocel.objects[1]), vec![rel("o1", "part of")]);
}

#[test]
fn handles_as_text() {
    assert_eq!(EventIndex(0).to_string(), "Ev:0");
    assert_eq!(EventIndex(7).to_string(), "Ev:7");
    assert_eq!(EventIndex(10).to_string(), "Ev:10");
    assert_eq!(EventIndex(905).to_string(), "Ev:905");
    assert_eq!(ObjectIndex(0).to_string(), "Ob:0");
    assert_eq!(ObjectIndex(1234567890).to_string(), "Ob:1234567890");
    assert_eq!(ObjectIndex(usize::MAX).to_string(), format!("Ob:{}", usize::MAX));
}

#[test]
fn handles_compare_by_position() {
    assert_eq!(EventIndex(3), EventIndex(3));
    assert_ne!(EventIndex(3), EventIndex(4));
    assert_ne!(
        ObjectOrEventIndex::Event(EventIndex(1)),
        ObjectOrEventIndex::Object(ObjectIndex(1))
    );
}

#[test]
fn node_by_position() {
    let index = IndexLinkedOCEL::new(small());
    match index.ob_or_ev_by_index(ObjectOrEventIndex::Event(EventIndex(0))) {
        Some(OCELNodeRef::Event(found)) => assert_eq!(found.id, "e1"),
        _ => panic!("no event at 0"),
    }
    match index.ob_or_ev_by_index(ObjectOrEventIndex::Object(ObjectIndex(1))) {
        Some(OCELNodeRef::Object(found)) => assert_eq!(found.id, "i1"),
        _ => panic!("no object at 1"),
    }
    assert!(index.ob_or_ev_by_index(ObjectOrEventIndex::Event(EventIndex(1))).is_none());
    assert!(index.ob_or_ev_by_index(ObjectOrEventIndex::Object(ObjectIndex(2))).is_none());
}

#[test]
fn node_copy_and_identifier() {
    let ocel = small();
    let of_event = OCELNodeRef::Event(&ocel.events[0]).cloned();
    assert_eq!(of_event.get_id(), "e1");
    assert_eq!(of_event, OCELNode::Event(ocel.events[0].clone()));
    let of_object = OCELNodeRef::Object(&ocel.objects[1]).cloned();
    assert_eq!(of_object.get_id(), "i1");
    match of_object {
        OCELNode::Object(copy) => {
            assert_eq!(copy.object_type, "item");
            assert_eq!(copy.relationships, Some(vec![rel("o1", "part of")]));
        },
        OCELNode::Event(_) => panic!("an object was copied"),
    }
}

#[test]
fn summary_of_a_log() {
    let ocel = small();
    let info = OCELInfo::from(&ocel);
    assert_eq!(info.num_objects, 2);
    assert_eq!(info.num_events, 1);
    assert_eq!(info.object_types, ocel.object_types);
    assert_eq!(info.event_types, ocel.event_types);
    assert_eq!(info.object_ids, vec!["o1".to_string(), "i1".to_string()]);
    assert_eq!(info.event_ids, vec!["e1".to_string()]);
}

#[test]
fn index_keeps_the_log() {
    let index = IndexLinkedOCEL::new(small());
    assert_eq!(index.ocel(), &small());
}

#[test]
fn load_fills_an_empty_slot() {
    let mut slot: Option<IndexLinkedOCEL> = None;
    let info = linked_ocel::load_ocel_file_to_state(Some(small()), &mut slot).unwrap();
    assert_eq!(info.num_events, 1);
    assert_eq!(info.object_ids, vec!["o1".to_string(), "i1".to_string()]);
    assert_eq!(slot.unwrap().ocel(), &small());
}

#[test]
fn load_replaces_the_index_whole() {
    let mut slot = Some(IndexLinkedOCEL::new(small()));
    let other = OCEL { event_types: vec![], object_types: vec![], events: vec![], objects: vec![] };
    let info = linked_ocel::load_ocel_file_to_state(Some(other), &mut slot).unwrap();
    assert_eq!(info.num_objects, 0);
    let index = slot.unwrap();
    assert!(index.ocel().events.is_empty());
    assert!(index.index_of_ob(&"o1".to_string()).is_none());
    assert!(index.events_of_type("place").is_none());
}

#[test]
fn failed_load_leaves_the_slot_alone() {
    let mut slot = Some(IndexLinkedOCEL::new(small()));
    assert!(linked_ocel::load_ocel_file_to_state(None, &mut slot).is_none());
    assert_eq!(slot.unwrap().ocel(), &small());
    let mut empty: Option<IndexLinkedOCEL> = None;
    assert!(linked_ocel::load_ocel_file_to_state(None, &mut empty).is_none());
    assert!(empty.is_none());
}

#[test]
fn reader_gets_nothing_from_an_empty_slot() {
    let empty: Option<IndexLinkedOCEL> = None;
    assert_eq!(linked_ocel::with_ocel_from_state(&empty, |index| index.ocel().events.len()), None);
    let full = Some(IndexLinkedOCEL::new(small()));
    assert_eq!(linked_ocel::with_ocel_from_state(&full, |index| index.ocel().objects.len()), Some(2));
}

#[test]
fn query_on_the_slot_tells_its_failures_apart() {
    let types = linked_ocel::type_set(&["place".to_string()]);
    let empty: Option<IndexLinkedOCEL> = None;
    assert_eq!(
        linked_ocel::get_events_from_state(&empty, &types, &[]),
        Err(linked_ocel::QueryError::NoIndexLoaded)
    );
    assert_eq!(
        linked_ocel::get_events_from_state(&empty, &types, &[ObjectIndex(9)]),
        Err(linked_ocel::QueryError::NoIndexLoaded)
    );
    let full = Some(IndexLinkedOCEL::new(small()));
    assert_eq!(
        linked_ocel::get_events_from_state(&full, &types, &[ObjectIndex(0), ObjectIndex(2)]),
        Err(linked_ocel::QueryError::ObjectOutOfRange)
    );
    assert_eq!(
        linked_ocel::get_events_from_state(&full, &types, &[ObjectIndex(0), ObjectIndex(1)]),
        Ok(vec![EventIndex(0)])
    );
    assert_eq!(linked_ocel::get_events_from_state(&full, &types, &[]), Ok(vec![EventIndex(0)]));
    assert!(linked_ocel::slot::knows_objects(full.as_ref().unwrap(), &[ObjectIndex(1)]));
    assert!(!linked_ocel::slot::knows_objects(full.as_ref().unwrap(), &[ObjectIndex(2)]));
}

#[test]
fn sizes_compare_by_the_first_component() {
    assert_eq!(compare_sizes(&(1, ObjectIndex(9)), &(2, ObjectIndex(0))), Ordering::Less);
    assert_eq!(compare_sizes(&(2, ObjectIndex(9)), &(2, ObjectIndex(0))), Ordering::Equal);
    assert_eq!(compare_sizes(&(3, ObjectIndex(0)), &(2, ObjectIndex(9))), Ordering::Greater);
}
