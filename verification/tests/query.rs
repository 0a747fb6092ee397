use linked_ocel::query::by_association_size;
use linked_ocel::{
    get_events_of_type_associated_with_objects, type_set, EventIndex, IndexLinkedOCEL, OCELEvent, OCELObject,
    OCELRelationship, OCELType, ObjectIndex, OCEL,
};
use vstd::hash_set::StringHashSet;

fn rel(target: &str, qualifier: &str) -> OCELRelationship {
    OCELRelationship { object_id: target.to_string(), qualifier: qualifier.to_string() }
}

fn event(id: &str, kind: &str, rels: Vec<OCELRelationship>) -> OCELEvent {
    OCELEvent { id: id.to_string(), event_type: kind.to_string(), relationships: Some(rels) }
}

fn object(id: &str, kind: &str) -> OCELObject {
    OCELObject { id: id.to_string(), object_type: kind.to_string(), relationships: None }
}

fn declared(names: &[&str]) -> Vec<OCELType> {
    names.iter().map(|name| OCELType { name: name.to_string() }).collect()
}

fn types(names: &[&str]) -> StringHashSet {
    let names: Vec<String> = names.iter().map(|name| name.to_string()).collect();
    type_set(&names)
}

fn two_orders() -> IndexLinkedOCEL {
    IndexLinkedOCEL::new(OCEL {
        event_types: declared(&["place"]),
        object_types: declared(&["order"]),
        events: vec![
            event("e1", "place", vec![rel("o1", "places"), rel("o2", "places")]),
            event("e2", "place", vec![rel("o1", "places")]),
        ],
        objects: vec![object("o1", "order"), object("o2", "order")],
    })
}

/// Three objects and five events of three types. `item` is on every event,
/// `order` on events 0, 1 and 3, `parcel` on events 3 and 4.
fn shop() -> IndexLinkedOCEL {
    IndexLinkedOCEL::new(OCEL {
        event_types: declared(&["place", "pick", "send", "audit"]),
        object_types: declared(&["item", "order", "parcel"]),
        events: vec![
            event("e0", "place", vec![rel("i", "of"), rel("o", "creates")]),
            event("e1", "pick", vec![rel("o", "for"), rel("i", "takes")]),
            event("e2", "pick", vec![rel("i", "takes")]),
            event("e3", "send", vec![rel("p", "ships"), rel("i", "in"), rel("o", "closes")]),
            event("e4", "send", vec![rel("i", "in"), rel("p", "ships")]),
        ],
        objects: vec![object("i", "item"), object("o", "order"), object("p", "parcel")],
    })
}

const ITEM: ObjectIndex = ObjectIndex(0);
const ORDER: ObjectIndex = ObjectIndex(1);
const PARCEL: ObjectIndex = ObjectIndex(2);

#[test]
fn events_related_to_both_orders() {
    let index = two_orders();
    let found = get_events_of_type_associated_with_objects(
        &index,
        &types(&["place"]),
        &[ObjectIndex(0), ObjectIndex(1)],
    );
    assert_eq!(found, vec![EventIndex(0)]);
}

#[test]
fn events_related_to_one_order() {
    let index = two_orders();
    let found =
        get_events_of_type_associated_with_objects(&index, &types(&["place"]), &[ObjectIndex(0)]);
    assert_eq!(found, vec![EventIndex(0), EventIndex(1)]);
}

#[test]
fn events_without_object_filter() {
    let index = two_orders();
    let found = get_events_of_type_associated_with_objects(&index, &types(&["place"]), &[]);
    assert_eq!(found, vec![EventIndex(0), EventIndex(1)]);
}

#[test]
fn no_objects_gives_all_events_of_the_types() {
    let index = shop();
    let found = get_events_of_type_associated_with_objects(&index, &types(&["pick", "send"]), &[]);
    assert_eq!(found, vec![EventIndex(1), EventIndex(2), EventIndex(3), EventIndex(4)]);
}

#[test]
fn no_objects_gives_the_union_of_the_catalog_lists() {
    let index = shop();
    let found = get_events_of_type_associated_with_objects(&index, &types(&["place", "send"]), &[]);
    let mut union: Vec<EventIndex> = Vec::new();
    union.extend(index.events_of_type("place").unwrap());
    union.extend(index.events_of_type("send").unwrap());
    assert_eq!(found, union);
}

#[test]
fn no_types_gives_no_events() {
    let index = shop();
    assert_eq!(get_events_of_type_associated_with_objects(&index, &types(&[]), &[]), vec![]);
    assert_eq!(get_events_of_type_associated_with_objects(&index, &types(&[]), &[ITEM]), vec![]);
}

#[test]
fn unknown_type_gives_no_events() {
    let index = shop();
    let found = get_events_of_type_associated_with_objects(&index, &types(&["refund"]), &[ITEM]);
    assert_eq!(found, vec![]);
}

#[test]
fn one_object_gives_its_association_list_filtered_by_type() {
    let index = shop();
    let wanted = types(&["place", "send"]);
    let found = get_events_of_type_associated_with_objects(&index, &wanted, &[ORDER]);
    let filtered: Vec<EventIndex> = index
        .events_of_object(&ORDER)
        .unwrap()
        .iter()
        .copied()
        .filter(|e| wanted.contains(index.ev_by_index(e).unwrap().event_type.as_str()))
        .collect();
    assert_eq!(found, filtered);
    assert_eq!(found, vec![EventIndex(0), EventIndex(3)]);
}

#[test]
fn several_objects_give_the_events_they_share() {
    let index = shop();
    let all = types(&["place", "pick", "send", "audit"]);
    assert_eq!(
        get_events_of_type_associated_with_objects(&index, &all, &[ITEM, ORDER]),
        vec![EventIndex(0), EventIndex(1), EventIndex(3)]
    );
    assert_eq!(
        get_events_of_type_associated_with_objects(&index, &all, &[ORDER, PARCEL]),
        vec![EventIndex(3)]
    );
    assert_eq!(
        get_events_of_type_associated_with_objects(&index, &all, &[ITEM, ORDER, PARCEL]),
        vec![EventIndex(3)]
    );
    assert_eq!(
        get_events_of_type_associated_with_objects(&index, &types(&["pick"]), &[ITEM, ORDER, PARCEL]),
        vec![]
    );
}

#[test]
fn order_of_objects_does_not_matter() {
    let index = shop();
    let all = types(&["place", "pick", "send"]);
    let orders: [[ObjectIndex; 3]; 6] = [
        [ITEM, ORDER, PARCEL],
        [ITEM, PARCEL, ORDER],
        [ORDER, ITEM, PARCEL],
        [ORDER, PARCEL, ITEM],
        [PARCEL, ITEM, ORDER],
        [PARCEL, ORDER, ITEM],
    ];
    for objects in orders {
        assert_eq!(
            get_events_of_type_associated_with_objects(&index, &all, &objects),
            vec![EventIndex(3)]
        );
    }
    assert_eq!(
        get_events_of_type_associated_with_objects(&index, &all, &[ITEM, PARCEL]),
        get_events_of_type_associated_with_objects(&index, &all, &[PARCEL, ITEM])
    );
}

#[test]
fn naming_an_object_twice_changes_nothing() {
    let index = shop();
    let all = types(&["place", "pick", "send"]);
    assert_eq!(
        get_events_of_type_associated_with_objects(&index, &all, &[ORDER, ORDER, ITEM, ORDER]),
        get_events_of_type_associated_with_objects(&index, &all, &[ITEM, ORDER])
    );
}

#[test]
fn event_with_two_relationships_to_one_object_is_listed_once() {
    let index = IndexLinkedOCEL::new(OCEL {
        event_types: declared(&["move"]),
        object_types: declared(&["box"]),
        events: vec![
            event("e1", "move", vec![rel("b", "from"), rel("b", "to")]),
            event("e2", "move", vec![rel("b", "to")]),
        ],
        objects: vec![object("b", "box")],
    });
    assert_eq!(
        index.events_of_object(&ObjectIndex(0)).unwrap(),
        &vec![EventIndex(0), EventIndex(0), EventIndex(1)]
    );
    assert_eq!(
        get_events_of_type_associated_with_objects(&index, &types(&["move"]), &[ObjectIndex(0)]),
        vec![EventIndex(0), EventIndex(1)]
    );
}

#[test]
fn object_without_events_empties_the_result() {
    let index = IndexLinkedOCEL::new(OCEL {
        event_types: declared(&["move"]),
        object_types: declared(&["box"]),
        events: vec![event("e1", "move", vec![rel("b", "to")])],
        objects: vec![object("b", "box"), object("idle", "box")],
    });
    let found = get_events_of_type_associated_with_objects(
        &index,
        &types(&["move"]),
        &[ObjectIndex(0), ObjectIndex(1)],
    );
    assert_eq!(found, vec![]);
}

#[test]
fn events_of_undeclared_type_are_still_found_by_type() {
    let index = IndexLinkedOCEL::new(OCEL {
        event_types: declared(&[]),
        object_types: declared(&["order"]),
        events: vec![event("e1", "place", vec![rel("o1", "places")])],
        objects: vec![object("o1", "order")],
    });
    assert!(index.events_of_type("place").is_none());
    assert_eq!(
        get_events_of_type_associated_with_objects(&index, &types(&["place"]), &[]),
        vec![EventIndex(0)]
    );
}

#[test]
fn objects_are_ordered_by_the_length_of_their_lists() {
    let index = shop();
    // item has 5 entries, order 3, parcel 2
    assert_eq!(
        by_association_size(&index, &[ITEM, ORDER, PARCEL]),
        vec![(2, PARCEL), (3, ORDER), (5, ITEM)]
    );
    assert_eq!(by_association_size(&index, &[ITEM, PARCEL]), vec![(2, PARCEL), (5, ITEM)]);
    assert_eq!(by_association_size(&index, &[]), vec![]);
}

#[test]
fn objects_with_equally_long_lists_keep_their_order() {
    let index = two_orders();
    let other = IndexLinkedOCEL::new(OCEL {
        event_types: declared(&["place"]),
        object_types: declared(&["order"]),
        events: vec![event("e1", "place", vec![rel("a", "x"), rel("b", "x"), rel("c", "x")])],
        objects: vec![object("a", "order"), object("b", "order"), object("c", "order")],
    });
    assert_eq!(
        by_association_size(&other, &[ObjectIndex(2), ObjectIndex(0), ObjectIndex(1)]),
        vec![(1, ObjectIndex(2)), (1, ObjectIndex(0)), (1, ObjectIndex(1))]
    );
    assert_eq!(
        by_association_size(&index, &[ObjectIndex(0), ObjectIndex(1), ObjectIndex(0)]),
        vec![(1, ObjectIndex(1)), (2, ObjectIndex(0)), (2, ObjectIndex(0))]
    );
}

#[test]
fn type_set_holds_each_name_once() {
    let set = type_set(&["pay".to_string(), "place".to_string(), "pay".to_string()]);
    assert_eq!(set.len(), 2);
    assert!(set.contains("pay"));
    assert!(set.contains("place"));
    assert!(!set.contains("refund"));
    assert!(type_set(&[]).is_empty());
}
