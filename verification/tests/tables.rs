use linked_ocel::association::get_object_events_map;
use linked_ocel::dangling::malformed_references;
use linked_ocel::relations::directed_relations;
use linked_ocel::resolve::{event_index_map, object_index_map};
use linked_ocel::symmetric::symmetric_closure;
use linked_ocel::{
    get_object_rels_per_type, link_ocel_info, EventIndex, IndexLinkedOCEL, MalformedReference,
    OCELEvent, OCELObject, OCELRelationship, OCELType, ObjectIndex, ObjectOrEventIndex, OCEL,
};
use vstd::hash_map::StringHashMap;

fn rel(target: &str, qualifier: &str) -> OCELRelationship {
    OCELRelationship { object_id: target.to_string(), qualifier: qualifier.to_string() }
}

fn event(id: &str, kind: &str, rels: Vec<OCELRelationship>) -> OCELEvent {
    OCELEvent { id: id.to_string(), event_type: kind.to_string(), relationships: Some(rels) }
}

fn object(id: &str, kind: &str, rels: Vec<OCELRelationship>) -> OCELObject {
    OCELObject { id: id.to_string(), object_type: kind.to_string(), relationships: Some(rels) }
}

fn declared(names: &[&str]) -> Vec<OCELType> {
    names.iter().map(|name| OCELType { name: name.to_string() }).collect()
}

fn entry(node: ObjectOrEventIndex, reversed: bool, qualifier: &str) -> (ObjectOrEventIndex, bool, String) {
    (node, reversed, qualifier.to_string())
}

fn ob(position: usize) -> ObjectOrEventIndex {
    ObjectOrEventIndex::Object(ObjectIndex(position))
}

fn ev(position: usize) -> ObjectOrEventIndex {
    ObjectOrEventIndex::Event(EventIndex(position))
}

/// Orders `o1`, `o2` of a customer `c`; `o2` replaces `o1`. Event `e3`
/// points at an identifier that no object has.
fn orders() -> OCEL {
    OCEL {
        event_types: declared(&["place", "pay", "refund"]),
        object_types: declared(&["order", "customer", "invoice"]),
        events: vec![
            event("e1", "place", vec![rel("o1", "creates"), rel("c", "by")]),
            event("e2", "pay", vec![rel("o1", "settles")]),
            event("e3", "place", vec![rel("missing", "creates"), rel("o2", "creates")]),
        ],
        objects: vec![
            object("o1", "order", vec![rel("c", "ordered by")]),
            object("o2", "order", vec![rel("o1", "replaces"), rel("c", "ordered by"), rel("gone", "x")]),
            OCELObject { id: "c".to_string(), object_type: "customer".to_string(), relationships: None },
        ],
    }
}

#[test]
fn association_list_holds_the_events_that_relate_to_the_object() {
    let index = link_ocel_info(orders());
    assert_eq!(index.events_of_object(&ObjectIndex(0)).unwrap(), &vec![EventIndex(0), EventIndex(1)]);
    assert_eq!(index.events_of_object(&ObjectIndex(1)).unwrap(), &vec![EventIndex(2)]);
    assert_eq!(index.events_of_object(&ObjectIndex(2)).unwrap(), &vec![EventIndex(0)]);
    assert!(index.events_of_object(&ObjectIndex(3)).is_none());
}

#[test]
fn object_relationships_put_no_event_on_a_list() {
    let index = IndexLinkedOCEL::new(OCEL {
        event_types: declared(&[]),
        object_types: declared(&["order"]),
        events: vec![],
        objects: vec![object("a", "order", vec![rel("b", "x")]), object("b", "order", vec![])],
    });
    assert_eq!(index.events_of_object(&ObjectIndex(0)).unwrap(), &vec![]);
    assert_eq!(index.events_of_object(&ObjectIndex(1)).unwrap(), &vec![]);
}

#[test]
fn dangling_reference_is_reported_and_left_out() {
    let index = IndexLinkedOCEL::new(OCEL {
        event_types: declared(&["place"]),
        object_types: declared(&["order"]),
        events: vec![event("e3", "place", vec![rel("missing", "creates")])],
        objects: vec![object("o1", "order", vec![])],
    });
    assert_eq!(
        index.malformed_references(),
        vec![MalformedReference {
            source: ev(0),
            source_id: "e3".to_string(),
            target_id: "missing".to_string(),
        }]
    );
    assert_eq!(index.events_of_object(&ObjectIndex(0)).unwrap(), &vec![]);
    assert!(index.rels_of(&ev(0)).is_none());
    assert!(index.get_symmetric_rels_ev(&EventIndex(0)).is_none());
    assert!(index.get_symmetric_rels_ob(&ObjectIndex(0)).is_none());
}

#[test]
fn dangling_references_are_listed_events_first() {
    let index = link_ocel_info(orders());
    assert_eq!(
        index.malformed_references(),
        vec![
            MalformedReference {
                source: ev(2),
                source_id: "e3".to_string(),
                target_id: "missing".to_string(),
            },
            MalformedReference {
                source: ob(1),
                source_id: "o2".to_string(),
                target_id: "gone".to_string(),
            },
        ]
    );
}

#[test]
fn warning_texts() {
    let of_event = MalformedReference {
        source: ev(2),
        source_id: "e3".to_string(),
        target_id: "missing".to_string(),
    };
    assert_eq!(
        of_event.message(),
        "Malformed OCEL: Event e3 relates to object ID missing, which does not belong to any object."
    );
    let of_object = MalformedReference {
        source: ob(1),
        source_id: "o2".to_string(),
        target_id: "gone".to_string(),
    };
    assert_eq!(
        of_object.message(),
        "Malformed OCEL: Object o2 has relationship to object ID gone, which does not belong to any object"
    );
}

#[test]
fn dangling_references_lower_the_edge_count_only() {
    let index = link_ocel_info(orders());
    // e3 declares two relationships, one of them dangling
    assert_eq!(index.rels_of(&ev(2)).unwrap(), &vec![(ObjectIndex(1), "creates".to_string())]);
    // o2 declares three, one of them dangling
    assert_eq!(
        index.rels_of(&ob(1)).unwrap(),
        &vec![(ObjectIndex(0), "replaces".to_string()), (ObjectIndex(2), "ordered by".to_string())]
    );
    assert_eq!(
        index.rels_of(&ev(0)).unwrap(),
        &vec![(ObjectIndex(0), "creates".to_string()), (ObjectIndex(2), "by".to_string())]
    );
    assert!(index.rels_of(&ob(2)).is_none());
    assert!(index.rels_of(&ev(3)).is_none());
}

#[test]
fn symmetric_entries_come_in_pairs() {
    let index = link_ocel_info(orders());
    let nodes = [ev(0), ev(1), ev(2), ob(0), ob(1), ob(2)];
    let entries_of = |node: &ObjectOrEventIndex| match node {
        ObjectOrEventIndex::Object(o) => index.get_symmetric_rels_ob(o),
        ObjectOrEventIndex::Event(e) => index.get_symmetric_rels_ev(e),
    };
    let mut seen = 0;
    for node in &nodes {
        for (other, reversed, qualifier) in entries_of(node).unwrap() {
            let mirror = (*node, !*reversed, qualifier.clone());
            assert!(entries_of(other).unwrap().contains(&mirror));
            seen += 1;
        }
    }
    // seven edges, two entries each
    assert_eq!(seen, 14);
    for node in &nodes {
        for (target, qualifier) in index.rels_of(node).map(|l| l.as_slice()).unwrap_or(&[]) {
            assert!(entries_of(node).unwrap().contains(&entry(
                ObjectOrEventIndex::Object(*target),
                false,
                qualifier
            )));
            assert!(entries_of(&ObjectOrEventIndex::Object(*target))
                .unwrap()
                .contains(&entry(*node, true, qualifier)));
        }
    }
}

#[test]
fn symmetric_entries_of_each_node() {
    let index = link_ocel_info(orders());
    assert_eq!(
        index.get_symmetric_rels_ev(&EventIndex(0)).unwrap(),
        &vec![entry(ob(0), false, "creates"), entry(ob(2), false, "by")]
    );
    assert_eq!(
        index.get_symmetric_rels_ob(&ObjectIndex(0)).unwrap(),
        &vec![
            entry(ev(0), true, "creates"),
            entry(ev(1), true, "settles"),
            entry(ob(2), false, "ordered by"),
            entry(ob(1), true, "replaces"),
        ]
    );
    assert_eq!(
        index.get_symmetric_rels_ob(&ObjectIndex(2)).unwrap(),
        &vec![entry(ev(0), true, "by"), entry(ob(0), true, "ordered by"), entry(ob(1), true, "ordered by")]
    );
    assert!(index.get_symmetric_rels_ob(&ObjectIndex(3)).is_none());
    assert!(index.get_symmetric_rels_ev(&EventIndex(3)).is_none());
}

#[test]
fn repeated_relationship_is_entered_once_in_the_symmetric_table() {
    let index = IndexLinkedOCEL::new(OCEL {
        event_types: declared(&["move"]),
        object_types: declared(&["box"]),
        events: vec![event("e", "move", vec![rel("b", "to"), rel("b", "from"), rel("b", "to")])],
        objects: vec![object("b", "box", vec![])],
    });
    assert_eq!(
        index.rels_of(&ev(0)).unwrap(),
        &vec![
            (ObjectIndex(0), "to".to_string()),
            (ObjectIndex(0), "from".to_string()),
            (ObjectIndex(0), "to".to_string())
        ]
    );
    assert_eq!(
        index.get_symmetric_rels_ev(&EventIndex(0)).unwrap(),
        &vec![entry(ob(0), false, "to"), entry(ob(0), false, "from")]
    );
    assert_eq!(
        index.get_symmetric_rels_ob(&ObjectIndex(0)).unwrap(),
        &vec![entry(ev(0), true, "to"), entry(ev(0), true, "from")]
    );
}

#[test]
fn object_related_to_itself_has_both_entries() {
    let index = IndexLinkedOCEL::new(OCEL {
        event_types: declared(&[]),
        object_types: declared(&["part"]),
        events: vec![],
        objects: vec![object("p", "part", vec![rel("p", "contains")])],
    });
    assert_eq!(
        index.get_symmetric_rels_ob(&ObjectIndex(0)).unwrap(),
        &vec![entry(ob(0), false, "contains"), entry(ob(0), true, "contains")]
    );
}

#[test]
fn symmetric_closure_of_a_hand_made_table() {
    let ocel = orders();
    let map = object_index_map(&ocel);
    let directed = directed_relations(&ocel, &map);
    let symmetric = symmetric_closure(&directed);
    assert_eq!(symmetric.events.len(), 3);
    assert_eq!(symmetric.objects.len(), 3);
    assert_eq!(symmetric.events[1], vec![entry(ob(0), false, "settles")]);
    assert_eq!(symmetric.get(ev(2)).unwrap(), &vec![entry(ob(1), false, "creates")]);
    assert!(symmetric.get(ev(3)).is_none());
}

#[test]
fn catalog_has_a_list_for_every_declared_type() {
    let index = link_ocel_info(orders());
    assert_eq!(index.events_of_type("place").unwrap(), &vec![EventIndex(0), EventIndex(2)]);
    assert_eq!(index.events_of_type("pay").unwrap(), &vec![EventIndex(1)]);
    assert_eq!(index.events_of_type("refund").unwrap(), &vec![]);
    assert!(index.events_of_type("ship").is_none());
    assert_eq!(index.objects_of_type("order").unwrap(), &vec![ObjectIndex(0), ObjectIndex(1)]);
    assert_eq!(index.objects_of_type("customer").unwrap(), &vec![ObjectIndex(2)]);
    assert_eq!(index.objects_of_type("invoice").unwrap(), &vec![]);
    assert!(index.objects_of_type("place").is_none());
}

#[test]
fn catalog_lists_split_the_entities() {
    let index = link_ocel_info(orders());
    let mut events: Vec<EventIndex> = Vec::new();
    for name in ["place", "pay", "refund"] {
        events.extend(index.events_of_type(name).unwrap());
    }
    events.sort_by_key(|e| e.0);
    assert_eq!(events, vec![EventIndex(0), EventIndex(1), EventIndex(2)]);
    let mut objects: Vec<ObjectIndex> = Vec::new();
    for name in ["order", "customer", "invoice"] {
        objects.extend(index.objects_of_type(name).unwrap());
    }
    objects.sort_by_key(|o| o.0);
    assert_eq!(objects, vec![ObjectIndex(0), ObjectIndex(1), ObjectIndex(2)]);
}

#[test]
fn type_declared_twice_has_one_list() {
    let index = IndexLinkedOCEL::new(OCEL {
        event_types: declared(&["a", "a"]),
        object_types: declared(&[]),
        events: vec![event("e", "a", vec![])],
        objects: vec![],
    });
    assert_eq!(index.events_of_type("a").unwrap(), &vec![EventIndex(0)]);
}

#[test]
fn identifiers_resolve_to_positions() {
    let index = link_ocel_info(orders());
    assert_eq!(index.index_of_ob(&"o1".to_string()), Some(&ObjectIndex(0)));
    assert_eq!(index.index_of_ob(&"c".to_string()), Some(&ObjectIndex(2)));
    assert_eq!(index.index_of_ob(&"missing".to_string()), None);
    assert_eq!(index.index_of_ob(&"e1".to_string()), None);
    assert_eq!(index.index_of_ev(&"e3".to_string()), Some(&EventIndex(2)));
    assert_eq!(index.index_of_ev(&"o1".to_string()), None);
    assert_eq!(index.ob_by_id(&"o2".to_string()).unwrap().id, "o2");
    assert!(index.ob_by_id(&"gone".to_string()).is_none());
}

#[test]
fn every_position_resolves_back_to_its_entity() {
    let index = link_ocel_info(orders());
    for (position, object) in index.ocel().objects.iter().enumerate() {
        assert_eq!(index.index_of_ob(&object.id), Some(&ObjectIndex(position)));
        assert_eq!(index.ob_by_index(&ObjectIndex(position)), Some(object));
    }
    for (position, event) in index.ocel().events.iter().enumerate() {
        assert_eq!(index.index_of_ev(&event.id), Some(&EventIndex(position)));
        assert_eq!(index.ev_by_index(&EventIndex(position)), Some(event));
    }
    assert!(index.ob_by_index(&ObjectIndex(3)).is_none());
    assert!(index.ev_by_index(&EventIndex(3)).is_none());
}

#[test]
fn repeated_identifier_stands_for_its_last_occurrence() {
    let ocel = OCEL {
        event_types: declared(&["t"]),
        object_types: declared(&["x", "y"]),
        events: vec![
            event("e", "t", vec![rel("dup", "q")]),
            event("e", "t", vec![]),
        ],
        objects: vec![object("dup", "x", vec![]), object("other", "x", vec![]), object("dup", "y", vec![])],
    };
    let index = IndexLinkedOCEL::new(ocel);
    assert_eq!(index.index_of_ob(&"dup".to_string()), Some(&ObjectIndex(2)));
    assert_eq!(index.ob_by_id(&"dup".to_string()).unwrap().object_type, "y");
    assert_eq!(index.index_of_ev(&"e".to_string()), Some(&EventIndex(1)));
    assert_eq!(index.events_of_object(&ObjectIndex(0)).unwrap(), &vec![]);
    assert_eq!(index.events_of_object(&ObjectIndex(2)).unwrap(), &vec![EventIndex(0)]);
    assert!(index.malformed_references().is_empty());
}

#[test]
fn index_maps_on_their_own() {
    let ocel = orders();
    let objects = object_index_map(&ocel);
    assert_eq!(objects.len(), 3);
    assert_eq!(objects.get("o2"), Some(&ObjectIndex(1)));
    assert_eq!(objects.get("e1"), None);
    let events = event_index_map(&ocel);
    assert_eq!(events.len(), 3);
    assert_eq!(events.get("e2"), Some(&EventIndex(1)));
}

#[test]
fn relation_summary_per_object_type() {
    let index = link_ocel_info(orders());
    assert_eq!(
        index.object_rels_of_type("order").unwrap(),
        &vec![
            ("ordered by".to_string(), "customer".to_string()),
            ("replaces".to_string(), "order".to_string())
        ]
    );
    assert_eq!(index.object_rels_of_type("customer").unwrap(), &vec![]);
    assert_eq!(index.object_rels_of_type("invoice").unwrap(), &vec![]);
    assert!(index.object_rels_of_type("place").is_none());
}

#[test]
fn relation_summary_through_a_given_table() {
    let ocel = orders();
    let mut table: StringHashMap<ObjectIndex> = StringHashMap::new();
    table.insert("c".to_string(), ObjectIndex(0));
    table.insert("o1".to_string(), ObjectIndex(7));
    let summary = get_object_rels_per_type(&ocel, &table);
    assert_eq!(summary.len(), 3);
    // "c" is sent to the first object, an order; "o1" is sent outside the log
    assert_eq!(summary.get("order").unwrap(), &vec![("ordered by".to_string(), "order".to_string())]);
    assert_eq!(summary.get("customer").unwrap(), &vec![]);
}

#[test]
fn association_lists_through_a_given_table() {
    let ocel = orders();
    let mut table: StringHashMap<ObjectIndex> = StringHashMap::new();
    table.insert("o1".to_string(), ObjectIndex(2));
    table.insert("c".to_string(), ObjectIndex(9));
    let lists = get_object_events_map(&ocel, &table);
    assert_eq!(lists, vec![vec![], vec![], vec![EventIndex(0), EventIndex(1)]]);
    let reported = malformed_references(&ocel, &table);
    let targets: Vec<&str> = reported.iter().map(|r| r.target_id.as_str()).collect();
    assert_eq!(targets, vec!["c", "missing", "o2", "c", "c", "gone"]);
}

#[test]
fn empty_log_has_an_empty_index() {
    let index = link_ocel_info(OCEL {
        event_types: vec![],
        object_types: vec![],
        events: vec![],
        objects: vec![],
    });
    assert!(index.ev_by_index(&EventIndex(0)).is_none());
    assert!(index.events_of_object(&ObjectIndex(0)).is_none());
    assert!(index.events_of_type("a").is_none());
    assert!(index.malformed_references().is_empty());
}
