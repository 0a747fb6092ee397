//! The relation summary: for every object type, the kinds of relationship
//! that its objects have to other objects.

use vstd::prelude::*;
use vstd::hash_map::StringHashMap;
use crate::resolve::lookup;
use crate::index::ObjectIndex;
use crate::log::{declared_relationships, EntityModel, LogModel, OCEL};

verus! {

/// A relationship's qualifier together with the type of the object it points
/// at.
pub type QualifierAndObjectType = (String, String);

/// Relationship `k` of object `o` puts `pair` into the summary of `name`:
/// `o` has type `name`, the relationship's target is a known object, and
/// `pair` is the relationship's qualifier with that object's type.
pub open spec fn contributes(
    table: Map<Seq<char>, ObjectIndex>,
    objects: Seq<EntityModel>,
    name: Seq<char>,
    o: int,
    k: int,
    pair: (Seq<char>, Seq<char>),
) -> bool {
    &&& 0 <= o < objects.len()
    &&& objects[o].kind == name
    &&& 0 <= k < objects[o].relationships.len()
    &&& match lookup(table, objects[o].relationships[k].object_id) {
        Some(target) => target.0 < objects.len() && pair == (
            objects[o].relationships[k].qualifier,
            objects[target.0 as int].kind,
        ),
        None => false,
    }
}

/// The summary of `name`: the pairs that some relationship of some object of
/// that type contributes.
pub open spec fn summary_via(
    table: Map<Seq<char>, ObjectIndex>,
    objects: Seq<EntityModel>,
    name: Seq<char>,
) -> Set<(Seq<char>, Seq<char>)> {
    Set::new(
        |pair: (Seq<char>, Seq<char>)|
            exists|o: int, k: int| #[trigger] contributes(table, objects, name, o, k, pair),
    )
}

impl LogModel {
    /// The distinct (qualifier, target type) pairs among the resolved
    /// object-to-object relationships of the objects of type `name`.
    pub open spec fn relation_summary(self, name: Seq<char>) -> Set<(Seq<char>, Seq<char>)> {
        summary_via(self.object_index(), self.objects, name)
    }
}

/// The mathematical content of a list of pairs.
pub open spec fn pair_views(list: Seq<QualifierAndObjectType>) -> Seq<(Seq<char>, Seq<char>)> {
    list.map_values(|pair: QualifierAndObjectType| (pair.0@, pair.1@))
}

/// `pair` is contributed by a relationship that comes before relationship
/// `k` of object `o`.
spec fn contributed_before(
    table: Map<Seq<char>, ObjectIndex>,
    objects: Seq<EntityModel>,
    name: Seq<char>,
    o: int,
    k: int,
    pair: (Seq<char>, Seq<char>),
) -> bool {
    exists|i: int, j: int|
        (i < o || (i == o && j < k)) && #[trigger] contributes(table, objects, name, i, j, pair)
}

/// Adds `pair` to a list without repetition unless the list holds it.
fn insert_pair(list: &mut Vec<QualifierAndObjectType>, pair: QualifierAndObjectType)
    requires
        pair_views(old(list)@).no_duplicates(),
    ensures
        pair_views(final(list)@).no_duplicates(),
        forall|other: (Seq<char>, Seq<char>)| #[trigger]
            pair_views(final(list)@).contains(other) <==> pair_views(old(list)@).contains(other)
                || other == (pair.0@, pair.1@),
{
    let ghost before = pair_views(list@);
    let ghost fresh = (pair.0@, pair.1@);
    let mut i: usize = 0;
    while i < list.len()
        invariant
            i <= list@.len(),
            before == pair_views(list@),
            before.no_duplicates(),
            fresh == (pair.0@, pair.1@),
            forall|j: int| 0 <= j < i ==> before[j] != fresh,
        decreases list@.len() - i,
    {
        if list[i].0 == pair.0 && list[i].1 == pair.1 {
            assert(before[i as int] == fresh);
            return ;
        }
        i += 1;
    }
    list.push(pair);
    proof {
        let after = pair_views(list@);
        assert(after =~= before.push(fresh));
        assert forall|a: int, b: int| 0 <= a < after.len() && 0 <= b < after.len() && a != b implies after[a]
            != after[b] by {}
        assert forall|other: (Seq<char>, Seq<char>)| #[trigger]
            after.contains(other) <==> before.contains(other) || other == fresh by {
            if after.contains(other) {
                let a = choose|a: int| 0 <= a < after.len() && after[a] == other;
                if a < before.len() {
                    assert(before[a] == other);
                }
            }
            if before.contains(other) {
                let a = choose|a: int| 0 <= a < before.len() && before[a] == other;
                assert(after[a] == other);
            }
            if other == fresh {
                assert(after[before.len() as int] == other);
            }
        }
    }
}

/// The summary of one object type.
fn summarize_type(ocel: &OCEL, object_map: &StringHashMap<ObjectIndex>, name: &String) -> (list:
    Vec<QualifierAndObjectType>)
    ensures
        pair_views(list@).no_duplicates(),
        pair_views(list@).to_set() == summary_via(object_map@, ocel@.objects, name@),
{
    let ghost table = object_map@;
    let ghost objects = ocel@.objects;
    let n = ocel.objects.len();
    let mut list: Vec<QualifierAndObjectType> = Vec::new();
    let mut o: usize = 0;
    while o < n
        invariant
            o <= n,
            n == ocel.objects.len(),
            table == object_map@,
            objects == ocel@.objects,
            pair_views(list@).no_duplicates(),
            forall|pair: (Seq<char>, Seq<char>)| #[trigger]
                pair_views(list@).contains(pair) <==> contributed_before(
                    table,
                    objects,
                    name@,
                    o as int,
                    0,
                    pair,
                ),
        decreases n - o,
    {
        if ocel.objects[o].object_type == *name {
            let rels = declared_relationships(&ocel.objects[o].relationships);
            let ghost models = objects[o as int].relationships;
            let mut k: usize = 0;
            while k < rels.len()
                invariant
                    k <= rels@.len(),
                    o < n,
                    n == ocel.objects.len(),
                    table == object_map@,
                    objects == ocel@.objects,
                    objects[o as int].kind == name@,
                    models == objects[o as int].relationships,
                    models.len() == rels@.len(),
                    forall|j: int| 0 <= j < rels@.len() ==> models[j] == (#[trigger] rels@[j])@,
                    pair_views(list@).no_duplicates(),
                    forall|pair: (Seq<char>, Seq<char>)| #[trigger]
                        pair_views(list@).contains(pair) <==> contributed_before(
                            table,
                            objects,
                            name@,
                            o as int,
                            k as int,
                            pair,
                        ),
                decreases rels@.len() - k,
            {
                let ghost before = pair_views(list@);
                match object_map.get(rels[k].object_id.as_str()) {
                    Some(target) => {
                        if target.0 < n {
                            insert_pair(
                                &mut list,
                                (rels[k].qualifier.clone(), ocel.objects[target.0].object_type.clone()),
                            );
                        }
                    },
                    None => {},
                }
                proof {
                    assert forall|pair: (Seq<char>, Seq<char>)| #[trigger]
                        pair_views(list@).contains(pair) <==> contributed_before(
                            table,
                            objects,
                            name@,
                            o as int,
                            k + 1,
                            pair,
                        ) by {
                        assert(before.contains(pair) <==> contributed_before(
                            table,
                            objects,
                            name@,
                            o as int,
                            k as int,
                            pair,
                        ));
                        lemma_next_relationship(table, objects, name@, o as int, k as int, pair);
                    }
                }
                k += 1;
            }
            proof {
                assert forall|pair: (Seq<char>, Seq<char>)| #[trigger]
                    pair_views(list@).contains(pair) <==> contributed_before(
                        table,
                        objects,
                        name@,
                        o + 1,
                        0,
                        pair,
                    ) by {
                    lemma_next_object(table, objects, name@, o as int, k as int, pair);
                }
            }
        } else {
            proof {
                assert forall|pair: (Seq<char>, Seq<char>)| #[trigger]
                    pair_views(list@).contains(pair) <==> contributed_before(
                        table,
                        objects,
                        name@,
                        o + 1,
                        0,
                        pair,
                    ) by {
                    lemma_next_object(table, objects, name@, o as int, 0, pair);
                }
            }
        }
        o += 1;
    }
    proof {
        let target = summary_via(table, objects, name@);
        assert forall|pair: (Seq<char>, Seq<char>)|
            pair_views(list@).to_set().contains(pair) <==> target.contains(pair) by {
            assert(pair_views(list@).contains(pair) <==> contributed_before(
                table,
                objects,
                name@,
                n as int,
                0,
                pair,
            ));
            if target.contains(pair) {
                let (i, j) = choose|i: int, j: int| #[trigger]
                    contributes(table, objects, name@, i, j, pair);
                assert(contributes(table, objects, name@, i, j, pair));
                assert(i < n);
            }
            if contributed_before(table, objects, name@, n as int, 0, pair) {
                let (i, j) = choose|i: int, j: int|
                    (i < n || (i == n && j < 0)) && #[trigger] contributes(
                        table,
                        objects,
                        name@,
                        i,
                        j,
                        pair,
                    );
                assert(contributes(table, objects, name@, i, j, pair));
            }
        }
        assert(pair_views(list@).to_set() =~= target);
    }
    list
}

/// Going past relationship `k` of object `o` adds what that relationship
/// contributes.
proof fn lemma_next_relationship(
    table: Map<Seq<char>, ObjectIndex>,
    objects: Seq<EntityModel>,
    name: Seq<char>,
    o: int,
    k: int,
    pair: (Seq<char>, Seq<char>),
)
    ensures
        contributed_before(table, objects, name, o, k + 1, pair) <==> contributed_before(
            table,
            objects,
            name,
            o,
            k,
            pair,
        ) || contributes(table, objects, name, o, k, pair),
{
    if contributed_before(table, objects, name, o, k + 1, pair) {
        let (i, j) = choose|i: int, j: int|
            (i < o || (i == o && j < k + 1)) && #[trigger] contributes(
                table,
                objects,
                name,
                i,
                j,
                pair,
            );
        if !(i == o && j == k) {
            assert((i < o || (i == o && j < k)) && contributes(table, objects, name, i, j, pair));
        }
    }
    if contributed_before(table, objects, name, o, k, pair) {
        let (i, j) = choose|i: int, j: int|
            (i < o || (i == o && j < k)) && #[trigger] contributes(table, objects, name, i, j, pair);
        assert((i < o || (i == o && j < k + 1)) && contributes(table, objects, name, i, j, pair));
    }
    if contributes(table, objects, name, o, k, pair) {
        assert((o < o || (o == o && k < k + 1)) && contributes(table, objects, name, o, k, pair));
    }
}

/// Going on to the next object adds nothing, once the relationships of `o`
/// that can contribute lie before `k`.
proof fn lemma_next_object(
    table: Map<Seq<char>, ObjectIndex>,
    objects: Seq<EntityModel>,
    name: Seq<char>,
    o: int,
    k: int,
    pair: (Seq<char>, Seq<char>),
)
    requires
        0 <= o < objects.len(),
        0 <= k,
        objects[o].kind != name || k >= objects[o].relationships.len(),
    ensures
        contributed_before(table, objects, name, o + 1, 0, pair) <==> contributed_before(
            table,
            objects,
            name,
            o,
            k,
            pair,
        ),
{
    if contributed_before(table, objects, name, o + 1, 0, pair) {
        let (i, j) = choose|i: int, j: int|
            (i < o + 1 || (i == o + 1 && j < 0)) && #[trigger] contributes(
                table,
                objects,
                name,
                i,
                j,
                pair,
            );
        assert((i < o || (i == o && j < k)) && contributes(table, objects, name, i, j, pair));
    }
    if contributed_before(table, objects, name, o, k, pair) {
        let (i, j) = choose|i: int, j: int|
            (i < o || (i == o && j < k)) && #[trigger] contributes(table, objects, name, i, j, pair);
        assert((i < o + 1 || (i == o + 1 && j < 0)) && contributes(
            table,
            objects,
            name,
            i,
            j,
            pair,
        ));
    }
}

/// Summarises the object-to-object relationships of `ocel` by object type:
/// one set per declared object type, holding each (qualifier, target type)
/// pair that an object of that type has, once. Relationships whose target
/// `object_map` does not know, or sends outside the object list, are passed
/// over.
pub fn get_object_rels_per_type(ocel: &OCEL, object_map: &StringHashMap<ObjectIndex>) -> (summary:
    StringHashMap<Vec<QualifierAndObjectType>>)
    ensures
        forall|name: Seq<char>| #[trigger]
            summary@.contains_key(name) <==> ocel@.object_types.contains(name),
        forall|name: Seq<char>| #[trigger]
            summary@.contains_key(name) ==> pair_views(summary@[name]@).no_duplicates()
                && pair_views(summary@[name]@).to_set() == summary_via(
                object_map@,
                ocel@.objects,
                name,
            ),
{
    let ghost declared = ocel@.object_types;
    let mut summary: StringHashMap<Vec<QualifierAndObjectType>> = StringHashMap::new();
    let mut t: usize = 0;
    while t < ocel.object_types.len()
        invariant
            t <= ocel.object_types.len(),
            declared == ocel@.object_types,
            forall|name: Seq<char>| #[trigger]
                summary@.contains_key(name) <==> declared.take(t as int).contains(name),
            forall|name: Seq<char>| #[trigger]
                summary@.contains_key(name) ==> pair_views(summary@[name]@).no_duplicates()
                    && pair_views(summary@[name]@).to_set() == summary_via(
                    object_map@,
                    ocel@.objects,
                    name,
                ),
        decreases ocel.object_types.len() - t,
    {
        let name = &ocel.object_types[t].name;
        let list = summarize_type(ocel, object_map, name);
        let ghost before = summary@;
        summary.insert(name.clone(), list);
        proof {
            let fresh = declared[t as int];
            let sooner = declared.take(t as int);
            let later = declared.take(t + 1);
            assert(fresh == name@);
            assert forall|other: Seq<char>| #[trigger]
                summary@.contains_key(other) <==> later.contains(other) by {
                if later.contains(other) {
                    let j = choose|j: int| 0 <= j < later.len() && later[j] == other;
                    if j < t {
                        assert(sooner[j] == other);
                    }
                }
                if other != fresh && before.contains_key(other) {
                    let j = choose|j: int| 0 <= j < sooner.len() && sooner[j] == other;
                    assert(later[j] == other);
                }
                if other == fresh {
                    assert(later[t as int] == other);
                }
            }
        }
        t += 1;
    }
    assert(declared.take(t as int) =~= declared);
    summary
}

} // verus!
