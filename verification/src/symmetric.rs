//! The symmetric relation table: every directed edge, reachable from both of
//! its ends.
//!
//! An edge from `a` to `b` with qualifier `q` is entered twice: at `a` as
//! `(b, false, q)` and at `b` as `(a, true, q)`. The flag says that the entry
//! runs against the edge.

use vstd::prelude::*;
use crate::index::{EventIndex, ObjectIndex, ObjectOrEventIndex};
use crate::relations::{edge_views, relation_model, NodeTable, RelationModel};

verus! {

impl RelationModel {
    /// `entry` is an entry of `node` in the symmetric table: either an edge
    /// that leaves `node`, or one that arrives at it, read backwards.
    pub open spec fn links(
        self,
        node: ObjectOrEventIndex,
        entry: (ObjectOrEventIndex, bool, Seq<char>),
    ) -> bool {
        if entry.1 {
            node matches ObjectOrEventIndex::Object(o) && self.has_edge(entry.0, o, entry.2)
        } else {
            entry.0 matches ObjectOrEventIndex::Object(o) && self.has_edge(node, o, entry.2)
        }
    }

    /// The entries of `node` in the symmetric table.
    pub open spec fn symmetric(self, node: ObjectOrEventIndex) -> Set<
        (ObjectOrEventIndex, bool, Seq<char>),
    > {
        Set::new(|entry: (ObjectOrEventIndex, bool, Seq<char>)| self.links(node, entry))
    }
}

/// The mathematical content of a list of symmetric entries.
pub open spec fn entry_views(list: Seq<(ObjectOrEventIndex, bool, String)>) -> Seq<
    (ObjectOrEventIndex, bool, Seq<char>),
> {
    list.map_values(|entry: (ObjectOrEventIndex, bool, String)| (entry.0, entry.1, entry.2@))
}

/// In the symmetric table every edge has both of its entries and every entry
/// has its edge: `(b, false, q)` is entered at `a` exactly when there is an
/// edge from `a` to `b` with qualifier `q`, and exactly then `(a, true, q)`
/// is entered at `b`.
pub proof fn lemma_symmetric_pairs(
    model: RelationModel,
    a: ObjectOrEventIndex,
    b: ObjectIndex,
    qualifier: Seq<char>,
)
    ensures
        model.has_edge(a, b, qualifier) <==> model.symmetric(a).contains(
            (ObjectOrEventIndex::Object(b), false, qualifier),
        ),
        model.has_edge(a, b, qualifier) <==> model.symmetric(ObjectOrEventIndex::Object(b)).contains(
            (a, true, qualifier),
        ),
{
}

/// Every entry of the symmetric table has its mirror image: an entry
/// `(other, flag, q)` at `node` comes with the entry `(node, !flag, q)` at
/// `other`.
pub proof fn lemma_symmetric_mirrored(
    model: RelationModel,
    node: ObjectOrEventIndex,
    entry: (ObjectOrEventIndex, bool, Seq<char>),
)
    requires
        model.symmetric(node).contains(entry),
    ensures
        model.symmetric(entry.0).contains((node, !entry.1, entry.2)),
{
}

/// How far the closure has come: the sources before `events` and `objects`
/// are done, and of `current` the first `edges` edges.
struct Progress {
    events: int,
    objects: int,
    current: ObjectOrEventIndex,
    edges: int,
}

/// The number of edges of `node` that have been entered.
spec fn done(model: RelationModel, p: Progress, node: ObjectOrEventIndex) -> int {
    let finished = match node {
        ObjectOrEventIndex::Object(o) => o.0 < p.objects,
        ObjectOrEventIndex::Event(e) => e.0 < p.events,
    };
    if finished {
        model.edges(node).len() as int
    } else if node == p.current {
        p.edges
    } else {
        0
    }
}

/// One of the first `upto` edges of `source` goes to `target` with this
/// qualifier.
spec fn edge_before(
    model: RelationModel,
    source: ObjectOrEventIndex,
    upto: int,
    target: ObjectIndex,
    qualifier: Seq<char>,
) -> bool {
    exists|k: int|
        0 <= k < upto && k < model.edges(source).len() && #[trigger] model.edges(source)[k] == (
            target,
            qualifier,
        )
}

/// `entry` belongs at `node` on account of an edge entered so far.
spec fn linked_so_far(
    model: RelationModel,
    p: Progress,
    node: ObjectOrEventIndex,
    entry: (ObjectOrEventIndex, bool, Seq<char>),
) -> bool {
    if entry.1 {
        node matches ObjectOrEventIndex::Object(o) && edge_before(
            model,
            entry.0,
            done(model, p, entry.0),
            o,
            entry.2,
        )
    } else {
        entry.0 matches ObjectOrEventIndex::Object(o) && edge_before(
            model,
            node,
            done(model, p, node),
            o,
            entry.2,
        )
    }
}

/// `entry` is listed at `node`.
spec fn listed(
    table: NodeTable<Vec<(ObjectOrEventIndex, bool, String)>>,
    node: ObjectOrEventIndex,
    entry: (ObjectOrEventIndex, bool, Seq<char>),
) -> bool {
    entry_views(table.at(node)@).contains(entry)
}

/// The table holds, without repetition, exactly the entries of the edges
/// entered so far.
spec fn closed(
    table: NodeTable<Vec<(ObjectOrEventIndex, bool, String)>>,
    model: RelationModel,
    p: Progress,
) -> bool {
    &&& table.events@.len() == model.events.len()
    &&& table.objects@.len() == model.objects.len()
    &&& forall|node: ObjectOrEventIndex|
        table.has(node) ==> #[trigger] entry_views(table.at(node)@).no_duplicates()
    &&& forall|node: ObjectOrEventIndex, entry: (ObjectOrEventIndex, bool, Seq<char>)|
        table.has(node) ==> (#[trigger] listed(table, node, entry) <==> linked_so_far(
            model,
            p,
            node,
            entry,
        ))
}

/// Two states of progress that agree on every node describe the same table.
proof fn lemma_same_progress(
    table: NodeTable<Vec<(ObjectOrEventIndex, bool, String)>>,
    model: RelationModel,
    p: Progress,
    q: Progress,
)
    requires
        closed(table, model, p),
        forall|node: ObjectOrEventIndex| #[trigger] done(model, p, node) == done(model, q, node),
    ensures
        closed(table, model, q),
{
    assert forall|node: ObjectOrEventIndex, entry: (ObjectOrEventIndex, bool, Seq<char>)|
        table.has(node) implies (#[trigger] listed(table, node, entry) <==> linked_so_far(
        model,
        q,
        node,
        entry,
    )) by {
        assert(done(model, p, node) == done(model, q, node));
        assert(done(model, p, entry.0) == done(model, q, entry.0));
        assert(linked_so_far(model, p, node, entry) == linked_so_far(model, q, node, entry));
    }
}

/// Whether the edge at `k` repeats an earlier edge of the same list.
fn repeats_earlier(edges: &Vec<(ObjectIndex, String)>, k: usize) -> (repeated: bool)
    requires
        k < edges@.len(),
    ensures
        repeated <==> exists|j: int| 0 <= j < k && #[trigger] edge_views(edges@)[j] == edge_views(edges@)[k as int],
{
    let mut j: usize = 0;
    while j < k
        invariant
            j <= k < edges@.len(),
            forall|i: int| 0 <= i < j ==> #[trigger] edge_views(edges@)[i] != edge_views(edges@)[k as int],
        decreases k - j,
    {
        if edges[j].0 == edges[k].0 && edges[j].1 == edges[k].1 {
            assert(edge_views(edges@)[j as int] == edge_views(edges@)[k as int]);
            return true;
        }
        j += 1;
    }
    false
}

/// Appending to a list without repetition an item that it lacks leaves it
/// without repetition, and adds that item and no other.
proof fn lemma_push_fresh<A>(list: Seq<A>, item: A)
    requires
        list.no_duplicates(),
        !list.contains(item),
    ensures
        list.push(item).no_duplicates(),
        forall|other: A| #[trigger] list.push(item).contains(other) <==> list.contains(other) || other == item,
{
    let longer = list.push(item);
    assert forall|i: int, j: int| 0 <= i < longer.len() && 0 <= j < longer.len() && i != j implies longer[i]
        != longer[j] by {
        if i < list.len() {
            assert(list.contains(list[i]));
        }
        if j < list.len() {
            assert(list.contains(list[j]));
        }
    }
    assert forall|other: A| #[trigger] longer.contains(other) <==> list.contains(other) || other == item by {
        if longer.contains(other) {
            let i = choose|i: int| 0 <= i < longer.len() && longer[i] == other;
            if i < list.len() {
                assert(list[i] == other);
            }
        }
        if list.contains(other) {
            let i = choose|i: int| 0 <= i < list.len() && list[i] == other;
            assert(longer[i] == other);
        }
        if other == item {
            assert(longer[list.len() as int] == other);
        }
    }
}

/// Appends one entry to the list of `node` and leaves the other lists alone.
fn add_entry(
    table: &mut NodeTable<Vec<(ObjectOrEventIndex, bool, String)>>,
    node: ObjectOrEventIndex,
    other: ObjectOrEventIndex,
    reversed: bool,
    qualifier: String,
)
    requires
        old(table).has(node),
    ensures
        final(table).events@.len() == old(table).events@.len(),
        final(table).objects@.len() == old(table).objects@.len(),
        entry_views(final(table).at(node)@) == entry_views(old(table).at(node)@).push(
            (other, reversed, qualifier@),
        ),
        forall|n: ObjectOrEventIndex|
            n != node && old(table).has(n) ==> #[trigger] final(table).at(n) == old(table).at(n),
{
    let ghost before = entry_views(table.at(node)@);
    match node {
        ObjectOrEventIndex::Object(o) => {
            table.objects[o.0].push((other, reversed, qualifier));
        },
        ObjectOrEventIndex::Event(e) => {
            table.events[e.0].push((other, reversed, qualifier));
        },
    }
    assert(entry_views(table.at(node)@) =~= before.push((other, reversed, qualifier@)));
}

/// Enters edge `k` of `source` at both of its ends, unless an earlier edge of
/// `source` has entered it already.
fn enter_edge(
    table: &mut NodeTable<Vec<(ObjectOrEventIndex, bool, String)>>,
    edges: &Vec<(ObjectIndex, String)>,
    source: ObjectOrEventIndex,
    k: usize,
    Ghost(model): Ghost<RelationModel>,
    Ghost(p): Ghost<Progress>,
)
    requires
        closed(*old(table), model, p),
        model.targets_in_range(),
        model.has(source),
        edge_views(edges@) == model.edges(source),
        k < edges@.len(),
        p.current == source,
        p.edges == k,
        done(model, p, source) == k,
    ensures
        closed(
            *final(table),
            model,
            (Progress { events: p.events, objects: p.objects, current: p.current, edges: k + 1 }),
        ),
{
    let ghost start = *table;
    let ghost next = Progress {
        events: p.events,
        objects: p.objects,
        current: p.current,
        edges: k + 1,
    };
    let ghost target = edges@[k as int].0;
    let ghost qualifier = edges@[k as int].1@;
    let ghost forward = (ObjectOrEventIndex::Object(target), false, qualifier);
    let ghost backward = (source, true, qualifier);
    let ghost far = ObjectOrEventIndex::Object(target);
    assert(model.edges(source)[k as int] == (target, qualifier));
    assert(edge_views(edges@)[k as int] == (target, qualifier));
    let repeated = repeats_earlier(edges, k);
    proof {
        if repeated {
            let j = choose|j: int|
                0 <= j < k && #[trigger] edge_views(edges@)[j] == edge_views(edges@)[k as int];
            assert(model.edges(source)[j] == (target, qualifier));
        }
        assert(repeated <==> edge_before(model, source, k as int, target, qualifier));
        // What the new state of progress adds to the old one.
        assert forall|node: ObjectOrEventIndex, entry: (ObjectOrEventIndex, bool, Seq<char>)|
            #[trigger]
            linked_so_far(model, next, node, entry) <==> linked_so_far(model, p, node, entry) || (
            node == source && entry == forward) || (node == far && entry == backward) by {
            lemma_one_more_edge(model, p, next, source, k as int, node, entry);
        }
    }
    if !repeated {
        assert(target.0 < model.objects.len());
        let near = ObjectOrEventIndex::Object(edges[k].0);
        add_entry(table, source, near, false, edges[k].1.clone());
        let ghost middle = *table;
        add_entry(table, near, source, true, edges[k].1.clone());
        proof {
            assert(!listed(start, source, forward));
            assert(!listed(start, far, backward));
            let first = entry_views(start.at(source)@);
            lemma_push_fresh(first, forward);
            let second = entry_views(middle.at(far)@);
            assert(!second.contains(backward)) by {
                if far == source {
                    assert(second == first.push(forward));
                } else {
                    assert(middle.at(far) == start.at(far));
                }
            }
            assert(second.no_duplicates()) by {
                if far != source {
                    assert(middle.at(far) == start.at(far));
                }
            }
            lemma_push_fresh(second, backward);
            assert forall|node: ObjectOrEventIndex| table.has(node) implies #[trigger] entry_views(
                table.at(node)@,
            ).no_duplicates() by {
                if node != far {
                    assert(table.at(node) == middle.at(node));
                    if node != source {
                        assert(middle.at(node) == start.at(node));
                    }
                }
            }
            assert forall|node: ObjectOrEventIndex, entry: (ObjectOrEventIndex, bool, Seq<char>)|
                table.has(node) implies (#[trigger] listed(*table, node, entry) <==> linked_so_far(
                model,
                next,
                node,
                entry,
            )) by {
                assert(listed(start, node, entry) <==> linked_so_far(model, p, node, entry));
                if node != far {
                    assert(table.at(node) == middle.at(node));
                }
                if node != source {
                    assert(middle.at(node) == start.at(node));
                }
            }
        }
    } else {
        proof {
            assert forall|node: ObjectOrEventIndex, entry: (ObjectOrEventIndex, bool, Seq<char>)|
                table.has(node) implies (#[trigger] listed(*table, node, entry) <==> linked_so_far(
                model,
                next,
                node,
                entry,
            )) by {
                assert(listed(start, node, entry) <==> linked_so_far(model, p, node, entry));
                if node == source && entry == forward {
                    assert(linked_so_far(model, p, node, entry));
                }
                if node == far && entry == backward {
                    assert(linked_so_far(model, p, node, entry));
                }
            }
        }
    }
}

/// Entering edge `k` of `source` adds its two entries and nothing else.
proof fn lemma_one_more_edge(
    model: RelationModel,
    p: Progress,
    next: Progress,
    source: ObjectOrEventIndex,
    k: int,
    node: ObjectOrEventIndex,
    entry: (ObjectOrEventIndex, bool, Seq<char>),
)
    requires
        0 <= k < model.edges(source).len(),
        p.current == source,
        done(model, p, source) == k,
        p.edges == k,
        next == (Progress { events: p.events, objects: p.objects, current: p.current, edges: k + 1 }),
    ensures
        linked_so_far(model, next, node, entry) <==> linked_so_far(model, p, node, entry) || (node
            == source && entry == (
            ObjectOrEventIndex::Object(model.edges(source)[k].0),
            false,
            model.edges(source)[k].1,
        )) || (node == ObjectOrEventIndex::Object(model.edges(source)[k].0) && entry == (
            source,
            true,
            model.edges(source)[k].1,
        )),
{
    let edge = model.edges(source)[k];
    assert(done(model, next, source) == k + 1);
    assert forall|other: ObjectOrEventIndex| other != source implies done(model, next, other)
        == done(model, p, other) by {}
    assert forall|target: ObjectIndex, qualifier: Seq<char>|
        edge_before(model, source, k + 1, target, qualifier) <==> edge_before(
            model,
            source,
            k,
            target,
            qualifier,
        ) || edge == (target, qualifier) by {
        if edge_before(model, source, k + 1, target, qualifier) {
            let j = choose|j: int|
                0 <= j < k + 1 && j < model.edges(source).len() && #[trigger] model.edges(source)[j]
                    == (target, qualifier);
            if j < k {
                assert(edge_before(model, source, k, target, qualifier));
            }
        }
        if edge_before(model, source, k, target, qualifier) {
            let j = choose|j: int|
                0 <= j < k && j < model.edges(source).len() && #[trigger] model.edges(source)[j]
                    == (target, qualifier);
            assert(0 <= j < k + 1);
        }
        if edge == (target, qualifier) {
            assert(model.edges(source)[k] == (target, qualifier));
        }
    }
    if entry.1 {
        if entry.0 != source {
            assert(done(model, next, entry.0) == done(model, p, entry.0));
        }
    } else {
        if node != source {
            assert(done(model, next, node) == done(model, p, node));
        }
    }
}

/// `count` empty lists.
fn empty_lists(count: usize) -> (lists: Vec<Vec<(ObjectOrEventIndex, bool, String)>>)
    ensures
        lists@.len() == count,
        forall|i: int| 0 <= i < count ==> (#[trigger] lists@[i])@.len() == 0,
{
    let mut lists: Vec<Vec<(ObjectOrEventIndex, bool, String)>> = Vec::new();
    let mut i: usize = 0;
    while i < count
        invariant
            i <= count,
            lists@.len() == i,
            forall|j: int| 0 <= j < i ==> (#[trigger] lists@[j])@.len() == 0,
        decreases count - i,
    {
        lists.push(Vec::new());
        i += 1;
    }
    lists
}

/// Once every source is done, the entries entered are the entries of the
/// symmetric table.
proof fn lemma_all_done(
    model: RelationModel,
    p: Progress,
    node: ObjectOrEventIndex,
    entry: (ObjectOrEventIndex, bool, Seq<char>),
)
    requires
        p.events == model.events.len(),
        p.objects == model.objects.len(),
        p.edges == 0,
    ensures
        linked_so_far(model, p, node, entry) <==> model.links(node, entry),
{
    assert forall|source: ObjectOrEventIndex, target: ObjectIndex, qualifier: Seq<char>|
        edge_before(model, source, done(model, p, source), target, qualifier) <==> model.has_edge(
            source,
            target,
            qualifier,
        ) by {
        let edges = model.edges(source);
        if model.has_edge(source, target, qualifier) {
            let k = choose|k: int| 0 <= k < edges.len() && edges[k] == (target, qualifier);
            assert(model.edges(source)[k] == (target, qualifier));
            assert(done(model, p, source) == edges.len());
        }
    }
}

/// Derives the symmetric relation table from a directed one: every edge is
/// entered at its source and, reversed, at its target. Edges that a source
/// holds twice are entered once.
pub fn symmetric_closure(directed: &NodeTable<Vec<(ObjectIndex, String)>>) -> (table: NodeTable<
    Vec<(ObjectOrEventIndex, bool, String)>,
>)
    requires
        relation_model(*directed).targets_in_range(),
    ensures
        table.events@.len() == directed.events@.len(),
        table.objects@.len() == directed.objects@.len(),
        forall|node: ObjectOrEventIndex|
            table.has(node) ==> (#[trigger] entry_views(table.at(node)@)).no_duplicates()
                && entry_views(table.at(node)@).to_set() == relation_model(*directed).symmetric(
                node,
            ),
{
    let ghost model = relation_model(*directed);
    let event_count = directed.events.len();
    let object_count = directed.objects.len();
    let mut table = NodeTable {
        events: empty_lists(event_count),
        objects: empty_lists(object_count),
    };
    let ghost none = Progress {
        events: 0,
        objects: 0,
        current: ObjectOrEventIndex::Event(EventIndex(0)),
        edges: 0,
    };
    proof {
        assert forall|node: ObjectOrEventIndex| table.has(node) implies #[trigger] entry_views(
            table.at(node)@,
        ).no_duplicates() by {
            assert(entry_views(table.at(node)@).len() == 0);
        }
        assert forall|node: ObjectOrEventIndex, entry: (ObjectOrEventIndex, bool, Seq<char>)|
            table.has(node) implies (#[trigger] listed(table, node, entry) <==> linked_so_far(
            model,
            none,
            node,
            entry,
        )) by {
            assert(entry_views(table.at(node)@).len() == 0);
            assert(done(model, none, node) == 0);
            assert(done(model, none, entry.0) == 0);
        }
    }
    let mut e: usize = 0;
    while e < event_count
        invariant
            e <= event_count,
            event_count == directed.events@.len(),
            object_count == directed.objects@.len(),
            model == relation_model(*directed),
            model.targets_in_range(),
            closed(
                table,
                model,
                (Progress {
                    events: e as int,
                    objects: 0,
                    current: ObjectOrEventIndex::Event(EventIndex(e)),
                    edges: 0,
                }),
            ),
        decreases event_count - e,
    {
        let source = ObjectOrEventIndex::Event(EventIndex(e));
        let edges = &directed.events[e];
        let mut k: usize = 0;
        while k < edges.len()
            invariant
                k <= edges@.len(),
                e < event_count,
                event_count == directed.events@.len(),
                model == relation_model(*directed),
                model.targets_in_range(),
                source == ObjectOrEventIndex::Event(EventIndex(e)),
                *edges == directed.events@[e as int],
                closed(
                    table,
                    model,
                    (Progress { events: e as int, objects: 0, current: source, edges: k as int }),
                ),
            decreases edges@.len() - k,
        {
            enter_edge(
                &mut table,
                edges,
                source,
                k,
                Ghost(model),
                Ghost(Progress { events: e as int, objects: 0, current: source, edges: k as int }),
            );
            k += 1;
        }
        proof {
            let full = Progress { events: e as int, objects: 0, current: source, edges: k as int };
            let fresh = Progress {
                events: e + 1,
                objects: 0,
                current: ObjectOrEventIndex::Event(EventIndex((e + 1) as usize)),
                edges: 0,
            };
            assert forall|node: ObjectOrEventIndex| #[trigger]
                done(model, full, node) == done(model, fresh, node) by {}
            lemma_same_progress(table, model, full, fresh);
        }
        e += 1;
    }
    proof {
        let full = Progress {
            events: e as int,
            objects: 0,
            current: ObjectOrEventIndex::Event(EventIndex(e)),
            edges: 0,
        };
        let fresh = Progress {
            events: e as int,
            objects: 0,
            current: ObjectOrEventIndex::Object(ObjectIndex(0)),
            edges: 0,
        };
        assert forall|node: ObjectOrEventIndex| #[trigger]
            done(model, full, node) == done(model, fresh, node) by {}
        lemma_same_progress(table, model, full, fresh);
    }
    let mut o: usize = 0;
    while o < object_count
        invariant
            o <= object_count,
            event_count == directed.events@.len(),
            object_count == directed.objects@.len(),
            model == relation_model(*directed),
            model.targets_in_range(),
            closed(
                table,
                model,
                (Progress {
                    events: event_count as int,
                    objects: o as int,
                    current: ObjectOrEventIndex::Object(ObjectIndex(o)),
                    edges: 0,
                }),
            ),
        decreases object_count - o,
    {
        let source = ObjectOrEventIndex::Object(ObjectIndex(o));
        let edges = &directed.objects[o];
        let mut k: usize = 0;
        while k < edges.len()
            invariant
                k <= edges@.len(),
                o < object_count,
                event_count == directed.events@.len(),
                object_count == directed.objects@.len(),
                model == relation_model(*directed),
                model.targets_in_range(),
                source == ObjectOrEventIndex::Object(ObjectIndex(o)),
                *edges == directed.objects@[o as int],
                closed(
                    table,
                    model,
                    (Progress {
                        events: event_count as int,
                        objects: o as int,
                        current: source,
                        edges: k as int,
                    }),
                ),
            decreases edges@.len() - k,
        {
            enter_edge(
                &mut table,
                edges,
                source,
                k,
                Ghost(model),
                Ghost(
                    Progress {
                        events: event_count as int,
                        objects: o as int,
                        current: source,
                        edges: k as int,
                    },
                ),
            );
            k += 1;
        }
        proof {
            let full = Progress {
                events: event_count as int,
                objects: o as int,
                current: source,
                edges: k as int,
            };
            let fresh = Progress {
                events: event_count as int,
                objects: o + 1,
                current: ObjectOrEventIndex::Object(ObjectIndex((o + 1) as usize)),
                edges: 0,
            };
            assert forall|node: ObjectOrEventIndex| #[trigger]
                done(model, full, node) == done(model, fresh, node) by {}
            lemma_same_progress(table, model, full, fresh);
        }
        o += 1;
    }
    proof {
        let last = Progress {
            events: event_count as int,
            objects: o as int,
            current: ObjectOrEventIndex::Object(ObjectIndex(o)),
            edges: 0,
        };
        assert forall|node: ObjectOrEventIndex| table.has(node) implies (#[trigger] entry_views(
            table.at(node)@,
        )).no_duplicates() && entry_views(table.at(node)@).to_set() == model.symmetric(node) by {
            assert forall|entry: (ObjectOrEventIndex, bool, Seq<char>)|
                entry_views(table.at(node)@).to_set().contains(entry) <==> model.symmetric(
                    node,
                ).contains(entry) by {
                assert(listed(table, node, entry) <==> linked_so_far(model, last, node, entry));
                lemma_all_done(model, last, node, entry);
            }
            assert(entry_views(table.at(node)@).to_set() =~= model.symmetric(node));
        }
    }
    table
}

} // verus!
