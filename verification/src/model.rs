//! The mathematical model of the graph: views of the registry and of the
//! event log, the transition functions that the executable operations are
//! specified against, and the lemmas about those transitions.

use vstd::prelude::*;
use crate::events::EventView;

verus! {

/// The image of one registry entry: its label and the labels stored in its
/// children list, in insertion order. An entry of the children list may be
/// dead, that is, no longer present in the registry.
pub struct NodeView {
    pub label: Seq<char>,
    pub children: Seq<Seq<char>>,
}

/// The image of a whole graph: the registry in insertion order, the log of
/// events accepted by the event queue so far, and whether the queue exists.
pub struct GraphView {
    pub nodes: Seq<NodeView>,
    pub events: Seq<EventView>,
    pub events_on: bool,
}

/// The reserved label of the always-present root node.
pub open spec fn root_label() -> Seq<char> {
    "root"@
}

pub open spec fn has_label(nodes: Seq<NodeView>, l: Seq<char>) -> bool {
    exists|i: int| 0 <= i < nodes.len() && nodes[i].label == l
}

/// The registry index of the entry labeled `l` (meaningful when `has_label`).
pub open spec fn idx_of(nodes: Seq<NodeView>, l: Seq<char>) -> int {
    choose|i: int| 0 <= i < nodes.len() && nodes[i].label == l
}

/// The registry entry labeled `l` (meaningful when `has_label`).
pub open spec fn node_at(nodes: Seq<NodeView>, l: Seq<char>) -> NodeView {
    nodes[idx_of(nodes, l)]
}

pub open spec fn labels_distinct(nodes: Seq<NodeView>) -> bool {
    forall|i: int, j: int| 0 <= i < j < nodes.len() ==> nodes[i].label != nodes[j].label
}

/// Well-formedness: the root entry is present, stands first, and no two
/// registry entries share a label.
pub open spec fn wf(g: GraphView) -> bool {
    &&& g.nodes.len() >= 1
    &&& g.nodes[0].label == root_label()
    &&& labels_distinct(g.nodes)
}

/// The edge `p -> c` exists: the registry holds `p` and `p`'s children list
/// holds an entry for `c`.
pub open spec fn has_edge(g: GraphView, p: Seq<char>, c: Seq<char>) -> bool {
    has_label(g.nodes, p) && node_at(g.nodes, p).children.contains(c)
}

/// The children list of `l`, dead entries included; empty when `l` is not
/// registered.
pub open spec fn children_of(g: GraphView, l: Seq<char>) -> Seq<Seq<char>> {
    if has_label(g.nodes, l) {
        node_at(g.nodes, l).children
    } else {
        Seq::empty()
    }
}

/// The entries of `cs` whose label resolves in the registry, in order.
pub open spec fn live_labels(nodes: Seq<NodeView>, cs: Seq<Seq<char>>) -> Seq<Seq<char>>
    decreases cs.len(),
{
    if cs.len() == 0 {
        Seq::empty()
    } else {
        let rest = live_labels(nodes, cs.drop_last());
        if has_label(nodes, cs.last()) {
            rest.push(cs.last())
        } else {
            rest
        }
    }
}

/// The adjacency snapshot that `get_children` returns for label `l`: the
/// resolvable entries of `l`'s children list, in stored order.
pub open spec fn resolved_children(g: GraphView, l: Seq<char>) -> Seq<Seq<char>> {
    live_labels(g.nodes, children_of(g, l))
}

/// The registry after get-or-create of `l`; no event is recorded.
pub open spec fn create_node(g: GraphView, l: Seq<char>) -> GraphView {
    if has_label(g.nodes, l) {
        g
    } else {
        GraphView { nodes: g.nodes.push(NodeView { label: l, children: Seq::empty() }), ..g }
    }
}

/// The graph after the event queue accepted one more event.
pub open spec fn log_event(g: GraphView, e: EventView) -> GraphView {
    GraphView { events: g.events.push(e), ..g }
}

/// The graph after appending `c` to the children list of the registered
/// label `p`.
pub open spec fn append_child(g: GraphView, p: Seq<char>, c: Seq<char>) -> GraphView {
    let i = idx_of(g.nodes, p);
    GraphView {
        nodes: g.nodes.update(i, NodeView { children: g.nodes[i].children.push(c), ..g.nodes[i] }),
        ..g
    }
}

/// The state after the parent phase of one `add_edge(p, c)` call whose send,
/// if one was owed, was accepted: `p` registered and, when newly created and
/// the queue exists, announced.
pub open spec fn stage_parent(g: GraphView, p: Seq<char>) -> GraphView {
    let g1 = create_node(g, p);
    if !has_label(g.nodes, p) && g.events_on {
        log_event(g1, EventView::NodeAdded(p))
    } else {
        g1
    }
}

/// The state after both creation phases of one `add_edge(p, c)` call whose
/// sends, if any were owed, were all accepted.
pub open spec fn stage_creates(g: GraphView, p: Seq<char>, c: Seq<char>) -> GraphView {
    let g1 = stage_parent(g, p);
    let g2 = create_node(g1, c);
    if !has_label(g1.nodes, c) && g.events_on {
        log_event(g2, EventView::NodeAdded(c))
    } else {
        g2
    }
}

/// The full effect of a successful `add_edge(p, c)` call.
pub open spec fn after_add(g: GraphView, p: Seq<char>, c: Seq<char>) -> GraphView {
    let g2 = stage_creates(g, p, c);
    let g3 = append_child(g2, p, c);
    if g.events_on {
        log_event(g3, EventView::EdgeAdded(p, c))
    } else {
        g3
    }
}

/// How many times the log announces the creation of label `l`.
pub open spec fn node_added_count(events: Seq<EventView>, l: Seq<char>) -> nat
    decreases events.len(),
{
    if events.len() == 0 {
        0
    } else {
        node_added_count(events.drop_last(), l) + (if events.last() == EventView::NodeAdded(l) {
            1nat
        } else {
            0nat
        })
    }
}

/// The event log never announces a label twice, and every announced label is
/// in the registry. Established by construction, preserved by every edge
/// insertion; removing a registry entry directly forfeits it.
pub open spec fn log_consistent(g: GraphView) -> bool {
    forall|l: Seq<char>|
        #[trigger] node_added_count(g.events, l) <= 1 && (node_added_count(g.events, l) >= 1
            ==> has_label(g.nodes, l))
}

/// What get-or-create does to a well-formed registry: it stays well-formed,
/// keeps every entry it had where it was, and registers exactly the labels it
/// had plus `l`.
pub proof fn lemma_create_node(g: GraphView, l: Seq<char>)
    requires
        wf(g),
    ensures
        wf(create_node(g, l)),
        create_node(g, l).events == g.events,
        create_node(g, l).events_on == g.events_on,
        g.nodes.len() <= create_node(g, l).nodes.len(),
        has_label(create_node(g, l).nodes, l),
        forall|l2: Seq<char>|
            has_label(create_node(g, l).nodes, l2) <==> (has_label(g.nodes, l2) || l2 == l),
        forall|i: int| 0 <= i < g.nodes.len() ==> create_node(g, l).nodes[i] == g.nodes[i],
{
    if has_label(g.nodes, l) {
    } else {
        let post = create_node(g, l).nodes;
        let n = g.nodes.len() as int;
        assert(post[n].label == l);
        assert forall|a: int, b: int| 0 <= a < b < post.len() implies post[a].label
            != post[b].label by {
            if b < n {
                assert(g.nodes[a].label != g.nodes[b].label);
            } else {
                assert(post[a] == g.nodes[a]);
                if g.nodes[a].label == l {
                    assert(has_label(g.nodes, l));
                }
            }
        }
        assert forall|l2: Seq<char>| has_label(post, l2) implies (has_label(g.nodes, l2) || l2
            == l) by {
            let i = choose|i: int| 0 <= i < post.len() && post[i].label == l2;
            if i < n {
                assert(g.nodes[i].label == l2);
            }
        }
        assert forall|l2: Seq<char>| has_label(g.nodes, l2) || l2 == l implies has_label(
            post,
            l2,
        ) by {
            if has_label(g.nodes, l2) {
                let i = choose|i: int| 0 <= i < g.nodes.len() && g.nodes[i].label == l2;
                assert(post[i].label == l2);
            } else {
                assert(post[n].label == l2);
            }
        }
    }
}

/// What appending a child to the registered label `p` does: the registry
/// stays well-formed, registers the same labels, `p`'s entry gains `c` at the
/// end of its children list, and every other entry is untouched.
pub proof fn lemma_append_child(g: GraphView, p: Seq<char>, c: Seq<char>)
    requires
        wf(g),
        has_label(g.nodes, p),
    ensures
        wf(append_child(g, p, c)),
        append_child(g, p, c).events == g.events,
        append_child(g, p, c).events_on == g.events_on,
        append_child(g, p, c).nodes.len() == g.nodes.len(),
        forall|l2: Seq<char>| has_label(append_child(g, p, c).nodes, l2) <==> has_label(
            g.nodes,
            l2,
        ),
        node_at(append_child(g, p, c).nodes, p) == (NodeView {
            children: node_at(g.nodes, p).children.push(c),
            ..node_at(g.nodes, p)
        }),
        has_edge(append_child(g, p, c), p, c),
        forall|l2: Seq<char>|
            l2 != p ==> children_of(append_child(g, p, c), l2) == children_of(g, l2),
{
    let i = idx_of(g.nodes, p);
    assert(0 <= i < g.nodes.len() && g.nodes[i].label == p);
    let post = append_child(g, p, c).nodes;
    assert(post[i].label == p);
    assert forall|a: int| 0 <= a < post.len() implies post[a].label == g.nodes[a].label by {}
    assert forall|l2: Seq<char>| has_label(post, l2) <==> has_label(g.nodes, l2) by {
        if has_label(post, l2) {
            let a = choose|a: int| 0 <= a < post.len() && post[a].label == l2;
            assert(g.nodes[a].label == l2);
        }
        if has_label(g.nodes, l2) {
            let a = choose|a: int| 0 <= a < g.nodes.len() && g.nodes[a].label == l2;
            assert(post[a].label == l2);
        }
    }
    lemma_idx_of_unique(post, p, i);
    assert(node_at(post, p).children.last() == c);
    assert(node_at(post, p).children.contains(c));
    assert forall|l2: Seq<char>| l2 != p implies children_of(append_child(g, p, c), l2)
        == children_of(g, l2) by {
        if has_label(g.nodes, l2) {
            let a = idx_of(g.nodes, l2);
            assert(g.nodes[a].label == l2);
            assert(a != i);
            assert(post[a] == g.nodes[a]);
            lemma_idx_of_unique(post, l2, a);
        }
    }
}

/// Appending one event changes the announcement count of `l` by one exactly
/// when the event announces `l`.
pub proof fn lemma_node_added_count_push(events: Seq<EventView>, e: EventView, l: Seq<char>)
    ensures
        node_added_count(events.push(e), l) == node_added_count(events, l) + (
        if e == EventView::NodeAdded(l) {
            1nat
        } else {
            0nat
        }),
{
    assert(events.push(e).drop_last() =~= events);
    assert(events.push(e).last() == e);
}

/// Log consistency survives any step that keeps the log and only adds
/// registered labels.
pub proof fn lemma_log_consistent_grow(g: GraphView, g2: GraphView)
    requires
        log_consistent(g),
        g2.events == g.events,
        forall|l: Seq<char>| has_label(g.nodes, l) ==> has_label(g2.nodes, l),
    ensures
        log_consistent(g2),
{
}

/// A label that the registry does not hold was never announced by a
/// consistent log.
pub proof fn lemma_unannounced(g: GraphView, l: Seq<char>)
    requires
        log_consistent(g),
        !has_label(g.nodes, l),
    ensures
        node_added_count(g.events, l) == 0,
{
}

/// Announcing a label right after its first registration keeps the log
/// consistent.
pub proof fn lemma_log_consistent_node_added(g: GraphView, l: Seq<char>)
    requires
        wf(g),
        log_consistent(g),
        !has_label(g.nodes, l),
    ensures
        log_consistent(log_event(create_node(g, l), EventView::NodeAdded(l))),
{
    lemma_create_node(g, l);
    lemma_unannounced(g, l);
    let post = log_event(create_node(g, l), EventView::NodeAdded(l));
    assert forall|l2: Seq<char>|
        #[trigger] node_added_count(post.events, l2) <= 1 && (node_added_count(post.events, l2)
            >= 1 ==> has_label(post.nodes, l2)) by {
        lemma_node_added_count_push(g.events, EventView::NodeAdded(l), l2);
    }
}

/// Announcing an edge never touches the announcement counts.
pub proof fn lemma_log_consistent_edge_added(g: GraphView, p: Seq<char>, c: Seq<char>)
    requires
        log_consistent(g),
    ensures
        log_consistent(log_event(g, EventView::EdgeAdded(p, c))),
{
    let post = log_event(g, EventView::EdgeAdded(p, c));
    assert forall|l2: Seq<char>|
        #[trigger] node_added_count(post.events, l2) <= 1 && (node_added_count(post.events, l2)
            >= 1 ==> has_label(post.nodes, l2)) by {
        lemma_node_added_count_push(g.events, EventView::EdgeAdded(p, c), l2);
    }
}

/// The registry facts that hold along every stage of one `add_edge(p, c)`
/// call: each stage is well-formed, the registry only gains labels, both
/// arguments end up registered, and the successful end state holds the edge.
pub proof fn lemma_stages(g: GraphView, p: Seq<char>, c: Seq<char>)
    requires
        wf(g),
    ensures
        stage_parent(g, p).nodes == create_node(g, p).nodes,
        stage_parent(g, p).events_on == g.events_on,
        wf(stage_parent(g, p)),
        stage_creates(g, p, c).nodes == create_node(stage_parent(g, p), c).nodes,
        stage_creates(g, p, c).events_on == g.events_on,
        wf(stage_creates(g, p, c)),
        has_label(stage_creates(g, p, c).nodes, p),
        has_label(stage_creates(g, p, c).nodes, c),
        has_label(after_add(g, p, c).nodes, p),
        has_label(after_add(g, p, c).nodes, c),
        wf(after_add(g, p, c)),
        after_add(g, p, c).events_on == g.events_on,
        g.nodes.len() <= stage_creates(g, p, c).nodes.len(),
        g.nodes.len() <= after_add(g, p, c).nodes.len(),
        forall|l: Seq<char>|
            has_label(g.nodes, l) ==> has_label(stage_creates(g, p, c).nodes, l),
        forall|l: Seq<char>| has_label(g.nodes, l) ==> has_label(after_add(g, p, c).nodes, l),
        has_edge(after_add(g, p, c), p, c),
{
    lemma_create_node(g, p);
    let g1 = stage_parent(g, p);
    assert(g1.nodes == create_node(g, p).nodes);
    lemma_create_node(g1, c);
    let g2 = stage_creates(g, p, c);
    assert(g2.nodes == create_node(g1, c).nodes);
    lemma_append_child(g2, p, c);
    assert(after_add(g, p, c).nodes == append_child(g2, p, c).nodes);
}

/// Log consistency is preserved at every stop of one `add_edge(p, c)` call:
/// at each intermediate state a delivery failure can leave behind, and at
/// the successful end state. (A rejected duplicate leaves the entry state
/// itself, which needs no lemma.)
pub proof fn lemma_log_consistent_path(g: GraphView, p: Seq<char>, c: Seq<char>)
    requires
        wf(g),
        log_consistent(g),
    ensures
        log_consistent(create_node(g, p)),
        log_consistent(stage_parent(g, p)),
        log_consistent(create_node(stage_parent(g, p), c)),
        log_consistent(stage_creates(g, p, c)),
        log_consistent(append_child(stage_creates(g, p, c), p, c)),
        log_consistent(after_add(g, p, c)),
{
    lemma_create_node(g, p);
    lemma_log_consistent_grow(g, create_node(g, p));
    if !has_label(g.nodes, p) && g.events_on {
        lemma_log_consistent_node_added(g, p);
    }
    let g1 = stage_parent(g, p);
    lemma_stages(g, p, c);
    lemma_create_node(g1, c);
    lemma_log_consistent_grow(g1, create_node(g1, c));
    if !has_label(g1.nodes, c) && g.events_on {
        lemma_log_consistent_node_added(g1, c);
    }
    let g2 = stage_creates(g, p, c);
    lemma_append_child(g2, p, c);
    lemma_log_consistent_grow(g2, append_child(g2, p, c));
    if g.events_on {
        lemma_log_consistent_edge_added(append_child(g2, p, c), p, c);
    }
}

/// Within a duplicate-free registry the index of a label is the index of any
/// entry carrying it.
pub proof fn lemma_idx_of_unique(nodes: Seq<NodeView>, l: Seq<char>, i: int)
    requires
        labels_distinct(nodes),
        0 <= i < nodes.len(),
        nodes[i].label == l,
    ensures
        idx_of(nodes, l) == i,
        has_label(nodes, l),
{
    assert(has_label(nodes, l));
    let j = idx_of(nodes, l);
    assert(0 <= j < nodes.len() && nodes[j].label == l);
    if i < j {
        assert(nodes[i].label != nodes[j].label);
    } else if j < i {
        assert(nodes[j].label != nodes[i].label);
    }
}

} // verus!
