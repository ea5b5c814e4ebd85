//! The laws the graph obeys, stated over the model and proved once and for
//! all: exactly-once edge insertion, exactly-once creation announcements,
//! monotonicity of the registry, persistence of labels, per-call event
//! order, and the soundness of adjacency snapshots.

use vstd::prelude::*;
use crate::events::EventView;
use crate::model::{
    after_add, append_child, create_node, has_edge, has_label, idx_of, lemma_append_child,
    lemma_create_node, lemma_idx_of_unique, lemma_log_consistent_path, lemma_node_added_count_push,
    lemma_stages, live_labels, log_consistent, node_added_count, node_at,
    resolved_children, stage_creates, stage_parent, wf, GraphView, NodeView,
};

verus! {

/// The parent's children list after the creation phases of `add_edge(p, c)`:
/// exactly what the pre-call graph gave it, or empty when `p` is new.
pub proof fn lemma_stage_children(g: GraphView, p: Seq<char>, c: Seq<char>)
    requires
        wf(g),
    ensures
        node_at(stage_creates(g, p, c).nodes, p).children == (if has_label(g.nodes, p) {
            node_at(g.nodes, p).children
        } else {
            Seq::<Seq<char>>::empty()
        }),
{
    lemma_create_node(g, p);
    lemma_stages(g, p, c);
    let g1 = stage_parent(g, p);
    lemma_create_node(g1, c);
    let g2 = stage_creates(g, p, c);
    if has_label(g.nodes, p) {
        let i = idx_of(g.nodes, p);
        assert(g.nodes[i].label == p);
        assert(g2.nodes[i] == g.nodes[i]);
        lemma_idx_of_unique(g2.nodes, p, i);
    } else {
        let i = g.nodes.len() as int;
        assert(create_node(g, p).nodes[i].label == p);
        assert(create_node(g, p).nodes[i].children =~= Seq::<Seq<char>>::empty());
        assert(g2.nodes[i] == create_node(g, p).nodes[i]);
        lemma_idx_of_unique(g2.nodes, p, i);
    }
}

/// Exactly-once edge insertion: a successful `add_edge(p, c)` appends `c` to
/// a children list that did not hold it, so the list holds exactly one entry
/// for `c` afterwards — and since the edge is then present, by `add_edge`'s
/// contract any repetition of the call fails with a duplicate error and
/// leaves the graph exactly as it was.
pub proof fn lemma_edge_inserted_exactly_once(g: GraphView, p: Seq<char>, c: Seq<char>)
    requires
        wf(g),
        !has_edge(g, p, c),
    ensures
        has_edge(after_add(g, p, c), p, c),
        !node_at(stage_creates(g, p, c).nodes, p).children.contains(c),
        node_at(after_add(g, p, c).nodes, p).children == node_at(
            stage_creates(g, p, c).nodes,
            p,
        ).children.push(c),
{
    lemma_stages(g, p, c);
    lemma_stage_children(g, p, c);
    let g2 = stage_creates(g, p, c);
    lemma_append_child(g2, p, c);
    assert(after_add(g, p, c).nodes == append_child(g2, p, c).nodes);
}

/// Exactly-once node creation: starting from a consistent history, no label
/// is ever announced twice, and an edge insertion never re-announces a label
/// that was already registered.
pub proof fn lemma_node_created_exactly_once(
    g: GraphView,
    p: Seq<char>,
    c: Seq<char>,
    l: Seq<char>,
)
    requires
        wf(g),
        log_consistent(g),
    ensures
        log_consistent(after_add(g, p, c)),
        node_added_count(after_add(g, p, c).events, l) <= 1,
        has_label(g.nodes, l) ==> node_added_count(after_add(g, p, c).events, l)
            == node_added_count(g.events, l),
{
    lemma_log_consistent_path(g, p, c);
    lemma_create_node(g, p);
    lemma_stages(g, p, c);
    let g1 = stage_parent(g, p);
    lemma_create_node(g1, c);
    let g2 = stage_creates(g, p, c);
    let ga = after_add(g, p, c);
    if has_label(g.nodes, l) {
        if !has_label(g.nodes, p) && g.events_on {
            lemma_node_added_count_push(g.events, EventView::NodeAdded(p), l);
        }
        if !has_label(g1.nodes, c) && g.events_on {
            lemma_node_added_count_push(g1.events, EventView::NodeAdded(c), l);
        }
        if g.events_on {
            lemma_node_added_count_push(g2.events, EventView::EdgeAdded(p, c), l);
        }
    }
}

/// Monotonic count: no stop along an edge insertion shrinks the registry.
pub proof fn lemma_count_monotone(g: GraphView, p: Seq<char>, c: Seq<char>)
    requires
        wf(g),
    ensures
        g.nodes.len() <= create_node(g, p).nodes.len(),
        g.nodes.len() <= create_node(stage_parent(g, p), c).nodes.len(),
        g.nodes.len() <= stage_creates(g, p, c).nodes.len(),
        g.nodes.len() <= append_child(stage_creates(g, p, c), p, c).nodes.len(),
        g.nodes.len() <= after_add(g, p, c).nodes.len(),
{
    lemma_create_node(g, p);
    lemma_stages(g, p, c);
    lemma_create_node(stage_parent(g, p), c);
    lemma_append_child(stage_creates(g, p, c), p, c);
}

/// Contains/get_node consistency: a label once present is still present
/// after any stop along any later edge insertion — nothing in scope ever
/// unregisters it.
pub proof fn lemma_label_persists(g: GraphView, p: Seq<char>, c: Seq<char>, l: Seq<char>)
    requires
        wf(g),
        has_label(g.nodes, l),
    ensures
        has_label(create_node(g, p).nodes, l),
        has_label(create_node(stage_parent(g, p), c).nodes, l),
        has_label(stage_creates(g, p, c).nodes, l),
        has_label(append_child(stage_creates(g, p, c), p, c).nodes, l),
        has_label(after_add(g, p, c).nodes, l),
{
    lemma_create_node(g, p);
    lemma_stages(g, p, c);
    lemma_create_node(stage_parent(g, p), c);
    lemma_append_child(stage_creates(g, p, c), p, c);
}

/// Per-call event order: an edge insertion between two labels the graph did
/// not know, with the queue attached and every send accepted, hands the
/// queue exactly three events, in this order: the parent's creation, the
/// child's creation, the edge.
pub proof fn lemma_event_order(g: GraphView, p: Seq<char>, c: Seq<char>)
    requires
        wf(g),
        g.events_on,
        !has_label(g.nodes, p),
        !has_label(g.nodes, c),
        p != c,
    ensures
        after_add(g, p, c).events == g.events + seq![
            EventView::NodeAdded(p),
            EventView::NodeAdded(c),
            EventView::EdgeAdded(p, c),
        ],
{
    lemma_create_node(g, p);
    lemma_stages(g, p, c);
    let g1 = stage_parent(g, p);
    assert(g1.events == g.events.push(EventView::NodeAdded(p)));
    assert(!has_label(g1.nodes, c));
    let g2 = stage_creates(g, p, c);
    assert(g2.events == g1.events.push(EventView::NodeAdded(c)));
    assert(after_add(g, p, c).events == g2.events.push(EventView::EdgeAdded(p, c)));
    assert(after_add(g, p, c).events =~= g.events + seq![
        EventView::NodeAdded(p),
        EventView::NodeAdded(c),
        EventView::EdgeAdded(p, c),
    ]);
}

/// Every entry of an adjacency snapshot is a live entry of the stored
/// children list.
pub proof fn lemma_live_labels_sound(nodes: Seq<NodeView>, cs: Seq<Seq<char>>)
    ensures
        forall|x: Seq<char>|
            #[trigger] live_labels(nodes, cs).contains(x) ==> has_label(nodes, x) && cs.contains(
                x,
            ),
    decreases cs.len(),
{
    if cs.len() > 0 {
        lemma_live_labels_sound(nodes, cs.drop_last());
        let rest = live_labels(nodes, cs.drop_last());
        assert forall|x: Seq<char>| #[trigger] live_labels(nodes, cs).contains(x) implies has_label(
            nodes,
            x,
        ) && cs.contains(x) by {
            let whole = live_labels(nodes, cs);
            let k = choose|k: int| 0 <= k < whole.len() && whole[k] == x;
            if k < rest.len() {
                assert(rest.contains(x));
                let k2 = choose|k2: int| 0 <= k2 < cs.drop_last().len() && cs.drop_last()[k2] == x;
                assert(cs[k2] == x);
            } else {
                assert(x == cs.last());
                assert(cs[cs.len() - 1] == x);
            }
        }
    }
}

/// Every live entry of the stored children list appears in the adjacency
/// snapshot.
pub proof fn lemma_live_labels_complete(nodes: Seq<NodeView>, cs: Seq<Seq<char>>)
    ensures
        forall|x: Seq<char>|
            cs.contains(x) && has_label(nodes, x) ==> #[trigger] live_labels(nodes, cs).contains(
                x,
            ),
    decreases cs.len(),
{
    if cs.len() > 0 {
        lemma_live_labels_complete(nodes, cs.drop_last());
        let rest = live_labels(nodes, cs.drop_last());
        assert forall|x: Seq<char>| cs.contains(x) && has_label(nodes, x) implies #[trigger]
        live_labels(nodes, cs).contains(x) by {
            let k = choose|k: int| 0 <= k < cs.len() && cs[k] == x;
            if k < cs.len() - 1 {
                assert(cs.drop_last()[k] == x);
                assert(cs.drop_last().contains(x));
                assert(rest.contains(x));
                let k2 = choose|k2: int| 0 <= k2 < rest.len() && rest[k2] == x;
                if has_label(nodes, cs.last()) {
                    assert(live_labels(nodes, cs)[k2] == x);
                } else {
                    assert(live_labels(nodes, cs)[k2] == x);
                }
            } else {
                assert(x == cs.last());
                assert(live_labels(nodes, cs).last() == x);
            }
        }
    }
}

/// Dead-reference filtering: an adjacency snapshot never shows a label that
/// the registry does not hold — in particular, a label removed from the
/// registry is silently omitted from every later snapshot.
pub proof fn lemma_snapshot_filters_dead(g: GraphView, l: Seq<char>, x: Seq<char>)
    requires
        !has_label(g.nodes, x),
    ensures
        !resolved_children(g, l).contains(x),
{
    lemma_live_labels_sound(g.nodes, crate::model::children_of(g, l));
}

} // verus!


