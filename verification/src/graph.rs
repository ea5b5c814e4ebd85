//! The graph itself: the registry of labeled nodes, the node handles, and
//! the mutation and query operations.

use vstd::prelude::*;
use crate::events::{EventView, GraphEvent};
use crate::model::{
    append_child, children_of, create_node, has_edge, has_label, idx_of, lemma_append_child,
    lemma_create_node, lemma_idx_of_unique, lemma_log_consistent_path, lemma_stages, live_labels,
    log_consistent, log_event, resolved_children, root_label, stage_creates, stage_parent,
    after_add, GraphView, NodeView,
};
use crate::channel::{new_event_channel, send_event};

verus! {

/// Why an edge insertion failed.
#[derive(Debug)]
pub enum GraphError {
    /// The identical (parent, child) edge already exists; the graph is
    /// unchanged by the rejected call.
    DuplicateEdge,
    /// The mutation committed, but no observer is listening on the event
    /// queue any more; nothing is rolled back.
    EventDeliveryFailed,
}

impl GraphError {
    /// A human-readable description of the failure.
    pub fn message(&self) -> (m: String)
        ensures
            self is DuplicateEdge ==> m@ == "Edge already exists"@,
            self is EventDeliveryFailed ==> m@ == "Event dropped: no receiver is listening"@,
    {
        match self {
            GraphError::DuplicateEdge => "Edge already exists".to_owned(),
            GraphError::EventDeliveryFailed => "Event dropped: no receiver is listening".to_owned(),
        }
    }
}

/// A handle to one graph vertex. A handle carries the vertex's label and
/// resolves through a graph's registry on every read, so it never keeps a
/// removed vertex alive and always observes the current adjacency.
#[derive(Debug)]
pub struct Node {
    data: String,
}

impl View for Node {
    type V = Seq<char>;

    closed spec fn view(&self) -> Seq<char> {
        self.data@
    }
}

/// One registry entry: the canonical node for its label, together with the
/// labels of its children in insertion order.
struct NodeRec {
    label: String,
    children: Vec<String>,
}

impl View for NodeRec {
    type V = NodeView;

    closed spec fn view(&self) -> NodeView {
        NodeView { label: self.label@, children: self.children@.map_values(|s: String| s@) }
    }
}

/// The graph: a registry mapping each label to its single node, a designated
/// always-present root entry, and optionally the sending half of the event
/// queue.
pub struct Graph {
    nodes: Vec<NodeRec>,
    events_tx: Option<tokio::sync::mpsc::UnboundedSender<GraphEvent>>,
    history: Ghost<Seq<EventView>>,
}

impl View for Graph {
    type V = GraphView;

    closed spec fn view(&self) -> GraphView {
        GraphView {
            nodes: self.nodes@.map_values(|r: NodeRec| r@),
            events: self.history@,
            events_on: self.events_tx is Some,
        }
    }
}

impl Node {
    /// A fresh handle for the label `data`, not yet tied to any graph.
    pub fn new(data: &str) -> (n: Node)
        ensures
            n@ == data@,
    {
        Node { data: data.to_owned() }
    }

    /// The label this handle refers to.
    pub fn get_data(&self) -> (d: &str)
        ensures
            d@ == self@,
    {
        self.data.as_str()
    }

    /// A point-in-time snapshot of this node's children: for each entry of
    /// its children list that still resolves in `graph`'s registry, in stored
    /// order, an independently usable handle. Dead entries are silently
    /// omitted; a handle whose label is not registered has no children.
    pub fn get_children(&self, graph: &Graph) -> (cs: Vec<Node>)
        requires
            graph.wf(),
        ensures
            cs@.map_values(|n: Node| n@) == resolved_children(graph@, self@),
    {
        let mut out: Vec<Node> = Vec::new();
        match graph.find_index(self.data.as_str()) {
            None => {
                proof {
                    assert(out@.map_values(|n: Node| n@) =~= Seq::<Seq<char>>::empty());
                    assert(resolved_children(graph@, self@) =~= Seq::<Seq<char>>::empty());
                }
                out
            },
            Some(i) => {
                proof {
                    lemma_idx_of_unique(graph@.nodes, self@, i as int);
                    assert(children_of(graph@, self@) == graph@.nodes[i as int].children);
                }
                let ghost cs_spec: Seq<Seq<char>> = graph@.nodes[i as int].children;
                let rec = &graph.nodes[i];
                let m = rec.children.len();
                proof {
                    assert(rec@.children == cs_spec);
                    assert(m == cs_spec.len());
                }
                let mut j: usize = 0;
                while j < m
                    invariant
                        graph.wf(),
                        i < graph@.nodes.len(),
                        rec@.children == cs_spec,
                        m == cs_spec.len(),
                        m == rec.children@.len(),
                        j <= m,
                        out@.map_values(|n: Node| n@) == live_labels(
                            graph@.nodes,
                            cs_spec.take(j as int),
                        ),
                    decreases m - j,
                {
                    let ghost pre = out@.map_values(|n: Node| n@);
                    let child_label = &rec.children[j];
                    proof {
                        assert(child_label@ == cs_spec[j as int]);
                    }
                    if graph.contains(child_label.as_str()) {
                        out.push(Node { data: child_label.clone() });
                        proof {
                            assert(out@.map_values(|n: Node| n@) =~= pre.push(cs_spec[j as int]));
                        }
                    }
                    proof {
                        assert(cs_spec.take(j as int + 1).drop_last() =~= cs_spec.take(j as int));
                        assert(cs_spec.take(j as int + 1).last() == cs_spec[j as int]);
                        assert(out@.map_values(|n: Node| n@) == live_labels(
                            graph@.nodes,
                            cs_spec.take(j as int + 1),
                        ));
                    }
                    j += 1;
                }
                proof {
                    assert(cs_spec.take(m as int) =~= cs_spec);
                }
                out
            },
        }
    }
}

impl Graph {
    /// Well-formedness: the root entry is present, stands first, and no two
    /// registry entries share a label. Established by the constructors and
    /// preserved by every operation.
    pub open spec fn wf(&self) -> bool {
        crate::model::wf(self@)
    }

    /// The view of a registry holding exactly the fresh root entry.
    pub open spec fn initial_nodes() -> Seq<NodeView> {
        seq![NodeView { label: root_label(), children: Seq::<Seq<char>>::empty() }]
    }

    /// A graph holding only the root node, together with the receiving half
    /// of its event queue: every mutation from now on is announced on it.
    pub fn new() -> (r: (Graph, tokio::sync::mpsc::UnboundedReceiver<GraphEvent>))
        ensures
            r.0.wf(),
            r.0@.nodes == Graph::initial_nodes(),
            r.0@.events == Seq::<EventView>::empty(),
            r.0@.events_on,
            log_consistent(r.0@),
    {
        let (tx, rx) = new_event_channel();
        let mut nodes: Vec<NodeRec> = Vec::new();
        let rec = NodeRec { label: "root".to_owned(), children: Vec::new() };
        let ghost rv = rec@;
        nodes.push(rec);
        let g = Graph { nodes, events_tx: Some(tx), history: Ghost(Seq::empty()) };
        proof {
            assert(g@.nodes.len() == 1);
            assert(g@.nodes[0] == rv);
            assert(rv.label == root_label());
            assert(rv.children =~= Seq::<Seq<char>>::empty());
            assert(g@.nodes =~= Graph::initial_nodes());
        }
        (g, rx)
    }

    /// A graph holding only the root node, with no event queue: mutations
    /// are never announced and never fail to be delivered.
    pub fn new_without_events() -> (g: Graph)
        ensures
            g.wf(),
            g@.nodes == Graph::initial_nodes(),
            g@.events == Seq::<EventView>::empty(),
            !g@.events_on,
            log_consistent(g@),
    {
        let mut nodes: Vec<NodeRec> = Vec::new();
        let rec = NodeRec { label: "root".to_owned(), children: Vec::new() };
        let ghost rv = rec@;
        nodes.push(rec);
        let g = Graph { nodes, events_tx: None, history: Ghost(Seq::empty()) };
        proof {
            assert(g@.nodes.len() == 1);
            assert(g@.nodes[0] == rv);
            assert(rv.label == root_label());
            assert(rv.children =~= Seq::<Seq<char>>::empty());
            assert(g@.nodes =~= Graph::initial_nodes());
        }
        g
    }

    /// The registry index of `content`'s entry, if one exists.
    fn find_index(&self, content: &str) -> (r: Option<usize>)
        ensures
            match r {
                Some(i) => i < self@.nodes.len() && self@.nodes[i as int].label == content@,
                None => !has_label(self@.nodes, content@),
            },
    {
        let key: String = content.to_owned();
        let n = self.nodes.len();
        let mut i: usize = 0;
        while i < n
            invariant
                n == self.nodes@.len(),
                i <= n,
                key@ == content@,
                forall|k: int| 0 <= k < i ==> self@.nodes[k].label != content@,
            decreases n - i,
        {
            if self.nodes[i].label == key {
                assert(self@.nodes[i as int].label == content@);
                return Some(i);
            }
            i += 1;
        }
        None
    }

    /// How many labels the registry holds.
    pub fn node_count(&self) -> (c: usize)
        ensures
            c == self@.nodes.len(),
    {
        self.nodes.len()
    }

    /// Whether the registry holds an entry for `content`.
    pub fn contains(&self, content: &str) -> (b: bool)
        ensures
            b == has_label(self@.nodes, content@),
    {
        match self.find_index(content) {
            Some(i) => {
                proof {
                    assert(has_label(self@.nodes, content@));
                }
                true
            },
            None => false,
        }
    }

    /// A handle to the node labeled `content`, if the registry holds one.
    pub fn get_node(&self, content: &str) -> (r: Option<Node>)
        ensures
            r is Some <==> has_label(self@.nodes, content@),
            r matches Some(n) ==> n@ == content@,
    {
        match self.find_index(content) {
            Some(i) => {
                proof {
                    assert(has_label(self@.nodes, content@));
                }
                Some(Node { data: self.nodes[i].label.clone() })
            },
            None => None,
        }
    }

    /// Get-or-create: the registry index of `content`'s entry, creating a
    /// fresh childless entry when the label is new, and whether it was
    /// created by this call. This is the registry's check-and-insert
    /// critical section; no event is recorded here.
    fn get_or_create(&mut self, content: &str) -> (res: (usize, bool))
        requires
            old(self).wf(),
        ensures
            final(self).wf(),
            final(self)@ == create_node(old(self)@, content@),
            res.1 == !has_label(old(self)@.nodes, content@),
            res.0 < final(self)@.nodes.len(),
            final(self)@.nodes[res.0 as int].label == content@,
    {
        proof {
            lemma_create_node(old(self)@, content@);
        }
        match self.find_index(content) {
            Some(i) => {
                proof {
                    assert(has_label(self@.nodes, content@));
                }
                (i, false)
            },
            None => {
                let i = self.nodes.len();
                let ghost pre = self@;
                let rec = NodeRec { label: content.to_owned(), children: Vec::new() };
                let ghost rv = rec@;
                self.nodes.push(rec);
                proof {
                    assert(rv.label == content@);
                    assert(rv.children =~= Seq::<Seq<char>>::empty());
                    assert(self@.nodes =~= pre.nodes.push(
                        NodeView { label: content@, children: Seq::<Seq<char>>::empty() },
                    ));
                    assert(self@ == create_node(pre, content@));
                }
                (i, true)
            },
        }
    }

    /// Record `ev` on the event queue, if this graph has one. The result says
    /// whether the event counts as delivered: a graph without a queue
    /// delivers trivially; with a queue, delivery depends on whether the
    /// observer still listens, and the accepted event is appended to the
    /// log.
    fn emit(&mut self, ev: GraphEvent) -> (delivered: bool)
        ensures
            final(self)@.nodes == old(self)@.nodes,
            final(self)@.events_on == old(self)@.events_on,
            !old(self)@.events_on ==> delivered && final(self)@ == old(self)@,
            old(self)@.events_on && delivered ==> final(self)@ == log_event(old(self)@, ev@),
            old(self)@.events_on && !delivered ==> final(self)@ == old(self)@,
    {
        let ghost v = ev@;
        match &self.events_tx {
            None => true,
            Some(tx) => {
                if send_event(tx, ev) {
                    self.history = Ghost(self.history@.push(v));
                    true
                } else {
                    false
                }
            },
        }
    }

    /// Whether the children list of registry entry `i` holds an entry for
    /// `content`, resolvable or not.
    fn has_child_entry(&self, i: usize, content: &str) -> (b: bool)
        requires
            i < self@.nodes.len(),
        ensures
            b == self@.nodes[i as int].children.contains(content@),
    {
        let key: String = content.to_owned();
        let rec = &self.nodes[i];
        let m = rec.children.len();
        let mut j: usize = 0;
        while j < m
            invariant
                i < self@.nodes.len(),
                rec@ == self@.nodes[i as int],
                m == rec.children@.len(),
                key@ == content@,
                j <= m,
                forall|k: int| 0 <= k < j ==> rec@.children[k] != content@,
            decreases m - j,
        {
            if rec.children[j] == key {
                proof {
                    assert(rec@.children[j as int] == content@);
                    assert(self@.nodes[i as int].children.contains(content@));
                }
                return true;
            }
            proof {
                assert(rec@.children[j as int] == rec.children@[j as int]@);
            }
            j += 1;
        }
        proof {
            assert(forall|k: int|
                0 <= k < self@.nodes[i as int].children.len() ==> self@.nodes[i as int].children[k]
                    != content@);
        }
        false
    }

    /// Append `content` to the children list of registry entry `i`.
    fn push_child(&mut self, i: usize, content: &str)
        requires
            i < old(self)@.nodes.len(),
        ensures
            final(self)@.nodes == old(self)@.nodes.update(
                i as int,
                (NodeView {
                    children: old(self)@.nodes[i as int].children.push(content@),
                    ..old(self)@.nodes[i as int]
                }),
            ),
            final(self)@.events == old(self)@.events,
            final(self)@.events_on == old(self)@.events_on,
    {
        let ghost pre = self@;
        let rec = &mut self.nodes[i];
        rec.children.push(content.to_owned());
        proof {
            assert(self@.nodes[i as int].children =~= pre.nodes[i as int].children.push(content@));
            assert(self@.nodes =~= pre.nodes.update(
                i as int,
                (NodeView {
                    children: pre.nodes[i as int].children.push(content@),
                    ..pre.nodes[i as int]
                }),
            ));
        }
    }

    /// Insert the directed edge `parent_content -> child_content`, creating
    /// either node first if its label is new. Self-loops and cycles are
    /// permitted. An edge that already exists is rejected as a hard
    /// `DuplicateEdge` error, never a silent no-op; the duplicate test runs
    /// against the state at entry, an entry of the parent's children list
    /// counting whether or not its label still resolves, so a rejected call
    /// changes nothing and announces nothing. When this graph has an event
    /// queue, a non-duplicate call announces, in this order: the parent's
    /// creation (if it was new), the child's creation (if it was new), and
    /// then — only on success — the edge. A delivery failure aborts the
    /// call but rolls nothing back: whatever was committed before it stays.
    pub fn add_edge(&mut self, parent_content: &str, child_content: &str) -> (r: Result<
        (),
        GraphError,
    >)
        requires
            old(self).wf(),
        ensures
            final(self).wf(),
            final(self)@.events_on == old(self)@.events_on,
            r is Ok ==> !has_edge(old(self)@, parent_content@, child_content@) && final(self)@
                == after_add(old(self)@, parent_content@, child_content@),
            r matches Err(GraphError::DuplicateEdge) <==> has_edge(
                old(self)@,
                parent_content@,
                child_content@,
            ),
            r matches Err(GraphError::DuplicateEdge) ==> final(self)@ == old(self)@,
            !old(self)@.events_on ==> (r is Ok <==> !has_edge(
                old(self)@,
                parent_content@,
                child_content@,
            )),
            !old(self)@.events_on ==> !(r matches Err(GraphError::EventDeliveryFailed)),
            r matches Err(GraphError::EventDeliveryFailed) ==> old(self)@.events_on && !has_edge(
                old(self)@,
                parent_content@,
                child_content@,
            ) && ((!has_label(old(self)@.nodes, parent_content@) && final(self)@ == create_node(
                old(self)@,
                parent_content@,
            )) || (!has_label(stage_parent(old(self)@, parent_content@).nodes, child_content@)
                && final(self)@ == create_node(
                stage_parent(old(self)@, parent_content@),
                child_content@,
            )) || (final(self)@ == append_child(
                stage_creates(old(self)@, parent_content@, child_content@),
                parent_content@,
                child_content@,
            ))),
            old(self)@.nodes.len() <= final(self)@.nodes.len(),
            forall|l: Seq<char>|
                has_label(old(self)@.nodes, l) ==> has_label(final(self)@.nodes, l),
            r is Ok ==> has_edge(final(self)@, parent_content@, child_content@),
            log_consistent(old(self)@) ==> log_consistent(final(self)@),
    {
        let ghost g0 = self@;
        let ghost p: Seq<char> = parent_content@;
        let ghost c: Seq<char> = child_content@;
        proof {
            lemma_create_node(g0, p);
            lemma_stages(g0, p, c);
            if log_consistent(g0) {
                lemma_log_consistent_path(g0, p, c);
            }
        }
        // the duplicate scan runs against the pre-call state, before any
        // node is created: an entry naming the child's label is the edge,
        // live or stale, so a rejected call leaves the graph untouched
        let dup = match self.find_index(parent_content) {
            Some(pi0) => {
                proof {
                    lemma_idx_of_unique(g0.nodes, p, pi0 as int);
                }
                self.has_child_entry(pi0, child_content)
            },
            None => false,
        };
        proof {
            assert(dup == has_edge(g0, p, c));
        }
        if dup {
            return Err(GraphError::DuplicateEdge);
        }
        let (pi, p_new) = self.get_or_create(parent_content);
        if p_new {
            if !self.emit(GraphEvent::NodeAdded(parent_content.to_owned())) {
                return Err(GraphError::EventDeliveryFailed);
            }
        }
        proof {
            assert(self@ == stage_parent(g0, p));
        }
        let ghost g1 = stage_parent(g0, p);
        proof {
            lemma_create_node(g1, c);
        }
        let (_ci, c_new) = self.get_or_create(child_content);
        if c_new {
            if !self.emit(GraphEvent::NodeAdded(child_content.to_owned())) {
                return Err(GraphError::EventDeliveryFailed);
            }
        }
        proof {
            assert(self@ == stage_creates(g0, p, c));
        }
        let ghost g2 = stage_creates(g0, p, c);
        proof {
            // entry `pi` is still the parent's entry after the child phase
            assert(g2.nodes[pi as int] == create_node(g0, p).nodes[pi as int]);
            lemma_idx_of_unique(g2.nodes, p, pi as int);
        }
        self.push_child(pi, child_content);
        proof {
            assert(self@.nodes =~= append_child(g2, p, c).nodes);
            assert(self@ == append_child(g2, p, c));
            lemma_append_child(g2, p, c);
        }
        if !self.emit(GraphEvent::EdgeAdded(parent_content.to_owned(), child_content.to_owned())) {
            return Err(GraphError::EventDeliveryFailed);
        }
        proof {
            assert(self@ == after_add(g0, p, c));
        }
        Ok(())
    }

    /// Remove `content`'s entry from the registry: the seam that future
    /// deletion support would use, today only there so that dead children
    /// entries can arise at all. Children lists are not touched — entries
    /// naming the removed label simply stop resolving in every later
    /// adjacency snapshot. The root entry is never removed. No event is
    /// recorded, and removing a label that was announced forfeits the
    /// exactly-once guarantee for it. Because children entries are resolved
    /// through the registry by label, re-registering a removed label later
    /// makes stale entries naming it resolve again.
    pub fn remove_node(&mut self, content: &str) -> (removed: bool)
        requires
            old(self).wf(),
        ensures
            final(self).wf(),
            final(self)@.events == old(self)@.events,
            final(self)@.events_on == old(self)@.events_on,
            content@ == root_label() ==> !removed,
            content@ != root_label() ==> removed == has_label(old(self)@.nodes, content@),
            !removed ==> final(self)@ == old(self)@,
            removed ==> final(self)@.nodes == old(self)@.nodes.remove(
                idx_of(old(self)@.nodes, content@),
            ),
            removed ==> !has_label(final(self)@.nodes, content@),
            forall|l: Seq<char>|
                !has_label(old(self)@.nodes, l) ==> !has_label(final(self)@.nodes, l),
    {
        let rootkey: String = "root".to_owned();
        let key: String = content.to_owned();
        if key == rootkey {
            proof {
                assert(content@ == root_label());
            }
            return false;
        }
        match self.find_index(content) {
            None => false,
            Some(i) => {
                let ghost pre = self@;
                proof {
                    lemma_idx_of_unique(pre.nodes, content@, i as int);
                    assert(pre.nodes[0].label == root_label());
                    assert(i != 0);
                }
                self.nodes.remove(i);
                proof {
                    let post = self@.nodes;
                    let n = pre.nodes.len() as int;
                    assert(post =~= pre.nodes.remove(i as int));
                    assert forall|k: int| 0 <= k < post.len() implies post[k] == (if k < i {
                        pre.nodes[k]
                    } else {
                        pre.nodes[k + 1]
                    }) by {}
                    assert(post[0] == pre.nodes[0]);
                    assert forall|a: int, b: int| 0 <= a < b < post.len() implies post[a].label
                        != post[b].label by {
                        let a2: int = if a < i { a } else { a + 1 };
                        let b2: int = if b < i { b } else { b + 1 };
                        assert(pre.nodes[a2].label != pre.nodes[b2].label);
                    }
                    assert forall|l: Seq<char>| has_label(post, l) implies has_label(
                        pre.nodes,
                        l,
                    ) by {
                        let k = choose|k: int| 0 <= k < post.len() && post[k].label == l;
                        let k2: int = if k < i { k } else { k + 1 };
                        assert(pre.nodes[k2].label == l);
                    }
                    assert(!has_label(post, content@)) by {
                        if has_label(post, content@) {
                            let k = choose|k: int|
                                0 <= k < post.len() && post[k].label == content@;
                            let k2: int = if k < i { k } else { k + 1 };
                            assert(pre.nodes[k2].label == content@);
                            lemma_idx_of_unique(pre.nodes, content@, k2);
                        }
                    }
                }
                true
            },
        }
    }

    /// A handle to the always-present root node.
    pub fn get_root(&self) -> (n: Node)
        requires
            self.wf(),
        ensures
            n@ == root_label(),
            has_label(self@.nodes, n@),
    {
        proof {
            assert(self@.nodes[0].label == root_label());
        }
        Node { data: self.nodes[0].label.clone() }
    }
}

} // verus!
