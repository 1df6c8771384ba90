//! The artifact graph: nodes, their types, their arcs and directory entries.

use vstd::prelude::*;

verus! {

/// A node is identified by its position in the graph.
pub type NodeId = usize;

/// The kind of artifact a node stands for.
#[derive(Clone, Copy, Debug, PartialEq, Eq, Structural)]
pub enum NodeType {
    Content,
    Directory,
    Origin,
    Release,
    Revision,
    Snapshot,
}

/// An interned name of a directory entry.
#[derive(Clone, Copy, Debug, PartialEq, Eq, Structural)]
pub struct FilenameId(pub u64);

/// A named entry of a directory.
#[derive(Clone, Copy, Debug, PartialEq, Eq, Structural)]
pub struct DirEntry {
    pub name: FilenameId,
    pub target: NodeId,
}

/// How a visit of an origin ended.
#[derive(Clone, Copy, Debug, PartialEq, Eq, Structural)]
pub enum VisitStatus {
    Full,
    Partial,
}

/// A visit of an origin, and the snapshot it produced.
#[derive(Clone, Copy, Debug, PartialEq, Eq, Structural)]
pub struct Visit {
    pub snapshot: NodeId,
    /// Time of the visit in seconds.
    pub timestamp: u64,
    pub status: VisitStatus,
}

/// What the graph records of one node.
#[derive(Clone, Debug)]
pub struct Node {
    pub node_type: NodeType,
    /// Commit time in seconds, where the node is a revision that has one.
    pub committer_timestamp: Option<i64>,
    /// Targets of the arcs that leave the node, in the graph's order.
    pub successors: Vec<NodeId>,
    /// The named entries of a directory, in the graph's order.
    pub entries: Vec<DirEntry>,
    /// The visits of an origin, in the graph's order.
    pub visits: Vec<Visit>,
    /// Size in bytes, where the node is a content of known size.
    pub content_length: Option<u64>,
    /// Whether the node is a content that the archive did not keep.
    pub is_skipped_content: bool,
}

/// The mathematical content of a [`Node`].
pub struct NodeModel {
    pub node_type: NodeType,
    pub committer_timestamp: Option<i64>,
    pub successors: Seq<NodeId>,
    pub entries: Seq<DirEntry>,
    pub visits: Seq<Visit>,
    pub content_length: Option<u64>,
    pub is_skipped_content: bool,
}

impl View for Node {
    type V = NodeModel;

    open spec fn view(&self) -> NodeModel {
        NodeModel {
            node_type: self.node_type,
            committer_timestamp: self.committer_timestamp,
            successors: self.successors@,
            entries: self.entries@,
            visits: self.visits@,
            content_length: self.content_length,
            is_skipped_content: self.is_skipped_content,
        }
    }
}

impl Node {
    /// A node of the given type of which nothing else is recorded.
    pub fn new(node_type: NodeType) -> (node: Node)
        ensures
            node@ == (NodeModel {
                node_type,
                committer_timestamp: None,
                successors: Seq::empty(),
                entries: Seq::empty(),
                visits: Seq::empty(),
                content_length: None,
                is_skipped_content: false,
            }),
    {
        Node {
            node_type,
            committer_timestamp: None,
            successors: Vec::new(),
            entries: Vec::new(),
            visits: Vec::new(),
            content_length: None,
            is_skipped_content: false,
        }
    }
}

/// A graph as a sequence of node models, indexed by node identifier.
pub type GraphModel = Seq<NodeModel>;

/// Every arc, directory entry and visit of node `n` ends at a node of the
/// graph.
pub open spec fn node_in_bounds(g: GraphModel, n: int) -> bool {
    &&& forall|i: int| 0 <= i < g[n].successors.len() ==> (#[trigger] g[n].successors[i]) < g.len()
    &&& forall|i: int| 0 <= i < g[n].entries.len() ==> (#[trigger] g[n].entries[i]).target < g.len()
    &&& forall|i: int| 0 <= i < g[n].visits.len() ==> (#[trigger] g[n].visits[i]).snapshot < g.len()
}

/// Every arc, directory entry and visit ends at a node of the graph.
pub open spec fn well_formed(g: GraphModel) -> bool {
    forall|n: int| 0 <= n < g.len() ==> #[trigger] node_in_bounds(g, n)
}

/// The models of the nodes of `nodes`, in order.
pub open spec fn models_of(nodes: Seq<Node>) -> GraphModel {
    Seq::new(nodes.len(), |i: int| nodes[i]@)
}

/// A read-only graph whose arcs, entries and visits all end inside it.
pub struct Graph {
    nodes: Vec<Node>,
}

impl View for Graph {
    type V = GraphModel;

    closed spec fn view(&self) -> GraphModel {
        models_of(self.nodes@)
    }
}

impl Graph {
    /// Holds of every graph that exists at run time.
    #[verifier::type_invariant]
    pub open spec fn inv(self) -> bool {
        well_formed(self@)
    }

    /// Builds a graph from its nodes; fails when an arc, an entry or a visit
    /// points outside of them.
    pub fn from_nodes(nodes: Vec<Node>) -> (graph: Option<Graph>)
        ensures
            graph.is_some() <==> well_formed(models_of(nodes@)),
            graph matches Some(g) ==> g@ == models_of(nodes@),
    {
        let n: usize = nodes.len();
        let mut idx: usize = 0;
        while idx < n
            invariant
                n == nodes.len(),
                idx <= n,
                forall|k: int| 0 <= k < idx ==> #[trigger] node_in_bounds(models_of(nodes@), k),
            decreases n - idx,
        {
            if !Self::check_node(&nodes, idx) {
                return None;
            }
            idx = idx + 1;
        }
        Some(Graph { nodes })
    }

    fn check_node(nodes: &Vec<Node>, idx: usize) -> (ok: bool)
        requires
            idx < nodes.len(),
        ensures
            ok == node_in_bounds(models_of(nodes@), idx as int),
    {
        let n: usize = nodes.len();
        let node = &nodes[idx];
        let ghost g = models_of(nodes@);
        let mut i: usize = 0;
        while i < node.successors.len()
            invariant
                n == nodes.len(),
                idx < n,
                g == models_of(nodes@),
                *node == nodes@[idx as int],
                i <= node.successors.len(),
                forall|k: int| 0 <= k < i ==> (#[trigger] g[idx as int].successors[k]) < g.len(),
            decreases node.successors.len() - i,
        {
            if node.successors[i] >= n {
                assert(g[idx as int].successors[i as int] >= g.len());
                return false;
            }
            i = i + 1;
        }
        let mut j: usize = 0;
        while j < node.entries.len()
            invariant
                n == nodes.len(),
                idx < n,
                g == models_of(nodes@),
                *node == nodes@[idx as int],
                j <= node.entries.len(),
                forall|k: int|
                    0 <= k < j ==> (#[trigger] g[idx as int].entries[k]).target < g.len(),
            decreases node.entries.len() - j,
        {
            if node.entries[j].target >= n {
                assert(g[idx as int].entries[j as int].target >= g.len());
                return false;
            }
            j = j + 1;
        }
        let mut v: usize = 0;
        while v < node.visits.len()
            invariant
                n == nodes.len(),
                idx < n,
                g == models_of(nodes@),
                *node == nodes@[idx as int],
                v <= node.visits.len(),
                forall|k: int|
                    0 <= k < v ==> (#[trigger] g[idx as int].visits[k]).snapshot < g.len(),
            decreases node.visits.len() - v,
        {
            if node.visits[v].snapshot >= n {
                return false;
            }
            v = v + 1;
        }
        true
    }

    /// The number of nodes.
    pub fn num_nodes(&self) -> (n: usize)
        ensures
            n == self@.len(),
    {
        self.nodes.len()
    }

    /// The node with identifier `id`, if the graph has one.
    pub fn node(&self, id: NodeId) -> (node: Option<&Node>)
        ensures
            node.is_some() <==> id < self@.len(),
            node matches Some(n) ==> n@ == self@[id as int],
    {
        if id < self.nodes.len() {
            Some(&self.nodes[id])
        } else {
            None
        }
    }

    /// The node with identifier `id`.
    pub fn node_at(&self, id: NodeId) -> (node: &Node)
        requires
            id < self@.len(),
        ensures
            node@ == self@[id as int],
    {
        &self.nodes[id]
    }

    /// The type of the node `id`.
    pub fn node_type(&self, id: NodeId) -> (node_type: NodeType)
        requires
            id < self@.len(),
        ensures
            node_type == self@[id as int].node_type,
    {
        self.nodes[id].node_type
    }

    /// The commit time of the node `id`, where it has one.
    pub fn committer_timestamp(&self, id: NodeId) -> (timestamp: Option<i64>)
        requires
            id < self@.len(),
        ensures
            timestamp == self@[id as int].committer_timestamp,
    {
        self.nodes[id].committer_timestamp
    }

    /// The targets of the arcs that leave the node `id`, all of them nodes
    /// of the graph.
    pub fn successors(&self, id: NodeId) -> (successors: &[NodeId])
        requires
            id < self@.len(),
        ensures
            successors@ == self@[id as int].successors,
            forall|i: int| 0 <= i < successors@.len() ==> (#[trigger] successors@[i]) < self@.len(),
    {
        proof {
            use_type_invariant(self);
            assert(node_in_bounds(self@, id as int));
        }
        self.nodes[id].successors.as_slice()
    }

    /// The named entries of the node `id`, each with a node of the graph as
    /// its target.
    pub fn labeled_successors(&self, id: NodeId) -> (entries: &[DirEntry])
        requires
            id < self@.len(),
        ensures
            entries@ == self@[id as int].entries,
            forall|i: int|
                0 <= i < entries@.len() ==> (#[trigger] entries@[i]).target < self@.len(),
    {
        proof {
            use_type_invariant(self);
            assert(node_in_bounds(self@, id as int));
        }
        self.nodes[id].entries.as_slice()
    }
}

} // verus!
