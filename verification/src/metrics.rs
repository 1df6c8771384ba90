//! Sizes: what can be reached from a node, and how many bytes its contents
//! hold.

use std::collections::HashMap;
use std::collections::HashSet;
use std::collections::VecDeque;
use vstd::prelude::*;
use crate::graph::{node_in_bounds, well_formed, Graph, GraphModel, NodeId, NodeType};

verus! {

broadcast use vstd::std_specs::hash::group_hash_axioms;

/// Whoever is in `inside` has all it points to in `inside`.
pub open spec fn is_closed(g: GraphModel, inside: Set<NodeId>) -> bool {
    forall|v: NodeId, i: int|
        inside.contains(v) && v < g.len() && 0 <= i < g[v as int].successors.len()
            ==> inside.contains(#[trigger] g[v as int].successors[i])
}

/// Arcs lead from `from` to `to`: `to` is in every closed set that holds
/// `from`. Every node reaches itself.
pub open spec fn reachable(g: GraphModel, from: NodeId, to: NodeId) -> bool {
    forall|inside: Set<NodeId>| #[trigger]
        is_closed(g, inside) && inside.contains(from) ==> inside.contains(to)
}

/// The nodes that can be reached from `start`.
pub open spec fn reached(g: GraphModel, start: NodeId) -> Set<NodeId> {
    Set::new(|v: NodeId| reachable(g, start, v))
}

/// The sum of `weight` over the nodes `0 .. n` that are in `members`.
pub open spec fn tally(members: Set<NodeId>, n: nat, weight: spec_fn(NodeId) -> nat) -> nat
    decreases n,
{
    if n == 0 {
        0
    } else {
        let before = tally(members, (n - 1) as nat, weight);
        if members.contains((n - 1) as usize) {
            before + weight((n - 1) as usize)
        } else {
            before
        }
    }
}

/// Every node weighs one.
pub open spec fn each_node() -> spec_fn(NodeId) -> nat {
    |v: NodeId| 1nat
}

/// A content that the archive kept weighs one.
pub open spec fn each_content(g: GraphModel) -> spec_fn(NodeId) -> nat {
    |v: NodeId|
        if g[v as int].node_type == NodeType::Content && !g[v as int].is_skipped_content {
            1nat
        } else {
            0nat
        }
}

/// A content that the archive skipped weighs one.
pub open spec fn each_skipped_content(g: GraphModel) -> spec_fn(NodeId) -> nat {
    |v: NodeId|
        if g[v as int].node_type == NodeType::Content && g[v as int].is_skipped_content {
            1nat
        } else {
            0nat
        }
}

/// A content that the archive kept weighs its size in bytes.
pub open spec fn content_size(g: GraphModel) -> spec_fn(NodeId) -> nat {
    |v: NodeId|
        if g[v as int].node_type == NodeType::Content && !g[v as int].is_skipped_content {
            match g[v as int].content_length {
                Some(length) => length as nat,
                None => 0nat,
            }
        } else {
            0nat
        }
}

/// The measures of a set of nodes.
pub struct Metrics {
    /// The number of nodes.
    pub nodes: nat,
    /// The number of contents that the archive kept.
    pub contents: nat,
    /// The number of contents that the archive skipped.
    pub skipped_contents: nat,
    /// The bytes of the contents that the archive kept.
    pub contents_size: nat,
}

/// The measures of the nodes of `members`.
pub open spec fn metrics_of(g: GraphModel, members: Set<NodeId>) -> Metrics {
    Metrics {
        nodes: tally(members, g.len(), each_node()),
        contents: tally(members, g.len(), each_content(g)),
        skipped_contents: tally(members, g.len(), each_skipped_content(g)),
        contents_size: tally(members, g.len(), content_size(g)),
    }
}

/// The measures of what can be reached from `start`.
pub open spec fn subgraph_metrics_of(g: GraphModel, start: NodeId) -> Metrics {
    metrics_of(g, reached(g, start))
}

/// The node is a content whose size the graph does not know.
pub open spec fn lacks_length(g: GraphModel, v: NodeId) -> bool {
    g[v as int].node_type == NodeType::Content && g[v as int].content_length.is_none()
}

/// The nodes that `start` reaches are a closed set, and the least one that
/// holds `start`.
pub proof fn lemma_reached_is_least_closed(g: GraphModel, start: NodeId, inside: Set<NodeId>)
    ensures
        is_closed(g, reached(g, start)),
        reached(g, start).contains(start),
        is_closed(g, inside) && inside.contains(start) ==> reached(g, start).subset_of(inside),
{
}

/// The empty set tallies nothing.
pub proof fn lemma_tally_empty(n: nat, weight: spec_fn(NodeId) -> nat)
    ensures
        tally(Set::empty(), n, weight) == 0,
    decreases n,
{
    if n > 0 {
        lemma_tally_empty((n - 1) as nat, weight);
    }
}

/// Adding a node to a set adds its weight to the tally.
pub proof fn lemma_tally_insert(
    members: Set<NodeId>,
    n: nat,
    weight: spec_fn(NodeId) -> nat,
    v: NodeId,
)
    requires
        n <= usize::MAX,
        !members.contains(v),
    ensures
        tally(members.insert(v), n, weight) == tally(members, n, weight) + if v < n {
            weight(v)
        } else {
            0
        },
    decreases n,
{
    if n > 0 {
        lemma_tally_insert(members, (n - 1) as nat, weight, v);
    }
}

/// Two sets with the same members among the nodes `0 .. n` tally alike.
pub proof fn lemma_tally_same_members(
    a: Set<NodeId>,
    b: Set<NodeId>,
    n: nat,
    weight: spec_fn(NodeId) -> nat,
)
    requires
        n <= usize::MAX,
        forall|v: NodeId| v < n ==> (a.contains(v) <==> b.contains(v)),
    ensures
        tally(a, n, weight) == tally(b, n, weight),
    decreases n,
{
    if n > 0 {
        lemma_tally_same_members(a, b, (n - 1) as nat, weight);
    }
}

/// A tally is bounded by the number of nodes times the largest weight.
pub proof fn lemma_tally_bound(
    members: Set<NodeId>,
    n: nat,
    weight: spec_fn(NodeId) -> nat,
    most: nat,
)
    requires
        forall|v: NodeId| #[trigger] weight(v) <= most,
    ensures
        tally(members, n, weight) <= n * most,
    decreases n,
{
    if n > 0 {
        lemma_tally_bound(members, (n - 1) as nat, weight, most);
        assert((n - 1) * most + most == n * most) by (nonlinear_arith);
    } else {
        assert(0 * most == 0) by (nonlinear_arith);
    }
}

/// Why a size could not be computed.
#[derive(Clone, Copy, Debug, PartialEq, Eq, Structural)]
pub enum SizeError {
    /// The graph does not know the size of this content.
    MissingContentLength(NodeId),
    /// This directory comes before one of the directories it holds.
    InvalidTopologicalOrdering(NodeId),
    /// The size of this directory does not fit in 64 bits.
    SizeOverflow(NodeId),
}

/// The measures of a part of the graph.
#[derive(Clone, Copy, Debug, PartialEq, Eq, Structural)]
pub struct SubgraphMetrics {
    /// The number of nodes.
    pub nodes: usize,
    /// The number of contents that the archive kept.
    pub contents: usize,
    /// The number of contents that the archive skipped.
    pub skipped_contents: usize,
    /// The bytes of the contents that the archive kept.
    pub contents_size: u128,
}

impl View for SubgraphMetrics {
    type V = Metrics;

    open spec fn view(&self) -> Metrics {
        Metrics {
            nodes: self.nodes as nat,
            contents: self.contents as nat,
            skipped_contents: self.skipped_contents as nat,
            contents_size: self.contents_size as nat,
        }
    }
}

/// The nodes of `visited` are those of `processed` and those of `queue`;
/// no node is queued twice, and none that was processed is queued.
pub open spec fn is_partition(
    processed: Set<NodeId>,
    queue: Seq<NodeId>,
    visited: Set<NodeId>,
) -> bool {
    &&& forall|v: NodeId| #[trigger]
        visited.contains(v) <==> processed.contains(v) || queue.contains(v)
    &&& queue.no_duplicates()
    &&& forall|i: int| 0 <= i < queue.len() ==> !processed.contains(#[trigger] queue[i])
}

/// Every visited node is a node of the graph that `start` reaches.
pub open spec fn is_sound(g: GraphModel, start: NodeId, visited: Set<NodeId>) -> bool {
    forall|v: NodeId| #[trigger] visited.contains(v) ==> v < g.len() && reachable(g, start, v)
}

/// All that a processed node points to was visited.
pub open spec fn is_explored(g: GraphModel, processed: Set<NodeId>, visited: Set<NodeId>) -> bool {
    forall|v: NodeId, i: int|
        processed.contains(v) && v < g.len() && 0 <= i < g[v as int].successors.len()
            ==> visited.contains(#[trigger] g[v as int].successors[i])
}

/// Taking the first node from the queue and counting it as processed keeps
/// the partition.
proof fn lemma_partition_pop(processed: Set<NodeId>, queue: Seq<NodeId>, visited: Set<NodeId>)
    requires
        is_partition(processed, queue, visited),
        queue.len() > 0,
    ensures
        !processed.contains(queue[0]),
        visited.contains(queue[0]),
        is_partition(processed.insert(queue[0]), queue.subrange(1, queue.len() as int), visited),
{
    let node = queue[0];
    let rest = queue.subrange(1, queue.len() as int);
    assert forall|v: NodeId| #[trigger]
        visited.contains(v) <==> processed.insert(node).contains(v) || rest.contains(v) by {
        if rest.contains(v) {
            let i = choose|i: int| 0 <= i < rest.len() && rest[i] == v;
            assert(queue[i + 1] == v);
        }
        if queue.contains(v) && v != node {
            let i = choose|i: int| 0 <= i < queue.len() && queue[i] == v;
            assert(rest[i - 1] == v);
        }
    }
}

/// Queueing a node that was not visited, and counting it as visited, keeps
/// the partition.
proof fn lemma_partition_push(
    processed: Set<NodeId>,
    queue: Seq<NodeId>,
    visited: Set<NodeId>,
    node: NodeId,
)
    requires
        is_partition(processed, queue, visited),
        !visited.contains(node),
    ensures
        is_partition(processed, queue.push(node), visited.insert(node)),
{
    let longer = queue.push(node);
    assert forall|v: NodeId| #[trigger]
        visited.insert(node).contains(v) <==> processed.contains(v) || longer.contains(v) by {
        if longer.contains(v) {
            let i = choose|i: int| 0 <= i < longer.len() && longer[i] == v;
            assert(i < queue.len() ==> queue[i] == v);
        }
        if queue.contains(v) {
            let i = choose|i: int| 0 <= i < queue.len() && queue[i] == v;
            assert(longer[i] == v);
        }
        if v == node {
            assert(longer[queue.len() as int] == v);
        }
    }
}

/// Once nothing is queued, the processed nodes are those that `start`
/// reaches.
proof fn lemma_search_is_complete(
    g: GraphModel,
    start: NodeId,
    processed: Set<NodeId>,
    visited: Set<NodeId>,
)
    requires
        is_partition(processed, Seq::empty(), visited),
        is_sound(g, start, visited),
        is_explored(g, processed, visited),
        visited.contains(start),
    ensures
        forall|v: NodeId| processed.contains(v) <==> reachable(g, start, v),
{
    lemma_reached_is_least_closed(g, start, processed);
    assert forall|v: NodeId| processed.contains(v) <==> reachable(g, start, v) by {
        if processed.contains(v) {
            assert(visited.contains(v));
        }
    }
}

/// Counts what can be reached from `start`: the nodes, the contents that
/// the archive kept, those that it skipped, and the bytes of those it kept.
///
/// Fails when a content that can be reached has no known size.
pub fn subgraph_metrics(graph: &Graph, start: NodeId) -> (result: Result<
    SubgraphMetrics,
    SizeError,
>)
    requires
        start < graph@.len(),
    ensures
        match result {
            Ok(found) => {
                &&& found@ == subgraph_metrics_of(graph@, start)
                &&& forall|v: NodeId| reachable(graph@, start, v) ==> !lacks_length(graph@, v)
            },
            Err(e) => exists|v: NodeId|
                e == SizeError::MissingContentLength(v) && v < graph@.len() && reachable(
                    graph@,
                    start,
                    v,
                ) && #[trigger] lacks_length(graph@, v),
        },
{
    proof {
        use_type_invariant(graph);
    }
    let n: usize = graph.num_nodes();
    let mut queue: VecDeque<NodeId> = VecDeque::new();
    let mut visited: HashSet<NodeId> = HashSet::new();
    let ghost mut processed: Set<NodeId> = Set::empty();
    proof {
        lemma_partition_push(processed, queue@, visited@, start);
        lemma_tally_empty(n as nat, each_node());
        lemma_tally_empty(n as nat, each_content(graph@));
        lemma_tally_empty(n as nat, each_skipped_content(graph@));
        lemma_tally_empty(n as nat, content_size(graph@));
    }
    queue.push_back(start);
    visited.insert(start);

    let mut nodes: usize = 0;
    let mut contents: usize = 0;
    let mut skipped_contents: usize = 0;
    let mut contents_size: u128 = 0;

    loop
        invariant
            well_formed(graph@),
            n == graph@.len(),
            is_partition(processed, queue@, visited@),
            is_sound(graph@, start, visited@),
            is_explored(graph@, processed, visited@),
            visited@.contains(start),
            forall|v: NodeId| processed.contains(v) ==> !lacks_length(graph@, v),
            nodes == tally(processed, n as nat, each_node()),
            contents == tally(processed, n as nat, each_content(graph@)),
            skipped_contents == tally(processed, n as nat, each_skipped_content(graph@)),
            contents_size == tally(processed, n as nat, content_size(graph@)),
            nodes <= n,
            contents <= nodes,
            skipped_contents <= nodes,
            contents_size <= nodes * 0xffff_ffff_ffff_ffff,
        decreases n - nodes,
    {
        let ghost old_queue = queue@;
        let node: NodeId = match queue.pop_front() {
            None => {
                proof {
                    lemma_search_is_complete(graph@, start, processed, visited@);
                    let all = reached(graph@, start);
                    assert forall|v: NodeId| reachable(graph@, start, v) implies !lacks_length(
                        graph@,
                        v,
                    ) by {
                        assert(processed.contains(v));
                    }
                    lemma_tally_same_members(processed, all, n as nat, each_node());
                    lemma_tally_same_members(processed, all, n as nat, each_content(graph@));
                    lemma_tally_same_members(
                        processed,
                        all,
                        n as nat,
                        each_skipped_content(graph@),
                    );
                    lemma_tally_same_members(processed, all, n as nat, content_size(graph@));
                }
                return Ok(SubgraphMetrics { nodes, contents, skipped_contents, contents_size });
            },
            Some(node) => node,
        };
        let ghost after = processed.insert(node);
        proof {
            lemma_partition_pop(processed, old_queue, visited@);
            lemma_tally_insert(processed, n as nat, each_node(), node);
            lemma_tally_insert(processed, n as nat, each_content(graph@), node);
            lemma_tally_insert(processed, n as nat, each_skipped_content(graph@), node);
            lemma_tally_insert(processed, n as nat, content_size(graph@), node);
            lemma_tally_bound(after, n as nat, each_node(), 1);
        }
        nodes = nodes + 1;
        let info = graph.node_at(node);
        if info.node_type == NodeType::Content {
            match info.content_length {
                None => {
                    assert(lacks_length(graph@, node));
                    return Err(SizeError::MissingContentLength(node));
                },
                Some(size) => {
                    if !info.is_skipped_content {
                        contents_size = contents_size + size as u128;
                        contents = contents + 1;
                    } else {
                        skipped_contents = skipped_contents + 1;
                    }
                },
            }
        }
        let successors = &info.successors;
        let mut i: usize = 0;
        while i < successors.len()
            invariant
                well_formed(graph@),
                n == graph@.len(),
                node < n,
                reachable(graph@, start, node),
                successors@ == graph@[node as int].successors,
                i <= successors.len(),
                is_partition(after, queue@, visited@),
                is_sound(graph@, start, visited@),
                is_explored(graph@, processed, visited@),
                forall|k: int| 0 <= k < i ==> visited@.contains(#[trigger] successors@[k]),
                visited@.contains(start),
            decreases successors.len() - i,
        {
            let succ = successors[i];
            proof {
                assert(node_in_bounds(graph@, node as int));
            }
            if !visited.contains(&succ) {
                proof {
                    lemma_partition_push(after, queue@, visited@, succ);
                }
                queue.push_back(succ);
                visited.insert(succ);
            }
            i = i + 1;
        }
        proof {
            processed = after;
        }
    }
}

/// The sizes found along an order of the nodes.
pub struct SizesModel {
    /// The size of each directory met so far.
    pub directories: Map<NodeId, u64>,
    /// The bytes of the contents met so far that the archive kept.
    pub contents_size: nat,
}

/// What the node `succ` adds to the size of a directory that holds it, when
/// the sizes `known` were computed before: a directory adds its size, a
/// content that the archive kept adds its length, anything else nothing.
pub open spec fn successor_size(g: GraphModel, known: Map<NodeId, u64>, succ: NodeId) -> Result<
    nat,
    SizeError,
> {
    let node = g[succ as int];
    if node.node_type == NodeType::Directory {
        if known.contains_key(succ) {
            Ok(known[succ] as nat)
        } else {
            Err(SizeError::InvalidTopologicalOrdering(succ))
        }
    } else if node.node_type == NodeType::Content {
        match node.content_length {
            None => Err(SizeError::MissingContentLength(succ)),
            Some(length) => Ok(
                if node.is_skipped_content {
                    0nat
                } else {
                    length as nat
                },
            ),
        }
    } else {
        Ok(0nat)
    }
}

/// The size of the directory `dir` as the sum over `successors`, taken in
/// order; the first successor that cannot be added decides the error.
pub open spec fn directory_size(
    g: GraphModel,
    known: Map<NodeId, u64>,
    dir: NodeId,
    successors: Seq<NodeId>,
) -> Result<nat, SizeError>
    decreases successors.len(),
{
    if successors.len() == 0 {
        Ok(0nat)
    } else {
        match directory_size(g, known, dir, successors.drop_last()) {
            Err(e) => Err(e),
            Ok(before) => match successor_size(g, known, successors.last()) {
                Err(e) => Err(e),
                Ok(added) => if before + added > u64::MAX {
                    Err(SizeError::SizeOverflow(dir))
                } else {
                    Ok(before + added)
                },
            },
        }
    }
}

/// The sizes after `node` was met: a directory gets its size from those
/// computed before, a content adds to the total.
pub open spec fn sizes_with(g: GraphModel, before: SizesModel, node: NodeId) -> Result<
    SizesModel,
    SizeError,
> {
    let info = g[node as int];
    if info.node_type == NodeType::Directory {
        match directory_size(g, before.directories, node, info.successors) {
            Err(e) => Err(e),
            Ok(size) => Ok(
                SizesModel {
                    directories: before.directories.insert(node, size as u64),
                    contents_size: before.contents_size,
                },
            ),
        }
    } else if info.node_type == NodeType::Content {
        match info.content_length {
            None => Err(SizeError::MissingContentLength(node)),
            Some(length) => Ok(
                SizesModel {
                    directories: before.directories,
                    contents_size: before.contents_size + if info.is_skipped_content {
                        0nat
                    } else {
                        length as nat
                    },
                },
            ),
        }
    } else {
        Ok(before)
    }
}

/// The sizes after the nodes of `order` were met one by one; the first
/// node that fails decides the error.
pub open spec fn sizes_in_order(g: GraphModel, order: Seq<NodeId>) -> Result<SizesModel, SizeError>
    decreases order.len(),
{
    if order.len() == 0 {
        Ok(SizesModel { directories: Map::empty(), contents_size: 0 })
    } else {
        match sizes_in_order(g, order.drop_last()) {
            Err(e) => Err(e),
            Ok(before) => sizes_with(g, before, order.last()),
        }
    }
}

/// An error among the first `k` successors is the error of the directory.
proof fn lemma_directory_size_error(
    g: GraphModel,
    known: Map<NodeId, u64>,
    dir: NodeId,
    successors: Seq<NodeId>,
    k: int,
)
    requires
        0 <= k <= successors.len(),
        directory_size(g, known, dir, successors.take(k)).is_err(),
    ensures
        directory_size(g, known, dir, successors) == directory_size(
            g,
            known,
            dir,
            successors.take(k),
        ),
    decreases successors.len(),
{
    if k == successors.len() {
        assert(successors.take(k) =~= successors);
    } else {
        assert(successors.drop_last().take(k) =~= successors.take(k));
        lemma_directory_size_error(g, known, dir, successors.drop_last(), k);
    }
}

/// An error among the first `k` nodes is the error of the whole order.
proof fn lemma_sizes_in_order_error(g: GraphModel, order: Seq<NodeId>, k: int)
    requires
        0 <= k <= order.len(),
        sizes_in_order(g, order.take(k)).is_err(),
    ensures
        sizes_in_order(g, order) == sizes_in_order(g, order.take(k)),
    decreases order.len(),
{
    if k == order.len() {
        assert(order.take(k) =~= order);
    } else {
        assert(order.drop_last().take(k) =~= order.take(k));
        lemma_sizes_in_order_error(g, order.drop_last(), k);
    }
}

/// The sizes found along an order of the nodes.
#[derive(Debug)]
pub struct OrderedSizes {
    /// The size in bytes of each directory of the order.
    pub directory_sizes: HashMap<NodeId, u64>,
    /// The bytes of the contents of the order that the archive kept.
    pub contents_size: u128,
}

impl View for OrderedSizes {
    type V = SizesModel;

    open spec fn view(&self) -> SizesModel {
        SizesModel {
            directories: self.directory_sizes@,
            contents_size: self.contents_size as nat,
        }
    }
}

/// The size of the directory `dir`, when `known` holds the size of every
/// directory met before.
///
/// Fails when `dir` holds a directory that is not in `known`, a content of
/// unknown size, or more bytes than fit in 64 bits.
pub fn size_of_directory(graph: &Graph, known: &HashMap<NodeId, u64>, dir: NodeId) -> (size:
    Result<u64, SizeError>)
    requires
        dir < graph@.len(),
    ensures
        match directory_size(graph@, known@, dir, graph@[dir as int].successors) {
            Err(e) => size == Err::<u64, SizeError>(e),
            Ok(expected) => size matches Ok(found) && found == expected,
        },
{
    proof {
        use_type_invariant(graph);
    }
    let successors = &graph.node_at(dir).successors;
    let mut length: u64 = 0;
    let mut i: usize = 0;
    while i < successors.len()
        invariant
            well_formed(graph@),
            dir < graph@.len(),
            successors@ == graph@[dir as int].successors,
            i <= successors.len(),
            directory_size(graph@, known@, dir, successors@.take(i as int)) == Ok::<
                nat,
                SizeError,
            >(length as nat),
        decreases successors.len() - i,
    {
        let succ = successors[i];
        proof {
            assert(node_in_bounds(graph@, dir as int));
            assert(successors@.take(i as int + 1).drop_last() =~= successors@.take(i as int));
        }
        let info = graph.node_at(succ);
        let added: u64 = if info.node_type == NodeType::Directory {
            match known.get(&succ) {
                None => {
                    proof {
                        lemma_directory_size_error(
                            graph@,
                            known@,
                            dir,
                            successors@,
                            i as int + 1,
                        );
                    }
                    return Err(SizeError::InvalidTopologicalOrdering(succ));
                },
                Some(dir_length) => *dir_length,
            }
        } else if info.node_type == NodeType::Content {
            match info.content_length {
                None => {
                    proof {
                        lemma_directory_size_error(
                            graph@,
                            known@,
                            dir,
                            successors@,
                            i as int + 1,
                        );
                    }
                    return Err(SizeError::MissingContentLength(succ));
                },
                Some(size) => if info.is_skipped_content {
                    0
                } else {
                    size
                },
            }
        } else {
            0
        };
        length = match length.checked_add(added) {
            None => {
                proof {
                    lemma_directory_size_error(graph@, known@, dir, successors@, i as int + 1);
                }
                return Err(SizeError::SizeOverflow(dir));
            },
            Some(sum) => sum,
        };
        i = i + 1;
    }
    assert(successors@.take(i as int) =~= successors@);
    Ok(length)
}

/// Computes, in one pass over `order`, the size of every directory of the
/// order and the bytes of all contents of the order that the archive kept.
///
/// The order has to name each directory after the directories it holds.
/// The pass fails at the first node that breaks this, that is or holds a
/// content of unknown size, or that is a directory of more bytes than fit
/// in 64 bits.
pub fn directory_sizes(graph: &Graph, order: &[NodeId]) -> (sizes: Result<OrderedSizes, SizeError>)
    requires
        forall|i: int| 0 <= i < order@.len() ==> (#[trigger] order@[i]) < graph@.len(),
    ensures
        match sizes_in_order(graph@, order@) {
            Err(e) => sizes matches Err(found) && found == e,
            Ok(expected) => sizes matches Ok(found) && found@ == expected,
        },
{
    let mut dir_lengths: HashMap<NodeId, u64> = HashMap::new();
    let mut total_contents_size: u128 = 0;
    let mut i: usize = 0;
    while i < order.len()
        invariant
            i <= order.len(),
            forall|k: int| 0 <= k < order@.len() ==> (#[trigger] order@[k]) < graph@.len(),
            sizes_in_order(graph@, order@.take(i as int)) == Ok::<SizesModel, SizeError>(
                SizesModel {
                    directories: dir_lengths@,
                    contents_size: total_contents_size as nat,
                },
            ),
            total_contents_size <= i * 0xffff_ffff_ffff_ffff,
        decreases order.len() - i,
    {
        let node = order[i];
        proof {
            assert(order@.take(i as int + 1).drop_last() =~= order@.take(i as int));
        }
        let info = graph.node_at(node);
        if info.node_type == NodeType::Directory {
            match size_of_directory(graph, &dir_lengths, node) {
                Err(e) => {
                    proof {
                        lemma_sizes_in_order_error(graph@, order@, i as int + 1);
                    }
                    return Err(e);
                },
                Ok(length) => {
                    dir_lengths.insert(node, length);
                },
            }
        } else if info.node_type == NodeType::Content {
            match info.content_length {
                None => {
                    proof {
                        lemma_sizes_in_order_error(graph@, order@, i as int + 1);
                    }
                    return Err(SizeError::MissingContentLength(node));
                },
                Some(size) => {
                    if !info.is_skipped_content {
                        total_contents_size = total_contents_size + size as u128;
                    }
                },
            }
        }
        assert(total_contents_size <= (i + 1) * 0xffff_ffff_ffff_ffff) by (nonlinear_arith)
            requires
                total_contents_size <= i * 0xffff_ffff_ffff_ffff || total_contents_size <= (i + 1)
                    * 0xffff_ffff_ffff_ffff,
        ;
        i = i + 1;
    }
    assert(order@.take(i as int) =~= order@);
    Ok(OrderedSizes { directory_sizes: dir_lengths, contents_size: total_contents_size })
}

} // verus!
