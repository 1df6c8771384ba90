//! What an origin points to: its latest full visit, the most recent tip of
//! the snapshot of that visit, and the root tree of that tip.

use vstd::prelude::*;
use crate::graph::{node_in_bounds, Graph, GraphModel, NodeId, NodeType, Visit, VisitStatus};
use crate::resolve::{get_target_directory, root_directory};

verus! {

/// Position `i` holds the latest full visit: no full visit is later, and
/// every full visit before it is earlier.
pub open spec fn is_latest_full(visits: Seq<Visit>, i: int) -> bool {
    &&& 0 <= i < visits.len()
    &&& visits[i].status == VisitStatus::Full
    &&& forall|j: int|
        0 <= j < visits.len() && (#[trigger] visits[j]).status == VisitStatus::Full
            ==> visits[j].timestamp <= visits[i].timestamp
    &&& forall|j: int|
        0 <= j < i && (#[trigger] visits[j]).status == VisitStatus::Full ==> visits[j].timestamp
            < visits[i].timestamp
}

/// The position of the latest full visit, the first of them where several
/// are equally late; `None` where no visit is full.
pub open spec fn latest_full(visits: Seq<Visit>) -> Option<int>
    decreases visits.len(),
{
    if visits.len() == 0 {
        None
    } else {
        let before = latest_full(visits.drop_last());
        let last = visits.last();
        if last.status == VisitStatus::Full && (before matches Some(k) ==> visits[k].timestamp
            < last.timestamp) {
            Some(visits.len() - 1)
        } else {
            before
        }
    }
}

/// `latest_full` finds the position that `is_latest_full` describes, and
/// finds none exactly where no visit is full.
pub proof fn lemma_latest_full(visits: Seq<Visit>)
    ensures
        match latest_full(visits) {
            Some(i) => is_latest_full(visits, i),
            None => forall|j: int|
                0 <= j < visits.len() ==> (#[trigger] visits[j]).status != VisitStatus::Full,
        },
    decreases visits.len(),
{
    if visits.len() > 0 {
        let before = visits.drop_last();
        lemma_latest_full(before);
        assert(forall|j: int| 0 <= j < before.len() ==> before[j] == visits[j]);
        match latest_full(visits) {
            Some(i) => {
                assert forall|j: int|
                    0 <= j < visits.len() && (#[trigger] visits[j]).status
                        == VisitStatus::Full implies visits[j].timestamp
                    <= visits[i].timestamp by {
                    if j < before.len() {
                        assert(before[j].status == VisitStatus::Full);
                    }
                }
                assert forall|j: int|
                    0 <= j < i && (#[trigger] visits[j]).status
                        == VisitStatus::Full implies visits[j].timestamp
                    < visits[i].timestamp by {
                    assert(before[j].status == VisitStatus::Full);
                }
            },
            None => {
                assert forall|j: int| 0 <= j < visits.len() implies (#[trigger] visits[j]).status
                    != VisitStatus::Full by {
                    if j < before.len() {
                        assert(before[j].status != VisitStatus::Full);
                    }
                }
            },
        }
    }
}

/// The snapshot of the latest full visit of an origin, with the time of
/// that visit.
pub open spec fn most_recent_snapshot(g: GraphModel, origin: NodeId) -> Option<(NodeId, u64)> {
    let visits = g[origin as int].visits;
    match latest_full(visits) {
        None => None,
        Some(i) => Some((visits[i].snapshot, visits[i].timestamp)),
    }
}

/// The latest tip among `nodes` and its commit time: the first revision of
/// `nodes` whose commit time is positive and not exceeded by that of another
/// revision of `nodes`. Where no revision has a positive commit time, the
/// result is node 0 with time 0.
pub open spec fn latest_tip(g: GraphModel, nodes: Seq<NodeId>) -> (NodeId, i64)
    decreases nodes.len(),
{
    if nodes.len() == 0 {
        (0, 0)
    } else {
        let before = latest_tip(g, nodes.drop_last());
        let last = g[nodes.last() as int];
        match last.committer_timestamp {
            Some(t) if last.node_type == NodeType::Revision && t > before.1 => (nodes.last(), t),
            _ => before,
        }
    }
}

/// Whether `node` is a revision with the commit time `t`.
pub open spec fn is_tip_at(g: GraphModel, node: NodeId, t: i64) -> bool {
    g[node as int].node_type == NodeType::Revision && g[node as int].committer_timestamp == Some(t)
}

/// No revision of `nodes` has a commit time after `time`, which is not
/// negative. Where `time` is positive, `tip` is the first revision of
/// `nodes` that has it; where it is 0, `tip` is node 0.
pub open spec fn is_latest_tip(g: GraphModel, nodes: Seq<NodeId>, tip: NodeId, time: i64) -> bool {
    &&& time >= 0
    &&& forall|j: int, t: i64|
        0 <= j < nodes.len() && #[trigger] is_tip_at(g, nodes[j], t) ==> t <= time
    &&& time == 0 ==> tip == 0
    &&& time > 0 ==> exists|i: int|
        {
            &&& 0 <= i < nodes.len()
            &&& #[trigger] nodes[i] == tip
            &&& is_tip_at(g, tip, time)
            &&& forall|j: int, t: i64|
                0 <= j < i && #[trigger] is_tip_at(g, nodes[j], t) ==> t < time
        }
}

/// `latest_tip` finds what `is_latest_tip` describes.
pub proof fn lemma_latest_tip(g: GraphModel, nodes: Seq<NodeId>)
    ensures
        is_latest_tip(g, nodes, latest_tip(g, nodes).0, latest_tip(g, nodes).1),
    decreases nodes.len(),
{
    if nodes.len() > 0 {
        let before = nodes.drop_last();
        lemma_latest_tip(g, before);
        assert(forall|j: int| 0 <= j < before.len() ==> before[j] == nodes[j]);
        let (tip, time) = latest_tip(g, nodes);
        let (old_tip, old_time) = latest_tip(g, before);
        assert forall|j: int, t: i64|
            0 <= j < nodes.len() && #[trigger] is_tip_at(g, nodes[j], t) implies t <= time by {
            if j < before.len() {
                assert(is_tip_at(g, before[j], t));
            }
        }
        if time > 0 {
            if time == old_time && tip == old_tip {
                let i = choose|i: int|
                    {
                        &&& 0 <= i < before.len()
                        &&& #[trigger] before[i] == old_tip
                        &&& is_tip_at(g, old_tip, old_time)
                        &&& forall|j: int, t: i64|
                            0 <= j < i && #[trigger] is_tip_at(g, before[j], t) ==> t < old_time
                    };
                assert(nodes[i] == tip);
                assert forall|j: int, t: i64|
                    0 <= j < i && #[trigger] is_tip_at(g, nodes[j], t) implies t < time by {
                    assert(is_tip_at(g, before[j], t));
                }
            } else {
                let i = nodes.len() - 1;
                assert(nodes[i] == tip);
                assert forall|j: int, t: i64|
                    0 <= j < i && #[trigger] is_tip_at(g, nodes[j], t) implies t < time by {
                    assert(is_tip_at(g, before[j], t));
                }
            }
        }
    }
}

/// The most recent tip of a snapshot: the latest tip among its successors.
pub open spec fn most_recent_tip_revision(g: GraphModel, snapshot: NodeId) -> (NodeId, i64) {
    latest_tip(g, g[snapshot as int].successors)
}

/// The snapshot of the latest full visit of `origin_node`, with the time of
/// the visit. Of several full visits at the latest time, the first counts.
/// `None` when the origin has no full visit.
pub fn get_most_recent_snapshot(graph: &Graph, origin_node: &NodeId) -> (found: Option<
    (NodeId, u64),
>)
    requires
        *origin_node < graph@.len(),
    ensures
        found == most_recent_snapshot(graph@, *origin_node),
        found matches Some(f) ==> f.0 < graph@.len() && exists|i: int|
            {
                &&& #[trigger] is_latest_full(graph@[*origin_node as int].visits, i)
                &&& graph@[*origin_node as int].visits[i].snapshot == f.0
                &&& graph@[*origin_node as int].visits[i].timestamp == f.1
            },
        found.is_none() ==> forall|j: int|
            0 <= j < graph@[*origin_node as int].visits.len() ==> (
            #[trigger] graph@[*origin_node as int].visits[j]).status != VisitStatus::Full,
{
    proof {
        use_type_invariant(graph);
        lemma_latest_full(graph@[*origin_node as int].visits);
    }
    let visits = &graph.node_at(*origin_node).visits;
    let mut best: Option<usize> = None;
    let mut i: usize = 0;
    while i < visits.len()
        invariant
            i <= visits.len(),
            match best {
                Some(k) => k < i && latest_full(visits@.take(i as int)) == Some(k as int),
                None => latest_full(visits@.take(i as int)).is_none(),
            },
        decreases visits.len() - i,
    {
        assert(visits@.take(i as int + 1).drop_last() =~= visits@.take(i as int));
        let later = match best {
            None => true,
            Some(k) => visits[k].timestamp < visits[i].timestamp,
        };
        if visits[i].status == VisitStatus::Full && later {
            best = Some(i);
        }
        i = i + 1;
    }
    assert(visits@.take(i as int) =~= visits@);
    match best {
        None => None,
        Some(k) => {
            assert(node_in_bounds(graph@, *origin_node as int));
            Some((visits[k].snapshot, visits[k].timestamp))
        },
    }
}

/// The most recent tip of `snapshot_node` and its commit time: the first
/// revision among its successors whose commit time is positive and not
/// exceeded by that of another. Where no such revision exists, the result
/// is node 0 with time 0. The result is never `None`.
pub fn get_most_recent_tip_revision(graph: &Graph, snapshot_node: &NodeId) -> (found: Option<
    (NodeId, i64),
>)
    requires
        *snapshot_node < graph@.len(),
    ensures
        found == Some(most_recent_tip_revision(graph@, *snapshot_node)),
        found matches Some(f) ==> f.0 < graph@.len() && is_latest_tip(
            graph@,
            graph@[*snapshot_node as int].successors,
            f.0,
            f.1,
        ),
{
    proof {
        lemma_latest_tip(graph@, graph@[*snapshot_node as int].successors);
    }
    let successors = graph.successors(*snapshot_node);
    let mut ret: NodeId = 0;
    let mut max_timestamp: i64 = 0;
    let mut i: usize = 0;
    while i < successors.len()
        invariant
            forall|k: int|
                0 <= k < successors@.len() ==> (#[trigger] successors@[k]) < graph@.len(),
            i <= successors.len(),
            (ret, max_timestamp) == latest_tip(graph@, successors@.take(i as int)),
            ret < graph@.len(),
        decreases successors.len() - i,
    {
        assert(successors@.take(i as int + 1).drop_last() =~= successors@.take(i as int));
        let succ = successors[i];
        if graph.node_type(succ) == NodeType::Revision {
            if let Some(timestamp) = graph.committer_timestamp(succ) {
                if timestamp > max_timestamp {
                    ret = succ;
                    max_timestamp = timestamp;
                }
            }
        }
        i = i + 1;
    }
    assert(successors@.take(i as int) =~= successors@);
    Some((ret, max_timestamp))
}

/// What an origin points to.
#[derive(Clone, Copy, Debug, PartialEq, Eq, Structural)]
pub struct OriginInfo {
    /// The snapshot of the latest full visit.
    pub snapshot: NodeId,
    /// The time of that visit.
    pub visit_timestamp: u64,
    /// The most recent tip of the snapshot.
    pub revision: NodeId,
    /// The commit time of that tip.
    pub committer_timestamp: i64,
    /// The root tree of that tip.
    pub directory: NodeId,
}

/// The latest full snapshot of an origin, its most recent tip, and the root
/// tree of the tip; `None` where the origin has no full visit or the tip has
/// no root tree.
pub open spec fn origin_summary(g: GraphModel, origin: NodeId) -> Option<OriginInfo> {
    match most_recent_snapshot(g, origin) {
        None => None,
        Some((snapshot, visit_timestamp)) => {
            let (revision, committer_timestamp) = most_recent_tip_revision(g, snapshot);
            match root_directory(g, revision) {
                None => None,
                Some(directory) => Some(
                    OriginInfo {
                        snapshot,
                        visit_timestamp,
                        revision,
                        committer_timestamp,
                        directory,
                    },
                ),
            }
        },
    }
}

/// The latest full snapshot of `origin_node`, the most recent tip of that
/// snapshot, and the root tree of that tip.
pub fn origin_info(graph: &Graph, origin_node: NodeId) -> (info: Option<OriginInfo>)
    requires
        origin_node < graph@.len(),
    ensures
        info == origin_summary(graph@, origin_node),
{
    let (snapshot, visit_timestamp) = match get_most_recent_snapshot(graph, &origin_node) {
        None => {
            return None;
        },
        Some(found) => found,
    };
    let (revision, committer_timestamp) = match get_most_recent_tip_revision(graph, &snapshot) {
        None => {
            return None;
        },
        Some(found) => found,
    };
    match get_target_directory(graph, revision) {
        None => None,
        Some(directory) => Some(
            OriginInfo { snapshot, visit_timestamp, revision, committer_timestamp, directory },
        ),
    }
}

} // verus!
