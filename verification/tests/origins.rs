use graph_revs_log_for_path::graph::{Graph, Node, NodeType, Visit, VisitStatus};
use graph_revs_log_for_path::origins::{
    get_most_recent_snapshot, get_most_recent_tip_revision, origin_info, OriginInfo,
};

fn node(node_type: NodeType, successors: &[usize]) -> Node {
    let mut node = Node::new(node_type);
    node.successors = successors.to_vec();
    node
}

fn revision(timestamp: Option<i64>, successors: &[usize]) -> Node {
    let mut node = node(NodeType::Revision, successors);
    node.committer_timestamp = timestamp;
    node
}

fn origin(visits: &[(usize, u64, VisitStatus)]) -> Node {
    let mut node = Node::new(NodeType::Origin);
    for &(snapshot, timestamp, status) in visits {
        if !node.successors.contains(&snapshot) {
            node.successors.push(snapshot);
        }
        node.visits.push(Visit { snapshot, timestamp, status });
    }
    node
}

/// 0: directory, 1: directory, 2..5: revisions, 6: release, 7..9: snapshots,
/// 10..13: origins.
fn sample() -> Graph {
    let nodes = vec![
        node(NodeType::Directory, &[]),
        node(NodeType::Directory, &[]),
        revision(Some(100), &[0]),
        revision(Some(300), &[2, 1]),
        revision(Some(300), &[0]),
        revision(None, &[]),
        node(NodeType::Release, &[3]),
        node(NodeType::Snapshot, &[2, 6, 3, 4]),
        node(NodeType::Snapshot, &[5, 6]),
        node(NodeType::Snapshot, &[5]),
        origin(&[
            (7, 10, VisitStatus::Full),
            (8, 40, VisitStatus::Partial),
            (8, 30, VisitStatus::Full),
            (7, 30, VisitStatus::Full),
        ]),
        origin(&[(7, 10, VisitStatus::Partial)]),
        origin(&[]),
        origin(&[(9, 5, VisitStatus::Full)]),
    ];
    Graph::from_nodes(nodes).expect("the sample graph is well formed")
}

#[test]
fn graph_refuses_a_dangling_visit() {
    let nodes = vec![origin(&[(1, 10, VisitStatus::Full)])];
    assert!(Graph::from_nodes(nodes).is_none());
    let mut lone = Node::new(NodeType::Origin);
    lone.visits.push(Visit { snapshot: 5, timestamp: 1, status: VisitStatus::Partial });
    assert!(Graph::from_nodes(vec![lone, Node::new(NodeType::Snapshot)]).is_none());
}

#[test]
fn latest_full_visit_wins() {
    let graph = sample();
    // The partial visit at 40 does not count; of the two full visits at 30
    // the first one does.
    assert_eq!(get_most_recent_snapshot(&graph, &10), Some((8, 30)));
    assert_eq!(get_most_recent_snapshot(&graph, &13), Some((9, 5)));
}

#[test]
fn origin_without_full_visit_has_no_snapshot() {
    let graph = sample();
    assert_eq!(get_most_recent_snapshot(&graph, &11), None);
    assert_eq!(get_most_recent_snapshot(&graph, &12), None);
    assert_eq!(get_most_recent_snapshot(&graph, &2), None);
}

#[test]
fn latest_visit_at_time_zero_counts() {
    let graph = Graph::from_nodes(vec![
        Node::new(NodeType::Snapshot),
        origin(&[(0, 0, VisitStatus::Full), (0, 0, VisitStatus::Full)]),
    ])
    .expect("well formed");
    assert_eq!(get_most_recent_snapshot(&graph, &1), Some((0, 0)));
}

#[test]
fn most_recent_tip_is_the_first_latest_revision() {
    let graph = sample();
    // The release is no revision; of the two revisions at 300 the first counts.
    assert_eq!(get_most_recent_tip_revision(&graph, &7), Some((3, 300)));
}

#[test]
fn snapshot_without_dated_revision_gives_node_zero() {
    let graph = sample();
    assert_eq!(get_most_recent_tip_revision(&graph, &8), Some((0, 0)));
    assert_eq!(get_most_recent_tip_revision(&graph, &9), Some((0, 0)));
    assert_eq!(get_most_recent_tip_revision(&graph, &0), Some((0, 0)));
}

#[test]
fn commit_times_up_to_zero_are_passed_over() {
    let graph = Graph::from_nodes(vec![
        node(NodeType::Directory, &[]),
        revision(Some(-5), &[0]),
        revision(Some(0), &[0]),
        node(NodeType::Snapshot, &[1, 2]),
        revision(Some(1), &[0]),
        node(NodeType::Snapshot, &[1, 4, 2]),
    ])
    .expect("well formed");
    assert_eq!(get_most_recent_tip_revision(&graph, &3), Some((0, 0)));
    assert_eq!(get_most_recent_tip_revision(&graph, &5), Some((4, 1)));
}

#[test]
fn origin_info_chains_the_lookups() {
    let graph = Graph::from_nodes(vec![
        node(NodeType::Directory, &[]),
        revision(Some(100), &[0]),
        revision(Some(200), &[1, 0]),
        node(NodeType::Snapshot, &[1, 2]),
        origin(&[(3, 77, VisitStatus::Full)]),
    ])
    .expect("well formed");
    assert_eq!(
        origin_info(&graph, 4),
        Some(OriginInfo {
            snapshot: 3,
            visit_timestamp: 77,
            revision: 2,
            committer_timestamp: 200,
            directory: 0,
        })
    );
}

#[test]
fn origin_info_needs_a_full_visit_and_a_root_tree() {
    let graph = sample();
    // Latest full snapshot 8 has no dated revision: the tip is node 0, a
    // directory without directory successor.
    assert_eq!(origin_info(&graph, 10), None);
    assert_eq!(origin_info(&graph, 11), None);
    assert_eq!(origin_info(&graph, 12), None);
}
