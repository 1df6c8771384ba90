use graph_revs_log_for_path::graph::{Graph, Node, NodeType};
use graph_revs_log_for_path::metrics::{
    directory_sizes, size_of_directory, subgraph_metrics, SizeError, SubgraphMetrics,
};
use std::collections::HashMap;

fn node(node_type: NodeType, successors: &[usize]) -> Node {
    let mut node = Node::new(node_type);
    node.successors = successors.to_vec();
    node
}

fn content(length: Option<u64>, skipped: bool) -> Node {
    let mut node = Node::new(NodeType::Content);
    node.content_length = length;
    node.is_skipped_content = skipped;
    node
}

/// 0: 10 bytes, 1: 20 bytes, 2: 400 bytes skipped, 3: dir {0, 1},
/// 4: dir {3, 1, 2}, 5: revision of 4, 6: revision of 3 with parent 5,
/// 7: content of unknown size, 8: dir {7}, 9: dir {4, 3}.
fn sample() -> Graph {
    let nodes = vec![
        content(Some(10), false),
        content(Some(20), false),
        content(Some(400), true),
        node(NodeType::Directory, &[0, 1]),
        node(NodeType::Directory, &[3, 1, 2]),
        node(NodeType::Revision, &[4]),
        node(NodeType::Revision, &[3, 5]),
        content(None, false),
        node(NodeType::Directory, &[7]),
        node(NodeType::Directory, &[4, 3]),
    ];
    Graph::from_nodes(nodes).expect("the sample graph is well formed")
}

#[test]
fn metrics_of_a_single_content() {
    let graph = sample();
    assert_eq!(
        subgraph_metrics(&graph, 0),
        Ok(SubgraphMetrics { nodes: 1, contents: 1, skipped_contents: 0, contents_size: 10 })
    );
    assert_eq!(
        subgraph_metrics(&graph, 2),
        Ok(SubgraphMetrics { nodes: 1, contents: 0, skipped_contents: 1, contents_size: 0 })
    );
}

#[test]
fn metrics_count_each_node_once() {
    let graph = sample();
    // From 4: 4, 3, 1, 2, 0. The content 1 is reached twice and counted once.
    assert_eq!(
        subgraph_metrics(&graph, 4),
        Ok(SubgraphMetrics { nodes: 5, contents: 2, skipped_contents: 1, contents_size: 30 })
    );
    assert_eq!(
        subgraph_metrics(&graph, 6),
        Ok(SubgraphMetrics { nodes: 7, contents: 2, skipped_contents: 1, contents_size: 30 })
    );
    assert_eq!(
        subgraph_metrics(&graph, 3),
        Ok(SubgraphMetrics { nodes: 3, contents: 2, skipped_contents: 0, contents_size: 30 })
    );
}

#[test]
fn metrics_survive_a_cycle() {
    let nodes = vec![
        node(NodeType::Revision, &[1, 2]),
        node(NodeType::Revision, &[0]),
        content(Some(u64::MAX), false),
        content(Some(u64::MAX), false),
        node(NodeType::Directory, &[2, 3, 0]),
    ];
    let graph = Graph::from_nodes(nodes).expect("well formed");
    assert_eq!(
        subgraph_metrics(&graph, 1),
        Ok(SubgraphMetrics {
            nodes: 3,
            contents: 1,
            skipped_contents: 0,
            contents_size: u64::MAX as u128,
        })
    );
    assert_eq!(
        subgraph_metrics(&graph, 4),
        Ok(SubgraphMetrics {
            nodes: 5,
            contents: 2,
            skipped_contents: 0,
            contents_size: 2 * (u64::MAX as u128),
        })
    );
}

#[test]
fn metrics_need_the_size_of_every_content() {
    let graph = sample();
    assert_eq!(subgraph_metrics(&graph, 8), Err(SizeError::MissingContentLength(7)));
    assert_eq!(subgraph_metrics(&graph, 7), Err(SizeError::MissingContentLength(7)));
}

#[test]
fn skipped_content_needs_a_size_too() {
    let graph = Graph::from_nodes(vec![content(None, true)]).expect("well formed");
    assert_eq!(subgraph_metrics(&graph, 0), Err(SizeError::MissingContentLength(0)));
    assert_eq!(directory_sizes(&graph, &[0]).err(), Some(SizeError::MissingContentLength(0)));
}

#[test]
fn directory_size_adds_what_it_holds() {
    let graph = sample();
    let mut known = HashMap::new();
    assert_eq!(size_of_directory(&graph, &known, 3), Ok(30));
    assert_eq!(size_of_directory(&graph, &known, 4), Err(SizeError::InvalidTopologicalOrdering(3)));
    known.insert(3, 30);
    // The skipped content adds nothing.
    assert_eq!(size_of_directory(&graph, &known, 4), Ok(50));
    assert_eq!(size_of_directory(&graph, &known, 8), Err(SizeError::MissingContentLength(7)));
    // A node that is no directory and no content adds nothing.
    assert_eq!(size_of_directory(&graph, &known, 6), Ok(30));
    assert_eq!(size_of_directory(&graph, &known, 0), Ok(0));
}

#[test]
fn sizes_follow_the_order() {
    let graph = sample();
    let sizes = directory_sizes(&graph, &[0, 1, 2, 3, 4, 5, 9, 6]).expect("a valid order");
    assert_eq!(sizes.contents_size, 30);
    assert_eq!(sizes.directory_sizes.len(), 3);
    assert_eq!(sizes.directory_sizes.get(&3), Some(&30));
    assert_eq!(sizes.directory_sizes.get(&4), Some(&50));
    // A directory that is held twice counts twice: 50 + 30.
    assert_eq!(sizes.directory_sizes.get(&9), Some(&80));
}

#[test]
fn sizes_of_an_empty_order_are_empty() {
    let graph = sample();
    let sizes = directory_sizes(&graph, &[]).expect("nothing can fail");
    assert_eq!(sizes.contents_size, 0);
    assert!(sizes.directory_sizes.is_empty());
}

#[test]
fn contents_of_the_order_are_added_as_often_as_they_come() {
    let graph = sample();
    let sizes = directory_sizes(&graph, &[1, 0, 1, 2, 5]).expect("a valid order");
    assert_eq!(sizes.contents_size, 50);
    assert!(sizes.directory_sizes.is_empty());
}

#[test]
fn directory_before_its_subdirectory_is_refused() {
    let graph = sample();
    assert_eq!(
        directory_sizes(&graph, &[0, 4, 3]).err(),
        Some(SizeError::InvalidTopologicalOrdering(3))
    );
    assert_eq!(
        directory_sizes(&graph, &[3, 9, 4]).err(),
        Some(SizeError::InvalidTopologicalOrdering(4))
    );
}

#[test]
fn first_failure_decides() {
    let graph = sample();
    assert_eq!(
        directory_sizes(&graph, &[3, 8, 9]).err(),
        Some(SizeError::MissingContentLength(7))
    );
    assert_eq!(
        directory_sizes(&graph, &[9, 7]).err(),
        Some(SizeError::InvalidTopologicalOrdering(4))
    );
    assert_eq!(directory_sizes(&graph, &[7, 9]).err(), Some(SizeError::MissingContentLength(7)));
}

#[test]
fn directory_size_that_does_not_fit_is_refused() {
    let nodes = vec![
        content(Some(u64::MAX), false),
        content(Some(1), false),
        node(NodeType::Directory, &[0]),
        node(NodeType::Directory, &[2, 1]),
        node(NodeType::Directory, &[1, 0]),
    ];
    let graph = Graph::from_nodes(nodes).expect("well formed");
    let sizes = directory_sizes(&graph, &[2, 0, 1]).expect("fits");
    assert_eq!(sizes.directory_sizes.get(&2), Some(&u64::MAX));
    assert_eq!(sizes.contents_size, u64::MAX as u128 + 1);
    assert_eq!(directory_sizes(&graph, &[2, 3]).err(), Some(SizeError::SizeOverflow(3)));
    assert_eq!(directory_sizes(&graph, &[4]).err(), Some(SizeError::SizeOverflow(4)));
}
