use graph_revs_log_for_path::error::WalkError;
use graph_revs_log_for_path::graph::{DirEntry, FilenameId, Graph, Node, NodeType};
use graph_revs_log_for_path::resolve::{
    directory_entry_get_by_path, find_entry, get_target_directory,
};

fn content() -> Node {
    Node::new(NodeType::Content)
}

fn directory(entries: &[(u64, usize)]) -> Node {
    let mut node = Node::new(NodeType::Directory);
    for &(name, target) in entries {
        node.successors.push(target);
        node.entries.push(DirEntry { name: FilenameId(name), target });
    }
    node
}

fn revision(successors: &[usize]) -> Node {
    let mut node = Node::new(NodeType::Revision);
    node.successors = successors.to_vec();
    node
}

fn path(names: &[u64]) -> Vec<FilenameId> {
    names.iter().map(|&n| FilenameId(n)).collect()
}

/// 0: file, 1: file, 2: dir "src" {main: 0, lib: 1}, 3: root {src: 2, readme: 1},
/// 4: revision of root 3, 5: revision without root, 6: revision whose first
/// successor is a revision and whose directories are 2 then 3.
fn sample() -> Graph {
    let nodes = vec![
        content(),
        content(),
        directory(&[(10, 0), (11, 1)]),
        directory(&[(20, 2), (21, 1)]),
        revision(&[3]),
        revision(&[4]),
        revision(&[4, 2, 3]),
    ];
    Graph::from_nodes(nodes).expect("the sample graph is well formed")
}

#[test]
fn graph_reports_its_nodes() {
    let graph = sample();
    assert_eq!(graph.num_nodes(), 7);
    assert_eq!(graph.node(4).map(|n| n.node_type), Some(NodeType::Revision));
    assert_eq!(graph.node(2).map(|n| n.entries.len()), Some(2));
    assert!(graph.node(7).is_none());
}

#[test]
fn graph_refuses_a_dangling_arc() {
    let nodes = vec![revision(&[1]), directory(&[]), revision(&[3])];
    assert!(Graph::from_nodes(nodes).is_none());
}

#[test]
fn graph_refuses_a_dangling_entry() {
    let nodes = vec![revision(&[1]), directory(&[(5, 2)])];
    assert!(Graph::from_nodes(nodes).is_none());
}

#[test]
fn graph_accepts_the_empty_graph() {
    let graph = Graph::from_nodes(Vec::new()).expect("an empty graph is well formed");
    assert_eq!(graph.num_nodes(), 0);
    assert!(graph.node(0).is_none());
}

#[test]
fn root_tree_is_the_first_directory_successor() {
    let graph = sample();
    assert_eq!(get_target_directory(&graph, 4), Some(3));
    assert_eq!(get_target_directory(&graph, 6), Some(2));
    assert_eq!(get_target_directory(&graph, 5), None);
    assert_eq!(get_target_directory(&graph, 0), None);
}

#[test]
fn entry_is_found_by_name() {
    let graph = sample();
    assert_eq!(find_entry(&graph, 3, FilenameId(20)), Some(2));
    assert_eq!(find_entry(&graph, 3, FilenameId(21)), Some(1));
    assert_eq!(find_entry(&graph, 3, FilenameId(10)), None);
    assert_eq!(find_entry(&graph, 0, FilenameId(10)), None);
}

#[test]
fn last_entry_of_a_name_wins() {
    let nodes = vec![content(), content(), directory(&[(7, 0), (8, 0), (7, 1)])];
    let graph = Graph::from_nodes(nodes).expect("well formed");
    assert_eq!(find_entry(&graph, 2, FilenameId(7)), Some(1));
    assert_eq!(find_entry(&graph, 2, FilenameId(8)), Some(0));
}

#[test]
fn empty_path_resolves_to_the_root_tree() {
    let graph = sample();
    assert_eq!(directory_entry_get_by_path(&graph, 4, &path(&[])), Ok(Some(3)));
}

#[test]
fn path_resolves_component_by_component() {
    let graph = sample();
    assert_eq!(directory_entry_get_by_path(&graph, 4, &path(&[20])), Ok(Some(2)));
    assert_eq!(directory_entry_get_by_path(&graph, 4, &path(&[20, 10])), Ok(Some(0)));
    assert_eq!(directory_entry_get_by_path(&graph, 4, &path(&[20, 11])), Ok(Some(1)));
    assert_eq!(directory_entry_get_by_path(&graph, 4, &path(&[21])), Ok(Some(1)));
}

#[test]
fn missing_component_makes_the_path_absent() {
    let graph = sample();
    assert_eq!(directory_entry_get_by_path(&graph, 4, &path(&[99])), Ok(None));
    assert_eq!(directory_entry_get_by_path(&graph, 4, &path(&[20, 99])), Ok(None));
    // The components after the missing one are not looked at.
    assert_eq!(directory_entry_get_by_path(&graph, 4, &path(&[99, 10])), Ok(None));
    // A file has no entries.
    assert_eq!(directory_entry_get_by_path(&graph, 4, &path(&[21, 10])), Ok(None));
}

#[test]
fn revision_without_root_tree_is_an_error() {
    let graph = sample();
    assert_eq!(
        directory_entry_get_by_path(&graph, 5, &path(&[20])),
        Err(WalkError::NoRootTree(5))
    );
    assert_eq!(directory_entry_get_by_path(&graph, 5, &path(&[])), Err(WalkError::NoRootTree(5)));
    assert_eq!(WalkError::NoRootTree(5).node(), 5);
}

#[test]
fn resolution_is_repeatable() {
    let graph = sample();
    let first = directory_entry_get_by_path(&graph, 6, &path(&[10]));
    let second = directory_entry_get_by_path(&graph, 6, &path(&[10]));
    assert_eq!(first, Ok(Some(0)));
    assert_eq!(first, second);
}
