use graph_revs_log_for_path::error::WalkError;
use graph_revs_log_for_path::frontier::Frontier;
use graph_revs_log_for_path::graph::{DirEntry, FilenameId, Graph, Node, NodeType};
use graph_revs_log_for_path::simplify::{
    decide_revision, enqueue_revisions, followed_parents, parent_revisions,
    process_parent_revisions, resolve_revisions, Decision, ParentPolicy,
};

const FILE: u64 = 1;

struct Builder {
    nodes: Vec<Node>,
}

impl Builder {
    fn new() -> Builder {
        Builder { nodes: Vec::new() }
    }

    fn add(&mut self, node: Node) -> usize {
        self.nodes.push(node);
        self.nodes.len() - 1
    }

    fn content(&mut self) -> usize {
        self.add(Node::new(NodeType::Content))
    }

    /// A root tree that holds the file `FILE` with the given content, or
    /// nothing.
    fn tree(&mut self, file: Option<usize>) -> usize {
        let mut node = Node::new(NodeType::Directory);
        if let Some(target) = file {
            node.successors.push(target);
            node.entries.push(DirEntry { name: FilenameId(FILE), target });
        }
        self.add(node)
    }

    fn revision(&mut self, timestamp: i64, tree: Option<usize>, parents: &[usize]) -> usize {
        let mut node = Node::new(NodeType::Revision);
        node.committer_timestamp = Some(timestamp);
        if let Some(tree) = tree {
            node.successors.push(tree);
        }
        node.successors.extend_from_slice(parents);
        self.add(node)
    }

    fn build(self) -> Graph {
        Graph::from_nodes(self.nodes).expect("the test graph is well formed")
    }
}

fn drain(frontier: &mut Frontier) -> Vec<(i64, usize)> {
    let mut out = Vec::new();
    while let Some(entry) = frontier.pop() {
        out.push(entry);
    }
    out
}

fn file_path() -> Vec<FilenameId> {
    vec![FilenameId(FILE)]
}

#[test]
fn root_revision_with_the_path_is_reportable() {
    assert_eq!(
        decide_revision(Some(4), &[]),
        Decision { follow: ParentPolicy::FollowAll, reportable: true, stop: false }
    );
}

#[test]
fn root_revision_without_the_path_is_not_reportable() {
    assert_eq!(
        decide_revision(None, &[]),
        Decision { follow: ParentPolicy::FollowAll, reportable: false, stop: false }
    );
}

#[test]
fn single_parent_with_the_same_entry_is_passed_through() {
    assert_eq!(
        decide_revision(Some(4), &[Some(4)]),
        Decision { follow: ParentPolicy::FollowAll, reportable: false, stop: false }
    );
}

#[test]
fn single_parent_with_another_entry_is_a_change() {
    assert_eq!(
        decide_revision(Some(4), &[Some(5)]),
        Decision { follow: ParentPolicy::FollowAll, reportable: true, stop: false }
    );
}

#[test]
fn single_parent_without_the_path_is_the_introduction() {
    assert_eq!(
        decide_revision(Some(4), &[None]),
        Decision { follow: ParentPolicy::FollowAll, reportable: true, stop: true }
    );
}

#[test]
fn absent_path_follows_every_parent() {
    assert_eq!(
        decide_revision(None, &[Some(4), None, Some(5)]),
        Decision { follow: ParentPolicy::FollowAll, reportable: false, stop: false }
    );
    // Two absent paths are equal, which changes nothing for an absent path.
    assert_eq!(
        decide_revision(None, &[None, None]),
        Decision { follow: ParentPolicy::FollowAll, reportable: false, stop: false }
    );
}

#[test]
fn merge_with_an_unchanged_parent_follows_it_alone() {
    assert_eq!(
        decide_revision(Some(4), &[Some(4), None]),
        Decision { follow: ParentPolicy::FollowFirstMatch, reportable: false, stop: false }
    );
    assert_eq!(
        decide_revision(Some(4), &[Some(7), Some(4), Some(4)]),
        Decision { follow: ParentPolicy::FollowFirstMatch, reportable: false, stop: false }
    );
}

#[test]
fn merge_that_differs_from_every_parent_is_a_change() {
    assert_eq!(
        decide_revision(Some(4), &[Some(5), Some(6)]),
        Decision { follow: ParentPolicy::FollowAll, reportable: true, stop: false }
    );
    assert_eq!(
        decide_revision(Some(4), &[Some(5), None]),
        Decision { follow: ParentPolicy::FollowAll, reportable: true, stop: false }
    );
}

#[test]
fn merge_of_parents_without_the_path_is_the_introduction() {
    assert_eq!(
        decide_revision(Some(4), &[None, None]),
        Decision { follow: ParentPolicy::FollowAll, reportable: true, stop: true }
    );
}

#[test]
fn follow_all_selects_the_parents_in_order() {
    let selected =
        followed_parents(ParentPolicy::FollowAll, Some(4), &[8, 9, 3], &[Some(5), None, Some(6)]);
    assert_eq!(selected, vec![8, 9, 3]);
    assert_eq!(followed_parents(ParentPolicy::FollowAll, None, &[], &[]), Vec::<usize>::new());
}

#[test]
fn follow_first_match_selects_one_parent() {
    let selected = followed_parents(
        ParentPolicy::FollowFirstMatch,
        Some(4),
        &[8, 9, 3],
        &[Some(5), Some(4), Some(4)],
    );
    assert_eq!(selected, vec![9]);
    let none = followed_parents(ParentPolicy::FollowFirstMatch, Some(4), &[8, 9], &[None, Some(5)]);
    assert_eq!(none, Vec::<usize>::new());
}

#[test]
fn parents_are_the_revision_successors() {
    let mut b = Builder::new();
    let file = b.content();
    let tree = b.tree(Some(file));
    let first = b.revision(10, Some(tree), &[]);
    let second = b.revision(20, Some(tree), &[]);
    let merge = b.revision(30, Some(tree), &[second, first]);
    let graph = b.build();
    assert_eq!(parent_revisions(&graph, merge), vec![second, first]);
    assert_eq!(parent_revisions(&graph, first), Vec::<usize>::new());
    assert_eq!(parent_revisions(&graph, tree), Vec::<usize>::new());
}

#[test]
fn parents_are_resolved_in_order() {
    let mut b = Builder::new();
    let file = b.content();
    let with = b.tree(Some(file));
    let without = b.tree(None);
    let first = b.revision(10, Some(with), &[]);
    let second = b.revision(20, Some(without), &[]);
    let bare = b.revision(25, None, &[]);
    let bare2 = b.revision(26, None, &[]);
    let graph = b.build();
    assert_eq!(
        resolve_revisions(&graph, &[first, second], &file_path()),
        Ok(vec![Some(file), None])
    );
    assert_eq!(resolve_revisions(&graph, &[], &file_path()), Ok(vec![]));
    assert_eq!(
        resolve_revisions(&graph, &[first, bare, bare2], &file_path()),
        Err(WalkError::NoRootTree(bare))
    );
}

#[test]
fn revisions_are_queued_in_order() {
    let mut b = Builder::new();
    let first = b.revision(10, None, &[]);
    let second = b.revision(10, None, &[]);
    let graph = b.build();
    let mut frontier = Frontier::new();
    enqueue_revisions(&graph, &[second, first, second], &mut frontier);
    assert_eq!(drain(&mut frontier), vec![(10, second), (10, first), (10, second)]);
}

/// A merge of two parents: the path resolves to the same entry in the merge
/// and in its first parent and is absent from its second parent.
#[test]
fn merge_with_mainline_scenario() {
    let mut b = Builder::new();
    let e = b.content();
    let with = b.tree(Some(e));
    let without = b.tree(None);
    let first = b.revision(10, Some(with), &[]);
    let second = b.revision(20, Some(without), &[]);
    let merge = b.revision(30, Some(with), &[first, second]);
    let graph = b.build();

    let parents = parent_revisions(&graph, merge);
    assert_eq!(parents, vec![first, second]);
    let ids = resolve_revisions(&graph, &parents, &file_path()).expect("every parent has a tree");
    assert_eq!(ids, vec![Some(e), None]);
    let decision = decide_revision(Some(e), &ids);
    assert_eq!(decision.follow, ParentPolicy::FollowFirstMatch);
    assert!(!decision.reportable);
    assert!(!decision.stop);

    let mut frontier = Frontier::new();
    let result = process_parent_revisions(&graph, merge, &file_path(), &mut frontier);
    assert_eq!(result, Ok((false, false)));
    assert_eq!(drain(&mut frontier), vec![(10, first)]);
}

#[test]
fn merge_with_mainline_as_second_parent() {
    let mut b = Builder::new();
    let e = b.content();
    let other = b.content();
    let same = b.tree(Some(e));
    let changed = b.tree(Some(other));
    let first = b.revision(10, Some(changed), &[]);
    let second = b.revision(20, Some(same), &[]);
    let merge = b.revision(30, Some(same), &[first, second]);
    let graph = b.build();
    let mut frontier = Frontier::new();
    frontier.push(5, 0);
    let result = process_parent_revisions(&graph, merge, &file_path(), &mut frontier);
    assert_eq!(result, Ok((false, false)));
    assert_eq!(drain(&mut frontier), vec![(20, second), (5, 0)]);
}

#[test]
fn merge_that_changes_the_path_queues_every_parent() {
    let mut b = Builder::new();
    let e = b.content();
    let e1 = b.content();
    let e2 = b.content();
    let here = b.tree(Some(e));
    let t1 = b.tree(Some(e1));
    let t2 = b.tree(Some(e2));
    let first = b.revision(10, Some(t1), &[]);
    let second = b.revision(20, Some(t2), &[]);
    let merge = b.revision(30, Some(here), &[first, second]);
    let graph = b.build();
    let mut frontier = Frontier::new();
    let result = process_parent_revisions(&graph, merge, &file_path(), &mut frontier);
    assert_eq!(result, Ok((true, false)));
    assert_eq!(drain(&mut frontier), vec![(20, second), (10, first)]);
}

#[test]
fn revision_without_the_path_queues_every_parent() {
    let mut b = Builder::new();
    let e = b.content();
    let with = b.tree(Some(e));
    let without = b.tree(None);
    let first = b.revision(10, Some(with), &[]);
    let second = b.revision(20, Some(without), &[]);
    let merge = b.revision(30, Some(without), &[first, second]);
    let graph = b.build();
    let mut frontier = Frontier::new();
    let result = process_parent_revisions(&graph, merge, &file_path(), &mut frontier);
    assert_eq!(result, Ok((false, false)));
    assert_eq!(drain(&mut frontier), vec![(20, second), (10, first)]);
}

#[test]
fn introduction_is_reported_and_stops() {
    let mut b = Builder::new();
    let e = b.content();
    let with = b.tree(Some(e));
    let without = b.tree(None);
    let parent = b.revision(10, Some(without), &[]);
    let rev = b.revision(20, Some(with), &[parent]);
    let graph = b.build();
    let mut frontier = Frontier::new();
    let result = process_parent_revisions(&graph, rev, &file_path(), &mut frontier);
    assert_eq!(result, Ok((true, true)));
    // A single parent is queued in any case.
    assert_eq!(drain(&mut frontier), vec![(10, parent)]);
}

#[test]
fn root_revision_is_reported_when_it_has_the_path() {
    let mut b = Builder::new();
    let e = b.content();
    let with = b.tree(Some(e));
    let without = b.tree(None);
    let has = b.revision(10, Some(with), &[]);
    let has_not = b.revision(10, Some(without), &[]);
    let graph = b.build();
    let mut frontier = Frontier::new();
    assert_eq!(
        process_parent_revisions(&graph, has, &file_path(), &mut frontier),
        Ok((true, false))
    );
    assert_eq!(
        process_parent_revisions(&graph, has_not, &file_path(), &mut frontier),
        Ok((false, false))
    );
    assert!(frontier.is_empty());
}

#[test]
fn missing_root_tree_leaves_the_frontier_alone() {
    let mut b = Builder::new();
    let e = b.content();
    let with = b.tree(Some(e));
    let good = b.revision(10, Some(with), &[]);
    let bare = b.revision(20, None, &[]);
    let child = b.revision(30, Some(with), &[good, bare]);
    let orphan = b.revision(40, None, &[good]);
    let graph = b.build();
    let mut frontier = Frontier::new();
    frontier.push(1, good);
    assert_eq!(
        process_parent_revisions(&graph, child, &file_path(), &mut frontier),
        Err(WalkError::NoRootTree(bare))
    );
    assert_eq!(
        process_parent_revisions(&graph, orphan, &file_path(), &mut frontier),
        Err(WalkError::NoRootTree(orphan))
    );
    assert_eq!(drain(&mut frontier), vec![(1, good)]);
}
