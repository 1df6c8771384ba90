//! The walk: revisions leave the frontier most recent first, each is
//! processed once, and the reportable ones are collected until the frontier
//! is empty or the revision that introduced the path is found.

use std::collections::HashSet;
use vstd::prelude::*;
use crate::error::WalkError;
use crate::frontier::{
    enqueue, enqueue_all, front_index, lemma_front_index, process_revision, Frontier,
    FrontierEntry,
};
use crate::graph::{node_in_bounds, well_formed, FilenameId, Graph, GraphModel, NodeId, NodeType};
use crate::resolve::resolve;
use crate::simplify::{
    decide, followed, lemma_parents_in_bounds, parents, process, process_parent_revisions,
    resolve_all,
};

verus! {

broadcast use vstd::std_specs::hash::group_hash_axioms;

/// The state of a walk between two steps.
pub struct WalkState {
    /// The pending revisions, oldest entry first.
    pub frontier: Seq<FrontierEntry>,
    /// The revisions that were processed.
    pub visited: Set<NodeId>,
    /// The revisions reported so far, in the order in which they were found.
    pub reported: Seq<NodeId>,
}

/// What a walk produces.
pub struct Outcome {
    /// The reported revisions, in the order in which they left the frontier.
    pub revisions: Seq<NodeId>,
    /// The error that ended the walk early, if one did.
    pub failure: Option<WalkError>,
}

/// Every queued revision is a node of the graph.
pub open spec fn frontier_in_bounds(g: GraphModel, frontier: Seq<FrontierEntry>) -> bool {
    forall|i: int| 0 <= i < frontier.len() ==> (#[trigger] frontier[i]).1 < g.len()
}

/// How many of the nodes `0 .. n` are not in `visited`.
pub open spec fn unvisited(visited: Set<NodeId>, n: nat) -> nat
    decreases n,
{
    if n == 0 {
        0
    } else {
        let before = unvisited(visited, (n - 1) as nat);
        if visited.contains((n - 1) as usize) {
            before
        } else {
            before + 1
        }
    }
}

/// Visiting a node never raises the number of unvisited nodes, and lowers
/// it when the node is one of those counted and was not visited before.
pub proof fn lemma_unvisited_insert(visited: Set<NodeId>, n: nat, rev: NodeId)
    ensures
        unvisited(visited.insert(rev), n) <= unvisited(visited, n),
        rev < n && !visited.contains(rev) ==> unvisited(visited.insert(rev), n) < unvisited(
            visited,
            n,
        ),
    decreases n,
{
    if n > 0 {
        lemma_unvisited_insert(visited, (n - 1) as nat, rev);
    }
}

/// The walk from the state `s` to its end, for a frontier whose revisions
/// are nodes of the graph.
///
/// While revisions are pending, the one with the latest time leaves the
/// frontier. A revision that was processed before is dropped. Any other is
/// marked as visited and processed: an error ends the walk; a reportable
/// revision is added to the output; a stop ends the walk after that; else
/// the walk goes on with the parents that were queued.
///
/// Each step either visits a node that was not visited or shortens the
/// frontier, so the walk ends, whatever the arcs between the revisions.
pub open spec fn run(g: GraphModel, path: Seq<FilenameId>, s: WalkState) -> Outcome
    decreases unvisited(s.visited, g.len()), s.frontier.len(),
    when frontier_in_bounds(g, s.frontier)
{
    if s.frontier.len() == 0 {
        Outcome { revisions: s.reported, failure: None }
    } else {
        let k = front_index(s.frontier);
        let rev = s.frontier[k].1;
        let rest = s.frontier.remove(k);
        proof {
            lemma_front_index(s.frontier);
            lemma_unvisited_insert(s.visited, g.len(), rev);
        }
        if s.visited.contains(rev) {
            run(g, path, WalkState { frontier: rest, visited: s.visited, reported: s.reported })
        } else {
            match process(g, rev, path, rest) {
                Err(e) => Outcome { revisions: s.reported, failure: Some(e) },
                Ok(done) => {
                    let reported = if done.reportable {
                        s.reported.push(rev)
                    } else {
                        s.reported
                    };
                    if done.stop {
                        Outcome { revisions: reported, failure: None }
                    } else {
                        run(
                            g,
                            path,
                            WalkState {
                                frontier: done.frontier,
                                visited: s.visited.insert(rev),
                                reported,
                            },
                        )
                    }
                },
            }
        }
    }
}

/// The state in which a walk from `start` begins.
pub open spec fn initial_state(g: GraphModel, start: NodeId) -> WalkState {
    WalkState {
        frontier: enqueue(g, Seq::empty(), start),
        visited: Set::empty(),
        reported: Seq::empty(),
    }
}

/// The outcome of the walk from the revision `start` along `path`.
pub open spec fn walk(g: GraphModel, start: NodeId, path: Seq<FilenameId>) -> Outcome {
    run(g, path, initial_state(g, start))
}

/// Queuing nodes of the graph keeps the frontier inside the graph.
pub proof fn lemma_enqueue_all_in_bounds(g: GraphModel, s: Seq<FrontierEntry>, revs: Seq<NodeId>)
    requires
        frontier_in_bounds(g, s),
        forall|i: int| 0 <= i < revs.len() ==> (#[trigger] revs[i]) < g.len(),
    ensures
        frontier_in_bounds(g, enqueue_all(g, s, revs)),
        enqueue_all(g, s, revs).len() == s.len() + revs.len(),
    decreases revs.len(),
{
    if revs.len() > 0 {
        let before = revs.drop_last();
        lemma_enqueue_all_in_bounds(g, s, before);
    }
}

/// Processing a node of a well-formed graph keeps the frontier inside the
/// graph.
pub proof fn lemma_process_in_bounds(
    g: GraphModel,
    rev: NodeId,
    path: Seq<FilenameId>,
    frontier: Seq<FrontierEntry>,
)
    requires
        well_formed(g),
        rev < g.len(),
        frontier_in_bounds(g, frontier),
    ensures
        process(g, rev, path, frontier) matches Ok(done) ==> frontier_in_bounds(g, done.frontier),
{
    if let Ok(done) = process(g, rev, path, frontier) {
        let here = resolve(g, rev, path)->Ok_0;
        let ps = parents(g, rev);
        let ids = resolve_all(g, ps, path)->Ok_0;
        assert(node_in_bounds(g, rev as int));
        lemma_parents_in_bounds(g, g[rev as int].successors, NodeType::Revision);
        lemma_enqueue_all_in_bounds(g, frontier, followed(decide(here, ids).follow, here, ps, ids));
    }
}

/// What a walk found.
#[derive(Debug)]
pub struct WalkReport {
    /// The reported revisions, in the order in which they left the frontier.
    pub revisions: Vec<NodeId>,
    /// The error that ended the walk early, if one did.
    pub failure: Option<WalkError>,
}

impl View for WalkReport {
    type V = Outcome;

    open spec fn view(&self) -> Outcome {
        Outcome { revisions: self.revisions@, failure: self.failure }
    }
}

/// Walks the history of `start` and collects the revisions in which the
/// entry at `path_parts` changed.
///
/// The walk ends when no revision is pending, at the revision that
/// introduced the path, or at a revision without root tree; in the last
/// case the report holds the error beside what was found before it.
pub fn walk_revisions(graph: &Graph, start: NodeId, path_parts: &[FilenameId]) -> (report:
    WalkReport)
    requires
        start < graph@.len(),
    ensures
        report@ == walk(graph@, start, path_parts@),
{
    proof {
        use_type_invariant(graph);
    }
    let mut heap = Frontier::new();
    let mut visited: HashSet<NodeId> = HashSet::new();
    let mut revisions: Vec<NodeId> = Vec::new();
    process_revision(graph, &start, &mut heap);
    loop
        invariant
            well_formed(graph@),
            frontier_in_bounds(graph@, heap@),
            run(
                graph@,
                path_parts@,
                WalkState { frontier: heap@, visited: visited@, reported: revisions@ },
            ) == walk(graph@, start, path_parts@),
        decreases unvisited(visited@, graph@.len()), heap@.len(),
    {
        let ghost before = WalkState { frontier: heap@, visited: visited@, reported: revisions@ };
        let rev: NodeId = match heap.pop() {
            None => {
                return WalkReport { revisions, failure: None };
            },
            Some(entry) => entry.1,
        };
        proof {
            lemma_unvisited_insert(before.visited, graph@.len(), rev);
            lemma_process_in_bounds(graph@, rev, path_parts@, heap@);
        }
        if !visited.contains(&rev) {
            visited.insert(rev);
            match process_parent_revisions(graph, rev, path_parts, &mut heap) {
                Err(e) => {
                    return WalkReport { revisions, failure: Some(e) };
                },
                Ok((rev_with_path, stop_revs_walk)) => {
                    if rev_with_path {
                        revisions.push(rev);
                    }
                    if stop_revs_walk {
                        return WalkReport { revisions, failure: None };
                    }
                },
            }
        }
    }
}

/// The path made of `names`, where every component has an interned name.
pub open spec fn interned(names: Seq<Option<FilenameId>>) -> Option<Seq<FilenameId>> {
    if forall|i: int| 0 <= i < names.len() ==> (#[trigger] names[i]).is_some() {
        Some(Seq::new(names.len(), |i: int| names[i].unwrap()))
    } else {
        None
    }
}

/// The path made of `names`; `None` when a component has no interned name.
pub fn intern_path(names: &[Option<FilenameId>]) -> (path: Option<Vec<FilenameId>>)
    ensures
        match interned(names@) {
            None => path.is_none(),
            Some(expected) => path matches Some(found) && found@ == expected,
        },
{
    let mut path: Vec<FilenameId> = Vec::new();
    let mut i: usize = 0;
    while i < names.len()
        invariant
            i <= names.len(),
            path@.len() == i,
            forall|j: int| 0 <= j < i ==> (#[trigger] names@[j]) == Some(path@[j]),
        decreases names.len() - i,
    {
        match names[i] {
            None => {
                return None;
            },
            Some(name) => {
                path.push(name);
            },
        }
        i = i + 1;
    }
    Some(path)
}

/// The outcome of a request for the history of the path `names` from the
/// node `start`.
///
/// The request is refused when `start` is no node of the graph or no
/// revision. A path with a component that has no interned name exists
/// nowhere: the outcome is empty. Otherwise the outcome is that of the walk.
pub open spec fn revs_log(g: GraphModel, start: NodeId, names: Seq<Option<FilenameId>>) -> Outcome {
    if start >= g.len() {
        Outcome { revisions: Seq::empty(), failure: Some(WalkError::UnknownNode(start)) }
    } else if g[start as int].node_type != NodeType::Revision {
        Outcome { revisions: Seq::empty(), failure: Some(WalkError::NotARevision(start)) }
    } else {
        match interned(names) {
            None => Outcome { revisions: Seq::empty(), failure: None },
            Some(path) => walk(g, start, path),
        }
    }
}

/// The revisions, from `start` back, in which the entry at the path `names`
/// changed, in the order in which a history viewer shows them.
///
/// `names` holds the interned name of each component of the path, or `None`
/// for a component whose name the graph does not know.
pub fn revs_log_for_path(graph: &Graph, start: NodeId, names: &[Option<FilenameId>]) -> (report:
    WalkReport)
    ensures
        report@ == revs_log(graph@, start, names@),
{
    match graph.node(start) {
        None => {
            return WalkReport {
                revisions: Vec::new(),
                failure: Some(WalkError::UnknownNode(start)),
            };
        },
        Some(node) => {
            if node.node_type != NodeType::Revision {
                return WalkReport {
                    revisions: Vec::new(),
                    failure: Some(WalkError::NotARevision(start)),
                };
            }
        },
    }
    match intern_path(names) {
        None => WalkReport { revisions: Vec::new(), failure: None },
        Some(path) => walk_revisions(graph, start, path.as_slice()),
    }
}

} // verus!
