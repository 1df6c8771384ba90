//! History simplification: which parents of a revision are followed, whether
//! the revision is reported, and whether the walk ends with it.

use vstd::prelude::*;
use crate::error::WalkError;
use crate::frontier::{enqueue_all, process_revision, Frontier, FrontierEntry};
use crate::graph::{FilenameId, Graph, GraphModel, NodeId, NodeType};
use crate::resolve::{directory_entry_get_by_path, resolve, PathId};

verus! {

/// The nodes of `nodes` that have type `t`, in order.
pub open spec fn of_type(g: GraphModel, nodes: Seq<NodeId>, t: NodeType) -> Seq<NodeId>
    decreases nodes.len(),
{
    if nodes.len() == 0 {
        Seq::empty()
    } else {
        let before = of_type(g, nodes.drop_last(), t);
        if g[nodes.last() as int].node_type == t {
            before.push(nodes.last())
        } else {
            before
        }
    }
}

/// The parents of a revision: its successors that are revisions, in order.
pub open spec fn parents(g: GraphModel, rev: NodeId) -> Seq<NodeId> {
    of_type(g, g[rev as int].successors, NodeType::Revision)
}

/// What `path` resolves to in each revision of `revs`, or the error of the
/// first of them that has no root tree.
pub open spec fn resolve_all(g: GraphModel, revs: Seq<NodeId>, path: Seq<FilenameId>) -> Result<
    Seq<PathId>,
    WalkError,
>
    decreases revs.len(),
{
    if revs.len() == 0 {
        Ok(Seq::empty())
    } else {
        match resolve_all(g, revs.drop_last(), path) {
            Err(e) => Err(e),
            Ok(ids) => match resolve(g, revs.last(), path) {
                Err(e) => Err(e),
                Ok(id) => Ok(ids.push(id)),
            },
        }
    }
}

/// No parent resolves the path to what the revision resolves it to.
/// Two absent paths count as equal.
pub open spec fn all_differ(here: PathId, parent_ids: Seq<PathId>) -> bool {
    forall|i: int| 0 <= i < parent_ids.len() ==> #[trigger] parent_ids[i] != here
}

/// The path is absent from every parent.
pub open spec fn all_absent(parent_ids: Seq<PathId>) -> bool {
    forall|i: int| 0 <= i < parent_ids.len() ==> (#[trigger] parent_ids[i]).is_none()
}

/// The position of the first parent that resolves the path to `here`;
/// the number of parents when there is none.
pub open spec fn first_match(here: PathId, parent_ids: Seq<PathId>) -> nat
    decreases parent_ids.len(),
{
    if parent_ids.len() == 0 || parent_ids.first() == here {
        0
    } else {
        1 + first_match(here, parent_ids.drop_first())
    }
}

/// Which parents of a revision the walk goes on with.
#[derive(Clone, Copy, Debug, PartialEq, Eq, Structural)]
pub enum ParentPolicy {
    /// Every parent is followed.
    FollowAll,
    /// Only the first parent that carries the path unchanged is followed.
    FollowFirstMatch,
}

/// What the simplifier decides about one revision.
#[derive(Clone, Copy, Debug, PartialEq, Eq, Structural)]
pub struct Decision {
    pub follow: ParentPolicy,
    /// The path changed here with respect to every parent.
    pub reportable: bool,
    /// The path was introduced here: the walk ends.
    pub stop: bool,
}

/// The decision for a revision in which the path resolves to `here` and
/// whose parents resolve it to `parent_ids`.
///
/// A merge in which some parent carries the path unchanged follows the first
/// such parent only; every other revision follows all its parents. A
/// revision is reportable when it has the path and no parent has it
/// unchanged. The walk stops at a reportable revision with parents none of
/// which has the path.
pub open spec fn decide(here: PathId, parent_ids: Seq<PathId>) -> Decision {
    Decision {
        follow: if here.is_some() && parent_ids.len() > 1 && !all_differ(here, parent_ids) {
            ParentPolicy::FollowFirstMatch
        } else {
            ParentPolicy::FollowAll
        },
        reportable: here.is_some() && all_differ(here, parent_ids),
        stop: here.is_some() && parent_ids.len() > 0 && all_absent(parent_ids),
    }
}

/// The parents that `follow` selects, in the order in which they are queued.
pub open spec fn followed(
    follow: ParentPolicy,
    here: PathId,
    parents: Seq<NodeId>,
    parent_ids: Seq<PathId>,
) -> Seq<NodeId> {
    match follow {
        ParentPolicy::FollowAll => parents,
        ParentPolicy::FollowFirstMatch => {
            let k = first_match(here, parent_ids);
            if k < parent_ids.len() && k < parents.len() {
                seq![parents[k as int]]
            } else {
                Seq::empty()
            }
        },
    }
}

/// The outcome of processing one revision.
pub struct Processed {
    /// The frontier after the followed parents have joined it.
    pub frontier: Seq<FrontierEntry>,
    pub reportable: bool,
    pub stop: bool,
}

/// Processes `rev` against a frontier `frontier`: resolves the path in
/// `rev` and in each of its parents, decides, and queues the followed
/// parents. Fails, with nothing queued, when `rev` or one of its parents has
/// no root tree.
pub open spec fn process(
    g: GraphModel,
    rev: NodeId,
    path: Seq<FilenameId>,
    frontier: Seq<FrontierEntry>,
) -> Result<Processed, WalkError> {
    match resolve(g, rev, path) {
        Err(e) => Err(e),
        Ok(here) => match resolve_all(g, parents(g, rev), path) {
            Err(e) => Err(e),
            Ok(parent_ids) => {
                let decision = decide(here, parent_ids);
                Ok(
                    Processed {
                        frontier: enqueue_all(
                            g,
                            frontier,
                            followed(decision.follow, here, parents(g, rev), parent_ids),
                        ),
                        reportable: decision.reportable,
                        stop: decision.stop,
                    },
                )
            },
        },
    }
}

/// The decision about `rev`, where the path resolves in it and in each of
/// its parents; `None` where one of them has no root tree.
pub open spec fn verdict(g: GraphModel, rev: NodeId, path: Seq<FilenameId>) -> Option<Decision> {
    match (resolve(g, rev, path), resolve_all(g, parents(g, rev), path)) {
        (Ok(here), Ok(parent_ids)) => Some(decide(here, parent_ids)),
        _ => None,
    }
}

/// An error among the first `k` revisions is the error of the whole list.
proof fn lemma_resolve_all_error(g: GraphModel, revs: Seq<NodeId>, path: Seq<FilenameId>, k: int)
    requires
        0 <= k <= revs.len(),
        resolve_all(g, revs.take(k), path).is_err(),
    ensures
        resolve_all(g, revs, path) == resolve_all(g, revs.take(k), path),
    decreases revs.len(),
{
    if k == revs.len() {
        assert(revs.take(k) =~= revs);
    } else {
        assert(revs.drop_last().take(k) =~= revs.take(k));
        lemma_resolve_all_error(g, revs.drop_last(), path, k);
    }
}

/// Every parent of a node of a well-formed graph is a node of the graph.
pub proof fn lemma_parents_in_bounds(g: GraphModel, nodes: Seq<NodeId>, t: NodeType)
    requires
        forall|i: int| 0 <= i < nodes.len() ==> (#[trigger] nodes[i]) < g.len(),
    ensures
        forall|i: int|
            0 <= i < of_type(g, nodes, t).len() ==> (#[trigger] of_type(g, nodes, t)[i]) < g.len(),
        of_type(g, nodes, t).len() <= nodes.len(),
    decreases nodes.len(),
{
    if nodes.len() > 0 {
        lemma_parents_in_bounds(g, nodes.drop_last(), t);
    }
}

/// Whether two path identifiers are the same.
fn same_path_id(a: PathId, b: PathId) -> (same: bool)
    ensures
        same == (a == b),
{
    match (a, b) {
        (None, None) => true,
        (Some(x), Some(y)) => x == y,
        _ => false,
    }
}

/// Decides about a revision from what the path resolves to in it and in each
/// of its parents.
pub fn decide_revision(here: PathId, parent_ids: &[PathId]) -> (decision: Decision)
    ensures
        decision == decide(here, parent_ids@),
{
    let n: usize = parent_ids.len();
    let mut differ: bool = true;
    let mut absent: bool = true;
    let mut i: usize = 0;
    while i < n
        invariant
            n == parent_ids.len(),
            i <= n,
            differ == all_differ(here, parent_ids@.take(i as int)),
            absent == all_absent(parent_ids@.take(i as int)),
        decreases n - i,
    {
        let ghost after = parent_ids@.take(i as int + 1);
        assert(after[i as int] == parent_ids@[i as int]);
        if same_path_id(parent_ids[i], here) {
            differ = false;
        }
        if parent_ids[i].is_some() {
            absent = false;
        }
        i = i + 1;
    }
    assert(parent_ids@.take(n as int) =~= parent_ids@);
    let present: bool = here.is_some();
    Decision {
        follow: if present && n > 1 && !differ {
            ParentPolicy::FollowFirstMatch
        } else {
            ParentPolicy::FollowAll
        },
        reportable: present && differ,
        stop: present && n > 0 && absent,
    }
}

/// The parents that the walk goes on with under `follow`.
pub fn followed_parents(
    follow: ParentPolicy,
    here: PathId,
    parents: &[NodeId],
    parent_ids: &[PathId],
) -> (selected: Vec<NodeId>)
    ensures
        selected@ == followed(follow, here, parents@, parent_ids@),
{
    let mut selected: Vec<NodeId> = Vec::new();
    match follow {
        ParentPolicy::FollowAll => {
            let mut i: usize = 0;
            while i < parents.len()
                invariant
                    i <= parents.len(),
                    selected@ == parents@.take(i as int),
                decreases parents.len() - i,
            {
                selected.push(parents[i]);
                i = i + 1;
            }
        },
        ParentPolicy::FollowFirstMatch => {
            assert(parent_ids@.skip(0) =~= parent_ids@);
            let mut k: usize = 0;
            while k < parent_ids.len() && !same_path_id(parent_ids[k], here)
                invariant
                    k <= parent_ids.len(),
                    first_match(here, parent_ids@) == k + first_match(
                        here,
                        parent_ids@.skip(k as int),
                    ),
                decreases parent_ids.len() - k,
            {
                assert(parent_ids@.skip(k as int).drop_first() =~= parent_ids@.skip(k as int + 1));
                k = k + 1;
            }
            if k < parent_ids.len() && k < parents.len() {
                selected.push(parents[k]);
            }
        },
    }
    selected
}

/// The successors of `rev` that are revisions, in order.
pub fn parent_revisions(graph: &Graph, rev: NodeId) -> (found: Vec<NodeId>)
    requires
        rev < graph@.len(),
    ensures
        found@ == parents(graph@, rev),
        forall|i: int| 0 <= i < found@.len() ==> (#[trigger] found@[i]) < graph@.len(),
{
    let successors = graph.successors(rev);
    let mut found: Vec<NodeId> = Vec::new();
    let mut i: usize = 0;
    while i < successors.len()
        invariant
            forall|k: int|
                0 <= k < successors@.len() ==> (#[trigger] successors@[k]) < graph@.len(),
            i <= successors.len(),
            found@ == of_type(graph@, successors@.take(i as int), NodeType::Revision),
            forall|j: int| 0 <= j < found@.len() ==> (#[trigger] found@[j]) < graph@.len(),
        decreases successors.len() - i,
    {
        let succ = successors[i];
        assert(successors@.take(i as int + 1).drop_last() =~= successors@.take(i as int));
        if graph.node_type(succ) == NodeType::Revision {
            found.push(succ);
        }
        i = i + 1;
    }
    assert(successors@.take(i as int) =~= successors@);
    found
}

/// What the path resolves to in each revision of `revs`; fails at the first
/// of them that has no root tree.
pub fn resolve_revisions(graph: &Graph, revs: &[NodeId], path_parts: &[FilenameId]) -> (ids: Result<
    Vec<PathId>,
    WalkError,
>)
    requires
        forall|j: int| 0 <= j < revs@.len() ==> (#[trigger] revs@[j]) < graph@.len(),
    ensures
        match resolve_all(graph@, revs@, path_parts@) {
            Err(e) => ids == Err::<Vec<PathId>, WalkError>(e),
            Ok(expected) => ids matches Ok(found) && found@ == expected,
        },
{
    let mut ids: Vec<PathId> = Vec::new();
    let mut i: usize = 0;
    while i < revs.len()
        invariant
            i <= revs.len(),
            forall|j: int| 0 <= j < revs@.len() ==> (#[trigger] revs@[j]) < graph@.len(),
            resolve_all(graph@, revs@.take(i as int), path_parts@) == Ok::<Seq<PathId>, WalkError>(
                ids@,
            ),
        decreases revs.len() - i,
    {
        assert(revs@.take(i as int + 1).drop_last() =~= revs@.take(i as int));
        match directory_entry_get_by_path(graph, revs[i], path_parts) {
            Err(e) => {
                proof {
                    lemma_resolve_all_error(graph@, revs@, path_parts@, i as int + 1);
                }
                return Err(e);
            },
            Ok(id) => {
                ids.push(id);
            },
        }
        i = i + 1;
    }
    assert(revs@.take(i as int) =~= revs@);
    Ok(ids)
}

/// Queues the revisions of `revs` in order.
pub fn enqueue_revisions(graph: &Graph, revs: &[NodeId], heap: &mut Frontier)
    requires
        forall|j: int| 0 <= j < revs@.len() ==> (#[trigger] revs@[j]) < graph@.len(),
    ensures
        final(heap)@ == enqueue_all(graph@, old(heap)@, revs@),
{
    let mut k: usize = 0;
    while k < revs.len()
        invariant
            k <= revs.len(),
            forall|j: int| 0 <= j < revs@.len() ==> (#[trigger] revs@[j]) < graph@.len(),
            heap@ == enqueue_all(graph@, old(heap)@, revs@.take(k as int)),
        decreases revs.len() - k,
    {
        assert(revs@.take(k as int + 1).drop_last() =~= revs@.take(k as int));
        process_revision(graph, &revs[k], heap);
        k = k + 1;
    }
    assert(revs@.take(k as int) =~= revs@);
}

/// Processes the revision `rev` that was just taken from the frontier.
///
/// Returns whether `rev` is to be reported and whether the walk ends with
/// it, and queues the parents to go on with. Fails, leaving the frontier as
/// it was, when `rev` or one of its parents has no root tree.
pub fn process_parent_revisions(
    graph: &Graph,
    rev: NodeId,
    path_parts: &[FilenameId],
    heap: &mut Frontier,
) -> (result: Result<(bool, bool), WalkError>)
    requires
        rev < graph@.len(),
    ensures
        match process(graph@, rev, path_parts@, old(heap)@) {
            Err(e) => result == Err::<(bool, bool), WalkError>(e) && final(heap)@ == old(heap)@,
            Ok(done) => result == Ok::<(bool, bool), WalkError>((done.reportable, done.stop))
                && final(heap)@ == done.frontier,
        },
{
    let rev_path_id = match directory_entry_get_by_path(graph, rev, path_parts) {
        Err(e) => {
            return Err(e);
        },
        Ok(id) => id,
    };
    let parents = parent_revisions(graph, rev);
    let parent_rev_path_ids = match resolve_revisions(graph, parents.as_slice(), path_parts) {
        Err(e) => {
            return Err(e);
        },
        Ok(ids) => ids,
    };
    let decision = decide_revision(rev_path_id, parent_rev_path_ids.as_slice());
    let selected = followed_parents(
        decision.follow,
        rev_path_id,
        parents.as_slice(),
        parent_rev_path_ids.as_slice(),
    );
    enqueue_revisions(graph, selected.as_slice(), heap);
    Ok((decision.reportable, decision.stop))
}

} // verus!
