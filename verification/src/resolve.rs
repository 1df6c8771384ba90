//! Path resolution: from a revision and a path to the entry the path names.

use vstd::prelude::*;
use crate::error::WalkError;
use crate::graph::{DirEntry, FilenameId, Graph, GraphModel, NodeId, NodeType};

verus! {

/// What a path resolves to in one revision: `None` when the path is absent,
/// else the node that the last component names.
pub type PathId = Option<NodeId>;

/// The first node of `nodes` that has type `t`.
pub open spec fn first_of_type(g: GraphModel, nodes: Seq<NodeId>, t: NodeType) -> Option<NodeId>
    decreases nodes.len(),
{
    if nodes.len() == 0 {
        None
    } else if g[nodes.first() as int].node_type == t {
        Some(nodes.first())
    } else {
        first_of_type(g, nodes.drop_first(), t)
    }
}

/// The root tree of a revision: its first successor that is a directory.
pub open spec fn root_directory(g: GraphModel, revision: NodeId) -> Option<NodeId> {
    first_of_type(g, g[revision as int].successors, NodeType::Directory)
}

/// The target of the last entry of `entries` that is named `name`.
pub open spec fn lookup_entry(entries: Seq<DirEntry>, name: FilenameId) -> Option<NodeId>
    decreases entries.len(),
{
    if entries.len() == 0 {
        None
    } else if entries.last().name == name {
        Some(entries.last().target)
    } else {
        lookup_entry(entries.drop_last(), name)
    }
}

/// Follows `path` component by component from the node `from`. The walk
/// ends with `None` at the first component that names no entry.
pub open spec fn descend(g: GraphModel, from: NodeId, path: Seq<FilenameId>) -> PathId
    decreases path.len(),
{
    if path.len() == 0 {
        Some(from)
    } else {
        match lookup_entry(g[from as int].entries, path.first()) {
            None => None,
            Some(next) => descend(g, next, path.drop_first()),
        }
    }
}

/// The entry that `path` names in `revision`, or the error of a revision
/// without root tree. The empty path names the root tree itself.
pub open spec fn resolve(g: GraphModel, revision: NodeId, path: Seq<FilenameId>) -> Result<
    PathId,
    WalkError,
> {
    match root_directory(g, revision) {
        None => Err(WalkError::NoRootTree(revision)),
        Some(root) => Ok(descend(g, root, path)),
    }
}

/// The first successor of `node` that is a directory.
pub fn get_target_directory(graph: &Graph, node: NodeId) -> (dir: Option<NodeId>)
    requires
        node < graph@.len(),
    ensures
        dir == root_directory(graph@, node),
        dir matches Some(d) ==> d < graph@.len(),
{
    let successors = graph.successors(node);
    assert(successors@.skip(0) =~= successors@);
    let mut i: usize = 0;
    while i < successors.len()
        invariant
            forall|k: int|
                0 <= k < successors@.len() ==> (#[trigger] successors@[k]) < graph@.len(),
            i <= successors.len(),
            root_directory(graph@, node) == first_of_type(
                graph@,
                successors@.skip(i as int),
                NodeType::Directory,
            ),
        decreases successors.len() - i,
    {
        let succ = successors[i];
        assert(successors@.skip(i as int).drop_first() =~= successors@.skip(i as int + 1));
        if graph.node_type(succ) == NodeType::Directory {
            return Some(succ);
        }
        i = i + 1;
    }
    None
}

/// The target of the last entry named `name` in the node `dir`.
pub fn find_entry(graph: &Graph, dir: NodeId, name: FilenameId) -> (target: Option<NodeId>)
    requires
        dir < graph@.len(),
    ensures
        target == lookup_entry(graph@[dir as int].entries, name),
        target matches Some(t) ==> t < graph@.len(),
{
    let entries = graph.labeled_successors(dir);
    let mut found: Option<NodeId> = None;
    let mut i: usize = 0;
    while i < entries.len()
        invariant
            forall|k: int|
                0 <= k < entries@.len() ==> (#[trigger] entries@[k]).target < graph@.len(),
            i <= entries.len(),
            found == lookup_entry(entries@.take(i as int), name),
            found matches Some(t) ==> t < graph@.len(),
        decreases entries.len() - i,
    {
        let entry = entries[i];
        assert(entries@.take(i as int + 1).drop_last() =~= entries@.take(i as int));
        if entry.name.0 == name.0 {
            found = Some(entry.target);
        }
        i = i + 1;
    }
    assert(entries@.take(i as int) =~= entries@);
    found
}

/// Resolves `path_parts` against the root tree of `rev`.
///
/// Fails when `rev` has no root tree. Otherwise the result is the node that
/// the whole path names, or `None` as soon as one component names nothing.
pub fn directory_entry_get_by_path(graph: &Graph, rev: NodeId, path_parts: &[FilenameId]) -> (id:
    Result<PathId, WalkError>)
    requires
        rev < graph@.len(),
    ensures
        id == resolve(graph@, rev, path_parts@),
        id matches Ok(Some(n)) ==> n < graph@.len(),
{
    let root = match get_target_directory(graph, rev) {
        None => {
            return Err(WalkError::NoRootTree(rev));
        },
        Some(root) => root,
    };
    let mut current_dir: NodeId = root;
    assert(path_parts@.skip(0) =~= path_parts@);
    let mut i: usize = 0;
    while i < path_parts.len()
        invariant
            i <= path_parts.len(),
            current_dir < graph@.len(),
            root_directory(graph@, rev) == Some(root),
            descend(graph@, root, path_parts@) == descend(
                graph@,
                current_dir,
                path_parts@.skip(i as int),
            ),
        decreases path_parts.len() - i,
    {
        assert(path_parts@.skip(i as int).drop_first() =~= path_parts@.skip(i as int + 1));
        match find_entry(graph, current_dir, path_parts[i]) {
            None => {
                return Ok(None);
            },
            Some(next) => {
                current_dir = next;
            },
        }
        i = i + 1;
    }
    Ok(Some(current_dir))
}

} // verus!
