//! What holds of every walk.

use vstd::prelude::*;
use crate::error::WalkError;
use crate::frontier::{enqueue, enqueue_all, front_index, lemma_front_index, FrontierEntry};
use crate::graph::{well_formed, FilenameId, GraphModel, NodeId};
use crate::resolve::{resolve, PathId};
use crate::simplify::{
    all_absent, decide, first_match, followed, parents, process, resolve_all, verdict, Processed,
};
use crate::walk::{
    frontier_in_bounds, initial_state, interned, lemma_process_in_bounds, lemma_unvisited_insert,
    revs_log, run, unvisited, walk, Outcome, WalkState,
};

verus! {

/// Two runs on the same graph, from the same revision and along the same
/// path, report the same revisions in the same order and end alike.
pub proof fn theorem_runs_agree(
    g: GraphModel,
    start: NodeId,
    names: Seq<Option<FilenameId>>,
    first: Outcome,
    second: Outcome,
)
    requires
        first == revs_log(g, start, names),
        second == revs_log(g, start, names),
    ensures
        first.revisions == second.revisions,
        first.failure == second.failure,
{
}

/// A revision without the path is passed over: it is not reported, the walk
/// does not end with it, and every parent of it is queued.
pub proof fn theorem_absent_path_follows_all_parents(
    g: GraphModel,
    rev: NodeId,
    path: Seq<FilenameId>,
    frontier: Seq<FrontierEntry>,
)
    requires
        resolve(g, rev, path) == Ok::<PathId, WalkError>(None),
        resolve_all(g, parents(g, rev), path).is_ok(),
    ensures
        process(g, rev, path, frontier) == Ok::<Processed, WalkError>(
            Processed {
                frontier: enqueue_all(g, frontier, parents(g, rev)),
                reportable: false,
                stop: false,
            },
        ),
{
}

/// A revision with one parent always queues that parent. It is reported
/// exactly when it has the path and the parent resolves the path to
/// something else, and the walk ends with it exactly when it has the path
/// and the parent has not.
pub proof fn theorem_single_parent(
    g: GraphModel,
    rev: NodeId,
    path: Seq<FilenameId>,
    frontier: Seq<FrontierEntry>,
    parent: NodeId,
    here: PathId,
    there: PathId,
)
    requires
        parents(g, rev) == seq![parent],
        resolve(g, rev, path) == Ok::<PathId, WalkError>(here),
        resolve(g, parent, path) == Ok::<PathId, WalkError>(there),
    ensures
        process(g, rev, path, frontier) == Ok::<Processed, WalkError>(
            Processed {
                frontier: enqueue(g, frontier, parent),
                reportable: here.is_some() && there != here,
                stop: here.is_some() && there.is_none(),
            },
        ),
{
    let ps = seq![parent];
    assert(resolve_all(g, ps.drop_last(), path) == Ok::<Seq<PathId>, WalkError>(Seq::empty()));
    let ids = seq![there];
    assert(ids[0] == there);
    assert(enqueue_all(g, frontier, ps.drop_last()) == frontier);
}

/// A revision that has the path while none of its parents has it introduced
/// the path: it is reported, and the walk ends with it.
pub proof fn theorem_introduction_stops(
    g: GraphModel,
    rev: NodeId,
    path: Seq<FilenameId>,
    frontier: Seq<FrontierEntry>,
)
    requires
        resolve(g, rev, path) matches Ok(Some(_)),
        parents(g, rev).len() > 0,
        resolve_all(g, parents(g, rev), path) matches Ok(ids) && all_absent(ids),
    ensures
        process(g, rev, path, frontier) matches Ok(done) && done.reportable && done.stop,
{
}

/// A merge of two parents, of which one carries the path unchanged and the
/// other does not, follows the unchanged parent only and is not reported.
pub proof fn theorem_merge_follows_mainline(
    g: GraphModel,
    rev: NodeId,
    path: Seq<FilenameId>,
    frontier: Seq<FrontierEntry>,
    kept: NodeId,
    other: NodeId,
    here: NodeId,
    there: PathId,
)
    requires
        parents(g, rev) == seq![kept, other] || parents(g, rev) == seq![other, kept],
        resolve(g, rev, path) == Ok::<PathId, WalkError>(Some(here)),
        resolve(g, kept, path) == Ok::<PathId, WalkError>(Some(here)),
        resolve(g, other, path) == Ok::<PathId, WalkError>(there),
        there != Some(here),
    ensures
        process(g, rev, path, frontier) == Ok::<Processed, WalkError>(
            Processed { frontier: enqueue(g, frontier, kept), reportable: false, stop: false },
        ),
{
    let ps = parents(g, rev);
    let kept_first = ps == seq![kept, other];
    let id_first: PathId = if kept_first {
        Some(here)
    } else {
        there
    };
    let id_second: PathId = if kept_first {
        there
    } else {
        Some(here)
    };
    let one = ps.drop_last();
    assert(resolve_all(g, one.drop_last(), path) == Ok::<Seq<PathId>, WalkError>(Seq::empty()));
    assert(resolve_all(g, one, path) == Ok::<Seq<PathId>, WalkError>(seq![id_first]));
    let ids = seq![id_first, id_second];
    assert(seq![id_first].push(id_second) =~= ids);
    let k: int = if kept_first {
        0
    } else {
        1
    };
    let decision = decide(Some(here), ids);
    if k == 1 {
        assert(first_match(Some(here), ids.drop_first()) == 0);
    }
    let selected = followed(decision.follow, Some(here), ps, ids);
    assert(enqueue_all(g, frontier, selected.drop_last()) == frontier);
}

/// The revision was found to be reportable, and the walk went on after it.
pub open spec fn reported_in_passing(g: GraphModel, path: Seq<FilenameId>, rev: NodeId) -> bool {
    verdict(g, rev, path) matches Some(d) && d.reportable && !d.stop
}

/// What holds of the output of a walk that is continued from a state whose
/// reported revisions are all reportable and did not end the walk: every
/// revision of the output is reportable, and only the last can be one that
/// ends the walk.
proof fn lemma_run_reports(g: GraphModel, path: Seq<FilenameId>, s: WalkState)
    requires
        well_formed(g),
        frontier_in_bounds(g, s.frontier),
        forall|i: int|
            0 <= i < s.reported.len() ==> reported_in_passing(g, path, #[trigger] s.reported[i]),
    ensures
        ({
            let out = run(g, path, s).revisions;
            forall|i: int|
                0 <= i < out.len() ==> (verdict(g, #[trigger] out[i], path) matches Some(d)
                    && d.reportable && (d.stop ==> i == out.len() - 1))
        }),
    decreases unvisited(s.visited, g.len()), s.frontier.len(),
{
    if s.frontier.len() > 0 {
        let k = front_index(s.frontier);
        let rev = s.frontier[k].1;
        let rest = s.frontier.remove(k);
        lemma_front_index(s.frontier);
        lemma_unvisited_insert(s.visited, g.len(), rev);
        if s.visited.contains(rev) {
            lemma_run_reports(
                g,
                path,
                WalkState { frontier: rest, visited: s.visited, reported: s.reported },
            );
        } else {
            lemma_process_in_bounds(g, rev, path, rest);
            if let Ok(done) = process(g, rev, path, rest) {
                let reported = if done.reportable {
                    s.reported.push(rev)
                } else {
                    s.reported
                };
                if !done.stop {
                    lemma_run_reports(
                        g,
                        path,
                        WalkState {
                            frontier: done.frontier,
                            visited: s.visited.insert(rev),
                            reported,
                        },
                    );
                }
            }
        }
    }
}

/// A walk that is continued from a state in which nothing was reported
/// twice, and everything reported was visited, reports nothing twice.
proof fn lemma_run_no_duplicates(g: GraphModel, path: Seq<FilenameId>, s: WalkState)
    requires
        well_formed(g),
        frontier_in_bounds(g, s.frontier),
        s.reported.no_duplicates(),
        forall|i: int| 0 <= i < s.reported.len() ==> s.visited.contains(#[trigger] s.reported[i]),
    ensures
        run(g, path, s).revisions.no_duplicates(),
    decreases unvisited(s.visited, g.len()), s.frontier.len(),
{
    if s.frontier.len() > 0 {
        let k = front_index(s.frontier);
        let rev = s.frontier[k].1;
        let rest = s.frontier.remove(k);
        lemma_front_index(s.frontier);
        lemma_unvisited_insert(s.visited, g.len(), rev);
        if s.visited.contains(rev) {
            lemma_run_no_duplicates(
                g,
                path,
                WalkState { frontier: rest, visited: s.visited, reported: s.reported },
            );
        } else {
            lemma_process_in_bounds(g, rev, path, rest);
            if let Ok(done) = process(g, rev, path, rest) {
                let reported = if done.reportable {
                    s.reported.push(rev)
                } else {
                    s.reported
                };
                if !done.stop {
                    lemma_run_no_duplicates(
                        g,
                        path,
                        WalkState {
                            frontier: done.frontier,
                            visited: s.visited.insert(rev),
                            reported,
                        },
                    );
                }
            }
        }
    }
}

/// No revision is reported twice, however often it was queued.
pub proof fn theorem_no_duplicate_output(g: GraphModel, start: NodeId, path: Seq<FilenameId>)
    requires
        well_formed(g),
        start < g.len(),
    ensures
        walk(g, start, path).revisions.no_duplicates(),
{
    lemma_run_no_duplicates(g, path, initial_state(g, start));
}

/// Every reported revision is one that the simplifier finds reportable: the
/// path resolves in it and in each of its parents, it has the path, and no
/// parent of it has the path unchanged.
pub proof fn theorem_output_is_reportable(
    g: GraphModel,
    start: NodeId,
    path: Seq<FilenameId>,
    i: int,
)
    requires
        well_formed(g),
        start < g.len(),
        0 <= i < walk(g, start, path).revisions.len(),
    ensures
        verdict(g, walk(g, start, path).revisions[i], path) matches Some(d) && d.reportable,
{
    lemma_run_reports(g, path, initial_state(g, start));
}

/// Nothing is reported after the revision that introduced the path: a
/// reported revision that has the path while none of its parents has it is
/// the last of the output.
pub proof fn theorem_introduction_ends_output(
    g: GraphModel,
    start: NodeId,
    path: Seq<FilenameId>,
    i: int,
)
    requires
        well_formed(g),
        start < g.len(),
        0 <= i < walk(g, start, path).revisions.len(),
        verdict(g, walk(g, start, path).revisions[i], path) matches Some(d) && d.stop,
    ensures
        i == walk(g, start, path).revisions.len() - 1,
{
    lemma_run_reports(g, path, initial_state(g, start));
}

/// A revision that the simplifier does not find reportable is not in the
/// output. This holds in particular of a revision without the path, of a
/// revision whose only parent carries the path unchanged, and of a merge
/// one parent of which carries the path unchanged.
pub proof fn theorem_not_reportable_is_not_reported(
    g: GraphModel,
    start: NodeId,
    path: Seq<FilenameId>,
    rev: NodeId,
)
    requires
        well_formed(g),
        start < g.len(),
        !(verdict(g, rev, path) matches Some(d) && d.reportable),
    ensures
        !walk(g, start, path).revisions.contains(rev),
{
    let out = walk(g, start, path).revisions;
    if out.contains(rev) {
        let i = choose|i: int| 0 <= i < out.len() && out[i] == rev;
        theorem_output_is_reportable(g, start, path, i);
    }
}

/// Where the path is in no revision, nothing is reported.
pub proof fn theorem_absent_path_gives_empty_output(
    g: GraphModel,
    start: NodeId,
    path: Seq<FilenameId>,
)
    requires
        well_formed(g),
        start < g.len(),
        forall|rev: NodeId| !(#[trigger] resolve(g, rev, path) matches Ok(Some(_))),
    ensures
        walk(g, start, path).revisions.len() == 0,
{
    let out = walk(g, start, path).revisions;
    if out.len() > 0 {
        theorem_output_is_reportable(g, start, path, 0);
    }
}

/// The log of a request has no revision twice.
pub proof fn theorem_log_has_no_duplicates(
    g: GraphModel,
    start: NodeId,
    names: Seq<Option<FilenameId>>,
)
    requires
        well_formed(g),
    ensures
        revs_log(g, start, names).revisions.no_duplicates(),
{
    if start < g.len() {
        if let Some(path) = interned(names) {
            theorem_no_duplicate_output(g, start, path);
        }
    }
}

/// `chain` is a line of revisions, each the only parent of the one before
/// it, down to a revision without parents, and `path` resolves to `entry` in
/// all of them.
pub open spec fn is_unchanged_chain(
    g: GraphModel,
    path: Seq<FilenameId>,
    chain: Seq<NodeId>,
    entry: NodeId,
) -> bool {
    &&& chain.len() > 0
    &&& forall|i: int|
        0 <= i < chain.len() ==> (#[trigger] chain[i]) < g.len() && resolve(g, chain[i], path)
            == Ok::<PathId, WalkError>(Some(entry))
    &&& forall|i: int, j: int|
        0 <= i && j == i + 1 && j < chain.len() ==> parents(g, #[trigger] chain[i]) == seq![
            #[trigger] chain[j],
        ]
    &&& parents(g, chain.last()).len() == 0
}

/// No revision stands twice in an unchanged chain.
proof fn lemma_chain_is_a_line(
    g: GraphModel,
    path: Seq<FilenameId>,
    chain: Seq<NodeId>,
    entry: NodeId,
    j: int,
    i: int,
)
    requires
        is_unchanged_chain(g, path, chain, entry),
        0 <= j < i < chain.len(),
    ensures
        chain[j] != chain[i],
    decreases chain.len() - i,
{
    if chain[j] == chain[i] {
        assert(parents(g, chain[j]) == seq![chain[j + 1]]);
        if i < chain.len() - 1 {
            assert(seq![chain[j + 1]][0] == seq![chain[i + 1]][0]);
            lemma_chain_is_a_line(g, path, chain, entry, j + 1, i + 1);
        }
    }
}

/// The walk that has come to position `i` of an unchanged chain, with
/// nothing reported, reports the last revision of the chain and no other.
proof fn lemma_run_along_chain(
    g: GraphModel,
    path: Seq<FilenameId>,
    chain: Seq<NodeId>,
    entry: NodeId,
    i: int,
    key: i64,
)
    requires
        well_formed(g),
        is_unchanged_chain(g, path, chain, entry),
        0 <= i < chain.len(),
    ensures
        run(
            g,
            path,
            WalkState {
                frontier: seq![(key, chain[i])],
                visited: chain.take(i).to_set(),
                reported: Seq::empty(),
            },
        ) == (Outcome { revisions: seq![chain.last()], failure: None }),
    decreases chain.len() - i,
{
    let rev = chain[i];
    let frontier = seq![(key, rev)];
    let visited = chain.take(i).to_set();
    let rest = frontier.remove(0);
    assert(rest =~= Seq::<FrontierEntry>::empty());
    assert(!visited.contains(rev)) by {
        let before = chain.take(i);
        if before.contains(rev) {
            let j = choose|j: int| 0 <= j < before.len() && before[j] == rev;
            lemma_chain_is_a_line(g, path, chain, entry, j, i);
        }
    }
    let here: PathId = Some(entry);
    if i < chain.len() - 1 {
        let parent = chain[i + 1];
        theorem_single_parent(g, rev, path, rest, parent, here, here);
        let next_frontier = enqueue(g, rest, parent);
        let next_key = next_frontier[0].0;
        let shorter = chain.take(i);
        let longer = chain.take(i + 1);
        assert(visited.insert(rev) =~= longer.to_set()) by {
            assert forall|v: NodeId| visited.insert(rev).contains(v) <==> longer.contains(v) by {
                if shorter.contains(v) {
                    let j = choose|j: int| 0 <= j < shorter.len() && shorter[j] == v;
                    assert(longer[j] == v);
                }
                if longer.contains(v) {
                    let j = choose|j: int| 0 <= j < longer.len() && longer[j] == v;
                    assert(j < i ==> shorter[j] == v);
                }
                if v == rev {
                    assert(longer[i] == v);
                }
            }
        }
        lemma_run_along_chain(g, path, chain, entry, i + 1, next_key);
    } else {
        let reported = Seq::<NodeId>::empty().push(rev);
        let after = WalkState { frontier: rest, visited: visited.insert(rev), reported };
        assert(run(g, path, after) == (Outcome { revisions: reported, failure: None }));
    }
}

/// In a line of revisions with one parent each, through which the path
/// resolves to the same entry, only the revision without parent, the one
/// that brought the path in, is reported.
pub proof fn theorem_unchanged_chain_reports_its_end(
    g: GraphModel,
    path: Seq<FilenameId>,
    chain: Seq<NodeId>,
    entry: NodeId,
)
    requires
        well_formed(g),
        is_unchanged_chain(g, path, chain, entry),
    ensures
        walk(g, chain.first(), path) == (Outcome { revisions: seq![chain.last()], failure: None }),
{
    let start = chain[0];
    let first = enqueue(g, Seq::empty(), start);
    let key = first[0].0;
    assert(chain.take(0).to_set() =~= Set::<NodeId>::empty());
    lemma_run_along_chain(g, path, chain, entry, 0, key);
}

/// A chain `a`, `b`, `c`, each the only parent of the one before: the path
/// is in `a` and in `b` and not in `c`. Then `b` introduced the path. It is
/// the last revision of the output, before it stands `a` if the path
/// resolves otherwise in `a` than in `b`, and `c` is never looked at.
pub proof fn theorem_walk_ends_at_the_introduction(
    g: GraphModel,
    path: Seq<FilenameId>,
    a: NodeId,
    b: NodeId,
    c: NodeId,
    in_a: NodeId,
    in_b: NodeId,
)
    requires
        well_formed(g),
        a < g.len(),
        b < g.len(),
        c < g.len(),
        parents(g, a) == seq![b],
        parents(g, b) == seq![c],
        resolve(g, a, path) == Ok::<PathId, WalkError>(Some(in_a)),
        resolve(g, b, path) == Ok::<PathId, WalkError>(Some(in_b)),
        resolve(g, c, path) == Ok::<PathId, WalkError>(None),
    ensures
        walk(g, a, path) == (Outcome {
            revisions: if in_a != in_b {
                seq![a, b]
            } else {
                seq![b]
            },
            failure: None,
        }),
{
    let empty = Seq::<FrontierEntry>::empty();
    // The first step takes `a` and queues `b`.
    let first = enqueue(g, empty, a);
    assert(first.remove(0) =~= empty);
    theorem_single_parent(g, a, path, empty, b, Some(in_a), Some(in_b));
    let second = enqueue(g, empty, b);
    let reported = if in_a != in_b {
        Seq::<NodeId>::empty().push(a)
    } else {
        Seq::<NodeId>::empty()
    };
    let visited = Set::<NodeId>::empty().insert(a);
    let middle = WalkState { frontier: second, visited, reported };
    assert(walk(g, a, path) == run(g, path, middle));
    // The second step takes `b`, which is the introduction.
    theorem_single_parent(g, b, path, empty, c, Some(in_b), None);
    assert(reported.push(b) =~= if in_a != in_b {
        seq![a, b]
    } else {
        seq![b]
    });
}

/// Whoever is in `inside` has its parents in `inside`.
pub open spec fn holds_parents(g: GraphModel, inside: Set<NodeId>) -> bool {
    forall|v: NodeId, i: int|
        inside.contains(v) && v < g.len() && 0 <= i < parents(g, v).len() ==> inside.contains(
            #[trigger] parents(g, v)[i],
        )
}

/// `rev` is `of` itself, a parent of it, a parent of a parent, and so on:
/// it is in every set that holds `of` and the parents of its members.
pub open spec fn is_ancestor(g: GraphModel, of: NodeId, rev: NodeId) -> bool {
    forall|inside: Set<NodeId>| #[trigger]
        holds_parents(g, inside) && inside.contains(of) ==> inside.contains(rev)
}

/// Every entry of the frontier is an ancestor of `of`.
pub open spec fn frontier_of_ancestors(
    g: GraphModel,
    of: NodeId,
    frontier: Seq<FrontierEntry>,
) -> bool {
    forall|i: int| 0 <= i < frontier.len() ==> is_ancestor(g, of, (#[trigger] frontier[i]).1)
}

/// Queueing ancestors keeps a frontier of ancestors.
proof fn lemma_enqueue_all_ancestors(
    g: GraphModel,
    of: NodeId,
    frontier: Seq<FrontierEntry>,
    revs: Seq<NodeId>,
)
    requires
        frontier_of_ancestors(g, of, frontier),
        forall|i: int| 0 <= i < revs.len() ==> is_ancestor(g, of, #[trigger] revs[i]),
    ensures
        frontier_of_ancestors(g, of, enqueue_all(g, frontier, revs)),
    decreases revs.len(),
{
    if revs.len() > 0 {
        let before = revs.drop_last();
        lemma_enqueue_all_ancestors(g, of, frontier, before);
    }
}

/// The parents that an ancestor queues are ancestors.
proof fn lemma_process_queues_ancestors(
    g: GraphModel,
    of: NodeId,
    rev: NodeId,
    path: Seq<FilenameId>,
    frontier: Seq<FrontierEntry>,
)
    requires
        rev < g.len(),
        is_ancestor(g, of, rev),
        frontier_of_ancestors(g, of, frontier),
    ensures
        process(g, rev, path, frontier) matches Ok(done) ==> frontier_of_ancestors(
            g,
            of,
            done.frontier,
        ),
{
    if let Ok(done) = process(g, rev, path, frontier) {
        let here = resolve(g, rev, path)->Ok_0;
        let ps = parents(g, rev);
        let ids = resolve_all(g, ps, path)->Ok_0;
        let follow = decide(here, ids).follow;
        let selected = followed(follow, here, ps, ids);
        lemma_enqueue_all_ancestors(g, of, frontier, selected);
    }
}

/// A walk that is continued from a state in which all that is queued and
/// all that was reported are ancestors of `of` reports ancestors of `of`
/// only.
proof fn lemma_run_reports_ancestors(
    g: GraphModel,
    of: NodeId,
    path: Seq<FilenameId>,
    s: WalkState,
)
    requires
        well_formed(g),
        frontier_in_bounds(g, s.frontier),
        frontier_of_ancestors(g, of, s.frontier),
        forall|i: int| 0 <= i < s.reported.len() ==> is_ancestor(g, of, #[trigger] s.reported[i]),
    ensures
        forall|i: int|
            0 <= i < run(g, path, s).revisions.len() ==> is_ancestor(
                g,
                of,
                #[trigger] run(g, path, s).revisions[i],
            ),
    decreases unvisited(s.visited, g.len()), s.frontier.len(),
{
    if s.frontier.len() > 0 {
        let k = front_index(s.frontier);
        let rev = s.frontier[k].1;
        let rest = s.frontier.remove(k);
        lemma_front_index(s.frontier);
        lemma_unvisited_insert(s.visited, g.len(), rev);
        if s.visited.contains(rev) {
            lemma_run_reports_ancestors(
                g,
                of,
                path,
                WalkState { frontier: rest, visited: s.visited, reported: s.reported },
            );
        } else {
            lemma_process_in_bounds(g, rev, path, rest);
            lemma_process_queues_ancestors(g, of, rev, path, rest);
            if let Ok(done) = process(g, rev, path, rest) {
                let reported = if done.reportable {
                    s.reported.push(rev)
                } else {
                    s.reported
                };
                if !done.stop {
                    lemma_run_reports_ancestors(
                        g,
                        of,
                        path,
                        WalkState {
                            frontier: done.frontier,
                            visited: s.visited.insert(rev),
                            reported,
                        },
                    );
                }
            }
        }
    }
}

/// Every reported revision is the starting revision or an ancestor of it.
pub proof fn theorem_output_are_ancestors(
    g: GraphModel,
    start: NodeId,
    path: Seq<FilenameId>,
    i: int,
)
    requires
        well_formed(g),
        start < g.len(),
        0 <= i < walk(g, start, path).revisions.len(),
    ensures
        is_ancestor(g, start, walk(g, start, path).revisions[i]),
{
    lemma_run_reports_ancestors(g, start, path, initial_state(g, start));
}

} // verus!
