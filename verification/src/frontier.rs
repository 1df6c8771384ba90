//! The traversal frontier: pending revisions, most recent first.

use vstd::prelude::*;
use crate::graph::{Graph, GraphModel, NodeId};

verus! {

/// A pending revision with the time it is ordered by.
pub type FrontierEntry = (i64, NodeId);

/// Position `i` holds the entry that leaves `s` next: no entry has a later
/// time, and every entry queued before it has an earlier one.
pub open spec fn is_front(s: Seq<FrontierEntry>, i: int) -> bool {
    &&& 0 <= i < s.len()
    &&& forall|j: int| 0 <= j < s.len() ==> (#[trigger] s[j]).0 <= s[i].0
    &&& forall|j: int| 0 <= j < i ==> (#[trigger] s[j]).0 < s[i].0
}

/// The position of the entry that leaves `s` next: the latest time wins,
/// and among equal times the entry that was queued first.
pub open spec fn front_index(s: Seq<FrontierEntry>) -> int
    decreases s.len(),
{
    if s.len() <= 1 {
        0
    } else {
        let k = front_index(s.drop_last());
        if s.last().0 > s[k].0 {
            s.len() - 1
        } else {
            k
        }
    }
}

/// `front_index` finds the one position that `is_front` describes.
pub proof fn lemma_front_index(s: Seq<FrontierEntry>)
    requires
        s.len() > 0,
    ensures
        is_front(s, front_index(s)),
        forall|i: int| is_front(s, i) ==> i == front_index(s),
    decreases s.len(),
{
    if s.len() > 1 {
        let t = s.drop_last();
        lemma_front_index(t);
        assert(forall|j: int| 0 <= j < t.len() ==> t[j] == s[j]);
    }
}

/// The time a revision is ordered by when it joins a frontier that already
/// holds `queued` entries: its commit time, or, where it has none, the
/// number of entries queued, as far as that fits the type.
pub open spec fn frontier_key(g: GraphModel, queued: nat, rev: NodeId) -> i64 {
    match g[rev as int].committer_timestamp {
        Some(ts) => ts,
        None => if queued <= i64::MAX {
            queued as i64
        } else {
            i64::MAX
        },
    }
}

/// The frontier `s` after `rev` has joined it.
pub open spec fn enqueue(g: GraphModel, s: Seq<FrontierEntry>, rev: NodeId) -> Seq<FrontierEntry> {
    s.push((frontier_key(g, s.len(), rev), rev))
}

/// The frontier `s` after the revisions of `revs` have joined it in order.
pub open spec fn enqueue_all(g: GraphModel, s: Seq<FrontierEntry>, revs: Seq<NodeId>) -> Seq<
    FrontierEntry,
>
    decreases revs.len(),
{
    if revs.len() == 0 {
        s
    } else {
        enqueue(g, enqueue_all(g, s, revs.drop_last()), revs.last())
    }
}

/// Pending revisions. One revision may be queued several times.
pub struct Frontier {
    entries: Vec<FrontierEntry>,
}

impl View for Frontier {
    type V = Seq<FrontierEntry>;

    /// The queued entries, oldest first.
    closed spec fn view(&self) -> Seq<FrontierEntry> {
        self.entries@
    }
}

impl Frontier {
    /// An empty frontier.
    pub fn new() -> (frontier: Frontier)
        ensures
            frontier@ == Seq::<FrontierEntry>::empty(),
    {
        Frontier { entries: Vec::new() }
    }

    /// The number of queued entries.
    pub fn len(&self) -> (n: usize)
        ensures
            n == self@.len(),
    {
        self.entries.len()
    }

    /// Whether nothing is queued.
    pub fn is_empty(&self) -> (empty: bool)
        ensures
            empty == (self@.len() == 0),
    {
        self.entries.len() == 0
    }

    /// Queues `rev` with the time `key`.
    pub fn push(&mut self, key: i64, rev: NodeId)
        ensures
            final(self)@ == old(self)@.push((key, rev)),
    {
        self.entries.push((key, rev));
    }

    /// Takes out the entry with the latest time; among entries of equal
    /// time, the one queued first. `None` when nothing is queued.
    pub fn pop(&mut self) -> (entry: Option<FrontierEntry>)
        ensures
            old(self)@.len() == 0 ==> entry.is_none() && final(self)@ == old(self)@,
            old(self)@.len() > 0 ==> {
                let k = front_index(old(self)@);
                &&& is_front(old(self)@, k)
                &&& entry == Some(old(self)@[k])
                &&& final(self)@ == old(self)@.remove(k)
            },
    {
        let n: usize = self.entries.len();
        if n == 0 {
            return None;
        }
        let mut best: usize = 0;
        let mut i: usize = 1;
        while i < n
            invariant
                n == self.entries.len(),
                1 <= i <= n,
                best < i,
                best == front_index(self.entries@.take(i as int)),
            decreases n - i,
        {
            assert(self.entries@.take(i as int + 1).drop_last() =~= self.entries@.take(i as int));
            if self.entries[i].0 > self.entries[best].0 {
                best = i;
            }
            i = i + 1;
        }
        assert(self.entries@.take(n as int) =~= self.entries@);
        proof {
            lemma_front_index(self.entries@);
        }
        let entry = self.entries.remove(best);
        Some(entry)
    }
}

/// Queues `rev`, ordered by its commit time. A revision without commit time
/// is ordered by the number of entries queued at that moment.
pub fn process_revision(graph: &Graph, rev: &NodeId, heap: &mut Frontier)
    requires
        *rev < graph@.len(),
    ensures
        final(heap)@ == enqueue(graph@, old(heap)@, *rev),
{
    let key: i64 = match graph.committer_timestamp(*rev) {
        Some(ts) => ts,
        None => {
            let queued: u64 = heap.len() as u64;
            if queued <= 0x7fff_ffff_ffff_ffff {
                queued as i64
            } else {
                i64::MAX
            }
        },
    };
    heap.push(key, *rev);
}

} // verus!
