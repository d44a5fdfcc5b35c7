//! The part of the commit graph that a decision reads: which names the repository knows, and which
//! commits are ancestors of which.

use vstd::prelude::*;
use vstd::string::*;

use crate::ids::CommitId;
use crate::order::{lookup, OrdMap, Ordered};
use crate::seqs::view_of;
use crate::text::ranks;

verus! {

/// The part of the commit graph that a decision reads.
#[derive(Debug)]
pub struct CommitGraph {
    /// The commit each known name stands for.
    pub resolved: OrdMap<String, CommitId>,
    /// Pairs of commits of which the first is an ancestor of the second.
    pub ancestry: Vec<(CommitId, CommitId)>,
}

impl CommitGraph {
    /// The commit that a name stands for.
    pub open spec fn commit(self, name: Seq<char>) -> Option<Seq<char>> {
        match lookup(self.resolved@, ranks(name)) {
            Some(commit) => Some(commit@),
            None => None,
        }
    }

    /// Whether `a` is an ancestor of `b`.
    pub open spec fn reaches(self, a: Seq<char>, b: Seq<char>) -> bool {
        exists|i: int|
            0 <= i < self.ancestry@.len() && (#[trigger] self.ancestry@[i]).0@ == a && self.ancestry@[i].1@ == b
    }

    /// A graph of which nothing is known.
    pub fn new() -> (graph: Self)
        ensures
            graph.resolved@.len() == 0,
            graph.ancestry@.len() == 0,
    {
        CommitGraph { resolved: OrdMap::new(), ancestry: Vec::new() }
    }

    /// The commit that a name stands for.
    pub fn resolve(&self, name: &str) -> (commit: Option<&CommitId>)
        ensures
            view_of(commit) == self.commit(name@),
    {
        let key = name.to_owned();
        assert(key.rank() == ranks(name@));
        self.resolved.get(&key)
    }

    /// Whether `a` is an ancestor of `b`.
    pub fn is_ancestor(&self, a: &CommitId, b: &CommitId) -> (r: bool)
        ensures
            r == self.reaches(a@, b@),
    {
        let mut i: usize = 0;
        while i < self.ancestry.len()
            invariant
                i <= self.ancestry@.len(),
                forall|j: int|
                    0 <= j < i ==> !((#[trigger] self.ancestry@[j]).0@ == a@ && self.ancestry@[j].1@ == b@),
            decreases self.ancestry@.len() - i,
        {
            if self.ancestry[i].0.same(a) && self.ancestry[i].1.same(b) {
                return true;
            }
            i += 1;
        }
        false
    }
}

/// A commit is known to be an ancestor of another exactly if the pair of the two, the ancestor first, was
/// told; nothing is known of a graph without pairs.
pub proof fn lemma_told_ancestry(graph: CommitGraph, a: Seq<char>, b: Seq<char>)
    ensures
        graph.reaches(a, b) <==> exists|i: int|
            0 <= i < graph.ancestry@.len() && (#[trigger] graph.ancestry@[i]).0@ == a && graph.ancestry@[i].1@ == b,
        forall|i: int|
            0 <= i < graph.ancestry@.len() ==> graph.reaches(
                (#[trigger] graph.ancestry@[i]).0@,
                graph.ancestry@[i].1@,
            ),
        graph.ancestry@.len() == 0 ==> !graph.reaches(a, b),
        graph.commit(a) is Some <==> lookup(graph.resolved@, ranks(a)) is Some,
        lookup(graph.resolved@, ranks(a)) matches Some(commit) ==> graph.commit(a) == Some(commit@),
{
}

} // verus!
