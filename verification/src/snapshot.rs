//! What the forge answered in one run: the pull requests of each branch, and the live facts of
//! those that were asked about.

use std::collections::BTreeMap;

use vstd::prelude::*;

use crate::forge::{PullFacts, PullIndex};
use crate::numbered::at_number;
use crate::seqs::pointee;

verus! {

/// What the forge answered in one run.
#[derive(Debug)]
pub struct Snapshot {
    pub index: PullIndex,
    pub facts: BTreeMap<u64, PullFacts>,
}

impl Snapshot {
    /// The live facts of a pull request.
    pub open spec fn known(self, number: u64) -> Option<PullFacts> {
        if self.facts@.contains_key(number) {
            Some(self.facts@[number])
        } else {
            None
        }
    }

    /// The live facts of a pull request.
    pub fn fact(&self, number: u64) -> (facts: Option<&PullFacts>)
        ensures
            pointee(facts) == self.known(number),
    {
        at_number(&self.facts, number)
    }
}

} // verus!
