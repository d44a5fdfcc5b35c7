//! When the owner of a claim was last seen at work.

use vstd::prelude::*;
use vstd::string::*;

use crate::moments::moment_of;
use crate::order::{lookup, OrdMap, Ordered};
use crate::store::OwnerKind;
use crate::text::ranks;

verus! {

/// When the owner of a claim was last seen at work.
#[derive(Debug, PartialEq, Eq)]
pub enum LastSeen {
    At(String),
    /// The observed window covers the claim, and nobody was seen in it.
    NoneSinceClaim,
    /// Nobody was seen, and the observed window does not reach back to the claim.
    NoneWithinWindow,
}

/// What a sighting is.
pub enum SightingView {
    At(Seq<char>),
    NoneSinceClaim,
    NoneWithinWindow,
}

impl View for LastSeen {
    type V = SightingView;

    open spec fn view(&self) -> SightingView {
        match self {
            LastSeen::At(text) => SightingView::At(text@),
            LastSeen::NoneSinceClaim => SightingView::NoneSinceClaim,
            LastSeen::NoneWithinWindow => SightingView::NoneWithinWindow,
        }
    }
}

impl Clone for LastSeen {
    fn clone(&self) -> (copy: Self)
        ensures
            copy == *self,
    {
        match self {
            LastSeen::At(text) => LastSeen::At(text.clone()),
            LastSeen::NoneSinceClaim => LastSeen::NoneSinceClaim,
            LastSeen::NoneWithinWindow => LastSeen::NoneWithinWindow,
        }
    }
}

/// The sightings kept beside the repositories: of owners by kind, and of workspaces by repository
/// and name.
#[derive(Debug)]
pub struct Seen {
    pub owners: OrdMap<OwnerKind, OrdMap<String, String>>,
    pub workspaces: OrdMap<String, String>,
}

impl Default for Seen {
    /// No sightings.
    fn default() -> (seen: Self)
        ensures
            seen.owners@.len() == 0,
            seen.workspaces@.len() == 0,
    {
        Seen { owners: OrdMap::new(), workspaces: OrdMap::new() }
    }
}

impl Ordered for OwnerKind {
    open spec fn rank(&self) -> Seq<int> {
        match self {
            OwnerKind::HarnessSession => seq![0int],
            OwnerKind::WorkspaceDerived => seq![1int],
            OwnerKind::OsUser => seq![2int],
        }
    }

    fn precedes(&self, other: &Self) -> (r: bool) {
        proof {
            reveal_with_fuel(crate::order::lex_less, 2);
        }
        match (self, other) {
            (OwnerKind::HarnessSession, OwnerKind::HarnessSession) => false,
            (OwnerKind::HarnessSession, _) => true,
            (OwnerKind::WorkspaceDerived, OwnerKind::OsUser) => true,
            _ => false,
        }
    }
}

/// When a moment was kept for an owner.
pub open spec fn owner_moment(seen: Seen, kind: OwnerKind, owner: Seq<char>) -> Option<(int, Seq<char>)> {
    match lookup(seen.owners@, kind.rank()) {
        Some(owners) => match lookup(owners@, ranks(owner)) {
            Some(text) => moment_of(text@),
            None => None,
        },
        None => None,
    }
}

/// When a moment was kept for a workspace.
pub open spec fn workspace_moment(seen: Seen, key: Seq<char>) -> Option<(int, Seq<char>)> {
    match lookup(seen.workspaces@, ranks(key)) {
        Some(text) => moment_of(text@),
        None => None,
    }
}

} // verus!
