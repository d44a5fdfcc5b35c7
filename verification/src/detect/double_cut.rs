//! The same release name existing twice with different content.
//!
//! One fork's dated release was cut twice in one day: two commits, two trees, one name, and every
//! consumer of the name got whichever copy its remote happened to hold. A name whose refs disagree
//! is worth a tree comparison, which is the caller's.

use vstd::prelude::*;
use vstd::string::*;

use crate::detect::stale_parents::BookmarkTips;
use crate::ids::{is_release_name, release_name, BookmarkRef, BookmarkView, BranchName, CommitId, ReleaseScheme};
use crate::order::lemma_lex_irreflexive;
use crate::seqs::{
    gathered, group_seqs, lemma_filter_has, lemma_filter_next, lemma_gathered_has, lemma_gathered_next, views,
};
use crate::sorting::{add_key, distinct_texts, lemma_distinct_texts};
use crate::text::{ranks, same};

verus! {

/// Whether a ref counts: a release name, held locally, on `origin` or on `release`.
pub open spec fn counted(bookmark: BookmarkView, scheme: ReleaseScheme) -> bool {
    release_name(bookmark.branch(), scheme) && match bookmark {
        BookmarkView::Local(_) => true,
        BookmarkView::Remote { remote, .. } => remote == "origin"@ || remote == "release"@,
    }
}

/// Whether an entry's ref counts.
pub open spec fn counts(scheme: ReleaseScheme) -> spec_fn((BookmarkRef, CommitId)) -> bool {
    |entry: (BookmarkRef, CommitId)| counted(entry.0@, scheme)
}

/// Whether an entry's ref carries that name.
pub open spec fn named(name: Seq<char>) -> spec_fn((BookmarkRef, CommitId)) -> bool {
    |entry: (BookmarkRef, CommitId)| entry.0@.branch() == name
}

/// Whether an entry's ref carries that name at that commit.
pub open spec fn named_at(name: Seq<char>, commit: Seq<char>) -> spec_fn((BookmarkRef, CommitId)) -> bool {
    |entry: (BookmarkRef, CommitId)| entry.0@.branch() == name && entry.1@ == commit
}

/// The names of the entries, one for each.
pub open spec fn names_of(entries: Seq<(BookmarkRef, CommitId)>) -> Seq<Seq<char>> {
    Seq::new(entries.len(), |i: int| entries[i].0@.branch())
}

/// The commits of the entries, one for each.
pub open spec fn commits_of(entries: Seq<(BookmarkRef, CommitId)>) -> Seq<Seq<char>> {
    Seq::new(entries.len(), |i: int| entries[i].1@)
}

/// The distinct commits a name stands at, in order.
pub open spec fn positions(entries: Seq<(BookmarkRef, CommitId)>, name: Seq<char>) -> Seq<Seq<char>> {
    distinct_texts(commits_of(entries.filter(named(name))))
}

/// The entries of a name at one commit.
pub open spec fn held_at(
    entries: Seq<(BookmarkRef, CommitId)>,
    name: Seq<char>,
) -> spec_fn(Seq<char>) -> Seq<(BookmarkRef, CommitId)> {
    |commit: Seq<char>| entries.filter(named_at(name, commit))
}

/// What is found of one name: its refs, commit by commit, where they name more than one commit.
pub open spec fn disagreement(
    entries: Seq<(BookmarkRef, CommitId)>,
) -> spec_fn(Seq<char>) -> Seq<(Seq<char>, Seq<(BookmarkRef, CommitId)>)> {
    |name: Seq<char>|
        if positions(entries, name).len() > 1 {
            seq![(name, gathered(positions(entries, name), held_at(entries, name)))]
        } else {
            Seq::empty()
        }
}

/// What disagreements say.
pub open spec fn disagreement_views(
    found: Seq<(BranchName, Vec<(BookmarkRef, CommitId)>)>,
) -> Seq<(Seq<char>, Seq<(BookmarkRef, CommitId)>)> {
    Seq::new(found.len(), |i: int| (found[i].0@, found[i].1@))
}

fn counts_ref(reference: &BookmarkRef, scheme: &ReleaseScheme) -> (r: bool)
    ensures
        r == counted(reference@, *scheme),
{
    let near = match reference {
        BookmarkRef::Local(_) => true,
        BookmarkRef::Remote { remote, .. } => same(remote.as_str(), "origin") || same(remote.as_str(), "release"),
    };
    is_release_name(reference.branch(), scheme) && near
}

fn commits_named(entries: &Vec<(BookmarkRef, CommitId)>, name: &str) -> (commits: Vec<String>)
    ensures
        views(commits@) == positions(entries@, name@),
{
    broadcast use group_seqs;

    let mut commits: Vec<String> = Vec::new();
    let mut i: usize = 0;
    assert(commits_of(entries@.take(0).filter(named(name@))) =~= Seq::empty());
    while i < entries.len()
        invariant
            i <= entries@.len(),
            views(commits@) == distinct_texts(commits_of(entries@.take(i as int).filter(named(name@)))),
        decreases entries@.len() - i,
    {
        let ghost before = entries@.take(i as int).filter(named(name@));
        proof {
            lemma_filter_next(entries@, named(name@), i as int);
        }
        if same(entries[i].0.branch().as_str(), name) {
            proof {
                let after = before.push(entries@[i as int]);
                assert(commits_of(after).drop_last() =~= commits_of(before));
                assert(commits_of(after).last() == entries@[i as int].1@);
            }
            add_key(&mut commits, entries[i].1.as_str());
        }
        i += 1;
    }
    assert(entries@.take(i as int) =~= entries@);
    commits
}

fn refs_by_commit(
    entries: &Vec<(BookmarkRef, CommitId)>,
    name: &str,
    commits: &Vec<String>,
) -> (refs: Vec<(BookmarkRef, CommitId)>)
    ensures
        refs@ == gathered(views(commits@), held_at(entries@, name@)),
{
    broadcast use group_seqs;

    let mut refs: Vec<(BookmarkRef, CommitId)> = Vec::new();
    let ghost all = views(commits@);
    let mut k: usize = 0;
    while k < commits.len()
        invariant
            k <= commits@.len(),
            all == views(commits@),
            refs@ == gathered(all.take(k as int), held_at(entries@, name@)),
        decreases commits@.len() - k,
    {
        let commit = &commits[k];
        let ghost before = refs@;
        proof {
            lemma_gathered_next(all, held_at(entries@, name@), k as int);
            assert(all[k as int] == commit@);
        }
        let mut i: usize = 0;
        assert(before + entries@.take(0).filter(named_at(name@, commit@)) =~= before);
        while i < entries.len()
            invariant
                i <= entries@.len(),
                refs@ == before + entries@.take(i as int).filter(named_at(name@, commit@)),
            decreases entries@.len() - i,
        {
            proof {
                lemma_filter_next(entries@, named_at(name@, commit@), i as int);
            }
            if same(entries[i].0.branch().as_str(), name) && same(entries[i].1.as_str(), commit.as_str()) {
                refs.push((entries[i].0.clone(), entries[i].1.clone()));
            }
            assert(refs@ =~= before + entries@.take(i + 1).filter(named_at(name@, commit@)));
            i += 1;
        }
        assert(entries@.take(i as int) =~= entries@);
        k += 1;
    }
    refs
}

/// Names whose refs (held locally, on `origin` or on `release`) name more than one distinct commit,
/// with every ref of each commit: names in order, under each the commits in order, under each the
/// refs in order.
pub fn same_name_disagreements(
    tips: &BookmarkTips,
    scheme: &ReleaseScheme,
) -> (found: Vec<(BranchName, Vec<(BookmarkRef, CommitId)>)>)
    ensures
        ({
            let ours = tips@.filter(counts(*scheme));
            disagreement_views(found@) == gathered(distinct_texts(names_of(ours)), disagreement(ours))
        }),
{
    broadcast use group_seqs;

    let mut ours: Vec<(BookmarkRef, CommitId)> = Vec::new();
    let mut names: Vec<String> = Vec::new();
    let mut i: usize = 0;
    assert(names_of(tips@.take(0).filter(counts(*scheme))) =~= Seq::empty());
    while i < tips.len()
        invariant
            i <= tips@.len(),
            ours@ == tips@.take(i as int).filter(counts(*scheme)),
            views(names@) == distinct_texts(names_of(ours@)),
        decreases tips@.len() - i,
    {
        let reference = tips.key(i);
        let commit = tips.value(i);
        proof {
            lemma_filter_next(tips@, counts(*scheme), i as int);
        }
        if counts_ref(reference, scheme) {
            let ghost before = ours@;
            add_key(&mut names, reference.branch().as_str());
            ours.push((reference.clone(), commit.clone()));
            assert(names_of(ours@).drop_last() =~= names_of(before));
            assert(ours@.last() == tips@[i as int]);
        }
        i += 1;
    }
    assert(tips@.take(i as int) =~= tips@);
    let mut found: Vec<(BranchName, Vec<(BookmarkRef, CommitId)>)> = Vec::new();
    let ghost keys = distinct_texts(names_of(ours@));
    let mut k: usize = 0;
    assert(disagreement_views(found@) =~= Seq::empty());
    while k < names.len()
        invariant
            k <= names@.len(),
            views(names@) == keys,
            disagreement_views(found@) == gathered(keys.take(k as int), disagreement(ours@)),
        decreases names@.len() - k,
    {
        let name = &names[k];
        let ghost before = disagreement_views(found@);
        proof {
            lemma_gathered_next(keys, disagreement(ours@), k as int);
            assert(keys[k as int] == name@);
        }
        let commits = commits_named(&ours, name.as_str());
        if commits.len() > 1 {
            let refs = refs_by_commit(&ours, name.as_str(), &commits);
            assert(positions(ours@, name@).len() > 1);
            found.push((BranchName::new(name.as_str()), refs));
            assert(disagreement_views(found@) =~= before + disagreement(ours@)(name@));
        } else {
            assert(views(commits@).len() == commits@.len());
            assert(disagreement(ours@)(name@) =~= Seq::empty());
        }
        k += 1;
    }
    found
}

/// Which references count for a disagreement: a release that is local, or on `origin` or `release`.
pub proof fn lemma_counted_references(branch: Seq<char>, remote: Seq<char>, scheme: ReleaseScheme)
    ensures
        counted(BookmarkView::Local(branch), scheme) <==> release_name(branch, scheme),
        counted((BookmarkView::Remote { branch, remote }), scheme) <==> release_name(branch, scheme) && (remote
            == "origin"@ || remote == "release"@),
{
}

proof fn lemma_position(entries: Seq<(BookmarkRef, CommitId)>, name: Seq<char>, commit: Seq<char>)
    ensures
        positions(entries, name).contains(commit) <==> exists|i: int|
            0 <= i < entries.len() && (#[trigger] entries[i]).0@.branch() == name && entries[i].1@ == commit,
{
    let list = entries.filter(named(name));
    let commits = commits_of(list);
    lemma_distinct_texts(commits);
    assert(positions(entries, name).contains(commit) <==> commits.contains(commit));
    if commits.contains(commit) {
        let k = choose|k: int| 0 <= k < commits.len() && commits[k] == commit;
        assert(list.contains(list[k]));
        lemma_filter_has(entries, named(name), list[k]);
        let i = choose|i: int| 0 <= i < entries.len() && entries[i] == list[k];
        assert(entries[i].0@.branch() == name);
    }
    if exists|i: int| 0 <= i < entries.len() && (#[trigger] entries[i]).0@.branch() == name && entries[i].1@ == commit {
        let i = choose|i: int|
            0 <= i < entries.len() && (#[trigger] entries[i]).0@.branch() == name && entries[i].1@ == commit;
        entries.lemma_filter_contains(named(name), i);
        let k = choose|k: int| 0 <= k < list.len() && list[k] == entries[i];
        assert(commits[k] == commit);
    }
}

/// A name disagrees exactly if two references to it stand at different commits; every reference to it is
/// then told, and no other.
pub proof fn lemma_disagreement_needs_two_commits(entries: Seq<(BookmarkRef, CommitId)>, name: Seq<char>)
    ensures
        disagreement(entries)(name).len() > 0 <==> exists|a: int, b: int|
            0 <= a < entries.len() && 0 <= b < entries.len() && (#[trigger] entries[a]).0@.branch() == name && (
            #[trigger] entries[b]).0@.branch() == name && entries[a].1@ != entries[b].1@,
        forall|entry: (BookmarkRef, CommitId)| #[trigger]
            gathered(positions(entries, name), held_at(entries, name)).contains(entry) <==> entries.contains(entry)
                && entry.0@.branch() == name,
{
    let places = positions(entries, name);
    lemma_distinct_texts(commits_of(entries.filter(named(name))));
    if places.len() > 1 {
        assert(places.contains(places[0]) && places.contains(places[1]));
        assert(places[0] != places[1]) by {
            if places[0] == places[1] {
                lemma_lex_irreflexive(ranks(places[0]));
            }
        }
        lemma_position(entries, name, places[0]);
        lemma_position(entries, name, places[1]);
        let a = choose|i: int|
            0 <= i < entries.len() && (#[trigger] entries[i]).0@.branch() == name && entries[i].1@ == places[0];
        let b = choose|i: int|
            0 <= i < entries.len() && (#[trigger] entries[i]).0@.branch() == name && entries[i].1@ == places[1];
        assert(entries[a].1@ != entries[b].1@);
    }
    if exists|a: int, b: int|
        0 <= a < entries.len() && 0 <= b < entries.len() && (#[trigger] entries[a]).0@.branch() == name && (
        #[trigger] entries[b]).0@.branch() == name && entries[a].1@ != entries[b].1@ {
        let (a, b) = choose|a: int, b: int|
            0 <= a < entries.len() && 0 <= b < entries.len() && (#[trigger] entries[a]).0@.branch() == name && (
            #[trigger] entries[b]).0@.branch() == name && entries[a].1@ != entries[b].1@;
        lemma_position(entries, name, entries[a].1@);
        lemma_position(entries, name, entries[b].1@);
        let x = choose|x: int| 0 <= x < places.len() && places[x] == entries[a].1@;
        let y = choose|y: int| 0 <= y < places.len() && places[y] == entries[b].1@;
        assert(x != y);
    }
    assert forall|entry: (BookmarkRef, CommitId)| #[trigger]
        gathered(places, held_at(entries, name)).contains(entry) <==> entries.contains(entry) && entry.0@.branch()
            == name by {
        lemma_gathered_has(places, held_at(entries, name), entry);
        if gathered(places, held_at(entries, name)).contains(entry) {
            let i = choose|i: int| 0 <= i < places.len() && held_at(entries, name)(#[trigger] places[i]).contains(entry);
            lemma_filter_has(entries, named_at(name, places[i]), entry);
        }
        if entries.contains(entry) && entry.0@.branch() == name {
            let k = choose|k: int| 0 <= k < entries.len() && entries[k] == entry;
            lemma_position(entries, name, entry.1@);
            assert(places.contains(entry.1@));
            let i = choose|i: int| 0 <= i < places.len() && places[i] == entry.1@;
            lemma_filter_has(entries, named_at(name, places[i]), entry);
            assert(held_at(entries, name)(places[i]).contains(entry));
        }
    }
}

} // verus!
