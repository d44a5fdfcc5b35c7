//! The identifiers of a repository, each its own type so that none passes for another.

use vstd::prelude::*;
use vstd::string::*;

use crate::order::{lex_less, Ordered};
use crate::pieces::{
    digits_value, is_digit, lemma_next_at, lemma_number_round_trip, next_at, number_of, number_within, parse_u64,
    split_once,
};
use crate::seqs::views;
use crate::text::{
    begins_with, chars_of, decimal_text, lemma_ranks_injective, prefix, ranks, same, shortened, slice_text, strip_prefix,
    text_precedes,
};

verus! {

/// The characters an abbreviated commit or change id keeps.
pub const SHORT_LENGTH: usize = 12;

/// What every release branch of the dated scheme is named under.
pub const RELEASE_PREFIX: &'static str = "release/";

/// The name of a branch, as a bookmark carries it.
#[derive(Debug, PartialEq, Eq, PartialOrd, Ord, Hash)]
pub struct BranchName {
    pub text: String,
}

impl View for BranchName {
    type V = Seq<char>;

    open spec fn view(&self) -> Seq<char> {
        self.text@
    }
}

impl Clone for BranchName {
    fn clone(&self) -> (copy: Self)
        ensures
            copy == *self,
    {
        BranchName { text: self.text.clone() }
    }
}

impl BranchName {
    /// The identifier that `text` spells.
    pub fn new(text: &str) -> (id: Self)
        ensures
            id@ == text@,
    {
        BranchName { text: text.to_owned() }
    }

    /// How the identifier is spelled.
    pub fn as_str(&self) -> (text: &str)
        ensures
            text@ == self@,
    {
        self.text.as_str()
    }

    /// Whether both spell the same identifier.
    pub fn same(&self, other: &Self) -> (r: bool)
        ensures
            r == (self@ == other@),
    {
        same(self.text.as_str(), other.text.as_str())
    }
}

impl Ordered for BranchName {
    open spec fn rank(&self) -> Seq<int> {
        ranks(self@)
    }

    fn precedes(&self, other: &Self) -> (r: bool) {
        let r = text_precedes(self.text.as_str(), other.text.as_str());
        assert(self.rank() == ranks(self.text@) && other.rank() == ranks(other.text@));
        r
    }
}

/// The name of a remote.
#[derive(Debug, PartialEq, Eq, PartialOrd, Ord, Hash)]
pub struct RemoteName {
    pub text: String,
}

impl View for RemoteName {
    type V = Seq<char>;

    open spec fn view(&self) -> Seq<char> {
        self.text@
    }
}

impl Clone for RemoteName {
    fn clone(&self) -> (copy: Self)
        ensures
            copy == *self,
    {
        RemoteName { text: self.text.clone() }
    }
}

impl RemoteName {
    /// The identifier that `text` spells.
    pub fn new(text: &str) -> (id: Self)
        ensures
            id@ == text@,
    {
        RemoteName { text: text.to_owned() }
    }

    /// How the identifier is spelled.
    pub fn as_str(&self) -> (text: &str)
        ensures
            text@ == self@,
    {
        self.text.as_str()
    }

    /// Whether both spell the same identifier.
    pub fn same(&self, other: &Self) -> (r: bool)
        ensures
            r == (self@ == other@),
    {
        same(self.text.as_str(), other.text.as_str())
    }
}

impl Ordered for RemoteName {
    open spec fn rank(&self) -> Seq<int> {
        ranks(self@)
    }

    fn precedes(&self, other: &Self) -> (r: bool) {
        let r = text_precedes(self.text.as_str(), other.text.as_str());
        assert(self.rank() == ranks(self.text@) && other.rank() == ranks(other.text@));
        r
    }
}

/// The name a repository is registered under.
#[derive(Debug, PartialEq, Eq, PartialOrd, Ord, Hash)]
pub struct RepoName {
    pub text: String,
}

impl View for RepoName {
    type V = Seq<char>;

    open spec fn view(&self) -> Seq<char> {
        self.text@
    }
}

impl Clone for RepoName {
    fn clone(&self) -> (copy: Self)
        ensures
            copy == *self,
    {
        RepoName { text: self.text.clone() }
    }
}

impl RepoName {
    /// The identifier that `text` spells.
    pub fn new(text: &str) -> (id: Self)
        ensures
            id@ == text@,
    {
        RepoName { text: text.to_owned() }
    }

    /// How the identifier is spelled.
    pub fn as_str(&self) -> (text: &str)
        ensures
            text@ == self@,
    {
        self.text.as_str()
    }

    /// Whether both spell the same identifier.
    pub fn same(&self, other: &Self) -> (r: bool)
        ensures
            r == (self@ == other@),
    {
        same(self.text.as_str(), other.text.as_str())
    }
}

impl Ordered for RepoName {
    open spec fn rank(&self) -> Seq<int> {
        ranks(self@)
    }

    fn precedes(&self, other: &Self) -> (r: bool) {
        let r = text_precedes(self.text.as_str(), other.text.as_str());
        assert(self.rank() == ranks(self.text@) && other.rank() == ranks(other.text@));
        r
    }
}

/// The name of a workspace.
#[derive(Debug, PartialEq, Eq, PartialOrd, Ord, Hash)]
pub struct WorkspaceName {
    pub text: String,
}

impl View for WorkspaceName {
    type V = Seq<char>;

    open spec fn view(&self) -> Seq<char> {
        self.text@
    }
}

impl Clone for WorkspaceName {
    fn clone(&self) -> (copy: Self)
        ensures
            copy == *self,
    {
        WorkspaceName { text: self.text.clone() }
    }
}

impl WorkspaceName {
    /// The identifier that `text` spells.
    pub fn new(text: &str) -> (id: Self)
        ensures
            id@ == text@,
    {
        WorkspaceName { text: text.to_owned() }
    }

    /// How the identifier is spelled.
    pub fn as_str(&self) -> (text: &str)
        ensures
            text@ == self@,
    {
        self.text.as_str()
    }

    /// Whether both spell the same identifier.
    pub fn same(&self, other: &Self) -> (r: bool)
        ensures
            r == (self@ == other@),
    {
        same(self.text.as_str(), other.text.as_str())
    }
}

impl Ordered for WorkspaceName {
    open spec fn rank(&self) -> Seq<int> {
        ranks(self@)
    }

    fn precedes(&self, other: &Self) -> (r: bool) {
        let r = text_precedes(self.text.as_str(), other.text.as_str());
        assert(self.rank() == ranks(self.text@) && other.rank() == ranks(other.text@));
        r
    }
}

/// The id of a change: the same across every commit it is rewritten as.
#[derive(Debug, PartialEq, Eq, PartialOrd, Ord, Hash)]
pub struct ChangeId {
    pub text: String,
}

impl View for ChangeId {
    type V = Seq<char>;

    open spec fn view(&self) -> Seq<char> {
        self.text@
    }
}

impl Clone for ChangeId {
    fn clone(&self) -> (copy: Self)
        ensures
            copy == *self,
    {
        ChangeId { text: self.text.clone() }
    }
}

impl ChangeId {
    /// The identifier that `text` spells.
    pub fn new(text: &str) -> (id: Self)
        ensures
            id@ == text@,
    {
        ChangeId { text: text.to_owned() }
    }

    /// How the identifier is spelled.
    pub fn as_str(&self) -> (text: &str)
        ensures
            text@ == self@,
    {
        self.text.as_str()
    }

    /// Whether both spell the same identifier.
    pub fn same(&self, other: &Self) -> (r: bool)
        ensures
            r == (self@ == other@),
    {
        same(self.text.as_str(), other.text.as_str())
    }
}

impl Ordered for ChangeId {
    open spec fn rank(&self) -> Seq<int> {
        ranks(self@)
    }

    fn precedes(&self, other: &Self) -> (r: bool) {
        let r = text_precedes(self.text.as_str(), other.text.as_str());
        assert(self.rank() == ranks(self.text@) && other.rank() == ranks(other.text@));
        r
    }
}

/// The id of one commit.
#[derive(Debug, PartialEq, Eq, PartialOrd, Ord, Hash)]
pub struct CommitId {
    pub text: String,
}

impl View for CommitId {
    type V = Seq<char>;

    open spec fn view(&self) -> Seq<char> {
        self.text@
    }
}

impl Clone for CommitId {
    fn clone(&self) -> (copy: Self)
        ensures
            copy == *self,
    {
        CommitId { text: self.text.clone() }
    }
}

impl CommitId {
    /// The identifier that `text` spells.
    pub fn new(text: &str) -> (id: Self)
        ensures
            id@ == text@,
    {
        CommitId { text: text.to_owned() }
    }

    /// How the identifier is spelled.
    pub fn as_str(&self) -> (text: &str)
        ensures
            text@ == self@,
    {
        self.text.as_str()
    }

    /// Whether both spell the same identifier.
    pub fn same(&self, other: &Self) -> (r: bool)
        ensures
            r == (self@ == other@),
    {
        same(self.text.as_str(), other.text.as_str())
    }
}

impl Ordered for CommitId {
    open spec fn rank(&self) -> Seq<int> {
        ranks(self@)
    }

    fn precedes(&self, other: &Self) -> (r: bool) {
        let r = text_precedes(self.text.as_str(), other.text.as_str());
        assert(self.rank() == ranks(self.text@) && other.rank() == ranks(other.text@));
        r
    }
}

impl CommitId {
    /// The abbreviated id.
    pub fn short(&self) -> (text: String)
        ensures
            text@ == short_text(self@),
    {
        shortened(self.text.as_str(), SHORT_LENGTH)
    }
}

/// An id abbreviated to its first characters.
pub open spec fn short_text(id: Seq<char>) -> Seq<char> {
    prefix(id, SHORT_LENGTH as nat)
}

/// An id abbreviated to its first characters.
pub fn short_id(id: &str) -> (text: String)
    ensures
        text@ == short_text(id@),
{
    shortened(id, SHORT_LENGTH)
}

/// Whether the commits hold one.
pub fn holds_commit(commits: &[CommitId], commit: &CommitId) -> (r: bool)
    ensures
        r == views(commits@).contains(commit@),
{
    let mut i: usize = 0;
    while i < commits.len()
        invariant
            i <= commits@.len(),
            forall|j: int| 0 <= j < i ==> (#[trigger] views(commits@)[j]) != commit@,
        decreases commits@.len() - i,
    {
        if commits[i].same(commit) {
            assert(views(commits@)[i as int] == commit@);
            return true;
        }
        i += 1;
    }
    false
}

/// A bookmark: a local branch, or a branch as one remote has it.
#[derive(Debug, PartialEq, Eq, PartialOrd, Ord, Hash)]
pub enum BookmarkRef {
    Local(BranchName),
    Remote { branch: BranchName, remote: RemoteName },
}

/// What a bookmark is, without the strings that hold it.
pub enum BookmarkView {
    Local(Seq<char>),
    Remote { branch: Seq<char>, remote: Seq<char> },
}

impl BookmarkView {
    /// The branch the bookmark names.
    pub open spec fn branch(self) -> Seq<char> {
        match self {
            BookmarkView::Local(branch) => branch,
            BookmarkView::Remote { branch, .. } => branch,
        }
    }

    /// The bookmark as it is written: the branch, and the remote behind an at sign.
    pub open spec fn text(self) -> Seq<char> {
        match self {
            BookmarkView::Local(branch) => branch,
            BookmarkView::Remote { branch, remote } => branch + "@"@ + remote,
        }
    }
}

impl View for BookmarkRef {
    type V = BookmarkView;

    open spec fn view(&self) -> BookmarkView {
        match self {
            BookmarkRef::Local(branch) => BookmarkView::Local(branch@),
            BookmarkRef::Remote { branch, remote } => BookmarkView::Remote { branch: branch@, remote: remote@ },
        }
    }
}

impl Clone for BookmarkRef {
    fn clone(&self) -> (copy: Self)
        ensures
            copy == *self,
    {
        match self {
            BookmarkRef::Local(branch) => BookmarkRef::Local(branch.clone()),
            BookmarkRef::Remote { branch, remote } => BookmarkRef::Remote {
                branch: branch.clone(),
                remote: remote.clone(),
            },
        }
    }
}

impl BookmarkRef {
    /// The bookmark that `text` writes: what follows the first at sign is the remote.
    pub fn parse(text: &str) -> (bookmark: Self)
        ensures
            bookmark@ == parsed_bookmark(text@),
    {
        match split_once(text, '@') {
            Some((branch, remote)) => BookmarkRef::Remote {
                branch: BranchName { text: branch },
                remote: RemoteName { text: remote },
            },
            None => BookmarkRef::Local(BranchName::new(text)),
        }
    }

    /// The branch the bookmark names.
    pub fn branch(&self) -> (branch: &BranchName)
        ensures
            branch@ == self@.branch(),
    {
        match self {
            BookmarkRef::Local(branch) => branch,
            BookmarkRef::Remote { branch, .. } => branch,
        }
    }

    /// Whether the bookmark is local.
    pub fn is_local(&self) -> (r: bool)
        ensures
            r == (self@ is Local),
    {
        match self {
            BookmarkRef::Local(_) => true,
            BookmarkRef::Remote { .. } => false,
        }
    }

    /// The bookmark as it is written.
    pub fn to_text(&self) -> (text: String)
        ensures
            text@ == self@.text(),
    {
        match self {
            BookmarkRef::Local(branch) => branch.text.clone(),
            BookmarkRef::Remote { branch, remote } => {
                let mut text = branch.text.clone();
                text.append("@");
                text.append(remote.as_str());
                text
            },
        }
    }

    /// Whether both are the same bookmark.
    pub fn same(&self, other: &Self) -> (r: bool)
        ensures
            r == (self@ == other@),
    {
        match (self, other) {
            (BookmarkRef::Local(a), BookmarkRef::Local(b)) => a.same(b),
            (
                BookmarkRef::Remote { branch: a, remote: s },
                BookmarkRef::Remote { branch: b, remote: t },
            ) => a.same(b) && s.same(t),
            _ => false,
        }
    }
}

/// The bookmark that a text writes.
pub open spec fn parsed_bookmark(text: Seq<char>) -> BookmarkView {
    let k = next_at(text, '@', 0);
    if k < text.len() {
        BookmarkView::Remote { branch: text.take(k), remote: text.skip(k + 1) }
    } else {
        BookmarkView::Local(text)
    }
}

/// How bookmarks are ordered: local ones first, then by branch, then by remote.
pub open spec fn bookmark_rank(bookmark: BookmarkView) -> Seq<int> {
    match bookmark {
        BookmarkView::Local(branch) => seq![0int] + ranks(branch),
        BookmarkView::Remote { branch, remote } => seq![1int] + ranks(branch) + seq![-1int] + ranks(remote),
    }
}

proof fn lemma_char_bound(c: char)
    ensures
        0 <= c as int,
{
}

/// A pair is ordered by its first text, and by its second only where the first are the same.
pub proof fn lemma_pair_order(a: Seq<char>, x: Seq<char>, b: Seq<char>, y: Seq<char>)
    ensures
        lex_less(ranks(a) + seq![-1int] + ranks(x), ranks(b) + seq![-1int] + ranks(y)) == (lex_less(
            ranks(a),
            ranks(b),
        ) || (a == b && lex_less(ranks(x), ranks(y)))),
        ranks(a) + seq![-1int] + ranks(x) == ranks(b) + seq![-1int] + ranks(y) <==> a == b && x == y,
    decreases a.len(),
{
    let left = ranks(a) + seq![-1int] + ranks(x);
    let right = ranks(b) + seq![-1int] + ranks(y);
    lemma_ranks_injective(x, y);
    if a.len() > 0 && b.len() > 0 {
        lemma_pair_order(a.drop_first(), x, b.drop_first(), y);
        assert(ranks(a).drop_first() =~= ranks(a.drop_first()));
        assert(ranks(b).drop_first() =~= ranks(b.drop_first()));
        assert(left.drop_first() =~= ranks(a.drop_first()) + seq![-1int] + ranks(x));
        assert(right.drop_first() =~= ranks(b.drop_first()) + seq![-1int] + ranks(y));
        assert(left[0] == a[0] as int && right[0] == b[0] as int);
        assert(ranks(a)[0] == a[0] as int && ranks(b)[0] == b[0] as int);
        assert(left.len() > 0 && right.len() > 0);
        if a[0] != b[0] {
            assert(left[0] != right[0]);
            assert(a != b && left != right);
        } else {
            assert((a == b) == (a.drop_first() == b.drop_first())) by {
                assert(a =~= seq![a[0]] + a.drop_first());
                assert(b =~= seq![b[0]] + b.drop_first());
            }
            assert((left == right) == (left.drop_first() == right.drop_first())) by {
                assert(left =~= seq![left[0]] + left.drop_first());
                assert(right =~= seq![right[0]] + right.drop_first());
            }
        }
    } else if a.len() == 0 && b.len() == 0 {
        assert(a =~= b);
        assert(left.drop_first() =~= ranks(x));
        assert(right.drop_first() =~= ranks(y));
        assert(left =~= seq![-1int] + ranks(x));
        assert(right =~= seq![-1int] + ranks(y));
        assert(left[0] == -1 && right[0] == -1);
        assert((left == right) == (ranks(x) == ranks(y)));
    } else if a.len() == 0 {
        let c: char = b[0];
        lemma_char_bound(c);
        assert(left[0] == -1 && right[0] == c as int);
        assert(left != right && a != b);
        assert(left.len() > 0 && right.len() > 0);
    } else {
        let c: char = a[0];
        lemma_char_bound(c);
        assert(right[0] == -1 && left[0] == c as int);
        assert(left != right && a != b);
        assert(left.len() > 0 && right.len() > 0);
    }
}

/// Bookmarks with the same rank are the same bookmark.
pub proof fn lemma_bookmark_rank_injective(a: BookmarkView, b: BookmarkView)
    ensures
        bookmark_rank(a) == bookmark_rank(b) <==> a == b,
{
    match (a, b) {
        (BookmarkView::Local(x), BookmarkView::Local(y)) => {
            lemma_ranks_injective(x, y);
            assert(bookmark_rank(a).drop_first() =~= ranks(x));
            assert(bookmark_rank(b).drop_first() =~= ranks(y));
        },
        (
            BookmarkView::Remote { branch: x, remote: s },
            BookmarkView::Remote { branch: y, remote: t },
        ) => {
            lemma_pair_order(x, s, y, t);
            assert(bookmark_rank(a).drop_first() =~= ranks(x) + seq![-1int] + ranks(s));
            assert(bookmark_rank(b).drop_first() =~= ranks(y) + seq![-1int] + ranks(t));
        },
        _ => {
            assert(bookmark_rank(a)[0] != bookmark_rank(b)[0]);
        },
    }
}

impl Ordered for BookmarkRef {
    open spec fn rank(&self) -> Seq<int> {
        bookmark_rank(self@)
    }

    fn precedes(&self, other: &Self) -> (r: bool) {
        match (self, other) {
            (BookmarkRef::Local(a), BookmarkRef::Local(b)) => {
                proof {
                    assert(self.rank().drop_first() =~= ranks(a@));
                    assert(other.rank().drop_first() =~= ranks(b@));
                }
                a.precedes(b)
            },
            (BookmarkRef::Local(_), BookmarkRef::Remote { .. }) => true,
            (BookmarkRef::Remote { .. }, BookmarkRef::Local(_)) => false,
            (
                BookmarkRef::Remote { branch: a, remote: s },
                BookmarkRef::Remote { branch: b, remote: t },
            ) => {
                proof {
                    lemma_pair_order(a@, s@, b@, t@);
                    assert(self.rank().drop_first() =~= ranks(a@) + seq![-1int] + ranks(s@));
                    assert(other.rank().drop_first() =~= ranks(b@) + seq![-1int] + ranks(t@));
                }
                a.precedes(b) || (a.same(b) && s.precedes(t))
            },
        }
    }
}

/// How a repository names its release cuts: one dated name per cut, or one branch that moves.
#[derive(Debug, PartialEq, Eq)]
pub enum ReleaseScheme {
    Dated,
    Fixed(BranchName),
}

impl Clone for ReleaseScheme {
    fn clone(&self) -> (copy: Self)
        ensures
            copy == *self,
    {
        match self {
            ReleaseScheme::Dated => ReleaseScheme::Dated,
            ReleaseScheme::Fixed(branch) => ReleaseScheme::Fixed(branch.clone()),
        }
    }
}

/// Whether a branch of that name is a release cut under the scheme.
pub open spec fn release_name(branch: Seq<char>, scheme: ReleaseScheme) -> bool {
    match scheme {
        ReleaseScheme::Dated => begins_with(branch, RELEASE_PREFIX@),
        ReleaseScheme::Fixed(fixed) => branch == fixed@,
    }
}

/// Whether a branch of that name is a release cut under the scheme.
pub fn is_release_name(branch: &BranchName, scheme: &ReleaseScheme) -> (r: bool)
    ensures
        r == release_name(branch@, *scheme),
{
    match scheme {
        ReleaseScheme::Dated => crate::text::starts_with(branch.as_str(), RELEASE_PREFIX),
        ReleaseScheme::Fixed(fixed) => branch.same(fixed),
    }
}

/// Whether a ref on that remote may speak for our releases: a moving branch is read only where it
/// is published, a dated cut also on `origin` and `release`.
pub open spec fn trusted_remote(remote: Seq<char>, scheme: ReleaseScheme, publish_remote: Seq<char>) -> bool {
    remote == publish_remote || (scheme is Dated && (remote == "origin"@ || remote == "release"@))
}

/// Whether a bookmark is one of our release refs: a release name, held locally or on a remote that
/// may speak for us.
pub open spec fn our_release(
    bookmark: BookmarkView,
    scheme: ReleaseScheme,
    publish_remote: Seq<char>,
) -> bool {
    release_name(bookmark.branch(), scheme) && match bookmark {
        BookmarkView::Local(_) => true,
        BookmarkView::Remote { remote, .. } => trusted_remote(remote, scheme, publish_remote),
    }
}

/// Whether a bookmark is one of our release refs.
pub fn is_our_release(
    reference: &BookmarkRef,
    scheme: &ReleaseScheme,
    publish_remote: &str,
) -> (r: bool)
    ensures
        r == our_release(reference@, *scheme, publish_remote@),
{
    let trusted = match reference {
        BookmarkRef::Local(_) => true,
        BookmarkRef::Remote { remote, .. } => {
            let dated = match scheme {
                ReleaseScheme::Dated => true,
                ReleaseScheme::Fixed(_) => false,
            };
            same(remote.as_str(), publish_remote) || (dated && (same(remote.as_str(), "origin") || same(
                remote.as_str(),
                "release",
            )))
        },
    };
    is_release_name(reference.branch(), scheme) && trusted
}

/// When a dated release was cut: its day, and which cut of that day it was.
#[derive(Debug, Clone, Copy, PartialEq, Eq, Structural)]
pub struct DatedRelease {
    /// The day as a number: four digits of the year, two of the month, two of the day.
    pub day: u64,
    /// The number behind the date, where the name has one.
    pub suffix: Option<u64>,
}

impl DatedRelease {
    /// The order of cuts: by day, and on one day the plain name before the numbered ones.
    pub open spec fn rank(self) -> Seq<int> {
        match self.suffix {
            None => seq![self.day as int],
            Some(n) => seq![self.day as int, n as int],
        }
    }

    /// Whether this cut came before `other`.
    pub fn precedes(&self, other: &Self) -> (r: bool)
        ensures
            r == lex_less(self.rank(), other.rank()),
    {
        proof {
            reveal_with_fuel(lex_less, 4);
        }
        if self.day != other.day {
            return self.day < other.day;
        }
        match (self.suffix, other.suffix) {
            (_, None) => false,
            (None, Some(_)) => true,
            (Some(a), Some(b)) => a < b,
        }
    }
}

/// Whether the characters from `from` up to `to` are all digits.
pub open spec fn digits_between(s: Seq<char>, from: int, to: int) -> bool {
    forall|i: int| from <= i < to ==> is_digit(#[trigger] s[i])
}

/// Whether a text begins with a date written `YYYY-MM-DD`.
pub open spec fn begins_with_date(s: Seq<char>) -> bool {
    s.len() >= 10 && digits_between(s, 0, 4) && s[4] == '-' && digits_between(s, 5, 7) && s[7] == '-'
        && digits_between(s, 8, 10)
}

/// The date of a text that begins with one, as one number.
pub open spec fn day_of(s: Seq<char>) -> nat {
    digits_value(s.subrange(0, 4) + s.subrange(5, 7) + s.subrange(8, 10))
}

/// The cut that a name under the dated scheme stands for: `release/`, a date, and at most a dot and
/// a number behind it.
pub open spec fn dated_release(name: Seq<char>) -> Option<DatedRelease> {
    let rest = name.skip(RELEASE_PREFIX@.len() as int);
    if !begins_with(name, RELEASE_PREFIX@) || !begins_with_date(rest) {
        None
    } else if rest.len() == 10 {
        Some(DatedRelease { day: day_of(rest) as u64, suffix: None })
    } else if rest[10] == '.' && rest.len() > 11 && digits_between(rest, 11, rest.len() as int) && digits_value(
        rest.skip(11),
    ) <= u64::MAX {
        Some(DatedRelease { day: day_of(rest) as u64, suffix: Some(digits_value(rest.skip(11)) as u64) })
    } else {
        None
    }
}

fn all_digits(chars: &Vec<char>, from: usize, to: usize) -> (r: bool)
    requires
        from <= to <= chars@.len(),
    ensures
        r == digits_between(chars@, from as int, to as int),
{
    let mut i: usize = from;
    while i < to
        invariant
            from <= i <= to <= chars@.len(),
            digits_between(chars@, from as int, i as int),
        decreases to - i,
    {
        if chars[i] < '0' || '9' < chars[i] {
            assert(!is_digit(chars@[i as int]));
            return false;
        }
        i += 1;
    }
    true
}

fn read_digits(chars: &Vec<char>, from: usize, to: usize) -> (n: Option<u64>)
    requires
        from < to <= chars@.len(),
        digits_between(chars@, from as int, to as int),
    ensures
        match n {
            Some(v) => digits_value(chars@.subrange(from as int, to as int)) == v as nat,
            None => digits_value(chars@.subrange(from as int, to as int)) > u64::MAX,
        },
{
    let text = slice_text(chars, from, to);
    proof {
        assert(text@[0] == chars@[from as int]);
        assert(is_digit(chars@[from as int]));
        assert forall|i: int| 0 <= i < text@.len() implies is_digit(#[trigger] text@[i]) by {
            assert(is_digit(chars@[from + i]));
        }
    }
    parse_u64(text.as_str())
}

proof fn lemma_digits_bound(s: Seq<char>)
    requires
        digits_between(s, 0, s.len() as int),
        s.len() <= 8,
    ensures
        digits_value(s) < 100000000,
{
    reveal_with_fuel(digits_value, 9);
    assert forall|i: int| 0 <= i < s.len() implies 48 <= #[trigger] s[i] as u32 <= 57 by {
        assert(is_digit(s[i]));
    }
}

/// The cut that a name under the dated scheme stands for.
pub fn strict_dated_release(name: &str) -> (cut: Option<DatedRelease>)
    ensures
        cut == dated_release(name@),
{
    let rest = match strip_prefix(name, RELEASE_PREFIX) {
        Some(rest) => rest,
        None => return None,
    };
    let chars = chars_of(rest.as_str());
    if chars.len() < 10 || !all_digits(&chars, 0, 4) || chars[4] != '-' || !all_digits(&chars, 5, 7)
        || chars[7] != '-' || !all_digits(&chars, 8, 10) {
        return None;
    }
    let mut date = slice_text(&chars, 0, 4);
    date.append(slice_text(&chars, 5, 7).as_str());
    date.append(slice_text(&chars, 8, 10).as_str());
    let digits = chars_of(date.as_str());
    proof {
        assert forall|i: int| 0 <= i < digits@.len() implies is_digit(#[trigger] digits@[i]) by {
            if i < 4 {
                assert(digits@[i] == chars@[i]);
                assert(is_digit(chars@[i]));
            } else if i < 6 {
                assert(digits@[i] == chars@[i + 1]);
                assert(is_digit(chars@[i + 1]));
            } else {
                assert(digits@[i] == chars@[i + 2]);
                assert(is_digit(chars@[i + 2]));
            }
        }
        lemma_digits_bound(digits@);
        assert(digits@.subrange(0, 8) =~= digits@);
    }
    let day = match read_digits(&digits, 0, 8) {
        Some(day) => day,
        None => return None,
    };
    if chars.len() == 10 {
        return Some(DatedRelease { day, suffix: None });
    }
    if chars[10] != '.' || chars.len() == 11 || !all_digits(&chars, 11, chars.len()) {
        return None;
    }
    proof {
        assert(chars@.subrange(11, chars@.len() as int) =~= chars@.skip(11));
    }
    match read_digits(&chars, 11, chars.len()) {
        Some(n) => Some(DatedRelease { day, suffix: Some(n) }),
        None => None,
    }
}

/// The pull request whose head a bookmark of that name holds: `pull/` and its number.
pub open spec fn pull_number(name: Seq<char>) -> Option<u64> {
    if begins_with(name, "pull/"@) {
        match number_within(name.skip("pull/"@.len() as int), u64::MAX as nat) {
            Some(n) => Some(n as u64),
            None => None,
        }
    } else {
        None
    }
}

/// The pull request whose head a bookmark of that name holds.
pub fn pull_number_from_bookmark(name: &str) -> (number: Option<u64>)
    ensures
        number == pull_number(name@),
{
    match strip_prefix(name, "pull/") {
        Some(rest) => parse_u64(rest.as_str()),
        None => None,
    }
}

/// A bookmark reads back as it was written, where its branch has no at sign.
pub proof fn lemma_bookmark_round_trip(bookmark: BookmarkView)
    requires
        !bookmark.branch().contains('@'),
    ensures
        parsed_bookmark(bookmark.text()) == bookmark,
{
    reveal_strlit("@");
    let text = bookmark.text();
    let branch = bookmark.branch();
    lemma_next_at(text, '@', 0);
    let k = next_at(text, '@', 0);
    assert forall|i: int| 0 <= i < branch.len() implies #[trigger] text[i] != '@' by {
        assert(text[i] == branch[i]);
        assert(branch.contains(branch[i]));
    }
    match bookmark {
        BookmarkView::Local(_) => {
            if k < text.len() {
                assert(text[k] == '@');
            }
        },
        BookmarkView::Remote { branch, remote } => {
            assert(text[branch.len() as int] == '@');
            assert(k == branch.len());
            assert(text.take(k) =~= branch);
            assert(text.skip(k + 1) =~= remote);
        },
    }
}

/// Of two cuts the later day is the newer one; on one day the plain name comes before the numbered
/// ones, and those by their number.
pub proof fn lemma_cut_order(a: DatedRelease, b: DatedRelease)
    ensures
        a.day < b.day ==> lex_less(a.rank(), b.rank()),
        a.day == b.day && a.suffix is None && b.suffix is Some ==> lex_less(a.rank(), b.rank()),
        a.day == b.day && a.suffix is Some && b.suffix is Some && a.suffix->0 < b.suffix->0 ==> lex_less(
            a.rank(),
            b.rank(),
        ),
        a.rank() == b.rank() ==> a == b,
{
    reveal_with_fuel(lex_less, 3);
    if a.rank() == b.rank() {
        assert(a.rank().len() == b.rank().len());
        assert(a.rank()[0] == b.rank()[0]);
        if a.suffix is Some {
            assert(a.rank()[1] == b.rank()[1]);
        }
    }
}

/// A branch is a release under the dated scheme exactly if its name begins with `release/`, and under a
/// fixed one exactly if it is that branch.
pub proof fn lemma_release_names(branch: Seq<char>, fixed: BranchName)
    ensures
        release_name("release/"@ + branch, ReleaseScheme::Dated),
        release_name(branch, ReleaseScheme::Dated) ==> exists|rest: Seq<char>| branch == #[trigger] ("release/"@ + rest),
        release_name(branch, ReleaseScheme::Fixed(fixed)) <==> branch == fixed@,
{
    let whole = "release/"@ + branch;
    assert(whole.take("release/"@.len() as int) =~= "release/"@);
    if release_name(branch, ReleaseScheme::Dated) {
        let rest = branch.skip("release/"@.len() as int);
        assert(branch =~= "release/"@ + rest);
    }
}

/// Which references are releases of ours: a release name that is local, or on the remote it is published
/// to, or, under the dated scheme alone, on `origin` or `release`.
pub proof fn lemma_our_releases(branch: Seq<char>, remote: Seq<char>, scheme: ReleaseScheme, publish_remote: Seq<char>)
    ensures
        our_release(BookmarkView::Local(branch), scheme, publish_remote) <==> release_name(branch, scheme),
        our_release((BookmarkView::Remote { branch, remote }), scheme, publish_remote) <==> release_name(branch, scheme)
            && (remote == publish_remote || scheme is Dated && (remote == "origin"@ || remote == "release"@)),
{
}

/// How a dated cut is written: `release/`, a date, and after a point the number of a later cut of the
/// day. The day is read from the date's digits and the number from its own.
pub proof fn lemma_dated_release_reads(year: Seq<char>, month: Seq<char>, day: Seq<char>, suffix: Seq<char>)
    requires
        year.len() == 4 && month.len() == 2 && day.len() == 2,
        digits_between(year, 0, 4) && digits_between(month, 0, 2) && digits_between(day, 0, 2),
        suffix.len() > 0,
        digits_between(suffix, 0, suffix.len() as int),
        digits_value(suffix) <= u64::MAX,
    ensures
        ({
            let date = "release/"@ + year + seq!['-'] + month + seq!['-'] + day;
            let number = digits_value(year + month + day) as u64;
            &&& dated_release(date) == Some(DatedRelease { day: number, suffix: None })
            &&& dated_release(date + seq!['.'] + suffix) == Some(
                DatedRelease { day: number, suffix: Some(digits_value(suffix) as u64) },
            )
            &&& dated_release(date + seq!['.']) is None
            &&& dated_release(date + seq!['-'] + suffix) is None
            &&& dated_release("release/"@ + year + month + day) is None
            &&& dated_release(year + seq!['-'] + month + seq!['-'] + day) is None
        }),
{
    reveal_strlit("release/");
    let prefix = "release/"@;
    let plain = year + seq!['-'] + month + seq!['-'] + day;
    let date = prefix + year + seq!['-'] + month + seq!['-'] + day;
    assert(date =~= prefix + plain);
    assert(plain.take(10) =~= plain);
    lemma_reads_rest(plain, year, month, day);
    lemma_skips_prefix(plain);
    let later = plain + seq!['.'] + suffix;
    assert(date + seq!['.'] + suffix =~= prefix + later);
    assert(later.take(10) =~= plain);
    lemma_reads_rest(later, year, month, day);
    lemma_skips_prefix(later);
    assert forall|i: int| 11 <= i < later.len() implies is_digit(#[trigger] later[i]) by {
        assert(later[i] == suffix[i - 11]);
    }
    assert(later.skip(11) =~= suffix);
    let bare = plain + seq!['.'];
    assert(date + seq!['.'] =~= prefix + bare);
    lemma_skips_prefix(bare);
    let dashed = plain + seq!['-'] + suffix;
    assert(date + seq!['-'] + suffix =~= prefix + dashed);
    lemma_skips_prefix(dashed);
    assert(dashed[10] == '-');
    let run = year + month + day;
    assert(prefix + year + month + day =~= prefix + run);
    lemma_skips_prefix(run);
    assert(plain[0] == year[0] && is_digit(year[0]));
    if begins_with(plain, prefix) {
        assert(plain.take(8)[0] == plain[0]);
        assert(prefix[0] == 'r');
    }
}

proof fn lemma_skips_prefix(rest: Seq<char>)
    ensures
        begins_with("release/"@ + rest, RELEASE_PREFIX@),
        ("release/"@ + rest).skip(RELEASE_PREFIX@.len() as int) == rest,
{
    let whole = "release/"@ + rest;
    assert(whole.take("release/"@.len() as int) =~= "release/"@);
    assert(whole.skip("release/"@.len() as int) =~= rest);
}

proof fn lemma_reads_rest(rest: Seq<char>, year: Seq<char>, month: Seq<char>, day: Seq<char>)
    requires
        year.len() == 4 && month.len() == 2 && day.len() == 2,
        digits_between(year, 0, 4) && digits_between(month, 0, 2) && digits_between(day, 0, 2),
        rest.len() >= 10,
        rest.take(10) == year + seq!['-'] + month + seq!['-'] + day,
    ensures
        begins_with_date(rest),
        day_of(rest) == digits_value(year + month + day),
{
    let date = year + seq!['-'] + month + seq!['-'] + day;
    assert forall|i: int| 0 <= i < 10 implies rest[i] == date[i] by {
        assert(rest.take(10)[i] == rest[i]);
    }
    assert forall|i: int| 0 <= i < 4 implies is_digit(#[trigger] rest[i]) by {
        assert(rest[i] == year[i]);
    }
    assert forall|i: int| 5 <= i < 7 implies is_digit(#[trigger] rest[i]) by {
        assert(rest[i] == month[i - 5]);
    }
    assert forall|i: int| 8 <= i < 10 implies is_digit(#[trigger] rest[i]) by {
        assert(rest[i] == day[i - 8]);
    }
    assert(rest[4] == '-' && rest[7] == '-');
    assert(rest.subrange(0, 4) =~= year);
    assert(rest.subrange(5, 7) =~= month);
    assert(rest.subrange(8, 10) =~= day);
}

/// A pull request's bookmark is `pull/` and its number: the number is read back, and a name without the
/// prefix has none.
pub proof fn lemma_pull_bookmark(number: u64, name: Seq<char>)
    ensures
        pull_number("pull/"@ + decimal_text(number as nat)) == Some(number),
        pull_number(name) is Some ==> exists|rest: Seq<char>|
            name == #[trigger] ("pull/"@ + rest) && number_of(rest) == Some(pull_number(name)->0 as nat),
{
    let whole = "pull/"@ + decimal_text(number as nat);
    assert(whole.take("pull/"@.len() as int) =~= "pull/"@);
    assert(whole.skip("pull/"@.len() as int) =~= decimal_text(number as nat));
    lemma_number_round_trip(number as nat);
    if pull_number(name) is Some {
        let rest = name.skip("pull/"@.len() as int);
        assert(name =~= "pull/"@ + rest);
    }
}

/// A short id is the first twelve characters of an id, and a shorter id is its own.
pub proof fn lemma_short_text(id: Seq<char>)
    ensures
        id.len() >= 12 ==> short_text(id) == id.take(12),
        id.len() < 12 ==> short_text(id) == id,
{
}

} // verus!
