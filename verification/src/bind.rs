//! What a remote's address says about the repository behind it.

use vstd::prelude::*;
use vstd::string::*;

use crate::pieces::{lemma_next_at, next_at, split_once};
use crate::seqs::view_of;
use crate::text::{
    chars_of, eq_ignore_case, find_text, first_match, lemma_first_match_at, lemma_same_ignoring_case, same,
    same_ignoring_case, slice_text,
};

verus! {

/// A remote's address in two: the host, and the path on it.
#[derive(Debug, PartialEq, Eq)]
pub struct RemotePlace {
    pub host: String,
    pub path: String,
}

/// What a remote's place is.
pub struct PlaceView {
    pub host: Seq<char>,
    pub path: Seq<char>,
}

impl View for RemotePlace {
    type V = PlaceView;

    open spec fn view(&self) -> PlaceView {
        PlaceView { host: self.host@, path: self.path@ }
    }
}

/// The host of an authority: what follows the user's name and the at sign.
pub open spec fn host_of(authority: Seq<char>) -> Seq<char> {
    let k = next_at(authority, '@', 0);
    if k < authority.len() {
        authority.skip(k + 1)
    } else {
        authority
    }
}

fn host(authority: String) -> (name: String)
    ensures
        name@ == host_of(authority@),
{
    match split_once(authority.as_str(), '@') {
        Some((_, rest)) => rest,
        None => authority,
    }
}

/// Where an address points: `scheme://host/path`, or `user@host:path` where no slash stands before
/// the colon.
pub open spec fn place_of(url: Seq<char>) -> Option<PlaceView> {
    match first_match(url, "://"@, 0) {
        Some(k) => {
            let rest = url.skip(k + "://"@.len());
            let slash = next_at(rest, '/', 0);
            if slash < rest.len() {
                Some(PlaceView { host: host_of(rest.take(slash)), path: rest.skip(slash + 1) })
            } else {
                None
            }
        },
        None => {
            let colon = next_at(url, ':', 0);
            if colon < url.len() && next_at(url.take(colon), '/', 0) == colon {
                Some(PlaceView { host: host_of(url.take(colon)), path: url.skip(colon + 1) })
            } else {
                None
            }
        },
    }
}

fn locate(url: &str) -> (place: Option<RemotePlace>)
    ensures
        view_of(place) == place_of(url@),
{
    let mark = "://";
    match find_text(url, mark) {
        Some(at) => {
            let chars = chars_of(url);
            let total = chars.len();
            assert(at + mark@.len() <= total);
            let rest = slice_text(&chars, at + mark.unicode_len(), total);
            assert(rest@ =~= url@.skip(at + mark@.len()));
            match split_once(rest.as_str(), '/') {
                Some((authority, path)) => Some(RemotePlace { host: host(authority), path }),
                None => None,
            }
        },
        None => match split_once(url, ':') {
            Some((authority, path)) => {
                assert(authority@.len() == next_at(url@, ':', 0)) by {
                    lemma_next_at(url@, ':', 0);
                }
                if split_once(authority.as_str(), '/').is_some() {
                    None
                } else {
                    Some(RemotePlace { host: host(authority), path })
                }
            },
            None => None,
        },
    }
}

/// The path without the `.git` a clone address may end in.
pub open spec fn bare_path(path: Seq<char>) -> Seq<char> {
    if path.len() >= ".git"@.len() && path.skip(path.len() - ".git"@.len()) == ".git"@ {
        path.take(path.len() - ".git"@.len())
    } else {
        path
    }
}

/// The path without the `.git` a clone address may end in.
pub fn without_git(path: &str) -> (bare: String)
    ensures
        bare@ == bare_path(path@),
{
    let ending = ".git";
    let count = ending.unicode_len();
    let chars = chars_of(path);
    if chars.len() >= count {
        let tail = slice_text(&chars, chars.len() - count, chars.len());
        assert(tail@ =~= path@.skip(path@.len() - ending@.len()));
        if same(tail.as_str(), ending) {
            let head = slice_text(&chars, 0, chars.len() - count);
            assert(head@ =~= path@.take(path@.len() - ending@.len()));
            return head;
        }
    }
    path.to_owned()
}

/// The repository behind an address, as `owner/repo`.
pub open spec fn slug_of(url: Seq<char>) -> Option<Seq<char>> {
    match place_of(url) {
        Some(place) => if next_at(place.path, '/', 0) < place.path.len() {
            Some(bare_path(place.path))
        } else {
            None
        },
        None => None,
    }
}

/// The repository behind an address, as `owner/repo`.
pub fn remote_slug(url: &str) -> (slug: Option<String>)
    ensures
        view_of(slug) == slug_of(url@),
{
    match locate(url) {
        Some(place) => match split_once(place.path.as_str(), '/') {
            Some(_) => Some(without_git(place.path.as_str())),
            None => None,
        },
        None => None,
    }
}

/// The owner of the repository behind an address.
pub open spec fn owner_in(url: Seq<char>) -> Option<Seq<char>> {
    match place_of(url) {
        Some(place) => if next_at(place.path, '/', 0) < place.path.len() {
            Some(place.path.take(next_at(place.path, '/', 0)))
        } else {
            None
        },
        None => None,
    }
}

/// The owner of the repository behind an address.
pub fn url_owner(url: &str) -> (owner: Option<String>)
    ensures
        view_of(owner) == owner_in(url@),
{
    match locate(url) {
        Some(place) => match split_once(place.path.as_str(), '/') {
            Some((owner, _)) => Some(owner),
            None => None,
        },
        None => None,
    }
}

/// Whether two addresses name one repository: the same text, or the same host and path whatever the
/// form.
pub open spec fn same_place(a: Seq<char>, b: Seq<char>) -> bool {
    a == b || match (place_of(a), place_of(b)) {
        (Some(x), Some(y)) => same_ignoring_case(x.host, y.host) && same_ignoring_case(
            bare_path(x.path),
            bare_path(y.path),
        ),
        _ => false,
    }
}

/// Whether two addresses name one repository.
pub fn same_remote(a: &str, b: &str) -> (r: bool)
    ensures
        r == same_place(a@, b@),
{
    if same(a, b) {
        return true;
    }
    match (locate(a), locate(b)) {
        (Some(x), Some(y)) => {
            eq_ignore_case(x.host.as_str(), y.host.as_str()) && eq_ignore_case(
                without_git(x.path.as_str()).as_str(),
                without_git(y.path.as_str()).as_str(),
            )
        },
        _ => false,
    }
}

/// Where a remote is: behind `://` the host up to a slash and then the path, or, without a scheme, the
/// host up to a colon that no slash comes before. A user before the host is no part of it.
pub proof fn lemma_place_of_remote(scheme: Seq<char>, user: Seq<char>, host: Seq<char>, path: Seq<char>)
    requires
        !scheme.contains(':'),
        !user.contains('@') && !user.contains('/') && !user.contains(':'),
        !host.contains('@') && !host.contains('/') && !host.contains(':'),
        first_match(user + seq!['@'] + host + seq![':'] + path, "://"@, 0) is None,
    ensures
        place_of(scheme + "://"@ + host + seq!['/'] + path) == Some(PlaceView { host, path }),
        place_of(scheme + "://"@ + user + seq!['@'] + host + seq!['/'] + path) == Some(PlaceView { host, path }),
        place_of(user + seq!['@'] + host + seq![':'] + path) == Some(PlaceView { host, path }),
{
    let named = user + seq!['@'] + host;
    lemma_host(host, user);
    assert forall|i: int| 0 <= i < named.len() implies named[i] != '/' && named[i] != ':' by {
        if i < user.len() {
            assert(user.contains(user[i]));
        } else if i > user.len() {
            assert(host.contains(host[i - user.len() - 1]));
        }
    }
    assert forall|i: int| 0 <= i < host.len() implies host[i] != '/' by {
        assert(host.contains(host[i]));
    }
    lemma_place_with_scheme(scheme, host, path);
    lemma_place_with_scheme(scheme, named, path);
    assert(scheme + "://"@ + user + seq!['@'] + host + seq!['/'] + path =~= scheme + "://"@ + named + seq!['/'] + path);
    let url = user + seq!['@'] + host + seq![':'] + path;
    assert(url =~= named + seq![':'] + path);
    lemma_next_at(url, ':', 0);
    let colon = next_at(url, ':', 0);
    assert(url[named.len() as int] == ':');
    if colon < named.len() {
        assert(url[colon] == named[colon]);
    }
    assert(colon == named.len());
    let front = url.take(colon);
    assert(front =~= named);
    lemma_next_at(front, '/', 0);
    assert(url.skip(colon + 1) =~= path);
}

proof fn lemma_host(host: Seq<char>, user: Seq<char>)
    requires
        !host.contains('@'),
        !user.contains('@'),
    ensures
        host_of(host) == host,
        host_of(user + seq!['@'] + host) == host,
{
    lemma_next_at(host, '@', 0);
    let k = next_at(host, '@', 0);
    if k < host.len() {
        assert(host.contains(host[k]));
    }
    let named = user + seq!['@'] + host;
    lemma_next_at(named, '@', 0);
    let m = next_at(named, '@', 0);
    assert(named[user.len() as int] == '@');
    if m < user.len() {
        assert(user.contains(user[m]));
    }
    assert(m == user.len());
    assert(named.skip(m + 1) =~= host);
}

proof fn lemma_place_with_scheme(scheme: Seq<char>, authority: Seq<char>, path: Seq<char>)
    requires
        !scheme.contains(':'),
        forall|i: int| 0 <= i < authority.len() ==> authority[i] != '/',
    ensures
        place_of(scheme + "://"@ + authority + seq!['/'] + path) == Some(
            PlaceView { host: host_of(authority), path },
        ),
{
    reveal_strlit("://");
    let mark = "://"@;
    let url = scheme + mark + authority + seq!['/'] + path;
    let k: int = scheme.len() as int;
    assert(url.subrange(k, k + mark.len()) =~= mark);
    assert forall|i: int| #![trigger url.subrange(i, i + mark.len())] 0 <= i < k implies url.subrange(i, i + mark.len())
        != mark by {
        assert(url.subrange(i, i + mark.len())[0] == scheme[i]);
        assert(scheme.contains(scheme[i]));
        assert(mark[0] == ':');
    }
    lemma_first_match_at(url, mark, 0, k);
    let rest = url.skip(k + mark.len());
    assert(rest =~= authority + seq!['/'] + path);
    lemma_next_at(rest, '/', 0);
    let slash = next_at(rest, '/', 0);
    assert(rest[authority.len() as int] == '/');
    if slash < authority.len() {
        assert(rest[slash] == authority[slash]);
    }
    assert(slash == authority.len());
    assert(rest.take(slash) =~= authority);
    assert(rest.skip(slash + 1) =~= path);
}

/// A path loses a `.git` at its end and nothing else.
pub proof fn lemma_bare_path(path: Seq<char>)
    ensures
        bare_path(path + ".git"@) == path,
        bare_path(path) == path || path == bare_path(path) + ".git"@,
{
    let whole = path + ".git"@;
    assert(whole.skip(whole.len() - ".git"@.len()) =~= ".git"@);
    assert(whole.take(whole.len() - ".git"@.len()) =~= path);
    if path.len() >= ".git"@.len() && path.skip(path.len() - ".git"@.len()) == ".git"@ {
        assert(path =~= bare_path(path) + ".git"@);
    }
}

/// The owner of a remote is what its path holds before the first slash; a path without one names neither
/// an owner nor a repository.
pub proof fn lemma_owner_and_slug(url: Seq<char>, owner: Seq<char>, name: Seq<char>)
    requires
        place_of(url) is Some,
        !owner.contains('/'),
    ensures
        place_of(url)->0.path == owner + seq!['/'] + name ==> owner_in(url) == Some(owner) && slug_of(url) == Some(
            bare_path(owner + seq!['/'] + name),
        ),
        place_of(url)->0.path == owner ==> owner_in(url) is None && slug_of(url) is None,
{
    let path = owner + seq!['/'] + name;
    lemma_next_at(path, '/', 0);
    let k = next_at(path, '/', 0);
    assert(path[owner.len() as int] == '/');
    if k < owner.len() {
        assert(owner.contains(owner[k]));
    }
    assert(k == owner.len());
    assert(path.take(k) =~= owner);
    lemma_next_at(owner, '/', 0);
    if next_at(owner, '/', 0) < owner.len() {
        assert(owner.contains(owner[next_at(owner, '/', 0)]));
    }
}

/// Two remotes are the same place exactly if they are written alike, or both are understood and name one
/// host and one path, whatever their case and whether or not they end in `.git`. Every remote is its own.
pub proof fn lemma_same_place(a: Seq<char>, b: Seq<char>)
    ensures
        same_place(a, a),
        same_place(a, b) == same_place(b, a),
        a != b ==> (same_place(a, b) <==> place_of(a) is Some && place_of(b) is Some && same_ignoring_case(
            place_of(a)->0.host,
            place_of(b)->0.host,
        ) && same_ignoring_case(bare_path(place_of(a)->0.path), bare_path(place_of(b)->0.path))),
{
    if place_of(a) is Some && place_of(b) is Some {
        let x = place_of(a)->0;
        let y = place_of(b)->0;
        lemma_same_ignoring_case(x.host, y.host, x.host);
        lemma_same_ignoring_case(bare_path(x.path), bare_path(y.path), bare_path(x.path));
    }
}

} // verus!
