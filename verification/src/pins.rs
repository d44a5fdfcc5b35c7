//! Where a consumer pins a release.

use vstd::prelude::*;
use vstd::string::*;

use crate::seqs::views;
use crate::text::same;

verus! {

/// The files a consumer pins dependencies in.
pub open spec fn pin_file_names() -> Seq<Seq<char>> {
    seq!["uv.lock"@, "pyproject.toml"@]
}

/// The files a consumer pins dependencies in.
pub fn pin_files() -> (files: [&'static str; 2])
    ensures
        views(files@) == pin_file_names(),
{
    let files: [&'static str; 2] = ["uv.lock", "pyproject.toml"];
    assert(views(files@) =~= pin_file_names());
    files
}

/// Whether consumers pin dependencies in a file of that name.
pub fn is_pin_file(name: &str) -> (r: bool)
    ensures
        r == pin_file_names().contains(name@),
{
    let files = pin_files();
    if same(name, files[0]) {
        assert(pin_file_names()[0] == name@);
        return true;
    }
    if same(name, files[1]) {
        assert(pin_file_names()[1] == name@);
        return true;
    }
    assert(views(files@)[0] == files@[0]@ && views(files@)[1] == files@[1]@);
    false
}

/// Whether a pin moves with its branch.
#[derive(Debug, Clone, Copy, PartialEq, Eq, Structural)]
pub enum PinKind {
    /// The pin follows the branch.
    Follows,
    /// The pin stays at what it names.
    Frozen,
}

/// One pin of a release in a consumer's file.
#[derive(Debug, PartialEq, Eq)]
pub struct Pin {
    pub file: String,
    pub line: usize,
    pub reference: String,
    pub kind: PinKind,
    /// The commit the lock file holds, where it holds one.
    pub locked: Option<String>,
    /// Whether the reference is a release of the repository's own scheme.
    pub on_scheme: bool,
    pub source: String,
}

impl Clone for Pin {
    fn clone(&self) -> (copy: Self)
        ensures
            copy == *self,
    {
        Pin {
            file: self.file.clone(),
            line: self.line,
            reference: self.reference.clone(),
            kind: self.kind,
            locked: self.locked.clone(),
            on_scheme: self.on_scheme,
            source: self.source.clone(),
        }
    }
}

} // verus!
