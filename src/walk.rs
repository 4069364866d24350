//! The parts of `walkdir` that the finder relies on.

use std::path::Path;
use vstd::prelude::*;
use walkdir::{DirEntry, IntoIter, WalkDir};

verus! {

/// A directory walk that has not started yet.
#[verifier::external_type_specification]
#[verifier::external_body]
pub struct ExWalkDir(WalkDir);

/// A directory walk under way.
#[verifier::external_type_specification]
#[verifier::external_body]
pub struct ExIntoIter(IntoIter);

/// One entry that a walk visited.
#[verifier::external_type_specification]
#[verifier::external_body]
pub struct ExDirEntry(DirEntry);

/// A failure that a walk met while reading the filesystem.
#[verifier::external_type_specification]
#[verifier::external_body]
pub struct ExError(walkdir::Error);

/// Relies on `walkdir::WalkDir::new`: a walk rooted at `root` with walkdir's
/// default options. It reads nothing from disk.
#[verifier::external_body]
pub(crate) fn walk_from<P: AsRef<Path>>(root: P) -> WalkDir {
    WalkDir::new(root)
}

/// Relies on `<walkdir::WalkDir as IntoIterator>::into_iter`: starts the
/// walk. It reads nothing from disk.
#[verifier::external_body]
pub(crate) fn start_walk(w: WalkDir) -> IntoIter {
    w.into_iter()
}

/// Relies on `<walkdir::IntoIter as Iterator>::next`: the next result of the
/// depth-first walk, the root first; `None` once the walk is over. What comes
/// back depends on the filesystem, so nothing is promised of it.
#[verifier::external_body]
pub(crate) fn next_visit(it: &mut IntoIter) -> Option<Result<DirEntry, walkdir::Error>> {
    it.next()
}

/// The final component of an entry's path, as text after lossy conversion;
/// `None` where the path has no final component.
pub uninterp spec fn base_of(e: DirEntry) -> Option<Seq<char>>;

/// Relies on `walkdir::DirEntry::path`, with std's `Path::file_name` and
/// `OsStr::to_string_lossy` to convert: the final component of the entry's
/// path as text, or `None` where the path has no final component. A path
/// component never holds the separator `/`.
#[verifier::external_body]
pub(crate) fn base_name(e: &DirEntry) -> (r: Option<String>)
    ensures
        match r {
            Some(s) => base_of(*e) == Some(s@) && !s@.contains('/'),
            None => base_of(*e) is None,
        },
{
    match e.path().file_name() {
        Some(n) => Some(n.to_string_lossy().into_owned()),
        None => None,
    }
}

} // verus!
