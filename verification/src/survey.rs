//! What the file system and the build metadata hold, as plain values.
//!
//! The library reads no directory and no variable of the environment. Its
//! caller does, and hands over what it found: for each configured search
//! root whether its path is absolute, whether it is an existing directory
//! and what listing it gave, and the package descriptors that the build
//! metadata gave.

use vstd::prelude::*;
use crate::maybe_library::{Package, PackageView};

verus! {

/// The variable of the environment that lists the search roots, as a
/// list of paths in the form of the platform.
pub const DYLINT_LIBRARY_PATH: &'static str = "DYLINT_LIBRARY_PATH";

/// One entry of a directory listing.
#[derive(Clone, Debug)]
pub struct DirEntry {
    /// The path of the entry: the directory's path with the file name added.
    pub path: String,
    /// The file name of the entry.
    pub file_name: String,
}

/// A `DirEntry` as sequences of characters.
pub struct DirEntryView {
    pub path: Seq<char>,
    pub file_name: Seq<char>,
}

impl View for DirEntry {
    type V = DirEntryView;

    open spec fn view(&self) -> DirEntryView {
        DirEntryView { path: self.path@, file_name: self.file_name@ }
    }
}

/// One configured search root, as it was found.
#[derive(Debug)]
pub struct SearchRoot {
    /// The path as the configuration gives it.
    pub path: String,
    /// Whether the path is absolute, as the platform judges it.
    pub is_absolute: bool,
    /// Whether the path is that of an existing directory.
    pub is_dir: bool,
    /// The listing of the directory, each entry read or failed with its
    /// cause; or the cause for which the listing could not be read at all.
    /// It is looked at only where the root is valid.
    pub entries: Result<Vec<Result<DirEntry, String>>, String>,
}

/// A `SearchRoot` as sequences.
pub struct SearchRootView {
    pub path: Seq<char>,
    pub is_absolute: bool,
    pub is_dir: bool,
    pub entries: Result<Seq<Result<DirEntryView, Seq<char>>>, Seq<char>>,
}

/// One entry of a listing as sequences.
pub open spec fn entry_view(entry: Result<DirEntry, String>) -> Result<DirEntryView, Seq<char>> {
    match entry {
        Ok(e) => Ok(e@),
        Err(cause) => Err(cause@),
    }
}

/// A listing as a sequence.
pub open spec fn entries_view(entries: Seq<Result<DirEntry, String>>) -> Seq<
    Result<DirEntryView, Seq<char>>,
> {
    Seq::new(entries.len(), |i: int| entry_view(entries[i]))
}

/// `std::path::Path::is_absolute`: whether `path` is absolute, that is,
/// names the same place whatever the current directory is. Each platform
/// has its own rule for that, so nothing is claimed of the answer.
#[verifier::external_body]
fn is_absolute(path: &str) -> bool {
    std::path::Path::new(path).is_absolute()
}

impl SearchRoot {
    /// The search root at `path`, with what the file system showed of it.
    /// Whether the path is absolute is judged here, by the rule of the
    /// platform.
    pub fn new(
        path: String,
        is_dir: bool,
        entries: Result<Vec<Result<DirEntry, String>>, String>,
    ) -> (r: SearchRoot)
        ensures
            r.path == path,
            r.is_dir == is_dir,
            r.entries == entries,
    {
        let is_absolute = is_absolute(path.as_str());
        SearchRoot { path, is_absolute, is_dir, entries }
    }
}

/// What reading a directory gave, as sequences.
pub open spec fn listing_view(listing: Result<Vec<Result<DirEntry, String>>, String>) -> Result<
    Seq<Result<DirEntryView, Seq<char>>>,
    Seq<char>,
> {
    match listing {
        Ok(entries) => Ok(entries_view(entries@)),
        Err(cause) => Err(cause@),
    }
}

impl View for SearchRoot {
    type V = SearchRootView;

    open spec fn view(&self) -> SearchRootView {
        SearchRootView {
            path: self.path@,
            is_absolute: self.is_absolute,
            is_dir: self.is_dir,
            entries: listing_view(self.entries),
        }
    }
}

/// All that a resolution looks at.
#[derive(Debug)]
pub struct Survey {
    /// The configured search roots, in the order of the configuration;
    /// none where nothing is configured.
    pub roots: Vec<SearchRoot>,
    /// The package descriptors that the build metadata gave.
    pub packages: Vec<Package>,
}

/// A `Survey` as sequences.
pub struct SurveyView {
    pub roots: Seq<SearchRootView>,
    pub packages: Seq<PackageView>,
}

/// Search roots as a sequence of views.
pub open spec fn roots_view(roots: Seq<SearchRoot>) -> Seq<SearchRootView> {
    Seq::new(roots.len(), |i: int| roots[i]@)
}

/// Packages as a sequence of views.
pub open spec fn packages_view(packages: Seq<Package>) -> Seq<PackageView> {
    Seq::new(packages.len(), |i: int| packages[i]@)
}

impl View for Survey {
    type V = SurveyView;

    open spec fn view(&self) -> SurveyView {
        SurveyView { roots: roots_view(self.roots@), packages: packages_view(self.packages@) }
    }
}

} // verus!
