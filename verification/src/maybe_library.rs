//! Candidates: what may turn out to be a plugin library.
//!
//! A candidate is either the path of a library file, or the descriptor of
//! a package that would build one. A candidate is inert: nothing is
//! opened, built or checked when one is made.
//!
//! Each candidate has a canonical string. Two candidates are the same
//! candidate where their canonical strings are equal, and candidates are
//! ordered as their canonical strings are.

use core::cmp::Ordering;
use vstd::prelude::*;
use vstd::string::StringExecFns;
use crate::order::{compare, order_of, Order};

verus! {

/// A package that would build a plugin library, as build metadata describes it.
#[derive(Clone, Debug)]
pub struct Package {
    /// The plugin's name.
    pub lib_name: String,
    /// The toolchain that the library is to be built for.
    pub toolchain: String,
    /// The directory in which the built library is to be found.
    pub location: String,
}

/// A `Package` as sequences of characters.
pub struct PackageView {
    pub lib_name: Seq<char>,
    pub toolchain: Seq<char>,
    pub location: Seq<char>,
}

impl View for Package {
    type V = PackageView;

    open spec fn view(&self) -> PackageView {
        PackageView { lib_name: self.lib_name@, toolchain: self.toolchain@, location: self.location@ }
    }
}

impl PackageView {
    /// The location, `/`, the plugin's name, `@`, and the toolchain.
    pub open spec fn canonical(self) -> Seq<char> {
        self.location + seq!['/'] + self.lib_name + seq!['@'] + self.toolchain
    }
}

impl Package {
    /// A copy of the package.
    pub fn duplicate(&self) -> (r: Package)
        ensures
            r@ == self@,
    {
        Package {
            lib_name: self.lib_name.clone(),
            toolchain: self.toolchain.clone(),
            location: self.location.clone(),
        }
    }

    /// The canonical string of the package.
    pub fn canonical(&self) -> (r: String)
        ensures
            r@ == self@.canonical(),
    {
        proof {
            reveal_strlit("/");
            reveal_strlit("@");
            assert("/"@ =~= seq!['/']);
            assert("@"@ =~= seq!['@']);
        }
        let mut r = self.location.clone();
        r.append("/");
        r.append(self.lib_name.as_str());
        r.append("@");
        r.append(self.toolchain.as_str());
        r
    }
}

/// A candidate: the path of a library file, or the descriptor of a package.
#[derive(Clone, Debug)]
pub enum MaybeLibrary {
    Path(String),
    Descriptor(Package),
}

/// A `MaybeLibrary` as sequences of characters.
pub enum MaybeLibraryView {
    Path(Seq<char>),
    Descriptor(PackageView),
}

impl View for MaybeLibrary {
    type V = MaybeLibraryView;

    open spec fn view(&self) -> MaybeLibraryView {
        match self {
            MaybeLibrary::Path(path) => MaybeLibraryView::Path(path@),
            MaybeLibrary::Descriptor(package) => MaybeLibraryView::Descriptor(package@),
        }
    }
}

impl MaybeLibraryView {
    /// The path itself, or the canonical string of the package.
    pub open spec fn canonical(self) -> Seq<char> {
        match self {
            MaybeLibraryView::Path(path) => path,
            MaybeLibraryView::Descriptor(package) => package.canonical(),
        }
    }
}

impl MaybeLibrary {
    /// The candidate that is the library file at `path`.
    pub fn from_path(path: String) -> (r: MaybeLibrary)
        ensures
            r@ == MaybeLibraryView::Path(path@),
    {
        MaybeLibrary::Path(path)
    }

    /// The candidate that is the library that `package` would build.
    pub fn from_package(package: Package) -> (r: MaybeLibrary)
        ensures
            r@ == MaybeLibraryView::Descriptor(package@),
    {
        MaybeLibrary::Descriptor(package)
    }

    /// The canonical string of the candidate.
    pub fn canonical(&self) -> (r: String)
        ensures
            r@ == self@.canonical(),
    {
        match self {
            MaybeLibrary::Path(path) => path.clone(),
            MaybeLibrary::Descriptor(package) => package.canonical(),
        }
    }

    /// The path, where the candidate is a library file.
    pub fn path(&self) -> (r: Option<&String>)
        ensures
            match r {
                Some(path) => self@ == MaybeLibraryView::Path(path@),
                None => self@ is Descriptor,
            },
    {
        match self {
            MaybeLibrary::Path(path) => Some(path),
            MaybeLibrary::Descriptor(_) => None,
        }
    }

    /// A copy of the candidate.
    pub fn duplicate(&self) -> (r: MaybeLibrary)
        ensures
            r@ == self@,
    {
        match self {
            MaybeLibrary::Path(path) => MaybeLibrary::Path(path.clone()),
            MaybeLibrary::Descriptor(package) => MaybeLibrary::Descriptor(package.duplicate()),
        }
    }
}

impl PartialEq for MaybeLibrary {
    /// Two candidates are equal where their canonical strings are.
    fn eq(&self, other: &MaybeLibrary) -> (r: bool) {
        self.canonical() == other.canonical()
    }
}

impl Eq for MaybeLibrary {}

impl vstd::std_specs::cmp::PartialEqSpecImpl for MaybeLibrary {
    open spec fn obeys_eq_spec() -> bool {
        true
    }

    open spec fn eq_spec(&self, other: &MaybeLibrary) -> bool {
        self@.canonical() == other@.canonical()
    }
}

impl PartialOrd for MaybeLibrary {
    /// Candidates are ordered as their canonical strings are.
    fn partial_cmp(&self, other: &MaybeLibrary) -> (r: Option<Ordering>) {
        let a = self.canonical();
        let b = other.canonical();
        match compare(a.as_str(), b.as_str()) {
            Order::Less => Some(Ordering::Less),
            Order::Equal => Some(Ordering::Equal),
            Order::Greater => Some(Ordering::Greater),
        }
    }
}

impl vstd::std_specs::cmp::PartialOrdSpecImpl for MaybeLibrary {
    open spec fn obeys_partial_cmp_spec() -> bool {
        true
    }

    open spec fn partial_cmp_spec(&self, other: &MaybeLibrary) -> Option<Ordering> {
        match order_of(self@.canonical(), other@.canonical()) {
            Order::Less => Some(Ordering::Less),
            Order::Equal => Some(Ordering::Equal),
            Order::Greater => Some(Ordering::Greater),
        }
    }
}

} // verus!
