//! A toolchain-scoped plugin resolver.
//!
//! Candidate plugin libraries come from two sources: the entries of the
//! configured search roots, and package descriptors taken from build
//! metadata. Both are grouped by plugin name and by toolchain into one
//! index, which a [`Lazy`] builds once and hands out read-only afterwards.
//!
//! The library does no I/O of its own. What the file system and the
//! environment hold is handed to it as a [`Survey`].

pub mod error;
pub mod filename;
pub mod index;
pub mod lazy;
pub mod maybe_library;
pub mod options;
pub mod order;
pub mod resolve;
pub mod sorted_map;
pub mod survey;
pub mod toolchain_map;

pub use error::{ResolveError, Violation};
pub use filename::{parse_filename, Naming};
pub use index::{CandidateSet, LazyToolchainMap, NameToolchainMap};
pub use lazy::Lazy;
pub use maybe_library::{MaybeLibrary, Package};
pub use resolve::{build, dylint_libraries_in, dylint_library_paths};
pub use options::Options;
pub use survey::{DirEntry, SearchRoot, Survey, DYLINT_LIBRARY_PATH};
pub use toolchain_map::{PathSet, ToolchainMap};
