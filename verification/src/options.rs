//! What a resolution is set up with.

use vstd::prelude::*;
use crate::filename::{Naming, NamingView};

verus! {

/// What a resolution is set up with.
#[derive(Clone, Debug)]
pub struct Options {
    /// The naming convention of library files.
    pub naming: Naming,
    /// Whether the package descriptors of the build metadata count as candidates.
    pub metadata: bool,
}

/// `Options` as sequences.
pub struct OptionsView {
    pub naming: NamingView,
    pub metadata: bool,
}

impl View for Options {
    type V = OptionsView;

    open spec fn view(&self) -> OptionsView {
        OptionsView { naming: self.naming@, metadata: self.metadata }
    }
}

} // verus!
