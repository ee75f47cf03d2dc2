//! The index, built once.
//!
//! A `Lazy` starts without an index. The first call that gets through a
//! resolution stores the index; every later call is handed that same
//! index, whatever survey it brings, and builds nothing. A resolution
//! that fails stores nothing, so that a later call tries again. Callers
//! may share a `Lazy` between threads: the cell lets one of them build
//! and makes the others wait for it.

use vstd::prelude::*;
use once_cell::sync::OnceCell;
use crate::error::{ResolveError, ResolveErrorView};
use crate::index::{index_tidy, IndexView, NameToolchainMap};
use crate::resolve::{build, resolve};
use crate::options::Options;
use crate::survey::Survey;

verus! {

/// `once_cell::sync::OnceCell`: a cell that is written at most once,
/// through a shared reference. What it holds is hidden from the proofs.
#[verifier::external_type_specification]
#[verifier::external_body]
#[verifier::reject_recursive_types(T)]
pub struct ExOnceCell<T>(OnceCell<T>);

/// `once_cell::sync::OnceCell::new`: a cell. Nothing is claimed of what it holds.
#[verifier::external_body]
fn cell_new() -> OnceCell<NameToolchainMap> {
    OnceCell::new()
}

/// `once_cell::sync::OnceCell::get`: what the cell holds at the time of
/// the call, if anything. Another thread may fill the cell at any time, so
/// nothing is claimed of the answer.
#[verifier::external_body]
fn cell_get<'a>(cell: &'a OnceCell<NameToolchainMap>) -> Option<&'a NameToolchainMap> {
    cell.get()
}

/// `once_cell::sync::OnceCell::get_or_try_init`, with `build` on `opts`
/// and `survey` as the initializer. The cell hands out what it holds, or
/// else runs the initializer and stores and hands out what that gave. So
/// it fails only with a failure that `build` returned on these arguments,
/// and it does not fail where `build` cannot. Nothing is claimed of the
/// index that is handed out: it may come from an earlier call.
#[verifier::external_body]
fn cell_get_or_try_init<'a>(
    cell: &'a OnceCell<NameToolchainMap>,
    opts: &Options,
    survey: &Survey,
) -> (r: Result<&'a NameToolchainMap, ResolveError>)
    ensures
        r matches Err(e) ==> call_ensures(
            build,
            (opts, survey),
            Err::<NameToolchainMap, ResolveError>(e),
        ),
        (forall|built: Result<NameToolchainMap, ResolveError>|
            call_ensures(build, (opts, survey), built) ==> built is Ok) ==> r is Ok,
{
    cell.get_or_try_init(|| build(opts, survey))
}

struct Inner<'opts> {
    opts: &'opts Options,
    name_toolchain_map: OnceCell<NameToolchainMap>,
}

/// An index that is built on the first call that asks for it, and kept.
pub struct Lazy<'opts> {
    inner: Inner<'opts>,
}

impl<'opts> Lazy<'opts> {
    /// What the index is built with.
    pub closed spec fn opts(&self) -> Options {
        *self.inner.opts
    }

    /// A `Lazy` that holds no index yet.
    #[must_use]
    pub fn new(opts: &'opts Options) -> (r: Lazy<'opts>)
        ensures
            r.opts() == *opts,
    {
        Lazy { inner: Inner { opts, name_toolchain_map: cell_new() } }
    }

    /// The index, if one has been built; builds nothing.
    pub fn get(&self) -> (r: Option<&NameToolchainMap>)
        ensures
            r matches Some(map) ==> map.wf() && index_tidy(map@),
    {
        let r = cell_get(&self.inner.name_toolchain_map);
        proof {
            if let Some(map) = r {
                use_type_invariant(map);
                map.lemma_listing();
            }
        }
        r
    }

    /// Gets the index, or builds it from `survey` where none has been
    /// built. Fails exactly as the resolution of `survey` fails, and only
    /// where none has been built; does not fail where that resolution
    /// does not.
    pub fn get_or_try_init(&self, survey: &Survey) -> (r: Result<&NameToolchainMap, ResolveError>)
        ensures
            match r {
                Ok(map) => map.wf() && index_tidy(map@),
                Err(e) => resolve(self.opts()@, survey@) == Err::<IndexView, ResolveErrorView>(e@),
            },
            resolve(self.opts()@, survey@) is Ok ==> r is Ok,
    {
        let r = cell_get_or_try_init(&self.inner.name_toolchain_map, self.inner.opts, survey);
        proof {
            if let Ok(map) = r {
                use_type_invariant(map);
                map.lemma_listing();
            }
        }
        r
    }
}

} // verus!
