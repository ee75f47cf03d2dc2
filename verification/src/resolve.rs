//! From a survey to the index.
//!
//! A resolution first checks every configured search root, in the order of
//! the configuration, and fails on the first that is not valid. It then
//! goes through the listings of the roots, in the same order, and fails on
//! the first that could not be read. Of each listing it takes the entries
//! whose file names follow the naming convention; the others are passed
//! over, and so is an entry that could not be read. Last, where the
//! metadata counts, it adds the package descriptors. Nothing that was
//! found is ever taken out again.

use vstd::prelude::*;
use crate::error::{ResolveError, ResolveErrorView, Violation};
use crate::filename::{parse_file_name, parse_filename, Naming, NamingView};
use crate::index::{
    index_holds, index_insert, index_tidy, lemma_index_extensional, lemma_index_insert_holds,
    lemma_index_insert_tidy, IndexView, NameToolchainMap,
};
use crate::maybe_library::{MaybeLibrary, MaybeLibraryView, PackageView};
use crate::options::{Options, OptionsView};
use crate::survey::{
    entries_view, listing_view, roots_view, DirEntry, DirEntryView, SearchRoot, SearchRootView,
    Survey, SurveyView,
};

verus! {

broadcast use vstd::std_specs::vec::group_vec_axioms;

/// A candidate with the name and the toolchain under which it goes into the index.
pub struct Found {
    pub name: Seq<char>,
    pub toolchain: Seq<char>,
    pub library: MaybeLibraryView,
}

/// What is wrong with a search root, if anything: that its path is not
/// absolute comes before that it is no directory.
pub open spec fn root_fault(root: SearchRootView) -> Option<ResolveErrorView> {
    if !root.is_absolute {
        Some(ResolveErrorView::ConfigError { path: root.path, violation: Violation::NotAbsolute })
    } else if !root.is_dir {
        Some(ResolveErrorView::ConfigError { path: root.path, violation: Violation::NotADirectory })
    } else {
        None
    }
}

/// Why the listing of a search root fails, if it does.
pub open spec fn listing_fault(root: SearchRootView) -> Option<ResolveErrorView> {
    match root.entries {
        Ok(_) => None,
        Err(cause) => Some(ResolveErrorView::IoError { path: root.path, cause }),
    }
}

/// `fault` is what `check` finds in the first of `roots` in which it finds anything.
pub open spec fn is_first_fault(
    roots: Seq<SearchRootView>,
    check: spec_fn(SearchRootView) -> Option<ResolveErrorView>,
    fault: ResolveErrorView,
) -> bool {
    exists|i: int|
        0 <= i < roots.len() && #[trigger] check(roots[i]) == Some(fault) && forall|j: int|
            0 <= j < i ==> #[trigger] check(roots[j]) is None
}

/// `check` finds nothing in any of `roots`.
pub open spec fn no_fault(
    roots: Seq<SearchRootView>,
    check: spec_fn(SearchRootView) -> Option<ResolveErrorView>,
) -> bool {
    forall|i: int| 0 <= i < roots.len() ==> #[trigger] check(roots[i]) is None
}

/// What `check` finds in the first of `roots` in which it finds anything.
pub open spec fn first_fault(
    roots: Seq<SearchRootView>,
    check: spec_fn(SearchRootView) -> Option<ResolveErrorView>,
) -> Option<ResolveErrorView> {
    if no_fault(roots, check) {
        None
    } else {
        Some(choose|fault: ResolveErrorView| is_first_fault(roots, check, fault))
    }
}

/// Where `check` finds something at `i` and nothing before, that is the first fault.
pub proof fn lemma_first_fault(
    roots: Seq<SearchRootView>,
    check: spec_fn(SearchRootView) -> Option<ResolveErrorView>,
    i: int,
)
    requires
        0 <= i < roots.len(),
        check(roots[i]) is Some,
        forall|j: int| 0 <= j < i ==> #[trigger] check(roots[j]) is None,
    ensures
        first_fault(roots, check) == check(roots[i]),
{
    let fault = check(roots[i])->0;
    assert(is_first_fault(roots, check, fault));
    let chosen = choose|fault: ResolveErrorView| is_first_fault(roots, check, fault);
    let k = choose|k: int|
        0 <= k < roots.len() && #[trigger] check(roots[k]) == Some(chosen) && forall|j: int|
            0 <= j < k ==> #[trigger] check(roots[j]) is None;
    if k < i {
        assert(check(roots[k]) is None);
    } else if i < k {
        assert(check(roots[i]) is None);
    }
}

/// The paths of the search roots.
pub open spec fn paths_of(roots: Seq<SearchRootView>) -> Seq<Seq<char>> {
    Seq::new(roots.len(), |i: int| roots[i].path)
}

/// The validated search roots: the paths of all of them in the order of
/// the configuration, or the fault of the first that is not valid.
pub open spec fn library_paths(roots: Seq<SearchRootView>) -> Result<
    Seq<Seq<char>>,
    ResolveErrorView,
> {
    match first_fault(roots, |root: SearchRootView| root_fault(root)) {
        Some(fault) => Err(fault),
        None => Ok(paths_of(roots)),
    }
}

/// What one entry of a listing gives: a candidate, where the entry was
/// read and its file name follows the convention.
pub open spec fn found_in_entry(entry: Result<DirEntryView, Seq<char>>, naming: NamingView) -> Option<
    Found,
> {
    match entry {
        Ok(e) => match parse_file_name(e.file_name, naming) {
            Some((name, toolchain)) => Some(
                Found { name, toolchain, library: MaybeLibraryView::Path(e.path) },
            ),
            None => None,
        },
        Err(_) => None,
    }
}

/// What the entries of a listing give, in the order of the listing.
pub open spec fn found_among(entries: Seq<Result<DirEntryView, Seq<char>>>, naming: NamingView) -> Seq<
    Found,
>
    decreases entries.len(),
{
    if entries.len() == 0 {
        Seq::empty()
    } else {
        let before = found_among(entries.drop_last(), naming);
        match found_in_entry(entries.last(), naming) {
            Some(found) => before.push(found),
            None => before,
        }
    }
}

/// The candidates of the directory at `path`, or why its listing fails.
pub open spec fn libraries_in(
    path: Seq<char>,
    listing: Result<Seq<Result<DirEntryView, Seq<char>>>, Seq<char>>,
    naming: NamingView,
) -> Result<Seq<Found>, ResolveErrorView> {
    match listing {
        Ok(entries) => Ok(found_among(entries, naming)),
        Err(cause) => Err(ResolveErrorView::IoError { path, cause }),
    }
}

/// What the listings of `roots` give, one root after the other. All of them can be read.
pub open spec fn found_in_roots(roots: Seq<SearchRootView>, naming: NamingView) -> Seq<Found>
    decreases roots.len(),
{
    if roots.len() == 0 {
        Seq::empty()
    } else {
        found_in_roots(roots.drop_last(), naming) + match roots.last().entries {
            Ok(entries) => found_among(entries, naming),
            Err(_) => Seq::empty(),
        }
    }
}

/// The package descriptors as candidates, each under its own name and toolchain.
pub open spec fn found_in_packages(packages: Seq<PackageView>) -> Seq<Found> {
    Seq::new(
        packages.len(),
        |i: int|
            Found {
                name: packages[i].lib_name,
                toolchain: packages[i].toolchain,
                library: MaybeLibraryView::Descriptor(packages[i]),
            },
    )
}

/// All candidates of a survey: those of the search roots first, the
/// package descriptors after them where the metadata counts.
pub open spec fn found_in(opts: OptionsView, survey: SurveyView) -> Seq<Found> {
    found_in_roots(survey.roots, opts.naming) + if opts.metadata {
        found_in_packages(survey.packages)
    } else {
        Seq::empty()
    }
}

/// The index that holds `found`, put in one after the other.
pub open spec fn index_of(found: Seq<Found>) -> IndexView
    decreases found.len(),
{
    if found.len() == 0 {
        IndexView::empty()
    } else {
        let last = found.last();
        index_insert(index_of(found.drop_last()), last.name, last.toolchain, last.library)
    }
}

/// What a resolution gives: the fault of the first search root that is
/// not valid; else the fault of the first listing that could not be read;
/// else the index of all candidates.
pub open spec fn resolve(opts: OptionsView, survey: SurveyView) -> Result<IndexView, ResolveErrorView> {
    match first_fault(survey.roots, |root: SearchRootView| root_fault(root)) {
        Some(fault) => Err(fault),
        None => match first_fault(survey.roots, |root: SearchRootView| listing_fault(root)) {
            Some(fault) => Err(fault),
            None => Ok(index_of(found_in(opts, survey))),
        },
    }
}

/// `found` goes into the index under `name` and `toolchain`, at the canonical string `canonical`.
pub open spec fn goes_under(
    found: Found,
    name: Seq<char>,
    toolchain: Seq<char>,
    canonical: Seq<char>,
) -> bool {
    found.name == name && found.toolchain == toolchain && found.library.canonical() == canonical
}

/// `i` is the first place in `found` of a candidate that goes under `name`, `toolchain` and `canonical`.
pub open spec fn first_under(
    found: Seq<Found>,
    i: int,
    name: Seq<char>,
    toolchain: Seq<char>,
    canonical: Seq<char>,
) -> bool {
    &&& 0 <= i < found.len()
    &&& goes_under(found[i], name, toolchain, canonical)
    &&& forall|j: int| 0 <= j < i ==> !goes_under(#[trigger] found[j], name, toolchain, canonical)
}

/// Candidates that go to the same place of the index are the same candidate.
pub open spec fn coherent(found: Seq<Found>) -> bool {
    forall|i: int, j: int|
        0 <= i < found.len() && 0 <= j < found.len() && goes_under(
            #[trigger] found[i],
            found[j].name,
            found[j].toolchain,
            (#[trigger] found[j]).library.canonical(),
        ) ==> found[i].library == found[j].library
}

/// The index of any candidates is tidy: it has no name without a
/// toolchain and no toolchain without a candidate.
pub proof fn lemma_index_of_tidy(found: Seq<Found>)
    ensures
        index_tidy(index_of(found)),
    decreases found.len(),
{
    if found.len() > 0 {
        let last = found.last();
        lemma_index_of_tidy(found.drop_last());
        lemma_index_insert_tidy(index_of(found.drop_last()), last.name, last.toolchain, last.library);
    }
}

/// The index holds a candidate at a place exactly where one of `found` goes there.
pub proof fn lemma_index_of_holds(
    found: Seq<Found>,
    name: Seq<char>,
    toolchain: Seq<char>,
    canonical: Seq<char>,
)
    ensures
        index_holds(index_of(found), name, toolchain, canonical) <==> exists|i: int|
            0 <= i < found.len() && goes_under(#[trigger] found[i], name, toolchain, canonical),
    decreases found.len(),
{
    if found.len() > 0 {
        let before = found.drop_last();
        let last = found.last();
        lemma_index_of_holds(before, name, toolchain, canonical);
        lemma_index_insert_holds(
            index_of(before),
            last.name,
            last.toolchain,
            last.library,
            name,
            toolchain,
            canonical,
        );
        if index_holds(index_of(found), name, toolchain, canonical) {
            if index_holds(index_of(before), name, toolchain, canonical) {
                let i = choose|i: int|
                    0 <= i < before.len() && goes_under(
                        #[trigger] before[i],
                        name,
                        toolchain,
                        canonical,
                    );
                assert(goes_under(found[i], name, toolchain, canonical));
            } else {
                assert(goes_under(found[found.len() - 1], name, toolchain, canonical));
            }
        }
        if exists|i: int|
            0 <= i < found.len() && goes_under(#[trigger] found[i], name, toolchain, canonical) {
            let i = choose|i: int|
                0 <= i < found.len() && goes_under(#[trigger] found[i], name, toolchain, canonical);
            if i < before.len() {
                assert(goes_under(before[i], name, toolchain, canonical));
            }
        }
    }
}

/// At each place the index holds the first of `found` that goes there.
pub proof fn lemma_index_of_first(
    found: Seq<Found>,
    i: int,
    name: Seq<char>,
    toolchain: Seq<char>,
    canonical: Seq<char>,
)
    requires
        first_under(found, i, name, toolchain, canonical),
    ensures
        index_holds(index_of(found), name, toolchain, canonical),
        index_of(found)[name][toolchain][canonical] == found[i].library,
    decreases found.len(),
{
    let before = found.drop_last();
    let last = found.last();
    lemma_index_of_holds(found, name, toolchain, canonical);
    lemma_index_of_holds(before, name, toolchain, canonical);
    lemma_index_insert_holds(
        index_of(before),
        last.name,
        last.toolchain,
        last.library,
        name,
        toolchain,
        canonical,
    );
    if i < before.len() {
        assert(first_under(before, i, name, toolchain, canonical)) by {
            assert(before[i] == found[i]);
            assert forall|j: int| 0 <= j < i implies !goes_under(
                #[trigger] before[j],
                name,
                toolchain,
                canonical,
            ) by {
                assert(before[j] == found[j]);
            }
        }
        lemma_index_of_first(before, i, name, toolchain, canonical);
    } else {
        if index_holds(index_of(before), name, toolchain, canonical) {
            let j = choose|j: int|
                0 <= j < before.len() && goes_under(#[trigger] before[j], name, toolchain, canonical);
            assert(before[j] == found[j]);
        }
    }
}

/// Among candidates that go to one place there is a first.
pub proof fn lemma_first_under(
    found: Seq<Found>,
    i: int,
    name: Seq<char>,
    toolchain: Seq<char>,
    canonical: Seq<char>,
)
    requires
        0 <= i < found.len(),
        goes_under(found[i], name, toolchain, canonical),
    ensures
        exists|k: int| 0 <= k <= i && first_under(found, k, name, toolchain, canonical),
    decreases i,
{
    if exists|j: int| 0 <= j < i && goes_under(#[trigger] found[j], name, toolchain, canonical) {
        let j = choose|j: int|
            0 <= j < i && goes_under(#[trigger] found[j], name, toolchain, canonical);
        lemma_first_under(found, j, name, toolchain, canonical);
        let k = choose|k: int| 0 <= k <= j && first_under(found, k, name, toolchain, canonical);
        assert(0 <= k <= i && first_under(found, k, name, toolchain, canonical));
    } else {
        assert(first_under(found, i, name, toolchain, canonical));
    }
}

/// The order in which candidates are found does not matter: two
/// sequences of the same candidates give the same index, where no two
/// different candidates go to one place.
pub proof fn lemma_index_of_any_order(a: Seq<Found>, b: Seq<Found>)
    requires
        forall|f: Found| a.contains(f) <==> b.contains(f),
        coherent(a),
    ensures
        index_of(a) == index_of(b),
{
    lemma_index_of_tidy(a);
    lemma_index_of_tidy(b);
    assert forall|n: Seq<char>, t: Seq<char>, k: Seq<char>|
        (index_holds(index_of(a), n, t, k) <==> index_holds(index_of(b), n, t, k)) && (index_holds(
            index_of(a),
            n,
            t,
            k,
        ) ==> index_of(a)[n][t][k] == index_of(b)[n][t][k]) by {
        lemma_index_of_holds(a, n, t, k);
        lemma_index_of_holds(b, n, t, k);
        if index_holds(index_of(a), n, t, k) {
            let i = choose|i: int| 0 <= i < a.len() && goes_under(#[trigger] a[i], n, t, k);
            assert(a.contains(a[i]));
            assert(b.contains(a[i]));
            let j = choose|j: int| 0 <= j < b.len() && b[j] == a[i];
            assert(goes_under(b[j], n, t, k));
            lemma_first_under(a, i, n, t, k);
            lemma_first_under(b, j, n, t, k);
            let fa = choose|x: int| 0 <= x <= i && first_under(a, x, n, t, k);
            let fb = choose|x: int| 0 <= x <= j && first_under(b, x, n, t, k);
            lemma_index_of_first(a, fa, n, t, k);
            lemma_index_of_first(b, fb, n, t, k);
            assert(b.contains(b[fb]));
            assert(a.contains(b[fb]));
            let back = choose|x: int| 0 <= x < a.len() && a[x] == b[fb];
            assert(goes_under(a[fa], a[back].name, a[back].toolchain, a[back].library.canonical()));
            assert(a[fa].library == a[back].library);
        }
        if index_holds(index_of(b), n, t, k) {
            let j = choose|j: int| 0 <= j < b.len() && goes_under(#[trigger] b[j], n, t, k);
            assert(b.contains(b[j]));
            assert(a.contains(b[j]));
            let i = choose|i: int| 0 <= i < a.len() && a[i] == b[j];
            assert(goes_under(a[i], n, t, k));
        }
    }
    lemma_index_extensional(index_of(a), index_of(b));
}

/// Candidates that are found later take nothing away: what the index of
/// `a` holds, the index of `a` followed by `b` holds at the same place.
pub proof fn lemma_index_of_grows(
    a: Seq<Found>,
    b: Seq<Found>,
    name: Seq<char>,
    toolchain: Seq<char>,
    canonical: Seq<char>,
)
    requires
        index_holds(index_of(a), name, toolchain, canonical),
    ensures
        index_holds(index_of(a + b), name, toolchain, canonical),
        index_of(a + b)[name][toolchain][canonical] == index_of(a)[name][toolchain][canonical],
{
    lemma_index_of_holds(a, name, toolchain, canonical);
    let i = choose|i: int| 0 <= i < a.len() && goes_under(#[trigger] a[i], name, toolchain, canonical);
    lemma_first_under(a, i, name, toolchain, canonical);
    let k = choose|k: int| 0 <= k <= i && first_under(a, k, name, toolchain, canonical);
    lemma_index_of_first(a, k, name, toolchain, canonical);
    assert(first_under(a + b, k, name, toolchain, canonical)) by {
        assert((a + b)[k] == a[k]);
        assert forall|j: int| 0 <= j < k implies !goes_under(
            #[trigger] (a + b)[j],
            name,
            toolchain,
            canonical,
        ) by {
            assert((a + b)[j] == a[j]);
        }
    }
    lemma_index_of_first(a + b, k, name, toolchain, canonical);
}

/// A listing gives a candidate exactly where one of its entries gives it:
/// an entry that could not be read, or whose file name does not follow
/// the convention, gives none.
pub proof fn lemma_found_among(
    entries: Seq<Result<DirEntryView, Seq<char>>>,
    naming: NamingView,
    found: Found,
)
    ensures
        found_among(entries, naming).contains(found) <==> exists|i: int|
            0 <= i < entries.len() && found_in_entry(#[trigger] entries[i], naming) == Some(found),
        found_among(entries, naming).len() <= entries.len(),
    decreases entries.len(),
{
    if entries.len() > 0 {
        let before = entries.drop_last();
        let rest = found_among(before, naming);
        lemma_found_among(before, naming, found);
        if found_among(entries, naming).contains(found) {
            if rest.contains(found) {
                let i = choose|i: int|
                    0 <= i < before.len() && found_in_entry(#[trigger] before[i], naming) == Some(
                        found,
                    );
                assert(entries[i] == before[i]);
            } else {
                let j = choose|j: int|
                    0 <= j < found_among(entries, naming).len() && found_among(entries, naming)[j]
                        == found;
                if j < rest.len() {
                    assert(rest[j] == found);
                }
                assert(found_in_entry(entries[entries.len() - 1], naming) == Some(found));
            }
        }
        if exists|i: int|
            0 <= i < entries.len() && found_in_entry(#[trigger] entries[i], naming) == Some(found) {
            let i = choose|i: int|
                0 <= i < entries.len() && found_in_entry(#[trigger] entries[i], naming) == Some(
                    found,
                );
            if i < before.len() {
                assert(before[i] == entries[i]);
                let j = choose|j: int| 0 <= j < rest.len() && rest[j] == found;
                assert(found_among(entries, naming)[j] == found);
            } else {
                assert(found_among(entries, naming)[rest.len() as int] == found);
            }
        }
    }
}

/// The roots give a candidate exactly where the listing of one of them gives it.
pub proof fn lemma_found_in_roots(roots: Seq<SearchRootView>, naming: NamingView, found: Found)
    ensures
        found_in_roots(roots, naming).contains(found) <==> exists|r: int|
            0 <= r < roots.len() && (#[trigger] roots[r]).entries is Ok && found_among(
                roots[r].entries->Ok_0,
                naming,
            ).contains(found),
    decreases roots.len(),
{
    if roots.len() > 0 {
        let before = roots.drop_last();
        let rest = found_in_roots(before, naming);
        let here = match roots.last().entries {
            Ok(entries) => found_among(entries, naming),
            Err(_) => Seq::empty(),
        };
        lemma_found_in_roots(before, naming, found);
        if (rest + here).contains(found) {
            let j = choose|j: int| 0 <= j < (rest + here).len() && (rest + here)[j] == found;
            if j < rest.len() {
                assert(rest[j] == found);
                assert(rest.contains(found));
                let r = choose|r: int|
                    0 <= r < before.len() && (#[trigger] before[r]).entries is Ok && found_among(
                        before[r].entries->Ok_0,
                        naming,
                    ).contains(found);
                assert(roots[r] == before[r]);
            } else {
                assert(here[j - rest.len()] == found);
                assert(here.contains(found));
                assert(roots[roots.len() - 1].entries is Ok);
            }
        }
        if exists|r: int|
            0 <= r < roots.len() && (#[trigger] roots[r]).entries is Ok && found_among(
                roots[r].entries->Ok_0,
                naming,
            ).contains(found) {
            let r = choose|r: int|
                0 <= r < roots.len() && (#[trigger] roots[r]).entries is Ok && found_among(
                    roots[r].entries->Ok_0,
                    naming,
                ).contains(found);
            if r < before.len() {
                assert(before[r] == roots[r]);
                let j = choose|j: int| 0 <= j < rest.len() && rest[j] == found;
                assert((rest + here)[j] == found);
            } else {
                let j = choose|j: int| 0 <= j < here.len() && here[j] == found;
                assert((rest + here)[rest.len() + j] == found);
            }
        }
    }
}

/// Every candidate that the roots give is the library file at its own canonical string.
pub proof fn lemma_found_in_roots_is_path(
    roots: Seq<SearchRootView>,
    naming: NamingView,
    found: Found,
)
    requires
        found_in_roots(roots, naming).contains(found),
    ensures
        found.library == MaybeLibraryView::Path(found.library.canonical()),
{
    lemma_found_in_roots(roots, naming, found);
    let r = choose|r: int|
        0 <= r < roots.len() && (#[trigger] roots[r]).entries is Ok && found_among(
            roots[r].entries->Ok_0,
            naming,
        ).contains(found);
    lemma_found_among(roots[r].entries->Ok_0, naming, found);
}

/// No two different candidates that the roots give go to one place of the index.
pub proof fn lemma_found_in_roots_coherent(roots: Seq<SearchRootView>, naming: NamingView)
    ensures
        coherent(found_in_roots(roots, naming)),
{
    let found = found_in_roots(roots, naming);
    assert forall|i: int, j: int|
        0 <= i < found.len() && 0 <= j < found.len() && goes_under(
            #[trigger] found[i],
            found[j].name,
            found[j].toolchain,
            (#[trigger] found[j]).library.canonical(),
        ) implies found[i].library == found[j].library by {
        assert(found.contains(found[i]));
        assert(found.contains(found[j]));
        lemma_found_in_roots_is_path(roots, naming, found[i]);
        lemma_found_in_roots_is_path(roots, naming, found[j]);
    }
}

/// The order in which roots are configured and directories are listed
/// does not show in the index: two surveys whose roots give the same
/// candidates resolve to the same index. (Package descriptors left aside.)
pub proof fn lemma_listing_order(opts: OptionsView, first: SurveyView, second: SurveyView)
    requires
        !opts.metadata,
        resolve(opts, first) is Ok,
        resolve(opts, second) is Ok,
        forall|f: Found|
            found_in_roots(first.roots, opts.naming).contains(f) <==> found_in_roots(
                second.roots,
                opts.naming,
            ).contains(f),
    ensures
        resolve(opts, first) == resolve(opts, second),
{
    let a = found_in_roots(first.roots, opts.naming);
    let b = found_in_roots(second.roots, opts.naming);
    assert(found_in(opts, first) =~= a);
    assert(found_in(opts, second) =~= b);
    lemma_found_in_roots_coherent(first.roots, opts.naming);
    lemma_index_of_any_order(a, b);
}

/// A resolution fails exactly where a search root is not valid or a
/// listing could not be read; the configuration is looked at first.
pub proof fn lemma_resolve_fails(opts: OptionsView, survey: SurveyView)
    ensures
        resolve(opts, survey) is Ok <==> no_fault(
            survey.roots,
            |root: SearchRootView| root_fault(root),
        ) && no_fault(survey.roots, |root: SearchRootView| listing_fault(root)),
        !no_fault(survey.roots, |root: SearchRootView| root_fault(root)) ==> (resolve(opts, survey)
            matches Err(e) && e is ConfigError && is_first_fault(
            survey.roots,
            |root: SearchRootView| root_fault(root),
            e,
        )),
        no_fault(survey.roots, |root: SearchRootView| root_fault(root)) && !no_fault(
            survey.roots,
            |root: SearchRootView| listing_fault(root),
        ) ==> (resolve(opts, survey) matches Err(e) && e is IoError && is_first_fault(
            survey.roots,
            |root: SearchRootView| listing_fault(root),
            e,
        )),
{
    let config = |root: SearchRootView| root_fault(root);
    let listed = |root: SearchRootView| listing_fault(root);
    if !no_fault(survey.roots, config) {
        let i = choose|i: int| 0 <= i < survey.roots.len() && !(#[trigger] config(survey.roots[i]) is None);
        lemma_least_fault(survey.roots, config, i);
        let k = choose|k: int|
            0 <= k <= i && config(survey.roots[k]) is Some && forall|j: int|
                0 <= j < k ==> #[trigger] config(survey.roots[j]) is None;
        lemma_first_fault(survey.roots, config, k);
        assert(is_first_fault(survey.roots, config, config(survey.roots[k])->0));
    } else if !no_fault(survey.roots, listed) {
        let i = choose|i: int| 0 <= i < survey.roots.len() && !(#[trigger] listed(survey.roots[i]) is None);
        lemma_least_fault(survey.roots, listed, i);
        let k = choose|k: int|
            0 <= k <= i && listed(survey.roots[k]) is Some && forall|j: int|
                0 <= j < k ==> #[trigger] listed(survey.roots[j]) is None;
        lemma_first_fault(survey.roots, listed, k);
        assert(is_first_fault(survey.roots, listed, listed(survey.roots[k])->0));
    }
}

/// Where `check` finds something at `i`, there is a first place at which it finds something.
pub proof fn lemma_least_fault(
    roots: Seq<SearchRootView>,
    check: spec_fn(SearchRootView) -> Option<ResolveErrorView>,
    i: int,
)
    requires
        0 <= i < roots.len(),
        check(roots[i]) is Some,
    ensures
        exists|k: int|
            0 <= k <= i && check(roots[k]) is Some && forall|j: int|
                0 <= j < k ==> #[trigger] check(roots[j]) is None,
    decreases i,
{
    if exists|j: int| 0 <= j < i && #[trigger] check(roots[j]) is Some {
        let j = choose|j: int| 0 <= j < i && #[trigger] check(roots[j]) is Some;
        lemma_least_fault(roots, check, j);
        let k = choose|k: int|
            0 <= k <= j && check(roots[k]) is Some && forall|j: int|
                0 <= j < k ==> #[trigger] check(roots[j]) is None;
        assert(0 <= k <= i && check(roots[k]) is Some && forall|j: int|
            0 <= j < k ==> #[trigger] check(roots[j]) is None);
    } else {
        assert(0 <= i <= i && check(roots[i]) is Some && forall|j: int|
            0 <= j < i ==> #[trigger] check(roots[j]) is None);
    }
}

/// Every index that a resolution gives is tidy.
pub proof fn lemma_resolve_tidy(opts: OptionsView, survey: SurveyView)
    ensures
        resolve(opts, survey) matches Ok(ix) ==> index_tidy(ix),
{
    lemma_index_of_tidy(found_in(opts, survey));
}

/// A resolution depends on nothing but its options and its survey: two
/// indexes built from surveys that hold the same hold the same, and list
/// the same names in the same order.
pub proof fn lemma_resolution_repeats(
    opts: &Options,
    first: &Survey,
    second: &Survey,
    a: &NameToolchainMap,
    b: &NameToolchainMap,
)
    requires
        first@ == second@,
        a.wf(),
        b.wf(),
        resolve(opts@, first@) == Ok::<IndexView, ResolveErrorView>(a@),
        resolve(opts@, second@) == Ok::<IndexView, ResolveErrorView>(b@),
    ensures
        a@ == b@,
        a.names() == b.names(),
{
    a.lemma_same_listing(b);
}

/// With no search root configured, and no package descriptor that
/// counts, a resolution gives the empty index.
pub proof fn lemma_nothing_configured(opts: OptionsView, survey: SurveyView)
    requires
        survey.roots.len() == 0,
        survey.packages.len() == 0 || !opts.metadata,
    ensures
        resolve(opts, survey) == Ok::<IndexView, ResolveErrorView>(IndexView::empty()),
{
    assert(found_in(opts, survey) =~= Seq::<Found>::empty());
}

/// The package descriptors are added to what the search roots gave:
/// every candidate that a resolution without the metadata holds, the
/// resolution with the metadata holds at the same place.
pub proof fn lemma_metadata_adds(
    naming: NamingView,
    survey: SurveyView,
    name: Seq<char>,
    toolchain: Seq<char>,
    canonical: Seq<char>,
)
    requires
        resolve(OptionsView { naming, metadata: false }, survey) matches Ok(without) && index_holds(
            without,
            name,
            toolchain,
            canonical,
        ),
    ensures
        ({
            let without = resolve(OptionsView { naming, metadata: false }, survey)->Ok_0;
            &&& resolve(OptionsView { naming, metadata: true }, survey) matches Ok(with)
                && index_holds(with, name, toolchain, canonical) && with[name][toolchain][canonical]
                == without[name][toolchain][canonical]
        }),
{
    let fs = found_in_roots(survey.roots, naming);
    assert(fs + Seq::<Found>::empty() =~= fs);
    lemma_index_of_grows(fs, found_in_packages(survey.packages), name, toolchain, canonical);
}

/// An entry whose file name follows the convention is a candidate of the
/// index, under the name and the toolchain that its file name spells and
/// at its own path.
pub proof fn lemma_entry_is_held(opts: OptionsView, survey: SurveyView, r: int, i: int)
    requires
        resolve(opts, survey) is Ok,
        0 <= r < survey.roots.len(),
        survey.roots[r].entries matches Ok(entries) && 0 <= i < entries.len() && entries[i] is Ok
            && parse_file_name(entries[i]->Ok_0.file_name, opts.naming) is Some,
    ensures
        ({
            let entry = survey.roots[r].entries->Ok_0[i]->Ok_0;
            let (name, toolchain) = parse_file_name(entry.file_name, opts.naming)->0;
            let ix = resolve(opts, survey)->Ok_0;
            &&& index_holds(ix, name, toolchain, entry.path)
            &&& ix[name][toolchain][entry.path] == MaybeLibraryView::Path(entry.path)
        }),
{
    let entries = survey.roots[r].entries->Ok_0;
    let entry = entries[i]->Ok_0;
    let (name, toolchain) = parse_file_name(entry.file_name, opts.naming)->0;
    let found = Found { name, toolchain, library: MaybeLibraryView::Path(entry.path) };
    let fs = found_in_roots(survey.roots, opts.naming);
    let all = found_in(opts, survey);
    assert(found_in_entry(entries[i], opts.naming) == Some(found));
    lemma_found_among(entries, opts.naming, found);
    lemma_found_in_roots(survey.roots, opts.naming, found);
    let j = choose|j: int| 0 <= j < fs.len() && fs[j] == found;
    assert(all[j] == found);
    assert(goes_under(all[j], name, toolchain, entry.path));
    lemma_first_under(all, j, name, toolchain, entry.path);
    let k = choose|k: int| 0 <= k <= j && first_under(all, k, name, toolchain, entry.path);
    lemma_index_of_first(all, k, name, toolchain, entry.path);
    // Whatever goes under a path among the entries of the roots is that path itself.
    assert(all[k] == fs[k]);
    assert(fs.contains(fs[k]));
    lemma_found_in_roots(survey.roots, opts.naming, fs[k]);
    let q = choose|q: int|
        0 <= q < survey.roots.len() && (#[trigger] survey.roots[q]).entries is Ok && found_among(
            survey.roots[q].entries->Ok_0,
            opts.naming,
        ).contains(fs[k]);
    lemma_found_among(survey.roots[q].entries->Ok_0, opts.naming, fs[k]);
}

/// Every candidate of the index was found: in the listing of a search
/// root, or among the package descriptors.
pub proof fn lemma_held_was_found(
    opts: OptionsView,
    survey: SurveyView,
    name: Seq<char>,
    toolchain: Seq<char>,
    canonical: Seq<char>,
)
    requires
        resolve(opts, survey) matches Ok(ix) && index_holds(ix, name, toolchain, canonical),
    ensures
        exists|i: int|
            0 <= i < found_in(opts, survey).len() && goes_under(
                #[trigger] found_in(opts, survey)[i],
                name,
                toolchain,
                canonical,
            ),
{
    lemma_index_of_holds(found_in(opts, survey), name, toolchain, canonical);
}

/// Strings as sequences of characters.
pub open spec fn texts(strings: Seq<String>) -> Seq<Seq<char>> {
    Seq::new(strings.len(), |i: int| strings[i]@)
}

/// Triples of name, toolchain and path as candidates.
pub open spec fn found_view(triples: Seq<(String, String, String)>) -> Seq<Found> {
    Seq::new(
        triples.len(),
        |i: int|
            Found {
                name: triples[i].0@,
                toolchain: triples[i].1@,
                library: MaybeLibraryView::Path(triples[i].2@),
            },
    )
}

/// Checks the configured search roots in their order. Gives their paths,
/// or the fault of the first that is not absolute or is no directory.
pub fn dylint_library_paths(roots: &Vec<SearchRoot>) -> (r: Result<Vec<String>, ResolveError>)
    ensures
        match r {
            Ok(paths) => {
                &&& library_paths(roots_view(roots@)) == Ok::<Seq<Seq<char>>, ResolveErrorView>(
                    texts(paths@),
                )
                &&& no_fault(roots_view(roots@), |root: SearchRootView| root_fault(root))
                &&& texts(paths@) == paths_of(roots_view(roots@))
            },
            Err(e) => {
                &&& library_paths(roots_view(roots@)) == Err::<Seq<Seq<char>>, ResolveErrorView>(e@)
                &&& is_first_fault(roots_view(roots@), |root: SearchRootView| root_fault(root), e@)
            },
        },
{
    let ghost all = roots_view(roots@);
    let ghost check = |root: SearchRootView| root_fault(root);
    let mut paths: Vec<String> = Vec::new();
    let mut i: usize = 0;
    while i < roots.len()
        invariant
            i <= roots.len(),
            all == roots_view(roots@),
            check == |root: SearchRootView| root_fault(root),
            forall|j: int| 0 <= j < i ==> #[trigger] check(all[j]) is None,
            paths@.len() == i,
            forall|j: int| 0 <= j < i ==> #[trigger] paths@[j]@ == all[j].path,
        decreases roots.len() - i,
    {
        let root = &roots[i];
        assert(all[i as int] == root@);
        if !root.is_absolute {
            let e = ResolveError::ConfigError {
                path: root.path.clone(),
                violation: Violation::NotAbsolute,
            };
            proof {
                assert(check(all[i as int]) == Some(e@));
                lemma_first_fault(all, check, i as int);
            }
            return Err(e);
        }
        if !root.is_dir {
            let e = ResolveError::ConfigError {
                path: root.path.clone(),
                violation: Violation::NotADirectory,
            };
            proof {
                assert(check(all[i as int]) == Some(e@));
                lemma_first_fault(all, check, i as int);
            }
            return Err(e);
        }
        paths.push(root.path.clone());
        i = i + 1;
    }
    assert(texts(paths@) =~= paths_of(all));
    Ok(paths)
}

/// Goes through the listing of the directory at `path`. Gives name,
/// toolchain and path of each entry whose file name follows the
/// convention, in the order of the listing; an entry that could not be
/// read is passed over like one whose file name does not parse. Fails
/// where the listing itself could not be read.
pub fn dylint_libraries_in(
    path: &str,
    listing: &Result<Vec<Result<DirEntry, String>>, String>,
    naming: &Naming,
) -> (r: Result<Vec<(String, String, String)>, ResolveError>)
    ensures
        match r {
            Ok(found) => libraries_in(path@, listing_view(*listing), naming@) == Ok::<
                Seq<Found>,
                ResolveErrorView,
            >(found_view(found@)),
            Err(e) => libraries_in(path@, listing_view(*listing), naming@) == Err::<
                Seq<Found>,
                ResolveErrorView,
            >(e@),
        },
{
    match listing {
        Err(cause) => Err(ResolveError::IoError { path: path.to_owned(), cause: cause.clone() }),
        Ok(entries) => {
            let ghost all = entries_view(entries@);
            let mut found: Vec<(String, String, String)> = Vec::new();
            let mut i: usize = 0;
            while i < entries.len()
                invariant
                    i <= entries.len(),
                    all == entries_view(entries@),
                    found_view(found@) == found_among(all.take(i as int), naming@),
                decreases entries.len() - i,
            {
                proof {
                    assert(all.take(i + 1).drop_last() =~= all.take(i as int));
                    assert(all.take(i + 1).last() == all[i as int]);
                }
                let ghost before = found@;
                match &entries[i] {
                    Ok(entry) => {
                        match parse_filename(entry.file_name.as_str(), naming) {
                            Some((name, toolchain)) => {
                                found.push((name, toolchain, entry.path.clone()));
                                assert(found_view(found@) =~= found_view(before).push(
                                    found_in_entry(all[i as int], naming@)->0,
                                ));
                            },
                            None => {},
                        }
                    },
                    Err(_) => {},
                }
                i = i + 1;
            }
            assert(all.take(i as int) =~= all);
            Ok(found)
        },
    }
}

/// `index_of` after one more candidate.
pub proof fn lemma_index_of_push(found: Seq<Found>, next: Found)
    ensures
        index_of(found.push(next)) == index_insert(
            index_of(found),
            next.name,
            next.toolchain,
            next.library,
        ),
{
    assert(found.push(next).drop_last() =~= found);
}

/// `found_in_roots` after one more root.
pub proof fn lemma_found_in_roots_step(roots: Seq<SearchRootView>, naming: NamingView, i: int)
    requires
        0 <= i < roots.len(),
    ensures
        found_in_roots(roots.take(i + 1), naming) == found_in_roots(roots.take(i), naming)
            + match roots[i].entries {
            Ok(entries) => found_among(entries, naming),
            Err(_) => Seq::empty(),
        },
{
    assert(roots.take(i + 1).drop_last() =~= roots.take(i));
}

/// Builds the index from a survey: checks the search roots, takes the
/// candidates of each root's listing, and adds the package descriptors
/// where the metadata counts.
pub fn build(opts: &Options, survey: &Survey) -> (r: Result<NameToolchainMap, ResolveError>)
    ensures
        match r {
            Ok(map) => {
                &&& resolve(opts@, survey@) == Ok::<IndexView, ResolveErrorView>(map@)
                &&& map.wf()
                &&& index_tidy(map@)
            },
            Err(e) => resolve(opts@, survey@) == Err::<IndexView, ResolveErrorView>(e@),
        },
{
    let ghost roots = survey@.roots;
    let ghost naming = opts@.naming;
    let ghost listed = |root: SearchRootView| listing_fault(root);
    let paths = match dylint_library_paths(&survey.roots) {
        Ok(paths) => paths,
        Err(e) => {
            return Err(e);
        },
    };
    assert(texts(paths@).len() == paths@.len());
    let mut map = NameToolchainMap::new();
    let ghost mut done: Seq<Found> = Seq::empty();
    let mut i: usize = 0;
    while i < survey.roots.len()
        invariant
            i <= survey.roots.len(),
            no_fault(roots, |root: SearchRootView| root_fault(root)),
            roots == roots_view(survey.roots@),
            roots == survey@.roots,
            naming == opts@.naming,
            listed == |root: SearchRootView| listing_fault(root),
            paths@.len() == survey.roots.len(),
            texts(paths@) == paths_of(roots),
            forall|j: int| 0 <= j < i ==> #[trigger] listed(roots[j]) is None,
            done == found_in_roots(roots.take(i as int), naming),
            map.wf(),
            map@ == index_of(done),
        decreases survey.roots.len() - i,
    {
        assert(roots[i as int] == survey.roots@[i as int]@);
        assert(texts(paths@)[i as int] == roots[i as int].path);
        let libraries = match dylint_libraries_in(
            paths[i].as_str(),
            &survey.roots[i].entries,
            &opts.naming,
        ) {
            Ok(libraries) => libraries,
            Err(e) => {
                proof {
                    assert(listed(roots[i as int]) == Some(e@));
                    lemma_first_fault(roots, listed, i as int);
                }
                return Err(e);
            },
        };
        proof {
            lemma_found_in_roots_step(roots, naming, i as int);
        }
        let ghost all = libraries@;
        let ghost here = found_view(libraries@);
        let ghost before = done;
        for triple in rest: libraries
            invariant
                rest.seq() == all,
                here == found_view(all),
                done == before + here.take(rest.index()),
                map.wf(),
                map@ == index_of(done),
        {
            let (name, toolchain, path) = triple;
            proof {
                let next = here[rest.index()];
                assert(triple == all[rest.index()]);
                lemma_index_of_push(done, next);
                assert(before + here.take(rest.index() + 1) =~= done.push(next));
                done = done.push(next);
            }
            map.insert(name, toolchain, MaybeLibrary::from_path(path));
        }
        assert(here.take(here.len() as int) =~= here);
        i = i + 1;
    }
    proof {
        assert(roots.take(i as int) =~= roots);
    }
    if opts.metadata {
        let ghost packages = found_in_packages(survey@.packages);
        let ghost before = done;
        let mut j: usize = 0;
        while j < survey.packages.len()
            invariant
                j <= survey.packages.len(),
                packages == found_in_packages(survey@.packages),
                done == before + packages.take(j as int),
                map.wf(),
                map@ == index_of(done),
            decreases survey.packages.len() - j,
        {
            let package = &survey.packages[j];
            proof {
                let next = packages[j as int];
                assert(survey@.packages[j as int] == package@);
                lemma_index_of_push(done, next);
                assert(before + packages.take(j + 1) =~= done.push(next));
                done = done.push(next);
            }
            map.insert(
                package.lib_name.clone(),
                package.toolchain.clone(),
                MaybeLibrary::from_package(package.duplicate()),
            );
            j = j + 1;
        }
        assert(packages.take(j as int) =~= packages);
    } else {
        assert(done + Seq::<Found>::empty() =~= done);
    }
    proof {
        map.lemma_listing();
    }
    Ok(map)
}

} // verus!
