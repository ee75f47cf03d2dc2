//! The index in its simple shape: the paths of library files, by plugin name.
//!
//! A consumer that only loads libraries does not ask for which toolchain
//! a candidate was found, nor for package descriptors. For it the index
//! is flattened: each plugin name with the paths of the library files
//! known for it, whatever the toolchain. A name for which only package
//! descriptors are known has no entry.

use vstd::prelude::*;
use crate::index::{
    canonicals, index_holds, CandidateSet, IndexView, LazyToolchainMap, NameToolchainMap,
};
use crate::maybe_library::MaybeLibraryView;
use crate::sorted_map::{lemma_lists_unique, lists, SortedMap};

verus! {

/// The flattened index: for each name a set of paths.
pub type FlatView = Map<Seq<char>, Set<Seq<char>>>;

/// Whether the flattened index holds `path` under `name`.
pub open spec fn flat_holds(flat: FlatView, name: Seq<char>, path: Seq<char>) -> bool {
    flat.contains_key(name) && flat[name].contains(path)
}

/// No name of the flattened index is without a path.
pub open spec fn flat_tidy(flat: FlatView) -> bool {
    forall|n: Seq<char>| #[trigger]
        flat.contains_key(n) ==> exists|p: Seq<char>| flat[n].contains(p)
}

/// The flattened index with `path` put under `name`, the entry made if there is none.
pub open spec fn flat_insert(flat: FlatView, name: Seq<char>, path: Seq<char>) -> FlatView {
    let held = if flat.contains_key(name) {
        flat[name]
    } else {
        Set::empty()
    };
    flat.insert(name, held.insert(path))
}

/// The index holds the library file at `path` under `name` and `toolchain`.
pub open spec fn path_at(ix: IndexView, name: Seq<char>, toolchain: Seq<char>, path: Seq<char>) -> bool {
    index_holds(ix, name, toolchain, path) && ix[name][toolchain][path] is Path
}

/// The index holds the library file at `path` under `name`, for some toolchain.
pub open spec fn holds_path(ix: IndexView, name: Seq<char>, path: Seq<char>) -> bool {
    exists|t: Seq<char>| path_at(ix, name, t, path)
}

/// The index flattened: under each name the paths of the library files
/// that the index holds for it; no entry for a name without any.
pub open spec fn flattened(ix: IndexView) -> FlatView {
    Map::new(
        |n: Seq<char>| exists|p: Seq<char>| holds_path(ix, n, p),
        |n: Seq<char>| Set::new(|p: Seq<char>| holds_path(ix, n, p)),
    )
}

/// What the flattened index holds after a path was put in: what it held, and the path.
pub proof fn lemma_flat_insert_holds(
    flat: FlatView,
    name: Seq<char>,
    path: Seq<char>,
    n: Seq<char>,
    p: Seq<char>,
)
    ensures
        flat_holds(flat_insert(flat, name, path), n, p) <==> flat_holds(flat, n, p) || (n == name && p
            == path),
{
}

/// Two tidy flattened indexes that hold the same paths under the same names are the same.
pub proof fn lemma_flat_extensional(a: FlatView, b: FlatView)
    requires
        flat_tidy(a),
        flat_tidy(b),
        forall|n: Seq<char>, p: Seq<char>| flat_holds(a, n, p) <==> flat_holds(b, n, p),
    ensures
        a == b,
{
    assert forall|n: Seq<char>| a.contains_key(n) <==> b.contains_key(n) by {
        if a.contains_key(n) {
            let p = choose|p: Seq<char>| a[n].contains(p);
            assert(flat_holds(a, n, p));
            assert(flat_holds(b, n, p));
        }
        if b.contains_key(n) {
            let p = choose|p: Seq<char>| b[n].contains(p);
            assert(flat_holds(b, n, p));
            assert(flat_holds(a, n, p));
        }
    }
    assert forall|n: Seq<char>| a.contains_key(n) implies a[n] == b[n] by {
        assert forall|p: Seq<char>| a[n].contains(p) <==> b[n].contains(p) by {
            assert(flat_holds(a, n, p) <==> flat_holds(b, n, p));
        }
        assert(a[n] =~= b[n]);
    }
    assert(a =~= b);
}

/// A set of paths.
#[derive(Debug)]
pub struct PathSet {
    map: SortedMap<()>,
}

impl View for PathSet {
    type V = Set<Seq<char>>;

    closed spec fn view(&self) -> Set<Seq<char>> {
        self.map@.dom()
    }
}

impl PathSet {
    /// The paths stand in increasing order.
    #[verifier::type_invariant]
    pub closed spec fn wf(&self) -> bool {
        self.map.wf()
    }

    /// The paths in the order in which the set lists them.
    pub closed spec fn listing(&self) -> Seq<Seq<char>> {
        self.map.keys()
    }

    /// The set is finite, and it lists its paths in increasing order.
    pub proof fn lemma_listing(&self)
        requires
            self.wf(),
        ensures
            self@.finite(),
            self@.len() == self.listing().len(),
            lists(self.listing(), self@),
    {
        self.map.lemma_domain();
    }

    /// What a set holds fixes how it lists it.
    pub proof fn lemma_same_listing(&self, other: &PathSet)
        requires
            self.wf(),
            other.wf(),
            self@ == other@,
        ensures
            self.listing() == other.listing(),
    {
        self.lemma_listing();
        other.lemma_listing();
        lemma_lists_unique(self.listing(), other.listing(), self@);
    }

    /// The empty set.
    pub fn new() -> (r: PathSet)
        ensures
            r.wf(),
            r@ == Set::<Seq<char>>::empty(),
    {
        let r = PathSet { map: SortedMap::new() };
        assert(r@ =~= Set::<Seq<char>>::empty());
        r
    }

    /// How many paths the set holds.
    pub fn len(&self) -> (r: usize)
        ensures
            r == self@.len(),
            r == self.listing().len(),
    {
        proof {
            use_type_invariant(self);
        }
        self.map.len()
    }

    /// The path at place `i` of the listing, if the listing is that long.
    pub fn get(&self, i: usize) -> (r: Option<&String>)
        ensures
            match r {
                Some(path) => i < self.listing().len() && path@ == self.listing()[i as int],
                None => i >= self.listing().len(),
            },
    {
        proof {
            use_type_invariant(self);
        }
        if i < self.map.len() {
            Some(self.map.key(i))
        } else {
            None
        }
    }

    /// Whether the set holds `path`.
    pub fn contains(&self, path: &str) -> (r: bool)
        ensures
            r == self@.contains(path@),
    {
        proof {
            use_type_invariant(self);
        }
        self.map.find(path).is_ok()
    }

    /// Puts `path` into the set. Says whether it was not there before.
    pub fn insert(&mut self, path: String) -> (fresh: bool)
        ensures
            final(self).wf(),
            final(self)@ == old(self)@.insert(path@),
            fresh == !old(self)@.contains(path@),
    {
        proof {
            use_type_invariant(&*self);
        }
        let mut map = SortedMap::new();
        std::mem::swap(&mut map, &mut self.map);
        let ghost before = map;
        let fresh = match map.find(path.as_str()) {
            Ok(_) => false,
            Err(i) => {
                map.insert_at(i, path, ());
                true
            },
        };
        assert(map@.dom() =~= before@.dom().insert(path@));
        self.map = map;
        fresh
    }
}

/// The paths of library files, by plugin name.
#[derive(Debug)]
pub struct ToolchainMap {
    map: SortedMap<PathSet>,
}

impl View for ToolchainMap {
    type V = FlatView;

    closed spec fn view(&self) -> FlatView {
        self.map@
    }
}

impl ToolchainMap {
    /// The names stand in increasing order, each with a set of paths that is not empty.
    #[verifier::type_invariant]
    pub closed spec fn wf(&self) -> bool {
        &&& self.map.wf()
        &&& forall|i: int|
            0 <= i < self.map.values().len() ==> (#[trigger] self.map.values()[i]).wf() && exists|
                p: Seq<char>,
            | self.map.values()[i]@.contains(p)
    }

    /// The names in the order in which the map lists them.
    pub closed spec fn names(&self) -> Seq<Seq<char>> {
        self.map.keys()
    }

    /// The map is tidy, and it lists its names in increasing order.
    pub proof fn lemma_listing(&self)
        requires
            self.wf(),
        ensures
            flat_tidy(self@),
            self@.dom().finite(),
            self@.len() == self.names().len(),
            lists(self.names(), self@.dom()),
    {
        self.map.lemma_domain();
        assert forall|n: Seq<char>| #[trigger] self@.contains_key(n) implies exists|p: Seq<char>|
            self@[n].contains(p) by {
            let i = self.map.keys().index_of(n);
            self.map.lemma_entry(i);
            let p = choose|p: Seq<char>| self.map.values()[i]@.contains(p);
            assert(self@[n].contains(p));
        }
    }

    /// What a map holds fixes how it lists it.
    pub proof fn lemma_same_listing(&self, other: &ToolchainMap)
        requires
            self.wf(),
            other.wf(),
            self@ == other@,
        ensures
            self.names() == other.names(),
    {
        self.lemma_listing();
        other.lemma_listing();
        lemma_lists_unique(self.names(), other.names(), self@.dom());
    }

    /// The map of no name.
    pub fn new() -> (r: ToolchainMap)
        ensures
            r.wf(),
            r@ == FlatView::empty(),
    {
        ToolchainMap { map: SortedMap::new() }
    }

    /// How many names the map holds.
    pub fn len(&self) -> (r: usize)
        ensures
            r == self@.len(),
            r == self.names().len(),
    {
        proof {
            use_type_invariant(self);
        }
        self.map.len()
    }

    /// Whether the map holds nothing.
    pub fn is_empty(&self) -> (r: bool)
        ensures
            r == (self@ == FlatView::empty()),
    {
        proof {
            use_type_invariant(self);
            if self.map.keys().len() > 0 {
                self.map.lemma_entry(0);
            } else {
                assert(self@ =~= FlatView::empty());
            }
        }
        self.map.len() == 0
    }

    /// The name at place `i` of the listing with its paths, if the listing is that long.
    pub fn entry(&self, i: usize) -> (r: Option<(&String, &PathSet)>)
        ensures
            match r {
                Some((name, paths)) => {
                    &&& i < self.names().len()
                    &&& name@ == self.names()[i as int]
                    &&& self@.contains_key(name@)
                    &&& paths@ == self@[name@]
                    &&& paths.wf()
                },
                None => i >= self.names().len(),
            },
    {
        proof {
            use_type_invariant(self);
        }
        if i < self.map.len() {
            proof {
                self.map.lemma_entry(i as int);
            }
            Some((self.map.key(i), self.map.value(i)))
        } else {
            None
        }
    }

    /// The paths known for the plugin `name`, if there are any.
    pub fn get(&self, name: &str) -> (r: Option<&PathSet>)
        ensures
            match r {
                Some(paths) => {
                    &&& self@.contains_key(name@)
                    &&& paths@ == self@[name@]
                    &&& paths.wf()
                },
                None => !self@.contains_key(name@),
            },
    {
        proof {
            use_type_invariant(self);
        }
        match self.map.find(name) {
            Ok(i) => Some(self.map.value(i)),
            Err(_) => None,
        }
    }

    /// Puts `path` under `name`, whose entry is made if there is none.
    /// Says whether the path was not there before.
    pub fn insert(&mut self, name: String, path: String) -> (fresh: bool)
        ensures
            final(self).wf(),
            final(self)@ == flat_insert(old(self)@, name@, path@),
            fresh == !flat_holds(old(self)@, name@, path@),
    {
        proof {
            use_type_invariant(&*self);
        }
        let mut map = SortedMap::new();
        std::mem::swap(&mut map, &mut self.map);
        let ghost before = map;
        let fresh = match map.find(name.as_str()) {
            Ok(i) => {
                proof {
                    before.lemma_entry(i as int);
                }
                let paths = map.value_mut(i);
                let fresh = paths.insert(path);
                proof {
                    before.lemma_update(&map, i as int);
                    assert(map.values()[i as int]@.contains(path@));
                    assert forall|j: int| 0 <= j < map.values().len() implies (
                    #[trigger] map.values()[j]).wf() && exists|p: Seq<char>|
                        map.values()[j]@.contains(p) by {
                        if j != i {
                            assert(map.values()[j] == before.values()[j]);
                        }
                    }
                }
                fresh
            },
            Err(i) => {
                let mut paths = PathSet::new();
                paths.insert(path);
                assert(paths@.contains(path@));
                map.insert_at(i, name, paths);
                proof {
                    assert forall|j: int| 0 <= j < map.values().len() implies (
                    #[trigger] map.values()[j]).wf() && exists|p: Seq<char>|
                        map.values()[j]@.contains(p) by {
                        if j < i {
                            assert(map.values()[j] == before.values()[j]);
                        } else if j > i {
                            assert(map.values()[j] == before.values()[j - 1]);
                        }
                    }
                }
                true
            },
        };
        assert(map@ =~= flat_insert(before@, name@, path@));
        self.map = map;
        fresh
    }
}

/// One of the first `i` of `names` is `n`.
spec fn named_before(names: Seq<Seq<char>>, i: int, n: Seq<char>) -> bool {
    exists|q: int| 0 <= q < i && #[trigger] names[q] == n
}

/// Under one of the first `j` of `toolchains` the index holds the library file at `path`.
spec fn under_before(
    ix: IndexView,
    name: Seq<char>,
    toolchains: Seq<Seq<char>>,
    j: int,
    path: Seq<char>,
) -> bool {
    exists|q: int| 0 <= q < j && path_at(ix, name, #[trigger] toolchains[q], path)
}

/// One of the first `k` of `listing` is the library file at `path`.
spec fn listed_before(listing: Seq<MaybeLibraryView>, k: int, path: Seq<char>) -> bool {
    exists|q: int| 0 <= q < k && #[trigger] listing[q] == MaybeLibraryView::Path(path)
}

proof fn lemma_listed(
    ix: IndexView,
    name: Seq<char>,
    toolchain: Seq<char>,
    candidates: &CandidateSet,
    path: Seq<char>,
)
    requires
        candidates.wf(),
        ix.contains_key(name),
        ix[name].contains_key(toolchain),
        ix[name][toolchain] == candidates@,
    ensures
        path_at(ix, name, toolchain, path) <==> listed_before(
            candidates.listing(),
            candidates.listing().len() as int,
            path,
        ),
{
    candidates.lemma_listing();
    let listing = candidates.listing();
    if path_at(ix, name, toolchain, path) {
        assert(candidates@.contains_key(path));
        assert(canonicals(listing).contains(path));
        let q = choose|q: int| 0 <= q < canonicals(listing).len() && canonicals(listing)[q] == path;
        assert(listing[q].canonical() == path);
        assert(candidates@[listing[q].canonical()] == listing[q]);
        assert(listing[q] == MaybeLibraryView::Path(path));
    }
    if listed_before(listing, listing.len() as int, path) {
        let q = choose|q: int|
            0 <= q < listing.len() && #[trigger] listing[q] == MaybeLibraryView::Path(path);
        assert(canonicals(listing)[q] == path);
        assert(canonicals(listing).contains(path));
        assert(candidates@[listing[q].canonical()] == listing[q]);
    }
}

proof fn lemma_under(ix: IndexView, name: Seq<char>, toolchains: &LazyToolchainMap, path: Seq<char>)
    requires
        toolchains.wf(),
        ix.contains_key(name),
        ix[name] == toolchains@,
    ensures
        holds_path(ix, name, path) <==> under_before(
            ix,
            name,
            toolchains.toolchains(),
            toolchains.toolchains().len() as int,
            path,
        ),
{
    toolchains.lemma_listing();
    let listing = toolchains.toolchains();
    if holds_path(ix, name, path) {
        let t = choose|t: Seq<char>| path_at(ix, name, t, path);
        assert(listing.contains(t));
        let q = choose|q: int| 0 <= q < listing.len() && listing[q] == t;
        assert(path_at(ix, name, listing[q], path));
    }
}

impl NameToolchainMap {
    /// The index in its simple shape: under each plugin name the paths of
    /// the library files that the index holds for it, for whatever
    /// toolchain. Package descriptors are left out, and with them a name
    /// for which nothing else is known.
    pub fn paths(&self) -> (flat: ToolchainMap)
        ensures
            flat.wf(),
            flat@ == flattened(self@),
    {
        proof {
            use_type_invariant(self);
            self.lemma_listing();
        }
        let ghost ix = self@;
        let ghost names = self.names();
        let mut flat = ToolchainMap::new();
        let mut i: usize = 0;
        while i < self.len()
            invariant
                self.wf(),
                ix == self@,
                names == self.names(),
                i <= names.len(),
                lists(names, ix.dom()),
                flat.wf(),
                forall|n: Seq<char>, p: Seq<char>| #[trigger]
                    flat_holds(flat@, n, p) <==> named_before(names, i as int, n) && holds_path(
                        ix,
                        n,
                        p,
                    ),
            decreases names.len() - i,
        {
            let (name, toolchains) = self.entry(i).unwrap();
            proof {
                toolchains.lemma_listing();
            }
            let ghost listed = toolchains.toolchains();
            let mut j: usize = 0;
            while j < toolchains.len()
                invariant
                    toolchains.wf(),
                    listed == toolchains.toolchains(),
                    j <= listed.len(),
                    lists(listed, toolchains@.dom()),
                    ix.contains_key(name@),
                    ix[name@] == toolchains@,
                    flat.wf(),
                    forall|n: Seq<char>, p: Seq<char>| #[trigger]
                        flat_holds(flat@, n, p) <==> (named_before(names, i as int, n)
                            && holds_path(ix, n, p)) || (n == name@ && under_before(
                            ix,
                            name@,
                            listed,
                            j as int,
                            p,
                        )),
                decreases listed.len() - j,
            {
                let (toolchain, candidates) = toolchains.entry(j).unwrap();
                let ghost listing = candidates.listing();
                let mut k: usize = 0;
                while k < candidates.len()
                    invariant
                        candidates.wf(),
                        listing == candidates.listing(),
                        k <= listing.len(),
                        flat.wf(),
                        forall|n: Seq<char>, p: Seq<char>| #[trigger]
                            flat_holds(flat@, n, p) <==> (named_before(names, i as int, n)
                                && holds_path(ix, n, p)) || (n == name@ && under_before(
                                ix,
                                name@,
                                listed,
                                j as int,
                                p,
                            )) || (n == name@ && listed_before(listing, k as int, p)),
                    decreases listing.len() - k,
                {
                    let candidate = candidates.get(k).unwrap();
                    let ghost before = flat@;
                    match candidate.path() {
                        Some(path) => {
                            flat.insert(name.clone(), path.clone());
                            proof {
                                assert forall|n: Seq<char>, p: Seq<char>| #[trigger]
                                    flat_holds(flat@, n, p) <==> (named_before(names, i as int, n)
                                        && holds_path(ix, n, p)) || (n == name@ && under_before(
                                        ix,
                                        name@,
                                        listed,
                                        j as int,
                                        p,
                                    )) || (n == name@ && listed_before(listing, k + 1, p)) by {
                                    lemma_flat_insert_holds(before, name@, path@, n, p);
                                    assert(flat_holds(before, n, p) <==> (named_before(
                                        names,
                                        i as int,
                                        n,
                                    ) && holds_path(ix, n, p)) || (n == name@ && under_before(
                                        ix,
                                        name@,
                                        listed,
                                        j as int,
                                        p,
                                    )) || (n == name@ && listed_before(listing, k as int, p)));
                                    if p == path@ {
                                        assert(listing[k as int] == MaybeLibraryView::Path(p));
                                    }
                                    if listed_before(listing, k + 1, p) {
                                        let q = choose|q: int|
                                            0 <= q < k + 1 && #[trigger] listing[q]
                                                == MaybeLibraryView::Path(p);
                                        if q < k {
                                            assert(listed_before(listing, k as int, p));
                                        }
                                    }
                                    if listed_before(listing, k as int, p) {
                                        let q = choose|q: int|
                                            0 <= q < k && #[trigger] listing[q]
                                                == MaybeLibraryView::Path(p);
                                        assert(listed_before(listing, k + 1, p));
                                    }
                                }
                            }
                        },
                        None => {
                            proof {
                                assert forall|p: Seq<char>|
                                    listed_before(listing, k + 1, p) <==> listed_before(
                                        listing,
                                        k as int,
                                        p,
                                    ) by {
                                    if listed_before(listing, k + 1, p) {
                                        let q = choose|q: int|
                                            0 <= q < k + 1 && #[trigger] listing[q]
                                                == MaybeLibraryView::Path(p);
                                        assert(q < k);
                                    }
                                    if listed_before(listing, k as int, p) {
                                        let q = choose|q: int|
                                            0 <= q < k && #[trigger] listing[q]
                                                == MaybeLibraryView::Path(p);
                                        assert(listed_before(listing, k + 1, p));
                                    }
                                }
                            }
                        },
                    }
                    k = k + 1;
                }
                proof {
                    assert forall|n: Seq<char>, p: Seq<char>| #[trigger]
                        flat_holds(flat@, n, p) <==> (named_before(names, i as int, n)
                            && holds_path(ix, n, p)) || (n == name@ && under_before(
                            ix,
                            name@,
                            listed,
                            j + 1,
                            p,
                        )) by {
                        lemma_listed(ix, name@, toolchain@, candidates, p);
                        if under_before(ix, name@, listed, j + 1, p) {
                            let q = choose|q: int|
                                0 <= q < j + 1 && path_at(ix, name@, #[trigger] listed[q], p);
                            if q < j {
                                assert(under_before(ix, name@, listed, j as int, p));
                            }
                        }
                        if under_before(ix, name@, listed, j as int, p) {
                            let q = choose|q: int|
                                0 <= q < j && path_at(ix, name@, #[trigger] listed[q], p);
                            assert(under_before(ix, name@, listed, j + 1, p));
                        }
                        if path_at(ix, name@, toolchain@, p) {
                            assert(path_at(ix, name@, listed[j as int], p));
                        }
                    }
                }
                j = j + 1;
            }
            proof {
                assert forall|n: Seq<char>, p: Seq<char>| #[trigger]
                    flat_holds(flat@, n, p) <==> named_before(names, i + 1, n) && holds_path(
                        ix,
                        n,
                        p,
                    ) by {
                    lemma_under(ix, name@, toolchains, p);
                    if named_before(names, i + 1, n) {
                        let q = choose|q: int| 0 <= q < i + 1 && #[trigger] names[q] == n;
                        if q < i {
                            assert(named_before(names, i as int, n));
                        }
                    }
                    if named_before(names, i as int, n) {
                        let q = choose|q: int| 0 <= q < i && #[trigger] names[q] == n;
                        assert(named_before(names, i + 1, n));
                    }
                    if n == name@ {
                        assert(names[i as int] == n);
                    }
                }
            }
            i = i + 1;
        }
        proof {
            flat.lemma_listing();
            let want = flattened(ix);
            assert forall|n: Seq<char>, p: Seq<char>|
                flat_holds(flat@, n, p) <==> flat_holds(want, n, p) by {
                if holds_path(ix, n, p) {
                    let t = choose|t: Seq<char>| path_at(ix, n, t, p);
                    assert(names.contains(n));
                    let q = choose|q: int| 0 <= q < names.len() && names[q] == n;
                    assert(named_before(names, i as int, n));
                }
            }
            assert forall|n: Seq<char>| #[trigger] want.contains_key(n) implies exists|
                p: Seq<char>,
            | want[n].contains(p) by {
                let p = choose|p: Seq<char>| holds_path(ix, n, p);
                assert(want[n].contains(p));
            }
            lemma_flat_extensional(flat@, want);
        }
        flat
    }
}

} // verus!
