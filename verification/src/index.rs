//! The resolution index: plugin name, toolchain, candidates.
//!
//! The index maps a plugin's name to the toolchains for which candidates
//! are known, and each toolchain to the set of those candidates. An entry
//! is there only because a candidate was put under it: no name maps to an
//! empty map and no toolchain to an empty set. Names, toolchains and
//! candidates are listed in increasing order, so that the order depends on
//! what the index holds alone.

use vstd::prelude::*;
use crate::maybe_library::{MaybeLibrary, MaybeLibraryView};
use crate::sorted_map::{lemma_lists_unique, lists, SortedMap};

verus! {

/// A set of candidates: each under its canonical string.
pub type CandidatesView = Map<Seq<char>, MaybeLibraryView>;

/// The candidate sets of one plugin, by toolchain.
pub type ToolchainsView = Map<Seq<char>, CandidatesView>;

/// The whole index, by plugin name.
pub type IndexView = Map<Seq<char>, ToolchainsView>;

/// The map holds at least one key.
pub open spec fn inhabited<V>(m: Map<Seq<char>, V>) -> bool {
    exists|k: Seq<char>| m.contains_key(k)
}

/// Finitely many candidates, each under its own canonical string.
pub open spec fn candidates_tidy(s: CandidatesView) -> bool {
    &&& s.dom().finite()
    &&& forall|k: Seq<char>| #[trigger] s.contains_key(k) ==> s[k].canonical() == k
}

/// Finitely many toolchains, each with a tidy set that is not empty.
pub open spec fn toolchains_tidy(t: ToolchainsView) -> bool {
    &&& t.dom().finite()
    &&& forall|k: Seq<char>| #[trigger] t.contains_key(k) ==> candidates_tidy(t[k]) && inhabited(t[k])
}

/// Finitely many names, each with a tidy map of toolchains that is not empty.
pub open spec fn index_tidy(ix: IndexView) -> bool {
    &&& ix.dom().finite()
    &&& forall|k: Seq<char>| #[trigger] ix.contains_key(k) ==> toolchains_tidy(ix[k]) && inhabited(ix[k])
}

/// The set with `c` put in: a candidate with the same canonical string
/// that is already there stays, and `c` is dropped.
pub open spec fn candidates_insert(s: CandidatesView, c: MaybeLibraryView) -> CandidatesView {
    if s.contains_key(c.canonical()) {
        s
    } else {
        s.insert(c.canonical(), c)
    }
}

/// The toolchains with `c` put into the set of `toolchain`, the set made if there is none.
pub open spec fn toolchains_insert(
    t: ToolchainsView,
    toolchain: Seq<char>,
    c: MaybeLibraryView,
) -> ToolchainsView {
    let held = if t.contains_key(toolchain) {
        t[toolchain]
    } else {
        Map::empty()
    };
    t.insert(toolchain, candidates_insert(held, c))
}

/// The index with `c` put under `name` and `toolchain`, either entry made if there is none.
pub open spec fn index_insert(
    ix: IndexView,
    name: Seq<char>,
    toolchain: Seq<char>,
    c: MaybeLibraryView,
) -> IndexView {
    let held = if ix.contains_key(name) {
        ix[name]
    } else {
        Map::empty()
    };
    ix.insert(name, toolchains_insert(held, toolchain, c))
}

/// Whether the index holds a candidate with the canonical string `canonical` under `name` and `toolchain`.
pub open spec fn index_holds(
    ix: IndexView,
    name: Seq<char>,
    toolchain: Seq<char>,
    canonical: Seq<char>,
) -> bool {
    &&& ix.contains_key(name)
    &&& ix[name].contains_key(toolchain)
    &&& ix[name][toolchain].contains_key(canonical)
}

/// Putting a candidate in keeps a set tidy, and leaves it inhabited.
pub proof fn lemma_candidates_insert_tidy(s: CandidatesView, c: MaybeLibraryView)
    requires
        candidates_tidy(s),
    ensures
        candidates_tidy(candidates_insert(s, c)),
        inhabited(candidates_insert(s, c)),
{
    assert(candidates_insert(s, c).contains_key(c.canonical()));
}

/// Putting a candidate in keeps the toolchains of a plugin tidy, and leaves them inhabited.
pub proof fn lemma_toolchains_insert_tidy(t: ToolchainsView, toolchain: Seq<char>, c: MaybeLibraryView)
    requires
        toolchains_tidy(t),
    ensures
        toolchains_tidy(toolchains_insert(t, toolchain, c)),
        inhabited(toolchains_insert(t, toolchain, c)),
{
    let held = if t.contains_key(toolchain) {
        t[toolchain]
    } else {
        Map::empty()
    };
    lemma_candidates_insert_tidy(held, c);
    assert(toolchains_insert(t, toolchain, c).contains_key(toolchain));
}

/// No entry of the index is ever empty: putting a candidate into a tidy index gives a tidy index.
pub proof fn lemma_index_insert_tidy(
    ix: IndexView,
    name: Seq<char>,
    toolchain: Seq<char>,
    c: MaybeLibraryView,
)
    requires
        index_tidy(ix),
    ensures
        index_tidy(index_insert(ix, name, toolchain, c)),
{
    let held = if ix.contains_key(name) {
        ix[name]
    } else {
        Map::empty()
    };
    lemma_toolchains_insert_tidy(held, toolchain, c);
}

/// What the index holds after a candidate was put in: what it held, and
/// the candidate's own place. What was held keeps its candidate; the
/// place of the new candidate holds it where the place was free.
pub proof fn lemma_index_insert_holds(
    ix: IndexView,
    name: Seq<char>,
    toolchain: Seq<char>,
    c: MaybeLibraryView,
    n: Seq<char>,
    t: Seq<char>,
    k: Seq<char>,
)
    ensures
        index_holds(index_insert(ix, name, toolchain, c), n, t, k) <==> index_holds(ix, n, t, k) || (n
            == name && t == toolchain && k == c.canonical()),
        index_holds(ix, n, t, k) ==> index_insert(ix, name, toolchain, c)[n][t][k] == ix[n][t][k],
        !index_holds(ix, name, toolchain, c.canonical()) ==> index_insert(
            ix,
            name,
            toolchain,
            c,
        )[name][toolchain][c.canonical()] == c,
{
}

/// Two tidy indexes that hold the same candidates at the same places are the same index.
pub proof fn lemma_index_extensional(a: IndexView, b: IndexView)
    requires
        index_tidy(a),
        index_tidy(b),
        forall|n: Seq<char>, t: Seq<char>, k: Seq<char>|
            index_holds(a, n, t, k) <==> index_holds(b, n, t, k),
        forall|n: Seq<char>, t: Seq<char>, k: Seq<char>|
            index_holds(a, n, t, k) ==> a[n][t][k] == b[n][t][k],
    ensures
        a == b,
{
    assert forall|n: Seq<char>| a.contains_key(n) <==> b.contains_key(n) by {
        if a.contains_key(n) {
            let t = choose|t: Seq<char>| a[n].contains_key(t);
            let k = choose|k: Seq<char>| a[n][t].contains_key(k);
            assert(index_holds(a, n, t, k));
            assert(index_holds(b, n, t, k));
        }
        if b.contains_key(n) {
            let t = choose|t: Seq<char>| b[n].contains_key(t);
            let k = choose|k: Seq<char>| b[n][t].contains_key(k);
            assert(index_holds(b, n, t, k));
            assert(index_holds(a, n, t, k));
        }
    }
    assert forall|n: Seq<char>| a.contains_key(n) implies a[n] == b[n] by {
        assert forall|t: Seq<char>| a[n].contains_key(t) <==> b[n].contains_key(t) by {
            if a[n].contains_key(t) {
                let k = choose|k: Seq<char>| a[n][t].contains_key(k);
                assert(index_holds(a, n, t, k));
                assert(index_holds(b, n, t, k));
            }
            if b[n].contains_key(t) {
                let k = choose|k: Seq<char>| b[n][t].contains_key(k);
                assert(index_holds(b, n, t, k));
                assert(index_holds(a, n, t, k));
            }
        }
        assert forall|t: Seq<char>| a[n].contains_key(t) implies a[n][t] == b[n][t] by {
            assert forall|k: Seq<char>| a[n][t].contains_key(k) <==> b[n][t].contains_key(k) by {
                assert(index_holds(a, n, t, k) <==> index_holds(b, n, t, k));
            }
            assert forall|k: Seq<char>| a[n][t].contains_key(k) implies a[n][t][k] == b[n][t][k] by {
                assert(index_holds(a, n, t, k));
            }
            assert(a[n][t] =~= b[n][t]);
        }
        assert(a[n] =~= b[n]);
    }
    assert(a =~= b);
}

/// Two candidates for one name and toolchain: the set holds a candidate
/// under the canonical string of each. Where the two canonical strings
/// are equal the second changes nothing, and the two count as one; where
/// they differ and neither was held before, each is held as it was given.
pub proof fn lemma_two_candidates(
    ix: IndexView,
    name: Seq<char>,
    toolchain: Seq<char>,
    a: MaybeLibraryView,
    b: MaybeLibraryView,
)
    ensures
        ({
            let first = index_insert(ix, name, toolchain, a);
            let both = index_insert(first, name, toolchain, b);
            &&& index_holds(both, name, toolchain, a.canonical())
            &&& index_holds(both, name, toolchain, b.canonical())
            &&& a.canonical() == b.canonical() ==> both == first
            &&& a.canonical() != b.canonical() && !index_holds(ix, name, toolchain, a.canonical())
                && !index_holds(ix, name, toolchain, b.canonical()) ==> {
                &&& both[name][toolchain][a.canonical()] == a
                &&& both[name][toolchain][b.canonical()] == b
                &&& both[name][toolchain].dom() == first[name][toolchain].dom().insert(b.canonical())
                &&& !first[name][toolchain].contains_key(b.canonical())
            }
        }),
{
    let first = index_insert(ix, name, toolchain, a);
    let both = index_insert(first, name, toolchain, b);
    if a.canonical() == b.canonical() {
        assert(first[name][toolchain].contains_key(b.canonical()));
        assert(toolchains_insert(first[name], toolchain, b) =~= first[name]);
        assert(both =~= first);
    } else {
        assert(both[name][toolchain].dom() =~= first[name][toolchain].dom().insert(b.canonical()));
    }
}

/// Two candidates go into the index in either order with the same
/// result, unless they are two different candidates for one place.
pub proof fn lemma_index_insert_commutes(
    ix: IndexView,
    name_a: Seq<char>,
    toolchain_a: Seq<char>,
    a: MaybeLibraryView,
    name_b: Seq<char>,
    toolchain_b: Seq<char>,
    b: MaybeLibraryView,
)
    requires
        index_tidy(ix),
        name_a == name_b && toolchain_a == toolchain_b && a.canonical() == b.canonical() ==> a == b,
    ensures
        index_insert(index_insert(ix, name_a, toolchain_a, a), name_b, toolchain_b, b)
            == index_insert(index_insert(ix, name_b, toolchain_b, b), name_a, toolchain_a, a),
{
    let first_a = index_insert(ix, name_a, toolchain_a, a);
    let first_b = index_insert(ix, name_b, toolchain_b, b);
    let ab = index_insert(first_a, name_b, toolchain_b, b);
    let ba = index_insert(first_b, name_a, toolchain_a, a);
    lemma_index_insert_tidy(ix, name_a, toolchain_a, a);
    lemma_index_insert_tidy(ix, name_b, toolchain_b, b);
    lemma_index_insert_tidy(first_a, name_b, toolchain_b, b);
    lemma_index_insert_tidy(first_b, name_a, toolchain_a, a);
    assert forall|n: Seq<char>, t: Seq<char>, k: Seq<char>|
        (index_holds(ab, n, t, k) <==> index_holds(ba, n, t, k)) && (index_holds(ab, n, t, k)
            ==> ab[n][t][k] == ba[n][t][k]) by {
        lemma_index_insert_holds(ix, name_a, toolchain_a, a, n, t, k);
        lemma_index_insert_holds(ix, name_b, toolchain_b, b, n, t, k);
        lemma_index_insert_holds(first_a, name_b, toolchain_b, b, n, t, k);
        lemma_index_insert_holds(first_b, name_a, toolchain_a, a, n, t, k);
        lemma_index_insert_holds(ix, name_a, toolchain_a, a, name_b, toolchain_b, b.canonical());
        lemma_index_insert_holds(ix, name_b, toolchain_b, b, name_a, toolchain_a, a.canonical());
    }
    lemma_index_extensional(ab, ba);
}

/// The canonical strings of a sequence of candidates.
pub open spec fn canonicals(candidates: Seq<MaybeLibraryView>) -> Seq<Seq<char>> {
    Seq::new(candidates.len(), |i: int| candidates[i].canonical())
}

/// A set of candidates, no two with the same canonical string.
#[derive(Debug)]
pub struct CandidateSet {
    map: SortedMap<MaybeLibrary>,
}

impl View for CandidateSet {
    type V = CandidatesView;

    closed spec fn view(&self) -> CandidatesView {
        self.map@
    }
}

impl CandidateSet {
    /// The candidates stand in the order of their canonical strings, each under its own.
    #[verifier::type_invariant]
    pub closed spec fn wf(&self) -> bool {
        &&& self.map.wf()
        &&& forall|i: int|
            0 <= i < self.map.keys().len() ==> #[trigger] self.map.keys()[i]
                == self.map.values()[i]@.canonical()
    }

    /// The candidates in the order in which the set lists them.
    pub closed spec fn listing(&self) -> Seq<MaybeLibraryView> {
        Seq::new(self.map.values().len(), |i: int| self.map.values()[i]@)
    }

    /// The set is tidy, and it lists its candidates by increasing canonical string.
    pub proof fn lemma_listing(&self)
        requires
            self.wf(),
        ensures
            candidates_tidy(self@),
            self@.len() == self.listing().len(),
            lists(canonicals(self.listing()), self@.dom()),
            forall|i: int|
                0 <= i < self.listing().len() ==> self@[(#[trigger] self.listing()[i]).canonical()]
                    == self.listing()[i],
    {
        self.map.lemma_domain();
        assert(canonicals(self.listing()) =~= self.map.keys());
        assert forall|k: Seq<char>| #[trigger] self@.contains_key(k) implies self@[k].canonical()
            == k by {
            let i = self.map.keys().index_of(k);
            self.map.lemma_entry(i);
        }
        assert forall|i: int| 0 <= i < self.listing().len() implies self@[(
        #[trigger] self.listing()[i]).canonical()] == self.listing()[i] by {
            self.map.lemma_entry(i);
        }
    }

    /// What a set holds fixes how it lists it: two sets of the same
    /// candidates list them in the same order.
    pub proof fn lemma_same_listing(&self, other: &CandidateSet)
        requires
            self.wf(),
            other.wf(),
            self@ == other@,
        ensures
            self.listing() == other.listing(),
    {
        self.lemma_listing();
        other.lemma_listing();
        lemma_lists_unique(canonicals(self.listing()), canonicals(other.listing()), self@.dom());
        assert forall|i: int| 0 <= i < self.listing().len() implies self.listing()[i]
            == other.listing()[i] by {
            assert(canonicals(self.listing())[i] == canonicals(other.listing())[i]);
        }
        assert(canonicals(self.listing()).len() == canonicals(other.listing()).len());
        assert(self.listing() =~= other.listing());
    }

    /// The empty set.
    pub fn new() -> (r: CandidateSet)
        ensures
            r.wf(),
            r@ == CandidatesView::empty(),
    {
        CandidateSet { map: SortedMap::new() }
    }

    /// How many candidates the set holds.
    pub fn len(&self) -> (r: usize)
        ensures
            r == self@.len(),
            r == self.listing().len(),
    {
        proof {
            use_type_invariant(self);
            self.lemma_listing();
        }
        self.map.len()
    }

    /// Whether the set holds nothing.
    pub fn is_empty(&self) -> (r: bool)
        ensures
            r == !inhabited(self@),
    {
        proof {
            use_type_invariant(self);
            if self.map.keys().len() > 0 {
                self.map.lemma_entry(0);
            }
        }
        self.map.len() == 0
    }

    /// The candidate at place `i` of the listing, if the listing is that long.
    pub fn get(&self, i: usize) -> (r: Option<&MaybeLibrary>)
        ensures
            match r {
                Some(c) => i < self.listing().len() && c@ == self.listing()[i as int],
                None => i >= self.listing().len(),
            },
    {
        proof {
            use_type_invariant(self);
        }
        if i < self.map.len() {
            Some(self.map.value(i))
        } else {
            None
        }
    }

    /// Whether the set holds a candidate with the canonical string of `library`.
    pub fn contains(&self, library: &MaybeLibrary) -> (r: bool)
        ensures
            r == self@.contains_key(library@.canonical()),
    {
        proof {
            use_type_invariant(self);
        }
        let key = library.canonical();
        self.map.find(key.as_str()).is_ok()
    }

    /// Puts `library` into the set, unless a candidate with the same
    /// canonical string is there, which stays. Says whether it was put in.
    pub fn insert(&mut self, library: MaybeLibrary) -> (fresh: bool)
        ensures
            final(self).wf(),
            final(self)@ == candidates_insert(old(self)@, library@),
            fresh == !old(self)@.contains_key(library@.canonical()),
    {
        proof {
            use_type_invariant(&*self);
        }
        let key = library.canonical();
        let mut map = SortedMap::new();
        std::mem::swap(&mut map, &mut self.map);
        let fresh = match map.find(key.as_str()) {
            Ok(_) => false,
            Err(i) => {
                map.insert_at(i, key, library);
                true
            },
        };
        self.map = map;
        fresh
    }
}

/// The candidate sets of one plugin, by toolchain.
#[derive(Debug)]
pub struct LazyToolchainMap {
    map: SortedMap<CandidateSet>,
}

impl View for LazyToolchainMap {
    type V = ToolchainsView;

    closed spec fn view(&self) -> ToolchainsView {
        self.map@
    }
}

impl LazyToolchainMap {
    /// The toolchains stand in increasing order, each with a set that is not empty.
    #[verifier::type_invariant]
    pub closed spec fn wf(&self) -> bool {
        &&& self.map.wf()
        &&& forall|i: int|
            0 <= i < self.map.values().len() ==> (#[trigger] self.map.values()[i]).wf() && inhabited(
                self.map.values()[i]@,
            )
    }

    /// The toolchains in the order in which the map lists them.
    pub closed spec fn toolchains(&self) -> Seq<Seq<char>> {
        self.map.keys()
    }

    /// The map is tidy, and it lists its toolchains in increasing order.
    pub proof fn lemma_listing(&self)
        requires
            self.wf(),
        ensures
            toolchains_tidy(self@),
            self@.len() == self.toolchains().len(),
            lists(self.toolchains(), self@.dom()),
    {
        self.map.lemma_domain();
        assert forall|k: Seq<char>| #[trigger] self@.contains_key(k) implies candidates_tidy(
            self@[k],
        ) && inhabited(self@[k]) by {
            let i = self.map.keys().index_of(k);
            self.map.lemma_entry(i);
            self.map.values()[i].lemma_listing();
        }
    }

    /// What a map holds fixes how it lists it: two maps of the same
    /// content list the same toolchains in the same order.
    pub proof fn lemma_same_listing(&self, other: &LazyToolchainMap)
        requires
            self.wf(),
            other.wf(),
            self@ == other@,
        ensures
            self.toolchains() == other.toolchains(),
    {
        self.lemma_listing();
        other.lemma_listing();
        lemma_lists_unique(self.toolchains(), other.toolchains(), self@.dom());
    }

    /// The map of no toolchain.
    pub fn new() -> (r: LazyToolchainMap)
        ensures
            r.wf(),
            r@ == ToolchainsView::empty(),
    {
        LazyToolchainMap { map: SortedMap::new() }
    }

    /// How many toolchains the map holds.
    pub fn len(&self) -> (r: usize)
        ensures
            r == self@.len(),
            r == self.toolchains().len(),
    {
        proof {
            use_type_invariant(self);
        }
        self.map.len()
    }

    /// The toolchain at place `i` of the listing with its candidates, if the listing is that long.
    pub fn entry(&self, i: usize) -> (r: Option<(&String, &CandidateSet)>)
        ensures
            match r {
                Some((toolchain, candidates)) => {
                    &&& i < self.toolchains().len()
                    &&& toolchain@ == self.toolchains()[i as int]
                    &&& self@.contains_key(toolchain@)
                    &&& candidates@ == self@[toolchain@]
                    &&& candidates.wf()
                },
                None => i >= self.toolchains().len(),
            },
    {
        proof {
            use_type_invariant(self);
        }
        if i < self.map.len() {
            proof {
                self.map.lemma_entry(i as int);
            }
            Some((self.map.key(i), self.map.value(i)))
        } else {
            None
        }
    }

    /// The candidates known for `toolchain`, if there are any.
    pub fn get(&self, toolchain: &str) -> (r: Option<&CandidateSet>)
        ensures
            match r {
                Some(candidates) => {
                    &&& self@.contains_key(toolchain@)
                    &&& candidates@ == self@[toolchain@]
                    &&& candidates.wf()
                },
                None => !self@.contains_key(toolchain@),
            },
    {
        proof {
            use_type_invariant(self);
        }
        match self.map.find(toolchain) {
            Ok(i) => Some(self.map.value(i)),
            Err(_) => None,
        }
    }

    /// Puts `library` into the set of `toolchain`, which is made if there
    /// is none. Says whether the candidate was put in.
    pub fn insert(&mut self, toolchain: String, library: MaybeLibrary) -> (fresh: bool)
        ensures
            final(self).wf(),
            final(self)@ == toolchains_insert(old(self)@, toolchain@, library@),
            fresh == !(old(self)@.contains_key(toolchain@) && old(self)@[toolchain@].contains_key(
                library@.canonical(),
            )),
    {
        proof {
            use_type_invariant(&*self);
        }
        let mut map = SortedMap::new();
        std::mem::swap(&mut map, &mut self.map);
        let ghost before = map;
        let fresh = match map.find(toolchain.as_str()) {
            Ok(i) => {
                proof {
                    before.lemma_entry(i as int);
                }
                let candidates = map.value_mut(i);
                let fresh = candidates.insert(library);
                proof {
                    before.lemma_update(&map, i as int);
                    assert(map.values()[i as int]@.contains_key(library@.canonical()));
                    assert forall|j: int| 0 <= j < map.values().len() implies (
                    #[trigger] map.values()[j]).wf() && inhabited(map.values()[j]@) by {
                        if j != i {
                            assert(map.values()[j] == before.values()[j]);
                        }
                    }
                }
                fresh
            },
            Err(i) => {
                let mut candidates = CandidateSet::new();
                candidates.insert(library);
                assert(candidates@.contains_key(library@.canonical()));
                map.insert_at(i, toolchain, candidates);
                proof {
                    assert forall|j: int| 0 <= j < map.values().len() implies (
                    #[trigger] map.values()[j]).wf() && inhabited(map.values()[j]@) by {
                        if j < i {
                            assert(map.values()[j] == before.values()[j]);
                        } else if j > i {
                            assert(map.values()[j] == before.values()[j - 1]);
                        }
                    }
                }
                true
            },
        };
        assert(map@ =~= toolchains_insert(before@, toolchain@, library@));
        self.map = map;
        fresh
    }
}

/// The resolution index: the candidate sets of every plugin, by name and by toolchain.
#[derive(Debug)]
pub struct NameToolchainMap {
    map: SortedMap<LazyToolchainMap>,
}

impl View for NameToolchainMap {
    type V = IndexView;

    closed spec fn view(&self) -> IndexView {
        self.map@
    }
}

impl NameToolchainMap {
    /// The names stand in increasing order, each with a map of toolchains that is not empty.
    #[verifier::type_invariant]
    pub closed spec fn wf(&self) -> bool {
        &&& self.map.wf()
        &&& forall|i: int|
            0 <= i < self.map.values().len() ==> (#[trigger] self.map.values()[i]).wf() && inhabited(
                self.map.values()[i]@,
            )
    }

    /// The names in the order in which the index lists them.
    pub closed spec fn names(&self) -> Seq<Seq<char>> {
        self.map.keys()
    }

    /// The index is tidy, and it lists its names in increasing order.
    pub proof fn lemma_listing(&self)
        requires
            self.wf(),
        ensures
            index_tidy(self@),
            self@.len() == self.names().len(),
            lists(self.names(), self@.dom()),
    {
        self.map.lemma_domain();
        assert forall|k: Seq<char>| #[trigger] self@.contains_key(k) implies toolchains_tidy(
            self@[k],
        ) && inhabited(self@[k]) by {
            let i = self.map.keys().index_of(k);
            self.map.lemma_entry(i);
            self.map.values()[i].lemma_listing();
        }
    }

    /// What an index holds fixes how it lists it: two indexes of the
    /// same content list the same names in the same order.
    pub proof fn lemma_same_listing(&self, other: &NameToolchainMap)
        requires
            self.wf(),
            other.wf(),
            self@ == other@,
        ensures
            self.names() == other.names(),
    {
        self.lemma_listing();
        other.lemma_listing();
        lemma_lists_unique(self.names(), other.names(), self@.dom());
    }

    /// The index of nothing.
    pub fn new() -> (r: NameToolchainMap)
        ensures
            r.wf(),
            r@ == IndexView::empty(),
            index_tidy(r@),
    {
        let r = NameToolchainMap { map: SortedMap::new() };
        proof {
            r.lemma_listing();
        }
        r
    }

    /// How many names the index holds.
    pub fn len(&self) -> (r: usize)
        ensures
            r == self@.len(),
            r == self.names().len(),
    {
        proof {
            use_type_invariant(self);
        }
        self.map.len()
    }

    /// Whether the index holds nothing.
    pub fn is_empty(&self) -> (r: bool)
        ensures
            r == (self@ == IndexView::empty()),
    {
        proof {
            use_type_invariant(self);
            if self.map.keys().len() > 0 {
                self.map.lemma_entry(0);
            } else {
                assert(self@ =~= IndexView::empty());
            }
        }
        self.map.len() == 0
    }

    /// The name at place `i` of the listing with its toolchains, if the listing is that long.
    pub fn entry(&self, i: usize) -> (r: Option<(&String, &LazyToolchainMap)>)
        ensures
            match r {
                Some((name, toolchains)) => {
                    &&& i < self.names().len()
                    &&& name@ == self.names()[i as int]
                    &&& self@.contains_key(name@)
                    &&& toolchains@ == self@[name@]
                    &&& toolchains.wf()
                },
                None => i >= self.names().len(),
            },
    {
        proof {
            use_type_invariant(self);
        }
        if i < self.map.len() {
            proof {
                self.map.lemma_entry(i as int);
            }
            Some((self.map.key(i), self.map.value(i)))
        } else {
            None
        }
    }

    /// The toolchains known for the plugin `name`, if there are any.
    pub fn get(&self, name: &str) -> (r: Option<&LazyToolchainMap>)
        ensures
            match r {
                Some(toolchains) => {
                    &&& self@.contains_key(name@)
                    &&& toolchains@ == self@[name@]
                    &&& toolchains.wf()
                },
                None => !self@.contains_key(name@),
            },
    {
        proof {
            use_type_invariant(self);
        }
        match self.map.find(name) {
            Ok(i) => Some(self.map.value(i)),
            Err(_) => None,
        }
    }

    /// Puts `library` under `name` and `toolchain`: gets or makes the
    /// entry of the name, in it gets or makes the entry of the toolchain,
    /// and puts the candidate into that set. Says whether it was put in.
    pub fn insert(&mut self, name: String, toolchain: String, library: MaybeLibrary) -> (fresh: bool)
        ensures
            final(self).wf(),
            index_tidy(final(self)@),
            final(self)@ == index_insert(old(self)@, name@, toolchain@, library@),
            fresh == !index_holds(old(self)@, name@, toolchain@, library@.canonical()),
    {
        proof {
            use_type_invariant(&*self);
        }
        let mut map = SortedMap::new();
        std::mem::swap(&mut map, &mut self.map);
        let ghost before = map;
        let fresh = match map.find(name.as_str()) {
            Ok(i) => {
                proof {
                    before.lemma_entry(i as int);
                }
                let toolchains = map.value_mut(i);
                let fresh = toolchains.insert(toolchain, library);
                proof {
                    before.lemma_update(&map, i as int);
                    assert(map.values()[i as int]@.contains_key(toolchain@));
                    assert forall|j: int| 0 <= j < map.values().len() implies (
                    #[trigger] map.values()[j]).wf() && inhabited(map.values()[j]@) by {
                        if j != i {
                            assert(map.values()[j] == before.values()[j]);
                        }
                    }
                }
                fresh
            },
            Err(i) => {
                let mut toolchains = LazyToolchainMap::new();
                toolchains.insert(toolchain, library);
                assert(toolchains@.contains_key(toolchain@));
                map.insert_at(i, name, toolchains);
                proof {
                    assert forall|j: int| 0 <= j < map.values().len() implies (
                    #[trigger] map.values()[j]).wf() && inhabited(map.values()[j]@) by {
                        if j < i {
                            assert(map.values()[j] == before.values()[j]);
                        } else if j > i {
                            assert(map.values()[j] == before.values()[j - 1]);
                        }
                    }
                }
                true
            },
        };
        assert(map@ =~= index_insert(before@, name@, toolchain@, library@));
        self.map = map;
        proof {
            self.lemma_listing();
        }
        fresh
    }
}

} // verus!
