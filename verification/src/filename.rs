//! The naming convention of plugin libraries.
//!
//! A library's file name is a prefix, the plugin's name, the delimiter
//! `@`, the toolchain, and a suffix: `libmylint@nightly-2024-01-01.so`
//! names the plugin `mylint` built for `nightly-2024-01-01` where the
//! prefix is `lib` and the suffix `.so`. The plugin's name holds no `@`;
//! the toolchain may.

use vstd::prelude::*;
use vstd::std_specs::iter::IteratorSpec;
use vstd::string::StrSliceExecFns;
use crate::order::{compare, lemma_order_of, Order};

verus! {

broadcast use vstd::string::group_string_axioms;

/// What stands before the plugin's name in a file name, and what ends it.
#[derive(Clone, Debug)]
pub struct Naming {
    pub prefix: String,
    pub suffix: String,
}

/// A `Naming` as two sequences of characters.
pub struct NamingView {
    pub prefix: Seq<char>,
    pub suffix: Seq<char>,
}

impl View for Naming {
    type V = NamingView;

    open spec fn view(&self) -> NamingView {
        NamingView { prefix: self.prefix@, suffix: self.suffix@ }
    }
}

/// The file name of the library of plugin `name` for `toolchain`.
pub open spec fn spell(naming: NamingView, name: Seq<char>, toolchain: Seq<char>) -> Seq<char> {
    naming.prefix + name + seq!['@'] + toolchain + naming.suffix
}

/// `i` is the place of the first `@` in `s`.
pub open spec fn first_delimiter(s: Seq<char>, i: int) -> bool {
    &&& 0 <= i < s.len()
    &&& s[i] == '@'
    &&& forall|j: int| 0 <= j < i ==> s[j] != '@'
}

/// `file_name` begins with the prefix and ends with the suffix, the two not overlapping.
pub open spec fn framed(file_name: Seq<char>, naming: NamingView) -> bool {
    let n = file_name.len();
    &&& naming.prefix.len() + naming.suffix.len() <= n
    &&& file_name.subrange(0, naming.prefix.len() as int) == naming.prefix
    &&& file_name.subrange(n - naming.suffix.len(), n as int) == naming.suffix
}

/// What is left of a framed file name without its prefix and suffix.
pub open spec fn stem(file_name: Seq<char>, naming: NamingView) -> Seq<char> {
    file_name.subrange(naming.prefix.len() as int, file_name.len() - naming.suffix.len())
}

/// The plugin's name and the toolchain that `file_name` spells, if it
/// follows the convention: the stem, split at its first `@`.
pub open spec fn parse_file_name(file_name: Seq<char>, naming: NamingView) -> Option<
    (Seq<char>, Seq<char>),
> {
    let stem = stem(file_name, naming);
    if framed(file_name, naming) && stem.contains('@') {
        let at = choose|i: int| first_delimiter(stem, i);
        Some((stem.take(at), stem.skip(at + 1)))
    } else {
        None
    }
}

/// In a sequence that holds an `@` there is a first one, and only one place is the first.
pub proof fn lemma_first_delimiter(s: Seq<char>)
    requires
        s.contains('@'),
    ensures
        first_delimiter(s, choose|i: int| first_delimiter(s, i)),
        forall|i: int| first_delimiter(s, i) ==> i == choose|i: int| first_delimiter(s, i),
{
    let k = choose|k: int| 0 <= k < s.len() && s[k] == '@';
    lemma_first_before(s, k);
    let c = choose|i: int| first_delimiter(s, i);
    assert forall|i: int| first_delimiter(s, i) implies i == c by {
        if i < c {
            assert(s[i] != '@');
        } else if c < i {
            assert(s[c] != '@');
        }
    }
}

proof fn lemma_first_before(s: Seq<char>, k: int)
    requires
        0 <= k < s.len(),
        s[k] == '@',
    ensures
        exists|i: int| first_delimiter(s, i),
    decreases k,
{
    if exists|j: int| 0 <= j < k && s[j] == '@' {
        let j = choose|j: int| 0 <= j < k && s[j] == '@';
        lemma_first_before(s, j);
    } else {
        assert(first_delimiter(s, k));
    }
}

/// What a file name parses to, it spells; and the name so found holds no `@`.
pub proof fn lemma_parsed_spells(file_name: Seq<char>, naming: NamingView)
    requires
        parse_file_name(file_name, naming) is Some,
    ensures
        ({
            let (name, toolchain) = parse_file_name(file_name, naming)->0;
            &&& file_name == spell(naming, name, toolchain)
            &&& !name.contains('@')
        }),
{
    let stem = stem(file_name, naming);
    lemma_first_delimiter(stem);
    let at = choose|i: int| first_delimiter(stem, i);
    let (name, toolchain) = parse_file_name(file_name, naming)->0;
    assert(stem =~= name + seq!['@'] + toolchain);
    assert(file_name =~= naming.prefix + stem + naming.suffix);
    assert(file_name =~= spell(naming, name, toolchain));
    if name.contains('@') {
        let j = choose|j: int| 0 <= j < name.len() && name[j] == '@';
        assert(stem[j] == '@');
    }
}

/// Every file name that the convention can spell parses; and it parses to
/// the name it was spelled with where that name holds no `@`.
pub proof fn lemma_spelled_parses(naming: NamingView, name: Seq<char>, toolchain: Seq<char>)
    ensures
        parse_file_name(spell(naming, name, toolchain), naming) is Some,
        !name.contains('@') ==> parse_file_name(spell(naming, name, toolchain), naming) == Some(
            (name, toolchain),
        ),
{
    let file_name = spell(naming, name, toolchain);
    let stem = stem(file_name, naming);
    let mid = name + seq!['@'] + toolchain;
    assert(file_name.subrange(0, naming.prefix.len() as int) =~= naming.prefix);
    assert(file_name.subrange(file_name.len() - naming.suffix.len(), file_name.len() as int)
        =~= naming.suffix);
    assert(stem =~= mid);
    assert(mid[name.len() as int] == '@');
    assert(stem.contains('@'));
    lemma_first_delimiter(stem);
    if !name.contains('@') {
        assert forall|j: int| 0 <= j < name.len() implies stem[j] != '@' by {
            assert(name.contains(name[j]));
        }
        assert(first_delimiter(stem, name.len() as int));
        assert(stem.take(name.len() as int) =~= name);
        assert(stem.skip(name.len() as int + 1) =~= toolchain);
    }
}

/// The place of the first `@` in `s`, if it holds one.
fn find_delimiter(s: &str) -> (r: Option<usize>)
    ensures
        match r {
            Some(i) => first_delimiter(s@, i as int),
            None => !s@.contains('@'),
        },
{
    let n: usize = s.unicode_len();
    let mut chars = s.chars();
    let mut i: usize = 0;
    loop
        invariant
            i <= n,
            n == s@.len(),
            chars.obeys_prophetic_iter_laws(),
            chars.remaining() == s@.skip(i as int),
            forall|j: int| 0 <= j < i ==> s@[j] != '@',
        decreases n - i,
    {
        match chars.next() {
            None => {
                return None;
            },
            Some(c) => {
                assert(c == s@[i as int]);
                if c == '@' {
                    return Some(i);
                }
                proof {
                    assert(s@.skip(i as int).drop_first() =~= s@.skip(i + 1));
                }
                i = i + 1;
            },
        }
    }
}

/// Takes a file name apart by the convention: the plugin's name and the
/// toolchain, or `None` for a file name that the convention does not spell.
pub fn parse_filename(file_name: &str, naming: &Naming) -> (r: Option<(String, String)>)
    ensures
        match r {
            Some((name, toolchain)) => {
                &&& parse_file_name(file_name@, naming@) == Some((name@, toolchain@))
                &&& file_name@ == spell(naming@, name@, toolchain@)
                &&& !name@.contains('@')
            },
            None => {
                &&& parse_file_name(file_name@, naming@) is None
                &&& forall|name: Seq<char>, toolchain: Seq<char>|
                    file_name@ != #[trigger] spell(naming@, name, toolchain)
            },
        },
{
    proof {
        assert forall|name: Seq<char>, toolchain: Seq<char>|
            parse_file_name(file_name@, naming@) is None implies file_name@ != #[trigger] spell(
            naming@,
            name,
            toolchain,
        ) by {
            lemma_spelled_parses(naming@, name, toolchain);
        }
        if parse_file_name(file_name@, naming@) is Some {
            lemma_parsed_spells(file_name@, naming@);
        }
    }
    let n: usize = file_name.unicode_len();
    let p: usize = naming.prefix.as_str().unicode_len();
    let s: usize = naming.suffix.as_str().unicode_len();
    if n < p || n - p < s {
        return None;
    }
    let head = file_name.substring_char(0, p);
    let tail = file_name.substring_char(n - s, n);
    proof {
        lemma_order_of(head@, naming.prefix@);
        lemma_order_of(tail@, naming.suffix@);
    }
    match compare(head, naming.prefix.as_str()) {
        Order::Equal => {},
        _ => {
            return None;
        },
    }
    match compare(tail, naming.suffix.as_str()) {
        Order::Equal => {},
        _ => {
            return None;
        },
    }
    let stem = file_name.substring_char(p, n - s);
    match find_delimiter(stem) {
        None => None,
        Some(at) => {
            proof {
                lemma_first_delimiter(stem@);
            }
            let name = stem.substring_char(0, at).to_owned();
            let toolchain = stem.substring_char(at + 1, n - s - p).to_owned();
            assert(name@ =~= stem@.take(at as int));
            assert(toolchain@ =~= stem@.skip(at + 1));
            Some((name, toolchain))
        },
    }
}

} // verus!
