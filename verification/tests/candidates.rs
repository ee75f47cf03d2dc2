use std::cmp::Ordering;
use name_toolchain_map::{CandidateSet, LazyToolchainMap, MaybeLibrary, NameToolchainMap, Package};

fn package(lib_name: &str, toolchain: &str, location: &str) -> Package {
    Package {
        lib_name: lib_name.to_string(),
        toolchain: toolchain.to_string(),
        location: location.to_string(),
    }
}

fn path(p: &str) -> MaybeLibrary {
    MaybeLibrary::from_path(p.to_string())
}

fn canonicals(set: &CandidateSet) -> Vec<String> {
    let mut all = Vec::new();
    let mut i = 0;
    while let Some(candidate) = set.get(i) {
        all.push(candidate.canonical());
        i += 1;
    }
    assert_eq!(all.len(), set.len());
    all
}

fn names(map: &NameToolchainMap) -> Vec<String> {
    let mut all = Vec::new();
    let mut i = 0;
    while let Some((name, _)) = map.entry(i) {
        all.push(name.clone());
        i += 1;
    }
    assert_eq!(all.len(), map.len());
    all
}

fn toolchains(map: &LazyToolchainMap) -> Vec<String> {
    let mut all = Vec::new();
    let mut i = 0;
    while let Some((toolchain, _)) = map.entry(i) {
        all.push(toolchain.clone());
        i += 1;
    }
    assert_eq!(all.len(), map.len());
    all
}

#[test]
fn the_canonical_string_of_a_path_is_the_path() {
    assert_eq!(path("/plugins/libmylint@tc.so").canonical(), "/plugins/libmylint@tc.so");
    assert_eq!(path("").canonical(), "");
}

#[test]
fn the_canonical_string_of_a_package_joins_its_fields() {
    let p = package("mylint", "nightly", "/ws/target");
    assert_eq!(p.canonical(), "/ws/target/mylint@nightly");
    assert_eq!(MaybeLibrary::from_package(p).canonical(), "/ws/target/mylint@nightly");
    assert_eq!(package("", "", "").canonical(), "/@");
}

#[test]
fn candidates_are_equal_where_their_canonical_strings_are() {
    assert_eq!(path("/a"), path("/a"));
    assert_ne!(path("/a"), path("/b"));
    let by_package = MaybeLibrary::from_package(package("mylint", "tc", "/ws"));
    assert_eq!(by_package, path("/ws/mylint@tc"));
    assert_ne!(by_package, path("/ws/mylint@other"));
    assert_eq!(by_package, MaybeLibrary::from_package(package("mylint", "tc", "/ws")));
    assert_ne!(by_package, MaybeLibrary::from_package(package("mylint", "tc", "/elsewhere")));
}

#[test]
fn path_is_there_for_a_path_only() {
    assert_eq!(path("/a").path(), Some(&"/a".to_string()));
    assert_eq!(MaybeLibrary::from_package(package("n", "t", "/l")).path(), None);
}

#[test]
fn duplicate_gives_an_equal_candidate() {
    let p = MaybeLibrary::from_package(package("n", "t", "/l"));
    let q = p.duplicate();
    assert_eq!(p, q);
    assert!(matches!(q, MaybeLibrary::Descriptor(_)));
    assert!(matches!(path("/x").duplicate(), MaybeLibrary::Path(_)));
    assert_eq!(package("n", "t", "/l").duplicate().canonical(), "/l/n@t");
}

#[test]
fn a_set_lists_its_candidates_in_order_and_once() {
    let mut set = CandidateSet::new();
    assert!(set.is_empty());
    assert_eq!(set.len(), 0);
    assert!(set.get(0).is_none());
    assert!(set.insert(path("/m")));
    assert!(set.insert(path("/z")));
    assert!(set.insert(path("/a")));
    assert!(!set.insert(path("/m")));
    assert!(set.insert(path("/ab")));
    assert!(!set.is_empty());
    assert_eq!(canonicals(&set), vec!["/a", "/ab", "/m", "/z"]);
    assert!(set.contains(&path("/ab")));
    assert!(!set.contains(&path("/b")));
    assert!(set.get(4).is_none());
}

#[test]
fn the_candidate_that_came_first_stays() {
    let mut set = CandidateSet::new();
    assert!(set.insert(path("/ws/mylint@tc")));
    assert!(!set.insert(MaybeLibrary::from_package(package("mylint", "tc", "/ws"))));
    assert_eq!(set.len(), 1);
    assert!(matches!(set.get(0), Some(MaybeLibrary::Path(_))));

    let mut set = CandidateSet::new();
    assert!(set.insert(MaybeLibrary::from_package(package("mylint", "tc", "/ws"))));
    assert!(!set.insert(path("/ws/mylint@tc")));
    assert_eq!(set.len(), 1);
    assert!(matches!(set.get(0), Some(MaybeLibrary::Descriptor(_))));
    assert!(set.contains(&path("/ws/mylint@tc")));
}

#[test]
fn a_path_and_a_package_for_one_place_are_both_kept() {
    let mut map = NameToolchainMap::new();
    assert!(map.insert("mylint".to_string(), "tc".to_string(), path("/plugins/libmylint@tc.so")));
    assert!(map.insert(
        "mylint".to_string(),
        "tc".to_string(),
        MaybeLibrary::from_package(package("mylint", "tc", "/ws/target")),
    ));
    let set = map.get("mylint").unwrap().get("tc").unwrap();
    assert_eq!(canonicals(set), vec!["/plugins/libmylint@tc.so", "/ws/target/mylint@tc"]);
}

#[test]
fn a_path_and_a_package_with_one_canonical_string_are_one() {
    let mut map = NameToolchainMap::new();
    assert!(map.insert("mylint".to_string(), "tc".to_string(), path("/ws/target/mylint@tc")));
    assert!(!map.insert(
        "mylint".to_string(),
        "tc".to_string(),
        MaybeLibrary::from_package(package("mylint", "tc", "/ws/target")),
    ));
    let set = map.get("mylint").unwrap().get("tc").unwrap();
    assert_eq!(canonicals(set), vec!["/ws/target/mylint@tc"]);
}

#[test]
fn the_same_candidate_under_another_toolchain_is_another_entry() {
    let mut map = NameToolchainMap::new();
    assert!(map.insert("mylint".to_string(), "tc-1".to_string(), path("/p/x")));
    assert!(map.insert("mylint".to_string(), "tc-2".to_string(), path("/p/x")));
    assert!(map.insert("other".to_string(), "tc-1".to_string(), path("/p/x")));
    assert!(!map.insert("other".to_string(), "tc-1".to_string(), path("/p/x")));
    assert_eq!(names(&map), vec!["mylint", "other"]);
    assert_eq!(toolchains(map.get("mylint").unwrap()), vec!["tc-1", "tc-2"]);
    assert_eq!(toolchains(map.get("other").unwrap()), vec!["tc-1"]);
}

#[test]
fn the_index_lists_names_and_toolchains_in_order() {
    let mut map = NameToolchainMap::new();
    assert!(map.is_empty());
    for (name, toolchain, p) in [
        ("zeta", "stable", "/1"),
        ("alpha", "nightly", "/2"),
        ("mid", "beta", "/3"),
        ("alpha", "beta", "/4"),
        ("alpha", "nightly", "/0"),
        ("alpha", "1.70", "/5"),
    ] {
        assert!(map.insert(name.to_string(), toolchain.to_string(), path(p)));
    }
    assert!(!map.is_empty());
    assert_eq!(map.len(), 3);
    assert_eq!(names(&map), vec!["alpha", "mid", "zeta"]);
    let alpha = map.get("alpha").unwrap();
    assert_eq!(alpha.len(), 3);
    assert_eq!(toolchains(alpha), vec!["1.70", "beta", "nightly"]);
    assert_eq!(canonicals(alpha.get("nightly").unwrap()), vec!["/0", "/2"]);
    assert!(map.get("beta").is_none());
    assert!(alpha.get("stable").is_none());
    assert!(map.entry(3).is_none());
    assert!(alpha.entry(3).is_none());
}

#[test]
fn no_entry_of_the_index_is_empty() {
    let mut map = NameToolchainMap::new();
    for (name, toolchain, p) in
        [("a", "t1", "/1"), ("a", "t2", "/2"), ("b", "t1", "/3"), ("a", "t1", "/1"), ("c", "", "")]
    {
        map.insert(name.to_string(), toolchain.to_string(), path(p));
    }
    let mut i = 0;
    while let Some((_, by_toolchain)) = map.entry(i) {
        assert!(by_toolchain.len() > 0);
        let mut j = 0;
        while let Some((_, set)) = by_toolchain.entry(j) {
            assert!(!set.is_empty());
            assert!(set.len() > 0);
            j += 1;
        }
        i += 1;
    }
    assert_eq!(i, 3);
}

#[test]
fn the_order_of_insertion_does_not_show() {
    let items = [
        ("b", "t2", "/4"),
        ("a", "t1", "/2"),
        ("b", "t1", "/3"),
        ("a", "t1", "/1"),
        ("a", "t0", "/9"),
    ];
    let mut forward = NameToolchainMap::new();
    for (name, toolchain, p) in items {
        forward.insert(name.to_string(), toolchain.to_string(), path(p));
    }
    let mut backward = NameToolchainMap::new();
    for (name, toolchain, p) in items.iter().rev() {
        backward.insert(name.to_string(), toolchain.to_string(), path(p));
    }
    assert_eq!(format!("{:?}", forward), format!("{:?}", backward));
}

#[test]
fn candidates_are_ordered_as_their_canonical_strings() {
    assert!(path("/a") < path("/b"));
    assert!(path("/b") > path("/a"));
    assert!(path("/a") <= path("/a"));
    assert!(path("/a") < path("/a/b"));
    assert_eq!(path("/a").partial_cmp(&path("/a")), Some(Ordering::Equal));
    let by_package = MaybeLibrary::from_package(package("mylint", "tc", "/ws"));
    assert_eq!(by_package.partial_cmp(&path("/ws/mylint@tc")), Some(Ordering::Equal));
    assert_eq!(by_package.partial_cmp(&path("/ws/mylint@td")), Some(Ordering::Less));
    assert_eq!(by_package.partial_cmp(&path("/ws/mylint")), Some(Ordering::Greater));
}

fn listed(paths: &name_toolchain_map::PathSet) -> Vec<String> {
    let mut all = Vec::new();
    let mut i = 0;
    while let Some(p) = paths.get(i) {
        all.push(p.clone());
        i += 1;
    }
    assert_eq!(all.len(), paths.len());
    all
}

#[test]
fn the_flattened_index_holds_the_paths_by_name() {
    let mut map = NameToolchainMap::new();
    assert!(map.paths().is_empty());
    map.insert("b".to_string(), "t2".to_string(), path("/two/b"));
    map.insert("a".to_string(), "t2".to_string(), path("/z/a"));
    map.insert("a".to_string(), "t1".to_string(), path("/one/a"));
    map.insert("a".to_string(), "t1".to_string(), path("/z/a"));
    map.insert(
        "a".to_string(),
        "t1".to_string(),
        MaybeLibrary::from_package(package("a", "t1", "/ws")),
    );
    map.insert(
        "only-described".to_string(),
        "t1".to_string(),
        MaybeLibrary::from_package(package("only-described", "t1", "/ws")),
    );
    let flat = map.paths();
    assert!(!flat.is_empty());
    assert_eq!(flat.len(), 2);
    assert_eq!(flat.entry(0).unwrap().0, "a");
    assert_eq!(flat.entry(1).unwrap().0, "b");
    assert!(flat.entry(2).is_none());
    assert_eq!(listed(flat.get("a").unwrap()), vec!["/one/a", "/z/a"]);
    assert_eq!(listed(flat.get("b").unwrap()), vec!["/two/b"]);
    assert!(flat.get("only-described").is_none());
    assert!(flat.get("a").unwrap().contains("/z/a"));
    assert!(!flat.get("a").unwrap().contains("/ws/a@t1"));
}

#[test]
fn paths_go_into_a_toolchain_map_once_and_in_order() {
    let mut flat = name_toolchain_map::ToolchainMap::new();
    assert!(flat.insert("n".to_string(), "/b".to_string()));
    assert!(flat.insert("n".to_string(), "/a".to_string()));
    assert!(!flat.insert("n".to_string(), "/b".to_string()));
    assert!(flat.insert("m".to_string(), "/b".to_string()));
    assert_eq!(flat.len(), 2);
    assert_eq!(listed(flat.get("n").unwrap()), vec!["/a", "/b"]);
    assert_eq!(listed(flat.get("m").unwrap()), vec!["/b"]);
    let mut paths = name_toolchain_map::PathSet::new();
    assert_eq!(paths.len(), 0);
    assert!(paths.get(0).is_none());
    assert!(paths.insert("/x".to_string()));
    assert!(!paths.insert("/x".to_string()));
    assert_eq!(listed(&paths), vec!["/x"]);
}
