use name_toolchain_map::{
    build, DirEntry, Lazy, MaybeLibrary, Naming, Options, ResolveError, SearchRoot, Survey,
    Violation,
};

fn options() -> Options {
    Options { naming: Naming { prefix: String::new(), suffix: ".lib".to_string() }, metadata: false }
}

fn entry(root: &str, file_name: &str) -> Result<DirEntry, String> {
    Ok(DirEntry { path: format!("{}/{}", root, file_name), file_name: file_name.to_string() })
}

fn root(path: &str, file_names: &[&str]) -> SearchRoot {
    SearchRoot {
        path: path.to_string(),
        is_absolute: true,
        is_dir: true,
        entries: Ok(file_names.iter().map(|name| entry(path, name)).collect()),
    }
}

#[test]
fn files_off_the_convention_are_left_out() {
    let opts = options();
    let survey =
        Survey { roots: vec![root("/plugins", &["notes.txt", "mylint@toolchain-1.lib"])], packages: vec![] };
    let map = build(&opts, &survey).unwrap();
    assert_eq!(map.len(), 1);
    let (name, toolchains) = map.entry(0).unwrap();
    assert_eq!(name, "mylint");
    assert_eq!(toolchains.len(), 1);
    let (toolchain, candidates) = toolchains.entry(0).unwrap();
    assert_eq!(toolchain, "toolchain-1");
    assert_eq!(candidates.len(), 1);
    assert_eq!(
        candidates.get(0).unwrap().path().unwrap(),
        "/plugins/mylint@toolchain-1.lib"
    );
    assert!(candidates.get(1).is_none());
    assert!(map.get("notes").is_none());
}

#[test]
fn empty_configuration_gives_an_empty_index() {
    let opts = options();
    let survey = Survey { roots: vec![], packages: vec![] };
    let map = build(&opts, &survey).unwrap();
    assert!(map.is_empty());
    assert_eq!(map.len(), 0);
    let lazy = Lazy::new(&opts);
    assert!(lazy.get_or_try_init(&survey).unwrap().is_empty());
}

#[test]
fn a_relative_root_fails_and_leaves_the_lazy_unbuilt() {
    let opts = options();
    let lazy = Lazy::new(&opts);
    let mut bad = root("plugins", &["mylint@toolchain-1.lib"]);
    bad.is_absolute = false;
    let survey = Survey { roots: vec![bad], packages: vec![] };
    let err = lazy.get_or_try_init(&survey).unwrap_err();
    assert_eq!(
        err,
        ResolveError::ConfigError { path: "plugins".to_string(), violation: Violation::NotAbsolute }
    );
    assert!(lazy.get().is_none());
    let survey =
        Survey { roots: vec![root("/plugins", &["mylint@toolchain-1.lib"])], packages: vec![] };
    let map = lazy.get_or_try_init(&survey).unwrap();
    assert_eq!(map.len(), 1);
    assert!(lazy.get().is_some());
    let _ = MaybeLibrary::from_path(String::new());
}

fn package(lib_name: &str, toolchain: &str, location: &str) -> name_toolchain_map::Package {
    name_toolchain_map::Package {
        lib_name: lib_name.to_string(),
        toolchain: toolchain.to_string(),
        location: location.to_string(),
    }
}

fn canonicals(map: &name_toolchain_map::NameToolchainMap, name: &str, toolchain: &str) -> Vec<String> {
    let set = map.get(name).unwrap().get(toolchain).unwrap();
    let mut all = Vec::new();
    let mut i = 0;
    while let Some(candidate) = set.get(i) {
        all.push(candidate.canonical());
        i += 1;
    }
    all
}

#[test]
fn a_root_that_is_no_directory_fails() {
    let opts = options();
    let mut bad = root("/missing", &[]);
    bad.is_dir = false;
    let survey = Survey { roots: vec![root("/plugins", &[]), bad], packages: vec![] };
    assert_eq!(
        build(&opts, &survey).unwrap_err(),
        ResolveError::ConfigError {
            path: "/missing".to_string(),
            violation: Violation::NotADirectory
        }
    );
}

#[test]
fn a_relative_path_is_reported_before_a_missing_directory() {
    let opts = options();
    let mut bad = root("missing", &[]);
    bad.is_absolute = false;
    bad.is_dir = false;
    let survey = Survey { roots: vec![bad], packages: vec![] };
    assert_eq!(
        build(&opts, &survey).unwrap_err(),
        ResolveError::ConfigError { path: "missing".to_string(), violation: Violation::NotAbsolute }
    );
}

#[test]
fn the_first_invalid_root_is_the_one_reported() {
    let opts = options();
    let mut first = root("/first", &[]);
    first.is_dir = false;
    let mut second = root("second", &[]);
    second.is_absolute = false;
    let survey =
        Survey { roots: vec![root("/ok", &[]), first, second], packages: vec![] };
    assert_eq!(
        build(&opts, &survey).unwrap_err(),
        ResolveError::ConfigError { path: "/first".to_string(), violation: Violation::NotADirectory }
    );
}

#[test]
fn a_listing_that_cannot_be_read_fails() {
    let opts = options();
    let mut unreadable = root("/locked", &[]);
    unreadable.entries = Err("permission denied".to_string());
    let survey = Survey {
        roots: vec![root("/plugins", &["mylint@toolchain-1.lib"]), unreadable],
        packages: vec![],
    };
    assert_eq!(
        build(&opts, &survey).unwrap_err(),
        ResolveError::IoError {
            path: "/locked".to_string(),
            cause: "permission denied".to_string()
        }
    );
}

#[test]
fn an_invalid_root_is_reported_before_an_unreadable_listing() {
    let opts = options();
    let mut unreadable = root("/locked", &[]);
    unreadable.entries = Err("permission denied".to_string());
    let mut bad = root("relative", &[]);
    bad.is_absolute = false;
    let survey = Survey { roots: vec![unreadable, bad], packages: vec![] };
    assert_eq!(
        build(&opts, &survey).unwrap_err(),
        ResolveError::ConfigError { path: "relative".to_string(), violation: Violation::NotAbsolute }
    );
}

#[test]
fn an_entry_that_cannot_be_read_is_passed_over() {
    let opts = options();
    let mut listed = root("/plugins", &["a@t.lib"]);
    if let Ok(entries) = &mut listed.entries {
        entries.insert(0, Err("stale handle".to_string()));
        entries.push(Err("stale handle".to_string()));
        entries.push(entry("/plugins", "b@t.lib"));
    }
    let survey = Survey { roots: vec![listed], packages: vec![] };
    let map = build(&opts, &survey).unwrap();
    assert_eq!(map.len(), 2);
    assert_eq!(canonicals(&map, "a", "t"), vec!["/plugins/a@t.lib"]);
    assert_eq!(canonicals(&map, "b", "t"), vec!["/plugins/b@t.lib"]);
}

#[test]
fn messages_name_the_path_and_what_is_wrong() {
    let e = ResolveError::ConfigError { path: "rel/dir".to_string(), violation: Violation::NotAbsolute };
    assert_eq!(e.message(), "DYLINT_LIBRARY_PATH contains `rel/dir`, which is not absolute");
    assert_eq!(e.path(), "rel/dir");
    let e =
        ResolveError::ConfigError { path: "/gone".to_string(), violation: Violation::NotADirectory };
    assert_eq!(e.message(), "DYLINT_LIBRARY_PATH contains `/gone`, which is not a directory");
    let e = ResolveError::IoError { path: "/locked".to_string(), cause: "permission denied".to_string() };
    assert_eq!(e.message(), "`read_dir` failed for `/locked`: permission denied");
    assert_eq!(e.path(), "/locked");
    assert_eq!(name_toolchain_map::DYLINT_LIBRARY_PATH, "DYLINT_LIBRARY_PATH");
}

#[test]
fn several_roots_are_merged() {
    let opts = options();
    let survey = Survey {
        roots: vec![
            root("/two", &["b@t1.lib", "a@t2.lib", "readme.md"]),
            root("/one", &["a@t1.lib", "a@t2.lib", "a.lib", "@.lib"]),
        ],
        packages: vec![],
    };
    let map = build(&opts, &survey).unwrap();
    assert_eq!(map.len(), 3);
    assert_eq!(map.entry(0).unwrap().0, "");
    assert_eq!(canonicals(&map, "", ""), vec!["/one/@.lib"]);
    assert_eq!(canonicals(&map, "a", "t1"), vec!["/one/a@t1.lib"]);
    assert_eq!(canonicals(&map, "a", "t2"), vec!["/one/a@t2.lib", "/two/a@t2.lib"]);
    assert_eq!(canonicals(&map, "b", "t1"), vec!["/two/b@t1.lib"]);
}

#[test]
fn a_listing_read_twice_counts_once() {
    let opts = options();
    let survey = Survey {
        roots: vec![root("/p", &["a@t.lib", "b@t.lib"]), root("/p", &["b@t.lib", "a@t.lib"])],
        packages: vec![],
    };
    let map = build(&opts, &survey).unwrap();
    assert_eq!(canonicals(&map, "a", "t"), vec!["/p/a@t.lib"]);
    assert_eq!(canonicals(&map, "b", "t"), vec!["/p/b@t.lib"]);
}

#[test]
fn the_same_survey_gives_the_same_index() {
    let opts = options();
    let make = || Survey {
        roots: vec![root("/two", &["b@t1.lib", "a@t2.lib"]), root("/one", &["a@t1.lib"])],
        packages: vec![],
    };
    let first = build(&opts, &make()).unwrap();
    let second = build(&opts, &make()).unwrap();
    assert_eq!(format!("{:?}", first), format!("{:?}", second));
    let reordered = Survey {
        roots: vec![root("/one", &["a@t1.lib"]), root("/two", &["a@t2.lib", "b@t1.lib"])],
        packages: vec![],
    };
    assert_eq!(format!("{:?}", first), format!("{:?}", build(&opts, &reordered).unwrap()));
}

#[test]
fn packages_are_added_where_the_metadata_counts() {
    let mut opts = options();
    opts.metadata = true;
    let survey = Survey {
        roots: vec![root("/plugins", &["mylint@tc.lib"])],
        packages: vec![package("mylint", "tc", "/ws/target"), package("fresh", "tc", "/ws/target")],
    };
    let map = build(&opts, &survey).unwrap();
    assert_eq!(map.len(), 2);
    assert_eq!(canonicals(&map, "mylint", "tc"), vec!["/plugins/mylint@tc.lib", "/ws/target/mylint@tc"]);
    assert_eq!(canonicals(&map, "fresh", "tc"), vec!["/ws/target/fresh@tc"]);
    let set = map.get("mylint").unwrap().get("tc").unwrap();
    assert!(matches!(set.get(0), Some(MaybeLibrary::Path(_))));
    assert!(matches!(set.get(1), Some(MaybeLibrary::Descriptor(_))));
}

#[test]
fn packages_are_left_out_where_the_metadata_does_not_count() {
    let opts = options();
    let survey = Survey {
        roots: vec![root("/plugins", &["mylint@tc.lib"])],
        packages: vec![package("mylint", "tc", "/ws/target"), package("fresh", "tc", "/ws/target")],
    };
    let map = build(&opts, &survey).unwrap();
    assert_eq!(map.len(), 1);
    assert_eq!(canonicals(&map, "mylint", "tc"), vec!["/plugins/mylint@tc.lib"]);
    let none = Survey { roots: vec![], packages: vec![package("fresh", "tc", "/ws/target")] };
    assert!(build(&opts, &none).unwrap().is_empty());
}

#[test]
fn a_package_that_stands_for_a_found_file_counts_once() {
    let mut opts = options();
    opts.naming.suffix = String::new();
    opts.metadata = true;
    let survey = Survey {
        roots: vec![root("/ws/target", &["mylint@tc"])],
        packages: vec![package("mylint", "tc", "/ws/target")],
    };
    let map = build(&opts, &survey).unwrap();
    let set = map.get("mylint").unwrap().get("tc").unwrap();
    assert_eq!(set.len(), 1);
    assert!(matches!(set.get(0), Some(MaybeLibrary::Path(_))));
}

#[test]
fn the_index_is_built_once() {
    let opts = options();
    let lazy = Lazy::new(&opts);
    assert!(lazy.get().is_none());
    let first = Survey { roots: vec![root("/one", &["a@t.lib"])], packages: vec![] };
    let second = Survey { roots: vec![root("/two", &["b@t.lib"])], packages: vec![] };
    let built = lazy.get_or_try_init(&first).unwrap();
    let again = lazy.get_or_try_init(&second).unwrap();
    assert!(std::ptr::eq(built, again));
    assert!(std::ptr::eq(built, lazy.get().unwrap()));
    assert!(again.get("a").is_some());
    assert!(again.get("b").is_none());
}

#[test]
fn a_built_index_is_kept_when_a_later_survey_is_bad() {
    let opts = options();
    let lazy = Lazy::new(&opts);
    let good = Survey { roots: vec![root("/one", &["a@t.lib"])], packages: vec![] };
    let mut bad_root = root("one", &[]);
    bad_root.is_absolute = false;
    let bad = Survey { roots: vec![bad_root], packages: vec![] };
    let built = lazy.get_or_try_init(&good).unwrap();
    let again = lazy.get_or_try_init(&bad).unwrap();
    assert!(std::ptr::eq(built, again));
}

#[test]
fn a_failed_listing_leaves_the_lazy_unbuilt() {
    let opts = options();
    let lazy = Lazy::new(&opts);
    let mut unreadable = root("/locked", &[]);
    unreadable.entries = Err("permission denied".to_string());
    let bad = Survey { roots: vec![unreadable], packages: vec![] };
    assert!(matches!(lazy.get_or_try_init(&bad), Err(ResolveError::IoError { .. })));
    assert!(lazy.get().is_none());
    assert!(matches!(lazy.get_or_try_init(&bad), Err(ResolveError::IoError { .. })));
    let good = Survey { roots: vec![root("/locked", &["a@t.lib"])], packages: vec![] };
    assert_eq!(lazy.get_or_try_init(&good).unwrap().len(), 1);
}

#[test]
fn callers_that_share_a_lazy_get_one_index() {
    let opts = options();
    let lazy = Lazy::new(&opts);
    let callers: Vec<&Lazy> = (0..8).map(|_| &lazy).collect();
    let mut handed_out = Vec::new();
    for (i, caller) in callers.iter().enumerate() {
        let name = format!("lint{}@t.lib", i);
        let survey = Survey { roots: vec![root("/p", &[name.as_str()])], packages: vec![] };
        handed_out.push(caller.get_or_try_init(&survey).unwrap());
    }
    for map in &handed_out {
        assert!(std::ptr::eq(*map, handed_out[0]));
        assert_eq!(map.len(), 1);
        assert_eq!(map.entry(0).unwrap().0, "lint0");
    }
}

#[test]
fn library_paths_are_the_roots_in_their_order() {
    let roots = vec![root("/b", &[]), root("/a", &[]), root("/b", &[])];
    assert_eq!(name_toolchain_map::dylint_library_paths(&roots).unwrap(), vec!["/b", "/a", "/b"]);
    assert_eq!(name_toolchain_map::dylint_library_paths(&vec![]).unwrap(), Vec::<String>::new());
}

#[test]
fn libraries_in_a_listing_come_in_its_order() {
    let naming = options().naming;
    let listing = Ok(vec![
        entry("/p", "z@t.lib"),
        entry("/p", "notes.txt"),
        Err("gone".to_string()),
        entry("/p", "a@t@u.lib"),
        entry("/p", "z@t.lib"),
    ]);
    let found = name_toolchain_map::dylint_libraries_in("/p", &listing, &naming).unwrap();
    let triple = |n: &str, t: &str, p: &str| (n.to_string(), t.to_string(), p.to_string());
    assert_eq!(
        found,
        vec![
            triple("z", "t", "/p/z@t.lib"),
            triple("a", "t@u", "/p/a@t@u.lib"),
            triple("z", "t", "/p/z@t.lib"),
        ]
    );
    let failed = name_toolchain_map::dylint_libraries_in("/q", &Err("denied".to_string()), &naming);
    assert_eq!(
        failed.unwrap_err(),
        ResolveError::IoError { path: "/q".to_string(), cause: "denied".to_string() }
    );
}

#[test]
fn a_search_root_knows_whether_its_path_is_absolute() {
    let absolute = SearchRoot::new("/plugins".to_string(), true, Ok(vec![]));
    assert!(absolute.is_absolute);
    assert!(absolute.is_dir);
    assert_eq!(absolute.path, "/plugins");
    let relative = SearchRoot::new("plugins/here".to_string(), false, Err("unread".to_string()));
    assert!(!relative.is_absolute);
    assert!(!relative.is_dir);
    assert_eq!(relative.entries.unwrap_err(), "unread");
    assert!(!SearchRoot::new(String::new(), false, Ok(vec![])).is_absolute);
    let opts = options();
    let survey = Survey { roots: vec![relative_root()], packages: vec![] };
    assert!(matches!(
        build(&opts, &survey),
        Err(ResolveError::ConfigError { violation: Violation::NotAbsolute, .. })
    ));
}

fn relative_root() -> SearchRoot {
    SearchRoot::new("plugins".to_string(), true, Ok(vec![]))
}

#[test]
fn no_entry_of_a_built_index_is_empty() {
    let mut opts = options();
    opts.metadata = true;
    let survey = Survey {
        roots: vec![
            root("/one", &["a@t1.lib", "a@t2.lib", "junk", "b@.lib", "@.lib"]),
            root("/two", &[]),
            root("/three", &["a@t1.lib", "notes.txt"]),
        ],
        packages: vec![package("a", "t1", "/ws"), package("c", "t9", "/ws")],
    };
    let map = build(&opts, &survey).unwrap();
    assert_eq!(map.len(), 4);
    let mut candidates = 0;
    let mut i = 0;
    while let Some((_, by_toolchain)) = map.entry(i) {
        assert!(by_toolchain.len() > 0);
        let mut j = 0;
        while let Some((_, set)) = by_toolchain.entry(j) {
            assert!(!set.is_empty());
            candidates += set.len();
            j += 1;
        }
        i += 1;
    }
    assert_eq!(candidates, 7);
}
