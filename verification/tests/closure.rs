//! Walks over files that refer to other files.
use nix_ninja::closure::{
    best_package, closure_step, dir_upload, find_module_below, import_levels, import_start,
    imported_siblings, is_project_file, level_candidates, module_file, project_candidates,
    provides_module, python_entry, rst_include_closure, sibling_dirs_of, sibling_root,
    stdlib_module, tablegen_include_closure, tablegen_places, third_party_candidates,
    unsatisfied_imports,
    wide_package_note, xinclude_candidates, xinclude_closure, Closure, ClosureStep, DirUpload, DirWalk,
    ImportWalk, ModuleSearch, PyEntry, SubDir,
};
use nix_ninja::python::{
    upload_python_closure, Composed, Level, PyDir, PyFile, PyStep, Uncle, Wanted,
};
use nix_ninja::readers::tablegen_include_names;
use std::collections::HashMap;

type Disk = HashMap<&'static str, &'static str>;

fn names(v: &[&str]) -> Vec<String> {
    v.iter().map(|s| s.to_string()).collect()
}

fn last(p: &str) -> String {
    p.rsplit('/').next().unwrap_or(p).to_string()
}

#[test]
fn a_fresh_directory_under_the_cap_is_scanned() {
    assert_eq!(closure_step(true, 3, 64), ClosureStep::Scan);
}

#[test]
fn over_the_cap_refuses_rather_than_truncating() {
    assert_eq!(closure_step(true, 65, 64), ClosureStep::Refuse);
}

#[test]
fn a_duplicate_is_seen_even_when_the_set_is_over_the_cap() {
    assert_eq!(closure_step(false, 9_000, 64), ClosureStep::Seen);
}

fn tablegen(disk: &Disk, root: &str, seed: &str, dirs: &[&str], cap: usize) -> Vec<String> {
    let dirs = names(dirs);
    let resolve = |n: &str| {
        tablegen_places(root, n, &dirs).into_iter().find(|p| disk.contains_key(p.as_str()))
    };
    let mut walk = tablegen_include_closure(resolve(seed).as_deref(), cap);
    while let Some(p) = walk.next() {
        if let Some(text) = disk.get(p.as_str()) {
            for n in tablegen_include_names(text) {
                if let Some(q) = resolve(&n) {
                    walk.offer(&q);
                }
            }
        }
    }
    walk.found
}

#[test]
fn the_tablegen_closure_is_transitive() {
    let disk: Disk = HashMap::from([
        ("/d/inc/llvm/IR/Intrinsics.td", "include \"llvm/CodeGen/ValueTypes.td\"\n"),
        (
            "/d/inc/llvm/CodeGen/ValueTypes.td",
            "// a comment\ninclude \"llvm/CodeGen/SDNodeProperties.td\"\n",
        ),
        ("/d/inc/llvm/CodeGen/SDNodeProperties.td", "class P;\n"),
    ]);
    let got = tablegen(&disk, "/d", "llvm/IR/Intrinsics.td", &["inc"], 8192);
    let names: Vec<String> = got.iter().map(|p| last(p)).collect();
    assert!(
        names.iter().any(|n| n == "ValueTypes.td"),
        "the direct include is missing: {names:?}"
    );
    assert!(
        names.iter().any(|n| n == "SDNodeProperties.td"),
        "the TRANSITIVE include is missing, which is the whole defect: {names:?}"
    );
}

#[test]
fn a_file_included_twice_is_declared_once() {
    let disk: Disk = HashMap::from([
        ("/d/inc/seed.td", "include \"a.td\"\ninclude \"b.td\"\n"),
        ("/d/inc/a.td", "include \"common.td\"\n"),
        ("/d/inc/b.td", "include \"common.td\"\n"),
        ("/d/inc/common.td", "class C;\n"),
    ]);
    let got = tablegen(&disk, "/d", "seed.td", &["inc"], 8192);
    let commons = got.iter().filter(|p| last(p) == "common.td").count();
    assert_eq!(commons, 1, "common.td declared {commons} times: {got:?}");
    assert_eq!(got.len(), 3, "expected a.td, b.td, common.td once each: {got:?}");
}

#[test]
fn a_sibling_named_bare_does_not_resolve() {
    let disk: Disk = HashMap::from([
        ("/d/inc/pkg/seed.td", "include \"sibling.td\"\n"),
        ("/d/inc/pkg/sibling.td", "class S;\n"),
    ]);
    let got = tablegen(&disk, "/d", "pkg/seed.td", &["inc"], 8192);
    assert!(
        got.is_empty(),
        "the includer's own directory was searched, which TableGen does not do: {got:?}"
    );
}

/// A path as the file system reads it: without `.` and with `..` taken back.
fn plain(p: &str) -> String {
    nix_ninja::path::lexical_join("", p)
}

fn xinclude(disk: &Disk, root: &str, docs: &[&str], cap: usize) -> Vec<String> {
    let mut walk = xinclude_closure(root, &names(docs), cap);
    while let Some(p) = walk.next() {
        if let Some(text) = disk.get(plain(&p).as_str()) {
            for q in xinclude_candidates(&p, text) {
                if disk.contains_key(plain(&q).as_str()) {
                    walk.offer(&q);
                }
            }
        }
    }
    walk.found
}

#[test]
fn the_xinclude_closure_is_transitive_and_per_document() {
    let disk: Disk = HashMap::from([
        ("/d/doc/adg/main.xml", "<book><xi:include href=\"../man/pam_start.xml\"/></book>\n"),
        ("/d/doc/man/pam_start.xml", "<refentry><xi:include href=\"desc.xml\"/></refentry>\n"),
        ("/d/doc/man/desc.xml", "<para/>\n"),
    ]);
    let got = xinclude(&disk, "/d", &["doc/adg/main.xml"], 4096);
    let names: Vec<String> = got.iter().map(|p| last(p)).collect();
    assert!(
        names.iter().any(|n| n == "pam_start.xml"),
        "the direct part is missing: {names:?}"
    );
    assert!(
        names.iter().any(|n| n == "desc.xml"),
        "the transitive part is missing, resolved against the wrong directory: {names:?}"
    );
}

#[test]
fn a_fragment_or_a_url_is_not_a_file() {
    let disk: Disk = HashMap::from([(
        "/d/main.xml",
        "<book>\n<xi:include href=\"#frag\"/>\n\
         <xi:include href=\"https://example.invalid/x.xml\"/>\n</book>\n",
    )]);
    let got = xinclude(&disk, "/d", &["main.xml"], 4096);
    assert!(got.is_empty(), "expected nothing to upload, got {got:?}");
}

/// Each file is looked at once, and a walk that has met too many stops.
#[test]
fn a_walk_looks_at_each_file_once_and_stops_at_its_limit() {
    let mut walk = Closure::new(&names(&["a", "./b", "a"]), 8);
    assert_eq!(walk.seen, names(&["a", "./b"]));
    walk.offer("c");
    walk.offer("c/");
    walk.offer("a");
    assert_eq!(walk.found, names(&["c"]));
    assert_eq!(walk.next().as_deref(), Some("c"));
    let mut short = Closure::new(&names(&["a", "b"]), 1);
    assert_eq!(short.next(), None);
}

#[test]
fn a_docutils_writer_names_its_rst_and_the_includes_are_closed_over() {
    let disk: Disk = HashMap::from([
        (
            "/d/build/man/page.8.rst",
            "Title\n=====\n\n.. include:: ../../build/man/common/opt_G.rst\n.. include:: common/opt_C.rst\n",
        ),
        ("/d/build/man/common/opt_G.rst", ".. include:: opt_inner.rst\n"),
        ("/d/build/man/common/opt_inner.rst", "inner\n"),
    ]);
    let root = "/d/build/man";
    let mut walk = rst_include_closure(root, &names(&["page.8.rst"]), 64);
    while let Some(doc) = walk.next() {
        if let Some(text) = disk.get(plain(&doc).as_str()) {
            walk.feed(root, &doc, text);
        }
    }
    let got = walk.out;
    let mut found: Vec<String> = got.iter().map(|p| last(p)).collect();
    found.sort();
    assert_eq!(found, vec!["opt_C.rst", "opt_G.rst", "opt_inner.rst"], "{got:?}");
    assert!(got.iter().any(|p| p.ends_with("common/opt_C.rst")));
}

#[test]
fn references_are_no_longer_followed_once_enough_are_listed() {
    let mut walk = rst_include_closure("/r", &names(&["a.rst", "/abs.rst"]), 1);
    assert_eq!(walk.next().as_deref(), Some("/abs.rst"));
    walk.feed("/r", "/abs.rst", ".. include:: x.rst\n");
    assert_eq!(walk.out, names(&["/x.rst"]));
    assert_eq!(walk.next(), None);
}

#[test]
fn a_directory_with_too_many_files_is_given_up() {
    let mut walk = DirWalk::new("d", 2);
    assert_eq!(walk.next().as_deref(), Some("d"));
    walk.entry("d/sub", true, false);
    walk.entry("d/a", false, true);
    walk.entry("d/sock", false, false);
    assert_eq!(walk.next().as_deref(), Some("d/sub"));
    walk.entry("d/sub/b", false, true);
    assert_eq!(walk.next(), None);
    assert_eq!(walk.walk_dir_capped(), Some(names(&["d/a", "d/sub/b"])));
    let mut over = DirWalk::new("d", 1);
    over.next();
    over.entry("d/a", false, true);
    over.entry("d/b", false, true);
    over.entry("d/sub", true, false);
    assert_eq!(over.next(), None);
    assert_eq!(over.walk_dir_capped(), None);
}

#[test]
fn finds_module_in_own_subtree() {
    let sub = |p: &str, m: bool| SubDir { path: p.to_string(), has_module: m, has_init: false };
    let level = find_module_below(&vec![sub("d/ppapi", false)], "idl_parser");
    assert_eq!(level, Err(names(&["d/ppapi"])));
    let level = find_module_below(&vec![sub("d/ppapi/generators", true)], "idl_parser");
    assert_eq!(level, Ok("d/ppapi/generators".to_string()));
    assert_eq!(
        find_module_below(&vec![sub("d/ppapi/generators", false)], "no_such_module"),
        Err(names(&["d/ppapi/generators"]))
    );
}

#[test]
fn an_unreadable_directory_does_not_abort_the_search() {
    let sub = |p: &str, m: bool| SubDir { path: p.to_string(), has_module: m, has_init: false };
    let level = find_module_below(&vec![sub("d/aaa-blocked", false), sub("d/zzz", false)], "wanted");
    assert_eq!(level, Err(names(&["d/aaa-blocked", "d/zzz"])));
    let level = find_module_below(&vec![sub("d/zzz/holder", true)], "wanted");
    assert_eq!(level, Ok("d/zzz/holder".to_string()));
}

#[test]
fn the_search_passes_hidden_directories_over() {
    let sub = |p: &str, m: bool, i: bool| SubDir {
        path: p.to_string(),
        has_module: m,
        has_init: i,
    };
    let subs = vec![
        sub("d/.git", true, false),
        sub("d/node_modules", true, false),
        sub("d/other", false, true),
        sub("d/mod", false, true),
    ];
    assert_eq!(find_module_below(&subs, "mod"), Ok("d/mod".to_string()));
    assert_eq!(find_module_below(&subs[..3].to_vec(), "mod"), Err(names(&["d/other"])));
}

#[test]
fn a_one_component_relative_dir_lists_siblings_and_excludes_itself() {
    assert_eq!(sibling_root("gio").as_deref(), Some("."));
    let got = sibling_dirs_of("gio", &names(&["gio", "glib"]));
    assert!(got.iter().any(|n| n == "glib"), "the sibling beside it must be listed: {got:?}");
    assert!(
        !got.iter().any(|n| n == "gio"),
        "a directory is not its own sibling, whatever the parent is spelled as: {got:?}"
    );
    assert_eq!(
        got,
        names(&["glib"]),
        "a sibling of a bare name must be spelled as a bare name: {got:?}"
    );
    assert_eq!(sibling_root("."), None);
    assert_eq!(
        sibling_dirs_of(".", &names(&["gio", "glib"])),
        Vec::<String>::new(),
        "the children of the working directory are not its siblings"
    );
    assert_eq!(
        sibling_dirs_of("a/x", &names(&["z", "x", "b"])),
        names(&["a/b", "a/z"])
    );
}

#[test]
fn an_import_closure_looks_at_each_directory_once_and_refuses_too_many() {
    let mut walk = ImportWalk::new("d");
    assert_eq!(walk.next().unwrap().as_deref(), Some("d"));
    walk.push("d/pkg");
    walk.push("./d");
    walk.push("d/");
    assert_eq!(walk.next().unwrap().as_deref(), Some("./d"));
    assert_eq!(walk.next().unwrap().as_deref(), Some("d/pkg"));
    assert!(walk.next().unwrap().is_none());
    for i in 0..61 {
        walk.push(&format!("d{i}"));
        assert!(walk.next().unwrap().is_some());
    }
    walk.push("d/pkg");
    assert!(walk.next().unwrap().is_none(), "a repeat is still a repeat");
    walk.push("one-too-many");
    match walk.next() {
        Ok(_) => panic!("a partial closure must be refused"),
        Err(e) => assert_eq!(
            e.message(),
            "python import closure below d exceeds 64 directories; refusing to declare a partial closure"
        ),
    }
}

#[test]
fn entries_of_a_python_directory_are_told_apart() {
    assert_eq!(python_entry("d/a.py", true, false, false), PyEntry::File);
    assert_eq!(python_entry("d/a.py", false, true, true), PyEntry::Package);
    assert_eq!(python_entry("d/node_modules", false, true, true), PyEntry::Tree);
    assert_eq!(python_entry("d/pkg", false, true, false), PyEntry::Skip);
    assert_eq!(python_entry("d/a.txt", true, false, false), PyEntry::Skip);
    assert_eq!(import_start("gen.py").as_deref(), Some("."));
    assert_eq!(import_start("tools/gen.py").as_deref(), Some("tools"));
    assert_eq!(import_start("gen.sh"), None);
}

#[test]
fn imports_that_nothing_satisfies_are_looked_for_elsewhere() {
    assert!(stdlib_module("os") && stdlib_module("zlib") && !stdlib_module("mako"));
    assert_eq!(
        unsatisfied_imports(&names(&["os", "mako", "local", "far"]), &vec![(false, false), (false, false), (true, false), (false, false)]),
        names(&["mako", "far"])
    );
    assert!(unsatisfied_imports(&names(&["pkg"]), &vec![(false, true)]).is_empty());
    assert_eq!(module_file("mako"), "mako.py");
    assert!(provides_module("u/x", "mako", true, false));
    assert!(provides_module("u/mako", "mako", false, true));
    assert!(!provides_module("u/x", "mako", false, true));
    assert_eq!(import_levels("a/b/c"), names(&["a", ""]));
    assert_eq!(import_levels("/a/b/c/d/e/f/g").len(), 4);
    assert_eq!(
        level_candidates("r", "mako"),
        ("r/mako".to_string(), "r/third_party/mako".to_string())
    );
}

/// No package fits better than the one that is picked, whatever the order.
#[test]
fn the_best_package_is_versioned_then_for_python_three() {
    let v = names(&["t/old/six", "t/py3/six", "t/six-1.16/src/six", "t/a/six"]);
    assert_eq!(best_package(&v).as_deref(), Some("t/six-1.16/src/six"));
    let mut r = v.clone();
    r.reverse();
    assert_eq!(best_package(&r), best_package(&v));
    assert_eq!(best_package(&names(&["t/a/six", "t/b/six"])).as_deref(), Some("t/b/six"));
    assert_eq!(best_package(&names(&["t/a-b/six", "t/a/six"])).as_deref(), Some("t/a-b/six"));
    assert_eq!(best_package(&Vec::new()), None);
}

#[test]
fn a_projects_paths_are_looked_for_beside_and_above_it() {
    assert!(is_project_file("chromium_project.py") && !is_project_file("project.py"));
    assert_eq!(
        project_candidates("r/tools", "../x"),
        names(&["r/x", "x", "r/x"])
    );
    assert_eq!(project_candidates("r/tools", "."), names(&["r", "r/third_party"]));
    assert_eq!(
        imported_siblings("p/a", &names(&["a", "b", "os"])),
        names(&["p/b", "p/os"])
    );
    assert!(wide_package_note("p").starts_with("python package p holds more than 1024 files"));
}

#[test]
fn a_search_goes_down_three_levels() {
    let sub = |p: &str, m: bool| SubDir { path: p.to_string(), has_module: m, has_init: false };
    let mut search = ModuleSearch::new("d");
    assert_eq!(search.level, names(&["d"]));
    for p in ["d/a", "d/a/b", "d/a/b/c"] {
        assert!(search.goes_on());
        assert_eq!(search.step(&vec![sub(p, false)], "m"), None);
        assert_eq!(search.level, names(&[p]));
    }
    assert!(!search.goes_on());
    let mut hit = ModuleSearch::new("d");
    assert_eq!(hit.step(&vec![sub("d/a", true)], "m").as_deref(), Some("d/a"));
    assert!(!hit.goes_on());
}

fn tree(dir: &str, cap: usize, follow: bool) -> PyStep {
    PyStep::Tree { dir: dir.to_string(), cap, follow }
}

#[test]
fn a_python_directory_asks_for_what_it_imports() {
    let entry = |p: &str, is_file: bool, has_init: bool| PyFile {
        path: p.to_string(),
        is_file,
        is_dir: !is_file,
        has_init,
    };
    let level = |p: &str, here: (bool, bool), third: (bool, bool), packages: &[&str]| Level {
        path: p.to_string(),
        here,
        third,
        packages: names(packages),
    };
    let none = (false, false);
    let d = PyDir {
        dir: "r/t/gen".to_string(),
        entries: vec![
            entry("r/t/gen/a.py", true, false),
            entry("r/t/gen/node_modules", false, false),
            entry("r/t/gen/pkg", false, true),
            entry("r/t/gen/data", false, false),
            entry("r/t/gen/x_project.py", true, false),
        ],
        uncles: vec![
            Uncle { path: "r/t/lib".to_string(), modules: vec![false, true], has_init: false },
            Uncle { path: "r/t/mako".to_string(), modules: vec![false, false], has_init: true },
            Uncle { path: "r/t/far".to_string(), modules: vec![], has_init: true },
        ],
        wanted: vec![
            Wanted {
                name: "mako".to_string(),
                levels: vec![
                    level("r", none, none, &[]),
                    level("", none, (true, false), &["third_party/x/mako"]),
                ],
                below: None,
            },
            Wanted {
                name: "six".to_string(),
                levels: vec![level("r", none, none, &["r/third_party/a/six", "r/third_party/b-1/six"])],
                below: Some("r/t/gen/sub".to_string()),
            },
            Wanted {
                name: "json5".to_string(),
                levels: vec![level("r", (true, true), (true, true), &[])],
                below: None,
            },
        ],
        search_path: names(&["r/path"]),
        composed: vec![
            Composed { rel: "x".to_string(), is_dir: vec![false, true, true] },
            Composed { rel: "y".to_string(), is_dir: vec![] },
        ],
    };
    assert_eq!(
        upload_python_closure(&d),
        vec![
            PyStep::File("r/t/gen/a.py".to_string()),
            tree("r/t/gen/node_modules", 8192, false),
            tree("r/t/gen/pkg", 512, true),
            PyStep::File("r/t/gen/x_project.py".to_string()),
            tree("r/t/lib", 512, true),
            tree("r/t/mako", 512, true),
            tree("third_party/mako", 8192, false),
            tree("r/third_party/b-1/six", 8192, true),
            tree("r/json5", 8192, true),
            tree("r/t/gen/sub", 512, true),
            tree("r/path", 8192, true),
            tree("r/t/x", 8192, true),
        ]
    );
}

#[test]
fn a_directory_is_uploaded_as_it_fits() {
    assert_eq!(dir_upload(true, false), DirUpload::Files);
    assert_eq!(dir_upload(true, true), DirUpload::FilesAndSiblings);
    assert_eq!(dir_upload(false, true), DirUpload::Packages);
    assert_eq!(
        third_party_candidates("t/x", &names(&["t/x/src", "t/x/lib"]), "six"),
        names(&["t/x/six", "t/x/src/six", "t/x/lib/six"])
    );
}

#[test]
fn satisfied_imports_ask_for_nothing_elsewhere() {
    let d = PyDir {
        dir: "d".to_string(),
        entries: Vec::new(),
        uncles: vec![Uncle { path: "u".to_string(), modules: vec![true], has_init: true }],
        wanted: Vec::new(),
        search_path: names(&["p"]),
        composed: vec![Composed { rel: "x".to_string(), is_dir: vec![true] }],
    };
    assert_eq!(upload_python_closure(&d), vec![tree("p", 8192, true)]);
}

#[test]
fn the_nearest_level_that_has_a_module_decides() {
    let level = |p: &str, here: (bool, bool)| Level {
        path: p.to_string(),
        here,
        third: (false, false),
        packages: Vec::new(),
    };
    let d = PyDir {
        dir: "a/b/c".to_string(),
        entries: Vec::new(),
        uncles: Vec::new(),
        wanted: vec![Wanted {
            name: "m".to_string(),
            levels: vec![
                level("a/b", (false, false)),
                level("a", (true, false)),
                level("", (true, true)),
            ],
            below: None,
        }],
        search_path: Vec::new(),
        composed: Vec::new(),
    };
    assert_eq!(upload_python_closure(&d), vec![tree("a/m", 8192, false)]);
}
