//! Discovery of includes.
use nix_ninja::derived::{new_built_file, new_opaque, DerivedPath};
use nix_ninja::discovery::{
    depfile_read_back, declared_inputs, discover_c_includes, discovery_seeds, dotdot_dirs_env,
    generated_not_yet_written, include_place, merge_scan_and_preprocessor, readable_depfile,
    scan_answer, seed_label, upload_note, AnswerSource,
};
use nix_ninja::task::Task;
use nix_ninja::vars::Vars;

fn names(v: &[&str]) -> Vec<String> {
    v.iter().map(|s| s.to_string()).collect()
}

const NO_STORE: &str = "/nonexistent-store";

#[test]
fn fresh_stale_and_empty() {
    let listed = || Some(names(&["a.c", "hdr/one.h"]));
    let none = Vec::new();
    let back = |src: i128, hdr: i128, dep: i128| {
        depfile_read_back(
            NO_STORE,
            Some("/b/a.o.d"),
            Some(dep),
            listed(),
            &vec![Some(src)],
            &vec![Some(src), Some(hdr)],
            &none,
        )
    };
    assert_eq!(back(0, 0, 10), Some(names(&["a.c", "hdr/one.h"])));
    assert!(back(20, 0, 10).is_none());
    assert!(
        back(0, 0, 30).is_some(),
        "with everything older than the depfile the read-back must fire"
    );
    assert!(
        back(0, 60, 30).is_none(),
        "a header newer than the depfile must fall back to the scan"
    );
    let in_store = |store: &str| {
        depfile_read_back(
            store,
            Some("/d/fake-store/b.o.d"),
            Some(5),
            Some(names(&["a.c"])),
            &Vec::new(),
            &vec![Some(1)],
            &none,
        )
    };
    assert!(
        in_store("/d/fake-store").is_none(),
        "a depfile resolving into the store must be refused, not compared"
    );
    assert!(in_store(NO_STORE).is_some(), "outside the store the same depfile must be read");
    assert!(depfile_read_back(
        NO_STORE,
        Some("/b/a.o.d"),
        Some(5),
        Some(Vec::new()),
        &Vec::new(),
        &Vec::new(),
        &none
    )
    .is_none());
    assert!(
        depfile_read_back(NO_STORE, None, None, None, &Vec::new(), &Vec::new(), &none).is_none()
    );
}

fn applies(declared: &[&str], header: &str, store: &str) -> Option<Vec<String>> {
    depfile_read_back(
        store,
        Some("/b/a.o.d"),
        Some(10),
        Some(names(&["a.c", header])),
        &vec![Some(1)],
        &vec![Some(1), None],
        &names(declared),
    )
}

#[test]
fn a_path_this_build_cannot_supply_refuses_the_read_back() {
    assert!(applies(&[], "gen/version.h", NO_STORE).is_none());
}

#[test]
fn a_declared_generated_header_keeps_the_read_back() {
    let got = applies(&["gen/version.h"], "gen/version.h", NO_STORE);
    assert_eq!(got, Some(names(&["a.c", "gen/version.h"])));
}

#[test]
fn the_map_argument_changes_the_answer_not_a_default() {
    let without = applies(&[], "gen/version.h", NO_STORE);
    let with = applies(&["gen/version.h"], "gen/version.h", NO_STORE);
    assert_ne!(without, with, "the map argument must not be inert");
    assert!(without.is_none(), "no map means no evidence, so refuse");
    assert_eq!(
        with,
        Some(names(&["a.c", "gen/version.h"])),
        "a declared path keeps the read-back"
    );
}

#[test]
fn a_store_path_is_not_refused() {
    assert!(applies(&[], "/s/aaa-glibc/include/stdio.h", "/s").is_some());
}

#[test]
fn a_source_of_unknown_age_refuses_the_read_back() {
    assert!(depfile_read_back(
        NO_STORE,
        None,
        Some(10),
        Some(names(&["a.c"])),
        &vec![None],
        &vec![Some(1)],
        &Vec::new()
    )
    .is_none());
}

#[test]
fn a_declared_virtual_file_that_is_absent_is_skipped() {
    let g = "src/nix/nix.p/unpack-channel.nix.gen.hh";
    assert!(generated_not_yet_written(g, Some(&names(&[g])), false));
}

#[test]
fn an_absent_file_nobody_declared_is_not_skipped() {
    let missing = "no-such-header-anywhere.h";
    assert!(!generated_not_yet_written(missing, Some(&Vec::new()), false));
    assert!(!generated_not_yet_written(missing, None, false));
}

#[test]
fn a_declared_virtual_file_that_exists_is_still_uploaded() {
    assert!(!generated_not_yet_written("real.h", Some(&names(&["real.h"])), true));
}

#[test]
fn a_sibling_directory_is_emitted_as_a_climb() {
    assert_eq!(
        dotdot_dirs_env("", "/build/source/build", &names(&["/build/source/kernel/x86_64"])),
        "../kernel/x86_64"
    );
}

#[test]
fn a_host_directory_outside_build_still_yields_a_relative_path() {
    assert_eq!(
        dotdot_dirs_env("", "/tmp/nn-xyz/build", &names(&["/tmp/nn-xyz/src"])),
        "../src"
    );
}

#[test]
fn an_existing_value_is_kept() {
    assert_eq!(
        dotdot_dirs_env("../a", "/build/source/build", &names(&["/build/source/b"])),
        "../a ../b"
    );
}

#[test]
fn a_repeat_is_not_added_twice() {
    assert_eq!(
        dotdot_dirs_env("../a", "/build/source/build", &names(&["/build/source/a"])),
        "../a"
    );
}

#[test]
fn a_path_carrying_a_space_is_dropped() {
    assert_eq!(
        dotdot_dirs_env("", "/build/source/build", &names(&["/build/source/two words"])),
        ""
    );
}

#[test]
fn preprocessor_fallback_adds_to_the_scan_rather_than_replacing_it() {
    let scanned = names(&["quotearg.c", "wchar.h", "limits.h"]);
    let preprocessed = names(&["quotearg.c", "cmsys/Directory.hxx"]);
    let got = merge_scan_and_preprocessor(scanned, &preprocessed);
    assert!(
        got.contains(&"wchar.h".to_string()),
        "the scan's pragma-marked build-dir header was dropped: {got:?}"
    );
    assert!(
        got.contains(&"cmsys/Directory.hxx".to_string()),
        "the preprocessor's computed include was dropped: {got:?}"
    );
    assert_eq!(
        got.iter().filter(|p| *p == "quotearg.c").count(),
        1,
        "the overlap was declared twice: {got:?}"
    );
}

#[test]
fn a_scan_is_completed_by_the_preprocessor_alone_where_it_has_to_be() {
    let more = names(&["x.h"]);
    assert_eq!(
        scan_answer(names(&["a.h"]), false, Some(&more)),
        (names(&["a.h"]), AnswerSource::Scan)
    );
    assert_eq!(
        scan_answer(names(&["a.h"]), true, Some(&more)),
        (names(&["a.h", "x.h"]), AnswerSource::ScanAndPreprocessor)
    );
    assert_eq!(
        scan_answer(names(&["a.h"]), true, None),
        (names(&["a.h"]), AnswerSource::ScanAlone)
    );
    assert_eq!(AnswerSource::Scan.describe("d"), "the scan");
    assert_eq!(AnswerSource::ReadBack.describe("a.d"), "a depfile read-back of a.d");
    assert_eq!(
        AnswerSource::ScanAndPreprocessor.describe(""),
        "the scan and the preprocessor"
    );
    assert_eq!(
        AnswerSource::ScanAlone.describe(""),
        "the scan, the preprocessor having failed"
    );
}

#[test]
fn a_precompiled_header_switches_the_read_back_off() {
    assert_eq!(readable_depfile("g++ -include p.h -c a.cpp", Some("a.d")), None);
    assert_eq!(readable_depfile("g++ -c a.cpp", Some("a.d")), Some("a.d".to_string()));
    assert_eq!(readable_depfile("g++ -c a.cpp", None), None);
}

/// Every include is known, in the store, pending, or uploaded.
#[test]
fn includes_are_told_apart() {
    let r = discover_c_includes(
        "/nix/store",
        &names(&["a.c", "a.h"]),
        Some(&names(&["gen.h", "there.h"])),
        &names(&[
            "a.c",
            "a.h",
            "./a.h",
            "a.h",
            "/nix/store/aaa-glibc/include/stdio.h",
            "gen.h",
            "there.h",
            "missing.h",
        ]),
        &vec![true, true, true, true, true, false, true, false],
    );
    assert_eq!(r.used_headers, vec!["a.h"]);
    assert_eq!(r.store_objects, vec!["/nix/store/aaa-glibc"]);
    assert_eq!(r.to_upload, vec!["./a.h", "there.h", "missing.h"]);
    assert_eq!(r.absent, vec!["missing.h"]);
    assert_eq!(include_place("/b", "x.h"), "/b/x.h");
    assert_eq!(include_place("/b", "/x.h"), "/x.h");
}

/// The headers that count as used are inputs; what is uploaded is none.
#[test]
fn the_numerator_is_counted_inside_the_filters_taken_branch() {
    let files = names(&["a.c", "used.h", "unused.h"]);
    let includes = names(&["a.c", "used.h", "other.h", "used.h"]);
    let r = discover_c_includes("/nix/store", &files, None, &includes, &vec![true; 4]);
    assert_eq!(r.used_headers, vec!["used.h"], "each used input counts once");
    assert_eq!(r.to_upload, vec!["other.h"]);
    assert!(r.used_headers.iter().all(|h| files.contains(h)));
    assert!(r.to_upload.iter().all(|h| !files.contains(h)));
}

#[test]
fn a_failed_upload_says_what_was_discovered_and_how() {
    assert_eq!(
        upload_note("a.c", 3, "the scan", 1, &names(&["x.h", "y.h"])),
        "uploading includes discovered for a.c (3 from the scan, 1 seed(s); 2 of them absent and not declared, first x.h)"
    );
    assert_eq!(
        upload_note("a.c", 3, "the scan", 1, &Vec::new()),
        "uploading includes discovered for a.c (3 from the scan, 1 seed(s))"
    );
    assert_eq!(seed_label(&names(&["a.c", "b.c"])), "a.c");
    assert_eq!(seed_label(&Vec::new()), "<no seed>");
}

#[test]
fn the_discovery_starts_from_uploads_and_store_sources() {
    let drv = DerivedPath::opaque("d.drv");
    let t = Task {
        system: String::new(),
        wrapper_vars: Vars::new(),
        input_srcs: Vec::new(),
        build_dir: "/b".to_string(),
        store_dir: "/nix/store".to_string(),
        cmdline: None,
        desc: None,
        deps: None,
        rspfile: None,
        depfile: None,
        out_names: Vec::new(),
        inputs: vec![new_opaque("s1", "a.c"), new_built_file(&drv, "gen.h"), new_opaque("s2", "o")],
        store_srcs: names(&["/nix/store/x.c"]),
        outputs: names(&["./o", "o"]),
        verbose: false,
        alias_symlinks: Vec::new(),
        empty_dirs: Vec::new(),
    };
    assert_eq!(discovery_seeds(&t), names(&["a.c", "o", "/nix/store/x.c"]));
    assert_eq!(declared_inputs(&t), names(&["a.c", "gen.h"]));
}

#[test]
fn the_union_names_each_file_once() {
    assert_eq!(merge_scan_and_preprocessor(names(&["a.h", "a.h"]), &names(&[])), names(&["a.h"]));
    assert_eq!(
        merge_scan_and_preprocessor(names(&["b.h", "a.h", "./b.h"]), &names(&["c.h", "a.h", "c.h"])),
        names(&["b.h", "a.h", "./b.h", "c.h"])
    );
}
