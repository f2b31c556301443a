//! What lies in the build directory before any task runs.
use nix_ninja::builddir::{
    alias_symlink_entry, alias_target_climbs_out, alias_target_place, build_dir_disposition,
    is_walked, BuildDirDisposition, BuildDirScan, EntryFacts,
};
use nix_ninja::runner::{DirEntry, Runner, RunnerConfig};
use nix_ninja::vars::Vars;

/// The entry of a link, with the places that exist.
fn entry(build: &str, link: &str, target: Option<&str>, disk: &[&str]) -> Option<(String, String)> {
    let exists = |p: &str| disk.contains(&p);
    let target_exists = target.is_some_and(exists);
    let place = target.and_then(|t| alias_target_place(build, link, t, target_exists));
    let place_exists = place.is_some_and(|p| disk.contains(&p.as_str()));
    alias_symlink_entry(build, link, target, target_exists, place_exists)
}

fn pair(l: &str, t: &str) -> Option<(String, String)> {
    Some((l.to_string(), t.to_string()))
}

/// The disposition of a link, with the files that exist.
fn of_link(build: &str, link: &str, target: &str, disk: &[&str], leads_to_file: bool) -> BuildDirDisposition {
    let target_exists = disk.contains(&target);
    let place_exists = alias_target_place(build, link, target, target_exists)
        .is_some_and(|p| disk.contains(&p.as_str()));
    let facts = EntryFacts {
        is_symlink: true,
        is_file: false,
        leads_to_file,
        target: Some(target.to_string()),
        target_exists,
        place_exists,
    };
    build_dir_disposition(build, link, &Vec::new(), &facts)
}

#[test]
fn a_dangling_soname_alias_is_carried_and_an_escape_is_not() {
    let d = "/tmp/nn-alias-test";
    assert_eq!(
        entry(d, "/tmp/nn-alias-test/orc/liborc-0.4.so.0", Some("liborc-0.4.so.0.42.0"), &[]),
        pair("orc/liborc-0.4.so.0", "liborc-0.4.so.0.42.0")
    );
    assert!(entry(
        d,
        "/tmp/nn-alias-test/orc/sibling",
        Some("../orc/liborc-0.4.so.0.42.0"),
        &[]
    )
    .is_some());
    assert_eq!(
        entry("/tmp/r/build", "/tmp/r/build/include/ccan", Some("../../ccan"), &["/tmp/r/ccan"]),
        pair("include/ccan", "../../ccan")
    );
    let hdr_build = "/tmp/h/build";
    let hdr = "/tmp/h/build/include/ccan/str.h";
    let disk = ["/tmp/h/ccan/str.h"];
    assert_eq!(
        entry(hdr_build, hdr, Some("/tmp/h/ccan/str.h"), &disk),
        pair("include/ccan/str.h", "../../../ccan/str.h")
    );
    assert!(alias_target_climbs_out(hdr_build, hdr, Some("/tmp/h/ccan/str.h")));
    assert_eq!(
        of_link(hdr_build, hdr, "/tmp/h/ccan/str.h", &disk, true),
        BuildDirDisposition::AliasAndUpload(
            "include/ccan/str.h".into(),
            "../../../ccan/str.h".into()
        )
    );
    let esc = entry(
        d,
        "/tmp/nn-alias-test/orc/escape",
        Some("../../../../etc/passwd"),
        &["/etc/passwd"],
    );
    assert_eq!(esc, None, "escaping target");
    let abs = entry(
        d,
        "/tmp/nn-alias-test/orc/absolute",
        Some("/nix/store/whatever"),
        &["/nix/store/whatever"],
    );
    assert_eq!(abs, None, "absolute target");
    assert_eq!(
        entry(d, "/tmp/nn-alias-test/orc/has space", Some("target"), &[]),
        None,
        "space breaks encoding"
    );
    assert_eq!(entry(d, "/tmp/nn-alias-test/orc/plain", None, &[]), None, "regular file");
}

#[test]
fn a_climbing_symlink_to_a_real_file_is_an_alias_and_readable() {
    let build = "/tmp/nn-x265/build";
    let link = "/tmp/nn-x265/build/libx265-10.a";
    assert_eq!(
        entry(build, link, Some("../build-10bits/libx265.a"), &["/tmp/nn-x265/build-10bits/libx265.a"]),
        pair("libx265-10.a", "../build-10bits/libx265.a"),
        "in the project tree, so the link text is carried as well"
    );
    assert!(alias_target_climbs_out(build, link, Some("../build-10bits/libx265.a")));
    let dangling = "/tmp/nn-x265/build/libx265-12.a";
    assert_eq!(entry(build, dangling, Some("../build-12bits/libx265.a"), &[]), None);
}

#[test]
fn a_link_out_of_the_tree_is_uploaded_and_a_dangling_one_is_not() {
    let build = "/tmp/nn-disp/build";
    let disk = ["/tmp/nn-disp/build-10bits/libx265.a", "/tmp/nn-disp/build/real.o"];
    assert_eq!(
        of_link(build, "/tmp/nn-disp/build/libx265-10.a", "../build-10bits/libx265.a", &disk, true),
        BuildDirDisposition::AliasAndUpload(
            "libx265-10.a".into(),
            "../build-10bits/libx265.a".into()
        )
    );
    assert_eq!(
        of_link(build, "/tmp/nn-disp/build/libx265-12.a", "../build-12bits/libx265.a", &disk, false),
        BuildDirDisposition::Skip
    );
    assert_eq!(
        of_link(build, "/tmp/nn-disp/build/alias.o", "real.o", &disk, true),
        BuildDirDisposition::Alias("alias.o".into(), "real.o".into())
    );
    let file = EntryFacts { is_file: true, leads_to_file: true, ..EntryFacts::default() };
    assert_eq!(
        build_dir_disposition(build, "/tmp/nn-disp/build/real.o", &Vec::new(), &file),
        BuildDirDisposition::Upload
    );
    assert_eq!(
        build_dir_disposition(build, "/tmp/nn-disp/build/sub", &Vec::new(), &EntryFacts::default()),
        BuildDirDisposition::Skip
    );
}

#[test]
fn the_drivers_own_state_is_no_input() {
    let own = vec!["state.json".to_string()];
    let file = EntryFacts { is_file: true, ..EntryFacts::default() };
    assert_eq!(
        build_dir_disposition("/b", "/b/x/state.json", &own, &file),
        BuildDirDisposition::Skip
    );
    assert_eq!(
        build_dir_disposition("/b", "/b/x/other.json", &own, &file),
        BuildDirDisposition::Upload
    );
}

#[test]
fn a_link_that_cannot_be_carried_is_uploaded_where_it_leads_to_a_file() {
    assert_eq!(
        of_link("/t/b", "/t/b/x", "/nix/store/y", &["/nix/store/y"], true),
        BuildDirDisposition::Upload
    );
}

#[test]
fn the_build_systems_own_state_is_not_walked() {
    assert!(!is_walked("meson-private", true) && !is_walked("meson-logs", true));
    assert!(is_walked("src", true) && is_walked("my-meson-x", true));
    assert!(is_walked("meson-info.json", false));
}

/// The order of the walk leaves no trace.
#[test]
fn a_scan_is_sorted_and_each_entry_stands_once() {
    let mut scan = BuildDirScan::new();
    let alias = |l: &str, t: &str| BuildDirDisposition::Alias(l.to_string(), t.to_string());
    assert!(!scan.take("/b", "/b/z", alias("z", "1"), false, false));
    assert!(!scan.take("/b", "/b/a", alias("a", "2"), false, false));
    assert!(!scan.take("/b", "/b/z", alias("z", "1"), false, false));
    let both = BuildDirDisposition::AliasAndUpload("m".to_string(), "../m".to_string());
    assert!(scan.take("/b", "/b/m", both, false, true));
    assert!(scan.take("/b", "/b/f", BuildDirDisposition::Upload, false, false));
    assert!(!scan.take("/b", "/b/p", BuildDirDisposition::Upload, false, true));
    for d in ["/b/empty", "/b/a dir", "/b", "/b/c", "/b/empty", "/elsewhere"] {
        assert!(!scan.take("/b", d, BuildDirDisposition::Skip, true, false));
    }
    assert!(!scan.take("/b", "/b/full", BuildDirDisposition::Skip, false, false));
    scan.finish();
    let links: Vec<(&str, &str)> =
        scan.alias_symlinks.iter().map(|(l, t)| (l.as_str(), t.as_str())).collect();
    assert_eq!(links, vec![("a", "2"), ("m", "../m"), ("z", "1")]);
    assert_eq!(scan.empty_dirs, vec!["c", "empty"]);
}

#[test]
fn the_build_directory_is_read_into_the_run() {
    let config = RunnerConfig {
        system: "x86_64-linux".to_string(),
        build_dir: "/b".to_string(),
        store_dir: "/nix/store".to_string(),
        is_output_derivation: false,
        jobs: 1,
        pools: Vec::new(),
        verbose: false,
    };
    let mut run = Runner::new(config, Vars::new(), Vec::new());
    let entry = |p: &str, facts: EntryFacts, empty_dir: bool, produced: bool| DirEntry {
        path: p.to_string(),
        facts,
        empty_dir,
        produced,
    };
    let file = || EntryFacts { is_file: true, ..EntryFacts::default() };
    let link = EntryFacts {
        is_symlink: true,
        leads_to_file: true,
        target: Some("z.so.1".to_string()),
        ..EntryFacts::default()
    };
    let up = run.read_build_dir(
        &vec!["state.json".to_string()],
        &vec![
            entry("/b/z.h", file(), false, false),
            entry("/b/made.h", file(), false, true),
            entry("/b/state.json", file(), false, false),
            entry("/b/z.so", link, false, false),
            entry("/b/y", EntryFacts::default(), true, false),
            entry("/b/x", EntryFacts::default(), true, false),
        ],
    );
    assert_eq!(up, vec!["/b/z.h"]);
    assert_eq!(run.scan.alias_symlinks, vec![("z.so".to_string(), "z.so.1".to_string())]);
    assert_eq!(run.scan.empty_dirs, vec!["x", "y"]);
}
