//! Paths and the rewriting of paths in command lines.
use nix_ninja::outputs::{
    autogen_cache_dir, autogen_include_root, common_include_root, task_output_paths,
    undeclared_outputs, undeclared_trees, verbose_log_path,
};
use nix_ninja::path::{
    dedup_paths, eq_path, leading_parent_components, lexical_join, normalize_build_path,
    parent_dir_or_here, rebase_post_cd, relative_from, same_project_tree, sandbox_build_dir,
    store_rel_path,
    TASK_SANDBOX_BUILD_DIR,
};
use nix_ninja::rewrite::{
    replace_path_token, rewrite_ancestor_paths, rewrite_ancestor_paths_ups, rewrite_cmdline,
    rewrite_to_sandbox_build_dir,
};

fn names(v: &[&str]) -> Vec<String> {
    v.iter().map(|s| s.to_string()).collect()
}

#[test]
fn a_bare_name_resolves_to_the_working_directory() {
    assert_eq!(parent_dir_or_here("gen.py"), ".");
}

#[test]
fn a_relative_name_keeps_its_directory() {
    assert_eq!(parent_dir_or_here("tools/gen.py"), "tools");
}

#[test]
fn an_absolute_name_keeps_its_directory() {
    assert_eq!(parent_dir_or_here("/build/source/tools/gen.py"), "/build/source/tools");
}

#[test]
fn a_root_level_name_resolves_to_a_real_directory() {
    assert_eq!(parent_dir_or_here("/gen.py"), "/");
}

#[test]
fn no_input_yields_an_unopenable_path() {
    for p in ["gen.py", "a/gen.py", "/a/gen.py", "/gen.py", ".", "a", ""] {
        let got = parent_dir_or_here(p);
        assert!(!got.is_empty(), "{p} produced an empty directory");
    }
}

#[test]
fn the_build_directory_itself_becomes_dot() {
    let bd = "/tmp/x/build/CMakeFiles/Verify";
    assert_eq!(
        rewrite_ancestor_paths("cc -I/tmp/x/build/CMakeFiles/Verify -c a.c", bd),
        "cc -I. -c a.c"
    );
}

#[test]
fn a_path_under_the_build_directory_is_unchanged_by_the_new_rule() {
    let bd = "/tmp/x/build/CMakeFiles/Verify";
    assert_eq!(
        rewrite_ancestor_paths("cc -I/tmp/x/build/CMakeFiles/Verify/sub -c a.c", bd),
        "cc -Isub -c a.c"
    );
}

#[test]
fn a_longer_sibling_name_is_not_a_match() {
    let bd = "/tmp/x/build/CMakeFiles/Verify";
    assert_eq!(
        rewrite_ancestor_paths("cc -I/tmp/x/build/CMakeFiles/VerifyFoo -c a.c", bd),
        "cc -I../VerifyFoo -c a.c"
    );
}

#[test]
fn the_bare_form_takes_the_cd_compensation_too() {
    let bd = "/tmp/x/build/CMakeFiles/Verify";
    assert_eq!(
        rewrite_ancestor_paths_ups("cc -I/tmp/x/build/CMakeFiles/Verify -c a.c", bd, 1),
        "cc -I.. -c a.c"
    );
}

#[test]
fn a_path_under_a_shallow_ancestor_is_left_alone() {
    let bd = "/work/qt/build";
    let raw = "cc -I/work/tools/gen -c /work/qt/build/a.c";
    assert_eq!(
        rewrite_ancestor_paths_ups(raw, bd, 3),
        "cc -I/work/tools/gen -c ../../../a.c",
        "only the build directory's own subtree may be rewritten"
    );
}

#[test]
fn ancestor_rewrite_compensates_for_cd_depth() {
    let bd = "/work/qt/build";
    let raw = "/work/qt/build/src/core/api/x\n/work/qt/src/core/api\n";
    assert_eq!(
        rewrite_ancestor_paths_ups(raw, bd, 3),
        "../../../src/core/api/x\n../../../../src/core/api\n"
    );
    assert_eq!(rewrite_ancestor_paths(raw, bd), "src/core/api/x\n../src/core/api\n");
    assert_eq!(
        rewrite_cmdline(
            "cd /work/qt/build/src/core/api && tool @/work/qt/build/src/core/api/a && touch /work/qt/build/src/core/api/ts",
            bd
        ),
        "cd src/core/api && tool @../../../src/core/api/a && touch ../../../src/core/api/ts"
    );
    assert_eq!(
        common_include_root(&names(&[
            "include/QtSvg/QtSvgDepends",
            "include/QtSvg/qtsvgversion.h",
            "src/svg/Svg_syncqt_timestamp",
        ])),
        Some("include/QtSvg".to_string())
    );
    assert_eq!(common_include_root(&names(&["src/svg/Svg_syncqt_timestamp"])), None);
    assert_eq!(
        common_include_root(&names(&["include/QtSvg/a.h", "include/QtGui/b.h"])),
        None
    );
    assert_eq!(
        common_include_root(&names(&["include/QtSvg/only.h", "src/svg/Svg_syncqt_timestamp"])),
        Some("include/QtSvg".to_string())
    );
    assert_eq!(
        dedup_paths(&names(&[
            "src/svg/Svg.version",
            "include/QtSvg/QtSvg",
            "src/svg/Svg.version",
        ])),
        names(&["src/svg/Svg.version", "include/QtSvg/QtSvg"])
    );
    let distinct = names(&["a", "b", "c"]);
    assert_eq!(dedup_paths(&distinct), distinct);
    assert_eq!(rewrite_cmdline("tool /work/qt/build/x", bd), "tool x");
    assert_eq!(
        rewrite_cmdline(
            "cd /work/qt/src/svg && cmake -DIN_FILE=/work/qt/build/src/svg/Svg.version.in -P /nix/store/x/G.cmake",
            bd
        ),
        "cmake -DIN_FILE=src/svg/Svg.version.in -P /nix/store/x/G.cmake"
    );
    assert_eq!(
        rewrite_cmdline("cd /work/qt/src/svg && /nix/store/t/bin/tool", bd),
        "/nix/store/t/bin/tool"
    );
    assert!(rewrite_cmdline(
        "cd /work/qt/build/src/core/api && tool @/work/qt/build/src/core/api/a",
        bd
    )
    .starts_with("cd src/core/api && "));
}

#[test]
fn deep_ancestor_becomes_up_chain() {
    let bd = "/work/qtwe/build/src/core/Release/x86_64";
    let cmd = "python3 gen.py --headers-root /work/qtwe/src/3p/icu/unicode --out gen";
    assert_eq!(
        rewrite_ancestor_paths(cmd, bd),
        "python3 gen.py --headers-root ../../../../../src/3p/icu/unicode --out gen"
    );
}

#[test]
fn build_dir_itself_strips_to_relative() {
    let bd = "/work/qtwe/build/out";
    assert_eq!(rewrite_ancestor_paths("cp /work/qtwe/build/out/a.h b.h", bd), "cp a.h b.h");
}

#[test]
fn store_and_system_paths_untouched() {
    let bd = "/work/qtwe/build/out";
    let cmd = "/nix/store/abc-python/bin/python3 /bin/sh /home/x";
    assert_eq!(rewrite_ancestor_paths(cmd, bd), cmd);
}

#[test]
fn a_path_is_replaced_only_as_a_whole() {
    assert_eq!(replace_path_token("-I/a/b -L/a/bc /a/b/d /a/b", "/a/b", "X"), "-IX -L/a/bc /a/b/d X");
    assert_eq!(replace_path_token("/a/b\u{e9} /a/b,", "/a/b", "X"), "/a/b\u{e9} X,");
    assert_eq!(replace_path_token("same", "", "X"), "same");
}

#[test]
fn lexical_join_pops_parents_against_base() {
    assert_eq!(
        lexical_join("gen/ui/webui/resources/js", "../../../../../../../../../../src/x.d.ts"),
        "../../../../../src/x.d.ts"
    );
    assert_eq!(lexical_join("gen/a", "b/./c"), "gen/a/b/c");
}

#[test]
fn a_build_dir_under_build_is_mirrored_exactly() {
    assert_eq!(
        sandbox_build_dir("/build/fortran-c-interface/build"),
        "/build/fortran-c-interface/build"
    );
}

#[test]
fn the_conventional_spelling_is_unchanged() {
    assert_eq!(sandbox_build_dir(TASK_SANDBOX_BUILD_DIR), TASK_SANDBOX_BUILD_DIR);
}

#[test]
fn a_build_dir_outside_build_falls_back_to_the_default() {
    assert_eq!(sandbox_build_dir("/home/user/project/build"), TASK_SANDBOX_BUILD_DIR);
}

#[test]
fn a_sibling_directory_sharing_the_prefix_is_not_under_build() {
    assert_eq!(sandbox_build_dir("/buildroot/pkg/build"), TASK_SANDBOX_BUILD_DIR);
}

#[test]
fn a_sibling_target_dir_is_moved_into_the_sandbox() {
    let bd = "/tmp/x/build/CMakeFiles/FortranCInterface";
    let json = r#"{"linked-target-dirs":["/tmp/x/build/CMakeFiles/FortranCInterface/CMakeFiles/myfort.dir"]}"#;
    assert_eq!(
        rewrite_to_sandbox_build_dir(json, bd),
        format!(r#"{{"linked-target-dirs":["{TASK_SANDBOX_BUILD_DIR}/CMakeFiles/myfort.dir"]}}"#)
    );
}

#[test]
fn a_sub_project_keeps_its_own_directory_segment() {
    let bd = "/build/source/build/CMakeFiles/FortranCInterface";
    let json = r#"{"linked-target-dirs":["/build/source/build/CMakeFiles/FortranCInterface/CMakeFiles/myfort.dir"]}"#;
    assert_eq!(rewrite_to_sandbox_build_dir(json, bd), json);
}

#[test]
fn the_result_is_still_an_absolute_path() {
    let bd = "/tmp/x/build";
    let got = rewrite_to_sandbox_build_dir(r#"{"dir-cur-bld":"/tmp/x/build"}"#, bd);
    assert!(got.contains(r#""dir-cur-bld":"/"#), "got {got}");
    assert!(!got.contains(r#""dir-cur-bld":"."#), "went relative: {got}");
}

#[test]
fn a_store_path_is_untouched() {
    let bd = "/tmp/x/build";
    let json = r#"{"dir-cur-src":"/nix/store/abc-cmake/share/Modules"}"#;
    assert_eq!(rewrite_to_sandbox_build_dir(json, bd), json);
}

#[test]
fn a_post_cd_reference_resolves_under_the_cd_target() {
    assert_eq!(rebase_post_cd("", "src/gen/version.py"), "src/gen/version.py");
    assert_eq!(rebase_post_cd("src/nix", "gen/version.py"), "src/nix/gen/version.py");
    assert_eq!(rebase_post_cd("src/nix", "../../scripts/build.py"), "scripts/build.py");
    assert_eq!(rebase_post_cd("a", "../../outside/x"), "../outside/x");
}

#[test]
fn create_symlink_link_is_an_output_with_and_without_cd() {
    let bd = "/build/source/build-dist";
    let none: Vec<String> = Vec::new();
    let v = undeclared_outputs(
        &none,
        Some("cd /build/source/build-dist && /nix/store/x-cmake/bin/cmake -E create_symlink lz4 lz4cat"),
        bd,
        None,
    );
    assert_eq!(v, names(&["lz4cat"]));
    let v = undeclared_outputs(&none, Some("cmake -E create_symlink hello hellocat"), bd, None);
    assert_eq!(v, names(&["hellocat"]));
    let v = undeclared_outputs(
        &none,
        Some("cd /build/source/build-dist/sub && cmake -E create_symlink a b"),
        bd,
        None,
    );
    assert_eq!(v, names(&["sub/b"]));
    let v = undeclared_outputs(&none, Some("cmake -E copy a b"), bd, None);
    assert!(v.is_empty());
}

#[test]
fn generators_fill_trees_beside_what_they_declare() {
    assert_eq!(
        autogen_include_root(&names(&["foo/bar_autogen/timestamp", "foo/bar_autogen/mocs.cpp"])),
        Some("foo/bar_autogen".to_string())
    );
    assert_eq!(autogen_include_root(&names(&["foo/a.o"])), None);
    assert_eq!(autogen_include_root(&names(&["x/T_autogen/timestamp", "x/other.txt"])), None);
    assert_eq!(autogen_include_root(&names(&["T_autogen/mocs.cpp", "T_autogen/sub/a.h"])), None);
    assert_eq!(autogen_cache_dir(&names(&["foo/a.o"])), None);
    assert!(undeclared_trees(&names(&["src/a.o"])).is_empty());
    assert_eq!(undeclared_trees(&names(&["include/QtSvg/a.h"])), names(&["include/QtSvg"]));
}

#[test]
fn the_log_lies_beside_the_first_output() {
    assert_eq!(verbose_log_path(&names(&["src/a.o", "src/b.o"])), "src/a.o.nn-verbose-log");
    assert_eq!(verbose_log_path(&names(&[])), "nn-verbose-log");
}

#[test]
fn every_output_is_encoded_in_order() {
    assert_eq!(
        task_output_paths(&names(&["a.o", "a.o/.", "b.o"]), &names(&["t", "b.o"]), Some("a.d"), true),
        names(&["a.o", "b.o", "t", "a.d", "a.o.nn-verbose-log"])
    );
    assert_eq!(task_output_paths(&names(&["a.o"]), &names(&[]), None, false), names(&["a.o"]));
}

#[test]
fn paths_are_compared_by_component() {
    assert!(eq_path("a//b/./c/", "a/b/c"));
    assert!(!eq_path("./a", "a"));
    assert!(!eq_path("a/../b", "b"));
    assert_eq!(leading_parent_components("../../a/../b"), 2);
    assert_eq!(leading_parent_components("a/../b"), 0);
}

#[test]
fn an_absolute_path_is_seen_from_the_build_directory_or_refused() {
    assert_eq!(normalize_build_path("/b/s/build", "x/y.o").ok(), Some("x/y.o".to_string()));
    assert_eq!(
        normalize_build_path("/b/s/build", "/b/s/bin/l.so").ok(),
        Some("../bin/l.so".to_string())
    );
    match normalize_build_path("/b/s/build", "/etc/passwd") {
        Ok(_) => panic!("a path outside the tree must be refused"),
        Err(e) => assert_eq!(
            e.message(),
            "absolute path /etc/passwd does not resolve under build dir /b/s/build; refusing to relocate it silently"
        ),
    }
}

/// A relative path walked from where it was seen leads back.
#[test]
fn seen_from_and_walked_from_agree() {
    for (p, base) in [("/b/s/x/y.c", "/b/s/build"), ("/b/s/build/a.o", "/b/s/build"), ("/b", "/b/s")] {
        let rel = relative_from(p, base).unwrap();
        assert_eq!(lexical_join(base, &rel), p);
    }
}

/// No location in a store object climbs.
#[test]
fn store_locations_never_climb() {
    assert_eq!(store_rel_path("../../a/b"), ".nn-up/.nn-up/a/b");
    assert_eq!(store_rel_path("src/a.o"), "src/a.o");
}

#[test]
fn a_command_that_names_no_directory_of_the_tree_is_left_alone() {
    let cmd = "gcc -I/nix/store/x/include -I/home /home/u2/a.c -o a.o";
    assert_eq!(rewrite_ancestor_paths(cmd, "/home/u/p/build"), cmd);
    assert_eq!(rewrite_ancestor_paths("x /home/u/p2/y", "/home/u/p/build"), "x ../../p2/y");
    assert_eq!(rewrite_ancestor_paths("x /tmp/y", "/tmp"), "x /tmp/y");
}

#[test]
fn one_tree_is_the_same_from_both_ends() {
    assert!(same_project_tree("/build/a", "/build/b/c") && same_project_tree("/build/b/c", "/build/a"));
    assert!(!same_project_tree("/build/a", "/etc/a") && !same_project_tree("/etc/a", "/build/a"));
    assert!(!same_project_tree("/", "/"));
}

#[test]
fn only_the_build_directory_itself_moves_into_the_sandbox() {
    let bd = "/tmp/x/build";
    for same in [
        "/tmp/x/build-old/a.json",
        "/tmp/x/build.ninja",
        "/other/tmp/x/build/a",
        "/tmp/x",
    ] {
        assert_eq!(rewrite_to_sandbox_build_dir(same, bd), same);
    }
    let at = TASK_SANDBOX_BUILD_DIR;
    assert_eq!(rewrite_to_sandbox_build_dir("-I/tmp/x/build/inc", bd), format!("-I{at}/inc"));
    assert_eq!(
        rewrite_to_sandbox_build_dir("\"/tmp/x/build\" /tmp/x/build:/tmp/x/build-old", bd),
        format!("\"{at}\" {at}:/tmp/x/build-old")
    );
}

#[test]
fn a_cd_out_of_the_build_directory_is_dropped() {
    let bd = "/work/qt/build";
    assert_eq!(rewrite_cmdline("cd /work/qt && tool /work/qt/build/x", bd), "tool x");
    assert_eq!(rewrite_cmdline("cd sub/../.. && tool /work/qt/build/x", bd), "tool x");
    assert_eq!(
        rewrite_cmdline("cd a/../sub && tool /work/qt/build/x", bd),
        "cd a/../sub && tool ../x"
    );
}
