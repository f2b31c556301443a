//! What names look like: headers, libraries, links, objects, trees, store names.
use nix_ninja::derived::{new_built_file, normalized_task_outputs, DerivedPath};
use nix_ninja::shapes::{
    header_like, is_cmake_depend_info, is_compile_task, is_tree_path, lib_shaped,
    link_shaped_outputs, normalize_output, opaque_upload_name,
};

fn names(v: &[&str]) -> Vec<String> {
    v.iter().map(|s| s.to_string()).collect()
}

fn link(v: &[&str]) -> bool {
    link_shaped_outputs(&names(v))
}

fn compile(deps: Option<&str>, v: &[&str]) -> bool {
    is_compile_task(deps, &names(v))
}

#[test]
fn the_cmake_precompiled_header_spelling_is_a_header() {
    assert!(header_like("core/CMakeFiles/x.dir/cmake_pch.hxx"));
}

#[test]
fn the_conventional_spellings_are_headers() {
    for h in [
        "a.h", "a.H", "a.hh", "a.hp", "a.hpp", "a.hxx", "a.h++", "a.inc", "a.ipp", "a.inl",
        "a.tcc",
    ] {
        assert!(header_like(h), "{h} should be header-shaped");
    }
}

#[test]
fn objects_and_sources_are_not_headers() {
    for n in ["a.o", "a.c", "a.cpp", "a.gen.cc", "a.so", "app"] {
        assert!(!header_like(n), "{n} must not be header-shaped");
    }
}

#[test]
fn header_shape_covers_the_c_family_and_nothing_else() {
    for h in ["a.h", "b.hpp", "c.hh", "d.inc", "e.ipp"] {
        assert!(header_like(h), "{h} should be header-shaped");
    }
    for n in ["obj.o", "gen.cc", "main.cpp", "noext"] {
        assert!(!header_like(n), "{n} is not this ratio's business");
    }
}

#[test]
fn an_unfamiliar_object_suffix_is_not_a_link() {
    assert!(!link(&["io_queue_init.ol"]));
    assert!(!link(&["keyutils.os"]));
    assert!(!link(&["udev.So"]));
    assert!(!link(&["a.o"]));
    assert!(!link(&["a.obj", "b.o"]));
}

#[test]
fn a_library_or_executable_is_a_link() {
    assert!(link(&["libZXing.so.3.1.1"]));
    assert!(link(&["libfoo.so"]));
    assert!(link(&["libfoo.a"]));
    assert!(link(&["hello"]));
    assert!(link(&["build/bin/app"]));
}

#[test]
fn a_dot_in_a_parent_directory_does_not_make_it_an_object() {
    assert!(link(&["CMakeFiles/x.dir/app"]));
}

#[test]
fn a_shared_library_object_directory_does_not_make_an_object_a_link() {
    assert!(!link(&["libword1.so.p/word1lib.c.o"]));
    assert!(!link(&["foo.so.p/bar.c.o"]));
    assert!(link(&["libword1.so.1.2.3"]));
}

#[test]
fn a_mixed_output_set_is_not_a_link() {
    assert!(!link(&["libfoo.so", "foo.o"]));
}

#[test]
fn no_outputs_is_not_a_link() {
    assert!(!link(&[]));
}

#[test]
fn a_link_with_gcc_deps_is_not_a_compile() {
    assert!(!compile(Some("gcc"), &["libz-ng.so.2.3.3"]));
    assert!(!compile(Some("gcc"), &["libcapstone.a"]));
    assert!(!compile(Some("gcc"), &["zlib-ng-test"]));
}

#[test]
fn a_compile_still_is_one() {
    assert!(compile(Some("gcc"), &["CMakeFiles/z.dir/deflate.c.o"]));
    assert!(compile(Some("gcc"), &[".libs/hf_64.lo"]));
    assert!(compile(Some("gcc"), &["a.o", "b.obj"]));
}

#[test]
fn mixed_outputs_are_not_a_compile() {
    assert!(!compile(Some("gcc"), &["a.o", "libz.so"]));
}

#[test]
fn no_outputs_is_not_a_compile() {
    assert!(!compile(Some("gcc"), &[]));
}

#[test]
fn other_deps_are_never_a_compile() {
    assert!(!compile(None, &["x.o"]));
    assert!(!compile(Some("msvc"), &["x.o"]));
}

#[test]
fn lib_shape_table() {
    assert!(lib_shaped("orc/liborc-0.4.so.0.42.0"));
    assert!(lib_shaped("orc/liborc-0.4.so"));
    assert!(lib_shaped("orc/liborc-0.4.so.0.42.0.p/liborc-0.4.so.0.42.0.symbols"));
    assert!(!lib_shaped("/nix/store/aaaaaaaaaaaaaaaaaaaaaaaaaaaaaaaa-glibc/lib/libm.so"));
    assert!(!lib_shaped("orc/liborc-0.4.so.0.42.0.p/orc.c.o"));
    assert!(!lib_shaped("../orc/orc.c"));
    assert!(!lib_shaped("tools/orcc"));
}

#[test]
fn a_generated_header_under_include_is_not_a_tree() {
    assert!(!is_tree_path("include/vcs_version.h"));
    assert!(is_tree_path("include/QtSvg"));
    assert!(is_tree_path("include/QtSvg/.nn-tree"));
    assert!(is_tree_path("foo/bar_autogen"));
}

#[test]
fn only_cmake_depend_info_is_rewritten() {
    assert!(is_cmake_depend_info("a/FortranDependInfo.json"));
    assert!(is_cmake_depend_info("a/CXXDependInfo.json"));
    assert!(!is_cmake_depend_info("a/DependInfo.cmake"));
    assert!(!is_cmake_depend_info("a/FortranModules.json"));
    assert!(!is_cmake_depend_info("a/compile_commands.json"));
}

#[test]
fn slash_still_maps_to_dash() {
    assert_eq!(normalize_output("src/main.o"), "src-main.o");
}

#[test]
fn at_sign_is_sanitized() {
    assert_eq!(normalize_output("icon@2x.png"), "icon-2x.png");
    assert_eq!(
        normalize_output("node_modules/@babel/core/lib/index.js"),
        "node_modules--babel-core-lib-index.js"
    );
    assert_eq!(normalize_output("sr@latin.po"), "sr-latin.po");
}

#[test]
fn allowed_charset_passes_through() {
    assert_eq!(normalize_output("libfoo+bar_1.2-r3?x=y.so"), "libfoo+bar_1.2-r3?x=y.so");
}

#[test]
fn leading_period_is_prefixed() {
    assert_eq!(normalize_output(".hidden.c"), "-.hidden.c");
}

#[test]
fn empty_falls_back() {
    assert_eq!(normalize_output(""), "source");
}

#[test]
fn spaces_and_unicode_are_sanitized() {
    assert_eq!(normalize_output("a b\u{e9}.c"), "a-b-.c");
}

/// A store name is a store name.
#[test]
fn naming_twice_is_naming_once() {
    for s in ["src/main.o", ".hidden.c", "", "a b\u{e9}.c", "x"] {
        let once = normalize_output(s);
        assert_eq!(normalize_output(&once), once);
    }
}

#[test]
fn an_upload_is_named_for_the_path_asked_about() {
    let canonical = "/nix/store/syw437nmaaaaaaaaaaaaaaaaaaaaaaaa-sgtts2.f.o";
    assert_eq!(
        opaque_upload_name("lapack-netlib/TESTING/sgtts2.f.o", canonical),
        "sgtts2.f.o",
        "naming from the canonical path is what nests a second hash"
    );
}

#[test]
fn a_nameless_spelling_falls_back_to_the_resolved_file() {
    let canonical = "/nix/store/aaaa-libfoo.so.1";
    assert_eq!(
        opaque_upload_name("..", canonical),
        "aaaa-libfoo.so.1",
        "the fallback keeps the resolved basename, hash and all"
    );
    assert_eq!(opaque_upload_name("", canonical), "aaaa-libfoo.so.1");
}

#[test]
fn an_ordinary_file_keeps_the_name_it_had() {
    assert_eq!(opaque_upload_name("src/util.c", "/build/source/src/util.c"), "util.c");
}

fn drv() -> DerivedPath {
    DerivedPath::opaque("zzzzzzzzzzzzzzzzzzzzzzzzzzzzzzzz-x.drv")
}

#[test]
fn rel_path_never_climbs() {
    let df = new_built_file(&drv(), "../bin/Release/libopenfec.so.1.4.2");
    assert_eq!(df.build_path, "../bin/Release/libopenfec.so.1.4.2");
    assert_eq!(
        df.rel_path,
        Some(".nn-up/bin/Release/libopenfec.so.1.4.2".to_string())
    );
}

#[test]
fn in_tree_output_keeps_rel_path_equal() {
    let df = new_built_file(&drv(), "src/main.o");
    assert_eq!(df.rel_path, Some("src/main.o".to_string()));
}

#[test]
fn a_built_file_is_an_output_of_its_derivation() {
    let df = new_built_file(&drv(), "src/main.o");
    assert_eq!(df.derived_path.store_path, "zzzzzzzzzzzzzzzzzzzzzzzzzzzzzzzz-x.drv");
    assert_eq!(df.derived_path.outputs, vec!["src-main.o"]);
    assert!(!df.derived_path.is_opaque());
    assert!(drv().is_opaque());
}

#[test]
fn an_output_in_a_sibling_of_the_build_directory_is_kept() {
    let got = normalized_task_outputs(
        "/build/source/build",
        &names(&["/build/source/bin/Release/libopenfec.so.1.4.2"]),
        &drv(),
        "libopenfec",
    );
    match got {
        Ok(v) => {
            assert_eq!(v.len(), 1);
            assert_eq!(v[0].build_path, "../bin/Release/libopenfec.so.1.4.2");
        }
        Err(_) => panic!("an output in the package's own tree must be accepted"),
    }
}

#[test]
fn ordinary_outputs_all_come_back() {
    let got = normalized_task_outputs(
        "/build/source/build",
        &names(&["src/a.o", "src/b.o"]),
        &drv(),
        "src/a.o",
    );
    assert_eq!(got.map(|v| v.len()).ok(), Some(2));
}

#[test]
fn an_output_that_cannot_be_placed_fails_the_whole_task() {
    let got = normalized_task_outputs(
        "/build/source/build",
        &names(&["src/a.o", "/etc/passwd"]),
        &drv(),
        "src/a.o",
    );
    let text = match got {
        Ok(_) => panic!("an unplaceable output must fail, not be dropped"),
        Err(e) => format!("{}: {}", e.message(), e.cause.message()),
    };
    assert!(
        text.contains("/etc/passwd"),
        "the error must name the offending output: {text}"
    );
    assert!(text.contains("src/a.o"), "and the task it belongs to: {text}");
    assert_eq!(
        text,
        "task src/a.o: declared output /etc/passwd is not under the build directory \
         /build/source/build; failing the task rather than dropping the output: \
         absolute path /etc/passwd does not resolve under build dir /build/source/build; \
         refusing to relocate it silently"
    );
}

#[test]
fn no_partial_output_set_is_returned() {
    assert!(normalized_task_outputs(
        "/build/source/build",
        &names(&["src/a.o", "/etc/passwd"]),
        &drv(),
        "t",
    )
    .map(|v| v.len())
    .is_err());
}
