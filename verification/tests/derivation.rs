//! The derivation of a task.
use nix_ninja::assembly::{
    begin_task_derivation, build_task_derivation, close_task_derivation, extra_packages,
    toolchain_package, toolchain_programs,
};
use nix_ninja::climb::command_height;
use nix_ninja::derivation::{
    build_dynamic_task_derivation, count_headers, declare_dotdot_dirs, drv_json_name,
    handled_path, handling, linker_names, linker_programs, program_is_input, script_tool_names,
    Derivation, DerivationError, Encoded, Handling, OutputKind, TaskDerivation, Tools,
};
use nix_ninja::derived::{new_built_file, new_opaque, DerivedPath};
use nix_ninja::task::Task;
use nix_ninja::vars::Vars;

fn names(v: &[&str]) -> Vec<String> {
    v.iter().map(|s| s.to_string()).collect()
}

fn s(x: &str) -> String {
    x.to_string()
}

fn tools() -> Tools {
    Tools::new(
        s("/nix/store/bash"),
        Some(s("/nix/store/cc")),
        s("/nix/store/coreutils"),
        s("/nix/store/nix"),
        s("/nix/store/ninja"),
        s("/nix/store/ninja-task"),
        s("/nix/store/patchelf"),
        &vec![Some(s("/nix/store/sed")), None],
    )
}

fn task() -> Task {
    let mut vars = Vars::new();
    vars.set("NIX_CFLAGS_COMPILE", "-O2");
    vars.set("NIX_LDFLAGS", "-L/fake/lib");
    Task {
        system: s("x86_64-linux"),
        wrapper_vars: vars,
        input_srcs: names(&["/nix/store/src"]),
        build_dir: s("/build/s/b"),
        store_dir: s("/nix/store"),
        cmdline: Some(s("gcc -c a.c -o a.o -DP=/real")),
        desc: Some(s("CC a.o")),
        deps: None,
        rspfile: None,
        depfile: None,
        out_names: names(&["a.o"]),
        inputs: vec![new_opaque("s1", "a.c")],
        store_srcs: Vec::new(),
        outputs: names(&["a.o"]),
        verbose: false,
        alias_symlinks: Vec::new(),
        empty_dirs: Vec::new(),
    }
}

fn maps() -> (Vec<(String, String)>, Vec<(String, String)>) {
    (vec![(s("/real"), s("/fake"))], vec![(s("/fake"), s("/real"))])
}

fn encoded(store: &str, place: &str) -> Encoded {
    Encoded { file: new_opaque(store, place), text: format!("{store}:{place}:{place}") }
}

fn begun(t: &Task) -> TaskDerivation {
    let (there, back) = maps();
    begin_task_derivation(&tools(), t, &there, &back, false, &Vec::new(), &Vec::new()).unwrap()
}

fn has(d: &Derivation, p: &str) -> bool {
    d.inputs.contains(&DerivedPath::opaque(p))
}

fn message<T>(r: Result<T, DerivationError>) -> String {
    match r {
        Ok(_) => panic!("expected an error"),
        Err(e) => e.message(),
    }
}

#[test]
fn the_derivation_runs_the_command_with_the_tools() {
    let t = task();
    let (there, back) = maps();
    let passed = vec![(s("PKG"), Some(s("/nix/store/pkg/lib"))), (s("MODE"), Some(s("fast")))];
    let d = begin_task_derivation(
        &tools(),
        &t,
        &there,
        &back,
        false,
        &passed,
        &vec![encoded("s1", "a.c")],
    )
    .unwrap();
    assert_eq!(d.cmdline, "gcc -c a.c -o a.o -DP=/fake");
    assert!(!d.lto);
    let d = close_task_derivation(d, &t, &Vec::new(), None).unwrap();
    assert_eq!(d.paths(), &names(&["a.o"]));
    let drv =
        build_task_derivation(d, &tools(), &t, &there, &names(&["/p1"]), &names(&["/nix/store/gold"]))
            .unwrap();
    assert_eq!(drv.name, "ninja-build");
    assert_eq!(drv.platform, "x86_64-linux");
    assert_eq!(drv.builder, "/nix/store/ninja-task/bin/nix-ninja-task");
    assert_eq!(
        drv.args,
        names(&[
            "gcc -c a.c -o a.o -DP=/fake",
            "--description=CC a.o",
            "--build-dir",
            "/build/s/b"
        ])
    );
    for p in [
        "/nix/store/src",
        "/nix/store/bash",
        "/nix/store/cc",
        "/nix/store/coreutils",
        "/nix/store/ninja-task",
        "/nix/store/patchelf",
        "/nix/store/sed",
        "/nix/store/pkg",
        "/nix/store/gold",
        "s1",
    ] {
        assert!(has(&drv, p), "{p} is no input");
    }
    assert!(!has(&drv, "/nix/store/nix"));
    let env = |k: &str| drv.env.get(k);
    assert_eq!(env("MODE").as_deref(), Some("fast"));
    assert_eq!(env("PKG").as_deref(), Some("/nix/store/pkg/lib"));
    assert_eq!(env("NIX_LDFLAGS").as_deref(), Some("-L/fake/lib"));
    let flags = env("NIX_CFLAGS_COMPILE").unwrap();
    assert!(flags.starts_with("-O2 -frandom-seed="), "{flags}");
    assert_eq!(env("NIX_NINJA_INPUTS").as_deref(), Some("s1:a.c:a.c"));
    assert_eq!(env("NIX_NINJA_OUTPUTS").as_deref(), Some("/p1:a.o:a.o"));
    assert_eq!(env("passAsFile").as_deref(), Some("NIX_NINJA_INPUTS NIX_NINJA_OUTPUTS"));
    assert_eq!(env("NIX_NINJA_ALIASES"), None);
    assert_eq!(
        env("PATH").as_deref(),
        Some("/nix/store/bash/bin:/nix/store/cc/bin:/nix/store/coreutils/bin:/nix/store/patchelf/bin:/nix/store/sed/bin:/nix/store/gold/bin")
    );
    assert_eq!(drv.outputs, vec![(s("a.o"), OutputKind::Archive)]);
}

#[test]
fn a_task_for_link_time_optimisation_keeps_the_real_paths() {
    let mut t = task();
    t.deps = Some(s("gcc"));
    t.cmdline = Some(s("gcc -flto -c a.c -DP=/real"));
    let mut d = begun(&t);
    assert!(d.lto);
    assert_eq!(d.cmdline, "gcc -flto -c a.c -DP=/real");
    assert_eq!(d.drv.env.get("NIX_LDFLAGS").as_deref(), Some("-L/real/lib"));
    d.add_inputs(&vec![encoded("s1", "a.c")]);
    assert_eq!(d.raw_candidates(), names(&["a.c"]));
    d.refresh("a.c", &encoded("raw", "a.c"));
    assert!(has(&d.drv, "raw") && !has(&d.drv, "s1"));
    assert!(d.encoded.contains("raw:a.c:a.c") && !d.encoded.contains("s1:a.c:a.c"));
    let mut plain = begun(&task());
    plain.add_inputs(&vec![encoded("s1", "a.c")]);
    assert!(plain.raw_candidates().is_empty());
}

#[test]
fn every_refusal_says_why() {
    let (there, back) = maps();
    let none = Vec::new();
    let begin = |tools: &Tools, t: &Task, passed: &Vec<(String, Option<String>)>| {
        message(begin_task_derivation(tools, t, &there, &back, false, passed, &Vec::new()))
    };
    let mut alias = task();
    alias.cmdline = None;
    assert_eq!(begin(&tools(), &alias, &none), "Phony tasks not yet supported");
    let mut bare = tools();
    bare.cc = None;
    assert_eq!(
        begin(&bare, &task(), &none),
        "`cc` is not on PATH; every task derivation needs the compiler as an input"
    );
    let set = |n: &str, v: &str| (s(n), Some(s(v)));
    assert!(begin(&tools(), &task(), &vec![set("A", "x"), (s("B"), None), set("C", "/etc")])
        .starts_with("NIX_NINJA_PASS_ENV names B, which is not set."));
    assert_eq!(
        begin(&tools(), &task(), &vec![set("R", "/nix/store")]),
        "R=/nix/store is the store root itself, not a store path"
    );
    assert!(begin(&tools(), &task(), &vec![set("O", "/etc/x")])
        .starts_with("NIX_NINJA_PASS_ENV names O=/etc/x, an absolute path outside /nix/store."));
    let mut high = task();
    high.build_dir = s("/b");
    high.cmdline = Some(s("gcc ../../../x.c"));
    assert_eq!(
        message(close_task_derivation(begun(&high), &high, &Vec::new(), None)),
        "inputs climb 3 levels above build dir /b, which has only 2 components"
    );
    let mut twice = task();
    twice.outputs = names(&["x/y.o", "x-y.o"]);
    assert_eq!(
        message(close_task_derivation(begun(&twice), &twice, &Vec::new(), None)),
        "two outputs of this edge map to the store name x-y.o; the second is x-y.o"
    );
    let mut empty = task();
    empty.cmdline = Some(s("cd x &&"));
    assert_eq!(message(begun(&empty).program()), "No command found in cmdline");
    assert_eq!(begun(&task()).program().unwrap(), "gcc");
    let d = close_task_derivation(begun(&task()), &task(), &Vec::new(), None).unwrap();
    assert_eq!(
        message(build_task_derivation(d, &bare, &task(), &there, &names(&["/p"]), &none2())),
        "`cc` is not on PATH; every task derivation needs the compiler as an input"
    );
}

fn none2() -> Vec<String> {
    Vec::new()
}

#[test]
fn a_climb_is_mirrored_below_the_sandbox() {
    let mut t = task();
    t.build_dir = s("/home/u/p/build");
    let mut d = begun(&t);
    d.add_inputs(&vec![encoded("s1", "../src/a.c"), encoded("s2", "x.h")]);
    let d = close_task_derivation(d, &t, &Vec::new(), None).unwrap();
    assert_eq!(&d.stage().drv.args[2..], &names(&["--build-dir", "/build/source/build"])[..]);
    let d = close_task_derivation(begun(&t), &t, &Vec::new(), None).unwrap();
    assert_eq!(d.stage().drv.args.len(), 2, "nothing climbs");
}

#[test]
fn the_sandbox_is_as_deep_as_any_word_climbs() {
    for (word, height) in [
        ("../../../x.c", 3),
        ("-I../../inc", 2),
        ("--root=../x", 1),
        ("-L\"../../lib\"", 2),
        ("A=../x:../../y", 2),
        ("@../x.rsp", 1),
        ("a/../../b", 1),
        ("a/../b", 0),
        ("a..", 0),
        ("-x..y", 0),
        ("/a/../..", 0),
    ] {
        assert_eq!(command_height(&format!("gcc {word} -c")), height, "{word}");
    }
    let mut t = task();
    t.build_dir = s("/home/u/p/build");
    t.cmdline = Some(s("gcc -I../../inc -c x.c"));
    let d = close_task_derivation(begun(&t), &t, &Vec::new(), None).unwrap();
    assert_eq!(&d.stage().drv.args[2..], &names(&["--build-dir", "/build/source/p/build"])[..]);
}

/// The task is told of its inputs in one order, whatever order they came in.
#[test]
fn inputs_are_told_by_build_path() {
    let t = task();
    let told = |v: Vec<Encoded>| {
        let mut d = begun(&t);
        d.add_inputs(&v);
        let d = close_task_derivation(d, &t, &Vec::new(), None).unwrap();
        d.stage().drv.env.get("NIX_NINJA_INPUTS").unwrap()
    };
    let a = told(vec![encoded("zz", "a.c"), encoded("aa", "b.c"), encoded("mm", "a.c")]);
    let b = told(vec![encoded("mm", "a.c"), encoded("zz", "a.c"), encoded("aa", "b.c")]);
    assert_eq!(a, "mm:a.c:a.c zz:a.c:a.c aa:b.c:b.c");
    assert_eq!(a, b);
}

#[test]
fn links_and_empty_directories_are_told() {
    let mut t = task();
    t.alias_symlinks = vec![(s("l"), s("t")), (s("m"), s("../u"))];
    t.empty_dirs = names(&["d", "e"]);
    let d = close_task_derivation(begun(&t), &t, &Vec::new(), None).unwrap();
    assert_eq!(d.stage().drv.env.get("NIX_NINJA_ALIASES").as_deref(), Some("l=t m=../u"));
    assert_eq!(d.stage().drv.env.get("NIX_NINJA_EMPTY_DIRS").as_deref(), Some("d e"));
}

#[test]
fn log_depfile_and_response_file_are_told() {
    let (there, _) = maps();
    let mut t = task();
    t.verbose = true;
    t.deps = Some(s("gcc"));
    t.depfile = Some(s("d/a.d"));
    t.cmdline = Some(s("gcc -MD -MF d/a.d -c a.c"));
    t.rspfile = Some((s("a.rsp"), s("-L/real")));
    let d = close_task_derivation(begun(&t), &t, &Vec::new(), None).unwrap();
    assert_eq!(d.paths(), &names(&["a.o", "d/a.d", "a.o.nn-verbose-log"]));
    let drv = build_task_derivation(
        d,
        &tools(),
        &t,
        &there,
        &names(&["/p1", "/p2", "/p3"]),
        &Vec::new(),
    )
    .unwrap();
    let env = |k: &str| drv.env.get(k);
    assert_eq!(env("NIX_NINJA_VERBOSE_LOG").as_deref(), Some("a.o.nn-verbose-log"));
    assert_eq!(env("NIX_NINJA_DEPFILE").as_deref(), Some("d-a.d"));
    assert_eq!(env("NIX_NINJA_RSPFILE_PATH").as_deref(), Some("a.rsp"));
    assert_eq!(env("NIX_NINJA_RSPFILE_CONTENT").as_deref(), Some("-L/fake"));
    assert_eq!(
        env("passAsFile").as_deref(),
        Some("NIX_NINJA_INPUTS NIX_NINJA_OUTPUTS NIX_NINJA_RSPFILE_CONTENT")
    );
    assert_eq!(
        env("NIX_NINJA_OUTPUTS").as_deref(),
        Some("/p1:a.o:a.o /p2:d/a.d:d/a.d /p3:a.o.nn-verbose-log:a.o.nn-verbose-log")
    );
    assert_eq!(drv.outputs.len(), 3);
}

#[test]
fn what_is_discovered_is_added_once() {
    let mut d = begun(&task());
    d.add_inputs(&vec![encoded("s1", "a.c")]);
    d.take_discovered(
        "/build/s/b",
        &names(&["/build/s/inc"]),
        &names(&["/nix/store/glibc"]),
        &vec![encoded("s1", "a.c"), encoded("s2", "a.h")],
    );
    assert_eq!(d.files.len(), 2);
    assert!(has(&d.drv, "/nix/store/glibc") && has(&d.drv, "s2"));
    assert_eq!(d.drv.env.get("NIX_NINJA_MKDIRS").as_deref(), Some("../inc"));
    let mut env = Vars::new();
    declare_dotdot_dirs(&mut env, "/build/s/b", &Vec::new());
    assert_eq!(env.get("NIX_NINJA_MKDIRS"), None);
}

#[test]
fn a_file_that_was_regenerated_is_read_again() {
    let mut d = begun(&task());
    d.add_inputs(&vec![encoded("old", "c.h"), encoded("same", "a.c"), encoded("same", "a.c")]);
    assert!(d.clashing_places().is_empty());
    d.add_inputs(&vec![encoded("new", "./c.h"), encoded("new", "c.h")]);
    assert_eq!(d.clashing_places(), names(&["c.h"]));
    d.refresh("c.h", &encoded("now", "c.h"));
    assert!(has(&d.drv, "now") && !has(&d.drv, "old") && !has(&d.drv, "new"));
    assert!(d.encoded.contains("now:c.h:c.h") && !d.encoded.contains("old:c.h:c.h"));
    assert!(d.encoded.contains("same:a.c:a.c"));
    assert!(d.clashing_places().is_empty());
    let listed: Vec<&str> = d.files.iter().map(|e| e.text.as_str()).collect();
    assert_eq!(
        listed,
        vec!["same:a.c:a.c", "same:a.c:a.c", "new:./c.h:./c.h", "now:c.h:c.h"],
        "the file as it is now stands in the place of its uploads"
    );
}

/// A file that was regenerated and that the task has to have with the real
/// paths is told once, at its raw content.
#[test]
fn one_build_path_has_one_content() {
    let mut t = task();
    t.deps = Some(s("gcc"));
    t.cmdline = Some(s("gcc -flto -c a.c -DP=/real"));
    let mut d = begun(&t);
    d.add_inputs(&vec![encoded("old", "c.h"), encoded("new", "c.h"), encoded("s1", "a.c")]);
    assert_eq!(d.clashing_places(), names(&["c.h"]));
    assert_eq!(d.raw_candidates(), names(&["c.h", "a.c"]));
    let fresh = vec![(s("c.h"), encoded("now", "c.h")), (s("c.h"), encoded("raw", "c.h"))];
    let d = close_task_derivation(d, &t, &fresh, None).unwrap();
    let told = d.stage().drv.env.get("NIX_NINJA_INPUTS");
    assert_eq!(told.as_deref(), Some("s1:a.c:a.c raw:c.h:c.h"));
    assert!(has(&d.stage().drv, "raw") && has(&d.stage().drv, "s1"));
    assert!(["old", "new", "now"].iter().all(|p| !has(&d.stage().drv, p)));
    assert_eq!(d.stage().files.len(), 2);
}

/// A file that is uploaded under another spelling clears that place as well.
#[test]
fn a_fresh_upload_is_alone_where_it_lies() {
    let mut d = begun(&task());
    d.add_inputs(&vec![encoded("a", "./c.h"), encoded("b", "./c.h"), encoded("c", "c.h")]);
    d.refresh("./c.h", &encoded("now", "c.h"));
    assert_eq!(d.files.len(), 1);
    assert!(d.clashing_places().is_empty());
    assert!(has(&d.drv, "now") && !has(&d.drv, "c"));
}

#[test]
fn the_packages_of_a_commands_programs_are_added() {
    let t = task();
    assert_eq!(
        linker_names("gcc -fuse-ld=gold -fuse-ld='mold' -fuse-ld=bfd -fuse-ld="),
        names(&["gold", "mold"])
    );
    assert_eq!(linker_programs("gold"), (s("ld.gold"), s("gold")));
    let linkers = vec![
        (Some(s("/nix/store/gold")), Some(s("/nix/store/other"))),
        (None, Some(s("/nix/store/mold"))),
        (None, None),
    ];
    assert_eq!(
        extra_packages(
            &t,
            "gcc",
            Ok(Some(s("/nix/store/gcc"))),
            &linkers,
            &Some(s("/nix/store/make")),
            &Some(s("/nix/store/orig"))
        ),
        Ok(names(&[
            "/nix/store/gcc",
            "/nix/store/gold",
            "/nix/store/mold",
            "/nix/store/make",
            "/nix/store/orig"
        ]))
    );
    assert_eq!(
        extra_packages(&t, "gcc", Ok(None), &Vec::new(), &None, &None),
        Ok(Vec::new())
    );
    assert_eq!(
        extra_packages(&t, "nope", Err(s("not found")), &Vec::new(), &None, &None),
        Err(s("not found"))
    );
    assert_eq!(
        extra_packages(&t, "/build/s/b/a.c", Err(s("not found")), &Vec::new(), &None, &None),
        Ok(Vec::new())
    );
    assert!(program_is_input(&t, "a.c") && !program_is_input(&t, "b.c"));
}

#[test]
fn a_task_goes_on_as_its_inputs_allow() {
    assert_eq!(handling(0, true), Handling::Plain);
    assert_eq!(handling(2, true), Handling::Dynamic);
    assert_eq!(handling(2, false), Handling::Local);
    assert!(handled_path(Handling::Plain, "x.drv").is_opaque());
    let p = handled_path(Handling::Dynamic, "x.drv");
    assert!(!p.is_opaque());
    assert_eq!(p.outputs, names(&["out"]));
    assert_eq!(
        count_headers(&vec![new_opaque("s", "a.h"), new_opaque("s", "a.c"), new_opaque("s", "b.hpp")]),
        2
    );
}

#[test]
fn a_derivation_can_make_another_one() {
    let drv = DerivedPath::opaque("gen.drv");
    let e = Encoded { file: new_built_file(&drv, "gen.h"), text: s("/p:gen.h:gen.h") };
    let f = Encoded { file: new_built_file(&drv, "a.h"), text: s("/q:a.h:a.h") };
    let d = build_dynamic_task_derivation(
        &tools(),
        "ninja-build",
        "x86_64-linux",
        &vec![e, f],
        "/out",
        "/nix/store/src",
        "/nix/store/json",
    );
    assert_eq!(d.name, "ninja-build.drv");
    assert_eq!(d.builder, "/nix/store/ninja/bin/nix-ninja");
    assert_eq!(d.args, names(&["-t", "dynamic-task", "/nix/store/json"]));
    assert_eq!(
        d.env.get("NIX_NINJA_INPUTS").as_deref(),
        Some("/q:a.h:a.h /p:gen.h:gen.h")
    );
    assert_eq!(d.env.get("name").as_deref(), Some("ninja-build.drv"));
    assert_eq!(d.env.get("out").as_deref(), Some("/out"));
    assert_eq!(d.env.get("PATH").as_deref(), Some("/nix/store/nix/bin"));
    assert_eq!(d.env.get("requiredSystemFeatures").as_deref(), Some("builder-rpc-v0"));
    for p in ["/nix/store/ninja", "/nix/store/nix", "/nix/store/src", "/nix/store/json"] {
        assert!(has(&d, p), "{p} is no input");
    }
    assert!(d.inputs.contains(&DerivedPath::built(&drv, "gen.h")));
    assert_eq!(d.outputs, vec![(s("out"), OutputKind::Text)]);
    assert_eq!(drv_json_name("ninja-build"), "drv-ninja-build.json");
}

#[test]
fn what_scripts_call_is_looked_up_by_name() {
    assert_eq!(script_tool_names(), names(&["sed", "awk", "grep", "m4", "xxd"]));
    assert_eq!(tools().script_tools, names(&["/nix/store/sed"]));
    assert_eq!(tools().require_cc().unwrap(), "/nix/store/cc");
}

#[test]
fn the_compilers_own_package_comes_with_its_tools() {
    assert_eq!(
        toolchain_programs("/nix/store/gcc \n", &names(&["gcc-ar", "gcc-nm"])),
        names(&["/nix/store/gcc/bin/gcc-ar", "/nix/store/gcc/bin/gcc-nm"])
    );
    assert_eq!(
        toolchain_package(Some("/nix/store/gcc \n"), &vec![false, true]),
        Some(s("/nix/store/gcc"))
    );
    assert_eq!(toolchain_package(Some("/nix/store/gcc\n"), &vec![false]), None);
    assert_eq!(toolchain_package(None, &vec![true]), None);
}
