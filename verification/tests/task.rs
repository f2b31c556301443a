//! Tasks: what an edge's inputs lead to, and what a task leaves behind.
use nix_ninja::arguments::{ArgAction, CommandLine};
use nix_ninja::derived::{new_built_file, new_opaque, DerivedFile, DerivedPath};
use nix_ninja::graph::FileId;
use nix_ninja::resources::ResourceWalk;
use nix_ninja::runner::{Edge, Runner, RunnerConfig};
use nix_ninja::task::{
    consumes_preprocessed_fortran, directories_of, edge_label, edge_outputs, finish,
    implicit_limit, inputs_to_realise, new_task, own_outputs, wants_dependency_discovery,
    wants_linker_file,
    Collected, Draft, InputAction, Task, IMPLICIT_INPUTS_LIMIT,
};
use nix_ninja::vars::Vars;

fn names(v: &[&str]) -> Vec<String> {
    v.iter().map(|s| s.to_string()).collect()
}

fn runner(build_dir: &str) -> Runner {
    let config = RunnerConfig {
        system: "x86_64-linux".to_string(),
        build_dir: build_dir.to_string(),
        store_dir: "/nix/store".to_string(),
        is_output_derivation: false,
        jobs: 4,
        pools: Vec::new(),
        verbose: false,
    };
    let mut vars = Vars::new();
    vars.set("NIX_LDFLAGS", "-lm");
    Runner::new(config, vars, names(&["/nix/store/w"]))
}

fn edge(outs: &[(FileId, &str)], cmd: Option<&str>, deps: Option<&str>) -> Edge {
    Edge {
        outs: outs.iter().map(|(i, n)| (*i, n.to_string())).collect(),
        ordering_ins: Vec::new(),
        dirtying_ins: Vec::new(),
        cmdline: cmd.map(String::from),
        desc: Some("CC".to_string()),
        deps: deps.map(String::from),
        depfile: None,
        rspfile: None,
        pool: None,
    }
}

fn plain() -> Draft {
    Draft::new(&edge(&[(1, "out.txt")], Some("cp a out.txt"), None))
}

/// A node that an alias leads to means only an order where no file lies there.
fn ordering_only(name: &str, files: &[&str]) -> bool {
    let action = plain().visit(&runner("/b"), 7, true, name, files.contains(&name));
    action == InputAction::Skip
}

#[test]
fn the_build_directory_itself_is_ordering_only() {
    assert!(ordering_only(".", &[]));
}

#[test]
fn a_regular_file_is_an_input() {
    assert!(!ordering_only("gen/version.h", &["gen/version.h"]));
}

#[test]
fn resolution_is_against_the_given_directory() {
    assert!(!ordering_only("a.h", &["a.h"]));
    assert!(ordering_only("a.h", &[]));
}

#[test]
fn what_an_edge_names_itself_is_never_passed_over() {
    let run = runner("/b");
    let mut d = plain();
    assert_eq!(d.visit(&run, 7, false, "missing.c", false), InputAction::Upload);
    assert_eq!(
        d.visit(&run, 8, false, "/nix/store/aaa-x/x.c", true),
        InputAction::StoreSource
    );
    assert_eq!(d.store_srcs, names(&["/nix/store/aaa-x/x.c"]));
}

#[test]
fn a_compilation_asks_aliases_for_headers_and_trees_alone() {
    let mut run = runner("/b");
    run.register(5, &new_opaque("s5", "lib.o"));
    run.register(6, &new_opaque("s6", "gen.h"));
    let mut d = Draft::new(&edge(&[(1, "a.o")], Some("gcc -c a.c"), Some("gcc")));
    assert!(d.compiles);
    assert_eq!(d.visit(&run, 5, true, "lib.o", true), InputAction::Skip);
    assert_eq!(d.visit(&run, 6, true, "gen.h", true), InputAction::Taken);
    assert_eq!(d.visit(&run, 5, false, "lib.o", true), InputAction::Taken);
    assert!(d.inputs.contains("gen.h") && d.inputs.contains("lib.o"));
    let mut other = plain();
    assert!(!other.compiles);
    assert_eq!(other.visit(&run, 5, true, "lib.o", true), InputAction::Taken);
}

#[test]
fn a_declared_input_stands_at_its_place() {
    let mut d = plain();
    d.take_declared(&vec![new_opaque("main", "a.py"), new_opaque("seen", "a.py")]);
    assert_eq!(d.inputs.listing()[0].derived_path.store_path, "main");
    d.fill(&vec![new_opaque("late", "a.py"), new_opaque("new", "b.py")]);
    assert_eq!(d.inputs.listing().len(), 2);
    d.take_files(&vec![new_opaque("over", "b.py")]);
    let b: Vec<DerivedFile> =
        d.inputs.listing().into_iter().filter(|f| f.build_path == "b.py").collect();
    assert_eq!(b[0].derived_path.store_path, "over");
    d.take_declared(&Vec::new());
    assert_eq!(d.inputs.listing().len(), 2);
}

#[test]
fn an_edge_is_made_into_a_task() {
    let mut run = runner("/tmp/b");
    run.register(5, &new_opaque("s5", "gen.txt"));
    run.register(9, &new_opaque("s9", "out.txt"));
    run.join(&vec![5], &vec![9]);
    run.add_build_dir_input(3, &new_opaque("s3", "config.txt"));
    let e = edge(&[(1, "/tmp/b/out.txt")], Some("cp @list gen.txt out.txt"), None);
    let mut d = Draft::new(&e);
    let line = CommandLine::new(
        "/tmp/b",
        "/nix/store",
        "cp @list gen.txt out.txt",
        &names(&["cp", "@list", "gen.txt", "out.txt"]),
        &names(&["out.txt"]),
    );
    d.take_action(&run, &ArgAction::Node(5));
    d.take_action(&run, &ArgAction::Known(3));
    d.take_action(&run, &ArgAction::UploadFile("x".to_string()));
    assert_eq!(d.node_args, vec![5]);
    d.take_response(&line, 1, "@list", "list", "/tmp/b/x -O2");
    let outs = edge_outputs("/tmp/b", &names(&["/tmp/b/out.txt"])).unwrap();
    assert_eq!(outs, names(&["out.txt"]));
    let own = own_outputs("/tmp/b", &names(&["/tmp/b/out.txt"]), Some("out.d"));
    assert_eq!(own, names(&["out.txt", "out.d"]));
    let dropped = d.settle(&run, 512, &own);
    assert_eq!(dropped, names(&["out.txt"]));
    let t = new_task(&run, &e, &d, &outs, Some("run".to_string()), &names(&["/nix/store/m"]));
    let paths: Vec<&str> = t.inputs.iter().map(|f| f.build_path.as_str()).collect();
    assert_eq!(paths.len(), 2);
    assert!(paths.contains(&"gen.txt") && paths.contains(&"config.txt"));
    assert_eq!(t.input_srcs, names(&["/nix/store/w", "/nix/store/m"]));
    assert_eq!(t.cmdline.as_deref(), Some("run"));
    assert_eq!(t.desc.as_deref(), Some("CC"));
    assert_eq!(t.wrapper_vars.get("NIX_LDFLAGS").as_deref(), Some("-lm"));
    assert_eq!(t.out_names, names(&["/tmp/b/out.txt"]));
    let rsp = t.rspfile.unwrap();
    assert_eq!(rsp.0, "list.nn-rsp");
    assert_eq!(rsp.1, "x -O2");
}

#[test]
fn an_output_without_a_place_fails_the_edge() {
    match edge_outputs("/b/s/build", &names(&["a.o", "/etc/passwd", "/etc/x"])) {
        Ok(_) => panic!("an output outside the tree has no place"),
        Err(e) => assert_eq!(
            e.message(),
            "absolute path /etc/passwd does not resolve under build dir /b/s/build; refusing to relocate it silently"
        ),
    }
}

#[test]
fn the_limit_on_the_build_directory_can_be_set() {
    assert_eq!(implicit_limit(None), IMPLICIT_INPUTS_LIMIT);
    assert_eq!(implicit_limit(Some("7")), 7);
    assert_eq!(implicit_limit(Some("many")), 512);
}

#[test]
fn directories_are_listed_once() {
    assert_eq!(
        directories_of(&names(&["t/a.tmpl", "t/b.tmpl", "c.tmpl"])),
        names(&["t", "."])
    );
}

fn task(out: &[&str], cmd: &str, deps: Option<&str>, depfile: Option<&str>) -> Task {
    let drv = DerivedPath::opaque("in.drv");
    Task {
        system: "x86_64-linux".to_string(),
        wrapper_vars: Vars::new(),
        input_srcs: Vec::new(),
        build_dir: "/b/s/build".to_string(),
        store_dir: "/nix/store".to_string(),
        cmdline: Some(cmd.to_string()),
        desc: None,
        deps: deps.map(String::from),
        rspfile: None,
        depfile: depfile.map(String::from),
        out_names: names(out),
        inputs: vec![new_opaque("s", "a.c"), new_built_file(&drv, "gen.h")],
        store_srcs: Vec::new(),
        outputs: names(out),
        verbose: true,
        alias_symlinks: Vec::new(),
        empty_dirs: Vec::new(),
    }
}

#[test]
fn dependencies_are_discovered_for_compilations() {
    assert!(wants_dependency_discovery(&task(&["a.o"], "gcc -c a.c -o a.o", Some("gcc"), None)));
    assert!(wants_dependency_discovery(&task(&["a.o"], "tool", None, Some("a.d"))));
    assert!(!wants_dependency_discovery(&task(&["a.o"], "tool", None, None)));
    let mut f = task(&["m.mod"], "tool", None, None);
    f.inputs.push(new_opaque("p", "src/x-pp.f90"));
    assert!(consumes_preprocessed_fortran(&f.inputs));
    assert!(wants_dependency_discovery(&f));
}

#[test]
fn what_is_yet_to_be_built_is_realised_for_a_discovery() {
    let t = task(&["a.o"], "gcc -c a.c -o a.o", Some("gcc"), None);
    let r = inputs_to_realise(&t);
    assert_eq!(r.len(), 1);
    assert_eq!(r[0].build_path, "gen.h");
    assert!(inputs_to_realise(&task(&["a.o"], "tool", None, None)).is_empty());
}

#[test]
fn a_task_leaves_its_outputs_its_depfile_and_its_log() {
    let t = task(&["a.o"], "gcc -MD -MF a.d -c a.c -o a.o", Some("gcc"), Some("a.d"));
    let drv = DerivedPath::opaque("t.drv");
    let r = finish(&t, 4, "4", Ok(drv), false, None);
    assert_eq!(r.result.bid, 4);
    assert_eq!(r.result.label, "a.o");
    assert!(r.result.err.is_none());
    assert_eq!(r.result.derived_files.len(), 1);
    assert_eq!(r.result.derived_files[0].build_path, "a.o");
    assert_eq!(r.result.derived_files[0].derived_path.outputs, names(&["a.o"]));
    assert_eq!(r.depfile.unwrap().build_path, "a.d");
    assert_eq!(r.verbose_log.unwrap().build_path, "a.o.nn-verbose-log");
    let inside = finish(&t, 4, "4", Ok(DerivedPath::opaque("t.drv")), true, None);
    assert!(inside.depfile.is_none());
}

#[test]
fn a_declared_output_without_a_place_fails_the_whole_task() {
    let mut t = task(&["a.o"], "tool", None, None);
    t.out_names = names(&["a.o", "/etc/passwd"]);
    let r = finish(&t, 4, "4", Ok(DerivedPath::opaque("t.drv")), false, None);
    assert!(r.result.derived_path.is_none() && r.result.derived_files.is_empty());
    assert!(r.verbose_log.is_none());
    assert_eq!(
        r.result.err.as_deref(),
        Some("task a.o: declared output /etc/passwd is not under the build directory /b/s/build; failing the task rather than dropping the output")
    );
}

#[test]
fn a_task_without_a_derivation_leaves_nothing() {
    let t = task(&[], "tool", None, None);
    let r = finish(&t, 4, "edge 4", Err("no store".to_string()), false, None);
    assert_eq!(r.result.label, "edge 4");
    assert_eq!(r.result.err.as_deref(), Some("no store"));
    assert!(r.result.derived_path.is_none() && r.result.derived_files.is_empty());
    assert_eq!(edge_label(&names(&["a", "b"]), "x"), "a");
}

#[test]
fn trees_that_a_command_fills_come_with_its_outputs() {
    let t = task(&["include/QtSvg/a.h"], "tool", None, None);
    let r = finish(&t, 1, "1", Ok(DerivedPath::opaque("t.drv")), false, None);
    let paths: Vec<&str> =
        r.result.derived_files.iter().map(|f| f.build_path.as_str()).collect();
    assert_eq!(paths, vec!["include/QtSvg/a.h", "include/QtSvg"]);
}

#[test]
fn templates_and_resource_lists_bring_files_along() {
    let mut d = plain();
    d.fill(&vec![new_opaque("s", "t/a.template")]);
    assert!(d.wants_template("t/b.template", true));
    assert!(!d.wants_template("t/b.template", false));
    assert!(!d.wants_template("t/a.template", true));
    assert!(!d.wants_template("t/b.txt", true));
    d.fill(&vec![new_opaque("g", "x.grd")]);
    let mut walk = ResourceWalk::new(&d);
    assert_eq!(walk.queue, names(&["x.grd"]));
    assert_eq!(walk.next().as_deref(), Some("x.grd"));
    assert!(d.lacks("r/part.grdp"));
    walk.take(&mut d, "r/part.grdp", new_opaque("p", "r/part.grdp"));
    walk.take(&mut d, "r/icon.png", new_opaque("i", "r/icon.png"));
    assert!(!d.lacks("r/part.grdp") && !d.lacks("r/icon.png"));
    assert_eq!(walk.next().as_deref(), Some("r/part.grdp"));
    assert_eq!(walk.next(), None);
    assert!(wants_linker_file(true, false));
    assert!(!wants_linker_file(true, true) && !wants_linker_file(false, false));
}

#[test]
fn there_is_one_slot_for_a_response_file() {
    let e = edge(&[(1, "out.txt")], Some("cp @list @more out.txt"), None);
    let mut d = Draft::new(&e);
    assert!(d.wants_response(&e));
    let mut declared = e.clone();
    declared.rspfile = Some(("a.rsp".to_string(), "x".to_string()));
    assert!(!d.wants_response(&declared));
    let args = names(&["cp", "@list", "@more", "out.txt"]);
    let line = CommandLine::new("/b", "/nix/store", "cp @list @more out.txt", &args, &names(&["out.txt"]));
    d.take_response(&line, 1, "@list", "list", "-O2");
    assert!(!d.wants_response(&e));
}

#[test]
fn what_is_collected_is_handed_out_once() {
    let t = task(&["a.o"], "gcc -MD -MF a.d -c a.c -o a.o", Some("gcc"), Some("a.d"));
    let mut c = Collected::new();
    let r = c.take_in(finish(&t, 4, "4", Ok(DerivedPath::opaque("t.drv")), false, None));
    assert_eq!(r.label, "a.o");
    c.take_in(finish(&t, 5, "5", Err("no".to_string()), false, None));
    assert_eq!(c.take_collected_depfiles().len(), 1);
    assert!(c.take_collected_depfiles().is_empty());
    let logs = c.take_collected_verbose_logs();
    assert_eq!(logs.len(), 1);
    assert_eq!(logs[0].build_path, "a.o.nn-verbose-log");
    assert!(c.take_collected_verbose_logs().is_empty());
}

#[test]
fn what_an_edge_writes_is_no_input_of_it() {
    let run = runner("/tmp/b");
    let mut e = edge(&[(1, "/tmp/b/out.txt"), (2, "./sub/a.txt")], Some("x"), None);
    e.depfile = Some("out.d".to_string());
    let mut d = Draft::new(&e);
    d.fill(&vec![
        new_opaque("s1", "./out.txt"),
        new_opaque("s2", "sub/a.txt"),
        new_opaque("s3", "out.d"),
        new_opaque("s4", "sub/b.txt"),
    ]);
    let t = new_task(&run, &e, &d, &names(&["out.txt", "sub/a.txt"]), None, &Vec::new());
    let paths: Vec<&str> = t.inputs.iter().map(|f| f.build_path.as_str()).collect();
    assert_eq!(paths, vec!["sub/b.txt"]);
}
