//! The build graph: targets, inputs, and what comes with what.
use nix_ninja::derived::{new_opaque, DerivedFile};
use nix_ninja::graph::{expand_inputs, resolve_target_in, FileId};
use nix_ninja::inputs::InputSet;
use nix_ninja::runner::{
    absolute_node_name, is_stamp_command, node_name_of, wrapper_variables, Edge, Runner,
    RunnerConfig,
};
use nix_ninja::task::BuildResult;
use nix_ninja::vars::Vars;
use std::collections::HashMap;

fn df(name: &str) -> DerivedFile {
    new_opaque(&format!("00000000000000000000000000000000-{name}"), name)
}

fn paths(v: &[DerivedFile]) -> Vec<String> {
    let mut out: Vec<String> = v.iter().map(|d| d.build_path.clone()).collect();
    out.sort();
    out
}

#[test]
fn concrete_target_resolves_to_itself() {
    let mut outs = HashMap::new();
    outs.insert(1, df("a.o"));
    let got = resolve_target_in(&outs, &HashMap::new(), &HashMap::new(), 1);
    assert_eq!(got.len(), 1);
    assert_eq!(got[0].build_path, "a.o");
}

#[test]
fn phony_target_resolves_to_the_files_it_aliases() {
    let mut outs = HashMap::new();
    outs.insert(1, df("a.o"));
    outs.insert(2, df("b.o"));
    let mut phony = HashMap::new();
    phony.insert(9, vec![1, 2]);
    let got = resolve_target_in(&outs, &phony, &HashMap::new(), 9);
    assert_eq!(paths(&got), vec!["a.o", "b.o"]);
}

#[test]
fn phony_of_phony_resolves_transitively() {
    let mut outs = HashMap::new();
    outs.insert(1, df("a.o"));
    let mut phony = HashMap::new();
    phony.insert(8, vec![1]);
    phony.insert(9, vec![8]);
    let got = resolve_target_in(&outs, &phony, &HashMap::new(), 9);
    assert_eq!(got.len(), 1);
    assert_eq!(got[0].build_path, "a.o");
}

#[test]
fn alias_cycle_terminates() {
    let mut phony = HashMap::new();
    phony.insert(1, vec![2]);
    phony.insert(2, vec![1]);
    let got = resolve_target_in(&HashMap::new(), &phony, &HashMap::new(), 1);
    assert!(got.is_empty());
}

#[test]
fn a_target_pulls_the_other_outputs_of_its_own_edge() {
    let named = |store: &str, build: &str| DerivedFile {
        build_path: build.to_string(),
        ..df(store)
    };
    let mut outs = HashMap::new();
    outs.insert(1, named("libopenfec.so.1.4.2", "../bin/Release/libopenfec.so.1.4.2"));
    outs.insert(2, named("libopenfec.so.1", "../bin/Release/libopenfec.so.1"));
    outs.insert(3, named("libopenfec.so", "../bin/Release/libopenfec.so"));
    let mut co = HashMap::new();
    let edge: Vec<FileId> = vec![1, 2, 3];
    for f in &edge {
        co.insert(*f, edge.clone());
    }
    let mut phony = HashMap::new();
    phony.insert(9, vec![1]);
    let got = resolve_target_in(&outs, &phony, &co, 9);
    assert_eq!(
        paths(&got),
        vec![
            "../bin/Release/libopenfec.so",
            "../bin/Release/libopenfec.so.1",
            "../bin/Release/libopenfec.so.1.4.2",
        ],
        "naming one output of an edge must place every output of that edge"
    );
}

#[test]
fn the_requested_output_comes_first() {
    let mut outs = HashMap::new();
    outs.insert(1, df("a.dd"));
    outs.insert(2, df("b.stamp"));
    let mut co = HashMap::new();
    let edge: Vec<FileId> = vec![1, 2];
    for f in &edge {
        co.insert(*f, edge.clone());
    }
    let got = resolve_target_in(&outs, &HashMap::new(), &co, 1);
    assert_eq!(got[0].build_path, "a.dd");
    assert_eq!(got.len(), 2);
}

#[test]
fn unknown_target_resolves_empty() {
    let got = resolve_target_in(&HashMap::new(), &HashMap::new(), &HashMap::new(), 7);
    assert!(got.is_empty());
}

#[test]
fn inputs_lead_through_aliases_stamps_siblings_and_libraries() {
    let map = |v: &[(FileId, Vec<FileId>)]| -> HashMap<FileId, Vec<FileId>> {
        v.iter().cloned().collect()
    };
    let phony = map(&[(1, vec![2])]);
    let stamps = map(&[(2, vec![3])]);
    let co = map(&[(3, vec![3, 4])]);
    let libs = map(&[(4, vec![5])]);
    let got = expand_inputs(&phony, &stamps, &co, &libs, false, &vec![1, 6]);
    assert_eq!(got, vec![(6, false), (2, true), (3, true), (4, true), (5, true)]);
    let got = expand_inputs(&phony, &stamps, &co, &libs, true, &vec![1]);
    assert_eq!(got, vec![(2, true), (3, true), (4, true)]);
}

fn config() -> RunnerConfig {
    RunnerConfig {
        system: "x86_64-linux".to_string(),
        build_dir: "/build/source/build".to_string(),
        store_dir: "/nix/store".to_string(),
        is_output_derivation: false,
        jobs: 4,
        pools: Vec::new(),
        verbose: false,
    }
}

fn runner() -> Runner {
    Runner::new(config(), Vars::new(), Vec::new())
}

fn named(v: &[(FileId, &str)]) -> Vec<(FileId, String)> {
    v.iter().map(|(i, n)| (*i, n.to_string())).collect()
}

fn edge(outs: &[(FileId, &str)], ins: &[(FileId, &str)], cmd: Option<&str>) -> Edge {
    Edge {
        outs: named(outs),
        ordering_ins: ins.iter().map(|(i, _)| *i).collect(),
        dirtying_ins: named(ins),
        cmdline: cmd.map(|s| s.to_string()),
        desc: None,
        deps: None,
        depfile: None,
        rspfile: None,
        pool: None,
    }
}

#[test]
fn an_edge_without_a_command_is_an_alias() {
    let mut r = runner();
    let done = r.start(3, &edge(&[(9, "all")], &[(1, "a.o"), (2, "b.o")], None), "3").unwrap();
    assert_eq!((done.bid, done.label.as_str()), (3, "all"));
    assert!(done.err.is_none() && done.derived_path.is_none() && done.derived_files.is_empty());
    assert!(r.is_phony(9) && !r.is_phony(1));
    r.register(1, &df("a.o"));
    assert_eq!(paths(&r.resolve_target(9)), vec!["a.o"]);
    assert_eq!(r.inputs_of(false, &vec![9, 4]), vec![(4, false), (2, true), (1, true)]);
}

#[test]
fn an_edge_records_siblings_stamps_and_libraries() {
    let mut r = runner();
    let ins = [(3, "lib/libx.so.1"), (4, "main.o")];
    assert!(r.start(0, &edge(&[(1, "a"), (2, "b")], &ins, Some("python touch_file.py a")), "").is_none());
    assert_eq!(r.co_outputs.get(&1), Some(&vec![1, 2]));
    assert_eq!(r.stamp_inputs.get(&2), Some(&vec![3, 4]));
    assert_eq!(r.runtime_lib_deps.get(&1), Some(&vec![3]));
    assert!(r.start(1, &edge(&[(5, "c.o")], &[(6, "c.c")], Some("gcc -c c.c -o c.o")), "").is_none());
    assert!(!r.co_outputs.contains_key(&5));
    assert!(!r.stamp_inputs.contains_key(&5));
    assert!(!r.runtime_lib_deps.contains_key(&5));
    assert!(is_stamp_command("x/generate_grd.py y") && !is_stamp_command("gcc"));
}

/// What was recorded first stands.
#[test]
fn the_first_record_of_a_file_stands() {
    let mut r = runner();
    r.register(1, &df("a.o"));
    r.register(1, &df("other.o"));
    assert_eq!(r.derived_files.get(&1).unwrap().build_path, "a.o");
}

#[test]
fn trees_come_with_every_file_of_their_edge() {
    let mut r = runner();
    let result = |files: Vec<DerivedFile>, err: Option<String>| BuildResult {
        bid: 5,
        label: "x".to_string(),
        derived_path: None,
        derived_files: files,
        err,
    };
    let tree = || vec![df("src/a.o"), df("include/QtSvg"), df("src/b.o")];
    assert_eq!(r.wait(&result(tree(), None), &vec![1, 7, 2]), (5, true));
    assert_eq!(r.co_outputs.get(&1), Some(&vec![1, 7]));
    assert_eq!(r.co_outputs.get(&2), Some(&vec![2, 7]));
    assert!(!r.co_outputs.contains_key(&7));
    assert_eq!(r.derived_files.get(&7).unwrap().build_path, "include/QtSvg");
    assert_eq!(r.wait(&result(vec![df("src/c.o")], None), &vec![3]), (5, true));
    assert!(!r.co_outputs.contains_key(&3));
    let failed = result(vec![df("src/d.o")], Some("no".to_string()));
    assert_eq!(r.wait(&failed, &vec![4]), (5, false));
    assert!(!r.derived_files.contains_key(&4));
}

#[test]
fn a_tree_is_known_by_a_name_inside_it() {
    assert_eq!(node_name_of(&df("include/QtSvg")), "include/QtSvg/.nn-tree");
    assert_eq!(node_name_of(&df("src/a.o")), "src/a.o");
    assert_eq!(absolute_node_name("/b/s/build", "../x"), Some("/b/s/build/../x".to_string()));
    assert_eq!(absolute_node_name("/b/s/build", "x"), None);
}

#[test]
fn a_stamps_files_are_taken_where_their_places_are_free() {
    let mut r = runner();
    r.record_stamp_files(&vec![1], &vec![df("gen/a.h"), df("gen/a.o")]);
    let mut set = InputSet::new();
    r.take_stamp_files(&mut set, true, 1);
    assert!(set.contains("gen/a.h") && !set.contains("gen/a.o"));
    let mut all = InputSet::new();
    all.insert(df("gen/a.h"));
    r.take_stamp_files(&mut all, false, 1);
    assert!(all.contains("gen/a.o"));
}

#[test]
fn nodes_are_taken_with_what_comes_with_them() {
    let mut r = runner();
    r.register(1, &df("a"));
    r.register(2, &df("b"));
    r.join(&vec![1], &vec![2]);
    let mut set = InputSet::new();
    r.take_nodes(&mut set, &vec![1]);
    assert!(set.contains("a") && set.contains("b"));
    let mut gen = InputSet::new();
    r.take_generated(&mut gen, 1);
    assert!(gen.contains("a") && gen.contains("b"));
}

#[test]
fn the_build_directory_is_given_to_every_task_while_it_is_small() {
    let mut r = runner();
    r.add_build_dir_input(1, &df("config.h"));
    r.add_build_dir_input(2, &df("x.map"));
    let mut set = InputSet::new();
    r.take_build_dir(&mut set, false, 2);
    assert!(set.contains("config.h") && set.contains("x.map"));
    let mut none = InputSet::new();
    r.take_build_dir(&mut none, true, 2);
    r.take_build_dir(&mut none, false, 1);
    assert!(!none.contains("config.h"));
    assert_eq!(r.file_at(1).unwrap().build_path, "config.h");
    assert!(r.file_at(9).is_none());
}

#[test]
fn one_file_lies_at_one_place() {
    let mut set = InputSet::new();
    set.insert(df("a/b.h"));
    set.insert(new_opaque("new", "a//b.h"));
    let v = set.listing();
    assert_eq!(v.len(), 1);
    assert_eq!(v[0].derived_path.store_path, "new");
    set.add(new_opaque("newer", "a/b.h"));
    assert_eq!(set.listing()[0].derived_path.store_path, "new");
    assert!(set.remove("a/./b.h"));
    assert!(!set.remove("a/b.h"));
    assert!(set.listing().is_empty());
}

/// The list depends on the inputs alone.
#[test]
fn the_listing_does_not_depend_on_the_order() {
    let mut a = InputSet::new();
    let mut b = InputSet::new();
    let files = vec![df("z.c"), df("./a.h"), df("m.py")];
    a.insert_all(&files);
    for f in files.iter().rev() {
        b.insert(f.clone());
    }
    assert_eq!(a.listing(), b.listing());
    assert!(a.listing().iter().any(|f| f.build_path == "a.h"), "the dot is stripped");
    assert_eq!(a.with_extension("py"), vec!["m.py"]);
}

/// What an edge writes is none of its inputs.
#[test]
fn outputs_are_dropped_from_the_inputs() {
    let mut set = InputSet::new();
    set.insert_all(&vec![df("a.o"), df("a.c")]);
    let dropped = set.remove_all(&vec!["./x".to_string(), "a.o".to_string(), "a.o".to_string()]);
    assert_eq!(dropped, vec!["a.o"]);
    assert!(set.contains("a.c") && !set.contains("a.o"));
}

#[test]
fn the_environment_is_forwarded_without_seeds() {
    let env = vec![
        ("NIX_CFLAGS_COMPILE".to_string(), "-O2 -frandom-seed=abc -g".to_string()),
        ("NIX_LDFLAGS".to_string(), "-rpath /real/lib".to_string()),
        ("out".to_string(), "/real".to_string()),
    ];
    let map = vec![("/real".to_string(), "/fake".to_string())];
    let vars = wrapper_variables(&env, &map);
    assert_eq!(vars.get("NIX_CFLAGS_COMPILE").as_deref(), Some("-O2 -g"));
    assert_eq!(vars.get("NIX_LDFLAGS").as_deref(), Some("-rpath /fake/lib"));
    assert_eq!(vars.get("out"), None);
}

#[test]
fn copied_headers_come_with_the_outputs() {
    let mut r = runner();
    let e = edge(&[(1, "a"), (2, "b")], &[], Some("x"));
    r.take_response_files("gcc @l", &e, &vec![8]);
    assert!(!r.co_outputs.contains_key(&1));
    r.take_response_files("bin/syncqt @l", &e, &Vec::new());
    assert!(!r.co_outputs.contains_key(&1));
    r.take_response_files("bin/syncqt @l", &e, &vec![8, 9]);
    assert_eq!(r.co_outputs.get(&1), Some(&vec![1, 8, 9]));
    assert_eq!(r.co_outputs.get(&2), Some(&vec![2, 8, 9]));
}
