//! What the words of a command line ask for.
use nix_ninja::arguments::{
    arg_actions, arg_places, cd_prologue, referenced_place, response_content, response_tokens,
    rewritten_response, task_command, ArgAction, ArgFacts, CommandLine,
};

fn names(v: &[&str]) -> Vec<String> {
    v.iter().map(|s| s.to_string()).collect()
}

fn line(args: &[&str], outputs: &[&str]) -> CommandLine {
    CommandLine::new("/b/s/build", "/nix/store", &args.join(" "), &names(args), &names(outputs))
}

fn s(x: &str) -> String {
    x.to_string()
}

#[test]
fn a_command_may_descend_before_it_runs() {
    assert_eq!(cd_prologue(&names(&["cd", "po/sub", "&&", "x"])), (2, s("po/sub")));
    assert_eq!(cd_prologue(&names(&["cd", "a/../po", "&&", "x"])), (1, s("a/../po")));
    assert_eq!(cd_prologue(&names(&["cd", "/abs", "&&", "x"])), (0, s("")));
    assert_eq!(cd_prologue(&names(&["x", "cd", "po"])), (0, s("")));
    assert_eq!(cd_prologue(&names(&["cd", "po"])), (0, s("")));
}

#[test]
fn the_places_of_a_word_are_seen_from_where_the_command_runs() {
    let l = line(&["cd", "po", "&&", "x"], &["out/dir/a.txt"]);
    let p = arg_places(&l, "../src/a.c");
    assert_eq!(p.word, Some(s("src/a.c")));
    assert_eq!(p.hinted, Some(s("out/src/a.c")));
    assert_eq!(p.absolute, None);
    assert_eq!(p.response, None);
    let p = arg_places(&l, "@../list.rsp");
    assert_eq!(p.response, Some(s("list.rsp")));
    let p = arg_places(&l, "--x=../v/b");
    assert_eq!(p.value, Some(s("v/b")));
    assert_eq!(p.word, None);
    let p = arg_places(&l, "-I/b/s/inc.h");
    assert_eq!(p.word, None);
    assert_eq!(arg_places(&l, "/nix/store/aaa/x.h").absolute, None);
    assert_eq!(arg_places(&l, "/b/s/x.h").absolute, Some(s("/b/s/x.h")));
    assert_eq!(arg_places(&l, "x=$v/b").value, None);
}

#[test]
fn a_known_node_is_taken_with_its_file() {
    let l = line(&["x"], &[]);
    let known = ArgFacts { node: Some(4), node_known: true, ..ArgFacts::default() };
    assert_eq!(arg_actions(&l, "a/b", &known), vec![ArgAction::Node(4), ArgAction::Known(4)]);
    let file = ArgFacts { node: Some(4), is_file: true, ..ArgFacts::default() };
    assert_eq!(
        arg_actions(&l, "a/b", &file),
        vec![ArgAction::Node(4), ArgAction::UploadFile(s("a/b"))]
    );
    let produced = ArgFacts { node_produced: true, ..file };
    assert_eq!(arg_actions(&l, "a/b", &produced), vec![ArgAction::Node(4)]);
}

#[test]
fn a_schema_brings_the_directory_beside_it() {
    let l = line(&["python", "tools/json_schema_compiler/compiler.py", "api/x.json"], &[]);
    let f = ArgFacts { is_file: true, ..ArgFacts::default() };
    assert_eq!(arg_actions(&l, "api/x.json", &f), vec![ArgAction::UploadDir(s("api"))]);
    assert!(arg_actions(&line(&["x"], &[]), "api/x.json", &f).is_empty());
}

#[test]
fn an_absolute_file_of_the_tree_is_uploaded_and_one_of_the_store_is_not() {
    let l = line(&["x"], &[]);
    let f = ArgFacts { absolute: true, ..ArgFacts::default() };
    assert_eq!(
        arg_actions(&l, "/b/s/src/a.c", &f),
        vec![ArgAction::UploadFile(s("../src/a.c"))]
    );
    assert!(arg_actions(&l, "/nix/store/aaa-x/a.c", &f).is_empty());
    assert!(arg_actions(&l, "/b/s/src/a.c", &ArgFacts::default()).is_empty());
}

#[test]
fn a_word_that_is_a_path_is_looked_for_in_turn() {
    let l = line(&["x"], &["gen/a.txt"]);
    let d = ArgFacts::default;
    assert_eq!(
        arg_actions(&l, "../a/b", &ArgFacts { word: true, is_dir: true, ..d() }),
        vec![ArgAction::UploadFile(s("../a/b"))]
    );
    assert_eq!(
        arg_actions(&l, "../a/b", &ArgFacts { is_dir: true, ..d() }),
        vec![ArgAction::UploadDir(s("../a/b"))]
    );
    assert_eq!(
        arg_actions(&l, "../..", &ArgFacts { is_dir: true, ..d() }),
        Vec::<ArgAction>::new()
    );
    assert_eq!(
        arg_actions(&l, "../a/b.idl", &ArgFacts { is_file: true, ..d() }),
        vec![ArgAction::UploadDir(s("../a"))]
    );
    assert_eq!(
        arg_actions(&l, "a/b", &ArgFacts { hinted: true, ..d() }),
        vec![ArgAction::UploadFile(s("gen/a/b"))]
    );
    assert_eq!(
        arg_actions(&l, "a/b", &ArgFacts { hinted_node: Some(3), hinted: true, ..d() }),
        vec![ArgAction::Node(3)]
    );
    assert_eq!(
        arg_actions(&l, "--f=a/b", &ArgFacts { value: true, ..d() }),
        vec![ArgAction::UploadFile(s("a/b"))]
    );
}

#[test]
fn a_response_file_is_read_below_the_build_directory() {
    let l = line(&["x"], &[]);
    let f = ArgFacts { response: true, ..ArgFacts::default() };
    assert_eq!(arg_actions(&l, "@a.rsp", &f), vec![ArgAction::Response(s("a.rsp"))]);
    assert!(arg_actions(&l, "@../a.rsp", &f).is_empty());
    assert!(arg_actions(&l, "@/a.rsp", &f).is_empty());
    assert!(arg_actions(&l, "@", &f).is_empty());
    assert_eq!(rewritten_response("a.rsp"), "a.rsp.nn-rsp");
}

#[test]
fn the_words_of_a_response_file_are_seen_from_the_build_directory() {
    assert_eq!(
        response_tokens("-O2 /t/s/src/a.c x ../.. sub/b.o", "/t/s/build"),
        names(&["../src/a.c", "sub/b.o"])
    );
    assert_eq!(response_content("/t/s/src/a.c", "/t/s/build", 1), "../../src/a.c");
    assert_eq!(response_content("/build/s/a.c", "/build/s/b", 1), "/build/s/a.c");
}

#[test]
fn the_command_names_the_rewritten_response_file() {
    let rsp = Some((1, s("@../l")));
    assert_eq!(
        task_command("/t/b", "ar @/t/l x", "ar @../l x", &rsp),
        Some(s("ar @../l.nn-rsp x"))
    );
    assert_eq!(
        task_command("/build/b", "ar @/build/l x", "ar @../l x", &rsp),
        Some(s("ar @/build/l.nn-rsp x"))
    );
    assert_eq!(task_command("/build/b", "ar x", "ar y", &None), Some(s("ar x")));
    assert_eq!(task_command("/t/b", "ar x", "ar y", &None), Some(s("ar y")));
    assert_eq!(task_command("/build/b", "ar 'x", "ar y", &None), None);
}

#[test]
fn a_file_that_is_referred_to_lies_in_the_tree() {
    let l = line(&["cd", "po", "&&", "x"], &[]);
    assert_eq!(referenced_place(&l, "a.in"), Some(s("po/a.in")));
    assert_eq!(referenced_place(&l, "/b/s/a.in"), Some(s("../a.in")));
    assert_eq!(referenced_place(&l, "/nix/store/x/a.in"), None);
    assert_eq!(referenced_place(&l, "/etc/a.in"), None);
}
