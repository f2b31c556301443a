//! What the words of a command line ask for: files and directories to upload,
//! nodes of the graph, a response file.
use crate::command;
use crate::graph::FileId;
use crate::outside;
use crate::path;
use crate::rewrite;
use crate::text;
use crate::views;
use vstd::prelude::*;

verus! {

broadcast use {views::texts_push, views::pieces_push};

/// The leading `cd DIR &&` of a command: how many levels it descends, and where to.
pub open spec fn cd_of(args: Seq<Seq<char>>) -> (nat, Seq<char>) {
    if args.len() >= 3 && args[0] == "cd"@ && args[2] == "&&"@ && !path::is_abs(args[1]) {
        (rewrite::depth_of(args[1]), args[1])
    } else {
        (0, Seq::empty())
    }
}

/// The leading `cd DIR &&` of a command: how many levels it descends, and
/// where to. A command without one descends none.
pub fn cd_prologue(args: &Vec<String>) -> (r: (usize, String))
    ensures
        (r.0 as nat, r.1@) == cd_of(views::texts(args@)),
{
    let ghost all = views::texts(args@);
    if args.len() >= 3 {
        assert(all[0] == args@[0]@ && all[1] == args@[1]@ && all[2] == args@[2]@);
        let dir = text::chars_of(args[1].as_str());
        if text::same_str(args[0].as_str(), "cd") && text::same_str(args[2].as_str(), "&&")
            && !path::absolute(&dir) {
            return (rewrite::depth(&dir), text::string_of(&dir));
        }
    }
    let e: Vec<char> = Vec::new();
    (0, text::string_of(&e))
}

/// What the words of one command have in common.
#[derive(Debug, Clone)]
pub struct CommandLine {
    pub build_dir: String,
    pub store_dir: String,
    /// How many levels the command descends before it runs.
    pub cd_depth: usize,
    /// The directory into which it descends.
    pub cd_dir: String,
    /// The directory of its first output.
    pub outputs_hint: Option<String>,
    /// It compiles schemas, whose includes are looked up beside them.
    pub schema_tool: bool,
}

/// What a command line says.
pub struct LineView {
    pub build_dir: Seq<char>,
    pub store_dir: Seq<char>,
    pub cd_depth: nat,
    pub cd_dir: Seq<char>,
    pub outputs_hint: Option<Seq<char>>,
    pub schema_tool: bool,
}

impl View for CommandLine {
    type V = LineView;

    open spec fn view(&self) -> LineView {
        LineView {
            build_dir: self.build_dir@,
            store_dir: self.store_dir@,
            cd_depth: self.cd_depth as nat,
            cd_dir: self.cd_dir@,
            outputs_hint: views::opt_text(self.outputs_hint),
            schema_tool: self.schema_tool,
        }
    }
}

/// The directory of the first output.
pub open spec fn hint_of(outputs: Seq<Seq<char>>) -> Option<Seq<char>> {
    if outputs.len() > 0 {
        path::parent(outputs[0])
    } else {
        None
    }
}

impl CommandLine {
    /// What the words of a command have in common: the command as it is
    /// rewritten, its words, and the outputs of its edge.
    pub fn new(
        build_dir: &str,
        store_dir: &str,
        cmdline: &str,
        args: &Vec<String>,
        outputs: &Vec<String>,
    ) -> (r: CommandLine)
        ensures
            r@ == (LineView {
                build_dir: build_dir@,
                store_dir: store_dir@,
                cd_depth: cd_of(views::texts(args@)).0,
                cd_dir: cd_of(views::texts(args@)).1,
                outputs_hint: hint_of(views::texts(outputs@)),
                schema_tool: text::has(cmdline@, "json_schema_compiler/compiler.py"@),
            }),
    {
        let (cd_depth, cd_dir) = cd_prologue(args);
        let outputs_hint = if outputs.len() > 0 {
            assert(views::texts(outputs@)[0] == outputs@[0]@);
            let c = text::chars_of(outputs[0].as_str());
            match path::parent_of(&c) {
                Some(p) => Some(text::string_of(&p)),
                None => None,
            }
        } else {
            None
        };
        let b = text::chars_of(build_dir);
        let s = text::chars_of(store_dir);
        let c = text::chars_of(cmdline);
        CommandLine {
            build_dir: text::string_of(&b),
            store_dir: text::string_of(&s),
            cd_depth,
            cd_dir,
            outputs_hint,
            schema_tool: text::contains_lit(&c, "json_schema_compiler/compiler.py"),
        }
    }
}

/// A word that begins neither like an option nor like an absolute path.
pub open spec fn relative_word(arg: Seq<char>) -> bool {
    !(arg.len() > 0 && arg[0] == '-') && !path::is_abs(arg)
}

/// A relative word with a slash in it.
pub open spec fn path_word(arg: Seq<char>) -> bool {
    relative_word(arg) && arg.contains('/')
}

/// A path with a name in it, so not only climbs.
pub open spec fn has_name(p: Seq<char>) -> bool {
    rewrite::name_count(path::comps(p)) > 0
}

/// A schema file by its extension.
pub open spec fn is_idl(p: Seq<char>) -> bool {
    path::extension(p) == Some("idl"@) || path::extension(p) == Some("webidl"@)
}

/// A schema that the schema compiler reads.
pub open spec fn is_schema(line: LineView, arg: Seq<char>) -> bool {
    line.schema_tool && relative_word(arg) && (path::extension(arg) == Some("json"@) || is_idl(arg))
}

/// The response file that a word names, below the build directory.
pub open spec fn response_place(line: LineView, arg: Seq<char>) -> Option<Seq<char>> {
    match text::without_prefix(arg, "@"@) {
        Some(s) => {
            let rel = match text::without_prefix(s, text::repeat("../"@, line.cd_depth)) {
                Some(t) => t,
                None => s,
            };
            if rel.len() > 0 && relative_word(rel) && !"../"@.is_prefix_of(rel) {
                Some(rel)
            } else {
                None
            }
        },
        None => None,
    }
}

/// The absolute file that a word names, where it lies in the project tree and
/// outside the store.
pub open spec fn absolute_place(line: LineView, arg: Seq<char>) -> Option<Seq<char>> {
    match command::absolute_candidate(arg) {
        Some(p) => if !path::under(p, line.store_dir) && path::one_tree(line.build_dir, p) {
            Some(p)
        } else {
            None
        },
        None => None,
    }
}

/// The relative file that a word assigns, as seen from the build directory.
pub open spec fn value_place(line: LineView, arg: Seq<char>) -> Option<Seq<char>> {
    match text::split_once(arg, '=') {
        Some((n, v)) => if !path::is_abs(v) && v.contains('/') && v[0] != '$' {
            Some(path::rebased(line.cd_dir, v))
        } else {
            None
        },
        None => None,
    }
}

/// The relative file that a word is, as seen from the build directory.
pub open spec fn word_place(line: LineView, arg: Seq<char>) -> Option<Seq<char>> {
    if path_word(arg) {
        Some(path::rebased(line.cd_dir, arg))
    } else {
        None
    }
}

/// The relative file that a word is, as seen from beside the first output.
pub open spec fn hinted_place(line: LineView, arg: Seq<char>) -> Option<Seq<char>> {
    match line.outputs_hint {
        Some(dir) => if path_word(arg) {
            Some(path::walked(dir, arg))
        } else {
            None
        },
        None => None,
    }
}

/// The places to look at before it is known what a word asks for.
#[derive(Debug, Clone)]
pub struct ArgPlaces {
    /// A response file, below the build directory.
    pub response: Option<String>,
    /// An absolute file.
    pub absolute: Option<String>,
    /// A file that is assigned, below the build directory.
    pub value: Option<String>,
    /// The word itself, below the build directory.
    pub word: Option<String>,
    /// The word as seen from beside the first output.
    pub hinted: Option<String>,
}

/// What was found at the places.
#[derive(Debug, Clone, Default)]
pub struct ArgFacts {
    /// The word, as it is spelled, is a file.
    pub is_file: bool,
    /// The word, as it is spelled, is a directory.
    pub is_dir: bool,
    /// The node that the graph knows by this word.
    pub node: Option<FileId>,
    /// A file is known at that node.
    pub node_known: bool,
    /// An edge produces that node.
    pub node_produced: bool,
    /// The response file is a file whose text can be read, and none was taken before.
    pub response: bool,
    /// The absolute file is a file.
    pub absolute: bool,
    /// The assigned file is a file.
    pub value: bool,
    /// The word below the build directory is a file.
    pub word: bool,
    /// The node that the graph knows by the hinted place.
    pub hinted_node: Option<FileId>,
    /// The hinted place is a file.
    pub hinted: bool,
}

/// What a word asks for.
#[derive(Debug, Clone, PartialEq, Eq)]
pub enum ArgAction {
    /// Upload a directory's files.
    UploadDir(String),
    /// Upload a file, with what it refers to.
    UploadFile(String),
    /// Take the node, and what comes with it.
    Node(FileId),
    /// Take the file that is known at the node.
    Known(FileId),
    /// Take the response file.
    Response(String),
}

/// What an action says.
pub enum Action {
    UploadDir(Seq<char>),
    UploadFile(Seq<char>),
    Node(FileId),
    Known(FileId),
    Response(Seq<char>),
}

impl View for ArgAction {
    type V = Action;

    open spec fn view(&self) -> Action {
        match self {
            ArgAction::UploadDir(s) => Action::UploadDir(s@),
            ArgAction::UploadFile(s) => Action::UploadFile(s@),
            ArgAction::Node(x) => Action::Node(*x),
            ArgAction::Known(x) => Action::Known(*x),
            ArgAction::Response(s) => Action::Response(s@),
        }
    }
}

/// What a list of actions says.
pub open spec fn actions(v: Seq<ArgAction>) -> Seq<Action> {
    v.map_values(|a: ArgAction| a@)
}

/// One action, where there is one.
pub open spec fn one(o: Option<Action>) -> Seq<Action> {
    match o {
        Some(a) => seq![a],
        None => Seq::empty(),
    }
}

/// The upload that a place asks for where a file was found there.
pub open spec fn upload_found(place: Option<Seq<char>>, found: bool) -> Option<Action> {
    match place {
        Some(p) => if found {
            Some(Action::UploadFile(p))
        } else {
            None
        },
        None => None,
    }
}

/// What a schema asks for: the directory beside it, for its includes.
pub open spec fn schema_action(line: LineView, arg: Seq<char>, f: ArgFacts) -> Option<Action> {
    if is_schema(line, arg) && f.is_file {
        Some(Action::UploadDir(path::opened_parent(arg)))
    } else {
        None
    }
}

/// What an absolute path asks for: the file, spelled from the build directory.
pub open spec fn absolute_action(line: LineView, arg: Seq<char>, f: ArgFacts) -> Option<Action> {
    match absolute_place(line, arg) {
        Some(p) => if f.absolute {
            match path::relative(p, line.build_dir) {
                Some(rel) => Some(Action::UploadFile(rel)),
                None => None,
            }
        } else {
            None
        },
        None => None,
    }
}

/// What a word that is a path asks for: the file below the build directory; a
/// directory above; the directory of a schema above; or what lies beside the
/// first output, as a node or as a file.
pub open spec fn word_action(line: LineView, arg: Seq<char>, f: ArgFacts) -> Option<Action> {
    if path_word(arg) && f.word {
        Some(Action::UploadFile(path::rebased(line.cd_dir, arg)))
    } else if "../"@.is_prefix_of(arg) && has_name(arg) && f.is_dir {
        Some(Action::UploadDir(arg))
    } else if "../"@.is_prefix_of(arg) && is_idl(arg) && f.is_file {
        Some(Action::UploadDir(path::opened_parent(arg)))
    } else {
        match hinted_place(line, arg) {
            Some(p) => match f.hinted_node {
                Some(x) => Some(Action::Node(x)),
                None => upload_found(Some(p), f.hinted),
            },
            None => None,
        }
    }
}

/// What a word asks for that the graph does not know.
pub open spec fn unknown_actions(line: LineView, arg: Seq<char>, f: ArgFacts) -> Seq<Action> {
    if "@"@.is_prefix_of(arg) {
        match response_place(line, arg) {
            Some(p) => if f.response {
                seq![Action::Response(p)]
            } else {
                Seq::empty()
            },
            None => Seq::empty(),
        }
    } else {
        one(absolute_action(line, arg, f)) + one(upload_found(value_place(line, arg), f.value))
            + one(word_action(line, arg, f))
    }
}

/// What a word asks for that the graph knows as a node: the node, and the file
/// known there; where none is and no edge produces it, the file that the word names.
pub open spec fn node_actions(arg: Seq<char>, x: FileId, f: ArgFacts) -> Seq<Action> {
    if f.node_known {
        seq![Action::Node(x), Action::Known(x)]
    } else if !f.node_produced && path_word(arg) && f.is_file {
        seq![Action::Node(x), Action::UploadFile(arg)]
    } else {
        seq![Action::Node(x)]
    }
}

/// What a word asks for, in order.
pub open spec fn asked(line: LineView, arg: Seq<char>, f: ArgFacts) -> Seq<Action> {
    one(schema_action(line, arg, f)) + match f.node {
        Some(x) => node_actions(arg, x, f),
        None => unknown_actions(line, arg, f),
    }
}

fn is_relative_word(arg: &Vec<char>) -> (r: bool)
    ensures
        r == relative_word(arg@),
{
    !(arg.len() > 0 && arg[0] == '-') && !path::absolute(arg)
}

fn is_path_word(arg: &Vec<char>) -> (r: bool)
    ensures
        r == path_word(arg@),
{
    is_relative_word(arg) && text::contains_char(arg, '/')
}

fn names_schema(arg: &Vec<char>) -> (r: bool)
    ensures
        r == is_idl(arg@),
{
    path::has_extension(arg, "idl") || path::has_extension(arg, "webidl")
}

fn response_at(line: &CommandLine, arg: &Vec<char>) -> (r: Option<Vec<char>>)
    ensures
        views::opt_piece(r) == response_place(line@, arg@),
{
    match text::strip_lit(arg, "@") {
        Some(s) => {
            let ups = text::repeated("../", line.cd_depth);
            let rel = if text::starts(&s, &ups) {
                text::tail(&s, ups.len())
            } else {
                text::copy(&s)
            };
            if rel.len() > 0 && is_relative_word(&rel) && !text::starts_lit(&rel, "../") {
                Some(rel)
            } else {
                None
            }
        },
        None => None,
    }
}

fn absolute_at(line: &CommandLine, arg: &str) -> (r: Option<String>)
    ensures
        views::opt_text(r) == absolute_place(line@, arg@),
{
    match command::absolute_file_candidate(arg) {
        Some(p) => {
            let c = text::chars_of(p.as_str());
            let s = text::chars_of(line.store_dir.as_str());
            if !path::is_under(&c, &s) && path::same_project_tree(
                line.build_dir.as_str(),
                p.as_str(),
            ) {
                Some(p)
            } else {
                None
            }
        },
        None => None,
    }
}

fn value_at(line: &CommandLine, arg: &Vec<char>) -> (r: Option<String>)
    ensures
        views::opt_text(r) == value_place(line@, arg@),
{
    match text::cut_once(arg, '=') {
        Some((_, v)) => {
            if !path::absolute(&v) && text::contains_char(&v, '/') {
                assert(v@.len() > 0);
                if v[0] != '$' {
                    let s = text::string_of(&v);
                    return Some(path::rebase_post_cd(line.cd_dir.as_str(), s.as_str()));
                }
            }
            None
        },
        None => None,
    }
}

fn hinted_at(line: &CommandLine, arg: &str) -> (r: Option<String>)
    ensures
        views::opt_text(r) == hinted_place(line@, arg@),
{
    let c = text::chars_of(arg);
    match &line.outputs_hint {
        Some(dir) => if is_path_word(&c) {
            Some(path::lexical_join(dir.as_str(), arg))
        } else {
            None
        },
        None => None,
    }
}

/// The places to look at before it is known what a word asks for.
pub fn arg_places(line: &CommandLine, arg: &str) -> (r: ArgPlaces)
    ensures
        views::opt_text(r.response) == response_place(line@, arg@),
        views::opt_text(r.absolute) == absolute_place(line@, arg@),
        views::opt_text(r.value) == value_place(line@, arg@),
        views::opt_text(r.word) == word_place(line@, arg@),
        views::opt_text(r.hinted) == hinted_place(line@, arg@),
{
    let c = text::chars_of(arg);
    let response = match response_at(line, &c) {
        Some(p) => Some(text::string_of(&p)),
        None => None,
    };
    let word = if is_path_word(&c) {
        Some(path::rebase_post_cd(line.cd_dir.as_str(), arg))
    } else {
        None
    };
    ArgPlaces {
        response,
        absolute: absolute_at(line, arg),
        value: value_at(line, &c),
        word,
        hinted: hinted_at(line, arg),
    }
}

fn add_one(out: &mut Vec<ArgAction>, a: Option<ArgAction>)
    ensures
        actions(final(out)@) == actions(old(out)@) + one(
            match a {
                Some(x) => Some(x@),
                None => None,
            },
        ),
{
    let ghost before = actions(out@);
    match a {
        Some(x) => {
            let ghost v = x@;
            out.push(x);
            assert(actions(out@) =~= before + seq![v]);
        },
        None => {
            assert(actions(out@) =~= before + Seq::<Action>::empty());
        },
    }
}

/// The action of an optional action.
spec fn opt_action(a: Option<ArgAction>) -> Option<Action> {
    match a {
        Some(x) => Some(x@),
        None => None,
    }
}

fn ask_schema(line: &CommandLine, arg: &str, facts: &ArgFacts) -> (r: Option<ArgAction>)
    ensures
        opt_action(r) == schema_action(line@, arg@, *facts),
{
    let c = text::chars_of(arg);
    if line.schema_tool && is_relative_word(&c) && (path::has_extension(&c, "json")
        || names_schema(&c)) && facts.is_file {
        Some(ArgAction::UploadDir(path::parent_dir_or_here(arg)))
    } else {
        None
    }
}

fn ask_absolute(line: &CommandLine, arg: &str, facts: &ArgFacts) -> (r: Option<ArgAction>)
    ensures
        opt_action(r) == absolute_action(line@, arg@, *facts),
{
    match absolute_at(line, arg) {
        Some(p) => if facts.absolute {
            match path::relative_from(p.as_str(), line.build_dir.as_str()) {
                Some(rel) => Some(ArgAction::UploadFile(rel)),
                None => None,
            }
        } else {
            None
        },
        None => None,
    }
}

fn ask_word(line: &CommandLine, arg: &str, facts: &ArgFacts) -> (r: Option<ArgAction>)
    ensures
        opt_action(r) == word_action(line@, arg@, *facts),
{
    let c = text::chars_of(arg);
    if is_path_word(&c) && facts.word {
        return Some(ArgAction::UploadFile(path::rebase_post_cd(line.cd_dir.as_str(), arg)));
    }
    let above = text::starts_lit(&c, "../");
    if above && rewrite::count_names(&c) > 0 && facts.is_dir {
        return Some(ArgAction::UploadDir(text::string_of(&c)));
    }
    if above && names_schema(&c) && facts.is_file {
        return Some(ArgAction::UploadDir(path::parent_dir_or_here(arg)));
    }
    match hinted_at(line, arg) {
        Some(p) => match facts.hinted_node {
            Some(x) => Some(ArgAction::Node(x)),
            None => if facts.hinted {
                Some(ArgAction::UploadFile(p))
            } else {
                None
            },
        },
        None => None,
    }
}

/// What a word asks for, in order, given what was found at its places.
pub fn arg_actions(line: &CommandLine, arg: &str, facts: &ArgFacts) -> (r: Vec<ArgAction>)
    ensures
        actions(r@) == asked(line@, arg@, *facts),
{
    let c = text::chars_of(arg);
    let mut out: Vec<ArgAction> = Vec::new();
    assert(actions(out@) =~= Seq::<Action>::empty());
    let schema = ask_schema(line, arg, facts);
    add_one(&mut out, schema);
    let ghost first = one(schema_action(line@, arg@, *facts));
    assert(actions(out@) =~= first);
    match facts.node {
        Some(x) => {
            add_one(&mut out, Some(ArgAction::Node(x)));
            if facts.node_known {
                add_one(&mut out, Some(ArgAction::Known(x)));
            } else if !facts.node_produced && is_path_word(&c) && facts.is_file {
                add_one(&mut out, Some(ArgAction::UploadFile(text::string_of(&c))));
            }
            assert(actions(out@) =~= first + node_actions(arg@, x, *facts));
        },
        None => {
            if text::starts_lit(&c, "@") {
                if let Some(p) = response_at(line, &c) {
                    if facts.response {
                        add_one(&mut out, Some(ArgAction::Response(text::string_of(&p))));
                    }
                }
                assert(actions(out@) =~= first + unknown_actions(line@, arg@, *facts));
            } else {
                let a = ask_absolute(line, arg, facts);
                add_one(&mut out, a);
                let v = match value_at(line, &c) {
                    Some(p) => if facts.value {
                        Some(ArgAction::UploadFile(p))
                    } else {
                        None
                    },
                    None => None,
                };
                assert(opt_action(v) == upload_found(value_place(line@, arg@), facts.value));
                add_one(&mut out, v);
                let w = ask_word(line, arg, facts);
                add_one(&mut out, w);
                assert(actions(out@) =~= first + unknown_actions(line@, arg@, *facts));
            }
        },
    }
    out
}

// ---------------------------------------------------------------------------
// Response files
// ---------------------------------------------------------------------------

/// A word of a response file that may name a file or a directory.
pub open spec fn response_word(w: Seq<char>) -> bool {
    path_word(w) && has_name(w)
}

/// The words among some that may name a file or a directory.
pub open spec fn response_words(ws: Seq<Seq<char>>) -> Seq<Seq<char>>
    decreases ws.len(),
{
    if ws.len() == 0 {
        Seq::empty()
    } else if response_word(ws.last()) {
        response_words(ws.drop_last()).push(ws.last())
    } else {
        response_words(ws.drop_last())
    }
}

/// The words of a response file that may name a file or a directory, spelled
/// from the build directory.
pub fn response_tokens(raw: &str, build_dir: &str) -> (r: Vec<String>)
    ensures
        views::texts(r@) == response_words(
            text::words(rewrite::ancestors_rewritten(raw@, Some(build_dir@), 0)),
        ),
{
    let view = rewrite::rewrite_ancestor_paths(raw, build_dir);
    let ws = text::words_of_str(view.as_str());
    let ghost all = views::pieces(ws@);
    let mut out: Vec<String> = Vec::new();
    assert(views::texts(out@) =~= response_words(all.take(0)));
    for i in 0..ws.len()
        invariant
            all == views::pieces(ws@),
            views::texts(out@) == response_words(all.take(i as int)),
    {
        assert(all.take(i + 1).drop_last() =~= all.take(i as int));
        assert(all.take(i + 1).last() == ws@[i as int]@);
        if is_path_word(&ws[i]) && rewrite::count_names(&ws[i]) > 0 {
            out.push(text::string_of(&ws[i]));
        }
    }
    assert(all.take(all.len() as int) =~= all);
    out
}

/// The text of a response file as the task's command sees it: unchanged where
/// the build directory is the sandbox's own, else seen from the directory into
/// which the command descends.
pub fn response_content(raw: &str, build_dir: &str, cd_depth: usize) -> (r: String)
    ensures
        r@ == if path::under(build_dir@, "/build/"@) {
            raw@
        } else {
            rewrite::ancestors_rewritten(raw@, Some(build_dir@), cd_depth as nat)
        },
{
    let d = text::chars_of(build_dir);
    if path::is_under_lit(&d, "/build/") {
        let c = text::chars_of(raw);
        text::string_of(&c)
    } else {
        rewrite::rewrite_ancestor_paths_ups(raw, build_dir, cd_depth)
    }
}

/// The name of a rewritten response file.
pub open spec fn rewritten_name(name: Seq<char>) -> Seq<char> {
    name + ".nn-rsp"@
}

/// The name of a rewritten response file.
pub fn rewritten_response(name: &str) -> (r: String)
    ensures
        r@ == rewritten_name(name@),
{
    let mut c = text::chars_of(name);
    text::append_str(&mut c, ".nn-rsp");
    text::string_of(&c)
}

/// The command line that a task runs. Where the build directory is the
/// sandbox's own, the edge's own command stands, else the rewritten one. The
/// word that named a response file names the rewritten one.
pub open spec fn final_command(
    build_dir: Seq<char>,
    declared: Seq<char>,
    rewritten: Seq<char>,
    response: Option<(int, Seq<char>)>,
) -> Option<Seq<char>> {
    if path::under(build_dir, "/build/"@) {
        match (outside::shell_split(declared), response) {
            (None, _) => None,
            (Some(args), Some((i, w))) => if 0 <= i < args.len() {
                Some(text::replace(declared, args[i], rewritten_name(args[i])))
            } else {
                Some(declared)
            },
            (Some(args), None) => Some(declared),
        }
    } else {
        match response {
            Some((i, w)) => Some(text::replace(rewritten, w, rewritten_name(w))),
            None => Some(rewritten),
        }
    }
}

/// A command in which the word that named a response file names the rewritten one.
pub fn with_rewritten_response(cmdline: &str, word: &str) -> (r: String)
    ensures
        r@ == text::replace(cmdline@, word@, rewritten_name(word@)),
{
    let c = text::chars_of(cmdline);
    let a = text::chars_of(word);
    let to = text::chars_of(rewritten_response(word).as_str());
    let out = text::replaced(&c, &a, &to);
    text::string_of(&out)
}

/// The command line that a task runs; none where the edge's own command leaves a
/// quote open. `response` is the word that named a response file, with its index.
pub fn task_command(
    build_dir: &str,
    declared: &str,
    rewritten: &str,
    response: &Option<(usize, String)>,
) -> (r: Option<String>)
    ensures
        views::opt_text(r) == final_command(
            build_dir@,
            declared@,
            rewritten@,
            match response {
                Some((i, w)) => Some((*i as int, w@)),
                None => None,
            },
        ),
{
    let d = text::chars_of(build_dir);
    if path::is_under_lit(&d, "/build/") {
        let c = text::chars_of(declared);
        match outside::shell_words_of(declared) {
            Some(args) => {
                if let Some((i, _)) = response {
                    if *i < args.len() {
                        assert(views::texts(args@)[*i as int] == args@[*i as int]@);
                        return Some(with_rewritten_response(declared, args[*i].as_str()));
                    }
                }
                Some(text::string_of(&c))
            },
            None => None,
        }
    } else {
        let c = text::chars_of(rewritten);
        match response {
            Some((_, w)) => Some(with_rewritten_response(rewritten, w.as_str())),
            None => Some(text::string_of(&c)),
        }
    }
}

// ---------------------------------------------------------------------------
// Files that other files refer to
// ---------------------------------------------------------------------------

/// Where a file that is referred to lies, as seen from the build directory. An
/// absolute path has to lie in the project tree and outside the store.
pub open spec fn reference_place(line: LineView, cand: Seq<char>) -> Option<Seq<char>> {
    if path::is_abs(cand) {
        if path::under(cand, line.store_dir) || !path::one_tree(line.build_dir, cand) {
            None
        } else {
            path::relative(cand, line.build_dir)
        }
    } else {
        Some(path::rebased(line.cd_dir, cand))
    }
}

/// Where a file that is referred to lies, as seen from the build directory.
pub fn referenced_place(line: &CommandLine, cand: &str) -> (r: Option<String>)
    ensures
        views::opt_text(r) == reference_place(line@, cand@),
{
    let c = text::chars_of(cand);
    if path::absolute(&c) {
        let s = text::chars_of(line.store_dir.as_str());
        if path::is_under(&c, &s) || !path::same_project_tree(line.build_dir.as_str(), cand) {
            None
        } else {
            path::relative_from(cand, line.build_dir.as_str())
        }
    } else {
        Some(path::rebase_post_cd(line.cd_dir.as_str(), cand))
    }
}

// ---------------------------------------------------------------------------
// Laws
// ---------------------------------------------------------------------------

/// A word asks for at most four things. A node that the graph knows by it is
/// among them, and a response file only where the graph does not know the word.
pub proof fn few_actions(line: LineView, arg: Seq<char>, f: ArgFacts)
    ensures
        asked(line, arg, f).len() <= 4,
        f.node is Some ==> asked(line, arg, f).contains(Action::Node(f.node->0)),
        forall|p: Seq<char>| #[trigger]
            asked(line, arg, f).contains(Action::Response(p)) ==> f.node is None && f.response
                && response_place(line, arg) == Some(p),
{
    let first = one(schema_action(line, arg, f));
    if let Some(x) = f.node {
        assert(asked(line, arg, f)[first.len() as int] == Action::Node(x));
    }
}

/// Nothing that lies in the store is uploaded for an absolute path that a word
/// names.
pub proof fn store_is_not_uploaded(line: LineView, arg: Seq<char>, f: ArgFacts)
    requires
        command::absolute_candidate(arg) matches Some(p) && path::under(p, line.store_dir),
    ensures
        absolute_action(line, arg, f) is None,
{
}

/// A command that enters a relative directory first is read from there, whatever
/// follows; one that enters an absolute directory, or none, is not.
pub proof fn the_first_cd_counts(dir: Seq<char>, rest: Seq<Seq<char>>)
    ensures
        !(dir.len() > 0 && dir[0] == '/') ==> cd_of(seq!["cd"@, dir, "&&"@] + rest) == (
            rewrite::depth_of(dir),
            dir,
        ),
        dir.len() > 0 && dir[0] == '/' ==> cd_of(seq!["cd"@, dir, "&&"@] + rest) == (
            0nat,
            Seq::<char>::empty(),
        ),
        !(rest.len() >= 3 && rest[0] == "cd"@ && rest[2] == "&&"@) ==> cd_of(rest) == (
            0nat,
            Seq::<char>::empty(),
        ),
{
    let args = seq!["cd"@, dir, "&&"@] + rest;
    assert(args[0] == "cd"@ && args[1] == dir && args[2] == "&&"@);
}

/// A word behind `@` names a response file below the build directory: as it is
/// spelled, or behind as many climbs as the command's `cd` goes down. One that
/// is absolute, climbs further or looks like an option names none.
pub proof fn response_files_lie_below(line: LineView, rel: Seq<char>)
    ensures
        response_place(line, "@"@ + (text::repeat("../"@, line.cd_depth) + rel)) == if rel.len() > 0
            && rel[0] != '-' && rel[0] != '/' && !"../"@.is_prefix_of(rel) {
            Some(rel)
        } else {
            None
        },
        !text::repeat("../"@, line.cd_depth).is_prefix_of(rel) ==> response_place(line, "@"@ + rel)
            == if rel.len() > 0 && rel[0] != '-' && rel[0] != '/' && !"../"@.is_prefix_of(rel) {
            Some(rel)
        } else {
            None
        },
        !"@"@.is_prefix_of(rel) ==> response_place(line, rel) is None,
{
    reveal_strlit("@");
    let c = text::repeat("../"@, line.cd_depth);
    let a = "@"@ + (c + rel);
    let b = "@"@ + rel;
    assert("@"@.is_prefix_of(a) && "@"@.is_prefix_of(b));
    assert(a.skip(1) =~= c + rel);
    assert(b.skip(1) =~= rel);
    assert(c.is_prefix_of(c + rel));
    assert((c + rel).skip(c.len() as int) =~= rel);
}

/// A value behind the first equals sign of a word is a path where it is relative,
/// has a slash and is no shell variable; it is read where the command runs.
pub proof fn assigned_paths_are_read_where_the_command_runs(
    line: LineView,
    name: Seq<char>,
    v: Seq<char>,
)
    requires
        !name.contains('='),
    ensures
        value_place(line, name + seq!['='] + v) == if v.contains('/') && v[0] != '/' && v[0] != '$' {
            Some(path::rebased(line.cd_dir, v))
        } else {
            None
        },
        value_place(line, name) is None,
{
    text::once_parts(name, v, '=');
    text::once_whole(name, '=');
    if v.len() == 0 {
        assert(!v.contains('/'));
    }
}

/// A word with a slash that is neither an option nor absolute is a path, up or
/// down: it is read where the command runs, and beside the first output.
pub proof fn words_with_a_slash_are_paths(line: LineView, w: Seq<char>)
    ensures
        word_place(line, w) == if w.contains('/') && w[0] != '-' && w[0] != '/' {
            Some(path::rebased(line.cd_dir, w))
        } else {
            None
        },
        line.outputs_hint matches Some(d) ==> hinted_place(line, w) == if w.contains('/') && w[0]
            != '-' && w[0] != '/' {
            Some(path::walked(d, w))
        } else {
            None
        },
        line.outputs_hint is None ==> hinted_place(line, w) is None,
{
    if w.len() == 0 {
        assert(!w.contains('/'));
    }
}

/// Behind a `cd` a path is walked from the directory entered; without one it is
/// kept as it is spelled.
pub proof fn paths_are_read_behind_the_cd(dir: Seq<char>, w: Seq<char>)
    ensures
        path::rebased(Seq::empty(), w) == w,
        dir.len() > 0 ==> path::rebased(dir, w) == path::walked(dir, w),
{
}

/// An absolute word is taken where it lies outside the store and in the project
/// tree, and nowhere else.
pub proof fn absolute_words_of_the_project_are_taken(line: LineView, arg: Seq<char>, p: Seq<char>)
    requires
        command::absolute_candidate(arg) == Some(p),
    ensures
        absolute_place(line, arg) == if !path::under(p, line.store_dir) && path::first_name(
            path::comps(line.build_dir),
        ) is Some && path::first_name(path::comps(line.build_dir)) == path::first_name(
            path::comps(p),
        ) {
            Some(p)
        } else {
            None
        },
{
}

/// A word that is a node asks for that node whatever it looks like; and for the
/// file known there, or else, where no edge makes it and it lies on disk as a
/// path, for its upload.
pub proof fn nodes_are_asked_for(line: LineView, arg: Seq<char>, f: ArgFacts, x: FileId)
    requires
        f.node == Some(x),
    ensures
        ({
            let r = asked(line, arg, f);
            &&& r.contains(Action::Node(x))
            &&& r.contains(Action::Known(x)) <==> f.node_known
            &&& f.node_known ==> r.last() == Action::Known(x)
            &&& !f.node_known && !f.node_produced && f.is_file && arg.contains('/') && arg[0] != '-'
                && arg[0] != '/' ==> r.last() == Action::UploadFile(arg)
            &&& !f.node_known && (f.node_produced || !f.is_file) ==> r.last() == Action::Node(x)
        }),
{
    let a = one(schema_action(line, arg, f));
    let b = node_actions(arg, x, f);
    let r = a + b;
    assert(b[0] == Action::Node(x));
    assert(r[a.len() as int] == b[0]);
    assert(r.last() == b.last());
    if arg.len() == 0 {
        assert(!arg.contains('/'));
    }
    if f.node_known {
        assert(b[1] == Action::Known(x));
        assert(r[a.len() as int + 1] == b[1]);
    }
    if r.contains(Action::Known(x)) && !f.node_known {
        let i = choose|i: int| 0 <= i < r.len() && r[i] == Action::Known(x);
        if i < a.len() {
            assert(a[i] == r[i]);
        } else {
            assert(b[i - a.len()] == r[i]);
        }
    }
}

/// A word that is no node asks for every place at which it was found: for the
/// absolute path in it, for the value that it assigns, and for itself.
pub proof fn found_places_are_uploaded(line: LineView, arg: Seq<char>, f: ArgFacts)
    requires
        f.node is None,
        !"@"@.is_prefix_of(arg),
    ensures
        ({
            let r = asked(line, arg, f);
            &&& absolute_place(line, arg) is Some && f.absolute && path::relative(
                absolute_place(line, arg)->0,
                line.build_dir,
            ) is Some ==> r.contains(
                Action::UploadFile(
                    path::relative(absolute_place(line, arg)->0, line.build_dir)->0,
                ),
            )
            &&& value_place(line, arg) is Some && f.value ==> r.contains(
                Action::UploadFile(value_place(line, arg)->0),
            )
            &&& word_place(line, arg) is Some && f.word ==> r.contains(
                Action::UploadFile(word_place(line, arg)->0),
            )
            &&& "../"@.is_prefix_of(arg) && has_name(arg) && f.is_dir && !f.word ==> r.contains(
                Action::UploadDir(arg),
            )
            &&& hinted_place(line, arg) is Some && !f.word && !f.is_dir && !f.is_file
                && f.hinted_node is Some ==> r.contains(Action::Node(f.hinted_node->0))
            &&& hinted_place(line, arg) is Some && !f.word && !f.is_dir && !f.is_file
                && f.hinted_node is None && f.hinted ==> r.contains(
                Action::UploadFile(hinted_place(line, arg)->0),
            )
            &&& is_schema(line, arg) && f.is_file ==> r.contains(
                Action::UploadDir(path::opened_parent(arg)),
            )
            &&& !f.absolute && !f.value && !f.word && !f.is_dir && !f.is_file && !f.hinted
                && f.hinted_node is None ==> r.len() == 0
        }),
{
    let s = one(schema_action(line, arg, f));
    let a = one(absolute_action(line, arg, f));
    let v = one(upload_found(value_place(line, arg), f.value));
    let w = one(word_action(line, arg, f));
    let r = s + (a + v + w);
    assert(r == asked(line, arg, f));
    if s.len() > 0 {
        assert(r[0] == s[0]);
    }
    if a.len() > 0 {
        assert(r[s.len() as int] == a[0]);
    }
    if v.len() > 0 {
        assert(r[(s.len() + a.len()) as int] == v[0]);
    }
    if w.len() > 0 {
        assert(r[(s.len() + a.len() + v.len()) as int] == w[0]);
    }
}

/// A response file that was found is taken over, and nothing else is asked for by
/// a word that names one.
pub proof fn found_response_files_are_taken_over(line: LineView, arg: Seq<char>, f: ArgFacts)
    requires
        f.node is None,
        "@"@.is_prefix_of(arg),
        !line.schema_tool,
    ensures
        response_place(line, arg) is Some && f.response ==> asked(line, arg, f) == seq![
            Action::Response(response_place(line, arg)->0),
        ],
        response_place(line, arg) is None || !f.response ==> asked(line, arg, f).len() == 0,
{
    let u = unknown_actions(line, arg, f);
    assert(Seq::<Action>::empty() + u =~= u);
}

/// The directory beside a schema is asked for only by the schema compiler, only
/// for a file, and in front of everything else.
pub proof fn schemas_bring_their_directory(line: LineView, arg: Seq<char>, f: ArgFacts)
    ensures
        line.schema_tool && f.is_file && !path::is_abs(arg) && !(arg.len() > 0 && arg[0] == '-') && (
        path::extension(arg) == Some("json"@) || path::extension(arg) == Some("idl"@)
            || path::extension(arg) == Some("webidl"@)) ==> asked(line, arg, f).len() > 0 && asked(
            line,
            arg,
            f,
        )[0] == Action::UploadDir(path::opened_parent(arg)),
        !line.schema_tool ==> schema_action(line, arg, f) is None,
{
}

/// The words of a response file that may name something are those with a slash
/// and a name that are neither options nor absolute, all of them and in their
/// order.
pub proof fn response_words_are_listed_in_order(
    a: Seq<Seq<char>>,
    w: Seq<char>,
    b: Seq<Seq<char>>,
)
    ensures
        response_words(a + b) == response_words(a) + response_words(b),
        response_words(seq![w]) == if w.contains('/') && w[0] != '-' && w[0] != '/' && (exists|i: int|
            0 <= i < path::comps(w).len() && path::is_name(#[trigger] path::comps(w)[i])) {
            seq![w]
        } else {
            Seq::<Seq<char>>::empty()
        },
    decreases b.len(),
{
    reveal_with_fuel(response_words, 2);
    assert(seq![w].drop_last() =~= Seq::<Seq<char>>::empty());
    names_are_counted(path::comps(w));
    if w.len() == 0 {
        assert(!w.contains('/'));
    }
    assert(response_words(seq![w]) =~= if response_word(w) {
        seq![w]
    } else {
        Seq::<Seq<char>>::empty()
    });
    if b.len() == 0 {
        assert(a + b =~= a);
        assert(response_words(a) + response_words(b) =~= response_words(a));
    } else {
        response_words_are_listed_in_order(a, w, b.drop_last());
        assert((a + b).drop_last() =~= a + b.drop_last());
        assert((a + b).last() == b.last());
        assert(response_words(a + b) =~= response_words(a) + response_words(b));
    }
}

proof fn names_are_counted(cs: Seq<Seq<char>>)
    ensures
        rewrite::name_count(cs) > 0 <==> exists|i: int|
            0 <= i < cs.len() && path::is_name(#[trigger] cs[i]),
    decreases cs.len(),
{
    if cs.len() > 0 {
        let f = cs.drop_last();
        names_are_counted(f);
        if exists|i: int| 0 <= i < cs.len() && path::is_name(#[trigger] cs[i]) {
            let i = choose|i: int| 0 <= i < cs.len() && path::is_name(#[trigger] cs[i]);
            if i < f.len() {
                assert(path::is_name(f[i]));
            }
        }
        if exists|i: int| 0 <= i < f.len() && path::is_name(#[trigger] f[i]) {
            let i = choose|i: int| 0 <= i < f.len() && path::is_name(#[trigger] f[i]);
            assert(path::is_name(cs[i]));
        }
        if path::is_name(cs.last()) {
            assert(path::is_name(cs[cs.len() - 1]));
        }
    }
}

/// The task runs the rewritten command, except in the sandbox's own build
/// directory, where it runs the declared one; either way the word of a response
/// file that was taken over is spelled with the new name, and a command without
/// one is left as it is.
pub proof fn tasks_run_their_command(
    build_dir: Seq<char>,
    declared: Seq<char>,
    rewritten: Seq<char>,
    i: int,
    w: Seq<char>,
)
    ensures
        !path::under(build_dir, "/build/"@) ==> final_command(build_dir, declared, rewritten, None)
            == Some(rewritten),
        !path::under(build_dir, "/build/"@) ==> final_command(
            build_dir,
            declared,
            rewritten,
            Some((i, w)),
        ) == Some(text::replace(rewritten, w, w + ".nn-rsp"@)),
        path::under(build_dir, "/build/"@) && outside::shell_split(declared) is Some
            ==> final_command(build_dir, declared, rewritten, None) == Some(declared),
        path::under(build_dir, "/build/"@) && outside::shell_split(declared) is Some && 0 <= i
            < outside::shell_split(declared)->0.len() ==> final_command(
            build_dir,
            declared,
            rewritten,
            Some((i, w)),
        ) == Some(
            text::replace(
                declared,
                outside::shell_split(declared)->0[i],
                outside::shell_split(declared)->0[i] + ".nn-rsp"@,
            ),
        ),
{
}

/// A relative reference is read where the command runs; an absolute one is told
/// as seen from the build directory, where it lies in the project tree and
/// outside the store.
pub proof fn references_are_placed(line: LineView, cand: Seq<char>)
    ensures
        !(cand.len() > 0 && cand[0] == '/') ==> reference_place(line, cand) == Some(
            path::rebased(line.cd_dir, cand),
        ),
        cand.len() > 0 && cand[0] == '/' && path::under(cand, line.store_dir) ==> reference_place(
            line,
            cand,
        ) is None,
        cand.len() > 0 && cand[0] == '/' && path::first_name(path::comps(line.build_dir))
            != path::first_name(path::comps(cand)) ==> reference_place(line, cand) is None,
        cand.len() > 0 && cand[0] == '/' && !path::under(cand, line.store_dir) && path::one_tree(
            line.build_dir,
            cand,
        ) ==> reference_place(line, cand) == path::relative(cand, line.build_dir),
{
}

} // verus!
