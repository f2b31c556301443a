//! Tasks: what one edge of the build needs in order to run on its own, and
//! what it leaves behind.
use crate::arguments;
use crate::arguments::ArgAction;
use crate::arguments::CommandLine;
use crate::command;
use crate::derived;
use crate::derived::DerivedFile;
use crate::derived::DerivedPath;
use crate::derived::FileView;
use crate::derived::MisplacedOutput;
use crate::graph;
use crate::graph::FileId;
use crate::inputs;
use crate::inputs::InputSet;
use crate::inputs::Place;
use crate::outputs;
use crate::outside;
use crate::path;
use crate::path::Misplaced;
use crate::rewrite;
use crate::runner;
use crate::runner::Edge;
use crate::runner::Runner;
use crate::shapes;
use crate::text;
use crate::vars::Vars;
use crate::views;
use vstd::prelude::*;

verus! {

broadcast use {views::texts_push, views::pairs_push, derived::files_push};

/// What one edge needs in order to run on its own.
#[derive(Debug, Clone)]
pub struct Task {
    /// The system that it runs on.
    pub system: String,
    /// The variables that every task gets.
    pub wrapper_vars: Vars,
    /// The store paths that its command and those variables mention.
    pub input_srcs: Vec<String>,
    pub build_dir: String,
    pub store_dir: String,
    /// Its command line; an alias has none.
    pub cmdline: Option<String>,
    pub desc: Option<String>,
    pub deps: Option<String>,
    /// The response file, with its content.
    pub rspfile: Option<(String, String)>,
    pub depfile: Option<String>,
    /// The names of its outputs in the graph.
    pub out_names: Vec<String>,
    /// Its input files.
    pub inputs: Vec<DerivedFile>,
    /// Its inputs that are in the store under their own names.
    pub store_srcs: Vec<String>,
    /// Its outputs, as seen from the build directory.
    pub outputs: Vec<String>,
    /// Whether it keeps a log.
    pub verbose: bool,
    /// The links of the build directory.
    pub alias_symlinks: Vec<(String, String)>,
    /// The empty directories of the build directory.
    pub empty_dirs: Vec<String>,
}

// ---------------------------------------------------------------------------
// The outputs
// ---------------------------------------------------------------------------

/// The outputs of an edge as seen from the build directory. The first one that
/// has no place there fails the edge.
pub fn edge_outputs(build_dir: &str, names: &Vec<String>) -> (r: Result<Vec<String>, Misplaced>)
    ensures
        match r {
            Ok(v) => derived::all_placed(build_dir@, views::texts(names@)) && views::texts(v@)
                == placed_all(build_dir@, views::texts(names@)),
            Err(e) => e.build_dir@ == build_dir@ && derived::first_misplaced(
                build_dir@,
                views::texts(names@),
                e.path@,
            ),
        },
{
    let ghost all = views::texts(names@);
    let ghost want = placed_all(build_dir@, all);
    let mut out: Vec<String> = Vec::new();
    assert(views::texts(out@) =~= want.take(0));
    for i in 0..names.len()
        invariant
            all == views::texts(names@),
            want == placed_all(build_dir@, all),
            forall|j: int|
                0 <= j < i ==> path::normalized(build_dir@, #[trigger] all[j]) is Some,
            views::texts(out@) == want.take(i as int),
    {
        assert(all[i as int] == names@[i as int]@);
        match path::normalize_build_path(build_dir, names[i].as_str()) {
            Ok(p) => {
                out.push(p);
                assert(want.take(i + 1) =~= want.take(i as int).push(want[i as int]));
            },
            Err(e) => {
                assert forall|j: int| 0 <= j < all.take(i as int).len() implies path::normalized(
                    build_dir@,
                    #[trigger] all.take(i as int)[j],
                ) is Some by {
                    assert(all.take(i as int)[j] == all[j]);
                }
                return Err(e);
            },
        }
    }
    assert(want.take(all.len() as int) =~= want);
    Ok(out)
}

/// Names as seen from the build directory.
pub open spec fn placed_all(build_dir: Seq<char>, names: Seq<Seq<char>>) -> Seq<Seq<char>> {
    names.map_values(|n: Seq<char>| derived::placed(build_dir, n))
}

/// Those of some names that have a place under the build directory, as seen from there.
pub open spec fn placeable(build_dir: Seq<char>, names: Seq<Seq<char>>) -> Seq<Seq<char>>
    decreases names.len(),
{
    if names.len() == 0 {
        Seq::empty()
    } else {
        let front = placeable(build_dir, names.drop_last());
        match path::normalized(build_dir, names.last()) {
            Some(p) => front.push(p),
            None => front,
        }
    }
}

/// The names of what an edge writes: its outputs and its dependency file.
pub open spec fn written_names(
    names: Seq<Seq<char>>,
    depfile: Option<Seq<char>>,
) -> Seq<Seq<char>> {
    match depfile {
        Some(d) => names.push(d),
        None => names,
    }
}

/// The places that an edge writes: none of them may be an input.
pub fn own_outputs(build_dir: &str, names: &Vec<String>, depfile: Option<&str>) -> (r: Vec<String>)
    ensures
        views::texts(r@) == placeable(
            build_dir@,
            written_names(views::texts(names@), views::opt_str(depfile)),
        ),
{
    let mut all = derived::dup_strings(names);
    if let Some(d) = depfile {
        let c = text::chars_of(d);
        all.push(text::string_of(&c));
    }
    let ghost want = views::texts(all@);
    let mut out: Vec<String> = Vec::new();
    assert(views::texts(out@) =~= placeable(build_dir@, want.take(0)));
    for i in 0..all.len()
        invariant
            want == views::texts(all@),
            views::texts(out@) == placeable(build_dir@, want.take(i as int)),
    {
        assert(want.take(i + 1).drop_last() =~= want.take(i as int));
        assert(want.take(i + 1).last() == all@[i as int]@);
        match path::normalize_build_path(build_dir, all[i].as_str()) {
            Ok(p) => {
                out.push(p);
            },
            Err(_) => {},
        }
    }
    assert(want.take(want.len() as int) =~= want);
    out
}

// ---------------------------------------------------------------------------
// The inputs
// ---------------------------------------------------------------------------

/// What becomes of a node that an edge's inputs lead to.
#[derive(Debug, PartialEq, Eq)]
pub enum InputAction {
    /// It is no input of the edge's task.
    Skip,
    /// The file known there is taken.
    Taken,
    /// It is in the store under its own name.
    StoreSource,
    /// It has to be uploaded.
    Upload,
}

/// A node by which only an order is meant: a compilation asks an alias for
/// headers and directory trees alone, since it finds its other inputs itself.
pub open spec fn order_only(compiles: bool, led: bool, name: Seq<char>) -> bool {
    led && compiles && !shapes::is_header(name) && !shapes::is_tree(name)
}

/// What becomes of a node. A node that something else led to, at which nothing
/// is known and where no file lies, means only an order.
pub open spec fn input_action(
    compiles: bool,
    led: bool,
    name: Seq<char>,
    known: bool,
    is_file: bool,
    store_dir: Seq<char>,
) -> InputAction {
    if order_only(compiles, led, name) {
        InputAction::Skip
    } else if known {
        InputAction::Taken
    } else if led && !is_file {
        InputAction::Skip
    } else if store_dir.is_prefix_of(name) {
        InputAction::StoreSource
    } else {
        InputAction::Upload
    }
}

/// A response file that a command reads, taken over into the task.
#[derive(Debug, Clone)]
pub struct ResponseFile {
    /// The index of the word that names it.
    pub index: usize,
    /// That word.
    pub word: String,
    /// Where the rewritten file lies, below the build directory.
    pub path: String,
    /// Its rewritten text.
    pub content: String,
}

/// A task while its inputs are gathered.
#[derive(Debug)]
pub struct Draft {
    /// The edge compiles, and discovers its headers itself.
    pub compiles: bool,
    pub inputs: InputSet,
    pub store_srcs: Vec<String>,
    /// The nodes that the command line names.
    pub node_args: Vec<FileId>,
    pub response: Option<ResponseFile>,
}

impl Draft {
    /// A task without inputs.
    pub fn new(edge: &Edge) -> (r: Draft)
        ensures
            r.compiles == (views::opt_text(edge.deps) == Some("gcc"@) && shapes::all_objects(
                runner::names(edge.outs@),
            )),
            r.inputs@ == Map::<Place, FileView>::empty(),
            r.store_srcs@.len() == 0,
            r.node_args@.len() == 0,
            r.response is None,
    {
        let names = runner::names_of(&edge.outs);
        let deps = match &edge.deps {
            Some(d) => Some(d.as_str()),
            None => None,
        };
        Draft {
            compiles: shapes::is_compile_task(deps, &names),
            inputs: InputSet::new(),
            store_srcs: Vec::new(),
            node_args: Vec::new(),
            response: None,
        }
    }

    /// Looks at a node that the edge's inputs lead to. The files that come with
    /// a stamp are taken; then the file known at the node, if the task wants
    /// it. What is not known there is for the caller to see to.
    pub fn visit(
        &mut self,
        run: &Runner,
        fid: FileId,
        led: bool,
        name: &str,
        is_file: bool,
    ) -> (r: InputAction)
        ensures
            r == input_action(
                old(self).compiles,
                led,
                name@,
                run@.derived.contains_key(fid),
                is_file,
                run.config.store_dir@,
            ),
            final(self).inputs@ == visited(
                inputs::with_free(
                    old(self).inputs@,
                    if run@.stamp_files.contains_key(fid) {
                        runner::wanted_files(
                            old(self).compiles,
                            run@.stamp_files[fid],
                        )
                    } else {
                        Seq::empty()
                    },
                ),
                r,
                run@.derived[fid],
            ),
            views::texts(final(self).store_srcs@) == if r == InputAction::StoreSource {
                views::texts(old(self).store_srcs@).push(name@)
            } else {
                views::texts(old(self).store_srcs@)
            },
            run@.derived.contains_key(fid) && (!led || !old(self).compiles || shapes::is_header(name@)
                || shapes::is_tree(name@)) ==> r == InputAction::Taken
                && final(self).inputs@.contains_key(path::comps(run@.derived[fid].build_path))
                && final(self).inputs@[path::comps(run@.derived[fid].build_path)]
                == run@.derived[fid],
            final(self).compiles == old(self).compiles,
            final(self).node_args == old(self).node_args,
            final(self).response == old(self).response,
    {
        broadcast use vstd::std_specs::hash::group_hash_axioms;

        run.take_stamp_files(&mut self.inputs, self.compiles, fid);
        if led && self.compiles && !shapes::header_like(name) && !shapes::is_tree_path(name) {
            return InputAction::Skip;
        }
        if let Some(f) = run.derived_files.get(&fid) {
            self.inputs.insert(f.dup());
            return InputAction::Taken;
        }
        if led && !is_file {
            return InputAction::Skip;
        }
        let n = text::chars_of(name);
        let s = text::chars_of(run.config.store_dir.as_str());
        if text::starts(&n, &s) {
            self.store_srcs.push(text::string_of(&n));
            return InputAction::StoreSource;
        }
        InputAction::Upload
    }

    /// Takes a declared input that was uploaded with what it refers to: what
    /// it refers to first, so that the input itself stands at its place.
    pub fn take_declared(&mut self, uploaded: &Vec<DerivedFile>)
        ensures
            final(self).inputs@ == inputs::with_all(
                old(self).inputs@,
                main_last(derived::files(uploaded@)),
            ),
            final(self).compiles == old(self).compiles,
            final(self).store_srcs == old(self).store_srcs,
            final(self).node_args == old(self).node_args,
            final(self).response == old(self).response,
    {
        let ghost all = derived::files(uploaded@);
        let mut v: Vec<DerivedFile> = Vec::new();
        let n: usize = uploaded.len();
        if n > 0 {
            assert(derived::files(v@) =~= all.subrange(1, 1));
            for i in 1..n
                invariant
                    n == uploaded.len(),
                    all == derived::files(uploaded@),
                    derived::files(v@) == all.subrange(1, i as int),
            {
                v.push(uploaded[i].dup());
                assert(all.subrange(1, i + 1) =~= all.subrange(1, i as int).push(
                    uploaded@[i as int]@,
                ));
            }
            v.push(uploaded[0].dup());
            assert(all.subrange(1, n as int) =~= all.drop_first());
        }
        assert(derived::files(v@) =~= main_last(all));
        self.inputs.insert_all(&v);
    }

    /// Takes files that were uploaded because something refers to them.
    pub fn take_files(&mut self, fs: &Vec<DerivedFile>)
        ensures
            final(self).inputs@ == inputs::with_all(old(self).inputs@, derived::files(fs@)),
            final(self).compiles == old(self).compiles,
            final(self).store_srcs == old(self).store_srcs,
            final(self).node_args == old(self).node_args,
            final(self).response == old(self).response,
    {
        self.inputs.insert_all(fs);
    }

    /// Does what a word of the command line asks for, as far as no upload is needed.
    pub fn take_action(&mut self, run: &Runner, action: &ArgAction)
        ensures
            final(self).node_args@ == match action {
                ArgAction::Node(x) => old(self).node_args@.push(*x),
                _ => old(self).node_args@,
            },
            final(self).inputs@ == match action {
                ArgAction::Known(x) => match runner::known_file(
                    run@.derived,
                    run@.build_dir,
                    *x,
                ) {
                    Some(f) => old(self).inputs@.insert(inputs::place_of(f), f),
                    None => old(self).inputs@,
                },
                _ => old(self).inputs@,
            },
            final(self).compiles == old(self).compiles,
            final(self).store_srcs == old(self).store_srcs,
            final(self).response == old(self).response,
    {
        match action {
            ArgAction::Node(x) => {
                self.node_args.push(*x);
            },
            ArgAction::Known(x) => {
                if let Some(f) = run.file_at(*x) {
                    self.inputs.insert(f);
                }
            },
            _ => {},
        }
    }

    /// Takes over the response file that a word names, with its text.
    pub fn take_response(
        &mut self,
        line: &CommandLine,
        index: usize,
        word: &str,
        place: &str,
        raw: &str,
    )
        ensures
            final(self).response matches Some(r) && r.index == index && r.word@ == word@
                && r.path@ == arguments::rewritten_name(place@) && r.content@ == (
            if path::under(line@.build_dir, "/build/"@) {
                raw@
            } else {
                rewrite::ancestors_rewritten(raw@, Some(line@.build_dir), line@.cd_depth)
            }),
            final(self).inputs@ == old(self).inputs@,
            final(self).compiles == old(self).compiles,
            final(self).store_srcs == old(self).store_srcs,
            final(self).node_args == old(self).node_args,
    {
        let w = text::chars_of(word);
        self.response = Some(
            ResponseFile {
                index,
                word: text::string_of(&w),
                path: arguments::rewritten_response(place),
                content: arguments::response_content(raw, line.build_dir.as_str(), line.cd_depth),
            },
        );
    }

    /// Takes what the nodes that the command line names lead to, and the
    /// files of the build directory where there are few of them; then drops
    /// what the edge itself writes, and returns those places.
    pub fn settle(&mut self, run: &Runner, limit: usize, own: &Vec<String>) -> (dropped: Vec<
        String,
    >)
        ensures
            exists|a: Map<Place, FileView>, b: Map<Place, FileView>|
                {
                    &&& #[trigger] runner::with_nodes(
                        run@.derived,
                        run@.co_outputs,
                        old(self).inputs@,
                        old(self).node_args@,
                        a,
                    )
                    &&& #[trigger] blanketed(run, old(self).compiles, limit, a, b)
                    &&& final(self).inputs@ == inputs::without_all(b, views::texts(own@))
                    &&& views::texts(dropped@) == inputs::taken_out(b, views::texts(own@))
                },
            final(self).compiles == old(self).compiles,
            final(self).store_srcs == old(self).store_srcs,
            final(self).node_args == old(self).node_args,
            final(self).response == old(self).response,
    {
        run.take_nodes(&mut self.inputs, &self.node_args);
        let ghost a = self.inputs@;
        assert(runner::with_nodes(
            run@.derived,
            run@.co_outputs,
            old(self).inputs@,
            old(self).node_args@,
            a,
        ));
        run.take_build_dir(&mut self.inputs, self.compiles, limit);
        let ghost b = self.inputs@;
        assert(blanketed(run, self.compiles, limit, a, b));
        self.inputs.remove_all(own)
    }

    /// Takes files that nothing at their places stands against: what a script
    /// imports, what the linker is given, templates beside templates.
    pub fn fill(&mut self, fs: &Vec<DerivedFile>)
        ensures
            final(self).inputs@ == inputs::with_free(old(self).inputs@, derived::files(fs@)),
            final(self).compiles == old(self).compiles,
            final(self).store_srcs == old(self).store_srcs,
            final(self).node_args == old(self).node_args,
            final(self).response == old(self).response,
    {
        self.inputs.add_all(fs);
    }

    /// Takes a generated file that a resource list names, and what comes with
    /// it, where their places are free.
    pub fn take_generated(&mut self, run: &Runner, fid: FileId)
        ensures
            runner::with_generated(
                run@.derived,
                run@.co_outputs,
                old(self).inputs@,
                fid,
                final(self).inputs@,
            ),
            final(self).compiles == old(self).compiles,
            final(self).store_srcs == old(self).store_srcs,
            final(self).node_args == old(self).node_args,
            final(self).response == old(self).response,
    {
        run.take_generated(&mut self.inputs, fid);
    }
}

impl Draft {
    /// Whether nothing is an input at a place.
    pub fn lacks(&self, p: &str) -> (r: bool)
        ensures
            r == !self.inputs@.contains_key(path::comps(p@)),
    {
        !self.inputs.contains(p)
    }

    /// Whether a file that lies beside a template is a template to take.
    pub fn wants_template(&self, p: &str, is_file: bool) -> (r: bool)
        ensures
            r == (path::extension(p@) == Some("template"@) && !self.inputs@.contains_key(
                path::comps(p@),
            ) && is_file),
    {
        let c = text::chars_of(p);
        path::has_extension(&c, "template") && !self.inputs.contains(p) && is_file
    }

    /// Whether a response file that the command names is to be read: it fills the
    /// one slot there is, where neither the edge nor an earlier word did.
    pub fn wants_response(&self, edge: &Edge) -> (r: bool)
        ensures
            r == (edge.rspfile is None && self.response is None),
    {
        edge.rspfile.is_none() && self.response.is_none()
    }
}

/// Whether a file that the linker is given is uploaded: it is there, and no edge
/// produces it. What an edge produces reaches the task through that edge.
pub fn wants_linker_file(is_file: bool, produced: bool) -> (r: bool)
    ensures
        r == (is_file && !produced),
{
    is_file && !produced
}

/// The inputs after a node was looked at.
pub open spec fn visited(
    m: Map<Place, FileView>,
    action: InputAction,
    known: FileView,
) -> Map<Place, FileView> {
    if action == InputAction::Taken {
        m.insert(inputs::place_of(known), known)
    } else {
        m
    }
}

/// The list with its first file last.
pub open spec fn main_last(fs: Seq<FileView>) -> Seq<FileView> {
    if fs.len() == 0 {
        fs
    } else {
        fs.drop_first().push(fs[0])
    }
}

/// The inputs with the files of the build directory, unless the task compiles
/// or there are too many of them.
pub open spec fn blanketed(
    run: &Runner,
    compiles: bool,
    limit: usize,
    before: Map<Place, FileView>,
    after: Map<Place, FileView>,
) -> bool {
    if !compiles && run.build_dir_inputs@.len() <= limit {
        runner::with_every(run@.build_dir, before, after)
    } else {
        after == before
    }
}

/// How many files of the build directory are given to every task where nothing
/// else is configured.
pub const IMPLICIT_INPUTS_LIMIT: usize = 512;

/// The limit on the files of the build directory that every task gets, given
/// what the environment says.
pub fn implicit_limit(setting: Option<&str>) -> (r: usize)
    ensures
        r == match views::opt_str(setting) {
            Some(s) => match text::parse_u64(s) {
                Some(n) => if n <= usize::MAX {
                    n as int
                } else {
                    IMPLICIT_INPUTS_LIMIT as int
                },
                None => IMPLICIT_INPUTS_LIMIT as int,
            },
            None => IMPLICIT_INPUTS_LIMIT as int,
        },
{
    match setting {
        Some(s) => {
            let c = text::chars_of(s);
            match text::read_u64(&c) {
                Some(n) => if n <= usize::MAX as u64 {
                    n as usize
                } else {
                    IMPLICIT_INPUTS_LIMIT
                },
                None => IMPLICIT_INPUTS_LIMIT,
            }
        },
        None => IMPLICIT_INPUTS_LIMIT,
    }
}

/// The distinct directories in which some files lie, in their order.
pub fn directories_of(paths: &Vec<String>) -> (r: Vec<String>)
    ensures
        views::texts(r@) == path::first_paths(
            views::texts(paths@).map_values(|p: Seq<char>| path::opened_parent(p)),
        ),
{
    let ghost want = views::texts(paths@).map_values(|p: Seq<char>| path::opened_parent(p));
    let mut v: Vec<String> = Vec::new();
    assert(views::texts(v@) =~= want.take(0));
    for i in 0..paths.len()
        invariant
            want == views::texts(paths@).map_values(|p: Seq<char>| path::opened_parent(p)),
            views::texts(v@) == want.take(i as int),
    {
        v.push(path::parent_dir_or_here(paths[i].as_str()));
        assert(want.take(i + 1) =~= want.take(i as int).push(
            path::opened_parent(paths@[i as int]@),
        ));
    }
    assert(want.take(want.len() as int) =~= want);
    path::dedup_paths(&v)
}

// ---------------------------------------------------------------------------
// The task
// ---------------------------------------------------------------------------

/// The response file of a task: the edge's own, or the one taken over.
pub open spec fn task_response(
    edge: Option<(String, String)>,
    taken: Option<ResponseFile>,
) -> Option<(Seq<char>, Seq<char>)> {
    match edge {
        Some((p, c)) => Some((p@, c@)),
        None => match taken {
            Some(r) => Some((r.path@, r.content@)),
            None => None,
        },
    }
}

/// The view of an optional response file.
pub open spec fn opt_file(o: Option<(String, String)>) -> Option<(Seq<char>, Seq<char>)> {
    match o {
        Some((p, c)) => Some((p@, c@)),
        None => None,
    }
}

/// A copy of an optional string.
pub fn dup_opt(o: &Option<String>) -> (r: Option<String>)
    ensures
        views::opt_text(r) == views::opt_text(*o),
{
    match o {
        Some(s) => Some(s.clone()),
        None => None,
    }
}

/// A copy of a list of pairs.
pub fn dup_pairs(v: &Vec<(String, String)>) -> (r: Vec<(String, String)>)
    ensures
        views::pairs(r@) == views::pairs(v@),
{
    let ghost all = views::pairs(v@);
    let mut out: Vec<(String, String)> = Vec::new();
    assert(views::pairs(out@) =~= all.take(0));
    for i in 0..v.len()
        invariant
            all == views::pairs(v@),
            views::pairs(out@) == all.take(i as int),
    {
        out.push((v[i].0.clone(), v[i].1.clone()));
        assert(all.take(i + 1) =~= all.take(i as int).push(all[i as int]));
    }
    assert(all.take(all.len() as int) =~= all);
    out
}

/// The list of strings with more behind it.
fn extended(v: &Vec<String>, more: &Vec<String>) -> (r: Vec<String>)
    ensures
        views::texts(r@) == views::texts(v@) + views::texts(more@),
{
    let ghost a = views::texts(v@);
    let ghost b = views::texts(more@);
    let mut out = derived::dup_strings(v);
    assert(views::texts(out@) =~= a + b.take(0));
    for i in 0..more.len()
        invariant
            b == views::texts(more@),
            views::texts(out@) == a + b.take(i as int),
    {
        out.push(more[i].clone());
        assert((a + b.take(i as int)).push(more@[i as int]@) =~= a + b.take(i + 1));
    }
    assert(b.take(b.len() as int) =~= b);
    out
}

/// The places that an edge writes: its outputs and its dependency file, as
/// far as they have a place under the build directory.
pub open spec fn own_places(build_dir: Seq<char>, edge: Edge) -> Seq<Seq<char>> {
    placeable(
        build_dir,
        written_names(runner::names(edge.outs@), views::opt_text(edge.depfile)),
    )
}

/// The task of an edge whose inputs are gathered. `cmdline` is the command
/// that it runs, `mentioned` are the store paths that this command mentions.
/// What the edge itself writes is no input of it, whatever led there.
pub fn new_task(
    run: &Runner,
    edge: &Edge,
    draft: &Draft,
    outputs: &Vec<String>,
    cmdline: Option<String>,
    mentioned: &Vec<String>,
) -> (t: Task)
    ensures
        t.system@ == run.config.system@,
        t.wrapper_vars@ == run.wrapper_vars@,
        views::texts(t.input_srcs@) == views::texts(run.wrapper_store_paths@) + views::texts(
            mentioned@,
        ),
        t.build_dir@ == run.config.build_dir@,
        t.store_dir@ == run.config.store_dir@,
        t.cmdline == cmdline,
        views::opt_text(t.desc) == views::opt_text(edge.desc),
        views::opt_text(t.deps) == views::opt_text(edge.deps),
        opt_file(t.rspfile) == task_response(edge.rspfile, draft.response),
        views::opt_text(t.depfile) == views::opt_text(edge.depfile),
        views::texts(t.out_names@) == runner::names(edge.outs@),
        inputs::lists(
            inputs::without_all(
                draft.inputs@,
                inputs::spellings(own_places(run.config.build_dir@, *edge)),
            ),
            derived::files(t.inputs@),
        ),
        forall|i: int, j: int|
            0 <= i < t.inputs@.len() && 0 <= j < own_places(run.config.build_dir@, *edge).len()
                ==> !path::same_path(
                (#[trigger] derived::files(t.inputs@)[i]).build_path,
                #[trigger] own_places(run.config.build_dir@, *edge)[j],
            ),
        views::texts(t.store_srcs@) == views::texts(draft.store_srcs@),
        views::texts(t.outputs@) == views::texts(outputs@),
        t.verbose == run.config.verbose,
        views::pairs(t.alias_symlinks@) == run.scan@.links,
        views::texts(t.empty_dirs@) == if draft.compiles {
            Seq::empty()
        } else {
            run.scan@.dirs
        },
{
    let rspfile = match &edge.rspfile {
        Some((p, c)) => Some((p.clone(), c.clone())),
        None => match &draft.response {
            Some(r) => Some((r.path.clone(), r.content.clone())),
            None => None,
        },
    };
    let empty_dirs = if draft.compiles {
        let e: Vec<String> = Vec::new();
        assert(views::texts(e@) =~= Seq::<Seq<char>>::empty());
        e
    } else {
        derived::dup_strings(&run.scan.empty_dirs)
    };
    let names = runner::names_of(&edge.outs);
    let own = own_outputs(run.config.build_dir.as_str(), &names, opt_as_str(&edge.depfile));
    let kept = draft.inputs.without(&own);
    let listed = kept.listing();
    proof {
        let places = own_places(run.config.build_dir@, *edge);
        inputs::cleared_once(draft.inputs@, inputs::spellings(places));
        inputs::own_outputs_are_not_listed(kept@, places, derived::files(listed@));
    }
    Task {
        system: run.config.system.clone(),
        wrapper_vars: run.wrapper_vars.dup(),
        input_srcs: extended(&run.wrapper_store_paths, mentioned),
        build_dir: run.config.build_dir.clone(),
        store_dir: run.config.store_dir.clone(),
        cmdline,
        desc: dup_opt(&edge.desc),
        deps: dup_opt(&edge.deps),
        rspfile,
        depfile: dup_opt(&edge.depfile),
        out_names: names,
        inputs: listed,
        store_srcs: derived::dup_strings(&draft.store_srcs),
        outputs: derived::dup_strings(outputs),
        verbose: run.config.verbose,
        alias_symlinks: dup_pairs(&run.scan.alias_symlinks),
        empty_dirs,
    }
}

// ---------------------------------------------------------------------------
// What a task is asked
// ---------------------------------------------------------------------------

/// A file that a preprocessor made of Fortran source.
pub open spec fn is_preprocessed(p: Seq<char>) -> bool {
    path::file_name(p) matches Some(n) && text::has(n, "-pp."@)
}

/// Some input was made of Fortran source by a preprocessor.
pub open spec fn any_preprocessed(fs: Seq<FileView>) -> bool {
    exists|i: int| 0 <= i < fs.len() && is_preprocessed((#[trigger] fs[i]).build_path)
}

/// Whether some input was made of Fortran source by a preprocessor: which
/// modules it uses is known only once it is built.
pub fn consumes_preprocessed_fortran(inputs: &Vec<DerivedFile>) -> (r: bool)
    ensures
        r == any_preprocessed(derived::files(inputs@)),
{
    let ghost all = derived::files(inputs@);
    for i in 0..inputs.len()
        invariant
            all == derived::files(inputs@),
            forall|j: int| 0 <= j < i ==> !is_preprocessed((#[trigger] all[j]).build_path),
    {
        assert(all[i as int] == inputs@[i as int]@);
        let c = text::chars_of(inputs[i].build_path.as_str());
        if let Some(n) = path::name_of(&c) {
            if text::contains_lit(&n, "-pp.") {
                assert(is_preprocessed(all[i as int].build_path));
                return true;
            }
        }
    }
    false
}

/// The command asks a compiler to compile.
pub open spec fn compiles(cmdline: Option<Seq<char>>) -> bool {
    match cmdline {
        Some(c) => match outside::shell_split(c) {
            Some(args) => command::args_compile(args),
            None => false,
        },
        None => false,
    }
}

/// The task's dependencies have to be discovered: it compiles, or does not
/// only link, and says how it reports them; or it reads preprocessed Fortran.
pub open spec fn wants_discovery(
    outputs: Seq<Seq<char>>,
    cmdline: Option<Seq<char>>,
    deps: Option<Seq<char>>,
    depfile: Option<Seq<char>>,
    inputs: Seq<FileView>,
) -> bool {
    ((!shapes::all_links(outputs) || compiles(cmdline)) && (deps == Some("gcc"@) || depfile is Some))
        || any_preprocessed(inputs)
}

fn opt_as_str(o: &Option<String>) -> (r: Option<&str>)
    ensures
        views::opt_str(r) == views::opt_text(*o),
{
    match o {
        Some(s) => Some(s.as_str()),
        None => None,
    }
}

/// Whether the task's dependencies have to be discovered.
pub fn wants_dependency_discovery(t: &Task) -> (r: bool)
    ensures
        r == wants_discovery(
            views::texts(t.outputs@),
            views::opt_text(t.cmdline),
            views::opt_text(t.deps),
            views::opt_text(t.depfile),
            derived::files(t.inputs@),
        ),
{
    let gcc = match &t.deps {
        Some(d) => text::same_str(d.as_str(), "gcc"),
        None => false,
    };
    ((!shapes::link_shaped_outputs(&t.outputs) || command::command_is_compile(
        opt_as_str(&t.cmdline),
    )) && (gcc || t.depfile.is_some())) || consumes_preprocessed_fortran(&t.inputs)
}

/// The dependency file that the task declares as an output.
pub open spec fn depfile_of(t: Task) -> Option<Seq<char>> {
    command::accepted_depfile(
        views::opt_text(t.depfile),
        views::opt_text(t.deps),
        views::opt_text(t.cmdline),
        match t.rspfile {
            Some((p, c)) => Some(c@),
            None => None,
        },
    )
}

/// The dependency file that the task declares as an output.
pub fn accepted_depfile_output(t: &Task) -> (r: Option<String>)
    ensures
        views::opt_text(r) == depfile_of(*t),
{
    let content = match &t.rspfile {
        Some((_, c)) => Some(c.as_str()),
        None => None,
    };
    command::accepted_depfile_output_of(
        opt_as_str(&t.depfile),
        opt_as_str(&t.deps),
        opt_as_str(&t.cmdline),
        content,
    )
}

/// The inputs that only exist once another derivation is built.
pub open spec fn built_among(fs: Seq<FileView>) -> Seq<FileView>
    decreases fs.len(),
{
    if fs.len() == 0 {
        Seq::empty()
    } else if !derived::is_opaque(fs.last()) {
        built_among(fs.drop_last()).push(fs.last())
    } else {
        built_among(fs.drop_last())
    }
}

/// The inputs that only exist once another derivation is built, where the
/// task's dependencies have to be discovered from them.
pub fn inputs_to_realise(t: &Task) -> (r: Vec<DerivedFile>)
    ensures
        derived::files(r@) == if wants_discovery(
            views::texts(t.outputs@),
            views::opt_text(t.cmdline),
            views::opt_text(t.deps),
            views::opt_text(t.depfile),
            derived::files(t.inputs@),
        ) {
            built_among(derived::files(t.inputs@))
        } else {
            Seq::empty()
        },
{
    let mut out: Vec<DerivedFile> = Vec::new();
    let ghost all = derived::files(t.inputs@);
    assert(derived::files(out@) =~= Seq::<FileView>::empty());
    if !wants_dependency_discovery(t) {
        return out;
    }
    assert(all.take(0) =~= Seq::<FileView>::empty());
    for i in 0..t.inputs.len()
        invariant
            all == derived::files(t.inputs@),
            derived::files(out@) == built_among(all.take(i as int)),
    {
        assert(all.take(i + 1).drop_last() =~= all.take(i as int));
        assert(all.take(i + 1).last() == t.inputs@[i as int]@);
        if !t.inputs[i].derived_path.is_opaque() {
            out.push(t.inputs[i].dup());
        }
    }
    assert(all.take(all.len() as int) =~= all);
    out
}

// ---------------------------------------------------------------------------
// What a task leaves behind
// ---------------------------------------------------------------------------

/// The result of an edge.
#[derive(Debug)]
pub struct BuildResult {
    /// The edge.
    pub bid: usize,
    /// What it is called in messages: its first output.
    pub label: String,
    /// The derivation that builds it.
    pub derived_path: Option<DerivedPath>,
    /// What it produces.
    pub derived_files: Vec<DerivedFile>,
    /// Why it failed.
    pub err: Option<String>,
}

/// A result with what is collected besides.
#[derive(Debug)]
pub struct Finished {
    pub result: BuildResult,
    /// The dependency file that the derivation writes.
    pub depfile: Option<DerivedFile>,
    /// The log that the derivation writes.
    pub verbose_log: Option<DerivedFile>,
}

/// The view of an optional file.
pub open spec fn opt_file_view(o: Option<DerivedFile>) -> Option<FileView> {
    match o {
        Some(f) => Some(f@),
        None => None,
    }
}

/// The view of an optional derived path.
pub open spec fn opt_path_view(o: Option<DerivedPath>) -> Option<derived::PathView> {
    match o {
        Some(p) => Some(p@),
        None => None,
    }
}

/// Those of some paths that a list does not have under any spelling.
pub open spec fn not_listed(more: Seq<Seq<char>>, ps: Seq<Seq<char>>) -> Seq<Seq<char>>
    decreases more.len(),
{
    if more.len() == 0 {
        Seq::empty()
    } else if path::listed(ps, more.last()) {
        not_listed(more.drop_last(), ps)
    } else {
        not_listed(more.drop_last(), ps).push(more.last())
    }
}

/// The files that the derivation produces at some paths.
pub open spec fn files_built_at(drv: derived::PathView, ps: Seq<Seq<char>>) -> Seq<FileView> {
    ps.map_values(|p: Seq<char>| derived::built_file(drv, p))
}

/// The build paths of files.
pub open spec fn build_paths(fs: Seq<FileView>) -> Seq<Seq<char>> {
    fs.map_values(|f: FileView| f.build_path)
}

/// What a task produces: its outputs, and what its command writes besides.
pub open spec fn produced(
    t: Task,
    drv: derived::PathView,
    undeclared: Seq<Seq<char>>,
) -> Seq<FileView> {
    let outs = derived::built_files(t.build_dir@, views::texts(t.out_names@), drv);
    outs + files_built_at(drv, not_listed(undeclared, build_paths(outs)))
}

/// The name of an edge in messages.
pub open spec fn label_of(names: Seq<Seq<char>>, fallback: Seq<char>) -> Seq<char> {
    if names.len() > 0 {
        names[0]
    } else {
        fallback
    }
}

/// The result says which of the task's outputs is the first without a place.
pub open spec fn fails_for_place(t: Task, r: BuildResult) -> bool {
    exists|name: Seq<char>| #[trigger]
        derived::first_misplaced(t.build_dir@, views::texts(t.out_names@), name)
            && views::opt_text(r.err) == Some(
            derived::misplaced_text(r.label@, name, t.build_dir@),
        )
}

/// The name of an edge in messages: its first output.
pub fn edge_label(names: &Vec<String>, fallback: &str) -> (r: String)
    ensures
        r@ == label_of(views::texts(names@), fallback@),
{
    if names.len() > 0 {
        assert(views::texts(names@)[0] == names@[0]@);
        names[0].clone()
    } else {
        let c = text::chars_of(fallback);
        text::string_of(&c)
    }
}

/// The declared outputs of a task as files of its derivation.
pub fn declared_files(t: &Task, drv: &DerivedPath, label: &str) -> (r: Result<
    Vec<DerivedFile>,
    MisplacedOutput,
>)
    ensures
        match r {
            Ok(v) => derived::all_placed(t.build_dir@, views::texts(t.out_names@))
                && derived::files(v@) == derived::built_files(
                t.build_dir@,
                views::texts(t.out_names@),
                drv@,
            ),
            Err(e) => !derived::all_placed(t.build_dir@, views::texts(t.out_names@)) && e.label@
                == label@ && e.cause.build_dir@ == t.build_dir@ && derived::first_misplaced(
                t.build_dir@,
                views::texts(t.out_names@),
                e.name@,
            ),
        },
{
    derived::normalized_task_outputs(t.build_dir.as_str(), &t.out_names, drv, label)
}

/// What a task leaves behind, given the derivation that builds it or why there
/// is none. A declared output without a place fails the task as a whole:
/// nothing is then said to be produced. `meta` is the text of the library
/// description that the command names, where it names one.
pub fn finish(
    t: &Task,
    bid: usize,
    fallback: &str,
    outcome: Result<DerivedPath, String>,
    is_output_derivation: bool,
    meta: Option<&str>,
) -> (r: Finished)
    ensures
        r.result.bid == bid,
        r.result.label@ == label_of(views::texts(t.out_names@), fallback@),
        match outcome {
            Ok(drv) => {
                let placed = derived::all_placed(t.build_dir@, views::texts(t.out_names@));
                &&& (r.result.err is None <==> placed)
                &&& placed ==> opt_path_view(r.result.derived_path) == Some(drv@)
                    && derived::files(r.result.derived_files@) == produced(
                    *t,
                    drv@,
                    outputs::undeclared(
                        build_paths(
                            derived::built_files(t.build_dir@, views::texts(t.out_names@), drv@),
                        ),
                        views::opt_text(t.cmdline),
                        t.build_dir@,
                        views::opt_str(meta),
                    ),
                )
                &&& !placed ==> r.result.derived_path is None
                    && r.result.derived_files@.len() == 0 && fails_for_place(*t, r.result)
                &&& opt_file_view(r.depfile) == match depfile_of(*t) {
                    Some(d) => if is_output_derivation {
                        None
                    } else {
                        Some(derived::built_file(drv@, d))
                    },
                    None => None,
                }
                &&& opt_file_view(r.verbose_log) == if t.verbose && placed {
                    Some(derived::built_file(drv@, outputs::log_path(views::texts(t.outputs@))))
                } else {
                    None
                }
            },
            Err(e) => {
                &&& r.result.err == Some(e)
                &&& r.result.derived_path is None
                &&& r.result.derived_files@.len() == 0
                &&& r.depfile is None
                &&& r.verbose_log is None
            },
        },
{
    let label = edge_label(&t.out_names, fallback);
    let drv = match outcome {
        Ok(drv) => drv,
        Err(e) => {
            return Finished {
                result: BuildResult {
                    bid,
                    label,
                    derived_path: None,
                    derived_files: Vec::new(),
                    err: Some(e),
                },
                depfile: None,
                verbose_log: None,
            };
        },
    };
    let depfile = match accepted_depfile_output(t) {
        Some(d) => if is_output_derivation {
            None
        } else {
            Some(derived::new_built_file(&drv, d.as_str()))
        },
        None => None,
    };
    let mut files = match declared_files(t, &drv, label.as_str()) {
        Ok(v) => v,
        Err(e) => {
            let ghost name = e.name@;
            assert(derived::first_misplaced(t.build_dir@, views::texts(t.out_names@), name));
            return Finished {
                result: BuildResult {
                    bid,
                    label,
                    derived_path: None,
                    derived_files: Vec::new(),
                    err: Some(e.message()),
                },
                depfile,
                verbose_log: None,
            };
        },
    };
    let ghost outs = derived::files(files@);
    let paths = paths_of(&files);
    let more = outputs::undeclared_outputs(
        &paths,
        opt_as_str(&t.cmdline),
        t.build_dir.as_str(),
        meta,
    );
    let ghost all = views::texts(more@);
    let ghost ps = views::texts(paths@);
    assert(derived::files(files@) =~= outs + files_built_at(drv@, not_listed(all.take(0), ps)));
    for i in 0..more.len()
        invariant
            all == views::texts(more@),
            ps == views::texts(paths@),
            derived::files(files@) == outs + files_built_at(
                drv@,
                not_listed(all.take(i as int), ps),
            ),
    {
        proof {
            assert(all.take(i + 1).drop_last() =~= all.take(i as int));
            assert(all.take(i + 1).last() == more@[i as int]@);
        }
        if !path::in_list(&paths, more[i].as_str()) {
            let ghost front = not_listed(all.take(i as int), ps);
            files.push(derived::new_built_file(&drv, more[i].as_str()));
            assert((outs + files_built_at(drv@, front)).push(
                derived::built_file(drv@, more@[i as int]@),
            ) =~= outs + files_built_at(drv@, front.push(more@[i as int]@)));
        }
    }
    assert(all.take(all.len() as int) =~= all);
    let verbose_log = if t.verbose {
        Some(derived::new_built_file(&drv, outputs::verbose_log_path(&t.outputs).as_str()))
    } else {
        None
    };
    Finished {
        result: BuildResult {
            bid,
            label,
            derived_path: Some(drv),
            derived_files: files,
            err: None,
        },
        depfile,
        verbose_log,
    }
}

/// What tasks leave besides their outputs, until it is asked for.
#[derive(Debug)]
pub struct Collected {
    pub depfiles: Vec<DerivedFile>,
    pub verbose_logs: Vec<DerivedFile>,
}

/// The list with a file more, where there is one.
pub open spec fn with_file(fs: Seq<FileView>, f: Option<DerivedFile>) -> Seq<FileView> {
    match f {
        Some(f) => fs.push(f@),
        None => fs,
    }
}

impl Collected {
    /// Nothing yet.
    pub fn new() -> (r: Collected)
        ensures
            r.depfiles@.len() == 0,
            r.verbose_logs@.len() == 0,
    {
        Collected { depfiles: Vec::new(), verbose_logs: Vec::new() }
    }

    /// Keeps what a finished task leaves besides its outputs, and hands its
    /// result on.
    pub fn take_in(&mut self, done: Finished) -> (r: BuildResult)
        ensures
            r == done.result,
            derived::files(final(self).depfiles@) == with_file(
                derived::files(old(self).depfiles@),
                done.depfile,
            ),
            derived::files(final(self).verbose_logs@) == with_file(
                derived::files(old(self).verbose_logs@),
                done.verbose_log,
            ),
    {
        if let Some(f) = done.depfile {
            self.depfiles.push(f);
        }
        if let Some(f) = done.verbose_log {
            self.verbose_logs.push(f);
        }
        done.result
    }

    /// The dependency files so far. They are handed out once.
    pub fn take_collected_depfiles(&mut self) -> (r: Vec<DerivedFile>)
        ensures
            r == old(self).depfiles,
            final(self).depfiles@.len() == 0,
            final(self).verbose_logs == old(self).verbose_logs,
    {
        let mut out: Vec<DerivedFile> = Vec::new();
        std::mem::swap(&mut out, &mut self.depfiles);
        out
    }

    /// The logs so far. They are handed out once.
    pub fn take_collected_verbose_logs(&mut self) -> (r: Vec<DerivedFile>)
        ensures
            r == old(self).verbose_logs,
            final(self).verbose_logs@.len() == 0,
            final(self).depfiles == old(self).depfiles,
    {
        let mut out: Vec<DerivedFile> = Vec::new();
        std::mem::swap(&mut out, &mut self.verbose_logs);
        out
    }
}

/// The build paths of files.
pub fn paths_of(fs: &Vec<DerivedFile>) -> (r: Vec<String>)
    ensures
        views::texts(r@) == build_paths(derived::files(fs@)),
{
    let ghost want = build_paths(derived::files(fs@));
    let mut out: Vec<String> = Vec::new();
    assert(views::texts(out@) =~= want.take(0));
    for i in 0..fs.len()
        invariant
            want == build_paths(derived::files(fs@)),
            views::texts(out@) == want.take(i as int),
    {
        out.push(fs[i].build_path.clone());
        assert(want.take(i + 1) =~= want.take(i as int).push(fs@[i as int]@.build_path));
    }
    assert(want.take(want.len() as int) =~= want);
    out
}

// ---------------------------------------------------------------------------
// Laws
// ---------------------------------------------------------------------------

/// A compilation that meets a node through an alias takes it only as a header
/// or a tree; a node that it names itself is never passed over.
pub proof fn named_inputs_are_kept(
    compiles: bool,
    name: Seq<char>,
    known: bool,
    is_file: bool,
    store_dir: Seq<char>,
)
    ensures
        input_action(compiles, false, name, known, is_file, store_dir) != InputAction::Skip,
        compiles && input_action(compiles, true, name, known, is_file, store_dir)
            != InputAction::Skip ==> shapes::is_header(name) || shapes::is_tree(name),
{
}

/// A file that is known at a node is taken whether or not anything lies on disk
/// there: it stands at its place afterwards, and nothing else has changed. Only
/// a compilation passes such a node over, where something led to it and it is
/// neither a header nor a tree.
pub proof fn known_files_are_taken(
    compiles: bool,
    led: bool,
    name: Seq<char>,
    is_file: bool,
    store_dir: Seq<char>,
    before: Map<Place, FileView>,
    known: FileView,
)
    requires
        !led || !compiles || shapes::is_header(name) || shapes::is_tree(name),
    ensures
        ({
            let action = input_action(compiles, led, name, true, is_file, store_dir);
            let after = visited(before, action, known);
            &&& action == InputAction::Taken
            &&& after.contains_key(path::comps(known.build_path))
            &&& after[path::comps(known.build_path)] == known
            &&& forall|p: Place|
                p != path::comps(known.build_path) ==> (#[trigger] after.contains_key(p)
                    <==> before.contains_key(p)) && after[p] == before[p]
        }),
{
}

/// What is on disk decides nothing where a file is known, and nothing where the
/// edge itself names the node.
pub proof fn disk_decides_for_unknown_nodes_alone(
    compiles: bool,
    led: bool,
    name: Seq<char>,
    known: bool,
    store_dir: Seq<char>,
)
    requires
        known || !led,
    ensures
        input_action(compiles, led, name, known, true, store_dir) == input_action(
            compiles,
            led,
            name,
            known,
            false,
            store_dir,
        ),
{
}

/// A node at which nothing is known is a source of the store where its name
/// begins as the store's does, and is uploaded otherwise; but where something
/// else led to it, only a file counts.
pub proof fn unknown_nodes_are_looked_for(
    compiles: bool,
    led: bool,
    name: Seq<char>,
    is_file: bool,
    store_dir: Seq<char>,
    before: Map<Place, FileView>,
    known: FileView,
)
    requires
        !led || !compiles || shapes::is_header(name) || shapes::is_tree(name),
    ensures
        ({
            let action = input_action(compiles, led, name, false, is_file, store_dir);
            &&& visited(before, action, known) == before
            &&& action == InputAction::Skip <==> led && !is_file
            &&& action == InputAction::StoreSource <==> (!led || is_file) && name.len()
                >= store_dir.len() && name.take(store_dir.len() as int) == store_dir
            &&& action == InputAction::Taken <==> false
        }),
{
    if store_dir.is_prefix_of(name) {
        assert(name.take(store_dir.len() as int) =~= store_dir);
    } else if name.len() >= store_dir.len() {
        assert(name.take(store_dir.len() as int) =~= name.subrange(0, store_dir.len() as int));
    }
}

/// A compilation leaves what an alias leads it to, unless that is a header or a
/// tree: whatever is known there, and whatever lies there.
pub proof fn compilations_find_their_own_inputs(
    name: Seq<char>,
    known: bool,
    is_file: bool,
    store_dir: Seq<char>,
)
    requires
        !shapes::is_header(name),
        !shapes::is_tree(name),
    ensures
        input_action(true, true, name, known, is_file, store_dir) == InputAction::Skip,
{
}

/// A declared input stands at its place whatever it refers to; what it refers to
/// is taken with it.
pub proof fn the_declared_input_stands(
    m: Map<Place, FileView>,
    uploaded: Seq<FileView>,
    i: int,
)
    requires
        0 <= i < uploaded.len(),
    ensures
        ({
            let after = inputs::with_all(m, main_last(uploaded));
            &&& after.contains_key(path::comps(uploaded[0].build_path))
            &&& after[path::comps(uploaded[0].build_path)] == uploaded[0]
            &&& after.contains_key(path::comps(uploaded[i].build_path))
        }),
{
    let fs = main_last(uploaded);
    assert(fs.last() == uploaded[0]);
    let j: int = if i == 0 {
        fs.len() - 1
    } else {
        i - 1
    };
    assert(fs[j] == uploaded[i]);
    inputs::put_files_stay(m, fs, j);
}

/// What an edge writes is told in order, name for name: each name that has a
/// place, as it is seen from the build directory, and no other.
pub proof fn placed_names_are_written(
    build_dir: Seq<char>,
    a: Seq<Seq<char>>,
    n: Seq<char>,
    b: Seq<Seq<char>>,
)
    ensures
        placeable(build_dir, a + b) == placeable(build_dir, a) + placeable(build_dir, b),
        placeable(build_dir, seq![n]) == match path::normalized(build_dir, n) {
            Some(p) => seq![p],
            None => Seq::<Seq<char>>::empty(),
        },
    decreases b.len(),
{
    reveal_with_fuel(placeable, 2);
    assert(seq![n].drop_last() =~= Seq::<Seq<char>>::empty());
    assert(placeable(build_dir, seq![n]) =~= match path::normalized(build_dir, n) {
        Some(p) => seq![p],
        None => Seq::<Seq<char>>::empty(),
    });
    if b.len() == 0 {
        assert(a + b =~= a);
        assert(placeable(build_dir, a) + placeable(build_dir, b) =~= placeable(build_dir, a));
    } else {
        placed_names_are_written(build_dir, a, n, b.drop_last());
        assert((a + b).drop_last() =~= a + b.drop_last());
        assert((a + b).last() == b.last());
        assert(placeable(build_dir, a + b) =~= placeable(build_dir, a) + placeable(build_dir, b));
    }
}

/// An edge writes its outputs, and its dependency file where it has one: each
/// with a place is among what it writes.
pub proof fn outputs_and_dependency_file_are_written(
    build_dir: Seq<char>,
    names: Seq<Seq<char>>,
    depfile: Option<Seq<char>>,
)
    ensures
        ({
            let written = placeable(build_dir, written_names(names, depfile));
            &&& written.len() <= names.len() + 1
            &&& forall|i: int|
                0 <= i < names.len() && path::normalized(build_dir, #[trigger] names[i]) is Some
                    ==> written.contains(path::normalized(build_dir, names[i])->0)
            &&& depfile is Some && path::normalized(build_dir, depfile->0) is Some
                ==> written.contains(path::normalized(build_dir, depfile->0)->0)
            &&& forall|p: Seq<char>| #[trigger]
                written.contains(p) ==> (depfile matches Some(d) && path::normalized(build_dir, d)
                    == Some(p)) || exists|i: int|
                    0 <= i < names.len() && path::normalized(build_dir, #[trigger] names[i])
                        == Some(p)
        }),
{
    let all = written_names(names, depfile);
    placeable_holds(build_dir, all);
    assert forall|i: int|
        0 <= i < names.len() && path::normalized(
            build_dir,
            #[trigger] names[i],
        ) is Some implies placeable(build_dir, all).contains(
        path::normalized(build_dir, names[i])->0,
    ) by {
        assert(all[i] == names[i]);
    }
    if depfile is Some {
        assert(all[names.len() as int] == depfile->0);
    }
    assert forall|p: Seq<char>| #[trigger] placeable(build_dir, all).contains(p) implies (
    depfile matches Some(d) && path::normalized(build_dir, d) == Some(p)) || exists|i: int|
        0 <= i < names.len() && path::normalized(build_dir, #[trigger] names[i]) == Some(p) by {
        let i = choose|i: int|
            0 <= i < all.len() && path::normalized(build_dir, #[trigger] all[i]) == Some(p);
        if i < names.len() {
            assert(all[i] == names[i]);
        }
    }
}

proof fn placeable_holds(build_dir: Seq<char>, names: Seq<Seq<char>>)
    ensures
        placeable(build_dir, names).len() <= names.len(),
        forall|i: int|
            0 <= i < names.len() && path::normalized(build_dir, #[trigger] names[i]) is Some
                ==> placeable(build_dir, names).contains(path::normalized(build_dir, names[i])->0),
        forall|p: Seq<char>| #[trigger]
            placeable(build_dir, names).contains(p) ==> exists|i: int|
                0 <= i < names.len() && path::normalized(build_dir, #[trigger] names[i]) == Some(p),
    decreases names.len(),
{
    if names.len() > 0 {
        let front = names.drop_last();
        placeable_holds(build_dir, front);
        let a = placeable(build_dir, front);
        let b = placeable(build_dir, names);
        assert forall|i: int|
            0 <= i < names.len() && path::normalized(
                build_dir,
                #[trigger] names[i],
            ) is Some implies b.contains(path::normalized(build_dir, names[i])->0) by {
            if i < front.len() {
                assert(front[i] == names[i]);
                let k = choose|k: int|
                    0 <= k < a.len() && a[k] == path::normalized(build_dir, names[i])->0;
                assert(b[k] == a[k]);
            } else {
                assert(b[a.len() as int] == path::normalized(build_dir, names[i])->0);
            }
        }
        assert forall|p: Seq<char>| #[trigger] b.contains(p) implies exists|i: int|
            0 <= i < names.len() && path::normalized(build_dir, #[trigger] names[i]) == Some(
                p,
            ) by {
            let k = choose|k: int| 0 <= k < b.len() && b[k] == p;
            if k < a.len() {
                assert(a.contains(a[k]));
                let i = choose|i: int|
                    0 <= i < front.len() && path::normalized(build_dir, #[trigger] front[i])
                        == Some(p);
                assert(names[i] == front[i]);
            } else {
                assert(path::normalized(build_dir, names[names.len() - 1]) == Some(p));
            }
        }
    }
}

/// The inputs that are to be realised are those that some derivation builds, all
/// of them and in their order.
pub proof fn built_inputs_are_realised(a: Seq<FileView>, f: FileView, b: Seq<FileView>)
    ensures
        built_among(a + b) == built_among(a) + built_among(b),
        built_among(seq![f]) == if f.derived_path.outputs.len() > 0 {
            seq![f]
        } else {
            Seq::<FileView>::empty()
        },
    decreases b.len(),
{
    reveal_with_fuel(built_among, 2);
    assert(seq![f].drop_last() =~= Seq::<FileView>::empty());
    assert(built_among(seq![f]) =~= if f.derived_path.outputs.len() > 0 {
        seq![f]
    } else {
        Seq::<FileView>::empty()
    });
    if b.len() == 0 {
        assert(a + b =~= a);
        assert(built_among(a) + built_among(b) =~= built_among(a));
    } else {
        built_inputs_are_realised(a, f, b.drop_last());
        assert((a + b).drop_last() =~= a + b.drop_last());
        assert((a + b).last() == b.last());
        assert(built_among(a + b) =~= built_among(a) + built_among(b));
    }
}

/// Dependencies are discovered by a task that reads preprocessed Fortran, and by
/// one that says how it reports them, by `gcc` or in a file, unless it only links.
pub proof fn reporting_tasks_are_discovered(
    outputs: Seq<Seq<char>>,
    cmdline: Option<Seq<char>>,
    deps: Option<Seq<char>>,
    depfile: Option<Seq<char>>,
    inputs: Seq<FileView>,
    i: int,
)
    ensures
        ({
            let w = wants_discovery(outputs, cmdline, deps, depfile, inputs);
            let pp = exists|j: int|
                0 <= j < inputs.len() && is_preprocessed((#[trigger] inputs[j]).build_path);
            let reports = deps == Some("gcc"@) || depfile is Some;
            &&& 0 <= i < inputs.len() && (path::file_name(inputs[i].build_path) matches Some(n)
                && text::has(n, "-pp."@)) ==> w
            &&& reports && compiles(cmdline) ==> w
            &&& reports && !shapes::all_links(outputs) ==> w
            &&& !reports && !pp ==> !w
            &&& shapes::all_links(outputs) && !compiles(cmdline) && !pp ==> !w
        }),
{
    if 0 <= i < inputs.len() && is_preprocessed(inputs[i].build_path) {
        assert(any_preprocessed(inputs));
    }
}

/// A command compiles where the shell's words of it do; one that cannot be read,
/// and none at all, does not.
pub proof fn commands_are_read_as_words(c: Seq<char>)
    ensures
        compiles(None) == false,
        outside::shell_split(c) is None ==> !compiles(Some(c)),
        outside::shell_split(c) matches Some(args) ==> compiles(Some(c)) == command::args_compile(
            args,
        ),
{
}

/// A task produces its outputs first, each at its place, and then what its
/// command writes besides, unless that is one of its outputs.
pub proof fn everything_written_is_produced(
    t: Task,
    drv: derived::PathView,
    undeclared: Seq<Seq<char>>,
)
    requires
        derived::all_placed(t.build_dir@, views::texts(t.out_names@)),
    ensures
        ({
            let names = views::texts(t.out_names@);
            let fs = produced(t, drv, undeclared);
            &&& fs.len() >= names.len()
            &&& forall|i: int|
                0 <= i < names.len() ==> Some((#[trigger] fs[i]).build_path) == path::normalized(
                    t.build_dir@,
                    names[i],
                )
            &&& forall|i: int|
                0 <= i < fs.len() ==> (#[trigger] fs[i]).derived_path.store_path == drv.store_path
                    && fs[i].derived_path.outputs == drv.outputs.push(
                    shapes::store_name(fs[i].build_path),
                )
            &&& forall|k: int|
                0 <= k < undeclared.len() ==> exists|i: int|
                    0 <= i < fs.len() && path::comps((#[trigger] fs[i]).build_path) == path::comps(
                        #[trigger] undeclared[k],
                    )
            &&& forall|i: int|
                names.len() <= i < fs.len() ==> undeclared.contains((#[trigger] fs[i]).build_path)
        }),
{
    let names = views::texts(t.out_names@);
    let outs = derived::built_files(t.build_dir@, names, drv);
    let ps = build_paths(outs);
    let more = not_listed(undeclared, ps);
    let fs = produced(t, drv, undeclared);
    not_listed_holds(undeclared, ps);
    assert forall|i: int| 0 <= i < names.len() implies Some((#[trigger] fs[i]).build_path)
        == path::normalized(t.build_dir@, names[i]) by {
        assert(fs[i] == outs[i]);
        assert(path::normalized(t.build_dir@, names[i]) is Some);
    }
    assert forall|k: int| 0 <= k < undeclared.len() implies exists|i: int|
        0 <= i < fs.len() && path::comps((#[trigger] fs[i]).build_path) == path::comps(
            #[trigger] undeclared[k],
        ) by {
        if path::listed(ps, undeclared[k]) {
            let i = choose|i: int|
                0 <= i < ps.len() && path::same_path(#[trigger] ps[i], undeclared[k]);
            assert(fs[i] == outs[i]);
            assert(ps[i] == outs[i].build_path);
        } else {
            assert(more.contains(undeclared[k]));
            let j = choose|j: int| 0 <= j < more.len() && more[j] == undeclared[k];
            assert(fs[outs.len() + j] == derived::built_file(drv, more[j]));
        }
    }
    assert forall|i: int| names.len() <= i < fs.len() implies undeclared.contains(
        (#[trigger] fs[i]).build_path,
    ) by {
        let j = i - outs.len();
        assert(fs[i] == derived::built_file(drv, more[j]));
        assert(more.contains(more[j]));
    }
}

proof fn not_listed_holds(more: Seq<Seq<char>>, ps: Seq<Seq<char>>)
    ensures
        forall|p: Seq<char>| #[trigger]
            not_listed(more, ps).contains(p) <==> more.contains(p) && !path::listed(ps, p),
    decreases more.len(),
{
    if more.len() > 0 {
        let front = more.drop_last();
        not_listed_holds(front, ps);
        let a = not_listed(front, ps);
        let b = not_listed(more, ps);
        assert forall|p: Seq<char>| #[trigger] b.contains(p) <==> more.contains(p) && !path::listed(
            ps,
            p,
        ) by {
            if b.contains(p) {
                let k = choose|k: int| 0 <= k < b.len() && b[k] == p;
                if k < a.len() {
                    assert(a.contains(a[k]));
                    let j = choose|j: int| 0 <= j < front.len() && front[j] == p;
                    assert(more[j] == p);
                } else {
                    assert(more[more.len() - 1] == p);
                }
            }
            if more.contains(p) && !path::listed(ps, p) {
                let j = choose|j: int| 0 <= j < more.len() && more[j] == p;
                if j < front.len() {
                    assert(front[j] == p);
                    assert(a.contains(p));
                    let k = choose|k: int| 0 <= k < a.len() && a[k] == p;
                    assert(b[k] == p);
                } else {
                    assert(b[a.len() as int] == p);
                }
            }
        }
    }
}

} // verus!
