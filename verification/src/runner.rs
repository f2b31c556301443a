//! What is known of the build graph while edges run: which files exist, what
//! aliases stand for, and what comes with what.
use crate::builddir;
use crate::builddir::BuildDirScan;
use crate::builddir::EntryFacts;
use crate::command;
use crate::derived;
use crate::derived::DerivedFile;
use crate::derived::FileView;
use crate::graph;
use crate::graph::FileId;
use crate::inputs;
use crate::inputs::InputSet;
use crate::inputs::Place;
use crate::path;
use crate::rewrite;
use crate::seen;
use crate::shapes;
use crate::task;
use crate::task::BuildResult;
use crate::text;
use crate::vars::Vars;
use crate::views;
use std::collections::HashMap;
use vstd::prelude::*;

verus! {

broadcast use {
    vstd::std_specs::hash::group_hash_axioms,
    derived::files_push,
    views::texts_push,
};

/// What a run is configured with.
#[derive(Debug, Clone)]
pub struct RunnerConfig {
    /// The system that derivations are built for.
    pub system: String,
    /// The build directory.
    pub build_dir: String,
    /// The store directory.
    pub store_dir: String,
    /// The run itself is built as a derivation whose output is a derivation.
    pub is_output_derivation: bool,
    /// How many tasks may run at once.
    pub jobs: usize,
    /// The pools with their depths.
    pub pools: Vec<(String, usize)>,
    /// Tasks keep a log of what they do.
    pub verbose: bool,
}

/// An edge of the build graph.
#[derive(Debug, Clone)]
pub struct Edge {
    /// The files that it produces, with their names.
    pub outs: Vec<(FileId, String)>,
    /// All its inputs.
    pub ordering_ins: Vec<FileId>,
    /// The inputs whose change makes it run again, with their names.
    pub dirtying_ins: Vec<(FileId, String)>,
    /// Its command line; an alias has none.
    pub cmdline: Option<String>,
    /// What to show while it runs.
    pub desc: Option<String>,
    /// How its dependencies are discovered.
    pub deps: Option<String>,
    /// The file into which it writes its dependencies.
    pub depfile: Option<String>,
    /// Its response file, with the content.
    pub rspfile: Option<(String, String)>,
    /// Its pool.
    pub pool: Option<String>,
}

/// The identities in a list of named files.
pub open spec fn ids(v: Seq<(FileId, String)>) -> Seq<FileId> {
    v.map_values(|p: (FileId, String)| p.0)
}

/// The names in a list of named files.
pub open spec fn names(v: Seq<(FileId, String)>) -> Seq<Seq<char>> {
    v.map_values(|p: (FileId, String)| p.1@)
}

/// The identities in a list of named files.
pub fn ids_of(v: &Vec<(FileId, String)>) -> (r: Vec<FileId>)
    ensures
        r@ == ids(v@),
{
    let mut out: Vec<FileId> = Vec::new();
    for i in 0..v.len()
        invariant
            out@ == ids(v@).take(i as int),
    {
        out.push(v[i].0);
        assert(ids(v@).take(i + 1) =~= ids(v@).take(i as int).push(v@[i as int].0));
    }
    assert(ids(v@).take(v@.len() as int) =~= ids(v@));
    out
}

/// The names in a list of named files.
pub fn names_of(v: &Vec<(FileId, String)>) -> (r: Vec<String>)
    ensures
        views::texts(r@) == names(v@),
{
    let mut out: Vec<String> = Vec::new();
    assert(views::texts(out@) =~= names(v@).take(0));
    for i in 0..v.len()
        invariant
            views::texts(out@) == names(v@).take(i as int),
    {
        out.push(v[i].1.clone());
        assert(names(v@).take(i + 1) =~= names(v@).take(i as int).push(v@[i as int].1@));
    }
    assert(names(v@).take(v@.len() as int) =~= names(v@));
    out
}

/// A command that only marks that its inputs are there, or passes them on by
/// a list: who depends on its output needs the inputs as well.
pub open spec fn marks_inputs(cmdline: Seq<char>) -> bool {
    text::has(cmdline, "touch_file.py"@) || text::has(cmdline, "ts_library.py"@) || text::has(
        cmdline,
        "generate_grd.py"@,
    )
}

/// Whether a command only marks that its inputs are there, or passes them on by a list.
pub fn is_stamp_command(cmdline: &str) -> (r: bool)
    ensures
        r == marks_inputs(cmdline@),
{
    let c = text::chars_of(cmdline);
    text::contains_lit(&c, "touch_file.py") || text::contains_lit(&c, "ts_library.py")
        || text::contains_lit(&c, "generate_grd.py")
}

/// The library-shaped files among named files.
pub open spec fn libs_among(v: Seq<(FileId, String)>) -> Seq<FileId>
    decreases v.len(),
{
    if v.len() == 0 {
        Seq::empty()
    } else if shapes::is_lib(v.last().1@) {
        libs_among(v.drop_last()).push(v.last().0)
    } else {
        libs_among(v.drop_last())
    }
}

fn libraries(v: &Vec<(FileId, String)>) -> (r: Vec<FileId>)
    ensures
        r@ == libs_among(v@),
{
    let mut out: Vec<FileId> = Vec::new();
    assert(v@.take(0) =~= Seq::<(FileId, String)>::empty());
    for i in 0..v.len()
        invariant
            out@ == libs_among(v@.take(i as int)),
    {
        assert(v@.take(i + 1).drop_last() =~= v@.take(i as int));
        assert(v@.take(i + 1).last() == v@[i as int]);
        if shapes::lib_shaped(v[i].1.as_str()) {
            out.push(v[i].0);
        }
    }
    assert(v@.take(v@.len() as int) =~= v@);
    out
}

/// The map with one value at each of some nodes.
pub open spec fn set_each<V>(m: Map<FileId, V>, ks: Seq<FileId>, v: V) -> Map<FileId, V>
    decreases ks.len(),
{
    if ks.len() == 0 {
        m
    } else {
        set_each(m, ks.drop_last(), v).insert(ks.last(), v)
    }
}

fn put_each(m: &mut HashMap<FileId, Vec<FileId>>, ks: &Vec<FileId>, v: &Vec<FileId>)
    ensures
        graph::lists(final(m)@) == set_each(graph::lists(old(m)@), ks@, v@),
{
    let ghost before = graph::lists(m@);
    assert(ks@.take(0) =~= Seq::<FileId>::empty());
    for i in 0..ks.len()
        invariant
            graph::lists(m@) == set_each(before, ks@.take(i as int), v@),
    {
        assert(ks@.take(i + 1).drop_last() =~= ks@.take(i as int));
        assert(ks@.take(i + 1).last() == ks@[i as int]);
        let ghost now = m@;
        m.insert(ks[i], graph::dup_ids(v));
        assert(graph::lists(m@) =~= graph::lists(now).insert(ks@[i as int], v@));
    }
    assert(ks@.take(ks@.len() as int) =~= ks@);
}

/// The lists of files that a map holds.
pub open spec fn file_lists(m: Map<FileId, Vec<DerivedFile>>) -> Map<FileId, Seq<FileView>> {
    m.map_values(|v: Vec<DerivedFile>| derived::files(v@))
}

/// The list with those of some nodes that it lacks, in their order.
pub open spec fn with_ids(v: Seq<FileId>, more: Seq<FileId>) -> Seq<FileId>
    decreases more.len(),
{
    if more.len() == 0 {
        v
    } else {
        let front = with_ids(v, more.drop_last());
        if front.contains(more.last()) {
            front
        } else {
            front.push(more.last())
        }
    }
}

/// The list at a node, which is the node alone where there is none, with more.
pub open spec fn joined_at(
    m: Map<FileId, Seq<FileId>>,
    x: FileId,
    more: Seq<FileId>,
) -> Map<FileId, Seq<FileId>> {
    m.insert(
        x,
        with_ids(
            if m.contains_key(x) {
                m[x]
            } else {
                seq![x]
            },
            more,
        ),
    )
}

/// More nodes joined to each of some nodes.
pub open spec fn joined_each(
    m: Map<FileId, Seq<FileId>>,
    outs: Seq<FileId>,
    more: Seq<FileId>,
) -> Map<FileId, Seq<FileId>>
    decreases outs.len(),
{
    if outs.len() == 0 {
        m
    } else {
        joined_at(joined_each(m, outs.drop_last(), more), outs.last(), more)
    }
}

/// The files known at some nodes, in their order.
pub open spec fn known_at(derived: Map<FileId, FileView>, xs: Seq<FileId>) -> Seq<FileView>
    decreases xs.len(),
{
    if xs.len() == 0 {
        Seq::empty()
    } else if derived.contains_key(xs.last()) {
        known_at(derived, xs.drop_last()).push(derived[xs.last()])
    } else {
        known_at(derived, xs.drop_last())
    }
}

/// The edges that only join the outputs of one edge.
pub open spec fn joint_edges(co_outputs: Map<FileId, Seq<FileId>>) -> graph::Edges {
    graph::Edges { phony: Map::empty(), stamps: Map::empty(), co_outputs, libs: Map::empty() }
}

/// The inputs with the files at some nodes and at all that come with those.
pub open spec fn with_nodes(
    derived: Map<FileId, FileView>,
    co_outputs: Map<FileId, Seq<FileId>>,
    before: Map<Place, FileView>,
    start: Seq<FileId>,
    after: Map<Place, FileView>,
) -> bool {
    exists|visits: Seq<graph::Visit>| #[trigger]
        graph::expanded(joint_edges(co_outputs), true, start, visits) && after
            == inputs::with_all(before, known_at(derived, graph::nodes(visits)))
}

/// The inputs with all files of a map, in some order.
pub open spec fn with_every(
    files: Map<FileId, FileView>,
    before: Map<Place, FileView>,
    after: Map<Place, FileView>,
) -> bool {
    exists|fs: Seq<FileView>| #[trigger]
        inputs::with_all(before, fs) == after && every_file(files, fs)
}

/// The list holds the files of the map, and no other.
pub open spec fn every_file(files: Map<FileId, FileView>, fs: Seq<FileView>) -> bool {
    forall|f: FileView| #[trigger]
        fs.contains(f) <==> (exists|x: FileId| #[trigger] files.contains_key(x) && files[x] == f)
}

/// A list of a map's values holds the map's files.
proof fn every_shown(m: Map<FileId, DerivedFile>, vs: Seq<DerivedFile>)
    requires
        vs.to_set() == m.values(),
    ensures
        every_file(graph::file_map(m), derived::files(vs)),
{
    let fs = derived::files(vs);
    let files = graph::file_map(m);
    assert forall|f: FileView| #[trigger] fs.contains(f) <==> (exists|x: FileId| #[trigger]
        files.contains_key(x) && files[x] == f) by {
        if fs.contains(f) {
            let i = choose|i: int| 0 <= i < fs.len() && fs[i] == f;
            assert(vs.to_set().contains(vs[i]));
            assert(m.values().contains(vs[i]));
            let x = choose|x: FileId| m.contains_key(x) && m[x] == vs[i];
            assert(files.contains_key(x) && files[x] == f);
        }
        if exists|x: FileId| #[trigger] files.contains_key(x) && files[x] == f {
            let x = choose|x: FileId| #[trigger] files.contains_key(x) && files[x] == f;
            assert(m.contains_key(x));
            assert(m.values().contains(m[x]));
            assert(vs.to_set().contains(m[x]));
            let i = choose|i: int| 0 <= i < vs.len() && vs[i] == m[x];
            assert(fs[i] == f);
        }
    }
}

/// A walk that takes in what lies at nodes whose places are free.
#[verifier::ext_equal]
pub struct FreeWalk {
    pub work: Seq<FileId>,
    pub inputs: Map<Place, FileView>,
}

/// One step of the walk: the last node of the work is looked at. Where a file
/// is known there and its place is free, the file is taken and what comes with
/// the node is looked at as well.
pub open spec fn free_step(
    derived: Map<FileId, FileView>,
    co_outputs: Map<FileId, Seq<FileId>>,
    w: FreeWalk,
) -> FreeWalk {
    let x = w.work.last();
    let rest = w.work.drop_last();
    if derived.contains_key(x) && !w.inputs.contains_key(inputs::place_of(derived[x])) {
        FreeWalk {
            work: rest + graph::without(graph::list_at(co_outputs, x), x),
            inputs: w.inputs.insert(inputs::place_of(derived[x]), derived[x]),
        }
    } else {
        FreeWalk { work: rest, inputs: w.inputs }
    }
}

/// The walk after `n` steps.
pub open spec fn free_walk(
    derived: Map<FileId, FileView>,
    co_outputs: Map<FileId, Seq<FileId>>,
    w: FreeWalk,
    n: nat,
) -> FreeWalk
    decreases n,
{
    if n == 0 {
        w
    } else {
        free_step(derived, co_outputs, free_walk(derived, co_outputs, w, (n - 1) as nat))
    }
}

/// The inputs with what the walk from a node takes in.
pub open spec fn with_generated(
    derived: Map<FileId, FileView>,
    co_outputs: Map<FileId, Seq<FileId>>,
    before: Map<Place, FileView>,
    start: FileId,
    after: Map<Place, FileView>,
) -> bool {
    exists|n: nat| #[trigger]
        free_walk(derived, co_outputs, FreeWalk { work: seq![start], inputs: before }, n) == (
        FreeWalk { work: Seq::empty(), inputs: after })
}

/// The name under which a file is known in the graph: its build path, and for
/// a directory tree a name inside it, since an edge may have the tree's own
/// path as an alias.
pub open spec fn node_name(f: FileView) -> Seq<char> {
    if shapes::is_tree(f.build_path) {
        f.build_path + "/.nn-tree"@
    } else {
        f.build_path
    }
}

/// The name under which a file is known in the graph.
pub fn node_name_of(f: &DerivedFile) -> (r: String)
    ensures
        r@ == node_name(f@),
{
    if shapes::is_tree_path(f.build_path.as_str()) {
        let mut c = text::chars_of(f.build_path.as_str());
        text::append_str(&mut c, "/.nn-tree");
        text::string_of(&c)
    } else {
        f.build_path.clone()
    }
}

/// The absolute spelling, not yet canonical, under which the graph may know a
/// file that lies outside the build directory.
pub fn absolute_node_name(build_dir: &str, name: &str) -> (r: Option<String>)
    ensures
        match r {
            Some(s) => "../"@.is_prefix_of(name@) && s@ == build_dir@ + "/"@ + name@,
            None => !"../"@.is_prefix_of(name@),
        },
{
    let n = text::chars_of(name);
    if !text::starts_lit(&n, "../") {
        return None;
    }
    let mut c = text::chars_of(build_dir);
    text::append_str(&mut c, "/");
    text::append(&mut c, &n);
    Some(text::string_of(&c))
}

/// A variable of the environment as tasks get it: compiler flags without a
/// random seed, and stand-ins in the place of the real output paths.
pub open spec fn wrapper_setting(
    key: Seq<char>,
    value: Seq<char>,
    rewrite_map: Seq<(Seq<char>, Seq<char>)>,
) -> Seq<char> {
    rewrite::rewritten(
        if "NIX_CFLAGS_COMPILE"@.is_prefix_of(key) {
            text::join(command::unseeded(text::words(value)), " "@)
        } else {
            value
        },
        rewrite_map,
    )
}

/// The variables of the environment that tasks get.
pub open spec fn wrapper_settings(
    env: Seq<(Seq<char>, Seq<char>)>,
    rewrite_map: Seq<(Seq<char>, Seq<char>)>,
) -> Map<Seq<char>, Seq<char>>
    decreases env.len(),
{
    if env.len() == 0 {
        Map::empty()
    } else {
        let front = wrapper_settings(env.drop_last(), rewrite_map);
        let (key, value) = env.last();
        if command::is_forwarded(key) {
            front.insert(key, wrapper_setting(key, value, rewrite_map))
        } else {
            front
        }
    }
}

/// The variables of the environment that tasks get.
pub fn wrapper_variables(
    env: &Vec<(String, String)>,
    rewrite_map: &Vec<(String, String)>,
) -> (r: Vars)
    ensures
        r@ == wrapper_settings(views::pairs(env@), views::pairs(rewrite_map@)),
{
    let ghost all = views::pairs(env@);
    let ghost map = views::pairs(rewrite_map@);
    let mut out = Vars::new();
    assert(all.take(0) =~= Seq::<(Seq<char>, Seq<char>)>::empty());
    for i in 0..env.len()
        invariant
            all == views::pairs(env@),
            map == views::pairs(rewrite_map@),
            out@ == wrapper_settings(all.take(i as int), map),
    {
        proof {
            assert(all.take(i + 1).drop_last() =~= all.take(i as int));
            assert(all.take(i + 1).last() == all[i as int]);
        }
        let key = env[i].0.as_str();
        if command::forwarded_to_tasks(key) {
            let k = text::chars_of(key);
            let plain = if text::starts_lit(&k, "NIX_CFLAGS_COMPILE") {
                command::remove_frandom_seed(env[i].1.as_str())
            } else {
                env[i].1.clone()
            };
            let value = rewrite::rewrite_str(plain.as_str(), rewrite_map.as_slice());
            out.set(key, value.as_str());
        }
    }
    assert(all.take(all.len() as int) =~= all);
    out
}

/// What becomes of a file at a node: what was recorded first stands.
pub open spec fn recorded(
    m: Map<FileId, FileView>,
    fid: FileId,
    f: FileView,
) -> Map<FileId, FileView> {
    if m.contains_key(fid) {
        m
    } else {
        m.insert(fid, f)
    }
}

/// The state of a run.
pub struct Runner {
    pub config: RunnerConfig,
    /// The files that exist, by node.
    pub derived_files: HashMap<FileId, DerivedFile>,
    /// The files that lay in the build directory before the run.
    pub build_dir_inputs: HashMap<FileId, DerivedFile>,
    /// What aliases stand for.
    pub phony_aliases: HashMap<FileId, Vec<FileId>>,
    /// The inputs that stamps stand for.
    pub stamp_inputs: HashMap<FileId, Vec<FileId>>,
    /// The files that the commands behind stamps were given.
    pub stamp_input_files: HashMap<FileId, Vec<DerivedFile>>,
    /// The outputs of one edge, at each of them.
    pub co_outputs: HashMap<FileId, Vec<FileId>>,
    /// The libraries that an output was made from.
    pub runtime_lib_deps: HashMap<FileId, Vec<FileId>>,
    /// Links and empty directories of the build directory.
    pub scan: BuildDirScan,
    /// The variables that every task gets.
    pub wrapper_vars: Vars,
    /// The store paths that those variables mention.
    pub wrapper_store_paths: Vec<String>,
}

/// What a run knows.
#[verifier::ext_equal]
pub struct RunView {
    pub config: RunnerConfig,
    pub derived: Map<FileId, FileView>,
    pub build_dir: Map<FileId, FileView>,
    pub phony: Map<FileId, Seq<FileId>>,
    pub stamps: Map<FileId, Seq<FileId>>,
    pub stamp_files: Map<FileId, Seq<FileView>>,
    pub co_outputs: Map<FileId, Seq<FileId>>,
    pub libs: Map<FileId, Seq<FileId>>,
    pub scan: builddir::ScanView,
    pub vars: Map<Seq<char>, Seq<char>>,
    pub store_paths: Seq<Seq<char>>,
}

impl View for Runner {
    type V = RunView;

    open spec fn view(&self) -> RunView {
        RunView {
            config: self.config,
            derived: graph::file_map(self.derived_files@),
            build_dir: graph::file_map(self.build_dir_inputs@),
            phony: graph::lists(self.phony_aliases@),
            stamps: graph::lists(self.stamp_inputs@),
            stamp_files: file_lists(self.stamp_input_files@),
            co_outputs: graph::lists(self.co_outputs@),
            libs: graph::lists(self.runtime_lib_deps@),
            scan: self.scan@,
            vars: self.wrapper_vars@,
            store_paths: views::texts(self.wrapper_store_paths@),
        }
    }
}

/// A run that has not begun.
pub open spec fn fresh(
    config: RunnerConfig,
    vars: Map<Seq<char>, Seq<char>>,
    store_paths: Seq<Seq<char>>,
) -> RunView {
    RunView {
        config,
        derived: Map::empty(),
        build_dir: Map::empty(),
        phony: Map::empty(),
        stamps: Map::empty(),
        stamp_files: Map::empty(),
        co_outputs: Map::empty(),
        libs: Map::empty(),
        scan: builddir::ScanView { links: Seq::empty(), dirs: Seq::empty() },
        vars,
        store_paths,
    }
}

/// What a run knows once an edge has started. An alias stands for its inputs.
/// Of another edge, each output comes with the others; where the command only
/// marks its inputs, with those; and with the libraries that it was made from.
pub open spec fn started(s: RunView, e: Edge) -> RunView {
    match e.cmdline {
        None => RunView { phony: set_each(s.phony, ids(e.outs@), e.ordering_ins@), ..s },
        Some(c) => RunView {
            stamps: if marks_inputs(c@) {
                set_each(s.stamps, ids(e.outs@), ids(e.dirtying_ins@))
            } else {
                s.stamps
            },
            co_outputs: if e.outs@.len() > 1 {
                set_each(s.co_outputs, ids(e.outs@), ids(e.outs@))
            } else {
                s.co_outputs
            },
            libs: if libs_among(e.dirtying_ins@).len() > 0 {
                set_each(s.libs, ids(e.outs@), libs_among(e.dirtying_ins@))
            } else {
                s.libs
            },
            ..s
        },
    }
}

/// The files recorded at their nodes, one after the other.
pub open spec fn recorded_all(
    m: Map<FileId, FileView>,
    fids: Seq<FileId>,
    fs: Seq<FileView>,
) -> Map<FileId, FileView>
    decreases fs.len(),
{
    if fs.len() == 0 {
        m
    } else {
        recorded(
            recorded_all(m, fids, fs.drop_last()),
            fids[fs.len() - 1],
            fs.last(),
        )
    }
}

/// The nodes of those files that are directory trees, or of those that are not.
pub open spec fn nodes_of(fids: Seq<FileId>, fs: Seq<FileView>, trees: bool) -> Seq<FileId>
    decreases fs.len(),
{
    if fs.len() == 0 {
        Seq::empty()
    } else {
        let front = nodes_of(fids, fs.drop_last(), trees);
        if shapes::is_tree(fs.last().build_path) == trees {
            front.push(fids[fs.len() - 1])
        } else {
            front
        }
    }
}

/// The nodes with directory trees joined to each of some files.
pub open spec fn with_trees(
    m: Map<FileId, Seq<FileId>>,
    fids: Seq<FileId>,
    trees: Seq<FileId>,
) -> Map<FileId, Seq<FileId>> {
    if trees.len() > 0 {
        joined_each(m, fids, trees)
    } else {
        m
    }
}

/// What a run knows once an edge has produced files at nodes: the files exist,
/// and the directory trees among them come with every file.
pub open spec fn settled(s: RunView, fids: Seq<FileId>, fs: Seq<FileView>) -> RunView {
    RunView {
        derived: recorded_all(s.derived, fids, fs),
        co_outputs: with_trees(
            s.co_outputs,
            nodes_of(fids, fs, false),
            nodes_of(fids, fs, true),
        ),
        ..s
    }
}

/// An entry of the build directory.
#[derive(Debug)]
pub struct DirEntry {
    pub path: String,
    pub facts: EntryFacts,
    /// It is a directory without entries.
    pub empty_dir: bool,
    /// An edge of the build produces the file at its place.
    pub produced: bool,
}

/// The scan after entries.
pub open spec fn scanned_all(
    s: builddir::ScanView,
    build_dir: Seq<char>,
    own_files: Seq<Seq<char>>,
    es: Seq<DirEntry>,
) -> builddir::ScanView
    decreases es.len(),
{
    if es.len() == 0 {
        s
    } else {
        let e = es.last();
        builddir::scanned(
            scanned_all(s, build_dir, own_files, es.drop_last()),
            build_dir,
            e.path@,
            builddir::disposition_of(build_dir, e.path@, own_files, e.facts),
            e.empty_dir,
        )
    }
}

/// The entries whose bytes are uploaded.
pub open spec fn uploads_among(
    build_dir: Seq<char>,
    own_files: Seq<Seq<char>>,
    es: Seq<DirEntry>,
) -> Seq<Seq<char>>
    decreases es.len(),
{
    if es.len() == 0 {
        Seq::empty()
    } else {
        let e = es.last();
        let front = uploads_among(build_dir, own_files, es.drop_last());
        if builddir::uploads(
            builddir::disposition_of(build_dir, e.path@, own_files, e.facts),
            e.produced,
        ) {
            front.push(e.path@)
        } else {
            front
        }
    }
}

impl Runner {
    /// A run that has not begun.
    pub fn new(
        config: RunnerConfig,
        wrapper_vars: Vars,
        wrapper_store_paths: Vec<String>,
    ) -> (r: Runner)
        ensures
            r@ == fresh(config, wrapper_vars@, views::texts(wrapper_store_paths@)),
    {
        let r = Runner {
            config,
            derived_files: HashMap::new(),
            build_dir_inputs: HashMap::new(),
            phony_aliases: HashMap::new(),
            stamp_inputs: HashMap::new(),
            stamp_input_files: HashMap::new(),
            co_outputs: HashMap::new(),
            runtime_lib_deps: HashMap::new(),
            scan: BuildDirScan::new(),
            wrapper_vars,
            wrapper_store_paths,
        };
        assert(r@ =~= fresh(config, wrapper_vars@, views::texts(wrapper_store_paths@)));
        r
    }

    /// Starts an edge: records what it says of the graph. An alias is done with
    /// that, and its result is returned; `fallback` is its name where it has no
    /// output.
    pub fn start(&mut self, bid: usize, edge: &Edge, fallback: &str) -> (done: Option<BuildResult>)
        ensures
            final(self)@ == started(old(self)@, *edge),
            match done {
                Some(r) => {
                    &&& edge.cmdline is None
                    &&& r.bid == bid
                    &&& r.label@ == task::label_of(names(edge.outs@), fallback@)
                    &&& r.derived_path is None
                    &&& r.derived_files@.len() == 0
                    &&& r.err is None
                },
                None => edge.cmdline is Some,
            },
    {
        let outs = ids_of(&edge.outs);
        let cmdline = match &edge.cmdline {
            Some(c) => c,
            None => {
                put_each(&mut self.phony_aliases, &outs, &edge.ordering_ins);
                let out_names = names_of(&edge.outs);
                return Some(
                    BuildResult {
                        bid,
                        label: task::edge_label(&out_names, fallback),
                        derived_path: None,
                        derived_files: Vec::new(),
                        err: None,
                    },
                );
            },
        };
        if is_stamp_command(cmdline.as_str()) {
            let ins = ids_of(&edge.dirtying_ins);
            put_each(&mut self.stamp_inputs, &outs, &ins);
        }
        if outs.len() > 1 {
            put_each(&mut self.co_outputs, &outs, &outs);
        }
        let libs = libraries(&edge.dirtying_ins);
        if libs.len() > 0 {
            put_each(&mut self.runtime_lib_deps, &outs, &libs);
        }
        None
    }

    /// Records the files that the command behind a stamp was given.
    pub fn record_stamp_files(&mut self, outs: &Vec<FileId>, files: &Vec<DerivedFile>)
        ensures
            final(self)@ == (RunView {
                stamp_files: set_each(old(self)@.stamp_files, outs@, derived::files(files@)),
                ..old(self)@
            }),
    {
        let ghost before = self@;
        assert(outs@.take(0) =~= Seq::<FileId>::empty());
        for i in 0..outs.len()
            invariant
                self@ == (RunView {
                    stamp_files: set_each(
                        before.stamp_files,
                        outs@.take(i as int),
                        derived::files(files@),
                    ),
                    ..before
                }),
        {
            assert(outs@.take(i + 1).drop_last() =~= outs@.take(i as int));
            assert(outs@.take(i + 1).last() == outs@[i as int]);
            let ghost now = self.stamp_input_files@;
            self.stamp_input_files.insert(outs[i], derived::dup_files(files));
            assert(file_lists(self.stamp_input_files@) =~= file_lists(now).insert(
                outs@[i as int],
                derived::files(files@),
            ));
        }
        assert(outs@.take(outs@.len() as int) =~= outs@);
    }

    /// Records that a file is at a node. What was recorded first stands.
    pub fn register(&mut self, fid: FileId, file: &DerivedFile)
        ensures
            final(self)@ == (RunView {
                derived: recorded(old(self)@.derived, fid, file@),
                ..old(self)@
            }),
    {
        if !self.derived_files.contains_key(&fid) {
            let ghost before = self.derived_files@;
            self.derived_files.insert(fid, file.dup());
            assert(graph::file_map(self.derived_files@) =~= graph::file_map(before).insert(
                fid,
                file@,
            ));
        }
    }

    /// Records that a file lay in the build directory before the run.
    pub fn add_build_dir_input(&mut self, fid: FileId, file: &DerivedFile)
        ensures
            final(self)@ == (RunView {
                build_dir: old(self)@.build_dir.insert(fid, file@),
                ..old(self)@
            }),
    {
        let ghost before = self.build_dir_inputs@;
        self.build_dir_inputs.insert(fid, file.dup());
        assert(graph::file_map(self.build_dir_inputs@) =~= graph::file_map(before).insert(
            fid,
            file@,
        ));
    }

    /// Reads the entries of the build directory: records its links and empty
    /// directories, in order and each once, and returns the entries whose bytes
    /// are uploaded. `own_files` are those in which the driver keeps its state.
    pub fn read_build_dir(&mut self, own_files: &Vec<String>, entries: &Vec<DirEntry>) -> (r: Vec<
        String,
    >)
        ensures
            views::texts(r@) == uploads_among(
                old(self)@.config.build_dir@,
                views::texts(own_files@),
                entries@,
            ),
            final(self)@ == (RunView {
                scan: builddir::in_order(
                    scanned_all(
                        old(self)@.scan,
                        old(self)@.config.build_dir@,
                        views::texts(own_files@),
                        entries@,
                    ),
                ),
                ..old(self)@
            }),
    {
        let ghost before = self@;
        let ghost dir = self.config.build_dir@;
        let ghost own = views::texts(own_files@);
        let mut out: Vec<String> = Vec::new();
        assert(entries@.take(0) =~= Seq::<DirEntry>::empty());
        assert(views::texts(out@) =~= Seq::<Seq<char>>::empty());
        for i in 0..entries.len()
            invariant
                dir == before.config.build_dir@,
                own == views::texts(own_files@),
                views::texts(out@) == uploads_among(dir, own, entries@.take(i as int)),
                self@ == (RunView {
                    scan: scanned_all(before.scan, dir, own, entries@.take(i as int)),
                    ..before
                }),
        {
            proof {
                assert(entries@.take(i + 1).drop_last() =~= entries@.take(i as int));
                assert(entries@.take(i + 1).last() == entries@[i as int]);
            }
            let e = &entries[i];
            let d = builddir::build_dir_disposition(
                self.config.build_dir.as_str(),
                e.path.as_str(),
                own_files,
                &e.facts,
            );
            if self.scan.take(
                self.config.build_dir.as_str(),
                e.path.as_str(),
                d,
                e.empty_dir,
                e.produced,
            ) {
                out.push(e.path.clone());
            }
        }
        assert(entries@.take(entries@.len() as int) =~= entries@);
        self.scan.finish();
        out
    }

    /// Joins more nodes to each of some outputs: who depends on one of the
    /// outputs gets those nodes as well.
    pub fn join(&mut self, outs: &Vec<FileId>, more: &Vec<FileId>)
        ensures
            final(self)@ == (RunView {
                co_outputs: joined_each(old(self)@.co_outputs, outs@, more@),
                ..old(self)@
            }),
    {
        join_each(&mut self.co_outputs, outs, more);
    }

    /// Records the files that an edge's response file names. A command that
    /// copies headers into trees makes links to them: who depends on one of its
    /// outputs gets those files as well.
    pub fn take_response_files(&mut self, cmdline: &str, edge: &Edge, fids: &Vec<FileId>)
        ensures
            final(self)@ == if text::has(cmdline@, "syncqt"@) && fids@.len() > 0 {
                RunView {
                    co_outputs: joined_each(old(self)@.co_outputs, ids(edge.outs@), fids@),
                    ..old(self)@
                }
            } else {
                old(self)@
            },
    {
        let c = text::chars_of(cmdline);
        if text::contains_lit(&c, "syncqt") && fids.len() > 0 {
            let outs = ids_of(&edge.outs);
            self.join(&outs, fids);
        }
    }

    /// Takes the result of an edge in, and returns which edge it was and whether
    /// it succeeded. `fids` are the nodes of the files that it produced. A
    /// failed edge leaves no trace.
    pub fn wait(&mut self, result: &BuildResult, fids: &Vec<FileId>) -> (r: (usize, bool))
        requires
            fids@.len() == result.derived_files@.len(),
        ensures
            r == (result.bid, result.err is None),
            final(self)@ == if r.1 {
                settled(old(self)@, fids@, derived::files(result.derived_files@))
            } else {
                old(self)@
            },
    {
        if result.err.is_some() {
            return (result.bid, false);
        }
        let ghost before = self@;
        let ghost all = derived::files(result.derived_files@);
        let mut files: Vec<FileId> = Vec::new();
        let mut trees: Vec<FileId> = Vec::new();
        assert(all.take(0) =~= Seq::<FileView>::empty());
        for i in 0..fids.len()
            invariant
                fids@.len() == result.derived_files@.len(),
                all == derived::files(result.derived_files@),
                files@ == nodes_of(fids@, all.take(i as int), false),
                trees@ == nodes_of(fids@, all.take(i as int), true),
                self@ == (RunView {
                    derived: recorded_all(before.derived, fids@, all.take(i as int)),
                    ..before
                }),
        {
            proof {
                assert(all.take(i + 1).drop_last() =~= all.take(i as int));
                assert(all.take(i + 1).last() == result.derived_files@[i as int]@);
            }
            let f = &result.derived_files[i];
            self.register(fids[i], f);
            if shapes::is_tree_path(f.build_path.as_str()) {
                trees.push(fids[i]);
            } else {
                files.push(fids[i]);
            }
        }
        assert(all.take(all.len() as int) =~= all);
        if trees.len() > 0 {
            self.join(&files, &trees);
        }
        (result.bid, true)
    }

    /// The files that a node stands for.
    pub fn resolve_target(&self, fid: FileId) -> (r: Vec<DerivedFile>)
        ensures
            graph::stands_for(
                graph::targets_of(self.derived_files@, self.phony_aliases@, self.co_outputs@),
                fid,
                derived::files(r@),
            ),
    {
        graph::resolve_target_in(&self.derived_files, &self.phony_aliases, &self.co_outputs, fid)
    }

    /// Whether a node is an alias.
    pub fn is_phony(&self, fid: FileId) -> (r: bool)
        ensures
            r == self.phony_aliases@.contains_key(fid),
    {
        self.phony_aliases.contains_key(&fid)
    }

    /// The nodes that an edge's inputs lead to, each with whether something
    /// else led to it.
    pub fn inputs_of(&self, compiles: bool, ins: &Vec<FileId>) -> (r: Vec<graph::Visit>)
        ensures
            graph::expanded(
                graph::edges_of(
                    self.phony_aliases@,
                    self.stamp_inputs@,
                    self.co_outputs@,
                    self.runtime_lib_deps@,
                ),
                compiles,
                ins@,
                r@,
            ),
    {
        graph::expand_inputs(
            &self.phony_aliases,
            &self.stamp_inputs,
            &self.co_outputs,
            &self.runtime_lib_deps,
            compiles,
            ins,
        )
    }

    /// Takes the files that a stamp's command was given into the inputs, where
    /// their places are free. A compilation takes the headers only.
    pub fn take_stamp_files(&self, set: &mut InputSet, compiles: bool, fid: FileId)
        ensures
            final(set)@ == inputs::with_free(
                old(set)@,
                if file_lists(self.stamp_input_files@).contains_key(fid) {
                    wanted_files(compiles, file_lists(self.stamp_input_files@)[fid])
                } else {
                    Seq::empty()
                },
            ),
    {
        if let Some(fs) = self.stamp_input_files.get(&fid) {
            let v = wanted(compiles, fs);
            set.add_all(&v);
        }
    }

    /// The file at a node: what exists there, or what lay in the build directory.
    pub fn file_at(&self, fid: FileId) -> (r: Option<DerivedFile>)
        ensures
            match r {
                Some(f) => known_file(
                    graph::file_map(self.derived_files@),
                    graph::file_map(self.build_dir_inputs@),
                    fid,
                ) == Some(f@),
                None => known_file(
                    graph::file_map(self.derived_files@),
                    graph::file_map(self.build_dir_inputs@),
                    fid,
                ) is None,
            },
    {
        match self.derived_files.get(&fid) {
            Some(f) => Some(f.dup()),
            None => match self.build_dir_inputs.get(&fid) {
                Some(f) => Some(f.dup()),
                None => None,
            },
        }
    }

    /// Takes the files at some nodes, and at all that come with those, into the inputs.
    pub fn take_nodes(&self, set: &mut InputSet, start: &Vec<FileId>)
        ensures
            with_nodes(
                graph::file_map(self.derived_files@),
                graph::lists(self.co_outputs@),
                old(set)@,
                start@,
                final(set)@,
            ),
    {
        let none: HashMap<FileId, Vec<FileId>> = HashMap::new();
        let ghost g = joint_edges(graph::lists(self.co_outputs@));
        let visits = graph::expand_inputs(&none, &none, &self.co_outputs, &none, true, start);
        proof {
            let e = graph::edges_of(none@, none@, self.co_outputs@, none@);
            assert(graph::lists(none@) =~= Map::<FileId, Seq<FileId>>::empty());
            assert(e == g);
        }
        let ghost derived = graph::file_map(self.derived_files@);
        let ghost all = graph::nodes(visits@);
        let ghost before = set@;
        assert(all.take(0) =~= Seq::<FileId>::empty());
        for i in 0..visits.len()
            invariant
                derived == graph::file_map(self.derived_files@),
                all == graph::nodes(visits@),
                set@ == inputs::with_all(before, known_at(derived, all.take(i as int))),
        {
            let x: FileId = visits[i].0;
            proof {
                assert(all.take(i + 1).drop_last() =~= all.take(i as int));
                assert(all.take(i + 1).last() == x);
            }
            if let Some(f) = self.derived_files.get(&x) {
                let ghost front = known_at(derived, all.take(i as int));
                set.insert(f.dup());
                assert(front.push(f@).drop_last() =~= front);
            }
        }
        assert(all.take(all.len() as int) =~= all);
    }

    /// Takes every file that lay in the build directory into the inputs, unless
    /// the task compiles or there are more of them than the limit.
    pub fn take_build_dir(&self, set: &mut InputSet, compiles: bool, limit: usize)
        ensures
            if !compiles && self.build_dir_inputs@.len() <= limit {
                with_every(graph::file_map(self.build_dir_inputs@), old(set)@, final(set)@)
            } else {
                final(set)@ == old(set)@
            },
    {
        if compiles || self.build_dir_inputs.len() > limit {
            return ;
        }
        let ghost files = graph::file_map(self.build_dir_inputs@);
        let ghost before = set@;
        let mut fs: Vec<DerivedFile> = Vec::new();
        let held = self.build_dir_inputs.values();
        let ghost all = vstd::std_specs::hash::into_iter_values(held);
        proof {
            assert(all.to_set() == self.build_dir_inputs@.values());
            every_shown(self.build_dir_inputs@, all);
        }
        for f in it: held
            invariant
                it.seq().unref() == all,
                derived::files(fs@) == derived::files(all.take(it.index() as int)),
        {
            assert(all.take(it.index() as int + 1) =~= all.take(it.index() as int).push(*f));
            fs.push(f.dup());
        }
        assert(all.take(all.len() as int) =~= all);
        set.insert_all(&fs);
        assert(inputs::with_all(before, derived::files(fs@)) == set@);
    }

    /// Takes the file at a node, and at what comes with it, into the inputs
    /// where their places are free.
    pub fn take_generated(&self, set: &mut InputSet, start: FileId)
        ensures
            with_generated(
                graph::file_map(self.derived_files@),
                graph::lists(self.co_outputs@),
                old(set)@,
                start,
                final(set)@,
            ),
    {
        let ghost derived = graph::file_map(self.derived_files@);
        let ghost co = graph::lists(self.co_outputs@);
        let ghost first = FreeWalk { work: seq![start], inputs: set@ };
        let mut work: Vec<FileId> = Vec::new();
        work.push(start);
        let ghost mut n: nat = 0;
        let ghost mut done: Set<usize> = Set::empty();
        assert(work@ =~= seq![start]);
        proof {
            seen::few_nodes(done);
        }
        while work.len() > 0
            invariant
                derived == graph::file_map(self.derived_files@),
                co == graph::lists(self.co_outputs@),
                free_walk(derived, co, first, n) == (FreeWalk { work: work@, inputs: set@ }),
                done.finite(),
                done.len() <= usize::MAX + 1,
                forall|x: FileId| #[trigger]
                    done.contains(x) ==> derived.contains_key(x) && set@.contains_key(
                        inputs::place_of(derived[x]),
                    ),
            decreases usize::MAX + 1 - done.len(), work.len(),
        {
            let ghost before = work@;
            let x: FileId = work.pop().unwrap();
            proof {
                assert(work@ =~= before.drop_last());
                assert(x == before.last());
                n = n + 1;
            }
            if let Some(f) = self.derived_files.get(&x) {
                assert(derived[x] == f@);
                if !set.contains(f.build_path.as_str()) {
                    set.insert(f.dup());
                    let ghost rest = work@;
                    proof {
                        assert(!done.contains(x));
                        done = done.insert(x);
                        seen::few_nodes(done);
                    }
                    if let Some(sibs) = self.co_outputs.get(&x) {
                        assert(co[x] == sibs@);
                        append_without(&mut work, sibs, x);
                    } else {
                        assert(graph::list_at(co, x) =~= Seq::<FileId>::empty());
                        assert(rest + graph::without(graph::list_at(co, x), x) =~= rest);
                    }
                }
            }
        }
        assert(work@ =~= Seq::<FileId>::empty());
    }
}

fn append_without(work: &mut Vec<FileId>, v: &Vec<FileId>, x: FileId)
    ensures
        final(work)@ == old(work)@ + graph::without(v@, x),
{
    let ghost before = work@;
    assert(v@.take(0) =~= Seq::<FileId>::empty());
    assert(before + graph::without(v@.take(0), x) =~= before);
    for i in 0..v.len()
        invariant
            work@ == before + graph::without(v@.take(i as int), x),
    {
        assert(v@.take(i + 1).drop_last() =~= v@.take(i as int));
        assert(v@.take(i + 1).last() == v@[i as int]);
        if v[i] != x {
            work.push(v[i]);
            assert(before + graph::without(v@.take(i as int), x).push(v@[i as int]) =~= (before
                + graph::without(v@.take(i as int), x)).push(v@[i as int]));
        }
    }
    assert(v@.take(v@.len() as int) =~= v@);
}

/// What exists at a node, or else what lay there in the build directory.
pub open spec fn known_file(
    derived: Map<FileId, FileView>,
    build_dir: Map<FileId, FileView>,
    fid: FileId,
) -> Option<FileView> {
    if derived.contains_key(fid) {
        Some(derived[fid])
    } else if build_dir.contains_key(fid) {
        Some(build_dir[fid])
    } else {
        None
    }
}

/// The files that a task wants of a stamp's: all, or the headers of a compilation.
pub open spec fn wanted_files(compiles: bool, fs: Seq<FileView>) -> Seq<FileView>
    decreases fs.len(),
{
    if fs.len() == 0 {
        Seq::empty()
    } else if !compiles || shapes::is_header(fs.last().build_path) {
        wanted_files(compiles, fs.drop_last()).push(fs.last())
    } else {
        wanted_files(compiles, fs.drop_last())
    }
}

fn wanted(compiles: bool, fs: &Vec<DerivedFile>) -> (r: Vec<DerivedFile>)
    ensures
        derived::files(r@) == wanted_files(compiles, derived::files(fs@)),
{
    let ghost all = derived::files(fs@);
    let mut out: Vec<DerivedFile> = Vec::new();
    assert(derived::files(out@) =~= wanted_files(compiles, all.take(0)));
    for i in 0..fs.len()
        invariant
            all == derived::files(fs@),
            derived::files(out@) == wanted_files(compiles, all.take(i as int)),
    {
        assert(all.take(i + 1).drop_last() =~= all.take(i as int));
        assert(all.take(i + 1).last() == fs@[i as int]@);
        if !compiles || shapes::header_like(fs[i].build_path.as_str()) {
            out.push(fs[i].dup());
        }
    }
    assert(all.take(all.len() as int) =~= all);
    out
}

fn add_ids(v: &mut Vec<FileId>, more: &Vec<FileId>)
    ensures
        final(v)@ == with_ids(old(v)@, more@),
{
    let ghost before = v@;
    assert(more@.take(0) =~= Seq::<FileId>::empty());
    for i in 0..more.len()
        invariant
            v@ == with_ids(before, more@.take(i as int)),
    {
        assert(more@.take(i + 1).drop_last() =~= more@.take(i as int));
        assert(more@.take(i + 1).last() == more@[i as int]);
        if !graph::has_id(v, more[i]) {
            v.push(more[i]);
        }
    }
    assert(more@.take(more@.len() as int) =~= more@);
}

fn join_each(m: &mut HashMap<FileId, Vec<FileId>>, outs: &Vec<FileId>, more: &Vec<FileId>)
    ensures
        graph::lists(final(m)@) == joined_each(graph::lists(old(m)@), outs@, more@),
{
    let ghost before = graph::lists(m@);
    assert(outs@.take(0) =~= Seq::<FileId>::empty());
    for i in 0..outs.len()
        invariant
            graph::lists(m@) == joined_each(before, outs@.take(i as int), more@),
    {
        assert(outs@.take(i + 1).drop_last() =~= outs@.take(i as int));
        assert(outs@.take(i + 1).last() == outs@[i as int]);
        let ghost now = m@;
        let x: FileId = outs[i];
        let mut v = match m.get(&x) {
            Some(v) => graph::dup_ids(v),
            None => {
                let mut v: Vec<FileId> = Vec::new();
                v.push(x);
                assert(v@ =~= seq![x]);
                v
            },
        };
        add_ids(&mut v, more);
        m.insert(x, v);
        assert(graph::lists(m@) =~= graph::lists(now).insert(x, v@));
    }
    assert(outs@.take(outs@.len() as int) =~= outs@);
}

// ---------------------------------------------------------------------------
// Laws
// ---------------------------------------------------------------------------

/// Recording more never takes a known file away: what was recorded at a node
/// still stands there when another file is recorded at it, and no other node
/// changes.
pub proof fn first_record_stands(
    m: Map<FileId, FileView>,
    fid: FileId,
    a: FileView,
    b: FileView,
    other: FileId,
)
    ensures
        recorded(recorded(m, fid, a), fid, b) == recorded(m, fid, a),
        m.contains_key(other) ==> recorded(m, fid, a).contains_key(other) && recorded(
            m,
            fid,
            a,
        )[other] == m[other],
{
}

/// Each of the nodes has the value.
proof fn set_each_at<V>(m: Map<FileId, V>, ks: Seq<FileId>, v: V, x: FileId)
    requires
        ks.contains(x),
    ensures
        set_each(m, ks, v).contains_key(x),
        set_each(m, ks, v)[x] == v,
    decreases ks.len(),
{
    if ks.last() != x {
        let i = choose|i: int| 0 <= i < ks.len() && ks[i] == x;
        assert(ks.drop_last()[i] == x);
        set_each_at(m, ks.drop_last(), v, x);
    }
}

/// Once an edge has started, naming one of its outputs places every output of
/// that edge that exists.
pub proof fn one_output_brings_all(
    s: RunView,
    e: Edge,
    derived: Map<FileId, FileView>,
    x: FileId,
    y: FileId,
    found: Seq<FileId>,
)
    requires
        e.cmdline is Some,
        ids(e.outs@).contains(x),
        ids(e.outs@).contains(y),
        derived.contains_key(x),
        derived.contains_key(y),
        graph::resolved(
            graph::Targets {
                derived,
                phony: started(s, e).phony,
                co_outputs: started(s, e).co_outputs,
            },
            x,
            found,
        ),
    ensures
        found.contains(x),
        found.contains(y),
{
    let outs = ids(e.outs@);
    let g = graph::Targets {
        derived,
        phony: started(s, e).phony,
        co_outputs: started(s, e).co_outputs,
    };
    assert(found[0] == x);
    assert(found.contains(x));
    if outs.len() > 1 {
        set_each_at(s.co_outputs, outs, outs, x);
        graph::siblings_come_along(g, x, found, x, y);
    } else {
        assert(outs[0] == x && outs[0] == y);
    }
}

/// What an edge produces exists once its result is taken in, and nothing that
/// existed before is replaced.
pub proof fn results_exist(s: RunView, fids: Seq<FileId>, fs: Seq<FileView>, x: FileId)
    requires
        fids.len() == fs.len(),
    ensures
        settled(s, fids, fs).derived.contains_key(x) <==> s.derived.contains_key(x)
            || fids.contains(x),
        s.derived.contains_key(x) ==> settled(s, fids, fs).derived[x] == s.derived[x],
{
    recorded_all_at(s.derived, fids, fs, x);
    assert(fids.take(fs.len() as int) =~= fids);
}

proof fn recorded_all_at(m: Map<FileId, FileView>, fids: Seq<FileId>, fs: Seq<FileView>, x: FileId)
    requires
        fs.len() <= fids.len(),
    ensures
        recorded_all(m, fids, fs).contains_key(x) <==> m.contains_key(x) || fids.take(
            fs.len() as int,
        ).contains(x),
        m.contains_key(x) ==> recorded_all(m, fids, fs)[x] == m[x],
    decreases fs.len(),
{
    if fs.len() > 0 {
        let n = fs.len() - 1;
        recorded_all_at(m, fids, fs.drop_last(), x);
        let a = fids.take(n);
        let b = fids.take(n + 1);
        assert(b =~= a.push(fids[n]));
        assert(b[n] == fids[n]);
        if a.contains(x) {
            let i = choose|i: int| 0 <= i < a.len() && a[i] == x;
            assert(b[i] == x);
        }
        if b.contains(x) && x != fids[n] {
            let i = choose|i: int| 0 <= i < b.len() && b[i] == x;
            assert(a[i] == x);
        }
    }
}

/// Joining nodes twice is joining them once.
pub proof fn joining_settles(v: Seq<FileId>, more: Seq<FileId>)
    ensures
        with_ids(with_ids(v, more), more) == with_ids(v, more),
        forall|x: FileId| #[trigger]
            with_ids(v, more).contains(x) <==> v.contains(x) || more.contains(x),
    decreases more.len(),
{
    ids_join(v, more);
    ids_kept(with_ids(v, more), more);
}

/// A list with more nodes holds its own and those.
proof fn ids_join(v: Seq<FileId>, more: Seq<FileId>)
    ensures
        forall|x: FileId| #[trigger]
            with_ids(v, more).contains(x) <==> v.contains(x) || more.contains(x),
    decreases more.len(),
{
    if more.len() > 0 {
        let front = with_ids(v, more.drop_last());
        ids_join(v, more.drop_last());
        assert forall|x: FileId| #[trigger] with_ids(v, more).contains(x) <==> v.contains(x)
            || more.contains(x) by {
            assert(more.contains(x) <==> more.drop_last().contains(x) || x == more.last()) by {
                assert(more =~= more.drop_last().push(more.last()));
                if more.contains(x) {
                    let i = choose|i: int| 0 <= i < more.len() && more[i] == x;
                    if i < more.len() - 1 {
                        assert(more.drop_last()[i] == x);
                    }
                }
                if more.drop_last().contains(x) {
                    let i = choose|i: int|
                        0 <= i < more.drop_last().len() && more.drop_last()[i] == x;
                    assert(more[i] == x);
                }
                assert(more[more.len() - 1] == more.last());
            }
            let pushed = front.push(more.last());
            assert(pushed.contains(x) <==> front.contains(x) || x == more.last()) by {
                if pushed.contains(x) {
                    let i = choose|i: int| 0 <= i < pushed.len() && pushed[i] == x;
                    if i < front.len() {
                        assert(front[i] == x);
                    }
                }
                if front.contains(x) {
                    let i = choose|i: int| 0 <= i < front.len() && front[i] == x;
                    assert(pushed[i] == x);
                }
                assert(pushed[front.len() as int] == more.last());
            }
        }
    }
}

/// A list that holds the nodes already stays as it is.
proof fn ids_kept(v: Seq<FileId>, more: Seq<FileId>)
    requires
        forall|x: FileId| #[trigger] more.contains(x) ==> v.contains(x),
    ensures
        with_ids(v, more) == v,
    decreases more.len(),
{
    if more.len() > 0 {
        let front = more.drop_last();
        assert forall|x: FileId| #[trigger] front.contains(x) implies v.contains(x) by {
            let i = choose|i: int| 0 <= i < front.len() && front[i] == x;
            assert(more[i] == x);
            assert(more.contains(x));
        }
        ids_kept(v, front);
        assert(more[more.len() - 1] == more.last());
        assert(more.contains(more.last()));
    }
}

/// A command marks its inputs where it runs one of the three scripts that do.
pub proof fn three_scripts_mark_their_inputs(a: Seq<char>, script: Seq<char>, b: Seq<char>)
    requires
        script == "touch_file.py"@ || script == "ts_library.py"@ || script == "generate_grd.py"@,
    ensures
        marks_inputs(a + script + b),
        forall|c: Seq<char>| #[trigger]
            marks_inputs(c) ==> text::has(c, "touch_file.py"@) || text::has(c, "ts_library.py"@)
                || text::has(c, "generate_grd.py"@),
{
    let s = a + script + b;
    let n = a.len() as int;
    assert(s.subrange(n, n + script.len()) =~= script);
    assert(text::occurs_at(s, script, n));
}

/// The libraries among some files are all that are shaped like one, in their order.
pub proof fn every_library_is_listed(
    a: Seq<(FileId, String)>,
    f: (FileId, String),
    b: Seq<(FileId, String)>,
)
    ensures
        libs_among(a + b) == libs_among(a) + libs_among(b),
        libs_among(seq![f]) == if shapes::is_lib(f.1@) {
            seq![f.0]
        } else {
            Seq::<FileId>::empty()
        },
    decreases b.len(),
{
    reveal_with_fuel(libs_among, 2);
    assert(seq![f].drop_last() =~= Seq::<(FileId, String)>::empty());
    assert(libs_among(seq![f]) =~= if shapes::is_lib(f.1@) {
        seq![f.0]
    } else {
        Seq::<FileId>::empty()
    });
    if b.len() == 0 {
        assert(a + b =~= a);
        assert(libs_among(a) + libs_among(b) =~= libs_among(a));
    } else {
        every_library_is_listed(a, f, b.drop_last());
        assert((a + b).drop_last() =~= a + b.drop_last());
        assert((a + b).last() == b.last());
        assert(libs_among(a + b) =~= libs_among(a) + libs_among(b));
    }
}

proof fn set_each_elsewhere<V>(m: Map<FileId, V>, ks: Seq<FileId>, v: V, x: FileId)
    requires
        !ks.contains(x),
    ensures
        set_each(m, ks, v).contains_key(x) == m.contains_key(x),
        m.contains_key(x) ==> set_each(m, ks, v)[x] == m[x],
    decreases ks.len(),
{
    if ks.len() > 0 {
        let f = ks.drop_last();
        assert(ks.contains(ks.last()));
        if f.contains(x) {
            let i = choose|i: int| 0 <= i < f.len() && f[i] == x;
            assert(ks[i] == x);
        }
        set_each_elsewhere(m, f, v, x);
    }
}

/// An alias stands, at each of its outputs, for the inputs that it orders; it
/// changes nothing else.
pub proof fn aliases_stand_for_their_inputs(s: RunView, e: Edge, x: FileId)
    requires
        e.cmdline is None,
    ensures
        ids(e.outs@).contains(x) ==> started(s, e).phony.contains_key(x) && started(s, e).phony[x]
            == e.ordering_ins@,
        !ids(e.outs@).contains(x) ==> started(s, e).phony.contains_key(x) == s.phony.contains_key(x)
            && (s.phony.contains_key(x) ==> started(s, e).phony[x] == s.phony[x]),
        started(s, e).stamps == s.stamps,
        started(s, e).co_outputs == s.co_outputs,
        started(s, e).libs == s.libs,
        started(s, e).derived == s.derived,
{
    if ids(e.outs@).contains(x) {
        set_each_at(s.phony, ids(e.outs@), e.ordering_ins@, x);
    } else {
        set_each_elsewhere(s.phony, ids(e.outs@), e.ordering_ins@, x);
    }
}

/// Of an edge with a command, each output comes with all of them where there is
/// more than one, with the inputs where the command only marks these, and with
/// the libraries that it was made from; no other node changes, and none becomes
/// an alias.
pub proof fn outputs_come_with_what_they_need(s: RunView, e: Edge, c: Seq<char>, x: FileId)
    requires
        e.cmdline matches Some(t) && t@ == c,
    ensures
        ({
            let r = started(s, e);
            let out = ids(e.outs@).contains(x);
            &&& r.phony == s.phony
            &&& r.derived == s.derived
            &&& out && marks_inputs(c) ==> r.stamps.contains_key(x) && r.stamps[x] == ids(
                e.dirtying_ins@,
            )
            &&& out && e.outs@.len() > 1 ==> r.co_outputs.contains_key(x) && r.co_outputs[x] == ids(
                e.outs@,
            )
            &&& out && libs_among(e.dirtying_ins@).len() > 0 ==> r.libs.contains_key(x) && r.libs[x]
                == libs_among(e.dirtying_ins@)
            &&& !marks_inputs(c) ==> r.stamps == s.stamps
            &&& e.outs@.len() <= 1 ==> r.co_outputs == s.co_outputs
            &&& libs_among(e.dirtying_ins@).len() == 0 ==> r.libs == s.libs
            &&& !out ==> r.stamps.contains_key(x) == s.stamps.contains_key(x)
                && r.co_outputs.contains_key(x) == s.co_outputs.contains_key(x)
                && r.libs.contains_key(x) == s.libs.contains_key(x)
            &&& !out && s.co_outputs.contains_key(x) ==> r.co_outputs[x] == s.co_outputs[x]
            &&& !out && s.stamps.contains_key(x) ==> r.stamps[x] == s.stamps[x]
            &&& !out && s.libs.contains_key(x) ==> r.libs[x] == s.libs[x]
        }),
{
    let outs = ids(e.outs@);
    if outs.contains(x) {
        set_each_at(s.stamps, outs, ids(e.dirtying_ins@), x);
        set_each_at(s.co_outputs, outs, outs, x);
        set_each_at(s.libs, outs, libs_among(e.dirtying_ins@), x);
    } else {
        set_each_elsewhere(s.stamps, outs, ids(e.dirtying_ins@), x);
        set_each_elsewhere(s.co_outputs, outs, outs, x);
        set_each_elsewhere(s.libs, outs, libs_among(e.dirtying_ins@), x);
    }
}

/// Nodes that are joined come with each of the outputs, behind what these came
/// with; an output that came with nothing comes with itself; other nodes stay.
pub proof fn joined_nodes_come_along(
    m: Map<FileId, Seq<FileId>>,
    outs: Seq<FileId>,
    more: Seq<FileId>,
    x: FileId,
    y: FileId,
)
    ensures
        ({
            let r = joined_each(m, outs, more);
            &&& outs.contains(x) && more.contains(y) ==> r.contains_key(x) && r[x].contains(y)
            &&& outs.contains(x) && !m.contains_key(x) ==> r.contains_key(x) && r[x].contains(x)
            &&& m.contains_key(x) && m[x].contains(y) ==> r.contains_key(x) && r[x].contains(y)
            &&& !outs.contains(x) ==> r.contains_key(x) == m.contains_key(x) && r[x] == m[x]
            &&& r.contains_key(x) ==> m.contains_key(x) || outs.contains(x)
        }),
    decreases outs.len(),
{
    if outs.len() > 0 {
        let f = outs.drop_last();
        let last = outs.last();
        joined_nodes_come_along(m, f, more, x, y);
        joined_nodes_come_along(m, f, more, x, x);
        let before = joined_each(m, f, more);
        let list = if before.contains_key(last) {
            before[last]
        } else {
            seq![last]
        };
        joining_settles(list, more);
        assert(outs[outs.len() - 1] == last);
        assert(seq![last][0] == last);
        assert(seq![last].contains(last));
        if outs.contains(x) && x != last {
            let i = choose|i: int| 0 <= i < outs.len() && outs[i] == x;
            assert(f[i] == x);
        }
        if f.contains(x) {
            let i = choose|i: int| 0 <= i < f.len() && f[i] == x;
            assert(outs[i] == x);
        }
        if x == last && !m.contains_key(x) && !f.contains(x) {
            assert(!before.contains_key(x));
        }
        assert(with_ids(list, more).contains(y) <==> list.contains(y) || more.contains(y));
        assert(with_ids(list, more).contains(x) <==> list.contains(x) || more.contains(x));
    }
}

/// The files known at some nodes are all that are known there, in their order.
pub proof fn every_known_file_is_listed(
    derived: Map<FileId, FileView>,
    a: Seq<FileId>,
    x: FileId,
    b: Seq<FileId>,
)
    ensures
        known_at(derived, a + b) == known_at(derived, a) + known_at(derived, b),
        known_at(derived, seq![x]) == if derived.contains_key(x) {
            seq![derived[x]]
        } else {
            Seq::<FileView>::empty()
        },
    decreases b.len(),
{
    reveal_with_fuel(known_at, 2);
    assert(seq![x].drop_last() =~= Seq::<FileId>::empty());
    assert(known_at(derived, seq![x]) =~= if derived.contains_key(x) {
        seq![derived[x]]
    } else {
        Seq::<FileView>::empty()
    });
    if b.len() == 0 {
        assert(a + b =~= a);
        assert(known_at(derived, a) + known_at(derived, b) =~= known_at(derived, a));
    } else {
        every_known_file_is_listed(derived, a, x, b.drop_last());
        assert((a + b).drop_last() =~= a + b.drop_last());
        assert((a + b).last() == b.last());
        assert(known_at(derived, a + b) =~= known_at(derived, a) + known_at(derived, b));
    }
}

proof fn known_is_listed(derived: Map<FileId, FileView>, xs: Seq<FileId>, i: int)
    requires
        0 <= i < xs.len(),
        derived.contains_key(xs[i]),
    ensures
        known_at(derived, xs).contains(derived[xs[i]]),
    decreases xs.len(),
{
    let a = known_at(derived, xs.drop_last());
    let b = known_at(derived, xs);
    if i < xs.len() - 1 {
        known_is_listed(derived, xs.drop_last(), i);
        let k = choose|k: int| 0 <= k < a.len() && a[k] == derived[xs[i]];
        assert(b[k] == a[k]);
    } else {
        assert(b[a.len() as int] == derived[xs[i]]);
    }
}

/// Every node that the command names has an input at the place of its file, and so
/// has every other output of its edge.
pub proof fn named_nodes_are_inputs(
    derived: Map<FileId, FileView>,
    co_outputs: Map<FileId, Seq<FileId>>,
    before: Map<Place, FileView>,
    start: Seq<FileId>,
    after: Map<Place, FileView>,
    x: FileId,
    y: FileId,
)
    requires
        with_nodes(derived, co_outputs, before, start, after),
        start.contains(x),
        y == x || graph::list_at(co_outputs, x).contains(y),
        derived.contains_key(y),
    ensures
        after.contains_key(path::comps(derived[y].build_path)),
{
    let g = joint_edges(co_outputs);
    let visits = choose|visits: Seq<graph::Visit>| #[trigger]
        graph::expanded(g, true, start, visits) && after == inputs::with_all(
            before,
            known_at(derived, graph::nodes(visits)),
        );
    let ns = graph::nodes(visits);
    graph::inputs_are_covered(g, true, start, visits, x, x);
    if y != x {
        graph::without_holds(graph::list_at(co_outputs, x), x, y);
        let w = graph::without(graph::list_at(co_outputs, x), x);
        let j = choose|j: int| 0 <= j < w.len() && w[j] == y;
        let nx = graph::input_next(g, true, x);
        assert(nx[j] == y);
        graph::inputs_are_covered(g, true, start, visits, x, y);
    }
    let i = choose|i: int| 0 <= i < ns.len() && ns[i] == y;
    known_is_listed(derived, ns, i);
    let fs = known_at(derived, ns);
    let k = choose|k: int| 0 <= k < fs.len() && fs[k] == derived[y];
    inputs::put_files_stay(before, fs, k);
}

proof fn walk_from_the_front(
    derived: Map<FileId, FileView>,
    co_outputs: Map<FileId, Seq<FileId>>,
    w: FreeWalk,
    n: nat,
)
    ensures
        free_walk(derived, co_outputs, w, n + 1) == free_walk(
            derived,
            co_outputs,
            free_step(derived, co_outputs, w),
            n,
        ),
    decreases n,
{
    reveal_with_fuel(free_walk, 2);
    if n > 0 {
        walk_from_the_front(derived, co_outputs, w, (n - 1) as nat);
    }
}

proof fn taken_places_stay(
    derived: Map<FileId, FileView>,
    co_outputs: Map<FileId, Seq<FileId>>,
    w: FreeWalk,
    n: nat,
    p: Place,
)
    requires
        w.inputs.contains_key(p),
    ensures
        free_walk(derived, co_outputs, w, n).inputs.contains_key(p),
        free_walk(derived, co_outputs, w, n).inputs[p] == w.inputs[p],
    decreases n,
{
    if n > 0 {
        taken_places_stay(derived, co_outputs, w, (n - 1) as nat, p);
    }
}

proof fn work_is_done(
    derived: Map<FileId, FileView>,
    co_outputs: Map<FileId, Seq<FileId>>,
    w: FreeWalk,
    n: nat,
    x: FileId,
)
    requires
        w.work.contains(x),
        derived.contains_key(x),
        free_walk(derived, co_outputs, w, n).work.len() == 0,
    ensures
        free_walk(derived, co_outputs, w, n).inputs.contains_key(inputs::place_of(derived[x])),
    decreases n,
{
    if n > 0 {
        let m = (n - 1) as nat;
        let s = free_step(derived, co_outputs, w);
        walk_from_the_front(derived, co_outputs, w, m);
        let i = choose|i: int| 0 <= i < w.work.len() && w.work[i] == x;
        if i == w.work.len() - 1 {
            assert(s.inputs.contains_key(inputs::place_of(derived[x])));
            taken_places_stay(derived, co_outputs, s, m, inputs::place_of(derived[x]));
        } else {
            assert(s.work[i] == x);
            work_is_done(derived, co_outputs, s, m, x);
        }
    }
}

/// A generated file is an input afterwards, at its own place; where that was free,
/// so are the files that come with it. No input that stood is replaced.
pub proof fn generated_files_are_inputs(
    derived: Map<FileId, FileView>,
    co_outputs: Map<FileId, Seq<FileId>>,
    before: Map<Place, FileView>,
    start: FileId,
    after: Map<Place, FileView>,
    y: FileId,
    p: Place,
)
    requires
        with_generated(derived, co_outputs, before, start, after),
        derived.contains_key(start),
    ensures
        after.contains_key(path::comps(derived[start].build_path)),
        !before.contains_key(path::comps(derived[start].build_path))
            ==> after[path::comps(derived[start].build_path)] == derived[start],
        !before.contains_key(path::comps(derived[start].build_path)) && y != start && graph::list_at(
            co_outputs,
            start,
        ).contains(y) && derived.contains_key(y) ==> after.contains_key(
            path::comps(derived[y].build_path),
        ),
        before.contains_key(p) ==> after.contains_key(p) && after[p] == before[p],
{
    let w = FreeWalk { work: seq![start], inputs: before };
    let n = choose|n: nat| #[trigger]
        free_walk(derived, co_outputs, w, n) == (FreeWalk { work: Seq::empty(), inputs: after });
    assert(w.work[0] == start);
    assert(w.work.contains(start));
    work_is_done(derived, co_outputs, w, n, start);
    if before.contains_key(p) {
        taken_places_stay(derived, co_outputs, w, n, p);
    }
    let q = path::comps(derived[start].build_path);
    if !before.contains_key(q) {
        assert(n > 0);
        let m = (n - 1) as nat;
        let s = free_step(derived, co_outputs, w);
        walk_from_the_front(derived, co_outputs, w, m);
        assert(w.work.last() == start);
        taken_places_stay(derived, co_outputs, s, m, q);
        let l = graph::list_at(co_outputs, start);
        if y != start && l.contains(y) && derived.contains_key(y) {
            graph::without_holds(l, start, y);
            let v = graph::without(l, start);
            let i = choose|i: int| 0 <= i < v.len() && v[i] == y;
            assert(s.work[w.work.drop_last().len() + i] == y);
            work_is_done(derived, co_outputs, s, m, y);
        }
    }
}

/// A variable that is forwarded is set to its last value, with stand-ins for the
/// real output paths; other variables are not set.
pub proof fn settings_are_forwarded(
    env: Seq<(Seq<char>, Seq<char>)>,
    map: Seq<(Seq<char>, Seq<char>)>,
    key: Seq<char>,
    value: Seq<char>,
    k: Seq<char>,
)
    ensures
        ({
            let a = wrapper_settings(env, map);
            let b = wrapper_settings(env.push((key, value)), map);
            &&& command::is_forwarded(key) ==> b.contains_key(key) && b[key] == wrapper_setting(
                key,
                value,
                map,
            )
            &&& !command::is_forwarded(key) ==> b == a
            &&& k != key ==> b.contains_key(k) == a.contains_key(k) && b[k] == a[k]
        }),
        wrapper_settings(Seq::empty(), map) == Map::<Seq<char>, Seq<char>>::empty(),
        !"NIX_CFLAGS_COMPILE"@.is_prefix_of(key) ==> wrapper_setting(key, value, map)
            == rewrite::rewritten(value, map),
        "NIX_CFLAGS_COMPILE"@.is_prefix_of(key) ==> wrapper_setting(key, value, map)
            == rewrite::rewritten(text::join(command::unseeded(text::words(value)), " "@), map),
{
    assert(env.push((key, value)).drop_last() =~= env);
}

/// A file that is produced stands at its node, unless something stood there; of
/// two files for one node the first stands.
pub proof fn produced_files_are_recorded(s: RunView, fids: Seq<FileId>, fs: Seq<FileView>, i: int)
    requires
        fids.len() == fs.len(),
        0 <= i < fs.len(),
        !s.derived.contains_key(fids[i]),
        forall|j: int| 0 <= j < i ==> #[trigger] fids[j] != fids[i],
    ensures
        settled(s, fids, fs).derived.contains_key(fids[i]),
        settled(s, fids, fs).derived[fids[i]] == fs[i],
{
    recorded_first(s.derived, fids, fs, i);
}

proof fn recorded_first(m: Map<FileId, FileView>, fids: Seq<FileId>, fs: Seq<FileView>, i: int)
    requires
        fs.len() <= fids.len(),
        0 <= i < fs.len(),
        !m.contains_key(fids[i]),
        forall|j: int| 0 <= j < i ==> #[trigger] fids[j] != fids[i],
    ensures
        recorded_all(m, fids, fs).contains_key(fids[i]),
        recorded_all(m, fids, fs)[fids[i]] == fs[i],
    decreases fs.len(),
{
    let f = fs.drop_last();
    if i < f.len() {
        recorded_first(m, fids, f, i);
        assert(f[i] == fs[i]);
    } else {
        recorded_all_at(m, fids, f, fids[i]);
        let t = fids.take(f.len() as int);
        if t.contains(fids[i]) {
            let j = choose|j: int| 0 <= j < t.len() && t[j] == fids[i];
            assert(fids[j] == fids[i]);
        }
    }
}

/// A directory tree that an edge produces comes with every file that it produces.
pub proof fn trees_come_with_every_file(
    s: RunView,
    fids: Seq<FileId>,
    fs: Seq<FileView>,
    i: int,
    j: int,
)
    requires
        fids.len() == fs.len(),
        0 <= i < fs.len(),
        0 <= j < fs.len(),
        !shapes::is_tree(fs[i].build_path),
        shapes::is_tree(fs[j].build_path),
    ensures
        settled(s, fids, fs).co_outputs.contains_key(fids[i]),
        settled(s, fids, fs).co_outputs[fids[i]].contains(fids[j]),
{
    node_is_listed(fids, fs, false, i);
    node_is_listed(fids, fs, true, j);
    joined_nodes_come_along(
        s.co_outputs,
        nodes_of(fids, fs, false),
        nodes_of(fids, fs, true),
        fids[i],
        fids[j],
    );
}

proof fn node_is_listed(fids: Seq<FileId>, fs: Seq<FileView>, trees: bool, i: int)
    requires
        fs.len() <= fids.len(),
        0 <= i < fs.len(),
        shapes::is_tree(fs[i].build_path) == trees,
    ensures
        nodes_of(fids, fs, trees).contains(fids[i]),
    decreases fs.len(),
{
    let f = fs.drop_last();
    let a = nodes_of(fids, f, trees);
    let b = nodes_of(fids, fs, trees);
    if i < f.len() {
        assert(f[i] == fs[i]);
        node_is_listed(fids, f, trees, i);
        let k = choose|k: int| 0 <= k < a.len() && a[k] == fids[i];
        assert(b[k] == a[k]);
    } else {
        assert(b[a.len() as int] == fids[i]);
    }
}

/// Without a tree among what an edge produces nothing is joined.
pub proof fn files_alone_join_nothing(s: RunView, fids: Seq<FileId>, fs: Seq<FileView>)
    requires
        fids.len() == fs.len(),
        forall|i: int| 0 <= i < fs.len() ==> !shapes::is_tree((#[trigger] fs[i]).build_path),
    ensures
        settled(s, fids, fs).co_outputs == s.co_outputs,
{
    no_trees_listed(fids, fs);
}

proof fn no_trees_listed(fids: Seq<FileId>, fs: Seq<FileView>)
    requires
        forall|i: int| 0 <= i < fs.len() ==> !shapes::is_tree((#[trigger] fs[i]).build_path),
    ensures
        nodes_of(fids, fs, true).len() == 0,
    decreases fs.len(),
{
    if fs.len() > 0 {
        let f = fs.drop_last();
        assert forall|i: int| 0 <= i < f.len() implies !shapes::is_tree(
            (#[trigger] f[i]).build_path,
        ) by {
            assert(f[i] == fs[i]);
        }
        no_trees_listed(fids, f);
        assert(!shapes::is_tree(fs[fs.len() - 1].build_path));
    }
}

/// The entries of the build directory are told apart one by one, in their order,
/// each by what it is itself.
pub proof fn entries_are_told_apart_one_by_one(
    s: builddir::ScanView,
    build_dir: Seq<char>,
    own: Seq<Seq<char>>,
    es: Seq<DirEntry>,
    e: DirEntry,
)
    ensures
        ({
            let d = builddir::disposition_of(build_dir, e.path@, own, e.facts);
            &&& uploads_among(build_dir, own, es.push(e)) == if builddir::uploads(d, e.produced) {
                uploads_among(build_dir, own, es).push(e.path@)
            } else {
                uploads_among(build_dir, own, es)
            }
            &&& scanned_all(s, build_dir, own, es.push(e)) == builddir::scanned(
                scanned_all(s, build_dir, own, es),
                build_dir,
                e.path@,
                d,
                e.empty_dir,
            )
        }),
        uploads_among(build_dir, own, Seq::empty()).len() == 0,
        scanned_all(s, build_dir, own, Seq::empty()) == s,
{
    assert(es.push(e).drop_last() =~= es);
}

/// What exists at a node comes before what lay there; what lay there counts where
/// nothing exists.
pub proof fn what_exists_comes_first(
    derived: Map<FileId, FileView>,
    build_dir: Map<FileId, FileView>,
    x: FileId,
)
    ensures
        derived.contains_key(x) ==> known_file(derived, build_dir, x) == Some(derived[x]),
        !derived.contains_key(x) && build_dir.contains_key(x) ==> known_file(derived, build_dir, x)
            == Some(build_dir[x]),
        !derived.contains_key(x) && !build_dir.contains_key(x) ==> known_file(derived, build_dir, x)
            is None,
{
}

/// Of a stamp's files a compilation wants the headers, another task wants all, in
/// their order.
pub proof fn compilations_want_headers_alone(
    compiles: bool,
    a: Seq<FileView>,
    f: FileView,
    b: Seq<FileView>,
)
    ensures
        wanted_files(compiles, a + b) == wanted_files(compiles, a) + wanted_files(compiles, b),
        wanted_files(true, seq![f]) == if shapes::is_header(f.build_path) {
            seq![f]
        } else {
            Seq::<FileView>::empty()
        },
        wanted_files(false, a) == a,
    decreases a.len() + b.len(),
{
    reveal_with_fuel(wanted_files, 2);
    assert(seq![f].drop_last() =~= Seq::<FileView>::empty());
    assert(wanted_files(true, seq![f]) =~= if shapes::is_header(f.build_path) {
        seq![f]
    } else {
        Seq::<FileView>::empty()
    });
    if a.len() > 0 {
        compilations_want_headers_alone(compiles, a.drop_last(), f, Seq::empty());
        assert(a.drop_last().push(a.last()) =~= a);
    } else {
        assert(wanted_files(false, a) =~= a);
    }
    if b.len() == 0 {
        assert(a + b =~= a);
        assert(wanted_files(compiles, a) + wanted_files(compiles, b) =~= wanted_files(compiles, a));
    } else {
        compilations_want_headers_alone(compiles, a, f, b.drop_last());
        assert((a + b).drop_last() =~= a + b.drop_last());
        assert((a + b).last() == b.last());
        assert(wanted_files(compiles, a + b) =~= wanted_files(compiles, a) + wanted_files(
            compiles,
            b,
        ));
    }
}

/// A file is known by its build path; a directory tree by a name inside it.
pub proof fn trees_are_known_by_a_name_inside(f: FileView)
    ensures
        shapes::is_tree(f.build_path) ==> node_name(f) == f.build_path + "/.nn-tree"@,
        !shapes::is_tree(f.build_path) ==> node_name(f) == f.build_path,
{
}

} // verus!
