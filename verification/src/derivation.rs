//! The derivation of a task: its builder, arguments, environment, inputs and
//! outputs.
use crate::climb;
use crate::command;
use crate::derived;
use crate::derived::DerivedFile;
use crate::derived::DerivedPath;
use crate::derived::FileView;
use crate::derived::PathView;
use crate::discovery;
use crate::outputs;
use crate::path;
use crate::rewrite;
use crate::sets;
use crate::sets::PathSet;
use crate::sets::TextSet;
use crate::shapes;
use crate::store;
use crate::task;
use crate::task::Task;
use crate::text;
use crate::text::Class;
use crate::vars::Vars;
use crate::vars;
use crate::views;
use vstd::prelude::*;

verus! {

broadcast use {views::texts_push, views::pieces_push, derived::files_push};

// ---------------------------------------------------------------------------
// Tools
// ---------------------------------------------------------------------------

/// The programs that tasks run with, as the store paths of their packages.
#[derive(Debug, Clone)]
pub struct Tools {
    pub bash: String,
    /// The compiler; a run that builds nothing can do without.
    pub cc: Option<String>,
    pub coreutils: String,
    pub nix: String,
    pub nix_ninja: String,
    pub nix_ninja_task: String,
    pub patchelf: String,
    /// What scripts call besides, as far as it was found.
    pub script_tools: Vec<String>,
}

/// The names of the programs that scripts call besides.
pub open spec fn script_tools() -> Seq<Seq<char>> {
    seq!["sed"@, "awk"@, "grep"@, "m4"@, "xxd"@]
}

/// The names of the programs that scripts call besides.
pub fn script_tool_names() -> (r: Vec<String>)
    ensures
        views::texts(r@) == script_tools(),
{
    let mut v: Vec<String> = Vec::new();
    let a = text::chars_of("sed");
    v.push(text::string_of(&a));
    let b = text::chars_of("awk");
    v.push(text::string_of(&b));
    let c = text::chars_of("grep");
    v.push(text::string_of(&c));
    let d = text::chars_of("m4");
    v.push(text::string_of(&d));
    let e = text::chars_of("xxd");
    v.push(text::string_of(&e));
    assert(views::texts(v@) =~= script_tools());
    v
}

/// The texts that are there.
pub open spec fn present(v: Seq<Option<String>>) -> Seq<Seq<char>>
    decreases v.len(),
{
    if v.len() == 0 {
        Seq::empty()
    } else {
        match v.last() {
            Some(s) => present(v.drop_last()).push(s@),
            None => present(v.drop_last()),
        }
    }
}

impl Tools {
    /// The tools, given what was found: the compiler and what scripts call may
    /// be missing.
    pub fn new(
        bash: String,
        cc: Option<String>,
        coreutils: String,
        nix: String,
        nix_ninja: String,
        nix_ninja_task: String,
        patchelf: String,
        found: &Vec<Option<String>>,
    ) -> (r: Tools)
        ensures
            r.bash == bash,
            r.cc == cc,
            r.coreutils == coreutils,
            r.nix == nix,
            r.nix_ninja == nix_ninja,
            r.nix_ninja_task == nix_ninja_task,
            r.patchelf == patchelf,
            views::texts(r.script_tools@) == present(found@),
    {
        let mut script_tools: Vec<String> = Vec::new();
        assert(views::texts(script_tools@) =~= present(found@.take(0)));
        for i in 0..found.len()
            invariant
                views::texts(script_tools@) == present(found@.take(i as int)),
        {
            assert(found@.take(i + 1).drop_last() =~= found@.take(i as int));
            assert(found@.take(i + 1).last() == found@[i as int]);
            if let Some(s) = &found[i] {
                script_tools.push(s.clone());
            }
        }
        assert(found@.take(found@.len() as int) =~= found@);
        Tools { bash, cc, coreutils, nix, nix_ninja, nix_ninja_task, patchelf, script_tools }
    }

    /// The compiler, which every task derivation needs.
    pub fn require_cc(&self) -> (r: Result<String, DerivationError>)
        ensures
            match r {
                Ok(s) => views::opt_text(self.cc) == Some(s@),
                Err(e) => self.cc is None && e is NoCompiler,
            },
    {
        match &self.cc {
            Some(c) => Ok(c.clone()),
            None => Err(DerivationError::NoCompiler),
        }
    }
}

/// Why a task has no derivation.
#[derive(Debug)]
pub enum DerivationError {
    /// The edge is an alias.
    NoCommand,
    /// There is no compiler.
    NoCompiler,
    /// A variable that is to be forwarded is not set.
    Unset { name: String },
    /// A variable that is to be forwarded holds the store directory itself.
    StoreRoot { name: String, value: String },
    /// A variable that is to be forwarded holds a path outside the store.
    OutsideStore { name: String, value: String, store_dir: String },
    /// Inputs climb higher than the build directory is deep.
    TooHigh { climb: usize, build_dir: String, depth: usize },
    /// Two outputs have one name in the store.
    NameTaken { name: String, path: String },
    /// The command line names no program.
    NoProgram,
}

/// What an error tells the user.
pub open spec fn error_text(e: DerivationError) -> Seq<char> {
    match e {
        DerivationError::NoCommand => "Phony tasks not yet supported"@,
        DerivationError::NoCompiler =>
            "`cc` is not on PATH; every task derivation needs the compiler as an input"@,
        DerivationError::Unset { name } => "NIX_NINJA_PASS_ENV names "@ + name@
            + ", which is not set. An allowlist entry is a request to forward something; silently skipping it is how a typo becomes a sandbox failure thousands of tasks later."@,
        DerivationError::StoreRoot { name, value } => name@ + "="@ + value@
            + " is the store root itself, not a store path"@,
        DerivationError::OutsideStore { name, value, store_dir } => "NIX_NINJA_PASS_ENV names "@
            + name@ + "="@ + value@ + ", an absolute path outside "@ + store_dir@
            + ". It would be forwarded into the task with no corresponding input, and the sandbox has no such file."@,
        DerivationError::TooHigh { climb, build_dir, depth } => "inputs climb "@ + text::decimal(
            climb as nat,
        ) + " levels above build dir "@ + build_dir@ + ", which has only "@ + text::decimal(
            depth as nat,
        ) + " components"@,
        DerivationError::NameTaken { name, path } =>
            "two outputs of this edge map to the store name "@ + name@ + "; the second is "@
            + path@,
        DerivationError::NoProgram => "No command found in cmdline"@,
    }
}

impl DerivationError {
    /// What to tell the user.
    pub fn message(&self) -> (r: String)
        ensures
            r@ == error_text(*self),
    {
        let mut v: Vec<char> = Vec::new();
        match self {
            DerivationError::NoCommand => {
                text::append_str(&mut v, "Phony tasks not yet supported");
            },
            DerivationError::NoCompiler => {
                text::append_str(
                    &mut v,
                    "`cc` is not on PATH; every task derivation needs the compiler as an input",
                );
            },
            DerivationError::Unset { name } => {
                text::append_str(&mut v, "NIX_NINJA_PASS_ENV names ");
                text::append_str(&mut v, name.as_str());
                text::append_str(
                    &mut v,
                    ", which is not set. An allowlist entry is a request to forward something; silently skipping it is how a typo becomes a sandbox failure thousands of tasks later.",
                );
            },
            DerivationError::StoreRoot { name, value } => {
                text::append_str(&mut v, name.as_str());
                text::append_str(&mut v, "=");
                text::append_str(&mut v, value.as_str());
                text::append_str(&mut v, " is the store root itself, not a store path");
            },
            DerivationError::OutsideStore { name, value, store_dir } => {
                text::append_str(&mut v, "NIX_NINJA_PASS_ENV names ");
                text::append_str(&mut v, name.as_str());
                text::append_str(&mut v, "=");
                text::append_str(&mut v, value.as_str());
                text::append_str(&mut v, ", an absolute path outside ");
                text::append_str(&mut v, store_dir.as_str());
                text::append_str(
                    &mut v,
                    ". It would be forwarded into the task with no corresponding input, and the sandbox has no such file.",
                );
            },
            DerivationError::TooHigh { climb, build_dir, depth } => {
                text::append_str(&mut v, "inputs climb ");
                let c = text::number(*climb as u64);
                text::append(&mut v, &c);
                text::append_str(&mut v, " levels above build dir ");
                text::append_str(&mut v, build_dir.as_str());
                text::append_str(&mut v, ", which has only ");
                let d = text::number(*depth as u64);
                text::append(&mut v, &d);
                text::append_str(&mut v, " components");
            },
            DerivationError::NameTaken { name, path } => {
                text::append_str(&mut v, "two outputs of this edge map to the store name ");
                text::append_str(&mut v, name.as_str());
                text::append_str(&mut v, "; the second is ");
                text::append_str(&mut v, path.as_str());
            },
            DerivationError::NoProgram => {
                text::append_str(&mut v, "No command found in cmdline");
            },
        }
        assert(v@ =~= error_text(*self));
        text::string_of(&v)
    }
}

// ---------------------------------------------------------------------------
// Derivations
// ---------------------------------------------------------------------------

/// How an output is addressed by its content.
#[derive(Debug, Clone, Copy, PartialEq, Eq)]
pub enum OutputKind {
    /// As a file tree.
    Archive,
    /// As a text.
    Text,
}

/// A derivation.
#[derive(Debug, Clone)]
pub struct Derivation {
    pub name: String,
    pub platform: String,
    pub builder: String,
    pub args: Vec<String>,
    pub env: Vars,
    pub inputs: PathSet,
    /// The outputs, no name twice.
    pub outputs: Vec<(String, OutputKind)>,
}

/// What a derivation says.
#[verifier::ext_equal]
pub struct DrvView {
    pub name: Seq<char>,
    pub platform: Seq<char>,
    pub builder: Seq<char>,
    pub args: Seq<Seq<char>>,
    pub env: Map<Seq<char>, Seq<char>>,
    pub inputs: Set<PathView>,
    pub outputs: Seq<(Seq<char>, OutputKind)>,
}

/// What a list of outputs says.
pub open spec fn output_views(v: Seq<(String, OutputKind)>) -> Seq<(Seq<char>, OutputKind)> {
    v.map_values(|o: (String, OutputKind)| (o.0@, o.1))
}

impl View for Derivation {
    type V = DrvView;

    open spec fn view(&self) -> DrvView {
        DrvView {
            name: self.name@,
            platform: self.platform@,
            builder: self.builder@,
            args: views::texts(self.args@),
            env: self.env@,
            inputs: self.inputs@,
            outputs: output_views(self.outputs@),
        }
    }
}

/// A derivation that says nothing yet but who builds it.
pub open spec fn bare(name: Seq<char>, platform: Seq<char>, builder: Seq<char>) -> DrvView {
    DrvView {
        name,
        platform,
        builder,
        args: Seq::empty(),
        env: Map::empty(),
        inputs: Set::empty(),
        outputs: Seq::empty(),
    }
}

impl Derivation {
    /// A derivation that says nothing yet but who builds it.
    pub fn new(name: String, platform: String, builder: String) -> (r: Derivation)
        ensures
            r@ == bare(name@, platform@, builder@),
    {
        let r = Derivation {
            name,
            platform,
            builder,
            args: Vec::new(),
            env: Vars::new(),
            inputs: PathSet::new(),
            outputs: Vec::new(),
        };
        assert(r@ =~= bare(name@, platform@, builder@));
        r
    }
}

/// A file with the text under which a task is told of it.
#[derive(Debug, Clone)]
pub struct Encoded {
    pub file: DerivedFile,
    pub text: String,
}

/// What an encoded file says.
#[verifier::ext_equal]
pub struct EncodedView {
    pub file: FileView,
    pub text: Seq<char>,
}

impl View for Encoded {
    type V = EncodedView;

    open spec fn view(&self) -> EncodedView {
        EncodedView { file: self.file@, text: self.text@ }
    }
}

impl Encoded {
    /// A copy.
    pub fn dup(&self) -> (r: Encoded)
        ensures
            r@ == self@,
    {
        Encoded { file: self.file.dup(), text: self.text.clone() }
    }
}

/// What a list of encoded files says.
pub open spec fn encoded_views(v: Seq<Encoded>) -> Seq<EncodedView> {
    v.map_values(|e: Encoded| e@)
}

/// The derivation of a task while it is put together.
#[derive(Debug)]
pub struct TaskDerivation {
    pub drv: Derivation,
    /// The command as the task runs it.
    pub cmdline: String,
    /// The task compiles for link-time optimisation: it keeps the real output paths.
    pub lto: bool,
    /// The texts of the inputs.
    pub encoded: TextSet,
    /// The inputs, declared and discovered.
    pub files: Vec<Encoded>,
}

/// What a derivation in the making says.
#[verifier::ext_equal]
pub struct StageView {
    pub drv: DrvView,
    pub cmdline: Seq<char>,
    pub lto: bool,
    pub encoded: Set<Seq<char>>,
    pub files: Seq<EncodedView>,
}

impl View for TaskDerivation {
    type V = StageView;

    open spec fn view(&self) -> StageView {
        StageView {
            drv: self.drv@,
            cmdline: self.cmdline@,
            lto: self.lto,
            encoded: self.encoded@,
            files: encoded_views(self.files@),
        }
    }
}

/// The task compiles for link-time optimisation.
pub open spec fn is_lto(t: Task, cmdline: Seq<char>, assumed: bool) -> bool {
    views::opt_text(t.deps) == Some("gcc"@) && command::compiles_lto(
        cmdline,
        if t.wrapper_vars@.contains_key("NIX_CFLAGS_COMPILE"@) {
            Some(t.wrapper_vars@["NIX_CFLAGS_COMPILE"@])
        } else {
            None
        },
        assumed,
    )
}

/// A wrapper variable as the task gets it. Where the task keeps the real
/// output paths they are put back; a compiler's flags get a seed that depends
/// on the command alone.
pub open spec fn wrapper_value(
    key: Seq<char>,
    value: Seq<char>,
    lto: bool,
    restore: Seq<(Seq<char>, Seq<char>)>,
    cmdline: Seq<char>,
) -> Seq<char> {
    let v = if lto {
        rewrite::rewritten(value, restore)
    } else {
        value
    };
    if "NIX_CFLAGS_COMPILE"@.is_prefix_of(key) {
        v + " -frandom-seed="@ + command::seed_of(cmdline)
    } else {
        v
    }
}

/// The wrapper variables as the task gets them.
pub open spec fn wrapper_env(
    vars: Map<Seq<char>, Seq<char>>,
    lto: bool,
    restore: Seq<(Seq<char>, Seq<char>)>,
    cmdline: Seq<char>,
) -> Map<Seq<char>, Seq<char>> {
    vars.map_entries(
        |k: Seq<char>, v: Seq<char>| wrapper_value(k, v, lto, restore, cmdline),
    )
}

/// The command as the task runs it.
pub open spec fn run_command(
    cmdline: Seq<char>,
    lto: bool,
    rewrite_map: Seq<(Seq<char>, Seq<char>)>,
) -> Seq<char> {
    if lto {
        cmdline
    } else {
        rewrite::rewritten(cmdline, rewrite_map)
    }
}

/// The arguments of a task's builder.
pub open spec fn first_args(cmdline: Seq<char>, desc: Option<Seq<char>>) -> Seq<Seq<char>> {
    match desc {
        Some(d) => seq![cmdline, "--description="@ + d],
        None => seq![cmdline],
    }
}

/// The derivation with its command and the wrapper variables.
pub open spec fn begun(
    builder: Seq<char>,
    t: Task,
    cmdline: Seq<char>,
    rewrite_map: Seq<(Seq<char>, Seq<char>)>,
    restore: Seq<(Seq<char>, Seq<char>)>,
    assumed: bool,
) -> StageView {
    let lto = is_lto(t, cmdline, assumed);
    let cmd = run_command(cmdline, lto, rewrite_map);
    StageView {
        drv: DrvView {
            args: first_args(cmd, views::opt_text(t.desc)),
            env: wrapper_env(t.wrapper_vars@, lto, restore, cmd),
            ..bare("ninja-build"@, t.system@, builder + "/bin/nix-ninja-task"@)
        },
        cmdline: cmd,
        lto,
        encoded: Set::empty(),
        files: Seq::empty(),
    }
}

/// One wrapper variable as the task gets it.
fn wrapper_text(
    key: &str,
    value: &str,
    lto: bool,
    restore: &Vec<(String, String)>,
    cmdline: &str,
) -> (r: String)
    ensures
        r@ == wrapper_value(key@, value@, lto, views::pairs(restore@), cmdline@),
{
    let v = if lto {
        rewrite::rewrite_str(value, restore.as_slice())
    } else {
        let c = text::chars_of(value);
        text::string_of(&c)
    };
    let k = text::chars_of(key);
    if text::starts_lit(&k, "NIX_CFLAGS_COMPILE") {
        let mut c = text::chars_of(v.as_str());
        text::append_str(&mut c, " -frandom-seed=");
        let seed = command::generate_frandom_seed(cmdline);
        text::append_str(&mut c, seed.as_str());
        text::string_of(&c)
    } else {
        v
    }
}

/// The wrapper variables as the task gets them.
fn wrapper_vars_for(
    vars: &Vars,
    lto: bool,
    restore: &Vec<(String, String)>,
    cmdline: &str,
) -> (r: Vars)
    ensures
        r@ == wrapper_env(vars@, lto, views::pairs(restore@), cmdline@),
{
    let ghost f = |m: Map<Seq<char>, Seq<char>>|
        wrapper_env(m, lto, views::pairs(restore@), cmdline@);
    let mut out = Vars::new();
    assert(f(vars::settled(vars.entries@.take(0))) =~= Map::<Seq<char>, Seq<char>>::empty());
    for i in 0..vars.entries.len()
        invariant
            f == (|m: Map<Seq<char>, Seq<char>>|
                wrapper_env(m, lto, views::pairs(restore@), cmdline@)),
            out@ == f(vars::settled(vars.entries@.take(i as int))),
    {
        let ghost cur = vars.entries@.take(i + 1);
        proof {
            assert(cur.drop_last() =~= vars.entries@.take(i as int));
            assert(cur.last() == vars.entries@[i as int]);
        }
        let v = wrapper_text(
            vars.entries[i].0.as_str(),
            vars.entries[i].1.as_str(),
            lto,
            restore,
            cmdline,
        );
        let ghost before = vars::settled(vars.entries@.take(i as int));
        out.set(vars.entries[i].0.as_str(), v.as_str());
        assert(f(before.insert(vars.entries@[i as int].0@, vars.entries@[i as int].1@)) =~= f(
            before,
        ).insert(vars.entries@[i as int].0@, v@));
    }
    assert(vars.entries@.take(vars.entries@.len() as int) =~= vars.entries@);
    out
}

/// The store path of a package's programs.
pub open spec fn bin_of(package: Seq<char>) -> Seq<char> {
    package + "/bin"@
}

/// The inputs that every task has: the sources it mentions and the tools.
pub open spec fn with_sources(
    s: Set<PathView>,
    t: Task,
    tools: Tools,
    cc: Seq<char>,
) -> Set<PathView> {
    let a = sets::with_opaque(s, views::texts(t.input_srcs@));
    let b = a.insert(derived::opaque_path(tools.bash@)).insert(derived::opaque_path(cc)).insert(
        derived::opaque_path(tools.coreutils@),
    ).insert(derived::opaque_path(tools.nix_ninja_task@)).insert(
        derived::opaque_path(tools.patchelf@),
    );
    sets::with_opaque(b, views::texts(tools.script_tools@))
}

/// The stage with encoded inputs more.
pub open spec fn with_inputs(s: StageView, es: Seq<EncodedView>) -> StageView
    decreases es.len(),
{
    if es.len() == 0 {
        s
    } else {
        with_input(with_inputs(s, es.drop_last()), es.last())
    }
}

/// The stage with an encoded input more.
pub open spec fn with_input(s: StageView, e: EncodedView) -> StageView {
    StageView {
        drv: DrvView { inputs: s.drv.inputs.insert(e.file.derived_path), ..s.drv },
        encoded: s.encoded.insert(e.text),
        files: s.files.push(e),
        ..s
    }
}

/// The stage with discovered inputs more, those that it does not have yet.
pub open spec fn with_new_inputs(s: StageView, es: Seq<EncodedView>) -> StageView
    decreases es.len(),
{
    if es.len() == 0 {
        s
    } else {
        let before = with_new_inputs(s, es.drop_last());
        if before.encoded.contains(es.last().text) {
            before
        } else {
            with_input(before, es.last())
        }
    }
}

/// The stage in which the directories that inputs climb through are declared.
pub open spec fn with_dotdot(
    s: StageView,
    build_dir: Seq<char>,
    dirs: Seq<Seq<char>>,
) -> StageView {
    StageView { drv: DrvView { env: dotdot_env(s.drv.env, build_dir, dirs), ..s.drv }, ..s }
}

/// The environment in which the directories that inputs climb through are declared.
pub open spec fn dotdot_env(
    env: Map<Seq<char>, Seq<char>>,
    build_dir: Seq<char>,
    dirs: Seq<Seq<char>>,
) -> Map<Seq<char>, Seq<char>> {
    let existing = if env.contains_key("NIX_NINJA_MKDIRS"@) {
        env["NIX_NINJA_MKDIRS"@]
    } else {
        Seq::empty()
    };
    let merged = discovery::merged_dirs(existing, build_dir, dirs);
    if dirs.len() == 0 || merged.len() == 0 {
        env
    } else {
        env.insert("NIX_NINJA_MKDIRS"@, merged)
    }
}

/// Declares the directories that discovered inputs climb through, so that the
/// task makes them: what was declared before stays declared.
pub fn declare_dotdot_dirs(env: &mut Vars, build_dir: &str, dirs: &Vec<String>)
    ensures
        final(env)@ == dotdot_env(old(env)@, build_dir@, views::texts(dirs@)),
{
    if dirs.len() == 0 {
        return ;
    }
    let existing = match env.get("NIX_NINJA_MKDIRS") {
        Some(s) => s,
        None => {
            let e: Vec<char> = Vec::new();
            text::string_of(&e)
        },
    };
    let merged = discovery::dotdot_dirs_env(existing.as_str(), build_dir, dirs);
    let c = text::chars_of(merged.as_str());
    if c.len() == 0 {
        return ;
    }
    env.set("NIX_NINJA_MKDIRS", merged.as_str());
}

/// The build paths of encoded files.
pub open spec fn places(es: Seq<EncodedView>) -> Seq<Seq<char>> {
    es.map_values(|e: EncodedView| e.file.build_path)
}

/// How high the inputs or the words of the command climb at most.
pub open spec fn climb_of(s: StageView) -> nat {
    climb::max_of(
        climb::highest(places(s.files)),
        climb::words_height(text::words(s.cmdline)),
    )
}

/// The directory in which the task runs: the sandbox's own build directory; or
/// one deep enough that every climb stays below it.
pub open spec fn run_dir(build_dir: Seq<char>, climb: nat) -> Option<Seq<char>> {
    if path::under(build_dir, "/build/"@) {
        Some(path::sandboxed(build_dir))
    } else if climb > 0 {
        let cs = path::comps(build_dir);
        Some(path::joined("/build/source"@, path::render(cs.skip(cs.len() - climb))))
    } else {
        None
    }
}

/// The arguments with the directory in which the task runs.
pub open spec fn with_run_dir(args: Seq<Seq<char>>, dir: Option<Seq<char>>) -> Seq<Seq<char>> {
    match dir {
        Some(d) => args + seq!["--build-dir"@, d],
        None => args,
    }
}

/// The environment with a variable set where there is something to say.
pub open spec fn set_some(
    env: Map<Seq<char>, Seq<char>>,
    key: Seq<char>,
    words: Seq<Seq<char>>,
) -> Map<Seq<char>, Seq<char>> {
    if words.len() > 0 {
        env.insert(key, text::join(words, " "@))
    } else {
        env
    }
}

/// A link as a task is told of it.
pub open spec fn link_text(l: (Seq<char>, Seq<char>)) -> Seq<char> {
    l.0 + "="@ + l.1
}

/// Links as a task is told of them.
pub open spec fn link_texts(ls: Seq<(Seq<char>, Seq<char>)>) -> Seq<Seq<char>> {
    ls.map_values(|l: (Seq<char>, Seq<char>)| link_text(l))
}

/// What a task's command writes besides its declared outputs.
pub open spec fn undeclared_of(t: Task, meta: Option<Seq<char>>) -> Seq<Seq<char>> {
    outputs::undeclared(
        path::first_paths(views::texts(t.outputs@)),
        views::opt_text(t.cmdline),
        t.build_dir@,
        meta,
    )
}

/// Every output of a task's derivation.
pub open spec fn all_outputs(t: Task, meta: Option<Seq<char>>) -> Seq<Seq<char>> {
    outputs::derivation_outputs(
        views::texts(t.outputs@),
        undeclared_of(t, meta),
        task::depfile_of(t),
        t.verbose,
    )
}

/// The outputs under their names in the store.
pub open spec fn named_outputs(ps: Seq<Seq<char>>) -> Seq<(Seq<char>, OutputKind)> {
    ps.map_values(|p: Seq<char>| (shapes::store_name(p), OutputKind::Archive))
}

/// No two outputs have one name in the store.
pub open spec fn names_apart(ps: Seq<Seq<char>>) -> bool {
    forall|i: int, j: int|
        0 <= i < j < ps.len() ==> shapes::store_name(#[trigger] ps[i]) != shapes::store_name(
            #[trigger] ps[j],
        )
}

/// The error names the first output whose name in the store an earlier one has.
pub open spec fn second_of_name(e: DerivationError, ps: Seq<Seq<char>>) -> bool {
    e matches DerivationError::NameTaken { name, path: p } && (exists|i: int|
        {
            &&& 0 <= i < ps.len()
            &&& p@ == #[trigger] ps[i]
            &&& name@ == shapes::store_name(p@)
            &&& names_apart(ps.take(i))
            &&& !names_apart(ps.take(i + 1))
        })
}

/// An output as a task is told of it: what stands for its store path, where it
/// lies in the build tree, and where it lies in its store object.
pub open spec fn output_text(placeholder: Seq<char>, p: Seq<char>) -> Seq<char> {
    placeholder + ":"@ + p + ":"@ + path::render(path::no_climb(path::comps(p)))
}

/// Outputs as a task is told of them, as far as their placeholders are given.
pub open spec fn output_texts(placeholders: Seq<Seq<char>>, ps: Seq<Seq<char>>) -> Seq<Seq<char>> {
    Seq::new(
        if placeholders.len() < ps.len() {
            placeholders.len()
        } else {
            ps.len()
        },
        |i: int| output_text(placeholders[i], ps[i]),
    )
}

/// The environment that tells a task of its log, its dependency file and its
/// response file, and which variables it reads from files.
pub open spec fn file_env(
    env: Map<Seq<char>, Seq<char>>,
    t: Task,
    rewrite_map: Seq<(Seq<char>, Seq<char>)>,
) -> Map<Seq<char>, Seq<char>> {
    let a = if t.verbose {
        env.insert("NIX_NINJA_VERBOSE_LOG"@, outputs::log_path(views::texts(t.outputs@)))
    } else {
        env
    };
    let b = match task::depfile_of(t) {
        Some(d) => a.insert("NIX_NINJA_DEPFILE"@, shapes::store_name(d)),
        None => a,
    };
    match t.rspfile {
        Some((p, c)) => b.insert("NIX_NINJA_RSPFILE_PATH"@, p@).insert(
            "NIX_NINJA_RSPFILE_CONTENT"@,
            rewrite::rewritten(c@, rewrite_map),
        ).insert(
            "passAsFile"@,
            "NIX_NINJA_INPUTS NIX_NINJA_OUTPUTS NIX_NINJA_RSPFILE_CONTENT"@,
        ),
        None => b.insert("passAsFile"@, "NIX_NINJA_INPUTS NIX_NINJA_OUTPUTS"@),
    }
}

/// A variable that is forwarded has to be set, and to something else than an
/// absolute path that is no path in the store.
pub open spec fn can_forward(store_dir: Seq<char>, value: Option<Seq<char>>) -> bool {
    value matches Some(v) && (store::object_of(store_dir, v) is Some || (path::below(v, store_dir)
        is None && !path::is_abs(v)))
}

/// The stage in which a variable is forwarded; the store object that it leads
/// to is an input.
pub open spec fn forwarded(
    s: StageView,
    store_dir: Seq<char>,
    name: Seq<char>,
    value: Seq<char>,
) -> StageView {
    StageView {
        drv: DrvView {
            env: s.drv.env.insert(name, value),
            inputs: match store::object_of(store_dir, value) {
                Some(o) => s.drv.inputs.insert(derived::opaque_path(o)),
                None => s.drv.inputs,
            },
            ..s.drv
        },
        ..s
    }
}

/// The error says why a variable is not forwarded.
pub open spec fn refuses(
    e: DerivationError,
    store_dir: Seq<char>,
    name: Seq<char>,
    value: Option<Seq<char>>,
) -> bool {
    match value {
        None => e matches DerivationError::Unset { name: n } && n@ == name,
        Some(v) => match path::below(v, store_dir) {
            Some(rel) => path::comps(rel).len() == 0 && (e matches DerivationError::StoreRoot {
                name: n,
                value: w,
            } && n@ == name && w@ == v),
            None => path::is_abs(v) && (e matches DerivationError::OutsideStore {
                name: n,
                value: w,
                store_dir: d,
            } && n@ == name && w@ == v && d@ == store_dir),
        },
    }
}

/// The packages on a task's search path.
pub open spec fn search_packages(tools: Tools, cc: Seq<char>, extra: Seq<Seq<char>>) -> Seq<Seq<char>> {
    seq![tools.bash@, cc, tools.coreutils@, tools.patchelf@] + views::texts(tools.script_tools@)
        + extra
}

/// The search path made of packages.
pub open spec fn search_path(packages: Seq<Seq<char>>) -> Seq<char> {
    text::join(packages.map_values(|p: Seq<char>| bin_of(p)), ":"@)
}

impl TaskDerivation {
    /// The derivation of a task, with its command and the wrapper variables. An
    /// alias has none. `rewrite_map` puts stand-ins in the place of the real
    /// output paths, `restore` puts those back, and `assumed` says that code is
    /// compiled for link-time optimisation where no flag says otherwise.
    pub fn begin(
        tools: &Tools,
        t: &Task,
        rewrite_map: &Vec<(String, String)>,
        restore: &Vec<(String, String)>,
        assumed: bool,
    ) -> (r: Result<TaskDerivation, DerivationError>)
        ensures
            match r {
                Ok(d) => t.cmdline matches Some(c) && d@ == begun(
                    tools.nix_ninja_task@,
                    *t,
                    c@,
                    views::pairs(rewrite_map@),
                    views::pairs(restore@),
                    assumed,
                ),
                Err(e) => t.cmdline is None && e is NoCommand,
            },
    {
        let declared = match &t.cmdline {
            Some(c) => c,
            None => {
                return Err(DerivationError::NoCommand);
            },
        };
        let gcc = match &t.deps {
            Some(d) => text::same_str(d.as_str(), "gcc"),
            None => false,
        };
        let flags = t.wrapper_vars.get("NIX_CFLAGS_COMPILE");
        let flags_str = match &flags {
            Some(s) => Some(s.as_str()),
            None => None,
        };
        let lto = gcc && command::task_is_lto(declared.as_str(), flags_str, assumed);
        let cmdline = if lto {
            declared.clone()
        } else {
            rewrite::rewrite_str(declared.as_str(), rewrite_map.as_slice())
        };
        let name = text::chars_of("ninja-build");
        let mut builder = text::chars_of(tools.nix_ninja_task.as_str());
        text::append_str(&mut builder, "/bin/nix-ninja-task");
        let mut drv = Derivation::new(
            text::string_of(&name),
            t.system.clone(),
            text::string_of(&builder),
        );
        drv.args.push(cmdline.clone());
        if let Some(desc) = &t.desc {
            let mut d = text::chars_of("--description=");
            text::append_str(&mut d, desc.as_str());
            drv.args.push(text::string_of(&d));
        }
        assert(views::texts(drv.args@) =~= first_args(cmdline@, views::opt_text(t.desc)));
        drv.env = wrapper_vars_for(&t.wrapper_vars, lto, restore, cmdline.as_str());
        let r = TaskDerivation {
            drv,
            cmdline,
            lto,
            encoded: TextSet::new(),
            files: Vec::new(),
        };
        assert(r@ =~= begun(
            tools.nix_ninja_task@,
            *t,
            declared@,
            views::pairs(rewrite_map@),
            views::pairs(restore@),
            assumed,
        ));
        Ok(r)
    }

    /// Forwards a variable that the environment names. A path in the store
    /// becomes an input; any other absolute path is refused, since the task
    /// could not reach it.
    pub fn pass_env(
        &mut self,
        store_dir: &str,
        name: &str,
        value: Option<&str>,
    ) -> (r: Result<(), DerivationError>)
        ensures
            match r {
                Ok(_) => can_forward(store_dir@, views::opt_str(value)) && final(self)@ == forwarded(
                    old(self)@,
                    store_dir@,
                    name@,
                    views::opt_str(value)->0,
                ),
                Err(e) => final(self)@ == old(self)@ && !can_forward(
                    store_dir@,
                    views::opt_str(value),
                ) && refuses(e, store_dir@, name@, views::opt_str(value)),
            },
    {
        let n = text::chars_of(name);
        let value = match value {
            Some(v) => v,
            None => {
                return Err(DerivationError::Unset { name: text::string_of(&n) });
            },
        };
        let d = text::chars_of(store_dir);
        let v = text::chars_of(value);
        match path::strip_base(&v, &d) {
            Some(rel) => {
                match store::store_object(store_dir, value) {
                    Some(o) => {
                        self.drv.inputs.insert_opaque(o.as_str());
                    },
                    None => {
                        return Err(
                            DerivationError::StoreRoot {
                                name: text::string_of(&n),
                                value: text::string_of(&v),
                            },
                        );
                    },
                }
            },
            None => {
                if path::absolute(&v) {
                    return Err(
                        DerivationError::OutsideStore {
                            name: text::string_of(&n),
                            value: text::string_of(&v),
                            store_dir: text::string_of(&d),
                        },
                    );
                }
            },
        }
        self.drv.env.set(name, value);
        Ok(())
    }

    /// Adds the sources that the task mentions and the tools that every task has.
    pub fn add_sources(&mut self, tools: &Tools, t: &Task) -> (r: Result<(), DerivationError>)
        ensures
            match r {
                Ok(_) => tools.cc matches Some(cc) && final(self)@ == (StageView {
                    drv: DrvView {
                        inputs: with_sources(old(self)@.drv.inputs, *t, *tools, cc@),
                        ..old(self)@.drv
                    },
                    ..old(self)@
                }),
                Err(e) => tools.cc is None && e is NoCompiler && final(self)@ == old(self)@,
            },
    {
        let cc = match tools.require_cc() {
            Ok(c) => c,
            Err(e) => {
                return Err(e);
            },
        };
        self.drv.inputs.insert_all_opaque(&t.input_srcs);
        self.drv.inputs.insert_opaque(tools.bash.as_str());
        self.drv.inputs.insert_opaque(cc.as_str());
        self.drv.inputs.insert_opaque(tools.coreutils.as_str());
        self.drv.inputs.insert_opaque(tools.nix_ninja_task.as_str());
        self.drv.inputs.insert_opaque(tools.patchelf.as_str());
        self.drv.inputs.insert_all_opaque(&tools.script_tools);
        Ok(())
    }

    /// Adds an input.
    pub(crate) fn add_input(&mut self, e: &Encoded)
        ensures
            final(self)@ == with_input(old(self)@, e@),
    {
        let ghost before = encoded_views(self.files@);
        self.drv.inputs.insert(&e.file.derived_path);
        self.encoded.insert(e.text.as_str());
        self.files.push(e.dup());
        assert(encoded_views(self.files@) =~= before.push(e@));
        assert(self@ =~= with_input(old(self)@, e@));
    }

    /// Adds the task's inputs.
    pub fn add_inputs(&mut self, es: &Vec<Encoded>)
        ensures
            final(self)@ == with_inputs(old(self)@, encoded_views(es@)),
    {
        let ghost all = encoded_views(es@);
        let ghost before = self@;
        assert(all.take(0) =~= Seq::<EncodedView>::empty());
        for i in 0..es.len()
            invariant
                all == encoded_views(es@),
                self@ == with_inputs(before, all.take(i as int)),
        {
            assert(all.take(i + 1).drop_last() =~= all.take(i as int));
            assert(all.take(i + 1).last() == es@[i as int]@);
            self.add_input(&es[i]);
        }
        assert(all.take(all.len() as int) =~= all);
    }

    /// Adds what was discovered: directories to make, store paths, and those
    /// files that the task does not have yet.
    pub fn take_discovered(
        &mut self,
        build_dir: &str,
        dotdot_dirs: &Vec<String>,
        store_paths: &Vec<String>,
        deps: &Vec<Encoded>,
    )
        ensures
            final(self)@ == with_new_inputs(
                with_store_paths(
                    with_dotdot(old(self)@, build_dir@, views::texts(dotdot_dirs@)),
                    views::texts(store_paths@),
                ),
                encoded_views(deps@),
            ),
    {
        declare_dotdot_dirs(&mut self.drv.env, build_dir, dotdot_dirs);
        self.drv.inputs.insert_all_opaque(store_paths);
        let ghost all = encoded_views(deps@);
        let ghost before = self@;
        assert(before =~= with_store_paths(
            with_dotdot(old(self)@, build_dir@, views::texts(dotdot_dirs@)),
            views::texts(store_paths@),
        ));
        assert(all.take(0) =~= Seq::<EncodedView>::empty());
        for i in 0..deps.len()
            invariant
                all == encoded_views(deps@),
                self@ == with_new_inputs(before, all.take(i as int)),
        {
            assert(all.take(i + 1).drop_last() =~= all.take(i as int));
            assert(all.take(i + 1).last() == deps@[i as int]@);
            if !self.encoded.contains(deps[i].text.as_str()) {
                self.add_input(&deps[i]);
            }
        }
        assert(all.take(all.len() as int) =~= all);
    }

    /// Tells the builder in which directory the task runs.
    pub fn place_build_dir(&mut self, build_dir: &str) -> (r: Result<(), DerivationError>)
        ensures
            match r {
                Ok(_) => (path::under(build_dir@, "/build/"@) || climb_of(old(self)@)
                    <= path::comps(build_dir@).len()) && final(self)@ == (StageView {
                    drv: DrvView {
                        args: with_run_dir(
                            old(self)@.drv.args,
                            run_dir(build_dir@, climb_of(old(self)@)),
                        ),
                        ..old(self)@.drv
                    },
                    ..old(self)@
                }),
                Err(e) => !path::under(build_dir@, "/build/"@) && climb_of(old(self)@)
                    > path::comps(build_dir@).len() && final(self)@ == old(self)@ && (
                e matches DerivationError::TooHigh { climb, build_dir: b, depth } && climb
                    == climb_of(old(self)@) && b@ == build_dir@ && depth == path::comps(
                    build_dir@,
                ).len()),
            },
    {
        let d = text::chars_of(build_dir);
        let climb = self.climb();
        let ghost args = views::texts(self.drv.args@);
        if path::is_under_lit(&d, "/build/") {
            let flag = text::chars_of("--build-dir");
            self.drv.args.push(text::string_of(&flag));
            self.drv.args.push(path::sandbox_build_dir(build_dir));
            assert(views::texts(self.drv.args@) =~= args + seq![
                "--build-dir"@,
                path::sandboxed(build_dir@),
            ]);
        } else if climb > 0 {
            let cs = path::components(&d);
            let ghost gc = views::pieces(cs@);
            let n: usize = cs.len();
            assert(path::comps(build_dir@).len() == n);
            if n < climb {
                return Err(
                    DerivationError::TooHigh { climb, build_dir: text::string_of(&d), depth: n },
                );
            }
            let mut tail: Vec<Vec<char>> = Vec::new();
            let from: usize = n - climb;
            assert(views::pieces(tail@) =~= gc.subrange(from as int, from as int));
            for i in from..n
                invariant
                    from <= n,
                    n == cs.len(),
                    gc == views::pieces(cs@),
                    views::pieces(tail@) == gc.subrange(from as int, i as int),
            {
                tail.push(text::copy(&cs[i]));
                assert(gc.subrange(from as int, i + 1) =~= gc.subrange(from as int, i as int).push(
                    cs@[i as int]@,
                ));
            }
            assert(gc.subrange(from as int, n as int) =~= gc.skip(from as int));
            let rel = path::rendered(&tail);
            let base = text::chars_of("/build/source");
            let dir = path::join(&base, &rel);
            let flag = text::chars_of("--build-dir");
            self.drv.args.push(text::string_of(&flag));
            self.drv.args.push(text::string_of(&dir));
            assert(views::texts(self.drv.args@) =~= args + seq!["--build-dir"@, dir@]);
        }
        Ok(())
    }

    /// How high the inputs or the words of the command climb at most.
    fn climb(&self) -> (r: usize)
        ensures
            r == climb_of(self@),
    {
        let ghost all = places(self@.files);
        let mut n: usize = 0;
        assert(all.take(0) =~= Seq::<Seq<char>>::empty());
        for i in 0..self.files.len()
            invariant
                all == places(self@.files),
                all.len() == self.files@.len(),
                n == climb::highest(all.take(i as int)),
        {
            assert(all.take(i + 1).drop_last() =~= all.take(i as int));
            assert(all.take(i + 1).last() == self.files@[i as int].file.build_path@);
            let p = text::chars_of(self.files[i].file.build_path.as_str());
            let k = climb::height_of(&p);
            if k > n {
                n = k;
            }
        }
        assert(all.take(all.len() as int) =~= all);
        let m = climb::command_height(self.cmdline.as_str());
        if n >= m {
            n
        } else {
            m
        }
    }

    /// Tells the task of its inputs, by build path, so that the text does not
    /// depend on the order in which they were met.
    pub fn set_inputs(&mut self)
        ensures
            exists|es: Seq<Seq<char>>| #[trigger]
                sets::in_order(old(self)@.encoded, es) && final(self)@ == with_env(
                    old(self)@,
                    old(self)@.drv.env.insert("NIX_NINJA_INPUTS"@, text::join(es, " "@)),
                ),
    {
        let es = self.encoded.by_build_path();
        let s = text::joined_strings(&es, " ");
        self.drv.env.set("NIX_NINJA_INPUTS", s.as_str());
        assert(sets::in_order(old(self)@.encoded, views::texts(es@)));
    }

    /// Tells the task of the links and the empty directories of the build directory.
    pub fn set_links(&mut self, t: &Task)
        ensures
            final(self)@ == with_env(
                old(self)@,
                set_some(
                    set_some(
                        old(self)@.drv.env,
                        "NIX_NINJA_ALIASES"@,
                        link_texts(views::pairs(t.alias_symlinks@)),
                    ),
                    "NIX_NINJA_EMPTY_DIRS"@,
                    views::texts(t.empty_dirs@),
                ),
            ),
    {
        if t.alias_symlinks.len() > 0 {
            let ghost want = link_texts(views::pairs(t.alias_symlinks@));
            let mut v: Vec<String> = Vec::new();
            assert(views::texts(v@) =~= want.take(0));
            for i in 0..t.alias_symlinks.len()
                invariant
                    want == link_texts(views::pairs(t.alias_symlinks@)),
                    views::texts(v@) == want.take(i as int),
            {
                let mut c = text::chars_of(t.alias_symlinks[i].0.as_str());
                text::append_str(&mut c, "=");
                text::append_str(&mut c, t.alias_symlinks[i].1.as_str());
                v.push(text::string_of(&c));
                assert(want.take(i + 1) =~= want.take(i as int).push(want[i as int]));
            }
            assert(want.take(want.len() as int) =~= want);
            let s = text::joined_strings(&v, " ");
            self.drv.env.set("NIX_NINJA_ALIASES", s.as_str());
        }
        if t.empty_dirs.len() > 0 {
            let s = text::joined_strings(&t.empty_dirs, " ");
            self.drv.env.set("NIX_NINJA_EMPTY_DIRS", s.as_str());
        }
    }

    /// Declares every output, and returns them in the order in which they are
    /// encoded. Two outputs with one name in the store fail the task. `meta` is
    /// the text of the library description that the command names.
    pub fn declare_outputs(&mut self, t: &Task, meta: Option<&str>) -> (r: Result<
        Vec<String>,
        DerivationError,
    >)
        requires
            old(self)@.drv.outputs.len() == 0,
        ensures
            match r {
                Ok(v) => views::texts(v@) == all_outputs(*t, views::opt_str(meta)) && names_apart(
                    all_outputs(*t, views::opt_str(meta)),
                ) && final(self)@ == (StageView {
                    drv: DrvView {
                        outputs: named_outputs(all_outputs(*t, views::opt_str(meta))),
                        ..old(self)@.drv
                    },
                    ..old(self)@
                }),
                Err(e) => final(self)@ == old(self)@ && !names_apart(
                    all_outputs(*t, views::opt_str(meta)),
                ) && second_of_name(e, all_outputs(*t, views::opt_str(meta))),
            },
    {
        let outs = path::dedup_paths(&t.outputs);
        let cmd = match &t.cmdline {
            Some(c) => Some(c.as_str()),
            None => None,
        };
        let more = outputs::undeclared_outputs(&outs, cmd, t.build_dir.as_str(), meta);
        let dep = task::accepted_depfile_output(t);
        let dep_str = match &dep {
            Some(d) => Some(d.as_str()),
            None => None,
        };
        let paths = outputs::task_output_paths(&t.outputs, &more, dep_str, t.verbose);
        let ghost all = views::texts(paths@);
        let ghost want = named_outputs(all);
        let mut named: Vec<(String, OutputKind)> = Vec::new();
        assert(output_views(named@) =~= want.take(0));
        for i in 0..paths.len()
            invariant
                all == views::texts(paths@),
                all == all_outputs(*t, views::opt_str(meta)),
                want == named_outputs(all),
                self@ == old(self)@,
                output_views(named@) == want.take(i as int),
                names_apart(all.take(i as int)),
        {
            assert(all[i as int] == paths@[i as int]@);
            let name = shapes::normalize_output(paths[i].as_str());
            assert(named@.len() == i) by {
                assert(output_views(named@).len() == want.take(i as int).len());
            }
            let mut taken = false;
            for j in 0..named.len()
                invariant
                    i < all.len(),
                    named@.len() == i,
                    want == named_outputs(all),
                    output_views(named@) == want.take(i as int),
                    name@ == shapes::store_name(all[i as int]),
                    taken == (exists|k: int|
                        0 <= k < j && shapes::store_name(#[trigger] all[k]) == name@),
            {
                assert(output_views(named@)[j as int] == (named@[j as int].0@, named@[j as int].1));
                assert(want.take(i as int)[j as int] == want[j as int]);
                assert(named@[j as int].0@ == shapes::store_name(all[j as int]));
                if text::same_str(named[j].0.as_str(), name.as_str()) {
                    taken = true;
                }
            }
            if taken {
                proof {
                    let k = choose|k: int|
                        0 <= k < i && shapes::store_name(#[trigger] all[k]) == name@;
                    assert(all.take(i + 1)[k] == all[k]);
                    assert(all.take(i + 1)[i as int] == all[i as int]);
                    assert(!names_apart(all.take(i + 1)));
                    assert(!names_apart(all));
                }
                return Err(DerivationError::NameTaken { name, path: paths[i].clone() });
            }
            let ghost before = output_views(named@);
            named.push((name, OutputKind::Archive));
            proof {
                assert(output_views(named@) =~= before.push(want[i as int]));
                assert(want.take(i + 1) =~= want.take(i as int).push(want[i as int]));
                let now = all.take(i + 1);
                assert forall|a: int, b: int| 0 <= a < b < now.len() implies shapes::store_name(
                    #[trigger] now[a],
                ) != shapes::store_name(#[trigger] now[b]) by {
                    if b < i {
                        assert(all.take(i as int)[a] == now[a]);
                        assert(all.take(i as int)[b] == now[b]);
                    } else {
                        assert(now[a] == all[a]);
                    }
                }
            }
        }
        assert(all.take(all.len() as int) =~= all);
        assert(want.take(want.len() as int) =~= want);
        self.drv.outputs = named;
        Ok(paths)
    }

    /// Tells the task of its outputs; `placeholders` stand for their store paths.
    pub fn encode_outputs(&mut self, paths: &Vec<String>, placeholders: &Vec<String>)
        ensures
            final(self)@ == with_env(
                old(self)@,
                old(self)@.drv.env.insert(
                    "NIX_NINJA_OUTPUTS"@,
                    text::join(
                        output_texts(views::texts(placeholders@), views::texts(paths@)),
                        " "@,
                    ),
                ),
            ),
    {
        let ghost ps = views::texts(paths@);
        let ghost hs = views::texts(placeholders@);
        let ghost want = output_texts(hs, ps);
        let n: usize = if placeholders.len() < paths.len() {
            placeholders.len()
        } else {
            paths.len()
        };
        let mut v: Vec<String> = Vec::new();
        assert(views::texts(v@) =~= want.take(0));
        for i in 0..n
            invariant
                n <= paths.len(),
                n <= placeholders.len(),
                n == want.len(),
                ps == views::texts(paths@),
                hs == views::texts(placeholders@),
                want == output_texts(hs, ps),
                views::texts(v@) == want.take(i as int),
        {
            let mut c = text::chars_of(placeholders[i].as_str());
            text::append_str(&mut c, ":");
            text::append_str(&mut c, paths[i].as_str());
            text::append_str(&mut c, ":");
            let rel = path::store_rel_path(paths[i].as_str());
            text::append_str(&mut c, rel.as_str());
            v.push(text::string_of(&c));
            assert(want[i as int] == c@);
            assert(want.take(i + 1) =~= want.take(i as int).push(want[i as int]));
        }
        assert(want.take(want.len() as int) =~= want);
        let s = text::joined_strings(&v, " ");
        self.drv.env.set("NIX_NINJA_OUTPUTS", s.as_str());
    }

    /// Tells the task of its log, its dependency file and its response file.
    pub fn set_files(&mut self, t: &Task, rewrite_map: &Vec<(String, String)>)
        ensures
            final(self)@ == with_env(
                old(self)@,
                file_env(old(self)@.drv.env, *t, views::pairs(rewrite_map@)),
            ),
    {
        if t.verbose {
            let p = outputs::verbose_log_path(&t.outputs);
            self.drv.env.set("NIX_NINJA_VERBOSE_LOG", p.as_str());
        }
        if let Some(d) = task::accepted_depfile_output(t) {
            let n = shapes::normalize_output(d.as_str());
            self.drv.env.set("NIX_NINJA_DEPFILE", n.as_str());
        }
        match &t.rspfile {
            Some((p, c)) => {
                self.drv.env.set("NIX_NINJA_RSPFILE_PATH", p.as_str());
                let content = rewrite::rewrite_str(c.as_str(), rewrite_map.as_slice());
                self.drv.env.set("NIX_NINJA_RSPFILE_CONTENT", content.as_str());
                self.drv.env.set(
                    "passAsFile",
                    "NIX_NINJA_INPUTS NIX_NINJA_OUTPUTS NIX_NINJA_RSPFILE_CONTENT",
                );
            },
            None => {
                self.drv.env.set("passAsFile", "NIX_NINJA_INPUTS NIX_NINJA_OUTPUTS");
            },
        }
    }

    /// The program that the command runs.
    pub fn program(&self) -> (r: Result<String, DerivationError>)
        ensures
            match r {
                Ok(p) => command::program_of(text::words(self@.cmdline)) == Some(p@),
                Err(e) => command::program_of(text::words(self@.cmdline)) is None
                    && e is NoProgram,
            },
    {
        match command::command_program(self.cmdline.as_str()) {
            Some(p) => Ok(p),
            None => Err(DerivationError::NoProgram),
        }
    }

    /// Sets the search path, and makes the packages beyond the tools inputs.
    pub fn set_path(&mut self, tools: &Tools, extra: &Vec<String>) -> (r: Result<
        (),
        DerivationError,
    >)
        ensures
            match r {
                Ok(_) => tools.cc matches Some(cc) && final(self)@ == (StageView {
                    drv: DrvView {
                        inputs: sets::with_opaque(
                            old(self)@.drv.inputs,
                            views::texts(extra@),
                        ),
                        env: old(self)@.drv.env.insert(
                            "PATH"@,
                            search_path(search_packages(*tools, cc@, views::texts(extra@))),
                        ),
                        ..old(self)@.drv
                    },
                    ..old(self)@
                }),
                Err(e) => tools.cc is None && e is NoCompiler && final(self)@ == old(self)@,
            },
    {
        let cc = match tools.require_cc() {
            Ok(c) => c,
            Err(e) => {
                return Err(e);
            },
        };
        let mut v: Vec<String> = Vec::new();
        v.push(bin_dir(tools.bash.as_str()));
        v.push(bin_dir(cc.as_str()));
        v.push(bin_dir(tools.coreutils.as_str()));
        v.push(bin_dir(tools.patchelf.as_str()));
        let ghost first = seq![tools.bash@, cc@, tools.coreutils@, tools.patchelf@];
        let ghost f = |p: Seq<char>| bin_of(p);
        assert(views::texts(v@) =~= first.map_values(f));
        push_bins(&mut v, &tools.script_tools);
        push_bins(&mut v, extra);
        proof {
            let a = views::texts(tools.script_tools@);
            let b = views::texts(extra@);
            assert(first.map_values(f) + a.map_values(f) + b.map_values(f) =~= (first + a
                + b).map_values(f));
        }
        let s = text::joined_strings(&v, ":");
        self.drv.inputs.insert_all_opaque(extra);
        self.drv.env.set("PATH", s.as_str());
        Ok(())
    }
}

/// The stage with store paths as inputs.
pub open spec fn with_store_paths(s: StageView, ps: Seq<Seq<char>>) -> StageView {
    StageView {
        drv: DrvView { inputs: sets::with_opaque(s.drv.inputs, ps), ..s.drv },
        ..s
    }
}

/// The stage with another environment.
pub open spec fn with_env(s: StageView, env: Map<Seq<char>, Seq<char>>) -> StageView {
    StageView { drv: DrvView { env, ..s.drv }, ..s }
}

/// The directory of a package's programs.
fn bin_dir(package: &str) -> (r: String)
    ensures
        r@ == bin_of(package@),
{
    let mut c = text::chars_of(package);
    text::append_str(&mut c, "/bin");
    text::string_of(&c)
}

fn push_bins(v: &mut Vec<String>, packages: &Vec<String>)
    ensures
        views::texts(final(v)@) == views::texts(old(v)@) + views::texts(packages@).map_values(
            |p: Seq<char>| bin_of(p),
        ),
{
    let ghost before = views::texts(v@);
    let ghost all = views::texts(packages@).map_values(|p: Seq<char>| bin_of(p));
    assert(views::texts(v@) =~= before + all.take(0));
    for i in 0..packages.len()
        invariant
            all == views::texts(packages@).map_values(|p: Seq<char>| bin_of(p)),
            views::texts(v@) == before + all.take(i as int),
    {
        v.push(bin_dir(packages[i].as_str()));
        assert((before + all.take(i as int)).push(bin_of(packages@[i as int]@)) =~= before
            + all.take(i + 1));
    }
    assert(all.take(all.len() as int) =~= all);
}

// ---------------------------------------------------------------------------
// What else a command needs on its search path
// ---------------------------------------------------------------------------

/// The linker that a word asks for, where it is not the compiler's own.
pub open spec fn linker_of(w: Seq<char>) -> Option<Seq<char>> {
    match text::without_prefix(w, "-fuse-ld="@) {
        Some(s) => {
            let name = text::trim(s, Class::Quote);
            if name.len() == 0 || name == "bfd"@ {
                None
            } else {
                Some(name)
            }
        },
        None => None,
    }
}

/// The linkers that words ask for.
pub open spec fn linkers_of(ws: Seq<Seq<char>>) -> Seq<Seq<char>>
    decreases ws.len(),
{
    if ws.len() == 0 {
        Seq::empty()
    } else {
        match linker_of(ws.last()) {
            Some(n) => linkers_of(ws.drop_last()).push(n),
            None => linkers_of(ws.drop_last()),
        }
    }
}

/// The linkers that a command asks for, where they are not the compiler's own.
pub fn linker_names(cmdline: &str) -> (r: Vec<String>)
    ensures
        views::texts(r@) == linkers_of(text::words(cmdline@)),
{
    let ws = text::words_of_str(cmdline);
    let ghost all = views::pieces(ws@);
    let mut out: Vec<String> = Vec::new();
    assert(views::texts(out@) =~= linkers_of(all.take(0)));
    for i in 0..ws.len()
        invariant
            all == views::pieces(ws@),
            views::texts(out@) == linkers_of(all.take(i as int)),
    {
        assert(all.take(i + 1).drop_last() =~= all.take(i as int));
        assert(all.take(i + 1).last() == ws@[i as int]@);
        if let Some(s) = text::strip_lit(&ws[i], "-fuse-ld=") {
            let name = text::trimmed(&s, Class::Quote);
            if name.len() > 0 && !text::is_lit(&name, "bfd") {
                out.push(text::string_of(&name));
            }
        }
    }
    assert(all.take(all.len() as int) =~= all);
    out
}

/// The names under which a linker is looked up.
pub fn linker_programs(name: &str) -> (r: (String, String))
    ensures
        r.0@ == "ld."@ + name@,
        r.1@ == name@,
{
    let mut c = text::chars_of("ld.");
    text::append_str(&mut c, name);
    let n = text::chars_of(name);
    (text::string_of(&c), text::string_of(&n))
}

/// The program is an input of the task, under its own spelling or as seen from
/// the build directory.
pub open spec fn is_input(build_dir: Seq<char>, fs: Seq<FileView>, program: Seq<char>) -> bool {
    let rel = match path::relative(program, build_dir) {
        Some(r) => r,
        None => program,
    };
    exists|i: int|
        0 <= i < fs.len() && (path::same_path((#[trigger] fs[i]).build_path, rel)
            || path::same_path(fs[i].build_path, program))
}

/// Whether a program that is not found on the search path is an input of the
/// task: then the task brings it along.
pub fn program_is_input(t: &Task, program: &str) -> (r: bool)
    ensures
        r == is_input(t.build_dir@, derived::files(t.inputs@), program@),
{
    let ghost all = derived::files(t.inputs@);
    let rel = match path::relative_from(program, t.build_dir.as_str()) {
        Some(r) => r,
        None => {
            let c = text::chars_of(program);
            text::string_of(&c)
        },
    };
    for i in 0..t.inputs.len()
        invariant
            all == derived::files(t.inputs@),
            rel@ == match path::relative(program@, t.build_dir@) {
                Some(r) => r,
                None => program@,
            },
            forall|j: int|
                0 <= j < i ==> !path::same_path((#[trigger] all[j]).build_path, rel@)
                    && !path::same_path(all[j].build_path, program@),
    {
        assert(all[i as int] == t.inputs@[i as int]@);
        if path::eq_path(t.inputs[i].build_path.as_str(), rel.as_str()) || path::eq_path(
            t.inputs[i].build_path.as_str(),
            program,
        ) {
            return true;
        }
    }
    false
}

// ---------------------------------------------------------------------------
// Tasks whose inputs are only known once others are built
// ---------------------------------------------------------------------------

/// How a task goes on once it has a derivation.
#[derive(Debug, Clone, Copy, PartialEq, Eq)]
pub enum Handling {
    /// The derivation is added as it is.
    Plain,
    /// A derivation is added that discovers the dependencies when it is built.
    Dynamic,
    /// The inputs are built now, and the dependencies discovered from them.
    Local,
}

/// How a task goes on: where its dependencies depend on files that are yet to
/// be built, that is left to a derivation if the run itself is one, and done
/// at once if not.
pub fn handling(built_inputs: usize, is_output_derivation: bool) -> (r: Handling)
    ensures
        r == if built_inputs == 0 {
            Handling::Plain
        } else if is_output_derivation {
            Handling::Dynamic
        } else {
            Handling::Local
        },
{
    if built_inputs == 0 {
        Handling::Plain
    } else if is_output_derivation {
        Handling::Dynamic
    } else {
        Handling::Local
    }
}

/// The path that stands for a task, given where its derivation, or the one
/// that makes its derivation, is in the store.
pub fn handled_path(how: Handling, drv_path: &str) -> (r: DerivedPath)
    ensures
        r@ == match how {
            Handling::Dynamic => derived::built_path(derived::opaque_path(drv_path@), "out"@),
            _ => derived::opaque_path(drv_path@),
        },
{
    let p = DerivedPath::opaque(drv_path);
    match how {
        Handling::Dynamic => DerivedPath::built(&p, "out"),
        _ => p,
    }
}

/// How many of some files are headers.
pub open spec fn headers_among(fs: Seq<FileView>) -> nat
    decreases fs.len(),
{
    if fs.len() == 0 {
        0
    } else if shapes::is_header(fs.last().build_path) {
        headers_among(fs.drop_last()) + 1
    } else {
        headers_among(fs.drop_last())
    }
}

/// How many of some files are headers.
pub fn count_headers(fs: &Vec<DerivedFile>) -> (r: usize)
    ensures
        r == headers_among(derived::files(fs@)),
{
    let ghost all = derived::files(fs@);
    let mut n: usize = 0;
    for i in 0..fs.len()
        invariant
            all == derived::files(fs@),
            n <= i,
            n == headers_among(all.take(i as int)),
    {
        assert(all.take(i + 1).drop_last() =~= all.take(i as int));
        assert(all.take(i + 1).last() == fs@[i as int]@);
        if shapes::header_like(fs[i].build_path.as_str()) {
            n += 1;
        }
    }
    assert(all.take(all.len() as int) =~= all);
    n
}

/// The name of the derivation that makes another one.
pub open spec fn dynamic_name(name: Seq<char>) -> Seq<char> {
    name + ".drv"@
}

/// The name of the text that holds a derivation for the one that completes it.
pub fn drv_json_name(name: &str) -> (r: String)
    ensures
        r@ == "drv-"@ + name@ + ".json"@,
{
    let mut c = text::chars_of("drv-");
    text::append_str(&mut c, name);
    text::append_str(&mut c, ".json");
    text::string_of(&c)
}

/// The texts of encoded files.
pub open spec fn texts_of(es: Seq<EncodedView>) -> Seq<Seq<char>> {
    es.map_values(|e: EncodedView| e.text)
}

/// The derived paths of encoded files put into a set.
pub open spec fn with_files(s: Set<PathView>, es: Seq<EncodedView>) -> Set<PathView>
    decreases es.len(),
{
    if es.len() == 0 {
        s
    } else {
        with_files(s, es.drop_last()).insert(es.last().file.derived_path)
    }
}

/// The environment of a derivation that makes another one.
pub open spec fn dynamic_env(
    name: Seq<char>,
    es: Seq<Seq<char>>,
    placeholder: Seq<char>,
    src: Seq<char>,
    nix: Seq<char>,
) -> Map<Seq<char>, Seq<char>> {
    Map::empty().insert("NIX_NINJA_INPUTS"@, text::join(es, " "@)).insert(
        "passAsFile"@,
        "NIX_NINJA_INPUTS"@,
    ).insert("out"@, placeholder).insert("name"@, dynamic_name(name)).insert("src"@, src).insert(
        "PATH"@,
        bin_of(nix),
    ).insert(
        "NIX_CONFIG"@,
        "extra-experimental-features = nix-command ca-derivations dynamic-derivations"@,
    ).insert("requiredSystemFeatures"@, "builder-rpc-v0"@)
}

/// The encoded texts in the order in which the task is told of them: by build
/// path, then by text, each as often as it stands.
pub open spec fn told(ts: Seq<Seq<char>>) -> Seq<Seq<char>> {
    crate::order::sorted(sets::encoded_rows(ts)).map_values(|r: crate::order::Row| r[1])
}

fn tell(es: &Vec<Encoded>) -> (r: Vec<String>)
    ensures
        views::texts(r@) == told(texts_of(encoded_views(es@))),
{
    let ghost ts = texts_of(encoded_views(es@));
    let ghost want = sets::encoded_rows(ts);
    let mut rows: Vec<Vec<String>> = Vec::new();
    assert(crate::order::rows(rows@) =~= crate::order::sorted(want.take(0)));
    for i in 0..es.len()
        invariant
            ts == texts_of(encoded_views(es@)),
            want == sets::encoded_rows(ts),
            crate::order::rows(rows@) == crate::order::sorted(want.take(i as int)),
    {
        proof {
            assert(want.take(i + 1).drop_last() =~= want.take(i as int));
            assert(want.take(i + 1).last() == sets::encoded_row(es@[i as int].text@));
        }
        let mut row: Vec<String> = Vec::new();
        row.push(sets::encoded_build_path(es[i].text.as_str()));
        row.push(es[i].text.clone());
        assert(views::texts(row@) =~= sets::encoded_row(es@[i as int].text@));
        crate::order::put_row(&mut rows, row);
    }
    let ghost sorted = crate::order::sorted(want);
    proof {
        assert(want.take(want.len() as int) =~= want);
        crate::order::sorted_is_ordered(want);
        assert forall|i: int| 0 <= i < sorted.len() implies (#[trigger] sorted[i]).len() == 2 by {
            crate::order::sorted_keeps_rows(want, sorted[i]);
            assert(sorted.contains(sorted[i]));
            let j = choose|j: int| 0 <= j < want.len() && want[j] == sorted[i];
            assert(want[j] == sets::encoded_row(ts[j]));
        }
    }
    let ghost all = told(ts);
    let mut out: Vec<String> = Vec::new();
    assert(views::texts(out@) =~= all.take(0));
    for i in 0..rows.len()
        invariant
            crate::order::rows(rows@) == sorted,
            all == sorted.map_values(|r: crate::order::Row| r[1]),
            forall|j: int| 0 <= j < sorted.len() ==> (#[trigger] sorted[j]).len() == 2,
            views::texts(out@) == all.take(i as int),
    {
        assert(sorted[i as int] == views::texts(rows@[i as int]@));
        assert(sorted[i as int].len() == 2);
        assert(rows@[i as int]@.len() == 2);
        out.push(rows[i][1].clone());
        assert(all.take(i + 1) =~= all.take(i as int).push(all[i as int]));
    }
    assert(all.take(all.len() as int) =~= all);
    out
}

/// The derivation that makes a task's derivation once the inputs are built from
/// which the task's dependencies are discovered. `src` is the source's store
/// path, `drv_json` the text that holds the derivation so far.
pub fn build_dynamic_task_derivation(
    tools: &Tools,
    name: &str,
    platform: &str,
    built_inputs: &Vec<Encoded>,
    placeholder: &str,
    src: &str,
    drv_json: &str,
) -> (r: Derivation)
    ensures
        r@ == (DrvView {
            name: dynamic_name(name@),
            platform: platform@,
            builder: tools.nix_ninja@ + "/bin/nix-ninja"@,
            args: seq!["-t"@, "dynamic-task"@, drv_json@],
            env: dynamic_env(
                name@,
                told(texts_of(encoded_views(built_inputs@))),
                placeholder@,
                src@,
                tools.nix@,
            ),
            inputs: with_files(
                Set::empty().insert(derived::opaque_path(tools.nix_ninja@)).insert(
                    derived::opaque_path(tools.nix@),
                ),
                encoded_views(built_inputs@),
            ).insert(derived::opaque_path(src@)).insert(derived::opaque_path(drv_json@)),
            outputs: seq![("out"@, OutputKind::Text)],
        }),
{
    let mut n = text::chars_of(name);
    text::append_str(&mut n, ".drv");
    let p = text::chars_of(platform);
    let mut b = text::chars_of(tools.nix_ninja.as_str());
    text::append_str(&mut b, "/bin/nix-ninja");
    let mut drv = Derivation::new(
        text::string_of(&n),
        text::string_of(&p),
        text::string_of(&b),
    );
    drv.inputs.insert_opaque(tools.nix_ninja.as_str());
    drv.inputs.insert_opaque(tools.nix.as_str());
    let ghost before = drv.inputs@;
    let ghost all = encoded_views(built_inputs@);
    let ghost shell = drv;
    assert(all.take(0) =~= Seq::<EncodedView>::empty());
    for i in 0..built_inputs.len()
        invariant
            all == encoded_views(built_inputs@),
            drv.inputs@ == with_files(before, all.take(i as int)),
            drv.name == shell.name,
            drv.platform == shell.platform,
            drv.builder == shell.builder,
            drv.args == shell.args,
            drv.env == shell.env,
            drv.outputs == shell.outputs,
    {
        assert(all.take(i + 1).drop_last() =~= all.take(i as int));
        assert(all.take(i + 1).last() == built_inputs@[i as int]@);
        drv.inputs.insert(&built_inputs[i].file.derived_path);
    }
    assert(all.take(all.len() as int) =~= all);
    drv.inputs.insert_opaque(src);
    drv.inputs.insert_opaque(drv_json);
    let es = tell(built_inputs);
    let s = text::joined_strings(&es, " ");
    drv.env.set("NIX_NINJA_INPUTS", s.as_str());
    drv.env.set("passAsFile", "NIX_NINJA_INPUTS");
    drv.env.set("out", placeholder);
    let dn = text::string_of(&n);
    drv.env.set("name", dn.as_str());
    drv.env.set("src", src);
    let bin = bin_dir(tools.nix.as_str());
    drv.env.set("PATH", bin.as_str());
    drv.env.set(
        "NIX_CONFIG",
        "extra-experimental-features = nix-command ca-derivations dynamic-derivations",
    );
    drv.env.set("requiredSystemFeatures", "builder-rpc-v0");
    let a0 = text::chars_of("-t");
    drv.args.push(text::string_of(&a0));
    let a1 = text::chars_of("dynamic-task");
    drv.args.push(text::string_of(&a1));
    let a2 = text::chars_of(drv_json);
    drv.args.push(text::string_of(&a2));
    assert(views::texts(drv.args@) =~= seq!["-t"@, "dynamic-task"@, drv_json@]);
    let o = text::chars_of("out");
    drv.outputs.push((text::string_of(&o), OutputKind::Text));
    assert(output_views(drv.outputs@) =~= seq![("out"@, OutputKind::Text)]);
    drv
}

// ---------------------------------------------------------------------------
// Laws
// ---------------------------------------------------------------------------

/// A list to which paths are added keeps what it has.
proof fn with_paths_keeps(ps: Seq<Seq<char>>, more: Seq<Seq<char>>, i: int)
    requires
        0 <= i < ps.len(),
    ensures
        i < outputs::with_paths(ps, more).len(),
        outputs::with_paths(ps, more)[i] == ps[i],
    decreases more.len(),
{
    if more.len() > 0 {
        with_paths_keeps(ps, more.drop_last(), i);
    }
}

/// Every declared output of a task is an output of its derivation, under the
/// name by which later tasks ask for it; where no output is declared under two
/// spellings.
pub proof fn declared_outputs_are_built(
    outs: Seq<Seq<char>>,
    more: Seq<Seq<char>>,
    depfile: Option<Seq<char>>,
    verbose: bool,
    drv: PathView,
    i: int,
)
    requires
        0 <= i < outs.len(),
        forall|a: int, b: int|
            0 <= a < outs.len() && 0 <= b < outs.len() && path::same_path(
                #[trigger] outs[a],
                #[trigger] outs[b],
            ) ==> outs[a] == outs[b],
    ensures
        named_outputs(outputs::derivation_outputs(outs, more, depfile, verbose)).contains(
            (derived::built_file(drv, outs[i]).derived_path.outputs.last(), OutputKind::Archive),
        ),
{
    let first = path::first_paths(outs);
    path::first_paths_cover(outs);
    assert(path::listed(first, outs[i]));
    let j = choose|j: int| 0 <= j < first.len() && path::same_path(#[trigger] first[j], outs[i]);
    assert(outs.contains(first[j]));
    let k = choose|k: int| 0 <= k < outs.len() && outs[k] == first[j];
    assert(path::same_path(outs[k], outs[i]));
    assert(first[j] == outs[i]);
    with_paths_keeps(first, more, j);
    let all = outputs::derivation_outputs(outs, more, depfile, verbose);
    assert(all[j] == outs[i]);
    assert(named_outputs(all)[j] == (shapes::store_name(outs[i]), OutputKind::Archive));
}

/// A variable that is forwarded and holds an absolute path brings that path's
/// store object along: nothing is forwarded that the task could not reach.
pub proof fn forwarded_paths_are_inputs(
    s: StageView,
    store_dir: Seq<char>,
    name: Seq<char>,
    value: Seq<char>,
)
    requires
        can_forward(store_dir, Some(value)),
        path::is_abs(value),
    ensures
        store::object_of(store_dir, value) matches Some(o) && forwarded(
            s,
            store_dir,
            name,
            value,
        ).drv.inputs.contains(derived::opaque_path(o)),
{
}

/// Adding inputs never takes one away.
pub proof fn inputs_grow(s: StageView, es: Seq<EncodedView>, p: PathView)
    requires
        s.drv.inputs.contains(p),
    ensures
        with_inputs(s, es).drv.inputs.contains(p),
        with_new_inputs(s, es).drv.inputs.contains(p),
    decreases es.len(),
{
    if es.len() > 0 {
        inputs_grow(s, es.drop_last(), p);
    }
}

/// Every declared input is an input of the derivation, and the task is told of
/// it, as it is of every discovered one.
pub proof fn told_of_inputs(s: StageView, es: Seq<EncodedView>, i: int)
    requires
        0 <= i < es.len(),
    ensures
        with_inputs(s, es).drv.inputs.contains(es[i].file.derived_path),
        with_inputs(s, es).encoded.contains(es[i].text),
        with_new_inputs(s, es).encoded.contains(es[i].text),
    decreases es.len(),
{
    if i < es.len() - 1 {
        told_of_inputs(s, es.drop_last(), i);
    }
}

/// Outside of the sandbox's own tree, a task runs in a directory that has, below
/// `/build/source`, as many levels as the task climbs, and these are called as
/// the last levels of the build directory are.
pub proof fn run_dir_is_deep_enough(build_dir: Seq<char>, climb: nat)
    requires
        !path::under(build_dir, "/build/"@),
        0 < climb < path::comps(build_dir).len(),
    ensures
        run_dir(build_dir, climb) matches Some(d) && path::comps(d) == seq![
            path::root(),
            "build"@,
            "source"@,
        ] + path::comps(build_dir).skip(path::comps(build_dir).len() - climb),
{
    let cs = path::comps(build_dir);
    let tail = cs.skip(cs.len() - climb);
    let base = seq![path::root(), "build"@, "source"@];
    reveal_strlit("/build/source");
    reveal_strlit("build");
    reveal_strlit("source");
    path::comps_well_placed(build_dir);
    assert forall|i: int| 0 <= i < tail.len() implies #[trigger] tail[i] == cs[cs.len() - climb + i] by {}
    let a = base.drop_last();
    let b = a.drop_last();
    assert(b.drop_last() =~= Seq::<Seq<char>>::empty());
    assert(path::render(b.drop_last()) =~= Seq::<char>::empty());
    assert(path::render(b) =~= path::root());
    assert(path::render(a) =~= path::root() + "build"@);
    assert(path::render(base) =~= "/build/source"@);
    path::comps_below("/build/source"@, base, tail);
}

/// The texts that are there are all kept, in their order.
pub proof fn what_is_found_is_kept(v: Seq<Option<String>>, s: String)
    ensures
        present(Seq::empty()).len() == 0,
        present(v.push(Some(s))) == present(v).push(s@),
        present(v.push(None)) == present(v),
{
    assert(v.push(Some(s)).drop_last() =~= v);
    assert(v.push(None).drop_last() =~= v);
}

/// A task compiles for link-time optimisation where it reports its headers as
/// gcc does and its command or its wrapper's flags say so; no other task does.
pub proof fn only_compilations_keep_real_paths(t: Task, cmdline: Seq<char>, assumed: bool)
    ensures
        views::opt_text(t.deps) != Some("gcc"@) ==> !is_lto(t, cmdline, assumed),
        views::opt_text(t.deps) == Some("gcc"@) && t.wrapper_vars@.contains_key(
            "NIX_CFLAGS_COMPILE"@,
        ) ==> is_lto(t, cmdline, assumed) == command::compiles_lto(
            cmdline,
            Some(t.wrapper_vars@["NIX_CFLAGS_COMPILE"@]),
            assumed,
        ),
        views::opt_text(t.deps) == Some("gcc"@) && !t.wrapper_vars@.contains_key(
            "NIX_CFLAGS_COMPILE"@,
        ) ==> is_lto(t, cmdline, assumed) == command::compiles_lto(cmdline, None, assumed),
{
}

/// A linker is asked for by its name, quoted or not; the compiler's own is none.
pub proof fn linkers_are_asked_for_by_name(lead: Seq<char>, name: Seq<char>, trail: Seq<char>)
    requires
        forall|i: int| 0 <= i < lead.len() ==> lead[i] == '"' || #[trigger] lead[i] == '\'',
        forall|i: int| 0 <= i < trail.len() ==> trail[i] == '"' || #[trigger] trail[i] == '\'',
        name.len() > 0,
        name[0] != '"' && name[0] != '\'',
        name.last() != '"' && name.last() != '\'',
    ensures
        linker_of("-fuse-ld="@ + (lead + name + trail)) == if name == "bfd"@ {
            None
        } else {
            Some(name)
        },
        linker_of("-fuse-ld="@ + lead) is None,
        !"-fuse-ld="@.is_prefix_of(name) ==> linker_of(name) is None,
{
    let k = "-fuse-ld="@;
    let v = lead + name + trail;
    assert(k.is_prefix_of(k + v) && k.is_prefix_of(k + lead));
    assert((k + v).skip(k.len() as int) =~= v);
    assert((k + lead).skip(k.len() as int) =~= lead);
    text::trim_leaves(lead, name, trail, Class::Quote);
    text::nothing_is_left(lead, Class::Quote);
}

/// Every word of a command is looked at for a linker, in their order.
pub proof fn every_linker_is_listed(a: Seq<Seq<char>>, w: Seq<char>, b: Seq<Seq<char>>)
    ensures
        linkers_of(a + b) == linkers_of(a) + linkers_of(b),
        linkers_of(seq![w]) == match linker_of(w) {
            Some(n) => seq![n],
            None => Seq::<Seq<char>>::empty(),
        },
    decreases b.len(),
{
    reveal_with_fuel(linkers_of, 2);
    assert(seq![w].drop_last() =~= Seq::<Seq<char>>::empty());
    if linker_of(w) is Some {
        assert(linkers_of(seq![w]) =~= seq![linker_of(w)->0]);
    }
    if b.len() == 0 {
        assert(a + b =~= a);
        assert(linkers_of(a) + linkers_of(b) =~= linkers_of(a));
    } else {
        every_linker_is_listed(a, w, b.drop_last());
        assert((a + b).drop_last() =~= a + b.drop_last());
        assert((a + b).last() == b.last());
        assert(linkers_of(a + b) =~= linkers_of(a) + linkers_of(b));
    }
}

/// A program is an input where some input lies at its place, as it is spelled or
/// as it is seen from the build directory; other inputs do not matter.
pub proof fn inputs_are_programs(
    build_dir: Seq<char>,
    a: Seq<FileView>,
    f: FileView,
    b: Seq<FileView>,
    program: Seq<char>,
)
    ensures
        is_input(build_dir, a + seq![f] + b, program) <==> is_input(build_dir, a, program)
            || is_input(build_dir, b, program) || path::comps(f.build_path) == path::comps(program)
            || (path::relative(program, build_dir) is Some && path::comps(f.build_path)
            == path::comps(path::relative(program, build_dir)->0)),
        !is_input(build_dir, Seq::empty(), program),
{
    let s = a + seq![f] + b;
    let rel = match path::relative(program, build_dir) {
        Some(r) => r,
        None => program,
    };
    assert(s[a.len() as int] == f);
    if is_input(build_dir, a, program) {
        let i = choose|i: int|
            0 <= i < a.len() && (path::same_path((#[trigger] a[i]).build_path, rel)
                || path::same_path(a[i].build_path, program));
        assert(s[i] == a[i]);
    }
    if is_input(build_dir, b, program) {
        let i = choose|i: int|
            0 <= i < b.len() && (path::same_path((#[trigger] b[i]).build_path, rel)
                || path::same_path(b[i].build_path, program));
        assert(s[a.len() + 1 + i] == b[i]);
    }
    if is_input(build_dir, s, program) {
        let i = choose|i: int|
            0 <= i < s.len() && (path::same_path((#[trigger] s[i]).build_path, rel)
                || path::same_path(s[i].build_path, program));
        if i < a.len() {
            assert(a[i] == s[i]);
        } else if i > a.len() {
            assert(b[i - a.len() - 1] == s[i]);
        }
    }
}

/// Every header counts once.
pub proof fn every_header_counts(a: Seq<FileView>, f: FileView)
    ensures
        headers_among(Seq::empty()) == 0,
        shapes::is_header(f.build_path) ==> headers_among(a.push(f)) == headers_among(a) + 1,
        !shapes::is_header(f.build_path) ==> headers_among(a.push(f)) == headers_among(a),
{
    assert(a.push(f).drop_last() =~= a);
}

/// A variable with a relative value, or with anything that is no path, can always
/// be forwarded; a path of the store can, unless it is the store itself; an
/// absolute path elsewhere cannot, and neither can a variable that is not set.
pub proof fn values_can_be_forwarded(store_dir: Seq<char>, v: Seq<char>)
    requires
        path::is_abs(store_dir),
    ensures
        !can_forward(store_dir, None),
        !(v.len() > 0 && v[0] == '/') ==> can_forward(store_dir, Some(v)),
        v.len() > 0 && v[0] == '/' && !path::under(v, store_dir) ==> !can_forward(
            store_dir,
            Some(v),
        ),
        path::under(v, store_dir) ==> (can_forward(store_dir, Some(v)) <==> path::comps(v).len()
            > path::comps(store_dir).len()),
{
    store::the_first_component_names_the_object(store_dir, v);
    path::comps_well_placed(v);
    path::comps_well_placed(store_dir);
    if !(v.len() > 0 && v[0] == '/') {
        assert(path::comps(store_dir)[0] == path::root());
        if path::under(v, store_dir) {
            assert(path::comps(v).subrange(0, path::comps(store_dir).len() as int)[0]
                == path::comps(v)[0]);
            path::relative_paths_have_no_root(v);
        }
    }
}

/// The directories that inputs climb through are declared in one variable; every
/// other variable stays as it is.
pub proof fn only_directories_are_declared(
    env: Map<Seq<char>, Seq<char>>,
    build_dir: Seq<char>,
    dirs: Seq<Seq<char>>,
    k: Seq<char>,
)
    ensures
        k != "NIX_NINJA_MKDIRS"@ ==> dotdot_env(env, build_dir, dirs).contains_key(k)
            == env.contains_key(k) && dotdot_env(env, build_dir, dirs)[k] == env[k],
        dotdot_env(env, build_dir, Seq::empty()) == env,
        dirs.len() > 0 && env.contains_key("NIX_NINJA_MKDIRS"@) && discovery::merged_dirs(
            env["NIX_NINJA_MKDIRS"@],
            build_dir,
            dirs,
        ).len() > 0 ==> dotdot_env(env, build_dir, dirs)["NIX_NINJA_MKDIRS"@]
            == discovery::merged_dirs(env["NIX_NINJA_MKDIRS"@], build_dir, dirs),
        dirs.len() > 0 && !env.contains_key("NIX_NINJA_MKDIRS"@) && discovery::merged_dirs(
            Seq::empty(),
            build_dir,
            dirs,
        ).len() > 0 ==> dotdot_env(env, build_dir, dirs).contains_key("NIX_NINJA_MKDIRS"@)
            && dotdot_env(env, build_dir, dirs)["NIX_NINJA_MKDIRS"@] == discovery::merged_dirs(
            Seq::empty(),
            build_dir,
            dirs,
        ),
{
}

/// A discovered input is added where the task was not told of its text yet, and
/// changes nothing else; every input that is declared is added.
pub proof fn new_inputs_are_added(s: StageView, es: Seq<EncodedView>, e: EncodedView)
    ensures
        with_inputs(s, es.push(e)).files == with_inputs(s, es).files.push(e),
        with_inputs(s, es.push(e)).drv.inputs == with_inputs(s, es).drv.inputs.insert(
            e.file.derived_path,
        ),
        with_inputs(s, es.push(e)).encoded == with_inputs(s, es).encoded.insert(e.text),
        with_new_inputs(s, es).encoded.contains(e.text) ==> with_new_inputs(s, es.push(e))
            == with_new_inputs(s, es),
        !with_new_inputs(s, es).encoded.contains(e.text) ==> with_new_inputs(
            s,
            es.push(e),
        ).drv.inputs == with_new_inputs(s, es).drv.inputs.insert(e.file.derived_path)
            && with_new_inputs(s, es.push(e)).files == with_new_inputs(s, es).files.push(e),
        with_inputs(s, Seq::empty()) == s,
        with_new_inputs(s, Seq::empty()) == s,
{
    assert(es.push(e).drop_last() =~= es);
}

/// Everything that the task is told of, and every word of its command, counts for
/// how high it climbs.
pub proof fn inputs_and_words_count(s: StageView, i: int)
    requires
        0 <= i < s.files.len(),
    ensures
        climb::height(s.files[i].file.build_path) <= climb_of(s),
        climb::words_height(text::words(s.cmdline)) <= climb_of(s),
        climb_of(s) == climb::highest(places(s.files)) || climb_of(s) == climb::words_height(
            text::words(s.cmdline),
        ),
{
    climb::piece_is_bounded(places(s.files), i);
    assert(places(s.files)[i] == s.files[i].file.build_path);
}

/// A derivation that makes another one has the files that are built for it as
/// inputs, and is told of every one of them.
pub proof fn built_files_reach_the_other_derivation(
    s: Set<PathView>,
    es: Seq<EncodedView>,
    i: int,
)
    requires
        0 <= i < es.len(),
    ensures
        with_files(s, es).contains(es[i].file.derived_path),
        s.subset_of(with_files(s, es)),
        told(texts_of(es)).contains(es[i].text),
        told(texts_of(es)).len() == es.len(),
    decreases es.len(),
{
    let ts = texts_of(es);
    let rs = sets::encoded_rows(ts);
    let out = crate::order::sorted(rs);
    crate::order::sorted_is_ordered(rs);
    crate::order::sorted_keeps_rows(rs, rs[i]);
    assert(rs.contains(rs[i]));
    let k = choose|k: int| 0 <= k < out.len() && out[k] == rs[i];
    assert(told(ts)[k] == es[i].text);
    built_files_are_inputs(s, es, i);
}

proof fn built_files_are_inputs(s: Set<PathView>, es: Seq<EncodedView>, i: int)
    requires
        0 <= i < es.len(),
    ensures
        with_files(s, es).contains(es[i].file.derived_path),
        s.subset_of(with_files(s, es)),
    decreases es.len(),
{
    let front = es.drop_last();
    if i < front.len() {
        built_files_are_inputs(s, front, i);
        assert(front[i] == es[i]);
    } else if front.len() > 0 {
        built_files_are_inputs(s, front, 0);
    } else {
        assert(with_files(s, front) == s);
    }
}

/// Two outputs of one name in the store are refused, wherever they stand; names
/// that differ are not.
pub proof fn one_name_has_one_output(ps: Seq<Seq<char>>, i: int, j: int)
    requires
        0 <= i < j < ps.len(),
        shapes::store_name(ps[i]) == shapes::store_name(ps[j]),
    ensures
        !names_apart(ps),
{
}

} // verus!
