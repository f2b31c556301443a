//! How a task's derivation is put together: the stages in their order.
use crate::derivation;
use crate::derivation::Derivation;
use crate::derivation::DerivationError;
use crate::derivation::DrvView;
use crate::derivation::Encoded;
use crate::derivation::EncodedView;
use crate::derivation::StageView;
use crate::derivation::TaskDerivation;
use crate::derivation::Tools;
use crate::derived;
use crate::fresh;
use crate::fresh::Fresh;
use crate::inputs;
use crate::inputs::Place;
use crate::path;
use crate::sets;
use crate::task::Task;
use crate::text;
use crate::text::Class;
use crate::views;
use vstd::prelude::*;

verus! {

broadcast use views::texts_push;

/// A variable to forward, with its value where it is set.
pub type Forward = (Seq<char>, Option<Seq<char>>);

/// The variables to forward.
pub open spec fn forwards(v: Seq<(String, Option<String>)>) -> Seq<Forward> {
    v.map_values(|p: (String, Option<String>)| (p.0@, views::opt_text(p.1)))
}

/// Every variable can be forwarded.
pub open spec fn all_forward(store_dir: Seq<char>, ps: Seq<Forward>) -> bool {
    forall|i: int| 0 <= i < ps.len() ==> derivation::can_forward(store_dir, (#[trigger] ps[i]).1)
}

/// The stage in which variables are forwarded, the later over the earlier.
pub open spec fn all_forwarded(s: StageView, store_dir: Seq<char>, ps: Seq<Forward>) -> StageView
    decreases ps.len(),
{
    if ps.len() == 0 {
        s
    } else {
        derivation::forwarded(
            all_forwarded(s, store_dir, ps.drop_last()),
            store_dir,
            ps.last().0,
            ps.last().1->0,
        )
    }
}

/// The error is about the first variable that cannot be forwarded.
pub open spec fn first_refusal(
    e: DerivationError,
    store_dir: Seq<char>,
    ps: Seq<Forward>,
) -> bool {
    exists|i: int|
        0 <= i < ps.len() && all_forward(store_dir, ps.take(i)) && !derivation::can_forward(
            store_dir,
            ps[i].1,
        ) && derivation::refuses(e, store_dir, (#[trigger] ps[i]).0, ps[i].1)
}

/// Forwards the variables that the environment names.
fn forward_all(
    d: &mut TaskDerivation,
    store_dir: &str,
    passed: &Vec<(String, Option<String>)>,
) -> (r: Result<(), DerivationError>)
    ensures
        match r {
            Ok(_) => all_forward(store_dir@, forwards(passed@)) && final(d)@ == all_forwarded(
                old(d)@,
                store_dir@,
                forwards(passed@),
            ),
            Err(e) => !all_forward(store_dir@, forwards(passed@)) && first_refusal(
                e,
                store_dir@,
                forwards(passed@),
            ),
        },
{
    let ghost all = forwards(passed@);
    let ghost before = d@;
    assert(all.take(0) =~= Seq::<Forward>::empty());
    for i in 0..passed.len()
        invariant
            all == forwards(passed@),
            all_forward(store_dir@, all.take(i as int)),
            d@ == all_forwarded(before, store_dir@, all.take(i as int)),
    {
        proof {
            assert(all.take(i + 1).drop_last() =~= all.take(i as int));
            assert(all.take(i + 1).last() == all[i as int]);
            assert(all[i as int] == (passed@[i as int].0@, views::opt_text(passed@[i as int].1)));
        }
        let value = match &passed[i].1 {
            Some(s) => Some(s.as_str()),
            None => None,
        };
        match d.pass_env(store_dir, passed[i].0.as_str(), value) {
            Ok(_) => {
                assert forall|j: int| 0 <= j < i + 1 implies derivation::can_forward(
                    store_dir@,
                    (#[trigger] all.take(i + 1)[j]).1,
                ) by {
                    if j < i {
                        assert(all.take(i + 1)[j] == all.take(i as int)[j]);
                    }
                }
            },
            Err(e) => {
                assert(derivation::refuses(e, store_dir@, all[i as int].0, all[i as int].1));
                return Err(e);
            },
        }
    }
    assert(all.take(all.len() as int) =~= all);
    Ok(())
}

/// The stage at which everything is in it that is known before a discovery.
pub open spec fn gathered(
    tools: Tools,
    t: Task,
    cmdline: Seq<char>,
    cc: Seq<char>,
    maps: (Seq<(Seq<char>, Seq<char>)>, Seq<(Seq<char>, Seq<char>)>),
    assumed: bool,
    ps: Seq<Forward>,
    es: Seq<EncodedView>,
) -> StageView {
    let s = all_forwarded(
        derivation::begun(tools.nix_ninja_task@, t, cmdline, maps.0, maps.1, assumed),
        t.store_dir@,
        ps,
    );
    derivation::with_inputs(
        StageView {
            drv: DrvView {
                inputs: derivation::with_sources(s.drv.inputs, t, tools, cc),
                ..s.drv
            },
            ..s
        },
        es,
    )
}

/// Begins the derivation of a task: its command and variables, the variables
/// `passed` that the environment names, the sources and tools, and the task's
/// `inputs`. What its discovery finds comes on top of that, and then the
/// replacements of uploads. It fails for an alias; else for the first variable
/// that cannot be forwarded; else where there is no compiler.
pub fn begin_task_derivation(
    tools: &Tools,
    t: &Task,
    rewrite_map: &Vec<(String, String)>,
    restore: &Vec<(String, String)>,
    assumed: bool,
    passed: &Vec<(String, Option<String>)>,
    inputs: &Vec<Encoded>,
) -> (r: Result<TaskDerivation, DerivationError>)
    ensures
        match r {
            Ok(d) => t.cmdline is Some && all_forward(t.store_dir@, forwards(passed@)) && tools.cc
                is Some && d@ == gathered(
                *tools,
                *t,
                t.cmdline->0@,
                tools.cc->0@,
                (views::pairs(rewrite_map@), views::pairs(restore@)),
                assumed,
                forwards(passed@),
                derivation::encoded_views(inputs@),
            ),
            Err(e) => if t.cmdline is None {
                e is NoCommand
            } else if !all_forward(t.store_dir@, forwards(passed@)) {
                first_refusal(e, t.store_dir@, forwards(passed@))
            } else {
                tools.cc is None && e is NoCompiler
            },
        },
{
    let mut d = match TaskDerivation::begin(tools, t, rewrite_map, restore, assumed) {
        Ok(d) => d,
        Err(e) => {
            return Err(e);
        },
    };
    match forward_all(&mut d, t.store_dir.as_str(), passed) {
        Ok(_) => {},
        Err(e) => {
            return Err(e);
        },
    }
    match d.add_sources(tools, t) {
        Ok(_) => {},
        Err(e) => {
            return Err(e);
        },
    }
    d.add_inputs(inputs);
    Ok(d)
}

/// The inputs or the command climb higher than the build directory is deep.
pub open spec fn climbs_too_high(s: StageView, build_dir: Seq<char>) -> bool {
    !path::under(build_dir, "/build/"@) && derivation::climb_of(s) > path::comps(build_dir).len()
}

/// The stage whose inputs, links and outputs are told to the task; `es` are the
/// texts of the inputs in their order.
pub open spec fn closed(
    s: StageView,
    t: Task,
    meta: Option<Seq<char>>,
    es: Seq<Seq<char>>,
) -> StageView {
    let env = s.drv.env.insert("NIX_NINJA_INPUTS"@, text::join(es, " "@));
    StageView {
        drv: DrvView {
            args: derivation::with_run_dir(
                s.drv.args,
                derivation::run_dir(t.build_dir@, derivation::climb_of(s)),
            ),
            env: derivation::set_some(
                derivation::set_some(
                    env,
                    "NIX_NINJA_ALIASES"@,
                    derivation::link_texts(views::pairs(t.alias_symlinks@)),
                ),
                "NIX_NINJA_EMPTY_DIRS"@,
                views::texts(t.empty_dirs@),
            ),
            outputs: derivation::named_outputs(derivation::all_outputs(t, meta)),
            ..s.drv
        },
        ..s
    }
}

/// A task's derivation whose inputs are closed and whose outputs are declared.
#[derive(Debug)]
pub struct ClosedDerivation {
    stage: TaskDerivation,
    paths: Vec<String>,
}

impl ClosedDerivation {
    /// What the derivation holds.
    pub closed spec fn stage_view(self) -> StageView {
        self.stage@
    }

    /// The outputs in the order in which they are encoded.
    pub closed spec fn path_views(self) -> Seq<Seq<char>> {
        views::texts(self.paths@)
    }

    /// The outputs that are declared are those that are encoded.
    #[verifier::type_invariant]
    spec fn holds_together(self) -> bool {
        self.stage@.drv.outputs == derivation::named_outputs(views::texts(self.paths@))
    }

    /// The derivation as it stands.
    pub fn stage(&self) -> (r: &TaskDerivation)
        ensures
            r@ == self.stage_view(),
    {
        &self.stage
    }

    /// The outputs in the order in which they are encoded: those that the
    /// derivation declares.
    pub fn paths(&self) -> (r: &Vec<String>)
        ensures
            views::texts(r@) == self.path_views(),
            self.stage_view().drv.outputs == derivation::named_outputs(views::texts(r@)),
    {
        proof {
            use_type_invariant(self);
        }
        &self.paths
    }
}

/// Closes the inputs of a task's derivation and declares its outputs. First the
/// uploads in `fresh` take their places. `meta` is the text of the library
/// description that the command names. It fails where the inputs climb too
/// high; else where two outputs have one name in the store.
pub fn close_task_derivation(
    d: TaskDerivation,
    t: &Task,
    fresh: &Vec<(String, Encoded)>,
    meta: Option<&str>,
) -> (r: Result<ClosedDerivation, DerivationError>)
    requires
        d@.drv.outputs.len() == 0,
    ensures
        ({
            let s = fresh::all_replaced(d@, fresh::all_fresh(fresh@));
            let outs = derivation::all_outputs(*t, views::opt_str(meta));
            match r {
                Ok(c) => {
                    &&& !climbs_too_high(s, t.build_dir@)
                    &&& derivation::names_apart(outs)
                    &&& c.path_views() == outs
                    &&& exists|es: Seq<Seq<char>>| #[trigger]
                        sets::in_order(s.encoded, es) && c.stage_view() == closed(
                            s,
                            *t,
                            views::opt_str(meta),
                            es,
                        )
                },
                Err(e) => if climbs_too_high(s, t.build_dir@) {
                    e matches DerivationError::TooHigh { climb, build_dir, depth } && climb
                        == derivation::climb_of(s) && build_dir@ == t.build_dir@ && depth
                        == path::comps(t.build_dir@).len()
                } else {
                    !derivation::names_apart(outs) && derivation::second_of_name(e, outs)
                },
            }
        }),
{
    let mut c = d;
    c.refresh_all(fresh);
    let ghost s = c@;
    proof {
        fresh::replaced_declare_nothing(d@, fresh::all_fresh(fresh@));
    }
    match c.place_build_dir(t.build_dir.as_str()) {
        Ok(_) => {},
        Err(e) => {
            return Err(e);
        },
    }
    let ghost placed = c@;
    c.set_inputs();
    let ghost es = choose|es: Seq<Seq<char>>| #[trigger]
        sets::in_order(placed.encoded, es) && c@ == derivation::with_env(
            placed,
            placed.drv.env.insert("NIX_NINJA_INPUTS"@, text::join(es, " "@)),
        );
    c.set_links(t);
    match c.declare_outputs(t, meta) {
        Ok(paths) => {
            assert(c@ =~= closed(s, *t, views::opt_str(meta), es));
            assert(sets::in_order(s.encoded, es));
            Ok(ClosedDerivation { stage: c, paths })
        },
        Err(e) => Err(e),
    }
}

// ---------------------------------------------------------------------------
// The packages of the programs that a command runs
// ---------------------------------------------------------------------------

/// The package that a lookup gave, where it gave one.
pub open spec fn one_package(o: Option<String>) -> Seq<Seq<char>> {
    match o {
        Some(s) => seq![s@],
        None => Seq::empty(),
    }
}

/// The package of a program that was looked up.
pub open spec fn program_package(found: Result<Option<String>, String>) -> Seq<Seq<char>> {
    match found {
        Ok(p) => one_package(p),
        Err(_) => Seq::empty(),
    }
}

/// The package of a linker: that of the first of its two names that is found.
pub open spec fn linker_package(found: (Option<String>, Option<String>)) -> Seq<Seq<char>> {
    match found.0 {
        Some(s) => seq![s@],
        None => one_package(found.1),
    }
}

/// The packages of linkers.
pub open spec fn linker_packages(found: Seq<(Option<String>, Option<String>)>) -> Seq<Seq<char>>
    decreases found.len(),
{
    if found.len() == 0 {
        Seq::empty()
    } else {
        linker_packages(found.drop_last()) + linker_package(found.last())
    }
}

/// The programs of a compiler's own package, which the compiler wrapper names
/// in a file whose text is `named_in`.
pub open spec fn toolchain_places(named_in: Seq<char>, names: Seq<Seq<char>>) -> Seq<Seq<char>> {
    let bin = path::joined(text::trim(named_in, Class::Space), "bin"@);
    names.map_values(|n: Seq<char>| path::joined(bin, n))
}

/// Where to look for the tools that a command names in the compiler's own
/// package; `named_in` is the text of the file in which the compiler wrapper
/// names that package.
pub fn toolchain_programs(named_in: &str, names: &Vec<String>) -> (r: Vec<String>)
    ensures
        views::texts(r@) == toolchain_places(named_in@, views::texts(names@)),
{
    let c = text::chars_of(named_in);
    let home = text::trimmed(&c, Class::Space);
    let bin = path::join_str(text::string_of(&home).as_str(), "bin");
    let ghost want = toolchain_places(named_in@, views::texts(names@));
    let mut out: Vec<String> = Vec::new();
    assert(views::texts(out@) =~= want.take(0));
    for i in 0..names.len()
        invariant
            want == toolchain_places(named_in@, views::texts(names@)),
            bin@ == path::joined(text::trim(named_in@, Class::Space), "bin"@),
            views::texts(out@) == want.take(i as int),
    {
        out.push(path::join_str(bin.as_str(), names[i].as_str()));
        assert(want.take(i + 1) =~= want.take(i as int).push(want[i as int]));
    }
    assert(want.take(want.len() as int) =~= want);
    out
}

/// The compiler's own package, where the compiler wrapper names one and some
/// tool that the command names is in it.
pub fn toolchain_package(named_in: Option<&str>, present: &Vec<bool>) -> (r: Option<String>)
    ensures
        views::opt_text(r) == match views::opt_str(named_in) {
            Some(s) => if present@.contains(true) {
                Some(text::trim(s, Class::Space))
            } else {
                None
            },
            None => None,
        },
{
    let s = match named_in {
        Some(s) => s,
        None => {
            return None;
        },
    };
    for i in 0..present.len()
        invariant
            named_in == Some(s),
            forall|j: int| 0 <= j < i ==> present@[j] != true,
    {
        if present[i] {
            assert(present@[i as int] == true);
            let c = text::chars_of(s);
            let home = text::trimmed(&c, Class::Space);
            return Some(text::string_of(&home));
        }
    }
    None
}

fn push_found(v: &mut Vec<String>, o: &Option<String>)
    ensures
        views::texts(final(v)@) == views::texts(old(v)@) + one_package(*o),
{
    let ghost before = views::texts(v@);
    if let Some(s) = o {
        v.push(s.clone());
    }
    assert(views::texts(v@) =~= before + one_package(*o));
}

/// The packages of the programs that a command runs besides the tools: the
/// program itself, the linkers that it asks for, `make` where the linker needs
/// it, and the compiler's own package where the command names its tools. The
/// lookup of the program may fail only where the program is an input of the
/// task; a program outside the store adds nothing.
pub fn extra_packages(
    t: &Task,
    program: &str,
    found: Result<Option<String>, String>,
    linkers: &Vec<(Option<String>, Option<String>)>,
    make: &Option<String>,
    toolchain: &Option<String>,
) -> (r: Result<Vec<String>, String>)
    ensures
        match r {
            Ok(v) => (found is Ok || derivation::is_input(
                t.build_dir@,
                derived::files(t.inputs@),
                program@,
            )) && views::texts(v@) == program_package(found) + linker_packages(linkers@) + one_package(*make) + one_package(*toolchain),
            Err(e) => found == Err::<Option<String>, String>(e) && !derivation::is_input(
                t.build_dir@,
                derived::files(t.inputs@),
                program@,
            ),
        },
{
    let mut v: Vec<String> = Vec::new();
    assert(views::texts(v@) =~= Seq::<Seq<char>>::empty());
    let ghost first = program_package(found);
    match found {
        Ok(p) => {
            push_found(&mut v, &p);
        },
        Err(e) => {
            if !derivation::program_is_input(t, program) {
                return Err(e);
            }
        },
    }
    assert(views::texts(v@) =~= first + linker_packages(linkers@.take(0)));
    for i in 0..linkers.len()
        invariant
            views::texts(v@) == first + linker_packages(linkers@.take(i as int)),
    {
        let ghost before = linker_packages(linkers@.take(i as int));
        proof {
            assert(linkers@.take(i + 1).drop_last() =~= linkers@.take(i as int));
            assert(linkers@.take(i + 1).last() == linkers@[i as int]);
        }
        if linkers[i].0.is_some() {
            push_found(&mut v, &linkers[i].0);
        } else {
            push_found(&mut v, &linkers[i].1);
        }
        assert((first + before) + linker_package(linkers@[i as int]) =~= first + (before
            + linker_package(linkers@[i as int])));
    }
    assert(linkers@.take(linkers@.len() as int) =~= linkers@);
    push_found(&mut v, make);
    push_found(&mut v, toolchain);
    Ok(v)
}

/// The derivation of a task.
pub open spec fn finished(
    s: StageView,
    tools: Tools,
    t: Task,
    cc: Seq<char>,
    rewrite_map: Seq<(Seq<char>, Seq<char>)>,
    paths: Seq<Seq<char>>,
    placeholders: Seq<Seq<char>>,
    extra: Seq<Seq<char>>,
) -> DrvView {
    let told = s.drv.env.insert(
        "NIX_NINJA_OUTPUTS"@,
        text::join(derivation::output_texts(placeholders, paths), " "@),
    );
    DrvView {
        inputs: sets::with_opaque(s.drv.inputs, extra),
        env: derivation::file_env(told, t, rewrite_map).insert(
            "PATH"@,
            derivation::search_path(derivation::search_packages(tools, cc, extra)),
        ),
        ..s.drv
    }
}

/// The derivation of a task whose inputs are closed. `placeholders` stand for
/// the store paths of its outputs, and `extra` are the packages of the programs
/// that the command runs besides the tools.
pub fn build_task_derivation(
    d: ClosedDerivation,
    tools: &Tools,
    t: &Task,
    rewrite_map: &Vec<(String, String)>,
    placeholders: &Vec<String>,
    extra: &Vec<String>,
) -> (r: Result<Derivation, DerivationError>)
    ensures
        match r {
            Ok(drv) => tools.cc is Some && drv@ == finished(
                d.stage_view(),
                *tools,
                *t,
                tools.cc->0@,
                views::pairs(rewrite_map@),
                d.path_views(),
                views::texts(placeholders@),
                views::texts(extra@),
            ),
            Err(e) => tools.cc is None && e is NoCompiler,
        },
{
    let ClosedDerivation { stage, paths } = d;
    let mut c = stage;
    c.encode_outputs(&paths, placeholders);
    c.set_files(t, rewrite_map);
    match c.set_path(tools, extra) {
        Ok(_) => {
            assert(c.drv@ =~= finished(
                d.stage_view(),
                *tools,
                *t,
                tools.cc->0@,
                views::pairs(rewrite_map@),
                d.path_views(),
                views::texts(placeholders@),
                views::texts(extra@),
            ));
            Ok(c.drv)
        },
        Err(e) => Err(e),
    }
}

// ---------------------------------------------------------------------------
// Laws
// ---------------------------------------------------------------------------

/// Every file that the task is told of is one of the files at hand, and its
/// store path is an input of the derivation.
pub open spec fn sound(s: StageView) -> bool {
    forall|t: Seq<char>| #[trigger]
        s.encoded.contains(t) ==> exists|i: int|
            0 <= i < s.files.len() && (#[trigger] s.files[i]).text == t && s.drv.inputs.contains(
                s.files[i].file.derived_path,
            )
}

/// More inputs, and nothing else that matters here, keep a stage sound.
proof fn more_inputs_keep(a: StageView, b: StageView)
    requires
        sound(a),
        b.encoded == a.encoded,
        b.files == a.files,
        forall|p: derived::PathView| #[trigger]
            a.drv.inputs.contains(p) ==> b.drv.inputs.contains(p),
    ensures
        sound(b),
{
    assert forall|t: Seq<char>| #[trigger] b.encoded.contains(t) implies exists|i: int|
        0 <= i < b.files.len() && (#[trigger] b.files[i]).text == t && b.drv.inputs.contains(
            b.files[i].file.derived_path,
        ) by {
        assert(a.encoded.contains(t));
        let i = choose|i: int|
            0 <= i < a.files.len() && (#[trigger] a.files[i]).text == t && a.drv.inputs.contains(
                a.files[i].file.derived_path,
            );
        assert(b.files[i].text == t);
    }
}

/// An input more keeps a stage sound.
proof fn one_input_keeps(s: StageView, e: EncodedView)
    requires
        sound(s),
    ensures
        sound(derivation::with_input(s, e)),
{
    let r = derivation::with_input(s, e);
    assert forall|t: Seq<char>| #[trigger] r.encoded.contains(t) implies exists|i: int|
        0 <= i < r.files.len() && (#[trigger] r.files[i]).text == t && r.drv.inputs.contains(
            r.files[i].file.derived_path,
        ) by {
        if t == e.text {
            assert(r.files[s.files.len() as int] == e);
        } else {
            assert(s.encoded.contains(t));
            let i = choose|i: int|
                0 <= i < s.files.len() && (#[trigger] s.files[i]).text == t
                    && s.drv.inputs.contains(s.files[i].file.derived_path);
            assert(r.files[i] == s.files[i]);
        }
    }
}

/// Inputs that are added, and those that are discovered, keep a stage sound.
pub proof fn added_inputs_keep_sound(s: StageView, es: Seq<EncodedView>)
    requires
        sound(s),
    ensures
        sound(derivation::with_inputs(s, es)),
        sound(derivation::with_new_inputs(s, es)),
    decreases es.len(),
{
    if es.len() > 0 {
        let front = es.drop_last();
        added_inputs_keep_sound(s, front);
        one_input_keeps(derivation::with_inputs(s, front), es.last());
        one_input_keeps(derivation::with_new_inputs(s, front), es.last());
    }
}

/// No file elsewhere that the task is told of has the store path of an upload at a place.
pub open spec fn apart(s: StageView, place: Place) -> bool {
    forall|i: int, j: int|
        0 <= i < s.files.len() && 0 <= j < s.files.len() && fresh::uploaded_at(
            #[trigger] s.files[i],
            place,
        ) && !fresh::uploaded_at(#[trigger] s.files[j], place) && s.encoded.contains(
            s.files[j].text,
        ) ==> s.files[i].file.derived_path != s.files[j].file.derived_path
}

/// At each of several replacements, no file elsewhere has the store path of what is replaced.
pub open spec fn each_apart(s: StageView, fresh: Seq<Fresh>) -> bool {
    forall|k: int|
        0 <= k < fresh.len() ==> {
            let before = fresh::all_replaced(s, fresh.take(k));
            &&& apart(before, (#[trigger] fresh[k]).0)
            &&& apart(
                fresh::without_uploads(before, fresh[k].0),
                inputs::place_of(fresh[k].1.file),
            )
        }
}

/// A stage without the uploads at a place is as sound as it was.
proof fn removal_keeps(s: StageView, place: Place)
    requires
        sound(s),
        apart(s, place),
    ensures
        sound(fresh::without_uploads(s, place)),
{
    let w = fresh::without_uploads(s, place);
    fresh::left_elsewhere(s.encoded, s.drv.inputs, s.files, place);
    fresh::elsewhere_holds(s.files, place);
    assert forall|t: Seq<char>| #[trigger] w.encoded.contains(t) implies exists|i: int|
        0 <= i < w.files.len() && (#[trigger] w.files[i]).text == t && w.drv.inputs.contains(
            w.files[i].file.derived_path,
        ) by {
        assert(s.encoded.contains(t));
        let i = choose|i: int|
            0 <= i < s.files.len() && (#[trigger] s.files[i]).text == t && s.drv.inputs.contains(
                s.files[i].file.derived_path,
            );
        let f = s.files[i];
        assert(!fresh::uploaded_at(f, place));
        assert(s.files.contains(f));
        assert(w.files.contains(f));
        let j = choose|j: int| 0 <= j < w.files.len() && w.files[j] == f;
        assert(w.drv.inputs.contains(w.files[j].file.derived_path));
    }
}

/// Uploads that are replaced keep a stage sound, where no other file that the
/// task is told of has a store path that goes.
pub proof fn replacements_keep_sound(s: StageView, fresh: Seq<Fresh>)
    requires
        sound(s),
        each_apart(s, fresh),
    ensures
        sound(fresh::all_replaced(s, fresh)),
    decreases fresh.len(),
{
    if fresh.len() > 0 {
        let front = fresh.drop_last();
        let n = fresh.len() - 1;
        let (p, e) = fresh.last();
        assert forall|k: int| 0 <= k < front.len() implies {
            let before = fresh::all_replaced(s, front.take(k));
            &&& apart(before, (#[trigger] front[k]).0)
            &&& apart(fresh::without_uploads(before, front[k].0), inputs::place_of(front[k].1.file))
        } by {
            assert(front.take(k) =~= fresh.take(k));
            assert(front[k] == fresh[k]);
        }
        replacements_keep_sound(s, front);
        assert(fresh.take(n) =~= front);
        assert(fresh[n] == fresh.last());
        let before = fresh::all_replaced(s, front);
        removal_keeps(before, p);
        removal_keeps(fresh::without_uploads(before, p), inputs::place_of(e.file));
        one_input_keeps(
            fresh::without_uploads(fresh::without_uploads(before, p), inputs::place_of(e.file)),
            e,
        );
    }
}

proof fn opaque_grows(s: Set<derived::PathView>, ps: Seq<Seq<char>>, p: derived::PathView)
    requires
        s.contains(p),
    ensures
        sets::with_opaque(s, ps).contains(p),
    decreases ps.len(),
{
    if ps.len() > 0 {
        opaque_grows(s, ps.drop_last(), p);
    }
}

proof fn nothing_told_yet(s: StageView, store_dir: Seq<char>, ps: Seq<Forward>)
    ensures
        all_forwarded(s, store_dir, ps).encoded == s.encoded,
        all_forwarded(s, store_dir, ps).files == s.files,
    decreases ps.len(),
{
    if ps.len() > 0 {
        nothing_told_yet(s, store_dir, ps.drop_last());
    }
}

/// A task is never told of a file that its derivation does not have: what a
/// derivation begins with is sound, what is discovered keeps it so, and so do
/// the uploads that are refreshed or swapped, where no other file that the task
/// is told of has a store path that goes, and what closes it.
pub proof fn told_files_are_inputs(
    tools: Tools,
    t: Task,
    cmdline: Seq<char>,
    cc: Seq<char>,
    maps: (Seq<(Seq<char>, Seq<char>)>, Seq<(Seq<char>, Seq<char>)>),
    assumed: bool,
    ps: Seq<Forward>,
    es: Seq<EncodedView>,
    dirs: Seq<Seq<char>>,
    store_paths: Seq<Seq<char>>,
    found: Seq<EncodedView>,
    fresh: Seq<Fresh>,
    meta: Option<Seq<char>>,
    texts: Seq<Seq<char>>,
)
    requires
        each_apart(
            derivation::with_new_inputs(
                derivation::with_store_paths(
                    derivation::with_dotdot(
                        gathered(tools, t, cmdline, cc, maps, assumed, ps, es),
                        t.build_dir@,
                        dirs,
                    ),
                    store_paths,
                ),
                found,
            ),
            fresh,
        ),
    ensures
        ({
            let begun = gathered(tools, t, cmdline, cc, maps, assumed, ps, es);
            let discovered = derivation::with_new_inputs(
                derivation::with_store_paths(
                    derivation::with_dotdot(begun, t.build_dir@, dirs),
                    store_paths,
                ),
                found,
            );
            &&& sound(begun)
            &&& sound(discovered)
            &&& sound(fresh::all_replaced(discovered, fresh))
            &&& sound(closed(fresh::all_replaced(discovered, fresh), t, meta, texts))
        }),
{
    let first = derivation::begun(tools.nix_ninja_task@, t, cmdline, maps.0, maps.1, assumed);
    let s = all_forwarded(first, t.store_dir@, ps);
    nothing_told_yet(first, t.store_dir@, ps);
    let bare = StageView {
        drv: DrvView {
            inputs: derivation::with_sources(s.drv.inputs, t, tools, cc),
            ..s.drv
        },
        ..s
    };
    assert(bare.encoded =~= Set::<Seq<char>>::empty());
    assert(sound(bare));
    added_inputs_keep_sound(bare, es);
    let begun = gathered(tools, t, cmdline, cc, maps, assumed, ps, es);
    let with_dirs = derivation::with_dotdot(begun, t.build_dir@, dirs);
    more_inputs_keep(begun, with_dirs);
    let with_paths = derivation::with_store_paths(with_dirs, store_paths);
    assert forall|p: derived::PathView| #[trigger]
        with_dirs.drv.inputs.contains(p) implies with_paths.drv.inputs.contains(p) by {
        opaque_grows(with_dirs.drv.inputs, store_paths, p);
    }
    more_inputs_keep(with_dirs, with_paths);
    added_inputs_keep_sound(with_paths, found);
    let discovered = derivation::with_new_inputs(with_paths, found);
    replacements_keep_sound(discovered, fresh);
    let settled = fresh::all_replaced(discovered, fresh);
    more_inputs_keep(settled, closed(settled, t, meta, texts));
}

/// What a task is told of its inputs and outputs, and its search path, stand in
/// the finished derivation whatever variables are forwarded: nothing overrides
/// them.
pub proof fn forwarded_variables_override_nothing(
    s: StageView,
    tools: Tools,
    t: Task,
    cc: Seq<char>,
    rewrite_map: Seq<(Seq<char>, Seq<char>)>,
    meta: Option<Seq<char>>,
    es: Seq<Seq<char>>,
    paths: Seq<Seq<char>>,
    placeholders: Seq<Seq<char>>,
    extra: Seq<Seq<char>>,
)
    ensures
        ({
            let drv = finished(
                closed(s, t, meta, es),
                tools,
                t,
                cc,
                rewrite_map,
                paths,
                placeholders,
                extra,
            );
            &&& drv.env["NIX_NINJA_INPUTS"@] == text::join(es, " "@)
            &&& drv.env["NIX_NINJA_OUTPUTS"@] == text::join(
                derivation::output_texts(placeholders, paths),
                " "@,
            )
            &&& drv.env["PATH"@] == derivation::search_path(
                derivation::search_packages(tools, cc, extra),
            )
        }),
{
    reveal_strlit("NIX_NINJA_INPUTS");
    reveal_strlit("NIX_NINJA_OUTPUTS");
    reveal_strlit("NIX_NINJA_ALIASES");
    reveal_strlit("NIX_NINJA_EMPTY_DIRS");
    reveal_strlit("NIX_NINJA_VERBOSE_LOG");
    reveal_strlit("NIX_NINJA_DEPFILE");
    reveal_strlit("NIX_NINJA_RSPFILE_PATH");
    reveal_strlit("NIX_NINJA_RSPFILE_CONTENT");
    reveal_strlit("passAsFile");
    reveal_strlit("PATH");
    let ins = "NIX_NINJA_INPUTS"@;
    let outs = "NIX_NINJA_OUTPUTS"@;
    assert(ins[10] == 'I' && outs[10] == 'O');
    assert("NIX_NINJA_ALIASES"@[10] == 'A');
    assert("NIX_NINJA_EMPTY_DIRS"@[10] == 'E');
    assert("NIX_NINJA_VERBOSE_LOG"@[10] == 'V');
    assert("NIX_NINJA_DEPFILE"@[10] == 'D');
    assert("NIX_NINJA_RSPFILE_PATH"@[10] == 'R');
    assert("NIX_NINJA_RSPFILE_CONTENT"@[10] == 'R');
    assert("passAsFile"@.len() == 10);
    assert("PATH"@.len() == 4);
}

/// A linker's package is that of the first of its two names that is found; every
/// linker brings its own, in their order.
pub proof fn every_linker_brings_its_package(
    found: Seq<(Option<String>, Option<String>)>,
    a: Option<String>,
    b: Option<String>,
)
    ensures
        linker_packages(Seq::empty()).len() == 0,
        linker_packages(found.push((a, b))) == match (a, b) {
            (Some(s), _) => linker_packages(found).push(s@),
            (None, Some(s)) => linker_packages(found).push(s@),
            (None, None) => linker_packages(found),
        },
{
    assert(found.push((a, b)).drop_last() =~= found);
    assert(linker_packages(found) + Seq::<Seq<char>>::empty() =~= linker_packages(found));
    match (a, b) {
        (Some(s), _) => {
            assert(linker_packages(found) + seq![s@] =~= linker_packages(found).push(s@));
        },
        (None, Some(s)) => {
            assert(linker_packages(found) + seq![s@] =~= linker_packages(found).push(s@));
        },
        (None, None) => {},
    }
}

/// A compiler's own programs lie in the `bin` directory of the package that the
/// wrapper names, whatever white space stands around the name.
pub proof fn the_wrapper_names_the_package(
    lead: Seq<char>,
    package: Seq<char>,
    trail: Seq<char>,
    names: Seq<Seq<char>>,
    i: int,
)
    requires
        forall|j: int| 0 <= j < lead.len() ==> text::is_space(#[trigger] lead[j]),
        forall|j: int| 0 <= j < trail.len() ==> text::is_space(#[trigger] trail[j]),
        package.len() > 0,
        !text::is_space(package[0]),
        !text::is_space(package.last()),
        0 <= i < names.len(),
    ensures
        toolchain_places(lead + package + trail, names).len() == names.len(),
        toolchain_places(lead + package + trail, names)[i] == path::joined(
            path::joined(package, "bin"@),
            names[i],
        ),
{
    text::trim_leaves(lead, package, trail, Class::Space);
}

/// A command climbs too high where it climbs above the root of its build
/// directory, and nowhere else; in the sandbox's own tree nothing does.
pub proof fn only_the_root_is_too_high(s: StageView, build_dir: Seq<char>)
    ensures
        path::under(build_dir, "/build/"@) ==> !climbs_too_high(s, build_dir),
        !path::under(build_dir, "/build/"@) ==> (climbs_too_high(s, build_dir)
            <==> derivation::climb_of(s) > path::comps(build_dir).len()),
{
}

} // verus!
