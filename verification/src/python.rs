//! What the python files of one directory need: the files and directories to
//! upload, in order, and which of those are looked at in turn.
use crate::closure;
use crate::closure::PyEntry;
use crate::path;
use crate::views;
use vstd::prelude::*;

verus! {

broadcast use views::texts_push;

/// An entry of the directory.
#[derive(Debug)]
pub struct PyFile {
    pub path: String,
    pub is_file: bool,
    pub is_dir: bool,
    /// It is a directory with an `__init__.py`.
    pub has_init: bool,
}

/// A directory beside the directory.
#[derive(Debug)]
pub struct Uncle {
    pub path: String,
    /// Whether it holds each wanted module as a file.
    pub modules: Vec<bool>,
    /// It is a package.
    pub has_init: bool,
}

/// What lies at a level above the directory's parent.
#[derive(Debug)]
pub struct Level {
    /// The level.
    pub path: String,
    /// The directory named like the module holds the module; it is a package.
    pub here: (bool, bool),
    /// So for the directory of that name among third parties.
    pub third: (bool, bool),
    /// The packages of that name inside third parties.
    pub packages: Vec<String>,
}

/// A module that nothing in the directory provides.
#[derive(Debug)]
pub struct Wanted {
    pub name: String,
    /// The levels above, the nearest first.
    pub levels: Vec<Level>,
    /// The directory below that provides it.
    pub below: Option<String>,
}

/// A path that a project composes.
#[derive(Debug)]
pub struct Composed {
    pub rel: String,
    /// Whether each directory that it may mean is one.
    pub is_dir: Vec<bool>,
}

/// What was found about a directory.
#[derive(Debug)]
pub struct PyDir {
    pub dir: String,
    /// Its entries, in order.
    pub entries: Vec<PyFile>,
    pub uncles: Vec<Uncle>,
    pub wanted: Vec<Wanted>,
    /// The directories that its files put on the search path.
    pub search_path: Vec<String>,
    pub composed: Vec<Composed>,
}

/// What is to be done for a directory.
#[derive(Debug, Clone, PartialEq, Eq)]
pub enum PyStep {
    /// Upload a file.
    File(String),
    /// Upload the files below a directory, unless there are more than `cap`;
    /// where that was done and `follow` holds, the directory is looked at in turn.
    Tree { dir: String, cap: usize, follow: bool },
}

/// What a step says.
pub enum Step {
    File(Seq<char>),
    Tree(Seq<char>, usize, bool),
}

impl View for PyStep {
    type V = Step;

    open spec fn view(&self) -> Step {
        match self {
            PyStep::File(p) => Step::File(p@),
            PyStep::Tree { dir, cap, follow } => Step::Tree(dir@, *cap, *follow),
        }
    }
}

/// What steps say.
pub open spec fn steps(v: Seq<PyStep>) -> Seq<Step> {
    v.map_values(|s: PyStep| s@)
}

/// One step, where there is one.
pub open spec fn one(o: Option<Step>) -> Seq<Step> {
    match o {
        Some(s) => seq![s],
        None => Seq::empty(),
    }
}

/// A directory that is uploaded and looked at in turn.
pub open spec fn followed(dir: Seq<char>, cap: usize) -> Option<Step> {
    Some(Step::Tree(dir, cap, true))
}

/// What an entry asks for.
pub open spec fn entry_step(e: PyFile) -> Option<Step> {
    match closure::py_entry(e.path@, e.is_file, e.is_dir, e.has_init) {
        PyEntry::File => Some(Step::File(e.path@)),
        PyEntry::Tree => Some(Step::Tree(e.path@, closure::LIBRARY_CAP, false)),
        PyEntry::Package => followed(e.path@, closure::PACKAGE_CAP),
        PyEntry::Skip => None,
    }
}

/// What entries ask for.
pub open spec fn entry_steps(es: Seq<PyFile>) -> Seq<Step>
    decreases es.len(),
{
    if es.len() == 0 {
        Seq::empty()
    } else {
        entry_steps(es.drop_last()) + one(entry_step(es.last()))
    }
}

/// The answer at an index; no behind the end.
pub open spec fn answer(v: Seq<bool>, i: int) -> bool {
    0 <= i < v.len() && v[i]
}

/// A directory beside the directory provides a wanted module.
pub open spec fn helps(u: Uncle, wanted: Seq<Wanted>) -> bool {
    exists|i: int|
        0 <= i < wanted.len() && closure::provides(
            u.path@,
            (#[trigger] wanted[i]).name@,
            answer(u.modules@, i),
            u.has_init,
        )
}

/// What the directories beside the directory ask for.
pub open spec fn uncle_steps(us: Seq<Uncle>, wanted: Seq<Wanted>) -> Seq<Step>
    decreases us.len(),
{
    if us.len() == 0 {
        Seq::empty()
    } else {
        uncle_steps(us.drop_last(), wanted) + one(
            if helps(us.last(), wanted) {
                followed(us.last().path@, closure::PACKAGE_CAP)
            } else {
                None
            },
        )
    }
}

/// What a level asks for: the directory named like the module; that among third
/// parties; or the best package inside a third party. A directory that only
/// holds the module is not looked at in turn.
pub open spec fn level_step(name: Seq<char>, l: Level) -> Option<Step> {
    if l.here.0 || l.here.1 {
        Some(Step::Tree(path::joined(l.path@, name), closure::LIBRARY_CAP, l.here.1))
    } else if l.third.0 || l.third.1 {
        Some(
            Step::Tree(
                path::joined(path::joined(l.path@, "third_party"@), name),
                closure::LIBRARY_CAP,
                l.third.1,
            ),
        )
    } else {
        match closure::best(views::texts(l.packages@)) {
            Some(p) => followed(p, closure::LIBRARY_CAP),
            None => None,
        }
    }
}

/// What the levels from an index on ask for: the first that asks for anything
/// decides.
pub open spec fn levels_step(name: Seq<char>, ls: Seq<Level>, from: int) -> Option<Step>
    decreases ls.len() - from,
{
    if from < 0 || from >= ls.len() {
        None
    } else {
        match level_step(name, ls[from]) {
            Some(s) => Some(s),
            None => levels_step(name, ls, from + 1),
        }
    }
}

/// What wanted modules ask for above.
pub open spec fn above_steps(ws: Seq<Wanted>) -> Seq<Step>
    decreases ws.len(),
{
    if ws.len() == 0 {
        Seq::empty()
    } else {
        above_steps(ws.drop_last()) + one(levels_step(ws.last().name@, ws.last().levels@, 0))
    }
}

/// What a wanted module asks for below.
pub open spec fn below_step(w: Wanted) -> Option<Step> {
    match w.below {
        Some(d) => followed(d@, closure::PACKAGE_CAP),
        None => None,
    }
}

/// What wanted modules ask for below.
pub open spec fn below_steps(ws: Seq<Wanted>) -> Seq<Step>
    decreases ws.len(),
{
    if ws.len() == 0 {
        Seq::empty()
    } else {
        below_steps(ws.drop_last()) + one(below_step(ws.last()))
    }
}

/// What the search path asks for.
pub open spec fn path_steps(ds: Seq<Seq<char>>) -> Seq<Step> {
    ds.map_values(|d: Seq<char>| Step::Tree(d, closure::LIBRARY_CAP, true))
}

/// The first of some directories that is one.
pub open spec fn first_dir(cands: Seq<Seq<char>>, is_dir: Seq<bool>, from: int) -> Option<Seq<char>>
    decreases cands.len() - from,
{
    if from < 0 || from >= cands.len() {
        None
    } else if answer(is_dir, from) {
        Some(cands[from])
    } else {
        first_dir(cands, is_dir, from + 1)
    }
}

/// What a composed path asks for.
pub open spec fn composed_step(dir: Seq<char>, c: Composed) -> Option<Step> {
    match first_dir(closure::elsewhere(dir, closure::bases_of(dir), c.rel@), c.is_dir@, 0) {
        Some(d) => followed(d, closure::LIBRARY_CAP),
        None => None,
    }
}

/// What composed paths ask for.
pub open spec fn composed_steps(dir: Seq<char>, cs: Seq<Composed>) -> Seq<Step>
    decreases cs.len(),
{
    if cs.len() == 0 {
        Seq::empty()
    } else {
        composed_steps(dir, cs.drop_last()) + one(composed_step(dir, cs.last()))
    }
}

/// Some entry configures a project.
pub open spec fn is_project(es: Seq<PyFile>) -> bool {
    exists|i: int| 0 <= i < es.len() && closure::configures((#[trigger] es[i]).path@)
}

/// Whether some entry configures a project.
fn holds_project(es: &Vec<PyFile>) -> (r: bool)
    ensures
        r == is_project(es@),
{
    for i in 0..es.len()
        invariant
            forall|j: int| 0 <= j < i ==> !closure::configures((#[trigger] es@[j]).path@),
    {
        if closure::is_project_file(es[i].path.as_str()) {
            assert(closure::configures(es@[i as int].path@));
            return true;
        }
    }
    false
}

/// What a directory asks for, in order: its own files and packages; for modules
/// that nothing in it provides, the directories beside it, above and below; its
/// search path; and the paths that a project composes.
pub open spec fn all_steps(d: PyDir) -> Seq<Step> {
    entry_steps(d.entries@) + uncle_steps(d.uncles@, d.wanted@) + above_steps(d.wanted@)
        + below_steps(d.wanted@) + path_steps(views::texts(d.search_path@)) + (if is_project(d.entries@) {
        composed_steps(d.dir@, d.composed@)
    } else {
        Seq::empty()
    })
}

/// The step of an optional step.
spec fn opt_step(o: Option<PyStep>) -> Option<Step> {
    match o {
        Some(s) => Some(s@),
        None => None,
    }
}

fn add_one(out: &mut Vec<PyStep>, o: Option<PyStep>)
    ensures
        steps(final(out)@) == steps(old(out)@) + one(opt_step(o)),
{
    let ghost before = steps(out@);
    match o {
        Some(s) => {
            let ghost v = s@;
            out.push(s);
            assert(steps(out@) =~= before + seq![v]);
        },
        None => {
            assert(steps(out@) =~= before + Seq::<Step>::empty());
        },
    }
}

fn tree(dir: &String, cap: usize, follow: bool) -> (r: Option<PyStep>)
    ensures
        opt_step(r) == Some(Step::Tree(dir@, cap, follow)),
{
    Some(PyStep::Tree { dir: dir.clone(), cap, follow })
}

fn add_entries(out: &mut Vec<PyStep>, es: &Vec<PyFile>)
    ensures
        steps(final(out)@) == steps(old(out)@) + entry_steps(es@),
{
    let ghost before = steps(out@);
    assert(before + entry_steps(es@.take(0)) =~= before);
    for i in 0..es.len()
        invariant
            steps(out@) == before + entry_steps(es@.take(i as int)),
    {
        let ghost front = entry_steps(es@.take(i as int));
        proof {
            assert(es@.take(i + 1).drop_last() =~= es@.take(i as int));
            assert(es@.take(i + 1).last() == es@[i as int]);
            assert((before + front) + one(entry_step(es@[i as int])) =~= before + (front + one(
                entry_step(es@[i as int]),
            )));
        }
        let e = &es[i];
        let s = match closure::python_entry(e.path.as_str(), e.is_file, e.is_dir, e.has_init) {
            PyEntry::File => Some(PyStep::File(e.path.clone())),
            PyEntry::Tree => tree(&e.path, closure::LIBRARY_CAP, false),
            PyEntry::Package => tree(&e.path, closure::PACKAGE_CAP, true),
            PyEntry::Skip => None,
        };
        assert(opt_step(s) == entry_step(es@[i as int]));
        add_one(out, s);
    }
    assert(es@.take(es@.len() as int) =~= es@);
}

fn uncle_helps(u: &Uncle, wanted: &Vec<Wanted>) -> (r: bool)
    ensures
        r == helps(*u, wanted@),
{
    for i in 0..wanted.len()
        invariant
            forall|j: int|
                0 <= j < i ==> !closure::provides(
                    u.path@,
                    (#[trigger] wanted@[j]).name@,
                    answer(u.modules@, j),
                    u.has_init,
                ),
    {
        let module = i < u.modules.len() && u.modules[i];
        if closure::provides_module(
            u.path.as_str(),
            wanted[i].name.as_str(),
            module,
            u.has_init,
        ) {
            assert(closure::provides(
                u.path@,
                wanted@[i as int].name@,
                answer(u.modules@, i as int),
                u.has_init,
            ));
            return true;
        }
    }
    false
}

fn add_uncles(out: &mut Vec<PyStep>, us: &Vec<Uncle>, wanted: &Vec<Wanted>)
    ensures
        steps(final(out)@) == steps(old(out)@) + uncle_steps(us@, wanted@),
{
    let ghost before = steps(out@);
    assert(before + uncle_steps(us@.take(0), wanted@) =~= before);
    for i in 0..us.len()
        invariant
            steps(out@) == before + uncle_steps(us@.take(i as int), wanted@),
    {
        let ghost front = uncle_steps(us@.take(i as int), wanted@);
        proof {
            assert(us@.take(i + 1).drop_last() =~= us@.take(i as int));
            assert(us@.take(i + 1).last() == us@[i as int]);
        }
        let s = if uncle_helps(&us[i], wanted) {
            tree(&us[i].path, closure::PACKAGE_CAP, true)
        } else {
            None
        };
        assert((before + front) + one(opt_step(s)) =~= before + (front + one(opt_step(s))));
        add_one(out, s);
    }
    assert(us@.take(us@.len() as int) =~= us@);
}

fn ask_level(name: &str, l: &Level) -> (r: Option<PyStep>)
    ensures
        opt_step(r) == level_step(name@, *l),
{
    let (here, third) = closure::level_candidates(l.path.as_str(), name);
    if l.here.0 || l.here.1 {
        tree(&here, closure::LIBRARY_CAP, l.here.1)
    } else if l.third.0 || l.third.1 {
        tree(&third, closure::LIBRARY_CAP, l.third.1)
    } else {
        match closure::best_package(&l.packages) {
            Some(p) => tree(&p, closure::LIBRARY_CAP, true),
            None => None,
        }
    }
}

fn ask_levels(name: &str, ls: &Vec<Level>) -> (r: Option<PyStep>)
    ensures
        opt_step(r) == levels_step(name@, ls@, 0),
{
    for i in 0..ls.len()
        invariant
            levels_step(name@, ls@, 0) == levels_step(name@, ls@, i as int),
    {
        let s = ask_level(name, &ls[i]);
        if s.is_some() {
            return s;
        }
    }
    None
}

fn add_above(out: &mut Vec<PyStep>, ws: &Vec<Wanted>)
    ensures
        steps(final(out)@) == steps(old(out)@) + above_steps(ws@),
{
    let ghost before = steps(out@);
    assert(before + above_steps(ws@.take(0)) =~= before);
    for i in 0..ws.len()
        invariant
            steps(out@) == before + above_steps(ws@.take(i as int)),
    {
        let ghost front = above_steps(ws@.take(i as int));
        proof {
            assert(ws@.take(i + 1).drop_last() =~= ws@.take(i as int));
            assert(ws@.take(i + 1).last() == ws@[i as int]);
        }
        let s = ask_levels(ws[i].name.as_str(), &ws[i].levels);
        assert((before + front) + one(opt_step(s)) =~= before + (front + one(opt_step(s))));
        add_one(out, s);
    }
    assert(ws@.take(ws@.len() as int) =~= ws@);
}

fn add_below(out: &mut Vec<PyStep>, ws: &Vec<Wanted>)
    ensures
        steps(final(out)@) == steps(old(out)@) + below_steps(ws@),
{
    let ghost before = steps(out@);
    assert(before + below_steps(ws@.take(0)) =~= before);
    for i in 0..ws.len()
        invariant
            steps(out@) == before + below_steps(ws@.take(i as int)),
    {
        let ghost front = below_steps(ws@.take(i as int));
        proof {
            assert(ws@.take(i + 1).drop_last() =~= ws@.take(i as int));
            assert(ws@.take(i + 1).last() == ws@[i as int]);
        }
        let s = match &ws[i].below {
            Some(d) => tree(d, closure::PACKAGE_CAP, true),
            None => None,
        };
        assert(opt_step(s) == below_step(ws@[i as int]));
        assert((before + front) + one(opt_step(s)) =~= before + (front + one(opt_step(s))));
        add_one(out, s);
    }
    assert(ws@.take(ws@.len() as int) =~= ws@);
}

fn add_search_path(out: &mut Vec<PyStep>, ds: &Vec<String>)
    ensures
        steps(final(out)@) == steps(old(out)@) + path_steps(views::texts(ds@)),
{
    let ghost before = steps(out@);
    let ghost want = path_steps(views::texts(ds@));
    assert(before + want.take(0) =~= before);
    for i in 0..ds.len()
        invariant
            want == path_steps(views::texts(ds@)),
            steps(out@) == before + want.take(i as int),
    {
        let s = tree(&ds[i], closure::LIBRARY_CAP, true);
        assert(opt_step(s) == Some(want[i as int]));
        assert((before + want.take(i as int)) + seq![want[i as int]] =~= before + want.take(i + 1));
        add_one(out, s);
    }
    assert(want.take(want.len() as int) =~= want);
}

fn ask_composed(dir: &str, c: &Composed) -> (r: Option<PyStep>)
    ensures
        opt_step(r) == composed_step(dir@, *c),
{
    let cands = closure::project_candidates(dir, c.rel.as_str());
    let ghost all = views::texts(cands@);
    for i in 0..cands.len()
        invariant
            all == views::texts(cands@),
            all == closure::elsewhere(dir@, closure::bases_of(dir@), c.rel@),
            first_dir(all, c.is_dir@, 0) == first_dir(all, c.is_dir@, i as int),
    {
        if i < c.is_dir.len() && c.is_dir[i] {
            assert(all[i as int] == cands@[i as int]@);
            return tree(&cands[i], closure::LIBRARY_CAP, true);
        }
    }
    None
}

fn add_composed(out: &mut Vec<PyStep>, dir: &str, cs: &Vec<Composed>)
    ensures
        steps(final(out)@) == steps(old(out)@) + composed_steps(dir@, cs@),
{
    let ghost before = steps(out@);
    assert(before + composed_steps(dir@, cs@.take(0)) =~= before);
    for i in 0..cs.len()
        invariant
            steps(out@) == before + composed_steps(dir@, cs@.take(i as int)),
    {
        let ghost front = composed_steps(dir@, cs@.take(i as int));
        proof {
            assert(cs@.take(i + 1).drop_last() =~= cs@.take(i as int));
            assert(cs@.take(i + 1).last() == cs@[i as int]);
        }
        let s = ask_composed(dir, &cs[i]);
        assert((before + front) + one(opt_step(s)) =~= before + (front + one(opt_step(s))));
        add_one(out, s);
    }
    assert(cs@.take(cs@.len() as int) =~= cs@);
}

/// What a directory with python files asks for, in order.
pub fn upload_python_closure(d: &PyDir) -> (r: Vec<PyStep>)
    ensures
        steps(r@) == all_steps(*d),
{
    let mut out: Vec<PyStep> = Vec::new();
    let ghost a = entry_steps(d.entries@);
    assert(steps(out@) + a =~= a);
    add_entries(&mut out, &d.entries);
    add_uncles(&mut out, &d.uncles, &d.wanted);
    add_above(&mut out, &d.wanted);
    add_below(&mut out, &d.wanted);
    add_search_path(&mut out, &d.search_path);
    if holds_project(&d.entries) {
        add_composed(&mut out, d.dir.as_str(), &d.composed);
    }
    assert(steps(out@) =~= all_steps(*d));
    out
}

// ---------------------------------------------------------------------------
// Laws
// ---------------------------------------------------------------------------

/// A directory whose imports are all satisfied asks for nothing beside, above
/// or below it.
pub proof fn satisfied_imports_stay_local(d: PyDir)
    requires
        d.wanted@.len() == 0,
    ensures
        all_steps(d) == entry_steps(d.entries@) + path_steps(views::texts(d.search_path@)) + (
        if is_project(d.entries@) {
            composed_steps(d.dir@, d.composed@)
        } else {
            Seq::empty()
        }),
{
    no_uncle_helps(d.uncles@, d.wanted@);
    assert(all_steps(d) =~= entry_steps(d.entries@) + path_steps(views::texts(d.search_path@)) + (
    if is_project(d.entries@) {
        composed_steps(d.dir@, d.composed@)
    } else {
        Seq::empty()
    }));
}

proof fn no_uncle_helps(us: Seq<Uncle>, wanted: Seq<Wanted>)
    requires
        wanted.len() == 0,
    ensures
        uncle_steps(us, wanted).len() == 0,
    decreases us.len(),
{
    if us.len() > 0 {
        no_uncle_helps(us.drop_last(), wanted);
        assert(!helps(us.last(), wanted));
    }
}

/// Of the levels above, the nearest that has the module decides.
pub proof fn nearest_level_decides(name: Seq<char>, ls: Seq<Level>, i: int)
    requires
        0 <= i < ls.len(),
        level_step(name, ls[i]) is Some,
        forall|j: int| 0 <= j < i ==> level_step(name, #[trigger] ls[j]) is None,
    ensures
        levels_step(name, ls, 0) == level_step(name, ls[i]),
{
    nearest_from(name, ls, 0, i);
}

proof fn nearest_from(name: Seq<char>, ls: Seq<Level>, from: int, i: int)
    requires
        0 <= from <= i < ls.len(),
        level_step(name, ls[i]) is Some,
        forall|j: int| from <= j < i ==> level_step(name, #[trigger] ls[j]) is None,
    ensures
        levels_step(name, ls, from) == level_step(name, ls[i]),
    decreases i - from,
{
    if from < i {
        assert(level_step(name, ls[from]) is None);
        nearest_from(name, ls, from + 1, i);
    }
}

/// Entries are looked at one by one, in their order: a python file is taken, what
/// node brings is taken as a tree, a package is taken and looked at in turn.
pub proof fn entries_ask_one_by_one(a: Seq<PyFile>, e: PyFile)
    ensures
        entry_steps(Seq::empty()).len() == 0,
        entry_steps(a.push(e)) == match closure::py_entry(
            e.path@,
            e.is_file,
            e.is_dir,
            e.has_init,
        ) {
            PyEntry::File => entry_steps(a).push(Step::File(e.path@)),
            PyEntry::Tree => entry_steps(a).push(
                Step::Tree(e.path@, closure::LIBRARY_CAP, false),
            ),
            PyEntry::Package => entry_steps(a).push(
                Step::Tree(e.path@, closure::PACKAGE_CAP, true),
            ),
            PyEntry::Skip => entry_steps(a),
        },
{
    assert(a.push(e).drop_last() =~= a);
    one_is_pushed(entry_steps(a), entry_step(e));
}

proof fn one_is_pushed(a: Seq<Step>, o: Option<Step>)
    ensures
        a + one(o) == match o {
            Some(s) => a.push(s),
            None => a,
        },
{
    assert(a + one(o) =~= match o {
        Some(s) => a.push(s),
        None => a,
    });
}

/// A directory beside the directory is taken where it provides one of the modules
/// that are wanted, whichever; others are not.
pub proof fn uncles_that_help_are_taken(a: Seq<Uncle>, u: Uncle, wanted: Seq<Wanted>, i: int)
    ensures
        uncle_steps(Seq::empty(), wanted).len() == 0,
        0 <= i < wanted.len() && (0 <= i < u.modules@.len() && u.modules@[i] || (u.has_init
            && path::file_name(u.path@) == Some(wanted[i].name@))) ==> uncle_steps(a.push(u), wanted)
            == uncle_steps(a, wanted).push(Step::Tree(u.path@, closure::PACKAGE_CAP, true)),
        (forall|j: int|
            0 <= j < wanted.len() ==> !answer(u.modules@, j) && !(u.has_init && path::file_name(
                u.path@,
            ) == Some((#[trigger] wanted[j]).name@))) ==> uncle_steps(a.push(u), wanted)
            == uncle_steps(a, wanted),
{
    assert(a.push(u).drop_last() =~= a);
    let o = if helps(u, wanted) {
        followed(u.path@, closure::PACKAGE_CAP)
    } else {
        None
    };
    one_is_pushed(uncle_steps(a, wanted), o);
    if 0 <= i < wanted.len() && (0 <= i < u.modules@.len() && u.modules@[i] || (u.has_init
        && path::file_name(u.path@) == Some(wanted[i].name@))) {
        assert(closure::provides(u.path@, wanted[i].name@, answer(u.modules@, i), u.has_init));
        assert(helps(u, wanted));
    }
}

/// At one level the directory named like the module comes before that among third
/// parties, and that before the best package inside one; a package is looked at in
/// turn, a directory that only holds the module is not.
pub proof fn the_nearest_place_at_a_level_decides(name: Seq<char>, l: Level)
    ensures
        l.here.0 || l.here.1 ==> level_step(name, l) == Some(
            Step::Tree(path::joined(l.path@, name), closure::LIBRARY_CAP, l.here.1),
        ),
        !l.here.0 && !l.here.1 && (l.third.0 || l.third.1) ==> level_step(name, l) == Some(
            Step::Tree(
                path::joined(path::joined(l.path@, "third_party"@), name),
                closure::LIBRARY_CAP,
                l.third.1,
            ),
        ),
        !l.here.0 && !l.here.1 && !l.third.0 && !l.third.1 && l.packages@.len() > 0 ==> (level_step(
            name,
            l,
        ) matches Some(Step::Tree(p, cap, on)) && cap == closure::LIBRARY_CAP && on
            && closure::best(views::texts(l.packages@)) == Some(p)),
        !l.here.0 && !l.here.1 && !l.third.0 && !l.third.1 && l.packages@.len() == 0 ==> level_step(
            name,
            l,
        ) is None,
{
    if l.packages@.len() > 0 {
        closure::best_is_best(views::texts(l.packages@), 0);
    }
}

/// A module that is wanted is asked for above and below by itself, whatever the
/// others are; modules keep their order.
pub proof fn every_wanted_module_is_asked_for(a: Seq<Wanted>, w: Wanted)
    ensures
        above_steps(Seq::empty()).len() == 0,
        below_steps(Seq::empty()).len() == 0,
        above_steps(a.push(w)) == match levels_step(w.name@, w.levels@, 0) {
            Some(s) => above_steps(a).push(s),
            None => above_steps(a),
        },
        below_steps(a.push(w)) == match w.below {
            Some(d) => below_steps(a).push(Step::Tree(d@, closure::PACKAGE_CAP, true)),
            None => below_steps(a),
        },
{
    assert(a.push(w).drop_last() =~= a);
    one_is_pushed(above_steps(a), levels_step(w.name@, w.levels@, 0));
    one_is_pushed(below_steps(a), below_step(w));
}

/// Of the places that a composed path may lead to, the first that is a directory
/// is taken.
pub proof fn the_first_directory_is_taken(cands: Seq<Seq<char>>, is_dir: Seq<bool>, i: int, from: int)
    requires
        0 <= from <= i < cands.len(),
        i < is_dir.len(),
        is_dir[i],
        forall|j: int| from <= j < i ==> !#[trigger] is_dir[j],
    ensures
        first_dir(cands, is_dir, from) == Some(cands[i]),
    decreases i - from,
{
    if from < i {
        assert(!is_dir[from]);
        the_first_directory_is_taken(cands, is_dir, i, from + 1);
    }
}

/// Without a directory among its places a composed path asks for nothing; with
/// one it asks for that one.
pub proof fn composed_paths_ask_for_directories(dir: Seq<char>, a: Seq<Composed>, c: Composed)
    ensures
        composed_steps(dir, Seq::empty()).len() == 0,
        composed_steps(dir, a.push(c)) == match first_dir(
            closure::elsewhere(dir, closure::bases_of(dir), c.rel@),
            c.is_dir@,
            0,
        ) {
            Some(d) => composed_steps(dir, a).push(Step::Tree(d, closure::LIBRARY_CAP, true)),
            None => composed_steps(dir, a),
        },
        !c.is_dir@.contains(true) ==> composed_step(dir, c) is None,
{
    assert(a.push(c).drop_last() =~= a);
    one_is_pushed(composed_steps(dir, a), composed_step(dir, c));
    if !c.is_dir@.contains(true) {
        no_directory(closure::elsewhere(dir, closure::bases_of(dir), c.rel@), c.is_dir@, 0);
    }
}

proof fn no_directory(cands: Seq<Seq<char>>, is_dir: Seq<bool>, from: int)
    requires
        0 <= from,
        !is_dir.contains(true),
    ensures
        first_dir(cands, is_dir, from) is None,
    decreases cands.len() - from,
{
    if from < cands.len() {
        if from < is_dir.len() {
            assert(is_dir.contains(is_dir[from]));
        }
        no_directory(cands, is_dir, from + 1);
    }
}

/// Everything that a directory asks for is among its steps: what its entries ask
/// for first; the directories of its search path whatever else it asks for; and
/// the composed paths where one of its files configures a project, and only there.
pub proof fn everything_asked_for_is_a_step(d: PyDir, s: Step, i: int)
    ensures
        entry_steps(d.entries@).is_prefix_of(all_steps(d)),
        entry_steps(d.entries@).contains(s) ==> all_steps(d).contains(s),
        uncle_steps(d.uncles@, d.wanted@).contains(s) ==> all_steps(d).contains(s),
        above_steps(d.wanted@).contains(s) ==> all_steps(d).contains(s),
        below_steps(d.wanted@).contains(s) ==> all_steps(d).contains(s),
        0 <= i < d.search_path@.len() ==> all_steps(d).contains(
            Step::Tree(d.search_path@[i]@, closure::LIBRARY_CAP, true),
        ),
        0 <= i < d.entries@.len() && "_project.py"@.is_suffix_of(d.entries@[i].path@)
            && composed_steps(d.dir@, d.composed@).contains(s) ==> all_steps(d).contains(s),
        (forall|j: int|
            0 <= j < d.entries@.len() ==> !"_project.py"@.is_suffix_of(
                (#[trigger] d.entries@[j]).path@,
            )) ==> all_steps(d) == entry_steps(d.entries@) + uncle_steps(d.uncles@, d.wanted@)
            + above_steps(d.wanted@) + below_steps(d.wanted@) + path_steps(
            views::texts(d.search_path@),
        ),
{
    let a = entry_steps(d.entries@);
    let b = uncle_steps(d.uncles@, d.wanted@);
    let c = above_steps(d.wanted@);
    let e = below_steps(d.wanted@);
    let p = path_steps(views::texts(d.search_path@));
    let f = if is_project(d.entries@) {
        composed_steps(d.dir@, d.composed@)
    } else {
        Seq::empty()
    };
    let all = a + b + c + e + p + f;
    assert(all == all_steps(d));
    part_is_in(Seq::empty(), a, b + c + e + p + f, s);
    assert(Seq::<Step>::empty() + a + (b + c + e + p + f) =~= all);
    part_is_in(a, b, c + e + p + f, s);
    assert(a + b + (c + e + p + f) =~= all);
    part_is_in(a + b, c, e + p + f, s);
    assert(a + b + c + (e + p + f) =~= all);
    part_is_in(a + b + c, e, p + f, s);
    assert(a + b + c + e + (p + f) =~= all);
    part_is_in(a + b + c + e + p, f, Seq::empty(), s);
    assert(a + b + c + e + p + f + Seq::<Step>::empty() =~= all);
    if 0 <= i < d.search_path@.len() {
        let t = Step::Tree(d.search_path@[i]@, closure::LIBRARY_CAP, true);
        assert(views::texts(d.search_path@)[i] == d.search_path@[i]@);
        assert(p[i] == t);
        part_is_in(a + b + c + e, p, f, t);
    }
    if 0 <= i < d.entries@.len() && "_project.py"@.is_suffix_of(d.entries@[i].path@) {
        assert(closure::configures(d.entries@[i].path@));
        assert(is_project(d.entries@));
    }
    if forall|j: int|
        0 <= j < d.entries@.len() ==> !"_project.py"@.is_suffix_of((#[trigger] d.entries@[j]).path@) {
        assert(!is_project(d.entries@));
        assert(a + b + c + e + p + f =~= a + b + c + e + p);
    }
}

proof fn part_is_in(a: Seq<Step>, b: Seq<Step>, c: Seq<Step>, s: Step)
    ensures
        b.contains(s) ==> (a + b + c).contains(s),
{
    if b.contains(s) {
        let i = choose|i: int| 0 <= i < b.len() && b[i] == s;
        assert((a + b + c)[a.len() + i] == s);
    }
}

} // verus!
