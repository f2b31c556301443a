//! Files that tasks consume and produce: where they come from in the store and
//! where they lie in the build tree.
use crate::path;
use crate::path::Misplaced;
use crate::shapes;
use crate::text;
use crate::views;
use vstd::prelude::*;

verus! {

broadcast use {views::texts_push, views::pieces_push};

/// A store object, or an output of a derivation that may itself be an output:
/// the store path of the innermost object, and the outputs taken from there on.
#[derive(Debug, Clone, PartialEq, Eq, Hash)]
pub struct DerivedPath {
    pub store_path: String,
    pub outputs: Vec<String>,
}

/// What a derived path says.
#[verifier::ext_equal]
pub struct PathView {
    pub store_path: Seq<char>,
    pub outputs: Seq<Seq<char>>,
}

impl View for DerivedPath {
    type V = PathView;

    open spec fn view(&self) -> PathView {
        PathView { store_path: self.store_path@, outputs: views::texts(self.outputs@) }
    }
}

/// A path to an object that is in the store.
pub open spec fn opaque_path(store_path: Seq<char>) -> PathView {
    PathView { store_path, outputs: Seq::empty() }
}

/// A path to an output of the derivation at `drv`.
pub open spec fn built_path(drv: PathView, output: Seq<char>) -> PathView {
    PathView { store_path: drv.store_path, outputs: drv.outputs.push(output) }
}

impl DerivedPath {
    /// A path to an object that is in the store.
    pub fn opaque(store_path: &str) -> (r: DerivedPath)
        ensures
            r@ == opaque_path(store_path@),
    {
        let c = text::chars_of(store_path);
        let outputs: Vec<String> = Vec::new();
        assert(views::texts(outputs@) =~= Seq::<Seq<char>>::empty());
        DerivedPath { store_path: text::string_of(&c), outputs }
    }

    /// A path to an output of the derivation at `drv`.
    pub fn built(drv: &DerivedPath, output: &str) -> (r: DerivedPath)
        ensures
            r@ == built_path(drv@, output@),
    {
        let mut r = drv.dup();
        let c = text::chars_of(output);
        r.outputs.push(text::string_of(&c));
        r
    }

    /// Whether the object is in the store already.
    pub fn is_opaque(&self) -> (r: bool)
        ensures
            r == (self@.outputs.len() == 0),
    {
        self.outputs.len() == 0
    }

    /// A copy.
    pub fn dup(&self) -> (r: DerivedPath)
        ensures
            r@ == self@,
    {
        DerivedPath { store_path: self.store_path.clone(), outputs: dup_strings(&self.outputs) }
    }

    /// Whether two paths are the same.
    pub fn same(&self, other: &DerivedPath) -> (r: bool)
        ensures
            r == (self@ == other@),
    {
        let r = text::same_str(self.store_path.as_str(), other.store_path.as_str())
            && crate::order::same_row(&self.outputs, &other.outputs);
        assert(r ==> self@ =~= other@);
        r
    }
}

/// A copy of a list of strings.
pub fn dup_strings(v: &Vec<String>) -> (r: Vec<String>)
    ensures
        views::texts(r@) == views::texts(v@),
{
    let ghost all = views::texts(v@);
    let mut out: Vec<String> = Vec::new();
    assert(views::texts(out@) =~= all.take(0));
    for i in 0..v.len()
        invariant
            all == views::texts(v@),
            views::texts(out@) == all.take(i as int),
    {
        out.push(v[i].clone());
        assert(all.take(i + 1) =~= all.take(i as int).push(v@[i as int]@));
    }
    assert(all.take(all.len() as int) =~= all);
    out
}

/// A file of a task: where it comes from, where it lies in the build tree, and,
/// for an output inside a store object, where it lies in there.
#[derive(Debug, Clone, PartialEq, Eq, Hash)]
pub struct DerivedFile {
    pub derived_path: DerivedPath,
    pub build_path: String,
    pub rel_path: Option<String>,
}

/// What a derived file says.
#[verifier::ext_equal]
pub struct FileView {
    pub derived_path: PathView,
    pub build_path: Seq<char>,
    pub rel_path: Option<Seq<char>>,
}

impl View for DerivedFile {
    type V = FileView;

    open spec fn view(&self) -> FileView {
        FileView {
            derived_path: self.derived_path@,
            build_path: self.build_path@,
            rel_path: views::opt_text(self.rel_path),
        }
    }
}

/// The views of a list of files.
pub open spec fn files(v: Seq<DerivedFile>) -> Seq<FileView> {
    v.map_values(|f: DerivedFile| f@)
}

/// One file more is one view more.
pub broadcast proof fn files_push(v: Seq<DerivedFile>, f: DerivedFile)
    ensures
        #[trigger] files(v.push(f)) == files(v).push(f@),
{
    assert(files(v.push(f)) =~= files(v).push(f@));
}

/// A file whose bytes are in the store.
pub open spec fn is_opaque(f: FileView) -> bool {
    f.derived_path.outputs.len() == 0
}

impl DerivedFile {
    /// A copy.
    pub fn dup(&self) -> (r: DerivedFile)
        ensures
            r@ == self@,
    {
        let rel_path = match &self.rel_path {
            Some(s) => Some(s.clone()),
            None => None,
        };
        DerivedFile {
            derived_path: self.derived_path.dup(),
            build_path: self.build_path.clone(),
            rel_path,
        }
    }

    /// Whether two files are the same.
    pub fn same(&self, other: &DerivedFile) -> (r: bool)
        ensures
            r == (self@ == other@),
    {
        let rel = match (&self.rel_path, &other.rel_path) {
            (Some(a), Some(b)) => text::same_str(a.as_str(), b.as_str()),
            (None, None) => true,
            _ => false,
        };
        let r = rel && self.derived_path.same(&other.derived_path) && text::same_str(
            self.build_path.as_str(),
            other.build_path.as_str(),
        );
        assert(r ==> self@ =~= other@);
        r
    }
}

/// A copy of a list of files.
pub fn dup_files(v: &Vec<DerivedFile>) -> (r: Vec<DerivedFile>)
    ensures
        files(r@) == files(v@),
{
    let ghost all = files(v@);
    let mut out: Vec<DerivedFile> = Vec::new();
    assert(files(out@) =~= all.take(0));
    for i in 0..v.len()
        invariant
            all == files(v@),
            files(out@) == all.take(i as int),
    {
        let ghost before = out@;
        out.push(v[i].dup());
        assert(files(out@) =~= files(before).push(v@[i as int]@));
        assert(all.take(i + 1) =~= all.take(i as int).push(v@[i as int]@));
    }
    assert(all.take(all.len() as int) =~= all);
    out
}

/// A file that is uploaded as it is.
pub open spec fn opaque_file(store_path: Seq<char>, build_path: Seq<char>) -> FileView {
    FileView { derived_path: opaque_path(store_path), build_path, rel_path: None }
}

/// A file that the derivation at `drv` produces at `build_path`.
pub open spec fn built_file(drv: PathView, build_path: Seq<char>) -> FileView {
    FileView {
        derived_path: built_path(drv, shapes::store_name(build_path)),
        build_path,
        rel_path: Some(path::render(path::no_climb(path::comps(build_path)))),
    }
}

/// A file that is uploaded as it is.
pub fn new_opaque(store_path: &str, build_path: &str) -> (r: DerivedFile)
    ensures
        r@ == opaque_file(store_path@, build_path@),
{
    let c = text::chars_of(build_path);
    DerivedFile {
        derived_path: DerivedPath::opaque(store_path),
        build_path: text::string_of(&c),
        rel_path: None,
    }
}

/// A file that the derivation produces at `build_path`: its output is named
/// after the build path, and it lies at that path in the output, climbs spelled out.
pub fn new_built_file(derived_path: &DerivedPath, build_path: &str) -> (r: DerivedFile)
    ensures
        r@ == built_file(derived_path@, build_path@),
{
    let name = shapes::normalize_output(build_path);
    let rel = path::store_rel_path(build_path);
    let c = text::chars_of(build_path);
    DerivedFile {
        derived_path: DerivedPath::built(derived_path, name.as_str()),
        build_path: text::string_of(&c),
        rel_path: Some(rel),
    }
}

/// An output that has no place under the build directory.
#[derive(Debug)]
pub struct MisplacedOutput {
    pub label: String,
    pub name: String,
    pub cause: Misplaced,
}

/// What to say of a declared output that has no place under the build directory.
pub open spec fn misplaced_text(
    label: Seq<char>,
    name: Seq<char>,
    build_dir: Seq<char>,
) -> Seq<char> {
    "task "@ + label + ": declared output "@ + name + " is not under the build directory "@
        + build_dir + "; failing the task rather than dropping the output"@
}

/// The first name that has no place under the build directory.
pub open spec fn first_misplaced(
    build_dir: Seq<char>,
    names: Seq<Seq<char>>,
    name: Seq<char>,
) -> bool {
    exists|i: int|
        0 <= i < names.len() && name == #[trigger] names[i] && path::normalized(build_dir, name)
            is None && all_placed(build_dir, names.take(i))
}

impl MisplacedOutput {
    /// What to tell the user.
    pub fn message(&self) -> (r: String)
        ensures
            r@ == misplaced_text(self.label@, self.name@, self.cause.build_dir@),
    {
        let mut v = text::chars_of("task ");
        text::append_str(&mut v, self.label.as_str());
        text::append_str(&mut v, ": declared output ");
        text::append_str(&mut v, self.name.as_str());
        text::append_str(&mut v, " is not under the build directory ");
        text::append_str(&mut v, self.cause.build_dir.as_str());
        text::append_str(&mut v, "; failing the task rather than dropping the output");
        text::string_of(&v)
    }
}

/// The build-directory spelling of a name that has one.
pub open spec fn placed(build_dir: Seq<char>, name: Seq<char>) -> Seq<char> {
    path::normalized(build_dir, name)->0
}

/// Every name has a place under the build directory.
pub open spec fn all_placed(build_dir: Seq<char>, names: Seq<Seq<char>>) -> bool {
    forall|i: int|
        0 <= i < names.len() ==> path::normalized(build_dir, #[trigger] names[i]) is Some
}

/// The file that the derivation at `drv` produces for each name.
pub open spec fn built_files(
    build_dir: Seq<char>,
    names: Seq<Seq<char>>,
    drv: PathView,
) -> Seq<FileView> {
    names.map_values(|n: Seq<char>| built_file(drv, placed(build_dir, n)))
}

/// The files that a task's derivation produces, one for each declared name and
/// in their order. One name without a place fails the whole task: no part of
/// the outputs is returned.
pub fn normalized_task_outputs(
    build_dir: &str,
    names: &Vec<String>,
    final_derived_path: &DerivedPath,
    label: &str,
) -> (r: Result<Vec<DerivedFile>, MisplacedOutput>)
    ensures
        match r {
            Ok(v) => all_placed(build_dir@, views::texts(names@)) && files(v@) == built_files(
                build_dir@,
                views::texts(names@),
                final_derived_path@,
            ),
            Err(e) => !all_placed(build_dir@, views::texts(names@)) && e.label@ == label@ && e.cause.path@
                == e.name@ && e.cause.build_dir@ == build_dir@ && first_misplaced(
                build_dir@,
                views::texts(names@),
                e.name@,
            ),
        },
{
    let ghost all = views::texts(names@);
    let ghost want = built_files(build_dir@, all, final_derived_path@);
    let mut out: Vec<DerivedFile> = Vec::new();
    assert(files(out@) =~= want.take(0));
    for i in 0..names.len()
        invariant
            all == views::texts(names@),
            want == built_files(build_dir@, all, final_derived_path@),
            forall|j: int|
                0 <= j < i ==> path::normalized(build_dir@, #[trigger] all[j]) is Some,
            files(out@) == want.take(i as int),
    {
        assert(all[i as int] == names@[i as int]@);
        match path::normalize_build_path(build_dir, names[i].as_str()) {
            Ok(p) => {
                let ghost before = out@;
                out.push(new_built_file(final_derived_path, p.as_str()));
                assert(files(out@) =~= files(before).push(
                    built_file(final_derived_path@, placed(build_dir@, all[i as int])),
                ));
                assert(want.take(i + 1) =~= want.take(i as int).push(want[i as int]));
            },
            Err(cause) => {
                let l = text::chars_of(label);
                assert forall|j: int| 0 <= j < all.take(i as int).len() implies path::normalized(
                    build_dir@,
                    #[trigger] all.take(i as int)[j],
                ) is Some by {
                    assert(all.take(i as int)[j] == all[j]);
                }
                return Err(
                    MisplacedOutput { label: text::string_of(&l), name: names[i].clone(), cause },
                );
            },
        }
    }
    assert(want.take(all.len() as int) =~= want);
    Ok(out)
}

// ---------------------------------------------------------------------------
// Laws
// ---------------------------------------------------------------------------

/// A file that a derivation produces is its output under the store name of the
/// file's place, and lies there with its climbs named; an uploaded file is the
/// object itself.
pub proof fn files_are_outputs_of_their_derivation(drv: PathView, p: Seq<char>, s: Seq<char>)
    ensures
        built_file(drv, p).build_path == p,
        built_file(drv, p).derived_path.store_path == drv.store_path,
        built_file(drv, p).derived_path.outputs == drv.outputs.push(shapes::store_name(p)),
        built_file(drv, p).rel_path == Some(path::render(path::no_climb(path::comps(p)))),
        !is_opaque(built_file(drv, p)),
        is_opaque(opaque_file(s, p)),
        opaque_file(s, p).build_path == p,
        opaque_file(s, p).derived_path.store_path == s,
        opaque_file(s, p).rel_path is None,
{
}

/// There is a first name without a place exactly where not every name has one.
pub proof fn some_name_is_the_first_without_a_place(build_dir: Seq<char>, names: Seq<Seq<char>>)
    ensures
        !all_placed(build_dir, names) <==> exists|n: Seq<char>| #[trigger]
            first_misplaced(build_dir, names, n),
    decreases names.len(),
{
    if !all_placed(build_dir, names) {
        let f = names.drop_last();
        let k = names.len() - 1;
        assert(names.len() > 0);
        assert(f =~= names.take(k));
        if all_placed(build_dir, f) {
            assert(path::normalized(build_dir, names[k]) is None) by {
                if path::normalized(build_dir, names[k]) is Some {
                    assert forall|i: int| 0 <= i < names.len() implies path::normalized(
                        build_dir,
                        #[trigger] names[i],
                    ) is Some by {
                        if i < k {
                            assert(f[i] == names[i]);
                        }
                    }
                }
            }
            assert(first_misplaced(build_dir, names, names[k]));
        } else {
            some_name_is_the_first_without_a_place(build_dir, f);
            let n = choose|n: Seq<char>| #[trigger] first_misplaced(build_dir, f, n);
            let i = choose|i: int|
                0 <= i < f.len() && n == #[trigger] f[i] && path::normalized(build_dir, n) is None
                    && all_placed(build_dir, f.take(i));
            assert(names[i] == n);
            assert(f.take(i) =~= names.take(i));
            assert(first_misplaced(build_dir, names, n));
        }
    }
}

} // verus!
