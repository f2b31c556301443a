//! Discovery of what a compilation includes: whether a dependency file may be
//! read back, which answer is used, and what becomes of each include.
use crate::command;
use crate::derived;
use crate::derived::DerivedFile;
use crate::derived::FileView;
use crate::order;
use crate::path;
use crate::shapes;
use crate::store;
use crate::task::Task;
use crate::text;
use crate::text::Class;
use crate::views;
use vstd::prelude::*;

verus! {

broadcast use {views::texts_push, views::pieces_push};

/// What was discovered for a task.
#[derive(Debug)]
pub struct Discovered {
    /// Files that were uploaded.
    pub deps: Vec<DerivedFile>,
    /// Store paths.
    pub store_paths: Vec<String>,
    /// Directories that includes climb through.
    pub dotdot_dirs: Vec<String>,
}

// ---------------------------------------------------------------------------
// What the discovery starts from
// ---------------------------------------------------------------------------

/// The build paths of the uploaded files.
pub open spec fn uploaded_paths(fs: Seq<FileView>) -> Seq<Seq<char>>
    decreases fs.len(),
{
    if fs.len() == 0 {
        Seq::empty()
    } else if derived::is_opaque(fs.last()) {
        uploaded_paths(fs.drop_last()).push(fs.last().build_path)
    } else {
        uploaded_paths(fs.drop_last())
    }
}

/// The files to look for includes in: the uploaded inputs, and the sources in
/// the store. What is a directory is for the caller to leave out.
pub fn discovery_seeds(t: &Task) -> (r: Vec<String>)
    ensures
        views::texts(r@) == uploaded_paths(derived::files(t.inputs@)) + views::texts(t.store_srcs@),
{
    let ghost all = derived::files(t.inputs@);
    let mut out: Vec<String> = Vec::new();
    assert(views::texts(out@) =~= uploaded_paths(all.take(0)));
    for i in 0..t.inputs.len()
        invariant
            all == derived::files(t.inputs@),
            views::texts(out@) == uploaded_paths(all.take(i as int)),
    {
        assert(all.take(i + 1).drop_last() =~= all.take(i as int));
        assert(all.take(i + 1).last() == t.inputs@[i as int]@);
        if t.inputs[i].derived_path.is_opaque() {
            out.push(t.inputs[i].build_path.clone());
        }
    }
    assert(all.take(all.len() as int) =~= all);
    let ghost front = uploaded_paths(all);
    let ghost more = views::texts(t.store_srcs@);
    assert(views::texts(out@) =~= front + more.take(0));
    for i in 0..t.store_srcs.len()
        invariant
            more == views::texts(t.store_srcs@),
            views::texts(out@) == front + more.take(i as int),
    {
        out.push(t.store_srcs[i].clone());
        assert((front + more.take(i as int)).push(t.store_srcs@[i as int]@) =~= front + more.take(
            i + 1,
        ));
    }
    assert(more.take(more.len() as int) =~= more);
    out
}

/// The build paths of the files that are none of some outputs.
pub open spec fn inputs_only(fs: Seq<FileView>, outs: Seq<Seq<char>>) -> Seq<Seq<char>>
    decreases fs.len(),
{
    if fs.len() == 0 {
        Seq::empty()
    } else if path::listed(outs, fs.last().build_path) {
        inputs_only(fs.drop_last(), outs)
    } else {
        inputs_only(fs.drop_last(), outs).push(fs.last().build_path)
    }
}

/// The paths that the task declares as inputs, whether they are on disk or
/// not: an include of one of them is accounted for. An output is none.
pub fn declared_inputs(t: &Task) -> (r: Vec<String>)
    ensures
        views::texts(r@) == inputs_only(derived::files(t.inputs@), views::texts(t.outputs@)),
{
    let ghost all = derived::files(t.inputs@);
    let ghost outs = views::texts(t.outputs@);
    let mut out: Vec<String> = Vec::new();
    assert(views::texts(out@) =~= inputs_only(all.take(0), outs));
    for i in 0..t.inputs.len()
        invariant
            all == derived::files(t.inputs@),
            outs == views::texts(t.outputs@),
            views::texts(out@) == inputs_only(all.take(i as int), outs),
    {
        assert(all.take(i + 1).drop_last() =~= all.take(i as int));
        assert(all.take(i + 1).last() == t.inputs@[i as int]@);
        if !path::in_list(&t.outputs, t.inputs[i].build_path.as_str()) {
            out.push(t.inputs[i].build_path.clone());
        }
    }
    assert(all.take(all.len() as int) =~= all);
    out
}

// ---------------------------------------------------------------------------
// Reading a dependency file back
// ---------------------------------------------------------------------------

/// The dependency file that may be read back: none where the command uses a
/// precompiled header, whose own includes such a file does not name.
pub fn readable_depfile(cmdline: &str, depfile: Option<&str>) -> (r: Option<String>)
    ensures
        views::opt_text(r) == if command::has_word(cmdline@, "-include"@) {
            None
        } else {
            views::opt_str(depfile)
        },
{
    if command::uses_precompiled_header(cmdline) {
        return None;
    }
    match depfile {
        Some(d) => {
            let c = text::chars_of(d);
            Some(text::string_of(&c))
        },
        None => None,
    }
}

/// When something was last changed, in nanoseconds; none where that cannot be told.
pub type Changed = Option<i128>;

/// Something is not newer than the dependency file.
pub open spec fn no_newer(m: Changed, dep: int) -> bool {
    m matches Some(t) && t <= dep
}

/// A header that the dependency file names does not stand against it: it is
/// not newer; or, where its age cannot be told, it is in the store or declared.
pub open spec fn header_fits(
    h: Seq<char>,
    m: Changed,
    dep: int,
    store_dir: Seq<char>,
    declared: Seq<Seq<char>>,
) -> bool {
    match m {
        Some(t) => t <= dep,
        None => path::under(h, store_dir) || path::listed(declared, h),
    }
}

/// The time at an index; none behind the end.
pub open spec fn changed_at(ms: Seq<Changed>, i: int) -> Changed {
    if 0 <= i < ms.len() {
        ms[i]
    } else {
        None
    }
}

/// The dependency file tells what the compilation includes: it is no file of
/// the store, its age and its text are known, it names something, no source is
/// newer or of unknown age, and no header stands against it.
pub open spec fn reads_back(
    store_dir: Seq<char>,
    canonical: Option<Seq<char>>,
    dep: Changed,
    named: Option<Seq<Seq<char>>>,
    sources: Seq<Changed>,
    headers: Seq<Changed>,
    declared: Seq<Seq<char>>,
) -> bool {
    &&& !(canonical matches Some(c) && path::under(c, store_dir))
    &&& dep matches Some(d)
    &&& named matches Some(hs)
    &&& hs.len() > 0
    &&& forall|i: int| 0 <= i < sources.len() ==> no_newer(#[trigger] sources[i], d as int)
    &&& forall|i: int|
        0 <= i < hs.len() ==> header_fits(
            #[trigger] hs[i],
            changed_at(headers, i),
            d as int,
            store_dir,
            declared,
        )
}

/// What a dependency file says is included, where it can be relied on.
/// `canonical` is where it lies, `dep` when it was written, `named` what it
/// names; `sources` and `headers` tell the ages of the sources and of what it
/// names, and `declared` are the paths that the task declares as inputs.
#[verifier::loop_isolation(false)]
pub fn depfile_read_back(
    store_dir: &str,
    canonical: Option<&str>,
    dep: Changed,
    named: Option<Vec<String>>,
    sources: &Vec<Changed>,
    headers: &Vec<Changed>,
    declared: &Vec<String>,
) -> (r: Option<Vec<String>>)
    ensures
        match r {
            Some(v) => named == Some(v) && reads_back(
                store_dir@,
                views::opt_str(canonical),
                dep,
                views::opt_texts(named),
                sources@,
                headers@,
                views::texts(declared@),
            ),
            None => !reads_back(
                store_dir@,
                views::opt_str(canonical),
                dep,
                views::opt_texts(named),
                sources@,
                headers@,
                views::texts(declared@),
            ),
        },
{
    let s = text::chars_of(store_dir);
    if let Some(c) = canonical {
        let p = text::chars_of(c);
        if path::is_under(&p, &s) {
            return None;
        }
    }
    let dep = match dep {
        Some(d) => d,
        None => {
            return None;
        },
    };
    let hs = match named {
        Some(v) => v,
        None => {
            return None;
        },
    };
    if hs.len() == 0 {
        return None;
    }
    for i in 0..sources.len()
        invariant
            forall|j: int| 0 <= j < i ==> no_newer(#[trigger] sources@[j], dep as int),
    {
        let fresh = match sources[i] {
            Some(t) => t <= dep,
            None => false,
        };
        if !fresh {
            assert(!no_newer(sources@[i as int], dep as int));
            return None;
        }
    }
    let ghost all = views::texts(hs@);
    for i in 0..hs.len()
        invariant
            all == views::texts(hs@),
            s@ == store_dir@,
            forall|j: int|
                0 <= j < i ==> header_fits(
                    #[trigger] all[j],
                    changed_at(headers@, j),
                    dep as int,
                    store_dir@,
                    views::texts(declared@),
                ),
    {
        assert(all[i as int] == hs@[i as int]@);
        let m = if i < headers.len() {
            headers[i]
        } else {
            None
        };
        let fits = match m {
            Some(t) => t <= dep,
            None => {
                let h = text::chars_of(hs[i].as_str());
                path::is_under(&h, &s) || path::in_list(declared, hs[i].as_str())
            },
        };
        if !fits {
            assert(!header_fits(
                all[i as int],
                changed_at(headers@, i as int),
                dep as int,
                store_dir@,
                views::texts(declared@),
            ));
            return None;
        }
    }
    Some(hs)
}

// ---------------------------------------------------------------------------
// The answer
// ---------------------------------------------------------------------------

/// What the scan found, and what the preprocessor found besides, each once.
pub fn merge_scan_and_preprocessor(
    scanned: Vec<String>,
    preprocessed: &Vec<String>,
) -> (r: Vec<String>)
    ensures
        views::texts(r@) == crate::outputs::with_paths(
            path::first_paths(views::texts(scanned@)),
            views::texts(preprocessed@),
        ),
{
    let mut out = path::dedup_paths(&scanned);
    crate::outputs::add_paths(&mut out, preprocessed);
    out
}

/// Where an answer comes from.
#[derive(Debug, Clone, Copy, PartialEq, Eq)]
pub enum AnswerSource {
    ReadBack,
    Scan,
    ScanAndPreprocessor,
    ScanAlone,
}

/// The name of a source in messages.
pub open spec fn source_text(s: AnswerSource, depfile: Seq<char>) -> Seq<char> {
    match s {
        AnswerSource::ReadBack => "a depfile read-back of "@ + depfile,
        AnswerSource::Scan => "the scan"@,
        AnswerSource::ScanAndPreprocessor => "the scan and the preprocessor"@,
        AnswerSource::ScanAlone => "the scan, the preprocessor having failed"@,
    }
}

impl AnswerSource {
    /// The name of the source in messages.
    pub fn describe(self, depfile: &str) -> (r: String)
        ensures
            r@ == source_text(self, depfile@),
    {
        match self {
            AnswerSource::ReadBack => {
                let mut c = text::chars_of("a depfile read-back of ");
                text::append_str(&mut c, depfile);
                text::string_of(&c)
            },
            AnswerSource::Scan => {
                let c = text::chars_of("the scan");
                text::string_of(&c)
            },
            AnswerSource::ScanAndPreprocessor => {
                let c = text::chars_of("the scan and the preprocessor");
                text::string_of(&c)
            },
            AnswerSource::ScanAlone => {
                let c = text::chars_of("the scan, the preprocessor having failed");
                text::string_of(&c)
            },
        }
    }
}

/// The includes of a scan. A scan that met an include which it could not
/// resolve is completed by the preprocessor, where that succeeds; what the scan
/// found is never dropped.
pub fn scan_answer(
    scanned: Vec<String>,
    incomplete: bool,
    preprocessed: Option<&Vec<String>>,
) -> (r: (Vec<String>, AnswerSource))
    ensures
        views::texts(r.0@) == match preprocessed {
            Some(p) => if incomplete {
                crate::outputs::with_paths(
                    path::first_paths(views::texts(scanned@)),
                    views::texts(p@),
                )
            } else {
                views::texts(scanned@)
            },
            None => views::texts(scanned@),
        },
        r.1 == if !incomplete {
            AnswerSource::Scan
        } else if preprocessed is Some {
            AnswerSource::ScanAndPreprocessor
        } else {
            AnswerSource::ScanAlone
        },
{
    if !incomplete {
        return (scanned, AnswerSource::Scan);
    }
    match preprocessed {
        Some(p) => (merge_scan_and_preprocessor(scanned, p), AnswerSource::ScanAndPreprocessor),
        None => (scanned, AnswerSource::ScanAlone),
    }
}

// ---------------------------------------------------------------------------
// What becomes of each include
// ---------------------------------------------------------------------------

/// An include that the task declares as an input and that nothing has written
/// yet: the edge that produces it supplies it.
pub open spec fn is_pending(header: Seq<char>, declared: Option<Seq<Seq<char>>>, exists: bool) -> bool {
    declared matches Some(ps) && path::listed(ps, header) && !exists
}

/// What is declared, where anything is.
pub open spec fn opt_list(o: Option<&Vec<String>>) -> Option<Seq<Seq<char>>> {
    match o {
        Some(v) => Some(views::texts(v@)),
        None => None,
    }
}

/// Whether an include is declared as an input and not written yet. One that is
/// merely missing is not: it has to reach the upload, which fails.
pub fn generated_not_yet_written(
    header: &str,
    declared: Option<&Vec<String>>,
    exists: bool,
) -> (r: bool)
    ensures
        r == is_pending(header@, opt_list(declared), exists),
{
    match declared {
        Some(v) => path::in_list(v, header) && !exists,
        None => false,
    }
}

/// The spelling at which an include is looked for on disk.
pub fn include_place(build_dir: &str, header: &str) -> (r: String)
    ensures
        r@ == path::joined(build_dir@, header@),
{
    path::join_str(build_dir, header)
}

/// What becomes of an include.
pub enum Fate {
    /// It is an input already.
    Known,
    /// It is in this store object.
    InStore(Seq<char>),
    /// It is not written yet.
    Pending,
    /// It is uploaded.
    Upload,
}

/// What becomes of an include.
pub open spec fn fate_of(
    store_dir: Seq<char>,
    files: Seq<Seq<char>>,
    declared: Option<Seq<Seq<char>>>,
    header: Seq<char>,
    exists: bool,
) -> Fate {
    if path::listed(files, header) {
        Fate::Known
    } else {
        match store::object_of(store_dir, header) {
            Some(o) => Fate::InStore(o),
            None => if is_pending(header, declared, exists) {
                Fate::Pending
            } else {
                Fate::Upload
            },
        }
    }
}

/// The includes of a task, told apart.
#[derive(Debug)]
pub struct Includes {
    /// The store objects that includes lie in, one for each such include.
    pub store_objects: Vec<String>,
    /// The includes to upload.
    pub to_upload: Vec<String>,
    /// Those of them that are not there.
    pub absent: Vec<String>,
    /// The headers among the inputs that are included, each once.
    pub used_headers: Vec<String>,
}

/// What includes that are told apart say.
#[verifier::ext_equal]
pub struct IncludesView {
    pub store_objects: Seq<Seq<char>>,
    pub to_upload: Seq<Seq<char>>,
    pub absent: Seq<Seq<char>>,
    pub used_headers: Seq<Seq<char>>,
}

impl View for Includes {
    type V = IncludesView;

    open spec fn view(&self) -> IncludesView {
        IncludesView {
            store_objects: views::texts(self.store_objects@),
            to_upload: views::texts(self.to_upload@),
            absent: views::texts(self.absent@),
            used_headers: views::texts(self.used_headers@),
        }
    }
}

/// The answer at an index; no behind the end.
pub open spec fn there_at(exists: Seq<bool>, i: int) -> bool {
    0 <= i < exists.len() && exists[i]
}

/// One include more told apart.
pub open spec fn with_include(s: IncludesView, header: Seq<char>, fate: Fate, exists: bool) -> IncludesView {
    match fate {
        Fate::Known => if shapes::is_header(header) {
            IncludesView { used_headers: path::with_path(s.used_headers, header), ..s }
        } else {
            s
        },
        Fate::InStore(o) => IncludesView { store_objects: s.store_objects.push(o), ..s },
        Fate::Pending => s,
        Fate::Upload => IncludesView {
            to_upload: s.to_upload.push(header),
            absent: if exists {
                s.absent
            } else {
                s.absent.push(header)
            },
            ..s
        },
    }
}

/// Includes told apart.
pub open spec fn told_apart(
    store_dir: Seq<char>,
    files: Seq<Seq<char>>,
    declared: Option<Seq<Seq<char>>>,
    includes: Seq<Seq<char>>,
    exists: Seq<bool>,
) -> IncludesView
    decreases includes.len(),
{
    if includes.len() == 0 {
        IncludesView {
            store_objects: Seq::empty(),
            to_upload: Seq::empty(),
            absent: Seq::empty(),
            used_headers: Seq::empty(),
        }
    } else {
        let n = includes.len() - 1;
        with_include(
            told_apart(store_dir, files, declared, includes.drop_last(), exists),
            includes[n],
            fate_of(store_dir, files, declared, includes[n], there_at(exists, n)),
            there_at(exists, n),
        )
    }
}

/// Tells the includes of a task apart. `files` are those that the discovery
/// started from, `declared` the paths that the task declares as inputs, and
/// `exists` tells of each include whether it is on disk.
pub fn discover_c_includes(
    store_dir: &str,
    files: &Vec<String>,
    declared: Option<&Vec<String>>,
    includes: &Vec<String>,
    exists: &Vec<bool>,
) -> (r: Includes)
    ensures
        r@ == told_apart(
            store_dir@,
            views::texts(files@),
            opt_list(declared),
            views::texts(includes@),
            exists@,
        ),
{
    let ghost all = views::texts(includes@);
    let ghost fs = views::texts(files@);
    let mut r = Includes {
        store_objects: Vec::new(),
        to_upload: Vec::new(),
        absent: Vec::new(),
        used_headers: Vec::new(),
    };
    assert(r@ =~= told_apart(store_dir@, fs, opt_list(declared), all.take(0), exists@));
    for i in 0..includes.len()
        invariant
            all == views::texts(includes@),
            fs == views::texts(files@),
            r@ == told_apart(store_dir@, fs, opt_list(declared), all.take(i as int), exists@),
    {
        let ghost before = r@;
        proof {
            assert(all.take(i + 1).drop_last() =~= all.take(i as int));
            assert(all.take(i + 1)[i as int] == includes@[i as int]@);
        }
        let there = i < exists.len() && exists[i];
        if path::in_list(files, includes[i].as_str()) {
            if shapes::header_like(includes[i].as_str()) {
                path::add_path(&mut r.used_headers, includes[i].clone());
            }
        } else {
            match store::store_object(store_dir, includes[i].as_str()) {
                Some(o) => {
                    r.store_objects.push(o);
                },
                None => {
                    if !generated_not_yet_written(includes[i].as_str(), declared, there) {
                        if !there {
                            r.absent.push(includes[i].clone());
                        }
                        r.to_upload.push(includes[i].clone());
                    }
                },
            }
        }
        assert(r@ =~= with_include(
            before,
            all[i as int],
            fate_of(store_dir@, fs, opt_list(declared), all[i as int], there),
            there,
        ));
    }
    assert(all.take(all.len() as int) =~= all);
    r
}

/// What to say of the includes that are not there.
pub open spec fn absent_note(absent: Seq<Seq<char>>) -> Seq<char> {
    if absent.len() == 0 {
        Seq::empty()
    } else {
        "; "@ + text::decimal(absent.len()) + " of them absent and not declared, first "@
            + absent[0]
    }
}

/// What to say where the upload of discovered includes fails.
pub fn upload_note(
    seed: &str,
    count: usize,
    source: &str,
    seeds: usize,
    absent: &Vec<String>,
) -> (r: String)
    ensures
        r@ == "uploading includes discovered for "@ + seed@ + " ("@ + text::decimal(count as nat)
            + " from "@ + source@ + ", "@ + text::decimal(seeds as nat) + " seed(s)"@ + absent_note(
            views::texts(absent@),
        ) + ")"@,
{
    let mut v = text::chars_of("uploading includes discovered for ");
    text::append_str(&mut v, seed);
    text::append_str(&mut v, " (");
    let c = text::number(count as u64);
    text::append(&mut v, &c);
    text::append_str(&mut v, " from ");
    text::append_str(&mut v, source);
    text::append_str(&mut v, ", ");
    let s = text::number(seeds as u64);
    text::append(&mut v, &s);
    text::append_str(&mut v, " seed(s)");
    let ghost before = v@;
    if absent.len() > 0 {
        assert(views::texts(absent@)[0] == absent@[0]@);
        let mut note = text::chars_of("; ");
        let n = text::number(absent.len() as u64);
        text::append(&mut note, &n);
        text::append_str(&mut note, " of them absent and not declared, first ");
        text::append_str(&mut note, absent[0].as_str());
        text::append(&mut v, &note);
    } else {
        assert(before + absent_note(views::texts(absent@)) =~= before);
    }
    text::append_str(&mut v, ")");
    text::string_of(&v)
}

/// The name of a discovery in messages: its first file.
pub fn seed_label(files: &Vec<String>) -> (r: String)
    ensures
        r@ == if files@.len() > 0 {
            views::texts(files@)[0]
        } else {
            "<no seed>"@
        },
{
    if files.len() > 0 {
        files[0].clone()
    } else {
        let c = text::chars_of("<no seed>");
        text::string_of(&c)
    }
}

// ---------------------------------------------------------------------------
// Directories that includes climb through
// ---------------------------------------------------------------------------

/// A directory as it is declared: as seen from the build directory, where it
/// can be and holds no white space.
pub open spec fn declared_dir(build_dir: Seq<char>, d: Seq<char>) -> Option<Seq<char>> {
    match path::relative(d, build_dir) {
        Some(rel) => if path::is_abs(rel) || text::has_class(rel, Class::Space) {
            None
        } else {
            Some(rel)
        },
        None => None,
    }
}

/// The words with the directories that are not among them.
pub open spec fn with_dirs(
    words: Seq<Seq<char>>,
    build_dir: Seq<char>,
    dirs: Seq<Seq<char>>,
) -> Seq<Seq<char>>
    decreases dirs.len(),
{
    if dirs.len() == 0 {
        words
    } else {
        let front = with_dirs(words, build_dir, dirs.drop_last());
        match declared_dir(build_dir, dirs.last()) {
            Some(d) => if front.contains(d) {
                front
            } else {
                front.push(d)
            },
            None => front,
        }
    }
}

/// The declaration of directories, what was declared before included, in order.
pub open spec fn merged_dirs(
    existing: Seq<char>,
    build_dir: Seq<char>,
    dirs: Seq<Seq<char>>,
) -> Seq<char> {
    text::join(order::sorted_texts(with_dirs(text::words(existing), build_dir, dirs)), " "@)
}

/// The declaration of directories, what was declared before included, in order.
pub fn dotdot_dirs_env(existing: &str, build_dir: &str, dirs: &Vec<String>) -> (r: String)
    ensures
        r@ == merged_dirs(existing@, build_dir@, views::texts(dirs@)),
{
    let ws = text::words_of_str(existing);
    let mut all = text::strings_of(&ws);
    let ghost start = text::words(existing@);
    let ghost gd = views::texts(dirs@);
    assert(gd.take(0) =~= Seq::<Seq<char>>::empty());
    for i in 0..dirs.len()
        invariant
            gd == views::texts(dirs@),
            views::texts(all@) == with_dirs(start, build_dir@, gd.take(i as int)),
    {
        assert(gd.take(i + 1).drop_last() =~= gd.take(i as int));
        assert(gd.take(i + 1).last() == dirs@[i as int]@);
        if let Some(rel) = path::relative_from(dirs[i].as_str(), build_dir) {
            let c = text::chars_of(rel.as_str());
            if !path::absolute(&c) && !text::any_in(&c, Class::Space) {
                if !text::list_has(&all, rel.as_str()) {
                    all.push(rel);
                }
            }
        }
    }
    assert(gd.take(gd.len() as int) =~= gd);
    let sorted = order::sort_strings(&all);
    text::joined_strings(&sorted, " ")
}

// ---------------------------------------------------------------------------
// Laws
// ---------------------------------------------------------------------------

/// No include that is missing is passed over in silence: every include is an
/// input already, is in the store, is declared, or is uploaded; and only what
/// is declared can be missing without being uploaded.
pub proof fn nothing_is_dropped(
    store_dir: Seq<char>,
    files: Seq<Seq<char>>,
    declared: Option<Seq<Seq<char>>>,
    header: Seq<char>,
    exists: bool,
)
    ensures
        fate_of(store_dir, files, declared, header, exists) is Pending ==> !exists && (
        declared matches Some(ps) && path::listed(ps, header)),
        exists && !path::listed(files, header) && store::object_of(store_dir, header) is None
            ==> fate_of(store_dir, files, declared, header, exists) is Upload,
{
}

/// The headers that count as used are inputs that were included, each once;
/// what is uploaded besides is no input: the two never meet.
pub proof fn used_headers_are_inputs(
    store_dir: Seq<char>,
    files: Seq<Seq<char>>,
    declared: Option<Seq<Seq<char>>>,
    includes: Seq<Seq<char>>,
    exists: Seq<bool>,
)
    ensures
        ({
            let r = told_apart(store_dir, files, declared, includes, exists);
            &&& forall|i: int|
                0 <= i < r.used_headers.len() ==> path::listed(files, #[trigger] r.used_headers[i])
                    && shapes::is_header(r.used_headers[i]) && includes.contains(r.used_headers[i])
            &&& forall|i: int, j: int|
                0 <= i < j < r.used_headers.len() ==> !path::same_path(
                    #[trigger] r.used_headers[i],
                    #[trigger] r.used_headers[j],
                )
            &&& forall|i: int|
                0 <= i < r.to_upload.len() ==> !path::listed(files, #[trigger] r.to_upload[i])
                    && includes.contains(r.to_upload[i])
        }),
    decreases includes.len(),
{
    if includes.len() > 0 {
        let n = includes.len() - 1;
        let front = includes.drop_last();
        used_headers_are_inputs(store_dir, files, declared, front, exists);
        let s = told_apart(store_dir, files, declared, front, exists);
        let r = told_apart(store_dir, files, declared, includes, exists);
        assert forall|h: Seq<char>| front.contains(h) implies #[trigger] includes.contains(h) by {
            let i = choose|i: int| 0 <= i < front.len() && front[i] == h;
            assert(includes[i] == h);
        }
        assert(includes.contains(includes[n]));
    }
}

/// A dependency file that names a header newer than itself is never relied on.
pub proof fn newer_headers_refuse(
    store_dir: Seq<char>,
    canonical: Option<Seq<char>>,
    dep: Changed,
    named: Option<Seq<Seq<char>>>,
    sources: Seq<Changed>,
    headers: Seq<Changed>,
    declared: Seq<Seq<char>>,
    i: int,
)
    requires
        named matches Some(hs) && 0 <= i < hs.len() && i < headers.len(),
        dep matches Some(d) && headers[i] matches Some(t) && t > d,
    ensures
        !reads_back(store_dir, canonical, dep, named, sources, headers, declared),
{
    if reads_back(store_dir, canonical, dep, named, sources, headers, declared) {
        let hs = named->0;
        assert(header_fits(
            hs[i],
            changed_at(headers, i),
            dep->0 as int,
            store_dir,
            declared,
        ));
    }
}

/// What was declared before stays declared.
pub proof fn declared_dirs_stay(
    words: Seq<Seq<char>>,
    build_dir: Seq<char>,
    dirs: Seq<Seq<char>>,
    w: Seq<char>,
)
    requires
        words.contains(w),
    ensures
        with_dirs(words, build_dir, dirs).contains(w),
    decreases dirs.len(),
{
    if dirs.len() > 0 {
        declared_dirs_stay(words, build_dir, dirs.drop_last(), w);
        let front = with_dirs(words, build_dir, dirs.drop_last());
        let i = choose|i: int| 0 <= i < front.len() && front[i] == w;
        assert(with_dirs(words, build_dir, dirs)[i] == w);
    }
}

/// The preprocessor adds to the scan and never replaces it: what was scanned
/// comes first and in its order, everything that either names is there, and
/// nothing is there twice.
pub proof fn union_keeps_both(scanned: Seq<Seq<char>>, more: Seq<Seq<char>>)
    ensures
        ({
            let all = crate::outputs::with_paths(path::first_paths(scanned), more);
            &&& path::first_paths(scanned).is_prefix_of(all)
            &&& forall|i: int| 0 <= i < scanned.len() ==> path::listed(all, #[trigger] scanned[i])
            &&& forall|i: int| 0 <= i < more.len() ==> path::listed(all, #[trigger] more[i])
            &&& forall|i: int, j: int|
                0 <= i < j < all.len() ==> !path::same_path(#[trigger] all[i], #[trigger] all[j])
        }),
{
    let first = path::first_paths(scanned);
    let all = crate::outputs::with_paths(first, more);
    path::first_paths_cover(scanned);
    added_paths(first, more);
    assert forall|i: int| 0 <= i < scanned.len() implies path::listed(
        all,
        #[trigger] scanned[i],
    ) by {
        assert(path::same_path(scanned[i], scanned[i]));
        assert(path::listed(scanned, scanned[i]));
        assert(path::listed(first, scanned[i]));
        let j = choose|j: int|
            0 <= j < first.len() && path::same_path(#[trigger] first[j], scanned[i]);
        assert(all[j] == first[j]);
    }
}

/// Paths added to a list whose paths differ.
proof fn added_paths(ps: Seq<Seq<char>>, more: Seq<Seq<char>>)
    requires
        forall|i: int, j: int|
            0 <= i < j < ps.len() ==> !path::same_path(#[trigger] ps[i], #[trigger] ps[j]),
    ensures
        ps.is_prefix_of(crate::outputs::with_paths(ps, more)),
        forall|i: int|
            0 <= i < more.len() ==> path::listed(
                crate::outputs::with_paths(ps, more),
                #[trigger] more[i],
            ),
        forall|i: int, j: int|
            0 <= i < j < crate::outputs::with_paths(ps, more).len() ==> !path::same_path(
                #[trigger] crate::outputs::with_paths(ps, more)[i],
                #[trigger] crate::outputs::with_paths(ps, more)[j],
            ),
    decreases more.len(),
{
    if more.len() > 0 {
        let front = crate::outputs::with_paths(ps, more.drop_last());
        let all = crate::outputs::with_paths(ps, more);
        added_paths(ps, more.drop_last());
        assert(front.is_prefix_of(all));
        assert forall|i: int| 0 <= i < more.len() implies path::listed(all, #[trigger] more[i]) by {
            if i < more.len() - 1 {
                assert(more.drop_last()[i] == more[i]);
                let j = choose|j: int|
                    0 <= j < front.len() && path::same_path(#[trigger] front[j], more[i]);
                assert(all[j] == front[j]);
            } else if !path::listed(front, more[i]) {
                assert(all[all.len() - 1] == more[i]);
            }
        }
        assert forall|i: int, j: int| 0 <= i < j < all.len() implies !path::same_path(
            #[trigger] all[i],
            #[trigger] all[j],
        ) by {
            assert(all[i] == front[i]);
            if j < front.len() {
                assert(all[j] == front[j]);
            } else {
                assert(!path::listed(front, more.last()));
            }
        }
    }
}

/// Every include is accounted for, wherever it lies: one among the files counts
/// as used where it is a header; one in the store brings its object; one that is
/// declared and not written yet asks for nothing; every other is uploaded, and
/// is noted where it is not there.
pub proof fn every_include_is_accounted_for(
    store_dir: Seq<char>,
    files: Seq<Seq<char>>,
    declared: Option<Seq<Seq<char>>>,
    includes: Seq<Seq<char>>,
    exists: Seq<bool>,
    i: int,
)
    requires
        0 <= i < includes.len(),
    ensures
        ({
            let r = told_apart(store_dir, files, declared, includes, exists);
            let h = includes[i];
            let there = i < exists.len() && exists[i];
            let object = store::object_of(store_dir, h);
            let pending = !there && (declared matches Some(ps) && path::listed(ps, h));
            &&& path::listed(files, h) && shapes::is_header(h) ==> path::listed(r.used_headers, h)
            &&& !path::listed(files, h) && object is Some ==> r.store_objects.contains(object->0)
            &&& !path::listed(files, h) && object is None && !pending ==> r.to_upload.contains(h)
            &&& !path::listed(files, h) && object is None && !pending && !there
                ==> r.absent.contains(h)
        }),
    decreases includes.len(),
{
    let n = includes.len() - 1;
    let front = includes.drop_last();
    let h = includes[i];
    let s = told_apart(store_dir, files, declared, front, exists);
    let r = told_apart(store_dir, files, declared, includes, exists);
    if i < n {
        every_include_is_accounted_for(store_dir, files, declared, front, exists, i);
        assert(front[i] == h);
        keeps(s.store_objects, r.store_objects);
        keeps(s.to_upload, r.to_upload);
        keeps(s.absent, r.absent);
        if path::listed(s.used_headers, h) {
            let j = choose|j: int|
                0 <= j < s.used_headers.len() && path::same_path(#[trigger] s.used_headers[j], h);
            assert(r.used_headers[j] == s.used_headers[j]);
        }
    } else {
        let there = i < exists.len() && exists[i];
        assert(there_at(exists, n) == there);
        if path::listed(files, h) {
            if shapes::is_header(h) && !path::listed(s.used_headers, h) {
                assert(r.used_headers[s.used_headers.len() as int] == h);
            }
        } else if store::object_of(store_dir, h) is Some {
            assert(r.store_objects[s.store_objects.len() as int] == store::object_of(
                store_dir,
                h,
            )->0);
        } else if !is_pending(h, declared, there) {
            assert(r.to_upload[s.to_upload.len() as int] == h);
            if !there {
                assert(r.absent[s.absent.len() as int] == h);
            }
        }
    }
}

/// A list that begins with another has what that has.
proof fn keeps(a: Seq<Seq<char>>, b: Seq<Seq<char>>)
    requires
        a.is_prefix_of(b),
    ensures
        forall|x: Seq<char>| #[trigger] a.contains(x) ==> b.contains(x),
{
    assert forall|x: Seq<char>| #[trigger] a.contains(x) implies b.contains(x) by {
        let i = choose|i: int| 0 <= i < a.len() && a[i] == x;
        assert(b[i] == x);
    }
}

/// Nothing else is in the lists: each store object is that of an include, what
/// is uploaded is an include that is neither an input nor in the store, and what
/// is noted as absent is uploaded.
pub proof fn lists_hold_includes_alone(
    store_dir: Seq<char>,
    files: Seq<Seq<char>>,
    declared: Option<Seq<Seq<char>>>,
    includes: Seq<Seq<char>>,
    exists: Seq<bool>,
)
    ensures
        ({
            let r = told_apart(store_dir, files, declared, includes, exists);
            &&& r.store_objects.len() + r.to_upload.len() <= includes.len()
            &&& forall|o: Seq<char>| #[trigger]
                r.store_objects.contains(o) ==> exists|i: int|
                    0 <= i < includes.len() && store::object_of(store_dir, #[trigger] includes[i])
                        == Some(o) && !path::listed(files, includes[i])
            &&& forall|h: Seq<char>| #[trigger]
                r.to_upload.contains(h) ==> includes.contains(h) && !path::listed(files, h)
                    && store::object_of(store_dir, h) is None
            &&& forall|h: Seq<char>| #[trigger] r.absent.contains(h) ==> r.to_upload.contains(h)
        }),
    decreases includes.len(),
{
    if includes.len() > 0 {
        let n = includes.len() - 1;
        let front = includes.drop_last();
        lists_hold_includes_alone(store_dir, files, declared, front, exists);
        let s = told_apart(store_dir, files, declared, front, exists);
        let r = told_apart(store_dir, files, declared, includes, exists);
        let last = includes[n];
        assert forall|h: Seq<char>| #[trigger] front.contains(h) implies includes.contains(h) by {
            let i = choose|i: int| 0 <= i < front.len() && front[i] == h;
            assert(includes[i] == h);
        }
        assert forall|o: Seq<char>| #[trigger] r.store_objects.contains(o) implies exists|i: int|
            0 <= i < includes.len() && store::object_of(store_dir, #[trigger] includes[i]) == Some(
                o,
            ) && !path::listed(files, includes[i]) by {
            let k = choose|k: int| 0 <= k < r.store_objects.len() && r.store_objects[k] == o;
            if k < s.store_objects.len() {
                assert(s.store_objects.contains(s.store_objects[k]));
                let i = choose|i: int|
                    0 <= i < front.len() && store::object_of(store_dir, #[trigger] front[i])
                        == Some(o) && !path::listed(files, front[i]);
                assert(includes[i] == front[i]);
            } else {
                assert(store::object_of(store_dir, includes[n]) == Some(o));
            }
        }
        assert forall|h: Seq<char>| #[trigger] r.to_upload.contains(h) implies includes.contains(h)
            && !path::listed(files, h) && store::object_of(store_dir, h) is None by {
            let k = choose|k: int| 0 <= k < r.to_upload.len() && r.to_upload[k] == h;
            if k < s.to_upload.len() {
                assert(s.to_upload.contains(s.to_upload[k]));
            } else {
                assert(includes.contains(includes[n]));
            }
        }
        keeps(s.to_upload, r.to_upload);
        assert forall|h: Seq<char>| #[trigger] r.absent.contains(h) implies r.to_upload.contains(
            h,
        ) by {
            let k = choose|k: int| 0 <= k < r.absent.len() && r.absent[k] == h;
            if k < s.absent.len() {
                assert(s.absent.contains(s.absent[k]));
            } else {
                assert(r.to_upload[s.to_upload.len() as int] == h);
            }
        }
    }
}

/// An include more is put behind the others, in one list at most; what was told
/// before stays.
pub proof fn includes_keep_their_order(
    store_dir: Seq<char>,
    files: Seq<Seq<char>>,
    declared: Option<Seq<Seq<char>>>,
    includes: Seq<Seq<char>>,
    exists: Seq<bool>,
    h: Seq<char>,
    there: bool,
)
    requires
        exists.len() == includes.len(),
    ensures
        ({
            let a = told_apart(store_dir, files, declared, includes, exists);
            let b = told_apart(store_dir, files, declared, includes.push(h), exists.push(there));
            &&& a.to_upload.is_prefix_of(b.to_upload)
            &&& a.absent.is_prefix_of(b.absent)
            &&& a.store_objects.is_prefix_of(b.store_objects)
            &&& a.used_headers.is_prefix_of(b.used_headers)
            &&& b.to_upload.len() + b.store_objects.len() + b.used_headers.len()
                <= a.to_upload.len() + a.store_objects.len() + a.used_headers.len() + 1
            &&& there ==> b.absent == a.absent
        }),
{
    let more = includes.push(h);
    assert(more.drop_last() =~= includes);
    later_answers_do_not_matter(store_dir, files, declared, includes, exists, exists.push(there));
}

proof fn later_answers_do_not_matter(
    store_dir: Seq<char>,
    files: Seq<Seq<char>>,
    declared: Option<Seq<Seq<char>>>,
    includes: Seq<Seq<char>>,
    a: Seq<bool>,
    b: Seq<bool>,
)
    requires
        a.len() >= includes.len(),
        a.is_prefix_of(b),
    ensures
        told_apart(store_dir, files, declared, includes, a) == told_apart(
            store_dir,
            files,
            declared,
            includes,
            b,
        ),
    decreases includes.len(),
{
    if includes.len() > 0 {
        let n = includes.len() - 1;
        later_answers_do_not_matter(store_dir, files, declared, includes.drop_last(), a, b);
        assert(a[n] == b[n]);
    }
}

/// The files that a discovery starts from are the uploaded inputs, all of them
/// and in their order.
pub proof fn uploads_are_the_seeds(a: Seq<FileView>, f: FileView, b: Seq<FileView>)
    ensures
        uploaded_paths(a + b) == uploaded_paths(a) + uploaded_paths(b),
        uploaded_paths(seq![f]) == if f.derived_path.outputs.len() == 0 {
            seq![f.build_path]
        } else {
            Seq::<Seq<char>>::empty()
        },
    decreases b.len(),
{
    reveal_with_fuel(uploaded_paths, 2);
    assert(seq![f].drop_last() =~= Seq::<FileView>::empty());
    assert(uploaded_paths(seq![f]) =~= if f.derived_path.outputs.len() == 0 {
        seq![f.build_path]
    } else {
        Seq::<Seq<char>>::empty()
    });
    if b.len() == 0 {
        assert(a + b =~= a);
        assert(uploaded_paths(a) + uploaded_paths(b) =~= uploaded_paths(a));
    } else {
        uploads_are_the_seeds(a, f, b.drop_last());
        assert((a + b).drop_last() =~= a + b.drop_last());
        assert((a + b).last() == b.last());
        assert(uploaded_paths(a + b) =~= uploaded_paths(a) + uploaded_paths(b));
    }
}

/// What a task declares are the build paths of its inputs, all that are none of
/// its outputs, in their order.
pub proof fn inputs_are_declared(
    a: Seq<FileView>,
    f: FileView,
    b: Seq<FileView>,
    outs: Seq<Seq<char>>,
)
    ensures
        inputs_only(a + b, outs) == inputs_only(a, outs) + inputs_only(b, outs),
        inputs_only(seq![f], outs) == if exists|i: int|
            0 <= i < outs.len() && path::comps(#[trigger] outs[i]) == path::comps(f.build_path) {
            Seq::<Seq<char>>::empty()
        } else {
            seq![f.build_path]
        },
    decreases b.len(),
{
    reveal_with_fuel(inputs_only, 2);
    assert(seq![f].drop_last() =~= Seq::<FileView>::empty());
    if path::listed(outs, f.build_path) {
        let i = choose|i: int|
            0 <= i < outs.len() && path::same_path(#[trigger] outs[i], f.build_path);
        assert(path::comps(outs[i]) == path::comps(f.build_path));
        assert(inputs_only(seq![f], outs) =~= Seq::<Seq<char>>::empty());
    } else {
        assert(forall|i: int|
            0 <= i < outs.len() ==> !path::same_path(#[trigger] outs[i], f.build_path));
        assert(inputs_only(seq![f], outs) =~= seq![f.build_path]);
    }
    if b.len() == 0 {
        assert(a + b =~= a);
        assert(inputs_only(a, outs) + inputs_only(b, outs) =~= inputs_only(a, outs));
    } else {
        inputs_are_declared(a, f, b.drop_last(), outs);
        assert((a + b).drop_last() =~= a + b.drop_last());
        assert((a + b).last() == b.last());
        assert(inputs_only(a + b, outs) =~= inputs_only(a, outs) + inputs_only(b, outs));
    }
}

/// A dependency file outside the store that names something is relied on exactly
/// where every source is known to be no newer, and every header that it names is
/// no newer or, where that cannot be told, is in the store or declared. Equal
/// times count as no newer.
pub proof fn fresh_dependency_files_are_relied_on(
    store_dir: Seq<char>,
    canonical: Option<Seq<char>>,
    d: i128,
    hs: Seq<Seq<char>>,
    sources: Seq<Changed>,
    headers: Seq<Changed>,
    declared: Seq<Seq<char>>,
)
    requires
        canonical matches Some(c) ==> !path::under(c, store_dir),
        hs.len() > 0,
        headers.len() == hs.len(),
    ensures
        reads_back(store_dir, canonical, Some(d), Some(hs), sources, headers, declared) <==> {
            &&& forall|i: int|
                0 <= i < sources.len() ==> (#[trigger] sources[i] matches Some(t) && t <= d)
            &&& forall|i: int|
                0 <= i < hs.len() ==> match #[trigger] headers[i] {
                    Some(t) => t <= d,
                    None => path::under(hs[i], store_dir) || path::listed(declared, hs[i]),
                }
        },
{
    if reads_back(store_dir, canonical, Some(d), Some(hs), sources, headers, declared) {
        assert forall|i: int| 0 <= i < hs.len() implies match #[trigger] headers[i] {
            Some(t) => t <= d,
            None => path::under(hs[i], store_dir) || path::listed(declared, hs[i]),
        } by {
            assert(header_fits(hs[i], changed_at(headers, i), d as int, store_dir, declared));
        }
        assert forall|i: int| 0 <= i < sources.len() implies (#[trigger] sources[i] matches Some(t)
            && t <= d) by {
            assert(no_newer(sources[i], d as int));
        }
    }
}

/// What cannot be told is never relied on: a dependency file of the store, one
/// whose age or text is not known, and one that names nothing.
pub proof fn unknown_dependency_files_are_refused(
    store_dir: Seq<char>,
    canonical: Option<Seq<char>>,
    dep: Changed,
    named: Option<Seq<Seq<char>>>,
    sources: Seq<Changed>,
    headers: Seq<Changed>,
    declared: Seq<Seq<char>>,
)
    requires
        (canonical matches Some(c) && path::under(c, store_dir)) || dep is None || named is None
            || named->0.len() == 0,
    ensures
        !reads_back(store_dir, canonical, dep, named, sources, headers, declared),
{
}

/// Every directory that can be seen from the build directory without white space
/// is declared, as it is seen from there; nothing else is added.
pub proof fn climbed_directories_are_declared(
    words: Seq<Seq<char>>,
    build_dir: Seq<char>,
    dirs: Seq<Seq<char>>,
)
    ensures
        forall|i: int, r: Seq<char>|
            0 <= i < dirs.len() && path::relative(#[trigger] dirs[i], build_dir) == Some(r)
                && !path::is_abs(r) && (forall|j: int|
                0 <= j < r.len() ==> !text::is_space(#[trigger] r[j])) ==> #[trigger] with_dirs(
                words,
                build_dir,
                dirs,
            ).contains(r),
        forall|w: Seq<char>| #[trigger]
            with_dirs(words, build_dir, dirs).contains(w) ==> words.contains(w) || exists|i: int|
                0 <= i < dirs.len() && path::relative(#[trigger] dirs[i], build_dir) == Some(w),
    decreases dirs.len(),
{
    if dirs.len() > 0 {
        let front = dirs.drop_last();
        climbed_directories_are_declared(words, build_dir, front);
        let a = with_dirs(words, build_dir, front);
        let b = with_dirs(words, build_dir, dirs);
        assert(a.is_prefix_of(b));
        keeps(a, b);
        assert forall|i: int, r: Seq<char>|
            0 <= i < dirs.len() && path::relative(#[trigger] dirs[i], build_dir) == Some(r)
                && !path::is_abs(r) && (forall|j: int|
                0 <= j < r.len() ==> !text::is_space(#[trigger] r[j])) implies #[trigger] b.contains(
            r,
        ) by {
            if i < front.len() {
                assert(front[i] == dirs[i]);
                assert(a.contains(r));
            } else {
                assert(!text::has_class(r, Class::Space)) by {
                    if text::has_class(r, Class::Space) {
                        let j = choose|j: int|
                            0 <= j < r.len() && text::in_class(Class::Space, #[trigger] r[j]);
                        assert(text::is_space(r[j]));
                    }
                }
                assert(declared_dir(build_dir, dirs.last()) == Some(r));
                if !a.contains(r) {
                    assert(b[a.len() as int] == r);
                }
            }
        }
        assert forall|w: Seq<char>| #[trigger] b.contains(w) implies words.contains(w) || exists|
            i: int,
        |
            0 <= i < dirs.len() && path::relative(#[trigger] dirs[i], build_dir) == Some(w) by {
            let k = choose|k: int| 0 <= k < b.len() && b[k] == w;
            if k < a.len() {
                assert(a.contains(a[k]));
                if !words.contains(w) {
                    let i = choose|i: int|
                        0 <= i < front.len() && path::relative(#[trigger] front[i], build_dir)
                            == Some(w);
                    assert(dirs[i] == front[i]);
                }
            } else {
                assert(path::relative(dirs[dirs.len() - 1], build_dir) == Some(w));
            }
        }
    }
}

/// What was declared stays declared, and what is added stands beside it: the
/// words of the merged text are those before and the new ones, whatever their
/// order.
pub proof fn merged_words_are_declared(
    existing: Seq<char>,
    build_dir: Seq<char>,
    dirs: Seq<Seq<char>>,
    w: Seq<char>,
)
    ensures
        ({
            let all = order::sorted_texts(with_dirs(text::words(existing), build_dir, dirs));
            &&& merged_dirs(existing, build_dir, dirs) == text::join(all, " "@)
            &&& text::words(existing).contains(w) ==> all.contains(w)
            &&& with_dirs(text::words(existing), build_dir, dirs).contains(w) ==> all.contains(w)
            &&& all.contains(w) ==> text::words(existing).contains(w) || exists|i: int|
                0 <= i < dirs.len() && path::relative(#[trigger] dirs[i], build_dir) == Some(w)
        }),
{
    let ws = text::words(existing);
    let v = with_dirs(ws, build_dir, dirs);
    order::sorted_texts_hold(v, w);
    climbed_directories_are_declared(ws, build_dir, dirs);
    words_stay(ws, build_dir, dirs);
    keeps(ws, v);
}

proof fn words_stay(words: Seq<Seq<char>>, build_dir: Seq<char>, dirs: Seq<Seq<char>>)
    ensures
        words.is_prefix_of(with_dirs(words, build_dir, dirs)),
    decreases dirs.len(),
{
    if dirs.len() > 0 {
        words_stay(words, build_dir, dirs.drop_last());
    }
}

/// The first include that is not there is named, and how many there are; where
/// all are there nothing is said.
pub proof fn absent_includes_are_told(absent: Seq<Seq<char>>)
    ensures
        absent.len() == 0 ==> absent_note(absent).len() == 0,
        absent.len() > 0 ==> absent_note(absent) == "; "@ + text::decimal(absent.len())
            + " of them absent and not declared, first "@ + absent[0],
{
}

} // verus!
