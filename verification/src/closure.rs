//! Walks over files that refer to other files. Each walk hands out what is to
//! be looked at next and takes in what was found there, so that the reading
//! itself is left to the caller.
use crate::order;
use crate::path;
use crate::readers;
use crate::text;
use crate::text::Class;
use crate::views;
use vstd::prelude::*;

verus! {

broadcast use {views::texts_push, views::pieces_push};

// ---------------------------------------------------------------------------
// Documents that take in other documents, each once
// ---------------------------------------------------------------------------

/// A walk that looks at each file once, and stops once it has met more files
/// than its limit.
#[derive(Debug)]
pub struct Closure {
    /// The files to look at.
    pub queue: Vec<String>,
    /// The files met so far.
    pub seen: Vec<String>,
    /// Those of them that something referred to.
    pub found: Vec<String>,
    /// How many files may be met.
    pub cap: usize,
}

/// What a walk holds.
#[verifier::ext_equal]
pub struct ClosureView {
    pub queue: Seq<Seq<char>>,
    pub seen: Seq<Seq<char>>,
    pub found: Seq<Seq<char>>,
    pub cap: nat,
}

impl View for Closure {
    type V = ClosureView;

    open spec fn view(&self) -> ClosureView {
        ClosureView {
            queue: views::texts(self.queue@),
            seen: views::texts(self.seen@),
            found: views::texts(self.found@),
            cap: self.cap as nat,
        }
    }
}

/// A walk before its first step.
pub open spec fn walk_from(seeds: Seq<Seq<char>>, cap: nat) -> ClosureView {
    ClosureView { queue: seeds, seen: path::first_paths(seeds), found: Seq::empty(), cap }
}

/// The file that a walk looks at next, if it goes on.
pub open spec fn next_file(s: ClosureView) -> Option<Seq<char>> {
    if s.queue.len() == 0 || s.seen.len() > s.cap {
        None
    } else {
        Some(s.queue.last())
    }
}

/// The walk without the file that it looks at next.
pub open spec fn stepped(s: ClosureView) -> ClosureView {
    if s.queue.len() == 0 {
        s
    } else {
        ClosureView { queue: s.queue.drop_last(), ..s }
    }
}

/// The walk after a file was referred to.
pub open spec fn offered(s: ClosureView, p: Seq<char>) -> ClosureView {
    if path::listed(s.seen, p) {
        s
    } else {
        ClosureView {
            queue: s.queue.push(p),
            seen: s.seen.push(p),
            found: s.found.push(p),
            ..s
        }
    }
}

impl Closure {
    /// A walk from some files.
    pub fn new(seeds: &Vec<String>, cap: usize) -> (r: Closure)
        ensures
            r@ == walk_from(views::texts(seeds@), cap as nat),
    {
        let r = Closure {
            queue: crate::derived::dup_strings(seeds),
            seen: path::dedup_paths(seeds),
            found: Vec::new(),
            cap,
        };
        assert(r@ =~= walk_from(views::texts(seeds@), cap as nat));
        r
    }

    /// The file to look at next; none once the walk is over.
    pub fn next(&mut self) -> (r: Option<String>)
        ensures
            views::opt_text(r) == next_file(old(self)@),
            final(self)@ == stepped(old(self)@),
    {
        let ghost before = self.queue@;
        match self.queue.pop() {
            Some(p) => {
                proof {
                    assert(self.queue@ =~= before.drop_last());
                    assert(views::texts(self.queue@) =~= views::texts(before).drop_last());
                    assert(views::texts(before).last() == p@);
                    assert(self@ =~= stepped(old(self)@));
                }
                if self.seen.len() > self.cap {
                    None
                } else {
                    Some(p)
                }
            },
            None => {
                assert(self@ =~= old(self)@);
                None
            },
        }
    }

    /// Takes in a file that was referred to and is there.
    pub fn offer(&mut self, p: &str)
        ensures
            final(self)@ == offered(old(self)@, p@),
    {
        if !path::in_list(&self.seen, p) {
            let c = text::chars_of(p);
            self.queue.push(text::string_of(&c));
            self.seen.push(text::string_of(&c));
            self.found.push(text::string_of(&c));
            assert(self@ =~= offered(old(self)@, p@));
        }
    }
}

/// Every path of one list is in another, under some spelling.
pub open spec fn all_listed(a: Seq<Seq<char>>, b: Seq<Seq<char>>) -> bool {
    forall|i: int| 0 <= i < a.len() ==> path::listed(b, #[trigger] a[i])
}

/// No path stands twice in a list, under any spelling.
pub open spec fn apart(ps: Seq<Seq<char>>) -> bool {
    forall|i: int, j: int|
        0 <= i < j < ps.len() ==> !path::same_path(#[trigger] ps[i], #[trigger] ps[j])
}

/// What holds of every walk: what is to be looked at and what was found was
/// met, and nothing was met or found twice.
pub open spec fn sound(s: ClosureView) -> bool {
    &&& apart(s.seen)
    &&& apart(s.found)
    &&& all_listed(s.queue, s.seen)
    &&& all_listed(s.found, s.seen)
}

/// The paths of one base joined.
pub open spec fn joined_all(base: Seq<char>, ps: Seq<Seq<char>>) -> Seq<Seq<char>> {
    ps.map_values(|p: Seq<char>| path::joined(base, p))
}

fn join_all(base: &str, ps: &Vec<String>) -> (r: Vec<String>)
    ensures
        views::texts(r@) == joined_all(base@, views::texts(ps@)),
{
    let ghost want = joined_all(base@, views::texts(ps@));
    let mut out: Vec<String> = Vec::new();
    assert(views::texts(out@) =~= want.take(0));
    for i in 0..ps.len()
        invariant
            want == joined_all(base@, views::texts(ps@)),
            views::texts(out@) == want.take(i as int),
    {
        out.push(path::join_str(base, ps[i].as_str()));
        assert(want.take(i + 1) =~= want.take(i as int).push(want[i as int]));
    }
    assert(want.take(want.len() as int) =~= want);
    out
}

/// A walk over documents that take in others: from the documents that a
/// command names, as seen from a root.
pub fn xinclude_closure(root: &str, docs: &Vec<String>, cap: usize) -> (r: Closure)
    ensures
        r@ == walk_from(joined_all(root@, views::texts(docs@)), cap as nat),
{
    let seeds = join_all(root, docs);
    Closure::new(&seeds, cap)
}

/// The files that a document takes in, as seen from beside it.
pub open spec fn beside_names(doc: Seq<char>, names: Seq<Seq<char>>) -> Seq<Seq<char>> {
    match path::parent(doc) {
        Some(dir) => joined_all(dir, names),
        None => Seq::empty(),
    }
}

/// The files that a document takes in, given its text. Those that are there
/// are offered to the walk.
pub fn xinclude_candidates(doc: &str, contents: &str) -> (r: Vec<String>)
    ensures
        views::texts(r@) == beside_names(doc@, readers::hrefs(contents@)),
{
    let c = text::chars_of(doc);
    match path::parent_of(&c) {
        Some(dir) => {
            let names = readers::xinclude_hrefs(contents);
            let d = text::string_of(&dir);
            join_all(d.as_str(), &names)
        },
        None => {
            let out: Vec<String> = Vec::new();
            assert(views::texts(out@) =~= Seq::<Seq<char>>::empty());
            out
        },
    }
}

/// The places at which a table's name is looked for: below the root, then
/// below each of its directories.
pub open spec fn table_places(
    root: Seq<char>,
    name: Seq<char>,
    dirs: Seq<Seq<char>>,
) -> Seq<Seq<char>> {
    seq![path::joined(root, name)] + dirs.map_values(
        |d: Seq<char>| path::joined(path::joined(root, d), name),
    )
}

/// The places at which a table's name is looked for, in order: the first that
/// is a file counts.
pub fn tablegen_places(root: &str, name: &str, dirs: &Vec<String>) -> (r: Vec<String>)
    ensures
        views::texts(r@) == table_places(root@, name@, views::texts(dirs@)),
{
    let ghost rest = views::texts(dirs@).map_values(
        |d: Seq<char>| path::joined(path::joined(root@, d), name@),
    );
    let ghost first = seq![path::joined(root@, name@)];
    let mut out: Vec<String> = Vec::new();
    out.push(path::join_str(root, name));
    assert(views::texts(out@) =~= first + rest.take(0));
    for i in 0..dirs.len()
        invariant
            rest == views::texts(dirs@).map_values(
                |d: Seq<char>| path::joined(path::joined(root@, d), name@),
            ),
            views::texts(out@) == first + rest.take(i as int),
    {
        let d = path::join_str(root, dirs[i].as_str());
        out.push(path::join_str(d.as_str(), name));
        assert((first + rest.take(i as int)).push(rest[i as int]) =~= first + rest.take(i + 1));
    }
    assert(rest.take(rest.len() as int) =~= rest);
    out
}

/// A walk over table descriptions, from the one that a command names, where it
/// was found.
pub fn tablegen_include_closure(seed: Option<&str>, cap: usize) -> (r: Closure)
    ensures
        r@ == walk_from(
            match seed {
                Some(s) => seq![s@],
                None => Seq::empty(),
            },
            cap as nat,
        ),
{
    let mut seeds: Vec<String> = Vec::new();
    if let Some(s) = seed {
        let c = text::chars_of(s);
        seeds.push(text::string_of(&c));
        assert(views::texts(seeds@) =~= seq![s@]);
    } else {
        assert(views::texts(seeds@) =~= Seq::<Seq<char>>::empty());
    }
    Closure::new(&seeds, cap)
}

// ---------------------------------------------------------------------------
// Documents whose references are listed whether they are there or not
// ---------------------------------------------------------------------------

/// A walk that lists every reference, and looks at each document once.
#[derive(Debug)]
pub struct ReferenceWalk {
    pub queue: Vec<String>,
    pub seen: Vec<String>,
    pub out: Vec<String>,
    pub cap: usize,
}

/// What a walk over references holds.
#[verifier::ext_equal]
pub struct ReferenceView {
    pub queue: Seq<Seq<char>>,
    pub seen: Seq<Seq<char>>,
    pub out: Seq<Seq<char>>,
    pub cap: nat,
}

impl View for ReferenceWalk {
    type V = ReferenceView;

    open spec fn view(&self) -> ReferenceView {
        ReferenceView {
            queue: views::texts(self.queue@),
            seen: views::texts(self.seen@),
            out: views::texts(self.out@),
            cap: self.cap as nat,
        }
    }
}

/// The walk up to the next document that is looked at. A document that was
/// looked at is passed over; so is every one once enough is listed.
pub open spec fn next_document(s: ReferenceView) -> (ReferenceView, Option<Seq<char>>)
    decreases s.queue.len(),
{
    if s.queue.len() == 0 {
        (s, None)
    } else {
        let p = s.queue.last();
        let rest = ReferenceView { queue: s.queue.drop_last(), ..s };
        if s.out.len() >= s.cap || path::listed(s.seen, p) {
            next_document(rest)
        } else {
            (ReferenceView { seen: s.seen.push(p), ..rest }, Some(p))
        }
    }
}

/// The walk after references were listed.
pub open spec fn with_references(s: ReferenceView, ps: Seq<Seq<char>>) -> ReferenceView {
    ReferenceView { queue: s.queue + ps, out: s.out + ps, ..s }
}

/// The references of a document, as seen from beside it.
pub open spec fn references(root: Seq<char>, doc: Seq<char>, contents: Seq<char>) -> Seq<Seq<char>> {
    joined_all(
        match path::parent(doc) {
            Some(d) => d,
            None => root,
        },
        readers::rst_names(text::lines(contents)),
    )
}

impl ReferenceWalk {
    /// The document to look at next.
    pub fn next(&mut self) -> (r: Option<String>)
        ensures
            final(self)@ == next_document(old(self)@).0,
            views::opt_text(r) == next_document(old(self)@).1,
    {
        let ghost start = self@;
        while self.queue.len() > 0
            invariant
                start == old(self)@,
                next_document(start) == next_document(self@),
            decreases self.queue.len(),
        {
            let ghost before = self@;
            let ghost items = self.queue@;
            let p = self.queue.pop().unwrap();
            proof {
                assert(self.queue@ =~= items.drop_last());
                assert(views::texts(self.queue@) =~= views::texts(items).drop_last());
                assert(views::texts(items).last() == p@);
                assert(self@ =~= ReferenceView { queue: before.queue.drop_last(), ..before });
            }
            if !(self.out.len() >= self.cap || path::in_list(&self.seen, p.as_str())) {
                let ghost rest = self@;
                self.seen.push(p.clone());
                assert(self@ =~= ReferenceView { seen: before.seen.push(p@), ..rest });
                return Some(p);
            }
        }
        None
    }

    /// Lists the references of a document, given its text.
    pub fn feed(&mut self, root: &str, doc: &str, contents: &str)
        ensures
            final(self)@ == with_references(old(self)@, references(root@, doc@, contents@)),
    {
        let c = text::chars_of(doc);
        let dir = match path::parent_of(&c) {
            Some(d) => text::string_of(&d),
            None => {
                let r = text::chars_of(root);
                text::string_of(&r)
            },
        };
        let names = readers::rst_include_names(contents);
        let ps = join_all(dir.as_str(), &names);
        let ghost all = views::texts(ps@);
        let ghost q = views::texts(self.queue@);
        let ghost o = views::texts(self.out@);
        assert(q + all.take(0) =~= q);
        assert(o + all.take(0) =~= o);
        for i in 0..ps.len()
            invariant
                all == views::texts(ps@),
                views::texts(self.queue@) == q + all.take(i as int),
                views::texts(self.out@) == o + all.take(i as int),
                self.seen == old(self).seen,
                self.cap == old(self).cap,
        {
            self.out.push(ps[i].clone());
            self.queue.push(ps[i].clone());
            assert((q + all.take(i as int)).push(ps@[i as int]@) =~= q + all.take(i + 1));
            assert((o + all.take(i as int)).push(ps@[i as int]@) =~= o + all.take(i + 1));
        }
        assert(all.take(all.len() as int) =~= all);
        assert(self@ =~= with_references(old(self)@, all));
    }
}

/// A walk over reStructuredText documents, from those that a command names, as
/// seen from a root.
pub fn rst_include_closure(root: &str, docs: &Vec<String>, cap: usize) -> (r: ReferenceWalk)
    ensures
        r@ == (ReferenceView {
            queue: joined_all(root@, views::texts(docs@)),
            seen: Seq::empty(),
            out: Seq::empty(),
            cap: cap as nat,
        }),
{
    let r = ReferenceWalk {
        queue: join_all(root, docs),
        seen: Vec::new(),
        out: Vec::new(),
        cap,
    };
    assert(r@.seen =~= Seq::<Seq<char>>::empty());
    assert(r@.out =~= Seq::<Seq<char>>::empty());
    r
}

// ---------------------------------------------------------------------------
// Directories
// ---------------------------------------------------------------------------

/// A walk over a directory that gives up once it has more files than its limit.
#[derive(Debug)]
pub struct DirWalk {
    pub stack: Vec<String>,
    pub paths: Vec<String>,
    pub cap: usize,
    /// The limit was passed.
    pub over: bool,
}

/// What a walk over a directory holds.
#[verifier::ext_equal]
pub struct DirView {
    pub stack: Seq<Seq<char>>,
    pub paths: Seq<Seq<char>>,
    pub cap: nat,
    pub over: bool,
}

impl View for DirWalk {
    type V = DirView;

    open spec fn view(&self) -> DirView {
        DirView {
            stack: views::texts(self.stack@),
            paths: views::texts(self.paths@),
            cap: self.cap as nat,
            over: self.over,
        }
    }
}

/// The walk after an entry.
pub open spec fn with_entry(s: DirView, p: Seq<char>, is_dir: bool, is_file: bool) -> DirView {
    if s.over {
        s
    } else if is_dir {
        DirView { stack: s.stack.push(p), ..s }
    } else if is_file {
        if s.paths.len() >= s.cap {
            DirView { over: true, ..s }
        } else {
            DirView { paths: s.paths.push(p), ..s }
        }
    } else {
        s
    }
}

impl DirWalk {
    /// A walk over a directory.
    pub fn new(dir: &str, cap: usize) -> (r: DirWalk)
        ensures
            r@ == (DirView {
                stack: seq![dir@],
                paths: Seq::empty(),
                cap: cap as nat,
                over: false,
            }),
    {
        let mut stack: Vec<String> = Vec::new();
        let c = text::chars_of(dir);
        stack.push(text::string_of(&c));
        let r = DirWalk { stack, paths: Vec::new(), cap, over: false };
        assert(r@.stack =~= seq![dir@]);
        assert(r@.paths =~= Seq::<Seq<char>>::empty());
        r
    }

    /// The directory to read next.
    pub fn next(&mut self) -> (r: Option<String>)
        ensures
            if old(self)@.over || old(self)@.stack.len() == 0 {
                r is None && final(self)@ == old(self)@
            } else {
                views::opt_text(r) == Some(old(self)@.stack.last()) && final(self)@ == (DirView {
                    stack: old(self)@.stack.drop_last(),
                    ..old(self)@
                })
            },
    {
        if self.over {
            return None;
        }
        let ghost before = self.stack@;
        match self.stack.pop() {
            Some(p) => {
                proof {
                    assert(self.stack@ =~= before.drop_last());
                    assert(views::texts(self.stack@) =~= views::texts(before).drop_last());
                    assert(views::texts(before).last() == p@);
                }
                Some(p)
            },
            None => {
                assert(self@ =~= old(self)@);
                None
            },
        }
    }

    /// Takes in an entry of the directory that was read.
    pub fn entry(&mut self, p: &str, is_dir: bool, is_file: bool)
        ensures
            final(self)@ == with_entry(old(self)@, p@, is_dir, is_file),
    {
        if self.over {
            return ;
        }
        let c = text::chars_of(p);
        if is_dir {
            self.stack.push(text::string_of(&c));
        } else if is_file {
            if self.paths.len() >= self.cap {
                self.over = true;
            } else {
                self.paths.push(text::string_of(&c));
            }
        }
        assert(self@ =~= with_entry(old(self)@, p@, is_dir, is_file));
    }

    /// The files of the directory; none where there are more than the limit.
    pub fn walk_dir_capped(self) -> (r: Option<Vec<String>>)
        ensures
            views::opt_texts(r) == if self@.over {
                None
            } else {
                Some(self@.paths)
            },
    {
        if self.over {
            None
        } else {
            Some(self.paths)
        }
    }
}

// ---------------------------------------------------------------------------
// Python
// ---------------------------------------------------------------------------

/// What a directory means to a walk that has a limit on directories.
#[derive(Debug, Clone, Copy, PartialEq, Eq)]
pub enum ClosureStep {
    /// It was looked at before.
    Seen,
    /// It is one too many.
    Refuse,
    /// It is looked at.
    Scan,
}

/// What a directory means, given whether it is new and how many were met with it.
pub fn closure_step(newly_inserted: bool, visited_len: usize, cap: usize) -> (r: ClosureStep)
    ensures
        r == if !newly_inserted {
            ClosureStep::Seen
        } else if visited_len > cap {
            ClosureStep::Refuse
        } else {
            ClosureStep::Scan
        },
{
    if !newly_inserted {
        ClosureStep::Seen
    } else if visited_len > cap {
        ClosureStep::Refuse
    } else {
        ClosureStep::Scan
    }
}

/// How many directories an import closure may have.
pub const CLOSURE_DIR_CAP: usize = 64;

/// How many files a package may have.
pub const PACKAGE_CAP: usize = 512;

/// How many files a directory outside the package may have.
pub const LIBRARY_CAP: usize = 8192;

/// How many files a directory that is named as an argument may have.
pub const DIR_UPLOAD_CAP: usize = 1024;

/// A walk over the directories that python files import from.
#[derive(Debug)]
pub struct ImportWalk {
    pub start: String,
    pub queue: Vec<String>,
    pub visited: Vec<String>,
}

/// What a walk over imports holds.
#[verifier::ext_equal]
pub struct ImportView {
    pub start: Seq<char>,
    pub queue: Seq<Seq<char>>,
    pub visited: Seq<Seq<char>>,
}

impl View for ImportWalk {
    type V = ImportView;

    open spec fn view(&self) -> ImportView {
        ImportView {
            start: self.start@,
            queue: views::texts(self.queue@),
            visited: views::texts(self.visited@),
        }
    }
}

/// A closure that has too many directories.
#[derive(Debug)]
pub struct TooWide {
    pub start: String,
}

impl TooWide {
    /// What to tell the user.
    pub fn message(&self) -> (r: String)
        ensures
            r@ == "python import closure below "@ + self.start@
                + " exceeds 64 directories; refusing to declare a partial closure"@,
    {
        let mut v = text::chars_of("python import closure below ");
        text::append_str(&mut v, self.start.as_str());
        text::append_str(
            &mut v,
            " exceeds 64 directories; refusing to declare a partial closure",
        );
        text::string_of(&v)
    }
}

/// The walk up to the next directory that is looked at: those that were looked
/// at are passed over. None at the end; no walk where it is one too many.
pub open spec fn next_directory(s: ImportView) -> Option<(ImportView, Option<Seq<char>>)>
    decreases s.queue.len(),
{
    if s.queue.len() == 0 {
        Some((s, None))
    } else {
        let p = s.queue.last();
        let rest = ImportView { queue: s.queue.drop_last(), ..s };
        if path::listed(s.visited, p) {
            next_directory(rest)
        } else if s.visited.len() + 1 > CLOSURE_DIR_CAP {
            None
        } else {
            Some((ImportView { visited: s.visited.push(p), ..rest }, Some(p)))
        }
    }
}

impl ImportWalk {
    /// A walk from the directory of a python file.
    pub fn new(start: &str) -> (r: ImportWalk)
        ensures
            r@ == (ImportView { start: start@, queue: seq![start@], visited: Seq::empty() }),
    {
        let c = text::chars_of(start);
        let mut queue: Vec<String> = Vec::new();
        queue.push(text::string_of(&c));
        let r = ImportWalk { start: text::string_of(&c), queue, visited: Vec::new() };
        assert(r@.queue =~= seq![start@]);
        assert(r@.visited =~= Seq::<Seq<char>>::empty());
        r
    }

    /// The directory to look at next. A closure with too many directories is
    /// refused: a part of it would build with imports missing.
    pub fn next(&mut self) -> (r: Result<Option<String>, TooWide>)
        ensures
            match r {
                Ok(o) => next_directory(old(self)@) == Some((final(self)@, views::opt_text(o))),
                Err(e) => next_directory(old(self)@) is None && e.start@ == old(self)@.start,
            },
    {
        let ghost start = self@;
        while self.queue.len() > 0
            invariant
                start == old(self)@,
                next_directory(start) == next_directory(self@),
                self@.start == start.start,
            decreases self.queue.len(),
        {
            let ghost before = self@;
            let ghost items = self.queue@;
            let p = self.queue.pop().unwrap();
            proof {
                assert(self.queue@ =~= items.drop_last());
                assert(views::texts(self.queue@) =~= views::texts(items).drop_last());
                assert(views::texts(items).last() == p@);
                assert(self@ =~= ImportView { queue: before.queue.drop_last(), ..before });
            }
            let fresh = !path::in_list(&self.visited, p.as_str());
            let n: usize = self.visited.len();
            let met = if n < CLOSURE_DIR_CAP {
                n + 1
            } else {
                CLOSURE_DIR_CAP + 1
            };
            match closure_step(fresh, met, CLOSURE_DIR_CAP) {
                ClosureStep::Seen => {},
                ClosureStep::Refuse => {
                    return Err(TooWide { start: self.start.clone() });
                },
                ClosureStep::Scan => {
                    let ghost rest = self@;
                    self.visited.push(p.clone());
                    assert(self@ =~= ImportView { visited: before.visited.push(p@), ..rest });
                    return Ok(Some(p));
                },
            }
        }
        assert(self@.queue.len() == 0);
        Ok(None)
    }

    /// A directory whose files were uploaded is looked at as well.
    pub fn push(&mut self, dir: &str)
        ensures
            final(self)@ == (ImportView { queue: old(self)@.queue.push(dir@), ..old(self)@ }),
    {
        let c = text::chars_of(dir);
        self.queue.push(text::string_of(&c));
        assert(self@ =~= ImportView { queue: old(self)@.queue.push(dir@), ..old(self)@ });
    }
}

/// The directory from which a file's imports are followed: that of a python file.
pub fn import_start(p: &str) -> (r: Option<String>)
    ensures
        views::opt_text(r) == if path::extension(p@) == Some("py"@) {
            Some(path::opened_parent(p@))
        } else {
            None
        },
{
    let c = text::chars_of(p);
    if path::has_extension(&c, "py") {
        Some(path::parent_dir_or_here(p))
    } else {
        None
    }
}

/// What becomes of an entry of a directory with python files.
#[derive(Debug, Clone, Copy, PartialEq, Eq)]
pub enum PyEntry {
    /// The file is uploaded.
    File,
    /// The files below are uploaded, up to a limit.
    Tree,
    /// So are those of a package, which is then looked at as well.
    Package,
    /// Nothing.
    Skip,
}

/// What becomes of an entry: python files, packages, and what node brings.
pub open spec fn py_entry(p: Seq<char>, is_file: bool, is_dir: bool, has_init: bool) -> PyEntry {
    if path::extension(p) == Some("py"@) && is_file {
        PyEntry::File
    } else if is_dir && path::file_name(p) == Some("node_modules"@) {
        PyEntry::Tree
    } else if is_dir && has_init {
        PyEntry::Package
    } else {
        PyEntry::Skip
    }
}

/// What becomes of an entry of a directory with python files.
pub fn python_entry(p: &str, is_file: bool, is_dir: bool, has_init: bool) -> (r: PyEntry)
    ensures
        r == py_entry(p@, is_file, is_dir, has_init),
{
    let c = text::chars_of(p);
    let node = match path::name_of(&c) {
        Some(n) => text::is_lit(&n, "node_modules"),
        None => false,
    };
    if path::has_extension(&c, "py") && is_file {
        PyEntry::File
    } else if is_dir && node {
        PyEntry::Tree
    } else if is_dir && has_init {
        PyEntry::Package
    } else {
        PyEntry::Skip
    }
}

/// A module of python's own library.
pub open spec fn is_stdlib(n: Seq<char>) -> bool {
    ||| n == "abc"@
    ||| n == "argparse"@
    ||| n == "ast"@
    ||| n == "base64"@
    ||| n == "binascii"@
    ||| n == "bisect"@
    ||| n == "codecs"@
    ||| n == "collections"@
    ||| n == "contextlib"@
    ||| n == "copy"@
    ||| n == "csv"@
    ||| n == "ctypes"@
    ||| n == "dataclasses"@
    ||| n == "datetime"@
    ||| n == "difflib"@
    ||| n == "enum"@
    ||| n == "errno"@
    ||| n == "fnmatch"@
    ||| n == "functools"@
    ||| n == "getopt"@
    ||| n == "glob"@
    ||| n == "gzip"@
    ||| n == "hashlib"@
    ||| n == "heapq"@
    ||| n == "html"@
    ||| n == "http"@
    ||| n == "io"@
    ||| n == "importlib"@
    ||| n == "inspect"@
    ||| n == "itertools"@
    ||| n == "json"@
    ||| n == "keyword"@
    ||| n == "locale"@
    ||| n == "logging"@
    ||| n == "math"@
    ||| n == "multiprocessing"@
    ||| n == "operator"@
    ||| n == "optparse"@
    ||| n == "os"@
    ||| n == "pathlib"@
    ||| n == "pickle"@
    ||| n == "platform"@
    ||| n == "posixpath"@
    ||| n == "pprint"@
    ||| n == "queue"@
    ||| n == "random"@
    ||| n == "re"@
    ||| n == "shlex"@
    ||| n == "shutil"@
    ||| n == "signal"@
    ||| n == "site"@
    ||| n == "socket"@
    ||| n == "stat"@
    ||| n == "string"@
    ||| n == "struct"@
    ||| n == "subprocess"@
    ||| n == "sys"@
    ||| n == "tempfile"@
    ||| n == "textwrap"@
    ||| n == "threading"@
    ||| n == "time"@
    ||| n == "traceback"@
    ||| n == "types"@
    ||| n == "typing"@
    ||| n == "unittest"@
    ||| n == "urllib"@
    ||| n == "uuid"@
    ||| n == "warnings"@
    ||| n == "xml"@
    ||| n == "zipfile"@
    ||| n == "zlib"@
}

/// Whether a module is of python's own library.
pub fn stdlib_module(n: &str) -> (r: bool)
    ensures
        r == is_stdlib(n@),
{
    text::same_str(n, "abc")
        || text::same_str(n, "argparse")
        || text::same_str(n, "ast")
        || text::same_str(n, "base64")
        || text::same_str(n, "binascii")
        || text::same_str(n, "bisect")
        || text::same_str(n, "codecs")
        || text::same_str(n, "collections")
        || text::same_str(n, "contextlib")
        || text::same_str(n, "copy")
        || text::same_str(n, "csv")
        || text::same_str(n, "ctypes")
        || text::same_str(n, "dataclasses")
        || text::same_str(n, "datetime")
        || text::same_str(n, "difflib")
        || text::same_str(n, "enum")
        || text::same_str(n, "errno")
        || text::same_str(n, "fnmatch")
        || text::same_str(n, "functools")
        || text::same_str(n, "getopt")
        || text::same_str(n, "glob")
        || text::same_str(n, "gzip")
        || text::same_str(n, "hashlib")
        || text::same_str(n, "heapq")
        || text::same_str(n, "html")
        || text::same_str(n, "http")
        || text::same_str(n, "io")
        || text::same_str(n, "importlib")
        || text::same_str(n, "inspect")
        || text::same_str(n, "itertools")
        || text::same_str(n, "json")
        || text::same_str(n, "keyword")
        || text::same_str(n, "locale")
        || text::same_str(n, "logging")
        || text::same_str(n, "math")
        || text::same_str(n, "multiprocessing")
        || text::same_str(n, "operator")
        || text::same_str(n, "optparse")
        || text::same_str(n, "os")
        || text::same_str(n, "pathlib")
        || text::same_str(n, "pickle")
        || text::same_str(n, "platform")
        || text::same_str(n, "posixpath")
        || text::same_str(n, "pprint")
        || text::same_str(n, "queue")
        || text::same_str(n, "random")
        || text::same_str(n, "re")
        || text::same_str(n, "shlex")
        || text::same_str(n, "shutil")
        || text::same_str(n, "signal")
        || text::same_str(n, "site")
        || text::same_str(n, "socket")
        || text::same_str(n, "stat")
        || text::same_str(n, "string")
        || text::same_str(n, "struct")
        || text::same_str(n, "subprocess")
        || text::same_str(n, "sys")
        || text::same_str(n, "tempfile")
        || text::same_str(n, "textwrap")
        || text::same_str(n, "threading")
        || text::same_str(n, "time")
        || text::same_str(n, "traceback")
        || text::same_str(n, "types")
        || text::same_str(n, "typing")
        || text::same_str(n, "unittest")
        || text::same_str(n, "urllib")
        || text::same_str(n, "uuid")
        || text::same_str(n, "warnings")
        || text::same_str(n, "xml")
        || text::same_str(n, "zipfile")
        || text::same_str(n, "zlib")
}

/// The imported names that nothing beside the importing file satisfies.
pub open spec fn unsatisfied(names: Seq<Seq<char>>, beside: Seq<(bool, bool)>) -> Seq<Seq<char>>
    decreases names.len(),
{
    if names.len() == 0 {
        Seq::empty()
    } else {
        let n = names.len() - 1;
        let front = unsatisfied(names.drop_last(), beside);
        if is_stdlib(names[n]) || (n < beside.len() && (beside[n].0 || beside[n].1)) {
            front
        } else {
            front.push(names[n])
        }
    }
}

/// The imported names that neither python's own library nor a module or a
/// directory beside the importing file satisfies; `beside` says of each name
/// whether there is a module and whether there is a directory.
pub fn unsatisfied_imports(names: &Vec<String>, beside: &Vec<(bool, bool)>) -> (r: Vec<String>)
    ensures
        views::texts(r@) == unsatisfied(views::texts(names@), beside@),
{
    let ghost all = views::texts(names@);
    let mut out: Vec<String> = Vec::new();
    assert(views::texts(out@) =~= unsatisfied(all.take(0), beside@));
    for i in 0..names.len()
        invariant
            all == views::texts(names@),
            views::texts(out@) == unsatisfied(all.take(i as int), beside@),
    {
        assert(all.take(i + 1).drop_last() =~= all.take(i as int));
        assert(all.take(i + 1)[i as int] == names@[i as int]@);
        let met = i < beside.len() && (beside[i].0 || beside[i].1);
        if !stdlib_module(names[i].as_str()) && !met {
            out.push(names[i].clone());
        }
    }
    assert(all.take(all.len() as int) =~= all);
    out
}

/// The name of the module `name` as a file.
pub fn module_file(name: &str) -> (r: String)
    ensures
        r@ == name@ + ".py"@,
{
    let mut c = text::chars_of(name);
    text::append_str(&mut c, ".py");
    text::string_of(&c)
}

/// The directories beside a directory, given the names of all that lie there:
/// spelled as it is, without itself, in order.
pub open spec fn sibling_paths(dir: Seq<char>, names: Seq<Seq<char>>) -> Seq<Seq<char>> {
    match path::file_name(dir) {
        Some(own) => order::sorted_texts(
            others(
                match path::parent(dir) {
                    Some(d) => d,
                    None => Seq::empty(),
                },
                own,
                names,
            ),
        ),
        None => Seq::empty(),
    }
}

/// Names joined to a base, without those that end in one name.
pub open spec fn others(base: Seq<char>, own: Seq<char>, names: Seq<Seq<char>>) -> Seq<Seq<char>>
    decreases names.len(),
{
    if names.len() == 0 {
        Seq::empty()
    } else {
        let front = others(base, own, names.drop_last());
        let p = path::joined(base, names.last());
        if path::file_name(p) == Some(own) {
            front
        } else {
            front.push(p)
        }
    }
}

/// The directory to read for the directories beside another; none for one
/// without a name.
pub fn sibling_root(dir: &str) -> (r: Option<String>)
    ensures
        match r {
            Some(s) => path::file_name(dir@) is Some && s@ == path::opened_parent(dir@),
            None => path::file_name(dir@) is None,
        },
{
    let c = text::chars_of(dir);
    match path::name_of(&c) {
        Some(_) => Some(path::parent_dir_or_here(dir)),
        None => None,
    }
}

/// The directories beside a directory, given the names of all that lie there.
pub fn sibling_dirs_of(dir: &str, names: &Vec<String>) -> (r: Vec<String>)
    ensures
        views::texts(r@) == sibling_paths(dir@, views::texts(names@)),
{
    let c = text::chars_of(dir);
    let own = match path::name_of(&c) {
        Some(n) => n,
        None => {
            let out: Vec<String> = Vec::new();
            assert(views::texts(out@) =~= Seq::<Seq<char>>::empty());
            return out;
        },
    };
    let base = match path::parent_of(&c) {
        Some(d) => d,
        None => {
            let e: Vec<char> = Vec::new();
            e
        },
    };
    let ghost all = views::texts(names@);
    let mut out: Vec<String> = Vec::new();
    assert(views::texts(out@) =~= others(base@, own@, all.take(0)));
    for i in 0..names.len()
        invariant
            all == views::texts(names@),
            views::texts(out@) == others(base@, own@, all.take(i as int)),
    {
        assert(all.take(i + 1).drop_last() =~= all.take(i as int));
        assert(all.take(i + 1).last() == names@[i as int]@);
        let n = text::chars_of(names[i].as_str());
        let p = path::join(&base, &n);
        let same = match path::name_of(&p) {
            Some(f) => text::same(&f, &own),
            None => false,
        };
        if !same {
            out.push(text::string_of(&p));
        }
    }
    assert(all.take(all.len() as int) =~= all);
    order::sort_strings(&out)
}

/// A directory provides a module: it holds it as a file, or is it as a package.
pub open spec fn provides(dir: Seq<char>, name: Seq<char>, has_module: bool, has_init: bool) -> bool {
    has_module || (path::file_name(dir) == Some(name) && has_init)
}

/// Whether a directory provides a module.
pub fn provides_module(dir: &str, name: &str, has_module: bool, has_init: bool) -> (r: bool)
    ensures
        r == provides(dir@, name@, has_module, has_init),
{
    let c = text::chars_of(dir);
    let same = match path::name_of(&c) {
        Some(f) => text::is_lit(&f, name),
        None => false,
    };
    has_module || (same && has_init)
}

/// The directories above a directory's parent, up to a number of levels.
pub open spec fn levels_above(at: Seq<char>, n: nat) -> Seq<Seq<char>>
    decreases n,
{
    if n == 0 {
        Seq::empty()
    } else {
        match path::parent(at) {
            Some(up) => seq![up] + levels_above(up, (n - 1) as nat),
            None => Seq::empty(),
        }
    }
}

/// How many tables a table may reach.
pub const TABLES_CAP: usize = 8192;

/// How many files documents may reach.
pub const DOCUMENTS_CAP: usize = 4096;

/// How many levels above a directory's parent modules are looked for.
pub const LEVELS: usize = 4;

/// The directories above a directory's parent in which modules are looked for.
pub fn import_levels(dir: &str) -> (r: Vec<String>)
    ensures
        views::texts(r@) == levels_above(
            match path::parent(dir@) {
                Some(d) => d,
                None => Seq::empty(),
            },
            LEVELS as nat,
        ),
{
    let c = text::chars_of(dir);
    let mut at = match path::parent_of(&c) {
        Some(d) => d,
        None => {
            let e: Vec<char> = Vec::new();
            e
        },
    };
    let ghost all = levels_above(at@, LEVELS as nat);
    let mut out: Vec<String> = Vec::new();
    assert(views::texts(out@) + levels_above(at@, LEVELS as nat) =~= all);
    for i in 0..LEVELS
        invariant
            all == levels_above(
                match path::parent(dir@) {
                    Some(d) => d,
                    None => Seq::empty(),
                },
                LEVELS as nat,
            ),
            views::texts(out@) + levels_above(at@, (LEVELS - i) as nat) == all,
    {
        match path::parent_of(&at) {
            Some(up) => {
                let ghost before = views::texts(out@);
                out.push(text::string_of(&up));
                proof {
                    let rest = levels_above(up@, (LEVELS - i - 1) as nat);
                    assert(before + (seq![up@] + rest) =~= before.push(up@) + rest);
                }
                at = up;
            },
            None => {
                assert(views::texts(out@) + Seq::<Seq<char>>::empty() =~= views::texts(out@));
                return out;
            },
        }
    }
    assert(views::texts(out@) + Seq::<Seq<char>>::empty() =~= views::texts(out@));
    out
}

/// Where a module is looked for at a level: right there, and among third parties.
pub fn level_candidates(level: &str, name: &str) -> (r: (String, String))
    ensures
        r.0@ == path::joined(level@, name@),
        r.1@ == path::joined(path::joined(level@, "third_party"@), name@),
{
    let tp = path::join_str(level, "third_party");
    (path::join_str(level, name), path::join_str(tp.as_str(), name))
}

/// The packages of a name that a third party may hold: right in it, or in one
/// of its own directories.
pub fn third_party_candidates(party: &str, inner: &Vec<String>, name: &str) -> (r: Vec<String>)
    ensures
        views::texts(r@) == seq![path::joined(party@, name@)] + views::texts(inner@).map_values(
            |d: Seq<char>| path::joined(d, name@),
        ),
{
    let ghost all = views::texts(inner@).map_values(|d: Seq<char>| path::joined(d, name@));
    let ghost first = seq![path::joined(party@, name@)];
    let mut out: Vec<String> = Vec::new();
    out.push(path::join_str(party, name));
    assert(views::texts(out@) =~= first + all.take(0));
    for i in 0..inner.len()
        invariant
            all == views::texts(inner@).map_values(|d: Seq<char>| path::joined(d, name@)),
            views::texts(out@) == first + all.take(i as int),
    {
        out.push(path::join_str(inner[i].as_str(), name));
        assert((first + all.take(i as int)).push(path::joined(inner@[i as int]@, name@)) =~= first
            + all.take(i + 1));
    }
    assert(all.take(all.len() as int) =~= all);
    out
}

/// A component's rank among components: the root, the directory itself, its
/// parent, names.
pub open spec fn rank(c: Seq<char>) -> char {
    if c == path::root() {
        '0'
    } else if c == path::cur() {
        '1'
    } else if c == path::up() {
        '2'
    } else {
        '3'
    }
}

/// A path as a row by which paths are ordered: component by component.
pub open spec fn path_row(p: Seq<char>) -> order::Row {
    path::comps(p).map_values(|c: Seq<char>| seq![rank(c)] + c)
}

fn row_of_path(p: &str) -> (r: Vec<String>)
    ensures
        views::texts(r@) == path_row(p@),
{
    let c = text::chars_of(p);
    let cs = path::components(&c);
    let ghost all = views::pieces(cs@);
    let ghost want = path_row(p@);
    let mut out: Vec<String> = Vec::new();
    assert(views::texts(out@) =~= want.take(0));
    for i in 0..cs.len()
        invariant
            all == views::pieces(cs@),
            all == path::comps(p@),
            want == path_row(p@),
            views::texts(out@) == want.take(i as int),
    {
        assert(all[i as int] == cs@[i as int]@);
        let mut v: Vec<char> = Vec::new();
        if path::is_up(&cs[i]) {
            v.push('2');
        } else if path::is_cur(&cs[i]) {
            v.push('1');
        } else if path::names(&cs[i]) {
            v.push('3');
        } else {
            v.push('0');
        }
        text::append(&mut v, &cs[i]);
        proof {
            assert(path::root() != path::cur()) by {
                assert(path::root()[0] != path::cur()[0]);
            }
            assert(path::root() != path::up()) by {
                assert(path::root().len() != path::up().len());
            }
            assert(path::cur() != path::up()) by {
                assert(path::cur().len() != path::up().len());
            }
            assert(v@ =~= seq![rank(cs@[i as int]@)] + cs@[i as int]@);
            assert(want.take(i + 1) =~= want.take(i as int).push(want[i as int]));
        }
        out.push(text::string_of(&v));
    }
    assert(want.take(want.len() as int) =~= want);
    out
}

/// Some piece of a path looks like a name with a version: a dash and a digit.
pub open spec fn versioned(ps: Seq<Seq<char>>) -> bool {
    exists|i: int| 0 <= i < ps.len() && has_version(#[trigger] ps[i])
}

/// A dash and a digit.
pub open spec fn has_version(s: Seq<char>) -> bool {
    s.contains('-') && exists|i: int| 0 <= i < s.len() && text::is_digit(#[trigger] s[i])
}

/// How well a third-party package fits: a version in its path counts most,
/// then that it is for python 3.
pub open spec fn score(p: Seq<char>) -> nat {
    (if versioned(text::split(p, Class::Only('/'))) {
        2nat
    } else {
        0nat
    }) + (if text::has(p, "py3"@) {
        1nat
    } else {
        0nat
    })
}

fn shows_version(s: &Vec<char>) -> (r: bool)
    ensures
        r == has_version(s@),
{
    if !text::contains_char(s, '-') {
        return false;
    }
    for i in 0..s.len()
        invariant
            forall|j: int| 0 <= j < i ==> !text::is_digit(#[trigger] s@[j]),
            s@.contains('-'),
    {
        if '0' <= s[i] && s[i] <= '9' {
            assert(text::is_digit(s@[i as int]));
            return true;
        }
        assert(!text::is_digit(s@[i as int]));
    }
    false
}

fn score_of(p: &str) -> (r: u8)
    ensures
        r == score(p@),
{
    let c = text::chars_of(p);
    let ps = text::split_by(&c, Class::Only('/'));
    let ghost all = views::pieces(ps@);
    let mut v = false;
    for i in 0..ps.len()
        invariant
            all == views::pieces(ps@),
            v == (exists|j: int| 0 <= j < i && has_version(#[trigger] all[j])),
    {
        assert(all[i as int] == ps@[i as int]@);
        if shows_version(&ps[i]) {
            assert(has_version(all[i as int]));
            v = true;
        }
    }
    let py3 = text::contains_lit(&c, "py3");
    if v {
        if py3 {
            3
        } else {
            2
        }
    } else if py3 {
        1
    } else {
        0
    }
}

/// The better of two packages: the one that fits better, and of two that fit
/// alike the one whose path comes last.
pub open spec fn better(a: Seq<char>, b: Seq<char>) -> Seq<char> {
    if score(b) > score(a) || (score(b) == score(a) && order::row_le(path_row(a), path_row(b))) {
        b
    } else {
        a
    }
}

/// The best of some packages.
pub open spec fn best(ps: Seq<Seq<char>>) -> Option<Seq<char>>
    decreases ps.len(),
{
    if ps.len() == 0 {
        None
    } else {
        match best(ps.drop_last()) {
            None => Some(ps.last()),
            Some(b) => Some(better(b, ps.last())),
        }
    }
}

/// The best of some third-party packages, whatever order they were found in.
pub fn best_package(cands: &Vec<String>) -> (r: Option<String>)
    ensures
        views::opt_text(r) == best(views::texts(cands@)),
{
    let ghost all = views::texts(cands@);
    let mut r: Option<String> = None;
    assert(all.take(0) =~= Seq::<Seq<char>>::empty());
    for i in 0..cands.len()
        invariant
            all == views::texts(cands@),
            views::opt_text(r) == best(all.take(i as int)),
    {
        assert(all.take(i + 1).drop_last() =~= all.take(i as int));
        assert(all.take(i + 1).last() == cands@[i as int]@);
        let take = match &r {
            None => true,
            Some(b) => {
                let sa = score_of(b.as_str());
                let sb = score_of(cands[i].as_str());
                sb > sa || (sb == sa && order::row_before(
                    &row_of_path(b.as_str()),
                    &row_of_path(cands[i].as_str()),
                ))
            },
        };
        if take {
            r = Some(cands[i].clone());
        }
    }
    assert(all.take(all.len() as int) =~= all);
    r
}

/// A directory met while a module is searched for downwards.
#[derive(Debug, Clone)]
pub struct SubDir {
    pub path: String,
    /// It holds the module as a file.
    pub has_module: bool,
    /// It is a package.
    pub has_init: bool,
}

/// A directory that the search passes over.
pub open spec fn passed_over(p: Seq<char>) -> bool {
    path::file_name(p) matches Some(f) && ("."@.is_prefix_of(f) || f == "node_modules"@)
}

/// The first directory of a level that provides a module.
pub open spec fn holder(subs: Seq<SubDir>, name: Seq<char>) -> Option<Seq<char>>
    decreases subs.len(),
{
    if subs.len() == 0 {
        None
    } else {
        match holder(subs.drop_last(), name) {
            Some(h) => Some(h),
            None => {
                let s = subs.last();
                if !passed_over(s.path@) && provides(s.path@, name, s.has_module, s.has_init) {
                    Some(s.path@)
                } else {
                    None
                }
            },
        }
    }
}

/// The directories of a level below which the search goes on.
pub open spec fn below_level(subs: Seq<SubDir>) -> Seq<Seq<char>>
    decreases subs.len(),
{
    if subs.len() == 0 {
        Seq::empty()
    } else if passed_over(subs.last().path@) {
        below_level(subs.drop_last())
    } else {
        below_level(subs.drop_last()).push(subs.last().path@)
    }
}

/// How many levels down a module is searched for.
pub const SEARCH_DEPTH: usize = 3;

/// One level of the search for a module below a directory: the first directory
/// that provides it, or else those below which the search goes on.
pub fn find_module_below(subs: &Vec<SubDir>, name: &str) -> (r: Result<String, Vec<String>>)
    ensures
        match r {
            Ok(h) => holder(subs@, name@) == Some(h@),
            Err(v) => holder(subs@, name@) is None && views::texts(v@) == below_level(subs@),
        },
{
    let mut next: Vec<String> = Vec::new();
    assert(subs@.take(0) =~= Seq::<SubDir>::empty());
    assert(views::texts(next@) =~= below_level(subs@.take(0)));
    for i in 0..subs.len()
        invariant
            holder(subs@.take(i as int), name@) is None,
            views::texts(next@) == below_level(subs@.take(i as int)),
    {
        assert(subs@.take(i + 1).drop_last() =~= subs@.take(i as int));
        assert(subs@.take(i + 1).last() == subs@[i as int]);
        let c = text::chars_of(subs[i].path.as_str());
        let skip = match path::name_of(&c) {
            Some(f) => text::starts_lit(&f, ".") || text::is_lit(&f, "node_modules"),
            None => false,
        };
        if !skip {
            if provides_module(
                subs[i].path.as_str(),
                name,
                subs[i].has_module,
                subs[i].has_init,
            ) {
                proof {
                    holder_stands(subs@, name@, i + 1);
                }
                return Ok(subs[i].path.clone());
            }
            next.push(subs[i].path.clone());
        }
    }
    assert(subs@.take(subs@.len() as int) =~= subs@);
    Err(next)
}

/// The first directory that provides a module stays the first.
proof fn holder_stands(subs: Seq<SubDir>, name: Seq<char>, n: int)
    requires
        0 <= n <= subs.len(),
        holder(subs.take(n), name) is Some,
    ensures
        holder(subs, name) == holder(subs.take(n), name),
    decreases subs.len() - n,
{
    if n == subs.len() {
        assert(subs.take(n) =~= subs);
    } else {
        assert(subs.take(n + 1).drop_last() =~= subs.take(n));
        holder_stands(subs, name, n + 1);
    }
}

/// The search for a module below a directory, level by level.
#[derive(Debug)]
pub struct ModuleSearch {
    /// The directories whose own directories are looked at next.
    pub level: Vec<String>,
    /// How many levels are left.
    pub left: usize,
}

impl ModuleSearch {
    /// A search below a directory.
    pub fn new(dir: &str) -> (r: ModuleSearch)
        ensures
            views::texts(r.level@) == seq![dir@],
            r.left == SEARCH_DEPTH,
    {
        let c = text::chars_of(dir);
        let mut level: Vec<String> = Vec::new();
        level.push(text::string_of(&c));
        assert(views::texts(level@) =~= seq![dir@]);
        ModuleSearch { level, left: SEARCH_DEPTH }
    }

    /// Whether the search goes on.
    pub fn goes_on(&self) -> (r: bool)
        ensures
            r == (self.left > 0 && self.level@.len() > 0),
    {
        self.left > 0 && self.level.len() > 0
    }

    /// Looks at the directories of a level, in order: the first that provides
    /// the module is the answer and ends the search; else the next level is
    /// that below them.
    pub fn step(&mut self, subs: &Vec<SubDir>, name: &str) -> (r: Option<String>)
        requires
            old(self).left > 0,
        ensures
            views::opt_text(r) == holder(subs@, name@),
            r is Some ==> final(self).left == 0,
            r is None ==> final(self).left == old(self).left - 1 && views::texts(
                final(self).level@,
            ) == below_level(subs@),
    {
        match find_module_below(subs, name) {
            Ok(h) => {
                self.left = 0;
                Some(h)
            },
            Err(next) => {
                self.left = self.left - 1;
                self.level = next;
                None
            },
        }
    }
}

/// The directories that a project's own paths are composed with.
pub open spec fn bases_of(dir: Seq<char>) -> Seq<Seq<char>> {
    match path::parent(dir) {
        Some(p) => seq![dir, p, path::joined(p, "third_party"@)],
        None => seq![dir],
    }
}

/// The directories that a project's path may mean, in order: composed with each
/// base, without the directory itself.
pub fn project_candidates(dir: &str, rel: &str) -> (r: Vec<String>)
    ensures
        views::texts(r@) == elsewhere(dir@, bases_of(dir@), rel@),
{
    let c = text::chars_of(dir);
    let mut bases: Vec<String> = Vec::new();
    bases.push(text::string_of(&c));
    if let Some(p) = path::parent_of(&c) {
        let s = text::string_of(&p);
        let tp = path::join_str(s.as_str(), "third_party");
        bases.push(s);
        bases.push(tp);
        assert(views::texts(bases@) =~= bases_of(dir@));
    } else {
        assert(views::texts(bases@) =~= bases_of(dir@));
    }
    let ghost all = bases_of(dir@);
    let mut out: Vec<String> = Vec::new();
    assert(views::texts(out@) =~= elsewhere(dir@, all.take(0), rel@));
    for i in 0..bases.len()
        invariant
            all == views::texts(bases@),
            views::texts(out@) == elsewhere(dir@, all.take(i as int), rel@),
    {
        assert(all.take(i + 1).drop_last() =~= all.take(i as int));
        assert(all.take(i + 1).last() == bases@[i as int]@);
        let p = path::lexical_join(bases[i].as_str(), rel);
        if !path::eq_path(p.as_str(), dir) {
            out.push(p);
        }
    }
    assert(all.take(all.len() as int) =~= all);
    out
}

/// A relative path walked from each base, without one directory.
pub open spec fn elsewhere(dir: Seq<char>, bases: Seq<Seq<char>>, rel: Seq<char>) -> Seq<Seq<char>>
    decreases bases.len(),
{
    if bases.len() == 0 {
        Seq::empty()
    } else {
        let front = elsewhere(dir, bases.drop_last(), rel);
        let p = path::walked(bases.last(), rel);
        if path::same_path(p, dir) {
            front
        } else {
            front.push(p)
        }
    }
}

/// A file's name says that it configures a project.
pub open spec fn configures(name: Seq<char>) -> bool {
    "_project.py"@.is_suffix_of(name)
}

/// Whether a file's name says that it configures a project.
pub fn is_project_file(name: &str) -> (r: bool)
    ensures
        r == configures(name@),
{
    let c = text::chars_of(name);
    text::ends_lit(&c, "_project.py")
}

/// The packages beside a package that it imports: those of the imported names
/// that are not itself. Those that are packages are uploaded with it.
pub open spec fn sibling_packages(dir: Seq<char>, names: Seq<Seq<char>>) -> Seq<Seq<char>> {
    match path::parent(dir) {
        Some(p) => but_itself(dir, p, names),
        None => Seq::empty(),
    }
}

/// The names joined to a base, without one directory.
pub open spec fn but_itself(dir: Seq<char>, base: Seq<char>, names: Seq<Seq<char>>) -> Seq<Seq<char>>
    decreases names.len(),
{
    if names.len() == 0 {
        Seq::empty()
    } else {
        let front = but_itself(dir, base, names.drop_last());
        let p = path::joined(base, names.last());
        if path::same_path(p, dir) {
            front
        } else {
            front.push(p)
        }
    }
}

/// The packages beside a package that it may import.
pub fn imported_siblings(dir: &str, names: &Vec<String>) -> (r: Vec<String>)
    ensures
        views::texts(r@) == sibling_packages(dir@, views::texts(names@)),
{
    let mut out: Vec<String> = Vec::new();
    assert(views::texts(out@) =~= Seq::<Seq<char>>::empty());
    let c = text::chars_of(dir);
    let base = match path::parent_of(&c) {
        Some(p) => text::string_of(&p),
        None => {
            return out;
        },
    };
    let ghost all = views::texts(names@);
    assert(all.take(0) =~= Seq::<Seq<char>>::empty());
    for i in 0..names.len()
        invariant
            all == views::texts(names@),
            views::texts(out@) == but_itself(dir@, base@, all.take(i as int)),
    {
        assert(all.take(i + 1).drop_last() =~= all.take(i as int));
        assert(all.take(i + 1).last() == names@[i as int]@);
        let p = path::join_str(base.as_str(), names[i].as_str());
        if !path::eq_path(p.as_str(), dir) {
            out.push(p);
        }
    }
    assert(all.take(all.len() as int) =~= all);
    out
}

/// How a directory that a command names is uploaded.
#[derive(Debug, Clone, Copy, PartialEq, Eq)]
pub enum DirUpload {
    /// All its files.
    Files,
    /// All its files, and the packages beside it that it imports.
    FilesAndSiblings,
    /// Only the packages in it: it has too many files. A package that has too
    /// many files itself fails the upload.
    Packages,
}

/// How a directory that a command names is uploaded: `fits` says that its files
/// are not too many, `is_package` that it is a python package.
pub fn dir_upload(fits: bool, is_package: bool) -> (r: DirUpload)
    ensures
        r == if !fits {
            DirUpload::Packages
        } else if is_package {
            DirUpload::FilesAndSiblings
        } else {
            DirUpload::Files
        },
{
    if !fits {
        DirUpload::Packages
    } else if is_package {
        DirUpload::FilesAndSiblings
    } else {
        DirUpload::Files
    }
}

/// What to say of a package that has too many files.
pub fn wide_package_note(dir: &str) -> (r: String)
    ensures
        r@ == "python package "@ + dir@
            + " holds more than 1024 files; declare its files as inputs or raise DIR_UPLOAD_CAP deliberately"@,
{
    let mut v = text::chars_of("python package ");
    text::append_str(&mut v, dir);
    text::append_str(
        &mut v,
        " holds more than 1024 files; declare its files as inputs or raise DIR_UPLOAD_CAP deliberately",
    );
    text::string_of(&v)
}

// ---------------------------------------------------------------------------
// Laws
// ---------------------------------------------------------------------------

/// A list with a path more has that path and its own.
proof fn listed_push(ps: Seq<Seq<char>>, p: Seq<char>, q: Seq<char>)
    ensures
        path::listed(ps.push(p), q) <==> path::listed(ps, q) || path::same_path(p, q),
{
    let more = ps.push(p);
    if path::listed(more, q) {
        let i = choose|i: int| 0 <= i < more.len() && path::same_path(#[trigger] more[i], q);
        if i < ps.len() {
            assert(path::same_path(ps[i], q));
        }
    }
    if path::listed(ps, q) {
        let i = choose|i: int| 0 <= i < ps.len() && path::same_path(#[trigger] ps[i], q);
        assert(path::same_path(more[i], q));
    }
    assert(more[ps.len() as int] == p);
}

/// A path that a list does not have stands apart from it.
proof fn apart_push(ps: Seq<Seq<char>>, p: Seq<char>)
    requires
        apart(ps),
        !path::listed(ps, p),
    ensures
        apart(ps.push(p)),
{
    let more = ps.push(p);
    assert forall|i: int, j: int| 0 <= i < j < more.len() implies !path::same_path(
        #[trigger] more[i],
        #[trigger] more[j],
    ) by {
        assert(more[i] == ps[i]);
        if j < ps.len() {
            assert(more[j] == ps[j]);
        }
    }
}

/// A walk is sound from the start.
pub proof fn walks_start_sound(seeds: Seq<Seq<char>>, cap: nat)
    ensures
        sound(walk_from(seeds, cap)),
{
    path::first_paths_cover(seeds);
    let s = walk_from(seeds, cap);
    assert forall|i: int| 0 <= i < s.queue.len() implies path::listed(
        s.seen,
        #[trigger] s.queue[i],
    ) by {
        assert(path::same_path(seeds[i], seeds[i]));
        assert(path::listed(seeds, seeds[i]));
    }
}

/// A walk stays sound, whatever it is offered and however often it steps: it
/// looks at no file twice and lists no file twice.
pub proof fn walks_stay_sound(s: ClosureView, p: Seq<char>)
    requires
        sound(s),
    ensures
        sound(stepped(s)),
        sound(offered(s, p)),
        path::listed(offered(s, p).seen, p),
{
    let t = stepped(s);
    if s.queue.len() > 0 {
        assert forall|i: int| 0 <= i < t.queue.len() implies path::listed(
            t.seen,
            #[trigger] t.queue[i],
        ) by {
            assert(t.queue[i] == s.queue[i]);
        }
    }
    let o = offered(s, p);
    if !path::listed(s.seen, p) {
        apart_push(s.seen, p);
        if path::listed(s.found, p) {
            let i = choose|i: int| 0 <= i < s.found.len() && path::same_path(
                #[trigger] s.found[i],
                p,
            );
            assert(path::listed(s.seen, s.found[i]));
            let j = choose|j: int| 0 <= j < s.seen.len() && path::same_path(
                #[trigger] s.seen[j],
                s.found[i],
            );
            assert(path::same_path(s.seen[j], p));
        }
        apart_push(s.found, p);
        listed_push(s.seen, p, p);
        assert forall|i: int| 0 <= i < o.queue.len() implies path::listed(
            o.seen,
            #[trigger] o.queue[i],
        ) by {
            listed_push(s.seen, p, o.queue[i]);
            if i < s.queue.len() {
                assert(o.queue[i] == s.queue[i]);
            }
        }
        assert forall|i: int| 0 <= i < o.found.len() implies path::listed(
            o.seen,
            #[trigger] o.found[i],
        ) by {
            listed_push(s.seen, p, o.found[i]);
            if i < s.found.len() {
                assert(o.found[i] == s.found[i]);
            }
        }
    }
}

/// A directory walk never holds more files than its limit, and once it has
/// given up it stays so.
pub proof fn walks_stay_capped(s: DirView, p: Seq<char>, is_dir: bool, is_file: bool)
    requires
        s.paths.len() <= s.cap,
    ensures
        with_entry(s, p, is_dir, is_file).paths.len() <= s.cap,
        s.over ==> with_entry(s, p, is_dir, is_file) == s,
{
}

/// A directory that was looked at is passed over, however many were: the limit
/// refuses new directories alone.
pub proof fn seen_is_never_refused(s: ImportView)
    requires
        s.queue.len() > 0,
        path::listed(s.visited, s.queue.last()),
    ensures
        next_directory(s) == next_directory(ImportView { queue: s.queue.drop_last(), ..s }),
{
}

/// No package fits better than the best one.
pub proof fn best_is_best(ps: Seq<Seq<char>>, i: int)
    requires
        0 <= i < ps.len(),
    ensures
        best(ps) matches Some(b) && score(ps[i]) <= score(b) && ps.contains(b),
    decreases ps.len(),
{
    let front = ps.drop_last();
    assert(ps[ps.len() - 1] == ps.last());
    if front.len() > 0 {
        if i < front.len() {
            best_is_best(front, i);
            assert(front[i] == ps[i]);
        } else {
            best_is_best(front, 0);
        }
        let b = best(front)->0;
        let j = choose|j: int| 0 <= j < front.len() && front[j] == b;
        assert(ps[j] == b);
    }
}

/// A file that is referred to for the first time is looked at next and is listed
/// last; one that was met under any spelling changes nothing.
pub proof fn new_files_are_looked_at(s: ClosureView, p: Seq<char>)
    ensures
        !path::listed(s.seen, p) ==> offered(s, p).queue == s.queue.push(p) && offered(s, p).found
            == s.found.push(p) && offered(s, p).seen == s.seen.push(p) && offered(s, p).cap == s.cap,
        path::listed(s.seen, p) ==> offered(s, p) == s,
        !path::listed(s.seen, p) && s.seen.len() < s.cap ==> next_file(offered(s, p)) == Some(p),
{
    assert(s.queue.push(p).last() == p);
}

/// A walk looks at every file that it was given, until it has met more than its
/// limit: exactly the limit is still walked.
pub proof fn walks_go_on_up_to_their_limit(s: ClosureView)
    ensures
        s.queue.len() > 0 && s.seen.len() <= s.cap ==> next_file(s) == Some(s.queue.last()),
        s.seen.len() > s.cap ==> next_file(s) is None,
        s.queue.len() == 0 ==> next_file(s) is None,
        s.queue.len() > 0 ==> stepped(s).queue == s.queue.drop_last(),
        stepped(s).seen == s.seen && stepped(s).found == s.found && stepped(s).cap == s.cap,
{
}

/// A walk starts with every seed, and has found nothing yet.
pub proof fn walks_start_with_their_seeds(seeds: Seq<Seq<char>>, cap: nat, i: int)
    requires
        0 <= i < seeds.len(),
    ensures
        walk_from(seeds, cap).queue == seeds,
        path::listed(walk_from(seeds, cap).seen, seeds[i]),
        walk_from(seeds, cap).found.len() == 0,
        walk_from(seeds, cap).cap == cap,
{
    path::first_paths_cover(seeds);
    assert(path::same_path(seeds[i], seeds[i]));
    assert(path::listed(seeds, seeds[i]));
}

/// What a document takes in lies beside it, name for name.
pub proof fn names_lie_beside_their_document(doc: Seq<char>, names: Seq<Seq<char>>, i: int)
    requires
        0 <= i < names.len(),
    ensures
        path::parent(doc) matches Some(d) ==> beside_names(doc, names).len() == names.len()
            && beside_names(doc, names)[i] == path::joined(d, names[i]),
        joined_all(doc, names).len() == names.len(),
        joined_all(doc, names)[i] == path::joined(doc, names[i]),
{
}

/// A table's name is looked for below the root first, and then below each of the
/// directories in their order.
pub proof fn tables_are_looked_for_in_order(
    root: Seq<char>,
    name: Seq<char>,
    dirs: Seq<Seq<char>>,
    i: int,
)
    requires
        0 <= i < dirs.len(),
    ensures
        table_places(root, name, dirs).len() == dirs.len() + 1,
        table_places(root, name, dirs)[0] == path::joined(root, name),
        table_places(root, name, dirs)[i + 1] == path::joined(path::joined(root, dirs[i]), name),
{
}

/// A document is looked at once: one that was not yet is the next, while less
/// than the limit is listed; one that was is passed over, and changes nothing.
pub proof fn documents_are_looked_at_once(s: ReferenceView, p: Seq<char>)
    ensures
        ({
            let t = ReferenceView { queue: s.queue.push(p), ..s };
            &&& s.out.len() < s.cap && !path::listed(s.seen, p) ==> next_document(t) == (
                (ReferenceView { seen: s.seen.push(p), ..s }),
                Some(p),
            )
            &&& path::listed(s.seen, p) ==> next_document(t) == next_document(s)
            &&& s.out.len() >= s.cap ==> next_document(t).1 is None
        }),
        s.queue.len() == 0 ==> next_document(s) == (s, None::<Seq<char>>),
    decreases s.queue.len(),
{
    let t = ReferenceView { queue: s.queue.push(p), ..s };
    assert(t.queue.drop_last() =~= s.queue);
    assert(t.queue.last() == p);
    assert((ReferenceView { queue: t.queue.drop_last(), ..t }) == s);
    if s.out.len() >= s.cap {
        full_walks_end(s);
    }
}

proof fn full_walks_end(s: ReferenceView)
    requires
        s.out.len() >= s.cap,
    ensures
        next_document(s).1 is None,
    decreases s.queue.len(),
{
    if s.queue.len() > 0 {
        full_walks_end(ReferenceView { queue: s.queue.drop_last(), ..s });
    }
}

/// The references of a document are listed behind what is listed, all of them and
/// in their order, and are looked at later; they lie beside the document.
pub proof fn references_are_listed_and_looked_at(
    s: ReferenceView,
    ps: Seq<Seq<char>>,
    root: Seq<char>,
    doc: Seq<char>,
    contents: Seq<char>,
    i: int,
)
    requires
        0 <= i < readers::rst_names(text::lines(contents)).len(),
    ensures
        with_references(s, ps).out == s.out + ps,
        with_references(s, ps).queue == s.queue + ps,
        with_references(s, ps).seen == s.seen,
        references(root, doc, contents).len() == readers::rst_names(text::lines(contents)).len(),
        path::parent(doc) matches Some(d) ==> references(root, doc, contents)[i] == path::joined(
            d,
            readers::rst_names(text::lines(contents))[i],
        ),
{
}

/// A directory walk takes every file up to its limit, in the order in which they
/// are met, and every directory; one file more and it gives up.
pub proof fn entries_are_taken(s: DirView, p: Seq<char>, is_file: bool)
    requires
        !s.over,
    ensures
        with_entry(s, p, true, is_file) == (DirView { stack: s.stack.push(p), ..s }),
        s.paths.len() < s.cap ==> with_entry(s, p, false, true) == (DirView {
            paths: s.paths.push(p),
            ..s
        }),
        s.paths.len() >= s.cap ==> with_entry(s, p, false, true).over && with_entry(
            s,
            p,
            false,
            true,
        ).paths == s.paths,
        with_entry(s, p, false, false) == s,
{
}

/// A directory is scanned once, and 64 different ones are; the next is refused.
pub proof fn directories_are_scanned_once(s: ImportView, p: Seq<char>)
    ensures
        ({
            let t = ImportView { queue: s.queue.push(p), ..s };
            &&& !path::listed(s.visited, p) && s.visited.len() < 64 ==> next_directory(t) == Some(
                ((ImportView { visited: s.visited.push(p), ..s }), Some(p)),
            )
            &&& !path::listed(s.visited, p) && s.visited.len() >= 64 ==> next_directory(t) is None
            &&& path::listed(s.visited, p) ==> next_directory(t) == next_directory(s)
        }),
        s.queue.len() == 0 ==> next_directory(s) == Some((s, None::<Seq<char>>)),
{
    let t = ImportView { queue: s.queue.push(p), ..s };
    assert(t.queue.drop_last() =~= s.queue);
    assert(t.queue.last() == p);
    assert((ImportView { queue: t.queue.drop_last(), ..t }) == s);
}

/// A python file is taken for its extension, a package for its marker, and what
/// node brings for its name; nothing else is.
pub proof fn entries_of_a_package_are_told_apart(
    p: Seq<char>,
    is_file: bool,
    is_dir: bool,
    has_init: bool,
)
    requires
        !(is_file && is_dir),
    ensures
        py_entry(p, is_file, is_dir, has_init) == PyEntry::File <==> is_file && path::extension(p)
            == Some("py"@),
        py_entry(p, is_file, is_dir, has_init) == PyEntry::Tree <==> is_dir && path::file_name(p)
            == Some("node_modules"@),
        py_entry(p, is_file, is_dir, has_init) == PyEntry::Package <==> is_dir && has_init
            && path::file_name(p) != Some("node_modules"@),
{
}

/// An imported name is left to be looked for unless python has it or something
/// beside the file is it, as a module or as a package; names keep their order.
pub proof fn names_are_satisfied_beside_the_file(
    names: Seq<Seq<char>>,
    beside: Seq<(bool, bool)>,
    n: Seq<char>,
    module: bool,
    package: bool,
)
    requires
        names.len() == beside.len(),
    ensures
        unsatisfied(Seq::empty(), Seq::empty()).len() == 0,
        unsatisfied(names.push(n), beside.push((module, package))) == if is_stdlib(n) || module
            || package {
            unsatisfied(names, beside)
        } else {
            unsatisfied(names, beside).push(n)
        },
{
    assert(names.push(n).drop_last() =~= names);
    later_answers_do_not_matter(names, beside, beside.push((module, package)));
}

proof fn later_answers_do_not_matter(
    names: Seq<Seq<char>>,
    a: Seq<(bool, bool)>,
    b: Seq<(bool, bool)>,
)
    requires
        a.len() >= names.len(),
        a.is_prefix_of(b),
    ensures
        unsatisfied(names, a) == unsatisfied(names, b),
    decreases names.len(),
{
    if names.len() > 0 {
        later_answers_do_not_matter(names.drop_last(), a, b);
        assert(a[names.len() - 1] == b[names.len() - 1]);
    }
}

/// Paths are joined to their base one by one, in their order; what is the
/// directory itself is left out, and nothing else.
pub proof fn the_directory_itself_is_left_out(
    dir: Seq<char>,
    base: Seq<char>,
    own: Seq<char>,
    a: Seq<Seq<char>>,
    n: Seq<char>,
    b: Seq<Seq<char>>,
)
    ensures
        but_itself(dir, base, a + b) == but_itself(dir, base, a) + but_itself(dir, base, b),
        but_itself(dir, base, seq![n]) == if path::comps(path::joined(base, n)) == path::comps(
            dir,
        ) {
            Seq::<Seq<char>>::empty()
        } else {
            seq![path::joined(base, n)]
        },
        others(base, own, a + b) == others(base, own, a) + others(base, own, b),
        others(base, own, seq![n]) == if path::file_name(path::joined(base, n)) == Some(own) {
            Seq::<Seq<char>>::empty()
        } else {
            seq![path::joined(base, n)]
        },
        elsewhere(dir, a + b, n) == elsewhere(dir, a, n) + elsewhere(dir, b, n),
        elsewhere(dir, seq![base], n) == if path::comps(path::walked(base, n)) == path::comps(dir) {
            Seq::<Seq<char>>::empty()
        } else {
            seq![path::walked(base, n)]
        },
    decreases b.len(),
{
    reveal_with_fuel(but_itself, 2);
    reveal_with_fuel(others, 2);
    reveal_with_fuel(elsewhere, 2);
    let e = Seq::<Seq<char>>::empty();
    assert(seq![n].drop_last() =~= e);
    assert(seq![base].drop_last() =~= e);
    assert(e.push(path::joined(base, n)) =~= seq![path::joined(base, n)]);
    assert(e.push(path::walked(base, n)) =~= seq![path::walked(base, n)]);
    if b.len() == 0 {
        assert(a + b =~= a);
        assert(but_itself(dir, base, a) + but_itself(dir, base, b) =~= but_itself(dir, base, a));
        assert(others(base, own, a) + others(base, own, b) =~= others(base, own, a));
        assert(elsewhere(dir, a, n) + elsewhere(dir, b, n) =~= elsewhere(dir, a, n));
    } else {
        the_directory_itself_is_left_out(dir, base, own, a, n, b.drop_last());
        assert((a + b).drop_last() =~= a + b.drop_last());
        assert((a + b).last() == b.last());
        assert(but_itself(dir, base, a + b) =~= but_itself(dir, base, a) + but_itself(
            dir,
            base,
            b,
        ));
        assert(others(base, own, a + b) =~= others(base, own, a) + others(base, own, b));
        assert(elsewhere(dir, a + b, n) =~= elsewhere(dir, a, n) + elsewhere(dir, b, n));
    }
}

/// A project's paths are composed with its directory, the one above and the third
/// parties beside, in this order.
pub proof fn projects_are_looked_for_around(dir: Seq<char>)
    ensures
        path::parent(dir) matches Some(p) ==> bases_of(dir).len() == 3 && bases_of(dir)[0] == dir
            && bases_of(dir)[1] == p && bases_of(dir)[2] == path::joined(p, "third_party"@),
        path::parent(dir) is None ==> bases_of(dir) == seq![dir],
{
}

/// The levels above a directory are its parents one after the other, as many as
/// there are but no more than asked for.
pub proof fn levels_are_parents(at: Seq<char>, n: nat, i: int)
    ensures
        levels_above(at, n).len() <= n,
        0 <= i < levels_above(at, n).len() ==> path::comps(levels_above(at, n)[i]) == path::comps(
            at,
        ).take(path::comps(at).len() - i - 1) && i < path::comps(at).len(),
        levels_above(at, n).len() < n ==> path::comps(at).len() <= levels_above(at, n).len() + 1,
    decreases n,
{
    if n > 0 {
        path::parent_drops_last(at);
        if path::parent(at) is Some {
            let up = path::parent(at)->0;
            let m = (n - 1) as nat;
            let rest = levels_above(up, m);
            levels_are_parents(up, m, i - 1);
            let all = levels_above(at, n);
            if 0 <= i < all.len() {
                if i == 0 {
                    assert(all[0] == up);
                    assert(path::comps(at).drop_last() =~= path::comps(at).take(
                        path::comps(at).len() - 1,
                    ));
                } else {
                    assert(all[i] == rest[i - 1]);
                    assert(path::comps(at).drop_last().take(path::comps(at).len() - 1 - i)
                        =~= path::comps(at).take(path::comps(at).len() - i - 1));
                }
            }
        }
    }
}

/// Of two packages that fit alike the one whose path comes last is the best.
pub proof fn the_last_of_equals_is_best(ps: Seq<Seq<char>>, i: int)
    requires
        0 <= i < ps.len(),
    ensures
        best(ps) matches Some(b) && (score(ps[i]) == score(b) ==> order::row_le(
            path_row(ps[i]),
            path_row(b),
        )),
    decreases ps.len(),
{
    let front = ps.drop_last();
    let last = ps.last();
    let n = ps.len() - 1;
    if front.len() > 0 {
        let j: int = if i < front.len() {
            i
        } else {
            0
        };
        the_last_of_equals_is_best(front, j);
        best_is_best(front, j);
        let b = best(front)->0;
        order::row_le_total(path_row(b), path_row(last));
        order::row_le_total(path_row(last), path_row(last));
        if i < front.len() {
            assert(front[i] == ps[i]);
            if better(b, last) == last && score(ps[i]) == score(last) && score(b) == score(last) {
                order::row_le_transitive(path_row(ps[i]), path_row(b), path_row(last));
            }
        } else {
            assert(ps[i] == last);
        }
    } else {
        assert(ps[i] == last);
        order::row_le_total(path_row(last), path_row(last));
    }
}

/// A version anywhere in a path counts twice as much as that it is for python 3:
/// a piece between slashes with a dash and a digit is one.
pub proof fn versions_count_most(a: Seq<char>, piece: Seq<char>, b: Seq<char>, p: Seq<char>)
    requires
        !piece.contains('/'),
        piece.contains('-'),
        exists|i: int| 0 <= i < piece.len() && '0' <= #[trigger] piece[i] <= '9',
    ensures
        score(a + seq!['/'] + piece + seq!['/'] + b) >= 2,
        score(a + seq!['/'] + piece) >= 2,
        score(piece) >= 2,
        !p.contains('-') ==> score(p) <= 1,
        text::has(p, "py3"@) ==> score(p) % 2 == 1,
        !text::has(p, "py3"@) ==> score(p) % 2 == 0,
{
    let k = Class::Only('/');
    path::split_whole(piece, '/');
    let one = text::split(piece, k);
    let i = choose|i: int| 0 <= i < piece.len() && '0' <= #[trigger] piece[i] <= '9';
    assert(text::is_digit(piece[i]));
    assert(has_version(piece));
    assert(one[0] == piece);
    let s = a + seq!['/'] + piece;
    text::split_parts(a, '/', piece, k);
    let n = text::split(a, k).len();
    assert(text::split(s, k)[n as int] == piece);
    text::split_parts(s, '/', b, k);
    assert((text::split(s, k) + text::split(b, k))[n as int] == piece);
    if !p.contains('-') {
        path::join_of_split(p, '/');
        let ps = text::split(p, k);
        if versioned(ps) {
            let j = choose|j: int| 0 <= j < ps.len() && has_version(#[trigger] ps[j]);
            pieces_stand(p, j);
        }
    }
}

proof fn pieces_stand(p: Seq<char>, j: int)
    requires
        0 <= j < text::split(p, Class::Only('/')).len(),
    ensures
        forall|c: char| #[trigger]
            text::split(p, Class::Only('/'))[j].contains(c) ==> p.contains(c),
    decreases p.len(),
{
    let k = Class::Only('/');
    text::span_stops(p, k);
    let n = text::span(p, k);
    let ps = text::split(p, k);
    if n < p.len() {
        let rest = p.skip(n + 1);
        if j == 0 {
            assert(ps[0] == p.take(n));
            assert forall|c: char| #[trigger] ps[0].contains(c) implies p.contains(c) by {
                let i = choose|i: int| 0 <= i < ps[0].len() && ps[0][i] == c;
                assert(p[i] == c);
            }
        } else {
            pieces_stand(rest, j - 1);
            assert(ps[j] == text::split(rest, k)[j - 1]);
            assert forall|c: char| #[trigger] ps[j].contains(c) implies p.contains(c) by {
                assert(rest.contains(c));
                let i = choose|i: int| 0 <= i < rest.len() && rest[i] == c;
                assert(p[i + n + 1] == c);
            }
        }
    } else {
        assert(ps[j] == p);
    }
}

/// The first directory of a level that provides a module holds it, whatever lies
/// behind it; hidden directories and what node brings are passed over, and the
/// search goes on below every other, in their order.
pub proof fn the_first_provider_holds_a_module(
    a: Seq<SubDir>,
    s: SubDir,
    name: Seq<char>,
)
    ensures
        holder(Seq::empty(), name) is None,
        below_level(Seq::empty()).len() == 0,
        holder(a, name) is Some ==> holder(a.push(s), name) == holder(a, name),
        holder(a, name) is None ==> holder(a.push(s), name) == if (s.has_module || (s.has_init
            && path::file_name(s.path@) == Some(name))) && !(path::file_name(s.path@) is Some && (
        path::file_name(s.path@)->0 == "node_modules"@ || "."@.is_prefix_of(
            path::file_name(s.path@)->0,
        ))) {
            Some(s.path@)
        } else {
            None
        },
        below_level(a.push(s)) == if path::file_name(s.path@) is Some && (path::file_name(s.path@)->0
            == "node_modules"@ || "."@.is_prefix_of(path::file_name(s.path@)->0)) {
            below_level(a)
        } else {
            below_level(a).push(s.path@)
        },
{
    assert(a.push(s).drop_last() =~= a);
    assert(a.push(s).last() == s);
}

/// The directories beside a directory are all that lie there but itself.
pub proof fn siblings_are_all_the_others(dir: Seq<char>, names: Seq<Seq<char>>, p: Seq<char>)
    requires
        path::file_name(dir) is Some,
        path::parent(dir) is Some,
    ensures
        sibling_paths(dir, names).contains(p) <==> exists|i: int|
            0 <= i < names.len() && p == path::joined(
                path::parent(dir)->0,
                #[trigger] names[i],
            ) && path::file_name(p) != path::file_name(dir),
{
    let own = path::file_name(dir)->0;
    let base = path::parent(dir)->0;
    let os = others(base, own, names);
    others_hold(base, own, names, p);
    order::sorted_texts_hold(os, p);
}

proof fn others_hold(base: Seq<char>, own: Seq<char>, names: Seq<Seq<char>>, p: Seq<char>)
    ensures
        others(base, own, names).contains(p) <==> exists|i: int|
            0 <= i < names.len() && p == path::joined(base, #[trigger] names[i])
                && path::file_name(p) != Some(own),
    decreases names.len(),
{
    if names.len() > 0 {
        let front = names.drop_last();
        let n = names.len() - 1;
        others_hold(base, own, front, p);
        let a = others(base, own, front);
        let b = others(base, own, names);
        if exists|i: int|
            0 <= i < names.len() && p == path::joined(base, #[trigger] names[i])
                && path::file_name(p) != Some(own) {
            let i = choose|i: int|
                0 <= i < names.len() && p == path::joined(base, #[trigger] names[i])
                    && path::file_name(p) != Some(own);
            if i < n {
                assert(front[i] == names[i]);
                let k = choose|k: int| 0 <= k < a.len() && a[k] == p;
                assert(b[k] == p);
            } else {
                assert(b[a.len() as int] == p);
            }
        }
        if b.contains(p) {
            let k = choose|k: int| 0 <= k < b.len() && b[k] == p;
            if k < a.len() {
                assert(a[k] == p);
                let i = choose|i: int|
                    0 <= i < front.len() && p == path::joined(base, #[trigger] front[i])
                        && path::file_name(p) != Some(own);
                assert(names[i] == front[i]);
            } else {
                assert(p == path::joined(base, names[n]));
            }
        }
    }
}

} // verus!
