//! What lies in the build directory before any task runs: files to upload,
//! links to carry as links, directories to create.
use crate::order;
use crate::path;
use crate::text;
use crate::views;
use vstd::prelude::*;

verus! {

broadcast use {views::texts_push, views::pieces_push, views::pairs_push};

// ---------------------------------------------------------------------------
// Links
// ---------------------------------------------------------------------------

/// How many components two lists share at the front.
pub open spec fn common(a: Seq<Seq<char>>, b: Seq<Seq<char>>) -> nat
    decreases a.len(),
{
    if a.len() > 0 && b.len() > 0 && a[0] == b[0] {
        1 + common(a.drop_first(), b.drop_first())
    } else {
        0
    }
}

/// The way from the directory `from` to `to`: up to where they part, then down.
pub open spec fn way(from: Seq<char>, to: Seq<char>) -> Seq<char> {
    let a = path::comps(from);
    let b = path::comps(to);
    let k = common(a, b);
    path::render(path::ups((a.len() - k) as nat) + b.skip(k as int))
}

/// The shared components are no more than either list has.
pub proof fn common_bounded(a: Seq<Seq<char>>, b: Seq<Seq<char>>)
    ensures
        common(a, b) <= a.len(),
        common(a, b) <= b.len(),
    decreases a.len(),
{
    if a.len() > 0 && b.len() > 0 && a[0] == b[0] {
        common_bounded(a.drop_first(), b.drop_first());
    }
}

/// The way from the directory `from` to `to`.
fn way_to(from: &Vec<char>, to: &Vec<char>) -> (r: Vec<char>)
    ensures
        r@ == way(from@, to@),
{
    let a = path::components(from);
    let b = path::components(to);
    let ghost ga = views::pieces(a@);
    let ghost gb = views::pieces(b@);
    let mut k: usize = 0;
    assert(ga.skip(0) =~= ga && gb.skip(0) =~= gb);
    while k < a.len() && k < b.len() && text::same(&a[k], &b[k])
        invariant
            ga == views::pieces(a@),
            gb == views::pieces(b@),
            k <= a.len(),
            k <= b.len(),
            common(ga, gb) == k + common(ga.skip(k as int), gb.skip(k as int)),
        decreases a.len() - k,
    {
        assert(ga.skip(k as int)[0] == a@[k as int]@ && gb.skip(k as int)[0] == b@[k as int]@);
        assert(ga.skip(k as int).drop_first() =~= ga.skip(k + 1));
        assert(gb.skip(k as int).drop_first() =~= gb.skip(k + 1));
        k += 1;
    }
    proof {
        if k < a.len() && k < b.len() {
            assert(ga.skip(k as int)[0] == a@[k as int]@ && gb.skip(k as int)[0] == b@[k as int]@);
        }
    }
    let n: usize = a.len() - k;
    let mut out: Vec<Vec<char>> = Vec::new();
    assert(views::pieces(out@) =~= path::ups(0));
    for i in 0..n
        invariant
            views::pieces(out@) == path::ups(i as nat),
    {
        out.push(path::up_text());
        assert(path::ups(i as nat).push(path::up()) =~= path::ups((i + 1) as nat));
    }
    assert(views::pieces(out@) =~= path::ups(n as nat) + gb.subrange(k as int, k as int));
    for i in k..b.len()
        invariant
            gb == views::pieces(b@),
            k <= b.len(),
            views::pieces(out@) == path::ups(n as nat) + gb.subrange(k as int, i as int),
    {
        out.push(text::copy(&b[i]));
        assert((path::ups(n as nat) + gb.subrange(k as int, i as int)).push(b@[i as int]@)
            =~= path::ups(n as nat) + gb.subrange(k as int, i + 1));
    }
    assert(gb.subrange(k as int, gb.len() as int) =~= gb.skip(k as int));
    path::rendered(&out)
}

/// The components that name entries.
pub open spec fn names_of(cs: Seq<Seq<char>>) -> Seq<Seq<char>>
    decreases cs.len(),
{
    if cs.len() == 0 {
        Seq::empty()
    } else if path::is_name(cs.last()) {
        names_of(cs.drop_last()).push(cs.last())
    } else {
        names_of(cs.drop_last())
    }
}

fn names_in(p: &Vec<char>) -> (r: Vec<Vec<char>>)
    ensures
        views::pieces(r@) == names_of(path::comps(p@)),
{
    let cs = path::components(p);
    let ghost all = views::pieces(cs@);
    let mut out: Vec<Vec<char>> = Vec::new();
    assert(views::pieces(out@) =~= names_of(all.take(0)));
    for i in 0..cs.len()
        invariant
            all == views::pieces(cs@),
            views::pieces(out@) == names_of(all.take(i as int)),
    {
        assert(all.take(i + 1).drop_last() =~= all.take(i as int));
        assert(all.take(i + 1).last() == cs@[i as int]@);
        if path::names(&cs[i]) {
            out.push(text::copy(&cs[i]));
        }
    }
    assert(all.take(all.len() as int) =~= all);
    out
}

/// Names walked from a position. A climb past the root and a root in the
/// middle lead nowhere.
pub open spec fn walk_names(at: Seq<Seq<char>>, cs: Seq<Seq<char>>) -> Option<Seq<Seq<char>>>
    decreases cs.len(),
{
    if cs.len() == 0 {
        Some(at)
    } else {
        match walk_names(at, cs.drop_last()) {
            None => None,
            Some(here) => if cs.last() == path::up() {
                if here.len() > 0 {
                    Some(here.drop_last())
                } else {
                    None
                }
            } else if cs.last() == path::cur() {
                Some(here)
            } else if cs.last() == path::root() {
                None
            } else {
                Some(here.push(cs.last()))
            },
        }
    }
}

/// Names walked from a position, where a climb past the root stays there.
pub open spec fn walk_names_on(at: Seq<Seq<char>>, cs: Seq<Seq<char>>) -> Seq<Seq<char>>
    decreases cs.len(),
{
    if cs.len() == 0 {
        at
    } else {
        let here = walk_names_on(at, cs.drop_last());
        if cs.last() == path::up() {
            if here.len() > 0 {
                here.drop_last()
            } else {
                here
            }
        } else if path::is_name(cs.last()) {
            here.push(cs.last())
        } else {
            here
        }
    }
}

/// The absolute path of names.
pub open spec fn from_root(names: Seq<Seq<char>>) -> Seq<char> {
    path::render(seq![path::root()] + names)
}

fn from_root_of(names: &Vec<Vec<char>>) -> (r: Vec<char>)
    ensures
        r@ == from_root(views::pieces(names@)),
{
    let ghost all = views::pieces(names@);
    let mut cs: Vec<Vec<char>> = Vec::new();
    cs.push(path::root_text());
    assert(views::pieces(cs@) =~= seq![path::root()] + all.take(0));
    for i in 0..names.len()
        invariant
            all == views::pieces(names@),
            views::pieces(cs@) == seq![path::root()] + all.take(i as int),
    {
        cs.push(text::copy(&names[i]));
        assert((seq![path::root()] + all.take(i as int)).push(names@[i as int]@)
            =~= seq![path::root()] + all.take(i + 1));
    }
    assert(all.take(all.len() as int) =~= all);
    path::rendered(&cs)
}

/// A link's target as a task can carry it: a relative one as it is, an
/// absolute one inside the project tree and present as the way to it.
pub open spec fn carried_target(
    build_dir: Seq<char>,
    link: Seq<char>,
    target: Seq<char>,
    exists: bool,
) -> Option<Seq<char>> {
    if !path::is_abs(target) {
        Some(target)
    } else if !path::one_tree(build_dir, target) || !exists {
        None
    } else {
        match path::parent(link) {
            Some(from) => Some(way(from, target)),
            None => None,
        }
    }
}

/// Where a carried target leads.
pub open spec fn target_place(
    build_dir: Seq<char>,
    link: Seq<char>,
    target: Seq<char>,
) -> Option<Seq<char>> {
    match path::below(link, build_dir) {
        Some(rel) => {
            let dir = match path::parent(rel) {
                Some(d) => d,
                None => Seq::empty(),
            };
            match walk_names(
                names_of(path::comps(path::joined(build_dir, dir))),
                path::comps(target),
            ) {
                Some(names) => Some(from_root(names)),
                None => None,
            }
        },
        None => None,
    }
}

/// A text that the encoding of links cannot hold.
pub open spec fn breaks_encoding(s: Seq<char>) -> bool {
    s.contains(' ') || s.contains('=')
}

/// The link as a task carries it: its place below the build directory and its
/// text. It has to lead into the build directory, or to something that exists
/// in the project tree.
pub open spec fn carried_link(
    build_dir: Seq<char>,
    link: Seq<char>,
    target: Option<Seq<char>>,
    target_exists: bool,
    place_exists: bool,
) -> Option<(Seq<char>, Seq<char>)> {
    match (target, path::below(link, build_dir)) {
        (Some(t), Some(l)) => match carried_target(build_dir, link, t, target_exists) {
            Some(c) => match target_place(build_dir, link, c) {
                Some(place) => if (path::under(place, build_dir) || (path::one_tree(
                    build_dir,
                    place,
                ) && place_exists)) && !breaks_encoding(l) && !breaks_encoding(c) {
                    Some((l, c))
                } else {
                    None
                },
                None => None,
            },
            None => None,
        },
        _ => None,
    }
}

fn carry_target(
    build_dir: &str,
    link: &Vec<char>,
    target: &str,
    exists: bool,
) -> (r: Option<Vec<char>>)
    ensures
        views::opt_piece(r) == carried_target(build_dir@, link@, target@, exists),
{
    let t = text::chars_of(target);
    if !path::absolute(&t) {
        return Some(t);
    }
    if !path::same_project_tree(build_dir, target) || !exists {
        return None;
    }
    match path::parent_of(link) {
        Some(from) => Some(way_to(&from, &t)),
        None => None,
    }
}

fn place_of(build_dir: &Vec<char>, link: &Vec<char>, target: &Vec<char>) -> (r: Option<Vec<char>>)
    ensures
        views::opt_piece(r) == target_place(build_dir@, link@, target@),
{
    let rel = match path::strip_base(link, build_dir) {
        Some(r) => r,
        None => {
            return None;
        },
    };
    let dir = match path::parent_of(&rel) {
        Some(d) => d,
        None => {
            let e: Vec<char> = Vec::new();
            e
        },
    };
    let base = path::join(build_dir, &dir);
    let mut at = names_in(&base);
    let cs = path::components(target);
    let ghost gc = views::pieces(cs@);
    let ghost start = views::pieces(at@);
    assert(gc.take(0) =~= Seq::<Seq<char>>::empty());
    for i in 0..cs.len()
        invariant
            gc == views::pieces(cs@),
            gc == path::comps(target@),
            path::below(link@, build_dir@) == Some(rel@),
            dir@ == match path::parent(rel@) {
                Some(d) => d,
                None => Seq::empty(),
            },
            start == names_of(path::comps(path::joined(build_dir@, dir@))),
            walk_names(start, gc.take(i as int)) == Some(views::pieces(at@)),
    {
        let ghost here = views::pieces(at@);
        proof {
            assert(gc.take(i + 1).drop_last() =~= gc.take(i as int));
            assert(gc.take(i + 1).last() == cs@[i as int]@);
            assert(here.len() == at@.len());
        }
        if path::is_up(&cs[i]) {
            if at.len() == 0 {
                proof {
                    walk_stops(start, gc, i + 1);
                }
                return None;
            }
            let ghost before = at@;
            at.pop();
            assert(at@ =~= before.drop_last());
            assert(views::pieces(at@) =~= here.drop_last());
        } else if path::is_cur(&cs[i]) {
        } else if !path::names(&cs[i]) {
            proof {
                walk_stops(start, gc, i + 1);
            }
            return None;
        } else {
            at.push(text::copy(&cs[i]));
        }
    }
    assert(gc.take(gc.len() as int) =~= gc);
    Some(from_root_of(&at))
}

/// A walk that leads nowhere after `n` components leads nowhere at all.
proof fn walk_stops(at: Seq<Seq<char>>, cs: Seq<Seq<char>>, n: int)
    requires
        0 <= n <= cs.len(),
        walk_names(at, cs.take(n)) is None,
    ensures
        walk_names(at, cs) is None,
    decreases cs.len() - n,
{
    if n == cs.len() {
        assert(cs.take(n) =~= cs);
    } else {
        assert(cs.take(n + 1).drop_last() =~= cs.take(n));
        walk_stops(at, cs, n + 1);
    }
}

/// The place that has to be looked at before a link can be carried: where its
/// target leads.
pub fn alias_target_place(
    build_dir: &str,
    link: &str,
    target: &str,
    target_exists: bool,
) -> (r: Option<String>)
    ensures
        views::opt_text(r) == match carried_target(build_dir@, link@, target@, target_exists) {
            Some(c) => target_place(build_dir@, link@, c),
            None => None,
        },
{
    let l = text::chars_of(link);
    let d = text::chars_of(build_dir);
    match carry_target(build_dir, &l, target, target_exists) {
        Some(c) => match place_of(&d, &l, &c) {
            Some(p) => Some(text::string_of(&p)),
            None => None,
        },
        None => None,
    }
}

fn encodable(s: &Vec<char>) -> (r: bool)
    ensures
        r == !breaks_encoding(s@),
{
    !text::contains_char(s, ' ') && !text::contains_char(s, '=')
}

/// The link as a task carries it, given what the link says, whether an
/// absolute target exists, and whether the place it leads to does. A dangling
/// link inside the build directory is carried: its target may be built later.
pub fn alias_symlink_entry(
    build_dir: &str,
    link: &str,
    target: Option<&str>,
    target_exists: bool,
    place_exists: bool,
) -> (r: Option<(String, String)>)
    ensures
        match r {
            Some((l, t)) => carried_link(
                build_dir@,
                link@,
                views::opt_str(target),
                target_exists,
                place_exists,
            ) == Some((l@, t@)),
            None => carried_link(
                build_dir@,
                link@,
                views::opt_str(target),
                target_exists,
                place_exists,
            ) is None,
        },
{
    let target = match target {
        Some(t) => t,
        None => {
            return None;
        },
    };
    let l = text::chars_of(link);
    let d = text::chars_of(build_dir);
    let rel = match path::strip_base(&l, &d) {
        Some(r) => r,
        None => {
            return None;
        },
    };
    let carried = match carry_target(build_dir, &l, target, target_exists) {
        Some(c) => c,
        None => {
            return None;
        },
    };
    let place = match place_of(&d, &l, &carried) {
        Some(p) => p,
        None => {
            return None;
        },
    };
    let ps = text::string_of(&place);
    let inside = path::is_under(&place, &d) || (path::same_project_tree(build_dir, ps.as_str())
        && place_exists);
    if inside && encodable(&rel) && encodable(&carried) {
        Some((text::string_of(&rel), text::string_of(&carried)))
    } else {
        None
    }
}

/// Where a link leads, as it is spelled.
pub open spec fn spelled_place(link: Seq<char>, target: Seq<char>) -> Option<Seq<char>> {
    match path::parent(link) {
        Some(d) => {
            let base = if path::is_abs(target) {
                Seq::empty()
            } else {
                names_of(path::comps(d))
            };
            Some(from_root(walk_names_on(base, path::comps(target))))
        },
        None => None,
    }
}

/// The link leads out of the build directory.
pub open spec fn climbs_out(
    build_dir: Seq<char>,
    link: Seq<char>,
    target: Option<Seq<char>>,
) -> bool {
    match target {
        Some(t) => match spelled_place(link, t) {
            Some(p) => !path::under(p, build_dir),
            None => false,
        },
        None => false,
    }
}

/// Whether a link leads out of the build directory, by its spelling alone.
pub fn alias_target_climbs_out(build_dir: &str, link: &str, target: Option<&str>) -> (r: bool)
    ensures
        r == climbs_out(build_dir@, link@, views::opt_str(target)),
{
    let target = match target {
        Some(t) => t,
        None => {
            return false;
        },
    };
    let l = text::chars_of(link);
    let t = text::chars_of(target);
    let dir = match path::parent_of(&l) {
        Some(d) => d,
        None => {
            return false;
        },
    };
    let mut at = if path::absolute(&t) {
        let e: Vec<Vec<char>> = Vec::new();
        assert(views::pieces(e@) =~= Seq::<Seq<char>>::empty());
        e
    } else {
        names_in(&dir)
    };
    let cs = path::components(&t);
    let ghost gc = views::pieces(cs@);
    let ghost start = views::pieces(at@);
    assert(gc.take(0) =~= Seq::<Seq<char>>::empty());
    for i in 0..cs.len()
        invariant
            gc == views::pieces(cs@),
            views::pieces(at@) == walk_names_on(start, gc.take(i as int)),
    {
        let ghost here = views::pieces(at@);
        proof {
            assert(gc.take(i + 1).drop_last() =~= gc.take(i as int));
            assert(gc.take(i + 1).last() == cs@[i as int]@);
            assert(here.len() == at@.len());
        }
        if path::is_up(&cs[i]) {
            if at.len() > 0 {
                let ghost before = at@;
                at.pop();
                assert(at@ =~= before.drop_last());
                assert(views::pieces(at@) =~= here.drop_last());
            }
        } else if path::names(&cs[i]) {
            at.push(text::copy(&cs[i]));
        }
    }
    assert(gc.take(gc.len() as int) =~= gc);
    let abs = from_root_of(&at);
    let d = text::chars_of(build_dir);
    !path::is_under(&abs, &d)
}

// ---------------------------------------------------------------------------
// Entries
// ---------------------------------------------------------------------------

/// What becomes of an entry of the build directory.
#[derive(Debug, PartialEq, Eq)]
pub enum BuildDirDisposition {
    /// Carried as a link: its place and its text.
    Alias(String, String),
    /// Carried as a link, and its bytes uploaded as well: it leads out of the
    /// build directory to a file.
    AliasAndUpload(String, String),
    /// A file whose bytes are uploaded.
    Upload,
    /// No input.
    Skip,
}

/// What a disposition says.
pub enum Disposition {
    Alias(Seq<char>, Seq<char>),
    AliasAndUpload(Seq<char>, Seq<char>),
    Upload,
    Skip,
}

impl View for BuildDirDisposition {
    type V = Disposition;

    open spec fn view(&self) -> Disposition {
        match self {
            BuildDirDisposition::Alias(l, t) => Disposition::Alias(l@, t@),
            BuildDirDisposition::AliasAndUpload(l, t) => Disposition::AliasAndUpload(l@, t@),
            BuildDirDisposition::Upload => Disposition::Upload,
            BuildDirDisposition::Skip => Disposition::Skip,
        }
    }
}

/// What the file system says of an entry.
#[derive(Debug, Default)]
pub struct EntryFacts {
    /// The entry is a symbolic link.
    pub is_symlink: bool,
    /// The entry itself is a regular file.
    pub is_file: bool,
    /// What the entry leads to is a regular file.
    pub leads_to_file: bool,
    /// The text of the link.
    pub target: Option<String>,
    /// What that text names exists.
    pub target_exists: bool,
    /// The place that the link leads to exists.
    pub place_exists: bool,
}

/// The disposition of an entry.
pub open spec fn disposition_of(
    build_dir: Seq<char>,
    p: Seq<char>,
    own_files: Seq<Seq<char>>,
    f: EntryFacts,
) -> Disposition {
    if f.is_symlink {
        match carried_link(
            build_dir,
            p,
            views::opt_text(f.target),
            f.target_exists,
            f.place_exists,
        ) {
            Some((l, t)) => if climbs_out(build_dir, p, views::opt_text(f.target))
                && f.leads_to_file {
                Disposition::AliasAndUpload(l, t)
            } else {
                Disposition::Alias(l, t)
            },
            None => if f.leads_to_file {
                Disposition::Upload
            } else {
                Disposition::Skip
            },
        }
    } else if f.is_file && !(path::file_name(p) matches Some(n) && own_files.contains(n)) {
        Disposition::Upload
    } else {
        Disposition::Skip
    }
}

/// The disposition of an entry at `p`. A link that cannot be carried is
/// uploaded where it leads to a file; the files in which the driver keeps its
/// own state, `own_files`, are no inputs.
pub fn build_dir_disposition(
    build_dir: &str,
    p: &str,
    own_files: &Vec<String>,
    facts: &EntryFacts,
) -> (r: BuildDirDisposition)
    ensures
        r@ == disposition_of(build_dir@, p@, views::texts(own_files@), *facts),
{
    if facts.is_symlink {
        let target = match &facts.target {
            Some(t) => Some(t.as_str()),
            None => None,
        };
        return match alias_symlink_entry(
            build_dir,
            p,
            target,
            facts.target_exists,
            facts.place_exists,
        ) {
            Some((l, t)) => if alias_target_climbs_out(build_dir, p, target)
                && facts.leads_to_file {
                BuildDirDisposition::AliasAndUpload(l, t)
            } else {
                BuildDirDisposition::Alias(l, t)
            },
            None => if facts.leads_to_file {
                BuildDirDisposition::Upload
            } else {
                BuildDirDisposition::Skip
            },
        };
    }
    let x = text::chars_of(p);
    let own = match path::name_of(&x) {
        Some(n) => {
            let s = text::string_of(&n);
            text::list_has(own_files, s.as_str())
        },
        None => false,
    };
    if facts.is_file && !own {
        BuildDirDisposition::Upload
    } else {
        BuildDirDisposition::Skip
    }
}

/// Whether an entry is walked. A directory of the build system's own state is
/// left out with everything below it.
pub fn is_walked(name: &str, is_dir: bool) -> (r: bool)
    ensures
        r == !(is_dir && "meson-"@.is_prefix_of(name@)),
{
    let n = text::chars_of(name);
    !(is_dir && text::starts_lit(&n, "meson-"))
}

// ---------------------------------------------------------------------------
// The walk
// ---------------------------------------------------------------------------

/// What a walk over the build directory has found besides files: links to
/// carry and directories that are empty.
#[derive(Debug, Default)]
pub struct BuildDirScan {
    pub alias_symlinks: Vec<(String, String)>,
    pub empty_dirs: Vec<String>,
}

/// What a scan holds.
#[verifier::ext_equal]
pub struct ScanView {
    pub links: Seq<(Seq<char>, Seq<char>)>,
    pub dirs: Seq<Seq<char>>,
}

impl View for BuildDirScan {
    type V = ScanView;

    open spec fn view(&self) -> ScanView {
        ScanView {
            links: views::pairs(self.alias_symlinks@),
            dirs: views::texts(self.empty_dirs@),
        }
    }
}

/// The place of an entry below the build directory, where it can be encoded.
pub open spec fn dir_entry(build_dir: Seq<char>, p: Seq<char>) -> Option<Seq<char>> {
    match path::below(p, build_dir) {
        Some(rel) => if rel.len() > 0 && !rel.contains(' ') {
            Some(rel)
        } else {
            None
        },
        None => None,
    }
}

/// The scan after an entry.
pub open spec fn scanned(
    s: ScanView,
    build_dir: Seq<char>,
    p: Seq<char>,
    d: Disposition,
    empty_dir: bool,
) -> ScanView {
    match d {
        Disposition::Alias(l, t) => ScanView { links: s.links.push((l, t)), ..s },
        Disposition::AliasAndUpload(l, t) => ScanView { links: s.links.push((l, t)), ..s },
        Disposition::Upload => s,
        Disposition::Skip => match dir_entry(build_dir, p) {
            Some(rel) => if empty_dir {
                ScanView { dirs: s.dirs.push(rel), ..s }
            } else {
                s
            },
            None => s,
        },
    }
}

/// The entry's bytes are uploaded: a file that no edge of the build produces,
/// or a link out of the build directory.
pub open spec fn uploads(d: Disposition, produced: bool) -> bool {
    match d {
        Disposition::AliasAndUpload(l, t) => true,
        Disposition::Upload => !produced,
        _ => false,
    }
}

impl BuildDirScan {
    /// Nothing found.
    pub fn new() -> (r: BuildDirScan)
        ensures
            r@ == (ScanView { links: Seq::empty(), dirs: Seq::empty() }),
    {
        let r = BuildDirScan { alias_symlinks: Vec::new(), empty_dirs: Vec::new() };
        assert(r@ =~= ScanView { links: Seq::empty(), dirs: Seq::empty() });
        r
    }

    /// Takes an entry in and tells whether its bytes are uploaded. `empty_dir`
    /// says that it is a directory without entries, `produced` that an edge of
    /// the build produces the file at its place.
    pub fn take(
        &mut self,
        build_dir: &str,
        p: &str,
        disposition: BuildDirDisposition,
        empty_dir: bool,
        produced: bool,
    ) -> (upload: bool)
        ensures
            final(self)@ == scanned(old(self)@, build_dir@, p@, disposition@, empty_dir),
            upload == uploads(disposition@, produced),
    {
        match disposition {
            BuildDirDisposition::Alias(l, t) => {
                self.alias_symlinks.push((l, t));
                false
            },
            BuildDirDisposition::AliasAndUpload(l, t) => {
                self.alias_symlinks.push((l, t));
                true
            },
            BuildDirDisposition::Upload => !produced,
            BuildDirDisposition::Skip => {
                let x = text::chars_of(p);
                let d = text::chars_of(build_dir);
                if let Some(rel) = path::strip_base(&x, &d) {
                    if empty_dir && rel.len() > 0 && !text::contains_char(&rel, ' ') {
                        self.empty_dirs.push(text::string_of(&rel));
                    }
                }
                false
            },
        }
    }

    /// Puts what was found in order, each once: the walk's order leaves no trace.
    pub fn finish(&mut self)
        ensures
            final(self)@ == in_order(old(self)@),
    {
        let links = sort_links(&self.alias_symlinks);
        let dirs = order::sort_string_set(&self.empty_dirs);
        self.alias_symlinks = links;
        self.empty_dirs = dirs;
    }
}

/// What was found, in order and each once.
pub open spec fn in_order(s: ScanView) -> ScanView {
    ScanView {
        links: unrow(order::sorted_set(link_rows(s.links))),
        dirs: order::sorted_text_set(s.dirs),
    }
}

/// Links as rows of two texts.
pub open spec fn link_rows(v: Seq<(Seq<char>, Seq<char>)>) -> Seq<order::Row> {
    v.map_values(|p: (Seq<char>, Seq<char>)| seq![p.0, p.1])
}

/// Rows of two texts as links.
pub open spec fn unrow(v: Seq<order::Row>) -> Seq<(Seq<char>, Seq<char>)> {
    v.map_values(|r: order::Row| (r[0], r[1]))
}

/// Links in order, each once.
fn sort_links(v: &Vec<(String, String)>) -> (r: Vec<(String, String)>)
    ensures
        views::pairs(r@) == unrow(order::sorted_set(link_rows(views::pairs(v@)))),
{
    let ghost all = link_rows(views::pairs(v@));
    let mut rows: Vec<Vec<String>> = Vec::new();
    assert(order::rows(rows@) =~= order::sorted_set(all.take(0)));
    for i in 0..v.len()
        invariant
            all == link_rows(views::pairs(v@)),
            order::rows(rows@) == order::sorted_set(all.take(i as int)),
    {
        proof {
            assert(all.take(i + 1).drop_last() =~= all.take(i as int));
            assert(all.take(i + 1).last() == all[i as int]);
        }
        let mut row: Vec<String> = Vec::new();
        row.push(v[i].0.clone());
        row.push(v[i].1.clone());
        assert(views::texts(row@) =~= all[i as int]);
        order::put_new_row(&mut rows, row);
    }
    let ghost sorted = order::sorted_set(all);
    proof {
        assert(all.take(all.len() as int) =~= all);
        order::sorted_set_is_ordered(all);
        assert forall|i: int| 0 <= i < sorted.len() implies (#[trigger] sorted[i]).len() == 2 by {
            assert(sorted.contains(sorted[i]));
            let j = choose|j: int| 0 <= j < all.len() && all[j] == sorted[i];
            assert(all[j].len() == 2);
        }
    }
    let mut out: Vec<(String, String)> = Vec::new();
    assert(views::pairs(out@) =~= unrow(sorted).take(0));
    for i in 0..rows.len()
        invariant
            order::rows(rows@) == sorted,
            forall|j: int| 0 <= j < sorted.len() ==> (#[trigger] sorted[j]).len() == 2,
            views::pairs(out@) == unrow(sorted).take(i as int),
    {
        assert(sorted[i as int] == views::texts(rows@[i as int]@));
        assert(sorted[i as int].len() == 2);
        assert(rows@[i as int]@.len() == 2);
        out.push((rows[i][0].clone(), rows[i][1].clone()));
        assert(unrow(sorted).take(i + 1) =~= unrow(sorted).take(i as int).push(
            unrow(sorted)[i as int],
        ));
    }
    assert(unrow(sorted).take(sorted.len() as int) =~= unrow(sorted));
    out
}

// ---------------------------------------------------------------------------
// Laws
// ---------------------------------------------------------------------------

/// A link that is carried leads into the build directory or stays in the
/// project tree: none leads past it.
pub proof fn carried_links_stay(
    build_dir: Seq<char>,
    link: Seq<char>,
    target: Option<Seq<char>>,
    target_exists: bool,
    place_exists: bool,
)
    ensures
        carried_link(build_dir, link, target, target_exists, place_exists) matches Some((l, t))
            ==> (target_place(build_dir, link, t) matches Some(p) && (path::under(p, build_dir)
            || path::one_tree(build_dir, p))),
{
}

/// Two walks that find the same links and directories in different orders
/// give the same scan.
pub proof fn scan_order_leaves_no_trace(
    a: Seq<(Seq<char>, Seq<char>)>,
    b: Seq<(Seq<char>, Seq<char>)>,
)
    requires
        forall|x: (Seq<char>, Seq<char>)| #[trigger] a.contains(x) <==> b.contains(x),
    ensures
        order::sorted_set(link_rows(a)) == order::sorted_set(link_rows(b)),
{
    let ra = link_rows(a);
    let rb = link_rows(b);
    order::sorted_set_is_ordered(ra);
    order::sorted_set_is_ordered(rb);
    assert forall|r: order::Row| ra.contains(r) implies rb.contains(r) by {
        let i = choose|i: int| 0 <= i < ra.len() && ra[i] == r;
        assert(a.contains(a[i]));
        assert(b.contains(a[i]));
        let j = choose|j: int| 0 <= j < b.len() && b[j] == a[i];
        assert(rb[j] == r);
    }
    assert forall|r: order::Row| rb.contains(r) implies ra.contains(r) by {
        let i = choose|i: int| 0 <= i < rb.len() && rb[i] == r;
        assert(b.contains(b[i]));
        assert(a.contains(b[i]));
        let j = choose|j: int| 0 <= j < a.len() && a[j] == b[i];
        assert(ra[j] == r);
    }
    order::ordered_sets_agree(order::sorted_set(ra), order::sorted_set(rb));
}

/// A relative link keeps its text, whatever it leads to and wherever it lies. An
/// absolute one is carried where it leads to something in the project tree, and
/// nowhere else.
pub proof fn relative_links_keep_their_text(
    build_dir: Seq<char>,
    link: Seq<char>,
    target: Seq<char>,
    exists: bool,
)
    ensures
        !(target.len() > 0 && target[0] == '/') ==> carried_target(build_dir, link, target, exists)
            == Some(target),
        target.len() > 0 && target[0] == '/' ==> (carried_target(build_dir, link, target, exists)
            is Some <==> exists && path::one_tree(build_dir, target) && path::parent(link) is Some),
{
}

/// The way between two directories leads from the one to the other.
pub proof fn ways_lead_there(from: Seq<char>, to: Seq<char>)
    requires
        path::is_abs(from),
        path::is_abs(to),
        !path::comps(from).contains(path::up()),
        !path::comps(to).contains(path::up()),
    ensures
        path::lexical(path::comps(from), path::comps(way(from, to))) == path::comps(to),
        !path::is_abs(way(from, to)),
{
    let a = path::comps(from);
    let b = path::comps(to);
    let k = common(a, b);
    path::comps_well_placed(from);
    path::comps_well_placed(to);
    common_is_shared(a, b);
    common_bounded(a, b);
    assert(a[0] == path::root() && b[0] == path::root());
    assert(k >= 1);
    let up = path::ups((a.len() - k) as nat);
    let tail = b.skip(k as int);
    let cs = up + tail;
    assert(path::up().len() == 2 && path::cur().len() == 1 && path::root().len() == 1);
    assert(path::up()[0] == '.' && path::up()[1] == '.');
    assert forall|i: int| 0 <= i < tail.len() implies path::is_name(#[trigger] tail[i]) by {
        assert(tail[i] == b[i + k]);
        assert(b.contains(b[i + k]));
    }
    assert forall|i: int| 0 <= i < cs.len() implies (#[trigger] cs[i]).len() > 0 && (cs[i]
        == path::root() || !cs[i].contains('/')) && (cs[i] == path::root() ==> i == 0) && (cs[i]
        == path::cur() ==> i == 0) by {
        if i < up.len() {
            assert(cs[i] == path::up());
        } else {
            assert(cs[i] == tail[i - up.len()]);
            assert(tail[i - up.len()] == b[i - up.len() + k]);
        }
    }
    path::comps_of_render(cs);
    let at = a.take(k as int);
    let ns = a.skip(k as int);
    assert(at + ns =~= a);
    assert forall|i: int| 0 <= i < ns.len() implies path::is_name(#[trigger] ns[i]) by {
        assert(ns[i] == a[i + k]);
        assert(a.contains(a[i + k]));
    }
    path::lexical_concat(a, up, tail);
    path::lexical_climbs(at, ns, ns.len());
    assert(at + ns.take(0) =~= at);
    path::lexical_names(at, tail);
    assert(at =~= b.take(k as int));
    assert(at + tail =~= b);
    if cs.len() > 0 {
        if up.len() > 0 {
            assert(cs[0] == path::up());
        } else {
            assert(cs[0] == tail[0]);
        }
    }
}

proof fn common_is_shared(a: Seq<Seq<char>>, b: Seq<Seq<char>>)
    ensures
        common(a, b) <= a.len(),
        common(a, b) <= b.len(),
        a.take(common(a, b) as int) == b.take(common(a, b) as int),
        a.len() > 0 && b.len() > 0 && a[0] == b[0] ==> common(a, b) >= 1,
        common(a, b) < a.len() && common(a, b) < b.len() ==> a[common(a, b) as int] != b[common(
            a,
            b,
        ) as int],
    decreases a.len(),
{
    let k = common(a, b);
    if a.len() > 0 && b.len() > 0 && a[0] == b[0] {
        let x = a.drop_first();
        let y = b.drop_first();
        common_is_shared(x, y);
        let m = common(x, y);
        assert forall|i: int| 0 <= i < k implies a.take(k as int)[i] == b.take(k as int)[i] by {
            if i > 0 {
                assert(x.take(m as int)[i - 1] == y.take(m as int)[i - 1]);
            }
        }
        assert(a.take(k as int) =~= b.take(k as int));
    } else {
        assert(a.take(0) =~= b.take(0));
    }
}

/// A link is carried where it leads into the build directory, whether or not
/// anything lies there yet; where it leads elsewhere in the project tree, only to
/// what exists; and never with a text that cannot be told.
pub proof fn links_are_carried_by_where_they_lead(
    build_dir: Seq<char>,
    link: Seq<char>,
    t: Seq<char>,
    l: Seq<char>,
    place: Seq<char>,
    target_exists: bool,
    place_exists: bool,
)
    requires
        !(t.len() > 0 && t[0] == '/'),
        path::below(link, build_dir) == Some(l),
        target_place(build_dir, link, t) == Some(place),
    ensures
        ({
            let r = carried_link(build_dir, link, Some(t), target_exists, place_exists);
            let told = !l.contains(' ') && !l.contains('=') && !t.contains(' ') && !t.contains('=');
            &&& told && path::under(place, build_dir) ==> r == Some((l, t))
            &&& told && path::one_tree(build_dir, place) && place_exists ==> r == Some((l, t))
            &&& !path::under(place, build_dir) && (!place_exists || !path::one_tree(
                build_dir,
                place,
            )) ==> r is None
            &&& !told ==> r is None
        }),
{
}

/// A file is uploaded wherever it lies, unless it is one of the tool's own by its
/// name; a directory is not.
pub proof fn files_are_uploaded(
    build_dir: Seq<char>,
    p: Seq<char>,
    own: Seq<Seq<char>>,
    f: EntryFacts,
)
    requires
        !f.is_symlink,
    ensures
        disposition_of(build_dir, p, own, f) == if f.is_file && !(path::file_name(p) is Some
            && own.contains(path::file_name(p)->0)) {
            Disposition::Upload
        } else {
            Disposition::Skip
        },
{
}

/// A link that can be carried is an alias, and is uploaded besides where it leads
/// out of the build directory to a file; one that cannot be carried is uploaded
/// where it leads to a file, whatever its name.
pub proof fn links_are_aliases_or_uploads(
    build_dir: Seq<char>,
    p: Seq<char>,
    own: Seq<Seq<char>>,
    f: EntryFacts,
)
    requires
        f.is_symlink,
    ensures
        match carried_link(
            build_dir,
            p,
            views::opt_text(f.target),
            f.target_exists,
            f.place_exists,
        ) {
            Some((l, t)) => disposition_of(build_dir, p, own, f) == if f.leads_to_file && climbs_out(
                build_dir,
                p,
                views::opt_text(f.target),
            ) {
                Disposition::AliasAndUpload(l, t)
            } else {
                Disposition::Alias(l, t)
            },
            None => disposition_of(build_dir, p, own, f) == if f.leads_to_file {
                Disposition::Upload
            } else {
                Disposition::Skip
            },
        },
{
}

/// A walk over names goes down by each of them and up by each climb; past the
/// root it leads nowhere.
pub proof fn names_are_walked(at: Seq<Seq<char>>, ns: Seq<Seq<char>>, n: nat)
    requires
        forall|i: int| 0 <= i < ns.len() ==> path::is_name(#[trigger] ns[i]),
    ensures
        walk_names(at, ns) == Some(at + ns),
        walk_names_on(at, ns) == at + ns,
        n <= at.len() ==> walk_names(at, path::ups(n)) == Some(at.take(at.len() - n)),
        n <= at.len() ==> walk_names_on(at, path::ups(n)) == at.take(at.len() - n),
        n > at.len() ==> walk_names(at, path::ups(n)) is None,
        n > at.len() ==> walk_names_on(at, path::ups(n)).len() == 0,
    decreases ns.len() + n,
{
    if ns.len() > 0 {
        let f = ns.drop_last();
        assert forall|i: int| 0 <= i < f.len() implies path::is_name(#[trigger] f[i]) by {
            assert(f[i] == ns[i]);
        }
        names_are_walked(at, f, n);
        assert(path::is_name(ns[ns.len() - 1]));
        assert((at + f).push(ns.last()) =~= at + ns);
    } else {
        assert(at + ns =~= at);
        if n > 0 {
            let m = (n - 1) as nat;
            names_are_walked(at, ns, m);
            assert(path::ups(n).drop_last() =~= path::ups(m));
            assert(path::ups(n).last() == path::up());
            if n <= at.len() {
                assert(at.take(at.len() - m).drop_last() =~= at.take(at.len() - n));
            } else if m == at.len() {
                assert(at.take(0).len() == 0);
            }
        } else {
            assert(path::ups(0) =~= Seq::<Seq<char>>::empty());
            assert(at.take(at.len() as int) =~= at);
        }
    }
}

/// Links lead out of the build directory by where they are spelled to lead; one
/// that cannot be read does not.
pub proof fn links_out_lead_elsewhere(build_dir: Seq<char>, link: Seq<char>, t: Seq<char>)
    ensures
        !climbs_out(build_dir, link, None),
        spelled_place(link, t) matches Some(p) ==> climbs_out(build_dir, link, Some(t))
            == !path::under(p, build_dir),
        path::parent(link) is Some && !(t.len() > 0 && t[0] == '/') ==> spelled_place(link, t)
            == Some(
            from_root(
                walk_names_on(names_of(path::comps(path::parent(link)->0)), path::comps(t)),
            ),
        ),
        path::parent(link) is Some && t.len() > 0 && t[0] == '/' ==> spelled_place(link, t) == Some(
            from_root(walk_names_on(Seq::empty(), path::comps(t))),
        ),
{
}

/// An entry adds at most one thing to a scan, behind what is there: a link its
/// place and its text, an empty directory its place.
pub proof fn scans_grow(
    s: ScanView,
    build_dir: Seq<char>,
    p: Seq<char>,
    l: Seq<char>,
    t: Seq<char>,
    rel: Seq<char>,
    empty_dir: bool,
)
    ensures
        scanned(s, build_dir, p, Disposition::Alias(l, t), empty_dir).links == s.links.push((l, t)),
        scanned(s, build_dir, p, Disposition::AliasAndUpload(l, t), empty_dir).links
            == s.links.push((l, t)),
        scanned(s, build_dir, p, Disposition::Alias(l, t), empty_dir).dirs == s.dirs,
        scanned(s, build_dir, p, Disposition::AliasAndUpload(l, t), empty_dir).dirs == s.dirs,
        scanned(s, build_dir, p, Disposition::Upload, empty_dir) == s,
        scanned(s, build_dir, p, Disposition::Skip, false) == s,
        path::below(p, build_dir) == Some(rel) && rel.len() > 0 && !rel.contains(' ') ==> scanned(
            s,
            build_dir,
            p,
            Disposition::Skip,
            true,
        ) == (ScanView { links: s.links, dirs: s.dirs.push(rel) }),
{
}

/// A file is uploaded unless the build makes it; a link out of the build directory
/// is uploaded whatever makes it.
pub proof fn made_files_are_not_uploaded(l: Seq<char>, t: Seq<char>, produced: bool)
    ensures
        uploads(Disposition::Upload, produced) == !produced,
        uploads(Disposition::AliasAndUpload(l, t), produced),
        !uploads(Disposition::Alias(l, t), produced),
        !uploads(Disposition::Skip, produced),
{
}

/// Putting a scan in order drops nothing and adds nothing.
pub proof fn order_drops_nothing(s: ScanView, link: (Seq<char>, Seq<char>), dir: Seq<char>)
    ensures
        in_order(s).links.contains(link) <==> s.links.contains(link),
        in_order(s).dirs.contains(dir) <==> s.dirs.contains(dir),
{
    order::text_set_holds(s.dirs, dir);
    let rs = link_rows(s.links);
    let out = order::sorted_set(rs);
    order::sorted_set_is_ordered(rs);
    let r = seq![link.0, link.1];
    if s.links.contains(link) {
        let i = choose|i: int| 0 <= i < s.links.len() && s.links[i] == link;
        assert(rs[i] == r);
        assert(rs.contains(r));
        assert(out.contains(r));
        let k = choose|k: int| 0 <= k < out.len() && out[k] == r;
        assert(unrow(out)[k] == link);
    }
    if unrow(out).contains(link) {
        let k = choose|k: int| 0 <= k < unrow(out).len() && unrow(out)[k] == link;
        assert(out.contains(out[k]));
        let i = choose|i: int| 0 <= i < rs.len() && rs[i] == out[k];
        assert(rs[i] == seq![s.links[i].0, s.links[i].1]);
        assert(s.links[i] == link);
    }
}

} // verus!
