//! What a task produces: its declared outputs, and the files and directory
//! trees that its command is known to write besides.
use crate::path;
use crate::text;
use crate::text::Class;
use crate::views;
use vstd::prelude::*;

verus! {

broadcast use {views::texts_push, views::pieces_push};

/// The directory that an output of an automatic generator fills.
pub open spec fn autogen_dir(o: Seq<char>) -> Option<Seq<char>> {
    match path::parent(o) {
        Some(d) => {
            let file = path::file_name(o);
            if (file == Some("mocs_compilation.cpp"@) || file == Some("timestamp"@)) && (
            path::file_name(d) matches Some(n) && "_autogen"@.is_suffix_of(n)) {
                Some(d)
            } else {
                None
            }
        },
        None => None,
    }
}

/// The directories that automatic generators fill, each once.
pub open spec fn autogen_dirs(outs: Seq<Seq<char>>) -> Seq<Seq<char>>
    decreases outs.len(),
{
    if outs.len() == 0 {
        Seq::empty()
    } else {
        match autogen_dir(outs.last()) {
            Some(d) => path::with_path(autogen_dirs(outs.drop_last()), d),
            None => autogen_dirs(outs.drop_last()),
        }
    }
}

/// Every output lies directly in the directory.
pub open spec fn all_directly_in(outs: Seq<Seq<char>>, d: Seq<char>) -> bool {
    forall|i: int|
        0 <= i < outs.len() ==> (path::parent(#[trigger] outs[i]) matches Some(p)
            && path::same_path(p, d))
}

/// The one directory that an automatic generator fills, where the outputs show
/// exactly one and every output lies directly in it.
pub open spec fn autogen_root(outs: Seq<Seq<char>>) -> Option<Seq<char>> {
    match only(autogen_dirs(outs)) {
        Some(d) => if all_directly_in(outs, d) {
            Some(d)
        } else {
            None
        },
        None => None,
    }
}

/// The only element of a list.
pub open spec fn only(ps: Seq<Seq<char>>) -> Option<Seq<char>> {
    if ps.len() == 1 {
        Some(ps[0])
    } else {
        None
    }
}

fn autogen_dir_of(o: &str) -> (r: Option<Vec<char>>)
    ensures
        views::opt_piece(r) == autogen_dir(o@),
{
    let x = text::chars_of(o);
    match path::parent_of(&x) {
        Some(d) => {
            let named = match path::name_of(&x) {
                Some(n) => text::is_lit(&n, "mocs_compilation.cpp") || text::is_lit(
                    &n,
                    "timestamp",
                ),
                None => false,
            };
            let generated = match path::name_of(&d) {
                Some(n) => text::ends_lit(&n, "_autogen"),
                None => false,
            };
            if named && generated {
                Some(d)
            } else {
                None
            }
        },
        None => None,
    }
}

fn directly_in(outputs: &Vec<String>, d: &str) -> (r: bool)
    ensures
        r == all_directly_in(views::texts(outputs@), d@),
{
    let ghost all = views::texts(outputs@);
    for i in 0..outputs.len()
        invariant
            all == views::texts(outputs@),
            forall|j: int|
                0 <= j < i ==> (path::parent(#[trigger] all[j]) matches Some(p)
                    && path::same_path(p, d@)),
    {
        assert(all[i as int] == outputs@[i as int]@);
        let x = text::chars_of(outputs[i].as_str());
        let here = match path::parent_of(&x) {
            Some(p) => path::eq_path(text::string_of(&p).as_str(), d),
            None => false,
        };
        if !here {
            return false;
        }
    }
    true
}

/// The one directory that an automatic generator fills, where the outputs
/// show exactly one and every output lies directly in it.
pub fn autogen_include_root(outputs: &Vec<String>) -> (r: Option<String>)
    ensures
        views::opt_text(r) == autogen_root(views::texts(outputs@)),
{
    let ghost all = views::texts(outputs@);
    let mut roots: Vec<String> = Vec::new();
    assert(views::texts(roots@) =~= autogen_dirs(all.take(0)));
    for i in 0..outputs.len()
        invariant
            all == views::texts(outputs@),
            views::texts(roots@) == autogen_dirs(all.take(i as int)),
    {
        assert(all.take(i + 1).drop_last() =~= all.take(i as int));
        assert(all.take(i + 1).last() == outputs@[i as int]@);
        if let Some(d) = autogen_dir_of(outputs[i].as_str()) {
            path::add_path(&mut roots, text::string_of(&d));
        }
    }
    assert(all.take(all.len() as int) =~= all);
    assert(views::texts(roots@).len() == roots@.len());
    if roots.len() == 1 && directly_in(outputs, roots[0].as_str()) {
        Some(roots[0].clone())
    } else {
        None
    }
}

/// The module tree right below `include` that an output lies in.
pub open spec fn module_tree(o: Seq<char>) -> Option<Seq<char>> {
    let cs = path::comps(o);
    if cs.len() >= 2 && cs[0] == "include"@ {
        Some(path::joined("include"@, cs[1]))
    } else {
        None
    }
}

/// The module trees of the outputs, each once.
pub open spec fn module_trees(outs: Seq<Seq<char>>) -> Seq<Seq<char>>
    decreases outs.len(),
{
    if outs.len() == 0 {
        Seq::empty()
    } else {
        match module_tree(outs.last()) {
            Some(d) => path::with_path(module_trees(outs.drop_last()), d),
            None => module_trees(outs.drop_last()),
        }
    }
}

/// Some output has no component at all.
pub open spec fn has_empty(outs: Seq<Seq<char>>) -> bool {
    exists|i: int| 0 <= i < outs.len() && path::comps(#[trigger] outs[i]).len() == 0
}

/// Some output lies in the tree.
pub open spec fn some_under(outs: Seq<Seq<char>>, d: Seq<char>) -> bool {
    exists|i: int| 0 <= i < outs.len() && path::under(#[trigger] outs[i], d)
}

/// The directory tree that the outputs belong to: the one that a generator
/// fills, or the one module tree of headers.
pub open spec fn tree_root(outs: Seq<Seq<char>>) -> Option<Seq<char>> {
    match autogen_root(outs) {
        Some(d) => Some(d),
        None => if has_empty(outs) {
            None
        } else {
            match only(module_trees(outs)) {
                Some(d) => if some_under(outs, d) {
                    Some(d)
                } else {
                    None
                },
                None => None,
            }
        },
    }
}

fn module_tree_of(o: &str) -> (r: (bool, Option<String>))
    ensures
        r.0 == (path::comps(o@).len() == 0),
        views::opt_text(r.1) == module_tree(o@),
{
    let x = text::chars_of(o);
    let cs = path::components(&x);
    assert(path::comps(o@).len() == cs@.len());
    if cs.len() >= 2 {
        assert(path::comps(o@)[0] == cs@[0]@ && path::comps(o@)[1] == cs@[1]@);
        if text::is_lit(&cs[0], "include") {
            let base = text::chars_of("include");
            let d = path::join(&base, &cs[1]);
            return (false, Some(text::string_of(&d)));
        }
    }
    (cs.len() == 0, None)
}

/// The directory tree that the outputs belong to, where they show exactly one.
/// Two trees are no root: guessing between them would claim a directory that
/// the command does not own.
pub fn common_include_root(outputs: &Vec<String>) -> (r: Option<String>)
    ensures
        views::opt_text(r) == tree_root(views::texts(outputs@)),
{
    if let Some(r) = autogen_include_root(outputs) {
        return Some(r);
    }
    let ghost all = views::texts(outputs@);
    let mut roots: Vec<String> = Vec::new();
    assert(views::texts(roots@) =~= module_trees(all.take(0)));
    for i in 0..outputs.len()
        invariant
            all == views::texts(outputs@),
            autogen_root(all) is None,
            views::texts(roots@) == module_trees(all.take(i as int)),
            forall|j: int| 0 <= j < i ==> path::comps(#[trigger] all[j]).len() != 0,
    {
        assert(all.take(i + 1).drop_last() =~= all.take(i as int));
        assert(all.take(i + 1).last() == outputs@[i as int]@);
        let (empty, tree) = module_tree_of(outputs[i].as_str());
        if empty {
            assert(path::comps(all[i as int]).len() == 0);
            assert(has_empty(all));
            return None;
        }
        if let Some(d) = tree {
            path::add_path(&mut roots, d);
        }
    }
    assert(all.take(all.len() as int) =~= all);
    assert(!has_empty(all));
    assert(views::texts(roots@).len() == roots@.len());
    if roots.len() != 1 {
        return None;
    }
    assert(views::texts(roots@)[0] == roots@[0]@);
    let d = text::chars_of(roots[0].as_str());
    for i in 0..outputs.len()
        invariant
            all == views::texts(outputs@),
            autogen_root(all) is None,
            !has_empty(all),
            roots@.len() == 1,
            only(module_trees(all)) == Some(d@),
            d@ == roots@[0]@,
            forall|j: int| 0 <= j < i ==> !path::under(#[trigger] all[j], d@),
    {
        let o = text::chars_of(outputs[i].as_str());
        if path::is_under(&o, &d) {
            assert(path::under(all[i as int], d@));
            return Some(roots[0].clone());
        }
    }
    None
}

/// The directory in which cmake keeps what belongs to a generator's directory.
pub open spec fn cache_dir(outs: Seq<Seq<char>>) -> Option<Seq<char>> {
    match autogen_root(outs) {
        Some(root) => match (path::file_name(root), path::parent(root)) {
            (Some(n), Some(d)) => Some(
                path::joined(path::joined(d, "CMakeFiles"@), n + ".dir"@),
            ),
            _ => None,
        },
        None => None,
    }
}

/// The directory in which cmake keeps what belongs to a generator's directory.
pub fn autogen_cache_dir(outputs: &Vec<String>) -> (r: Option<String>)
    ensures
        views::opt_text(r) == cache_dir(views::texts(outputs@)),
{
    match autogen_include_root(outputs) {
        Some(root) => {
            let x = text::chars_of(root.as_str());
            match (path::name_of(&x), path::parent_of(&x)) {
                (Some(n), Some(d)) => {
                    let c = text::chars_of("CMakeFiles");
                    let base = path::join(&d, &c);
                    let mut leaf = n;
                    text::append_str(&mut leaf, ".dir");
                    let p = path::join(&base, &leaf);
                    Some(text::string_of(&p))
                },
                _ => None,
            }
        },
        None => None,
    }
}

/// A path more, where there is one and the list does not have it.
pub open spec fn with_some(ps: Seq<Seq<char>>, p: Option<Seq<char>>) -> Seq<Seq<char>> {
    match p {
        Some(q) => path::with_path(ps, q),
        None => ps,
    }
}

/// The directory trees that the outputs belong to.
pub open spec fn trees_of(outs: Seq<Seq<char>>) -> Seq<Seq<char>> {
    with_some(with_some(Seq::empty(), tree_root(outs)), cache_dir(outs))
}

/// The directory trees that a command fills without declaring them.
pub fn undeclared_trees(outputs: &Vec<String>) -> (r: Vec<String>)
    ensures
        views::texts(r@) == trees_of(views::texts(outputs@)),
{
    let mut v: Vec<String> = Vec::new();
    assert(views::texts(v@) =~= Seq::<Seq<char>>::empty());
    if let Some(d) = common_include_root(outputs) {
        path::add_path(&mut v, d);
    }
    if let Some(d) = autogen_cache_dir(outputs) {
        path::add_path(&mut v, d);
    }
    v
}

// ---------------------------------------------------------------------------
// Commands that write more than they declare
// ---------------------------------------------------------------------------

/// The value of the first word with a given start.
pub open spec fn first_value(ws: Seq<Seq<char>>, key: Seq<char>) -> Option<Seq<char>>
    decreases ws.len(),
{
    if ws.len() == 0 {
        None
    } else {
        match text::without_prefix(ws[0], key) {
            Some(v) => Some(v),
            None => first_value(ws.drop_first(), key),
        }
    }
}

/// The file that says where a package's link description goes.
pub open spec fn prl_meta(cmd: Seq<char>, build_dir: Seq<char>) -> Option<Seq<char>> {
    if text::has(cmd, "QtFinishPrlFile.cmake"@) {
        match first_value(text::words(cmd), "-DIN_META_FILE="@) {
            Some(m) => Some(path::joined(build_dir, text::trim(m, Class::Only('"')))),
            None => None,
        }
    } else {
        None
    }
}

/// The file to read for where a package's link description goes, for a command that writes one.
pub fn prl_meta_file(cmdline: &str, build_dir: &str) -> (r: Option<String>)
    ensures
        views::opt_text(r) == prl_meta(cmdline@, build_dir@),
{
    let c = text::chars_of(cmdline);
    if !text::contains_lit(&c, "QtFinishPrlFile.cmake") {
        return None;
    }
    let ws = text::words_of(&c);
    let ghost all = views::pieces(ws@);
    assert(all.skip(0) =~= all);
    for i in 0..ws.len()
        invariant
            all == views::pieces(ws@),
            all == text::words(cmdline@),
            text::has(cmdline@, "QtFinishPrlFile.cmake"@),
            first_value(all, "-DIN_META_FILE="@) == first_value(
                all.skip(i as int),
                "-DIN_META_FILE="@,
            ),
    {
        assert(all.skip(i as int)[0] == ws@[i as int]@);
        assert(all.skip(i as int).drop_first() =~= all.skip(i + 1));
        if let Some(m) = text::strip_lit(&ws[i], "-DIN_META_FILE=") {
            let meta = text::trimmed(&m, Class::Only('"'));
            let d = text::chars_of(build_dir);
            let p = path::join(&d, &meta);
            return Some(text::string_of(&p));
        }
    }
    None
}

/// A path as seen from the build directory, or as it is where that has no spelling.
pub open spec fn seen_from(p: Seq<char>, build_dir: Seq<char>) -> Seq<char> {
    match path::relative(p, build_dir) {
        Some(r) => r,
        None => p,
    }
}

fn see_from(p: &str, build_dir: &str) -> (r: String)
    ensures
        r@ == seen_from(p@, build_dir@),
{
    match path::relative_from(p, build_dir) {
        Some(r) => r,
        None => {
            let c = text::chars_of(p);
            text::string_of(&c)
        },
    }
}

/// The link descriptions that the lines of a record name, added to a list.
pub open spec fn with_prl(
    ps: Seq<Seq<char>>,
    ls: Seq<Seq<char>>,
    build_dir: Seq<char>,
) -> Seq<Seq<char>>
    decreases ls.len(),
{
    if ls.len() == 0 {
        ps
    } else {
        let front = with_prl(ps, ls.drop_last(), build_dir);
        match text::without_prefix(ls.last(), "FINAL_PRL_FILE_PATH = "@) {
            Some(p) => path::with_path(front, seen_from(text::trim(p, Class::Space), build_dir)),
            None => front,
        }
    }
}

/// The directory that the command enters first, or the build directory.
pub open spec fn working_dir(ws: Seq<Seq<char>>, build_dir: Seq<char>) -> Seq<char> {
    if ws.len() >= 3 && ws[0] == "cd"@ && ws[2] == "&&"@ {
        text::trim(ws[1], Class::Only('"'))
    } else {
        build_dir
    }
}

/// Where the link of a `create_symlink` goes, as seen from the build directory.
pub open spec fn link_place(
    ws: Seq<Seq<char>>,
    link: Seq<char>,
    build_dir: Seq<char>,
) -> Seq<char> {
    match path::relative(path::joined(working_dir(ws, build_dir), link), build_dir) {
        Some(r) => r,
        None => link,
    }
}

/// The links that the first `n` words create, added to a list. The words are
/// `-E create_symlink`, the target and the link.
pub open spec fn with_links(
    ps: Seq<Seq<char>>,
    ws: Seq<Seq<char>>,
    build_dir: Seq<char>,
    n: nat,
) -> Seq<Seq<char>>
    decreases n,
{
    if n == 0 {
        ps
    } else {
        let i = n - 1;
        let front = with_links(ps, ws, build_dir, (n - 1) as nat);
        if i + 3 < ws.len() && ws[i] == "-E"@ && ws[i + 1] == "create_symlink"@ {
            path::with_path(
                front,
                link_place(ws, text::trim(ws[i + 3], Class::Only('"')), build_dir),
            )
        } else {
            front
        }
    }
}

/// What a command writes besides its declared outputs.
pub open spec fn undeclared(
    outs: Seq<Seq<char>>,
    cmd: Option<Seq<char>>,
    build_dir: Seq<char>,
    meta: Option<Seq<char>>,
) -> Seq<Seq<char>> {
    let trees = trees_of(outs);
    match cmd {
        Some(c) => {
            let prl = match (prl_meta(c, build_dir), meta) {
                (Some(m), Some(t)) => with_prl(trees, text::lines(t), build_dir),
                _ => trees,
            };
            with_links(prl, text::words(c), build_dir, text::words(c).len())
        },
        None => trees,
    }
}

/// What a command writes besides its declared outputs: directory trees, the
/// link description of a package whose record `meta` gives where there is one,
/// and the links that it creates.
pub fn undeclared_outputs(
    declared: &Vec<String>,
    cmdline: Option<&str>,
    build_dir: &str,
    meta: Option<&str>,
) -> (r: Vec<String>)
    ensures
        views::texts(r@) == undeclared(
            views::texts(declared@),
            views::opt_str(cmdline),
            build_dir@,
            views::opt_str(meta),
        ),
{
    let mut v = undeclared_trees(declared);
    let c = match cmdline {
        Some(c) => c,
        None => {
            return v;
        },
    };
    let ghost trees = views::texts(v@);
    if prl_meta_file(c, build_dir).is_some() {
        if let Some(t) = meta {
            let tc = text::chars_of(t);
            let ls = text::lines_of(&tc);
            let ghost all = views::pieces(ls@);
            assert(all.take(0) =~= Seq::<Seq<char>>::empty());
            for i in 0..ls.len()
                invariant
                    all == views::pieces(ls@),
                    views::texts(v@) == with_prl(trees, all.take(i as int), build_dir@),
            {
                assert(all.take(i + 1).drop_last() =~= all.take(i as int));
                assert(all.take(i + 1).last() == ls@[i as int]@);
                if let Some(p) = text::strip_lit(&ls[i], "FINAL_PRL_FILE_PATH = ") {
                    let q = text::trimmed(&p, Class::Space);
                    let qs = text::string_of(&q);
                    path::add_path(&mut v, see_from(qs.as_str(), build_dir));
                }
            }
            assert(all.take(all.len() as int) =~= all);
        }
    }
    let ghost prl = views::texts(v@);
    let ws = text::words_of_str(c);
    let ghost all = views::pieces(ws@);
    assert(all.len() == ws@.len());
    let base = if ws.len() >= 3 && text::is_lit(&ws[0], "cd") && text::is_lit(&ws[2], "&&") {
        text::trimmed(&ws[1], Class::Only('"'))
    } else {
        text::chars_of(build_dir)
    };
    assert(ws@.len() >= 3 ==> all[0] == ws@[0]@ && all[1] == ws@[1]@ && all[2] == ws@[2]@);
    assert(base@ == working_dir(all, build_dir@));
    for i in 0..ws.len()
        invariant
            all == views::pieces(ws@),
            all.len() == ws@.len(),
            base@ == working_dir(all, build_dir@),
            views::texts(v@) == with_links(prl, all, build_dir@, i as nat),
    {
        if ws.len() > 3 && i < ws.len() - 3 && text::is_lit(&ws[i], "-E") && text::is_lit(
            &ws[i + 1],
            "create_symlink",
        ) {
            assert(all[i as int] == ws@[i as int]@ && all[i + 1] == ws@[i + 1]@ && all[i + 3]
                == ws@[i + 3]@);
            let link = text::trimmed(&ws[i + 3], Class::Only('"'));
            let abs = path::join(&base, &link);
            let abs_s = text::string_of(&abs);
            let place = match path::relative_from(abs_s.as_str(), build_dir) {
                Some(r) => r,
                None => text::string_of(&link),
            };
            path::add_path(&mut v, place);
        } else {
            assert(i + 3 < all.len() ==> all[i as int] == ws@[i as int]@ && all[i + 1] == ws@[i
                + 1]@);
        }
    }
    v
}

// ---------------------------------------------------------------------------
// The outputs of a task
// ---------------------------------------------------------------------------

/// Where a task keeps the log of its command.
pub open spec fn log_path(outs: Seq<Seq<char>>) -> Seq<char> {
    if outs.len() > 0 {
        outs[0] + ".nn-verbose-log"@
    } else {
        "nn-verbose-log"@
    }
}

/// Where a task keeps the log of its command: beside its first output.
pub fn verbose_log_path(outputs: &Vec<String>) -> (r: String)
    ensures
        r@ == log_path(views::texts(outputs@)),
{
    if outputs.len() > 0 {
        let mut v = text::chars_of(outputs[0].as_str());
        text::append_str(&mut v, ".nn-verbose-log");
        text::string_of(&v)
    } else {
        let v = text::chars_of("nn-verbose-log");
        text::string_of(&v)
    }
}

/// Paths added to a list one after the other, each that is not there yet.
pub open spec fn with_paths(ps: Seq<Seq<char>>, more: Seq<Seq<char>>) -> Seq<Seq<char>>
    decreases more.len(),
{
    if more.len() == 0 {
        ps
    } else {
        path::with_path(with_paths(ps, more.drop_last()), more.last())
    }
}

/// Adds paths that are not there yet.
pub fn add_paths(v: &mut Vec<String>, more: &Vec<String>)
    ensures
        views::texts(final(v)@) == with_paths(views::texts(old(v)@), views::texts(more@)),
{
    let ghost before = views::texts(v@);
    let ghost all = views::texts(more@);
    assert(all.take(0) =~= Seq::<Seq<char>>::empty());
    for i in 0..more.len()
        invariant
            all == views::texts(more@),
            views::texts(v@) == with_paths(before, all.take(i as int)),
    {
        assert(all.take(i + 1).drop_last() =~= all.take(i as int));
        assert(all.take(i + 1).last() == more@[i as int]@);
        path::add_path(v, more[i].clone());
    }
    assert(all.take(all.len() as int) =~= all);
}

/// The list with a path more, where there is one.
pub open spec fn with_last(ps: Seq<Seq<char>>, p: Option<Seq<char>>) -> Seq<Seq<char>> {
    match p {
        Some(q) => ps.push(q),
        None => ps,
    }
}

/// Every output of a task's derivation: the declared ones, what the command
/// writes besides, its dependency file and its log.
pub open spec fn derivation_outputs(
    outs: Seq<Seq<char>>,
    more: Seq<Seq<char>>,
    depfile: Option<Seq<char>>,
    verbose: bool,
) -> Seq<Seq<char>> {
    let all = with_last(with_paths(path::first_paths(outs), more), depfile);
    if verbose {
        all.push(log_path(outs))
    } else {
        all
    }
}

/// Every output of a task's derivation, in the order in which they are encoded.
pub fn task_output_paths(
    outputs: &Vec<String>,
    more: &Vec<String>,
    depfile: Option<&str>,
    verbose: bool,
) -> (r: Vec<String>)
    ensures
        views::texts(r@) == derivation_outputs(
            views::texts(outputs@),
            views::texts(more@),
            views::opt_str(depfile),
            verbose,
        ),
{
    let mut v = path::dedup_paths(outputs);
    add_paths(&mut v, more);
    if let Some(d) = depfile {
        let c = text::chars_of(d);
        v.push(text::string_of(&c));
    }
    if verbose {
        v.push(verbose_log_path(outputs));
    }
    v
}

// ---------------------------------------------------------------------------
// Laws
// ---------------------------------------------------------------------------

/// A path more is added behind the others where none of them is it under another
/// spelling; either way it is listed, and what was listed stays.
proof fn added_path_is_listed(ps: Seq<Seq<char>>, p: Seq<char>)
    ensures
        ps.is_prefix_of(path::with_path(ps, p)),
        path::listed(path::with_path(ps, p), p),
        forall|q: Seq<char>| #[trigger]
            path::listed(path::with_path(ps, p), q) <==> path::listed(ps, q) || path::same_path(
                p,
                q,
            ),
{
    let r = path::with_path(ps, p);
    if !path::listed(ps, p) {
        assert(r[ps.len() as int] == p);
    }
    assert forall|q: Seq<char>| #[trigger] path::listed(r, q) <==> path::listed(ps, q)
        || path::same_path(p, q) by {
        if path::listed(r, q) {
            let i = choose|i: int| 0 <= i < r.len() && path::same_path(#[trigger] r[i], q);
            if i < ps.len() {
                assert(path::same_path(ps[i], q));
            }
        }
        if path::listed(ps, q) {
            let i = choose|i: int| 0 <= i < ps.len() && path::same_path(#[trigger] ps[i], q);
            assert(path::same_path(r[i], q));
        }
        if path::same_path(p, q) {
            let i = choose|i: int| 0 <= i < r.len() && path::same_path(#[trigger] r[i], p);
            assert(path::same_path(r[i], q));
        }
    }
}

/// A generator's directory is told by one of its two files in it and by its name
/// alone, wherever it lies.
pub proof fn generators_are_told_by_their_files(o: Seq<char>, d: Seq<char>)
    ensures
        autogen_dir(o) == Some(d) <==> path::parent(o) == Some(d) && (path::file_name(o) == Some(
            "mocs_compilation.cpp"@,
        ) || path::file_name(o) == Some("timestamp"@)) && path::file_name(d) is Some
            && path::file_name(d)->0.len() >= 8 && path::file_name(d)->0.skip(
            path::file_name(d)->0.len() - 8,
        ) == "_autogen"@,
{
    reveal_strlit("_autogen");
    if path::file_name(d) is Some {
        let n = path::file_name(d)->0;
        if n.len() >= 8 {
            assert(n.skip(n.len() - 8) =~= n.subrange(n.len() - 8, n.len() as int));
        }
    }
}

proof fn generators_are_listed(outs: Seq<Seq<char>>)
    ensures
        forall|d: Seq<char>| #[trigger]
            path::listed(autogen_dirs(outs), d) <==> exists|i: int|
                0 <= i < outs.len() && (autogen_dir(#[trigger] outs[i]) matches Some(e)
                    && path::same_path(e, d)),
        forall|i: int, j: int|
            0 <= i < j < autogen_dirs(outs).len() ==> !path::same_path(
                #[trigger] autogen_dirs(outs)[i],
                #[trigger] autogen_dirs(outs)[j],
            ),
    decreases outs.len(),
{
    if outs.len() > 0 {
        let front = outs.drop_last();
        let n = outs.len() - 1;
        generators_are_listed(front);
        let a = autogen_dirs(front);
        let b = autogen_dirs(outs);
        if autogen_dir(outs.last()) is Some {
            added_path_is_listed(a, autogen_dir(outs.last())->0);
        }
        assert forall|d: Seq<char>| #[trigger] path::listed(b, d) <==> exists|i: int|
            0 <= i < outs.len() && (autogen_dir(#[trigger] outs[i]) matches Some(e)
                && path::same_path(e, d)) by {
            if exists|i: int|
                0 <= i < outs.len() && (autogen_dir(#[trigger] outs[i]) matches Some(e)
                    && path::same_path(e, d)) {
                let i = choose|i: int|
                    0 <= i < outs.len() && (autogen_dir(#[trigger] outs[i]) matches Some(e)
                        && path::same_path(e, d));
                if i < n {
                    assert(front[i] == outs[i]);
                    assert(path::listed(a, d));
                }
            }
            if path::listed(b, d) {
                if path::listed(a, d) {
                    let i = choose|i: int|
                        0 <= i < front.len() && (autogen_dir(#[trigger] front[i]) matches Some(e)
                            && path::same_path(e, d));
                    assert(outs[i] == front[i]);
                } else {
                    assert(autogen_dir(outs[n]) is Some);
                }
            }
        }
        assert forall|i: int, j: int| 0 <= i < j < b.len() implies !path::same_path(
            #[trigger] b[i],
            #[trigger] b[j],
        ) by {
            if j == a.len() {
                if path::same_path(b[i], b[j]) {
                    assert(a[i] == b[i]);
                    assert(path::listed(a, b[j]));
                }
            } else {
                assert(a[i] == b[i] && a[j] == b[j]);
            }
        }
    }
}

/// Where one output shows a generator's directory and all outputs lie directly in
/// it, that directory is the root; an output anywhere else leaves none.
pub proof fn generators_fill_one_directory(outs: Seq<Seq<char>>, i: int)
    requires
        0 <= i < outs.len(),
        autogen_dir(outs[i]) is Some,
    ensures
        (forall|j: int|
            0 <= j < outs.len() ==> (path::parent(#[trigger] outs[j]) matches Some(p)
                && path::comps(p) == path::comps(autogen_dir(outs[i])->0))) ==> autogen_root(outs)
            is Some && path::comps(autogen_root(outs)->0) == path::comps(autogen_dir(outs[i])->0),
        (exists|j: int|
            0 <= j < outs.len() && (path::parent(#[trigger] outs[j]) matches Some(p) ==> path::comps(
                p,
            ) != path::comps(autogen_dir(outs[i])->0))) ==> autogen_root(outs) is None,
{
    let d = autogen_dir(outs[i])->0;
    let ds = autogen_dirs(outs);
    generators_are_listed(outs);
    assert(path::same_path(d, d));
    assert(path::listed(ds, d));
    if forall|j: int|
        0 <= j < outs.len() ==> (path::parent(#[trigger] outs[j]) matches Some(p) && path::comps(p)
            == path::comps(d)) {
        assert forall|k: int| 0 <= k < ds.len() implies path::comps(#[trigger] ds[k])
            == path::comps(d) by {
            assert(path::same_path(ds[k], ds[k]));
            assert(path::listed(ds, ds[k]));
            let j = choose|j: int|
                0 <= j < outs.len() && (autogen_dir(#[trigger] outs[j]) matches Some(e)
                    && path::same_path(e, ds[k]));
            assert(path::parent(outs[j]) == autogen_dir(outs[j]));
        }
        if ds.len() >= 2 {
            assert(path::comps(ds[0]) == path::comps(ds[1]));
            assert(!path::same_path(ds[0], ds[1]));
        }
        assert(ds.len() == 1);
        assert forall|j: int| 0 <= j < outs.len() implies (path::parent(
            #[trigger] outs[j],
        ) matches Some(p) && path::same_path(p, ds[0])) by {}
    }
    if exists|j: int|
        0 <= j < outs.len() && (path::parent(#[trigger] outs[j]) matches Some(p) ==> path::comps(p)
            != path::comps(d)) {
        let j = choose|j: int|
            0 <= j < outs.len() && (path::parent(#[trigger] outs[j]) matches Some(p)
                ==> path::comps(p) != path::comps(d));
        if ds.len() == 1 {
            let k = choose|k: int| 0 <= k < ds.len() && path::same_path(#[trigger] ds[k], d);
            assert(k == 0);
            assert(!(path::parent(outs[j]) matches Some(p) && path::same_path(p, ds[0])));
        }
    }
}

/// Headers below one module tree make that tree one output, however deep they lie
/// in it.
#[verifier::rlimit(60)]
pub proof fn headers_share_one_module_tree(outs: Seq<Seq<char>>, i: int, m: Seq<char>)
    requires
        0 <= i < outs.len(),
        path::comps(outs[i]).len() >= 2,
        path::comps(outs[i])[0] == "include"@,
        path::comps(outs[i])[1] == m,
        m != "."@ && m != ".."@,
        autogen_root(outs) is None,
        forall|j: int| 0 <= j < outs.len() ==> path::comps(#[trigger] outs[j]).len() > 0,
        forall|j: int|
            0 <= j < outs.len() && path::comps(#[trigger] outs[j]).len() >= 2 && path::comps(
                outs[j],
            )[0] == "include"@ ==> path::comps(outs[j])[1] == m,
    ensures
        tree_root(outs) == Some(path::joined("include"@, m)),
{
    let d = path::joined("include"@, m);
    let ts = module_trees(outs);
    trees_are_listed(outs);
    assert(module_tree(outs[i]) == Some(d));
    assert(path::listed(ts, d));
    tree_comps(outs[i]);
    assert forall|k: int| 0 <= k < ts.len() implies #[trigger] ts[k] == d by {
        let j = choose|j: int| 0 <= j < outs.len() && module_tree(#[trigger] outs[j]) == Some(ts[k]);
        assert(path::comps(outs[j])[1] == m);
    }
    if ts.len() >= 2 {
        assert(ts[0] == d && ts[1] == d);
        assert(!path::same_path(ts[0], ts[1]));
    }
    assert(ts.len() == 1 && ts[0] == d);
    assert(path::under(outs[i], d)) by {
        let cs = path::comps(outs[i]);
        assert(cs.subrange(0, 2) =~= seq!["include"@, m]);
    }
    assert(some_under(outs, d));
}

/// Headers below two module trees belong to none.
#[verifier::rlimit(60)]
pub proof fn two_module_trees_are_no_output(outs: Seq<Seq<char>>, i: int, j: int)
    requires
        0 <= i < outs.len(),
        0 <= j < outs.len(),
        path::comps(outs[i]).len() >= 2,
        path::comps(outs[i])[0] == "include"@,
        path::comps(outs[i])[1] != "."@ && path::comps(outs[i])[1] != ".."@,
        path::comps(outs[j]).len() >= 2,
        path::comps(outs[j])[0] == "include"@,
        path::comps(outs[j])[1] != "."@ && path::comps(outs[j])[1] != ".."@,
        path::comps(outs[i])[1] != path::comps(outs[j])[1],
        autogen_root(outs) is None,
    ensures
        tree_root(outs) is None,
{
    let ts = module_trees(outs);
    trees_are_listed(outs);
    tree_comps(outs[i]);
    tree_comps(outs[j]);
    let d = module_tree(outs[i])->0;
    let e = module_tree(outs[j])->0;
    assert(path::listed(ts, d) && path::listed(ts, e));
    let a = choose|a: int| 0 <= a < ts.len() && path::same_path(#[trigger] ts[a], d);
    let b = choose|b: int| 0 <= b < ts.len() && path::same_path(#[trigger] ts[b], e);
    assert(path::comps(d)[1] != path::comps(e)[1]);
    assert(a != b);
}

proof fn tree_comps(o: Seq<char>)
    requires
        path::comps(o).len() >= 2,
        path::comps(o)[0] == "include"@,
        path::comps(o)[1] != "."@,
        path::comps(o)[1] != ".."@,
    ensures
        module_tree(o) is Some,
        path::comps(module_tree(o)->0) == seq!["include"@, path::comps(o)[1]],
{
    reveal_strlit("include");
    reveal_strlit(".");
    reveal_strlit("..");
    let m = path::comps(o)[1];
    path::comps_well_placed(o);
    assert(m != path::root());
    path::a_child_lies_in_its_directory("include"@, m);
    assert forall|k: int| 0 <= k < 7 implies "include"@[k] != '/' by {}
    assert(!"include"@.contains('/'));
    assert("include"@ != "."@ && "include"@ != ".."@);
    path::a_child_lies_in_its_directory("include"@, "include"@);
    assert(seq!["include"@].push(m) =~= seq!["include"@, m]);
}

proof fn trees_are_listed(outs: Seq<Seq<char>>)
    ensures
        forall|k: int|
            0 <= k < module_trees(outs).len() ==> exists|i: int|
                0 <= i < outs.len() && module_tree(#[trigger] outs[i]) == Some(
                    #[trigger] module_trees(outs)[k],
                ),
        forall|i: int|
            0 <= i < outs.len() && module_tree(#[trigger] outs[i]) is Some ==> path::listed(
                module_trees(outs),
                module_tree(outs[i])->0,
            ),
        forall|i: int, j: int|
            0 <= i < j < module_trees(outs).len() ==> !path::same_path(
                #[trigger] module_trees(outs)[i],
                #[trigger] module_trees(outs)[j],
            ),
    decreases outs.len(),
{
    if outs.len() > 0 {
        let front = outs.drop_last();
        let n = outs.len() - 1;
        trees_are_listed(front);
        let a = module_trees(front);
        let b = module_trees(outs);
        if module_tree(outs.last()) is Some {
            added_path_is_listed(a, module_tree(outs.last())->0);
        }
        assert forall|k: int| 0 <= k < b.len() implies exists|i: int|
            0 <= i < outs.len() && module_tree(#[trigger] outs[i]) == Some(#[trigger] b[k]) by {
            if k < a.len() {
                assert(a[k] == b[k]);
                let i = choose|i: int|
                    0 <= i < front.len() && module_tree(#[trigger] front[i]) == Some(a[k]);
                assert(outs[i] == front[i]);
            } else {
                assert(module_tree(outs[n]) == Some(b[k]));
            }
        }
        assert forall|i: int|
            0 <= i < outs.len() && module_tree(#[trigger] outs[i]) is Some implies path::listed(
            b,
            module_tree(outs[i])->0,
        ) by {
            if i < n {
                assert(front[i] == outs[i]);
            }
        }
        assert forall|i: int, j: int| 0 <= i < j < b.len() implies !path::same_path(
            #[trigger] b[i],
            #[trigger] b[j],
        ) by {
            if j == a.len() {
                if path::same_path(b[i], b[j]) {
                    assert(a[i] == b[i]);
                    assert(path::listed(a, b[j]));
                }
            } else {
                assert(a[i] == b[i] && a[j] == b[j]);
            }
        }
    }
}

/// Beside a generator's directory lies what cmake keeps of it, under its name.
pub proof fn generators_have_a_cache(outs: Seq<Seq<char>>, root: Seq<char>)
    requires
        autogen_root(outs) == Some(root),
    ensures
        tree_root(outs) == Some(root),
        path::listed(trees_of(outs), root),
        path::file_name(root) is Some && path::parent(root) is Some ==> cache_dir(outs) == Some(
            path::joined(
                path::joined(path::parent(root)->0, "CMakeFiles"@),
                path::file_name(root)->0 + ".dir"@,
            ),
        ) && path::listed(trees_of(outs), cache_dir(outs)->0),
{
    let e = Seq::<Seq<char>>::empty();
    added_path_is_listed(e, root);
    let one = with_some(e, tree_root(outs));
    if cache_dir(outs) is Some {
        added_path_is_listed(one, cache_dir(outs)->0);
    }
}

/// The record of a package is what its command's first such word names, without
/// quotes, as seen from the build directory.
pub proof fn the_first_record_is_read(
    a: Seq<Seq<char>>,
    v: Seq<char>,
    b: Seq<Seq<char>>,
    key: Seq<char>,
)
    requires
        forall|i: int| 0 <= i < a.len() ==> !key.is_prefix_of(#[trigger] a[i]),
    ensures
        first_value(a, key) is None,
        first_value(a + seq![key + v] + b, key) == Some(v),
    decreases a.len(),
{
    let s = a + seq![key + v] + b;
    if a.len() == 0 {
        assert(s[0] == key + v);
        assert(key.is_prefix_of(key + v));
        assert((key + v).skip(key.len() as int) =~= v);
    } else {
        let f = a.drop_first();
        assert forall|i: int| 0 <= i < f.len() implies !key.is_prefix_of(#[trigger] f[i]) by {
            assert(f[i] == a[i + 1]);
        }
        the_first_record_is_read(f, v, b, key);
        assert(s[0] == a[0]);
        assert(s.drop_first() =~= f + seq![key + v] + b);
    }
}

/// A record is read only for the command that finishes such packages.
pub proof fn records_belong_to_their_command(cmd: Seq<char>, build_dir: Seq<char>)
    ensures
        !text::has(cmd, "QtFinishPrlFile.cmake"@) ==> prl_meta(cmd, build_dir) is None,
        text::has(cmd, "QtFinishPrlFile.cmake"@) ==> match first_value(
            text::words(cmd),
            "-DIN_META_FILE="@,
        ) {
            Some(m) => prl_meta(cmd, build_dir) == Some(
                path::joined(build_dir, text::trim(m, Class::Only('"'))),
            ),
            None => prl_meta(cmd, build_dir) is None,
        },
{
}

/// Every line of a record that says where a description goes adds that place, as
/// it is seen from the build directory; no other line does, and what was listed
/// stays in front.
pub proof fn every_description_is_an_output(
    ps: Seq<Seq<char>>,
    ls: Seq<Seq<char>>,
    build_dir: Seq<char>,
    i: int,
    p: Seq<char>,
)
    ensures
        ps.is_prefix_of(with_prl(ps, ls, build_dir)),
        0 <= i < ls.len() && ls[i] == "FINAL_PRL_FILE_PATH = "@ + p ==> path::listed(
            with_prl(ps, ls, build_dir),
            match path::relative(text::trim(p, Class::Space), build_dir) {
                Some(r) => r,
                None => text::trim(p, Class::Space),
            },
        ),
        (forall|j: int|
            0 <= j < ls.len() ==> !"FINAL_PRL_FILE_PATH = "@.is_prefix_of(#[trigger] ls[j]))
            ==> with_prl(ps, ls, build_dir) == ps,
    decreases ls.len(),
{
    let key = "FINAL_PRL_FILE_PATH = "@;
    if ls.len() > 0 {
        let front = ls.drop_last();
        let n = ls.len() - 1;
        every_description_is_an_output(ps, front, build_dir, i, p);
        let a = with_prl(ps, front, build_dir);
        if text::without_prefix(ls.last(), key) is Some {
            added_path_is_listed(
                a,
                seen_from(
                    text::trim(text::without_prefix(ls.last(), key)->0, Class::Space),
                    build_dir,
                ),
            );
        }
        if 0 <= i < ls.len() && ls[i] == key + p {
            if i < n {
                assert(front[i] == ls[i]);
            } else {
                assert(key.is_prefix_of(ls[i]));
                assert(ls[i].skip(key.len() as int) =~= p);
            }
        }
        if forall|j: int| 0 <= j < ls.len() ==> !key.is_prefix_of(#[trigger] ls[j]) {
            assert(!key.is_prefix_of(ls[n]));
            assert forall|j: int| 0 <= j < front.len() implies !key.is_prefix_of(
                #[trigger] front[j],
            ) by {
                assert(front[j] == ls[j]);
            }
        }
    }
}

/// Every `-E create_symlink` adds the place of its link, the second word behind
/// it without quotes, wherever in the command it stands; a command without one
/// adds nothing, and what was listed stays in front.
pub proof fn every_link_is_an_output(
    ps: Seq<Seq<char>>,
    ws: Seq<Seq<char>>,
    build_dir: Seq<char>,
    n: nat,
)
    requires
        n <= ws.len(),
    ensures
        ps.is_prefix_of(with_links(ps, ws, build_dir, n)),
        forall|i: int|
            0 <= i < n && i + 3 < ws.len() && #[trigger] ws[i] == "-E"@ && ws[i + 1]
                == "create_symlink"@ ==> path::listed(
                with_links(ps, ws, build_dir, n),
                link_place(ws, text::trim(ws[i + 3], Class::Only('"')), build_dir),
            ),
        !ws.contains("create_symlink"@) ==> with_links(ps, ws, build_dir, n) == ps,
    decreases n,
{
    if n > 0 {
        let m = (n - 1) as nat;
        every_link_is_an_output(ps, ws, build_dir, m);
        let a = with_links(ps, ws, build_dir, m);
        if m + 3 < ws.len() {
            added_path_is_listed(
                a,
                link_place(ws, text::trim(ws[m as int + 3], Class::Only('"')), build_dir),
            );
            assert(ws.contains(ws[m as int + 1]));
        }
    }
}

/// A link lies where its command runs: in the directory that the command enters
/// first, or in the build directory; it is told as seen from the build directory.
pub proof fn links_lie_where_the_command_runs(
    dir: Seq<char>,
    rest: Seq<Seq<char>>,
    link: Seq<char>,
    build_dir: Seq<char>,
)
    requires
        !(rest.len() >= 3 && rest[0] == "cd"@ && rest[2] == "&&"@),
    ensures
        link_place(seq!["cd"@, dir, "&&"@] + rest, link, build_dir) == match path::relative(
            path::joined(text::trim(dir, Class::Only('"')), link),
            build_dir,
        ) {
            Some(r) => r,
            None => link,
        },
        link_place(rest, link, build_dir) == match path::relative(
            path::joined(build_dir, link),
            build_dir,
        ) {
            Some(r) => r,
            None => link,
        },
{
    let ws = seq!["cd"@, dir, "&&"@] + rest;
    assert(ws[0] == "cd"@ && ws[1] == dir && ws[2] == "&&"@);
}

/// Whatever a command is, the trees that its outputs belong to are among what it
/// writes, and so are its links and what its record describes; without a command
/// nothing else is.
pub proof fn trees_are_outputs(
    outs: Seq<Seq<char>>,
    cmd: Option<Seq<char>>,
    build_dir: Seq<char>,
    meta: Option<Seq<char>>,
    k: int,
    p: Seq<char>,
)
    ensures
        trees_of(outs).is_prefix_of(undeclared(outs, cmd, build_dir, meta)),
        undeclared(outs, None, build_dir, meta) == trees_of(outs),
        cmd matches Some(c) ==> {
            let ws = text::words(c);
            forall|i: int|
                0 <= i && i + 3 < ws.len() && #[trigger] ws[i] == "-E"@ && ws[i + 1]
                    == "create_symlink"@ ==> path::listed(
                    undeclared(outs, cmd, build_dir, meta),
                    link_place(ws, text::trim(ws[i + 3], Class::Only('"')), build_dir),
                )
        },
        cmd is Some && prl_meta(cmd->0, build_dir) is Some && meta is Some && 0 <= k < text::lines(
            meta->0,
        ).len() && text::lines(meta->0)[k] == "FINAL_PRL_FILE_PATH = "@ + p ==> path::listed(
            undeclared(outs, cmd, build_dir, meta),
            match path::relative(text::trim(p, Class::Space), build_dir) {
                Some(r) => r,
                None => text::trim(p, Class::Space),
            },
        ),
{
    match cmd {
        Some(c) => {
            let ws = text::words(c);
            let trees = trees_of(outs);
            let prl = match (prl_meta(c, build_dir), meta) {
                (Some(m), Some(t)) => with_prl(trees, text::lines(t), build_dir),
                _ => trees,
            };
            if meta is Some {
                every_description_is_an_output(trees, text::lines(meta->0), build_dir, k, p);
            }
            every_link_is_an_output(prl, ws, build_dir, ws.len());
            let all = undeclared(outs, cmd, build_dir, meta);
            assert forall|q: Seq<char>| path::listed(prl, q) implies path::listed(all, q) by {
                let j = choose|j: int| 0 <= j < prl.len() && path::same_path(#[trigger] prl[j], q);
                assert(all[j] == prl[j]);
            }
        },
        None => {},
    }
}

/// A derivation has every declared output and everything that the command writes
/// besides, the declared ones first and each once; then its dependency file, as
/// it is spelled, and behind everything its log, beside the first output.
pub proof fn every_output_is_the_derivations(
    outs: Seq<Seq<char>>,
    more: Seq<Seq<char>>,
    depfile: Option<Seq<char>>,
    verbose: bool,
)
    ensures
        ({
            let all = derivation_outputs(outs, more, depfile, verbose);
            &&& path::first_paths(outs).is_prefix_of(all)
            &&& forall|i: int| 0 <= i < outs.len() ==> path::listed(all, #[trigger] outs[i])
            &&& forall|i: int| 0 <= i < more.len() ==> path::listed(all, #[trigger] more[i])
            &&& depfile is Some ==> all.contains(depfile->0)
            &&& verbose && outs.len() > 0 ==> all.last() == outs[0] + ".nn-verbose-log"@
            &&& verbose && outs.len() == 0 ==> all.last() == "nn-verbose-log"@
            &&& derivation_outputs(outs, more, depfile, true) == derivation_outputs(
                outs,
                more,
                depfile,
                false,
            ).push(log_path(outs))
            &&& depfile is Some ==> derivation_outputs(outs, more, depfile, false)
                == derivation_outputs(outs, more, None, false).push(depfile->0)
            &&& forall|p: Seq<char>| #[trigger]
                path::listed(derivation_outputs(outs, more, None, false), p) <==> path::listed(
                    outs,
                    p,
                ) || path::listed(more, p)
        }),
{
    path::first_paths_cover(outs);
    let first = path::first_paths(outs);
    more_paths_are_listed(first, more);
    let base = with_paths(first, more);
    let all = derivation_outputs(outs, more, depfile, verbose);
    assert(base.is_prefix_of(all));
    assert forall|p: Seq<char>| path::listed(base, p) implies path::listed(all, p) by {
        let i = choose|i: int| 0 <= i < base.len() && path::same_path(#[trigger] base[i], p);
        assert(all[i] == base[i]);
    }
    assert forall|i: int| 0 <= i < outs.len() implies path::listed(all, #[trigger] outs[i]) by {
        assert(path::same_path(outs[i], outs[i]));
        assert(path::listed(outs, outs[i]));
        assert(path::listed(base, outs[i]));
    }
    assert forall|i: int| 0 <= i < more.len() implies path::listed(all, #[trigger] more[i]) by {
        assert(path::same_path(more[i], more[i]));
        assert(path::listed(more, more[i]));
        assert(path::listed(base, more[i]));
    }
    if depfile is Some {
        assert(all[base.len() as int] == depfile->0);
    }
}

proof fn more_paths_are_listed(ps: Seq<Seq<char>>, more: Seq<Seq<char>>)
    ensures
        ps.is_prefix_of(with_paths(ps, more)),
        forall|p: Seq<char>| #[trigger]
            path::listed(with_paths(ps, more), p) <==> path::listed(ps, p) || path::listed(more, p),
    decreases more.len(),
{
    if more.len() > 0 {
        let front = more.drop_last();
        let n = more.len() - 1;
        more_paths_are_listed(ps, front);
        let a = with_paths(ps, front);
        added_path_is_listed(a, more.last());
        assert forall|p: Seq<char>| #[trigger] path::listed(
            with_paths(ps, more),
            p,
        ) <==> path::listed(ps, p) || path::listed(more, p) by {
            if path::listed(more, p) {
                let i = choose|i: int| 0 <= i < more.len() && path::same_path(#[trigger] more[i], p);
                if i < n {
                    assert(path::same_path(front[i], p));
                    assert(path::listed(front, p));
                }
            }
            if path::listed(front, p) {
                let i = choose|i: int|
                    0 <= i < front.len() && path::same_path(#[trigger] front[i], p);
                assert(path::same_path(more[i], p));
            }
            if path::same_path(more.last(), p) {
                assert(path::same_path(more[n], p));
            }
        }
    }
}

} // verus!
