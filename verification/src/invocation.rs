//! Commands of particular tools: which document, script or module they read
//! and where they look for what it refers to.
use crate::path;
use crate::text;
use crate::text::Class;
use crate::vars::Vars;
use crate::views;
use vstd::prelude::*;

verus! {

broadcast use {views::texts_push, views::pieces_push};

/// An argument that is an option.
pub open spec fn is_option(a: Seq<char>) -> bool {
    a.len() > 0 && a[0] == '-'
}

fn option_like(a: &Vec<char>) -> (r: bool)
    ensures
        r == is_option(a@),
{
    a.len() > 0 && a[0] == '-'
}

/// The arguments that are no options and end in `suffix`.
pub open spec fn documents(args: Seq<Seq<char>>, suffix: Seq<char>) -> Seq<Seq<char>>
    decreases args.len(),
{
    if args.len() == 0 {
        Seq::empty()
    } else if !is_option(args.last()) && suffix.is_suffix_of(args.last()) {
        documents(args.drop_last(), suffix).push(args.last())
    } else {
        documents(args.drop_last(), suffix)
    }
}

/// The arguments from `from` on that are no options and end in `suffix`.
fn documents_of(args: &Vec<String>, from: usize, suffix: &str) -> (r: Vec<String>)
    requires
        from <= args.len(),
    ensures
        views::texts(r@) == documents(views::texts(args@).skip(from as int), suffix@),
{
    let ghost all = views::texts(args@).skip(from as int);
    let mut out: Vec<String> = Vec::new();
    assert(views::texts(out@) =~= documents(all.take(0), suffix@));
    for i in from..args.len()
        invariant
            from <= args.len(),
            all == views::texts(args@).skip(from as int),
            views::texts(out@) == documents(all.take(i - from), suffix@),
    {
        let a = text::chars_of(args[i].as_str());
        assert(all.take(i - from + 1).drop_last() =~= all.take(i - from));
        assert(all.take(i - from + 1).last() == a@);
        if !option_like(&a) && text::ends_lit(&a, suffix) {
            out.push(args[i].clone());
        }
    }
    assert(all.take(all.len() as int) =~= all);
    out
}

/// The documents, unless there are none.
pub open spec fn some_documents(ds: Seq<Seq<char>>) -> Option<Seq<Seq<char>>> {
    if ds.len() > 0 {
        Some(ds)
    } else {
        None
    }
}

/// The documents of a command that expands XML inclusions.
pub open spec fn xinclude_documents(args: Seq<Seq<char>>) -> Option<Seq<Seq<char>>> {
    if args.contains("--xinclude"@) {
        some_documents(documents(args.drop_first(), ".xml"@))
    } else {
        None
    }
}

/// The XML documents of a command that expands inclusions in them.
pub fn xinclude_invocation(args: &Vec<String>) -> (r: Option<Vec<String>>)
    ensures
        views::opt_texts(r) == xinclude_documents(views::texts(args@)),
{
    if !text::list_has(args, "--xinclude") {
        return None;
    }
    let ghost all = views::texts(args@);
    assert(all.len() > 0);
    assert(all.skip(1) =~= all.drop_first());
    let ds = documents_of(args, 1, ".xml");
    assert(views::texts(ds@).len() == ds@.len());
    if ds.len() > 0 {
        Some(ds)
    } else {
        None
    }
}

/// Some argument names a writer of reStructuredText.
pub open spec fn names_rst_writer(args: Seq<Seq<char>>) -> bool {
    exists|i: int|
        0 <= i < args.len() && (text::has(#[trigger] args[i], "rst2"@)
            || "pandoc-prebuilt.py"@.is_suffix_of(args[i]))
}

/// The documents of a command that writes reStructuredText.
pub open spec fn rst_documents(args: Seq<Seq<char>>) -> Option<Seq<Seq<char>>> {
    if names_rst_writer(args) {
        some_documents(documents(args, ".rst"@))
    } else {
        None
    }
}

/// The reStructuredText documents of a command that converts them.
pub fn rst_invocation(args: &Vec<String>) -> (r: Option<Vec<String>>)
    ensures
        views::opt_texts(r) == rst_documents(views::texts(args@)),
{
    let ghost all = views::texts(args@);
    let mut writer = false;
    let mut i: usize = 0;
    while i < args.len() && !writer
        invariant
            all == views::texts(args@),
            i <= args.len(),
            writer ==> names_rst_writer(all),
            !writer ==> forall|j: int|
                0 <= j < i ==> !(text::has(#[trigger] all[j], "rst2"@)
                    || "pandoc-prebuilt.py"@.is_suffix_of(all[j])),
        decreases args.len() - i,
    {
        let a = text::chars_of(args[i].as_str());
        assert(all[i as int] == a@);
        if text::contains_lit(&a, "rst2") || text::ends_lit(&a, "pandoc-prebuilt.py") {
            writer = true;
        }
        i += 1;
    }
    if !writer {
        return None;
    }
    assert(all.skip(0) =~= all);
    let ds = documents_of(args, 0, ".rst");
    assert(views::texts(ds@).len() == ds@.len());
    if ds.len() > 0 {
        Some(ds)
    } else {
        None
    }
}

// ---------------------------------------------------------------------------
// TableGen
// ---------------------------------------------------------------------------

/// An argument that runs TableGen.
pub open spec fn is_tblgen(a: Seq<char>) -> bool {
    !is_option(a) && (path::file_name(a) matches Some(n) && text::has(n, "tblgen"@))
}

/// The arguments behind the one that runs TableGen.
pub open spec fn behind_tblgen(args: Seq<Seq<char>>) -> Option<Seq<Seq<char>>>
    decreases args.len(),
{
    if args.len() == 0 {
        None
    } else if is_tblgen(args[0]) {
        Some(args.drop_first())
    } else {
        behind_tblgen(args.drop_first())
    }
}

/// The description that TableGen reads, the first one named, and the
/// directories it searches.
pub open spec fn tblgen_reads(
    args: Seq<Seq<char>>,
    seed: Option<Seq<char>>,
    dirs: Seq<Seq<char>>,
) -> Option<(Seq<char>, Seq<Seq<char>>)>
    decreases args.len(),
{
    if args.len() == 0 {
        match seed {
            Some(s) => Some((s, dirs)),
            None => None,
        }
    } else {
        match text::without_prefix(args[0], "-I"@) {
            Some(rest) => if rest.len() > 0 {
                tblgen_reads(args.drop_first(), seed, dirs.push(rest))
            } else if args.len() >= 2 {
                tblgen_reads(args.skip(2), seed, dirs.push(args[1]))
            } else {
                tblgen_reads(args.drop_first(), seed, dirs)
            },
            None => if ".td"@.is_suffix_of(args[0]) && !is_option(args[0]) && seed is None {
                tblgen_reads(args.drop_first(), Some(args[0]), dirs)
            } else {
                tblgen_reads(args.drop_first(), seed, dirs)
            },
        }
    }
}

/// What a command reads that runs TableGen.
pub open spec fn tblgen_run(args: Seq<Seq<char>>) -> Option<(Seq<char>, Seq<Seq<char>>)> {
    match behind_tblgen(args) {
        Some(rest) => tblgen_reads(rest, None, Seq::empty()),
        None => None,
    }
}

/// The view of a text with a list of texts.
pub open spec fn opt_read(o: Option<(String, Vec<String>)>) -> Option<(Seq<char>, Seq<Seq<char>>)> {
    match o {
        Some((s, v)) => Some((s@, views::texts(v@))),
        None => None,
    }
}

/// The description that a TableGen run reads and the directories in which it
/// looks for what that refers to. The tool may stand anywhere on the line.
pub fn tablegen_invocation(args: &Vec<String>) -> (r: Option<(String, Vec<String>)>)
    ensures
        opt_read(r) == tblgen_run(views::texts(args@)),
{
    let ghost all = views::texts(args@);
    let mut at: usize = 0;
    let mut found = false;
    assert(all.skip(0) =~= all);
    while at < args.len() && !found
        invariant
            all == views::texts(args@),
            at <= args.len(),
            found ==> behind_tblgen(all) == Some(all.skip(at as int)),
            !found ==> behind_tblgen(all) == behind_tblgen(all.skip(at as int)),
        decreases args.len() - at,
    {
        let a = text::chars_of(args[at].as_str());
        assert(all.skip(at as int)[0] == a@);
        assert(all.skip(at as int).drop_first() =~= all.skip(at + 1));
        let named = match path::name_of(&a) {
            Some(n) => text::contains_lit(&n, "tblgen"),
            None => false,
        };
        if !option_like(&a) && named {
            found = true;
        }
        at += 1;
    }
    if !found {
        return None;
    }
    let mut seed: Option<String> = None;
    let mut dirs: Vec<String> = Vec::new();
    let mut i: usize = at;
    assert(views::texts(dirs@) =~= Seq::<Seq<char>>::empty());
    while i < args.len()
        invariant
            all == views::texts(args@),
            i <= args.len(),
            tblgen_run(all) == tblgen_reads(
                all.skip(i as int),
                views::opt_text(seed),
                views::texts(dirs@),
            ),
        decreases args.len() - i,
    {
        let ghost rest = all.skip(i as int);
        let a = text::chars_of(args[i].as_str());
        proof {
            assert(rest[0] == a@);
            assert(rest.drop_first() =~= all.skip(i + 1));
        }
        match text::strip_lit(&a, "-I") {
            Some(dir) => {
                if dir.len() > 0 {
                    dirs.push(text::string_of(&dir));
                } else if i + 1 < args.len() {
                    assert(rest[1] == args@[i + 1]@);
                    assert(rest.skip(2) =~= all.skip(i + 2));
                    dirs.push(args[i + 1].clone());
                    i += 1;
                }
            },
            None => {
                if text::ends_lit(&a, ".td") && !option_like(&a) && seed.is_none() {
                    seed = Some(args[i].clone());
                }
            },
        }
        i += 1;
    }
    match seed {
        Some(s) => Some((s, dirs)),
        None => None,
    }
}

// ---------------------------------------------------------------------------
// CMake scripts
// ---------------------------------------------------------------------------

/// The script behind the first `-P`.
pub open spec fn script_of(args: Seq<Seq<char>>) -> Option<Seq<char>>
    decreases args.len(),
{
    if args.len() == 0 {
        None
    } else if args[0] == "-P"@ {
        if args.len() >= 2 {
            Some(args[1])
        } else {
            None
        }
    } else {
        script_of(args.drop_first())
    }
}

/// The script that cmake is asked to run.
pub fn cmake_script_arg(args: &Vec<String>) -> (r: Option<String>)
    ensures
        views::opt_text(r) == script_of(views::texts(args@)),
{
    let ghost all = views::texts(args@);
    assert(all.skip(0) =~= all);
    for i in 0..args.len()
        invariant
            all == views::texts(args@),
            script_of(all) == script_of(all.skip(i as int)),
    {
        assert(all.skip(i as int)[0] == args@[i as int]@);
        assert(all.skip(i as int).drop_first() =~= all.skip(i + 1));
        if text::same_str(args[i].as_str(), "-P") {
            if i + 1 < args.len() {
                assert(all.skip(i as int)[1] == args@[i + 1]@);
                return Some(args[i + 1].clone());
            }
            return None;
        }
    }
    None
}

/// The name in front of a type.
pub open spec fn untyped(name: Seq<char>) -> Seq<char> {
    match text::split_once(name, ':') {
        Some((n, t)) => n,
        None => name,
    }
}

/// The variables after one definition; a body without an equals sign defines nothing.
pub open spec fn defined(
    vars: Map<Seq<char>, Seq<char>>,
    body: Seq<char>,
) -> Map<Seq<char>, Seq<char>> {
    match text::split_once(body, '=') {
        Some((n, v)) => vars.insert(untyped(n), v),
        None => vars,
    }
}

/// The variables that the arguments define.
pub open spec fn definitions(
    args: Seq<Seq<char>>,
    vars: Map<Seq<char>, Seq<char>>,
) -> Map<Seq<char>, Seq<char>>
    decreases args.len(),
{
    if args.len() == 0 {
        vars
    } else if args[0] == "-D"@ {
        if args.len() >= 2 {
            definitions(args.skip(2), defined(vars, args[1]))
        } else {
            vars
        }
    } else {
        match text::without_prefix(args[0], "-D"@) {
            Some(body) => definitions(args.drop_first(), defined(vars, body)),
            None => definitions(args.drop_first(), vars),
        }
    }
}

/// Takes one definition in.
fn define(vars: &mut Vars, body: &Vec<char>)
    ensures
        final(vars)@ == defined(old(vars)@, body@),
{
    if let Some((n, v)) = text::cut_once(body, '=') {
        let name = match text::cut_once(&n, ':') {
            Some((m, _)) => m,
            None => n,
        };
        let ns = text::string_of(&name);
        let vs = text::string_of(&v);
        vars.set(ns.as_str(), vs.as_str());
    }
}

/// The variables that a cmake command line defines, in every spelling cmake
/// accepts: `-DNAME=VALUE`, `-D NAME=VALUE`, and a type behind the name.
pub fn cmake_definitions(args: &Vec<String>) -> (r: Vars)
    ensures
        r@ == definitions(views::texts(args@), Map::empty()),
{
    let ghost all = views::texts(args@);
    let mut out = Vars::new();
    let mut i: usize = 0;
    assert(all.skip(0) =~= all);
    while i < args.len()
        invariant
            all == views::texts(args@),
            i <= args.len(),
            definitions(all, Map::empty()) == definitions(all.skip(i as int), out@),
        decreases args.len() - i,
    {
        let ghost rest = all.skip(i as int);
        let a = text::chars_of(args[i].as_str());
        proof {
            assert(rest[0] == a@);
            assert(rest.drop_first() =~= all.skip(i + 1));
        }
        if text::is_lit(&a, "-D") {
            if i + 1 >= args.len() {
                return out;
            }
            assert(rest[1] == args@[i + 1]@);
            assert(rest.skip(2) =~= all.skip(i + 2));
            let body = text::chars_of(args[i + 1].as_str());
            define(&mut out, &body);
            i += 2;
        } else {
            if let Some(body) = text::strip_lit(&a, "-D") {
                define(&mut out, &body);
            }
            i += 1;
        }
    }
    out
}

// ---------------------------------------------------------------------------
// Python modules
// ---------------------------------------------------------------------------

/// A module run by `python -m`, with the directories in which it is looked
/// for: those set before, then the working directory.
pub open spec fn module_run(
    args: Seq<Seq<char>>,
    roots: Seq<Seq<char>>,
    seen_python: bool,
) -> Option<(Seq<char>, Seq<Seq<char>>)>
    decreases args.len(),
{
    if args.len() == 0 {
        None
    } else {
        let tok = args[0];
        let rest = args.drop_first();
        match text::without_prefix(tok, "PYTHONPATH="@) {
            Some(v) => module_run(
                rest,
                roots + text::nonempty(text::split(v, Class::Only(':'))),
                seen_python,
            ),
            None => if !seen_python {
                module_run(rest, roots, "python"@.is_prefix_of(text::after_last(tok, '/')))
            } else if tok == "-m"@ {
                if rest.len() == 0 || rest[0].len() == 0 || is_option(rest[0]) {
                    None
                } else {
                    Some((rest[0], roots.push(path::cur())))
                }
            } else if !is_option(tok) {
                None
            } else {
                module_run(rest, roots, seen_python)
            },
        }
    }
}

/// The pieces that are not empty, as strings.
fn nonempty_strings(ps: &Vec<Vec<char>>) -> (r: Vec<String>)
    ensures
        views::texts(r@) == text::nonempty(views::pieces(ps@)),
{
    let ghost all = views::pieces(ps@);
    let mut out: Vec<String> = Vec::new();
    assert(views::texts(out@) =~= text::nonempty(all.take(0)));
    for i in 0..ps.len()
        invariant
            all == views::pieces(ps@),
            views::texts(out@) == text::nonempty(all.take(i as int)),
    {
        assert(all.take(i + 1).drop_last() =~= all.take(i as int));
        assert(all.take(i + 1).last() == ps@[i as int]@);
        if ps[i].len() > 0 {
            out.push(text::string_of(&ps[i]));
        }
    }
    assert(all.take(all.len() as int) =~= all);
    out
}

/// The module that `python -m` runs and where it is looked for. A script or
/// another argument before the option means that no module is run.
pub fn python_module_invocation(args: &Vec<String>) -> (r: Option<(String, Vec<String>)>)
    ensures
        opt_read(r) == module_run(views::texts(args@), Seq::empty(), false),
{
    let ghost all = views::texts(args@);
    let mut roots: Vec<String> = Vec::new();
    let mut seen_python = false;
    assert(all.skip(0) =~= all);
    assert(views::texts(roots@) =~= Seq::<Seq<char>>::empty());
    for i in 0..args.len()
        invariant
            all == views::texts(args@),
            module_run(all, Seq::empty(), false) == module_run(
                all.skip(i as int),
                views::texts(roots@),
                seen_python,
            ),
    {
        let ghost rest = all.skip(i as int).drop_first();
        let tok = text::chars_of(args[i].as_str());
        proof {
            assert(all.skip(i as int)[0] == tok@);
            assert(rest =~= all.skip(i + 1));
        }
        match text::strip_lit(&tok, "PYTHONPATH=") {
            Some(v) => {
                let ps = text::split_by(&v, Class::Only(':'));
                let mut more = nonempty_strings(&ps);
                let ghost before = roots@;
                let ghost added = more@;
                roots.append(&mut more);
                assert(views::texts(roots@) =~= views::texts(before) + views::texts(added));
            },
            None => {
                if !seen_python {
                    let base = text::behind_last(&tok, '/');
                    seen_python = text::starts_lit(&base, "python");
                } else if text::is_lit(&tok, "-m") {
                    if i + 1 >= args.len() {
                        return None;
                    }
                    assert(rest[0] == args@[i + 1]@);
                    let module = text::chars_of(args[i + 1].as_str());
                    if module.len() == 0 || option_like(&module) {
                        return None;
                    }
                    let mut here: Vec<char> = Vec::new();
                    here.push('.');
                    assert(here@ =~= path::cur());
                    roots.push(text::string_of(&here));
                    return Some((text::string_of(&module), roots));
                } else if !option_like(&tok) {
                    return None;
                }
            },
        }
    }
    None
}

/// A module's name as a path.
pub open spec fn dotted_path(module: Seq<char>) -> Seq<char> {
    module.map_values(|c: char| if c == '.' { '/' } else { c })
}

/// Where a module may lie below a root.
pub open spec fn module_base(module: Seq<char>, root: Seq<char>) -> Seq<char> {
    if root == path::cur() {
        dotted_path(module)
    } else {
        root + seq!['/'] + dotted_path(module)
    }
}

/// The files that may hold a module: under each root the module file, then the package's.
pub open spec fn module_files(module: Seq<char>, roots: Seq<Seq<char>>) -> Seq<Seq<char>>
    decreases roots.len(),
{
    if roots.len() == 0 {
        Seq::empty()
    } else {
        let base = module_base(module, roots.last());
        module_files(module, roots.drop_last()).push(base + ".py"@).push(base + "/__init__.py"@)
    }
}

/// The files that may hold a module.
pub fn python_module_candidates(module: &str, roots: &Vec<String>) -> (r: Vec<String>)
    ensures
        views::texts(r@) == module_files(module@, views::texts(roots@)),
{
    let ghost all = views::texts(roots@);
    let m = text::chars_of(module);
    let mut rel: Vec<char> = Vec::new();
    for i in 0..m.len()
        invariant
            m@ == module@,
            rel@ == dotted_path(m@).take(i as int),
    {
        if m[i] == '.' {
            rel.push('/');
        } else {
            rel.push(m[i]);
        }
    }
    assert(rel@ =~= dotted_path(module@));
    let mut out: Vec<String> = Vec::new();
    assert(views::texts(out@) =~= module_files(module@, all.take(0)));
    for i in 0..roots.len()
        invariant
            all == views::texts(roots@),
            rel@ == dotted_path(module@),
            views::texts(out@) == module_files(module@, all.take(i as int)),
    {
        assert(all.take(i + 1).drop_last() =~= all.take(i as int));
        assert(all.take(i + 1).last() == roots@[i as int]@);
        let root = text::chars_of(roots[i].as_str());
        let base = if path::is_cur(&root) {
            text::copy(&rel)
        } else {
            let mut b = root;
            b.push('/');
            assert(b@ =~= roots@[i as int]@ + seq!['/']);
            text::append(&mut b, &rel);
            b
        };
        let mut file = text::copy(&base);
        text::append_str(&mut file, ".py");
        let mut package = base;
        text::append_str(&mut package, "/__init__.py");
        out.push(text::string_of(&file));
        out.push(text::string_of(&package));
    }
    assert(all.take(all.len() as int) =~= all);
    out
}

// ---------------------------------------------------------------------------
// Resource lists
// ---------------------------------------------------------------------------

/// What the options of a resource list generator say: the base directory and
/// the files.
pub open spec fn grd_options(
    toks: Seq<Seq<char>>,
    base: Option<Seq<char>>,
    listed: Seq<Seq<char>>,
    taking: bool,
) -> (Option<Seq<char>>, Seq<Seq<char>>)
    decreases toks.len(),
{
    if toks.len() == 0 {
        (base, listed)
    } else if taking && !"--"@.is_prefix_of(toks[0]) {
        grd_options(toks.drop_first(), base, listed.push(toks[0]), true)
    } else if toks[0] == "--input-files-base-dir"@ {
        if toks.len() >= 2 {
            grd_options(toks.skip(2), Some(toks[1]), listed, false)
        } else {
            (None, listed)
        }
    } else {
        grd_options(toks.drop_first(), base, listed, toks[0] == "--input-files"@)
    }
}

/// What stands before the generator's place in its source tree, in the first
/// word that ends there.
pub open spec fn grd_root(toks: Seq<Seq<char>>) -> Option<Seq<char>>
    decreases toks.len(),
{
    if toks.len() == 0 {
        None
    } else {
        match text::without_suffix(toks[0], "ui/webui/resources/tools/generate_grd.py"@) {
            Some(r) => Some(r),
            None => grd_root(toks.drop_first()),
        }
    }
}

/// Each file below the base directory below the root.
pub open spec fn grd_paths(
    root: Seq<char>,
    base: Seq<char>,
    listed: Seq<Seq<char>>,
) -> Seq<Seq<char>> {
    listed.map_values(|f: Seq<char>| root + base + seq!['/'] + f)
}

/// The files that a resource list generator's command names.
pub open spec fn grd_inputs(cmd: Seq<char>) -> Seq<Seq<char>> {
    let toks = text::words(cmd);
    match grd_root(toks) {
        Some(root) => match grd_options(toks, None, Seq::empty(), false) {
            (Some(base), listed) => grd_paths(root, base, listed),
            (None, listed) => Seq::empty(),
        },
        None => Seq::empty(),
    }
}

/// The files that a resource list generator's command names, as paths in the
/// source tree that the generator itself lies in. Those that exist are inputs.
pub fn generate_grd_input_files(cmdline: &str) -> (r: Vec<String>)
    ensures
        views::texts(r@) == grd_inputs(cmdline@),
{
    let toks = text::words_of_str(cmdline);
    let ghost all = views::pieces(toks@);
    let mut root: Option<Vec<char>> = None;
    let mut i: usize = 0;
    let mut out: Vec<String> = Vec::new();
    assert(views::texts(out@) =~= Seq::<Seq<char>>::empty());
    assert(all.skip(0) =~= all);
    while i < toks.len() && root.is_none()
        invariant
            all == views::pieces(toks@),
            i <= toks.len(),
            root is Some ==> grd_root(all) == Some(root->0@),
            root is None ==> grd_root(all) == grd_root(all.skip(i as int)),
        decreases toks.len() - i,
    {
        assert(all.skip(i as int)[0] == toks@[i as int]@);
        assert(all.skip(i as int).drop_first() =~= all.skip(i + 1));
        root = text::strip_end_lit(&toks[i], "ui/webui/resources/tools/generate_grd.py");
        i += 1;
    }
    let root = match root {
        Some(r) => r,
        None => {
            return out;
        },
    };
    let mut base: Option<Vec<char>> = None;
    let mut listed: Vec<Vec<char>> = Vec::new();
    let mut taking = false;
    let mut j: usize = 0;
    assert(views::pieces(listed@) =~= Seq::<Seq<char>>::empty());
    while j < toks.len()
        invariant
            all == views::pieces(toks@),
            all == text::words(cmdline@),
            j <= toks.len(),
            grd_options(all, None, Seq::empty(), false) == grd_options(
                all.skip(j as int),
                views::opt_piece(base),
                views::pieces(listed@),
                taking,
            ),
        decreases toks.len() - j,
    {
        let ghost rest = all.skip(j as int);
        proof {
            assert(rest[0] == toks@[j as int]@);
            assert(rest.drop_first() =~= all.skip(j + 1));
        }
        if taking && !text::starts_lit(&toks[j], "--") {
            listed.push(text::copy(&toks[j]));
            j += 1;
        } else if text::is_lit(&toks[j], "--input-files-base-dir") {
            if j + 1 < toks.len() {
                assert(rest[1] == toks@[j + 1]@);
                assert(rest.skip(2) =~= all.skip(j + 2));
                base = Some(text::copy(&toks[j + 1]));
                taking = false;
                j += 2;
            } else {
                base = None;
                taking = false;
                j += 1;
            }
        } else {
            taking = text::is_lit(&toks[j], "--input-files");
            j += 1;
        }
    }
    let base = match base {
        Some(b) => b,
        None => {
            return out;
        },
    };
    let ghost want = grd_paths(root@, base@, views::pieces(listed@));
    for k in 0..listed.len()
        invariant
            want == grd_paths(root@, base@, views::pieces(listed@)),
            views::texts(out@) == want.take(k as int),
    {
        let mut p = text::concat(&root, &base);
        p.push('/');
        assert(p@ =~= root@ + base@ + seq!['/']);
        text::append(&mut p, &listed[k]);
        out.push(text::string_of(&p));
        assert(want.take(k + 1) =~= want.take(k as int).push(want[k as int]));
    }
    assert(want.take(want.len() as int) =~= want);
    out
}

// ---------------------------------------------------------------------------
// Laws
// ---------------------------------------------------------------------------

/// The documents of a command are its arguments that end in the suffix, in their
/// order, whether they are relative or absolute and whatever stands around them;
/// options are none.
pub proof fn documents_are_listed_in_order(
    a: Seq<Seq<char>>,
    d: Seq<char>,
    b: Seq<Seq<char>>,
    suffix: Seq<char>,
)
    ensures
        documents(a + b, suffix) == documents(a, suffix) + documents(b, suffix),
        documents(seq![d], suffix) == if d.len() >= suffix.len() && d.skip(d.len() - suffix.len())
            == suffix && !(d.len() > 0 && d[0] == '-') {
            seq![d]
        } else {
            Seq::<Seq<char>>::empty()
        },
    decreases b.len(),
{
    reveal_with_fuel(documents, 2);
    assert(seq![d].drop_last() =~= Seq::<Seq<char>>::empty());
    if d.len() >= suffix.len() {
        assert(d.skip(d.len() - suffix.len()) =~= d.subrange(
            d.len() - suffix.len(),
            d.len() as int,
        ));
    }
    assert(documents(seq![d], suffix) =~= if d.len() >= suffix.len() && d.skip(
        d.len() - suffix.len(),
    ) == suffix && !(d.len() > 0 && d[0] == '-') {
        seq![d]
    } else {
        Seq::<Seq<char>>::empty()
    });
    if b.len() == 0 {
        assert(a + b =~= a);
        assert(documents(a, suffix) + documents(b, suffix) =~= documents(a, suffix));
    } else {
        documents_are_listed_in_order(a, d, b.drop_last(), suffix);
        assert((a + b).drop_last() =~= a + b.drop_last());
        assert((a + b).last() == b.last());
        assert(documents(a + b, suffix) =~= documents(a, suffix) + documents(b, suffix));
    }
}

/// A command that expands inclusions reads the XML documents behind its program,
/// wherever it says that it expands them; one that writes reStructuredText reads
/// all that it names. A command without documents reads none.
pub proof fn the_tool_decides_what_is_read(args: Seq<Seq<char>>, i: int)
    requires
        0 <= i < args.len(),
    ensures
        args[i] == "--xinclude"@ && documents(args.drop_first(), ".xml"@).len() > 0
            ==> xinclude_documents(args) == Some(documents(args.drop_first(), ".xml"@)),
        documents(args.drop_first(), ".xml"@).len() == 0 ==> xinclude_documents(args) is None,
        !args.contains("--xinclude"@) ==> xinclude_documents(args) is None,
        (text::has(args[i], "rst2"@) || "pandoc-prebuilt.py"@.is_suffix_of(args[i])) && documents(
            args,
            ".rst"@,
        ).len() > 0 ==> rst_documents(args) == Some(documents(args, ".rst"@)),
        documents(args, ".rst"@).len() == 0 ==> rst_documents(args) is None,
        (forall|j: int|
            0 <= j < args.len() ==> !text::has(#[trigger] args[j], "rst2"@)
                && !"pandoc-prebuilt.py"@.is_suffix_of(args[j])) ==> rst_documents(args) is None,
{
    if args[i] == "--xinclude"@ {
        assert(args.contains(args[i]));
    }
}

/// What TableGen reads stands behind the first argument that runs it.
pub proof fn tablegen_reads_what_follows_it(
    a: Seq<Seq<char>>,
    tool: Seq<char>,
    b: Seq<Seq<char>>,
)
    requires
        forall|i: int| 0 <= i < a.len() ==> !is_tblgen(#[trigger] a[i]),
        !(tool.len() > 0 && tool[0] == '-'),
        path::file_name(tool) matches Some(n) && text::has(n, "tblgen"@),
    ensures
        tblgen_run(a + seq![tool] + b) == tblgen_reads(b, None, Seq::empty()),
        tblgen_run(a) is None,
    decreases a.len(),
{
    let s = a + seq![tool] + b;
    if a.len() == 0 {
        assert(s[0] == tool);
        assert(s.drop_first() =~= b);
    } else {
        let f = a.drop_first();
        assert forall|i: int| 0 <= i < f.len() implies !is_tblgen(#[trigger] f[i]) by {
            assert(f[i] == a[i + 1]);
        }
        tablegen_reads_what_follows_it(f, tool, b);
        assert(s[0] == a[0]);
        assert(s.drop_first() =~= f + seq![tool] + b);
    }
}

/// TableGen searches the directory of every `-I`, glued to it or behind it, in
/// their order, and reads the first description that is named, relative or not.
pub proof fn tablegen_takes_directories_and_one_description(
    w: Seq<char>,
    rest: Seq<Seq<char>>,
    seed: Option<Seq<char>>,
    dirs: Seq<Seq<char>>,
)
    ensures
        w.len() > 0 ==> tblgen_reads(seq!["-I"@ + w] + rest, seed, dirs) == tblgen_reads(
            rest,
            seed,
            dirs.push(w),
        ),
        tblgen_reads(seq!["-I"@, w] + rest, seed, dirs) == tblgen_reads(rest, seed, dirs.push(w)),
        !"-I"@.is_prefix_of(w) && !(".td"@.is_suffix_of(w) && !(w.len() > 0 && w[0] == '-')
            && seed is None) ==> tblgen_reads(seq![w] + rest, seed, dirs) == tblgen_reads(
            rest,
            seed,
            dirs,
        ),
        ".td"@.is_suffix_of(w) && w[0] != '-' ==> tblgen_reads(seq![w] + rest, None, dirs)
            == tblgen_reads(rest, Some(w), dirs),
        tblgen_reads(Seq::empty(), seed, dirs) == match seed {
            Some(s) => Some((s, dirs)),
            None => None,
        },
{
    reveal_strlit("-I");
    reveal_strlit(".td");
    let glued = "-I"@ + w;
    assert("-I"@.is_prefix_of(glued));
    assert(glued.skip(2) =~= w);
    assert((seq![glued] + rest).drop_first() =~= rest);
    assert((seq![glued] + rest)[0] == glued);
    let apart = seq!["-I"@, w] + rest;
    assert(apart[0] == "-I"@ && apart[1] == w);
    assert(apart.skip(2) =~= rest);
    assert("-I"@.skip(2).len() == 0);
    assert((seq![w] + rest).drop_first() =~= rest);
    assert((seq![w] + rest)[0] == w);
    if ".td"@.is_suffix_of(w) && w[0] != '-' {
        if "-I"@.is_prefix_of(w) {
            assert(w.subrange(0, 2)[0] == w[0]);
        }
    }
}

/// The script of a cmake run is the argument behind its first `-P`.
pub proof fn the_script_stands_behind_its_option(
    a: Seq<Seq<char>>,
    script: Seq<char>,
    b: Seq<Seq<char>>,
)
    requires
        !a.contains("-P"@),
    ensures
        script_of(a + seq!["-P"@, script] + b) == Some(script),
        script_of(a) is None,
        script_of(a + seq!["-P"@]) is None,
    decreases a.len(),
{
    let s = a + seq!["-P"@, script] + b;
    let t = a + seq!["-P"@];
    if a.len() == 0 {
        assert(s[0] == "-P"@ && s[1] == script);
        assert(t[0] == "-P"@ && t.len() == 1);
    } else {
        let f = a.drop_first();
        assert(a.contains(a[0]));
        if f.contains("-P"@) {
            let i = choose|i: int| 0 <= i < f.len() && f[i] == "-P"@;
            assert(a[i + 1] == "-P"@);
        }
        the_script_stands_behind_its_option(f, script, b);
        assert(s[0] == a[0] && t[0] == a[0]);
        assert(s.drop_first() =~= f + seq!["-P"@, script] + b);
        assert(t.drop_first() =~= f + seq!["-P"@]);
    }
}

/// A definition sets its name to its value, glued to `-D` or behind it, with a
/// type or without; the value is all that follows the first equals sign. Later
/// definitions stand. Other arguments define nothing.
pub proof fn definitions_are_taken_in_order(
    name: Seq<char>,
    kind: Seq<char>,
    value: Seq<char>,
    rest: Seq<Seq<char>>,
    vars: Map<Seq<char>, Seq<char>>,
)
    requires
        !name.contains('=') && !name.contains(':'),
        !kind.contains('='),
    ensures
        definitions(seq!["-D"@ + (name + seq!['='] + value)] + rest, vars) == definitions(
            rest,
            vars.insert(name, value),
        ),
        definitions(seq!["-D"@, name + seq!['='] + value] + rest, vars) == definitions(
            rest,
            vars.insert(name, value),
        ),
        definitions(seq!["-D"@ + (name + seq![':'] + kind + seq!['='] + value)] + rest, vars)
            == definitions(rest, vars.insert(name, value)),
        !"-D"@.is_prefix_of(value) ==> definitions(seq![value] + rest, vars) == definitions(
            rest,
            vars,
        ),
        definitions(Seq::empty(), vars) == vars,
{
    reveal_strlit("-D");
    let plain = name + seq!['='] + value;
    let typed = name + seq![':'] + kind + seq!['='] + value;
    text::once_parts(name, value, '=');
    let left = name + seq![':'] + kind;
    assert(!left.contains('=')) by {
        if left.contains('=') {
            let i = choose|i: int| 0 <= i < left.len() && left[i] == '=';
            if i < name.len() {
                assert(name[i] == '=');
            } else if i > name.len() {
                assert(kind[i - name.len() - 1] == '=');
            }
        }
    }
    assert(typed =~= left + seq!['='] + value);
    text::once_parts(left, value, '=');
    text::once_parts(name, kind, ':');
    text::once_whole(name, ':');
    assert(untyped(name) == name);
    assert(untyped(left) == name);
    let g = "-D"@ + plain;
    let h = "-D"@ + typed;
    assert(g.skip(2) =~= plain && h.skip(2) =~= typed);
    assert("-D"@.is_prefix_of(g) && "-D"@.is_prefix_of(h));
    assert(g.len() > 2 && h.len() > 2);
    assert((seq![g] + rest).drop_first() =~= rest && (seq![g] + rest)[0] == g);
    assert((seq![h] + rest).drop_first() =~= rest && (seq![h] + rest)[0] == h);
    let two = seq!["-D"@, plain] + rest;
    assert(two.skip(2) =~= rest && two[0] == "-D"@ && two[1] == plain);
    assert((seq![value] + rest).drop_first() =~= rest && (seq![value] + rest)[0] == value);
}

/// A module is run by `-m` behind a python and its options; it is looked for in
/// the directories that `PYTHONPATH` names, in their order, and then in the
/// working directory. Nothing else in front of `-m` makes it another command.
pub proof fn modules_are_run_by_python(
    w: Seq<char>,
    rest: Seq<Seq<char>>,
    roots: Seq<Seq<char>>,
    seen: bool,
)
    ensures
        module_run(seq!["PYTHONPATH="@ + w] + rest, roots, seen) == module_run(
            rest,
            roots + text::nonempty(text::split(w, Class::Only(':'))),
            seen,
        ),
        !"PYTHONPATH="@.is_prefix_of(w) ==> module_run(seq![w] + rest, roots, false) == module_run(
            rest,
            roots,
            "python"@.is_prefix_of(text::after_last(w, '/')),
        ),
        w.len() > 0 && w[0] != '-' ==> module_run(seq!["-m"@, w] + rest, roots, true) == Some(
            (w, roots.push(seq!['.'])),
        ),
        w.len() == 0 || w[0] == '-' ==> module_run(seq!["-m"@, w] + rest, roots, true) is None,
        w.len() > 0 && w[0] == '-' && w != "-m"@ ==> module_run(seq![w] + rest, roots, true)
            == module_run(rest, roots, true),
        !"PYTHONPATH="@.is_prefix_of(w) && !(w.len() > 0 && w[0] == '-') ==> module_run(
            seq![w] + rest,
            roots,
            true,
        ) is None,
        module_run(Seq::empty(), roots, seen) is None,
{
    reveal_strlit("PYTHONPATH=");
    reveal_strlit("-m");
    let p = "PYTHONPATH="@ + w;
    assert("PYTHONPATH="@.is_prefix_of(p));
    assert(p.skip(11) =~= w);
    assert((seq![p] + rest).drop_first() =~= rest && (seq![p] + rest)[0] == p);
    assert((seq![w] + rest).drop_first() =~= rest && (seq![w] + rest)[0] == w);
    let two = seq!["-m"@, w] + rest;
    assert(two.drop_first() =~= seq![w] + rest && two[0] == "-m"@ && two[1] == w);
    assert(!"PYTHONPATH="@.is_prefix_of("-m"@));
    if w.len() > 0 && w[0] == '-' {
        assert(!"PYTHONPATH="@.is_prefix_of(w));
    }
    assert(path::cur() =~= seq!['.']);
}

/// Under every root a module may be a file or a package, in this order; its dots
/// are slashes. In the working directory no root is spelled.
pub proof fn modules_are_files_or_packages(
    module: Seq<char>,
    a: Seq<Seq<char>>,
    root: Seq<char>,
    b: Seq<Seq<char>>,
)
    ensures
        module_files(module, a + b) == module_files(module, a) + module_files(module, b),
        root != seq!['.'] ==> module_files(module, seq![root]) == seq![
            root + seq!['/'] + dotted_path(module) + ".py"@,
            root + seq!['/'] + dotted_path(module) + "/__init__.py"@,
        ],
        module_files(module, seq![seq!['.']]) == seq![
            dotted_path(module) + ".py"@,
            dotted_path(module) + "/__init__.py"@,
        ],
        dotted_path(module).len() == module.len(),
        forall|i: int|
            0 <= i < module.len() ==> #[trigger] dotted_path(module)[i] == if module[i] == '.' {
                '/'
            } else {
                module[i]
            },
    decreases b.len(),
{
    reveal_with_fuel(module_files, 2);
    let here = seq!['.'];
    assert(path::cur() =~= here);
    assert(seq![root].drop_last() =~= Seq::<Seq<char>>::empty());
    assert(seq![here].drop_last() =~= Seq::<Seq<char>>::empty());
    if root != here {
        assert(module_files(module, seq![root]) =~= seq![
            root + seq!['/'] + dotted_path(module) + ".py"@,
            root + seq!['/'] + dotted_path(module) + "/__init__.py"@,
        ]);
    }
    assert(module_files(module, seq![here]) =~= seq![
        dotted_path(module) + ".py"@,
        dotted_path(module) + "/__init__.py"@,
    ]);
    if b.len() == 0 {
        assert(a + b =~= a);
        assert(module_files(module, a) + module_files(module, b) =~= module_files(module, a));
    } else {
        modules_are_files_or_packages(module, a, root, b.drop_last());
        assert((a + b).drop_last() =~= a + b.drop_last());
        assert((a + b).last() == b.last());
        assert(module_files(module, a + b) =~= module_files(module, a) + module_files(module, b));
    }
}

/// The files of a resource list generator are all words behind `--input-files` up
/// to the next option; its base directory follows its own option.
pub proof fn listed_files_follow_their_option(
    w: Seq<char>,
    rest: Seq<Seq<char>>,
    base: Option<Seq<char>>,
    listed: Seq<Seq<char>>,
    taking: bool,
)
    ensures
        grd_options(Seq::empty(), base, listed, taking) == (base, listed),
        grd_options(seq!["--input-files"@] + rest, base, listed, taking) == grd_options(
            rest,
            base,
            listed,
            true,
        ),
        !"--"@.is_prefix_of(w) ==> grd_options(seq![w] + rest, base, listed, true) == grd_options(
            rest,
            base,
            listed.push(w),
            true,
        ),
        grd_options(seq!["--input-files-base-dir"@, w] + rest, base, listed, taking)
            == grd_options(rest, Some(w), listed, false),
        w != "--input-files"@ && w != "--input-files-base-dir"@ && (!taking || "--"@.is_prefix_of(
            w,
        )) ==> grd_options(seq![w] + rest, base, listed, taking) == grd_options(
            rest,
            base,
            listed,
            false,
        ),
{
    reveal_strlit("--");
    reveal_strlit("--input-files");
    reveal_strlit("--input-files-base-dir");
    let f = "--input-files"@;
    let d = "--input-files-base-dir"@;
    assert("--"@.is_prefix_of(f) && "--"@.is_prefix_of(d));
    assert(f.len() != d.len());
    assert((seq![f] + rest).drop_first() =~= rest && (seq![f] + rest)[0] == f);
    assert((seq![w] + rest).drop_first() =~= rest && (seq![w] + rest)[0] == w);
    let two = seq![d, w] + rest;
    assert(two.skip(2) =~= rest && two[0] == d && two[1] == w);
    if !"--"@.is_prefix_of(w) {
        assert(w != d);
    }
}

/// The source tree is what stands before the generator's place in the first word
/// that ends there; every listed file lies in its base directory.
pub proof fn listed_files_lie_in_the_source_tree(
    a: Seq<Seq<char>>,
    root: Seq<char>,
    b: Seq<Seq<char>>,
    base: Seq<char>,
    listed: Seq<Seq<char>>,
    i: int,
)
    requires
        forall|j: int|
            0 <= j < a.len() ==> !"ui/webui/resources/tools/generate_grd.py"@.is_suffix_of(
                #[trigger] a[j],
            ),
        0 <= i < listed.len(),
    ensures
        grd_root(a + seq![root + "ui/webui/resources/tools/generate_grd.py"@] + b) == Some(root),
        grd_root(a) is None,
        grd_paths(root, base, listed).len() == listed.len(),
        grd_paths(root, base, listed)[i] == root + base + seq!['/'] + listed[i],
    decreases a.len(),
{
    let g = "ui/webui/resources/tools/generate_grd.py"@;
    let w = root + g;
    let s = a + seq![w] + b;
    if a.len() == 0 {
        assert(s[0] == w);
        assert(w.subrange(w.len() - g.len(), w.len() as int) =~= g);
        assert(g.is_suffix_of(w));
        assert(w.take(w.len() - g.len()) =~= root);
    } else {
        let f = a.drop_first();
        assert forall|j: int| 0 <= j < f.len() implies !g.is_suffix_of(#[trigger] f[j]) by {
            assert(f[j] == a[j + 1]);
        }
        listed_files_lie_in_the_source_tree(f, root, b, base, listed, i);
        assert(s[0] == a[0]);
        assert(s.drop_first() =~= f + seq![w] + b);
    }
}

} // verus!
