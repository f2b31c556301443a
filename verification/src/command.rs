//! What a command line says: which program it runs, whether it compiles, which
//! files its linker options name, whether it asks for link-time optimisation
//! or for a dependency file.
use crate::outside;
use crate::path;
use crate::text;
use crate::text::Class;
use crate::views;
use vstd::prelude::*;
use vstd::utf8::encode_utf8;

verus! {

broadcast use {views::texts_push, views::pieces_push};

/// Variables of the compiler wrappers that a task needs, and two lookup paths.
pub open spec fn is_forwarded(key: Seq<char>) -> bool {
    ||| "NIX_CFLAGS_COMPILE"@.is_prefix_of(key)
    ||| "NIX_LDFLAGS"@.is_prefix_of(key)
    ||| "NIX_CC_WRAPPER"@.is_prefix_of(key)
    ||| "NIX_BINTOOLS_WRAPPER"@.is_prefix_of(key)
    ||| "NIX_HARDENING_ENABLE"@.is_prefix_of(key)
    ||| key == "XML_CATALOG_FILES"@
    ||| key == "PYTHONPATH"@
}

/// Whether an environment variable is passed on to the tasks.
pub fn forwarded_to_tasks(key: &str) -> (r: bool)
    ensures
        r == is_forwarded(key@),
{
    let k = text::chars_of(key);
    text::starts_lit(&k, "NIX_CFLAGS_COMPILE") || text::starts_lit(&k, "NIX_LDFLAGS")
        || text::starts_lit(&k, "NIX_CC_WRAPPER") || text::starts_lit(&k, "NIX_BINTOOLS_WRAPPER")
        || text::starts_lit(&k, "NIX_HARDENING_ENABLE") || text::is_lit(&k, "XML_CATALOG_FILES")
        || text::is_lit(&k, "PYTHONPATH")
}

// ---------------------------------------------------------------------------
// Compiling
// ---------------------------------------------------------------------------

/// The name of a shell.
pub open spec fn is_shell_name(n: Seq<char>) -> bool {
    n == "sh"@ || n == "bash"@ || n == "dash"@ || n == "zsh"@ || n == "ksh"@
}

/// The `-c` at `i` is a compiler's: the word before it is no shell.
pub open spec fn compiles_at(args: Seq<Seq<char>>, i: int) -> bool {
    args[i] == "-c"@ && !(i > 0 && is_shell_name(text::after_last(args[i - 1], '/')))
}

/// Some word asks a compiler to compile.
pub open spec fn args_compile(args: Seq<Seq<char>>) -> bool {
    exists|i: int| 0 <= i < args.len() && #[trigger] compiles_at(args, i)
}

/// Whether a command, given by its words, asks a compiler to compile.
pub fn words_compile(args: &Vec<String>) -> (r: bool)
    ensures
        r == args_compile(views::texts(args@)),
{
    let ghost all = views::texts(args@);
    for i in 0..args.len()
        invariant
            all == views::texts(args@),
            forall|j: int| 0 <= j < i ==> !#[trigger] compiles_at(all, j),
    {
        assert(all[i as int] == args@[i as int]@);
        if text::same_str(args[i].as_str(), "-c") {
            if i == 0 {
                assert(compiles_at(all, 0));
                return true;
            }
            let before = text::chars_of(args[i - 1].as_str());
            assert(all[i - 1] == before@);
            let n = text::behind_last(&before, '/');
            if !(text::is_lit(&n, "sh") || text::is_lit(&n, "bash") || text::is_lit(&n, "dash")
                || text::is_lit(&n, "zsh") || text::is_lit(&n, "ksh")) {
                assert(compiles_at(all, i as int));
                return true;
            }
        }
    }
    false
}

/// The words of a command line as a shell reads them; none where a quote is left open.
pub fn command_words(cmdline: &str) -> (r: Option<Vec<String>>)
    ensures
        views::opt_texts(r) == outside::shell_split(cmdline@),
{
    outside::shell_words_of(cmdline)
}

/// Whether a command asks a compiler to compile; a `-c` that belongs to a
/// shell does not count, nor does a command that is no sequence of words.
pub fn command_is_compile(cmdline: Option<&str>) -> (r: bool)
    ensures
        r == match cmdline {
            Some(c) => match outside::shell_split(c@) {
                Some(args) => args_compile(args),
                None => false,
            },
            None => false,
        },
{
    match cmdline {
        Some(c) => match outside::shell_words_of(c) {
            Some(args) => words_compile(&args),
            None => false,
        },
        None => false,
    }
}

/// Some word of the text is the given one.
pub open spec fn has_word(s: Seq<char>, w: Seq<char>) -> bool {
    text::words(s).contains(w)
}

/// Whether a list of pieces holds a literal.
pub fn piece_listed(v: &Vec<Vec<char>>, lit: &str) -> (r: bool)
    ensures
        r == views::pieces(v@).contains(lit@),
{
    let ghost all = views::pieces(v@);
    for i in 0..v.len()
        invariant
            all == views::pieces(v@),
            forall|j: int| 0 <= j < i ==> all[j] != lit@,
    {
        if text::is_lit(&v[i], lit) {
            assert(all[i as int] == lit@);
            return true;
        }
    }
    false
}

/// Whether a compile uses a precompiled header. Its dependency file then
/// leaves out every header that is inside.
pub fn uses_precompiled_header(cmdline: &str) -> (r: bool)
    ensures
        r == has_word(cmdline@, "-include"@),
{
    let ws = text::words_of_str(cmdline);
    piece_listed(&ws, "-include")
}

/// The gcc wrappers of the binary utilities that a command names.
pub open spec fn named_tools(cmd: Seq<char>) -> Seq<Seq<char>> {
    let toks = text::split(cmd, Class::SpaceOrQuote);
    let a = if toks.contains("gcc-ar"@) {
        seq!["gcc-ar"@]
    } else {
        Seq::empty()
    };
    let b = if toks.contains("gcc-nm"@) {
        a.push("gcc-nm"@)
    } else {
        a
    };
    if toks.contains("gcc-ranlib"@) {
        b.push("gcc-ranlib"@)
    } else {
        b
    }
}

/// The gcc wrappers of the binary utilities that a command names as whole
/// words, quotes around them or not.
pub fn gcc_toolchain_tools_named(cmdline: &str) -> (r: Vec<String>)
    ensures
        views::texts(r@) == named_tools(cmdline@),
{
    let c = text::chars_of(cmdline);
    let toks = text::split_by(&c, Class::SpaceOrQuote);
    let mut out: Vec<String> = Vec::new();
    assert(views::texts(out@) =~= Seq::<Seq<char>>::empty());
    if piece_listed(&toks, "gcc-ar") {
        let t = text::chars_of("gcc-ar");
        out.push(text::string_of(&t));
        assert(views::texts(out@) =~= seq!["gcc-ar"@]);
    }
    if piece_listed(&toks, "gcc-nm") {
        let t = text::chars_of("gcc-nm");
        out.push(text::string_of(&t));
    }
    if piece_listed(&toks, "gcc-ranlib") {
        let t = text::chars_of("gcc-ranlib");
        out.push(text::string_of(&t));
    }
    out
}

// ---------------------------------------------------------------------------
// Link-time optimisation
// ---------------------------------------------------------------------------

/// A flag that asks for link-time optimisation.
pub open spec fn is_lto_flag(w: Seq<char>) -> bool {
    w == "-flto"@ || "-flto="@.is_prefix_of(w)
}

fn lto_flag(w: &Vec<char>) -> (r: bool)
    ensures
        r == is_lto_flag(w@),
{
    text::is_lit(w, "-flto") || text::starts_lit(w, "-flto=")
}

/// Some word, its quotes removed, asks for link-time optimisation.
pub open spec fn any_quoted_lto(ws: Seq<Seq<char>>) -> bool {
    exists|i: int|
        0 <= i < ws.len() && is_lto_flag(text::trim(#[trigger] ws[i], Class::Quote))
}

/// Some word asks for link-time optimisation.
pub open spec fn any_lto(ws: Seq<Seq<char>>) -> bool {
    exists|i: int| 0 <= i < ws.len() && is_lto_flag(#[trigger] ws[i])
}

/// The command, or the flags that the compiler wrapper puts in front, ask for
/// link-time optimisation.
pub open spec fn needs_make(cmd: Seq<char>, wrapper_flags: Option<Seq<char>>) -> bool {
    any_quoted_lto(text::words(cmd)) || (wrapper_flags matches Some(f) && any_lto(text::words(f)))
}

/// Whether a link needs `make`, which gcc runs for parallel link-time
/// optimisation: by a flag of the command, or by one that the compiler wrapper
/// puts in front, whose file contents are given where there is such a file.
pub fn lto_needs_make(cmdline: &str, wrapper_flags: Option<&str>) -> (r: bool)
    ensures
        r == needs_make(cmdline@, views::opt_str(wrapper_flags)),
{
    let ws = text::words_of_str(cmdline);
    let ghost all = views::pieces(ws@);
    for i in 0..ws.len()
        invariant
            all == views::pieces(ws@),
            all == text::words(cmdline@),
            forall|j: int|
                0 <= j < i ==> !is_lto_flag(text::trim(#[trigger] all[j], Class::Quote)),
    {
        let t = text::trimmed(&ws[i], Class::Quote);
        if lto_flag(&t) {
            assert(is_lto_flag(text::trim(all[i as int], Class::Quote)));
            return true;
        }
    }
    match wrapper_flags {
        Some(f) => {
            let fs = text::words_of_str(f);
            let ghost fl = views::pieces(fs@);
            for i in 0..fs.len()
                invariant
                    fl == views::pieces(fs@),
                    fl == text::words(f@),
                    wrapper_flags == Some(f),
                    forall|j: int| 0 <= j < i ==> !is_lto_flag(#[trigger] fl[j]),
            {
                if lto_flag(&fs[i]) {
                    assert(is_lto_flag(fl[i as int]));
                    return true;
                }
            }
            false
        },
        None => false,
    }
}

/// What the last flag about link-time optimisation says; `start` where there is none.
pub open spec fn lto_state(ws: Seq<Seq<char>>, start: bool) -> bool
    decreases ws.len(),
{
    if ws.len() == 0 {
        start
    } else if ws.last() == "-fno-lto"@ {
        false
    } else if is_lto_flag(ws.last()) {
        true
    } else {
        lto_state(ws.drop_last(), start)
    }
}

/// What the last flag about link-time optimisation says; `start` where there is none.
pub fn scan_lto_flags(flags: &str, start: bool) -> (r: bool)
    ensures
        r == lto_state(text::words(flags@), start),
{
    let ws = text::words_of_str(flags);
    let ghost all = views::pieces(ws@);
    let mut lto = start;
    for i in 0..ws.len()
        invariant
            all == views::pieces(ws@),
            lto == lto_state(all.take(i as int), start),
    {
        assert(all.take(i + 1).drop_last() =~= all.take(i as int));
        assert(all.take(i + 1).last() == ws@[i as int]@);
        if text::is_lit(&ws[i], "-fno-lto") {
            lto = false;
        } else if lto_flag(&ws[i]) {
            lto = true;
        }
    }
    assert(all.take(all.len() as int) =~= all);
    lto
}

/// Whether a compile produces link-time optimisation code: the environment's
/// assumption, then the command's flags, then the wrapper's flags, which come last.
pub open spec fn compiles_lto(
    cmd: Seq<char>,
    wrapper_flags: Option<Seq<char>>,
    assumed: bool,
) -> bool {
    let after = lto_state(text::words(cmd), assumed);
    match wrapper_flags {
        Some(f) => lto_state(text::words(f), after),
        None => after,
    }
}

/// Whether a compile produces link-time optimisation code.
pub fn task_is_lto(cmdline: &str, wrapper_flags: Option<&str>, assumed: bool) -> (r: bool)
    ensures
        r == compiles_lto(cmdline@, views::opt_str(wrapper_flags), assumed),
{
    let after = scan_lto_flags(cmdline, assumed);
    match wrapper_flags {
        Some(f) => scan_lto_flags(f, after),
        None => after,
    }
}

// ---------------------------------------------------------------------------
// Linker options
// ---------------------------------------------------------------------------

/// A linker option whose value the linker writes.
pub open spec fn is_output_option(f: Seq<char>) -> bool {
    f == "--dependency-file"@ || f == "-Map"@ || f == "--Map"@ || f == "--out-implib"@
}

/// A linker option whose value is a name and no file.
pub open spec fn is_name_option(f: Seq<char>) -> bool {
    f == "-soname"@ || f == "--soname"@ || f == "-h"@
}

/// The option before an equals sign, or the whole element.
pub open spec fn option_part(el: Seq<char>) -> Seq<char> {
    match text::split_once(el, '=') {
        Some((f, v)) => f,
        None => el,
    }
}

/// The value behind an equals sign, or the whole element; its quotes removed.
pub open spec fn value_part(el: Seq<char>) -> Seq<char> {
    match text::split_once(el, '=') {
        Some((f, v)) => text::trim(v, Class::Quote),
        None => text::trim(el, Class::Quote),
    }
}

/// The elements of a group that may name an input file. An option whose value
/// is no input takes its value along, be it behind an equals sign or the next element.
pub open spec fn wl_files(els: Seq<Seq<char>>, skip_next: bool) -> Seq<Seq<char>>
    decreases els.len(),
{
    if els.len() == 0 {
        Seq::empty()
    } else {
        let el = els[0];
        let rest = els.drop_first();
        if skip_next {
            wl_files(rest, false)
        } else if is_output_option(option_part(el)) || is_name_option(option_part(el)) {
            wl_files(rest, text::split_once(el, '=') is None)
        } else if value_part(el).len() > 0 && value_part(el)[0] != '-' {
            seq![value_part(el)] + wl_files(rest, false)
        } else {
            wl_files(rest, false)
        }
    }
}

/// The elements of a `-Wl,` group that may name an input file.
pub fn wl_file_candidates(group: &str) -> (r: Vec<String>)
    ensures
        views::texts(r@) == wl_files(text::split(group@, Class::Only(',')), false),
{
    let c = text::chars_of(group);
    let els = text::split_by(&c, Class::Only(','));
    let ghost all = views::pieces(els@);
    let mut out: Vec<String> = Vec::new();
    let mut skip_next = false;
    assert(all.skip(0) =~= all);
    assert(views::texts(out@) + wl_files(all, false) =~= wl_files(all, false));
    for i in 0..els.len()
        invariant
            all == views::pieces(els@),
            wl_files(all, false) == views::texts(out@) + wl_files(all.skip(i as int), skip_next),
    {
        let ghost before = views::texts(out@);
        proof {
            assert(all.skip(i as int)[0] == els@[i as int]@);
            assert(all.skip(i as int).drop_first() =~= all.skip(i + 1));
        }
        if skip_next {
            skip_next = false;
        } else {
            let parts = text::cut_once(&els[i], '=');
            let plain = parts.is_none();
            let (flag, value) = match parts {
                Some((f, v)) => (f, text::trimmed(&v, Class::Quote)),
                None => (text::copy(&els[i]), text::trimmed(&els[i], Class::Quote)),
            };
            if text::is_lit(&flag, "--dependency-file") || text::is_lit(&flag, "-Map")
                || text::is_lit(&flag, "--Map") || text::is_lit(&flag, "--out-implib")
                || text::is_lit(&flag, "-soname") || text::is_lit(&flag, "--soname")
                || text::is_lit(&flag, "-h") {
                skip_next = plain;
            } else if value.len() > 0 && value[0] != '-' {
                out.push(text::string_of(&value));
                assert(before.push(value@) + wl_files(all.skip(i + 1), false) =~= before + (
                seq![value@] + wl_files(all.skip(i + 1), false)));
            }
        }
    }
    assert(all.skip(all.len() as int) =~= Seq::<Seq<char>>::empty());
    assert(views::texts(out@) + wl_files(Seq::empty(), skip_next) =~= views::texts(out@));
    out
}

/// The groups of a command's words that start with `-Wl,`.
pub open spec fn wl_command_files(ws: Seq<Seq<char>>) -> Seq<Seq<char>>
    decreases ws.len(),
{
    if ws.len() == 0 {
        Seq::empty()
    } else {
        match text::without_prefix(ws.last(), "-Wl,"@) {
            Some(group) => wl_command_files(ws.drop_last()) + wl_files(
                text::split(group, Class::Only(',')),
                false,
            ),
            None => wl_command_files(ws.drop_last()),
        }
    }
}

/// The files that a command's linker options may name.
pub fn linker_files(cmdline: &str) -> (r: Vec<String>)
    ensures
        views::texts(r@) == wl_command_files(text::words(cmdline@)),
{
    let ws = text::words_of_str(cmdline);
    let ghost all = views::pieces(ws@);
    let mut out: Vec<String> = Vec::new();
    assert(views::texts(out@) =~= wl_command_files(all.take(0)));
    for i in 0..ws.len()
        invariant
            all == views::pieces(ws@),
            views::texts(out@) == wl_command_files(all.take(i as int)),
    {
        assert(all.take(i + 1).drop_last() =~= all.take(i as int));
        assert(all.take(i + 1).last() == ws@[i as int]@);
        if let Some(group) = text::strip_lit(&ws[i], "-Wl,") {
            let g = text::string_of(&group);
            let mut more = wl_file_candidates(g.as_str());
            let ghost before = out@;
            let ghost added = more@;
            out.append(&mut more);
            assert(views::texts(out@) =~= views::texts(before) + views::texts(added));
        }
    }
    assert(all.take(all.len() as int) =~= all);
    out
}

// ---------------------------------------------------------------------------
// Dependency files
// ---------------------------------------------------------------------------

/// A flag that makes a compiler or a linker write a dependency file.
pub open spec fn writes_deps(w: Seq<char>) -> bool {
    ||| w == "-M"@
    ||| w == "-MM"@
    ||| w == "-MD"@
    ||| w == "-MMD"@
    ||| w == "-MG"@
    ||| text::has(w, "--dependency-file"@)
}

/// Some word of the text makes a dependency file appear.
pub open spec fn text_writes_deps(s: Seq<char>) -> bool {
    exists|i: int| 0 <= i < text::words(s).len() && writes_deps(#[trigger] text::words(s)[i])
}

fn line_writes_deps(s: &str) -> (r: bool)
    ensures
        r == text_writes_deps(s@),
{
    let ws = text::words_of_str(s);
    let ghost all = views::pieces(ws@);
    for i in 0..ws.len()
        invariant
            all == views::pieces(ws@),
            all == text::words(s@),
            forall|j: int| 0 <= j < i ==> !writes_deps(#[trigger] all[j]),
    {
        let w = &ws[i];
        if text::is_lit(w, "-M") || text::is_lit(w, "-MM") || text::is_lit(w, "-MD")
            || text::is_lit(w, "-MMD") || text::is_lit(w, "-MG") || text::contains_lit(
            w,
            "--dependency-file",
        ) {
            assert(writes_deps(all[i as int]));
            return true;
        }
    }
    false
}

/// The command or its response file writes a dependency file.
pub open spec fn writes_depfile(cmd: Option<Seq<char>>, rsp: Option<Seq<char>>) -> bool {
    (cmd matches Some(c) && text_writes_deps(c)) || (rsp matches Some(c) && text_writes_deps(c))
}

/// Whether a command writes a dependency file. Naming one does not make it
/// appear: only a flag that asks for it does, here or in the response file.
pub fn command_writes_depfile(cmdline: Option<&str>, rsp: Option<&str>) -> (r: bool)
    ensures
        r == writes_depfile(views::opt_str(cmdline), views::opt_str(rsp)),
{
    let a = match cmdline {
        Some(c) => line_writes_deps(c),
        None => false,
    };
    let b = match rsp {
        Some(c) => line_writes_deps(c),
        None => false,
    };
    a || b
}

/// The dependency file that a task declares as an output.
pub open spec fn accepted_depfile(
    depfile: Option<Seq<char>>,
    deps: Option<Seq<char>>,
    cmd: Option<Seq<char>>,
    rsp: Option<Seq<char>>,
) -> Option<Seq<char>> {
    match depfile {
        Some(d) => if deps == Some("gcc"@) && d.len() > 0 && writes_depfile(cmd, rsp)
            && !path::is_abs(d) && !path::escapes(d) {
            Some(d)
        } else {
            None
        },
        None => None,
    }
}

/// The dependency file that a task declares as an output: the edge declares
/// gcc's style and names one, the command writes it, and it lies in the build directory.
pub fn accepted_depfile_output_of(
    depfile: Option<&str>,
    deps: Option<&str>,
    cmdline: Option<&str>,
    rspfile_content: Option<&str>,
) -> (r: Option<String>)
    ensures
        views::opt_text(r) == accepted_depfile(
            views::opt_str(depfile),
            views::opt_str(deps),
            views::opt_str(cmdline),
            views::opt_str(rspfile_content),
        ),
{
    let gcc = match deps {
        Some(d) => text::same_str(d, "gcc"),
        None => false,
    };
    match depfile {
        Some(d) => {
            let p = text::chars_of(d);
            if !gcc || p.len() == 0 || !command_writes_depfile(cmdline, rspfile_content) {
                return None;
            }
            if path::absolute(&p) || path::leads_out(&p) {
                None
            } else {
                Some(text::string_of(&p))
            }
        },
        None => None,
    }
}

// ---------------------------------------------------------------------------
// Seeds
// ---------------------------------------------------------------------------

/// The words that do not set gcc's random seed.
pub open spec fn unseeded(ws: Seq<Seq<char>>) -> Seq<Seq<char>>
    decreases ws.len(),
{
    if ws.len() == 0 {
        Seq::empty()
    } else if "-frandom-seed="@.is_prefix_of(ws.last()) {
        unseeded(ws.drop_last())
    } else {
        unseeded(ws.drop_last()).push(ws.last())
    }
}

/// Compiler flags without those that set gcc's random seed.
pub fn remove_frandom_seed(flags: &str) -> (r: String)
    ensures
        r@ == text::join(unseeded(text::words(flags@)), " "@),
{
    let ws = text::words_of_str(flags);
    let ghost all = views::pieces(ws@);
    let mut kept: Vec<Vec<char>> = Vec::new();
    assert(views::pieces(kept@) =~= unseeded(all.take(0)));
    for i in 0..ws.len()
        invariant
            all == views::pieces(ws@),
            views::pieces(kept@) == unseeded(all.take(i as int)),
    {
        assert(all.take(i + 1).drop_last() =~= all.take(i as int));
        assert(all.take(i + 1).last() == ws@[i as int]@);
        if !text::starts_lit(&ws[i], "-frandom-seed=") {
            kept.push(text::copy(&ws[i]));
        }
    }
    assert(all.take(all.len() as int) =~= all);
    let r = text::joined(&kept, " ");
    text::string_of(&r)
}

/// The hexadecimal digit `d`, in lower case.
pub open spec fn hex_digit(d: int) -> char {
    "0123456789abcdef"@[d]
}

/// Bytes in hexadecimal, two digits each.
pub open spec fn hex(bytes: Seq<u8>) -> Seq<char>
    decreases bytes.len(),
{
    if bytes.len() == 0 {
        Seq::empty()
    } else {
        hex(bytes.drop_last()).push(hex_digit(bytes.last() as int / 16)).push(
            hex_digit(bytes.last() as int % 16),
        )
    }
}

/// The random seed for a command: the first 16 hexadecimal digits of its SHA-256 digest.
pub open spec fn seed_of(cmd: Seq<char>) -> Seq<char> {
    hex(outside::sha256(encode_utf8(cmd)).take(8))
}

/// The random seed that a digest gives: its first 16 hexadecimal digits.
pub fn seed_text(digest: &Vec<u8>) -> (r: String)
    requires
        digest@.len() >= 8,
    ensures
        r@ == hex(digest@.take(8)),
{
    let alphabet = text::chars_of("0123456789abcdef");
    proof {
        reveal_strlit("0123456789abcdef");
    }
    let mut out: Vec<char> = Vec::new();
    for i in 0..8
        invariant
            alphabet@ == "0123456789abcdef"@,
            alphabet@.len() == 16,
            digest@.len() >= 8,
            out@ == hex(digest@.take(i as int)),
    {
        assert(digest@.take(i + 1).drop_last() =~= digest@.take(i as int));
        assert(digest@.take(i + 1).last() == digest@[i as int]);
        let b: usize = digest[i] as usize;
        out.push(alphabet[b / 16]);
        out.push(alphabet[b % 16]);
    }
    text::string_of(&out)
}

/// The random seed for a command.
pub fn generate_frandom_seed(cmdline: &str) -> (r: String)
    ensures
        r@ == seed_of(cmdline@),
{
    let digest = outside::sha256_of(cmdline.as_bytes());
    seed_text(&digest)
}

// ---------------------------------------------------------------------------
// Programs
// ---------------------------------------------------------------------------

/// A shell variable name: ASCII letters, digits and underscores, no digit in front.
pub open spec fn is_variable_name(n: Seq<char>) -> bool {
    n.len() > 0 && !text::is_digit(n[0]) && text::is_word_text(n)
}

/// A word that sets a shell variable.
pub open spec fn is_assignment(tok: Seq<char>) -> bool {
    text::split_once(tok, '=') matches Some((n, v)) && is_variable_name(n)
}

fn assigns(tok: &Vec<char>) -> (r: bool)
    ensures
        r == is_assignment(tok@),
{
    match text::cut_once(tok, '=') {
        Some((n, _)) => n.len() > 0 && !('0' <= n[0] && n[0] <= '9') && text::word_text(&n),
        None => false,
    }
}

/// Whether a word sets a shell variable.
pub fn is_shell_assignment(tok: &str) -> (r: bool)
    ensures
        r == is_assignment(tok@),
{
    let t = text::chars_of(tok);
    assigns(&t)
}

/// The first word that a shell would run: not a guard, not a `cd` with its
/// directory, not `env`, not an assignment.
pub open spec fn program_of(ws: Seq<Seq<char>>) -> Option<Seq<char>>
    decreases ws.len(),
{
    if ws.len() == 0 {
        None
    } else if ws[0] == ":"@ || ws[0] == "&&"@ {
        program_of(ws.drop_first())
    } else if ws[0] == "cd"@ {
        if ws.len() < 2 {
            None
        } else {
            program_of(ws.skip(2))
        }
    } else if ws[0] == "env"@ || is_assignment(ws[0]) {
        program_of(ws.drop_first())
    } else {
        Some(text::trim(ws[0], Class::Quote))
    }
}

/// The program that a shell would run for a command line, without quotes.
pub fn command_program(cmdline: &str) -> (r: Option<String>)
    ensures
        views::opt_text(r) == program_of(text::words(cmdline@)),
{
    let ws = text::words_of_str(cmdline);
    let ghost all = views::pieces(ws@);
    let mut i: usize = 0;
    assert(all.skip(0) =~= all);
    while i < ws.len()
        invariant
            all == views::pieces(ws@),
            all == text::words(cmdline@),
            i <= ws.len(),
            program_of(all) == program_of(all.skip(i as int)),
        decreases ws.len() - i,
    {
        let w = &ws[i];
        proof {
            assert(all.skip(i as int)[0] == w@);
            assert(all.skip(i as int).drop_first() =~= all.skip(i + 1));
        }
        if text::is_lit(w, ":") || text::is_lit(w, "&&") {
            i += 1;
        } else if text::is_lit(w, "cd") {
            if i + 1 >= ws.len() {
                return None;
            }
            assert(all.skip(i as int).skip(2) =~= all.skip(i + 2));
            i += 2;
        } else if text::is_lit(w, "env") || assigns(w) {
            i += 1;
        } else {
            let t = text::trimmed(w, Class::Quote);
            return Some(text::string_of(&t));
        }
    }
    None
}

/// An absolute path that an argument names: the argument itself, or what it
/// assigns.
pub open spec fn absolute_candidate(arg: Seq<char>) -> Option<Seq<char>> {
    if path::is_abs(arg) {
        Some(arg)
    } else {
        match text::split_once(arg, '=') {
            Some((n, v)) => if path::is_abs(v) {
                Some(v)
            } else {
                None
            },
            None => None,
        }
    }
}

/// An absolute path that an argument names: the argument itself, or what it assigns.
pub fn absolute_file_candidate(arg: &str) -> (r: Option<String>)
    ensures
        views::opt_text(r) == absolute_candidate(arg@),
{
    let a = text::chars_of(arg);
    if path::absolute(&a) {
        return Some(text::string_of(&a));
    }
    match text::cut_once(&a, '=') {
        Some((_, v)) => if path::absolute(&v) {
            Some(text::string_of(&v))
        } else {
            None
        },
        None => None,
    }
}

// ---------------------------------------------------------------------------
// Laws
// ---------------------------------------------------------------------------

/// Flags in two places count as if they stood in one: the later place decides,
/// and where it says nothing the earlier one does.
pub proof fn later_flags_win(a: Seq<Seq<char>>, b: Seq<Seq<char>>, start: bool)
    ensures
        lto_state(a + b, start) == lto_state(b, lto_state(a, start)),
    decreases b.len(),
{
    if b.len() == 0 {
        assert(a + b =~= a);
    } else {
        later_flags_win(a, b.drop_last(), start);
        assert((a + b).drop_last() =~= a + b.drop_last());
        assert((a + b).last() == b.last());
    }
}

/// No flag that sets the random seed is left, every other flag is, and what is
/// left once is left again.
pub proof fn no_seed_is_left(ws: Seq<Seq<char>>)
    ensures
        forall|w: Seq<char>| #[trigger]
            unseeded(ws).contains(w) <==> ws.contains(w) && !"-frandom-seed="@.is_prefix_of(w),
        unseeded(unseeded(ws)) == unseeded(ws),
    decreases ws.len(),
{
    if ws.len() > 0 {
        let front = ws.drop_last();
        let kept = unseeded(front);
        no_seed_is_left(front);
        assert forall|w: Seq<char>| #[trigger] unseeded(ws).contains(w) <==> ws.contains(w)
            && !"-frandom-seed="@.is_prefix_of(w) by {
            assert(ws.contains(w) <==> front.contains(w) || w == ws.last()) by {
                if ws.contains(w) {
                    let i = choose|i: int| 0 <= i < ws.len() && ws[i] == w;
                    if i < front.len() {
                        assert(front[i] == w);
                    }
                }
                if front.contains(w) {
                    let i = choose|i: int| 0 <= i < front.len() && front[i] == w;
                    assert(ws[i] == w);
                }
                assert(ws[ws.len() - 1] == ws.last());
            }
            let more = kept.push(ws.last());
            assert(more.contains(w) <==> kept.contains(w) || w == ws.last()) by {
                if more.contains(w) {
                    let i = choose|i: int| 0 <= i < more.len() && more[i] == w;
                    if i < kept.len() {
                        assert(kept[i] == w);
                    }
                }
                if kept.contains(w) {
                    let i = choose|i: int| 0 <= i < kept.len() && kept[i] == w;
                    assert(more[i] == w);
                }
                assert(more[kept.len() as int] == ws.last());
            }
            assert(kept.contains(w) <==> front.contains(w) && !"-frandom-seed="@.is_prefix_of(w));
        }
        if !"-frandom-seed="@.is_prefix_of(ws.last()) {
            assert(unseeded(ws).drop_last() =~= kept);
            assert(unseeded(ws).last() == ws.last());
        }
    }
}

/// An element that takes the next one along: an option whose value the linker
/// writes or that is a name, without an equals sign.
pub open spec fn takes_next(el: Seq<char>) -> bool {
    ||| el == "--dependency-file"@
    ||| el == "-Map"@
    ||| el == "--Map"@
    ||| el == "--out-implib"@
    ||| el == "-soname"@
    ||| el == "--soname"@
    ||| el == "-h"@
}

/// An element names the file `w`: it is `w`, or an option and `w` behind an
/// equals sign, with quotes around `w` or without. The option is none whose
/// value the linker writes or that is a name.
pub open spec fn names_file(el: Seq<char>, w: Seq<char>) -> bool {
    &&& w.len() > 0
    &&& w[0] != '-'
    &&& w[0] != '"' && w[0] != '\''
    &&& w.last() != '"' && w.last() != '\''
    &&& exists|pre: Seq<char>, lead: Seq<char>, trail: Seq<char>|
        {
            &&& el == #[trigger] (pre + (lead + w + trail))
            &&& forall|i: int| 0 <= i < lead.len() ==> #[trigger] lead[i] == '"' || lead[i] == '\''
            &&& forall|i: int|
                0 <= i < trail.len() ==> #[trigger] trail[i] == '"' || trail[i] == '\''
            &&& {
                ||| pre.len() == 0 && !el.contains('=')
                ||| pre.len() > 0 && pre.last() == '=' && !pre.drop_last().contains('=')
                    && !takes_next(pre.drop_last())
            }
        }
}

/// The element at `j` is left out because the one before takes it along.
spec fn taken_along(els: Seq<Seq<char>>, skip: bool, j: int) -> bool
    decreases j,
{
    if j <= 0 {
        skip
    } else {
        !taken_along(els, skip, j - 1) && takes_next(els[j - 1])
    }
}

proof fn options_take_next(el: Seq<char>)
    ensures
        (is_output_option(option_part(el)) || is_name_option(option_part(el))) && text::split_once(
            el,
            '=',
        ) is None <==> takes_next(el),
        takes_next(el) ==> !el.contains('='),
{
    text::once_whole(el, '=');
    reveal_strlit("--dependency-file");
    reveal_strlit("-Map");
    reveal_strlit("--Map");
    reveal_strlit("--out-implib");
    reveal_strlit("-soname");
    reveal_strlit("--soname");
    reveal_strlit("-h");
}

proof fn taken_along_later(els: Seq<Seq<char>>, skip: bool, j: int)
    requires
        0 < j < els.len(),
    ensures
        taken_along(els, skip, j) == taken_along(
            els.drop_first(),
            !skip && takes_next(els[0]),
            j - 1,
        ),
    decreases j,
{
    reveal_with_fuel(taken_along, 2);
    if j > 1 {
        taken_along_later(els, skip, j - 1);
        assert(els.drop_first()[j - 2] == els[j - 1]);
    }
}

/// The value of an element that names a file is that file.
proof fn named_value(el: Seq<char>, w: Seq<char>)
    requires
        names_file(el, w),
    ensures
        value_part(el) == w,
        !is_output_option(option_part(el)) && !is_name_option(option_part(el)),
{
    let (pre, lead, trail) = choose|pre: Seq<char>, lead: Seq<char>, trail: Seq<char>|
        {
            &&& el == #[trigger] (pre + (lead + w + trail))
            &&& forall|i: int| 0 <= i < lead.len() ==> #[trigger] lead[i] == '"' || lead[i] == '\''
            &&& forall|i: int|
                0 <= i < trail.len() ==> #[trigger] trail[i] == '"' || trail[i] == '\''
            &&& {
                ||| pre.len() == 0 && !el.contains('=')
                ||| pre.len() > 0 && pre.last() == '=' && !pre.drop_last().contains('=')
                    && !takes_next(pre.drop_last())
            }
        };
    let v = lead + w + trail;
    text::trim_leaves(lead, w, trail, Class::Quote);
    text::once_whole(el, '=');
    if pre.len() == 0 {
        assert(el =~= v);
        options_take_next(el);
        if takes_next(el) {
            reveal_strlit("--dependency-file");
            reveal_strlit("-Map");
            reveal_strlit("--Map");
            reveal_strlit("--out-implib");
            reveal_strlit("-soname");
            reveal_strlit("--soname");
            reveal_strlit("-h");
            assert(el[0] == '-');
            if lead.len() > 0 {
                assert(el[0] == lead[0]);
            } else {
                assert(el[0] == w[0]);
            }
        }
    } else {
        let f = pre.drop_last();
        assert(el =~= f + seq!['='] + v);
        text::once_parts(f, v, '=');
    }
}

proof fn named_files_are_listed(els: Seq<Seq<char>>, skip: bool, j: int, w: Seq<char>)
    requires
        0 <= j < els.len(),
        !taken_along(els, skip, j),
        names_file(els[j], w),
    ensures
        wl_files(els, skip).contains(w),
    decreases els.len(),
{
    let rest = els.drop_first();
    options_take_next(els[0]);
    named_value(els[j], w);
    if j == 0 {
        let r = seq![w] + wl_files(rest, false);
        assert(wl_files(els, skip) == r);
        assert(r[0] == w);
    } else {
        taken_along_later(els, skip, j);
        assert(rest[j - 1] == els[j]);
        let next = !skip && takes_next(els[0]);
        named_files_are_listed(rest, next, j - 1, w);
        let more = wl_files(rest, next);
        let i = choose|i: int| 0 <= i < more.len() && more[i] == w;
        if !skip && !is_output_option(option_part(els[0])) && !is_name_option(option_part(els[0]))
            && value_part(els[0]).len() > 0 && value_part(els[0])[0] != '-' {
            assert(wl_files(els, skip) == seq![value_part(els[0])] + more);
            assert(wl_files(els, skip)[i + 1] == w);
        } else {
            assert(wl_files(els, skip) == more);
        }
    }
}

proof fn runs_alternate(els: Seq<Seq<char>>, j: int, r: int)
    requires
        0 <= r <= j <= els.len(),
        forall|i: int| j - r <= i < j ==> takes_next(#[trigger] els[i]),
        j - r > 0 ==> !takes_next(els[j - r - 1]),
    ensures
        taken_along(els, false, j) == (r % 2 == 1),
    decreases r,
{
    if r > 0 {
        runs_alternate(els, j - 1, r - 1);
        assert(takes_next(els[j - 1]));
    }
}

/// Every file that a linker group names is a candidate, wherever it lies and
/// however it is spelled: behind an option and an equals sign or as an element
/// of its own, in quotes or without. Left out is only an element that the one
/// before takes along; of options that stand in a row, every second is itself
/// taken along.
pub proof fn every_named_linker_file_is_a_candidate(
    els: Seq<Seq<char>>,
    j: int,
    run: int,
    w: Seq<char>,
)
    requires
        0 <= run <= j < els.len(),
        forall|i: int| j - run <= i < j ==> takes_next(#[trigger] els[i]),
        j - run > 0 ==> !takes_next(els[j - run - 1]),
        run % 2 == 0,
        names_file(els[j], w),
    ensures
        wl_files(els, false).contains(w),
{
    runs_alternate(els, j, run);
    named_files_are_listed(els, false, j, w);
}

proof fn candidates_are_values(els: Seq<Seq<char>>, skip: bool, k: int)
    requires
        0 <= k < wl_files(els, skip).len(),
    ensures
        ({
            let w = wl_files(els, skip)[k];
            &&& w.len() > 0
            &&& w[0] != '-'
            &&& exists|j: int|
                0 <= j < els.len() && !taken_along(els, skip, j) && value_part(#[trigger] els[j])
                    == w && !is_output_option(option_part(els[j])) && !is_name_option(
                    option_part(els[j]),
                )
        }),
    decreases els.len(),
{
    let rest = els.drop_first();
    let el = els[0];
    let w = wl_files(els, skip)[k];
    options_take_next(el);
    let next = !skip && takes_next(el);
    let more = wl_files(rest, next);
    let here = !skip && !is_output_option(option_part(el)) && !is_name_option(option_part(el))
        && value_part(el).len() > 0 && value_part(el)[0] != '-';
    if here && k == 0 {
        assert(value_part(els[0]) == w);
    } else {
        let i = if here {
            k - 1
        } else {
            k
        };
        assert(more[i] == w);
        candidates_are_values(rest, next, i);
        let j = choose|j: int|
            0 <= j < rest.len() && !taken_along(rest, next, j) && value_part(#[trigger] rest[j])
                == w && !is_output_option(option_part(rest[j])) && !is_name_option(
                option_part(rest[j]),
            );
        taken_along_later(els, skip, j + 1);
        assert(els[j + 1] == rest[j]);
        assert(value_part(els[j + 1]) == w);
    }
}

/// A candidate is never an option, and it stands in the group: at the end of an
/// element but for quotes, of which no option is the one whose value the linker
/// writes or that is a name.
pub proof fn candidates_stand_in_the_group(els: Seq<Seq<char>>, k: int)
    requires
        0 <= k < wl_files(els, false).len(),
    ensures
        ({
            let w = wl_files(els, false)[k];
            &&& w.len() > 0
            &&& w[0] != '-'
            &&& exists|j: int|
                0 <= j < els.len() && text::has(#[trigger] els[j], w) && !takes_next(els[j])
        }),
{
    candidates_are_values(els, false, k);
    let w = wl_files(els, false)[k];
    let j = choose|j: int|
        0 <= j < els.len() && !taken_along(els, false, j) && value_part(#[trigger] els[j]) == w
            && !is_output_option(option_part(els[j])) && !is_name_option(option_part(els[j]));
    options_take_next(els[j]);
    text::once_whole(els[j], '=');
    let v = match text::split_once(els[j], '=') {
        Some((f, v)) => v,
        None => els[j],
    };
    let at = els[j].len() - v.len();
    assert(els[j].skip(at) =~= v);
    trimmed_stands(v, Class::Quote);
    let i = choose|i: int| text::occurs_at(v, w, i);
    assert(els[j].subrange(at + i, at + i + w.len()) =~= v.subrange(i, i + w.len()));
    assert(text::occurs_at(els[j], w, at + i));
}

/// What trimming leaves stands in the text.
proof fn trimmed_stands(s: Seq<char>, k: Class)
    ensures
        exists|i: int| text::occurs_at(s, text::trim(s, k), i),
    decreases s.len(),
{
    let r = text::trim(s, k);
    if s.len() > 0 && text::in_class(k, s[0]) {
        trimmed_stands(s.drop_first(), k);
        let i = choose|i: int| text::occurs_at(s.drop_first(), r, i);
        assert(s.subrange(i + 1, i + 1 + r.len()) =~= s.drop_first().subrange(i, i + r.len()));
        assert(text::occurs_at(s, r, i + 1));
    } else {
        trimmed_end_stands(s, k);
        assert(text::occurs_at(s, r, 0));
    }
}

proof fn trimmed_end_stands(s: Seq<char>, k: Class)
    ensures
        text::occurs_at(s, text::trim_end(s, k), 0),
    decreases s.len(),
{
    if s.len() > 0 && text::in_class(k, s.last()) {
        trimmed_end_stands(s.drop_last(), k);
        let r = text::trim_end(s, k);
        assert(s.subrange(0, r.len() as int) =~= s.drop_last().subrange(0, r.len() as int));
    } else {
        assert(s.subrange(0, s.len() as int) =~= s);
    }
}

/// The files of a command's linker groups are those of each word that begins
/// with `-Wl,`, and of no other, in the order of the words.
pub proof fn linker_files_are_of_the_groups(a: Seq<Seq<char>>, w: Seq<char>, b: Seq<Seq<char>>)
    ensures
        wl_command_files(a + b) == wl_command_files(a) + wl_command_files(b),
        !"-Wl,"@.is_prefix_of(w) ==> wl_command_files(seq![w]).len() == 0,
        wl_command_files(seq!["-Wl,"@ + w]) == wl_files(text::split(w, Class::Only(',')), false),
    decreases b.len(),
{
    let e = Seq::<Seq<char>>::empty();
    reveal_with_fuel(wl_command_files, 2);
    if b.len() == 0 {
        assert(a + b =~= a);
        assert(wl_command_files(a) + wl_command_files(b) =~= wl_command_files(a));
        assert(seq![w].drop_last() =~= e);
        let g = "-Wl,"@ + w;
        assert(seq![g].drop_last() =~= e);
        assert("-Wl,"@.is_prefix_of(g));
        assert(g.skip("-Wl,"@.len() as int) =~= w);
        let fs = wl_files(text::split(w, Class::Only(',')), false);
        assert(e + fs =~= fs);
    } else {
        linker_files_are_of_the_groups(a, w, b.drop_last());
        assert((a + b).drop_last() =~= a + b.drop_last());
        assert((a + b).last() == b.last());
        assert(wl_command_files(a + b) =~= wl_command_files(a) + wl_command_files(b));
    }
}

/// A word that says something of link-time optimisation.
pub open spec fn speaks_of_lto(w: Seq<char>) -> bool {
    w == "-flto"@ || "-flto="@.is_prefix_of(w) || w == "-fno-lto"@
}

/// The last word that says something of link-time optimisation decides, and
/// where none does, what was assumed.
pub proof fn the_last_lto_word_decides(ws: Seq<Seq<char>>, start: bool, i: int)
    requires
        -1 <= i < ws.len(),
        i >= 0 ==> speaks_of_lto(ws[i]),
        forall|j: int| i < j < ws.len() ==> !speaks_of_lto(#[trigger] ws[j]),
    ensures
        lto_state(ws, start) == if i < 0 {
            start
        } else {
            ws[i] != "-fno-lto"@
        },
    decreases ws.len(),
{
    reveal_strlit("-flto");
    reveal_strlit("-flto=");
    reveal_strlit("-fno-lto");
    if ws.len() > 0 && i < ws.len() - 1 {
        assert(!speaks_of_lto(ws[ws.len() - 1]));
        assert forall|j: int| i < j < ws.drop_last().len() implies !speaks_of_lto(
            #[trigger] ws.drop_last()[j],
        ) by {
            assert(ws.drop_last()[j] == ws[j]);
        }
        the_last_lto_word_decides(ws.drop_last(), start, i);
    }
}

/// What a compilation does about link-time optimisation is what the last word
/// about it says, the words of the wrapper's flags behind those of the command.
pub proof fn wrapper_flags_come_behind_the_command(
    cmd: Seq<char>,
    flags: Option<Seq<char>>,
    assumed: bool,
)
    ensures
        compiles_lto(cmd, flags, assumed) == lto_state(
            text::words(cmd) + match flags {
                Some(f) => text::words(f),
                None => Seq::empty(),
            },
            assumed,
        ),
{
    match flags {
        Some(f) => {
            later_flags_win(text::words(cmd), text::words(f), assumed);
        },
        None => {
            assert(text::words(cmd) + Seq::<Seq<char>>::empty() =~= text::words(cmd));
        },
    }
}

/// Make is needed exactly where a word of the command, but for quotes, or a word
/// of the wrapper's flags is `-flto` or begins with `-flto=`.
pub proof fn make_is_needed_for_lto(cmd: Seq<char>, flags: Option<Seq<char>>)
    ensures
        needs_make(cmd, flags) <==> {
            ||| exists|i: int|
                0 <= i < text::words(cmd).len() && ({
                    let w = text::trim(#[trigger] text::words(cmd)[i], Class::Quote);
                    w == "-flto"@ || "-flto="@.is_prefix_of(w)
                })
            ||| flags matches Some(f) && exists|i: int|
                0 <= i < text::words(f).len() && (#[trigger] text::words(f)[i] == "-flto"@
                    || "-flto="@.is_prefix_of(text::words(f)[i]))
        },
{
    let ws = text::words(cmd);
    if any_quoted_lto(ws) {
        let i = choose|i: int|
            0 <= i < ws.len() && is_lto_flag(text::trim(#[trigger] ws[i], Class::Quote));
        assert(0 <= i < text::words(cmd).len());
        let w = text::trim(text::words(cmd)[i], Class::Quote);
        assert(w == "-flto"@ || "-flto="@.is_prefix_of(w));
    }
}

/// A dependency file is written exactly where some word of the command or of its
/// response file is one of five flags, or holds `--dependency-file`.
pub proof fn a_flag_writes_the_depfile(cmd: Option<Seq<char>>, rsp: Option<Seq<char>>)
    ensures
        writes_depfile(cmd, rsp) <==> exists|s: Seq<char>, w: Seq<char>|
            (cmd == Some(s) || rsp == Some(s)) && #[trigger] text::words(s).contains(w) && (w
                == "-M"@ || w == "-MM"@ || w == "-MD"@ || w == "-MMD"@ || w == "-MG"@ || text::has(
                w,
                "--dependency-file"@,
            )),
{
    if cmd is Some && text_writes_deps(cmd->0) {
        let s = cmd->0;
        let i = choose|i: int|
            0 <= i < text::words(s).len() && writes_deps(#[trigger] text::words(s)[i]);
        assert(text::words(s).contains(text::words(s)[i]));
    }
    if rsp is Some && text_writes_deps(rsp->0) {
        let s = rsp->0;
        let i = choose|i: int|
            0 <= i < text::words(s).len() && writes_deps(#[trigger] text::words(s)[i]);
        assert(text::words(s).contains(text::words(s)[i]));
    }
    assert forall|s: Seq<char>, w: Seq<char>|
        (cmd == Some(s) || rsp == Some(s)) && #[trigger] text::words(s).contains(w) && (w == "-M"@
            || w == "-MM"@ || w == "-MD"@ || w == "-MMD"@ || w == "-MG"@ || text::has(
            w,
            "--dependency-file"@,
        )) implies writes_depfile(cmd, rsp) by {
        let i = choose|i: int| 0 <= i < text::words(s).len() && text::words(s)[i] == w;
        assert(writes_deps(text::words(s)[i]));
        assert(text_writes_deps(s));
    }
}

/// A dependency file is an output of its task as it is spelled, whatever its
/// name and however deep it lies, where the rule speaks gcc's language and the
/// command writes one; never where it lies above or outside the build directory.
pub proof fn a_written_depfile_is_accepted(
    d: Seq<char>,
    deps: Option<Seq<char>>,
    cmd: Option<Seq<char>>,
    rsp: Option<Seq<char>>,
)
    ensures
        accepted_depfile(None, deps, cmd, rsp) is None,
        accepted_depfile(Some(d), deps, cmd, rsp) is Some ==> accepted_depfile(
            Some(d),
            deps,
            cmd,
            rsp,
        ) == Some(d),
        deps != Some("gcc"@) ==> accepted_depfile(Some(d), deps, cmd, rsp) is None,
        !writes_depfile(cmd, rsp) ==> accepted_depfile(Some(d), deps, cmd, rsp) is None,
        d.len() == 0 || d[0] == '/' ==> accepted_depfile(Some(d), deps, cmd, rsp) is None,
        (forall|i: int| 0 <= i < path::comps(d).len() ==> path::is_name(#[trigger] path::comps(d)[i]))
            && d.len() > 0 && deps == Some("gcc"@) && writes_depfile(cmd, rsp)
            ==> accepted_depfile(Some(d), deps, cmd, rsp) == Some(d),
        path::comps(d).len() > 0 && path::comps(d)[0] == ".."@ ==> accepted_depfile(
            Some(d),
            deps,
            cmd,
            rsp,
        ) is None,
{
    reveal_strlit("..");
    assert(".."@ =~= path::up());
    if forall|i: int|
        0 <= i < path::comps(d).len() ==> path::is_name(#[trigger] path::comps(d)[i]) {
        path::names_settle(path::comps(d));
        path::comps_well_placed(d);
        if path::comps(d).len() > 0 {
            assert(path::is_name(path::comps(d)[0]));
        }
    }
    if path::comps(d).len() > 0 && path::comps(d)[0] == ".."@ {
        path::climbs_settle(path::comps(d));
    }
}

/// What a shell runs: guards, assignments and `env` in front, and a `cd` with
/// its directory, change nothing about it; any other word in front is it, but
/// for its quotes.
pub proof fn prologues_do_not_matter(w: Seq<char>, dir: Seq<char>, ws: Seq<Seq<char>>)
    ensures
        program_of(Seq::empty()) is None,
        program_of(seq![":"@] + ws) == program_of(ws),
        program_of(seq!["&&"@] + ws) == program_of(ws),
        program_of(seq!["env"@] + ws) == program_of(ws),
        program_of(seq!["cd"@, dir] + ws) == program_of(ws),
        is_shell_word(w) && is_assignment(w) ==> program_of(seq![w] + ws) == program_of(ws),
        is_shell_word(w) && !is_assignment(w) ==> program_of(seq![w] + ws) == Some(
            text::trim(w, Class::Quote),
        ),
{
    reveal_strlit(":");
    reveal_strlit("&&");
    reveal_strlit("env");
    reveal_strlit("cd");
    assert(":"@.len() == 1 && "&&"@.len() == 2 && "env"@.len() == 3 && "cd"@.len() == 2);
    assert("&&"@[0] == '&' && "cd"@[0] == 'c');
    assert((seq![":"@] + ws).drop_first() =~= ws);
    assert((seq!["&&"@] + ws).drop_first() =~= ws);
    assert((seq!["env"@] + ws).drop_first() =~= ws);
    assert((seq![w] + ws).drop_first() =~= ws);
    assert((seq!["cd"@, dir] + ws).skip(2) =~= ws);
}

/// A word that is none of those that a shell's prologue is made of.
pub open spec fn is_shell_word(w: Seq<char>) -> bool {
    w != ":"@ && w != "&&"@ && w != "env"@ && w != "cd"@
}

/// A word sets a variable exactly where a name stands before its first equals
/// sign: letters, digits and underscores, at least one, no digit in front. What
/// it is set to does not matter.
pub proof fn assignments_name_a_variable(n: Seq<char>, v: Seq<char>)
    requires
        !n.contains('='),
    ensures
        is_assignment(n + seq!['='] + v) <==> n.len() > 0 && !('0' <= n[0] <= '9') && forall|i: int|
            0 <= i < n.len() ==> (('a' <= #[trigger] n[i] <= 'z') || ('A' <= n[i] <= 'Z') || ('0'
                <= n[i] <= '9') || n[i] == '_'),
        !is_assignment(n),
{
    text::once_parts(n, v, '=');
    text::once_whole(n, '=');
}

/// An absolute path is found as a word of its own and behind the first equals
/// sign of a word, whatever stands before that; nothing else is.
pub proof fn absolute_paths_are_found(n: Seq<char>, p: Seq<char>)
    requires
        !n.contains('='),
        !(n.len() > 0 && n[0] == '/'),
    ensures
        p.len() > 0 && p[0] == '/' ==> absolute_candidate(p) == Some(p) && absolute_candidate(
            n + seq!['='] + p,
        ) == Some(p),
        !(p.len() > 0 && p[0] == '/') ==> absolute_candidate(n + seq!['='] + p) is None,
        absolute_candidate(n) is None,
{
    text::once_parts(n, p, '=');
    text::once_whole(n, '=');
    let s = n + seq!['='] + p;
    if n.len() > 0 {
        assert(s[0] == n[0]);
    } else {
        assert(s[0] == '=');
    }
}

/// A command compiles exactly where some word is `-c` and the word before it, if
/// any, is no path to a shell.
pub proof fn a_compiler_is_asked_to_compile(args: Seq<Seq<char>>)
    ensures
        args_compile(args) <==> exists|i: int|
            0 <= i < args.len() && #[trigger] args[i] == "-c"@ && (i == 0 || !({
                let n = text::after_last(args[i - 1], '/');
                n == "sh"@ || n == "bash"@ || n == "dash"@ || n == "zsh"@ || n == "ksh"@
            })),
{
    if args_compile(args) {
        let i = choose|i: int| 0 <= i < args.len() && #[trigger] compiles_at(args, i);
        assert(args[i] == "-c"@);
    }
    assert forall|i: int|
        0 <= i < args.len() && #[trigger] args[i] == "-c"@ && (i == 0 || !({
            let n = text::after_last(args[i - 1], '/');
            n == "sh"@ || n == "bash"@ || n == "dash"@ || n == "zsh"@ || n == "ksh"@
        })) implies args_compile(args) by {
        assert(compiles_at(args, i));
    }
}

/// A wrapper of the binary utilities is named exactly where it is a whole token
/// between white space and quotes; each is named once, in one order.
pub proof fn whole_tokens_name_tools(cmd: Seq<char>)
    ensures
        ({
            let toks = text::split(cmd, Class::SpaceOrQuote);
            &&& named_tools(cmd).contains("gcc-ar"@) == toks.contains("gcc-ar"@)
            &&& named_tools(cmd).contains("gcc-nm"@) == toks.contains("gcc-nm"@)
            &&& named_tools(cmd).contains("gcc-ranlib"@) == toks.contains("gcc-ranlib"@)
            &&& named_tools(cmd).no_duplicates()
            &&& forall|i: int|
                0 <= i < named_tools(cmd).len() ==> #[trigger] named_tools(cmd)[i] == "gcc-ar"@
                    || named_tools(cmd)[i] == "gcc-nm"@ || named_tools(cmd)[i] == "gcc-ranlib"@
        }),
{
    reveal_strlit("gcc-ar");
    reveal_strlit("gcc-nm");
    reveal_strlit("gcc-ranlib");
    let (x, y, z) = ("gcc-ar"@, "gcc-nm"@, "gcc-ranlib"@);
    assert(x[4] != y[4] && y.len() != z.len() && x.len() != z.len());
    let toks = text::split(cmd, Class::SpaceOrQuote);
    let r = named_tools(cmd);
    let (a, b, c) = (toks.contains(x), toks.contains(y), toks.contains(z));
    let e = Seq::<Seq<char>>::empty();
    if a && b && c {
        assert(r =~= seq![x, y, z]);
        assert(r[0] == x && r[1] == y && r[2] == z);
    } else if a && b {
        assert(r =~= seq![x, y]);
        assert(r[0] == x && r[1] == y);
    } else if a && c {
        assert(r =~= seq![x, z]);
        assert(r[0] == x && r[1] == z);
    } else if b && c {
        assert(r =~= seq![y, z]);
        assert(r[0] == y && r[1] == z);
    } else if a {
        assert(r =~= seq![x]);
        assert(r[0] == x);
    } else if b {
        assert(r =~= seq![y]);
        assert(r[0] == y);
    } else if c {
        assert(r =~= seq![z]);
        assert(r[0] == z);
    } else {
        assert(r =~= e);
    }
}

/// The flags that are left stand in their order, each as often as it did.
pub proof fn other_flags_keep_their_order(a: Seq<Seq<char>>, w: Seq<char>, b: Seq<Seq<char>>)
    ensures
        unseeded(a + b) == unseeded(a) + unseeded(b),
        !"-frandom-seed="@.is_prefix_of(w) ==> unseeded(seq![w]) == seq![w],
    decreases b.len(),
{
    if b.len() == 0 {
        assert(a + b =~= a);
        assert(unseeded(a) + unseeded(b) =~= unseeded(a));
        assert(seq![w].drop_last() =~= Seq::<Seq<char>>::empty());
        reveal_with_fuel(unseeded, 2);
        if !"-frandom-seed="@.is_prefix_of(w) {
            assert(unseeded(seq![w]) =~= seq![w]);
        }
    } else {
        other_flags_keep_their_order(a, w, b.drop_last());
        assert((a + b).drop_last() =~= a + b.drop_last());
        assert((a + b).last() == b.last());
        assert(unseeded(a + b) =~= unseeded(a) + unseeded(b));
    }
}

/// Candidates stand in the order of the group, each as often as it is named; an
/// option that takes the next element along leaves both out.
pub proof fn candidates_keep_their_order(el: Seq<char>, w: Seq<char>, rest: Seq<Seq<char>>)
    ensures
        wl_files(Seq::empty(), false).len() == 0,
        names_file(el, w) ==> wl_files(seq![el] + rest, false) == seq![w] + wl_files(rest, false),
        takes_next(el) ==> wl_files(seq![el, w] + rest, false) == wl_files(rest, false),
        takes_next(el) ==> wl_files(seq![el + "="@ + w] + rest, false) == wl_files(rest, false),
        el.len() > 1 && el[0] == '-' && !el.contains('=') && !takes_next(el) ==> wl_files(
            seq![el] + rest,
            false,
        ) == wl_files(rest, false),
{
    let one = seq![el] + rest;
    assert(one.drop_first() =~= rest && one[0] == el);
    if names_file(el, w) {
        named_value(el, w);
    }
    options_take_next(el);
    if takes_next(el) {
        let two = seq![el, w] + rest;
        assert(two.drop_first() =~= seq![w] + rest && two[0] == el);
        assert((seq![w] + rest).drop_first() =~= rest);
        reveal_with_fuel(wl_files, 2);
        assert(wl_files(two, false) == wl_files(seq![w] + rest, true));
        assert(wl_files(seq![w] + rest, true) == wl_files(rest, false));
        let g = el + "="@ + w;
        reveal_strlit("=");
        assert("="@ =~= seq!['=']);
        text::once_parts(el, w, '=');
        text::once_whole(el, '=');
        let glued = seq![g] + rest;
        assert(glued.drop_first() =~= rest && glued[0] == g);
    }
    if el.len() > 1 && el[0] == '-' && !el.contains('=') && !takes_next(el) {
        text::once_whole(el, '=');
        trim_of_an_option(el);
    }
}

proof fn trim_of_an_option(el: Seq<char>)
    requires
        el.len() > 0,
        el[0] == '-',
    ensures
        text::trim(el, Class::Quote).len() > 0 ==> text::trim(el, Class::Quote)[0] == '-',
{
    assert(text::trim_start(el, Class::Quote) == el);
    end_keeps_the_front(el, Class::Quote);
}

proof fn end_keeps_the_front(s: Seq<char>, k: Class)
    ensures
        text::trim_end(s, k).is_prefix_of(s),
    decreases s.len(),
{
    if s.len() > 0 && text::in_class(k, s.last()) {
        end_keeps_the_front(s.drop_last(), k);
    }
}

/// The wrappers' variables are forwarded whatever follows their names; the two
/// lookup paths are forwarded under their names alone, and nothing else is.
pub proof fn wrappers_variables_are_forwarded(more: Seq<char>, key: Seq<char>)
    ensures
        is_forwarded("NIX_CFLAGS_COMPILE"@ + more),
        is_forwarded("NIX_LDFLAGS"@ + more),
        is_forwarded("NIX_CC_WRAPPER"@ + more),
        is_forwarded("NIX_BINTOOLS_WRAPPER"@ + more),
        is_forwarded("NIX_HARDENING_ENABLE"@ + more),
        is_forwarded("XML_CATALOG_FILES"@),
        is_forwarded("PYTHONPATH"@),
        is_forwarded(key) ==> key == "XML_CATALOG_FILES"@ || key == "PYTHONPATH"@ || (key.len() > 4
            && key.take(4) == "NIX_"@),
{
    assert("NIX_CFLAGS_COMPILE"@.is_prefix_of("NIX_CFLAGS_COMPILE"@ + more));
    assert("NIX_LDFLAGS"@.is_prefix_of("NIX_LDFLAGS"@ + more));
    assert("NIX_CC_WRAPPER"@.is_prefix_of("NIX_CC_WRAPPER"@ + more));
    assert("NIX_BINTOOLS_WRAPPER"@.is_prefix_of("NIX_BINTOOLS_WRAPPER"@ + more));
    assert("NIX_HARDENING_ENABLE"@.is_prefix_of("NIX_HARDENING_ENABLE"@ + more));
    reveal_strlit("NIX_");
    reveal_strlit("NIX_CFLAGS_COMPILE");
    reveal_strlit("NIX_LDFLAGS");
    reveal_strlit("NIX_CC_WRAPPER");
    reveal_strlit("NIX_BINTOOLS_WRAPPER");
    reveal_strlit("NIX_HARDENING_ENABLE");
    if is_forwarded(key) && key != "XML_CATALOG_FILES"@ && key != "PYTHONPATH"@ {
        assert(key.take(4) =~= "NIX_"@);
    }
}

} // verus!
