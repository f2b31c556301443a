//! What a file is, read off its name: header, library, link product, object,
//! directory tree; and the name under which a file enters the store.
use crate::path;
use crate::text;
use crate::views;
use vstd::prelude::*;

verus! {

broadcast use {views::texts_push, views::pieces_push};

/// The extensions of the C family's header files.
pub open spec fn header_extension(e: Seq<char>) -> bool {
    ||| e == "h"@
    ||| e == "H"@
    ||| e == "hh"@
    ||| e == "hp"@
    ||| e == "hpp"@
    ||| e == "hxx"@
    ||| e == "h++"@
    ||| e == "inc"@
    ||| e == "ipp"@
    ||| e == "inl"@
    ||| e == "tcc"@
}

/// A path whose extension is one of a header.
pub open spec fn is_header(p: Seq<char>) -> bool {
    path::extension(p) matches Some(e) && header_extension(e)
}

/// Whether a path is spelled like a header.
pub fn header_like(p: &str) -> (r: bool)
    ensures
        r == is_header(p@),
{
    let x = text::chars_of(p);
    match path::extension_of(&x) {
        Some(e) => text::is_lit(&e, "h") || text::is_lit(&e, "H") || text::is_lit(&e, "hh")
            || text::is_lit(&e, "hp") || text::is_lit(&e, "hpp") || text::is_lit(&e, "hxx")
            || text::is_lit(&e, "h++") || text::is_lit(&e, "inc") || text::is_lit(&e, "ipp")
            || text::is_lit(&e, "inl") || text::is_lit(&e, "tcc"),
        None => false,
    }
}

/// A relative path to a shared library or to the symbol list that stands for one.
pub open spec fn is_lib(name: Seq<char>) -> bool {
    let base = text::after_last(name, '/');
    !path::is_abs(name) && (".symbols"@.is_suffix_of(base) || ".so"@.is_suffix_of(base)
        || text::has(base, ".so."@))
}

/// Whether a dependency's name is a runtime library that a task which executes
/// its product has to carry.
pub fn lib_shaped(name: &str) -> (r: bool)
    ensures
        r == is_lib(name@),
{
    let x = text::chars_of(name);
    if path::absolute(&x) {
        return false;
    }
    let base = text::behind_last(&x, '/');
    text::ends_lit(&base, ".symbols") || text::ends_lit(&base, ".so") || text::contains_lit(
        &base,
        ".so.",
    )
}

/// A name that a link produces: a library, an archive, an executable.
pub open spec fn is_link(p: Seq<char>) -> bool {
    let n = text::after_last(p, '/');
    ||| ".so"@.is_suffix_of(n)
    ||| text::has(n, ".so."@)
    ||| ".a"@.is_suffix_of(n)
    ||| ".dylib"@.is_suffix_of(n)
    ||| ".dll"@.is_suffix_of(n)
    ||| ".exe"@.is_suffix_of(n)
    ||| !n.contains('.')
}

fn link_shaped(p: &str) -> (r: bool)
    ensures
        r == is_link(p@),
{
    let x = text::chars_of(p);
    let n = text::behind_last(&x, '/');
    text::ends_lit(&n, ".so") || text::contains_lit(&n, ".so.") || text::ends_lit(&n, ".a")
        || text::ends_lit(&n, ".dylib") || text::ends_lit(&n, ".dll") || text::ends_lit(&n, ".exe")
        || !text::contains_char(&n, '.')
}

/// There is an output, and every output is a link product.
pub open spec fn all_links(outs: Seq<Seq<char>>) -> bool {
    outs.len() > 0 && forall|i: int| 0 <= i < outs.len() ==> is_link(#[trigger] outs[i])
}

/// Whether every output is a link product; no output at all is none.
pub fn link_shaped_outputs(outs: &Vec<String>) -> (r: bool)
    ensures
        r == all_links(views::texts(outs@)),
{
    let ghost all = views::texts(outs@);
    if outs.len() == 0 {
        return false;
    }
    for i in 0..outs.len()
        invariant
            all == views::texts(outs@),
            forall|j: int| 0 <= j < i ==> is_link(#[trigger] all[j]),
    {
        if !link_shaped(outs[i].as_str()) {
            assert(!is_link(all[i as int]));
            return false;
        }
    }
    true
}

/// A name that a compile produces.
pub open spec fn is_object(n: Seq<char>) -> bool {
    ||| ".o"@.is_suffix_of(n)
    ||| ".obj"@.is_suffix_of(n)
    ||| ".lo"@.is_suffix_of(n)
    ||| ".gch"@.is_suffix_of(n)
    ||| ".pch"@.is_suffix_of(n)
}

fn object_shaped(n: &str) -> (r: bool)
    ensures
        r == is_object(n@),
{
    let x = text::chars_of(n);
    text::ends_lit(&x, ".o") || text::ends_lit(&x, ".obj") || text::ends_lit(&x, ".lo")
        || text::ends_lit(&x, ".gch") || text::ends_lit(&x, ".pch")
}

/// There is an output, and every output is an object.
pub open spec fn all_objects(outs: Seq<Seq<char>>) -> bool {
    outs.len() > 0 && forall|i: int| 0 <= i < outs.len() ==> is_object(#[trigger] outs[i])
}

/// Whether every output is an object; no output at all is none.
pub fn object_shaped_outputs(outs: &Vec<String>) -> (r: bool)
    ensures
        r == all_objects(views::texts(outs@)),
{
    let ghost all = views::texts(outs@);
    if outs.len() == 0 {
        return false;
    }
    for i in 0..outs.len()
        invariant
            all == views::texts(outs@),
            forall|j: int| 0 <= j < i ==> is_object(#[trigger] all[j]),
    {
        if !object_shaped(outs[i].as_str()) {
            assert(!is_object(all[i as int]));
            return false;
        }
    }
    true
}

/// Whether an edge is a compile whose headers the compiler itself reports: it
/// declares gcc's dependency style and produces objects alone.
pub fn is_compile_task(deps: Option<&str>, outs: &Vec<String>) -> (r: bool)
    ensures
        r == (views::opt_str(deps) == Some("gcc"@) && all_objects(views::texts(outs@))),
{
    match deps {
        Some(d) => text::same_str(d, "gcc") && object_shaped_outputs(outs),
        None => false,
    }
}

/// The path that a tree's marker stands for, or the path itself.
pub open spec fn unmarked(p: Seq<char>) -> Seq<char> {
    match text::without_suffix(p, "/.nn-tree"@) {
        Some(q) => q,
        None => p,
    }
}

/// A directory that is one output: a module tree right below `include`, or
/// what an automatic generator fills.
pub open spec fn is_tree(p: Seq<char>) -> bool {
    let q = unmarked(p);
    ||| path::comps(q).len() == 2 && path::under(q, "include"@) && path::extension(q) is None
    ||| path::file_name(q) matches Some(f) && ("_autogen"@.is_suffix_of(f)
        || "_autogen.dir"@.is_suffix_of(f))
}

/// Whether a path is a directory that counts as one output.
pub fn is_tree_path(p: &str) -> (r: bool)
    ensures
        r == is_tree(p@),
{
    let x = text::chars_of(p);
    let q = match text::strip_end_lit(&x, "/.nn-tree") {
        Some(s) => s,
        None => x,
    };
    let cs = path::components(&q);
    assert(path::comps(q@).len() == cs@.len());
    if cs.len() == 2 && path::is_under_lit(&q, "include") && path::extension_of(&q).is_none() {
        return true;
    }
    match path::name_of(&q) {
        Some(f) => text::ends_lit(&f, "_autogen") || text::ends_lit(&f, "_autogen.dir"),
        None => false,
    }
}

/// Whether a file is the record in which cmake keeps a target's directories.
pub open spec fn is_depend_info(p: Seq<char>) -> bool {
    path::file_name(p) matches Some(n) && "DependInfo.json"@.is_suffix_of(n)
}

/// Whether a file is the record in which cmake keeps a target's directories.
pub fn is_cmake_depend_info(p: &str) -> (r: bool)
    ensures
        r == is_depend_info(p@),
{
    let x = text::chars_of(p);
    match path::name_of(&x) {
        Some(n) => text::ends_lit(&n, "DependInfo.json"),
        None => false,
    }
}

// ---------------------------------------------------------------------------
// Store names
// ---------------------------------------------------------------------------

/// The characters that a store name may hold, besides the dash.
pub open spec fn kept_in_name(c: char) -> bool {
    text::is_ascii_alnum(c) || c == '+' || c == '.' || c == '_' || c == '?' || c == '='
}

/// Each character that a store name may not hold becomes a dash.
pub open spec fn dashed(s: Seq<char>) -> Seq<char> {
    s.map_values(|c: char| if kept_in_name(c) { c } else { '-' })
}

/// The store name of a text.
pub open spec fn store_name(s: Seq<char>) -> Seq<char> {
    let m = dashed(s);
    if m.len() == 0 {
        "source"@
    } else if m[0] == '.' {
        seq!['-'] + m
    } else {
        m
    }
}

/// A name that the store accepts: not empty, no dot in front, every character allowed.
pub open spec fn legal_name(s: Seq<char>) -> bool {
    s.len() > 0 && s[0] != '.' && forall|i: int|
        0 <= i < s.len() ==> kept_in_name(#[trigger] s[i]) || s[i] == '-'
}

/// The store name of an output's path.
pub fn normalize_output(output: &str) -> (r: String)
    ensures
        r@ == store_name(output@),
{
    let x = text::chars_of(output);
    let mut m: Vec<char> = Vec::new();
    for i in 0..x.len()
        invariant
            x@ == output@,
            m@ == dashed(x@).take(i as int),
    {
        let c = x[i];
        if text::ascii_alnum(c) || c == '+' || c == '.' || c == '_' || c == '?' || c == '=' {
            m.push(c);
        } else {
            m.push('-');
        }
    }
    assert(m@ =~= dashed(output@));
    if m.len() == 0 {
        let s = text::chars_of("source");
        text::string_of(&s)
    } else if m[0] == '.' {
        let mut d: Vec<char> = Vec::new();
        d.push('-');
        text::append(&mut d, &m);
        assert(d@ =~= seq!['-'] + m@);
        text::string_of(&d)
    } else {
        text::string_of(&m)
    }
}

/// The name under which a file is uploaded.
pub open spec fn upload_name(source: Seq<char>, canonical: Seq<char>) -> Seq<char> {
    match path::file_name(source) {
        Some(n) => store_name(n),
        None => match path::file_name(canonical) {
            Some(n) => store_name(n),
            None => "source"@,
        },
    }
}

/// The name under which a file is uploaded: after the path that was asked
/// about, after the file that it resolves to only where that has no name.
pub fn opaque_upload_name(source_spelling: &str, canonical_path: &str) -> (r: String)
    ensures
        r@ == upload_name(source_spelling@, canonical_path@),
{
    let x = text::chars_of(source_spelling);
    match path::name_of(&x) {
        Some(n) => {
            let s = text::string_of(&n);
            normalize_output(s.as_str())
        },
        None => {
            let y = text::chars_of(canonical_path);
            match path::name_of(&y) {
                Some(n) => {
                    let s = text::string_of(&n);
                    normalize_output(s.as_str())
                },
                None => {
                    let d = text::chars_of("source");
                    text::string_of(&d)
                },
            }
        },
    }
}

// ---------------------------------------------------------------------------
// Laws
// ---------------------------------------------------------------------------

/// Every text has a legal store name.
pub proof fn store_name_is_legal(s: Seq<char>)
    ensures
        legal_name(store_name(s)),
{
    reveal_strlit("source");
    let m = dashed(s);
    let n = store_name(s);
    assert forall|i: int| 0 <= i < n.len() implies kept_in_name(#[trigger] n[i]) || n[i] == '-' by {
        if m.len() > 0 && m[0] == '.' {
            if i > 0 {
                assert(n[i] == m[i - 1]);
            }
        }
    }
}

/// A legal name is its own store name, so naming twice changes nothing.
pub proof fn store_name_is_stable(s: Seq<char>)
    ensures
        legal_name(s) ==> store_name(s) == s,
        store_name(store_name(s)) == store_name(s),
{
    store_name_is_legal(s);
    let n = store_name(s);
    assert(dashed(n) =~= n);
    if legal_name(s) {
        assert(dashed(s) =~= s);
    }
}

/// Every upload has a legal store name.
pub proof fn upload_name_is_legal(source: Seq<char>, canonical: Seq<char>)
    ensures
        legal_name(upload_name(source, canonical)),
{
    reveal_strlit("source");
    if let Some(n) = path::file_name(source) {
        store_name_is_legal(n);
    } else if let Some(n) = path::file_name(canonical) {
        store_name_is_legal(n);
    }
}

/// Whether a path is a header is decided by its extension alone: wherever it lies
/// and whatever it is called.
pub proof fn extensions_make_headers(p: Seq<char>)
    ensures
        is_header(p) <==> path::extension(p) is Some && seq![
            "h"@,
            "H"@,
            "hh"@,
            "hp"@,
            "hpp"@,
            "hxx"@,
            "h++"@,
            "inc"@,
            "ipp"@,
            "inl"@,
            "tcc"@,
        ].contains(path::extension(p)->0),
{
    let all = seq![
        "h"@,
        "H"@,
        "hh"@,
        "hp"@,
        "hpp"@,
        "hxx"@,
        "h++"@,
        "inc"@,
        "ipp"@,
        "inl"@,
        "tcc"@,
    ];
    if path::extension(p) is Some {
        let e = path::extension(p)->0;
        if is_header(p) {
            assert(all[0] == e || all[1] == e || all[2] == e || all[3] == e || all[4] == e || all[5]
                == e || all[6] == e || all[7] == e || all[8] == e || all[9] == e || all[10] == e);
        }
        if all.contains(e) {
            let i = choose|i: int| 0 <= i < all.len() && all[i] == e;
        }
    }
}

/// The directory of a name decides nothing of its shape, except that no library
/// lies at an absolute path: a name is one of a library or of a link product by
/// what it ends in, and by a version behind `.so`.
pub proof fn names_have_their_shape_anywhere(dir: Seq<char>, n: Seq<char>)
    requires
        !n.contains('/'),
    ensures
        is_link(dir + seq!['/'] + n) == is_link(n),
        dir.len() > 0 && dir[0] != '/' ==> is_lib(dir + seq!['/'] + n) == is_lib(n),
        dir.len() == 0 || dir[0] == '/' ==> !is_lib(dir + seq!['/'] + n),
        is_lib(n) == (".symbols"@.is_suffix_of(n) || ".so"@.is_suffix_of(n) || text::has(
            n,
            ".so."@,
        )),
        is_link(n) == (".so"@.is_suffix_of(n) || text::has(n, ".so."@) || ".a"@.is_suffix_of(n)
            || ".dylib"@.is_suffix_of(n) || ".dll"@.is_suffix_of(n) || ".exe"@.is_suffix_of(n)
            || !n.contains('.')),
{
    text::after_last_part(dir, n, '/');
    let p = dir + seq!['/'] + n;
    if dir.len() > 0 {
        assert(p[0] == dir[0]);
    } else {
        assert(p[0] == '/');
    }
    if n.len() > 0 {
        assert(n.contains(n[0]));
    }
}

/// One output of another kind is enough for a task not to link, or not to compile;
/// and so is no output at all.
pub proof fn every_output_counts(a: Seq<Seq<char>>, o: Seq<char>, b: Seq<Seq<char>>)
    ensures
        all_links(a + seq![o] + b) <==> is_link(o) && (a.len() == 0 || all_links(a)) && (b.len()
            == 0 || all_links(b)),
        all_objects(a + seq![o] + b) <==> is_object(o) && (a.len() == 0 || all_objects(a)) && (
        b.len() == 0 || all_objects(b)),
        !all_links(Seq::empty()),
        !all_objects(Seq::empty()),
        is_object(o) == (".o"@.is_suffix_of(o) || ".obj"@.is_suffix_of(o) || ".lo"@.is_suffix_of(o)
            || ".gch"@.is_suffix_of(o) || ".pch"@.is_suffix_of(o)),
{
    let s = a + seq![o] + b;
    assert(s[a.len() as int] == o);
    assert forall|i: int| 0 <= i < a.len() implies #[trigger] a[i] == s[i] by {}
    assert forall|i: int| 0 <= i < b.len() implies #[trigger] b[i] == s[a.len() + 1 + i] by {}
    if is_link(o) && (a.len() == 0 || all_links(a)) && (b.len() == 0 || all_links(b)) {
        assert forall|i: int| 0 <= i < s.len() implies is_link(#[trigger] s[i]) by {
            if i < a.len() {
                assert(a[i] == s[i]);
            } else if i > a.len() {
                assert(b[i - a.len() - 1] == s[i]);
            }
        }
    }
    if is_object(o) && (a.len() == 0 || all_objects(a)) && (b.len() == 0 || all_objects(b)) {
        assert forall|i: int| 0 <= i < s.len() implies is_object(#[trigger] s[i]) by {
            if i < a.len() {
                assert(a[i] == s[i]);
            } else if i > a.len() {
                assert(b[i - a.len() - 1] == s[i]);
            }
        }
    }
}

/// A tree's marker stands for the tree; a tree is a module right below `include`,
/// or what a generator fills, wherever that lies.
pub proof fn markers_stand_for_their_tree(q: Seq<char>)
    ensures
        unmarked(q + "/.nn-tree"@) == q,
        !"/.nn-tree"@.is_suffix_of(q) ==> unmarked(q) == q && is_tree(q + "/.nn-tree"@) == is_tree(
            q,
        ),
        !"/.nn-tree"@.is_suffix_of(q) && (path::file_name(q) matches Some(f)
            && ("_autogen"@.is_suffix_of(f) || "_autogen.dir"@.is_suffix_of(f))) ==> is_tree(q),
        !"/.nn-tree"@.is_suffix_of(q) && path::comps(q).len() == 2 && path::comps(q)[0]
            == "include"@ && path::extension(q) is None && path::comps("include"@) == seq![
            "include"@,
        ] ==> is_tree(q),
        !"/.nn-tree"@.is_suffix_of(q) && path::comps(q).len() != 2 && !(path::file_name(
            q,
        ) matches Some(f) && ("_autogen"@.is_suffix_of(f) || "_autogen.dir"@.is_suffix_of(f)))
            ==> !is_tree(q),
{
    let m = "/.nn-tree"@;
    let p = q + m;
    assert(p.subrange(p.len() - m.len(), p.len() as int) =~= m);
    assert(p.take(p.len() - m.len()) =~= q);
    let cs = path::comps(q);
    if cs.len() == 2 && cs[0] == "include"@ && path::comps("include"@) == seq!["include"@] {
        assert(cs.subrange(0, 1) =~= seq!["include"@]);
    }
}

/// A store name keeps every character that the store accepts where it stands and
/// has a dash for every other; a dot in front gets a dash before it, and nothing
/// at all is called `source`.
pub proof fn store_names_keep_what_is_accepted(s: Seq<char>, i: int)
    requires
        0 <= i < s.len(),
    ensures
        ({
            let n = store_name(s);
            let d: int = if s[0] == '.' {
                1
            } else {
                0
            };
            &&& n.len() == s.len() + d
            &&& s[0] == '.' ==> n[0] == '-'
            &&& (('a' <= s[i] <= 'z') || ('A' <= s[i] <= 'Z') || ('0' <= s[i] <= '9') || s[i] == '+'
                || s[i] == '.' || s[i] == '_' || s[i] == '?' || s[i] == '=') ==> n[i + d] == s[i]
            &&& !(('a' <= s[i] <= 'z') || ('A' <= s[i] <= 'Z') || ('0' <= s[i] <= '9') || s[i] == '+'
                || s[i] == '.' || s[i] == '_' || s[i] == '?' || s[i] == '=') ==> n[i + d] == '-'
        }),
        store_name(Seq::empty()) == "source"@,
{
    assert(dashed(s)[0] == if kept_in_name(s[0]) {
        s[0]
    } else {
        '-'
    });
}

/// A file is uploaded under its own name, its spelling before what it leads to.
pub proof fn uploads_are_called_as_they_are_spelled(source: Seq<char>, canonical: Seq<char>)
    ensures
        path::file_name(source) matches Some(n) ==> upload_name(source, canonical) == store_name(n),
        path::file_name(source) is None && path::file_name(canonical) is Some ==> upload_name(
            source,
            canonical,
        ) == store_name(path::file_name(canonical)->0),
        path::file_name(source) is None && path::file_name(canonical) is None ==> upload_name(
            source,
            canonical,
        ) == "source"@,
{
}

} // verus!
