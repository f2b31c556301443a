//! What is uploaded for a file: under which name, at which place, and with
//! which bytes.
use crate::derived;
use crate::derived::DerivedFile;
use crate::outside;
use crate::path;
use crate::rewrite;
use crate::shapes;
use crate::text;
use crate::text::Class;
use crate::views;
use vstd::prelude::*;

verus! {

broadcast use {views::texts_push, views::pieces_push};

/// Where an uploaded file lies in the build tree: as seen from the build
/// directory, or as it is spelled where that cannot be told.
pub open spec fn placed_at(build_dir: Seq<char>, p: Seq<char>) -> Seq<char> {
    match path::relative(p, build_dir) {
        Some(rel) => rel,
        None => p,
    }
}

/// Where an uploaded file lies in the build tree.
pub fn upload_place(build_dir: &str, p: &str) -> (r: String)
    ensures
        r@ == placed_at(build_dir@, p@),
{
    match path::relative_from(p, build_dir) {
        Some(rel) => rel,
        None => {
            let c = text::chars_of(p);
            text::string_of(&c)
        },
    }
}

/// A file that was uploaded.
pub fn new_opaque_file(build_dir: &str, p: &str, store_path: &str) -> (r: DerivedFile)
    ensures
        r@ == derived::opaque_file(store_path@, placed_at(build_dir@, p@)),
{
    let place = upload_place(build_dir, p);
    derived::new_opaque(store_path, place.as_str())
}

// ---------------------------------------------------------------------------
// Scripts that ask the environment for their interpreter
// ---------------------------------------------------------------------------

/// Where the first line ends.
pub open spec fn first_newline(body: Seq<u8>) -> Option<int>
    decreases body.len(),
{
    if body.len() == 0 {
        None
    } else if body[0] == 10 {
        Some(0)
    } else {
        match first_newline(body.skip(1)) {
            Some(k) => Some(k + 1),
            None => None,
        }
    }
}

/// The first line ends where the first newline stands.
pub proof fn newline_stands(body: Seq<u8>)
    ensures
        match first_newline(body) {
            Some(k) => 0 <= k < body.len() && body[k] == 10 && (forall|j: int|
                0 <= j < k ==> #[trigger] body[j] != 10),
            None => forall|j: int| 0 <= j < body.len() ==> #[trigger] body[j] != 10,
        },
    decreases body.len(),
{
    if body.len() > 0 && body[0] != 10 {
        let rest = body.skip(1);
        newline_stands(rest);
        assert forall|j: int| 1 <= j < body.len() implies body[j] == rest[j - 1] by {}
    }
}

/// The program that a first line asks the environment for: one word, no option.
pub open spec fn program_in(line: Seq<char>) -> Option<Seq<char>> {
    match text::without_prefix(line, "#!/usr/bin/env "@) {
        Some(rest) => {
            let prog = text::trim(rest, Class::Space);
            if prog.len() == 0 || text::has_class(prog, Class::Space) || prog[0] == '-' {
                None
            } else {
                Some(prog)
            }
        },
        None => None,
    }
}

/// The program that a script asks the environment for.
pub open spec fn env_program(body: Seq<u8>) -> Option<Seq<char>> {
    match first_newline(body) {
        Some(k) => if vstd::utf8::valid_utf8(body.take(k)) {
            program_in(vstd::utf8::decode_utf8(body.take(k)))
        } else {
            None
        },
        None => None,
    }
}

/// The index of the first newline.
fn line_end(body: &[u8]) -> (r: Option<usize>)
    ensures
        match r {
            Some(k) => first_newline(body@) == Some(k as int) && k < body@.len(),
            None => first_newline(body@) is None,
        },
{
    proof {
        newline_stands(body@);
    }
    for i in 0..body.len()
        invariant
            forall|j: int| 0 <= j < i ==> #[trigger] body@[j] != 10,
            match first_newline(body@) {
                Some(k) => 0 <= k < body@.len() && body@[k] == 10 && (forall|j: int|
                    0 <= j < k ==> #[trigger] body@[j] != 10),
                None => forall|j: int| 0 <= j < body@.len() ==> #[trigger] body@[j] != 10,
            },
    {
        if body[i] == 10 {
            return Some(i);
        }
    }
    None
}

/// The bytes from one index up to another.
fn slice_of(body: &[u8], from: usize, to: usize) -> (r: Vec<u8>)
    requires
        from <= to <= body@.len(),
    ensures
        r@ == body@.subrange(from as int, to as int),
{
    let mut out: Vec<u8> = Vec::new();
    for i in from..to
        invariant
            from <= to <= body@.len(),
            out@ == body@.subrange(from as int, i as int),
    {
        out.push(body[i]);
        assert(body@.subrange(from as int, i + 1) =~= body@.subrange(from as int, i as int).push(
            body@[i as int],
        ));
    }
    out
}

/// The program that a script asks the environment for, in a sandbox that has
/// no such environment.
pub fn env_shebang(body: &[u8]) -> (r: Option<String>)
    ensures
        views::opt_text(r) == env_program(body@),
{
    let k = match line_end(body) {
        Some(k) => k,
        None => {
            return None;
        },
    };
    let first = slice_of(body, 0, k);
    assert(first@ =~= body@.take(k as int));
    let line = match outside::utf8_text(first.as_slice()) {
        Some(s) => s,
        None => {
            return None;
        },
    };
    let c = text::chars_of(line.as_str());
    match text::strip_lit(&c, "#!/usr/bin/env ") {
        Some(rest) => {
            let prog = text::trimmed(&rest, Class::Space);
            if prog.len() == 0 || text::any_in(&prog, Class::Space) || prog[0] == '-' {
                None
            } else {
                Some(text::string_of(&prog))
            }
        },
        None => None,
    }
}

/// The script with its first line naming the program itself.
pub open spec fn with_interpreter(body: Seq<u8>, program: Seq<char>) -> Seq<u8> {
    match first_newline(body) {
        Some(k) => vstd::utf8::encode_utf8("#!"@ + program + "\n"@) + body.skip(k + 1),
        None => body,
    }
}

/// The program that a file asks the environment for when it is run: it is a
/// regular file, some execute bit of its mode is set, and it is such a script.
pub open spec fn run_program(is_file: bool, mode: u32, body: Seq<u8>) -> Option<Seq<char>> {
    if is_file && mode & 0o111u32 != 0 {
        env_program(body)
    } else {
        None
    }
}

/// The program that a file asks the environment for when it is run: the one to
/// look up on the search path.
pub fn shebang_program(is_file: bool, mode: u32, body: &[u8]) -> (r: Option<String>)
    ensures
        views::opt_text(r) == run_program(is_file, mode, body@),
{
    if is_file && mode & 0o111u32 != 0 {
        env_shebang(body)
    } else {
        None
    }
}

/// A script with its interpreter spelled out; `found` is where the program that
/// it asks for was found. None leaves the file as it is: one that is not run,
/// one that asks for no program, and one whose program was not found.
pub fn patched_env_shebang(is_file: bool, mode: u32, body: &[u8], found: Option<&str>) -> (r: Option<
    Vec<u8>,
>)
    ensures
        match r {
            Some(v) => run_program(is_file, mode, body@) is Some && found is Some && v@
                == with_interpreter(body@, found->0@),
            None => run_program(is_file, mode, body@) is None || found is None,
        },
{
    match shebang_program(is_file, mode, body) {
        Some(_) => match found {
            Some(p) => Some(patched_script(body, p)),
            None => None,
        },
        None => None,
    }
}

/// The script with its first line naming the program itself.
pub fn patched_script(body: &[u8], program: &str) -> (r: Vec<u8>)
    ensures
        r@ == with_interpreter(body@, program@),
{
    let n: usize = body.len();
    let k = match line_end(body) {
        Some(k) => k,
        None => {
            let all = slice_of(body, 0, n);
            assert(all@ =~= body@);
            return all;
        },
    };
    let mut c = text::chars_of("#!");
    text::append_str(&mut c, program);
    text::append_str(&mut c, "\n");
    let line = text::string_of(&c);
    let head = line.as_str().as_bytes();
    let hn: usize = head.len();
    let mut out = slice_of(head, 0, hn);
    assert(out@ =~= head@);
    let ghost rest = body@.skip(k + 1);
    assert(out@ =~= head@ + rest.take(0));
    for i in (k + 1)..n
        invariant
            n == body@.len(),
            k < n,
            rest == body@.skip(k + 1),
            out@ == head@ + rest.take(i - (k + 1)),
    {
        out.push(body[i]);
        assert((head@ + rest.take(i - (k + 1))).push(body@[i as int]) =~= head@ + rest.take(
            i + 1 - (k + 1),
        ));
    }
    assert(rest.take(rest.len() as int) =~= rest);
    out
}

// ---------------------------------------------------------------------------
// The bytes
// ---------------------------------------------------------------------------

/// The bytes that are uploaded for a file.
#[derive(Debug, PartialEq, Eq)]
pub enum UploadBytes {
    /// Those of the file.
    AsIs,
    /// A script that names its interpreter itself.
    Script(Vec<u8>),
    /// The file with stand-ins in the place of the real output paths.
    Rewritten(Vec<u8>),
    /// Dependency information in which the build directory is the sandbox's.
    DependInfo(String),
}

/// What a choice of bytes says.
pub enum BytesView {
    AsIs,
    Script(Seq<u8>),
    Rewritten(Seq<u8>),
    DependInfo(Seq<char>),
}

impl View for UploadBytes {
    type V = BytesView;

    open spec fn view(&self) -> BytesView {
        match self {
            UploadBytes::AsIs => BytesView::AsIs,
            UploadBytes::Script(v) => BytesView::Script(v@),
            UploadBytes::Rewritten(v) => BytesView::Rewritten(v@),
            UploadBytes::DependInfo(s) => BytesView::DependInfo(s@),
        }
    }
}

/// The bytes that are uploaded. A script that names its interpreter comes
/// first; else stand-ins for output paths, if the file mentions any; else, in
/// dependency information, the sandbox's build directory.
pub open spec fn chosen_bytes(
    script: Option<Seq<u8>>,
    data: Option<Seq<u8>>,
    map: Seq<(Seq<char>, Seq<char>)>,
    canonical: Seq<char>,
    contents: Option<Seq<char>>,
    build_dir: Seq<char>,
) -> BytesView {
    let pairs = rewrite::byte_pairs(map);
    if script is Some {
        BytesView::Script(script->0)
    } else if data is Some && rewrite::any_hit(data->0, pairs) {
        BytesView::Rewritten(rewrite::swap_all(data->0, pairs))
    } else if shapes::is_depend_info(canonical) && contents is Some && rewrite::moved(
        contents->0,
        build_dir,
        path::sandboxed(build_dir),
    ) != contents->0 {
        BytesView::DependInfo(
            rewrite::moved(contents->0, build_dir, path::sandboxed(build_dir)),
        )
    } else {
        BytesView::AsIs
    }
}

/// The bytes that are uploaded for a file. `script` is the file as a script
/// that names its interpreter, where it is one; `data` its bytes, where it is
/// a regular file; `contents` its text, where it is dependency information.
pub fn upload_bytes(
    script: Option<Vec<u8>>,
    data: Option<&[u8]>,
    map: &[(String, String)],
    canonical: &str,
    contents: Option<&str>,
    build_dir: &str,
) -> (r: UploadBytes)
    requires
        rewrite::same_lengths(rewrite::byte_pairs(views::pairs(map@))),
    ensures
        r@ == chosen_bytes(
            match script {
                Some(v) => Some(v@),
                None => None,
            },
            match data {
                Some(v) => Some(v@),
                None => None,
            },
            views::pairs(map@),
            canonical@,
            views::opt_str(contents),
            build_dir@,
        ),
{
    if let Some(v) = script {
        return UploadBytes::Script(v);
    }
    if let Some(d) = data {
        if let Some(v) = rewrite::rewrite_bytes(d, map) {
            return UploadBytes::Rewritten(v);
        }
    }
    if shapes::is_cmake_depend_info(canonical) {
        if let Some(t) = contents {
            let s = rewrite::rewrite_to_sandbox_build_dir(t, build_dir);
            if !text::same_str(s.as_str(), t) {
                return UploadBytes::DependInfo(s);
            }
        }
    }
    UploadBytes::AsIs
}

/// How many files one task uploads at a time.
pub const PER_TASK_ADDS: usize = 8;

/// What to say where the upload of a directory's files fails.
pub fn walk_note(count: usize, dir: &str) -> (r: String)
    ensures
        r@ == "uploading "@ + text::decimal(count as nat)
            + " file(s) found by the build-directory walk of "@ + dir@,
{
    let mut v = text::chars_of("uploading ");
    let n = text::number(count as u64);
    text::append(&mut v, &n);
    text::append_str(&mut v, " file(s) found by the build-directory walk of ");
    text::append_str(&mut v, dir);
    text::string_of(&v)
}

// ---------------------------------------------------------------------------
// Laws
// ---------------------------------------------------------------------------

/// A script keeps everything behind its first line.
pub proof fn script_keeps_its_body(body: Seq<u8>, program: Seq<char>)
    requires
        first_newline(body) is Some,
    ensures
        body.skip(first_newline(body)->0 + 1).is_suffix_of(with_interpreter(body, program)),
{
    newline_stands(body);
    let k = first_newline(body)->0;
    let head = vstd::utf8::encode_utf8("#!"@ + program + "\n"@);
    let all = with_interpreter(body, program);
    assert(all.subrange(head.len() as int, all.len() as int) =~= body.skip(k + 1));
}

/// A file that mentions no output path, is no script that asks for its
/// interpreter and is no dependency information is uploaded as it is.
pub proof fn plain_files_are_kept(
    data: Seq<u8>,
    map: Seq<(Seq<char>, Seq<char>)>,
    canonical: Seq<char>,
    build_dir: Seq<char>,
)
    requires
        !rewrite::any_hit(data, rewrite::byte_pairs(map)),
        !shapes::is_depend_info(canonical),
    ensures
        chosen_bytes(None, Some(data), map, canonical, None, build_dir) is AsIs,
{
}

/// A first line that asks the environment for one program names it, whatever
/// white space stands around it; an option, or a second word, names none.
pub proof fn one_program_is_asked_for(
    gap: Seq<char>,
    prog: Seq<char>,
    trail: Seq<char>,
    c: char,
    more: Seq<char>,
)
    requires
        forall|i: int| 0 <= i < gap.len() ==> text::is_space(#[trigger] gap[i]),
        forall|i: int| 0 <= i < trail.len() ==> text::is_space(#[trigger] trail[i]),
        forall|i: int| 0 <= i < prog.len() ==> !text::is_space(#[trigger] prog[i]),
        prog.len() > 0,
        text::is_space(c),
        more.len() > 0,
        !text::is_space(more.last()),
    ensures
        prog[0] != '-' ==> program_in("#!/usr/bin/env "@ + (gap + prog + trail)) == Some(prog),
        prog[0] == '-' ==> program_in("#!/usr/bin/env "@ + (gap + prog + trail)) is None,
        program_in("#!/usr/bin/env "@ + (gap + (prog + seq![c] + more) + trail)) is None,
        program_in("#!/usr/bin/env "@ + gap) is None,
{
    let h = "#!/usr/bin/env "@;
    let one = gap + prog + trail;
    let two = prog + seq![c] + more;
    let both = gap + two + trail;
    assert(h.is_prefix_of(h + one) && h.is_prefix_of(h + both) && h.is_prefix_of(h + gap));
    assert((h + one).skip(h.len() as int) =~= one);
    assert((h + both).skip(h.len() as int) =~= both);
    assert((h + gap).skip(h.len() as int) =~= gap);
    assert(prog.last() == prog[prog.len() - 1]);
    text::trim_leaves(gap, prog, trail, Class::Space);
    assert(two[0] == prog[0]);
    assert(two.last() == more.last());
    text::trim_leaves(gap, two, trail, Class::Space);
    assert(text::in_class(Class::Space, two[prog.len() as int]));
    text::nothing_is_left(gap, Class::Space);
    assert(!text::has_class(prog, Class::Space)) by {
        if text::has_class(prog, Class::Space) {
            let i = choose|i: int|
                0 <= i < prog.len() && text::in_class(Class::Space, #[trigger] prog[i]);
            assert(text::is_space(prog[i]));
        }
    }
}

/// A line that begins otherwise asks for no program.
pub proof fn other_lines_ask_for_nothing(line: Seq<char>)
    requires
        !"#!/usr/bin/env "@.is_prefix_of(line),
    ensures
        program_in(line) is None,
{
}

/// The first line alone decides, and the first line alone is exchanged: what
/// stands behind the first newline stays byte for byte, and the interpreter comes
/// in front of it.
pub proof fn the_first_line_is_exchanged(body: Seq<u8>, k: int, program: Seq<char>)
    requires
        0 <= k < body.len(),
        body[k] == 10,
        forall|j: int| 0 <= j < k ==> #[trigger] body[j] != 10,
    ensures
        with_interpreter(body, program) == vstd::utf8::encode_utf8("#!"@ + program + "\n"@)
            + body.skip(k + 1),
        vstd::utf8::valid_utf8(body.take(k)) ==> env_program(body) == program_in(
            vstd::utf8::decode_utf8(body.take(k)),
        ),
        !vstd::utf8::valid_utf8(body.take(k)) ==> env_program(body) is None,
{
    newline_stands(body);
    let n = first_newline(body);
    if n is Some {
        let m = n->0;
        if m < k {
            assert(body[m] != 10);
        } else if k < m {
            assert(body[k] != 10);
        }
    } else {
        assert(body[k] != 10);
    }
}

/// A file is run as a script where anyone may execute it: the owner, the group or
/// the others.
pub proof fn any_execute_bit_counts(mode: u32, body: Seq<u8>)
    ensures
        run_program(true, mode, body) == if mode & 0o100u32 != 0 || mode & 0o010u32 != 0 || mode
            & 0o001u32 != 0 {
            env_program(body)
        } else {
            None
        },
        run_program(false, mode, body) is None,
{
    assert((mode & 0o111u32 != 0) == (mode & 0o100u32 != 0 || mode & 0o010u32 != 0 || mode
        & 0o001u32 != 0)) by (bit_vector);
}

/// An exchanged script comes before everything else; then a file that mentions an
/// output path, whatever its name; then dependency information that names the
/// build directory.
pub proof fn bytes_are_chosen_in_order(
    script: Seq<u8>,
    data: Option<Seq<u8>>,
    map: Seq<(Seq<char>, Seq<char>)>,
    canonical: Seq<char>,
    contents: Option<Seq<char>>,
    build_dir: Seq<char>,
)
    ensures
        chosen_bytes(Some(script), data, map, canonical, contents, build_dir) == BytesView::Script(
            script,
        ),
        data is Some && rewrite::any_hit(data->0, rewrite::byte_pairs(map)) ==> chosen_bytes(
            None,
            data,
            map,
            canonical,
            contents,
            build_dir,
        ) == BytesView::Rewritten(rewrite::swap_all(data->0, rewrite::byte_pairs(map))),
        (data is None || !rewrite::any_hit(data->0, rewrite::byte_pairs(map))) && contents is Some
            && (path::file_name(canonical) matches Some(n) && "DependInfo.json"@.is_suffix_of(n))
            && rewrite::moved(contents->0, build_dir, path::sandboxed(build_dir)) != contents->0
            ==> chosen_bytes(None, data, map, canonical, contents, build_dir)
            == BytesView::DependInfo(
            rewrite::moved(contents->0, build_dir, path::sandboxed(build_dir)),
        ),
        (data is None || !rewrite::any_hit(data->0, rewrite::byte_pairs(map))) && !(path::file_name(
            canonical,
        ) matches Some(n) && "DependInfo.json"@.is_suffix_of(n)) ==> chosen_bytes(
            None,
            data,
            map,
            canonical,
            contents,
            build_dir,
        ) is AsIs,
{
}

/// An uploaded file lies where it is seen from the build directory: an absolute
/// path is spelled from there and leads back to it.
pub proof fn uploads_lie_where_they_are_seen(build_dir: Seq<char>, p: Seq<char>)
    requires
        path::is_abs(p),
        path::is_abs(build_dir),
        !path::comps(p).contains(path::up()),
        !path::comps(build_dir).contains(path::up()),
    ensures
        !path::is_abs(placed_at(build_dir, p)),
        path::same_path(path::walked(build_dir, placed_at(build_dir, p)), p),
{
    path::relative_then_walked(p, build_dir);
}

} // verus!
