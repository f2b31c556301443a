//! Readers of files that refer to other files: XML and reStructuredText
//! documents, TableGen descriptions, cmake scripts, resource lists, python sources.
use crate::order;
use crate::outer;
use crate::path;
use crate::text;
use crate::text::Class;
use crate::vars::Vars;
use crate::views;
use vstd::prelude::*;
use vstd::utf8::encode_utf8;

verus! {

broadcast use {views::texts_push, views::pieces_push, views::pairs_push};

// ---------------------------------------------------------------------------
// XML inclusions
// ---------------------------------------------------------------------------

/// A character of a URI's scheme.
pub open spec fn scheme_char(c: char) -> bool {
    text::is_ascii_alnum(c) || c == '+' || c == '-' || c == '.'
}

/// A URI with a scheme of its own: a letter and what follows it before the first colon.
pub open spec fn has_scheme(h: Seq<char>) -> bool {
    let k = text::span(h, Class::Only(':'));
    &&& 0 < k < h.len()
    &&& text::is_ascii_alnum(h[0]) && !text::is_digit(h[0])
    &&& forall|j: int| 0 <= j < k ==> scheme_char(#[trigger] h[j])
}

/// Whether a reference is a URI with a scheme of its own.
fn schemed(h: &Vec<char>) -> (r: bool)
    ensures
        r == has_scheme(h@),
{
    assert(h@.skip(0) =~= h@);
    let k = text::stop_from(h, 0, Class::Only(':'));
    if k == 0 || k == h.len() {
        return false;
    }
    for j in 0..k
        invariant
            0 < k < h@.len(),
            k == text::span(h@, Class::Only(':')),
            forall|i: int| 0 <= i < j ==> scheme_char(#[trigger] h@[i]),
    {
        let c = h[j];
        if !(text::ascii_alnum(c) || c == '+' || c == '-' || c == '.') {
            assert(!scheme_char(h@[j as int]));
            return false;
        }
    }
    let c = h[0];
    text::ascii_alnum(c) && !('0' <= c && c <= '9')
}

/// What an inclusion may not name: nothing, a fragment, an absolute URI, an
/// absolute path.
pub open spec fn href_refused(h: Seq<char>) -> bool {
    h.len() == 0 || h[0] == '#' || has_scheme(h) || text::has(h, "://"@) || h[0] == '/'
}

/// The quoted text at the front.
pub open spec fn quoted_front(s: Seq<char>) -> Option<Seq<char>> {
    if s.len() > 0 && text::is_quote(s[0]) {
        let inner = s.drop_first();
        let end = text::span(inner, Class::Only(s[0]));
        if end < inner.len() {
            Some(inner.take(end))
        } else {
            None
        }
    } else {
        None
    }
}

/// The file that an inclusion tag names.
pub open spec fn tag_href(tag: Seq<char>) -> Option<Seq<char>> {
    match text::find(tag, "href="@) {
        Some(h) => match quoted_front(tag.skip(h + 5)) {
            Some(v) => if href_refused(v) {
                None
            } else {
                Some(v)
            },
            None => None,
        },
        None => None,
    }
}

/// The file that an inclusion tag names, in double or in single quotes. A
/// fragment, an absolute URI and an absolute path are refused.
pub fn xinclude_href_of(tag: &str) -> (r: Option<String>)
    ensures
        views::opt_text(r) == tag_href(tag@),
{
    let t = text::chars_of(tag);
    let h = match text::search_lit(&t, "href=") {
        Some(h) => h,
        None => {
            return None;
        },
    };
    let n: usize = t.len();
    proof {
        reveal_strlit("href=");
        assert(h + 5 <= n);
    }
    let after = text::tail(&t, h + 5);
    if after.len() == 0 || !(after[0] == '"' || after[0] == '\'') {
        return None;
    }
    let inner = text::tail(&after, 1);
    assert(inner@ =~= after@.drop_first());
    assert(inner@.skip(0) =~= inner@);
    let end = text::stop_from(&inner, 0, Class::Only(after[0]));
    if end == inner.len() {
        return None;
    }
    let href = text::head(&inner, end);
    if href.len() == 0 || href[0] == '#' || schemed(&href) || text::contains_lit(&href, "://")
        || href[0] == '/' {
        None
    } else {
        Some(text::string_of(&href))
    }
}

/// Where the next inclusion tag begins and how long its name is, whichever
/// spelling comes first.
pub open spec fn next_tag(s: Seq<char>) -> Option<(int, int)> {
    match (text::find(s, "<include"@), text::find(s, "<xi:include"@)) {
        (Some(a), Some(b)) => if a < b {
            Some((a, 8))
        } else {
            Some((b, 11))
        },
        (Some(a), None) => Some((a, 8)),
        (None, Some(b)) => Some((b, 11)),
        (None, None) => None,
    }
}

/// The name of a tag ends here.
pub open spec fn name_ends(after: Seq<char>) -> bool {
    after.len() > 0 && (text::is_space(after[0]) || after[0] == '/' || after[0] == '>')
}

/// The files that the inclusion tags of a document name, in document order.
pub open spec fn hrefs(s: Seq<char>) -> Seq<Seq<char>>
    decreases s.len(),
{
    match next_tag(s) {
        None => Seq::empty(),
        Some((i, n)) => {
            let end = i + text::span(s.skip(i), Class::Only('>'));
            let found = if name_ends(s.skip(i + n)) {
                match tag_href(s.subrange(i, end)) {
                    Some(h) => seq![h],
                    None => Seq::empty(),
                }
            } else {
                Seq::empty()
            };
            if 0 <= end < s.len() {
                found + hrefs(s.skip(end + 1))
            } else {
                found
            }
        },
    }
}

/// The files that the inclusion tags of a document name, in document order,
/// with the namespace prefix or without it.
pub fn xinclude_hrefs(contents: &str) -> (r: Vec<String>)
    ensures
        views::texts(r@) == hrefs(contents@),
{
    let mut rest = text::chars_of(contents);
    let mut out: Vec<String> = Vec::new();
    proof {
        reveal_strlit("<include");
        reveal_strlit("<xi:include");
        assert(views::texts(out@) + hrefs(rest@) =~= hrefs(contents@));
    }
    loop
        invariant
            "<include"@.len() == 8,
            "<xi:include"@.len() == 11,
            hrefs(contents@) == views::texts(out@) + hrefs(rest@),
        decreases rest@.len(),
    {
        let ghost before = views::texts(out@);
        let ghost s = rest@;
        let total: usize = rest.len();
        let (i, n): (usize, usize) = match (
            text::search_lit(&rest, "<include"),
            text::search_lit(&rest, "<xi:include"),
        ) {
            (Some(a), Some(b)) => if a < b {
                (a, 8)
            } else {
                (b, 11)
            },
            (Some(a), None) => (a, 8),
            (None, Some(b)) => (b, 11),
            (None, None) => {
                assert(before + hrefs(s) =~= before);
                return out;
            },
        };
        assert(i + n <= total);
        let end = text::stop_from(&rest, i, Class::Only('>'));
        let after: usize = i + n;
        let ghost found: Seq<Seq<char>> = Seq::empty();
        if after < total && (text::space(rest[after]) || rest[after] == '/' || rest[after] == '>') {
            assert(s.skip(i + n)[0] == rest@[after as int]);
            let tag = text::cut(&rest, i, end);
            let t = text::string_of(&tag);
            if let Some(h) = xinclude_href_of(t.as_str()) {
                proof {
                    found = seq![h@];
                }
                out.push(h);
            }
        } else {
            assert(after < total ==> s.skip(i + n)[0] == rest@[after as int]);
        }
        assert(views::texts(out@) =~= before + found);
        if end == total {
            assert(hrefs(s) == found);
            return out;
        }
        rest = text::tail(&rest, end + 1);
        assert(before + (found + hrefs(rest@)) =~= before + found + hrefs(rest@));
    }
}

// ---------------------------------------------------------------------------
// TableGen and reStructuredText
// ---------------------------------------------------------------------------

/// The file that a line of a TableGen description includes.
pub open spec fn tablegen_line(line: Seq<char>) -> Option<Seq<char>> {
    match text::without_prefix(text::trim_start(line, Class::Space), "include"@) {
        Some(rest) => if rest.len() > 0 && text::is_space(rest[0]) {
            let q = text::trim_start(rest, Class::Space);
            if q.len() > 0 && q[0] == '"' {
                quoted_front(q)
            } else {
                None
            }
        } else {
            None
        },
        None => None,
    }
}

/// The file that a line of reStructuredText includes.
pub open spec fn rst_line(line: Seq<char>) -> Option<Seq<char>> {
    match text::without_prefix(text::trim_start(line, Class::Space), ".. include::"@) {
        Some(rest) => if text::trim(rest, Class::Space).len() > 0 {
            Some(text::trim(rest, Class::Space))
        } else {
            None
        },
        None => None,
    }
}

/// The files that the lines of a TableGen description include.
pub open spec fn tablegen_names(ls: Seq<Seq<char>>) -> Seq<Seq<char>>
    decreases ls.len(),
{
    if ls.len() == 0 {
        Seq::empty()
    } else {
        match tablegen_line(ls.last()) {
            Some(n) => tablegen_names(ls.drop_last()).push(n),
            None => tablegen_names(ls.drop_last()),
        }
    }
}

/// The files that the lines of a reStructuredText document include.
pub open spec fn rst_names(ls: Seq<Seq<char>>) -> Seq<Seq<char>>
    decreases ls.len(),
{
    if ls.len() == 0 {
        Seq::empty()
    } else {
        match rst_line(ls.last()) {
            Some(n) => rst_names(ls.drop_last()).push(n),
            None => rst_names(ls.drop_last()),
        }
    }
}

fn tablegen_name_in(line: &Vec<char>) -> (r: Option<Vec<char>>)
    ensures
        views::opt_piece(r) == tablegen_line(line@),
{
    let t = text::trimmed_start(line, Class::Space);
    match text::strip_lit(&t, "include") {
        Some(rest) => {
            if rest.len() == 0 || !text::space(rest[0]) {
                return None;
            }
            let q = text::trimmed_start(&rest, Class::Space);
            if q.len() == 0 || q[0] != '"' {
                return None;
            }
            let inner = text::tail(&q, 1);
            assert(inner@ =~= q@.drop_first());
            assert(inner@.skip(0) =~= inner@);
            let end = text::stop_from(&inner, 0, Class::Only('"'));
            if end == inner.len() {
                None
            } else {
                Some(text::head(&inner, end))
            }
        },
        None => None,
    }
}

/// The files that a TableGen description includes: one statement to a line,
/// its argument in double quotes.
pub fn tablegen_include_names(contents: &str) -> (r: Vec<String>)
    ensures
        views::texts(r@) == tablegen_names(text::lines(contents@)),
{
    let c = text::chars_of(contents);
    let ls = text::lines_of(&c);
    let ghost all = views::pieces(ls@);
    let mut out: Vec<String> = Vec::new();
    assert(views::texts(out@) =~= tablegen_names(all.take(0)));
    for i in 0..ls.len()
        invariant
            all == views::pieces(ls@),
            views::texts(out@) == tablegen_names(all.take(i as int)),
    {
        assert(all.take(i + 1).drop_last() =~= all.take(i as int));
        assert(all.take(i + 1).last() == ls@[i as int]@);
        if let Some(n) = tablegen_name_in(&ls[i]) {
            out.push(text::string_of(&n));
        }
    }
    assert(all.take(all.len() as int) =~= all);
    out
}

/// The files that a reStructuredText document includes.
pub fn rst_include_names(contents: &str) -> (r: Vec<String>)
    ensures
        views::texts(r@) == rst_names(text::lines(contents@)),
{
    let c = text::chars_of(contents);
    let ls = text::lines_of(&c);
    let ghost all = views::pieces(ls@);
    let mut out: Vec<String> = Vec::new();
    assert(views::texts(out@) =~= rst_names(all.take(0)));
    for i in 0..ls.len()
        invariant
            all == views::pieces(ls@),
            views::texts(out@) == rst_names(all.take(i as int)),
    {
        assert(all.take(i + 1).drop_last() =~= all.take(i as int));
        assert(all.take(i + 1).last() == ls@[i as int]@);
        let t = text::trimmed_start(&ls[i], Class::Space);
        if let Some(rest) = text::strip_lit(&t, ".. include::") {
            let name = text::trimmed(&rest, Class::Space);
            if name.len() > 0 {
                out.push(text::string_of(&name));
            }
        }
    }
    assert(all.take(all.len() as int) =~= all);
    out
}

// ---------------------------------------------------------------------------
// CMake scripts
// ---------------------------------------------------------------------------

/// A character of a cmake identifier.
pub open spec fn is_ident(c: char) -> bool {
    text::is_ascii_alnum(c) || c == '_' || c == '-'
}

/// Whether a byte belongs to a cmake identifier.
pub fn is_cmake_ident_byte(b: u8) -> (r: bool)
    ensures
        r == ((48 <= b <= 57) || (65 <= b <= 90) || (97 <= b <= 122) || b == 95 || b == 45),
{
    (48 <= b && b <= 57) || (65 <= b && b <= 90) || (97 <= b && b <= 122) || b == 95 || b == 45
}

/// How a line of a cmake script reads up to some position.
pub struct LineState {
    /// A quoted argument is open.
    pub quoted: bool,
    /// The next character is escaped.
    pub escaped: bool,
    /// A comment has begun.
    pub comment: bool,
}

/// How the line reads behind one character more.
pub open spec fn line_step(s: LineState, c: char) -> LineState {
    if s.comment {
        s
    } else if s.escaped {
        LineState { escaped: false, ..s }
    } else if c == '\\' {
        LineState { escaped: true, ..s }
    } else if c == '"' {
        LineState { quoted: !s.quoted, ..s }
    } else if c == '#' && !s.quoted {
        LineState { comment: true, ..s }
    } else {
        s
    }
}

/// How a line reads behind its text so far.
pub open spec fn line_state(line: Seq<char>) -> LineState
    decreases line.len(),
{
    if line.len() == 0 {
        LineState { quoted: false, escaped: false, comment: false }
    } else {
        line_step(line_state(line.drop_last()), line.last())
    }
}

/// The position lies in a comment: behind a `#` on its line that is neither
/// quoted nor escaped.
pub open spec fn in_comment(s: Seq<char>, at: int) -> bool {
    line_state(text::after_last(s.take(at), '\n')).comment
}

fn comment_at(s: &Vec<char>, at: usize) -> (r: bool)
    requires
        at <= s.len(),
    ensures
        r == in_comment(s@, at as int),
{
    let h = text::head(s, at);
    let line = text::behind_last(&h, '\n');
    let mut quoted = false;
    let mut escaped = false;
    let mut comment = false;
    assert(line@.take(0) =~= Seq::<char>::empty());
    for i in 0..line.len()
        invariant
            line_state(line@.take(i as int)) == (LineState { quoted, escaped, comment }),
    {
        assert(line@.take(i + 1).drop_last() =~= line@.take(i as int));
        assert(line@.take(i + 1).last() == line@[i as int]);
        if !comment {
            if escaped {
                escaped = false;
            } else if line[i] == '\\' {
                escaped = true;
            } else if line[i] == '"' {
                quoted = !quoted;
            } else if line[i] == '#' && !quoted {
                comment = true;
            }
        }
    }
    assert(line@.take(line@.len() as int) =~= line@);
    comment
}

/// Where the character with an index begins, counted in bytes.
pub open spec fn byte_offset(s: Seq<char>, i: int) -> nat {
    encode_utf8(s.take(i)).len()
}

/// One character more is at least one byte more.
proof fn offset_steps(s: Seq<char>, i: int)
    requires
        0 <= i < s.len(),
    ensures
        byte_offset(s, i + 1) == byte_offset(s, i) + encode_utf8(seq![s[i]]).len(),
        byte_offset(s, i) < byte_offset(s, i + 1),
{
    outer::encode_concat(s.take(i), seq![s[i]]);
    assert(s.take(i) + seq![s[i]] =~= s.take(i + 1));
    let one = seq![s[i]];
    assert(one.drop_first() =~= Seq::<char>::empty());
    assert(encode_utf8(one) == vstd::utf8::encode_scalar(one[0] as u32) + encode_utf8(
        one.drop_first(),
    ));
}

/// Later characters begin later.
proof fn offsets_grow(s: Seq<char>, i: int, j: int)
    requires
        0 <= i < j <= s.len(),
    ensures
        byte_offset(s, i) < byte_offset(s, j),
    decreases j - i,
{
    offset_steps(s, j - 1);
    if i < j - 1 {
        offsets_grow(s, i, j - 1);
    }
}

/// Whether a position, counted in bytes, lies in a comment of its line. A
/// character has to begin there, or the text to end.
pub fn line_is_comment(contents: &str, at: usize) -> (r: bool)
    requires
        exists|i: int| 0 <= i <= contents@.len() && #[trigger] byte_offset(contents@, i) == at,
    ensures
        forall|i: int|
            0 <= i <= contents@.len() && #[trigger] byte_offset(contents@, i) == at ==> r
                == in_comment(contents@, i),
{
    let c = text::chars_of(contents);
    let ghost w = choose|i: int|
        0 <= i <= contents@.len() && #[trigger] byte_offset(contents@, i) == at;
    let total: usize = contents.as_bytes().len();
    let len: usize = c.len();
    let mut i: usize = 0;
    let mut n: usize = 0;
    proof {
        assert(c@.take(0) =~= Seq::<char>::empty());
        assert(c@.take(c@.len() as int) =~= c@);
    }
    while n < at
        invariant
            c@ == contents@,
            len == c@.len(),
            total == byte_offset(c@, c@.len() as int),
            0 <= w <= c@.len(),
            byte_offset(c@, w) == at,
            i <= w,
            n == byte_offset(c@, i as int),
        decreases w - i,
    {
        proof {
            offset_steps(c@, i as int);
            if i + 1 < c@.len() {
                offsets_grow(c@, i + 1, c@.len() as int);
            }
            if w > i + 1 {
                offsets_grow(c@, i + 1, w);
            }
        }
        let mut one: Vec<char> = Vec::new();
        one.push(c[i]);
        assert(one@ =~= seq![c@[i as int]]);
        n = n + text::string_of(&one).as_str().as_bytes().len();
        i = i + 1;
    }
    proof {
        if i < w {
            offsets_grow(c@, i as int, w);
        }
        assert forall|k: int|
            0 <= k <= contents@.len() && #[trigger] byte_offset(contents@, k) == at implies k
            == i by {
            if k < i {
                offsets_grow(c@, k, i as int);
            } else if i < k {
                offsets_grow(c@, i as int, k);
            }
        }
    }
    comment_at(&c, i)
}

/// A call of `set` begins at `i`: not inside a longer identifier, an opening
/// bracket behind it, and not in a comment.
pub open spec fn set_call_at(s: Seq<char>, i: int) -> bool {
    let after = text::trim_start(s.skip(i + 3), Class::Space);
    &&& text::occurs_at(s, "set"@, i)
    &&& (i == 0 || !is_ident(s[i - 1]))
    &&& after.len() > 0 && after[0] == '('
    &&& !in_comment(s, i)
}

/// The first call of `set` from `i` on.
pub open spec fn set_call_from(s: Seq<char>, i: int) -> Option<int>
    decreases s.len() - i,
{
    if i >= s.len() {
        None
    } else if set_call_at(s, i) {
        Some(i)
    } else {
        set_call_from(s, i + 1)
    }
}

fn search_set_call(s: &Vec<char>) -> (r: Option<usize>)
    ensures
        match r {
            Some(i) => set_call_from(s@, 0) == Some(i as int) && set_call_at(s@, i as int),
            None => set_call_from(s@, 0) is None,
        },
{
    let word = text::chars_of("set");
    let total: usize = s.len();
    proof {
        reveal_strlit("set");
    }
    for i in 0..s.len()
        invariant
            word@ == "set"@,
            word@.len() == 3,
            total == s@.len(),
            set_call_from(s@, 0) == set_call_from(s@, i as int),
    {
        if text::stands_at(s, &word, i) {
            assert(i + 3 <= total);
            let before_ok = i == 0 || !(text::ascii_alnum(s[i - 1]) || s[i - 1] == '_' || s[i - 1]
                == '-');
            let behind = text::tail(s, i + 3);
            let after = text::trimmed_start(&behind, Class::Space);
            if before_ok && after.len() > 0 && after[0] == '(' && !comment_at(s, i) {
                return Some(i);
            }
        }
    }
    None
}

/// Where the next call of `set` begins, counted in bytes.
pub fn find_set_call(contents: &str) -> (r: Option<usize>)
    ensures
        match r {
            Some(b) => set_call_from(contents@, 0) matches Some(i) && b == byte_offset(
                contents@,
                i,
            ),
            None => set_call_from(contents@, 0) is None,
        },
{
    let c = text::chars_of(contents);
    match search_set_call(&c) {
        Some(i) => {
            let h = text::head(&c, i);
            Some(text::string_of(&h).as_str().as_bytes().len())
        },
        None => None,
    }
}

/// The value of a setting, its quotes removed.
pub open spec fn unquoted(v: Seq<char>) -> Seq<char> {
    text::trim(text::trim(v, Class::Only('"')), Class::Only('\''))
}

/// The name and the value of a call's arguments: its first two words.
pub open spec fn setting_of(body: Seq<char>) -> Seq<(Seq<char>, Seq<char>)> {
    let ws = text::words(body);
    if ws.len() >= 2 {
        seq![(ws[0], unquoted(ws[1]))]
    } else {
        Seq::empty()
    }
}

/// The settings that a script makes, in its order, unexpanded.
pub open spec fn set_calls(s: Seq<char>) -> Seq<(Seq<char>, Seq<char>)>
    decreases s.len(),
{
    match set_call_from(s, 0) {
        None => Seq::empty(),
        Some(p) => {
            let call = s.skip(p);
            let open = text::span(call, Class::Only('('));
            let close = open + text::span(call.skip(open), Class::Only(')'));
            if 0 <= p < s.len() && 0 <= open < close < call.len() {
                setting_of(call.subrange(open + 1, close)) + set_calls(call.skip(close))
            } else {
                Seq::empty()
            }
        },
    }
}

/// The settings that a cmake script makes, in its order, unexpanded. Of a call
/// with more arguments the first value counts.
#[verifier::rlimit(60)]
pub fn cmake_set_calls(contents: &str) -> (r: Vec<(String, String)>)
    ensures
        views::pairs(r@) == set_calls(contents@),
{
    let mut rest = text::chars_of(contents);
    let mut out: Vec<(String, String)> = Vec::new();
    assert(views::pairs(out@) + set_calls(rest@) =~= set_calls(contents@));
    loop
        invariant
            set_calls(contents@) == views::pairs(out@) + set_calls(rest@),
        decreases rest@.len(),
    {
        let ghost before = views::pairs(out@);
        let ghost s = rest@;
        let p = match search_set_call(&rest) {
            Some(p) => p,
            None => {
                assert(before + set_calls(s) =~= before);
                return out;
            },
        };
        let call = text::tail(&rest, p);
        let ghost gc = call@;
        assert(gc.skip(0) =~= gc);
        let open = text::stop_from(&call, 0, Class::Only('('));
        let close = text::stop_from(&call, open, Class::Only(')'));
        if open == close || close == call.len() {
            assert(before + set_calls(s) =~= before);
            return out;
        }
        proof {
            reveal_strlit("set");
            // the call begins with a letter, so its bracket lies behind that
            assert(text::occurs_at(s, "set"@, p as int));
            assert(gc[0] == s[p as int]);
            assert(s.subrange(p as int, p + 3)[0] == "set"@[0]);
            assert(open > 0);
        }
        let body = text::cut(&call, open + 1, close);
        let ws = text::words_of(&body);
        assert(views::pieces(ws@).len() == ws@.len());
        let ghost found: Seq<(Seq<char>, Seq<char>)> = Seq::empty();
        if ws.len() >= 2 {
            let a = text::trimmed(&ws[1], Class::Only('"'));
            let v = text::trimmed(&a, Class::Only('\''));
            let name = text::string_of(&ws[0]);
            let value = text::string_of(&v);
            assert(views::pieces(ws@)[0] == ws@[0]@ && views::pieces(ws@)[1] == ws@[1]@);
            proof {
                found = seq![(name@, value@)];
            }
            out.push((name, value));
        }
        assert(views::pairs(out@) =~= before + found);
        assert(found == setting_of(body@));
        rest = text::tail(&call, close);
        assert(before + (found + set_calls(rest@)) =~= before + found + set_calls(rest@));
    }
}

/// A text with its references replaced; none where one is unknown or left open.
pub open spec fn expand(s: Seq<char>, vars: Map<Seq<char>, Seq<char>>) -> Option<Seq<char>>
    decreases s.len(),
{
    match text::find(s, "${"@) {
        None => Some(s),
        Some(i) => {
            let n = text::span(s.skip(i), Class::Only('}'));
            let end = i + n;
            if 0 <= i && i + 2 <= end < s.len() && vars.contains_key(s.subrange(i + 2, end)) {
                match expand(s.skip(end + 1), vars) {
                    Some(rest) => Some(s.take(i) + vars[s.subrange(i + 2, end)] + rest),
                    None => None,
                }
            } else {
                None
            }
        },
    }
}

/// A text with its references to variables replaced; nothing where a
/// reference is unknown, rather than half a path.
pub fn expand_cmake_vars(raw: &str, vars: &Vars) -> (r: Option<String>)
    ensures
        views::opt_text(r) == expand(raw@, vars@),
{
    let mut rest = text::chars_of(raw);
    let mut out: Vec<char> = Vec::new();
    proof {
        reveal_strlit("${");
        if let Some(x) = expand(rest@, vars@) {
            assert(out@ + x =~= x);
        }
    }
    loop
        invariant
            "${"@ == seq!['$', '{'],
            expand(raw@, vars@) == match expand(rest@, vars@) {
                Some(x) => Some(out@ + x),
                None => None,
            },
        decreases rest@.len(),
    {
        let ghost before = out@;
        let ghost s = rest@;
        let total: usize = rest.len();
        let i = match text::search_lit(&rest, "${") {
            Some(i) => i,
            None => {
                text::append(&mut out, &rest);
                return Some(text::string_of(&out));
            },
        };
        let end = text::stop_from(&rest, i, Class::Only('}'));
        if end == total {
            return None;
        }
        proof {
            assert(s.subrange(i as int, i + 2)[0] == '$');
            assert(s.subrange(i as int, i + 2)[1] == '{');
            assert(s[i as int] == '$' && s[i + 1] == '{');
            assert(text::in_class(Class::Only('}'), s[end as int]));
            assert(end >= i + 2);
        }
        let name = text::cut(&rest, i + 2, end);
        let ns = text::string_of(&name);
        let value = match vars.get(ns.as_str()) {
            Some(v) => v,
            None => {
                return None;
            },
        };
        let h = text::head(&rest, i);
        text::append(&mut out, &h);
        text::append_str(&mut out, value.as_str());
        rest = text::tail(&rest, end + 1);
        proof {
            if let Some(x) = expand(rest@, vars@) {
                assert(out@ + x =~= before + (s.take(i as int) + value@ + x));
            }
        }
    }
}

/// The paths that settings compose, each once, while every setting that can be
/// expanded becomes known to the next.
pub open spec fn composed(
    calls: Seq<(Seq<char>, Seq<char>)>,
    vars: Map<Seq<char>, Seq<char>>,
    found: Seq<Seq<char>>,
) -> Seq<Seq<char>>
    decreases calls.len(),
{
    if calls.len() == 0 {
        found
    } else {
        let rest = calls.drop_first();
        match expand(calls[0].1, vars) {
            None => composed(rest, vars, found),
            Some(v) => composed(
                rest,
                vars.insert(calls[0].0, v),
                if v.contains('/') && !found.contains(v) {
                    found.push(v)
                } else {
                    found
                },
            ),
        }
    }
}

/// The paths that a cmake script composes out of its settings and of what its
/// command line defines.
pub fn cmake_script_referenced_paths(script: &str, definitions: &Vars) -> (r: Vec<String>)
    ensures
        views::texts(r@) == composed(set_calls(script@), definitions@, Seq::empty()),
{
    let calls = cmake_set_calls(script);
    let ghost all = views::pairs(calls@);
    let mut vars = definitions.dup();
    let mut out: Vec<String> = Vec::new();
    assert(all.skip(0) =~= all);
    assert(views::texts(out@) =~= Seq::<Seq<char>>::empty());
    for i in 0..calls.len()
        invariant
            all == views::pairs(calls@),
            composed(all, definitions@, Seq::empty()) == composed(
                all.skip(i as int),
                vars@,
                views::texts(out@),
            ),
    {
        proof {
            assert(all.skip(i as int)[0] == all[i as int]);
            assert(all.skip(i as int).drop_first() =~= all.skip(i + 1));
        }
        if let Some(v) = expand_cmake_vars(calls[i].1.as_str(), &vars) {
            let c = text::chars_of(v.as_str());
            if text::contains_char(&c, '/') && !text::list_has(&out, v.as_str()) {
                out.push(v.clone());
            }
            vars.set(calls[i].0.as_str(), v.as_str());
        }
    }
    out
}

// ---------------------------------------------------------------------------
// Resource lists
// ---------------------------------------------------------------------------

/// The values behind an attribute's opening quote: each up to the next quote,
/// or to the next occurrence of the attribute.
pub open spec fn attr_values(s: Seq<char>, attr: Seq<char>) -> Seq<Seq<char>>
    decreases s.len(),
{
    match text::find(s, attr) {
        None => Seq::empty(),
        Some(i) => if attr.len() > 0 && 0 <= i && i + attr.len() <= s.len() {
            let rest = s.skip(i + attr.len());
            let chunk = match text::find(rest, attr) {
                Some(j) => rest.take(j),
                None => rest,
            };
            seq![chunk.take(text::span(chunk, Class::Only('"')))] + attr_values(rest, attr)
        } else {
            Seq::empty()
        },
    }
}

fn values_of(contents: &Vec<char>, attr: &str) -> (r: Vec<Vec<char>>)
    requires
        attr@.len() > 0,
    ensures
        views::pieces(r@) == attr_values(contents@, attr@),
{
    let mut rest = text::copy(contents);
    let n = text::chars_of(attr);
    let mut out: Vec<Vec<char>> = Vec::new();
    assert(views::pieces(out@) + attr_values(rest@, attr@) =~= attr_values(contents@, attr@));
    loop
        invariant
            n@ == attr@,
            attr@.len() > 0,
            attr_values(contents@, attr@) == views::pieces(out@) + attr_values(rest@, attr@),
        decreases rest@.len(),
    {
        let ghost before = views::pieces(out@);
        let total: usize = rest.len();
        match text::search(&rest, &n) {
            None => {
                assert(before + attr_values(rest@, attr@) =~= before);
                return out;
            },
            Some(i) => {
                assert(i + n@.len() <= total);
                let after = text::tail(&rest, i + n.len());
                let chunk = match text::search(&after, &n) {
                    Some(j) => text::head(&after, j),
                    None => text::copy(&after),
                };
                assert(chunk@.skip(0) =~= chunk@);
                let end = text::stop_from(&chunk, 0, Class::Only('"'));
                let v = text::head(&chunk, end);
                out.push(v);
                assert(before.push(v@) + attr_values(after@, attr@) =~= before + (seq![v@]
                    + attr_values(after@, attr@)));
                rest = after;
            },
        }
    }
}

/// The values that name files: not empty, no URL.
pub open spec fn file_values(vs: Seq<Seq<char>>) -> Seq<Seq<char>>
    decreases vs.len(),
{
    if vs.len() == 0 {
        Seq::empty()
    } else if vs.last().len() == 0 || text::has(vs.last(), "://"@) {
        file_values(vs.drop_last())
    } else {
        file_values(vs.drop_last()).push(vs.last())
    }
}

/// The files that a resource list names, those in `file` attributes first.
pub open spec fn grd_values(s: Seq<char>) -> Seq<Seq<char>> {
    file_values(attr_values(s, "file=\""@)) + file_values(attr_values(s, "path=\""@))
}

fn push_file_values(out: &mut Vec<String>, vs: &Vec<Vec<char>>)
    ensures
        views::texts(final(out)@) == views::texts(old(out)@) + file_values(views::pieces(vs@)),
{
    let ghost before = views::texts(out@);
    let ghost all = views::pieces(vs@);
    assert(views::texts(out@) =~= before + file_values(all.take(0)));
    for i in 0..vs.len()
        invariant
            all == views::pieces(vs@),
            views::texts(out@) == before + file_values(all.take(i as int)),
    {
        assert(all.take(i + 1).drop_last() =~= all.take(i as int));
        assert(all.take(i + 1).last() == vs@[i as int]@);
        if vs[i].len() > 0 && !text::contains_lit(&vs[i], "://") {
            out.push(text::string_of(&vs[i]));
            assert((before + file_values(all.take(i as int))).push(vs@[i as int]@) =~= before
                + file_values(all.take(i as int)).push(vs@[i as int]@));
        }
    }
    assert(all.take(all.len() as int) =~= all);
}

/// The files that a resource list names.
fn grd_values_of(contents: &str) -> (r: Vec<String>)
    ensures
        views::texts(r@) == grd_values(contents@),
{
    let c = text::chars_of(contents);
    proof {
        reveal_strlit("file=\"");
        reveal_strlit("path=\"");
    }
    let a = values_of(&c, "file=\"");
    let b = values_of(&c, "path=\"");
    let mut out: Vec<String> = Vec::new();
    assert(views::texts(out@) =~= Seq::<Seq<char>>::empty());
    push_file_values(&mut out, &a);
    assert(views::texts(out@) =~= file_values(views::pieces(a@)));
    push_file_values(&mut out, &b);
    out
}

/// The directories with scaled images: the usual ones, then those that the
/// list itself names.
pub open spec fn grd_contexts(vs: Seq<Seq<char>>) -> Seq<Seq<char>>
    decreases vs.len(),
{
    if vs.len() == 0 {
        seq!["default_100_percent"@, "default_200_percent"@, "default_300_percent"@]
    } else {
        let front = grd_contexts(vs.drop_last());
        if vs.last().len() > 0 && !front.contains(vs.last()) {
            front.push(vs.last())
        } else {
            front
        }
    }
}

fn grd_contexts_of(contents: &str) -> (r: Vec<String>)
    ensures
        views::texts(r@) == grd_contexts(attr_values(contents@, "context=\""@)),
{
    let c = text::chars_of(contents);
    proof {
        reveal_strlit("context=\"");
    }
    let vs = values_of(&c, "context=\"");
    let ghost all = views::pieces(vs@);
    let mut out: Vec<String> = Vec::new();
    let a = text::chars_of("default_100_percent");
    out.push(text::string_of(&a));
    let b = text::chars_of("default_200_percent");
    out.push(text::string_of(&b));
    let d = text::chars_of("default_300_percent");
    out.push(text::string_of(&d));
    assert(views::texts(out@) =~= grd_contexts(all.take(0)));
    for i in 0..vs.len()
        invariant
            all == views::pieces(vs@),
            views::texts(out@) == grd_contexts(all.take(i as int)),
    {
        assert(all.take(i + 1).drop_last() =~= all.take(i as int));
        assert(all.take(i + 1).last() == vs@[i as int]@);
        let s = text::string_of(&vs[i]);
        if vs[i].len() > 0 && !text::list_has(&out, s.as_str()) {
            out.push(s);
        }
    }
    assert(all.take(all.len() as int) =~= all);
    out
}

/// A reference of a resource list: the place it names, and where scaled images
/// of that name may lie.
#[derive(Debug)]
pub struct GrdReference {
    pub direct: String,
    pub scaled: Vec<String>,
}

/// The places of a reference.
pub open spec fn places(r: GrdReference) -> (Seq<char>, Seq<Seq<char>>) {
    (r.direct@, views::texts(r.scaled@))
}

/// Where scaled images of a name may lie.
pub open spec fn scaled_places(
    dir: Seq<char>,
    contexts: Seq<Seq<char>>,
    v: Seq<char>,
) -> Seq<Seq<char>> {
    contexts.map_values(|c: Seq<char>| path::joined(path::joined(dir, c), v))
}

/// The references of a resource list in a directory.
pub open spec fn grd_places(dir: Seq<char>, s: Seq<char>) -> Seq<(Seq<char>, Seq<Seq<char>>)> {
    let contexts = grd_contexts(attr_values(s, "context=\""@));
    grd_values(s).map_values(
        |v: Seq<char>| (path::joined(dir, v), scaled_places(dir, contexts, v)),
    )
}

/// The directory in which a resource list lies.
pub open spec fn list_dir(grd: Seq<char>) -> Seq<char> {
    match path::parent(grd) {
        Some(d) => d,
        None => Seq::empty(),
    }
}

/// The directory in which a resource list lies.
fn dir_of_list(grd: &str) -> (r: String)
    ensures
        r@ == list_dir(grd@),
{
    let c = text::chars_of(grd);
    match path::parent_of(&c) {
        Some(d) => text::string_of(&d),
        None => {
            let e: Vec<char> = Vec::new();
            text::string_of(&e)
        },
    }
}

/// The references of the resource list `grd`, in its order.
pub fn grd_references(grd: &str, contents: &str) -> (r: Vec<GrdReference>)
    ensures
        r@.map_values(|g: GrdReference| places(g)) == grd_places(list_dir(grd@), contents@),
{
    let home = dir_of_list(grd);
    let dir = home.as_str();
    let vs = grd_values_of(contents);
    let contexts = grd_contexts_of(contents);
    let ghost want = grd_places(dir@, contents@);
    let ghost gctx = views::texts(contexts@);
    let mut out: Vec<GrdReference> = Vec::new();
    assert(out@.map_values(|g: GrdReference| places(g)) =~= want.take(0));
    for i in 0..vs.len()
        invariant
            want == grd_places(dir@, contents@),
            views::texts(vs@) == grd_values(contents@),
            gctx == views::texts(contexts@),
            gctx == grd_contexts(attr_values(contents@, "context=\""@)),
            out@.map_values(|g: GrdReference| places(g)) == want.take(i as int),
    {
        let v = vs[i].as_str();
        assert(views::texts(vs@)[i as int] == v@);
        let ghost sp = scaled_places(dir@, gctx, v@);
        let mut scaled: Vec<String> = Vec::new();
        assert(views::texts(scaled@) =~= sp.take(0));
        for j in 0..contexts.len()
            invariant
                gctx == views::texts(contexts@),
                sp == scaled_places(dir@, gctx, v@),
                views::texts(scaled@) == sp.take(j as int),
        {
            let d = path::join_str(dir, contexts[j].as_str());
            scaled.push(path::join_str(d.as_str(), v));
            assert(sp.take(j + 1) =~= sp.take(j as int).push(sp[j as int]));
        }
        assert(sp.take(sp.len() as int) =~= sp);
        let direct = path::join_str(dir, v);
        let ghost before = out@;
        let g = GrdReference { direct, scaled };
        let ghost gp = places(g);
        out.push(g);
        assert(out@.map_values(|g: GrdReference| places(g)) =~= before.map_values(
            |g: GrdReference| places(g),
        ).push(gp));
        assert(want.take(i + 1) =~= want.take(i as int).push(want[i as int]));
    }
    assert(want.take(want.len() as int) =~= want);
    out
}

/// The scaled places that hold a file.
pub open spec fn present(ps: Seq<Seq<char>>, found: Seq<bool>) -> Seq<Seq<char>>
    decreases ps.len(),
{
    if ps.len() == 0 || found.len() < ps.len() {
        Seq::empty()
    } else if found[ps.len() - 1] {
        present(ps.drop_last(), found.drop_last()).push(ps.last())
    } else {
        present(ps.drop_last(), found.drop_last())
    }
}

/// The files that a reference stands for, once it is known which places hold
/// one: the place it names, or else every scaled image.
pub fn reference_files(g: &GrdReference, direct: bool, scaled: &Vec<bool>) -> (r: Vec<String>)
    requires
        scaled@.len() == g.scaled@.len(),
    ensures
        views::texts(r@) == if direct {
            seq![g.direct@]
        } else {
            present(views::texts(g.scaled@), scaled@)
        },
{
    let mut out: Vec<String> = Vec::new();
    assert(views::texts(out@) =~= Seq::<Seq<char>>::empty());
    if direct {
        out.push(g.direct.clone());
        assert(views::texts(out@) =~= seq![g.direct@]);
        return out;
    }
    let ghost all = views::texts(g.scaled@);
    for i in 0..g.scaled.len()
        invariant
            all == views::texts(g.scaled@),
            scaled@.len() == g.scaled@.len(),
            views::texts(out@) == present(all.take(i as int), scaled@.take(i as int)),
    {
        assert(all.take(i + 1).drop_last() =~= all.take(i as int));
        assert(all.take(i + 1).last() == g.scaled@[i as int]@);
        assert(scaled@.take(i + 1).drop_last() =~= scaled@.take(i as int));
        if scaled[i] {
            out.push(g.scaled[i].clone());
        }
    }
    assert(all.take(all.len() as int) =~= all);
    assert(scaled@.take(scaled@.len() as int) =~= scaled@);
    out
}

/// The build-tree names that the resource list `grd` refers to; they may be
/// outputs that do not exist yet.
pub fn grd_reference_candidates(grd: &str, contents: &str) -> (r: Vec<String>)
    ensures
        views::texts(r@) == grd_values(contents@).map_values(
            |v: Seq<char>| path::walked(list_dir(grd@), v),
        ),
{
    let home = dir_of_list(grd);
    let dir = home.as_str();
    let vs = grd_values_of(contents);
    let ghost want = grd_values(contents@).map_values(|v: Seq<char>| path::walked(dir@, v));
    let mut out: Vec<String> = Vec::new();
    assert(views::texts(out@) =~= want.take(0));
    for i in 0..vs.len()
        invariant
            want == grd_values(contents@).map_values(|v: Seq<char>| path::walked(dir@, v)),
            views::texts(vs@) == grd_values(contents@),
            views::texts(out@) == want.take(i as int),
    {
        assert(views::texts(vs@)[i as int] == vs@[i as int]@);
        out.push(path::lexical_join(dir, vs[i].as_str()));
        assert(want.take(i + 1) =~= want.take(i as int).push(want[i as int]));
    }
    assert(want.take(want.len() as int) =~= want);
    out
}

// ---------------------------------------------------------------------------
// Python sources
// ---------------------------------------------------------------------------

/// The first name that an import statement at the front of a line names.
pub open spec fn import_line(line: Seq<char>) -> Option<Seq<char>> {
    let l = text::trim_start(line, Class::Space);
    let rest = match text::without_prefix(l, "import "@) {
        Some(r) => Some(r),
        None => text::without_prefix(l, "from "@),
    };
    match rest {
        Some(r) => {
            let first = r.take(text::span(r, Class::ImportEnd));
            if first.len() > 0 && text::is_word_text(first) {
                Some(first)
            } else {
                None
            }
        },
        None => None,
    }
}

/// The names that the lines import.
pub open spec fn import_names(ls: Seq<Seq<char>>) -> Seq<Seq<char>>
    decreases ls.len(),
{
    if ls.len() == 0 {
        Seq::empty()
    } else {
        match import_line(ls.last()) {
            Some(n) => import_names(ls.drop_last()).push(n),
            None => import_names(ls.drop_last()),
        }
    }
}

/// The names that several files import.
pub open spec fn all_imports(bodies: Seq<Seq<char>>) -> Seq<Seq<char>>
    decreases bodies.len(),
{
    if bodies.len() == 0 {
        Seq::empty()
    } else {
        all_imports(bodies.drop_last()) + import_names(text::lines(bodies.last()))
    }
}

fn import_in(line: &Vec<char>) -> (r: Option<Vec<char>>)
    ensures
        views::opt_piece(r) == import_line(line@),
{
    let l = text::trimmed_start(line, Class::Space);
    let rest = match text::strip_lit(&l, "import ") {
        Some(r) => r,
        None => match text::strip_lit(&l, "from ") {
            Some(r) => r,
            None => {
                return None;
            },
        },
    };
    assert(rest@.skip(0) =~= rest@);
    let end = text::stop_from(&rest, 0, Class::ImportEnd);
    let first = text::head(&rest, end);
    if first.len() > 0 && text::word_text(&first) {
        Some(first)
    } else {
        None
    }
}

/// The top-level names that python files import, given their contents: in
/// order, each once. Indented imports count.
pub fn python_import_names(bodies: &Vec<String>) -> (r: Vec<String>)
    ensures
        views::texts(r@) == order::sorted_text_set(all_imports(views::texts(bodies@))),
{
    let ghost all = views::texts(bodies@);
    let mut names: Vec<String> = Vec::new();
    assert(views::texts(names@) =~= all_imports(all.take(0)));
    for i in 0..bodies.len()
        invariant
            all == views::texts(bodies@),
            views::texts(names@) == all_imports(all.take(i as int)),
    {
        assert(all.take(i + 1).drop_last() =~= all.take(i as int));
        assert(all.take(i + 1).last() == bodies@[i as int]@);
        let c = text::chars_of(bodies[i].as_str());
        let ls = text::lines_of(&c);
        let ghost gl = views::pieces(ls@);
        let ghost before = views::texts(names@);
        assert(views::texts(names@) =~= before + import_names(gl.take(0)));
        for j in 0..ls.len()
            invariant
                gl == views::pieces(ls@),
                views::texts(names@) == before + import_names(gl.take(j as int)),
        {
            assert(gl.take(j + 1).drop_last() =~= gl.take(j as int));
            assert(gl.take(j + 1).last() == ls@[j as int]@);
            if let Some(n) = import_in(&ls[j]) {
                names.push(text::string_of(&n));
                assert((before + import_names(gl.take(j as int))).push(n@) =~= before
                    + import_names(gl.take(j as int)).push(n@));
            }
        }
        assert(gl.take(gl.len() as int) =~= gl);
    }
    assert(all.take(all.len() as int) =~= all);
    order::sort_string_set(&names)
}

/// The quoted texts of a line that may be path segments: not empty, no colon.
#[verifier::opaque]
pub open spec fn quoted_segments(s: Seq<char>) -> Seq<Seq<char>>
    decreases s.len(),
{
    let start = text::span(s, Class::Quote);
    if 0 <= start < s.len() {
        let after = s.skip(start + 1);
        let end = text::span(after, Class::Only(s[start]));
        if 0 <= end < after.len() {
            let seg = after.take(end);
            let rest = quoted_segments(after.skip(end + 1));
            if seg.len() > 0 && !seg.contains(':') {
                seq![seg] + rest
            } else {
                rest
            }
        } else {
            Seq::empty()
        }
    } else {
        Seq::empty()
    }
}

/// A segment that is kept, as a list.
pub open spec fn kept_segment(seg: Seq<char>) -> Seq<Seq<char>> {
    if seg.len() > 0 && !seg.contains(':') {
        seq![seg]
    } else {
        Seq::empty()
    }
}

/// No quote opens, or the one that opens is not closed.
proof fn segments_end(s: Seq<char>, start: int)
    requires
        start == text::span(s, Class::Quote),
        0 <= start < s.len() ==> text::span(s.skip(start + 1), Class::Only(s[start])) >= s.skip(
            start + 1,
        ).len(),
    ensures
        quoted_segments(s) == Seq::<Seq<char>>::empty(),
{
    reveal(quoted_segments);
}

/// One quoted text, and what follows it.
proof fn segments_step(s: Seq<char>, start: int, end: int)
    requires
        start == text::span(s, Class::Quote),
        0 <= start < s.len(),
        end == text::span(s.skip(start + 1), Class::Only(s[start])),
        0 <= end < s.skip(start + 1).len(),
    ensures
        quoted_segments(s) == kept_segment(s.skip(start + 1).take(end)) + quoted_segments(
            s.skip(start + 1).skip(end + 1),
        ),
{
    reveal(quoted_segments);
    let rest = quoted_segments(s.skip(start + 1).skip(end + 1));
    assert(Seq::<Seq<char>>::empty() + rest =~= rest);
}

fn segments_in(line: &Vec<char>) -> (r: Vec<Vec<char>>)
    ensures
        views::pieces(r@) == quoted_segments(line@),
{
    let mut rest = text::copy(line);
    let mut out: Vec<Vec<char>> = Vec::new();
    assert(views::pieces(out@) + quoted_segments(rest@) =~= quoted_segments(line@));
    loop
        invariant
            quoted_segments(line@) == views::pieces(out@) + quoted_segments(rest@),
        decreases rest@.len(),
    {
        let ghost before = views::pieces(out@);
        let ghost s = rest@;
        assert(s.skip(0) =~= s);
        let start = text::stop_from(&rest, 0, Class::Quote);
        if start == rest.len() {
            proof {
                segments_end(s, start as int);
            }
            assert(before + quoted_segments(s) =~= before);
            return out;
        }
        let q = rest[start];
        let after = text::tail(&rest, start + 1);
        assert(after@.skip(0) =~= after@);
        let end = text::stop_from(&after, 0, Class::Only(q));
        if end == after.len() {
            proof {
                segments_end(s, start as int);
            }
            assert(before + quoted_segments(s) =~= before);
            return out;
        }
        proof {
            segments_step(s, start as int, end as int);
        }
        let seg = text::head(&after, end);
        rest = text::tail(&after, end + 1);
        let ghost kept = kept_segment(seg@);
        if seg.len() > 0 && !text::contains_char(&seg, ':') {
            out.push(seg);
        }
        assert(views::pieces(out@) =~= before + kept);
        assert(before + (kept + quoted_segments(rest@)) =~= before + kept + quoted_segments(rest@));
    }
}

/// The relative path that a line composes of its quoted segments.
pub open spec fn composed_path(l: Seq<char>) -> Option<Seq<char>> {
    let p = path::render(quoted_segments(l));
    if quoted_segments(l).len() > 0 && !path::is_abs(p) {
        Some(p)
    } else {
        None
    }
}

/// The relative paths that the lines holding `mark` compose of quoted segments.
pub open spec fn composed_paths(ls: Seq<Seq<char>>, mark: Seq<char>) -> Seq<Seq<char>>
    decreases ls.len(),
{
    if ls.len() == 0 {
        Seq::empty()
    } else {
        let front = composed_paths(ls.drop_last(), mark);
        match composed_path(ls.last()) {
            Some(p) => if text::has(ls.last(), mark) {
                front.push(p)
            } else {
                front
            },
            None => front,
        }
    }
}

/// The paths that the lines of several files compose.
pub open spec fn all_composed(bodies: Seq<Seq<char>>, mark: Seq<char>) -> Seq<Seq<char>>
    decreases bodies.len(),
{
    if bodies.len() == 0 {
        Seq::empty()
    } else {
        all_composed(bodies.drop_last(), mark) + composed_paths(text::lines(bodies.last()), mark)
    }
}

fn paths_in(bodies: &Vec<String>, mark: &str) -> (r: Vec<String>)
    ensures
        views::texts(r@) == all_composed(views::texts(bodies@), mark@),
{
    let ghost all = views::texts(bodies@);
    let mut out: Vec<String> = Vec::new();
    assert(views::texts(out@) =~= all_composed(all.take(0), mark@));
    for i in 0..bodies.len()
        invariant
            all == views::texts(bodies@),
            views::texts(out@) == all_composed(all.take(i as int), mark@),
    {
        assert(all.take(i + 1).drop_last() =~= all.take(i as int));
        assert(all.take(i + 1).last() == bodies@[i as int]@);
        let c = text::chars_of(bodies[i].as_str());
        let ls = text::lines_of(&c);
        let ghost gl = views::pieces(ls@);
        let ghost before = views::texts(out@);
        assert(views::texts(out@) =~= before + composed_paths(gl.take(0), mark@));
        for j in 0..ls.len()
            invariant
                gl == views::pieces(ls@),
                views::texts(out@) == before + composed_paths(gl.take(j as int), mark@),
        {
            assert(gl.take(j + 1).drop_last() =~= gl.take(j as int));
            assert(gl.take(j + 1).last() == ls@[j as int]@);
            if text::contains_lit(&ls[j], mark) {
                let segs = segments_in(&ls[j]);
                assert(views::pieces(segs@).len() == segs@.len());
                let p = path::rendered(&segs);
                if segs.len() > 0 && !path::absolute(&p) {
                    out.push(text::string_of(&p));
                    assert((before + composed_paths(gl.take(j as int), mark@)).push(p@) =~= before
                        + composed_paths(gl.take(j as int), mark@).push(p@));
                }
            }
        }
        assert(gl.take(gl.len() as int) =~= gl);
    }
    assert(all.take(all.len() as int) =~= all);
    out
}

/// Each path walked from a directory, the directory itself left out.
pub open spec fn walked_elsewhere(dir: Seq<char>, rels: Seq<Seq<char>>) -> Seq<Seq<char>>
    decreases rels.len(),
{
    if rels.len() == 0 {
        Seq::empty()
    } else {
        let front = walked_elsewhere(dir, rels.drop_last());
        let p = path::walked(dir, rels.last());
        if path::same_path(p, dir) {
            front
        } else {
            front.push(p)
        }
    }
}

/// The directories that python files in `dir` add to their search path, given
/// the files' contents: composed of quoted segments, each once. Those that
/// exist are searched.
pub fn python_syspath_dirs(dir: &str, bodies: &Vec<String>) -> (r: Vec<String>)
    ensures
        views::texts(r@) == path::first_paths(
            walked_elsewhere(dir@, all_composed(views::texts(bodies@), "sys.path"@)),
        ),
{
    let rels = paths_in(bodies, "sys.path");
    let ghost all = views::texts(rels@);
    let mut out: Vec<String> = Vec::new();
    assert(views::texts(out@) =~= walked_elsewhere(dir@, all.take(0)));
    for i in 0..rels.len()
        invariant
            all == views::texts(rels@),
            views::texts(out@) == walked_elsewhere(dir@, all.take(i as int)),
    {
        assert(all.take(i + 1).drop_last() =~= all.take(i as int));
        assert(all.take(i + 1).last() == rels@[i as int]@);
        let p = path::lexical_join(dir, rels[i].as_str());
        if !path::eq_path(p.as_str(), dir) {
            out.push(p);
        }
    }
    assert(all.take(all.len() as int) =~= all);
    path::dedup_paths(&out)
}

/// The relative paths that a project's configuration composes, given the
/// contents of its files, each once.
pub fn python_join_segments(bodies: &Vec<String>) -> (r: Vec<String>)
    ensures
        views::texts(r@) == path::first_paths(all_composed(views::texts(bodies@), "os.path.join"@)),
{
    let rels = paths_in(bodies, "os.path.join");
    path::dedup_paths(&rels)
}

// ---------------------------------------------------------------------------
// Laws
// ---------------------------------------------------------------------------

/// An inclusion names the value of its `href`, in either quotes, whatever else
/// its tag says: it is taken where the value is not empty, does not begin with
/// `#` or `/`, holds no `://` and does not begin with a scheme and a colon.
pub proof fn an_inclusion_names_its_href(
    front: Seq<char>,
    q: char,
    v: Seq<char>,
    back: Seq<char>,
)
    requires
        !text::has(front, "href="@),
        q == '"' || q == '\'',
        !v.contains(q),
    ensures
        tag_href(front + "href="@ + (seq![q] + v + seq![q] + back)) == if v.len() == 0 || v[0] == '#'
            || v[0] == '/' || text::has(v, "://"@) || (exists|k: int|
            0 < k < v.len() && #[trigger] v[k] == ':' && (('a' <= v[0] <= 'z') || ('A' <= v[0]
                <= 'Z')) && forall|j: int|
                0 <= j < k ==> ('a' <= #[trigger] v[j] <= 'z') || ('A' <= v[j] <= 'Z') || ('0'
                    <= v[j] <= '9') || v[j] == '+' || v[j] == '-' || v[j] == '.') {
            None
        } else {
            Some(v)
        },
{
    reveal_strlit("href=");
    let tail = seq![q] + v + seq![q] + back;
    let tag = front + "href="@ + tail;
    text::found_behind(front, "href="@, tail);
    assert(tag.skip(front.len() as int + 5) =~= tail);
    let inner = tail.drop_first();
    assert(inner =~= v + (seq![q] + back));
    assert forall|j: int| 0 <= j < v.len() implies !text::in_class(
        Class::Only(q),
        #[trigger] inner[j],
    ) by {
        assert(inner[j] == v[j]);
        assert(v.contains(v[j]));
    }
    text::span_is(inner, Class::Only(q), v.len() as int);
    assert(inner.take(v.len() as int) =~= v);
    assert(quoted_front(tail) == Some(v));
    text::span_stops(v, Class::Only(':'));
    let n = text::span(v, Class::Only(':'));
    if has_scheme(v) {
        assert(v[n] == ':');
        assert forall|j: int| 0 <= j < n implies ('a' <= #[trigger] v[j] <= 'z') || ('A' <= v[j]
            <= 'Z') || ('0' <= v[j] <= '9') || v[j] == '+' || v[j] == '-' || v[j] == '.' by {
            assert(scheme_char(v[j]));
        }
    }
    if exists|k: int|
        0 < k < v.len() && #[trigger] v[k] == ':' && (('a' <= v[0] <= 'z') || ('A' <= v[0] <= 'Z'))
            && forall|j: int|
            0 <= j < k ==> ('a' <= #[trigger] v[j] <= 'z') || ('A' <= v[j] <= 'Z') || ('0' <= v[j]
                <= '9') || v[j] == '+' || v[j] == '-' || v[j] == '.' {
        let k = choose|k: int|
            0 < k < v.len() && #[trigger] v[k] == ':' && (('a' <= v[0] <= 'z') || ('A' <= v[0]
                <= 'Z')) && forall|j: int|
                0 <= j < k ==> ('a' <= #[trigger] v[j] <= 'z') || ('A' <= v[j] <= 'Z') || ('0'
                    <= v[j] <= '9') || v[j] == '+' || v[j] == '-' || v[j] == '.';
        if n < k {
            assert(v[n] == ':');
        }
        assert(n == k) by {
            if k < n {
                assert(!text::in_class(Class::Only(':'), v[k]));
            }
        }
    }
}

/// A tag without an `href` names nothing, and neither does one whose value is
/// not quoted.
pub proof fn a_tag_without_a_quoted_href_names_nothing(front: Seq<char>, back: Seq<char>)
    requires
        !text::has(front, "href="@),
    ensures
        tag_href(front) is None,
        back.len() == 0 || (back[0] != '"' && back[0] != '\'') ==> tag_href(front + "href="@ + back)
            is None,
{
    reveal_strlit("href=");
    text::has_iff_found(front, "href="@);
    text::found_behind(front, "href="@, back);
    assert((front + "href="@ + back).skip(front.len() as int + 5) =~= back);
}

/// A document is read tag by tag: the first tag that is an inclusion, under
/// either name, says what it names, and the rest of the document follows. A
/// longer name is another tag.
pub proof fn inclusions_are_read_in_order(
    pre: Seq<char>,
    name: Seq<char>,
    attrs: Seq<char>,
    post: Seq<char>,
)
    requires
        !pre.contains('<'),
        name == "<include"@ || name == "<xi:include"@,
        !attrs.contains('>'),
    ensures
        hrefs(pre).len() == 0,
        attrs.len() == 0 || attrs[0] == '/' || text::is_space(attrs[0]) ==> hrefs(
            pre + name + (attrs + seq!['>'] + post),
        ) == match tag_href(name + attrs) {
            Some(h) => seq![h] + hrefs(post),
            None => hrefs(post),
        },
        attrs.len() > 0 && attrs[0] != '/' && !text::is_space(attrs[0]) ==> hrefs(
            pre + name + (attrs + seq!['>'] + post),
        ) == hrefs(post),
{
    reveal_strlit("<include");
    reveal_strlit("<xi:include");
    let a = "<include"@;
    let b = "<xi:include"@;
    text::not_found(pre, a);
    text::not_found(pre, b);
    let tail = attrs + seq!['>'] + post;
    let s = pre + name + tail;
    let i = pre.len() as int;
    let n = name.len() as int;
    assert(s[i] == '<');
    if name == a {
        text::found_behind(pre, a, tail);
        text::find_from_first(s, b, 0);
        assert(s[i + 1] == 'i');
        if text::find(s, b) is Some {
            let k = text::find(s, b)->0;
            assert(s.subrange(k, k + b.len())[0] == s[k]);
            assert(s.subrange(k, k + b.len())[1] == s[k + 1]);
            if k < i {
                assert(pre.contains(s[k]));
            }
            assert(i < k);
        }
        assert(next_tag(s) == Some((i, n)));
    } else {
        text::found_behind(pre, b, tail);
        text::find_from_first(s, a, 0);
        assert(s[i + 1] == 'x');
        if text::find(s, a) is Some {
            let k = text::find(s, a)->0;
            assert(s.subrange(k, k + a.len())[0] == s[k]);
            assert(s.subrange(k, k + a.len())[1] == s[k + 1]);
            if k < i {
                assert(pre.contains(s[k]));
            }
            assert(i < k);
        }
        assert(next_tag(s) == Some((i, n)));
    }
    let tag = name + attrs;
    let rest = s.skip(i);
    assert(rest =~= tag + (seq!['>'] + post));
    assert forall|j: int| 0 <= j < tag.len() implies !text::in_class(
        Class::Only('>'),
        #[trigger] rest[j],
    ) by {
        assert(rest[j] == tag[j]);
        if j >= n {
            assert(attrs.contains(attrs[j - n]));
        }
    }
    text::span_is(rest, Class::Only('>'), tag.len() as int);
    let end = i + tag.len();
    assert(s.subrange(i, end) =~= tag);
    assert(s.skip(end + 1) =~= post);
    assert(s.skip(i + n) =~= tail);
    if attrs.len() > 0 {
        assert(attrs.contains(attrs[0]));
    }
    assert(Seq::<Seq<char>>::empty() + hrefs(post) =~= hrefs(post));
}

/// A line of a TableGen description that begins with the word `include` and a
/// quoted text names that text, whatever follows it and whatever the name is.
pub proof fn tablegen_lines_name_what_they_quote(
    lead: Seq<char>,
    gap: Seq<char>,
    name: Seq<char>,
    back: Seq<char>,
)
    requires
        forall|i: int| 0 <= i < lead.len() ==> text::is_space(#[trigger] lead[i]),
        forall|i: int| 0 <= i < gap.len() ==> text::is_space(#[trigger] gap[i]),
        gap.len() > 0,
        !name.contains('"'),
    ensures
        tablegen_line(lead + ("include"@ + (gap + (seq!['"'] + name + seq!['"'] + back)))) == Some(
            name,
        ),
        tablegen_line(lead + ("include"@ + (seq!['"'] + name + seq!['"'] + back))) is None,
{
    reveal_strlit("include");
    let quoted = seq!['"'] + name + seq!['"'] + back;
    text::start_leaves(gap, quoted, Class::Space);
    let rest = gap + quoted;
    text::start_leaves(lead, "include"@ + rest, Class::Space);
    text::start_leaves(lead, "include"@ + quoted, Class::Space);
    assert(("include"@ + rest).skip(7) =~= rest);
    assert(("include"@ + quoted).skip(7) =~= quoted);
    assert("include"@.is_prefix_of("include"@ + rest));
    assert("include"@.is_prefix_of("include"@ + quoted));
    let inner = quoted.drop_first();
    assert(inner =~= name + (seq!['"'] + back));
    assert forall|j: int| 0 <= j < name.len() implies !text::in_class(
        Class::Only('"'),
        #[trigger] inner[j],
    ) by {
        assert(inner[j] == name[j]);
        assert(name.contains(name[j]));
    }
    text::span_is(inner, Class::Only('"'), name.len() as int);
    assert(inner.take(name.len() as int) =~= name);
    assert(rest[0] == gap[0]);
}

/// A line of reStructuredText that begins with the directive names what stands
/// behind it, without the white space around.
pub proof fn rst_lines_name_what_follows(
    lead: Seq<char>,
    gap: Seq<char>,
    name: Seq<char>,
    trail: Seq<char>,
)
    requires
        forall|i: int| 0 <= i < lead.len() ==> text::is_space(#[trigger] lead[i]),
        forall|i: int| 0 <= i < gap.len() ==> text::is_space(#[trigger] gap[i]),
        forall|i: int| 0 <= i < trail.len() ==> text::is_space(#[trigger] trail[i]),
        name.len() > 0,
        !text::is_space(name[0]),
        !text::is_space(name.last()),
    ensures
        rst_line(lead + (".. include::"@ + (gap + name + trail))) == Some(name),
        rst_line(lead + (".. include::"@ + gap)) is None,
{
    reveal_strlit(".. include::");
    let d = ".. include::"@;
    text::trim_leaves(gap, name, trail, Class::Space);
    text::start_leaves(lead, d + (gap + name + trail), Class::Space);
    text::start_leaves(lead, d + gap, Class::Space);
    assert((d + (gap + name + trail)).skip(12) =~= gap + name + trail);
    assert((d + gap).skip(12) =~= gap);
    assert(d.is_prefix_of(d + (gap + name + trail)));
    assert(d.is_prefix_of(d + gap));
    text::nothing_is_left(gap, Class::Space);
}

/// Lines are read one by one, in their order, each as it would be read alone.
pub proof fn lines_are_read_alone(a: Seq<Seq<char>>, l: Seq<char>, b: Seq<Seq<char>>)
    ensures
        tablegen_names(a + b) == tablegen_names(a) + tablegen_names(b),
        rst_names(a + b) == rst_names(a) + rst_names(b),
        import_names(a + b) == import_names(a) + import_names(b),
        tablegen_names(seq![l]) == match tablegen_line(l) {
            Some(n) => seq![n],
            None => Seq::<Seq<char>>::empty(),
        },
        rst_names(seq![l]) == match rst_line(l) {
            Some(n) => seq![n],
            None => Seq::<Seq<char>>::empty(),
        },
        import_names(seq![l]) == match import_line(l) {
            Some(n) => seq![n],
            None => Seq::<Seq<char>>::empty(),
        },
    decreases b.len(),
{
    reveal_with_fuel(tablegen_names, 2);
    reveal_with_fuel(rst_names, 2);
    reveal_with_fuel(import_names, 2);
    assert(seq![l].drop_last() =~= Seq::<Seq<char>>::empty());
    assert(Seq::<Seq<char>>::empty().push(l) =~= seq![l]);
    if tablegen_line(l) is Some {
        assert(tablegen_names(seq![l]) =~= seq![tablegen_line(l)->0]);
    }
    if rst_line(l) is Some {
        assert(rst_names(seq![l]) =~= seq![rst_line(l)->0]);
    }
    if import_line(l) is Some {
        assert(import_names(seq![l]) =~= seq![import_line(l)->0]);
    }
    if b.len() == 0 {
        assert(a + b =~= a);
        assert(tablegen_names(a) + tablegen_names(b) =~= tablegen_names(a));
        assert(rst_names(a) + rst_names(b) =~= rst_names(a));
        assert(import_names(a) + import_names(b) =~= import_names(a));
    } else {
        lines_are_read_alone(a, l, b.drop_last());
        assert((a + b).drop_last() =~= a + b.drop_last());
        assert((a + b).last() == b.last());
        assert(tablegen_names(a + b) =~= tablegen_names(a) + tablegen_names(b));
        assert(rst_names(a + b) =~= rst_names(a) + rst_names(b));
        assert(import_names(a + b) =~= import_names(a) + import_names(b));
    }
}

/// An import statement names its first module up to a dot, a comma or a blank,
/// however far the line is indented; a name with any other sign is none.
pub proof fn imports_name_their_first_module(
    lead: Seq<char>,
    word: Seq<char>,
    name: Seq<char>,
    back: Seq<char>,
)
    requires
        forall|i: int| 0 <= i < lead.len() ==> text::is_space(#[trigger] lead[i]),
        word == "import "@ || word == "from "@,
        forall|i: int|
            0 <= i < name.len() ==> #[trigger] name[i] != ' ' && name[i] != '.' && name[i] != ',',
        back.len() > 0 ==> back[0] == ' ' || back[0] == '.' || back[0] == ',',
    ensures
        import_line(lead + (word + (name + back))) == if name.len() > 0 && (forall|i: int|
            0 <= i < name.len() ==> ('a' <= #[trigger] name[i] <= 'z') || ('A' <= name[i] <= 'Z')
                || ('0' <= name[i] <= '9') || name[i] == '_') {
            Some(name)
        } else {
            None
        },
{
    reveal_strlit("import ");
    reveal_strlit("from ");
    let rest = name + back;
    let l = word + rest;
    assert(l[0] == word[0]);
    text::start_leaves(lead, l, Class::Space);
    assert(l.skip(word.len() as int) =~= rest);
    assert(word.is_prefix_of(l));
    if word == "from "@ {
        assert(!"import "@.is_prefix_of(l));
    }
    assert forall|j: int| 0 <= j < name.len() implies !text::in_class(
        Class::ImportEnd,
        #[trigger] rest[j],
    ) by {
        assert(rest[j] == name[j]);
    }
    if back.len() > 0 {
        assert(rest[name.len() as int] == back[0]);
    }
    text::span_is(rest, Class::ImportEnd, name.len() as int);
    assert(rest.take(name.len() as int) =~= name);
    if text::is_word_text(name) {
        assert forall|i: int| 0 <= i < name.len() implies ('a' <= #[trigger] name[i] <= 'z') || (
        'A' <= name[i] <= 'Z') || ('0' <= name[i] <= '9') || name[i] == '_' by {
            assert(text::is_ascii_alnum(name[i]) || name[i] == '_');
        }
    }
}

/// What several files import is what each of them imports.
pub proof fn every_import_is_named(bodies: Seq<Seq<char>>, n: Seq<char>)
    ensures
        all_imports(bodies).contains(n) <==> exists|i: int|
            0 <= i < bodies.len() && import_names(text::lines(#[trigger] bodies[i])).contains(n),
        order::sorted_text_set(all_imports(bodies)).contains(n) <==> all_imports(bodies).contains(
            n,
        ),
    decreases bodies.len(),
{
    order::text_set_holds(all_imports(bodies), n);
    if bodies.len() > 0 {
        let front = bodies.drop_last();
        every_import_is_named(front, n);
        let a = all_imports(front);
        let b = import_names(text::lines(bodies.last()));
        assert(all_imports(bodies) == a + b);
        sum_has(a, b, n);
        if exists|i: int|
            0 <= i < bodies.len() && import_names(text::lines(#[trigger] bodies[i])).contains(n) {
            let i = choose|i: int|
                0 <= i < bodies.len() && import_names(text::lines(#[trigger] bodies[i])).contains(
                    n,
                );
            if i < front.len() {
                assert(front[i] == bodies[i]);
            }
        }
        if a.contains(n) {
            let i = choose|i: int|
                0 <= i < front.len() && import_names(text::lines(#[trigger] front[i])).contains(n);
            assert(bodies[i] == front[i]);
        }
        if b.contains(n) {
            assert(import_names(text::lines(bodies[bodies.len() - 1])).contains(n));
        }
    }
}

proof fn sum_has(a: Seq<Seq<char>>, b: Seq<Seq<char>>, n: Seq<char>)
    ensures
        (a + b).contains(n) <==> a.contains(n) || b.contains(n),
{
    if a.contains(n) {
        let i = choose|i: int| 0 <= i < a.len() && a[i] == n;
        assert((a + b)[i] == n);
    }
    if b.contains(n) {
        let i = choose|i: int| 0 <= i < b.len() && b[i] == n;
        assert((a + b)[a.len() + i] == n);
    }
    if (a + b).contains(n) {
        let i = choose|i: int| 0 <= i < (a + b).len() && (a + b)[i] == n;
        if i < a.len() {
            assert(a[i] == n);
        } else {
            assert(b[i - a.len()] == n);
        }
    }
}

/// A text without a reference is left as it is. One with a reference has its
/// value in place of it and goes on behind it; an unknown reference, or one left
/// open, leaves nothing.
pub proof fn references_are_replaced(
    pre: Seq<char>,
    name: Seq<char>,
    rest: Seq<char>,
    vars: Map<Seq<char>, Seq<char>>,
)
    requires
        !text::has(pre, "${"@),
        !name.contains('}'),
    ensures
        expand(pre, vars) == Some(pre),
        vars.contains_key(name) && expand(rest, vars) is Some ==> expand(
            pre + "${"@ + (name + seq!['}'] + rest),
            vars,
        ) == Some(pre + vars[name] + expand(rest, vars)->0),
        !vars.contains_key(name) || expand(rest, vars) is None ==> expand(
            pre + "${"@ + (name + seq!['}'] + rest),
            vars,
        ) is None,
        expand(pre + "${"@ + name, vars) is None,
{
    reveal_strlit("${");
    text::has_iff_found(pre, "${"@);
    let tail = name + seq!['}'] + rest;
    let s = pre + "${"@ + tail;
    let i = pre.len() as int;
    text::found_behind(pre, "${"@, tail);
    let at = s.skip(i);
    assert(at =~= "${"@ + tail);
    assert forall|j: int| 0 <= j < name.len() + 2 implies !text::in_class(
        Class::Only('}'),
        #[trigger] at[j],
    ) by {
        if j >= 2 {
            assert(at[j] == name[j - 2]);
            assert(name.contains(name[j - 2]));
        }
    }
    assert(at[name.len() as int + 2] == '}');
    text::span_is(at, Class::Only('}'), name.len() as int + 2);
    let end = i + 2 + name.len();
    assert(s.subrange(i + 2, end) =~= name);
    assert(s.skip(end + 1) =~= rest);
    assert(s.take(i) =~= pre);
    let open = pre + "${"@ + name;
    text::found_behind(pre, "${"@, name);
    let o = open.skip(i);
    assert(o =~= "${"@ + name);
    assert forall|j: int| 0 <= j < o.len() implies !text::in_class(
        Class::Only('}'),
        #[trigger] o[j],
    ) by {
        if j >= 2 {
            assert(o[j] == name[j - 2]);
            assert(name.contains(name[j - 2]));
        }
    }
    text::span_is(o, Class::Only('}'), o.len() as int);
}

/// A line is no comment before its first `#`; it is one behind a `#` that stands
/// outside quotes and is not escaped.
pub proof fn comments_begin_at_a_mark(a: Seq<char>, b: Seq<char>)
    requires
        !a.contains('#'),
        !a.contains('\\'),
        !a.contains('"'),
    ensures
        !line_state(a).comment,
        line_state(a + seq!['#'] + b).comment,
        !b.contains('"') && !b.contains('\\') ==> !line_state(a + seq!['"'] + b).comment,
        !b.contains('#') && !b.contains('"') && !b.contains('\\') ==> !line_state(
            a + seq!['\\', '#'] + b,
        ).comment,
{
    plain_text_reads_on(Seq::empty(), a);
    assert(Seq::<char>::empty() + a =~= a);
    let s = line_state(a);
    assert((a + seq!['#']).drop_last() =~= a);
    comments_go_on(a + seq!['#'], b);
    assert((a + seq!['"']).drop_last() =~= a);
    if !b.contains('"') && !b.contains('\\') {
        quoted_text_reads_on(a + seq!['"'], b);
    }
    assert((a + seq!['\\']).drop_last() =~= a);
    assert((a + seq!['\\', '#']).drop_last() =~= a + seq!['\\']);
    assert((a + seq!['\\']).last() == '\\');
    assert((a + seq!['\\', '#']).last() == '#');
    assert(line_state(a + seq!['\\']).escaped);
    if !b.contains('#') && !b.contains('"') && !b.contains('\\') {
        plain_text_reads_on(a + seq!['\\', '#'], b);
    }
}

proof fn plain_text_reads_on(a: Seq<char>, b: Seq<char>)
    requires
        !line_state(a).escaped,
        !b.contains('#'),
        !b.contains('\\'),
        !b.contains('"'),
    ensures
        line_state(a + b) == line_state(a),
    decreases b.len(),
{
    if b.len() == 0 {
        assert(a + b =~= a);
    } else {
        let f = b.drop_last();
        assert forall|c: char| f.contains(c) implies b.contains(c) by {
            let i = choose|i: int| 0 <= i < f.len() && f[i] == c;
            assert(b[i] == c);
        }
        plain_text_reads_on(a, f);
        assert((a + b).drop_last() =~= a + f);
        assert(b.contains(b.last()));
        assert((a + b).last() == b.last());
    }
}

proof fn quoted_text_reads_on(a: Seq<char>, b: Seq<char>)
    requires
        !line_state(a).escaped,
        line_state(a).quoted,
        !b.contains('\\'),
        !b.contains('"'),
    ensures
        line_state(a + b) == line_state(a),
    decreases b.len(),
{
    if b.len() == 0 {
        assert(a + b =~= a);
    } else {
        let f = b.drop_last();
        assert forall|c: char| f.contains(c) implies b.contains(c) by {
            let i = choose|i: int| 0 <= i < f.len() && f[i] == c;
            assert(b[i] == c);
        }
        quoted_text_reads_on(a, f);
        assert((a + b).drop_last() =~= a + f);
        assert(b.contains(b.last()));
        assert((a + b).last() == b.last());
    }
}

proof fn comments_go_on(a: Seq<char>, b: Seq<char>)
    requires
        line_state(a).comment,
    ensures
        line_state(a + b).comment,
    decreases b.len(),
{
    if b.len() == 0 {
        assert(a + b =~= a);
    } else {
        comments_go_on(a, b.drop_last());
        assert((a + b).drop_last() =~= a + b.drop_last());
    }
}

/// A position lies in a comment as its own line says; the lines before it do not
/// matter.
pub proof fn comments_end_with_their_line(before: Seq<char>, line: Seq<char>, after: Seq<char>)
    requires
        !line.contains('\n'),
    ensures
        in_comment(before + seq!['\n'] + line + after, (before.len() + 1 + line.len()) as int)
            == line_state(line).comment,
        in_comment(line + after, line.len() as int) == line_state(line).comment,
{
    let s = before + seq!['\n'] + line + after;
    assert(s.take((before.len() + 1 + line.len()) as int) =~= before + seq!['\n'] + line);
    assert((line + after).take(line.len() as int) =~= line);
    text::after_last_part(before, line, '\n');
}

/// A call of `set` sets the first word of its arguments to the second, without
/// quotes; what it says behind them does not matter.
pub proof fn settings_are_the_first_two_words(
    name: Seq<char>,
    q: Seq<char>,
    value: Seq<char>,
    gap: char,
    rest: Seq<char>,
)
    requires
        name.len() > 0,
        forall|i: int| 0 <= i < name.len() ==> !text::is_space(#[trigger] name[i]),
        q.len() == 0 || q == seq!['"'] || q == seq!['\''],
        value.len() > 0,
        forall|i: int|
            0 <= i < value.len() ==> !text::is_space(#[trigger] value[i]) && value[i] != '"'
                && value[i] != '\'',
        text::is_space(gap),
        rest.len() > 0 ==> text::is_space(rest[0]),
    ensures
        setting_of(name + seq![gap] + (q + value + q + rest)) == seq![(name, value)],
{
    let w = q + value + q;
    assert forall|i: int| 0 <= i < w.len() implies !text::is_space(#[trigger] w[i]) by {
        if q.len() <= i < q.len() + value.len() {
            assert(w[i] == value[i - q.len()]);
        }
    }
    text::words_are_set_apart(name, gap, q + value + q + rest);
    text::one_word(name);
    assert(Seq::<char>::empty() + w + rest =~= q + value + q + rest);
    text::word_is_listed(Seq::empty(), w, rest);
    text::one_word(Seq::empty());
    let ws = text::words(name + seq![gap] + (q + value + q + rest));
    assert(ws[0] == name);
    assert(ws[1] == w);
    assert(value.last() == value[value.len() - 1]);
    if q == seq!['"'] {
        text::trim_leaves(q, value, q, Class::Only('"'));
        text::trim_keeps(value, Class::Only('\''));
    } else if q == seq!['\''] {
        assert(w[0] == '\'' && w.last() == '\'');
        text::trim_keeps(w, Class::Only('"'));
        text::trim_leaves(q, value, q, Class::Only('\''));
    } else {
        assert(w =~= value);
        text::trim_keeps(value, Class::Only('"'));
        text::trim_keeps(value, Class::Only('\''));
    }
}

proof fn unmarked_lines_are_no_comments(line: Seq<char>)
    requires
        !line.contains('#'),
    ensures
        !line_state(line).comment,
    decreases line.len(),
{
    if line.len() > 0 {
        let f = line.drop_last();
        if f.contains('#') {
            let i = choose|i: int| 0 <= i < f.len() && f[i] == '#';
            assert(line[i] == '#');
        }
        unmarked_lines_are_no_comments(f);
        assert(line.contains(line.last()));
    }
}

proof fn first_call_is_found(s: Seq<char>, p: int, i: int)
    requires
        0 <= i <= p < s.len(),
        set_call_at(s, p),
        forall|j: int| i <= j < p ==> !#[trigger] set_call_at(s, j),
    ensures
        set_call_from(s, i) == Some(p),
    decreases p - i,
{
    if i < p {
        first_call_is_found(s, p, i + 1);
    }
}

/// The first call of `set` is read with the arguments between its brackets, and
/// the script is read on from its closing bracket. White space may stand in
/// front of the opening bracket.
pub proof fn calls_are_read_in_order(
    pre: Seq<char>,
    gap: Seq<char>,
    body: Seq<char>,
    rest: Seq<char>,
)
    requires
        !text::has(pre, "set"@),
        !text::after_last(pre, '\n').contains('#'),
        pre.len() > 0 ==> !(('a' <= pre.last() <= 'z') || ('A' <= pre.last() <= 'Z') || ('0'
            <= pre.last() <= '9') || pre.last() == '_' || pre.last() == '-'),
        forall|i: int| 0 <= i < gap.len() ==> text::is_space(#[trigger] gap[i]),
        !body.contains(')'),
    ensures
        set_calls(pre + "set"@ + (gap + (seq!['('] + body + seq![')'] + rest))) == setting_of(body)
            + set_calls(seq![')'] + rest),
        set_calls(pre).len() == 0,
{
    let s = pre + "set"@ + (gap + (seq!['('] + body + seq![')'] + rest));
    no_call_without_the_word(pre, 0);
    call_is_first(pre, gap, body, rest);
    call_has_its_arguments(pre, gap, body, rest);
    assert(set_calls(s) == setting_of(body) + set_calls(seq![')'] + rest));
}

proof fn call_is_first(pre: Seq<char>, gap: Seq<char>, body: Seq<char>, rest: Seq<char>)
    requires
        !text::has(pre, "set"@),
        !text::after_last(pre, '\n').contains('#'),
        pre.len() > 0 ==> !is_ident(pre.last()),
        forall|i: int| 0 <= i < gap.len() ==> text::is_space(#[trigger] gap[i]),
    ensures
        set_call_from(pre + "set"@ + (gap + (seq!['('] + body + seq![')'] + rest)), 0) == Some(
            pre.len() as int,
        ),
{
    reveal_strlit("set");
    let inner = seq!['('] + body + seq![')'] + rest;
    let tail = gap + inner;
    let s = pre + "set"@ + tail;
    let p = pre.len() as int;
    text::found_behind(pre, "set"@, tail);
    text::find_from_first(s, "set"@, 0);
    assert(s.skip(p + 3) =~= tail);
    assert(inner[0] == '(');
    text::start_leaves(gap, inner, Class::Space);
    assert(s.take(p) =~= pre);
    unmarked_lines_are_no_comments(text::after_last(pre, '\n'));
    if p > 0 {
        assert(s[p - 1] == pre.last());
    }
    assert(text::occurs_at(s, "set"@, p));
    assert(set_call_at(s, p));
    assert forall|j: int| 0 <= j < p implies !#[trigger] set_call_at(s, j) by {
        assert(!text::occurs_at(s, "set"@, j));
    }
    first_call_is_found(s, p, 0);
}

proof fn call_has_its_arguments(pre: Seq<char>, gap: Seq<char>, body: Seq<char>, rest: Seq<char>)
    requires
        forall|i: int| 0 <= i < gap.len() ==> text::is_space(#[trigger] gap[i]),
        !body.contains(')'),
    ensures
        ({
            let s = pre + "set"@ + (gap + (seq!['('] + body + seq![')'] + rest));
            let call = s.skip(pre.len() as int);
            let open = text::span(call, Class::Only('('));
            let close = open + text::span(call.skip(open), Class::Only(')'));
            &&& 0 <= open < close < call.len()
            &&& pre.len() < s.len()
            &&& call.subrange(open + 1, close) == body
            &&& call.skip(close) == seq![')'] + rest
        }),
{
    reveal_strlit("set");
    let tail = gap + (seq!['('] + body + seq![')'] + rest);
    let s = pre + "set"@ + tail;
    let call = s.skip(pre.len() as int);
    let open = 3 + gap.len() as int;
    assert(call =~= "set"@ + tail);
    assert forall|j: int| 0 <= j < open implies !text::in_class(
        Class::Only('('),
        #[trigger] call[j],
    ) by {
        if j >= 3 {
            assert(call[j] == gap[j - 3]);
        }
    }
    assert(call[open] == '(');
    text::span_is(call, Class::Only('('), open);
    let inner = call.skip(open);
    assert(inner =~= seq!['('] + body + seq![')'] + rest);
    assert forall|j: int| 0 <= j < body.len() + 1 implies !text::in_class(
        Class::Only(')'),
        #[trigger] inner[j],
    ) by {
        if j >= 1 {
            assert(inner[j] == body[j - 1]);
            assert(body.contains(body[j - 1]));
        }
    }
    assert(inner[body.len() as int + 1] == ')');
    text::span_is(inner, Class::Only(')'), body.len() as int + 1);
    let close = open + 1 + body.len();
    assert(call.subrange(open + 1, close) =~= body);
    assert(call.skip(close) =~= seq![')'] + rest);
}

proof fn no_call_without_the_word(s: Seq<char>, i: int)
    requires
        0 <= i,
        !text::has(s, "set"@),
    ensures
        set_call_from(s, i) is None,
    decreases s.len() - i,
{
    if i < s.len() {
        assert(!text::occurs_at(s, "set"@, i));
        no_call_without_the_word(s, i + 1);
    }
}

/// No call begins inside a longer word, or in a comment.
pub proof fn calls_stand_alone(a: Seq<char>, b: Seq<char>, i: int)
    requires
        !a.contains('#') && !a.contains('\\') && !a.contains('"') && !a.contains('\n'),
        !b.contains('\n'),
    ensures
        a.len() < i ==> !set_call_at(a + seq!['#'] + b, i),
        0 < i <= b.len() && (text::is_ascii_alnum(b[i - 1]) || b[i - 1] == '_' || b[i - 1] == '-')
            ==> !set_call_at(b, i),
{
    reveal_strlit("set");
    let s = a + seq!['#'] + b;
    if a.len() < i <= s.len() {
        let line = s.take(i);
        let c = b.take(i - a.len() - 1);
        assert(line =~= a + seq!['#'] + c);
        assert(!line.contains('\n')) by {
            if line.contains('\n') {
                let k = choose|k: int| 0 <= k < line.len() && line[k] == '\n';
                if k < a.len() {
                    assert(a[k] == '\n');
                } else if k > a.len() {
                    assert(b[k - a.len() - 1] == '\n');
                }
            }
        }
        text::after_last_part(Seq::empty(), line, '\n');
        comments_begin_at_a_mark(a, c);
    }
}

/// A setting becomes known to the next ones, and its value is a path where it
/// holds a slash; one that cannot be expanded changes nothing.
pub proof fn settings_are_known_to_the_next(
    name: Seq<char>,
    raw: Seq<char>,
    rest: Seq<(Seq<char>, Seq<char>)>,
    vars: Map<Seq<char>, Seq<char>>,
    found: Seq<Seq<char>>,
)
    ensures
        composed(Seq::empty(), vars, found) == found,
        expand(raw, vars) is None ==> composed(seq![(name, raw)] + rest, vars, found) == composed(
            rest,
            vars,
            found,
        ),
        expand(raw, vars) matches Some(v) ==> composed(seq![(name, raw)] + rest, vars, found)
            == composed(
            rest,
            vars.insert(name, v),
            if v.contains('/') && !found.contains(v) {
                found.push(v)
            } else {
                found
            },
        ),
{
    assert((seq![(name, raw)] + rest).drop_first() =~= rest);
    assert((seq![(name, raw)] + rest)[0] == (name, raw));
}

/// What is found stays, in its order and once; everything that settings add
/// holds a slash.
pub proof fn composed_paths_hold_a_slash(
    calls: Seq<(Seq<char>, Seq<char>)>,
    vars: Map<Seq<char>, Seq<char>>,
    found: Seq<Seq<char>>,
)
    ensures
        found.is_prefix_of(composed(calls, vars, found)),
        found.no_duplicates() ==> composed(calls, vars, found).no_duplicates(),
        forall|i: int|
            found.len() <= i < composed(calls, vars, found).len() ==> (#[trigger] composed(
                calls,
                vars,
                found,
            )[i]).contains('/'),
    decreases calls.len(),
{
    if calls.len() > 0 {
        let rest = calls.drop_first();
        match expand(calls[0].1, vars) {
            None => {
                composed_paths_hold_a_slash(rest, vars, found);
            },
            Some(v) => {
                let more = if v.contains('/') && !found.contains(v) {
                    found.push(v)
                } else {
                    found
                };
                let out = composed(rest, vars.insert(calls[0].0, v), more);
                composed_paths_hold_a_slash(rest, vars.insert(calls[0].0, v), more);
                assert(found.is_prefix_of(more));
                assert forall|i: int| found.len() <= i < out.len() implies (
                #[trigger] out[i]).contains('/') by {
                    if i < more.len() {
                        assert(out[i] == more[i]);
                    }
                }
            },
        }
    }
}

/// The first attribute in a resource list has the value up to its closing quote;
/// the list is read on behind it.
pub proof fn attributes_have_their_values(
    pre: Seq<char>,
    attr: Seq<char>,
    v: Seq<char>,
    rest: Seq<char>,
)
    requires
        attr == "file=\""@ || attr == "path=\""@ || attr == "context=\""@,
        !text::has(pre, attr),
        !v.contains('"'),
        !v.contains('='),
    ensures
        attr_values(pre, attr).len() == 0,
        attr_values(pre + attr + (v + seq!['"'] + rest), attr) == seq![v] + attr_values(rest, attr),
{
    reveal_strlit("file=\"");
    reveal_strlit("path=\"");
    reveal_strlit("context=\"");
    let n = attr.len() as int;
    let tail = v + seq!['"'] + rest;
    let s = pre + attr + tail;
    let i = pre.len() as int;
    text::has_iff_found(pre, attr);
    attribute_is_found(pre, attr, tail);
    assert(s.skip(i + n) =~= tail);
    let w = v + seq!['"'];
    assert(tail =~= w + rest);
    assert forall|k: int| 0 <= k < w.len() implies !text::occurs_at(tail, attr, k) by {
        if text::occurs_at(tail, attr, k) {
            let part = tail.subrange(k, k + n);
            // the attribute has `=` and a quote side by side at its end only
            assert(part[n - 2] == '=' && part[n - 1] == '"');
            assert(part[0] == tail[k]);
            if k + n - 1 < v.len() {
                assert(v[k + n - 1] == part[n - 1]);
                assert(v.contains('"'));
            } else if k == v.len() {
                assert(part[0] == '"');
            } else if k + n - 2 < v.len() {
                assert(v[k + n - 2] == part[n - 2]);
                assert(v.contains('='));
            } else {
                assert(part[v.len() - k] == tail[v.len() as int]);
                assert(tail[v.len() as int] == '"');
                assert(part[v.len() - k] == attr[v.len() - k]);
            }
        }
    }
    values_begin_later(w, rest, attr);
    let chunk = match text::find(tail, attr) {
        Some(j) => tail.take(j),
        None => tail,
    };
    text::find_from_first(tail, attr, 0);
    assert(chunk.len() > v.len());
    assert forall|j: int| 0 <= j < v.len() implies !text::in_class(
        Class::Only('"'),
        #[trigger] chunk[j],
    ) by {
        assert(chunk[j] == v[j]);
        assert(v.contains(v[j]));
    }
    text::span_is(chunk, Class::Only('"'), v.len() as int);
    assert(chunk.take(v.len() as int) =~= v);
}

proof fn attribute_is_found(pre: Seq<char>, attr: Seq<char>, tail: Seq<char>)
    requires
        attr == "file=\""@ || attr == "path=\""@ || attr == "context=\""@,
        !text::has(pre, attr),
    ensures
        text::find(pre + attr + tail, attr) == Some(pre.len() as int),
{
    reveal_strlit("file=\"");
    reveal_strlit("path=\"");
    reveal_strlit("context=\"");
    assert forall|j: int| 1 <= j < attr.len() implies #[trigger] attr[j] != attr[0] by {}
    text::found_behind(pre, attr, tail);
}

proof fn values_begin_later(w: Seq<char>, rest: Seq<char>, attr: Seq<char>)
    requires
        attr.len() > 0,
        forall|k: int| 0 <= k < w.len() ==> !text::occurs_at(w + rest, attr, k),
    ensures
        attr_values(w + rest, attr) == attr_values(rest, attr),
        text::find(w + rest, attr) matches Some(j) ==> j >= w.len(),
{
    let s = w + rest;
    let d = w.len() as int;
    text::find_from_first(s, attr, 0);
    text::find_from_first(rest, attr, 0);
    assert forall|k: int| 0 <= k implies text::occurs_at(rest, attr, k) == text::occurs_at(
        s,
        attr,
        d + k,
    ) by {
        if k + attr.len() <= rest.len() {
            assert(rest.subrange(k, k + attr.len()) =~= s.subrange(d + k, d + k + attr.len()));
        }
    }
    match (text::find(s, attr), text::find(rest, attr)) {
        (Some(a), Some(b)) => {
            assert(text::occurs_at(rest, attr, a - d));
            assert(text::occurs_at(s, attr, d + b));
            assert(a == d + b);
            assert(s.skip(a + attr.len()) =~= rest.skip(b + attr.len()));
        },
        (Some(a), None) => {
            assert(text::occurs_at(rest, attr, a - d));
        },
        (None, Some(b)) => {
            assert(text::occurs_at(s, attr, d + b));
        },
        (None, None) => {},
    }
}

/// Every value that is neither empty nor a URL names a file, relative or not.
pub proof fn values_name_files(a: Seq<Seq<char>>, v: Seq<char>, b: Seq<Seq<char>>)
    ensures
        file_values(a + b) == file_values(a) + file_values(b),
        file_values(seq![v]) == if v.len() > 0 && !text::has(v, "://"@) {
            seq![v]
        } else {
            Seq::<Seq<char>>::empty()
        },
    decreases b.len(),
{
    reveal_with_fuel(file_values, 2);
    assert(seq![v].drop_last() =~= Seq::<Seq<char>>::empty());
    assert(file_values(seq![v]) =~= if v.len() > 0 && !text::has(v, "://"@) {
        seq![v]
    } else {
        Seq::<Seq<char>>::empty()
    });
    if b.len() == 0 {
        assert(a + b =~= a);
        assert(file_values(a) + file_values(b) =~= file_values(a));
    } else {
        values_name_files(a, v, b.drop_last());
        assert((a + b).drop_last() =~= a + b.drop_last());
        assert((a + b).last() == b.last());
        assert(file_values(a + b) =~= file_values(a) + file_values(b));
    }
}

/// Scaled images are looked for in the usual three directories, in this order,
/// and then in every directory that the list names, each once.
pub proof fn contexts_are_searched(vs: Seq<Seq<char>>)
    ensures
        ({
            let cs = grd_contexts(vs);
            &&& cs.len() >= 3
            &&& cs[0] == "default_100_percent"@
            &&& cs[1] == "default_200_percent"@
            &&& cs[2] == "default_300_percent"@
            &&& forall|i: int|
                0 <= i < vs.len() && (#[trigger] vs[i]).len() > 0 ==> cs.contains(vs[i])
            &&& forall|k: int| 3 <= k < cs.len() ==> vs.contains(#[trigger] cs[k]) && cs[k].len() > 0
            &&& cs.no_duplicates()
        }),
    decreases vs.len(),
{
    reveal_strlit("default_100_percent");
    reveal_strlit("default_200_percent");
    reveal_strlit("default_300_percent");
    assert("default_100_percent"@[8] == '1');
    assert("default_200_percent"@[8] == '2');
    assert("default_300_percent"@[8] == '3');
    if vs.len() > 0 {
        let front = vs.drop_last();
        contexts_are_searched(front);
        let a = grd_contexts(front);
        let b = grd_contexts(vs);
        assert(a.is_prefix_of(b));
        assert forall|i: int| 0 <= i < vs.len() && (#[trigger] vs[i]).len() > 0 implies b.contains(
            vs[i],
        ) by {
            if i < front.len() {
                assert(front[i] == vs[i]);
                let k = choose|k: int| 0 <= k < a.len() && a[k] == vs[i];
                assert(b[k] == vs[i]);
            } else if a.contains(vs[i]) {
                let k = choose|k: int| 0 <= k < a.len() && a[k] == vs[i];
                assert(b[k] == vs[i]);
            } else {
                assert(b[a.len() as int] == vs[i]);
            }
        }
        assert forall|k: int| 3 <= k < b.len() implies vs.contains(#[trigger] b[k]) && b[k].len()
            > 0 by {
            if k < a.len() {
                assert(b[k] == a[k]);
                let i = choose|i: int| 0 <= i < front.len() && front[i] == a[k];
                assert(vs[i] == b[k]);
            } else {
                assert(vs[vs.len() - 1] == b[k]);
            }
        }
    }
}

/// The references of a resource list stand for its values one by one: beside the
/// list, or in one of the directories with scaled images beside it.
pub proof fn references_lie_beside_the_list(dir: Seq<char>, s: Seq<char>, i: int)
    requires
        0 <= i < grd_values(s).len(),
    ensures
        ({
            let cs = grd_contexts(attr_values(s, "context=\""@));
            let v = grd_values(s)[i];
            let r = grd_places(dir, s)[i];
            &&& grd_places(dir, s).len() == grd_values(s).len()
            &&& r.0 == path::joined(dir, v)
            &&& r.1.len() == cs.len()
            &&& forall|k: int|
                0 <= k < cs.len() ==> #[trigger] r.1[k] == path::joined(
                    path::joined(dir, cs[k]),
                    v,
                )
        }),
{
}

/// Of the scaled places those are kept that hold a file, in their order.
pub proof fn scaled_files_are_those_that_exist(
    ps: Seq<Seq<char>>,
    found: Seq<bool>,
    p: Seq<char>,
    there: bool,
)
    requires
        found.len() == ps.len(),
    ensures
        present(Seq::empty(), Seq::empty()).len() == 0,
        present(ps.push(p), found.push(there)) == if there {
            present(ps, found).push(p)
        } else {
            present(ps, found)
        },
{
    assert(ps.push(p).drop_last() =~= ps);
    assert(found.push(there).drop_last() =~= found);
}

/// A line is read quote by quote: the text between the first quote and the next
/// of its kind is a segment, where it is not empty and holds no colon, and the
/// line is read on behind it.
pub proof fn quoted_texts_are_segments(
    pre: Seq<char>,
    q: char,
    seg: Seq<char>,
    rest: Seq<char>,
)
    requires
        !pre.contains('"') && !pre.contains('\''),
        q == '"' || q == '\'',
        !seg.contains(q),
    ensures
        quoted_segments(pre).len() == 0,
        quoted_segments(pre + (seq![q] + seg)).len() == 0,
        quoted_segments(pre + (seq![q] + seg + seq![q] + rest)) == if seg.len() > 0
            && !seg.contains(':') {
            seq![seg] + quoted_segments(rest)
        } else {
            quoted_segments(rest)
        },
{
    reveal(quoted_segments);
    assert forall|j: int| 0 <= j < pre.len() implies !text::in_class(
        Class::Quote,
        #[trigger] pre[j],
    ) by {
        assert(pre.contains(pre[j]));
    }
    text::span_is(pre, Class::Quote, pre.len() as int);
    let s = pre + (seq![q] + seg + seq![q] + rest);
    let open = pre + (seq![q] + seg);
    let n = pre.len() as int;
    assert forall|j: int| 0 <= j < n implies !text::in_class(Class::Quote, #[trigger] s[j]) by {
        assert(s[j] == pre[j]);
    }
    assert forall|j: int| 0 <= j < n implies !text::in_class(Class::Quote, #[trigger] open[j]) by {
        assert(open[j] == pre[j]);
    }
    assert(s[n] == q && open[n] == q);
    text::span_is(s, Class::Quote, n);
    text::span_is(open, Class::Quote, n);
    let after = s.skip(n + 1);
    assert(after =~= seg + (seq![q] + rest));
    assert forall|j: int| 0 <= j < seg.len() implies !text::in_class(
        Class::Only(q),
        #[trigger] after[j],
    ) by {
        assert(after[j] == seg[j]);
        assert(seg.contains(seg[j]));
    }
    text::span_is(after, Class::Only(q), seg.len() as int);
    assert(after.take(seg.len() as int) =~= seg);
    assert(after.skip(seg.len() as int + 1) =~= rest);
    let left = open.skip(n + 1);
    assert(left =~= seg);
    assert forall|j: int| 0 <= j < seg.len() implies !text::in_class(
        Class::Only(q),
        #[trigger] left[j],
    ) by {
        assert(seg.contains(seg[j]));
    }
    text::span_is(left, Class::Only(q), seg.len() as int);
}

/// A line composes a path where it holds the mark and has segments, unless the
/// path is absolute; lines and files are read one by one, in their order.
pub proof fn marked_lines_compose_paths(
    a: Seq<Seq<char>>,
    l: Seq<char>,
    b: Seq<Seq<char>>,
    mark: Seq<char>,
)
    ensures
        composed_paths(a + b, mark) == composed_paths(a, mark) + composed_paths(b, mark),
        composed_paths(seq![l], mark) == if text::has(l, mark) && quoted_segments(l).len() > 0
            && !path::is_abs(path::render(quoted_segments(l))) {
            seq![path::render(quoted_segments(l))]
        } else {
            Seq::<Seq<char>>::empty()
        },
        all_composed(a + b, mark) == all_composed(a, mark) + all_composed(b, mark),
        all_composed(seq![l], mark) == composed_paths(text::lines(l), mark),
    decreases b.len(),
{
    reveal_with_fuel(composed_paths, 2);
    reveal_with_fuel(all_composed, 2);
    assert(seq![l].drop_last() =~= Seq::<Seq<char>>::empty());
    assert(composed_paths(seq![l], mark) =~= if text::has(l, mark) && quoted_segments(l).len() > 0
        && !path::is_abs(path::render(quoted_segments(l))) {
        seq![path::render(quoted_segments(l))]
    } else {
        Seq::<Seq<char>>::empty()
    });
    assert(all_composed(seq![l], mark) =~= composed_paths(text::lines(l), mark));
    if b.len() == 0 {
        assert(a + b =~= a);
        assert(composed_paths(a, mark) + composed_paths(b, mark) =~= composed_paths(a, mark));
        assert(all_composed(a, mark) + all_composed(b, mark) =~= all_composed(a, mark));
    } else {
        marked_lines_compose_paths(a, l, b.drop_last(), mark);
        assert((a + b).drop_last() =~= a + b.drop_last());
        assert((a + b).last() == b.last());
        assert(composed_paths(a + b, mark) =~= composed_paths(a, mark) + composed_paths(b, mark));
        assert(all_composed(a + b, mark) =~= all_composed(a, mark) + all_composed(b, mark));
    }
}

/// Every path is walked from the directory; one that leads back to it is left out.
pub proof fn search_paths_are_walked(
    dir: Seq<char>,
    a: Seq<Seq<char>>,
    rel: Seq<char>,
    b: Seq<Seq<char>>,
)
    ensures
        walked_elsewhere(dir, a + b) == walked_elsewhere(dir, a) + walked_elsewhere(dir, b),
        walked_elsewhere(dir, seq![rel]) == if path::comps(path::walked(dir, rel)) == path::comps(
            dir,
        ) {
            Seq::<Seq<char>>::empty()
        } else {
            seq![path::walked(dir, rel)]
        },
    decreases b.len(),
{
    reveal_with_fuel(walked_elsewhere, 2);
    assert(seq![rel].drop_last() =~= Seq::<Seq<char>>::empty());
    if path::comps(path::walked(dir, rel)) != path::comps(dir) {
        assert(walked_elsewhere(dir, seq![rel]) =~= seq![path::walked(dir, rel)]);
    }
    if b.len() == 0 {
        assert(a + b =~= a);
        assert(walked_elsewhere(dir, a) + walked_elsewhere(dir, b) =~= walked_elsewhere(dir, a));
    } else {
        search_paths_are_walked(dir, a, rel, b.drop_last());
        assert((a + b).drop_last() =~= a + b.drop_last());
        assert((a + b).last() == b.last());
        assert(walked_elsewhere(dir, a + b) =~= walked_elsewhere(dir, a) + walked_elsewhere(
            dir,
            b,
        ));
    }
}

} // verus!
