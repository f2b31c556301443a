//! Text as sequences of characters: comparing, searching, splitting, trimming
//! and joining, each stated over `Seq<char>`.
use crate::views;
use vstd::prelude::*;

verus! {

broadcast use {views::texts_push, views::pieces_push};

/// `String::push` appends one character.
pub assume_specification[ String::push ](s: &mut String, c: char)
    ensures
        final(s)@ == old(s)@.push(c),
;

// ---------------------------------------------------------------------------
// Conversions
// ---------------------------------------------------------------------------

/// The characters of a string.
pub fn chars_of(s: &str) -> (r: Vec<char>)
    ensures
        r@ == s@,
{
    let mut r: Vec<char> = Vec::new();
    for c in it: s.chars()
        invariant
            r@ == it.seq().take(it.index() as int),
            it.seq() == s@,
    {
        r.push(c);
    }
    r
}

/// The string made of the given characters.
pub fn string_of(v: &Vec<char>) -> (r: String)
    ensures
        r@ == v@,
{
    let mut r = String::new();
    for i in 0..v.len()
        invariant
            r@ == v@.take(i as int),
    {
        r.push(v[i]);
    }
    r
}

/// The strings made of the given pieces.
pub fn strings_of(v: &Vec<Vec<char>>) -> (r: Vec<String>)
    ensures
        views::texts(r@) == views::pieces(v@),
{
    let mut r: Vec<String> = Vec::new();
    for i in 0..v.len()
        invariant
            views::texts(r@) == views::pieces(v@).take(i as int),
    {
        let s = string_of(&v[i]);
        r.push(s);
        assert(views::pieces(v@).take(i + 1) =~= views::pieces(v@).take(i as int).push(v@[i as int]@));
    }
    assert(views::pieces(v@).take(v@.len() as int) =~= views::pieces(v@));
    r
}

/// The pieces made of the given strings.
pub fn pieces_of(v: &Vec<String>) -> (r: Vec<Vec<char>>)
    ensures
        views::pieces(r@) == views::texts(v@),
{
    let mut r: Vec<Vec<char>> = Vec::new();
    for i in 0..v.len()
        invariant
            views::pieces(r@) == views::texts(v@).take(i as int),
    {
        let s = chars_of(v[i].as_str());
        r.push(s);
        assert(views::texts(v@).take(i + 1) =~= views::texts(v@).take(i as int).push(v@[i as int]@));
    }
    assert(views::texts(v@).take(v@.len() as int) =~= views::texts(v@));
    r
}

/// A copy of the characters from `from` up to `to`.
pub fn cut(v: &Vec<char>, from: usize, to: usize) -> (r: Vec<char>)
    requires
        from <= to <= v.len(),
    ensures
        r@ == v@.subrange(from as int, to as int),
{
    let mut r: Vec<char> = Vec::new();
    for i in from..to
        invariant
            from <= to <= v.len(),
            r@ == v@.subrange(from as int, i as int),
    {
        r.push(v[i]);
    }
    r
}

/// A copy of the characters from `from` on.
pub fn tail(v: &Vec<char>, from: usize) -> (r: Vec<char>)
    requires
        from <= v.len(),
    ensures
        r@ == v@.skip(from as int),
{
    cut(v, from, v.len())
}

/// A copy of the first `to` characters.
pub fn head(v: &Vec<char>, to: usize) -> (r: Vec<char>)
    requires
        to <= v.len(),
    ensures
        r@ == v@.take(to as int),
{
    cut(v, 0, to)
}

/// A copy of the whole text.
pub fn copy(v: &Vec<char>) -> (r: Vec<char>)
    ensures
        r@ == v@,
{
    let r = cut(v, 0, v.len());
    assert(v@.subrange(0, v@.len() as int) =~= v@);
    r
}

/// Appends a copy of `w`.
pub fn append(v: &mut Vec<char>, w: &Vec<char>)
    ensures
        final(v)@ == old(v)@ + w@,
{
    let ghost before = v@;
    for i in 0..w.len()
        invariant
            v@ == before + w@.take(i as int),
    {
        v.push(w[i]);
    }
}

/// Appends the characters of a string.
pub fn append_str(v: &mut Vec<char>, s: &str)
    ensures
        final(v)@ == old(v)@ + s@,
{
    let w = chars_of(s);
    append(v, &w);
}

/// `a` followed by `b`.
pub fn concat(a: &Vec<char>, b: &Vec<char>) -> (r: Vec<char>)
    ensures
        r@ == a@ + b@,
{
    let mut r = cut(a, 0, a.len());
    append(&mut r, b);
    r
}

// ---------------------------------------------------------------------------
// Comparing
// ---------------------------------------------------------------------------

/// Whether two texts are equal.
pub fn same(a: &Vec<char>, b: &Vec<char>) -> (r: bool)
    ensures
        r == (a@ == b@),
{
    if a.len() != b.len() {
        return false;
    }
    for i in 0..a.len()
        invariant
            a@.len() == b@.len(),
            forall|j: int| 0 <= j < i ==> a@[j] == b@[j],
    {
        if a[i] != b[i] {
            return false;
        }
    }
    assert(a@ =~= b@);
    true
}

/// Whether two strings hold the same text.
pub fn same_str(a: &str, b: &str) -> (r: bool)
    ensures
        r == (a@ == b@),
{
    let x = chars_of(a);
    let y = chars_of(b);
    same(&x, &y)
}

/// Whether a text equals a literal.
pub fn is_lit(a: &Vec<char>, lit: &str) -> (r: bool)
    ensures
        r == (a@ == lit@),
{
    let b = chars_of(lit);
    same(a, &b)
}

/// Whether a list of strings holds a text.
pub fn list_has(v: &Vec<String>, s: &str) -> (r: bool)
    ensures
        r == views::texts(v@).contains(s@),
{
    for i in 0..v.len()
        invariant
            forall|j: int| 0 <= j < i ==> views::texts(v@)[j] != s@,
    {
        if same_str(v[i].as_str(), s) {
            assert(views::texts(v@)[i as int] == s@);
            return true;
        }
    }
    false
}

/// The order of texts: character by character, a proper prefix first.
pub open spec fn text_le(a: Seq<char>, b: Seq<char>) -> bool
    decreases a.len(),
{
    if a.len() == 0 {
        true
    } else if b.len() == 0 {
        false
    } else if a[0] != b[0] {
        a[0] < b[0]
    } else {
        text_le(a.drop_first(), b.drop_first())
    }
}

/// The order is total.
pub proof fn text_le_total(a: Seq<char>, b: Seq<char>)
    ensures
        text_le(a, b) || text_le(b, a),
    decreases a.len(),
{
    if a.len() > 0 && b.len() > 0 && a[0] == b[0] {
        text_le_total(a.drop_first(), b.drop_first());
    }
}

/// Texts that precede each other are equal.
pub proof fn text_le_antisymmetric(a: Seq<char>, b: Seq<char>)
    requires
        text_le(a, b),
        text_le(b, a),
    ensures
        a == b,
    decreases a.len(),
{
    if a.len() > 0 && b.len() > 0 {
        text_le_antisymmetric(a.drop_first(), b.drop_first());
        assert(a =~= seq![a[0]] + a.drop_first());
        assert(b =~= seq![b[0]] + b.drop_first());
    } else {
        assert(a =~= b);
    }
}

/// The order is transitive.
pub proof fn text_le_transitive(a: Seq<char>, b: Seq<char>, c: Seq<char>)
    requires
        text_le(a, b),
        text_le(b, c),
    ensures
        text_le(a, c),
    decreases a.len(),
{
    if a.len() > 0 && b.len() > 0 && c.len() > 0 && a[0] == b[0] && b[0] == c[0] {
        text_le_transitive(a.drop_first(), b.drop_first(), c.drop_first());
    }
}

/// Whether `a` precedes or equals `b`.
pub fn le(a: &Vec<char>, b: &Vec<char>) -> (r: bool)
    ensures
        r == text_le(a@, b@),
{
    let mut i: usize = 0;
    assert(a@.skip(0) =~= a@ && b@.skip(0) =~= b@);
    while i < a.len() && i < b.len() && a[i] == b[i]
        invariant
            i <= a.len(),
            i <= b.len(),
            text_le(a@, b@) == text_le(a@.skip(i as int), b@.skip(i as int)),
        decreases a.len() - i,
    {
        assert(a@.skip(i as int).drop_first() =~= a@.skip(i + 1));
        assert(b@.skip(i as int).drop_first() =~= b@.skip(i + 1));
        i += 1;
    }
    if i == a.len() {
        true
    } else if i == b.len() {
        false
    } else {
        a[i] < b[i]
    }
}

// ---------------------------------------------------------------------------
// Searching
// ---------------------------------------------------------------------------

/// `n` stands in `h` at offset `i`.
pub open spec fn occurs_at(h: Seq<char>, n: Seq<char>, i: int) -> bool {
    0 <= i && i + n.len() <= h.len() && h.subrange(i, i + n.len()) == n
}

/// `n` stands somewhere in `h`.
pub open spec fn has(h: Seq<char>, n: Seq<char>) -> bool {
    exists|i: int| occurs_at(h, n, i)
}

/// The first offset from `i` on at which `n` stands in `h`.
pub open spec fn find_from(h: Seq<char>, n: Seq<char>, i: int) -> Option<int>
    decreases h.len() + 1 - i,
{
    if i + n.len() > h.len() {
        None
    } else if occurs_at(h, n, i) {
        Some(i)
    } else {
        find_from(h, n, i + 1)
    }
}

/// The first offset at which `n` stands in `h`.
pub open spec fn find(h: Seq<char>, n: Seq<char>) -> Option<int> {
    find_from(h, n, 0)
}

/// What `find_from` returns is the first occurrence, if there is one.
pub proof fn find_from_first(h: Seq<char>, n: Seq<char>, i: int)
    requires
        0 <= i,
    ensures
        match find_from(h, n, i) {
            Some(k) => i <= k && occurs_at(h, n, k) && forall|j: int|
                i <= j < k ==> !occurs_at(h, n, j),
            None => forall|j: int| i <= j ==> !occurs_at(h, n, j),
        },
    decreases h.len() + 1 - i,
{
    if i + n.len() > h.len() {
    } else if occurs_at(h, n, i) {
    } else {
        find_from_first(h, n, i + 1);
    }
}

/// A text occurs in another exactly when its first occurrence is found.
pub proof fn has_iff_found(h: Seq<char>, n: Seq<char>)
    ensures
        has(h, n) == (find(h, n) is Some),
{
    find_from_first(h, n, 0);
}

/// Whether `n` stands in `h` at offset `i`.
pub fn stands_at(h: &Vec<char>, n: &Vec<char>, i: usize) -> (r: bool)
    ensures
        r == occurs_at(h@, n@, i as int),
{
    if n.len() > h.len() || i > h.len() - n.len() {
        return false;
    }
    for j in 0..n.len()
        invariant
            i + n.len() <= h.len(),
            forall|k: int| 0 <= k < j ==> h@[i + k] == n@[k],
    {
        if h[i + j] != n[j] {
            assert(h@.subrange(i as int, i + n@.len())[j as int] != n@[j as int]);
            return false;
        }
    }
    assert(h@.subrange(i as int, i + n@.len()) =~= n@);
    true
}

/// The first offset from `from` on at which `n` stands in `h`.
pub fn search_from(h: &Vec<char>, n: &Vec<char>, from: usize) -> (r: Option<usize>)
    ensures
        match r {
            Some(i) => find_from(h@, n@, from as int) == Some(i as int) && occurs_at(
                h@,
                n@,
                i as int,
            ) && from <= i,
            None => find_from(h@, n@, from as int) is None,
        },
{
    let mut i: usize = from;
    while n.len() <= h.len() && i <= h.len() - n.len()
        invariant
            from <= i,
            find_from(h@, n@, from as int) == find_from(h@, n@, i as int),
        decreases h.len() - i,
    {
        if stands_at(h, n, i) {
            return Some(i);
        }
        if i == h.len() - n.len() {
            assert(find_from(h@, n@, i + 1) is None);
            return None;
        }
        i += 1;
    }
    None
}

/// The first offset at which `n` stands in `h`.
pub fn search(h: &Vec<char>, n: &Vec<char>) -> (r: Option<usize>)
    ensures
        match r {
            Some(i) => find(h@, n@) == Some(i as int) && occurs_at(h@, n@, i as int),
            None => find(h@, n@) is None,
        },
{
    search_from(h, n, 0)
}

/// The first offset at which a literal stands in `h`.
pub fn search_lit(h: &Vec<char>, lit: &str) -> (r: Option<usize>)
    ensures
        match r {
            Some(i) => find(h@, lit@) == Some(i as int) && occurs_at(h@, lit@, i as int),
            None => find(h@, lit@) is None,
        },
{
    let n = chars_of(lit);
    search(h, &n)
}

/// Whether `n` stands somewhere in `h`.
pub fn contains(h: &Vec<char>, n: &Vec<char>) -> (r: bool)
    ensures
        r == has(h@, n@),
{
    proof {
        has_iff_found(h@, n@);
    }
    search(h, n).is_some()
}

/// Whether a literal stands somewhere in `h`.
pub fn contains_lit(h: &Vec<char>, lit: &str) -> (r: bool)
    ensures
        r == has(h@, lit@),
{
    let n = chars_of(lit);
    contains(h, &n)
}

/// Whether `h` holds the character `c`.
pub fn contains_char(h: &Vec<char>, c: char) -> (r: bool)
    ensures
        r == h@.contains(c),
{
    for i in 0..h.len()
        invariant
            forall|j: int| 0 <= j < i ==> h@[j] != c,
    {
        if h[i] == c {
            assert(h@[i as int] == c);
            return true;
        }
    }
    false
}

/// Whether `h` starts with a literal.
pub fn starts_lit(h: &Vec<char>, lit: &str) -> (r: bool)
    ensures
        r == lit@.is_prefix_of(h@),
{
    let n = chars_of(lit);
    starts(h, &n)
}

/// Whether `h` starts with `n`.
pub fn starts(h: &Vec<char>, n: &Vec<char>) -> (r: bool)
    ensures
        r == n@.is_prefix_of(h@),
{
    let r = stands_at(h, n, 0);
    assert(h@.subrange(0, 0 + n@.len() as int) =~= h@.subrange(0, n@.len() as int));
    r
}

/// Whether `h` ends with `n`.
pub fn ends(h: &Vec<char>, n: &Vec<char>) -> (r: bool)
    ensures
        r == n@.is_suffix_of(h@),
{
    if n.len() > h.len() {
        return false;
    }
    let at: usize = h.len() - n.len();
    let r = stands_at(h, n, at);
    assert(h@.subrange(at as int, at + n@.len()) =~= h@.subrange(at as int, h@.len() as int));
    r
}

/// Whether `h` ends with a literal.
pub fn ends_lit(h: &Vec<char>, lit: &str) -> (r: bool)
    ensures
        r == lit@.is_suffix_of(h@),
{
    let n = chars_of(lit);
    ends(h, &n)
}

/// What is left of `h` behind the prefix `n`, where `n` is one.
pub open spec fn without_prefix(h: Seq<char>, n: Seq<char>) -> Option<Seq<char>> {
    if n.is_prefix_of(h) {
        Some(h.skip(n.len() as int))
    } else {
        None
    }
}

/// What is left of `h` in front of the suffix `n`, where `n` is one.
pub open spec fn without_suffix(h: Seq<char>, n: Seq<char>) -> Option<Seq<char>> {
    if n.is_suffix_of(h) {
        Some(h.take(h.len() - n.len()))
    } else {
        None
    }
}

/// What is left of `h` behind a literal prefix, where it is one.
pub fn strip_lit(h: &Vec<char>, lit: &str) -> (r: Option<Vec<char>>)
    ensures
        views::opt_piece(r) == without_prefix(h@, lit@),
{
    let n = chars_of(lit);
    if starts(h, &n) {
        Some(tail(h, n.len()))
    } else {
        None
    }
}

/// What is left of `h` in front of a literal suffix, where it is one.
pub fn strip_end_lit(h: &Vec<char>, lit: &str) -> (r: Option<Vec<char>>)
    ensures
        views::opt_piece(r) == without_suffix(h@, lit@),
{
    let n = chars_of(lit);
    if ends(h, &n) {
        Some(head(h, h.len() - n.len()))
    } else {
        None
    }
}

// ---------------------------------------------------------------------------
// Character classes
// ---------------------------------------------------------------------------

/// The sets of characters at which text is split and trimmed.
#[derive(Clone, Copy)]
pub enum Class {
    /// One character.
    Only(char),
    /// Unicode white space.
    Space,
    /// A double or a single quote.
    Quote,
    /// White space or a quote.
    SpaceOrQuote,
    /// What ends the first name of a python import: a space, a dot, a comma.
    ImportEnd,
    /// What sets paths apart inside a word.
    PathJoint,
}

/// The characters of Unicode's White_Space property.
pub open spec fn is_space(c: char) -> bool {
    ||| '\u{9}' <= c <= '\u{d}'
    ||| c == ' '
    ||| c == '\u{85}'
    ||| c == '\u{a0}'
    ||| c == '\u{1680}'
    ||| '\u{2000}' <= c <= '\u{200a}'
    ||| c == '\u{2028}'
    ||| c == '\u{2029}'
    ||| c == '\u{202f}'
    ||| c == '\u{205f}'
    ||| c == '\u{3000}'
}

/// A double or a single quote.
pub open spec fn is_quote(c: char) -> bool {
    c == '"' || c == '\''
}

/// What sets paths apart inside a word: a quote, an equals sign, a colon, a
/// semicolon, a comma, an at sign.
pub open spec fn is_joint(c: char) -> bool {
    is_quote(c) || c == '=' || c == ':' || c == ';' || c == ',' || c == '@'
}

/// Membership in a class.
pub open spec fn in_class(k: Class, c: char) -> bool {
    match k {
        Class::Only(d) => c == d,
        Class::Space => is_space(c),
        Class::Quote => is_quote(c),
        Class::SpaceOrQuote => is_space(c) || is_quote(c),
        Class::ImportEnd => c == ' ' || c == '.' || c == ',',
        Class::PathJoint => is_joint(c),
    }
}

/// Whether a character is white space.
pub fn space(c: char) -> (r: bool)
    ensures
        r == is_space(c),
{
    ('\u{9}' <= c && c <= '\u{d}') || c == ' ' || c == '\u{85}' || c == '\u{a0}' || c == '\u{1680}'
        || ('\u{2000}' <= c && c <= '\u{200a}') || c == '\u{2028}' || c == '\u{2029}' || c
        == '\u{202f}' || c == '\u{205f}' || c == '\u{3000}'
}

/// Whether a character belongs to a class.
pub fn belongs(k: Class, c: char) -> (r: bool)
    ensures
        r == in_class(k, c),
{
    match k {
        Class::Only(d) => c == d,
        Class::Space => space(c),
        Class::Quote => c == '"' || c == '\'',
        Class::SpaceOrQuote => space(c) || c == '"' || c == '\'',
        Class::ImportEnd => c == ' ' || c == '.' || c == ',',
        Class::PathJoint => c == '"' || c == '\'' || c == '=' || c == ':' || c == ';' || c == ','
            || c == '@',
    }
}

/// An ASCII digit.
pub open spec fn is_digit(c: char) -> bool {
    '0' <= c <= '9'
}

/// An ASCII letter or digit.
pub open spec fn is_ascii_alnum(c: char) -> bool {
    ('a' <= c <= 'z') || ('A' <= c <= 'Z') || is_digit(c)
}

/// Whether a character is an ASCII letter or digit.
pub fn ascii_alnum(c: char) -> (r: bool)
    ensures
        r == is_ascii_alnum(c),
{
    ('a' <= c && c <= 'z') || ('A' <= c && c <= 'Z') || ('0' <= c && c <= '9')
}

/// Made of ASCII letters, digits and underscores alone.
pub open spec fn is_word_text(s: Seq<char>) -> bool {
    forall|i: int| 0 <= i < s.len() ==> is_ascii_alnum(#[trigger] s[i]) || s[i] == '_'
}

/// Whether a text is made of ASCII letters, digits and underscores alone.
pub fn word_text(v: &Vec<char>) -> (r: bool)
    ensures
        r == is_word_text(v@),
{
    for i in 0..v.len()
        invariant
            forall|j: int| 0 <= j < i ==> is_ascii_alnum(#[trigger] v@[j]) || v@[j] == '_',
    {
        if !(ascii_alnum(v[i]) || v[i] == '_') {
            assert(!(is_ascii_alnum(v@[i as int]) || v@[i as int] == '_'));
            return false;
        }
    }
    true
}

/// Some character of the text is in the class.
pub open spec fn has_class(s: Seq<char>, k: Class) -> bool {
    exists|i: int| 0 <= i < s.len() && in_class(k, #[trigger] s[i])
}

/// Whether some character of the text is in the class.
pub fn any_in(v: &Vec<char>, k: Class) -> (r: bool)
    ensures
        r == has_class(v@, k),
{
    for i in 0..v.len()
        invariant
            forall|j: int| 0 <= j < i ==> !in_class(k, #[trigger] v@[j]),
    {
        if belongs(k, v[i]) {
            assert(in_class(k, v@[i as int]));
            return true;
        }
    }
    false
}

// ---------------------------------------------------------------------------
// Splitting
// ---------------------------------------------------------------------------

/// The length of the longest prefix free of the class.
pub open spec fn span(s: Seq<char>, k: Class) -> int
    decreases s.len(),
{
    if s.len() == 0 || in_class(k, s[0]) {
        0
    } else {
        1 + span(s.drop_first(), k)
    }
}

/// The span is where the class first occurs, or the whole length.
pub proof fn span_stops(s: Seq<char>, k: Class)
    ensures
        0 <= span(s, k) <= s.len(),
        forall|j: int| 0 <= j < span(s, k) ==> !in_class(k, #[trigger] s[j]),
        span(s, k) < s.len() ==> in_class(k, s[span(s, k)]),
    decreases s.len(),
{
    if s.len() == 0 || in_class(k, s[0]) {
    } else {
        let r = s.drop_first();
        span_stops(r, k);
        assert forall|j: int| 0 <= j < span(s, k) implies !in_class(k, #[trigger] s[j]) by {
            if j > 0 {
                assert(r[j - 1] == s[j]);
            }
        }
        if span(s, k) < s.len() {
            assert(r[span(r, k)] == s[span(s, k)]);
        }
    }
}

/// An index with nothing of the class before it, and the class or the end at it, is the span.
pub proof fn span_is(s: Seq<char>, k: Class, n: int)
    requires
        0 <= n <= s.len(),
        forall|j: int| 0 <= j < n ==> !in_class(k, #[trigger] s[j]),
        n < s.len() ==> in_class(k, s[n]),
    ensures
        span(s, k) == n,
{
    span_stops(s, k);
    if span(s, k) < n {
        assert(in_class(k, s[span(s, k)]));
    } else if span(s, k) > n {
        assert(in_class(k, s[n]));
    }
}

/// The pieces between the characters of the class; at least one, maybe empty ones.
pub open spec fn split(s: Seq<char>, k: Class) -> Seq<Seq<char>>
    decreases s.len(),
{
    if !(0 <= span(s, k) < s.len()) {
        seq![s]
    } else {
        seq![s.take(span(s, k))] + split(s.skip(span(s, k) + 1), k)
    }
}

/// The length of the longest prefix of `v` from `from` on that is free of the class, as an index.
pub fn stop_from(v: &Vec<char>, from: usize, k: Class) -> (r: usize)
    requires
        from <= v.len(),
    ensures
        from <= r <= v.len(),
        r - from == span(v@.skip(from as int), k),
        forall|j: int| from <= j < r ==> !in_class(k, #[trigger] v@[j]),
        r < v.len() ==> in_class(k, v@[r as int]),
{
    let mut i: usize = from;
    while i < v.len() && !belongs(k, v[i])
        invariant
            from <= i <= v.len(),
            forall|j: int| from <= j < i ==> !in_class(k, #[trigger] v@[j]),
        decreases v.len() - i,
    {
        i += 1;
    }
    proof {
        let s = v@.skip(from as int);
        assert forall|j: int| 0 <= j < i - from implies !in_class(k, #[trigger] s[j]) by {
            assert(s[j] == v@[j + from]);
        }
        span_is(s, k, i - from);
    }
    i
}

/// The pieces between the characters of the class.
pub fn split_by(v: &Vec<char>, k: Class) -> (r: Vec<Vec<char>>)
    ensures
        views::pieces(r@) == split(v@, k),
{
    let mut out: Vec<Vec<char>> = Vec::new();
    let mut start: usize = 0;
    assert(v@.skip(0) =~= v@);
    assert(views::pieces(out@) =~= Seq::<Seq<char>>::empty());
    assert(split(v@, k) =~= views::pieces(out@) + split(v@.skip(0), k));
    loop
        invariant
            start <= v.len(),
            split(v@, k) == views::pieces(out@) + split(v@.skip(start as int), k),
        decreases v.len() - start,
    {
        let ghost rest = v@.skip(start as int);
        let end = stop_from(v, start, k);
        let ghost before = views::pieces(out@);
        proof {
            span_stops(rest, k);
        }
        out.push(cut(v, start, end));
        assert(views::pieces(out@) =~= before.push(v@.subrange(start as int, end as int)));
        assert(v@.subrange(start as int, end as int) =~= rest.take(end - start));
        if end == v.len() {
            assert(rest.take(end - start) =~= rest);
            assert(views::pieces(out@) =~= before + seq![rest]);
            return out;
        }
        assert(v@.skip(end + 1) =~= rest.skip(span(rest, k) + 1));
        assert(views::pieces(out@) + split(v@.skip(end + 1), k) =~= before + (seq![rest.take(
            span(rest, k),
        )] + split(rest.skip(span(rest, k) + 1), k)));
        start = end + 1;
    }
}

/// There is always a first piece.
pub proof fn split_nonempty(s: Seq<char>, k: Class)
    ensures
        split(s, k).len() >= 1,
        split(s, k)[0] == s.take(span(s, k)),
{
    span_stops(s, k);
    assert(s.take(s.len() as int) =~= s);
}

/// The pieces that are not empty.
pub open spec fn nonempty(ps: Seq<Seq<char>>) -> Seq<Seq<char>>
    decreases ps.len(),
{
    if ps.len() == 0 {
        Seq::empty()
    } else if ps.last().len() > 0 {
        nonempty(ps.drop_last()).push(ps.last())
    } else {
        nonempty(ps.drop_last())
    }
}

/// The words of a text: its maximal runs free of white space.
pub open spec fn words(s: Seq<char>) -> Seq<Seq<char>> {
    nonempty(split(s, Class::Space))
}

/// The words of a text.
pub fn words_of(v: &Vec<char>) -> (r: Vec<Vec<char>>)
    ensures
        views::pieces(r@) == words(v@),
{
    let all = split_by(v, Class::Space);
    let ghost ps = views::pieces(all@);
    let mut out: Vec<Vec<char>> = Vec::new();
    assert(views::pieces(out@) =~= nonempty(ps.take(0)));
    for i in 0..all.len()
        invariant
            ps == views::pieces(all@),
            views::pieces(out@) == nonempty(ps.take(i as int)),
    {
        proof {
            assert(ps.take(i + 1).drop_last() =~= ps.take(i as int));
            assert(ps.take(i + 1).last() == all@[i as int]@);
        }
        if all[i].len() > 0 {
            let ghost before = views::pieces(out@);
            out.push(cut(&all[i], 0, all[i].len()));
            assert(all@[i as int]@.subrange(0, all@[i as int]@.len() as int)
                =~= all@[i as int]@);
            assert(views::pieces(out@) =~= before.push(all@[i as int]@));
        }
    }
    assert(ps.take(ps.len() as int) =~= ps);
    out
}

/// The words of a string.
pub fn words_of_str(s: &str) -> (r: Vec<Vec<char>>)
    ensures
        views::pieces(r@) == words(s@),
{
    let v = chars_of(s);
    words_of(&v)
}

/// What stands before and after the first `c`, where there is one.
pub open spec fn split_once(s: Seq<char>, c: char) -> Option<(Seq<char>, Seq<char>)> {
    let n = span(s, Class::Only(c));
    if n < s.len() {
        Some((s.take(n), s.skip(n + 1)))
    } else {
        None
    }
}

/// What stands before and after the first `c`, where there is one.
pub fn cut_once(v: &Vec<char>, c: char) -> (r: Option<(Vec<char>, Vec<char>)>)
    ensures
        views::opt_pair(r) == split_once(v@, c),
{
    assert(v@.skip(0) =~= v@);
    let n = stop_from(v, 0, Class::Only(c));
    if n < v.len() {
        Some((head(v, n), tail(v, n + 1)))
    } else {
        None
    }
}

/// What stands behind the last `c`, or the whole text.
pub open spec fn after_last(s: Seq<char>, c: char) -> Seq<char> {
    split(s, Class::Only(c)).last()
}

/// What stands behind the last `c`, or the whole text.
pub fn behind_last(v: &Vec<char>, c: char) -> (r: Vec<char>)
    ensures
        r@ == after_last(v@, c),
{
    let ps = split_by(v, Class::Only(c));
    proof {
        split_nonempty(v@, Class::Only(c));
        assert(views::pieces(ps@).len() == ps@.len());
    }
    let n: usize = ps.len() - 1;
    let r = cut(&ps[n], 0, ps[n].len());
    assert(ps@[n as int]@.subrange(0, ps@[n as int]@.len() as int) =~= ps@[n as int]@);
    assert(views::pieces(ps@).last() == ps@[n as int]@);
    r
}

/// A line as it stands before a line feed: one carriage return at its end goes too.
pub open spec fn chomp(s: Seq<char>) -> Seq<char> {
    if s.len() > 0 && s.last() == '\r' {
        s.drop_last()
    } else {
        s
    }
}

/// The first `n` pieces, each as a line that a line feed ended.
pub open spec fn chomped(ps: Seq<Seq<char>>) -> Seq<Seq<char>> {
    ps.map_values(|s: Seq<char>| chomp(s))
}

/// The lines of a text. A line ends at a line feed, or at one carriage return
/// and a line feed; what follows the last line feed is a line if it is not empty.
pub open spec fn lines(s: Seq<char>) -> Seq<Seq<char>> {
    let ps = split(s, Class::Only('\n'));
    if ps.last().len() == 0 {
        chomped(ps.drop_last())
    } else {
        chomped(ps.drop_last()).push(ps.last())
    }
}

/// The lines of a text.
pub fn lines_of(v: &Vec<char>) -> (r: Vec<Vec<char>>)
    ensures
        views::pieces(r@) == lines(v@),
{
    let all = split_by(v, Class::Only('\n'));
    let ghost ps = views::pieces(all@);
    proof {
        split_nonempty(v@, Class::Only('\n'));
        assert(ps.len() == all@.len());
    }
    let last: usize = all.len() - 1;
    let mut out: Vec<Vec<char>> = Vec::new();
    assert(views::pieces(out@) =~= chomped(ps.drop_last()).take(0));
    for i in 0..last
        invariant
            ps == views::pieces(all@),
            last == all@.len() - 1,
            views::pieces(out@) == chomped(ps.drop_last()).take(i as int),
    {
        let ghost before = views::pieces(out@);
        let n: usize = all[i].len();
        assert(all@[i as int]@ == ps[i as int]);
        if n > 0 && all[i][n - 1] == '\r' {
            out.push(head(&all[i], n - 1));
            assert(ps[i as int].take(n - 1) =~= chomp(ps[i as int]));
        } else {
            out.push(head(&all[i], n));
            assert(ps[i as int].take(n as int) =~= chomp(ps[i as int]));
        }
        assert(views::pieces(out@) =~= before.push(chomp(ps[i as int])));
        assert(chomped(ps.drop_last()).take(i + 1) =~= chomped(ps.drop_last()).take(
            i as int,
        ).push(chomp(ps[i as int])));
    }
    assert(chomped(ps.drop_last()).take(last as int) =~= chomped(ps.drop_last()));
    assert(ps.last() == all@[last as int]@);
    if all[last].len() > 0 {
        let ghost before = views::pieces(out@);
        out.push(head(&all[last], all[last].len()));
        assert(ps.last().take(ps.last().len() as int) =~= ps.last());
        assert(views::pieces(out@) =~= before.push(ps.last()));
    }
    out
}

// ---------------------------------------------------------------------------
// Trimming
// ---------------------------------------------------------------------------

/// The text without the characters of the class that it starts with.
pub open spec fn trim_start(s: Seq<char>, k: Class) -> Seq<char>
    decreases s.len(),
{
    if s.len() > 0 && in_class(k, s[0]) {
        trim_start(s.drop_first(), k)
    } else {
        s
    }
}

/// The text without the characters of the class that it ends with.
pub open spec fn trim_end(s: Seq<char>, k: Class) -> Seq<char>
    decreases s.len(),
{
    if s.len() > 0 && in_class(k, s.last()) {
        trim_end(s.drop_last(), k)
    } else {
        s
    }
}

/// The text without the characters of the class at either end.
pub open spec fn trim(s: Seq<char>, k: Class) -> Seq<char> {
    trim_end(trim_start(s, k), k)
}

/// The text without the characters of the class that it starts with.
pub fn trimmed_start(v: &Vec<char>, k: Class) -> (r: Vec<char>)
    ensures
        r@ == trim_start(v@, k),
{
    let mut i: usize = 0;
    assert(v@.skip(0) =~= v@);
    while i < v.len() && belongs(k, v[i])
        invariant
            i <= v.len(),
            trim_start(v@, k) == trim_start(v@.skip(i as int), k),
        decreases v.len() - i,
    {
        assert(v@.skip(i as int).drop_first() =~= v@.skip(i + 1));
        i += 1;
    }
    tail(v, i)
}

/// The text without the characters of the class that it ends with.
pub fn trimmed_end(v: &Vec<char>, k: Class) -> (r: Vec<char>)
    ensures
        r@ == trim_end(v@, k),
{
    let mut n: usize = v.len();
    assert(v@.take(n as int) =~= v@);
    while n > 0 && belongs(k, v[n - 1])
        invariant
            n <= v.len(),
            trim_end(v@, k) == trim_end(v@.take(n as int), k),
        decreases n,
    {
        assert(v@.take(n as int).drop_last() =~= v@.take(n - 1));
        n -= 1;
    }
    head(v, n)
}

/// The text without the characters of the class at either end.
pub fn trimmed(v: &Vec<char>, k: Class) -> (r: Vec<char>)
    ensures
        r@ == trim(v@, k),
{
    let a = trimmed_start(v, k);
    trimmed_end(&a, k)
}

// ---------------------------------------------------------------------------
// Joining and replacing
// ---------------------------------------------------------------------------

/// The pieces with `sep` between each two.
pub open spec fn join(ps: Seq<Seq<char>>, sep: Seq<char>) -> Seq<char>
    decreases ps.len(),
{
    if ps.len() == 0 {
        Seq::empty()
    } else if ps.len() == 1 {
        ps[0]
    } else {
        join(ps.drop_last(), sep) + sep + ps.last()
    }
}

/// The pieces with a separator between each two.
pub fn joined(ps: &Vec<Vec<char>>, sep: &str) -> (r: Vec<char>)
    ensures
        r@ == join(views::pieces(ps@), sep@),
{
    let s = chars_of(sep);
    let ghost all = views::pieces(ps@);
    let mut out: Vec<char> = Vec::new();
    for i in 0..ps.len()
        invariant
            s@ == sep@,
            all == views::pieces(ps@),
            out@ == join(all.take(i as int), sep@),
    {
        proof {
            assert(all.take(i + 1).drop_last() =~= all.take(i as int));
            assert(all.take(i + 1).last() == ps@[i as int]@);
        }
        if i > 0 {
            append(&mut out, &s);
        }
        append(&mut out, &ps[i]);
        assert(i == 0 ==> out@ =~= ps@[i as int]@);
    }
    assert(all.take(all.len() as int) =~= all);
    out
}

/// The strings with a separator between each two.
pub fn joined_strings(v: &Vec<String>, sep: &str) -> (r: String)
    ensures
        r@ == join(views::texts(v@), sep@),
{
    let ps = pieces_of(v);
    let r = joined(&ps, sep);
    string_of(&r)
}

/// `to` before, between and behind the characters of the text.
pub open spec fn interleave(s: Seq<char>, to: Seq<char>) -> Seq<char>
    decreases s.len(),
{
    if s.len() == 0 {
        to
    } else {
        interleave(s.drop_last(), to) + seq![s.last()] + to
    }
}

/// Every occurrence of `from`, taken from the left without overlap, replaced by `to`.
/// An empty `from` stands between all characters and at both ends.
pub open spec fn replace(s: Seq<char>, from: Seq<char>, to: Seq<char>) -> Seq<char>
    decreases s.len(),
{
    if from.len() == 0 {
        interleave(s, to)
    } else {
        match find(s, from) {
            Some(i) => if 0 <= i && i + from.len() <= s.len() {
                s.take(i) + to + replace(s.skip(i + from.len()), from, to)
            } else {
                s
            },
            None => s,
        }
    }
}

/// Every occurrence of `from` replaced by `to`.
pub fn replaced(s: &Vec<char>, from: &Vec<char>, to: &Vec<char>) -> (r: Vec<char>)
    ensures
        r@ == replace(s@, from@, to@),
{
    let mut out: Vec<char> = Vec::new();
    if from.len() == 0 {
        append(&mut out, to);
        for i in 0..s.len()
            invariant
                out@ == interleave(s@.take(i as int), to@),
        {
            assert(s@.take(i + 1).drop_last() =~= s@.take(i as int));
            out.push(s[i]);
            append(&mut out, to);
            assert(out@ =~= interleave(s@.take(i as int), to@) + seq![s@[i as int]] + to@);
        }
        assert(s@.take(s@.len() as int) =~= s@);
        return out;
    }
    let mut rest = cut(s, 0, s.len());
    assert(rest@ =~= s@);
    assert(replace(s@, from@, to@) =~= out@ + replace(rest@, from@, to@));
    loop
        invariant
            from@.len() > 0,
            replace(s@, from@, to@) == out@ + replace(rest@, from@, to@),
        decreases rest@.len(),
    {
        let ghost before = out@;
        match search(&rest, from) {
            Some(i) => {
                let ghost old_rest = rest@;
                let n: usize = rest.len();
                assert(i + from@.len() <= n);
                let h = head(&rest, i);
                append(&mut out, &h);
                append(&mut out, to);
                rest = tail(&rest, i + from.len());
                assert(out@ + replace(rest@, from@, to@) =~= before + (old_rest.take(i as int) + to@
                    + replace(rest@, from@, to@)));
            },
            None => {
                append(&mut out, &rest);
                return out;
            },
        }
    }
}

/// `n` copies of a text, one behind the other.
pub open spec fn repeat(s: Seq<char>, n: nat) -> Seq<char>
    decreases n,
{
    if n == 0 {
        Seq::empty()
    } else {
        repeat(s, (n - 1) as nat) + s
    }
}

/// `n` copies of a literal.
pub fn repeated(lit: &str, n: usize) -> (r: Vec<char>)
    ensures
        r@ == repeat(lit@, n as nat),
{
    let s = chars_of(lit);
    let mut out: Vec<char> = Vec::new();
    for i in 0..n
        invariant
            s@ == lit@,
            out@ == repeat(lit@, i as nat),
    {
        append(&mut out, &s);
    }
    out
}

// ---------------------------------------------------------------------------
// Numbers
// ---------------------------------------------------------------------------

/// The decimal digit `d`.
pub open spec fn digit(d: nat) -> char {
    (d + 48) as char
}

/// A number in decimal, without leading zeros.
pub open spec fn decimal(n: nat) -> Seq<char>
    decreases n,
{
    if n < 10 {
        seq![digit(n)]
    } else {
        decimal(n / 10).push(digit(n % 10))
    }
}

/// The character of one decimal digit.
pub fn digit_char(d: u64) -> (r: char)
    requires
        d < 10,
    ensures
        r == digit(d as nat),
{
    if d == 0 {
        '0'
    } else if d == 1 {
        '1'
    } else if d == 2 {
        '2'
    } else if d == 3 {
        '3'
    } else if d == 4 {
        '4'
    } else if d == 5 {
        '5'
    } else if d == 6 {
        '6'
    } else if d == 7 {
        '7'
    } else if d == 8 {
        '8'
    } else {
        '9'
    }
}

/// A number in decimal.
pub fn number(n: u64) -> (r: Vec<char>)
    ensures
        r@ == decimal(n as nat),
    decreases n,
{
    if n < 10 {
        let mut v: Vec<char> = Vec::new();
        v.push(digit_char(n));
        assert(v@ =~= seq![digit(n as nat)]);
        v
    } else {
        let mut v = number(n / 10);
        v.push(digit_char(n % 10));
        v
    }
}

/// The value of a run of decimal digits.
pub open spec fn digits_value(s: Seq<char>) -> nat
    decreases s.len(),
{
    if s.len() == 0 {
        0
    } else {
        digits_value(s.drop_last()) * 10 + (s.last() as nat - 48) as nat
    }
}

/// Made of decimal digits alone.
pub open spec fn all_digits(s: Seq<char>) -> bool {
    forall|i: int| 0 <= i < s.len() ==> is_digit(#[trigger] s[i])
}

/// The digits of a number as it is read: one leading plus sign is allowed.
pub open spec fn unsigned_digits(s: Seq<char>) -> Seq<char> {
    if s.len() > 1 && s[0] == '+' {
        s.drop_first()
    } else {
        s
    }
}

/// The number that a text reads as: one or more digits, maybe behind a plus
/// sign, whose value fits 64 bits.
pub open spec fn parse_u64(s: Seq<char>) -> Option<u64> {
    let d = unsigned_digits(s);
    if d.len() > 0 && all_digits(d) && digits_value(d) <= u64::MAX {
        Some(digits_value(d) as u64)
    } else {
        None
    }
}

/// More digits never make a number smaller.
pub proof fn digits_value_grows(s: Seq<char>, n: int)
    requires
        0 <= n <= s.len(),
    ensures
        digits_value(s.take(n)) <= digits_value(s),
    decreases s.len() - n,
{
    if n < s.len() {
        assert(s.take(n + 1).drop_last() =~= s.take(n));
        digits_value_grows(s, n + 1);
    } else {
        assert(s.take(n) =~= s);
    }
}

/// The number that a text reads as, if it does.
pub fn read_u64(v: &Vec<char>) -> (r: Option<u64>)
    ensures
        r == parse_u64(v@),
{
    let from: usize = if v.len() > 1 && v[0] == '+' {
        1
    } else {
        0
    };
    let d = tail(v, from);
    assert(d@ =~= unsigned_digits(v@));
    if d.len() == 0 {
        return None;
    }
    let mut value: u64 = 0;
    for i in 0..d.len()
        invariant
            d@ == unsigned_digits(v@),
            value == digits_value(d@.take(i as int)),
            forall|j: int| 0 <= j < i ==> is_digit(#[trigger] d@[j]),
    {
        let c = d[i];
        assert(d@.take(i + 1).drop_last() =~= d@.take(i as int));
        assert(d@.take(i + 1).last() == c);
        if !('0' <= c && c <= '9') {
            assert(!is_digit(d@[i as int]));
            return None;
        }
        let digit: u64 = c as u64 - 48;
        proof {
            digits_value_grows(d@, i + 1);
        }
        if value > (u64::MAX - digit) / 10 {
            return None;
        }
        value = value * 10 + digit;
    }
    assert(d@.take(d@.len() as int) =~= d@);
    Some(value)
}

/// What stands between two runs of a class, and neither begins nor ends in it,
/// is what trimming leaves.
pub proof fn trim_leaves(lead: Seq<char>, w: Seq<char>, trail: Seq<char>, k: Class)
    requires
        forall|i: int| 0 <= i < lead.len() ==> in_class(k, #[trigger] lead[i]),
        forall|i: int| 0 <= i < trail.len() ==> in_class(k, #[trigger] trail[i]),
        w.len() > 0,
        !in_class(k, w[0]),
        !in_class(k, w.last()),
    ensures
        trim(lead + w + trail, k) == w,
    decreases lead.len() + trail.len(),
{
    let s = lead + w + trail;
    if lead.len() > 0 {
        assert(s[0] == lead[0]);
        assert(s.drop_first() =~= lead.drop_first() + w + trail);
        trim_leaves(lead.drop_first(), w, trail, k);
        assert(trim_start(s, k) == trim_start(s.drop_first(), k));
    } else {
        assert(s =~= w + trail);
        assert(s[0] == w[0]);
        assert(trim_start(s, k) == s);
        if trail.len() > 0 {
            assert(s.last() == trail.last());
            assert(in_class(k, trail[trail.len() - 1]));
            assert(s.drop_last() =~= lead + w + trail.drop_last());
            trim_leaves(lead, w, trail.drop_last(), k);
            let r = s.drop_last();
            assert(r[0] == w[0]);
            assert(trim_start(r, k) == r);
        } else {
            assert(s =~= w);
        }
    }
}

/// A text that neither begins nor ends in a class is left as it is.
pub proof fn trim_keeps(w: Seq<char>, k: Class)
    requires
        w.len() > 0 ==> !in_class(k, w[0]) && !in_class(k, w.last()),
    ensures
        trim(w, k) == w,
{
}

/// What stands before and after the first separator.
pub proof fn once_parts(f: Seq<char>, v: Seq<char>, c: char)
    requires
        !f.contains(c),
    ensures
        split_once(f + seq![c] + v, c) == Some((f, v)),
{
    let s = f + seq![c] + v;
    let k = Class::Only(c);
    assert forall|j: int| 0 <= j < f.len() implies !in_class(k, #[trigger] s[j]) by {
        assert(s[j] == f[j]);
        assert(f.contains(f[j]));
    }
    assert(s[f.len() as int] == c);
    span_is(s, k, f.len() as int);
    assert(s.take(f.len() as int) =~= f);
    assert(s.skip(f.len() as int + 1) =~= v);
}

/// A text without the separator has no parts; one that has parts is made of them.
pub proof fn once_whole(s: Seq<char>, c: char)
    ensures
        split_once(s, c) is None <==> !s.contains(c),
        split_once(s, c) matches Some((f, v)) ==> s == f + seq![c] + v && !f.contains(c),
{
    let k = Class::Only(c);
    span_stops(s, k);
    let n = span(s, k);
    if n < s.len() {
        assert(s.contains(s[n]));
        let (f, v) = split_once(s, c)->0;
        assert(s =~= f + seq![c] + v);
        if f.contains(c) {
            let j = choose|j: int| 0 <= j < f.len() && f[j] == c;
            assert(in_class(k, s[j]));
        }
    } else if s.contains(c) {
        let j = choose|j: int| 0 <= j < s.len() && s[j] == c;
        assert(in_class(k, s[j]));
    }
}

/// Splitting at a character of the class gives the pieces before it and those
/// behind it.
pub proof fn split_parts(a: Seq<char>, c: char, b: Seq<char>, k: Class)
    requires
        in_class(k, c),
    ensures
        split(a + seq![c] + b, k) == split(a, k) + split(b, k),
    decreases a.len(),
{
    let s = a + seq![c] + b;
    span_stops(a, k);
    let n = span(a, k);
    assert forall|j: int| 0 <= j < n implies !in_class(k, #[trigger] s[j]) by {
        assert(s[j] == a[j]);
    }
    if n == a.len() {
        assert(s[n] == c);
        span_is(s, k, n);
        assert(s.take(n) =~= a);
        assert(s.skip(n + 1) =~= b);
        assert(split(a, k) =~= seq![a]);
    } else {
        assert(s[n] == a[n]);
        span_is(s, k, n);
        let rest = a.skip(n + 1);
        assert(s.take(n) =~= a.take(n));
        assert(s.skip(n + 1) =~= rest + seq![c] + b);
        split_parts(rest, c, b, k);
        assert(split(s, k) =~= split(a, k) + split(b, k));
    }
}

proof fn nonempty_parts(a: Seq<Seq<char>>, b: Seq<Seq<char>>)
    ensures
        nonempty(a + b) == nonempty(a) + nonempty(b),
    decreases b.len(),
{
    if b.len() == 0 {
        assert(a + b =~= a);
        assert(nonempty(a) + nonempty(b) =~= nonempty(a));
    } else {
        nonempty_parts(a, b.drop_last());
        assert((a + b).drop_last() =~= a + b.drop_last());
        assert((a + b).last() == b.last());
        assert(nonempty(a + b) =~= nonempty(a) + nonempty(b));
    }
}

/// White space of any kind sets words apart, wherever it stands.
pub proof fn words_are_set_apart(a: Seq<char>, c: char, b: Seq<char>)
    requires
        is_space(c),
    ensures
        words(a + seq![c] + b) == words(a) + words(b),
{
    split_parts(a, c, b, Class::Space);
    nonempty_parts(split(a, Class::Space), split(b, Class::Space));
}

/// A text without white space is one word, or none where it is empty.
pub proof fn one_word(w: Seq<char>)
    requires
        forall|i: int| 0 <= i < w.len() ==> !is_space(#[trigger] w[i]),
    ensures
        words(w) == if w.len() == 0 {
            Seq::<Seq<char>>::empty()
        } else {
            seq![w]
        },
{
    let k = Class::Space;
    assert forall|j: int| 0 <= j < w.len() implies !in_class(k, #[trigger] w[j]) by {}
    span_is(w, k, w.len() as int);
    let ps = split(w, k);
    assert(ps =~= seq![w]);
    assert(ps.drop_last() =~= Seq::<Seq<char>>::empty());
    reveal_with_fuel(nonempty, 2);
    assert(nonempty(ps) =~= if w.len() == 0 {
        Seq::<Seq<char>>::empty()
    } else {
        seq![w]
    });
}

/// A word between white space, or at an end of the text, is a word of the text.
pub proof fn word_is_listed(a: Seq<char>, w: Seq<char>, b: Seq<char>)
    requires
        w.len() > 0,
        forall|i: int| 0 <= i < w.len() ==> !is_space(#[trigger] w[i]),
        a.len() > 0 ==> is_space(a.last()),
        b.len() > 0 ==> is_space(b[0]),
    ensures
        words(a + w + b) == words(a) + seq![w] + words(b),
        words(a + w + b).contains(w),
{
    one_word(w);
    let e = Seq::<char>::empty();
    one_word(e);
    let tail = w + b;
    if b.len() > 0 {
        assert(w + seq![b[0]] + b.drop_first() =~= tail);
        words_are_set_apart(w, b[0], b.drop_first());
        assert(e + seq![b[0]] + b.drop_first() =~= b);
        words_are_set_apart(e, b[0], b.drop_first());
        assert(words(e) + words(b.drop_first()) =~= words(b.drop_first()));
    } else {
        assert(tail =~= w);
        assert(b =~= e);
    }
    assert(words(tail) =~= seq![w] + words(b));
    if a.len() > 0 {
        assert(a.drop_last() + seq![a.last()] + tail =~= a + w + b);
        words_are_set_apart(a.drop_last(), a.last(), tail);
        assert(a.drop_last() + seq![a.last()] + e =~= a);
        words_are_set_apart(a.drop_last(), a.last(), e);
        assert(words(a.drop_last()) + words(e) =~= words(a.drop_last()));
    } else {
        assert(a + w + b =~= tail);
        assert(a =~= e);
    }
    assert(words(a + w + b) =~= words(a) + seq![w] + words(b));
    assert(words(a + w + b)[words(a).len() as int] == w);
}

/// What stands behind the last separator.
pub proof fn after_last_part(d: Seq<char>, n: Seq<char>, c: char)
    requires
        !n.contains(c),
    ensures
        after_last(d + seq![c] + n, c) == n,
        after_last(n, c) == n,
{
    let k = Class::Only(c);
    split_parts(d, c, n, k);
    assert forall|j: int| 0 <= j < n.len() implies !in_class(k, #[trigger] n[j]) by {
        assert(n.contains(n[j]));
    }
    span_is(n, k, n.len() as int);
    assert(split(n, k) =~= seq![n]);
}

/// A line feed ends a line, and one carriage return before it goes with it.
pub proof fn lines_are_set_apart(l: Seq<char>, rest: Seq<char>)
    requires
        !l.contains('\n'),
    ensures
        lines(l + seq!['\n'] + rest) == seq![
            if l.len() > 0 && l.last() == '\r' {
                l.drop_last()
            } else {
                l
            },
        ] + lines(rest),
        lines(l) == if l.len() == 0 {
            Seq::<Seq<char>>::empty()
        } else {
            seq![l]
        },
{
    let k = Class::Only('\n');
    let s = l + seq!['\n'] + rest;
    split_parts(l, '\n', rest, k);
    assert forall|j: int| 0 <= j < l.len() implies !in_class(k, #[trigger] l[j]) by {
        assert(l.contains(l[j]));
    }
    span_is(l, k, l.len() as int);
    assert(split(l, k) =~= seq![l]);
    split_nonempty(rest, k);
    let ps = split(rest, k);
    let all = split(s, k);
    assert(all.last() == ps.last());
    assert(all.drop_last() =~= seq![l] + ps.drop_last());
    assert(chomped(all.drop_last()) =~= seq![chomp(l)] + chomped(ps.drop_last()));
    assert(lines(s) =~= seq![chomp(l)] + lines(rest));
    assert(split(l, k).drop_last() =~= Seq::<Seq<char>>::empty());
    assert(chomped(split(l, k).drop_last()) =~= Seq::<Seq<char>>::empty());
    assert(lines(l) =~= if l.len() == 0 {
        Seq::<Seq<char>>::empty()
    } else {
        seq![l]
    });
}

/// The characters that are white space, quotes and joints, and no others.
pub proof fn classes_hold(c: char)
    ensures
        in_class(Class::Space, c) == ((9 <= c as int <= 13) || c == ' ' || c as int == 0x85 || c as int
            == 0xa0 || c as int == 0x1680 || (0x2000 <= c as int <= 0x200a) || c as int == 0x2028
            || c as int == 0x2029 || c as int == 0x202f || c as int == 0x205f || c as int == 0x3000),
        in_class(Class::Quote, c) == (c as int == 34 || c as int == 39),
        in_class(Class::SpaceOrQuote, c) == (in_class(Class::Space, c) || in_class(Class::Quote, c)),
        forall|d: char| in_class(Class::Only(d), c) == (c == d),
        is_ascii_alnum(c) == ((48 <= c as int <= 57) || (65 <= c as int <= 90) || (97 <= c as int
            <= 122)),
{
}

/// A text that cannot overlap itself is found behind any text that is free of it.
pub proof fn found_behind(front: Seq<char>, n: Seq<char>, rest: Seq<char>)
    requires
        n.len() > 0,
        !self::has(front, n),
        forall|j: int| 1 <= j < n.len() ==> #[trigger] n[j] != n[0],
    ensures
        find(front + n + rest, n) == Some(front.len() as int),
{
    let h = front + n + rest;
    let p = front.len() as int;
    find_from_first(h, n, 0);
    assert(h.subrange(p, p + n.len()) =~= n);
    assert(occurs_at(h, n, p));
    assert forall|k: int| 0 <= k < p implies !occurs_at(h, n, k) by {
        if occurs_at(h, n, k) {
            let part = h.subrange(k, k + n.len());
            if k + n.len() <= p {
                assert(front.subrange(k, k + n.len()) =~= part);
                assert(occurs_at(front, n, k));
            } else {
                assert(part[p - k] == h[p]);
                assert(h[p] == n[0]);
            }
        }
    }
}

/// A text that is not in another is not found there.
pub proof fn not_found(h: Seq<char>, n: Seq<char>)
    requires
        n.len() > 0,
        !h.contains(n[0]),
    ensures
        !self::has(h, n),
        find(h, n) is None,
{
    has_iff_found(h, n);
    assert forall|i: int| !occurs_at(h, n, i) by {
        if occurs_at(h, n, i) {
            assert(h.subrange(i, i + n.len())[0] == h[i]);
            assert(h.contains(h[i]));
        }
    }
}

/// Trimming takes away what is in the class at the front, and no more.
pub proof fn start_leaves(lead: Seq<char>, w: Seq<char>, k: Class)
    requires
        forall|i: int| 0 <= i < lead.len() ==> in_class(k, #[trigger] lead[i]),
        w.len() > 0 ==> !in_class(k, w[0]),
    ensures
        trim_start(lead + w, k) == w,
    decreases lead.len(),
{
    if lead.len() == 0 {
        assert(lead + w =~= w);
    } else {
        let l = lead.drop_first();
        assert forall|i: int| 0 <= i < l.len() implies in_class(k, #[trigger] l[i]) by {
            assert(l[i] == lead[i + 1]);
        }
        start_leaves(l, w, k);
        assert((lead + w).drop_first() =~= l + w);
        assert((lead + w)[0] == lead[0]);
    }
}

/// A text that lies in the class as a whole is trimmed away.
pub proof fn nothing_is_left(s: Seq<char>, k: Class)
    requires
        forall|i: int| 0 <= i < s.len() ==> in_class(k, #[trigger] s[i]),
    ensures
        trim(s, k).len() == 0,
{
    assert(s + Seq::<char>::empty() =~= s);
    start_leaves(s, Seq::empty(), k);
}

/// The first occurrence is replaced and the text behind it is read on; a text
/// without one stays as it is.
pub proof fn replacing_goes_on_behind_the_first(
    pre: Seq<char>,
    from: Seq<char>,
    rest: Seq<char>,
    to: Seq<char>,
)
    requires
        from.len() > 0,
        forall|i: int| 0 <= i < pre.len() ==> !occurs_at(pre + from + rest, from, i),
    ensures
        replace(pre + from + rest, from, to) == pre + to + replace(rest, from, to),
        forall|s: Seq<char>| !self::has(s, from) ==> #[trigger] replace(s, from, to) == s,
{
    let s = pre + from + rest;
    let n = pre.len() as int;
    first_is_found(pre, from, rest);
    assert(s.take(n) =~= pre);
    assert(s.skip(n + from.len()) =~= rest);
    assert forall|t: Seq<char>| !self::has(t, from) implies #[trigger] replace(t, from, to) == t by {
        has_iff_found(t, from);
    }
}

/// What stands nowhere before is found where it stands.
pub proof fn first_is_found(pre: Seq<char>, n: Seq<char>, rest: Seq<char>)
    requires
        forall|i: int| 0 <= i < pre.len() ==> !occurs_at(pre + n + rest, n, i),
    ensures
        find(pre + n + rest, n) == Some(pre.len() as int),
{
    let s = pre + n + rest;
    let k = pre.len() as int;
    find_from_first(s, n, 0);
    assert(s.subrange(k, k + n.len()) =~= n);
    assert(occurs_at(s, n, k));
}

/// A text repeated has that many copies of it one behind the other.
pub proof fn copies_follow_each_other(s: Seq<char>, n: nat, i: int, j: int)
    requires
        0 <= i < n,
        0 <= j < s.len(),
    ensures
        repeat(s, n).len() == n * s.len(),
        0 <= i * s.len() + j < n * s.len(),
        repeat(s, n)[i * s.len() + j] == s[j],
    decreases n,
{
    let m = (n - 1) as nat;
    repeat_length(s, m);
    repeat_length(s, n);
    let l = s.len() as int;
    assert(i * l + j < (i + 1) * l) by (nonlinear_arith)
        requires
            j < l,
    ;
    assert((i + 1) * l <= n * l) by (nonlinear_arith)
        requires
            i + 1 <= n,
            0 <= l,
    ;
    assert(0 <= i * l) by (nonlinear_arith)
        requires
            0 <= i,
            0 <= l,
    ;
    if i < m {
        copies_follow_each_other(s, m, i, j);
        assert(repeat(s, n)[i * l + j] == repeat(s, m)[i * l + j]);
    } else {
        assert(i * l == m * l) by (nonlinear_arith)
            requires
                i == m,
        ;
        assert(repeat(s, n)[i * l + j] == s[j]);
    }
}

proof fn repeat_length(s: Seq<char>, n: nat)
    ensures
        repeat(s, n).len() == n * s.len(),
    decreases n,
{
    if n > 0 {
        let m = (n - 1) as nat;
        repeat_length(s, m);
        assert((m + 1) * s.len() == m * s.len() + s.len()) by (nonlinear_arith);
    } else {
        assert(0 * s.len() == 0) by (nonlinear_arith);
    }
}

/// A number is read from its decimal spelling, with a plus sign in front or
/// without; a text with anything else in it is none, and neither is nothing.
pub proof fn numbers_are_read_back(n: u64, s: Seq<char>, i: int)
    ensures
        parse_u64(decimal(n as nat)) == Some(n),
        parse_u64(seq!['+'] + decimal(n as nat)) == Some(n),
        parse_u64(Seq::empty()) is None,
        1 <= i < s.len() && !('0' <= s[i] <= '9') ==> parse_u64(s) is None,
        s.len() > 0 && s[0] != '+' && !('0' <= s[0] <= '9') ==> parse_u64(s) is None,
{
    let d = decimal(n as nat);
    decimal_reads_back(n as nat);
    assert(d[0] != '+') by {
        assert(is_digit(d[0]));
    }
    assert((seq!['+'] + d).drop_first() =~= d);
    assert((seq!['+'] + d)[0] == '+');
    let u = unsigned_digits(s);
    if 1 <= i < s.len() && !('0' <= s[i] <= '9') {
        if u == s {
            assert(!is_digit(u[i]));
        } else {
            assert(u[i - 1] == s[i]);
            assert(!is_digit(u[i - 1]));
        }
    }
    if s.len() > 0 && s[0] != '+' && !('0' <= s[0] <= '9') {
        assert(!is_digit(u[0]));
    }
}

proof fn decimal_reads_back(n: nat)
    ensures
        decimal(n).len() > 0,
        all_digits(decimal(n)),
        digits_value(decimal(n)) == n,
    decreases n,
{
    reveal_with_fuel(digits_value, 2);
    let d = n % 10;
    assert(digit(d) as nat == d + 48) by {
        assert(d + 48 <= 57);
    }
    assert(is_digit(digit(d)));
    if n < 10 {
        let s = seq![digit(n)];
        assert(s.drop_last() =~= Seq::<char>::empty());
        assert(digits_value(s) == n);
    } else {
        decimal_reads_back(n / 10);
        let f = decimal(n / 10);
        assert(f.push(digit(d)).drop_last() =~= f);
    }
}

} // verus!
