//! Slash-separated paths as text. A path is read as its components: a root
//! `/` at the front of an absolute path, a `.` only at the front, `..`, and
//! names. Empty segments and later `.` segments are no components. Two paths
//! are the same path when their components agree.
use crate::text;
use crate::text::Class;
use crate::views;
use vstd::prelude::*;

verus! {

broadcast use {views::texts_push, views::pieces_push};

/// The root component.
pub open spec fn root() -> Seq<char> {
    seq!['/']
}

/// The component for the directory itself.
pub open spec fn cur() -> Seq<char> {
    seq!['.']
}

/// The component for the parent directory.
pub open spec fn up() -> Seq<char> {
    seq!['.', '.']
}

/// A component that names an entry.
pub open spec fn is_name(c: Seq<char>) -> bool {
    c != root() && c != cur() && c != up()
}

/// A path that starts at the root.
pub open spec fn is_abs(p: Seq<char>) -> bool {
    p.len() > 0 && p[0] == '/'
}

/// The segments of a path between its slashes.
pub open spec fn segments(p: Seq<char>) -> Seq<Seq<char>> {
    text::split(p, Class::Only('/'))
}

/// Whether the segment at index `i` is a component.
pub open spec fn counts(seg: Seq<char>, i: int) -> bool {
    seg.len() > 0 && (seg == cur() ==> i == 0)
}

/// The indices of the segments that are components.
pub open spec fn marks(segs: Seq<Seq<char>>) -> Seq<int>
    decreases segs.len(),
{
    if segs.len() == 0 {
        Seq::empty()
    } else if counts(segs.last(), segs.len() - 1) {
        marks(segs.drop_last()).push(segs.len() - 1)
    } else {
        marks(segs.drop_last())
    }
}

/// The segments that are components.
pub open spec fn marked(segs: Seq<Seq<char>>) -> Seq<Seq<char>>
    decreases segs.len(),
{
    if segs.len() == 0 {
        Seq::empty()
    } else if counts(segs.last(), segs.len() - 1) {
        marked(segs.drop_last()).push(segs.last())
    } else {
        marked(segs.drop_last())
    }
}

/// The root, for an absolute path.
pub open spec fn roots(p: Seq<char>) -> Seq<Seq<char>> {
    if is_abs(p) {
        seq![root()]
    } else {
        Seq::empty()
    }
}

/// The components of a path.
pub open spec fn comps(p: Seq<char>) -> Seq<Seq<char>> {
    roots(p) + marked(segments(p))
}

/// Two spellings of one path.
pub open spec fn same_path(a: Seq<char>, b: Seq<char>) -> bool {
    comps(a) == comps(b)
}

/// `p` lies at or below `base`, component by component.
pub open spec fn under(p: Seq<char>, base: Seq<char>) -> bool {
    comps(base).is_prefix_of(comps(p))
}

/// `rel` as seen from `base`: `rel` itself where it is absolute.
pub open spec fn joined(base: Seq<char>, rel: Seq<char>) -> Seq<char> {
    if is_abs(rel) {
        rel
    } else if base.len() == 0 || base.last() == '/' {
        base + rel
    } else {
        base + seq!['/'] + rel
    }
}

/// The path made of components, each joined to what stands before it.
pub open spec fn render(cs: Seq<Seq<char>>) -> Seq<char>
    decreases cs.len(),
{
    if cs.len() == 0 {
        Seq::empty()
    } else {
        joined(render(cs.drop_last()), cs.last())
    }
}

/// The name at the end of a path, where it ends in one.
pub open spec fn file_name(p: Seq<char>) -> Option<Seq<char>> {
    let cs = comps(p);
    if cs.len() > 0 && is_name(cs.last()) {
        Some(cs.last())
    } else {
        None
    }
}

/// What stands behind the last dot of a name; a dot at its front does not count.
pub open spec fn name_extension(name: Seq<char>) -> Option<Seq<char>> {
    let ps = text::split(name, Class::Only('.'));
    if ps.len() < 2 || (ps.len() == 2 && ps[0].len() == 0) {
        None
    } else {
        Some(ps.last())
    }
}

/// The extension of the name at the end of a path.
pub open spec fn extension(p: Seq<char>) -> Option<Seq<char>> {
    match file_name(p) {
        Some(n) => name_extension(n),
        None => None,
    }
}

/// The path without its last component, as it is spelled; none for the empty
/// path and for the root.
pub open spec fn parent(p: Seq<char>) -> Option<Seq<char>> {
    let segs = segments(p);
    let ms = marks(segs);
    if ms.len() == 0 {
        None
    } else if ms.len() >= 2 {
        Some(text::join(segs.take(ms[ms.len() - 2] + 1), root()))
    } else if is_abs(p) {
        Some(root())
    } else {
        Some(Seq::empty())
    }
}

/// What is left of `p` below `base`, as it is spelled; none where `p` is not below it.
pub open spec fn below(p: Seq<char>, base: Seq<char>) -> Option<Seq<char>> {
    let segs = segments(p);
    let ms = marks(segs);
    let k = comps(base).len();
    if !under(p, base) {
        None
    } else if k == comps(p).len() {
        Some(Seq::empty())
    } else if ms.len() == 0 {
        Some(root())
    } else if k == 0 {
        Some(text::join(segs.take(ms.last() + 1), root()))
    } else {
        Some(text::join(segs.subrange(ms[k - roots(p).len()], ms.last() + 1), root()))
    }
}

// ---------------------------------------------------------------------------
// Facts about components
// ---------------------------------------------------------------------------

/// Each mark points at a component, and the marks are as many as the components.
pub proof fn marks_point(segs: Seq<Seq<char>>)
    ensures
        marks(segs).len() == marked(segs).len(),
        forall|j: int|
            0 <= j < marks(segs).len() ==> 0 <= #[trigger] marks(segs)[j] < segs.len()
                && segs[marks(segs)[j]] == marked(segs)[j] && counts(
                segs[marks(segs)[j]],
                marks(segs)[j],
            ),
        forall|i: int, j: int|
            0 <= i < j < marks(segs).len() ==> #[trigger] marks(segs)[i] < #[trigger] marks(segs)[j],
    decreases segs.len(),
{
    if segs.len() > 0 {
        let front = segs.drop_last();
        marks_point(front);
        assert forall|j: int| 0 <= j < marks(segs).len() implies 0 <= #[trigger] marks(segs)[j]
            < segs.len() && segs[marks(segs)[j]] == marked(segs)[j] && counts(
            segs[marks(segs)[j]],
            marks(segs)[j],
        ) by {
            if j < marks(front).len() {
                assert(marks(segs)[j] == marks(front)[j]);
                assert(front[marks(front)[j]] == segs[marks(front)[j]]);
            }
        }
        assert forall|i: int, j: int|
            0 <= i < j < marks(segs).len() implies #[trigger] marks(segs)[i]
            < #[trigger] marks(segs)[j] by {
            assert(marks(segs)[i] == marks(front)[i]);
            if j < marks(front).len() {
                assert(marks(segs)[j] == marks(front)[j]);
            }
        }
    }
}

/// No segment holds a slash.
pub proof fn pieces_free(s: Seq<char>, c: char)
    ensures
        forall|i: int|
            0 <= i < text::split(s, Class::Only(c)).len() ==> !(#[trigger] text::split(
                s,
                Class::Only(c),
            )[i]).contains(c),
    decreases s.len(),
{
    let k = Class::Only(c);
    text::span_stops(s, k);
    let n = text::span(s, k);
    if n < s.len() {
        let rest = s.skip(n + 1);
        pieces_free(rest, c);
        assert forall|i: int| 0 <= i < text::split(s, k).len() implies !(#[trigger] text::split(
            s,
            k,
        )[i]).contains(c) by {
            if i == 0 {
                assert(text::split(s, k)[0] == s.take(n));
            } else {
                assert(text::split(s, k)[i] == text::split(rest, k)[i - 1]);
            }
        }
    } else {
        assert(text::split(s, k)[0] == s);
    }
}

/// A text without the separator is its only piece.
pub proof fn split_whole(s: Seq<char>, c: char)
    requires
        !s.contains(c),
    ensures
        text::split(s, Class::Only(c)) == seq![s],
{
    text::span_is(s, Class::Only(c), s.len() as int);
}

/// A piece more at the end.
pub proof fn split_snoc(a: Seq<char>, b: Seq<char>, c: char)
    requires
        !b.contains(c),
    ensures
        text::split(a + seq![c] + b, Class::Only(c)) == text::split(a, Class::Only(c)).push(b),
    decreases a.len(),
{
    let k = Class::Only(c);
    let s = a + seq![c] + b;
    text::span_stops(a, k);
    let n = text::span(a, k);
    assert forall|j: int| 0 <= j < n implies !text::in_class(k, #[trigger] s[j]) by {
        assert(s[j] == a[j]);
    }
    text::span_is(s, k, n);
    if n == a.len() {
        assert(s.take(n) =~= a);
        assert(s.skip(n + 1) =~= b);
        split_whole(b, c);
        assert(text::split(s, k) =~= seq![a].push(b));
    } else {
        let rest = a.skip(n + 1);
        assert(s.take(n) =~= a.take(n));
        assert(s.skip(n + 1) =~= rest + seq![c] + b);
        split_snoc(rest, b, c);
        assert(text::split(s, k) =~= text::split(a, k).push(b));
    }
}

/// Splitting what was joined gives the pieces back.
pub proof fn split_of_join(ps: Seq<Seq<char>>, c: char)
    requires
        ps.len() > 0,
        forall|i: int| 0 <= i < ps.len() ==> !(#[trigger] ps[i]).contains(c),
    ensures
        text::split(text::join(ps, seq![c]), Class::Only(c)) == ps,
    decreases ps.len(),
{
    if ps.len() == 1 {
        split_whole(ps[0], c);
        assert(seq![ps[0]] =~= ps);
    } else {
        let front = ps.drop_last();
        assert forall|i: int| 0 <= i < front.len() implies !(#[trigger] front[i]).contains(c) by {
            assert(front[i] == ps[i]);
        }
        split_of_join(front, c);
        split_snoc(text::join(front, seq![c]), ps.last(), c);
        assert(front.push(ps.last()) =~= ps);
    }
}

/// Joining the pieces of a text gives the text back.
pub proof fn join_of_split(s: Seq<char>, c: char)
    ensures
        text::join(text::split(s, Class::Only(c)), seq![c]) == s,
    decreases s.len(),
{
    let k = Class::Only(c);
    text::span_stops(s, k);
    let n = text::span(s, k);
    if n < s.len() {
        let rest = s.skip(n + 1);
        join_of_split(rest, c);
        text::split_nonempty(rest, k);
        join_cons(s.take(n), text::split(rest, k), seq![c]);
        assert(s.take(n) + seq![c] + rest =~= s);
    }
}

/// A piece more at the front of what is joined.
pub proof fn join_cons(p: Seq<char>, ps: Seq<Seq<char>>, sep: Seq<char>)
    requires
        ps.len() > 0,
    ensures
        text::join(seq![p] + ps, sep) == p + sep + text::join(ps, sep),
    decreases ps.len(),
{
    let all = seq![p] + ps;
    assert(all.last() == ps.last());
    assert(text::join(all, sep) == text::join(all.drop_last(), sep) + sep + all.last());
    if ps.len() == 1 {
        assert(all.drop_last() =~= seq![p]);
        assert(text::join(seq![p], sep) == p);
    } else {
        assert(all.drop_last() =~= seq![p] + ps.drop_last());
        join_cons(p, ps.drop_last(), sep);
        assert(p + sep + text::join(ps.drop_last(), sep) + sep + ps.last() =~= p + sep + (
        text::join(ps.drop_last(), sep) + sep + ps.last()));
    }
}

/// A component list as paths have them: a root and a `.` only at the front,
/// everything else a nonempty text without slashes.
pub open spec fn well_placed(cs: Seq<Seq<char>>) -> bool {
    forall|i: int|
        0 <= i < cs.len() ==> (#[trigger] cs[i]).len() > 0 && (cs[i] == root() || !cs[i].contains(
            '/',
        )) && (cs[i] == root() ==> i == 0) && (cs[i] == cur() ==> i == 0)
}

/// The components of every path are well placed.
pub proof fn comps_well_placed(p: Seq<char>)
    ensures
        well_placed(comps(p)),
        comps(p).len() > 0 ==> (is_abs(p) <==> comps(p)[0] == root()),
        comps(p).len() == 0 ==> !is_abs(p),
{
    let segs = segments(p);
    marks_point(segs);
    pieces_free(p, '/');
    text::split_nonempty(p, Class::Only('/'));
    text::span_stops(p, Class::Only('/'));
    let cs = comps(p);
    let shift: int = roots(p).len() as int;
    if is_abs(p) {
        assert(text::span(p, Class::Only('/')) == 0);
        assert(segs[0].len() == 0);
    }
    assert forall|i: int| 0 <= i < cs.len() implies (#[trigger] cs[i]).len() > 0 && (cs[i] == root()
        || !cs[i].contains('/')) && (cs[i] == root() ==> i == 0) && (cs[i] == cur() ==> i == 0) by {
        if i >= shift {
            let m = marks(segs)[i - shift];
            assert(cs[i] == marked(segs)[i - shift]);
            assert(segs[m] == cs[i]);
            if cs[i] == root() {
                assert(cs[i][0] == '/');
                assert(cs[i].contains('/'));
            }
            if cs[i] == cur() {
                assert(m == 0);
                if i - shift > 0 {
                    assert(marks(segs)[0] < marks(segs)[i - shift]);
                }
            }
        }
    }
    if cs.len() > 0 && !is_abs(p) && cs[0] == root() {
        assert(cs[0] == marked(segs)[0]);
        assert(segs[marks(segs)[0]] == root());
        assert(root()[0] == '/');
        assert(root().contains('/'));
    }
}

/// A component list rendered as a path reads back as itself.
pub proof fn comps_of_render(cs: Seq<Seq<char>>)
    requires
        well_placed(cs),
    ensures
        comps(render(cs)) == cs,
        cs.len() == 0 ==> render(cs).len() == 0,
        cs.len() > 0 ==> render(cs).len() > 0,
        cs.len() > 0 ==> (is_abs(render(cs)) <==> cs[0] == root()),
        cs.len() > 0 ==> (render(cs).last() == '/' <==> cs.len() == 1 && cs[0] == root()),
        cs.len() == 1 && cs[0] == root() ==> render(cs) == root(),
        cs.len() > 0 ==> segments(render(cs)).len() > 0 && (cs[0] != root() ==> segments(
            render(cs),
        ).len() == cs.len()),
        cs.len() > 1 && cs[0] == root() ==> segments(render(cs)).len() == cs.len(),
    decreases cs.len(),
{
    if cs.len() == 0 {
        let e = Seq::<char>::empty();
        split_whole(e, '/');
        assert(segments(e) =~= seq![e]);
        reveal_with_fuel(marked, 2);
        assert(marked(seq![e]) =~= Seq::<Seq<char>>::empty());
        assert(comps(e) =~= cs);
    } else {
        let front = cs.drop_last();
        let c = cs.last();
        let r = render(front);
        assert forall|i: int| 0 <= i < front.len() implies (#[trigger] front[i]).len() > 0 && (
        front[i] == root() || !front[i].contains('/')) && (front[i] == root() ==> i == 0) && (
        front[i] == cur() ==> i == 0) by {
            assert(front[i] == cs[i]);
        }
        comps_of_render(front);
        assert(cs[cs.len() - 1] == c);
        if front.len() == 0 {
            if c == root() {
                assert(is_abs(c));
                assert(render(cs) =~= root());
                let e = Seq::<char>::empty();
                split_snoc(e, e, '/');
                split_whole(e, '/');
                assert(e + seq!['/'] + e =~= root());
                assert(segments(root()) =~= seq![e, e]);
                reveal_with_fuel(marked, 3);
                assert(seq![e, e].drop_last() =~= seq![e]);
                assert(seq![e].drop_last() =~= Seq::<Seq<char>>::empty());
                assert(marked(seq![e, e]) =~= Seq::<Seq<char>>::empty());
                assert(comps(root()) =~= cs);
            } else {
                if is_abs(c) {
                    assert(c[0] == '/');
                    assert(c.contains('/'));
                }
                assert(render(cs) =~= c);
                split_whole(c, '/');
                reveal_with_fuel(marked, 2);
                assert(seq![c].drop_last() =~= Seq::<Seq<char>>::empty());
                assert(seq![c].last() == c);
                assert(marked(seq![c]) =~= seq![c]);
                assert(comps(c) =~= cs);
                if c.last() == '/' {
                    assert(c.contains('/'));
                }
            }
        } else {
            assert(c != root());
            assert(!c.contains('/'));
            if is_abs(c) {
                assert(c.contains(c[0]));
            }
            if c.last() == '/' {
                assert(c.contains(c.last()));
            }
            assert(front[0] == cs[0]);
            if r.last() == '/' {
                // r is the root alone
                assert(render(cs) =~= seq!['/'] + c);
                let e = Seq::<char>::empty();
                split_snoc(e, c, '/');
                split_whole(e, '/');
                assert(e + seq!['/'] + c =~= render(cs));
                assert(segments(render(cs)) =~= seq![e, c]);
                reveal_with_fuel(marked, 3);
                assert(seq![e, c].drop_last() =~= seq![e]);
                assert(seq![e].drop_last() =~= Seq::<Seq<char>>::empty());
                assert(seq![e, c].last() == c);
                assert(marked(seq![e, c]) =~= seq![c]);
                assert(comps(render(cs)) =~= cs);
            } else {
                assert(render(cs) == r + seq!['/'] + c);
                split_snoc(r, c, '/');
                let segs = segments(r);
                assert(segs.push(c).drop_last() =~= segs);
                assert(segs.push(c).last() == c);
                assert(marked(segs.push(c)) == marked(segs).push(c));
                assert(render(cs)[0] == r[0]);
                assert(comps(render(cs)) =~= comps(r).push(c));
                assert(front.push(c) =~= cs);
            }
        }
    }
}

/// The parent of a path has all its components but the last.
pub proof fn parent_drops_last(p: Seq<char>)
    ensures
        match parent(p) {
            Some(d) => comps(p).len() > 0 && comps(d) == comps(p).drop_last(),
            None => comps(p).len() == 0 || comps(p) == seq![root()],
        },
{
    let segs = segments(p);
    let ms = marks(segs);
    marks_point(segs);
    text::split_nonempty(p, Class::Only('/'));
    text::span_stops(p, Class::Only('/'));
    pieces_free(p, '/');
    if ms.len() == 0 {
        assert(comps(p) =~= roots(p));
    } else if ms.len() >= 2 {
        let m = ms[ms.len() - 2];
        let d = text::join(segs.take(m + 1), root());
        let front = segs.take(m + 1);
        assert forall|i: int| 0 <= i < front.len() implies !(#[trigger] front[i]).contains('/') by {
            assert(front[i] == segs[i]);
        }
        assert(root() =~= seq!['/']);
        split_of_join(front, '/');
        marked_prefix(segs, m + 1);
        // the marks below m + 1 are all but the last
        marks_below(segs, m + 1, ms.len() - 1);
        assert(marked(front) =~= marked(segs).drop_last());
        join_head(front, root());
        if is_abs(p) {
            assert(segs[0].len() == 0);
            if m == 0 {
                assert(counts(segs[ms[ms.len() - 2]], m));
            }
            assert(front.len() >= 2);
            assert(front[0].len() == 0);
            assert(d[0] == '/');
        } else {
            if p.len() == 0 {
                split_whole(p, '/');
            }
            assert(segs[0].len() > 0);
            assert(front[0] == segs[0]);
            assert(d[0] == front[0][0]);
            if d[0] == '/' {
                assert(front[0].contains('/'));
            }
        }
        assert(comps(d) =~= comps(p).drop_last());
    } else {
        comps_well_placed(p);
        if is_abs(p) {
            let cs = seq![root()];
            assert(well_placed(cs)) by {
                assert(cs[0] == root());
            }
            comps_of_render(cs);
            assert(render(cs) =~= root());
            assert(comps(p).drop_last() =~= cs);
        } else {
            let cs = Seq::<Seq<char>>::empty();
            comps_of_render(cs);
            assert(comps(p).drop_last() =~= cs);
        }
    }
}

/// What is joined starts with its first piece, then with the separator.
pub proof fn join_head(ps: Seq<Seq<char>>, sep: Seq<char>)
    requires
        ps.len() > 0,
        sep.len() > 0,
    ensures
        ps[0].len() > 0 ==> text::join(ps, sep).len() > 0 && text::join(ps, sep)[0] == ps[0][0],
        ps[0].len() == 0 && ps.len() >= 2 ==> text::join(ps, sep).len() > 0 && text::join(
            ps,
            sep,
        )[0] == sep[0],
    decreases ps.len(),
{
    if ps.len() > 1 {
        join_head(ps.drop_last(), sep);
        if ps.len() == 2 {
            assert(ps.drop_last()[0] == ps[0]);
            assert(text::join(ps.drop_last(), sep) == ps[0]);
        }
    }
}

/// The components among the first `n` segments come first.
pub proof fn marked_prefix(segs: Seq<Seq<char>>, n: int)
    requires
        0 <= n <= segs.len(),
    ensures
        marked(segs.take(n)).is_prefix_of(marked(segs)),
        marks(segs.take(n)).is_prefix_of(marks(segs)),
    decreases segs.len() - n,
{
    if n == segs.len() {
        assert(segs.take(n) =~= segs);
    } else {
        marked_prefix(segs, n + 1);
        assert(segs.take(n + 1).drop_last() =~= segs.take(n));
        let a = marked(segs.take(n));
        let b = marked(segs.take(n + 1));
        let c = marked(segs);
        assert(a =~= c.subrange(0, a.len() as int));
        let x = marks(segs.take(n));
        let y = marks(segs.take(n + 1));
        let z = marks(segs);
        assert(x =~= z.subrange(0, x.len() as int));
    }
}

/// Where the first `k` marks lie below `n` and no other does, the first `n`
/// segments hold the first `k` components.
pub proof fn marks_below(segs: Seq<Seq<char>>, n: int, k: int)
    requires
        0 <= n <= segs.len(),
        0 <= k <= marks(segs).len(),
        forall|j: int| 0 <= j < k ==> #[trigger] marks(segs)[j] < n,
        k < marks(segs).len() ==> marks(segs)[k] >= n,
    ensures
        marked(segs.take(n)) == marked(segs).take(k),
    decreases segs.len() - n,
{
    marks_point(segs);
    marks_point(segs.take(n));
    marked_prefix(segs, n);
    let x = marks(segs.take(n));
    let z = marks(segs);
    assert(x =~= z.subrange(0, x.len() as int));
    if x.len() > k {
        assert(x[k] == z[k]);
    } else if x.len() < k {
        mark_among_first(segs, n, x.len() as int);
    }
    assert(marked(segs.take(n)) =~= marked(segs).take(k));
}

/// A mark below `n` is among the marks of the first `n` segments.
proof fn mark_among_first(segs: Seq<Seq<char>>, n: int, q: int)
    requires
        0 <= n <= segs.len(),
        0 <= q < marks(segs).len(),
        marks(segs)[q] < n,
    ensures
        q < marks(segs.take(n)).len(),
    decreases segs.len() - n,
{
    if n == segs.len() {
        assert(segs.take(n) =~= segs);
    } else {
        mark_among_first(segs, n + 1, q);
        assert(segs.take(n + 1).drop_last() =~= segs.take(n));
        marked_prefix(segs, n + 1);
        let y = marks(segs.take(n + 1));
        let z = marks(segs);
        assert(y =~= z.subrange(0, y.len() as int));
        assert(y[q] == z[q]);
    }
}

// ---------------------------------------------------------------------------
// Reading paths
// ---------------------------------------------------------------------------

/// Whether the path starts at the root.
pub fn absolute(p: &Vec<char>) -> (r: bool)
    ensures
        r == is_abs(p@),
{
    p.len() > 0 && p[0] == '/'
}

/// The root as a component.
pub fn root_text() -> (r: Vec<char>)
    ensures
        r@ == root(),
{
    let mut v: Vec<char> = Vec::new();
    v.push('/');
    assert(v@ =~= root());
    v
}

/// Whether a component is `..`.
pub fn is_up(c: &Vec<char>) -> (r: bool)
    ensures
        r == (c@ == up()),
{
    let r = c.len() == 2 && c[0] == '.' && c[1] == '.';
    assert(r ==> c@ =~= up());
    r
}

/// Whether a component is `.`.
pub fn is_cur(c: &Vec<char>) -> (r: bool)
    ensures
        r == (c@ == cur()),
{
    let r = c.len() == 1 && c[0] == '.';
    assert(r ==> c@ =~= cur());
    r
}

/// Whether a component names an entry.
pub fn names(c: &Vec<char>) -> (r: bool)
    ensures
        r == is_name(c@),
{
    let rt = c.len() == 1 && c[0] == '/';
    assert(rt ==> c@ =~= root());
    !rt && !is_cur(c) && !is_up(c)
}

/// The component `..`.
pub fn up_text() -> (r: Vec<char>)
    ensures
        r@ == up(),
{
    let mut v: Vec<char> = Vec::new();
    v.push('.');
    v.push('.');
    assert(v@ =~= up());
    v
}

/// The indices of the segments that are components.
fn marks_of(segs: &Vec<Vec<char>>) -> (r: Vec<usize>)
    ensures
        r@.map_values(|m: usize| m as int) == marks(views::pieces(segs@)),
{
    let ghost all = views::pieces(segs@);
    let mut out: Vec<usize> = Vec::new();
    assert(out@.map_values(|m: usize| m as int) =~= Seq::<int>::empty());
    for i in 0..segs.len()
        invariant
            all == views::pieces(segs@),
            out@.map_values(|m: usize| m as int) == marks(all.take(i as int)),
    {
        proof {
            assert(all.take(i + 1).drop_last() =~= all.take(i as int));
            assert(all.take(i + 1).last() == segs@[i as int]@);
        }
        if segs[i].len() > 0 && (!is_cur(&segs[i]) || i == 0) {
            let ghost before = out@;
            out.push(i);
            assert(out@.map_values(|m: usize| m as int) =~= before.map_values(
                |m: usize| m as int,
            ).push(i as int));
        }
    }
    assert(all.take(all.len() as int) =~= all);
    out
}

/// The components of a path.
pub fn components(p: &Vec<char>) -> (r: Vec<Vec<char>>)
    ensures
        views::pieces(r@) == comps(p@),
{
    let segs = text::split_by(p, Class::Only('/'));
    let ghost all = views::pieces(segs@);
    let mut out: Vec<Vec<char>> = Vec::new();
    if absolute(p) {
        out.push(root_text());
    }
    assert(views::pieces(out@) =~= roots(p@));
    assert(views::pieces(out@) =~= roots(p@) + marked(all.take(0)));
    for i in 0..segs.len()
        invariant
            all == views::pieces(segs@),
            views::pieces(out@) == roots(p@) + marked(all.take(i as int)),
    {
        proof {
            assert(all.take(i + 1).drop_last() =~= all.take(i as int));
            assert(all.take(i + 1).last() == segs@[i as int]@);
        }
        if segs[i].len() > 0 && (!is_cur(&segs[i]) || i == 0) {
            let ghost before = views::pieces(out@);
            let c = text::copy(&segs[i]);
            out.push(c);
            assert(before.push(segs@[i as int]@) =~= roots(p@) + marked(all.take(i as int)).push(
                segs@[i as int]@,
            ));
        }
    }
    assert(all.take(all.len() as int) =~= all);
    out
}

/// Whether two component lists agree.
pub fn same_pieces(a: &Vec<Vec<char>>, b: &Vec<Vec<char>>) -> (r: bool)
    ensures
        r == (views::pieces(a@) == views::pieces(b@)),
{
    let ghost x = views::pieces(a@);
    let ghost y = views::pieces(b@);
    if a.len() != b.len() {
        assert(x.len() != y.len());
        return false;
    }
    for i in 0..a.len()
        invariant
            x == views::pieces(a@),
            y == views::pieces(b@),
            x.len() == y.len(),
            forall|j: int| 0 <= j < i ==> x[j] == y[j],
    {
        if !text::same(&a[i], &b[i]) {
            assert(x[i as int] != y[i as int]);
            return false;
        }
    }
    assert(x =~= y);
    true
}

/// Whether `a` starts with the pieces of `b`.
fn starts_pieces(a: &Vec<Vec<char>>, b: &Vec<Vec<char>>) -> (r: bool)
    ensures
        r == views::pieces(b@).is_prefix_of(views::pieces(a@)),
{
    let ghost x = views::pieces(a@);
    let ghost y = views::pieces(b@);
    if b.len() > a.len() {
        return false;
    }
    for i in 0..b.len()
        invariant
            x == views::pieces(a@),
            y == views::pieces(b@),
            y.len() <= x.len(),
            forall|j: int| 0 <= j < i ==> x[j] == y[j],
    {
        if !text::same(&a[i], &b[i]) {
            assert(x[i as int] != y[i as int]);
            assert(y[i as int] != x.subrange(0, y.len() as int)[i as int]);
            return false;
        }
    }
    assert(y =~= x.subrange(0, y.len() as int));
    true
}

/// Whether two spellings name one path.
pub fn eq_path(a: &str, b: &str) -> (r: bool)
    ensures
        r == same_path(a@, b@),
{
    let x = text::chars_of(a);
    let y = text::chars_of(b);
    let cx = components(&x);
    let cy = components(&y);
    same_pieces(&cx, &cy)
}

/// Some path of the list is spelled or respelled as `p`.
pub open spec fn listed(ps: Seq<Seq<char>>, p: Seq<char>) -> bool {
    exists|i: int| 0 <= i < ps.len() && same_path(#[trigger] ps[i], p)
}

/// Whether a list of paths holds `p`.
pub fn in_list(v: &Vec<String>, p: &str) -> (r: bool)
    ensures
        r == listed(views::texts(v@), p@),
{
    let ghost all = views::texts(v@);
    for i in 0..v.len()
        invariant
            all == views::texts(v@),
            forall|j: int| 0 <= j < i ==> !same_path(#[trigger] all[j], p@),
    {
        if eq_path(v[i].as_str(), p) {
            assert(same_path(all[i as int], p@));
            return true;
        }
    }
    false
}

/// Whether `p` lies at or below `base`.
pub fn is_under(p: &Vec<char>, base: &Vec<char>) -> (r: bool)
    ensures
        r == under(p@, base@),
{
    let a = components(p);
    let b = components(base);
    starts_pieces(&a, &b)
}

/// Whether `p` lies at or below a literal path.
pub fn is_under_lit(p: &Vec<char>, base: &str) -> (r: bool)
    ensures
        r == under(p@, base@),
{
    let b = text::chars_of(base);
    is_under(p, &b)
}

/// `rel` as seen from `base`.
pub fn join(base: &Vec<char>, rel: &Vec<char>) -> (r: Vec<char>)
    ensures
        r@ == joined(base@, rel@),
{
    if absolute(rel) {
        return text::copy(rel);
    }
    let mut out = text::copy(base);
    if base.len() > 0 && base[base.len() - 1] != '/' {
        out.push('/');
        assert(out@ =~= base@ + seq!['/']);
    }
    text::append(&mut out, rel);
    out
}

/// `rel` as seen from `base`.
pub fn join_str(base: &str, rel: &str) -> (r: String)
    ensures
        r@ == joined(base@, rel@),
{
    let b = text::chars_of(base);
    let c = text::chars_of(rel);
    let r = join(&b, &c);
    text::string_of(&r)
}

/// The path made of components.
pub fn rendered(cs: &Vec<Vec<char>>) -> (r: Vec<char>)
    ensures
        r@ == render(views::pieces(cs@)),
{
    let ghost all = views::pieces(cs@);
    let mut out: Vec<char> = Vec::new();
    for i in 0..cs.len()
        invariant
            all == views::pieces(cs@),
            out@ == render(all.take(i as int)),
    {
        proof {
            assert(all.take(i + 1).drop_last() =~= all.take(i as int));
            assert(all.take(i + 1).last() == cs@[i as int]@);
        }
        out = join(&out, &cs[i]);
    }
    assert(all.take(all.len() as int) =~= all);
    out
}

/// The name at the end of a path, where it ends in one.
pub fn name_of(p: &Vec<char>) -> (r: Option<Vec<char>>)
    ensures
        views::opt_piece(r) == file_name(p@),
{
    let cs = components(p);
    let n: usize = cs.len();
    assert(comps(p@).len() == n);
    if n > 0 && names(&cs[n - 1]) {
        assert(comps(p@).last() == cs@[n - 1]@);
        Some(text::copy(&cs[n - 1]))
    } else {
        assert(n > 0 ==> comps(p@).last() == cs@[n - 1]@);
        None
    }
}

/// The extension of the name at the end of a path.
pub fn extension_of(p: &Vec<char>) -> (r: Option<Vec<char>>)
    ensures
        views::opt_piece(r) == extension(p@),
{
    match name_of(p) {
        Some(name) => {
            let ps = text::split_by(&name, Class::Only('.'));
            let ghost all = views::pieces(ps@);
            let n: usize = ps.len();
            assert(all.len() == n);
            if n < 2 || (n == 2 && ps[0].len() == 0) {
                assert(n == 2 ==> all[0] == ps@[0]@);
                None
            } else {
                assert(all[0] == ps@[0]@);
                assert(all.last() == ps@[n - 1]@);
                Some(text::copy(&ps[n - 1]))
            }
        },
        None => None,
    }
}

/// Whether the extension of a path is the given literal.
pub fn has_extension(p: &Vec<char>, ext: &str) -> (r: bool)
    ensures
        r == (extension(p@) == Some(ext@)),
{
    match extension_of(p) {
        Some(e) => text::is_lit(&e, ext),
        None => false,
    }
}

/// The segments from `from` up to `to`, joined by slashes.
fn join_segments(segs: &Vec<Vec<char>>, from: usize, to: usize) -> (r: Vec<char>)
    requires
        from <= to <= segs.len(),
    ensures
        r@ == text::join(views::pieces(segs@).subrange(from as int, to as int), root()),
{
    let ghost all = views::pieces(segs@);
    let mut ps: Vec<Vec<char>> = Vec::new();
    assert(views::pieces(ps@) =~= all.subrange(from as int, from as int));
    for i in from..to
        invariant
            from <= to <= segs.len(),
            all == views::pieces(segs@),
            views::pieces(ps@) == all.subrange(from as int, i as int),
    {
        ps.push(text::copy(&segs[i]));
        assert(all.subrange(from as int, i as int).push(segs@[i as int]@) =~= all.subrange(
            from as int,
            i + 1,
        ));
    }
    proof {
        reveal_strlit("/");
        assert("/"@ =~= root());
    }
    text::joined(&ps, "/")
}

/// The path without its last component.
pub fn parent_of(p: &Vec<char>) -> (r: Option<Vec<char>>)
    ensures
        views::opt_piece(r) == parent(p@),
{
    let segs = text::split_by(p, Class::Only('/'));
    let ms = marks_of(&segs);
    let ghost gm = marks(segments(p@));
    proof {
        marks_point(segments(p@));
        assert(gm.len() == ms@.len());
        assert(forall|j: int| 0 <= j < ms@.len() ==> gm[j] == #[trigger] ms@[j]);
    }
    let n: usize = ms.len();
    if n == 0 {
        None
    } else if n >= 2 {
        assert(gm[n - 2] == ms@[n - 2]);
        assert(segs@.len() == segments(p@).len());
        let d = join_segments(&segs, 0, ms[n - 2] + 1);
        Some(d)
    } else if absolute(p) {
        Some(root_text())
    } else {
        let e: Vec<char> = Vec::new();
        Some(e)
    }
}

/// What is left of `p` below `base`.
pub fn strip_base(p: &Vec<char>, base: &Vec<char>) -> (r: Option<Vec<char>>)
    ensures
        views::opt_piece(r) == below(p@, base@),
{
    let cp = components(p);
    let cb = components(base);
    if !starts_pieces(&cp, &cb) {
        return None;
    }
    let k: usize = cb.len();
    assert(comps(base@).len() == k && comps(p@).len() == cp.len());
    if k == cp.len() {
        let e: Vec<char> = Vec::new();
        return Some(e);
    }
    let segs = text::split_by(p, Class::Only('/'));
    let ms = marks_of(&segs);
    let ghost gm = marks(segments(p@));
    proof {
        marks_point(segments(p@));
        assert(gm.len() == ms@.len());
        assert(forall|j: int| 0 <= j < ms@.len() ==> gm[j] == #[trigger] ms@[j]);
        assert(comps(p@).len() == roots(p@).len() + gm.len());
        assert(segs@.len() == segments(p@).len());
    }
    let n: usize = ms.len();
    if n == 0 {
        return Some(root_text());
    }
    let last: usize = ms[n - 1];
    let total: usize = segs.len();
    assert(gm.last() == last && gm[n - 1] == last);
    assert(last < total);
    if k == 0 {
        let r = join_segments(&segs, 0, last + 1);
        return Some(r);
    }
    let shift: usize = if absolute(p) {
        1
    } else {
        0
    };
    let j: usize = k - shift;
    let first: usize = ms[j];
    assert(gm[j as int] == first);
    assert(j < n - 1 ==> gm[j as int] < gm[n - 1]);
    let r = join_segments(&segs, first, last + 1);
    Some(r)
}

// ---------------------------------------------------------------------------
// Relating paths
// ---------------------------------------------------------------------------

/// `n` times `..`.
pub open spec fn ups(n: nat) -> Seq<Seq<char>> {
    Seq::new(n, |i: int| up())
}

/// The components that lead from the directory `b` to `a`, behind what was found so far.
/// There is none where `b` climbs at the point at which the two part.
pub open spec fn relative_comps(
    a: Seq<Seq<char>>,
    b: Seq<Seq<char>>,
    found: Seq<Seq<char>>,
) -> Option<Seq<Seq<char>>>
    decreases b.len(),
{
    if b.len() == 0 {
        Some(found + a)
    } else if a.len() == 0 {
        relative_comps(a, b.drop_first(), found.push(up()))
    } else if found.len() == 0 && a[0] == b[0] {
        relative_comps(a.drop_first(), b.drop_first(), found)
    } else if b[0] == cur() {
        relative_comps(a.drop_first(), b.drop_first(), found.push(a[0]))
    } else if b[0] == up() {
        None
    } else {
        Some(found + ups(b.len()) + a)
    }
}

/// `p` as seen from the directory `base`. An absolute path keeps its spelling
/// when `base` is relative; a relative one cannot be seen from an absolute `base`.
pub open spec fn relative(p: Seq<char>, base: Seq<char>) -> Option<Seq<char>> {
    if is_abs(p) != is_abs(base) {
        if is_abs(p) {
            Some(p)
        } else {
            None
        }
    } else {
        match relative_comps(comps(p), comps(base), Seq::empty()) {
            Some(cs) => Some(render(cs)),
            None => None,
        }
    }
}

/// From a directory whose target is used up, each of its components is climbed.
proof fn relative_of_none(b: Seq<Seq<char>>, found: Seq<Seq<char>>)
    ensures
        relative_comps(Seq::empty(), b, found) == Some(found + ups(b.len())),
    decreases b.len(),
{
    let e = Seq::<Seq<char>>::empty();
    if b.len() == 0 {
        assert(found + e =~= found + ups(0));
    } else {
        relative_of_none(b.drop_first(), found.push(up()));
        assert(found.push(up()) + ups(b.drop_first().len()) =~= found + ups(b.len()));
    }
}

/// `p` as seen from the directory `base`.
pub fn relative_from(p: &str, base: &str) -> (r: Option<String>)
    ensures
        views::opt_text(r) == relative(p@, base@),
{
    let x = text::chars_of(p);
    let y = text::chars_of(base);
    if absolute(&x) != absolute(&y) {
        if absolute(&x) {
            return Some(text::string_of(&x));
        }
        return None;
    }
    let a = components(&x);
    let b = components(&y);
    let ghost ga = views::pieces(a@);
    let ghost gb = views::pieces(b@);
    let mut out: Vec<Vec<char>> = Vec::new();
    let mut i: usize = 0;
    proof {
        assert(ga.skip(0) =~= ga && gb.skip(0) =~= gb);
        assert(views::pieces(out@) =~= Seq::<Seq<char>>::empty());
    }
    while i < a.len() && i < b.len()
        invariant
            ga == views::pieces(a@),
            gb == views::pieces(b@),
            ga == comps(p@),
            gb == comps(base@),
            is_abs(p@) == is_abs(base@),
            i <= a.len(),
            i <= b.len(),
            relative_comps(ga, gb, Seq::empty()) == relative_comps(
                ga.skip(i as int),
                gb.skip(i as int),
                views::pieces(out@),
            ),
        decreases a.len() - i,
    {
        proof {
            assert(ga.skip(i as int).drop_first() =~= ga.skip(i + 1));
            assert(gb.skip(i as int).drop_first() =~= gb.skip(i + 1));
            assert(ga.skip(i as int)[0] == a@[i as int]@);
            assert(gb.skip(i as int)[0] == b@[i as int]@);
            assert(views::pieces(out@).len() == out@.len());
        }
        if out.len() == 0 && text::same(&a[i], &b[i]) {
        } else if is_cur(&b[i]) {
            out.push(text::copy(&a[i]));
        } else if is_up(&b[i]) {
            return None;
        } else {
            let r = climb_then(&out, b.len() - i, &a, i);
            return Some(r);
        }
        i += 1;
    }
    proof {
        if i == b.len() {
            assert(gb.skip(i as int) =~= Seq::<Seq<char>>::empty());
            assert(views::pieces(out@) + ups(0) + ga.skip(i as int) =~= views::pieces(out@)
                + ga.skip(i as int));
        } else {
            assert(ga.skip(i as int) =~= Seq::<Seq<char>>::empty());
            relative_of_none(gb.skip(i as int), views::pieces(out@));
            assert(views::pieces(out@) + ups((b.len() - i) as nat) + ga.skip(i as int)
                =~= views::pieces(out@) + ups((b.len() - i) as nat));
        }
    }
    let r = climb_then(&out, b.len() - i, &a, i);
    Some(r)
}

/// The components found, `n` times `..`, and what follows in `a` from `from` on, as a path.
fn climb_then(found: &Vec<Vec<char>>, n: usize, a: &Vec<Vec<char>>, from: usize) -> (r: String)
    requires
        from <= a.len(),
    ensures
        r@ == render(
            views::pieces(found@) + ups(n as nat) + views::pieces(a@).skip(from as int),
        ),
{
    let ghost gf = views::pieces(found@);
    let ghost ga = views::pieces(a@);
    let mut out: Vec<Vec<char>> = Vec::new();
    assert(views::pieces(out@) =~= gf.take(0));
    for i in 0..found.len()
        invariant
            gf == views::pieces(found@),
            views::pieces(out@) == gf.take(i as int),
    {
        out.push(text::copy(&found[i]));
        assert(gf.take(i as int).push(found@[i as int]@) =~= gf.take(i + 1));
    }
    assert(views::pieces(out@) =~= gf + ups(0));
    for i in 0..n
        invariant
            gf == views::pieces(found@),
            views::pieces(out@) == gf + ups(i as nat),
    {
        out.push(up_text());
        assert((gf + ups(i as nat)).push(up()) =~= gf + ups((i + 1) as nat));
    }
    assert(views::pieces(out@) =~= gf + ups(n as nat) + ga.subrange(from as int, from as int));
    for i in from..a.len()
        invariant
            gf == views::pieces(found@),
            ga == views::pieces(a@),
            from <= a.len(),
            views::pieces(out@) == gf + ups(n as nat) + ga.subrange(from as int, i as int),
    {
        out.push(text::copy(&a[i]));
        assert((gf + ups(n as nat) + ga.subrange(from as int, i as int)).push(a@[i as int]@) =~= gf
            + ups(n as nat) + ga.subrange(from as int, i + 1));
    }
    assert(ga.subrange(from as int, a@.len() as int) =~= ga.skip(from as int));
    let t = rendered(&out);
    text::string_of(&t)
}

/// One component applied to a position: `..` takes back the name before it,
/// `.` changes nothing, everything else is added.
pub open spec fn lexical_step(at: Seq<Seq<char>>, c: Seq<char>) -> Seq<Seq<char>> {
    if c == up() && at.len() > 0 && is_name(at.last()) {
        at.drop_last()
    } else if c == cur() {
        at
    } else {
        at.push(c)
    }
}

/// Components applied one after the other.
pub open spec fn lexical(at: Seq<Seq<char>>, cs: Seq<Seq<char>>) -> Seq<Seq<char>>
    decreases cs.len(),
{
    if cs.len() == 0 {
        at
    } else {
        lexical_step(lexical(at, cs.drop_last()), cs.last())
    }
}

/// `rel` walked from `base` by its spelling alone.
pub open spec fn walked(base: Seq<char>, rel: Seq<char>) -> Seq<char> {
    render(lexical(comps(base), comps(rel)))
}

/// Components applied one after the other.
fn applied(at: Vec<Vec<char>>, cs: &Vec<Vec<char>>) -> (r: Vec<Vec<char>>)
    ensures
        views::pieces(r@) == lexical(views::pieces(at@), views::pieces(cs@)),
{
    let ghost start = views::pieces(at@);
    let mut stack = at;
    let ghost gc = views::pieces(cs@);
    assert(gc.take(0) =~= Seq::<Seq<char>>::empty());
    for i in 0..cs.len()
        invariant
            gc == views::pieces(cs@),
            views::pieces(stack@) == lexical(start, gc.take(i as int)),
    {
        let ghost before = views::pieces(stack@);
        proof {
            assert(gc.take(i + 1).drop_last() =~= gc.take(i as int));
            assert(gc.take(i + 1).last() == cs@[i as int]@);
            assert(before.len() == stack@.len());
        }
        let n: usize = stack.len();
        if n > 0 {
            assert(before.last() == stack@[n - 1]@);
        }
        if is_up(&cs[i]) && n > 0 && names(&stack[n - 1]) {
            let ghost old_stack = stack@;
            stack.pop();
            assert(stack@ =~= old_stack.drop_last());
            assert(views::pieces(stack@) =~= before.drop_last());
        } else if is_cur(&cs[i]) {
        } else {
            stack.push(text::copy(&cs[i]));
        }
    }
    assert(gc.take(gc.len() as int) =~= gc);
    stack
}

/// `rel` walked from `base` by its spelling alone: a `..` takes back a name,
/// and climbs that find none are kept.
pub fn lexical_join(base: &str, rel: &str) -> (r: String)
    ensures
        r@ == walked(base@, rel@),
{
    let x = text::chars_of(base);
    let y = text::chars_of(rel);
    let cs = components(&y);
    let stack = applied(components(&x), &cs);
    let t = rendered(&stack);
    text::string_of(&t)
}

/// The components of a path once each `..` has taken back the name before it.
pub open spec fn settled(p: Seq<char>) -> Seq<Seq<char>> {
    lexical(Seq::empty(), comps(p))
}

/// The components of a path once each `..` has taken back the name before it.
pub fn settled_components(p: &Vec<char>) -> (r: Vec<Vec<char>>)
    ensures
        views::pieces(r@) == settled(p@),
{
    let at: Vec<Vec<char>> = Vec::new();
    assert(views::pieces(at@) =~= Seq::<Seq<char>>::empty());
    let cs = components(p);
    applied(at, &cs)
}

/// A relative path leads out of the directory in which it is read.
pub open spec fn escapes(p: Seq<char>) -> bool {
    settled(p).len() > 0 && settled(p)[0] == up()
}

/// Whether a relative path leads out of the directory in which it is read, be
/// it at once or behind names that it takes back.
pub fn leads_out(p: &Vec<char>) -> (r: bool)
    ensures
        r == escapes(p@),
{
    let stack = settled_components(p);
    assert(views::pieces(stack@).len() == stack@.len());
    if stack.len() > 0 {
        assert(views::pieces(stack@)[0] == stack@[0]@);
        is_up(&stack[0])
    } else {
        false
    }
}

/// An argument as it reads behind a `cd`: walked from the directory entered.
pub open spec fn rebased(cd_dir: Seq<char>, arg: Seq<char>) -> Seq<char> {
    if cd_dir.len() == 0 {
        arg
    } else {
        walked(cd_dir, arg)
    }
}

/// An argument as it reads behind a `cd`.
pub fn rebase_post_cd(cd_dir: &str, arg: &str) -> (r: String)
    ensures
        r@ == rebased(cd_dir@, arg@),
{
    let d = text::chars_of(cd_dir);
    if d.len() == 0 {
        let a = text::chars_of(arg);
        text::string_of(&a)
    } else {
        lexical_join(cd_dir, arg)
    }
}

/// How many `..` a component list starts with.
pub open spec fn leading_ups(cs: Seq<Seq<char>>) -> nat
    decreases cs.len(),
{
    if cs.len() == 0 || cs[0] != up() {
        0
    } else {
        1 + leading_ups(cs.drop_first())
    }
}

/// How many `..` the components start with.
pub fn count_ups(cs: &Vec<Vec<char>>) -> (r: usize)
    ensures
        r == leading_ups(views::pieces(cs@)),
{
    let ghost gc = views::pieces(cs@);
    let mut i: usize = 0;
    assert(gc.skip(0) =~= gc);
    while i < cs.len() && is_up(&cs[i])
        invariant
            gc == views::pieces(cs@),
            i <= cs.len(),
            leading_ups(gc) == i + leading_ups(gc.skip(i as int)),
        decreases cs.len() - i,
    {
        assert(gc.skip(i as int).drop_first() =~= gc.skip(i + 1));
        assert(gc.skip(i as int)[0] == cs@[i as int]@);
        i += 1;
    }
    if i < cs.len() {
        assert(gc.skip(i as int)[0] == cs@[i as int]@);
    }
    i
}

/// How many `..` the path starts with.
pub fn leading_parent_components(p: &str) -> (r: usize)
    ensures
        r == leading_ups(comps(p@)),
{
    let x = text::chars_of(p);
    let cs = components(&x);
    count_ups(&cs)
}

/// The first name among components.
pub open spec fn first_name(cs: Seq<Seq<char>>) -> Option<Seq<char>>
    decreases cs.len(),
{
    if cs.len() == 0 {
        None
    } else if is_name(cs[0]) {
        Some(cs[0])
    } else {
        first_name(cs.drop_first())
    }
}

/// Two paths lie in one top-level tree: each has a name, and the first ones agree.
pub open spec fn one_tree(base: Seq<char>, target: Seq<char>) -> bool {
    first_name(comps(base)) is Some && first_name(comps(base)) == first_name(comps(target))
}

fn first_name_of(p: &str) -> (r: Option<Vec<char>>)
    ensures
        views::opt_piece(r) == first_name(comps(p@)),
{
    let x = text::chars_of(p);
    let cs = components(&x);
    let ghost gc = views::pieces(cs@);
    assert(gc.skip(0) =~= gc);
    for i in 0..cs.len()
        invariant
            gc == views::pieces(cs@),
            gc == comps(p@),
            first_name(gc) == first_name(gc.skip(i as int)),
    {
        assert(gc.skip(i as int).drop_first() =~= gc.skip(i + 1));
        assert(gc.skip(i as int)[0] == cs@[i as int]@);
        if names(&cs[i]) {
            return Some(text::copy(&cs[i]));
        }
    }
    None
}

/// Whether `target` lies in the same top-level tree as `base`; sharing the
/// root alone is not enough.
pub fn same_project_tree(base: &str, target: &str) -> (r: bool)
    ensures
        r == one_tree(base@, target@),
{
    match (first_name_of(base), first_name_of(target)) {
        (Some(a), Some(b)) => text::same(&a, &b),
        _ => false,
    }
}

/// The parent of a path as a directory that can be opened.
pub open spec fn opened_parent(p: Seq<char>) -> Seq<char> {
    match parent(p) {
        Some(d) => if d.len() > 0 {
            d
        } else {
            cur()
        },
        None => cur(),
    }
}

/// The parent of a path, or `.` where that would be empty or is missing.
pub fn parent_dir_or_here(p: &str) -> (r: String)
    ensures
        r@ == opened_parent(p@),
        r@.len() > 0,
{
    let x = text::chars_of(p);
    let mut here: Vec<char> = Vec::new();
    here.push('.');
    assert(here@ =~= cur());
    match parent_of(&x) {
        Some(d) => if d.len() > 0 {
            text::string_of(&d)
        } else {
            text::string_of(&here)
        },
        None => text::string_of(&here),
    }
}

/// An absolute path that does not resolve under the build directory.
#[derive(Debug)]
pub struct Misplaced {
    pub path: String,
    pub build_dir: String,
}

impl Misplaced {
    /// What to tell the user.
    pub fn message(&self) -> (r: String)
        ensures
            r@ == "absolute path "@ + self.path@ + " does not resolve under build dir "@
                + self.build_dir@ + "; refusing to relocate it silently"@,
    {
        let mut v = text::chars_of("absolute path ");
        text::append_str(&mut v, self.path.as_str());
        text::append_str(&mut v, " does not resolve under build dir ");
        text::append_str(&mut v, self.build_dir.as_str());
        text::append_str(&mut v, "; refusing to relocate it silently");
        text::string_of(&v)
    }
}

/// The build-directory spelling of a path, where it has one.
pub open spec fn normalized(build_dir: Seq<char>, p: Seq<char>) -> Option<Seq<char>> {
    if !is_abs(p) {
        Some(p)
    } else {
        match relative(p, build_dir) {
            Some(rel) => if !is_abs(rel) && one_tree(build_dir, p) {
                Some(rel)
            } else {
                None
            },
            None => None,
        }
    }
}

/// The build-directory spelling of a path: a relative one as it is, an
/// absolute one relative to the build directory. An absolute path outside the
/// project tree is refused rather than relocated.
pub fn normalize_build_path(build_dir: &str, p: &str) -> (r: Result<String, Misplaced>)
    ensures
        match r {
            Ok(s) => normalized(build_dir@, p@) == Some(s@) && !is_abs(s@),
            Err(e) => normalized(build_dir@, p@) is None && e.path@ == p@ && e.build_dir@
                == build_dir@,
        },
{
    let x = text::chars_of(p);
    if !absolute(&x) {
        return Ok(text::string_of(&x));
    }
    if let Some(rel) = relative_from(p, build_dir) {
        let y = text::chars_of(rel.as_str());
        if !absolute(&y) && same_project_tree(build_dir, p) {
            return Ok(rel);
        }
    }
    let d = text::chars_of(build_dir);
    Err(Misplaced { path: text::string_of(&x), build_dir: text::string_of(&d) })
}

/// The components of a store location: each climb becomes a named directory.
pub open spec fn no_climb(cs: Seq<Seq<char>>) -> Seq<Seq<char>> {
    cs.map_values(|c: Seq<char>| if c == up() { ".nn-up"@ } else { c })
}

/// Where an output lies inside its store object: its build path with each
/// `..` spelled as a directory, so that it cannot leave the object.
pub fn store_rel_path(build_path: &str) -> (r: String)
    ensures
        r@ == render(no_climb(comps(build_path@))),
{
    let x = text::chars_of(build_path);
    let cs = components(&x);
    let ghost gc = views::pieces(cs@);
    let mut out: Vec<Vec<char>> = Vec::new();
    assert(views::pieces(out@) =~= no_climb(gc).take(0));
    for i in 0..cs.len()
        invariant
            gc == views::pieces(cs@),
            views::pieces(out@) == no_climb(gc).take(i as int),
    {
        if is_up(&cs[i]) {
            out.push(text::chars_of(".nn-up"));
        } else {
            out.push(text::copy(&cs[i]));
        }
        assert(gc[i as int] == cs@[i as int]@);
        assert(no_climb(gc).take(i + 1) =~= no_climb(gc).take(i as int).push(no_climb(gc)[i as int]));
    }
    assert(no_climb(gc).take(gc.len() as int) =~= no_climb(gc));
    let t = rendered(&out);
    text::string_of(&t)
}

/// Where the sandbox keeps a build directory that is not mirrored.
pub const TASK_SANDBOX_BUILD_DIR: &'static str = "/build/source/build";

/// Where a task's build directory lies in the sandbox.
pub open spec fn sandboxed(build_dir: Seq<char>) -> Seq<char> {
    if under(build_dir, "/build/"@) {
        build_dir
    } else {
        TASK_SANDBOX_BUILD_DIR@
    }
}

/// Where a task's build directory lies in the sandbox: a directory below
/// `/build` is mirrored as it is, any other has the default place.
pub fn sandbox_build_dir(build_dir: &str) -> (r: String)
    ensures
        r@ == sandboxed(build_dir@),
{
    let x = text::chars_of(build_dir);
    if is_under_lit(&x, "/build/") {
        text::string_of(&x)
    } else {
        let d = text::chars_of(TASK_SANDBOX_BUILD_DIR);
        text::string_of(&d)
    }
}

// ---------------------------------------------------------------------------
// Lists of paths
// ---------------------------------------------------------------------------

/// The paths without those that stand before in the list under any spelling.
pub open spec fn first_paths(ps: Seq<Seq<char>>) -> Seq<Seq<char>>
    decreases ps.len(),
{
    if ps.len() == 0 {
        Seq::empty()
    } else {
        let front = first_paths(ps.drop_last());
        if listed(front, ps.last()) {
            front
        } else {
            front.push(ps.last())
        }
    }
}

/// The paths without those that stand before in the list under any spelling.
pub fn dedup_paths(paths: &Vec<String>) -> (r: Vec<String>)
    ensures
        views::texts(r@) == first_paths(views::texts(paths@)),
{
    let ghost all = views::texts(paths@);
    let mut out: Vec<String> = Vec::new();
    assert(views::texts(out@) =~= first_paths(all.take(0)));
    for i in 0..paths.len()
        invariant
            all == views::texts(paths@),
            views::texts(out@) == first_paths(all.take(i as int)),
    {
        assert(all.take(i + 1).drop_last() =~= all.take(i as int));
        assert(all.take(i + 1).last() == paths@[i as int]@);
        if !in_list(&out, paths[i].as_str()) {
            out.push(paths[i].clone());
        }
    }
    assert(all.take(all.len() as int) =~= all);
    out
}

/// A path more, unless the list has it under any spelling.
pub open spec fn with_path(ps: Seq<Seq<char>>, p: Seq<char>) -> Seq<Seq<char>> {
    if listed(ps, p) {
        ps
    } else {
        ps.push(p)
    }
}

/// Adds a path, unless the list has it under any spelling.
pub fn add_path(v: &mut Vec<String>, p: String)
    ensures
        views::texts(final(v)@) == with_path(views::texts(old(v)@), p@),
{
    if !in_list(v, p.as_str()) {
        v.push(p);
    }
}

// ---------------------------------------------------------------------------
// Laws
// ---------------------------------------------------------------------------

/// A store location never climbs: it has the components of the build path in
/// their order, and none of them is `..`.
pub proof fn store_location_never_climbs(p: Seq<char>)
    ensures
        comps(render(no_climb(comps(p)))) == no_climb(comps(p)),
        forall|i: int|
            0 <= i < comps(p).len() ==> #[trigger] comps(render(no_climb(comps(p))))[i] != up(),
{
    let cs = comps(p);
    let ns = no_climb(cs);
    comps_well_placed(p);
    reveal_strlit(".nn-up");
    assert forall|i: int| 0 <= i < ns.len() implies (#[trigger] ns[i]).len() > 0 && (ns[i] == root()
        || !ns[i].contains('/')) && (ns[i] == root() ==> i == 0) && (ns[i] == cur() ==> i == 0)
        && ns[i] != up() by {
        if cs[i] == up() {
            assert(ns[i] == ".nn-up"@);
            assert(ns[i][1] == 'n');
        } else {
            assert(ns[i] == cs[i]);
        }
    }
    comps_of_render(ns);
}

/// A build path without climbs is its own store location.
pub proof fn store_location_of_plain_path(p: Seq<char>)
    requires
        !comps(p).contains(up()),
    ensures
        same_path(render(no_climb(comps(p))), p),
{
    let cs = comps(p);
    assert forall|i: int| 0 <= i < cs.len() implies no_climb(cs)[i] == cs[i] by {
        assert(cs.contains(cs[i]));
    }
    assert(no_climb(cs) =~= cs);
    comps_well_placed(p);
    comps_of_render(cs);
}

/// Components below a directory: rendering them all is joining the two parts rendered.
proof fn render_concat(base: Seq<Seq<char>>, tail: Seq<Seq<char>>)
    requires
        base.len() > 1,
        tail.len() > 0,
        well_placed(base + tail),
    ensures
        render(base + tail) == joined(render(base), render(tail)),
    decreases tail.len(),
{
    let all = base + tail;
    let front = tail.drop_last();
    let c = tail.last();
    assert(all.drop_last() =~= base + front);
    assert(all.last() == c && all[all.len() - 1] == c);
    assert forall|i: int| 0 <= i < base.len() implies #[trigger] base[i] == all[i] by {}
    comps_of_render(base);
    if front.len() == 0 {
        assert(base + front =~= base);
        assert(render(front) =~= Seq::<char>::empty());
        assert(render(front) + c =~= c);
    } else {
        assert forall|i: int| 0 <= i < front.len() implies #[trigger] front[i] == all[base.len()
            + i] by {}
        assert forall|i: int| 0 <= i < (base + front).len() implies #[trigger] (base + front)[i]
            == all[i] by {}
        render_concat(base, front);
        comps_of_render(front);
        assert(render(base) + seq!['/'] + render(front) + seq!['/'] + c =~= render(base) + seq!['/']
            + (render(front) + seq!['/'] + c));
    }
}

/// Names below an absolute directory follow its own components.
pub proof fn comps_below(dir: Seq<char>, base: Seq<Seq<char>>, tail: Seq<Seq<char>>)
    requires
        base.len() > 1,
        tail.len() > 0,
        well_placed(base + tail),
        dir == render(base),
    ensures
        comps(joined(dir, render(tail))) == base + tail,
{
    render_concat(base, tail);
    comps_of_render(base + tail);
}

/// Where the sandbox runs a task is always an absolute path.
pub proof fn sandbox_is_absolute(build_dir: Seq<char>)
    ensures
        is_abs(sandboxed(build_dir)),
{
    reveal_strlit("/build/source/build");
    reveal_strlit("/build/");
    comps_well_placed("/build/"@);
    comps_well_placed(build_dir);
    if under(build_dir, "/build/"@) {
        assert(is_abs("/build/"@));
        assert(comps("/build/"@)[0] == comps(build_dir)[0]);
    }
}

/// Applying two lists of components one after the other is applying their concatenation.
pub proof fn lexical_concat(at: Seq<Seq<char>>, a: Seq<Seq<char>>, b: Seq<Seq<char>>)
    ensures
        lexical(at, a + b) == lexical(lexical(at, a), b),
    decreases b.len(),
{
    if b.len() == 0 {
        assert(a + b =~= a);
    } else {
        lexical_concat(at, a, b.drop_last());
        assert((a + b).drop_last() =~= a + b.drop_last());
        assert((a + b).last() == b.last());
    }
}

/// Names alone are added as they are.
pub proof fn lexical_names(at: Seq<Seq<char>>, ns: Seq<Seq<char>>)
    requires
        forall|i: int| 0 <= i < ns.len() ==> is_name(#[trigger] ns[i]),
    ensures
        lexical(at, ns) == at + ns,
    decreases ns.len(),
{
    if ns.len() == 0 {
        assert(at + ns =~= at);
    } else {
        let front = ns.drop_last();
        assert forall|i: int| 0 <= i < front.len() implies is_name(#[trigger] front[i]) by {
            assert(front[i] == ns[i]);
        }
        lexical_names(at, front);
        assert(ns.last() == ns[ns.len() - 1]);
        assert((at + front).push(ns.last()) =~= at + ns);
    }
}

/// As many climbs as there are names at the end take them all back.
pub proof fn lexical_climbs(at: Seq<Seq<char>>, ns: Seq<Seq<char>>, n: nat)
    requires
        n <= ns.len(),
        forall|i: int| 0 <= i < ns.len() ==> is_name(#[trigger] ns[i]),
    ensures
        lexical(at + ns, ups(n)) == at + ns.take(ns.len() - n),
    decreases n,
{
    if n == 0 {
        assert(ns.take(ns.len() as int) =~= ns);
        assert(ups(0) =~= Seq::<Seq<char>>::empty());
    } else {
        let m = (n - 1) as nat;
        lexical_climbs(at, ns, m);
        assert(ups(n).drop_last() =~= ups(m));
        assert(ups(n).last() == up());
        let here = at + ns.take(ns.len() - m);
        assert(here.last() == ns[ns.len() - m - 1]);
        assert(here.drop_last() =~= at + ns.take(ns.len() - n));
    }
}

/// What leads from one list of names to another, behind a common start.
proof fn relative_leads_back(pre: Seq<Seq<char>>, a: Seq<Seq<char>>, b: Seq<Seq<char>>)
    requires
        forall|i: int| 0 <= i < a.len() ==> is_name(#[trigger] a[i]),
        forall|i: int| 0 <= i < b.len() ==> is_name(#[trigger] b[i]),
    ensures
        relative_comps(a, b, Seq::empty()) is Some,
        lexical(pre + b, relative_comps(a, b, Seq::empty())->0) == pre + a,
        forall|i: int|
            0 <= i < relative_comps(a, b, Seq::empty())->0.len() ==> {
                let c = #[trigger] relative_comps(a, b, Seq::empty())->0[i];
                c == up() || a.contains(c)
            },
    decreases b.len(),
{
    let e = Seq::<Seq<char>>::empty();
    let r = relative_comps(a, b, e);
    if b.len() == 0 {
        assert(e + a =~= a);
        lexical_names(pre, a);
        assert(pre + b =~= pre);
        assert forall|i: int| 0 <= i < r->0.len() implies {
            let c = #[trigger] r->0[i];
            c == up() || a.contains(c)
        } by {
            assert(r->0[i] == a[i]);
        }
    } else if a.len() == 0 {
        assert(a =~= e);
        relative_of_none(b, e);
        assert(e + ups(b.len()) =~= ups(b.len()));
        lexical_climbs(pre, b, b.len());
        assert(pre + b.take(0) =~= pre + a);
    } else if a[0] == b[0] {
        let a1 = a.drop_first();
        let b1 = b.drop_first();
        assert forall|i: int| 0 <= i < a1.len() implies is_name(#[trigger] a1[i]) by {
            assert(a1[i] == a[i + 1]);
        }
        assert forall|i: int| 0 <= i < b1.len() implies is_name(#[trigger] b1[i]) by {
            assert(b1[i] == b[i + 1]);
        }
        relative_leads_back(pre.push(a[0]), a1, b1);
        assert(pre.push(a[0]) + b1 =~= pre + b);
        assert(pre.push(a[0]) + a1 =~= pre + a);
        assert forall|i: int| 0 <= i < r->0.len() implies {
            let c = #[trigger] r->0[i];
            c == up() || a.contains(c)
        } by {
            let c = relative_comps(a1, b1, e)->0[i];
            if c != up() {
                let j = choose|j: int| 0 <= j < a1.len() && a1[j] == c;
                assert(a[j + 1] == c);
            }
        }
    } else {
        assert(is_name(b[0]));
        assert(e + ups(b.len()) + a =~= ups(b.len()) + a);
        lexical_concat(pre + b, ups(b.len()), a);
        lexical_climbs(pre, b, b.len());
        assert(pre + b.take(0) =~= pre);
        lexical_names(pre, a);
        assert forall|i: int| 0 <= i < r->0.len() implies {
            let c = #[trigger] r->0[i];
            c == up() || a.contains(c)
        } by {
            if i >= b.len() {
                assert(r->0[i] == a[i - b.len()]);
            }
        }
    }
}

/// A path without `..`, seen from a base directory without `..` and walked from there,
/// is the path again.
pub proof fn relative_then_walked(p: Seq<char>, base: Seq<char>)
    requires
        is_abs(p),
        is_abs(base),
        !comps(p).contains(up()),
        !comps(base).contains(up()),
    ensures
        relative(p, base) is Some,
        same_path(walked(base, relative(p, base)->0), p),
        !is_abs(relative(p, base)->0),
{
    let cp = comps(p);
    let cb = comps(base);
    comps_well_placed(p);
    comps_well_placed(base);
    let a = cp.drop_first();
    let b = cb.drop_first();
    let e = Seq::<Seq<char>>::empty();
    assert forall|i: int| 0 <= i < a.len() implies is_name(#[trigger] a[i]) by {
        assert(a[i] == cp[i + 1]);
        assert(cp.contains(cp[i + 1]));
    }
    assert forall|i: int| 0 <= i < b.len() implies is_name(#[trigger] b[i]) by {
        assert(b[i] == cb[i + 1]);
        assert(cb.contains(cb[i + 1]));
    }
    let pre = seq![root()];
    relative_leads_back(pre, a, b);
    assert(pre + a =~= cp);
    assert(pre + b =~= cb);
    let r = relative_comps(a, b, e)->0;
    assert(relative_comps(cp, cb, e) == relative_comps(a, b, e));
    assert forall|i: int| 0 <= i < r.len() implies (#[trigger] r[i]).len() > 0 && (r[i] == root()
        || !r[i].contains('/')) && (r[i] == root() ==> i == 0) && (r[i] == cur() ==> i == 0) && r[i]
        != root() by {
        if r[i] != up() {
            let j = choose|j: int| 0 <= j < a.len() && a[j] == r[i];
            assert(cp[j + 1] == r[i]);
        }
    }
    comps_of_render(r);
    comps_of_render(cp);
}

/// Removing repetitions keeps a spelling of every path, keeps none twice, and
/// adds none.
pub proof fn first_paths_cover(ps: Seq<Seq<char>>)
    ensures
        forall|p: Seq<char>| #[trigger] listed(first_paths(ps), p) <==> listed(ps, p),
        forall|i: int, j: int|
            0 <= i < j < first_paths(ps).len() ==> !same_path(
                #[trigger] first_paths(ps)[i],
                #[trigger] first_paths(ps)[j],
            ),
        forall|i: int|
            0 <= i < first_paths(ps).len() ==> ps.contains(#[trigger] first_paths(ps)[i]),
    decreases ps.len(),
{
    if ps.len() > 0 {
        let front = ps.drop_last();
        let last = ps.last();
        let f = first_paths(front);
        let out = first_paths(ps);
        first_paths_cover(front);
        assert forall|p: Seq<char>| #[trigger] listed(out, p) <==> listed(ps, p) by {
            if listed(ps, p) {
                let i = choose|i: int| 0 <= i < ps.len() && same_path(#[trigger] ps[i], p);
                if i < front.len() {
                    assert(same_path(front[i], p));
                    assert(listed(f, p));
                    let j = choose|j: int| 0 <= j < f.len() && same_path(#[trigger] f[j], p);
                    assert(out[j] == f[j]);
                } else if listed(f, last) {
                    let j = choose|j: int| 0 <= j < f.len() && same_path(#[trigger] f[j], last);
                    assert(same_path(out[j], p));
                } else {
                    assert(out[out.len() - 1] == last);
                }
            }
            if listed(out, p) {
                let i = choose|i: int| 0 <= i < out.len() && same_path(#[trigger] out[i], p);
                if i < f.len() {
                    assert(same_path(f[i], p));
                    assert(listed(front, p));
                    let j = choose|j: int| 0 <= j < front.len() && same_path(#[trigger] front[j], p);
                    assert(ps[j] == front[j]);
                } else {
                    assert(ps[ps.len() - 1] == last);
                }
            }
        }
        assert forall|i: int, j: int| 0 <= i < j < out.len() implies !same_path(
            #[trigger] out[i],
            #[trigger] out[j],
        ) by {
            if j < f.len() {
                assert(out[i] == f[i] && out[j] == f[j]);
            } else {
                assert(out[i] == f[i]);
                assert(!listed(f, last));
            }
        }
        assert forall|i: int| 0 <= i < out.len() implies ps.contains(#[trigger] out[i]) by {
            if i < f.len() {
                assert(out[i] == f[i]);
                assert(front.contains(f[i]));
                let j = choose|j: int| 0 <= j < front.len() && front[j] == f[i];
                assert(ps[j] == f[i]);
            } else {
                assert(ps[ps.len() - 1] == last);
            }
        }
    }
}

/// Lying in one tree does not depend on from where one looks, and carries over.
pub proof fn one_tree_is_shared(a: Seq<char>, b: Seq<char>, c: Seq<char>)
    ensures
        one_tree(a, b) == one_tree(b, a),
        one_tree(a, b) && one_tree(b, c) ==> one_tree(a, c),
{
}

/// Names alone stay as they are.
pub proof fn names_settle(cs: Seq<Seq<char>>)
    requires
        forall|i: int| 0 <= i < cs.len() ==> is_name(#[trigger] cs[i]),
    ensures
        lexical(Seq::empty(), cs) == cs,
    decreases cs.len(),
{
    if cs.len() > 0 {
        let front = cs.drop_last();
        assert forall|i: int| 0 <= i < front.len() implies is_name(#[trigger] front[i]) by {
            assert(front[i] == cs[i]);
        }
        names_settle(front);
        assert(is_name(cs[cs.len() - 1]));
        assert(lexical(Seq::empty(), cs) =~= cs);
    }
}

/// A climb in front is never taken back.
pub proof fn climbs_settle(cs: Seq<Seq<char>>)
    requires
        cs.len() > 0,
        cs[0] == up(),
    ensures
        lexical(Seq::empty(), cs).len() > 0,
        lexical(Seq::empty(), cs)[0] == up(),
    decreases cs.len(),
{
    let front = cs.drop_last();
    if front.len() > 0 {
        climbs_settle(front);
        let at = lexical(Seq::empty(), front);
        assert(front[0] == cs[0]);
        assert(!is_name(up()));
        assert(up().len() == 2 && cur().len() == 1);
        if at.len() == 1 {
            assert(at.last() == up());
        }
    } else {
        assert(lexical(Seq::empty(), front) =~= Seq::<Seq<char>>::empty());
        assert(cs.last() == up());
        assert(up().len() == 2 && cur().len() == 1);
    }
}

/// The components of segments that follow others: a `.` among them is none.
spec fn later_marked(segs: Seq<Seq<char>>) -> Seq<Seq<char>>
    decreases segs.len(),
{
    if segs.len() == 0 {
        Seq::empty()
    } else if segs.last().len() > 0 && segs.last() != cur() {
        later_marked(segs.drop_last()).push(segs.last())
    } else {
        later_marked(segs.drop_last())
    }
}

proof fn marked_parts(a: Seq<Seq<char>>, b: Seq<Seq<char>>)
    requires
        a.len() > 0,
    ensures
        marked(a + b) == marked(a) + later_marked(b),
    decreases b.len(),
{
    if b.len() == 0 {
        assert(a + b =~= a);
        assert(marked(a) + later_marked(b) =~= marked(a));
    } else {
        marked_parts(a, b.drop_last());
        assert((a + b).drop_last() =~= a + b.drop_last());
        assert((a + b).last() == b.last());
        assert(marked(a + b) =~= marked(a) + later_marked(b));
    }
}

/// The components without a `.` in front.
pub open spec fn undotted_comps(cs: Seq<Seq<char>>) -> Seq<Seq<char>> {
    if cs.len() > 0 && cs[0] == cur() {
        cs.drop_first()
    } else {
        cs
    }
}

proof fn later_marked_is(segs: Seq<Seq<char>>)
    ensures
        later_marked(segs) == undotted_comps(marked(segs)),
        marked(segs).len() > 0 && marked(segs)[0] == cur() ==> segs.len() > 0 && segs[0] == cur(),
        segs.len() > 0 && segs[0] == cur() ==> marked(segs).len() > 0 && marked(segs)[0] == cur(),
    decreases segs.len(),
{
    if segs.len() > 1 {
        let front = segs.drop_last();
        later_marked_is(front);
        assert(front[0] == segs[0]);
        let m = marked(front);
        if m.len() > 0 && m[0] == cur() {
            assert(m.push(segs.last()).drop_first() =~= m.drop_first().push(segs.last()));
        }
    } else if segs.len() == 1 {
        assert(segs.drop_last() =~= Seq::<Seq<char>>::empty());
        reveal_with_fuel(marked, 2);
        reveal_with_fuel(later_marked, 2);
        if segs[0] == cur() {
            assert(marked(segs) =~= seq![cur()]);
            assert(marked(segs).drop_first() =~= Seq::<Seq<char>>::empty());
        }
    }
}

/// A relative path behind another and a slash: its components follow, but for a
/// `.` in front.
pub proof fn comps_of_joined(base: Seq<char>, rel: Seq<char>)
    requires
        base.len() > 0,
        !is_abs(rel),
    ensures
        comps(base + seq!['/'] + rel) == comps(base) + undotted_comps(comps(rel)),
        comps(joined(base, rel)) == comps(base) + undotted_comps(comps(rel)),
{
    let k = Class::Only('/');
    let s = base + seq!['/'] + rel;
    assert(s[0] == base[0]);
    text::split_parts(base, '/', rel, k);
    text::split_nonempty(base, k);
    marked_parts(segments(base), segments(rel));
    later_marked_is(segments(rel));
    assert(roots(rel) + marked(segments(rel)) =~= marked(segments(rel)));
    assert(comps(s) =~= comps(base) + undotted_comps(comps(rel)));
    if base.last() == '/' {
        let b = base.drop_last();
        assert(b + seq!['/'] + rel =~= base + rel);
        text::split_parts(b, '/', rel, k);
        let e = Seq::<char>::empty();
        assert(b + seq!['/'] + e =~= base);
        text::split_parts(b, '/', e, k);
        split_whole(e, '/');
        text::split_nonempty(b, k);
        marked_parts(segments(b), segments(rel));
        marked_parts(segments(b), seq![e]);
        assert(seq![e].drop_last() =~= Seq::<Seq<char>>::empty());
        reveal_with_fuel(later_marked, 2);
        assert(later_marked(seq![e]) =~= Seq::<Seq<char>>::empty());
        assert(marked(segments(base)) =~= marked(segments(b)));
        assert((base + rel)[0] == base[0]);
        assert(comps(base + rel) =~= comps(base) + undotted_comps(comps(rel)));
    }
}

/// A name below a directory: its path ends in the name, and the directory is
/// what stands before.
pub proof fn a_child_lies_in_its_directory(d: Seq<char>, n: Seq<char>)
    requires
        d.len() > 0,
        n.len() > 0,
        !n.contains('/'),
        n != "."@,
        n != ".."@,
    ensures
        comps(joined(d, n)) == comps(d).push(n),
        file_name(joined(d, n)) == Some(n),
        file_name(n) == Some(n),
        comps(n) == seq![n],
        under(joined(d, n), d),
        extension(joined(d, n)) == name_extension(n),
        extension(n) == name_extension(n),
{
    reveal_strlit(".");
    reveal_strlit("..");
    assert("."@ =~= cur());
    assert(".."@ =~= up());
    assert(n.contains(n[0]));
    assert(!is_abs(n));
    split_whole(n, '/');
    assert(seq![n].drop_last() =~= Seq::<Seq<char>>::empty());
    reveal_with_fuel(marked, 2);
    assert(marked(seq![n]) =~= seq![n]);
    assert(comps(n) =~= seq![n]);
    if n == root() {
        assert(n.contains('/'));
    }
    comps_of_joined(d, n);
    assert(comps(d) + seq![n] =~= comps(d).push(n));
}

/// What stands behind the last dot of a name is its extension, whatever stands
/// before that dot; a name without a dot, or with one in front alone, has none.
pub proof fn extensions_stand_behind_the_last_dot(stem: Seq<char>, e: Seq<char>)
    requires
        !e.contains('.'),
    ensures
        stem.len() > 0 ==> name_extension(stem + seq!['.'] + e) == Some(e),
        name_extension(e) is None,
        name_extension(seq!['.'] + e) is None,
{
    let k = Class::Only('.');
    split_whole(e, '.');
    text::split_parts(stem, '.', e, k);
    text::split_nonempty(stem, k);
    let ps = text::split(stem, k) + seq![e];
    if stem.len() > 0 {
        assert(ps.last() == e);
        if ps.len() == 2 && ps[0].len() == 0 {
            join_of_split(stem, '.');
            assert(text::split(stem, k).len() == 1);
            assert(text::split(stem, k) =~= seq![ps[0]]);
            assert(stem =~= ps[0]);
        }
    }
    let none = Seq::<char>::empty();
    assert(none + seq!['.'] + e =~= seq!['.'] + e);
    text::split_parts(none, '.', e, k);
    split_whole(none, '.');
    assert(seq![none] + seq![e] =~= seq![none, e]);
}

proof fn marked_of_subrange(segs: Seq<Seq<char>>, from: int, to: int)
    requires
        0 < from <= to <= segs.len(),
        from < to ==> counts(segs[from], from),
    ensures
        marked(segs.take(to)) == marked(segs.take(from)) + marked(segs.subrange(from, to)),
    decreases to,
{
    let sub = segs.subrange(from, to);
    if from == to {
        assert(sub =~= Seq::<Seq<char>>::empty());
        assert(marked(segs.take(from)) + marked(sub) =~= marked(segs.take(from)));
    } else {
        marked_of_subrange(segs, from, to - 1);
        assert(segs.take(to).drop_last() =~= segs.take(to - 1));
        assert(sub.drop_last() =~= segs.subrange(from, to - 1));
        assert(sub.last() == segs[to - 1]);
        assert(marked(segs.take(to)) =~= marked(segs.take(from)) + marked(sub));
    }
}

/// What is left of a path below a directory has the components that follow those
/// of the directory.
pub proof fn what_is_below_follows(p: Seq<char>, base: Seq<char>)
    requires
        under(p, base),
        0 < comps(base).len(),
        is_abs(base),
    ensures
        below(p, base) matches Some(rel) && comps(rel) == comps(p).skip(
            comps(base).len() as int,
        ) && !is_abs(rel),
{
    let segs = segments(p);
    let ms = marks(segs);
    let k = comps(base).len() as int;
    marks_point(segs);
    comps_well_placed(p);
    comps_well_placed(base);
    let e = Seq::<char>::empty();
    if k == comps(p).len() {
        split_whole(e, '/');
        assert(seq![e].drop_last() =~= Seq::<Seq<char>>::empty());
        reveal_with_fuel(marked, 2);
        assert(comps(e) =~= Seq::<Seq<char>>::empty());
        assert(comps(p).skip(k) =~= Seq::<Seq<char>>::empty());
    } else {
        assert(comps(base)[0] == comps(p)[0]);
        assert(roots(p).len() == 1);
        let i = k - 1;
        assert(ms.len() == comps(p).len() - 1);
        let from = ms[i];
        let to = ms.last() + 1;
        text::split_nonempty(p, Class::Only('/'));
        text::span_stops(p, Class::Only('/'));
        assert(text::span(p, Class::Only('/')) == 0);
        assert(segs[0].len() == 0);
        assert(from > 0) by {
            if from == 0 {
                assert(segs[from].len() > 0);
            }
        }
        let sub = segs.subrange(from, to);
        pieces_free(p, '/');
        assert forall|j: int| 0 <= j < sub.len() implies !(#[trigger] sub[j]).contains('/') by {
            assert(sub[j] == segs[from + j]);
        }
        split_of_join(sub, '/');
        let rel = text::join(sub, root());
        assert(segments(rel) == sub);
        join_head(sub, root());
        assert(sub[0] == segs[from] && sub[0].len() > 0);
        marked_of_subrange(segs, from, to);
        marks_below(segs, from, i);
        marked_prefix(segs, from);
        marks_below(segs, to, ms.len() as int);
        marked_prefix(segs, to);
        assert(!is_abs(rel)) by {
            assert(rel[0] == sub[0][0]);
            assert(sub[0].contains(sub[0][0]));
        }
        assert(comps(rel) =~= marked(sub));
        let all = marked(segs);
        assert(all.take(ms.len() as int) =~= all);
        assert(all == all.take(i) + marked(sub));
        assert((all.take(i) + marked(sub)).skip(i) =~= marked(sub));
        assert(comps(p).skip(k) =~= marked(segs).skip(i));
    }
}

/// A relative name is placed as it is spelled, climbs and all. An absolute one is
/// placed as seen from the build directory, where the two share their first name;
/// from there it leads back to what it names.
pub proof fn names_are_placed(build_dir: Seq<char>, p: Seq<char>)
    ensures
        !is_abs(p) ==> normalized(build_dir, p) == Some(p),
        is_abs(p) && first_name(comps(build_dir)) != first_name(comps(p)) ==> normalized(
            build_dir,
            p,
        ) is None,
        is_abs(p) && is_abs(build_dir) && !comps(p).contains(up()) && !comps(build_dir).contains(
            up(),
        ) && first_name(comps(p)) is Some && first_name(comps(build_dir)) == first_name(comps(p))
            ==> normalized(build_dir, p) is Some && !is_abs(normalized(build_dir, p)->0)
            && same_path(walked(build_dir, normalized(build_dir, p)->0), p),
{
    if is_abs(p) && is_abs(build_dir) && !comps(p).contains(up()) && !comps(build_dir).contains(
        up(),
    ) {
        relative_then_walked(p, build_dir);
    }
}

/// The first name of components is the first that is neither the root nor a dot.
pub proof fn the_first_name_is_found(cs: Seq<Seq<char>>, i: int)
    requires
        0 <= i < cs.len(),
        is_name(cs[i]),
        forall|j: int| 0 <= j < i ==> !is_name(#[trigger] cs[j]),
    ensures
        first_name(cs) == Some(cs[i]),
    decreases i,
{
    if i > 0 {
        let f = cs.drop_first();
        assert forall|j: int| 0 <= j < i - 1 implies !is_name(#[trigger] f[j]) by {
            assert(f[j] == cs[j + 1]);
        }
        assert(!is_name(cs[0]));
        assert(f[i - 1] == cs[i]);
        the_first_name_is_found(f, i - 1);
    }
}

/// What lies below a directory is seen from there by what follows the directory;
/// from anywhere else there are as many climbs as the directory goes on alone.
pub proof fn paths_are_seen_from_where_they_part(
    common: Seq<Seq<char>>,
    a: Seq<Seq<char>>,
    b: Seq<Seq<char>>,
)
    requires
        a.len() > 0 && b.len() > 0 ==> a[0] != b[0],
        forall|i: int| 0 <= i < b.len() ==> is_name(#[trigger] b[i]),
    ensures
        relative_comps(common + a, common + b, Seq::empty()) == Some(ups(b.len()) + a),
    decreases common.len(),
{
    let e = Seq::<Seq<char>>::empty();
    if common.len() == 0 {
        assert(common + a =~= a);
        assert(common + b =~= b);
        if b.len() == 0 {
            assert(ups(0) + a =~= e + a);
        } else if a.len() > 0 {
            assert(is_name(b[0]));
            assert(relative_comps(a, b, e) == Some(e + ups(b.len()) + a));
            assert(e + ups(b.len()) + a =~= ups(b.len()) + a);
        } else {
            assert(a =~= e);
            only_climbs(b, e);
            assert(e + ups(b.len()) =~= ups(b.len()) + a);
        }
    } else {
        let f = common.drop_first();
        paths_are_seen_from_where_they_part(f, a, b);
        assert((common + a).drop_first() =~= f + a);
        assert((common + b).drop_first() =~= f + b);
        assert((common + a)[0] == (common + b)[0]);
    }
}

proof fn only_climbs(b: Seq<Seq<char>>, found: Seq<Seq<char>>)
    ensures
        relative_comps(Seq::empty(), b, found) == Some(found + ups(b.len())),
    decreases b.len(),
{
    let e = Seq::<Seq<char>>::empty();
    if b.len() == 0 {
        assert(found + e =~= found + ups(0));
    } else {
        only_climbs(b.drop_first(), found.push(up()));
        assert(found.push(up()) + ups((b.len() - 1) as nat) =~= found + ups(b.len()));
    }
}

/// A directory that holds a file can always be opened: it is the file's parent,
/// and the working directory for a bare name.
pub proof fn parents_can_be_opened(p: Seq<char>)
    ensures
        opened_parent(p).len() > 0,
        comps(p).len() <= 1 && !is_abs(p) ==> opened_parent(p) == "."@,
        comps(p).len() > 1 ==> comps(opened_parent(p)) == comps(p).drop_last(),
{
    reveal_strlit(".");
    assert("."@ =~= cur());
    parent_drops_last(p);
    if comps(p).len() > 1 {
        let d = parent(p)->0;
        if d.len() == 0 {
            comps_of_render(Seq::empty());
            assert(render(Seq::empty()) =~= d);
        }
    }
    if comps(p).len() <= 1 && !is_abs(p) {
        if parent(p) is Some {
            let d = parent(p)->0;
            if d.len() > 0 {
                assert(comps(d).len() == 0);
                assert(roots(p).len() == 0);
                marks_point(segments(p));
            }
        }
    }
}

/// The sandbox's own build directory stays; every other becomes the one that all
/// tasks share.
pub proof fn tasks_share_one_directory(a: Seq<char>, b: Seq<char>)
    ensures
        comps("/build/"@).is_prefix_of(comps(a)) ==> sandboxed(a) == a,
        !comps("/build/"@).is_prefix_of(comps(a)) && !comps("/build/"@).is_prefix_of(comps(b))
            ==> sandboxed(a) == sandboxed(b),
{
}

/// In a store location every climb is a directory with a name of its own, and all
/// other components stay where they are.
pub proof fn climbs_are_named(cs: Seq<Seq<char>>, i: int)
    requires
        0 <= i < cs.len(),
    ensures
        no_climb(cs).len() == cs.len(),
        cs[i] == ".."@ ==> no_climb(cs)[i] == ".nn-up"@,
        cs[i] != ".."@ ==> no_climb(cs)[i] == cs[i],
{
    reveal_strlit("..");
    assert(".."@ =~= up());
}

/// A relative path has no root among its components.
pub proof fn relative_paths_have_no_root(p: Seq<char>)
    requires
        !is_abs(p),
    ensures
        comps(p).len() > 0 ==> comps(p)[0] != root(),
{
    if comps(p).len() > 0 {
        marks_point(segments(p));
        pieces_free(p, '/');
        let c = comps(p)[0];
        assert(c == marked(segments(p))[0]);
        assert(segments(p)[marks(segments(p))[0]] == c);
        if c == root() {
            assert(root()[0] == '/');
            assert(c.contains('/'));
        }
    }
}

} // verus!
