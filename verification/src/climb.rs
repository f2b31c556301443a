//! How far paths lead above the directory in which they are read.
use crate::path;
use crate::text;
use crate::text::Class;
use crate::views;
use vstd::prelude::*;

verus! {

broadcast use views::pieces_push;

/// The larger of two numbers.
pub open spec fn max_of(a: nat, b: nat) -> nat {
    if a >= b {
        a
    } else {
        b
    }
}

/// How many levels a path leads above the directory in which it is read, at
/// its start or behind names that it takes back.
pub open spec fn height(p: Seq<char>) -> nat {
    path::leading_ups(path::settled(p))
}

/// How high some paths climb at most.
pub open spec fn highest(ps: Seq<Seq<char>>) -> nat
    decreases ps.len(),
{
    if ps.len() == 0 {
        0
    } else {
        max_of(highest(ps.drop_last()), height(ps.last()))
    }
}

/// The path in a piece of a word: behind an option's letters, where a climb
/// follows them at once.
pub open spec fn option_value(p: Seq<char>) -> Seq<char> {
    match text::find(p, ".."@) {
        Some(k) => if p[0] == '-' && !p.take(k).contains('/') {
            p.skip(k)
        } else {
            p
        },
        None => p,
    }
}

/// What a word of a command may name a path by: the whole word, or a piece of
/// it between the characters that set paths apart.
pub open spec fn paths_in(w: Seq<char>) -> Seq<Seq<char>> {
    seq![w] + text::split(w, Class::PathJoint).map_values(|p: Seq<char>| option_value(p))
}

/// How high the words of a command climb at most.
pub open spec fn words_height(ws: Seq<Seq<char>>) -> nat
    decreases ws.len(),
{
    if ws.len() == 0 {
        0
    } else {
        max_of(words_height(ws.drop_last()), highest(paths_in(ws.last())))
    }
}

/// How many levels a path leads above the directory in which it is read.
pub fn height_of(p: &Vec<char>) -> (r: usize)
    ensures
        r == height(p@),
{
    let cs = path::settled_components(p);
    path::count_ups(&cs)
}

fn value_of(p: &Vec<char>) -> (r: Vec<char>)
    ensures
        r@ == option_value(p@),
{
    proof {
        reveal_strlit("..");
    }
    if let Some(k) = text::search_lit(p, "..") {
        let before = text::head(p, k);
        if p[0] == '-' && !text::contains_char(&before, '/') {
            return text::tail(p, k);
        }
    }
    text::copy(p)
}

/// How high a word of a command climbs.
fn word_height(w: &Vec<char>) -> (r: usize)
    ensures
        r == highest(paths_in(w@)),
{
    let ps = text::split_by(w, Class::PathJoint);
    let ghost gp = views::pieces(ps@);
    let ghost all = paths_in(w@);
    let mut n: usize = height_of(w);
    proof {
        reveal_with_fuel(highest, 2);
        assert(all.take(1) =~= seq![w@]);
        assert(all.take(1).drop_last() =~= Seq::<Seq<char>>::empty());
    }
    for i in 0..ps.len()
        invariant
            gp == views::pieces(ps@),
            gp == text::split(w@, Class::PathJoint),
            all == paths_in(w@),
            n == highest(all.take(i + 1)),
    {
        assert(all.take(i + 2).drop_last() =~= all.take(i + 1));
        assert(all.take(i + 2).last() == option_value(ps@[i as int]@));
        let v = value_of(&ps[i]);
        let k = height_of(&v);
        if k > n {
            n = k;
        }
    }
    assert(all.take(all.len() as int) =~= all);
    n
}

/// How high the words of a command climb at most.
pub fn command_height(cmdline: &str) -> (r: usize)
    ensures
        r == words_height(text::words(cmdline@)),
{
    let ws = text::words_of_str(cmdline);
    let ghost gw = views::pieces(ws@);
    let mut n: usize = 0;
    assert(gw.take(0) =~= Seq::<Seq<char>>::empty());
    for i in 0..ws.len()
        invariant
            gw == views::pieces(ws@),
            n == words_height(gw.take(i as int)),
    {
        assert(gw.take(i + 1).drop_last() =~= gw.take(i as int));
        assert(gw.take(i + 1).last() == ws@[i as int]@);
        let k = word_height(&ws[i]);
        if k > n {
            n = k;
        }
    }
    assert(gw.take(gw.len() as int) =~= gw);
    n
}

// ---------------------------------------------------------------------------
// Laws
// ---------------------------------------------------------------------------

/// No path climbs higher than the highest.
proof fn highest_bounds(ps: Seq<Seq<char>>, i: int)
    requires
        0 <= i < ps.len(),
    ensures
        height(ps[i]) <= highest(ps),
    decreases ps.len(),
{
    if i < ps.len() - 1 {
        highest_bounds(ps.drop_last(), i);
    }
}

/// No path that a word of a command may name climbs higher than the command does.
pub proof fn no_word_climbs_higher(ws: Seq<Seq<char>>, i: int, j: int)
    requires
        0 <= i < ws.len(),
        0 <= j < paths_in(ws[i]).len(),
    ensures
        height(paths_in(ws[i])[j]) <= words_height(ws),
    decreases ws.len(),
{
    if i < ws.len() - 1 {
        no_word_climbs_higher(ws.drop_last(), i, j);
    } else {
        highest_bounds(paths_in(ws[i]), j);
    }
}

/// Every piece of every word of a command counts, wherever it stands: a path that
/// is glued to an option's letters, one behind an equals sign or a colon, and the
/// word as a whole. Something in the command climbs that high.
pub proof fn every_piece_counts(cmdline: Seq<char>, i: int, k: int)
    requires
        0 <= i < text::words(cmdline).len(),
        0 <= k < text::split(text::words(cmdline)[i], Class::PathJoint).len(),
    ensures
        height(text::words(cmdline)[i]) <= words_height(text::words(cmdline)),
        height(option_value(text::split(text::words(cmdline)[i], Class::PathJoint)[k]))
            <= words_height(text::words(cmdline)),
{
    let ws = text::words(cmdline);
    let ps = paths_in(ws[i]);
    word_is_bounded(ws, i);
    piece_is_bounded(ps, 0);
    assert(ps[0] == ws[i]);
    assert(ps[k + 1] == option_value(text::split(ws[i], Class::PathJoint)[k]));
    piece_is_bounded(ps, k + 1);
}

/// No path of a list climbs higher than the highest.
pub proof fn piece_is_bounded(ps: Seq<Seq<char>>, i: int)
    requires
        0 <= i < ps.len(),
    ensures
        height(ps[i]) <= highest(ps),
    decreases ps.len(),
{
    if i < ps.len() - 1 {
        piece_is_bounded(ps.drop_last(), i);
    }
}

proof fn word_is_bounded(ws: Seq<Seq<char>>, i: int)
    requires
        0 <= i < ws.len(),
    ensures
        highest(paths_in(ws[i])) <= words_height(ws),
    decreases ws.len(),
{
    if i < ws.len() - 1 {
        word_is_bounded(ws.drop_last(), i);
    }
}

/// A command climbs no higher than one of its paths does.
pub proof fn some_piece_climbs_as_high(ws: Seq<Seq<char>>)
    requires
        words_height(ws) > 0,
    ensures
        exists|i: int, k: int|
            0 <= i < ws.len() && 0 <= k < #[trigger] paths_in(ws[i]).len() && height(
                #[trigger] paths_in(ws[i])[k],
            ) == words_height(ws),
    decreases ws.len(),
{
    let n = ws.len() - 1;
    let front = ws.drop_last();
    let ps = paths_in(ws[n]);
    if words_height(front) >= highest(ps) {
        some_piece_climbs_as_high(front);
        let (i, k) = choose|i: int, k: int|
            0 <= i < front.len() && 0 <= k < #[trigger] paths_in(front[i]).len() && height(
                #[trigger] paths_in(front[i])[k],
            ) == words_height(front);
        assert(ws[i] == front[i]);
        assert(height(paths_in(ws[i])[k]) == words_height(ws));
    } else {
        some_path_is_highest(ps);
        let k = choose|k: int| 0 <= k < ps.len() && height(#[trigger] ps[k]) == highest(ps);
        assert(height(paths_in(ws[n])[k]) == words_height(ws));
    }
}

proof fn some_path_is_highest(ps: Seq<Seq<char>>)
    requires
        highest(ps) > 0,
    ensures
        exists|k: int| 0 <= k < ps.len() && height(#[trigger] ps[k]) == highest(ps),
    decreases ps.len(),
{
    let n = ps.len() - 1;
    if highest(ps.drop_last()) >= height(ps.last()) {
        some_path_is_highest(ps.drop_last());
        let k = choose|k: int|
            0 <= k < ps.drop_last().len() && height(#[trigger] ps.drop_last()[k]) == highest(
                ps.drop_last(),
            );
        assert(height(ps[k]) == highest(ps));
    } else {
        assert(height(ps[n]) == highest(ps));
    }
}

/// A climb that is glued to an option's letters is a path of its own; a text that
/// is no option, or has a slash before its first climb, is one as a whole.
pub proof fn climbs_behind_letters_are_paths(letters: Seq<char>, rest: Seq<char>, p: Seq<char>)
    requires
        letters.len() > 0,
        letters[0] == '-',
        !letters.contains('.'),
        !letters.contains('/'),
    ensures
        option_value(letters + (".."@ + rest)) == ".."@ + rest,
        p.len() > 0 && p[0] != '-' ==> option_value(p) == p,
        !text::has(p, ".."@) ==> option_value(p) == p,
{
    reveal_strlit("..");
    let s = letters + (".."@ + rest);
    let n = letters.len() as int;
    text::find_from_first(s, ".."@, 0);
    assert(s.subrange(n, n + 2) =~= ".."@);
    assert(text::occurs_at(s, ".."@, n));
    assert forall|j: int| 0 <= j < n implies !text::occurs_at(s, ".."@, j) by {
        if text::occurs_at(s, ".."@, j) {
            assert(s.subrange(j, j + 2)[0] == s[j]);
            assert(s[j] == letters[j]);
            assert(letters.contains(letters[j]));
        }
    }
    assert(s.take(n) =~= letters);
    assert(s.skip(n) =~= ".."@ + rest);
    assert(s[0] == letters[0]);
    text::has_iff_found(p, ".."@);
}

/// A path climbs by as many levels as it has `..` in front of its names; a name
/// that is taken back does not lower it.
pub proof fn climbs_are_counted(p: Seq<char>, n: nat, names: Seq<Seq<char>>)
    requires
        path::comps(p) == path::ups(n) + names,
        forall|i: int| 0 <= i < names.len() ==> path::is_name(#[trigger] names[i]),
    ensures
        height(p) == n,
{
    let e = Seq::<Seq<char>>::empty();
    path::lexical_concat(e, path::ups(n), names);
    ups_stay(n);
    path::lexical_names(path::ups(n), names);
    ups_lead(n, names);
}

proof fn ups_stay(n: nat)
    ensures
        path::lexical(Seq::empty(), path::ups(n)) == path::ups(n),
    decreases n,
{
    if n > 0 {
        let m = (n - 1) as nat;
        ups_stay(m);
        assert(path::ups(n).drop_last() =~= path::ups(m));
        assert(path::ups(n).last() == path::up());
        assert(path::up().len() == 2 && path::cur().len() == 1);
        assert(path::ups(m).push(path::up()) =~= path::ups(n));
        if m > 0 {
            assert(path::ups(m).last() == path::up());
        }
    } else {
        assert(path::ups(0) =~= Seq::<Seq<char>>::empty());
    }
}

proof fn ups_lead(n: nat, names: Seq<Seq<char>>)
    requires
        forall|i: int| 0 <= i < names.len() ==> path::is_name(#[trigger] names[i]),
    ensures
        path::leading_ups(path::ups(n) + names) == n,
    decreases n,
{
    let s = path::ups(n) + names;
    if n == 0 {
        if names.len() > 0 {
            assert(s[0] == names[0]);
        }
    } else {
        let m = (n - 1) as nat;
        ups_lead(m, names);
        assert(s[0] == path::up());
        assert(s.drop_first() =~= path::ups(m) + names);
    }
}

} // verus!
