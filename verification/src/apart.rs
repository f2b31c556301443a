//! Exchanges of words that never overlap: they take place independently of
//! each other, and can be undone.
use crate::rewrite;
use vstd::prelude::*;

verus! {

/// Two words agree where they lie over each other, `v` beginning `d` behind `u`.
pub open spec fn meets<A>(u: Seq<A>, v: Seq<A>, d: int) -> bool {
    forall|j: int| d <= j < u.len() && j < d + v.len() ==> #[trigger] u[j] == v[j - d]
}

/// Two words never lie over each other.
pub open spec fn apart<A>(u: Seq<A>, v: Seq<A>) -> bool {
    &&& forall|d: int| 0 <= d < u.len() ==> !#[trigger] meets(u, v, d)
    &&& forall|d: int| 0 <= d < v.len() ==> !#[trigger] meets(v, u, d)
}

/// A word never lies over itself but in one place.
pub open spec fn unbordered<A>(u: Seq<A>) -> bool {
    forall|d: int| 0 < d < u.len() ==> !#[trigger] meets(u, u, d)
}

/// No two of the words that are exchanged, and that they are exchanged for,
/// lie over each other.
pub open spec fn words_apart<A>(ps: Seq<(Seq<A>, Seq<A>)>) -> bool {
    &&& forall|i: int|
        0 <= i < ps.len() ==> unbordered((#[trigger] ps[i]).0) && unbordered(ps[i].1)
    &&& forall|i: int, j: int|
        0 <= i < ps.len() && 0 <= j < ps.len() ==> apart(
            (#[trigger] ps[i]).0,
            (#[trigger] ps[j]).1,
        )
    &&& forall|i: int, j: int|
        0 <= i < ps.len() && 0 <= j < ps.len() && i != j ==> apart(
            (#[trigger] ps[i]).0,
            (#[trigger] ps[j]).0,
        ) && apart(ps[i].1, ps[j].1)
}

/// A word that stands at `i` lies over the position `k`.
pub open spec fn covers<A>(s: Seq<A>, f: Seq<A>, i: int, k: int) -> bool {
    rewrite::stands(s, f, i) && i <= k < i + f.len()
}

/// A word that stands at `i` gives the elements from there on.
proof fn stands_gives<A>(s: Seq<A>, f: Seq<A>, i: int, k: int)
    requires
        covers(s, f, i, k),
    ensures
        s[k] == f[k - i],
{
    assert(s.subrange(i, i + f.len())[k - i] == s[k]);
}

/// Elements that agree with a word make it stand.
proof fn gives_stands<A>(s: Seq<A>, f: Seq<A>, i: int)
    requires
        0 <= i,
        i + f.len() <= s.len(),
        forall|k: int| i <= k < i + f.len() ==> #[trigger] s[k] == f[k - i],
    ensures
        rewrite::stands(s, f, i),
{
    assert(s.subrange(i, i + f.len()) =~= f);
}

/// Two words that stand at overlapping places meet.
proof fn overlap_meets<A>(s: Seq<A>, u: Seq<A>, v: Seq<A>, i: int, k: int)
    requires
        rewrite::stands(s, u, i),
        rewrite::stands(s, v, k),
        i <= k < i + u.len(),
    ensures
        meets(u, v, k - i),
{
    let d = k - i;
    assert forall|j: int| d <= j < u.len() && j < d + v.len() implies #[trigger] u[j] == v[j
        - d] by {
        stands_gives(s, u, i, i + j);
        stands_gives(s, v, k, i + j);
    }
}

/// Words that are apart do not stand at overlapping places.
proof fn apart_is_disjoint<A>(s: Seq<A>, u: Seq<A>, v: Seq<A>, i: int, k: int, x: int)
    requires
        apart(u, v),
        covers(s, u, i, x),
        rewrite::stands(s, v, k),
    ensures
        !(k <= x < k + v.len()),
{
    if k <= x < k + v.len() {
        if i <= k {
            overlap_meets(s, u, v, i, k);
        } else {
            overlap_meets(s, v, u, k, i);
        }
    }
}

/// A word without a border stands over a position in one way.
proof fn one_cover<A>(s: Seq<A>, u: Seq<A>, i: int, k: int, x: int)
    requires
        unbordered(u),
        covers(s, u, i, x),
        covers(s, u, k, x),
    ensures
        i == k,
{
    if i < k {
        overlap_meets(s, u, u, i, k);
    } else if k < i {
        overlap_meets(s, u, u, k, i);
    }
}

/// A word stands in the rest of a sequence where it stands in the sequence.
proof fn stands_in_rest<A>(s: Seq<A>, f: Seq<A>, n: int, i: int)
    requires
        0 <= n <= s.len(),
        0 <= i,
    ensures
        rewrite::stands(s.skip(n), f, i) == rewrite::stands(s, f, i + n),
{
    if i + n + f.len() <= s.len() {
        assert(s.skip(n).subrange(i, i + f.len()) =~= s.subrange(i + n, i + n + f.len()));
    }
}

/// Where a word without a border stands, its exchange takes place.
proof fn standing_lands<A>(s: Seq<A>, f: Seq<A>, i: int)
    requires
        f.len() > 0,
        unbordered(f),
        rewrite::stands(s, f, i),
    ensures
        rewrite::lands(s, f, i),
    decreases s.len(),
{
    let n = f.len() as int;
    assert(s.take(n) =~= s.subrange(0, n));
    if s.take(n) == f {
        if i > 0 {
            assert(rewrite::stands(s, f, 0));
            if i < n {
                overlap_meets(s, f, f, 0, i);
            }
            stands_in_rest(s, f, n, i - n);
            standing_lands(s.skip(n), f, i - n);
        }
    } else {
        stands_in_rest(s, f, 1, i - 1);
        standing_lands(s.skip(1), f, i - 1);
    }
}

/// What an exchange leaves at a position: the word put in where the other one
/// stood, and what was there everywhere else.
proof fn swap_at<A>(s: Seq<A>, f: Seq<A>, t: Seq<A>, k: int)
    requires
        0 < f.len() == t.len(),
        unbordered(f),
        0 <= k < s.len(),
    ensures
        rewrite::swap(s, f, t).len() == s.len(),
        forall|i: int| #[trigger]
            covers(s, f, i, k) ==> rewrite::swap(s, f, t)[k] == t[k - i],
        (forall|i: int| !#[trigger] covers(s, f, i, k)) ==> rewrite::swap(s, f, t)[k] == s[k],
    decreases s.len(),
{
    rewrite::swap_keeps_length(s, f, t);
    let n = f.len() as int;
    let out = rewrite::swap(s, f, t);
    if s.len() >= n {
        assert(s.take(n) =~= s.subrange(0, n));
        if s.take(n) == f {
            let rest = s.skip(n);
            assert(rewrite::stands(s, f, 0));
            if k < n {
                assert(covers(s, f, 0, k));
                assert forall|i: int| #[trigger] covers(s, f, i, k) implies out[k] == t[k - i] by {
                    one_cover(s, f, 0, i, k);
                }
            } else {
                swap_at(rest, f, t, k - n);
                assert(out[k] == rewrite::swap(rest, f, t)[k - n]);
                assert forall|i: int| #[trigger] covers(s, f, i, k) implies out[k] == t[k - i] by {
                    if i < n {
                        if i > 0 {
                            overlap_meets(s, f, f, 0, i);
                        }
                    }
                    stands_in_rest(s, f, n, i - n);
                    assert(covers(rest, f, i - n, k - n));
                }
                if forall|i: int| !#[trigger] covers(s, f, i, k) {
                    assert forall|i: int| !#[trigger] covers(rest, f, i, k - n) by {
                        if covers(rest, f, i, k - n) {
                            stands_in_rest(s, f, n, i);
                            assert(covers(s, f, i + n, k));
                        }
                    }
                }
            }
        } else {
            let rest = s.skip(1);
            assert(!rewrite::stands(s, f, 0));
            if k >= 1 {
                swap_at(rest, f, t, k - 1);
                assert(out[k] == rewrite::swap(rest, f, t)[k - 1]);
                assert forall|i: int| #[trigger] covers(s, f, i, k) implies out[k] == t[k - i] by {
                    stands_in_rest(s, f, 1, i - 1);
                    assert(covers(rest, f, i - 1, k - 1));
                }
                if forall|i: int| !#[trigger] covers(s, f, i, k) {
                    assert forall|i: int| !#[trigger] covers(rest, f, i, k - 1) by {
                        if covers(rest, f, i, k - 1) {
                            stands_in_rest(s, f, 1, i);
                            assert(covers(s, f, i + 1, k));
                        }
                    }
                }
            }
        }
    }
}

/// An exchange leaves every word alone that is apart from both words.
proof fn swap_leaves<A>(s: Seq<A>, f: Seq<A>, t: Seq<A>, v: Seq<A>, x: int)
    requires
        0 < f.len() == t.len(),
        unbordered(f),
        apart(f, v),
        apart(t, v),
    ensures
        rewrite::stands(rewrite::swap(s, f, t), v, x) == rewrite::stands(s, v, x),
{
    let out = rewrite::swap(s, f, t);
    rewrite::swap_keeps_length(s, f, t);
    if 0 <= x && x + v.len() <= s.len() {
        if rewrite::stands(s, v, x) {
            assert forall|k: int| x <= k < x + v.len() implies #[trigger] out[k] == v[k - x] by {
                swap_at(s, f, t, k);
                assert forall|i: int| !#[trigger] covers(s, f, i, k) by {
                    if covers(s, f, i, k) {
                        apart_is_disjoint(s, f, v, i, x, k);
                    }
                }
                stands_gives(s, v, x, k);
            }
            gives_stands(out, v, x);
        }
        if rewrite::stands(out, v, x) {
            assert forall|k: int| x <= k < x + v.len() implies #[trigger] s[k] == v[k - x] by {
                swap_at(s, f, t, k);
                assert forall|i: int| !#[trigger] covers(s, f, i, k) by {
                    if covers(s, f, i, k) {
                        put_in_stands(s, f, t, i);
                        assert(covers(out, t, i, k));
                        apart_is_disjoint(out, t, v, i, x, k);
                    }
                }
                stands_gives(out, v, x, k);
            }
            gives_stands(s, v, x);
        }
    }
}

/// What an exchange puts in stands where the other word stood.
proof fn put_in_stands<A>(s: Seq<A>, f: Seq<A>, t: Seq<A>, i: int)
    requires
        0 < f.len() == t.len(),
        unbordered(f),
        rewrite::stands(s, f, i),
    ensures
        rewrite::stands(rewrite::swap(s, f, t), t, i),
{
    let out = rewrite::swap(s, f, t);
    rewrite::swap_keeps_length(s, f, t);
    assert forall|k: int| i <= k < i + t.len() implies #[trigger] out[k] == t[k - i] by {
        swap_at(s, f, t, k);
        assert(covers(s, f, i, k));
    }
    gives_stands(out, t, i);
}

/// What an exchange puts in stands nowhere else, if it did not stand before.
proof fn put_in_only<A>(s: Seq<A>, f: Seq<A>, t: Seq<A>, x: int)
    requires
        0 < f.len() == t.len(),
        unbordered(f),
        unbordered(t),
        !rewrite::hit(s, t),
        rewrite::stands(rewrite::swap(s, f, t), t, x),
    ensures
        rewrite::stands(s, f, x),
{
    let out = rewrite::swap(s, f, t);
    rewrite::swap_keeps_length(s, f, t);
    if !rewrite::stands(s, f, x) {
        assert forall|k: int| x <= k < x + t.len() implies #[trigger] s[k] == t[k - x] by {
            swap_at(s, f, t, k);
            assert forall|i: int| !#[trigger] covers(s, f, i, k) by {
                if covers(s, f, i, k) {
                    put_in_stands(s, f, t, i);
                    assert(covers(out, t, i, k));
                    assert(covers(out, t, x, k));
                    one_cover(out, t, i, x, k);
                }
            }
            stands_gives(out, t, x, k);
        }
        gives_stands(s, t, x);
        assert(rewrite::hit(s, t));
    }
}

/// Fewer exchanges of words that are apart are apart.
proof fn part_apart<A>(ps: Seq<(Seq<A>, Seq<A>)>, qs: Seq<(Seq<A>, Seq<A>)>, off: int)
    requires
        words_apart(ps),
        rewrite::same_lengths(ps),
        0 <= off,
        off + qs.len() <= ps.len(),
        forall|i: int| 0 <= i < qs.len() ==> #[trigger] qs[i] == ps[i + off],
    ensures
        words_apart(qs),
        rewrite::same_lengths(qs),
{
    assert forall|i: int| 0 <= i < qs.len() implies unbordered((#[trigger] qs[i]).0) && unbordered(
        qs[i].1,
    ) && 0 < qs[i].0.len() && qs[i].0.len() == qs[i].1.len() by {
        assert(qs[i] == ps[i + off]);
    }
    assert forall|i: int, j: int| 0 <= i < qs.len() && 0 <= j < qs.len() implies apart(
        (#[trigger] qs[i]).0,
        (#[trigger] qs[j]).1,
    ) by {
        assert(qs[i] == ps[i + off] && qs[j] == ps[j + off]);
    }
    assert forall|i: int, j: int|
        0 <= i < qs.len() && 0 <= j < qs.len() && i != j implies apart(
        (#[trigger] qs[i]).0,
        (#[trigger] qs[j]).0,
    ) && apart(qs[i].1, qs[j].1) by {
        assert(qs[i] == ps[i + off] && qs[j] == ps[j + off]);
    }
}

/// A word is apart from all words of the exchanges.
pub open spec fn apart_from_all<A>(ps: Seq<(Seq<A>, Seq<A>)>, v: Seq<A>) -> bool {
    forall|i: int| 0 <= i < ps.len() ==> apart((#[trigger] ps[i]).0, v) && apart(ps[i].1, v)
}

/// Exchanges leave every word alone that is apart from all of theirs.
proof fn swap_all_leaves<A>(s: Seq<A>, ps: Seq<(Seq<A>, Seq<A>)>, v: Seq<A>, x: int)
    requires
        rewrite::same_lengths(ps),
        words_apart(ps),
        apart_from_all(ps, v),
    ensures
        rewrite::stands(rewrite::swap_all(s, ps), v, x) == rewrite::stands(s, v, x),
    decreases ps.len(),
{
    if ps.len() > 0 {
        let front = ps.drop_last();
        part_apart(ps, front, 0);
        assert forall|i: int| 0 <= i < front.len() implies apart((#[trigger] front[i]).0, v)
            && apart(front[i].1, v) by {
            assert(front[i] == ps[i]);
        }
        swap_all_leaves(s, front, v, x);
        let n = ps.len() - 1;
        assert(ps[n] == ps.last());
        swap_leaves(rewrite::swap_all(s, front), ps.last().0, ps.last().1, v, x);
    }
}

/// What exchanges leave at a position: the word put in where another one
/// stood, and what was there everywhere else.
proof fn swap_all_at<A>(s: Seq<A>, ps: Seq<(Seq<A>, Seq<A>)>, k: int)
    requires
        rewrite::same_lengths(ps),
        words_apart(ps),
        0 <= k < s.len(),
    ensures
        rewrite::swap_all(s, ps).len() == s.len(),
        forall|i: int, j: int|
            0 <= i < ps.len() && #[trigger] covers(s, ps[i].0, j, k) ==> rewrite::swap_all(
                s,
                ps,
            )[k] == ps[i].1[k - j],
        (forall|i: int, j: int|
            0 <= i < ps.len() ==> !#[trigger] covers(s, ps[i].0, j, k)) ==> rewrite::swap_all(
            s,
            ps,
        )[k] == s[k],
    decreases ps.len(),
{
    rewrite::swap_all_keeps_length(s, ps);
    if ps.len() > 0 {
        let front = ps.drop_last();
        let n = ps.len() - 1;
        let f = ps[n].0;
        let t = ps[n].1;
        let cur = rewrite::swap_all(s, front);
        let out = rewrite::swap_all(s, ps);
        assert(out == rewrite::swap(cur, f, t));
        part_apart(ps, front, 0);
        swap_all_at(s, front, k);
        swap_at(cur, f, t, k);
        assert forall|i: int| 0 <= i < front.len() implies apart((#[trigger] front[i]).0, f)
            && apart(front[i].1, f) by {
            assert(front[i] == ps[i]);
            assert(apart(ps[i].0, ps[n].0));
            assert(apart(ps[n].0, ps[i].1));
        }
        assert forall|x: int| rewrite::stands(cur, f, x) == #[trigger] rewrite::stands(s, f, x) by {
            swap_all_leaves(s, front, f, x);
        }
        assert forall|i: int, j: int|
            0 <= i < ps.len() && #[trigger] covers(s, ps[i].0, j, k) implies out[k] == ps[i].1[k
            - j] by {
            if i == n {
                assert(rewrite::stands(s, f, j));
                assert(covers(cur, f, j, k));
            } else {
                assert(front[i] == ps[i]);
                assert(covers(s, front[i].0, j, k));
                assert forall|x: int| !#[trigger] covers(cur, f, x, k) by {
                    if covers(cur, f, x, k) {
                        assert(rewrite::stands(s, f, x));
                        apart_is_disjoint(s, ps[i].0, f, j, x, k);
                    }
                }
            }
        }
        if forall|i: int, j: int| 0 <= i < ps.len() ==> !#[trigger] covers(s, ps[i].0, j, k) {
            assert forall|i: int, j: int|
                0 <= i < front.len() implies !#[trigger] covers(s, front[i].0, j, k) by {
                assert(front[i] == ps[i]);
                assert(!covers(s, ps[i].0, j, k));
            }
            assert forall|x: int| !#[trigger] covers(cur, f, x, k) by {
                if covers(cur, f, x, k) {
                    assert(rewrite::stands(s, f, x));
                    assert(covers(s, ps[n].0, x, k));
                }
            }
        }
    }
}

/// Exchanges of words that are apart do not get in each other's way, if none
/// of the words that they put in stands in the sequence.
pub proof fn apart_is_reversible<A>(s: Seq<A>, ps: Seq<(Seq<A>, Seq<A>)>)
    requires
        rewrite::same_lengths(ps),
        words_apart(ps),
        forall|i: int| 0 <= i < ps.len() ==> !rewrite::hit(s, (#[trigger] ps[i]).1),
    ensures
        rewrite::reversible(s, ps),
    decreases ps.len(),
{
    if ps.len() > 0 {
        let f = ps[0].0;
        let t = ps[0].1;
        let rest = ps.drop_first();
        let others = rewrite::swap_all(s, rest);
        let first = rewrite::swap(s, f, t);
        let a = rewrite::swap_all(first, rest);
        let b = rewrite::swap(others, f, t);
        part_apart(ps, rest, 1);
        assert forall|i: int| 0 <= i < rest.len() implies !rewrite::hit(
            s,
            (#[trigger] rest[i]).1,
        ) by {
            assert(rest[i] == ps[i + 1]);
        }
        apart_is_reversible(s, rest);
        rewrite::swap_keeps_length(s, f, t);
        rewrite::swap_all_keeps_length(s, rest);
        rewrite::swap_all_keeps_length(first, rest);
        rewrite::swap_keeps_length(others, f, t);
        assert forall|i: int| 0 <= i < rest.len() implies apart((#[trigger] rest[i]).0, f)
            && apart(rest[i].1, f) && apart(rest[i].0, t) && apart(rest[i].1, t) by {
            assert(rest[i] == ps[i + 1]);
            assert(apart(ps[i + 1].0, ps[0].0));
            assert(apart(ps[0].0, ps[i + 1].1));
            assert(apart(ps[i + 1].0, ps[0].1));
            assert(apart(ps[i + 1].1, ps[0].1));
        }
        assert forall|x: int| rewrite::stands(others, f, x) == #[trigger] rewrite::stands(
            s,
            f,
            x,
        ) by {
            swap_all_leaves(s, rest, f, x);
        }
        assert forall|i: int, x: int| 0 <= i < rest.len() implies rewrite::stands(
            first,
            rest[i].0,
            x,
        ) == #[trigger] rewrite::stands(s, rest[i].0, x) by {
            assert(apart(rest[i].0, f));
            swap_leaves(s, f, t, rest[i].0, x);
        }
        assert forall|k: int| 0 <= k < s.len() implies #[trigger] a[k] == b[k] by {
            one_position(s, f, t, rest, k);
        }
        assert(a =~= b);
        assert(!rewrite::hit(others, t)) by {
            if rewrite::hit(others, t) {
                let x = choose|x: int| rewrite::stands(others, t, x);
                swap_all_leaves(s, rest, t, x);
                assert(rewrite::stands(s, t, x));
                assert(rewrite::hit(s, ps[0].1));
            }
        }
        assert forall|i: int| rewrite::stands(b, t, i) implies #[trigger] rewrite::lands(
            others,
            f,
            i,
        ) by {
            put_in_only(others, f, t, i);
            standing_lands(others, f, i);
        }
    }
}

/// Whether one exchange comes before the others or behind them makes no
/// difference at a position.
proof fn one_position<A>(
    s: Seq<A>,
    f: Seq<A>,
    t: Seq<A>,
    rest: Seq<(Seq<A>, Seq<A>)>,
    k: int,
)
    requires
        0 <= k < s.len(),
        0 < f.len() == t.len(),
        unbordered(f),
        rewrite::same_lengths(rest),
        words_apart(rest),
        forall|i: int| 0 <= i < rest.len() ==> apart((#[trigger] rest[i]).0, f),
        forall|x: int|
            rewrite::stands(rewrite::swap_all(s, rest), f, x) == #[trigger] rewrite::stands(
                s,
                f,
                x,
            ),
        forall|i: int, x: int|
            0 <= i < rest.len() ==> rewrite::stands(rewrite::swap(s, f, t), rest[i].0, x)
                == #[trigger] rewrite::stands(s, rest[i].0, x),
    ensures
        rewrite::swap_all(rewrite::swap(s, f, t), rest)[k] == rewrite::swap(
            rewrite::swap_all(s, rest),
            f,
            t,
        )[k],
{
    let first = rewrite::swap(s, f, t);
    let others = rewrite::swap_all(s, rest);
    let a = rewrite::swap_all(first, rest);
    let b = rewrite::swap(others, f, t);
    rewrite::swap_keeps_length(s, f, t);
    rewrite::swap_all_keeps_length(s, rest);
    swap_at(s, f, t, k);
    swap_all_at(s, rest, k);
    swap_all_at(first, rest, k);
    swap_at(others, f, t, k);
    if exists|i: int, j: int| 0 <= i < rest.len() && #[trigger] covers(s, rest[i].0, j, k) {
        let (i, j) = choose|i: int, j: int|
            0 <= i < rest.len() && #[trigger] covers(s, rest[i].0, j, k);
        assert(rewrite::stands(s, rest[i].0, j));
        assert(covers(first, rest[i].0, j, k));
        assert forall|x: int| !#[trigger] covers(others, f, x, k) by {
            if covers(others, f, x, k) {
                assert(rewrite::stands(s, f, x));
                apart_is_disjoint(s, rest[i].0, f, j, x, k);
            }
        }
    } else {
        assert forall|i: int, j: int| 0 <= i < rest.len() implies !#[trigger] covers(
            first,
            rest[i].0,
            j,
            k,
        ) by {
            if covers(first, rest[i].0, j, k) {
                assert(rewrite::stands(s, rest[i].0, j));
                assert(covers(s, rest[i].0, j, k));
            }
        }
        assert forall|i: int, j: int| 0 <= i < rest.len() implies !#[trigger] covers(
            s,
            rest[i].0,
            j,
            k,
        ) by {}
        if exists|x: int| #[trigger] covers(s, f, x, k) {
            let x = choose|x: int| #[trigger] covers(s, f, x, k);
            assert(rewrite::stands(s, f, x));
            assert(covers(others, f, x, k));
        } else {
            assert forall|x: int| !#[trigger] covers(others, f, x, k) by {
                if covers(others, f, x, k) {
                    assert(rewrite::stands(s, f, x));
                    assert(covers(s, f, x, k));
                }
            }
        }
    }
}

} // verus!
