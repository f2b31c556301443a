//! Rewriting of paths inside command lines and file contents: one output path
//! for a placeholder of the same length and back, and absolute paths of the
//! build tree for relative ones.
use crate::outside;
use crate::path;
use crate::text;
use crate::text::Class;
use crate::views;
use vstd::prelude::*;
use vstd::utf8::encode_utf8;

verus! {

broadcast use {views::texts_push, views::pieces_push, views::pairs_push};

// ---------------------------------------------------------------------------
// Exchanging one sequence for another
// ---------------------------------------------------------------------------

/// Every occurrence of `f`, taken from the left without overlap, exchanged for `t`.
pub open spec fn swap<A>(s: Seq<A>, f: Seq<A>, t: Seq<A>) -> Seq<A>
    decreases s.len(),
{
    if f.len() == 0 || s.len() < f.len() {
        s
    } else if s.take(f.len() as int) == f {
        t + swap(s.skip(f.len() as int), f, t)
    } else {
        seq![s[0]] + swap(s.skip(1), f, t)
    }
}

/// `f` stands in `s` at `i`.
pub open spec fn stands<A>(s: Seq<A>, f: Seq<A>, i: int) -> bool {
    0 <= i && i + f.len() <= s.len() && s.subrange(i, i + f.len()) == f
}

/// `f` stands somewhere in `s`.
pub open spec fn hit<A>(s: Seq<A>, f: Seq<A>) -> bool {
    exists|i: int| stands(s, f, i)
}

/// The exchange of `f` takes place at `i`.
pub open spec fn lands<A>(s: Seq<A>, f: Seq<A>, i: int) -> bool
    decreases s.len(),
{
    if f.len() == 0 || s.len() < f.len() {
        false
    } else if s.take(f.len() as int) == f {
        i == 0 || (i >= f.len() && lands(s.skip(f.len() as int), f, i - f.len()))
    } else {
        i >= 1 && lands(s.skip(1), f, i - 1)
    }
}

/// Several exchanges, one after the other.
pub open spec fn swap_all<A>(s: Seq<A>, ps: Seq<(Seq<A>, Seq<A>)>) -> Seq<A>
    decreases ps.len(),
{
    if ps.len() == 0 {
        s
    } else {
        swap(swap_all(s, ps.drop_last()), ps.last().0, ps.last().1)
    }
}

/// One of the exchanges finds something when its turn comes.
pub open spec fn any_hit<A>(s: Seq<A>, ps: Seq<(Seq<A>, Seq<A>)>) -> bool
    decreases ps.len(),
{
    ps.len() > 0 && (any_hit(s, ps.drop_last()) || hit(swap_all(s, ps.drop_last()), ps.last().0))
}

/// The exchanges the other way round.
pub open spec fn flipped<A>(ps: Seq<(Seq<A>, Seq<A>)>) -> Seq<(Seq<A>, Seq<A>)> {
    ps.map_values(|p: (Seq<A>, Seq<A>)| (p.1, p.0))
}

/// Each exchange keeps the length, and none is of nothing.
pub open spec fn same_lengths<A>(ps: Seq<(Seq<A>, Seq<A>)>) -> bool {
    forall|i: int|
        0 <= i < ps.len() ==> 0 < (#[trigger] ps[i]).0.len() && ps[i].0.len() == ps[i].1.len()
}

/// Nothing of `f` is left of the first occurrence.
pub proof fn swap_peel<A>(s: Seq<A>, f: Seq<A>, t: Seq<A>, n: int)
    requires
        f.len() > 0,
        0 <= n <= s.len(),
        forall|j: int| 0 <= j < n ==> !stands(s, f, j),
    ensures
        swap(s, f, t) == s.take(n) + swap(s.skip(n), f, t),
    decreases n,
{
    if n == 0 {
        assert(s.skip(0) =~= s);
        assert(s.take(0) + swap(s, f, t) =~= swap(s, f, t));
    } else if s.len() < f.len() {
        assert(s.take(n) + s.skip(n) =~= s);
    } else {
        assert(!stands(s, f, 0));
        assert(s.subrange(0, f.len() as int) =~= s.take(f.len() as int));
        let r = s.skip(1);
        assert forall|j: int| 0 <= j < n - 1 implies !stands(r, f, j) by {
            if stands(r, f, j) {
                assert(r.subrange(j, j + f.len()) =~= s.subrange(j + 1, j + 1 + f.len()));
                assert(stands(s, f, j + 1));
            }
        }
        swap_peel(r, f, t, n - 1);
        assert(r.skip(n - 1) =~= s.skip(n));
        assert(seq![s[0]] + (r.take(n - 1) + swap(s.skip(n), f, t)) =~= s.take(n) + swap(
            s.skip(n),
            f,
            t,
        ));
    }
}

/// Where nothing stands, nothing is exchanged.
pub proof fn swap_of_nothing<A>(s: Seq<A>, f: Seq<A>, t: Seq<A>)
    requires
        !hit(s, f),
    ensures
        swap(s, f, t) == s,
{
    if f.len() > 0 {
        swap_peel(s, f, t, s.len() as int);
        assert(s.skip(s.len() as int) =~= Seq::<A>::empty());
        assert(s.take(s.len() as int) + Seq::<A>::empty() =~= s);
    }
}

/// Replacing a text that is not empty is the exchange.
pub proof fn replace_is_swap(s: Seq<char>, f: Seq<char>, t: Seq<char>)
    requires
        f.len() > 0,
    ensures
        text::replace(s, f, t) == swap(s, f, t),
    decreases s.len(),
{
    text::find_from_first(s, f, 0);
    match text::find(s, f) {
        Some(i) => {
            assert forall|j: int| 0 <= j < i implies !stands(s, f, j) by {
                assert(!text::occurs_at(s, f, j));
            }
            swap_peel(s, f, t, i);
            let r = s.skip(i);
            assert(r.take(f.len() as int) =~= s.subrange(i, i + f.len()));
            assert(r.skip(f.len() as int) =~= s.skip(i + f.len()));
            replace_is_swap(s.skip(i + f.len()), f, t);
            assert(s.take(i) + (t + swap(s.skip(i + f.len()), f, t)) =~= s.take(i) + t + swap(
                s.skip(i + f.len()),
                f,
                t,
            ));
        },
        None => {
            assert forall|j: int| !stands(s, f, j) by {
                if stands(s, f, j) {
                    assert(text::occurs_at(s, f, j));
                }
            }
            swap_of_nothing(s, f, t);
        },
    }
}

/// Exchanges in two runs are the exchanges in one.
proof fn swap_all_concat<A>(
    s: Seq<A>,
    a: Seq<(Seq<A>, Seq<A>)>,
    b: Seq<(Seq<A>, Seq<A>)>,
)
    ensures
        swap_all(s, a + b) == swap_all(swap_all(s, a), b),
    decreases b.len(),
{
    if b.len() == 0 {
        assert(a + b =~= a);
    } else {
        swap_all_concat(s, a, b.drop_last());
        assert((a + b).drop_last() =~= a + b.drop_last());
        assert((a + b).last() == b.last());
    }
}

/// An exchange of equal lengths keeps the length.
pub proof fn swap_keeps_length<A>(s: Seq<A>, f: Seq<A>, t: Seq<A>)
    requires
        f.len() == t.len(),
    ensures
        swap(s, f, t).len() == s.len(),
    decreases s.len(),
{
    if f.len() == 0 || s.len() < f.len() {
    } else if s.take(f.len() as int) == f {
        swap_keeps_length(s.skip(f.len() as int), f, t);
    } else {
        swap_keeps_length(s.skip(1), f, t);
    }
}

/// Exchanges of equal lengths keep the length.
pub proof fn swap_all_keeps_length<A>(s: Seq<A>, ps: Seq<(Seq<A>, Seq<A>)>)
    requires
        same_lengths(ps),
    ensures
        swap_all(s, ps).len() == s.len(),
    decreases ps.len(),
{
    if ps.len() > 0 {
        let front = ps.drop_last();
        assert forall|i: int| 0 <= i < front.len() implies 0 < (#[trigger] front[i]).0.len()
            && front[i].0.len() == front[i].1.len() by {
            assert(front[i] == ps[i]);
        }
        swap_all_keeps_length(s, front);
        assert(ps[ps.len() - 1] == ps.last());
        swap_keeps_length(swap_all(s, front), ps.last().0, ps.last().1);
    }
}

/// An exchange is undone by the exchange the other way round, provided that
/// what was put in stands in the result only where it was put.
pub proof fn swap_undone<A>(s: Seq<A>, f: Seq<A>, t: Seq<A>)
    requires
        0 < f.len() == t.len(),
        forall|i: int| stands(swap(s, f, t), t, i) ==> #[trigger] lands(s, f, i),
    ensures
        swap(swap(s, f, t), t, f) == s,
    decreases s.len(),
{
    let out = swap(s, f, t);
    let n = f.len() as int;
    if s.len() < f.len() {
    } else if s.take(n) == f {
        let rest = s.skip(n);
        let tail = swap(rest, f, t);
        assert(out.take(n) =~= t);
        assert(out.skip(n) =~= tail);
        assert forall|i: int| stands(tail, t, i) implies #[trigger] lands(rest, f, i) by {
            assert(tail.subrange(i, i + n) =~= out.subrange(i + n, i + n + n));
            assert(stands(out, t, i + n));
            assert(lands(s, f, i + n));
        }
        swap_undone(rest, f, t);
        assert(f + rest =~= s);
    } else {
        let rest = s.skip(1);
        let tail = swap(rest, f, t);
        assert(out.skip(1) =~= tail);
        swap_keeps_length(rest, f, t);
        if out.take(n) == t {
            assert(out.subrange(0, 0 + n) =~= out.take(n));
            assert(stands(out, t, 0));
            assert(lands(s, f, 0));
        }
        assert forall|i: int| stands(tail, t, i) implies #[trigger] lands(rest, f, i) by {
            assert(tail.subrange(i, i + n) =~= out.subrange(i + 1, i + 1 + n));
            assert(stands(out, t, i + 1));
            assert(lands(s, f, i + 1));
        }
        swap_undone(rest, f, t);
        assert(seq![s[0]] + rest =~= s);
    }
}

/// The exchanges do not get in each other's way: the first one gives the same
/// before and after the others, and what it puts in stands only where it was put.
pub open spec fn reversible<A>(s: Seq<A>, ps: Seq<(Seq<A>, Seq<A>)>) -> bool
    decreases ps.len(),
{
    ps.len() == 0 || {
        let f = ps[0].0;
        let t = ps[0].1;
        let rest = ps.drop_first();
        let others = swap_all(s, rest);
        &&& swap_all(swap(s, f, t), rest) == swap(others, f, t)
        &&& forall|i: int| stands(swap(others, f, t), t, i) ==> #[trigger] lands(others, f, i)
        &&& reversible(s, rest)
    }
}

/// Exchanges that do not get in each other's way are undone by the same
/// exchanges the other way round, in the same order.
pub proof fn swap_all_undone<A>(s: Seq<A>, ps: Seq<(Seq<A>, Seq<A>)>)
    requires
        same_lengths(ps),
        reversible(s, ps),
    ensures
        swap_all(swap_all(s, ps), flipped(ps)) == s,
    decreases ps.len(),
{
    if ps.len() == 0 {
        assert(flipped(ps) =~= ps);
    } else {
        let f = ps[0].0;
        let t = ps[0].1;
        let rest = ps.drop_first();
        let others = swap_all(s, rest);
        let one = seq![(f, t)];
        assert forall|i: int| 0 <= i < rest.len() implies 0 < (#[trigger] rest[i]).0.len()
            && rest[i].0.len() == rest[i].1.len() by {
            assert(rest[i] == ps[i + 1]);
        }
        assert(one + rest =~= ps);
        swap_all_concat(s, one, rest);
        reveal_with_fuel(swap_all, 2);
        assert(one.drop_last() =~= Seq::<(Seq<A>, Seq<A>)>::empty());
        assert(swap_all(s, one) == swap(s, f, t));
        let out = swap_all(s, ps);
        assert(out == swap(others, f, t));
        let back = seq![(t, f)];
        assert(flipped(ps) =~= back + flipped(rest));
        swap_all_concat(out, back, flipped(rest));
        assert(back.drop_last() =~= Seq::<(Seq<A>, Seq<A>)>::empty());
        assert(swap_all(out, back) == swap(out, t, f));
        assert(ps[0] == ps[0]);
        swap_undone(others, f, t);
        swap_all_undone(s, rest);
    }
}

// ---------------------------------------------------------------------------
// Rewriting strings and bytes by a map
// ---------------------------------------------------------------------------

/// Each pair of the map replaced in turn.
pub open spec fn rewritten(s: Seq<char>, map: Seq<(Seq<char>, Seq<char>)>) -> Seq<char>
    decreases map.len(),
{
    if map.len() == 0 {
        s
    } else {
        text::replace(rewritten(s, map.drop_last()), map.last().0, map.last().1)
    }
}

/// Rewriting a text by a map without empty entries is the exchange of its pairs.
pub proof fn rewritten_is_swap_all(s: Seq<char>, map: Seq<(Seq<char>, Seq<char>)>)
    requires
        forall|i: int| 0 <= i < map.len() ==> 0 < (#[trigger] map[i]).0.len(),
    ensures
        rewritten(s, map) == swap_all(s, map),
    decreases map.len(),
{
    if map.len() > 0 {
        let front = map.drop_last();
        assert forall|i: int| 0 <= i < front.len() implies 0 < (#[trigger] front[i]).0.len() by {
            assert(front[i] == map[i]);
        }
        rewritten_is_swap_all(s, front);
        assert(map[map.len() - 1] == map.last());
        replace_is_swap(rewritten(s, front), map.last().0, map.last().1);
    }
}

/// A text with each pair of the map replaced in turn.
pub fn rewrite_str(s: &str, map: &[(String, String)]) -> (r: String)
    ensures
        r@ == rewritten(s@, views::pairs(map@)),
{
    let ghost all = views::pairs(map@);
    let mut out = text::chars_of(s);
    for i in 0..map.len()
        invariant
            all == views::pairs(map@),
            out@ == rewritten(s@, all.take(i as int)),
    {
        proof {
            assert(all.take(i + 1).drop_last() =~= all.take(i as int));
            assert(all.take(i + 1).last() == all[i as int]);
        }
        let from = text::chars_of(map[i].0.as_str());
        let to = text::chars_of(map[i].1.as_str());
        out = text::replaced(&out, &from, &to);
    }
    assert(all.take(all.len() as int) =~= all);
    text::string_of(&out)
}

/// The pairs of a map as bytes.
pub open spec fn byte_pairs(map: Seq<(Seq<char>, Seq<char>)>) -> Seq<(Seq<u8>, Seq<u8>)> {
    map.map_values(|p: (Seq<char>, Seq<char>)| (encode_utf8(p.0), encode_utf8(p.1)))
}

/// Whether the bytes `f` stand in `v` at `i`.
fn bytes_at(v: &Vec<u8>, f: &[u8], i: usize) -> (r: bool)
    requires
        i + f@.len() <= v@.len(),
    ensures
        r == stands(v@, f@, i as int),
{
    let n: usize = v.len();
    for j in 0..f.len()
        invariant
            n == v@.len(),
            i + f@.len() <= n,
            forall|k: int| 0 <= k < j ==> v@[i + k] == f@[k],
    {
        if v[i + j] != f[j] {
            assert(v@.subrange(i as int, i + f@.len())[j as int] != f@[j as int]);
            return false;
        }
    }
    assert(v@.subrange(i as int, i + f@.len()) =~= f@);
    true
}

/// Exchanges `f` for `t` in place and tells whether there was anything to exchange.
fn swap_in(v: &mut Vec<u8>, f: &[u8], t: &[u8]) -> (changed: bool)
    requires
        0 < f@.len() == t@.len(),
    ensures
        final(v)@ == swap(old(v)@, f@, t@),
        changed == hit(old(v)@, f@),
{
    let ghost orig = v@;
    let mut changed = false;
    let mut i: usize = 0;
    proof {
        assert(orig.skip(0) =~= orig);
        assert(v@.take(0) + swap(orig.skip(0), f@, t@) =~= swap(orig, f@, t@));
    }
    while f.len() <= v.len() && i <= v.len() - f.len()
        invariant
            0 < f@.len() == t@.len(),
            v@.len() == orig.len(),
            i <= v@.len(),
            v@.skip(i as int) == orig.skip(i as int),
            swap(orig, f@, t@) == v@.take(i as int) + swap(orig.skip(i as int), f@, t@),
            changed ==> hit(orig, f@),
            !changed ==> forall|j: int| 0 <= j < i ==> !stands(orig, f@, j),
        decreases v.len() - i,
    {
        let ghost rest = orig.skip(i as int);
        let ghost head = v@.take(i as int);
        let ghost cur = v@;
        proof {
            assert(rest.take(f@.len() as int) =~= v@.skip(i as int).take(f@.len() as int));
            assert(v@.skip(i as int).take(f@.len() as int) =~= v@.subrange(
                i as int,
                i + f@.len(),
            ));
            assert(rest.take(f@.len() as int) =~= orig.subrange(i as int, i + f@.len()));
            assert(rest[0] == orig[i as int]);
            assert(v@[i as int] == v@.skip(i as int)[0]);
        }
        if bytes_at(v, f, i) {
            assert(stands(orig, f@, i as int));
            let total: usize = v.len();
            for j in 0..t.len()
                invariant
                    f@.len() == t@.len(),
                    cur.len() == orig.len(),
                    total == cur.len(),
                    i + t@.len() <= total,
                    v@ == cur.take(i as int) + t@.take(j as int) + cur.skip(i + j),
            {
                v.set(i + j, t[j]);
                assert(v@ =~= cur.take(i as int) + t@.take(j + 1) + cur.skip(i + j + 1));
            }
            changed = true;
            proof {
                let n = f@.len() as int;
                assert(t@.take(n) =~= t@);
                assert(v@ =~= head + t@ + cur.skip(i + n));
                assert(v@.skip(i + n) =~= cur.skip(i + n));
                assert(cur.skip(i + n) =~= cur.skip(i as int).skip(n));
                assert(rest.skip(n) =~= orig.skip(i + n));
                assert(v@.take(i + n) =~= head + t@);
                assert(head + (t@ + swap(orig.skip(i + n), f@, t@)) =~= head + t@ + swap(
                    orig.skip(i + n),
                    f@,
                    t@,
                ));
            }
            i += f.len();
        } else {
            proof {
                assert(rest.skip(1) =~= orig.skip(i + 1));
                assert(v@.skip(i + 1) =~= v@.skip(i as int).skip(1));
                assert(v@.take(i + 1) =~= head + seq![v@[i as int]]);
                assert(head + (seq![rest[0]] + swap(orig.skip(i + 1), f@, t@)) =~= head
                    + seq![rest[0]] + swap(orig.skip(i + 1), f@, t@));
            }
            i += 1;
        }
    }
    proof {
        assert(swap(orig.skip(i as int), f@, t@) == orig.skip(i as int));
        assert(v@.take(i as int) + v@.skip(i as int) =~= v@);
        if !changed {
            assert forall|j: int| !stands(orig, f@, j) by {
                if j >= i && j + f@.len() <= orig.len() {
                }
            }
        }
    }
    changed
}

/// The bytes with each pair of the map exchanged in turn, where one is found;
/// nothing where none is. The pairs keep the length, so offsets in the data stay valid.
pub fn rewrite_bytes(data: &[u8], map: &[(String, String)]) -> (r: Option<Vec<u8>>)
    requires
        same_lengths(byte_pairs(views::pairs(map@))),
    ensures
        match r {
            Some(v) => any_hit(data@, byte_pairs(views::pairs(map@))) && v@ == swap_all(
                data@,
                byte_pairs(views::pairs(map@)),
            ) && v@.len() == data@.len(),
            None => !any_hit(data@, byte_pairs(views::pairs(map@))),
        },
{
    let ghost all = byte_pairs(views::pairs(map@));
    let mut out: Vec<u8> = Vec::new();
    for i in 0..data.len()
        invariant
            out@ == data@.take(i as int),
    {
        out.push(data[i]);
    }
    assert(data@.take(data@.len() as int) =~= data@);
    let mut changed = false;
    for i in 0..map.len()
        invariant
            all == byte_pairs(views::pairs(map@)),
            same_lengths(all),
            out@ == swap_all(data@, all.take(i as int)),
            changed == any_hit(data@, all.take(i as int)),
    {
        proof {
            assert(all.take(i + 1).drop_last() =~= all.take(i as int));
            assert(all.take(i + 1).last() == all[i as int]);
            assert(0 < all[i as int].0.len() && all[i as int].0.len() == all[i as int].1.len());
        }
        let f = map[i].0.as_str().as_bytes();
        let t = map[i].1.as_str().as_bytes();
        assert(f@ == all[i as int].0 && t@ == all[i as int].1);
        let c = swap_in(&mut out, f, t);
        changed = changed || c;
    }
    proof {
        assert(all.take(all.len() as int) =~= all);
        swap_all_keeps_length(data@, all);
    }
    if changed {
        Some(out)
    } else {
        None
    }
}

// ---------------------------------------------------------------------------
// Paths of the build tree
// ---------------------------------------------------------------------------

/// A character with which a path goes on.
pub open spec fn goes_on(c: char) -> bool {
    c == '/' || c == '.' || c == '-' || c == '_' || outside::alphanumeric(c)
}

/// Every occurrence of `needle` at which the path ends, replaced by `to`.
pub open spec fn token_replaced(h: Seq<char>, needle: Seq<char>, to: Seq<char>) -> Seq<char>
    decreases h.len(),
{
    if needle.len() == 0 {
        h
    } else {
        match text::find(h, needle) {
            Some(i) => if 0 <= i && i + needle.len() <= h.len() {
                let after = h.skip(i + needle.len());
                let put = if after.len() > 0 && goes_on(after[0]) {
                    needle
                } else {
                    to
                };
                h.take(i) + put + token_replaced(after, needle, to)
            } else {
                h
            },
            None => h,
        }
    }
}

fn token_replace(haystack: &Vec<char>, needle: &Vec<char>, to: &Vec<char>) -> (r: Vec<char>)
    ensures
        r@ == token_replaced(haystack@, needle@, to@),
{
    if needle.len() == 0 {
        return text::copy(haystack);
    }
    let mut out: Vec<char> = Vec::new();
    let mut rest = text::copy(haystack);
    assert(out@ + token_replaced(rest@, needle@, to@) =~= token_replaced(haystack@, needle@, to@));
    loop
        invariant
            needle@.len() > 0,
            token_replaced(haystack@, needle@, to@) == out@ + token_replaced(
                rest@,
                needle@,
                to@,
            ),
        decreases rest@.len(),
    {
        let ghost before = out@;
        match text::search(&rest, needle) {
            Some(i) => {
                let ghost old_rest = rest@;
                let n: usize = rest.len();
                assert(i + needle@.len() <= n);
                let h = text::head(&rest, i);
                let after = text::tail(&rest, i + needle.len());
                let more = after.len() > 0 && (after[0] == '/' || after[0] == '.' || after[0] == '-'
                    || after[0] == '_' || outside::is_alphanumeric(after[0]));
                text::append(&mut out, &h);
                if more {
                    text::append(&mut out, needle);
                } else {
                    text::append(&mut out, to);
                }
                proof {
                    let put = if more {
                        needle@
                    } else {
                        to@
                    };
                    assert(out@ + token_replaced(after@, needle@, to@) =~= before + (
                    old_rest.take(i as int) + put + token_replaced(after@, needle@, to@)));
                }
                rest = after;
            },
            None => {
                text::append(&mut out, &rest);
                return out;
            },
        }
    }
}

/// A path replaced where it stands as a whole: not where it goes on into a
/// longer name or into a child.
pub fn replace_path_token(haystack: &str, needle: &str, to: &str) -> (r: String)
    ensures
        r@ == token_replaced(haystack@, needle@, to@),
{
    let h = text::chars_of(haystack);
    let n = text::chars_of(needle);
    let t = text::chars_of(to);
    let r = token_replace(&h, &n, &t);
    text::string_of(&r)
}

/// The climb of `n` levels in front of a child.
pub open spec fn climb(n: nat) -> Seq<char> {
    text::repeat("../"@, n)
}

/// The climb of `n` levels on its own.
pub open spec fn bare_climb(n: nat) -> Seq<char> {
    if n == 0 {
        "."@
    } else {
        text::trim_end(climb(n), Class::Only('/'))
    }
}

/// One ancestor directory, `ups` levels up, rewritten: in front of a child,
/// and where it stands as a whole.
pub open spec fn ancestor_rewritten(cmd: Seq<char>, dir: Seq<char>, ups: nat) -> Seq<char> {
    token_replaced(text::replace(cmd, dir + seq!['/'], climb(ups)), dir, bare_climb(ups))
}

/// The directory and its ancestors rewritten, as long as they lie at least two levels below the root.
pub open spec fn ancestors_rewritten(cmd: Seq<char>, dir: Option<Seq<char>>, ups: nat) -> Seq<char>
    decreases
            (match dir {
                Some(d) => path::comps(d).len(),
                None => 0,
            }),
{
    match dir {
        None => cmd,
        Some(d) => if path::comps(d).len() < 3 {
            cmd
        } else {
            proof {
                path::parent_drops_last(d);
            }
            ancestors_rewritten(ancestor_rewritten(cmd, d, ups), path::parent(d), ups + 1)
        },
    }
}

/// Absolute paths of the build tree made relative, as seen from a directory
/// `extra_ups` levels below the build directory.
pub fn rewrite_ancestor_paths_ups(cmdline: &str, build_dir: &str, extra_ups: usize) -> (r: String)
    ensures
        r@ == ancestors_rewritten(cmdline@, Some(build_dir@), extra_ups as nat),
{
    let mut cmd = text::chars_of(cmdline);
    let mut up = text::repeated("../", extra_ups);
    let mut dir = text::chars_of(build_dir);
    let ghost mut ups: nat = extra_ups as nat;
    proof {
        reveal_strlit("../");
        assert(ups > 0 ==> climb(ups) == climb((ups - 1) as nat) + "../"@);
    }
    loop
        invariant
            up@ == climb(ups),
            ups >= extra_ups,
            (up@.len() == 0) == (ups == 0),
            ancestors_rewritten(cmdline@, Some(build_dir@), extra_ups as nat)
                == ancestors_rewritten(cmd@, Some(dir@), ups),
        decreases path::comps(dir@).len(),
    {
        let cs = path::components(&dir);
        assert(path::comps(dir@).len() == cs@.len());
        if cs.len() < 3 {
            return text::string_of(&cmd);
        }
        let mut child = text::copy(&dir);
        child.push('/');
        assert(child@ =~= dir@ + seq!['/']);
        cmd = text::replaced(&cmd, &child, &up);
        let bare = if up.len() == 0 {
            text::chars_of(".")
        } else {
            text::trimmed_end(&up, Class::Only('/'))
        };
        cmd = token_replace(&cmd, &dir, &bare);
        text::append_str(&mut up, "../");
        proof {
            path::parent_drops_last(dir@);
            reveal_strlit("../");
            ups = ups + 1;
        }
        match path::parent_of(&dir) {
            Some(d) => {
                dir = d;
            },
            None => {
                return text::string_of(&cmd);
            },
        }
    }
}

/// Absolute paths of the build tree made relative to the build directory.
pub fn rewrite_ancestor_paths(cmdline: &str, build_dir: &str) -> (r: String)
    ensures
        r@ == ancestors_rewritten(cmdline@, Some(build_dir@), 0),
{
    rewrite_ancestor_paths_ups(cmdline, build_dir, 0)
}

/// How many components name an entry.
pub open spec fn name_count(cs: Seq<Seq<char>>) -> nat
    decreases cs.len(),
{
    if cs.len() == 0 {
        0
    } else if path::is_name(cs.last()) {
        name_count(cs.drop_last()) + 1
    } else {
        name_count(cs.drop_last())
    }
}

/// How many components name an entry.
fn counted(cs: &Vec<Vec<char>>) -> (r: usize)
    ensures
        r == name_count(views::pieces(cs@)),
{
    let ghost all = views::pieces(cs@);
    let mut n: usize = 0;
    for i in 0..cs.len()
        invariant
            all == views::pieces(cs@),
            n <= i,
            n == name_count(all.take(i as int)),
    {
        assert(all.take(i + 1).drop_last() =~= all.take(i as int));
        assert(all.take(i + 1).last() == cs@[i as int]@);
        if path::names(&cs[i]) {
            n += 1;
        }
    }
    assert(all.take(all.len() as int) =~= all);
    n
}

/// How many components of a path name an entry.
pub fn count_names(p: &Vec<char>) -> (r: usize)
    ensures
        r == name_count(path::comps(p@)),
{
    let cs = path::components(p);
    counted(&cs)
}

/// How many levels below its base a relative path ends, where it stays within it.
pub open spec fn depth_of(p: Seq<char>) -> nat {
    name_count(path::settled(p))
}

/// How many levels below its base a relative path ends.
pub fn depth(p: &Vec<char>) -> (r: usize)
    ensures
        r == depth_of(p@),
{
    let cs = path::settled_components(p);
    counted(&cs)
}

/// A command line `cd DIR && TAIL`, as its two parts.
pub open spec fn cd_parts(cmd: Seq<char>) -> Option<(Seq<char>, Seq<char>)> {
    match text::without_prefix(cmd, "cd "@) {
        Some(after) => match text::find(after, " && "@) {
            Some(i) => Some((after.take(i), after.skip(i + " && "@.len()))),
            None => None,
        },
        None => None,
    }
}

/// A command line with the paths of the build tree made relative. Behind a
/// `cd` into the build directory, paths are seen from there; a `cd` to above
/// the build directory is dropped.
pub open spec fn cmdline_rewritten(cmd: Seq<char>, build_dir: Seq<char>) -> Seq<char> {
    let plain = ancestors_rewritten(cmd, Some(build_dir), 0);
    match cd_parts(cmd) {
        None => plain,
        Some((dir, tail)) => {
            let rel = ancestors_rewritten(dir, Some(build_dir), 0);
            if path::is_abs(rel) {
                plain
            } else if path::escapes(rel) {
                ancestors_rewritten(tail, Some(build_dir), 0)
            } else {
                "cd "@ + rel + " && "@ + ancestors_rewritten(
                    tail,
                    Some(build_dir),
                    depth_of(rel),
                )
            }
        },
    }
}

/// A command line with the paths of the build tree made relative.
pub fn rewrite_cmdline(cmdline: &str, build_dir: &str) -> (r: String)
    ensures
        r@ == cmdline_rewritten(cmdline@, build_dir@),
{
    let c = text::chars_of(cmdline);
    if let Some(after) = text::strip_lit(&c, "cd ") {
        let sep = text::chars_of(" && ");
        if let Some(i) = text::search(&after, &sep) {
            let n: usize = after.len();
            assert(i + sep@.len() <= n);
            let dir = text::head(&after, i);
            let tail = text::tail(&after, i + sep.len());
            let ds = text::string_of(&dir);
            let ts = text::string_of(&tail);
            let rel = rewrite_ancestor_paths(ds.as_str(), build_dir);
            let relc = text::chars_of(rel.as_str());
            let rooted = path::absolute(&relc);
            if !rooted && !path::leads_out(&relc) {
                let depth = depth(&relc);
                let mut out = text::chars_of("cd ");
                text::append(&mut out, &relc);
                text::append_str(&mut out, " && ");
                let t = rewrite_ancestor_paths_ups(ts.as_str(), build_dir, depth);
                text::append_str(&mut out, t.as_str());
                return text::string_of(&out);
            }
            if !rooted {
                return rewrite_ancestor_paths(ts.as_str(), build_dir);
            }
        }
    }
    rewrite_ancestor_paths(cmdline, build_dir)
}

/// The path characters that stand right before a position.
pub open spec fn run_before(h: Seq<char>, i: int) -> Seq<char>
    decreases i,
{
    if i <= 0 || i > h.len() || !goes_on(h[i - 1]) {
        Seq::empty()
    } else {
        run_before(h, i - 1).push(h[i - 1])
    }
}

/// An absolute path begins here: no path goes on to here, unless what stands
/// before it is an option whose value it is.
pub open spec fn path_begins(h: Seq<char>, i: int) -> bool {
    let w = run_before(h, i);
    w.len() == 0 || (w[0] == '-' && !w.contains('/'))
}

/// The directory whose name ends here is named as a whole, or with something below it.
pub open spec fn name_ends(h: Seq<char>, i: int) -> bool {
    i >= h.len() || h[i] == '/' || !goes_on(h[i]) || (i > 0 && h[i - 1] == '/')
}

/// The directory stands at `i`, as a path of its own or in front of what lies below it.
pub open spec fn names_dir(h: Seq<char>, dir: Seq<char>, i: int) -> bool {
    path_begins(h, i) && name_ends(h, i + dir.len())
}

/// The text from `i` on in which the directory `dir` is spelled `to`, where it
/// stands as a path of its own or in front of what lies below it.
pub open spec fn moved_from(h: Seq<char>, dir: Seq<char>, to: Seq<char>, i: int) -> Seq<char>
    decreases h.len() - i,
{
    match text::find_from(h, dir, i) {
        Some(k) => if 0 <= i <= k && dir.len() > 0 && k + dir.len() <= h.len() {
            h.subrange(i, k) + (if names_dir(h, dir, k) {
                to
            } else {
                dir
            }) + moved_from(h, dir, to, k + dir.len())
        } else {
            h.skip(i)
        },
        None => h.skip(i),
    }
}

/// The text in which the directory `dir` is spelled `to`. A directory that is
/// named like it in front only, or that lies elsewhere, is left alone.
pub open spec fn moved(h: Seq<char>, dir: Seq<char>, to: Seq<char>) -> Seq<char> {
    moved_from(h, dir, to, 0)
}

fn is_path_char(c: char) -> (r: bool)
    ensures
        r == goes_on(c),
{
    c == '/' || c == '.' || c == '-' || c == '_' || outside::is_alphanumeric(c)
}

fn begins_path(h: &Vec<char>, i: usize) -> (r: bool)
    requires
        i <= h.len(),
    ensures
        r == path_begins(h@, i as int),
{
    let ghost all = run_before(h@, i as int);
    let mut k: usize = i;
    let mut slash = false;
    assert(all =~= run_before(h@, k as int) + h@.subrange(k as int, i as int));
    while k > 0 && is_path_char(h[k - 1])
        invariant
            k <= i <= h.len(),
            all == run_before(h@, i as int),
            all == run_before(h@, k as int) + h@.subrange(k as int, i as int),
            slash == h@.subrange(k as int, i as int).contains('/'),
        decreases k,
    {
        let ghost tail = h@.subrange(k as int, i as int);
        let ghost now = h@.subrange(k - 1, i as int);
        proof {
            assert(now =~= seq![h@[k - 1]] + tail);
            assert(run_before(h@, k as int) + tail =~= run_before(h@, k - 1) + now);
            assert(now.contains('/') == (h@[k - 1] == '/' || tail.contains('/'))) by {
                if now.contains('/') {
                    let j = choose|j: int| 0 <= j < now.len() && now[j] == '/';
                    if j > 0 {
                        assert(tail[j - 1] == '/');
                    }
                }
                if tail.contains('/') {
                    let j = choose|j: int| 0 <= j < tail.len() && tail[j] == '/';
                    assert(now[j + 1] == '/');
                }
                assert(now[0] == h@[k - 1]);
            }
        }
        slash = slash || h[k - 1] == '/';
        k = k - 1;
    }
    assert(run_before(h@, k as int) =~= Seq::<char>::empty());
    assert(all =~= h@.subrange(k as int, i as int));
    k == i || (h[k] == '-' && !slash)
}

/// A file's contents with the build directory as the sandbox knows it; the
/// paths stay absolute. Only the build directory and what lies below it is
/// spelled anew.
pub fn rewrite_to_sandbox_build_dir(contents: &str, build_dir: &str) -> (r: String)
    ensures
        r@ == moved(contents@, build_dir@, path::sandboxed(build_dir@)),
{
    let h = text::chars_of(contents);
    let d = text::chars_of(build_dir);
    let s = path::sandbox_build_dir(build_dir);
    let t = text::chars_of(s.as_str());
    if d.len() == 0 {
        proof {
            text::find_from_first(h@, d@, 0);
            assert(h@.skip(0) =~= h@);
        }
        return text::string_of(&h);
    }
    let ghost want = moved(h@, d@, t@);
    let mut out: Vec<char> = Vec::new();
    let mut i: usize = 0;
    assert(out@ + moved_from(h@, d@, t@, 0) =~= want);
    loop
        invariant_except_break
            i <= h.len(),
            d.len() > 0,
            want == moved(h@, d@, t@),
            want == out@ + moved_from(h@, d@, t@, i as int),
        ensures
            want == out@,
        decreases h.len() - i,
    {
        let ghost before = out@;
        proof {
            text::find_from_first(h@, d@, i as int);
        }
        match text::search_from(&h, &d, i) {
            Some(k) => {
                let piece = text::cut(&h, i, k);
                let e: usize = k + d.len();
                let ends = e >= h.len() || h[e] == '/' || !is_path_char(h[e]) || h[e - 1] == '/';
                let named = begins_path(&h, k) && ends;
                text::append(&mut out, &piece);
                if named {
                    text::append(&mut out, &t);
                } else {
                    text::append(&mut out, &d);
                }
                proof {
                    let put = if named {
                        t@
                    } else {
                        d@
                    };
                    assert(out@ + moved_from(h@, d@, t@, e as int) =~= before + (h@.subrange(
                        i as int,
                        k as int,
                    ) + put + moved_from(h@, d@, t@, e as int)));
                }
                i = e;
            },
            None => {
                let rest = text::tail(&h, i);
                text::append(&mut out, &rest);
                break ;
            },
        }
    }
    text::string_of(&out)
}

// ---------------------------------------------------------------------------
// Laws
// ---------------------------------------------------------------------------

/// A directory whose name only begins like the one that is replaced is left
/// alone: where every occurrence goes on as a path, the text stays as it is.
pub proof fn longer_names_stay(h: Seq<char>, needle: Seq<char>, to: Seq<char>)
    requires
        forall|i: int| #[trigger]
            text::occurs_at(h, needle, i) ==> i + needle.len() < h.len() && goes_on(
                h[i + needle.len()],
            ),
    ensures
        token_replaced(h, needle, to) == h,
    decreases h.len(),
{
    if needle.len() > 0 {
        text::find_from_first(h, needle, 0);
        if let Some(i) = text::find(h, needle) {
            let n = i + needle.len();
            let after = h.skip(n);
            assert(text::occurs_at(h, needle, i));
            assert(after[0] == h[n]);
            assert forall|j: int| #[trigger] text::occurs_at(after, needle, j) implies j
                + needle.len() < after.len() && goes_on(after[j + needle.len()]) by {
                assert(h.subrange(n + j, n + j + needle.len()) =~= after.subrange(
                    j,
                    j + needle.len(),
                ));
                assert(text::occurs_at(h, needle, n + j));
            }
            longer_names_stay(after, needle, to);
            assert(h.subrange(i, n) == needle);
            assert(h.take(i) + needle + after =~= h);
        }
    }
}

/// Neither the directory nor one above it that is rewritten stands in the text.
pub open spec fn names_no_ancestor(cmd: Seq<char>, dir: Option<Seq<char>>) -> bool
    decreases
            (match dir {
                Some(d) => path::comps(d).len(),
                None => 0,
            }),
{
    match dir {
        None => true,
        Some(d) => if path::comps(d).len() < 3 {
            true
        } else {
            proof {
                path::parent_drops_last(d);
            }
            !text::has(cmd, d) && names_no_ancestor(cmd, path::parent(d))
        },
    }
}

/// A command that names neither the build directory nor a directory above it
/// is left alone; the root and the directories right below it are never
/// rewritten.
pub proof fn foreign_commands_stay(cmd: Seq<char>, dir: Option<Seq<char>>, ups: nat)
    requires
        names_no_ancestor(cmd, dir),
    ensures
        ancestors_rewritten(cmd, dir, ups) == cmd,
    decreases
            (match dir {
                Some(d) => path::comps(d).len(),
                None => 0,
            }),
{
    if let Some(d) = dir {
        if path::comps(d).len() >= 3 {
            path::parent_drops_last(d);
            let below = d + seq!['/'];
            text::find_from_first(cmd, below, 0);
            if let Some(i) = text::find(cmd, below) {
                assert(cmd.subrange(i, i + d.len()) =~= below.take(d.len() as int));
                assert(below.take(d.len() as int) =~= d);
                assert(text::occurs_at(cmd, d, i));
            }
            assert(text::replace(cmd, below, climb(ups)) == cmd);
            assert forall|i: int| #[trigger] text::occurs_at(cmd, d, i) implies i + d.len()
                < cmd.len() && goes_on(cmd[i + d.len()]) by {
                assert(text::has(cmd, d));
            }
            longer_names_stay(cmd, d, bare_climb(ups));
            foreign_commands_stay(cmd, path::parent(d), ups + 1);
        }
    }
}

/// Two texts that differ only in the path that stands in some places, such as
/// the output path of the enclosing build before and after its hash has moved,
/// are rewritten to one text: both are the text `s` with a path in the place of
/// the stand-in, and neither path stands anywhere else.
pub proof fn moved_paths_leave_no_trace(
    s: Seq<char>,
    stand_in: Seq<char>,
    before: Seq<char>,
    after: Seq<char>,
)
    requires
        0 < stand_in.len() == before.len(),
        stand_in.len() == after.len(),
        forall|i: int|
            stands(swap(s, stand_in, before), before, i) ==> #[trigger] lands(s, stand_in, i),
        forall|i: int|
            stands(swap(s, stand_in, after), after, i) ==> #[trigger] lands(s, stand_in, i),
    ensures
        rewritten(swap(s, stand_in, before), seq![(before, stand_in)]) == s,
        rewritten(swap(s, stand_in, after), seq![(after, stand_in)]) == s,
{
    one_swap(swap(s, stand_in, before), before, stand_in);
    one_swap(swap(s, stand_in, after), after, stand_in);
    swap_undone(s, stand_in, before);
    swap_undone(s, stand_in, after);
}

proof fn one_swap(s: Seq<char>, f: Seq<char>, t: Seq<char>)
    requires
        f.len() > 0,
    ensures
        rewritten(s, seq![(f, t)]) == swap(s, f, t),
{
    let map = seq![(f, t)];
    assert(map.drop_last() =~= Seq::<(Seq<char>, Seq<char>)>::empty());
    assert(rewritten(s, map.drop_last()) == s);
    replace_is_swap(s, f, t);
}

/// A text in which the directory stands nowhere as a path of its own or in
/// front of what lies below it stays as it is: a sibling whose name begins like
/// the directory's, or the same names below another directory.
pub proof fn other_directories_stay(h: Seq<char>, dir: Seq<char>, to: Seq<char>)
    requires
        forall|i: int| #[trigger] text::occurs_at(h, dir, i) ==> !names_dir(h, dir, i),
    ensures
        moved(h, dir, to) == h,
{
    others_stay_from(h, dir, to, 0);
    assert(h.skip(0) =~= h);
}

proof fn others_stay_from(h: Seq<char>, dir: Seq<char>, to: Seq<char>, i: int)
    requires
        0 <= i,
        forall|k: int| #[trigger] text::occurs_at(h, dir, k) ==> !names_dir(h, dir, k),
    ensures
        moved_from(h, dir, to, i) == h.skip(i),
    decreases h.len() - i,
{
    text::find_from_first(h, dir, i);
    if let Some(k) = text::find_from(h, dir, i) {
        if dir.len() > 0 {
            let n = k + dir.len();
            assert(text::occurs_at(h, dir, k));
            others_stay_from(h, dir, to, n as int);
            assert(h.subrange(k, n as int) == dir);
            assert(h.subrange(i, k) + dir + h.skip(n as int) =~= h.skip(i));
        }
    }
}

/// A build directory that the sandbox mirrors is spelled there as it is here:
/// nothing changes.
pub proof fn mirrored_directories_stay(h: Seq<char>, dir: Seq<char>)
    ensures
        moved(h, dir, dir) == h,
{
    same_spelling_from(h, dir, 0);
    assert(h.skip(0) =~= h);
}

proof fn same_spelling_from(h: Seq<char>, dir: Seq<char>, i: int)
    requires
        0 <= i,
    ensures
        moved_from(h, dir, dir, i) == h.skip(i),
    decreases h.len() - i,
{
    text::find_from_first(h, dir, i);
    if let Some(k) = text::find_from(h, dir, i) {
        if dir.len() > 0 {
            let n = k + dir.len();
            same_spelling_from(h, dir, n as int);
            assert(h.subrange(k, n as int) == dir);
            assert(h.subrange(i, k) + dir + h.skip(n as int) =~= h.skip(i));
        }
    }
}

/// A text is read occurrence by occurrence: where the path ends behind one it is
/// replaced, where it goes on it stays, and the text is read on behind it.
pub proof fn whole_paths_are_replaced(
    pre: Seq<char>,
    needle: Seq<char>,
    rest: Seq<char>,
    to: Seq<char>,
)
    requires
        needle.len() > 0,
        forall|i: int| 0 <= i < pre.len() ==> !text::occurs_at(pre + needle + rest, needle, i),
    ensures
        token_replaced(pre + needle + rest, needle, to) == pre + (if rest.len() > 0 && (rest[0]
            == '/' || rest[0] == '.' || rest[0] == '-' || rest[0] == '_' || outside::alphanumeric(
            rest[0],
        )) {
            needle
        } else {
            to
        }) + token_replaced(rest, needle, to),
{
    let s = pre + needle + rest;
    let n = pre.len() as int;
    text::first_is_found(pre, needle, rest);
    assert(s.take(n) =~= pre);
    assert(s.skip(n + needle.len()) =~= rest);
}

/// A climb is one `../` for each level; on its own it has no slash at its end, and
/// no level at all is the directory itself.
pub proof fn climbs_have_one_step_for_each_level(n: nat)
    ensures
        climb(0).len() == 0,
        climb(n + 1) == climb(n) + "../"@,
        n > 0 ==> bare_climb(n) + "/"@ == climb(n),
        bare_climb(0) == "."@,
{
    reveal_strlit("../");
    reveal_strlit("/");
    if n > 0 {
        let c = climb(n);
        let m = climb((n - 1) as nat);
        assert(c == m + "../"@);
        assert(c.last() == '/');
        let d = c.drop_last();
        assert(d.last() == '.');
        reveal_with_fuel(text::trim_end, 3);
        assert(text::trim_end(c, Class::Only('/')) == d);
        assert(d + "/"@ =~= c);
    }
}

/// A directory at least two levels below the root is rewritten before its parent,
/// which is one climb further; nothing above that is rewritten at all.
pub proof fn ancestors_are_one_climb_further(cmd: Seq<char>, d: Seq<char>, ups: nat)
    ensures
        path::comps(d).len() >= 3 ==> ancestors_rewritten(cmd, Some(d), ups) == ancestors_rewritten(
            ancestor_rewritten(cmd, d, ups),
            path::parent(d),
            ups + 1,
        ),
        path::comps(d).len() < 3 ==> ancestors_rewritten(cmd, Some(d), ups) == cmd,
        ancestors_rewritten(cmd, None, ups) == cmd,
{
    path::parent_drops_last(d);
}

/// A directory that stands once in a text, as a whole, is named by the bare climb
/// to it; everything around it stays.
pub proof fn a_directory_is_named_by_the_climb_to_it(
    pre: Seq<char>,
    d: Seq<char>,
    rest: Seq<char>,
    ups: nat,
)
    requires
        d.len() > 0,
        forall|i: int| #[trigger] text::occurs_at(pre + d + rest, d, i) ==> i == pre.len(),
        rest.len() > 0 ==> rest[0] != '/',
        rest.len() > 0 ==> !goes_on(rest[0]),
    ensures
        ancestor_rewritten(pre + d + rest, d, ups) == pre + bare_climb(ups) + rest,
{
    let s = pre + d + rest;
    let n = pre.len() as int;
    let f = d + seq!['/'];
    assert(!text::has(s, f)) by {
        if text::has(s, f) {
            let i = choose|i: int| text::occurs_at(s, f, i);
            let part = s.subrange(i, i + f.len());
            assert(s.subrange(i, i + d.len()) =~= part.take(d.len() as int));
            assert(part.take(d.len() as int) =~= d);
            assert(text::occurs_at(s, d, i));
            assert(part[d.len() as int] == '/');
            assert(part[d.len() as int] == rest[0]);
        }
    }
    text::has_iff_found(s, f);
    assert(text::replace(s, f, climb(ups)) == s);
    whole_paths_are_replaced(pre, d, rest, bare_climb(ups));
    text::has_iff_found(rest, d);
    assert(!text::has(rest, d)) by {
        if text::has(rest, d) {
            let k = choose|k: int| text::occurs_at(rest, d, k);
            let i = n + d.len() + k;
            assert(rest.subrange(k, k + d.len()) =~= s.subrange(i, i + d.len()));
            assert(text::occurs_at(s, d, i));
        }
    }
    assert(token_replaced(rest, d, bare_climb(ups)) == rest);
}

/// Every name of a path that only goes down is one level.
pub proof fn names_are_levels(p: Seq<char>)
    requires
        forall|i: int| 0 <= i < path::comps(p).len() ==> path::is_name(#[trigger] path::comps(p)[i]),
    ensures
        depth_of(p) == path::comps(p).len(),
{
    path::names_settle(path::comps(p));
    all_are_counted(path::comps(p));
}

proof fn all_are_counted(cs: Seq<Seq<char>>)
    requires
        forall|i: int| 0 <= i < cs.len() ==> path::is_name(#[trigger] cs[i]),
    ensures
        name_count(cs) == cs.len(),
    decreases cs.len(),
{
    if cs.len() > 0 {
        let f = cs.drop_last();
        assert forall|i: int| 0 <= i < f.len() implies path::is_name(#[trigger] f[i]) by {
            assert(f[i] == cs[i]);
        }
        all_are_counted(f);
        assert(path::is_name(cs[cs.len() - 1]));
    }
}

/// A command that enters a directory first is read as that directory and what it
/// runs there; the first `&&` ends the directory.
pub proof fn entered_directories_are_told(dir: Seq<char>, tail: Seq<char>, cmd: Seq<char>)
    requires
        !dir.contains('&'),
    ensures
        cd_parts("cd "@ + (dir + " && "@ + tail)) == Some((dir, tail)),
        cd_parts("cd "@ + dir) is None,
        !"cd "@.is_prefix_of(cmd) ==> cd_parts(cmd) is None,
{
    reveal_strlit("cd ");
    reveal_strlit(" && ");
    let n = " && "@;
    let after = dir + n + tail;
    let all = "cd "@ + after;
    assert("cd "@.is_prefix_of(all) && "cd "@.is_prefix_of("cd "@ + dir));
    assert(all.skip(3) =~= after);
    assert(("cd "@ + dir).skip(3) =~= dir);
    assert forall|i: int| 0 <= i < dir.len() implies !text::occurs_at(after, n, i) by {
        if text::occurs_at(after, n, i) {
            assert(after.subrange(i, i + 4)[1] == after[i + 1]);
            if i + 1 < dir.len() {
                assert(dir.contains(dir[i + 1]));
            } else {
                assert(after[i + 1] == ' ');
            }
        }
    }
    text::first_is_found(dir, n, tail);
    assert(after.take(dir.len() as int) =~= dir);
    assert(after.skip(dir.len() as int + 4) =~= tail);
    text::has_iff_found(dir, n);
    assert(!text::has(dir, n)) by {
        if text::has(dir, n) {
            let i = choose|i: int| text::occurs_at(dir, n, i);
            assert(dir.subrange(i, i + 4)[1] == dir[i + 1]);
            assert(dir.contains(dir[i + 1]));
        }
    }
}

/// A command behind a `cd` into the build tree is rewritten as seen from there;
/// one behind a `cd` above the build tree is run without it; behind any other
/// `cd`, and without one, the command is rewritten as a whole.
pub proof fn commands_are_rewritten_where_they_run(
    dir: Seq<char>,
    tail: Seq<char>,
    build_dir: Seq<char>,
    cmd: Seq<char>,
)
    requires
        !dir.contains('&'),
    ensures
        ({
            let rel = ancestors_rewritten(dir, Some(build_dir), 0);
            let whole = "cd "@ + (dir + " && "@ + tail);
            let r = cmdline_rewritten(whole, build_dir);
            &&& rel.len() > 0 && rel[0] == '/' ==> r == ancestors_rewritten(
                whole,
                Some(build_dir),
                0,
            )
            &&& !(rel.len() > 0 && rel[0] == '/') && path::escapes(rel) ==> r
                == ancestors_rewritten(tail, Some(build_dir), 0)
            &&& !(rel.len() > 0 && rel[0] == '/') && !path::escapes(rel) ==> r == "cd "@ + rel
                + " && "@ + ancestors_rewritten(tail, Some(build_dir), depth_of(rel))
        }),
        !"cd "@.is_prefix_of(cmd) ==> cmdline_rewritten(cmd, build_dir) == ancestors_rewritten(
            cmd,
            Some(build_dir),
            0,
        ),
{
    entered_directories_are_told(dir, tail, cmd);
}

/// A directory is spelled anew where it stands as a path of its own, or in front
/// of what lies below it; behind that the text is read on.
pub proof fn directories_are_spelled_anew(
    pre: Seq<char>,
    dir: Seq<char>,
    rest: Seq<char>,
    to: Seq<char>,
)
    requires
        dir.len() > 0,
        dir.last() != '/',
        forall|i: int| 0 <= i < pre.len() ==> !text::occurs_at(pre + dir + rest, dir, i),
        pre.len() > 0 ==> !goes_on(pre.last()),
    ensures
        rest.len() == 0 || rest[0] == '/' || !goes_on(rest[0]) ==> moved(pre + dir + rest, dir, to)
            == pre + to + moved_from(pre + dir + rest, dir, to, (pre.len() + dir.len()) as int),
        rest.len() > 0 && rest[0] != '/' && goes_on(rest[0]) ==> moved(pre + dir + rest, dir, to)
            == pre + dir + moved_from(pre + dir + rest, dir, to, (pre.len() + dir.len()) as int),
{
    let s = pre + dir + rest;
    let n = pre.len() as int;
    text::first_is_found(pre, dir, rest);
    assert(s.subrange(0, n) =~= pre);
    if n > 0 {
        assert(s[n - 1] == pre.last());
    }
    assert(run_before(s, n).len() == 0);
    assert(s[n + dir.len() - 1] == dir.last());
    if rest.len() > 0 {
        assert(s[n + dir.len()] == rest[0]);
    }
}

} // verus!
