//! Exchanges in a text and in its bytes: the two agree.
use crate::outer;
use crate::rewrite;
use vstd::prelude::*;
use vstd::utf8::encode_utf8;

verus! {

/// A text whose bytes begin like those of another one begins like it.
proof fn bytes_begin_alike(s: Seq<char>, f: Seq<char>)
    requires
        encode_utf8(f).is_prefix_of(encode_utf8(s)),
    ensures
        f.is_prefix_of(s),
    decreases f.len(),
{
    if f.len() > 0 {
        let a = encode_utf8(s);
        let b = encode_utf8(f);
        vstd::utf8::encode_utf8_first_scalar(f);
        let n = vstd::utf8::encode_scalar(f[0] as u32).len() as int;
        assert(b.len() >= n);
        assert forall|i: int| 0 <= i < b.len() implies a[i] == b[i] by {
            assert(a.subrange(0, b.len() as int)[i] == a[i]);
        }
        vstd::utf8::encode_utf8_first_scalar(s);
        assert(a[0] == b[0]);
        assert(vstd::utf8::decode_first_scalar(a) == vstd::utf8::decode_first_scalar(b));
        vstd::utf8::char_u32_cast(f[0], f[0] as u32);
        vstd::utf8::char_u32_cast(s[0], s[0] as u32);
        assert(f[0] == s[0]);
        let head = vstd::utf8::encode_scalar(f[0] as u32);
        let more = encode_utf8(f.drop_first());
        let rest = encode_utf8(s.drop_first());
        assert(more =~= rest.subrange(0, more.len() as int)) by {
            assert forall|i: int| 0 <= i < more.len() implies more[i] == rest[i] by {
                assert(b[i + n] == more[i]);
                assert(a[i + n] == rest[i]);
            }
        }
        bytes_begin_alike(s.drop_first(), f.drop_first());
        let g = f.drop_first();
        assert forall|i: int| 0 <= i < f.len() implies f[i] == s[i] by {
            if i > 0 {
                assert(g[i - 1] == s.drop_first().subrange(0, g.len() as int)[i - 1]);
            }
        }
        assert(f =~= s.subrange(0, f.len() as int));
    }
}

/// Inside the bytes of the first character nothing stands that begins with a character.
proof fn nothing_inside(s: Seq<char>, f: Seq<char>, j: int)
    requires
        s.len() > 0,
        f.len() > 0,
        !f.is_prefix_of(s),
        0 <= j < vstd::utf8::encode_scalar(s[0] as u32).len(),
    ensures
        !rewrite::stands(encode_utf8(s), encode_utf8(f), j),
{
    let a = encode_utf8(s);
    let b = encode_utf8(f);
    vstd::utf8::encode_utf8_first_scalar(s);
    vstd::utf8::encode_utf8_first_scalar(f);
    if rewrite::stands(a, b, j) {
        if j == 0 {
            assert(b.is_prefix_of(a));
            bytes_begin_alike(s, f);
        } else {
            assert(a.subrange(j, j + b.len())[0] == a[j]);
            assert(b[0] == a[j]);
            assert(vstd::utf8::is_continuation_byte(a[j]));
        }
    }
}

/// Exchanging a text and exchanging its bytes is the same.
proof fn swap_encoded(s: Seq<char>, f: Seq<char>, t: Seq<char>)
    requires
        f.len() > 0,
    ensures
        rewrite::swap(encode_utf8(s), encode_utf8(f), encode_utf8(t)) == encode_utf8(
            rewrite::swap(s, f, t),
        ),
    decreases s.len(),
{
    let a = encode_utf8(s);
    let b = encode_utf8(f);
    let c = encode_utf8(t);
    vstd::utf8::encode_utf8_first_scalar(f);
    assert(b.len() > 0);
    if s.len() == 0 {
        assert(a.len() == 0);
    } else if f.is_prefix_of(s) {
        let n = f.len() as int;
        let rest = s.skip(n);
        assert(s.take(n) =~= f);
        assert(s =~= f + rest);
        outer::encode_concat(f, rest);
        assert(a.take(b.len() as int) =~= b);
        assert(a.skip(b.len() as int) =~= encode_utf8(rest));
        swap_encoded(rest, f, t);
        outer::encode_concat(t, rewrite::swap(rest, f, t));
    } else {
        let rest = s.skip(1);
        let head = vstd::utf8::encode_scalar(s[0] as u32);
        let n = head.len() as int;
        assert(rest =~= s.drop_first());
        assert(a == head + encode_utf8(rest));
        assert forall|j: int| 0 <= j < n implies !rewrite::stands(a, b, j) by {
            nothing_inside(s, f, j);
        }
        rewrite::swap_peel(a, b, c, n);
        assert(a.take(n) =~= head);
        assert(a.skip(n) =~= encode_utf8(rest));
        swap_encoded(rest, f, t);
        let out = seq![s[0]] + rewrite::swap(rest, f, t);
        if s.len() >= f.len() {
            assert(s.take(f.len() as int) != f);
        } else {
            assert(seq![s[0]] + rest =~= s);
        }
        assert(rewrite::swap(s, f, t) == out);
        assert(out.drop_first() =~= rewrite::swap(rest, f, t));
        assert(out[0] == s[0]);
    }
}

/// Where no exchange finds anything, nothing changes.
proof fn unhit_stays<A>(s: Seq<A>, ps: Seq<(Seq<A>, Seq<A>)>)
    requires
        !rewrite::any_hit(s, ps),
    ensures
        rewrite::swap_all(s, ps) == s,
    decreases ps.len(),
{
    if ps.len() > 0 {
        unhit_stays(s, ps.drop_last());
        rewrite::swap_of_nothing(s, ps.last().0, ps.last().1);
    }
}

/// Rewriting the bytes of a text, and keeping them where nothing is found,
/// gives the bytes of the rewritten text: one is the byte-wise form of the
/// other.
pub proof fn bytes_and_text_agree(s: Seq<char>, map: Seq<(Seq<char>, Seq<char>)>)
    requires
        rewrite::same_lengths(rewrite::byte_pairs(map)),
    ensures
        rewrite::swap_all(encode_utf8(s), rewrite::byte_pairs(map)) == encode_utf8(
            rewrite::rewritten(s, map),
        ),
        !rewrite::any_hit(encode_utf8(s), rewrite::byte_pairs(map)) ==> encode_utf8(s)
            == encode_utf8(rewrite::rewritten(s, map)),
    decreases map.len(),
{
    let ps = rewrite::byte_pairs(map);
    if map.len() > 0 {
        let front = map.drop_last();
        assert(rewrite::byte_pairs(front) =~= ps.drop_last());
        assert forall|i: int| 0 <= i < ps.drop_last().len() implies 0 < (
        #[trigger] ps.drop_last()[i]).0.len() && ps.drop_last()[i].0.len()
            == ps.drop_last()[i].1.len() by {
            assert(ps.drop_last()[i] == ps[i]);
        }
        bytes_and_text_agree(s, front);
        let f = map.last().0;
        let t = map.last().1;
        assert(ps[map.len() - 1] == (encode_utf8(f), encode_utf8(t)));
        assert(f.len() > 0);
        swap_encoded(rewrite::rewritten(s, front), f, t);
        rewrite::replace_is_swap(rewrite::rewritten(s, front), f, t);
    }
    if !rewrite::any_hit(encode_utf8(s), ps) {
        unhit_stays(encode_utf8(s), ps);
    }
}

} // verus!
