//! The outputs of the derivation that this build runs in. Their paths carry a
//! hash that changes with every input, so tasks see a placeholder of the same
//! length that depends on the output's name alone.
use crate::apart;
use crate::outside;
use crate::rewrite;
use crate::text;
use crate::text::Class;
use crate::views;
use vstd::prelude::*;
use vstd::utf8::encode_utf8;

verus! {

broadcast use {views::texts_push, views::pieces_push, views::pairs_push};

/// Encoding two texts one after the other.
pub proof fn encode_concat(a: Seq<char>, b: Seq<char>)
    ensures
        encode_utf8(a + b) == encode_utf8(a) + encode_utf8(b),
    decreases a.len(),
{
    if a.len() == 0 {
        assert(a + b =~= b);
        assert(encode_utf8(a) + encode_utf8(b) =~= encode_utf8(b));
    } else {
        encode_concat(a.drop_first(), b);
        assert((a + b).drop_first() =~= a.drop_first() + b);
        assert((a + b)[0] == a[0]);
        let e = vstd::utf8::encode_scalar(a[0] as u32);
        assert(e + (encode_utf8(a.drop_first()) + encode_utf8(b)) =~= e + encode_utf8(
            a.drop_first(),
        ) + encode_utf8(b));
    }
}

/// No character lies below the first.
proof fn lowest_char(c: char)
    ensures
        '\0' <= c,
{
}

/// An ASCII text has one byte for each character.
pub proof fn encode_ascii(a: Seq<char>)
    requires
        forall|i: int| 0 <= i < a.len() ==> #[trigger] a[i] <= '\u{7f}',
    ensures
        encode_utf8(a).len() == a.len(),
{
    assert forall|i: int| 0 <= i < a.len() implies '\0' <= #[trigger] a[i] <= '\u{7f}' by {
        lowest_char(a[i]);
    }
    vstd::utf8::is_ascii_chars_encode_utf8(a);
}

/// The characters of the store's hashes.
pub open spec fn hash_alphabet() -> Seq<char> {
    "0123456789abcdfghijklmnpqrsvwxyz"@
}

/// The hash characters that stand for the bytes of a digest.
pub open spec fn hash_text(digest: Seq<u8>) -> Seq<char> {
    digest.map_values(|b: u8| hash_alphabet()[b as int % 32])
}

/// The hash part of the placeholder for an output.
pub open spec fn placeholder_hash(name: Seq<char>) -> Seq<char> {
    hash_text(outside::sha256(encode_utf8("nix-ninja-outer-output:"@ + name)))
}

/// The hash and the rest of a store path's name, where it has the length of a hash.
pub open spec fn hash_and_rest(
    store_dir: Seq<char>,
    actual: Seq<char>,
) -> Option<(Seq<char>, Seq<char>)> {
    match text::without_prefix(actual, store_dir + seq!['/']) {
        Some(rel) => match text::split_once(rel, '-') {
            Some((hash, rest)) => if encode_utf8(hash).len() == 32 {
                Some((hash, rest))
            } else {
                None
            },
            None => None,
        },
        None => None,
    }
}

/// A store path with a given hash.
pub open spec fn store_text(store_dir: Seq<char>, hash: Seq<char>, rest: Seq<char>) -> Seq<char> {
    store_dir + seq!['/'] + hash + seq!['-'] + rest
}

/// The placeholder for the output `name` at the store path `actual`.
pub open spec fn placeholder(
    store_dir: Seq<char>,
    name: Seq<char>,
    actual: Seq<char>,
) -> Option<Seq<char>> {
    match hash_and_rest(store_dir, actual) {
        Some((hash, rest)) => Some(store_text(store_dir, placeholder_hash(name), rest)),
        None => None,
    }
}

/// Each output that lies in the store, with its placeholder.
pub open spec fn placeholder_pairs(
    store_dir: Seq<char>,
    outputs: Seq<(Seq<char>, Seq<char>)>,
) -> Seq<(Seq<char>, Seq<char>)>
    decreases outputs.len(),
{
    if outputs.len() == 0 {
        Seq::empty()
    } else {
        let front = placeholder_pairs(store_dir, outputs.drop_last());
        match placeholder(store_dir, outputs.last().0, outputs.last().1) {
            Some(p) => front.push((outputs.last().1, p)),
            None => front,
        }
    }
}

/// A path that has a placeholder is made of the store directory, its hash and its rest.
proof fn actual_is_store_text(store_dir: Seq<char>, actual: Seq<char>)
    requires
        hash_and_rest(store_dir, actual) is Some,
    ensures
        hash_and_rest(store_dir, actual) matches Some((hash, rest)) && actual == store_text(
            store_dir,
            hash,
            rest,
        ),
{
    let pre = store_dir + seq!['/'];
    let rel = actual.skip(pre.len() as int);
    assert(actual =~= pre + rel);
    text::span_stops(rel, Class::Only('-'));
    let n = text::span(rel, Class::Only('-'));
    assert(rel =~= rel.take(n) + seq!['-'] + rel.skip(n + 1));
    assert(actual =~= store_text(store_dir, rel.take(n), rel.skip(n + 1)));
}

/// The bytes of a store path.
proof fn store_text_length(store_dir: Seq<char>, hash: Seq<char>, rest: Seq<char>)
    ensures
        encode_utf8(store_text(store_dir, hash, rest)).len() == encode_utf8(
            store_dir + seq!['/'],
        ).len() + encode_utf8(hash).len() + encode_utf8(seq!['-']).len() + encode_utf8(rest).len(),
        encode_utf8(store_dir + seq!['/']).len() > 0,
{
    let pre = store_dir + seq!['/'];
    encode_concat(pre + hash + seq!['-'], rest);
    encode_concat(pre + hash, seq!['-']);
    encode_concat(pre, hash);
    encode_concat(store_dir, seq!['/']);
    encode_ascii(seq!['/']);
}

/// The hash part of a placeholder is 32 ASCII characters.
proof fn placeholder_hash_length(name: Seq<char>)
    requires
        outside::sha256(encode_utf8("nix-ninja-outer-output:"@ + name)).len() == 32,
    ensures
        encode_utf8(placeholder_hash(name)).len() == 32,
{
    reveal_strlit("0123456789abcdfghijklmnpqrsvwxyz");
    let h = placeholder_hash(name);
    assert forall|i: int| 0 <= i < h.len() implies #[trigger] h[i] <= '\u{7f}' by {}
    encode_ascii(h);
}

/// A digest spelled like the hash part of a store path.
pub fn hash_text_of(digest: &Vec<u8>) -> (r: String)
    ensures
        r@ == hash_text(digest@),
{
    let alphabet = text::chars_of("0123456789abcdfghijklmnpqrsvwxyz");
    proof {
        reveal_strlit("0123456789abcdfghijklmnpqrsvwxyz");
    }
    let mut out: Vec<char> = Vec::new();
    for i in 0..digest.len()
        invariant
            alphabet@ == hash_alphabet(),
            alphabet@.len() == 32,
            out@ == hash_text(digest@).take(i as int),
    {
        let b: usize = digest[i] as usize;
        out.push(alphabet[b % 32]);
        assert(hash_text(digest@).take(i + 1) =~= hash_text(digest@).take(i as int).push(
            hash_text(digest@)[i as int],
        ));
    }
    assert(out@ =~= hash_text(digest@));
    text::string_of(&out)
}

/// The hash part of the placeholder for an output.
fn placeholder_hash_of(name: &str) -> (r: Vec<char>)
    ensures
        r@ == placeholder_hash(name@),
        encode_utf8(r@).len() == 32,
{
    let mut key = text::chars_of("nix-ninja-outer-output:");
    text::append_str(&mut key, name);
    let key = text::string_of(&key);
    let digest = outside::sha256_of(key.as_str().as_bytes());
    let out = text::chars_of(hash_text_of(&digest).as_str());
    proof {
        placeholder_hash_length(name@);
    }
    out
}

/// The placeholder for the output `name` at the store path `actual`.
fn placeholder_of(store_dir: &str, name: &str, actual: &str) -> (r: Option<Vec<char>>)
    ensures
        views::opt_piece(r) == placeholder(store_dir@, name@, actual@),
        r is Some ==> 0 < encode_utf8(actual@).len() == encode_utf8(r->0@).len(),
{
    let mut pre = text::chars_of(store_dir);
    pre.push('/');
    assert(pre@ =~= store_dir@ + seq!['/']);
    let x = text::chars_of(actual);
    if !text::starts(&x, &pre) {
        return None;
    }
    let rel = text::tail(&x, pre.len());
    match text::cut_once(&rel, '-') {
        Some((hash, rest)) => {
            let h = text::string_of(&hash);
            if h.as_str().as_bytes().len() != 32 {
                return None;
            }
            let fake = placeholder_hash_of(name);
            let mut out = text::copy(&pre);
            text::append(&mut out, &fake);
            out.push('-');
            assert(out@ =~= pre@ + fake@ + seq!['-']);
            text::append(&mut out, &rest);
            proof {
                actual_is_store_text(store_dir@, actual@);
                store_text_length(store_dir@, hash@, rest@);
                store_text_length(store_dir@, fake@, rest@);
                assert(out@ == store_text(store_dir@, fake@, rest@));
            }
            Some(out)
        },
        None => None,
    }
}

/// What to put for each output path of the surrounding derivation: for every
/// output that lies in the store, given by its name and path, its path and its
/// placeholder. The two have the same number of bytes.
pub fn outer_rewrite_map(store_dir: &str, outputs: &Vec<(String, String)>) -> (r: Vec<
    (String, String),
>)
    ensures
        views::pairs(r@) == placeholder_pairs(store_dir@, views::pairs(outputs@)),
        rewrite::same_lengths(rewrite::byte_pairs(views::pairs(r@))),
{
    let ghost all = views::pairs(outputs@);
    let mut out: Vec<(String, String)> = Vec::new();
    assert(views::pairs(out@) =~= placeholder_pairs(store_dir@, all.take(0)));
    for i in 0..outputs.len()
        invariant
            all == views::pairs(outputs@),
            views::pairs(out@) == placeholder_pairs(store_dir@, all.take(i as int)),
            rewrite::same_lengths(rewrite::byte_pairs(views::pairs(out@))),
    {
        proof {
            assert(all.take(i + 1).drop_last() =~= all.take(i as int));
            assert(all.take(i + 1).last() == all[i as int]);
        }
        let name = outputs[i].0.as_str();
        let actual = outputs[i].1.as_str();
        if let Some(p) = placeholder_of(store_dir, name, actual) {
            let ghost before = rewrite::byte_pairs(views::pairs(out@));
            let fake = text::string_of(&p);
            out.push((outputs[i].1.clone(), fake));
            proof {
                let now = rewrite::byte_pairs(views::pairs(out@));
                assert(now =~= before.push((encode_utf8(actual@), encode_utf8(p@))));
                assert forall|j: int| 0 <= j < now.len() implies 0 < (#[trigger] now[j]).0.len()
                    && now[j].0.len() == now[j].1.len() by {
                    if j < before.len() {
                        assert(now[j] == before[j]);
                    }
                }
            }
        }
    }
    assert(all.take(all.len() as int) =~= all);
    out
}

/// The map with which placeholders are turned back into the output paths.
pub fn outer_restore_map(store_dir: &str, outputs: &Vec<(String, String)>) -> (r: Vec<
    (String, String),
>)
    ensures
        views::pairs(r@) == rewrite::flipped(
            placeholder_pairs(store_dir@, views::pairs(outputs@)),
        ),
        rewrite::same_lengths(rewrite::byte_pairs(views::pairs(r@))),
{
    let map = outer_rewrite_map(store_dir, outputs);
    let ghost all = views::pairs(map@);
    let mut out: Vec<(String, String)> = Vec::new();
    assert(views::pairs(out@) =~= rewrite::flipped(all).take(0));
    for i in 0..map.len()
        invariant
            all == views::pairs(map@),
            views::pairs(out@) == rewrite::flipped(all).take(i as int),
    {
        out.push((map[i].1.clone(), map[i].0.clone()));
        assert(rewrite::flipped(all).take(i + 1) =~= rewrite::flipped(all).take(i as int).push(
            rewrite::flipped(all)[i as int],
        ));
    }
    proof {
        assert(rewrite::flipped(all).take(all.len() as int) =~= rewrite::flipped(all));
        let a = rewrite::byte_pairs(all);
        let b = rewrite::byte_pairs(rewrite::flipped(all));
        assert forall|j: int| 0 <= j < b.len() implies 0 < (#[trigger] b[j]).0.len()
            && b[j].0.len() == b[j].1.len() by {
            assert(a[j].0.len() > 0 && a[j].0.len() == a[j].1.len());
        }
    }
    out
}

/// The output names of the surrounding derivation.
pub open spec fn output_names(
    outputs_var: Option<Seq<char>>,
    attrs: Option<Seq<u8>>,
) -> Seq<Seq<char>> {
    match outputs_var {
        Some(v) => text::words(v),
        None => match attrs {
            Some(b) => match outside::json_keys(b, "outputs"@) {
                Some(names) => names,
                None => seq!["out"@],
            },
            None => seq!["out"@],
        },
    }
}

/// The output names of the surrounding derivation once it is known what its
/// environment and its attributes file say: the words of the variable, the
/// keys found in the file, or the one output that every derivation has.
pub fn choose_output_names(
    outputs_var: Option<&str>,
    keys: Option<Vec<String>>,
) -> (r: Vec<String>)
    ensures
        views::texts(r@) == match outputs_var {
            Some(v) => text::words(v@),
            None => match keys {
                Some(names) => views::texts(names@),
                None => seq!["out"@],
            },
        },
{
    match outputs_var {
        Some(v) => {
            let ws = text::words_of_str(v);
            text::strings_of(&ws)
        },
        None => match keys {
            Some(names) => names,
            None => {
                let o = text::chars_of("out");
                let mut r: Vec<String> = Vec::new();
                r.push(text::string_of(&o));
                assert(views::texts(r@) =~= seq!["out"@]);
                r
            },
        },
    }
}

/// The output names of the surrounding derivation: from the variable that
/// lists them, else from the attributes file, else the default.
pub fn outer_output_names(outputs_var: Option<&str>, attrs: Option<&[u8]>) -> (r: Vec<String>)
    ensures
        views::texts(r@) == output_names(
            views::opt_str(outputs_var),
            match attrs {
                Some(b) => Some(b@),
                None => None,
            },
        ),
{
    let keys = match attrs {
        Some(b) => outside::json_object_keys(b, "outputs"),
        None => None,
    };
    choose_output_names(outputs_var, keys)
}

/// The paths of the outputs that are set, given by name and path.
pub fn outer_output_paths(outputs: &Vec<(String, String)>) -> (r: Vec<String>)
    ensures
        views::texts(r@) == views::pairs(outputs@).map_values(|p: (Seq<char>, Seq<char>)| p.1),
{
    let ghost want = views::pairs(outputs@).map_values(|p: (Seq<char>, Seq<char>)| p.1);
    let mut r: Vec<String> = Vec::new();
    assert(views::texts(r@) =~= want.take(0));
    for i in 0..outputs.len()
        invariant
            want == views::pairs(outputs@).map_values(|p: (Seq<char>, Seq<char>)| p.1),
            views::texts(r@) == want.take(i as int),
    {
        r.push(outputs[i].1.clone());
        assert(want.take(i + 1) =~= want.take(i as int).push(outputs@[i as int].1@));
    }
    assert(want.take(want.len() as int) =~= want);
    r
}

// ---------------------------------------------------------------------------
// Laws
// ---------------------------------------------------------------------------

/// A placeholder does not depend on the hash of the output: two paths that
/// differ in the hash alone have the same one.
pub proof fn placeholder_ignores_hash(
    store_dir: Seq<char>,
    name: Seq<char>,
    h1: Seq<char>,
    h2: Seq<char>,
    rest: Seq<char>,
)
    requires
        encode_utf8(h1).len() == 32,
        encode_utf8(h2).len() == 32,
        !h1.contains('-'),
        !h2.contains('-'),
    ensures
        placeholder(store_dir, name, store_text(store_dir, h1, rest)) is Some,
        placeholder(store_dir, name, store_text(store_dir, h1, rest)) == placeholder(
            store_dir,
            name,
            store_text(store_dir, h2, rest),
        ),
{
    hash_and_rest_of(store_dir, h1, rest);
    hash_and_rest_of(store_dir, h2, rest);
}

/// The hash and the rest of a store path are those it was made of.
proof fn hash_and_rest_of(store_dir: Seq<char>, hash: Seq<char>, rest: Seq<char>)
    requires
        encode_utf8(hash).len() == 32,
        !hash.contains('-'),
    ensures
        hash_and_rest(store_dir, store_text(store_dir, hash, rest)) == Some((hash, rest)),
{
    let pre = store_dir + seq!['/'];
    let actual = store_text(store_dir, hash, rest);
    let rel = hash + seq!['-'] + rest;
    assert(actual =~= pre + rel);
    assert(pre =~= actual.subrange(0, pre.len() as int));
    assert(actual.skip(pre.len() as int) =~= rel);
    assert forall|j: int| 0 <= j < hash.len() implies !text::in_class(
        Class::Only('-'),
        #[trigger] rel[j],
    ) by {
        assert(rel[j] == hash[j]);
        assert(hash.contains(hash[j]));
    }
    text::span_is(rel, Class::Only('-'), hash.len() as int);
    assert(rel.take(hash.len() as int) =~= hash);
    assert(rel.skip(hash.len() as int + 1) =~= rest);
}

/// Bytes rewritten by the map and then by the restoring map are the bytes
/// again, provided that the placeholders do not get in each other's way.
pub proof fn restore_undoes_rewrite(
    data: Seq<u8>,
    store_dir: Seq<char>,
    outputs: Seq<(Seq<char>, Seq<char>)>,
)
    requires
        rewrite::same_lengths(rewrite::byte_pairs(placeholder_pairs(store_dir, outputs))),
        rewrite::reversible(data, rewrite::byte_pairs(placeholder_pairs(store_dir, outputs))),
    ensures
        rewrite::swap_all(
            rewrite::swap_all(
                data,
                rewrite::byte_pairs(placeholder_pairs(store_dir, outputs)),
            ),
            rewrite::byte_pairs(rewrite::flipped(placeholder_pairs(store_dir, outputs))),
        ) == data,
{
    let ps = placeholder_pairs(store_dir, outputs);
    assert(rewrite::byte_pairs(rewrite::flipped(ps)) =~= rewrite::flipped(
        rewrite::byte_pairs(ps),
    ));
    rewrite::swap_all_undone(data, rewrite::byte_pairs(ps));
}

/// Bytes in which no stand-in stands are the bytes again after they were
/// rewritten by the map and then by the restoring map, provided that no two of
/// the paths and stand-ins can overlap.
pub proof fn fresh_stand_ins_are_taken_out(
    data: Seq<u8>,
    store_dir: Seq<char>,
    outputs: Seq<(Seq<char>, Seq<char>)>,
)
    requires
        rewrite::same_lengths(rewrite::byte_pairs(placeholder_pairs(store_dir, outputs))),
        apart::words_apart(rewrite::byte_pairs(placeholder_pairs(store_dir, outputs))),
        forall|i: int|
            0 <= i < placeholder_pairs(store_dir, outputs).len() ==> !rewrite::hit(
                data,
                (#[trigger] rewrite::byte_pairs(placeholder_pairs(store_dir, outputs))[i]).1,
            ),
    ensures
        rewrite::swap_all(
            rewrite::swap_all(
                data,
                rewrite::byte_pairs(placeholder_pairs(store_dir, outputs)),
            ),
            rewrite::byte_pairs(rewrite::flipped(placeholder_pairs(store_dir, outputs))),
        ) == data,
{
    apart::apart_is_reversible(data, rewrite::byte_pairs(placeholder_pairs(store_dir, outputs)));
    restore_undoes_rewrite(data, store_dir, outputs);
}

/// The stand-in for an output keeps the directory and the name behind the hash;
/// its hash shows the digest of the output's name alone, one character for each
/// byte. What has no hash of the store's length has no stand-in.
pub proof fn stand_ins_have_another_hash(
    store_dir: Seq<char>,
    name: Seq<char>,
    hash: Seq<char>,
    rest: Seq<char>,
)
    requires
        !hash.contains('-'),
    ensures
        ({
            let actual = store_dir + seq!['/'] + hash + seq!['-'] + rest;
            let digest = outside::sha256(encode_utf8("nix-ninja-outer-output:"@ + name));
            let h = Seq::new(
                digest.len(),
                |i: int| "0123456789abcdfghijklmnpqrsvwxyz"@[digest[i] as int % 32],
            );
            &&& encode_utf8(hash).len() == 32 ==> placeholder(store_dir, name, actual) == Some(
                store_dir + seq!['/'] + h + seq!['-'] + rest,
            )
            &&& encode_utf8(hash).len() != 32 ==> placeholder(store_dir, name, actual) is None
            &&& placeholder(store_dir, name, store_dir + seq!['/'] + hash) is None
        }),
{
    let actual = store_dir + seq!['/'] + hash + seq!['-'] + rest;
    let digest = outside::sha256(encode_utf8("nix-ninja-outer-output:"@ + name));
    let h = Seq::new(
        digest.len(),
        |i: int| "0123456789abcdfghijklmnpqrsvwxyz"@[digest[i] as int % 32],
    );
    let d = store_dir + seq!['/'];
    let rel = hash + seq!['-'] + rest;
    assert(actual =~= d + rel);
    assert(d.is_prefix_of(d + rel));
    assert((d + rel).skip(d.len() as int) =~= rel);
    text::once_parts(hash, rest, '-');
    assert(placeholder_hash(name) =~= h);
    assert(d.is_prefix_of(d + hash));
    assert((d + hash).skip(d.len() as int) =~= hash);
    text::once_whole(hash, '-');
}

/// Every output with a stand-in is a pair, its real path first, in their order.
pub proof fn every_output_has_a_stand_in(
    store_dir: Seq<char>,
    outputs: Seq<(Seq<char>, Seq<char>)>,
    name: Seq<char>,
    actual: Seq<char>,
)
    ensures
        placeholder_pairs(store_dir, Seq::empty()).len() == 0,
        placeholder_pairs(store_dir, outputs.push((name, actual))) == match placeholder(
            store_dir,
            name,
            actual,
        ) {
            Some(p) => placeholder_pairs(store_dir, outputs).push((actual, p)),
            None => placeholder_pairs(store_dir, outputs),
        },
{
    assert(outputs.push((name, actual)).drop_last() =~= outputs);
}

/// The outputs of the surrounding build are the words of its variable, where that
/// is set; else what its attributes say; else there is one.
pub proof fn the_variable_names_the_outputs(v: Seq<char>, attrs: Option<Seq<u8>>)
    ensures
        output_names(Some(v), attrs) == text::words(v),
        output_names(None, None) == seq!["out"@],
        attrs is Some && outside::json_keys(attrs->0, "outputs"@) is Some ==> output_names(
            None,
            attrs,
        ) == outside::json_keys(attrs->0, "outputs"@)->0,
        attrs is Some && outside::json_keys(attrs->0, "outputs"@) is None ==> output_names(
            None,
            attrs,
        ) == seq!["out"@],
{
}

} // verus!
