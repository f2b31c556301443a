//! What lists of strings and of character vectors hold, as sequences of texts.
use vstd::prelude::*;

verus! {

/// The texts held by a list of strings.
pub open spec fn texts(v: Seq<String>) -> Seq<Seq<char>> {
    v.map_values(|s: String| s@)
}

/// The texts held by a list of character vectors.
pub open spec fn pieces(v: Seq<Vec<char>>) -> Seq<Seq<char>> {
    v.map_values(|s: Vec<char>| s@)
}

/// One string more is one text more.
pub broadcast proof fn texts_push(v: Seq<String>, s: String)
    ensures
        #[trigger] texts(v.push(s)) == texts(v).push(s@),
{
    assert(texts(v.push(s)) =~= texts(v).push(s@));
}

/// One piece more is one text more.
pub broadcast proof fn pieces_push(v: Seq<Vec<char>>, s: Vec<char>)
    ensures
        #[trigger] pieces(v.push(s)) == pieces(v).push(s@),
{
    assert(pieces(v.push(s)) =~= pieces(v).push(s@));
}

/// The text held by an optional string.
pub open spec fn opt_text(o: Option<String>) -> Option<Seq<char>> {
    match o {
        Some(s) => Some(s@),
        None => None,
    }
}

/// The text held by an optional string slice.
pub open spec fn opt_str(o: Option<&str>) -> Option<Seq<char>> {
    match o {
        Some(s) => Some(s@),
        None => None,
    }
}

/// The texts held by an optional list of strings.
pub open spec fn opt_texts(o: Option<Vec<String>>) -> Option<Seq<Seq<char>>> {
    match o {
        Some(v) => Some(texts(v@)),
        None => None,
    }
}

/// The pairs of texts held by a list of pairs of strings.
pub open spec fn pairs(v: Seq<(String, String)>) -> Seq<(Seq<char>, Seq<char>)> {
    v.map_values(|p: (String, String)| (p.0@, p.1@))
}

/// One pair more is one pair of texts more.
pub broadcast proof fn pairs_push(v: Seq<(String, String)>, p: (String, String))
    ensures
        #[trigger] pairs(v.push(p)) == pairs(v).push((p.0@, p.1@)),
{
    assert(pairs(v.push(p)) =~= pairs(v).push((p.0@, p.1@)));
}

/// The view of an optional piece.
pub open spec fn opt_piece(o: Option<Vec<char>>) -> Option<Seq<char>> {
    match o {
        Some(v) => Some(v@),
        None => None,
    }
}

/// The view of an optional pair of pieces.
pub open spec fn opt_pair(o: Option<(Vec<char>, Vec<char>)>) -> Option<(Seq<char>, Seq<char>)> {
    match o {
        Some((a, b)) => Some((a@, b@)),
        None => None,
    }
}

} // verus!
