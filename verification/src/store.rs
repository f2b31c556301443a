//! Store paths: which ones a text mentions, and which one a file belongs to.
use crate::outside;
use crate::path;
use crate::text;
use crate::views;
use vstd::prelude::*;

verus! {

broadcast use {views::texts_push, views::pieces_push};

/// The regular expression of a store path: the store directory, a hash and a name.
pub open spec fn store_pattern(store_dir: Seq<char>) -> Seq<char> {
    outside::regex_literal(store_dir) + "\\/[a-z0-9]{32}-[0-9a-zA-Z\\+\\-\\._\\?=]+"@
}

/// The store paths that a text mentions, from left to right; none where the
/// pattern is refused.
pub fn mentioned_store_paths(store_dir: &str, s: &str) -> (r: Option<Vec<String>>)
    ensures
        views::opt_texts(r) == outside::regex_matches(store_pattern(store_dir@), s@),
{
    let mut c = text::chars_of(outside::regex_escape(store_dir).as_str());
    text::append_str(&mut c, "\\/[a-z0-9]{32}-[0-9a-zA-Z\\+\\-\\._\\?=]+");
    let pattern = text::string_of(&c);
    outside::regex_find_all(pattern.as_str(), s)
}

/// A mentioned store path that becomes an input: it exists, and it is neither
/// a derivation nor an output that is still being built.
pub open spec fn is_source(p: Seq<char>, exists: bool, outer: Seq<Seq<char>>) -> bool {
    !".drv"@.is_suffix_of(p) && exists && !outer.contains(p)
}

/// The mentioned paths that become inputs, in their order.
pub open spec fn sources(
    found: Seq<Seq<char>>,
    exists: Seq<bool>,
    outer: Seq<Seq<char>>,
) -> Seq<Seq<char>>
    decreases found.len(),
{
    if found.len() == 0 {
        Seq::empty()
    } else {
        let n = found.len() - 1;
        let front = sources(found.drop_last(), exists, outer);
        if n < exists.len() && is_source(found[n], exists[n], outer) {
            front.push(found[n])
        } else {
            front
        }
    }
}

/// The mentioned store paths that become inputs. `exists` tells of each path
/// whether it is there; `outer` are the outputs that are still being built.
pub fn extract_store_paths(
    found: &Vec<String>,
    exists: &Vec<bool>,
    outer: &Vec<String>,
) -> (r: Vec<String>)
    ensures
        views::texts(r@) == sources(views::texts(found@), exists@, views::texts(outer@)),
{
    let ghost all = views::texts(found@);
    let ghost o = views::texts(outer@);
    let mut out: Vec<String> = Vec::new();
    assert(views::texts(out@) =~= sources(all.take(0), exists@, o));
    for i in 0..found.len()
        invariant
            all == views::texts(found@),
            o == views::texts(outer@),
            views::texts(out@) == sources(all.take(i as int), exists@, o),
    {
        assert(all.take(i + 1).drop_last() =~= all.take(i as int));
        assert(all.take(i + 1)[i as int] == found@[i as int]@);
        if i < exists.len() {
            let c = text::chars_of(found[i].as_str());
            if !text::ends_lit(&c, ".drv") && exists[i] && !text::list_has(
                outer,
                found[i].as_str(),
            ) {
                out.push(found[i].clone());
            }
        }
    }
    assert(all.take(all.len() as int) =~= all);
    out
}

/// The store object that a path lies in: the store directory with the first
/// component below it.
pub open spec fn object_of(store_dir: Seq<char>, p: Seq<char>) -> Option<Seq<char>> {
    match path::below(p, store_dir) {
        Some(rel) => if path::comps(rel).len() > 0 {
            Some(path::joined(store_dir, path::comps(rel)[0]))
        } else {
            None
        },
        None => None,
    }
}

/// The store object that a path lies in.
pub fn store_object(store_dir: &str, p: &str) -> (r: Option<String>)
    ensures
        views::opt_text(r) == object_of(store_dir@, p@),
{
    let d = text::chars_of(store_dir);
    let x = text::chars_of(p);
    match path::strip_base(&x, &d) {
        Some(rel) => {
            let cs = path::components(&rel);
            if cs.len() > 0 {
                assert(path::comps(rel@)[0] == cs@[0]@);
                let full = path::join(&d, &cs[0]);
                Some(text::string_of(&full))
            } else {
                None
            }
        },
        None => None,
    }
}

/// Where a program lies.
#[derive(Debug, PartialEq, Eq)]
pub enum ProgramHome {
    /// Outside the store.
    Outside,
    /// In the store object at this path.
    Object(String),
    /// In the store, but not in a directory of an object.
    Nowhere,
}

/// What a home says.
pub enum HomeView {
    Outside,
    Object(Seq<char>),
    Nowhere,
}

impl View for ProgramHome {
    type V = HomeView;

    open spec fn view(&self) -> HomeView {
        match self {
            ProgramHome::Outside => HomeView::Outside,
            ProgramHome::Object(s) => HomeView::Object(s@),
            ProgramHome::Nowhere => HomeView::Nowhere,
        }
    }
}

/// The home of a program: the directory above the one that holds it.
pub open spec fn home_of(store_dir: Seq<char>, program: Seq<char>) -> HomeView {
    if !path::under(program, store_dir) {
        HomeView::Outside
    } else {
        match path::parent(program) {
            Some(bin) => match path::parent(bin) {
                Some(home) => HomeView::Object(home),
                None => HomeView::Nowhere,
            },
            None => HomeView::Nowhere,
        }
    }
}

/// The home of a program, given its canonical path.
pub fn program_home(store_dir: &str, program: &str) -> (r: ProgramHome)
    ensures
        r@ == home_of(store_dir@, program@),
{
    let d = text::chars_of(store_dir);
    let p = text::chars_of(program);
    if !path::is_under(&p, &d) {
        return ProgramHome::Outside;
    }
    match path::parent_of(&p) {
        Some(bin) => match path::parent_of(&bin) {
            Some(home) => ProgramHome::Object(text::string_of(&home)),
            None => ProgramHome::Nowhere,
        },
        None => ProgramHome::Nowhere,
    }
}

/// A program that is not in the store.
#[derive(Debug)]
pub struct OutsideStore {
    pub name: String,
    pub store_dir: String,
}

impl OutsideStore {
    /// What to tell the user.
    pub fn message(&self) -> (r: String)
        ensures
            r@ == self.name@ + " resolved to a path outside the Nix store ("@ + self.store_dir@
                + ")"@,
    {
        let mut v = text::chars_of(self.name.as_str());
        text::append_str(&mut v, " resolved to a path outside the Nix store (");
        text::append_str(&mut v, self.store_dir.as_str());
        text::append_str(&mut v, ")");
        text::string_of(&v)
    }
}

/// The store object of a program that has to be in the store. `found` is what
/// the lookup of the program gave.
pub fn which_store_path(
    store_dir: &str,
    name: &str,
    found: Option<String>,
) -> (r: Result<String, OutsideStore>)
    ensures
        match r {
            Ok(s) => found == Some(s),
            Err(e) => found is None && e.name@ == name@ && e.store_dir@ == store_dir@,
        },
{
    match found {
        Some(s) => Ok(s),
        None => {
            let n = text::chars_of(name);
            let d = text::chars_of(store_dir);
            Err(OutsideStore { name: text::string_of(&n), store_dir: text::string_of(&d) })
        },
    }
}

// ---------------------------------------------------------------------------
// Laws
// ---------------------------------------------------------------------------

/// What becomes an input was mentioned, exists, and is neither a derivation
/// nor an output that is still being built; and every such path becomes one.
pub proof fn sources_are_usable(found: Seq<Seq<char>>, exists: Seq<bool>, outer: Seq<Seq<char>>)
    ensures
        forall|p: Seq<char>| #[trigger]
            sources(found, exists, outer).contains(p) <==> (exists|i: int|
                0 <= i < found.len() && i < exists.len() && #[trigger] found[i] == p && is_source(
                    p,
                    exists[i],
                    outer,
                )),
    decreases found.len(),
{
    if found.len() > 0 {
        let front = found.drop_last();
        let n = found.len() - 1;
        sources_are_usable(front, exists, outer);
        let before = sources(front, exists, outer);
        let now = sources(found, exists, outer);
        assert forall|p: Seq<char>| #[trigger] now.contains(p) <==> (exists|i: int|
            0 <= i < found.len() && i < exists.len() && #[trigger] found[i] == p && is_source(
                p,
                exists[i],
                outer,
            )) by {
            if now.contains(p) {
                let j = choose|j: int| 0 <= j < now.len() && now[j] == p;
                if j < before.len() {
                    assert(before[j] == p);
                    assert(before.contains(p));
                    let i = choose|i: int|
                        0 <= i < front.len() && i < exists.len() && #[trigger] front[i] == p
                            && is_source(p, exists[i], outer);
                    assert(found[i] == p);
                } else {
                    assert(found[n] == p);
                }
            }
            if exists|i: int|
                0 <= i < found.len() && i < exists.len() && #[trigger] found[i] == p && is_source(
                    p,
                    exists[i],
                    outer,
                ) {
                let i = choose|i: int|
                    0 <= i < found.len() && i < exists.len() && #[trigger] found[i] == p
                        && is_source(p, exists[i], outer);
                if i < n {
                    assert(front[i] == p);
                    assert(before.contains(p));
                    let j = choose|j: int| 0 <= j < before.len() && before[j] == p;
                    assert(now[j] == p);
                } else {
                    assert(now[before.len() as int] == p);
                }
            }
        }
    }
}

/// A path below the store lies in the object that its first component below the
/// store names, however deep it lies; the store itself, and what is elsewhere,
/// lies in none.
pub proof fn the_first_component_names_the_object(store_dir: Seq<char>, p: Seq<char>)
    requires
        path::is_abs(store_dir),
    ensures
        ({
            let k = path::comps(store_dir).len() as int;
            &&& !path::under(p, store_dir) ==> object_of(store_dir, p) is None
            &&& path::under(p, store_dir) && path::comps(p).len() == k ==> object_of(store_dir, p)
                is None
            &&& path::under(p, store_dir) && path::comps(p).len() > k ==> object_of(store_dir, p)
                == Some(path::joined(store_dir, path::comps(p)[k]))
        }),
{
    path::comps_well_placed(store_dir);
    if path::under(p, store_dir) {
        path::what_is_below_follows(p, store_dir);
        let rel = path::below(p, store_dir)->0;
        let k = path::comps(store_dir).len() as int;
        if path::comps(p).len() > k {
            assert(path::comps(rel)[0] == path::comps(p)[k]);
        }
    }
}

/// Of the store paths that a text mentions, exactly those are sources that exist,
/// are no derivations and are none of the outputs still to be built; they keep
/// their order.
pub proof fn mentioned_paths_that_exist_are_sources(
    found: Seq<Seq<char>>,
    exists: Seq<bool>,
    outer: Seq<Seq<char>>,
    p: Seq<char>,
    there: bool,
)
    requires
        exists.len() == found.len(),
    ensures
        sources(Seq::empty(), Seq::empty(), outer).len() == 0,
        sources(found.push(p), exists.push(there), outer) == if there && !outer.contains(p) && !(
        p.len() >= 4 && p.skip(p.len() - 4) == ".drv"@) {
            sources(found, exists, outer).push(p)
        } else {
            sources(found, exists, outer)
        },
{
    reveal_strlit(".drv");
    assert(found.push(p).drop_last() =~= found);
    later_answers(found, exists, exists.push(there), outer);
    assert(".drv"@.is_suffix_of(p) <==> p.len() >= 4 && p.skip(p.len() - 4) == ".drv"@) by {
        if p.len() >= 4 {
            assert(p.subrange(p.len() - 4, p.len() as int) =~= p.skip(p.len() - 4));
        }
    }
}

proof fn later_answers(found: Seq<Seq<char>>, a: Seq<bool>, b: Seq<bool>, outer: Seq<Seq<char>>)
    requires
        a.len() >= found.len(),
        a.is_prefix_of(b),
    ensures
        sources(found, a, outer) == sources(found, b, outer),
    decreases found.len(),
{
    if found.len() > 0 {
        later_answers(found.drop_last(), a, b, outer);
        assert(a[found.len() - 1] == b[found.len() - 1]);
    }
}

/// The home of a program in the store is two levels above it.
pub proof fn programs_lie_two_levels_below_their_home(store_dir: Seq<char>, program: Seq<char>)
    ensures
        home_of(store_dir, program) is Outside <==> !path::under(program, store_dir),
        home_of(store_dir, program) matches HomeView::Object(h) ==> path::comps(program).len() >= 2
            && path::comps(h) == path::comps(program).take(path::comps(program).len() - 2),
        path::under(program, store_dir) && path::comps(program).len() > 2 ==> home_of(
            store_dir,
            program,
        ) is Object,
{
    path::parent_drops_last(program);
    path::comps_well_placed(program);
    if path::parent(program) is Some {
        let bin = path::parent(program)->0;
        path::parent_drops_last(bin);
        let cs = path::comps(program);
        assert(cs.drop_last().len() == cs.len() - 1);
        if path::parent(bin) is Some {
            assert(cs.drop_last().drop_last() =~= cs.take(cs.len() - 2));
        }
    }
}

} // verus!
