//! Sets of texts and of derived paths.
use crate::derived;
use crate::derived::DerivedPath;
use crate::derived::PathView;
use crate::order;
use crate::text;
use crate::text::Class;
use crate::views;
use vstd::prelude::*;

verus! {

broadcast use views::texts_push;

/// One element more in a list is one element more in its set.
proof fn set_of_push<A>(s: Seq<A>, x: A)
    ensures
        s.push(x).to_set() == s.to_set().insert(x),
{
    let more = s.push(x);
    assert forall|y: A| more.to_set().contains(y) <==> s.to_set().insert(x).contains(y) by {
        if more.contains(y) {
            let i = choose|i: int| 0 <= i < more.len() && more[i] == y;
            if i < s.len() {
                assert(s[i] == y);
            }
        }
        if s.contains(y) {
            let i = choose|i: int| 0 <= i < s.len() && s[i] == y;
            assert(more[i] == y);
        }
        assert(more[s.len() as int] == x);
    }
    assert(more.to_set() =~= s.to_set().insert(x));
}

/// The list without an element.
pub open spec fn all_but<A>(s: Seq<A>, x: A) -> Seq<A>
    decreases s.len(),
{
    if s.len() == 0 {
        Seq::empty()
    } else if s.last() == x {
        all_but(s.drop_last(), x)
    } else {
        all_but(s.drop_last(), x).push(s.last())
    }
}

/// A list without an element has that element's set without it.
proof fn set_of_all_but<A>(s: Seq<A>, x: A)
    ensures
        all_but(s, x).to_set() == s.to_set().remove(x),
    decreases s.len(),
{
    if s.len() == 0 {
        assert(all_but(s, x).to_set() =~= s.to_set().remove(x));
    } else {
        let front = s.drop_last();
        set_of_all_but(front, x);
        set_of_push(front, s.last());
        assert(front.push(s.last()) =~= s);
        set_of_push(all_but(front, x), s.last());
        assert(all_but(s, x).to_set() =~= s.to_set().remove(x));
    }
}

/// A set of texts.
#[derive(Debug, Clone, Default)]
pub struct TextSet {
    pub items: Vec<String>,
}

impl View for TextSet {
    type V = Set<Seq<char>>;

    open spec fn view(&self) -> Set<Seq<char>> {
        views::texts(self.items@).to_set()
    }
}

impl TextSet {
    /// The empty set.
    pub fn new() -> (r: TextSet)
        ensures
            r@ == Set::<Seq<char>>::empty(),
    {
        let r = TextSet { items: Vec::new() };
        assert(r@ =~= Set::<Seq<char>>::empty());
        r
    }

    /// Whether the set has a text.
    pub fn contains(&self, s: &str) -> (r: bool)
        ensures
            r == self@.contains(s@),
    {
        text::list_has(&self.items, s)
    }

    /// Adds a text.
    pub fn insert(&mut self, s: &str)
        ensures
            final(self)@ == old(self)@.insert(s@),
    {
        let ghost before = views::texts(self.items@);
        if self.contains(s) {
            assert(self@.insert(s@) =~= self@);
        } else {
            let c = text::chars_of(s);
            self.items.push(text::string_of(&c));
            proof {
                set_of_push(before, s@);
            }
        }
    }

    /// Takes a text out.
    pub fn remove(&mut self, s: &str)
        ensures
            final(self)@ == old(self)@.remove(s@),
    {
        let ghost all = views::texts(self.items@);
        let mut out: Vec<String> = Vec::new();
        assert(views::texts(out@) =~= all_but(all.take(0), s@));
        for i in 0..self.items.len()
            invariant
                all == views::texts(self.items@),
                views::texts(out@) == all_but(all.take(i as int), s@),
        {
            assert(all.take(i + 1).drop_last() =~= all.take(i as int));
            assert(all.take(i + 1).last() == self.items@[i as int]@);
            if !text::same_str(self.items[i].as_str(), s) {
                out.push(self.items[i].clone());
            }
        }
        proof {
            assert(all.take(all.len() as int) =~= all);
            set_of_all_but(all, s@);
        }
        self.items = out;
    }
}

// ---------------------------------------------------------------------------
// Encoded files
// ---------------------------------------------------------------------------

/// The build path in an encoded file: what stands between its first two
/// colons, or all of it where there is no colon.
pub open spec fn build_path_in(e: Seq<char>) -> Seq<char> {
    let ps = text::split(e, Class::Only(':'));
    if ps.len() > 1 {
        ps[1]
    } else {
        e
    }
}

/// The build path in an encoded file.
pub fn encoded_build_path(e: &str) -> (r: String)
    ensures
        r@ == build_path_in(e@),
{
    let c = text::chars_of(e);
    let ps = text::split_by(&c, Class::Only(':'));
    assert(views::pieces(ps@).len() == ps@.len());
    if ps.len() > 1 {
        assert(views::pieces(ps@)[1] == ps@[1]@);
        text::string_of(&ps[1])
    } else {
        text::string_of(&c)
    }
}

/// An encoded file as a row: its build path, then all of it.
pub open spec fn encoded_row(e: Seq<char>) -> order::Row {
    seq![build_path_in(e), e]
}

/// The rows of encoded files.
pub open spec fn encoded_rows(es: Seq<Seq<char>>) -> Seq<order::Row> {
    es.map_values(|e: Seq<char>| encoded_row(e))
}

/// The encoded files of a set, by build path and then by text, each once.
pub open spec fn in_order(s: Set<Seq<char>>, es: Seq<Seq<char>>) -> bool {
    &&& order::ascending(encoded_rows(es))
    &&& order::distinct(encoded_rows(es))
    &&& es.to_set() == s
}

impl TextSet {
    /// The encoded files of the set, by build path and then by text.
    pub fn by_build_path(&self) -> (r: Vec<String>)
        ensures
            in_order(self@, views::texts(r@)),
    {
        let ghost all = views::texts(self.items@);
        let ghost want = encoded_rows(all);
        let mut rows: Vec<Vec<String>> = Vec::new();
        assert(order::rows(rows@) =~= order::sorted_set(want.take(0)));
        for i in 0..self.items.len()
            invariant
                all == views::texts(self.items@),
                want == encoded_rows(all),
                order::rows(rows@) == order::sorted_set(want.take(i as int)),
        {
            proof {
                assert(want.take(i + 1).drop_last() =~= want.take(i as int));
                assert(want.take(i + 1).last() == encoded_row(self.items@[i as int]@));
            }
            let mut row: Vec<String> = Vec::new();
            row.push(encoded_build_path(self.items[i].as_str()));
            row.push(self.items[i].clone());
            assert(views::texts(row@) =~= encoded_row(self.items@[i as int]@));
            order::put_new_row(&mut rows, row);
        }
        let ghost sorted = order::sorted_set(want);
        proof {
            assert(want.take(want.len() as int) =~= want);
            order::sorted_set_is_ordered(want);
            assert forall|i: int| 0 <= i < sorted.len() implies (#[trigger] sorted[i]).len() == 2
                && sorted[i] == encoded_row(sorted[i][1]) by {
                assert(sorted.contains(sorted[i]));
                let j = choose|j: int| 0 <= j < want.len() && want[j] == sorted[i];
                assert(want[j] == encoded_row(all[j]));
            }
        }
        let mut out: Vec<String> = Vec::new();
        for i in 0..rows.len()
            invariant
                order::rows(rows@) == sorted,
                out@.len() == i,
                forall|j: int|
                    0 <= j < sorted.len() ==> (#[trigger] sorted[j]).len() == 2 && sorted[j]
                        == encoded_row(sorted[j][1]),
                forall|j: int| 0 <= j < i ==> #[trigger] views::texts(out@)[j] == sorted[j][1],
        {
            assert(sorted[i as int] == views::texts(rows@[i as int]@));
            assert(sorted[i as int].len() == 2);
            assert(rows@[i as int]@.len() == 2);
            let ghost before = views::texts(out@);
            out.push(rows[i][1].clone());
            assert(views::texts(out@) == before.push(sorted[i as int][1]));
        }
        proof {
            let es = views::texts(out@);
            assert(encoded_rows(es) =~= sorted);
            assert forall|e: Seq<char>| es.to_set().contains(e) <==> self@.contains(e) by {
                if es.contains(e) {
                    let i = choose|i: int| 0 <= i < es.len() && es[i] == e;
                    assert(sorted.contains(sorted[i]));
                    let j = choose|j: int| 0 <= j < want.len() && want[j] == sorted[i];
                    assert(want[j][1] == all[j]);
                    assert(all.contains(e));
                }
                if all.contains(e) {
                    let j = choose|j: int| 0 <= j < all.len() && all[j] == e;
                    assert(want[j] == encoded_row(e));
                    assert(want.contains(encoded_row(e)));
                    assert(sorted.contains(encoded_row(e)));
                    let i = choose|i: int| 0 <= i < sorted.len() && sorted[i] == encoded_row(e);
                    assert(sorted[i][1] == e);
                    assert(es[i] == e);
                }
            }
            assert(es.to_set() =~= self@);
        }
        out
    }
}

// ---------------------------------------------------------------------------
// Derived paths
// ---------------------------------------------------------------------------

/// The views of a list of derived paths.
pub open spec fn path_views(v: Seq<DerivedPath>) -> Seq<PathView> {
    v.map_values(|p: DerivedPath| p@)
}

/// A set of derived paths.
#[derive(Debug, Clone, Default)]
pub struct PathSet {
    pub items: Vec<DerivedPath>,
}

impl View for PathSet {
    type V = Set<PathView>;

    open spec fn view(&self) -> Set<PathView> {
        path_views(self.items@).to_set()
    }
}

impl PathSet {
    /// The empty set.
    pub fn new() -> (r: PathSet)
        ensures
            r@ == Set::<PathView>::empty(),
    {
        let r = PathSet { items: Vec::new() };
        assert(r@ =~= Set::<PathView>::empty());
        r
    }

    /// Whether the set has a path.
    pub fn contains(&self, p: &DerivedPath) -> (r: bool)
        ensures
            r == self@.contains(p@),
    {
        let ghost all = path_views(self.items@);
        for i in 0..self.items.len()
            invariant
                all == path_views(self.items@),
                forall|j: int| 0 <= j < i ==> all[j] != p@,
        {
            if self.items[i].same(p) {
                assert(all[i as int] == p@);
                return true;
            }
        }
        false
    }

    /// Adds a path.
    pub fn insert(&mut self, p: &DerivedPath)
        ensures
            final(self)@ == old(self)@.insert(p@),
    {
        let ghost before = path_views(self.items@);
        if self.contains(p) {
            assert(self@.insert(p@) =~= self@);
        } else {
            self.items.push(p.dup());
            proof {
                assert(path_views(self.items@) =~= before.push(p@));
                set_of_push(before, p@);
            }
        }
    }

    /// Adds the path of an object that is in the store.
    pub fn insert_opaque(&mut self, store_path: &str)
        ensures
            final(self)@ == old(self)@.insert(derived::opaque_path(store_path@)),
    {
        let p = DerivedPath::opaque(store_path);
        self.insert(&p);
    }

    /// Adds the paths of objects that are in the store.
    pub fn insert_all_opaque(&mut self, ps: &Vec<String>)
        ensures
            final(self)@ == with_opaque(old(self)@, views::texts(ps@)),
    {
        let ghost all = views::texts(ps@);
        let ghost before = self@;
        assert(all.take(0) =~= Seq::<Seq<char>>::empty());
        for i in 0..ps.len()
            invariant
                all == views::texts(ps@),
                self@ == with_opaque(before, all.take(i as int)),
        {
            assert(all.take(i + 1).drop_last() =~= all.take(i as int));
            assert(all.take(i + 1).last() == ps@[i as int]@);
            self.insert_opaque(ps[i].as_str());
        }
        assert(all.take(all.len() as int) =~= all);
    }

    /// Takes a path out.
    pub fn remove(&mut self, p: &DerivedPath)
        ensures
            final(self)@ == old(self)@.remove(p@),
    {
        let ghost all = path_views(self.items@);
        let mut out: Vec<DerivedPath> = Vec::new();
        assert(path_views(out@) =~= all_but(all.take(0), p@));
        for i in 0..self.items.len()
            invariant
                all == path_views(self.items@),
                path_views(out@) == all_but(all.take(i as int), p@),
        {
            assert(all.take(i + 1).drop_last() =~= all.take(i as int));
            assert(all.take(i + 1).last() == self.items@[i as int]@);
            if !self.items[i].same(p) {
                let ghost before = path_views(out@);
                out.push(self.items[i].dup());
                assert(path_views(out@) =~= before.push(self.items@[i as int]@));
            }
        }
        proof {
            assert(all.take(all.len() as int) =~= all);
            set_of_all_but(all, p@);
        }
        self.items = out;
    }
}

/// The set with the paths of objects that are in the store.
pub open spec fn with_opaque(s: Set<PathView>, ps: Seq<Seq<char>>) -> Set<PathView>
    decreases ps.len(),
{
    if ps.len() == 0 {
        s
    } else {
        with_opaque(s, ps.drop_last()).insert(derived::opaque_path(ps.last()))
    }
}

// ---------------------------------------------------------------------------
// Laws
// ---------------------------------------------------------------------------

/// The order in which encoded files are handed to a task depends on the files
/// alone.
pub proof fn one_order(s: Set<Seq<char>>, a: Seq<Seq<char>>, b: Seq<Seq<char>>)
    requires
        in_order(s, a),
        in_order(s, b),
    ensures
        a == b,
{
    let ra = encoded_rows(a);
    let rb = encoded_rows(b);
    assert forall|r: order::Row| ra.contains(r) implies rb.contains(r) by {
        let i = choose|i: int| 0 <= i < ra.len() && ra[i] == r;
        assert(a.to_set().contains(a[i]));
        assert(b.to_set().contains(a[i]));
        let j = choose|j: int| 0 <= j < b.len() && b[j] == a[i];
        assert(rb[j] == r);
    }
    assert forall|r: order::Row| rb.contains(r) implies ra.contains(r) by {
        let i = choose|i: int| 0 <= i < rb.len() && rb[i] == r;
        assert(b.to_set().contains(b[i]));
        assert(a.to_set().contains(b[i]));
        let j = choose|j: int| 0 <= j < a.len() && a[j] == b[i];
        assert(ra[j] == r);
    }
    order::ordered_sets_agree(ra, rb);
    assert forall|i: int| 0 <= i < a.len() implies a[i] == b[i] by {
        assert(ra[i] == rb[i]);
        assert(ra[i][1] == a[i] && rb[i][1] == b[i]);
    }
    assert(a =~= b);
}

/// The build path of an encoded file stands between its first two colons.
pub proof fn build_paths_stand_between_colons(store: Seq<char>, p: Seq<char>, rest: Seq<char>)
    requires
        !store.contains(':'),
        !p.contains(':'),
    ensures
        build_path_in(store + seq![':'] + p) == p,
        build_path_in(store + seq![':'] + p + seq![':'] + rest) == p,
        build_path_in(p) == p,
{
    let k = Class::Only(':');
    crate::path::split_whole(store, ':');
    crate::path::split_whole(p, ':');
    text::split_parts(store, ':', p, k);
    let two = store + seq![':'] + p;
    text::split_parts(two, ':', rest, k);
    assert(text::split(two, k) =~= seq![store, p]);
    assert((text::split(two, k) + text::split(rest, k))[1] == p);
    text::split_nonempty(rest, k);
}

} // verus!
