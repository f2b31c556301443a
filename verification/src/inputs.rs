//! The inputs of a task: files by the place in the build tree at which they
//! lie, one file at each place.
use crate::derived;
use crate::derived::DerivedFile;
use crate::derived::DerivedPath;
use crate::derived::FileView;
use crate::order;
use crate::path;
use crate::text;
use crate::views;
use vstd::prelude::*;

verus! {

broadcast use {views::texts_push, derived::files_push};

/// A place in the build tree, however it is spelled.
pub type Place = Seq<Seq<char>>;

/// The place of a file.
pub open spec fn place_of(f: FileView) -> Place {
    path::comps(f.build_path)
}

/// The files by place; a later file takes the place of an earlier one.
pub open spec fn contents(fs: Seq<FileView>) -> Map<Place, FileView>
    decreases fs.len(),
{
    if fs.len() == 0 {
        Map::empty()
    } else {
        contents(fs.drop_last()).insert(place_of(fs.last()), fs.last())
    }
}

/// No two files lie at one place.
pub open spec fn apart(fs: Seq<FileView>) -> bool {
    forall|i: int, j: int|
        0 <= i < j < fs.len() ==> place_of(#[trigger] fs[i]) != place_of(#[trigger] fs[j])
}

/// Where the files lie apart, each is found at its place, and nothing else is.
proof fn contents_of_apart(fs: Seq<FileView>)
    requires
        apart(fs),
    ensures
        forall|i: int|
            0 <= i < fs.len() ==> contents(fs).contains_key(place_of(#[trigger] fs[i]))
                && contents(fs)[place_of(fs[i])] == fs[i],
        forall|k: Place| #[trigger]
            contents(fs).contains_key(k) ==> exists|i: int|
                0 <= i < fs.len() && place_of(#[trigger] fs[i]) == k,
    decreases fs.len(),
{
    if fs.len() > 0 {
        let front = fs.drop_last();
        assert forall|i: int, j: int| 0 <= i < j < front.len() implies place_of(
            #[trigger] front[i],
        ) != place_of(#[trigger] front[j]) by {
            assert(front[i] == fs[i] && front[j] == fs[j]);
        }
        contents_of_apart(front);
        assert forall|i: int| 0 <= i < fs.len() implies contents(fs).contains_key(
            place_of(#[trigger] fs[i]),
        ) && contents(fs)[place_of(fs[i])] == fs[i] by {
            if i < front.len() {
                assert(front[i] == fs[i]);
                assert(place_of(fs[i]) != place_of(fs[fs.len() - 1]));
            }
        }
        assert forall|k: Place| #[trigger] contents(fs).contains_key(k) implies exists|i: int|
            0 <= i < fs.len() && place_of(#[trigger] fs[i]) == k by {
            if k == place_of(fs.last()) {
                assert(place_of(fs[fs.len() - 1]) == k);
            } else {
                assert(contents(front).contains_key(k));
                let i = choose|i: int| 0 <= i < front.len() && place_of(#[trigger] front[i]) == k;
                assert(place_of(fs[i]) == k);
            }
        }
    }
}

/// The inputs of a task.
#[derive(Debug, Default)]
pub struct InputSet {
    files: Vec<DerivedFile>,
}

impl View for InputSet {
    type V = Map<Place, FileView>;

    closed spec fn view(&self) -> Map<Place, FileView> {
        contents(derived::files(self.files@))
    }
}

/// The list without the file at an index has what the list has, but at that file's place.
proof fn contents_without(fs: Seq<FileView>, n: int)
    requires
        apart(fs),
        0 <= n < fs.len(),
    ensures
        apart(fs.remove(n)),
        contents(fs.remove(n)) == contents(fs).remove(place_of(fs[n])),
{
    let rest = fs.remove(n);
    assert forall|i: int, j: int| 0 <= i < j < rest.len() implies place_of(#[trigger] rest[i])
        != place_of(#[trigger] rest[j]) by {
        let a = if i < n { i } else { i + 1 };
        let b = if j < n { j } else { j + 1 };
        assert(rest[i] == fs[a] && rest[j] == fs[b]);
    }
    contents_of_apart(fs);
    contents_of_apart(rest);
    let want = contents(fs).remove(place_of(fs[n]));
    assert forall|k: Place| contents(rest).contains_key(k) <==> want.contains_key(k) by {
        if contents(rest).contains_key(k) {
            let i = choose|i: int| 0 <= i < rest.len() && place_of(#[trigger] rest[i]) == k;
            let a = if i < n { i } else { i + 1 };
            assert(rest[i] == fs[a]);
            assert(place_of(fs[a]) != place_of(fs[n])) by {
                if a < n {
                    assert(place_of(fs[a]) != place_of(fs[n]));
                } else {
                    assert(place_of(fs[n]) != place_of(fs[a]));
                }
            }
        }
        if want.contains_key(k) {
            assert(contents(fs).contains_key(k));
            let a = choose|a: int| 0 <= a < fs.len() && place_of(#[trigger] fs[a]) == k;
            let i = if a < n { a } else { a - 1 };
            assert(a != n);
            assert(rest[i] == fs[a]);
        }
    }
    assert forall|k: Place| contents(rest).contains_key(k) implies contents(rest)[k] == want[k] by {
        let i = choose|i: int| 0 <= i < rest.len() && place_of(#[trigger] rest[i]) == k;
        let a = if i < n { i } else { i + 1 };
        assert(rest[i] == fs[a]);
        assert(contents(rest)[place_of(rest[i])] == rest[i]);
        assert(contents(fs)[place_of(fs[a])] == fs[a]);
        assert(want.contains_key(k));
    }
    assert(contents(rest) =~= want);
}

/// A file at a place that is free.
proof fn contents_with(fs: Seq<FileView>, f: FileView)
    requires
        apart(fs),
        !contents(fs).contains_key(place_of(f)),
    ensures
        apart(fs.push(f)),
        contents(fs.push(f)) == contents(fs).insert(place_of(f), f),
{
    let more = fs.push(f);
    contents_of_apart(fs);
    assert(more.drop_last() =~= fs);
    assert forall|i: int, j: int| 0 <= i < j < more.len() implies place_of(#[trigger] more[i])
        != place_of(#[trigger] more[j]) by {
        assert(more[i] == fs[i]);
        if j < fs.len() {
            assert(more[j] == fs[j]);
        } else {
            assert(contents(fs).contains_key(place_of(fs[i])));
        }
    }
}

impl InputSet {
    #[verifier::type_invariant]
    closed spec fn files_apart(self) -> bool {
        apart(derived::files(self.files@))
    }

    /// No inputs.
    pub fn new() -> (r: InputSet)
        ensures
            r@ == Map::<Place, FileView>::empty(),
    {
        InputSet { files: Vec::new() }
    }

    /// The index of the file at a place.
    fn index_of(&self, p: &str) -> (r: Option<usize>)
        ensures
            match r {
                Some(i) => i < self.files@.len() && place_of(derived::files(self.files@)[i as int])
                    == path::comps(p@) && self@.contains_key(path::comps(p@)),
                None => !self@.contains_key(path::comps(p@)),
            },
    {
        proof {
            use_type_invariant(self);
            contents_of_apart(derived::files(self.files@));
        }
        let ghost all = derived::files(self.files@);
        for i in 0..self.files.len()
            invariant
                all == derived::files(self.files@),
                self@ == contents(all),
                apart(all),
                forall|j: int| 0 <= j < i ==> place_of(#[trigger] all[j]) != path::comps(p@),
        {
            assert(all[i as int] == self.files@[i as int]@);
            if path::eq_path(self.files[i].build_path.as_str(), p) {
                proof {
                    contents_of_apart(all);
                }
                return Some(i);
            }
        }
        proof {
            contents_of_apart(all);
        }
        None
    }

    /// Whether a file lies at a place.
    pub fn contains(&self, p: &str) -> (r: bool)
        ensures
            r == self@.contains_key(path::comps(p@)),
    {
        self.index_of(p).is_some()
    }

    /// Takes the file at a place out and tells whether there was one.
    pub fn remove(&mut self, p: &str) -> (r: bool)
        ensures
            r == old(self)@.contains_key(path::comps(p@)),
            final(self)@ == old(self)@.remove(path::comps(p@)),
    {
        match self.index_of(p) {
            Some(n) => {
                proof {
                    use_type_invariant(&*self);
                    contents_without(derived::files(self.files@), n as int);
                }
                let ghost all = derived::files(self.files@);
                let mut v = derived::dup_files(&self.files);
                let ghost before = v@;
                v.remove(n);
                assert(derived::files(v@) =~= derived::files(before).remove(n as int));
                self.files = v;
                true
            },
            None => {
                assert(self@.remove(path::comps(p@)) =~= self@);
                false
            },
        }
    }

    /// Puts a file at its place; what lay there goes.
    pub fn insert(&mut self, f: DerivedFile)
        ensures
            final(self)@ == old(self)@.insert(place_of(f@), f@),
    {
        let ghost before = self@;
        self.remove(f.build_path.as_str());
        proof {
            use_type_invariant(&*self);
            assert(!self@.contains_key(place_of(f@)));
            contents_with(derived::files(self.files@), f@);
            assert(before.remove(place_of(f@)).insert(place_of(f@), f@) =~= before.insert(
                place_of(f@),
                f@,
            ));
        }
        let mut v: Vec<DerivedFile> = derived::dup_files(&self.files);
        v.push(f);
        self.files = v;
    }

    /// Puts a file at its place where nothing lies there yet.
    pub fn add(&mut self, f: DerivedFile)
        ensures
            final(self)@ == with_file(old(self)@, f@),
    {
        if !self.contains(f.build_path.as_str()) {
            self.insert(f);
        }
    }

    /// Puts files at their places, one after the other.
    pub fn insert_all(&mut self, fs: &Vec<DerivedFile>)
        ensures
            final(self)@ == with_all(old(self)@, derived::files(fs@)),
    {
        let ghost all = derived::files(fs@);
        let ghost before = self@;
        assert(all.take(0) =~= Seq::<FileView>::empty());
        for i in 0..fs.len()
            invariant
                all == derived::files(fs@),
                self@ == with_all(before, all.take(i as int)),
        {
            assert(all.take(i + 1).drop_last() =~= all.take(i as int));
            assert(all.take(i + 1).last() == fs@[i as int]@);
            self.insert(fs[i].dup());
        }
        assert(all.take(all.len() as int) =~= all);
    }

    /// Puts files at those of their places that are free, one after the other.
    pub fn add_all(&mut self, fs: &Vec<DerivedFile>)
        ensures
            final(self)@ == with_free(old(self)@, derived::files(fs@)),
    {
        let ghost all = derived::files(fs@);
        let ghost before = self@;
        assert(all.take(0) =~= Seq::<FileView>::empty());
        for i in 0..fs.len()
            invariant
                all == derived::files(fs@),
                self@ == with_free(before, all.take(i as int)),
        {
            assert(all.take(i + 1).drop_last() =~= all.take(i as int));
            assert(all.take(i + 1).last() == fs@[i as int]@);
            self.add(fs[i].dup());
        }
        assert(all.take(all.len() as int) =~= all);
    }

    /// Takes the files at some places out; returns those places at which there was one.
    pub fn remove_all(&mut self, ps: &Vec<String>) -> (dropped: Vec<String>)
        ensures
            final(self)@ == without_all(old(self)@, views::texts(ps@)),
            views::texts(dropped@) == taken_out(old(self)@, views::texts(ps@)),
    {
        let ghost all = views::texts(ps@);
        let ghost before = self@;
        let mut dropped: Vec<String> = Vec::new();
        assert(all.take(0) =~= Seq::<Seq<char>>::empty());
        assert(views::texts(dropped@) =~= Seq::<Seq<char>>::empty());
        for i in 0..ps.len()
            invariant
                all == views::texts(ps@),
                self@ == without_all(before, all.take(i as int)),
                views::texts(dropped@) == taken_out(before, all.take(i as int)),
        {
            assert(all.take(i + 1).drop_last() =~= all.take(i as int));
            assert(all.take(i + 1).last() == ps@[i as int]@);
            if self.remove(ps[i].as_str()) {
                dropped.push(ps[i].clone());
            }
        }
        assert(all.take(all.len() as int) =~= all);
        dropped
    }

    /// The build paths that end in an extension, each place once.
    pub fn with_extension(&self, ext: &str) -> (r: Vec<String>)
        ensures
            views::texts(r@).no_duplicates(),
            forall|p: Seq<char>| #[trigger]
                views::texts(r@).contains(p) <==> path::extension(p) == Some(ext@)
                    && self@.contains_key(path::comps(p)) && self@[path::comps(p)].build_path == p,
    {
        proof {
            use_type_invariant(self);
            contents_of_apart(derived::files(self.files@));
        }
        let ghost all = derived::files(self.files@);
        let mut out: Vec<String> = Vec::new();
        assert(views::texts(out@) =~= Seq::<Seq<char>>::empty());
        for n in 0..self.files.len()
            invariant
                all == derived::files(self.files@),
                self@ == contents(all),
                apart(all),
                views::texts(out@).no_duplicates(),
                forall|p: Seq<char>| #[trigger]
                    views::texts(out@).contains(p) <==> path::extension(p) == Some(ext@) && (
                    exists|i: int| 0 <= i < n && (#[trigger] all[i]).build_path == p),
        {
            let ghost before = views::texts(out@);
            let ghost here = all[n as int].build_path;
            assert(all[n as int] == self.files@[n as int]@);
            let c = text::chars_of(self.files[n].build_path.as_str());
            if path::has_extension(&c, ext) {
                proof {
                    if before.contains(here) {
                        let i = choose|i: int| 0 <= i < n && (#[trigger] all[i]).build_path == here;
                        assert(place_of(all[i]) != place_of(all[n as int]));
                    }
                }
                out.push(self.files[n].build_path.clone());
                proof {
                    let now = views::texts(out@);
                    assert(now == before.push(here));
                    assert forall|p: Seq<char>| #[trigger] now.contains(p) <==> (before.contains(p)
                        || p == here) by {
                        if now.contains(p) {
                            let i = choose|i: int| 0 <= i < now.len() && now[i] == p;
                            if i < before.len() {
                                assert(before[i] == p);
                            }
                        }
                        if before.contains(p) {
                            let i = choose|i: int| 0 <= i < before.len() && before[i] == p;
                            assert(now[i] == p);
                        }
                        assert(now[before.len() as int] == here);
                    }
                }
            }
            assert forall|p: Seq<char>| #[trigger] views::texts(out@).contains(p)
                <==> path::extension(p) == Some(ext@) && (exists|i: int|
                0 <= i < n + 1 && (#[trigger] all[i]).build_path == p) by {
                if p == here {
                    assert(all[n as int].build_path == p);
                }
                assert(before.contains(p) || !before.contains(p));
            }
        }
        proof {
            contents_of_apart(all);
            assert forall|p: Seq<char>| #[trigger] views::texts(out@).contains(p)
                <==> path::extension(p) == Some(ext@) && self@.contains_key(path::comps(p))
                && self@[path::comps(p)].build_path == p by {
                if self@.contains_key(path::comps(p)) && self@[path::comps(p)].build_path == p {
                    let i = choose|i: int|
                        0 <= i < all.len() && place_of(#[trigger] all[i]) == path::comps(p);
                    assert(all[i].build_path == p);
                }
                if exists|i: int| 0 <= i < all.len() && (#[trigger] all[i]).build_path == p {
                    let i = choose|i: int| 0 <= i < all.len() && (#[trigger] all[i]).build_path
                        == p;
                    assert(contents(all)[place_of(all[i])] == all[i]);
                }
            }
        }
        out
    }

    /// The inputs without what lies at some places, under any spelling.
    pub fn without(&self, own: &Vec<String>) -> (r: InputSet)
        ensures
            r@ == without_all(self@, spellings(views::texts(own@))),
    {
        proof {
            use_type_invariant(self);
        }
        let mut r = InputSet { files: derived::dup_files(&self.files) };
        let all = spelled(own);
        let _ = r.remove_all(&all);
        r
    }

    /// The inputs in order, each spelled without a leading `.`, and each once.
    pub fn listing(&self) -> (r: Vec<DerivedFile>)
        ensures
            lists(self@, derived::files(r@)),
            at_their_places(self@),
    {
        proof {
            use_type_invariant(self);
            contents_of_apart(derived::files(self.files@));
        }
        let ghost all = derived::files(self.files@);
        let ghost want = all.map_values(|f: FileView| row_of(tidied(f)));
        let mut rows: Vec<Vec<String>> = Vec::new();
        assert(order::rows(rows@) =~= order::sorted_set(want.take(0)));
        for i in 0..self.files.len()
            invariant
                all == derived::files(self.files@),
                want == all.map_values(|f: FileView| row_of(tidied(f))),
                order::rows(rows@) == order::sorted_set(want.take(i as int)),
        {
            proof {
                assert(want.take(i + 1).drop_last() =~= want.take(i as int));
                assert(want.take(i + 1).last() == row_of(tidied(self.files@[i as int]@)));
            }
            order::put_new_row(&mut rows, row(&tidy(&self.files[i])));
        }
        let ghost sorted = order::sorted_set(want);
        proof {
            assert(want.take(want.len() as int) =~= want);
            order::sorted_set_is_ordered(want);
            assert forall|i: int| 0 <= i < sorted.len() implies is_row(#[trigger] sorted[i]) by {
                assert(sorted.contains(sorted[i]));
                let j = choose|j: int| 0 <= j < want.len() && want[j] == sorted[i];
                row_round_trip(tidied(all[j]));
            }
        }
        let mut out: Vec<DerivedFile> = Vec::new();
        for i in 0..rows.len()
            invariant
                order::rows(rows@) == sorted,
                out@.len() == i,
                forall|j: int| 0 <= j < sorted.len() ==> is_row(#[trigger] sorted[j]),
                forall|j: int|
                    0 <= j < i ==> row_of(#[trigger] derived::files(out@)[j]) == sorted[j],
        {
            assert(sorted[i as int] == views::texts(rows@[i as int]@));
            assert(is_row(sorted[i as int]));
            let ghost before = derived::files(out@);
            let f = unrow(&rows[i]);
            out.push(f);
            assert(derived::files(out@) =~= before.push(f@));
        }
        proof {
            let fs = derived::files(out@);
            assert(file_rows(fs) =~= sorted);
            assert forall|f: FileView| #[trigger] fs.contains(f) <==> (exists|k: Place| #[trigger]
                self@.contains_key(k) && f == tidied(self@[k])) by {
                if fs.contains(f) {
                    let i = choose|i: int| 0 <= i < fs.len() && fs[i] == f;
                    assert(row_of(f) == sorted[i]);
                    assert(sorted.contains(sorted[i]));
                    let j = choose|j: int| 0 <= j < want.len() && want[j] == sorted[i];
                    assert(row_of(tidied(all[j])) == row_of(f));
                    row_tells(tidied(all[j]), f);
                    assert(self@.contains_key(place_of(all[j])));
                }
                if exists|k: Place| #[trigger] self@.contains_key(k) && f == tidied(self@[k]) {
                    let k = choose|k: Place| #[trigger]
                        self@.contains_key(k) && f == tidied(self@[k]);
                    let j = choose|j: int| 0 <= j < all.len() && place_of(#[trigger] all[j]) == k;
                    assert(self@[k] == all[j]);
                    assert(want[j] == row_of(f));
                    assert(want.contains(row_of(f)));
                    assert(sorted.contains(row_of(f)));
                    let i = choose|i: int| 0 <= i < sorted.len() && sorted[i] == row_of(f);
                    assert(row_of(fs[i]) == row_of(f));
                    row_tells(fs[i], f);
                }
            }
        }
        out
    }
}

/// The inputs with a file more, where its place is free.
pub open spec fn with_file(m: Map<Place, FileView>, f: FileView) -> Map<Place, FileView> {
    if m.contains_key(place_of(f)) {
        m
    } else {
        m.insert(place_of(f), f)
    }
}

/// The inputs with files put at their places, one after the other.
pub open spec fn with_all(m: Map<Place, FileView>, fs: Seq<FileView>) -> Map<Place, FileView>
    decreases fs.len(),
{
    if fs.len() == 0 {
        m
    } else {
        with_all(m, fs.drop_last()).insert(place_of(fs.last()), fs.last())
    }
}

/// The inputs with files put at free places, one after the other.
pub open spec fn with_free(m: Map<Place, FileView>, fs: Seq<FileView>) -> Map<Place, FileView>
    decreases fs.len(),
{
    if fs.len() == 0 {
        m
    } else {
        with_file(with_free(m, fs.drop_last()), fs.last())
    }
}

/// The inputs without those at some places.
pub open spec fn without_all(m: Map<Place, FileView>, ps: Seq<Seq<char>>) -> Map<Place, FileView>
    decreases ps.len(),
{
    if ps.len() == 0 {
        m
    } else {
        without_all(m, ps.drop_last()).remove(path::comps(ps.last()))
    }
}

/// The places at which something lay when they were cleared, one after the other.
pub open spec fn taken_out(m: Map<Place, FileView>, ps: Seq<Seq<char>>) -> Seq<Seq<char>>
    decreases ps.len(),
{
    if ps.len() == 0 {
        Seq::empty()
    } else if without_all(m, ps.drop_last()).contains_key(path::comps(ps.last())) {
        taken_out(m, ps.drop_last()).push(ps.last())
    } else {
        taken_out(m, ps.drop_last())
    }
}

// ---------------------------------------------------------------------------
// The list of a task's inputs
// ---------------------------------------------------------------------------

/// A path without a leading `.`.
pub open spec fn without_dot(p: Seq<char>) -> Seq<char> {
    let cs = path::comps(p);
    if cs.len() > 0 && cs[0] == path::cur() {
        path::render(cs.drop_first())
    } else {
        p
    }
}

/// A path with a leading `.`.
pub open spec fn with_dot(p: Seq<char>) -> Seq<char> {
    path::render(seq![path::cur()] + path::comps(without_dot(p)))
}

/// Paths under both spellings: without a leading `.` and with one.
pub open spec fn spellings(ps: Seq<Seq<char>>) -> Seq<Seq<char>>
    decreases ps.len(),
{
    if ps.len() == 0 {
        Seq::empty()
    } else {
        spellings(ps.drop_last()).push(without_dot(ps.last())).push(with_dot(ps.last()))
    }
}

fn undotted(p: &str) -> (r: String)
    ensures
        r@ == without_dot(p@),
{
    let c = text::chars_of(p);
    let mut cs = path::components(&c);
    let ghost all = views::pieces(cs@);
    if cs.len() > 0 && path::is_cur(&cs[0]) {
        cs.remove(0);
        assert(views::pieces(cs@) =~= all.drop_first());
        let p = path::rendered(&cs);
        text::string_of(&p)
    } else {
        text::string_of(&c)
    }
}

fn dotted(p: &str) -> (r: String)
    ensures
        r@ == with_dot(p@),
{
    let c = text::chars_of(undotted(p).as_str());
    let mut cs = path::components(&c);
    let ghost all = views::pieces(cs@);
    let dot = text::chars_of(".");
    proof {
        reveal_strlit(".");
        assert(dot@ =~= path::cur());
    }
    cs.insert(0, dot);
    assert(views::pieces(cs@) =~= seq![path::cur()] + all);
    let p = path::rendered(&cs);
    text::string_of(&p)
}

fn spelled(ps: &Vec<String>) -> (r: Vec<String>)
    ensures
        views::texts(r@) == spellings(views::texts(ps@)),
{
    let ghost all = views::texts(ps@);
    let mut out: Vec<String> = Vec::new();
    assert(views::texts(out@) =~= spellings(all.take(0)));
    for i in 0..ps.len()
        invariant
            all == views::texts(ps@),
            views::texts(out@) == spellings(all.take(i as int)),
    {
        assert(all.take(i + 1).drop_last() =~= all.take(i as int));
        assert(all.take(i + 1).last() == ps@[i as int]@);
        out.push(undotted(ps[i].as_str()));
        out.push(dotted(ps[i].as_str()));
    }
    assert(all.take(all.len() as int) =~= all);
    out
}

/// Every input lies at its own place.
pub open spec fn at_their_places(m: Map<Place, FileView>) -> bool {
    forall|k: Place| #[trigger] m.contains_key(k) ==> place_of(m[k]) == k
}

/// The file with its build path spelled without a leading `.`.
pub open spec fn tidied(f: FileView) -> FileView {
    FileView { build_path: without_dot(f.build_path), ..f }
}

/// The file with its build path spelled without a leading `.`.
fn tidy(f: &DerivedFile) -> (r: DerivedFile)
    ensures
        r@ == tidied(f@),
{
    let mut r = f.dup();
    r.build_path = undotted(f.build_path.as_str());
    r
}

/// An optional text as a text: none is empty, and a text follows a mark.
pub open spec fn tagged(o: Option<Seq<char>>) -> Seq<char> {
    match o {
        Some(s) => seq!['='] + s,
        None => Seq::empty(),
    }
}

/// A file as a row of texts: the store path, the build path, the path inside
/// the store object, and the outputs.
pub open spec fn row_of(f: FileView) -> order::Row {
    seq![f.derived_path.store_path, f.build_path, tagged(f.rel_path)] + f.derived_path.outputs
}

/// A row that stands for a file.
pub open spec fn is_row(r: order::Row) -> bool {
    r.len() >= 3 && (r[2].len() > 0 ==> r[2][0] == '=')
}

/// The rows of files.
pub open spec fn file_rows(fs: Seq<FileView>) -> Seq<order::Row> {
    fs.map_values(|f: FileView| row_of(f))
}

/// The inputs as a list: in the order of their rows, each once, and no other.
pub open spec fn lists(m: Map<Place, FileView>, fs: Seq<FileView>) -> bool {
    &&& order::ascending(file_rows(fs))
    &&& order::distinct(file_rows(fs))
    &&& forall|f: FileView| #[trigger]
        fs.contains(f) <==> (exists|k: Place| #[trigger] m.contains_key(k) && f == tidied(m[k]))
}

/// A file's row is a row of a file.
proof fn row_round_trip(f: FileView)
    ensures
        is_row(row_of(f)),
{
    let r = row_of(f);
    assert(r[2] == tagged(f.rel_path));
}

/// A file's row tells the file.
pub proof fn row_tells(a: FileView, b: FileView)
    requires
        row_of(a) == row_of(b),
    ensures
        a == b,
{
    let x = row_of(a);
    let y = row_of(b);
    assert(x[0] == a.derived_path.store_path && y[0] == b.derived_path.store_path);
    assert(x[1] == a.build_path && y[1] == b.build_path);
    assert(x[2] == tagged(a.rel_path) && y[2] == tagged(b.rel_path));
    assert(x.skip(3) =~= a.derived_path.outputs);
    assert(y.skip(3) =~= b.derived_path.outputs);
    match (a.rel_path, b.rel_path) {
        (Some(s), Some(t)) => {
            assert(tagged(a.rel_path).skip(1) =~= s);
            assert(tagged(b.rel_path).skip(1) =~= t);
        },
        (Some(s), None) => {
            assert(tagged(a.rel_path).len() > 0);
        },
        (None, Some(t)) => {
            assert(tagged(b.rel_path).len() > 0);
        },
        (None, None) => {},
    }
    assert(a =~= b);
}

fn row(f: &DerivedFile) -> (r: Vec<String>)
    ensures
        views::texts(r@) == row_of(f@),
{
    let mut r: Vec<String> = Vec::new();
    r.push(f.derived_path.store_path.clone());
    r.push(f.build_path.clone());
    match &f.rel_path {
        Some(s) => {
            let mut c: Vec<char> = Vec::new();
            c.push('=');
            text::append_str(&mut c, s.as_str());
            assert(c@ =~= seq!['='] + s@);
            r.push(text::string_of(&c));
        },
        None => {
            let c: Vec<char> = Vec::new();
            r.push(text::string_of(&c));
        },
    }
    let ghost outs = views::texts(f.derived_path.outputs@);
    let ghost front = seq![f@.derived_path.store_path, f@.build_path, tagged(f@.rel_path)];
    assert(views::texts(r@) =~= front + outs.take(0));
    for i in 0..f.derived_path.outputs.len()
        invariant
            outs == views::texts(f.derived_path.outputs@),
            views::texts(r@) == front + outs.take(i as int),
    {
        r.push(f.derived_path.outputs[i].clone());
        assert((front + outs.take(i as int)).push(f.derived_path.outputs@[i as int]@) =~= front
            + outs.take(i + 1));
    }
    assert(outs.take(outs.len() as int) =~= outs);
    r
}

fn unrow(r: &Vec<String>) -> (f: DerivedFile)
    requires
        is_row(views::texts(r@)),
    ensures
        row_of(f@) == views::texts(r@),
{
    let ghost all = views::texts(r@);
    assert(all[0] == r@[0]@ && all[1] == r@[1]@ && all[2] == r@[2]@);
    let c = text::chars_of(r[2].as_str());
    let rel_path = if c.len() > 0 {
        let t = text::tail(&c, 1);
        assert(c@ =~= seq!['='] + t@);
        Some(text::string_of(&t))
    } else {
        assert(c@ =~= Seq::<char>::empty());
        None
    };
    let mut outputs: Vec<String> = Vec::new();
    assert(views::texts(outputs@) =~= all.subrange(3, 3));
    for i in 3..r.len()
        invariant
            all == views::texts(r@),
            views::texts(outputs@) == all.subrange(3, i as int),
    {
        outputs.push(r[i].clone());
        assert(all.subrange(3, i + 1) =~= all.subrange(3, i as int).push(r@[i as int]@));
    }
    let f = DerivedFile {
        derived_path: DerivedPath { store_path: r[0].clone(), outputs },
        build_path: r[1].clone(),
        rel_path,
    };
    assert(row_of(f@) =~= all);
    f
}

// ---------------------------------------------------------------------------
// Laws
// ---------------------------------------------------------------------------

/// The list of a task's inputs depends on the inputs alone, not on the order
/// in which they were met.
pub proof fn one_listing(m: Map<Place, FileView>, a: Seq<FileView>, b: Seq<FileView>)
    requires
        lists(m, a),
        lists(m, b),
    ensures
        a == b,
{
    let ra = file_rows(a);
    let rb = file_rows(b);
    assert forall|r: order::Row| ra.contains(r) implies rb.contains(r) by {
        let i = choose|i: int| 0 <= i < ra.len() && ra[i] == r;
        assert(a.contains(a[i]));
        assert(b.contains(a[i]));
        let j = choose|j: int| 0 <= j < b.len() && b[j] == a[i];
        assert(rb[j] == r);
    }
    assert forall|r: order::Row| rb.contains(r) implies ra.contains(r) by {
        let i = choose|i: int| 0 <= i < rb.len() && rb[i] == r;
        assert(b.contains(b[i]));
        assert(a.contains(b[i]));
        let j = choose|j: int| 0 <= j < a.len() && a[j] == b[i];
        assert(ra[j] == r);
    }
    order::ordered_sets_agree(ra, rb);
    assert forall|i: int| 0 <= i < a.len() implies a[i] == b[i] by {
        assert(ra[i] == rb[i]);
        row_tells(a[i], b[i]);
    }
    assert(a =~= b);
}

/// What an edge produces is none of its inputs: once the places of its outputs
/// are cleared, nothing lies at any of them, and every other input is kept.
pub proof fn outputs_are_no_inputs(m: Map<Place, FileView>, own: Seq<Seq<char>>)
    ensures
        forall|i: int|
            0 <= i < own.len() ==> !without_all(m, own).contains_key(
                path::comps(#[trigger] own[i]),
            ),
        forall|k: Place|
            m.contains_key(k) && (forall|i: int|
                0 <= i < own.len() ==> path::comps(#[trigger] own[i]) != k)
                ==> #[trigger] without_all(m, own).contains_key(k) && without_all(m, own)[k]
                == m[k],
    decreases own.len(),
{
    if own.len() > 0 {
        let front = own.drop_last();
        outputs_are_no_inputs(m, front);
        assert forall|i: int| 0 <= i < own.len() implies !without_all(m, own).contains_key(
            path::comps(#[trigger] own[i]),
        ) by {
            if i < front.len() {
                assert(front[i] == own[i]);
            }
        }
        assert forall|k: Place|
            m.contains_key(k) && (forall|i: int|
                0 <= i < own.len() ==> path::comps(#[trigger] own[i]) != k) implies #[trigger]
            without_all(m, own).contains_key(k) && without_all(m, own)[k] == m[k] by {
            assert forall|i: int| 0 <= i < front.len() implies path::comps(#[trigger] front[i])
                != k by {
                assert(front[i] == own[i]);
            }
            assert(without_all(m, front).contains_key(k));
            assert(own[own.len() - 1] == own.last());
        }
    }
}

/// Each path stands under both spellings.
proof fn spellings_hold(ps: Seq<Seq<char>>, i: int)
    requires
        0 <= i < ps.len(),
    ensures
        spellings(ps).contains(without_dot(ps[i])),
        spellings(ps).contains(with_dot(ps[i])),
    decreases ps.len(),
{
    let n = spellings(ps).len();
    if i < ps.len() - 1 {
        let front = ps.drop_last();
        spellings_hold(front, i);
        let f = spellings(front);
        let a = choose|a: int| 0 <= a < f.len() && f[a] == without_dot(ps[i]);
        let b = choose|b: int| 0 <= b < f.len() && f[b] == with_dot(ps[i]);
        assert(spellings(ps)[a] == without_dot(ps[i]));
        assert(spellings(ps)[b] == with_dot(ps[i]));
    } else {
        assert(spellings(ps)[n - 2] == without_dot(ps[i]));
        assert(spellings(ps)[n - 1] == with_dot(ps[i]));
    }
}

/// A task's own outputs are never its inputs: no file in the list of the
/// inputs without them lies at the place of one, however either is spelled.
pub proof fn own_outputs_are_not_listed(
    m: Map<Place, FileView>,
    own: Seq<Seq<char>>,
    fs: Seq<FileView>,
)
    requires
        at_their_places(m),
        lists(without_all(m, spellings(own)), fs),
    ensures
        forall|i: int, j: int|
            0 <= i < fs.len() && 0 <= j < own.len() ==> !path::same_path(
                (#[trigger] fs[i]).build_path,
                #[trigger] own[j],
            ),
        forall|i: int, j: int|
            0 <= i < fs.len() && 0 <= j < own.len() ==> !path::same_path(
                (#[trigger] fs[i]).build_path,
                without_dot(#[trigger] own[j]),
            ),
{
    let all = spellings(own);
    let kept = without_all(m, all);
    outputs_are_no_inputs(m, all);
    assert forall|i: int, j: int| 0 <= i < fs.len() && 0 <= j < own.len() implies !path::same_path(
        (#[trigger] fs[i]).build_path,
        #[trigger] own[j],
    ) && !path::same_path(fs[i].build_path, without_dot(own[j])) by {
        assert(fs.contains(fs[i]));
        let k = choose|k: Place| #[trigger] kept.contains_key(k) && fs[i] == tidied(kept[k]);
        kept_from(m, all, k);
        let p = kept[k].build_path;
        let o = own[j];
        spellings_hold(own, j);
        let a = choose|a: int| 0 <= a < all.len() && all[a] == without_dot(o);
        let b = choose|b: int| 0 <= b < all.len() && all[b] == with_dot(o);
        assert(!kept.contains_key(path::comps(all[a])));
        assert(!kept.contains_key(path::comps(all[b])));
        assert(path::comps(p) == k);
        undotted_comps(p);
        undotted_comps(o);
        let c = path::comps(without_dot(p));
        if path::comps(without_dot(o)) == c {
            if path::comps(p).len() > 0 && path::comps(p)[0] == path::cur() {
                assert(seq![path::cur()] + c =~= path::comps(p));
                path::comps_well_placed(p);
                path::comps_of_render(path::comps(p));
                assert(path::comps(with_dot(o)) == k);
            } else {
                assert(path::comps(without_dot(o)) == k);
            }
        }
        if path::same_path(without_dot(p), o) {
            assert(c == path::comps(o));
            assert(without_dot(o) == o);
        }
    }
}

/// Places that were cleared stay clear.
pub proof fn cleared_once(m: Map<Place, FileView>, ps: Seq<Seq<char>>)
    ensures
        without_all(without_all(m, ps), ps) == without_all(m, ps),
{
    let a = without_all(m, ps);
    outputs_are_no_inputs(m, ps);
    outputs_are_no_inputs(a, ps);
    let b = without_all(a, ps);
    assert forall|k: Place| a.contains_key(k) implies b.contains_key(k) && a[k] == b[k] by {
        assert forall|i: int| 0 <= i < ps.len() implies path::comps(#[trigger] ps[i]) != k by {}
    }
    assert forall|k: Place| b.contains_key(k) implies a.contains_key(k) by {
        kept_from(a, ps, k);
    }
    assert(a =~= b);
}

/// What is left after places were cleared was there.
proof fn kept_from(m: Map<Place, FileView>, ps: Seq<Seq<char>>, k: Place)
    requires
        without_all(m, ps).contains_key(k),
    ensures
        m.contains_key(k),
        without_all(m, ps)[k] == m[k],
    decreases ps.len(),
{
    if ps.len() > 0 {
        kept_from(m, ps.drop_last(), k);
    }
}

/// A path without a leading `.` has the components behind it.
proof fn undotted_comps(p: Seq<char>)
    ensures
        ({
            let cs = path::comps(p);
            let c = path::comps(without_dot(p));
            &&& c == if cs.len() > 0 && cs[0] == path::cur() {
                cs.drop_first()
            } else {
                cs
            }
            &&& c.len() > 0 ==> c[0] != path::cur()
        }),
{
    let cs = path::comps(p);
    path::comps_well_placed(p);
    if cs.len() > 0 && cs[0] == path::cur() {
        let c = cs.drop_first();
        assert forall|i: int| 0 <= i < c.len() implies (#[trigger] c[i]).len() > 0 && (c[i]
            == path::root() || !c[i].contains('/')) && (c[i] == path::root() ==> i == 0) && (c[i]
            == path::cur() ==> i == 0) by {
            assert(c[i] == cs[i + 1]);
        }
        path::comps_of_render(c);
        if c.len() > 0 {
            assert(c[0] == cs[1]);
        }
    }
}

/// Of files put at their places one after the other each place has the last one;
/// what lies elsewhere stays.
pub proof fn put_files_stay(m: Map<Place, FileView>, fs: Seq<FileView>, i: int)
    requires
        0 <= i < fs.len(),
    ensures
        with_all(m, fs).contains_key(path::comps(fs[i].build_path)),
        (forall|j: int|
            i < j < fs.len() ==> path::comps((#[trigger] fs[j]).build_path) != path::comps(
                fs[i].build_path,
            )) ==> with_all(m, fs)[path::comps(fs[i].build_path)] == fs[i],
    decreases fs.len(),
{
    if i < fs.len() - 1 {
        let front = fs.drop_last();
        put_files_stay(m, front, i);
        assert(front[i] == fs[i]);
        if forall|j: int|
            i < j < fs.len() ==> path::comps((#[trigger] fs[j]).build_path) != path::comps(
                fs[i].build_path,
            ) {
            assert(fs[fs.len() - 1] == fs.last());
            assert forall|j: int| i < j < front.len() implies path::comps(
                (#[trigger] front[j]).build_path,
            ) != path::comps(fs[i].build_path) by {
                assert(fs[j] == front[j]);
            }
        }
    }
}

/// Files put at free places override nothing: an input that stands stays, and a
/// free place gets the first file for it.
pub proof fn free_places_are_filled(m: Map<Place, FileView>, fs: Seq<FileView>, p: Place)
    ensures
        m.contains_key(p) ==> with_free(m, fs).contains_key(p) && with_free(m, fs)[p] == m[p],
        !m.contains_key(p) ==> (with_free(m, fs).contains_key(p) <==> exists|i: int|
            0 <= i < fs.len() && path::comps((#[trigger] fs[i]).build_path) == p),
        forall|i: int|
            0 <= i < fs.len() && !m.contains_key(p) && path::comps((#[trigger] fs[i]).build_path)
                == p && (forall|j: int|
                0 <= j < i ==> path::comps((#[trigger] fs[j]).build_path) != p) ==> with_free(
                m,
                fs,
            )[p] == fs[i],
    decreases fs.len(),
{
    if fs.len() > 0 {
        let front = fs.drop_last();
        let n = fs.len() - 1;
        free_places_are_filled(m, front, p);
        assert(fs[n] == fs.last());
        if exists|i: int| 0 <= i < fs.len() && path::comps((#[trigger] fs[i]).build_path) == p {
            let i = choose|i: int|
                0 <= i < fs.len() && path::comps((#[trigger] fs[i]).build_path) == p;
            if i < n {
                assert(front[i] == fs[i]);
            }
        }
        if exists|i: int|
            0 <= i < front.len() && path::comps((#[trigger] front[i]).build_path) == p {
            let i = choose|i: int|
                0 <= i < front.len() && path::comps((#[trigger] front[i]).build_path) == p;
            assert(fs[i] == front[i]);
        }
        assert forall|i: int|
            0 <= i < fs.len() && !m.contains_key(p) && path::comps((#[trigger] fs[i]).build_path)
                == p && (forall|j: int|
                0 <= j < i ==> path::comps(
                    (#[trigger] fs[j]).build_path,
                ) != p) implies with_free(m, fs)[p] == fs[i] by {
            assert forall|j: int| 0 <= j < i implies path::comps((#[trigger] front[j]).build_path)
                != p by {
                assert(fs[j] == front[j]);
            }
            if i < n {
                assert(front[i] == fs[i]);
            }
        }
    }
}

/// Clearing places takes out what lies there under any spelling, tells each such
/// place once, in order, and leaves everything else.
pub proof fn cleared_places_are_told(
    m: Map<Place, FileView>,
    ps: Seq<Seq<char>>,
    p: Seq<char>,
    k: Place,
)
    ensures
        without_all(m, ps).contains_key(k) <==> m.contains_key(k) && forall|i: int|
            0 <= i < ps.len() ==> path::comps(#[trigger] ps[i]) != k,
        without_all(m, ps).contains_key(k) ==> without_all(m, ps)[k] == m[k],
        taken_out(m, Seq::empty()).len() == 0,
        taken_out(m, ps.push(p)) == if m.contains_key(path::comps(p)) && (forall|i: int|
            0 <= i < ps.len() ==> path::comps(#[trigger] ps[i]) != path::comps(p)) {
            taken_out(m, ps).push(p)
        } else {
            taken_out(m, ps)
        },
{
    left_where_not_named(m, ps, k);
    left_where_not_named(m, ps, path::comps(p));
    assert(ps.push(p).drop_last() =~= ps);
}

proof fn left_where_not_named(m: Map<Place, FileView>, ps: Seq<Seq<char>>, k: Place)
    ensures
        without_all(m, ps).contains_key(k) <==> m.contains_key(k) && forall|i: int|
            0 <= i < ps.len() ==> path::comps(#[trigger] ps[i]) != k,
        without_all(m, ps).contains_key(k) ==> without_all(m, ps)[k] == m[k],
    decreases ps.len(),
{
    if ps.len() > 0 {
        let front = ps.drop_last();
        left_where_not_named(m, front, k);
        assert(ps[ps.len() - 1] == ps.last());
        assert(forall|i: int| 0 <= i < front.len() ==> #[trigger] front[i] == ps[i]);
        if without_all(m, ps).contains_key(k) {
            assert forall|i: int| 0 <= i < ps.len() implies path::comps(#[trigger] ps[i]) != k by {
                if i < front.len() {
                    assert(front[i] == ps[i]);
                }
            }
        }
        if forall|i: int| 0 <= i < ps.len() ==> path::comps(#[trigger] ps[i]) != k {
            assert forall|i: int| 0 <= i < front.len() implies path::comps(#[trigger] front[i])
                != k by {
                assert(front[i] == ps[i]);
            }
        }
    }
}

/// A path has one place whether or not it is spelled with a leading dot: without
/// it the dot is gone, with it there is exactly one, and nothing else changes.
pub proof fn a_leading_dot_is_one_spelling(p: Seq<char>)
    requires
        !path::is_abs(p),
    ensures
        path::comps(without_dot(p)) == if path::comps(p).len() > 0 && path::comps(p)[0] == "."@ {
            path::comps(p).drop_first()
        } else {
            path::comps(p)
        },
        path::comps(with_dot(p)) == seq!["."@] + path::comps(without_dot(p)),
{
    reveal_strlit(".");
    assert("."@ =~= path::cur());
    let cs = path::comps(p);
    path::comps_well_placed(p);
    path::relative_paths_have_no_root(p);
    let rest = if cs.len() > 0 && cs[0] == path::cur() {
        cs.drop_first()
    } else {
        cs
    };
    assert forall|i: int| 0 <= i < rest.len() implies (#[trigger] rest[i]).len() > 0
        && !rest[i].contains('/') && rest[i] != path::root() && rest[i] != path::cur() by {
        if rest == cs {
            assert(rest[i] == cs[i]);
            if cs[i] == path::root() || cs[i] == path::cur() {
                assert(i == 0);
            }
        } else {
            assert(rest[i] == cs[i + 1]);
        }
    }
    path::comps_of_render(rest);
    let dotted = seq![path::cur()] + rest;
    assert forall|i: int| 0 <= i < dotted.len() implies (#[trigger] dotted[i]).len() > 0 && (
    dotted[i] == path::root() || !dotted[i].contains('/')) && (dotted[i] == path::root() ==> i == 0)
        && (dotted[i] == path::cur() ==> i == 0) by {
        if i > 0 {
            assert(dotted[i] == rest[i - 1]);
        } else {
            assert(path::cur()[0] == '.');
        }
    }
    path::comps_of_render(dotted);
}

/// Both spellings of every path are cleared, in their order.
pub proof fn both_spellings_are_listed(ps: Seq<Seq<char>>, p: Seq<char>)
    ensures
        spellings(Seq::empty()).len() == 0,
        spellings(ps.push(p)) == spellings(ps) + seq![without_dot(p), with_dot(p)],
{
    assert(ps.push(p).drop_last() =~= ps);
    assert(spellings(ps).push(without_dot(p)).push(with_dot(p)) =~= spellings(ps) + seq![
        without_dot(p),
        with_dot(p),
    ]);
}

/// A listing has every input, spelled without a leading dot, and nothing else; it
/// changes nothing of an input but that spelling.
pub proof fn every_input_is_listed(m: Map<Place, FileView>, fs: Seq<FileView>, k: Place, i: int)
    requires
        lists(m, fs),
    ensures
        m.contains_key(k) ==> exists|j: int|
            0 <= j < fs.len() && (#[trigger] fs[j]).build_path == without_dot(m[k].build_path)
                && fs[j].derived_path == m[k].derived_path && fs[j].rel_path == m[k].rel_path,
        0 <= i < fs.len() ==> exists|p: Place|
            #![trigger m.contains_key(p)]
            m.contains_key(p) && fs[i].derived_path == m[p].derived_path && fs[i].build_path
                == without_dot(m[p].build_path),
{
    if m.contains_key(k) {
        assert(fs.contains(tidied(m[k])));
        let j = choose|j: int| 0 <= j < fs.len() && fs[j] == tidied(m[k]);
        assert(fs[j].build_path == without_dot(m[k].build_path));
    }
    if 0 <= i < fs.len() {
        assert(fs.contains(fs[i]));
        let p = choose|p: Place| #[trigger] m.contains_key(p) && fs[i] == tidied(m[p]);
        assert(m.contains_key(p));
    }
}

} // verus!
