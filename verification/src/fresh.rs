//! Uploads of a task that are replaced: a file that was uploaded with different
//! contents is read again, and a task for link-time optimisation has its files
//! with the real output paths.
use crate::derivation;
use crate::derivation::DrvView;
use crate::derivation::Encoded;
use crate::derivation::EncodedView;
use crate::derivation::StageView;
use crate::derivation::TaskDerivation;
use crate::derived;
use crate::derived::PathView;
use crate::inputs;
use crate::inputs::Place;
use crate::path;
use crate::views;
use vstd::prelude::*;

verus! {

broadcast use views::texts_push;

/// An uploaded file among the inputs.
pub open spec fn uploaded(e: EncodedView) -> bool {
    derived::is_opaque(e.file)
}

/// Two uploads of one place with different contents.
pub open spec fn clash(a: EncodedView, b: EncodedView) -> bool {
    uploaded(a) && uploaded(b) && inputs::place_of(a.file) == inputs::place_of(b.file)
        && a.file.derived_path != b.file.derived_path
}

/// The file was uploaded with another content besides.
pub open spec fn clashes(es: Seq<EncodedView>, i: int) -> bool {
    exists|j: int| 0 <= j < es.len() && clash(es[i], #[trigger] es[j])
}

/// The build paths of the files that clash, among the first `n`.
pub open spec fn clashing(es: Seq<EncodedView>, n: nat) -> Seq<Seq<char>>
    decreases n,
{
    if n == 0 {
        Seq::empty()
    } else if clashes(es, n - 1) {
        clashing(es, (n - 1) as nat).push(es[n - 1].file.build_path)
    } else {
        clashing(es, (n - 1) as nat)
    }
}

/// An upload at a place.
pub open spec fn uploaded_at(e: EncodedView, place: Place) -> bool {
    uploaded(e) && inputs::place_of(e.file) == place
}

/// The files that are no uploads at a place.
pub open spec fn elsewhere(es: Seq<EncodedView>, place: Place) -> Seq<EncodedView>
    decreases es.len(),
{
    if es.len() == 0 {
        es
    } else if uploaded_at(es.last(), place) {
        elsewhere(es.drop_last(), place)
    } else {
        elsewhere(es.drop_last(), place).push(es.last())
    }
}

/// The texts without those of the uploads at a place.
pub open spec fn texts_elsewhere(
    texts: Set<Seq<char>>,
    es: Seq<EncodedView>,
    place: Place,
) -> Set<Seq<char>>
    decreases es.len(),
{
    if es.len() == 0 {
        texts
    } else if uploaded_at(es.last(), place) {
        texts_elsewhere(texts, es.drop_last(), place).remove(es.last().text)
    } else {
        texts_elsewhere(texts, es.drop_last(), place)
    }
}

/// The store paths without those of the uploads at a place.
pub open spec fn paths_elsewhere(
    paths: Set<PathView>,
    es: Seq<EncodedView>,
    place: Place,
) -> Set<PathView>
    decreases es.len(),
{
    if es.len() == 0 {
        paths
    } else if uploaded_at(es.last(), place) {
        paths_elsewhere(paths, es.drop_last(), place).remove(es.last().file.derived_path)
    } else {
        paths_elsewhere(paths, es.drop_last(), place)
    }
}

/// The stage without the uploads at a place.
pub open spec fn without_uploads(s: StageView, place: Place) -> StageView {
    StageView {
        drv: DrvView { inputs: paths_elsewhere(s.drv.inputs, s.files, place), ..s.drv },
        encoded: texts_elsewhere(s.encoded, s.files, place),
        files: elsewhere(s.files, place),
        ..s
    }
}

/// The stage in which one file takes the place of all uploads there, and of
/// those at the place at which it lies itself.
pub open spec fn replaced(s: StageView, place: Place, e: EncodedView) -> StageView {
    derivation::with_input(
        without_uploads(without_uploads(s, place), inputs::place_of(e.file)),
        e,
    )
}

/// A file that takes a place.
pub type Fresh = (Place, EncodedView);

/// The files that take places.
pub open spec fn all_fresh(v: Seq<(String, Encoded)>) -> Seq<Fresh> {
    v.map_values(|f: (String, Encoded)| (path::comps(f.0@), f.1@))
}

/// The stage in which several files one after the other take their places.
pub open spec fn all_replaced(s: StageView, fresh: Seq<Fresh>) -> StageView
    decreases fresh.len(),
{
    if fresh.len() == 0 {
        s
    } else {
        replaced(all_replaced(s, fresh.drop_last()), fresh.last().0, fresh.last().1)
    }
}

/// The uploaded files among encoded ones.
pub open spec fn uploads_among(es: Seq<EncodedView>) -> Seq<EncodedView>
    decreases es.len(),
{
    if es.len() == 0 {
        Seq::empty()
    } else if uploaded(es.last()) {
        uploads_among(es.drop_last()).push(es.last())
    } else {
        uploads_among(es.drop_last())
    }
}

impl TaskDerivation {
    /// Whether the file at an index was uploaded with another content besides.
    fn file_clashes(&self, i: usize) -> (r: bool)
        requires
            i < self.files@.len(),
        ensures
            r == clashes(self@.files, i as int),
    {
        let ghost all = self@.files;
        assert(all[i as int] == self.files@[i as int]@);
        if !self.files[i].file.derived_path.is_opaque() {
            return false;
        }
        for j in 0..self.files.len()
            invariant
                all == self@.files,
                i < self.files@.len(),
                all[i as int] == self.files@[i as int]@,
                uploaded(all[i as int]),
                forall|k: int| 0 <= k < j ==> !clash(all[i as int], #[trigger] all[k]),
        {
            assert(all[j as int] == self.files@[j as int]@);
            if self.files[j].file.derived_path.is_opaque() && path::eq_path(
                self.files[i].file.build_path.as_str(),
                self.files[j].file.build_path.as_str(),
            ) && !self.files[i].file.derived_path.same(&self.files[j].file.derived_path) {
                assert(clash(all[i as int], all[j as int]));
                return true;
            }
        }
        false
    }

    /// The places that were uploaded with different contents for one task, each
    /// once: a file that was regenerated meanwhile.
    pub fn clashing_places(&self) -> (r: Vec<String>)
        ensures
            views::texts(r@) == path::first_paths(clashing(self@.files, self@.files.len())),
    {
        let ghost all = self@.files;
        let mut v: Vec<String> = Vec::new();
        assert(views::texts(v@) =~= clashing(all, 0));
        for i in 0..self.files.len()
            invariant
                all == self@.files,
                views::texts(v@) == clashing(all, i as nat),
        {
            assert(all[i as int] == self.files@[i as int]@);
            if self.file_clashes(i) {
                v.push(self.files[i].file.build_path.clone());
            }
        }
        assert(all.len() == self.files@.len());
        path::dedup_paths(&v)
    }

    /// Takes away the uploads at a place.
    fn drop_uploads(&mut self, place: &str)
        ensures
            final(self)@ == without_uploads(old(self)@, path::comps(place@)),
    {
        let ghost all = self@.files;
        let ghost before = self@;
        let ghost p = path::comps(place@);
        let mut kept: Vec<Encoded> = Vec::new();
        assert(all.take(0) =~= Seq::<EncodedView>::empty());
        assert(derivation::encoded_views(kept@) =~= Seq::<EncodedView>::empty());
        let n: usize = self.files.len();
        for i in 0..n
            invariant
                n == self.files.len(),
                all == derivation::encoded_views(self.files@),
                p == path::comps(place@),
                self@ == (StageView {
                    drv: DrvView {
                        inputs: paths_elsewhere(before.drv.inputs, all.take(i as int), p),
                        ..before.drv
                    },
                    encoded: texts_elsewhere(before.encoded, all.take(i as int), p),
                    ..before
                }),
                derivation::encoded_views(kept@) == elsewhere(all.take(i as int), p),
        {
            assert(all.take(i + 1).drop_last() =~= all.take(i as int));
            assert(all.take(i + 1).last() == self.files@[i as int]@);
            let ghost now = self@;
            if self.files[i].file.derived_path.is_opaque() && path::eq_path(
                self.files[i].file.build_path.as_str(),
                place,
            ) {
                let d = self.files[i].file.derived_path.dup();
                let s = self.files[i].text.clone();
                self.encoded.remove(s.as_str());
                self.drv.inputs.remove(&d);
                assert(self@.drv =~= (DrvView {
                    inputs: now.drv.inputs.remove(all[i as int].file.derived_path),
                    ..now.drv
                }));
            } else {
                let ghost had = derivation::encoded_views(kept@);
                kept.push(self.files[i].dup());
                assert(derivation::encoded_views(kept@) =~= had.push(all[i as int]));
            }
        }
        assert(all.take(all.len() as int) =~= all);
        self.files = kept;
        assert(self@ =~= without_uploads(before, p));
    }

    /// Puts one upload in the place of all that were made of a file: the file as
    /// it is now, or as the task has to have it.
    pub fn refresh(&mut self, place: &str, fresh: &Encoded)
        ensures
            final(self)@ == replaced(old(self)@, path::comps(place@), fresh@),
    {
        self.drop_uploads(place);
        self.drop_uploads(fresh.file.build_path.as_str());
        self.add_input(fresh);
    }

    /// Puts uploads in their places, one after the other.
    pub fn refresh_all(&mut self, fresh: &Vec<(String, Encoded)>)
        ensures
            final(self)@ == all_replaced(old(self)@, all_fresh(fresh@)),
    {
        let ghost all = all_fresh(fresh@);
        let ghost before = self@;
        assert(all.take(0) =~= Seq::<Fresh>::empty());
        for i in 0..fresh.len()
            invariant
                all == all_fresh(fresh@),
                self@ == all_replaced(before, all.take(i as int)),
        {
            assert(all.take(i + 1).drop_last() =~= all.take(i as int));
            assert(all.take(i + 1).last() == all[i as int]);
            self.refresh(fresh[i].0.as_str(), &fresh[i].1);
        }
        assert(all.take(all.len() as int) =~= all);
    }

    /// The places of the files that a task for link-time optimisation has to
    /// have with the real output paths, as far as they were uploaded; each once.
    pub fn raw_candidates(&self) -> (r: Vec<String>)
        ensures
            views::texts(r@) == if self@.lto {
                path::first_paths(derivation::places(uploads_among(self@.files)))
            } else {
                Seq::empty()
            },
    {
        let mut out: Vec<String> = Vec::new();
        assert(views::texts(out@) =~= Seq::<Seq<char>>::empty());
        if !self.lto {
            return out;
        }
        let ghost all = self@.files;
        assert(all.take(0) =~= Seq::<EncodedView>::empty());
        assert(derivation::places(uploads_among(all.take(0))) =~= Seq::<Seq<char>>::empty());
        for i in 0..self.files.len()
            invariant
                all == self@.files,
                views::texts(out@) == derivation::places(uploads_among(all.take(i as int))),
        {
            assert(all.take(i + 1).drop_last() =~= all.take(i as int));
            assert(all.take(i + 1).last() == self.files@[i as int]@);
            if self.files[i].file.derived_path.is_opaque() {
                let ghost before = uploads_among(all.take(i as int));
                out.push(self.files[i].file.build_path.clone());
                assert(derivation::places(before.push(all[i as int])) =~= derivation::places(before).push(
                    self.files@[i as int].file.build_path@,
                ));
            }
        }
        assert(all.len() == self.files@.len());
        assert(all.take(all.len() as int) =~= all);
        path::dedup_paths(&out)
    }
}

// ---------------------------------------------------------------------------
// Laws
// ---------------------------------------------------------------------------

/// What is elsewhere, element by element.
pub(crate) proof fn elsewhere_holds(es: Seq<EncodedView>, place: Place)
    ensures
        forall|e: EncodedView| #[trigger]
            elsewhere(es, place).contains(e) <==> es.contains(e) && !uploaded_at(e, place),
    decreases es.len(),
{
    if es.len() > 0 {
        let front = es.drop_last();
        let last = es.last();
        elsewhere_holds(front, place);
        assert(es =~= front.push(last));
        assert forall|e: EncodedView| #[trigger]
            elsewhere(es, place).contains(e) <==> es.contains(e) && !uploaded_at(e, place) by {
            vstd::seq_lib::lemma_seq_contains_after_push(front, last, e);
            vstd::seq_lib::lemma_seq_contains_after_push(elsewhere(front, place), last, e);
            assert(es.contains(e) <==> front.contains(e) || e == last);
        }
    }
}

/// The texts and the store paths that are left, one by one.
pub(crate) proof fn left_elsewhere(
    texts: Set<Seq<char>>,
    paths: Set<PathView>,
    es: Seq<EncodedView>,
    place: Place,
)
    ensures
        forall|t: Seq<char>| #[trigger]
            texts_elsewhere(texts, es, place).contains(t) <==> texts.contains(t) && (forall|i: int|
                0 <= i < es.len() && uploaded_at(#[trigger] es[i], place) ==> es[i].text != t),
        forall|p: PathView| #[trigger]
            paths_elsewhere(paths, es, place).contains(p) <==> paths.contains(p) && (forall|i: int|
                0 <= i < es.len() && uploaded_at(#[trigger] es[i], place)
                    ==> es[i].file.derived_path != p),
    decreases es.len(),
{
    if es.len() > 0 {
        let front = es.drop_last();
        left_elsewhere(texts, paths, front, place);
        assert forall|i: int| 0 <= i < front.len() implies #[trigger] front[i] == es[i] by {}
        assert forall|t: Seq<char>| #[trigger]
            texts_elsewhere(texts, es, place).contains(t) <==> texts.contains(t) && (forall|i: int|
                0 <= i < es.len() && uploaded_at(#[trigger] es[i], place) ==> es[i].text != t) by {
            if texts_elsewhere(texts, es, place).contains(t) {
                assert(texts_elsewhere(texts, front, place).contains(t));
                assert forall|i: int|
                    0 <= i < es.len() && uploaded_at(#[trigger] es[i], place) implies es[i].text
                    != t by {
                    if i < front.len() {
                        assert(uploaded_at(front[i], place));
                    }
                }
            } else if texts.contains(t) && texts_elsewhere(texts, front, place).contains(t) {
                assert(uploaded_at(es[es.len() - 1], place));
            } else if texts.contains(t) {
                let i = choose|i: int|
                    0 <= i < front.len() && uploaded_at(#[trigger] front[i], place)
                        && front[i].text == t;
                assert(uploaded_at(es[i], place));
            }
        }
        assert forall|p: PathView| #[trigger]
            paths_elsewhere(paths, es, place).contains(p) <==> paths.contains(p) && (forall|i: int|
                0 <= i < es.len() && uploaded_at(#[trigger] es[i], place)
                    ==> es[i].file.derived_path != p) by {
            if paths_elsewhere(paths, es, place).contains(p) {
                assert(paths_elsewhere(paths, front, place).contains(p));
                assert forall|i: int|
                    0 <= i < es.len() && uploaded_at(
                        #[trigger] es[i],
                        place,
                    ) implies es[i].file.derived_path != p by {
                    if i < front.len() {
                        assert(uploaded_at(front[i], place));
                    }
                }
            } else if paths.contains(p) && paths_elsewhere(paths, front, place).contains(p) {
                assert(uploaded_at(es[es.len() - 1], place));
            } else if paths.contains(p) {
                let i = choose|i: int|
                    0 <= i < front.len() && uploaded_at(#[trigger] front[i], place)
                        && front[i].file.derived_path == p;
                assert(uploaded_at(es[i], place));
            }
        }
    }
}

/// Every text that the task is told is that of a listed file.
pub open spec fn told_are_listed(s: StageView) -> bool {
    forall|t: Seq<char>| #[trigger]
        s.encoded.contains(t) ==> exists|i: int|
            0 <= i < s.files.len() && (#[trigger] s.files[i]).text == t
}

proof fn left_are_listed(s: StageView, place: Place)
    requires
        told_are_listed(s),
    ensures
        told_are_listed(without_uploads(s, place)),
{
    let r = without_uploads(s, place);
    left_elsewhere(s.encoded, s.drv.inputs, s.files, place);
    elsewhere_holds(s.files, place);
    assert forall|t: Seq<char>| #[trigger] r.encoded.contains(t) implies exists|i: int|
        0 <= i < r.files.len() && (#[trigger] r.files[i]).text == t by {
        assert(s.encoded.contains(t));
        let i = choose|i: int| 0 <= i < s.files.len() && (#[trigger] s.files[i]).text == t;
        assert(s.files.contains(s.files[i]));
        assert(r.files.contains(s.files[i]));
        let j = choose|j: int| 0 <= j < r.files.len() && r.files[j] == s.files[i];
        assert(r.files[j].text == t);
    }
}

proof fn replaced_are_listed(s: StageView, fresh: Seq<Fresh>)
    requires
        told_are_listed(s),
    ensures
        told_are_listed(all_replaced(s, fresh)),
    decreases fresh.len(),
{
    if fresh.len() > 0 {
        let before = all_replaced(s, fresh.drop_last());
        let e = fresh.last().1;
        let left = without_uploads(
            without_uploads(before, fresh.last().0),
            inputs::place_of(e.file),
        );
        let r = all_replaced(s, fresh);
        replaced_are_listed(s, fresh.drop_last());
        left_are_listed(before, fresh.last().0);
        left_are_listed(without_uploads(before, fresh.last().0), inputs::place_of(e.file));
        assert forall|t: Seq<char>| #[trigger] r.encoded.contains(t) implies exists|i: int|
            0 <= i < r.files.len() && (#[trigger] r.files[i]).text == t by {
            if t == e.text {
                assert(r.files[left.files.len() as int] == e);
            } else {
                assert(left.encoded.contains(t));
                let i = choose|i: int|
                    0 <= i < left.files.len() && (#[trigger] left.files[i]).text == t;
                assert(r.files[i] == left.files[i]);
            }
        }
    }
}

/// Files that take places declare no outputs.
pub(crate) proof fn replaced_declare_nothing(s: StageView, fresh: Seq<Fresh>)
    ensures
        all_replaced(s, fresh).drv.outputs == s.drv.outputs,
    decreases fresh.len(),
{
    if fresh.len() > 0 {
        replaced_declare_nothing(s, fresh.drop_last());
    }
}

/// One build path, one content: no two uploads of one place differ.
pub open spec fn one_content(s: StageView) -> bool {
    forall|i: int, j: int|
        0 <= i < s.files.len() && 0 <= j < s.files.len() ==> !clash(
            #[trigger] s.files[i],
            #[trigger] s.files[j],
        )
}

/// The uploads at a place.
pub open spec fn uploads_at(es: Seq<EncodedView>, place: Place) -> Seq<EncodedView> {
    es.filter(|e: EncodedView| uploaded_at(e, place))
}

proof fn uploads_pushed(es: Seq<EncodedView>, e: EncodedView, place: Place)
    ensures
        uploads_at(es.push(e), place) == if uploaded_at(e, place) {
            uploads_at(es, place).push(e)
        } else {
            uploads_at(es, place)
        },
{
    reveal(Seq::filter);
    assert(es.push(e).drop_last() =~= es);
}

/// Taking the uploads at one place away leaves those at another.
proof fn uploads_left(es: Seq<EncodedView>, place: Place, other: Place)
    ensures
        uploads_at(elsewhere(es, place), other) == if place == other {
            Seq::empty()
        } else {
            uploads_at(es, other)
        },
    decreases es.len(),
{
    reveal(Seq::filter);
    if es.len() > 0 {
        let front = es.drop_last();
        uploads_left(front, place, other);
        assert(es =~= front.push(es.last()));
        uploads_pushed(front, es.last(), other);
        uploads_pushed(elsewhere(front, place), es.last(), other);
    } else {
        assert(uploads_at(es, other) =~= Seq::empty());
    }
}

/// Where a file took its place, it is the only upload.
proof fn replaced_alone(s: StageView, fresh: Seq<Fresh>, k: int)
    requires
        forall|k: int| 0 <= k < fresh.len() ==> uploaded(#[trigger] fresh[k].1),
        0 <= k < fresh.len(),
    ensures
        uploads_at(all_replaced(s, fresh).files, inputs::place_of(fresh[k].1.file)).len() <= 1,
        uploads_at(all_replaced(s, fresh).files, fresh[k].0).len() <= 1,
    decreases fresh.len(),
{
    let front = fresh.drop_last();
    let (p, e) = fresh.last();
    let p2 = inputs::place_of(e.file);
    let before = all_replaced(s, front).files;
    let once = elsewhere(before, p);
    assert(uploaded(fresh[fresh.len() - 1].1));
    if k < front.len() {
        assert forall|i: int| 0 <= i < front.len() implies uploaded(#[trigger] front[i].1) by {
            assert(uploaded(fresh[i].1));
        }
        replaced_alone(s, front, k);
        assert(front[k] == fresh[k]);
    }
    let qs = (inputs::place_of(fresh[k].1.file), fresh[k].0);
    uploads_left(before, p, qs.0);
    uploads_left(once, p2, qs.0);
    uploads_pushed(elsewhere(once, p2), e, qs.0);
    uploads_left(before, p, qs.1);
    uploads_left(once, p2, qs.1);
    uploads_pushed(elsewhere(once, p2), e, qs.1);
}

/// What clashes after some replacements clashed before, at another place.
proof fn old_clashes_are_left(s: StageView, fresh: Seq<Fresh>, a: EncodedView, b: EncodedView)
    requires
        forall|k: int| 0 <= k < fresh.len() ==> uploaded(#[trigger] fresh[k].1),
        all_replaced(s, fresh).files.contains(a),
        all_replaced(s, fresh).files.contains(b),
        clash(a, b),
    ensures
        s.files.contains(a),
        s.files.contains(b),
        forall|k: int| 0 <= k < fresh.len() ==> #[trigger] fresh[k].0 != inputs::place_of(a.file),
    decreases fresh.len(),
{
    if fresh.len() > 0 {
        let front = fresh.drop_last();
        let (p, e) = fresh.last();
        let p2 = inputs::place_of(e.file);
        let before = all_replaced(s, front).files;
        let once = elsewhere(before, p);
        let left = elsewhere(once, p2);
        assert forall|k: int| 0 <= k < front.len() implies uploaded(#[trigger] front[k].1) by {
            assert(uploaded(fresh[k].1));
        }
        assert(uploaded(fresh[fresh.len() - 1].1));
        elsewhere_holds(before, p);
        elsewhere_holds(once, p2);
        vstd::seq_lib::lemma_seq_contains_after_push(left, e, a);
        vstd::seq_lib::lemma_seq_contains_after_push(left, e, b);
        if a == e {
            assert(!left.contains(b));
        } else if b == e {
            assert(!left.contains(a));
        }
        assert(left.contains(a) && left.contains(b));
        assert(once.contains(a) && once.contains(b));
        old_clashes_are_left(s, front, a, b);
        assert forall|k: int| 0 <= k < fresh.len() implies #[trigger] fresh[k].0
            != inputs::place_of(a.file) by {
            if k < front.len() {
                assert(front[k].0 != inputs::place_of(a.file));
            }
        }
    }
}

/// A file that clashes is among those whose places are asked for.
proof fn clashing_lists(es: Seq<EncodedView>, n: nat, i: int)
    requires
        0 <= i < n <= es.len(),
        clashes(es, i),
    ensures
        clashing(es, n).contains(es[i].file.build_path),
    decreases n,
{
    let front = clashing(es, (n - 1) as nat);
    let p = es[i].file.build_path;
    vstd::seq_lib::lemma_seq_contains_after_push(front, es[n - 1].file.build_path, p);
    if i < n - 1 {
        clashing_lists(es, (n - 1) as nat, i);
    }
}

/// Once every place that was uploaded with different contents is refreshed, no
/// two uploads that the task has at one build path differ, whatever other
/// uploads are replaced besides; and at every place at which one was replaced,
/// there is one upload at most. The task is told of these files and of no others.
pub proof fn one_build_path_has_one_content(s: StageView, fresh: Seq<Fresh>)
    requires
        told_are_listed(s),
        forall|k: int| 0 <= k < fresh.len() ==> uploaded(#[trigger] fresh[k].1),
        forall|i: int|
            0 <= i < path::first_paths(clashing(s.files, s.files.len())).len() ==> exists|k: int|
                0 <= k < fresh.len() && #[trigger] fresh[k].0 == path::comps(
                    #[trigger] path::first_paths(clashing(s.files, s.files.len()))[i],
                ),
    ensures
        told_are_listed(all_replaced(s, fresh)),
        one_content(all_replaced(s, fresh)),
        forall|k: int|
            0 <= k < fresh.len() ==> uploads_at(
                all_replaced(s, fresh).files,
                #[trigger] fresh[k].0,
            ).len() <= 1,
{
    assert forall|k: int| 0 <= k < fresh.len() implies uploads_at(
        all_replaced(s, fresh).files,
        #[trigger] fresh[k].0,
    ).len() <= 1 by {
        replaced_alone(s, fresh, k);
    }
    replaced_are_listed(s, fresh);
    let r = all_replaced(s, fresh);
    let ps = clashing(s.files, s.files.len());
    let asked = path::first_paths(ps);
    assert forall|i: int, j: int| 0 <= i < r.files.len() && 0 <= j < r.files.len() implies !clash(
        #[trigger] r.files[i],
        #[trigger] r.files[j],
    ) by {
        let a = r.files[i];
        let b = r.files[j];
        if clash(a, b) {
            old_clashes_are_left(s, fresh, a, b);
            let x = choose|x: int| 0 <= x < s.files.len() && s.files[x] == a;
            let y = choose|y: int| 0 <= y < s.files.len() && s.files[y] == b;
            assert(clash(s.files[x], s.files[y]));
            clashing_lists(s.files, s.files.len(), x);
            let q = choose|q: int| 0 <= q < ps.len() && ps[q] == a.file.build_path;
            assert(path::same_path(ps[q], a.file.build_path));
            assert(path::listed(ps, a.file.build_path));
            path::first_paths_cover(ps);
            assert(path::listed(asked, a.file.build_path));
            let m = choose|m: int|
                0 <= m < asked.len() && path::same_path(#[trigger] asked[m], a.file.build_path);
            let k = choose|k: int|
                0 <= k < fresh.len() && #[trigger] fresh[k].0 == path::comps(asked[m]);
            assert(fresh[k].0 == inputs::place_of(a.file));
        }
    }
}

/// Taking a place removes exactly the uploads there: every other file stays, in
/// its order, and so do the texts and store paths that no such upload has.
pub proof fn only_uploads_at_the_place_go(
    texts: Set<Seq<char>>,
    paths: Set<PathView>,
    es: Seq<EncodedView>,
    place: Place,
    e: EncodedView,
    t: Seq<char>,
    p: PathView,
)
    ensures
        elsewhere(es.push(e), place) == if e.file.derived_path.outputs.len() == 0 && path::comps(
            e.file.build_path,
        ) == place {
            elsewhere(es, place)
        } else {
            elsewhere(es, place).push(e)
        },
        texts_elsewhere(texts, es, place).contains(t) <==> texts.contains(t) && forall|i: int|
            0 <= i < es.len() && uploaded_at(#[trigger] es[i], place) ==> es[i].text != t,
        paths_elsewhere(paths, es, place).contains(p) <==> paths.contains(p) && forall|i: int|
            0 <= i < es.len() && uploaded_at(#[trigger] es[i], place) ==> es[i].file.derived_path
                != p,
    decreases es.len(),
{
    assert(es.push(e).drop_last() =~= es);
    if es.len() > 0 {
        let f = es.drop_last();
        let n = es.len() - 1;
        only_uploads_at_the_place_go(texts, paths, f, place, e, t, p);
        assert(forall|i: int| 0 <= i < f.len() ==> #[trigger] f[i] == es[i]);
        assert(es[n] == es.last());
        if forall|i: int|
            0 <= i < es.len() && uploaded_at(#[trigger] es[i], place) ==> es[i].text != t {
            assert forall|i: int| 0 <= i < f.len() && uploaded_at(#[trigger] f[i], place) implies f[i].text
                != t by {
                assert(f[i] == es[i]);
            }
        }
        if forall|i: int|
            0 <= i < es.len() && uploaded_at(#[trigger] es[i], place) ==> es[i].file.derived_path != p {
            assert forall|i: int| 0 <= i < f.len() && uploaded_at(#[trigger] f[i], place) implies f[i].file.derived_path
                != p by {
                assert(f[i] == es[i]);
            }
        }
        if texts_elsewhere(texts, es, place).contains(t) {
            assert forall|i: int| 0 <= i < es.len() && uploaded_at(#[trigger] es[i], place) implies es[i].text
                != t by {
                if i < n {
                    assert(f[i] == es[i]);
                }
            }
        }
        if paths_elsewhere(paths, es, place).contains(p) {
            assert forall|i: int| 0 <= i < es.len() && uploaded_at(#[trigger] es[i], place) implies es[i].file.derived_path
                != p by {
                if i < n {
                    assert(f[i] == es[i]);
                }
            }
        }
    }
}

/// A file that takes a place is told of, is listed last, and its store path is an
/// input; nothing else of the stage but its uploads changes.
pub proof fn a_file_takes_its_place(s: StageView, place: Place, e: EncodedView)
    ensures
        replaced(s, place, e).encoded.contains(e.text),
        replaced(s, place, e).drv.inputs.contains(e.file.derived_path),
        replaced(s, place, e).files.last() == e,
        replaced(s, place, e).drv.env == s.drv.env,
        replaced(s, place, e).drv.args == s.drv.args,
        replaced(s, place, e).cmdline == s.cmdline,
{
}

/// Two uploads of one place with different contents clash, each with the other,
/// wherever in the list they stand; a file that some derivation builds never does.
pub proof fn uploads_of_one_place_clash(es: Seq<EncodedView>, i: int, j: int)
    requires
        0 <= i < es.len(),
        0 <= j < es.len(),
        es[i].file.derived_path.outputs.len() == 0,
        es[j].file.derived_path.outputs.len() == 0,
        path::comps(es[i].file.build_path) == path::comps(es[j].file.build_path),
        es[i].file.derived_path != es[j].file.derived_path,
    ensures
        clashing(es, es.len()).contains(es[i].file.build_path),
        clashing(es, es.len()).contains(es[j].file.build_path),
{
    assert(clash(es[i], es[j]) && clash(es[j], es[i]));
    clash_is_listed(es, es.len(), i);
    clash_is_listed(es, es.len(), j);
}

proof fn clash_is_listed(es: Seq<EncodedView>, n: nat, i: int)
    requires
        0 <= i < n,
        n <= es.len(),
        clashes(es, i),
    ensures
        clashing(es, n).contains(es[i].file.build_path),
    decreases n,
{
    let a = clashing(es, (n - 1) as nat);
    let b = clashing(es, n);
    if i < n - 1 {
        clash_is_listed(es, (n - 1) as nat, i);
        let k = choose|k: int| 0 <= k < a.len() && a[k] == es[i].file.build_path;
        assert(b[k] == a[k]);
    } else {
        assert(b[a.len() as int] == es[i].file.build_path);
    }
}

} // verus!
