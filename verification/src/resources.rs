//! Resource lists among a task's inputs, which refer to files and to further
//! lists. The walk hands out the list to look at next; what it refers to is
//! looked up and uploaded by the caller and handed back.
use crate::derived::DerivedFile;
use crate::derived::FileView;
use crate::inputs;
use crate::inputs::Place;
use crate::path;
use crate::task::Draft;
use crate::text;
use crate::views;
use vstd::prelude::*;

verus! {

broadcast use views::texts_push;

/// A walk over resource lists.
#[derive(Debug)]
pub struct ResourceWalk {
    /// The lists to look at.
    pub queue: Vec<String>,
}

impl View for ResourceWalk {
    type V = Seq<Seq<char>>;

    open spec fn view(&self) -> Seq<Seq<char>> {
        views::texts(self.queue@)
    }
}

/// A resource list, or part of one.
pub open spec fn is_list(p: Seq<char>) -> bool {
    path::extension(p) == Some("grd"@) || path::extension(p) == Some("grdp"@)
}

/// Every list lies at the place of an input.
pub open spec fn all_inputs(q: Seq<Seq<char>>, m: Map<Place, FileView>) -> bool {
    forall|i: int| 0 <= i < q.len() ==> m.contains_key(path::comps(#[trigger] q[i]))
}

/// The lists to look at after a file was taken: part of a list refers to files in turn.
pub open spec fn with_part(q: Seq<Seq<char>>, p: Seq<char>) -> Seq<Seq<char>> {
    if path::extension(p) == Some("grdp"@) {
        q.push(p)
    } else {
        q
    }
}

impl ResourceWalk {
    /// A walk from the lists among a task's inputs, each once.
    pub fn new(draft: &Draft) -> (r: ResourceWalk)
        ensures
            r@.no_duplicates(),
            forall|p: Seq<char>| #[trigger]
                r@.contains(p) <==> is_list(p) && draft.inputs@.contains_key(path::comps(p))
                    && draft.inputs@[path::comps(p)].build_path == p,
            all_inputs(r@, draft.inputs@),
    {
        let mut queue = draft.inputs.with_extension("grd");
        let parts = draft.inputs.with_extension("grdp");
        let ghost first = views::texts(queue@);
        let ghost second = views::texts(parts@);
        proof {
            reveal_strlit("grd");
            reveal_strlit("grdp");
            assert("grd"@.len() != "grdp"@.len());
            assert(first + second.take(0) =~= first);
        }
        for i in 0..parts.len()
            invariant
                second == views::texts(parts@),
                views::texts(queue@) == first + second.take(i as int),
        {
            queue.push(parts[i].clone());
            assert(second.take(i + 1) =~= second.take(i as int).push(parts@[i as int]@));
            assert((first + second.take(i as int)).push(parts@[i as int]@) =~= first + second.take(
                i + 1,
            ));
        }
        assert(second.take(second.len() as int) =~= second);
        let r = ResourceWalk { queue };
        proof {
            assert(r@ == first + second);
            assert forall|i: int, j: int| 0 <= i < first.len() && 0 <= j < second.len() implies
                first[i] != second[j] by {
                assert(first.contains(first[i]) && second.contains(second[j]));
            }
            assert forall|p: Seq<char>| #[trigger]
                r@.contains(p) <==> first.contains(p) || second.contains(p) by {
                if first.contains(p) {
                    let i = choose|i: int| 0 <= i < first.len() && first[i] == p;
                    assert(r@[i] == p);
                }
                if second.contains(p) {
                    let i = choose|i: int| 0 <= i < second.len() && second[i] == p;
                    assert(r@[first.len() + i] == p);
                }
                if r@.contains(p) {
                    let i = choose|i: int| 0 <= i < r@.len() && r@[i] == p;
                    if i < first.len() {
                        assert(first[i] == p);
                    } else {
                        assert(second[i - first.len()] == p);
                    }
                }
            }
            assert forall|i: int| 0 <= i < r@.len() implies draft.inputs@.contains_key(
                path::comps(#[trigger] r@[i]),
            ) by {
                assert(r@.contains(r@[i]));
            }
        }
        r
    }

    /// The list to look at next, where it is a file; none once the walk is over.
    pub fn next(&mut self) -> (r: Option<String>)
        ensures
            views::opt_text(r) == if old(self)@.len() == 0 {
                None
            } else {
                Some(old(self)@.last())
            },
            final(self)@ == if old(self)@.len() == 0 {
                old(self)@
            } else {
                old(self)@.drop_last()
            },
    {
        let ghost before = self.queue@;
        let r = self.queue.pop();
        proof {
            if before.len() > 0 {
                assert(self.queue@ =~= before.drop_last());
                assert(self@ =~= old(self)@.drop_last());
                assert(views::texts(before).last() == before.last()@);
            }
        }
        r
    }

    /// Takes a file that a list refers to and that was uploaded. Part of a list
    /// joins the walk.
    pub fn take(&mut self, draft: &mut Draft, p: &str, up: DerivedFile)
        ensures
            final(draft).inputs@ == old(draft).inputs@.insert(inputs::place_of(up@), up@),
            final(draft).compiles == old(draft).compiles,
            final(draft).store_srcs == old(draft).store_srcs,
            final(draft).node_args == old(draft).node_args,
            final(draft).response == old(draft).response,
            final(self)@ == with_part(old(self)@, p@),
    {
        draft.inputs.insert(up);
        let c = text::chars_of(p);
        if path::has_extension(&c, "grdp") {
            self.queue.push(text::string_of(&c));
        }
    }
}

// ---------------------------------------------------------------------------
// Laws
// ---------------------------------------------------------------------------

/// A walk looks at each list once: where every list that it has looked at or is
/// to look at is an input, a file that the task lacks is none of them, and once
/// it was taken at its place all of them are inputs again.
pub proof fn each_list_is_met_once(
    met: Seq<Seq<char>>,
    q: Seq<Seq<char>>,
    m: Map<Place, FileView>,
    p: Seq<char>,
    up: FileView,
)
    requires
        all_inputs(met, m),
        all_inputs(q, m),
        !m.contains_key(path::comps(p)),
        inputs::place_of(up) == path::comps(p),
    ensures
        !path::listed(met, p),
        !path::listed(q, p),
        all_inputs(met, m.insert(inputs::place_of(up), up)),
        all_inputs(with_part(q, p), m.insert(inputs::place_of(up), up)),
{
}

/// Whether a file is a resource list is decided by its extension alone; only part
/// of a list is looked at in turn, after the others.
pub proof fn lists_are_told_by_their_extension(q: Seq<Seq<char>>, p: Seq<char>)
    ensures
        is_list(p) <==> path::extension(p) == Some("grd"@) || path::extension(p) == Some("grdp"@),
        path::extension(p) == Some("grdp"@) ==> with_part(q, p) == q.push(p),
        path::extension(p) != Some("grdp"@) ==> with_part(q, p) == q,
{
}

} // verus!
