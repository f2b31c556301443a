//! Walks over the build graph: which files a name stands for, and which nodes
//! an edge's inputs lead to.
use crate::derived;
use crate::derived::DerivedFile;
use crate::derived::FileView;
use crate::seen;
use std::collections::HashMap;
use vstd::prelude::*;

verus! {

broadcast use {vstd::std_specs::hash::group_hash_axioms, derived::files_push};

/// The identity of a file in the build graph.
pub type FileId = usize;

/// The lists that a map holds.
pub open spec fn lists(m: Map<FileId, Vec<FileId>>) -> Map<FileId, Seq<FileId>> {
    m.map_values(|v: Vec<FileId>| v@)
}

/// The files that a map holds.
pub open spec fn file_map(m: Map<FileId, DerivedFile>) -> Map<FileId, FileView> {
    m.map_values(|f: DerivedFile| f@)
}

/// The list at a node; the empty list where there is none.
pub open spec fn list_at(m: Map<FileId, Seq<FileId>>, x: FileId) -> Seq<FileId> {
    if m.contains_key(x) {
        m[x]
    } else {
        Seq::empty()
    }
}

/// A copy of a list of nodes.
pub fn dup_ids(v: &Vec<FileId>) -> (r: Vec<FileId>)
    ensures
        r@ == v@,
{
    let mut out: Vec<FileId> = Vec::new();
    for i in 0..v.len()
        invariant
            out@ == v@.take(i as int),
    {
        out.push(v[i]);
    }
    out
}

/// Appends the list at a node.
fn append_at(work: &mut Vec<FileId>, m: &HashMap<FileId, Vec<FileId>>, x: FileId)
    ensures
        final(work)@ == old(work)@ + list_at(lists(m@), x),
{
    let ghost before = work@;
    match m.get(&x) {
        Some(v) => {
            for i in 0..v.len()
                invariant
                    work@ == before + v@.take(i as int),
            {
                work.push(v[i]);
            }
            assert(v@.take(v@.len() as int) =~= v@);
        },
        None => {
            assert(before + list_at(lists(m@), x) =~= before);
        },
    }
}

/// Whether a list holds a node.
pub fn has_id(v: &Vec<FileId>, x: FileId) -> (r: bool)
    ensures
        r == v@.contains(x),
{
    for i in 0..v.len()
        invariant
            forall|j: int| 0 <= j < i ==> v@[j] != x,
    {
        if v[i] == x {
            assert(v@[i as int] == x);
            return true;
        }
    }
    false
}

// ---------------------------------------------------------------------------
// Reaching nodes
// ---------------------------------------------------------------------------

/// `y` is `n` steps away from `x`.
pub open spec fn steps_to(
    next: spec_fn(FileId) -> Seq<FileId>,
    x: FileId,
    y: FileId,
    n: nat,
) -> bool
    decreases n,
{
    if n == 0 {
        x == y
    } else {
        exists|z: FileId| #[trigger]
            next(z).contains(y) && steps_to(next, x, z, (n - 1) as nat)
    }
}

/// `y` can be reached from `x`.
pub open spec fn reaches(next: spec_fn(FileId) -> Seq<FileId>, x: FileId, y: FileId) -> bool {
    exists|n: nat| steps_to(next, x, y, n)
}

/// What follows something that is reached is reached.
proof fn reaches_on(next: spec_fn(FileId) -> Seq<FileId>, x: FileId, y: FileId, z: FileId)
    requires
        reaches(next, x, y),
        next(y).contains(z),
    ensures
        reaches(next, x, z),
{
    let n = choose|n: nat| steps_to(next, x, y, n);
    assert(((n + 1) - 1) as nat == n);
    assert(steps_to(next, x, z, n + 1));
}

/// A set that holds `x` and everything that follows its elements holds all that `x` reaches.
proof fn closed_holds_reached(
    next: spec_fn(FileId) -> Seq<FileId>,
    s: Set<FileId>,
    x: FileId,
    y: FileId,
    n: nat,
)
    requires
        s.contains(x),
        forall|a: FileId, b: FileId|
            s.contains(a) && #[trigger] next(a).contains(b) ==> s.contains(b),
        steps_to(next, x, y, n),
    ensures
        s.contains(y),
    decreases n,
{
    if n > 0 {
        let z = choose|z: FileId| #[trigger]
            next(z).contains(y) && steps_to(next, x, z, (n - 1) as nat);
        closed_holds_reached(next, s, x, z, (n - 1) as nat);
    }
}

// ---------------------------------------------------------------------------
// Resolving a target
// ---------------------------------------------------------------------------

/// What is known of the graph when a target is resolved.
pub struct Targets {
    pub derived: Map<FileId, FileView>,
    pub phony: Map<FileId, Seq<FileId>>,
    pub co_outputs: Map<FileId, Seq<FileId>>,
}

/// What a node leads to: a file to the other outputs of its edge, an alias to
/// what it stands for.
pub open spec fn target_next(g: Targets, x: FileId) -> Seq<FileId> {
    if g.derived.contains_key(x) {
        list_at(g.co_outputs, x)
    } else {
        list_at(g.phony, x)
    }
}

/// A walk: the nodes still to visit, the last first; the nodes met; the files found.
pub struct Walk {
    pub work: Seq<FileId>,
    pub seen: Set<FileId>,
    pub found: Seq<FileId>,
}

/// One step of the walk.
pub open spec fn target_step(g: Targets, w: Walk) -> Walk {
    if w.work.len() == 0 {
        w
    } else {
        let x = w.work.last();
        let rest = w.work.drop_last();
        if w.seen.contains(x) {
            Walk { work: rest, ..w }
        } else {
            Walk {
                work: rest + target_next(g, x),
                seen: w.seen.insert(x),
                found: if g.derived.contains_key(x) {
                    w.found.push(x)
                } else {
                    w.found
                },
            }
        }
    }
}

/// The walk after `n` steps.
pub open spec fn target_walk(g: Targets, fid: FileId, n: nat) -> Walk
    decreases n,
{
    if n == 0 {
        Walk { work: seq![fid], seen: Set::empty(), found: Seq::empty() }
    } else {
        target_step(g, target_walk(g, fid, (n - 1) as nat))
    }
}

/// The nodes found by the walk from `fid`, once nothing is left to visit.
pub open spec fn resolves_to(g: Targets, fid: FileId, ids: Seq<FileId>) -> bool {
    exists|n: nat|
        (#[trigger] target_walk(g, fid, n)).work.len() == 0 && target_walk(g, fid, n).found == ids
}

/// The files of the nodes.
pub open spec fn files_at(m: Map<FileId, FileView>, ids: Seq<FileId>) -> Seq<FileView> {
    ids.map_values(|x: FileId| m[x])
}

/// Exactly the files that can be reached, each once, the one asked for first.
pub open spec fn resolved(g: Targets, fid: FileId, ids: Seq<FileId>) -> bool {
    let next = |x: FileId| target_next(g, x);
    &&& resolves_to(g, fid, ids)
    &&& ids.no_duplicates()
    &&& forall|x: FileId| #[trigger]
        ids.contains(x) <==> g.derived.contains_key(x) && reaches(next, fid, x)
    &&& g.derived.contains_key(fid) ==> ids.len() > 0 && ids[0] == fid
}

/// The files of the nodes that `fid` resolves to.
pub open spec fn stands_for(g: Targets, fid: FileId, fs: Seq<FileView>) -> bool {
    exists|ids: Seq<FileId>| #[trigger] resolved(g, fid, ids) && fs == files_at(g.derived, ids)
}

/// What the three maps say of the graph.
pub open spec fn targets_of(
    derived_files: Map<FileId, DerivedFile>,
    phony_aliases: Map<FileId, Vec<FileId>>,
    co_outputs: Map<FileId, Vec<FileId>>,
) -> Targets {
    Targets {
        derived: file_map(derived_files),
        phony: lists(phony_aliases),
        co_outputs: lists(co_outputs),
    }
}

/// The files that a name stands for: the file itself with the other outputs of
/// its edge, or what an alias leads to. An unknown name stands for none, and
/// aliases that lead back to themselves end the walk.
pub fn resolve_target_in(
    derived_files: &HashMap<FileId, DerivedFile>,
    phony_aliases: &HashMap<FileId, Vec<FileId>>,
    co_outputs: &HashMap<FileId, Vec<FileId>>,
    fid: FileId,
) -> (r: Vec<DerivedFile>)
    ensures
        stands_for(targets_of(derived_files@, phony_aliases@, co_outputs@), fid, derived::files(r@)),
{
    let ghost g = targets_of(derived_files@, phony_aliases@, co_outputs@);
    let ghost next = |x: FileId| target_next(g, x);
    let mut out: Vec<DerivedFile> = Vec::new();
    let mut met = seen::new_seen();
    let mut work: Vec<FileId> = Vec::new();
    work.push(fid);
    let ghost mut n: nat = 0;
    let ghost mut ids: Seq<FileId> = Seq::empty();
    proof {
        assert(work@ =~= seq![fid]);
        assert(derived::files(out@) =~= files_at(g.derived, ids));
        assert(steps_to(next, fid, fid, 0));
        assert(work@.contains(fid)) by {
            assert(work@[0] == fid);
        }
        seen::few_nodes(met@);
    }
    while work.len() > 0
        invariant
            g.derived == file_map(derived_files@),
            g.phony == lists(phony_aliases@),
            g.co_outputs == lists(co_outputs@),
            next == (|x: FileId| target_next(g, x)),
            target_walk(g, fid, n) == (Walk { work: work@, seen: met@, found: ids }),
            derived::files(out@) == files_at(g.derived, ids),
            met@.finite(),
            met@.len() <= usize::MAX + 1,
            met@.contains(fid) || work@.contains(fid),
            n == 0 ==> work@ == seq![fid] && ids.len() == 0,
            n > 0 ==> met@.contains(fid),
            n > 0 && g.derived.contains_key(fid) ==> ids.len() > 0 && ids[0] == fid,
            ids.no_duplicates(),
            forall|x: FileId| #[trigger]
                ids.contains(x) <==> g.derived.contains_key(x) && met@.contains(x),
            forall|x: FileId| #[trigger] met@.contains(x) ==> reaches(next, fid, x),
            forall|x: FileId| #[trigger] work@.contains(x) ==> reaches(next, fid, x),
            forall|a: FileId, b: FileId|
                met@.contains(a) && #[trigger] next(a).contains(b) ==> met@.contains(b)
                    || work@.contains(b),
        decreases usize::MAX + 1 - met@.len(), work.len(),
    {
        let ghost before = work@;
        let ghost seen0 = met@;
        let ghost ids0 = ids;
        let x = work.pop().unwrap();
        let ghost rest = work@;
        proof {
            assert(rest =~= before.drop_last());
            assert(x == before.last());
            assert(before[before.len() - 1] == x);
            assert(before.contains(x));
            n = n + 1;
            assert forall|y: FileId| before.contains(y) implies y == x || rest.contains(y) by {
                let i = choose|i: int| 0 <= i < before.len() && before[i] == y;
                if i < rest.len() {
                    assert(rest[i] == y);
                }
            }
            assert forall|y: FileId| rest.contains(y) implies before.contains(y) by {
                let i = choose|i: int| 0 <= i < rest.len() && rest[i] == y;
                assert(before[i] == y);
            }
        }
        if !seen::meet(&mut met, x) {
            assert(met@ =~= seen0);
            continue ;
        }
        proof {
            seen::few_nodes(met@);
        }
        match derived_files.get(&x) {
            Some(df) => {
                let ghost out0 = out@;
                out.push(df.dup());
                proof {
                    ids = ids.push(x);
                    assert(derived::files(out@) =~= files_at(g.derived, ids));
                }
                append_at(&mut work, co_outputs, x);
            },
            None => {
                append_at(&mut work, phony_aliases, x);
            },
        }
        proof {
            let more = target_next(g, x);
            assert(work@ =~= rest + more);
            assert(next(x) == more);
            assert forall|y: FileId| #[trigger] work@.contains(y) implies reaches(next, fid, y) by {
                let i = choose|i: int| 0 <= i < work@.len() && work@[i] == y;
                if i < rest.len() {
                    assert(rest[i] == y);
                    assert(before.contains(y));
                } else {
                    assert(more[i - rest.len()] == y);
                    reaches_on(next, fid, x, y);
                }
            }
            assert forall|a: FileId, b: FileId|
                met@.contains(a) && #[trigger] next(a).contains(b) implies met@.contains(b)
                || work@.contains(b) by {
                if a == x {
                    let i = choose|i: int| 0 <= i < more.len() && more[i] == b;
                    assert(work@[rest.len() + i] == b);
                } else if !met@.contains(b) {
                    assert(before.contains(b));
                    let i = choose|i: int| 0 <= i < rest.len() && rest[i] == b;
                    assert(work@[i] == b);
                }
            }
            assert forall|y: FileId| #[trigger] ids.contains(y) <==> g.derived.contains_key(y)
                && met@.contains(y) by {
                if g.derived.contains_key(x) {
                    assert(ids[ids.len() - 1] == x);
                    if ids0.contains(y) {
                        let i = choose|i: int| 0 <= i < ids0.len() && ids0[i] == y;
                        assert(ids[i] == y);
                    }
                    if ids.contains(y) && y != x {
                        let i = choose|i: int| 0 <= i < ids.len() && ids[i] == y;
                        assert(ids0[i] == y);
                    }
                }
            }
            if g.derived.contains_key(x) {
                assert(!ids0.contains(x));
            }
            if n > 1 && g.derived.contains_key(fid) {
                assert(ids[0] == ids0[0]);
            }
        }
    }
    proof {
        assert forall|x: FileId| #[trigger] ids.contains(x) <==> g.derived.contains_key(x)
            && reaches(next, fid, x) by {
            if g.derived.contains_key(x) && reaches(next, fid, x) {
                let k = choose|k: nat| steps_to(next, fid, x, k);
                closed_holds_reached(next, met@, fid, x, k);
            }
        }
        assert(target_walk(g, fid, n).work.len() == 0);
        assert(resolved(g, fid, ids));
    }
    out
}

// ---------------------------------------------------------------------------
// Expanding an edge's inputs
// ---------------------------------------------------------------------------

/// What is known of the graph when an edge's inputs are expanded.
pub struct Edges {
    pub phony: Map<FileId, Seq<FileId>>,
    pub stamps: Map<FileId, Seq<FileId>>,
    pub co_outputs: Map<FileId, Seq<FileId>>,
    pub libs: Map<FileId, Seq<FileId>>,
}

/// The list without a node.
pub open spec fn without(v: Seq<FileId>, x: FileId) -> Seq<FileId>
    decreases v.len(),
{
    if v.len() == 0 {
        v
    } else if v.last() == x {
        without(v.drop_last(), x)
    } else {
        without(v.drop_last(), x).push(v.last())
    }
}

/// The list without a node holds everything else.
pub proof fn without_holds(v: Seq<FileId>, x: FileId, y: FileId)
    ensures
        without(v, x).contains(y) <==> v.contains(y) && y != x,
    decreases v.len(),
{
    if v.len() > 0 {
        let front = v.drop_last();
        without_holds(front, x, y);
        assert(v[v.len() - 1] == v.last());
        if v.contains(y) {
            let i = choose|i: int| 0 <= i < v.len() && v[i] == y;
            if i < front.len() {
                assert(front[i] == y);
            }
        }
        if front.contains(y) {
            let i = choose|i: int| 0 <= i < front.len() && front[i] == y;
            assert(v[i] == y);
        }
        let w = without(front, x);
        if v.last() != x {
            assert(w.push(v.last())[w.len() as int] == v.last());
            if w.contains(y) {
                let i = choose|i: int| 0 <= i < w.len() && w[i] == y;
                assert(w.push(v.last())[i] == y);
            }
            if w.push(v.last()).contains(y) && y != v.last() {
                let i = choose|i: int| 0 <= i < w.push(v.last()).len() && w.push(v.last())[i] == y;
                assert(w[i] == y);
            }
        }
    }
}

/// What a node leads to: an alias to what it stands for; any other node to the
/// inputs behind a stamp, to the other outputs of its edge and, unless the
/// edge compiles, to the libraries that it needs when it runs.
pub open spec fn input_next(g: Edges, compiles: bool, x: FileId) -> Seq<FileId> {
    if g.phony.contains_key(x) {
        g.phony[x]
    } else {
        list_at(g.stamps, x) + without(list_at(g.co_outputs, x), x) + if compiles {
            Seq::empty()
        } else {
            list_at(g.libs, x)
        }
    }
}

/// A node that is visited, and whether something else led there than the edge itself.
pub type Visit = (FileId, bool);

/// Nodes that something else than the edge led to.
pub open spec fn led(v: Seq<FileId>) -> Seq<Visit> {
    v.map_values(|x: FileId| (x, true))
}

/// Nodes that the edge itself names.
pub open spec fn named(v: Seq<FileId>) -> Seq<Visit> {
    v.map_values(|x: FileId| (x, false))
}

/// A walk over an edge's inputs.
pub struct InputWalk {
    pub work: Seq<Visit>,
    pub seen: Set<FileId>,
    pub visits: Seq<Visit>,
}

/// One step of the walk. Aliases are looked through and not visited.
pub open spec fn input_step(g: Edges, compiles: bool, w: InputWalk) -> InputWalk {
    if w.work.len() == 0 {
        w
    } else {
        let v = w.work.last();
        let rest = w.work.drop_last();
        if w.seen.contains(v.0) {
            InputWalk { work: rest, ..w }
        } else {
            InputWalk {
                work: rest + led(input_next(g, compiles, v.0)),
                seen: w.seen.insert(v.0),
                visits: if g.phony.contains_key(v.0) {
                    w.visits
                } else {
                    w.visits.push(v)
                },
            }
        }
    }
}

/// The walk after `n` steps.
pub open spec fn input_walk(g: Edges, compiles: bool, ins: Seq<FileId>, n: nat) -> InputWalk
    decreases n,
{
    if n == 0 {
        InputWalk { work: named(ins), seen: Set::empty(), visits: Seq::empty() }
    } else {
        input_step(g, compiles, input_walk(g, compiles, ins, (n - 1) as nat))
    }
}

/// `y` can be reached from one of the nodes.
pub open spec fn reached_from(
    next: spec_fn(FileId) -> Seq<FileId>,
    ins: Seq<FileId>,
    y: FileId,
) -> bool {
    exists|x: FileId| ins.contains(x) && #[trigger] reaches(next, x, y)
}

/// The walk visits `visits` until nothing is left.
pub open spec fn walks_over(
    g: Edges,
    compiles: bool,
    ins: Seq<FileId>,
    visits: Seq<Visit>,
) -> bool {
    exists|n: nat|
        (#[trigger] input_walk(g, compiles, ins, n)).work.len() == 0 && input_walk(
            g,
            compiles,
            ins,
            n,
        ).visits == visits
}

/// The nodes of the visits.
pub open spec fn nodes(visits: Seq<Visit>) -> Seq<FileId> {
    visits.map_values(|v: Visit| v.0)
}

/// The walk's visits: every node that is no alias and that the inputs lead to, once.
pub open spec fn expanded(g: Edges, compiles: bool, ins: Seq<FileId>, visits: Seq<Visit>) -> bool {
    let next = |x: FileId| input_next(g, compiles, x);
    &&& walks_over(g, compiles, ins, visits)
    &&& nodes(visits).no_duplicates()
    &&& forall|x: FileId| #[trigger]
        nodes(visits).contains(x) <==> !g.phony.contains_key(x) && reached_from(next, ins, x)
}

/// Appends nodes that something else led to, all but one.
fn lead_to(work: &mut Vec<Visit>, v: &Vec<FileId>, except: Option<FileId>)
    ensures
        final(work)@ == old(work)@ + led(
            match except {
                Some(x) => without(v@, x),
                None => v@,
            },
        ),
{
    let ghost before = work@;
    let ghost want = |n: int|
        match except {
            Some(x) => without(v@.take(n), x),
            None => v@.take(n),
        };
    assert(before + led(want(0)) =~= before);
    for i in 0..v.len()
        invariant
            want == (|n: int|
                match except {
                    Some(x) => without(v@.take(n), x),
                    None => v@.take(n),
                }),
            work@ == before + led(want(i as int)),
    {
        proof {
            assert(v@.take(i + 1).drop_last() =~= v@.take(i as int));
            assert(v@.take(i + 1).last() == v@[i as int]);
            assert(v@.take(i + 1) =~= v@.take(i as int).push(v@[i as int]));
        }
        let skip = match except {
            Some(x) => v[i] == x,
            None => false,
        };
        if !skip {
            work.push((v[i], true));
            assert(before + led(want(i as int).push(v@[i as int])) =~= (before + led(
                want(i as int),
            )).push((v@[i as int], true)));
        }
    }
    assert(v@.take(v@.len() as int) =~= v@);
}

/// The four maps of the graph, as they are read.
pub open spec fn edges_of(
    phony_aliases: Map<FileId, Vec<FileId>>,
    stamp_inputs: Map<FileId, Vec<FileId>>,
    co_outputs: Map<FileId, Vec<FileId>>,
    runtime_lib_deps: Map<FileId, Vec<FileId>>,
) -> Edges {
    Edges {
        phony: lists(phony_aliases),
        stamps: lists(stamp_inputs),
        co_outputs: lists(co_outputs),
        libs: lists(runtime_lib_deps),
    }
}

/// Appends what a node that is no alias leads to.
fn lead_on(
    work: &mut Vec<Visit>,
    stamp_inputs: &HashMap<FileId, Vec<FileId>>,
    co_outputs: &HashMap<FileId, Vec<FileId>>,
    runtime_lib_deps: &HashMap<FileId, Vec<FileId>>,
    compiles: bool,
    x: FileId,
)
    ensures
        final(work)@ == old(work)@ + led(
            list_at(lists(stamp_inputs@), x) + without(list_at(lists(co_outputs@), x), x)
                + if compiles {
                Seq::empty()
            } else {
                list_at(lists(runtime_lib_deps@), x)
            },
        ),
{
    let ghost before = work@;
    let ghost a = list_at(lists(stamp_inputs@), x);
    let ghost b = without(list_at(lists(co_outputs@), x), x);
    let ghost c = if compiles {
        Seq::empty()
    } else {
        list_at(lists(runtime_lib_deps@), x)
    };
    if let Some(v) = stamp_inputs.get(&x) {
        lead_to(work, v, None);
    }
    assert(work@ =~= before + led(a));
    if let Some(v) = co_outputs.get(&x) {
        lead_to(work, v, Some(x));
    }
    assert(work@ =~= before + led(a) + led(b));
    if !compiles {
        if let Some(v) = runtime_lib_deps.get(&x) {
            lead_to(work, v, None);
        }
    }
    assert(work@ =~= before + led(a) + led(b) + led(c));
    assert(led(a) + led(b) + led(c) =~= led(a + b + c));
    assert(work@ =~= before + led(a + b + c));
}

/// Something follows what is reached.
proof fn reached_on(
    next: spec_fn(FileId) -> Seq<FileId>,
    ins: Seq<FileId>,
    y: FileId,
    z: FileId,
)
    requires
        reached_from(next, ins, y),
        next(y).contains(z),
    ensures
        reached_from(next, ins, z),
{
    let x = choose|x: FileId| ins.contains(x) && #[trigger] reaches(next, x, y);
    reaches_on(next, x, y, z);
}

/// The nodes that an edge's inputs lead to, in the order in which they are
/// visited, each with how it was first met. Aliases are looked through.
pub fn expand_inputs(
    phony_aliases: &HashMap<FileId, Vec<FileId>>,
    stamp_inputs: &HashMap<FileId, Vec<FileId>>,
    co_outputs: &HashMap<FileId, Vec<FileId>>,
    runtime_lib_deps: &HashMap<FileId, Vec<FileId>>,
    compiles: bool,
    ins: &Vec<FileId>,
) -> (r: Vec<Visit>)
    ensures
        expanded(
            edges_of(phony_aliases@, stamp_inputs@, co_outputs@, runtime_lib_deps@),
            compiles,
            ins@,
            r@,
        ),
{
    let ghost g = edges_of(phony_aliases@, stamp_inputs@, co_outputs@, runtime_lib_deps@);
    let ghost next = |x: FileId| input_next(g, compiles, x);
    let mut visits: Vec<Visit> = Vec::new();
    let mut met = seen::new_seen();
    let mut work: Vec<Visit> = Vec::new();
    for i in 0..ins.len()
        invariant
            work@ == named(ins@.take(i as int)),
    {
        work.push((ins[i], false));
        assert(named(ins@.take(i + 1)) =~= named(ins@.take(i as int)).push((ins@[i as int], false)));
    }
    let ghost mut n: nat = 0;
    proof {
        assert(ins@.take(ins@.len() as int) =~= ins@);
        assert(visits@ =~= Seq::<Visit>::empty());
        seen::few_nodes(met@);
        assert forall|x: FileId| #[trigger] nodes(work@).contains(x) implies reached_from(
            next,
            ins@,
            x,
        ) by {
            let i = choose|i: int| 0 <= i < nodes(work@).len() && nodes(work@)[i] == x;
            assert(ins@[i] == x);
            assert(steps_to(next, x, x, 0));
            assert(reaches(next, x, x));
        }
        assert forall|x: FileId| #[trigger] ins@.contains(x) implies nodes(work@).contains(x) by {
            let i = choose|i: int| 0 <= i < ins@.len() && ins@[i] == x;
            assert(nodes(work@)[i] == x);
        }
        assert(nodes(visits@) =~= Seq::<FileId>::empty());
    }
    while work.len() > 0
        invariant
            g == edges_of(phony_aliases@, stamp_inputs@, co_outputs@, runtime_lib_deps@),
            next == (|x: FileId| input_next(g, compiles, x)),
            input_walk(g, compiles, ins@, n) == (InputWalk {
                work: work@,
                seen: met@,
                visits: visits@,
            }),
            met@.finite(),
            met@.len() <= usize::MAX + 1,
            forall|x: FileId| #[trigger]
                ins@.contains(x) ==> met@.contains(x) || nodes(work@).contains(x),
            nodes(visits@).no_duplicates(),
            forall|x: FileId| #[trigger]
                nodes(visits@).contains(x) <==> !g.phony.contains_key(x) && met@.contains(x),
            forall|x: FileId| #[trigger] met@.contains(x) ==> reached_from(next, ins@, x),
            forall|x: FileId| #[trigger]
                nodes(work@).contains(x) ==> reached_from(next, ins@, x),
            forall|a: FileId, b: FileId|
                met@.contains(a) && #[trigger] next(a).contains(b) ==> met@.contains(b) || nodes(
                    work@,
                ).contains(b),
        decreases usize::MAX + 1 - met@.len(), work.len(),
    {
        let ghost before = work@;
        let ghost seen0 = met@;
        let ghost visits0 = visits@;
        let v = work.pop().unwrap();
        let x: FileId = v.0;
        let ghost rest = work@;
        proof {
            assert(rest =~= before.drop_last());
            assert(v == before.last());
            assert(nodes(before)[before.len() - 1] == x);
            assert(nodes(before).contains(x));
            n = n + 1;
            assert forall|y: FileId| nodes(before).contains(y) implies y == x || nodes(
                rest,
            ).contains(y) by {
                let i = choose|i: int| 0 <= i < nodes(before).len() && nodes(before)[i] == y;
                if i < rest.len() {
                    assert(nodes(rest)[i] == y);
                }
            }
            assert forall|y: FileId| nodes(rest).contains(y) implies nodes(before).contains(y) by {
                let i = choose|i: int| 0 <= i < nodes(rest).len() && nodes(rest)[i] == y;
                assert(nodes(before)[i] == y);
            }
        }
        if !seen::meet(&mut met, x) {
            assert(met@ =~= seen0);
            continue ;
        }
        proof {
            seen::few_nodes(met@);
        }
        match phony_aliases.get(&x) {
            Some(aliased) => {
                lead_to(&mut work, aliased, None);
            },
            None => {
                lead_on(&mut work, stamp_inputs, co_outputs, runtime_lib_deps, compiles, x);
                visits.push(v);
            },
        }
        proof {
            let more = input_next(g, compiles, x);
            assert(work@ =~= rest + led(more));
            assert(next(x) == more);
            assert forall|y: FileId| #[trigger] nodes(work@).contains(y) implies reached_from(
                next,
                ins@,
                y,
            ) by {
                let i = choose|i: int| 0 <= i < nodes(work@).len() && nodes(work@)[i] == y;
                if i < rest.len() {
                    assert(nodes(rest)[i] == y);
                    assert(nodes(before).contains(y));
                } else {
                    assert(more[i - rest.len()] == y);
                    assert(more.contains(y));
                    reached_on(next, ins@, x, y);
                }
            }
            assert forall|y: FileId| nodes(rest).contains(y) implies nodes(work@).contains(y) by {
                let i = choose|i: int| 0 <= i < nodes(rest).len() && nodes(rest)[i] == y;
                assert(nodes(work@)[i] == y);
            }
            assert forall|a: FileId, b: FileId|
                met@.contains(a) && #[trigger] next(a).contains(b) implies met@.contains(b)
                || nodes(work@).contains(b) by {
                if a == x {
                    let i = choose|i: int| 0 <= i < more.len() && more[i] == b;
                    assert(nodes(work@)[rest.len() + i] == b);
                } else if !met@.contains(b) {
                    assert(nodes(before).contains(b));
                }
            }
            if !g.phony.contains_key(x) {
                let vs = nodes(visits@);
                assert(vs =~= nodes(visits0).push(x));
                assert(vs[vs.len() - 1] == x);
                assert(!nodes(visits0).contains(x));
                assert forall|y: FileId| #[trigger] vs.contains(y) <==> nodes(visits0).contains(y)
                    || y == x by {
                    if nodes(visits0).contains(y) {
                        let i = choose|i: int|
                            0 <= i < nodes(visits0).len() && nodes(visits0)[i] == y;
                        assert(vs[i] == y);
                    }
                    if vs.contains(y) && y != x {
                        let i = choose|i: int| 0 <= i < vs.len() && vs[i] == y;
                        assert(nodes(visits0)[i] == y);
                    }
                }
            }
        }
    }
    proof {
        assert forall|x: FileId| #[trigger] nodes(visits@).contains(x) <==> !g.phony.contains_key(x)
            && reached_from(next, ins@, x) by {
            if !g.phony.contains_key(x) && reached_from(next, ins@, x) {
                let r = choose|r: FileId| ins@.contains(r) && #[trigger] reaches(next, r, x);
                let k = choose|k: nat| steps_to(next, r, x, k);
                assert(met@.contains(r));
                closed_holds_reached(next, met@, r, x, k);
            }
        }
        assert(input_walk(g, compiles, ins@, n).work.len() == 0);
    }
    visits
}

// ---------------------------------------------------------------------------
// Laws
// ---------------------------------------------------------------------------

/// What is reached from a follower is reached.
proof fn reaches_through(
    next: spec_fn(FileId) -> Seq<FileId>,
    x: FileId,
    y: FileId,
    z: FileId,
    n: nat,
)
    requires
        next(x).contains(y),
        steps_to(next, y, z, n),
    ensures
        reaches(next, x, z),
    decreases n,
{
    if n == 0 {
        assert(steps_to(next, x, x, 0));
        reaches_on(next, x, x, z);
    } else {
        let w = choose|w: FileId| #[trigger]
            next(w).contains(z) && steps_to(next, y, w, (n - 1) as nat);
        reaches_through(next, x, y, w, (n - 1) as nat);
        reaches_on(next, x, w, z);
    }
}

/// A target that is found brings the other outputs of its edge along, as far
/// as they exist.
pub proof fn siblings_come_along(g: Targets, fid: FileId, ids: Seq<FileId>, x: FileId, y: FileId)
    requires
        resolved(g, fid, ids),
        ids.contains(x),
        list_at(g.co_outputs, x).contains(y),
        g.derived.contains_key(y),
    ensures
        ids.contains(y),
{
    let next = |x: FileId| target_next(g, x);
    assert(next(x).contains(y));
    reaches_on(next, fid, x, y);
}

/// An alias stands for everything that what it names stands for.
pub proof fn aliases_cover(
    g: Targets,
    alias: FileId,
    all: Seq<FileId>,
    part: FileId,
    ids: Seq<FileId>,
)
    requires
        resolved(g, alias, all),
        !g.derived.contains_key(alias),
        list_at(g.phony, alias).contains(part),
        resolved(g, part, ids),
    ensures
        forall|x: FileId| #[trigger] ids.contains(x) ==> all.contains(x),
{
    let next = |x: FileId| target_next(g, x);
    assert(next(alias).contains(part));
    assert forall|x: FileId| #[trigger] ids.contains(x) implies all.contains(x) by {
        let n = choose|n: nat| steps_to(next, part, x, n);
        reaches_through(next, alias, part, x, n);
    }
}

/// A walk that is over stays as it is.
proof fn walk_stays(g: Targets, fid: FileId, n: nat, m: nat)
    requires
        n <= m,
        target_walk(g, fid, n).work.len() == 0,
    ensures
        target_walk(g, fid, m) == target_walk(g, fid, n),
    decreases m,
{
    if n < m {
        walk_stays(g, fid, n, (m - 1) as nat);
    }
}

/// A name stands for the same files in the same order whenever it is asked for.
pub proof fn one_resolution(g: Targets, fid: FileId, a: Seq<FileId>, b: Seq<FileId>)
    requires
        resolved(g, fid, a),
        resolved(g, fid, b),
    ensures
        a == b,
{
    let n = choose|n: nat|
        (#[trigger] target_walk(g, fid, n)).work.len() == 0 && target_walk(g, fid, n).found == a;
    let m = choose|m: nat|
        (#[trigger] target_walk(g, fid, m)).work.len() == 0 && target_walk(g, fid, m).found == b;
    if n <= m {
        walk_stays(g, fid, n, m);
    } else {
        walk_stays(g, fid, m, n);
    }
}

/// Every input that an edge names is visited, unless it is an alias; and what a
/// visited node leads to is visited, unless it is one.
pub proof fn inputs_are_covered(
    g: Edges,
    compiles: bool,
    ins: Seq<FileId>,
    visits: Seq<Visit>,
    x: FileId,
    y: FileId,
)
    requires
        expanded(g, compiles, ins, visits),
        !g.phony.contains_key(y),
        ins.contains(y) || (nodes(visits).contains(x) && input_next(g, compiles, x).contains(y))
            || (ins.contains(x) && input_next(g, compiles, x).contains(y)),
    ensures
        nodes(visits).contains(y),
{
    let next = |x: FileId| input_next(g, compiles, x);
    if ins.contains(y) {
        assert(steps_to(next, y, y, 0));
        assert(reaches(next, y, y));
    } else if nodes(visits).contains(x) {
        let r = choose|r: FileId| ins.contains(r) && #[trigger] reaches(next, r, x);
        assert(next(x).contains(y));
        reaches_on(next, r, x, y);
    } else {
        assert(steps_to(next, x, x, 0));
        assert(reaches(next, x, x));
        assert(next(x).contains(y));
        reaches_on(next, x, x, y);
    }
}

/// Whatever a visited node leads to is visited, unless it is an alias: what lies
/// behind a stamp, the other outputs of its edge and, except for a compilation,
/// the libraries that it needs. What an alias stands for is visited in its place.
pub proof fn what_nodes_need_is_visited(
    g: Edges,
    compiles: bool,
    ins: Seq<FileId>,
    visits: Seq<Visit>,
    x: FileId,
    y: FileId,
)
    requires
        expanded(g, compiles, ins, visits),
        !g.phony.contains_key(y),
    ensures
        !g.phony.contains_key(x) && nodes(visits).contains(x) && list_at(g.stamps, x).contains(y)
            ==> nodes(visits).contains(y),
        !g.phony.contains_key(x) && nodes(visits).contains(x) && list_at(g.co_outputs, x).contains(
            y,
        ) ==> nodes(visits).contains(y),
        !compiles && !g.phony.contains_key(x) && nodes(visits).contains(x) && list_at(
            g.libs,
            x,
        ).contains(y) ==> nodes(visits).contains(y),
        ins.contains(x) && g.phony.contains_key(x) && g.phony[x].contains(y) ==> nodes(
            visits,
        ).contains(y),
        ins.contains(y) ==> nodes(visits).contains(y),
{
    let nx = input_next(g, compiles, x);
    let a = list_at(g.stamps, x);
    let b = without(list_at(g.co_outputs, x), x);
    let c = if compiles {
        Seq::empty()
    } else {
        list_at(g.libs, x)
    };
    if ins.contains(y) {
        inputs_are_covered(g, compiles, ins, visits, x, y);
    }
    if ins.contains(x) && g.phony.contains_key(x) && g.phony[x].contains(y) {
        inputs_are_covered(g, compiles, ins, visits, x, y);
    }
    if !g.phony.contains_key(x) && nodes(visits).contains(x) {
        assert(nx == a + b + c);
        if a.contains(y) {
            let i = choose|i: int| 0 <= i < a.len() && a[i] == y;
            assert(nx[i] == y);
            inputs_are_covered(g, compiles, ins, visits, x, y);
        }
        if list_at(g.co_outputs, x).contains(y) && x != y {
            without_holds(list_at(g.co_outputs, x), x, y);
            let i = choose|i: int| 0 <= i < b.len() && b[i] == y;
            assert(nx[a.len() + i] == y);
            inputs_are_covered(g, compiles, ins, visits, x, y);
        }
        if c.contains(y) {
            let i = choose|i: int| 0 <= i < c.len() && c[i] == y;
            assert(nx[a.len() + b.len() + i] == y);
            inputs_are_covered(g, compiles, ins, visits, x, y);
        }
    }
}

/// A compilation is led by everything that another task is led by, but for the
/// libraries; aliases lead to the same for both.
pub proof fn only_libraries_tell_compilations_apart(g: Edges, x: FileId)
    ensures
        input_next(g, true, x) == input_next(Edges { libs: Map::empty(), ..g }, false, x),
        g.phony.contains_key(x) ==> input_next(g, true, x) == g.phony[x] && input_next(g, false, x)
            == g.phony[x],
        !g.phony.contains_key(x) ==> input_next(g, false, x) == input_next(g, true, x) + list_at(
            g.libs,
            x,
        ),
{
    let a = list_at(g.stamps, x) + without(list_at(g.co_outputs, x), x);
    assert(a + Seq::<FileId>::empty() =~= a);
    assert(a + list_at(g.libs, x) =~= (a + Seq::<FileId>::empty()) + list_at(g.libs, x));
}

/// Only a node that the edge names is visited as one that it names; every other
/// visit was led to.
pub proof fn only_named_nodes_are_named(
    g: Edges,
    compiles: bool,
    ins: Seq<FileId>,
    visits: Seq<Visit>,
    x: FileId,
)
    requires
        expanded(g, compiles, ins, visits),
        visits.contains((x, false)),
    ensures
        ins.contains(x),
{
    let n = choose|n: nat|
        (#[trigger] input_walk(g, compiles, ins, n)).work.len() == 0 && input_walk(
            g,
            compiles,
            ins,
            n,
        ).visits == visits;
    named_are_inputs(g, compiles, ins, n, x);
}

proof fn named_are_inputs(g: Edges, compiles: bool, ins: Seq<FileId>, n: nat, x: FileId)
    ensures
        input_walk(g, compiles, ins, n).visits.contains((x, false)) ==> ins.contains(x),
        input_walk(g, compiles, ins, n).work.contains((x, false)) ==> ins.contains(x),
    decreases n,
{
    let w = input_walk(g, compiles, ins, n);
    if n == 0 {
        if w.work.contains((x, false)) {
            let i = choose|i: int| 0 <= i < w.work.len() && w.work[i] == (x, false);
            assert(ins[i] == x);
        }
    } else {
        let m = (n - 1) as nat;
        named_are_inputs(g, compiles, ins, m, x);
        let b = input_walk(g, compiles, ins, m);
        if b.work.len() > 0 {
            let v = b.work.last();
            let rest = b.work.drop_last();
            assert(b.work[b.work.len() - 1] == v);
            if w.work.contains((x, false)) {
                let i = choose|i: int| 0 <= i < w.work.len() && w.work[i] == (x, false);
                if i < rest.len() {
                    assert(b.work[i] == (x, false));
                } else {
                    assert(w.work[i] == led(input_next(g, compiles, v.0))[i - rest.len()]);
                }
            }
            if w.visits.contains((x, false)) {
                let i = choose|i: int| 0 <= i < w.visits.len() && w.visits[i] == (x, false);
                if i < b.visits.len() {
                    assert(b.visits[i] == (x, false));
                } else {
                    assert(v == (x, false));
                    assert(b.work.contains(v));
                }
            }
        }
    }
}

/// The input that is named last is visited first, as one that the edge names.
pub proof fn the_last_named_input_comes_first(
    g: Edges,
    compiles: bool,
    ins: Seq<FileId>,
    visits: Seq<Visit>,
)
    requires
        expanded(g, compiles, ins, visits),
        ins.len() > 0,
        !g.phony.contains_key(ins.last()),
    ensures
        visits.len() > 0,
        visits[0] == (ins.last(), false),
{
    let n = choose|n: nat|
        (#[trigger] input_walk(g, compiles, ins, n)).work.len() == 0 && input_walk(
            g,
            compiles,
            ins,
            n,
        ).visits == visits;
    assert(named(ins).len() == ins.len());
    reveal_with_fuel(input_walk, 2);
    assert(n > 0);
    assert(named(ins).last() == (ins.last(), false));
    first_visit_stays(g, compiles, ins, n);
}

proof fn first_visit_stays(g: Edges, compiles: bool, ins: Seq<FileId>, n: nat)
    requires
        n > 0,
        ins.len() > 0,
        !g.phony.contains_key(ins.last()),
    ensures
        input_walk(g, compiles, ins, n).visits.len() > 0,
        input_walk(g, compiles, ins, n).visits[0] == (ins.last(), false),
    decreases n,
{
    if n == 1 {
        reveal_with_fuel(input_walk, 2);
        assert(named(ins).last() == (ins.last(), false));
    } else {
        first_visit_stays(g, compiles, ins, (n - 1) as nat);
    }
}

/// Whoever asks for a file gets it, and gets what an alias stands for in its
/// place: each file that is found exists.
pub proof fn files_stand_for_themselves(g: Targets, fid: FileId, ids: Seq<FileId>, y: FileId)
    requires
        resolved(g, fid, ids),
    ensures
        g.derived.contains_key(fid) ==> ids.contains(fid),
        !g.derived.contains_key(fid) && list_at(g.phony, fid).contains(y) && g.derived.contains_key(
            y,
        ) ==> ids.contains(y),
        !g.derived.contains_key(fid) && !g.phony.contains_key(fid) ==> ids.len() == 0,
        ids.contains(y) ==> g.derived.contains_key(y),
{
    let next = |x: FileId| target_next(g, x);
    assert(steps_to(next, fid, fid, 0));
    if !g.derived.contains_key(fid) {
        if list_at(g.phony, fid).contains(y) && g.derived.contains_key(y) {
            assert(next(fid).contains(y));
            reaches_on(next, fid, fid, y);
        }
        if !g.phony.contains_key(fid) && ids.len() > 0 {
            assert(ids.contains(ids[0]));
            let n = choose|n: nat| steps_to(next, fid, ids[0], n);
            nothing_follows(next, fid, ids[0], n);
        }
    }
}

proof fn nothing_follows(
    next: spec_fn(FileId) -> Seq<FileId>,
    x: FileId,
    y: FileId,
    n: nat,
)
    requires
        next(x).len() == 0,
        steps_to(next, x, y, n),
    ensures
        y == x,
    decreases n,
{
    if n > 0 {
        let z = choose|z: FileId| #[trigger]
            next(z).contains(y) && steps_to(next, x, z, (n - 1) as nat);
        nothing_follows(next, x, z, (n - 1) as nat);
    }
}

} // verus!
