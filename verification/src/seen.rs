//! The set of graph nodes that a walk has met.
use rustc_hash::FxHashSet;
use vstd::prelude::*;

verus! {

/// `rustc_hash::FxBuildHasher`, the hasher of the set below.
#[verifier::external_type_specification]
#[verifier::external_body]
pub struct ExFxBuildHasher(rustc_hash::FxBuildHasher);

/// `FxHashSet::default` makes a set without elements.
#[verifier::external_body]
pub(crate) fn new_seen() -> (r: FxHashSet<usize>)
    ensures
        r@ == Set::<usize>::empty(),
{
    FxHashSet::default()
}

/// `FxHashSet::insert` adds the element and tells whether it is new.
#[verifier::external_body]
pub(crate) fn meet(seen: &mut FxHashSet<usize>, x: usize) -> (fresh: bool)
    ensures
        final(seen)@ == old(seen)@.insert(x),
        fresh == !old(seen)@.contains(x),
{
    seen.insert(x)
}

/// A finite set of machine integers has no more elements than there are such integers.
pub proof fn few_nodes(s: Set<usize>)
    requires
        s.finite(),
    ensures
        s.len() <= usize::MAX + 1,
{
    let ints = s.map(|x: usize| x as int);
    let all = vstd::set_lib::set_int_range(0, usize::MAX + 1);
    vstd::set_lib::lemma_int_range(0, usize::MAX + 1);
    assert(ints.subset_of(all));
    vstd::set_lib::lemma_len_subset(ints, all);
    vstd::set_lib::lemma_map_size(s, ints, |x: usize| x as int);
}

} // verus!
