//! Random order.
use crate::names::Name;
use rand::seq::SliceRandom;
use vstd::prelude::*;

verus! {

/// What a list of names is in contracts.
pub open spec fn names_view(names: Seq<String>) -> Seq<Name> {
    names.map_values(|name: String| name@)
}

/// Calls `rand::seq::SliceRandom::shuffle` with the generator of
/// `rand::thread_rng`: the list has the same names as before, each as often,
/// in an order that is left to chance. The first call in a thread needs a seed
/// from the operating system; where there is none, `rand::thread_rng` panics.
#[verifier::external_body]
pub(crate) fn shuffle(names: &mut Vec<String>)
    ensures
        names_view(final(names)@).to_multiset() == names_view(old(names)@).to_multiset(),
{
    names.shuffle(&mut rand::thread_rng());
}

/// A list with the same names, each as often, has none twice if the other has
/// none twice.
pub(crate) proof fn lemma_reordered(names: Seq<Name>, shuffled: Seq<Name>)
    requires
        names.no_duplicates(),
        shuffled.to_multiset() == names.to_multiset(),
    ensures
        shuffled.no_duplicates(),
        shuffled.to_set() == names.to_set(),
{
    names.lemma_multiset_has_no_duplicates();
    shuffled.lemma_multiset_has_no_duplicates_conv();
    names.to_multiset_ensures();
    shuffled.to_multiset_ensures();
    assert forall|name: Name| shuffled.to_set().contains(name) == names.to_set().contains(name) by {
        assert(shuffled.contains(name) == (shuffled.to_multiset().count(name) > 0));
        assert(names.contains(name) == (names.to_multiset().count(name) > 0));
    }
    assert(shuffled.to_set() =~= names.to_set());
}

} // verus!
