//! The one place where chance enters the game: the calls into the `rand`
//! crate. None of these contracts is proved; each states what the source of
//! `rand` shows to hold however the numbers fall.

use rand::rngs::ThreadRng;
use rand::seq::{IteratorRandom, SliceRandom};
use vstd::prelude::*;
use vstd::seq_lib::{to_multiset_contains, to_multiset_len};

verus! {

/// What a reordering keeps: the length, which elements occur, and that none
/// occurs twice.
pub proof fn lemma_reordered<T>(before: Seq<T>, after: Seq<T>)
    requires
        after.to_multiset() == before.to_multiset(),
    ensures
        after.len() == before.len(),
        forall|x: T| after.contains(x) <==> before.contains(x),
        before.no_duplicates() ==> after.no_duplicates(),
{
    to_multiset_len(before);
    to_multiset_len(after);
    assert forall|x: T| after.contains(x) <==> before.contains(x) by {
        to_multiset_contains(before, x);
        to_multiset_contains(after, x);
    }
    if before.no_duplicates() {
        before.lemma_multiset_has_no_duplicates();
        after.lemma_multiset_has_no_duplicates_conv();
    }
}

/// What a selection keeps: every selected element is one of the whole, and
/// none is selected twice if none occurs twice in the whole.
pub proof fn lemma_selected<T>(part: Seq<T>, whole: Seq<T>)
    requires
        part.to_multiset().subset_of(whole.to_multiset()),
    ensures
        forall|x: T| part.contains(x) ==> whole.contains(x),
        whole.no_duplicates() ==> part.no_duplicates(),
{
    assert forall|x: T| part.contains(x) implies whole.contains(x) by {
        to_multiset_contains(part, x);
        to_multiset_contains(whole, x);
        assert(part.to_multiset().count(x) <= whole.to_multiset().count(x));
    }
    if whole.no_duplicates() {
        whole.lemma_multiset_has_no_duplicates();
        assert forall|x: T| part.to_multiset().contains(x) implies part.to_multiset().count(x)
            == 1 by {
            assert(part.to_multiset().count(x) <= whole.to_multiset().count(x));
        }
        part.lemma_multiset_has_no_duplicates_conv();
    }
}

/// `rand::rngs::ThreadRng`: the handle to a random number generator. It is
/// carried from `thread_rng` to the calls that draw from it; nothing is known
/// of what is inside.
#[verifier::external_type_specification]
#[verifier::external_body]
pub struct ExThreadRng(rand::rngs::ThreadRng);

/// `rand::thread_rng`: a handle to the random number generator of the current
/// thread. Nothing is claimed of the numbers that it will give.
#[verifier::external_body]
pub(crate) fn thread_rng() -> (rng: ThreadRng) {
    rand::thread_rng()
}

/// `SliceRandom::shuffle`: reorders `items` in place by a series of swaps. The
/// claim is that the elements are the same ones, each as often as before.
#[verifier::external_body]
pub(crate) fn shuffle<T>(items: &mut Vec<T>, rng: &mut ThreadRng)
    ensures
        final(items)@.to_multiset() == old(items)@.to_multiset(),
{
    items.shuffle(rng);
}

/// `IteratorRandom::choose_multiple`: collects `amount` of the values that an
/// iterator yields, each taken from another place in it. The claim is that the
/// result has `amount` elements, none of them more often than `items` has it.
/// The call is only made with `amount` no larger than the number of elements.
#[verifier::external_body]
pub(crate) fn choose_multiple<T>(items: Vec<T>, rng: &mut ThreadRng, amount: usize) -> (chosen:
    Vec<T>)
    requires
        amount <= items@.len(),
    ensures
        chosen@.len() == amount,
        chosen@.to_multiset().subset_of(items@.to_multiset()),
{
    items.into_iter().choose_multiple(rng, amount)
}

/// `SliceRandom::choose`: one element of a slice, or nothing if the slice is
/// empty. The claim is that the result is an element of the slice.
#[verifier::external_body]
pub(crate) fn choose_one<T: Copy>(items: &[T], rng: &mut ThreadRng) -> (chosen: Option<T>)
    ensures
        chosen.is_none() <==> items@.len() == 0,
        chosen matches Some(element) ==> items@.contains(element),
{
    items.choose(rng).copied()
}

} // verus!
