//! Every order in which `n` seats can be filled, produced one at a time.

use crate::seating::MAX_PEOPLE;
use itertools::Itertools;
use itertools::Permutations;
use std::ops::Range;
use vstd::prelude::*;

verus! {

/// The adaptor `itertools::Permutations`, which hands out the arrangements
/// one at a time. Nothing is known of what is inside it.
#[verifier::external_type_specification]
#[verifier::external_body]
#[verifier::reject_recursive_types(I)]
pub struct ExPermutations<I: Iterator>(Permutations<I>);

/// The arrangements that `source` has yet to hand out, next one first.
pub uninterp spec fn pending(source: Permutations<Range<usize>>) -> Seq<Seq<usize>>;

/// `a` names each of the seats `0..n` exactly once.
pub open spec fn is_arrangement(a: Seq<usize>, n: nat) -> bool {
    &&& a.len() == n
    &&& forall|i: int| 0 <= i < a.len() ==> a[i] < n
    &&& forall|i: int, j: int| 0 <= i < j < a.len() ==> a[i] != a[j]
}

/// `a` comes before `b` in dictionary order: at the first place where they
/// differ, `a` holds the smaller number.
pub open spec fn lex_before(a: Seq<usize>, b: Seq<usize>) -> bool {
    exists|k: int|
        0 <= k < a.len() && k < b.len() && a[k] < b[k] && (forall|j: int|
            0 <= j < k ==> a[j] == b[j])
}

/// `listing` holds every arrangement of `0..n`, each once, in dictionary order.
pub open spec fn lists_arrangements(listing: Seq<Seq<usize>>, n: nat) -> bool {
    &&& forall|i: int| 0 <= i < listing.len() ==> is_arrangement(#[trigger] listing[i], n)
    &&& forall|i: int, j: int|
        0 <= i < j < listing.len() ==> lex_before(#[trigger] listing[i], #[trigger] listing[j])
    &&& forall|a: Seq<usize>| #[trigger] is_arrangement(a, n) ==> listing.contains(a)
}

/// A generator of the arrangements of `0..n`: `Itertools::permutations` on
/// that range, asked for all `n` places.
///
/// Taken on trust from the adaptor: it hands out every arrangement of the
/// `n` numbers exactly once, in dictionary order, so the one that leaves
/// everything in place comes first. It copies the whole range into a buffer
/// before it hands out the first arrangement, which is why `n` is kept small
/// here.
#[verifier::external_body]
pub(crate) fn arrangements(n: usize) -> (source: Permutations<Range<usize>>)
    requires
        n <= MAX_PEOPLE,
    ensures
        lists_arrangements(pending(source), n as nat),
{
    (0..n).permutations(n)
}

/// The next arrangement of `source`, if one is left: `Iterator::next` of
/// `itertools::Permutations`.
///
/// Taken on trust from the adaptor: it takes the first of the pending
/// arrangements and leaves the others pending, in their order; once none is
/// pending it gives `None`, and goes on doing so.
#[verifier::external_body]
pub(crate) fn next_arrangement(source: &mut Permutations<Range<usize>>) -> (next: Option<Vec<usize>>)
    ensures
        pending(*old(source)).len() == 0 ==> next is None && pending(*final(source)).len() == 0,
        pending(*old(source)).len() > 0 ==> next is Some && next->0@ == pending(*old(source))[0]
            && pending(*final(source)) == pending(*old(source)).drop_first(),
{
    source.next()
}

/// A listing of the arrangements of `0..n` starts with one: there is always
/// the arrangement that leaves everything in place.
pub proof fn lemma_listing_is_not_empty(listing: Seq<Seq<usize>>, n: nat)
    requires
        lists_arrangements(listing, n),
        n <= usize::MAX,
    ensures
        listing.len() > 0,
{
    let in_place = Seq::new(n, |i: int| i as usize);
    assert(is_arrangement(in_place, n));
    assert(listing.contains(in_place));
}

} // verus!
