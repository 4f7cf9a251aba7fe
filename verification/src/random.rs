//! The calls into the `rand` crate. Nothing in this file is proved: each
//! contract says what the crate's source shows of the call, for every outcome
//! of the random source.

use rand::rngs::ThreadRng;
use rand::seq::SliceRandom;
use rand::Rng;
use vstd::prelude::*;

use crate::protocol::Character;

verus! {

/// `rand::rngs::ThreadRng`, the handle to the generator of the current thread.
/// Nothing is known of its state.
#[verifier::external_type_specification]
#[verifier::external_body]
pub struct ExThreadRng(rand::rngs::ThreadRng);

/// `rand::thread_rng` hands out the generator of the current thread. Nothing
/// is promised of it. It panics only if the operating system cannot seed the
/// generator.
pub assume_specification[ rand::thread_rng ]() -> (rng: ThreadRng);

/// `Rng::gen` for `bool`: a coin flip. Either value may come back.
#[verifier::external_body]
pub(crate) fn flip_coin(rng: &mut ThreadRng) -> (heads: bool) {
    rng.gen()
}

/// `SliceRandom::shuffle` reorders the slice in place by swapping pairs of
/// its elements, so the characters are the same ones, each as often as
/// before.
#[verifier::external_body]
pub(crate) fn shuffle(characters: &mut Vec<Character>, rng: &mut ThreadRng)
    ensures
        final(characters)@.to_multiset() == old(characters)@.to_multiset(),
{
    characters.shuffle(rng);
}

/// Whether `chosen` holds the words that `source` has at the positions
/// `picks`, in that order, no position taken twice.
pub open spec fn is_selection(
    source: Seq<Seq<char>>,
    chosen: Seq<Seq<char>>,
    picks: Seq<int>,
) -> bool {
    &&& picks.len() == chosen.len()
    &&& picks.no_duplicates()
    &&& forall|k: int|
        0 <= k < picks.len() ==> 0 <= #[trigger] picks[k] < source.len() && chosen[k]
            == source[picks[k]]
}

/// `SliceRandom::choose_multiple` draws `amount` positions of the slice, or
/// all of them where the slice is shorter, no position twice, and yields the
/// elements at those positions. The copies of those elements come back in the
/// order drawn.
#[verifier::external_body]
pub(crate) fn choose_multiple(words: &Vec<String>, rng: &mut ThreadRng, amount: usize) -> (chosen:
    Vec<String>)
    ensures
        chosen.len() == if amount <= words.len() {
            amount
        } else {
            words.len()
        },
        exists|picks: Seq<int>| is_selection(words.deep_view(), chosen.deep_view(), picks),
{
    words.choose_multiple(rng, amount).cloned().collect()
}

} // verus!
