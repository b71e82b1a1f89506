//! Dealing: a random permutation of the deck, made by a Fisher-Yates shuffle
//! whose picks come from the thread-local generator of the `rand` crate.

use crate::game::{Card, NUM_CARDS};
use rand::rngs::ThreadRng;
use rand::Rng;
use vstd::prelude::*;

verus! {

/// `rand::rngs::ThreadRng`, a handle to the generator of the current thread.
/// Nothing is known of its state.
#[verifier::external_type_specification]
#[verifier::external_body]
pub struct ExThreadRng(ThreadRng);

/// Draws an index below `bound` with `rand::Rng::gen_range` on the range
/// `0..bound`. The call returns a value of its range, which must not be
/// empty; which value it returns is left open.
#[verifier::external_body]
fn pick_below(rng: &mut ThreadRng, bound: usize) -> (j: usize)
    requires
        bound > 0,
    ensures
        j < bound,
{
    rng.gen_range(0..bound)
}

/// `deck` with the cards at positions `i` and `j` exchanged.
pub open spec fn swapped(deck: Seq<Card>, i: int, j: int) -> Seq<Card> {
    deck.update(i, deck[j]).update(j, deck[i])
}

/// Every pick is a position of a deck of `n` cards.
pub open spec fn picks_below(picks: Seq<usize>, n: nat) -> bool {
    forall|k: int| 0 <= k < picks.len() ==> #[trigger] picks[k] < n
}

/// The picks of a Fisher-Yates shuffle of `picks.len() + 1` cards: the pick
/// for each position, taken from the last position down to position 1, is
/// that position or one before it.
pub open spec fn valid_picks(picks: Seq<usize>) -> bool {
    forall|k: int| 0 <= k < picks.len() ==> #[trigger] picks[k] <= picks.len() - k
}

/// The deck after a Fisher-Yates shuffle driven by `picks`: the last position
/// is exchanged with the first pick, the position before it with the second
/// pick, and so on down to position 1.
pub open spec fn shuffled_by(deck: Seq<Card>, picks: Seq<usize>) -> Seq<Card>
    decreases picks.len(),
{
    if picks.len() == 0 {
        deck
    } else {
        shuffled_by(swapped(deck, picks.len() as int, picks[0] as int), picks.drop_first())
    }
}

/// Exchanging two cards of a deck leaves it with the same cards.
pub proof fn lemma_swap_permutes(deck: Seq<Card>, i: int, j: int)
    requires
        0 <= i < deck.len(),
        0 <= j < deck.len(),
    ensures
        swapped(deck, i, j).len() == deck.len(),
        swapped(deck, i, j).to_multiset() == deck.to_multiset(),
{
    broadcast use vstd::multiset::group_multiset_axioms;

    let half = deck.update(i, deck[j]);
    vstd::seq_lib::to_multiset_update(deck, i, deck[j]);
    vstd::seq_lib::to_multiset_update(half, j, deck[i]);
    vstd::seq_lib::to_multiset_contains(deck, deck[i]);
    vstd::seq_lib::to_multiset_contains(deck, deck[j]);
    assert(deck.contains(deck[i]));
    assert(deck.contains(deck[j]));
    if i == j {
        assert(swapped(deck, i, j) =~= deck);
    } else {
        assert(half[j] == deck[j]);
        assert(swapped(deck, i, j).to_multiset() =~= deck.to_multiset());
    }
}

/// A shuffle permutes: whatever the picks, the shuffled deck has the same
/// cards as the deck it started from.
pub proof fn lemma_shuffle_permutes(deck: Seq<Card>, picks: Seq<usize>)
    requires
        deck.len() > picks.len(),
        picks_below(picks, deck.len()),
    ensures
        shuffled_by(deck, picks).len() == deck.len(),
        shuffled_by(deck, picks).to_multiset() == deck.to_multiset(),
    decreases picks.len(),
{
    if picks.len() > 0 {
        let rest = picks.drop_first();
        assert(picks[0] < deck.len());
        assert forall|k: int| 0 <= k < rest.len() implies #[trigger] rest[k] < deck.len() by {
            assert(rest[k] == picks[k + 1]);
        }
        let after = swapped(deck, picks.len() as int, picks[0] as int);
        lemma_swap_permutes(deck, picks.len() as int, picks[0] as int);
        lemma_shuffle_permutes(after, rest);
    }
}

/// A deck of distinct cards stays one when it is rearranged.
pub proof fn lemma_permutation_keeps_distinct(before: Seq<Card>, after: Seq<Card>)
    requires
        before.no_duplicates(),
        after.to_multiset() == before.to_multiset(),
    ensures
        after.no_duplicates(),
{
    before.lemma_multiset_has_no_duplicates();
    after.lemma_multiset_has_no_duplicates_conv();
}

/// Shuffles `deck` as `picks` says: the last position is exchanged with
/// position `picks[0]`, the one before it with `picks[1]`, and so on down to
/// position 1.
pub fn shuffle_deck_with(deck: &mut [Card; NUM_CARDS], picks: &Vec<usize>)
    requires
        picks@.len() == NUM_CARDS - 1,
        picks_below(picks@, NUM_CARDS as nat),
    ensures
        final(deck)@ == shuffled_by(old(deck)@, picks@),
        final(deck)@.to_multiset() == old(deck)@.to_multiset(),
        old(deck)@.no_duplicates() ==> final(deck)@.no_duplicates(),
{
    let mut k: usize = 0;
    assert(picks@.skip(0) =~= picks@);
    while k < NUM_CARDS - 1
        invariant
            k <= NUM_CARDS - 1,
            picks@.len() == NUM_CARDS - 1,
            picks_below(picks@, NUM_CARDS as nat),
            shuffled_by(deck@, picks@.skip(k as int)) == shuffled_by(old(deck)@, picks@),
        decreases NUM_CARDS - 1 - k,
    {
        let i: usize = NUM_CARDS - 1 - k;
        let j: usize = picks[k];
        assert(picks@[k as int] < NUM_CARDS);
        let ghost before = deck@;
        let card_i = deck[i];
        let card_j = deck[j];
        deck[i] = card_j;
        deck[j] = card_i;
        proof {
            let left = picks@.skip(k as int);
            assert(left.len() == i);
            assert(left[0] == j);
            assert(left.drop_first() =~= picks@.skip(k + 1));
            assert(deck@ =~= swapped(before, i as int, j as int));
        }
        k += 1;
    }
    proof {
        assert(picks@.skip(k as int).len() == 0);
        lemma_shuffle_permutes(old(deck)@, picks@);
        if old(deck)@.no_duplicates() {
            lemma_permutation_keeps_distinct(old(deck)@, deck@);
        }
    }
}

/// Shuffles `deck` into a random order. For each position from the last down
/// to position 1 an index is drawn from `rng`, among that position and those
/// before it, and the cards at the two places are exchanged. Whatever is
/// drawn, the deck keeps its cards.
pub fn shuffle_deck(deck: &mut [Card; NUM_CARDS], rng: &mut ThreadRng)
    ensures
        exists|picks: Seq<usize>|
            picks.len() == NUM_CARDS - 1 && valid_picks(picks) && final(deck)@ == #[trigger] shuffled_by(
                old(deck)@,
                picks,
            ),
        final(deck)@.to_multiset() == old(deck)@.to_multiset(),
        old(deck)@.no_duplicates() ==> final(deck)@.no_duplicates(),
{
    let mut picks: Vec<usize> = Vec::new();
    let mut k: usize = 0;
    while k < NUM_CARDS - 1
        invariant
            k <= NUM_CARDS - 1,
            picks@.len() == k,
            forall|n: int| 0 <= n < k ==> #[trigger] picks@[n] <= NUM_CARDS - 1 - n,
        decreases NUM_CARDS - 1 - k,
    {
        let j = pick_below(rng, NUM_CARDS - k);
        picks.push(j);
        k += 1;
    }
    shuffle_deck_with(deck, &picks);
}

} // verus!
