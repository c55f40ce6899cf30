//! The deck: fifty-two distinct cards, shuffled and dealt from the top
//! without replacement.

use crate::card::{
    lemma_rank_value_roundtrip, lemma_suit_index_roundtrip, lemma_value_rank_roundtrip, Card,
    Rank, Suit,
};
use crate::random::shuffle;
use vstd::prelude::*;

verus! {

/// Number of cards in a full deck.
pub const DECK_SIZE: usize = 52;

/// A deck of cards. The last card of `cards` is the top of the deck.
pub struct Deck {
    pub cards: Vec<Card>,
}

/// The full deck in canonical order: suit by suit (clubs, diamonds, hearts,
/// spades), and within a suit from the two up to the ace.
pub open spec fn full_deck() -> Seq<Card> {
    Seq::new(
        52,
        |i: int| Card { rank: Rank::spec_from_value(i % 13 + 2), suit: Suit::spec_from_index(i / 13) },
    )
}

/// Where a card stands in the canonical order.
pub open spec fn canonical_position(card: Card) -> int {
    card.suit.spec_index() * 13 + card.rank.spec_value() - 2
}

/// What is left of `deck` after `k` cards were dealt from the top.
pub open spec fn remaining_after(deck: Seq<Card>, k: nat) -> Seq<Card> {
    deck.take(deck.len() - k)
}

/// The `k` cards dealt from the top of `deck`, in the order dealt.
pub open spec fn dealt_from(deck: Seq<Card>, k: nat) -> Seq<Card> {
    Seq::new(k, |i: int| deck[deck.len() - 1 - i])
}

impl View for Deck {
    type V = Seq<Card>;

    open spec fn view(&self) -> Seq<Card> {
        self.cards@
    }
}

impl Deck {
    /// No card occurs twice.
    pub open spec fn well_formed(&self) -> bool {
        self@.no_duplicates()
    }

    /// A full deck in canonical order.
    pub fn new() -> (deck: Deck)
        ensures
            deck@ == full_deck(),
            deck@.len() == DECK_SIZE,
            deck.well_formed(),
    {
        let mut cards: Vec<Card> = Vec::with_capacity(52);
        let mut s: u8 = 0;
        while s < 4
            invariant
                s <= 4,
                cards@ == full_deck().take(13 * s),
            decreases 4 - s,
        {
            let suit = Suit::from_index(s).unwrap();
            let mut v: u8 = 2;
            while v <= 14
                invariant
                    2 <= v <= 15,
                    s < 4,
                    suit == Suit::spec_from_index(s as int),
                    cards@ == full_deck().take(13 * s + v - 2),
                decreases 15 - v,
            {
                let rank = Rank::from_value(v).unwrap();
                cards.push(Card::new(rank, suit));
                proof {
                    let i = 13 * s + v - 2;
                    assert(i % 13 == v - 2 && i / 13 == s as int);
                    assert(full_deck()[i] == Card { rank, suit });
                    assert(full_deck().take(i + 1) == full_deck().take(i).push(full_deck()[i]));
                }
                v += 1;
            }
            s += 1;
        }
        proof {
            assert(full_deck().take(52) == full_deck());
            lemma_full_deck_complete();
        }
        Deck { cards }
    }

    /// Number of cards left.
    pub fn len(&self) -> (n: usize)
        ensures
            n == self@.len(),
    {
        self.cards.len()
    }

    /// Reorders the deck at random. The deck holds the same cards afterwards.
    pub fn shuffle(&mut self)
        ensures
            final(self)@.to_multiset() == old(self)@.to_multiset(),
            final(self)@.len() == old(self)@.len(),
            old(self).well_formed() ==> final(self).well_formed(),
    {
        let ghost before = self.cards@;
        shuffle(&mut self.cards);
        proof {
            before.to_multiset_ensures();
            self.cards@.to_multiset_ensures();
            if before.no_duplicates() {
                before.lemma_multiset_has_no_duplicates();
                self.cards@.lemma_multiset_has_no_duplicates_conv();
            }
        }
    }

    /// Removes and returns the top card, or returns `None` and leaves the
    /// deck as it is when no card is left.
    pub fn deal(&mut self) -> (card: Option<Card>)
        ensures
            old(self)@.len() == 0 ==> card is None && final(self)@ == old(self)@,
            old(self)@.len() > 0 ==> card == Some(old(self)@.last())
                && final(self)@ == old(self)@.drop_last(),
            old(self).well_formed() ==> final(self).well_formed(),
    {
        self.cards.pop()
    }
}

/// The full deck holds every card exactly once, each at its canonical
/// position.
pub proof fn lemma_full_deck_complete()
    ensures
        full_deck().len() == 52,
        full_deck().no_duplicates(),
        forall|card: Card|
            0 <= #[trigger] canonical_position(card) < 52 && full_deck()[canonical_position(card)]
                == card,
        forall|card: Card| #[trigger] full_deck().contains(card),
{
    assert forall|card: Card|
        0 <= #[trigger] canonical_position(card) < 52 && full_deck()[canonical_position(card)]
            == card by {
        lemma_rank_value_roundtrip(card.rank);
        lemma_suit_index_roundtrip(card.suit);
        let p = canonical_position(card);
        assert(p % 13 == card.rank.spec_value() - 2 && p / 13 == card.suit.spec_index());
    }
    assert forall|card: Card| #[trigger] full_deck().contains(card) by {
        assert(full_deck()[canonical_position(card)] == card);
    }
    assert forall|i: int, j: int| 0 <= i < 52 && 0 <= j < 52 && i != j implies full_deck()[i]
        != full_deck()[j] by {
        lemma_value_rank_roundtrip(i % 13 + 2);
        lemma_value_rank_roundtrip(j % 13 + 2);
        assert(Suit::spec_from_index(i / 13).spec_index() == i / 13);
        assert(Suit::spec_from_index(j / 13).spec_index() == j / 13);
    }
}

/// Every ordering of the full deck holds fifty-two cards, every card exactly
/// once: shuffling a fresh deck loses and repeats nothing.
pub proof fn lemma_reordered_full_deck(deck: Seq<Card>)
    requires
        deck.to_multiset() == full_deck().to_multiset(),
    ensures
        deck.len() == 52,
        deck.no_duplicates(),
        forall|card: Card| #[trigger] deck.contains(card),
{
    lemma_full_deck_complete();
    deck.to_multiset_ensures();
    full_deck().to_multiset_ensures();
    full_deck().lemma_multiset_has_no_duplicates();
    deck.lemma_multiset_has_no_duplicates_conv();
    assert forall|card: Card| #[trigger] deck.contains(card) by {
        assert(full_deck().contains(card));
        assert(full_deck().to_multiset().count(card) > 0);
        assert(deck.to_multiset().count(card) > 0);
    }
}

/// Dealing one more card removes the top of what was left and appends it to
/// what was dealt.
pub proof fn lemma_deal_one_more(deck: Seq<Card>, k: nat)
    requires
        k < deck.len(),
    ensures
        remaining_after(deck, k + 1) == remaining_after(deck, k).drop_last(),
        dealt_from(deck, k + 1) == dealt_from(deck, k).push(remaining_after(deck, k).last()),
{
    assert(remaining_after(deck, k + 1) =~= remaining_after(deck, k).drop_last());
    assert(dealt_from(deck, k + 1) =~= dealt_from(deck, k).push(remaining_after(deck, k).last()));
}

/// After `k` deals the deck holds `k` cards fewer, and the cards dealt are
/// exactly the cards removed: what is left and what was dealt make up the
/// deck as it was.
pub proof fn lemma_dealt_are_removed(deck: Seq<Card>, k: nat)
    requires
        k <= deck.len(),
    ensures
        remaining_after(deck, k).len() == deck.len() - k,
        dealt_from(deck, k).len() == k,
        remaining_after(deck, k).to_multiset().add(dealt_from(deck, k).to_multiset())
            == deck.to_multiset(),
        deck.no_duplicates() ==> remaining_after(deck, k).no_duplicates() && forall|card: Card|
            dealt_from(deck, k).contains(card) ==> !remaining_after(deck, k).contains(card),
    decreases k,
{
    broadcast use vstd::multiset::group_multiset_axioms;

    let rem = remaining_after(deck, k);
    let out = dealt_from(deck, k);
    if k == 0 {
        assert(rem =~= deck);
        assert(out =~= Seq::<Card>::empty());
        out.to_multiset_ensures();
        assert(out.to_multiset() =~= vstd::multiset::Multiset::<Card>::empty()) by {
            assert forall|c: Card| out.to_multiset().count(c) == 0 by {
                assert(!out.contains(c));
            }
        }
        assert(rem.to_multiset().add(out.to_multiset()) =~= deck.to_multiset());
    } else {
        let j = (k - 1) as nat;
        lemma_dealt_are_removed(deck, j);
        lemma_deal_one_more(deck, j);
        let rem0 = remaining_after(deck, j);
        let out0 = dealt_from(deck, j);
        let top = rem0.last();
        assert(rem0 == rem.push(top));
        rem.to_multiset_ensures();
        out0.to_multiset_ensures();
        assert(rem0.to_multiset() =~= rem.to_multiset().insert(top));
        assert(out.to_multiset() =~= out0.to_multiset().insert(top));
        assert(rem.to_multiset().add(out.to_multiset()) =~= rem0.to_multiset().add(
            out0.to_multiset(),
        ));
    }
    if deck.no_duplicates() {
        assert forall|card: Card| out.contains(card) implies !rem.contains(card) by {
            let i = choose|i: int| 0 <= i < out.len() && out[i] == card;
            if rem.contains(card) {
                let m = choose|m: int| 0 <= m < rem.len() && rem[m] == card;
                assert(deck[m] == card);
                assert(deck[deck.len() - 1 - i] == card);
            }
        }
    }
}

} // verus!
