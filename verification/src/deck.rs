use vstd::prelude::*;

use crate::cards::{rank_at_index, rank_index, Card, Rank, Suit};
use vstd::multiset::Multiset;
use rand::seq::SliceRandom;

verus! {

broadcast use vstd::multiset::group_multiset_axioms, vstd::seq_lib::group_to_multiset_ensures;

/// An ordered stack of cards. The last element of the vector is the top:
/// `push` lays a card on top and `take` removes from the top. It serves both
/// as the draw pile and as the discard pile.
#[derive(Debug)]
pub struct Deck(pub Vec<Card>);

impl View for Deck {
    type V = Seq<Card>;

    open spec fn view(&self) -> Seq<Card> {
        self.0@
    }
}

/// How many copies of a card one 54-card deck holds.
pub open spec fn copies_in_deck(c: Card) -> int {
    match c {
        Card::Joker => 2,
        Card::Regular(_, _) => 1,
    }
}

/// How many copies of a card stand in `copy` whole decks plus the regular
/// cards of the first `r` ranks of the next deck.
pub open spec fn built_count(c: Card, copy: int, r: int) -> int {
    copy * copies_in_deck(c) + (match c {
        Card::Regular(rk, _) => if rank_index(rk) < r {
            1int
        } else {
            0int
        },
        Card::Joker => 0int,
    })
}

/// Relies on rand's `SliceRandom::shuffle`: it permutes the slice in place by
/// swapping elements, so exactly the cards that went in come out, in some
/// order.
#[verifier::external_body]
fn shuffle_cards(cards: &mut Vec<Card>)
    ensures
        final(cards)@.len() == old(cards)@.len(),
        final(cards)@.to_multiset() == old(cards)@.to_multiset(),
{
    cards.shuffle(&mut rand::thread_rng());
}

impl Deck {
    /// A deck with no cards.
    pub fn empty() -> (d: Deck)
        ensures
            d@.len() == 0,
    {
        Deck(Vec::new())
    }

    /// Build (numPlayers + 1) full 54-card decks — 13 ranks by 4 suits plus
    /// two Jokers each — and shuffle them into one draw pile.
    pub fn deal(num_players: usize) -> (d: Deck)
        requires
            54 * (num_players as int + 1) <= usize::MAX as int,
        ensures
            d@.len() == 54 * (num_players as int + 1),
            forall|c: Card|
                #[trigger] d@.to_multiset().count(c) == (num_players as int + 1) * copies_in_deck(
                    c,
                ),
    {
        let mut cards: Vec<Card> = Vec::new();
        let mut copy: usize = 0;
        proof {
            assert(cards@ =~= Seq::<Card>::empty());
            assert(forall|c: Card| #[trigger] cards@.to_multiset().count(c) == 0) by {
                assert(cards@.to_multiset() =~= Multiset::<Card>::empty());
            }
        }
        while copy < num_players + 1
            invariant
                copy <= num_players + 1,
                54 * (num_players as int + 1) <= usize::MAX as int,
                cards@.len() == 54 * copy as int,
                forall|c: Card|
                    #[trigger] cards@.to_multiset().count(c) == copy as int * copies_in_deck(c),
            decreases num_players + 1 - copy,
        {
            let mut r: usize = 0;
            while r < 13
                invariant
                    r <= 13,
                    cards@.len() == 54 * copy as int + 4 * r as int,
                    54 * (num_players as int + 1) <= usize::MAX as int,
                    copy < num_players + 1,
                    forall|c: Card|
                        #[trigger] cards@.to_multiset().count(c) == built_count(
                            c,
                            copy as int,
                            r as int,
                        ),
                decreases 13 - r,
            {
                let ghost pre = cards@;
                let rank = rank_at_index(r);
                cards.push(Card::Regular(rank, Suit::Diamond));
                cards.push(Card::Regular(rank, Suit::Club));
                cards.push(Card::Regular(rank, Suit::Heart));
                cards.push(Card::Regular(rank, Suit::Spade));
                proof {
                    let ghost a = Card::Regular(rank, Suit::Diamond);
                    let ghost b = Card::Regular(rank, Suit::Club);
                    let ghost h = Card::Regular(rank, Suit::Heart);
                    let ghost d = Card::Regular(rank, Suit::Spade);
                    assert(cards@ == pre.push(a).push(b).push(h).push(d));
                    assert(pre.push(a).to_multiset() =~= pre.to_multiset().insert(a));
                    assert(pre.push(a).push(b).to_multiset() =~= pre.push(
                        a,
                    ).to_multiset().insert(b));
                    assert(pre.push(a).push(b).push(h).to_multiset() =~= pre.push(a).push(
                        b,
                    ).to_multiset().insert(h));
                    assert(cards@.to_multiset() =~= pre.push(a).push(b).push(
                        h,
                    ).to_multiset().insert(d));
                    assert forall|c: Card|
                        #[trigger] cards@.to_multiset().count(c) == built_count(
                            c,
                            copy as int,
                            r as int + 1,
                        ) by {
                        assert(pre.to_multiset().count(c) == built_count(c, copy as int, r as int));
                        match c {
                            Card::Joker => {},
                            Card::Regular(rk, _) => {
                                if rk == rank {
                                    assert(rank_index(rk) == r as int);
                                } else {
                                    assert(rank_index(rk) != r as int);
                                }
                            },
                        }
                    }
                }
                r = r + 1;
            }
            let ghost pre = cards@;
            cards.push(Card::Joker);
            cards.push(Card::Joker);
            proof {
                assert(cards@ == pre.push(Card::Joker).push(Card::Joker));
                assert(pre.push(Card::Joker).to_multiset() =~= pre.to_multiset().insert(
                    Card::Joker,
                ));
                assert(cards@.to_multiset() =~= pre.push(Card::Joker).to_multiset().insert(
                    Card::Joker,
                ));
                assert forall|c: Card|
                    #[trigger] cards@.to_multiset().count(c) == (copy as int + 1)
                        * copies_in_deck(c) by {
                    assert(pre.to_multiset().count(c) == built_count(c, copy as int, 13));
                    match c {
                        Card::Joker => {},
                        Card::Regular(rk, _) => {
                            assert(rank_index(rk) < 13);
                        },
                    }
                }
            }
            copy = copy + 1;
        }
        shuffle_cards(&mut cards);
        Deck(cards)
    }

    /// Remove and return the top `num` cards, newest first; `None`, and no
    /// change, when fewer than `num` remain.
    pub fn take(&mut self, num: usize) -> (r: Option<Vec<Card>>)
        ensures
            match r {
                Some(cards) => {
                    &&& old(self)@.len() >= num
                    &&& cards@.len() == num
                    &&& final(self)@ == old(self)@.take(old(self)@.len() - num)
                    &&& cards@ == old(self)@.subrange(
                        old(self)@.len() - num,
                        old(self)@.len() as int,
                    ).reverse()
                },
                None => old(self)@.len() < num && final(self)@ == old(self)@,
            },
    {
        if self.0.len() < num {
            return None;
        }
        let ghost orig = self.0@;
        let mut cards: Vec<Card> = Vec::new();
        let mut k: usize = 0;
        while k < num
            invariant
                k <= num,
                num <= orig.len(),
                self.0@ == orig.take(orig.len() - k),
                cards@.len() == k,
                forall|j: int| 0 <= j < k ==> #[trigger] cards@[j] == orig[orig.len() - 1 - j],
            decreases num - k,
        {
            proof {
                assert(self.0@.len() == orig.len() - k);
                assert(self.0@.last() == orig[orig.len() - k - 1]);
                assert(self.0@.drop_last() =~= orig.take(orig.len() - (k + 1)));
            }
            let c = match self.0.pop() {
                Some(c) => c,
                None => vstd::pervasive::unreached(),
            };
            cards.push(c);
            k = k + 1;
        }
        proof {
            let suffix = orig.subrange(orig.len() - num, orig.len() as int);
            assert(cards@ =~= suffix.reverse());
        }
        Some(cards)
    }

    /// Number of cards in the deck.
    pub fn len(&self) -> (n: usize)
        ensures
            n == self@.len(),
    {
        self.0.len()
    }

    /// Lay one card on top of the deck.
    pub fn push(&mut self, card: Card)
        ensures
            final(self)@ == old(self)@.push(card),
    {
        self.0.push(card)
    }
}

} // verus!
