use vstd::prelude::*;

use vstd::multiset::Multiset;

use crate::cards::{
    lemma_points_bounds, lemma_take_push, points_of, points_total, rank_index, rank_index_of, Card,
    Rank,
};

verus! {

/// A family of card piles, one per rank, in the fixed rank order. It stands
/// both for a player's play area (books under construction) and for the group
/// of melds proposed in one action. An empty pile means no cards at that rank.
#[derive(Debug)]
pub struct RankPiles {
    pub piles: Vec<Vec<Card>>,
}

/// Total number of cards across a sequence of piles.
pub open spec fn piles_cards(s: Seq<Vec<Card>>) -> int
    decreases s.len(),
{
    if s.len() == 0 {
        0
    } else {
        piles_cards(s.drop_last()) + s.last()@.len()
    }
}

/// Total point value across a sequence of piles.
pub open spec fn piles_points(s: Seq<Vec<Card>>) -> int
    decreases s.len(),
{
    if s.len() == 0 {
        0
    } else {
        piles_points(s.drop_last()) + points_of(s.last()@)
    }
}

pub proof fn lemma_piles_cards_push(s: Seq<Vec<Card>>, v: Vec<Card>)
    ensures
        piles_cards(s.push(v)) == piles_cards(s) + v@.len(),
{
    assert(s.push(v).drop_last() =~= s);
}

pub proof fn lemma_piles_cards_update(s: Seq<Vec<Card>>, i: int, v: Vec<Card>)
    requires
        0 <= i < s.len(),
    ensures
        piles_cards(s.update(i, v)) == piles_cards(s) - s[i]@.len() + v@.len(),
    decreases s.len(),
{
    let t = s.update(i, v);
    if i == s.len() - 1 {
        assert(t.drop_last() =~= s.drop_last());
    } else {
        assert(t.drop_last() =~= s.drop_last().update(i, v));
        assert(t.last() == s.last());
        lemma_piles_cards_update(s.drop_last(), i, v);
    }
}

pub proof fn lemma_piles_points_push(s: Seq<Vec<Card>>, v: Vec<Card>)
    ensures
        piles_points(s.push(v)) == piles_points(s) + points_of(v@),
{
    assert(s.push(v).drop_last() =~= s);
}

pub proof fn lemma_piles_cards_nonneg(s: Seq<Vec<Card>>)
    ensures
        piles_cards(s) >= 0,
    decreases s.len(),
{
    if s.len() > 0 {
        lemma_piles_cards_nonneg(s.drop_last());
    }
}

impl RankPiles {
    /// There is exactly one pile per rank.
    pub open spec fn wf_shape(self) -> bool {
        self.piles@.len() == 13
    }

    /// The cards at pile `i` of the rank order.
    pub open spec fn at_idx(self, i: int) -> Seq<Card> {
        self.piles@[i]@
    }

    /// The cards committed toward the book of `r`.
    pub open spec fn at(self, r: Rank) -> Seq<Card> {
        self.at_idx(rank_index(r))
    }

    /// Total number of cards across all piles.
    pub open spec fn total_cards(self) -> int {
        piles_cards(self.piles@)
    }

    /// Total point value across all piles.
    pub open spec fn total_points(self) -> int {
        piles_points(self.piles@)
    }


    /// The cards of each pile, in rank order, as plain sequences.
    pub open spec fn views(self) -> Seq<Seq<Card>> {
        Seq::new(13, |i: int| self.piles@[i]@)
    }

    /// No pile holds any card.
    pub open spec fn all_empty(self) -> bool {
        forall|i: int| 0 <= i < 13 ==> #[trigger] self.at_idx(i).len() == 0
    }

    /// Piles with the very same cards, rank by rank.
    pub open spec fn same_piles(self, other: RankPiles) -> bool {
        self.wf_shape() && other.wf_shape() && forall|i: int|
            0 <= i < 13 ==> #[trigger] self.at_idx(i) == other.at_idx(i)
    }

    /// One empty pile per rank.
    pub fn new() -> (r: RankPiles)
        ensures
            r.wf_shape(),
            r.all_empty(),
            r.total_cards() == 0,
    {
        let mut piles: Vec<Vec<Card>> = Vec::new();
        let mut i: usize = 0;
        while i < 13
            invariant
                i <= 13,
                piles@.len() == i,
                forall|j: int| 0 <= j < i ==> #[trigger] piles@[j]@.len() == 0,
                piles_cards(piles@) == 0,
            decreases 13 - i,
        {
            let empty: Vec<Card> = Vec::new();
            proof {
                lemma_piles_cards_push(piles@, empty);
            }
            piles.push(empty);
            i = i + 1;
        }
        RankPiles { piles }
    }

    /// A fresh family of piles holding the very same cards.
    pub fn duplicate(&self) -> (r: RankPiles)
        requires
            self.wf_shape(),
        ensures
            r.same_piles(*self),
    {
        let mut piles: Vec<Vec<Card>> = Vec::new();
        let mut i: usize = 0;
        while i < 13
            invariant
                i <= 13,
                self.wf_shape(),
                piles@.len() == i,
                forall|j: int| 0 <= j < i ==> #[trigger] piles@[j]@ == self.at_idx(j),
            decreases 13 - i,
        {
            let pile = copy_cards(&self.piles[i]);
            piles.push(pile);
            i = i + 1;
        }
        RankPiles { piles }
    }

    pub fn len_at(&self, r: Rank) -> (n: usize)
        requires
            self.wf_shape(),
        ensures
            n == self.at(r).len(),
    {
        let i = rank_index_of(r);
        self.piles[i].len()
    }

    /// Borrow the pile of rank `r`.
    pub fn pile_at(&self, r: Rank) -> (p: &Vec<Card>)
        requires
            self.wf_shape(),
        ensures
            p@ == self.at(r),
    {
        let i = rank_index_of(r);
        &self.piles[i]
    }

    /// Borrow the pile at position `i` of the rank order.
    pub fn pile_at_index(&self, i: usize) -> (p: &Vec<Card>)
        requires
            self.wf_shape(),
            i < 13,
        ensures
            p@ == self.at_idx(i as int),
    {
        &self.piles[i]
    }

    /// Append one card to the pile of rank `r`.
    pub fn push_at(&mut self, r: Rank, c: Card)
        requires
            old(self).wf_shape(),
        ensures
            final(self).wf_shape(),
            final(self).at(r) == old(self).at(r).push(c),
            forall|i: int|
                0 <= i < 13 && i != rank_index(r) ==> #[trigger] final(self).at_idx(i) == old(
                    self,
                ).at_idx(i),
            final(self).total_cards() == old(self).total_cards() + 1,
    {
        let i = rank_index_of(r);
        let ghost before = self.piles@;
        let pile = vstd::std_specs::vec::vec_index_mut(&mut self.piles, i);
        pile.push(c);
        proof {
            lemma_piles_cards_update(before, i as int, self.piles@[i as int]);
        }
    }

    /// Append a whole group of cards to the pile of rank `r`.
    pub fn extend_at(&mut self, r: Rank, cards: &Vec<Card>)
        requires
            old(self).wf_shape(),
        ensures
            final(self).wf_shape(),
            final(self).at(r) == old(self).at(r) + cards@,
            forall|i: int|
                0 <= i < 13 && i != rank_index(r) ==> #[trigger] final(self).at_idx(i) == old(
                    self,
                ).at_idx(i),
            final(self).total_cards() == old(self).total_cards() + cards@.len(),
    {
        let mut k: usize = 0;
        proof {
            assert(old(self).at(r) + cards@.take(0) =~= old(self).at(r));
        }
        while k < cards.len()
            invariant
                k <= cards@.len(),
                self.wf_shape(),
                self.at(r) == old(self).at(r) + cards@.take(k as int),
                forall|i: int|
                    0 <= i < 13 && i != rank_index(r) ==> #[trigger] self.at_idx(i) == old(
                        self,
                    ).at_idx(i),
                self.total_cards() == old(self).total_cards() + k,
            decreases cards@.len() - k,
        {
            self.push_at(r, cards[k]);
            proof {
                lemma_take_push(cards@, k as int);
                assert(old(self).at(r) + cards@.take(k + 1) =~= (old(self).at(r) + cards@.take(
                    k as int,
                )).push(cards@[k as int]));
            }
            k = k + 1;
        }
        proof {
            assert(cards@.take(cards@.len() as int) =~= cards@);
        }
    }

    /// Remove and return the pile of rank `r`, leaving it empty.
    pub fn take_at(&mut self, r: Rank) -> (taken: Vec<Card>)
        requires
            old(self).wf_shape(),
        ensures
            final(self).wf_shape(),
            taken@ == old(self).at(r),
            final(self).at(r).len() == 0,
            forall|i: int|
                0 <= i < 13 && i != rank_index(r) ==> #[trigger] final(self).at_idx(i) == old(
                    self,
                ).at_idx(i),
            final(self).total_cards() == old(self).total_cards() - old(self).at(r).len(),
    {
        let i = rank_index_of(r);
        let ghost before = self.piles@;
        let mut taken: Vec<Card> = Vec::new();
        let pile = vstd::std_specs::vec::vec_index_mut(&mut self.piles, i);
        core::mem::swap(pile, &mut taken);
        proof {
            lemma_piles_cards_update(before, i as int, self.piles@[i as int]);
        }
        taken
    }

    /// Whether every pile is empty.
    pub fn is_all_empty(&self) -> (b: bool)
        requires
            self.wf_shape(),
        ensures
            b == self.all_empty(),
    {
        let mut i: usize = 0;
        while i < 13
            invariant
                i <= 13,
                self.wf_shape(),
                forall|j: int| 0 <= j < i ==> #[trigger] self.at_idx(j).len() == 0,
            decreases 13 - i,
        {
            if self.piles[i].len() > 0 {
                proof {
                    assert(self.at_idx(i as int).len() > 0);
                }
                return false;
            }
            i = i + 1;
        }
        true
    }

    /// Total point value across all piles, computed wide enough that it
    /// cannot overflow.
    pub fn points_across(&self) -> (n: u128)
        requires
            self.wf_shape(),
        ensures
            n == self.total_points(),
    {
        let mut n: u128 = 0;
        let mut i: usize = 0;
        proof {
            assert(self.piles@.take(0) =~= Seq::<Vec<Card>>::empty());
        }
        while i < 13
            invariant
                i <= 13,
                self.wf_shape(),
                n == piles_points(self.piles@.take(i as int)),
                n as int <= i as int * 2000000000000000000000,
            decreases 13 - i,
        {
            let p = points_total(&self.piles[i]);
            let l = self.piles[i].len();
            proof {
                assert(self.piles@.take(i + 1) =~= self.piles@.take(i as int).push(
                    self.piles@[i as int],
                ));
                lemma_piles_points_push(self.piles@.take(i as int), self.piles@[i as int]);
                lemma_points_bounds(self.piles@[i as int]@);
                assert(p as int <= 100 * l as int);
                assert(p as int <= 2000000000000000000000);
            }
            n = n + p;
            i = i + 1;
        }
        proof {
            assert(self.piles@.take(13) =~= self.piles@);
        }
        n
    }
}

/// A fresh vector holding the very same cards.
pub fn copy_cards(v: &Vec<Card>) -> (r: Vec<Card>)
    ensures
        r@ == v@,
{
    let mut r: Vec<Card> = Vec::new();
    let mut i: usize = 0;
    while i < v.len()
        invariant
            i <= v@.len(),
            r@ == v@.take(i as int),
        decreases v@.len() - i,
    {
        r.push(v[i]);
        proof {
            lemma_take_push(v@, i as int);
        }
        i = i + 1;
    }
    proof {
        assert(v@.take(v@.len() as int) =~= v@);
    }
    r
}

/// Total point value across a sequence of card sequences.
pub open spec fn seqs_points(s: Seq<Seq<Card>>) -> int
    decreases s.len(),
{
    if s.len() == 0 {
        0
    } else {
        seqs_points(s.drop_last()) + points_of(s.last())
    }
}

/// `piles_points` and `seqs_points` agree on piles with the same cards.
pub proof fn lemma_piles_points_views(s: Seq<Vec<Card>>, t: Seq<Seq<Card>>)
    requires
        s.len() == t.len(),
        forall|j: int| 0 <= j < s.len() ==> #[trigger] t[j] == s[j]@,
    ensures
        piles_points(s) == seqs_points(t),
    decreases s.len(),
{
    if s.len() > 0 {
        assert(forall|j: int|
            0 <= j < s.drop_last().len() ==> #[trigger] t.drop_last()[j] == s.drop_last()[j]@);
        lemma_piles_points_views(s.drop_last(), t.drop_last());
        assert(t.last() == s.last()@);
    }
}

/// Append every card of `src` on top of `dst`, in order.
pub fn push_all(dst: &mut Vec<Card>, src: &Vec<Card>)
    ensures
        final(dst)@ == old(dst)@ + src@,
{
    let ghost orig = old(dst)@;
    let mut i: usize = 0;
    proof {
        assert(orig + src@.take(0) =~= orig);
    }
    while i < src.len()
        invariant
            orig == old(dst)@,
            i <= src@.len(),
            dst@ == orig + src@.take(i as int),
        decreases src@.len() - i,
    {
        dst.push(src[i]);
        proof {
            lemma_take_push(src@, i as int);
            assert(orig + src@.take(i + 1) =~= (orig + src@.take(i as int)).push(src@[i as int]));
        }
        i = i + 1;
    }
    proof {
        assert(src@.take(src@.len() as int) =~= src@);
    }
}


/// Multiset of all cards across a sequence of card sequences.
pub open spec fn seqs_ms(s: Seq<Seq<Card>>) -> Multiset<Card>
    decreases s.len(),
{
    if s.len() == 0 {
        Multiset::empty()
    } else {
        seqs_ms(s.drop_last()).add(s.last().to_multiset())
    }
}

pub proof fn lemma_seqs_ms_push(s: Seq<Seq<Card>>, v: Seq<Card>)
    ensures
        seqs_ms(s.push(v)) == seqs_ms(s).add(v.to_multiset()),
{
    assert(s.push(v).drop_last() =~= s);
}

/// One group's cards are among the cards of all groups together.
pub proof fn lemma_seqs_ms_le(s: Seq<Seq<Card>>, i: int)
    requires
        0 <= i < s.len(),
    ensures
        s[i].to_multiset().subset_of(seqs_ms(s)),
    decreases s.len(),
{
    broadcast use vstd::multiset::group_multiset_axioms;

    if i == s.len() - 1 {
    } else {
        lemma_seqs_ms_le(s.drop_last(), i);
    }
}

pub proof fn lemma_seqs_ms_update(s: Seq<Seq<Card>>, i: int, v: Seq<Card>)
    requires
        0 <= i < s.len(),
    ensures
        seqs_ms(s.update(i, v)) == seqs_ms(s).sub(s[i].to_multiset()).add(v.to_multiset()),
    decreases s.len(),
{
    broadcast use vstd::multiset::group_multiset_axioms;

    let t = s.update(i, v);
    if i == s.len() - 1 {
        assert(t.drop_last() =~= s.drop_last());
        lemma_seqs_ms_le(s, i);
        assert(seqs_ms(s.drop_last()).add(v.to_multiset()) =~= seqs_ms(s).sub(
            s[i].to_multiset(),
        ).add(v.to_multiset())) by {
            assert(seqs_ms(s) == seqs_ms(s.drop_last()).add(s.last().to_multiset()));
        }
    } else {
        assert(t.drop_last() =~= s.drop_last().update(i, v));
        assert(t.last() == s.last());
        lemma_seqs_ms_update(s.drop_last(), i, v);
        lemma_seqs_ms_le(s.drop_last(), i);
        assert(seqs_ms(s.drop_last().update(i, v)).add(s.last().to_multiset()) =~= seqs_ms(
            s,
        ).sub(s[i].to_multiset()).add(v.to_multiset())) by {
            assert(seqs_ms(s.drop_last().update(i, v)) == seqs_ms(s.drop_last()).sub(
                s[i].to_multiset(),
            ).add(v.to_multiset()));
            assert(seqs_ms(s) == seqs_ms(s.drop_last()).add(s.last().to_multiset()));
        }
    }
}


} // verus!
