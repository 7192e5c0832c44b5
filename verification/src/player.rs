use vstd::prelude::*;

use crate::cards::{
    all_match_rank, lemma_take_push, lemma_wilds_concat, meld_threshold, rank_at_index,
    rank_index, rank_of_index, wilds_in, Card, Rank, Round,
};
use crate::pile::{
    copy_cards, lemma_piles_cards_push, lemma_seqs_ms_push, piles_cards, seqs_ms, seqs_points,
    RankPiles,
};
use vstd::multiset::Multiset;

verus! {

broadcast use vstd::multiset::group_multiset_axioms, vstd::seq_lib::group_to_multiset_ensures;

/// Why a player action was rejected. Every variant is recoverable: the caller
/// may simply try a different action.
#[derive(Copy, Clone, PartialEq, Eq, Structural, Debug)]
pub enum TurnError {
    NotAllCardsMatchRank,
    MustKeepOneCardInHand,
    NotAllCardsInHand,
    TooManyCardsInBook,
    TooFewCardsInBook,
    TooManyWildsInBook,
    NotEnoughMeld,
    CanOnlyPickupBookable,
    NotEnoughCards,
    DeckIsLockedNeedTwoInHand,
}

/// Counts of a prefix of a sequence never exceed those of the whole.
pub proof fn lemma_take_ms_le(s: Seq<Card>, k: int)
    requires
        0 <= k <= s.len(),
    ensures
        forall|c: Card|
            #[trigger] s.take(k).to_multiset().count(c) <= s.to_multiset().count(c),
{
    assert(s =~= s.take(k) + s.skip(k));
    vstd::seq_lib::lemma_multiset_commutative(s.take(k), s.skip(k));
}

/// Removing one occurrence of `c` from `a.sub(p)` is subtracting `p.insert(c)`.
pub proof fn lemma_sub_insert(a: Multiset<Card>, p: Multiset<Card>, c: Card)
    requires
        p.subset_of(a),
        a.sub(p).count(c) > 0,
    ensures
        a.sub(p).remove(c) =~= a.sub(p.insert(c)),
        p.insert(c).subset_of(a),
{
}

/// Subtracting twice is subtracting the sum.
pub proof fn lemma_sub_sub(a: Multiset<Card>, b: Multiset<Card>, c: Multiset<Card>)
    ensures
        a.sub(b).sub(c) =~= a.sub(b.add(c)),
{
}

/// Taking cards out of `h` commutes with the cards of `f` standing beside it.
pub proof fn lemma_sub_add_commute(h: Multiset<Card>, f: Multiset<Card>, c: Multiset<Card>)
    requires
        c.subset_of(h),
    ensures
        h.add(f).sub(c) =~= h.sub(c).add(f),
{
}

/// First position of `c` in `v`, if any.
pub fn find_card(v: &Vec<Card>, c: Card) -> (r: Option<usize>)
    ensures
        match r {
            Some(i) => i < v@.len() && v@[i as int] == c,
            None => forall|j: int| 0 <= j < v@.len() ==> v@[j] != c,
        },
{
    let mut i: usize = 0;
    while i < v.len()
        invariant
            i <= v@.len(),
            forall|j: int| 0 <= j < i ==> v@[j] != c,
        decreases v@.len() - i,
    {
        if v[i] == c {
            return Some(i);
        }
        i = i + 1;
    }
    None
}

/// Consume one occurrence from `hand` for each card of `cards`, in order.
/// Succeeds exactly when `cards` is contained in `hand` as a multiset; on
/// success the hand has lost exactly those cards.
fn try_remove_cards(hand: &mut Vec<Card>, cards: &Vec<Card>) -> (ok: bool)
    ensures
        ok == cards@.to_multiset().subset_of(old(hand)@.to_multiset()),
        ok ==> final(hand)@.to_multiset() == old(hand)@.to_multiset().sub(
            cards@.to_multiset(),
        ) && final(hand)@.len() == old(hand)@.len() - cards@.len(),
{
    let ghost orig = old(hand)@;
    let mut i: usize = 0;
    proof {
        assert(cards@.take(0) =~= Seq::<Card>::empty());
        assert(orig.to_multiset().sub(Seq::<Card>::empty().to_multiset()) =~= orig.to_multiset());
    }
    while i < cards.len()
        invariant
            orig == old(hand)@,
            i <= cards@.len(),
            cards@.take(i as int).to_multiset().subset_of(orig.to_multiset()),
            hand@.to_multiset() == orig.to_multiset().sub(cards@.take(i as int).to_multiset()),
            hand@.len() == orig.len() - i,
        decreases cards@.len() - i,
    {
        let c = cards[i];
        let ghost processed = cards@.take(i as int).to_multiset();
        proof {
            lemma_take_push(cards@, i as int);
            assert(cards@.take(i + 1).to_multiset() =~= processed.insert(c));
        }
        match find_card(hand, c) {
            Some(pos) => {
                proof {
                    assert(hand@.to_multiset().count(c) > 0);
                    lemma_sub_insert(orig.to_multiset(), processed, c);
                }
                hand.remove(pos);
            },
            None => {
                proof {
                    assert(!hand@.contains(c));
                    assert(hand@.to_multiset().count(c) == 0);
                    assert(orig.to_multiset().sub(processed).count(c) == 0);
                    assert(orig.to_multiset().count(c) <= processed.count(c));
                    lemma_take_ms_le(cards@, i + 1);
                    assert(cards@.to_multiset().count(c) >= cards@.take(i + 1).to_multiset().count(
                        c,
                    ));
                    assert(cards@.take(i + 1).to_multiset().count(c) == processed.count(c) + 1);
                    assert(!cards@.to_multiset().subset_of(orig.to_multiset())) by {
                        assert(cards@.to_multiset().count(c) > orig.to_multiset().count(c));
                    }
                }
                return false;
            },
        }
        i = i + 1;
    }
    proof {
        assert(cards@.take(cards@.len() as int) =~= cards@);
    }
    true
}

/// Any of the piles holds a card.
pub open spec fn views_melded(area: Seq<Seq<Card>>) -> bool {
    exists|i: int| 0 <= i < area.len() && #[trigger] area[i].len() > 0
}

/// The rules of playing `cards` toward a book: judged against the pile so
/// far, the cards of the hand, and the book's rank, in their fixed order;
/// the result is the first rule violated, if any.
pub open spec fn group_verdict(
    pile: Seq<Card>,
    hand_ms: Multiset<Card>,
    rank: Rank,
    cards: Seq<Card>,
) -> Result<(), TurnError> {
    let merged = pile + cards;
    if !all_match_rank(cards, rank) {
        Err(TurnError::NotAllCardsMatchRank)
    } else if !cards.to_multiset().subset_of(hand_ms) {
        Err(TurnError::NotAllCardsInHand)
    } else if merged.len() > 7 {
        Err(TurnError::TooManyCardsInBook)
    } else if merged.len() < 3 {
        Err(TurnError::TooFewCardsInBook)
    } else if 2 * wilds_in(merged) >= merged.len() {
        Err(TurnError::TooManyWildsInBook)
    } else {
        Ok(())
    }
}

/// The first group among the first `n` ranks, in rank order, that fails the
/// per-rank rules; empty groups propose nothing and are skipped.
pub open spec fn groups_verdict_upto(
    area: Seq<Seq<Card>>,
    hand_ms: Multiset<Card>,
    gviews: Seq<Seq<Card>>,
    n: int,
) -> Result<(), TurnError>
    decreases n,
{
    if n <= 0 {
        Ok(())
    } else {
        match groups_verdict_upto(area, hand_ms, gviews, n - 1) {
            Err(e) => Err(e),
            Ok(()) => if gviews[n - 1].len() > 0 {
                group_verdict(area[n - 1], hand_ms, rank_of_index(n - 1), gviews[n - 1])
            } else {
                Ok(())
            },
        }
    }
}

pub proof fn lemma_groups_verdict_stays(
    area: Seq<Seq<Card>>,
    hand_ms: Multiset<Card>,
    gviews: Seq<Seq<Card>>,
    k: int,
    n: int,
)
    requires
        0 <= k <= n,
        groups_verdict_upto(area, hand_ms, gviews, k) is Err,
    ensures
        groups_verdict_upto(area, hand_ms, gviews, n) == groups_verdict_upto(
            area,
            hand_ms,
            gviews,
            k,
        ),
    decreases n - k,
{
    if n > k {
        lemma_groups_verdict_stays(area, hand_ms, gviews, k, n - 1);
    }
}

/// The whole meld action judged against a play area, the cards of a hand,
/// and the proposed groups: the first-meld point threshold, then every group
/// against the per-rank rules.
pub open spec fn meld_verdict(
    area: Seq<Seq<Card>>,
    hand_ms: Multiset<Card>,
    round: Round,
    gviews: Seq<Seq<Card>>,
) -> Result<(), TurnError> {
    if !views_melded(area) && seqs_points(gviews) < meld_threshold(round) {
        Err(TurnError::NotEnoughMeld)
    } else {
        groups_verdict_upto(area, hand_ms, gviews, 13)
    }
}

/// The views of each pile in a vector of piles.
pub open spec fn vec_views(s: Seq<Vec<Card>>) -> Seq<Seq<Card>> {
    s.map_values(|v: Vec<Card>| v@)
}

/// View-level count of clean books (see `is_clean_book`).
pub open spec fn clean_count_v(s: Seq<Seq<Card>>) -> int
    decreases s.len(),
{
    if s.len() == 0 {
        0
    } else {
        clean_count_v(s.drop_last()) + if is_clean_book(s.last()) {
            1int
        } else {
            0int
        }
    }
}

/// View-level count of dirty books (see `is_dirty_book`).
pub open spec fn dirty_count_v(s: Seq<Seq<Card>>) -> int
    decreases s.len(),
{
    if s.len() == 0 {
        0
    } else {
        dirty_count_v(s.drop_last()) + if is_dirty_book(s.last()) {
            1int
        } else {
            0int
        }
    }
}

/// The book counts agree between a vector of books and its views.
pub proof fn lemma_counts_views(s: Seq<Vec<Card>>)
    ensures
        clean_count_v(vec_views(s)) == clean_count(s),
        dirty_count_v(vec_views(s)) == dirty_count(s),
    decreases s.len(),
{
    if s.len() > 0 {
        assert(vec_views(s).drop_last() =~= vec_views(s.drop_last()));
        assert(vec_views(s).last() == s.last()@);
        lemma_counts_views(s.drop_last());
    } else {
        assert(vec_views(s) =~= Seq::<Seq<Card>>::empty());
    }
}

/// The abstract table a meld action works on: the hand as a multiset of
/// cards, the foot, and the cards of the play-area piles and the completed
/// books.
pub struct Table {
    pub hand: Multiset<Card>,
    pub foot: Option<Seq<Card>>,
    pub area: Seq<Seq<Card>>,
    pub books: Seq<Seq<Card>>,
}

/// The keep-one-card gate, judged on a table (see `play_rank_gate`).
pub open spec fn table_gate(t: Table, cards: Seq<Card>) -> bool {
    &&& t.foot is None
    &&& t.hand.len() - cards.len() <= 1
    &&& !(clean_count_v(t.books) >= 1 && dirty_count_v(t.books) >= 1)
}

/// The table after one group is committed: the cards leave the hand (an
/// emptied hand takes up the foot) and join the pile at rank position `i`,
/// which becomes a completed book on reaching 7 cards.
pub open spec fn table_commit(t: Table, i: int, cards: Seq<Card>) -> Table {
    let hand1 = t.hand.sub(cards.to_multiset());
    let hand2 = if hand1.len() == 0 {
        match t.foot {
            Some(f) => f.to_multiset(),
            None => hand1,
        }
    } else {
        hand1
    };
    let foot2 = if hand1.len() == 0 {
        None
    } else {
        t.foot
    };
    let merged = t.area[i] + cards;
    if merged.len() == 7 {
        Table {
            hand: hand2,
            foot: foot2,
            area: t.area.update(i, Seq::<Card>::empty()),
            books: t.books.push(merged),
        }
    } else {
        Table { hand: hand2, foot: foot2, area: t.area.update(i, merged), books: t.books }
    }
}

/// The outcome of `play_rank` for one group, judged on a table: first the
/// per-rank rules, then the keep-one-card rule, and the cards move.
pub open spec fn table_play_rank(t: Table, i: int, cards: Seq<Card>) -> Result<
    Table,
    TurnError,
> {
    match group_verdict(t.area[i], t.hand, rank_of_index(i), cards) {
        Err(e) => Err(e),
        Ok(()) => if table_gate(t, cards) {
            Err(TurnError::MustKeepOneCardInHand)
        } else {
            Ok(table_commit(t, i, cards))
        },
    }
}

/// The whole commit sequence of `play`: the non-empty groups among the
/// first `n` ranks, in rank order, each judged against the table the
/// earlier groups left, stopping at the first refusal. Yields the table
/// reached and the verdict.
pub open spec fn table_play(t: Table, gviews: Seq<Seq<Card>>, n: int) -> (Table, Result<
    (),
    TurnError,
>)
    decreases n,
{
    if n <= 0 {
        (t, Ok(()))
    } else {
        let prior = table_play(t, gviews, n - 1);
        match prior.1 {
            Err(_) => prior,
            Ok(()) => if gviews[n - 1].len() > 0 {
                match table_play_rank(prior.0, n - 1, gviews[n - 1]) {
                    Err(e) => (prior.0, Err(e)),
                    Ok(t2) => (t2, Ok(())),
                }
            } else {
                prior
            },
        }
    }
}

pub proof fn lemma_table_play_stays(t: Table, gviews: Seq<Seq<Card>>, k: int, n: int)
    requires
        0 <= k <= n,
        table_play(t, gviews, k).1 is Err,
    ensures
        table_play(t, gviews, n) == table_play(t, gviews, k),
    decreases n - k,
{
    if n > k {
        lemma_table_play_stays(t, gviews, k, n - 1);
    }
}

/// The per-rank rules and gate judge a player and that player's table
/// alike.
pub proof fn lemma_play_rank_table(p: PlayerCards, i: int, cards: Seq<Card>)
    requires
        0 <= i < 13,
        p.play_area.wf_shape(),
    ensures
        (p.spec_play_rank(rank_of_index(i), cards) is Ok) == (table_play_rank(
            p.table(),
            i,
            cards,
        ) is Ok),
        p.spec_play_rank(rank_of_index(i), cards) matches Err(e) ==> table_play_rank(
            p.table(),
            i,
            cards,
        ) == Err::<Table, TurnError>(e),
{
    let rank = rank_of_index(i);
    assert(rank_index(rank) == i);
    assert(p.table().area[i] == p.play_area.at(rank));
    lemma_counts_views(p.books@);
    assert(p.table().hand.len() == p.hand@.len());
    assert(table_gate(p.table(), cards) == p.play_rank_gate(cards));
}


/// After a successful `play_rank`, the player's table is exactly the
/// model's commit of the group.
proof fn lemma_commit_matches(pre: PlayerCards, post: PlayerCards, rank: Rank, cards: Seq<Card>)
    requires
        pre.wf(),
        pre.spec_play_rank(rank, cards) is Ok,
        ({
            let merged = pre.play_area.at(rank) + cards;
            &&& post.play_area.wf_shape()
            &&& (if pre.hand@.len() == cards.len() && pre.foot is Some {
                post.hand@ == pre.foot_cards() && post.foot is None
            } else {
                &&& post.hand@.to_multiset() == pre.hand@.to_multiset().sub(cards.to_multiset())
                &&& post.hand@.len() == pre.hand@.len() - cards.len()
                &&& post.foot == pre.foot
            })
            &&& (if merged.len() == 7 {
                &&& post.play_area.at(rank).len() == 0
                &&& post.books@.len() == pre.books@.len() + 1
                &&& post.books@[pre.books@.len() as int]@ == merged
                &&& (forall|j: int|
                    0 <= j < pre.books@.len() ==> post.books@[j] == pre.books@[j])
            } else {
                &&& post.play_area.at(rank) == merged
                &&& post.books@ == pre.books@
            })
            &&& (forall|i: int|
                0 <= i < 13 && i != rank_index(rank) ==> post.play_area.at_idx(i)
                    == pre.play_area.at_idx(i))
        }),
    ensures
        post.table() == table_commit(pre.table(), rank_index(rank), cards),
{
    broadcast use vstd::multiset::group_multiset_axioms, vstd::seq_lib::group_to_multiset_ensures;

    let i = rank_index(rank);
    let t = pre.table();
    let c = table_commit(t, i, cards);
    let merged = pre.play_area.at(rank) + cards;
    let hand1 = t.hand.sub(cards.to_multiset());
    assert(cards.to_multiset().subset_of(t.hand));
    assert(hand1.len() == pre.hand@.len() - cards.len());
    if pre.hand@.len() == cards.len() {
        assert(hand1.len() == 0);
        assert(post.table().hand == c.hand);
        assert(post.table().foot == c.foot);
    } else {
        assert(hand1.len() != 0);
        assert(post.table().hand == c.hand);
        assert(post.table().foot == c.foot);
    }
    assert(t.area[i] == pre.play_area.at(rank));
    if merged.len() == 7 {
        assert(post.table().area =~= c.area) by {
            assert forall|j: int| 0 <= j < 13 implies post.play_area.views()[j] == c.area[j] by {
                if j == i {
                    assert(post.play_area.at_idx(j).len() == 0);
                    assert(post.play_area.at_idx(j) =~= Seq::<Card>::empty());
                } else {
                    assert(post.play_area.at_idx(j) == pre.play_area.at_idx(j));
                }
            }
        }
        assert(post.table().books =~= c.books) by {
            assert(post.books@.len() == pre.books@.len() + 1);
            assert forall|j: int| 0 <= j < post.books@.len() implies vec_views(post.books@)[j]
                == t.books.push(merged)[j] by {
                if j < pre.books@.len() {
                    assert(post.books@[j] == pre.books@[j]);
                } else {
                    assert(post.books@[j]@ == merged);
                }
            }
        }
    } else {
        assert(post.table().area =~= c.area) by {
            assert forall|j: int| 0 <= j < 13 implies post.play_area.views()[j] == c.area[j] by {
                if j == i {
                    assert(post.play_area.at_idx(j) == merged);
                } else {
                    assert(post.play_area.at_idx(j) == pre.play_area.at_idx(j));
                }
            }
        }
        assert(post.table().books =~= c.books) by {
            assert forall|j: int| 0 <= j < post.books@.len() implies vec_views(post.books@)[j]
                == t.books[j] by {
                assert(post.books@[j] == pre.books@[j]);
            }
        }
    }
    assert(post.table() == c);
}


/// A book in a player's play area at rank position `i`: every card wild or of
/// that rank; empty, or holding 3 to 6 cards with wilds in the strict
/// minority.
pub open spec fn pile_ok(i: int, s: Seq<Card>) -> bool {
    &&& all_match_rank(s, rank_of_index(i))
    &&& (s.len() == 0 || (3 <= s.len() <= 6 && 2 * wilds_in(s) < s.len()))
}

/// A completed book: exactly 7 cards of one rank (plus wilds), wilds in the
/// strict minority.
pub open spec fn book_ok(s: Seq<Card>) -> bool {
    &&& s.len() == 7
    &&& 2 * wilds_in(s) < s.len()
    &&& exists|r: Rank| all_match_rank(s, r)
}

/// A completed book with no wild card, not anchored on Seven.
pub open spec fn is_clean_book(s: Seq<Card>) -> bool {
    wilds_in(s) == 0 && s.len() > 0 && s[0].spec_rank() != Some(Rank::Seven)
}

/// A completed book holding at least one wild card.
pub open spec fn is_dirty_book(s: Seq<Card>) -> bool {
    wilds_in(s) > 0
}

/// A completed book with no wild card, anchored on Seven.
pub open spec fn is_seven_book(s: Seq<Card>) -> bool {
    wilds_in(s) == 0 && s.len() > 0 && s[0].spec_rank() == Some(Rank::Seven)
}

pub open spec fn clean_count(s: Seq<Vec<Card>>) -> int
    decreases s.len(),
{
    if s.len() == 0 {
        0
    } else {
        clean_count(s.drop_last()) + if is_clean_book(s.last()@) {
            1int
        } else {
            0int
        }
    }
}

pub open spec fn dirty_count(s: Seq<Vec<Card>>) -> int
    decreases s.len(),
{
    if s.len() == 0 {
        0
    } else {
        dirty_count(s.drop_last()) + if is_dirty_book(s.last()@) {
            1int
        } else {
            0int
        }
    }
}

pub open spec fn seven_count(s: Seq<Vec<Card>>) -> int
    decreases s.len(),
{
    if s.len() == 0 {
        0
    } else {
        seven_count(s.drop_last()) + if is_seven_book(s.last()@) {
            1int
        } else {
            0int
        }
    }
}

pub proof fn lemma_clean_count_push(s: Seq<Vec<Card>>, v: Vec<Card>)
    ensures
        clean_count(s.push(v)) == clean_count(s) + if is_clean_book(v@) {
            1int
        } else {
            0int
        },
{
    assert(s.push(v).drop_last() =~= s);
}

pub proof fn lemma_dirty_count_push(s: Seq<Vec<Card>>, v: Vec<Card>)
    ensures
        dirty_count(s.push(v)) == dirty_count(s) + if is_dirty_book(v@) {
            1int
        } else {
            0int
        },
{
    assert(s.push(v).drop_last() =~= s);
}

pub proof fn lemma_seven_count_push(s: Seq<Vec<Card>>, v: Vec<Card>)
    ensures
        seven_count(s.push(v)) == seven_count(s) + if is_seven_book(v@) {
            1int
        } else {
            0int
        },
{
    assert(s.push(v).drop_last() =~= s);
}

pub proof fn lemma_piles_take_push(s: Seq<Vec<Card>>, i: int)
    requires
        0 <= i < s.len(),
    ensures
        s.take(i + 1) =~= s.take(i).push(s[i]),
{
}

/// One player's cards: the open hand, the hidden reserve ("foot"), completed
/// books, the bank of red Threes, and the play area of books under
/// construction.
#[derive(Debug)]
pub struct PlayerCards {
    pub hand: Vec<Card>,
    pub foot: Option<Vec<Card>>,
    pub books: Vec<Vec<Card>>,
    pub red_threes: usize,
    pub play_area: RankPiles,
}

impl PlayerCards {
    /// Structural invariant of a player's cards: a well-shaped play area
    /// whose piles and books obey the book rules.
    pub open spec fn wf(self) -> bool {
        &&& self.play_area.wf_shape()
        &&& forall|i: int| 0 <= i < 13 ==> pile_ok(i, #[trigger] self.play_area.at_idx(i))
        &&& forall|j: int| 0 <= j < self.books@.len() ==> book_ok(#[trigger] self.books@[j]@)
    }

    /// The cards of the foot, or nothing once it is consumed.
    pub open spec fn foot_cards(self) -> Seq<Card> {
        match self.foot {
            Some(f) => f@,
            None => Seq::<Card>::empty(),
        }
    }

    /// The foot's cards, if the foot is still waiting.
    pub open spec fn foot_view(self) -> Option<Seq<Card>> {
        match self.foot {
            Some(f) => Some(f@),
            None => None,
        }
    }

    /// This player's cards as an abstract table.
    pub open spec fn table(self) -> Table {
        Table {
            hand: self.hand@.to_multiset(),
            foot: self.foot_view(),
            area: self.play_area.views(),
            books: vec_views(self.books@),
        }
    }

    /// Number of cards a player accounts for, the banked red Threes included.
    pub open spec fn zone_cards(self) -> int {
        self.hand@.len() + self.foot_cards().len() + piles_cards(self.books@)
            + self.play_area.total_cards() + self.red_threes
    }

    /// The cards a player still holds: hand and foot together.
    pub open spec fn held_ms(self) -> Multiset<Card> {
        self.hand@.to_multiset().add(self.foot_cards().to_multiset())
    }

    /// Whether the player has committed any card to the play area.
    pub open spec fn spec_has_melded(self) -> bool {
        views_melded(self.play_area.views())
    }

    /// The player may go out: at least one clean and one dirty book.
    pub open spec fn spec_can_go_out(self) -> bool {
        clean_count(self.books@) >= 1 && dirty_count(self.books@) >= 1
    }

    /// Completed books with no wild card, not anchored on Seven.
    pub fn clean_books(&self) -> (n: usize)
        requires
            self.wf(),
        ensures
            n == clean_count(self.books@),
    {
        let mut n: usize = 0;
        let mut i: usize = 0;
        proof {
            assert(self.books@.take(0) =~= Seq::<Vec<Card>>::empty());
        }
        while i < self.books.len()
            invariant
                i <= self.books@.len(),
                self.wf(),
                n <= i,
                n == clean_count(self.books@.take(i as int)),
            decreases self.books@.len() - i,
        {
            let book = &self.books[i];
            proof {
                assert(book_ok(self.books@[i as int]@));
            }
            let w = crate::cards::count_wilds(book);
            let clean = w == 0 && (match book[0].rank() {
                Some(Rank::Seven) => false,
                _ => true,
            });
            proof {
                lemma_piles_take_push(self.books@, i as int);
                lemma_clean_count_push(self.books@.take(i as int), self.books@[i as int]);
            }
            if clean {
                n = n + 1;
            }
            i = i + 1;
        }
        proof {
            assert(self.books@.take(self.books@.len() as int) =~= self.books@);
        }
        n
    }

    /// Completed books holding at least one wild card.
    pub fn dirty_books(&self) -> (n: usize)
        requires
            self.wf(),
        ensures
            n == dirty_count(self.books@),
    {
        let mut n: usize = 0;
        let mut i: usize = 0;
        proof {
            assert(self.books@.take(0) =~= Seq::<Vec<Card>>::empty());
        }
        while i < self.books.len()
            invariant
                i <= self.books@.len(),
                self.wf(),
                n <= i,
                n == dirty_count(self.books@.take(i as int)),
            decreases self.books@.len() - i,
        {
            let book = &self.books[i];
            let w = crate::cards::count_wilds(book);
            proof {
                lemma_piles_take_push(self.books@, i as int);
                lemma_dirty_count_push(self.books@.take(i as int), self.books@[i as int]);
            }
            if w > 0 {
                n = n + 1;
            }
            i = i + 1;
        }
        proof {
            assert(self.books@.take(self.books@.len() as int) =~= self.books@);
        }
        n
    }

    /// Completed all-natural books anchored on Seven, scored apart from the
    /// clean books.
    pub fn seven_books(&self) -> (n: usize)
        requires
            self.wf(),
        ensures
            n == seven_count(self.books@),
    {
        let mut n: usize = 0;
        let mut i: usize = 0;
        proof {
            assert(self.books@.take(0) =~= Seq::<Vec<Card>>::empty());
        }
        while i < self.books.len()
            invariant
                i <= self.books@.len(),
                self.wf(),
                n <= i,
                n == seven_count(self.books@.take(i as int)),
            decreases self.books@.len() - i,
        {
            let book = &self.books[i];
            proof {
                assert(book_ok(self.books@[i as int]@));
            }
            let w = crate::cards::count_wilds(book);
            let seven = w == 0 && (match book[0].rank() {
                Some(Rank::Seven) => true,
                _ => false,
            });
            proof {
                lemma_piles_take_push(self.books@, i as int);
                lemma_seven_count_push(self.books@.take(i as int), self.books@[i as int]);
            }
            if seven {
                n = n + 1;
            }
            i = i + 1;
        }
        proof {
            assert(self.books@.take(self.books@.len() as int) =~= self.books@);
        }
        n
    }

    /// Whether the player may go out: at least one clean and one dirty book.
    pub fn can_go_out(&self) -> (b: bool)
        requires
            self.wf(),
        ensures
            b == self.spec_can_go_out(),
    {
        self.clean_books() >= 1 && self.dirty_books() >= 1
    }

    /// Whether the player has committed any card to the play area.
    pub fn has_melded(&self) -> (b: bool)
        requires
            self.wf(),
        ensures
            b == self.spec_has_melded(),
    {
        let empty = self.play_area.is_all_empty();
        proof {
            let area = self.play_area.views();
            if self.play_area.all_empty() {
                assert forall|i: int| 0 <= i < area.len() implies !(#[trigger] area[i].len()
                    > 0) by {
                    assert(area[i] == self.play_area.at_idx(i));
                }
                assert(!views_melded(area));
            } else {
                let i = choose|i: int|
                    !(0 <= i < 13 ==> #[trigger] self.play_area.at_idx(i).len() == 0);
                assert(area[i] == self.play_area.at_idx(i));
                assert(area[i].len() > 0);
                assert(views_melded(area));
            }
        }
        !empty
    }

    /// The rules of playing `cards` toward the book of `rank`, in their fixed
    /// order; the result is the first rule violated, if any.
    pub open spec fn spec_can_play_rank(self, rank: Rank, cards: Seq<Card>) -> Result<
        (),
        TurnError,
    > {
        group_verdict(self.play_area.at(rank), self.hand@.to_multiset(), rank, cards)
    }

    /// Pure check that `cards` may legally be played toward the book of
    /// `rank`: every card wild or of that rank, all taken from the hand, the
    /// book neither overfull, nor started too small, nor wild-heavy. These
    /// rules do not themselves bar a book of black Threes; bookability is
    /// enforced only where the discard pile's top card is picked up.
    pub fn can_play_rank(&self, rank: Rank, cards: &Vec<Card>) -> (r: Result<(), TurnError>)
        requires
            self.wf(),
        ensures
            r == self.spec_can_play_rank(rank, cards@),
    {
        let mut i: usize = 0;
        while i < cards.len()
            invariant
                i <= cards@.len(),
                forall|j: int| 0 <= j < i ==> #[trigger] cards@[j].matches_rank(rank),
            decreases cards@.len() - i,
        {
            let c = cards[i];
            let matches = c.is_wild() || (match c.rank() {
                Some(r2) => r2 == rank,
                None => false,
            });
            if !matches {
                proof {
                    assert(!cards@[i as int].matches_rank(rank));
                }
                return Err(TurnError::NotAllCardsMatchRank);
            }
            i = i + 1;
        }
        let mut scratch = copy_cards(&self.hand);
        let in_hand = try_remove_cards(&mut scratch, cards);
        if !in_hand {
            return Err(TurnError::NotAllCardsInHand);
        }
        let existing = self.play_area.pile_at(rank);
        let ex_len = existing.len();
        proof {
            assert(pile_ok(rank_index(rank), self.play_area.at_idx(rank_index(rank))));
            crate::cards::lemma_wilds_bounds(existing@);
        }
        if cards.len() > 7 || ex_len + cards.len() > 7 {
            return Err(TurnError::TooManyCardsInBook);
        }
        if ex_len + cards.len() < 3 {
            return Err(TurnError::TooFewCardsInBook);
        }
        let we = crate::cards::count_wilds(existing);
        let wc = crate::cards::count_wilds(cards);
        proof {
            crate::cards::lemma_wilds_bounds(cards@);
            lemma_wilds_concat(existing@, cards@);
        }
        let w = we + wc;
        if 2 * w >= ex_len + cards.len() {
            return Err(TurnError::TooManyWildsInBook);
        }
        Ok(())
    }

    /// The whole meld action: when the player has not yet melded, the points
    /// of all proposed groups together must reach the round's threshold; then
    /// every group must pass the per-rank rules. The result is the first rule
    /// violated, in that order.
    pub open spec fn spec_can_play(self, round: Round, groups: RankPiles) -> Result<
        (),
        TurnError,
    > {
        meld_verdict(self.play_area.views(), self.hand@.to_multiset(), round, groups.views())
    }

    /// Pure check of a whole meld action against the current hand and play
    /// area.
    pub fn can_play(&self, round: Round, groups: &RankPiles) -> (r: Result<(), TurnError>)
        requires
            self.wf(),
            groups.wf_shape(),
        ensures
            r == self.spec_can_play(round, *groups),
    {
        let melded = self.has_melded();
        if !melded {
            let pts = groups.points_across();
            proof {
                crate::pile::lemma_piles_points_views(groups.piles@, groups.views());
            }
            if pts < round.meld() as u128 {
                return Err(TurnError::NotEnoughMeld);
            }
        }
        let ghost area = self.play_area.views();
        let ghost hand_ms = self.hand@.to_multiset();
        let ghost gviews = groups.views();
        let mut i: usize = 0;
        while i < 13
            invariant
                i <= 13,
                self.wf(),
                groups.wf_shape(),
                area == self.play_area.views(),
                hand_ms == self.hand@.to_multiset(),
                gviews == groups.views(),
                !(!views_melded(area) && seqs_points(gviews) < meld_threshold(round)),
                groups_verdict_upto(area, hand_ms, gviews, i as int) == Ok::<(), TurnError>(()),
            decreases 13 - i,
        {
            let pile = groups.pile_at_index(i);
            if pile.len() > 0 {
                let rank = rank_at_index(i);
                match self.can_play_rank(rank, pile) {
                    Err(e) => {
                        proof {
                            assert(groups_verdict_upto(area, hand_ms, gviews, i + 1)
                                == Err::<(), TurnError>(e));
                            lemma_groups_verdict_stays(area, hand_ms, gviews, i + 1, 13);
                        }
                        return Err(e);
                    },
                    Ok(()) => {},
                }
            }
            i = i + 1;
        }
        Ok(())
    }
}

/// A subset's cards are no more numerous.
pub proof fn lemma_subset_len(a: Multiset<Card>, b: Multiset<Card>)
    requires
        a.subset_of(b),
    ensures
        a.len() <= b.len(),
{
    assert(b =~= a.add(b.sub(a)));
    assert(b.len() == a.len() + b.sub(a).len());
}

/// Joining two groups that each match a rank gives a group that matches it.
pub proof fn lemma_all_match_concat(a: Seq<Card>, b: Seq<Card>, r: Rank)
    requires
        all_match_rank(a, r),
        all_match_rank(b, r),
    ensures
        all_match_rank(a + b, r),
{
    assert forall|i: int| 0 <= i < (a + b).len() implies #[trigger] (a + b)[i].matches_rank(
        r,
    ) by {
        if i < a.len() {
            assert((a + b)[i] == a[i]);
        } else {
            assert((a + b)[i] == b[i - a.len()]);
        }
    }
}

/// Piles with the same cards, pile for pile, hold the same number of them.
pub proof fn lemma_piles_cards_congruent(s: Seq<Vec<Card>>, t: Seq<Vec<Card>>)
    requires
        s.len() == t.len(),
        forall|j: int| 0 <= j < s.len() ==> #[trigger] s[j]@ == t[j]@,
    ensures
        piles_cards(s) == piles_cards(t),
    decreases s.len(),
{
    if s.len() > 0 {
        assert(forall|j: int|
            0 <= j < s.drop_last().len() ==> #[trigger] s.drop_last()[j]@ == t.drop_last()[j]@);
        lemma_piles_cards_congruent(s.drop_last(), t.drop_last());
        assert(s.last()@ == t.last()@);
    }
}


/// Player states with the very same cards agree on well-formedness, on the
/// number of cards they account for, and on the cards they hold.
pub proof fn lemma_same_player(a: PlayerCards, b: PlayerCards)
    requires
        a.same_as(b),
    ensures
        a.wf() == b.wf(),
        a.zone_cards() == b.zone_cards(),
        a.held_ms() == b.held_ms(),
{
    lemma_piles_cards_congruent(a.books@, b.books@);
    assert forall|j: int|
        0 <= j < a.play_area.piles@.len() implies #[trigger] a.play_area.piles@[j]@
        == b.play_area.piles@[j]@ by {
        assert(a.play_area.at_idx(j) == b.play_area.at_idx(j));
    }
    lemma_piles_cards_congruent(a.play_area.piles@, b.play_area.piles@);
    assert forall|i: int| 0 <= i < 13 implies #[trigger] a.play_area.at_idx(i)
        == b.play_area.at_idx(i) by {}
    assert(a.foot_cards() == b.foot_cards());
    assert(a.wf() == b.wf()) by {
        if b.wf() {
            assert forall|i: int| 0 <= i < 13 implies pile_ok(
                i,
                #[trigger] a.play_area.at_idx(i),
            ) by {
                assert(pile_ok(i, b.play_area.at_idx(i)));
            }
            assert forall|j: int| 0 <= j < a.books@.len() implies book_ok(
                #[trigger] a.books@[j]@,
            ) by {
                assert(book_ok(b.books@[j]@));
            }
        }
        if a.wf() {
            assert forall|i: int| 0 <= i < 13 implies pile_ok(
                i,
                #[trigger] b.play_area.at_idx(i),
            ) by {
                assert(pile_ok(i, a.play_area.at_idx(i)));
            }
            assert forall|j: int| 0 <= j < b.books@.len() implies book_ok(
                #[trigger] b.books@[j]@,
            ) by {
                assert(book_ok(a.books@[j]@));
            }
        }
    }
}

/// A fresh vector of books holding the very same cards.
pub fn copy_books(v: &Vec<Vec<Card>>) -> (r: Vec<Vec<Card>>)
    ensures
        r@.len() == v@.len(),
        forall|j: int| 0 <= j < v@.len() ==> #[trigger] r@[j]@ == v@[j]@,
{
    let mut r: Vec<Vec<Card>> = Vec::new();
    let mut i: usize = 0;
    while i < v.len()
        invariant
            i <= v@.len(),
            r@.len() == i,
            forall|j: int| 0 <= j < i ==> #[trigger] r@[j]@ == v@[j]@,
        decreases v@.len() - i,
    {
        let b = copy_cards(&v[i]);
        r.push(b);
        i = i + 1;
    }
    r
}

impl PlayerCards {
    /// The very same cards in every zone.
    pub open spec fn same_as(self, other: PlayerCards) -> bool {
        &&& self.hand@ == other.hand@
        &&& (match (self.foot, other.foot) {
            (Some(a), Some(b)) => a@ == b@,
            (None, None) => true,
            _ => false,
        })
        &&& self.books@.len() == other.books@.len()
        &&& (forall|j: int|
            0 <= j < self.books@.len() ==> #[trigger] self.books@[j]@ == other.books@[j]@)
        &&& self.play_area.same_piles(other.play_area)
        &&& self.red_threes == other.red_threes
    }

    /// A fresh player state holding the very same cards.
    pub fn snapshot(&self) -> (p: PlayerCards)
        requires
            self.play_area.wf_shape(),
        ensures
            p.same_as(*self),
    {
        let foot = match &self.foot {
            Some(f) => Some(copy_cards(f)),
            None => None,
        };
        PlayerCards {
            hand: copy_cards(&self.hand),
            foot,
            books: copy_books(&self.books),
            red_threes: self.red_threes,
            play_area: self.play_area.duplicate(),
        }
    }

    /// Whether committing `cards` would leave the hand below its floor:
    /// with no foot left, the hand may only empty or drop to its last card
    /// when the player can already go out.
    pub open spec fn play_rank_gate(self, cards: Seq<Card>) -> bool {
        let remaining = self.hand@.len() - cards.len();
        &&& self.foot is None
        &&& remaining <= 1
        &&& !self.spec_can_go_out()
    }

    /// Outcome of `play_rank`: the per-rank rules in their fixed order, then
    /// the keep-one-card rule.
    pub open spec fn spec_play_rank(self, rank: Rank, cards: Seq<Card>) -> Result<
        (),
        TurnError,
    > {
        match self.spec_can_play_rank(rank, cards) {
            Err(e) => Err(e),
            Ok(()) => if self.play_rank_gate(cards) {
                Err(TurnError::MustKeepOneCardInHand)
            } else {
                Ok(())
            },
        }
    }

    /// Commit `cards` toward the book of `rank`: take them out of the hand,
    /// lay them on the play area, and promote the pile to a completed book
    /// when it reaches 7 cards. An emptied hand takes up the foot; with no
    /// foot left, a play that empties the hand or leaves one card is
    /// permitted only when the player can already go out, and otherwise
    /// fails with `MustKeepOneCardInHand`, changing nothing.
    pub fn play_rank(&mut self, rank: Rank, cards: &Vec<Card>) -> (r: Result<(), TurnError>)
        requires
            old(self).wf(),
        ensures
            final(self).wf(),
            r == old(self).spec_play_rank(rank, cards@),
            r is Err ==> *final(self) == *old(self),
            r is Ok ==> ({
                let merged = old(self).play_area.at(rank) + cards@;
                &&& final(self).red_threes == old(self).red_threes
                &&& final(self).zone_cards() == old(self).zone_cards()
                &&& final(self).held_ms() == old(self).held_ms().sub(cards@.to_multiset())
                &&& (if old(self).hand@.len() == cards@.len() && old(self).foot is Some {
                    final(self).hand@ == old(self).foot_cards() && final(self).foot is None
                } else {
                    &&& final(self).hand@.to_multiset()
                        == old(self).hand@.to_multiset().sub(cards@.to_multiset())
                    &&& final(self).hand@.len() == old(self).hand@.len() - cards@.len()
                    &&& final(self).foot == old(self).foot
                })
                &&& (if merged.len() == 7 {
                    &&& final(self).play_area.at(rank).len() == 0
                    &&& final(self).books@.len() == old(self).books@.len() + 1
                    &&& final(self).books@[old(self).books@.len() as int]@ == merged
                    &&& (forall|j: int|
                        0 <= j < old(self).books@.len() ==> final(self).books@[j]
                            == old(self).books@[j])
                } else {
                    &&& final(self).play_area.at(rank) == merged
                    &&& final(self).books@ == old(self).books@
                })
                &&& (forall|i: int|
                    0 <= i < 13 && i != rank_index(rank) ==> final(self).play_area.at_idx(i)
                        == old(self).play_area.at_idx(i))
            }),
    {
        match self.can_play_rank(rank, cards) {
            Err(e) => {
                return Err(e);
            },
            Ok(()) => {},
        }
        proof {
            lemma_subset_len(cards@.to_multiset(), self.hand@.to_multiset());
        }
        let can_out = self.can_go_out();
        let remaining = self.hand.len() - cards.len();
        let no_foot = self.foot.is_none();
        if no_foot && remaining <= 1 && !can_out {
            return Err(TurnError::MustKeepOneCardInHand);
        }
        let ghost start = *self;
        let ghost merged = self.play_area.at(rank) + cards@;
        let ok = try_remove_cards(&mut self.hand, cards);
        proof {
            assert(ok);
        }
        if self.hand.len() == 0 {
            let f = self.foot.take();
            match f {
                Some(fv) => {
                    self.hand = fv;
                },
                None => {},
            }
            proof {
                assert(start.hand@.to_multiset().sub(cards@.to_multiset()).len() == 0);
                assert(start.hand@.to_multiset().sub(cards@.to_multiset())
                    =~= Multiset::<Card>::empty());
                assert(start.hand@.to_multiset() =~= cards@.to_multiset()) by {
                    assert forall|v: Card|
                        start.hand@.to_multiset().count(v) == cards@.to_multiset().count(
                            v,
                        ) by {
                        assert(start.hand@.to_multiset().sub(cards@.to_multiset()).count(v) == 0);
                    }
                }
                assert(self.held_ms() =~= start.held_ms().sub(cards@.to_multiset()));
            }
        } else {
            proof {
                lemma_sub_add_commute(
                    start.hand@.to_multiset(),
                    start.foot_cards().to_multiset(),
                    cards@.to_multiset(),
                );
                assert(self.held_ms() =~= start.held_ms().sub(cards@.to_multiset()));
            }
        }
        self.play_area.extend_at(rank, cards);
        proof {
            assert(rank_of_index(rank_index(rank)) == rank);
            lemma_all_match_concat(start.play_area.at(rank), cards@, rank);
        }
        if self.play_area.len_at(rank) == 7 {
            let book = self.play_area.take_at(rank);
            proof {
                lemma_piles_cards_push(self.books@, book);
            }
            self.books.push(book);
            proof {
                assert forall|i: int| 0 <= i < 13 implies pile_ok(
                    i,
                    #[trigger] self.play_area.at_idx(i),
                ) by {
                    if i != rank_index(rank) {
                        assert(self.play_area.at_idx(i) == start.play_area.at_idx(i));
                    }
                }
                assert(book_ok(merged));
            }
        } else {
            proof {
                assert forall|i: int| 0 <= i < 13 implies pile_ok(
                    i,
                    #[trigger] self.play_area.at_idx(i),
                ) by {
                    if i != rank_index(rank) {
                        assert(self.play_area.at_idx(i) == start.play_area.at_idx(i));
                    } else {
                        assert(self.play_area.at_idx(i) == merged);
                    }
                }
            }
        }
        Ok(())
    }

    /// Commit a whole meld action. The action is validated as a whole before
    /// anything moves, and nothing is touched when that validation fails;
    /// each group is then committed in rank order. A later group may still
    /// be refused — after earlier groups have been committed — exactly as
    /// the per-rank rules judge the state they then find: the verdict and
    /// the final state are precisely the fold `table_play` of the groups
    /// over the starting table.
    pub fn play(&mut self, round: Round, groups: &RankPiles) -> (r: Result<(), TurnError>)
        requires
            old(self).wf(),
            groups.wf_shape(),
        ensures
            final(self).wf(),
            final(self).red_threes == old(self).red_threes,
            final(self).zone_cards() == old(self).zone_cards(),
            old(self).spec_can_play(round, *groups) is Err ==> r == old(self).spec_can_play(
                round,
                *groups,
            ) && *final(self) == *old(self),
            r is Ok ==> old(self).spec_can_play(round, *groups) is Ok,
            r is Ok ==> final(self).held_ms() == old(self).held_ms().sub(seqs_ms(groups.views())),
            old(self).spec_can_play(round, *groups) is Ok ==> ({
                let outcome = table_play(old(self).table(), groups.views(), 13);
                r == outcome.1 && final(self).table() == outcome.0
            }),
    {
        match self.can_play(round, groups) {
            Err(e) => {
                return Err(e);
            },
            Ok(()) => {},
        }
        let ghost gv = groups.views();
        let mut i: usize = 0;
        proof {
            assert(gv.take(0) =~= Seq::<Seq<Card>>::empty());
            assert(self.held_ms() =~= old(self).held_ms().sub(seqs_ms(gv.take(0))));
        }
        while i < 13
            invariant
                i <= 13,
                groups.wf_shape(),
                gv == groups.views(),
                self.wf(),
                self.red_threes == old(self).red_threes,
                self.zone_cards() == old(self).zone_cards(),
                self.held_ms() == old(self).held_ms().sub(seqs_ms(gv.take(i as int))),
                old(self).spec_can_play(round, *groups) is Ok,
                table_play(old(self).table(), gv, i as int) == (self.table(), Ok::<(), TurnError>(
                    (),
                )),
            decreases 13 - i,
        {
            let ghost processed = seqs_ms(gv.take(i as int));
            let ghost pre = *self;
            let pile = groups.pile_at_index(i);
            if pile.len() > 0 {
                let rank = rank_at_index(i);
                proof {
                    lemma_play_rank_table(pre, i as int, gv[i as int]);
                }
                match self.play_rank(rank, pile) {
                    Err(e) => {
                        proof {
                            assert(table_play(old(self).table(), gv, i + 1) == (
                                pre.table(),
                                Err::<(), TurnError>(e),
                            ));
                            lemma_table_play_stays(old(self).table(), gv, i + 1, 13);
                        }
                        return Err(e);
                    },
                    Ok(()) => {
                        proof {
                            assert(gv.take(i + 1) =~= gv.take(i as int).push(gv[i as int]));
                            lemma_seqs_ms_push(gv.take(i as int), gv[i as int]);
                            lemma_sub_sub(
                                old(self).held_ms(),
                                processed,
                                gv[i as int].to_multiset(),
                            );
                            lemma_commit_matches(pre, *self, rank, gv[i as int]);
                            assert(table_play(old(self).table(), gv, i + 1) == (
                                self.table(),
                                Ok::<(), TurnError>(()),
                            ));
                        }
                    },
                }
            } else {
                proof {
                    assert(gv.take(i + 1) =~= gv.take(i as int).push(gv[i as int]));
                    lemma_seqs_ms_push(gv.take(i as int), gv[i as int]);
                    assert(gv[i as int] =~= Seq::<Card>::empty());
                    assert(seqs_ms(gv.take(i + 1)) =~= processed);
                }
            }
            i = i + 1;
        }
        proof {
            assert(gv.take(13) =~= gv);
        }
        Ok(())
    }
}



} // verus!
