use vstd::prelude::*;

use crate::cards::{
    lemma_of_rank_push, lemma_points_bounds, lemma_red_threes_concat, lemma_red_threes_none,
    lemma_red_threes_remove, lemma_red_threes_reverse, lemma_take_push, of_rank_in, points_of,
    points_total, rank_index, red_threes_in, Card, Rank, Round,
};
use crate::deck::Deck;
use crate::pile::{
    lemma_piles_cards_nonneg, piles_cards, piles_points, push_all, seqs_ms, RankPiles,
};
use crate::player::{
    book_ok, clean_count, dirty_count, find_card, meld_verdict, seven_count, table_play,
    vec_views, PlayerCards, Table, TurnError,
};
use vstd::multiset::Multiset;
use vstd::std_specs::vec::vec_index_mut;

verus! {

broadcast use vstd::multiset::group_multiset_axioms, vstd::seq_lib::group_to_multiset_ensures;

/// What the drawing strategy chose: draw two cards, or attempt to pick up
/// the discard pile, melding the named groups together with its top card.
#[derive(Debug)]
pub enum DrawAction {
    Pickup(RankPiles),
    Draw,
}

/// How a turn ended: the round goes on, or the acting player has gone out.
#[derive(Copy, Clone, PartialEq, Eq, Structural, Debug)]
pub enum TurnResult {
    Over,
    Out,
}

/// Number of cards that a sequence of players accounts for.
pub open spec fn players_cards(s: Seq<PlayerCards>) -> int
    decreases s.len(),
{
    if s.len() == 0 {
        0
    } else {
        players_cards(s.drop_last()) + s.last().zone_cards()
    }
}

pub proof fn lemma_zone_nonneg(p: PlayerCards)
    ensures
        p.zone_cards() >= 0,
{
    lemma_piles_cards_nonneg(p.books@);
    lemma_piles_cards_nonneg(p.play_area.piles@);
}

pub proof fn lemma_players_cards_push(s: Seq<PlayerCards>, p: PlayerCards)
    ensures
        players_cards(s.push(p)) == players_cards(s) + p.zone_cards(),
{
    assert(s.push(p).drop_last() =~= s);
}

pub proof fn lemma_players_cards_update(s: Seq<PlayerCards>, i: int, p: PlayerCards)
    requires
        0 <= i < s.len(),
    ensures
        players_cards(s.update(i, p)) == players_cards(s) - s[i].zone_cards() + p.zone_cards(),
    decreases s.len(),
{
    let t = s.update(i, p);
    if i == s.len() - 1 {
        assert(t.drop_last() =~= s.drop_last());
    } else {
        assert(t.drop_last() =~= s.drop_last().update(i, p));
        assert(t.last() == s.last());
        lemma_players_cards_update(s.drop_last(), i, p);
    }
}

/// Each player's cards are among the cards of all players together.
pub proof fn lemma_players_cards_bound(s: Seq<PlayerCards>, i: int)
    requires
        0 <= i < s.len(),
    ensures
        s[i].zone_cards() <= players_cards(s),
    decreases s.len(),
{
    if i == s.len() - 1 {
        lemma_players_cards_nonneg(s.drop_last());
    } else {
        lemma_players_cards_bound(s.drop_last(), i);
        lemma_zone_nonneg(s.last());
    }
}

pub proof fn lemma_players_cards_nonneg(s: Seq<PlayerCards>)
    ensures
        players_cards(s) >= 0,
    decreases s.len(),
{
    if s.len() > 0 {
        lemma_players_cards_nonneg(s.drop_last());
        lemma_zone_nonneg(s.last());
    }
}

/// How many copies of card `c` a sequence of players holds, hands and feet
/// together.
pub open spec fn players_count_of(s: Seq<PlayerCards>, c: Card) -> int
    decreases s.len(),
{
    if s.len() == 0 {
        0
    } else {
        players_count_of(s.drop_last(), c) + s.last().hand@.to_multiset().count(c)
            + s.last().foot_cards().to_multiset().count(c)
    }
}

pub proof fn lemma_players_count_push(s: Seq<PlayerCards>, p: PlayerCards, c: Card)
    ensures
        players_count_of(s.push(p), c) == players_count_of(s, c) + p.hand@.to_multiset().count(c)
            + p.foot_cards().to_multiset().count(c),
{
    assert(s.push(p).drop_last() =~= s);
}

/// Taking cards from the top of a deck moves their counts from the deck
/// into the cards taken.
proof fn lemma_take_counts(orig: Seq<Card>, rest: Seq<Card>, cards: Seq<Card>, k: int)
    requires
        0 <= k <= orig.len(),
        rest == orig.take(orig.len() - k),
        cards == orig.subrange(orig.len() - k, orig.len() as int).reverse(),
    ensures
        forall|c: Card|
            #[trigger] orig.to_multiset().count(c) == rest.to_multiset().count(c)
                + cards.to_multiset().count(c),
{
    let suffix = orig.subrange(orig.len() - k, orig.len() as int);
    assert(orig =~= rest + suffix);
    vstd::seq_lib::lemma_multiset_commutative(rest, suffix);
    suffix.lemma_reverse_to_multiset();
}

/// A freshly dealt player: 11 cards in hand, 11 face down in the foot, and
/// nothing else.
pub open spec fn player_fresh(p: PlayerCards) -> bool {
    &&& p.hand@.len() == 11
    &&& (p.foot matches Some(f) && f@.len() == 11)
    &&& p.books@.len() == 0
    &&& p.red_threes == 0
    &&& p.play_area.wf_shape()
    &&& p.play_area.all_empty()
}

/// One round of the game: the players, the meld tier, the draw pile, the
/// discard pile, and whether the discard pile is locked.
#[derive(Debug)]
pub struct Game {
    pub players: Vec<PlayerCards>,
    pub round: Round,
    pub deck: Deck,
    pub locked: bool,
    pub discard_pile: Deck,
}

impl Game {
    /// Number of cards across every zone of the game: the draw pile, the
    /// discard pile, and each player's hand, foot, play area, books and bank
    /// of red Threes. Legal play never changes it.
    pub open spec fn total_cards(self) -> int {
        self.deck@.len() + self.discard_pile@.len() + players_cards(self.players@)
    }

    /// Every player's cards are well formed, and the game accounts for a
    /// machine-representable number of cards.
    pub open spec fn wf(self) -> bool {
        &&& (forall|i: int| 0 <= i < self.players@.len() ==> (#[trigger] self.players@[i]).wf())
        &&& self.total_cards() <= usize::MAX as int
    }

    /// The very same game state: every zone holds the same cards.
    pub open spec fn same_as(self, other: Game) -> bool {
        &&& self.round == other.round
        &&& self.locked == other.locked
        &&& self.deck@ == other.deck@
        &&& self.discard_pile@ == other.discard_pile@
        &&& self.players@.len() == other.players@.len()
        &&& (forall|i: int|
            0 <= i < self.players@.len() ==> (#[trigger] self.players@[i]).same_as(
                other.players@[i],
            ))
    }

    /// Deal a fresh round: shuffle (numPlayers + 1) decks together and give
    /// every player 11 hand cards and an 11-card foot.
    pub fn deal(round: Round, num_players: usize) -> (g: Game)
        requires
            54 * (num_players as int + 1) <= usize::MAX as int,
        ensures
            g.wf(),
            g.round == round,
            !g.locked,
            g.discard_pile@.len() == 0,
            g.players@.len() == num_players as int,
            g.deck@.len() == 54 * (num_players as int + 1) - 22 * num_players as int,
            g.total_cards() == 54 * (num_players as int + 1),
            forall|i: int| 0 <= i < num_players ==> player_fresh(#[trigger] g.players@[i]),
            forall|c: Card|
                #[trigger] g.deck@.to_multiset().count(c) + players_count_of(g.players@, c) == (
                num_players as int + 1) * crate::deck::copies_in_deck(c),
    {
        let mut deck = Deck::deal(num_players);
        let mut players: Vec<PlayerCards> = Vec::new();
        let mut i: usize = 0;
        while i < num_players
            invariant
                i <= num_players,
                54 * (num_players as int + 1) <= usize::MAX as int,
                deck@.len() == 54 * (num_players as int + 1) - 22 * i as int,
                players@.len() == i,
                forall|j: int|
                    0 <= j < i ==> player_fresh(#[trigger] players@[j]) && players@[j].wf(),
                players_cards(players@) == 22 * i as int,
                forall|c: Card|
                    #[trigger] deck@.to_multiset().count(c) + players_count_of(players@, c) == (
                    num_players as int + 1) * crate::deck::copies_in_deck(c),
            decreases num_players - i,
        {
            proof {
                assert(deck@.len() >= 22);
            }
            let ghost deck0 = deck@;
            let hand = match deck.take(11) {
                Some(h) => h,
                None => vstd::pervasive::unreached(),
            };
            let ghost deck1 = deck@;
            let foot = match deck.take(11) {
                Some(f) => f,
                None => vstd::pervasive::unreached(),
            };
            let ghost hseq = hand@;
            let ghost fseq = foot@;
            proof {
                lemma_take_counts(deck0, deck1, hseq, 11);
                lemma_take_counts(deck1, deck@, fseq, 11);
            }
            let books: Vec<Vec<Card>> = Vec::new();
            let p = PlayerCards {
                hand,
                foot: Some(foot),
                books,
                red_threes: 0,
                play_area: RankPiles::new(),
            };
            proof {
                assert(p.books@ =~= Seq::<Vec<Card>>::empty());
                assert(p.zone_cards() == 22);
                assert(p.wf());
                lemma_players_cards_push(players@, p);
                assert forall|c: Card|
                    #[trigger] deck@.to_multiset().count(c) + players_count_of(
                        players@.push(p),
                        c,
                    ) == (num_players as int + 1) * crate::deck::copies_in_deck(c) by {
                    lemma_players_count_push(players@, p, c);
                    assert(p.hand@ == hseq);
                    assert(p.foot_cards() == fseq);
                    assert(deck0.to_multiset().count(c) + players_count_of(players@, c) == (
                    num_players as int + 1) * crate::deck::copies_in_deck(c));
                    assert(deck0.to_multiset().count(c) == deck1.to_multiset().count(c)
                        + hseq.to_multiset().count(c));
                    assert(deck1.to_multiset().count(c) == deck@.to_multiset().count(c)
                        + fseq.to_multiset().count(c));
                }
            }
            players.push(p);
            i = i + 1;
        }
        Game { players, round, deck, locked: false, discard_pile: Deck::empty() }
    }
}

/// Book counts never exceed the number of books.
pub proof fn lemma_counts_bounds(s: Seq<Vec<Card>>)
    ensures
        0 <= clean_count(s) <= s.len(),
        0 <= dirty_count(s) <= s.len(),
        0 <= seven_count(s) <= s.len(),
    decreases s.len(),
{
    if s.len() > 0 {
        lemma_counts_bounds(s.drop_last());
    }
}

/// Completed books hold exactly 7 cards each.
pub proof fn lemma_books_cards(s: Seq<Vec<Card>>)
    requires
        forall|j: int| 0 <= j < s.len() ==> book_ok(#[trigger] s[j]@),
    ensures
        piles_cards(s) == 7 * s.len(),
    decreases s.len(),
{
    if s.len() > 0 {
        assert(forall|j: int|
            0 <= j < s.drop_last().len() ==> book_ok(#[trigger] s.drop_last()[j]@));
        lemma_books_cards(s.drop_last());
        assert(book_ok(s.last()@));
    }
}

/// Piles of at most 6 cards each hold at most 6 cards per pile.
pub proof fn lemma_piles_cards_small(s: Seq<Vec<Card>>)
    requires
        forall|j: int| 0 <= j < s.len() ==> (#[trigger] s[j]@).len() <= 6,
    ensures
        piles_cards(s) <= 6 * s.len(),
    decreases s.len(),
{
    if s.len() > 0 {
        assert(forall|j: int|
            0 <= j < s.drop_last().len() ==> (#[trigger] s.drop_last()[j]@).len() <= 6);
        lemma_piles_cards_small(s.drop_last());
    }
}

/// Cards are worth at most 100 points each.
pub proof fn lemma_piles_points_bounds(s: Seq<Vec<Card>>)
    ensures
        0 <= piles_points(s) <= 100 * piles_cards(s),
    decreases s.len(),
{
    if s.len() > 0 {
        lemma_piles_points_bounds(s.drop_last());
        lemma_points_bounds(s.last()@);
    }
}

/// Total point value across a vector of books, computed wide enough that it
/// cannot overflow.
fn points_in_piles(v: &Vec<Vec<Card>>) -> (n: u128)
    requires
        v@.len() <= 100000,
    ensures
        n == piles_points(v@),
{
    let mut n: u128 = 0;
    let mut i: usize = 0;
    proof {
        assert(v@.take(0) =~= Seq::<Vec<Card>>::empty());
    }
    while i < v.len()
        invariant
            i <= v@.len(),
            v@.len() <= 100000,
            n == piles_points(v@.take(i as int)),
            n as int <= i as int * 2000000000000000000000,
        decreases v@.len() - i,
    {
        let p = points_total(&v[i]);
        let l = v[i].len();
        proof {
            assert(v@.take(i + 1) =~= v@.take(i as int).push(v@[i as int]));
            crate::pile::lemma_piles_points_push(v@.take(i as int), v@[i as int]);
            lemma_points_bounds(v@[i as int]@);
            assert(p as int <= 100 * l as int);
            assert(p as int <= 2000000000000000000000);
        }
        n = n + p;
        i = i + 1;
    }
    proof {
        assert(v@.take(v@.len() as int) =~= v@);
    }
    n
}

/// Point value of the cards a player has banked, played and completed,
/// against the cards still held.
pub open spec fn player_score(p: PlayerCards) -> int {
    500 * clean_count(p.books@) + 300 * dirty_count(p.books@) + 1500 * seven_count(p.books@)
        + piles_points(p.books@) + p.play_area.total_points() + 100 * p.red_threes - points_of(
        p.hand@,
    ) - points_of(p.foot_cards())
}

/// Zone sizes small enough that a score fits a machine integer.
pub open spec fn score_bounded(p: PlayerCards) -> bool {
    &&& p.hand@.len() <= 100000
    &&& p.foot_cards().len() <= 100000
    &&& p.books@.len() <= 100000
    &&& p.red_threes <= 100000
}

impl Game {
    /// Every player's score: 500 per clean book, 300 per dirty book, 1500
    /// per Seven book, the points of the cards played and completed, 100 per
    /// banked red Three, less the points of the cards still held in hand and
    /// foot.
    pub fn score(&self) -> (scores: Vec<isize>)
        requires
            self.wf(),
            forall|i: int|
                0 <= i < self.players@.len() ==> score_bounded(#[trigger] self.players@[i]),
        ensures
            scores@.len() == self.players@.len(),
            forall|i: int|
                0 <= i < scores@.len() ==> #[trigger] scores@[i] as int == player_score(
                    self.players@[i],
                ),
    {
        let mut scores: Vec<isize> = Vec::new();
        let mut i: usize = 0;
        while i < self.players.len()
            invariant
                i <= self.players@.len(),
                self.wf(),
                forall|k: int|
                    0 <= k < self.players@.len() ==> score_bounded(#[trigger] self.players@[k]),
                scores@.len() == i,
                forall|k: int|
                    0 <= k < i ==> #[trigger] scores@[k] as int == player_score(self.players@[k]),
            decreases self.players@.len() - i,
        {
            let p = &self.players[i];
            let clean = p.clean_books();
            let dirty = p.dirty_books();
            let seven = p.seven_books();
            let bpoints = points_in_piles(&p.books);
            let apoints = p.play_area.points_across();
            let hpoints = points_total(&p.hand);
            let fpoints = match &p.foot {
                Some(f) => points_total(f),
                None => 0,
            };
            proof {
                assert(self.players@[i as int].wf());
                assert(score_bounded(self.players@[i as int]));
                lemma_counts_bounds(p.books@);
                lemma_books_cards(p.books@);
                lemma_piles_points_bounds(p.books@);
                assert forall|j: int|
                    0 <= j < p.play_area.piles@.len() implies (#[trigger] p.play_area.piles@[j]@).len()
                        <= 6 by {
                    assert(crate::player::pile_ok(
                        j,
                        self.players@[i as int].play_area.at_idx(j),
                    ));
                    assert(p.play_area.piles@[j]@ == self.players@[i as int].play_area.at_idx(j));
                }
                lemma_piles_cards_small(p.play_area.piles@);
                lemma_piles_points_bounds(p.play_area.piles@);
                lemma_points_bounds(p.hand@);
                lemma_points_bounds(p.foot_cards());
            }
            let pos: u128 = 500 * (clean as u128) + 300 * (dirty as u128) + 1500 * (seven as u128)
                + bpoints + apoints + 100 * (p.red_threes as u128);
            let neg: u128 = hpoints + fpoints;
            let sc: isize = if pos >= neg {
                proof {
                    assert(pos - neg <= 2147483647);
                }
                (pos - neg) as isize
            } else {
                proof {
                    assert(neg - pos <= 2147483647);
                }
                -((neg - pos) as isize)
            };
            proof {
                assert(sc as int == player_score(self.players@[i as int]));
            }
            scores.push(sc);
            i = i + 1;
        }
        scores
    }
}

/// Remove every red Three from the hand, keeping every other card; the
/// count removed is returned.
fn bank_red_threes(hand: &mut Vec<Card>) -> (k: usize)
    ensures
        final(hand)@.len() + k == old(hand)@.len(),
        forall|j: int|
            0 <= j < final(hand)@.len() ==> !(#[trigger] final(hand)@[j].spec_is_red_three()),
        forall|c: Card|
            !c.spec_is_red_three() ==> final(hand)@.to_multiset().count(c) == old(
                hand,
            )@.to_multiset().count(c),
        k == red_threes_in(old(hand)@),
        k == 0 ==> final(hand)@ == old(hand)@,
{
    let ghost orig = old(hand)@;
    let total = hand.len();
    let mut k: usize = 0;
    let mut i: usize = 0;
    while i < hand.len()
        invariant
            orig == old(hand)@,
            orig.len() == total,
            i <= hand@.len(),
            hand@.len() + k == orig.len(),
            forall|j: int| 0 <= j < i ==> !(#[trigger] hand@[j].spec_is_red_three()),
            forall|c: Card|
                !c.spec_is_red_three() ==> hand@.to_multiset().count(c) == orig.to_multiset().count(
                    c,
                ),
            red_threes_in(hand@) + k == red_threes_in(orig),
            k == 0 ==> hand@ == orig,
        decreases hand@.len() - i,
    {
        if hand[i].is_red_three() {
            let ghost pre = hand@;
            let ghost gone = hand@[i as int];
            proof {
                lemma_red_threes_remove(hand@, i as int);
            }
            hand.remove(i);
            k = k + 1;
            proof {
                assert(hand@.to_multiset() == pre.to_multiset().remove(gone));
                assert forall|c: Card|
                    !c.spec_is_red_three() implies hand@.to_multiset().count(c)
                    == orig.to_multiset().count(c) by {
                    assert(c != gone);
                    assert(pre.to_multiset().remove(gone).count(c) == pre.to_multiset().count(c));
                }
            }
        } else {
            i = i + 1;
        }
    }
    proof {
        lemma_red_threes_none(hand@);
    }
    k
}

/// The cards of a sequence that are not red Threes, as a multiset.
pub open spec fn non_red_ms(s: Seq<Card>) -> Multiset<Card>
    decreases s.len(),
{
    if s.len() == 0 {
        Multiset::empty()
    } else if s.last().spec_is_red_three() {
        non_red_ms(s.drop_last())
    } else {
        non_red_ms(s.drop_last()).insert(s.last())
    }
}

pub proof fn lemma_non_red_counts(s: Seq<Card>)
    ensures
        forall|c: Card|
            #[trigger] non_red_ms(s).count(c) == if c.spec_is_red_three() {
                0nat
            } else {
                s.to_multiset().count(c)
            },
    decreases s.len(),
{
    if s.len() == 0 {
        assert(s.to_multiset() =~= Multiset::<Card>::empty());
    } else {
        lemma_non_red_counts(s.drop_last());
        assert(s =~= s.drop_last().push(s.last()));
        assert(s.drop_last().push(s.last()).to_multiset() =~= s.drop_last().to_multiset().insert(
            s.last(),
        ));
        assert forall|c: Card|
            #[trigger] non_red_ms(s).count(c) == (if c.spec_is_red_three() {
                0nat
            } else {
                s.to_multiset().count(c)
            }) by {
            assert(non_red_ms(s.drop_last()).count(c) == (if c.spec_is_red_three() {
                0nat
            } else {
                s.drop_last().to_multiset().count(c)
            }));
            assert(s.to_multiset().count(c) == s.drop_last().to_multiset().count(c) + (if c
                == s.last() {
                1nat
            } else {
                0nat
            }));
            if !s.last().spec_is_red_three() {
                assert(non_red_ms(s) == non_red_ms(s.drop_last()).insert(s.last()));
                assert(non_red_ms(s).count(c) == non_red_ms(s.drop_last()).count(c) + (if c
                    == s.last() {
                    1nat
                } else {
                    0nat
                }));
            }
        }
    }
}

/// A hand with no red Three in it holds zero copies of every red Three.
proof fn lemma_no_reds_counts(h: Seq<Card>)
    requires
        forall|j: int| 0 <= j < h.len() ==> !(#[trigger] h[j].spec_is_red_three()),
    ensures
        forall|c: Card|
            c.spec_is_red_three() ==> #[trigger] h.to_multiset().count(c) == 0,
{
    assert forall|c: Card|
        c.spec_is_red_three() implies #[trigger] h.to_multiset().count(c) == 0 by {
        assert(forall|j: int| 0 <= j < h.len() ==> h[j] != c);
        assert(!h.contains(c));
    }
}

/// The non-red-Three cards that the chain of red-Three replacements adds to
/// the hand: each pass's drawn cards less the red Threes banked from them.
/// A pass the deck cannot cover adds nothing.
pub open spec fn replacement_kept(deck: Seq<Card>, k: int) -> Multiset<Card>
    decreases deck.len(),
{
    if k <= 0 || deck.len() < k {
        Multiset::empty()
    } else {
        let drawn = deck.subrange(deck.len() - k, deck.len() as int);
        non_red_ms(drawn).add(replacement_kept(deck.take(deck.len() - k), red_threes_in(drawn)))
    }
}

/// Whether the deck can cover the chain of red-Three replacements: starting
/// with `k` banked Threes, each pass draws `k` replacement cards from the
/// top and banks the red Threes among them, until a pass banks none. The
/// result is the total number of cards drawn, or `None` when some pass finds
/// fewer cards left than it needs.
pub open spec fn replacement_draws(deck: Seq<Card>, k: int) -> Option<int>
    decreases deck.len(),
{
    if k <= 0 {
        Some(0)
    } else if deck.len() < k {
        None
    } else {
        match replacement_draws(
            deck.take(deck.len() - k),
            red_threes_in(deck.subrange(deck.len() - k, deck.len() as int)),
        ) {
            None => None,
            Some(n) => Some(n + k),
        }
    }
}

impl Game {
    /// Bank every red Three in the acting player's hand, drawing one
    /// replacement card from the deck for each; drawn replacements that are
    /// themselves red Threes are banked in turn. Fails with `NotEnoughCards`,
    /// exactly when the deck cannot cover some pass's replacements; the
    /// Threes drained by then stay banked and unreplaced (the hand is short
    /// by them), a documented departure from restore-on-failure.
    pub fn resolve_red_threes(&mut self, player_idx: usize) -> (r: Result<(), TurnError>)
        requires
            old(self).wf(),
            player_idx < old(self).players@.len(),
        ensures
            final(self).wf(),
            final(self).total_cards() == old(self).total_cards(),
            final(self).round == old(self).round,
            final(self).locked == old(self).locked,
            final(self).discard_pile@ == old(self).discard_pile@,
            final(self).players@.len() == old(self).players@.len(),
            forall|j: int|
                0 <= j < old(self).players@.len() && j != player_idx ==> final(self).players@[j]
                    == old(self).players@[j],
            final(self).players@[player_idx as int].books@ == old(
                self,
            ).players@[player_idx as int].books@,
            final(self).players@[player_idx as int].play_area == old(
                self,
            ).players@[player_idx as int].play_area,
            final(self).players@[player_idx as int].foot == old(
                self,
            ).players@[player_idx as int].foot,
            final(self).deck@.len() <= old(self).deck@.len(),
            r is Err ==> r == Err::<(), TurnError>(TurnError::NotEnoughCards),
            (r is Ok) == (replacement_draws(
                old(self).deck@,
                red_threes_in(old(self).players@[player_idx as int].hand@),
            ) is Some),
            final(self).players@[player_idx as int].hand@.to_multiset() == non_red_ms(
                old(self).players@[player_idx as int].hand@,
            ).add(
                replacement_kept(
                    old(self).deck@,
                    red_threes_in(old(self).players@[player_idx as int].hand@),
                ),
            ),
            ({
                let p = final(self).players@[player_idx as int];
                let q = old(self).players@[player_idx as int];
                &&& (forall|j: int|
                    0 <= j < p.hand@.len() ==> !(#[trigger] p.hand@[j].spec_is_red_three()))
                &&& (forall|c: Card|
                    !c.spec_is_red_three() ==> p.hand@.to_multiset().count(c)
                        >= q.hand@.to_multiset().count(c))
                &&& p.red_threes == q.red_threes + (q.hand@.len() - p.hand@.len()) + (old(
                    self,
                ).deck@.len() - final(self).deck@.len())
            }),
            r is Ok ==> final(self).players@[player_idx as int].hand@.len() == old(
                self,
            ).players@[player_idx as int].hand@.len(),
    {
        loop
            invariant
                old(self).wf(),
                player_idx < self.players@.len(),
                self.wf(),
                self.total_cards() == old(self).total_cards(),
                self.round == old(self).round,
                self.locked == old(self).locked,
                self.discard_pile@ == old(self).discard_pile@,
                self.players@.len() == old(self).players@.len(),
                forall|j: int|
                    0 <= j < old(self).players@.len() && j != player_idx ==> self.players@[j]
                        == old(self).players@[j],
                self.players@[player_idx as int].books@ == old(
                    self,
                ).players@[player_idx as int].books@,
                self.players@[player_idx as int].play_area == old(
                    self,
                ).players@[player_idx as int].play_area,
                self.players@[player_idx as int].foot == old(
                    self,
                ).players@[player_idx as int].foot,
                self.deck@.len() <= old(self).deck@.len(),
                self.players@[player_idx as int].hand@.len() == old(
                    self,
                ).players@[player_idx as int].hand@.len(),
                self.players@[player_idx as int].red_threes == old(
                    self,
                ).players@[player_idx as int].red_threes + old(self).deck@.len()
                    - self.deck@.len(),
                forall|c: Card|
                    !c.spec_is_red_three()
                        ==> self.players@[player_idx as int].hand@.to_multiset().count(c) >= old(
                        self,
                    ).players@[player_idx as int].hand@.to_multiset().count(c),
                ({
                    let whole = replacement_draws(
                        old(self).deck@,
                        red_threes_in(old(self).players@[player_idx as int].hand@),
                    );
                    let rest = replacement_draws(
                        self.deck@,
                        red_threes_in(self.players@[player_idx as int].hand@),
                    );
                    match rest {
                        Some(m) => whole == Some(m + old(self).deck@.len() - self.deck@.len()),
                        None => whole is None,
                    }
                }),
                non_red_ms(self.players@[player_idx as int].hand@).add(
                    replacement_kept(
                        self.deck@,
                        red_threes_in(self.players@[player_idx as int].hand@),
                    ),
                ) == non_red_ms(old(self).players@[player_idx as int].hand@).add(
                    replacement_kept(
                        old(self).deck@,
                        red_threes_in(old(self).players@[player_idx as int].hand@),
                    ),
                ),
            decreases self.deck@.len(),
        {
            let ghost before = *self;
            let ghost pbefore = before.players@[player_idx as int];
            let k = bank_red_threes(&mut vec_index_mut(&mut self.players, player_idx).hand);
            proof {
                lemma_players_cards_update(
                    before.players@,
                    player_idx as int,
                    self.players@[player_idx as int],
                );
                lemma_red_threes_none(self.players@[player_idx as int].hand@);
            }
            if k == 0 {
                proof {
                    assert(replacement_draws(before.deck@, red_threes_in(pbefore.hand@))
                        == Some(0int));
                    let h = self.players@[player_idx as int].hand@;
                    lemma_non_red_counts(pbefore.hand@);
                    lemma_no_reds_counts(h);
                    assert(h.to_multiset() =~= non_red_ms(pbefore.hand@)) by {
                        assert forall|c: Card|
                            h.to_multiset().count(c) == non_red_ms(pbefore.hand@).count(c) by {
                            if c.spec_is_red_three() {
                                assert(h.to_multiset().count(c) == 0);
                            }
                        }
                    }
                    assert(replacement_kept(before.deck@, 0int) == Multiset::<Card>::empty());
                    assert(non_red_ms(pbefore.hand@).add(Multiset::<Card>::empty())
                        =~= non_red_ms(pbefore.hand@));
                }
                return Ok(());
            }
            let r0 = self.players[player_idx].red_threes;
            proof {
                assert(r0 + k <= usize::MAX) by {
                    lemma_players_cards_bound(before.players@, player_idx as int);
                    lemma_piles_cards_nonneg(pbefore.books@);
                    lemma_piles_cards_nonneg(pbefore.play_area.piles@);
                }
            }
            let new_r = r0 + k;
            let ghost mid1 = *self;
            vec_index_mut(&mut self.players, player_idx).red_threes = new_r;
            proof {
                lemma_players_cards_update(
                    mid1.players@,
                    player_idx as int,
                    self.players@[player_idx as int],
                );
            }
            let drew = self.deck.take(k);
            match drew {
                None => {
                    proof {
                        assert(replacement_draws(before.deck@, red_threes_in(pbefore.hand@))
                            is None);
                        let h = self.players@[player_idx as int].hand@;
                        lemma_non_red_counts(pbefore.hand@);
                        lemma_no_reds_counts(h);
                        assert(h.to_multiset() =~= non_red_ms(pbefore.hand@)) by {
                            assert forall|c: Card|
                                h.to_multiset().count(c) == non_red_ms(pbefore.hand@).count(
                                    c,
                                ) by {
                                if c.spec_is_red_three() {
                                    assert(h.to_multiset().count(c) == 0);
                                }
                            }
                        }
                        assert(replacement_kept(before.deck@, k as int)
                            == Multiset::<Card>::empty());
                        assert(non_red_ms(pbefore.hand@).add(Multiset::<Card>::empty())
                            =~= non_red_ms(pbefore.hand@));
                    }
                    return Err(TurnError::NotEnoughCards);
                },
                Some(cards) => {
                    let ghost mid2 = *self;
                    push_all(&mut vec_index_mut(&mut self.players, player_idx).hand, &cards);
                    proof {
                        vstd::seq_lib::lemma_multiset_commutative(
                            mid2.players@[player_idx as int].hand@,
                            cards@,
                        );
                        lemma_players_cards_update(
                            mid2.players@,
                            player_idx as int,
                            self.players@[player_idx as int],
                        );
                        let n0 = before.deck@.len() as int;
                        let drawn = before.deck@.subrange(n0 - k, n0);
                        assert(cards@ == drawn.reverse());
                        lemma_red_threes_reverse(drawn);
                        lemma_red_threes_concat(mid2.players@[player_idx as int].hand@, cards@);
                        assert(red_threes_in(mid2.players@[player_idx as int].hand@) == 0);
                        assert(red_threes_in(self.players@[player_idx as int].hand@)
                            == red_threes_in(drawn));
                        assert(self.deck@ == before.deck@.take(n0 - k));
                        assert(replacement_draws(before.deck@, k as int) == (match
                            replacement_draws(self.deck@, red_threes_in(drawn)) {
                            None => None::<int>,
                            Some(n) => Some(n + k),
                        }));
                        let hb = mid2.players@[player_idx as int].hand@;
                        let hn = self.players@[player_idx as int].hand@;
                        lemma_non_red_counts(pbefore.hand@);
                        lemma_non_red_counts(hb);
                        lemma_non_red_counts(hn);
                        lemma_non_red_counts(cards@);
                        lemma_non_red_counts(drawn);
                        lemma_no_reds_counts(hb);
                        drawn.lemma_reverse_to_multiset();
                        assert(non_red_ms(hb) =~= non_red_ms(pbefore.hand@)) by {
                            assert forall|c: Card|
                                non_red_ms(hb).count(c) == non_red_ms(pbefore.hand@).count(
                                    c,
                                ) by {
                                if !c.spec_is_red_three() {
                                    assert(hb.to_multiset().count(c)
                                        == pbefore.hand@.to_multiset().count(c));
                                }
                            }
                        }
                        assert(non_red_ms(cards@) =~= non_red_ms(drawn)) by {
                            assert forall|c: Card|
                                non_red_ms(cards@).count(c) == non_red_ms(drawn).count(c) by {
                                if !c.spec_is_red_three() {
                                    assert(cards@.to_multiset().count(c)
                                        == drawn.to_multiset().count(c));
                                }
                            }
                        }
                        assert(replacement_kept(before.deck@, k as int) == non_red_ms(
                            drawn,
                        ).add(replacement_kept(self.deck@, red_threes_in(drawn))));
                        assert(non_red_ms(hn).add(
                            replacement_kept(self.deck@, red_threes_in(hn)),
                        ) =~= non_red_ms(pbefore.hand@).add(
                            replacement_kept(before.deck@, k as int),
                        )) by {
                            assert forall|c: Card|
                                non_red_ms(hn).count(c) + replacement_kept(
                                    self.deck@,
                                    red_threes_in(hn),
                                ).count(c) == non_red_ms(pbefore.hand@).count(c)
                                + replacement_kept(before.deck@, k as int).count(c) by {
                                assert(hn.to_multiset().count(c) == hb.to_multiset().count(c)
                                    + cards@.to_multiset().count(c));
                            }
                        }
                    }
                },
            }
        }
    }

    /// Draw two cards from the deck into the acting player's hand; fails
    /// with `NotEnoughCards`, changing nothing, when fewer than two remain.
    pub fn draw(&mut self, player_idx: usize) -> (r: Result<(), TurnError>)
        requires
            old(self).wf(),
            player_idx < old(self).players@.len(),
        ensures
            final(self).wf(),
            final(self).total_cards() == old(self).total_cards(),
            final(self).round == old(self).round,
            final(self).locked == old(self).locked,
            final(self).discard_pile@ == old(self).discard_pile@,
            final(self).players@.len() == old(self).players@.len(),
            forall|j: int|
                0 <= j < old(self).players@.len() && j != player_idx ==> final(self).players@[j]
                    == old(self).players@[j],
            old(self).deck@.len() < 2 ==> r == Err::<(), TurnError>(TurnError::NotEnoughCards)
                && final(self).deck@ == old(self).deck@ && final(self).players@ == old(
                self,
            ).players@,
            old(self).deck@.len() >= 2 ==> ({
                let n = old(self).deck@.len();
                let q = old(self).players@[player_idx as int];
                &&& r == Ok::<(), TurnError>(())
                &&& final(self).deck@ == old(self).deck@.take(n - 2)
                &&& final(self).players@[player_idx as int].hand@ == q.hand@ + old(
                    self,
                ).deck@.subrange(n - 2, n as int).reverse()
                &&& final(self).players@[player_idx as int].foot == q.foot
                &&& final(self).players@[player_idx as int].books@ == q.books@
                &&& final(self).players@[player_idx as int].play_area == q.play_area
                &&& final(self).players@[player_idx as int].red_threes == q.red_threes
            }),
    {
        let ghost before = *self;
        let drew = self.deck.take(2);
        match drew {
            None => {
                return Err(TurnError::NotEnoughCards);
            },
            Some(cards) => {
                let ghost mid = *self;
                let player = vec_index_mut(&mut self.players, player_idx);
                push_all(&mut player.hand, &cards);
                proof {
                    lemma_players_cards_update(
                        mid.players@,
                        player_idx as int,
                        self.players@[player_idx as int],
                    );
                }
                Ok(())
            },
        }
    }
}

/// Card conservation across a whole game: each legal turn keeps the total
/// card count — as `take_turn` ensures — so any chain of states in which
/// every step keeps it ends with exactly the dealt total.
pub proof fn lemma_card_conservation(states: Seq<Game>)
    requires
        states.len() > 0,
        forall|i: int|
            0 <= i < states.len() - 1 ==> (#[trigger] states[i + 1].total_cards())
                == states[i].total_cards(),
    ensures
        states.last().total_cards() == states.first().total_cards(),
    decreases states.len(),
{
    if states.len() > 1 {
        lemma_card_conservation(states.drop_last());
        assert(states.drop_last().last() == states[states.len() - 2]);
        assert(states[states.len() - 2 + 1].total_cards() == states[states.len()
            - 2].total_cards());
        assert(states.last() == states[states.len() - 2 + 1]);
    }
}

/// The rank a bookable card anchors; a wild or a Three anchors nothing and
/// the value for those is arbitrary.
pub open spec fn anchor_rank(c: Card) -> Rank {
    match c {
        Card::Regular(r, _) => r,
        Card::Joker => Rank::Two,
    }
}

/// The proposed groups with the discard pile's top card merged into the
/// group of its own rank.
pub open spec fn merged_views(groups: RankPiles, top: Card) -> Seq<Seq<Card>> {
    groups.views().update(
        rank_index(anchor_rank(top)),
        groups.at(anchor_rank(top)).push(top),
    )
}

/// The acting player's table with the discard pile's top card taken into
/// the hand: the state the pickup protocol judges, and commits, the merged
/// meld against.
pub open spec fn pickup_table(q: PlayerCards, top: Card) -> Table {
    Table {
        hand: q.hand@.to_multiset().insert(top),
        foot: q.foot_view(),
        area: q.play_area.views(),
        books: vec_views(q.books@),
    }
}

impl Game {
    /// Attempt to take the discard pile: the pile must hold at least 7
    /// cards; its top card must be bookable, and, when the pile is locked,
    /// matched by two cards of its rank already in hand; and hand cards
    /// named by `groups`, together with the top card, must form a legal meld
    /// action. On success the top card is melded and the remaining 6 cards
    /// join the hand; on any failure every zone is exactly as it was.
    pub fn pickup(&mut self, player_idx: usize, groups: &RankPiles) -> (r: Result<(), TurnError>)
        requires
            old(self).wf(),
            player_idx < old(self).players@.len(),
            groups.wf_shape(),
        ensures
            final(self).wf(),
            final(self).total_cards() == old(self).total_cards(),
            final(self).round == old(self).round,
            final(self).locked == old(self).locked,
            final(self).deck@ == old(self).deck@,
            final(self).players@.len() == old(self).players@.len(),
            forall|j: int|
                0 <= j < old(self).players@.len() && j != player_idx ==> final(self).players@[j]
                    == old(self).players@[j],
            r is Err ==> final(self).same_as(*old(self)),
            ({
                let n = old(self).discard_pile@.len();
                let q = old(self).players@[player_idx as int];
                let top = old(self).discard_pile@.last();
                &&& (n < 7 ==> r == Err::<(), TurnError>(TurnError::NotEnoughCards))
                &&& (n >= 7 && !top.spec_can_be_booked() ==> r == Err::<(), TurnError>(
                    TurnError::CanOnlyPickupBookable,
                ))
                &&& (n >= 7 && top.spec_can_be_booked() && old(self).locked && of_rank_in(
                    q.hand@,
                    anchor_rank(top),
                ) < 2 ==> r == Err::<(), TurnError>(TurnError::DeckIsLockedNeedTwoInHand))
                &&& (n >= 7 && top.spec_can_be_booked() && (!old(self).locked || of_rank_in(
                    q.hand@,
                    anchor_rank(top),
                ) >= 2) ==> ({
                    let verdict = meld_verdict(
                        q.play_area.views(),
                        q.hand@.to_multiset().insert(top),
                        old(self).round,
                        merged_views(*groups, top),
                    );
                    let outcome = table_play(
                        pickup_table(q, top),
                        merged_views(*groups, top),
                        13,
                    );
                    &&& (verdict is Err ==> r == verdict)
                    &&& (verdict is Ok && outcome.1 is Err ==> r == Err::<(), TurnError>(
                        outcome.1->Err_0,
                    ))
                    &&& (verdict is Ok && outcome.1 is Ok ==> r is Ok)
                    &&& (r is Ok ==> verdict is Ok)
                    &&& (r is Ok ==> final(self).players@[player_idx as int].table() == (Table {
                        hand: outcome.0.hand.add(
                            old(self).discard_pile@.subrange(n - 7, n - 1).to_multiset(),
                        ),
                        foot: outcome.0.foot,
                        area: outcome.0.area,
                        books: outcome.0.books,
                    }))
                }))
                &&& (r is Ok ==> ({
                    let p = final(self).players@[player_idx as int];
                    &&& final(self).discard_pile@ == old(self).discard_pile@.take(n - 7)
                    &&& p.red_threes == q.red_threes
                    &&& p.held_ms() == q.held_ms().insert(top).sub(
                        seqs_ms(groups.views()).insert(top),
                    ).add(old(self).discard_pile@.subrange(n - 7, n - 1).to_multiset())
                }))
            }),
    {
        let ghost before = *self;
        let n = self.discard_pile.len();
        proof {
            assert forall|i: int|
                0 <= i < before.players@.len() implies (#[trigger] before.players@[i]).same_as(
                before.players@[i],
            ) by {
                assert(before.players@[i].wf());
            }
        }
        if n < 7 {
            return Err(TurnError::NotEnoughCards);
        }
        let top = self.discard_pile.0[n - 1];
        if !top.can_be_booked() {
            return Err(TurnError::CanOnlyPickupBookable);
        }
        let tr = match top.rank() {
            Some(r2) => r2,
            None => vstd::pervasive::unreached(),
        };
        proof {
            assert(tr == anchor_rank(top));
        }
        if self.locked {
            let cnt = count_of_rank(&self.players[player_idx].hand, tr);
            if cnt < 2 {
                return Err(TurnError::DeckIsLockedNeedTwoInHand);
            }
        }
        let mut g2 = groups.duplicate();
        g2.push_at(tr, top);
        let ghost q = before.players@[player_idx as int];
        let round = self.round;
        proof {
            assert(g2.views() =~= merged_views(*groups, top)) by {
                assert forall|i: int| 0 <= i < 13 implies g2.views()[i] == merged_views(
                    *groups,
                    top,
                )[i] by {
                    if i == rank_index(anchor_rank(top)) {
                        assert(g2.at_idx(i) == groups.at(anchor_rank(top)).push(top));
                    } else {
                        assert(g2.at_idx(i) == groups.at_idx(i));
                    }
                }
            }
        }
        let mut probe = self.players[player_idx].snapshot();
        proof {
            crate::player::lemma_same_player(probe, q);
            assert(probe.wf());
        }
        probe.hand.push(top);
        proof {
            assert(probe.wf());
            assert(probe.play_area.views() =~= q.play_area.views()) by {
                assert forall|i: int| 0 <= i < 13 implies probe.play_area.views()[i]
                    == q.play_area.views()[i] by {
                    assert(probe.play_area.at_idx(i) == q.play_area.at_idx(i));
                }
            }
            assert(probe.hand@.to_multiset() =~= q.hand@.to_multiset().insert(top));
        }
        let checked = probe.can_play(round, &g2);
        let ghost verdict = meld_verdict(
            q.play_area.views(),
            q.hand@.to_multiset().insert(top),
            round,
            merged_views(*groups, top),
        );
        proof {
            assert(checked == verdict);
        }
        match checked {
            Err(e) => {
                return Err(e);
            },
            Ok(()) => {},
        }
        let saved = self.players[player_idx].snapshot();
        let player = vec_index_mut(&mut self.players, player_idx);
        player.hand.push(top);
        let ghost p1 = *player;
        let played = player.play(round, &g2);
        match played {
            Err(e) => {
                *player = saved;
                proof {
                    crate::player::lemma_same_player(saved, q);
                    lemma_players_cards_update(before.players@, player_idx as int, saved);
                }
                return Err(e);
            },
            Ok(()) => {},
        }
        proof {
            assert(p1.hand@ == q.hand@.push(top));
            assert(p1.held_ms() =~= q.held_ms().insert(top));
            crate::pile::lemma_seqs_ms_update(
                groups.views(),
                rank_index(anchor_rank(top)),
                groups.at(anchor_rank(top)).push(top),
            );
            crate::pile::lemma_seqs_ms_le(groups.views(), rank_index(anchor_rank(top)));
            assert(seqs_ms(merged_views(*groups, top)) =~= seqs_ms(groups.views()).insert(
                top,
            )) by {
                assert(groups.views()[rank_index(anchor_rank(top))] == groups.at(
                    anchor_rank(top),
                ));
                assert(groups.at(anchor_rank(top)).push(top).to_multiset() == groups.at(
                    anchor_rank(top),
                ).to_multiset().insert(top));
            }
            lemma_players_cards_update(
                before.players@,
                player_idx as int,
                self.players@[player_idx as int],
            );
        }
        let ghost mid = *self;
        let taken = match self.discard_pile.take(7) {
            Some(t) => t,
            None => vstd::pervasive::unreached(),
        };
        let mut rest: Vec<Card> = Vec::new();
        let mut k: usize = 1;
        proof {
            assert(rest@ =~= taken@.subrange(1, 1));
        }
        while k < 7
            invariant
                1 <= k <= 7,
                taken@.len() == 7,
                rest@ == taken@.subrange(1, k as int),
            decreases 7 - k,
        {
            rest.push(taken[k]);
            proof {
                assert(taken@.subrange(1, k + 1) =~= taken@.subrange(1, k as int).push(
                    taken@[k as int],
                ));
            }
            k = k + 1;
        }
        let ghost mid2 = *self;
        push_all(&mut vec_index_mut(&mut self.players, player_idx).hand, &rest);
        proof {
            let suffix = before.discard_pile@.subrange(n - 7, n as int - 1);
            assert(rest@ =~= suffix.reverse()) by {
                assert(taken@ == before.discard_pile@.subrange(n - 7, n as int).reverse());
                assert(rest@.len() == suffix.reverse().len());
                assert forall|j: int| 0 <= j < rest@.len() implies rest@[j]
                    == suffix.reverse()[j] by {
                    assert(rest@[j] == taken@[j + 1]);
                    assert(taken@[j + 1] == before.discard_pile@[n - 2 - j]);
                }
            }
            suffix.lemma_reverse_to_multiset();
            vstd::seq_lib::lemma_multiset_commutative(
                mid2.players@[player_idx as int].hand@,
                rest@,
            );
            lemma_players_cards_update(
                mid2.players@,
                player_idx as int,
                self.players@[player_idx as int],
            );
        }
        Ok(())
    }
}

/// Count the regular cards of rank `r` in a pile.
fn count_of_rank(v: &Vec<Card>, r: Rank) -> (n: usize)
    ensures
        n == of_rank_in(v@, r),
{
    let mut n: usize = 0;
    let mut i: usize = 0;
    proof {
        assert(v@.take(0) =~= Seq::<Card>::empty());
    }
    while i < v.len()
        invariant
            i <= v@.len(),
            n <= i,
            n == of_rank_in(v@.take(i as int), r),
        decreases v@.len() - i,
    {
        proof {
            lemma_take_push(v@, i as int);
            lemma_of_rank_push(v@.take(i as int), v@[i as int], r);
        }
        let matches = match v[i].rank() {
            Some(r2) => r2 == r,
            None => false,
        };
        if matches {
            n = n + 1;
        }
        i = i + 1;
    }
    proof {
        assert(v@.take(v@.len() as int) =~= v@);
    }
    n
}


/// The three decision callbacks a turn consults: what to draw, what to meld,
/// and what to discard. Implementations supply the playing style — a user
/// interface, an automaton — while the engine enforces every rule.
pub trait Strategy {
    /// Choose to draw from the deck or to attempt the discard-pile pickup
    /// with the given meld groups.
    fn choose_draw(&mut self, round: Round, player: &PlayerCards) -> (a: DrawAction)
        ensures
            (a matches DrawAction::Pickup(g) ==> g.wf_shape()),
    ;

    /// Meld at will, through the player's own `play` calls; the player's
    /// cards must stay well formed, account for the same cards, keep the
    /// bank of red Threes, and only ever move cards out of the hand and
    /// foot — onto the table — never conjure or swap them in. The foot is
    /// untouched or consumed whole into the hand, as only `play`'s own
    /// promotion does.
    fn choose_play(&mut self, round: Round, player: &mut PlayerCards)
        requires
            old(player).wf(),
        ensures
            final(player).wf(),
            final(player).zone_cards() == old(player).zone_cards(),
            final(player).red_threes == old(player).red_threes,
            final(player).held_ms().subset_of(old(player).held_ms()),
            final(player).foot == old(player).foot || final(player).foot is None,
    ;

    /// Name a card to discard; asked again while the named card is not in
    /// the hand.
    fn choose_discard(&mut self, round: Round, player: &PlayerCards) -> Card;
}

/// How often a turn asks its strategy for a discard before giving up on it.
pub const DISCARD_TRIES: usize = 64;

/// The simplest playing style: always draw, meld nothing, discard the first
/// card of the hand.
pub struct SimpleStrategy;

impl Strategy for SimpleStrategy {
    fn choose_draw(&mut self, round: Round, player: &PlayerCards) -> (a: DrawAction) {
        DrawAction::Draw
    }

    fn choose_play(&mut self, round: Round, player: &mut PlayerCards) {
    }

    fn choose_discard(&mut self, round: Round, player: &PlayerCards) -> Card {
        if player.hand.len() > 0 {
            player.hand[0]
        } else {
            Card::Joker
        }
    }
}

impl Game {
    /// Run one full turn for the player at `player_idx`: bank red Threes,
    /// draw or pick up the discard pile (a failed pickup falls back to a
    /// draw), bank red Threes again, meld at the strategy's pleasure, then
    /// discard. A discard that empties the hand takes up the foot, or — with
    /// no foot left — goes out. The strategy is asked for a discard a
    /// bounded number of times; naming only cards outside the hand fails the
    /// turn with `NotAllCardsInHand`.
    pub fn take_turn<S: Strategy>(&mut self, player_idx: usize, strategy: &mut S) -> (r: Result<
        TurnResult,
        TurnError,
    >)
        requires
            old(self).wf(),
            player_idx < old(self).players@.len(),
        ensures
            final(self).wf(),
            final(self).total_cards() == old(self).total_cards(),
            final(self).round == old(self).round,
            final(self).locked == old(self).locked,
            final(self).players@.len() == old(self).players@.len(),
            forall|j: int|
                0 <= j < old(self).players@.len() && j != player_idx ==> final(self).players@[j]
                    == old(self).players@[j],
            final(self).deck@.len() <= old(self).deck@.len(),
            replacement_draws(
                old(self).deck@,
                red_threes_in(old(self).players@[player_idx as int].hand@),
            ) is None ==> r == Err::<TurnResult, TurnError>(TurnError::NotEnoughCards),
            r is Ok ==> final(self).discard_pile@.len() >= 1,
            r is Ok ==> final(self).discard_pile@.drop_last() == old(self).discard_pile@
                || final(self).discard_pile@.drop_last() == old(self).discard_pile@.take(
                old(self).discard_pile@.len() - 7,
            ),
            r is Ok ==> ({
                let p = final(self).players@[player_idx as int];
                p.hand@.len() == 0 ==> p.foot is None
            }),
            r == Ok::<TurnResult, TurnError>(TurnResult::Out) ==> ({
                &&& final(self).players@[player_idx as int].hand@.len() == 0
                &&& final(self).players@[player_idx as int].foot is None
            }),
    {
        match self.resolve_red_threes(player_idx) {
            Err(e) => {
                return Err(e);
            },
            Ok(()) => {},
        }
        let action = strategy.choose_draw(self.round, &self.players[player_idx]);
        match action {
            DrawAction::Pickup(groups) => {
                match self.pickup(player_idx, &groups) {
                    Ok(()) => {},
                    Err(_) => {
                        match self.draw(player_idx) {
                            Err(e) => {
                                return Err(e);
                            },
                            Ok(()) => {},
                        }
                    },
                }
            },
            DrawAction::Draw => {
                match self.draw(player_idx) {
                    Err(e) => {
                        return Err(e);
                    },
                    Ok(()) => {},
                }
            },
        }
        match self.resolve_red_threes(player_idx) {
            Err(e) => {
                return Err(e);
            },
            Ok(()) => {},
        }
        let round = self.round;
        let ghost pre_meld = *self;
        strategy.choose_play(round, vec_index_mut(&mut self.players, player_idx));
        proof {
            lemma_players_cards_update(
                pre_meld.players@,
                player_idx as int,
                self.players@[player_idx as int],
            );
        }
        let mut tries: usize = 0;
        while tries < DISCARD_TRIES
            invariant
                player_idx < self.players@.len(),
                self.wf(),
                self.total_cards() == old(self).total_cards(),
                self.round == old(self).round,
                self.locked == old(self).locked,
                self.deck@.len() <= old(self).deck@.len(),
                replacement_draws(
                    old(self).deck@,
                    red_threes_in(old(self).players@[player_idx as int].hand@),
                ) is Some,
                self.discard_pile@ == old(self).discard_pile@ || self.discard_pile@ == old(
                    self,
                ).discard_pile@.take(old(self).discard_pile@.len() - 7),
                self.players@.len() == old(self).players@.len(),
                forall|j: int|
                    0 <= j < old(self).players@.len() && j != player_idx ==> self.players@[j]
                        == old(self).players@[j],
            decreases DISCARD_TRIES - tries,
        {
            let named = strategy.choose_discard(round, &self.players[player_idx]);
            let ghost pre_discard = *self;
            let found = find_card(&self.players[player_idx].hand, named);
            match found {
                Some(pos) => {
                    let player = vec_index_mut(&mut self.players, player_idx);
                    player.hand.remove(pos);
                    proof {
                        lemma_players_cards_update(
                            pre_discard.players@,
                            player_idx as int,
                            self.players@[player_idx as int],
                        );
                    }
                    self.discard_pile.push(named);
                    let ghost pre_foot = *self;
                    if self.players[player_idx].hand.len() == 0 {
                        let player2 = vec_index_mut(&mut self.players, player_idx);
                        let f = player2.foot.take();
                        match f {
                            Some(fv) => {
                                player2.hand = fv;
                                proof {
                                    lemma_players_cards_update(
                                        pre_foot.players@,
                                        player_idx as int,
                                        self.players@[player_idx as int],
                                    );
                                }
                                return Ok(TurnResult::Over);
                            },
                            None => {
                                proof {
                                    lemma_players_cards_update(
                                        pre_foot.players@,
                                        player_idx as int,
                                        self.players@[player_idx as int],
                                    );
                                }
                                return Ok(TurnResult::Out);
                            },
                        }
                    }
                    return Ok(TurnResult::Over);
                },
                None => {},
            }
            tries = tries + 1;
        }
        Err(TurnError::NotAllCardsInHand)
    }
}


} // verus!
