use hand_and_foot::cards::{Card, Rank, Round, Suit};
use hand_and_foot::deck::Deck;
use hand_and_foot::game::{DrawAction, Game, SimpleStrategy, Strategy, TurnResult};
use hand_and_foot::pile::RankPiles;
use hand_and_foot::player::{PlayerCards, TurnError};

fn card(r: Rank, s: Suit) -> Card {
    Card::Regular(r, s)
}

fn bare_player(hand: Vec<Card>) -> PlayerCards {
    PlayerCards {
        hand,
        foot: None,
        books: Vec::new(),
        red_threes: 0,
        play_area: RankPiles::new(),
    }
}

fn bare_game(players: Vec<PlayerCards>, deck: Vec<Card>, discard: Vec<Card>) -> Game {
    Game {
        players,
        round: Round::One,
        deck: Deck(deck),
        locked: false,
        discard_pile: Deck(discard),
    }
}

fn total_cards(g: &Game) -> usize {
    let mut n = g.deck.len() + g.discard_pile.len();
    for p in &g.players {
        n += p.hand.len();
        if let Some(f) = &p.foot {
            n += f.len();
        }
        for b in &p.books {
            n += b.len();
        }
        for r in 0..13 {
            n += p.play_area.pile_at_index(r).len();
        }
        n += p.red_threes;
    }
    n
}

#[test]
fn deal_gives_each_player_eleven_and_eleven() {
    let g = Game::deal(Round::One, 4);
    assert_eq!(g.players.len(), 4);
    for p in &g.players {
        assert_eq!(p.hand.len(), 11);
        assert_eq!(p.foot.as_ref().unwrap().len(), 11);
        assert!(p.books.is_empty());
        assert_eq!(p.red_threes, 0);
    }
    assert_eq!(g.deck.len(), 54 * 5 - 22 * 4);
    assert_eq!(g.discard_pile.len(), 0);
    assert_eq!(total_cards(&g), 54 * 5);
}

#[test]
fn turns_conserve_cards() {
    let mut g = Game::deal(Round::One, 4);
    let initial = total_cards(&g);
    let mut strat = SimpleStrategy;
    for _ in 0..20 {
        g.take_turn(0, &mut strat).unwrap();
        assert_eq!(total_cards(&g), initial);
    }
}

#[test]
fn deck_exhausted_turn_fails() {
    // round One, 4 players dealt 11+11; once both piles are empty, the
    // deck-exhausted check fails the turn
    let mut g = Game::deal(Round::One, 4);
    g.deck = Deck::empty();
    g.discard_pile = Deck::empty();
    let mut strat = SimpleStrategy;
    assert_eq!(g.take_turn(0, &mut strat), Err(TurnError::NotEnoughCards));
}

#[test]
fn draw_takes_two_cards() {
    let d = vec![
        card(Rank::Nine, Suit::Club),
        card(Rank::Eight, Suit::Club),
        card(Rank::Seven, Suit::Club),
    ];
    let mut g = bare_game(vec![bare_player(vec![])], d, vec![]);
    assert_eq!(g.draw(0), Ok(()));
    assert_eq!(g.deck.len(), 1);
    assert_eq!(
        g.players[0].hand,
        vec![card(Rank::Seven, Suit::Club), card(Rank::Eight, Suit::Club)]
    );
}

#[test]
fn draw_fails_when_deck_short() {
    let mut g = bare_game(
        vec![bare_player(vec![])],
        vec![card(Rank::Nine, Suit::Club)],
        vec![],
    );
    assert_eq!(g.draw(0), Err(TurnError::NotEnoughCards));
    assert_eq!(g.deck.len(), 1);
    assert!(g.players[0].hand.is_empty());
}

#[test]
fn red_threes_are_banked_and_replaced() {
    let hand = vec![
        card(Rank::Three, Suit::Heart),
        card(Rank::Nine, Suit::Club),
        card(Rank::Three, Suit::Diamond),
    ];
    let deck = vec![
        card(Rank::Eight, Suit::Club),
        card(Rank::King, Suit::Spade),
        card(Rank::Queen, Suit::Spade),
    ];
    let mut g = bare_game(vec![bare_player(hand)], deck, vec![]);
    assert_eq!(g.resolve_red_threes(0), Ok(()));
    let p = &g.players[0];
    assert_eq!(p.red_threes, 2);
    assert_eq!(p.hand.len(), 3);
    assert!(p.hand.iter().all(|c| !c.is_red_three()));
    assert_eq!(g.deck.len(), 1);
}

#[test]
fn red_three_drawn_as_replacement_is_banked_too() {
    let hand = vec![card(Rank::Three, Suit::Heart), card(Rank::Nine, Suit::Club)];
    // the replacement drawn for the first red Three is itself a red Three
    let deck = vec![
        card(Rank::King, Suit::Spade),
        card(Rank::Three, Suit::Diamond),
    ];
    let mut g = bare_game(vec![bare_player(hand)], deck, vec![]);
    assert_eq!(g.resolve_red_threes(0), Ok(()));
    let p = &g.players[0];
    assert_eq!(p.red_threes, 2);
    assert_eq!(p.hand.len(), 2);
    assert!(p.hand.iter().all(|c| !c.is_red_three()));
    assert_eq!(g.deck.len(), 0);
}

#[test]
fn red_three_resolution_fails_on_empty_deck() {
    let hand = vec![card(Rank::Three, Suit::Heart), card(Rank::Nine, Suit::Club)];
    let mut g = bare_game(vec![bare_player(hand)], vec![], vec![]);
    assert_eq!(g.resolve_red_threes(0), Err(TurnError::NotEnoughCards));
    // the drained Three stays banked and unreplaced: the hand is one short
    let p = &g.players[0];
    assert_eq!(p.red_threes, 1);
    assert_eq!(p.hand, vec![card(Rank::Nine, Suit::Club)]);
    assert_eq!(g.deck.len(), 0);
}

fn seven_discards_top_five() -> Vec<Card> {
    // bottom to top: six filler cards, then a Five on top
    vec![
        card(Rank::Nine, Suit::Club),
        card(Rank::Nine, Suit::Heart),
        card(Rank::Ten, Suit::Club),
        card(Rank::Ten, Suit::Heart),
        card(Rank::Jack, Suit::Club),
        card(Rank::Jack, Suit::Heart),
        card(Rank::Five, Suit::Spade),
    ]
}

fn pickup_player() -> PlayerCards {
    // has already melded, so no first-meld threshold applies
    let mut p = bare_player(vec![
        card(Rank::Five, Suit::Club),
        card(Rank::Five, Suit::Heart),
        card(Rank::Two, Suit::Spade),
        card(Rank::King, Suit::Club),
        card(Rank::Queen, Suit::Club),
    ]);
    p.play_area.push_at(Rank::King, card(Rank::King, Suit::Diamond));
    p.play_area.push_at(Rank::King, card(Rank::King, Suit::Heart));
    p.play_area.push_at(Rank::King, card(Rank::King, Suit::Spade));
    p
}

fn pickup_groups() -> RankPiles {
    let mut g = RankPiles::new();
    g.push_at(Rank::Five, card(Rank::Five, Suit::Club));
    g.push_at(Rank::Five, card(Rank::Five, Suit::Heart));
    g.push_at(Rank::Five, card(Rank::Two, Suit::Spade));
    g
}

#[test]
fn pickup_succeeds_and_moves_six_cards_to_hand() {
    // discard pile has 7 cards, top is a Five; the player holds two Fives
    // and one Two: the pickup forms a 4-card book with exactly one wild
    let mut g = bare_game(vec![pickup_player()], vec![], seven_discards_top_five());
    let before_total = total_cards(&g);
    assert_eq!(g.pickup(0, &pickup_groups()), Ok(()));
    let p = &g.players[0];
    assert_eq!(p.play_area.pile_at(Rank::Five).len(), 4);
    assert_eq!(
        p.play_area
            .pile_at(Rank::Five)
            .iter()
            .filter(|c| c.is_wild())
            .count(),
        1
    );
    assert_eq!(g.discard_pile.len(), 0);
    // 5 hand cards - 3 melded + 6 from the pile
    assert_eq!(p.hand.len(), 8);
    for c in [
        card(Rank::Nine, Suit::Club),
        card(Rank::Nine, Suit::Heart),
        card(Rank::Ten, Suit::Club),
        card(Rank::Ten, Suit::Heart),
        card(Rank::Jack, Suit::Club),
        card(Rank::Jack, Suit::Heart),
    ] {
        assert!(p.hand.contains(&c));
    }
    assert_eq!(total_cards(&g), before_total);
}

#[test]
fn pickup_needs_seven_discards() {
    let mut discards = seven_discards_top_five();
    discards.remove(0);
    let mut g = bare_game(vec![pickup_player()], vec![], discards.clone());
    assert_eq!(g.pickup(0, &pickup_groups()), Err(TurnError::NotEnoughCards));
    assert_eq!(g.discard_pile.0, discards);
}

#[test]
fn pickup_rejects_unbookable_top() {
    let mut discards = seven_discards_top_five();
    discards.push(card(Rank::Two, Suit::Club));
    let mut g = bare_game(vec![pickup_player()], vec![], discards.clone());
    let hand_before = g.players[0].hand.clone();
    assert_eq!(
        g.pickup(0, &pickup_groups()),
        Err(TurnError::CanOnlyPickupBookable)
    );
    assert_eq!(g.discard_pile.0, discards);
    assert_eq!(g.players[0].hand, hand_before);
}

#[test]
fn pickup_with_whole_hand_when_able_to_go_out() {
    // the player's three hand cards all go into the merged meld; with a
    // clean and a dirty book the emptying play is permitted, and the six
    // remaining discard cards then refill the hand
    let mut p = bare_player(vec![
        card(Rank::Five, Suit::Club),
        card(Rank::Five, Suit::Heart),
        card(Rank::Two, Suit::Spade),
    ]);
    // already melded, so no first-meld threshold applies
    p.play_area.push_at(Rank::King, card(Rank::King, Suit::Diamond));
    p.play_area.push_at(Rank::King, card(Rank::King, Suit::Heart));
    p.play_area.push_at(Rank::King, card(Rank::King, Suit::Spade));
    p.books.push(vec![
        card(Rank::Queen, Suit::Club),
        card(Rank::Queen, Suit::Club),
        card(Rank::Queen, Suit::Club),
        card(Rank::Queen, Suit::Club),
        card(Rank::Queen, Suit::Club),
        card(Rank::Queen, Suit::Club),
        card(Rank::Queen, Suit::Club),
    ]);
    p.books.push(vec![
        card(Rank::Jack, Suit::Club),
        card(Rank::Jack, Suit::Club),
        card(Rank::Jack, Suit::Club),
        card(Rank::Jack, Suit::Club),
        card(Rank::Jack, Suit::Club),
        card(Rank::Two, Suit::Club),
        card(Rank::Two, Suit::Heart),
    ]);
    let mut g = bare_game(vec![p], vec![], seven_discards_top_five());
    assert_eq!(g.pickup(0, &pickup_groups()), Ok(()));
    let q = &g.players[0];
    assert_eq!(q.play_area.pile_at(Rank::Five).len(), 4);
    assert_eq!(q.hand.len(), 6);
    assert_eq!(g.discard_pile.len(), 0);
}

#[test]
fn pickup_locked_needs_two_matching_in_hand() {
    let mut p = pickup_player();
    // take one of the two Fives away: a locked pile then refuses the pickup
    p.hand.remove(0);
    let mut g = bare_game(vec![p], vec![], seven_discards_top_five());
    g.locked = true;
    let hand_before = g.players[0].hand.clone();
    assert_eq!(
        g.pickup(0, &pickup_groups()),
        Err(TurnError::DeckIsLockedNeedTwoInHand)
    );
    assert_eq!(g.players[0].hand, hand_before);
    assert_eq!(g.discard_pile.len(), 7);
}

#[test]
fn pickup_locked_accepts_two_matching_in_hand() {
    let mut g = bare_game(vec![pickup_player()], vec![], seven_discards_top_five());
    g.locked = true;
    assert_eq!(g.pickup(0, &pickup_groups()), Ok(()));
}

#[test]
fn pickup_rolls_back_on_failed_meld() {
    // the player has not melded yet: the merged Fives are worth far less
    // than round One's 90 points, so the meld fails and every card stays
    let mut p = pickup_player();
    p.play_area = RankPiles::new();
    let mut g = bare_game(vec![p], vec![], seven_discards_top_five());
    let hand_before = g.players[0].hand.clone();
    let discard_before = g.discard_pile.0.clone();
    assert_eq!(g.pickup(0, &pickup_groups()), Err(TurnError::NotEnoughMeld));
    assert_eq!(g.players[0].hand, hand_before);
    assert_eq!(g.discard_pile.0, discard_before);
    assert_eq!(g.players[0].play_area.pile_at(Rank::Five).len(), 0);
}

struct PickupStrategy;

impl Strategy for PickupStrategy {
    fn choose_draw(&mut self, _round: Round, _player: &PlayerCards) -> DrawAction {
        DrawAction::Pickup(pickup_groups())
    }
    fn choose_play(&mut self, _round: Round, _player: &mut PlayerCards) {}
    fn choose_discard(&mut self, _round: Round, player: &PlayerCards) -> Card {
        player.hand[0]
    }
}

#[test]
fn take_turn_with_pickup() {
    let deck = vec![card(Rank::Eight, Suit::Club), card(Rank::Eight, Suit::Heart)];
    let mut g = bare_game(vec![pickup_player()], deck, seven_discards_top_five());
    let before_total = total_cards(&g);
    let mut strat = PickupStrategy;
    assert_eq!(g.take_turn(0, &mut strat), Ok(TurnResult::Over));
    // pickup succeeded, then one card was discarded
    assert_eq!(g.players[0].hand.len(), 7);
    assert_eq!(g.discard_pile.len(), 1);
    assert_eq!(total_cards(&g), before_total);
}

struct StubbornStrategy;

impl Strategy for StubbornStrategy {
    fn choose_draw(&mut self, _round: Round, _player: &PlayerCards) -> DrawAction {
        DrawAction::Draw
    }
    fn choose_play(&mut self, _round: Round, _player: &mut PlayerCards) {}
    fn choose_discard(&mut self, _round: Round, _player: &PlayerCards) -> Card {
        // never names a card the player holds
        Card::Joker
    }
}

#[test]
fn discard_loop_is_bounded() {
    let deck = vec![card(Rank::Eight, Suit::Club), card(Rank::Eight, Suit::Heart)];
    let mut g = bare_game(
        vec![bare_player(vec![card(Rank::Nine, Suit::Club)])],
        deck,
        vec![],
    );
    let mut strat = StubbornStrategy;
    assert_eq!(g.take_turn(0, &mut strat), Err(TurnError::NotAllCardsInHand));
}

struct GoOutStrategy;

impl Strategy for GoOutStrategy {
    fn choose_draw(&mut self, _round: Round, _player: &PlayerCards) -> DrawAction {
        DrawAction::Draw
    }
    fn choose_play(&mut self, round: Round, player: &mut PlayerCards) {
        // meld the two drawn Nines, keeping the last card for the discard
        let mut g = RankPiles::new();
        g.push_at(Rank::Nine, card(Rank::Nine, Suit::Heart));
        g.push_at(Rank::Nine, card(Rank::Nine, Suit::Diamond));
        let _ = player.play(round, &g);
    }
    fn choose_discard(&mut self, _round: Round, player: &PlayerCards) -> Card {
        player.hand[0]
    }
}

fn completed_book_of(rank: Rank, wilds: usize) -> Vec<Card> {
    let mut book = Vec::new();
    for _ in 0..(7 - wilds) {
        book.push(card(rank, Suit::Club));
    }
    for _ in 0..wilds {
        book.push(card(Rank::Two, Suit::Heart));
    }
    book
}

#[test]
fn going_out_on_last_discard() {
    // one card in hand, a clean and a dirty book, four Nines on the table;
    // the turn draws two Nines, melds them, and the final discard empties
    // the hand with no foot left: the player goes out
    let mut p = bare_player(vec![card(Rank::Nine, Suit::Club)]);
    p.books.push(completed_book_of(Rank::Queen, 0));
    p.books.push(completed_book_of(Rank::Jack, 2));
    for _ in 0..4 {
        p.play_area.push_at(Rank::Nine, card(Rank::Nine, Suit::Spade));
    }
    let deck = vec![card(Rank::Nine, Suit::Diamond), card(Rank::Nine, Suit::Heart)];
    let mut g = bare_game(vec![p], deck, vec![]);
    let before_total = total_cards(&g);
    let mut strat = GoOutStrategy;
    assert_eq!(g.take_turn(0, &mut strat), Ok(TurnResult::Out));
    assert!(g.players[0].hand.is_empty());
    assert!(g.players[0].foot.is_none());
    assert_eq!(g.players[0].play_area.pile_at(Rank::Nine).len(), 6);
    assert_eq!(g.discard_pile.len(), 1);
    assert_eq!(total_cards(&g), before_total);
}

#[test]
fn foot_is_taken_up_after_final_discard() {
    let foot = vec![card(Rank::Queen, Suit::Club), card(Rank::Queen, Suit::Heart)];
    let mut p = bare_player(vec![]);
    p.foot = Some(foot.clone());
    // hand will hold exactly the two drawn cards; discarding both in one
    // turn is impossible, so empty the hand down to one discard
    p.hand = vec![card(Rank::Nine, Suit::Club)];
    let mut g = bare_game(vec![p], vec![], vec![]);
    // discard the only card: hand empties and the foot is taken up
    let mut strat = GoOutStrategy;
    // deck is empty, so a draw fails; give it two cards
    g.deck = Deck(vec![card(Rank::Eight, Suit::Club), card(Rank::Eight, Suit::Heart)]);
    assert_eq!(g.take_turn(0, &mut strat), Ok(TurnResult::Over));
    assert_eq!(g.players[0].hand.len(), 2);
}

#[test]
fn score_counts_books_bank_and_held_cards() {
    let mut p = bare_player(vec![card(Rank::Nine, Suit::Club)]); // -10
    p.books.push(vec![
        // clean Queen book: 500 + 7 * 10 points
        card(Rank::Queen, Suit::Club),
        card(Rank::Queen, Suit::Club),
        card(Rank::Queen, Suit::Club),
        card(Rank::Queen, Suit::Club),
        card(Rank::Queen, Suit::Club),
        card(Rank::Queen, Suit::Club),
        card(Rank::Queen, Suit::Club),
    ]);
    p.red_threes = 2; // +200
    p.play_area.push_at(Rank::King, card(Rank::King, Suit::Club)); // +10
    p.play_area.push_at(Rank::King, card(Rank::King, Suit::Heart)); // +10
    p.play_area.push_at(Rank::King, card(Rank::King, Suit::Spade)); // +10
    p.foot = Some(vec![card(Rank::Ace, Suit::Club)]); // -20
    let g = bare_game(vec![p], vec![], vec![]);
    let scores = g.score();
    assert_eq!(scores, vec![500 + 70 + 200 + 30 - 10 - 20]);
}

#[test]
fn score_of_dirty_and_seven_books() {
    let mut p = bare_player(vec![]);
    p.books.push(vec![
        // dirty Jack book: 300 + 5 * 10 + 2 * 20 points
        card(Rank::Jack, Suit::Club),
        card(Rank::Jack, Suit::Club),
        card(Rank::Jack, Suit::Club),
        card(Rank::Jack, Suit::Club),
        card(Rank::Jack, Suit::Club),
        card(Rank::Two, Suit::Club),
        card(Rank::Two, Suit::Heart),
    ]);
    p.books.push(vec![
        // seven book: 1500 + 7 * 5 points
        card(Rank::Seven, Suit::Club),
        card(Rank::Seven, Suit::Club),
        card(Rank::Seven, Suit::Club),
        card(Rank::Seven, Suit::Club),
        card(Rank::Seven, Suit::Club),
        card(Rank::Seven, Suit::Club),
        card(Rank::Seven, Suit::Club),
    ]);
    let g = bare_game(vec![p], vec![], vec![]);
    let scores = g.score();
    assert_eq!(scores, vec![300 + 90 + 1500 + 35]);
}
