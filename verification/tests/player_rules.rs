use hand_and_foot::cards::{Card, Rank, Round, Suit};
use hand_and_foot::pile::RankPiles;
use hand_and_foot::player::{PlayerCards, TurnError};

fn card(r: Rank, s: Suit) -> Card {
    Card::Regular(r, s)
}

fn player_with_hand(hand: Vec<Card>) -> PlayerCards {
    PlayerCards {
        hand,
        foot: None,
        books: Vec::new(),
        red_threes: 0,
        play_area: RankPiles::new(),
    }
}

fn groups_of(rank: Rank, cards: Vec<Card>) -> RankPiles {
    let mut g = RankPiles::new();
    for c in cards {
        g.push_at(rank, c);
    }
    g
}

#[test]
fn can_play_rank_wrong_rank() {
    let p = player_with_hand(vec![
        card(Rank::King, Suit::Club),
        card(Rank::King, Suit::Heart),
        card(Rank::Queen, Suit::Club),
    ]);
    let cards = vec![
        card(Rank::King, Suit::Club),
        card(Rank::King, Suit::Heart),
        card(Rank::Queen, Suit::Club),
    ];
    assert_eq!(
        p.can_play_rank(Rank::King, &cards),
        Err(TurnError::NotAllCardsMatchRank)
    );
}

#[test]
fn can_play_rank_not_in_hand() {
    let p = player_with_hand(vec![
        card(Rank::King, Suit::Club),
        card(Rank::King, Suit::Heart),
    ]);
    let cards = vec![
        card(Rank::King, Suit::Club),
        card(Rank::King, Suit::Heart),
        card(Rank::King, Suit::Spade),
    ];
    assert_eq!(
        p.can_play_rank(Rank::King, &cards),
        Err(TurnError::NotAllCardsInHand)
    );
}

#[test]
fn can_play_rank_duplicate_consumes_once() {
    // one King in hand cannot stand for two played Kings of the same suit
    let p = player_with_hand(vec![
        card(Rank::King, Suit::Club),
        card(Rank::King, Suit::Heart),
    ]);
    let cards = vec![
        card(Rank::King, Suit::Club),
        card(Rank::King, Suit::Club),
        card(Rank::King, Suit::Heart),
    ];
    assert_eq!(
        p.can_play_rank(Rank::King, &cards),
        Err(TurnError::NotAllCardsInHand)
    );
}

#[test]
fn can_play_rank_too_many() {
    let hand: Vec<Card> = (0..8).map(|_| card(Rank::King, Suit::Club)).collect();
    let p = player_with_hand(hand.clone());
    assert_eq!(
        p.can_play_rank(Rank::King, &hand),
        Err(TurnError::TooManyCardsInBook)
    );
}

#[test]
fn can_play_rank_too_few() {
    let p = player_with_hand(vec![
        card(Rank::King, Suit::Club),
        card(Rank::King, Suit::Heart),
    ]);
    let cards = vec![card(Rank::King, Suit::Club), card(Rank::King, Suit::Heart)];
    assert_eq!(
        p.can_play_rank(Rank::King, &cards),
        Err(TurnError::TooFewCardsInBook)
    );
}

#[test]
fn can_play_rank_too_many_wilds() {
    let p = player_with_hand(vec![
        card(Rank::King, Suit::Club),
        card(Rank::Two, Suit::Heart),
        Card::Joker,
        card(Rank::King, Suit::Heart),
    ]);
    // 2 wilds vs 2 naturals: wilds must be in the strict minority
    let cards = vec![
        card(Rank::King, Suit::Club),
        card(Rank::King, Suit::Heart),
        card(Rank::Two, Suit::Heart),
        Card::Joker,
    ];
    assert_eq!(
        p.can_play_rank(Rank::King, &cards),
        Err(TurnError::TooManyWildsInBook)
    );
}

#[test]
fn can_play_rank_accepts_minority_wild() {
    let p = player_with_hand(vec![
        card(Rank::King, Suit::Club),
        card(Rank::King, Suit::Heart),
        Card::Joker,
    ]);
    let cards = vec![
        card(Rank::King, Suit::Club),
        card(Rank::King, Suit::Heart),
        Card::Joker,
    ];
    assert_eq!(p.can_play_rank(Rank::King, &cards), Ok(()));
}

#[test]
fn first_meld_below_threshold_rejected() {
    // three Fours are worth 15 points: far below round One's 90
    let p = player_with_hand(vec![
        card(Rank::Four, Suit::Club),
        card(Rank::Four, Suit::Heart),
        card(Rank::Four, Suit::Spade),
        card(Rank::Nine, Suit::Club),
    ]);
    let g = groups_of(
        Rank::Four,
        vec![
            card(Rank::Four, Suit::Club),
            card(Rank::Four, Suit::Heart),
            card(Rank::Four, Suit::Spade),
        ],
    );
    assert_eq!(p.can_play(Round::One, &g), Err(TurnError::NotEnoughMeld));
    let mut p2 = p;
    assert_eq!(p2.play(Round::One, &g), Err(TurnError::NotEnoughMeld));
    // nothing was committed
    assert_eq!(p2.play_area.pile_at(Rank::Four).len(), 0);
    assert_eq!(p2.hand.len(), 4);
}

#[test]
fn first_meld_at_threshold_accepted() {
    // five Aces are worth 100 points: enough for round One's 90
    let aces = vec![
        card(Rank::Ace, Suit::Club),
        card(Rank::Ace, Suit::Heart),
        card(Rank::Ace, Suit::Spade),
        card(Rank::Ace, Suit::Diamond),
        card(Rank::Ace, Suit::Club),
    ];
    let mut hand = aces.clone();
    hand.push(card(Rank::Nine, Suit::Club));
    hand.push(card(Rank::Eight, Suit::Club));
    let mut p = player_with_hand(hand);
    let g = groups_of(Rank::Ace, aces);
    assert_eq!(p.can_play(Round::One, &g), Ok(()));
    assert_eq!(p.play(Round::One, &g), Ok(()));
    assert_eq!(p.play_area.pile_at(Rank::Ace).len(), 5);
    assert_eq!(p.hand.len(), 2);
}

#[test]
fn second_meld_needs_no_threshold() {
    let mut p = player_with_hand(vec![
        card(Rank::Four, Suit::Club),
        card(Rank::Four, Suit::Heart),
        card(Rank::Four, Suit::Spade),
        card(Rank::Nine, Suit::Club),
    ]);
    // an earlier meld already sits in the play area
    p.play_area.push_at(Rank::King, card(Rank::King, Suit::Club));
    p.play_area.push_at(Rank::King, card(Rank::King, Suit::Heart));
    p.play_area.push_at(Rank::King, card(Rank::King, Suit::Spade));
    let g = groups_of(
        Rank::Four,
        vec![
            card(Rank::Four, Suit::Club),
            card(Rank::Four, Suit::Heart),
            card(Rank::Four, Suit::Spade),
        ],
    );
    assert_eq!(p.can_play(Round::One, &g), Ok(()));
}

#[test]
fn completing_a_book_promotes_it() {
    let kings: Vec<Card> = vec![
        card(Rank::King, Suit::Club),
        card(Rank::King, Suit::Heart),
        card(Rank::King, Suit::Spade),
        card(Rank::King, Suit::Diamond),
        card(Rank::King, Suit::Club),
        card(Rank::King, Suit::Heart),
        card(Rank::King, Suit::Spade),
    ];
    let mut hand = kings.clone();
    hand.push(card(Rank::Nine, Suit::Club));
    hand.push(card(Rank::Eight, Suit::Club));
    let mut p = player_with_hand(hand);
    assert_eq!(p.play_rank(Rank::King, &kings), Ok(()));
    assert_eq!(p.books.len(), 1);
    assert_eq!(p.books[0].len(), 7);
    assert_eq!(p.play_area.pile_at(Rank::King).len(), 0);
    assert_eq!(p.clean_books(), 1);
    assert_eq!(p.dirty_books(), 0);
}

#[test]
fn go_out_gating_blocks_and_restores() {
    // playing the whole hand with no foot and no books must be rejected,
    // and the hand must be exactly as it was
    let kings = vec![
        card(Rank::King, Suit::Club),
        card(Rank::King, Suit::Heart),
        card(Rank::King, Suit::Spade),
    ];
    let mut p = player_with_hand(kings.clone());
    let before = p.hand.clone();
    assert_eq!(
        p.play_rank(Rank::King, &kings),
        Err(TurnError::MustKeepOneCardInHand)
    );
    assert_eq!(p.hand, before);
    assert_eq!(p.play_area.pile_at(Rank::King).len(), 0);
    assert!(p.books.is_empty());
}

#[test]
fn go_out_gating_blocks_down_to_last_card_without_books() {
    let mut p = player_with_hand(vec![
        card(Rank::King, Suit::Club),
        card(Rank::King, Suit::Heart),
        card(Rank::King, Suit::Spade),
        card(Rank::Nine, Suit::Club),
    ]);
    let kings = vec![
        card(Rank::King, Suit::Club),
        card(Rank::King, Suit::Heart),
        card(Rank::King, Suit::Spade),
    ];
    assert_eq!(
        p.play_rank(Rank::King, &kings),
        Err(TurnError::MustKeepOneCardInHand)
    );
    assert_eq!(p.hand.len(), 4);
}

fn completed_book(rank: Rank, wilds: usize) -> Vec<Card> {
    let mut book = Vec::new();
    for _ in 0..(7 - wilds) {
        book.push(card(rank, Suit::Club));
    }
    for _ in 0..wilds {
        book.push(card(Rank::Two, Suit::Heart));
    }
    book
}

#[test]
fn emptying_play_allowed_when_able_to_go_out() {
    // with one clean and one dirty book, a meld may empty the hand
    let kings = vec![
        card(Rank::King, Suit::Club),
        card(Rank::King, Suit::Heart),
        card(Rank::King, Suit::Spade),
    ];
    let mut p = player_with_hand(kings.clone());
    p.books.push(completed_book(Rank::Queen, 0));
    p.books.push(completed_book(Rank::Jack, 2));
    assert!(p.can_go_out());
    assert_eq!(p.play_rank(Rank::King, &kings), Ok(()));
    assert!(p.hand.is_empty());
    assert!(p.foot.is_none());
    assert_eq!(p.play_area.pile_at(Rank::King).len(), 3);
}

#[test]
fn down_to_last_card_allowed_when_able_to_go_out() {
    let mut p = player_with_hand(vec![
        card(Rank::King, Suit::Club),
        card(Rank::King, Suit::Heart),
        card(Rank::King, Suit::Spade),
        card(Rank::Nine, Suit::Club),
    ]);
    p.books.push(completed_book(Rank::Queen, 0));
    p.books.push(completed_book(Rank::Jack, 2));
    assert!(p.can_go_out());
    let kings = vec![
        card(Rank::King, Suit::Club),
        card(Rank::King, Suit::Heart),
        card(Rank::King, Suit::Spade),
    ];
    assert_eq!(p.play_rank(Rank::King, &kings), Ok(()));
    assert_eq!(p.hand.len(), 1);
}

#[test]
fn emptied_hand_takes_up_the_foot() {
    let kings = vec![
        card(Rank::King, Suit::Club),
        card(Rank::King, Suit::Heart),
        card(Rank::King, Suit::Spade),
    ];
    let foot = vec![card(Rank::Nine, Suit::Club), card(Rank::Eight, Suit::Club)];
    let mut p = PlayerCards {
        hand: kings.clone(),
        foot: Some(foot.clone()),
        books: Vec::new(),
        red_threes: 0,
        play_area: RankPiles::new(),
    };
    assert_eq!(p.play_rank(Rank::King, &kings), Ok(()));
    assert_eq!(p.hand, foot);
    assert!(p.foot.is_none());
    assert_eq!(p.play_area.pile_at(Rank::King).len(), 3);
}

#[test]
fn book_classification() {
    let mut p = player_with_hand(vec![]);
    p.books.push(completed_book(Rank::Queen, 0)); // clean
    p.books.push(completed_book(Rank::Jack, 2)); // dirty
    p.books.push(completed_book(Rank::Seven, 0)); // seven book, not clean
    assert_eq!(p.clean_books(), 1);
    assert_eq!(p.dirty_books(), 1);
    assert_eq!(p.seven_books(), 1);
    assert!(p.can_go_out());
}

#[test]
fn meld_exactly_at_threshold() {
    // four Kings and a Joker are worth exactly 90: round One's threshold
    let group = vec![
        card(Rank::King, Suit::Club),
        card(Rank::King, Suit::Heart),
        card(Rank::King, Suit::Spade),
        card(Rank::King, Suit::Diamond),
        Card::Joker,
    ];
    let mut hand = group.clone();
    hand.push(card(Rank::Nine, Suit::Club));
    hand.push(card(Rank::Eight, Suit::Club));
    let mut p = player_with_hand(hand);
    let g = groups_of(Rank::King, group);
    assert_eq!(p.can_play(Round::One, &g), Ok(()));
    assert_eq!(p.play(Round::One, &g), Ok(()));
    assert_eq!(p.play_area.pile_at(Rank::King).len(), 5);
}
