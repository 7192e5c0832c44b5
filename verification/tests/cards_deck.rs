use hand_and_foot::cards::{Card, Color, Rank, Round, Suit};
use hand_and_foot::deck::Deck;

#[test]
fn round_thresholds() {
    assert_eq!(Round::One.meld(), 90);
    assert_eq!(Round::Two.meld(), 120);
    assert_eq!(Round::Three.meld(), 150);
    assert_eq!(Round::Four.meld(), 180);
}

#[test]
fn suit_colors() {
    assert_eq!(Suit::Diamond.color(), Color::Red);
    assert_eq!(Suit::Heart.color(), Color::Red);
    assert_eq!(Suit::Club.color(), Color::Black);
    assert_eq!(Suit::Spade.color(), Color::Black);
}

#[test]
fn card_points() {
    assert_eq!(Card::Regular(Rank::Ace, Suit::Spade).points(), 20);
    assert_eq!(Card::Regular(Rank::Two, Suit::Heart).points(), 20);
    assert_eq!(Card::Regular(Rank::Three, Suit::Spade).points(), 0);
    assert_eq!(Card::Regular(Rank::Three, Suit::Club).points(), 0);
    assert_eq!(Card::Regular(Rank::Three, Suit::Heart).points(), 100);
    assert_eq!(Card::Regular(Rank::Three, Suit::Diamond).points(), 100);
    assert_eq!(Card::Regular(Rank::Four, Suit::Spade).points(), 5);
    assert_eq!(Card::Regular(Rank::Seven, Suit::Club).points(), 5);
    assert_eq!(Card::Regular(Rank::Eight, Suit::Club).points(), 10);
    assert_eq!(Card::Regular(Rank::King, Suit::Diamond).points(), 10);
    assert_eq!(Card::Joker.points(), 50);
}

#[test]
fn wild_and_bookable() {
    assert!(Card::Joker.is_wild());
    assert!(Card::Regular(Rank::Two, Suit::Club).is_wild());
    assert!(!Card::Regular(Rank::Ace, Suit::Club).is_wild());

    assert!(!Card::Joker.can_be_booked());
    assert!(!Card::Regular(Rank::Two, Suit::Club).can_be_booked());
    assert!(!Card::Regular(Rank::Three, Suit::Heart).can_be_booked());
    assert!(!Card::Regular(Rank::Three, Suit::Spade).can_be_booked());
    assert!(Card::Regular(Rank::Four, Suit::Club).can_be_booked());
    assert!(Card::Regular(Rank::Ace, Suit::Club).can_be_booked());
}

#[test]
fn card_rank() {
    assert_eq!(Card::Regular(Rank::Nine, Suit::Club).rank(), Some(Rank::Nine));
    assert_eq!(Card::Joker.rank(), None);
}

#[test]
fn red_three_detection() {
    assert!(Card::Regular(Rank::Three, Suit::Heart).is_red_three());
    assert!(Card::Regular(Rank::Three, Suit::Diamond).is_red_three());
    assert!(!Card::Regular(Rank::Three, Suit::Spade).is_red_three());
    assert!(!Card::Regular(Rank::Four, Suit::Heart).is_red_three());
    assert!(!Card::Joker.is_red_three());
}

#[test]
fn deck_push_take_lifo() {
    let mut d = Deck::empty();
    assert_eq!(d.len(), 0);
    let a = Card::Regular(Rank::Four, Suit::Club);
    let b = Card::Regular(Rank::Five, Suit::Heart);
    let c = Card::Regular(Rank::Six, Suit::Spade);
    d.push(a);
    d.push(b);
    d.push(c);
    assert_eq!(d.len(), 3);
    let taken = d.take(2).unwrap();
    assert_eq!(taken, vec![c, b]);
    assert_eq!(d.len(), 1);
    let rest = d.take(1).unwrap();
    assert_eq!(rest, vec![a]);
}

#[test]
fn deck_take_too_many() {
    let mut d = Deck::empty();
    d.push(Card::Joker);
    assert!(d.take(2).is_none());
    assert_eq!(d.len(), 1);
}

#[test]
fn deck_deal_sizes() {
    let d = Deck::deal(3);
    assert_eq!(d.len(), 54 * 4);
    let d = Deck::deal(0);
    assert_eq!(d.len(), 54);
}

#[test]
fn deck_deal_population() {
    // two players: three full decks shuffled together
    let mut d = Deck::deal(2);
    let mut jokers = 0;
    let mut ace_of_spades = 0;
    let mut four_of_hearts = 0;
    while let Some(cards) = d.take(1) {
        match cards[0] {
            Card::Joker => jokers += 1,
            Card::Regular(Rank::Ace, Suit::Spade) => ace_of_spades += 1,
            Card::Regular(Rank::Four, Suit::Heart) => four_of_hearts += 1,
            _ => {}
        }
    }
    assert_eq!(jokers, 6);
    assert_eq!(ace_of_spades, 3);
    assert_eq!(four_of_hearts, 3);
}
