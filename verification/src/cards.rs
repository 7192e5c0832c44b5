use vstd::prelude::*;

verus! {

/// The meld-threshold tier of a game: each round raises the minimum point
/// total that a player's first meld must reach.
#[derive(Copy, Clone, PartialEq, Eq, Structural, Debug)]
pub enum Round {
    One,
    Two,
    Three,
    Four,
}

/// Minimum point total required of a player's first meld in a round.
pub open spec fn meld_threshold(r: Round) -> int {
    match r {
        Round::One => 90,
        Round::Two => 120,
        Round::Three => 150,
        Round::Four => 180,
    }
}

impl Round {
    /// Minimum point total required of a player's first meld in this round.
    pub fn meld(self) -> (n: usize)
        ensures
            n == meld_threshold(self),
    {
        match self {
            Round::One => 90,
            Round::Two => 120,
            Round::Three => 150,
            Round::Four => 180,
        }
    }
}

/// Card ranks in their fixed total order: Three lowest, Two highest.
#[derive(Copy, Clone, PartialEq, Eq, Structural, Debug)]
pub enum Rank {
    Three,
    Four,
    Five,
    Six,
    Seven,
    Eight,
    Nine,
    Ten,
    Jack,
    Queen,
    King,
    Ace,
    Two,
}

#[derive(Copy, Clone, PartialEq, Eq, Structural, Debug)]
pub enum Suit {
    Diamond,
    Club,
    Heart,
    Spade,
}

#[derive(Copy, Clone, PartialEq, Eq, Structural, Debug)]
pub enum Color {
    Red,
    Black,
}

impl Suit {
    /// The color of this suit.
    pub open spec fn spec_color(self) -> Color {
        match self {
            Suit::Heart | Suit::Diamond => Color::Red,
            Suit::Spade | Suit::Club => Color::Black,
        }
    }

    pub fn color(self) -> (c: Color)
        ensures
            c == self.spec_color(),
    {
        match self {
            Suit::Heart | Suit::Diamond => Color::Red,
            Suit::Spade | Suit::Club => Color::Black,
        }
    }
}

impl Rank {
    /// The generic point value of a rank (the red-Three bonus is handled at
    /// the card level).
    pub open spec fn spec_points(self) -> int {
        match self {
            Rank::Ace | Rank::Two => 20,
            Rank::Three => 0,
            Rank::Four | Rank::Five | Rank::Six | Rank::Seven => 5,
            _ => 10,
        }
    }

    pub fn points(self) -> (n: usize)
        ensures
            n == self.spec_points(),
    {
        match self {
            Rank::Ace | Rank::Two => 20,
            Rank::Three => 0,
            Rank::Four | Rank::Five | Rank::Six | Rank::Seven => 5,
            _ => 10,
        }
    }
}

/// The position of a rank in the fixed rank order; used to index the
/// per-rank piles of a play area.
pub open spec fn rank_index(r: Rank) -> int {
    match r {
        Rank::Three => 0,
        Rank::Four => 1,
        Rank::Five => 2,
        Rank::Six => 3,
        Rank::Seven => 4,
        Rank::Eight => 5,
        Rank::Nine => 6,
        Rank::Ten => 7,
        Rank::Jack => 8,
        Rank::Queen => 9,
        Rank::King => 10,
        Rank::Ace => 11,
        Rank::Two => 12,
    }
}

/// The rank at a given position of the fixed rank order.
pub open spec fn rank_of_index(i: int) -> Rank {
    if i == 0 {
        Rank::Three
    } else if i == 1 {
        Rank::Four
    } else if i == 2 {
        Rank::Five
    } else if i == 3 {
        Rank::Six
    } else if i == 4 {
        Rank::Seven
    } else if i == 5 {
        Rank::Eight
    } else if i == 6 {
        Rank::Nine
    } else if i == 7 {
        Rank::Ten
    } else if i == 8 {
        Rank::Jack
    } else if i == 9 {
        Rank::Queen
    } else if i == 10 {
        Rank::King
    } else if i == 11 {
        Rank::Ace
    } else {
        Rank::Two
    }
}

pub fn rank_index_of(r: Rank) -> (i: usize)
    ensures
        i == rank_index(r),
        i < 13,
{
    match r {
        Rank::Three => 0,
        Rank::Four => 1,
        Rank::Five => 2,
        Rank::Six => 3,
        Rank::Seven => 4,
        Rank::Eight => 5,
        Rank::Nine => 6,
        Rank::Ten => 7,
        Rank::Jack => 8,
        Rank::Queen => 9,
        Rank::King => 10,
        Rank::Ace => 11,
        Rank::Two => 12,
    }
}

pub fn rank_at_index(i: usize) -> (r: Rank)
    requires
        i < 13,
    ensures
        r == rank_of_index(i as int),
        rank_index(r) == i,
{
    if i == 0 {
        Rank::Three
    } else if i == 1 {
        Rank::Four
    } else if i == 2 {
        Rank::Five
    } else if i == 3 {
        Rank::Six
    } else if i == 4 {
        Rank::Seven
    } else if i == 5 {
        Rank::Eight
    } else if i == 6 {
        Rank::Nine
    } else if i == 7 {
        Rank::Ten
    } else if i == 8 {
        Rank::Jack
    } else if i == 9 {
        Rank::Queen
    } else if i == 10 {
        Rank::King
    } else if i == 11 {
        Rank::Ace
    } else {
        Rank::Two
    }
}

/// A playing card: a rank/suit pair, or one of the Jokers.
#[derive(Copy, Clone, PartialEq, Eq, Structural, Debug)]
pub enum Card {
    Regular(Rank, Suit),
    Joker,
}

impl Card {
    /// Point value of a card, with the red Three worth its 100-point bonus.
    pub open spec fn spec_points(self) -> int {
        match self {
            Card::Regular(r, s) => if r == Rank::Three && s.spec_color() == Color::Red {
                100
            } else {
                r.spec_points()
            },
            Card::Joker => 50,
        }
    }

    pub fn points(self) -> (n: usize)
        ensures
            n == self.spec_points(),
    {
        match self {
            Card::Regular(Rank::Three, s) => if s.color() == Color::Red {
                100
            } else {
                0
            },
            Card::Regular(r, _) => r.points(),
            Card::Joker => 50,
        }
    }

    /// A wild card is a Joker or a Two of any suit.
    pub open spec fn spec_is_wild(self) -> bool {
        match self {
            Card::Joker => true,
            Card::Regular(r, _) => r == Rank::Two,
        }
    }

    pub fn is_wild(self) -> (b: bool)
        ensures
            b == self.spec_is_wild(),
    {
        match self {
            Card::Joker | Card::Regular(Rank::Two, _) => true,
            _ => false,
        }
    }

    /// Whether the card can anchor or freely join a book: anything except a
    /// Joker, a Two, or a Three. Only such a card may be picked up from the
    /// top of the discard pile.
    pub open spec fn spec_can_be_booked(self) -> bool {
        match self {
            Card::Joker => false,
            Card::Regular(r, _) => r != Rank::Two && r != Rank::Three,
        }
    }

    pub fn can_be_booked(self) -> (b: bool)
        ensures
            b == self.spec_can_be_booked(),
    {
        match self {
            Card::Regular(Rank::Three | Rank::Two, _) | Card::Joker => false,
            _ => true,
        }
    }

    pub open spec fn spec_rank(self) -> Option<Rank> {
        match self {
            Card::Regular(r, _) => Some(r),
            Card::Joker => None,
        }
    }

    pub fn rank(self) -> (r: Option<Rank>)
        ensures
            r == self.spec_rank(),
    {
        match self {
            Card::Regular(r, _) => Some(r),
            Card::Joker => None,
        }
    }

    /// A red Three, the card banked for its bonus rather than held or played.
    pub open spec fn spec_is_red_three(self) -> bool {
        match self {
            Card::Regular(r, s) => r == Rank::Three && s.spec_color() == Color::Red,
            Card::Joker => false,
        }
    }

    pub fn is_red_three(self) -> (b: bool)
        ensures
            b == self.spec_is_red_three(),
    {
        match self {
            Card::Regular(Rank::Three, s) => s.color() == Color::Red,
            _ => false,
        }
    }

    /// A card may join the book of `rank` when it is wild or of that rank.
    pub open spec fn matches_rank(self, rank: Rank) -> bool {
        self.spec_is_wild() || self.spec_rank() == Some(rank)
    }
}

/// Total point value of a sequence of cards.
pub open spec fn points_of(s: Seq<Card>) -> int
    decreases s.len(),
{
    if s.len() == 0 {
        0
    } else {
        points_of(s.drop_last()) + s.last().spec_points()
    }
}

/// Number of wild cards in a sequence of cards.
pub open spec fn wilds_in(s: Seq<Card>) -> int
    decreases s.len(),
{
    if s.len() == 0 {
        0
    } else {
        wilds_in(s.drop_last()) + if s.last().spec_is_wild() {
            1int
        } else {
            0int
        }
    }
}

/// Number of red Threes in a sequence of cards.
pub open spec fn red_threes_in(s: Seq<Card>) -> int
    decreases s.len(),
{
    if s.len() == 0 {
        0
    } else {
        red_threes_in(s.drop_last()) + if s.last().spec_is_red_three() {
            1int
        } else {
            0int
        }
    }
}

/// Number of regular cards of rank `r` in a sequence of cards.
pub open spec fn of_rank_in(s: Seq<Card>, r: Rank) -> int
    decreases s.len(),
{
    if s.len() == 0 {
        0
    } else {
        of_rank_in(s.drop_last(), r) + if s.last().spec_rank() == Some(r) {
            1int
        } else {
            0int
        }
    }
}

/// Every card of the sequence is wild or of rank `r`.
pub open spec fn all_match_rank(s: Seq<Card>, r: Rank) -> bool {
    forall|i: int| 0 <= i < s.len() ==> #[trigger] s[i].matches_rank(r)
}

pub proof fn lemma_points_push(s: Seq<Card>, c: Card)
    ensures
        points_of(s.push(c)) == points_of(s) + c.spec_points(),
{
    assert(s.push(c).drop_last() =~= s);
}

pub proof fn lemma_points_bounds(s: Seq<Card>)
    ensures
        0 <= points_of(s) <= 100 * s.len(),
    decreases s.len(),
{
    if s.len() > 0 {
        lemma_points_bounds(s.drop_last());
    }
}

pub proof fn lemma_wilds_push(s: Seq<Card>, c: Card)
    ensures
        wilds_in(s.push(c)) == wilds_in(s) + if c.spec_is_wild() {
            1int
        } else {
            0int
        },
{
    assert(s.push(c).drop_last() =~= s);
}

pub proof fn lemma_wilds_concat(a: Seq<Card>, b: Seq<Card>)
    ensures
        wilds_in(a + b) == wilds_in(a) + wilds_in(b),
    decreases b.len(),
{
    if b.len() == 0 {
        assert(a + b =~= a);
    } else {
        lemma_wilds_concat(a, b.drop_last());
        assert((a + b).drop_last() =~= a + b.drop_last());
    }
}

pub proof fn lemma_wilds_bounds(s: Seq<Card>)
    ensures
        0 <= wilds_in(s) <= s.len(),
    decreases s.len(),
{
    if s.len() > 0 {
        lemma_wilds_bounds(s.drop_last());
    }
}

pub proof fn lemma_red_threes_none(s: Seq<Card>)
    requires
        forall|i: int| 0 <= i < s.len() ==> !(#[trigger] s[i].spec_is_red_three()),
    ensures
        red_threes_in(s) == 0,
    decreases s.len(),
{
    if s.len() > 0 {
        lemma_red_threes_none(s.drop_last());
    }
}


pub proof fn lemma_red_threes_remove(s: Seq<Card>, i: int)
    requires
        0 <= i < s.len(),
    ensures
        red_threes_in(s.remove(i)) == red_threes_in(s) - if s[i].spec_is_red_three() {
            1int
        } else {
            0int
        },
    decreases s.len(),
{
    let t = s.remove(i);
    if i == s.len() - 1 {
        assert(t =~= s.drop_last());
    } else {
        assert(t.drop_last() =~= s.drop_last().remove(i));
        assert(t.last() == s.last());
        lemma_red_threes_remove(s.drop_last(), i);
    }
}


pub proof fn lemma_red_threes_concat(a: Seq<Card>, b: Seq<Card>)
    ensures
        red_threes_in(a + b) == red_threes_in(a) + red_threes_in(b),
    decreases b.len(),
{
    if b.len() == 0 {
        assert(a + b =~= a);
    } else {
        lemma_red_threes_concat(a, b.drop_last());
        assert((a + b).drop_last() =~= a + b.drop_last());
    }
}

pub proof fn lemma_red_threes_drop_first(s: Seq<Card>)
    requires
        s.len() > 0,
    ensures
        red_threes_in(s) == red_threes_in(s.drop_first()) + if s[0].spec_is_red_three() {
            1int
        } else {
            0int
        },
    decreases s.len(),
{
    if s.len() > 1 {
        lemma_red_threes_drop_first(s.drop_last());
        assert(s.drop_last().drop_first() =~= s.drop_first().drop_last());
        assert(s.drop_first().last() == s.last());
    } else {
        assert(red_threes_in(s.drop_last()) == 0);
        assert(red_threes_in(s.drop_first()) == 0);
        assert(s.last() == s[0]);
    }
}

/// The order of the cards does not matter to the count of red Threes.
pub proof fn lemma_red_threes_reverse(s: Seq<Card>)
    ensures
        red_threes_in(s.reverse()) == red_threes_in(s),
    decreases s.len(),
{
    if s.len() > 0 {
        lemma_red_threes_reverse(s.drop_first());
        assert(s.reverse().drop_last() =~= s.drop_first().reverse());
        assert(s.reverse().last() == s[0]);
        lemma_red_threes_drop_first(s);
    }
}

pub proof fn lemma_of_rank_push(s: Seq<Card>, c: Card, r: Rank)
    ensures
        of_rank_in(s.push(c), r) == of_rank_in(s, r) + if c.spec_rank() == Some(r) {
            1int
        } else {
            0int
        },
{
    assert(s.push(c).drop_last() =~= s);
}

pub proof fn lemma_take_push(s: Seq<Card>, i: int)
    requires
        0 <= i < s.len(),
    ensures
        s.take(i + 1) =~= s.take(i).push(s[i]),
{
}

/// Count the wild cards of a pile.
pub fn count_wilds(v: &Vec<Card>) -> (n: usize)
    ensures
        n == wilds_in(v@),
{
    let mut n: usize = 0;
    let mut i: usize = 0;
    proof {
        assert(v@.take(0) =~= Seq::<Card>::empty());
    }
    while i < v.len()
        invariant
            i <= v@.len(),
            n == wilds_in(v@.take(i as int)),
            n <= i,
        decreases v@.len() - i,
    {
        proof {
            lemma_take_push(v@, i as int);
            lemma_wilds_push(v@.take(i as int), v@[i as int]);
        }
        if v[i].is_wild() {
            n = n + 1;
        }
        i = i + 1;
    }
    proof {
        assert(v@.take(v@.len() as int) =~= v@);
    }
    n
}

/// Total point value of a pile, computed wide enough that it cannot overflow.
pub fn points_total(v: &Vec<Card>) -> (n: u128)
    ensures
        n == points_of(v@),
{
    let mut n: u128 = 0;
    let mut i: usize = 0;
    proof {
        assert(v@.take(0) =~= Seq::<Card>::empty());
    }
    while i < v.len()
        invariant
            i <= v@.len(),
            n == points_of(v@.take(i as int)),
            n <= 100 * i,
        decreases v@.len() - i,
    {
        proof {
            lemma_take_push(v@, i as int);
            lemma_points_push(v@.take(i as int), v@[i as int]);
        }
        n = n + v[i].points() as u128;
        i = i + 1;
    }
    proof {
        assert(v@.take(v@.len() as int) =~= v@);
    }
    n
}

} // verus!
