//! A rules engine for a partnership rummy card game: a Canasta variant with
//! rounds that raise the first-meld threshold, red-Three bonuses, a hidden
//! reserve ("foot") hand, and a lockable discard pile. The engine validates
//! every player action — drawing, melding into per-rank books, picking up the
//! discard pile, discarding, and the foot transition — and scores a round.

pub mod cards;
pub mod deck;
pub mod game;
pub mod pile;
pub mod player;
