//! The fixed game: five ranked cards, five betting moves, two players.

use std::cmp::Ordering;
use vstd::prelude::*;
use vstd::std_specs::cmp::PartialOrdSpecImpl;

verus! {

/// A playing card. Cards are ordered by rank, `Ten` lowest and `Ace` highest.
#[derive(Copy, Clone, Debug, PartialEq, Eq, Structural, Ord, Hash)]
pub enum Card {
    Ten,
    Jack,
    Queen,
    King,
    Ace,
}

/// Number of cards in a deck.
pub const NUM_CARDS: usize = 5;

impl Card {
    /// Position of the card in the rank order, from 0 (`Ten`) to 4 (`Ace`).
    pub open spec fn rank(self) -> int {
        match self {
            Card::Ten => 0,
            Card::Jack => 1,
            Card::Queen => 2,
            Card::King => 3,
            Card::Ace => 4,
        }
    }

    fn rank_value(self) -> (r: u8)
        ensures
            r == self.rank(),
    {
        match self {
            Card::Ten => 0,
            Card::Jack => 1,
            Card::Queen => 2,
            Card::King => 3,
            Card::Ace => 4,
        }
    }
}

impl PartialOrd for Card {
    fn partial_cmp(&self, other: &Card) -> (r: Option<Ordering>) {
        let a: u8 = self.rank_value();
        let b: u8 = other.rank_value();
        if a < b {
            Some(Ordering::Less)
        } else if a == b {
            Some(Ordering::Equal)
        } else {
            Some(Ordering::Greater)
        }
    }
}

impl PartialOrdSpecImpl for Card {
    open spec fn obeys_partial_cmp_spec() -> bool {
        true
    }

    open spec fn partial_cmp_spec(&self, other: &Card) -> Option<Ordering> {
        if self.rank() < other.rank() {
            Some(Ordering::Less)
        } else if self.rank() == other.rank() {
            Some(Ordering::Equal)
        } else {
            Some(Ordering::Greater)
        }
    }
}

/// A betting action.
#[derive(Copy, Clone, Debug, PartialEq, Eq, Structural, Hash)]
pub enum Move {
    Check,
    Bet,
    Call,
    Raise,
    Fold,
}

/// One of the two players. `Player0` acts first.
#[derive(Copy, Clone, Debug, PartialEq, Eq, Structural, Hash)]
pub enum Player {
    Player0,
    Player1,
}

impl Player {
    /// The opponent of this player.
    pub open spec fn other(self) -> Player {
        match self {
            Player::Player0 => Player::Player1,
            Player::Player1 => Player::Player0,
        }
    }

    /// Index in the deck of the card dealt to this player.
    pub open spec fn seat(self) -> int {
        match self {
            Player::Player0 => 0,
            Player::Player1 => 1,
        }
    }
}

/// The player who holds the higher of the two dealt cards; `Player1` when
/// neither card is higher than the other.
pub open spec fn winner_of(deck: Seq<Card>) -> Player {
    if deck[0].rank() > deck[1].rank() {
        Player::Player0
    } else {
        Player::Player1
    }
}

/// Returns the opponent of `p`.
pub fn other_player(p: Player) -> (q: Player)
    ensures
        q == p.other(),
{
    match p {
        Player::Player0 => Player::Player1,
        Player::Player1 => Player::Player0,
    }
}

/// Returns the card dealt to `p`: the first card of the deck for `Player0`,
/// the second for `Player1`.
pub fn get_player_card(p: Player, deck: &[Card; NUM_CARDS]) -> (c: Card)
    ensures
        c == deck@[p.seat()],
{
    match p {
        Player::Player0 => deck[0],
        Player::Player1 => deck[1],
    }
}

/// Returns the player whose card wins a showdown.
pub fn winning_player(deck: &[Card; NUM_CARDS]) -> (w: Player)
    ensures
        w == winner_of(deck@),
{
    let card0 = get_player_card(Player::Player0, deck);
    let card1 = get_player_card(Player::Player1, deck);
    if card0 > card1 {
        Player::Player0
    } else {
        Player::Player1
    }
}

} // verus!
