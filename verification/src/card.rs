//! Suits, ranks, cards with their visibility, and the decks they come from.

use vstd::prelude::*;

verus! {

/// One of the four suits.
#[derive(Debug, Clone, Copy, PartialEq, Eq, Hash, Structural)]
pub enum Suit {
    Clubs,
    Diamonds,
    Hearts,
    Spades,
}

impl Suit {
    /// Position of the suit in the order clubs, diamonds, hearts, spades.
    pub open spec fn spec_index(self) -> u8 {
        match self {
            Suit::Clubs => 0,
            Suit::Diamonds => 1,
            Suit::Hearts => 2,
            Suit::Spades => 3,
        }
    }

    #[verifier::when_used_as_spec(spec_index)]
    pub fn index(self) -> (i: u8)
        ensures
            i == self.spec_index(),
            i < 4,
    {
        match self {
            Suit::Clubs => 0,
            Suit::Diamonds => 1,
            Suit::Hearts => 2,
            Suit::Spades => 3,
        }
    }
}

/// Card ranks, lowest first. A higher rank beats a lower one of the same suit.
#[derive(Debug, Clone, Copy, PartialEq, Eq, Hash, PartialOrd, Ord, Structural)]
pub enum Rank {
    Two,
    Three,
    Four,
    Five,
    Six,
    Seven,
    Eight,
    Nine,
    Ten,
    Jack,
    Queen,
    King,
    Ace,
}

impl Rank {
    /// Face value of the rank: 2 for a two up to 14 for an ace.
    pub open spec fn spec_value(self) -> u8 {
        match self {
            Rank::Two => 2,
            Rank::Three => 3,
            Rank::Four => 4,
            Rank::Five => 5,
            Rank::Six => 6,
            Rank::Seven => 7,
            Rank::Eight => 8,
            Rank::Nine => 9,
            Rank::Ten => 10,
            Rank::Jack => 11,
            Rank::Queen => 12,
            Rank::King => 13,
            Rank::Ace => 14,
        }
    }

    #[verifier::when_used_as_spec(spec_value)]
    pub fn value(self) -> (v: u8)
        ensures
            v == self.spec_value(),
            2 <= v <= 14,
    {
        match self {
            Rank::Two => 2,
            Rank::Three => 3,
            Rank::Four => 4,
            Rank::Five => 5,
            Rank::Six => 6,
            Rank::Seven => 7,
            Rank::Eight => 8,
            Rank::Nine => 9,
            Rank::Ten => 10,
            Rank::Jack => 11,
            Rank::Queen => 12,
            Rank::King => 13,
            Rank::Ace => 14,
        }
    }

    /// The rank with face value `v`; values outside 2..=14 are read as an ace.
    pub open spec fn spec_from_value(v: u8) -> Rank {
        if v == 2 {
            Rank::Two
        } else if v == 3 {
            Rank::Three
        } else if v == 4 {
            Rank::Four
        } else if v == 5 {
            Rank::Five
        } else if v == 6 {
            Rank::Six
        } else if v == 7 {
            Rank::Seven
        } else if v == 8 {
            Rank::Eight
        } else if v == 9 {
            Rank::Nine
        } else if v == 10 {
            Rank::Ten
        } else if v == 11 {
            Rank::Jack
        } else if v == 12 {
            Rank::Queen
        } else if v == 13 {
            Rank::King
        } else {
            Rank::Ace
        }
    }

    #[verifier::when_used_as_spec(spec_from_value)]
    pub fn from_value(v: u8) -> (r: Rank)
        ensures
            r == Rank::spec_from_value(v),
            2 <= v <= 14 ==> r.spec_value() == v,
    {
        if v == 2 {
            Rank::Two
        } else if v == 3 {
            Rank::Three
        } else if v == 4 {
            Rank::Four
        } else if v == 5 {
            Rank::Five
        } else if v == 6 {
            Rank::Six
        } else if v == 7 {
            Rank::Seven
        } else if v == 8 {
            Rank::Eight
        } else if v == 9 {
            Rank::Nine
        } else if v == 10 {
            Rank::Ten
        } else if v == 11 {
            Rank::Jack
        } else if v == 12 {
            Rank::Queen
        } else if v == 13 {
            Rank::King
        } else {
            Rank::Ace
        }
    }
}

/// A card together with who knows what it is.
#[derive(Debug, Clone, Copy, PartialEq, Eq, Hash, Structural)]
pub enum Card {
    /// Everyone knows this card (played cards, the trump card).
    Public { suit: Suit, rank: Rank },
    /// Only the holder knows this card.
    Private { suit: Suit, rank: Rank },
    /// No one knows this card (an opponent's card in a manually entered game).
    Unknown,
}

impl Card {
    /// True when the card has a suit and a rank, that is when it is not `Unknown`.
    pub open spec fn known(self) -> bool {
        !(self is Unknown)
    }

    /// The suit of a known card. Of an unknown card the value means nothing.
    pub open spec fn spec_suit(self) -> Suit {
        match self {
            Card::Public { suit, .. } => suit,
            Card::Private { suit, .. } => suit,
            Card::Unknown => Suit::Clubs,
        }
    }

    /// The rank of a known card. Of an unknown card the value means nothing.
    pub open spec fn spec_rank(self) -> Rank {
        match self {
            Card::Public { rank, .. } => rank,
            Card::Private { rank, .. } => rank,
            Card::Unknown => Rank::Two,
        }
    }

    /// `self` beats `other` when it has the same suit and a strictly higher
    /// rank, or when it is a trump and `other` is not.
    pub open spec fn spec_beats(self, other: Card, trump: Suit) -> bool {
        ||| self.spec_suit() == other.spec_suit() && self.spec_rank().spec_value()
            > other.spec_rank().spec_value()
        ||| self.spec_suit() == trump && other.spec_suit() != trump
    }

    /// Two cards match when both are known and have the same suit and rank.
    /// An unknown card matches nothing, not even another unknown card.
    pub open spec fn spec_matches(self, other: Card) -> bool {
        &&& self.known()
        &&& other.known()
        &&& self.spec_suit() == other.spec_suit()
        &&& self.spec_rank() == other.spec_rank()
    }

    /// The same suit and rank, known to everyone.
    pub open spec fn spec_as_public(self) -> Card {
        Card::Public { suit: self.spec_suit(), rank: self.spec_rank() }
    }

    /// The same suit and rank, known to the holder only.
    pub open spec fn spec_as_private(self) -> Card {
        Card::Private { suit: self.spec_suit(), rank: self.spec_rank() }
    }

    pub fn public(suit: Suit, rank: Rank) -> (c: Card)
        ensures
            c == (Card::Public { suit, rank }),
    {
        Card::Public { suit, rank }
    }

    pub fn private(suit: Suit, rank: Rank) -> (c: Card)
        ensures
            c == (Card::Private { suit, rank }),
    {
        Card::Private { suit, rank }
    }

    pub fn suit(&self) -> (s: Suit)
        requires
            self.known(),
        ensures
            s == self.spec_suit(),
    {
        match self {
            Card::Public { suit, .. } => *suit,
            Card::Private { suit, .. } => *suit,
            Card::Unknown => Suit::Clubs,
        }
    }

    pub fn rank(&self) -> (r: Rank)
        requires
            self.known(),
        ensures
            r == self.spec_rank(),
    {
        match self {
            Card::Public { rank, .. } => *rank,
            Card::Private { rank, .. } => *rank,
            Card::Unknown => Rank::Two,
        }
    }

    pub fn is_public(&self) -> (b: bool)
        ensures
            b == (self is Public),
    {
        matches!(self, Card::Public { .. })
    }

    pub fn is_private(&self) -> (b: bool)
        ensures
            b == (self is Private),
    {
        matches!(self, Card::Private { .. })
    }

    pub fn is_unknown(&self) -> (b: bool)
        ensures
            b == (self is Unknown),
    {
        matches!(self, Card::Unknown)
    }

    pub fn beats(&self, other: &Card, trump: Suit) -> (b: bool)
        requires
            self.known(),
            other.known(),
        ensures
            b == self.spec_beats(*other, trump),
    {
        if self.suit() == other.suit() {
            return self.rank().value() > other.rank().value();
        }
        self.suit() == trump && other.suit() != trump
    }

    pub fn matches(&self, other: &Card) -> (b: bool)
        ensures
            b == self.spec_matches(*other),
    {
        match (self, other) {
            (Card::Unknown, _) => false,
            (_, Card::Unknown) => false,
            _ => self.suit() == other.suit() && self.rank() == other.rank(),
        }
    }

    /// The same card, known to everyone.
    pub fn as_public(&self) -> (c: Card)
        requires
            self.known(),
        ensures
            c == self.spec_as_public(),
    {
        Card::Public { suit: self.suit(), rank: self.rank() }
    }

    /// The same card, known to its holder only.
    pub fn as_private(&self) -> (c: Card)
        requires
            self.known(),
        ensures
            c == self.spec_as_private(),
    {
        Card::Private { suit: self.suit(), rank: self.rank() }
    }
}

/// Face value of the lowest rank in a deck of `size` cards. Sizes other than
/// 32, 36, 40, 44, 48 and 52 give the ranks of the 36-card deck.
pub open spec fn lowest_rank_value(size: usize) -> u8 {
    if size == 32 {
        7
    } else if size == 40 {
        5
    } else if size == 44 {
        4
    } else if size == 48 {
        3
    } else if size == 52 {
        2
    } else {
        6
    }
}

/// The cards of one suit from the rank of value `lowest` up to the ace, all private.
pub open spec fn suit_run(suit: Suit, lowest: u8) -> Seq<Card> {
    Seq::new(
        (15 - lowest) as nat,
        |k: int| Card::Private { suit, rank: Rank::spec_from_value((lowest + k) as u8) },
    )
}

/// The deck of `size` cards: clubs, diamonds, hearts, spades, each suit in
/// rising rank, every card private.
pub open spec fn deck_cards(size: usize) -> Seq<Card> {
    let lowest = lowest_rank_value(size);
    suit_run(Suit::Clubs, lowest) + suit_run(Suit::Diamonds, lowest) + suit_run(
        Suit::Hearts,
        lowest,
    ) + suit_run(Suit::Spades, lowest)
}

fn push_suit_run(out: &mut Vec<Card>, suit: Suit, lowest: u8)
    requires
        2 <= lowest <= 14,
    ensures
        final(out)@ == old(out)@ + suit_run(suit, lowest),
{
    let mut v: u8 = lowest;
    while v <= 14
        invariant
            lowest <= v <= 15,
            out@ == old(out)@ + suit_run(suit, lowest).take(v - lowest),
        decreases 15 - v,
    {
        out.push(Card::private(suit, Rank::from_value(v)));
        v = v + 1;
    }
    assert(suit_run(suit, lowest).take(15 - lowest) == suit_run(suit, lowest));
}

pub fn full_deck(size: usize) -> (deck: Vec<Card>)
    ensures
        deck@ == deck_cards(size),
{
    let lowest: u8 = if size == 32 {
        7
    } else if size == 40 {
        5
    } else if size == 44 {
        4
    } else if size == 48 {
        3
    } else if size == 52 {
        2
    } else {
        6
    };
    let mut out: Vec<Card> = Vec::new();
    push_suit_run(&mut out, Suit::Clubs, lowest);
    push_suit_run(&mut out, Suit::Diamonds, lowest);
    push_suit_run(&mut out, Suit::Hearts, lowest);
    push_suit_run(&mut out, Suit::Spades, lowest);
    out
}

/// Every card of a deck is private, so known.
pub proof fn lemma_deck_cards_known(size: usize, i: int)
    requires
        0 <= i < deck_cards(size).len(),
    ensures
        deck_cards(size)[i] is Private,
{
}

} // verus!
