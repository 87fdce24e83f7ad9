//! The card type, its stacking rule and its one-character encoding.

use vstd::prelude::*;

verus! {

/// One card of the deck, or one of the two markers that can occupy a site.
///
/// The variants are declared in the order in which cards compare: the bonus
/// card first, then numbered cards by suit and rank, then special cards by
/// kind, then the two markers.
#[derive(Clone, Copy, Debug, PartialEq, Eq, PartialOrd, Ord, Structural)]
pub enum Card {
    /// The single bonus card.
    Flower,
    /// A numbered card: suit (0, 1 or 2), then rank (1 to 9).
    Num(u8, u8),
    /// A special card of the given kind (0, 1 or 2); four of each exist.
    Spec(u8),
    /// Marks the bottom of a column or a free cell. Never a playable card.
    Empty,
    /// Marks a cell that holds a collected group of four special cards.
    Disable,
}

impl Card {
    /// The card is one a deck can contain or a marker: suits and kinds are
    /// below 3 and ranks run from 1 to 9.
    pub open spec fn wf(self) -> bool {
        match self {
            Card::Num(suit, rank) => suit < 3 && 1 <= rank <= 9,
            Card::Spec(kind) => kind < 3,
            _ => true,
        }
    }

    /// The card is one of the forty cards that are dealt and moved.
    pub open spec fn playable(self) -> bool {
        self.wf() && self != Card::Empty && self != Card::Disable
    }

    /// The stacking rule: anything goes onto the empty marker; a numbered
    /// card goes onto a numbered card of another suit whose suit index equals
    /// the moving card's rank; nothing else is allowed.
    pub open spec fn spec_can_move_front_of(self, target: Card) -> bool {
        match (target, self) {
            (Card::Empty, _) => true,
            (Card::Num(tar_suit, _), Card::Num(suit, rank)) => tar_suit != suit && tar_suit == rank,
            _ => false,
        }
    }

    /// The symbol that stands for a numbered card of the given suit and
    /// rank: one keyboard row per suit, one key per rank.
    pub open spec fn rank_symbols(suit: u8) -> Seq<char> {
        if suit == 0 {
            seq!['1', '2', '3', '4', '5', '6', '7', '8', '9']
        } else if suit == 1 {
            seq!['q', 'w', 'e', 'r', 't', 'y', 'u', 'i', 'o']
        } else {
            seq!['a', 's', 'd', 'f', 'g', 'h', 'j', 'k', 'l']
        }
    }

    /// The symbols of the three special kinds.
    pub open spec fn kind_symbols() -> Seq<char> {
        seq!['z', 'x', 'c']
    }

    /// The one-character encoding of a card.
    pub open spec fn spec_into_char(self) -> char {
        match self {
            Card::Num(suit, rank) => Self::rank_symbols(suit)[rank - 1],
            Card::Spec(kind) => Self::kind_symbols()[kind as int],
            Card::Flower => 'v',
            Card::Empty => 'b',
            Card::Disable => 'n',
        }
    }

    /// Where a card stands in the total order of cards. Smaller keys come
    /// first: the bonus card, numbered cards by suit then rank, special
    /// cards by kind, the empty marker, the locked marker.
    pub open spec fn order_key(self) -> int {
        match self {
            Card::Flower => 0,
            Card::Num(suit, rank) => 1 + 256 * suit + rank,
            Card::Spec(kind) => 65537 + kind,
            Card::Empty => 65793,
            Card::Disable => 65794,
        }
    }

    /// Computes `order_key`.
    pub fn sort_key(&self) -> (key: u32)
        ensures
            key == self.order_key(),
    {
        match *self {
            Card::Flower => 0,
            Card::Num(suit, rank) => 1 + 256 * (suit as u32) + (rank as u32),
            Card::Spec(kind) => 65537 + (kind as u32),
            Card::Empty => 65793,
            Card::Disable => 65794,
        }
    }

    /// Encodes the card as one character.
    pub fn into_char(&self) -> (symbol: char)
        requires
            self.wf(),
        ensures
            symbol == self.spec_into_char(),
    {
        match *self {
            Card::Num(suit, rank) => {
                let row: [char; 9] = if suit == 0 {
                    ['1', '2', '3', '4', '5', '6', '7', '8', '9']
                } else if suit == 1 {
                    ['q', 'w', 'e', 'r', 't', 'y', 'u', 'i', 'o']
                } else {
                    ['a', 's', 'd', 'f', 'g', 'h', 'j', 'k', 'l']
                };
                row[(rank - 1) as usize]
            },
            Card::Spec(kind) => {
                let row: [char; 3] = ['z', 'x', 'c'];
                row[kind as usize]
            },
            Card::Flower => 'v',
            Card::Empty => 'b',
            Card::Disable => 'n',
        }
    }

    /// Tells whether the card is well-formed.
    pub fn is_wf(&self) -> (ok: bool)
        ensures
            ok == self.wf(),
    {
        match *self {
            Card::Num(suit, rank) => suit < 3 && 1 <= rank && rank <= 9,
            Card::Spec(kind) => kind < 3,
            _ => true,
        }
    }

    /// Tells whether the card is one that is dealt and moved.
    pub fn is_playable(&self) -> (ok: bool)
        ensures
            ok == self.playable(),
    {
        self.is_wf() && *self != Card::Empty && *self != Card::Disable
    }

    /// Decides whether `self` may be placed directly on top of `target_card`.
    pub fn can_move_front_of(&self, target_card: &Card) -> (ok: bool)
        ensures
            ok == self.spec_can_move_front_of(*target_card),
    {
        match (*target_card, *self) {
            (Card::Empty, _) => true,
            (Card::Num(tar_suit, _), Card::Num(suit, rank)) => tar_suit != suit && tar_suit == rank,
            _ => false,
        }
    }
}

/// Every card, whatever it is, may be placed on the empty marker.
pub proof fn lemma_any_card_moves_onto_empty(c: Card)
    ensures
        c.spec_can_move_front_of(Card::Empty),
{
}

/// The encoding is injective on well-formed cards: two such cards with the
/// same symbol are the same card.
pub proof fn lemma_into_char_injective(a: Card, b: Card)
    requires
        a.wf(),
        b.wf(),
        a.spec_into_char() == b.spec_into_char(),
    ensures
        a == b,
{
}

/// No well-formed card is encoded as the column separator.
pub proof fn lemma_into_char_not_separator(a: Card)
    requires
        a.wf(),
    ensures
        a.spec_into_char() != ';',
{
}

/// The order key is injective: the order on cards is total and strict.
pub proof fn lemma_order_key_injective(a: Card, b: Card)
    requires
        a.order_key() == b.order_key(),
    ensures
        a == b,
{
}

} // verus!
