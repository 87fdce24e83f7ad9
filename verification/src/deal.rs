//! Reading a deal: eighty characters, two for each of the forty cards,
//! dealt five to a column.

use vstd::prelude::*;
use crate::board::{Decks, DecksView};
use crate::card::Card;

verus! {

/// Why a deal was refused.
#[derive(Clone, Copy, Debug, PartialEq, Eq, Structural)]
pub enum DealErr {
    /// The text is not eighty characters long.
    Length,
    /// Some pair of characters names no card.
    Token,
    /// The cards named are not exactly the forty cards of the deck.
    Deck,
}

/// The card that a pair of characters names, if any. The first character
/// gives the suit of a numbered card, the kind of a special card, or the
/// bonus card; for a numbered card the second is its rank, a digit from 1
/// to 9, and for the others it is not read.
pub open spec fn token_card(first: char, second: char) -> Option<Card> {
    if first == 'r' || first == 'g' || first == 'b' {
        if '1' <= second <= '9' {
            let suit: u8 = if first == 'r' {
                0
            } else if first == 'g' {
                1
            } else {
                2
            };
            Some(Card::Num(suit, (second as u8 - 48) as u8))
        } else {
            None
        }
    } else if first == 'z' {
        Some(Card::Spec(0))
    } else if first == 'f' {
        Some(Card::Spec(1))
    } else if first == 'm' {
        Some(Card::Spec(2))
    } else if first == 'l' {
        Some(Card::Flower)
    } else {
        None
    }
}

/// The card that the `i`-th pair of a text names, if any.
pub open spec fn token_at(text: Seq<char>, i: int) -> Option<Card> {
    token_card(text[2 * i], text[2 * i + 1])
}

/// Every one of the forty pairs names a card.
pub open spec fn all_tokens_known(text: Seq<char>) -> bool {
    forall|i: int| 0 <= i < 40 ==> (#[trigger] token_at(text, i)) is Some
}

/// The forty cards that a text names, in order.
pub open spec fn deal_cards(text: Seq<char>) -> Seq<Card> {
    Seq::new(40, |i: int| token_at(text, i)->Some_0)
}

/// How many copies of a card the deck holds.
pub open spec fn copies(c: Card) -> nat {
    match c {
        Card::Flower => 1,
        Card::Num(suit, rank) => if suit < 3 && 1 <= rank <= 9 {
            1
        } else {
            0
        },
        Card::Spec(kind) => if kind < 3 {
            4
        } else {
            0
        },
        _ => 0,
    }
}

/// The cards are exactly those of the deck: one bonus card, each rank of
/// each suit once, each special kind four times, and nothing else.
pub open spec fn full_deck(cards: Seq<Card>) -> bool {
    forall|c: Card| cards.to_multiset().count(c) == copies(c)
}

/// The column that a deal gives to place `i`: the marker, then cards
/// `5i` to `5i + 4`.
pub open spec fn dealt_column(cards: Seq<Card>, i: int) -> Seq<Card> {
    seq![Card::Empty] + cards.subrange(5 * i, 5 * i + 5)
}

/// The board as dealt: five cards on each column, free cells, nothing
/// collected.
pub open spec fn dealt(cards: Seq<Card>) -> DecksView {
    DecksView {
        foundations: seq![0u8, 0u8, 0u8],
        columns: Seq::new(8, |i: int| dealt_column(cards, i)),
        cells: seq![Card::Empty, Card::Empty, Card::Empty],
    }
}

/// The place of a playable card among the thirty-one different cards.
pub open spec fn slot(c: Card) -> int {
    match c {
        Card::Flower => 0,
        Card::Spec(kind) => 1 + kind,
        Card::Num(suit, rank) => 4 + 9 * suit + (rank - 1),
        _ => 31,
    }
}

/// The characters of a text, in a vector.
fn chars_of(text: &str) -> (v: Vec<char>)
    ensures
        v@ == text@,
{
    let mut v: Vec<char> = Vec::new();
    for c in it: text.chars()
        invariant
            it.seq() == text@,
            v@ == it.seq().take(it.index() as int),
    {
        v.push(c);
        assert(it.seq().take(it.index() + 1) =~= it.seq().take(it.index() as int).push(c));
    }
    assert(v@ =~= text@);
    v
}

/// Reads one pair of characters.
pub fn read_token(first: char, second: char) -> (card: Option<Card>)
    ensures
        card == token_card(first, second),
        card matches Some(c) ==> c.playable(),
{
    if first == 'r' || first == 'g' || first == 'b' {
        if '1' <= second && second <= '9' {
            let suit: u8 = if first == 'r' {
                0
            } else if first == 'g' {
                1
            } else {
                2
            };
            Some(Card::Num(suit, (second as u8) - 48))
        } else {
            None
        }
    } else if first == 'z' {
        Some(Card::Spec(0))
    } else if first == 'f' {
        Some(Card::Spec(1))
    } else if first == 'm' {
        Some(Card::Spec(2))
    } else if first == 'l' {
        Some(Card::Flower)
    } else {
        None
    }
}

/// The playable card that stands at a place below 31.
pub open spec fn card_in_slot(j: int) -> Card {
    if j == 0 {
        Card::Flower
    } else if j < 4 {
        Card::Spec((j - 1) as u8)
    } else {
        Card::Num(((j - 4) / 9) as u8, ((j - 4) % 9 + 1) as u8)
    }
}

/// Places and playable cards correspond one to one.
proof fn lemma_slots(c: Card)
    ensures
        c.playable() ==> 0 <= slot(c) < 31 && card_in_slot(slot(c)) == c,
        !c.playable() ==> copies(c) == 0,
        c.playable() ==> copies(c) == (if 1 <= slot(c) < 4 { 4nat } else { 1nat }),
{
}

/// Each place below 31 holds a playable card.
proof fn lemma_card_in_slot(j: int)
    requires
        0 <= j < 31,
    ensures
        card_in_slot(j).playable(),
        slot(card_in_slot(j)) == j,
{
}

/// The place of a card, if it is playable.
fn slot_of(c: Card) -> (place: Option<usize>)
    ensures
        c.playable() ==> place == Some(slot(c) as usize),
        !c.playable() ==> place.is_none(),
{
    match c {
        Card::Flower => Some(0),
        Card::Spec(kind) => if kind < 3 {
            Some(1 + kind as usize)
        } else {
            None
        },
        Card::Num(suit, rank) => if suit < 3 && 1 <= rank && rank <= 9 {
            Some(4 + 9 * (suit as usize) + (rank as usize - 1))
        } else {
            None
        },
        _ => None,
    }
}

/// Tells whether the cards are exactly those of the deck.
pub fn is_full_deck(cards: &Vec<Card>) -> (ok: bool)
    ensures
        ok == full_deck(cards@),
{
    let mut counts: [usize; 31] = [0usize; 31];
    proof {
        assert forall|c: Card| cards@.take(0).to_multiset().count(c) == 0 by {
            vstd::seq_lib::to_multiset_contains(cards@.take(0), c);
        }
    }
    for idx in 0..cards.len()
        invariant
            forall|i: int| 0 <= i < idx ==> (#[trigger] cards@[i]).playable(),
            forall|j: int|
                0 <= j < 31 ==> #[trigger] counts@[j] == cards@.take(
                    idx as int,
                ).to_multiset().count(card_in_slot(j)),
            forall|j: int| 0 <= j < 31 ==> #[trigger] counts@[j] <= idx,
    {
        let card = cards[idx];
        let ghost seen = cards@.take(idx as int);
        proof {
            broadcast use vstd::multiset::group_multiset_axioms;

            assert(cards@.take(idx + 1) =~= seen.push(card));
            vstd::seq_lib::to_multiset_build(seen, card);
            lemma_slots(card);
        }
        match slot_of(card) {
            Some(place) => {
                counts[place] += 1;
                proof {
                    assert forall|j: int| 0 <= j < 31 implies #[trigger] counts@[j] == cards@.take(
                        idx + 1,
                    ).to_multiset().count(card_in_slot(j)) by {
                        lemma_card_in_slot(j);
                    }
                }
            },
            None => {
                proof {
                    assert(cards@.contains(card));
                    vstd::seq_lib::to_multiset_contains(cards@, card);
                }
                return false;
            },
        }
    }
    assert(cards@.take(cards.len() as int) =~= cards@);
    for j in 0..31usize
        invariant
            forall|i: int| 0 <= i < cards.len() ==> (#[trigger] cards@[i]).playable(),
            forall|j: int|
                0 <= j < 31 ==> #[trigger] counts@[j] == cards@.to_multiset().count(
                    card_in_slot(j),
                ),
            forall|k: int|
                0 <= k < j ==> #[trigger] counts@[k] == copies(card_in_slot(k)),
    {
        let expected: usize = if 1 <= j && j < 4 {
            4
        } else {
            1
        };
        proof {
            lemma_card_in_slot(j as int);
            lemma_slots(card_in_slot(j as int));
        }
        if counts[j] != expected {
            return false;
        }
    }
    proof {
        assert forall|c: Card| cards@.to_multiset().count(c) == copies(c) by {
            lemma_slots(c);
            if c.playable() {
                assert(counts@[slot(c)] == copies(card_in_slot(slot(c))));
            } else {
                vstd::seq_lib::to_multiset_contains(cards@, c);
                if cards@.contains(c) {
                    let i = choose|i: int| 0 <= i < cards@.len() && cards@[i] == c;
                    assert(cards@[i].playable());
                }
            }
        }
    }
    true
}

/// Forty playable cards deal to a well-formed board.
pub proof fn lemma_dealt_wf(cards: Seq<Card>)
    requires
        cards.len() == 40,
        forall|i: int| 0 <= i < 40 ==> (#[trigger] cards[i]).playable(),
    ensures
        dealt(cards).wf(),
{
    let b = dealt(cards);
    assert forall|i: int| 0 <= i < 8 implies DecksView::column_wf(#[trigger] b.columns[i]) by {
        let col = b.columns[i];
        assert(col.len() == 6);
        assert forall|k: int| 1 <= k < col.len() implies (#[trigger] col[k]).playable() by {
            assert(col[k] == cards[5 * i + k - 1]);
        }
    }
    assert(b.columns[0].len() == 6 && b.columns[1].len() == 6 && b.columns[2].len() == 6
        && b.columns[3].len() == 6 && b.columns[4].len() == 6 && b.columns[5].len() == 6
        && b.columns[6].len() == 6 && b.columns[7].len() == 6);
}

impl Decks {
    /// Reads a deal and lays it out: five cards on each of the eight
    /// columns, in the order of the text. Refuses a text of another length
    /// than eighty, one with a pair of characters that names no card, and
    /// one whose cards are not exactly the deck.
    pub fn new(cards: String) -> (res: Result<Decks, DealErr>)
        ensures
            cards@.len() != 80 ==> res == Err::<Decks, DealErr>(DealErr::Length),
            cards@.len() == 80 && !all_tokens_known(cards@) ==> res == Err::<Decks, DealErr>(
                DealErr::Token,
            ),
            cards@.len() == 80 && all_tokens_known(cards@) && !full_deck(deal_cards(cards@))
                ==> res == Err::<Decks, DealErr>(DealErr::Deck),
            cards@.len() == 80 && all_tokens_known(cards@) && full_deck(deal_cards(cards@))
                ==> res is Ok && res->Ok_0@ == dealt(deal_cards(cards@)) && res->Ok_0.wf(),
    {
        let text = chars_of(cards.as_str());
        if text.len() != 80 {
            return Err(DealErr::Length);
        }
        let mut parsed: Vec<Card> = Vec::new();
        for idx in 0..40usize
            invariant
                text@ == cards@,
                text@.len() == 80,
                parsed@.len() == idx,
                forall|i: int| 0 <= i < idx ==> token_at(text@, i) == Some(#[trigger] parsed@[i]),
                forall|i: int| 0 <= i < idx ==> (#[trigger] parsed@[i]).playable(),
        {
            match read_token(text[2 * idx], text[2 * idx + 1]) {
                Some(card) => {
                    parsed.push(card);
                },
                None => {
                    assert(token_at(text@, idx as int) is None);
                    return Err(DealErr::Token);
                },
            }
        }
        assert(all_tokens_known(text@)) by {
            assert forall|i: int| 0 <= i < 40 implies (#[trigger] token_at(text@, i)) is Some by {
                assert(token_at(text@, i) == Some(parsed@[i]));
            }
        }
        assert(parsed@ =~= deal_cards(text@)) by {
            assert forall|i: int| 0 <= i < 40 implies parsed@[i] == deal_cards(text@)[i] by {
                assert(token_at(text@, i) == Some(parsed@[i]));
            }
        }
        if !is_full_deck(&parsed) {
            return Err(DealErr::Deck);
        }
        let mut decks = Decks::new_empty();
        for col in 0..8usize
            invariant
                parsed@.len() == 40,
                decks.storage@ == seq![Card::Empty, Card::Empty, Card::Empty],
                decks.rev_cards@ == seq![0u8, 0u8, 0u8],
                forall|i: int| 0 <= i < col ==> (#[trigger] decks.stks@[i])@ == dealt_column(
                    parsed@,
                    i,
                ),
                forall|i: int| col <= i < 8 ==> (#[trigger] decks.stks@[i])@ == seq![Card::Empty],
        {
            for k in 0..5usize
                invariant
                    col < 8,
                    parsed@.len() == 40,
                    decks.storage@ == seq![Card::Empty, Card::Empty, Card::Empty],
                    decks.rev_cards@ == seq![0u8, 0u8, 0u8],
                    forall|i: int| 0 <= i < col ==> (#[trigger] decks.stks@[i])@ == dealt_column(
                        parsed@,
                        i,
                    ),
                    forall|i: int|
                        col < i < 8 ==> (#[trigger] decks.stks@[i])@ == seq![Card::Empty],
                    decks.stks@[col as int]@ == seq![Card::Empty] + parsed@.subrange(
                        5 * col,
                        5 * col + k,
                    ),
            {
                decks.stks[col].push(parsed[5 * col + k]);
                assert(parsed@.subrange(5 * col, 5 * col + k + 1) =~= parsed@.subrange(
                    5 * col,
                    5 * col + k,
                ).push(parsed@[5 * col + k]));
            }
        }
        proof {
            lemma_dealt_wf(parsed@);
            assert(decks@.columns =~= dealt(parsed@).columns);
        }
        Ok(decks)
    }
}

} // verus!
