//! Counting the numbered cards of each suit. However cards are moved and
//! collected, the cards of a suit on the board and in its foundation stay
//! as many as they were.

use vstd::prelude::*;
use crate::alike::alike;
use crate::board::DecksView;
use crate::card::Card;
use crate::collect::lemma_exposed_wf;
use crate::fingerprint::occurrences;
use crate::moves::COLUMN;
use crate::settle::{lemma_collect_step, lemma_first_collectable};

verus! {

/// 1 for a numbered card of the suit, 0 for any other card.
pub open spec fn of_suit(c: Card, suit: u8) -> int {
    match c {
        Card::Num(s, _) => if s == suit {
            1
        } else {
            0
        },
        _ => 0,
    }
}

/// The number of numbered cards of a suit in a run of cards.
pub open spec fn suit_cards(cards: Seq<Card>, suit: u8) -> int
    decreases cards.len(),
{
    if cards.len() == 0 {
        0
    } else {
        suit_cards(cards.drop_last(), suit) + of_suit(cards.last(), suit)
    }
}

impl DecksView {
    /// The number of cards of a suit on the board and in its foundation
    /// together.
    pub open spec fn suit_total(self, suit: u8) -> int {
        self.foundations[suit as int] + suit_cards(self.columns[0], suit) + suit_cards(
            self.columns[1],
            suit,
        ) + suit_cards(self.columns[2], suit) + suit_cards(self.columns[3], suit) + suit_cards(
            self.columns[4],
            suit,
        ) + suit_cards(self.columns[5], suit) + suit_cards(self.columns[6], suit) + suit_cards(
            self.columns[7],
            suit,
        ) + of_suit(self.cells[0], suit) + of_suit(self.cells[1], suit) + of_suit(
            self.cells[2],
            suit,
        )
    }

    /// The two boards hold, for each suit, as many cards of it.
    pub open spec fn same_totals(self, other: DecksView) -> bool {
        forall|suit: u8| suit < 3 ==> #[trigger] self.suit_total(suit) == other.suit_total(suit)
    }
}

/// A run with one more card on top holds one more card of the suit if
/// that card is of the suit.
pub proof fn lemma_suit_cards_push(cards: Seq<Card>, c: Card, suit: u8)
    ensures
        suit_cards(cards.push(c), suit) == suit_cards(cards, suit) + of_suit(c, suit),
{
    assert(cards.push(c).drop_last() =~= cards);
}

/// Two runs one after the other hold the cards of both.
pub proof fn lemma_suit_cards_add(x: Seq<Card>, y: Seq<Card>, suit: u8)
    ensures
        suit_cards(x + y, suit) == suit_cards(x, suit) + suit_cards(y, suit),
    decreases y.len(),
{
    if y.len() == 0 {
        assert(x + y =~= x);
    } else {
        assert((x + y).drop_last() =~= x + y.drop_last());
        lemma_suit_cards_add(x, y.drop_last(), suit);
    }
}

/// A run cut in two holds what its parts hold.
pub proof fn lemma_suit_cards_split(x: Seq<Card>, at: int, suit: u8)
    requires
        0 <= at <= x.len(),
    ensures
        suit_cards(x, suit) == suit_cards(x.take(at), suit) + suit_cards(x.skip(at), suit),
{
    assert(x.take(at) + x.skip(at) =~= x);
    lemma_suit_cards_add(x.take(at), x.skip(at), suit);
}

/// Moving cards keeps the number of cards of each suit.
pub proof fn lemma_relocated_totals(b: DecksView, from: (u8, u8, u8), to: (u8, u8))
    requires
        b.wf(),
        b.can_relocate(from, to),
    ensures
        b.relocated(from, to).same_totals(b),
{
    let after = b.relocated(from, to);
    assert forall|suit: u8| suit < 3 implies #[trigger] after.suit_total(suit) == b.suit_total(
        suit,
    ) by {
        if from.0 == COLUMN && to.0 == COLUMN {
            let src = b.columns[from.1 as int];
            let dst = b.columns[to.1 as int];
            lemma_suit_cards_split(src, from.2 as int, suit);
            lemma_suit_cards_add(dst, src.skip(from.2 as int), suit);
        } else if from.0 == COLUMN {
            let src = b.columns[from.1 as int];
            assert(DecksView::column_wf(src));
            lemma_suit_cards_push(src.drop_last(), src.last(), suit);
            assert(src.drop_last().push(src.last()) =~= src);
        } else {
            lemma_suit_cards_push(b.columns[to.1 as int], b.cells[from.1 as int], suit);
        }
    }
}

/// Sending a card to its foundation keeps the number of cards of each
/// suit: the foundation counts the card that left the board.
pub proof fn lemma_collected_totals(b: DecksView, from: (u8, u8))
    requires
        b.wf(),
        b.collectable(from),
    ensures
        b.collected(from).same_totals(b),
{
    lemma_exposed_wf(b, from);
    let after = b.collected(from);
    assert forall|suit: u8| suit < 3 implies #[trigger] after.suit_total(suit) == b.suit_total(
        suit,
    ) by {
        if from.0 == COLUMN {
            let src = b.columns[from.1 as int];
            assert(DecksView::column_wf(src));
            lemma_suit_cards_push(src.drop_last(), src.last(), suit);
            assert(src.drop_last().push(src.last()) =~= src);
        }
    }
}

/// Locking a group of special cards keeps the number of cards of each
/// suit: no numbered card is touched.
pub proof fn lemma_locked_totals(b: DecksView, kind: u8)
    requires
        b.wf(),
        b.eligible(kind),
    ensures
        b.locked(kind).same_totals(b),
{
    let after = b.locked(kind);
    assert forall|suit: u8| suit < 3 implies #[trigger] after.suit_total(suit) == b.suit_total(
        suit,
    ) by {
        assert forall|i: int| 0 <= i < 8 implies suit_cards(#[trigger] after.columns[i], suit)
            == suit_cards(b.columns[i], suit) by {
            let col = b.columns[i];
            assert(DecksView::column_wf(col));
            if col.last() == Card::Spec(kind) {
                lemma_suit_cards_push(col.drop_last(), col.last(), suit);
                assert(col.drop_last().push(col.last()) =~= col);
            }
        }
        assert(suit_cards(after.columns[0], suit) == suit_cards(b.columns[0], suit));
        assert(suit_cards(after.columns[1], suit) == suit_cards(b.columns[1], suit));
        assert(suit_cards(after.columns[2], suit) == suit_cards(b.columns[2], suit));
        assert(suit_cards(after.columns[3], suit) == suit_cards(b.columns[3], suit));
        assert(suit_cards(after.columns[4], suit) == suit_cards(b.columns[4], suit));
        assert(suit_cards(after.columns[5], suit) == suit_cards(b.columns[5], suit));
        assert(suit_cards(after.columns[6], suit) == suit_cards(b.columns[6], suit));
        assert(suit_cards(after.columns[7], suit) == suit_cards(b.columns[7], suit));
    }
}

/// Settling a board keeps the number of cards of each suit.
pub proof fn lemma_settled_totals(b: DecksView)
    requires
        b.wf(),
    ensures
        b.settled().same_totals(b),
    decreases b.loose_cards(),
{
    if !b.at_rest() {
        lemma_collect_step(b);
        let next = b.collect_step();
        match b.first_collectable(0) {
            Some(site) => {
                lemma_first_collectable(b, 0);
                lemma_collected_totals(b, site);
            },
            None => {
                lemma_locked_totals(b, b.scan_result().1);
            },
        }
        lemma_settled_totals(next);
        assert forall|suit: u8| suit < 3 implies #[trigger] b.settled().suit_total(suit)
            == b.suit_total(suit) by {
            assert(next.settled().suit_total(suit) == next.suit_total(suit));
            assert(next.suit_total(suit) == b.suit_total(suit));
        }
    }
}

/// Two well-formed boards with the same columns, the same cards in their
/// cells and as many cards of each suit are alike: their foundations
/// stand alike too.
pub proof fn lemma_alike_from_totals(a: DecksView, b: DecksView)
    requires
        a.wf(),
        b.wf(),
        a.columns == b.columns,
        forall|x: Card| #[trigger] occurrences(a.cells, x) == occurrences(b.cells, x),
        a.same_totals(b),
    ensures
        alike(a, b),
{
    assert forall|suit: u8| suit < 3 implies a.foundations[suit as int]
        == b.foundations[suit as int] by {
        assert(a.suit_total(suit) == b.suit_total(suit));
        assert(occurrences(a.cells, a.cells[0]) == occurrences(b.cells, a.cells[0]));
        assert(occurrences(a.cells, a.cells[1]) == occurrences(b.cells, a.cells[1]));
        assert(occurrences(a.cells, a.cells[2]) == occurrences(b.cells, a.cells[2]));
        assert(occurrences(a.cells, b.cells[0]) == occurrences(b.cells, b.cells[0]));
        assert(occurrences(a.cells, b.cells[1]) == occurrences(b.cells, b.cells[1]));
        assert(occurrences(a.cells, b.cells[2]) == occurrences(b.cells, b.cells[2]));
    }
    assert(a.foundations[0] == b.foundations[0]);
    assert(a.foundations[1] == b.foundations[1]);
    assert(a.foundations[2] == b.foundations[2]);
    assert(a.foundations =~= b.foundations);
}

} // verus!
