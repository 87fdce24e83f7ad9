//! The board: eight columns, three free cells and three foundation
//! counters, with the rules for moving and collecting cards.

use vstd::prelude::*;
use crate::card::Card;

verus! {

/// Why a requested move or collection was refused.
#[derive(Clone, Copy, Debug, PartialEq, Eq, Structural)]
pub enum MoveErr {
    /// The move breaks the stacking rule, names a site that does not exist,
    /// or goes from a cell to a cell.
    CantMove,
}

/// The state of a game.
#[derive(Debug, PartialEq)]
pub struct Decks {
    /// Per suit, the highest rank already collected (0 when none is).
    pub rev_cards: [u8; 3],
    /// The columns, bottom first. Each starts with the empty marker.
    pub stks: [Vec<Card>; 8],
    /// The free cells. The empty marker stands for a free one.
    pub storage: [Card; 3],
}

/// The mathematical value of a board.
pub struct DecksView {
    pub foundations: Seq<u8>,
    pub columns: Seq<Seq<Card>>,
    pub cells: Seq<Card>,
}

impl View for Decks {
    type V = DecksView;

    open spec fn view(&self) -> DecksView {
        DecksView {
            foundations: self.rev_cards@,
            columns: Seq::new(8, |i: int| self.stks@[i]@),
            cells: self.storage@,
        }
    }
}

/// How many cards a cell's content stands for: a locked cell holds a group
/// of four.
pub open spec fn cell_weight(c: Card) -> int {
    match c {
        Card::Empty => 0,
        Card::Disable => 4,
        _ => 1,
    }
}

/// 1 for a playable card, 0 for a marker.
pub open spec fn loose(c: Card) -> int {
    if c == Card::Empty || c == Card::Disable {
        0
    } else {
        1
    }
}

impl DecksView {
    /// A column is the empty marker followed by playable cards only.
    pub open spec fn column_wf(col: Seq<Card>) -> bool {
        &&& col.len() >= 1
        &&& col[0] == Card::Empty
        &&& forall|k: int| 1 <= k < col.len() ==> (#[trigger] col[k]).playable()
    }

    /// The number of cards on the board and in the foundations together.
    pub open spec fn card_total(self) -> int {
        (self.columns[0].len() - 1) + (self.columns[1].len() - 1) + (self.columns[2].len() - 1)
            + (self.columns[3].len() - 1) + (self.columns[4].len() - 1) + (self.columns[5].len()
            - 1) + (self.columns[6].len() - 1) + (self.columns[7].len() - 1) + cell_weight(
            self.cells[0],
        ) + cell_weight(self.cells[1]) + cell_weight(self.cells[2]) + self.foundations[0]
            + self.foundations[1] + self.foundations[2]
    }

    /// The number of cards that lie loose on the board: those above the
    /// markers of the columns and those in the cells.
    pub open spec fn loose_cards(self) -> int {
        (self.columns[0].len() - 1) + (self.columns[1].len() - 1) + (self.columns[2].len() - 1)
            + (self.columns[3].len() - 1) + (self.columns[4].len() - 1) + (self.columns[5].len()
            - 1) + (self.columns[6].len() - 1) + (self.columns[7].len() - 1) + loose(
            self.cells[0],
        ) + loose(self.cells[1]) + loose(self.cells[2])
    }

    /// The shape every board keeps: three counters up to 9, eight
    /// well-formed columns, three cells holding a well-formed card or a
    /// marker, and no more than the forty cards of one deck.
    pub open spec fn wf(self) -> bool {
        &&& self.foundations.len() == 3
        &&& forall|s: int| 0 <= s < 3 ==> (#[trigger] self.foundations[s]) <= 9
        &&& self.columns.len() == 8
        &&& forall|i: int| 0 <= i < 8 ==> Self::column_wf(#[trigger] self.columns[i])
        &&& self.cells.len() == 3
        &&& forall|i: int| 0 <= i < 3 ==> (#[trigger] self.cells[i]).wf()
        &&& self.card_total() <= 40
    }

    /// Some cell is free.
    pub open spec fn has_empty_cell(self) -> bool {
        exists|i: int| 0 <= i < 3 && #[trigger] self.cells[i] == Card::Empty
    }

    /// The board with no card on it and nothing collected.
    pub open spec fn empty() -> DecksView {
        DecksView {
            foundations: seq![0u8, 0u8, 0u8],
            columns: Seq::new(8, |i: int| seq![Card::Empty]),
            cells: seq![Card::Empty, Card::Empty, Card::Empty],
        }
    }
}

impl Decks {
    /// The board is well-formed.
    pub open spec fn wf(&self) -> bool {
        self@.wf()
    }

    /// Makes the board with no card on it: eight columns holding only their
    /// marker, three free cells, nothing collected.
    pub fn new_empty() -> (decks: Decks)
        ensures
            decks@ == DecksView::empty(),
            decks.wf(),
    {
        let mut stks: [Vec<Card>; 8] = [
            Vec::new(),
            Vec::new(),
            Vec::new(),
            Vec::new(),
            Vec::new(),
            Vec::new(),
            Vec::new(),
            Vec::new(),
        ];
        for idx in 0..8usize
            invariant
                forall|j: int| 0 <= j < idx ==> (#[trigger] stks@[j])@ == seq![Card::Empty],
                forall|j: int| idx <= j < 8 ==> (#[trigger] stks@[j])@ == Seq::<Card>::empty(),
        {
            stks[idx].push(Card::Empty);
        }
        let rev_cards: [u8; 3] = [0, 0, 0];
        let storage: [Card; 3] = [Card::Empty; 3];
        let decks = Decks { stks, storage, rev_cards };
        assert(decks@.columns =~= DecksView::empty().columns);
        assert(decks@.cells =~= DecksView::empty().cells);
        assert(decks@.foundations =~= DecksView::empty().foundations);
        decks
    }

    /// Tells whether some cell is free.
    pub fn storage_has_empty(&self) -> (free: bool)
        ensures
            free == self@.has_empty_cell(),
    {
        for idx in 0..3usize
            invariant
                forall|j: int| 0 <= j < idx ==> (#[trigger] self.storage@[j]) != Card::Empty,
        {
            if self.storage[idx] == Card::Empty {
                return true;
            }
        }
        false
    }

    /// Tells whether the board is well-formed. A board made by `new_empty`
    /// or `new` and changed only through the methods of this type always
    /// is; one whose fields were written directly may not be.
    pub fn is_well_formed(&self) -> (ok: bool)
        ensures
            ok == self.wf(),
    {
        for s in 0..3usize
            invariant
                forall|i: int| 0 <= i < s ==> (#[trigger] self@.foundations[i]) <= 9,
        {
            if self.rev_cards[s] > 9 {
                assert(self@.foundations[s as int] > 9);
                return false;
            }
        }
        for i in 0..3usize
            invariant
                forall|j: int| 0 <= j < i ==> (#[trigger] self@.cells[j]).wf(),
        {
            if !self.storage[i].is_wf() {
                assert(!self@.cells[i as int].wf());
                return false;
            }
        }
        for col in 0..8usize
            invariant
                forall|j: int|
                    0 <= j < col ==> DecksView::column_wf(#[trigger] self@.columns[j])
                        && self@.columns[j].len() <= 41,
        {
            let column = &self.stks[col];
            if column.len() == 0 || column.len() > 41 {
                proof {
                    if self.wf() {
                        lemma_column_bounded(self@, col as int);
                    }
                }
                return false;
            }
            if column[0] != Card::Empty {
                assert(!DecksView::column_wf(self@.columns[col as int]));
                return false;
            }
            for k in 1..column.len()
                invariant
                    col < 8,
                    column@ == self@.columns[col as int],
                    forall|j: int| 1 <= j < k ==> (#[trigger] column@[j]).playable(),
            {
                if !column[k].is_playable() {
                    assert(!self@.columns[col as int][k as int].playable());
                    assert(!DecksView::column_wf(self@.columns[col as int]));
                    return false;
                }
            }
        }
        proof {
            lemma_column_bounds(self@);
        }
        let on_columns: usize = (self.stks[0].len() - 1) + (self.stks[1].len() - 1) + (
        self.stks[2].len() - 1) + (self.stks[3].len() - 1) + (self.stks[4].len() - 1) + (
        self.stks[5].len() - 1) + (self.stks[6].len() - 1) + (self.stks[7].len() - 1);
        let in_cells: usize = weight_of(self.storage[0]) + weight_of(self.storage[1]) + weight_of(
            self.storage[2],
        );
        let collected: usize = self.rev_cards[0] as usize + self.rev_cards[1] as usize
            + self.rev_cards[2] as usize;
        on_columns + in_cells + collected <= 40
    }
}

/// Computes `cell_weight`.
fn weight_of(c: Card) -> (weight: usize)
    ensures
        weight == cell_weight(c),
{
    match c {
        Card::Empty => 0,
        Card::Disable => 4,
        _ => 1,
    }
}

/// The lengths of well-formed columns, one by one.
proof fn lemma_column_bounds(b: DecksView)
    requires
        forall|j: int|
            0 <= j < 8 ==> DecksView::column_wf(#[trigger] b.columns[j]) && b.columns[j].len()
                <= 41,
    ensures
        1 <= b.columns[0].len() <= 41,
        1 <= b.columns[1].len() <= 41,
        1 <= b.columns[2].len() <= 41,
        1 <= b.columns[3].len() <= 41,
        1 <= b.columns[4].len() <= 41,
        1 <= b.columns[5].len() <= 41,
        1 <= b.columns[6].len() <= 41,
        1 <= b.columns[7].len() <= 41,
{
    assert(DecksView::column_wf(b.columns[0]));
    assert(DecksView::column_wf(b.columns[1]));
    assert(DecksView::column_wf(b.columns[2]));
    assert(DecksView::column_wf(b.columns[3]));
    assert(DecksView::column_wf(b.columns[4]));
    assert(DecksView::column_wf(b.columns[5]));
    assert(DecksView::column_wf(b.columns[6]));
    assert(DecksView::column_wf(b.columns[7]));
}

/// No column of a well-formed board holds more than the forty cards and
/// its marker.
pub proof fn lemma_column_bounded(b: DecksView, i: int)
    requires
        b.wf(),
        0 <= i < 8,
    ensures
        1 <= b.columns[i].len() <= 41,
{
    assert(forall|j: int| 0 <= j < 8 ==> DecksView::column_wf(#[trigger] b.columns[j]));
    assert(DecksView::column_wf(b.columns[0]));
    assert(DecksView::column_wf(b.columns[1]));
    assert(DecksView::column_wf(b.columns[2]));
    assert(DecksView::column_wf(b.columns[3]));
    assert(DecksView::column_wf(b.columns[4]));
    assert(DecksView::column_wf(b.columns[5]));
    assert(DecksView::column_wf(b.columns[6]));
    assert(DecksView::column_wf(b.columns[7]));
}

} // verus!
