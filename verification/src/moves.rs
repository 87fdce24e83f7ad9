//! Finding the sites a card may go to, moving cards, and taking a move back.

use vstd::prelude::*;
use crate::board::{cell_weight, lemma_column_bounded, Decks, DecksView, MoveErr};
use crate::card::Card;

verus! {

/// The kind of site that is a column.
pub const COLUMN: u8 = 0;

/// The kind of site that is a cell.
pub const CELL: u8 = 1;

/// The third entry of a way back that leads out of a cell: it names no
/// position, since a cell holds one card.
pub const NO_INDEX: u8 = 233;

impl DecksView {
    /// The card a position names: a card in a column, the content of a
    /// cell, or the empty marker for any other kind of site.
    pub open spec fn card_at(self, pos: (u8, u8, u8)) -> Card {
        if pos.0 == COLUMN {
            self.columns[pos.1 as int][pos.2 as int]
        } else if pos.0 == CELL {
            self.cells[pos.1 as int]
        } else {
            Card::Empty
        }
    }

    /// The position names a card that exists: a column below 8 and an index
    /// inside it, or a cell below 3. Other kinds of site name no card and
    /// are read as the empty marker.
    pub open spec fn readable(self, pos: (u8, u8, u8)) -> bool {
        &&& pos.0 == COLUMN ==> pos.1 < 8 && pos.2 < self.columns[pos.1 as int].len()
        &&& pos.0 == CELL ==> pos.1 < 3
    }

    /// The card that a move to `to` would land on: the top of a column or
    /// the content of a cell.
    pub open spec fn target_card(self, to: (u8, u8)) -> Card {
        if to.0 == COLUMN {
            self.columns[to.1 as int].last()
        } else {
            self.cells[to.1 as int]
        }
    }

    /// The cards can be taken from `from` and put at `to`, whatever the
    /// stacking rule says: both sites exist and differ; out of a column
    /// comes the run from a position above the marker to the top; into a
    /// cell goes only the top card of a column, and only while the cell is
    /// free; out of a cell comes only a playable card; no card goes from
    /// cell to cell.
    pub open spec fn can_relocate(self, from: (u8, u8, u8), to: (u8, u8)) -> bool {
        if from.0 == COLUMN && to.0 == COLUMN {
            from.1 < 8 && to.1 < 8 && from.1 != to.1 && 1 <= from.2
                < self.columns[from.1 as int].len()
        } else if from.0 == COLUMN && to.0 == CELL {
            from.1 < 8 && to.1 < 3 && 1 <= from.2 && from.2 + 1
                == self.columns[from.1 as int].len() && self.cells[to.1 as int] == Card::Empty
        } else if from.0 == CELL && to.0 == COLUMN {
            from.1 < 3 && to.1 < 8 && self.cells[from.1 as int].playable()
        } else {
            false
        }
    }

    /// The board after the cards at `from` have been put at `to`.
    pub open spec fn relocated(self, from: (u8, u8, u8), to: (u8, u8)) -> DecksView {
        if from.0 == COLUMN && to.0 == COLUMN {
            let src = self.columns[from.1 as int];
            let dst = self.columns[to.1 as int];
            DecksView {
                columns: self.columns.update(from.1 as int, src.take(from.2 as int)).update(
                    to.1 as int,
                    dst + src.skip(from.2 as int),
                ),
                ..self
            }
        } else if from.0 == COLUMN {
            let src = self.columns[from.1 as int];
            DecksView {
                columns: self.columns.update(from.1 as int, src.drop_last()),
                cells: self.cells.update(to.1 as int, src.last()),
                ..self
            }
        } else {
            let dst = self.columns[to.1 as int];
            DecksView {
                columns: self.columns.update(to.1 as int, dst.push(self.cells[from.1 as int])),
                cells: self.cells.update(from.1 as int, Card::Empty),
                ..self
            }
        }
    }

    /// The way back of a move: where the moved cards now are, and where
    /// they came from.
    pub open spec fn way_back(self, from: (u8, u8, u8), to: (u8, u8)) -> (
        (u8, u8, u8),
        (u8, u8),
    ) {
        if to.0 == COLUMN {
            ((to.0, to.1, self.columns[to.1 as int].len() as u8), (from.0, from.1))
        } else {
            ((to.0, to.1, NO_INDEX), (from.0, from.1))
        }
    }

    /// The move is legal: the cards can be relocated and the card at `from`
    /// may be placed on what `to` now shows.
    pub open spec fn legal_move(self, from: (u8, u8, u8), to: (u8, u8)) -> bool {
        self.can_relocate(from, to) && self.card_at(from).spec_can_move_front_of(
            self.target_card(to),
        )
    }

    /// The columns below `n`, in order, on whose top `card` may be placed,
    /// leaving out column `own`.
    pub open spec fn column_targets(self, card: Card, own: int, n: int) -> Seq<(u8, u8)>
        decreases n,
    {
        if n <= 0 {
            Seq::empty()
        } else {
            let rest = self.column_targets(card, own, n - 1);
            if n - 1 != own && card.spec_can_move_front_of(self.columns[n - 1].last()) {
                rest.push((COLUMN, (n - 1) as u8))
            } else {
                rest
            }
        }
    }

    /// The cells below `n`, in order, onto whose content `card` may be
    /// placed.
    pub open spec fn cell_targets(self, card: Card, n: int) -> Seq<(u8, u8)>
        decreases n,
    {
        if n <= 0 {
            Seq::empty()
        } else {
            let rest = self.cell_targets(card, n - 1);
            if card.spec_can_move_front_of(self.cells[n - 1]) {
                rest.push((CELL, (n - 1) as u8))
            } else {
                rest
            }
        }
    }

    /// Every site the card at `pos` may go to: first the columns other than
    /// its own, then, unless it comes from a cell, the cells.
    pub open spec fn destinations(self, pos: (u8, u8, u8)) -> Seq<(u8, u8)> {
        let card = self.card_at(pos);
        let own = if pos.0 == COLUMN { pos.1 as int } else { -1 };
        if pos.0 == CELL {
            self.column_targets(card, own, 8)
        } else {
            self.column_targets(card, own, 8) + self.cell_targets(card, 3)
        }
    }
}

impl Decks {
    /// Lists the sites to which the card at `pos` may move, columns first.
    pub fn seek_possible_move(&self, pos: (u8, u8, u8)) -> (res: Vec<(u8, u8)>)
        requires
            self.wf(),
            self@.readable(pos),
        ensures
            res@ == self@.destinations(pos),
    {
        let mut res: Vec<(u8, u8)> = Vec::new();
        let now_card: Card = if pos.0 == COLUMN {
            self.stks[pos.1 as usize][pos.2 as usize]
        } else if pos.0 == CELL {
            self.storage[pos.1 as usize]
        } else {
            Card::Empty
        };
        let ghost own: int = if pos.0 == COLUMN { pos.1 as int } else { -1 };
        assert(now_card == self@.card_at(pos));
        for idx in 0..8u8
            invariant
                self.wf(),
                own == (if pos.0 == COLUMN { pos.1 as int } else { -1 }),
                res@ == self@.column_targets(now_card, own, idx as int),
        {
            let skip = pos.1 == idx && pos.0 == COLUMN;
            let column = &self.stks[idx as usize];
            assert(DecksView::column_wf(self@.columns[idx as int]));
            let last_card = column[column.len() - 1];
            if !skip && now_card.can_move_front_of(&last_card) {
                res.push((COLUMN, idx));
            }
        }
        if pos.0 == CELL {
            return res;
        }
        let ghost cols = res@;
        for idx in 0..3u8
            invariant
                res@ == cols + self@.cell_targets(now_card, idx as int),
        {
            let last_card = self.storage[idx as usize];
            if now_card.can_move_front_of(&last_card) {
                res.push((CELL, idx));
            }
        }
        res
    }

    /// Tells whether the cards at `from` can be put at `to`, the stacking
    /// rule aside.
    pub fn relocatable(&self, from: (u8, u8, u8), to: (u8, u8)) -> (ok: bool)
        requires
            self.wf(),
        ensures
            ok == self@.can_relocate(from, to),
    {
        if from.0 == COLUMN && to.0 == COLUMN {
            from.1 < 8 && to.1 < 8 && from.1 != to.1 && 1 <= from.2 && (from.2 as usize)
                < self.stks[from.1 as usize].len()
        } else if from.0 == COLUMN && to.0 == CELL {
            from.1 < 8 && to.1 < 3 && 1 <= from.2 && from.2 as usize + 1
                == self.stks[from.1 as usize].len() && self.storage[to.1 as usize] == Card::Empty
        } else if from.0 == CELL && to.0 == COLUMN {
            if from.1 < 3 && to.1 < 8 {
                let held = self.storage[from.1 as usize];
                assert(self@.cells[from.1 as int].wf());
                held != Card::Empty && held != Card::Disable
            } else {
                false
            }
        } else {
            false
        }
    }

    /// Puts the cards at `from` at `to` and returns the way back.
    fn relocate(&mut self, from: (u8, u8, u8), to: (u8, u8)) -> (back: ((u8, u8, u8), (u8, u8)))
        requires
            old(self).wf(),
            old(self)@.can_relocate(from, to),
        ensures
            final(self)@ == old(self)@.relocated(from, to),
            final(self).wf(),
            back == old(self)@.way_back(from, to),
    {
        let ghost before = self@;
        proof {
            lemma_relocated_wf(before, from, to);
        }
        let back = if from.0 == COLUMN && to.0 == COLUMN {
            let fidx = self.stks[to.1 as usize].len();
            let mut run = self.stks[from.1 as usize].split_off(from.2 as usize);
            self.stks[to.1 as usize].append(&mut run);
            ((to.0, to.1, fidx as u8), (from.0, from.1))
        } else if from.0 == COLUMN {
            assert(DecksView::column_wf(before.columns[from.1 as int]));
            let top = self.stks[from.1 as usize].pop();
            let card = match top {
                Some(card) => card,
                None => Card::Empty,
            };
            self.storage[to.1 as usize] = card;
            ((to.0, to.1, NO_INDEX), (from.0, from.1))
        } else {
            let fidx = self.stks[to.1 as usize].len();
            let card = self.storage[from.1 as usize];
            self.stks[to.1 as usize].push(card);
            self.storage[from.1 as usize] = Card::Empty;
            ((to.0, to.1, fidx as u8), (from.0, from.1))
        };
        assert(self@.columns =~= before.relocated(from, to).columns);
        assert(self@.cells =~= before.relocated(from, to).cells);
        assert(self@.foundations =~= before.foundations);
        back
    }

    /// Moves the cards at `from` to `to` if the move is legal, and returns
    /// the way back; refuses any other move and leaves the board as it was.
    pub fn try_to_move(&mut self, from: (u8, u8, u8), to: (u8, u8)) -> (res: Result<
        ((u8, u8, u8), (u8, u8)),
        MoveErr,
    >)
        requires
            old(self).wf(),
        ensures
            final(self).wf(),
            old(self)@.legal_move(from, to) ==> res == Ok::<((u8, u8, u8), (u8, u8)), MoveErr>(
                old(self)@.way_back(from, to),
            ) && final(self)@ == old(self)@.relocated(from, to),
            !old(self)@.legal_move(from, to) ==> res == Err::<((u8, u8, u8), (u8, u8)), MoveErr>(
                MoveErr::CantMove,
            ) && *final(self) == *old(self),
    {
        if !self.relocatable(from, to) {
            return Err(MoveErr::CantMove);
        }
        let moving = if from.0 == COLUMN {
            self.stks[from.1 as usize][from.2 as usize]
        } else {
            self.storage[from.1 as usize]
        };
        let target = if to.0 == COLUMN {
            let column = &self.stks[to.1 as usize];
            assert(DecksView::column_wf(self@.columns[to.1 as int]));
            column[column.len() - 1]
        } else {
            self.storage[to.1 as usize]
        };
        if !moving.can_move_front_of(&target) {
            return Err(MoveErr::CantMove);
        }
        Ok(self.relocate(from, to))
    }

    /// Takes a move back: puts the cards that `back.0` names at `back.1`,
    /// without asking the stacking rule. Refuses, and leaves the board as it
    /// was, when the cards cannot be relocated so.
    pub fn undo_move(&mut self, back: ((u8, u8, u8), (u8, u8))) -> (res: Result<(), MoveErr>)
        requires
            old(self).wf(),
        ensures
            final(self).wf(),
            old(self)@.can_relocate(back.0, back.1) ==> res == Ok::<(), MoveErr>(())
                && final(self)@ == old(self)@.relocated(back.0, back.1),
            !old(self)@.can_relocate(back.0, back.1) ==> res == Err::<(), MoveErr>(
                MoveErr::CantMove,
            ) && *final(self) == *old(self),
    {
        if !self.relocatable(back.0, back.1) {
            return Err(MoveErr::CantMove);
        }
        let _ = self.relocate(back.0, back.1);
        Ok(())
    }
}

/// Taking back a legal move restores the board: after a legal move from
/// `from` to `to`, the way back can be relocated, and relocating it gives
/// the board from before the move, with the same canonical string.
pub proof fn lemma_undo_restores(b: DecksView, from: (u8, u8, u8), to: (u8, u8))
    requires
        b.wf(),
        b.legal_move(from, to),
    ensures
        b.relocated(from, to).can_relocate(b.way_back(from, to).0, b.way_back(from, to).1),
        b.relocated(from, to).relocated(b.way_back(from, to).0, b.way_back(from, to).1) == b,
        b.relocated(from, to).relocated(
            b.way_back(from, to).0,
            b.way_back(from, to).1,
        ).fingerprint() == b.fingerprint(),
{
    let after = b.relocated(from, to);
    let back = b.way_back(from, to);
    assert(DecksView::column_wf(b.columns[to.1 as int])) by {
        if to.0 == COLUMN {
            assert(DecksView::column_wf(b.columns[to.1 as int]));
        }
    }
    assert(DecksView::column_wf(b.columns[from.1 as int])) by {
        if from.0 == COLUMN {
            assert(DecksView::column_wf(b.columns[from.1 as int]));
        }
    }
    if to.0 == COLUMN {
        assert(b.columns[to.1 as int].len() <= 41) by {
            lemma_column_bounded(b, to.1 as int);
        }
    }
    let restored = after.relocated(back.0, back.1);
    assert(restored.columns =~~= b.columns);
    assert(restored.cells =~= b.cells);
}

/// Relocating cards keeps the board well-formed and neither makes nor
/// loses a card.
pub proof fn lemma_relocated_wf(b: DecksView, from: (u8, u8, u8), to: (u8, u8))
    requires
        b.wf(),
        b.can_relocate(from, to),
    ensures
        b.relocated(from, to).wf(),
        b.relocated(from, to).card_total() == b.card_total(),
{
    let after = b.relocated(from, to);
    assert(DecksView::column_wf(b.columns[from.1 as int])) by {
        if from.0 == COLUMN {
            assert(DecksView::column_wf(b.columns[from.1 as int]));
        }
    }
    assert(DecksView::column_wf(b.columns[to.1 as int])) by {
        if to.0 == COLUMN {
            assert(DecksView::column_wf(b.columns[to.1 as int]));
        }
    }
    assert forall|i: int| 0 <= i < 8 implies DecksView::column_wf(#[trigger] after.columns[i]) by {
        assert(DecksView::column_wf(b.columns[i]));
    }
    assert forall|i: int| 0 <= i < 3 implies (#[trigger] after.cells[i]).wf() by {
        assert(b.cells[i].wf());
    }
    if from.0 == COLUMN && to.0 == COLUMN {
        lemma_total_after_swap(b, after, from.1 as int, to.1 as int);
    } else if from.0 == COLUMN {
        lemma_total_after_exchange(b, after, from.1 as int, to.1 as int);
    } else {
        lemma_total_after_exchange(b, after, to.1 as int, from.1 as int);
    }
}

/// Which columns are listed: those below `n`, other than `own`, whose top
/// takes the card.
pub proof fn lemma_column_targets(b: DecksView, card: Card, own: int, n: int, to: (u8, u8))
    requires
        0 <= n <= 8,
    ensures
        b.column_targets(card, own, n).contains(to) <==> to.0 == COLUMN && to.1 < n && to.1 != own
            && card.spec_can_move_front_of(b.columns[to.1 as int].last()),
    decreases n,
{
    if n > 0 {
        lemma_column_targets(b, card, own, n - 1, to);
        let rest = b.column_targets(card, own, n - 1);
        let here = (COLUMN, (n - 1) as u8);
        if n - 1 != own && card.spec_can_move_front_of(b.columns[n - 1].last()) {
            assert(rest.push(here).last() == here);
            assert forall|x: (u8, u8)| rest.push(here).contains(x) <==> rest.contains(x) || x
                == here by {
                if rest.contains(x) {
                    let i = choose|i: int| 0 <= i < rest.len() && rest[i] == x;
                    assert(rest.push(here)[i] == x);
                }
            }
        }
    }
}

/// Which cells are listed: those below `n` whose content takes the card.
pub proof fn lemma_cell_targets(b: DecksView, card: Card, n: int, to: (u8, u8))
    requires
        0 <= n <= 3,
    ensures
        b.cell_targets(card, n).contains(to) <==> to.0 == CELL && to.1 < n
            && card.spec_can_move_front_of(b.cells[to.1 as int]),
    decreases n,
{
    if n > 0 {
        lemma_cell_targets(b, card, n - 1, to);
        let rest = b.cell_targets(card, n - 1);
        let here = (CELL, (n - 1) as u8);
        if card.spec_can_move_front_of(b.cells[n - 1]) {
            assert(rest.push(here).last() == here);
            assert forall|x: (u8, u8)| rest.push(here).contains(x) <==> rest.contains(x) || x
                == here by {
                if rest.contains(x) {
                    let i = choose|i: int| 0 <= i < rest.len() && rest[i] == x;
                    assert(rest.push(here)[i] == x);
                }
            }
        }
    }
}

/// Where every legal move goes is among the destinations listed for its
/// source.
pub proof fn lemma_legal_move_is_listed(b: DecksView, from: (u8, u8, u8), to: (u8, u8))
    requires
        b.legal_move(from, to),
    ensures
        b.destinations(from).contains(to),
{
    let card = b.card_at(from);
    let own = if from.0 == COLUMN { from.1 as int } else { -1 };
    let columns = b.column_targets(card, own, 8);
    let cells = b.cell_targets(card, 3);
    lemma_column_targets(b, card, own, 8, to);
    lemma_cell_targets(b, card, 3, to);
    if to.0 == COLUMN {
        let i = choose|i: int| 0 <= i < columns.len() && columns[i] == to;
        assert((columns + cells)[i] == to);
    } else {
        let i = choose|i: int| 0 <= i < cells.len() && cells[i] == to;
        assert((columns + cells)[columns.len() + i] == to);
    }
}

/// Two boards that differ in two columns only, whose lengths add up to the
/// same, hold the same number of cards.
proof fn lemma_total_after_swap(before: DecksView, after: DecksView, a: int, b: int)
    requires
        before.columns.len() == 8,
        after.columns.len() == 8,
        0 <= a < 8,
        0 <= b < 8,
        a != b,
        forall|i: int| 0 <= i < 8 && i != a && i != b ==> after.columns[i] == before.columns[i],
        after.columns[a].len() + after.columns[b].len() == before.columns[a].len()
            + before.columns[b].len(),
        after.cells == before.cells,
        after.foundations == before.foundations,
    ensures
        after.card_total() == before.card_total(),
{
}

/// Two boards that differ in one column and one cell only, where the
/// column's length and the cell's weight add up to the same, hold the same
/// number of cards.
proof fn lemma_total_after_exchange(before: DecksView, after: DecksView, col: int, cell: int)
    requires
        before.columns.len() == 8,
        after.columns.len() == 8,
        before.cells.len() == 3,
        after.cells.len() == 3,
        0 <= col < 8,
        0 <= cell < 3,
        forall|i: int| 0 <= i < 8 && i != col ==> after.columns[i] == before.columns[i],
        forall|i: int| 0 <= i < 3 && i != cell ==> after.cells[i] == before.cells[i],
        after.columns[col].len() + cell_weight(after.cells[cell]) == before.columns[col].len()
            + cell_weight(before.cells[cell]),
        after.foundations == before.foundations,
    ensures
        after.card_total() == before.card_total(),
{
}

} // verus!
