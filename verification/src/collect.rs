//! Collecting numbered cards into the foundations, and putting them back.

use vstd::prelude::*;
use crate::board::{Decks, DecksView, MoveErr};
use crate::card::Card;
use crate::moves::{CELL, COLUMN};

verus! {

impl DecksView {
    /// The site is one of the eight columns or one of the three cells.
    pub open spec fn site_exists(self, site: (u8, u8)) -> bool {
        (site.0 == COLUMN && site.1 < 8) || (site.0 == CELL && site.1 < 3)
    }

    /// The board without the card that `site` shows: the column loses its
    /// top card, or the cell becomes free.
    pub open spec fn without_exposed(self, site: (u8, u8)) -> DecksView {
        if site.0 == COLUMN {
            DecksView {
                columns: self.columns.update(
                    site.1 as int,
                    self.columns[site.1 as int].drop_last(),
                ),
                ..self
            }
        } else {
            DecksView { cells: self.cells.update(site.1 as int, Card::Empty), ..self }
        }
    }

    /// The board with `card` added at `site`: on top of the column, or in
    /// the cell.
    pub open spec fn with_exposed(self, site: (u8, u8), card: Card) -> DecksView {
        if site.0 == COLUMN {
            DecksView {
                columns: self.columns.update(
                    site.1 as int,
                    self.columns[site.1 as int].push(card),
                ),
                ..self
            }
        } else {
            DecksView { cells: self.cells.update(site.1 as int, card), ..self }
        }
    }

    /// The card that `from` shows can go to its foundation: the site
    /// exists and shows a numbered card whose rank is one more than the
    /// rank collected so far for its suit.
    pub open spec fn collectable(self, from: (u8, u8)) -> bool {
        &&& self.site_exists(from)
        &&& self.target_card(from) matches Card::Num(suit, rank)
        &&& rank == self.foundations[suit as int] + 1
    }

    /// The board after the card that `from` shows went to its foundation.
    pub open spec fn collected(self, from: (u8, u8)) -> DecksView {
        let suit = self.target_card(from)->Num_0;
        DecksView {
            foundations: self.foundations.update(
                suit as int,
                (self.foundations[suit as int] + 1) as u8,
            ),
            ..self.without_exposed(from)
        }
    }

    /// The top card of foundation `to.2` can come back to the site
    /// `(to.0, to.1)`: the site and the suit exist, something was collected
    /// for the suit, and a cell that is to take the card is free.
    pub open spec fn can_uncollect(self, to: (u8, u8, u8)) -> bool {
        &&& self.site_exists((to.0, to.1))
        &&& to.2 < 3
        &&& self.foundations[to.2 as int] >= 1
        &&& to.0 == CELL ==> self.cells[to.1 as int] == Card::Empty
    }

    /// The board after the top card of foundation `to.2` came back to the
    /// site `(to.0, to.1)`.
    pub open spec fn uncollected(self, to: (u8, u8, u8)) -> DecksView {
        let rank = self.foundations[to.2 as int];
        DecksView {
            foundations: self.foundations.update(to.2 as int, (rank - 1) as u8),
            ..self.with_exposed((to.0, to.1), Card::Num(to.2, rank))
        }
    }
}

impl Decks {
    /// The card that a site shows: the top of a column or the content of a
    /// cell.
    pub fn exposed_card(&self, site: (u8, u8)) -> (card: Card)
        requires
            self.wf(),
            self@.site_exists(site),
        ensures
            card == self@.target_card(site),
            card.wf(),
    {
        if site.0 == COLUMN {
            let column = &self.stks[site.1 as usize];
            assert(DecksView::column_wf(self@.columns[site.1 as int]));
            column[column.len() - 1]
        } else {
            assert(self@.cells[site.1 as int].wf());
            self.storage[site.1 as usize]
        }
    }

    /// Tells whether a site is one of the columns or cells.
    pub fn is_site(&self, site: (u8, u8)) -> (ok: bool)
        ensures
            ok == self@.site_exists(site),
    {
        (site.0 == COLUMN && site.1 < 8) || (site.0 == CELL && site.1 < 3)
    }

    /// Removes the card that `site` shows.
    fn take_exposed(&mut self, site: (u8, u8))
        requires
            old(self).wf(),
            old(self)@.site_exists(site),
            old(self)@.target_card(site).playable(),
        ensures
            final(self)@ == old(self)@.without_exposed(site),
            final(self).rev_cards == old(self).rev_cards,
            forall|i: int| 0 <= i < 8 ==> DecksView::column_wf(#[trigger] final(self)@.columns[i]),
            forall|i: int| 0 <= i < 3 ==> (#[trigger] final(self)@.cells[i]).wf(),
            final(self)@.card_total() == old(self)@.card_total() - 1,
    {
        let ghost before = self@;
        if site.0 == COLUMN {
            assert(DecksView::column_wf(before.columns[site.1 as int]));
            let _ = self.stks[site.1 as usize].pop();
        } else {
            self.storage[site.1 as usize] = Card::Empty;
        }
        assert(self@.columns =~= before.without_exposed(site).columns);
        assert(self@.cells =~= before.without_exposed(site).cells);
        assert(self@.foundations =~= before.foundations);
        proof {
            let after = self@;
            assert forall|i: int| 0 <= i < 8 implies DecksView::column_wf(
                #[trigger] after.columns[i],
            ) by {
                assert(DecksView::column_wf(before.columns[i]));
            }
            assert forall|i: int| 0 <= i < 3 implies (#[trigger] after.cells[i]).wf() by {
                assert(before.cells[i].wf());
            }
        }
    }

    /// Adds `card` at `site`.
    fn put_exposed(&mut self, site: (u8, u8), card: Card)
        requires
            old(self).wf(),
            old(self)@.site_exists(site),
            card.playable(),
            site.0 == CELL ==> old(self)@.cells[site.1 as int] == Card::Empty,
        ensures
            final(self)@ == old(self)@.with_exposed(site, card),
            final(self).rev_cards == old(self).rev_cards,
            forall|i: int| 0 <= i < 8 ==> DecksView::column_wf(#[trigger] final(self)@.columns[i]),
            forall|i: int| 0 <= i < 3 ==> (#[trigger] final(self)@.cells[i]).wf(),
            final(self)@.card_total() == old(self)@.card_total() + 1,
    {
        let ghost before = self@;
        if site.0 == COLUMN {
            assert(DecksView::column_wf(before.columns[site.1 as int]));
            self.stks[site.1 as usize].push(card);
        } else {
            self.storage[site.1 as usize] = card;
        }
        assert(self@.columns =~= before.with_exposed(site, card).columns);
        assert(self@.cells =~= before.with_exposed(site, card).cells);
        assert(self@.foundations =~= before.foundations);
        proof {
            let after = self@;
            assert forall|i: int| 0 <= i < 8 implies DecksView::column_wf(
                #[trigger] after.columns[i],
            ) by {
                assert(DecksView::column_wf(before.columns[i]));
            }
            assert forall|i: int| 0 <= i < 3 implies (#[trigger] after.cells[i]).wf() by {
                assert(before.cells[i].wf());
            }
        }
    }

    /// Sends the card that `from` shows to its foundation when its rank is
    /// the next one for its suit, and returns the site with the suit; on
    /// any other board or site refuses and changes nothing.
    pub fn cut_num(&mut self, from: (u8, u8)) -> (res: Result<(u8, u8, u8), MoveErr>)
        requires
            old(self).wf(),
        ensures
            final(self).wf(),
            old(self)@.collectable(from) ==> res == Ok::<(u8, u8, u8), MoveErr>(
                (from.0, from.1, old(self)@.target_card(from)->Num_0),
            ) && final(self)@ == old(self)@.collected(from),
            !old(self)@.collectable(from) ==> res == Err::<(u8, u8, u8), MoveErr>(
                MoveErr::CantMove,
            ) && *final(self) == *old(self),
    {
        if !self.is_site(from) {
            return Err(MoveErr::CantMove);
        }
        let now_card = self.exposed_card(from);
        match now_card {
            Card::Num(tp, nu) => {
                assert(self@.foundations[tp as int] <= 9);
                if nu == self.rev_cards[tp as usize] + 1 {
                    let ghost before = self@;
                    self.take_exposed(from);
                    self.rev_cards[tp as usize] += 1;
                    assert(self@.foundations =~= before.collected(from).foundations);
                    assert(self@.columns =~= before.collected(from).columns);
                    assert(self@.card_total() == before.card_total());
                    Ok((from.0, from.1, tp))
                } else {
                    Err(MoveErr::CantMove)
                }
            },
            _ => Err(MoveErr::CantMove),
        }
    }

    /// Brings the top card of foundation `to.2` back to the site
    /// `(to.0, to.1)`; refuses, and changes nothing, when the site or the
    /// suit does not exist, nothing was collected for the suit, or the cell
    /// named is taken.
    pub fn recover_cut_num(&mut self, to: (u8, u8, u8)) -> (res: Result<(), MoveErr>)
        requires
            old(self).wf(),
        ensures
            final(self).wf(),
            old(self)@.can_uncollect(to) ==> res == Ok::<(), MoveErr>(())
                && final(self)@ == old(self)@.uncollected(to),
            !old(self)@.can_uncollect(to) ==> res == Err::<(), MoveErr>(MoveErr::CantMove)
                && *final(self) == *old(self),
    {
        if !self.is_site((to.0, to.1)) || to.2 >= 3 {
            return Err(MoveErr::CantMove);
        }
        let rank = self.rev_cards[to.2 as usize];
        if rank == 0 {
            return Err(MoveErr::CantMove);
        }
        if to.0 == CELL && self.storage[to.1 as usize] != Card::Empty {
            return Err(MoveErr::CantMove);
        }
        let ghost before = self@;
        assert(before.foundations[to.2 as int] <= 9);
        self.put_exposed((to.0, to.1), Card::Num(to.2, rank));
        self.rev_cards[to.2 as usize] -= 1;
        assert(self@.foundations =~= before.uncollected(to).foundations);
        assert(self@.columns =~= before.uncollected(to).columns);
        assert(self@.card_total() == before.card_total());
        Ok(())
    }
}

/// A card goes to its foundation only as the next rank of its suit, and
/// the foundation then stands at that rank.
pub proof fn lemma_collect_advances_foundation(b: DecksView, from: (u8, u8))
    requires
        b.wf(),
        b.collectable(from),
    ensures
        b.target_card(from) matches Card::Num(suit, rank) && suit < 3
            && b.foundations[suit as int] == rank - 1 && b.collected(from).foundations[suit as int]
            == rank && forall|other: int|
            0 <= other < 3 && other != suit ==> b.collected(from).foundations[other]
                == b.foundations[other],
{
    lemma_exposed_wf(b, from);
}

/// Bringing a collected card back to the site it came from restores the
/// board, the foundation and the card included.
pub proof fn lemma_uncollect_restores(b: DecksView, from: (u8, u8))
    requires
        b.wf(),
        b.collectable(from),
    ensures
        b.collected(from).can_uncollect((from.0, from.1, b.target_card(from)->Num_0)),
        b.collected(from).uncollected((from.0, from.1, b.target_card(from)->Num_0)) == b,
{
    lemma_exposed_wf(b, from);
    let suit = b.target_card(from)->Num_0;
    let after = b.collected(from);
    let restored = after.uncollected((from.0, from.1, suit));
    if from.0 == COLUMN {
        assert(DecksView::column_wf(b.columns[from.1 as int]));
        assert(b.columns[from.1 as int].drop_last().push(b.columns[from.1 as int].last())
            =~= b.columns[from.1 as int]);
    }
    assert(restored.columns =~~= b.columns);
    assert(restored.cells =~= b.cells);
    assert(restored.foundations =~= b.foundations);
}

/// What a site of a well-formed board shows is a well-formed card.
pub proof fn lemma_exposed_wf(b: DecksView, site: (u8, u8))
    requires
        b.wf(),
        b.site_exists(site),
    ensures
        b.target_card(site).wf(),
{
    if site.0 == COLUMN {
        assert(DecksView::column_wf(b.columns[site.1 as int]));
    } else {
        assert(b.cells[site.1 as int].wf());
    }
}

/// Sending a card to its foundation keeps the board well-formed and
/// neither makes nor loses a card.
pub proof fn lemma_collected_wf(b: DecksView, from: (u8, u8))
    requires
        b.wf(),
        b.collectable(from),
    ensures
        b.collected(from).wf(),
        b.collected(from).card_total() == b.card_total(),
{
    lemma_exposed_wf(b, from);
    let after = b.collected(from);
    assert forall|i: int| 0 <= i < 8 implies DecksView::column_wf(#[trigger] after.columns[i]) by {
        assert(DecksView::column_wf(b.columns[i]));
    }
    assert forall|i: int| 0 <= i < 3 implies (#[trigger] after.cells[i]).wf() by {
        assert(b.cells[i].wf());
    }
    if from.0 == COLUMN {
        assert(DecksView::column_wf(b.columns[from.1 as int]));
    }
    assert(after.card_total() == b.card_total());
}

} // verus!
