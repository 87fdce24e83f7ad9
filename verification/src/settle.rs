//! The collections that happen by themselves: as long as a card can go to
//! its foundation or a group of special cards can be locked, it does.

use vstd::prelude::*;
use crate::board::{Decks, DecksView, MoveErr};
use crate::card::Card;
use crate::collect::{lemma_collected_wf, lemma_exposed_wf, lemma_uncollect_restores};
use crate::moves::{CELL, COLUMN};
use crate::special::{lemma_locked_wf, lemma_unlock_restores, SpecCut, SpecCutView};

verus! {

/// One collection, as it must be remembered to take it back.
#[derive(Clone, Copy, Debug, PartialEq, Eq)]
pub enum Collected {
    /// A numbered card went from a site to the foundation of a suit.
    Num((u8, u8, u8)),
    /// A group of special cards was locked into a cell.
    Group(SpecCut),
}

/// The mathematical value of a `Collected`.
pub enum CollectedView {
    Num((u8, u8, u8)),
    Group(SpecCutView),
}

impl DeepView for Collected {
    type V = CollectedView;

    open spec fn deep_view(&self) -> CollectedView {
        self@
    }
}

impl View for Collected {
    type V = CollectedView;

    open spec fn view(&self) -> CollectedView {
        match *self {
            Collected::Num(site) => CollectedView::Num(site),
            Collected::Group(cut) => CollectedView::Group(cut@),
        }
    }
}

impl DecksView {
    /// The card that foundation `suit` takes next.
    pub open spec fn next_of_suit(self, suit: u8) -> Card {
        Card::Num(suit, (self.foundations[suit as int] + 1) as u8)
    }

    /// The lowest cell that holds `card`, if one does.
    pub open spec fn cell_holding(self, card: Card) -> Option<u8> {
        if self.cells[0] == card {
            Some(0u8)
        } else if self.cells[1] == card {
            Some(1u8)
        } else if self.cells[2] == card {
            Some(2u8)
        } else {
            None
        }
    }

    /// The site that offers a card to a foundation in the `k`-th place of
    /// the order in which collections are looked for, if one does: first
    /// the eight columns, then, suit by suit, the lowest cell that holds
    /// the card which the suit's foundation takes next. Which cell holds
    /// which card does not change what is collected.
    pub open spec fn offer(self, k: int) -> Option<(u8, u8)> {
        if k < 8 {
            if self.collectable((COLUMN, k as u8)) {
                Some((COLUMN, k as u8))
            } else {
                None
            }
        } else {
            match self.cell_holding(self.next_of_suit((k - 8) as u8)) {
                Some(cell) => Some((CELL, cell)),
                None => None,
            }
        }
    }

    /// The first site, from the `k`-th place on, whose card can go to its
    /// foundation, if there is one.
    pub open spec fn first_collectable(self, k: int) -> Option<(u8, u8)>
        decreases 11 - k,
    {
        if k < 0 || k >= 11 {
            None
        } else if self.offer(k) is Some {
            self.offer(k)
        } else {
            self.first_collectable(k + 1)
        }
    }

    /// Nothing can be collected: no card can go to a foundation and no
    /// group can be locked.
    pub open spec fn at_rest(self) -> bool {
        self.first_collectable(0) is None && !self.scan_result().0
    }

    /// The board after one collection: the first card that can go to its
    /// foundation goes there; if there is none, the lowest eligible group
    /// is locked. A board at rest stays as it is.
    pub open spec fn collect_step(self) -> DecksView {
        match self.first_collectable(0) {
            Some(site) => self.collected(site),
            None => if self.scan_result().0 {
                self.locked(self.scan_result().1)
            } else {
                self
            },
        }
    }

    /// What taking one collection back would need, as recorded.
    pub open spec fn step_record(self) -> CollectedView {
        match self.first_collectable(0) {
            Some(site) => CollectedView::Num((site.0, site.1, self.target_card(site)->Num_0)),
            None => CollectedView::Group(self.cut_of(self.scan_result().1)),
        }
    }

    /// The board after every collection that offers itself was made, one
    /// after the other, until the board is at rest.
    pub open spec fn settled(self) -> DecksView
        decreases self.loose_cards(),
        when self.wf()
        via Self::settled_decreases
    {
        if self.at_rest() {
            self
        } else {
            self.collect_step().settled()
        }
    }

    #[via_fn]
    proof fn settled_decreases(self) {
        if !self.at_rest() {
            lemma_collect_step(self);
        }
    }

    /// The record can be taken back on this board.
    pub open spec fn can_take_back(self, record: CollectedView) -> bool {
        match record {
            CollectedView::Num(site) => self.can_uncollect(site),
            CollectedView::Group(cut) => self.can_unlock(cut),
        }
    }

    /// The board after the record was taken back.
    pub open spec fn taken_back(self, record: CollectedView) -> DecksView {
        match record {
            CollectedView::Num(site) => self.uncollected(site),
            CollectedView::Group(cut) => self.unlocked(cut),
        }
    }

    /// Every record of the log can be taken back in turn, the last one
    /// first.
    pub open spec fn can_rewind(self, log: Seq<CollectedView>) -> bool
        decreases log.len(),
    {
        if log.len() == 0 {
            true
        } else {
            self.can_take_back(log.last()) && self.taken_back(log.last()).can_rewind(
                log.drop_last(),
            )
        }
    }

    /// The board after the records of the log were taken back, the last
    /// one first, up to the first that cannot be.
    pub open spec fn rewound(self, log: Seq<CollectedView>) -> DecksView
        decreases log.len(),
    {
        if log.len() == 0 || !self.can_take_back(log.last()) {
            self
        } else {
            self.taken_back(log.last()).rewound(log.drop_last())
        }
    }
}

impl Decks {
    /// Tells whether the card that a site shows can go to its foundation.
    pub fn can_collect(&self, site: (u8, u8)) -> (ok: bool)
        requires
            self.wf(),
        ensures
            ok == self@.collectable(site),
    {
        if !self.is_site(site) {
            return false;
        }
        match self.exposed_card(site) {
            Card::Num(suit, rank) => {
                assert(self@.foundations[suit as int] <= 9);
                rank == self.rev_cards[suit as usize] + 1
            },
            _ => false,
        }
    }

    /// Finds the first site whose card can go to its foundation: the
    /// columns in order, then the cells, suit by suit.
    pub fn next_collectable(&self) -> (found: Option<(u8, u8)>)
        requires
            self.wf(),
        ensures
            found == self@.first_collectable(0),
    {
        for k in 0..8u8
            invariant
                self.wf(),
                self@.first_collectable(0) == self@.first_collectable(k as int),
        {
            if self.can_collect((COLUMN, k)) {
                return Some((COLUMN, k));
            }
        }
        for suit in 0..3u8
            invariant
                self.wf(),
                self@.first_collectable(0) == self@.first_collectable(8 + suit),
        {
            assert(self@.foundations[suit as int] <= 9);
            let next = Card::Num(suit, self.rev_cards[suit as usize] + 1);
            for cell in 0..3u8
                invariant
                    suit < 3,
                    self@.first_collectable(0) == self@.first_collectable(8 + suit),
                    next == self@.next_of_suit(suit),
                    forall|j: int| 0 <= j < cell ==> self@.cells[j] != next,
            {
                if self.storage[cell as usize] == next {
                    return Some((CELL, cell));
                }
            }
        }
        None
    }

    /// Makes every collection that offers itself, one after the other,
    /// until the board is at rest, and returns the records of them in the
    /// order in which they were made.
    pub fn settle(&mut self) -> (log: Vec<Collected>)
        requires
            old(self).wf(),
        ensures
            final(self).wf(),
            final(self)@ == old(self)@.settled(),
            final(self)@.at_rest(),
            final(self)@.can_rewind(log.deep_view()),
            final(self)@.rewound(log.deep_view()) == old(self)@,
    {
        let mut log: Vec<Collected> = Vec::new();
        let mut busy = true;
        assert(log.deep_view() =~= Seq::<CollectedView>::empty());
        while busy
            invariant
                self.wf(),
                self@.settled() == old(self)@.settled(),
                self@.can_rewind(log.deep_view()),
                self@.rewound(log.deep_view()) == old(self)@,
                !busy ==> self@.at_rest(),
            decreases self@.loose_cards(), (if busy { 1int } else { 0int }),
        {
            let ghost before = self@;
            let ghost earlier = log.deep_view();
            proof {
                if !before.at_rest() {
                    lemma_collect_step(before);
                }
                lemma_first_collectable(before, 0);
            }
            match self.next_collectable() {
                Some(site) => {
                    match self.cut_num(site) {
                        Ok(record) => {
                            log.push(Collected::Num(record));
                        },
                        Err(_) => {
                            busy = false;
                        },
                    }
                },
                None => {
                    match self.cut_spec() {
                        Ok(cut) => {
                            log.push(Collected::Group(cut));
                        },
                        Err(_) => {
                            busy = false;
                        },
                    }
                },
            }
            proof {
                if busy {
                    assert(self@ == before.collect_step());
                    assert(log.deep_view().last() == before.step_record());
                    assert(log.deep_view().drop_last() =~= earlier);
                } else {
                    assert(log.deep_view() == earlier);
                }
            }
        }
        log
    }

    /// Takes one collection back.
    pub fn take_back(&mut self, record: &Collected) -> (res: Result<(), MoveErr>)
        requires
            old(self).wf(),
        ensures
            final(self).wf(),
            old(self)@.can_take_back(record@) ==> res == Ok::<(), MoveErr>(()) && final(self)@
                == old(self)@.taken_back(record@),
            !old(self)@.can_take_back(record@) ==> res == Err::<(), MoveErr>(MoveErr::CantMove)
                && *final(self) == *old(self),
    {
        match record {
            Collected::Num(site) => self.recover_cut_num(*site),
            Collected::Group(cut) => self.recover_cut_spec(cut),
        }
    }

    /// Takes the collections of a log back, the last one first. Stops at
    /// the first record that cannot be taken back and reports it.
    pub fn unsettle(&mut self, log: &Vec<Collected>) -> (res: Result<(), MoveErr>)
        requires
            old(self).wf(),
        ensures
            final(self).wf(),
            final(self)@ == old(self)@.rewound(log.deep_view()),
            old(self)@.can_rewind(log.deep_view()) ==> res == Ok::<(), MoveErr>(()),
            !old(self)@.can_rewind(log.deep_view()) ==> res == Err::<(), MoveErr>(
                MoveErr::CantMove,
            ),
    {
        let mut left = log.len();
        assert(log.deep_view().take(left as int) =~= log.deep_view());
        while left > 0
            invariant
                self.wf(),
                left <= log.len(),
                self@.rewound(log.deep_view().take(left as int)) == old(self)@.rewound(
                    log.deep_view(),
                ),
                self@.can_rewind(log.deep_view().take(left as int)) == old(self)@.can_rewind(
                    log.deep_view(),
                ),
            decreases left,
        {
            let ghost rest = log.deep_view().take(left as int);
            assert(rest.last() == log@[left - 1]@);
            assert(rest.drop_last() =~= log.deep_view().take(left - 1));
            if self.take_back(&log[left - 1]).is_err() {
                return Err(MoveErr::CantMove);
            }
            left -= 1;
        }
        assert(log.deep_view().take(0) =~= Seq::<CollectedView>::empty());
        Ok(())
    }
}

/// The first collectable site, when there is one, exists and is
/// collectable.
pub proof fn lemma_first_collectable(b: DecksView, k: int)
    requires
        b.wf(),
        0 <= k,
    ensures
        b.first_collectable(k) matches Some(site) ==> b.site_exists(site) && b.collectable(site),
    decreases 11 - k,
{
    if k < 11 {
        if b.offer(k) is Some {
            if k >= 8 {
                assert(b.foundations[k - 8] <= 9);
            }
        } else {
            lemma_first_collectable(b, k + 1);
        }
    }
}

/// One collection on a board that is not at rest keeps it well-formed,
/// takes at least one loose card away, and can be taken back by its
/// record, which restores the board.
pub proof fn lemma_collect_step(b: DecksView)
    requires
        b.wf(),
        !b.at_rest(),
    ensures
        b.collect_step().wf(),
        0 <= b.collect_step().loose_cards() < b.loose_cards(),
        b.collect_step().can_take_back(b.step_record()),
        b.collect_step().taken_back(b.step_record()) == b,
{
    lemma_loose_nonnegative(b.collect_step());
    match b.first_collectable(0) {
        Some(site) => {
            lemma_first_collectable(b, 0);
            lemma_collected_wf(b, site);
            lemma_uncollect_restores(b, site);
            lemma_exposed_wf(b, site);
            if site.0 == COLUMN {
                assert(DecksView::column_wf(b.columns[site.1 as int]));
            }
        },
        None => {
            let kind = b.scan_result().1;
            lemma_locked_wf(b, kind);
            lemma_unlock_restores(b, kind);
        },
    }
}

/// A well-formed board has no negative number of loose cards.
pub proof fn lemma_loose_nonnegative(b: DecksView)
    ensures
        b.wf() ==> b.loose_cards() >= 0,
{
    if b.wf() {
        assert(DecksView::column_wf(b.columns[0]));
        assert(DecksView::column_wf(b.columns[1]));
        assert(DecksView::column_wf(b.columns[2]));
        assert(DecksView::column_wf(b.columns[3]));
        assert(DecksView::column_wf(b.columns[4]));
        assert(DecksView::column_wf(b.columns[5]));
        assert(DecksView::column_wf(b.columns[6]));
        assert(DecksView::column_wf(b.columns[7]));
    }
}

/// Settling keeps a board well-formed and leaves it at rest.
pub proof fn lemma_settled_wf(b: DecksView)
    requires
        b.wf(),
    ensures
        b.settled().wf(),
        b.settled().at_rest(),
    decreases b.loose_cards(),
{
    if !b.at_rest() {
        lemma_collect_step(b);
        lemma_settled_wf(b.collect_step());
    }
}

} // verus!
