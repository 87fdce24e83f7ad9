//! Special cards: finding a group of four that can be collected, locking
//! it into a cell, and taking that back.

use vstd::prelude::*;
use crate::board::{cell_weight, loose, Decks, DecksView, MoveErr};
use crate::card::Card;

verus! {

/// The result that stands for "no kind": no group can be collected.
pub const NO_KIND: u8 = 255;

/// What collecting a group of special cards did: enough to take it back.
#[derive(Clone, Copy, Debug, PartialEq, Eq)]
pub struct SpecCut {
    /// The kind of the four cards.
    pub kind: u8,
    /// The cell that was locked.
    pub cell: u8,
    /// Per column, whether its top card was one of the four.
    pub columns: [bool; 8],
    /// Per cell, whether it held one of the four.
    pub cells: [bool; 3],
}

/// The mathematical value of a `SpecCut`.
pub struct SpecCutView {
    pub kind: u8,
    pub cell: u8,
    pub columns: Seq<bool>,
    pub cells: Seq<bool>,
}

impl View for SpecCut {
    type V = SpecCutView;

    open spec fn view(&self) -> SpecCutView {
        SpecCutView {
            kind: self.kind,
            cell: self.cell,
            columns: self.columns@,
            cells: self.cells@,
        }
    }
}

/// 1 for `true`, 0 for `false`.
pub open spec fn unit(flag: bool) -> int {
    if flag {
        1
    } else {
        0
    }
}

/// How many of the first `n` flags are set.
pub open spec fn flagged(flags: Seq<bool>, n: int) -> int
    decreases n,
{
    if n <= 0 {
        0
    } else {
        flagged(flags, n - 1) + unit(flags[n - 1])
    }
}

impl SpecCutView {
    /// The number of sites that gave a card.
    pub open spec fn site_count(self) -> int {
        flagged(self.columns, 8) + flagged(self.cells, 3)
    }
}

/// 1 when `card` is the special card of `kind`, else 0.
pub open spec fn hit(card: Card, kind: u8) -> int {
    if card == Card::Spec(kind) {
        1
    } else {
        0
    }
}

impl DecksView {
    /// How many of the columns below `n` show the special card of `kind`.
    pub open spec fn tops_count(self, kind: u8, n: int) -> int
        decreases n,
    {
        if n <= 0 {
            0
        } else {
            self.tops_count(kind, n - 1) + hit(self.columns[n - 1].last(), kind)
        }
    }

    /// How many of the cells below `n` hold the special card of `kind`.
    pub open spec fn cells_count(self, kind: u8, n: int) -> int
        decreases n,
    {
        if n <= 0 {
            0
        } else {
            self.cells_count(kind, n - 1) + hit(self.cells[n - 1], kind)
        }
    }

    /// How many special cards of `kind` are exposed: on top of a column or
    /// in a cell.
    pub open spec fn exposed_count(self, kind: u8) -> int {
        self.tops_count(kind, 8) + self.cells_count(kind, 3)
    }

    /// The four special cards of `kind` can be collected: all four are
    /// exposed and a cell is free.
    pub open spec fn eligible(self, kind: u8) -> bool {
        kind < 3 && self.has_empty_cell() && self.exposed_count(kind) == 4
    }

    /// The lowest free cell, when there is one.
    pub open spec fn first_free_cell(self) -> int {
        if self.cells[0] == Card::Empty {
            0
        } else if self.cells[1] == Card::Empty {
            1
        } else {
            2
        }
    }

    /// The board without the exposed special cards of `kind`.
    pub open spec fn group_removed(self, kind: u8) -> DecksView {
        DecksView {
            columns: Seq::new(
                8,
                |i: int|
                    if self.columns[i].last() == Card::Spec(kind) {
                        self.columns[i].drop_last()
                    } else {
                        self.columns[i]
                    },
            ),
            cells: Seq::new(
                3,
                |i: int|
                    if self.cells[i] == Card::Spec(kind) {
                        Card::Empty
                    } else {
                        self.cells[i]
                    },
            ),
            ..self
        }
    }

    /// The board after the group of `kind` was collected: its exposed cards
    /// are gone and the lowest cell that is then free is locked.
    pub open spec fn locked(self, kind: u8) -> DecksView {
        let removed = self.group_removed(kind);
        DecksView {
            cells: removed.cells.update(removed.first_free_cell(), Card::Disable),
            ..removed
        }
    }

    /// The record of collecting the group of `kind` on this board.
    pub open spec fn cut_of(self, kind: u8) -> SpecCutView {
        SpecCutView {
            kind,
            cell: self.group_removed(kind).first_free_cell() as u8,
            columns: Seq::new(8, |i: int| self.columns[i].last() == Card::Spec(kind)),
            cells: Seq::new(3, |i: int| self.cells[i] == Card::Spec(kind)),
        }
    }

    /// The record can be taken back on this board: it names a kind and a
    /// locked cell, lists four sites, and every cell it lists other than
    /// the locked one is free.
    pub open spec fn can_unlock(self, cut: SpecCutView) -> bool {
        &&& cut.kind < 3
        &&& cut.cell < 3
        &&& cut.columns.len() == 8
        &&& cut.cells.len() == 3
        &&& self.cells[cut.cell as int] == Card::Disable
        &&& forall|i: int|
            0 <= i < 3 && #[trigger] cut.cells[i] && i != cut.cell ==> self.cells[i] == Card::Empty
        &&& cut.site_count() == 4
    }

    /// The board after the record was taken back: the locked cell is free
    /// again and each listed site shows a special card of the kind.
    pub open spec fn unlocked(self, cut: SpecCutView) -> DecksView {
        DecksView {
            columns: Seq::new(
                8,
                |i: int|
                    if cut.columns[i] {
                        self.columns[i].push(Card::Spec(cut.kind))
                    } else {
                        self.columns[i]
                    },
            ),
            cells: Seq::new(
                3,
                |i: int|
                    if cut.cells[i] {
                        Card::Spec(cut.kind)
                    } else if i == cut.cell {
                        Card::Empty
                    } else {
                        self.cells[i]
                    },
            ),
            ..self
        }
    }

    /// The lowest kind whose group can be collected, with `true`; or
    /// `false` with no kind.
    pub open spec fn scan_result(self) -> (bool, u8) {
        if self.eligible(0) {
            (true, 0)
        } else if self.eligible(1) {
            (true, 1)
        } else if self.eligible(2) {
            (true, 2)
        } else {
            (false, NO_KIND)
        }
    }
}

impl Decks {
    /// Looks for a group of four special cards that can be collected.
    pub fn scan_spec(&self) -> (res: (bool, u8))
        requires
            self.wf(),
        ensures
            res == self@.scan_result(),
    {
        if !self.storage_has_empty() {
            return (false, NO_KIND);
        }
        let mut map: [u8; 3] = [0u8; 3];
        for idx in 0..8usize
            invariant
                self.wf(),
                map@[0] == self@.tops_count(0, idx as int),
                map@[1] == self@.tops_count(1, idx as int),
                map@[2] == self@.tops_count(2, idx as int),
                map@[0] <= idx && map@[1] <= idx && map@[2] <= idx,
        {
            let column = &self.stks[idx];
            assert(DecksView::column_wf(self@.columns[idx as int]));
            let last_card = column[column.len() - 1];
            assert(last_card == self@.columns[idx as int].last());
            assert(last_card.wf()) by {
                if column.len() > 1 {
                    assert(self@.columns[idx as int][column.len() - 1].playable());
                }
            }
            if let Card::Spec(i) = last_card {
                map[i as usize] += 1;
            }
        }
        for idx in 0..3usize
            invariant
                self.wf(),
                map@[0] == self@.tops_count(0, 8) + self@.cells_count(0, idx as int),
                map@[1] == self@.tops_count(1, 8) + self@.cells_count(1, idx as int),
                map@[2] == self@.tops_count(2, 8) + self@.cells_count(2, idx as int),
                map@[0] <= 8 + idx && map@[1] <= 8 + idx && map@[2] <= 8 + idx,
        {
            let last_card = self.storage[idx];
            assert(self@.cells[idx as int].wf());
            if let Card::Spec(i) = last_card {
                map[i as usize] += 1;
            }
        }
        for idx in 0..3usize
            invariant
                self@.has_empty_cell(),
                map@[0] == self@.exposed_count(0),
                map@[1] == self@.exposed_count(1),
                map@[2] == self@.exposed_count(2),
                forall|k: u8| k < idx ==> !#[trigger] self@.eligible(k),
        {
            if map[idx] == 4 {
                assert(self@.eligible(idx as u8));
                return (true, idx as u8);
            }
        }
        (false, NO_KIND)
    }

    /// Collects the lowest eligible group of special cards: removes its
    /// four exposed cards, locks the lowest cell that is then free, and
    /// returns the record of it. Refuses, and changes nothing, when no
    /// group is eligible.
    pub fn cut_spec(&mut self) -> (res: Result<SpecCut, MoveErr>)
        requires
            old(self).wf(),
        ensures
            final(self).wf(),
            old(self)@.scan_result().0 ==> res is Ok && res->Ok_0@ == old(self)@.cut_of(
                old(self)@.scan_result().1,
            ) && final(self)@ == old(self)@.locked(old(self)@.scan_result().1),
            !old(self)@.scan_result().0 ==> res == Err::<SpecCut, MoveErr>(MoveErr::CantMove)
                && *final(self) == *old(self),
    {
        let (found, kind) = self.scan_spec();
        if !found {
            return Err(MoveErr::CantMove);
        }
        let ghost before = self@;
        let ghost removed = before.group_removed(kind);
        proof {
            lemma_locked_wf(before, kind);
        }
        let mut columns: [bool; 8] = [false; 8];
        let mut cells: [bool; 3] = [false; 3];
        for idx in 0..8usize
            invariant
                before.wf(),
                removed == before.group_removed(kind),
                self.storage == old(self).storage,
                self.rev_cards == old(self).rev_cards,
                forall|i: int| 0 <= i < idx ==> (#[trigger] self.stks@[i])@ == removed.columns[i],
                forall|i: int| idx <= i < 8 ==> (#[trigger] self.stks@[i])@ == before.columns[i],
                forall|i: int|
                    0 <= i < idx ==> #[trigger] columns@[i] == (before.columns[i].last()
                        == Card::Spec(kind)),
                forall|i: int| idx <= i < 8 ==> !#[trigger] columns@[i],
        {
            assert(DecksView::column_wf(before.columns[idx as int]));
            let top = self.stks[idx][self.stks[idx].len() - 1];
            if top == Card::Spec(kind) {
                let _ = self.stks[idx].pop();
                columns[idx] = true;
            }
        }
        for idx in 0..3usize
            invariant
                removed == before.group_removed(kind),
                before.cells == old(self).storage@,
                self.rev_cards == old(self).rev_cards,
                forall|i: int| 0 <= i < 8 ==> (#[trigger] self.stks@[i])@ == removed.columns[i],
                forall|i: int| 0 <= i < idx ==> #[trigger] self.storage@[i] == removed.cells[i],
                forall|i: int| idx <= i < 3 ==> #[trigger] self.storage@[i] == before.cells[i],
                forall|i: int|
                    0 <= i < idx ==> #[trigger] cells@[i] == (before.cells[i] == Card::Spec(kind)),
                forall|i: int| idx <= i < 3 ==> !#[trigger] cells@[i],
        {
            if self.storage[idx] == Card::Spec(kind) {
                self.storage[idx] = Card::Empty;
                cells[idx] = true;
            }
        }
        assert(self.storage@ =~= removed.cells);
        let cell: u8 = if self.storage[0] == Card::Empty {
            0
        } else if self.storage[1] == Card::Empty {
            1
        } else {
            2
        };
        self.storage[cell as usize] = Card::Disable;
        let cut = SpecCut { kind, cell, columns, cells };
        assert(self@.columns =~= before.locked(kind).columns);
        assert(self@.cells =~= before.locked(kind).cells);
        assert(cut@.columns =~= before.cut_of(kind).columns);
        assert(cut@.cells =~= before.cut_of(kind).cells);
        Ok(cut)
    }

    /// Tells whether a record of collecting a group can be taken back.
    pub fn unlockable(&self, cut: &SpecCut) -> (ok: bool)
        ensures
            ok == self@.can_unlock(cut@),
    {
        if cut.kind >= 3 || cut.cell >= 3 {
            return false;
        }
        if self.storage[cut.cell as usize] != Card::Disable {
            return false;
        }
        let mut sites: u8 = 0;
        for idx in 0..8usize
            invariant
                sites == flagged(cut.columns@, idx as int),
                sites <= idx,
        {
            if cut.columns[idx] {
                sites += 1;
            }
        }
        let mut free = true;
        for idx in 0..3usize
            invariant
                cut.cell < 3,
                sites == flagged(cut.columns@, 8) + flagged(cut.cells@, idx as int),
                sites <= 8 + idx,
                free == forall|i: int|
                    0 <= i < idx && #[trigger] cut.cells@[i] && i != cut.cell ==> self.storage@[i]
                        == Card::Empty,
        {
            if cut.cells[idx] {
                sites += 1;
                if idx != cut.cell as usize && self.storage[idx] != Card::Empty {
                    free = false;
                }
            }
        }
        free && sites == 4
    }

    /// Takes the collection of a group back: frees the locked cell and
    /// returns a special card of the kind to each site the record lists.
    /// Refuses, and changes nothing, when the record cannot be taken back
    /// on this board.
    pub fn recover_cut_spec(&mut self, cut: &SpecCut) -> (res: Result<(), MoveErr>)
        requires
            old(self).wf(),
        ensures
            final(self).wf(),
            old(self)@.can_unlock(cut@) ==> res == Ok::<(), MoveErr>(())
                && final(self)@ == old(self)@.unlocked(cut@),
            !old(self)@.can_unlock(cut@) ==> res == Err::<(), MoveErr>(MoveErr::CantMove)
                && *final(self) == *old(self),
    {
        if !self.unlockable(cut) {
            return Err(MoveErr::CantMove);
        }
        let ghost before = self@;
        let ghost after = before.unlocked(cut@);
        proof {
            lemma_unlocked_wf(before, cut@);
        }
        for idx in 0..8usize
            invariant
                after == before.unlocked(cut@),
                self.storage == old(self).storage,
                self.rev_cards == old(self).rev_cards,
                forall|i: int| 0 <= i < idx ==> (#[trigger] self.stks@[i])@ == after.columns[i],
                forall|i: int| idx <= i < 8 ==> (#[trigger] self.stks@[i])@ == before.columns[i],
        {
            if cut.columns[idx] {
                self.stks[idx].push(Card::Spec(cut.kind));
            }
        }
        self.storage[cut.cell as usize] = Card::Empty;
        for idx in 0..3usize
            invariant
                after == before.unlocked(cut@),
                cut.cell < 3,
                before.cells == old(self).storage@,
                self.rev_cards == old(self).rev_cards,
                forall|i: int| 0 <= i < 8 ==> (#[trigger] self.stks@[i])@ == after.columns[i],
                forall|i: int| 0 <= i < idx ==> #[trigger] self.storage@[i] == after.cells[i],
                forall|i: int|
                    idx <= i < 3 ==> #[trigger] self.storage@[i] == (if i == cut.cell {
                        Card::Empty
                    } else {
                        before.cells[i]
                    }),
        {
            if cut.cells[idx] {
                self.storage[idx] = Card::Spec(cut.kind);
            }
        }
        assert(self@.columns =~= after.columns);
        assert(self@.cells =~= after.cells);
        Ok(())
    }
}

/// Collecting an eligible group keeps the board well-formed and neither
/// makes nor loses a card: the locked cell stands for the four.
pub proof fn lemma_locked_wf(b: DecksView, kind: u8)
    requires
        b.wf(),
        b.eligible(kind),
    ensures
        b.locked(kind).wf(),
        b.locked(kind).card_total() == b.card_total(),
        b.locked(kind).loose_cards() == b.loose_cards() - 4,
        b.cut_of(kind).site_count() == 4,
        b.group_removed(kind).has_empty_cell(),
{
    reveal_with_fuel(DecksView::tops_count, 9);
    reveal_with_fuel(DecksView::cells_count, 4);
    reveal_with_fuel(flagged, 9);
    let removed = b.group_removed(kind);
    let after = b.locked(kind);
    assert forall|i: int| 0 <= i < 8 implies DecksView::column_wf(
        #[trigger] after.columns[i],
    ) && after.columns[i].len() == b.columns[i].len() - hit(b.columns[i].last(), kind) by {
        assert(DecksView::column_wf(b.columns[i]));
    }
    assert forall|i: int| 0 <= i < 3 implies (#[trigger] removed.cells[i]).wf() && cell_weight(
        removed.cells[i],
    ) == cell_weight(b.cells[i]) - hit(b.cells[i], kind) by {
        assert(b.cells[i].wf());
    }
    let w = choose|i: int| 0 <= i < 3 && #[trigger] b.cells[i] == Card::Empty;
    assert(removed.cells[w] == Card::Empty);
    assert(removed.cells[0].wf() && removed.cells[1].wf() && removed.cells[2].wf());
    assert(after.columns[0].len() == b.columns[0].len() - hit(b.columns[0].last(), kind));
    assert(after.columns[1].len() == b.columns[1].len() - hit(b.columns[1].last(), kind));
    assert(after.columns[2].len() == b.columns[2].len() - hit(b.columns[2].last(), kind));
    assert(after.columns[3].len() == b.columns[3].len() - hit(b.columns[3].last(), kind));
    assert(after.columns[4].len() == b.columns[4].len() - hit(b.columns[4].last(), kind));
    assert(after.columns[5].len() == b.columns[5].len() - hit(b.columns[5].last(), kind));
    assert(after.columns[6].len() == b.columns[6].len() - hit(b.columns[6].last(), kind));
    assert(after.columns[7].len() == b.columns[7].len() - hit(b.columns[7].last(), kind));
    assert(removed.card_total() == b.card_total() - b.exposed_count(kind));
    assert(after.card_total() == removed.card_total() + 4);
    assert(removed.loose_cards() == b.loose_cards() - b.exposed_count(kind)) by {
        assert(loose(removed.cells[0]) == loose(b.cells[0]) - hit(b.cells[0], kind));
        assert(loose(removed.cells[1]) == loose(b.cells[1]) - hit(b.cells[1], kind));
        assert(loose(removed.cells[2]) == loose(b.cells[2]) - hit(b.cells[2], kind));
    }
    assert(after.loose_cards() == removed.loose_cards());
    assert forall|i: int| 0 <= i < 3 implies (#[trigger] after.cells[i]).wf() by {
        assert(removed.cells[i].wf());
    }
}

/// Taking back the collection of an eligible group restores the board.
pub proof fn lemma_unlock_restores(b: DecksView, kind: u8)
    requires
        b.wf(),
        b.eligible(kind),
    ensures
        b.locked(kind).can_unlock(b.cut_of(kind)),
        b.locked(kind).unlocked(b.cut_of(kind)) == b,
{
    lemma_locked_wf(b, kind);
    let after = b.locked(kind);
    let cut = b.cut_of(kind);
    let restored = after.unlocked(cut);
    assert forall|i: int| 0 <= i < 8 implies #[trigger] restored.columns[i] =~= b.columns[i] by {
        assert(DecksView::column_wf(b.columns[i]));
        if b.columns[i].last() == Card::Spec(kind) {
            assert(b.columns[i].drop_last().push(b.columns[i].last()) =~= b.columns[i]);
        }
    }
    assert(restored.columns =~= b.columns);
    assert(restored.cells =~= b.cells);
}

/// Taking back a record that can be taken back keeps the board
/// well-formed.
pub proof fn lemma_unlocked_wf(b: DecksView, cut: SpecCutView)
    requires
        b.wf(),
        b.can_unlock(cut),
    ensures
        b.unlocked(cut).wf(),
{
    reveal_with_fuel(flagged, 9);
    let after = b.unlocked(cut);
    assert forall|i: int| 0 <= i < 8 implies DecksView::column_wf(
        #[trigger] after.columns[i],
    ) && after.columns[i].len() == b.columns[i].len() + unit(cut.columns[i]) by {
        assert(DecksView::column_wf(b.columns[i]));
    }
    assert forall|i: int| 0 <= i < 3 implies (#[trigger] after.cells[i]).wf() by {
        assert(b.cells[i].wf());
    }
    assert(after.columns[0].len() == b.columns[0].len() + unit(cut.columns[0]));
    assert(after.columns[1].len() == b.columns[1].len() + unit(cut.columns[1]));
    assert(after.columns[2].len() == b.columns[2].len() + unit(cut.columns[2]));
    assert(after.columns[3].len() == b.columns[3].len() + unit(cut.columns[3]));
    assert(after.columns[4].len() == b.columns[4].len() + unit(cut.columns[4]));
    assert(after.columns[5].len() == b.columns[5].len() + unit(cut.columns[5]));
    assert(after.columns[6].len() == b.columns[6].len() + unit(cut.columns[6]));
    assert(after.columns[7].len() == b.columns[7].len() + unit(cut.columns[7]));
    assert(cut.cells[0] && 0 != cut.cell ==> b.cells[0] == Card::Empty);
    assert(cut.cells[1] && 1 != cut.cell ==> b.cells[1] == Card::Empty);
    assert(cut.cells[2] && 2 != cut.cell ==> b.cells[2] == Card::Empty);
    assert(after.card_total() == b.card_total() + cut.site_count() - 4);
}

} // verus!
