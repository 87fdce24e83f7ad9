//! Lines of play: what it means for a run to be lifted, for a line of
//! moves to win the game, and the replay of a line on a board.

use vstd::prelude::*;
use crate::board::{Decks, DecksView};
use crate::card::Card;
use crate::moves::COLUMN;

verus! {

/// A move: the position of the lowest card that moves, and the site it
/// goes to.
pub type Move = ((u8, u8, u8), (u8, u8));

/// The card at position `k` of a column lies on the card below it as the
/// stacking rule allows.
pub open spec fn sits_on(column: Seq<Card>, k: int) -> bool {
    column[k].spec_can_move_front_of(column[k - 1])
}

impl DecksView {
    /// Every card lies in a foundation or in a locked group: the
    /// foundations stand at 9, the columns hold their markers only, and no
    /// cell holds a playable card.
    pub open spec fn solved(self) -> bool {
        &&& forall|s: int| 0 <= s < 3 ==> #[trigger] self.foundations[s] == 9
        &&& forall|i: int| 0 <= i < 8 ==> (#[trigger] self.columns[i]).len() == 1
        &&& forall|i: int| 0 <= i < 3 ==> !(#[trigger] self.cells[i]).playable()
    }

    /// The run from position `at` of column `col` to its top can be
    /// lifted: it starts above the marker, and each card of it lies on the
    /// card below as the stacking rule allows.
    pub open spec fn liftable(self, col: int, at: int) -> bool {
        &&& 1 <= at < self.columns[col].len()
        &&& forall|k: int|
            at < k < self.columns[col].len() ==> #[trigger] sits_on(self.columns[col], k)
    }

    /// The move is one that the search makes: it is legal, and what it
    /// takes off a column is a run that can be lifted.
    pub open spec fn search_move(self, from: (u8, u8, u8), to: (u8, u8)) -> bool {
        self.legal_move(from, to) && (from.0 == COLUMN ==> self.liftable(
            from.1 as int,
            from.2 as int,
        ))
    }

    /// The moves win the game from this board when it is at rest: the
    /// first is a move that the search makes on it, and the others play
    /// out from the board it leaves.
    pub open spec fn won_by(self, moves: Seq<Move>) -> bool {
        moves.len() > 0 && self.search_move(moves[0].0, moves[0].1) && self.relocated(
            moves[0].0,
            moves[0].1,
        ).plays_out(moves.drop_first())
    }

    /// The board that the moves leave when they are played on this board
    /// at rest: the first is made on it, and the others are played from
    /// the board it leaves.
    pub open spec fn moved_on(self, moves: Seq<Move>) -> DecksView {
        self.relocated(moves[0].0, moves[0].1).played(moves.drop_first())
    }

    /// The moves win the game from this board: with every collection that
    /// offers itself made before the first move and after each move, every
    /// move is legal when it is made and lifts a run that can be lifted,
    /// and the last board is solved.
    pub open spec fn plays_out(self, moves: Seq<Move>) -> bool
        decreases moves.len(),
    {
        let rest = self.settled();
        if moves.len() == 0 {
            rest.solved()
        } else {
            rest.search_move(moves[0].0, moves[0].1) && rest.relocated(
                moves[0].0,
                moves[0].1,
            ).plays_out(moves.drop_first())
        }
    }

    /// The board that playing the moves leaves: collections are made
    /// before the first move and after each move, and play stops before
    /// the first move that is not one the search makes.
    pub open spec fn played(self, moves: Seq<Move>) -> DecksView
        decreases moves.len(),
    {
        let rest = self.settled();
        if moves.len() == 0 || !rest.search_move(moves[0].0, moves[0].1) {
            rest
        } else {
            rest.relocated(moves[0].0, moves[0].1).played(moves.drop_first())
        }
    }
}

impl Decks {
    /// Tells whether the game is won.
    pub fn is_solved(&self) -> (won: bool)
        requires
            self.wf(),
        ensures
            won == self@.solved(),
    {
        for s in 0..3usize
            invariant
                forall|i: int| 0 <= i < s ==> #[trigger] self@.foundations[i] == 9,
        {
            if self.rev_cards[s] != 9 {
                assert(self@.foundations[s as int] != 9);
                return false;
            }
        }
        for i in 0..8usize
            invariant
                forall|j: int| 0 <= j < i ==> (#[trigger] self@.columns[j]).len() == 1,
        {
            if self.stks[i].len() != 1 {
                assert(self@.columns[i as int].len() != 1);
                return false;
            }
        }
        for i in 0..3usize
            invariant
                self.wf(),
                forall|j: int| 0 <= j < i ==> !(#[trigger] self@.cells[j]).playable(),
        {
            let held = self.storage[i];
            assert(self@.cells[i as int].wf());
            if held != Card::Empty && held != Card::Disable {
                return false;
            }
        }
        true
    }

    /// Tells whether the run from position `at` of column `col` to its top
    /// can be lifted.
    pub fn is_liftable(&self, col: u8, at: u8) -> (ok: bool)
        requires
            self.wf(),
            col < 8,
        ensures
            ok == self@.liftable(col as int, at as int),
    {
        let column = &self.stks[col as usize];
        if at < 1 || at as usize >= column.len() {
            return false;
        }
        for k in (at as usize + 1)..column.len()
            invariant
                col < 8,
                1 <= at < column.len(),
                column@ == self@.columns[col as int],
                forall|j: int| at < j < k ==> #[trigger] sits_on(column@, j),
        {
            if !column[k].can_move_front_of(&column[k - 1]) {
                assert(!sits_on(column@, k as int));
                return false;
            }
        }
        true
    }

    /// Plays a line of moves, making the collections that offer themselves
    /// before the first move and after each one, and tells whether the
    /// line wins the game. Play stops before the first move that is not
    /// legal or lifts a run that cannot be lifted.
    pub fn play(&mut self, moves: &Vec<Move>) -> (won: bool)
        requires
            old(self).wf(),
        ensures
            final(self).wf(),
            won == old(self)@.plays_out(moves@),
            final(self)@ == old(self)@.played(moves@),
            won ==> final(self)@.solved(),
    {
        assert(moves@.skip(0) =~= moves@);
        for idx in 0..moves.len()
            invariant
                self.wf(),
                old(self)@.plays_out(moves@) == self@.plays_out(moves@.skip(idx as int)),
                old(self)@.played(moves@) == self@.played(moves@.skip(idx as int)),
        {
            let ghost line = moves@.skip(idx as int);
            assert(line[0] == moves@[idx as int]);
            assert(line.drop_first() =~= moves@.skip(idx + 1));
            let _ = self.settle();
            let (from, to) = moves[idx];
            if from.0 == COLUMN && !(from.1 < 8 && self.is_liftable(from.1, from.2)) {
                return false;
            }
            if self.try_to_move(from, to).is_err() {
                return false;
            }
        }
        let _ = self.settle();
        self.is_solved()
    }
}

/// A solved board is at rest: nothing is left to collect, so settling
/// leaves it as it is.
pub proof fn lemma_solved_is_settled(b: DecksView)
    requires
        b.wf(),
        b.solved(),
    ensures
        b.at_rest(),
        b.settled() == b,
{
    reveal_with_fuel(DecksView::first_collectable, 12);
    reveal_with_fuel(DecksView::tops_count, 9);
    reveal_with_fuel(DecksView::cells_count, 4);
    assert forall|i: int| 0 <= i < 8 implies (#[trigger] b.columns[i]).last() == Card::Empty by {
        assert(DecksView::column_wf(b.columns[i]));
    }
    assert forall|i: int| 0 <= i < 3 implies !((#[trigger] b.cells[i]) is Num) && !(b.cells[i]
        is Spec) by {
        assert(b.cells[i].wf());
        assert(!b.cells[i].playable());
    }
    assert(b.foundations[0] == 9 && b.foundations[1] == 9 && b.foundations[2] == 9);
    assert(b.cells[0].wf() && b.cells[1].wf() && b.cells[2].wf());
    assert(b.exposed_count(0) == 0 && b.exposed_count(1) == 0 && b.exposed_count(2) == 0);
}

} // verus!
