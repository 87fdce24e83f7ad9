//! The search: depth-first play with backtracking, which never looks at a
//! position twice.

use vstd::prelude::*;
use vstd::hash_set::StringHashSet;
use crate::board::{lemma_column_bounded, Decks, DecksView};
use crate::deal::{all_tokens_known, deal_cards, dealt, full_deck, DealErr};
use crate::line::{lemma_solved_is_settled, sits_on, Move};
use crate::moves::{lemma_legal_move_is_listed, lemma_undo_restores, CELL, COLUMN};
use crate::reach::{
    closed_family, closed_in, lemma_family_union, lemma_family_with_root, lemma_noted_from_start,
    lemma_noted_past_grows, lemma_noted_through, lemma_searched_through_no_win,
    lemma_uniform_like, noted_past, noted_within_reach, searched_through, uniform,
};
use crate::tally::{lemma_relocated_totals, lemma_settled_totals};

verus! {

/// How far a search has come.
#[derive(Clone, Copy, Debug, PartialEq, Eq, Structural)]
pub enum Status {
    /// The search has not run.
    Pending,
    /// A line of play that wins was found.
    Solved,
    /// The search came to an end without a win: it went through every
    /// position it could reach and found none that is won. Of a search
    /// that began with nothing looked at this says that the game cannot be
    /// won from where it began.
    Exhausted,
    /// The budget ran out before the search came to an end; whether the
    /// deal can be won is not known. Each unit of the budget went into a
    /// position that had not been looked at before.
    Aborted,
}

/// A search in progress or at its end.
pub struct Solve {
    /// The canonical strings of the positions looked at so far.
    pub flag_set: StringHashSet,
    /// The board, which the search changes in place.
    pub deck: Decks,
    /// The moves made from the first position to the present one.
    pub solution: Vec<Move>,
    /// How many more positions the search may expand.
    pub budget: u64,
    /// What the search has found.
    pub status: Status,
}

/// The number of positions a search may expand unless told otherwise.
pub const DEFAULT_BUDGET: u64 = 2000;

impl Solve {
    /// Starts a search on a board, with nothing looked at and no move
    /// made.
    pub fn from_deck(deck: Decks, budget: u64) -> (sol: Solve)
        ensures
            sol.deck == deck,
            sol.flag_set@ == Set::<Seq<char>>::empty(),
            sol.flag_set@.finite(),
            sol.solution@ == Seq::<Move>::empty(),
            sol.budget == budget,
            sol.status == Status::Pending,
    {
        Solve {
            deck,
            flag_set: StringHashSet::new(),
            solution: Vec::new(),
            budget,
            status: Status::Pending,
        }
    }

    /// Reads a deal and starts a search on it. Refuses what `Decks::new`
    /// refuses.
    pub fn new(init: String) -> (res: Result<Solve, DealErr>)
        ensures
            init@.len() != 80 ==> res is Err && res->Err_0 == DealErr::Length,
            init@.len() == 80 && !all_tokens_known(init@) ==> res is Err && res->Err_0
                == DealErr::Token,
            init@.len() == 80 && all_tokens_known(init@) && !full_deck(deal_cards(init@))
                ==> res is Err && res->Err_0 == DealErr::Deck,
            init@.len() == 80 && all_tokens_known(init@) && full_deck(deal_cards(init@))
                ==> res is Ok && res->Ok_0.deck@ == dealt(deal_cards(init@))
                && res->Ok_0.deck.wf() && res->Ok_0.flag_set@ == Set::<Seq<char>>::empty()
                && res->Ok_0.flag_set@.finite() && res->Ok_0.solution@ == Seq::<Move>::empty()
                && res->Ok_0.budget == DEFAULT_BUDGET && res->Ok_0.status == Status::Pending,
    {
        match Decks::new(init) {
            Ok(deck) => Ok(Solve::from_deck(deck, DEFAULT_BUDGET)),
            Err(e) => Err(e),
        }
    }

    /// Notes the present position as looked at.
    pub fn mark(&mut self)
        requires
            old(self).deck.wf(),
        ensures
            final(self).flag_set@ == old(self).flag_set@.insert(old(self).deck@.fingerprint()),
            old(self).flag_set@.finite() ==> final(self).flag_set@.finite(),
            final(self).deck == old(self).deck,
            final(self).solution == old(self).solution,
            final(self).budget == old(self).budget,
            final(self).status == old(self).status,
    {
        let flag = self.deck.into_string();
        let _ = self.flag_set.insert(flag);
    }
}

impl Solve {
    /// What every search step keeps: the board is well-formed, nothing
    /// looked at is forgotten, the budget has not grown, and for each unit
    /// of budget that was spent a position was newly noted.
    pub open spec fn kept(&self, before: &Solve) -> bool {
        &&& self.deck.wf()
        &&& self.flag_set@.finite()
        &&& before.flag_set@.subset_of(self.flag_set@)
        &&& self.budget <= before.budget
        &&& self.flag_set@.len() + self.budget >= before.flag_set@.len() + before.budget
        &&& self.status == before.status
    }

    /// The search gave up for want of budget: the budget is spent, and a
    /// position was newly noted for each unit that there was of it, and
    /// one more, which found the budget empty.
    pub open spec fn ran_out(&self, before: &Solve) -> bool {
        &&& self.budget == 0
        &&& self.flag_set@.len() >= before.flag_set@.len() + before.budget + 1
    }

    /// The moves made before `before` are still there, in front.
    pub open spec fn grown(&self, before: &Solve) -> bool {
        &&& self.solution@.len() >= before.solution@.len()
        &&& self.solution@.take(before.solution@.len() as int) == before.solution@
    }

    /// The moves made since `before`.
    pub open spec fn added(&self, before: &Solve) -> Seq<Move> {
        self.solution@.skip(before.solution@.len() as int)
    }

    /// The position that the move leads to from `board` was looked at.
    pub open spec fn looked_past(
        &self,
        board: DecksView,
        from: (u8, u8, u8),
        to: (u8, u8),
    ) -> bool {
        self.flag_set@.contains(board.relocated(from, to).fingerprint())
    }

    /// What a search step that has not won leaves: the board and the moves
    /// as they were.
    pub open spec fn restored(&self, before: &Solve) -> bool {
        self.deck@ == before.deck@ && self.solution@ == before.solution@
    }

    /// Tries every legal move of the cards at `pos`, and searches on from
    /// each board that results. Returns with the outcome the boards that
    /// were searched through.
    fn explore(&mut self, pos: (u8, u8, u8)) -> (res: (Status, Ghost<Set<DecksView>>))
        requires
            old(self).deck.wf(),
            old(self).flag_set@.finite(),
            old(self).deck@.at_rest(),
            old(self).deck@.readable(pos),
            pos.0 == COLUMN ==> old(self).deck@.liftable(pos.1 as int, pos.2 as int),
        ensures
            final(self).kept(old(self)),
            noted_past(old(self).deck@, old(self).flag_set@, final(self).flag_set@),
            res.0 != Status::Pending,
            res.0 == Status::Solved ==> final(self).deck@.solved() && final(self).grown(old(self))
                && old(self).deck@.won_by(final(self).added(old(self))) && final(self).deck@
                == old(self).deck@.moved_on(final(self).added(old(self))),
            res.0 != Status::Solved ==> final(self).restored(old(self)),
            res.0 == Status::Aborted ==> final(self).ran_out(old(self)),
            res.0 == Status::Exhausted ==> closed_family(
                res.1@,
                old(self).flag_set@,
                final(self).flag_set@,
            ) && uniform(res.1@, old(self).deck@),
            res.0 == Status::Exhausted ==> forall|to: (u8, u8)| #[trigger]
                old(self).deck@.legal_move(pos, to) ==> final(self).looked_past(
                    old(self).deck@,
                    pos,
                    to,
                ),
        decreases old(self).budget, 1int,
    {
        let targets = self.deck.seek_possible_move(pos);
        let ghost board = self.deck@;
        let ghost made = self.solution@;
        let ghost family = Set::<DecksView>::empty();
        for idx in 0..targets.len()
            invariant
                self.kept(old(self)),
                self.deck@ == board,
                board == old(self).deck@,
                self.solution@ == made,
                made == old(self).solution@,
                pos.0 == COLUMN ==> board.liftable(pos.1 as int, pos.2 as int),
                closed_family(family, old(self).flag_set@, self.flag_set@),
                uniform(family, board),
                board.at_rest(),
                noted_past(board, old(self).flag_set@, self.flag_set@),
                forall|j: int|
                    0 <= j < idx && board.legal_move(pos, #[trigger] targets@[j])
                        ==> self.looked_past(board, pos, targets@[j]),
        {
            let to = targets[idx];
            match self.deck.try_to_move(pos, to) {
                Ok(back) => {
                    self.solution.push((pos, to));
                    let ghost flags = self.flag_set@;
                    let (outcome, found) = self.search_within();
                    proof {
                        lemma_noted_through(board, pos, to, flags, self.flag_set@);
                        lemma_noted_past_grows(board, old(self).flag_set@, flags, self.flag_set@);
                    }
                    if outcome == Status::Solved {
                        proof {
                            lemma_added_after_push(made, (pos, to), self.solution@);
                        }
                        return (Status::Solved, Ghost(family));
                    }
                    let _ = self.solution.pop();
                    proof {
                        lemma_undo_restores(board, pos, to);
                        assert(self.solution@ =~= made);
                    }
                    let _ = self.deck.undo_move(back);
                    if outcome == Status::Aborted {
                        return (Status::Aborted, Ghost(family));
                    }
                    proof {
                        lemma_family_union(
                            family,
                            found@,
                            old(self).flag_set@,
                            flags,
                            self.flag_set@,
                        );
                        lemma_relocated_totals(board, pos, to);
                        lemma_uniform_like(found@, board.relocated(pos, to), board);
                        family = family.union(found@);
                    }
                },
                Err(_) => {},
            }
        }
        proof {
            assert forall|to: (u8, u8)| #[trigger]
                board.legal_move(pos, to) implies self.looked_past(board, pos, to) by {
                lemma_legal_move_is_listed(board, pos, to);
                let j = choose|j: int| 0 <= j < targets@.len() && targets@[j] == to;
                assert(board.legal_move(pos, targets@[j]));
            }
        }
        (Status::Exhausted, Ghost(family))
    }

    /// Tries the moves of every run that can be lifted off one column,
    /// from its top card down.
    fn explore_column(&mut self, col: u8) -> (res: (Status, Ghost<Set<DecksView>>))
        requires
            old(self).deck.wf(),
            old(self).flag_set@.finite(),
            old(self).deck@.at_rest(),
            col < 8,
        ensures
            final(self).kept(old(self)),
            noted_past(old(self).deck@, old(self).flag_set@, final(self).flag_set@),
            res.0 != Status::Pending,
            res.0 == Status::Solved ==> final(self).deck@.solved() && final(self).grown(old(self))
                && old(self).deck@.won_by(final(self).added(old(self))) && final(self).deck@
                == old(self).deck@.moved_on(final(self).added(old(self))),
            res.0 != Status::Solved ==> final(self).restored(old(self)),
            res.0 == Status::Aborted ==> final(self).ran_out(old(self)),
            res.0 == Status::Exhausted ==> closed_family(
                res.1@,
                old(self).flag_set@,
                final(self).flag_set@,
            ) && uniform(res.1@, old(self).deck@),
            res.0 == Status::Exhausted ==> forall|from: (u8, u8, u8), to: (u8, u8)|
                from.0 == COLUMN && from.1 == col && #[trigger] old(self).deck@.search_move(
                    from,
                    to,
                ) ==> final(self).looked_past(old(self).deck@, from, to),
        decreases old(self).budget, 2int,
    {
        let ghost board = self.deck@;
        let ghost family = Set::<DecksView>::empty();
        assert(DecksView::column_wf(board.columns[col as int]));
        proof {
            lemma_column_bounded(board, col as int);
        }
        let mut at: usize = self.deck.stks[col as usize].len() - 1;
        let mut going = at >= 1;
        while going
            invariant
                col < 8,
                at < board.columns[col as int].len() <= 41,
                going ==> at >= 1 && board.liftable(col as int, at as int),
                self.kept(old(self)),
                self.deck@ == board,
                board == old(self).deck@,
                self.solution@ == old(self).solution@,
                closed_family(family, old(self).flag_set@, self.flag_set@),
                uniform(family, board),
                board.at_rest(),
                noted_past(board, old(self).flag_set@, self.flag_set@),
                forall|from: (u8, u8, u8), to: (u8, u8)|
                    from.0 == COLUMN && from.1 == col && (going ==> from.2 > at)
                        && #[trigger] board.search_move(from, to) ==> self.looked_past(
                        board,
                        from,
                        to,
                    ),
            decreases at, (if going { 1int } else { 0int }),
        {
            let ghost flags = self.flag_set@;
            let (outcome, found) = self.explore((COLUMN, col, at as u8));
            proof {
                lemma_noted_past_grows(board, old(self).flag_set@, flags, self.flag_set@);
            }
            if outcome != Status::Exhausted {
                return (outcome, Ghost(family));
            }
            proof {
                lemma_family_union(family, found@, old(self).flag_set@, flags, self.flag_set@);
                family = family.union(found@);
                assert forall|from: (u8, u8, u8), to: (u8, u8)|
                    from.0 == COLUMN && from.1 == col && from.2 >= at
                        && #[trigger] board.search_move(from, to) implies self.looked_past(
                    board,
                    from,
                    to,
                ) by {
                    if from.2 == at {
                        assert(from == (COLUMN, col, at as u8));
                        assert(board.legal_move((COLUMN, col, at as u8), to));
                    }
                }
            }
            let column = &self.deck.stks[col as usize];
            if at >= 2 && column[at].can_move_front_of(&column[at - 1]) {
                assert(sits_on(board.columns[col as int], at as int));
                at = at - 1;
            } else {
                proof {
                    assert forall|from: (u8, u8, u8), to: (u8, u8)|
                        from.0 == COLUMN && from.1 == col && from.2
                            < at implies !#[trigger] board.search_move(from, to) by {
                        if board.liftable(col as int, from.2 as int) {
                            assert(sits_on(board.columns[col as int], at as int));
                        }
                    }
                }
                going = false;
            }
        }
        (Status::Exhausted, Ghost(family))
    }

    /// Searches from the present position and returns with the outcome
    /// the boards that were searched through.
    fn search_within(&mut self) -> (res: (Status, Ghost<Set<DecksView>>))
        requires
            old(self).deck.wf(),
            old(self).flag_set@.finite(),
        ensures
            final(self).kept(old(self)),
            noted_within_reach(old(self).deck@, old(self).flag_set@, final(self).flag_set@),
            res.0 != Status::Pending,
            res.0 == Status::Solved ==> final(self).deck@.solved() && final(self).grown(old(self))
                && old(self).deck@.plays_out(final(self).added(old(self))) && final(self).deck@
                == old(self).deck@.played(final(self).added(old(self))),
            res.0 != Status::Solved ==> final(self).restored(old(self)),
            res.0 == Status::Aborted ==> final(self).ran_out(old(self)),
            old(self).flag_set@.contains(old(self).deck@.fingerprint()) ==> res.0
                == Status::Exhausted && final(self).flag_set@ == old(self).flag_set@,
            final(self).flag_set@.contains(old(self).deck@.fingerprint()),
            !old(self).flag_set@.contains(old(self).deck@.fingerprint())
                && old(self).deck@.settled().solved() ==> res.0 == Status::Solved
                && final(self).solution@ == old(self).solution@ && final(self).deck@
                == old(self).deck@.settled(),
            res.0 == Status::Exhausted ==> closed_family(
                res.1@,
                old(self).flag_set@,
                final(self).flag_set@,
            ) && uniform(res.1@, old(self).deck@),
            res.0 == Status::Exhausted && !old(self).flag_set@.contains(
                old(self).deck@.fingerprint(),
            ) ==> res.1@.contains(old(self).deck@),
        decreases old(self).budget, 0int,
    {
        let ghost family = Set::<DecksView>::empty();
        let flag = self.deck.into_string();
        if self.flag_set.contains(flag.as_str()) {
            return (Status::Exhausted, Ghost(family));
        }
        let _ = self.flag_set.insert(flag);
        let ghost entry = self.deck@;
        let ghost made = self.solution@;
        let ghost marked = self.flag_set@;
        assert(made.take(made.len() as int) =~= made);
        let log = self.deck.settle();
        let ghost board = self.deck@;
        proof {
            lemma_noted_from_start(entry, old(self).flag_set@, marked);
        }
        if self.deck.is_solved() {
            assert(self.added(old(self)) =~= Seq::<Move>::empty());
            return (Status::Solved, Ghost(family));
        }
        if self.budget == 0 {
            let _ = self.deck.unsettle(&log);
            return (Status::Aborted, Ghost(family));
        }
        self.budget = self.budget - 1;
        let mut site: u8 = 0;
        while site < 11
            invariant
                site <= 11,
                self.kept(old(self)),
                self.budget < old(self).budget,
                !old(self).flag_set@.contains(old(self).deck@.fingerprint()),
                marked == old(self).flag_set@.insert(entry.fingerprint()),
                marked.subset_of(self.flag_set@),
                entry == old(self).deck@,
                entry.wf(),
                self.deck@ == board,
                board == entry.settled(),
                !board.solved(),
                self.solution@ == old(self).solution@,
                board.can_rewind(log.deep_view()),
                board.rewound(log.deep_view()) == entry,
                closed_family(family, marked, self.flag_set@),
                uniform(family, board),
                board.at_rest(),
                noted_past(board, marked, self.flag_set@),
                forall|from: (u8, u8, u8), to: (u8, u8)|
                    source_index(from) < site && #[trigger] board.search_move(from, to)
                        ==> self.looked_past(board, from, to),
            decreases 11 - site,
        {
            let ghost before = *self;
            let (outcome, found) = if site < 8 {
                self.explore_column(site)
            } else {
                self.explore((CELL, (site - 8) as u8, 0))
            };
            proof {
                lemma_noted_past_grows(board, marked, before.flag_set@, self.flag_set@);
                lemma_noted_from_start(entry, old(self).flag_set@, self.flag_set@);
            }
            if outcome == Status::Solved {
                proof {
                    assert(self.added(old(self)) == self.added(&before));
                }
                return (Status::Solved, Ghost(family));
            }
            if outcome == Status::Aborted {
                let _ = self.deck.unsettle(&log);
                return (Status::Aborted, Ghost(family));
            }
            proof {
                lemma_family_union(family, found@, marked, before.flag_set@, self.flag_set@);
                family = family.union(found@);
                assert forall|from: (u8, u8, u8), to: (u8, u8)|
                    source_index(from) <= site && #[trigger] board.search_move(
                        from,
                        to,
                    ) implies self.looked_past(board, from, to) by {
                    if source_index(from) == site && site >= 8 {
                        let cell = (CELL, (site - 8) as u8, 0u8);
                        assert(board.legal_move(cell, to));
                        assert(board.relocated(cell, to) == board.relocated(from, to));
                    }
                }
            }
            site = site + 1;
        }
        let _ = self.deck.unsettle(&log);
        proof {
            assert(closed_in(entry, self.flag_set@)) by {
                assert forall|from: (u8, u8, u8), to: (u8, u8)| #[trigger]
                    board.search_move(from, to) implies self.flag_set@.contains(
                    board.relocated(from, to).fingerprint(),
                ) by {
                    assert(self.looked_past(board, from, to));
                }
            }
            lemma_noted_from_start(entry, old(self).flag_set@, self.flag_set@);
            lemma_family_with_root(family, entry, old(self).flag_set@, self.flag_set@);
            lemma_settled_totals(entry);
            lemma_uniform_like(family, board, entry);
            family = family.insert(entry);
        }
        (Status::Exhausted, Ghost(family))
    }

    /// Searches from the present position: gives up at once if it was
    /// looked at before; else notes it, makes the collections that offer
    /// themselves, and, unless the game is then won, tries in turn every
    /// legal move of every run that can be lifted and of every card in a
    /// cell, searching on from each. A position from which no line of play
    /// was found is left as it was.
    pub fn search(&mut self) -> (outcome: Status)
        requires
            old(self).deck.wf(),
            old(self).flag_set@.finite(),
        ensures
            final(self).kept(old(self)),
            noted_within_reach(old(self).deck@, old(self).flag_set@, final(self).flag_set@),
            outcome != Status::Pending,
            outcome == Status::Solved ==> final(self).deck@.solved() && final(self).grown(
                old(self),
            ) && old(self).deck@.plays_out(final(self).added(old(self))),
            outcome == Status::Solved ==> final(self).deck@ == old(self).deck@.played(
                final(self).added(old(self)),
            ),
            outcome != Status::Solved ==> final(self).restored(old(self)),
            outcome == Status::Aborted ==> final(self).budget == 0 && final(self).flag_set@.len()
                >= old(self).flag_set@.len() + old(self).budget + 1,
            old(self).flag_set@.contains(old(self).deck@.fingerprint()) ==> outcome
                == Status::Exhausted && final(self).flag_set@ == old(self).flag_set@,
            final(self).flag_set@.contains(old(self).deck@.fingerprint()),
            !old(self).flag_set@.contains(old(self).deck@.fingerprint())
                && old(self).deck@.settled().solved() ==> outcome == Status::Solved
                && final(self).solution@ == old(self).solution@ && final(self).deck@
                == old(self).deck@.settled(),
            outcome == Status::Exhausted && !old(self).flag_set@.contains(
                old(self).deck@.fingerprint(),
            ) ==> searched_through(old(self).deck@, old(self).flag_set@, final(self).flag_set@),
            outcome == Status::Exhausted && old(self).flag_set@ == Set::<Seq<char>>::empty()
                ==> forall|moves: Seq<Move>| !#[trigger] old(self).deck@.plays_out(moves),
    {
        let (outcome, found) = self.search_within();
        proof {
            if outcome == Status::Exhausted && !old(self).flag_set@.contains(
                old(self).deck@.fingerprint(),
            ) {
                assert(found@.contains(old(self).deck@));
            }
            if outcome == Status::Exhausted && old(self).flag_set@ == Set::<Seq<char>>::empty() {
                assert forall|moves: Seq<Move>| !#[trigger] old(self).deck@.plays_out(moves) by {
                    lemma_searched_through_no_win(old(self).deck@, self.flag_set@, moves);
                }
            }
        }
        outcome
    }

    /// Runs the search from the present position and records how it
    /// ended. Whatever the end, every string it noted is that of a
    /// position within reach of the board it started on. When it ends with
    /// `Solved`, the moves added to `solution` win the game from that
    /// board, and the board is left as those moves leave it. When it ends
    /// otherwise the board and the moves are as they were. `Aborted` means
    /// that the budget is spent: for each unit of it a position was newly
    /// noted, and one more, which found the budget empty.
    /// `Exhausted` means, unless the position had been
    /// looked at before, that the search went through every position
    /// within reach; when the search began with nothing looked at, no line
    /// of moves at all wins from the board it started on.
    pub fn dfs(now: Solve) -> (done: Solve)
        requires
            now.deck.wf(),
            now.flag_set@.finite(),
        ensures
            done.deck.wf(),
            done.status != Status::Pending,
            done.flag_set@.finite(),
            now.flag_set@.subset_of(done.flag_set@),
            done.flag_set@.contains(now.deck@.fingerprint()),
            done.budget <= now.budget,
            done.flag_set@.len() + done.budget >= now.flag_set@.len() + now.budget,
            noted_within_reach(now.deck@, now.flag_set@, done.flag_set@),
            done.grown(&now),
            done.status == Status::Solved ==> done.deck@.solved() && now.deck@.plays_out(
                done.added(&now),
            ) && done.deck@ == now.deck@.played(done.added(&now)),
            done.status != Status::Solved ==> done.restored(&now),
            done.status == Status::Aborted ==> done.budget == 0 && done.flag_set@.len()
                >= now.flag_set@.len() + now.budget + 1,
            now.flag_set@.contains(now.deck@.fingerprint()) ==> done.status == Status::Exhausted
                && done.flag_set@ == now.flag_set@,
            !now.flag_set@.contains(now.deck@.fingerprint()) && now.deck@.settled().solved()
                ==> done.status == Status::Solved && done.solution@ == now.solution@
                && done.deck@ == now.deck@.settled(),
            !now.flag_set@.contains(now.deck@.fingerprint()) && now.deck@.solved()
                ==> done.status == Status::Solved && done.solution@ == now.solution@
                && done.deck@ == now.deck@,
            done.status == Status::Exhausted && !now.flag_set@.contains(now.deck@.fingerprint())
                ==> searched_through(now.deck@, now.flag_set@, done.flag_set@),
            done.status == Status::Exhausted && now.flag_set@ == Set::<Seq<char>>::empty()
                ==> forall|moves: Seq<Move>| !#[trigger] now.deck@.plays_out(moves),
    {
        let mut now = now;
        let ghost made = now.solution@;
        proof {
            if now.deck@.solved() {
                lemma_solved_is_settled(now.deck@);
            }
        }
        let outcome = now.search();
        now.status = outcome;
        assert(made.take(made.len() as int) =~= made);
        now
    }
}

/// The place of a move's source among the sites: a column's number, or 8
/// and more for a cell.
pub open spec fn source_index(from: (u8, u8, u8)) -> int {
    if from.0 == COLUMN {
        from.1 as int
    } else {
        8 + from.1
    }
}

/// The moves added to `made` by pushing `first` and then growing the list
/// to `grown` are `first` followed by what was added after the push.
proof fn lemma_added_after_push(made: Seq<Move>, first: Move, grown: Seq<Move>)
    requires
        grown.len() >= made.len() + 1,
        grown.take(made.len() as int + 1) == made.push(first),
    ensures
        grown.take(made.len() as int) == made,
        grown.skip(made.len() as int).len() > 0,
        grown.skip(made.len() as int)[0] == first,
        grown.skip(made.len() as int).drop_first() == grown.skip(made.len() as int + 1),
{
    let n = made.len() as int;
    assert(grown.take(n) =~= grown.take(n + 1).take(n));
    assert(made.push(first).take(n) =~= made);
    assert(grown[n] == grown.take(n + 1)[n]);
    assert(grown.skip(n).drop_first() =~= grown.skip(n + 1));
}

} // verus!
