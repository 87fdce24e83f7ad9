//! Boards that differ only in which cell holds which card. The rules do
//! not tell such boards apart: what can be collected and moved on one can
//! be on the other, with the same outcome.

use vstd::prelude::*;
use crate::board::DecksView;
use crate::card::Card;
use crate::fingerprint::occurrences;
use crate::moves::{CELL, COLUMN};
use crate::settle::lemma_collect_step;

verus! {

/// The two boards have the same columns and foundations, and their cells
/// hold the same cards, in whatever order.
pub open spec fn alike(a: DecksView, b: DecksView) -> bool {
    &&& a.columns == b.columns
    &&& a.foundations == b.foundations
    &&& a.cells.len() == 3
    &&& b.cells.len() == 3
    &&& forall|x: Card| #[trigger] occurrences(a.cells, x) == occurrences(b.cells, x)
}

/// What holds of the cells of two boards that are alike, card by card:
/// each cell of one has its card in some cell of the other.
proof fn lemma_alike_cells(a: DecksView, b: DecksView)
    requires
        alike(a, b),
    ensures
        forall|i: int|
            0 <= i < 3 ==> exists|j: int| 0 <= j < 3 && b.cells[j] == #[trigger] a.cells[i],
        forall|i: int|
            0 <= i < 3 ==> exists|j: int| 0 <= j < 3 && a.cells[j] == #[trigger] b.cells[i],
{
    assert forall|i: int| 0 <= i < 3 implies exists|j: int|
        0 <= j < 3 && b.cells[j] == #[trigger] a.cells[i] by {
        let x = a.cells[i];
        assert(occurrences(a.cells, x) == occurrences(b.cells, x));
        if b.cells[0] == x {
        } else if b.cells[1] == x {
        } else {
            assert(b.cells[2] == x);
        }
    }
    assert forall|i: int| 0 <= i < 3 implies exists|j: int|
        0 <= j < 3 && a.cells[j] == #[trigger] b.cells[i] by {
        let x = b.cells[i];
        assert(occurrences(a.cells, x) == occurrences(b.cells, x));
        if a.cells[0] == x {
        } else if a.cells[1] == x {
        } else {
            assert(a.cells[2] == x);
        }
    }
}

/// Being alike is transitive.
pub proof fn lemma_alike_transitive(a: DecksView, b: DecksView, c: DecksView)
    requires
        alike(a, b),
        alike(b, c),
    ensures
        alike(a, c),
{
    assert forall|x: Card| #[trigger] occurrences(a.cells, x) == occurrences(c.cells, x) by {
        assert(occurrences(a.cells, x) == occurrences(b.cells, x));
        assert(occurrences(b.cells, x) == occurrences(c.cells, x));
    }
}

/// Boards that are alike are both solved or neither is.
pub proof fn lemma_alike_solved(a: DecksView, b: DecksView)
    requires
        alike(a, b),
    ensures
        a.solved() == b.solved(),
{
    lemma_alike_cells(a, b);
    if a.solved() {
        assert forall|i: int| 0 <= i < 3 implies !(#[trigger] b.cells[i]).playable() by {
            let j = choose|j: int| 0 <= j < 3 && a.cells[j] == b.cells[i];
            assert(!a.cells[j].playable());
        }
    }
    if b.solved() {
        assert forall|i: int| 0 <= i < 3 implies !(#[trigger] a.cells[i]).playable() by {
            let j = choose|j: int| 0 <= j < 3 && b.cells[j] == a.cells[i];
            assert(!b.cells[j].playable());
        }
    }
}

/// On boards that are alike the same groups of special cards are
/// eligible.
proof fn lemma_alike_scan(a: DecksView, b: DecksView)
    requires
        alike(a, b),
    ensures
        a.has_empty_cell() == b.has_empty_cell(),
        forall|kind: u8| a.exposed_count(kind) == b.exposed_count(kind),
        a.scan_result() == b.scan_result(),
{
    reveal_with_fuel(DecksView::cells_count, 4);
    reveal_with_fuel(DecksView::tops_count, 9);
    lemma_alike_cells(a, b);
    assert(occurrences(a.cells, Card::Empty) == occurrences(b.cells, Card::Empty));
    assert forall|kind: u8| a.exposed_count(kind) == b.exposed_count(kind) by {
        assert(occurrences(a.cells, Card::Spec(kind)) == occurrences(b.cells, Card::Spec(kind)));
        assert(a.cells_count(kind, 3) == occurrences(a.cells, Card::Spec(kind)));
        assert(b.cells_count(kind, 3) == occurrences(b.cells, Card::Spec(kind)));
    }
    assert(a.exposed_count(0) == b.exposed_count(0));
    assert(a.exposed_count(1) == b.exposed_count(1));
    assert(a.exposed_count(2) == b.exposed_count(2));
}

/// Locking the same group on boards that are alike leaves boards that
/// are alike.
proof fn lemma_alike_locked(a: DecksView, b: DecksView, kind: u8)
    requires
        alike(a, b),
        a.has_empty_cell(),
    ensures
        alike(a.locked(kind), b.locked(kind)),
{
    lemma_alike_scan(a, b);
    let la = a.locked(kind);
    let lb = b.locked(kind);
    assert(la.columns =~= lb.columns);
    assert forall|x: Card| #[trigger] occurrences(la.cells, x) == occurrences(lb.cells, x) by {
        assert(occurrences(a.cells, x) == occurrences(b.cells, x));
        assert(occurrences(a.cells, Card::Empty) == occurrences(b.cells, Card::Empty));
        assert(occurrences(a.cells, Card::Disable) == occurrences(b.cells, Card::Disable));
        assert(occurrences(a.cells, Card::Spec(kind)) == occurrences(b.cells, Card::Spec(kind)));
    }
}

/// The board with the card of cell `i` sent to its foundation, and the
/// board that is alike with the same card sent from cell `j`, are alike.
proof fn lemma_alike_collected_cells(a: DecksView, b: DecksView, i: u8, j: u8)
    requires
        alike(a, b),
        i < 3,
        j < 3,
        a.cells[i as int] == b.cells[j as int],
        a.cells[i as int] != Card::Empty,
    ensures
        alike(a.collected((CELL, i)), b.collected((CELL, j))),
{
    let ca = a.collected((CELL, i));
    let cb = b.collected((CELL, j));
    assert forall|x: Card| #[trigger] occurrences(ca.cells, x) == occurrences(cb.cells, x) by {
        assert(occurrences(a.cells, x) == occurrences(b.cells, x));
    }
}

/// One collection on each of two boards that are alike leaves boards that
/// are alike; and both boards are at rest or neither is.
pub proof fn lemma_alike_collect_step(a: DecksView, b: DecksView)
    requires
        alike(a, b),
        a.wf(),
        b.wf(),
    ensures
        a.at_rest() == b.at_rest(),
        alike(a.collect_step(), b.collect_step()),
{
    reveal_with_fuel(DecksView::first_collectable, 12);
    lemma_alike_scan(a, b);
    lemma_alike_cells(a, b);
    assert forall|k: int| 0 <= k < 8 implies a.offer(k) == b.offer(k) by {}
    assert forall|k: int| 8 <= k < 11 implies (a.offer(k) is Some) == (b.offer(k) is Some) by {
        let next = a.next_of_suit((k - 8) as u8);
        assert(next == b.next_of_suit((k - 8) as u8));
        assert(occurrences(a.cells, next) == occurrences(b.cells, next));
    }
    assert(a.offer(0) == b.offer(0) && a.offer(1) == b.offer(1) && a.offer(2) == b.offer(2)
        && a.offer(3) == b.offer(3) && a.offer(4) == b.offer(4) && a.offer(5) == b.offer(5)
        && a.offer(6) == b.offer(6) && a.offer(7) == b.offer(7));
    assert((a.offer(8) is Some) == (b.offer(8) is Some));
    assert((a.offer(9) is Some) == (b.offer(9) is Some));
    assert((a.offer(10) is Some) == (b.offer(10) is Some));
    match a.first_collectable(0) {
        Some(site) => {
            let other = b.first_collectable(0)->Some_0;
            if site.0 == COLUMN {
                assert(other == site);
                assert(a.collected(site).columns =~= b.collected(site).columns);
                assert forall|x: Card| #[trigger]
                    occurrences(a.collected(site).cells, x) == occurrences(
                        b.collected(site).cells,
                        x,
                    ) by {
                    assert(occurrences(a.cells, x) == occurrences(b.cells, x));
                }
            } else {
                assert(a.foundations[0] <= 9 && a.foundations[1] <= 9 && a.foundations[2] <= 9);
                lemma_alike_collected_cells(a, b, site.1, other.1);
            }
        },
        None => {
            if a.scan_result().0 {
                lemma_alike_locked(a, b, a.scan_result().1);
            }
        },
    }
}

/// Settling boards that are alike leaves boards that are alike.
pub proof fn lemma_alike_settled(a: DecksView, b: DecksView)
    requires
        alike(a, b),
        a.wf(),
        b.wf(),
    ensures
        alike(a.settled(), b.settled()),
    decreases a.loose_cards(),
{
    lemma_alike_collect_step(a, b);
    if !a.at_rest() {
        lemma_collect_step(a);
        lemma_collect_step(b);
        lemma_alike_settled(a.collect_step(), b.collect_step());
    }
}

/// The move that does on `b` what the move from `from` to `to` does on
/// `a`, when the boards are alike: the same move between columns; into
/// the lowest free cell of `b` for a move into a cell; out of the lowest
/// cell of `b` that holds the card for a move out of a cell.
pub open spec fn mirrored(a: DecksView, b: DecksView, from: (u8, u8, u8), to: (u8, u8)) -> (
    (u8, u8, u8),
    (u8, u8),
) {
    if from.0 == COLUMN && to.0 == COLUMN {
        (from, to)
    } else if from.0 == COLUMN {
        (from, (CELL, b.cell_holding(Card::Empty)->Some_0))
    } else {
        ((CELL, b.cell_holding(a.cells[from.1 as int])->Some_0, from.2), to)
    }
}

/// Cells that hold the same cards still do when one cell of each, which
/// held the same card, is given the same new content.
proof fn lemma_alike_cells_changed(
    a: Seq<Card>,
    b: Seq<Card>,
    i: int,
    j: int,
    card: Card,
)
    requires
        a.len() == 3,
        b.len() == 3,
        0 <= i < 3,
        0 <= j < 3,
        a[i] == b[j],
        forall|x: Card| #[trigger] occurrences(a, x) == occurrences(b, x),
    ensures
        forall|x: Card| #[trigger]
            occurrences(a.update(i, card), x) == occurrences(b.update(j, card), x),
{
    assert forall|x: Card| #[trigger]
        occurrences(a.update(i, card), x) == occurrences(b.update(j, card), x) by {
        assert(occurrences(a, x) == occurrences(b, x));
    }
}

/// A move between columns does the same on boards that are alike.
proof fn lemma_alike_move_columns(a: DecksView, b: DecksView, from: (u8, u8, u8), to: (u8, u8))
    requires
        alike(a, b),
        a.search_move(from, to),
        from.0 == COLUMN,
        to.0 == COLUMN,
    ensures
        b.search_move(from, to),
        alike(a.relocated(from, to), b.relocated(from, to)),
{
    assert(b.can_relocate(from, to));
    assert(b.card_at(from) == a.card_at(from));
    assert(b.target_card(to) == a.target_card(to));
    assert(b.liftable(from.1 as int, from.2 as int));
    let ra = a.relocated(from, to);
    let rb = b.relocated(from, to);
    assert(ra.cells == a.cells && rb.cells == b.cells);
    assert forall|x: Card| #[trigger] occurrences(ra.cells, x) == occurrences(rb.cells, x) by {
        assert(occurrences(a.cells, x) == occurrences(b.cells, x));
    }
}

/// A move into a free cell of one board does the same as the move into
/// any free cell of a board that is alike.
proof fn lemma_alike_move_to_cell(
    a: DecksView,
    b: DecksView,
    from: (u8, u8, u8),
    to: (u8, u8),
    cell: u8,
)
    requires
        alike(a, b),
        a.search_move(from, to),
        from.0 == COLUMN,
        to.0 == CELL,
        cell < 3,
        b.cells[cell as int] == Card::Empty,
    ensures
        b.search_move(from, (CELL, cell)),
        alike(a.relocated(from, to), b.relocated(from, (CELL, cell))),
{
    assert(b.can_relocate(from, (CELL, cell)));
    assert(b.liftable(from.1 as int, from.2 as int));
    let ra = a.relocated(from, to);
    let rb = b.relocated(from, (CELL, cell));
    assert(ra.columns =~= rb.columns);
    lemma_alike_cells_changed(
        a.cells,
        b.cells,
        to.1 as int,
        cell as int,
        a.columns[from.1 as int].last(),
    );
}

/// A move out of a cell of one board does the same as the move out of
/// any cell of a board that is alike which holds the same card.
proof fn lemma_alike_move_from_cell(
    a: DecksView,
    b: DecksView,
    from: (u8, u8, u8),
    to: (u8, u8),
    cell: u8,
)
    requires
        alike(a, b),
        a.search_move(from, to),
        from.0 == CELL,
        cell < 3,
        b.cells[cell as int] == a.cells[from.1 as int],
    ensures
        b.search_move((CELL, cell, from.2), to),
        alike(a.relocated(from, to), b.relocated((CELL, cell, from.2), to)),
{
    let other = (CELL, cell, from.2);
    assert(b.can_relocate(other, to));
    assert(b.card_at(other) == a.card_at(from));
    assert(b.target_card(to) == a.target_card(to));
    let ra = a.relocated(from, to);
    let rb = b.relocated(other, to);
    assert(ra.columns =~= rb.columns);
    lemma_alike_cells_changed(a.cells, b.cells, from.1 as int, cell as int, Card::Empty);
}

/// A move that the search makes on a board can be made on any board that
/// is alike, and leaves boards that are alike.
pub proof fn lemma_alike_move(a: DecksView, b: DecksView, from: (u8, u8, u8), to: (u8, u8))
    requires
        alike(a, b),
        a.search_move(from, to),
    ensures
        b.search_move(mirrored(a, b, from, to).0, mirrored(a, b, from, to).1),
        alike(
            a.relocated(from, to),
            b.relocated(mirrored(a, b, from, to).0, mirrored(a, b, from, to).1),
        ),
{
    if from.0 == COLUMN && to.0 == COLUMN {
        lemma_alike_move_columns(a, b, from, to);
    } else if from.0 == COLUMN {
        assert(occurrences(a.cells, Card::Empty) == occurrences(b.cells, Card::Empty));
        let cell = b.cell_holding(Card::Empty)->Some_0;
        lemma_alike_move_to_cell(a, b, from, to, cell);
    } else {
        let card = a.cells[from.1 as int];
        assert(occurrences(a.cells, card) == occurrences(b.cells, card));
        let cell = b.cell_holding(card)->Some_0;
        lemma_alike_move_from_cell(a, b, from, to, cell);
    }
}

} // verus!
