//! The canonical string of a board, by which positions that differ only in
//! the order of their cells are recognised as one.

use vstd::prelude::*;
use crate::board::{Decks, DecksView};
use crate::card::Card;

verus! {

/// The symbol that ends the encoding of each column.
pub const SEPARATOR: char = ';';

/// The two cards in order: the one with the smaller key first.
pub open spec fn ordered_pair(a: Card, b: Card) -> (Card, Card) {
    if b.order_key() < a.order_key() {
        (b, a)
    } else {
        (a, b)
    }
}

/// The three cells in the order of cards, smallest first.
pub open spec fn sorted_cells(cells: Seq<Card>) -> Seq<Card> {
    let (a, b) = ordered_pair(cells[0], cells[1]);
    let (b, c) = ordered_pair(b, cells[2]);
    let (a, b) = ordered_pair(a, b);
    seq![a, b, c]
}

/// The symbols of a run of cards, one for each.
pub open spec fn encode_cards(cards: Seq<Card>) -> Seq<char> {
    Seq::new(cards.len(), |i: int| cards[i].spec_into_char())
}

/// The encoding of one column: the symbols of the cards above its marker,
/// then the separator.
pub open spec fn column_code(column: Seq<Card>) -> Seq<char> {
    encode_cards(column.skip(1)).push(SEPARATOR)
}

/// The encodings of the first `n` columns, one after the other.
pub open spec fn columns_code(columns: Seq<Seq<Card>>, n: int) -> Seq<char>
    decreases n,
{
    if n <= 0 {
        Seq::empty()
    } else {
        columns_code(columns, n - 1) + column_code(columns[n - 1])
    }
}

impl DecksView {
    /// The canonical string of the board: the symbols of the three cells
    /// in the order of cards, then the encoding of each column in turn.
    /// The foundations do not appear: the cards missing from the board
    /// tell them.
    pub open spec fn fingerprint(self) -> Seq<char> {
        encode_cards(sorted_cells(self.cells)) + columns_code(self.columns, 8)
    }
}

/// Appends one character to a string. Calls `String::push`, which adds the
/// character at the end and leaves the rest as it was.
#[verifier::external_body]
fn push_char(text: &mut String, symbol: char)
    ensures
        final(text)@ == old(text)@.push(symbol),
{
    text.push(symbol);
}

/// Puts two cards in order, the one with the smaller key first.
fn order_pair(a: Card, b: Card) -> (res: (Card, Card))
    ensures
        res == ordered_pair(a, b),
{
    if b.sort_key() < a.sort_key() {
        (b, a)
    } else {
        (a, b)
    }
}

impl Decks {
    /// Writes the canonical string of the board.
    pub fn into_string(&self) -> (flag: String)
        requires
            self.wf(),
        ensures
            flag@ == self@.fingerprint(),
    {
        let (a, b) = order_pair(self.storage[0], self.storage[1]);
        let (b, c) = order_pair(b, self.storage[2]);
        let (a, b) = order_pair(a, b);
        assert(seq![a, b, c] == sorted_cells(self@.cells));
        assert(a.wf() && b.wf() && c.wf()) by {
            assert(self@.cells[0].wf() && self@.cells[1].wf() && self@.cells[2].wf());
        }
        let mut flag = String::new();
        push_char(&mut flag, a.into_char());
        push_char(&mut flag, b.into_char());
        push_char(&mut flag, c.into_char());
        assert(flag@ =~= encode_cards(sorted_cells(self@.cells)));
        let ghost head = flag@;
        for idx in 0..8usize
            invariant
                self.wf(),
                flag@ == head + columns_code(self@.columns, idx as int),
        {
            let column = &self.stks[idx];
            let ghost start = flag@;
            assert(DecksView::column_wf(self@.columns[idx as int]));
            for k in 1..column.len()
                invariant
                    column@ == self@.columns[idx as int],
                    DecksView::column_wf(column@),
                    1 <= column.len(),
                    flag@ == start + encode_cards(column@.subrange(1, k as int)),
            {
                assert(column@[k as int].playable());
                push_char(&mut flag, column[k].into_char());
                assert(encode_cards(column@.subrange(1, k + 1)) =~= encode_cards(
                    column@.subrange(1, k as int),
                ).push(column@[k as int].spec_into_char()));
            }
            assert(column@.subrange(1, column.len() as int) =~= column@.skip(1));
            push_char(&mut flag, SEPARATOR);
            assert(flag@ =~= head + columns_code(self@.columns, idx + 1));
        }
        flag
    }
}

/// How often `x` occurs among three cells.
pub open spec fn occurrences(cells: Seq<Card>, x: Card) -> int {
    (if cells[0] == x { 1int } else { 0 }) + (if cells[1] == x { 1int } else { 0 }) + (if cells[2]
        == x { 1int } else { 0 })
}

/// Among three cells a card occurs as often as in their multiset.
pub proof fn lemma_occurrences(cells: Seq<Card>, x: Card)
    requires
        cells.len() == 3,
    ensures
        cells.to_multiset().count(x) == occurrences(cells, x),
{
    broadcast use vstd::multiset::group_multiset_axioms;

    let e = Seq::<Card>::empty();
    vstd::seq_lib::to_multiset_contains(e, x);
    vstd::seq_lib::to_multiset_build(e, cells[0]);
    vstd::seq_lib::to_multiset_build(e.push(cells[0]), cells[1]);
    vstd::seq_lib::to_multiset_build(e.push(cells[0]).push(cells[1]), cells[2]);
    assert(cells =~= e.push(cells[0]).push(cells[1]).push(cells[2]));
}

/// The order of the cells does not matter to their sorted form: two
/// triples of cells that hold the same cards sort to the same sequence.
pub proof fn lemma_sorted_cells_of_rearrangement(x: Seq<Card>, y: Seq<Card>)
    requires
        x.len() == 3,
        y.len() == 3,
        x.to_multiset() == y.to_multiset(),
    ensures
        sorted_cells(x) == sorted_cells(y),
{
    lemma_occurrences(x, x[0]);
    lemma_occurrences(x, x[1]);
    lemma_occurrences(x, x[2]);
    lemma_occurrences(y, x[0]);
    lemma_occurrences(y, x[1]);
    lemma_occurrences(y, x[2]);
    lemma_occurrences(x, y[0]);
    lemma_occurrences(x, y[1]);
    lemma_occurrences(x, y[2]);
    lemma_occurrences(y, y[0]);
    lemma_occurrences(y, y[1]);
    lemma_occurrences(y, y[2]);
    assert forall|a: Card, b: Card| a.order_key() == b.order_key() implies a == b by {
        crate::card::lemma_order_key_injective(a, b);
    }
    assert(sorted_cells(x) =~= sorted_cells(y));
}

/// The canonical string does not depend on which cell holds which card:
/// two boards with the same columns whose cells hold the same cards, in
/// any order, have the same string.
pub proof fn lemma_fingerprint_ignores_cell_order(a: DecksView, b: DecksView)
    requires
        a.cells.len() == 3,
        b.cells.len() == 3,
        a.cells.to_multiset() == b.cells.to_multiset(),
        a.columns == b.columns,
    ensures
        a.fingerprint() == b.fingerprint(),
{
    lemma_sorted_cells_of_rearrangement(a.cells, b.cells);
}

/// Sorting the cells only rearranges them.
pub proof fn lemma_sorted_cells_same_cards(x: Seq<Card>)
    requires
        x.len() == 3,
    ensures
        sorted_cells(x).to_multiset() == x.to_multiset(),
        sorted_cells(x).len() == 3,
{
    let y = sorted_cells(x);
    assert forall|c: Card| y.to_multiset().count(c) == x.to_multiset().count(c) by {
        lemma_occurrences(x, c);
        lemma_occurrences(y, c);
    }
    assert(y.to_multiset() =~= x.to_multiset());
}

/// Runs of well-formed cards with the same symbols are the same run.
proof fn lemma_encode_injective(a: Seq<Card>, b: Seq<Card>)
    requires
        forall|i: int| 0 <= i < a.len() ==> (#[trigger] a[i]).wf(),
        forall|i: int| 0 <= i < b.len() ==> (#[trigger] b[i]).wf(),
        encode_cards(a) == encode_cards(b),
    ensures
        a == b,
{
    assert(a.len() == encode_cards(a).len());
    assert(b.len() == encode_cards(b).len());
    assert forall|i: int| 0 <= i < a.len() implies a[i] == b[i] by {
        assert(encode_cards(a)[i] == a[i].spec_into_char());
        assert(encode_cards(b)[i] == b[i].spec_into_char());
        crate::card::lemma_into_char_injective(a[i], b[i]);
    }
    assert(a =~= b);
}

/// The encoding of some columns is empty or ends with the separator.
proof fn lemma_columns_code_end(columns: Seq<Seq<Card>>, n: int)
    ensures
        n <= 0 ==> columns_code(columns, n).len() == 0,
        n > 0 ==> columns_code(columns, n).len() > 0 && columns_code(columns, n).last()
            == SEPARATOR,
{
}

/// In two equal strings, each made of a part that is empty or ends with
/// the separator, then symbols other than the separator, then the
/// separator, the parts are equal and so are the symbols.
proof fn lemma_split_at_last_separator(
    px: Seq<char>,
    ex: Seq<char>,
    py: Seq<char>,
    ey: Seq<char>,
)
    requires
        px.len() == 0 || px.last() == SEPARATOR,
        py.len() == 0 || py.last() == SEPARATOR,
        forall|i: int| 0 <= i < ex.len() ==> ex[i] != SEPARATOR,
        forall|i: int| 0 <= i < ey.len() ==> ey[i] != SEPARATOR,
        px + ex.push(SEPARATOR) == py + ey.push(SEPARATOR),
    ensures
        px == py,
        ex == ey,
{
    let sx = px + ex.push(SEPARATOR);
    let sy = py + ey.push(SEPARATOR);
    assert(sx.len() == px.len() + ex.len() + 1);
    assert(sy.len() == py.len() + ey.len() + 1);
    if ex.len() < ey.len() {
        let at = px.len() - 1;
        assert(sx[at] == px[at]);
        assert(sy[at] == ey[at - py.len()]);
        assert(false);
    }
    if ey.len() < ex.len() {
        let at = py.len() - 1;
        assert(sy[at] == py[at]);
        assert(sx[at] == ex[at - px.len()]);
        assert(false);
    }
    assert forall|i: int| 0 <= i < px.len() implies px[i] == py[i] by {
        assert(sx[i] == px[i]);
        assert(sy[i] == py[i]);
    }
    assert(px =~= py);
    assert forall|i: int| 0 <= i < ex.len() implies ex[i] == ey[i] by {
        assert(sx[px.len() + i] == ex[i]);
        assert(sy[py.len() + i] == ey[i]);
    }
    assert(ex =~= ey);
}

/// Well-formed columns with the same encoding are the same columns.
proof fn lemma_columns_code_injective(x: Seq<Seq<Card>>, y: Seq<Seq<Card>>, n: int)
    requires
        0 <= n <= x.len(),
        n <= y.len(),
        forall|i: int| 0 <= i < n ==> DecksView::column_wf(#[trigger] x[i]),
        forall|i: int| 0 <= i < n ==> DecksView::column_wf(#[trigger] y[i]),
        columns_code(x, n) == columns_code(y, n),
    ensures
        forall|i: int| 0 <= i < n ==> x[i] == y[i],
    decreases n,
{
    if n > 0 {
        let px = columns_code(x, n - 1);
        let py = columns_code(y, n - 1);
        let cx = x[n - 1];
        let cy = y[n - 1];
        let ex = encode_cards(cx.skip(1));
        let ey = encode_cards(cy.skip(1));
        assert(DecksView::column_wf(cx) && DecksView::column_wf(cy));
        lemma_columns_code_end(x, n - 1);
        lemma_columns_code_end(y, n - 1);
        assert forall|i: int| 0 <= i < ex.len() implies ex[i] != SEPARATOR by {
            assert(cx[i + 1].playable());
            crate::card::lemma_into_char_not_separator(cx.skip(1)[i]);
        }
        assert forall|i: int| 0 <= i < ey.len() implies ey[i] != SEPARATOR by {
            assert(cy[i + 1].playable());
            crate::card::lemma_into_char_not_separator(cy.skip(1)[i]);
        }
        lemma_split_at_last_separator(px, ex, py, ey);
        assert forall|i: int| 0 <= i < cx.skip(1).len() implies (#[trigger] cx.skip(1)[i]).wf() by {
            assert(cx[i + 1].playable());
        }
        assert forall|i: int| 0 <= i < cy.skip(1).len() implies (#[trigger] cy.skip(1)[i]).wf() by {
            assert(cy[i + 1].playable());
        }
        lemma_encode_injective(cx.skip(1), cy.skip(1));
        assert(cx =~= cy) by {
            assert(cx.len() == cx.skip(1).len() + 1);
            assert(cy.len() == cy.skip(1).len() + 1);
            assert forall|i: int| 0 <= i < cx.len() implies cx[i] == cy[i] by {
                if i > 0 {
                    assert(cx[i] == cx.skip(1)[i - 1]);
                    assert(cy[i] == cy.skip(1)[i - 1]);
                }
            }
        }
        lemma_columns_code_injective(x, y, n - 1);
    }
}

/// Boards with the same canonical string have the same columns, column by
/// column, and the same cards in their cells: the string tells every
/// column's place and content, and leaves open only which cell holds which
/// card.
pub proof fn lemma_fingerprint_injective(a: DecksView, b: DecksView)
    requires
        a.wf(),
        b.wf(),
        a.fingerprint() == b.fingerprint(),
    ensures
        a.columns == b.columns,
        a.cells.to_multiset() == b.cells.to_multiset(),
{
    let ha = encode_cards(sorted_cells(a.cells));
    let hb = encode_cards(sorted_cells(b.cells));
    let ta = columns_code(a.columns, 8);
    let tb = columns_code(b.columns, 8);
    assert(ha.len() == 3 && hb.len() == 3);
    assert forall|i: int| 0 <= i < 3 implies ha[i] == hb[i] by {
        assert((ha + ta)[i] == ha[i]);
        assert((hb + tb)[i] == hb[i]);
    }
    assert(ha =~= hb);
    assert((ha + ta).len() == (hb + tb).len());
    assert(ta.len() == tb.len());
    assert forall|i: int| 0 <= i < ta.len() implies ta[i] == tb[i] by {
        assert((ha + ta)[3 + i] == ta[i]);
        assert((hb + tb)[3 + i] == tb[i]);
    }
    assert(ta =~= tb);
    lemma_columns_code_injective(a.columns, b.columns, 8);
    assert(a.columns =~= b.columns);
    assert(a.cells[0].wf() && a.cells[1].wf() && a.cells[2].wf());
    assert(b.cells[0].wf() && b.cells[1].wf() && b.cells[2].wf());
    lemma_encode_injective(sorted_cells(a.cells), sorted_cells(b.cells));
    lemma_sorted_cells_same_cards(a.cells);
    lemma_sorted_cells_same_cards(b.cells);
}

} // verus!
