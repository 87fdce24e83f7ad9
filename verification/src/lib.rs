//! A patience game played with forty cards, and a solver for it.
//!
//! The deck holds three suits of numbered cards, ranks 1 to 9, three kinds
//! of special cards with four cards of each, and one bonus card. They are
//! dealt on eight columns. Three cells hold one card each for a while, and
//! three foundations collect the numbered cards of each suit in order.
//!
//! - `card`: the cards, the stacking rule and the symbols of the cards.
//! - `board`: the board and what keeps it well-formed.
//! - `deal`: reading a deal from its text.
//! - `moves`: where a card may go, moving cards, taking a move back.
//! - `collect`: sending numbered cards to their foundations, and back.
//! - `special`: locking a group of four special cards into a cell, and
//!   back.
//! - `settle`: making every collection that offers itself.
//! - `fingerprint`: the canonical string of a board.
//! - `line`: lines of play and their replay.
//! - `solve`: the search for a line of play that wins.
//! - `alike`, `tally`, `reach`: why the search, when it comes to an end
//!   without a win, has shown that there is none.

pub mod alike;
pub mod board;
pub mod card;
pub mod collect;
pub mod deal;
pub mod fingerprint;
pub mod line;
pub mod moves;
pub mod reach;
pub mod settle;
pub mod solve;
pub mod special;
pub mod tally;
