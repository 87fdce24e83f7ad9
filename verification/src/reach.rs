//! What a search has shown. The strings it noted are those of positions
//! within reach of its start. When it is exhausted, the positions it went
//! through are closed under the moves of the search, up to the canonical
//! string, and none of them is won.

use vstd::prelude::*;
use crate::alike::{
    alike, lemma_alike_move, lemma_alike_settled, lemma_alike_solved, lemma_alike_transitive,
    mirrored,
};
use crate::board::DecksView;
use crate::card::Card;
use crate::fingerprint::{lemma_fingerprint_injective, lemma_occurrences, occurrences};
use crate::line::Move;
use crate::moves::lemma_relocated_wf;
use crate::settle::lemma_settled_wf;
use crate::tally::{lemma_alike_from_totals, lemma_relocated_totals, lemma_settled_totals};

verus! {

/// The board was searched through as far as the strings in `flags` tell:
/// at rest it is not won, and every move that the search makes on it
/// leads to a position whose canonical string is among them.
pub open spec fn closed_in(b: DecksView, flags: Set<Seq<char>>) -> bool {
    &&& !b.settled().solved()
    &&& forall|from: (u8, u8, u8), to: (u8, u8)| #[trigger]
        b.settled().search_move(from, to) ==> flags.contains(
            b.settled().relocated(from, to).fingerprint(),
        )
}

/// The boards of `family` account for the growth of the strings looked at
/// from `before` to `after`: each of them is well-formed, has its string
/// in `after` and was searched through, and every string that was added
/// is the string of one of them.
pub open spec fn closed_family(
    family: Set<DecksView>,
    before: Set<Seq<char>>,
    after: Set<Seq<char>>,
) -> bool {
    &&& forall|b: DecksView| #[trigger]
        family.contains(b) ==> b.wf() && after.contains(b.fingerprint()) && closed_in(b, after)
    &&& forall|flag: Seq<char>| #[trigger]
        after.contains(flag) && !before.contains(flag) ==> exists|b: DecksView| #[trigger]
            family.contains(b) && b.fingerprint() == flag
}

/// Every board of `family` holds, for each suit, as many cards as `like`
/// does.
pub open spec fn uniform(family: Set<DecksView>, like: DecksView) -> bool {
    forall|b: DecksView| #[trigger] family.contains(b) ==> b.same_totals(like)
}

/// The search from `start` came to an end without a win: some boards,
/// `start` among them, each with as many cards of each suit, account for
/// the growth of the strings looked at. None of them is won at rest, and
/// no move that the search makes leads from any of them to a position
/// whose string was not looked at.
pub open spec fn searched_through(
    start: DecksView,
    before: Set<Seq<char>>,
    after: Set<Seq<char>>,
) -> bool {
    exists|family: Set<DecksView>| #[trigger]
        family.contains(start) && closed_family(family, before, after) && uniform(family, start)
}

/// The line can be followed from the board: each of its moves is one that
/// the search makes when its turn comes, after the collections that offer
/// themselves were made.
pub open spec fn can_follow(start: DecksView, line: Seq<Move>) -> bool
    decreases line.len(),
{
    line.len() == 0 || (start.settled().search_move(line[0].0, line[0].1) && can_follow(
        start.settled().relocated(line[0].0, line[0].1),
        line.drop_first(),
    ))
}

/// The position that the line leads to: the board as its last move leaves
/// it, or the board itself for a line of no move.
pub open spec fn arrived(start: DecksView, line: Seq<Move>) -> DecksView
    decreases line.len(),
{
    if line.len() == 0 {
        start
    } else {
        arrived(start.settled().relocated(line[0].0, line[0].1), line.drop_first())
    }
}

/// The position is within reach of the board: some line that can be
/// followed from the board leads to it.
pub open spec fn reached(start: DecksView, b: DecksView) -> bool {
    exists|line: Seq<Move>| #[trigger] can_follow(start, line) && arrived(start, line) == b
}

/// The position is within reach of the board by one move at least.
pub open spec fn reached_past(rest: DecksView, b: DecksView) -> bool {
    exists|line: Seq<Move>|
        line.len() > 0 && #[trigger] can_follow(rest, line) && arrived(rest, line) == b
}

/// Every string that was added from `before` to `after` is the canonical
/// string of a position within reach of `start`.
pub open spec fn noted_within_reach(
    start: DecksView,
    before: Set<Seq<char>>,
    after: Set<Seq<char>>,
) -> bool {
    forall|flag: Seq<char>| #[trigger]
        after.contains(flag) && !before.contains(flag) ==> exists|b: DecksView| #[trigger]
            reached(start, b) && b.fingerprint() == flag
}

/// Every string that was added from `before` to `after` is the canonical
/// string of a position within reach of `rest` by one move at least.
pub open spec fn noted_past(
    rest: DecksView,
    before: Set<Seq<char>>,
    after: Set<Seq<char>>,
) -> bool {
    forall|flag: Seq<char>| #[trigger]
        after.contains(flag) && !before.contains(flag) ==> exists|b: DecksView| #[trigger]
            reached_past(rest, b) && b.fingerprint() == flag
}

/// A board searched through as far as some strings tell stays so when
/// more strings are looked at.
pub proof fn lemma_closed_in_grows(b: DecksView, flags: Set<Seq<char>>, more: Set<Seq<char>>)
    requires
        closed_in(b, flags),
        flags.subset_of(more),
    ensures
        closed_in(b, more),
{
    assert forall|from: (u8, u8, u8), to: (u8, u8)| #[trigger]
        b.settled().search_move(from, to) implies more.contains(
        b.settled().relocated(from, to).fingerprint(),
    ) by {
        assert(flags.contains(b.settled().relocated(from, to).fingerprint()));
    }
}

/// Boards that account for the growth from `start` to `middle`, together
/// with boards that account for the growth from `middle` to `end`,
/// account for the growth from `start` to `end`.
pub proof fn lemma_family_union(
    first: Set<DecksView>,
    second: Set<DecksView>,
    start: Set<Seq<char>>,
    middle: Set<Seq<char>>,
    end: Set<Seq<char>>,
)
    requires
        closed_family(first, start, middle),
        closed_family(second, middle, end),
        middle.subset_of(end),
    ensures
        closed_family(first.union(second), start, end),
{
    let both = first.union(second);
    assert forall|b: DecksView| #[trigger] both.contains(b) implies b.wf() && end.contains(
        b.fingerprint(),
    ) && closed_in(b, end) by {
        if first.contains(b) {
            lemma_closed_in_grows(b, middle, end);
        }
    }
    assert forall|flag: Seq<char>| #[trigger]
        end.contains(flag) && !start.contains(flag) implies exists|b: DecksView| #[trigger]
        both.contains(b) && b.fingerprint() == flag by {
        if middle.contains(flag) {
            let b = choose|b: DecksView| #[trigger] first.contains(b) && b.fingerprint() == flag;
            assert(both.contains(b));
        } else {
            let b = choose|b: DecksView| #[trigger] second.contains(b) && b.fingerprint() == flag;
            assert(both.contains(b));
        }
    }
}

/// Boards that account for the growth of the strings since `root` was
/// noted, together with `root`, searched through in the end, account for
/// the growth since before it was noted.
pub proof fn lemma_family_with_root(
    family: Set<DecksView>,
    root: DecksView,
    before: Set<Seq<char>>,
    after: Set<Seq<char>>,
)
    requires
        closed_family(family, before.insert(root.fingerprint()), after),
        root.wf(),
        after.contains(root.fingerprint()),
        closed_in(root, after),
    ensures
        closed_family(family.insert(root), before, after),
        family.insert(root).contains(root),
{
    let all = family.insert(root);
    let marked = before.insert(root.fingerprint());
    assert forall|flag: Seq<char>| #[trigger]
        after.contains(flag) && !before.contains(flag) implies exists|b: DecksView| #[trigger]
        all.contains(b) && b.fingerprint() == flag by {
        if flag == root.fingerprint() {
            assert(all.contains(root));
        } else {
            assert(!marked.contains(flag));
            let b = choose|b: DecksView| #[trigger] family.contains(b) && b.fingerprint() == flag;
            assert(all.contains(b));
        }
    }
}

/// Boards that hold as many cards of each suit as one board hold as many
/// as any board that does.
pub proof fn lemma_uniform_like(family: Set<DecksView>, like: DecksView, other: DecksView)
    requires
        uniform(family, like),
        like.same_totals(other),
    ensures
        uniform(family, other),
{
    assert forall|b: DecksView| #[trigger] family.contains(b) implies b.same_totals(other) by {
        assert forall|suit: u8| suit < 3 implies #[trigger] b.suit_total(suit)
            == other.suit_total(suit) by {
            assert(b.suit_total(suit) == like.suit_total(suit));
            assert(like.suit_total(suit) == other.suit_total(suit));
        }
    }
}

/// No line of moves wins from a board that is alike to a board of a
/// family that accounts for every string looked at: each move leads to a
/// position that is alike to another board of the family, and none of
/// them is won at rest.
pub proof fn lemma_family_holds_no_win(
    family: Set<DecksView>,
    like: DecksView,
    flags: Set<Seq<char>>,
    at: DecksView,
    member: DecksView,
    moves: Seq<Move>,
)
    requires
        closed_family(family, Set::<Seq<char>>::empty(), flags),
        uniform(family, like),
        family.contains(member),
        alike(at, member),
        at.wf(),
    ensures
        !at.plays_out(moves),
    decreases moves.len(),
{
    let rest = at.settled();
    let twin = member.settled();
    assert(member.wf() && closed_in(member, flags));
    lemma_alike_settled(at, member);
    lemma_settled_wf(at);
    lemma_settled_wf(member);
    lemma_alike_solved(rest, twin);
    if moves.len() > 0 && rest.search_move(moves[0].0, moves[0].1) {
        let (from, to) = moves[0];
        let mirror = mirrored(rest, twin, from, to);
        lemma_alike_move(rest, twin, from, to);
        let next = rest.relocated(from, to);
        let reached = twin.relocated(mirror.0, mirror.1);
        lemma_relocated_wf(rest, from, to);
        lemma_relocated_wf(twin, mirror.0, mirror.1);
        assert(flags.contains(reached.fingerprint()));
        let seen = choose|b: DecksView| #[trigger]
            family.contains(b) && b.fingerprint() == reached.fingerprint();
        assert(seen.wf());
        lemma_fingerprint_injective(reached, seen);
        assert forall|x: Card| #[trigger]
            occurrences(reached.cells, x) == occurrences(seen.cells, x) by {
            lemma_occurrences(reached.cells, x);
            lemma_occurrences(seen.cells, x);
        }
        lemma_settled_totals(member);
        lemma_relocated_totals(twin, mirror.0, mirror.1);
        assert forall|suit: u8| suit < 3 implies #[trigger] reached.suit_total(suit)
            == seen.suit_total(suit) by {
            assert(reached.suit_total(suit) == twin.suit_total(suit));
            assert(twin.suit_total(suit) == member.suit_total(suit));
            assert(member.suit_total(suit) == like.suit_total(suit));
            assert(seen.suit_total(suit) == like.suit_total(suit));
        }
        lemma_alike_from_totals(reached, seen);
        lemma_alike_transitive(next, reached, seen);
        lemma_family_holds_no_win(family, like, flags, next, seen, moves.drop_first());
    }
}

/// What an exhausted search shows when it began with nothing looked at:
/// no line of moves wins from the board it started on.
pub proof fn lemma_searched_through_no_win(
    start: DecksView,
    flags: Set<Seq<char>>,
    moves: Seq<Move>,
)
    requires
        searched_through(start, Set::<Seq<char>>::empty(), flags),
    ensures
        !start.plays_out(moves),
{
    let family = choose|family: Set<DecksView>| #[trigger]
        family.contains(start) && closed_family(family, Set::<Seq<char>>::empty(), flags)
            && uniform(family, start);
    assert(start.wf());
    lemma_family_holds_no_win(family, start, flags, start, start, moves);
}

/// A board is within its own reach.
pub proof fn lemma_reached_self(start: DecksView)
    ensures
        reached(start, start),
{
    let line = Seq::<Move>::empty();
    assert(can_follow(start, line) && arrived(start, line) == start);
}

/// What is within reach of the board that a move of the search leaves is
/// within reach, by one move at least, of the board at rest on which the
/// move is made.
pub proof fn lemma_reached_through(
    rest: DecksView,
    from: (u8, u8, u8),
    to: (u8, u8),
    b: DecksView,
)
    requires
        rest.wf(),
        rest.at_rest(),
        rest.search_move(from, to),
        reached(rest.relocated(from, to), b),
    ensures
        reached_past(rest, b),
{
    let tail = choose|tail: Seq<Move>| #[trigger]
        can_follow(rest.relocated(from, to), tail) && arrived(rest.relocated(from, to), tail)
            == b;
    let line = seq![(from, to)] + tail;
    assert(line[0] == (from, to));
    assert(line.drop_first() =~= tail);
    assert(rest.settled() == rest);
    assert(can_follow(rest, line));
    assert(arrived(rest, line) == b);
}

/// What is within reach, by one move at least, of a board after its
/// collections is within reach of the board.
pub proof fn lemma_reached_from_start(start: DecksView, b: DecksView)
    requires
        start.wf(),
        reached_past(start.settled(), b),
    ensures
        reached(start, b),
{
    let rest = start.settled();
    lemma_settled_wf(start);
    assert(rest.settled() == rest);
    let line = choose|line: Seq<Move>|
        line.len() > 0 && #[trigger] can_follow(rest, line) && arrived(rest, line) == b;
    assert(can_follow(start, line));
    assert(arrived(start, line) == b);
}

/// The strings noted in two stretches, one after the other, come from
/// positions within reach when those of each stretch do.
pub proof fn lemma_noted_past_grows(
    rest: DecksView,
    start: Set<Seq<char>>,
    middle: Set<Seq<char>>,
    end: Set<Seq<char>>,
)
    requires
        noted_past(rest, start, middle),
        noted_past(rest, middle, end),
    ensures
        noted_past(rest, start, end),
{
    assert forall|flag: Seq<char>| #[trigger]
        end.contains(flag) && !start.contains(flag) implies exists|b: DecksView| #[trigger]
        reached_past(rest, b) && b.fingerprint() == flag by {
        if middle.contains(flag) {
            let b = choose|b: DecksView| #[trigger]
                reached_past(rest, b) && b.fingerprint() == flag;
            assert(reached_past(rest, b));
        } else {
            let b = choose|b: DecksView| #[trigger]
                reached_past(rest, b) && b.fingerprint() == flag;
            assert(reached_past(rest, b));
        }
    }
}

/// The strings noted on the way from the board that a move of the search
/// leaves come from positions within reach, by one move at least, of the
/// board at rest on which the move is made.
pub proof fn lemma_noted_through(
    rest: DecksView,
    from: (u8, u8, u8),
    to: (u8, u8),
    before: Set<Seq<char>>,
    after: Set<Seq<char>>,
)
    requires
        rest.wf(),
        rest.at_rest(),
        rest.search_move(from, to),
        noted_within_reach(rest.relocated(from, to), before, after),
    ensures
        noted_past(rest, before, after),
{
    assert forall|flag: Seq<char>| #[trigger]
        after.contains(flag) && !before.contains(flag) implies exists|b: DecksView| #[trigger]
        reached_past(rest, b) && b.fingerprint() == flag by {
        let b = choose|b: DecksView| #[trigger]
            reached(rest.relocated(from, to), b) && b.fingerprint() == flag;
        lemma_reached_through(rest, from, to, b);
    }
}

/// The strings noted from a board on come from positions within its
/// reach: its own string, and those noted past the board that its
/// collections leave.
pub proof fn lemma_noted_from_start(
    start: DecksView,
    before: Set<Seq<char>>,
    after: Set<Seq<char>>,
)
    requires
        start.wf(),
        noted_past(start.settled(), before.insert(start.fingerprint()), after),
    ensures
        noted_within_reach(start, before, after),
{
    let marked = before.insert(start.fingerprint());
    assert forall|flag: Seq<char>| #[trigger]
        after.contains(flag) && !before.contains(flag) implies exists|b: DecksView| #[trigger]
        reached(start, b) && b.fingerprint() == flag by {
        if flag == start.fingerprint() {
            lemma_reached_self(start);
        } else {
            assert(!marked.contains(flag));
            let b = choose|b: DecksView| #[trigger]
                reached_past(start.settled(), b) && b.fingerprint() == flag;
            lemma_reached_from_start(start, b);
        }
    }
}

} // verus!
