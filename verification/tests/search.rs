use solitaire::board::{Decks, MoveErr};
use solitaire::card::Card;
use solitaire::settle::Collected;
use solitaire::solve::{Solve, Status, DEFAULT_BUDGET};
use solitaire::special::SpecCut;

fn solved_board() -> Decks {
    let mut decks = Decks::new_empty();
    decks.rev_cards = [9, 9, 9];
    decks.storage = [Card::Disable, Card::Disable, Card::Disable];
    decks
}

fn one_move_from_winning() -> Decks {
    let mut decks = Decks::new_empty();
    decks.rev_cards = [4, 9, 9];
    decks.stks[0].push(Card::Num(0, 5));
    decks.stks[0].push(Card::Num(0, 6));
    decks.stks[2].push(Card::Num(0, 9));
    decks.stks[2].push(Card::Num(0, 8));
    decks.stks[2].push(Card::Num(0, 7));
    decks
}

fn four_exposed(kind: u8) -> Decks {
    let mut decks = Decks::new_empty();
    decks.stks[1].push(Card::Num(2, 3));
    decks.stks[1].push(Card::Spec(kind));
    decks.stks[4].push(Card::Spec(kind));
    decks.stks[7].push(Card::Flower);
    decks.stks[7].push(Card::Spec(kind));
    decks.storage = [Card::Flower, Card::Spec(kind), Card::Empty];
    decks
}

#[test]
fn next_rank_is_collected_from_a_column() {
    let mut decks = Decks::new_empty();
    decks.rev_cards = [0, 4, 0];
    decks.stks[2].push(Card::Flower);
    decks.stks[2].push(Card::Num(1, 5));
    assert_eq!(decks.cut_num((0, 2)), Ok((0, 2, 1)));
    assert_eq!(decks.rev_cards, [0, 5, 0]);
    assert_eq!(decks.stks[2], vec![Card::Empty, Card::Flower]);
}

#[test]
fn next_rank_is_collected_from_a_cell() {
    let mut decks = Decks::new_empty();
    decks.storage[1] = Card::Num(2, 1);
    assert_eq!(decks.cut_num((1, 1)), Ok((1, 1, 2)));
    assert_eq!(decks.rev_cards, [0, 0, 1]);
    assert_eq!(decks.storage, [Card::Empty; 3]);
}

#[test]
fn other_ranks_and_cards_are_not_collected() {
    let mut decks = Decks::new_empty();
    decks.rev_cards = [0, 4, 0];
    decks.stks[0].push(Card::Num(1, 6));
    decks.stks[1].push(Card::Num(1, 4));
    decks.stks[2].push(Card::Spec(0));
    decks.storage[0] = Card::Flower;
    let sites: Vec<(u8, u8)> =
        vec![(0, 0), (0, 1), (0, 2), (0, 3), (1, 0), (1, 1), (0, 8), (1, 3), (2, 0)];
    for site in sites {
        assert_eq!(decks.cut_num(site), Err(MoveErr::CantMove));
    }
    assert_eq!(decks.rev_cards, [0, 4, 0]);
    assert_eq!(decks.stks[0], vec![Card::Empty, Card::Num(1, 6)]);
    assert_eq!(decks.stks[1], vec![Card::Empty, Card::Num(1, 4)]);
    assert_eq!(decks.storage[0], Card::Flower);
}

#[test]
fn uncollect_reinstates_the_card_and_the_counter() {
    let mut decks = Decks::new_empty();
    decks.rev_cards = [0, 4, 0];
    decks.stks[2].push(Card::Flower);
    decks.stks[2].push(Card::Num(1, 5));
    let mut same = Decks::new_empty();
    same.rev_cards = [0, 4, 0];
    same.stks[2].push(Card::Flower);
    same.stks[2].push(Card::Num(1, 5));
    let site = decks.cut_num((0, 2)).ok().unwrap();
    assert_eq!(decks.recover_cut_num(site), Ok(()));
    assert!(decks == same);
}

#[test]
fn uncollect_goes_to_a_chosen_cell() {
    let mut decks = Decks::new_empty();
    decks.rev_cards = [7, 0, 0];
    assert_eq!(decks.recover_cut_num((1, 2, 0)), Ok(()));
    assert_eq!(decks.storage, [Card::Empty, Card::Empty, Card::Num(0, 7)]);
    assert_eq!(decks.rev_cards, [6, 0, 0]);
}

#[test]
fn uncollect_refuses_what_it_cannot_do() {
    let mut decks = Decks::new_empty();
    decks.rev_cards = [7, 0, 0];
    decks.storage[0] = Card::Flower;
    let sites: Vec<(u8, u8, u8)> =
        vec![(0, 0, 1), (0, 0, 3), (0, 8, 0), (1, 3, 0), (2, 0, 0), (1, 0, 0)];
    for site in sites {
        assert_eq!(decks.recover_cut_num(site), Err(MoveErr::CantMove));
    }
    assert_eq!(decks.rev_cards, [7, 0, 0]);
    assert_eq!(decks.storage, [Card::Flower, Card::Empty, Card::Empty]);
    assert_eq!(decks.into_string(), "vbb;;;;;;;;");
}

#[test]
fn a_group_needs_four_exposed_cards_and_a_free_cell() {
    assert_eq!(Decks::new_empty().scan_spec(), (false, 255));
    assert_eq!(four_exposed(0).scan_spec(), (true, 0));
    assert_eq!(four_exposed(2).scan_spec(), (true, 2));
    let mut full = four_exposed(1);
    full.storage[2] = Card::Num(0, 1);
    assert_eq!(full.scan_spec(), (false, 255));
    let mut three = four_exposed(1);
    three.stks[4].push(Card::Flower);
    assert_eq!(three.scan_spec(), (false, 255));
    let mut five = four_exposed(1);
    five.stks[0].push(Card::Spec(1));
    assert_eq!(five.scan_spec(), (false, 255));
}

#[test]
fn the_lowest_eligible_kind_is_found() {
    let mut decks = Decks::new_empty();
    for col in 0..4 {
        decks.stks[col].push(Card::Spec(2));
    }
    for col in 4..8 {
        decks.stks[col].push(Card::Spec(1));
    }
    assert_eq!(decks.scan_spec(), (true, 1));
}

#[test]
fn collecting_a_group_locks_the_lowest_free_cell() {
    let mut decks = four_exposed(1);
    let cut = decks.cut_spec().ok().unwrap();
    assert_eq!(
        cut,
        SpecCut {
            kind: 1,
            cell: 1,
            columns: [false, true, false, false, true, false, false, true],
            cells: [false, true, false],
        }
    );
    assert_eq!(decks.storage, [Card::Flower, Card::Disable, Card::Empty]);
    assert_eq!(decks.stks[1], vec![Card::Empty, Card::Num(2, 3)]);
    assert_eq!(decks.stks[4], vec![Card::Empty]);
    assert_eq!(decks.stks[7], vec![Card::Empty, Card::Flower]);
    assert_eq!(decks.recover_cut_spec(&cut), Ok(()));
    assert!(decks == four_exposed(1));
}

#[test]
fn no_group_no_collection() {
    let mut decks = four_exposed(1);
    decks.stks[4].push(Card::Flower);
    assert_eq!(decks.cut_spec(), Err(MoveErr::CantMove));
    assert_eq!(decks.stks[4], vec![Card::Empty, Card::Spec(1), Card::Flower]);
    assert_eq!(decks.storage, [Card::Flower, Card::Spec(1), Card::Empty]);
}

#[test]
fn a_record_that_does_not_fit_is_not_taken_back() {
    let mut decks = four_exposed(1);
    let cut = decks.cut_spec().ok().unwrap();
    let mut wrong_cell = cut;
    wrong_cell.cell = 2;
    let mut three_sites = cut;
    three_sites.columns[1] = false;
    let mut bad_kind = cut;
    bad_kind.kind = 3;
    let mut taken = cut;
    taken.cells = [true, false, false];
    for record in [wrong_cell, three_sites, bad_kind, taken] {
        assert!(!decks.unlockable(&record));
        assert_eq!(decks.recover_cut_spec(&record), Err(MoveErr::CantMove));
        assert_eq!(decks.storage, [Card::Flower, Card::Disable, Card::Empty]);
    }
    assert!(decks.unlockable(&cut));
}

#[test]
fn settling_collects_until_nothing_offers_itself() {
    let mut decks = four_exposed(0);
    decks.stks[4].clear();
    decks.stks[4].push(Card::Empty);
    decks.stks[4].push(Card::Num(2, 2));
    decks.stks[4].push(Card::Num(2, 1));
    decks.stks[4].push(Card::Spec(0));
    let flag = decks.into_string();
    let log = decks.settle();
    assert_eq!(decks.rev_cards, [0, 0, 3]);
    assert_eq!(decks.storage, [Card::Flower, Card::Disable, Card::Empty]);
    assert_eq!(decks.stks[1], vec![Card::Empty]);
    assert_eq!(decks.stks[4], vec![Card::Empty]);
    assert_eq!(log.len(), 4);
    assert!(matches!(log[0], Collected::Group(_)));
    assert_eq!(log[1], Collected::Num((0, 4, 2)));
    assert_eq!(log[2], Collected::Num((0, 4, 2)));
    assert_eq!(log[3], Collected::Num((0, 1, 2)));
    assert_eq!(decks.next_collectable(), None);
    assert_eq!(decks.unsettle(&log), Ok(()));
    assert_eq!(decks.into_string(), flag);
    assert_eq!(decks.rev_cards, [0, 0, 0]);
    assert_eq!(decks.stks[4].len(), 4);
}

#[test]
fn columns_are_looked_at_before_cells() {
    let mut decks = Decks::new_empty();
    decks.storage[0] = Card::Num(0, 1);
    decks.stks[5].push(Card::Num(1, 1));
    assert_eq!(decks.next_collectable(), Some((0, 5)));
    assert!(decks.can_collect((1, 0)));
    assert!(!decks.can_collect((0, 0)));
}

#[test]
fn cells_are_looked_at_suit_by_suit() {
    let mut decks = Decks::new_empty();
    decks.storage = [Card::Num(2, 1), Card::Num(1, 1), Card::Num(0, 1)];
    assert_eq!(decks.next_collectable(), Some((1, 2)));
    let log = decks.settle();
    assert_eq!(
        log,
        vec![
            Collected::Num((1, 2, 0)),
            Collected::Num((1, 1, 1)),
            Collected::Num((1, 0, 2)),
        ]
    );
    assert_eq!(decks.rev_cards, [1, 1, 1]);
    decks.storage = [Card::Num(1, 2), Card::Num(1, 2), Card::Num(0, 3)];
    assert_eq!(decks.next_collectable(), Some((1, 0)));
}

#[test]
fn unsettle_stops_at_a_record_that_does_not_fit() {
    let mut decks = Decks::new_empty();
    decks.rev_cards = [1, 0, 0];
    let log = vec![Collected::Num((0, 0, 1)), Collected::Num((0, 3, 0))];
    assert_eq!(decks.unsettle(&log), Err(MoveErr::CantMove));
    assert_eq!(decks.stks[3], vec![Card::Empty, Card::Num(0, 1)]);
    assert_eq!(decks.rev_cards, [0, 0, 0]);
    assert_eq!(decks.stks[0], vec![Card::Empty]);
}

#[test]
fn cells_may_swap_without_changing_the_fingerprint() {
    let mut a = four_exposed(1);
    a.storage = [Card::Flower, Card::Spec(1), Card::Num(0, 3)];
    let flag = a.into_string();
    assert_eq!(flag, "v3x;dx;;;x;;;vx;");
    let orders = [
        [Card::Flower, Card::Num(0, 3), Card::Spec(1)],
        [Card::Spec(1), Card::Flower, Card::Num(0, 3)],
        [Card::Spec(1), Card::Num(0, 3), Card::Flower],
        [Card::Num(0, 3), Card::Flower, Card::Spec(1)],
        [Card::Num(0, 3), Card::Spec(1), Card::Flower],
    ];
    for order in orders {
        a.storage = order;
        assert_eq!(a.into_string(), flag);
    }
}

#[test]
fn columns_may_not_swap_without_changing_the_fingerprint() {
    let a = four_exposed(1);
    let mut b = four_exposed(1);
    b.stks.swap(1, 4);
    assert_ne!(a.into_string(), b.into_string());
    let mut c = four_exposed(1);
    c.stks[7].swap(1, 2);
    assert_ne!(a.into_string(), c.into_string());
}

#[test]
fn solved_board_is_recognised() {
    assert!(solved_board().is_solved());
    assert!(!Decks::new_empty().is_solved());
    let mut cell = solved_board();
    cell.storage[1] = Card::Flower;
    assert!(!cell.is_solved());
    let mut column = solved_board();
    column.stks[7].push(Card::Flower);
    assert!(!column.is_solved());
    let mut free = solved_board();
    free.storage[0] = Card::Empty;
    assert!(free.is_solved());
}

#[test]
fn a_solved_board_wins_at_once_with_no_move() {
    let done = Solve::dfs(Solve::from_deck(solved_board(), 0));
    assert_eq!(done.status, Status::Solved);
    assert!(done.solution.is_empty());
    assert!(done.deck == solved_board());
    assert!(done.flag_set.contains("nnn;;;;;;;;"));
}

#[test]
fn collections_alone_can_win() {
    let mut decks = solved_board();
    decks.rev_cards = [9, 9, 7];
    decks.stks[3].push(Card::Num(2, 9));
    decks.stks[3].push(Card::Num(2, 8));
    let done = Solve::dfs(Solve::from_deck(decks, 0));
    assert_eq!(done.status, Status::Solved);
    assert!(done.solution.is_empty());
    assert!(done.deck == solved_board());
}

#[test]
fn one_move_wins() {
    let done = Solve::dfs(Solve::from_deck(one_move_from_winning(), 10));
    assert_eq!(done.status, Status::Solved);
    assert_eq!(done.solution, vec![((0, 0, 2), (0, 1))]);
    assert!(done.deck.is_solved());

    let mut replay = one_move_from_winning();
    assert!(replay.play(&done.solution));
    assert!(replay.is_solved());
    assert!(replay == done.deck);
}

#[test]
fn a_line_that_does_not_win_is_told_apart() {
    let mut no_move = one_move_from_winning();
    assert!(!no_move.play(&Vec::new()));
    assert!(no_move == one_move_from_winning());

    let mut to_a_cell = one_move_from_winning();
    assert!(to_a_cell.play(&vec![((0, 0, 2), (1, 1))]));

    let mut illegal = one_move_from_winning();
    assert!(!illegal.play(&vec![((0, 0, 2), (0, 2))]));
    assert!(illegal == one_move_from_winning());

    let mut broken_run = one_move_from_winning();
    assert!(!broken_run.play(&vec![((0, 0, 1), (0, 1))]));
    assert!(broken_run == one_move_from_winning());

    let mut stops_midway = one_move_from_winning();
    stops_midway.stks[5].push(Card::Flower);
    assert!(!stops_midway.play(&vec![((0, 0, 2), (0, 1)), ((0, 5, 1), (0, 5))]));
    assert_eq!(stops_midway.rev_cards, [9, 9, 9]);
    assert_eq!(stops_midway.stks[5], vec![Card::Empty, Card::Flower]);
}

#[test]
fn runs_are_liftable_from_where_the_cards_stack() {
    let mut decks = Decks::new_empty();
    decks.stks[0].push(Card::Flower);
    decks.stks[0].push(Card::Num(1, 7));
    decks.stks[0].push(Card::Num(2, 1));
    decks.stks[0].push(Card::Num(0, 2));
    assert!(decks.is_liftable(0, 4));
    assert!(decks.is_liftable(0, 3));
    assert!(decks.is_liftable(0, 2));
    assert!(!decks.is_liftable(0, 1));
    assert!(!decks.is_liftable(0, 0));
    assert!(!decks.is_liftable(0, 5));
    assert!(!decks.is_liftable(1, 0));
    assert!(!decks.is_liftable(1, 1));
}

#[test]
fn collections_cascade_to_a_win() {
    let mut decks = Decks::new_empty();
    for rank in [9u8, 8, 7, 6, 5, 4, 3] {
        decks.stks[0].push(Card::Num(0, rank));
    }
    decks.stks[1].push(Card::Num(0, 1));
    decks.stks[1].push(Card::Spec(0));
    decks.stks[2].push(Card::Num(0, 2));
    decks.stks[2].push(Card::Spec(0));
    decks.stks[3].push(Card::Spec(0));
    decks.storage = [Card::Spec(0), Card::Num(1, 9), Card::Num(2, 9)];
    decks.rev_cards = [0, 8, 8];
    assert!(decks.is_well_formed());
    let done = Solve::dfs(Solve::from_deck(decks, 50));
    assert_eq!(done.status, Status::Solved);
    assert!(done.solution.is_empty());
    assert_eq!(done.deck.rev_cards, [9, 9, 9]);
    assert_eq!(done.deck.storage, [Card::Disable, Card::Empty, Card::Empty]);
}

#[test]
fn a_lone_bonus_card_cannot_be_won() {
    let mut decks = Decks::new_empty();
    decks.stks[0].push(Card::Flower);
    let done = Solve::dfs(Solve::from_deck(decks, 1000));
    assert_eq!(done.status, Status::Exhausted);
    assert!(done.solution.is_empty());
    assert_eq!(done.deck.into_string(), "bbbv;;;;;;;;");
    assert!(done.flag_set.contains("bbbv;;;;;;;;"));
    assert!(done.flag_set.contains("bbb;;;;;;;v;"));
    assert!(done.flag_set.contains("vbb;;;;;;;;"));
    assert_eq!(done.flag_set.len(), 9);
}

#[test]
fn an_empty_budget_aborts_before_the_first_move() {
    let done = Solve::dfs(Solve::from_deck(one_move_from_winning(), 0));
    assert_eq!(done.status, Status::Aborted);
    assert_eq!(done.budget, 0);
    assert!(done.solution.is_empty());
    assert!(done.deck == one_move_from_winning());
    assert_eq!(done.flag_set.len(), 1);
    assert!(done.flag_set.contains("bbb56;;987;;;;;;"));
}

#[test]
fn a_spent_budget_went_into_positions_newly_noted() {
    for budget in [1u64, 2, 3, 5, 8] {
        let mut decks = Decks::new_empty();
        decks.stks[0].push(Card::Flower);
        decks.stks[1].push(Card::Spec(0));
        decks.stks[2].push(Card::Spec(1));
        let start = decks.into_string();
        let done = Solve::dfs(Solve::from_deck(decks, budget));
        assert_eq!(done.status, Status::Aborted);
        assert_eq!(done.budget, 0);
        assert!(done.flag_set.len() as u64 >= budget + 1);
        assert!(done.solution.is_empty());
        assert_eq!(done.deck.into_string(), start);
    }
}

#[test]
fn a_budget_that_suffices_is_not_all_spent_in_vain() {
    let mut decks = Decks::new_empty();
    decks.stks[0].push(Card::Flower);
    let done = Solve::dfs(Solve::from_deck(decks, 1000));
    assert_eq!(done.status, Status::Exhausted);
    assert_eq!(done.flag_set.len(), 9);
    assert_eq!(done.budget, 1000 - 9);
}

#[test]
fn a_win_leaves_the_board_that_the_moves_lead_to() {
    let done = Solve::dfs(Solve::from_deck(one_move_from_winning(), 10));
    assert_eq!(done.status, Status::Solved);
    let mut replay = one_move_from_winning();
    assert!(replay.play(&done.solution));
    assert!(done.deck == replay);
    assert_eq!(done.deck.rev_cards, [9, 9, 9]);
    assert_eq!(done.deck.storage, [Card::Empty; 3]);
}

#[test]
fn boards_that_differ_in_their_cells_only_end_alike() {
    let mut a = Decks::new_empty();
    a.stks[6].push(Card::Flower);
    a.storage = [Card::Spec(1), Card::Empty, Card::Empty];
    let mut b = Decks::new_empty();
    b.stks[6].push(Card::Flower);
    b.storage = [Card::Empty, Card::Empty, Card::Spec(1)];
    assert_eq!(a.into_string(), b.into_string());
    let done_a = Solve::dfs(Solve::from_deck(a, 5000));
    let done_b = Solve::dfs(Solve::from_deck(b, 5000));
    assert_eq!(done_a.status, Status::Exhausted);
    assert_eq!(done_b.status, Status::Exhausted);
    assert_eq!(done_a.flag_set.len(), done_b.flag_set.len());
    assert_eq!(done_a.budget, done_b.budget);
}

#[test]
fn a_position_seen_before_is_not_searched_again() {
    let mut sol = Solve::from_deck(one_move_from_winning(), 10);
    sol.mark();
    let done = Solve::dfs(sol);
    assert_eq!(done.status, Status::Exhausted);
    assert_eq!(done.budget, 10);
    assert!(done.deck == one_move_from_winning());
}

#[test]
fn a_new_search_is_pending() {
    let cards = String::from(
        "zzg5mmg2b6r8llg1b4r6g3mmg7r7r5b1ffr2b2mmb8g4ffr9r3g9r1b7b5r4g8ffzzb3zzb9zzffg6mm",
    );
    let sol = Solve::new(cards).unwrap();
    assert_eq!(sol.status, Status::Pending);
    assert_eq!(sol.budget, DEFAULT_BUDGET);
    assert!(sol.solution.is_empty());
    assert!(sol.flag_set.is_empty());
    assert!(Solve::new(String::from("zz")).is_err());
}

#[test]
fn the_sample_deal_is_searched_through_and_restored() {
    let cards = String::from(
        "zzg5mmg2b6r8llg1b4r6g3mmg7r7r5b1ffr2b2mmb8g4ffr9r3g9r1b7b5r4g8ffzzb3zzb9zzffg6mm",
    );
    let sol = Solve::new(cards).unwrap();
    let done = Solve::dfs(sol);
    assert_eq!(done.status, Status::Exhausted);
    assert!(done.budget < DEFAULT_BUDGET);
    assert!(done.solution.is_empty());
    assert_eq!(
        done.deck.into_string(),
        "bbbztcwh;8vqf6;ecu75;ax2sc;krx93;o1jg4;ixzdz;lzxyc;"
    );
    assert_eq!(done.deck.rev_cards, [0, 0, 0]);
}
