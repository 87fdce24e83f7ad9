use solitaire::board::{Decks, MoveErr};
use solitaire::card::Card;
use solitaire::deal::{is_full_deck, read_token, DealErr};

fn every_card() -> Vec<Card> {
    let mut all = vec![Card::Flower, Card::Empty, Card::Disable];
    for kind in 0..3u8 {
        all.push(Card::Spec(kind));
    }
    for suit in 0..3u8 {
        for rank in 1..10u8 {
            all.push(Card::Num(suit, rank));
        }
    }
    all
}

fn three_on_column_zero() -> Decks {
    let mut decks = Decks::new_empty();
    decks.stks[0].push(Card::Num(1, 1));
    decks.stks[0].push(Card::Num(1, 2));
    decks.stks[0].push(Card::Num(1, 3));
    decks
}

#[test]
fn any_card_goes_onto_the_empty_marker() {
    for card in every_card() {
        assert!(card.can_move_front_of(&Card::Empty));
    }
}

#[test]
fn stacking_rule_couples_target_suit_and_moving_rank() {
    assert!(Card::Num(0, 1).can_move_front_of(&Card::Num(1, 5)));
    assert!(Card::Num(1, 2).can_move_front_of(&Card::Num(2, 9)));
    assert!(Card::Num(2, 1).can_move_front_of(&Card::Num(1, 1)));
    assert!(!Card::Num(0, 2).can_move_front_of(&Card::Num(1, 5)));
    assert!(!Card::Num(1, 1).can_move_front_of(&Card::Num(1, 5)));
    assert!(!Card::Num(0, 3).can_move_front_of(&Card::Num(2, 4)));
}

#[test]
fn nothing_goes_onto_special_bonus_or_locked() {
    for card in every_card() {
        assert!(!card.can_move_front_of(&Card::Flower));
        assert!(!card.can_move_front_of(&Card::Spec(0)));
        assert!(!card.can_move_front_of(&Card::Disable));
    }
    assert!(!Card::Flower.can_move_front_of(&Card::Num(0, 1)));
    assert!(!Card::Spec(1).can_move_front_of(&Card::Num(1, 1)));
}

#[test]
fn symbols_follow_the_keyboard_rows() {
    assert_eq!(Card::Num(0, 1).into_char(), '1');
    assert_eq!(Card::Num(0, 9).into_char(), '9');
    assert_eq!(Card::Num(1, 1).into_char(), 'q');
    assert_eq!(Card::Num(1, 5).into_char(), 't');
    assert_eq!(Card::Num(1, 9).into_char(), 'o');
    assert_eq!(Card::Num(2, 1).into_char(), 'a');
    assert_eq!(Card::Num(2, 6).into_char(), 'h');
    assert_eq!(Card::Num(2, 9).into_char(), 'l');
    assert_eq!(Card::Spec(0).into_char(), 'z');
    assert_eq!(Card::Spec(1).into_char(), 'x');
    assert_eq!(Card::Spec(2).into_char(), 'c');
    assert_eq!(Card::Flower.into_char(), 'v');
    assert_eq!(Card::Empty.into_char(), 'b');
    assert_eq!(Card::Disable.into_char(), 'n');
}

#[test]
fn symbols_are_distinct_and_never_the_separator() {
    let all = every_card();
    for (i, a) in all.iter().enumerate() {
        assert_ne!(a.into_char(), ';');
        for b in all.iter().skip(i + 1) {
            assert_ne!(a.into_char(), b.into_char());
        }
    }
}

#[test]
fn sort_key_orders_as_the_cards_compare() {
    let all = every_card();
    for a in all.iter() {
        for b in all.iter() {
            assert_eq!(a.sort_key() < b.sort_key(), a < b);
            assert_eq!(a.sort_key() == b.sort_key(), a == b);
        }
    }
    assert_eq!(Card::Flower.sort_key(), 0);
    assert_eq!(Card::Num(1, 5).sort_key(), 262);
    assert_eq!(Card::Spec(2).sort_key(), 65539);
}

#[test]
fn empty_board_has_markers_only() {
    let decks = Decks::new_empty();
    assert_eq!(decks.rev_cards, [0, 0, 0]);
    assert_eq!(decks.storage, [Card::Empty; 3]);
    for column in decks.stks.iter() {
        assert_eq!(column, &vec![Card::Empty]);
    }
    assert!(decks.storage_has_empty());
    assert_eq!(decks.into_string(), "bbb;;;;;;;;");
}

#[test]
fn storage_has_empty_sees_the_last_free_cell() {
    let mut decks = Decks::new_empty();
    decks.storage = [Card::Flower, Card::Spec(0), Card::Empty];
    assert!(decks.storage_has_empty());
    decks.storage[2] = Card::Disable;
    assert!(!decks.storage_has_empty());
}

#[test]
fn destinations_list_columns_then_cells() {
    let mut decks = Decks::new_empty();
    decks.stks[0].push(Card::Num(0, 1));
    decks.stks[1].push(Card::Num(1, 5));
    decks.stks[2].push(Card::Num(2, 5));
    decks.stks[3].push(Card::Flower);
    decks.storage[1] = Card::Num(1, 9);
    let found = decks.seek_possible_move((0, 0, 1));
    assert_eq!(
        found,
        vec![(0, 1), (0, 4), (0, 5), (0, 6), (0, 7), (1, 0), (1, 1), (1, 2)]
    );
}

#[test]
fn a_card_in_a_cell_goes_to_columns_only() {
    let mut decks = Decks::new_empty();
    decks.stks[0].push(Card::Spec(1));
    decks.storage[0] = Card::Spec(2);
    let found = decks.seek_possible_move((1, 0, 0));
    assert_eq!(found, vec![(0, 1), (0, 2), (0, 3), (0, 4), (0, 5), (0, 6), (0, 7)]);
}

#[test]
fn another_kind_of_source_reads_as_the_empty_marker() {
    let mut decks = Decks::new_empty();
    decks.stks[0].push(Card::Spec(1));
    decks.storage[2] = Card::Flower;
    let found = decks.seek_possible_move((7, 0, 0));
    assert_eq!(
        found,
        vec![(0, 1), (0, 2), (0, 3), (0, 4), (0, 5), (0, 6), (0, 7), (1, 0), (1, 1)]
    );
}

#[test]
fn moving_a_run_reports_the_way_back() {
    let mut decks = three_on_column_zero();
    let back = decks.try_to_move((0, 0, 2), (0, 3));
    assert_eq!(back, Ok(((0, 3, 1), (0, 0))));
    assert_eq!(decks.stks[0], vec![Card::Empty, Card::Num(1, 1)]);
    assert_eq!(decks.stks[3], vec![Card::Empty, Card::Num(1, 2), Card::Num(1, 3)]);
}

#[test]
fn undo_restores_the_single_column_layout() {
    let mut decks = three_on_column_zero();
    let flag = decks.into_string();
    let back = decks.try_to_move((0, 0, 2), (0, 3)).unwrap();
    assert_ne!(decks.into_string(), flag);
    assert_eq!(decks.undo_move(back), Ok(()));
    assert!(decks == three_on_column_zero());
    assert_eq!(decks.into_string(), flag);
}

#[test]
fn top_card_goes_into_a_free_cell_and_back() {
    let mut decks = three_on_column_zero();
    let back = decks.try_to_move((0, 0, 3), (1, 2));
    assert_eq!(back, Ok(((1, 2, 233), (0, 0))));
    assert_eq!(decks.storage, [Card::Empty, Card::Empty, Card::Num(1, 3)]);
    assert_eq!(decks.stks[0], vec![Card::Empty, Card::Num(1, 1), Card::Num(1, 2)]);
    assert_eq!(decks.undo_move(back.unwrap()), Ok(()));
    assert!(decks == three_on_column_zero());
}

#[test]
fn card_leaves_a_cell_for_a_column_and_back() {
    let mut decks = Decks::new_empty();
    decks.storage[1] = Card::Num(0, 1);
    decks.stks[4].push(Card::Num(1, 7));
    let back = decks.try_to_move((1, 1, 0), (0, 4));
    assert_eq!(back, Ok(((0, 4, 2), (1, 1))));
    assert_eq!(decks.storage, [Card::Empty; 3]);
    assert_eq!(decks.stks[4], vec![Card::Empty, Card::Num(1, 7), Card::Num(0, 1)]);
    assert_eq!(decks.undo_move(back.unwrap()), Ok(()));
    assert_eq!(decks.storage[1], Card::Num(0, 1));
    assert_eq!(decks.stks[4], vec![Card::Empty, Card::Num(1, 7)]);
}

#[test]
fn illegal_moves_are_refused_and_change_nothing() {
    let mut decks = three_on_column_zero();
    decks.stks[1].push(Card::Num(1, 9));
    decks.storage[0] = Card::Flower;
    decks.storage[1] = Card::Disable;
    let cases: Vec<((u8, u8, u8), (u8, u8))> = vec![
        ((1, 0, 0), (1, 2)),
        ((0, 0, 3), (0, 1)),
        ((0, 0, 3), (0, 0)),
        ((0, 0, 3), (1, 0)),
        ((0, 0, 2), (1, 2)),
        ((0, 0, 0), (0, 3)),
        ((0, 0, 4), (0, 3)),
        ((0, 8, 1), (0, 3)),
        ((0, 0, 3), (0, 8)),
        ((0, 0, 3), (1, 3)),
        ((1, 3, 0), (0, 3)),
        ((1, 2, 0), (0, 3)),
        ((1, 1, 0), (0, 3)),
        ((2, 0, 1), (0, 3)),
        ((0, 0, 3), (2, 0)),
    ];
    for (from, to) in cases {
        let mut expected = three_on_column_zero();
        expected.stks[1].push(Card::Num(1, 9));
        expected.storage[0] = Card::Flower;
        expected.storage[1] = Card::Disable;
        assert_eq!(decks.try_to_move(from, to), Err(MoveErr::CantMove));
        assert!(decks == expected);
    }
}

#[test]
fn undo_refuses_what_cannot_be_relocated() {
    let mut decks = three_on_column_zero();
    assert_eq!(decks.undo_move(((1, 0, 233), (0, 0))), Err(MoveErr::CantMove));
    assert_eq!(decks.undo_move(((0, 0, 9), (0, 1))), Err(MoveErr::CantMove));
    assert_eq!(decks.undo_move(((0, 0, 1), (1, 0))), Err(MoveErr::CantMove));
    assert!(decks == three_on_column_zero());
}

#[test]
fn undo_does_not_ask_the_stacking_rule() {
    let mut decks = three_on_column_zero();
    decks.stks[1].push(Card::Flower);
    assert_eq!(decks.try_to_move((0, 0, 3), (0, 1)), Err(MoveErr::CantMove));
    assert_eq!(decks.undo_move(((0, 0, 3), (0, 1))), Ok(()));
    assert_eq!(decks.stks[1], vec![Card::Empty, Card::Flower, Card::Num(1, 3)]);
}

#[test]
fn tokens_name_cards() {
    assert_eq!(read_token('r', '8'), Some(Card::Num(0, 8)));
    assert_eq!(read_token('g', '1'), Some(Card::Num(1, 1)));
    assert_eq!(read_token('b', '9'), Some(Card::Num(2, 9)));
    assert_eq!(read_token('z', 'z'), Some(Card::Spec(0)));
    assert_eq!(read_token('f', 'f'), Some(Card::Spec(1)));
    assert_eq!(read_token('m', '?'), Some(Card::Spec(2)));
    assert_eq!(read_token('l', 'l'), Some(Card::Flower));
    assert_eq!(read_token('r', '0'), None);
    assert_eq!(read_token('g', 'a'), None);
    assert_eq!(read_token('b', ':'), None);
    assert_eq!(read_token('x', '1'), None);
    assert_eq!(read_token(';', ';'), None);
}

#[test]
fn deals_of_wrong_length_are_refused() {
    assert_eq!(Decks::new(String::new()).err(), Some(DealErr::Length));
    assert_eq!(Decks::new(String::from("zz")).err(), Some(DealErr::Length));
    let long = String::from(
        "zzg5mmg2b6r8llg1b4r6g3mmg7r7r5b1ffr2b2mmb8g4ffr9r3g9r1b7b5r4g8ffzzb3zzb9zzffg6mmzz",
    );
    assert_eq!(Decks::new(long).err(), Some(DealErr::Length));
}

#[test]
fn deals_with_unknown_tokens_are_refused() {
    let bad_rank = String::from(
        "zzg0mmg2b6r8llg1b4r6g3mmg7r7r5b1ffr2b2mmb8g4ffr9r3g9r1b7b5r4g8ffzzb3zzb9zzffg6mm",
    );
    assert_eq!(Decks::new(bad_rank).err(), Some(DealErr::Token));
    let bad_class = String::from(
        "zzg5mmg2b6r8llg1b4r6g3mmg7r7r5b1ffr2b2mmb8g4ffr9r3g9r1b7b5r4g8ffzzb3zzb9zzffg6q1",
    );
    assert_eq!(Decks::new(bad_class).err(), Some(DealErr::Token));
}

#[test]
fn deals_that_are_not_the_deck_are_refused() {
    let twice = String::from(
        "zzg5mmg2b6r8llg1b4r6g3mmg7r7r5b1ffr2b2mmb8g4ffr9r3g9r1b7b5r4g8ffzzb3zzb9zzffg6g5",
    );
    assert_eq!(Decks::new(twice).err(), Some(DealErr::Deck));
    let two_flowers = String::from(
        "llg5mmg2b6r8llg1b4r6g3mmg7r7r5b1ffr2b2mmb8g4ffr9r3g9r1b7b5r4g8ffzzb3zzb9zzffg6mm",
    );
    assert_eq!(Decks::new(two_flowers).err(), Some(DealErr::Deck));
}

#[test]
fn full_deck_is_recognised() {
    let mut deck: Vec<Card> = vec![Card::Flower];
    for kind in 0..3u8 {
        for _ in 0..4 {
            deck.push(Card::Spec(kind));
        }
    }
    for suit in 0..3u8 {
        for rank in 1..10u8 {
            deck.push(Card::Num(suit, rank));
        }
    }
    assert!(is_full_deck(&deck));
    deck.reverse();
    assert!(is_full_deck(&deck));
    let last = deck.pop().unwrap();
    assert!(!is_full_deck(&deck));
    deck.push(Card::Empty);
    assert!(!is_full_deck(&deck));
    deck.pop();
    deck.push(Card::Num(0, 10));
    assert!(!is_full_deck(&deck));
    deck.pop();
    deck.push(last);
    deck.push(Card::Spec(1));
    assert!(!is_full_deck(&deck));
    assert!(!is_full_deck(&Vec::new()));
}

#[test]
fn boards_made_by_the_library_are_well_formed() {
    assert!(Decks::new_empty().is_well_formed());
    assert!(three_on_column_zero().is_well_formed());
    let deal = String::from(
        "zzg5mmg2b6r8llg1b4r6g3mmg7r7r5b1ffr2b2mmb8g4ffr9r3g9r1b7b5r4g8ffzzb3zzb9zzffg6mm",
    );
    assert!(Decks::new(deal).unwrap().is_well_formed());
}

#[test]
fn boards_written_by_hand_may_be_ill_formed() {
    let mut counter = Decks::new_empty();
    counter.rev_cards[1] = 10;
    assert!(!counter.is_well_formed());
    let mut no_marker = Decks::new_empty();
    no_marker.stks[3].clear();
    assert!(!no_marker.is_well_formed());
    let mut marker_inside = Decks::new_empty();
    marker_inside.stks[3].push(Card::Empty);
    assert!(!marker_inside.is_well_formed());
    let mut bad_rank = Decks::new_empty();
    bad_rank.stks[0].push(Card::Num(0, 0));
    assert!(!bad_rank.is_well_formed());
    let mut bad_cell = Decks::new_empty();
    bad_cell.storage[2] = Card::Spec(3);
    assert!(!bad_cell.is_well_formed());
    let mut too_many = Decks::new_empty();
    too_many.rev_cards = [9, 9, 9];
    too_many.storage = [Card::Disable, Card::Disable, Card::Disable];
    too_many.stks[0].push(Card::Flower);
    assert!(too_many.is_well_formed());
    too_many.stks[7].push(Card::Flower);
    assert!(!too_many.is_well_formed());
}

#[test]
fn playable_cards_are_the_well_formed_ones_but_the_markers() {
    for card in every_card() {
        assert!(card.is_wf());
        assert_eq!(card.is_playable(), card != Card::Empty && card != Card::Disable);
    }
    for card in [Card::Num(3, 1), Card::Num(0, 0), Card::Num(2, 10), Card::Spec(3)] {
        assert!(!card.is_wf());
        assert!(!card.is_playable());
    }
}
