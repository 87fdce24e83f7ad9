use solitaire::board::Decks;
use solitaire::card::Card;
use solitaire::solve::Solve;

const DEAL: &str =
    "zzg5mmg2b6r8llg1b4r6g3mmg7r7r5b1ffr2b2mmb8g4ffr9r3g9r1b7b5r4g8ffzzb3zzb9zzffg6mm";

#[test]
fn test_for_swap() {
    let mut decks = Decks::new_empty();
    decks.stks[0].push(Card::Num(1, 1));
    decks.stks[0].push(Card::Num(1, 2));
    decks.stks[0].push(Card::Num(1, 3));
    assert!(decks.try_to_move((0, 0, 2), (0, 3)).is_ok());
    let mut decks2 = Decks::new_empty();
    decks2.stks[0].push(Card::Num(1, 1));
    decks2.stks[3].push(Card::Num(1, 2));
    decks2.stks[3].push(Card::Num(1, 3));
    assert!(decks2 == decks);
}

#[test]
fn test_create() {
    // len = 80
    let cards = String::from("zzg5mmg2b6r8llg1b4r6g3mmg7r7r5b1ffr2b2mmb8g4ffr9r3g9r1b7b5r4g8ffzzb3zzb9zzffg6mm");
    let decks = Decks::new(cards).unwrap();
    let res = format!("{:?}", decks);
    let should_be = String::from("Decks { rev_cards: [0, 0, 0], stks: [[Empty, Spec(0), Num(1, 5), Spec(2), Num(1, 2), Num(2, 6)], [Empty, Num(0, 8), Flower, Num(1, 1), Num(2, 4), Num(0, 6)], [Empty, Num(1, 3), Spec(2), Num(1, 7), Num(0, 7), Num(0, 5)], [Empty, Num(2, 1), Spec(1), Num(0, 2), Num(2, 2), Spec(2)], [Empty, Num(2, 8), Num(1, 4), Spec(1), Num(0, 9), Num(0, 3)], [Empty, Num(1, 9), Num(0, 1), Num(2, 7), Num(2, 5), Num(0, 4)], [Empty, Num(1, 8), Spec(1), Spec(0), Num(2, 3), Spec(0)], [Empty, Num(2, 9), Spec(0), Spec(1), Num(1, 6), Spec(2)]], storage: [Empty, Empty, Empty] }");
    assert!(should_be == res);
}

#[test]
fn test_hash() {
    let cards = String::from("zzg5mmg2b6r8llg1b4r6g3mmg7r7r5b1ffr2b2mmb8g4ffr9r3g9r1b7b5r4g8ffzzb3zzb9zzffg6mm");
    let decks = Decks::new(cards).unwrap();
    assert!(decks.into_string() == "bbbztcwh;8vqf6;ecu75;ax2sc;krx93;o1jg4;ixzdz;lzxyc;");
}

#[test]
fn test_sol_sturt() {
    let cards = String::from("zzg5mmg2b6r8llg1b4r6g3mmg7r7r5b1ffr2b2mmb8g4ffr9r3g9r1b7b5r4g8ffzzb3zzb9zzffg6mm");
    let mut sol = Solve::new(cards).unwrap();
    sol.mark();
    assert!(sol.flag_set.contains("bbbztcwh;8vqf6;ecu75;ax2sc;krx93;o1jg4;ixzdz;lzxyc;"));
}

#[test]
fn fingerprint_is_stable_across_boards() {
    let a = Decks::new(String::from(DEAL)).unwrap();
    let b = Decks::new(String::from(DEAL)).unwrap();
    assert_eq!(a.into_string(), b.into_string());
    assert_eq!(a.into_string(), a.into_string());
}
