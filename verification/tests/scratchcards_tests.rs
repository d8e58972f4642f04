use puzzles::scratchcards::{Card, CardStack};

#[test]
fn test_card_from_line() {
    let line = "Card 1: 1  2  3  4  5  6  7  8  9 10 | 1  2  3  4  5  6  7  8  9 10 11 12 13 14 15 16 17 18 19 20 21 22 23 24 25";
    let card = Card::try_from(line).expect("Unable to parse card");
    assert_eq!(
        card,
        Card {
            id: 1,
            winning_numbers: [1, 2, 3, 4, 5, 6, 7, 8, 9, 10],
            scratch_numbers: [
                1, 2, 3, 4, 5, 6, 7, 8, 9, 10, 11, 12, 13, 14, 15, 16, 17, 18, 19, 20, 21, 22,
                23, 24, 25
            ],
        }
    );
}

#[test]
fn test_card_calculate_winnings() {
    let card = Card {
        id: 1,
        winning_numbers: [1, 2, 3, 4, 5, 6, 7, 8, 9, 10],
        scratch_numbers: [
            1, 2, 3, 4, 5, 6, 7, 8, 9, 10, 11, 12, 13, 14, 15, 16, 17, 18, 19, 20, 21, 22, 23,
            24, 25,
        ],
    };
    assert_eq!(card.calculate_winnings(), 512);
}

#[test]
fn test_card_calculate_winnings_scoring() {
    let card = Card {
        id: 1,
        winning_numbers: [91, 92, 93, 94, 95, 96, 97, 98, 99, 26],
        scratch_numbers: [
            1, 2, 3, 4, 5, 6, 7, 8, 9, 10, 11, 12, 13, 14, 15, 16, 17, 18, 19, 20, 21, 22, 23,
            24, 25,
        ],
    };
    assert_eq!(card.calculate_winnings(), 0);

    let card = Card {
        id: 1,
        winning_numbers: [1, 92, 93, 94, 95, 96, 97, 98, 99, 26],
        scratch_numbers: [
            1, 2, 3, 4, 5, 6, 7, 8, 9, 10, 11, 12, 13, 14, 15, 16, 17, 18, 19, 20, 21, 22, 23,
            24, 25,
        ],
    };
    assert_eq!(card.calculate_winnings(), 1);

    let card = Card {
        id: 1,
        winning_numbers: [1, 2, 93, 94, 95, 96, 97, 98, 99, 26],
        scratch_numbers: [
            1, 2, 3, 4, 5, 6, 7, 8, 9, 10, 11, 12, 13, 14, 15, 16, 17, 18, 19, 20, 21, 22, 23,
            24, 25,
        ],
    };
    assert_eq!(card.calculate_winnings(), 2);

    let card = Card {
        id: 1,
        winning_numbers: [1, 2, 3, 94, 95, 96, 97, 98, 99, 26],
        scratch_numbers: [
            1, 2, 3, 4, 5, 6, 7, 8, 9, 10, 11, 12, 13, 14, 15, 16, 17, 18, 19, 20, 21, 22, 23,
            24, 25,
        ],
    };
    assert_eq!(card.calculate_winnings(), 4);
}

#[test]
fn test_recieve_copies() {
    let mut stack = CardStack::new();

    stack.add_card(Card {
        id: 1,
        winning_numbers: [1, 2, 3, 94, 95, 96, 97, 98, 99, 26],
        scratch_numbers: [
            1, 2, 3, 4, 5, 6, 7, 8, 9, 10, 11, 12, 13, 14, 15, 16, 17, 18, 19, 20, 21, 22, 23,
            24, 25,
        ],
    });
    assert_eq!(stack.cards.len(), 4);
    assert_eq!(stack.cards.get(&1).unwrap().copies, 1);
    assert_eq!(stack.cards.get(&2).unwrap().copies, 1);
    assert_eq!(stack.cards.get(&3).unwrap().copies, 1);
    assert_eq!(stack.cards.get(&4).unwrap().copies, 1);

    stack.add_card(Card {
        id: 2,
        winning_numbers: [1, 2, 93, 94, 95, 96, 97, 98, 99, 26],
        scratch_numbers: [
            1, 2, 3, 4, 5, 6, 7, 8, 9, 10, 11, 12, 13, 14, 15, 16, 17, 18, 19, 20, 21, 22, 23,
            24, 25,
        ],
    });
    assert_eq!(stack.cards.len(), 4);
    assert_eq!(stack.cards.get(&1).unwrap().copies, 1);
    assert_eq!(stack.cards.get(&2).unwrap().copies, 2);
    assert_eq!(stack.cards.get(&3).unwrap().copies, 3);
    assert_eq!(stack.cards.get(&4).unwrap().copies, 3);

    stack.add_card(Card {
        id: 3,
        winning_numbers: [1, 2, 93, 94, 95, 96, 97, 98, 99, 26],
        scratch_numbers: [
            1, 2, 3, 4, 5, 6, 7, 8, 9, 10, 11, 12, 13, 14, 15, 16, 17, 18, 19, 20, 21, 22, 23,
            24, 25,
        ],
    });
    assert_eq!(stack.cards.len(), 5);
    assert_eq!(stack.cards.get(&1).unwrap().copies, 1);
    assert_eq!(stack.cards.get(&2).unwrap().copies, 2);
    assert_eq!(stack.cards.get(&3).unwrap().copies, 4);
    assert_eq!(stack.cards.get(&4).unwrap().copies, 7);
    assert_eq!(stack.cards.get(&5).unwrap().copies, 4);
}

#[test]
fn test_count_copies_totals() {
    let mut stack = CardStack::new();
    stack.add_card(Card {
        id: 1,
        winning_numbers: [1, 2, 3, 94, 95, 96, 97, 98, 99, 26],
        scratch_numbers: [
            1, 2, 3, 4, 5, 6, 7, 8, 9, 10, 11, 12, 13, 14, 15, 16, 17, 18, 19, 20, 21, 22, 23,
            24, 25,
        ],
    });
    // Only card 1 is real; the placeholder copies of 2..4 do not count.
    assert_eq!(stack.count_copies(), 1);
}

#[test]
fn test_card_from_line_rejects_short_line() {
    assert!(Card::try_from("Card 1: 1 2 3").is_err());
}
