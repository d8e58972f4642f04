use puzzles::cards::{parse_hands, Card, Hand, HandType, Rank};

#[test]
fn test_try_from_valid_input() {
    let input = String::from("32T3K 765");
    let expected_cards = [
        Card { rank: Rank::Three },
        Card { rank: Rank::Two },
        Card { rank: Rank::Ten },
        Card { rank: Rank::Three },
        Card { rank: Rank::King },
    ];
    let expected_bid = 765;

    let result = Hand::try_from(&input);

    assert!(result.is_ok());
    let hand = result.unwrap();
    assert_eq!(hand.cards, expected_cards);
    assert_eq!(hand.bid, expected_bid);
}

#[test]
fn test_try_from_invalid_card() {
    let input = String::from("32T3X 765");

    let result = Hand::try_from(&input);

    assert!(result.is_err());
    assert_eq!(result.unwrap_err(), "Invalid card");
}

#[test]
fn test_try_from_invalid_bid() {
    let input = String::from("32T3K abc");

    let result = Hand::try_from(&input);

    assert!(result.is_err());
    assert_eq!(result.unwrap_err(), "Invalid bid");
}

#[test]
fn test_parse_hands() {
    let input = "32T3K 765
AKQJT 0
98765 999";

    let expected_hands = vec![
        Hand {
            cards: [
                Card { rank: Rank::Nine },
                Card { rank: Rank::Eight },
                Card { rank: Rank::Seven },
                Card { rank: Rank::Six },
                Card { rank: Rank::Five },
            ],
            bid: 999,
        },
        Hand {
            cards: [
                Card { rank: Rank::Three },
                Card { rank: Rank::Two },
                Card { rank: Rank::Ten },
                Card { rank: Rank::Three },
                Card { rank: Rank::King },
            ],
            bid: 765,
        },
        Hand {
            cards: [
                Card { rank: Rank::Ace },
                Card { rank: Rank::King },
                Card { rank: Rank::Queen },
                Card { rank: Rank::Jack },
                Card { rank: Rank::Ten },
            ],
            bid: 0,
        },
    ];

    match parse_hands(input) {
        Ok(hands) => assert_eq!(hands, expected_hands),
        Err(e) => panic!("Error: {:?}", e),
    }
}

#[test]
fn test_hand_type() {
    match Hand::try_from("32T3K 765") {
        Ok(hand) => assert_eq!(hand.hand_type(), HandType::OnePair(Rank::Three)),
        Err(e) => panic!("Error: {:?}", e),
    }

    match Hand::try_from("T55J5 684") {
        Ok(hand) => assert_eq!(hand.hand_type(), HandType::FourOfAKind(Rank::Five)),
        Err(e) => panic!("Error: {:?}", e),
    }

    match Hand::try_from("KK677 28") {
        Ok(hand) => assert_eq!(hand.hand_type(), HandType::TwoPair(Rank::King, Rank::Seven)),
        Err(e) => panic!("Error: {:?}", e),
    }

    match Hand::try_from("KTJJT 220") {
        Ok(hand) => assert_eq!(hand.hand_type(), HandType::FourOfAKind(Rank::Ten)),
        Err(e) => panic!("Error: {:?}", e),
    }

    match Hand::try_from("QQQJA 483") {
        Ok(hand) => assert_eq!(hand.hand_type(), HandType::FourOfAKind(Rank::Queen)),
        Err(e) => panic!("Error: {:?}", e),
    }
}

#[test]
fn test_hand_ordering() {
    let input = "32T3K 765
T55J5 684
KK677 28
KTJJT 220
QQQJA 483";

    let hands = parse_hands(input).unwrap();

    assert_eq!(hands[0].hand_type(), HandType::OnePair(Rank::Three));
    assert_eq!(hands[1].hand_type(), HandType::TwoPair(Rank::King, Rank::Seven));
    assert_eq!(hands[2].hand_type(), HandType::FourOfAKind(Rank::Five));
    assert_eq!(hands[3].hand_type(), HandType::FourOfAKind(Rank::Queen));
    assert_eq!(hands[4].hand_type(), HandType::FourOfAKind(Rank::Ten));
}

#[test]
fn test_hand_high_card_ordering() {
    let input = "74568 1
72654 1
76543 1
65432 1";

    let hands = parse_hands(input).unwrap();

    assert_eq!(spelled(&hands[0]), "65432");
    assert_eq!(spelled(&hands[1]), "72654");
    assert_eq!(spelled(&hands[2]), "74568");
    assert_eq!(spelled(&hands[3]), "76543");
}

fn spelled(hand: &Hand) -> String {
    hand.cards.iter().map(|c| c.symbol()).collect::<String>()
}
