use poker::card::Card;
use poker::card::Rank::{Two, Three, Four, Five, Six, Seven, Eight, Nine, Ten, Jack, Queen, King, Ace};
use poker::card::Suit::{Clubs, Diamonds, Hearts, Spades};
use poker::five_card_hand::best_hand;
use poker::hand::Hand;

#[test]
fn scratch() {
    println!(
        "{:?}",
        best_hand([
            (Jack, Clubs),
            (Queen, Clubs),
            (Eight, Clubs),
            (Ten, Clubs),
            (Nine, Clubs)
        ])
    )
}

#[test]
fn straight_flush_not_straight() {
    // 8-9-10-J-Q all clubs is a straight flush to the queen, not a mere straight
    let h = best_hand([
        (Jack, Clubs),
        (Queen, Clubs),
        (Eight, Clubs),
        (Ten, Clubs),
        (Nine, Clubs),
    ]);
    assert!(h == Hand::StraightFlush(Queen));
    assert!(h != Hand::Straight(Queen));
}

#[test]
fn royal_flush_five() {
    let h = best_hand([
        (Ten, Hearts),
        (Ace, Hearts),
        (Queen, Hearts),
        (King, Hearts),
        (Jack, Hearts),
    ]);
    assert!(h == Hand::RoyalFlush);
}

#[test]
fn royal_flushes_of_different_suits_compare_equal() {
    let h1 = best_hand([
        (Ten, Hearts),
        (Ace, Hearts),
        (Queen, Hearts),
        (King, Hearts),
        (Jack, Hearts),
    ]);
    let h2 = best_hand([
        (Ace, Spades),
        (King, Spades),
        (Queen, Spades),
        (Jack, Spades),
        (Ten, Spades),
    ]);
    assert!(h1 == h2);
    assert_eq!(h1.cmp(&h2), std::cmp::Ordering::Equal);
}

#[test]
fn wheel_is_five_high_straight() {
    let h = best_hand([
        (Ace, Hearts),
        (Two, Clubs),
        (Three, Spades),
        (Four, Hearts),
        (Five, Diamonds),
    ]);
    assert!(h == Hand::Straight(Five));
    let six_high = best_hand([
        (Two, Clubs),
        (Three, Spades),
        (Four, Hearts),
        (Five, Diamonds),
        (Six, Hearts),
    ]);
    assert!(six_high == Hand::Straight(Six));
    assert!(h < six_high);
    assert!(h < Hand::Straight(Ten));
    assert!(h > Hand::ThreeOfAKind([Ace, King, Queen]));
    assert!(h > Hand::TwoPair([Ace, King, Queen]));
    assert!(h > Hand::OnePair([Ace, King, Queen, Jack]));
    assert!(h > Hand::HighCard([Ace, King, Queen, Jack, Nine]));
}

#[test]
fn flush_between_straight_and_full_house() {
    let flush = best_hand([
        (Two, Clubs),
        (Seven, Clubs),
        (Nine, Clubs),
        (Jack, Clubs),
        (King, Clubs),
    ]);
    assert!(matches!(flush, Hand::Flush(_)));
    assert!(flush > Hand::Straight(Ace));
    assert!(flush > Hand::Straight(Five));
    assert!(flush < Hand::FullHouse([Two, Three]));
}

#[test]
fn five_card_categories() {
    assert!(
        best_hand([
            (Nine, Clubs),
            (Nine, Hearts),
            (Nine, Spades),
            (Nine, Diamonds),
            (Two, Clubs)
        ]) == Hand::FourOfAKind([Nine, Two])
    );
    assert!(
        best_hand([
            (Nine, Clubs),
            (Nine, Hearts),
            (Nine, Spades),
            (Two, Diamonds),
            (Two, Clubs)
        ]) == Hand::FullHouse([Nine, Two])
    );
    assert!(
        best_hand([
            (Nine, Clubs),
            (Nine, Hearts),
            (Two, Spades),
            (Two, Diamonds),
            (King, Clubs)
        ]) == Hand::TwoPair([Nine, Two, King])
    );
    assert!(
        best_hand([
            (Nine, Clubs),
            (Nine, Hearts),
            (Four, Spades),
            (Two, Diamonds),
            (King, Clubs)
        ]) == Hand::OnePair([Nine, King, Four, Two])
    );
    assert!(
        best_hand([
            (Nine, Clubs),
            (Seven, Hearts),
            (Four, Spades),
            (Two, Diamonds),
            (King, Clubs)
        ]) == Hand::HighCard([King, Nine, Seven, Four, Two])
    );
    // a middle window of three equal ranks is still three of a kind
    assert!(
        best_hand([
            (Nine, Clubs),
            (Seven, Hearts),
            (Seven, Spades),
            (Seven, Diamonds),
            (Five, Clubs)
        ]) == Hand::ThreeOfAKind([Seven, Nine, Five])
    );
}

#[test]
fn evaluate5_is_order_independent() {
    let cards: [Card; 5] = [
        (Nine, Clubs),
        (Nine, Hearts),
        (Two, Spades),
        (Two, Diamonds),
        (King, Clubs),
    ];
    let expected = best_hand(cards);
    // a few hand-picked permutations
    let perms: [[usize; 5]; 6] = [
        [0, 1, 2, 3, 4],
        [4, 3, 2, 1, 0],
        [2, 0, 4, 1, 3],
        [1, 4, 0, 3, 2],
        [3, 2, 4, 0, 1],
        [4, 0, 1, 2, 3],
    ];
    for p in perms.iter() {
        let shuffled = [cards[p[0]], cards[p[1]], cards[p[2]], cards[p[3]], cards[p[4]]];
        assert!(best_hand(shuffled) == expected);
    }
}

#[test]
fn kicker_order_one_pair() {
    // OnePair([Ten, Ace, King, Two]) > OnePair([Ten, Ace, King, Jack]) is false
    let low = Hand::OnePair([Ten, Ace, King, Two]);
    let high = Hand::OnePair([Ten, Ace, King, Jack]);
    assert!(!(low > high));
    assert!(low < high);
}

#[test]
fn kicker_near_ties_per_category() {
    assert!(Hand::HighCard([Ace, King, Nine, Five, Three]) > Hand::HighCard([Ace, King, Nine, Five, Two]));
    assert!(Hand::OnePair([Ten, Ace, King, Jack]) > Hand::OnePair([Ten, Ace, Queen, Jack]));
    assert!(Hand::TwoPair([Nine, Two, King]) > Hand::TwoPair([Nine, Two, Queen]));
    assert!(Hand::TwoPair([Nine, Three, Two]) > Hand::TwoPair([Nine, Two, Ace]));
    assert!(Hand::ThreeOfAKind([Seven, Ace, Two]) > Hand::ThreeOfAKind([Seven, King, Queen]));
    assert!(Hand::Flush([Ace, Jack, Nine, Five, Three]) > Hand::Flush([Ace, Jack, Nine, Five, Two]));
    assert!(Hand::FullHouse([Three, Two]) > Hand::FullHouse([Two, Ace]));
    assert!(Hand::FourOfAKind([Nine, Three]) > Hand::FourOfAKind([Nine, Two]));
    assert!(Hand::StraightFlush(Nine) > Hand::StraightFlush(Eight));
    assert!(Hand::StraightFlush(Five) < Hand::StraightFlush(Six));
}
