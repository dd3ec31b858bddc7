use poker::card::{Card, Rank, Suit};
use poker::card::Rank::{Two, Three, Four, Five, Six, Seven, Eight, Nine, Ten, Jack, Queen, King, Ace};
use poker::card::Suit::{Clubs, Diamonds, Hearts, Spades};
use poker::five_card_hand;
use poker::hand::Hand;
use poker::seven_card_hand;

/// The strongest five-card hand among all twenty-one five-card subsets,
/// found the slow way with the five-card evaluator.
fn brute_force_best(cards: [Card; 7]) -> Hand {
    let mut best: Option<Hand> = None;
    for skip_a in 0..7 {
        for skip_b in (skip_a + 1)..7 {
            let mut subset = Vec::new();
            for k in 0..7 {
                if k != skip_a && k != skip_b {
                    subset.push(cards[k]);
                }
            }
            let five: [Card; 5] = [subset[0], subset[1], subset[2], subset[3], subset[4]];
            let h = five_card_hand::best_hand(five);
            best = match best {
                None => Some(h),
                Some(b) => {
                    if h > b {
                        Some(h)
                    } else {
                        Some(b)
                    }
                }
            };
        }
    }
    best.unwrap()
}

fn rank_of(v: u8) -> Rank {
    match v {
        2 => Two,
        3 => Three,
        4 => Four,
        5 => Five,
        6 => Six,
        7 => Seven,
        8 => Eight,
        9 => Nine,
        10 => Ten,
        11 => Jack,
        12 => Queen,
        13 => King,
        _ => Ace,
    }
}

fn suit_of(v: u8) -> Suit {
    match v {
        0 => Clubs,
        1 => Diamonds,
        2 => Hearts,
        _ => Spades,
    }
}

#[test]
fn full_house_over_seven_cards() {
    let h = seven_card_hand::best_hand([
        (Ace, Hearts),
        (Ace, Spades),
        (Ace, Clubs),
        (King, Hearts),
        (King, Spades),
        (Two, Hearts),
        (Three, Hearts),
    ]);
    assert!(h == Hand::FullHouse([Ace, King]));
}

#[test]
fn high_card_over_seven_cards() {
    let h = seven_card_hand::best_hand([
        (Two, Clubs),
        (Four, Diamonds),
        (Six, Hearts),
        (Eight, Spades),
        (Ten, Clubs),
        (Queen, Diamonds),
        (Ace, Hearts),
    ]);
    assert!(h == Hand::HighCard([Ace, Queen, Ten, Eight, Six]));
}

#[test]
fn adversarial_seven_card_hands_match_brute_force() {
    let hands: [[Card; 7]; 10] = [
        // royal flush hidden among seven
        [
            (Ace, Hearts),
            (King, Hearts),
            (Two, Clubs),
            (Queen, Hearts),
            (Jack, Hearts),
            (Ten, Hearts),
            (Two, Spades),
        ],
        // wheel straight flush
        [
            (Ace, Clubs),
            (Two, Clubs),
            (Three, Clubs),
            (Four, Clubs),
            (Five, Clubs),
            (King, Hearts),
            (King, Spades),
        ],
        // two trips form the best full house
        [
            (Ace, Hearts),
            (Ace, Spades),
            (Ace, Clubs),
            (King, Hearts),
            (King, Spades),
            (King, Clubs),
            (Two, Hearts),
        ],
        // quads plus a pair
        [
            (Nine, Hearts),
            (Nine, Spades),
            (Nine, Clubs),
            (Nine, Diamonds),
            (King, Hearts),
            (King, Spades),
            (Two, Hearts),
        ],
        // straight and flush, but no straight flush
        [
            (Two, Hearts),
            (Three, Hearts),
            (Four, Hearts),
            (Five, Spades),
            (Six, Spades),
            (Nine, Hearts),
            (King, Hearts),
        ],
        // six-card flush: the five highest of the suit must win
        [
            (Two, Hearts),
            (Four, Hearts),
            (Six, Hearts),
            (Eight, Hearts),
            (Ten, Hearts),
            (Queen, Hearts),
            (Ace, Spades),
        ],
        // wheel straight with a pair
        [
            (Ace, Hearts),
            (Two, Clubs),
            (Three, Spades),
            (Four, Hearts),
            (Five, Diamonds),
            (Five, Clubs),
            (King, Spades),
        ],
        // three pairs: only the two highest count, best kicker outside
        [
            (Ace, Hearts),
            (Ace, Spades),
            (Nine, Clubs),
            (Nine, Hearts),
            (Four, Diamonds),
            (Four, Clubs),
            (King, Spades),
        ],
        // seven in a row: the straight must use the top five
        [
            (Four, Hearts),
            (Five, Clubs),
            (Six, Spades),
            (Seven, Hearts),
            (Eight, Diamonds),
            (Nine, Clubs),
            (Ten, Spades),
        ],
        // trips with close kickers
        [
            (Seven, Hearts),
            (Seven, Spades),
            (Seven, Clubs),
            (Ace, Hearts),
            (King, Diamonds),
            (Queen, Clubs),
            (Two, Spades),
        ],
    ];
    for cards in hands.iter() {
        let fast = seven_card_hand::best_hand(*cards);
        let slow = brute_force_best(*cards);
        assert!(fast == slow, "mismatch on {:?}: {:?} vs {:?}", cards, fast, slow);
    }
}

#[test]
fn random_seven_card_hands_match_brute_force() {
    // a fixed linear congruential generator keeps the test deterministic
    let mut state: u64 = 0x2545F4914F6CDD1D;
    for _ in 0..300 {
        // deal seven distinct cards from a 52-card deck
        let mut deck: Vec<(Rank, Suit)> = Vec::new();
        for s in 0..4u8 {
            for v in 2..15u8 {
                deck.push((rank_of(v), suit_of(s)));
            }
        }
        let mut cards = [(Two, Clubs); 7];
        for slot in 0..7 {
            state = state
                .wrapping_mul(6364136223846793005)
                .wrapping_add(1442695040888963407);
            let pick = (state >> 33) as usize % deck.len();
            cards[slot] = deck.swap_remove(pick);
        }
        let fast = seven_card_hand::best_hand(cards);
        let slow = brute_force_best(cards);
        assert!(fast == slow, "mismatch on {:?}: {:?} vs {:?}", cards, fast, slow);
    }
}
