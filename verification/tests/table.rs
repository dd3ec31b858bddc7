use poker::card::deck_52;
use poker::card::Rank::{Two, Ace, King};
use poker::card::Suit::{Clubs, Spades, Hearts};
use poker::dealer::Dealer;
use poker::game::{Game, GameOptions};
use poker::player::Player;

fn options() -> GameOptions {
    GameOptions {
        num_seats: 6,
        min_buyin: 100,
        max_buyin: 1000,
        small_blind: 5,
        big_blind: 10,
    }
}

#[test]
fn deck_has_52_distinct_cards() {
    let deck = deck_52();
    assert_eq!(deck.len(), 52);
    for i in 0..52 {
        for j in (i + 1)..52 {
            assert!(deck[i] != deck[j]);
        }
    }
    assert!(deck.contains(&(Ace, Spades)));
    assert!(deck.contains(&(Two, Clubs)));
}

#[test]
fn dealer_deals_down_the_deck() {
    let mut dealer = Dealer::new();
    let first = dealer.deal(2);
    assert_eq!(first.len(), 2);
    let rest = dealer.deal(50);
    assert_eq!(rest.len(), 50);
    // all 52 dealt cards are distinct
    let mut all = first.clone();
    all.extend(rest);
    for i in 0..52 {
        for j in (i + 1)..52 {
            assert!(all[i] != all[j]);
        }
    }
}

#[test]
fn game_needs_two_seats() {
    let mut opts = options();
    opts.num_seats = 1;
    assert!(Game::new(opts).is_err());
    assert!(Game::new(options()).is_ok());
}

#[test]
fn seating_rules() {
    let mut game = Game::new(options()).unwrap();
    // too poor, too rich, bad seat, taken seat
    assert!(game.seat_player(0, Player::new(50)).is_err());
    assert!(game.seat_player(0, Player::new(5000)).is_err());
    assert!(game.seat_player(9, Player::new(500)).is_err());
    assert!(game.seat_player(0, Player::new(500)).is_ok());
    assert!(game.seat_player(0, Player::new(500)).is_err());
    assert!(game.seat_player(1, Player::new(500)).is_ok());
    assert!(game.remove_player(1).is_ok());
    assert!(game.remove_player(1).is_err());
    assert!(game.remove_player(9).is_err());
}

#[test]
fn blinds_and_pot() {
    let mut game = Game::new(options()).unwrap();
    assert!(game.start_hand().is_err());
    game.seat_player(0, Player::new(500)).unwrap();
    assert!(game.start_hand().is_err());
    game.seat_player(2, Player::new(500)).unwrap();
    let turn = game.start_hand().unwrap();
    assert!(turn == 0 || turn == 2);
    // small and big blind together stand in front of the players
    let bets: u64 = game
        .seats
        .iter()
        .filter_map(|s| s.as_ref().map(|p| p.bet))
        .sum();
    assert_eq!(bets, 15);
    game.rake_bets();
    assert_eq!(game.pot, 15);
    let bets_after: u64 = game
        .seats
        .iter()
        .filter_map(|s| s.as_ref().map(|p| p.bet))
        .sum();
    assert_eq!(bets_after, 0);
}

#[test]
fn blinds_capped_at_stack() {
    let mut p = Player::new(3);
    p.bet(10);
    assert_eq!(p.chips, 0);
    assert_eq!(p.bet, 3);
    p.bet(10);
    assert_eq!(p.bet, 3);
}

#[test]
fn dealing_to_board_and_players() {
    let mut game = Game::new(options()).unwrap();
    game.seat_player(1, Player::new(500)).unwrap();
    game.seat_player(4, Player::new(500)).unwrap();
    game.deal_to_players(2);
    game.deal_to_board(5);
    assert_eq!(game.board.len(), 5);
    let with_cards = game
        .seats
        .iter()
        .filter(|s| s.as_ref().map_or(false, |p| p.cards.len() == 2))
        .count();
    assert_eq!(with_cards, 2);
    // the hole cards and the board all really came off the one deck:
    // nine distinct cards in total, from a deck of 52 distinct cards
    let mut seen: Vec<poker::card::Card> = Vec::new();
    for seat in game.seats.iter() {
        if let Some(p) = seat {
            seen.extend(p.cards.iter().copied());
        }
    }
    seen.extend(game.board.iter().copied());
    assert_eq!(seen.len(), 9);
    for i in 0..seen.len() {
        for j in (i + 1)..seen.len() {
            assert!(seen[i] != seen[j]);
        }
    }
}

#[test]
fn turn_rotation_skips_empty_seats() {
    let mut game = Game::new(options()).unwrap();
    game.seat_player(1, Player::new(500)).unwrap();
    game.seat_player(4, Player::new(500)).unwrap();
    game.start_hand().unwrap();
    let first = game.turn;
    let second = game.next_turn();
    assert!(second == 1 || second == 4);
    assert!(second != first || game.num_players == 1);
    let third = game.next_turn();
    assert_eq!(third, first);
}

#[test]
fn player_muck_and_take() {
    let mut p = Player::new(200);
    p.take_cards(vec![(Ace, Spades), (King, Hearts)]);
    assert_eq!(p.cards.len(), 2);
    p.muck();
    assert!(p.cards.is_empty());
}

#[test]
fn next_hand_resets_board_and_deck() {
    let mut game = Game::new(options()).unwrap();
    game.seat_player(0, Player::new(500)).unwrap();
    game.seat_player(3, Player::new(500)).unwrap();
    game.start_hand().unwrap();
    game.deal_to_board(3);
    game.next_hand();
    assert_eq!(game.board.len(), 0);
    // the button moved to the other player and fresh blinds were posted
    assert!(game.button == 0 || game.button == 3);
    let bets: u64 = game
        .seats
        .iter()
        .filter_map(|s| s.as_ref().map(|p| p.bet))
        .sum();
    assert_eq!(bets, 30);
    assert!(game.seats[game.turn].is_some());
}
