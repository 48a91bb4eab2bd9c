use zarena::card::CardC;
use zarena::deck::DeckC;
use zarena::hand::HandC;
use zarena::player::Player;
use zarena::table::{Poker, PokerError};

fn hand_of(cards: &[(u8, u8)]) -> HandC {
    let mut h = HandC::new();
    for &(v, f) in cards {
        h.set_card(CardC::new(v, f));
    }
    h
}

fn seat(id: u8, credits: u64, initial: u64, hole: &[(u8, u8)], bet: u64, total_bet: u64) -> Player {
    let mut p = Player::new(id, credits);
    p.hand = hand_of(hole);
    p.bet = bet;
    p.total_bet = total_bet;
    p.initial_credit = initial;
    p
}

fn drained_deck(cards_out: usize) -> DeckC {
    let mut deck = DeckC::new();
    for _ in 0..cards_out {
        deck.get_card();
    }
    deck
}

#[test]
fn poker_works() {
    let mut poker = Poker::new(vec![100_000, 200_000], true);
    println!("{:?}", poker.reset());
    println!("{:?}", poker.step(0, true));
}

#[test]
fn blinds_are_forced_in_order() {
    let mut poker = Poker::new(vec![1000, 1000, 1000], true);
    poker.reset();
    assert_eq!(poker.to_play(), 1);
    assert_eq!(poker.legal_actions(), vec![0]);
    poker.step(0, true).unwrap();
    assert_eq!(poker.to_play(), 2);
    assert_eq!(poker.legal_actions(), vec![1]);
}

#[test]
fn invalid_action_is_rejected_without_state_change() {
    let mut poker = Poker::new(vec![1000, 1000], true);
    poker.reset();
    let before = {
        let s = poker.get_state();
        (s.0.clone(), s.3, s.4, s.5, s.6, s.7, s.8, s.9)
    };
    let r = poker.step(7, true);
    assert_eq!(r.unwrap_err(), PokerError::InvalidAction);
    let after = {
        let s = poker.get_state();
        (s.0.clone(), s.3, s.4, s.5, s.6, s.7, s.8, s.9)
    };
    assert_eq!(before, after);
    // An out-of-range code is rejected the same way.
    assert_eq!(poker.step(12, true).unwrap_err(), PokerError::InvalidAction);
}

#[test]
fn split_pot_on_equal_hands_nets_zero() {
    // Scenario A: two players on the river with the board making the same
    // full house for both; the main pot splits and each nets zero.
    let poker = Poker {
        deck: drained_deck(9),
        players: vec![
            seat(0, 950, 1000, &[(2, 0), (3, 1)], 0, 50),
            seat(1, 950, 1000, &[(2, 3), (3, 2)], 0, 50),
        ],
        n_players_in_hand: 2,
        community_cards: hand_of(&[(10, 0), (10, 1), (10, 2), (11, 0), (11, 1)]),
        total_players: 2,
        current_player: 1,
        turn_in_phase: 5,
        poker_phase: 3,
        bet_phase: 0,
        button: 0,
        been_all_in: false,
        hole: vec![100],
        hole_limbs: vec![vec![0, 1]],
        infinite_credits: false,
    };
    let mut poker = poker;
    let (_obs, reward, done) = poker.step(3, true).unwrap();
    assert_eq!(reward, vec![0, 0]);
    assert!(!done);
    let state = poker.get_state();
    assert_eq!(state.1[0].credits, 1000);
    assert_eq!(state.1[1].credits, 1000);
}

#[test]
fn all_in_builds_one_side_pot_without_the_short_stack() {
    // Scenario B: three players, one all-in for less. The short stack is
    // eligible for the main pot tier only; the side pot goes to the best
    // hand among the two bigger stacks.
    let poker = Poker {
        deck: drained_deck(11),
        players: {
            let mut p0 = seat(0, 0, 20, &[(14, 0), (14, 1)], 20, 20);
            p0.in_all_in = true;
            let p1 = seat(1, 930, 980, &[(7, 2), (8, 2)], 50, 50);
            let p2 = seat(2, 930, 980, &[(11, 3), (12, 3)], 50, 50);
            vec![p0, p1, p2]
        },
        n_players_in_hand: 3,
        community_cards: hand_of(&[(2, 0), (3, 1), (4, 2), (9, 2), (13, 0)]),
        total_players: 3,
        current_player: 2,
        turn_in_phase: 5,
        poker_phase: 3,
        bet_phase: 50,
        button: 0,
        been_all_in: true,
        hole: vec![0],
        hole_limbs: vec![vec![]],
        infinite_credits: false,
    };
    let mut poker = poker;
    let (_obs, reward, _done) = poker.step(3, true).unwrap();
    // Main pot 60 to the all-in player's aces; side pot 60 to seat 2.
    assert_eq!(reward, vec![40, -50, 10]);
    let state = poker.get_state();
    assert_eq!(state.1[0].credits, 60);
    assert_eq!(state.1[1].credits, 930);
    assert_eq!(state.1[2].credits, 990);
}

#[test]
fn fold_leaves_the_hand_for_the_round() {
    // Scenario C: a pre-flop fold clears the flag, drops the contender
    // count, and leaves the folded seat with no legal actions.
    let mut poker = Poker::new(vec![1000, 1000, 1000], true);
    poker.reset();
    poker.step(0, true).unwrap();
    poker.step(1, true).unwrap();
    assert_eq!(poker.to_play(), 0);
    poker.step(2, true).unwrap();
    let state = poker.get_state();
    assert!(!state.1[0].in_hand);
    assert_eq!(state.4, 2);
    drop(state);
    poker.current_player = 0;
    assert_eq!(poker.legal_actions(), Vec::<u8>::new());
}

#[test]
fn lone_contender_wins_all_bets_uncontested() {
    // Scenario D: when folds leave one contender, the round settles at
    // once and the winner's reward is the sum of the others' bets.
    let mut poker = Poker::new(vec![1000, 1000], true);
    poker.reset();
    poker.step(0, true).unwrap();
    poker.step(1, true).unwrap();
    assert_eq!(poker.to_play(), 1);
    let (_obs, reward, _done) = poker.step(2, true).unwrap();
    assert_eq!(reward, vec![5, -5]);
}

#[test]
fn settled_round_conserves_chips() {
    // Everyone checks or calls to showdown: the rewards match the credit
    // movements exactly and sum to zero.
    let mut poker = Poker::new(vec![500, 500], false);
    poker.reset();
    let before: Vec<u64> = poker.get_state().1.iter().map(|p| p.credits).collect();
    let mut settled_reward: Option<Vec<i64>> = None;
    for _ in 0..60 {
        let phase_before = poker.get_state().7;
        let la = poker.legal_actions();
        let action = if la.contains(&0) {
            0
        } else if la.contains(&1) {
            1
        } else if la.contains(&3) {
            3
        } else if la.contains(&5) {
            5
        } else {
            la[0]
        };
        let (_obs, reward, _done) = poker.step(action, true).unwrap();
        let phase_after = poker.get_state().7;
        if phase_before == 3 && phase_after == 0 {
            settled_reward = Some(reward);
            break;
        }
    }
    let reward = settled_reward.expect("round should settle");
    assert_eq!(reward.iter().sum::<i64>(), 0);
    let after: Vec<u64> = poker.get_state().1.iter().map(|p| p.credits).collect();
    for i in 0..2 {
        assert_eq!(after[i] as i64, before[i] as i64 + reward[i]);
    }
}

#[test]
fn raise_tiers_follow_credit_limits() {
    let mut poker = Poker::new(vec![1000, 40], true);
    poker.reset();
    poker.step(0, true).unwrap();
    poker.step(1, true).unwrap();
    // Seat 1 has 35 credits left and owes 5 more: only the affordable
    // tier appears, with fold, call and all-in.
    assert_eq!(poker.to_play(), 1);
    assert_eq!(poker.legal_actions(), vec![2, 5, 6, 11]);
}

#[test]
fn observation_shows_board_hole_and_credits() {
    let mut poker = Poker::new(vec![700, 800], true);
    let obs = poker.reset();
    // Before any community card, the board row is zero-padded.
    assert_eq!(obs[0][0], [0, 0, 0, 0, 0]);
    let state = poker.get_state();
    assert_eq!(state.3, 2);
    assert_eq!(state.4, 2);
    assert_eq!(state.7, 0);
    drop(state);
    let obs2 = poker.step(0, true).unwrap().0;
    assert_eq!(obs2[1][0][0], 700);
    // Seat 1 has posted the small blind of 5.
    assert_eq!(obs2[1][0][1], 795);
}

#[test]
fn unaffordable_bet_is_rejected() {
    // The opening bet is legal to offer but exceeds the seat's credits:
    // the step fails and the table is unchanged.
    let mut poker = Poker {
        deck: drained_deck(7),
        players: vec![
            seat(0, 2, 12, &[(2, 0), (9, 1)], 0, 10),
            seat(1, 490, 500, &[(5, 2), (6, 3)], 0, 10),
        ],
        n_players_in_hand: 2,
        community_cards: hand_of(&[(4, 0), (8, 1), (12, 2)]),
        total_players: 2,
        current_player: 0,
        turn_in_phase: 0,
        poker_phase: 1,
        bet_phase: 0,
        button: 0,
        been_all_in: false,
        hole: vec![20],
        hole_limbs: vec![vec![0, 1]],
        infinite_credits: false,
    };
    assert_eq!(poker.legal_actions(), vec![3, 4]);
    assert_eq!(poker.step(4, true).unwrap_err(), PokerError::InvalidAction);
    let state = poker.get_state();
    assert_eq!(state.1[0].credits, 2);
    assert_eq!(state.1[0].bet, 0);
    assert_eq!(state.7, 1);
}

#[test]
fn button_advances_each_round_and_wraps_to_done() {
    // The button moves one seat per round; the session is done when it
    // comes back to seat zero.
    let mut poker = Poker::new(vec![10_000, 10_000], true);
    poker.reset();
    let mut settles: Vec<bool> = Vec::new();
    for _ in 0..200 {
        let la = poker.legal_actions();
        let action = if la.contains(&0) {
            0
        } else if la.contains(&1) {
            1
        } else if la.contains(&3) {
            3
        } else if la.contains(&5) {
            5
        } else {
            la[0]
        };
        let phase_before = poker.get_state().7;
        let (_obs, _reward, done) = poker.step(action, true).unwrap();
        let phase_after = poker.get_state().7;
        if phase_before == 3 && phase_after == 0 {
            settles.push(done);
            if done {
                break;
            }
        }
    }
    assert_eq!(settles, vec![false, true]);
}

#[test]
fn odd_chip_remainder_goes_to_first_winner_in_seat_order() {
    // An odd pot split between two tied winners leaves one chip; it goes
    // to the winner in the earliest seat.
    let mut poker = Poker {
        deck: drained_deck(9),
        players: vec![
            seat(0, 950, 1000, &[(2, 0), (3, 1)], 0, 50),
            seat(1, 949, 1000, &[(2, 3), (3, 2)], 0, 51),
        ],
        n_players_in_hand: 2,
        community_cards: hand_of(&[(10, 0), (10, 1), (10, 2), (11, 0), (11, 1)]),
        total_players: 2,
        current_player: 1,
        turn_in_phase: 5,
        poker_phase: 3,
        bet_phase: 0,
        button: 0,
        been_all_in: false,
        hole: vec![101],
        hole_limbs: vec![vec![0, 1]],
        infinite_credits: false,
    };
    let (_obs, reward, _done) = poker.step(3, true).unwrap();
    assert_eq!(reward, vec![1, -1]);
}

#[test]
fn facing_an_all_in_offers_fold_call_and_all_in() {
    // Once a player is all-in, the raise tiers disappear but a covering
    // stack may still flat-call; a short stack may only fold or push.
    let mut poker = Poker {
        deck: drained_deck(9),
        players: vec![
            {
                let mut p0 = seat(0, 0, 40, &[(2, 0), (9, 1)], 40, 40);
                p0.in_all_in = true;
                p0
            },
            seat(1, 460, 500, &[(5, 2), (6, 3)], 10, 10),
        ],
        n_players_in_hand: 2,
        community_cards: HandC::new(),
        total_players: 2,
        current_player: 1,
        turn_in_phase: 3,
        poker_phase: 0,
        bet_phase: 40,
        button: 0,
        been_all_in: true,
        hole: vec![0],
        hole_limbs: vec![vec![]],
        infinite_credits: false,
    };
    assert_eq!(poker.legal_actions(), vec![2, 5, 11]);
    // With fewer credits than the outstanding bet, the call disappears.
    poker.players[1].credits = 20;
    assert_eq!(poker.legal_actions(), vec![2, 11]);
}

#[test]
fn total_players_is_reported() {
    let poker = Poker::new(vec![100, 100, 100, 100], true);
    assert_eq!(poker.get_total_players(), 4);
}
