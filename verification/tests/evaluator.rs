use zarena::card::CardC;
use zarena::hand::HandC;
use zarena::player::Player;
use zarena::strength::winner;

fn hand_of(cards: &[(u8, u8)]) -> HandC {
    let mut h = HandC::new();
    for &(v, f) in cards {
        h.set_card(CardC::new(v, f));
    }
    h
}

#[test]
fn value_high_card() {
    let h = hand_of(&[(2, 0), (5, 1), (7, 2), (9, 3), (13, 0)]);
    assert_eq!(h.get_value(), vec![1, 13, 9, 7, 5, 2]);
}

#[test]
fn value_one_pair() {
    let h = hand_of(&[(2, 0), (2, 1), (5, 2), (9, 3), (13, 0)]);
    assert_eq!(h.get_value(), vec![2, 2, 13, 9, 5]);
}

#[test]
fn value_two_pair() {
    let h = hand_of(&[(3, 0), (3, 1), (7, 2), (7, 3), (14, 0)]);
    assert_eq!(h.get_value(), vec![3, 7, 3, 14]);
}

#[test]
fn value_three_of_a_kind() {
    let h = hand_of(&[(4, 0), (4, 1), (4, 2), (9, 3), (12, 0)]);
    assert_eq!(h.get_value(), vec![4, 4, 12, 9]);
}

#[test]
fn value_straight() {
    let h = hand_of(&[(5, 0), (6, 1), (7, 2), (8, 3), (9, 0)]);
    assert_eq!(h.get_value(), vec![5, 9]);
}

#[test]
fn value_wheel_straight_counts_ace_low() {
    let h = hand_of(&[(2, 0), (3, 1), (4, 2), (5, 3), (14, 0)]);
    assert_eq!(h.get_value(), vec![5, 5]);
}

#[test]
fn value_flush() {
    let h = hand_of(&[(2, 0), (5, 0), (7, 0), (9, 0), (11, 0)]);
    assert_eq!(h.get_value(), vec![6, 11, 9, 7, 5, 2]);
}

#[test]
fn value_full_house() {
    let h = hand_of(&[(10, 0), (10, 1), (10, 2), (11, 0), (11, 1)]);
    assert_eq!(h.get_value(), vec![7, 10, 11]);
}

#[test]
fn value_four_of_a_kind() {
    let h = hand_of(&[(6, 0), (6, 1), (6, 2), (6, 3), (2, 0)]);
    assert_eq!(h.get_value(), vec![8, 6, 2]);
}

#[test]
fn value_straight_flush() {
    let h = hand_of(&[(5, 1), (6, 1), (7, 1), (8, 1), (9, 1)]);
    assert_eq!(h.get_value(), vec![9, 9]);
}

#[test]
fn value_wheel_straight_flush() {
    let h = hand_of(&[(2, 3), (3, 3), (4, 3), (5, 3), (14, 3)]);
    assert_eq!(h.get_value(), vec![9, 5]);
}

#[test]
fn value_ten_to_ace_suited_is_top_category() {
    let h = hand_of(&[(10, 2), (11, 2), (12, 2), (13, 2), (14, 2)]);
    assert_eq!(h.get_value(), vec![10, 14]);
}

#[test]
fn comparison_higher_category_wins() {
    // Any four of a kind beats any full house.
    assert_eq!(winner(&vec![8, 2, 3], &vec![7, 14, 13]), 1);
    assert_eq!(winner(&vec![7, 14, 13], &vec![8, 2, 3]), 2);
}

#[test]
fn comparison_is_a_total_order_on_samples() {
    let a = vec![8, 2, 3];
    let b = vec![7, 14, 13];
    let c = vec![5, 9];
    // Trichotomy with antisymmetry on each pair.
    assert_eq!(winner(&a, &b), 1);
    assert_eq!(winner(&b, &a), 2);
    assert_eq!(winner(&b, &c), 1);
    assert_eq!(winner(&c, &b), 2);
    // Transitivity witnessed.
    assert_eq!(winner(&a, &c), 1);
    // Equal vectors tie, and only equal vectors tie.
    assert_eq!(winner(&a, &a.clone()), 0);
    assert_eq!(winner(&vec![2, 5, 4, 3, 2], &vec![2, 5, 4, 3, 2]), 0);
    assert_ne!(winner(&vec![2, 5, 4, 3, 2], &vec![2, 5, 4, 2, 3]), 0);
}

#[test]
fn comparison_kickers_break_ties() {
    assert_eq!(winner(&vec![2, 9, 14, 5, 3], &vec![2, 9, 13, 5, 3]), 1);
    assert_eq!(winner(&vec![1, 13, 9, 8, 7, 4], &vec![1, 13, 12, 11, 9, 4]), 2);
}

#[test]
fn selection_finds_best_five_of_seven() {
    let mut p = Player::new(0, 1000);
    p.hand = hand_of(&[(14, 0), (14, 1)]);
    let community = hand_of(&[(2, 0), (7, 3), (9, 2), (11, 1), (13, 0)]);
    p.set_winner_combination(&community);
    p.hand_value = p.hand.get_value();
    assert_eq!(p.hand_value, vec![2, 14, 13, 11, 9]);
}

#[test]
fn selection_is_idempotent_over_the_same_cards() {
    let community = hand_of(&[(2, 0), (7, 3), (9, 2), (11, 1), (13, 0)]);
    let mut p1 = Player::new(0, 1000);
    p1.hand = hand_of(&[(5, 0), (5, 1)]);
    let mut p2 = p1.clone_player();
    p1.set_winner_combination(&community);
    p2.set_winner_combination(&community);
    assert_eq!(p1.hand.hand_to_vec(), p2.hand.hand_to_vec());
    assert_eq!(p1.hand.get_value(), p2.hand.get_value());
}

#[test]
fn selection_prefers_flush_over_pair() {
    let mut p = Player::new(0, 1000);
    p.hand = hand_of(&[(2, 1), (9, 1)]);
    let community = hand_of(&[(3, 1), (6, 1), (10, 1), (10, 0), (14, 2)]);
    p.set_winner_combination(&community);
    assert_eq!(p.hand.get_value(), vec![6, 10, 9, 6, 3, 2]);
}

#[test]
fn player_reset_restores_round_state() {
    let mut p = Player::new(3, 500);
    p.bet = 50;
    p.total_bet = 120;
    p.in_hand = false;
    p.in_all_in = true;
    p.credits = 380;
    p.reset(true);
    assert_eq!(p.credits, 500);
    assert_eq!(p.bet, 0);
    assert_eq!(p.total_bet, 0);
    assert!(p.in_hand);
    assert!(!p.in_all_in);
    let mut q = Player::new(4, 500);
    q.credits = 300;
    q.reset(false);
    assert_eq!(q.credits, 300);
}
