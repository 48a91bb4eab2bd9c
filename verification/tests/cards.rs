use zarena::card::CardC;
use zarena::deck::DeckC;
use zarena::hand::HandC;

fn hand_of(cards: &[(u8, u8)]) -> HandC {
    let mut h = HandC::new();
    for &(v, f) in cards {
        h.set_card(CardC::new(v, f));
    }
    h
}

#[test]
fn card_int_round_trip() {
    for v in 2..=14u8 {
        for f in 0..=3u8 {
            let c = CardC::new(v, f);
            let n = c.card_to_int();
            let back = CardC::card_from_int(n);
            assert_eq!(back.value, v);
            assert_eq!(back.figure, f);
        }
    }
}

#[test]
fn card_int_encoding() {
    assert_eq!(CardC::new(2, 0).card_to_int(), 2);
    assert_eq!(CardC::new(14, 0).card_to_int(), 14);
    assert_eq!(CardC::new(2, 3).card_to_int(), 47);
    assert_eq!(CardC::new(14, 3).card_to_int(), 59);
}

#[test]
fn card_clone_keeps_fields() {
    let c = CardC::new(11, 2);
    let d = c.clone_card();
    assert_eq!(d.value, 11);
    assert_eq!(d.figure, 2);
}

#[test]
fn card_strings() {
    assert_eq!(CardC::new(14, 0).card_to_string(), "A-\u{2665}");
    assert_eq!(CardC::new(10, 3).card_to_string(), "10-\u{2666}");
    assert_eq!(CardC::new(11, 1).card_to_string(), "J-\u{2660}");
    assert_eq!(CardC::new(12, 2).card_to_string(), "Q-\u{2663}");
    assert_eq!(CardC::new(13, 0).card_to_string(), "K-\u{2665}");
    assert_eq!(CardC::new(2, 1).card_to_string(), "2-\u{2660}");
}

#[test]
fn hand_string_lists_cards() {
    let h = hand_of(&[(14, 0), (2, 1)]);
    assert_eq!(h.hand_to_string(), " 2-\u{2660} A-\u{2665}");
}

#[test]
fn deck_deals_every_card_once() {
    let mut deck = DeckC::new();
    let mut seen = vec![false; 60];
    for _ in 0..52 {
        let c = deck.get_card().expect("deck should hold 52 cards");
        assert!((2..=14).contains(&c.value));
        assert!(c.figure <= 3);
        let idx = c.card_to_int() as usize;
        assert!(!seen[idx], "card dealt twice");
        seen[idx] = true;
    }
    assert!(deck.get_card().is_none());
}

#[test]
fn set_card_keeps_hand_sorted() {
    let h = hand_of(&[(9, 0), (2, 1), (14, 2), (5, 3), (5, 0)]);
    let values: Vec<u8> = h.cards.iter().map(|c| c.value).collect();
    assert_eq!(values, vec![2, 5, 5, 9, 14]);
}

#[test]
fn remove_specific_card_takes_first_match() {
    let mut h = hand_of(&[(9, 0), (2, 1), (5, 3)]);
    let c = h.remove_specific_card(&CardC::new(5, 3));
    assert_eq!((c.value, c.figure), (5, 3));
    assert_eq!(h.len(), 2);
    let missing = h.remove_specific_card(&CardC::new(7, 0));
    assert_eq!((missing.value, missing.figure), (0, 4));
    assert_eq!(h.len(), 2);
}

#[test]
fn remove_a_card_pops_highest() {
    let mut h = hand_of(&[(9, 0), (2, 1), (14, 2)]);
    let c = h.remove_a_card();
    assert_eq!(c.value, 14);
    let mut empty = HandC::new();
    let sentinel = empty.remove_a_card();
    assert_eq!((sentinel.value, sentinel.figure), (0, 4));
}

#[test]
fn clone_hand_copies_cards() {
    let h = hand_of(&[(9, 0), (2, 1)]);
    let g = h.clone_hand();
    assert_eq!(g.hand_to_vec(), h.hand_to_vec());
}

#[test]
fn hand_to_vec_encodes_in_order() {
    let h = hand_of(&[(2, 0), (3, 1)]);
    assert_eq!(h.hand_to_vec(), vec![2, 18]);
}
