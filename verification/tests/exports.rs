use mtgprobability::export::decimal_string;
use mtgprobability::{Card, Deck, LandsNeeded, ManaColor};

#[test]
fn four_islands_are_one_line() {
    let mut deck = Deck::new();
    deck.add_cards(4, Card::Land(ManaColor::Blue));
    let text = deck.as_mtga();
    assert_eq!(text, "Deck\n4 Island () 0\n");
    assert_eq!(text.matches("4 Island () 0\n").count(), 1);
    assert_eq!(text.matches("Island").count(), 1);
    assert_eq!(text.lines().count(), 2);
}

#[test]
fn an_empty_deck_is_only_the_heading() {
    assert_eq!(Deck::new().as_mtga(), "Deck\n");
}

#[test]
fn each_different_card_has_one_line() {
    let bolt = Card::Card {
        name: "Lightning Bolt".to_string(),
        mana_cost: vec![ManaColor::Red],
        text: String::new(),
    };
    let mut deck = Deck::new();
    deck.add_cards(12, bolt.clone());
    deck.add(Card::Land(ManaColor::Red));
    deck.add_cards(3, bolt);
    deck.add_lands(LandsNeeded { swamp: 1, plain: 0, forest: 2, mountain: 20, island: 0 });
    let text = deck.as_mtga();
    assert_eq!(
        text,
        "Deck\n15 Lightning Bolt () 0\n21 Mountain () 0\n1 Swamp () 0\n2 Forest () 0\n"
    );
    let mut lines: Vec<&str> = text.lines().skip(1).collect();
    lines.sort();
    assert_eq!(
        lines,
        vec!["1 Swamp () 0", "15 Lightning Bolt () 0", "2 Forest () 0", "21 Mountain () 0"]
    );
}

#[test]
fn numbers_are_written_in_decimal() {
    assert_eq!(decimal_string(0), "0");
    assert_eq!(decimal_string(7), "7");
    assert_eq!(decimal_string(9), "9");
    assert_eq!(decimal_string(10), "10");
    assert_eq!(decimal_string(109), "109");
    assert_eq!(decimal_string(1234567890), "1234567890");
    assert_eq!(decimal_string(usize::MAX), usize::MAX.to_string());
    for n in 0..1200usize {
        assert_eq!(decimal_string(n), n.to_string());
    }
}
