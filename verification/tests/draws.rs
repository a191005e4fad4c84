use mtgprobability::{Card, Deck, ManaColor};

fn numbered(n: usize) -> Card {
    Card::Card { name: format!("Card {}", n), mana_cost: vec![ManaColor::Colorless], text: String::new() }
}

fn numbered_deck(size: usize) -> Deck {
    let mut deck = Deck::new();
    for n in 0..size {
        deck.add(numbered(n));
    }
    deck
}

fn sorted_names(cards: &[Card]) -> Vec<String> {
    let mut names: Vec<String> = cards.iter().map(|c| c.to_string()).collect();
    names.sort();
    names
}

#[test]
fn drawing_more_than_the_deck_gives_the_deck() {
    let mut deck = numbered_deck(5);
    deck.add_cards(2, Card::Land(ManaColor::Green));
    let all = deck.pick(&vec![0, 1, 2, 3, 4, 5, 6]);
    for x in [8, 100, usize::MAX] {
        let hand = deck.draw(x);
        assert_eq!(hand.len(), deck.len());
        assert_eq!(sorted_names(&hand), sorted_names(&all));
    }
}

#[test]
fn drawing_the_whole_deck_gives_the_deck() {
    let deck = numbered_deck(9);
    let hand = deck.draw(9);
    assert_eq!(hand.len(), 9);
    let mut names = sorted_names(&hand);
    names.dedup();
    assert_eq!(names.len(), 9);
}

#[test]
fn drawing_nothing_gives_nothing() {
    assert!(numbered_deck(4).draw(0).is_empty());
    assert!(Deck::new().draw(0).is_empty());
    assert!(Deck::new().draw(3).is_empty());
}

#[test]
fn a_hand_holds_no_card_twice() {
    let deck = numbered_deck(30);
    let all = sorted_names(&deck.pick(&(0..30).collect::<Vec<usize>>()));
    for _ in 0..50 {
        let hand = deck.draw(7);
        assert_eq!(hand.len(), 7);
        let mut names = sorted_names(&hand);
        names.dedup();
        assert_eq!(names.len(), 7);
        for name in names {
            assert!(all.contains(&name));
        }
    }
}

#[test]
fn draws_are_not_always_the_first_cards() {
    let deck = numbered_deck(40);
    let first = sorted_names(&deck.pick(&vec![0, 1, 2]));
    let mut differed = false;
    for _ in 0..200 {
        if sorted_names(&deck.draw(3)) != first {
            differed = true;
        }
    }
    assert!(differed);
}

#[test]
fn lands_are_drawn_too() {
    let mut deck = Deck::new();
    deck.add_cards(6, Card::Land(ManaColor::Red));
    let hand = deck.draw(4);
    assert_eq!(hand, vec![Card::Land(ManaColor::Red); 4]);
}

#[test]
fn pick_takes_the_cards_at_the_places() {
    let deck = numbered_deck(6);
    assert_eq!(deck.pick(&vec![5, 0, 3]), vec![numbered(5), numbered(0), numbered(3)]);
    assert_eq!(deck.pick(&vec![2, 2]), vec![numbered(2), numbered(2)]);
    assert!(deck.pick(&Vec::new()).is_empty());
}
