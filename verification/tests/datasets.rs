use mtgprobability::dataset::{CardRecord, Dataset};
use mtgprobability::{Card, ManaColor};

fn record(key: &str, name: &str, mana_cost: Option<&str>, text: Option<&str>) -> CardRecord {
    CardRecord {
        key: key.to_string(),
        name: name.to_string(),
        mana_cost: mana_cost.map(|s| s.to_string()),
        text: text.map(|s| s.to_string()),
    }
}

fn sample() -> Dataset {
    Dataset::new(vec![
        record(
            "Sheoldred, the Apocalypse",
            "Sheoldred, the Apocalypse",
            Some("{2}{B}{B}"),
            Some("Deathtouch"),
        ),
        record("Ornithopter", "Ornithopter", Some("{0}"), Some("Flying")),
        record("Dryad Arbor", "Dryad Arbor", None, None),
        record("Fire // Ice", "Fire", Some("{1}{R}"), None),
        record("Ornithopter", "Another Ornithopter", Some("{5}"), None),
    ])
}

#[test]
fn a_known_card_is_found() {
    let found = sample().get("Sheoldred, the Apocalypse");
    assert_eq!(
        found,
        Some(Card::Card {
            name: "Sheoldred, the Apocalypse".to_string(),
            mana_cost: vec![
                ManaColor::Colorless,
                ManaColor::Colorless,
                ManaColor::Black,
                ManaColor::Black,
            ],
            text: "Deathtouch".to_string(),
        })
    );
}

#[test]
fn an_unknown_card_is_not_found() {
    assert_eq!(sample().get("Black Lotus"), None);
    assert_eq!(sample().get(""), None);
    assert_eq!(sample().get("sheoldred, the apocalypse"), None);
    assert_eq!(sample().get("Fire"), None);
    assert_eq!(Dataset::new(Vec::new()).get("Ornithopter"), None);
}

#[test]
fn a_missing_cost_and_text_are_empty() {
    assert_eq!(
        sample().get("Dryad Arbor"),
        Some(Card::Card { name: "Dryad Arbor".to_string(), mana_cost: vec![], text: String::new() })
    );
}

#[test]
fn the_card_carries_the_name_of_the_record() {
    assert_eq!(
        sample().get("Fire // Ice"),
        Some(Card::Card {
            name: "Fire".to_string(),
            mana_cost: vec![ManaColor::Colorless, ManaColor::Red],
            text: String::new(),
        })
    );
}

#[test]
fn the_first_record_under_a_key_is_taken() {
    assert_eq!(
        sample().get("Ornithopter"),
        Some(Card::Card {
            name: "Ornithopter".to_string(),
            mana_cost: vec![],
            text: "Flying".to_string(),
        })
    );
}

#[test]
fn a_record_gives_its_card() {
    let card = record("k", "Shock", Some("{R}"), Some("2 damage")).card();
    assert_eq!(
        card,
        Card::Card {
            name: "Shock".to_string(),
            mana_cost: vec![ManaColor::Red],
            text: "2 damage".to_string(),
        }
    );
}
