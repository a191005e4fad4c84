use mtgprobability::cost::parse_mana_cost;
use mtgprobability::ManaColor;

fn count(cost: &[ManaColor], color: ManaColor) -> usize {
    cost.iter().filter(|c| **c == color).count()
}

#[test]
fn three_generic_and_two_green() {
    let cost = parse_mana_cost("{3}{G}{G}");
    assert_eq!(
        cost,
        vec![
            ManaColor::Colorless,
            ManaColor::Colorless,
            ManaColor::Colorless,
            ManaColor::Green,
            ManaColor::Green,
        ]
    );
    assert_eq!(count(&cost, ManaColor::Colorless), 3);
    assert_eq!(count(&cost, ManaColor::Green), 2);
}

#[test]
fn two_generic_and_two_black() {
    assert_eq!(
        parse_mana_cost("{2}{B}{B}"),
        vec![ManaColor::Colorless, ManaColor::Colorless, ManaColor::Black, ManaColor::Black]
    );
}

#[test]
fn each_colour_letter() {
    assert_eq!(
        parse_mana_cost("{W}{U}{B}{R}{G}"),
        vec![
            ManaColor::White,
            ManaColor::Blue,
            ManaColor::Black,
            ManaColor::Red,
            ManaColor::Green,
        ]
    );
}

#[test]
fn an_empty_cost_has_no_symbols() {
    assert!(parse_mana_cost("").is_empty());
    assert!(parse_mana_cost("{0}").is_empty());
    assert!(parse_mana_cost("{}").is_empty());
}

#[test]
fn unknown_tokens_are_dropped() {
    assert_eq!(parse_mana_cost("{X}{R}"), vec![ManaColor::Red]);
    assert_eq!(parse_mana_cost("{W/U}{G}"), vec![ManaColor::Green]);
    assert_eq!(parse_mana_cost("{B/P}"), vec![]);
    assert_eq!(parse_mana_cost("{w}"), vec![]);
    assert_eq!(parse_mana_cost("{WW}"), vec![]);
    assert_eq!(parse_mana_cost("{C}"), vec![]);
    assert_eq!(parse_mana_cost("{-1}"), vec![]);
    assert_eq!(parse_mana_cost("{1.5}"), vec![]);
    assert_eq!(parse_mana_cost("{ 1}"), vec![]);
    assert_eq!(parse_mana_cost("{+}"), vec![]);
    assert_eq!(parse_mana_cost("{++1}"), vec![]);
    assert_eq!(parse_mana_cost("{1_0}"), vec![]);
    assert_eq!(parse_mana_cost("{\u{0663}}"), vec![]);
}

#[test]
fn numbers_up_to_255_are_read() {
    assert_eq!(parse_mana_cost("{255}").len(), 255);
    assert_eq!(parse_mana_cost("{256}").len(), 0);
    assert_eq!(parse_mana_cost("{260}").len(), 0);
    assert_eq!(parse_mana_cost("{1000}").len(), 0);
    assert_eq!(parse_mana_cost("{99999999999999999999999}").len(), 0);
    assert_eq!(parse_mana_cost("{10}").len(), 10);
    assert_eq!(parse_mana_cost("{007}").len(), 7);
    assert_eq!(parse_mana_cost("{0255}").len(), 255);
    assert_eq!(parse_mana_cost("{+2}"), vec![ManaColor::Colorless, ManaColor::Colorless]);
    assert_eq!(parse_mana_cost("{16}{R}").len(), 17);
}

#[test]
fn numbers_are_read_as_the_standard_parser_reads_them() {
    let tokens = [
        "0", "1", "9", "10", "25", "26", "99", "100", "199", "249", "250", "255", "256", "259",
        "260", "300", "999", "+0", "+255", "+256", "00", "000255", "0000256", "", "+", "-", "-0",
        "+-1", "1+", "a", "1a", "a1", " 1", "1 ",
    ];
    for token in tokens {
        let expected = match token {
            "W" | "U" | "B" | "R" | "G" => 1,
            other => match other.parse::<u8>() {
                Ok(v) => v as usize,
                Err(_) => 0,
            },
        };
        let text = format!("{{{}}}", token);
        assert_eq!(parse_mana_cost(&text).len(), expected, "token {:?}", token);
    }
}

#[test]
fn only_what_a_closing_brace_ends_counts() {
    assert_eq!(parse_mana_cost("{G"), vec![]);
    assert_eq!(parse_mana_cost("G"), vec![]);
    assert_eq!(parse_mana_cost("G}"), vec![ManaColor::Green]);
    assert_eq!(parse_mana_cost("{R}{G"), vec![ManaColor::Red]);
    assert_eq!(parse_mana_cost("{{G}"), vec![ManaColor::Green]);
    assert_eq!(parse_mana_cost("{R{G}"), vec![ManaColor::Green]);
}

#[test]
fn a_second_closing_brace_ends_the_same_token_again() {
    assert_eq!(parse_mana_cost("{B}}"), vec![ManaColor::Black, ManaColor::Black]);
    assert_eq!(parse_mana_cost("{1}2}").len(), 13);
    assert_eq!(parse_mana_cost("}"), vec![]);
}

#[test]
fn text_between_groups_joins_the_next_closed_token() {
    assert_eq!(parse_mana_cost("{R} {G}"), vec![ManaColor::Red, ManaColor::Green]);
    assert_eq!(parse_mana_cost("x{R}"), vec![ManaColor::Red]);
    assert_eq!(parse_mana_cost("{R}x}"), vec![ManaColor::Red]);
}
