use ttrpg::dice::{
    decimal_text, join_rolls, pair_group, parse_roll, render_rolls, roll1_wins, roll_dice,
    DiceError,
};

fn strip_ansi(s: &str) -> String {
    let mut result = String::new();
    let mut chars = s.chars();
    while let Some(c) = chars.next() {
        if c == '\x1B' {
            for ch in chars.by_ref() {
                if ch == 'm' {
                    break;
                }
            }
        } else {
            result.push(c);
        }
    }
    result
}

fn count_strikes(s: &str) -> usize {
    s.matches("\x1B[9m").count()
}

#[test]
fn test_parse_roll() {
    assert_eq!(parse_roll("2d20"), Ok((2, 20)));
    assert_eq!(parse_roll("d20"), Ok((1, 20)));
    assert_eq!(parse_roll("20"), Ok((1, 20)));
    assert_eq!(parse_roll("1d6"), Ok((1, 6)));
}

#[test]
fn test_parse_roll_invalid() {
    assert_eq!(parse_roll("2d"), Err(DiceError::InvalidFormat));
    assert_eq!(parse_roll("d"), Err(DiceError::InvalidFormat));
    assert_eq!(parse_roll("abc"), Err(DiceError::InvalidFormat));
    assert_eq!(parse_roll("2d2d2"), Err(DiceError::InvalidFormat));
}

#[test]
fn test_roll_dice_errors() {
    assert!(matches!(roll_dice(1, 1, false, false), Err(DiceError::InvalidSides)));
    assert!(matches!(roll_dice(6, 0, false, false), Err(DiceError::InvalidCount)));
}

#[test]
fn test_roll_dice_single() {
    let result = roll_dice(6, 1, false, false).unwrap();
    let stripped = strip_ansi(&result);
    let roll: u32 = stripped.parse().unwrap();
    assert!(roll >= 1 && roll <= 6);
}

#[test]
fn test_roll_dice_multiple() {
    let result = roll_dice(6, 3, false, false).unwrap();
    let rolls: Vec<u32> = result
        .split(", ")
        .map(|s| strip_ansi(s).trim().parse().unwrap())
        .collect();
    assert_eq!(rolls.len(), 3);
    for roll in rolls {
        assert!(roll >= 1 && roll <= 6);
    }
}

#[test]
fn test_roll_dice_advantage() {
    let result = roll_dice(20, 1, true, false).unwrap();
    assert!(result.starts_with('(') && result.ends_with(')'));
    assert!(result.contains("\x1B[9m"));
}

#[test]
fn test_roll_dice_disadvantage() {
    let result = roll_dice(20, 1, false, true).unwrap();
    assert!(result.starts_with('(') && result.ends_with(')'));
    assert!(result.contains("\x1B[9m"));
}

#[test]
fn test_roll_dice_multiple_advantage() {
    let result = roll_dice(20, 2, true, false).unwrap();
    let rolls: Vec<&str> = result.split(", ").collect();
    assert_eq!(rolls.len(), 2);
    for roll in rolls {
        assert!(roll.starts_with('(') && roll.ends_with(')'));
        assert!(roll.contains("\x1B[9m"));
    }
}

#[test]
fn parse_numerals_of_every_shape() {
    assert_eq!(parse_roll("12d100"), Ok((12, 100)));
    assert_eq!(parse_roll("d4"), Ok((1, 4)));
    assert_eq!(parse_roll("100"), Ok((1, 100)));
    assert_eq!(parse_roll("0d6"), Ok((0, 6)));
    assert_eq!(parse_roll("d0"), Ok((1, 0)));
    assert_eq!(parse_roll("007d08"), Ok((7, 8)));
}

#[test]
fn parse_rejects_signs_blanks_and_overflow() {
    assert_eq!(parse_roll(""), Err(DiceError::InvalidFormat));
    assert_eq!(parse_roll("+5"), Err(DiceError::InvalidFormat));
    assert_eq!(parse_roll("-1d6"), Err(DiceError::InvalidFormat));
    assert_eq!(parse_roll(" 2d6"), Err(DiceError::InvalidFormat));
    assert_eq!(parse_roll("2D20"), Err(DiceError::InvalidFormat));
    assert_eq!(parse_roll("4294967296"), Err(DiceError::InvalidFormat));
    assert_eq!(parse_roll("1d4294967296"), Err(DiceError::InvalidFormat));
    assert_eq!(parse_roll("4294967295"), Ok((1, 4294967295)));
    assert_eq!(parse_roll("4294967295d2"), Ok((4294967295, 2)));
}

#[test]
fn parse_is_the_same_every_time() {
    for text in ["2d20", "d6", "20", "abc", "2d2d2", ""] {
        assert_eq!(parse_roll(text), parse_roll(text));
    }
}

#[test]
fn roll_errors_for_every_flag_combination() {
    for (a, d) in [(false, false), (true, false), (false, true), (true, true)] {
        assert_eq!(roll_dice(1, 1, a, d), Err(DiceError::InvalidSides));
        assert_eq!(roll_dice(0, 0, a, d), Err(DiceError::InvalidSides));
        assert_eq!(roll_dice(6, 0, a, d), Err(DiceError::InvalidCount));
    }
}

#[test]
fn smallest_die_rolls() {
    let result = roll_dice(2, 1, false, false).unwrap();
    let roll: u32 = strip_ansi(&result).parse().unwrap();
    assert!(roll == 1 || roll == 2);
}

#[test]
fn many_rolls_stay_on_the_die_and_vary() {
    let result = roll_dice(6, 200, false, false).unwrap();
    let rolls: Vec<u32> = result
        .split(", ")
        .map(|s| strip_ansi(s).parse().unwrap())
        .collect();
    assert_eq!(rolls.len(), 200);
    assert!(rolls.iter().all(|r| (1..=6).contains(r)));
    assert!(rolls.iter().any(|r| *r != 6));
    assert!(rolls.iter().any(|r| *r != 1));
}

#[test]
fn paired_rolls_have_one_strike_each() {
    let result = roll_dice(20, 5, false, true).unwrap();
    let groups: Vec<&str> = result.split(", ").collect();
    assert_eq!(groups.len(), 5);
    for g in groups {
        assert!(g.starts_with('(') && g.ends_with(')'));
        assert_eq!(count_strikes(g), 1);
        let inner = strip_ansi(&g[1..g.len() - 1]);
        let faces: Vec<u32> = inner.split(' ').map(|s| s.parse().unwrap()).collect();
        assert_eq!(faces.len(), 2);
        assert!(faces.iter().all(|f| (1..=20).contains(f)));
    }
}

#[test]
fn both_flags_roll_pairs() {
    let result = roll_dice(8, 1, true, true).unwrap();
    assert!(result.starts_with('(') && result.ends_with(')'));
    assert_eq!(count_strikes(&result), 1);
}

#[test]
fn numerals() {
    assert_eq!(decimal_text(0), "0");
    assert_eq!(decimal_text(7), "7");
    assert_eq!(decimal_text(20), "20");
    assert_eq!(decimal_text(4294967295), "4294967295");
}

#[test]
fn kept_die_follows_the_mode() {
    assert!(roll1_wins(15, 4, true));
    assert!(!roll1_wins(4, 15, true));
    assert!(roll1_wins(9, 9, true));
    assert!(roll1_wins(4, 15, false));
    assert!(!roll1_wins(15, 4, false));
    assert!(roll1_wins(9, 9, false));
}

#[test]
fn pair_text_strikes_the_loser_in_draw_order() {
    assert_eq!(pair_group("3", "17", true), "(3 \x1B[9m17\x1B[0m)");
    assert_eq!(pair_group("3", "17", false), "(\x1B[9m3\x1B[0m 17)");
}

#[test]
fn join_puts_separators_between() {
    assert_eq!(join_rolls(&vec![]), "");
    assert_eq!(join_rolls(&vec!["4".to_string()]), "4");
    assert_eq!(
        join_rolls(&vec!["4".to_string(), "(2 5)".to_string(), "1".to_string()]),
        "4, (2 5), 1"
    );
}

#[test]
fn render_from_fixed_draws() {
    assert_eq!(render_rolls(6, false, false, &vec![3, 4, 2]), vec!["3", "4", "2"]);
    assert_eq!(
        render_rolls(6, true, false, &vec![2, 5, 4, 3]),
        vec!["(\x1B[9m2\x1B[0m 5)", "(4 \x1B[9m3\x1B[0m)"]
    );
    assert_eq!(
        render_rolls(6, false, true, &vec![2, 5, 4, 4]),
        vec!["(2 \x1B[9m5\x1B[0m)", "(4 \x1B[9m4\x1B[0m)"]
    );
}

#[test]
fn critical_faces_are_coloured_when_colour_is_on() {
    colored::control::set_override(true);
    assert_eq!(
        render_rolls(6, false, false, &vec![1, 6, 3]),
        vec!["\x1B[31m1\x1B[0m", "\x1B[32m6\x1B[0m", "3"]
    );
}

#[test]
fn critical_faces_are_bare_when_colour_is_off() {
    colored::control::set_override(false);
    assert_eq!(render_rolls(6, false, false, &vec![1, 6, 3]), vec!["1", "6", "3"]);
}
