use diceroll::format_roll;
use diceroll::parse_roll_string;
use diceroll::roll_dice;
use diceroll::total;
use diceroll::Sign;

#[test]
fn rolled_dice_stay_in_range() {
    let mut c = parse_roll_string("3d6-1d4+2".to_string()).unwrap();
    roll_dice(&mut c);
    for die in c.dice.iter() {
        assert!(1 <= die.roll && die.roll <= die.max);
    }
}

#[test]
fn rolling_keeps_shape() {
    let mut c = parse_roll_string("2d8-1d6+5".to_string()).unwrap();
    roll_dice(&mut c);
    assert_eq!(c.dice.len(), 3);
    assert_eq!(c.dice[0].max, 8);
    assert_eq!(c.dice[1].max, 8);
    assert_eq!(c.dice[2].max, 6);
    assert!(c.dice[2].sign == Sign::Minus);
    assert_eq!(c.modifier, 5);
}

#[test]
fn total_stays_in_envelope() {
    let mut c = parse_roll_string("3d6-1d4+2".to_string()).unwrap();
    roll_dice(&mut c);
    let t = total(&c);
    // Lower end: three ones and a subtracted d4 at its largest.
    assert!(2 + 3 - 4 <= t);
    // Upper end: three sixes and a subtracted d4 at one.
    assert!(t <= 2 + 18 - 1);
}

#[test]
fn one_sided_die_totals_one() {
    let mut c = parse_roll_string("1d1".to_string()).unwrap();
    roll_dice(&mut c);
    assert_eq!(total(&c), 1);
    assert_eq!(format_roll(&c), "1 (d1) = 1");
}

#[test]
fn total_of_modifier_only_is_modifier() {
    let c = parse_roll_string("7-2".to_string()).unwrap();
    assert_eq!(total(&c), 5);
}

#[test]
fn total_subtracts_minus_dice() {
    let mut c = parse_roll_string("1d20-1d6".to_string()).unwrap();
    c.dice[0].roll = 15;
    c.dice[1].roll = 2;
    assert_eq!(total(&c), 13);
}

#[test]
fn sign_projections() {
    assert_eq!(Sign::Plus.to_char(), '+');
    assert_eq!(Sign::Minus.to_char(), '-');
    assert_eq!(Sign::Plus.to_multiplier(), 1);
    assert_eq!(Sign::Minus.to_multiplier(), -1);
}

#[test]
fn format_single_die() {
    let mut c = parse_roll_string("1d20".to_string()).unwrap();
    c.dice[0].roll = 17;
    assert_eq!(format_roll(&c), "17 (d20) = 17");
}

#[test]
fn format_dice_with_modifier() {
    let mut c = parse_roll_string("2d6+3".to_string()).unwrap();
    c.dice[0].roll = 4;
    c.dice[1].roll = 5;
    assert_eq!(format_roll(&c), "4 (d6) + 5 (d6) + 3 = 12");
}

#[test]
fn format_subtracted_die() {
    let mut c = parse_roll_string("1d20-1d6".to_string()).unwrap();
    c.dice[0].roll = 15;
    c.dice[1].roll = 2;
    assert_eq!(format_roll(&c), "15 (d20) - 2 (d6) = 13");
}

#[test]
fn format_negative_modifier() {
    let mut c = parse_roll_string("2d8-1".to_string()).unwrap();
    c.dice[0].roll = 8;
    c.dice[1].roll = 1;
    assert_eq!(format_roll(&c), "8 (d8) + 1 (d8) - 1 = 8");
}

#[test]
fn format_mixed_expression() {
    let mut c = parse_roll_string("1d4+2d4-2".to_string()).unwrap();
    c.dice[0].roll = 3;
    c.dice[1].roll = 1;
    c.dice[2].roll = 4;
    assert_eq!(format_roll(&c), "3 (d4) + 1 (d4) + 4 (d4) - 2 = 6");
}

#[test]
fn format_negative_total() {
    let mut c = parse_roll_string("1d4-10".to_string()).unwrap();
    c.dice[0].roll = 2;
    assert_eq!(format_roll(&c), "2 (d4) - 10 = -8");
}

#[test]
fn format_first_die_hides_minus_sign() {
    // The first die never prints its sign, though it still counts.
    let mut c = parse_roll_string("-1d6+4".to_string()).unwrap();
    c.dice[0].roll = 5;
    assert_eq!(format_roll(&c), "5 (d6) + 4 = -1");
}

#[test]
fn rerolling_resamples() {
    let mut c = parse_roll_string("1d1".to_string()).unwrap();
    roll_dice(&mut c);
    roll_dice(&mut c);
    assert_eq!(c.dice[0].roll, 1);
}
