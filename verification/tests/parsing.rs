use diceroll::parse_roll_string;
use diceroll::Sign;

#[test]
fn modifier_only_parses() {
    let c = parse_roll_string("3".to_string()).unwrap();
    assert_eq!(c.dice.len(), 0);
    assert_eq!(c.modifier, 3);
}

#[test]
fn negative_modifier_only_parses() {
    let c = parse_roll_string("-5".to_string()).unwrap();
    assert_eq!(c.dice.len(), 0);
    assert_eq!(c.modifier, -5);
}

#[test]
fn double_d_term_fails() {
    assert!(parse_roll_string("1d20d6".to_string()).is_err());
}

#[test]
fn zero_count_gives_empty_dice() {
    // A count of zero is accepted and contributes no dice.
    let c = parse_roll_string("0d20".to_string()).unwrap();
    assert_eq!(c.dice.len(), 0);
    assert_eq!(c.modifier, 0);
}

#[test]
fn zero_count_leaves_other_terms() {
    let c = parse_roll_string("0d20+1d6".to_string()).unwrap();
    assert_eq!(c.dice.len(), 1);
    assert_eq!(c.dice[0].max, 6);
}

#[test]
fn single_die_parses() {
    let c = parse_roll_string("1d20".to_string()).unwrap();
    assert_eq!(c.dice.len(), 1);
    assert_eq!(c.dice[0].max, 20);
    assert_eq!(c.dice[0].roll, 0);
    assert!(c.dice[0].sign == Sign::Plus);
    assert_eq!(c.modifier, 0);
}

#[test]
fn dice_keep_expression_order() {
    let c = parse_roll_string("1d20+2d6-1".to_string()).unwrap();
    assert_eq!(c.dice.len(), 3);
    assert_eq!(c.dice[0].max, 20);
    assert_eq!(c.dice[1].max, 6);
    assert_eq!(c.dice[2].max, 6);
    assert!(c.dice.iter().all(|d| d.sign == Sign::Plus));
    assert_eq!(c.modifier, -1);
}

#[test]
fn subtractive_die_keeps_sign() {
    let c = parse_roll_string("1d20-1d6".to_string()).unwrap();
    assert_eq!(c.dice.len(), 2);
    assert!(c.dice[0].sign == Sign::Plus);
    assert!(c.dice[1].sign == Sign::Minus);
    assert_eq!(c.modifier, 0);
}

#[test]
fn modifier_terms_fold_algebraically() {
    let c = parse_roll_string("2+1d6-5+7".to_string()).unwrap();
    assert_eq!(c.dice.len(), 1);
    assert_eq!(c.modifier, 2 - 5 + 7);
}

#[test]
fn whitespace_is_ignored() {
    let a = parse_roll_string(" 1 d 20 + 3 ".to_string()).unwrap();
    let b = parse_roll_string("1d20+3".to_string()).unwrap();
    assert_eq!(a.dice.len(), b.dice.len());
    assert_eq!(a.dice[0].max, b.dice[0].max);
    assert!(a.dice[0].sign == b.dice[0].sign);
    assert_eq!(a.modifier, b.modifier);
}

#[test]
fn leading_plus_is_noop() {
    let a = parse_roll_string("+1d20+3".to_string()).unwrap();
    let b = parse_roll_string("1d20+3".to_string()).unwrap();
    assert_eq!(a.dice.len(), b.dice.len());
    assert_eq!(a.dice[0].max, b.dice[0].max);
    assert!(a.dice[0].sign == b.dice[0].sign);
    assert_eq!(a.modifier, b.modifier);
}

#[test]
fn empty_input_is_empty_composite() {
    let c = parse_roll_string("".to_string()).unwrap();
    assert_eq!(c.dice.len(), 0);
    assert_eq!(c.modifier, 0);
}

#[test]
fn blank_input_is_empty_composite() {
    let c = parse_roll_string("   ".to_string()).unwrap();
    assert_eq!(c.dice.len(), 0);
    assert_eq!(c.modifier, 0);
}

#[test]
fn missing_count_fails() {
    assert!(parse_roll_string("d20".to_string()).is_err());
}

#[test]
fn missing_faces_fails() {
    assert!(parse_roll_string("3d".to_string()).is_err());
}

#[test]
fn zero_faces_fails() {
    assert!(parse_roll_string("1d0".to_string()).is_err());
}

#[test]
fn consecutive_signs_fail() {
    assert!(parse_roll_string("++1".to_string()).is_err());
    assert!(parse_roll_string("1d20+-3".to_string()).is_err());
    assert!(parse_roll_string("--5".to_string()).is_err());
}

#[test]
fn uppercase_d_fails() {
    assert!(parse_roll_string("1D6".to_string()).is_err());
}

#[test]
fn trailing_sign_fails() {
    assert!(parse_roll_string("1d20+".to_string()).is_err());
    assert!(parse_roll_string("+".to_string()).is_err());
}

#[test]
fn non_numeric_term_fails() {
    assert!(parse_roll_string("abc".to_string()).is_err());
    assert!(parse_roll_string("1d20+x".to_string()).is_err());
}

#[test]
fn largest_modifier_parses() {
    let c = parse_roll_string("2147483647".to_string()).unwrap();
    assert_eq!(c.modifier, 2147483647);
}

#[test]
fn too_large_field_fails() {
    assert!(parse_roll_string("2147483648".to_string()).is_err());
    assert!(parse_roll_string("1d2147483648".to_string()).is_err());
    assert!(parse_roll_string("99999999999999999999".to_string()).is_err());
}

#[test]
fn leading_zeros_are_accepted() {
    let c = parse_roll_string("0000000000000000003".to_string()).unwrap();
    assert_eq!(c.modifier, 3);
    let d = parse_roll_string("002d006".to_string()).unwrap();
    assert_eq!(d.dice.len(), 2);
    assert_eq!(d.dice[0].max, 6);
}

#[test]
fn modifier_sum_overflow_fails() {
    assert!(parse_roll_string("2147483647+2147483647".to_string()).is_err());
    assert!(parse_roll_string("-2147483647-2147483647".to_string()).is_err());
}

#[test]
fn most_negative_modifier_parses() {
    let c = parse_roll_string("-2147483647-1".to_string()).unwrap();
    assert_eq!(c.modifier, i32::MIN);
}

#[test]
fn largest_face_count_parses() {
    let c = parse_roll_string("1d2147483647".to_string()).unwrap();
    assert_eq!(c.dice[0].max, 2147483647);
}
