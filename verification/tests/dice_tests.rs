use dndice::dice::{Dice, ParseError, Roll};

fn parse_ok(token: &str) -> Dice {
    match Dice::new(token) {
        Ok(d) => d,
        Err(e) => panic!("token {:?} unexpectedly rejected: {:?}", token, e),
    }
}

#[test]
fn parse_count_and_sides() {
    let d = parse_ok("3d20");
    assert_eq!(d.desc, "3d20");
    assert_eq!(d.number, 3);
    assert_eq!(d.value, 20);

    let d = parse_ok("25d2");
    assert_eq!(d.desc, "25d2");
    assert_eq!(d.number, 25);
    assert_eq!(d.value, 2);

    let d = parse_ok("10d6");
    assert_eq!(d.number, 10);
    assert_eq!(d.value, 6);
}

#[test]
fn parse_omitted_count_defaults_to_one() {
    let d = parse_ok("d6");
    assert_eq!(d.desc, "d6");
    assert_eq!(d.number, 1);
    assert_eq!(d.value, 6);

    let d = parse_ok("d100");
    assert_eq!(d.number, 1);
    assert_eq!(d.value, 100);
}

#[test]
fn parse_accepts_leading_zeros() {
    let d = parse_ok("03d06");
    assert_eq!(d.number, 3);
    assert_eq!(d.value, 6);
}

#[test]
fn parse_largest_count() {
    let d = parse_ok("4294967295d2");
    assert_eq!(d.number, u32::MAX);
    assert_eq!(d.value, 2);
}

#[test]
fn parse_no_d_is_malformed() {
    assert_eq!(
        Dice::new("abc"),
        Err(ParseError::MalformedToken(String::from("abc")))
    );
    assert_eq!(
        Dice::new(""),
        Err(ParseError::MalformedToken(String::from("")))
    );
    assert_eq!(
        Dice::new("123"),
        Err(ParseError::MalformedToken(String::from("123")))
    );
}

#[test]
fn parse_two_ds_is_malformed() {
    assert_eq!(
        Dice::new("1d2d3"),
        Err(ParseError::MalformedToken(String::from("1d2d3")))
    );
    assert_eq!(
        Dice::new("dd6"),
        Err(ParseError::MalformedToken(String::from("dd6")))
    );
}

#[test]
fn parse_bad_sides() {
    assert_eq!(
        Dice::new("3dx"),
        Err(ParseError::InvalidSides(String::from("x")))
    );
    assert_eq!(
        Dice::new("d"),
        Err(ParseError::InvalidSides(String::from("")))
    );
    assert_eq!(
        Dice::new("3d"),
        Err(ParseError::InvalidSides(String::from("")))
    );
    assert_eq!(
        Dice::new("3d0"),
        Err(ParseError::InvalidSides(String::from("0")))
    );
    assert_eq!(
        Dice::new("3d4294967296"),
        Err(ParseError::InvalidSides(String::from("4294967296")))
    );
}

#[test]
fn parse_bad_count() {
    assert_eq!(
        Dice::new("xd6"),
        Err(ParseError::InvalidCount(String::from("x")))
    );
    assert_eq!(
        Dice::new("0d6"),
        Err(ParseError::InvalidCount(String::from("0")))
    );
    assert_eq!(
        Dice::new("2x3d6"),
        Err(ParseError::InvalidCount(String::from("2x3")))
    );
    assert_eq!(
        Dice::new("4294967296d6"),
        Err(ParseError::InvalidCount(String::from("4294967296")))
    );
}

#[test]
fn parse_sides_checked_before_count() {
    // Both portions are bad: the sides portion decides first.
    assert_eq!(
        Dice::new("xdy"),
        Err(ParseError::InvalidSides(String::from("y")))
    );
}

#[test]
fn new_vec_parses_all_tokens_in_order() {
    let dice = Dice::new_vec(String::from("3d6,d100"), ',').unwrap();
    assert_eq!(dice.len(), 2);
    assert_eq!(dice[0].desc, "3d6");
    assert_eq!(dice[0].number, 3);
    assert_eq!(dice[0].value, 6);
    assert_eq!(dice[1].desc, "d100");
    assert_eq!(dice[1].number, 1);
    assert_eq!(dice[1].value, 100);
}

#[test]
fn new_vec_single_token() {
    let dice = Dice::new_vec(String::from("d6"), ',').unwrap();
    assert_eq!(dice.len(), 1);
    assert_eq!(dice[0].number, 1);
    assert_eq!(dice[0].value, 6);
}

#[test]
fn new_vec_fails_fast_on_first_bad_token() {
    assert_eq!(
        Dice::new_vec(String::from("3d6,abc,xd2"), ','),
        Err(ParseError::MalformedToken(String::from("abc")))
    );
    assert_eq!(
        Dice::new_vec(String::from("3dx,abc"), ','),
        Err(ParseError::InvalidSides(String::from("x")))
    );
}

#[test]
fn new_vec_rejects_empty_text() {
    // The empty text is one empty token, which has no 'd'.
    assert_eq!(
        Dice::new_vec(String::from(""), ','),
        Err(ParseError::MalformedToken(String::from("")))
    );
}

#[test]
fn new_vec_rejects_trailing_delimiter() {
    assert_eq!(
        Dice::new_vec(String::from("3d6,"), ','),
        Err(ParseError::MalformedToken(String::from("")))
    );
}

#[test]
fn new_vec_other_delimiter() {
    let dice = Dice::new_vec(String::from("2d4 3d8"), ' ').unwrap();
    assert_eq!(dice.len(), 2);
    assert_eq!(dice[0].desc, "2d4");
    assert_eq!(dice[1].desc, "3d8");
}

#[test]
fn roll_count_and_bounds() {
    let d = parse_ok("5d6");
    let roll = d.roll();
    assert_eq!(roll.desc, "5d6");
    assert_eq!(roll.rolls.len(), 5);
    for &v in roll.rolls.iter() {
        assert!(1 <= v && v <= 6);
    }
    let sum: u64 = roll.rolls.iter().map(|&v| v as u64).sum();
    assert_eq!(roll.total(), sum);
}

#[test]
fn roll_one_sided_die_is_always_one() {
    let d = parse_ok("10d1");
    let roll = d.roll();
    assert_eq!(roll.rolls, vec![1; 10]);
    assert_eq!(roll.total(), 10);
}

#[test]
fn roll_varies_across_invocations() {
    // Statistical: a hundred d20 rolls are not all equal (and all in bounds).
    let d = parse_ok("d20");
    let mut seen = Vec::new();
    for _ in 0..100 {
        let roll = d.roll();
        assert_eq!(roll.rolls.len(), 1);
        let v = roll.rolls[0];
        assert!(1 <= v && v <= 20);
        seen.push(v);
    }
    assert!(seen.iter().any(|&v| v != seen[0]));
}

#[test]
fn roll_all_preserves_order() {
    let dice = Dice::new_vec(String::from("2d4,d6,3d8"), ',').unwrap();
    let rolls = Dice::roll_all(dice);
    assert_eq!(rolls.len(), 3);
    assert_eq!(rolls[0].desc, "2d4");
    assert_eq!(rolls[0].rolls.len(), 2);
    assert_eq!(rolls[1].desc, "d6");
    assert_eq!(rolls[1].rolls.len(), 1);
    assert_eq!(rolls[2].desc, "3d8");
    assert_eq!(rolls[2].rolls.len(), 3);
}

#[test]
fn new_vec_roll_end_to_end() {
    let rolls = Dice::new_vec_roll(String::from("2d6,d4"), ',').unwrap();
    assert_eq!(rolls.len(), 2);
    assert_eq!(rolls[0].desc, "2d6");
    assert_eq!(rolls[0].rolls.len(), 2);
    for &v in rolls[0].rolls.iter() {
        assert!(1 <= v && v <= 6);
    }
    assert_eq!(rolls[1].desc, "d4");
    assert_eq!(rolls[1].rolls.len(), 1);
    assert!(1 <= rolls[1].rolls[0] && rolls[1].rolls[0] <= 4);
}

#[test]
fn new_vec_roll_propagates_parse_error() {
    assert_eq!(
        Dice::new_vec_roll(String::from("3dx"), ','),
        Err(ParseError::InvalidSides(String::from("x")))
    );
}

#[test]
fn total_is_sum_of_rolls() {
    let roll = Roll {
        desc: String::from("2d4"),
        rolls: vec![2, 3],
    };
    assert_eq!(roll.total(), 5);
}

#[test]
fn error_messages_name_the_offending_text() {
    let e = ParseError::MalformedToken(String::from("abc"));
    assert_eq!(
        e.message(),
        "bad dice token 'abc': should be [<count>]d<sides>, like '10d6' or 'd8'"
    );
    let e = ParseError::InvalidCount(String::from("x"));
    assert_eq!(
        e.message(),
        "bad dice count 'x': should be a positive number, as in '10d6'"
    );
    let e = ParseError::InvalidSides(String::from("y"));
    assert_eq!(
        e.message(),
        "bad dice sides 'y': should be a positive number, as in 'd8'"
    );
}
