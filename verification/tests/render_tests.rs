use dndice::dice::{Dice, Roll};
use dndice::render::{format_results, DisplayMode};

fn mock(desc: &str, rolls: Vec<u32>) -> Roll {
    Roll {
        desc: String::from(desc),
        rolls,
    }
}

const VERBOSE: DisplayMode = DisplayMode {
    terse: false,
    summed: false,
};
const TERSE: DisplayMode = DisplayMode {
    terse: true,
    summed: false,
};
const VERBOSE_SUMMED: DisplayMode = DisplayMode {
    terse: false,
    summed: true,
};
const TERSE_SUMMED: DisplayMode = DisplayMode {
    terse: true,
    summed: true,
};

#[test]
fn verbose_single_die() {
    // input "d6", one die rolled a 4
    let results = vec![mock("d6", vec![4])];
    assert_eq!(format_results(&results, VERBOSE), "d6: 4 = 4");
}

#[test]
fn verbose_two_results_one_line_each() {
    // input "3d6,d100", rolls [1,2,3] and [50]
    let results = vec![mock("3d6", vec![1, 2, 3]), mock("d100", vec![50])];
    let out = format_results(&results, VERBOSE);
    assert_eq!(out, "3d6: 6 = 1 + 2 + 3\nd100: 50 = 50");
    assert_eq!(out.lines().count(), results.len());
}

#[test]
fn terse_summed_is_string_of_grand_total() {
    // input "2d4", rolls [2,3]
    let results = vec![mock("2d4", vec![2, 3])];
    assert_eq!(format_results(&results, TERSE_SUMMED), "5");

    let results = vec![mock("2d4", vec![2, 3]), mock("d100", vec![50])];
    let grand: u64 = results.iter().map(|r| r.total()).sum();
    assert_eq!(format_results(&results, TERSE_SUMMED), grand.to_string());
}

#[test]
fn terse_per_die_one_total_per_line() {
    let results = vec![mock("3d6", vec![1, 2, 3]), mock("d100", vec![50])];
    assert_eq!(format_results(&results, TERSE), "6\n50");
}

#[test]
fn verbose_summed_shows_grand_total_and_breakdowns() {
    let results = vec![mock("2d6", vec![1, 2]), mock("d4", vec![3])];
    assert_eq!(format_results(&results, VERBOSE_SUMMED), "6\n= (1 + 2)\n+ (3)");
}

#[test]
fn verbose_summed_single_result() {
    let results = vec![mock("2d4", vec![2, 3])];
    assert_eq!(format_results(&results, VERBOSE_SUMMED), "5\n= (2 + 3)");
}

#[test]
fn empty_results_render_degenerately() {
    let results: Vec<Roll> = Vec::new();
    assert_eq!(format_results(&results, VERBOSE), "");
    assert_eq!(format_results(&results, TERSE), "");
    assert_eq!(format_results(&results, TERSE_SUMMED), "0");
    assert_eq!(format_results(&results, VERBOSE_SUMMED), "0\n= ()");
}

#[test]
fn pretty_joins_rolls() {
    let r = mock("3d6", vec![1, 2, 3]);
    assert_eq!(r.pretty_bare(), "1 + 2 + 3");
    assert_eq!(r.pretty(), "3d6: 6 = 1 + 2 + 3");
}

#[test]
fn pretty_single_value_has_no_plus() {
    let r = mock("d8", vec![7]);
    assert_eq!(r.pretty_bare(), "7");
    assert_eq!(r.pretty(), "d8: 7 = 7");
}

#[test]
fn format_after_real_roll_is_well_formed() {
    let dice = Dice::new_vec(String::from("3d6"), ',').unwrap();
    let rolls = Dice::roll_all(dice);
    let out = format_results(&rolls, VERBOSE);
    assert!(out.starts_with("3d6: "));
    let total: u64 = rolls[0].total();
    let rest = out.strip_prefix("3d6: ").unwrap();
    let (shown_total, breakdown) = rest.split_once(" = ").unwrap();
    assert_eq!(shown_total, total.to_string());
    let parts: Vec<u64> = breakdown
        .split(" + ")
        .map(|p| p.parse().unwrap())
        .collect();
    assert_eq!(parts.len(), 3);
    assert_eq!(parts.iter().sum::<u64>(), total);
}
