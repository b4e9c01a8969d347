use aoc2025::day01::{
    checked_part_1, checked_part_2, parse_line, part_1, part_2, read_turn, signum, Dial,
    ZeroClickingDial,
};

const EXAMPLE: &str = "L68\nL30\nR48\nL5\nR60\nL55\nL1\nL99\nR14\nL82\n";

fn chars(s: &str) -> Vec<char> {
    s.chars().collect()
}

#[test]
fn test_clicking_dial() {
    let dial = ZeroClickingDial::from(Dial(10)) + 10;
    assert!(dial.clicks == 0);
    assert!(dial.dial.0 == 20);
    let dial = ZeroClickingDial::from(Dial(0)) + 10;
    assert!(dial.clicks == 0);
    assert!(dial.dial.0 == 10);
    let dial = ZeroClickingDial::from(Dial(0)) + 100;
    assert!(dial.clicks == 1);
    assert!(dial.dial.0 == 0);
    let dial = ZeroClickingDial::from(Dial(0)) - 100;
    assert!(dial.clicks == 1);
    assert!(dial.dial.0 == 0);
    let dial = ZeroClickingDial::from(Dial(0)) - 110;
    assert!(dial.clicks == 1);
    assert!(dial.dial.0 == 90);
    let dial = ZeroClickingDial::from(Dial(0)) + 110;
    assert!(dial.clicks == 1);
    assert!(dial.dial.0 == 10);
    let dial = ZeroClickingDial::from(Dial(50)) - 50;
    assert!(dial.clicks == 1);
    assert!(dial.dial.0 == 0);
    let dial = ZeroClickingDial::from(Dial(50)) + 50;
    assert!(dial.clicks == 1);
    assert!(dial.dial.0 == 0);
    let dial = ZeroClickingDial::from(Dial(50)) + 150;
    assert!(dial.clicks == 2);
    assert!(dial.dial.0 == 0);
    let dial = ZeroClickingDial::from(Dial(50)) - 150;
    assert!(dial.clicks == 2);
    assert!(dial.dial.0 == 0);
    let dial = ZeroClickingDial::from(Dial(0)) - 1000;
    assert!(dial.clicks == 10);
    assert!(dial.dial.0 == 0);
    let dial = ZeroClickingDial::from(Dial(0)) + 1050;
    assert!(dial.clicks == 10);
    assert!(dial.dial.0 == 50);
}

#[test]
fn dial_turns_round() {
    assert_eq!(Dial::default(), Dial(50));
    assert_eq!(Dial(50) + 49, Dial(99));
    assert_eq!(Dial(50) + 50, Dial(0));
    assert_eq!(Dial(50) + -51, Dial(99));
    assert_eq!(Dial(0) + -1, Dial(99));
    assert_eq!(Dial(99) + 1, Dial(0));
    assert_eq!(Dial(7) + 0, Dial(7));
    assert_eq!(Dial(7) + 1000, Dial(7));
    assert_eq!(Dial(-5) + 0, Dial(95));
    assert_eq!(Dial(50).checked_add(25), Some(Dial(75)));
    assert_eq!(Dial(100).checked_add(0), None);
    assert_eq!(Dial(99).checked_add(i32::MAX), None);
    assert_eq!(Dial(0).checked_add(i32::MAX), Some(Dial(47)));
    assert_eq!(Dial(0).checked_add(i32::MIN), Some(Dial(52)));
    assert_eq!(Dial(-1).checked_add(i32::MIN), None);
}

#[test]
fn clicks_count_every_zero_on_the_way() {
    let start = ZeroClickingDial::default();
    assert_eq!(start.dial, Dial(50));
    assert_eq!(start.clicks, 0);
    // Each turn counts for itself: what was counted before is not kept.
    let once = start + 50;
    assert_eq!((once.dial.0, once.clicks), (0, 1));
    let again = once + 5;
    assert_eq!((again.dial.0, again.clicks), (5, 0));
    let back = again - 5;
    assert_eq!((back.dial.0, back.clicks), (0, 1));
    let on = back - 1;
    assert_eq!((on.dial.0, on.clicks), (99, 0));
    let still = on + 0;
    assert_eq!((still.dial.0, still.clicks), (99, 0));
    let round = still + 301;
    assert_eq!((round.dial.0, round.clicks), (0, 4));
    let stay = ZeroClickingDial::from(Dial(0)) + 0;
    assert_eq!((stay.dial.0, stay.clicks), (0, 0));
    let left = ZeroClickingDial::from(Dial(1)) - 201;
    assert_eq!((left.dial.0, left.clicks), (0, 3));
}

#[test]
fn clicks_agree_with_counting_click_by_click() {
    for start in [0i32, 1, 37, 50, 99] {
        for turn in -250i32..=250 {
            let mut position: i32 = start;
            let mut zeros = 0;
            for _ in 0..turn.abs() {
                position = (position + signum(turn)).rem_euclid(100);
                if position == 0 {
                    zeros += 1;
                }
            }
            let dial = ZeroClickingDial::from(Dial(start)) + turn;
            assert_eq!(dial.dial.0, position);
            assert_eq!(dial.clicks, zeros);
        }
    }
}

#[test]
fn turns_that_do_not_fit() {
    let dial = ZeroClickingDial::from(Dial(50));
    assert_eq!(dial.checked_add(i32::MIN), None);
    assert_eq!(dial.checked_add(i32::MAX), None);
    assert_eq!(dial.checked_add(i32::MAX - 99).map(|d| d.clicks), Some(21474835));
    assert_eq!(ZeroClickingDial::from(Dial(100)).checked_add(1), None);
    assert_eq!(signum(-7), -1);
    assert_eq!(signum(0), 0);
    assert_eq!(signum(7), 1);
}

#[test]
fn lines_are_read_as_turns() {
    assert_eq!(parse_line("L68"), -68);
    assert_eq!(parse_line("R48"), 48);
    assert_eq!(parse_line("R0"), 0);
    assert_eq!(parse_line("L0"), 0);
    assert_eq!(parse_line("R+5"), 5);
    assert_eq!(parse_line("R-5"), -5);
    assert_eq!(parse_line("L-5"), 5);
    assert_eq!(parse_line("R007"), 7);
    assert_eq!(parse_line("R2147483647"), i32::MAX);
    assert_eq!(parse_line("L2147483647"), -i32::MAX);
    assert_eq!(parse_line("R-2147483648"), i32::MIN);
    assert_eq!(read_turn(&chars("L-2147483648")), None);
    assert_eq!(read_turn(&chars("R2147483648")), None);
    assert_eq!(read_turn(&chars("")), None);
    assert_eq!(read_turn(&chars("R")), None);
    assert_eq!(read_turn(&chars("L+")), None);
    assert_eq!(read_turn(&chars("R-")), None);
    assert_eq!(read_turn(&chars("X5")), None);
    assert_eq!(read_turn(&chars("r5")), None);
    assert_eq!(read_turn(&chars("5")), None);
    assert_eq!(read_turn(&chars("R 5")), None);
    assert_eq!(read_turn(&chars("R5 ")), None);
    assert_eq!(read_turn(&chars("R--5")), None);
    assert_eq!(read_turn(&chars("R5")), Some(5));
}

#[test]
fn day01_example() {
    assert_eq!(part_1(EXAMPLE), 3);
    assert_eq!(part_2(EXAMPLE), 6);
    assert_eq!(checked_part_1(EXAMPLE), Some(3));
    assert_eq!(checked_part_2(EXAMPLE), Some(6));
}

#[test]
fn day01_small_inputs() {
    assert_eq!(part_1(""), 0);
    assert_eq!(part_2(""), 0);
    assert_eq!(part_1("R50"), 1);
    assert_eq!(part_2("R50"), 1);
    assert_eq!(part_1("R1000\n"), 0);
    assert_eq!(part_2("R1000\n"), 10);
    assert_eq!(part_1("L50\r\nR100\r\nL200\r\n"), 3);
    assert_eq!(part_2("L50\r\nR100\r\nL200\r\n"), 4);
    assert_eq!(checked_part_1("R50\n\nL50\n"), None);
    assert_eq!(checked_part_1("R50\nU50\n"), None);
    assert_eq!(checked_part_2("R50\nL\n"), None);
    assert_eq!(checked_part_1("R2147483647"), None);
    assert_eq!(checked_part_1("R2147483597"), Some(0));
    assert_eq!(checked_part_2("R2147483597"), Some(21474836));
    assert_eq!(checked_part_2("R2147483598"), None);
    assert_eq!(checked_part_2("R2147483548"), Some(21474835));
}
