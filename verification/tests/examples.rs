use aoc2025::day04;
use aoc2025::day05;
use aoc2025::day06;

#[test]
fn lib_example1() {
    let input = "3-5
10-14
16-20
12-18

1
5
8
11
17
32
";
    assert_eq!(day05::part_1(input), 3);
}

#[test]
fn example1() {
    let input = "123 328  51 64 \n 45 64  387 23 \n  6 98  215 314\n*   +   *   +  ";
    assert_eq!(day06::part_1(input), 4277556);
}

#[test]
fn lib_example2() {
    println!("START");
    let input = "..@@.@@@@.
@@@.@.@.@@
@@@@@.@.@@
@.@@@@..@.
@@.@@@@.@@
.@@@@@@@.@
.@.@.@.@@@
@.@@@.@@@@
.@@@@@@@@.
@.@.@@@.@.";
    let result = day04::part_2(input);
    assert_eq!(result, 43);
}

#[test]
fn example2() {
    let input = "3-5
10-14
16-20
12-18

1
5
8
11
17
32
";
    assert_eq!(day05::part_2(input), 14);

    let input = "123 328  51 64 \n 45 64  387 23 \n  6 98  215 314\n*   +   *   +  ";
    assert_eq!(day06::part_2(input), 3263827);
}
