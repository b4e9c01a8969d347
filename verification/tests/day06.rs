use aoc2025::day06::{
    apply_row, checked_part_1, checked_part_2, multiply_numbers, part_1, part_2,
    start_accumulators, sum_accumulators, sum_numbers, Accumulator, Grid, Op, Worksheet,
};

const EXAMPLE: &str = "123 328  51 64 \n 45 64  387 23 \n  6 98  215 314\n*   +   *   +  ";

fn chars(s: &str) -> Vec<char> {
    s.chars().collect()
}

fn tokens(row: &[&str]) -> Vec<Vec<char>> {
    row.iter().map(|s| chars(s)).collect()
}

#[test]
fn signs_are_read() {
    assert_eq!(Op::from("+"), Op::Add);
    assert_eq!(Op::from("*"), Op::Mul);
    assert_eq!(Op::parse(&chars("+")), Some(Op::Add));
    assert_eq!(Op::parse(&chars("*")), Some(Op::Mul));
    assert_eq!(Op::parse(&chars("-")), None);
    assert_eq!(Op::parse(&chars("")), None);
    assert_eq!(Op::parse(&chars("++")), None);
    assert_eq!(Op::parse(&chars("+ ")), None);
    assert_eq!(Op::default(), Op::Add);
}

#[test]
fn accumulators_start_neutral() {
    assert_eq!(
        Accumulator::from(Op::Add),
        Accumulator {
            op: Op::Add,
            val: 0
        }
    );
    assert_eq!(
        Accumulator::from(Op::Mul),
        Accumulator {
            op: Op::Mul,
            val: 1
        }
    );
}

#[test]
fn accumulators_add_or_multiply() {
    let mut sum = Accumulator::from(Op::Add);
    sum.acc(328);
    sum.acc(64);
    sum.acc(98);
    assert_eq!(sum.val, 490);
    let mut product = Accumulator::from(Op::Mul);
    product.acc(123);
    product.acc(45);
    product.acc(6);
    assert_eq!(product.val, 33210);
    product.acc(0);
    assert_eq!(product.val, 0);
}

#[test]
fn accumulators_stop_at_the_word_size() {
    let sum = Accumulator {
        op: Op::Add,
        val: usize::MAX - 1,
    };
    assert_eq!(sum.checked_acc(1).map(|a| a.val), Some(usize::MAX));
    assert_eq!(sum.checked_acc(2), None);
    let product = Accumulator {
        op: Op::Mul,
        val: usize::MAX / 2 + 1,
    };
    assert_eq!(product.checked_acc(2), None);
    assert_eq!(product.checked_acc(0).map(|a| a.val), Some(0));
    assert_eq!(product.checked_acc(1).map(|a| a.val), Some(usize::MAX / 2 + 1));
}

#[test]
fn rows_pair_numbers_with_accumulators() {
    let mut accs = start_accumulators(&tokens(&["*", "+", "*"])).unwrap();
    assert!(apply_row(&mut accs, &tokens(&["6", "98", "215", "not read"])));
    assert!(apply_row(&mut accs, &tokens(&["45", "64"])));
    assert!(apply_row(&mut accs, &tokens(&[])));
    assert_eq!(
        accs.iter().map(|a| a.val).collect::<Vec<usize>>(),
        vec![270, 162, 215]
    );
    assert_eq!(sum_accumulators(&accs), Some(647));
    assert!(!apply_row(&mut accs, &tokens(&["1", "x"])));
    assert_eq!(start_accumulators(&tokens(&["*", "1"])), None);
    assert_eq!(start_accumulators(&tokens(&[])), Some(vec![]));
}

#[test]
fn sums_and_products_of_numbers() {
    assert_eq!(sum_numbers(&[]), Some(0));
    assert_eq!(sum_numbers(&[4, 431, 623]), Some(1058));
    assert_eq!(sum_numbers(&[usize::MAX, 1]), None);
    assert_eq!(sum_numbers(&[usize::MAX, 0]), Some(usize::MAX));
    assert_eq!(multiply_numbers(&[]), Some(1));
    assert_eq!(multiply_numbers(&[356, 24, 1]), Some(8544));
    assert_eq!(multiply_numbers(&[usize::MAX, 2, 0]), None);
    assert_eq!(multiply_numbers(&[0, usize::MAX, 2]), Some(0));
}

#[test]
fn grid_of_characters() {
    let grid = Grid::from_iter(vec![chars("12 "), chars("+ *")]);
    assert_eq!(grid.w(), 3);
    assert_eq!(grid.h(), 2);
    assert_eq!(grid.at(0, 1), '2');
    assert_eq!(grid.at(1, 2), '*');
    assert_eq!(Grid::from_iter(vec![]).h(), 0);
}

#[test]
fn cells_are_read_one_by_one() {
    let mut sheet = Worksheet::new();
    sheet.numbers.push(0);
    assert!(sheet.read_cell('4', false, 3));
    assert!(sheet.read_cell(' ', false, 3));
    assert!(sheet.read_cell('2', false, 3));
    assert_eq!(sheet.numbers, vec![42]);
    assert_eq!(sheet.op_idx, 0);
    assert!(sheet.read_cell(' ', true, 3));
    assert_eq!(sheet.op_idx, 1);
    sheet.numbers.push(8);
    assert!(sheet.read_cell('x', true, 3));
    assert!(sheet.read_cell('+', true, 3));
    assert_eq!(sheet.total, 50);
    assert!(sheet.op_complete);
    let grid = Grid::from_iter(vec![chars("1 2"), chars("* +")]);
    assert!(sheet.read_column(&grid, 1));
    assert!(!sheet.op_complete);
    assert!(sheet.numbers.is_empty());
    assert_eq!((sheet.total, sheet.op_idx), (50, 0));
    assert!(sheet.read_column(&grid, 0));
    assert_eq!(sheet.total, 51);
    // The column behind a sign is not read, whatever it is.
    assert!(sheet.read_column(&grid, 3));
    assert!(!sheet.read_column(&grid, 3));
}

#[test]
fn product_takes_one_number_fewer_than_rows() {
    // Two rows: a product takes the first number only.
    assert_eq!(checked_part_2("23\n* "), Some(3));
    // Three rows: it takes two.
    assert_eq!(checked_part_2("234\n   \n*  "), Some(12));
    assert_eq!(checked_part_2("234\n   \n+  "), Some(9));
}

#[test]
fn day06_example() {
    assert_eq!(checked_part_1(EXAMPLE), Some(4277556));
    assert_eq!(checked_part_2(EXAMPLE), Some(3263827));
    assert_eq!(part_1(EXAMPLE), 4277556);
    assert_eq!(part_2(EXAMPLE), 3263827);
}

#[test]
fn day06_inputs_that_are_refused() {
    assert_eq!(checked_part_1(""), None);
    assert_eq!(checked_part_1("1 2\n+ x"), None);
    assert_eq!(checked_part_1("1 x\n+ +"), None);
    assert_eq!(checked_part_1("1 -2\n+ +"), None);
    assert_eq!(
        checked_part_1("18446744073709551615 1\n18446744073709551615 1\n+ +"),
        None
    );
    assert_eq!(checked_part_2(""), None);
    assert_eq!(checked_part_2("123\n+"), None);
    assert_eq!(
        checked_part_2("9\n9\n9\n9\n9\n9\n9\n9\n9\n9\n9\n9\n9\n9\n9\n9\n9\n9\n9\n9\n9\n9\n9\n9\n9\n+"),
        None
    );
}

#[test]
fn day06_small_inputs() {
    assert_eq!(checked_part_1("+"), Some(0));
    assert_eq!(checked_part_1("*"), Some(1));
    assert_eq!(checked_part_1("\n"), Some(0));
    assert_eq!(checked_part_1("2 3\n4\n* +"), Some(11));
    assert_eq!(checked_part_1("2 3 x\n4 5 y\n* +"), Some(16));
    assert_eq!(checked_part_1("2\t3\u{a0}4\n+ + +\n"), Some(9));
    assert_eq!(checked_part_1("+2 03\n* *\r\n"), Some(5));
    assert_eq!(checked_part_2("\n"), Some(0));
    assert_eq!(checked_part_2("12\n+ "), Some(3));
    assert_eq!(checked_part_2("12 \n+  "), Some(3));
    assert_eq!(checked_part_2("1 \n+ \n1"), None);
    assert_eq!(checked_part_2("1 \n+ \n1 "), Some(1));
}
