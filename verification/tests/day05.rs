use aoc2025::day05::{
    checked_part_1, checked_part_2, find_blank_line, holds_fresh, in_order, part_1, part_2,
    read_ranges, sort_ranges, Range, RangeSet,
};

fn chars(s: &str) -> Vec<char> {
    s.chars().collect()
}

fn range(l: usize, r: usize) -> Range {
    Range { l, r }
}

#[test]
fn day05_example() {
    let input = "3-5\n10-14\n16-20\n12-18\n\n1\n5\n8\n11\n17\n32\n";
    assert_eq!(checked_part_1(input), Some(3));
    assert_eq!(checked_part_2(input), Some(14));
    assert_eq!(part_1(input), 3);
    assert_eq!(part_2(input), 14);
}

#[test]
fn ranges_apart_and_joined() {
    assert!(range(3, 5).is_disjoint(range(7, 9)));
    assert!(range(7, 9).is_disjoint(range(3, 5)));
    assert!(!range(3, 5).is_disjoint(range(6, 9)));
    assert!(!range(6, 9).is_disjoint(range(3, 5)));
    assert!(!range(3, 5).is_disjoint(range(5, 9)));
    assert!(!range(3, 9).is_disjoint(range(4, 5)));
    assert!(range(3, 5).is_overlap(range(6, 9)));
    assert!(!range(3, 5).is_overlap(range(7, 9)));
    assert!(!range(0, 0).is_disjoint(range(0, 0)));
    assert!(!range(0, 0).is_disjoint(range(1, 1)));
    assert!(range(0, 0).is_disjoint(range(2, 2)));
    assert!(!range(0, usize::MAX).is_disjoint(range(usize::MAX, usize::MAX)));
    assert!(!range(usize::MAX, usize::MAX).is_disjoint(range(0, usize::MAX)));
    assert!(range(usize::MAX, usize::MAX).is_disjoint(range(0, usize::MAX - 2)));
}

#[test]
fn expand_takes_the_hull() {
    let mut a = range(3, 5);
    a.expand(range(4, 9));
    assert_eq!(a, range(3, 9));
    a.expand(range(1, 2));
    assert_eq!(a, range(1, 9));
    a.expand(range(2, 3));
    assert_eq!(a, range(1, 9));
}

#[test]
fn range_sizes() {
    assert_eq!(range(3, 5).size(), 3);
    assert_eq!(range(7, 7).size(), 1);
    assert_eq!(range(1, usize::MAX).size(), usize::MAX);
    assert_eq!(range(3, 5).checked_size(), Some(3));
    assert_eq!(range(5, 3).checked_size(), None);
    assert_eq!(range(0, usize::MAX).checked_size(), None);
}

#[test]
fn ranges_are_read() {
    assert_eq!(Range::from("3-5"), range(3, 5));
    assert_eq!(Range::from("10-14"), range(10, 14));
    assert_eq!(Range::from("+7-007"), range(7, 7));
    assert_eq!(Range::from("9-2"), range(9, 2));
    assert_eq!(Range::from_pair("16", "20"), range(16, 20));
    assert_eq!(Range::parse(&chars("3-5")), Some(range(3, 5)));
    assert_eq!(Range::parse(&chars("35")), None);
    assert_eq!(Range::parse(&chars("3-")), None);
    assert_eq!(Range::parse(&chars("-5")), None);
    assert_eq!(Range::parse(&chars("3-5-7")), None);
    assert_eq!(Range::parse(&chars("3--5")), None);
    assert_eq!(Range::parse(&chars(" 3-5")), None);
    assert_eq!(Range::parse(&chars("a-5")), None);
    assert_eq!(Range::parse(&chars("")), None);
    assert_eq!(
        Range::parse(&chars("3-99999999999999999999999999999")),
        None
    );
    assert_eq!(Range::default(), range(0, 0));
}

#[test]
fn order_is_by_lower_end_then_upper_end() {
    let ranges = [
        range(0, 0),
        range(0, 9),
        range(3, 1),
        range(3, 5),
        range(3, 6),
        range(4, 0),
        range(usize::MAX, 0),
        range(usize::MAX, usize::MAX),
    ];
    for a in ranges {
        for b in ranges {
            assert_eq!(in_order(a, b), a <= b);
        }
    }
}

#[test]
fn sorting_agrees_with_the_standard_library() {
    let mut seed: usize = 12345;
    for len in 0..40 {
        let mut ranges = Vec::new();
        for _ in 0..len {
            seed = seed.wrapping_mul(6364136223846793005).wrapping_add(1442695040888963407);
            let l = (seed >> 33) % 7;
            seed = seed.wrapping_mul(6364136223846793005).wrapping_add(1442695040888963407);
            let r = (seed >> 33) % 7;
            ranges.push(range(l, r));
        }
        let mut expected = ranges.clone();
        expected.sort_unstable();
        sort_ranges(&mut ranges);
        assert_eq!(ranges, expected);
    }
}

#[test]
fn set_counts_each_identifier_once() {
    let ranges = [
        range(3, 5),
        range(10, 14),
        range(16, 20),
        range(12, 18),
        range(4, 4),
        range(21, 21),
        range(0, 1),
        range(30, 33),
        range(2, 2),
    ];
    let mut set = RangeSet::default();
    let mut held = std::collections::BTreeSet::new();
    for added in ranges {
        set = set.add(added);
        held.extend(added.l..=added.r);
        assert_eq!(set.size(), held.len());
        for pair in set.0.windows(2) {
            assert!(pair[0].r + 1 < pair[1].l);
        }
        for value in 0..40 {
            assert_eq!(holds_fresh(&set.0, value), held.contains(&value));
        }
    }
}

#[test]
fn set_keeps_ranges_in_order_and_joined() {
    let set = RangeSet::default();
    assert!(set.0.is_empty());
    let set = set.add(range(10, 14));
    assert_eq!(set.0, vec![range(10, 14)]);
    let set = set.add(range(3, 5));
    assert_eq!(set.0, vec![range(3, 5), range(10, 14)]);
    let set = set.add(range(16, 20));
    assert_eq!(set.0, vec![range(3, 5), range(10, 14), range(16, 20)]);
    let set = set.add(range(12, 18));
    assert_eq!(set.0, vec![range(3, 5), range(10, 20)]);
    assert_eq!(set.size(), 14);
    let set = set.add(range(6, 9));
    assert_eq!(set.0, vec![range(3, 20)]);
    assert_eq!(set.size(), 18);
    let set = set.add(range(4, 4));
    assert_eq!(set.0, vec![range(3, 20)]);
    let set = set.add(range(22, 22)).add(range(0, 1));
    assert_eq!(set.0, vec![range(0, 1), range(3, 20), range(22, 22)]);
    assert_eq!(set.checked_size(), Some(21));
}

#[test]
fn set_sorts_whatever_it_holds() {
    let set = RangeSet(vec![range(9, 9), range(1, 2), range(5, 6)]).add(range(3, 3));
    assert_eq!(set.0, vec![range(1, 3), range(5, 6), range(9, 9)]);
    let set = RangeSet(vec![range(4, 8), range(4, 5)]).add(range(4, 6));
    assert_eq!(set.0, vec![range(4, 8)]);
}

#[test]
fn set_with_a_range_out_of_order_has_no_size() {
    let set = RangeSet::default().add(range(9, 2));
    assert_eq!(set.0, vec![range(9, 2)]);
    assert_eq!(set.checked_size(), None);
    let set = RangeSet::default().add(range(0, usize::MAX)).add(range(0, 0));
    assert_eq!(set.checked_size(), None);
}

#[test]
fn blank_line_is_found() {
    assert_eq!(find_blank_line(&chars("ab\n\ncd")), 2);
    assert_eq!(find_blank_line(&chars("\n\n")), 0);
    assert_eq!(find_blank_line(&chars("a\nb\nc\n")), 6);
    assert_eq!(find_blank_line(&chars("a\n\n\n\nb")), 1);
    assert_eq!(find_blank_line(&chars("")), 0);
    assert_eq!(find_blank_line(&chars("a\r\n\r\nb")), 6);
}

#[test]
fn fresh_means_held_by_some_range() {
    let ranges = vec![range(3, 5), range(10, 14), range(16, 20), range(12, 18)];
    for (value, fresh) in [
        (1, false),
        (5, true),
        (8, false),
        (11, true),
        (17, true),
        (32, false),
        (3, true),
        (15, true),
        (21, false),
    ] {
        assert_eq!(holds_fresh(&ranges, value), fresh);
    }
    assert!(!holds_fresh(&vec![range(9, 2)], 5));
    assert!(!holds_fresh(&vec![], 5));
}

#[test]
fn day05_inputs_that_are_refused() {
    assert_eq!(checked_part_1("3-5\n10-14\n1\n5\n"), None);
    assert_eq!(checked_part_1("3-5\n10\n\n1\n5\n"), None);
    assert_eq!(checked_part_1("3-5\n\n1\nx\n"), None);
    assert_eq!(checked_part_1("3-5\n\n1\n\n5\n"), None);
    assert_eq!(checked_part_1("3-5\r\n\r\n1\r\n"), None);
    assert_eq!(checked_part_2("3-5\n10-14"), None);
    assert_eq!(checked_part_2("3-5\n9-2\n\n"), None);
    assert_eq!(read_ranges(&vec![chars("3-5"), chars("x")]), None);
}

#[test]
fn day05_small_inputs() {
    assert_eq!(checked_part_1("3-5\n\n4"), Some(1));
    assert_eq!(checked_part_1("\n\n4\n"), Some(0));
    assert_eq!(checked_part_1("3-5\n\n"), Some(0));
    assert_eq!(checked_part_1("3-5\r\n7-9\n\n8\r\n4\n6\n"), Some(2));
    assert_eq!(checked_part_1("9-2\n\n5\n"), Some(0));
    assert_eq!(checked_part_2("\n\n"), Some(0));
    assert_eq!(checked_part_2("3-5\n\nnot read\n"), Some(3));
    assert_eq!(checked_part_2("3-5\n4-6\n8-8\n7-7\n\n"), Some(6));
    assert_eq!(
        read_ranges(&vec![chars("3-5"), chars("1-1")]),
        Some(vec![range(3, 5), range(1, 1)])
    );
}
