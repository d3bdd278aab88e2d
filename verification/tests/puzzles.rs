use aoc25::day01;
use aoc25::day05;
use aoc25::day05::RangeEvent;
use aoc25::day06;
use aoc25::day06::{Op, ProblemBuilder};

#[test]
fn test_day1_rest_counting() {
    // Right by fifty lands on zero; left by fifty lands on zero again.
    assert_eq!(day01::part1(&vec![50, -50, 30]), 1);
    assert_eq!(day01::part1(&vec![50, 100, -100]), 3);
    assert_eq!(day01::part1(&vec![10]), 0);
    assert_eq!(day01::part1(&vec![]), 0);
}

#[test]
fn test_day1_pass_counting() {
    // Left by fifty comes to rest exactly on zero: one hit.
    assert_eq!(day01::part2(&vec![-50]), 1);
    // Right by one hundred and fifty: one full turn plus resting on zero.
    assert_eq!(day01::part2(&vec![150]), 2);
    // Right by thirty from fifty: no zero pass at all.
    assert_eq!(day01::part2(&vec![30]), 0);
}

#[test]
fn test_day5_range_membership() {
    let events = vec![
        RangeEvent::Range(3, 5),
        RangeEvent::Id(4),
        RangeEvent::Id(6),
        RangeEvent::Range(6, 6),
        RangeEvent::Id(6),
    ];
    // Only the first and last identifiers fall in a range seen before them.
    assert_eq!(day05::part1(&events), 2);
}

#[test]
fn test_day5_inverted_range_is_ignored() {
    let events = vec![RangeEvent::Range(9, 2), RangeEvent::Id(5)];
    assert_eq!(day05::part1(&events), 0);
}

#[test]
fn test_day6_get_operand() {
    assert_eq!(day06::get_operand("  3 "), Some(3));
    assert_eq!(day06::get_operand(" 23 "), Some(23));
    assert_eq!(day06::get_operand("123 "), Some(123));
}

#[test]
fn test_day6_get_operand_skips_unparseable_tokens() {
    assert_eq!(day06::get_operand("ab 12 34"), Some(12));
    assert_eq!(day06::get_operand("   "), None);
    assert_eq!(day06::get_operand("x+y"), None);
    assert_eq!(day06::get_operand("99999999999999999999999 7"), Some(7));
}

#[test]
fn test_day6_eval_sum_and_product() {
    let mut builder = ProblemBuilder::new();
    builder.push_operand(1);
    builder.push_operand(2);
    builder.push_operand(3);
    builder.set_op(Op::Add);
    assert_eq!(builder.build().eval(), 6);

    let mut builder = ProblemBuilder::new();
    builder.push_operand(2);
    builder.push_operand(3);
    builder.push_operand(4);
    builder.set_op(Op::Mul);
    assert_eq!(builder.build().eval(), 24);
}

#[test]
fn test_day6_op_from_char() {
    assert_eq!(Op::from_char('+'), Some(Op::Add));
    assert_eq!(Op::from_char('*'), Some(Op::Mul));
    assert_eq!(Op::from_char('7'), None);
    assert_eq!(Op::from_char(' '), None);
}

#[test]
fn test_day6_step_takes_rightmost_column() {
    let mut rows: Vec<Vec<char>> = vec!["12+".chars().collect(), "34*".chars().collect()];
    // The rightmost column is "+*": the operator comes from the last row,
    // and "+" alone holds no operand.
    let r = day06::step(&mut rows);
    assert_eq!(r, Ok((None, Some(Op::Mul))));
    assert_eq!(rows[0], vec!['1', '2']);
    assert_eq!(rows[1], vec!['3', '4']);
    // Next column is "24": no operator, operand read from "2".
    let r = day06::step(&mut rows);
    assert_eq!(r, Ok((Some(2), None)));
    // Next column is "13": operand 1 above, no operator.
    let r = day06::step(&mut rows);
    assert_eq!(r, Ok((Some(1), None)));
    // All rows are empty now.
    let r = day06::step(&mut rows);
    assert_eq!(r, Err(()));
}

#[test]
fn test_day5_covered_total() {
    // [3,5] and [5,8] overlap at 5: six identifiers in all; [20,20] adds one.
    let ranges = vec![(3u64, 5u64), (5, 8), (20, 20)];
    assert_eq!(day05::part2(&ranges), 7);
}

#[test]
fn test_day5_nested_ranges() {
    let ranges = vec![(1u64, 10u64), (2, 3)];
    assert_eq!(day05::part2(&ranges), 10);
}

#[test]
fn test_day6_get_operand_accepts_leading_plus() {
    // u64 parsing accepts one leading plus sign.
    assert_eq!(day06::get_operand("+5"), Some(5));
    assert_eq!(day06::get_operand(" +23 x"), Some(23));
    assert_eq!(day06::get_operand("+"), None);
    assert_eq!(day06::get_operand("++5 8"), Some(8));
    assert_eq!(day06::get_operand("5+5 9"), Some(9));
}

#[test]
fn test_day6_try_eval() {
    let mut builder = ProblemBuilder::new();
    builder.push_operand(u64::MAX);
    builder.push_operand(1);
    builder.set_op(Op::Add);
    assert_eq!(builder.build().try_eval(), None);

    let mut builder = ProblemBuilder::new();
    builder.push_operand(6);
    builder.push_operand(7);
    builder.set_op(Op::Mul);
    assert_eq!(builder.build().try_eval(), Some(42));

    let mut builder = ProblemBuilder::new();
    builder.push_operand(u64::MAX);
    builder.push_operand(2);
    builder.set_op(Op::Mul);
    assert_eq!(builder.build().try_eval(), None);
}

#[test]
fn test_day6_part2_worksheet() {
    // Columns are taken from the right: "24*" gives 24, then "13+" adds
    // 24 + 13 on top of it.
    let mut rows: Vec<Vec<char>> = vec![
        "12".chars().collect(),
        "34".chars().collect(),
        "+*".chars().collect(),
    ];
    assert_eq!(aoc25::day06::part2(&mut rows), Some(61));
}

#[test]
fn test_day6_part2_clears_on_blank_column() {
    // A column with no operand drops the pending operands.
    let mut rows: Vec<Vec<char>> = vec![
        "2 3".chars().collect(),
        "4 5".chars().collect(),
        "* +".chars().collect(),
    ];
    // The rightmost column reads 35 and adds it; the blank middle column
    // clears the pending operands; the leftmost column then multiplies 24
    // alone.
    assert_eq!(aoc25::day06::part2(&mut rows), Some(59));
}

#[test]
fn test_day6_line_tokens() {
    let line: Vec<char> = " ab  12 +3".chars().collect();
    let tokens = aoc25::day06::line_tokens(&line);
    let expect: Vec<Vec<char>> = vec![
        "ab".chars().collect(),
        "12".chars().collect(),
        "+3".chars().collect(),
    ];
    assert_eq!(tokens, expect);
}
