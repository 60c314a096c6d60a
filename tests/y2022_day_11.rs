use aoc::y2022_day_11::{
    most_active_product, parse_input, round, round_with_less_worry, split_groups, Day11, Monkey,
    Operations,
};

const TEST_INPUT: &str = "Monkey 0:
Starting items: 79, 98
Operation: new = old * 19
Test: divisible by 23
  If true: throw to monkey 2
  If false: throw to monkey 3

Monkey 1:
Starting items: 54, 65, 75, 74
Operation: new = old + 6
Test: divisible by 19
  If true: throw to monkey 2
  If false: throw to monkey 0

Monkey 2:
Starting items: 79, 60, 97
Operation: new = old * old
Test: divisible by 13
  If true: throw to monkey 1
  If false: throw to monkey 3

Monkey 3:
Starting items: 74
Operation: new = old + 3
Test: divisible by 17
  If true: throw to monkey 0
  If false: throw to monkey 1";

#[test]
fn test_part_1() {
    let lines: Vec<&str> = TEST_INPUT.lines().collect();
    let result = Day11::part_01(&lines);
    assert_eq!(result, Some(10605));
}

#[test]
fn test_part_2() {
    let lines: Vec<&str> = TEST_INPUT.lines().collect();
    let result = Day11::part_02(&lines);
    assert_eq!(result, Some(2713310158));
}

#[test]
fn monkey_from_lines() {
    let lines: Vec<&str> = TEST_INPUT.lines().collect();
    let m = Monkey::from(&lines[0..6].to_vec()).unwrap();
    assert_eq!(m.name, "monkey 0");
    assert_eq!(m.items, vec![79, 98]);
    assert_eq!(m.operation, Operations::Multiply(19));
    assert_eq!(m.test_divisible, 23);
    assert_eq!(m.true_throw, 2);
    assert_eq!(m.false_throw, 3);
    let squared = Monkey::from(&lines[14..20].to_vec()).unwrap();
    assert_eq!(squared.operation, Operations::MultiplyItSelf);
    assert!(Monkey::from(&lines[0..5].to_vec()).is_none());
}

#[test]
fn inspect_throws_and_empties() {
    let lines: Vec<&str> = TEST_INPUT.lines().collect();
    let mut m = Monkey::from(&lines[0..6].to_vec()).unwrap();
    assert!(m.can_inspect());
    let thrown = m.inspect();
    assert_eq!(thrown, vec![(3, 500), (3, 620)]);
    assert!(m.items.is_empty());
    assert_eq!(m.total_inspected, 2);
    assert_eq!(m.worry_level(2), 38);
    assert_eq!(m.get_bore(10), 3);
    assert_eq!(m.test(46), (2, 46));
}

#[test]
fn inspect_needs_room() {
    let mut m = Monkey {
        name: String::from("monkey 9"),
        items: vec![u128::MAX / 2],
        test_divisible: 2,
        operation: Operations::MultiplyItSelf,
        true_throw: 0,
        false_throw: 0,
        total_inspected: 0,
    };
    assert!(!m.can_inspect());
    m.operation = Operations::Add(3);
    assert!(m.can_inspect());
    assert_eq!(m.less_worry_inspect(7), vec![(0, (u128::MAX / 2 + 3) % 7)]);
}

#[test]
fn first_round_moves_items() {
    let lines: Vec<&str> = TEST_INPUT.lines().collect();
    let mut monkeys = parse_input(&lines).unwrap();
    assert_eq!(monkeys.len(), 4);
    assert!(round(&mut monkeys));
    assert_eq!(monkeys[0].items, vec![20, 23, 27, 26]);
    assert_eq!(monkeys[1].items, vec![2080, 25, 167, 207, 401, 1046]);
    assert!(monkeys[2].items.is_empty());
    assert!(monkeys[3].items.is_empty());
    let mut again = parse_input(&lines).unwrap();
    assert!(round_with_less_worry(&mut again, 96577));
    assert_eq!(again[0].total_inspected, 2);
    assert_eq!(most_active_product(&again), Some(6 * 4));
}

#[test]
fn groups_split_at_blank_lines() {
    let groups = split_groups(&vec!["a", "b", "", "c"]);
    assert_eq!(groups, vec![vec!["a", "b"], vec!["c"]]);
}

#[test]
fn day_11_monkeys_run() {
    let (label, one, two, _, _) = Day11::run(TEST_INPUT).unwrap();
    assert_eq!(label, "Day_11");
    assert_eq!(one, "10605");
    assert_eq!(two, "2713310158");
}
