use aoc::y2022_day_16::{
    calculate_release_pressure_from_path, calculate_release_pressure_from_path_at,
    calculate_releasing_pressure_from_valves, validate_possible_result, OptimalResult,
    TOTAL_MINUTES,
};

#[test]
fn test_calculate_releasing_pressure_from_valves() {
    let mut opened_valves = vec![];
    opened_valves.push(("A".to_owned(), 5));
    assert_eq!(5, calculate_releasing_pressure_from_valves(&opened_valves));

    opened_valves.push(("B".to_owned(), 3));
    assert_eq!(8, calculate_releasing_pressure_from_valves(&opened_valves));
}

#[test]
fn test_calculate_release_pressure_from_path() {
    let mut path = vec![];
    path.push(("A".to_owned(), 2, 5, (TOTAL_MINUTES - 2) * 5));
    assert_eq!(
        ((TOTAL_MINUTES - 2) * 5) as i128,
        calculate_release_pressure_from_path(&path)
    );

    path.push(("B".to_owned(), 5, 10, (TOTAL_MINUTES - 5) * 10));
    assert_eq!(
        ((TOTAL_MINUTES - 2) * 5 + (TOTAL_MINUTES - 5) * 10) as i128,
        calculate_release_pressure_from_path(&path)
    );
}

#[test]
fn test_calculate_release_pressure_from_path_at() {
    let mut path = vec![];
    path.push(("A".to_owned(), 2, 5, (TOTAL_MINUTES - 2) * 5));
    assert_eq!((3 - 2) * 5, calculate_release_pressure_from_path_at(&path, 3));

    path.push(("B".to_owned(), 5, 10, (TOTAL_MINUTES - 5) * 10));
    assert_eq!(
        (10 - 2) * 5 + (10 - 5) * 10,
        calculate_release_pressure_from_path_at(&path, 10)
    );
}

#[test]
fn test_validate_possible_result() {
    let b = ("B".to_owned(), 3, 2, (TOTAL_MINUTES - 3) * 2);
    let a = ("A".to_owned(), 15, 5, (TOTAL_MINUTES - 15) * 5);
    let c = ("C".to_owned(), 20, 10, (TOTAL_MINUTES - 20) * 10);
    let optimal_result = OptimalResult {
        total_process: 0,
        path: vec![b.clone(), a.clone(), c.clone()],
        travel_path: vec![],
    };

    println!(
        "Optimal Result: {}",
        calculate_release_pressure_from_path(&optimal_result.path)
    );

    let mut opened_valves = vec![];
    let mut unopened_valves = vec![];
    unopened_valves.push(("A".to_owned(), 5));
    unopened_valves.push(("B".to_owned(), 2));
    unopened_valves.push(("C".to_owned(), 10));
    assert_eq!(
        true,
        validate_possible_result(&optimal_result, &opened_valves, &unopened_valves, &vec![], 5)
    );
    assert_eq!(
        false,
        validate_possible_result(&optimal_result, &opened_valves, &unopened_valves, &vec![], 29)
    );

    opened_valves.push(("A".to_owned(), 15));
    let mut unopened_valves = vec![];
    unopened_valves.push(("B".to_owned(), 2));
    unopened_valves.push(("C".to_owned(), 10));

    let a = ("A".to_owned(), 2, 5, (TOTAL_MINUTES - 2) * 5);
    let current_path = vec![a];
    for (minutes, expected) in [(5, true), (15, true), (20, true), (25, true), (26, false), (27, false), (30, false)] {
        assert_eq!(
            expected,
            validate_possible_result(
                &optimal_result,
                &opened_valves,
                &unopened_valves,
                &current_path,
                minutes
            )
        );
    }
}
