use aoc::y2024_day_09::{
    check_sum, parse_input, parse_input_for_mapping_data, process_data,
    process_data_with_mapping_data, DataBlock, Day09,
};

const TEST_INPUT: &str = "2333133121414131402";

fn data_to_string(data: &Vec<DataBlock>) -> String {
    data.iter()
        .map(|b| match b {
            DataBlock::Data(id) => id.to_string(),
            DataBlock::Space => ".".to_string(),
        })
        .collect()
}

#[test]
fn disk_part_1() {
    let lines: Vec<&str> = TEST_INPUT.lines().collect();
    assert_eq!(Day09::part_01(&lines), Some(1928));
}

#[test]
fn disk_part_2() {
    let lines: Vec<&str> = TEST_INPUT.lines().collect();
    assert_eq!(Day09::part_02(&lines), Some(2858));
}

#[test]
fn test_parse_input() {
    let data = parse_input(&vec!["12345"]).unwrap();
    assert_eq!("0..111....22222", &data_to_string(&data));
    let data = parse_input(&vec!["2333133121414131402"]).unwrap();
    assert_eq!("00...111...2...333.44.5555.6666.777.888899", &data_to_string(&data));
    assert!(parse_input(&vec!["12x"]).is_none());
}

#[test]
fn test_process_data_1() {
    let data = parse_input(&vec!["12345"]).unwrap();
    assert_eq!("022111222......", &data_to_string(&process_data(&data)));
}

#[test]
fn test_process_data_2() {
    let data = parse_input(&vec!["2333133121414131402"]).unwrap();
    assert_eq!(
        "0099811188827773336446555566..............",
        &data_to_string(&process_data(&data))
    );
}

#[test]
fn test_check_sum() {
    let lines: Vec<&str> = TEST_INPUT.lines().collect();
    let data = parse_input(&lines).unwrap();
    assert_eq!(check_sum(&process_data(&data)), Some(1928));
    assert_eq!(check_sum(&vec![DataBlock::Data(-1)]), None);
}

#[test]
fn test_parse_input_for_mapping_data() {
    let (data, data_map, space_map) = parse_input_for_mapping_data(&vec!["12345"]).unwrap();
    assert_eq!("0..111....22222", &data_to_string(&data));
    assert_eq!(data_map, vec![(0, 1), (3, 3), (10, 5)]);
    assert_eq!(space_map, vec![(1, 2), (6, 4)]);
}

#[test]
fn test_process_data_with_mapping_data() {
    let (data, data_map, space_map) =
        parse_input_for_mapping_data(&vec!["2333133121414131402"]).unwrap();
    let result = process_data_with_mapping_data(&data, data_map, space_map);
    assert_eq!("00992111777.44.333....5555.6666.....8888..", &data_to_string(&result));
}

#[test]
fn disk_run() {
    let (label, one, two, _, _) = Day09::run(TEST_INPUT).unwrap();
    assert_eq!((label.as_str(), one.as_str(), two.as_str()), ("Day_09", "1928", "2858"));
}
