use aoc2023::gears::{add_gear, get_gears, get_parts, is_gear_char, is_part_char, part1, part2, Gear, Part};

#[test]
fn test_is_part_char() {
    assert_eq!(is_part_char('.'), false);
    assert_eq!(is_part_char('*'), true);
    assert_eq!(is_part_char('$'), true);
    assert_eq!(is_part_char('+'), true);
    assert_eq!(is_part_char('#'), true);
    assert_eq!(is_part_char('a'), false);
    assert_eq!(is_part_char('A'), false);
    assert_eq!(is_part_char('1'), false);
    assert_eq!(is_part_char(' '), false);
}

#[test]
fn test_is_gear_char() {
    assert_eq!(is_gear_char('.'), false);
    assert_eq!(is_gear_char('*'), true);
    assert_eq!(is_gear_char('$'), false);
    assert_eq!(is_gear_char('+'), false);
    assert_eq!(is_gear_char('#'), false);
    assert_eq!(is_gear_char('a'), false);
    assert_eq!(is_gear_char('A'), false);
    assert_eq!(is_gear_char('1'), false);
    assert_eq!(is_gear_char(' '), false);
}

#[test]
fn test_add_gear() {
    let mut gears: Vec<Gear> = Vec::new();
    let gear = Gear { num: 2, is_gear: false, i: 0, j: 0 };
    add_gear(gear, &mut gears);

    assert_eq!(gears.len(), 1);
    assert_eq!(gears[0].num, 2);
    assert_eq!(gears[0].is_gear, false);
    assert_eq!(gears[0].i, 0);
    assert_eq!(gears[0].j, 0);

    let gear = Gear { num: 3, is_gear: false, i: 0, j: 0 };
    add_gear(gear, &mut gears);

    assert_eq!(gears.len(), 1);
    assert_eq!(gears[0].num, 6);
    assert_eq!(gears[0].is_gear, true);
    assert_eq!(gears[0].i, 0);
    assert_eq!(gears[0].j, 0);
}

#[test]
fn gears_at_other_places_are_added() {
    let mut gears: Vec<Gear> = Vec::new();
    add_gear(Gear { num: 2, is_gear: false, i: 0, j: 0 }, &mut gears);
    add_gear(Gear { num: 5, is_gear: false, i: 0, j: 1 }, &mut gears);
    assert_eq!(gears.len(), 2);
    assert_eq!(gears[1].num, 5);
    assert!(!gears[1].is_gear);
}

fn schematic() -> Vec<String> {
    vec![
        "467..114..".to_string(),
        "...*......".to_string(),
        "..35..633.".to_string(),
        "......#...".to_string(),
        "617*......".to_string(),
        ".....+.58.".to_string(),
        "..592.....".to_string(),
        "......755.".to_string(),
        "...$.*....".to_string(),
        ".664.598..".to_string(),
    ]
}

#[test]
fn gears_part1() {
    assert_eq!(part1(schematic()), Some(4361));
}

#[test]
fn gears_part2() {
    assert_eq!(part2(schematic()), Some(467835));
}

#[test]
fn test_get_parts() {
    let parts: Vec<Part> = get_parts(schematic()).unwrap();
    assert_eq!(parts[0].num, 467);
    assert_eq!(parts[0].is_part, true);
    assert_eq!(parts[1].num, 114);
    assert_eq!(parts[1].is_part, false);
    assert_eq!(parts[2].num, 35);
    assert_eq!(parts[2].is_part, true);
    assert_eq!(parts[3].num, 633);
    assert_eq!(parts[3].is_part, true);
    assert_eq!(parts[4].num, 617);
    assert_eq!(parts[4].is_part, true);
    assert_eq!(parts[5].num, 58);
    assert_eq!(parts[5].is_part, false);
    assert_eq!(parts[6].num, 592);
    assert_eq!(parts[6].is_part, true);
    assert_eq!(parts[7].num, 755);
    assert_eq!(parts[7].is_part, true);
    assert_eq!(parts[8].num, 664);
    assert_eq!(parts[8].is_part, true);
    assert_eq!(parts[9].num, 598);
    assert_eq!(parts[9].is_part, true);
}

#[test]
fn gears_join_two_numbers() {
    let gears = get_gears(vec!["12*3".to_string()]).unwrap();
    assert_eq!(gears.len(), 1);
    assert_eq!(gears[0].num, 36);
    assert!(gears[0].is_gear);
    assert!(get_parts(vec!["12".to_string(), "1".to_string()]).is_none());
}
